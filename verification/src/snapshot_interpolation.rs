//! The interpolation engine: snapshot ingestion, clock-offset tracking,
//! and the bracketed, type-aware interpolation query.

use crate::math::{
    lemma_lerp_spec_endpoints, lemma_rotation_lerp_endpoints, lemma_wrap_spec_endpoints, lerp,
    lerp_spec, quat_in_range, rotation_lerp, rotation_lerp_spec, rotation_normalize_spec,
    time_lerp, wrap_angle_lerp, wrap_angle_lerp_spec, FULL_TURN_MILLI_DEGREES,
    FULL_TURN_MILLI_RADIANS,
};
use crate::vault::{
    first_at_or_before, vault_add_spec, EntityGroup, EntityView, GroupView, SnapolationEntities,
    SnapolationEntity, Snapshot, SnapshotView, StateField, StateValue, Vault,
};
use vstd::arithmetic::div_mod::lemma_div_multiples_vanish;
use vstd::prelude::*;

verus! {

/// Millisecond threshold above which a freshly measured offset
/// discrepancy replaces the stored clock offset.
pub const OFFSET_TOLERANCE_MS: i128 = 50;

/// Cap on the magnitude of the stored clock offset, in milliseconds:
/// the edge of the signed 128-bit domain, reachable only after
/// astronomically many worst-case corrections.
pub const CLOCK_OFFSET_CAP_MS: i128 = i128::MAX - 0x2_0000_0000_0000_0000;

/// A fatal data-integrity fault: the same field carries differently
/// tagged values in the two snapshots being interpolated.
#[derive(Clone, Copy, PartialEq, Eq, Structural, Debug)]
pub enum InterpolationError {
    TypeMismatch,
}

/// The member list of the first group with the given key, if any.
pub open spec fn lookup_group(groups: Seq<GroupView>, key: Seq<char>) -> Option<Seq<EntityView>>
    decreases groups.len(),
{
    if groups.len() == 0 {
        None
    } else if groups[0].key == key {
        Some(groups[0].members)
    } else {
        lookup_group(groups.drop_first(), key)
    }
}

/// The first entity record with the given id, if any.
pub open spec fn find_entity(ents: Seq<EntityView>, id: u64) -> Option<EntityView>
    decreases ents.len(),
{
    if ents.len() == 0 {
        None
    } else if ents[0].id == id {
        Some(ents[0])
    } else {
        find_entity(ents.drop_first(), id)
    }
}

/// The value of the first state field with the given key, if any.
pub open spec fn lookup_state(state: Seq<(Seq<char>, StateValue)>, key: Seq<char>) -> Option<
    StateValue,
>
    decreases state.len(),
{
    if state.len() == 0 {
        None
    } else if state[0].0 == key {
        Some(state[0].1)
    } else {
        lookup_state(state.drop_first(), key)
    }
}

/// Wrapping interpolation on angles inside the canonical range of
/// their unit; an angle outside its canonical range interpolates
/// linearly instead, the wrap rule being meaningful only on the
/// circle.
pub open spec fn angle_interp_spec(o: int, n: int, num: int, den: int, full_turn: int) -> int {
    if 0 <= o < full_turn && 0 <= n < full_turn {
        wrap_angle_lerp_spec(o, n, num, den, full_turn)
    } else {
        lerp_spec(o, n, num, den)
    }
}

/// How one matched pair of values interpolates at fraction `num / den`:
/// by the rule its tag selects, from the older value toward the newer —
/// rotations take the shortest arc and come back scaled onto the unit
/// sphere; `None` when the tags differ.
pub open spec fn interp_value_spec(newer: StateValue, older: StateValue, num: int, den: int) -> Option<
    StateValue,
> {
    match (newer, older) {
        (StateValue::Number(n), StateValue::Number(o)) => Some(
            StateValue::Number(lerp_spec(o as int, n as int, num, den) as i64),
        ),
        (StateValue::Degree(n), StateValue::Degree(o)) => Some(
            StateValue::Degree(
                angle_interp_spec(
                    o as int,
                    n as int,
                    num,
                    den,
                    FULL_TURN_MILLI_DEGREES as int,
                ) as i64,
            ),
        ),
        (StateValue::Radian(n), StateValue::Radian(o)) => Some(
            StateValue::Radian(
                angle_interp_spec(
                    o as int,
                    n as int,
                    num,
                    den,
                    FULL_TURN_MILLI_RADIANS as int,
                ) as i64,
            ),
        ),
        (
            StateValue::Rotation(nx, ny, nz, nw),
            StateValue::Rotation(ox, oy, oz, ow),
        ) => Some(
            StateValue::Rotation(
                rotation_lerp_spec(
                    ox as int,
                    oy as int,
                    oz as int,
                    ow as int,
                    nx as int,
                    ny as int,
                    nz as int,
                    nw as int,
                    num,
                    den,
                ).0 as i64,
                rotation_lerp_spec(
                    ox as int,
                    oy as int,
                    oz as int,
                    ow as int,
                    nx as int,
                    ny as int,
                    nz as int,
                    nw as int,
                    num,
                    den,
                ).1 as i64,
                rotation_lerp_spec(
                    ox as int,
                    oy as int,
                    oz as int,
                    ow as int,
                    nx as int,
                    ny as int,
                    nz as int,
                    nw as int,
                    num,
                    den,
                ).2 as i64,
                rotation_lerp_spec(
                    ox as int,
                    oy as int,
                    oz as int,
                    ow as int,
                    nx as int,
                    ny as int,
                    nz as int,
                    nw as int,
                    num,
                    den,
                ).3 as i64,
            ),
        ),
        _ => None,
    }
}

/// The interpolated field list of one matched entity pair: each
/// requested key held by both records contributes one field, a key
/// missing on either side is omitted, and a tag disagreement is a type
/// mismatch.
pub open spec fn interp_fields_spec(
    ns: Seq<(Seq<char>, StateValue)>,
    os: Seq<(Seq<char>, StateValue)>,
    keys: Seq<Seq<char>>,
    num: int,
    den: int,
) -> Result<Seq<(Seq<char>, StateValue)>, InterpolationError>
    decreases keys.len(),
{
    if keys.len() == 0 {
        Ok(Seq::empty())
    } else {
        match interp_fields_spec(ns, os, keys.drop_last(), num, den) {
            Err(e) => Err(e),
            Ok(done) => {
                let k = keys.last();
                match (lookup_state(ns, k), lookup_state(os, k)) {
                    (Some(nv), Some(ov)) => match interp_value_spec(nv, ov, num, den) {
                        Some(v) => Ok(done.push((k, v))),
                        None => Err(InterpolationError::TypeMismatch),
                    },
                    _ => Ok(done),
                }
            },
        }
    }
}

/// The interpolated entity list: each entity of the newer list whose id
/// also appears in the older list contributes its interpolated fields;
/// entities with no surviving field are omitted.
pub open spec fn interp_entities_spec(
    nes: Seq<EntityView>,
    oes: Seq<EntityView>,
    keys: Seq<Seq<char>>,
    num: int,
    den: int,
) -> Result<Seq<EntityView>, InterpolationError>
    decreases nes.len(),
{
    if nes.len() == 0 {
        Ok(Seq::empty())
    } else {
        match interp_entities_spec(nes.drop_last(), oes, keys, num, den) {
            Err(e) => Err(e),
            Ok(done) => {
                let ent = nes.last();
                match find_entity(oes, ent.id) {
                    None => Ok(done),
                    Some(oe) => match interp_fields_spec(ent.state, oe.state, keys, num, den) {
                        Err(er) => Err(er),
                        Ok(fs) => if fs.len() == 0 {
                            Ok(done)
                        } else {
                            Ok(done.push(EntityView { id: ent.id, state: fs }))
                        },
                    },
                }
            },
        }
    }
}

/// The interpolated entities of one bracketed query: the requested
/// group of the newer snapshot matched against the same group of the
/// older one; an absent group on either side yields no entities.
pub open spec fn interp_groups_spec(
    newer: SnapshotView,
    older: SnapshotView,
    entity_key: Seq<char>,
    keys: Seq<Seq<char>>,
    num: int,
    den: int,
) -> Result<Seq<EntityView>, InterpolationError> {
    match (lookup_group(newer.entities, entity_key), lookup_group(older.entities, entity_key)) {
        (Some(nes), Some(oes)) => interp_entities_spec(nes, oes, keys, num, den),
        _ => Ok(Seq::empty()),
    }
}

/// When interpolating a matched pair reproduces its endpoints
/// exactly: always, except for rotations, which are reproduced when
/// both quaternions already lie on the unit sphere of the fixed-point
/// grid and on the same hemisphere; any other rotation comes back
/// scaled onto the sphere, or sign-flipped to the near hemisphere.
pub open spec fn rotation_endpoint_exact(newer: StateValue, older: StateValue) -> bool {
    match (newer, older) {
        (StateValue::Rotation(nx, ny, nz, nw), StateValue::Rotation(ox, oy, oz, ow)) => {
            &&& quat_in_range(ox as int) && quat_in_range(oy as int) && quat_in_range(oz as int)
                && quat_in_range(ow as int)
            &&& quat_in_range(nx as int) && quat_in_range(ny as int) && quat_in_range(nz as int)
                && quat_in_range(nw as int)
            &&& (ox as int) * (nx as int) + (oy as int) * (ny as int) + (oz as int) * (nz as int)
                + (ow as int) * (nw as int) >= 0
            &&& rotation_normalize_spec(ox as int, oy as int, oz as int, ow as int) == (
                ox as int,
                oy as int,
                oz as int,
                ow as int,
            )
            &&& rotation_normalize_spec(nx as int, ny as int, nz as int, nw as int) == (
                nx as int,
                ny as int,
                nz as int,
                nw as int,
            )
        },
        _ => true,
    }
}

/// Interpolating at the ends of the fraction reproduces the older
/// value exactly at fraction zero and the newer value exactly at
/// fraction one, for every pair of matching tags; a rotation pair is
/// reproduced when both quaternions are unit and same-hemisphere.
pub proof fn lemma_interp_value_endpoints(newer: StateValue, older: StateValue, den: int)
    requires
        1 <= den,
        interp_value_spec(newer, older, 0, den) is Some,
        rotation_endpoint_exact(newer, older),
    ensures
        interp_value_spec(newer, older, 0, den) == Some(older),
        interp_value_spec(newer, older, den, den) == Some(newer),
{
    match (newer, older) {
        (StateValue::Number(n), StateValue::Number(o)) => {
            lemma_lerp_spec_endpoints(o as int, n as int, den);
        },
        (StateValue::Degree(n), StateValue::Degree(o)) => {
            if 0 <= o && o < FULL_TURN_MILLI_DEGREES && 0 <= n && n < FULL_TURN_MILLI_DEGREES {
                lemma_wrap_spec_endpoints(
                    o as int,
                    n as int,
                    den,
                    FULL_TURN_MILLI_DEGREES as int,
                );
            } else {
                lemma_lerp_spec_endpoints(o as int, n as int, den);
            }
        },
        (StateValue::Radian(n), StateValue::Radian(o)) => {
            if 0 <= o && o < FULL_TURN_MILLI_RADIANS && 0 <= n && n < FULL_TURN_MILLI_RADIANS {
                lemma_wrap_spec_endpoints(
                    o as int,
                    n as int,
                    den,
                    FULL_TURN_MILLI_RADIANS as int,
                );
            } else {
                lemma_lerp_spec_endpoints(o as int, n as int, den);
            }
        },
        (
            StateValue::Rotation(nx, ny, nz, nw),
            StateValue::Rotation(ox, oy, oz, ow),
        ) => {
            lemma_rotation_lerp_endpoints(
                ox as int,
                oy as int,
                oz as int,
                ow as int,
                nx as int,
                ny as int,
                nz as int,
                nw as int,
                den,
            );
        },
        _ => {
        },
    }
}

/// Interpolating a whole field list at the ends of the fraction is
/// exact: every surviving field carries the older record's value at
/// fraction zero and the newer record's value at fraction one, the
/// same fields surviving at both ends.
pub proof fn lemma_interp_fields_endpoints(
    ns: Seq<(Seq<char>, StateValue)>,
    os: Seq<(Seq<char>, StateValue)>,
    keys: Seq<Seq<char>>,
    den: int,
)
    requires
        1 <= den,
        interp_fields_spec(ns, os, keys, 0, den) is Ok,
        forall|j: int|
            0 <= j < keys.len() && lookup_state(ns, #[trigger] keys[j]) is Some && lookup_state(
                os,
                keys[j],
            ) is Some ==> rotation_endpoint_exact(
                lookup_state(ns, keys[j])->Some_0,
                lookup_state(os, keys[j])->Some_0,
            ),
    ensures
        interp_fields_spec(ns, os, keys, den, den) is Ok,
        interp_fields_spec(ns, os, keys, den, den)->Ok_0.len() == interp_fields_spec(
            ns,
            os,
            keys,
            0,
            den,
        )->Ok_0.len(),
        forall|idx: int|
            0 <= idx < interp_fields_spec(ns, os, keys, 0, den)->Ok_0.len() ==> (
            #[trigger] interp_fields_spec(ns, os, keys, 0, den)->Ok_0[idx]).1 == lookup_state(
                os,
                interp_fields_spec(ns, os, keys, 0, den)->Ok_0[idx].0,
            )->Some_0,
        forall|idx: int|
            0 <= idx < interp_fields_spec(ns, os, keys, den, den)->Ok_0.len() ==> (
            #[trigger] interp_fields_spec(ns, os, keys, den, den)->Ok_0[idx]).1 == lookup_state(
                ns,
                interp_fields_spec(ns, os, keys, den, den)->Ok_0[idx].0,
            )->Some_0,
    decreases keys.len(),
{
    lemma_interp_fields_present(ns, os, keys, 0, den);
    if keys.len() == 0 {
    } else {
        assert(interp_fields_spec(ns, os, keys.drop_last(), 0, den) is Ok);
        assert forall|j: int|
            0 <= j < keys.drop_last().len() && lookup_state(
                ns,
                #[trigger] keys.drop_last()[j],
            ) is Some && lookup_state(os, keys.drop_last()[j]) is Some implies rotation_endpoint_exact(
            lookup_state(ns, keys.drop_last()[j])->Some_0,
            lookup_state(os, keys.drop_last()[j])->Some_0,
        ) by {
            assert(keys.drop_last()[j] == keys[j]);
        }
        lemma_interp_fields_endpoints(ns, os, keys.drop_last(), den);
        let k = keys.last();
        assert(keys[keys.len() - 1] == k);
        match (lookup_state(ns, k), lookup_state(os, k)) {
            (Some(nv), Some(ov)) => {
                assert(interp_value_spec(nv, ov, 0, den) is Some);
                assert(rotation_endpoint_exact(nv, ov));
                lemma_interp_value_endpoints(nv, ov, den);
            },
            _ => {
            },
        }
        lemma_interp_fields_present(ns, os, keys, den, den);
    }
}

/// Every field of an interpolated record stems from a requested key
/// whose value is present in both source records: a key missing on
/// either side contributes nothing and raises no error.
pub proof fn lemma_interp_fields_present(
    ns: Seq<(Seq<char>, StateValue)>,
    os: Seq<(Seq<char>, StateValue)>,
    keys: Seq<Seq<char>>,
    num: int,
    den: int,
)
    requires
        interp_fields_spec(ns, os, keys, num, den) is Ok,
    ensures
        forall|idx: int|
            0 <= idx < interp_fields_spec(ns, os, keys, num, den)->Ok_0.len() ==> keys.contains(
                (#[trigger] interp_fields_spec(ns, os, keys, num, den)->Ok_0[idx]).0,
            ) && lookup_state(ns, interp_fields_spec(ns, os, keys, num, den)->Ok_0[idx].0) is Some
                && lookup_state(
                os,
                interp_fields_spec(ns, os, keys, num, den)->Ok_0[idx].0,
            ) is Some,
    decreases keys.len(),
{
    if keys.len() == 0 {
    } else {
        let full = interp_fields_spec(ns, os, keys, num, den)->Ok_0;
        let prevr = interp_fields_spec(ns, os, keys.drop_last(), num, den);
        assert(prevr is Ok);
        lemma_interp_fields_present(ns, os, keys.drop_last(), num, den);
        let prev = prevr->Ok_0;
        assert forall|idx: int| 0 <= idx < full.len() implies keys.contains(
            (#[trigger] full[idx]).0,
        ) && lookup_state(ns, full[idx].0) is Some && lookup_state(os, full[idx].0) is Some by {
            if idx < prev.len() {
                let f = prev[idx];
                assert(keys.drop_last().contains(f.0) && lookup_state(ns, f.0) is Some
                    && lookup_state(os, f.0) is Some);
                let w = choose|w: int|
                    0 <= w < keys.drop_last().len() && keys.drop_last()[w] == f.0;
                assert(keys[w] == f.0);
            } else {
                assert(full[idx].0 == keys.last());
                assert(keys[keys.len() - 1] == keys.last());
            }
        }
    }
}

/// A requested key whose two values are present but differently
/// tagged makes the whole interpolation report a type mismatch.
pub proof fn lemma_interp_fields_mismatch(
    ns: Seq<(Seq<char>, StateValue)>,
    os: Seq<(Seq<char>, StateValue)>,
    keys: Seq<Seq<char>>,
    num: int,
    den: int,
    k: Seq<char>,
)
    requires
        keys.contains(k),
        lookup_state(ns, k) is Some,
        lookup_state(os, k) is Some,
        interp_value_spec(
            lookup_state(ns, k)->Some_0,
            lookup_state(os, k)->Some_0,
            num,
            den,
        ) is None,
    ensures
        interp_fields_spec(ns, os, keys, num, den) is Err,
    decreases keys.len(),
{
    let w = choose|w: int| 0 <= w < keys.len() && keys[w] == k;
    if keys.last() == k {
    } else {
        assert(keys.drop_last().contains(k)) by {
            assert(w < keys.len() - 1);
            assert(keys.drop_last()[w] == k);
        }
        lemma_interp_fields_mismatch(ns, os, keys.drop_last(), num, den, k);
    }
}

/// A matched entity pair whose fields report a type mismatch makes
/// the whole entity-list interpolation report it: the fault is never
/// masked by the surrounding entities.
pub proof fn lemma_interp_entities_mismatch(
    nes: Seq<EntityView>,
    oes: Seq<EntityView>,
    keys: Seq<Seq<char>>,
    num: int,
    den: int,
    i: int,
)
    requires
        0 <= i < nes.len(),
        find_entity(oes, nes[i].id) is Some,
        interp_fields_spec(
            nes[i].state,
            find_entity(oes, nes[i].id)->Some_0.state,
            keys,
            num,
            den,
        ) is Err,
    ensures
        interp_entities_spec(nes, oes, keys, num, den) is Err,
{
    assert(nes.take(i + 1).drop_last() =~= nes.take(i));
    assert(nes.take(i + 1).last() == nes[i]);
    if interp_entities_spec(nes.take(i), oes, keys, num, den) is Err {
        lemma_entities_err_persists(nes, oes, keys, i, num, den);
    } else {
        assert(interp_entities_spec(nes.take(i + 1), oes, keys, num, den) is Err);
        lemma_entities_err_persists(nes, oes, keys, i + 1, num, den);
    }
}

/// Which of two candidate snapshots is chronologically newer, the
/// first argument winning ties.
pub open spec fn newer_of(a: SnapshotView, b: SnapshotView) -> SnapshotView {
    if b.time > a.time {
        b
    } else {
        a
    }
}

/// Which of two candidate snapshots is chronologically older.
pub open spec fn older_of(a: SnapshotView, b: SnapshotView) -> SnapshotView {
    if b.time > a.time {
        a
    } else {
        b
    }
}

/// The numerator of the interpolation fraction at `target`; a shared
/// snapshot time yields the neutral fraction zero.
pub open spec fn frac_num_spec(newer_t: int, older_t: int, target: int) -> int {
    if newer_t == older_t {
        0
    } else {
        target - older_t
    }
}

/// The denominator of the interpolation fraction.
pub open spec fn frac_den_spec(newer_t: int, older_t: int) -> int {
    if newer_t == older_t {
        1
    } else {
        newer_t - older_t
    }
}

/// The views of a list of requested field keys.
pub open spec fn keys_view(keys: Seq<String>) -> Seq<Seq<char>> {
    Seq::new(keys.len(), |i: int| keys[i]@)
}

/// The views of a list of entity records.
pub open spec fn entity_views(s: Seq<SnapolationEntity>) -> Seq<EntityView> {
    Seq::new(s.len(), |i: int| s[i]@)
}

/// The views of a list of state fields.
pub open spec fn field_views(s: Seq<StateField>) -> Seq<(Seq<char>, StateValue)> {
    Seq::new(s.len(), |i: int| s[i]@)
}

/// The outcome of one interpolation query.
#[derive(Debug)]
pub struct InterpolatedSnapshot {
    pub entities: Vec<SnapolationEntity>,
    pub fraction_num: u64,
    pub fraction_den: u64,
    pub newer_id: u64,
    pub older_id: u64,
}

/// The mathematical image of an interpolation outcome.
pub struct InterpolatedSnapshotView {
    pub entities: Seq<EntityView>,
    pub fraction_num: u64,
    pub fraction_den: u64,
    pub newer_id: u64,
    pub older_id: u64,
}

impl View for InterpolatedSnapshot {
    type V = InterpolatedSnapshotView;

    open spec fn view(&self) -> InterpolatedSnapshotView {
        InterpolatedSnapshotView {
            entities: entity_views(self.entities@),
            fraction_num: self.fraction_num,
            fraction_den: self.fraction_den,
            newer_id: self.newer_id,
            older_id: self.older_id,
        }
    }
}

/// The full outcome of `interpolate`: the interpolated entities, the
/// fraction used, and the ids of the two source snapshots.
pub open spec fn interpolate_result_spec(
    a: SnapshotView,
    b: SnapshotView,
    target: u64,
    entity_key: Seq<char>,
    keys: Seq<Seq<char>>,
) -> Result<InterpolatedSnapshotView, InterpolationError> {
    let newer = newer_of(a, b);
    let older = older_of(a, b);
    let num = frac_num_spec(newer.time as int, older.time as int, target as int);
    let den = frac_den_spec(newer.time as int, older.time as int);
    match interp_groups_spec(newer, older, entity_key, keys, num, den) {
        Err(e) => Err(e),
        Ok(ents) => Ok(
            InterpolatedSnapshotView {
                entities: ents,
                fraction_num: num as u64,
                fraction_den: den as u64,
                newer_id: newer.id,
                older_id: older.id,
            },
        ),
    }
}

/// The clock offset after ingesting a snapshot captured at `t` and
/// received at local time `now`: the first estimate is always
/// `now - t`; with auto-correction on, a later discrepancy above the
/// tolerance replaces the stored offset by the magnitude of that
/// discrepancy, capped at `CLOCK_OFFSET_CAP_MS`.
pub open spec fn offset_after_spec(off: Option<i128>, autocorrect: bool, now: int, t: int) -> Option<
    i128,
> {
    match off {
        None => Some((now - t) as i128),
        Some(o) => {
            let inst = now - t;
            let diff = if o >= inst {
                o - inst
            } else {
                inst - o
            };
            if autocorrect && diff > OFFSET_TOLERANCE_MS {
                Some(
                    (if diff > CLOCK_OFFSET_CAP_MS {
                        CLOCK_OFFSET_CAP_MS as int
                    } else {
                        diff
                    }) as i128,
                )
            } else {
                Some(o)
            }
        },
    }
}

/// The render-time target derived from the current local time: behind
/// `now` by the estimated offset and the delay buffer, saturating at
/// the ends of the timestamp domain.
pub open spec fn render_target_spec(off: int, buffer: int, now: int) -> int {
    let rt = now - off - buffer;
    if rt > 0xFFFF_FFFF_FFFF_FFFF {
        0xFFFF_FFFF_FFFF_FFFF
    } else {
        rt
    }
}

/// The interpolation engine: owns the snapshot store and tracks the
/// clock offset and the render-delay buffer.
#[derive(Debug)]
pub struct SnapshotInterpolation {
    pub vault: Vault,
    pub interpolation_buffer: u64,
    pub time_offset: Option<i128>,
    pub autocorrect_time_offset: bool,
    pub server_time: u64,
}

proof fn lemma_fields_err_persists(
    ns: Seq<(Seq<char>, StateValue)>,
    os: Seq<(Seq<char>, StateValue)>,
    keys: Seq<Seq<char>>,
    j: int,
    num: int,
    den: int,
)
    requires
        0 <= j <= keys.len(),
        interp_fields_spec(ns, os, keys.take(j), num, den) is Err,
    ensures
        interp_fields_spec(ns, os, keys, num, den) is Err,
    decreases keys.len() - j,
{
    if j == keys.len() {
        assert(keys.take(j) =~= keys);
    } else {
        assert(keys.take(j + 1).drop_last() =~= keys.take(j));
        lemma_fields_err_persists(ns, os, keys, j + 1, num, den);
    }
}

proof fn lemma_entities_err_persists(
    nes: Seq<EntityView>,
    oes: Seq<EntityView>,
    keys: Seq<Seq<char>>,
    i: int,
    num: int,
    den: int,
)
    requires
        0 <= i <= nes.len(),
        interp_entities_spec(nes.take(i), oes, keys, num, den) is Err,
    ensures
        interp_entities_spec(nes, oes, keys, num, den) is Err,
    decreases nes.len() - i,
{
    if i == nes.len() {
        assert(nes.take(i) =~= nes);
    } else {
        assert(nes.take(i + 1).drop_last() =~= nes.take(i));
        lemma_entities_err_persists(nes, oes, keys, i + 1, num, den);
    }
}

/// First group whose key matches, as an index into the vector.
fn group_index(groups: &Vec<EntityGroup>, key: &String) -> (r: Option<usize>)
    ensures
        ({
            let gv = Seq::new(groups@.len(), |i: int| groups@[i]@);
            match r {
                Some(i) => i < groups@.len() && gv[i as int].key == key@ && lookup_group(
                    gv,
                    key@,
                ) == Some(gv[i as int].members),
                None => lookup_group(gv, key@) is None,
            }
        }),
{
    let ghost gv = Seq::new(groups@.len(), |i: int| groups@[i]@);
    proof {
        assert(gv.skip(0) =~= gv);
    }
    let mut i: usize = 0;
    while i < groups.len()
        invariant
            i <= groups@.len(),
            gv == Seq::new(groups@.len(), |k: int| groups@[k]@),
            lookup_group(gv, key@) == lookup_group(gv.skip(i as int), key@),
        decreases groups@.len() - i,
    {
        if groups[i].key == *key {
            proof {
                assert(gv.skip(i as int)[0] == gv[i as int]);
            }
            return Some(i);
        }
        proof {
            assert(gv.skip(i as int)[0] == gv[i as int]);
            assert(gv.skip(i as int).drop_first() =~= gv.skip(i as int + 1));
        }
        i = i + 1;
    }
    None
}

/// First entity whose id matches, as an index into the vector.
fn entity_index(ents: &Vec<SnapolationEntity>, id: u64) -> (r: Option<usize>)
    ensures
        ({
            let ev = entity_views(ents@);
            match r {
                Some(i) => i < ents@.len() && ev[i as int].id == id && find_entity(ev, id)
                    == Some(ev[i as int]),
                None => find_entity(ev, id) is None,
            }
        }),
{
    let ghost ev = entity_views(ents@);
    proof {
        assert(ev.skip(0) =~= ev);
    }
    let mut i: usize = 0;
    while i < ents.len()
        invariant
            i <= ents@.len(),
            ev == entity_views(ents@),
            find_entity(ev, id) == find_entity(ev.skip(i as int), id),
        decreases ents@.len() - i,
    {
        if ents[i].id == id {
            proof {
                assert(ev.skip(i as int)[0] == ev[i as int]);
            }
            return Some(i);
        }
        proof {
            assert(ev.skip(i as int)[0] == ev[i as int]);
            assert(ev.skip(i as int).drop_first() =~= ev.skip(i as int + 1));
        }
        i = i + 1;
    }
    None
}

/// First state field whose key matches, as an index into the vector.
fn state_index(state: &Vec<StateField>, key: &String) -> (r: Option<usize>)
    ensures
        ({
            let sv = field_views(state@);
            match r {
                Some(i) => i < state@.len() && sv[i as int].0 == key@ && lookup_state(sv, key@)
                    == Some(sv[i as int].1),
                None => lookup_state(sv, key@) is None,
            }
        }),
{
    let ghost sv = field_views(state@);
    proof {
        assert(sv.skip(0) =~= sv);
    }
    let mut i: usize = 0;
    while i < state.len()
        invariant
            i <= state@.len(),
            sv == field_views(state@),
            lookup_state(sv, key@) == lookup_state(sv.skip(i as int), key@),
        decreases state@.len() - i,
    {
        if state[i].key == *key {
            proof {
                assert(sv.skip(i as int)[0] == sv[i as int]);
            }
            return Some(i);
        }
        proof {
            assert(sv.skip(i as int)[0] == sv[i as int]);
            assert(sv.skip(i as int).drop_first() =~= sv.skip(i as int + 1));
        }
        i = i + 1;
    }
    None
}

/// Wrapping interpolation on canonical angles; an endpoint outside
/// the canonical range makes the pair interpolate linearly, the wrap
/// rule being meaningful only on the circle.
fn angle_interp(o: i64, n: i64, num: u64, den: u64, full_turn: i64) -> (r: i64)
    requires
        1 <= den,
        num <= den,
        1 <= full_turn <= 0x4000_0000_0000_0000,
    ensures
        r == angle_interp_spec(o as int, n as int, num as int, den as int, full_turn as int),
{
    if 0 <= o && o < full_turn && 0 <= n && n < full_turn {
        wrap_angle_lerp(o, n, num, den, full_turn)
    } else {
        lerp(o, n, num, den)
    }
}

/// Interpolates one matched pair of values by the rule its tag
/// selects, from the older value toward the newer; `None` reports a
/// tag mismatch.
pub fn interpolate_value(newer: StateValue, older: StateValue, num: u64, den: u64) -> (r: Option<
    StateValue,
>)
    requires
        1 <= den,
        num <= den,
    ensures
        r == interp_value_spec(newer, older, num as int, den as int),
{
    match (newer, older) {
        (StateValue::Number(n), StateValue::Number(o)) => Some(
            StateValue::Number(lerp(o, n, num, den)),
        ),
        (StateValue::Degree(n), StateValue::Degree(o)) => Some(
            StateValue::Degree(angle_interp(o, n, num, den, FULL_TURN_MILLI_DEGREES)),
        ),
        (StateValue::Radian(n), StateValue::Radian(o)) => Some(
            StateValue::Radian(angle_interp(o, n, num, den, FULL_TURN_MILLI_RADIANS)),
        ),
        (
            StateValue::Rotation(nx, ny, nz, nw),
            StateValue::Rotation(ox, oy, oz, ow),
        ) => {
            let q = rotation_lerp(ox, oy, oz, ow, nx, ny, nz, nw, num, den);
            Some(StateValue::Rotation(q.0, q.1, q.2, q.3))
        },
        _ => None,
    }
}

impl SnapshotInterpolation {
    /// The engine's invariant: the store is well formed, the stored
    /// offset is bounded, and nothing is stored before the first
    /// offset estimate.
    pub open spec fn wf(&self) -> bool {
        &&& self.vault.wf()
        &&& (self.time_offset is Some ==> -CLOCK_OFFSET_CAP_MS <= self.time_offset->Some_0
            <= CLOCK_OFFSET_CAP_MS)
        &&& (self.time_offset is None ==> self.vault@.len() == 0)
    }

    /// A fresh engine for a producer ticking `server_fps` times per
    /// second; the render-delay buffer is three tick durations.
    pub fn new(server_fps: u64) -> (r: SnapshotInterpolation)
        requires
            1 <= server_fps,
        ensures
            r.wf(),
            r.vault@ == Seq::<SnapshotView>::empty(),
            r.vault.vault_size == crate::vault::DEFAULT_VAULT_SIZE,
            r.interpolation_buffer == 3000u64 / server_fps,
            r.time_offset is None,
            r.autocorrect_time_offset,
            r.server_time == 0,
    {
        SnapshotInterpolation {
            vault: Vault::default(),
            interpolation_buffer: 3000 / server_fps,
            time_offset: None,
            autocorrect_time_offset: true,
            server_time: 0,
        }
    }

    /// A snapshot stamped with the supplied current time, which also
    /// serves as its id.
    pub fn create_snapshot(entities: SnapolationEntities, now_ms: u64) -> (s: Snapshot)
        ensures
            s.id == now_ms,
            s.time == now_ms,
            s@.entities == Seq::new(entities@.len(), |i: int| entities@[i]@),
    {
        Snapshot { id: now_ms, time: now_ms, entities }
    }

    /// Ingests one snapshot received at local time `now_ms`: estimates
    /// or auto-corrects the clock offset, then stores the snapshot,
    /// evicting the oldest retained one when at capacity.
    pub fn add_snapshot(&mut self, snapshot: Snapshot, now_ms: u64)
        requires
            old(self).wf(),
        ensures
            final(self).wf(),
            final(self).vault@ == vault_add_spec(
                old(self).vault@,
                snapshot@,
                old(self).vault.vault_size as nat,
            ),
            final(self).vault.vault_size == old(self).vault.vault_size,
            final(self).interpolation_buffer == old(self).interpolation_buffer,
            final(self).autocorrect_time_offset == old(self).autocorrect_time_offset,
            final(self).server_time == old(self).server_time,
            final(self).time_offset == offset_after_spec(
                old(self).time_offset,
                old(self).autocorrect_time_offset,
                now_ms as int,
                snapshot.time as int,
            ),
    {
        let inst: i128 = now_ms as i128 - snapshot.time as i128;
        match self.time_offset {
            None => {
                self.time_offset = Some(inst);
            },
            Some(o) => {
                if self.autocorrect_time_offset {
                    let diff: i128 = if o >= inst {
                        o - inst
                    } else {
                        inst - o
                    };
                    if diff > OFFSET_TOLERANCE_MS {
                        self.time_offset = Some(
                            if diff > CLOCK_OFFSET_CAP_MS {
                                CLOCK_OFFSET_CAP_MS
                            } else {
                                diff
                            },
                        );
                    }
                }
            },
        }
        self.vault.add(snapshot);
    }

    /// Interpolates the two snapshots' matched entities of the group
    /// under `entity_key` at `time`, which must lie between the two
    /// capture times: the fixed-point value domain cannot carry
    /// unbounded extrapolation beyond the newer snapshot. The
    /// chronological order of the arguments is established
    /// internally, and `server_time` is updated to the interpolated
    /// timestamp.
    #[verifier::loop_isolation(false)]
    pub fn interpolate(
        &mut self,
        snapshot_a: &Snapshot,
        snapshot_b: &Snapshot,
        time: u64,
        entity_key: &String,
        state_keys: &Vec<String>,
    ) -> (r: Result<InterpolatedSnapshot, InterpolationError>)
        requires
            older_of(snapshot_a@, snapshot_b@).time <= time,
            time <= newer_of(snapshot_a@, snapshot_b@).time,
        ensures
            final(self).vault@ == old(self).vault@,
            final(self).vault.vault_size == old(self).vault.vault_size,
            final(self).interpolation_buffer == old(self).interpolation_buffer,
            final(self).time_offset == old(self).time_offset,
            final(self).autocorrect_time_offset == old(self).autocorrect_time_offset,
            final(self).server_time == time,
            r is Err ==> interpolate_result_spec(
                snapshot_a@,
                snapshot_b@,
                time,
                entity_key@,
                keys_view(state_keys@),
            ) is Err,
            r is Ok ==> interpolate_result_spec(
                snapshot_a@,
                snapshot_b@,
                time,
                entity_key@,
                keys_view(state_keys@),
            ) is Ok && r->Ok_0@ == interpolate_result_spec(
                snapshot_a@,
                snapshot_b@,
                time,
                entity_key@,
                keys_view(state_keys@),
            )->Ok_0,
    {
        let ghost spec_r = interpolate_result_spec(
            snapshot_a@,
            snapshot_b@,
            time,
            entity_key@,
            keys_view(state_keys@),
        );
        let (newer, older) = if snapshot_b.time > snapshot_a.time {
            (snapshot_b, snapshot_a)
        } else {
            (snapshot_a, snapshot_b)
        };
        proof {
            assert(newer@ == newer_of(snapshot_a@, snapshot_b@));
            assert(older@ == older_of(snapshot_a@, snapshot_b@));
        }
        let t0: u64 = newer.time;
        let t1: u64 = older.time;
        let (num, den): (u64, u64) = if t0 == t1 {
            (0, 1)
        } else {
            (time - t1, t0 - t1)
        };
        proof {
            assert(num == frac_num_spec(t0 as int, t1 as int, time as int));
            assert(den == frac_den_spec(t0 as int, t1 as int));
        }
        self.server_time = time_lerp(t1, t0, num, den);
        proof {
            if t0 != t1 {
                lemma_div_multiples_vanish(num as int, den as int);
            }
            assert(self.server_time == time);
        }
        let ghost keysv = keys_view(state_keys@);
        let mut result_entities: Vec<SnapolationEntity> = Vec::new();
        let n_gi = group_index(&newer.entities, entity_key);
        let o_gi = group_index(&older.entities, entity_key);
        proof {
            assert(Seq::new(newer.entities@.len(), |i: int| newer.entities@[i]@)
                == newer@.entities);
            assert(Seq::new(older.entities@.len(), |i: int| older.entities@[i]@)
                == older@.entities);
        }
        match (n_gi, o_gi) {
            (Some(ngi), Some(ogi)) => {
                let nes: &Vec<SnapolationEntity> = &newer.entities[ngi].members;
                let oes: &Vec<SnapolationEntity> = &older.entities[ogi].members;
                let ghost nesv = newer@.entities[ngi as int].members;
                let ghost oesv = older@.entities[ogi as int].members;
                proof {
                    assert(nesv == entity_views(nes@));
                    assert(oesv == entity_views(oes@));
                    assert(lookup_group(newer@.entities, entity_key@) == Some(nesv));
                    assert(lookup_group(older@.entities, entity_key@) == Some(oesv));
                    assert(nesv.take(0) =~= Seq::<EntityView>::empty());
                    assert(entity_views(result_entities@) =~= Seq::<EntityView>::empty());
                }
                let mut i: usize = 0;
                while i < nes.len()
                    invariant
                        i <= nes@.len(),
                        1 <= den,
                        num <= den,
                        nesv == entity_views(nes@),
                        oesv == entity_views(oes@),
                        keysv == keys_view(state_keys@),
                        interp_entities_spec(
                            nesv.take(i as int),
                            oesv,
                            keysv,
                            num as int,
                            den as int,
                        ) == Ok::<Seq<EntityView>, InterpolationError>(
                            entity_views(result_entities@),
                        ),
                    decreases nes@.len() - i,
                {
                    let ent: &SnapolationEntity = &nes[i];
                    proof {
                        assert(ent@ == nesv[i as int]);
                        assert(nesv.take(i as int + 1).drop_last() =~= nesv.take(i as int));
                        assert(nesv.take(i as int + 1).last() == nesv[i as int]);
                    }
                    match entity_index(oes, ent.id) {
                        None => {
                        },
                        Some(oei) => {
                            let oe: &SnapolationEntity = &oes[oei];
                            proof {
                                assert(oe@ == oesv[oei as int]);
                                assert(find_entity(oesv, ent@.id) == Some(oe@));
                            }
                            let ghost nsv = ent@.state;
                            let ghost osv = oe@.state;
                            let mut fields: Vec<StateField> = Vec::new();
                            proof {
                                assert(nsv == field_views(ent.state@));
                                assert(osv == field_views(oe.state@));
                                assert(keysv.take(0) =~= Seq::<Seq<char>>::empty());
                                assert(field_views(fields@) =~= Seq::<
                                    (Seq<char>, StateValue),
                                >::empty());
                            }
                            let mut j: usize = 0;
                            while j < state_keys.len()
                                invariant
                                    j <= state_keys@.len(),
                                    1 <= den,
                                    num <= den,
                                    nsv == field_views(ent.state@),
                                    osv == field_views(oe.state@),
                                    keysv == keys_view(state_keys@),
                                    nesv == entity_views(nes@),
                                    oesv == entity_views(oes@),
                                    ent@ == nesv[i as int],
                                    i < nesv.len(),
                                    find_entity(oesv, nesv[i as int].id) == Some(oe@),
                                    nsv == nesv[i as int].state,
                                    osv == oe@.state,
                                    interp_fields_spec(
                                        nsv,
                                        osv,
                                        keysv.take(j as int),
                                        num as int,
                                        den as int,
                                    ) == Ok::<Seq<(Seq<char>, StateValue)>, InterpolationError>(
                                        field_views(fields@),
                                    ),
                                    interp_entities_spec(
                                        nesv.take(i as int),
                                        oesv,
                                        keysv,
                                        num as int,
                                        den as int,
                                    ) == Ok::<Seq<EntityView>, InterpolationError>(
                                        entity_views(result_entities@),
                                    ),
                                decreases state_keys@.len() - j,
                            {
                                let key: &String = &state_keys[j];
                                proof {
                                    assert(key@ == keysv[j as int]);
                                    assert(keysv.take(j as int + 1).drop_last() =~= keysv.take(
                                        j as int,
                                    ));
                                    assert(keysv.take(j as int + 1).last() == keysv[j as int]);
                                }
                                let n_si = state_index(&ent.state, key);
                                let o_si = state_index(&oe.state, key);
                                match (n_si, o_si) {
                                    (Some(nsi), Some(osi)) => {
                                        let nv: StateValue = ent.state[nsi].value;
                                        let ov: StateValue = oe.state[osi].value;
                                        proof {
                                            assert(nv == nsv[nsi as int].1);
                                            assert(ov == osv[osi as int].1);
                                        }
                                        match interpolate_value(nv, ov, num, den) {
                                            Some(v) => {
                                                let ghost fields_before = field_views(fields@);
                                                fields.push(
                                                    StateField { key: key.clone(), value: v },
                                                );
                                                proof {
                                                    assert(field_views(fields@) =~= fields_before
                                                        .push((key@, v)));
                                                }
                                            },
                                            None => {
                                                proof {
                                                    lemma_fields_err_persists(
                                                        nsv,
                                                        osv,
                                                        keysv,
                                                        j as int + 1,
                                                        num as int,
                                                        den as int,
                                                    );
                                                    lemma_entities_err_persists(
                                                        nesv,
                                                        oesv,
                                                        keysv,
                                                        i as int + 1,
                                                        num as int,
                                                        den as int,
                                                    );
                                                }
                                                return Err(InterpolationError::TypeMismatch);
                                            },
                                        }
                                    },
                                    _ => {
                                    },
                                }
                                j = j + 1;
                            }
                            proof {
                                assert(keysv.take(state_keys@.len() as int) =~= keysv);
                            }
                            if fields.len() > 0 {
                                let ghost ents_before = entity_views(result_entities@);
                                let ghost fsv = field_views(fields@);
                                result_entities.push(
                                    SnapolationEntity { id: ent.id, state: fields },
                                );
                                proof {
                                    assert(entity_views(result_entities@) =~= ents_before.push(
                                        EntityView { id: ent@.id, state: fsv },
                                    ));
                                }
                            }
                        },
                    }
                    i = i + 1;
                }
                proof {
                    assert(nesv.take(nes@.len() as int) =~= nesv);
                }
            },
            _ => {
                proof {
                    assert(entity_views(result_entities@) =~= Seq::<EntityView>::empty());
                }
            },
        }
        let out = InterpolatedSnapshot {
            entities: result_entities,
            fraction_num: num,
            fraction_den: den,
            newer_id: newer.id,
            older_id: older.id,
        };
        proof {
            assert(spec_r is Ok && out@ == spec_r->Ok_0);
        }
        Ok(out)
    }

    /// The interpolated state of the requested group at the current
    /// render time: `Ok(None)` while the history cannot bracket that
    /// time, the interpolation outcome once it can.
    pub fn calc_interpolation(
        &mut self,
        entity_key: &String,
        state_keys: &Vec<String>,
        now_ms: u64,
    ) -> (r: Result<Option<InterpolatedSnapshot>, InterpolationError>)
        requires
            old(self).wf(),
        ensures
            final(self).wf(),
            final(self).vault@ == old(self).vault@,
            final(self).vault.vault_size == old(self).vault.vault_size,
            final(self).interpolation_buffer == old(self).interpolation_buffer,
            final(self).time_offset == old(self).time_offset,
            final(self).autocorrect_time_offset == old(self).autocorrect_time_offset,
            old(self).time_offset is None ==> r == Ok::<
                Option<InterpolatedSnapshot>,
                InterpolationError,
            >(None) && final(self).server_time == old(self).server_time,
            old(self).time_offset is Some ==> ({
                let target = render_target_spec(
                    old(self).time_offset->Some_0 as int,
                    old(self).interpolation_buffer as int,
                    now_ms as int,
                );
                if target < 0 {
                    r == Ok::<Option<InterpolatedSnapshot>, InterpolationError>(None)
                        && final(self).server_time == old(self).server_time
                } else {
                    match first_at_or_before(old(self).vault@, target as u64) {
                        None => r == Ok::<Option<InterpolatedSnapshot>, InterpolationError>(None)
                            && final(self).server_time == old(self).server_time,
                        Some(fi) => if fi == 0 {
                            r == Ok::<Option<InterpolatedSnapshot>, InterpolationError>(None)
                                && final(self).server_time == old(self).server_time
                        } else {
                            let spec_r = interpolate_result_spec(
                                old(self).vault@[fi - 1],
                                old(self).vault@[fi],
                                target as u64,
                                entity_key@,
                                keys_view(state_keys@),
                            );
                            &&& final(self).server_time == target
                            &&& (r is Err <==> spec_r is Err)
                            &&& (r is Err ==> r->Err_0 == spec_r->Err_0)
                            &&& (r is Ok ==> r->Ok_0 is Some && spec_r is Ok
                                && r->Ok_0->Some_0@ == spec_r->Ok_0)
                        },
                    }
                }
            }),
    {
        let off: i128 = match self.time_offset {
            None => {
                return Ok(None);
            },
            Some(o) => o,
        };
        let rt: i128 = now_ms as i128 - off - self.interpolation_buffer as i128;
        if rt < 0 {
            return Ok(None);
        }
        let target: u64 = if rt > 0xFFFF_FFFF_FFFF_FFFF as i128 {
            0xFFFF_FFFF_FFFF_FFFF
        } else {
            rt as u64
        };
        match self.vault.get_two_closest(target) {
            None => Ok(None),
            Some((maybe_newer, older)) => match maybe_newer {
                None => Ok(None),
                Some(newer) => {
                    proof {
                        assert(newer_of(newer@, older@) == newer@);
                        assert(older_of(newer@, older@) == older@);
                    }
                    match self.interpolate(&newer, &older, target, entity_key, state_keys) {
                        Ok(isnap) => Ok(Some(isnap)),
                        Err(e) => Err(e),
                    }
                },
            },
        }
    }
}

} // verus!
