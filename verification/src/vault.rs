//! Data model and the bounded, time-ordered snapshot store.

use vstd::prelude::*;

verus! {

/// Default number of retained snapshots.
pub const DEFAULT_VAULT_SIZE: usize = 120;

/// One captured field value. The tag dictates which interpolation rule
/// applies; numeric payloads are fixed point, `1000` standing for one
/// unit, one degree or one radian. `Degree` angles are canonical in
/// `[0, 360_000)` and `Radian` angles in `[0, 6_283)`; a value outside
/// its canonical range interpolates linearly instead of wrapping.
/// `Rotation` holds a quaternion, `1000` standing for one.
#[derive(Clone, Copy, PartialEq, Eq, Structural, Debug)]
pub enum StateValue {
    Number(i64),
    Degree(i64),
    Radian(i64),
    Rotation(i64, i64, i64, i64),
}

/// One named field of an entity's captured state.
#[derive(Debug)]
pub struct StateField {
    pub key: String,
    pub value: StateValue,
}

impl View for StateField {
    type V = (Seq<char>, StateValue);

    open spec fn view(&self) -> (Seq<char>, StateValue) {
        (self.key@, self.value)
    }
}

impl Clone for StateField {
    fn clone(&self) -> (r: Self)
        ensures
            r@ == self@,
    {
        StateField { key: self.key.clone(), value: self.value }
    }
}

/// One simulated object's captured state.
#[derive(Debug)]
pub struct SnapolationEntity {
    pub id: u64,
    pub state: Vec<StateField>,
}

/// The mathematical image of an entity: its id and its field list.
pub struct EntityView {
    pub id: u64,
    pub state: Seq<(Seq<char>, StateValue)>,
}

impl View for SnapolationEntity {
    type V = EntityView;

    open spec fn view(&self) -> EntityView {
        EntityView {
            id: self.id,
            state: Seq::new(self.state@.len(), |i: int| self.state@[i]@),
        }
    }
}

impl Clone for SnapolationEntity {
    fn clone(&self) -> (r: Self)
        ensures
            r@ == self@,
    {
        let mut state: Vec<StateField> = Vec::new();
        let mut i: usize = 0;
        while i < self.state.len()
            invariant
                i <= self.state.len(),
                state@.len() == i,
                forall|j: int| 0 <= j < i ==> state@[j]@ == self.state@[j]@,
            decreases self.state.len() - i,
        {
            state.push(self.state[i].clone());
            i = i + 1;
        }
        let r = SnapolationEntity { id: self.id, state };
        proof {
            assert(r@.state =~= self@.state);
        }
        r
    }
}

/// All entity records captured under one group key.
#[derive(Debug)]
pub struct EntityGroup {
    pub key: String,
    pub members: Vec<SnapolationEntity>,
}

/// The mathematical image of a group: its key and its member list.
pub struct GroupView {
    pub key: Seq<char>,
    pub members: Seq<EntityView>,
}

impl View for EntityGroup {
    type V = GroupView;

    open spec fn view(&self) -> GroupView {
        GroupView {
            key: self.key@,
            members: Seq::new(self.members@.len(), |i: int| self.members@[i]@),
        }
    }
}

impl Clone for EntityGroup {
    fn clone(&self) -> (r: Self)
        ensures
            r@ == self@,
    {
        let mut members: Vec<SnapolationEntity> = Vec::new();
        let mut i: usize = 0;
        while i < self.members.len()
            invariant
                i <= self.members.len(),
                members@.len() == i,
                forall|j: int| 0 <= j < i ==> members@[j]@ == self.members@[j]@,
            decreases self.members.len() - i,
        {
            members.push(self.members[i].clone());
            i = i + 1;
        }
        let r = EntityGroup { key: self.key.clone(), members };
        proof {
            assert(r@.members =~= self@.members);
        }
        r
    }
}

/// Mapping from group key to the entity records captured under it;
/// lookup takes the first group whose key matches.
pub type SnapolationEntities = Vec<EntityGroup>;

/// One authoritative state sample: a timestamped, immutable capture of
/// all tracked entities.
#[derive(Debug)]
pub struct Snapshot {
    pub id: u64,
    pub time: u64,
    pub entities: SnapolationEntities,
}

/// The mathematical image of a snapshot.
pub struct SnapshotView {
    pub id: u64,
    pub time: u64,
    pub entities: Seq<GroupView>,
}

impl View for Snapshot {
    type V = SnapshotView;

    open spec fn view(&self) -> SnapshotView {
        SnapshotView {
            id: self.id,
            time: self.time,
            entities: Seq::new(self.entities@.len(), |i: int| self.entities@[i]@),
        }
    }
}

impl Clone for Snapshot {
    fn clone(&self) -> (r: Self)
        ensures
            r@ == self@,
    {
        let mut entities: SnapolationEntities = Vec::new();
        let mut i: usize = 0;
        while i < self.entities.len()
            invariant
                i <= self.entities.len(),
                entities@.len() == i,
                forall|j: int| 0 <= j < i ==> entities@[j]@ == self.entities@[j]@,
            decreases self.entities.len() - i,
        {
            entities.push(self.entities[i].clone());
            i = i + 1;
        }
        let r = Snapshot { id: self.id, time: self.time, entities };
        proof {
            assert(r@.entities =~= self@.entities);
        }
        r
    }
}

/// Times never grow along the stored order: newest first.
pub open spec fn sorted_desc(s: Seq<SnapshotView>) -> bool {
    forall|i: int, j: int| 0 <= i < j < s.len() ==> s[i].time >= s[j].time
}

/// Index at which a snapshot captured at `t` enters the descending
/// order: the first position whose time is at or below `t`.
pub open spec fn insert_position(s: Seq<SnapshotView>, t: u64) -> int
    decreases s.len(),
{
    if s.len() == 0 {
        0
    } else if s[0].time <= t {
        0
    } else {
        1 + insert_position(s.drop_first(), t)
    }
}

proof fn lemma_insert_position_unique(s: Seq<SnapshotView>, t: u64, p: int)
    requires
        0 <= p <= s.len(),
        forall|j: int| 0 <= j < p ==> s[j].time > t,
        p < s.len() ==> s[p].time <= t,
    ensures
        insert_position(s, t) == p,
    decreases s.len(),
{
    if s.len() == 0 {
    } else if s[0].time <= t {
        assert(p == 0);
    } else {
        assert(p >= 1);
        lemma_insert_position_unique(s.drop_first(), t, p - 1);
    }
}

/// First index, in the stored (descending) order, whose time is at or
/// below `t`; `None` when `t` predates every stored snapshot.
pub open spec fn first_at_or_before(s: Seq<SnapshotView>, t: u64) -> Option<int>
    decreases s.len(),
{
    if s.len() == 0 {
        None
    } else if s[0].time <= t {
        Some(0)
    } else {
        match first_at_or_before(s.drop_first(), t) {
            Some(i) => Some(1 + i),
            None => None,
        }
    }
}

proof fn lemma_first_at_or_before_found(s: Seq<SnapshotView>, t: u64, p: int)
    requires
        0 <= p < s.len(),
        forall|j: int| 0 <= j < p ==> s[j].time > t,
        s[p].time <= t,
    ensures
        first_at_or_before(s, t) == Some(p),
    decreases s.len(),
{
    if s[0].time <= t {
        assert(p == 0);
    } else {
        assert(p >= 1);
        lemma_first_at_or_before_found(s.drop_first(), t, p - 1);
    }
}

proof fn lemma_first_at_or_before_none(s: Seq<SnapshotView>, t: u64)
    requires
        forall|j: int| 0 <= j < s.len() ==> s[j].time > t,
    ensures
        first_at_or_before(s, t) is None,
    decreases s.len(),
{
    if s.len() == 0 {
    } else {
        lemma_first_at_or_before_none(s.drop_first(), t);
    }
}

/// What one insertion does to the stored order: evict the last (oldest)
/// snapshot when the store is full, then place the new one at its
/// descending-order position.
pub open spec fn vault_add_spec(s: Seq<SnapshotView>, x: SnapshotView, size: nat) -> Seq<
    SnapshotView,
> {
    let base = if s.len() >= size && s.len() > 0 {
        s.drop_last()
    } else {
        s
    };
    base.insert(insert_position(base, x.time), x)
}

proof fn lemma_insert_position_range(s: Seq<SnapshotView>, t: u64)
    ensures
        0 <= insert_position(s, t) <= s.len(),
    decreases s.len(),
{
    if s.len() == 0 {
    } else if s[0].time <= t {
    } else {
        lemma_insert_position_range(s.drop_first(), t);
    }
}

/// One insertion never grows a store past its capacity: a full store
/// evicts before it inserts.
pub proof fn lemma_vault_add_len(s: Seq<SnapshotView>, x: SnapshotView, size: nat)
    requires
        s.len() <= size,
        1 <= size,
    ensures
        vault_add_spec(s, x, size).len() <= size,
{
    if s.len() >= size && s.len() > 0 {
        lemma_insert_position_range(s.drop_last(), x.time);
        s.drop_last().insert_ensures(insert_position(s.drop_last(), x.time), x);
    } else {
        lemma_insert_position_range(s, x.time);
        s.insert_ensures(insert_position(s, x.time), x);
    }
}

/// When a full, well-formed store takes one more snapshot, the one
/// that leaves is the last of the descending order: a snapshot whose
/// time is smallest among all previously stored.
pub proof fn lemma_evicted_is_oldest(s: Seq<SnapshotView>, x: SnapshotView, size: nat)
    requires
        sorted_desc(s),
        size <= s.len(),
        0 < s.len(),
    ensures
        forall|j: int| 0 <= j < s.len() ==> s[j].time >= s.last().time,
        vault_add_spec(s, x, size) == s.drop_last().insert(
            insert_position(s.drop_last(), x.time),
            x,
        ),
{
    assert forall|j: int| 0 <= j < s.len() implies s[j].time >= s.last().time by {
        if j < s.len() - 1 {
            assert(s[j].time >= s[s.len() - 1].time);
        }
    }
}

/// Which of the two bracketing snapshots sits closer in time to `t`,
/// the newer one winning ties; the single available snapshot at the
/// boundary cases.
pub open spec fn closest_spec(s: Seq<SnapshotView>, t: u64) -> Option<SnapshotView> {
    match first_at_or_before(s, t) {
        None => None,
        Some(i) => if i == 0 {
            Some(s[0])
        } else {
            let older = s[i];
            let newer = s[i - 1];
            if newer.time - t <= t - older.time {
                Some(newer)
            } else {
                Some(older)
            }
        },
    }
}

/// Bounded, time-ordered history of snapshots, newest first.
#[derive(Debug)]
pub struct Vault {
    pub vault_size: usize,
    pub vault: Vec<Snapshot>,
}

impl View for Vault {
    type V = Seq<SnapshotView>;

    open spec fn view(&self) -> Seq<SnapshotView> {
        Seq::new(self.vault@.len(), |i: int| self.vault@[i]@)
    }
}

impl Default for Vault {
    /// An empty store retaining at most `DEFAULT_VAULT_SIZE` snapshots.
    fn default() -> (r: Self)
        ensures
            r@ == Seq::<SnapshotView>::empty(),
            r.vault_size == DEFAULT_VAULT_SIZE,
            r.wf(),
    {
        let r = Vault { vault_size: DEFAULT_VAULT_SIZE, vault: Vec::new() };
        proof {
            assert(r@ =~= Seq::<SnapshotView>::empty());
        }
        r
    }
}

impl Vault {
    /// The store's invariant: snapshots are held newest first.
    pub open spec fn wf(&self) -> bool {
        sorted_desc(self@)
    }

    /// An empty store retaining at most `capacity` snapshots.
    pub fn with_capacity(capacity: usize) -> (r: Self)
        ensures
            r@ == Seq::<SnapshotView>::empty(),
            r.vault_size == capacity,
            r.wf(),
    {
        let r = Vault { vault_size: capacity, vault: Vec::new() };
        proof {
            assert(r@ =~= Seq::<SnapshotView>::empty());
        }
        r
    }

    /// The first stored snapshot whose id matches, if any.
    pub fn get_by_id(&self, id: u64) -> (r: Option<&Snapshot>)
        ensures
            match r {
                Some(s) => exists|i: int|
                    0 <= i < self@.len() && self@[i] == s@ && s@.id == id,
                None => forall|i: int| 0 <= i < self@.len() ==> self@[i].id != id,
            },
    {
        let mut i: usize = 0;
        while i < self.vault.len()
            invariant
                i <= self.vault.len(),
                forall|j: int| 0 <= j < i ==> self@[j].id != id,
            decreases self.vault.len() - i,
        {
            if self.vault[i].id == id {
                let r = &self.vault[i];
                proof {
                    assert(self@[i as int] == r@);
                }
                return Some(r);
            }
            i = i + 1;
        }
        None
    }

    /// Empties the store; the capacity is kept.
    pub fn clear(&mut self)
        ensures
            final(self)@ == Seq::<SnapshotView>::empty(),
            final(self).vault_size == old(self).vault_size,
            final(self).wf(),
    {
        self.vault.clear();
        proof {
            assert(self@ =~= Seq::<SnapshotView>::empty());
        }
    }

    /// The snapshot with the greatest time, if any.
    pub fn get_latest(&self) -> (r: Option<&Snapshot>)
        requires
            self.wf(),
        ensures
            match r {
                Some(s) => self@.len() > 0 && s@ == self@[0] && forall|i: int|
                    0 <= i < self@.len() ==> self@[i].time <= s@.time,
                None => self@.len() == 0,
            },
    {
        if self.vault.len() == 0 {
            None
        } else {
            let r = &self.vault[0];
            proof {
                assert(self@[0] == r@);
            }
            Some(r)
        }
    }

    /// The bracket around `time`: `Some((newer, older))` where `older`
    /// is the newest snapshot at or before `time`; `newer`, when
    /// present, is the next-newer snapshot, with a strictly greater
    /// time; `None` when `time` predates all history.
    pub fn get_two_closest(&self, time: u64) -> (r: Option<(Option<Snapshot>, Snapshot)>)
        requires
            self.wf(),
        ensures
            r is None <==> first_at_or_before(self@, time) is None,
            r is Some ==> ({
                let fi = first_at_or_before(self@, time)->Some_0;
                let pair = r->Some_0;
                &&& 0 <= fi < self@.len()
                &&& pair.1@ == self@[fi]
                &&& pair.1@.time <= time
                &&& (fi == 0 <==> pair.0 is None)
                &&& (fi > 0 ==> pair.0->Some_0@ == self@[fi - 1] && pair.0->Some_0@.time
                    > time)
            }),
    {
        let mut i: usize = 0;
        while i < self.vault.len()
            invariant
                i <= self.vault.len(),
                forall|j: int| 0 <= j < i ==> self@[j].time > time,
            decreases self.vault.len() - i,
        {
            if self.vault[i].time <= time {
                proof {
                    assert(self@[i as int] == self.vault@[i as int]@);
                    lemma_first_at_or_before_found(self@, time, i as int);
                }
                let older = self.vault[i].clone();
                if i == 0 {
                    return Some((None, older));
                } else {
                    let newer = self.vault[i - 1].clone();
                    proof {
                        assert(self@[i as int - 1] == self.vault@[i as int - 1]@);
                        assert(older@ == self@[i as int]);
                        assert(newer@ == self@[i as int - 1]);
                        assert(newer@.time > time);
                    }
                    return Some((Some(newer), older));
                }
            }
            i = i + 1;
        }
        proof {
            lemma_first_at_or_before_none(self@, time);
        }
        None
    }

    /// Whichever of the two snapshots bracketing `time` lies closer to
    /// it, the newer one winning ties; the single available snapshot at
    /// the boundary cases; `None` when `time` predates all history.
    pub fn get_closest(&self, time: u64) -> (r: Option<Snapshot>)
        requires
            self.wf(),
        ensures
            match r {
                None => closest_spec(self@, time) is None,
                Some(s) => closest_spec(self@, time) is Some && s@ == closest_spec(
                    self@,
                    time,
                )->Some_0,
            },
    {
        let mut i: usize = 0;
        while i < self.vault.len()
            invariant
                i <= self.vault.len(),
                forall|j: int| 0 <= j < i ==> self@[j].time > time,
            decreases self.vault.len() - i,
        {
            if self.vault[i].time <= time {
                proof {
                    lemma_first_at_or_before_found(self@, time, i as int);
                }
                if i == 0 {
                    return Some(self.vault[0].clone());
                }
                let older_diff: u64 = time - self.vault[i].time;
                let newer_diff: u64 = self.vault[i - 1].time - time;
                if newer_diff <= older_diff {
                    return Some(self.vault[i - 1].clone());
                }
                return Some(self.vault[i].clone());
            }
            i = i + 1;
        }
        proof {
            lemma_first_at_or_before_none(self@, time);
        }
        None
    }

    /// Inserts, keeping the descending-time order; when the store is at
    /// capacity, the oldest retained snapshot is evicted first.
    #[verifier::spinoff_prover]
    #[verifier::rlimit(30)]
    pub fn add(&mut self, snapshot: Snapshot)
        requires
            old(self).wf(),
        ensures
            final(self).wf(),
            final(self).vault_size == old(self).vault_size,
            final(self)@ == vault_add_spec(
                old(self)@,
                snapshot@,
                old(self).vault_size as nat,
            ),
            final(self)@.len() == if old(self)@.len() >= old(self).vault_size && old(
                self,
            )@.len() > 0 {
                old(self)@.len()
            } else {
                old(self)@.len() + 1
            },
    {
        let ghost prior = self@;
        if self.vault.len() >= self.vault_size && self.vault.len() > 0 {
            self.vault.pop();
            proof {
                assert(self@ =~= prior.drop_last());
            }
        }
        let ghost base = self@;
        proof {
            assert forall|p: int, q: int| 0 <= p < q < base.len() implies base[p].time
                >= base[q].time by {
                if prior.len() >= old(self).vault_size && prior.len() > 0 {
                    assert(base[p] == prior[p]);
                    assert(base[q] == prior[q]);
                }
            }
        }
        let t: u64 = snapshot.time;
        let mut i: usize = 0;
        while i < self.vault.len() && self.vault[i].time > t
            invariant
                i <= self.vault.len(),
                forall|j: int| 0 <= j < i ==> self@[j].time > t,
                self@ == base,
                self.vault_size == old(self).vault_size,
            decreases self.vault.len() - i,
        {
            i = i + 1;
        }
        proof {
            lemma_insert_position_unique(base, t, i as int);
            base.insert_ensures(i as int, snapshot@);
            assert(i < self.vault.len() ==> base[i as int].time <= t);
        }
        self.vault.insert(i, snapshot);
        proof {
            let ins = base.insert(i as int, snapshot@);
            let pos = i as int;
            assert(self@ =~= ins);
            assert forall|p: int, q: int| 0 <= p < q < ins.len() implies ins[p].time
                >= ins[q].time by {
                if q < pos {
                    assert(ins[p] == base[p]);
                    assert(ins[q] == base[q]);
                    assert(base[p].time >= base[q].time);
                } else if q == pos {
                    assert(ins[p] == base[p]);
                    assert(ins[q] == snapshot@);
                    assert(base[p].time > t);
                } else if p < pos {
                    assert(ins[p] == base[p]);
                    assert(ins[q] == base[q - 1]);
                    assert(base[p].time > t);
                    assert(base[pos].time <= t);
                    assert(pos == q - 1 || base[pos].time >= base[q - 1].time);
                } else if p == pos {
                    assert(ins[p] == snapshot@);
                    assert(ins[q] == base[q - 1]);
                    assert(base[pos].time <= t);
                    assert(pos == q - 1 || base[pos].time >= base[q - 1].time);
                } else {
                    assert(ins[p] == base[p - 1]);
                    assert(ins[q] == base[q - 1]);
                    assert(base[p - 1].time >= base[q - 1].time);
                }
            }
        }
    }
}

} // verus!
