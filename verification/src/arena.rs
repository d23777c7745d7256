//! The retained-item store and the attempt set of one traversal.
//!
//! The store is an arena indexed by id: each slot keeps its id forever and an
//! emitted record is taken out by blanking the slot, so ids never move while
//! a walk consumes the arena. Its mathematical image is the map from live ids
//! to the record data they hold.

use vstd::prelude::*;
use vstd::set_lib::lemma_len_subset;
use vstd::seq_lib::seq_to_set_is_finite;
use crate::records::{Record, RecordData};

verus! {

pub struct Slot {
    pub id: u64,
    pub rec: Option<Record>,
}

/// No two slots carry the same id, live or spent.
pub open spec fn slot_ids_unique(s: Seq<Slot>) -> bool {
    forall|i: int, j: int| 0 <= i < j < s.len() ==> s[i].id != s[j].id
}

/// A live slot holds a record whose own id agrees with the slot's.
pub open spec fn slots_consistent(s: Seq<Slot>) -> bool {
    forall|i: int|
        0 <= i < s.len() ==> match (#[trigger] s[i]).rec {
            Some(r) => r.id == s[i].id,
            None => true,
        }
}

/// Some slot holds `id` and is still live.
pub open spec fn has_live(s: Seq<Slot>, id: u64) -> bool {
    exists|i: int| 0 <= i < s.len() && (#[trigger] s[i]).id == id && s[i].rec is Some
}

/// The index of the live slot holding `id`.
pub open spec fn live_index(s: Seq<Slot>, id: u64) -> int {
    choose|i: int| 0 <= i < s.len() && (#[trigger] s[i]).id == id && s[i].rec is Some
}

/// The map an arena stands for: live ids to the data of their records.
pub open spec fn arena_map(s: Seq<Slot>) -> Map<u64, RecordData> {
    Map::new(|id: u64| has_live(s, id), |id: u64| (s[live_index(s, id)].rec->0)@.data())
}

pub struct RecordArena {
    slots: Vec<Slot>,
}

impl View for RecordArena {
    type V = Map<u64, RecordData>;

    closed spec fn view(&self) -> Map<u64, RecordData> {
        arena_map(self.slots@)
    }
}

/// In a well-formed slot sequence the live index of a held id is the only
/// slot with that id.
proof fn lemma_live_index(s: Seq<Slot>, id: u64)
    requires
        slot_ids_unique(s),
        has_live(s, id),
    ensures
        0 <= live_index(s, id) < s.len(),
        s[live_index(s, id)].id == id,
        s[live_index(s, id)].rec is Some,
        forall|i: int| 0 <= i < s.len() && (#[trigger] s[i]).id == id ==> i == live_index(s, id),
{
    let w = choose|i: int| 0 <= i < s.len() && (#[trigger] s[i]).id == id && s[i].rec is Some;
    assert(s[w].id == id);
}

/// Blanking or refilling one slot changes the arena map at that slot's id
/// alone.
proof fn lemma_arena_map_update(s: Seq<Slot>, i: int, slot: Slot)
    requires
        slot_ids_unique(s),
        0 <= i < s.len(),
        slot.id == s[i].id,
    ensures
        arena_map(s.update(i, slot)) == match slot.rec {
            Some(r) => arena_map(s).insert(slot.id, r@.data()),
            None => arena_map(s).remove(slot.id),
        },
{
    let t = s.update(i, slot);
    assert forall|id: u64| true implies {
        &&& has_live(t, id) == match slot.rec {
            Some(_) => has_live(s, id) || id == slot.id,
            None => has_live(s, id) && id != slot.id,
        }
    } by {
        if id == slot.id {
            if slot.rec is Some {
                assert(t[i].id == id && t[i].rec is Some);
                assert(has_live(t, id));
            } else {
                if has_live(t, id) {
                    let w = live_index(t, id);
                    lemma_live_index(t, id);
                    assert(s[w].id == id);
                    assert(w == i);
                    assert(false);
                }
            }
        } else {
            if has_live(s, id) {
                let w = live_index(s, id);
                lemma_live_index(s, id);
                assert(w != i);
                assert(t[w] == s[w]);
                assert(has_live(t, id));
            }
            if has_live(t, id) {
                let w = live_index(t, id);
                lemma_live_index(t, id);
                assert(w != i);
                assert(s[w] == t[w]);
                assert(has_live(s, id));
            }
        }
    }
    assert forall|id: u64| has_live(t, id) && id != slot.id implies (t[live_index(t, id)].rec->0)@.data()
        == (s[live_index(s, id)].rec->0)@.data() by {
        lemma_live_index(t, id);
        let w = live_index(t, id);
        assert(w != i);
        assert(s[w] == t[w]);
        assert(has_live(s, id));
        lemma_live_index(s, id);
        assert(live_index(s, id) == w);
    }
    if slot.rec is Some {
        lemma_live_index(t, slot.id);
        assert(live_index(t, slot.id) == i);
        assert(arena_map(t) =~= arena_map(s).insert(slot.id, (slot.rec->0)@.data()));
    } else {
        assert(arena_map(t) =~= arena_map(s).remove(slot.id));
    }
}

/// Appending a slot with a fresh id extends the arena map at that id alone.
proof fn lemma_arena_map_push(s: Seq<Slot>, slot: Slot)
    requires
        slot_ids_unique(s),
        forall|i: int| 0 <= i < s.len() ==> (#[trigger] s[i]).id != slot.id,
    ensures
        arena_map(s.push(slot)) == match slot.rec {
            Some(r) => arena_map(s).insert(slot.id, r@.data()),
            None => arena_map(s),
        },
{
    let t = s.push(slot);
    assert forall|id: u64| id != slot.id implies has_live(t, id) == has_live(s, id) by {
        if has_live(s, id) {
            let w = live_index(s, id);
            lemma_live_index(s, id);
            assert(t[w] == s[w]);
            assert(has_live(t, id));
        }
        if has_live(t, id) {
            let w = choose|i: int| 0 <= i < t.len() && (#[trigger] t[i]).id == id && t[i].rec is Some;
            assert(w < s.len());
            assert(s[w] == t[w]);
            assert(has_live(s, id));
        }
    }
    assert(slot_ids_unique(t));
    assert forall|id: u64| has_live(t, id) && id != slot.id implies (t[live_index(t, id)].rec->0)@.data()
        == (s[live_index(s, id)].rec->0)@.data() by {
        lemma_live_index(t, id);
        let w = live_index(t, id);
        assert(w < s.len());
        assert(s[w] == t[w]);
        assert(has_live(s, id));
        lemma_live_index(s, id);
        assert(live_index(s, id) == w);
    }
    if slot.rec is Some {
        assert(t[s.len() as int].id == slot.id && t[s.len() as int].rec is Some);
        assert(has_live(t, slot.id));
        lemma_live_index(t, slot.id);
        assert(live_index(t, slot.id) == s.len());
        assert(arena_map(t) =~= arena_map(s).insert(slot.id, (slot.rec->0)@.data()));
    } else {
        if has_live(t, slot.id) {
            lemma_live_index(t, slot.id);
            assert(false);
        }
        assert(arena_map(t) =~= arena_map(s));
    }
}

impl RecordArena {
    /// Internal shape every operation preserves.
    pub closed spec fn wf(&self) -> bool {
        slot_ids_unique(self.slots@) && slots_consistent(self.slots@)
    }

    /// The arena map only holds finitely many ids.
    pub proof fn lemma_dom_finite(&self)
        ensures
            self@.dom().finite(),
    {
        let ids = self.slots@.map_values(|sl: Slot| sl.id);
        broadcast use seq_to_set_is_finite;

        assert forall|id: u64| self@.dom().contains(id) implies ids.to_set().contains(id) by {
            let w = choose|i: int|
                0 <= i < self.slots@.len() && (#[trigger] self.slots@[i]).id == id
                    && self.slots@[i].rec is Some;
            assert(ids[w] == id);
        }
        lemma_len_subset(self@.dom(), ids.to_set());
    }

    pub fn new() -> (r: Self)
        ensures
            r.wf(),
            r@ == Map::<u64, RecordData>::empty(),
    {
        let r = RecordArena { slots: Vec::new() };
        proof {
            assert(r@ =~= Map::<u64, RecordData>::empty());
        }
        r
    }

    /// A bound on how many ids the arena holds.
    pub fn bound(&self) -> (n: usize)
        ensures
            self@.dom().finite(),
            self@.dom().len() <= n,
    {
        proof {
            self.lemma_dom_finite();
            let ids = self.slots@.map_values(|sl: Slot| sl.id);
            broadcast use seq_to_set_is_finite;

            assert forall|id: u64| self@.dom().contains(id) implies ids.to_set().contains(id) by {
                let w = choose|i: int|
                    0 <= i < self.slots@.len() && (#[trigger] self.slots@[i]).id == id
                        && self.slots@[i].rec is Some;
                assert(ids[w] == id);
            }
            lemma_len_subset(self@.dom(), ids.to_set());
            ids.lemma_cardinality_of_set();
        }
        self.slots.len()
    }

    /// The ids the arena holds, each once, in slot order.
    pub fn live_ids(&self) -> (r: Vec<u64>)
        requires
            self.wf(),
        ensures
            r@.no_duplicates(),
            r@.to_set() == self@.dom(),
    {
let n = self.slots.len();
        let mut r: Vec<u64> = Vec::new();
        let mut i: usize = 0;
        while i < n
            invariant
                n == self.slots@.len(),
                0 <= i <= n,
                self.wf(),
                r@.no_duplicates(),
                forall|x: u64| r@.contains(x) <==> has_live(self.slots@.take(i as int), x),
            decreases n - i,
        {
            let ghost pre = self.slots@.take(i as int);
            let ghost r0 = r@;
            let ghost slot = self.slots@[i as int];
            let live = self.slots[i].rec.is_some();
            if live {
                proof {
                    if r0.contains(slot.id) {
                        let w = choose|k: int|
                            0 <= k < pre.len() && (#[trigger] pre[k]).id == slot.id
                                && pre[k].rec is Some;
                        assert(self.slots@[w].id == slot.id);
                        assert(false);
                    }
                }
                r.push(self.slots[i].id);
            }
            proof {
                let cur = self.slots@.take(i + 1 as int);
                assert(cur =~= pre.push(slot));
                assert forall|x: u64| has_live(cur, x) <==> (has_live(pre, x) || (slot.id == x
                    && slot.rec is Some)) by {
                    if has_live(cur, x) {
                        let w = choose|k: int|
                            0 <= k < cur.len() && (#[trigger] cur[k]).id == x && cur[k].rec is Some;
                        if w < pre.len() {
                            assert(pre[w].id == x && pre[w].rec is Some);
                            assert(has_live(pre, x));
                        } else {
                            assert(cur[w] == slot);
                        }
                    }
                    if has_live(pre, x) {
                        let w = choose|k: int|
                            0 <= k < pre.len() && (#[trigger] pre[k]).id == x && pre[k].rec is Some;
                        assert(cur[w].id == x && cur[w].rec is Some);
                        assert(has_live(cur, x));
                    }
                    if slot.id == x && slot.rec is Some {
                        assert(cur[pre.len() as int].id == x && cur[pre.len() as int].rec is Some);
                        assert(has_live(cur, x));
                    }
                }
                assert forall|x: u64| r@.contains(x) <==> has_live(cur, x) by {
                    if live {
                        assert(r@ == r0.push(slot.id));
                        assert(r@.contains(x) <==> (x == slot.id || r0.contains(x))) by {
                            if r@.contains(x) {
                                let k = choose|k: int| 0 <= k < r@.len() && r@[k] == x;
                                if k < r0.len() {
                                    assert(r0[k] == x);
                                    assert(r0.contains(x));
                                } else {
                                    assert(x == slot.id);
                                }
                            }
                            if r0.contains(x) {
                                let k = choose|k: int| 0 <= k < r0.len() && r0[k] == x;
                                assert(r@[k] == x);
                                assert(r@.contains(x));
                            }
                            assert(r@[r0.len() as int] == slot.id);
                            assert(r@.contains(slot.id));
                        }
                    } else {
                        assert(r@ == r0);
                    }
                }
            }
            i += 1;
        }
        proof {
            assert(self.slots@.take(n as int) =~= self.slots@);
            assert forall|x: u64| r@.to_set().contains(x) <==> self@.dom().contains(x) by {
                assert(r@.to_set().contains(x) <==> r@.contains(x));
            }
            assert(r@.to_set() =~= self@.dom());
        }
        r
    }

    /// Borrows the record held under `id`, if any.
    pub fn get(&self, id: u64) -> (r: Option<&Record>)
        requires
            self.wf(),
        ensures
            match r {
                Some(rec) => self@.dom().contains(id) && rec@.id == id && rec@.data()
                    == self@[id],
                None => !self@.dom().contains(id),
            },
    {
        let n = self.slots.len();
        let mut i: usize = 0;
        while i < n
            invariant
                n == self.slots@.len(),
                0 <= i <= n,
                self.wf(),
                forall|k: int|
                    0 <= k < i ==> !((#[trigger] self.slots@[k]).id == id
                        && self.slots@[k].rec is Some),
            decreases n - i,
        {
            if self.slots[i].id == id {
                match &self.slots[i].rec {
                    Some(rec) => {
                        assert(has_live(self.slots@, id));
                        proof {
                            lemma_live_index(self.slots@, id);
                            assert(live_index(self.slots@, id) == i);
                        }
                        return Some(rec);
                    },
                    None => {},
                }
            }
            i += 1;
        }
        assert(!has_live(self.slots@, id));
        None
    }

    /// Whether `id` is still held.
    pub fn contains(&self, id: u64) -> (r: bool)
        requires
            self.wf(),
        ensures
            r == self@.dom().contains(id),
    {
        let n = self.slots.len();
        let mut i: usize = 0;
        while i < n
            invariant
                n == self.slots@.len(),
                0 <= i <= n,
                forall|k: int|
                    0 <= k < i ==> !((#[trigger] self.slots@[k]).id == id
                        && self.slots@[k].rec is Some),
            decreases n - i,
        {
            if self.slots[i].id == id && self.slots[i].rec.is_some() {
                assert(has_live(self.slots@, id));
                return true;
            }
            i += 1;
        }
        assert(!has_live(self.slots@, id));
        false
    }

    /// Stores `rec` under its own id, replacing whatever the arena held
    /// there.
    pub fn insert(&mut self, rec: Record)
        requires
            old(self).wf(),
        ensures
            final(self).wf(),
            final(self)@ == old(self)@.insert(rec.id, rec@.data()),
    {
        let n = self.slots.len();
        let mut i: usize = 0;
        while i < n
            invariant
                n == self.slots@.len(),
                0 <= i <= n,
                forall|k: int| 0 <= k < i ==> (#[trigger] self.slots@[k]).id != rec.id,
                self.wf(),
                self == old(self),
            decreases n - i,
        {
            if self.slots[i].id == rec.id {
                let id = rec.id;
                let ghost s0 = self.slots@;
                let slot = Slot { id, rec: Some(rec) };
                proof {
                    lemma_arena_map_update(s0, i as int, slot);
                }
                self.slots[i] = slot;
                assert(self.slots@ == s0.update(i as int, slot));
                assert(slots_consistent(self.slots@));
                return ;
            }
            i += 1;
        }
        let ghost s0 = self.slots@;
        let slot = Slot { id: rec.id, rec: Some(rec) };
        proof {
            lemma_arena_map_push(s0, slot);
        }
        self.slots.push(slot);
        assert(slots_consistent(self.slots@));
    }

    /// Takes the record held under `id` out of the arena, if any: afterwards
    /// the id is gone from the arena map.
    pub fn take(&mut self, id: u64) -> (r: Option<Record>)
        requires
            old(self).wf(),
        ensures
            final(self).wf(),
            old(self)@.dom().contains(id) ==> {
                &&& r matches Some(rec)
                &&& rec@.id == id
                &&& rec@.data() == old(self)@[id]
                &&& final(self)@ == old(self)@.remove(id)
            },
            !old(self)@.dom().contains(id) ==> r is None && final(self)@ == old(self)@
                && *final(self) == *old(self),
    {
        let n = self.slots.len();
        let mut i: usize = 0;
        while i < n
            invariant
                n == self.slots@.len(),
                0 <= i <= n,
                forall|k: int|
                    0 <= k < i ==> !((#[trigger] self.slots@[k]).id == id
                        && self.slots@[k].rec is Some),
                self.wf(),
                self == old(self),
            decreases n - i,
        {
            if self.slots[i].id == id && self.slots[i].rec.is_some() {
                assert(has_live(self.slots@, id));
                proof {
                    lemma_live_index(self.slots@, id);
                    assert(live_index(self.slots@, id) == i);
                }
                let ghost s0 = self.slots@;
                let slot_ref = &mut self.slots[i];
                let taken = slot_ref.rec.take();
                proof {
                    lemma_arena_map_update(s0, i as int, Slot { id, rec: None });
                }
                assert(self.slots@ == s0.update(i as int, Slot { id, rec: None }));
                assert(slots_consistent(self.slots@));
                return taken;
            }
            i += 1;
        }
        assert(!has_live(self.slots@, id));
        None
    }
}

/// The set of identifiers one traversal tried to fetch, whether or not the
/// fetch succeeded.
pub struct IdSet {
    ids: Vec<u64>,
}

impl View for IdSet {
    type V = Set<u64>;

    closed spec fn view(&self) -> Set<u64> {
        self.ids@.to_set()
    }
}

impl IdSet {
    pub fn new() -> (r: Self)
        ensures
            r@ == Set::<u64>::empty(),
    {
        let r = IdSet { ids: Vec::new() };
        proof {
            assert(r@ =~= Set::<u64>::empty());
        }
        r
    }

    pub fn contains(&self, id: u64) -> (r: bool)
        ensures
            r == self@.contains(id),
    {
        let n = self.ids.len();
        let mut i: usize = 0;
        while i < n
            invariant
                n == self.ids@.len(),
                0 <= i <= n,
                forall|k: int| 0 <= k < i ==> self.ids@[k] != id,
            decreases n - i,
        {
            if self.ids[i] == id {
                assert(self@.contains(id));
                return true;
            }
            i += 1;
        }
        assert forall|k: int| 0 <= k < self.ids@.len() implies self.ids@[k] != id by {}
        assert(!self@.contains(id));
        false
    }

    pub fn insert(&mut self, id: u64)
        ensures
            final(self)@ == old(self)@.insert(id),
    {
        let ghost s0 = self.ids@;
        self.ids.push(id);
        proof {
            assert(self.ids@ == s0.push(id));
            assert forall|x: u64| self@.contains(x) == s0.to_set().insert(id).contains(x) by {
                if self@.contains(x) {
                    let w = choose|k: int| 0 <= k < self.ids@.len() && self.ids@[k] == x;
                    if w < s0.len() {
                        assert(s0[w] == x);
                    }
                }
                if s0.to_set().contains(x) {
                    let w = choose|k: int| 0 <= k < s0.len() && s0[k] == x;
                    assert(self.ids@[w] == x);
                }
                if x == id {
                    assert(self.ids@[s0.len() as int] == id);
                }
            }
            assert(self@ =~= s0.to_set().insert(id));
        }
    }
}

} // verus!
