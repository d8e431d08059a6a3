use vstd::prelude::*;
use std::collections::HashMap;
use crate::hexagon_pos::{HexagonPos, in_grid, pos_key, lemma_pos_key_injective};

verus! {

broadcast use vstd::std_specs::hash::group_hash_axioms;

/// One province of the map: the cell it covers, the game entity that stands for it
/// and the country that owns it, if any.
#[derive(Clone, Copy, PartialEq, Eq, Structural, Debug)]
pub struct ProvinceEntry {
    pub pos: HexagonPos,
    pub entity: u64,
    pub owner: Option<u64>,
}

/// The provinces of the map, each at its own cell. Province `i` is the `i`-th
/// entry of the view; a cell is found again through its key.
pub struct WorldMap {
    provinces: Vec<ProvinceEntry>,
    index: HashMap<u64, usize>,
}

/// The cell `p` is covered by some province of `provs`.
pub open spec fn has_pos(provs: Seq<ProvinceEntry>, p: HexagonPos) -> bool {
    exists|i: int| 0 <= i < provs.len() && provs[i].pos == p
}

/// No two provinces cover the same cell.
pub open spec fn distinct_positions(provs: Seq<ProvinceEntry>) -> bool {
    forall|i: int, j: int|
        0 <= i < provs.len() && 0 <= j < provs.len() && i != j ==> provs[i].pos != provs[j].pos
}

/// The province of `provs` at `p`.
pub open spec fn prov_at(provs: Seq<ProvinceEntry>, p: HexagonPos) -> ProvinceEntry {
    provs[choose|i: int| 0 <= i < provs.len() && provs[i].pos == p]
}

/// The provinces after recording `entry`: it replaces the province at its cell, or
/// is added at the end when no province covers that cell.
pub open spec fn inserted(provs: Seq<ProvinceEntry>, entry: ProvinceEntry) -> Seq<ProvinceEntry> {
    if has_pos(provs, entry.pos) {
        provs.update(choose|i: int| 0 <= i < provs.len() && provs[i].pos == entry.pos, entry)
    } else {
        provs.push(entry)
    }
}

/// Reading the map gives back what was last recorded at a cell: after `entry` is
/// recorded, its cell holds it, and every other cell holds what it held before.
pub proof fn lemma_insert_then_read(provs: Seq<ProvinceEntry>, entry: ProvinceEntry, q: HexagonPos)
    requires
        distinct_positions(provs),
    ensures
        distinct_positions(inserted(provs, entry)),
        has_pos(inserted(provs, entry), entry.pos),
        prov_at(inserted(provs, entry), entry.pos) == entry,
        q != entry.pos ==> (has_pos(inserted(provs, entry), q) == has_pos(provs, q)),
        q != entry.pos && has_pos(provs, q) ==> prov_at(inserted(provs, entry), q) == prov_at(
            provs,
            q,
        ),
{
    let s2 = inserted(provs, entry);
    if has_pos(provs, entry.pos) {
        let i = choose|i: int| 0 <= i < provs.len() && provs[i].pos == entry.pos;
        assert(s2[i] == entry);
        assert(has_pos(s2, entry.pos));
        if q != entry.pos && has_pos(s2, q) {
            let j = choose|j: int| 0 <= j < s2.len() && s2[j].pos == q;
            assert(provs[j].pos == q);
        }
        if q != entry.pos && has_pos(provs, q) {
            let j = choose|j: int| 0 <= j < provs.len() && provs[j].pos == q;
            assert(s2[j].pos == q);
            let k = choose|k: int| 0 <= k < s2.len() && s2[k].pos == q;
            assert(k == j);
        }
        let k = choose|k: int| 0 <= k < s2.len() && s2[k].pos == entry.pos;
        assert(k == i);
    } else {
        let n = provs.len() as int;
        assert(s2[n] == entry);
        assert(has_pos(s2, entry.pos));
        if q != entry.pos && has_pos(s2, q) {
            let j = choose|j: int| 0 <= j < s2.len() && s2[j].pos == q;
            assert(provs[j].pos == q);
        }
        if q != entry.pos && has_pos(provs, q) {
            let j = choose|j: int| 0 <= j < provs.len() && provs[j].pos == q;
            assert(s2[j].pos == q);
            let k = choose|k: int| 0 <= k < s2.len() && s2[k].pos == q;
            assert(k == j);
        }
        let k = choose|k: int| 0 <= k < s2.len() && s2[k].pos == entry.pos;
        assert(k == n);
    }
}

/// Every province lies inside the grid, away from the limits of `i32`.
pub open spec fn all_in_grid(provs: Seq<ProvinceEntry>) -> bool {
    forall|i: int| 0 <= i < provs.len() ==> in_grid(#[trigger] provs[i].pos)
}

impl View for WorldMap {
    type V = Seq<ProvinceEntry>;

    closed spec fn view(&self) -> Seq<ProvinceEntry> {
        self.provinces@
    }
}

impl WorldMap {
    /// The index maps the key of each province's cell to the province.
    pub closed spec fn wf(&self) -> bool {
        &&& forall|i: int|
            0 <= i < self.provinces@.len() ==> {
                &&& #[trigger] self.index@.contains_key(pos_key(self.provinces@[i].pos))
                &&& self.index@[pos_key(self.provinces@[i].pos)] == i
            }
        &&& forall|k: u64|
            #[trigger] self.index@.contains_key(k) ==> {
                &&& self.index@[k] < self.provinces@.len()
                &&& pos_key(self.provinces@[self.index@[k] as int].pos) == k
            }
    }

    /// A well-formed map covers each cell at most once.
    pub proof fn lemma_wf_distinct(&self)
        requires
            self.wf(),
        ensures
            distinct_positions(self@),
    {
        assert forall|i: int, j: int|
            0 <= i < self@.len() && 0 <= j < self@.len() && i != j implies self@[i].pos
            != self@[j].pos by {
            assert(self.index@.contains_key(pos_key(self.provinces@[i].pos)));
            assert(self.index@.contains_key(pos_key(self.provinces@[j].pos)));
        }
    }

    /// An empty map.
    pub fn new() -> (res: Self)
        ensures
            res.wf(),
            res@ == Seq::<ProvinceEntry>::empty(),
    {
        WorldMap { provinces: Vec::new(), index: HashMap::new() }
    }

    /// The number of provinces.
    pub fn len(&self) -> (res: usize)
        ensures
            res == self@.len(),
    {
        self.provinces.len()
    }

    /// The province with index `i`.
    pub fn province(&self, i: usize) -> (res: ProvinceEntry)
        requires
            i < self@.len(),
        ensures
            res == self@[i as int],
    {
        self.provinces[i]
    }

    /// The index of the province at `pos`.
    pub fn find(&self, pos: HexagonPos) -> (res: Option<usize>)
        requires
            self.wf(),
        ensures
            match res {
                Some(i) => i < self@.len() && self@[i as int].pos == pos,
                None => !has_pos(self@, pos),
            },
    {
        let k = pos.key();
        match self.index.get(&k) {
            Some(i) => {
                proof {
                    lemma_pos_key_injective(self.provinces@[*i as int].pos, pos);
                }
                Some(*i)
            },
            None => {
                proof {
                    if has_pos(self@, pos) {
                        let i = choose|i: int| 0 <= i < self@.len() && self@[i].pos == pos;
                        assert(self.index@.contains_key(pos_key(self.provinces@[i].pos)));
                    }
                }
                None
            },
        }
    }

    /// Whether some province covers `pos`.
    pub fn contains_key(&self, pos: HexagonPos) -> (res: bool)
        requires
            self.wf(),
        ensures
            res == has_pos(self@, pos),
    {
        self.find(pos).is_some()
    }

    /// The entity of the province at `pos`.
    pub fn get(&self, pos: HexagonPos) -> (res: Option<u64>)
        requires
            self.wf(),
        ensures
            match res {
                Some(e) => exists|i: int|
                    0 <= i < self@.len() && self@[i].pos == pos && self@[i].entity == e,
                None => !has_pos(self@, pos),
            },
    {
        match self.find(pos) {
            Some(i) => Some(self.provinces[i].entity),
            None => None,
        }
    }

    /// Records the province at `pos`: a province already there is replaced, otherwise
    /// one is added at the end.
    pub fn insert(&mut self, pos: HexagonPos, entity: u64, owner: Option<u64>)
        requires
            old(self).wf(),
        ensures
            final(self).wf(),
            final(self)@ == inserted(old(self)@, ProvinceEntry { pos, entity, owner }),
    {
        let entry = ProvinceEntry { pos, entity, owner };
        proof {
            self.lemma_wf_distinct();
        }
        match self.find(pos) {
            Some(i) => {
                proof {
                    let c = choose|c: int| 0 <= c < self@.len() && self@[c].pos == pos;
                    assert(c == i);
                }
                self.provinces.set(i, entry);
                proof {
                    assert forall|j: int| 0 <= j < self.provinces@.len() implies {
                        &&& #[trigger] self.index@.contains_key(pos_key(self.provinces@[j].pos))
                        &&& self.index@[pos_key(self.provinces@[j].pos)] == j
                    } by {
                        assert(old(self).index@.contains_key(pos_key(old(self).provinces@[j].pos)));
                        if j != i {
                            assert(self.provinces@[j] == old(self).provinces@[j]);
                        }
                    }
                }
            },
            None => {
                let n = self.provinces.len();
                let k = pos.key();
                self.provinces.push(entry);
                self.index.insert(k, n);
                proof {
                    assert forall|j: int| 0 <= j < self.provinces@.len() implies {
                        &&& #[trigger] self.index@.contains_key(pos_key(self.provinces@[j].pos))
                        &&& self.index@[pos_key(self.provinces@[j].pos)] == j
                    } by {
                        if j < n {
                            assert(self.provinces@[j] == old(self).provinces@[j]);
                            assert(old(self).index@.contains_key(
                                pos_key(old(self).provinces@[j].pos),
                            ));
                            if pos_key(self.provinces@[j].pos) == k {
                                lemma_pos_key_injective(self.provinces@[j].pos, pos);
                            }
                        }
                    }
                    assert forall|kk: u64| #[trigger] self.index@.contains_key(kk) implies {
                        &&& self.index@[kk] < self.provinces@.len()
                        &&& pos_key(self.provinces@[self.index@[kk] as int].pos) == kk
                    } by {
                        if kk != k {
                            assert(old(self).index@.contains_key(kk));
                        }
                    }
                }
            },
        }
    }

    /// Sets the owner of the province at `pos`.
    pub fn set_owner(&mut self, pos: HexagonPos, owner: Option<u64>)
        requires
            old(self).wf(),
            has_pos(old(self)@, pos),
        ensures
            final(self).wf(),
            exists|i: int|
                0 <= i < old(self)@.len() && old(self)@[i].pos == pos && final(self)@ == old(
                    self,
                )@.update(i, ProvinceEntry { owner, ..old(self)@[i] }),
    {
        let i = self.find(pos).unwrap();
        let e = self.provinces[i];
        self.provinces.set(i, ProvinceEntry { owner, ..e });
        proof {
            assert forall|j: int| 0 <= j < self.provinces@.len() implies {
                &&& #[trigger] self.index@.contains_key(pos_key(self.provinces@[j].pos))
                &&& self.index@[pos_key(self.provinces@[j].pos)] == j
            } by {
                if j != i {
                    assert(self.provinces@[j] == old(self).provinces@[j]);
                }
            }
        }
    }

    /// The province at `pos` passes to `country`, as when one of its divisions enters it.
    pub fn capture(&mut self, pos: HexagonPos, country: u64)
        requires
            old(self).wf(),
            has_pos(old(self)@, pos),
        ensures
            final(self).wf(),
            exists|i: int|
                0 <= i < old(self)@.len() && old(self)@[i].pos == pos && final(self)@ == old(
                    self,
                )@.update(i, ProvinceEntry { owner: Some(country), ..old(self)@[i] }),
    {
        self.set_owner(pos, Some(country));
    }
}

} // verus!
