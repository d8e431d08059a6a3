use vstd::prelude::*;
use std::collections::HashMap;
use crate::hexagon_pos::{HexagonPos, pos_key, lemma_pos_key_injective};

verus! {

broadcast use vstd::std_specs::hash::group_hash_axioms;

/// How many division markers are already drawn in each province (keyed by the
/// province's `pos_key`); the next one is drawn above them.
pub struct DivisionsAtProvince(pub HashMap<u64, usize>);

/// The number of entries of `s` equal to `p`.
pub open spec fn count_eq(s: Seq<HexagonPos>, p: HexagonPos) -> nat
    decreases s.len(),
{
    if s.len() == 0 {
        0
    } else {
        count_eq(s.drop_last(), p) + if s.last() == p {
            1nat
        } else {
            0nat
        }
    }
}

/// `count_eq` counts the entries equal to `p`: it is the length of `s` filtered by
/// equality with `p`, so every occurrence, wherever it stands, counts once.
pub proof fn lemma_count_eq_is_filter_len(s: Seq<HexagonPos>, p: HexagonPos)
    ensures
        count_eq(s, p) == s.filter(|q: HexagonPos| q == p).len(),
    decreases s.len(),
{
    reveal(Seq::filter);
    if s.len() > 0 {
        lemma_count_eq_is_filter_len(s.drop_last(), p);
    }
}

proof fn lemma_count_eq_bound(s: Seq<HexagonPos>, p: HexagonPos)
    ensures
        count_eq(s, p) <= s.len(),
    decreases s.len(),
{
    if s.len() > 0 {
        lemma_count_eq_bound(s.drop_last(), p);
    }
}

proof fn lemma_count_eq_step(s: Seq<HexagonPos>, i: int, p: HexagonPos)
    requires
        0 <= i < s.len(),
    ensures
        count_eq(s.take(i + 1), p) == count_eq(s.take(i), p) + if s[i] == p {
            1nat
        } else {
            0nat
        },
{
    assert(s.take(i + 1).drop_last() =~= s.take(i));
}

/// The keys of the cells of `ps`.
pub open spec fn keys_of(ps: Seq<HexagonPos>) -> Seq<u64> {
    ps.map_values(|p: HexagonPos| pos_key(p))
}

/// Divisions in the same province never share a slot: of two of them, the later one
/// is stacked higher.
pub proof fn lemma_slots_distinct(positions: Seq<HexagonPos>, i: int, j: int)
    requires
        0 <= i < j < positions.len(),
        positions[i] == positions[j],
    ensures
        slot_of(positions, i) < slot_of(positions, j),
    decreases j - i,
{
    let p = positions[j];
    lemma_count_eq_step(positions, j - 1, p);
    if i < j - 1 {
        if positions[j - 1] == p {
            lemma_slots_distinct(positions, i, j - 1);
        } else {
            lemma_count_eq_mono(positions, i + 1, j - 1, p);
            lemma_count_eq_step(positions, i, p);
        }
    } else {
        lemma_count_eq_step(positions, i, p);
    }
}

proof fn lemma_count_eq_mono(s: Seq<HexagonPos>, a: int, b: int, p: HexagonPos)
    requires
        0 <= a <= b <= s.len(),
    ensures
        count_eq(s.take(a), p) <= count_eq(s.take(b), p),
    decreases b - a,
{
    if a < b {
        lemma_count_eq_mono(s, a, b - 1, p);
        lemma_count_eq_step(s, b - 1, p);
    }
}

/// `after` agrees with `before` on every key outside `keys`.
pub open spec fn same_outside(before: Map<u64, usize>, after: Map<u64, usize>, keys: Seq<u64>) -> bool {
    forall|k: u64|
        !keys.contains(k) ==> (#[trigger] after.contains_key(k) == before.contains_key(k)
            && (before.contains_key(k) ==> after[k] == before[k]))
}

/// The slot of the `i`-th division: how many divisions before it stand where it does.
pub open spec fn slot_of(positions: Seq<HexagonPos>, i: int) -> nat {
    count_eq(positions.take(i), positions[i])
}

impl DivisionsAtProvince {
    /// No markers drawn yet.
    pub fn new() -> (res: Self)
        ensures
            res.0@ == Map::<u64, usize>::empty(),
    {
        DivisionsAtProvince(HashMap::new())
    }

    /// The slot of a new marker at `pos`: the number of markers already there, which
    /// grows by one.
    pub fn take_slot(&mut self, pos: HexagonPos) -> (res: usize)
        requires
            old(self).0@.contains_key(pos_key(pos)) ==> old(self).0@[pos_key(pos)] < usize::MAX,
        ensures
            res == (if old(self).0@.contains_key(pos_key(pos)) {
                old(self).0@[pos_key(pos)]
            } else {
                0
            }),
            final(self).0@ == old(self).0@.insert(pos_key(pos), (res + 1) as usize),
    {
        let k = pos.key();
        let count = match self.0.get(&k) {
            Some(c) => *c,
            None => 0,
        };
        self.0.insert(k, count + 1);
        count
    }

    /// The markers at `pos` are all to be drawn again.
    pub fn reset(&mut self, pos: HexagonPos)
        ensures
            final(self).0@ == old(self).0@.insert(pos_key(pos), 0usize),
    {
        self.0.insert(pos.key(), 0);
    }

    /// Some divisions moved between the provinces in `affected`: the markers of those
    /// provinces are stacked again, in the order of `positions`. Each division at an
    /// affected province gets the number of divisions before it at the same province
    /// as its slot; the others keep theirs (`None`).
    pub fn restack(&mut self, affected: &Vec<HexagonPos>, positions: &Vec<HexagonPos>) -> (res: Vec<
        Option<usize>,
    >)
        requires
            positions@.len() < usize::MAX,
        ensures
            res@.len() == positions@.len(),
            forall|i: int|
                0 <= i < positions@.len() ==> (#[trigger] res@[i] == if affected@.contains(
                    positions@[i],
                ) {
                    Some(slot_of(positions@, i) as usize)
                } else {
                    None
                }),
            forall|p: HexagonPos|
                #![trigger affected@.contains(p)]
                affected@.contains(p) ==> final(self).0@.contains_key(pos_key(p))
                    && final(self).0@[pos_key(p)] == count_eq(positions@, p),
            same_outside(old(self).0@, final(self).0@, keys_of(affected@)),
    {
        let mut a: usize = 0;
        while a < affected.len()
            invariant
                a <= affected@.len(),
                same_outside(old(self).0@, self.0@, keys_of(affected@)),
                forall|k: int| 0 <= k < a ==> #[trigger] self.0@.contains_key(pos_key(affected@[k])) && self.0@[pos_key(affected@[k])] == 0,
            decreases affected@.len() - a,
        {
            let ghost before = self.0@;
            proof {
                assert(keys_of(affected@)[a as int] == pos_key(affected@[a as int]));
            }
            self.reset(affected[a]);
            proof {
                assert forall|k: int| 0 <= k < a + 1 implies #[trigger] self.0@.contains_key(
                    pos_key(affected@[k]),
                ) && self.0@[pos_key(affected@[k])] == 0 by {
                    if k < a {
                        assert(before.contains_key(pos_key(affected@[k])));
                    }
                }
            }
            a += 1;
        }
        proof {
            assert(positions@.take(0) =~= Seq::<HexagonPos>::empty());
            assert forall|p: HexagonPos| affected@.contains(p) implies #[trigger] self.0@.contains_key(
                pos_key(p),
            ) && self.0@[pos_key(p)] == count_eq(positions@.take(0), p) by {
                let k = choose|k: int| 0 <= k < affected@.len() && affected@[k] == p;
                assert(self.0@.contains_key(pos_key(affected@[k])));
            }
        }
        let mut res: Vec<Option<usize>> = Vec::new();
        let mut i: usize = 0;
        while i < positions.len()
            invariant
                i <= positions@.len() < usize::MAX,
                res@.len() == i,
                same_outside(old(self).0@, self.0@, keys_of(affected@)),
                forall|j: int|
                    0 <= j < i ==> (#[trigger] res@[j] == if affected@.contains(positions@[j]) {
                        Some(slot_of(positions@, j) as usize)
                    } else {
                        None
                    }),
                forall|p: HexagonPos|
                    #![trigger affected@.contains(p)]
                    affected@.contains(p) ==> self.0@.contains_key(pos_key(p))
                        && self.0@[pos_key(p)] == count_eq(positions@.take(i as int), p),
            decreases positions@.len() - i,
        {
            let pos = positions[i];
            if contains_pos(affected, pos) {
                proof {
                    lemma_count_eq_bound(positions@.take(i as int), pos);
                }
                let ghost before = self.0@;
                assert(before.contains_key(pos_key(pos)));
                assert(keys_of(affected@).contains(pos_key(pos))) by {
                    let k = choose|k: int| 0 <= k < affected@.len() && affected@[k] == pos;
                    assert(keys_of(affected@)[k] == pos_key(pos));
                }
                let slot = self.take_slot(pos);
                res.push(Some(slot));
                proof {
                    assert forall|p: HexagonPos| affected@.contains(p) implies #[trigger] self.0@.contains_key(
                        pos_key(p),
                    ) && self.0@[pos_key(p)] == count_eq(positions@.take(i + 1), p) by {
                        lemma_pos_key_injective(p, pos);
                        lemma_count_eq_step(positions@, i as int, p);
                        assert(before.contains_key(pos_key(p)));
                    }
                }
            } else {
                res.push(None);
                proof {
                    assert forall|p: HexagonPos| affected@.contains(p) implies #[trigger] self.0@.contains_key(
                        pos_key(p),
                    ) && self.0@[pos_key(p)] == count_eq(positions@.take(i + 1), p) by {
                        assert(p != pos);
                        lemma_count_eq_step(positions@, i as int, p);
                        assert(positions@[i as int] == pos);
                        assert(self.0@.contains_key(pos_key(p)));
                        assert(self.0@[pos_key(p)] == count_eq(positions@.take(i as int), p));
                    }
                }
            }
            assert(forall|p: HexagonPos|
                #![trigger affected@.contains(p)]
                affected@.contains(p) ==> self.0@.contains_key(pos_key(p))
                    && self.0@[pos_key(p)] == count_eq(positions@.take(i + 1), p));
            i += 1;
        }
        proof {
            assert(positions@.take(positions@.len() as int) =~= positions@);
        }
        res
    }
}

/// Whether `pos` is one of `ps`.
fn contains_pos(ps: &Vec<HexagonPos>, pos: HexagonPos) -> (res: bool)
    ensures
        res == ps@.contains(pos),
{
    let mut i: usize = 0;
    while i < ps.len()
        invariant
            i <= ps@.len(),
            forall|j: int| 0 <= j < i ==> ps@[j] != pos,
        decreases ps@.len() - i,
    {
        if ps[i] == pos {
            assert(ps@[i as int] == pos);
            return true;
        }
        i += 1;
    }
    false
}

/// Where a division was before its last move, and where it is now.
#[derive(Clone, Copy, PartialEq, Eq, Structural, Debug)]
pub struct PrevPos {
    pub actual: HexagonPos,
    pub prev: HexagonPos,
}

impl PrevPos {
    /// A division that has not moved yet.
    pub fn new(pos: HexagonPos) -> (res: Self)
        ensures
            res.actual == pos,
            res.prev == pos,
    {
        PrevPos { actual: pos, prev: pos }
    }

    /// The division now stands at `pos`.
    pub fn update(&mut self, pos: HexagonPos)
        ensures
            final(self).prev == old(self).actual,
            final(self).actual == pos,
    {
        self.prev = self.actual;
        self.actual = pos;
    }
}

} // verus!
