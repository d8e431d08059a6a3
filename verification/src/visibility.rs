use vstd::prelude::*;
use smallvec::SmallVec;
use crate::hexagon_pos::{HexagonPos, adjacent, in_grid, neighbour_at, spec_neighbours};
use crate::world::{WorldMap, ProvinceEntry, has_pos, distinct_positions};

verus! {

/// The countries a division is visible to, kept in a `smallvec::SmallVec` of entity
/// ids with room for seven of them inline: the division's own country and the owners
/// of its six neighbours.
#[verifier::external_body]
pub struct VisibleCountries {
    pub items: SmallVec<[u64; 7]>,
}

/// The items of the small vector, in order.
pub uninterp spec fn smallvec_items(v: VisibleCountries) -> Seq<u64>;

/// `SmallVec::new`: a small vector with no items.
#[verifier::external_body]
fn smallvec_new() -> (res: VisibleCountries)
    ensures
        smallvec_items(res) == Seq::<u64>::empty(),
{
    VisibleCountries { items: SmallVec::new() }
}

/// `SmallVec::push`: appends `x` after the items. Below the inline capacity of seven
/// items this neither allocates nor can fail.
#[verifier::external_body]
fn smallvec_push(v: &mut VisibleCountries, x: u64)
    requires
        smallvec_items(*old(v)).len() < 7,
    ensures
        smallvec_items(*final(v)) == smallvec_items(*old(v)).push(x),
{
    v.items.push(x)
}

/// `contains` of the slice that a `SmallVec` dereferences to: whether `x` is one of
/// the items.
#[verifier::external_body]
fn smallvec_contains(v: &VisibleCountries, x: u64) -> (res: bool)
    ensures
        res == smallvec_items(*v).contains(x),
{
    v.items.contains(&x)
}

/// The countries that see a division: its own, then those that own a province next
/// to it.
pub struct DivisionVisibility(pub VisibleCountries);

/// The owner of the province at `p`, if a province is there and is owned.
pub open spec fn owner_at(provs: Seq<ProvinceEntry>, p: HexagonPos) -> Option<u64> {
    if has_pos(provs, p) {
        provs[choose|i: int| 0 <= i < provs.len() && provs[i].pos == p].owner
    } else {
        None
    }
}

/// The countries that see a division of `owner` at `pos`, after looking at its first
/// `k` neighbours: `owner` first, then each owner of a neighbouring province in the
/// order of the neighbours, each country once.
pub open spec fn visible_to(provs: Seq<ProvinceEntry>, pos: HexagonPos, owner: u64, k: nat) -> Seq<
    u64,
>
    decreases k,
{
    if k == 0 {
        seq![owner]
    } else {
        let prev = visible_to(provs, pos, owner, (k - 1) as nat);
        match owner_at(provs, neighbour_at(pos, k - 1)) {
            Some(c) => if prev.contains(c) {
                prev
            } else {
                prev.push(c)
            },
            None => prev,
        }
    }
}

proof fn lemma_visible_to_props(provs: Seq<ProvinceEntry>, pos: HexagonPos, owner: u64, k: nat)
    requires
        k <= 6,
    ensures
        visible_to(provs, pos, owner, k).len() <= k + 1,
        visible_to(provs, pos, owner, k)[0] == owner,
        visible_to(provs, pos, owner, k).no_duplicates(),
        forall|c: u64|
            visible_to(provs, pos, owner, k).contains(c) <==> (c == owner || exists|j: int|
                0 <= j < k && owner_at(provs, neighbour_at(pos, j)) == Some(c)),
    decreases k,
{
    if k > 0 {
        lemma_visible_to_props(provs, pos, owner, (k - 1) as nat);
        let prev = visible_to(provs, pos, owner, (k - 1) as nat);
        assert forall|c: u64|
            visible_to(provs, pos, owner, k).contains(c) <==> (c == owner || exists|j: int|
                0 <= j < k && owner_at(provs, neighbour_at(pos, j)) == Some(c)) by {
            if visible_to(provs, pos, owner, k).contains(c) && c != owner {
                if !prev.contains(c) {
                    assert(owner_at(provs, neighbour_at(pos, k - 1)) == Some(c));
                }
            }
            if exists|j: int| 0 <= j < k && owner_at(provs, neighbour_at(pos, j)) == Some(c) {
                let j = choose|j: int| 0 <= j < k && owner_at(provs, neighbour_at(pos, j)) == Some(c);
                if j < k - 1 {
                    assert(prev.contains(c));
                }
                if prev.contains(c) {
                    let i = choose|i: int| 0 <= i < prev.len() && prev[i] == c;
                    assert(visible_to(provs, pos, owner, k)[i] == c);
                } else {
                    let v = visible_to(provs, pos, owner, k);
                    assert(v[v.len() - 1] == c);
                }
            }
            if c == owner {
                assert(visible_to(provs, pos, owner, k)[0] == owner);
            }
        }
    }
}

/// The countries that see a division of `owner` standing at `pos`: `owner` first,
/// then each owner of a province next to it, in the order of `neighbours`, without
/// repetition.
pub fn division_visibility(map: &WorldMap, pos: HexagonPos, owner: u64) -> (res: DivisionVisibility)
    requires
        map.wf(),
        in_grid(pos),
    ensures
        smallvec_items(res.0) == visible_to(map@, pos, owner, 6),
        smallvec_items(res.0)[0] == owner,
        smallvec_items(res.0).no_duplicates(),
        forall|c: u64|
            smallvec_items(res.0).contains(c) <==> (c == owner || exists|j: int|
                0 <= j < 6 && owner_at(map@, spec_neighbours(pos)[j]) == Some(c)),
{
    proof {
        map.lemma_wf_distinct();
    }
    let mut new_neighbours = smallvec_new();
    smallvec_push(&mut new_neighbours, owner);
    proof {
        assert(smallvec_items(new_neighbours) =~= visible_to(map@, pos, owner, 0));
    }
    let nbs = pos.neighbours();
    let mut k: usize = 0;
    while k < 6
        invariant
            map.wf(),
            distinct_positions(map@),
            k <= 6,
            nbs@ == spec_neighbours(pos),
            smallvec_items(new_neighbours) == visible_to(map@, pos, owner, k as nat),
        decreases 6 - k,
    {
        proof {
            lemma_visible_to_props(map@, pos, owner, k as nat);
        }
        let neighbor = nbs[k];
        assert(neighbor == neighbour_at(pos, k as int));
        match map.find(neighbor) {
            Some(i) => {
                let prov = map.province(i);
                assert(owner_at(map@, neighbor) == prov.owner) by {
                    let c = choose|c: int| 0 <= c < map@.len() && map@[c].pos == neighbor;
                    assert(c == i);
                }
                match prov.owner {
                    Some(o) => {
                        if !smallvec_contains(&new_neighbours, o) {
                            smallvec_push(&mut new_neighbours, o);
                        }
                    },
                    None => {},
                }
            },
            None => {},
        }
        k += 1;
    }
    proof {
        lemma_visible_to_props(map@, pos, owner, 6);
        assert forall|c: u64|
            smallvec_items(new_neighbours).contains(c) <==> (c == owner || exists|j: int|
                0 <= j < 6 && owner_at(map@, spec_neighbours(pos)[j]) == Some(c)) by {
            if exists|j: int| 0 <= j < 6 && owner_at(map@, spec_neighbours(pos)[j]) == Some(c) {
                let j = choose|j: int| 0 <= j < 6 && owner_at(map@, spec_neighbours(pos)[j]) == Some(c);
                assert(spec_neighbours(pos)[j] == neighbour_at(pos, j));
            }
            if exists|j: int| 0 <= j < 6 && owner_at(map@, neighbour_at(pos, j)) == Some(c) {
                let j = choose|j: int| 0 <= j < 6 && owner_at(map@, neighbour_at(pos, j)) == Some(c);
                assert(spec_neighbours(pos)[j] == neighbour_at(pos, j));
            }
        }
    }
    DivisionVisibility(new_neighbours)
}

impl DivisionVisibility {
    /// A client sees the division when it plays one of the countries in the list.
    pub fn is_visible(&self, plays: Option<u64>) -> (res: bool)
        ensures
            res == (plays matches Some(c) && smallvec_items(self.0).contains(c)),
    {
        match plays {
            Some(c) => smallvec_contains(&self.0, c),
            None => false,
        }
    }
}

/// The visibility of a division at `pos` is computed again when it moved, or when a
/// province next to it changed hands.
pub fn needs_visibility_update(moved: bool, changed: &Vec<HexagonPos>, pos: HexagonPos) -> (res: bool)
    requires
        forall|i: int| 0 <= i < changed@.len() ==> in_grid(#[trigger] changed@[i]),
    ensures
        res == (moved || exists|i: int| 0 <= i < changed@.len() && adjacent(changed@[i], pos)),
{
    if moved {
        return true;
    }
    let mut i: usize = 0;
    while i < changed.len()
        invariant
            i <= changed@.len(),
            forall|i: int| 0 <= i < changed@.len() ==> in_grid(#[trigger] changed@[i]),
            forall|j: int| 0 <= j < i ==> !adjacent(#[trigger] changed@[j], pos),
        decreases changed@.len() - i,
    {
        let nbs = changed[i].neighbours();
        let mut k: usize = 0;
        while k < 6
            invariant
                k <= 6,
                i < changed@.len(),
                nbs@ == spec_neighbours(changed@[i as int]),
                forall|kk: int| 0 <= kk < k ==> nbs@[kk] != pos,
            decreases 6 - k,
        {
            if nbs[k] == pos {
                assert(spec_neighbours(changed@[i as int])[k as int] == pos);
                assert(adjacent(changed@[i as int], pos));
                return true;
            }
            k += 1;
        }
        i += 1;
    }
    false
}

} // verus!
