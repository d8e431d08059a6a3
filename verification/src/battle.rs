use vstd::prelude::*;
use crate::hexagon_pos::{HexagonPos, in_grid, spec_neighbours};
use crate::world::{WorldMap, distinct_positions};
use crate::visibility::owner_at;

verus! {

/// The divisions standing at `dst`, by their index in `positions`, in order. A
/// division whose next step leads there attacks them, and they defend against it.
pub fn defenders_at(dst: HexagonPos, positions: &Vec<HexagonPos>) -> (res: Vec<usize>)
    ensures
        forall|k: int| 0 <= k < res@.len() ==> (#[trigger] res@[k]) < positions@.len(),
        forall|k: int, l: int| 0 <= k < l < res@.len() ==> res@[k] < res@[l],
        forall|i: int|
            0 <= i < positions@.len() ==> (positions@[i] == dst <==> res@.contains(i as usize)),
{
    let mut res: Vec<usize> = Vec::new();
    let mut i: usize = 0;
    while i < positions.len()
        invariant
            i <= positions@.len(),
            forall|k: int| 0 <= k < res@.len() ==> (#[trigger] res@[k]) < i,
            forall|k: int, l: int| 0 <= k < l < res@.len() ==> res@[k] < res@[l],
            forall|j: int| 0 <= j < i ==> (positions@[j] == dst <==> res@.contains(j as usize)),
        decreases positions@.len() - i,
    {
        let ghost before = res@;
        if positions[i] == dst {
            res.push(i);
            proof {
                assert(res@[res@.len() - 1] == i);
                assert forall|j: int| 0 <= j < i + 1 implies (positions@[j] == dst <==> res@.contains(
                    j as usize,
                )) by {
                    if j < i {
                        if positions@[j] == dst {
                            let k = choose|k: int| 0 <= k < before.len() && before[k] == j as usize;
                            assert(res@[k] == j as usize);
                        }
                        if res@.contains(j as usize) {
                            let k = choose|k: int| 0 <= k < res@.len() && res@[k] == j as usize;
                            assert(k < res@.len() - 1);
                            assert(before[k] == j as usize);
                        }
                    }
                }
            }
        }
        i += 1;
    }
    res
}

/// The first neighbour of `pos`, in the order of `neighbours`, whose province belongs
/// to `country`: where a beaten division falls back.
pub fn retreat_destination(map: &WorldMap, pos: HexagonPos, country: u64) -> (res: Option<HexagonPos>)
    requires
        map.wf(),
        in_grid(pos),
    ensures
        match res {
            Some(p) => exists|k: int|
                0 <= k < 6 && spec_neighbours(pos)[k] == p && owner_at(map@, p) == Some(country)
                    && forall|j: int|
                    0 <= j < k ==> owner_at(map@, spec_neighbours(pos)[j]) != Some(country),
            None => forall|k: int|
                0 <= k < 6 ==> owner_at(map@, #[trigger] spec_neighbours(pos)[k]) != Some(country),
        },
{
    proof {
        map.lemma_wf_distinct();
    }
    let nbs = pos.neighbours();
    let mut k: usize = 0;
    while k < 6
        invariant
            map.wf(),
            distinct_positions(map@),
            k <= 6,
            nbs@ == spec_neighbours(pos),
            forall|j: int| 0 <= j < k ==> owner_at(map@, #[trigger] spec_neighbours(pos)[j]) != Some(country),
        decreases 6 - k,
    {
        let neighbor = nbs[k];
        match map.find(neighbor) {
            Some(i) => {
                let prov = map.province(i);
                assert(owner_at(map@, neighbor) == prov.owner) by {
                    let c = choose|c: int| 0 <= c < map@.len() && map@[c].pos == neighbor;
                    assert(c == i);
                }
                if prov.owner == Some(country) {
                    return Some(neighbor);
                }
            },
            None => {},
        }
        k += 1;
    }
    None
}

} // verus!
