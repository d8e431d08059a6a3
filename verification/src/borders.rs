use vstd::prelude::*;
use crate::hexagon_pos::{HexagonPos, adjacent, in_grid, neighbour_at, spec_neighbours};
use crate::world::{WorldMap, ProvinceEntry, has_pos, distinct_positions, prov_at};

verus! {

/// A border drawn on the side between two neighbouring provinces.
#[derive(Clone, Copy, Debug)]
pub struct Border {
    pub between: [HexagonPos; 2],
}

impl Border {
    pub open spec fn first(&self) -> HexagonPos {
        self.between@[0]
    }

    pub open spec fn second(&self) -> HexagonPos {
        self.between@[1]
    }

    /// The border between `a` and `b`.
    pub fn new(a: HexagonPos, b: HexagonPos) -> (res: Self)
        ensures
            res == (Border { between: [a, b] }),
            res.first() == a,
            res.second() == b,
    {
        Self { between: [a, b] }
    }

    /// Whether the border is a side of the province at `p`.
    pub fn touches(&self, p: HexagonPos) -> (res: bool)
        ensures
            res == (self.first() == p || self.second() == p),
    {
        self.between[0] == p || self.between[1] == p
    }
}

/// The borders of `bs` that are not a side of `p`, in order.
pub open spec fn untouched(bs: Seq<Border>, p: HexagonPos) -> Seq<Border>
    decreases bs.len(),
{
    if bs.len() == 0 {
        bs
    } else {
        let rest = untouched(bs.drop_last(), p);
        if bs.last().first() == p || bs.last().second() == p {
            rest
        } else {
            rest.push(bs.last())
        }
    }
}

/// The borders of the province at `p` after looking at its first `k` neighbours: one
/// towards each neighbouring province held by another owner (or unowned while `p` is
/// owned, or owned while it is not).
pub open spec fn new_borders(provs: Seq<ProvinceEntry>, p: HexagonPos, k: nat) -> Seq<Border>
    decreases k,
{
    if k == 0 {
        Seq::empty()
    } else {
        let prev = new_borders(provs, p, (k - 1) as nat);
        let nb = neighbour_at(p, k - 1);
        if has_pos(provs, nb) && prov_at(provs, nb).owner != prov_at(provs, p).owner {
            prev.push(Border { between: [p, nb] })
        } else {
            prev
        }
    }
}

/// The province at `pos` changed hands: its old borders go, and a border is drawn
/// towards every neighbouring province with another owner.
pub fn update_borders(borders: &mut Vec<Border>, map: &WorldMap, pos: HexagonPos)
    requires
        map.wf(),
        in_grid(pos),
        has_pos(map@, pos),
    ensures
        final(borders)@ == untouched(old(borders)@, pos) + new_borders(map@, pos, 6),
        final(borders)@ == old(borders)@.filter(|b: Border| b.first() != pos && b.second() != pos)
            + new_borders(map@, pos, 6),
        forall|i: int|
            0 <= i < old(borders)@.len() && old(borders)@[i].first() != pos && old(
                borders,
            )@[i].second() != pos ==> #[trigger] final(borders)@.contains(old(borders)@[i]),
{
    proof {
        map.lemma_wf_distinct();
    }
    let here = map.find(pos).unwrap();
    let owner = map.province(here).owner;
    assert(prov_at(map@, pos).owner == owner) by {
        let c = choose|c: int| 0 <= c < map@.len() && map@[c].pos == pos;
        assert(c == here);
    }
    let mut kept: Vec<Border> = Vec::new();
    let mut i: usize = 0;
    while i < borders.len()
        invariant
            borders@ == old(borders)@,
            i <= borders@.len(),
            kept@ == untouched(borders@.take(i as int), pos),
        decreases borders@.len() - i,
    {
        let b = borders[i];
        assert(borders@.take(i + 1).drop_last() =~= borders@.take(i as int));
        if !b.touches(pos) {
            kept.push(b);
        }
        i += 1;
    }
    assert(borders@.take(borders@.len() as int) =~= borders@);
    let nbs = pos.neighbours();
    let mut added: Vec<Border> = Vec::new();
    let mut k: usize = 0;
    while k < 6
        invariant
            map.wf(),
            distinct_positions(map@),
            k <= 6,
            nbs@ == spec_neighbours(pos),
            prov_at(map@, pos).owner == owner,
            added@ == new_borders(map@, pos, k as nat),
        decreases 6 - k,
    {
        let neighbor = nbs[k];
        assert(neighbor == neighbour_at(pos, k as int));
        match map.find(neighbor) {
            Some(j) => {
                let other = map.province(j).owner;
                assert(prov_at(map@, neighbor).owner == other) by {
                    let c = choose|c: int| 0 <= c < map@.len() && map@[c].pos == neighbor;
                    assert(c == j);
                }
                if other != owner {
                    let b = Border::new(pos, neighbor);
                    added.push(b);
                }
            },
            None => {},
        }
        k += 1;
    }
    proof {
        lemma_untouched_is_filter(old(borders)@, pos);
        let pred = |b: Border| b.first() != pos && b.second() != pos;
        assert forall|i: int|
            0 <= i < old(borders)@.len() && old(borders)@[i].first() != pos && old(
                borders,
            )@[i].second() != pos implies #[trigger] (old(borders)@.filter(pred) + new_borders(
            map@,
            pos,
            6,
        )).contains(old(borders)@[i]) by {
            old(borders)@.lemma_filter_contains(pred, i);
            let f = old(borders)@.filter(pred);
            let k = choose|k: int| 0 <= k < f.len() && f[k] == old(borders)@[i];
            assert((f + new_borders(map@, pos, 6))[k] == old(borders)@[i]);
        }
    }
    kept.append(&mut added);
    *borders = kept;
}

/// The borders kept by an update at `p` are exactly the borders that touch neither
/// side of `p`, in their order: the old list filtered by "not a side of `p`".
pub proof fn lemma_untouched_is_filter(bs: Seq<Border>, p: HexagonPos)
    ensures
        untouched(bs, p) == bs.filter(|b: Border| b.first() != p && b.second() != p),
    decreases bs.len(),
{
    reveal(Seq::filter);
    if bs.len() > 0 {
        lemma_untouched_is_filter(bs.drop_last(), p);
    }
}

/// After `update_borders` at `p`, the borders of `p` are exactly one towards each
/// neighbouring province whose owner differs from that of `p`; other borders are kept.
pub proof fn lemma_borders_after_update(provs: Seq<ProvinceEntry>, p: HexagonPos, old_borders: Seq<Border>)
    requires
        in_grid(p),
        has_pos(provs, p),
    ensures
        ({
            let bs = untouched(old_borders, p) + new_borders(provs, p, 6);
            &&& forall|i: int|
                0 <= i < bs.len() && (bs[i].first() == p || bs[i].second() == p) ==> {
                    &&& #[trigger] bs[i].first() == p
                    &&& adjacent(p, bs[i].second())
                    &&& has_pos(provs, bs[i].second())
                    &&& prov_at(provs, bs[i].second()).owner != prov_at(provs, p).owner
                }
            &&& forall|q: HexagonPos|
                adjacent(p, q) && has_pos(provs, q) && prov_at(provs, q).owner != prov_at(
                    provs,
                    p,
                ).owner ==> exists|i: int|
                    0 <= i < bs.len() && bs[i].first() == p && #[trigger] bs[i].second() == q
        }),
{
    lemma_untouched(old_borders, p);
    lemma_new_borders(provs, p, 6);
    let bs = untouched(old_borders, p) + new_borders(provs, p, 6);
    let u = untouched(old_borders, p);
    let nw = new_borders(provs, p, 6);
    assert forall|i: int|
        0 <= i < bs.len() && (bs[i].first() == p || bs[i].second() == p) implies {
            &&& #[trigger] bs[i].first() == p
            &&& adjacent(p, bs[i].second())
            &&& has_pos(provs, bs[i].second())
            &&& prov_at(provs, bs[i].second()).owner != prov_at(provs, p).owner
        } by {
        if i < u.len() {
            assert(bs[i] == u[i]);
        } else {
            assert(bs[i] == nw[i - u.len()]);
            let j = choose|j: int|
                0 <= j < 6 && nw[i - u.len()].second() == neighbour_at(p, j) && has_pos(
                    provs,
                    neighbour_at(p, j),
                ) && prov_at(provs, neighbour_at(p, j)).owner != prov_at(provs, p).owner;
            assert(spec_neighbours(p)[j] == neighbour_at(p, j));
        }
    }
    assert forall|q: HexagonPos|
        adjacent(p, q) && has_pos(provs, q) && prov_at(provs, q).owner != prov_at(provs, p).owner
            implies exists|i: int|
            0 <= i < bs.len() && bs[i].first() == p && #[trigger] bs[i].second() == q by {
        let j = choose|j: int| 0 <= j < 6 && spec_neighbours(p)[j] == q;
        assert(spec_neighbours(p)[j] == neighbour_at(p, j));
        let i = choose|i: int|
            0 <= i < nw.len() && nw[i].first() == p && nw[i].second() == neighbour_at(p, j);
        assert(bs[u.len() + i] == nw[i]);
    }
}

proof fn lemma_untouched(bs: Seq<Border>, p: HexagonPos)
    ensures
        forall|i: int|
            0 <= i < untouched(bs, p).len() ==> #[trigger] untouched(bs, p)[i].first() != p
                && untouched(bs, p)[i].second() != p,
    decreases bs.len(),
{
    if bs.len() > 0 {
        lemma_untouched(bs.drop_last(), p);
        let rest = untouched(bs.drop_last(), p);
        assert forall|i: int| 0 <= i < untouched(bs, p).len() implies #[trigger] untouched(
            bs,
            p,
        )[i].first() != p && untouched(bs, p)[i].second() != p by {
            if i < rest.len() {
                assert(untouched(bs, p)[i] == rest[i]);
            }
        }
    }
}

proof fn lemma_new_borders(provs: Seq<ProvinceEntry>, p: HexagonPos, k: nat)
    requires
        k <= 6,
    ensures
        forall|i: int|
            0 <= i < new_borders(provs, p, k).len() ==> exists|j: int|
                0 <= j < k && (#[trigger] new_borders(provs, p, k)[i]).second() == neighbour_at(
                    p,
                    j,
                ) && has_pos(provs, neighbour_at(p, j)) && prov_at(provs, neighbour_at(p, j)).owner
                    != prov_at(provs, p).owner,
        forall|i: int|
            0 <= i < new_borders(provs, p, k).len() ==> (#[trigger] new_borders(
                provs,
                p,
                k,
            )[i]).first() == p,
        forall|j: int|
            0 <= j < k && has_pos(provs, neighbour_at(p, j)) && prov_at(
                provs,
                neighbour_at(p, j),
            ).owner != prov_at(provs, p).owner ==> exists|i: int|
                0 <= i < new_borders(provs, p, k).len() && new_borders(provs, p, k)[i].first()
                    == p && new_borders(provs, p, k)[i].second() == #[trigger] neighbour_at(p, j),
    decreases k,
{
    if k > 0 {
        lemma_new_borders(provs, p, (k - 1) as nat);
        let prev = new_borders(provs, p, (k - 1) as nat);
        let cur = new_borders(provs, p, k);
        let nb = neighbour_at(p, k - 1);
        if has_pos(provs, nb) && prov_at(provs, nb).owner != prov_at(provs, p).owner {
            let b = Border { between: [p, nb] };
            assert(b.first() == p && b.second() == nb);
            assert(cur[prev.len() as int] == b);
            assert forall|i: int| 0 <= i < cur.len() implies exists|j: int|
                0 <= j < k && (#[trigger] cur[i]).second() == neighbour_at(p, j) && has_pos(
                    provs,
                    neighbour_at(p, j),
                ) && prov_at(provs, neighbour_at(p, j)).owner != prov_at(provs, p).owner by {
                if i < prev.len() {
                    assert(cur[i] == prev[i]);
                }
            }
            assert forall|j: int|
                0 <= j < k && has_pos(provs, neighbour_at(p, j)) && prov_at(
                    provs,
                    neighbour_at(p, j),
                ).owner != prov_at(provs, p).owner implies exists|i: int|
                0 <= i < cur.len() && cur[i].first() == p && cur[i].second()
                    == #[trigger] neighbour_at(p, j) by {
                if j < k - 1 {
                    let i = choose|i: int|
                        0 <= i < prev.len() && prev[i].first() == p && prev[i].second()
                            == neighbour_at(p, j);
                    assert(cur[i] == prev[i]);
                } else {
                    assert(cur[prev.len() as int] == b);
                }
            }
        }
    }
}

} // verus!
