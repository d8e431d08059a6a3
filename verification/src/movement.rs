use vstd::prelude::*;
use crate::hexagon_pos::{HexagonPos, adjacent};
use crate::world::ProvinceEntry;
use crate::pathfinding::leads_from;

verus! {

/// How many ticks a division spends on each step of its way.
pub const PROV_DISTANCE: usize = 1;

/// The province a division was ordered to go to.
#[derive(Clone, Copy, PartialEq, Eq, Structural, Debug)]
pub struct MovingOrder {
    pub to: HexagonPos,
}

/// The way a division follows, from its end back to its next step (the next step is
/// the last entry), and the ticks spent on the current step.
pub struct Path {
    pub provs: Vec<HexagonPos>,
    pub progress: usize,
}

/// A division entered the province `to` from `from`.
#[derive(Clone, Copy, PartialEq, Eq, Structural, Debug)]
pub struct DivisionMoved {
    pub entity: u64,
    pub from: HexagonPos,
    pub to: HexagonPos,
}

/// A move from one province to the next.
#[derive(Clone, Copy, PartialEq, Eq, Structural, Debug)]
pub struct Step {
    pub from: HexagonPos,
    pub to: HexagonPos,
}

/// What one tick of movement did: the step taken, if any, and whether the way is
/// now walked to its end.
#[derive(Clone, Copy, PartialEq, Eq, Structural, Debug)]
pub struct MoveOutcome {
    pub moved: Option<Step>,
    pub finished: bool,
}

/// One tick of movement of a division standing at `pos`. A blocked division does
/// not move. Otherwise the tick counts towards the current step, and once the step
/// has taken `PROV_DISTANCE` ticks the division enters the next province of its way.
pub fn process_moving(path: &mut Path, pos: &mut HexagonPos, blocked: bool) -> (res: MoveOutcome)
    requires
        !blocked ==> old(path).progress < usize::MAX,
        !blocked && old(path).progress + 1 == PROV_DISTANCE ==> old(path).provs@.len() > 0,
    ensures
        blocked || old(path).progress + 1 != PROV_DISTANCE ==> {
            &&& *final(pos) == *old(pos)
            &&& final(path).provs@ == old(path).provs@
            &&& res == MoveOutcome { moved: None, finished: false }
        },
        blocked ==> final(path).progress == old(path).progress,
        !blocked && old(path).progress + 1 != PROV_DISTANCE ==> final(path).progress == old(
            path,
        ).progress + 1,
        !blocked && old(path).progress + 1 == PROV_DISTANCE ==> {
            &&& final(path).progress == 0
            &&& *final(pos) == old(path).provs@.last()
            &&& final(path).provs@ == old(path).provs@.drop_last()
            &&& res == MoveOutcome {
                moved: Some(Step { from: *old(pos), to: old(path).provs@.last() }),
                finished: old(path).provs@.len() == 1,
            }
        },
{
    if blocked {
        return MoveOutcome { moved: None, finished: false };
    }
    path.progress = path.progress + 1;
    if path.progress == PROV_DISTANCE {
        path.progress = 0;
        let from = *pos;
        *pos = path.provs.pop().unwrap();
        let finished = path.provs.len() == 0;
        MoveOutcome { moved: Some(Step { from, to: *pos }), finished }
    } else {
        MoveOutcome { moved: None, finished: false }
    }
}

/// A way that has been walked to its end is dropped.
pub fn end_moving(path: &Path) -> (res: bool)
    ensures
        res == (path.provs@.len() == 0),
{
    path.provs.len() == 0
}

/// Where a division stands, and what is left of its way, after `k` steps from `pos`.
pub open spec fn follow(pos: HexagonPos, provs: Seq<HexagonPos>, k: nat) -> (HexagonPos, Seq<
    HexagonPos,
>)
    decreases k,
{
    if k == 0 {
        (pos, provs)
    } else {
        let prev = follow(pos, provs, (k - 1) as nat);
        if prev.1.len() == 0 {
            prev
        } else {
            (prev.1.last(), prev.1.drop_last())
        }
    }
}

/// A division that follows a way found for it goes from neighbour to neighbour
/// through provinces of the map and, after one step per entry, stands in the
/// province at the head of the way: the one it was ordered to.
pub proof fn lemma_follow_way(provs: Seq<ProvinceEntry>, from: HexagonPos, path: Seq<HexagonPos>, k: nat)
    requires
        leads_from(provs, from, path),
        0 < k <= path.len(),
    ensures
        follow(from, path, k).0 == path[path.len() - k],
        follow(from, path, k).1 == path.take(path.len() - k),
        adjacent(follow(from, path, (k - 1) as nat).0, follow(from, path, k).0),
        k == path.len() ==> follow(from, path, k).0 == path[0],
    decreases k,
{
    if k == 1 {
        assert(follow(from, path, 0) == (from, path));
        assert(path.drop_last() =~= path.take(path.len() - 1));
    } else {
        lemma_follow_way(provs, from, path, (k - 1) as nat);
        let prev = follow(from, path, (k - 1) as nat);
        assert(prev.1.drop_last() =~= path.take(path.len() - k));
        let i = path.len() - k;
        assert(prev.1.len() == i + 1);
        assert(prev.1.last() == path[i]);
        assert(follow(from, path, k) == (prev.1.last(), prev.1.drop_last()));
        assert(adjacent(path[i + 1], path[i]));
    }
}

} // verus!
