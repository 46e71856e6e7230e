//! Splitting the rows of a frame among workers.
//!
//! Every worker but the last asks for a number of rows (its share); the last
//! one takes whatever is left, so that the strips always tile the frame.
use vstd::prelude::*;

verus! {

/// A contiguous band of rows `[y_start, y_end)` handed to one worker.
/// `worker` is the position of the worker in the list the split was made for.
#[derive(Clone, Copy, Debug, PartialEq, Eq, Structural)]
pub struct StripAssignment {
    pub worker: usize,
    pub y_start: u32,
    pub y_end: u32,
}

/// The number of rows that worker `i` of `workers` is offered when the rows
/// above `current_y` are already given out: its share (none, if `shares` has no
/// entry for it), or for the last worker the remainder of the frame.
pub open spec fn offered_rows(
    height: u32,
    shares: Seq<u32>,
    workers: int,
    i: int,
    current_y: int,
) -> int {
    if i == workers - 1 {
        height - current_y
    } else if i < shares.len() {
        shares[i] as int
    } else {
        0
    }
}

/// The strips given to workers `i..` when the rows above `current_y` are
/// already given out. A worker that is offered no rows, or that comes when the
/// frame is used up, gets no strip; a strip that would run past the frame is
/// cut at its last row.
pub open spec fn plan_from(
    height: u32,
    shares: Seq<u32>,
    workers: int,
    i: int,
    current_y: int,
) -> Seq<StripAssignment>
    decreases workers - i,
{
    if i < 0 || i >= workers {
        Seq::empty()
    } else {
        let rows = offered_rows(height, shares, workers, i, current_y);
        if rows > 0 && current_y < height {
            let y_end = if current_y + rows < height {
                current_y + rows
            } else {
                height as int
            };
            seq![
                StripAssignment {
                    worker: i as usize,
                    y_start: current_y as u32,
                    y_end: y_end as u32,
                },
            ] + plan_from(height, shares, workers, i + 1, y_end)
        } else {
            plan_from(height, shares, workers, i + 1, current_y)
        }
    }
}

/// The strips of a whole frame of `height` rows for `workers` workers, of
/// which worker `i` asks for `shares[i]` rows.
pub open spec fn plan(height: u32, shares: Seq<u32>, workers: int) -> Seq<StripAssignment> {
    plan_from(height, shares, workers, 0, 0)
}

/// The strips lie end to end from row `from` to row `to`, none of them empty.
pub open spec fn tiles(strips: Seq<StripAssignment>, from: int, to: int) -> bool {
    &&& strips.len() == 0 ==> from == to
    &&& strips.len() > 0 ==> strips[0].y_start == from && strips[strips.len() - 1].y_end == to
    &&& forall|k: int| 0 <= k < strips.len() ==> (#[trigger] strips[k]).y_start < strips[k].y_end
    &&& forall|k: int|
        0 <= k < strips.len() - 1 ==> (#[trigger] strips[k]).y_end == strips[k + 1].y_start
}

/// Row `row` lies in strip `s`.
pub open spec fn holds_row(s: StripAssignment, row: int) -> bool {
    s.y_start <= row < s.y_end
}

/// Row `row` lies in one of the strips.
pub open spec fn covers_row(strips: Seq<StripAssignment>, row: int) -> bool {
    exists|k: int| 0 <= k < strips.len() && #[trigger] holds_row(strips[k], row)
}

/// Every strip lies inside a frame of `height` rows.
pub open spec fn within_frame(strips: Seq<StripAssignment>, height: u32) -> bool {
    forall|k: int|
        0 <= k < strips.len() ==> 0 <= (#[trigger] strips[k]).y_start < strips[k].y_end <= height
}

/// No row lies in two strips.
pub open spec fn disjoint(strips: Seq<StripAssignment>) -> bool {
    forall|j: int, k: int, row: int|
        0 <= j < strips.len() && 0 <= k < strips.len() && #[trigger] holds_row(strips[j], row)
            && #[trigger] holds_row(strips[k], row) ==> j == k
}

/// Workers appear in ascending order, each at most once, and each names a
/// worker of the list.
pub open spec fn workers_ascend(strips: Seq<StripAssignment>, lo: int, n: int) -> bool {
    &&& forall|k: int| 0 <= k < strips.len() ==> lo <= (#[trigger] strips[k]).worker < n
    &&& forall|j: int, k: int|
        0 <= j < k < strips.len() ==> (#[trigger] strips[j]).worker < (#[trigger] strips[k]).worker
}

/// What holds of the strips planned from worker `i` and row `current_y` on.
pub proof fn lemma_plan_from_tiles(
    height: u32,
    shares: Seq<u32>,
    workers: int,
    i: int,
    current_y: int,
)
    requires
        0 <= i <= workers <= usize::MAX,
        0 <= current_y <= height,
    ensures
        i < workers ==> tiles(
            plan_from(height, shares, workers, i, current_y),
            current_y,
            height as int,
        ),
        i == workers ==> plan_from(height, shares, workers, i, current_y).len() == 0,
        workers_ascend(plan_from(height, shares, workers, i, current_y), i, workers),
        plan_from(height, shares, workers, i, current_y).len() <= workers - i,
    decreases workers - i,
{
    if i < workers {
        let rows = offered_rows(height, shares, workers, i, current_y);
        let whole = plan_from(height, shares, workers, i, current_y);
        if rows > 0 && current_y < height {
            let y_end = if current_y + rows < height {
                current_y + rows
            } else {
                height as int
            };
            let head = StripAssignment {
                worker: i as usize,
                y_start: current_y as u32,
                y_end: y_end as u32,
            };
            let rest = plan_from(height, shares, workers, i + 1, y_end);
            lemma_plan_from_tiles(height, shares, workers, i + 1, y_end);
            assert(whole == seq![head] + rest);
            assert(whole[0] == head);
            assert forall|k: int| 1 <= k < whole.len() implies whole[k] == rest[k - 1] by {}
            if i + 1 == workers {
                assert(rest.len() == 0);
                assert(y_end == height);
            }
            assert(tiles(whole, current_y, height as int)) by {
                assert forall|k: int| 0 <= k < whole.len() implies (#[trigger] whole[k]).y_start
                    < whole[k].y_end by {
                    if k > 0 {
                        assert(whole[k] == rest[k - 1]);
                    }
                }
                assert forall|k: int| 0 <= k < whole.len() - 1 implies (#[trigger] whole[k]).y_end
                    == whole[k + 1].y_start by {
                    assert(whole[k + 1] == rest[k]);
                    if k > 0 {
                        assert(whole[k] == rest[k - 1]);
                    }
                }
            }
            assert(workers_ascend(whole, i, workers)) by {
                assert forall|k: int| 0 <= k < whole.len() implies i <= (#[trigger] whole[k]).worker
                    < workers by {
                    if k > 0 {
                        assert(whole[k] == rest[k - 1]);
                    }
                }
                assert forall|j: int, k: int| 0 <= j < k < whole.len() implies (
                #[trigger] whole[j]).worker < (#[trigger] whole[k]).worker by {
                    assert(whole[k] == rest[k - 1]);
                    if j > 0 {
                        assert(whole[j] == rest[j - 1]);
                    }
                }
            }
        } else {
            lemma_plan_from_tiles(height, shares, workers, i + 1, current_y);
            if i + 1 == workers {
                assert(current_y == height);
            }
        }
    }
}

/// In strips that lie end to end, a later strip starts where an earlier one
/// ended or below.
pub proof fn lemma_tiles_ordered(strips: Seq<StripAssignment>, from: int, to: int, j: int, k: int)
    requires
        tiles(strips, from, to),
        0 <= j < k < strips.len(),
    ensures
        strips[j].y_end <= strips[k].y_start,
    decreases k - j,
{
    if j + 1 < k {
        lemma_tiles_ordered(strips, from, to, j + 1, k);
        assert(strips[j].y_end == strips[j + 1].y_start);
        assert(strips[j + 1].y_start < strips[j + 1].y_end);
    } else {
        assert(strips[j].y_end == strips[j + 1].y_start);
    }
}

/// In strips that lie end to end from `from` to `to`, each row in between
/// lies in some strip.
pub proof fn lemma_tiles_cover(strips: Seq<StripAssignment>, from: int, to: int, row: int) -> (k:
    int)
    requires
        tiles(strips, from, to),
        from <= row < to,
    ensures
        0 <= k < strips.len(),
        holds_row(strips[k], row),
    decreases strips.len(),
{
    if row < strips[0].y_end {
        0
    } else {
        let rest = strips.subrange(1, strips.len() as int);
        assert(strips.len() > 1) by {
            if strips.len() == 1 {
                assert(strips[0].y_end == to);
            }
        }
        assert(strips[0].y_end == strips[1].y_start);
        assert(tiles(rest, strips[1].y_start as int, to)) by {
            assert forall|k: int| 0 <= k < rest.len() implies (#[trigger] rest[k]).y_start
                < rest[k].y_end by {
                assert(rest[k] == strips[k + 1]);
            }
            assert forall|k: int| 0 <= k < rest.len() - 1 implies (#[trigger] rest[k]).y_end
                == rest[k + 1].y_start by {
                assert(rest[k] == strips[k + 1]);
                assert(rest[k + 1] == strips[k + 2]);
            }
            assert(rest[rest.len() - 1] == strips[strips.len() - 1]);
            assert(rest[0] == strips[1]);
        }
        let k = lemma_tiles_cover(rest, strips[1].y_start as int, to, row);
        assert(rest[k] == strips[k + 1]);
        k + 1
    }
}

/// The strips of a frame are pairwise disjoint and their union is the whole
/// frame: with at least one worker and at least one row, every row of
/// `[0, height)` lies in exactly one strip, no strip is empty or leaves the
/// frame, and no worker gets two strips.
pub proof fn lemma_plan_covers_exactly(height: u32, shares: Seq<u32>, workers: int)
    requires
        1 <= workers <= usize::MAX,
    ensures
        tiles(plan(height, shares, workers), 0, height as int),
        workers_ascend(plan(height, shares, workers), 0, workers),
        height > 0 ==> plan(height, shares, workers).len() >= 1,
        height == 0 ==> plan(height, shares, workers).len() == 0,
        within_frame(plan(height, shares, workers), height),
        forall|row: int|
            0 <= row < height ==> #[trigger] covers_row(plan(height, shares, workers), row),
        disjoint(plan(height, shares, workers)),
{
    let p = plan(height, shares, workers);
    lemma_plan_from_tiles(height, shares, workers, 0, 0);
    assert forall|k: int| 0 <= k < p.len() implies 0 <= (#[trigger] p[k]).y_start < p[k].y_end
        <= height by {
        if k < p.len() - 1 {
            lemma_tiles_ordered(p, 0, height as int, k, p.len() - 1);
        }
    }
    assert forall|row: int| 0 <= row < height implies #[trigger] covers_row(p, row) by {
        let k = lemma_tiles_cover(p, 0, height as int, row);
        assert(holds_row(p[k], row));
    }
    assert forall|j: int, k: int, row: int|
        0 <= j < p.len() && 0 <= k < p.len() && #[trigger] holds_row(p[j], row)
            && #[trigger] holds_row(p[k], row) implies j == k by {
        if j < k {
            lemma_tiles_ordered(p, 0, height as int, j, k);
        } else if k < j {
            lemma_tiles_ordered(p, 0, height as int, k, j);
        }
    }
}

/// Splits the `height` rows of a frame among `workers` workers, taken in
/// order: worker `i` is offered `shares[i]` rows, or none if `shares` is too
/// short for it, and the last worker is offered the remainder, whatever its own
/// share says.
pub fn assign_strips(height: u32, shares: &Vec<u32>, workers: usize) -> (strips: Vec<
    StripAssignment,
>)
    ensures
        strips@ == plan(height, shares@, workers as int),
{
    let mut strips: Vec<StripAssignment> = Vec::new();
    let mut current_y: u32 = 0;
    let mut i: usize = 0;
    while i < workers
        invariant
            0 <= i <= workers,
            current_y <= height,
            strips@ + plan_from(height, shares@, workers as int, i as int, current_y as int)
                == plan(height, shares@, workers as int),
        decreases workers - i,
    {
        let rows: u32 = if i == workers - 1 {
            height - current_y
        } else if i < shares.len() {
            shares[i]
        } else {
            0
        };
        if rows > 0 && current_y < height {
            let y_end: u32 = if rows < height - current_y {
                current_y + rows
            } else {
                height
            };
            let strip = StripAssignment { worker: i, y_start: current_y, y_end };
            proof {
                let rest = plan_from(height, shares@, workers as int, i + 1, y_end as int);
                assert(plan_from(height, shares@, workers as int, i as int, current_y as int)
                    == seq![strip] + rest);
                assert(strips@.push(strip) + rest == strips@ + (seq![strip] + rest));
            }
            strips.push(strip);
            current_y = y_end;
        }
        i += 1;
    }
    proof {
        assert(plan_from(height, shares@, workers as int, workers as int, current_y as int)
            == Seq::<StripAssignment>::empty());
        assert(strips@ + Seq::<StripAssignment>::empty() == strips@);
    }
    strips
}

} // verus!
