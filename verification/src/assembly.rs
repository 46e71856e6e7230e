//! Collecting the strips of one frame and merging them into its pixel buffer.
//!
//! Pixels are packed `R, G, B` bytes in row-major order, so a row of a frame
//! `width` pixels wide takes `width * 3` bytes and the strip that starts at
//! row `y` starts at byte `y * width * 3`.
use crate::dispatch::{holds_row, lemma_tiles_cover, lemma_tiles_ordered, tiles, StripAssignment};
use vstd::prelude::*;

verus! {

/// Number of bytes of a whole frame.
pub open spec fn frame_len(width: u32, height: u32) -> int {
    width * height * 3
}

/// Byte at which row `y` of a frame starts.
pub open spec fn row_offset(y: int, width: u32) -> int {
    y * width * 3
}

/// The frame's buffer, and its text form of four characters for three bytes,
/// can be allocated on this machine.
pub open spec fn frame_fits(width: u32, height: u32) -> bool {
    4 * width * height <= isize::MAX
}

/// `buf` with `data` copied over it from byte `offset` on; what would fall
/// behind the end of `buf` is left out.
pub open spec fn overlay(buf: Seq<u8>, offset: int, data: Seq<u8>) -> Seq<u8> {
    Seq::new(
        buf.len(),
        |p: int|
            if offset <= p < offset + data.len() {
                data[p - offset]
            } else {
                buf[p]
            },
    )
}

/// The buffer after the strips that start above row `below` have been copied
/// into a buffer of zeros, in ascending order of their first row.
pub open spec fn painted(strips: Map<u32, Seq<u8>>, width: u32, height: u32, below: nat) -> Seq<u8>
    decreases below,
{
    if below == 0 {
        Seq::new(frame_len(width, height) as nat, |p: int| 0u8)
    } else {
        let y = (below - 1) as nat;
        let before = painted(strips, width, height, y);
        if y <= u32::MAX && strips.dom().contains(y as u32) {
            overlay(before, row_offset(y as int, width), strips[y as u32])
        } else {
            before
        }
    }
}

/// The assembled frame: every strip copied to its place in a buffer of zeros,
/// strips with a lower first row first.
pub open spec fn assembled(strips: Map<u32, Seq<u8>>, width: u32, height: u32) -> Seq<u8> {
    painted(strips, width, height, 0x1_0000_0000)
}

/// Rows `from..to` start no strip, so copying up to either gives the same.
pub proof fn lemma_painted_skip(
    strips: Map<u32, Seq<u8>>,
    width: u32,
    height: u32,
    from: nat,
    to: nat,
)
    requires
        from <= to,
        forall|y: u32| from <= y < to ==> !strips.dom().contains(y),
    ensures
        painted(strips, width, height, to) == painted(strips, width, height, from),
    decreases to - from,
{
    if from < to {
        lemma_painted_skip(strips, width, height, from, (to - 1) as nat);
        let y = (to - 1) as nat;
        if y <= u32::MAX {
            assert(!strips.dom().contains(y as u32));
        }
    }
}

/// The buffer keeps the length of the frame, whatever the strips are.
pub proof fn lemma_painted_len(strips: Map<u32, Seq<u8>>, width: u32, height: u32, below: nat)
    ensures
        painted(strips, width, height, below).len() == frame_len(width, height),
    decreases below,
{
    if below > 0 {
        lemma_painted_len(strips, width, height, (below - 1) as nat);
    }
}

/// One strip as it is kept: its first row and its pixels.
pub struct Strip {
    pub y_start: u32,
    pub data: Vec<u8>,
}

/// Strips in strictly ascending order of their first row.
pub open spec fn ascending(entries: Seq<Strip>) -> bool {
    forall|i: int, j: int|
        0 <= i < j < entries.len() ==> (#[trigger] entries[i]).y_start < (
        #[trigger] entries[j]).y_start
}

/// Some strip of `entries` starts at row `y`.
pub open spec fn starts_at(entries: Seq<Strip>, y: u32) -> bool {
    exists|i: int| 0 <= i < entries.len() && (#[trigger] entries[i]).y_start == y
}

/// The place in `entries` of a strip that starts at row `y`.
pub open spec fn place_of(entries: Seq<Strip>, y: u32) -> int {
    choose|i: int| 0 <= i < entries.len() && (#[trigger] entries[i]).y_start == y
}

/// The strips as a map from first row to pixels.
pub open spec fn strips_of(entries: Seq<Strip>) -> Map<u32, Seq<u8>> {
    Map::new(|y: u32| starts_at(entries, y), |y: u32| entries[place_of(entries, y)].data@)
}

/// In ascending strips, the strip at place `i` is the one its first row maps to.
pub proof fn lemma_strip_at(entries: Seq<Strip>, i: int)
    requires
        ascending(entries),
        0 <= i < entries.len(),
    ensures
        strips_of(entries).dom().contains(entries[i].y_start),
        strips_of(entries)[entries[i].y_start] == entries[i].data@,
        place_of(entries, entries[i].y_start) == i,
{
    let y = entries[i].y_start;
    assert(starts_at(entries, y));
    let j = place_of(entries, y);
    assert(0 <= j < entries.len() && entries[j].y_start == y);
    if j < i {
        assert(entries[j].y_start < entries[i].y_start);
    } else if i < j {
        assert(entries[i].y_start < entries[j].y_start);
    }
}

/// Ascending strips map as many first rows as there are strips.
pub proof fn lemma_strips_count(entries: Seq<Strip>)
    requires
        ascending(entries),
    ensures
        strips_of(entries).dom().finite(),
        strips_of(entries).dom().len() == entries.len(),
    decreases entries.len(),
{
    if entries.len() == 0 {
        assert(strips_of(entries).dom() =~= Set::<u32>::empty());
    } else {
        let front = entries.drop_last();
        let last = entries[entries.len() - 1];
        assert(ascending(front)) by {
            assert forall|i: int, j: int| 0 <= i < j < front.len() implies (
            #[trigger] front[i]).y_start < (#[trigger] front[j]).y_start by {
                assert(front[i] == entries[i] && front[j] == entries[j]);
            }
        }
        lemma_strips_count(front);
        assert(!strips_of(front).dom().contains(last.y_start)) by {
            if starts_at(front, last.y_start) {
                let i = place_of(front, last.y_start);
                assert(front[i] == entries[i]);
                assert(entries[i].y_start < entries[entries.len() - 1].y_start);
            }
        }
        assert(strips_of(entries).dom() =~= strips_of(front).dom().insert(last.y_start)) by {
            assert forall|y: u32| strips_of(entries).dom().contains(y) implies strips_of(
                front,
            ).dom().insert(last.y_start).contains(y) by {
                let i = place_of(entries, y);
                if i < entries.len() - 1 {
                    assert(front[i] == entries[i]);
                    assert(starts_at(front, y));
                }
            }
            assert forall|y: u32|
                strips_of(front).dom().insert(last.y_start).contains(y) implies strips_of(
                entries,
            ).dom().contains(y) by {
                if y == last.y_start {
                    assert(entries[entries.len() - 1].y_start == y);
                    assert(starts_at(entries, y));
                } else {
                    let i = place_of(front, y);
                    assert(front[i] == entries[i]);
                    assert(starts_at(entries, y));
                }
            }
        }
    }
}

/// Copies `data` over `buf` from byte `offset` on, as far as `buf` reaches.
pub fn overlay_into(buf: &mut Vec<u8>, offset: u128, data: &Vec<u8>)
    ensures
        final(buf)@ == overlay(old(buf)@, offset as int, data@),
{
    let len: usize = buf.len();
    if offset >= len as u128 {
        assert(buf@ =~= overlay(buf@, offset as int, data@));
        return ;
    }
    let start: usize = offset as usize;
    let room: usize = len - start;
    let count: usize = if data.len() < room {
        data.len()
    } else {
        room
    };
    let mut i: usize = 0;
    while i < count
        invariant
            buf.len() == len,
            start + count <= len,
            count <= data.len(),
            start == offset,
            0 <= i <= count,
            count == data.len() || start + count == len,
            forall|p: int| 0 <= p < start ==> buf@[p] == old(buf)@[p],
            forall|p: int| start + i <= p < len ==> buf@[p] == old(buf)@[p],
            forall|p: int| start <= p < start + i ==> buf@[p] == data@[p - start],
        decreases count - i,
    {
        let byte: u8 = data[i];
        buf.set(start + i, byte);
        i += 1;
    }
    assert(buf@ =~= overlay(old(buf)@, offset as int, data@));
}

/// A frame whose strips are being collected.
pub struct PendingFrame {
    width: u32,
    height: u32,
    strips: Vec<Strip>,
    expected_strips: usize,
    start_time: u64,
}

/// What a `PendingFrame` holds, as plain values: the size of the frame, the
/// strips that have arrived by first row, the number of strips that were sent
/// out, and the time at which they were.
pub struct FrameState {
    pub width: u32,
    pub height: u32,
    pub strips: Map<u32, Seq<u8>>,
    pub expected_strips: usize,
    pub start_time: u64,
}

impl FrameState {
    /// As many strips have arrived as were sent out.
    pub open spec fn is_complete(self) -> bool {
        self.strips.dom().len() == self.expected_strips
    }

    /// The frame with one more strip arrived.
    pub open spec fn with_strip(self, y_start: u32, pixels: Seq<u8>) -> FrameState {
        FrameState { strips: self.strips.insert(y_start, pixels), ..self }
    }

    /// The buffer that the strips make.
    pub open spec fn assembled(self) -> Seq<u8> {
        assembled(self.strips, self.width, self.height)
    }
}

impl View for PendingFrame {
    type V = FrameState;

    closed spec fn view(&self) -> FrameState {
        FrameState {
            width: self.width,
            height: self.height,
            strips: strips_of(self.strips@),
            expected_strips: self.expected_strips,
            start_time: self.start_time,
        }
    }
}

impl PendingFrame {
    /// The strips are kept in order.
    pub closed spec fn wf(&self) -> bool {
        ascending(self.strips@)
    }

    /// A frame of which no strip has arrived yet.
    pub fn new(width: u32, height: u32, expected_strips: usize, start_time: u64) -> (frame: Self)
        ensures
            frame.wf(),
            frame@ == (FrameState {
                width,
                height,
                strips: Map::empty(),
                expected_strips,
                start_time,
            }),
    {
        let frame = PendingFrame { width, height, strips: Vec::new(), expected_strips, start_time };
        assert(frame@.strips =~= Map::<u32, Seq<u8>>::empty());
        frame
    }

    /// Width of the frame in pixels.
    pub fn width(&self) -> (w: u32)
        ensures
            w == self@.width,
    {
        self.width
    }

    /// Height of the frame in rows.
    pub fn height(&self) -> (h: u32)
        ensures
            h == self@.height,
    {
        self.height
    }

    /// Number of strips that were sent out for this frame.
    pub fn expected_strips(&self) -> (n: usize)
        ensures
            n == self@.expected_strips,
    {
        self.expected_strips
    }

    /// Time at which the strips were sent out.
    pub fn start_time(&self) -> (t: u64)
        ensures
            t == self@.start_time,
    {
        self.start_time
    }

    /// Number of strips that have arrived.
    pub fn strip_count(&self) -> (n: usize)
        requires
            self.wf(),
        ensures
            n == self@.strips.dom().len(),
    {
        proof {
            lemma_strips_count(self.strips@);
        }
        self.strips.len()
    }

    /// Whether as many strips have arrived as were sent out.
    pub fn is_complete(&self) -> (done: bool)
        requires
            self.wf(),
        ensures
            done == self@.is_complete(),
    {
        self.strip_count() == self.expected_strips
    }

    /// Keeps the strip that starts at row `y_start`; one kept before for that
    /// row is replaced.
    pub fn insert_strip(&mut self, y_start: u32, data: Vec<u8>)
        requires
            old(self).wf(),
        ensures
            final(self).wf(),
            final(self)@ == old(self)@.with_strip(y_start, data@),
    {
        let n: usize = self.strips.len();
        let mut i: usize = 0;
        while i < n && self.strips[i].y_start < y_start
            invariant
                n == self.strips.len(),
                0 <= i <= n,
                *self == *old(self),
                forall|k: int| 0 <= k < i ==> (#[trigger] self.strips@[k]).y_start < y_start,
            decreases n - i,
        {
            i += 1;
        }
        let ghost before = self.strips@;
        let ghost pixels = data@;
        let strip = Strip { y_start, data };
        if i < n && self.strips[i].y_start == y_start {
            self.strips.set(i, strip);
            proof {
                let after = self.strips@;
                assert(ascending(after)) by {
                    assert forall|a: int, b: int| 0 <= a < b < after.len() implies (
                    #[trigger] after[a]).y_start < (#[trigger] after[b]).y_start by {
                        assert(before[a].y_start < before[b].y_start);
                    }
                }
                assert forall|y: u32| starts_at(after, y) <==> (y == y_start || starts_at(
                    before,
                    y,
                )) by {
                    if starts_at(after, y) {
                        let k = place_of(after, y);
                        assert(before[k].y_start == y);
                    }
                    if starts_at(before, y) {
                        let k = place_of(before, y);
                        assert(after[k].y_start == y);
                    }
                    if y == y_start {
                        assert(after[i as int].y_start == y);
                    }
                }
                assert forall|y: u32| starts_at(after, y) implies #[trigger] strips_of(after)[y]
                    == strips_of(before).insert(y_start, pixels)[y] by {
                    let k = place_of(after, y);
                    lemma_strip_at(after, k);
                    if k != i {
                        assert(before[k] == after[k]);
                        lemma_strip_at(before, k);
                    }
                }
                assert(strips_of(after) =~= strips_of(before).insert(y_start, pixels));
            }
        } else {
            self.strips.insert(i, strip);
            proof {
                let after = self.strips@;
                let at = i as int;
                assert(after == before.insert(at, strip));
                assert forall|k: int| at < k < after.len() implies y_start < (
                #[trigger] after[k]).y_start by {
                    assert(after[k] == before[k - 1]);
                    if at < k - 1 {
                        assert(before[at].y_start < before[k - 1].y_start);
                    }
                }
                assert(ascending(after)) by {
                    assert forall|a: int, b: int| 0 <= a < b < after.len() implies (
                    #[trigger] after[a]).y_start < (#[trigger] after[b]).y_start by {
                        if b < at {
                            assert(after[a] == before[a] && after[b] == before[b]);
                        } else if b == at {
                            assert(after[a] == before[a]);
                        } else if a < at {
                            assert(after[a] == before[a]);
                            assert(after[b] == before[b - 1]);
                            assert(before[a].y_start < y_start);
                        } else if a == at {
                        } else {
                            assert(after[a] == before[a - 1] && after[b] == before[b - 1]);
                        }
                    }
                }
                assert forall|y: u32| starts_at(after, y) <==> (y == y_start || starts_at(
                    before,
                    y,
                )) by {
                    if starts_at(after, y) {
                        let k = place_of(after, y);
                        if k < at {
                            assert(before[k] == after[k]);
                        } else if k > at {
                            assert(before[k - 1] == after[k]);
                        }
                    }
                    if starts_at(before, y) {
                        let k = place_of(before, y);
                        if k < at {
                            assert(after[k] == before[k]);
                        } else {
                            assert(after[k + 1] == before[k]);
                        }
                    }
                    if y == y_start {
                        assert(after[at].y_start == y);
                    }
                }
                assert forall|y: u32| starts_at(after, y) implies #[trigger] strips_of(after)[y]
                    == strips_of(before).insert(y_start, pixels)[y] by {
                    let k = place_of(after, y);
                    lemma_strip_at(after, k);
                    if k < at {
                        assert(before[k] == after[k]);
                        lemma_strip_at(before, k);
                    } else if k > at {
                        assert(before[k - 1] == after[k]);
                        lemma_strip_at(before, k - 1);
                    }
                }
                assert(strips_of(after) =~= strips_of(before).insert(y_start, pixels));
            }
        }
    }

    /// Merges the strips into the frame's buffer: each strip is copied to the
    /// byte its first row starts at, strips with a lower first row first.
    pub fn assemble(&self) -> (buffer: Vec<u8>)
        requires
            self.wf(),
            frame_fits(self@.width, self@.height),
        ensures
            buffer@ == self@.assembled(),
            buffer@.len() == frame_len(self@.width, self@.height),
    {
        let width: u32 = self.width;
        let height: u32 = self.height;
        assert(width * height * 3 <= usize::MAX && width * height >= 0) by (nonlinear_arith)
            requires
                4 * width * height <= isize::MAX,
                isize::MAX <= usize::MAX,
        ;
        let pixels: usize = (width as usize) * (height as usize);
        let total: usize = pixels * 3;
        let mut buffer: Vec<u8> = vec![0u8; total];
        let ghost all = strips_of(self.strips@);
        let ghost mut below: nat = 0;
        assert(buffer@ =~= painted(all, width, height, 0));
        let n: usize = self.strips.len();
        let mut j: usize = 0;
        while j < n
            invariant
                n == self.strips.len(),
                0 <= j <= n,
                width == self.width,
                height == self.height,
                all == strips_of(self.strips@),
                ascending(self.strips@),
                below <= 0x1_0000_0000,
                forall|k: int| 0 <= k < j ==> (#[trigger] self.strips@[k]).y_start < below,
                forall|k: int| j <= k < n ==> (#[trigger] self.strips@[k]).y_start >= below,
                buffer@ == painted(all, width, height, below),
            decreases n - j,
        {
            let strip = &self.strips[j];
            let y: u32 = strip.y_start;
            assert((y as u128) * (width as u128) * 3 <= u128::MAX && (y as u128) * (width as u128)
                <= u128::MAX) by (nonlinear_arith)
                requires
                    y <= u32::MAX,
                    width <= u32::MAX,
            ;
            let offset: u128 = (y as u128) * (width as u128) * 3;
            proof {
                assert forall|r: u32| below <= r < y implies !all.dom().contains(r) by {
                    if starts_at(self.strips@, r) {
                        let k = place_of(self.strips@, r);
                        if k < j {
                        } else if k > j {
                            assert(self.strips@[j as int].y_start < self.strips@[k].y_start);
                        }
                    }
                }
                lemma_painted_skip(all, width, height, below, y as nat);
                lemma_strip_at(self.strips@, j as int);
                assert(painted(all, width, height, (y + 1) as nat) == overlay(
                    painted(all, width, height, y as nat),
                    row_offset(y as int, width),
                    all[y],
                ));
                assert forall|k: int| j + 1 <= k < n implies (#[trigger] self.strips@[k]).y_start
                    >= y + 1 by {
                    assert(self.strips@[j as int].y_start < self.strips@[k].y_start);
                }
                below = (y + 1) as nat;
            }
            overlay_into(&mut buffer, offset, &strip.data);
            j += 1;
        }
        proof {
            assert forall|r: u32| below <= r < 0x1_0000_0000 implies !all.dom().contains(r) by {
                if starts_at(self.strips@, r) {
                    let k = place_of(self.strips@, r);
                }
            }
            lemma_painted_skip(all, width, height, below, 0x1_0000_0000);
            lemma_painted_len(all, width, height, 0x1_0000_0000);
        }
        buffer
    }
}

/// The pixels of rows `[y_start, y_end)` of a frame.
pub open spec fn rows_of(frame: Seq<u8>, width: u32, y_start: int, y_end: int) -> Seq<u8> {
    frame.subrange(row_offset(y_start, width), row_offset(y_end, width))
}

/// The strips kept once `arrivals` have come in, in that order: first row
/// and pixels of each.
pub open spec fn collected(arrivals: Seq<(u32, Seq<u8>)>) -> Map<u32, Seq<u8>>
    decreases arrivals.len(),
{
    if arrivals.len() == 0 {
        Map::empty()
    } else {
        collected(arrivals.drop_last()).insert(arrivals.last().0, arrivals.last().1)
    }
}

/// The strips `cuts` of `frame`, arriving in the order `order`: arrival `j`
/// is strip `order[j]`.
pub open spec fn arrivals_of(
    frame: Seq<u8>,
    width: u32,
    cuts: Seq<StripAssignment>,
    order: Seq<int>,
) -> Seq<(u32, Seq<u8>)> {
    Seq::new(
        order.len(),
        |j: int|
            (
                cuts[order[j]].y_start,
                rows_of(frame, width, cuts[order[j]].y_start as int, cuts[order[j]].y_end as int),
            ),
    )
}

/// Strip `i` is among the arrivals.
pub open spec fn arrives(order: Seq<int>, i: int) -> bool {
    exists|j: int| 0 <= j < order.len() && #[trigger] order[j] == i
}

/// Byte `p` belongs to the rows of strip `c`.
pub open spec fn holds_byte(c: StripAssignment, width: u32, p: int) -> bool {
    row_offset(c.y_start as int, width) <= p < row_offset(c.y_end as int, width)
}

proof fn lemma_row_offset_monotone(a: int, b: int, width: u32)
    requires
        0 <= a <= b,
    ensures
        0 <= row_offset(a, width) <= row_offset(b, width),
{
    assert(0 <= a * width * 3 <= b * width * 3) by (nonlinear_arith)
        requires
            0 <= a <= b,
            width >= 0,
    ;
}

/// What is kept once strips of `cuts` have arrived, if every arrival carries
/// the rows of the frame that its strip stands for.
proof fn lemma_collected_rows(
    frame: Seq<u8>,
    width: u32,
    height: u32,
    cuts: Seq<StripAssignment>,
    order: Seq<int>,
)
    requires
        tiles(cuts, 0, height as int),
        forall|j: int| 0 <= j < order.len() ==> 0 <= #[trigger] order[j] < cuts.len(),
    ensures
        forall|y: u32| #[trigger]
            collected(arrivals_of(frame, width, cuts, order)).dom().contains(y) <==> exists|
                j: int,
            |
                0 <= j < order.len() && cuts[#[trigger] order[j]].y_start == y,
        forall|j: int|
            0 <= j < order.len() ==> collected(arrivals_of(frame, width, cuts, order))[cuts[
            #[trigger] order[j]].y_start] == rows_of(
                frame,
                width,
                cuts[order[j]].y_start as int,
                cuts[order[j]].y_end as int,
            ),
    decreases order.len(),
{
    let arrivals = arrivals_of(frame, width, cuts, order);
    if order.len() > 0 {
        let front = order.drop_last();
        let last = order.last();
        lemma_collected_rows(frame, width, height, cuts, front);
        assert(arrivals.drop_last() =~= arrivals_of(frame, width, cuts, front));
        let before = collected(arrivals_of(frame, width, cuts, front));
        let after = collected(arrivals);
        assert(after == before.insert(arrivals.last().0, arrivals.last().1));
        assert(arrivals.last().0 == cuts[last].y_start);
        assert forall|y: u32| #[trigger] after.dom().contains(y) <==> exists|j: int|
            0 <= j < order.len() && cuts[#[trigger] order[j]].y_start == y by {
            if after.dom().contains(y) {
                if y == cuts[last].y_start {
                    assert(cuts[order[order.len() - 1]].y_start == y);
                } else {
                    assert(before.dom().contains(y));
                    let j = choose|j: int|
                        0 <= j < front.len() && cuts[#[trigger] front[j]].y_start == y;
                    assert(cuts[order[j]].y_start == y);
                }
            }
            if exists|j: int| 0 <= j < order.len() && cuts[#[trigger] order[j]].y_start == y {
                let j = choose|j: int|
                    0 <= j < order.len() && cuts[#[trigger] order[j]].y_start == y;
                if j < order.len() - 1 {
                    assert(cuts[front[j]].y_start == y);
                    assert(before.dom().contains(y));
                }
            }
        }
        assert forall|j: int| 0 <= j < order.len() implies after[cuts[#[trigger] order[j]].y_start]
            == rows_of(
            frame,
            width,
            cuts[order[j]].y_start as int,
            cuts[order[j]].y_end as int,
        ) by {
            let a = order[j];
            if cuts[a].y_start == cuts[last].y_start {
                if a < last {
                    lemma_tiles_ordered(cuts, 0, height as int, a, last);
                } else if last < a {
                    lemma_tiles_ordered(cuts, 0, height as int, last, a);
                }
                assert(a == last);
            } else {
                assert(j < order.len() - 1);
                assert(front[j] == a);
                assert(before[cuts[front[j]].y_start] == rows_of(
                    frame,
                    width,
                    cuts[front[j]].y_start as int,
                    cuts[front[j]].y_end as int,
                ));
            }
        }
    } else {
        assert(collected(arrivals) =~= Map::<u32, Seq<u8>>::empty());
    }
}

/// Once the strips that start above row `below` are copied, every byte of
/// theirs is the byte of the frame.
proof fn lemma_painted_rows(
    strips: Map<u32, Seq<u8>>,
    frame: Seq<u8>,
    width: u32,
    height: u32,
    cuts: Seq<StripAssignment>,
    below: nat,
)
    requires
        frame.len() == frame_len(width, height),
        tiles(cuts, 0, height as int),
        forall|y: u32| #[trigger]
            strips.dom().contains(y) ==> exists|i: int|
                0 <= i < cuts.len() && (#[trigger] cuts[i]).y_start == y,
        forall|i: int|
            0 <= i < cuts.len() ==> strips.dom().contains((#[trigger] cuts[i]).y_start)
                && strips[cuts[i].y_start] == rows_of(
                frame,
                width,
                cuts[i].y_start as int,
                cuts[i].y_end as int,
            ),
    ensures
        painted(strips, width, height, below).len() == frame.len(),
        forall|i: int, p: int|
            0 <= i < cuts.len() && (#[trigger] cuts[i]).y_start < below && #[trigger] holds_byte(
                cuts[i],
                width,
                p,
            ) ==> painted(strips, width, height, below)[p] == frame[p],
    decreases below,
{
    lemma_painted_len(strips, width, height, below);
    if below > 0 {
        let y = (below - 1) as nat;
        lemma_painted_rows(strips, frame, width, height, cuts, y);
        lemma_painted_len(strips, width, height, y);
        let before = painted(strips, width, height, y);
        let after = painted(strips, width, height, below);
        assert forall|i: int, p: int|
            0 <= i < cuts.len() && (#[trigger] cuts[i]).y_start < below && #[trigger] holds_byte(
                cuts[i],
                width,
                p,
            ) implies after[p] == frame[p] by {
            lemma_bytes_in_frame(cuts, width, height, i);
            if y <= u32::MAX && strips.dom().contains(y as u32) {
                let i0 = choose|i0: int|
                    0 <= i0 < cuts.len() && (#[trigger] cuts[i0]).y_start == y as u32;
                lemma_bytes_in_frame(cuts, width, height, i0);
                let offset = row_offset(y as int, width);
                let end = row_offset(cuts[i0].y_end as int, width);
                assert(strips[y as u32] == frame.subrange(offset, end));
                if cuts[i].y_start != y {
                    assert(before[p] == frame[p]);
                }
                lemma_overlay_keeps(before, frame, offset, end, p);
            } else {
                if cuts[i].y_start == y {
                    assert(strips.dom().contains(cuts[i].y_start));
                }
            }
        }
    }
}

/// Copying a piece of `frame` to its own place keeps every byte that agreed
/// with `frame`, and makes the copied ones agree.
proof fn lemma_overlay_keeps(before: Seq<u8>, frame: Seq<u8>, offset: int, end: int, p: int)
    requires
        before.len() == frame.len(),
        0 <= offset <= end <= frame.len(),
        0 <= p < frame.len(),
        before[p] == frame[p] || offset <= p < end,
    ensures
        overlay(before, offset, frame.subrange(offset, end))[p] == frame[p],
{
}

/// The bytes of a strip of a tiling lie inside the frame.
proof fn lemma_bytes_in_frame(cuts: Seq<StripAssignment>, width: u32, height: u32, i: int)
    requires
        tiles(cuts, 0, height as int),
        0 <= i < cuts.len(),
    ensures
        0 <= row_offset(cuts[i].y_start as int, width) <= row_offset(cuts[i].y_end as int, width)
            <= frame_len(width, height),
        cuts[i].y_end <= height,
{
    if i < cuts.len() - 1 {
        lemma_tiles_ordered(cuts, 0, height as int, i, cuts.len() - 1);
        assert(cuts[cuts.len() - 1].y_start < cuts[cuts.len() - 1].y_end);
    }
    lemma_row_offset_monotone(cuts[i].y_start as int, cuts[i].y_end as int, width);
    lemma_row_offset_monotone(cuts[i].y_end as int, height as int, width);
    assert(row_offset(height as int, width) == frame_len(width, height)) by (nonlinear_arith);
}

/// Assembling a frame from its own strips gives the frame back, in whatever
/// order they arrive: if `cuts` tile the rows of a frame, and the strips that
/// arrive carry the rows of `frame` that they stand for, each strip arriving at
/// least once, then the assembled buffer is `frame`, byte for byte.
pub proof fn lemma_assembly_restores_frame(
    frame: Seq<u8>,
    width: u32,
    height: u32,
    cuts: Seq<StripAssignment>,
    order: Seq<int>,
)
    requires
        frame.len() == frame_len(width, height),
        tiles(cuts, 0, height as int),
        forall|j: int| 0 <= j < order.len() ==> 0 <= #[trigger] order[j] < cuts.len(),
        forall|i: int| 0 <= i < cuts.len() ==> #[trigger] arrives(order, i),
    ensures
        assembled(collected(arrivals_of(frame, width, cuts, order)), width, height) == frame,
{
    let strips = collected(arrivals_of(frame, width, cuts, order));
    lemma_collected_rows(frame, width, height, cuts, order);
    assert forall|y: u32| #[trigger] strips.dom().contains(y) implies exists|i: int|
        0 <= i < cuts.len() && (#[trigger] cuts[i]).y_start == y by {
        let j = choose|j: int| 0 <= j < order.len() && cuts[#[trigger] order[j]].y_start == y;
        assert(cuts[order[j]].y_start == y);
    }
    assert forall|i: int| 0 <= i < cuts.len() implies strips.dom().contains(
        (#[trigger] cuts[i]).y_start,
    ) && strips[cuts[i].y_start] == rows_of(
        frame,
        width,
        cuts[i].y_start as int,
        cuts[i].y_end as int,
    ) by {
        assert(arrives(order, i));
        let j = choose|j: int| 0 <= j < order.len() && #[trigger] order[j] == i;
        assert(cuts[order[j]].y_start == cuts[i].y_start);
    }
    lemma_painted_rows(strips, frame, width, height, cuts, 0x1_0000_0000);
    let buffer = assembled(strips, width, height);
    assert forall|p: int| 0 <= p < frame.len() implies buffer[p] == frame[p] by {
        let row_bytes = width * 3;
        assert(width > 0 && height > 0) by (nonlinear_arith)
            requires
                0 <= p < width * height * 3,
        ;
        let row = p / row_bytes;
        assert(row * row_bytes <= p < (row + 1) * row_bytes && 0 <= row) by (nonlinear_arith)
            requires
                row == p / row_bytes,
                row_bytes > 0,
                p >= 0,
        ;
        assert(row < height) by (nonlinear_arith)
            requires
                row * row_bytes <= p,
                p < width * height * 3,
                row_bytes == width * 3,
                row_bytes > 0,
        ;
        let k = lemma_tiles_cover(cuts, 0, height as int, row);
        assert(holds_row(cuts[k], row));
        assert(holds_byte(cuts[k], width, p)) by (nonlinear_arith)
            requires
                cuts[k].y_start <= row < cuts[k].y_end,
                row * row_bytes <= p < (row + 1) * row_bytes,
                row_bytes == width * 3,
                row_bytes > 0,
        {
            assert(cuts[k].y_start * width * 3 <= row * (width * 3));
            assert((row + 1) * (width * 3) <= cuts[k].y_end * width * 3);
        }
    }
    assert(buffer =~= frame);
}

} // verus!
