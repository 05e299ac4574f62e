use crate::picture::flat_index;
use crate::picture::Picture;
use vstd::prelude::*;

verus! {

/// Rows of the frame that one chunk of work covers.
pub const LINES_PER_WORK: u32 = 50;

/// Scatterings a light path may go through before it is cut off.
pub const MAX_BOUNCES: u32 = 50;

/// Spends one bounce of a path's budget. `None` means the budget is used up:
/// the path ends there and contributes black, whatever the ray would have
/// hit. Otherwise the result is the budget left for the scattered ray.
pub fn next_bounce(bounces_left: u32) -> (remaining: Option<u32>)
    ensures
        bounces_left == 0 <==> remaining is None,
        remaining matches Some(left) ==> left == bounces_left - 1,
{
    if bounces_left == 0 {
        None
    } else {
        Some(bounces_left - 1)
    }
}

/// Rejection sampling with a bound: draws candidates one at a time and
/// returns the first that `accept` takes, giving up after `attempts` draws.
/// `None` is the fault report of a sampler that ran out of attempts; it
/// cannot come back when there is at least one attempt and `accept` takes
/// whatever `draw` can produce.
pub fn first_accepted<T, D: Fn() -> T, A: Fn(&T) -> bool>(draw: D, accept: A, attempts: u32) -> (found:
    Option<T>)
    requires
        call_requires(draw, ()),
        forall|candidate: T|
            call_ensures(draw, (), candidate) ==> call_requires(accept, (&candidate,)),
    ensures
        attempts == 0 ==> found is None,
        found matches Some(candidate) ==> call_ensures(draw, (), candidate) && call_ensures(
            accept,
            (&candidate,),
            true,
        ),
        attempts > 0 && (forall|candidate: T|
            call_ensures(draw, (), candidate) ==> !call_ensures(accept, (&candidate,), false))
            ==> found is Some,
{
    let mut left: u32 = attempts;
    while left > 0
        invariant
            left <= attempts,
            call_requires(draw, ()),
            forall|candidate: T|
                call_ensures(draw, (), candidate) ==> call_requires(accept, (&candidate,)),
            left < attempts ==> exists|candidate: T|
                call_ensures(draw, (), candidate) && call_ensures(accept, (&candidate,), false),
        decreases left,
    {
        let candidate = draw();
        if accept(&candidate) {
            return Some(candidate);
        }
        left -= 1;
    }
    None
}

/// A run of pixels of the frame in row-major order: from `start` up to, and
/// not including, `end`.
#[derive(Debug, Copy, Clone, PartialEq, Eq, Structural)]
pub struct Chunk {
    pub start: usize,
    pub end: usize,
}

impl Chunk {
    /// Whether pixel `p` belongs to the chunk.
    pub open spec fn contains(&self, p: int) -> bool {
        self.start <= p < self.end
    }
}

/// How many chunks a frame of `pixels` pixels is cut into: the whole chunks
/// and one more for the rest.
pub open spec fn chunk_count(pixels: int, chunk_len: int) -> int {
    pixels / chunk_len + 1
}

/// Where chunk `i` begins.
pub open spec fn chunk_start(i: int, chunk_len: int) -> int {
    i * chunk_len
}

/// Where chunk `i` ends: a whole chunk after its start, or at the end of the
/// frame if that comes first.
pub open spec fn chunk_end(i: int, pixels: int, chunk_len: int) -> int {
    if (i + 1) * chunk_len <= pixels {
        (i + 1) * chunk_len
    } else {
        pixels
    }
}

/// `chunks` cuts the range from 0 to `pixels` into consecutive runs: the
/// first begins at 0, each begins where the one before it ends, and the last
/// ends at `pixels`. A run may be empty.
pub open spec fn tiles(chunks: Seq<Chunk>, pixels: int) -> bool {
    &&& chunks.len() > 0
    &&& chunks[0].start == 0
    &&& chunks.last().end == pixels
    &&& forall|i: int| 0 <= i < chunks.len() ==> (#[trigger] chunks[i]).start <= chunks[i].end
    &&& forall|i: int|
        0 <= i < chunks.len() - 1 ==> (#[trigger] chunks[i]).end == chunks[i + 1].start
}

/// Whether some chunk holds pixel `p`.
pub open spec fn covers(chunks: Seq<Chunk>, p: int) -> bool {
    exists|i: int| 0 <= i < chunks.len() && #[trigger] chunks[i].contains(p)
}

/// In a tiling, chunks further along begin no earlier than those before them
/// end.
pub proof fn lemma_tiles_ordered(chunks: Seq<Chunk>, pixels: int, i: int, j: int)
    requires
        tiles(chunks, pixels),
        0 <= i < j < chunks.len(),
    ensures
        chunks[i].end <= chunks[j].start,
    decreases j - i,
{
    if i + 1 < j {
        lemma_tiles_ordered(chunks, pixels, i, j - 1);
        assert(chunks[j - 1].end == chunks[j - 1 + 1].start);
    } else {
        assert(chunks[i].end == chunks[i + 1].start);
    }
}

/// A tiling stays inside the range it cuts up.
pub proof fn lemma_tiles_bounded(chunks: Seq<Chunk>, pixels: int, i: int)
    requires
        tiles(chunks, pixels),
        0 <= i < chunks.len(),
    ensures
        0 <= chunks[i].start <= chunks[i].end <= pixels,
{
    if i < chunks.len() - 1 {
        lemma_tiles_ordered(chunks, pixels, i, chunks.len() - 1);
    }
}

/// The chunks of a tiling partition the range: every pixel from 0 up to
/// `pixels` lies in one chunk (no gaps) and in no other (no overlaps), and no
/// chunk reaches outside the range.
pub proof fn lemma_tiles_partition(chunks: Seq<Chunk>, pixels: int)
    requires
        tiles(chunks, pixels),
    ensures
        forall|p: int| 0 <= p < pixels ==> #[trigger] covers(chunks, p),
        forall|p: int, i: int, j: int|
            0 <= i < chunks.len() && 0 <= j < chunks.len() && #[trigger] chunks[i].contains(p)
                && #[trigger] chunks[j].contains(p) ==> i == j,
        forall|p: int, i: int|
            0 <= i < chunks.len() && #[trigger] chunks[i].contains(p) ==> 0 <= p < pixels,
{
    assert forall|p: int| 0 <= p < pixels implies #[trigger] covers(chunks, p) by {
        let i = lemma_tiles_find(chunks, pixels, p, chunks.len() - 1);
        assert(chunks[i].contains(p));
    }
    assert forall|p: int, i: int, j: int|
        0 <= i < chunks.len() && 0 <= j < chunks.len() && #[trigger] chunks[i].contains(p)
            && #[trigger] chunks[j].contains(p) implies i == j by {
        if i < j {
            lemma_tiles_ordered(chunks, pixels, i, j);
        }
        if j < i {
            lemma_tiles_ordered(chunks, pixels, j, i);
        }
    }
    assert forall|p: int, i: int|
        0 <= i < chunks.len() && #[trigger] chunks[i].contains(p) implies 0 <= p < pixels by {
        lemma_tiles_bounded(chunks, pixels, i);
    }
}

/// Finds the chunk of pixel `p`, looking from chunk `last` downwards.
proof fn lemma_tiles_find(chunks: Seq<Chunk>, pixels: int, p: int, last: int) -> (i: int)
    requires
        tiles(chunks, pixels),
        0 <= last < chunks.len(),
        0 <= p < chunks[last].end,
    ensures
        0 <= i <= last,
        chunks[i].contains(p),
    decreases last,
{
    if chunks[last].start <= p {
        last
    } else {
        assert(last > 0);
        assert(chunks[last - 1].end == chunks[last - 1 + 1].start);
        lemma_tiles_find(chunks, pixels, p, last - 1)
    }
}

/// The chunk formulas describe a tiling of the frame.
pub proof fn lemma_chunk_bounds(i: int, pixels: int, chunk_len: int)
    requires
        0 <= pixels,
        0 < chunk_len,
        0 <= i < chunk_count(pixels, chunk_len),
    ensures
        0 <= chunk_start(i, chunk_len) <= chunk_end(i, pixels, chunk_len) <= pixels,
        i < chunk_count(pixels, chunk_len) - 1 ==> chunk_end(i, pixels, chunk_len) == chunk_start(
            i + 1,
            chunk_len,
        ),
        i == chunk_count(pixels, chunk_len) - 1 ==> chunk_end(i, pixels, chunk_len) == pixels
            && chunk_start(i, chunk_len) == pixels - pixels % chunk_len,
{
    let whole = pixels / chunk_len;
    vstd::arithmetic::div_mod::lemma_fundamental_div_mod(pixels, chunk_len);
    assert(pixels == chunk_len * whole + pixels % chunk_len);
    assert(0 <= pixels % chunk_len < chunk_len) by {
        vstd::arithmetic::div_mod::lemma_mod_bound(pixels, chunk_len);
    }
    assert(0 <= whole) by {
        vstd::arithmetic::div_mod::lemma_div_pos_is_pos(pixels, chunk_len);
    }
    assert(0 <= i * chunk_len) by (nonlinear_arith)
        requires
            0 <= i,
            0 < chunk_len,
    ;
    assert((i + 1) * chunk_len == i * chunk_len + chunk_len) by (nonlinear_arith);
    assert(chunk_len * whole == whole * chunk_len) by (nonlinear_arith);
    if i < whole {
        assert((i + 1) * chunk_len <= whole * chunk_len) by (nonlinear_arith)
            requires
                i + 1 <= whole,
                0 < chunk_len,
        ;
    } else {
        assert(i == whole);
    }
}

/// The rows that the chunk's pixels lie in, in a frame whose rows hold `width`
/// pixels, can all be numbered in 32 bits.
pub open spec fn rows_fit(work: Chunk, width: int) -> bool {
    work.start < work.end ==> (work.end - 1) / width <= u32::MAX
}

/// A pixel of a `width` by `height` frame lies in one of its rows and
/// columns.
pub proof fn lemma_pixel_in_frame(p: int, width: int, height: int)
    requires
        0 < width,
        0 <= p < width * height,
    ensures
        0 <= p / width < height,
        0 <= p % width < width,
        flat_index(p % width, p / width, width) == p,
{
    vstd::arithmetic::div_mod::lemma_fundamental_div_mod(p, width);
    vstd::arithmetic::div_mod::lemma_mod_bound(p, width);
    vstd::arithmetic::div_mod::lemma_div_pos_is_pos(p, width);
    assert(width * (p / width) == (p / width) * width) by (nonlinear_arith);
    assert(p / width < height) by (nonlinear_arith)
        requires
            0 < width,
            p < width * height,
            width * (p / width) <= p,
    ;
}

/// Cuts a frame of `width` by `height` pixels into chunks of
/// `lines_per_work` whole rows, in row-major order, and one last chunk for
/// the rows that are left. That last chunk is always there; it is empty when
/// the height is a multiple of `lines_per_work`.
pub fn frame_chunks(width: u32, height: u32, lines_per_work: u32) -> (chunks: Vec<Chunk>)
    requires
        width > 0,
        lines_per_work > 0,
        width * height <= usize::MAX,
    ensures
        chunks@.len() == chunk_count(width * height, width * lines_per_work),
        forall|i: int|
            0 <= i < chunks@.len() ==> (#[trigger] chunks@[i]).start == chunk_start(
                i,
                width * lines_per_work,
            ) && chunks@[i].end == chunk_end(i, width * height, width * lines_per_work),
        tiles(chunks@, width * height),
        forall|i: int| 0 <= i < chunks@.len() ==> rows_fit(#[trigger] chunks@[i], width as int),
{
    assert(width * height <= 0xffff_ffff * 0xffff_ffff && 0 <= width * height) by (nonlinear_arith)
        requires
            width <= 0xffff_ffff,
            height <= 0xffff_ffff,
    ;
    assert(width * lines_per_work <= 0xffff_ffff * 0xffff_ffff && 0 < width * lines_per_work)
        by (nonlinear_arith)
        requires
            0 < width <= 0xffff_ffff,
            0 < lines_per_work <= 0xffff_ffff,
    ;
    let pixels: u64 = width as u64 * height as u64;
    let chunk_len: u64 = width as u64 * lines_per_work as u64;
    let whole: u64 = pixels / chunk_len;
    let remainder: u64 = pixels % chunk_len;
    let mut chunks: Vec<Chunk> = Vec::new();
    let mut i: u64 = 0;
    while i < whole
        invariant
            i <= whole,
            whole == pixels / chunk_len,
            0 < chunk_len,
            pixels <= usize::MAX,
            chunks@.len() == i,
            forall|k: int|
                0 <= k < i ==> (#[trigger] chunks@[k]).start == chunk_start(k, chunk_len as int)
                    && chunks@[k].end == chunk_end(k, pixels as int, chunk_len as int),
        decreases whole - i,
    {
        proof {
            lemma_chunk_bounds(i as int, pixels as int, chunk_len as int);
            assert((i + 1) * chunk_len == i * chunk_len + chunk_len) by (nonlinear_arith);
        }
        let start: u64 = i * chunk_len;
        let end: u64 = start + chunk_len;
        chunks.push(Chunk { start: start as usize, end: end as usize });
        i += 1;
    }
    proof {
        lemma_chunk_bounds(whole as int, pixels as int, chunk_len as int);
    }
    chunks.push(Chunk { start: (pixels - remainder) as usize, end: pixels as usize });
    proof {
        assert forall|k: int| 0 <= k < chunks@.len() implies (#[trigger] chunks@[k]).start
            <= chunks@[k].end by {
            lemma_chunk_bounds(k, pixels as int, chunk_len as int);
        }
        assert forall|k: int| 0 <= k < chunks@.len() - 1 implies (#[trigger] chunks@[k]).end
            == chunks@[k + 1].start by {
            lemma_chunk_bounds(k, pixels as int, chunk_len as int);
        }
        lemma_chunk_bounds(0, pixels as int, chunk_len as int);
        assert forall|k: int| 0 <= k < chunks@.len() implies rows_fit(
            #[trigger] chunks@[k],
            width as int,
        ) by {
            lemma_chunk_bounds(k, pixels as int, chunk_len as int);
            if chunks@[k].start < chunks@[k].end {
                lemma_pixel_in_frame(chunks@[k].end - 1, width as int, height as int);
            }
        }
    }
    chunks
}

/// Column and row of the pixel at row-major position `index` in a frame whose
/// rows hold `width` pixels.
pub open spec fn coordinates_of(index: int, width: int) -> (u32, u32) {
    ((index % width) as u32, (index / width) as u32)
}

/// Column and row of the pixel at row-major position `index` in a frame whose
/// rows hold `width` pixels.
pub fn coordinates(index: usize, width: u32) -> (at: (u32, u32))
    requires
        width > 0,
        (index as int) / (width as int) <= u32::MAX,
    ensures
        at == coordinates_of(index as int, width as int),
        at.0 == (index as int) % (width as int),
        at.1 == (index as int) / (width as int),
        at.0 < width,
        flat_index(at.0 as int, at.1 as int, width as int) == index,
{
    proof {
        vstd::arithmetic::div_mod::lemma_fundamental_div_mod(index as int, width as int);
        vstd::arithmetic::div_mod::lemma_mod_bound(index as int, width as int);
        vstd::arithmetic::div_mod::lemma_div_pos_is_pos(index as int, width as int);
        assert(width * ((index as int) / (width as int)) == ((index as int) / (width as int))
            * width) by (nonlinear_arith);
    }
    let x = index % (width as usize);
    let y = index / (width as usize);
    (x as u32, y as u32)
}

/// Renders the pixels of one chunk, in row-major order, by asking `render`
/// for the colour at each (column, row). A chunk whose end is not past its
/// start has no pixels.
pub fn render_work_pixels<P, F: Fn(u32, u32) -> P>(work: Chunk, width: u32, render: F) -> (buffer:
    Vec<P>)
    requires
        width > 0,
        rows_fit(work, width as int),
        forall|i: int|
            work.start <= i < work.end ==> call_requires(
                render,
                #[trigger] coordinates_of(i, width as int),
            ),
    ensures
        buffer@.len() == if work.start <= work.end {
            work.end - work.start
        } else {
            0
        },
        forall|k: int|
            0 <= k < buffer@.len() ==> call_ensures(
                render,
                coordinates_of(work.start + k, width as int),
                #[trigger] buffer@[k],
            ),
{
    let mut buffer: Vec<P> = Vec::new();
    let mut i: usize = work.start;
    while i < work.end
        invariant
            width > 0,
            rows_fit(work, width as int),
            work.start <= i,
            work.start <= work.end ==> i <= work.end,
            buffer@.len() == if work.start <= work.end {
                i - work.start
            } else {
                0
            },
            forall|j: int|
                work.start <= j < work.end ==> call_requires(
                    render,
                    #[trigger] coordinates_of(j, width as int),
                ),
            forall|k: int|
                0 <= k < buffer@.len() ==> call_ensures(
                    render,
                    coordinates_of(work.start + k, width as int),
                    #[trigger] buffer@[k],
                ),
        decreases work.end - i,
    {
        proof {
            vstd::arithmetic::div_mod::lemma_div_is_ordered(
                i as int,
                work.end - 1,
                width as int,
            );
        }
        let (x, y) = coordinates(i, width);
        assert((x, y) == coordinates_of(i as int, width as int));
        let pixel = render(x, y);
        buffer.push(pixel);
        i += 1;
    }
    buffer
}

/// A frame after the pixels of `run` have been copied over it from position
/// `start` on.
pub open spec fn committed<P>(frame: Seq<P>, start: int, run: Seq<P>) -> Seq<P> {
    Seq::new(
        frame.len(),
        |i: int|
            if start <= i < start + run.len() {
                run[i - start]
            } else {
                frame[i]
            },
    )
}

/// Copies the finished pixels of a chunk into the frame at the chunk's
/// position. Nothing outside the run changes.
pub fn commit_chunk<P: Copy>(frame: &mut Picture<&mut [P]>, start: usize, buffer: &[P])
    requires
        start + buffer@.len() <= old(frame).pixels()@.len(),
    ensures
        final(frame).size() == old(frame).size(),
        final(frame).pixels()@ == committed(old(frame).pixels()@, start as int, buffer@),
        final(final(frame).pixels())@ == final(old(frame).pixels())@,
{
    let target = frame.buffer_mut();
    let ghost before = target@;
    assert(target.len() == target@.len());
    let mut k: usize = 0;
    while k < buffer.len()
        invariant
            k <= buffer@.len(),
            start + buffer@.len() <= before.len() <= usize::MAX,
            target@.len() == before.len(),
            forall|j: int|
                0 <= j < before.len() ==> #[trigger] target@[j] == if start <= j < start + k {
                    buffer@[j - start]
                } else {
                    before[j]
                },
        decreases buffer@.len() - k,
    {
        target[start + k] = buffer[k];
        k += 1;
    }
}

/// The frame after the chunks that `order` names have been committed one
/// after the other, `runs[i]` being the finished pixels of chunk `i`. A chunk
/// may be named more than once, or not at all.
pub open spec fn committed_in_order<P>(
    frame: Seq<P>,
    chunks: Seq<Chunk>,
    runs: Seq<Seq<P>>,
    order: Seq<int>,
) -> Seq<P>
    decreases order.len(),
{
    if order.len() == 0 {
        frame
    } else {
        committed(
            committed_in_order(frame, chunks, runs, order.drop_last()),
            chunks[order.last()].start as int,
            runs[order.last()],
        )
    }
}

/// `runs` holds one finished run for each chunk, of the chunk's length.
pub open spec fn runs_fit<P>(chunks: Seq<Chunk>, runs: Seq<Seq<P>>) -> bool {
    &&& runs.len() == chunks.len()
    &&& forall|i: int|
        0 <= i < chunks.len() ==> (#[trigger] runs[i]).len() == chunks[i].end - chunks[i].start
}

/// Every entry of `order` names a chunk.
pub open spec fn names_chunks(order: Seq<int>, count: int) -> bool {
    forall|k: int| 0 <= k < order.len() ==> 0 <= #[trigger] order[k] < count
}

/// Committing never changes the size of the frame.
pub proof fn lemma_commit_keeps_length<P>(
    frame: Seq<P>,
    chunks: Seq<Chunk>,
    runs: Seq<Seq<P>>,
    order: Seq<int>,
)
    ensures
        committed_in_order(frame, chunks, runs, order).len() == frame.len(),
    decreases order.len(),
{
    if order.len() > 0 {
        lemma_commit_keeps_length(frame, chunks, runs, order.drop_last());
    }
}

/// The order in which chunks are committed does not matter: whatever the
/// order, a pixel of the frame ends up holding what its own chunk rendered
/// for it if that chunk was committed, and what it held before if not. No
/// other chunk ever writes it.
pub proof fn lemma_commit_any_order<P>(
    frame: Seq<P>,
    chunks: Seq<Chunk>,
    runs: Seq<Seq<P>>,
    order: Seq<int>,
    i: int,
    p: int,
)
    requires
        tiles(chunks, frame.len() as int),
        runs_fit(chunks, runs),
        names_chunks(order, chunks.len() as int),
        0 <= i < chunks.len(),
        chunks[i].contains(p),
    ensures
        committed_in_order(frame, chunks, runs, order).len() == frame.len(),
        committed_in_order(frame, chunks, runs, order)[p] == if order.contains(i) {
            runs[i][p - chunks[i].start]
        } else {
            frame[p]
        },
    decreases order.len(),
{
    lemma_tiles_bounded(chunks, frame.len() as int, i);
    if order.len() > 0 {
        let k = order.last();
        let earlier = order.drop_last();
        assert(0 <= order[order.len() - 1] < chunks.len());
        assert forall|n: int| 0 <= n < earlier.len() implies 0 <= #[trigger] earlier[n]
            < chunks.len() by {
            assert(earlier[n] == order[n]);
        }
        lemma_commit_any_order(frame, chunks, runs, earlier, i, p);
        lemma_tiles_bounded(chunks, frame.len() as int, k);
        if k == i {
            assert(order[order.len() - 1] == i);
        } else {
            if k < i {
                lemma_tiles_ordered(chunks, frame.len() as int, k, i);
            } else {
                lemma_tiles_ordered(chunks, frame.len() as int, i, k);
            }
            if earlier.contains(i) {
                let n = choose|n: int| 0 <= n < earlier.len() && earlier[n] == i;
                assert(order[n] == i);
            }
            if order.contains(i) {
                let n = choose|n: int| 0 <= n < order.len() && order[n] == i;
                assert(earlier[n] == i);
            }
        }
    }
}

/// Once every chunk of a tiling has been committed, in any order and however
/// often, the frame is complete: each of its pixels holds what the one chunk
/// that contains it rendered for it.
pub proof fn lemma_frame_complete<P>(
    frame: Seq<P>,
    chunks: Seq<Chunk>,
    runs: Seq<Seq<P>>,
    order: Seq<int>,
)
    requires
        tiles(chunks, frame.len() as int),
        runs_fit(chunks, runs),
        names_chunks(order, chunks.len() as int),
        forall|i: int| 0 <= i < chunks.len() ==> order.contains(i),
    ensures
        committed_in_order(frame, chunks, runs, order).len() == frame.len(),
        forall|p: int, i: int|
            0 <= i < chunks.len() && #[trigger] chunks[i].contains(p) ==> committed_in_order(
                frame,
                chunks,
                runs,
                order,
            )[p] == runs[i][p - chunks[i].start],
        forall|p: int| 0 <= p < frame.len() ==> #[trigger] covers(chunks, p),
{
    lemma_tiles_partition(chunks, frame.len() as int);
    lemma_commit_keeps_length(frame, chunks, runs, order);
    assert forall|p: int, i: int|
        0 <= i < chunks.len() && #[trigger] chunks[i].contains(p) implies committed_in_order(
        frame,
        chunks,
        runs,
        order,
    )[p] == runs[i][p - chunks[i].start] by {
        lemma_commit_any_order(frame, chunks, runs, order, i, p);
    }
}

} // verus!
