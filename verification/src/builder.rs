//! Building an index file from quantized vectors that were assigned to cells.
use crate::answers;
use crate::bytes;
use crate::distance;
use crate::grouping;
use crate::layout;
use crate::layout::{BlockBounds, Cell, BLOCK_SIZE};
use crate::search;
use vstd::prelude::*;

verus! {

/// The coordinates of a run of vectors.
pub open spec fn views(vectors: Seq<[i16; 16]>) -> Seq<Seq<i16>> {
    Seq::new(vectors.len(), |i: int| vectors[i]@)
}

/// The corners of a run of boxes.
pub open spec fn boxes(bounds: Seq<BlockBounds>) -> Seq<layout::Bounds> {
    Seq::new(bounds.len(), |i: int| bounds[i]@)
}

/// The bytes from `from` up to `to` are zero.
pub open spec fn cleared(b: Seq<u8>, from: int, to: int) -> bool {
    forall|i: int| from <= i < to ==> #[trigger] b[i] == 0
}

/// The bytes between the sections of an index file are zero.
pub open spec fn padding_clear(b: Seq<u8>) -> bool {
    let s = layout::sections(b);
    &&& cleared(b, 20, s.centroids)
    &&& cleared(b, s.cells_end, s.cell_bounds)
    &&& cleared(b, s.cell_bounds + 64 * s.num_centroids, s.blocks)
    &&& cleared(b, s.blocks + 64 * s.num_blocks, s.vectors)
}

/// The header that is written for so many vectors and centroids.
pub open spec fn header_of(b: Seq<u8>, num_vectors: nat, num_centroids: nat) -> bool {
    &&& bytes::le_u32(b, 0) == layout::MAGIC
    &&& bytes::le_u32(b, 4) == layout::VERSION
    &&& bytes::le_u32(b, 8) == num_vectors
    &&& bytes::le_u32(b, 12) == num_centroids
    &&& bytes::le_u32(b, 16) == 16
}

/// `b` is the file of the current version that holds `m`, down to the last byte.
pub open spec fn encodes(b: Seq<u8>, m: layout::IndexView) -> bool {
    &&& layout::is_index(b)
    &&& bytes::le_u32(b, 4) == layout::VERSION
    &&& layout::contents(b) == m
    &&& b.len() == layout::sections(b).end
    &&& padding_clear(b)
}

fn write_vectors(out: &mut Vec<u8>, vectors: &[[i16; 16]])
    ensures
        final(out)@.len() == old(out)@.len() + 32 * vectors@.len(),
        bytes::extends(final(out)@, old(out)@),
        layout::vectors_at(final(out)@, old(out)@.len() as int, vectors@.len()) == views(vectors@),
{
    let ghost start = out@;
    proof {
        bytes::lemma_appended(start, Seq::empty());
    }
    for i in 0..vectors.len()
        invariant
            out@.len() == start.len() + 32 * i,
            bytes::extends(out@, start),
            forall|j: int|
                0 <= j < i ==> layout::vector_at(out@, start.len() + 32 * j)
                    == #[trigger] vectors@[j]@,
    {
        let ghost before = out@;
        layout::write_vec_i16(out, &vectors[i]);
        proof {
            bytes::lemma_extends(out@, before, start);
            layout::lemma_extends(out@, before);
        }
    }
    assert(layout::vectors_at(out@, start.len() as int, vectors@.len()) =~= views(vectors@));
}

fn write_cells(out: &mut Vec<u8>, cells: &Vec<Cell>)
    ensures
        final(out)@.len() == old(out)@.len() + 16 * cells@.len(),
        bytes::extends(final(out)@, old(out)@),
        layout::cells_at(final(out)@, old(out)@.len() as int, cells@.len()) == cells@,
{
    let ghost start = out@;
    proof {
        bytes::lemma_appended(start, Seq::empty());
    }
    for i in 0..cells.len()
        invariant
            out@.len() == start.len() + 16 * i,
            bytes::extends(out@, start),
            forall|j: int|
                0 <= j < i ==> layout::cell_at(out@, start.len() + 16 * j) == #[trigger] cells@[j],
    {
        let ghost before = out@;
        layout::write_cell(out, cells[i]);
        proof {
            bytes::lemma_extends(out@, before, start);
            layout::lemma_extends(out@, before);
        }
    }
    assert(layout::cells_at(out@, start.len() as int, cells@.len()) =~= cells@);
}

fn write_boxes(out: &mut Vec<u8>, bounds: &Vec<BlockBounds>)
    ensures
        final(out)@.len() == old(out)@.len() + 64 * bounds@.len(),
        bytes::extends(final(out)@, old(out)@),
        layout::boxes_at(final(out)@, old(out)@.len() as int, bounds@.len()) == boxes(bounds@),
{
    let ghost start = out@;
    proof {
        bytes::lemma_appended(start, Seq::empty());
    }
    for i in 0..bounds.len()
        invariant
            out@.len() == start.len() + 64 * i,
            bytes::extends(out@, start),
            forall|j: int|
                0 <= j < i ==> layout::bounds_at(out@, start.len() + 64 * j)
                    == #[trigger] bounds@[j]@,
    {
        let ghost before = out@;
        layout::write_bounds(out, &bounds[i]);
        proof {
            bytes::lemma_extends(out@, before, start);
            layout::lemma_extends(out@, before);
        }
    }
    assert(layout::boxes_at(out@, start.len() as int, bounds@.len()) =~= boxes(bounds@));
}

fn write_header(num_vectors: u32, num_centroids: u32) -> (out: Vec<u8>)
    ensures
        out@.len() == 20,
        header_of(out@, num_vectors as nat, num_centroids as nat),
{
    let mut out: Vec<u8> = Vec::new();
    bytes::push_u32(&mut out, layout::MAGIC);
    let ghost b1 = out@;
    bytes::push_u32(&mut out, layout::VERSION);
    let ghost b2 = out@;
    bytes::push_u32(&mut out, num_vectors);
    let ghost b3 = out@;
    bytes::push_u32(&mut out, num_centroids);
    let ghost b4 = out@;
    bytes::push_u32(&mut out, 16);
    proof {
        bytes::lemma_extends_reads(b2, b1);
        bytes::lemma_extends_reads(b3, b2);
        bytes::lemma_extends_reads(b4, b3);
        bytes::lemma_extends_reads(out@, b4);
    }
    out
}

/// A file whose sections follow one another, each aligned, encodes its parts.
proof fn lemma_encoded(b: Seq<u8>, m: layout::IndexView)
    requires
        m.centroids.len() == m.cells.len() <= u32::MAX,
        m.cell_bounds is Some,
        m.blocks.len() == layout::block_total(m.cells),
        m.vectors.len() == m.labels.len() <= u32::MAX,
        layout::cells_fit(m.cells, m.vectors.len() as int),
        header_of(b, m.vectors.len(), m.centroids.len()),
        ({
            let nc = m.centroids.len();
            let nb = m.blocks.len();
            let nv = m.vectors.len();
            let bounds_at = layout::round_up(32int + 48 * nc, 32);
            let blocks_at = layout::round_up(bounds_at + 64 * nc, 32);
            let vectors_at = layout::round_up(blocks_at + 64 * nb, 32);
            &&& layout::vectors_at(b, 32, nc) == m.centroids
            &&& layout::cells_at(b, 32int + 32 * nc, nc) == m.cells
            &&& layout::boxes_at(b, bounds_at, nc) == m.cell_bounds->0
            &&& layout::boxes_at(b, blocks_at, nb) == m.blocks
            &&& layout::vectors_at(b, vectors_at, nv) == m.vectors
            &&& b.subrange(vectors_at + 32 * nv, vectors_at + 33 * nv) == m.labels
            &&& b.len() == vectors_at + 33 * nv
            &&& cleared(b, 20, 32)
            &&& cleared(b, 32int + 48 * nc, bounds_at)
            &&& cleared(b, bounds_at + 64 * nc, blocks_at)
            &&& cleared(b, blocks_at + 64 * nb, vectors_at)
        }),
    ensures
        encodes(b, m),
{
    layout::lemma_round_up(20, 32);
    assert(layout::round_up(20, 32) == 32);
    layout::lemma_round_up(32int + 48 * m.centroids.len(), 32);
    layout::lemma_sections(b);
    reveal(layout::sections);
    let s = layout::sections(b);
    assert(s.cells == 32 + 32 * m.centroids.len());
    assert(s.num_blocks == m.blocks.len());
    assert(layout::contents(b) == m);
}

/// Writes the parts of an index as a file of the current version.
#[verifier::spinoff_prover]
#[verifier::rlimit(40)]
pub fn encode(
    centroids: &[[i16; 16]],
    cells: &Vec<Cell>,
    cell_bounds: &Vec<BlockBounds>,
    blocks: &Vec<BlockBounds>,
    vectors: &[[i16; 16]],
    labels: &[u8],
) -> (out: Vec<u8>)
    requires
        centroids@.len() == cells@.len() == cell_bounds@.len() <= u32::MAX,
        blocks@.len() == layout::block_total(cells@),
        vectors@.len() == labels@.len() <= u32::MAX,
        layout::cells_fit(cells@, vectors@.len() as int),
    ensures
        encodes(
            out@,
            layout::IndexView {
                centroids: views(centroids@),
                cells: cells@,
                cell_bounds: Some(boxes(cell_bounds@)),
                blocks: boxes(blocks@),
                vectors: views(vectors@),
                labels: labels@,
            },
        ),
{
    let ghost nc = centroids@.len();
    let ghost nv = vectors@.len();
    let ghost nb = blocks@.len();
    let mut out = write_header(vectors.len() as u32, centroids.len() as u32);
    let ghost b0 = out@;
    layout::pad_to_align(&mut out);
    let ghost b1 = out@;
    write_vectors(&mut out, centroids);
    let ghost b2 = out@;
    write_cells(&mut out, cells);
    let ghost b3 = out@;
    layout::pad_to_align(&mut out);
    let ghost b4 = out@;
    write_boxes(&mut out, cell_bounds);
    let ghost b5 = out@;
    layout::pad_to_align(&mut out);
    let ghost b6 = out@;
    write_boxes(&mut out, blocks);
    let ghost b7 = out@;
    layout::pad_to_align(&mut out);
    let ghost b8 = out@;
    write_vectors(&mut out, vectors);
    let ghost b9 = out@;
    out.extend_from_slice(labels);
    proof {
        let b = out@;
        assert(bytes::extends(b, b9)) by {
            bytes::lemma_appended(b9, labels@);
            assert(b =~= b9 + labels@);
        }
        bytes::lemma_extends(b, b9, b8);
        bytes::lemma_extends(b, b8, b7);
        bytes::lemma_extends(b, b7, b6);
        bytes::lemma_extends(b, b6, b5);
        bytes::lemma_extends(b, b5, b4);
        bytes::lemma_extends(b, b4, b3);
        bytes::lemma_extends(b, b3, b2);
        bytes::lemma_extends(b, b2, b1);
        bytes::lemma_extends(b, b1, b0);
        assert(header_of(b, nv, nc)) by {
            bytes::lemma_extends_reads(b, b0);
        }
        layout::lemma_vectors_extend(b, b2, b1.len() as int, nc);
        layout::lemma_cells_extend(b, b3, b2.len() as int, nc);
        layout::lemma_boxes_extend(b, b5, b4.len() as int, nc);
        layout::lemma_boxes_extend(b, b7, b6.len() as int, nb);
        layout::lemma_vectors_extend(b, b9, b8.len() as int, nv);
        assert(b.subrange(b9.len() as int, (b9.len() + nv) as int) =~= labels@);
        assert(cleared(b, 20, b1.len() as int)) by {
            bytes::lemma_extends_reads(b, b1);
        }
        assert(cleared(b, b3.len() as int, b4.len() as int)) by {
            bytes::lemma_extends_reads(b, b4);
        }
        assert(cleared(b, b5.len() as int, b6.len() as int)) by {
            bytes::lemma_extends_reads(b, b6);
        }
        assert(cleared(b, b7.len() as int, b8.len() as int)) by {
            bytes::lemma_extends_reads(b, b8);
        }
        lemma_encoded(
            b,
            layout::IndexView {
                centroids: views(centroids@),
                cells: cells@,
                cell_bounds: Some(boxes(cell_bounds@)),
                blocks: boxes(blocks@),
                vectors: views(vectors@),
                labels: labels@,
            },
        );
    }
    out
}

/// The least coordinate number `d` among `vs`.
pub open spec fn least_at(vs: Seq<Seq<i16>>, d: int) -> i16
    decreases vs.len(),
{
    if vs.len() == 0 {
        i16::MAX
    } else if vs.last()[d] < least_at(vs.drop_last(), d) {
        vs.last()[d]
    } else {
        least_at(vs.drop_last(), d)
    }
}

/// The greatest coordinate number `d` among `vs`.
pub open spec fn greatest_at(vs: Seq<Seq<i16>>, d: int) -> i16
    decreases vs.len(),
{
    if vs.len() == 0 {
        i16::MIN
    } else if vs.last()[d] > greatest_at(vs.drop_last(), d) {
        vs.last()[d]
    } else {
        greatest_at(vs.drop_last(), d)
    }
}

/// The smallest box around `vs`.
pub open spec fn box_of(vs: Seq<Seq<i16>>) -> layout::Bounds {
    layout::Bounds {
        min: Seq::new(16, |d: int| least_at(vs, d)),
        max: Seq::new(16, |d: int| greatest_at(vs, d)),
    }
}

proof fn lemma_extremes(vs: Seq<Seq<i16>>, d: int, i: int)
    requires
        0 <= i < vs.len(),
    ensures
        least_at(vs, d) <= vs[i][d] <= greatest_at(vs, d),
    decreases vs.len(),
{
    if i < vs.len() - 1 {
        lemma_extremes(vs.drop_last(), d, i);
        assert(vs.drop_last()[i] == vs[i]);
    }
}

/// The box around vectors holds each of them.
pub proof fn lemma_box_holds(vs: Seq<Seq<i16>>, i: int)
    requires
        0 <= i < vs.len(),
    ensures
        search::holds(box_of(vs), vs[i]),
{
    assert forall|d: int| 0 <= d < 16 implies box_of(vs).min[d] <= #[trigger] vs[i][d]
        <= box_of(vs).max[d] by {
        lemma_extremes(vs, d, i);
    }
}

/// A box that holds some vectors holds the box around them.
pub proof fn lemma_box_is_smallest(vs: Seq<Seq<i16>>, b: layout::Bounds)
    requires
        vs.len() > 0,
        forall|i: int| 0 <= i < vs.len() ==> search::holds(b, #[trigger] vs[i]),
    ensures
        forall|d: int|
            0 <= d < 16 ==> b.min[d] <= #[trigger] box_of(vs).min[d] && box_of(vs).max[d]
                <= b.max[d],
    decreases vs.len(),
{
    let rest = vs.drop_last();
    assert(search::holds(b, vs[vs.len() - 1]));
    if rest.len() > 0 {
        assert forall|i: int| 0 <= i < rest.len() implies search::holds(
            b,
            #[trigger] rest[i],
        ) by {
            assert(rest[i] == vs[i]);
        }
        lemma_box_is_smallest(rest, b);
    }
    assert forall|d: int| 0 <= d < 16 implies b.min[d] <= #[trigger] box_of(vs).min[d] && box_of(
        vs,
    ).max[d] <= b.max[d] by {
        assert(b.min[d] <= vs.last()[d] <= b.max[d]);
        if rest.len() > 0 {
            assert(b.min[d] <= box_of(rest).min[d]);
        } else {
            assert(least_at(rest, d) == i16::MAX && greatest_at(rest, d) == i16::MIN);
        }
    }
}

/// The smallest box around a run of vectors.
pub fn bounds_i16(vecs: &[[i16; 16]]) -> (bounds: BlockBounds)
    ensures
        bounds@ == box_of(views(vecs@)),
{
    let mut min: [i16; 16] = [i16::MAX;16];
    let mut max: [i16; 16] = [i16::MIN;16];
    let ghost vs = views(vecs@);
    for i in 0..vecs.len()
        invariant
            vs == views(vecs@),
            forall|d: int| 0 <= d < 16 ==> #[trigger] min@[d] == least_at(vs.take(i as int), d),
            forall|d: int|
                0 <= d < 16 ==> #[trigger] max@[d] == greatest_at(vs.take(i as int), d),
    {
        let ghost before_min = min@;
        let ghost before_max = max@;
        assert(vs.take(i + 1).drop_last() =~= vs.take(i as int));
        for d in 0..16usize
            invariant
                i < vecs.len(),
                vs == views(vecs@),
                vs.take(i + 1).drop_last() == vs.take(i as int),
                forall|k: int|
                    0 <= k < d ==> #[trigger] min@[k] == least_at(vs.take(i + 1), k),
                forall|k: int|
                    0 <= k < d ==> #[trigger] max@[k] == greatest_at(vs.take(i + 1), k),
                forall|k: int|
                    d <= k < 16 ==> #[trigger] min@[k] == least_at(vs.take(i as int), k),
                forall|k: int|
                    d <= k < 16 ==> #[trigger] max@[k] == greatest_at(vs.take(i as int), k),
        {
            let x = vecs[i][d];
            assert(vs.take(i + 1).last()[d as int] == x);
            if x < min[d] {
                min[d] = x;
            }
            if x > max[d] {
                max[d] = x;
            }
        }
    }
    assert(vs.take(vecs@.len() as int) =~= vs);
    let bounds = BlockBounds { min, max };
    assert(bounds@ =~= box_of(vs));
    bounds
}

/// How many blocks so many vectors take.
pub open spec fn blocks_in(count: int) -> int {
    (count + 127) / 128
}

/// How many blocks the first `n` cells take.
pub open spec fn blocks_before(counts: Seq<u32>, n: nat) -> int
    decreases n,
{
    if n == 0 {
        0
    } else {
        blocks_before(counts, (n - 1) as nat) + blocks_in(counts[n - 1] as int)
    }
}

/// The first `n` cells, their blocks numbered one after the other.
pub open spec fn planned_cells(starts: Seq<u32>, counts: Seq<u32>, n: nat) -> Seq<Cell> {
    Seq::new(
        n,
        |c: int|
            Cell {
                start: starts[c],
                count: counts[c],
                block_start: blocks_before(counts, c as nat) as u32,
                block_count: blocks_in(counts[c] as int) as u32,
            },
    )
}

/// The vectors of block `r` of a cell.
pub open spec fn block_vectors(
    vectors: Seq<Seq<i16>>,
    start: int,
    count: int,
    r: int,
) -> Seq<Seq<i16>> {
    vectors.subrange(start + 128 * r, start + search::least(128 * (r + 1), count))
}

/// The boxes around the first `n` blocks of a cell.
pub open spec fn cell_blocks(
    vectors: Seq<Seq<i16>>,
    start: int,
    count: int,
    n: nat,
) -> Seq<layout::Bounds> {
    Seq::new(n, |r: int| box_of(block_vectors(vectors, start, count, r)))
}

/// The boxes around the blocks of the first `n` cells, one after the other.
pub open spec fn planned_blocks(
    vectors: Seq<Seq<i16>>,
    starts: Seq<u32>,
    counts: Seq<u32>,
    n: nat,
) -> Seq<layout::Bounds>
    decreases n,
{
    if n == 0 {
        Seq::empty()
    } else {
        planned_blocks(vectors, starts, counts, (n - 1) as nat) + cell_blocks(
            vectors,
            starts[n - 1] as int,
            counts[n - 1] as int,
            blocks_in(counts[n - 1] as int) as nat,
        )
    }
}

/// The box around a cell; that of an empty cell is the origin.
pub open spec fn planned_box(vectors: Seq<Seq<i16>>, start: int, count: int) -> layout::Bounds {
    if count == 0 {
        layout::Bounds { min: Seq::new(16, |d: int| 0i16), max: Seq::new(16, |d: int| 0i16) }
    } else {
        box_of(vectors.subrange(start, start + count))
    }
}

/// The index of vectors that lie cell by cell.
pub open spec fn planned_index(
    centroids: Seq<Seq<i16>>,
    starts: Seq<u32>,
    counts: Seq<u32>,
    vectors: Seq<Seq<i16>>,
    labels: Seq<u8>,
) -> layout::IndexView {
    let n = centroids.len();
    layout::IndexView {
        centroids,
        cells: planned_cells(starts, counts, n),
        cell_bounds: Some(
            Seq::new(n, |c: int| planned_box(vectors, starts[c] as int, counts[c] as int)),
        ),
        blocks: planned_blocks(vectors, starts, counts, n),
        vectors,
        labels,
    }
}

/// The parts of an index to be written agree with one another: a start and a
/// count for each centroid, a label for each vector, no cell that reaches behind
/// the last vector, and nothing too large for 32-bit counters.
pub open spec fn plannable(
    centroids: Seq<Seq<i16>>,
    starts: Seq<u32>,
    counts: Seq<u32>,
    vectors: Seq<Seq<i16>>,
    labels: Seq<u8>,
) -> bool {
    &&& centroids.len() <= starts.len()
    &&& centroids.len() <= counts.len()
    &&& centroids.len() <= u32::MAX
    &&& vectors.len() == labels.len() <= u32::MAX
    &&& forall|c: int|
        0 <= c < centroids.len() ==> #[trigger] starts[c] + counts[c] <= vectors.len()
    &&& blocks_before(counts, centroids.len()) <= u32::MAX
}

proof fn lemma_blocks_before(counts: Seq<u32>, c: nat, n: nat)
    requires
        c <= n,
    ensures
        0 <= blocks_before(counts, c) <= blocks_before(counts, n),
    decreases n,
{
    if c < n {
        lemma_blocks_before(counts, c, (n - 1) as nat);
    } else if n > 0 {
        lemma_blocks_before(counts, (n - 1) as nat, (n - 1) as nat);
    }
}

proof fn lemma_planned_blocks(
    vectors: Seq<Seq<i16>>,
    starts: Seq<u32>,
    counts: Seq<u32>,
    n: nat,
)
    ensures
        planned_blocks(vectors, starts, counts, n).len() == blocks_before(counts, n),
    decreases n,
{
    if n > 0 {
        lemma_planned_blocks(vectors, starts, counts, (n - 1) as nat);
    }
}

proof fn lemma_planned_block(
    vectors: Seq<Seq<i16>>,
    starts: Seq<u32>,
    counts: Seq<u32>,
    n: nat,
    c: int,
    r: int,
)
    requires
        0 <= c < n,
        0 <= r < blocks_in(counts[c] as int),
    ensures
        planned_blocks(vectors, starts, counts, n)[blocks_before(counts, c as nat) + r] == box_of(
            block_vectors(vectors, starts[c] as int, counts[c] as int, r),
        ),
    decreases n,
{
    let before = planned_blocks(vectors, starts, counts, (n - 1) as nat);
    lemma_planned_blocks(vectors, starts, counts, (n - 1) as nat);
    if c < n - 1 {
        lemma_planned_block(vectors, starts, counts, (n - 1) as nat, c, r);
        lemma_blocks_before(counts, (c + 1) as nat, (n - 1) as nat);
        lemma_blocks_before(counts, 0, c as nat);
        assert(planned_blocks(vectors, starts, counts, n)[blocks_before(counts, c as nat) + r]
            == before[blocks_before(counts, c as nat) + r]);
    }
}

proof fn lemma_planned_total(starts: Seq<u32>, counts: Seq<u32>, n: nat)
    requires
        blocks_before(counts, n) <= u32::MAX,
    ensures
        layout::block_total(planned_cells(starts, counts, n)) == blocks_before(counts, n),
    decreases n,
{
    if n > 0 {
        lemma_blocks_before(counts, (n - 1) as nat, n);
        lemma_planned_total(starts, counts, (n - 1) as nat);
        let cells = planned_cells(starts, counts, n);
        assert(cells.drop_last() =~= planned_cells(starts, counts, (n - 1) as nat));
    }
}

/// An index that is written is valid and its boxes hold what they stand for, so
/// that pruning by them is exact.
pub proof fn lemma_planned_index(
    centroids: Seq<Seq<i16>>,
    starts: Seq<u32>,
    counts: Seq<u32>,
    vectors: Seq<Seq<i16>>,
    labels: Seq<u8>,
)
    requires
        plannable(centroids, starts, counts, vectors, labels),
        forall|i: int| 0 <= i < centroids.len() ==> (#[trigger] centroids[i]).len() == 16,
        forall|i: int| 0 <= i < vectors.len() ==> (#[trigger] vectors[i]).len() == 16,
    ensures
        planned_index(centroids, starts, counts, vectors, labels).valid(),
        search::boxes_sound(planned_index(centroids, starts, counts, vectors, labels)),
{
    let n = centroids.len();
    let m = planned_index(centroids, starts, counts, vectors, labels);
    lemma_planned_total(starts, counts, n);
    lemma_planned_blocks(vectors, starts, counts, n);
    layout::lemma_block_total(m.cells);
    assert forall|c: int| 0 <= c < m.cells.len() implies (#[trigger] m.cells[c]).start
        + m.cells[c].count <= vectors.len() by {
        assert(starts[c] + counts[c] <= vectors.len());
    }
    assert forall|c: int| 0 <= c < m.cells.len() implies search::blocks_sound(
        m,
        #[trigger] m.cells[c],
    ) by {
        let cell = m.cells[c];
        assert(starts[c] + counts[c] <= vectors.len());
        lemma_blocks_before(counts, (c + 1) as nat, n);
        lemma_blocks_before(counts, 0, c as nat);
        assert(cell.block_count == blocks_in(counts[c] as int));
        assert forall|r: int, j: int|
            #![trigger m.blocks[cell.block_start + r], m.vectors[cell.start + r * 128 + j]]
            0 <= r < cell.block_count && 0 <= j < search::block_len(
                cell,
                r,
            ) implies search::holds(
            m.blocks[cell.block_start + r],
            m.vectors[cell.start + r * 128 + j],
        ) by {
            lemma_planned_block(vectors, starts, counts, n, c, r);
            let vs = block_vectors(vectors, starts[c] as int, counts[c] as int, r);
            assert(vs[j] == m.vectors[cell.start + r * 128 + j]);
            lemma_box_holds(vs, j);
        }
    }
    assert forall|c: int|
        #![trigger m.cells[c]]
        0 <= c < m.cells.len() implies search::cell_box_sound(m, c) by {
        assert(starts[c] + counts[c] <= vectors.len());
        assert forall|j: int|
            #![trigger m.vectors[m.cells[c].start + j]]
            0 <= j < m.cells[c].count implies search::holds(
            m.cell_bounds->0[c],
            m.vectors[m.cells[c].start + j],
        ) by {
            let vs = vectors.subrange(starts[c] as int, starts[c] + counts[c]);
            assert(vs[j] == m.vectors[m.cells[c].start + j]);
            lemma_box_holds(vs, j);
        }
    }
}

/// Writes the index of vectors that lie cell by cell: the vectors of centroid
/// `c` are the `counts[c]` from `starts[c]` on.
pub fn write_index(
    centroids: &[[i16; 16]],
    starts: &[u32],
    counts: &[u32],
    vectors: &[[i16; 16]],
    labels: &[u8],
) -> (out: Vec<u8>)
    requires
        plannable(views(centroids@), starts@, counts@, views(vectors@), labels@),
    ensures
        encodes(
            out@,
            planned_index(views(centroids@), starts@, counts@, views(vectors@), labels@),
        ),
{
    let ghost vs = views(vectors@);
    let ghost nc = centroids@.len();
    let ghost m = planned_index(views(centroids@), starts@, counts@, vs, labels@);
    let mut cells: Vec<Cell> = Vec::new();
    let mut cell_bounds: Vec<BlockBounds> = Vec::new();
    let mut block_bounds: Vec<BlockBounds> = Vec::new();
    for c in 0..centroids.len()
        invariant
            nc == centroids@.len(),
            vs == views(vectors@),
            plannable(views(centroids@), starts@, counts@, vs, labels@),
            cells@ == planned_cells(starts@, counts@, c as nat),
            cell_bounds@.len() == c,
            forall|k: int|
                0 <= k < c ==> #[trigger] cell_bounds@[k]@ == planned_box(
                    vs,
                    starts@[k] as int,
                    counts@[k] as int,
                ),
            boxes(block_bounds@) == planned_blocks(vs, starts@, counts@, c as nat),
    {
        assert(starts@[c as int] + counts@[c as int] <= vectors.len());
        let start = starts[c] as usize;
        let count = counts[c] as usize;
        if count == 0 {
            let zero = BlockBounds { min: [0i16;16], max: [0i16;16] };
            assert(zero@ =~= planned_box(vs, start as int, 0));
            cell_bounds.push(zero);
        } else {
            assert(views(vectors@.subrange(start as int, start + count)) =~= vs.subrange(
                start as int,
                start + count,
            ));
            cell_bounds.push(bounds_i16(&vectors[start..start + count]));
        }
        proof {
            lemma_blocks_before(counts@, (c + 1) as nat, nc);
            lemma_planned_blocks(vs, starts@, counts@, c as nat);
        }
        let blocks: u32 = ((count as u64 + 127) / 128) as u32;
        let cell = Cell {
            start: starts[c],
            count: counts[c],
            block_start: block_bounds.len() as u32,
            block_count: blocks,
        };
        cells.push(cell);
        assert(cells@ =~= planned_cells(starts@, counts@, (c + 1) as nat));
        push_cell_blocks(vectors, start, count, blocks, &mut block_bounds);
        assert(boxes(block_bounds@) =~= planned_blocks(vs, starts@, counts@, (c + 1) as nat));
    }
    proof {
        lemma_planned_blocks(vs, starts@, counts@, nc);
        lemma_planned_total(starts@, counts@, nc);
        assert(boxes(cell_bounds@) =~= m.cell_bounds->0);
        assert(boxes(block_bounds@).len() == block_bounds@.len());
        assert forall|i: int| 0 <= i < cells@.len() implies (#[trigger] cells@[i]).start
            + cells@[i].count <= vectors@.len() by {
            assert(starts@[i] + counts@[i] <= vs.len());
        }
    }
    encode(centroids, &cells, &cell_bounds, &block_bounds, vectors, labels)
}

/// Appends the boxes around the blocks of one cell.
fn push_cell_blocks(
    vectors: &[[i16; 16]],
    start: usize,
    count: usize,
    blocks: u32,
    out: &mut Vec<BlockBounds>,
)
    requires
        start + count <= vectors.len(),
        blocks == blocks_in(count as int),
    ensures
        boxes(final(out)@) == boxes(old(out)@) + cell_blocks(
            views(vectors@),
            start as int,
            count as int,
            blocks as nat,
        ),
{
    let ghost vs = views(vectors@);
    let ghost before = out@;
    let mut b: u32 = 0;
    let mut off: usize = 0;
    while b < blocks
        invariant
            b <= blocks == blocks_in(count as int),
            b < blocks ==> off == 128 * b,
            start + count <= vectors.len(),
            vs == views(vectors@),
            boxes(out@) =~= boxes(before) + cell_blocks(
                vs,
                start as int,
                count as int,
                b as nat,
            ),
        decreases blocks - b,
    {
        let rest: usize = count - off;
        let n: usize = if rest < BLOCK_SIZE {
            rest
        } else {
            BLOCK_SIZE
        };
        let ghost at = start + off;
        assert(views(vectors@.subrange(at, at + n)) =~= block_vectors(
            vs,
            start as int,
            count as int,
            b as int,
        ));
        let bounds = bounds_i16(&vectors[start + off..start + off + n]);
        let ghost prev = out@;
        out.push(bounds);
        proof {
            let done = cell_blocks(vs, start as int, count as int, b as nat);
            let grown = cell_blocks(vs, start as int, count as int, (b + 1) as nat);
            assert(bounds@ == box_of(block_vectors(vs, start as int, count as int, b as int)));
            assert(grown =~= done.push(bounds@));
            assert(boxes(out@) =~= boxes(prev).push(bounds@));
        }
        off = off + n;
        b = b + 1;
    }
    assert(boxes(out@) =~= boxes(before) + cell_blocks(
        vs,
        start as int,
        count as int,
        blocks as nat,
    ));
}

/// What is read back from a written index is what was written: the file is
/// accepted, holds exactly the planned index, and its boxes are sound.
pub proof fn lemma_read_back(
    b: Seq<u8>,
    centroids: Seq<Seq<i16>>,
    starts: Seq<u32>,
    counts: Seq<u32>,
    vectors: Seq<Seq<i16>>,
    labels: Seq<u8>,
)
    requires
        plannable(centroids, starts, counts, vectors, labels),
        forall|i: int| 0 <= i < centroids.len() ==> (#[trigger] centroids[i]).len() == 16,
        forall|i: int| 0 <= i < vectors.len() ==> (#[trigger] vectors[i]).len() == 16,
        encodes(b, planned_index(centroids, starts, counts, vectors, labels)),
    ensures
        layout::is_index(b),
        layout::contents(b).centroids == centroids,
        layout::contents(b).vectors == vectors,
        layout::contents(b).labels == labels,
        layout::contents(b).cells == planned_cells(starts, counts, centroids.len()),
        search::boxes_sound(layout::contents(b)),
{
    lemma_planned_index(centroids, starts, counts, vectors, labels);
}

/// How many centroids an index gets unless told otherwise.
pub const DEFAULT_NUM_CENTROIDS: usize = 2048;

/// How often the centroids are moved to the middle of their vectors.
pub const KMEANS_ITERS: usize = 15;

/// The label of a reference transaction: 1 for a fraud, else 0.
pub open spec fn label(text: Seq<u8>) -> u8 {
    if text == bytes::ascii("fraud"@) {
        1
    } else {
        0
    }
}

/// Computes the label of a reference transaction.
pub fn label_of(text: &[u8]) -> (l: u8)
    ensures
        l == label(text@),
{
    proof {
        reveal_strlit("fraud");
    }
    if bytes::bytes_equal(text, bytes::ascii_bytes("fraud")) {
        1
    } else {
        0
    }
}

/// The bits of the floating-point infinity.
pub const INFINITE: u32 = 0x7f80_0000;

/// The bits of the least distance, and infinity where none is below it. A distance
/// that is not a number has none.
pub open spec fn least_key(keys: Seq<Option<u32>>) -> u32
    decreases keys.len(),
{
    if keys.len() == 0 {
        INFINITE
    } else {
        let rest = least_key(keys.drop_last());
        match keys.last() {
            Some(key) if key < rest => key,
            _ => rest,
        }
    }
}

/// Centroid `best` is the first of those at the least distance, or the first of
/// all where no distance is finite.
pub open spec fn is_nearest(keys: Seq<Option<u32>>, best: int) -> bool {
    if least_key(keys) < INFINITE {
        &&& 0 <= best < keys.len()
        &&& keys[best] == Some(least_key(keys))
        &&& forall|c: int| 0 <= c < best ==> #[trigger] keys[c] != Some(least_key(keys))
    } else {
        best == 0
    }
}

/// Finds the nearest centroid from the bits of the (non-negative) distances to
/// all of them.
pub fn nearest(keys: &[Option<u32>]) -> (best: u32)
    requires
        keys.len() <= u32::MAX,
    ensures
        is_nearest(keys@, best as int),
{
    let mut best: u32 = 0;
    let mut best_key: u32 = INFINITE;
    assert(keys@.take(0) =~= Seq::empty());
    for c in 0..keys.len()
        invariant
            keys.len() <= u32::MAX,
            best_key == least_key(keys@.take(c as int)),
            best_key <= INFINITE,
            best_key < INFINITE ==> best < c && keys@[best as int] == Some(best_key),
            best_key == INFINITE ==> best == 0,
            forall|j: int| 0 <= j < best ==> #[trigger] keys@[j] != Some(best_key),
            forall|j: int|
                0 <= j < c ==> (#[trigger] keys@[j] matches Some(key) ==> best_key <= key),
    {
        assert(keys@.take(c + 1).drop_last() =~= keys@.take(c as int));
        if let Some(key) = keys[c] {
            if key < best_key {
                best_key = key;
                best = c as u32;
            }
        }
    }
    assert(keys@.take(keys@.len() as int) =~= keys@);
    best
}

/// No centroid is nearer than the nearest.
pub proof fn lemma_nearest(keys: Seq<Option<u32>>, c: int)
    requires
        0 <= c < keys.len(),
        keys[c] is Some,
    ensures
        least_key(keys) <= keys[c]->0,
    decreases keys.len(),
{
    if c < keys.len() - 1 {
        assert(keys.drop_last()[c] == keys[c]);
        lemma_nearest(keys.drop_last(), c);
    }
}

/// What stands in `s`, taken in the given order.
pub open spec fn picked<T>(s: Seq<T>, order: Seq<u32>) -> Seq<T> {
    Seq::new(order.len(), |p: int| s[order[p] as int])
}

/// Where the cells start.
pub open spec fn starts_of(assign: Seq<u32>, k: nat) -> Seq<u32> {
    Seq::new(k, |c: int| grouping::cell_start(assign, c) as u32)
}

/// How many vectors the cells have.
pub open spec fn counts_of(assign: Seq<u32>, k: nat) -> Seq<u32> {
    Seq::new(k, |c: int| grouping::cell_size(assign, c) as u32)
}

/// The index of vectors that are assigned to centroids and taken in the given
/// order.
pub open spec fn arranged_index(
    centroids: Seq<Seq<i16>>,
    vectors: Seq<Seq<i16>>,
    labels: Seq<u8>,
    assign: Seq<u32>,
    order: Seq<u32>,
) -> layout::IndexView {
    planned_index(
        centroids,
        starts_of(assign, centroids.len()),
        counts_of(assign, centroids.len()),
        picked(vectors, order),
        picked(labels, order),
    )
}

/// The parts of an index to be built agree with one another: a label, a centroid
/// and a key for each vector, and no more of them than 32-bit counters can count.
pub open spec fn buildable(
    centroids: Seq<Seq<i16>>,
    vectors: Seq<Seq<i16>>,
    labels: Seq<u8>,
    assign: Seq<u32>,
    keys: Seq<i32>,
) -> bool {
    &&& centroids.len() <= u32::MAX
    &&& vectors.len() == labels.len() == assign.len() == keys.len()
    &&& vectors.len() <= u32::MAX
    &&& forall|i: int| 0 <= i < assign.len() ==> (#[trigger] assign[i]) < centroids.len()
}

proof fn lemma_few_blocks(assign: Seq<u32>, k: nat, n: nat)
    requires
        n <= k,
        grouping::cell_start(assign, n as int) <= u32::MAX,
    ensures
        blocks_before(counts_of(assign, k), n) <= grouping::cell_start(assign, n as int),
    decreases n,
{
    if n > 0 {
        lemma_few_blocks(assign, k, (n - 1) as nat);
    }
}

/// Parts that can be built can be written in any arrangement.
pub proof fn lemma_buildable(
    centroids: Seq<Seq<i16>>,
    vectors: Seq<Seq<i16>>,
    labels: Seq<u8>,
    assign: Seq<u32>,
    keys: Seq<i32>,
    order: Seq<u32>,
)
    requires
        buildable(centroids, vectors, labels, assign, keys),
        order.len() == assign.len(),
    ensures
        plannable(
            centroids,
            starts_of(assign, centroids.len()),
            counts_of(assign, centroids.len()),
            picked(vectors, order),
            picked(labels, order),
        ),
{
    let k = centroids.len();
    grouping::lemma_cells_take_all(assign, k as int);
    lemma_few_blocks(assign, k, k);
    assert forall|c: int| 0 <= c < k implies #[trigger] starts_of(assign, k)[c] + counts_of(
        assign,
        k,
    )[c] <= assign.len() by {
        grouping::lemma_cells_apart(assign, c, k as int);
    }
}

/// Builds the index of labelled vectors that are assigned to centroids: cell by
/// cell, and within each cell by the keys of the distances from its centroid.
pub fn build_index(
    centroids: &[[i16; 16]],
    vectors: &[[i16; 16]],
    labels: &[u8],
    assign: &[u32],
    keys: &[i32],
) -> (out: Vec<u8>)
    requires
        buildable(views(centroids@), views(vectors@), labels@, assign@, keys@),
    ensures
        exists|order: Seq<u32>|
            grouping::arranged(assign@, keys@, order, centroids@.len() as int)
                && #[trigger] encodes(
                out@,
                arranged_index(
                    views(centroids@),
                    views(vectors@),
                    labels@,
                    assign@,
                    order,
                ),
            ),
{
    let mut g = grouping::group_by_cell(assign, centroids.len());
    grouping::sort_cells_by_centroid_distance(&mut g, assign, keys);
    let ghost order = g.order@;
    let mut sorted_vecs: Vec<[i16; 16]> = Vec::new();
    let mut sorted_labels: Vec<u8> = Vec::new();
    proof {
        grouping::lemma_arranged(assign@, keys@, order, centroids@.len() as int);
    }
    for p in 0..g.order.len()
        invariant
            g.order@ == order,
            vectors@.len() == labels@.len() == assign@.len(),
            forall|r: int| 0 <= r < order.len() ==> (#[trigger] order[r]) < assign@.len(),
            sorted_vecs@ == picked(vectors@, order.take(p as int)),
            sorted_labels@ == picked(labels@, order.take(p as int)),
    {
        let v = g.order[p] as usize;
        sorted_vecs.push(vectors[v]);
        sorted_labels.push(labels[v]);
        assert(sorted_vecs@ =~= picked(vectors@, order.take(p + 1)));
        assert(sorted_labels@ =~= picked(labels@, order.take(p + 1)));
    }
    proof {
        let k = centroids@.len();
        assert(order.take(order.len() as int) =~= order);
        assert(views(sorted_vecs@) =~= picked(views(vectors@), order));
        grouping::lemma_cells_take_all(assign@, k as int);
        assert forall|c: int| 0 <= c < k implies #[trigger] g.starts@[c] == starts_of(
            assign@,
            k,
        )[c] && g.counts@[c] == counts_of(assign@, k)[c] by {
            grouping::lemma_cells_apart(assign@, c, k as int);
        }
        assert(g.starts@ =~= starts_of(assign@, k));
        assert(g.counts@ =~= counts_of(assign@, k));
        lemma_buildable(
            views(centroids@),
            views(vectors@),
            labels@,
            assign@,
            keys@,
            order,
        );
    }
    let out = write_index(centroids, &g.starts, &g.counts, &sorted_vecs, &sorted_labels);
    assert(encodes(
        out@,
        arranged_index(views(centroids@), views(vectors@), labels@, assign@, order),
    ));
    out
}

/// In an index that was built, the vectors of each cell are exactly those that
/// were assigned to its centroid, and they keep their labels.
pub proof fn lemma_built_cells(
    centroids: Seq<Seq<i16>>,
    vectors: Seq<Seq<i16>>,
    labels: Seq<u8>,
    assign: Seq<u32>,
    keys: Seq<i32>,
    order: Seq<u32>,
    c: int,
    j: int,
)
    requires
        buildable(centroids, vectors, labels, assign, keys),
        grouping::arranged(assign, keys, order, centroids.len() as int),
        0 <= c < centroids.len(),
    ensures
        ({
            let m = arranged_index(centroids, vectors, labels, assign, order);
            let cell = m.cells[c];
            &&& cell.count == grouping::cell_size(assign, c)
            &&& 0 <= j < cell.count ==> {
                let v = order[cell.start + j] as int;
                &&& 0 <= v < assign.len()
                &&& assign[v] == c
                &&& m.vectors[cell.start + j] == vectors[v]
                &&& m.labels[cell.start + j] == labels[v]
            }
        }),
{
    let k = centroids.len() as int;
    grouping::lemma_cells_take_all(assign, k);
    grouping::lemma_cells_apart(assign, c, k);
    assert(grouping::cell_sorted(assign, keys, order, c));
    let m = arranged_index(centroids, vectors, labels, assign, order);
    assert(m.cells[c].count == counts_of(assign, centroids.len())[c]);
    if 0 <= j < m.cells[c].count {
        let p = m.cells[c].start + j;
        assert(grouping::cell_start(assign, c) <= p < grouping::cell_start(assign, c)
            + grouping::cell_size(assign, c));
        assert(order[p] < assign.len());
    }
}

/// Where a vector stands in an arrangement.
proof fn lemma_place(
    assign: Seq<u32>,
    keys: Seq<i32>,
    order: Seq<u32>,
    k: int,
    i: int,
) -> (p: int)
    requires
        grouping::arranged(assign, keys, order, k),
        0 <= k,
        forall|i: int| 0 <= i < assign.len() ==> (#[trigger] assign[i]) < k,
        0 <= i < assign.len() <= u32::MAX,
    ensures
        order[p] == i,
        grouping::cell_start(assign, assign[i] as int) <= p < grouping::cell_start(
            assign,
            assign[i] as int,
        ) + grouping::cell_size(assign, assign[i] as int),
{
    grouping::lemma_arranged(assign, keys, order, k);
    grouping::lemma_cells_take_all(assign, k);
    assert(order.contains(i as u32));
    let p = choose|p: int| 0 <= p < order.len() && order[p] == i as u32;
    let c = grouping::lemma_place_in_cell(assign, k, p);
    assert(grouping::cell_sorted(assign, keys, order, c));
    p
}

/// A search that probes all cells of an index that was built finds the nearest of
/// all vectors it was built from: each of them is a candidate, unless there are five
/// and none of them is farther away.
pub proof fn lemma_full_probe_finds_the_nearest(
    centroids: Seq<Seq<i16>>,
    vectors: Seq<Seq<i16>>,
    labels: Seq<u8>,
    assign: Seq<u32>,
    keys: Seq<i32>,
    order: Seq<u32>,
    q: Seq<i16>,
    i: int,
)
    requires
        buildable(centroids, vectors, labels, assign, keys),
        grouping::arranged(assign, keys, order, centroids.len() as int),
        forall|c: int| 0 <= c < centroids.len() ==> (#[trigger] centroids[c]).len() == 16,
        forall|v: int| 0 <= v < vectors.len() ==> (#[trigger] vectors[v]).len() == 16,
        centroids.len() <= search::MAX_CENTROIDS,
        q.len() == 16,
        0 <= i < vectors.len(),
    ensures
        ({
            let m = arranged_index(centroids, vectors, labels, assign, order);
            let kept = search::probe(m, q, centroids.len() as int);
            let d = distance::distance(q, vectors[i]);
            ||| exists|j: int|
                0 <= j < kept.len() && (#[trigger] kept[j]).0 == d && order[kept[j].1 as int] == i
            ||| kept.len() == 5 && forall|j: int| 0 <= j < 5 ==> (#[trigger] kept[j]).0 <= d
        }),
{
    let k = centroids.len() as int;
    let m = arranged_index(centroids, vectors, labels, assign, order);
    let picked_vectors = picked(vectors, order);
    grouping::lemma_arranged(assign, keys, order, k);
    lemma_buildable(centroids, vectors, labels, assign, keys, order);
    assert forall|v: int| 0 <= v < picked_vectors.len() implies (
    #[trigger] picked_vectors[v]).len() == 16 by {
        assert(order[v] < assign.len());
    }
    lemma_planned_index(
        centroids,
        starts_of(assign, centroids.len()),
        counts_of(assign, centroids.len()),
        picked_vectors,
        picked(labels, order),
    );
    let p = lemma_place(assign, keys, order, k, i);
    let c = assign[i] as int;
    let cell = m.cells[c];
    grouping::lemma_cells_apart(assign, c, k);
    grouping::lemma_cells_take_all(assign, k);
    assert(cell.start == starts_of(assign, centroids.len())[c]);
    assert(cell.count == counts_of(assign, centroids.len())[c]);
    search::lemma_centroid_order(m, q);
    let rank = search::lemma_centroid_rank(m, q, c);
    search::lemma_probe_misses_nothing(m, q, k, rank, p - cell.start);
    let kept = search::probe(m, q, k);
    let v = search::candidate(m, q, p);
    assert(m.vectors[p] == vectors[i]);
    distance::lemma_distance(q, vectors[i]);
    if kept.contains(v) {
        let j = choose|j: int| 0 <= j < kept.len() && kept[j] == v;
        assert(kept[j].0 == distance::distance(q, vectors[i]));
    }
}

/// So many vectors take the fewest blocks of 128 that have room for them.
pub proof fn lemma_blocks_in(count: int)
    requires
        count >= 0,
    ensures
        128 * blocks_in(count) >= count,
        128 * (blocks_in(count) - 1) < count,
{
}

/// The cells of an index to be written have the starts and the counts that were given,
/// and take blocks one after the other, from the first on.
pub proof fn lemma_planned_cells(starts: Seq<u32>, counts: Seq<u32>, n: nat, c: int)
    requires
        0 <= c < n,
        n <= starts.len(),
        n <= counts.len(),
        blocks_before(counts, n) <= u32::MAX,
    ensures
        ({
            let cells = planned_cells(starts, counts, n);
            &&& cells[c].start == starts[c]
            &&& cells[c].count == counts[c]
            &&& 128 * (cells[c].block_count - 1) < counts[c] <= 128 * cells[c].block_count
            &&& cells[0].block_start == 0
            &&& c + 1 < n ==> cells[c + 1].block_start == cells[c].block_start
                + cells[c].block_count
        }),
{
    lemma_blocks_before(counts, c as nat, n);
    lemma_blocks_before(counts, (c + 1) as nat, n);
    assert(blocks_before(counts, (c + 1) as nat) == blocks_before(counts, c as nat) + blocks_in(
        counts[c] as int,
    ));
    assert(blocks_before(counts, 0) == 0);
}

/// A reference transaction is labelled 1 exactly where it is called `fraud`, and 0 else.
pub proof fn lemma_labels(text: &[u8], l: u8)
    requires
        call_ensures(label_of, (text,), l),
    ensures
        l == 1 <==> text@ == seq![0x66u8, 0x72, 0x61, 0x75, 0x64],
        l == 0 || l == 1,
{
    reveal_strlit("fraud");
    assert(bytes::ascii("fraud"@) =~= seq![0x66u8, 0x72, 0x61, 0x75, 0x64]);
}

proof fn lemma_least_key(keys: Seq<Option<u32>>)
    ensures
        least_key(keys) <= 0x7f80_0000,
        least_key(keys) == 0x7f80_0000 || exists|c: int|
            0 <= c < keys.len() && #[trigger] keys[c] == Some(least_key(keys)),
    decreases keys.len(),
{
    if keys.len() > 0 {
        let front = keys.drop_last();
        lemma_least_key(front);
        if least_key(keys) == least_key(front) {
            if least_key(front) < 0x7f80_0000 {
                let c = choose|c: int|
                    0 <= c < front.len() && #[trigger] front[c] == Some(least_key(front));
                assert(keys[c] == Some(least_key(keys)));
            }
        } else {
            assert(keys[keys.len() - 1] == Some(least_key(keys)));
        }
    }
}

/// The nearest centroid is at a distance that no other is below, and is the first one at
/// that distance. Where no distance is finite it is the first centroid.
pub proof fn lemma_nearest_centroid(keys: &[Option<u32>], best: u32, c: int)
    requires
        0 <= c < keys@.len(),
        keys@[c] is Some,
        call_ensures(nearest, (keys,), best),
    ensures
        keys@[c]->0 < 0x7f80_0000 ==> {
            &&& best < keys@.len()
            &&& keys@[best as int] is Some
            &&& keys@[best as int]->0 <= keys@[c]->0
            &&& c < best ==> keys@[best as int]->0 < keys@[c]->0
        },
        best > 0 ==> best < keys@.len() && keys@[best as int] is Some && keys@[best as int]->0
            < 0x7f80_0000,
{
    lemma_nearest(keys@, c);
    lemma_least_key(keys@);
}

/// In an index that was built no two cells have a vector in common.
pub proof fn lemma_built_cells_apart(
    centroids: Seq<Seq<i16>>,
    vectors: Seq<Seq<i16>>,
    labels: Seq<u8>,
    assign: Seq<u32>,
    keys: Seq<i32>,
    order: Seq<u32>,
)
    requires
        buildable(centroids, vectors, labels, assign, keys),
        grouping::arranged(assign, keys, order, centroids.len() as int),
    ensures
        answers::cells_apart(arranged_index(centroids, vectors, labels, assign, order)),
{
    let m = arranged_index(centroids, vectors, labels, assign, order);
    let k = centroids.len() as int;
    grouping::lemma_cells_take_all(assign, k);
    assert forall|c: int, d: int|
        0 <= c < m.cells.len() && 0 <= d < m.cells.len() && c != d implies {
        ||| (#[trigger] m.cells[c]).start + m.cells[c].count <= (#[trigger] m.cells[d]).start
        ||| m.cells[d].start + m.cells[d].count <= m.cells[c].start
    } by {
        grouping::lemma_cells_apart(assign, c, k);
        grouping::lemma_cells_apart(assign, d, k);
        if c < d {
            grouping::lemma_cells_apart(assign, c, d);
        } else {
            grouping::lemma_cells_apart(assign, d, c);
        }
    }
}

/// The boxes of an index to be written are as small as can be: every box around the
/// vectors of a cell that has some, or of one of its blocks, is at least as large.
pub proof fn lemma_planned_boxes_are_smallest(
    centroids: Seq<Seq<i16>>,
    starts: Seq<u32>,
    counts: Seq<u32>,
    vectors: Seq<Seq<i16>>,
    labels: Seq<u8>,
    c: int,
    r: int,
    b: layout::Bounds,
    d: int,
)
    requires
        plannable(centroids, starts, counts, vectors, labels),
        0 <= c < centroids.len(),
        counts[c] > 0,
        0 <= r < blocks_in(counts[c] as int),
        0 <= d < 16,
    ensures
        ({
            let m = planned_index(centroids, starts, counts, vectors, labels);
            let cell = m.cells[c];
            let first = cell.start + 128 * r;
            let last = if 128 * (r + 1) <= cell.count {
                cell.start + 128 * (r + 1)
            } else {
                cell.start + cell.count
            };
            let bounds = m.cell_bounds->0[c];
            let block = m.blocks[cell.block_start + r];
            &&& (forall|i: int|
                cell.start <= i < cell.start + cell.count ==> search::holds(
                    b,
                    #[trigger] vectors[i],
                )) ==> b.min[d] <= bounds.min[d] && bounds.max[d] <= b.max[d]
            &&& (forall|i: int| first <= i < last ==> search::holds(b, #[trigger] vectors[i]))
                ==> b.min[d] <= block.min[d] && block.max[d] <= b.max[d]
        }),
{
    let n = centroids.len();
    let m = planned_index(centroids, starts, counts, vectors, labels);
    let cell = m.cells[c];
    let (start, count) = (starts[c] as int, counts[c] as int);
    assert(start + count <= vectors.len());
    lemma_blocks_before(counts, c as nat, n);
    lemma_planned_block(vectors, starts, counts, n, c, r);
    let all = vectors.subrange(start, start + count);
    let part = block_vectors(vectors, start, count, r);
    if forall|i: int| start <= i < start + count ==> search::holds(b, #[trigger] vectors[i]) {
        assert forall|i: int| 0 <= i < all.len() implies search::holds(b, #[trigger] all[i]) by {
            assert(all[i] == vectors[start + i]);
        }
        lemma_box_is_smallest(all, b);
    }
    let first = start + 128 * r;
    let last = start + search::least(128 * (r + 1), count);
    if forall|i: int| first <= i < last ==> search::holds(b, #[trigger] vectors[i]) {
        assert forall|i: int| 0 <= i < part.len() implies search::holds(b, #[trigger] part[i]) by {
            assert(part[i] == vectors[first + i]);
        }
        lemma_box_is_smallest(part, b);
    }
}

/// An index that was built holds every vector with its label, in the cell of the
/// centroid that it was assigned to.
pub proof fn lemma_every_vector_is_indexed(
    centroids: &[[i16; 16]],
    vectors: &[[i16; 16]],
    labels: &[u8],
    assign: &[u32],
    keys: &[i32],
    out: Vec<u8>,
    i: int,
)
    requires
        buildable(views(centroids@), views(vectors@), labels@, assign@, keys@),
        0 <= i < vectors@.len(),
        call_ensures(build_index, (centroids, vectors, labels, assign, keys), out),
    ensures
        layout::is_index(out@),
        ({
            let m = layout::contents(out@);
            let cell = m.cells[assign@[i] as int];
            &&& m.vectors.len() == vectors@.len()
            &&& m.centroids.len() == centroids@.len()
            &&& m.centroids[assign@[i] as int] == centroids@[assign@[i] as int]@
            &&& exists|p: int|
                {
                    &&& cell.start <= p < cell.start + cell.count
                    &&& #[trigger] m.vectors[p] == vectors@[i]@
                    &&& m.labels[p] == labels@[i]
                }
        }),
{
    let k = centroids@.len();
    let order = choose|order: Seq<u32>|
        grouping::arranged(assign@, keys@, order, centroids@.len() as int) && #[trigger] encodes(
            out@,
            arranged_index(views(centroids@), views(vectors@), labels@, assign@, order),
        );
    let m = arranged_index(views(centroids@), views(vectors@), labels@, assign@, order);
    assert(layout::contents(out@) == m);
    let c = assign@[i] as int;
    let p = lemma_place(assign@, keys@, order, k as int, i);
    grouping::lemma_cells_take_all(assign@, k as int);
    grouping::lemma_cells_apart(assign@, c, k as int);
    assert(m.cells[c].start == starts_of(assign@, k)[c]);
    assert(m.cells[c].count == counts_of(assign@, k)[c]);
    assert(m.vectors[p] == vectors@[i]@);
    assert(m.labels[p] == labels@[i]);
}

} // verus!
