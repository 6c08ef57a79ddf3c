//! The binary file that holds an index, little-endian throughout:
//!
//! ```text
//! [Header]       magic:u32 version:u32 num_vectors:u32 num_centroids:u32 dims:u32
//! [Centroids]    num_centroids × 16 × i16
//! [Cells]        num_centroids × (start:u32, count:u32, block_start:u32, block_count:u32)
//! [Cell bounds]  num_centroids × (min:16×i16, max:16×i16)          (version 5 on)
//! [Block bounds] num_blocks × (min:16×i16, max:16×i16)
//! [Vectors]      num_vectors × 16 × i16, cell by cell
//! [Labels]       num_vectors × u8 (0 = legit, 1 = fraud)
//! ```
//!
//! From version 4 on the centroids, the two kinds of bounds and the vectors
//! start at multiples of 32.
use crate::bytes;
use vstd::prelude::*;

verus! {

/// First word of an index file ("RINH").
pub const MAGIC: u32 = 0x52494E48;

/// Version that is written; it carries bounds for every cell.
pub const VERSION: u32 = 5;

/// Oldest version that is read.
pub const MIN_SUPPORTED_VERSION: u32 = 3;

/// Length of the header.
pub const HEADER_BYTES: usize = 20;

/// Vectors per block.
pub const BLOCK_SIZE: usize = 128;

/// Alignment of the sections.
pub const SECTION_ALIGN: usize = 32;

/// The smallest multiple of `align` that is no less than `off`.
pub open spec fn round_up(off: int, align: int) -> int {
    (off + align - 1) / align * align
}

/// `round_up` gives the multiple of `align` in `[off, off + align)`.
pub proof fn lemma_round_up(off: int, align: int)
    requires
        0 < align,
    ensures
        off <= round_up(off, align) < off + align,
        round_up(off, align) % align == 0,
        off % align == 0 ==> round_up(off, align) == off,
        round_up(round_up(off, align), align) == round_up(off, align),
{
    let x = off + align - 1;
    vstd::arithmetic::div_mod::lemma_fundamental_div_mod(x, align);
    vstd::arithmetic::div_mod::lemma_mod_division_less_than_divisor(x, align);
    vstd::arithmetic::mul::lemma_mul_is_commutative(x / align, align);
    let q = x / align;
    vstd::arithmetic::div_mod::lemma_mod_multiples_basic(q, align);
    let y = round_up(off, align) + align - 1;
    vstd::arithmetic::div_mod::lemma_fundamental_div_mod_converse(y, align, q, align - 1);
    if off % align == 0 {
        vstd::arithmetic::div_mod::lemma_fundamental_div_mod(off, align);
        vstd::arithmetic::div_mod::lemma_fundamental_div_mod_converse(
            x,
            align,
            off / align,
            align - 1,
        );
        vstd::arithmetic::mul::lemma_mul_is_commutative(off / align, align);
    }
}

/// Rounds `off` up to a multiple of the power of two `align`.
pub fn align_up(off: usize, align: usize) -> (r: usize)
    requires
        vstd::arithmetic::power2::is_pow2(align as int),
        off + align - 1 <= usize::MAX,
    ensures
        r == round_up(off as int, align as int),
{
    proof {
        reveal(vstd::arithmetic::power2::is_pow2);
    }
    let x: usize = off + (align - 1);
    let mask: usize = align - 1;
    proof {
        vstd::arithmetic::power2::is_pow2_equiv(align as int);
        let k = choose|k: nat| vstd::arithmetic::power::pow(2, k) == align as int;
        assert(vstd::arithmetic::power2::pow2(k) == align);
        vstd::arithmetic::power2::lemma2_to64();
        if k >= usize::BITS {
            if k > usize::BITS as nat {
                vstd::arithmetic::power2::lemma_pow2_strictly_increases(usize::BITS as nat, k);
            }
        }
        vstd::bits::lemma_usize_low_bits_mask_is_mod(x, k);
        assert(x & !mask == x - (x & mask)) by (bit_vector);
        assert(x & mask <= x) by (bit_vector);
        vstd::arithmetic::div_mod::lemma_fundamental_div_mod(x as int, align as int);
        vstd::arithmetic::mul::lemma_mul_is_commutative(x as int / align as int, align as int);
    }
    x & !mask
}

/// One cell of the index: `count` vectors from `start` on, cut into
/// `block_count` blocks whose bounds are listed from `block_start` on.
#[derive(Clone, Copy)]
pub struct Cell {
    pub start: u32,
    pub count: u32,
    pub block_start: u32,
    pub block_count: u32,
}

/// The smallest box that holds a run of vectors.
#[derive(Clone, Copy)]
pub struct BlockBounds {
    pub min: [i16; 16],
    pub max: [i16; 16],
}

/// A box between two opposite corners.
#[verifier::ext_equal]
pub struct Bounds {
    pub min: Seq<i16>,
    pub max: Seq<i16>,
}

impl View for BlockBounds {
    type V = Bounds;

    open spec fn view(&self) -> Bounds {
        Bounds { min: self.min@, max: self.max@ }
    }
}

/// What an index file holds.
#[verifier::ext_equal]
pub struct IndexView {
    pub centroids: Seq<Seq<i16>>,
    pub cells: Seq<Cell>,
    pub cell_bounds: Option<Seq<Bounds>>,
    pub blocks: Seq<Bounds>,
    pub vectors: Seq<Seq<i16>>,
    pub labels: Seq<u8>,
}

/// The sixteen coordinates from `off` on.
pub open spec fn vector_at(b: Seq<u8>, off: int) -> Seq<i16> {
    Seq::new(16, |i: int| bytes::le_i16(b, off + 2 * i))
}

/// The cell from `off` on.
pub open spec fn cell_at(b: Seq<u8>, off: int) -> Cell {
    Cell {
        start: bytes::le_u32(b, off),
        count: bytes::le_u32(b, off + 4),
        block_start: bytes::le_u32(b, off + 8),
        block_count: bytes::le_u32(b, off + 12),
    }
}

/// The box from `off` on.
pub open spec fn bounds_at(b: Seq<u8>, off: int) -> Bounds {
    Bounds { min: vector_at(b, off), max: vector_at(b, off + 32) }
}

/// `n` vectors from `off` on.
pub open spec fn vectors_at(b: Seq<u8>, off: int, n: nat) -> Seq<Seq<i16>> {
    Seq::new(n, |i: int| vector_at(b, off + 32 * i))
}

/// `n` cells from `off` on.
pub open spec fn cells_at(b: Seq<u8>, off: int, n: nat) -> Seq<Cell> {
    Seq::new(n, |i: int| cell_at(b, off + 16 * i))
}

/// `n` boxes from `off` on.
pub open spec fn boxes_at(b: Seq<u8>, off: int, n: nat) -> Seq<Bounds> {
    Seq::new(n, |i: int| bounds_at(b, off + 64 * i))
}

/// Where a section that would follow `off` starts.
pub open spec fn section_start(off: int, aligned: bool) -> int {
    if aligned {
        round_up(off, 32)
    } else {
        off
    }
}

/// Where a section that would follow `off` starts.
pub fn section_offset(off: u64, aligned_layout: bool) -> (r: u64)
    requires
        off <= u64::MAX - 31,
    ensures
        r == section_start(off as int, aligned_layout),
        off <= r <= off + 31,
{
    if aligned_layout {
        proof {
            lemma_round_up(off as int, 32);
        }
        (off + 31) / 32 * 32
    } else {
        off
    }
}

/// How many blocks the cells refer to: one more than the last of them.
pub open spec fn block_total(cells: Seq<Cell>) -> int
    decreases cells.len(),
{
    if cells.len() == 0 {
        0
    } else {
        let before = block_total(cells.drop_last());
        let end = cells.last().block_start + cells.last().block_count;
        if end > before {
            end
        } else {
            before
        }
    }
}

/// Every cell's blocks lie below the block total.
pub proof fn lemma_block_total(cells: Seq<Cell>)
    ensures
        0 <= block_total(cells),
        forall|i: int|
            0 <= i < cells.len() ==> (#[trigger] cells[i]).block_start + cells[i].block_count
                <= block_total(cells),
    decreases cells.len(),
{
    if cells.len() > 0 {
        lemma_block_total(cells.drop_last());
        assert forall|i: int| 0 <= i < cells.len() implies (#[trigger] cells[i]).block_start
            + cells[i].block_count <= block_total(cells) by {
            if i < cells.len() - 1 {
                assert(cells.drop_last()[i] == cells[i]);
            }
        }
    }
}

/// No cell reaches behind the last of `num_vectors` vectors.
pub open spec fn cells_fit(cells: Seq<Cell>, num_vectors: int) -> bool {
    forall|i: int|
        0 <= i < cells.len() ==> (#[trigger] cells[i]).start + cells[i].count <= num_vectors
}

/// The sections of an index file, by their offsets.
pub struct Sections {
    pub num_vectors: int,
    pub num_centroids: int,
    pub num_blocks: int,
    pub has_cell_bounds: bool,
    pub centroids: int,
    pub cells: int,
    pub cells_end: int,
    pub cell_bounds: int,
    pub blocks: int,
    pub vectors: int,
    pub labels: int,
    pub end: int,
}

/// The sections of the file `b`, as its header and its cells give them.
#[verifier::opaque]
pub open spec fn sections(b: Seq<u8>) -> Sections {
    let aligned = bytes::le_u32(b, 4) >= 4;
    let has_cell_bounds = bytes::le_u32(b, 4) >= 5;
    let num_vectors = bytes::le_u32(b, 8) as int;
    let num_centroids = bytes::le_u32(b, 12) as int;
    let centroids = section_start(20, aligned);
    let cells = centroids + 32 * num_centroids;
    let cells_end = cells + 16 * num_centroids;
    let num_blocks = block_total(cells_at(b, cells, num_centroids as nat));
    let cell_bounds = section_start(cells_end, aligned);
    let blocks = section_start(
        if has_cell_bounds {
            cell_bounds + 64 * num_centroids
        } else {
            cells_end
        },
        aligned,
    );
    let vectors = section_start(blocks + 64 * num_blocks, aligned);
    let labels = vectors + 32 * num_vectors;
    Sections {
        num_vectors,
        num_centroids,
        num_blocks,
        has_cell_bounds,
        centroids,
        cells,
        cells_end,
        cell_bounds,
        blocks,
        vectors,
        labels,
        end: labels + num_vectors,
    }
}

/// The sections follow one another without overlap.
pub proof fn lemma_sections(b: Seq<u8>)
    ensures
        ({
            let s = sections(b);
            &&& 0 <= s.num_vectors <= u32::MAX
            &&& 0 <= s.num_centroids <= u32::MAX
            &&& 20 <= s.centroids
            &&& s.centroids + 32 * s.num_centroids == s.cells
            &&& s.cells + 16 * s.num_centroids == s.cells_end
            &&& s.num_blocks == block_total(cells_at(b, s.cells, s.num_centroids as nat))
            &&& 0 <= s.num_blocks
            &&& s.cells_end <= s.cell_bounds
            &&& s.cells_end <= s.blocks
            &&& s.has_cell_bounds ==> s.cell_bounds + 64 * s.num_centroids <= s.blocks
            &&& s.blocks + 64 * s.num_blocks <= s.vectors
            &&& s.vectors + 32 * s.num_vectors == s.labels
            &&& s.labels + s.num_vectors == s.end
        }),
{
    reveal(sections);
    let s = sections(b);
    lemma_block_total(cells_at(b, s.cells, s.num_centroids as nat));
    lemma_round_up(20, 32);
    lemma_round_up(s.cells_end, 32);
    lemma_round_up(s.cell_bounds + 64 * s.num_centroids, 32);
    lemma_round_up(s.blocks + 64 * s.num_blocks, 32);
}

/// The header of `b` is that of an index of a version that can be read.
pub open spec fn header_valid(b: Seq<u8>) -> bool {
    &&& b.len() >= 20
    &&& bytes::le_u32(b, 0) == MAGIC
    &&& MIN_SUPPORTED_VERSION <= bytes::le_u32(b, 4) <= VERSION
    &&& bytes::le_u32(b, 16) == 16
}

/// `b` is an index file: a valid header, all sections there, and no cell that
/// reaches behind the last vector.
pub open spec fn is_index(b: Seq<u8>) -> bool {
    let s = sections(b);
    &&& header_valid(b)
    &&& s.cells_end <= b.len()
    &&& cells_fit(cells_at(b, s.cells, s.num_centroids as nat), s.num_vectors)
    &&& s.end <= b.len()
}

/// What the index file `b` holds.
pub open spec fn contents(b: Seq<u8>) -> IndexView {
    let s = sections(b);
    IndexView {
        centroids: vectors_at(b, s.centroids, s.num_centroids as nat),
        cells: cells_at(b, s.cells, s.num_centroids as nat),
        cell_bounds: if s.has_cell_bounds {
            Some(boxes_at(b, s.cell_bounds, s.num_centroids as nat))
        } else {
            None
        },
        blocks: boxes_at(b, s.blocks, s.num_blocks as nat),
        vectors: vectors_at(b, s.vectors, s.num_vectors as nat),
        labels: b.subrange(s.labels, s.end),
    }
}

impl IndexView {
    /// The parts of an index agree with one another.
    pub open spec fn valid(self) -> bool {
        &&& self.cells.len() == self.centroids.len() <= u32::MAX
        &&& self.labels.len() == self.vectors.len() <= u32::MAX
        &&& forall|i: int|
            0 <= i < self.centroids.len() ==> (#[trigger] self.centroids[i]).len() == 16
        &&& forall|i: int|
            0 <= i < self.vectors.len() ==> (#[trigger] self.vectors[i]).len() == 16
        &&& cells_fit(self.cells, self.vectors.len() as int)
        &&& self.blocks.len() == block_total(self.cells)
        &&& forall|i: int|
            0 <= i < self.cells.len() ==> (#[trigger] self.cells[i]).block_start
                + self.cells[i].block_count <= self.blocks.len()
        &&& self.cell_bounds is Some ==> self.cell_bounds->0.len() == self.cells.len()
    }
}

/// What an index file holds is consistent.
pub proof fn lemma_contents(b: Seq<u8>)
    requires
        is_index(b),
    ensures
        contents(b).valid(),
{
    lemma_sections(b);
    let s = sections(b);
    lemma_block_total(cells_at(b, s.cells, s.num_centroids as nat));
}

/// Reads the vector from `off` on.
pub fn read_vector(b: &[u8], off: usize) -> (v: [i16; 16])
    requires
        off + 32 <= b.len(),
    ensures
        v@ == vector_at(b@, off as int),
{
    let mut v: [i16; 16] = [0i16;16];
    for i in 0..16usize
        invariant
            off + 32 <= b.len(),
            forall|j: int| 0 <= j < i ==> #[trigger] v@[j] == bytes::le_i16(b@, off + 2 * j),
    {
        v[i] = bytes::read_i16(b, off + 2 * i);
    }
    assert(v@ =~= vector_at(b@, off as int));
    v
}

/// Reads the cell from `off` on.
pub fn read_cell(b: &[u8], off: usize) -> (cell: Cell)
    requires
        off + 16 <= b.len(),
    ensures
        cell == cell_at(b@, off as int),
{
    Cell {
        start: bytes::read_u32(b, off),
        count: bytes::read_u32(b, off + 4),
        block_start: bytes::read_u32(b, off + 8),
        block_count: bytes::read_u32(b, off + 12),
    }
}

/// Reads the box from `off` on.
pub fn read_bounds(b: &[u8], off: usize) -> (bounds: BlockBounds)
    requires
        off + 64 <= b.len(),
    ensures
        bounds@ == bounds_at(b@, off as int),
{
    BlockBounds { min: read_vector(b, off), max: read_vector(b, off + 32) }
}

/// Counts the blocks that the cells from `off` on refer to, or finds a cell that
/// reaches behind the last vector.
pub fn count_blocks(b: &[u8], off: u64, num_centroids: u32, num_vectors: u32) -> (total: Option<
    u64,
>)
    requires
        off + 16 * num_centroids <= b.len(),
    ensures
        match total {
            Some(n) => cells_fit(
                cells_at(b@, off as int, num_centroids as nat),
                num_vectors as int,
            ) && n == block_total(cells_at(b@, off as int, num_centroids as nat)) && n
                <= 0x2_0000_0000,
            None => !cells_fit(
                cells_at(b@, off as int, num_centroids as nat),
                num_vectors as int,
            ),
        },
{
    let ghost cells = cells_at(b@, off as int, num_centroids as nat);
    let mut total: u64 = 0;
    let mut i: u32 = 0;
    while i < num_centroids
        invariant
            i <= num_centroids,
            off + 16 * num_centroids <= b.len(),
            cells == cells_at(b@, off as int, num_centroids as nat),
            total == block_total(cells.take(i as int)),
            total <= 0x2_0000_0000,
            cells_fit(cells.take(i as int), num_vectors as int),
        decreases num_centroids - i,
    {
        let cell = read_cell(b, (off + 16 * (i as u64)) as usize);
        assert(cells[i as int] == cell);
        if cell.start as u64 + cell.count as u64 > num_vectors as u64 {
            return None;
        }
        let end: u64 = cell.block_start as u64 + cell.block_count as u64;
        proof {
            assert(cells.take(i + 1).drop_last() =~= cells.take(i as int));
            assert forall|j: int| 0 <= j < i + 1 implies (#[trigger] cells.take(i + 1)[j]).start
                + cells.take(i + 1)[j].count <= num_vectors by {
                if j < i {
                    assert(cells.take(i + 1)[j] == cells.take(i as int)[j]);
                }
            }
        }
        if end > total {
            total = end;
        }
        i = i + 1;
    }
    assert(cells.take(num_centroids as int) =~= cells);
    Some(total)
}

/// Vectors, cells and boxes read the same in an extension.
pub proof fn lemma_extends(longer: Seq<u8>, b: Seq<u8>)
    requires
        bytes::extends(longer, b),
    ensures
        forall|off: int|
            0 <= off && off + 32 <= b.len() ==> #[trigger] vector_at(longer, off) == vector_at(
                b,
                off,
            ),
        forall|off: int|
            0 <= off && off + 16 <= b.len() ==> #[trigger] cell_at(longer, off) == cell_at(b, off),
        forall|off: int|
            0 <= off && off + 64 <= b.len() ==> #[trigger] bounds_at(longer, off) == bounds_at(
                b,
                off,
            ),
{
    bytes::lemma_extends_reads(longer, b);
    assert forall|off: int| 0 <= off && off + 32 <= b.len() implies #[trigger] vector_at(
        longer,
        off,
    ) == vector_at(b, off) by {
        assert(vector_at(longer, off) =~= vector_at(b, off));
    }
}

/// A run of vectors reads the same in an extension.
pub proof fn lemma_vectors_extend(longer: Seq<u8>, b: Seq<u8>, off: int, n: nat)
    requires
        bytes::extends(longer, b),
        0 <= off,
        off + 32 * n <= b.len(),
    ensures
        vectors_at(longer, off, n) == vectors_at(b, off, n),
{
    lemma_extends(longer, b);
    assert(vectors_at(longer, off, n) =~= vectors_at(b, off, n));
}

/// A run of cells reads the same in an extension.
pub proof fn lemma_cells_extend(longer: Seq<u8>, b: Seq<u8>, off: int, n: nat)
    requires
        bytes::extends(longer, b),
        0 <= off,
        off + 16 * n <= b.len(),
    ensures
        cells_at(longer, off, n) == cells_at(b, off, n),
{
    lemma_extends(longer, b);
    assert(cells_at(longer, off, n) =~= cells_at(b, off, n));
}

/// A run of boxes reads the same in an extension.
pub proof fn lemma_boxes_extend(longer: Seq<u8>, b: Seq<u8>, off: int, n: nat)
    requires
        bytes::extends(longer, b),
        0 <= off,
        off + 64 * n <= b.len(),
    ensures
        boxes_at(longer, off, n) == boxes_at(b, off, n),
{
    lemma_extends(longer, b);
    assert(boxes_at(longer, off, n) =~= boxes_at(b, off, n));
}

/// Appends a vector.
pub fn write_vec_i16(out: &mut Vec<u8>, v: &[i16; 16])
    ensures
        final(out)@.len() == old(out)@.len() + 32,
        bytes::extends(final(out)@, old(out)@),
        vector_at(final(out)@, old(out)@.len() as int) == v@,
{
    let ghost start = out@;
    proof {
        bytes::lemma_appended(start, Seq::empty());
    }
    for i in 0..16usize
        invariant
            out@.len() == start.len() + 2 * i,
            bytes::extends(out@, start),
            forall|j: int|
                0 <= j < i ==> #[trigger] bytes::le_i16(out@, start.len() + 2 * j) == v@[j],
    {
        let ghost before = out@;
        bytes::push_i16(out, v[i]);
        proof {
            bytes::lemma_extends(out@, before, start);
            bytes::lemma_extends_reads(out@, before);
        }
    }
    assert(vector_at(out@, start.len() as int) =~= v@);
}

/// Appends a cell.
pub fn write_cell(out: &mut Vec<u8>, cell: Cell)
    ensures
        final(out)@.len() == old(out)@.len() + 16,
        bytes::extends(final(out)@, old(out)@),
        cell_at(final(out)@, old(out)@.len() as int) == cell,
{
    let ghost b0 = out@;
    bytes::push_u32(out, cell.start);
    let ghost b1 = out@;
    bytes::push_u32(out, cell.count);
    let ghost b2 = out@;
    bytes::push_u32(out, cell.block_start);
    let ghost b3 = out@;
    bytes::push_u32(out, cell.block_count);
    proof {
        bytes::lemma_extends(b2, b1, b0);
        bytes::lemma_extends(b3, b2, b0);
        bytes::lemma_extends(out@, b3, b0);
        bytes::lemma_extends_reads(b2, b1);
        bytes::lemma_extends_reads(b3, b2);
        bytes::lemma_extends_reads(out@, b3);
    }
}

/// Appends a box.
pub fn write_bounds(out: &mut Vec<u8>, bounds: &BlockBounds)
    ensures
        final(out)@.len() == old(out)@.len() + 64,
        bytes::extends(final(out)@, old(out)@),
        bounds_at(final(out)@, old(out)@.len() as int) == bounds@,
{
    let ghost b0 = out@;
    write_vec_i16(out, &bounds.min);
    let ghost b1 = out@;
    write_vec_i16(out, &bounds.max);
    proof {
        bytes::lemma_extends(out@, b1, b0);
        lemma_extends(out@, b1);
    }
}

/// Appends zeroes up to the next multiple of 32.
pub fn pad_to_align(out: &mut Vec<u8>)
    ensures
        final(out)@.len() == round_up(old(out)@.len() as int, 32),
        bytes::extends(final(out)@, old(out)@),
        forall|i: int|
            old(out)@.len() <= i < final(out)@.len() ==> #[trigger] final(out)@[i] == 0,
{
    let ghost start = out@;
    proof {
        lemma_round_up(start.len() as int, 32);
        bytes::lemma_appended(start, Seq::empty());
    }
    while out.len() % 32 != 0
        invariant
            start.len() <= out@.len() <= round_up(start.len() as int, 32),
            round_up(start.len() as int, 32) % 32 == 0,
            round_up(start.len() as int, 32) < start.len() + 32,
            bytes::extends(out@, start),
            forall|i: int| start.len() <= i < out@.len() ==> #[trigger] out@[i] == 0,
        decreases round_up(start.len() as int, 32) - out@.len(),
    {
        let ghost before = out@;
        out.push(0);
        proof {
            bytes::lemma_appended(before, seq![0u8]);
            assert(before + seq![0u8] =~= out@);
            bytes::lemma_extends(out@, before, start);
        }
    }
}

/// Where the sections of an index file stand: from version 4 on at the next multiples of
/// 32, before it one right behind the other. What a section holds is read from there.
pub proof fn lemma_offsets(b: Seq<u8>)
    requires
        is_index(b),
    ensures
        b[0] == 0x48 && b[1] == 0x4e && b[2] == 0x49 && b[3] == 0x52,
        3 <= bytes::le_u32(b, 4) <= 5,
        bytes::le_u32(b, 16) == 16,
        ({
            let s = sections(b);
            let version = bytes::le_u32(b, 4);
            let m = contents(b);
            &&& m.vectors.len() == m.labels.len() == bytes::le_u32(b, 8)
            &&& m.centroids.len() == m.cells.len() == bytes::le_u32(b, 12)
            &&& version == 3 ==> s.centroids == 20 && s.blocks == s.cells_end && s.vectors
                == s.blocks + 64 * s.num_blocks
            &&& version >= 4 ==> s.centroids == 32 && s.cell_bounds % 32 == 0 && s.blocks % 32 == 0
                && s.vectors % 32 == 0 && s.vectors - (s.blocks + 64 * s.num_blocks) < 32
            &&& version == 4 ==> s.blocks - s.cells_end < 32
            &&& version == 5 ==> s.cell_bounds - s.cells_end < 32 && s.blocks - (s.cell_bounds + 64
                * s.num_centroids) < 32
            &&& m.cell_bounds is Some <==> version == 5
            &&& s.end == s.vectors + 33 * s.num_vectors <= b.len()
            &&& forall|i: int, d: int|
                0 <= i < m.vectors.len() && 0 <= d < 16 ==> #[trigger] m.vectors[i][d]
                    == bytes::le_i16(b, s.vectors + 32 * i + 2 * d)
            &&& forall|i: int|
                0 <= i < m.labels.len() ==> #[trigger] m.labels[i] == b[s.labels + i]
        }),
{
    reveal(sections);
    let s = sections(b);
    lemma_sections(b);
    lemma_round_up(20, 32);
    lemma_round_up(s.cells_end, 32);
    lemma_round_up(s.cell_bounds + 64 * s.num_centroids, 32);
    lemma_round_up(s.blocks + 64 * s.num_blocks, 32);
    bytes::lemma_places(b, 0);
}

/// What is accepted as an index: a header with the right first word, one of the three
/// versions and sixteen dimensions, as many bytes as the sections need, and no cell that
/// reaches behind the last vector. Nothing else is asked of a file.
pub proof fn lemma_accepted(b: Seq<u8>)
    ensures
        ({
            let s = sections(b);
            is_index(b) <==> {
                &&& b.len() >= 20
                &&& bytes::le_u32(b, 0) == 0x5249_4e48
                &&& bytes::le_u32(b, 4) == 3 || bytes::le_u32(b, 4) == 4 || bytes::le_u32(b, 4) == 5
                &&& bytes::le_u32(b, 16) == 16
                &&& b.len() >= s.vectors + 33 * bytes::le_u32(b, 8)
                &&& forall|c: int|
                    #![trigger cell_at(b, s.cells + 16 * c)]
                    0 <= c < bytes::le_u32(b, 12) ==> cell_at(b, s.cells + 16 * c).start + cell_at(
                        b,
                        s.cells + 16 * c,
                    ).count <= bytes::le_u32(b, 8)
            }
        }),
{
    reveal(sections);
    lemma_sections(b);
    let s = sections(b);
    let cells = cells_at(b, s.cells, s.num_centroids as nat);
    assert forall|c: int| 0 <= c < s.num_centroids implies #[trigger] cells[c] == cell_at(
        b,
        s.cells + 16 * c,
    ) by {}
    if forall|c: int|
        #![trigger cell_at(b, s.cells + 16 * c)]
        0 <= c < s.num_centroids ==> cell_at(b, s.cells + 16 * c).start + cell_at(
            b,
            s.cells + 16 * c,
        ).count <= s.num_vectors {
        assert forall|c: int| 0 <= c < cells.len() implies (#[trigger] cells[c]).start
            + cells[c].count <= s.num_vectors by {
            assert(cell_at(b, s.cells + 16 * c).start + cell_at(b, s.cells + 16 * c).count
                <= s.num_vectors);
        }
    } else if cells_fit(cells, s.num_vectors) {
        let c = choose|c: int|
            #![trigger cell_at(b, s.cells + 16 * c)]
            0 <= c < s.num_centroids && !(cell_at(b, s.cells + 16 * c).start + cell_at(
                b,
                s.cells + 16 * c,
            ).count <= s.num_vectors);
        assert(cells[c].start + cells[c].count <= s.num_vectors);
    }
}

} // verus!
