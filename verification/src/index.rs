//! IVF (inverted file) index over the bytes of an index file.
use crate::bytes;
use crate::distance;
use crate::layout;
pub use crate::layout::{
    align_up, BlockBounds, Cell, BLOCK_SIZE, HEADER_BYTES, MAGIC, MIN_SUPPORTED_VERSION, VERSION,
};
use crate::ranking;
use crate::search;
pub use crate::search::{QueryOptions, RepairMode};
use crate::search::{K_RERANK, MAX_CENTROIDS, MAX_NPROBE, MAX_REPAIR_CANDIDATES};
use vstd::prelude::*;

verus! {

/// A read-only IVF index backed by a byte slice, such as a mapped file.
pub struct IvfIndex<'a> {
    pub num_vectors: usize,
    pub num_centroids: usize,
    data: &'a [u8],
    num_blocks: usize,
    has_cell_bounds: bool,
    centroids_off: usize,
    cells_off: usize,
    cell_bounds_off: usize,
    blocks_off: usize,
    vectors_off: usize,
    labels_off: usize,
}

/// A search whose first probe is done. What is left to decide depends on the
/// exact distances of its candidates.
pub struct Search {
    q: [i16; 16],
    options: QueryOptions,
    cdist: [i64; 2048],
    best: [(i64, u32); 64],
    cand: [(i64, u32); 5],
    filled: usize,
}

impl Search {
    /// The query.
    pub closed spec fn query(&self) -> Seq<i16> {
        self.q@
    }

    /// The knobs of the search.
    pub closed spec fn options(&self) -> QueryOptions {
        self.options
    }

    /// The candidates so far, the nearest first.
    pub closed spec fn candidates(&self) -> Seq<(i64, u32)> {
        self.cand@.take(self.filled as int)
    }

    /// There are at most five candidates.
    pub closed spec fn wf(&self) -> bool {
        self.filled <= 5
    }

    /// The search was begun on the index `m`.
    pub closed spec fn begun_on(&self, m: layout::IndexView) -> bool {
        let nc = search::centroid_limit(m);
        let first = search::first_probe(m, self.options);
        let ranked = if search::wide_probe(m, self.options) > first {
            first + 1
        } else {
            first
        };
        &&& self.filled <= 5
        &&& self.cand@.take(self.filled as int) == search::probe(m, self.q@, first)
        &&& self.cdist@.take(nc) == search::centroid_distances(m, self.q@)
        &&& self.best@.take(ranked) == search::centroid_order(m, self.q@).take(ranked)
    }

    /// What begins a search fixes its candidates.
    pub proof fn lemma_begun(&self, m: layout::IndexView)
        requires
            m.valid(),
            self.begun_on(m),
        ensures
            self.candidates() == search::probe(
                m,
                self.query(),
                search::first_probe(m, self.options()),
            ),
            self.candidates().len() <= 5,
            search::within(m, self.candidates()),
    {
        search::lemma_probe_sound(m, self.q@, search::first_probe(m, self.options));
    }

    /// How many candidates there are.
    pub fn len(&self) -> (n: usize)
        requires
            self.wf(),
        ensures
            n == self.candidates().len(),
    {
        self.filled
    }

    /// The vector number of candidate number `i`.
    pub fn candidate(&self, i: usize) -> (number: u32)
        requires
            self.wf(),
            i < self.candidates().len(),
        ensures
            number == self.candidates()[i as int].1,
    {
        self.cand[i].1
    }
}

impl<'a> View for IvfIndex<'a> {
    type V = layout::IndexView;

    closed spec fn view(&self) -> layout::IndexView {
        layout::contents(self.data@)
    }
}

impl<'a> IvfIndex<'a> {
    /// The fields `num_vectors` and `num_centroids`.
    pub closed spec fn counts(&self) -> (nat, nat) {
        (self.num_vectors as nat, self.num_centroids as nat)
    }

    /// The fields describe the sections of the file.
    pub closed spec fn wf(&self) -> bool {
        let s = layout::sections(self.data@);
        &&& layout::is_index(self.data@)
        &&& self.num_vectors == s.num_vectors
        &&& self.num_centroids == s.num_centroids
        &&& self.num_blocks == s.num_blocks
        &&& self.has_cell_bounds == s.has_cell_bounds
        &&& self.centroids_off == s.centroids
        &&& self.cells_off == s.cells
        &&& self.cell_bounds_off == s.cell_bounds
        &&& self.blocks_off == s.blocks
        &&& self.vectors_off == s.vectors
        &&& self.labels_off == s.labels
    }

    /// Builds an index view over the bytes of a file. Refuses what is not an
    /// index file: a header that does not fit, a section that is cut off, or a
    /// cell that reaches behind the last vector.
    pub fn from_bytes(data: &'a [u8]) -> (index: Option<Self>)
        ensures
            match index {
                Some(i) => {
                    &&& layout::is_index(data@)
                    &&& i.wf()
                    &&& i@ == layout::contents(data@)
                    &&& i.counts() == (i@.vectors.len(), i@.centroids.len())
                },
                None => !layout::is_index(data@),
            },
    {
        if data.len() < layout::HEADER_BYTES {
            return None;
        }
        let magic = bytes::read_u32(data, 0);
        let version = bytes::read_u32(data, 4);
        let num_vectors = bytes::read_u32(data, 8);
        let num_centroids = bytes::read_u32(data, 12);
        let dims_padded = bytes::read_u32(data, 16);
        if magic != layout::MAGIC || version < layout::MIN_SUPPORTED_VERSION || version
            > layout::VERSION || dims_padded != 16 {
            return None;
        }
        proof {
            reveal(layout::sections);
        }
        let len: u64 = data.len() as u64;
        let aligned_layout = version >= 4;
        let nv: u64 = num_vectors as u64;
        let nc: u64 = num_centroids as u64;

        let centroids_off: u64 = layout::section_offset(
            layout::HEADER_BYTES as u64,
            aligned_layout,
        );
        let cells_off: u64 = centroids_off + 32 * nc;
        let cells_end: u64 = cells_off + 16 * nc;
        if len < cells_end {
            return None;
        }
        let num_blocks: u64 = match layout::count_blocks(
            data,
            cells_off,
            num_centroids,
            num_vectors,
        ) {
            Some(n) => n,
            None => {
                return None;
            },
        };

        let cell_bounds_off: u64 = layout::section_offset(cells_end, aligned_layout);
        let has_cell_bounds = version >= 5;
        let blocks_base: u64 = if has_cell_bounds {
            cell_bounds_off + 64 * nc
        } else {
            cells_end
        };
        let blocks_off: u64 = layout::section_offset(blocks_base, aligned_layout);
        let vectors_off: u64 = layout::section_offset(
            blocks_off + 64 * num_blocks,
            aligned_layout,
        );
        let labels_off: u64 = vectors_off + 32 * nv;
        let total: u64 = labels_off + nv;
        if len < total {
            return None;
        }
        proof {
            layout::lemma_sections(data@);
        }
        Some(
            IvfIndex {
                num_vectors: num_vectors as usize,
                num_centroids: num_centroids as usize,
                data,
                num_blocks: num_blocks as usize,
                has_cell_bounds,
                centroids_off: centroids_off as usize,
                cells_off: cells_off as usize,
                cell_bounds_off: cell_bounds_off as usize,
                blocks_off: blocks_off as usize,
                vectors_off: vectors_off as usize,
                labels_off: labels_off as usize,
            },
        )
    }

    /// What an index holds is consistent.
    pub proof fn lemma_valid(&self)
        requires
            self.wf(),
        ensures
            self@.valid(),
            self.counts() == (self@.vectors.len(), self@.centroids.len()),
    {
        layout::lemma_sections(self.data@);
        layout::lemma_contents(self.data@);
    }

    /// Centroid number `i`.
    fn centroid(&self, i: usize) -> (v: [i16; 16])
        requires
            self.wf(),
            i < self@.centroids.len(),
        ensures
            v@ == self@.centroids[i as int],
    {
        proof {
            layout::lemma_sections(self.data@);
        }
        layout::read_vector(self.data, self.centroids_off + 32 * i)
    }

    /// Cell number `i`.
    fn cell(&self, i: usize) -> (cell: Cell)
        requires
            self.wf(),
            i < self@.centroids.len(),
        ensures
            cell == self@.cells[i as int],
    {
        proof {
            layout::lemma_sections(self.data@);
        }
        layout::read_cell(self.data, self.cells_off + 16 * i)
    }

    /// The box around cell number `i`.
    fn cell_bounds(&self, i: usize) -> (bounds: BlockBounds)
        requires
            self.wf(),
            self@.cell_bounds is Some,
            i < self@.centroids.len(),
        ensures
            bounds@ == self@.cell_bounds->0[i as int],
    {
        proof {
            layout::lemma_sections(self.data@);
        }
        layout::read_bounds(self.data, self.cell_bounds_off + 64 * i)
    }

    /// The box around block number `i`.
    fn block(&self, i: usize) -> (bounds: BlockBounds)
        requires
            self.wf(),
            i < self@.blocks.len(),
        ensures
            bounds@ == self@.blocks[i as int],
    {
        proof {
            layout::lemma_sections(self.data@);
        }
        layout::read_bounds(self.data, self.blocks_off + 64 * i)
    }

    /// Vector number `i`.
    pub fn vector(&self, i: usize) -> (v: [i16; 16])
        requires
            self.wf(),
            i < self@.vectors.len(),
        ensures
            v@ == self@.vectors[i as int],
    {
        proof {
            layout::lemma_sections(self.data@);
        }
        layout::read_vector(self.data, self.vectors_off + 32 * i)
    }

    /// Label of vector number `i`.
    pub fn label(&self, i: usize) -> (label: u8)
        requires
            self.wf(),
            i < self@.vectors.len(),
        ensures
            label == self@.labels[i as int],
    {
        proof {
            layout::lemma_sections(self.data@);
        }
        assert(self.labels_off + i < self.data.len());
        self.data[self.labels_off + i]
    }

    /// Offers the vectors of one cell to the candidates in `cand[..filled]`,
    /// passing over the blocks that are out of reach.
    pub fn scan_centroid(
        &self,
        q: &[i16; 16],
        centroid: usize,
        cand: &mut [(i64, u32); 5],
        filled: &mut usize,
    )
        requires
            self.wf(),
            centroid < self@.centroids.len(),
            *old(filled) <= 5,
        ensures
            *final(filled) <= 5,
            final(cand)@.take(*final(filled) as int) == search::scan_cell(
                self@,
                q@,
                centroid as int,
                old(cand)@.take(*old(filled) as int),
            ),
            *old(filled) <= *final(filled),
            final(cand)@.skip(*final(filled) as int) == old(cand)@.skip(*final(filled) as int),
    {
        proof {
            self.lemma_valid();
        }
        let ghost m = self@;
        let ghost given = cand@;
        let ghost start_cand = cand@.take(*filled as int);
        let cell = self.cell(centroid);
        let start = cell.start as usize;
        let count = cell.count as usize;
        let block_start = cell.block_start as usize;
        let block_count = cell.block_count as usize;
        let mut rel_block: usize = 0;
        let mut local_off: u64 = 0;
        while rel_block < block_count && local_off < count as u64
            invariant
                self.wf(),
                m == self@,
                m.valid(),
                centroid < m.cells.len(),
                cell == m.cells[centroid as int],
                start == cell.start,
                count == cell.count,
                block_start == cell.block_start,
                block_count == cell.block_count,
                rel_block <= block_count,
                local_off == 128 * rel_block,
                *old(filled) <= *filled <= 5,
                given == old(cand)@,
                cand@.len() == given.len(),
                forall|j: int| *filled <= j < given.len() ==> cand@[j] == given[j],
                cand@.take(*filled as int) == search::scan_blocks(
                    m,
                    q@,
                    cell,
                    rel_block as nat,
                    start_cand,
                ),
            decreases block_count - rel_block,
        {
            let ghost before = cand@.take(*filled as int);
            let rest: usize = count - local_off as usize;
            let n: usize = if rest < layout::BLOCK_SIZE {
                rest
            } else {
                layout::BLOCK_SIZE
            };
            let bounds = self.block(block_start + rel_block);
            let skip = *filled == K_RERANK && lower_bound_block(
                q,
                &bounds,
                cand[K_RERANK - 1].0,
            ) >= cand[K_RERANK - 1].0;
            if !skip {
                let off: usize = start + local_off as usize;
                let ghost prior = cand@;
                self.scan_run(q, off, n, cand, filled);
                assert forall|j: int| *filled <= j < given.len() implies cand@[j] == given[j] by {
                    assert(cand@.skip(*filled as int)[j - *filled] == prior.skip(
                        *filled as int,
                    )[j - *filled]);
                }
            }
            rel_block = rel_block + 1;
            local_off = local_off + 128;
        }
        proof {
            if rel_block < block_count {
                search::lemma_scan_blocks_behind(
                    m,
                    q@,
                    cell,
                    rel_block as nat,
                    block_count as nat,
                    start_cand,
                );
            }
        }
    }

    /// Scans the cells of `best[from..to]` in turn.
    fn scan_centroid_range(
        &self,
        q: &[i16; 16],
        best: &[(i64, u32); 64],
        from: usize,
        to: usize,
        cand: &mut [(i64, u32); 5],
        filled: &mut usize,
    )
        requires
            self.wf(),
            from <= to <= 64,
            to <= search::centroid_limit(self@),
            best@.take(to as int) == search::centroid_order(self@, q@).take(to as int),
            *old(filled) <= 5,
            old(cand)@.take(*old(filled) as int) == search::probe(self@, q@, from as int),
        ensures
            *final(filled) <= 5,
            final(cand)@.take(*final(filled) as int) == search::probe(self@, q@, to as int),
    {
        proof {
            self.lemma_valid();
            search::lemma_centroid_order(self@, q@);
        }
        for b in from..to
            invariant
                self.wf(),
                self@.valid(),
                to <= 64,
                to <= search::centroid_limit(self@) == search::centroid_order(self@, q@).len(),
                best@.take(to as int) == search::centroid_order(self@, q@).take(to as int),
                forall|i: int|
                    0 <= i < to ==> (#[trigger] search::centroid_order(self@, q@)[i]).1
                        < search::centroid_limit(self@),
                *filled <= 5,
                cand@.take(*filled as int) == search::probe(self@, q@, b as int),
        {
            assert(best@.take(to as int)[b as int] == search::centroid_order(
                self@,
                q@,
            )[b as int]);
            self.scan_centroid(q, best[b].1 as usize, cand, filled);
        }
    }

    /// Begins a search: ranks the centroids and scans the nearest cells.
    pub fn begin_search(&self, q: &[i16; 16], options: QueryOptions) -> (s: Search)
        requires
            self.wf(),
        ensures
            s.wf(),
            s.begun_on(self@),
            s.query() == q@,
            s.options() == options,
    {
        proof {
            self.lemma_valid();
            search::lemma_centroid_order(self@, q@);
        }
        let nc = self.centroid_limit();
        let probe = self.first_probe(options);
        let adaptive_probe = self.wide_probe(options);
        let mut cdist: [i64; 2048] = [0i64;2048];
        for i in 0..nc
            invariant
                self.wf(),
                self@.valid(),
                nc == search::centroid_limit(self@),
                forall|j: int|
                    0 <= j < i ==> #[trigger] cdist@[j] == search::centroid_distances(
                        self@,
                        q@,
                    )[j],
        {
            let c = self.centroid(i);
            cdist[i] = distance::squared_euclidean_i16(q, &c);
        }
        assert(cdist@.take(nc as int) =~= search::centroid_distances(self@, q@));

        let mut best: [(i64, u32); 64] = [(i64::MAX, 0u32);64];
        let initial_probe = if adaptive_probe > probe {
            probe + 1
        } else {
            probe
        };
        fill_best_centroids(&cdist[0..nc], initial_probe, &mut best);
        let mut cand: [(i64, u32); 5] = [(i64::MAX, 0u32);5];
        let mut filled: usize = 0;
        proof {
            assert(cdist@.subrange(0, nc as int) =~= cdist@.take(nc as int));
            assert(search::centroid_order(self@, q@).take(initial_probe as int)
                =~= ranking::capped(search::centroid_order(self@, q@), initial_probe as nat));
            assert(best@.take(probe as int) =~= best@.take(initial_probe as int).take(
                probe as int,
            ));
            assert(search::centroid_order(self@, q@).take(probe as int)
                =~= search::centroid_order(self@, q@).take(initial_probe as int).take(
                probe as int,
            ));
            assert(cand@.take(0) =~= search::probe(self@, q@, 0));
        }
        self.scan_centroid_range(q, &best, 0, probe, &mut cand, &mut filled);
        Search { q: *q, options, cdist, best, cand, filled }
    }

    /// How many centroids take part in a search.
    fn centroid_limit(&self) -> (n: usize)
        requires
            self.wf(),
        ensures
            n == search::centroid_limit(self@),
    {
        proof {
            self.lemma_valid();
        }
        if self.num_centroids < MAX_CENTROIDS {
            self.num_centroids
        } else {
            MAX_CENTROIDS
        }
    }

    /// How many cells are probed at first.
    fn first_probe(&self, options: QueryOptions) -> (n: usize)
        requires
            self.wf(),
        ensures
            n == search::first_probe(self@, options),
    {
        let nc = self.centroid_limit();
        let wanted = if options.nprobe < 1 {
            1
        } else if options.nprobe > MAX_NPROBE {
            MAX_NPROBE
        } else {
            options.nprobe
        };
        if wanted < nc {
            wanted
        } else {
            nc
        }
    }

    /// How many cells are probed once the search has widened by centroid distance.
    fn wide_probe(&self, options: QueryOptions) -> (n: usize)
        requires
            self.wf(),
        ensures
            n == search::wide_probe(self@, options),
    {
        let nc = self.centroid_limit();
        let probe = self.first_probe(options);
        let wide: usize = if nc < 48 {
            nc
        } else {
            48
        };
        match options.repair_mode {
            RepairMode::Pattern => if probe == 10 || probe == 12 {
                wide
            } else {
                probe
            },
            RepairMode::AmbiguousCentroid => wide,
            RepairMode::Bbox => probe,
        }
    }

    /// Widens a search by centroid distance and counts the frauds.
    fn widen(&self, s: &mut Search) -> (fraud: u8)
        requires
            self.wf(),
            old(s).begun_on(self@),
            search::wide_probe(self@, old(s).options()) > search::first_probe(
                self@,
                old(s).options(),
            ),
        ensures
            fraud <= 5,
            fraud == search::frauds(
                self@,
                search::probe(
                    self@,
                    old(s).query(),
                    search::wide_probe(self@, old(s).options()),
                ),
            ),
    {
        proof {
            self.lemma_valid();
            search::lemma_centroid_order(self@, s.q@);
        }
        let nc = self.centroid_limit();
        let probe = self.first_probe(s.options);
        let adaptive_probe = self.wide_probe(s.options);
        fill_best_centroids(&s.cdist[0..nc], adaptive_probe, &mut s.best);
        proof {
            assert(s.cdist@.subrange(0, nc as int) =~= s.cdist@.take(nc as int));
            assert(search::centroid_order(self@, s.q@).take(adaptive_probe as int)
                =~= ranking::capped(search::centroid_order(self@, s.q@), adaptive_probe as nat));
        }
        self.scan_centroid_range(
            &s.q,
            &s.best,
            probe,
            adaptive_probe,
            &mut s.cand,
            &mut s.filled,
        );
        proof {
            search::lemma_probe_sound(self@, s.q@, adaptive_probe as int);
        }
        self.count_frauds(&s.cand, s.filled)
    }

    /// Lists the cells that a repair considers, at most `cap`, the nearest box
    /// first.
    fn list_repairs(&self, s: &Search, cap: usize, repair: &mut [(i64, u32); 128]) -> (rlen: usize)
        requires
            self.wf(),
            s.begun_on(self@),
            self@.cell_bounds is Some,
            0 < cap <= MAX_REPAIR_CANDIDATES,
        ensures
            rlen <= 128,
            final(repair)@.take(rlen as int) == ranking::capped(
                ranking::ranked(
                    search::repair_items(
                        self@,
                        s.query(),
                        search::centroid_order(self@, s.query()),
                        search::first_probe(self@, s.options()),
                        s.candidates(),
                        search::centroid_limit(self@) as nat,
                    ),
                ),
                cap as nat,
            ),
    {
        let nc = self.centroid_limit();
        let probe = self.first_probe(s.options);
        let ghost m = self@;
        let ghost q = s.q@;
        let ghost order = search::centroid_order(m, q);
        let ghost cand = s.candidates();
        proof {
            self.lemma_valid();
            search::lemma_centroid_order(m, q);
        }
        let mut skip: [u64; 32] = [0u64;32];
        proof {
            assert forall|c: int| 0 <= c < MAX_CENTROIDS implies !#[trigger] in_set(skip@, c) by {
                let bit = (c % 64) as u64;
                assert(0u64 & (1u64 << bit) == 0) by (bit_vector);
            }
        }
        for i in 0..probe
            invariant
                s.begun_on(m),
                probe == search::first_probe(m, s.options),
                q == s.q@,
                order == search::centroid_order(m, q),
                order.len() == search::centroid_limit(m),
                forall|j: int|
                    0 <= j < order.len() ==> (#[trigger] order[j]).1 < search::centroid_limit(m),
                forall|c: int|
                    0 <= c < MAX_CENTROIDS ==> #[trigger] in_set(skip@, c) == search::scanned(
                        order,
                        i as int,
                        c,
                    ),
        {
            let ghost before = skip@;
            let ghost ranked = if search::wide_probe(m, s.options) > probe {
                probe + 1
            } else {
                probe as int
            };
            assert(s.best@.take(ranked)[i as int] == order.take(ranked)[i as int]);
            let c = s.best[i].1 as usize;
            set_insert(&mut skip, c);
            proof {
                assert forall|k: int| 0 <= k < MAX_CENTROIDS implies #[trigger] in_set(skip@, k)
                    == search::scanned(order, i + 1, k) by {
                    if in_set(before, k) {
                        let j = choose|j: int| 0 <= j < i && (#[trigger] order[j]).1 == k;
                        assert(order[j].1 == k);
                    } else if k == c {
                        assert(order[i as int].1 == k);
                    } else if search::scanned(order, i + 1, k) {
                        let j = choose|j: int| 0 <= j < i + 1 && (#[trigger] order[j]).1 == k;
                        assert(j < i);
                    }
                }
            }
        }
        let mut rlen: usize = 0;
        assert(repair@.take(0) =~= ranking::offer_all(
            Seq::empty(),
            cap as nat,
            search::repair_items(m, q, order, probe as int, cand, 0),
        ));
        for c in 0..nc
            invariant
                self.wf(),
                m == self@,
                m.valid(),
                m.cell_bounds is Some,
                s.begun_on(m),
                q == s.q@,
                cand == s.candidates(),
                nc == search::centroid_limit(m),
                0 < cap <= MAX_REPAIR_CANDIDATES,
                rlen <= cap,
                forall|k: int|
                    0 <= k < MAX_CENTROIDS ==> #[trigger] in_set(skip@, k) == search::scanned(
                        order,
                        probe as int,
                        k,
                    ),
                repair@.take(rlen as int) == ranking::offer_all(
                    Seq::empty(),
                    cap as nat,
                    search::repair_items(m, q, order, probe as int, cand, c as nat),
                ),
        {
            let ghost items = search::repair_items(m, q, order, probe as int, cand, c as nat);
            if !set_contains(&skip, c) && self.cell(c).count != 0 {
                let bounds = self.cell_bounds(c);
                let full = s.filled == K_RERANK;
                let limit: i64 = if full {
                    s.cand[K_RERANK - 1].0
                } else {
                    i64::MAX
                };
                let lb = lower_bound_block(&s.q, &bounds, limit);
                proof {
                    search::lemma_partial_bound(q, bounds@, 0, 16);
                    assert(items.push((lb, c as u32)).drop_last() =~= items);
                }
                if !full || lb < limit {
                    ranking::insert_sorted(repair, &mut rlen, cap, lb, c as u32);
                }
            }
        }
        proof {
            ranking::lemma_nearest_is_front_of_ranking(
                search::repair_items(m, q, order, probe as int, cand, nc as nat),
                cap as nat,
            );
        }
        rlen
    }

    /// Scans the cells whose boxes are nearest until none is in reach or the
    /// fraud count is no longer ambiguous; returns the fraud count.
    fn repair_by_cell_bounds(&self, s: &mut Search, repair_min: u8, repair_max: u8) -> (fraud: u8)
        requires
            self.wf(),
            old(s).begun_on(self@),
        ensures
            fraud <= 5,
            fraud == search::frauds(self@, final(s).candidates()),
            final(s).candidates() == search::repair(
                self@,
                old(s).query(),
                old(s).candidates(),
                search::centroid_order(self@, old(s).query()),
                search::first_probe(self@, old(s).options()),
                repair_min as int,
                repair_max as int,
                search::clamp(old(s).options().repair_candidates as int, 1, 128),
            ),
            search::sound_candidates(self@, old(s).query(), final(s).candidates()),
            old(s).candidates().len() <= final(s).candidates().len(),
            forall|i: int|
                0 <= i < old(s).candidates().len() ==> (#[trigger] final(s).candidates()[i]).0
                    <= old(s).candidates()[i].0,
            self@.cell_bounds is None ==> final(s).candidates() == old(s).candidates(),
            final(s).wf(),
            final(s).query() == old(s).query(),
            final(s).options() == old(s).options(),
    {
        let ghost m = self@;
        let ghost q = s.q@;
        let ghost start = s.candidates();
        proof {
            self.lemma_valid();
            s.lemma_begun(m);
            search::lemma_probe_sound(m, q, search::first_probe(m, s.options));
            search::lemma_repair_improves(
                m,
                q,
                start,
                search::centroid_order(m, q),
                search::first_probe(m, s.options),
                repair_min as int,
                repair_max as int,
                search::clamp(s.options.repair_candidates as int, 1, 128),
            );
        }
        let mut fraud = self.count_frauds(&s.cand, s.filled);
        if !self.has_cell_bounds {
            return fraud;
        }
        let wanted = s.options.repair_candidates;
        let cap: usize = if wanted < 1 {
            1
        } else if wanted > MAX_REPAIR_CANDIDATES {
            MAX_REPAIR_CANDIDATES
        } else {
            wanted
        };
        let mut repair: [(i64, u32); 128] = [(i64::MAX, 0u32);128];
        let rlen = self.list_repairs(s, cap, &mut repair);
        let ghost list = repair@.take(rlen as int);
        proof {
            let order = search::centroid_order(m, q);
            let first = search::first_probe(m, s.options);
            let items = search::repair_items(
                m,
                q,
                order,
                first,
                start,
                search::centroid_limit(m) as nat,
            );
            search::lemma_repair_items(
                m,
                q,
                order,
                first,
                start,
                search::centroid_limit(m) as nat,
            );
            ranking::lemma_ranked(items);
            ranking::lemma_ranked_ties(items);
            assert forall|i: int| 0 <= i < list.len() implies (#[trigger] list[i]).1
                < m.cells.len() by {
                assert(list[i] == ranking::ranked(items)[i]);
                assert(items.contains(list[i]));
            }
        }
        let mut i: usize = 0;
        while i < rlen && !(s.filled == K_RERANK && repair[i].0 >= s.cand[K_RERANK - 1].0)
            invariant_except_break
                search::repair_walk(
                    m,
                    q,
                    list,
                    i as int,
                    s.candidates(),
                    repair_min as int,
                    repair_max as int,
                ) == search::repair_walk(
                    m,
                    q,
                    list,
                    0,
                    start,
                    repair_min as int,
                    repair_max as int,
                ),
            invariant
                self.wf(),
                m == self@,
                m.valid(),
                q == s.q@,
                s.options == old(s).options,
                i <= rlen <= 128,
                list == repair@.take(rlen as int),
                forall|j: int| 0 <= j < list.len() ==> (#[trigger] list[j]).1 < m.cells.len(),
                s.filled <= 5,
                search::sound_candidates(m, q, s.candidates()),
                fraud <= 5,
                fraud == search::frauds(m, s.candidates()),
            ensures
                s.candidates() == search::repair_walk(
                    m,
                    q,
                    list,
                    0,
                    start,
                    repair_min as int,
                    repair_max as int,
                ),
            decreases rlen - i,
        {
            let ghost before = s.candidates();
            assert(list[i as int] == repair@[i as int]);
            let c = repair[i].1 as usize;
            proof {
                search::lemma_scan_cell_sound(m, q, c as int, before);
            }
            self.scan_centroid(&s.q, c, &mut s.cand, &mut s.filled);
            fraud = self.count_frauds(&s.cand, s.filled);
            i = i + 1;
            if !is_ambiguous(fraud, repair_min, repair_max) {
                break;
            }
        }
        fraud
    }

    /// Decides a search, given the keys of the exact distances of its
    /// candidates; returns how many of the five nearest are frauds.
    pub fn conclude_search(&self, s: Search, keys: &[Option<u32>; 5]) -> (fraud: u8)
        requires
            self.wf(),
            s.begun_on(self@),
        ensures
            fraud <= 5,
            fraud == search::answer(self@, s.query(), s.options(), keys@),
    {
        proof {
            self.lemma_valid();
            s.lemma_begun(self@);
            search::lemma_centroid_order(self@, s.q@);
        }
        let mut s = s;
        let probe = self.first_probe(s.options);
        let adaptive_probe = self.wide_probe(s.options);
        let repair_min: u8 = if s.options.repair_min < 5 {
            s.options.repair_min
        } else {
            5
        };
        let repair_max: u8 = if s.options.repair_max < 5 {
            s.options.repair_max
        } else {
            5
        };
        let (fraud, bits) = self.rerank_candidates(keys, &s.cand, s.filled);
        match s.options.repair_mode {
            RepairMode::Pattern => {
                if adaptive_probe > probe {
                    proof {
                        let order = search::centroid_order(self@, s.q@);
                        let best = s.best@.take(probe + 1);
                        assert(best[probe - 1] == order[probe - 1]);
                        assert(best[probe as int] == order[probe as int]);
                        let a = self@.centroids[order[probe - 1].1 as int];
                        let b = self@.centroids[order[probe as int].1 as int];
                        distance::lemma_distance(s.q@, a);
                        distance::lemma_distance(s.q@, b);
                    }
                    if is_risky_pattern(probe, bits, s.best[probe - 1].0, s.best[probe].0) {
                        return self.widen(&mut s);
                    }
                }
                fraud
            },
            RepairMode::AmbiguousCentroid => {
                if adaptive_probe > probe && is_ambiguous(fraud, repair_min, repair_max) {
                    return self.widen(&mut s);
                }
                fraud
            },
            RepairMode::Bbox => {
                if is_ambiguous(fraud, repair_min, repair_max) {
                    return self.repair_by_cell_bounds(&mut s, repair_min, repair_max);
                }
                fraud
            },
        }
    }

    /// Counts the frauds among the five nearest neighbours of a vector, with the
    /// production setting. `quantize` gives the vector in fixed point, and `exact` the
    /// key of its exact distance from a vector of the index.
    pub fn query<V, Q: Fn(&V) -> [i16; 16], E: Fn(&V, &[i16; 16]) -> Option<u32>>(
        &self,
        vector: &V,
        quantize: Q,
        exact: E,
        nprobe: usize,
    ) -> (fraud: u8)
        requires
            self.wf(),
            quantize.requires((vector,)),
            forall|v: [i16; 16]| exact.requires((vector, &v)),
        ensures
            fraud <= 5,
            vector_answer(
                vector,
                quantize,
                exact,
                self@,
                search::production_options(nprobe),
                fraud as nat,
            ),
    {
        let q = quantize(vector);
        let fraud = self.query_quantized(vector, &q, exact, nprobe);
        assert(quantize.ensures((vector,), q));
        fraud
    }

    /// Same as [`Self::query`], with all knobs of the search.
    pub fn query_with_options<V, Q: Fn(&V) -> [i16; 16], E: Fn(&V, &[i16; 16]) -> Option<u32>>(
        &self,
        vector: &V,
        quantize: Q,
        exact: E,
        options: QueryOptions,
    ) -> (fraud: u8)
        requires
            self.wf(),
            quantize.requires((vector,)),
            forall|v: [i16; 16]| exact.requires((vector, &v)),
        ensures
            fraud <= 5,
            vector_answer(vector, quantize, exact, self@, options, fraud as nat),
    {
        let q = quantize(vector);
        let fraud = self.query_quantized_with_options(vector, &q, exact, options);
        assert(quantize.ensures((vector,), q));
        fraud
    }

    /// Same as [`Self::query`], for a vector that is already in fixed point: `q`.
    pub fn query_quantized<V, E: Fn(&V, &[i16; 16]) -> Option<u32>>(
        &self,
        vector: &V,
        q: &[i16; 16],
        exact: E,
        nprobe: usize,
    ) -> (fraud: u8)
        requires
            self.wf(),
            forall|v: [i16; 16]| exact.requires((vector, &v)),
        ensures
            fraud <= 5,
            quantized_answer(
                vector,
                q@,
                exact,
                self@,
                search::production_options(nprobe),
                fraud as nat,
            ),
    {
        self.query_quantized_with_options(vector, q, exact, QueryOptions::new(nprobe))
    }

    /// Same as [`Self::query_quantized`], with all knobs of the search.
    pub fn query_quantized_with_options<V, E: Fn(&V, &[i16; 16]) -> Option<u32>>(
        &self,
        vector: &V,
        q: &[i16; 16],
        exact: E,
        options: QueryOptions,
    ) -> (fraud: u8)
        requires
            self.wf(),
            forall|v: [i16; 16]| exact.requires((vector, &v)),
        ensures
            fraud <= 5,
            quantized_answer(vector, q@, exact, self@, options, fraud as nat),
    {
        let s = self.begin_search(q, options);
        let mut keys: [Option<u32>; 5] = [None;5];
        proof {
            self.lemma_valid();
            s.lemma_begun(self@);
        }
        let n = s.len();
        for i in 0..n
            invariant
                self.wf(),
                self@.valid(),
                s.wf(),
                n == s.candidates().len() <= 5,
                search::within(self@, s.candidates()),
                forall|v: [i16; 16]| exact.requires((vector, &v)),
                forall|j: int|
                    0 <= j < i ==> exact_key(
                        vector,
                        exact,
                        self@.vectors[s.candidates()[j].1 as int],
                        #[trigger] keys@[j],
                    ),
        {
            let v = self.vector(s.candidate(i) as usize);
            let key = exact(vector, &v);
            keys[i] = key;
            assert(exact_key(vector, exact, v@, key));
        }
        assert(exact_keys(vector, exact, self@, q@, options, keys@));
        self.conclude_search(s, &keys)
    }

    /// How many of the candidates in `cand[..filled]` are labelled fraud.
    fn count_frauds(&self, cand: &[(i64, u32); 5], filled: usize) -> (fraud: u8)
        requires
            self.wf(),
            filled <= 5,
            search::within(self@, cand@.take(filled as int)),
        ensures
            fraud == search::frauds(self@, cand@.take(filled as int)),
            fraud <= 5,
    {
        let ghost labels = search::labels_of(self@, cand@.take(filled as int));
        let mut fraud: u8 = 0;
        for i in 0..filled
            invariant
                self.wf(),
                filled <= 5,
                search::within(self@, cand@.take(filled as int)),
                labels == search::labels_of(self@, cand@.take(filled as int)),
                fraud == search::fraud_count(labels.take(i as int)),
                fraud <= i,
        {
            proof {
                assert(cand@.take(filled as int)[i as int] == cand@[i as int]);
                assert(labels.take(i + 1).drop_last() =~= labels.take(i as int));
            }
            if self.label(cand[i].1 as usize) == 1 {
                fraud = fraud + 1;
            }
        }
        assert(labels.take(filled as int) =~= labels);
        fraud
    }

    /// Ranks the candidates in `cand[..filled]` by the keys of their exact
    /// distances; returns how many are labelled fraud, and their pattern.
    pub fn rerank_candidates(
        &self,
        keys: &[Option<u32>; 5],
        cand: &[(i64, u32); 5],
        filled: usize,
    ) -> (r: (u8, u8))
        requires
            self.wf(),
            filled <= 5,
            search::within(self@, cand@.take(filled as int)),
        ensures
            r.0 == search::frauds(self@, cand@.take(filled as int)),
            r.0 <= 5,
            r.1 == search::fraud_pattern(self@, cand@.take(filled as int), keys@),
    {
        let mut top: [(Option<u32>, u8); 5] = [(None, 0u8);5];
        let ghost items = search::keyed_labels(self@, cand@.take(filled as int), keys@);
        for c in 0..filled
            invariant
                self.wf(),
                filled <= 5,
                search::within(self@, cand@.take(filled as int)),
                items == search::keyed_labels(self@, cand@.take(filled as int), keys@),
                top@.take(c as int) == search::rank_labels(items.take(c as int)),
        {
            proof {
                assert(cand@.take(filled as int)[c as int] == cand@[c as int]);
                assert(items.take(c + 1).drop_last() =~= items.take(c as int));
            }
            insert_topk(&mut top, c, keys[c], self.label(cand[c].1 as usize));
        }
        assert(items.take(filled as int) =~= items);
        let ghost ranked = top@.take(filled as int);
        let mut bits: u8 = 0;
        let mut i: usize = filled;
        while i > 0
            invariant
                i <= filled <= 5,
                ranked == top@.take(filled as int),
                bits == search::pattern(ranked.skip(i as int)),
                i == 5 ==> bits < 1,
                i == 4 ==> bits < 2,
                i == 3 ==> bits < 4,
                i == 2 ==> bits < 8,
                i == 1 ==> bits < 16,
                i == 0 ==> bits < 32,
            decreases i,
        {
            i = i - 1;
            proof {
                assert(ranked.skip(i as int).drop_first() =~= ranked.skip(i + 1));
                assert(ranked.skip(i as int).first() == top@[i as int]);
            }
            bits = 2 * bits + if top[i].1 == 1 {
                1
            } else {
                0
            };
        }
        assert(ranked.skip(0) =~= ranked);
        (self.count_frauds(cand, filled), bits)
    }

    /// Offers the `n` vectors from `off` on to the candidates in `cand[..filled]`.
    fn scan_run(
        &self,
        q: &[i16; 16],
        off: usize,
        n: usize,
        cand: &mut [(i64, u32); 5],
        filled: &mut usize,
    )
        requires
            self.wf(),
            off + n <= self@.vectors.len(),
            *old(filled) <= 5,
        ensures
            *final(filled) <= 5,
            final(cand)@.take(*final(filled) as int) == ranking::offer_all(
                old(cand)@.take(*old(filled) as int),
                5,
                search::candidates(self@, q@, off as int, n as nat),
            ),
            *old(filled) <= *final(filled),
            final(cand)@.skip(*final(filled) as int) == old(cand)@.skip(*final(filled) as int),
    {
        proof {
            self.lemma_valid();
        }
        let ghost m = self@;
        let ghost given = cand@;
        let ghost before = cand@.take(*filled as int);
        for j in 0..n
            invariant
                self.wf(),
                m == self@,
                m.valid(),
                off + n <= m.vectors.len() == self.num_vectors,
                *old(filled) <= *filled <= 5,
                given == old(cand)@,
                cand@.len() == given.len(),
                forall|k: int| *filled <= k < given.len() ==> cand@[k] == given[k],
                cand@.take(*filled as int) == ranking::offer_all(
                    before,
                    5,
                    search::candidates(m, q@, off as int, j as nat),
                ),
        {
            let v = self.vector(off + j);
            let d = distance::squared_euclidean_i16(q, &v);
            proof {
                let grown = search::candidates(m, q@, off as int, (j + 1) as nat);
                assert(grown.drop_last() =~= search::candidates(m, q@, off as int, j as nat));
                assert(grown.last() == (d, (off + j) as u32));
            }
            let ghost prior = cand@;
            insert_cand(cand, filled, d, (off + j) as u32);
            assert forall|k: int| *filled <= k < given.len() implies cand@[k] == given[k] by {
                assert(cand@.skip(*filled as int)[k - *filled] == prior.skip(
                    *filled as int,
                )[k - *filled]);
            }
        }
    }
}

/// `exact` may answer `key` for the vector `v` of the index.
pub open spec fn exact_key<V, E: Fn(&V, &[i16; 16]) -> Option<u32>>(
    vector: &V,
    exact: E,
    v: Seq<i16>,
    key: Option<u32>,
) -> bool {
    exists|a: [i16; 16]| #[trigger] exact.ensures((vector, &a), key) && a@ == v
}

/// `keys` are what `exact` may answer for the first candidates of a search.
pub open spec fn exact_keys<V, E: Fn(&V, &[i16; 16]) -> Option<u32>>(
    vector: &V,
    exact: E,
    m: layout::IndexView,
    q: Seq<i16>,
    options: QueryOptions,
    keys: Seq<Option<u32>>,
) -> bool {
    let cand = search::probe(m, q, search::first_probe(m, options));
    forall|i: int|
        0 <= i < cand.len() ==> exact_key(
            vector,
            exact,
            m.vectors[cand[i].1 as int],
            #[trigger] keys[i],
        )
}

/// `fraud` is what a search for `q` answers, by keys that `exact` may answer.
pub open spec fn quantized_answer<V, E: Fn(&V, &[i16; 16]) -> Option<u32>>(
    vector: &V,
    q: Seq<i16>,
    exact: E,
    m: layout::IndexView,
    options: QueryOptions,
    fraud: nat,
) -> bool {
    exists|keys: Seq<Option<u32>>|
        {
            &&& #[trigger] exact_keys(vector, exact, m, q, options, keys)
            &&& fraud == search::answer(m, q, options, keys)
        }
}

/// `fraud` is what a search for a vector answers, in a fixed point that `quantize` may
/// give and by keys that `exact` may answer.
pub open spec fn vector_answer<
    V,
    Q: Fn(&V) -> [i16; 16],
    E: Fn(&V, &[i16; 16]) -> Option<u32>,
>(
    vector: &V,
    quantize: Q,
    exact: E,
    m: layout::IndexView,
    options: QueryOptions,
    fraud: nat,
) -> bool {
    exists|q: [i16; 16]|
        {
            &&& #[trigger] quantize.ensures((vector,), q)
            &&& quantized_answer(vector, q@, exact, m, options, fraud)
        }
}

/// Two ways to compute exact distances give the same key for the same vector.
pub open spec fn same_keys<
    V,
    E: Fn(&V, &[i16; 16]) -> Option<u32>,
    G: Fn(&V, &[i16; 16]) -> Option<u32>,
>(vector: &V, e: E, g: G) -> bool {
    forall|a: [i16; 16], b: [i16; 16], x: Option<u32>, y: Option<u32>|
        #[trigger] e.ensures((vector, &a), x) && #[trigger] g.ensures((vector, &b), y) && a@ == b@
            ==> x == y
}

/// A search answers the same by keys that agree for the same vector.
pub proof fn lemma_same_keys_same_answer<
    V,
    E: Fn(&V, &[i16; 16]) -> Option<u32>,
    G: Fn(&V, &[i16; 16]) -> Option<u32>,
>(
    vector: &V,
    e: E,
    g: G,
    m: layout::IndexView,
    q: Seq<i16>,
    options: QueryOptions,
    e_keys: Seq<Option<u32>>,
    g_keys: Seq<Option<u32>>,
)
    requires
        same_keys(vector, e, g),
        exact_keys(vector, e, m, q, options, e_keys),
        exact_keys(vector, g, m, q, options, g_keys),
    ensures
        search::answer(m, q, options, e_keys) == search::answer(m, q, options, g_keys),
{
    let cand = search::probe(m, q, search::first_probe(m, options));
    assert forall|i: int| 0 <= i < cand.len() implies #[trigger] e_keys[i] == g_keys[i] by {
        let v = m.vectors[cand[i].1 as int];
        assert(exact_key(vector, e, v, e_keys[i]));
        assert(exact_key(vector, g, v, g_keys[i]));
        let a = choose|a: [i16; 16]| #[trigger] e.ensures((vector, &a), e_keys[i]) && a@ == v;
        let b = choose|b: [i16; 16]| #[trigger] g.ensures((vector, &b), g_keys[i]) && b@ == v;
        assert(e.ensures((vector, &a), e_keys[i]) && g.ensures((vector, &b), g_keys[i]));
    }
    assert(search::keyed_labels(m, cand, e_keys) =~= search::keyed_labels(m, cand, g_keys));
}

/// The entry points agree: where quantizing a vector gives `q` and its exact distances
/// are a matter of the vectors alone, a search answers the same through each of them.
pub proof fn lemma_entry_points_agree<
    V,
    Q: Fn(&V) -> [i16; 16],
    E: Fn(&V, &[i16; 16]) -> Option<u32>,
>(
    vector: &V,
    q: Seq<i16>,
    quantize: Q,
    exact: E,
    m: layout::IndexView,
    nprobe: usize,
    query: nat,
    query_with_options: nat,
    query_quantized: nat,
    query_quantized_with_options: nat,
)
    requires
        forall|a: [i16; 16]| #[trigger] quantize.ensures((vector,), a) ==> a@ == q,
        same_keys(vector, exact, exact),
        vector_answer(
            vector,
            quantize,
            exact,
            m,
            search::production_options(nprobe),
            query,
        ),
        vector_answer(
            vector,
            quantize,
            exact,
            m,
            search::production_options(nprobe),
            query_with_options,
        ),
        quantized_answer(
            vector,
            q,
            exact,
            m,
            search::production_options(nprobe),
            query_quantized,
        ),
        quantized_answer(
            vector,
            q,
            exact,
            m,
            search::production_options(nprobe),
            query_quantized_with_options,
        ),
    ensures
        query == query_quantized,
        query_with_options == query_quantized,
        query_quantized_with_options == query_quantized,
{
    let options = search::production_options(nprobe);
    lemma_vector_answer(vector, q, quantize, exact, m, options, query);
    lemma_vector_answer(vector, q, quantize, exact, m, options, query_with_options);
    lemma_one_answer(vector, q, exact, m, options, query, query_quantized);
    lemma_one_answer(vector, q, exact, m, options, query_with_options, query_quantized);
    lemma_one_answer(vector, q, exact, m, options, query_quantized_with_options, query_quantized);
}

proof fn lemma_vector_answer<
    V,
    Q: Fn(&V) -> [i16; 16],
    E: Fn(&V, &[i16; 16]) -> Option<u32>,
>(
    vector: &V,
    q: Seq<i16>,
    quantize: Q,
    exact: E,
    m: layout::IndexView,
    options: QueryOptions,
    fraud: nat,
)
    requires
        forall|a: [i16; 16]| #[trigger] quantize.ensures((vector,), a) ==> a@ == q,
        vector_answer(vector, quantize, exact, m, options, fraud),
    ensures
        quantized_answer(vector, q, exact, m, options, fraud),
{
    let a = choose|a: [i16; 16]|
        {
            &&& #[trigger] quantize.ensures((vector,), a)
            &&& quantized_answer(vector, a@, exact, m, options, fraud)
        };
    assert(a@ == q);
}

/// Where exact distances are a matter of the vectors alone, a search has one answer.
pub proof fn lemma_one_answer<V, E: Fn(&V, &[i16; 16]) -> Option<u32>>(
    vector: &V,
    q: Seq<i16>,
    exact: E,
    m: layout::IndexView,
    options: QueryOptions,
    one: nat,
    other: nat,
)
    requires
        same_keys(vector, exact, exact),
        quantized_answer(vector, q, exact, m, options, one),
        quantized_answer(vector, q, exact, m, options, other),
    ensures
        one == other,
{
    let a = choose|keys: Seq<Option<u32>>|
        {
            &&& #[trigger] exact_keys(vector, exact, m, q, options, keys)
            &&& one == search::answer(m, q, options, keys)
        };
    let b = choose|keys: Seq<Option<u32>>|
        {
            &&& #[trigger] exact_keys(vector, exact, m, q, options, keys)
            &&& other == search::answer(m, q, options, keys)
        };
    lemma_same_keys_same_answer(vector, exact, exact, m, q, options, a, b);
}

/// The numbers that a bit set holds.
pub open spec fn in_set(words: Seq<u64>, c: int) -> bool {
    words[c / 64] & (1u64 << ((c % 64) as u64)) != 0
}

/// Adds the number `c` to a bit set.
fn set_insert(words: &mut [u64; 32], c: usize)
    requires
        c < MAX_CENTROIDS,
    ensures
        forall|i: int|
            0 <= i < MAX_CENTROIDS ==> #[trigger] in_set(final(words)@, i) == (in_set(
                old(words)@,
                i,
            ) || i == c),
{
    let ghost before = words@;
    let bit: u64 = (c % 64) as u64;
    let word = words[c / 64];
    words[c / 64] = word | (1u64 << bit);
    assert forall|i: int| 0 <= i < MAX_CENTROIDS implies #[trigger] in_set(words@, i) == (in_set(
        before,
        i,
    ) || i == c) by {
        let other = (i % 64) as u64;
        assert((word | (1u64 << bit)) & (1u64 << other) != 0 <==> (word & (1u64 << other) != 0
            || bit == other)) by (bit_vector)
            requires
                bit < 64,
                other < 64,
        ;
    }
}

/// Whether a bit set holds the number `c`.
fn set_contains(words: &[u64; 32], c: usize) -> (r: bool)
    requires
        c < MAX_CENTROIDS,
    ensures
        r == in_set(words@, c as int),
{
    words[c / 64] & (1u64 << ((c % 64) as u64)) != 0
}

/// Enters a label with the key of its exact distance into the ranking in
/// `arr[..len]`.
fn insert_topk(arr: &mut [(Option<u32>, u8); 5], len: usize, key: Option<u32>, label: u8)
    requires
        len < 5,
    ensures
        final(arr)@.take(len + 1) == old(arr)@.take(len as int).insert(
            search::key_position(old(arr)@.take(len as int), key),
            (key, label),
        ),
{
    let ghost start = arr@;
    let ghost list = arr@.take(len as int);
    assert(list.take(len as int) =~= list);
    let mut i: usize = len;
    while i > 0 && is_farther(arr[i - 1].0, key)
        invariant
            i <= len < 5,
            start.len() == 5,
            list == start.take(len as int),
            forall|j: int| 0 <= j < i ==> #[trigger] arr@[j] == start[j],
            forall|j: int| i < j <= len ==> #[trigger] arr@[j] == start[j - 1],
            search::key_position(list, key) == search::key_position(list.take(i as int), key),
        decreases i,
    {
        proof {
            assert(list.take(i as int).drop_last() =~= list.take(i - 1));
        }
        arr[i] = arr[i - 1];
        i = i - 1;
    }
    proof {
        assert(search::key_position(list.take(i as int), key) == i);
    }
    arr[i] = (key, label);
    assert(arr@.take(len + 1) =~= list.insert(i as int, (key, label)));
}

/// Whether the exact distance with key `a` is greater than that with key `b`.
fn is_farther(a: Option<u32>, b: Option<u32>) -> (r: bool)
    ensures
        r == search::farther(a, b),
{
    match (a, b) {
        (Some(x), Some(y)) => x > y,
        _ => false,
    }
}

/// Whether the pattern calls for more probes, given the distances of the last
/// centroid probed and of the next one.
pub fn is_risky_pattern(probe: usize, bits: u8, centroid_probe: i64, centroid_next: i64) -> (r:
    bool)
    requires
        i64::MIN <= centroid_next - centroid_probe <= i64::MAX,
    ensures
        r == search::risky(
            probe as int,
            bits as int,
            centroid_probe as int,
            centroid_next as int,
        ),
{
    let centroid_gap: i64 = centroid_next - centroid_probe;
    if probe == 10 {
        return match bits {
            0b00110 => centroid_gap <= 500_000,
            0b01010 => centroid_gap <= 500_000,
            0b01100 => centroid_gap <= 600_000,
            0b10010 => centroid_gap <= 1_200_000,
            0b10011 => centroid_gap <= 500_000,
            0b10110 => centroid_gap <= 700_000,
            0b11100 => centroid_gap <= 150_000,
            _ => false,
        };
    }
    if probe == 12 {
        return match bits {
            0b00110 => centroid_gap <= 1_600_000,
            0b01010 => centroid_gap <= 3_800_000,
            0b01100 => centroid_gap <= 1_000_000,
            0b10010 => centroid_gap <= 1_800_000,
            0b10011 => centroid_gap <= 500_000,
            0b11100 => centroid_gap <= 150_000,
            _ => false,
        };
    }
    false
}

/// Whether the fraud count calls for a repair.
pub fn is_ambiguous(fraud: u8, repair_min: u8, repair_max: u8) -> (r: bool)
    ensures
        r == search::ambiguous(fraud as int, repair_min as int, repair_max as int),
{
    repair_min <= repair_max && fraud >= repair_min && fraud <= repair_max
}

/// Ranks the centroids by distance into the front of `best`, at most `cap` of
/// them.
pub fn fill_best_centroids(cdist: &[i64], cap: usize, best: &mut [(i64, u32); 64])
    requires
        cap <= MAX_NPROBE,
        cdist.len() <= u32::MAX,
        0 < cap || cdist.len() == 0,
    ensures
        final(best)@.take(search::least(cap as int, cdist@.len() as int)) == ranking::capped(
            ranking::ranked(search::numbered(cdist@)),
            cap as nat,
        ),
        final(best)@.skip(search::least(cap as int, cdist@.len() as int)) == old(best)@.skip(
            search::least(cap as int, cdist@.len() as int),
        ),
{
    let mut len: usize = 0;
    let ghost given = best@;
    let ghost items = search::numbered(cdist@);
    for i in 0..cdist.len()
        invariant
            cap <= MAX_NPROBE,
            cdist.len() <= u32::MAX,
            0 < cap || cdist.len() == 0,
            items == search::numbered(cdist@),
            len == search::least(cap as int, i as int),
            best@.take(len as int) == ranking::offer_all(
                Seq::empty(),
                cap as nat,
                items.take(i as int),
            ),
            best@.len() == given.len(),
            forall|j: int| len <= j < given.len() ==> best@[j] == given[j],
    {
        proof {
            assert(items.take(i + 1).drop_last() =~= items.take(i as int));
        }
        let ghost before = best@;
        ranking::insert_sorted(best, &mut len, cap, cdist[i], i as u32);
        assert forall|j: int| len <= j < given.len() implies best@[j] == given[j] by {
            assert(best@.skip(len as int)[j - len] == before.skip(len as int)[j - len]);
        }
    }
    proof {
        assert(items.take(cdist@.len() as int) =~= items);
        ranking::lemma_nearest_is_front_of_ranking(items, cap as nat);
        assert(best@.take(len as int) == ranking::offer_all(Seq::empty(), cap as nat, items));
    }
}

/// Squared distance from `q` to a box, or the first partial sum of it that
/// reaches `limit`.
pub fn lower_bound_block_scalar(q: &[i16; 16], block: &BlockBounds, limit: i64) -> (bound: i64)
    ensures
        exists|n: nat|
            {
                &&& 1 <= n <= 16
                &&& bound == #[trigger] search::partial_bound(q@, block@, n)
                &&& n == 16 || bound >= limit
                &&& forall|k: nat|
                    1 <= k < n ==> #[trigger] search::partial_bound(q@, block@, k) < limit
            },
{
    let mut acc: i64 = 0;
    let mut d: usize = 0;
    while d < 15
        invariant
            d <= 15,
            acc == search::partial_bound(q@, block@, d as nat),
            0 <= acc <= 4_294_836_225 * d,
            forall|k: nat|
                1 <= k <= d ==> #[trigger] search::partial_bound(q@, block@, k) < limit,
        decreases 15 - d,
    {
        acc = acc + square_gap(q[d], block.min[d], block.max[d]);
        d = d + 1;
        if acc >= limit {
            assert(acc == search::partial_bound(q@, block@, d as nat));
            return acc;
        }
    }
    acc = acc + square_gap(q[15], block.min[15], block.max[15]);
    assert(acc == search::partial_bound(q@, block@, 16));
    acc
}

/// Square of how far the coordinate `x` lies outside `[lo, hi]`.
fn square_gap(x: i16, lo: i16, hi: i16) -> (square: i64)
    ensures
        square == search::gap(x, lo, hi) * search::gap(x, lo, hi),
        0 <= square <= 4_294_836_225,
{
    let diff: i64 = if x < lo {
        lo as i64 - x as i64
    } else if x > hi {
        x as i64 - hi as i64
    } else {
        0
    };
    proof {
        search::lemma_gap(x, lo, hi);
    }
    diff * diff
}

/// Squared distance from `q` to a box where that is less than `limit`, and
/// otherwise some value in `[limit, distance]`.
pub fn lower_bound_block(q: &[i16; 16], block: &BlockBounds, limit: i64) -> (bound: i64)
    ensures
        bound <= search::lower_bound(q@, block@),
        bound < limit <==> search::lower_bound(q@, block@) < limit,
        bound < limit ==> bound == search::lower_bound(q@, block@),
{
    let bound = lower_bound_block_scalar(q, block, limit);
    proof {
        let n = choose|n: nat|
            {
                &&& 1 <= n <= 16
                &&& bound == #[trigger] search::partial_bound(q@, block@, n)
                &&& n == 16 || bound >= limit
                &&& forall|k: nat|
                    1 <= k < n ==> #[trigger] search::partial_bound(q@, block@, k) < limit
            };
        search::lemma_partial_bound(q@, block@, n, 16);
    }
    bound
}

/// Offers vector `idx` at distance `dist` to the candidates in `arr[..len]`.
pub fn insert_cand(arr: &mut [(i64, u32); 5], len: &mut usize, dist: i64, idx: u32)
    requires
        *old(len) <= 5,
    ensures
        *final(len) == if *old(len) < 5 {
            *old(len) + 1
        } else {
            5
        },
        final(arr)@.take(*final(len) as int) == ranking::capped(
            ranking::insert_entry(old(arr)@.take(*old(len) as int), (dist, idx)),
            5,
        ),
        final(arr)@.skip(*final(len) as int) == old(arr)@.skip(*final(len) as int),
{
    ranking::insert_sorted(arr, len, K_RERANK, dist, idx);
}

/// A file is searched as what it holds, and is refused exactly where it is no index.
pub proof fn lemma_opened<'a>(data: &'a [u8], opened: Option<IvfIndex<'a>>)
    requires
        call_ensures(IvfIndex::<'a>::from_bytes, (data,), opened),
    ensures
        opened is Some <==> layout::is_index(data@),
        opened matches Some(index) ==> index.wf() && index@ == layout::contents(data@),
{
}

} // verus!
