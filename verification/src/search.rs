//! What a nearest-neighbour search over an index yields, and why pruning does
//! not change it.
use crate::distance;
use crate::layout;
use crate::layout::{Bounds, Cell, IndexView};
use crate::ranking;
use vstd::prelude::*;

verus! {

/// How far the coordinate `x` lies outside `[lo, hi]`.
pub open spec fn gap(x: i16, lo: i16, hi: i16) -> int {
    if x < lo {
        lo - x
    } else if x > hi {
        x - hi
    } else {
        0
    }
}

/// Squared distance from `q` to the box `b` over the first `n` coordinates.
pub open spec fn partial_bound(q: Seq<i16>, b: Bounds, n: nat) -> int
    decreases n,
{
    if n == 0 {
        0
    } else {
        partial_bound(q, b, (n - 1) as nat) + gap(q[n - 1], b.min[n - 1], b.max[n - 1]) * gap(
            q[n - 1],
            b.min[n - 1],
            b.max[n - 1],
        )
    }
}

/// Squared distance from `q` to the box `b`.
pub open spec fn lower_bound(q: Seq<i16>, b: Bounds) -> int {
    partial_bound(q, b, 16)
}

/// The box `b` holds the vector `v`.
pub open spec fn holds(b: Bounds, v: Seq<i16>) -> bool {
    forall|d: int| 0 <= d < 16 ==> b.min[d] <= #[trigger] v[d] <= b.max[d]
}

/// The squared gap lies in `[0, 65535²]`.
pub proof fn lemma_gap(x: i16, lo: i16, hi: i16)
    ensures
        0 <= gap(x, lo, hi) * gap(x, lo, hi) <= 4_294_836_225,
{
    let g = gap(x, lo, hi);
    assert(0 <= g * g <= 4_294_836_225) by (nonlinear_arith)
        requires
            0 <= g <= 65535,
    ;
}

/// Partial bounds grow with the number of coordinates.
pub proof fn lemma_partial_bound(q: Seq<i16>, b: Bounds, m: nat, n: nat)
    requires
        m <= n,
    ensures
        0 <= partial_bound(q, b, m) <= partial_bound(q, b, n) <= 4_294_836_225 * n,
    decreases n,
{
    if n > 0 {
        lemma_gap(q[n - 1], b.min[n - 1], b.max[n - 1]);
        if m < n {
            lemma_partial_bound(q, b, m, (n - 1) as nat);
        } else {
            lemma_partial_bound(q, b, (n - 1) as nat, (n - 1) as nat);
        }
    }
}

proof fn lemma_partial_bound_below_distance(q: Seq<i16>, b: Bounds, v: Seq<i16>, n: nat)
    requires
        n <= 16,
        holds(b, v),
    ensures
        partial_bound(q, b, n) <= distance::partial_distance(q, v, n),
    decreases n,
{
    if n > 0 {
        lemma_partial_bound_below_distance(q, b, v, (n - 1) as nat);
        let i = n - 1;
        let g = gap(q[i], b.min[i], b.max[i]);
        let d = q[i] - v[i];
        assert(b.min[i] <= v[i] <= b.max[i]);
        assert(g * g <= d * d) by (nonlinear_arith)
            requires
                0 <= g,
                g <= d || g <= -d,
        ;
    }
}

/// No vector of a box is nearer than the box.
pub proof fn lemma_lower_bound(q: Seq<i16>, b: Bounds, v: Seq<i16>)
    requires
        holds(b, v),
    ensures
        lower_bound(q, b) <= distance::distance(q, v),
{
    lemma_partial_bound_below_distance(q, b, v, 16);
}

/// How many candidates a search keeps.
pub const K_RERANK: usize = 5;

/// Vector number `i` as a candidate for the query `q`.
pub open spec fn candidate(m: IndexView, q: Seq<i16>, i: int) -> (i64, u32) {
    (distance::distance(q, m.vectors[i]) as i64, i as u32)
}

/// The `n` vectors from `off` on as candidates.
pub open spec fn candidates(m: IndexView, q: Seq<i16>, off: int, n: nat) -> Seq<(i64, u32)> {
    Seq::new(n, |j: int| candidate(m, q, off + j))
}

/// How many vectors the block `r` of a cell has.
pub open spec fn block_len(cell: Cell, r: int) -> nat {
    if r * 128 >= cell.count {
        0
    } else if cell.count - r * 128 >= 128 {
        128
    } else {
        (cell.count - r * 128) as nat
    }
}

/// A box is out of reach when the candidates are complete and none of them is
/// farther away than the box.
pub open spec fn out_of_reach(q: Seq<i16>, b: Bounds, cand: Seq<(i64, u32)>) -> bool {
    cand.len() == 5 && lower_bound(q, b) >= cand[4].0
}

/// The candidates after the first `r` blocks of a cell were scanned: each block
/// is passed over when its box is out of reach, else all its vectors are offered.
pub open spec fn scan_blocks(
    m: IndexView,
    q: Seq<i16>,
    cell: Cell,
    r: nat,
    cand: Seq<(i64, u32)>,
) -> Seq<(i64, u32)>
    decreases r,
{
    if r == 0 {
        cand
    } else {
        let before = scan_blocks(m, q, cell, (r - 1) as nat, cand);
        if out_of_reach(q, m.blocks[cell.block_start + (r - 1)], before) {
            before
        } else {
            ranking::offer_all(
                before,
                5,
                candidates(m, q, cell.start + (r - 1) * 128, block_len(cell, r - 1)),
            )
        }
    }
}

/// The candidates after cell number `c` was scanned.
pub open spec fn scan_cell(m: IndexView, q: Seq<i16>, c: int, cand: Seq<(i64, u32)>) -> Seq<
    (i64, u32),
> {
    scan_blocks(m, q, m.cells[c], m.cells[c].block_count as nat, cand)
}

/// The blocks behind the last vector of a cell change nothing.
pub proof fn lemma_scan_blocks_behind(
    m: IndexView,
    q: Seq<i16>,
    cell: Cell,
    r: nat,
    n: nat,
    cand: Seq<(i64, u32)>,
)
    requires
        r <= n,
        r * 128 >= cell.count,
    ensures
        scan_blocks(m, q, cell, n, cand) == scan_blocks(m, q, cell, r, cand),
    decreases n,
{
    if r < n {
        lemma_scan_blocks_behind(m, q, cell, r, (n - 1) as nat, cand);
        assert(block_len(cell, n - 1) == 0);
    }
}

/// Largest number of centroids that a search looks at.
pub const MAX_CENTROIDS: usize = 2048;

/// Largest number of cells that a search probes.
pub const MAX_NPROBE: usize = 64;

/// Largest number of cells that a repair considers.
pub const MAX_REPAIR_CANDIDATES: usize = 128;

/// How a search widens when its first answer is doubtful.
#[derive(Clone, Copy, Debug, Eq, PartialEq, Structural)]
pub enum RepairMode {
    /// Widen on hand-tuned risky patterns.
    Pattern,
    /// Widen by centroid distance whenever the fraud count is ambiguous.
    AmbiguousCentroid,
    /// Widen ambiguous cases by the distance to the boxes around the cells.
    Bbox,
}

/// Knobs of a search.
#[derive(Clone, Copy, Debug)]
pub struct QueryOptions {
    pub nprobe: usize,
    pub repair_mode: RepairMode,
    pub repair_min: u8,
    pub repair_max: u8,
    pub repair_candidates: usize,
}

/// The production setting: widen on risky patterns.
pub open spec fn production_options(nprobe: usize) -> QueryOptions {
    QueryOptions {
        nprobe,
        repair_mode: RepairMode::Pattern,
        repair_min: 1,
        repair_max: 4,
        repair_candidates: 64,
    }
}

impl QueryOptions {
    /// The production setting: widen on risky patterns.
    pub fn new(nprobe: usize) -> (options: Self)
        ensures
            options == production_options(nprobe),
    {
        QueryOptions {
            nprobe,
            repair_mode: RepairMode::Pattern,
            repair_min: 1,
            repair_max: 4,
            repair_candidates: 64,
        }
    }
}

/// The lesser of two numbers.
pub open spec fn least(a: int, b: int) -> int {
    if a <= b {
        a
    } else {
        b
    }
}

/// `x` brought into `[lo, hi]`.
pub open spec fn clamp(x: int, lo: int, hi: int) -> int {
    if x < lo {
        lo
    } else if x > hi {
        hi
    } else {
        x
    }
}

/// How many centroids take part in a search.
pub open spec fn centroid_limit(m: IndexView) -> int {
    least(m.centroids.len() as int, 2048)
}

/// How many cells are probed at first.
pub open spec fn first_probe(m: IndexView, options: QueryOptions) -> int {
    least(clamp(options.nprobe as int, 1, 64), centroid_limit(m))
}

/// How many cells are probed once the search has widened by centroid distance.
pub open spec fn wide_probe(m: IndexView, options: QueryOptions) -> int {
    let probe = first_probe(m, options);
    match options.repair_mode {
        RepairMode::Pattern => if probe == 10 || probe == 12 {
            least(48, centroid_limit(m))
        } else {
            probe
        },
        RepairMode::AmbiguousCentroid => least(48, centroid_limit(m)),
        RepairMode::Bbox => probe,
    }
}

/// Distances numbered by position.
pub open spec fn numbered(distances: Seq<i64>) -> Seq<(i64, u32)> {
    Seq::new(distances.len(), |i: int| (distances[i], i as u32))
}

/// Distances from `q` to the centroids that take part.
pub open spec fn centroid_distances(m: IndexView, q: Seq<i16>) -> Seq<i64> {
    Seq::new(
        centroid_limit(m) as nat,
        |i: int| distance::distance(q, m.centroids[i]) as i64,
    )
}

/// The centroids in ascending order of distance from `q`, equals by number.
pub open spec fn centroid_order(m: IndexView, q: Seq<i16>) -> Seq<(i64, u32)> {
    ranking::ranked(numbered(centroid_distances(m, q)))
}

/// The candidates after the cells of the first `n` centroids of `order` were
/// scanned in that order.
pub open spec fn scan_cells(
    m: IndexView,
    q: Seq<i16>,
    order: Seq<(i64, u32)>,
    n: nat,
) -> Seq<(i64, u32)>
    decreases n,
{
    if n == 0 {
        Seq::empty()
    } else {
        scan_cell(m, q, order[n - 1].1 as int, scan_cells(m, q, order, (n - 1) as nat))
    }
}

/// The candidates of the `n` cells nearest to `q`.
pub open spec fn probe(m: IndexView, q: Seq<i16>, n: int) -> Seq<(i64, u32)> {
    scan_cells(m, q, centroid_order(m, q), n as nat)
}

/// Every candidate is a vector of the index.
pub open spec fn within(m: IndexView, cand: Seq<(i64, u32)>) -> bool {
    forall|i: int| 0 <= i < cand.len() ==> (#[trigger] cand[i]).1 < m.vectors.len()
}

/// The labels of the candidates.
pub open spec fn labels_of(m: IndexView, cand: Seq<(i64, u32)>) -> Seq<u8> {
    Seq::new(cand.len(), |i: int| m.labels[cand[i].1 as int])
}

/// How many of the labels say fraud.
pub open spec fn fraud_count(labels: Seq<u8>) -> nat
    decreases labels.len(),
{
    if labels.len() == 0 {
        0
    } else {
        fraud_count(labels.drop_last()) + if labels.last() == 1 {
            1nat
        } else {
            0nat
        }
    }
}

/// How many of the candidates are labelled fraud.
pub open spec fn frauds(m: IndexView, cand: Seq<(i64, u32)>) -> nat {
    fraud_count(labels_of(m, cand))
}

/// A fraud count in `[min, max]` calls for a repair.
pub open spec fn ambiguous(fraud: int, min: int, max: int) -> bool {
    min <= fraud <= max
}

/// An exact distance as a key that orders as the distance does. The key of what
/// is not a number is missing and compares with nothing.
pub open spec fn farther(a: Option<u32>, b: Option<u32>) -> bool {
    a is Some && b is Some && a->0 > b->0
}

/// Where a label with the given key enters a ranking: right behind the last one
/// that is not farther.
pub open spec fn key_position(ranking: Seq<(Option<u32>, u8)>, key: Option<u32>) -> int
    decreases ranking.len(),
{
    if ranking.len() == 0 {
        0
    } else if !farther(ranking.last().0, key) {
        ranking.len() as int
    } else {
        key_position(ranking.drop_last(), key)
    }
}

/// Labels ranked by key, each entered where it belongs in turn.
pub open spec fn rank_labels(items: Seq<(Option<u32>, u8)>) -> Seq<(Option<u32>, u8)>
    decreases items.len(),
{
    if items.len() == 0 {
        Seq::empty()
    } else {
        let before = rank_labels(items.drop_last());
        before.insert(key_position(before, items.last().0), items.last())
    }
}

proof fn lemma_key_position(ranking: Seq<(Option<u32>, u8)>, key: Option<u32>)
    ensures
        0 <= key_position(ranking, key) <= ranking.len(),
        forall|i: int|
            key_position(ranking, key) <= i < ranking.len() ==> farther(
                (#[trigger] ranking[i]).0,
                key,
            ),
        key_position(ranking, key) > 0 ==> !farther(
            ranking[key_position(ranking, key) - 1].0,
            key,
        ),
    decreases ranking.len(),
{
    if ranking.len() > 0 && farther(ranking.last().0, key) {
        lemma_key_position(ranking.drop_last(), key);
        assert forall|i: int| key_position(ranking, key) <= i < ranking.len() implies farther(
            (#[trigger] ranking[i]).0,
            key,
        ) by {
            if i < ranking.len() - 1 {
                assert(ranking.drop_last()[i] == ranking[i]);
            }
        }
    }
}

/// Ranking neither loses nor invents a label, and where every distance is a number
/// no label stands before a nearer one.
pub proof fn lemma_rank_labels(items: Seq<(Option<u32>, u8)>)
    ensures
        rank_labels(items).len() == items.len(),
        rank_labels(items).to_multiset() == items.to_multiset(),
        (forall|i: int| 0 <= i < items.len() ==> (#[trigger] items[i]).0 is Some) ==> (forall|
            i: int,
            j: int,
        |
            0 <= i < j < items.len() ==> !farther(
                (#[trigger] rank_labels(items)[i]).0,
                (#[trigger] rank_labels(items)[j]).0,
            )) && (forall|i: int|
            0 <= i < items.len() ==> (#[trigger] rank_labels(items)[i]).0 is Some),
    decreases items.len(),
{
    if items.len() > 0 {
        let front = items.drop_last();
        let before = rank_labels(front);
        let entry = items.last();
        let at = key_position(before, entry.0);
        lemma_rank_labels(front);
        lemma_key_position(before, entry.0);
        let after = rank_labels(items);
        assert(front.push(entry) =~= items);
        vstd::seq_lib::to_multiset_insert(before, at, entry);
        vstd::seq_lib::to_multiset_build(front, entry);
        if forall|i: int| 0 <= i < items.len() ==> (#[trigger] items[i]).0 is Some {
            assert forall|i: int| 0 <= i < front.len() implies (#[trigger] front[i]).0 is Some by {
                assert(front[i] == items[i]);
            }
            assert(items[items.len() - 1].0 is Some);
            assert forall|i: int, j: int| 0 <= i < j < items.len() implies !farther(
                (#[trigger] after[i]).0,
                (#[trigger] after[j]).0,
            ) by {
                let p = if i < at {
                    i
                } else {
                    i - 1
                };
                let r = if j < at {
                    j
                } else {
                    j - 1
                };
                if i == at {
                    assert(after[j] == before[r]);
                    assert(farther(before[r].0, entry.0));
                } else if j == at {
                    assert(after[i] == before[i]);
                    assert(!farther(before[at - 1].0, entry.0));
                } else {
                    assert(after[i] == before[p] && after[j] == before[r]);
                }
            }
        }
    } else {
        assert(rank_labels(items) =~= items);
    }
}

/// One bit per ranked label, the nearest lowest: set where it says fraud.
pub open spec fn pattern(ranking: Seq<(Option<u32>, u8)>) -> nat
    decreases ranking.len(),
{
    if ranking.len() == 0 {
        0
    } else {
        (if ranking.first().1 == 1 {
            1nat
        } else {
            0nat
        }) + 2 * pattern(ranking.drop_first())
    }
}

/// The candidates' labels, each with the key of its exact distance.
pub open spec fn keyed_labels(
    m: IndexView,
    cand: Seq<(i64, u32)>,
    keys: Seq<Option<u32>>,
) -> Seq<(Option<u32>, u8)> {
    Seq::new(cand.len(), |i: int| (keys[i], m.labels[cand[i].1 as int]))
}

/// The fraud pattern of the candidates, ranked by exact distance.
pub open spec fn fraud_pattern(
    m: IndexView,
    cand: Seq<(i64, u32)>,
    keys: Seq<Option<u32>>,
) -> nat {
    pattern(rank_labels(keyed_labels(m, cand, keys)))
}

/// The largest gap to the next centroid at which a pattern is risky, for the
/// probe counts that were tuned.
pub open spec fn risky_gap(probe: int, bits: int) -> Option<int> {
    if probe == 10 {
        if bits == 0b00110 || bits == 0b01010 || bits == 0b10011 {
            Some(500_000)
        } else if bits == 0b01100 {
            Some(600_000)
        } else if bits == 0b10010 {
            Some(1_200_000)
        } else if bits == 0b10110 {
            Some(700_000)
        } else if bits == 0b11100 {
            Some(150_000)
        } else {
            None
        }
    } else if probe == 12 {
        if bits == 0b00110 {
            Some(1_600_000)
        } else if bits == 0b01010 {
            Some(3_800_000)
        } else if bits == 0b01100 {
            Some(1_000_000)
        } else if bits == 0b10010 {
            Some(1_800_000)
        } else if bits == 0b10011 {
            Some(500_000)
        } else if bits == 0b11100 {
            Some(150_000)
        } else {
            None
        }
    } else {
        None
    }
}

/// The pattern calls for more probes, given the distances of the last centroid
/// probed and of the next one.
pub open spec fn risky(probe: int, bits: int, centroid_probe: int, centroid_next: int) -> bool {
    risky_gap(probe, bits) is Some && centroid_next - centroid_probe <= risky_gap(probe, bits)->0
}

/// Centroid `c` is among the first `n` of `order`.
pub open spec fn scanned(order: Seq<(i64, u32)>, n: int, c: int) -> bool {
    exists|j: int| 0 <= j < n && (#[trigger] order[j]).1 == c
}

/// Cell `c` may improve the candidates: it is not among the first `done` of
/// `order`, it is not empty, and the box around it is within reach.
pub open spec fn repairable(
    m: IndexView,
    q: Seq<i16>,
    order: Seq<(i64, u32)>,
    done: int,
    cand: Seq<(i64, u32)>,
    c: int,
) -> bool {
    !scanned(order, done, c) && m.cells[c].count != 0 && !out_of_reach(q, m.cell_bounds->0[c], cand)
}

/// The repairable ones of the first `n` cells, with the distance to their boxes.
pub open spec fn repair_items(
    m: IndexView,
    q: Seq<i16>,
    order: Seq<(i64, u32)>,
    done: int,
    cand: Seq<(i64, u32)>,
    n: nat,
) -> Seq<(i64, u32)>
    decreases n,
{
    if n == 0 {
        Seq::empty()
    } else {
        let before = repair_items(m, q, order, done, cand, (n - 1) as nat);
        if repairable(m, q, order, done, cand, n - 1) {
            before.push((lower_bound(q, m.cell_bounds->0[n - 1]) as i64, (n - 1) as u32))
        } else {
            before
        }
    }
}

/// The candidates after the cells of `list` from position `i` on were scanned, until
/// one is out of reach or the fraud count is no longer ambiguous.
pub open spec fn repair_walk(
    m: IndexView,
    q: Seq<i16>,
    list: Seq<(i64, u32)>,
    i: int,
    cand: Seq<(i64, u32)>,
    min: int,
    max: int,
) -> Seq<(i64, u32)>
    decreases list.len() - i,
{
    if i < 0 || i >= list.len() || (cand.len() == 5 && list[i].0 >= cand[4].0) {
        cand
    } else {
        let next = scan_cell(m, q, list[i].1 as int, cand);
        if !ambiguous(frauds(m, next) as int, min, max) {
            next
        } else {
            repair_walk(m, q, list, i + 1, next, min, max)
        }
    }
}

/// The candidates after a repair by the boxes around the cells, at most `cap` of
/// them, the nearest first. An index without such boxes cannot be repaired.
pub open spec fn repair(
    m: IndexView,
    q: Seq<i16>,
    cand: Seq<(i64, u32)>,
    order: Seq<(i64, u32)>,
    done: int,
    min: int,
    max: int,
    cap: int,
) -> Seq<(i64, u32)> {
    if m.cell_bounds is None {
        cand
    } else {
        let items = repair_items(m, q, order, done, cand, centroid_limit(m) as nat);
        repair_walk(m, q, ranking::capped(ranking::ranked(items), cap as nat), 0, cand, min, max)
    }
}

/// The fraud count that a search answers, given the keys of the exact distances
/// of its first candidates.
pub open spec fn answer(
    m: IndexView,
    q: Seq<i16>,
    options: QueryOptions,
    keys: Seq<Option<u32>>,
) -> nat {
    let order = centroid_order(m, q);
    let first = first_probe(m, options);
    let wide = wide_probe(m, options);
    let cand = probe(m, q, first);
    let min = least(options.repair_min as int, 5);
    let max = least(options.repair_max as int, 5);
    match options.repair_mode {
        RepairMode::Pattern => if wide > first && risky(
            first,
            fraud_pattern(m, cand, keys) as int,
            order[first - 1].0 as int,
            order[first].0 as int,
        ) {
            frauds(m, probe(m, q, wide))
        } else {
            frauds(m, cand)
        },
        RepairMode::AmbiguousCentroid => if wide > first && ambiguous(
            frauds(m, cand) as int,
            min,
            max,
        ) {
            frauds(m, probe(m, q, wide))
        } else {
            frauds(m, cand)
        },
        RepairMode::Bbox => if ambiguous(frauds(m, cand) as int, min, max) {
            frauds(
                m,
                repair(
                    m,
                    q,
                    cand,
                    order,
                    first,
                    min,
                    max,
                    clamp(options.repair_candidates as int, 1, 128),
                ),
            )
        } else {
            frauds(m, cand)
        },
    }
}

/// Candidates in ascending order, at most five, each a vector of the index at
/// its distance from `q`.
pub open spec fn sound_candidates(m: IndexView, q: Seq<i16>, cand: Seq<(i64, u32)>) -> bool {
    &&& cand.len() <= 5
    &&& ranking::ascending(cand)
    &&& forall|i: int|
        0 <= i < cand.len() ==> {
            &&& (#[trigger] cand[i]).1 < m.vectors.len()
            &&& cand[i] == candidate(m, q, cand[i].1 as int)
        }
}

/// Whatever holds of the entries of a list and of what is offered holds of the
/// entries that are kept.
pub proof fn lemma_offer_sound(m: IndexView, q: Seq<i16>, cand: Seq<(i64, u32)>, off: int, n: nat)
    requires
        m.valid(),
        0 <= off,
        off + n <= m.vectors.len(),
        sound_candidates(m, q, cand),
    ensures
        sound_candidates(m, q, ranking::offer_all(cand, 5, candidates(m, q, off, n))),
    decreases n,
{
    if n > 0 {
        let items = candidates(m, q, off, n);
        assert(items.drop_last() =~= candidates(m, q, off, (n - 1) as nat));
        lemma_offer_sound(m, q, cand, off, (n - 1) as nat);
        let before = ranking::offer_all(cand, 5, items.drop_last());
        let after = ranking::offer_all(cand, 5, items);
        ranking::lemma_offer(cand, 5, items);
        ranking::lemma_entry_position(before, items.last().0);
        let p = ranking::entry_position(before, items.last().0);
        assert forall|i: int| 0 <= i < after.len() implies {
            &&& (#[trigger] after[i]).1 < m.vectors.len()
            &&& after[i] == candidate(m, q, after[i].1 as int)
        } by {
            if i < p {
                assert(after[i] == before[i]);
            } else if i == p {
                assert(after[i] == items.last());
            } else {
                assert(after[i] == before[i - 1]);
            }
        }
    }
}

/// Scanning blocks keeps the candidates sound.
pub proof fn lemma_scan_blocks_sound(
    m: IndexView,
    q: Seq<i16>,
    cell: Cell,
    r: nat,
    cand: Seq<(i64, u32)>,
)
    requires
        m.valid(),
        cell.start + cell.count <= m.vectors.len(),
        sound_candidates(m, q, cand),
    ensures
        sound_candidates(m, q, scan_blocks(m, q, cell, r, cand)),
    decreases r,
{
    if r > 0 {
        lemma_scan_blocks_sound(m, q, cell, (r - 1) as nat, cand);
        let before = scan_blocks(m, q, cell, (r - 1) as nat, cand);
        if block_len(cell, r - 1) > 0 {
            lemma_offer_sound(
                m,
                q,
                before,
                cell.start + (r - 1) * 128,
                block_len(cell, r - 1),
            );
        }
    }
}

/// Scanning a cell keeps the candidates sound.
pub proof fn lemma_scan_cell_sound(m: IndexView, q: Seq<i16>, c: int, cand: Seq<(i64, u32)>)
    requires
        m.valid(),
        0 <= c < m.cells.len(),
        sound_candidates(m, q, cand),
    ensures
        sound_candidates(m, q, scan_cell(m, q, c, cand)),
{
    assert(m.cells[c].start + m.cells[c].count <= m.vectors.len());
    lemma_scan_blocks_sound(m, q, m.cells[c], m.cells[c].block_count as nat, cand);
}

/// The centroid order lists every centroid that takes part exactly once, in
/// ascending order of distance and, among equals, of number.
pub proof fn lemma_centroid_order(m: IndexView, q: Seq<i16>)
    requires
        m.valid(),
    ensures
        ({
            let order = centroid_order(m, q);
            &&& order.len() == centroid_limit(m)
            &&& forall|i: int|
                0 <= i < order.len() ==> {
                    &&& (#[trigger] order[i]).1 < centroid_limit(m)
                    &&& order[i].0 == distance::distance(q, m.centroids[order[i].1 as int]) as i64
                }
            &&& forall|i: int, j: int|
                0 <= i < j < order.len() ==> order[i].0 < order[j].0 || (order[i].0 == order[j].0
                    && order[i].1 < order[j].1)
        }),
{
    let items = numbered(centroid_distances(m, q));
    ranking::lemma_ranked_ties(items);
    ranking::lemma_ranked(items);
    let order = centroid_order(m, q);
    assert forall|i: int| 0 <= i < order.len() implies {
        &&& (#[trigger] order[i]).1 < centroid_limit(m)
        &&& order[i].0 == distance::distance(q, m.centroids[order[i].1 as int]) as i64
    } by {
        assert(items.contains(order[i]));
    }
}

/// Every centroid that takes part has a rank.
pub proof fn lemma_centroid_rank(m: IndexView, q: Seq<i16>, c: int) -> (rank: int)
    requires
        m.valid(),
        0 <= c < centroid_limit(m),
    ensures
        0 <= rank < centroid_limit(m),
        centroid_order(m, q)[rank].1 == c,
{
    let items = numbered(centroid_distances(m, q));
    let order = centroid_order(m, q);
    ranking::lemma_ranked(items);
    items.to_multiset_ensures();
    order.to_multiset_ensures();
    assert(items[c].1 == c);
    assert(items.contains(items[c]));
    assert(order.to_multiset().count(items[c]) > 0);
    assert(order.contains(items[c]));
    choose|i: int| 0 <= i < order.len() && order[i] == items[c]
}

/// Probing yields sound candidates.
pub proof fn lemma_probe_sound(m: IndexView, q: Seq<i16>, n: int)
    requires
        m.valid(),
        0 <= n <= centroid_limit(m),
    ensures
        sound_candidates(m, q, probe(m, q, n)),
    decreases n,
{
    if n > 0 {
        lemma_probe_sound(m, q, n - 1);
        lemma_centroid_order(m, q);
        lemma_scan_cell_sound(
            m,
            q,
            centroid_order(m, q)[n - 1].1 as int,
            probe(m, q, n - 1),
        );
    }
}

/// There are no more frauds than labels.
pub proof fn lemma_fraud_count(labels: Seq<u8>)
    ensures
        fraud_count(labels) <= labels.len(),
    decreases labels.len(),
{
    if labels.len() > 0 {
        lemma_fraud_count(labels.drop_last());
    }
}

/// The cells to repair are listed by number, and none twice.
pub proof fn lemma_repair_items(
    m: IndexView,
    q: Seq<i16>,
    order: Seq<(i64, u32)>,
    done: int,
    cand: Seq<(i64, u32)>,
    n: nat,
)
    requires
        n <= u32::MAX,
    ensures
        ({
            let items = repair_items(m, q, order, done, cand, n);
            &&& forall|i: int|
                0 <= i < items.len() ==> {
                    &&& (#[trigger] items[i]).1 < n
                    &&& repairable(m, q, order, done, cand, items[i].1 as int)
                    &&& items[i].0 == lower_bound(q, m.cell_bounds->0[items[i].1 as int]) as i64
                }
            &&& forall|i: int, j: int| 0 <= i < j < items.len() ==> items[i].1 < items[j].1
        }),
    decreases n,
{
    if n > 0 {
        lemma_repair_items(m, q, order, done, cand, (n - 1) as nat);
        let before = repair_items(m, q, order, done, cand, (n - 1) as nat);
        let items = repair_items(m, q, order, done, cand, n);
        assert forall|i: int| 0 <= i < items.len() implies {
            &&& (#[trigger] items[i]).1 < n
            &&& repairable(m, q, order, done, cand, items[i].1 as int)
            &&& items[i].0 == lower_bound(q, m.cell_bounds->0[items[i].1 as int]) as i64
        } by {
            if i < before.len() {
                assert(items[i] == before[i]);
            }
        }
        assert forall|i: int, j: int| 0 <= i < j < items.len() implies items[i].1
            < items[j].1 by {
            assert(items[i] == before[i]);
            if j < before.len() {
                assert(items[j] == before[j]);
            }
        }
    }
}

/// The blocks of a cell cover it, and each box holds the vectors of its block.
pub open spec fn blocks_sound(m: IndexView, cell: Cell) -> bool {
    &&& cell.block_count * 128 >= cell.count
    &&& forall|r: int, j: int|
        #![trigger m.blocks[cell.block_start + r], m.vectors[cell.start + r * 128 + j]]
        0 <= r < cell.block_count && 0 <= j < block_len(cell, r) ==> holds(
            m.blocks[cell.block_start + r],
            m.vectors[cell.start + r * 128 + j],
        )
}

/// The box of a cell holds its vectors.
pub open spec fn cell_box_sound(m: IndexView, c: int) -> bool {
    forall|j: int|
        #![trigger m.vectors[m.cells[c].start + j]]
        0 <= j < m.cells[c].count ==> holds(
            m.cell_bounds->0[c],
            m.vectors[m.cells[c].start + j],
        )
}

/// Every box of the index holds what it stands for.
pub open spec fn boxes_sound(m: IndexView) -> bool {
    &&& forall|c: int| 0 <= c < m.cells.len() ==> blocks_sound(m, #[trigger] m.cells[c])
    &&& m.cell_bounds is Some ==> forall|c: int|
        #![trigger m.cells[c]]
        0 <= c < m.cells.len() ==> cell_box_sound(m, c)
}

/// All vectors of cell `c` as candidates.
pub open spec fn cell_candidates(m: IndexView, q: Seq<i16>, c: int) -> Seq<(i64, u32)> {
    candidates(m, q, m.cells[c].start as int, m.cells[c].count as nat)
}

/// Vectors of a box that is out of reach change nothing.
proof fn lemma_out_of_reach(
    m: IndexView,
    q: Seq<i16>,
    b: Bounds,
    cand: Seq<(i64, u32)>,
    off: int,
    n: nat,
)
    requires
        m.valid(),
        0 <= off,
        off + n <= m.vectors.len(),
        q.len() == 16,
        out_of_reach(q, b, cand),
        forall|j: int|
            #![trigger m.vectors[off + j]]
            0 <= j < n ==> holds(b, m.vectors[off + j]),
    ensures
        ranking::offer_all(cand, 5, candidates(m, q, off, n)) == cand,
{
    let items = candidates(m, q, off, n);
    assert forall|j: int| 0 <= j < items.len() implies (#[trigger] items[j]).0
        >= cand.last().0 by {
        let v = m.vectors[off + j];
        assert(holds(b, v));
        lemma_lower_bound(q, b, v);
        distance::lemma_distance(q, v);
    }
    ranking::lemma_offer_far_items(cand, 5, items);
}

proof fn lemma_scan_blocks_exact(
    m: IndexView,
    q: Seq<i16>,
    cell: Cell,
    r: nat,
    cand: Seq<(i64, u32)>,
)
    requires
        m.valid(),
        q.len() == 16,
        cell.start + cell.count <= m.vectors.len(),
        blocks_sound(m, cell),
        r <= cell.block_count,
    ensures
        scan_blocks(m, q, cell, r, cand) == ranking::offer_all(
            cand,
            5,
            candidates(m, q, cell.start as int, least(128 * r as int, cell.count as int) as nat),
        ),
    decreases r,
{
    if r == 0 {
        assert(candidates(m, q, cell.start as int, 0) =~= Seq::empty());
    } else {
        lemma_scan_blocks_exact(m, q, cell, (r - 1) as nat, cand);
        let before = scan_blocks(m, q, cell, (r - 1) as nat, cand);
        let done = least((r - 1) * 128, cell.count as int) as nat;
        let n = block_len(cell, r - 1);
        let first = candidates(m, q, cell.start as int, done);
        let second = candidates(m, q, cell.start + (r - 1) * 128, n);
        assert(first + second =~= candidates(
            m,
            q,
            cell.start as int,
            least(128 * r as int, cell.count as int) as nat,
        ));
        ranking::lemma_offer_concat(cand, 5, first, second);
        let b = m.blocks[cell.block_start + (r - 1)];
        if out_of_reach(q, b, before) {
            if n > 0 {
                assert forall|j: int|
                    #![trigger m.vectors[cell.start + (r - 1) * 128 + j]]
                    0 <= j < n implies holds(b, m.vectors[cell.start + (r - 1) * 128 + j]) by {
                    assert(holds(
                        m.blocks[cell.block_start + (r - 1)],
                        m.vectors[cell.start + (r - 1) * 128 + j],
                    ));
                }
                lemma_out_of_reach(m, q, b, before, cell.start + (r - 1) * 128, n);
            } else {
                assert(second =~= Seq::empty());
            }
        }
    }
}

/// Passing over blocks changes nothing where the boxes hold what they stand
/// for: scanning a cell offers all its vectors.
pub proof fn lemma_pruning_is_exact(m: IndexView, q: Seq<i16>, c: int, cand: Seq<(i64, u32)>)
    requires
        m.valid(),
        boxes_sound(m),
        q.len() == 16,
        0 <= c < m.cells.len(),
    ensures
        scan_cell(m, q, c, cand) == ranking::offer_all(cand, 5, cell_candidates(m, q, c)),
{
    let cell = m.cells[c];
    assert(blocks_sound(m, cell));
    assert(cell.start + cell.count <= m.vectors.len());
    lemma_scan_blocks_exact(m, q, cell, cell.block_count as nat, cand);
}

/// A cell whose box is out of reach has nothing to add: leaving it out of a
/// repair loses no neighbour.
pub proof fn lemma_repair_skips_nothing(m: IndexView, q: Seq<i16>, c: int, cand: Seq<(i64, u32)>)
    requires
        m.valid(),
        boxes_sound(m),
        m.cell_bounds is Some,
        q.len() == 16,
        0 <= c < m.cells.len(),
        out_of_reach(q, m.cell_bounds->0[c], cand),
    ensures
        scan_cell(m, q, c, cand) == cand,
{
    lemma_pruning_is_exact(m, q, c, cand);
    let cell = m.cells[c];
    assert(cell.start + cell.count <= m.vectors.len());
    assert(cell_box_sound(m, c));
    lemma_out_of_reach(
        m,
        q,
        m.cell_bounds->0[c],
        cand,
        cell.start as int,
        cell.count as nat,
    );
}

/// All vectors of the cells of the first `n` centroids of `order`, in that
/// order, as candidates.
pub open spec fn probed_candidates(
    m: IndexView,
    q: Seq<i16>,
    order: Seq<(i64, u32)>,
    n: nat,
) -> Seq<(i64, u32)>
    decreases n,
{
    if n == 0 {
        Seq::empty()
    } else {
        probed_candidates(m, q, order, (n - 1) as nat) + cell_candidates(
            m,
            q,
            order[n - 1].1 as int,
        )
    }
}

/// A probe keeps the five nearest of all vectors in the probed cells: the front
/// of their ranking.
pub proof fn lemma_probe_is_exact(m: IndexView, q: Seq<i16>, n: int)
    requires
        m.valid(),
        boxes_sound(m),
        q.len() == 16,
        0 <= n <= centroid_limit(m),
    ensures
        probe(m, q, n) == ranking::capped(
            ranking::ranked(probed_candidates(m, q, centroid_order(m, q), n as nat)),
            5,
        ),
{
    lemma_probe_offers(m, q, n);
    ranking::lemma_nearest_is_front_of_ranking(
        probed_candidates(m, q, centroid_order(m, q), n as nat),
        5,
    );
}

proof fn lemma_probe_offers(m: IndexView, q: Seq<i16>, n: int)
    requires
        m.valid(),
        boxes_sound(m),
        q.len() == 16,
        0 <= n <= centroid_limit(m),
    ensures
        probe(m, q, n) == ranking::offer_all(
            Seq::empty(),
            5,
            probed_candidates(m, q, centroid_order(m, q), n as nat),
        ),
    decreases n,
{
    let order = centroid_order(m, q);
    if n > 0 {
        lemma_probe_offers(m, q, n - 1);
        lemma_centroid_order(m, q);
        let c = order[n - 1].1 as int;
        lemma_pruning_is_exact(m, q, c, probe(m, q, n - 1));
        ranking::lemma_offer_concat(
            Seq::empty(),
            5,
            probed_candidates(m, q, order, (n - 1) as nat),
            cell_candidates(m, q, c),
        );
    }
}

/// The vectors of a probed cell are among what was offered.
proof fn lemma_probed(m: IndexView, q: Seq<i16>, order: Seq<(i64, u32)>, n: nat, k: int, j: int)
    requires
        0 <= k < n,
        0 <= j < m.cells[order[k].1 as int].count,
    ensures
        exists|i: int|
            {
                &&& 0 <= i < probed_candidates(m, q, order, n).len()
                &&& #[trigger] probed_candidates(m, q, order, n)[i] == candidate(
                    m,
                    q,
                    m.cells[order[k].1 as int].start + j,
                )
            },
    decreases n,
{
    let before = probed_candidates(m, q, order, (n - 1) as nat);
    let all = probed_candidates(m, q, order, n);
    if k == n - 1 {
        assert(all[before.len() + j] == candidate(
            m,
            q,
            m.cells[order[k].1 as int].start + j,
        ));
    } else {
        lemma_probed(m, q, order, (n - 1) as nat, k, j);
        let i = choose|i: int|
            {
                &&& 0 <= i < before.len()
                &&& #[trigger] before[i] == candidate(
                    m,
                    q,
                    m.cells[order[k].1 as int].start + j,
                )
            };
        assert(all[i] == before[i]);
    }
}

/// A vector of a probed cell is among the candidates, unless there are five and
/// none of them is farther away: no neighbour in the probed cells is missed.
pub proof fn lemma_probe_misses_nothing(m: IndexView, q: Seq<i16>, n: int, k: int, j: int)
    requires
        m.valid(),
        boxes_sound(m),
        q.len() == 16,
        0 <= k < n <= centroid_limit(m),
        0 <= j < m.cells[centroid_order(m, q)[k].1 as int].count,
    ensures
        ({
            let kept = probe(m, q, n);
            let v = candidate(m, q, m.cells[centroid_order(m, q)[k].1 as int].start + j);
            kept.contains(v) || (kept.len() == 5 && forall|i: int|
                0 <= i < 5 ==> (#[trigger] kept[i]).0 <= v.0)
        }),
{
    let order = centroid_order(m, q);
    lemma_probe_offers(m, q, n);
    lemma_probed(m, q, order, n as nat, k, j);
    let all = probed_candidates(m, q, order, n as nat);
    let i = choose|i: int|
        {
            &&& 0 <= i < all.len()
            &&& #[trigger] all[i] == candidate(m, q, m.cells[order[k].1 as int].start + j)
        };
    ranking::lemma_offer_keeps_nearest(Seq::empty(), 5, all, i);
}

proof fn lemma_scan_blocks_improves(
    m: IndexView,
    q: Seq<i16>,
    cell: Cell,
    r: nat,
    cand: Seq<(i64, u32)>,
)
    requires
        ranking::ascending(cand),
        cand.len() <= 5,
    ensures
        ranking::ascending(scan_blocks(m, q, cell, r, cand)),
        cand.len() <= scan_blocks(m, q, cell, r, cand).len() <= 5,
        forall|i: int|
            0 <= i < cand.len() ==> (#[trigger] scan_blocks(m, q, cell, r, cand)[i]).0
                <= cand[i].0,
    decreases r,
{
    if r > 0 {
        lemma_scan_blocks_improves(m, q, cell, (r - 1) as nat, cand);
        let before = scan_blocks(m, q, cell, (r - 1) as nat, cand);
        let items = candidates(m, q, cell.start + (r - 1) * 128, block_len(cell, r - 1));
        ranking::lemma_offer(before, 5, items);
        ranking::lemma_offer_improves(before, 5, items);
        assert forall|i: int| 0 <= i < cand.len() implies (#[trigger] scan_blocks(
            m,
            q,
            cell,
            r,
            cand,
        )[i]).0 <= cand[i].0 by {
            assert(before[i].0 <= cand[i].0);
        }
    }
}

/// Probing more cells never yields fewer candidates, and never moves the one at a
/// place farther away.
pub proof fn lemma_wider_probe_improves(m: IndexView, q: Seq<i16>, n: int, wider: int)
    requires
        0 <= n <= wider,
    ensures
        ranking::ascending(probe(m, q, wider)),
        probe(m, q, n).len() <= probe(m, q, wider).len() <= 5,
        forall|i: int|
            0 <= i < probe(m, q, n).len() ==> (#[trigger] probe(m, q, wider)[i]).0 <= probe(
                m,
                q,
                n,
            )[i].0,
    decreases wider,
{
    if n < wider {
        lemma_wider_probe_improves(m, q, n, wider - 1);
        let c = centroid_order(m, q)[wider - 1].1 as int;
        lemma_scan_blocks_improves(
            m,
            q,
            m.cells[c],
            m.cells[c].block_count as nat,
            probe(m, q, wider - 1),
        );
        assert forall|i: int| 0 <= i < probe(m, q, n).len() implies (#[trigger] probe(
            m,
            q,
            wider,
        )[i]).0 <= probe(m, q, n)[i].0 by {
            assert(probe(m, q, wider - 1)[i].0 <= probe(m, q, n)[i].0);
        }
    } else if wider > 0 {
        lemma_wider_probe_improves(m, q, n - 1, wider - 1);
        let c = centroid_order(m, q)[wider - 1].1 as int;
        lemma_scan_blocks_improves(
            m,
            q,
            m.cells[c],
            m.cells[c].block_count as nat,
            probe(m, q, wider - 1),
        );
    }
}

proof fn lemma_repair_walk_improves(
    m: IndexView,
    q: Seq<i16>,
    list: Seq<(i64, u32)>,
    i: int,
    cand: Seq<(i64, u32)>,
    min: int,
    max: int,
)
    requires
        ranking::ascending(cand),
        cand.len() <= 5,
    ensures
        ranking::ascending(repair_walk(m, q, list, i, cand, min, max)),
        cand.len() <= repair_walk(m, q, list, i, cand, min, max).len() <= 5,
        forall|j: int|
            0 <= j < cand.len() ==> (#[trigger] repair_walk(m, q, list, i, cand, min, max)[j]).0
                <= cand[j].0,
    decreases list.len() - i,
{
    if 0 <= i < list.len() && !(cand.len() == 5 && list[i].0 >= cand[4].0) {
        let c = list[i].1 as int;
        let next = scan_cell(m, q, c, cand);
        lemma_scan_blocks_improves(m, q, m.cells[c], m.cells[c].block_count as nat, cand);
        if ambiguous(frauds(m, next) as int, min, max) {
            lemma_repair_walk_improves(m, q, list, i + 1, next, min, max);
            let last = repair_walk(m, q, list, i + 1, next, min, max);
            assert forall|j: int| 0 <= j < cand.len() implies (#[trigger] last[j]).0
                <= cand[j].0 by {
                assert(next[j].0 <= cand[j].0);
            }
        }
    }
}

/// A repair never loses a candidate and never moves the one at a place farther away.
/// Without boxes around the cells it changes nothing.
pub proof fn lemma_repair_improves(
    m: IndexView,
    q: Seq<i16>,
    cand: Seq<(i64, u32)>,
    order: Seq<(i64, u32)>,
    done: int,
    min: int,
    max: int,
    cap: int,
)
    requires
        ranking::ascending(cand),
        cand.len() <= 5,
    ensures
        ({
            let repaired = repair(m, q, cand, order, done, min, max, cap);
            &&& ranking::ascending(repaired)
            &&& cand.len() <= repaired.len() <= 5
            &&& forall|j: int| 0 <= j < cand.len() ==> (#[trigger] repaired[j]).0 <= cand[j].0
            &&& m.cell_bounds is None ==> repaired == cand
        }),
{
    if m.cell_bounds is Some {
        let items = repair_items(m, q, order, done, cand, centroid_limit(m) as nat);
        let list = ranking::capped(ranking::ranked(items), cap as nat);
        lemma_repair_walk_improves(m, q, list, 0, cand, min, max);
    }
}

/// A repairable cell is listed for repair, at the distance of its box.
proof fn lemma_repair_listed(
    m: IndexView,
    q: Seq<i16>,
    order: Seq<(i64, u32)>,
    done: int,
    cand: Seq<(i64, u32)>,
    n: nat,
    c: int,
)
    requires
        0 <= c < n,
        repairable(m, q, order, done, cand, c),
    ensures
        repair_items(m, q, order, done, cand, n).contains(
            (lower_bound(q, m.cell_bounds->0[c]) as i64, c as u32),
        ),
        repair_items(m, q, order, done, cand, n).len() <= n,
    decreases n,
{
    let items = repair_items(m, q, order, done, cand, n);
    let before = repair_items(m, q, order, done, cand, (n - 1) as nat);
    let entry = (lower_bound(q, m.cell_bounds->0[c]) as i64, c as u32);
    lemma_repair_few(m, q, order, done, cand, n);
    if c < n - 1 {
        lemma_repair_listed(m, q, order, done, cand, (n - 1) as nat, c);
        let i = choose|i: int| 0 <= i < before.len() && before[i] == entry;
        assert(items[i] == entry);
    } else {
        assert(items.last() == entry);
    }
}

proof fn lemma_repair_few(
    m: IndexView,
    q: Seq<i16>,
    order: Seq<(i64, u32)>,
    done: int,
    cand: Seq<(i64, u32)>,
    n: nat,
)
    ensures
        repair_items(m, q, order, done, cand, n).len() <= n,
    decreases n,
{
    if n > 0 {
        lemma_repair_few(m, q, order, done, cand, (n - 1) as nat);
    }
}

/// Vector number `j` of cell `c` is not nearer than the box around the cell.
proof fn lemma_cell_bound(m: IndexView, q: Seq<i16>, c: int, j: int)
    requires
        m.valid(),
        boxes_sound(m),
        m.cell_bounds is Some,
        q.len() == 16,
        0 <= c < m.cells.len(),
        0 <= j < m.cells[c].count,
    ensures
        lower_bound(q, m.cell_bounds->0[c]) <= candidate(m, q, m.cells[c].start + j).0,
        0 <= lower_bound(q, m.cell_bounds->0[c]) <= i64::MAX,
        cell_candidates(m, q, c).contains(candidate(m, q, m.cells[c].start + j)),
{
    let cell = m.cells[c];
    assert(cell.start + cell.count <= m.vectors.len());
    assert(cell_box_sound(m, c));
    let v = m.vectors[cell.start + j];
    assert(holds(m.cell_bounds->0[c], v));
    lemma_lower_bound(q, m.cell_bounds->0[c], v);
    lemma_partial_bound(q, m.cell_bounds->0[c], 0, 16);
    distance::lemma_distance(q, v);
    assert(cell_candidates(m, q, c)[j] == candidate(m, q, cell.start + j));
}

proof fn lemma_repair_walk_misses_nothing(
    m: IndexView,
    q: Seq<i16>,
    list: Seq<(i64, u32)>,
    i: int,
    cand: Seq<(i64, u32)>,
    c: int,
    j: int,
)
    requires
        m.valid(),
        boxes_sound(m),
        m.cell_bounds is Some,
        q.len() == 16,
        0 <= c < m.cells.len(),
        0 <= j < m.cells[c].count,
        sound_candidates(m, q, cand),
        ranking::ascending(list),
        forall|k: int| 0 <= k < list.len() ==> (#[trigger] list[k]).1 < m.cells.len(),
        0 <= i,
        ranking::accounts_for(cand, 5, candidate(m, q, m.cells[c].start + j)) || exists|k: int|
            i <= k < list.len() && #[trigger] list[k] == (
                lower_bound(q, m.cell_bounds->0[c]) as i64,
                c as u32,
            ),
    ensures
        ranking::accounts_for(
            repair_walk(m, q, list, i, cand, 0, 5),
            5,
            candidate(m, q, m.cells[c].start + j),
        ),
    decreases list.len() - i,
{
    let v = candidate(m, q, m.cells[c].start + j);
    let entry = (lower_bound(q, m.cell_bounds->0[c]) as i64, c as u32);
    lemma_cell_bound(m, q, c, j);
    if i >= list.len() {
    } else if cand.len() == 5 && list[i].0 >= cand[4].0 {
        if !ranking::accounts_for(cand, 5, v) {
            let k = choose|k: int| i <= k < list.len() && #[trigger] list[k] == entry;
            assert(list[i].0 <= list[k].0);
        }
    } else {
        let d = list[i].1 as int;
        let next = scan_cell(m, q, d, cand);
        lemma_scan_cell_sound(m, q, d, cand);
        lemma_pruning_is_exact(m, q, d, cand);
        lemma_fraud_count(labels_of(m, next));
        if ranking::accounts_for(cand, 5, v) {
            ranking::lemma_offer_accounts(cand, 5, cell_candidates(m, q, d), v);
        } else {
            let k = choose|k: int| i <= k < list.len() && #[trigger] list[k] == entry;
            if k == i {
                ranking::lemma_offer_accounts(cand, 5, cell_candidates(m, q, d), v);
            } else {
                assert(list[k] == entry);
            }
        }
        lemma_repair_walk_misses_nothing(m, q, list, i + 1, next, c, j);
    }
}

/// A repair that regards every fraud count as ambiguous and may scan all cells leaves
/// the five nearest of all vectors in the cells that take part: each of them is a
/// candidate, unless there are five and none of them is farther away.
pub proof fn lemma_repair_misses_nothing(
    m: IndexView,
    q: Seq<i16>,
    done: int,
    cap: int,
    c: int,
    j: int,
)
    requires
        m.valid(),
        boxes_sound(m),
        m.cell_bounds is Some,
        q.len() == 16,
        0 <= done <= centroid_limit(m) <= cap,
        0 <= c < centroid_limit(m),
        0 <= j < m.cells[c].count,
    ensures
        ranking::accounts_for(
            repair(m, q, probe(m, q, done), centroid_order(m, q), done, 0, 5, cap),
            5,
            candidate(m, q, m.cells[c].start + j),
        ),
{
    let n = centroid_limit(m) as nat;
    let cand = probe(m, q, done);
    let order = centroid_order(m, q);
    let items = repair_items(m, q, order, done, cand, n);
    let list = ranking::capped(ranking::ranked(items), cap as nat);
    let v = candidate(m, q, m.cells[c].start + j);
    let entry = (lower_bound(q, m.cell_bounds->0[c]) as i64, c as u32);
    lemma_probe_sound(m, q, done);
    lemma_repair_few(m, q, order, done, cand, n);
    lemma_repair_items(m, q, order, done, cand, n);
    ranking::lemma_ranked(items);
    assert(list == ranking::ranked(items));
    items.to_multiset_ensures();
    list.to_multiset_ensures();
    assert forall|k: int| 0 <= k < list.len() implies (#[trigger] list[k]).1 < m.cells.len() by {
        assert(list.contains(list[k]));
        assert(items.to_multiset().count(list[k]) > 0);
        assert(items.contains(list[k]));
    }
    lemma_cell_bound(m, q, c, j);
    if repairable(m, q, order, done, cand, c) {
        lemma_repair_listed(m, q, order, done, cand, n, c);
        assert(list.to_multiset().count(entry) > 0);
        assert(list.contains(entry));
        let k = choose|k: int| 0 <= k < list.len() && list[k] == entry;
        assert(list[k] == entry);
    } else if scanned(order, done, c) {
        let k = choose|k: int| 0 <= k < done && (#[trigger] order[k]).1 == c;
        lemma_probe_misses_nothing(m, q, done, k, j);
    } else {
        assert(out_of_reach(q, m.cell_bounds->0[c], cand));
    }
    lemma_repair_walk_misses_nothing(m, q, list, 0, cand, c, j);
}

/// The point of a box that is nearest to `q`, coordinate by coordinate.
pub open spec fn nearest_point(q: Seq<i16>, b: Bounds) -> Seq<i16> {
    Seq::new(
        16,
        |d: int|
            if q[d] < b.min[d] {
                b.min[d]
            } else if q[d] > b.max[d] {
                b.max[d]
            } else {
                q[d]
            },
    )
}

proof fn lemma_partial_bound_is_reached(q: Seq<i16>, b: Bounds, n: nat)
    requires
        n <= 16,
    ensures
        partial_bound(q, b, n) == distance::partial_distance(q, nearest_point(q, b), n),
    decreases n,
{
    if n > 0 {
        lemma_partial_bound_is_reached(q, b, (n - 1) as nat);
        let i = n - 1;
        let g = gap(q[i], b.min[i], b.max[i]);
        let d = q[i] - nearest_point(q, b)[i];
        assert(g * g == d * d) by (nonlinear_arith)
            requires
                g == d || g == -d,
        ;
    }
}

/// The distance to a box is that to a point of it, so no greater number bounds the
/// distances of its vectors from below.
pub proof fn lemma_lower_bound_is_reached(q: Seq<i16>, b: Bounds)
    requires
        forall|d: int| 0 <= d < 16 ==> #[trigger] b.min[d] <= b.max[d],
    ensures
        holds(b, nearest_point(q, b)),
        distance::distance(q, nearest_point(q, b)) == lower_bound(q, b),
{
    lemma_partial_bound_is_reached(q, b, 16);
    assert forall|d: int| 0 <= d < 16 implies b.min[d] <= #[trigger] nearest_point(q, b)[d]
        <= b.max[d] by {
        assert(b.min[d] <= b.max[d]);
    }
}

/// The candidates after the cells of `list` from position `i` up to `n` were scanned.
pub open spec fn scan_list(
    m: IndexView,
    q: Seq<i16>,
    list: Seq<(i64, u32)>,
    i: int,
    n: int,
    cand: Seq<(i64, u32)>,
) -> Seq<(i64, u32)>
    decreases n - i,
{
    if n <= i {
        cand
    } else {
        scan_cell(m, q, list[n - 1].1 as int, scan_list(m, q, list, i, n - 1, cand))
    }
}

proof fn lemma_scan_list_front(
    m: IndexView,
    q: Seq<i16>,
    list: Seq<(i64, u32)>,
    i: int,
    n: int,
    cand: Seq<(i64, u32)>,
)
    requires
        i < n,
    ensures
        scan_list(m, q, list, i, n, cand) == scan_list(
            m,
            q,
            list,
            i + 1,
            n,
            scan_cell(m, q, list[i].1 as int, cand),
        ),
    decreases n - i,
{
    if i + 1 < n {
        lemma_scan_list_front(m, q, list, i, n - 1, cand);
    } else {
        assert(scan_list(m, q, list, i, n - 1, cand) == cand);
    }
}

/// A repair stops after `n` cells: the count was ambiguous after each of those before,
/// and now it is not, or there is no other cell, or the next one is out of reach.
pub open spec fn stops_after(
    m: IndexView,
    q: Seq<i16>,
    list: Seq<(i64, u32)>,
    i: int,
    cand: Seq<(i64, u32)>,
    min: int,
    max: int,
    n: int,
) -> bool {
    let ended = scan_list(m, q, list, i, n, cand);
    &&& i <= n <= list.len()
    &&& forall|k: int|
        i <= k < n ==> {
            &&& k > i ==> min <= frauds(m, #[trigger] scan_list(m, q, list, i, k, cand)) <= max
            &&& !(scan_list(m, q, list, i, k, cand).len() == 5 && list[k].0 >= scan_list(
                m,
                q,
                list,
                i,
                k,
                cand,
            )[4].0)
        }
    &&& {
        ||| n == list.len()
        ||| n > i && !(min <= frauds(m, ended) <= max)
        ||| ended.len() == 5 && list[n].0 >= ended[4].0
    }
}

/// A repair scans the listed cells in their order until the count is no longer ambiguous
/// or nothing within reach is left, and not one cell more.
pub proof fn lemma_repair_stops(
    m: IndexView,
    q: Seq<i16>,
    list: Seq<(i64, u32)>,
    i: int,
    cand: Seq<(i64, u32)>,
    min: int,
    max: int,
) -> (n: int)
    requires
        0 <= i <= list.len(),
    ensures
        stops_after(m, q, list, i, cand, min, max, n),
        repair_walk(m, q, list, i, cand, min, max) == scan_list(m, q, list, i, n, cand),
    decreases list.len() - i,
{
    if i >= list.len() || (cand.len() == 5 && list[i].0 >= cand[4].0) {
        i
    } else {
        let next = scan_cell(m, q, list[i].1 as int, cand);
        assert(scan_list(m, q, list, i, i, cand) == cand);
        assert(scan_list(m, q, list, i, i + 1, cand) == next);
        if !ambiguous(frauds(m, next) as int, min, max) {
            i + 1
        } else {
            let n = lemma_repair_stops(m, q, list, i + 1, next, min, max);
            lemma_scan_list_front(m, q, list, i, n, cand);
            assert forall|k: int| i <= k < n implies {
                &&& k > i ==> min <= frauds(m, #[trigger] scan_list(m, q, list, i, k, cand)) <= max
                &&& !(scan_list(m, q, list, i, k, cand).len() == 5 && list[k].0 >= scan_list(
                    m,
                    q,
                    list,
                    i,
                    k,
                    cand,
                )[4].0)
            } by {
                if k > i {
                    lemma_scan_list_front(m, q, list, i, k, cand);
                    if k == i + 1 {
                        assert(scan_list(m, q, list, i + 1, k, next) == next);
                    } else {
                        assert(min <= frauds(m, scan_list(m, q, list, i + 1, k, next)) <= max);
                    }
                }
            }
            n
        }
    }
}

/// What a repair lists are cells not probed yet that hold vectors and are within reach,
/// none twice, the nearest first. A cell of that kind is left out only where the list is
/// full of cells that are no farther away.
pub proof fn lemma_repair_list(
    m: IndexView,
    q: Seq<i16>,
    order: Seq<(i64, u32)>,
    done: int,
    cand: Seq<(i64, u32)>,
    cap: nat,
    c: int,
)
    requires
        m.valid(),
        m.cell_bounds is Some,
        0 <= c < centroid_limit(m),
    ensures
        ({
            let n = centroid_limit(m) as nat;
            let list = ranking::capped(
                ranking::ranked(repair_items(m, q, order, done, cand, n)),
                cap,
            );
            let bound = lower_bound(q, m.cell_bounds->0[c]) as i64;
            let wanted = m.cells[c].count > 0 && !(cand.len() == 5 && lower_bound(
                q,
                m.cell_bounds->0[c],
            ) >= cand[4].0) && forall|j: int| 0 <= j < done ==> (#[trigger] order[j]).1 != c;
            &&& list.len() <= cap
            &&& ranking::ascending(list)
            &&& list.no_duplicates()
            &&& list.contains((bound, c as u32)) ==> wanted
            &&& wanted ==> list.contains((bound, c as u32)) || list.len() == cap && forall|k: int|
                0 <= k < cap ==> (#[trigger] list[k]).0 <= bound
        }),
{
    let n = centroid_limit(m) as nat;
    let items = repair_items(m, q, order, done, cand, n);
    let ranks = ranking::ranked(items);
    let list = ranking::capped(ranks, cap);
    let bound = lower_bound(q, m.cell_bounds->0[c]) as i64;
    let entry = (bound, c as u32);
    lemma_repair_items(m, q, order, done, cand, n);
    ranking::lemma_ranked(items);
    items.to_multiset_ensures();
    ranks.to_multiset_ensures();
    assert(items.no_duplicates());
    items.lemma_multiset_has_no_duplicates();
    ranks.lemma_multiset_has_no_duplicates_conv();
    if list.contains(entry) {
        let k = choose|k: int| 0 <= k < list.len() && list[k] == entry;
        assert(ranks[k] == entry);
        assert(ranks.contains(entry));
        assert(items.to_multiset().count(entry) > 0);
        assert(items.contains(entry));
        assert(repairable(m, q, order, done, cand, c));
    }
    if repairable(m, q, order, done, cand, c) {
        lemma_repair_listed(m, q, order, done, cand, n, c);
        assert(ranks.to_multiset().count(entry) > 0);
        assert(ranks.contains(entry));
        let k = choose|k: int| 0 <= k < ranks.len() && ranks[k] == entry;
        if k < cap {
            assert(list[k] == entry);
        } else {
            assert forall|i: int| 0 <= i < cap implies (#[trigger] list[i]).0 <= bound by {
                assert(list[i] == ranks[i]);
            }
        }
    }
}

/// Labels that stand in the order of their keys already keep their places, those with
/// equal keys too.
pub proof fn lemma_rank_labels_keeps_order(items: Seq<(Option<u32>, u8)>)
    requires
        forall|i: int, j: int|
            0 <= i < j < items.len() ==> (#[trigger] items[i]).0 is None || (
            #[trigger] items[j]).0 is None || items[i].0->0 <= items[j].0->0,
    ensures
        rank_labels(items) == items,
    decreases items.len(),
{
    if items.len() == 0 {
        assert(items =~= Seq::empty());
    } else {
        let front = items.drop_last();
        assert forall|i: int, j: int| 0 <= i < j < front.len() implies (#[trigger] front[i]).0
            is None || (#[trigger] front[j]).0 is None || front[i].0->0 <= front[j].0->0 by {
            assert(front[i] == items[i] && front[j] == items[j]);
        }
        lemma_rank_labels_keeps_order(front);
        if front.len() > 0 {
            assert(items[front.len() - 1] == front.last());
        }
        assert(items =~= front.insert(front.len() as int, items.last()));
    }
}

} // verus!
