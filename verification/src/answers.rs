//! What the answer of a search counts.
//!
//! The laws of this module tie the answer to the vectors themselves: which of them the
//! search ends with, and that the answer is the number of those labelled as frauds.
use crate::distance;
use crate::index;
use crate::index::{IvfIndex, Search};
use crate::layout::IndexView;
use crate::ranking;
use crate::search;
use crate::search::{QueryOptions, RepairMode};
use vstd::arithmetic::power2::pow2;
use vstd::prelude::*;

verus! {

/// The places among the candidates that hold a vector labelled as fraud.
pub open spec fn fraud_places(m: IndexView, cand: Seq<(i64, u32)>) -> Set<int> {
    Set::new(|i: int| 0 <= i < cand.len() && m.labels[cand[i].1 as int] == 1)
}

proof fn lemma_fraud_labels(labels: Seq<u8>)
    ensures
        ({
            let places = Set::new(|i: int| 0 <= i < labels.len() && labels[i] == 1);
            places.finite() && search::fraud_count(labels) == places.len()
        }),
    decreases labels.len(),
{
    let places = Set::new(|i: int| 0 <= i < labels.len() && labels[i] == 1);
    if labels.len() == 0 {
        assert(places =~= Set::empty());
    } else {
        let front = labels.drop_last();
        let before = Set::new(|i: int| 0 <= i < front.len() && front[i] == 1);
        lemma_fraud_labels(front);
        if labels.last() == 1 {
            assert(places =~= before.insert(front.len() as int));
        } else {
            assert(places =~= before);
        }
    }
}

/// The frauds among candidates are counted one by one: as many as there are places that
/// hold one.
pub proof fn lemma_frauds_are_counted(m: IndexView, cand: Seq<(i64, u32)>)
    ensures
        fraud_places(m, cand).finite(),
        search::frauds(m, cand) == fraud_places(m, cand).len() <= cand.len(),
{
    let labels = search::labels_of(m, cand);
    lemma_fraud_labels(labels);
    search::lemma_fraud_count(labels);
    assert(fraud_places(m, cand) =~= Set::new(
        |i: int| 0 <= i < labels.len() && labels[i] == 1,
    ));
}

/// What a search in the production setting answers: the number of frauds among the
/// candidates of the first probe, unless their pattern is risky, and among those of the
/// wide probe where it is.
pub proof fn lemma_production_answer(
    m: IndexView,
    q: Seq<i16>,
    nprobe: usize,
    keys: Seq<Option<u32>>,
)
    ensures
        ({
            let options = search::production_options(nprobe);
            let order = search::centroid_order(m, q);
            let first = search::first_probe(m, options);
            let wide = search::wide_probe(m, options);
            let near = search::probe(m, q, first);
            let far = search::probe(m, q, wide);
            let risky = wide > first && search::risky(
                first,
                search::fraud_pattern(m, near, keys) as int,
                order[first - 1].0 as int,
                order[first].0 as int,
            );
            &&& !risky ==> search::answer(m, q, options, keys) == fraud_places(m, near).len()
            &&& risky ==> search::answer(m, q, options, keys) == fraud_places(m, far).len()
        }),
{
    let options = search::production_options(nprobe);
    lemma_frauds_are_counted(m, search::probe(m, q, search::first_probe(m, options)));
    lemma_frauds_are_counted(m, search::probe(m, q, search::wide_probe(m, options)));
}

/// The first answer of a search is doubtful: its pattern is risky, or the number of
/// frauds lies in the range that the options call ambiguous.
pub open spec fn doubtful(
    m: IndexView,
    q: Seq<i16>,
    options: QueryOptions,
    keys: Seq<Option<u32>>,
) -> bool {
    let order = search::centroid_order(m, q);
    let first = search::first_probe(m, options);
    let near = search::probe(m, q, first);
    let count = fraud_places(m, near).len();
    let ambiguous = (options.repair_min <= count || count == 5) && count <= options.repair_max;
    match options.repair_mode {
        RepairMode::Pattern => search::wide_probe(m, options) > first && search::risky(
            first,
            search::fraud_pattern(m, near, keys) as int,
            order[first - 1].0 as int,
            order[first].0 as int,
        ),
        RepairMode::AmbiguousCentroid => ambiguous && search::wide_probe(m, options) > first,
        RepairMode::Bbox => ambiguous,
    }
}

/// `ended` are candidates that a search may end with: at most five vectors of the index
/// with their distances, in ascending order, none of which is farther away than the one
/// in its place among those of the first probe.
pub open spec fn may_end_with(
    m: IndexView,
    q: Seq<i16>,
    options: QueryOptions,
    ended: Seq<(i64, u32)>,
) -> bool {
    let near = search::probe(m, q, search::first_probe(m, options));
    &&& near.len() <= ended.len() <= 5
    &&& forall|i: int|
        0 <= i < ended.len() ==> {
            &&& (#[trigger] ended[i]).1 < m.vectors.len()
            &&& ended[i].0 == distance::distance(q, m.vectors[ended[i].1 as int])
        }
    &&& forall|i: int, j: int| 0 <= i <= j < ended.len() ==> ended[i].0 <= ended[j].0
    &&& forall|i: int| 0 <= i < near.len() ==> (#[trigger] ended[i]).0 <= near[i].0
}

proof fn lemma_repair_walk_sound(
    m: IndexView,
    q: Seq<i16>,
    list: Seq<(i64, u32)>,
    i: int,
    cand: Seq<(i64, u32)>,
    min: int,
    max: int,
)
    requires
        m.valid(),
        search::sound_candidates(m, q, cand),
        forall|k: int| 0 <= k < list.len() ==> (#[trigger] list[k]).1 < m.cells.len(),
    ensures
        search::sound_candidates(m, q, search::repair_walk(m, q, list, i, cand, min, max)),
    decreases list.len() - i,
{
    if 0 <= i < list.len() && !(cand.len() == 5 && list[i].0 >= cand[4].0) {
        search::lemma_scan_cell_sound(m, q, list[i].1 as int, cand);
        let next = search::scan_cell(m, q, list[i].1 as int, cand);
        lemma_repair_walk_sound(m, q, list, i + 1, next, min, max);
    }
}

/// A repair yields sound candidates.
pub proof fn lemma_repair_sound(
    m: IndexView,
    q: Seq<i16>,
    cand: Seq<(i64, u32)>,
    order: Seq<(i64, u32)>,
    done: int,
    min: int,
    max: int,
    cap: int,
)
    requires
        m.valid(),
        search::sound_candidates(m, q, cand),
    ensures
        search::sound_candidates(m, q, search::repair(m, q, cand, order, done, min, max, cap)),
{
    if m.cell_bounds is Some {
        let n = search::centroid_limit(m) as nat;
        let items = search::repair_items(m, q, order, done, cand, n);
        let list = ranking::capped(ranking::ranked(items), cap as nat);
        search::lemma_repair_items(m, q, order, done, cand, n);
        ranking::lemma_ranked(items);
        items.to_multiset_ensures();
        ranking::ranked(items).to_multiset_ensures();
        assert forall|k: int| 0 <= k < list.len() implies (#[trigger] list[k]).1
            < m.cells.len() by {
            assert(ranking::ranked(items).contains(list[k])) by {
                assert(ranking::ranked(items)[k] == list[k]);
            }
            assert(items.to_multiset().count(list[k]) > 0);
            assert(items.contains(list[k]));
        }
        lemma_repair_walk_sound(m, q, list, 0, cand, min, max);
    }
}

/// Whatever the index, the query, the options and the exact distances, the answer is the
/// number of frauds among candidates that the search may end with. They are those of the
/// first probe where nothing is doubtful, and those of the wide probe or of the repair
/// where something is.
pub proof fn lemma_answer_counts_frauds(
    m: IndexView,
    q: Seq<i16>,
    options: QueryOptions,
    keys: Seq<Option<u32>>,
)
    requires
        m.valid(),
        q.len() == 16,
    ensures
        exists|ended: Seq<(i64, u32)>|
            {
                let near = search::probe(m, q, search::first_probe(m, options));
                &&& #[trigger] may_end_with(m, q, options, ended)
                &&& search::answer(m, q, options, keys) == fraud_places(m, ended).len()
                &&& !doubtful(m, q, options, keys) ==> ended == near
                &&& doubtful(m, q, options, keys) && options.repair_mode != RepairMode::Bbox
                    ==> ended == search::probe(m, q, search::wide_probe(m, options))
                &&& doubtful(m, q, options, keys) && options.repair_mode == RepairMode::Bbox
                    ==> ended == search::repair(
                    m,
                    q,
                    near,
                    search::centroid_order(m, q),
                    search::first_probe(m, options),
                    search::least(options.repair_min as int, 5),
                    search::least(options.repair_max as int, 5),
                    search::clamp(options.repair_candidates as int, 1, 128),
                )
            },
        search::answer(m, q, options, keys) <= 5,
{
    let order = search::centroid_order(m, q);
    let first = search::first_probe(m, options);
    let wide = search::wide_probe(m, options);
    let near = search::probe(m, q, first);
    let min = search::least(options.repair_min as int, 5);
    let max = search::least(options.repair_max as int, 5);
    let cap = search::clamp(options.repair_candidates as int, 1, 128);
    let ended = if !doubtful(m, q, options, keys) {
        near
    } else if options.repair_mode == RepairMode::Bbox {
        search::repair(m, q, near, order, first, min, max, cap)
    } else {
        search::probe(m, q, wide)
    };
    search::lemma_probe_sound(m, q, first);
    search::lemma_wider_probe_improves(m, q, first, first);
    lemma_frauds_are_counted(m, near);
    lemma_frauds_are_counted(m, ended);
    if doubtful(m, q, options, keys) {
        if options.repair_mode == RepairMode::Bbox {
            lemma_repair_sound(m, q, near, order, first, min, max, cap);
            search::lemma_repair_improves(m, q, near, order, first, min, max, cap);
        } else {
            search::lemma_probe_sound(m, q, wide);
            search::lemma_wider_probe_improves(m, q, first, wide);
        }
    }
    assert forall|i: int| 0 <= i < ended.len() implies {
        &&& (#[trigger] ended[i]).1 < m.vectors.len()
        &&& ended[i].0 == distance::distance(q, m.vectors[ended[i].1 as int])
    } by {
        assert(ended[i] == search::candidate(m, q, ended[i].1 as int));
        distance::lemma_distance(q, m.vectors[ended[i].1 as int]);
    }
    assert(may_end_with(m, q, options, ended));
}

/// How many cells are probed: as many as asked for, but at least one, at most 64, and no
/// more than there are; where the search widens by centroids it goes on to 48.
pub proof fn lemma_probe_sizes(m: IndexView, options: QueryOptions)
    ensures
        ({
            let first = search::first_probe(m, options);
            let wide = search::wide_probe(m, options);
            let cells = m.centroids.len();
            &&& 0 <= first <= cells && 0 <= wide <= cells
            &&& 1 <= options.nprobe <= 64 && options.nprobe <= cells ==> first == options.nprobe
            &&& options.nprobe <= cells && options.nprobe == 0 && cells > 0 ==> first == 1
            &&& options.nprobe > 64 && cells >= 64 ==> first == 64
            &&& options.nprobe >= cells && cells <= 64 && options.nprobe > 0 ==> first == cells
            &&& options.nprobe == 0 && cells == 0 ==> first == 0
            &&& options.repair_mode == RepairMode::Bbox ==> wide == first
            &&& options.repair_mode == RepairMode::Pattern && first != 10 && first != 12 ==> wide
                == first
            &&& options.repair_mode == RepairMode::Pattern && (first == 10 || first == 12) && cells
                >= 48 ==> wide == 48
            &&& options.repair_mode == RepairMode::Pattern && (first == 10 || first == 12) && cells
                < 48 ==> wide == cells
            &&& options.repair_mode == RepairMode::AmbiguousCentroid && cells >= 48 ==> wide == 48
            &&& options.repair_mode == RepairMode::AmbiguousCentroid && cells < 48 ==> wide == cells
        }),
{
}

/// The pattern has a bit for each rank, set where the label of that rank says fraud.
pub proof fn lemma_pattern_bits(ranks: Seq<(Option<u32>, u8)>, i: int)
    requires
        0 <= i < ranks.len(),
    ensures
        (search::pattern(ranks) / pow2(i as nat)) % 2 == 1 <==> ranks[i].1 == 1,
    decreases ranks.len(),
{
    let rest = ranks.drop_first();
    let tail = search::pattern(rest);
    vstd::arithmetic::power2::lemma2_to64();
    if i > 0 {
        lemma_pattern_bits(rest, i - 1);
        assert(rest[i - 1] == ranks[i]);
        vstd::arithmetic::power2::lemma_pow2_pos((i - 1) as nat);
        vstd::arithmetic::power2::lemma_pow2_unfold(i as nat);
        vstd::arithmetic::div_mod::lemma_div_denominator(
            search::pattern(ranks) as int,
            2,
            pow2((i - 1) as nat) as int,
        );
        assert(search::pattern(ranks) / 2 == tail);
    } else {
        assert(search::pattern(ranks) / 1 == search::pattern(ranks));
    }
}

/// No pattern has more bits than there are ranks.
pub proof fn lemma_pattern_is_bounded(ranks: Seq<(Option<u32>, u8)>)
    ensures
        search::pattern(ranks) < pow2(ranks.len()),
    decreases ranks.len(),
{
    vstd::arithmetic::power2::lemma2_to64();
    if ranks.len() > 0 {
        lemma_pattern_is_bounded(ranks.drop_first());
        vstd::arithmetic::power2::lemma_pow2_unfold(ranks.len());
    }
}

/// A pattern is risky only after ten or twelve probes and only where two or three of
/// the five nearest are frauds, and what is risky at some gap to the next centroid is
/// risky at every smaller one.
pub proof fn lemma_risky(probe: int, bits: int, last: int, next: int, nearer: int)
    requires
        search::risky(probe, bits, last, next),
        nearer <= next,
    ensures
        search::risky(probe, bits, last, nearer),
        probe == 10 || probe == 12,
        0 <= bits < 32,
        2 <= bits % 2 + bits / 2 % 2 + bits / 4 % 2 + bits / 8 % 2 + bits / 16 % 2 <= 3,
        !(bits % 2 == 1 && bits / 4 % 2 == 1),
        bits == 22 ==> probe == 10,
        next - last <= 3_800_000,
        probe == 10 ==> next - last <= 1_200_000,
{
}

/// The gaps up to which the patterns are risky, each pattern written with the nearest
/// label as its lowest bit.
pub proof fn lemma_risky_gaps(probe: int, bits: int, last: int, next: int)
    ensures
        ({
            let gap = next - last;
            let risky = search::risky(probe, bits, last, next);
            &&& probe == 10 && (bits == 6 || bits == 10 || bits == 19) ==> risky == (gap <= 500_000)
            &&& probe == 10 && bits == 12 ==> risky == (gap <= 600_000)
            &&& probe == 10 && bits == 18 ==> risky == (gap <= 1_200_000)
            &&& probe == 10 && bits == 22 ==> risky == (gap <= 700_000)
            &&& probe == 12 && bits == 6 ==> risky == (gap <= 1_600_000)
            &&& probe == 12 && bits == 10 ==> risky == (gap <= 3_800_000)
            &&& probe == 12 && bits == 12 ==> risky == (gap <= 1_000_000)
            &&& probe == 12 && bits == 18 ==> risky == (gap <= 1_800_000)
            &&& probe == 12 && bits == 19 ==> risky == (gap <= 500_000)
            &&& (probe == 10 || probe == 12) && bits == 28 ==> risky == (gap <= 150_000)
            &&& !set![6int, 10, 12, 18, 19, 22, 28].contains(bits) ==> !risky
        }),
{
}

/// Cells that have no vector in common.
pub open spec fn cells_apart(m: IndexView) -> bool {
    forall|c: int, d: int|
        0 <= c < m.cells.len() && 0 <= d < m.cells.len() && c != d ==> {
            ||| (#[trigger] m.cells[c]).start + m.cells[c].count <= (#[trigger] m.cells[d]).start
            ||| m.cells[d].start + m.cells[d].count <= m.cells[c].start
        }
}

/// `entry` is vector number `j` of the cell of one of the first `n` centroids.
pub open spec fn from_cell(
    m: IndexView,
    q: Seq<i16>,
    order: Seq<(i64, u32)>,
    n: int,
    entry: (i64, u32),
    k: int,
    j: int,
) -> bool {
    &&& 0 <= k < n
    &&& 0 <= j < m.cells[order[k].1 as int].count
    &&& entry == search::candidate(m, q, m.cells[order[k].1 as int].start + j)
}

/// `entry` is a vector of the cell of one of the first `n` centroids.
pub open spec fn from_some_cell(
    m: IndexView,
    q: Seq<i16>,
    order: Seq<(i64, u32)>,
    n: int,
    entry: (i64, u32),
) -> bool {
    exists|k: int, j: int| from_cell(m, q, order, n, entry, k, j)
}

proof fn lemma_probed_apart(m: IndexView, q: Seq<i16>, n: nat)
    requires
        m.valid(),
        cells_apart(m),
        n <= search::centroid_limit(m),
    ensures
        ({
            let order = search::centroid_order(m, q);
            let all = search::probed_candidates(m, q, order, n);
            &&& forall|i: int|
                0 <= i < all.len() ==> from_some_cell(m, q, order, n as int, #[trigger] all[i])
            &&& all.no_duplicates()
        }),
    decreases n,
{
    let order = search::centroid_order(m, q);
    let all = search::probed_candidates(m, q, order, n);
    if n > 0 {
        let before = search::probed_candidates(m, q, order, (n - 1) as nat);
        let c = order[n - 1].1 as int;
        let cell = m.cells[c];
        let added = search::cell_candidates(m, q, c);
        lemma_probed_apart(m, q, (n - 1) as nat);
        search::lemma_centroid_order(m, q);
        assert(cell.start + cell.count <= m.vectors.len());
        assert forall|i: int| 0 <= i < all.len() implies from_some_cell(
            m,
            q,
            order,
            n as int,
            #[trigger] all[i],
        ) by {
            if i < before.len() {
                assert(all[i] == before[i]);
                assert(from_some_cell(m, q, order, n - 1, before[i]));
                let earlier = n - 1;
                let entry = before[i];
                let (k, j) = choose|k: int, j: int| from_cell(m, q, order, earlier, entry, k, j);
                assert(from_cell(m, q, order, n as int, all[i], k, j));
            } else {
                assert(all[i] == added[i - before.len()]);
                assert(from_cell(m, q, order, n as int, all[i], n - 1, i - before.len()));
            }
        }
        assert forall|a: int, b: int| 0 <= a < all.len() && 0 <= b < all.len() && a != b implies
            all[a] != all[b] by {
            lemma_added_apart(m, q, n, a, b);
        }
    }
}

proof fn lemma_added_apart(m: IndexView, q: Seq<i16>, n: nat, a: int, b: int)
    requires
        m.valid(),
        cells_apart(m),
        0 < n <= search::centroid_limit(m),
        ({
            let order = search::centroid_order(m, q);
            let before = search::probed_candidates(m, q, order, (n - 1) as nat);
            let all = search::probed_candidates(m, q, order, n);
            &&& before.no_duplicates()
            &&& forall|i: int|
                0 <= i < before.len() ==> from_some_cell(m, q, order, n - 1, #[trigger] before[i])
            &&& 0 <= a < all.len()
            &&& 0 <= b < all.len()
            &&& a != b
        }),
    ensures
        ({
            let all = search::probed_candidates(m, q, search::centroid_order(m, q), n);
            all[a] != all[b]
        }),
{
    let order = search::centroid_order(m, q);
    let all = search::probed_candidates(m, q, order, n);
    let before = search::probed_candidates(m, q, order, (n - 1) as nat);
    let c = order[n - 1].1 as int;
    let cell = m.cells[c];
    let added = search::cell_candidates(m, q, c);
    search::lemma_centroid_order(m, q);
    assert(cell.start + cell.count <= m.vectors.len());
    if a < before.len() && b < before.len() {
        assert(all[a] == before[a] && all[b] == before[b]);
    } else if a >= before.len() && b >= before.len() {
        assert(all[a] == added[a - before.len()] && all[b] == added[b - before.len()]);
    } else {
        let (x, y) = if a < before.len() {
            (a, b)
        } else {
            (b, a)
        };
        assert(all[x] == before[x] && all[y] == added[y - before.len()]);
        assert(from_some_cell(m, q, order, n - 1, before[x]));
        let earlier = n - 1;
        let entry = before[x];
        let (k, j) = choose|k: int, j: int| from_cell(m, q, order, earlier, entry, k, j);
        assert(from_cell(m, q, order, earlier, entry, k, j));
        let d = order[k].1 as int;
        assert(d != c);
        assert(m.cells[d].start + m.cells[d].count <= m.vectors.len());
        assert(m.cells[c].start + m.cells[c].count <= m.cells[d].start || m.cells[d].start
            + m.cells[d].count <= m.cells[c].start);
    }
}

/// Where the cells have no vector in common, no vector is a candidate twice.
pub proof fn lemma_candidates_are_different(m: IndexView, q: Seq<i16>, n: int, i: int, j: int)
    requires
        m.valid(),
        search::boxes_sound(m),
        cells_apart(m),
        q.len() == 16,
        0 <= n <= search::centroid_limit(m),
        0 <= i < j < search::probe(m, q, n).len(),
    ensures
        search::probe(m, q, n)[i].1 != search::probe(m, q, n)[j].1,
{
    let kept = search::probe(m, q, n);
    let all = search::probed_candidates(m, q, search::centroid_order(m, q), n as nat);
    let ranks = ranking::ranked(all);
    search::lemma_probe_is_exact(m, q, n);
    search::lemma_probe_sound(m, q, n);
    lemma_probed_apart(m, q, n as nat);
    ranking::lemma_ranked(all);
    all.lemma_multiset_has_no_duplicates();
    ranks.lemma_multiset_has_no_duplicates_conv();
    assert(kept[i] == ranks[i] && kept[j] == ranks[j]);
    assert(kept[i] == search::candidate(m, q, kept[i].1 as int));
    assert(kept[j] == search::candidate(m, q, kept[j].1 as int));
}

/// Wherever the probed cells hold five vectors or more, there are five candidates;
/// else every one of their vectors is a candidate.
pub proof fn lemma_five_candidates(m: IndexView, q: Seq<i16>, n: int)
    requires
        m.valid(),
        search::boxes_sound(m),
        q.len() == 16,
        0 <= n <= search::centroid_limit(m),
    ensures
        ({
            let all = vectors_in(m, search::centroid_order(m, q), n as nat);
            search::probe(m, q, n).len() == if all <= 5 {
                all
            } else {
                5
            }
        }),
{
    let all = search::probed_candidates(m, q, search::centroid_order(m, q), n as nat);
    search::lemma_probe_is_exact(m, q, n);
    ranking::lemma_ranked(all);
    lemma_probed_len(m, q, search::centroid_order(m, q), n as nat);
}

/// How many vectors the cells of the first `n` centroids of `order` hold.
pub open spec fn vectors_in(m: IndexView, order: Seq<(i64, u32)>, n: nat) -> nat
    decreases n,
{
    if n == 0 {
        0
    } else {
        vectors_in(m, order, (n - 1) as nat) + m.cells[order[n - 1].1 as int].count as nat
    }
}

proof fn lemma_probed_len(m: IndexView, q: Seq<i16>, order: Seq<(i64, u32)>, n: nat)
    ensures
        search::probed_candidates(m, q, order, n).len() == vectors_in(m, order, n),
    decreases n,
{
    if n > 0 {
        lemma_probed_len(m, q, order, (n - 1) as nat);
    }
}

/// What a search by an index answers, whatever its exact distances are, is the number
/// of frauds among candidates that it may end with.
pub proof fn lemma_every_answer_counts_frauds<V, E: Fn(&V, &[i16; 16]) -> Option<u32>>(
    vector: &V,
    q: Seq<i16>,
    exact: E,
    m: IndexView,
    options: QueryOptions,
    fraud: nat,
)
    requires
        m.valid(),
        q.len() == 16,
        index::quantized_answer(vector, q, exact, m, options, fraud),
    ensures
        exists|ended: Seq<(i64, u32)>|
            #[trigger] may_end_with(m, q, options, ended) && fraud == fraud_places(m, ended).len(),
{
    let keys = choose|keys: Seq<Option<u32>>|
        {
            &&& #[trigger] index::exact_keys(vector, exact, m, q, options, keys)
            &&& fraud == search::answer(m, q, options, keys)
        };
    lemma_answer_counts_frauds(m, q, options, keys);
}

/// However a search ends, by whatever exact distances, what it returns is the number of
/// frauds among candidates that it may end with.
pub proof fn lemma_concluded_search_counts_frauds<'a>(
    searched: &IvfIndex<'a>,
    s: Search,
    keys: &[Option<u32>; 5],
    fraud: u8,
)
    requires
        searched.wf(),
        s.begun_on(searched@),
        s.query().len() == 16,
        call_ensures(IvfIndex::<'a>::conclude_search, (searched, s, keys), fraud),
    ensures
        exists|ended: Seq<(i64, u32)>|
            {
                &&& #[trigger] may_end_with(searched@, s.query(), s.options(), ended)
                &&& fraud == fraud_places(searched@, ended).len()
                &&& !doubtful(searched@, s.query(), s.options(), keys@) ==> ended == s.candidates()
            },
{
    searched.lemma_valid();
    s.lemma_begun(searched@);
    lemma_answer_counts_frauds(searched@, s.query(), s.options(), keys@);
}

/// The production entry point answers as the production setting does: by the frauds
/// among the candidates of the first probe, or of the wide one where the pattern of the
/// first is risky.
pub proof fn lemma_query_counts_frauds<'a, V, E: Fn(&V, &[i16; 16]) -> Option<u32>>(
    searched: &IvfIndex<'a>,
    vector: &V,
    q: &[i16; 16],
    exact: E,
    nprobe: usize,
    fraud: u8,
)
    requires
        searched.wf(),
        call_ensures(
            IvfIndex::<'a>::query_quantized::<V, E>,
            (searched, vector, q, exact, nprobe),
            fraud,
        ),
    ensures
        ({
            let options = search::production_options(nprobe);
            let near = search::probe(searched@, q@, search::first_probe(searched@, options));
            let far = search::probe(searched@, q@, search::wide_probe(searched@, options));
            ||| fraud == fraud_places(searched@, near).len()
            ||| fraud == fraud_places(searched@, far).len() && search::wide_probe(
                searched@,
                options,
            ) > search::first_probe(searched@, options)
        }),
{
    let m = searched@;
    let options = search::production_options(nprobe);
    let keys = choose|keys: Seq<Option<u32>>|
        {
            &&& #[trigger] index::exact_keys(vector, exact, m, q@, options, keys)
            &&& fraud as nat == search::answer(m, q@, options, keys)
        };
    lemma_production_answer(m, q@, nprobe, keys);
}

/// The exact distances that a pattern is made of are those of the candidates of the
/// first probe, each of its own.
pub proof fn lemma_keys_of_candidates<V, E: Fn(&V, &[i16; 16]) -> Option<u32>>(
    vector: &V,
    exact: E,
    m: IndexView,
    q: Seq<i16>,
    options: QueryOptions,
    keys: Seq<Option<u32>>,
    i: int,
)
    requires
        index::exact_keys(vector, exact, m, q, options, keys),
        0 <= i < search::probe(m, q, search::first_probe(m, options)).len(),
    ensures
        exists|a: [i16; 16]|
            {
                let cand = search::probe(m, q, search::first_probe(m, options));
                #[trigger] exact.ensures((vector, &a), keys[i]) && a@ == m.vectors[cand[i].1 as int]
            },
{
    let cand = search::probe(m, q, search::first_probe(m, options));
    assert(index::exact_key(vector, exact, m.vectors[cand[i].1 as int], keys[i]));
}

} // verus!
