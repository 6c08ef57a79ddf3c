//! Bringing vectors into the order of an index: cell by cell, and within each
//! cell by distance from its centroid.
use vstd::prelude::*;

verus! {

/// How many vectors are assigned to cell `c`.
pub open spec fn cell_size(assign: Seq<u32>, c: int) -> nat
    decreases assign.len(),
{
    if assign.len() == 0 {
        0
    } else {
        cell_size(assign.drop_last(), c) + if assign.last() == c {
            1nat
        } else {
            0nat
        }
    }
}

/// How many vectors are assigned to the cells before `c`.
pub open spec fn cell_start(assign: Seq<u32>, c: int) -> nat
    decreases c,
{
    if c <= 0 {
        0
    } else {
        cell_start(assign, c - 1) + cell_size(assign, c - 1)
    }
}

proof fn lemma_cell_start_grows(assign: Seq<u32>, c: int)
    requires
        assign.len() > 0,
        0 <= c,
    ensures
        cell_start(assign, c) == cell_start(assign.drop_last(), c) + if assign.last() < c {
            1nat
        } else {
            0nat
        },
    decreases c,
{
    if c > 0 {
        lemma_cell_start_grows(assign, c - 1);
    }
}

/// Cells that together take all vectors have all of them.
pub proof fn lemma_cells_take_all(assign: Seq<u32>, k: int)
    requires
        0 <= k,
        forall|i: int| 0 <= i < assign.len() ==> (#[trigger] assign[i]) < k,
    ensures
        cell_start(assign, k) == assign.len(),
    decreases assign.len(),
{
    if assign.len() > 0 {
        lemma_cell_start_grows(assign, k);
        assert(assign[assign.len() - 1] < k);
        assert forall|i: int| 0 <= i < assign.drop_last().len() implies (
        #[trigger] assign.drop_last()[i]) < k by {
            assert(assign.drop_last()[i] == assign[i]);
        }
        lemma_cells_take_all(assign.drop_last(), k);
    } else {
        lemma_no_cells(assign, k);
    }
}

proof fn lemma_no_cells(assign: Seq<u32>, k: int)
    requires
        assign.len() == 0,
    ensures
        cell_start(assign, k) == 0,
    decreases k,
{
    if k > 0 {
        lemma_no_cells(assign, k - 1);
    }
}

/// Cells follow one another without overlap.
pub proof fn lemma_cells_apart(assign: Seq<u32>, c: int, d: int)
    requires
        0 <= c < d,
    ensures
        cell_start(assign, c) + cell_size(assign, c) <= cell_start(assign, d),
    decreases d,
{
    if c < d - 1 {
        lemma_cells_apart(assign, c, d - 1);
    }
}

/// A cell has no more vectors of a front part than of all.
proof fn lemma_cell_size_grows(assign: Seq<u32>, i: int, c: int)
    requires
        0 <= i <= assign.len(),
    ensures
        cell_size(assign.take(i), c) <= cell_size(assign, c),
    decreases assign.len(),
{
    if i < assign.len() {
        lemma_cell_size_grows(assign.drop_last(), i, c);
        assert(assign.drop_last().take(i) =~= assign.take(i));
    } else {
        assert(assign.take(i) =~= assign);
    }
}

/// Where vector `i` goes: behind all vectors of earlier cells, and behind those
/// of its own cell that come before it.
pub open spec fn destination(assign: Seq<u32>, i: int) -> int {
    (cell_start(assign, assign[i] as int) + cell_size(assign.take(i), assign[i] as int)) as int
}

proof fn lemma_destination(assign: Seq<u32>, i: int)
    requires
        0 <= i < assign.len(),
    ensures
        ({
            let c = assign[i] as int;
            &&& cell_start(assign, c) <= destination(assign, i) < cell_start(assign, c) + cell_size(
                assign,
                c,
            )
            &&& cell_size(assign.take(i + 1), c) == cell_size(assign.take(i), c) + 1
            &&& forall|d: int|
                d != c ==> #[trigger] cell_size(assign.take(i + 1), d) == cell_size(
                    assign.take(i),
                    d,
                )
        }),
{
    let c = assign[i] as int;
    assert(assign.take(i + 1).drop_last() =~= assign.take(i));
    lemma_cell_size_grows(assign, i + 1, c);
}

proof fn lemma_places_apart(assign: Seq<u32>, c: int, d: int, p: int)
    requires
        0 <= c,
        0 <= d,
        c != d,
        cell_start(assign, c) <= p < cell_start(assign, c) + cell_size(assign, c),
    ensures
        !(cell_start(assign, d) <= p < cell_start(assign, d) + cell_size(assign, d)),
{
    if c < d {
        lemma_cells_apart(assign, c, d);
    } else {
        lemma_cells_apart(assign, d, c);
    }
}

proof fn lemma_destinations_differ(assign: Seq<u32>, j: int, i: int)
    requires
        0 <= j < i < assign.len(),
    ensures
        destination(assign, j) != destination(assign, i),
{
    lemma_destination(assign, j);
    lemma_destination(assign, i);
    let c = assign[i] as int;
    let d = assign[j] as int;
    if c == d {
        lemma_cell_size_grows(assign.take(i), j + 1, c);
        assert(assign.take(i).take(j + 1) =~= assign.take(j + 1));
    } else {
        lemma_places_apart(assign, d, c, destination(assign, j));
    }
}

/// `order` lists vectors of cell `c` among the first `seen`, in their given
/// order, in the places from the cell's start up to `end`.
pub open spec fn cell_listed(
    assign: Seq<u32>,
    order: Seq<u32>,
    c: int,
    end: int,
    seen: int,
) -> bool {
    &&& forall|p: int|
        cell_start(assign, c) <= p < end ==> (#[trigger] order[p]) < seen && assign[order[p] as int]
            == c
    &&& forall|p: int, r: int|
        cell_start(assign, c) <= p < r < end ==> order[p] < order[r]
}

/// Vectors grouped by cell.
pub struct Grouping {
    /// Where each cell starts.
    pub starts: Vec<u32>,
    /// How many vectors each cell has.
    pub counts: Vec<u32>,
    /// For each place the number of the vector that goes there.
    pub order: Vec<u32>,
}

impl Grouping {
    /// The grouping of vectors assigned to `k` cells: each vector at its
    /// destination, and each cell in its given order.
    pub open spec fn groups(&self, assign: Seq<u32>, k: int) -> bool {
        &&& self.starts@.len() == k
        &&& self.counts@.len() == k
        &&& self.order@.len() == assign.len()
        &&& forall|c: int| 0 <= c < k ==> #[trigger] self.starts@[c] == cell_start(assign, c)
        &&& forall|c: int| 0 <= c < k ==> #[trigger] self.counts@[c] == cell_size(assign, c)
        &&& forall|i: int|
            0 <= i < assign.len() ==> self.order@[#[trigger] destination(assign, i)] == i
        &&& forall|c: int|
            0 <= c < k ==> #[trigger] cell_listed(
                assign,
                self.order@,
                c,
                (cell_start(assign, c) + cell_size(assign, c)) as int,
                assign.len() as int,
            )
    }
}

fn count_cells(assign: &[u32], num_cells: usize) -> (counts: Vec<u32>)
    requires
        assign.len() <= u32::MAX,
        forall|i: int| 0 <= i < assign@.len() ==> (#[trigger] assign@[i]) < num_cells,
    ensures
        counts@.len() == num_cells,
        forall|c: int| 0 <= c < num_cells ==> #[trigger] counts@[c] == cell_size(assign@, c),
{
    let mut counts: Vec<u32> = Vec::new();
    for c in 0..num_cells
        invariant
            counts@.len() == c,
            forall|k: int| 0 <= k < c ==> #[trigger] counts@[k] == 0,
    {
        counts.push(0);
    }
    for i in 0..assign.len()
        invariant
            assign.len() <= u32::MAX,
            counts@.len() == num_cells,
            forall|j: int| 0 <= j < assign@.len() ==> (#[trigger] assign@[j]) < num_cells,
            forall|c: int|
                0 <= c < num_cells ==> #[trigger] counts@[c] == cell_size(
                    assign@.take(i as int),
                    c,
                ),
            forall|c: int| 0 <= c < num_cells ==> (#[trigger] counts@[c]) <= i,
    {
        let a = assign[i] as usize;
        proof {
            assert(assign@.take(i + 1).drop_last() =~= assign@.take(i as int));
            assert(assign@.take(i + 1).last() == a);
        }
        counts[a] = counts[a] + 1;
    }
    assert(assign@.take(assign@.len() as int) =~= assign@);
    counts
}

fn sum_counts(assign: &[u32], counts: &Vec<u32>) -> (starts: Vec<u32>)
    requires
        assign.len() <= u32::MAX,
        forall|i: int| 0 <= i < assign@.len() ==> (#[trigger] assign@[i]) < counts@.len(),
        forall|c: int| 0 <= c < counts@.len() ==> #[trigger] counts@[c] == cell_size(assign@, c),
    ensures
        starts@.len() == counts@.len(),
        forall|c: int| 0 <= c < counts@.len() ==> #[trigger] starts@[c] == cell_start(assign@, c),
{
    let mut starts: Vec<u32> = Vec::new();
    let mut acc: u32 = 0;
    proof {
        lemma_cells_take_all(assign@, counts@.len() as int);
    }
    for c in 0..counts.len()
        invariant
            assign.len() <= u32::MAX,
            cell_start(assign@, counts@.len() as int) == assign@.len(),
            forall|k: int|
                0 <= k < counts@.len() ==> #[trigger] counts@[k] == cell_size(assign@, k),
            starts@.len() == c,
            acc == cell_start(assign@, c as int),
            forall|k: int| 0 <= k < c ==> #[trigger] starts@[k] == cell_start(assign@, k),
    {
        starts.push(acc);
        proof {
            lemma_cells_apart(assign@, c as int, counts@.len() as int);
            assert(cell_start(assign@, c + 1) == cell_start(assign@, c as int) + cell_size(
                assign@,
                c as int,
            ));
        }
        acc = acc + counts[c];
    }
    starts
}

/// Groups vectors by the cell they are assigned to, keeping their order within
/// each cell.
pub fn group_by_cell(assign: &[u32], num_cells: usize) -> (g: Grouping)
    requires
        assign.len() <= u32::MAX,
        forall|i: int| 0 <= i < assign@.len() ==> (#[trigger] assign@[i]) < num_cells,
    ensures
        g.groups(assign@, num_cells as int),
{
    let counts = count_cells(assign, num_cells);
    let starts = sum_counts(assign, &counts);
    let n = assign.len();
    let ghost a = assign@;
    let mut cursor: Vec<u32> = Vec::new();
    for c in 0..num_cells
        invariant
            starts@.len() == num_cells,
            cursor@ == starts@.take(c as int),
    {
        cursor.push(starts[c]);
        assert(starts@.take(c + 1) =~= starts@.take(c as int).push(starts@[c as int]));
    }
    let mut order: Vec<u32> = Vec::new();
    for i in 0..n
        invariant
            order@.len() == i,
    {
        order.push(0);
    }
    assert(a.take(0) =~= Seq::empty());
    for i in 0..n
        invariant
            n == assign.len() <= u32::MAX,
            a == assign@,
            forall|j: int| 0 <= j < a.len() ==> (#[trigger] a[j]) < num_cells,
            order@.len() == n,
            cursor@.len() == num_cells,
            forall|c: int|
                0 <= c < num_cells ==> #[trigger] cursor@[c] == cell_start(a, c) + cell_size(
                    a.take(i as int),
                    c,
                ),
            forall|j: int| 0 <= j < i ==> order@[#[trigger] destination(a, j)] == j,
            forall|c: int|
                0 <= c < num_cells ==> cell_listed(
                    a,
                    order@,
                    c,
                    (#[trigger] cursor@[c]) as int,
                    i as int,
                ),
    {
        let c = assign[i] as usize;
        let ghost before = order@;
        let ghost marks = cursor@;
        proof {
            lemma_destination(a, i as int);
            lemma_cells_apart(a, c as int, num_cells as int);
            lemma_cells_take_all(a, num_cells as int);
        }
        let pos = cursor[c] as usize;
        order[pos] = i as u32;
        cursor[c] = cursor[c] + 1;
        proof {
            assert(pos == destination(a, i as int));
            assert forall|j: int| 0 <= j < i + 1 implies order@[#[trigger] destination(a, j)]
                == j by {
                if j < i {
                    lemma_destinations_differ(a, j, i as int);
                    lemma_destination(a, j);
                    lemma_cells_apart(a, a[j] as int, num_cells as int);
                    assert(before[destination(a, j)] == j);
                }
            }
            assert forall|d: int| 0 <= d < num_cells implies cell_listed(
                a,
                order@,
                d,
                (#[trigger] cursor@[d]) as int,
                i + 1,
            ) by {
                assert(cell_listed(a, before, d, marks[d] as int, i as int));
                lemma_cell_size_grows(a, i as int, d);
                lemma_cells_apart(a, d, num_cells as int);
                if d != c {
                    lemma_places_apart(a, c as int, d, pos as int);
                }
            }
        }
    }
    proof {
        assert(a.take(n as int) =~= a);
        assert forall|c: int| 0 <= c < num_cells implies #[trigger] cell_listed(
            a,
            order@,
            c,
            (cell_start(a, c) + cell_size(a, c)) as int,
            a.len() as int,
        ) by {
            assert(cell_listed(a, order@, c, cursor@[c] as int, n as int));
        }
    }
    Grouping { starts, counts, order }
}

/// The key by which floating-point values are put in their total order, from the
/// bits of the value: positive ones by their bits, and below them the negative
/// ones the other way round.
pub open spec fn total_order(bits: u32) -> int {
    if bits < 0x8000_0000 {
        bits as int
    } else {
        0x7fff_ffff - bits
    }
}

/// Computes the key of a floating-point value from its bits.
pub fn total_order_key(bits: u32) -> (key: i32)
    ensures
        key == total_order(bits),
{
    if bits < 0x8000_0000 {
        bits as i32
    } else {
        (0x7fff_ffff - bits as i64) as i32
    }
}

/// Pairs compare by their first parts, and by their second parts where those are
/// equal.
pub open spec fn pair_below(a: (i32, u32), b: (i32, u32)) -> bool {
    a.0 < b.0 || (a.0 == b.0 && a.1 < b.1)
}

/// Calls `sort_unstable` of std's slices: the pairs are the same, each as often as
/// before, and stand in ascending order.
#[verifier::external_body]
fn sort_pairs(pairs: &mut Vec<(i32, u32)>)
    ensures
        final(pairs)@.to_multiset() == old(pairs)@.to_multiset(),
        forall|i: int, j: int|
            0 <= i < j < final(pairs)@.len() ==> pair_below(
                #[trigger] final(pairs)@[i],
                #[trigger] final(pairs)@[j],
            ) || final(pairs)@[i] == final(pairs)@[j],
{
    pairs.sort_unstable();
}

/// Vector `v` comes before `w`: its key is lower, or they have the same key and
/// it has the lower number.
pub open spec fn before(keys: Seq<i32>, v: u32, w: u32) -> bool {
    pair_below((keys[v as int], v), (keys[w as int], w))
}

/// `order` lists the vectors of cell `c` by their keys, in the places of the cell.
pub open spec fn cell_sorted(
    assign: Seq<u32>,
    keys: Seq<i32>,
    order: Seq<u32>,
    c: int,
) -> bool {
    let from = cell_start(assign, c) as int;
    let to = from + cell_size(assign, c);
    &&& forall|p: int|
        from <= p < to ==> (#[trigger] order[p]) < assign.len() && assign[order[p] as int] == c
    &&& forall|p: int, r: int|
        from <= p < r < to ==> before(keys, #[trigger] order[p], #[trigger] order[r])
}

/// `order` lists all vectors cell by cell, and those of each cell by their keys.
pub open spec fn arranged(assign: Seq<u32>, keys: Seq<i32>, order: Seq<u32>, k: int) -> bool {
    &&& order.len() == assign.len()
    &&& forall|c: int| 0 <= c < k ==> #[trigger] cell_sorted(assign, keys, order, c)
}

/// `v` stands in one of the places from `from` up to `to`.
pub open spec fn found_in(s: Seq<u32>, from: int, to: int, v: u32) -> bool {
    exists|r: int| from <= r < to && #[trigger] s[r] == v
}

fn sort_cell(order: &mut Vec<u32>, start: usize, count: usize, keys: &[i32])
    requires
        start + count <= old(order).len(),
        forall|p: int| start <= p < start + count ==> (#[trigger] old(order)@[p]) < keys@.len(),
        forall|p: int, r: int|
            start <= p < r < start + count ==> old(order)@[p] < old(order)@[r],
    ensures
        final(order)@.len() == old(order)@.len(),
        forall|p: int|
            0 <= p < old(order)@.len() && !(start <= p < start + count)
                ==> #[trigger] final(order)@[p] == old(order)@[p],
        forall|p: int|
            start <= p < start + count ==> found_in(
                old(order)@,
                start as int,
                start + count,
                #[trigger] final(order)@[p],
            ),
        forall|p: int, r: int|
            start <= p < r < start + count ==> before(
                keys@,
                #[trigger] final(order)@[p],
                #[trigger] final(order)@[r],
            ),
{
    let ghost given = order@;
    let mut pairs: Vec<(i32, u32)> = Vec::new();
    for i in 0..count
        invariant
            order@ == given,
            start + count <= order.len(),
            forall|p: int| start <= p < start + count ==> (#[trigger] order@[p]) < keys@.len(),
            pairs@.len() == i,
            forall|j: int|
                0 <= j < i ==> #[trigger] pairs@[j] == (
                    keys@[given[start + j] as int],
                    given[start + j],
                ),
    {
        let v = order[start + i];
        pairs.push((keys[v as usize], v));
    }
    let ghost unsorted = pairs@;
    sort_pairs(&mut pairs);
    let ghost sorted = pairs@;
    proof {
        assert(unsorted.no_duplicates()) by {
            assert forall|i: int, j: int|
                0 <= i < unsorted.len() && 0 <= j < unsorted.len() && i != j implies unsorted[i]
                != unsorted[j] by {
                if i < j {
                    assert(given[start + i] < given[start + j]);
                } else {
                    assert(given[start + j] < given[start + i]);
                }
            }
        }
        unsorted.lemma_multiset_has_no_duplicates();
        sorted.lemma_multiset_has_no_duplicates_conv();
        unsorted.to_multiset_ensures();
        sorted.to_multiset_ensures();
        assert forall|i: int| 0 <= i < sorted.len() implies exists|j: int|
            0 <= j < unsorted.len() && #[trigger] sorted[i] == #[trigger] unsorted[j] by {
            assert(sorted.contains(sorted[i]));
            assert(unsorted.to_multiset().count(sorted[i]) > 0);
            assert(unsorted.contains(sorted[i]));
        }
    }
    for i in 0..count
        invariant
            given.len() == order@.len(),
            start + count <= order.len(),
            pairs@ == sorted,
            sorted.len() == count,
            forall|p: int|
                0 <= p < given.len() && !(start <= p < start + i) ==> #[trigger] order@[p]
                    == given[p],
            forall|j: int| 0 <= j < i ==> order@[start + j] == (#[trigger] sorted[j]).1,
    {
        order[start + i] = pairs[i].1;
    }
    proof {
        assert forall|p: int| start <= p < start + count implies order@[p] == sorted[p - start].1
            && sorted[p - start].0 == keys@[order@[p] as int] && found_in(
            given,
            start as int,
            start + count,
            #[trigger] order@[p],
        ) by {
            let i = p - start;
            assert(order@[start + i] == sorted[i].1);
            let j = choose|j: int|
                0 <= j < unsorted.len() && #[trigger] sorted[i] == #[trigger] unsorted[j];
            assert(order@[p] == given[start + j]);
        }
        assert forall|p: int, r: int| start <= p < r < start + count implies before(
            keys@,
            #[trigger] order@[p],
            #[trigger] order@[r],
        ) by {
            assert(sorted[p - start] != sorted[r - start]);
        }
    }
}

/// Sorts the vectors of each cell by their keys: the keys of their distances from
/// the centroid. Blocks of a cell then lie close together, and more of them can be
/// passed over in a search.
pub fn sort_cells_by_centroid_distance(g: &mut Grouping, assign: &[u32], keys: &[i32])
    requires
        old(g).groups(assign@, old(g).starts@.len() as int),
        forall|i: int| 0 <= i < assign@.len() ==> (#[trigger] assign@[i]) < old(g).starts@.len(),
        assign@.len() <= keys@.len(),
    ensures
        final(g).starts == old(g).starts,
        final(g).counts == old(g).counts,
        arranged(assign@, keys@, final(g).order@, old(g).starts@.len() as int),
{
    let ghost given = *g;
    let ghost a = assign@;
    let k = g.starts.len();
    for c in 0..k
        invariant
            k == given.starts@.len(),
            a == assign@,
            a.len() <= keys@.len(),
            given.groups(a, k as int),
            forall|i: int| 0 <= i < a.len() ==> (#[trigger] a[i]) < k,
            g.starts == given.starts,
            g.counts == given.counts,
            g.order@.len() == a.len(),
            forall|d: int| 0 <= d < c ==> #[trigger] cell_sorted(a, keys@, g.order@, d),
            forall|p: int|
                cell_start(a, c as int) <= p < a.len() ==> #[trigger] g.order@[p]
                    == given.order@[p],
    {
        let ghost prior = g.order@;
        let ghost from = cell_start(a, c as int) as int;
        let ghost to = from + cell_size(a, c as int);
        proof {
            lemma_cells_apart(a, c as int, k as int);
            lemma_cells_take_all(a, k as int);
            assert(cell_listed(a, given.order@, c as int, to, a.len() as int));
            assert(cell_start(a, c + 1) == to);
        }
        let start = g.starts[c] as usize;
        let count = g.counts[c] as usize;
        assert(start == from && start + count == to);
        if count > 1 {
            sort_cell(&mut g.order, start, count, keys);
        }
        proof {
            assert(cell_sorted(a, keys@, g.order@, c as int)) by {
                assert forall|p: int| from <= p < to implies (#[trigger] g.order@[p]) < a.len()
                    && a[g.order@[p] as int] == c by {
                    if count > 1 {
                        assert(found_in(prior, from, to, g.order@[p]));
                        let r = choose|r: int| from <= r < to && #[trigger] prior[r] == g.order@[p];
                        assert(g.order@[p] == given.order@[r]);
                    } else {
                        assert(g.order@[p] == given.order@[p]);
                    }
                }
            }
            assert forall|d: int| 0 <= d < c implies #[trigger] cell_sorted(
                a,
                keys@,
                g.order@,
                d,
            ) by {
                assert(cell_sorted(a, keys@, prior, d));
                lemma_cells_apart(a, d, c as int);
            }
        }
    }
}

/// An arrangement is a permutation: it lists every vector exactly once.
pub proof fn lemma_arranged(assign: Seq<u32>, keys: Seq<i32>, order: Seq<u32>, k: int)
    requires
        arranged(assign, keys, order, k),
        0 <= k,
        forall|i: int| 0 <= i < assign.len() ==> (#[trigger] assign[i]) < k,
    ensures
        forall|p: int| 0 <= p < order.len() ==> (#[trigger] order[p]) < assign.len(),
        forall|p: int, r: int|
            0 <= p < r < order.len() ==> #[trigger] order[p] != #[trigger] order[r],
        forall|i: u32| i < assign.len() ==> #[trigger] order.contains(i),
{
    lemma_cells_take_all(assign, k);
    assert forall|p: int| 0 <= p < order.len() implies (#[trigger] order[p]) < assign.len() by {
        let c = lemma_place_in_cell(assign, k, p);
        assert(cell_sorted(assign, keys, order, c));
    }
    assert forall|p: int, r: int| 0 <= p < r < order.len() implies #[trigger] order[p]
        != #[trigger] order[r] by {
        let c = lemma_place_in_cell(assign, k, p);
        let d = lemma_place_in_cell(assign, k, r);
        assert(cell_sorted(assign, keys, order, c));
        assert(cell_sorted(assign, keys, order, d));
        if c == d {
            assert(before(keys, order[p], order[r]));
        }
    }
    lemma_all_listed(order);
}

/// Different numbers below the length of their list are all numbers below it.
proof fn lemma_all_listed(order: Seq<u32>)
    requires
        forall|p: int| 0 <= p < order.len() ==> (#[trigger] order[p]) < order.len(),
        forall|p: int, r: int|
            0 <= p < r < order.len() ==> #[trigger] order[p] != #[trigger] order[r],
    ensures
        forall|i: u32| i < order.len() ==> #[trigger] order.contains(i),
{
    let numbers = Seq::new(order.len(), |p: int| order[p] as int);
    let all = vstd::set_lib::set_int_range(0, order.len() as int);
    assert forall|p: int, r: int|
        0 <= p < numbers.len() && 0 <= r < numbers.len() && p != r implies numbers[p]
        != numbers[r] by {
        if p < r {
            assert(order[p] != order[r]);
        } else {
            assert(order[r] != order[p]);
        }
    }
    numbers.unique_seq_to_set();
    vstd::set_lib::lemma_int_range(0, order.len() as int);
    vstd::seq_lib::seq_to_set_is_finite(numbers);
    assert(numbers.to_set().subset_of(all)) by {
        assert forall|x: int| numbers.to_set().contains(x) implies all.contains(x) by {
            let p = choose|p: int| 0 <= p < numbers.len() && numbers[p] == x;
            assert(order[p] < order.len());
        }
    }
    vstd::set_lib::lemma_subset_equality(numbers.to_set(), all);
    assert forall|i: u32| i < order.len() implies #[trigger] order.contains(i) by {
        assert(all.contains(i as int));
        assert(numbers.to_set().contains(i as int));
        let p = choose|p: int| 0 <= p < numbers.len() && numbers[p] == i;
        assert(order[p] == i);
    }
}

/// Every place of an arrangement belongs to a cell.
pub proof fn lemma_place_in_cell(assign: Seq<u32>, k: int, p: int) -> (c: int)
    requires
        0 <= k,
        0 <= p < cell_start(assign, k),
    ensures
        0 <= c < k,
        cell_start(assign, c) <= p < cell_start(assign, c) + cell_size(assign, c),
    decreases k,
{
    if p < cell_start(assign, k - 1) {
        lemma_place_in_cell(assign, k - 1, p)
    } else {
        k - 1
    }
}

proof fn lemma_not_before(
    assign: Seq<u32>,
    keys: Seq<i32>,
    a: Seq<u32>,
    b: Seq<u32>,
    k: int,
    p: int,
)
    requires
        0 <= k,
        assign.len() <= u32::MAX,
        forall|i: int| 0 <= i < assign.len() ==> (#[trigger] assign[i]) < k,
        arranged(assign, keys, a, k),
        arranged(assign, keys, b, k),
        0 <= p < a.len(),
        forall|r: int| 0 <= r < p ==> a[r] == b[r],
    ensures
        !before(keys, a[p], b[p]),
{
    lemma_arranged(assign, keys, a, k);
    lemma_arranged(assign, keys, b, k);
    lemma_cells_take_all(assign, k);
    if before(keys, a[p], b[p]) {
        let c = lemma_place_in_cell(assign, k, p);
        assert(cell_sorted(assign, keys, a, c));
        assert(cell_sorted(assign, keys, b, c));
        assert(b.contains(a[p]));
        let r = choose|r: int| 0 <= r < b.len() && b[r] == a[p];
        let d = lemma_place_in_cell(assign, k, r);
        assert(cell_sorted(assign, keys, b, d));
        assert(c == d);
        if r < p {
            assert(a[r] == b[r]);
            assert(a[r] != a[p]);
        } else if r > p {
            assert(before(keys, b[p], b[r]));
        }
    }
}

/// There is only one arrangement.
pub proof fn lemma_arranged_unique(
    assign: Seq<u32>,
    keys: Seq<i32>,
    a: Seq<u32>,
    b: Seq<u32>,
    k: int,
)
    requires
        0 <= k,
        assign.len() <= u32::MAX,
        forall|i: int| 0 <= i < assign.len() ==> (#[trigger] assign[i]) < k,
        arranged(assign, keys, a, k),
        arranged(assign, keys, b, k),
    ensures
        a == b,
{
    lemma_same_front(assign, keys, a, b, k, a.len() as int);
    assert(a =~= b);
}

proof fn lemma_same_front(
    assign: Seq<u32>,
    keys: Seq<i32>,
    a: Seq<u32>,
    b: Seq<u32>,
    k: int,
    n: int,
)
    requires
        0 <= k,
        assign.len() <= u32::MAX,
        forall|i: int| 0 <= i < assign.len() ==> (#[trigger] assign[i]) < k,
        arranged(assign, keys, a, k),
        arranged(assign, keys, b, k),
        0 <= n <= a.len(),
    ensures
        forall|r: int| 0 <= r < n ==> a[r] == b[r],
    decreases n,
{
    if n > 0 {
        lemma_same_front(assign, keys, a, b, k, n - 1);
        lemma_not_before(assign, keys, a, b, k, n - 1);
        lemma_not_before(assign, keys, b, a, k, n - 1);
    }
}

/// The size of a cell is the number of vectors that are assigned to it.
pub proof fn lemma_cell_size_counts(assign: Seq<u32>, c: int)
    ensures
        ({
            let members = Set::new(|i: int| 0 <= i < assign.len() && assign[i] == c);
            members.finite() && cell_size(assign, c) == members.len()
        }),
    decreases assign.len(),
{
    let members = Set::new(|i: int| 0 <= i < assign.len() && assign[i] == c);
    if assign.len() == 0 {
        assert(members =~= Set::empty());
    } else {
        let front = assign.drop_last();
        let before = Set::new(|i: int| 0 <= i < front.len() && front[i] == c);
        lemma_cell_size_counts(front, c);
        if assign.last() == c {
            assert(members =~= before.insert(front.len() as int));
        } else {
            assert(members =~= before);
        }
    }
}

/// A cell starts behind as many vectors as are assigned to the cells before it.
pub proof fn lemma_cell_start_counts(assign: Seq<u32>, c: int)
    requires
        0 <= c,
    ensures
        ({
            let earlier = Set::new(|i: int| 0 <= i < assign.len() && assign[i] < c);
            earlier.finite() && cell_start(assign, c) == earlier.len()
        }),
    decreases assign.len(),
{
    let earlier = Set::new(|i: int| 0 <= i < assign.len() && assign[i] < c);
    if assign.len() == 0 {
        assert(earlier =~= Set::empty());
        lemma_no_cells(assign, c);
    } else {
        let front = assign.drop_last();
        let before = Set::new(|i: int| 0 <= i < front.len() && front[i] < c);
        lemma_cell_start_counts(front, c);
        lemma_cell_start_grows(assign, c);
        if assign.last() < c {
            assert(earlier =~= before.insert(front.len() as int));
        } else {
            assert(earlier =~= before);
        }
    }
}

/// Grouping puts every vector into its cell, and keeps the order of those of the same
/// cell.
pub proof fn lemma_grouped(assign: &[u32], num_cells: usize, g: Grouping, i: int, j: int)
    requires
        0 <= i < j < assign@.len(),
        assign@[i] < num_cells,
        assign@[j] < num_cells,
        call_ensures(group_by_cell, (assign, num_cells), g),
    ensures
        ({
            let c = assign@[i] as int;
            let p = destination(assign@, i);
            &&& g.order@[p] == i
            &&& g.starts@[c] <= p < g.starts@[c] + g.counts@[c]
            &&& g.starts@[c] == Set::new(
                |k: int| 0 <= k < assign@.len() && assign@[k] < c,
            ).len()
            &&& g.counts@[c] == Set::new(
                |k: int| 0 <= k < assign@.len() && assign@[k] == c,
            ).len()
            &&& assign@[j] == assign@[i] ==> p < destination(assign@, j) && g.order@[destination(
                assign@,
                j,
            )] == j
        }),
{
    let c = assign@[i] as int;
    lemma_destination(assign@, i);
    lemma_destination(assign@, j);
    lemma_cell_size_counts(assign@, c);
    lemma_cell_start_counts(assign@, c);
    lemma_cell_size_grows(assign@.take(j), i + 1, c);
    assert(assign@.take(j).take(i + 1) =~= assign@.take(i + 1));
    assert(g.order@[destination(assign@, i)] == i);
    assert(g.order@[destination(assign@, j)] == j);
}

/// The keys order floating-point values as their signs and sizes do: a negative value is
/// below one that is not, of two that are not negative the one with the lower bits is
/// below, and of two negative ones the one with the higher bits. Different values have
/// different keys.
pub proof fn lemma_total_order(a: u32, b: u32, x: i32, y: i32)
    requires
        call_ensures(total_order_key, (a,), x),
        call_ensures(total_order_key, (b,), y),
    ensures
        a >= 0x8000_0000 && b < 0x8000_0000 ==> x < y,
        a < 0x8000_0000 && b < 0x8000_0000 ==> (x < y <==> a < b),
        a >= 0x8000_0000 && b >= 0x8000_0000 ==> (x < y <==> a > b),
        x == y <==> a == b,
        a < 0x8000_0000 <==> x >= 0,
{
}

/// Of two vectors exactly one comes before the other: the one with the lower key, and of
/// equal keys the one with the lower number.
pub proof fn lemma_before(keys: Seq<i32>, v: u32, w: u32, x: u32)
    ensures
        v != w ==> before(keys, v, w) != before(keys, w, v),
        !before(keys, v, v),
        before(keys, v, w) && before(keys, w, x) ==> before(keys, v, x),
        keys[v as int] < keys[w as int] ==> before(keys, v, w),
        keys[v as int] == keys[w as int] && v < w ==> before(keys, v, w),
{
}

} // verus!
