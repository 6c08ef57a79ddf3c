//! Short lists kept in ascending order of distance.
//!
//! An entry is a distance with a payload (a centroid or a vector number). New
//! entries go behind those at the same distance, so among equals the one that
//! came first stays first.
use vstd::prelude::*;

verus! {

/// Distances do not decrease along the list.
pub open spec fn ascending(list: Seq<(i64, u32)>) -> bool {
    forall|i: int, j: int| 0 <= i <= j < list.len() ==> list[i].0 <= list[j].0
}

/// Where an entry at distance `dist` enters `list`: right behind the last entry
/// that is no farther away.
pub open spec fn entry_position(list: Seq<(i64, u32)>, dist: i64) -> int
    decreases list.len(),
{
    if list.len() == 0 {
        0
    } else if list.last().0 <= dist {
        list.len() as int
    } else {
        entry_position(list.drop_last(), dist)
    }
}

/// `list` with `entry` put where it belongs.
pub open spec fn insert_entry(list: Seq<(i64, u32)>, entry: (i64, u32)) -> Seq<(i64, u32)> {
    list.insert(entry_position(list, entry.0), entry)
}

/// The first `cap` entries of `list`.
pub open spec fn capped(list: Seq<(i64, u32)>, cap: nat) -> Seq<(i64, u32)> {
    if list.len() <= cap {
        list
    } else {
        list.take(cap as int)
    }
}

/// `items` in ascending order of distance, equals in their given order.
pub open spec fn ranked(items: Seq<(i64, u32)>) -> Seq<(i64, u32)>
    decreases items.len(),
{
    if items.len() == 0 {
        Seq::empty()
    } else {
        insert_entry(ranked(items.drop_last()), items.last())
    }
}

/// `list` after each of `items` was offered to it in turn, with never more than
/// the nearest `cap` entries kept.
pub open spec fn offer_all(list: Seq<(i64, u32)>, cap: nat, items: Seq<(i64, u32)>) -> Seq<
    (i64, u32),
>
    decreases items.len(),
{
    if items.len() == 0 {
        list
    } else {
        capped(insert_entry(offer_all(list, cap, items.drop_last()), items.last()), cap)
    }
}

/// The entry position splits the list: what stands right before it is no
/// farther away than `dist`, and everything behind it is.
pub proof fn lemma_entry_position(list: Seq<(i64, u32)>, dist: i64)
    ensures
        0 <= entry_position(list, dist) <= list.len(),
        entry_position(list, dist) > 0 ==> list[entry_position(list, dist) - 1].0 <= dist,
        forall|i: int|
            entry_position(list, dist) <= i < list.len() ==> (#[trigger] list[i]).0 > dist,
    decreases list.len(),
{
    if list.len() > 0 && list.last().0 > dist {
        lemma_entry_position(list.drop_last(), dist);
        assert forall|i: int| entry_position(list, dist) <= i < list.len() implies (
        #[trigger] list[i]).0 > dist by {
            if i < list.len() - 1 {
                assert(list.drop_last()[i] == list[i]);
            }
        }
    }
}

/// What splits the list as the entry position does is the entry position.
pub proof fn lemma_entry_position_unique(list: Seq<(i64, u32)>, dist: i64, p: int)
    requires
        0 <= p <= list.len(),
        p > 0 ==> list[p - 1].0 <= dist,
        forall|i: int| p <= i < list.len() ==> (#[trigger] list[i]).0 > dist,
    ensures
        entry_position(list, dist) == p,
{
    lemma_entry_position(list, dist);
    let e = entry_position(list, dist);
    if e < p {
        assert(list[p - 1].0 > dist);
    } else if p < e {
        assert(list[e - 1].0 > dist);
    }
}

/// Inserting keeps the list ascending.
pub proof fn lemma_insert_ascending(list: Seq<(i64, u32)>, entry: (i64, u32))
    requires
        ascending(list),
    ensures
        ascending(insert_entry(list, entry)),
{
    lemma_entry_position(list, entry.0);
    let p = entry_position(list, entry.0);
    let grown = insert_entry(list, entry);
    assert forall|i: int, j: int| 0 <= i <= j < grown.len() implies grown[i].0 <= grown[j].0 by {
        if i < p && p > 0 {
            assert(list[i].0 <= list[p - 1].0);
        }
    }
}

/// Ranking `items` yields an ascending rearrangement of them.
pub proof fn lemma_ranked(items: Seq<(i64, u32)>)
    ensures
        ascending(ranked(items)),
        ranked(items).len() == items.len(),
        ranked(items).to_multiset() =~= items.to_multiset(),
    decreases items.len(),
{
    if items.len() > 0 {
        let rest = items.drop_last();
        lemma_ranked(rest);
        lemma_insert_ascending(ranked(rest), items.last());
        lemma_entry_position(ranked(rest), items.last().0);
        vstd::seq_lib::to_multiset_insert(
            ranked(rest),
            entry_position(ranked(rest), items.last().0),
            items.last(),
        );
        vstd::seq_lib::to_multiset_build(rest, items.last());
        assert(rest.push(items.last()) =~= items);
    } else {
        assert(ranked(items) =~= items);
    }
}

/// The entry position in the front of an ascending list.
proof fn lemma_entry_position_take(list: Seq<(i64, u32)>, dist: i64, n: int)
    requires
        ascending(list),
        0 <= n <= list.len(),
    ensures
        entry_position(list.take(n), dist) == if entry_position(list, dist) <= n {
            entry_position(list, dist)
        } else {
            n
        },
{
    lemma_entry_position(list, dist);
    let e = entry_position(list, dist);
    let p = if e <= n {
        e
    } else {
        n
    };
    if 0 < p && p < e {
        assert(list[p - 1].0 <= list[e - 1].0);
    }
    lemma_entry_position_unique(list.take(n), dist, p);
}

/// Offering to the nearest `cap` entries of an ascending list keeps the nearest
/// `cap` entries of the grown list.
proof fn lemma_insert_capped(list: Seq<(i64, u32)>, cap: nat, entry: (i64, u32))
    requires
        ascending(list),
    ensures
        capped(insert_entry(capped(list, cap), entry), cap) == capped(
            insert_entry(list, entry),
            cap,
        ),
{
    lemma_entry_position(list, entry.0);
    if list.len() > cap {
        lemma_entry_position_take(list, entry.0, cap as int);
        let short = list.take(cap as int);
        assert(insert_entry(short, entry).len() == cap + 1);
        assert(insert_entry(short, entry).take(cap as int) =~= insert_entry(list, entry).take(
            cap as int,
        ));
    }
}

/// The nearest `cap` of `items` are the front of their ranking: keeping a short
/// list loses nothing.
pub proof fn lemma_nearest_is_front_of_ranking(items: Seq<(i64, u32)>, cap: nat)
    ensures
        offer_all(Seq::empty(), cap, items) == capped(ranked(items), cap),
    decreases items.len(),
{
    if items.len() > 0 {
        lemma_nearest_is_front_of_ranking(items.drop_last(), cap);
        lemma_ranked(items.drop_last());
        lemma_insert_capped(ranked(items.drop_last()), cap, items.last());
    }
}

/// A short list is the front of every longer list of the same items: widening
/// the list only adds entries behind those that were there.
pub proof fn lemma_nearest_widens(items: Seq<(i64, u32)>, cap: nat, wider: nat)
    requires
        cap <= wider,
    ensures
        offer_all(Seq::empty(), cap, items) == capped(
            offer_all(Seq::empty(), wider, items),
            cap,
        ),
{
    lemma_nearest_is_front_of_ranking(items, cap);
    lemma_nearest_is_front_of_ranking(items, wider);
    lemma_ranked(items);
    assert(capped(ranked(items), cap) =~= capped(capped(ranked(items), wider), cap));
}

/// Offering items in two batches is offering them all.
pub proof fn lemma_offer_concat(
    list: Seq<(i64, u32)>,
    cap: nat,
    first: Seq<(i64, u32)>,
    second: Seq<(i64, u32)>,
)
    ensures
        offer_all(offer_all(list, cap, first), cap, second) == offer_all(
            list,
            cap,
            first + second,
        ),
    decreases second.len(),
{
    if second.len() == 0 {
        assert(first + second =~= first);
    } else {
        lemma_offer_concat(list, cap, first, second.drop_last());
        assert((first + second).drop_last() =~= first + second.drop_last());
    }
}

/// An offered list stays ascending and within its cap.
pub proof fn lemma_offer(list: Seq<(i64, u32)>, cap: nat, items: Seq<(i64, u32)>)
    requires
        ascending(list),
        list.len() <= cap,
    ensures
        ascending(offer_all(list, cap, items)),
        offer_all(list, cap, items).len() == if list.len() + items.len() <= cap {
            list.len() + items.len()
        } else {
            cap
        },
    decreases items.len(),
{
    if items.len() > 0 {
        lemma_offer(list, cap, items.drop_last());
        let before = offer_all(list, cap, items.drop_last());
        lemma_insert_ascending(before, items.last());
        lemma_entry_position(before, items.last().0);
    }
}

/// A full list ignores items that are no nearer than its last entry.
pub proof fn lemma_offer_far_items(list: Seq<(i64, u32)>, cap: nat, items: Seq<(i64, u32)>)
    requires
        0 < cap == list.len(),
        forall|i: int| 0 <= i < items.len() ==> (#[trigger] items[i]).0 >= list.last().0,
    ensures
        offer_all(list, cap, items) == list,
    decreases items.len(),
{
    if items.len() > 0 {
        let rest = items.drop_last();
        assert forall|i: int| 0 <= i < rest.len() implies (#[trigger] rest[i]).0
            >= list.last().0 by {
            assert(rest[i] == items[i]);
        }
        lemma_offer_far_items(list, cap, rest);
        assert(items.last().0 >= list.last().0);
        assert(insert_entry(list, items.last()).take(cap as int) =~= list);
    }
}

/// Offering items to a list never moves the entry at a place farther away.
pub proof fn lemma_offer_improves(list: Seq<(i64, u32)>, cap: nat, items: Seq<(i64, u32)>)
    requires
        ascending(list),
        list.len() <= cap,
    ensures
        forall|i: int|
            0 <= i < list.len() ==> (#[trigger] offer_all(list, cap, items)[i]).0 <= list[i].0,
    decreases items.len(),
{
    if items.len() > 0 {
        let before = offer_all(list, cap, items.drop_last());
        let after = offer_all(list, cap, items);
        lemma_offer_improves(list, cap, items.drop_last());
        lemma_offer(list, cap, items.drop_last());
        lemma_entry_position(before, items.last().0);
        let p = entry_position(before, items.last().0);
        assert forall|i: int| 0 <= i < list.len() implies (#[trigger] after[i]).0
            <= list[i].0 by {
            assert(before[i].0 <= list[i].0);
            if i == p {
                assert(before[i].0 > items.last().0);
            } else if i > p {
                assert(after[i] == before[i - 1]);
            }
        }
    }
}

/// A list that is offered the entries of an ascending list becomes that list.
proof fn lemma_offer_ascending(list: Seq<(i64, u32)>, cap: nat)
    requires
        ascending(list),
        list.len() <= cap,
    ensures
        offer_all(Seq::empty(), cap, list) == list,
    decreases list.len(),
{
    if list.len() > 0 {
        let front = list.drop_last();
        lemma_offer_ascending(front, cap);
        lemma_entry_position_unique(front, list.last().0, front.len() as int);
        assert(insert_entry(front, list.last()) =~= list);
    } else {
        assert(list =~= Seq::empty());
    }
}

/// `entry` is accounted for by a list of the nearest `cap`: it is in the list, or the
/// list is full and nothing in it is farther away.
pub open spec fn accounts_for(list: Seq<(i64, u32)>, cap: nat, entry: (i64, u32)) -> bool {
    list.contains(entry) || (list.len() == cap && forall|i: int|
        0 <= i < list.len() ==> (#[trigger] list[i]).0 <= entry.0)
}

/// What a list accounts for it still accounts for after more was offered to it, and
/// then it accounts for what was offered, too.
pub proof fn lemma_offer_accounts(
    list: Seq<(i64, u32)>,
    cap: nat,
    items: Seq<(i64, u32)>,
    entry: (i64, u32),
)
    requires
        ascending(list),
        list.len() <= cap,
        accounts_for(list, cap, entry) || items.contains(entry),
    ensures
        accounts_for(offer_all(list, cap, items), cap, entry),
{
    let kept = offer_all(list, cap, items);
    lemma_offer(list, cap, items);
    if items.contains(entry) {
        let k = choose|k: int| 0 <= k < items.len() && items[k] == entry;
        lemma_offer_keeps_nearest(list, cap, items, k);
    } else if list.contains(entry) {
        let k = choose|k: int| 0 <= k < list.len() && list[k] == entry;
        lemma_offer_ascending(list, cap);
        lemma_offer_concat(Seq::empty(), cap, list, items);
        assert((list + items)[k] == entry);
        lemma_offer_keeps_nearest(Seq::empty(), cap, list + items, k);
    } else {
        lemma_offer_improves(list, cap, items);
        assert forall|i: int| 0 <= i < kept.len() implies (#[trigger] kept[i]).0 <= entry.0 by {
            assert(list[i].0 <= entry.0);
        }
    }
}

/// What an offered list holds was in it before or was offered, and an offered
/// item that it does not hold is no nearer than anything it holds.
pub proof fn lemma_offer_keeps_nearest(
    list: Seq<(i64, u32)>,
    cap: nat,
    items: Seq<(i64, u32)>,
    k: int,
)
    requires
        ascending(list),
        list.len() <= cap,
        0 <= k < items.len(),
    ensures
        ({
            let kept = offer_all(list, cap, items);
            kept.contains(items[k]) || (kept.len() == cap && forall|i: int|
                0 <= i < kept.len() ==> (#[trigger] kept[i]).0 <= items[k].0)
        }),
    decreases items.len(),
{
    let before = offer_all(list, cap, items.drop_last());
    let kept = offer_all(list, cap, items);
    let entry = items.last();
    lemma_offer(list, cap, items.drop_last());
    lemma_offer(list, cap, items);
    lemma_entry_position(before, entry.0);
    let p = entry_position(before, entry.0);
    let grown = insert_entry(before, entry);
    lemma_insert_ascending(before, entry);
    if k == items.len() - 1 {
        if p < kept.len() {
            assert(kept[p] == entry);
        } else {
            assert forall|i: int| 0 <= i < kept.len() implies (#[trigger] kept[i]).0 <= entry.0 by {
                assert(kept[i] == grown[i]);
                assert(grown[p] == entry);
            }
        }
    } else {
        lemma_offer_keeps_nearest(list, cap, items.drop_last(), k);
        assert(items.drop_last()[k] == items[k]);
        if before.contains(items[k]) {
            let i = choose|i: int| 0 <= i < before.len() && before[i] == items[k];
            let at = if i < p {
                i
            } else {
                i + 1
            };
            assert(grown[at] == items[k]);
            if at < kept.len() {
                assert(kept[at] == items[k]);
            } else {
                assert forall|j: int| 0 <= j < kept.len() implies (#[trigger] kept[j]).0
                    <= items[k].0 by {
                    assert(kept[j] == grown[j]);
                }
            }
        } else {
            assert forall|i: int| 0 <= i < kept.len() implies (#[trigger] kept[i]).0
                <= items[k].0 by {
                assert(kept[i] == grown[i]);
                if i < p {
                    assert(grown[i] == before[i]);
                } else if i == p {
                    assert(before[i].0 > entry.0);
                } else {
                    assert(grown[i] == before[i - 1]);
                }
            }
        }
    }
}

/// When payloads increase along `items`, entries at the same distance are ranked
/// by payload.
pub proof fn lemma_ranked_ties(items: Seq<(i64, u32)>)
    requires
        forall|i: int, j: int| 0 <= i < j < items.len() ==> items[i].1 < items[j].1,
    ensures
        forall|i: int, j: int|
            0 <= i < j < items.len() ==> ranked(items)[i].0 < ranked(items)[j].0 || (ranked(
                items,
            )[i].0 == ranked(items)[j].0 && ranked(items)[i].1 < ranked(items)[j].1),
        forall|i: int| 0 <= i < items.len() ==> items.contains(#[trigger] ranked(items)[i]),
    decreases items.len(),
{
    if items.len() > 0 {
        let rest = items.drop_last();
        let before = ranked(rest);
        let entry = items.last();
        let after = ranked(items);
        assert forall|i: int, j: int| 0 <= i < j < rest.len() implies rest[i].1 < rest[j].1 by {
            assert(rest[i] == items[i] && rest[j] == items[j]);
        }
        lemma_ranked_ties(rest);
        lemma_ranked(rest);
        lemma_ranked(items);
        lemma_entry_position(before, entry.0);
        let p = entry_position(before, entry.0);
        assert forall|i: int| 0 <= i < before.len() implies (#[trigger] before[i]).1 < entry.1
            && items.contains(before[i]) by {
            assert(rest.contains(before[i]));
            let k = choose|k: int| 0 <= k < rest.len() && rest[k] == before[i];
            assert(items[k] == before[i]);
        }
        assert forall|i: int| 0 <= i < items.len() implies items.contains(
            #[trigger] after[i],
        ) by {
            if i < p {
                assert(after[i] == before[i]);
            } else if i == p {
                assert(items[items.len() - 1] == entry);
            } else {
                assert(after[i] == before[i - 1]);
            }
        }
        assert forall|i: int, j: int| 0 <= i < j < items.len() implies after[i].0 < after[j].0 || (
        after[i].0 == after[j].0 && after[i].1 < after[j].1) by {
            let bi = if i < p {
                i
            } else {
                i - 1
            };
            let bj = if j < p {
                j
            } else {
                j - 1
            };
            if j == p {
                assert(after[i] == before[i]);
                assert(before[i].0 <= before[p - 1].0);
            } else if i == p {
                assert(after[j] == before[j - 1]);
            } else {
                assert(after[i] == before[bi] && after[j] == before[bj]);
            }
        }
    }
}

/// Offers `(dist, payload)` to the ascending list in `arr[..len]`, which keeps
/// the nearest `cap` entries.
pub fn insert_sorted(arr: &mut [(i64, u32)], len: &mut usize, cap: usize, dist: i64, payload: u32)
    requires
        *old(len) <= cap <= old(arr)@.len(),
        0 < cap,
    ensures
        final(arr)@.len() == old(arr)@.len(),
        *final(len) == if *old(len) < cap {
            *old(len) + 1
        } else {
            cap as int
        },
        final(arr)@.take(*final(len) as int) == capped(
            insert_entry(old(arr)@.take(*old(len) as int), (dist, payload)),
            cap as nat,
        ),
        final(arr)@.skip(*final(len) as int) == old(arr)@.skip(*final(len) as int),
{
    let ghost list = arr@.take(*len as int);
    let ghost start = arr@;
    let room = *len < cap;
    if room || dist < arr[cap - 1].0 {
        let last: usize = if room {
            *len
        } else {
            cap - 1
        };
        let mut i: usize = last;
        while i > 0 && arr[i - 1].0 > dist
            invariant
                i <= last < arr@.len(),
                arr@.len() == start.len(),
                forall|j: int| 0 <= j < i ==> #[trigger] arr@[j] == start[j],
                forall|j: int| i < j <= last ==> #[trigger] arr@[j] == start[j - 1],
                forall|j: int| last < j < start.len() ==> #[trigger] arr@[j] == start[j],
                forall|j: int| i <= j < last ==> (#[trigger] start[j]).0 > dist,
            decreases i,
        {
            arr[i] = arr[i - 1];
            i = i - 1;
        }
        arr[i] = (dist, payload);
        proof {
            lemma_entry_position_unique(list, dist, i as int);
            let grown = capped(insert_entry(list, (dist, payload)), cap as nat);
            assert(arr@.take(last + 1) =~= grown);
            assert(arr@.skip(last + 1) =~= start.skip(last + 1));
        }
        if room {
            *len = *len + 1;
        }
    } else {
        proof {
            lemma_entry_position_unique(list, dist, cap as int);
            assert(capped(insert_entry(list, (dist, payload)), cap as nat) =~= list);
        }
    }
}

} // verus!
