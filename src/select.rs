//! Choosing the least recently used entries of a collection in one pass.

use vstd::prelude::*;

verus! {

/// The ages of `s` never decrease from front to back.
pub open spec fn ages_sorted<T>(s: Seq<(T, u64)>) -> bool {
    forall|i: int, j: int| 0 <= i < j < s.len() ==> #[trigger] s[i].1 <= #[trigger] s[j].1
}

/// The number of pairs a selection of `count` out of `n` holds.
pub open spec fn selection_len(count: nat, n: nat) -> nat {
    if count < n {
        count
    } else {
        n
    }
}

/// `sel` holds the `count` oldest pairs of `input` (all of them when `input` is
/// shorter), oldest first: every pair of `input` left out of `sel` is at least
/// as young as every pair in it.
pub open spec fn is_oldest_selection<T>(input: Seq<(T, u64)>, sel: Seq<(T, u64)>, count: nat) -> bool {
    &&& sel.len() == selection_len(count, input.len())
    &&& ages_sorted(sel)
    &&& sel.to_multiset().subset_of(input.to_multiset())
    &&& forall|p: (T, u64)|
        #![trigger input.to_multiset().count(p)]
        input.to_multiset().count(p) > sel.to_multiset().count(p) ==> forall|i: int|
            0 <= i < sel.len() ==> #[trigger] sel[i].1 <= p.1
}

/// First position of `page` whose age is not below `age`.
fn lower_bound<T>(page: &Vec<(T, u64)>, age: u64) -> (pos: usize)
    requires
        ages_sorted(page@),
    ensures
        pos <= page@.len(),
        forall|i: int| 0 <= i < pos ==> #[trigger] page@[i].1 < age,
        forall|i: int| pos <= i < page@.len() ==> #[trigger] page@[i].1 >= age,
{
    let mut lo: usize = 0;
    let mut hi: usize = page.len();
    while lo < hi
        invariant
            lo <= hi <= page@.len(),
            ages_sorted(page@),
            forall|i: int| 0 <= i < lo ==> #[trigger] page@[i].1 < age,
            forall|i: int| hi <= i < page@.len() ==> #[trigger] page@[i].1 >= age,
        decreases hi - lo,
    {
        let mid = lo + (hi - lo) / 2;
        if page[mid].1 < age {
            lo = mid + 1;
        } else {
            hi = mid;
        }
    }
    lo
}

/// Returns the `remove_count` pairs of `items` with the smallest age (all of
/// them when there are fewer), ordered from oldest to youngest.
///
/// The pairs are read once, in order, into a page of at most `remove_count`
/// pairs kept sorted by age. Until the page is full every pair goes in at the
/// place a binary search finds; after that, a pair older than the youngest
/// kept one pushes that one out and goes in the same way, and any other pair
/// is passed over.
pub fn find_lru_item_to_remove<T>(items: Vec<(T, u64)>, remove_count: usize) -> (page: Vec<(T, u64)>)
    ensures
        is_oldest_selection(items@, page@, remove_count as nat),
{
    broadcast use vstd::seq_lib::group_to_multiset_ensures, vstd::multiset::group_multiset_axioms;

    if remove_count == 0 {
        return Vec::new();
    }
    let ghost input = items@;
    let room = if remove_count < items.len() { remove_count } else { items.len() };
    let mut page: Vec<(T, u64)> = Vec::with_capacity(room);
    let ghost mut rest: Seq<(T, u64)> = Seq::empty();
    let ghost mut done: Seq<(T, u64)> = Seq::empty();
    for item in it: items.into_iter()
        invariant
            it.seq() == input,
            remove_count > 0,
            done == input.take(it.index()),
            page@.to_multiset().add(rest.to_multiset()) == done.to_multiset(),
            ages_sorted(page@),
            page@.len() <= remove_count,
            page@.len() < remove_count ==> rest.len() == 0,
            forall|i: int, j: int|
                0 <= i < page@.len() && 0 <= j < rest.len() ==> #[trigger] page@[i].1
                    <= #[trigger] rest[j].1,
    {
        proof {
            assert(input.take(it.index() + 1) == done.push(item));
        }
        let age = item.1;
        let ghost page0 = page@;
        let ghost rest0 = rest;
        if page.len() < remove_count {
            let pos = lower_bound(&page, age);
            page.insert(pos, item);
            proof {
                vstd::seq_lib::to_multiset_insert(page0, pos as int, item);
                vstd::seq_lib::to_multiset_build(done, item);
            }
        } else if age < page[page.len() - 1].1 {
            let pos = lower_bound(&page, age);
            let ghost before = page@;
            let youngest = page.pop();
            proof {
                assert(before.subrange(0, before.len() - 1) == before.remove(before.len() - 1));
            }
            page.insert(pos, item);
            proof {
                let y = before[before.len() - 1];
                rest = rest.push(y);
                vstd::seq_lib::to_multiset_remove(before, before.len() - 1);
                vstd::seq_lib::to_multiset_insert(before.remove(before.len() - 1), pos as int, item);
                vstd::seq_lib::to_multiset_build(rest0, y);
                vstd::seq_lib::to_multiset_build(done, item);
                vstd::seq_lib::to_multiset_contains(before, y);
                assert(before.to_multiset().count(y) > 0);
                assert(page@.to_multiset().add(rest.to_multiset()) =~= done.push(
                    item,
                ).to_multiset());
                assert forall|i: int, j: int|
                    0 <= i < page@.len() && 0 <= j < rest.len() implies #[trigger] page@[i].1
                    <= #[trigger] rest[j].1 by {
                    assert(page@[i].1 <= y.1);
                    if j < rest0.len() {
                        assert(before[before.len() - 1].1 <= rest0[j].1);
                    }
                }
            }
        } else {
            proof {
                rest = rest.push(item);
                vstd::seq_lib::to_multiset_build(rest0, item);
                vstd::seq_lib::to_multiset_build(done, item);
                assert(page@.to_multiset().add(rest.to_multiset()) =~= done.push(
                    item,
                ).to_multiset());
                assert forall|i: int, j: int|
                    0 <= i < page@.len() && 0 <= j < rest.len() implies #[trigger] page@[i].1
                    <= #[trigger] rest[j].1 by {
                    if j == rest0.len() {
                        assert(page@[i].1 <= page@[page@.len() - 1].1);
                    }
                }
            }
        }
        proof {
            done = done.push(item);
        }
    }
    proof {
        assert(done == input);
        let pm = page@.to_multiset();
        let rm = rest.to_multiset();
        assert(pm.len() + rm.len() == input.to_multiset().len());
        assert forall|p: (T, u64)| #[trigger] input.to_multiset().count(p) > pm.count(p) implies
            forall|i: int| 0 <= i < page@.len() ==> #[trigger] page@[i].1 <= p.1 by {
            assert(rm.count(p) > 0);
            assert(rest.contains(p));
            let j = choose|j: int| 0 <= j < rest.len() && rest[j] == p;
            assert forall|i: int| 0 <= i < page@.len() implies #[trigger] page@[i].1 <= p.1 by {
                assert(page@[i].1 <= rest[j].1);
            }
        }
    }
    page
}

} // verus!
