//! The visible (filtered) view of the entry list, and the mapping from a
//! position in that view back to a position in the underlying list. Every
//! index a user interaction carries is a position in the visible view.

use vstd::prelude::*;

use crate::entry::Entry;
use crate::entry::EntryModel;
use crate::filter::allows;
use crate::filter::Filter;

verus! {

/// The subsequence of `es` that filter `f` shows, in original order.
pub open spec fn visible_of(es: Seq<EntryModel>, f: Filter) -> Seq<EntryModel>
    decreases es.len(),
{
    if es.len() == 0 {
        Seq::empty()
    } else if allows(f, es[0]) {
        seq![es[0]] + visible_of(es.drop_first(), f)
    } else {
        visible_of(es.drop_first(), f)
    }
}

/// Position in `es` of the entry shown at position `i` of the view under `f`.
/// Meaningful only when `i` lies within that view.
pub open spec fn raw_of(es: Seq<EntryModel>, f: Filter, i: int) -> int
    decreases es.len(),
{
    if es.len() == 0 {
        0
    } else if allows(f, es[0]) {
        if i == 0 {
            0
        } else {
            1 + raw_of(es.drop_first(), f, i - 1)
        }
    } else {
        1 + raw_of(es.drop_first(), f, i)
    }
}

/// Appending an entry extends the visible view by that entry exactly when the
/// filter allows it.
pub proof fn lemma_visible_push(es: Seq<EntryModel>, f: Filter, e: EntryModel)
    ensures
        visible_of(es.push(e), f) == if allows(f, e) {
            visible_of(es, f).push(e)
        } else {
            visible_of(es, f)
        },
    decreases es.len(),
{
    if es.len() == 0 {
        assert(es.push(e)[0] == e);
        assert(es.push(e).drop_first() =~= Seq::<EntryModel>::empty());
        assert(visible_of(Seq::<EntryModel>::empty(), f) == Seq::<EntryModel>::empty());
        if allows(f, e) {
            assert(visible_of(es.push(e), f) =~= visible_of(es, f).push(e));
        } else {
            assert(visible_of(es.push(e), f) =~= visible_of(es, f));
        }
    } else {
        assert(es.push(e)[0] == es[0]);
        assert(es.push(e).drop_first() =~= es.drop_first().push(e));
        lemma_visible_push(es.drop_first(), f, e);
        if allows(f, e) {
            if allows(f, es[0]) {
                assert(seq![es[0]] + visible_of(es.drop_first(), f).push(e) =~= (seq![es[0]]
                    + visible_of(es.drop_first(), f)).push(e));
            }
        }
    }
}

/// What `raw_of` gives for a position within the visible view: a valid index
/// into `es`, holding that very entry, with exactly `i` visible entries before
/// it.
pub proof fn lemma_raw_of(es: Seq<EntryModel>, f: Filter, i: int)
    requires
        0 <= i < visible_of(es, f).len(),
    ensures
        0 <= raw_of(es, f, i) < es.len(),
        allows(f, es[raw_of(es, f, i)]),
        es[raw_of(es, f, i)] == visible_of(es, f)[i],
        visible_of(es.take(raw_of(es, f, i)), f).len() == i,
    decreases es.len(),
{
    let k = raw_of(es, f, i);
    if allows(f, es[0]) {
        if i == 0 {
            assert(es.take(0) =~= Seq::<EntryModel>::empty());
        } else {
            lemma_raw_of(es.drop_first(), f, i - 1);
            let k1 = raw_of(es.drop_first(), f, i - 1);
            assert(es[k] == es.drop_first()[k1]);
            assert(es.take(k).drop_first() =~= es.drop_first().take(k1));
            assert(es.take(k)[0] == es[0]);
        }
    } else {
        lemma_raw_of(es.drop_first(), f, i);
        let k1 = raw_of(es.drop_first(), f, i);
        assert(es[k] == es.drop_first()[k1]);
        assert(es.take(k).drop_first() =~= es.drop_first().take(k1));
        assert(es.take(k)[0] == es[0]);
    }
}

/// The converse: a position `k` in `es` whose entry the filter allows is shown
/// in the visible view, at the position given by how many visible entries
/// precede it.
pub proof fn lemma_raw_of_inverse(es: Seq<EntryModel>, f: Filter, k: int)
    requires
        0 <= k < es.len(),
        allows(f, es[k]),
    ensures
        visible_of(es.take(k), f).len() < visible_of(es, f).len(),
        raw_of(es, f, visible_of(es.take(k), f).len() as int) == k,
    decreases es.len(),
{
    if k == 0 {
        assert(es.take(0) =~= Seq::<EntryModel>::empty());
    } else {
        lemma_raw_of_inverse(es.drop_first(), f, k - 1);
        assert(es.drop_first()[k - 1] == es[k]);
        assert(es.take(k).drop_first() =~= es.drop_first().take(k - 1));
        assert(es.take(k)[0] == es[0]);
    }
}

/// Every entry of the visible view stands somewhere in the underlying list.
pub proof fn lemma_visible_elem(es: Seq<EntryModel>, f: Filter, j: int)
    requires
        0 <= j < visible_of(es, f).len(),
    ensures
        exists|i: int| 0 <= i < es.len() && es[i] == visible_of(es, f)[j],
    decreases es.len(),
{
    if allows(f, es[0]) && j == 0 {
        assert(es[0] == visible_of(es, f)[0]);
    } else if allows(f, es[0]) {
        lemma_visible_elem(es.drop_first(), f, j - 1);
        let i = choose|i: int|
            0 <= i < es.drop_first().len() && es.drop_first()[i] == visible_of(
                es.drop_first(),
                f,
            )[j - 1];
        assert(es[i + 1] == visible_of(es, f)[j]);
    } else {
        lemma_visible_elem(es.drop_first(), f, j);
        let i = choose|i: int|
            0 <= i < es.drop_first().len() && es.drop_first()[i] == visible_of(
                es.drop_first(),
                f,
            )[j];
        assert(es[i + 1] == visible_of(es, f)[j]);
    }
}

/// Law: the `All` view shows the whole list in order, and the `Active` and
/// `Completed` views split it: together they have every entry, and each holds
/// exactly the entries whose completion status matches its name.
pub proof fn law_filter_partition(es: Seq<EntryModel>)
    ensures
        visible_of(es, Filter::All) == es,
        visible_of(es, Filter::Active).len() + visible_of(es, Filter::Completed).len() == es.len(),
        forall|i: int|
            0 <= i < visible_of(es, Filter::Active).len() ==> !(#[trigger] visible_of(
                es,
                Filter::Active,
            )[i]).completed,
        forall|i: int|
            0 <= i < visible_of(es, Filter::Completed).len() ==> (#[trigger] visible_of(
                es,
                Filter::Completed,
            )[i]).completed,
    decreases es.len(),
{
    if es.len() == 0 {
        assert(visible_of(es, Filter::All) =~= es);
    } else {
        law_filter_partition(es.drop_first());
        assert(visible_of(es, Filter::All) =~= es);
        if !es[0].completed {
            assert(visible_of(es, Filter::Active) == seq![es[0]] + visible_of(
                es.drop_first(),
                Filter::Active,
            ));
            assert forall|i: int|
                0 <= i < visible_of(es, Filter::Active).len() implies !(#[trigger] visible_of(
                es,
                Filter::Active,
            )[i]).completed by {
                if i > 0 {
                    assert(visible_of(es, Filter::Active)[i] == visible_of(
                        es.drop_first(),
                        Filter::Active,
                    )[i - 1]);
                }
            }
        } else {
            assert forall|i: int|
                0 <= i < visible_of(es, Filter::Completed).len() implies (#[trigger] visible_of(
                es,
                Filter::Completed,
            )[i]).completed by {
                if i > 0 {
                    assert(visible_of(es, Filter::Completed)[i] == visible_of(
                        es.drop_first(),
                        Filter::Completed,
                    )[i - 1]);
                }
            }
        }
    }
}

/// Position in `entries` of the entry shown at position `i` of the view under
/// `f`, or `None` when fewer than `i + 1` entries are visible.
pub fn find_raw(entries: &Vec<Entry>, f: Filter, i: usize) -> (r: Option<usize>)
    ensures
        match r {
            Some(k) => {
                &&& i < visible_of(entries.deep_view(), f).len()
                &&& k < entries.len()
                &&& k == raw_of(entries.deep_view(), f, i as int)
                &&& allows(f, entries.deep_view()[k as int])
                &&& entries.deep_view()[k as int] == visible_of(entries.deep_view(), f)[i as int]
            },
            None => i >= visible_of(entries.deep_view(), f).len(),
        },
{
    let ghost es = entries.deep_view();
    let mut k: usize = 0;
    let mut cnt: usize = 0;
    while k < entries.len()
        invariant
            k <= entries.len(),
            es == entries.deep_view(),
            cnt == visible_of(es.take(k as int), f).len(),
            cnt <= i,
        decreases entries.len() - k,
    {
        let e = &entries[k];
        if f.fits(e) {
            if cnt == i {
                proof {
                    lemma_raw_of_inverse(es, f, k as int);
                    lemma_raw_of(es, f, i as int);
                }
                return Some(k);
            }
            cnt = cnt + 1;
        }
        k = k + 1;
        proof {
            assert(es.take(k as int) =~= es.take(k as int - 1).push(es[k as int - 1]));
            lemma_visible_push(es.take(k as int - 1), f, es[k as int - 1]);
        }
    }
    proof {
        assert(es.take(entries.len() as int) =~= es);
    }
    None
}

} // verus!
