//! Laws of the finder's output, stated over the walk it ran over.

use vstd::prelude::*;
use walkdir::DirEntry;
use crate::finder::IteratorFilter;
use crate::model::{failed, found, is_match, lemma_found_push, named, unseparated, Visit};
use crate::walk::base_of;

verus! {

/// The entry that a visit hands out where its base name is `target`.
pub open spec fn match_of(v: Visit, target: Seq<char>) -> Option<DirEntry> {
    match v {
        Some(entry) => if named(base_of(entry), target) {
            Some(entry)
        } else {
            None
        },
        None => None,
    }
}

proof fn lemma_drop_last_unfailed(visits: Seq<Visit>)
    requires
        visits.len() > 0,
        !failed(visits),
    ensures
        !failed(visits.drop_last()),
{
    lemma_found_push(visits.drop_last(), visits.last(), Seq::<char>::empty());
    assert(visits.drop_last().push(visits.last()) =~= visits);
}

/// Where no entry of the walk has the base name `target`, nothing is handed
/// out.
pub proof fn lemma_no_entry_named_finds_nothing(visits: Seq<Visit>, target: Seq<char>)
    requires
        forall|i: int| 0 <= i < visits.len() ==> !is_match(#[trigger] visits[i], target),
    ensures
        found(visits, target) == Seq::<DirEntry>::empty(),
    decreases visits.len(),
{
    if visits.len() > 0 {
        let before = visits.drop_last();
        assert forall|i: int| 0 <= i < before.len() implies !is_match(#[trigger] before[i], target) by {
            assert(before[i] == visits[i]);
        }
        lemma_no_entry_named_finds_nothing(before, target);
        assert(!is_match(visits[visits.len() - 1], target));
    }
}

/// Every entry handed out is an entry of the walk whose base name is exactly
/// `target`; an entry without a final path component is never handed out.
pub proof fn lemma_found_entries_are_named(visits: Seq<Visit>, target: Seq<char>)
    ensures
        forall|k: int| 0 <= k < found(visits, target).len() ==> {
            &&& base_of(#[trigger] found(visits, target)[k]) == Some(target)
            &&& exists|i: int| 0 <= i < visits.len() && visits[i] == Some(found(visits, target)[k])
        },
    decreases visits.len(),
{
    if visits.len() > 0 {
        let before = visits.drop_last();
        lemma_found_entries_are_named(before, target);
        let out = found(visits, target);
        assert forall|k: int| 0 <= k < out.len() implies {
            &&& base_of(#[trigger] out[k]) == Some(target)
            &&& exists|i: int| 0 <= i < visits.len() && visits[i] == Some(out[k])
        } by {
            if k < found(before, target).len() {
                assert(out[k] == found(before, target)[k]);
                let i = choose|i: int| 0 <= i < before.len() && before[i] == Some(found(before, target)[k]);
                assert(visits[i] == before[i]);
            } else {
                assert(visits[visits.len() - 1] == Some(out[k]));
            }
        }
    }
}

/// Where the root's own base name is `target`, the root is the first entry
/// handed out (the walk visits the root first).
pub proof fn lemma_root_named_comes_first(visits: Seq<Visit>, root: DirEntry, target: Seq<char>)
    requires
        visits.len() > 0,
        visits[0] == Some(root),
        base_of(root) == Some(target),
    ensures
        found(visits, target).len() > 0,
        found(visits, target)[0] == root,
    decreases visits.len(),
{
    let before = visits.drop_last();
    if visits.len() == 1 {
        assert(!failed(before));
        assert(found(before, target) == Seq::<DirEntry>::empty());
    } else {
        lemma_root_named_comes_first(before, root, target);
    }
}

/// Without traversal errors, every entry of the walk whose base name is
/// `target` is handed out, once, in the order of the walk, and nothing else.
pub proof fn lemma_all_matches_in_walk_order(visits: Seq<Visit>, target: Seq<char>)
    requires
        !failed(visits),
    ensures
        found(visits, target) == visits.filter_map(|v: Visit| match_of(v, target)),
    decreases visits.len(),
{
    if visits.len() > 0 {
        let before = visits.drop_last();
        lemma_drop_last_unfailed(visits);
        lemma_all_matches_in_walk_order(before, target);
        let f = |v: Visit| match_of(v, target);
        match f(visits.last()) {
            Some(e) => {
                assert(before.filter_map(f) + seq![e] =~= before.filter_map(f).push(e));
            },
            None => {},
        }
    }
}

/// After a traversal error, nothing more is handed out: what comes of the
/// whole walk is what comes of the visits strictly before the error.
pub proof fn lemma_nothing_after_failure(visits: Seq<Visit>, k: int, target: Seq<char>)
    requires
        0 <= k < visits.len(),
        visits[k] is None,
    ensures
        found(visits, target) == found(visits.take(k), target),
    decreases visits.len(),
{
    let before = visits.drop_last();
    if k == visits.len() - 1 {
        assert(before =~= visits.take(k));
    } else {
        assert(before[k] is None);
        assert(failed(before));
        lemma_nothing_after_failure(before, k, target);
        assert(before.take(k) =~= visits.take(k));
    }
}

/// A target that holds the separator `/` is no base name: where every entry
/// of the walk has had its base name read, nothing is handed out.
pub proof fn lemma_separator_finds_nothing(visits: Seq<Visit>, target: Seq<char>)
    requires
        target.contains('/'),
        forall|i: int| 0 <= i < visits.len() ==> (#[trigger] visits[i] matches Some(e) ==> unseparated(e)),
    ensures
        found(visits, target) == Seq::<DirEntry>::empty(),
{
    assert forall|i: int| 0 <= i < visits.len() implies !is_match(#[trigger] visits[i], target) by {
        if visits[i] is Some && is_match(visits[i], target) {
            assert(unseparated(visits[i]->0));
        }
    }
    lemma_no_entry_named_finds_nothing(visits, target);
}

/// An iterator looking for a target that holds the separator `/` hands
/// nothing out.
pub proof fn lemma_iterator_separator_finds_nothing(it: &IteratorFilter)
    requires
        it.wf(),
        it.target().contains('/'),
    ensures
        it.handed_out() == Seq::<DirEntry>::empty(),
{
    it.lemma_taken_unseparated();
    lemma_separator_finds_nothing(it.visits(), it.target());
}

/// Two iterators that look for the same target over walks that visited the
/// same entries hand out the same entries, in the same order: the output
/// depends on nothing else.
pub proof fn lemma_same_walk_same_entries(a: &IteratorFilter, b: &IteratorFilter)
    requires
        a.target() == b.target(),
        a.visits() == b.visits(),
    ensures
        a.handed_out() == b.handed_out(),
{
}

} // verus!
