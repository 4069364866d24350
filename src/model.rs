//! What a finder hands out, as a function of the walk it ran over.

use vstd::prelude::*;
use walkdir::DirEntry;
use crate::walk::base_of;

verus! {

/// One result of the walk as the finder saw it: an entry, or `None` for a
/// traversal error.
pub type Visit = Option<DirEntry>;

/// Whether a base name is exactly the target.
pub open spec fn named(name: Option<Seq<char>>, target: Seq<char>) -> bool {
    name == Some(target)
}

/// A name as text, as the finder compares it.
pub open spec fn text_of(name: Option<String>) -> Option<Seq<char>> {
    match name {
        Some(s) => Some(s@),
        None => None,
    }
}

/// Whether an entry's base name is free of the separator `/`.
pub open spec fn unseparated(e: DirEntry) -> bool {
    base_of(e) matches Some(s) ==> !s.contains('/')
}

/// Whether the walk met a traversal error.
pub open spec fn failed(visits: Seq<Visit>) -> bool {
    exists|i: int| 0 <= i < visits.len() && (#[trigger] visits[i]) is None
}

/// Whether a single visit is an entry whose base name is `target`.
pub open spec fn is_match(v: Visit, target: Seq<char>) -> bool {
    match v {
        Some(e) => named(base_of(e), target),
        None => false,
    }
}

/// The entries handed out over the walk `visits`: in visit order, each entry
/// whose base name is `target` and before which no traversal error came.
pub open spec fn found(visits: Seq<Visit>, target: Seq<char>) -> Seq<DirEntry>
    decreases visits.len(),
{
    if visits.len() == 0 {
        Seq::empty()
    } else {
        let before = found(visits.drop_last(), target);
        match visits.last() {
            Some(e) => if !failed(visits.drop_last()) && named(base_of(e), target) {
                before.push(e)
            } else {
                before
            },
            None => before,
        }
    }
}

/// Adding one visit at the end of the walk hands out at most that visit's
/// entry, and only where its base name is `target` and no error came before
/// it.
pub proof fn lemma_found_push(visits: Seq<Visit>, v: Visit, target: Seq<char>)
    ensures
        failed(visits.push(v)) == (failed(visits) || v is None),
        found(visits.push(v), target) == (match v {
            Some(e) => if !failed(visits) && named(base_of(e), target) {
                found(visits, target).push(e)
            } else {
                found(visits, target)
            },
            None => found(visits, target),
        }),
{
    let w = visits.push(v);
    assert(w.drop_last() =~= visits);
    assert(w.last() == v);
    if failed(visits) {
        let i = choose|i: int| 0 <= i < visits.len() && (#[trigger] visits[i]) is None;
        assert(w[i] == visits[i]);
    }
    if v is None {
        assert(w[visits.len() as int] is None);
    }
    if failed(w) {
        let i = choose|i: int| 0 <= i < w.len() && (#[trigger] w[i]) is None;
        if i < visits.len() {
            assert(visits[i] == w[i]);
        }
    }
}

} // verus!
