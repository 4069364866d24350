//! The finder and the iterator that it turns into.

use std::path::Path;
use vstd::prelude::*;
use walkdir::{DirEntry, IntoIter, WalkDir};
use crate::model::{failed, found, lemma_found_push, named, text_of, unseparated, Visit};
use crate::walk::{base_name, base_of, next_visit, start_walk, walk_from};

verus! {

/// A walk from a root directory, paired with the base name to look for.
pub struct Finder {
    walker: WalkDir,
    target: String,
}

impl Finder {
    /// The base name that this finder looks for.
    pub closed spec fn target(&self) -> Seq<char> {
        self.target@
    }

    /// A finder that walks the tree from `root` looking for entries whose
    /// base name is `target`. Nothing is read from disk until iteration.
    pub fn new<P: AsRef<Path>>(root: P, target: &str) -> (r: Finder)
        ensures
            r.target() == target@,
    {
        Finder { walker: walk_from(root), target: target.to_string() }
    }

    /// Starts the walk. The iterator looks for this finder's target and has
    /// taken nothing from the walk yet.
    pub fn into_iter(self) -> (r: IteratorFilter)
        ensures
            r.wf(),
            r.target() == self.target(),
            r.visits() == Seq::<Visit>::empty(),
            !r.ended(),
    {
        IteratorFilter {
            it: start_walk(self.walker),
            target: self.target,
            done: false,
            visits: Ghost(Seq::empty()),
            ended: Ghost(false),
        }
    }
}

/// Whether a base name read from an entry is exactly `target`; an entry
/// without a final path component matches nothing.
pub fn is_named(name: &Option<String>, target: &String) -> (r: bool)
    ensures
        r == named(text_of(*name), target@),
{
    match name {
        Some(n) => *n == *target,
        None => false,
    }
}

/// What one result of the walk led to.
pub enum Outcome {
    /// An entry whose base name is the target: it is handed out.
    Found(DirEntry),
    /// An entry with another base name, or with none: it is passed over.
    Skipped,
    /// The walk is over, or it met a traversal error: nothing more is handed
    /// out.
    Finished,
}

/// The entries of a walk whose base name is the target, one at a time.
///
/// It records, as ghost state, every result it has taken from the walk; what
/// it has handed out so far is always `found(self.visits(), self.target())`.
pub struct IteratorFilter {
    it: IntoIter,
    target: String,
    done: bool,
    visits: Ghost<Seq<Visit>>,
    ended: Ghost<bool>,
}

impl IteratorFilter {
    /// The base name looked for.
    pub closed spec fn target(&self) -> Seq<char> {
        self.target@
    }

    /// Every result taken from the walk so far, in order.
    pub closed spec fn visits(&self) -> Seq<Visit> {
        self.visits@
    }

    /// Whether the walk has said that it is over.
    pub closed spec fn ended(&self) -> bool {
        self.ended@
    }

    /// Whether nothing more will be handed out: the walk is over or has
    /// failed.
    pub open spec fn is_done(&self) -> bool {
        self.ended() || failed(self.visits())
    }

    /// The entries handed out so far.
    pub open spec fn handed_out(&self) -> Seq<DirEntry> {
        found(self.visits(), self.target())
    }

    /// The flag that stops the walk agrees with what the walk gave, and every
    /// entry taken so far has had its base name read.
    pub closed spec fn wf(&self) -> bool {
        &&& self.done == self.is_done()
        &&& forall|i: int|
            0 <= i < self.visits@.len() ==> (#[trigger] self.visits@[i] matches Some(e)
                ==> unseparated(e))
    }

    /// Every entry taken so far has a base name free of the separator `/`.
    pub proof fn lemma_taken_unseparated(&self)
        requires
            self.wf(),
        ensures
            forall|i: int|
                0 <= i < self.visits().len() ==> (#[trigger] self.visits()[i] matches Some(e)
                    ==> unseparated(e)),
    {
    }

    /// Takes one result of the walk: records it, and hands the entry out where
    /// its base name is the target. A traversal error, like the end of the
    /// walk, finishes the iteration for good.
    pub fn take(&mut self, pulled: Option<Result<DirEntry, walkdir::Error>>) -> (r: Outcome)
        requires
            old(self).wf(),
            !old(self).is_done(),
        ensures
            final(self).wf(),
            final(self).target() == old(self).target(),
            match pulled {
                None => {
                    &&& r is Finished
                    &&& final(self).visits() == old(self).visits()
                    &&& final(self).ended()
                },
                Some(Err(_)) => {
                    &&& r is Finished
                    &&& final(self).visits() == old(self).visits().push(None)
                    &&& !final(self).ended()
                },
                Some(Ok(e)) => {
                    &&& final(self).visits() == old(self).visits().push(Some(e))
                    &&& !final(self).ended()
                    &&& if named(base_of(e), old(self).target()) {
                        r == Outcome::Found(e)
                    } else {
                        r is Skipped
                    }
                },
            },
    {
        match pulled {
            None => {
                self.done = true;
                self.ended = Ghost(true);
                Outcome::Finished
            },
            Some(Err(_)) => {
                proof {
                    lemma_found_push(self.visits@, None, self.target@);
                }
                self.done = true;
                self.visits = Ghost(self.visits@.push(None));
                assert forall|i: int| 0 <= i < self.visits@.len() implies (
                #[trigger] self.visits@[i] matches Some(x) ==> unseparated(x)) by {
                    if i < old(self).visits@.len() {
                        assert(self.visits@[i] == old(self).visits@[i]);
                    }
                }
                Outcome::Finished
            },
            Some(Ok(e)) => {
                let name = base_name(&e);
                let hit = is_named(&name, &self.target);
                proof {
                    lemma_found_push(self.visits@, Some(e), self.target@);
                }
                self.visits = Ghost(self.visits@.push(Some(e)));
                assert forall|i: int| 0 <= i < self.visits@.len() implies (
                #[trigger] self.visits@[i] matches Some(x) ==> unseparated(x)) by {
                    if i < old(self).visits@.len() {
                        assert(self.visits@[i] == old(self).visits@[i]);
                    }
                }
                if hit {
                    Outcome::Found(e)
                } else {
                    Outcome::Skipped
                }
            },
        }
    }

    /// The next entry of the walk whose base name is the target, or `None`
    /// once the walk is over or has met a traversal error. Results are taken
    /// from the walk until one of those happens; a call after that takes
    /// nothing more. (A single call gives up after `usize::MAX` results, which
    /// no filesystem holds.)
    pub fn next(&mut self) -> (r: Option<DirEntry>)
        requires
            old(self).wf(),
        ensures
            final(self).wf(),
            final(self).target() == old(self).target(),
            old(self).visits().is_prefix_of(final(self).visits()),
            old(self).is_done() ==> r is None && final(self).visits() == old(self).visits(),
            match r {
                Some(e) => {
                    &&& final(self).handed_out() == old(self).handed_out().push(e)
                    &&& final(self).visits().last() == Some(e)
                    &&& base_of(e) == Some(old(self).target())
                    &&& !final(self).is_done()
                },
                None => {
                    &&& final(self).handed_out() == old(self).handed_out()
                    &&& final(self).is_done() || final(self).visits().len()
                        == old(self).visits().len() + usize::MAX
                },
            },
    {
        if self.done {
            return None;
        }
        let mut budget: usize = usize::MAX;
        loop
            invariant
                self.wf(),
                !self.is_done(),
                !old(self).is_done(),
                self.target() == old(self).target(),
                old(self).visits().is_prefix_of(self.visits()),
                self.handed_out() == old(self).handed_out(),
                self.visits().len() + budget == old(self).visits().len() + usize::MAX,
            decreases budget,
        {
            if budget == 0 {
                return None;
            }
            budget = budget - 1;
            let ghost before = self.visits();
            let pulled = next_visit(&mut self.it);
            let outcome = self.take(pulled);
            proof {
                if self.visits().len() > before.len() {
                    lemma_found_push(before, self.visits().last(), self.target());
                    assert(self.visits() == before.push(self.visits().last()));
                }
            }
            match outcome {
                Outcome::Found(e) => {
                    return Some(e);
                },
                Outcome::Skipped => {},
                Outcome::Finished => {
                    return None;
                },
            }
        }
    }
}

} // verus!
