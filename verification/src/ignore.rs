//! The set of paths that a walk under the ignore rules has left.

use vstd::prelude::*;
use vstd::hash_set::StringHashSet;
use crate::model::SummaryError;

verus! {

/// The paths that survived the ignore rules. Every other path counts as
/// ignored, also one that the walk never met.
pub struct Ignore {
    unignored: StringHashSet,
}

impl View for Ignore {
    type V = Set<Seq<char>>;

    closed spec fn view(&self) -> Set<Seq<char>> {
        self.unignored@
    }
}

/// The paths among the outcomes of a walk.
pub open spec fn walked_paths(walked: Seq<Option<String>>) -> Set<Seq<char>> {
    Set::new(
        |p: Seq<char>|
            exists|i: int|
                0 <= i < walked.len() && (#[trigger] walked[i]) is Some && walked[i]->0@ == p,
    )
}

impl Ignore {
    /// Collects the canonical paths that a walk has yielded. An outcome of
    /// `None` stands for a path that could not be read or resolved; a single
    /// one fails the whole.
    pub fn new(walked: Vec<Option<String>>) -> (r: Result<Ignore, SummaryError>)
        ensures
            match r {
                Ok(ignore) => {
                    &&& forall|i: int| 0 <= i < walked.len() ==> walked[i] is Some
                    &&& ignore@ == walked_paths(walked@)
                },
                Err(e) => {
                    &&& e == SummaryError::Io
                    &&& exists|i: int| 0 <= i < walked.len() && walked[i] is None
                },
            },
    {
        let ghost all = walked@;
        let mut rest = walked;
        let mut unignored = StringHashSet::new();
        while rest.len() > 0
            invariant
                all == walked@,
                rest.len() <= all.len(),
                rest@ == all.subrange(0, rest.len() as int),
                forall|i: int| rest.len() <= i < all.len() ==> all[i] is Some,
                forall|p: Seq<char>|
                    unignored@.contains(p) <==> exists|i: int|
                        rest.len() <= i < all.len() && (#[trigger] all[i])->0@ == p,
            decreases rest.len(),
        {
            let ghost at = rest.len() - 1;
            match rest.pop() {
                Some(Some(path)) => {
                    let ghost before = unignored@;
                    unignored.insert(path);
                    assert(all[at] == Some(path));
                    assert(rest@ =~= all.subrange(0, rest.len() as int));
                    assert forall|p: Seq<char>|
                        unignored@.contains(p) <==> exists|i: int|
                            rest.len() <= i < all.len() && (#[trigger] all[i])->0@ == p by {
                        if unignored@.contains(p) {
                            if before.contains(p) {
                                let i = choose|i: int|
                                    at < i < all.len() && (#[trigger] all[i])->0@ == p;
                                assert(rest.len() <= i < all.len() && all[i]->0@ == p);
                            } else {
                                assert(all[at]->0@ == p);
                            }
                        }
                        if exists|i: int|
                            rest.len() <= i < all.len() && (#[trigger] all[i])->0@ == p {
                            let i = choose|i: int|
                                rest.len() <= i < all.len() && (#[trigger] all[i])->0@ == p;
                            if i > at {
                                assert(before.contains(p));
                            }
                        }
                    }
                },
                _ => {
                    assert(all[at] is None);
                    return Err(SummaryError::Io);
                },
            }
        }
        assert(unignored@ =~= walked_paths(all));
        Ok(Ignore { unignored })
    }

    /// Whether a path is ignored: whether the walk did not yield it.
    pub fn is_ignore(&self, path: &str) -> (r: bool)
        ensures
            r == !self@.contains(path@),
    {
        !self.unignored.contains(path)
    }
}

} // verus!
