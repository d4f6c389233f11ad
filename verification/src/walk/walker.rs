//! The results of a walk.
use crate::walk::config::WalkConfig;
use crate::walk::entry::{DirEntry, Entry};
use crate::walk::error::{Failure, WalkError};
use vstd::prelude::*;

verus! {

/// The entries among the results of a walk, in order.
pub open spec fn entries_of<E, F>(results: Seq<Result<E, F>>) -> Seq<E>
    decreases results.len(),
{
    if results.len() == 0 {
        Seq::empty()
    } else {
        match results.last() {
            Ok(entry) => entries_of(results.drop_last()).push(entry),
            Err(_) => entries_of(results.drop_last()),
        }
    }
}

/// The errors among the results of a walk, in order.
pub open spec fn errors_of<E, F>(results: Seq<Result<E, F>>) -> Seq<F>
    decreases results.len(),
{
    if results.len() == 0 {
        Seq::empty()
    } else {
        match results.last() {
            Ok(_) => errors_of(results.drop_last()),
            Err(error) => errors_of(results.drop_last()).push(error),
        }
    }
}

/// What a result of a walk says.
pub open spec fn said(result: Result<DirEntry, WalkError>) -> Result<Entry, Failure> {
    match result {
        Ok(entry) => Ok(entry@),
        Err(error) => Err(error@),
    }
}

/// What the results of a walk say.
pub open spec fn all_said(results: Seq<Result<DirEntry, WalkError>>) -> Seq<
    Result<Entry, Failure>,
> {
    results.map_values(|r: Result<DirEntry, WalkError>| said(r))
}

#[derive(Debug)]
pub struct Walker {
    pub config: WalkConfig,
}

impl Walker {
    pub fn new(config: WalkConfig) -> (walker: Self)
        ensures
            walker.config == config,
    {
        Walker { config }
    }

    /// Sorts the results of the walk into entries and errors.
    pub fn walk_collect(&self, results: Vec<Result<DirEntry, WalkError>>) -> (collected: (
        Vec<DirEntry>,
        Vec<WalkError>,
    ))
        ensures
            collected.0@ == entries_of(results@),
            collected.1@ == errors_of(results@),
    {
        let ghost all = results@;
        let mut entries: Vec<DirEntry> = Vec::new();
        let mut errors: Vec<WalkError> = Vec::new();
        for result in iter: results
            invariant
                iter.seq() == all,
                entries@ == entries_of(all.take(iter.index() as int)),
                errors@ == errors_of(all.take(iter.index() as int)),
        {
            proof {
                let k = iter.index() as int;
                assert(all.take(k + 1).drop_last() =~= all.take(k));
                assert(all.take(k + 1).last() == result);
            }
            match result {
                Ok(entry) => entries.push(entry),
                Err(error) => errors.push(error),
            }
        }
        assert(all.take(all.len() as int) =~= all);
        (entries, errors)
    }
}

/// No result of a walk is lost: each one is an entry or an error.
pub proof fn law_results_are_kept<E, F>(results: Seq<Result<E, F>>)
    ensures
        entries_of(results).len() + errors_of(results).len() == results.len(),
    decreases results.len(),
{
    if results.len() > 0 {
        law_results_are_kept(results.drop_last());
    }
}

} // verus!
