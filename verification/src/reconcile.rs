//! What runs once after all moves: bring the local cache in line with the server (or the
//! server in line with the cache) for every folder that the moves touched.

use vstd::prelude::*;

use crate::error::{told, Error};
use crate::textmap::TextSet;

verus! {

/// What runs once after all moves, with the dotpaths of the touched folders. The command
/// line wires this to run `mbsync` and check that UIDVALIDITY is stable.
pub trait Reconciler: Sized {
    /// `run` may turn `pre` into `post` with the result `r`. Of a reconciler that does not say
    /// what it may do, nothing is known.
    open spec fn run_step(
        pre: Self,
        touched: Set<Seq<char>>,
        post: Self,
        r: Result<(), Seq<char>>,
    ) -> bool {
        true
    }

    /// Reconcile the touched folders.
    fn run(&mut self, touched: &TextSet) -> (r: Result<(), Error>)
        ensures
            Self::run_step(*old(self), touched@, *final(self), told(r)),
    ;
}

/// Nothing to reconcile.
#[derive(Debug, Clone, Copy, PartialEq, Eq, Structural)]
pub struct NoReconciler;

impl Reconciler for NoReconciler {
    open spec fn run_step(
        pre: NoReconciler,
        touched: Set<Seq<char>>,
        post: NoReconciler,
        r: Result<(), Seq<char>>,
    ) -> bool {
        r == Ok::<(), Seq<char>>(())
    }

    fn run(&mut self, _touched: &TextSet) -> (r: Result<(), Error>) {
        Ok(())
    }
}

} // verus!
