//! The persistence boundary: whole-document reads and writes, abstracted
//! behind a capability trait so that an in-memory double can stand in for a
//! file-backed store.

use crate::models::DBState;
use crate::models::DbError;
use crate::models::StateView;
use vstd::prelude::*;

verus! {

/// A durable store of the whole state document.
///
/// `contents()` is the document the store currently holds; `can_read()` says
/// whether a read is able to produce it. A store that satisfies `always_ok()`
/// never fails: the in-memory store below is one; a file-backed store is not.
pub trait Store: Sized {
    /// Whether a read succeeds and yields `contents()`.
    spec fn can_read(&self) -> bool;

    /// The document this store holds.
    spec fn contents(&self) -> StateView;

    /// Whether every read and write on this store succeeds.
    spec fn always_ok(&self) -> bool;

    /// Read the whole document.
    fn read(&self) -> (r: Result<DBState, DbError>)
        ensures
            self.can_read() ==> r is Ok,
            r matches Ok(s) ==> self.can_read() && s@ == self.contents() && s.wf(),
            r matches Err(e) ==> e.is_store_error(),
            self.always_ok() ==> self.can_read(),
    ;

    /// Overwrite the whole document with `state`.
    fn write(&mut self, state: &DBState) -> (r: Result<(), DbError>)
        requires
            state.wf(),
        ensures
            r is Ok ==> final(self).can_read() && final(self).contents() == state@,
            r matches Err(e) ==> e == DbError::IOFailure,
            old(self).always_ok() ==> r is Ok && final(self).always_ok(),
    ;
}

/// An in-memory store: the document held directly, every operation
/// successful. It is the double that stands in for the file-backed store.
pub struct MemoryStore {
    state: DBState,
}

impl MemoryStore {
    #[verifier::type_invariant]
    spec fn inv(&self) -> bool {
        self.state.wf()
    }

    /// A fresh store holding the empty document.
    pub fn new() -> (r: Self)
        ensures
            r.can_read(),
            r.always_ok(),
            r.contents() == StateView::initial(),
    {
        MemoryStore { state: DBState::new() }
    }

    /// A store holding a given document, for instance one loaded from disk.
    pub fn with_state(state: DBState) -> (r: Self)
        requires
            state.wf(),
        ensures
            r.can_read(),
            r.always_ok(),
            r.contents() == state@,
    {
        MemoryStore { state }
    }
}

impl Store for MemoryStore {
    open spec fn can_read(&self) -> bool {
        true
    }

    closed spec fn contents(&self) -> StateView {
        self.state@
    }

    open spec fn always_ok(&self) -> bool {
        true
    }

    fn read(&self) -> (r: Result<DBState, DbError>) {
        proof {
            use_type_invariant(self);
        }
        Ok(self.state.clone())
    }

    fn write(&mut self, state: &DBState) -> (r: Result<(), DbError>) {
        *self = MemoryStore { state: state.clone() };
        Ok(())
    }
}

} // verus!
