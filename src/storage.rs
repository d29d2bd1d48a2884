//! Persistence: a storage capability and a manager that saves the whole
//! state after every change.
use crate::codec::Codec;
use crate::multisig::{approved, proposed, released, Multisig, MultisigError, MultisigView, ProposalId};
use crate::principal::{principal_views, Principal};
use vstd::prelude::*;

verus! {

/// Where a committee state is kept between runs.
pub trait MultisigStorage<T: Codec> {
    /// The backend's failure.
    type Error;

    /// Whether this backend keeps nothing: its saves succeed and its loads
    /// find nothing. A backend claims nothing of the kind unless it says so.
    open spec fn keeps_nothing(&self) -> bool {
        false
    }

    /// The state this backend holds, if any. A backend claims to hold
    /// nothing unless it says so.
    open spec fn stored(&self) -> Option<MultisigView<T::V>> {
        None
    }

    /// Persists the whole state; once it succeeds, that state is the one
    /// held.
    fn save(&mut self, multisig: &Multisig<T>) -> (r: Result<(), Self::Error>)
        ensures
            old(self).keeps_nothing() ==> r is Ok && final(self).keeps_nothing(),
            !old(self).keeps_nothing() && r is Ok ==> final(self).stored() == Some(multisig@),
    ;

    /// The state saved last, or `None` when nothing was saved; a state it
    /// hands back meets the committee invariants.
    fn load(&mut self) -> (r: Result<Option<Multisig<T>>, Self::Error>)
        ensures
            r matches Ok(Some(m)) ==> m@.wf(),
            old(self).keeps_nothing() ==> (r matches Ok(None)) && final(self).keeps_nothing(),
    ;
}

/// Storage that keeps nothing: saving succeeds, loading finds nothing.
#[derive(Clone, Copy, Debug, Default)]
pub struct NoStorage;

impl<T: Codec> MultisigStorage<T> for NoStorage {
    type Error = ();

    open spec fn keeps_nothing(&self) -> bool {
        true
    }

    fn save(&mut self, multisig: &Multisig<T>) -> Result<(), ()> {
        Ok(())
    }

    fn load(&mut self) -> Result<Option<Multisig<T>>, ()> {
        Ok(None)
    }
}

/// The state to start from: the loaded one if there is one, else a fresh
/// committee of `owners` and `threshold`.
pub fn initial_state<T: Codec>(loaded: Option<Multisig<T>>, owners: Vec<Principal>, threshold: u8) -> (r:
    Result<Multisig<T>, MultisigError>)
    requires
        loaded matches Some(m) ==> m@.wf(),
    ensures
        loaded matches Some(m) ==> r matches Ok(x) && x@ == m@,
        loaded is None ==> {
            &&& r is Ok <==> (0 < threshold && threshold <= principal_views(owners@).to_set().len())
            &&& r matches Err(e) ==> e == MultisigError::Validation
            &&& r matches Ok(x) ==> {
                &&& x@.owner_set() == principal_views(owners@).to_set()
                &&& x@.threshold == threshold
                &&& x@.next_id == 0
                &&& x@.proposals.len() == 0
            }
        },
        r matches Ok(x) ==> x@.wf(),
{
    match loaded {
        Some(m) => Ok(m),
        None => Multisig::try_new(owners, threshold),
    }
}

/// Puts the loaded state, if there is one, in place of `current`.
pub fn adopt_loaded<T: Codec>(current: &mut Multisig<T>, loaded: Option<Multisig<T>>)
    requires
        old(current)@.wf(),
        loaded matches Some(m) ==> m@.wf(),
    ensures
        loaded matches Some(m) ==> final(current)@ == m@,
        loaded is None ==> final(current)@ == old(current)@,
        final(current)@.wf(),
{
    match loaded {
        Some(m) => {
            *current = m;
        },
        None => {},
    }
}

/// A committee state that is saved to its storage after every change.
pub struct MultisigManager<T: Codec, S: MultisigStorage<T>> {
    multisig: Multisig<T>,
    storage: S,
}

impl<T: Codec, S: MultisigStorage<T>> View for MultisigManager<T, S> {
    type V = MultisigView<T::V>;

    closed spec fn view(&self) -> MultisigView<T::V> {
        self.multisig@
    }
}

impl<T: Codec, S: MultisigStorage<T>> MultisigManager<T, S> {
    /// Whether the storage behind this manager keeps nothing, so that
    /// saving never fails.
    pub closed spec fn saves_always(&self) -> bool {
        self.storage.keeps_nothing()
    }

    /// The state held by the storage behind this manager, if any.
    pub closed spec fn stored_state(&self) -> Option<MultisigView<T::V>> {
        self.storage.stored()
    }

    /// A manager over `storage`, starting from the state it holds, else from
    /// a fresh committee; `Storage` when loading fails, `Validation` when
    /// the fresh committee cannot be built.
    pub fn with_storage(owners: Vec<Principal>, threshold: u8, storage: S) -> (r: Result<Self, MultisigError>)
        ensures
            r matches Ok(m) ==> m@.wf(),
            r matches Err(e) ==> e == MultisigError::Storage || (e == MultisigError::Validation && !(0
                < threshold && threshold <= principal_views(owners@).to_set().len())),
            storage.keeps_nothing() ==> (r is Ok <==> (0 < threshold && threshold <= principal_views(
                owners@,
            ).to_set().len())),
            storage.keeps_nothing() ==> (r matches Ok(m) ==> {
                &&& m@.owner_set() == principal_views(owners@).to_set()
                &&& m@.threshold == threshold
                &&& m@.next_id == 0
                &&& m@.proposals.len() == 0
                &&& m.saves_always()
            }),
    {
        let mut storage = storage;
        let loaded = match storage.load() {
            Ok(x) => x,
            Err(_) => return Err(MultisigError::Storage),
        };
        match initial_state(loaded, owners, threshold) {
            Ok(multisig) => Ok(MultisigManager { multisig, storage }),
            Err(e) => Err(e),
        }
    }

    /// Puts `prior` back when the save after a change failed.
    fn persist_or_restore(&mut self, prior: Multisig<T>) -> (r: Result<(), MultisigError>)
        ensures
            r is Ok ==> final(self)@ == old(self)@,
            r matches Err(e) ==> e == MultisigError::Storage && final(self)@ == prior@,
            old(self).saves_always() ==> r is Ok && final(self).saves_always(),
            !old(self).saves_always() && r is Ok ==> final(self).stored_state() == Some(final(self)@),
    {
        match self.storage.save(&self.multisig) {
            Ok(()) => Ok(()),
            Err(_) => {
                self.multisig = prior;
                Err(MultisigError::Storage)
            },
        }
    }

    /// `Multisig::propose`, then a save; when the save fails the change is
    /// undone and `Storage` returned.
    pub fn propose(&mut self, caller: Principal, payload: T) -> (r: Result<ProposalId, MultisigError>)
        requires
            old(self)@.wf(),
            old(self)@.next_id < u64::MAX,
        ensures
            final(self)@.wf(),
            !old(self)@.owners.contains(caller@) ==> r == Err::<ProposalId, MultisigError>(
                MultisigError::Authorization,
            ),
            old(self)@.owners.contains(caller@) ==> r == Ok::<ProposalId, MultisigError>(
                old(self)@.next_id,
            ) || r == Err::<ProposalId, MultisigError>(MultisigError::Storage),
            r is Ok ==> final(self)@ == proposed(old(self)@, caller@, payload@),
            old(self).saves_always() ==> r != Err::<ProposalId, MultisigError>(MultisigError::Storage)
                && final(self).saves_always(),
            !old(self).saves_always() && r is Ok ==> final(self).stored_state() == Some(final(self)@),
            r is Err ==> final(self)@ == old(self)@,
    {
        let prior = self.multisig.snapshot();
        let id = match self.multisig.propose(caller, payload) {
            Ok(id) => id,
            Err(e) => return Err(e),
        };
        match self.persist_or_restore(prior) {
            Ok(()) => Ok(id),
            Err(e) => Err(e),
        }
    }

    /// `Multisig::approve`, then a save; when the save fails the change is
    /// undone and `Storage` returned.
    pub fn approve(&mut self, caller: Principal, id: ProposalId) -> (r: Result<Option<T>, MultisigError>)
        requires
            old(self)@.wf(),
        ensures
            final(self)@.wf(),
            !old(self)@.owners.contains(caller@) ==> r == Err::<Option<T>, MultisigError>(
                MultisigError::Authorization,
            ),
            old(self)@.owners.contains(caller@) && !old(self)@.has(id) ==> r == Err::<
                Option<T>,
                MultisigError,
            >(MultisigError::NotFound),
            r is Err ==> final(self)@ == old(self)@,
            old(self).saves_always() ==> r != Err::<Option<T>, MultisigError>(MultisigError::Storage)
                && final(self).saves_always(),
            !old(self).saves_always() && r is Ok ==> final(self).stored_state() == Some(final(self)@),
            old(self)@.owners.contains(caller@) && old(self)@.has(id) ==> {
                ||| r == Err::<Option<T>, MultisigError>(MultisigError::Storage)
                ||| {
                    &&& final(self)@ == approved(old(self)@, caller@, id)
                    &&& r matches Ok(o)
                    &&& o is Some <==> released(old(self)@, caller@, id) is Some
                    &&& o matches Some(x) ==> released(old(self)@, caller@, id) == Some(x@)
                }
            },
    {
        let prior = self.multisig.snapshot();
        let out = match self.multisig.approve(caller, id) {
            Ok(out) => out,
            Err(e) => return Err(e),
        };
        match self.persist_or_restore(prior) {
            Ok(()) => Ok(out),
            Err(e) => Err(e),
        }
    }

    /// The managed state, for queries.
    pub fn multisig(&self) -> (r: &Multisig<T>)
        ensures
            r@ == self@,
    {
        &self.multisig
    }

    /// The managed state, for changes that the caller saves itself.
    pub fn multisig_mut(&mut self) -> (r: &mut Multisig<T>)
        ensures
            (*r)@ == old(self)@,
            final(self)@ == (*final(r))@,
    {
        &mut self.multisig
    }

    /// Saves the current state.
    pub fn save(&mut self) -> (r: Result<(), S::Error>)
        ensures
            final(self)@ == old(self)@,
            old(self).saves_always() ==> r is Ok && final(self).saves_always(),
            !old(self).saves_always() && r is Ok ==> final(self).stored_state() == Some(final(self)@),
    {
        self.storage.save(&self.multisig)
    }

    /// Replaces the current state by the saved one, if there is one.
    pub fn load(&mut self) -> (r: Result<(), S::Error>)
        requires
            old(self)@.wf(),
        ensures
            final(self)@.wf(),
            r is Err ==> final(self)@ == old(self)@,
            old(self).saves_always() ==> r is Ok && final(self).saves_always(),
    {
        match self.storage.load() {
            Ok(loaded) => {
                adopt_loaded(&mut self.multisig, loaded);
                Ok(())
            },
            Err(e) => Err(e),
        }
    }
}

impl<T: Codec> MultisigManager<T, NoStorage> {
    /// A manager that keeps the state in memory only.
    pub fn in_memory(owners: Vec<Principal>, threshold: u8) -> (r: Self)
        requires
            0 < threshold,
            threshold <= principal_views(owners@).to_set().len(),
        ensures
            r@.wf(),
            r@.owner_set() == principal_views(owners@).to_set(),
            r@.threshold == threshold,
            r@.next_id == 0,
            r@.proposals.len() == 0,
            r.saves_always(),
    {
        MultisigManager { multisig: Multisig::new(owners, threshold), storage: NoStorage }
    }
}

} // verus!
