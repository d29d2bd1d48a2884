//! The approval state machine: owners, threshold, and the proposal table.
use crate::codec::{
    lemma_parse_seq_sound, lemma_parse_u64_sound,
    push_bytes, all_valid, decode_vec, duplicate_vec, encode_seq, encode_vec, lemma_parse_seq, lemma_parse_u64,
    parse_seq, parse_u64, read_u64, views, Codec,
};
use vstd::bytes::{spec_u64_to_le_bytes, u64_to_le_bytes};
use crate::principal::{
    contains_principal, insert_sorted, lemma_principal_order, lemma_sorted_insert,
    lemma_sorted_no_duplicates, principal_less, principal_lt, principal_views, sorted_insert,
    sorted_principals, Principal,
};
use vstd::prelude::*;

verus! {

broadcast use vstd::seq_lib::group_seq_properties;

/// Identifier of a proposal, handed out in increasing order.
pub type ProposalId = u64;

/// Why an operation was refused.
#[derive(Debug, Clone, Copy, PartialEq, Eq, Structural)]
pub enum MultisigError {
    /// The caller is not an owner.
    Authorization,
    /// No proposal has the given id.
    NotFound,
    /// The change would break a rule on owners or threshold.
    Validation,
    /// The storage backend failed.
    Storage,
    /// The bytes do not encode a committee state.
    Decode,
}

/// A request to release `payload`, with the owners who approved it so far.
#[derive(Debug)]
pub struct Proposal<T> {
    pub id: ProposalId,
    pub payload: T,
    pub approvals: Vec<Principal>,
    pub executed: bool,
}

/// The model of a proposal.
pub struct ProposalView<V> {
    pub id: u64,
    pub payload: V,
    pub approvals: Seq<Seq<u8>>,
    pub executed: bool,
}

impl<T: View> View for Proposal<T> {
    type V = ProposalView<T::V>;

    open spec fn view(&self) -> ProposalView<T::V> {
        ProposalView {
            id: self.id,
            payload: self.payload@,
            approvals: principal_views(self.approvals@),
            executed: self.executed,
        }
    }
}

/// The committee state: owners, threshold, next id, and proposals in id order.
pub struct Multisig<T> {
    owners: Vec<Principal>,
    threshold: u8,
    next_id: ProposalId,
    proposals: Vec<Proposal<T>>,
}

/// The model of the committee state.
pub struct MultisigView<V> {
    pub owners: Seq<Seq<u8>>,
    pub threshold: u8,
    pub next_id: u64,
    pub proposals: Seq<ProposalView<V>>,
}

impl<V> MultisigView<V> {
    /// The owners as a set.
    pub open spec fn owner_set(self) -> Set<Seq<u8>> {
        self.owners.to_set()
    }

    /// The committee invariants.
    pub open spec fn wf(self) -> bool {
        &&& self.owners.no_duplicates()
        &&& sorted_principals(self.owners)
        &&& 0 < self.threshold
        &&& self.threshold <= self.owners.len()
        &&& forall|i: int| 0 <= i < self.proposals.len() ==> {
            &&& (#[trigger] self.proposals[i]).id < self.next_id
            &&& self.proposals[i].approvals.no_duplicates()
            &&& sorted_principals(self.proposals[i].approvals)
        }
        &&& forall|i: int, j: int|
            0 <= i < j < self.proposals.len() ==> (#[trigger] self.proposals[i]).id
                < (#[trigger] self.proposals[j]).id
    }

    /// Whether a proposal has id `id`.
    pub open spec fn has(self, id: u64) -> bool {
        exists|i: int| 0 <= i < self.proposals.len() && (#[trigger] self.proposals[i]).id == id
    }

    /// The position of the proposal with id `id`.
    pub open spec fn position(self, id: u64) -> int {
        choose|i: int| 0 <= i < self.proposals.len() && (#[trigger] self.proposals[i]).id == id
    }

    /// The proposal with id `id`, if there is one.
    pub open spec fn lookup(self, id: u64) -> Option<ProposalView<V>> {
        if self.has(id) {
            Some(self.proposals[self.position(id)])
        } else {
            None
        }
    }

    /// The proposals not yet executed, in id order.
    pub open spec fn open_proposals(self) -> Seq<ProposalView<V>> {
        self.proposals.filter(not_executed())
    }
}

/// Holds of a proposal that has not been executed.
pub open spec fn not_executed<V>() -> spec_fn(ProposalView<V>) -> bool {
    |p: ProposalView<V>| !p.executed
}

/// Holds of every byte string but `x`.
pub open spec fn other_than(x: Seq<u8>) -> spec_fn(Seq<u8>) -> bool {
    |o: Seq<u8>| o != x
}

/// With increasing ids, a position that holds `id` is the position of `id`.
proof fn lemma_position<V>(m: MultisigView<V>, k: int)
    requires
        m.wf(),
        0 <= k < m.proposals.len(),
    ensures
        m.has(m.proposals[k].id),
        m.position(m.proposals[k].id) == k,
{
    let id = m.proposals[k].id;
    assert(m.has(id));
    let p = m.position(id);
    if p < k {
        assert(m.proposals[p].id < m.proposals[k].id);
    } else if p > k {
        assert(m.proposals[k].id < m.proposals[p].id);
    }
}

impl<T: Codec> View for Multisig<T> {
    type V = MultisigView<T::V>;

    closed spec fn view(&self) -> MultisigView<T::V> {
        MultisigView {
            owners: principal_views(self.owners@),
            threshold: self.threshold,
            next_id: self.next_id,
            proposals: views(self.proposals@),
        }
    }
}

/// `p` after `who` approves it under `threshold`: `who` joins the approvals
/// once, in principal order, and the proposal is executed when they reach the threshold.
pub open spec fn with_approval<V>(p: ProposalView<V>, who: Seq<u8>, threshold: u8) -> ProposalView<V> {
    let a = if p.approvals.contains(who) {
        p.approvals
    } else {
        sorted_insert(p.approvals, who)
    };
    ProposalView { id: p.id, payload: p.payload, approvals: a, executed: a.len() >= threshold }
}

/// The state after `who` proposes `payload`: a new proposal under the next
/// id, approved by `who` alone and not executed.
pub open spec fn proposed<V>(v: MultisigView<V>, who: Seq<u8>, payload: V) -> MultisigView<V> {
    MultisigView {
        next_id: (v.next_id + 1) as u64,
        proposals: v.proposals.push(
            ProposalView { id: v.next_id, payload, approvals: seq![who], executed: false },
        ),
        ..v
    }
}

/// The state after `who`, an owner, approves proposal `id`: an open
/// proposal takes the approval; an executed one stays as it is.
pub open spec fn approved<V>(v: MultisigView<V>, who: Seq<u8>, id: u64) -> MultisigView<V> {
    if v.has(id) && !v.proposals[v.position(id)].executed {
        let k = v.position(id);
        MultisigView {
            proposals: v.proposals.update(k, with_approval(v.proposals[k], who, v.threshold)),
            ..v
        }
    } else {
        v
    }
}

/// The payload that `who`'s approval of `id` releases: that of an open
/// proposal which the approval brings to the threshold.
pub open spec fn released<V>(v: MultisigView<V>, who: Seq<u8>, id: u64) -> Option<V> {
    if v.has(id) && !v.proposals[v.position(id)].executed && with_approval(
        v.proposals[v.position(id)],
        who,
        v.threshold,
    ).executed {
        Some(v.proposals[v.position(id)].payload)
    } else {
        None
    }
}

/// The owners of `v`, each once, in principal order.
fn distinct_owners(v: &Vec<Principal>) -> (r: Vec<Principal>)
    ensures
        principal_views(r@).no_duplicates(),
        sorted_principals(principal_views(r@)),
        principal_views(r@).to_set() == principal_views(v@).to_set(),
{
    let mut out: Vec<Principal> = Vec::new();
    let mut i: usize = 0;
    assert(principal_views(out@) =~= Seq::<Seq<u8>>::empty());
    assert(principal_views(v@).take(0) =~= Seq::<Seq<u8>>::empty());
    while i < v.len()
        invariant
            i <= v@.len(),
            principal_views(out@).no_duplicates(),
            sorted_principals(principal_views(out@)),
            principal_views(out@).to_set() == principal_views(v@).take(i as int).to_set(),
        decreases v@.len() - i,
    {
        let ghost before = principal_views(out@);
        assert(principal_views(v@).take(i + 1) =~= principal_views(v@).take(i as int).push(v@[i as int]@));
        proof {
            principal_views(v@).take(i as int).lemma_push_to_set_commute(v@[i as int]@);
        }
        if !contains_principal(&out, &v[i]) {
            proof {
                lemma_sorted_insert(before, v@[i as int]@);
            }
            insert_sorted(&mut out, v[i].duplicate());
            proof {
                lemma_sorted_no_duplicates(principal_views(out@));
            }
        } else {
            assert(before.to_set().contains(v@[i as int]@));
            assert(before.to_set().insert(v@[i as int]@) =~= before.to_set());
        }
        i = i + 1;
    }
    assert(principal_views(v@).take(i as int) =~= principal_views(v@));
    out
}

impl<T: Codec> Multisig<T> {
    /// A committee of the distinct `owners` with `threshold`, or
    /// `Validation` when the threshold is zero or above the number of
    /// distinct owners.
    pub fn try_new(owners: Vec<Principal>, threshold: u8) -> (r: Result<Multisig<T>, MultisigError>)
        ensures
            r is Ok <==> (0 < threshold && threshold <= principal_views(owners@).to_set().len()),
            match r {
                Ok(m) => {
                    &&& m@.wf()
                    &&& m@.owner_set() == principal_views(owners@).to_set()
                    &&& m@.threshold == threshold
                    &&& m@.next_id == 0
                    &&& m@.proposals.len() == 0
                },
                Err(e) => e == MultisigError::Validation,
            },
    {
        let distinct = distinct_owners(&owners);
        proof {
            principal_views(distinct@).unique_seq_to_set();
        }
        if threshold == 0 || threshold as usize > distinct.len() {
            return Err(MultisigError::Validation);
        }
        Ok(Self::new(owners, threshold))
    }

    /// A committee of the distinct `owners` with `threshold`.
    pub fn new(owners: Vec<Principal>, threshold: u8) -> (r: Multisig<T>)
        requires
            0 < threshold,
            threshold <= principal_views(owners@).to_set().len(),
        ensures
            r@.wf(),
            r@.owner_set() == principal_views(owners@).to_set(),
            r@.threshold == threshold,
            r@.next_id == 0,
            r@.proposals.len() == 0,
    {
        let distinct = distinct_owners(&owners);
        proof {
            principal_views(distinct@).unique_seq_to_set();
        }
        let m = Multisig { owners: distinct, threshold, next_id: 0, proposals: Vec::new() };
        assert(views(m.proposals@) =~= Seq::<ProposalView<T::V>>::empty());
        m
    }

    /// Opens a proposal of `payload` by `caller`, approved by `caller` alone
    /// and not executed, under the next id; `Authorization` when `caller` is
    /// not an owner.
    pub fn propose(&mut self, caller: Principal, payload: T) -> (r: Result<ProposalId, MultisigError>)
        requires
            old(self)@.wf(),
            old(self)@.next_id < u64::MAX,
        ensures
            final(self)@.wf(),
            old(self)@.owners.contains(caller@) ==> {
                &&& r == Ok::<ProposalId, MultisigError>(old(self)@.next_id)
                &&& final(self)@ == proposed(old(self)@, caller@, payload@)
            },
            !old(self)@.owners.contains(caller@) ==> {
                &&& r == Err::<ProposalId, MultisigError>(MultisigError::Authorization)
                &&& final(self)@ == old(self)@
            },
    {
        if !contains_principal(&self.owners, &caller) {
            return Err(MultisigError::Authorization);
        }
        let id = self.next_id;
        self.next_id = self.next_id + 1;
        let mut approvals: Vec<Principal> = Vec::new();
        approvals.push(caller);
        let proposal = Proposal { id, payload, approvals, executed: false };
        assert(principal_views(proposal.approvals@) =~= seq![proposal.approvals@[0]@]);
        let ghost before = self.proposals@;
        self.proposals.push(proposal);
        assert(views(self.proposals@) =~= views(before).push(proposal@));
        assert(self@ == proposed(old(self)@, caller@, payload@));
        assert(seq![caller@].no_duplicates());
        Ok(id)
    }

    /// The position of the proposal with id `id`, if there is one.
    fn find(&self, id: ProposalId) -> (r: Option<usize>)
        requires
            self@.wf(),
        ensures
            r is Some <==> self@.has(id),
            r matches Some(k) ==> k == self@.position(id) && k < self@.proposals.len(),
    {
        let mut k: usize = 0;
        while k < self.proposals.len()
            invariant
                self@.wf(),
                k <= self.proposals@.len(),
                forall|j: int| 0 <= j < k ==> self.proposals@[j].id != id,
            decreases self.proposals@.len() - k,
        {
            if self.proposals[k].id == id {
                proof {
                    assert(self@.proposals[k as int].id == id);
                    lemma_position(self@, k as int);
                }
                return Some(k);
            }
            k = k + 1;
        }
        assert(!self@.has(id)) by {
            if self@.has(id) {
                let j = choose|j: int| 0 <= j < self@.proposals.len() && (#[trigger] self@.proposals[j]).id == id;
                assert(self.proposals@[j].id == id);
            }
        }
        None
    }

    /// Records `caller`'s approval of proposal `id`. Returns the payload
    /// when this approval brings the distinct approvals to the threshold,
    /// marking the proposal executed first; returns `None` when the
    /// threshold is not reached or the proposal was executed already.
    /// `Authorization` when `caller` is not an owner, `NotFound` when no
    /// proposal has id `id`.
    pub fn approve(&mut self, caller: Principal, id: ProposalId) -> (r: Result<Option<T>, MultisigError>)
        requires
            old(self)@.wf(),
        ensures
            final(self)@.wf(),
            !old(self)@.owners.contains(caller@) ==> {
                &&& r == Err::<Option<T>, MultisigError>(MultisigError::Authorization)
                &&& final(self)@ == old(self)@
            },
            old(self)@.owners.contains(caller@) && !old(self)@.has(id) ==> {
                &&& r == Err::<Option<T>, MultisigError>(MultisigError::NotFound)
                &&& final(self)@ == old(self)@
            },
            old(self)@.owners.contains(caller@) && old(self)@.has(id) ==> {
                &&& final(self)@ == approved(old(self)@, caller@, id)
                &&& r matches Ok(o)
                &&& o is Some <==> released(old(self)@, caller@, id) is Some
                &&& o matches Some(x) ==> released(old(self)@, caller@, id) == Some(x@)
            },
    {
        if !contains_principal(&self.owners, &caller) {
            return Err(MultisigError::Authorization);
        }
        let k = match self.find(id) {
            Some(k) => k,
            None => return Err(MultisigError::NotFound),
        };
        if self.proposals[k].executed {
            assert(self@.lookup(id) == Some(self@.proposals[k as int]));
            return Ok(None);
        }
        let threshold = self.threshold;
        let ghost before = self.proposals@;
        let ghost old_view = self@;
        let prop = &mut self.proposals[k];
        let ghost old_approvals = principal_views(prop.approvals@);
        if !contains_principal(&prop.approvals, &caller) {
            proof {
                lemma_sorted_insert(old_approvals, caller@);
                lemma_sorted_no_duplicates(sorted_insert(old_approvals, caller@));
            }
            insert_sorted(&mut prop.approvals, caller);
        }
        let out = if prop.approvals.len() >= threshold as usize {
            prop.executed = true;
            Some(prop.payload.duplicate())
        } else {
            None
        };
        proof {
            let p = with_approval(old_view.proposals[k as int], caller@, threshold);
            assert(self.proposals@ == before.update(k as int, self.proposals@[k as int]));
            assert(self.proposals@[k as int]@ == p);
            assert(views(self.proposals@) =~= old_view.proposals.update(k as int, p));
        }
        Ok(out)
    }

    /// The proposals not yet executed, in id order.
    pub fn list_open(&self) -> (r: Vec<&Proposal<T>>)
        ensures
            views(r@) == self@.open_proposals(),
    {
        let mut out: Vec<&Proposal<T>> = Vec::new();
        let mut k: usize = 0;
        let ghost pred = not_executed::<T::V>();
        assert(views(out@) =~= Seq::<ProposalView<T::V>>::empty());
        assert(self@.proposals.take(0) =~= Seq::<ProposalView<T::V>>::empty());
        while k < self.proposals.len()
            invariant
                k <= self.proposals@.len(),
                pred == not_executed::<T::V>(),
                views(out@) == self@.proposals.take(k as int).filter(pred),
            decreases self.proposals@.len() - k,
        {
            let ghost before = views(out@);
            proof {
                assert(self@.proposals.take(k + 1) =~= self@.proposals.take(k as int).push(
                    self@.proposals[k as int],
                ));
                self@.proposals.take(k as int).lemma_filter_push(self@.proposals[k as int], pred);
            }
            if !self.proposals[k].executed {
                out.push(&self.proposals[k]);
                assert(views(out@) =~= before.push(self@.proposals[k as int]));
            }
            k = k + 1;
        }
        assert(self@.proposals.take(k as int) =~= self@.proposals);
        out
    }

    /// The proposal with id `id`, if there is one.
    pub fn get_proposal(&self, id: ProposalId) -> (r: Option<&Proposal<T>>)
        requires
            self@.wf(),
        ensures
            match r {
                Some(p) => self@.lookup(id) == Some(p@),
                None => self@.lookup(id) is None,
            },
    {
        match self.find(id) {
            Some(k) => Some(&self.proposals[k]),
            None => None,
        }
    }

    /// The owners, each once, in principal order: shorter first, then
    /// byte by byte.
    pub fn get_owners(&self) -> (r: &Vec<Principal>)
        ensures
            self@.wf() ==> sorted_principals(principal_views(r@)),
            principal_views(r@) == self@.owners,
    {
        &self.owners
    }

    /// The number of distinct approvals that releases a payload.
    pub fn get_threshold(&self) -> (r: u8)
        ensures
            r == self@.threshold,
    {
        self.threshold
    }

    /// The id the next proposal will get.
    pub fn next_proposal_id(&self) -> (r: ProposalId)
        ensures
            r == self@.next_id,
    {
        self.next_id
    }

    /// Adds `owner` in its place in principal order; `Validation` when it
    /// is an owner already.
    pub fn add_owner(&mut self, owner: Principal) -> (r: Result<(), MultisigError>)
        requires
            old(self)@.wf(),
        ensures
            final(self)@.wf(),
            old(self)@.owners.contains(owner@) ==> {
                &&& r == Err::<(), MultisigError>(MultisigError::Validation)
                &&& final(self)@ == old(self)@
            },
            !old(self)@.owners.contains(owner@) ==> {
                &&& r is Ok
                &&& final(self)@ == (MultisigView {
                    owners: sorted_insert(old(self)@.owners, owner@),
                    ..old(self)@
                })
            },
    {
        if contains_principal(&self.owners, &owner) {
            return Err(MultisigError::Validation);
        }
        proof {
            lemma_sorted_insert(self@.owners, owner@);
            lemma_sorted_no_duplicates(sorted_insert(self@.owners, owner@));
        }
        insert_sorted(&mut self.owners, owner);
        Ok(())
    }

    /// Removes `owner`; `Validation` when it is not an owner, or when the
    /// owners left would be no more than the threshold.
    pub fn remove_owner(&mut self, owner: Principal) -> (r: Result<(), MultisigError>)
        requires
            old(self)@.wf(),
        ensures
            final(self)@.wf(),
            !old(self)@.owners.contains(owner@) || old(self)@.owners.len() <= old(self)@.threshold + 1
                ==> {
                &&& r == Err::<(), MultisigError>(MultisigError::Validation)
                &&& final(self)@ == old(self)@
            },
            old(self)@.owners.contains(owner@) && old(self)@.owners.len() > old(self)@.threshold + 1
                ==> {
                &&& r is Ok
                &&& final(self)@ == (MultisigView {
                    owners: old(self)@.owners.filter(other_than(owner@)),
                    ..old(self)@
                })
                &&& final(self)@.owner_set() == old(self)@.owner_set().remove(owner@)
            },
    {
        if !contains_principal(&self.owners, &owner) {
            return Err(MultisigError::Validation);
        }
        if self.owners.len() <= self.threshold as usize + 1 {
            return Err(MultisigError::Validation);
        }
        let ghost old_owners = principal_views(self.owners@);
        let ghost pred = other_than(owner@);
        let mut kept: Vec<Principal> = Vec::new();
        let mut k: usize = 0;
        assert(principal_views(kept@) =~= Seq::<Seq<u8>>::empty());
        assert(old_owners.take(0) =~= Seq::<Seq<u8>>::empty());
        while k < self.owners.len()
            invariant
                k <= self.owners@.len(),
                old_owners == principal_views(self.owners@),
                pred == other_than(owner@),
                principal_views(kept@) == old_owners.take(k as int).filter(pred),
            decreases self.owners@.len() - k,
        {
            let ghost before = principal_views(kept@);
            proof {
                assert(old_owners.take(k + 1) =~= old_owners.take(k as int).push(old_owners[k as int]));
                old_owners.take(k as int).lemma_filter_push(old_owners[k as int], pred);
            }
            if !self.owners[k].same(&owner) {
                kept.push(self.owners[k].duplicate());
                assert(principal_views(kept@) =~= before.push(old_owners[k as int]));
            }
            k = k + 1;
        }
        assert(old_owners.take(k as int) =~= old_owners);
        proof {
            let f = old_owners.filter(pred);
            lemma_filter_sorted(old_owners, pred);
            lemma_sorted_no_duplicates(f);
            assert(f.to_set() =~= old_owners.to_set().remove(owner@)) by {
                assert forall|o: Seq<u8>| f.to_set().contains(o) <==> old_owners.to_set().remove(owner@).contains(o) by {
                    if old_owners.contains(o) && o != owner@ {
                        let j = choose|j: int| 0 <= j < old_owners.len() && old_owners[j] == o;
                        old_owners.lemma_filter_contains(pred, j);
                    }
                    if f.contains(o) {
                        old_owners.lemma_filter_contains_rev(pred, o);
                        let j = choose|j: int| 0 <= j < f.len() && f[j] == o;
                        old_owners.lemma_filter_pred(pred, j);
                    }
                }
            }
            old_owners.unique_seq_to_set();
            f.unique_seq_to_set();
        }
        self.owners = kept;
        Ok(())
    }

    /// Sets the threshold; `Validation` when it is zero or above the number
    /// of owners.
    pub fn set_threshold(&mut self, new_threshold: u8) -> (r: Result<(), MultisigError>)
        requires
            old(self)@.wf(),
        ensures
            final(self)@.wf(),
            new_threshold == 0 || new_threshold > old(self)@.owners.len() ==> {
                &&& r == Err::<(), MultisigError>(MultisigError::Validation)
                &&& final(self)@ == old(self)@
            },
            0 < new_threshold <= old(self)@.owners.len() ==> {
                &&& r is Ok
                &&& final(self)@ == (MultisigView { threshold: new_threshold, ..old(self)@ })
            },
    {
        if new_threshold == 0 || new_threshold as usize > self.owners.len() {
            return Err(MultisigError::Validation);
        }
        self.threshold = new_threshold;
        Ok(())
    }
}

/// Filtering a sorted list keeps it sorted.
proof fn lemma_filter_sorted(s: Seq<Seq<u8>>, pred: spec_fn(Seq<u8>) -> bool)
    requires
        sorted_principals(s),
    ensures
        sorted_principals(s.filter(pred)),
    decreases s.len(),
{
    reveal(Seq::filter);
    if s.len() > 0 {
        let s2 = s.drop_last();
        let f2 = s2.filter(pred);
        let x = s.last();
        assert(sorted_principals(s2));
        lemma_filter_sorted(s2, pred);
        if pred(x) {
            assert(s.filter(pred) == f2.push(x));
            let f = f2.push(x);
            assert forall|i: int, j: int| 0 <= i < j < f.len() implies principal_lt(#[trigger] f[i], #[trigger] f[j]) by {
                if j == f2.len() {
                    s2.lemma_filter_contains_rev(pred, f2[i]);
                    let m = choose|m: int| 0 <= m < s2.len() && s2[m] == f2[i];
                    assert(s[m] == f2[i]);
                } else {
                    assert(f[i] == f2[i] && f[j] == f2[j]);
                }
            }
        } else {
            assert(s.filter(pred) == f2);
        }
    }
}

impl<T: Codec> Codec for Proposal<T> {
    open spec fn valid(v: ProposalView<T::V>) -> bool {
        &&& T::valid(v.payload)
        &&& all_valid::<Principal>(v.approvals)
        &&& v.approvals.len() <= u64::MAX
    }

    /// The id, the payload, the approvals, then a byte for `executed`.
    open spec fn encoding(v: ProposalView<T::V>) -> Seq<u8> {
        spec_u64_to_le_bytes(v.id) + T::encoding(v.payload) + encode_seq::<Principal>(v.approvals)
            + seq![if v.executed { 1u8 } else { 0u8 }]
    }

    open spec fn parse(b: Seq<u8>) -> Option<(ProposalView<T::V>, nat)> {
        match parse_u64(b) {
            Some(id) => match T::parse(b.skip(8)) {
                Some((payload, k1)) => match parse_seq::<Principal>(b.skip(8 + k1 as int)) {
                    Some((approvals, k2)) => {
                        let p = (8 + k1 + k2) as int;
                        if p < b.len() && b[p] <= 1 {
                            Some(
                                (
                                    ProposalView { id, payload, approvals, executed: b[p] == 1 },
                                    (p + 1) as nat,
                                ),
                            )
                        } else {
                            None
                        }
                    },
                    None => None,
                },
                None => None,
            },
            None => None,
        }
    }

    proof fn lemma_parse_encoding(v: ProposalView<T::V>, rest: Seq<u8>) {
        let e = seq![if v.executed { 1u8 } else { 0u8 }];
        let r2 = encode_seq::<Principal>(v.approvals) + (e + rest);
        let r1 = T::encoding(v.payload) + r2;
        let b = Self::encoding(v) + rest;
        assert(b =~= spec_u64_to_le_bytes(v.id) + r1);
        lemma_parse_u64(v.id, r1);
        T::lemma_parse_encoding(v.payload, r2);
        let k1 = T::encoding(v.payload).len();
        assert(b.skip(8 + k1 as int) =~= r2);
        lemma_parse_seq::<Principal>(v.approvals, e + rest);
        let p = (8 + k1 + encode_seq::<Principal>(v.approvals).len()) as int;
        assert(b[p] == e[0]);
    }

    proof fn lemma_parse_sound(b: Seq<u8>) {
        lemma_parse_u64_sound(b);
        if let Some(id) = parse_u64(b) {
            T::lemma_parse_sound(b.skip(8));
            if let Some((payload, k1)) = T::parse(b.skip(8)) {
                lemma_parse_seq_sound::<Principal>(b.skip(8 + k1 as int));
                if let Some((approvals, k2)) = parse_seq::<Principal>(b.skip(8 + k1 as int)) {
                    let p = (8 + k1 + k2) as int;
                    if p < b.len() && b[p] <= 1 {
                        assert(b.take(p + 1) =~= b.take(8) + b.skip(8).take(k1 as int) + b.skip(
                            8 + k1 as int,
                        ).take(k2 as int) + seq![b[p]]);
                        assert(seq![b[p]] =~= seq![if b[p] == 1 { 1u8 } else { 0u8 }]);
                    }
                }
            }
        }
    }

    fn encode_into(&self, out: &mut Vec<u8>) {
        let id = u64_to_le_bytes(self.id);
        push_bytes(out, id.as_slice());
        self.payload.encode_into(out);
        encode_vec(&self.approvals, out);
        out.push(if self.executed { 1u8 } else { 0u8 });
        assert(out@ =~= old(out)@ + Self::encoding(self@));
    }

    #[verifier::rlimit(50)]
    fn decode_at(b: &[u8], pos: usize) -> (r: Option<(Proposal<T>, usize)>) {
        let ghost bs = b@.skip(pos as int);
        let id = match read_u64(b, pos) {
            Some(id) => id,
            None => return None,
        };
        assert(bs.skip(8) =~= b@.skip(pos + 8));
        let (payload, e1) = match T::decode_at(b, pos + 8) {
            Some(x) => x,
            None => return None,
        };
        assert(bs.skip(e1 - pos) =~= b@.skip(e1 as int));
        let (approvals, e2) = match decode_vec::<Principal>(b, e1) {
            Some(x) => x,
            None => return None,
        };
        if e2 >= b.len() || b[e2] > 1 {
            return None;
        }
        let executed = b[e2] == 1;
        let r = Proposal { id, payload, approvals, executed };
        proof {
            let k1 = (e1 - pos - 8) as nat;
            assert(T::parse(bs.skip(8)) == Some((payload@, k1)));
            assert(bs.skip(8 + k1 as int) =~= b@.skip(e1 as int));
            let k2 = (e2 - e1) as nat;
            assert(parse_seq::<Principal>(bs.skip(8 + k1 as int)) == Some((views(approvals@), k2)));
            assert(bs[(8 + k1 + k2) as int] == b@[e2 as int]);
        }
        Some((r, e2 + 1))
    }

    fn duplicate(&self) -> (r: Proposal<T>) {
        Proposal {
            id: self.id,
            payload: self.payload.duplicate(),
            approvals: duplicate_vec(&self.approvals),
            executed: self.executed,
        }
    }
}

/// Every part of the state can be encoded.
pub open spec fn state_valid<T: Codec>(v: MultisigView<T::V>) -> bool {
    &&& all_valid::<Principal>(v.owners)
    &&& v.owners.len() <= u64::MAX
    &&& all_valid::<Proposal<T>>(v.proposals)
    &&& v.proposals.len() <= u64::MAX
}

/// The bytes of a whole committee state: owners, threshold, next id, proposals.
pub open spec fn encode_state<T: Codec>(v: MultisigView<T::V>) -> Seq<u8> {
    encode_seq::<Principal>(v.owners) + seq![v.threshold] + spec_u64_to_le_bytes(v.next_id)
        + encode_seq::<Proposal<T>>(v.proposals)
}

/// Reads a whole committee state; the bytes must hold exactly one.
pub open spec fn parse_state<T: Codec>(b: Seq<u8>) -> Option<MultisigView<T::V>> {
    match parse_seq::<Principal>(b) {
        Some((owners, k1)) => if k1 < b.len() {
            match parse_u64(b.skip(k1 + 1 as int)) {
                Some(next_id) => match parse_seq::<Proposal<T>>(b.skip(k1 + 9 as int)) {
                    Some((proposals, k3)) => if k1 + 9 + k3 == b.len() {
                        Some(MultisigView { owners, threshold: b[k1 as int], next_id, proposals })
                    } else {
                        None
                    },
                    None => None,
                },
                None => None,
            }
        } else {
            None
        },
        None => None,
    }
}

/// Decoding the encoding of a well-formed state gives that state back,
/// field for field.
pub proof fn lemma_state_round_trip<T: Codec>(v: MultisigView<T::V>)
    requires
        v.wf(),
        state_valid::<T>(v),
    ensures
        parse_state::<T>(encode_state::<T>(v)) == Some(v),
{
    let ps = encode_seq::<Proposal<T>>(v.proposals);
    let r2 = spec_u64_to_le_bytes(v.next_id) + ps;
    let r1 = seq![v.threshold] + r2;
    let b = encode_state::<T>(v);
    assert(b =~= encode_seq::<Principal>(v.owners) + r1);
    lemma_parse_seq::<Principal>(v.owners, r1);
    let k1 = encode_seq::<Principal>(v.owners).len();
    assert(b[k1 as int] == v.threshold);
    assert(b.skip(k1 + 1 as int) =~= r2);
    lemma_parse_u64(v.next_id, ps);
    assert(b.skip(k1 + 9 as int) =~= ps);
    assert(ps + Seq::<u8>::empty() =~= ps);
    lemma_parse_seq::<Proposal<T>>(v.proposals, Seq::<u8>::empty());
}

/// Whether the members of `v` are strictly increasing in principal order.
fn is_sorted(v: &Vec<Principal>) -> (r: bool)
    ensures
        r == sorted_principals(principal_views(v@)),
        r ==> principal_views(v@).no_duplicates(),
{
    let ghost s = principal_views(v@);
    let mut i: usize = 1;
    if v.len() == 0 {
        return true;
    }
    while i < v.len()
        invariant
            1 <= i <= v@.len(),
            s == principal_views(v@),
            forall|a: int, b: int| 0 <= a < b < i ==> principal_lt(#[trigger] s[a], #[trigger] s[b]),
        decreases v@.len() - i,
    {
        if !principal_less(&v[i - 1], &v[i]) {
            assert(!sorted_principals(s)) by {
                assert(!principal_lt(s[i - 1], s[i as int]));
            }
            return false;
        }
        assert forall|a: int, b: int| 0 <= a < b < i + 1 implies principal_lt(#[trigger] s[a], #[trigger] s[b]) by {
            if b == i && a < i - 1 {
                lemma_principal_order(s[a], s[i - 1], s[b]);
            }
        }
        i = i + 1;
    }
    proof {
        lemma_sorted_no_duplicates(s);
    }
    true
}

impl<T: Codec> Multisig<T> {
    /// Whether the state meets the committee invariants.
    fn check_wf(&self) -> (r: bool)
        ensures
            r == self@.wf(),
    {
        if !is_sorted(&self.owners) {
            return false;
        }
        if self.threshold == 0 || self.threshold as usize > self.owners.len() {
            return false;
        }
        let ghost ps = self@.proposals;
        let mut k: usize = 0;
        while k < self.proposals.len()
            invariant
                k <= ps.len(),
                ps == self@.proposals,
                forall|i: int| 0 <= i < k ==> {
                    &&& (#[trigger] ps[i]).id < self@.next_id
                    &&& ps[i].approvals.no_duplicates()
                    &&& sorted_principals(ps[i].approvals)
                },
                forall|i: int, j: int| 0 <= i < j < k ==> (#[trigger] ps[i]).id < (#[trigger] ps[j]).id,
            decreases ps.len() - k,
        {
            let p = &self.proposals[k];
            if p.id >= self.next_id || !is_sorted(&p.approvals) {
                assert(!self@.wf()) by {
                    assert(ps[k as int] == p@);
                }
                return false;
            }
            if k > 0 && self.proposals[k - 1].id >= p.id {
                assert(!self@.wf()) by {
                    assert(ps[k - 1].id >= ps[k as int].id);
                }
                return false;
            }
            assert(ps[k as int] == p@);
            assert forall|i: int, j: int| 0 <= i < j < k + 1 implies (#[trigger] ps[i]).id < (
            #[trigger] ps[j]).id by {
                if j == k && i < k - 1 {
                    assert(ps[i].id < ps[k - 1].id);
                }
            }
            k = k + 1;
        }
        true
    }

    /// The encoding of the whole state.
    pub fn to_bytes(&self) -> (r: Result<Vec<u8>, MultisigError>)
        ensures
            state_valid::<T>(self@),
            r matches Ok(b) && b@ == encode_state::<T>(self@),
    {
        let mut out: Vec<u8> = Vec::new();
        encode_vec(&self.owners, &mut out);
        out.push(self.threshold);
        let next = u64_to_le_bytes(self.next_id);
        push_bytes(&mut out, next.as_slice());
        encode_vec(&self.proposals, &mut out);
        assert(out@ =~= encode_state::<T>(self@));
        Ok(out)
    }

    /// The state that `b` holds, without the invariant check.
    #[verifier::rlimit(100)]
    fn decode_state(b: &[u8]) -> (r: Option<Multisig<T>>)
        ensures
            match parse_state::<T>(b@) {
                Some(v) => r matches Some(m) && m@ == v,
                None => r is None,
            },
    {
        assert(b@.skip(0) =~= b@);
        let (owners, e1) = match decode_vec::<Principal>(b, 0) {
            Some(x) => x,
            None => return None,
        };
        if e1 >= b.len() {
            return None;
        }
        let threshold = b[e1];
        let next_id = match read_u64(b, e1 + 1) {
            Some(n) => n,
            None => return None,
        };
        let (proposals, e3) = match decode_vec::<Proposal<T>>(b, e1 + 9) {
            Some(x) => x,
            None => return None,
        };
        if e3 != b.len() {
            return None;
        }
        let m = Multisig { owners, threshold, next_id, proposals };
        proof {
            let k1 = e1 as nat;
            assert(parse_seq::<Principal>(b@) == Some((principal_views(m.owners@), k1)));
            assert(parse_u64(b@.skip(k1 + 1 as int)) == Some(next_id));
            assert(parse_seq::<Proposal<T>>(b@.skip(k1 + 9 as int)) == Some((views(m.proposals@), (e3 - e1 - 9) as nat)));
        }
        Some(m)
    }

    /// The state that `bytes` encode; `Decode` when they encode none, or
    /// one that breaks the committee invariants.
    pub fn from_bytes(bytes: &[u8]) -> (r: Result<Multisig<T>, MultisigError>)
        ensures
            match parse_state::<T>(bytes@) {
                Some(v) => if v.wf() {
                    r matches Ok(m) && m@ == v
                } else {
                    r == Err::<Multisig<T>, MultisigError>(MultisigError::Decode)
                },
                None => r == Err::<Multisig<T>, MultisigError>(MultisigError::Decode),
            },
    {
        match Self::decode_state(bytes) {
            Some(m) => if m.check_wf() {
                Ok(m)
            } else {
                Err(MultisigError::Decode)
            },
            None => Err(MultisigError::Decode),
        }
    }

    /// A copy of the whole state.
    pub fn snapshot(&self) -> (r: Multisig<T>)
        ensures
            r@ == self@,
    {
        Multisig {
            owners: duplicate_vec(&self.owners),
            threshold: self.threshold,
            next_id: self.next_id,
            proposals: duplicate_vec(&self.proposals),
        }
    }
}

/// Proposing hands out the current next id and raises it, keeping owners
/// and threshold: successive proposals get strictly increasing ids (from 0
/// on a fresh state, whose next id is 0).
pub proof fn lemma_proposal_ids_increase<V>(
    v: MultisigView<V>,
    a: Seq<u8>,
    x: V,
    b: Seq<u8>,
    y: V,
)
    requires
        v.wf(),
        v.owners.contains(a),
        v.owners.contains(b),
        v.next_id + 1 < u64::MAX,
    ensures
        proposed(v, a, x).wf(),
        proposed(v, a, x).owners.contains(b),
        proposed(v, a, x).next_id < u64::MAX,
        proposed(v, a, x).proposals.last().id == v.next_id,
        proposed(proposed(v, a, x), b, y).proposals.last().id == proposed(v, a, x).next_id,
        v.next_id < proposed(v, a, x).next_id,
{
    assert(seq![a].no_duplicates());
}

/// An approval keeps the committee invariants.
pub proof fn lemma_approved_wf<V>(v: MultisigView<V>, who: Seq<u8>, id: u64)
    requires
        v.wf(),
    ensures
        approved(v, who, id).wf(),
{
    if v.has(id) && !v.proposals[v.position(id)].executed {
        let k = v.position(id);
        let p = v.proposals[k];
        let q = with_approval(p, who, v.threshold);
        let w = approved(v, who, id);
        assert forall|i: int| 0 <= i < w.proposals.len() implies {
            &&& (#[trigger] w.proposals[i]).id < w.next_id
            &&& w.proposals[i].approvals.no_duplicates()
            &&& sorted_principals(w.proposals[i].approvals)
        } by {
            if i == k && !p.approvals.contains(who) {
                lemma_sorted_insert(p.approvals, who);
                lemma_sorted_no_duplicates(q.approvals);
            }
        }
    }
}

/// Approving an executed proposal changes nothing and releases nothing.
pub proof fn lemma_executed_stays<V>(v: MultisigView<V>, who: Seq<u8>, id: u64)
    requires
        v.wf(),
        v.has(id),
        v.lookup(id)->0.executed,
    ensures
        approved(v, who, id) == v,
        released(v, who, id) is None,
{
}

/// The approval that releases a payload marks its proposal executed; from
/// then on every approval of it, by any owner, changes nothing and
/// releases nothing: a payload is released at most once.
pub proof fn lemma_release_once<V>(v: MultisigView<V>, a: Seq<u8>, b: Seq<u8>, id: u64)
    requires
        v.wf(),
        v.has(id),
    ensures
        approved(v, a, id).has(id),
        released(v, a, id) is Some ==> approved(v, a, id).lookup(id)->0.executed,
        approved(v, a, id).lookup(id)->0.executed ==> {
            &&& approved(approved(v, a, id), b, id) == approved(v, a, id)
            &&& released(approved(v, a, id), b, id) is None
        },
{
    let k = v.position(id);
    let w = approved(v, a, id);
    lemma_approved_wf(v, a, id);
    assert(w.proposals[k].id == id);
    lemma_position(w, k);
    if w.lookup(id)->0.executed {
        lemma_executed_stays(w, b, id);
    }
}

/// No proposal listed as open has been executed.
pub proof fn lemma_open_not_executed<V>(v: MultisigView<V>)
    ensures
        forall|i: int| 0 <= i < v.open_proposals().len() ==> !(#[trigger] v.open_proposals()[i]).executed,
{
    assert forall|i: int| 0 <= i < v.open_proposals().len() implies !(
    #[trigger] v.open_proposals()[i]).executed by {
        v.proposals.lemma_filter_pred(not_executed(), i);
    }
}

/// No operation moves the next id back: an approval keeps it, as do the
/// owner and threshold changes (their contracts keep every other field),
/// and a proposal raises it by one. With `lemma_proposal_ids_increase`,
/// the ids handed out over any run are strictly increasing, never reused.
pub proof fn lemma_next_id_never_decreases<V>(v: MultisigView<V>, who: Seq<u8>, id: u64, x: V)
    requires
        v.next_id < u64::MAX,
    ensures
        approved(v, who, id).next_id == v.next_id,
        proposed(v, who, x).next_id == v.next_id + 1,
        forall|i: int| 0 <= i < v.proposals.len() ==> #[trigger] approved(v, who, id).proposals[i].id == v.proposals[i].id,
{
}

/// Later operations leave an executed proposal as it is: an approval
/// changes only the open proposal it names, a proposal only appends, and
/// the owner and threshold changes keep the proposals. So once a payload
/// has been released, its proposal stays executed and every later approval
/// of it releases nothing (`lemma_executed_stays`).
pub proof fn lemma_executed_proposals_stay<V>(v: MultisigView<V>, who: Seq<u8>, id: u64, x: V)
    ensures
        approved(v, who, id).proposals.len() == v.proposals.len(),
        forall|i: int|
            0 <= i < v.proposals.len() && v.proposals[i].executed ==> #[trigger] approved(
                v,
                who,
                id,
            ).proposals[i] == v.proposals[i],
        proposed(v, who, x).proposals.len() == v.proposals.len() + 1,
        forall|i: int|
            0 <= i < v.proposals.len() ==> #[trigger] proposed(v, who, x).proposals[i] == v.proposals[i],
{
}

/// The state parser accepts only encodings: bytes that parse as a state
/// are exactly that state's encoding, so decoding is the inverse of
/// encoding on both sides.
pub proof fn lemma_state_parse_sound<T: Codec>(b: Seq<u8>)
    ensures
        parse_state::<T>(b) matches Some(v) ==> encode_state::<T>(v) == b,
{
    lemma_parse_seq_sound::<Principal>(b);
    if let Some((owners, k1)) = parse_seq::<Principal>(b) {
        if k1 < b.len() {
            lemma_parse_u64_sound(b.skip(k1 + 1 as int));
            lemma_parse_seq_sound::<Proposal<T>>(b.skip(k1 + 9 as int));
            if let Some(v) = parse_state::<T>(b) {
                let k3 = (b.len() - k1 - 9) as int;
                assert(b =~= b.take(k1 as int) + seq![b[k1 as int]] + b.skip(k1 + 1 as int).take(8)
                    + b.skip(k1 + 9 as int).take(k3));
            }
        }
    }
}

} // verus!
