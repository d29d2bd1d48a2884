//! The administrative actions that a committee can authorize: replacing a
//! configuration, adding or removing an owner, changing the threshold.
use crate::codec::{
    lemma_parse_seq_sound,
    all_valid, decode_vec, duplicate_vec, encode_seq, encode_vec, lemma_parse_seq, parse_seq, views,
    Codec,
};
use crate::multisig::{Multisig, MultisigError, MultisigView};
use crate::principal::{principal_views, Principal};
use vstd::prelude::*;

verus! {

/// A system configuration that the committee governs.
#[derive(Debug)]
pub struct Config {
    pub max_payload_size: u32,
    pub allowed_origins: Vec<String>,
    pub admin_fee: u64,
}

/// Runs `f` on `config` and hands back what it returns: `f` starts from
/// the config as it was, and leaves the config as it is afterwards.
pub fn with_config<R, F: FnOnce(&mut Config) -> R>(config: &mut Config, f: F) -> (r: R)
    requires
        forall|c: &mut Config| #[trigger] f.requires((c,)),
    ensures
        exists|c: &mut Config|
            *c == *old(config) && *final(c) == *final(config) && #[trigger] f.ensures((c,), r),
{
    f(config)
}

/// The model of a configuration.
pub struct ConfigView {
    pub max_payload_size: u32,
    pub allowed_origins: Seq<Seq<char>>,
    pub admin_fee: u64,
}

impl View for Config {
    type V = ConfigView;

    open spec fn view(&self) -> ConfigView {
        ConfigView {
            max_payload_size: self.max_payload_size,
            allowed_origins: views(self.allowed_origins@),
            admin_fee: self.admin_fee,
        }
    }
}

impl Codec for Config {
    open spec fn valid(v: ConfigView) -> bool {
        all_valid::<String>(v.allowed_origins) && v.allowed_origins.len() <= u64::MAX
    }

    /// The payload size bound, the origins, then the fee.
    open spec fn encoding(v: ConfigView) -> Seq<u8> {
        <u32 as Codec>::encoding(v.max_payload_size) + encode_seq::<String>(v.allowed_origins)
            + <u64 as Codec>::encoding(v.admin_fee)
    }

    open spec fn parse(b: Seq<u8>) -> Option<(ConfigView, nat)> {
        match <u32 as Codec>::parse(b) {
            Some((max_payload_size, k1)) => match parse_seq::<String>(b.skip(k1 as int)) {
                Some((allowed_origins, k2)) => match <u64 as Codec>::parse(b.skip((k1 + k2) as int)) {
                    Some((admin_fee, k3)) => Some(
                        (ConfigView { max_payload_size, allowed_origins, admin_fee }, k1 + k2 + k3),
                    ),
                    None => None,
                },
                None => None,
            },
            None => None,
        }
    }

    proof fn lemma_parse_encoding(v: ConfigView, rest: Seq<u8>) {
        let f = <u64 as Codec>::encoding(v.admin_fee) + rest;
        let o = encode_seq::<String>(v.allowed_origins) + f;
        let b = Self::encoding(v) + rest;
        assert(b =~= <u32 as Codec>::encoding(v.max_payload_size) + o);
        <u32 as Codec>::lemma_parse_encoding(v.max_payload_size, o);
        assert(b.skip(4) =~= o);
        lemma_parse_seq::<String>(v.allowed_origins, f);
        let k2 = encode_seq::<String>(v.allowed_origins).len();
        assert(b.skip(4 + k2 as int) =~= f);
        <u64 as Codec>::lemma_parse_encoding(v.admin_fee, rest);
    }

    proof fn lemma_parse_sound(b: Seq<u8>) {
        <u32 as Codec>::lemma_parse_sound(b);
        if let Some((m, k1)) = <u32 as Codec>::parse(b) {
            lemma_parse_seq_sound::<String>(b.skip(k1 as int));
            if let Some((o, k2)) = parse_seq::<String>(b.skip(k1 as int)) {
                <u64 as Codec>::lemma_parse_sound(b.skip((k1 + k2) as int));
                if let Some((f, k3)) = <u64 as Codec>::parse(b.skip((k1 + k2) as int)) {
                    assert(b.take((k1 + k2 + k3) as int) =~= b.take(k1 as int) + b.skip(k1 as int).take(
                        k2 as int,
                    ) + b.skip((k1 + k2) as int).take(k3 as int));
                }
            }
        }
    }

    fn encode_into(&self, out: &mut Vec<u8>) {
        self.max_payload_size.encode_into(out);
        encode_vec(&self.allowed_origins, out);
        self.admin_fee.encode_into(out);
        assert(out@ =~= old(out)@ + Self::encoding(self@));
    }

    fn decode_at(b: &[u8], pos: usize) -> (r: Option<(Config, usize)>) {
        let ghost bs = b@.skip(pos as int);
        let (max_payload_size, e1) = match <u32 as Codec>::decode_at(b, pos) {
            Some(x) => x,
            None => return None,
        };
        assert(bs.skip(4) =~= b@.skip(e1 as int));
        let (allowed_origins, e2) = match decode_vec::<String>(b, e1) {
            Some(x) => x,
            None => return None,
        };
        assert(bs.skip(e2 - pos) =~= b@.skip(e2 as int));
        let (admin_fee, e3) = match <u64 as Codec>::decode_at(b, e2) {
            Some(x) => x,
            None => return None,
        };
        Some((Config { max_payload_size, allowed_origins, admin_fee }, e3))
    }

    fn duplicate(&self) -> (r: Config) {
        Config {
            max_payload_size: self.max_payload_size,
            allowed_origins: duplicate_vec(&self.allowed_origins),
            admin_fee: self.admin_fee,
        }
    }
}

/// An administrative action, carried as a proposal's payload.
#[derive(Debug)]
pub enum ActionPayload {
    SetConfig(Config),
    AddOwner(Principal),
    RemoveOwner(Principal),
    ChangeThreshold(u8),
}

/// The model of an administrative action.
pub enum ActionView {
    SetConfig(ConfigView),
    AddOwner(Seq<u8>),
    RemoveOwner(Seq<u8>),
    ChangeThreshold(u8),
}

impl View for ActionPayload {
    type V = ActionView;

    open spec fn view(&self) -> ActionView {
        match self {
            ActionPayload::SetConfig(c) => ActionView::SetConfig(c@),
            ActionPayload::AddOwner(p) => ActionView::AddOwner(p@),
            ActionPayload::RemoveOwner(p) => ActionView::RemoveOwner(p@),
            ActionPayload::ChangeThreshold(t) => ActionView::ChangeThreshold(*t),
        }
    }
}

impl Codec for ActionPayload {
    open spec fn valid(v: ActionView) -> bool {
        match v {
            ActionView::SetConfig(c) => Config::valid(c),
            ActionView::AddOwner(p) => Principal::valid(p),
            ActionView::RemoveOwner(p) => Principal::valid(p),
            ActionView::ChangeThreshold(_) => true,
        }
    }

    /// A tag byte, then the action's argument.
    open spec fn encoding(v: ActionView) -> Seq<u8> {
        match v {
            ActionView::SetConfig(c) => seq![0u8] + Config::encoding(c),
            ActionView::AddOwner(p) => seq![1u8] + Principal::encoding(p),
            ActionView::RemoveOwner(p) => seq![2u8] + Principal::encoding(p),
            ActionView::ChangeThreshold(t) => seq![3u8, t],
        }
    }

    open spec fn parse(b: Seq<u8>) -> Option<(ActionView, nat)> {
        if b.len() == 0 {
            None
        } else if b[0] == 0 {
            match Config::parse(b.skip(1)) {
                Some((c, k)) => Some((ActionView::SetConfig(c), k + 1)),
                None => None,
            }
        } else if b[0] == 1 {
            match Principal::parse(b.skip(1)) {
                Some((p, k)) => Some((ActionView::AddOwner(p), k + 1)),
                None => None,
            }
        } else if b[0] == 2 {
            match Principal::parse(b.skip(1)) {
                Some((p, k)) => Some((ActionView::RemoveOwner(p), k + 1)),
                None => None,
            }
        } else if b[0] == 3 && b.len() >= 2 {
            Some((ActionView::ChangeThreshold(b[1]), 2))
        } else {
            None
        }
    }

    proof fn lemma_parse_encoding(v: ActionView, rest: Seq<u8>) {
        let b = Self::encoding(v) + rest;
        match v {
            ActionView::SetConfig(c) => {
                assert(b.skip(1) =~= Config::encoding(c) + rest);
                Config::lemma_parse_encoding(c, rest);
            },
            ActionView::AddOwner(p) => {
                assert(b.skip(1) =~= Principal::encoding(p) + rest);
                Principal::lemma_parse_encoding(p, rest);
            },
            ActionView::RemoveOwner(p) => {
                assert(b.skip(1) =~= Principal::encoding(p) + rest);
                Principal::lemma_parse_encoding(p, rest);
            },
            ActionView::ChangeThreshold(t) => {},
        }
    }

    proof fn lemma_parse_sound(b: Seq<u8>) {
        if b.len() > 0 {
            Config::lemma_parse_sound(b.skip(1));
            Principal::lemma_parse_sound(b.skip(1));
            if let Some((v, k)) = Self::parse(b) {
                if b[0] == 3 {
                    assert(b.take(2) =~= seq![3u8, b[1]]);
                } else {
                    assert(b.take(k as int) =~= seq![b[0]] + b.skip(1).take(k - 1));
                }
            }
        }
    }

    fn encode_into(&self, out: &mut Vec<u8>) {
        match self {
            ActionPayload::SetConfig(c) => {
                out.push(0u8);
                c.encode_into(out);
            },
            ActionPayload::AddOwner(p) => {
                out.push(1u8);
                p.encode_into(out);
            },
            ActionPayload::RemoveOwner(p) => {
                out.push(2u8);
                p.encode_into(out);
            },
            ActionPayload::ChangeThreshold(t) => {
                out.push(3u8);
                out.push(*t);
            },
        }
        assert(out@ =~= old(out)@ + Self::encoding(self@));
    }

    fn decode_at(b: &[u8], pos: usize) -> (r: Option<(ActionPayload, usize)>) {
        if pos >= b.len() {
            return None;
        }
        let tag = b[pos];
        assert(b@.skip(pos as int).skip(1) =~= b@.skip(pos + 1));
        if tag == 0 {
            match Config::decode_at(b, pos + 1) {
                Some((c, e)) => Some((ActionPayload::SetConfig(c), e)),
                None => None,
            }
        } else if tag == 1 {
            match Principal::decode_at(b, pos + 1) {
                Some((p, e)) => Some((ActionPayload::AddOwner(p), e)),
                None => None,
            }
        } else if tag == 2 {
            match Principal::decode_at(b, pos + 1) {
                Some((p, e)) => Some((ActionPayload::RemoveOwner(p), e)),
                None => None,
            }
        } else if tag == 3 && b.len() - pos >= 2 {
            Some((ActionPayload::ChangeThreshold(b[pos + 1]), pos + 2))
        } else {
            None
        }
    }

    fn duplicate(&self) -> (r: ActionPayload) {
        match self {
            ActionPayload::SetConfig(c) => ActionPayload::SetConfig(c.duplicate()),
            ActionPayload::AddOwner(p) => ActionPayload::AddOwner(p.duplicate()),
            ActionPayload::RemoveOwner(p) => ActionPayload::RemoveOwner(p.duplicate()),
            ActionPayload::ChangeThreshold(t) => ActionPayload::ChangeThreshold(*t),
        }
    }
}

/// Carries out an approved action: replaces the configuration, or changes
/// the owners or threshold of `ms` under the rules of those operations.
pub fn execute_action<T: Codec>(ms: &mut Multisig<T>, config: &mut Config, action: ActionPayload) -> (r:
    Result<(), MultisigError>)
    requires
        old(ms)@.wf(),
    ensures
        final(ms)@.wf(),
        r is Err ==> final(ms)@ == old(ms)@ && final(config)@ == old(config)@,
        r matches Err(e) ==> e == MultisigError::Validation,
        match action@ {
            ActionView::SetConfig(c) => r is Ok && final(config)@ == c && final(ms)@ == old(ms)@,
            ActionView::AddOwner(p) => {
                &&& final(config)@ == old(config)@
                &&& r is Ok <==> !old(ms)@.owners.contains(p)
                &&& r is Ok ==> final(ms)@ == (MultisigView {
                    owners: crate::principal::sorted_insert(old(ms)@.owners, p),
                    ..old(ms)@
                })
            },
            ActionView::RemoveOwner(p) => {
                &&& final(config)@ == old(config)@
                &&& r is Ok <==> (old(ms)@.owners.contains(p) && old(ms)@.owners.len() > old(ms)@.threshold + 1)
                &&& r is Ok ==> final(ms)@ == (MultisigView {
                    owners: old(ms)@.owners.filter(crate::multisig::other_than(p)),
                    ..old(ms)@
                })
            },
            ActionView::ChangeThreshold(t) => {
                &&& final(config)@ == old(config)@
                &&& r is Ok <==> (0 < t <= old(ms)@.owners.len())
                &&& r is Ok ==> final(ms)@ == (MultisigView { threshold: t, ..old(ms)@ })
            },
        },
{
    match action {
        ActionPayload::SetConfig(c) => {
            *config = c;
            Ok(())
        },
        ActionPayload::AddOwner(p) => ms.add_owner(p),
        ActionPayload::RemoveOwner(p) => ms.remove_owner(p),
        ActionPayload::ChangeThreshold(t) => ms.set_threshold(t),
    }
}

/// A summary of a committee: its owners, threshold, and how many proposals
/// are open.
#[derive(Debug)]
pub struct MultisigInfo {
    pub owners: Vec<Principal>,
    pub threshold: u8,
    pub open_proposal_count: u64,
}

/// The summary of `ms`; the owners come in principal order.
pub fn multisig_info<T: Codec>(ms: &Multisig<T>) -> (r: MultisigInfo)
    ensures
        ms@.wf() ==> crate::principal::sorted_principals(principal_views(r.owners@)),
        principal_views(r.owners@) == ms@.owners,
        r.threshold == ms@.threshold,
        r.open_proposal_count == ms@.open_proposals().len(),
{
    let open = ms.list_open();
    MultisigInfo {
        owners: duplicate_vec(ms.get_owners()),
        threshold: ms.get_threshold(),
        open_proposal_count: open.len() as u64,
    }
}

} // verus!
