//! A deterministic byte codec: each encodable type has an encoding of its
//! model and a parser that reads that encoding back.
use vstd::bytes::*;
use vstd::prelude::*;
use vstd::slice::*;
use vstd::string::*;
use vstd::utf8::*;

verus! {

/// A type with a deterministic byte encoding of its model.
pub trait Codec: View + Sized {
    /// Models that the encoding can represent.
    spec fn valid(v: Self::V) -> bool;

    /// The bytes that stand for `v`.
    spec fn encoding(v: Self::V) -> Seq<u8>;

    /// Reads one value from the front of `b`: its model and how many bytes it took.
    spec fn parse(b: Seq<u8>) -> Option<(Self::V, nat)>;

    /// The parser reads an encoding back, whatever follows it.
    proof fn lemma_parse_encoding(v: Self::V, rest: Seq<u8>)
        requires
            Self::valid(v),
        ensures
            Self::parse(Self::encoding(v) + rest) == Some((v, Self::encoding(v).len())),
    ;

    /// The parser accepts only encodings: the bytes it took are exactly the
    /// encoding of what it read.
    proof fn lemma_parse_sound(b: Seq<u8>)
        ensures
            Self::parse(b) matches Some((v, k)) ==> k <= b.len() && b.take(k as int) == Self::encoding(v),
    ;

    /// Appends the encoding of `self` to `out`.
    fn encode_into(&self, out: &mut Vec<u8>)
        ensures
            Self::valid(self@),
            final(out)@ == old(out)@ + Self::encoding(self@),
    ;

    /// Parses a value that starts at `pos`; gives it and the position after it.
    fn decode_at(b: &[u8], pos: usize) -> (r: Option<(Self, usize)>)
        requires
            pos <= b@.len(),
        ensures
            match Self::parse(b@.skip(pos as int)) {
                Some((v, k)) => match r {
                    Some((x, e)) => x@ == v && e == pos + k && e <= b@.len(),
                    None => false,
                },
                None => r is None,
            },
    ;

    /// A copy with the same model.
    fn duplicate(&self) -> (r: Self)
        ensures
            r@ == self@,
    ;
}

/// Appends every byte of `bytes` to `out`.
pub fn push_bytes(out: &mut Vec<u8>, bytes: &[u8])
    ensures
        final(out)@ == old(out)@ + bytes@,
{
    let mut i: usize = 0;
    while i < bytes.len()
        invariant
            i <= bytes@.len(),
            out@ == old(out)@ + bytes@.take(i as int),
        decreases bytes@.len() - i,
    {
        out.push(bytes[i]);
        i = i + 1;
        assert(out@ =~= old(out)@ + bytes@.take(i as int));
    }
    assert(bytes@.take(i as int) =~= bytes@);
}

/// The eight little-endian bytes of `x` at the front of `b`, if there are eight.
pub open spec fn parse_u64(b: Seq<u8>) -> Option<u64> {
    if b.len() >= 8 {
        Some(spec_u64_from_le_bytes(b.take(8)))
    } else {
        None
    }
}

pub proof fn lemma_parse_u64(x: u64, rest: Seq<u8>)
    ensures
        spec_u64_to_le_bytes(x).len() == 8,
        parse_u64(spec_u64_to_le_bytes(x) + rest) == Some(x),
        (spec_u64_to_le_bytes(x) + rest).skip(8) == rest,
{
    lemma_auto_spec_u64_to_from_le_bytes();
    assert((spec_u64_to_le_bytes(x) + rest).take(8) =~= spec_u64_to_le_bytes(x));
    assert((spec_u64_to_le_bytes(x) + rest).skip(8) =~= rest);
}

/// What `parse_u64` reads is the value of the eight bytes it took.
pub proof fn lemma_parse_u64_sound(b: Seq<u8>)
    ensures
        parse_u64(b) matches Some(x) ==> b.len() >= 8 && b.take(8) == spec_u64_to_le_bytes(x),
{
    lemma_auto_spec_u64_to_from_le_bytes();
    if b.len() >= 8 {
        assert(spec_u64_to_le_bytes(spec_u64_from_le_bytes(b.take(8))) == b.take(8));
    }
}

/// Reads the little-endian `u64` at `pos`.
pub fn read_u64(b: &[u8], pos: usize) -> (r: Option<u64>)
    requires
        pos <= b@.len(),
    ensures
        r == parse_u64(b@.skip(pos as int)),
        r is Some ==> pos + 8 <= b@.len(),
        b@.len() <= usize::MAX,
{
    if b.len() - pos < 8 {
        return None;
    }
    let s = slice_subrange(b, pos, pos + 8);
    assert(s@ =~= b@.skip(pos as int).take(8));
    Some(u64_from_le_bytes(s))
}

impl Codec for u32 {
    open spec fn valid(v: u32) -> bool {
        true
    }

    open spec fn encoding(v: u32) -> Seq<u8> {
        spec_u32_to_le_bytes(v)
    }

    open spec fn parse(b: Seq<u8>) -> Option<(u32, nat)> {
        if b.len() >= 4 {
            Some((spec_u32_from_le_bytes(b.take(4)), 4))
        } else {
            None
        }
    }

    proof fn lemma_parse_encoding(v: u32, rest: Seq<u8>) {
        lemma_auto_spec_u32_to_from_le_bytes();
        assert((spec_u32_to_le_bytes(v) + rest).take(4) =~= spec_u32_to_le_bytes(v));
    }

    proof fn lemma_parse_sound(b: Seq<u8>) {
        lemma_auto_spec_u32_to_from_le_bytes();
        if b.len() >= 4 {
            assert(spec_u32_to_le_bytes(spec_u32_from_le_bytes(b.take(4))) == b.take(4));
        }
    }

    fn encode_into(&self, out: &mut Vec<u8>) {
        let bytes = u32_to_le_bytes(*self);
        push_bytes(out, bytes.as_slice());
    }

    fn decode_at(b: &[u8], pos: usize) -> (r: Option<(u32, usize)>) {
        if b.len() - pos < 4 {
            return None;
        }
        let s = slice_subrange(b, pos, pos + 4);
        assert(s@ =~= b@.skip(pos as int).take(4));
        Some((u32_from_le_bytes(s), pos + 4))
    }

    fn duplicate(&self) -> (r: u32) {
        *self
    }
}

impl Codec for u64 {
    open spec fn valid(v: u64) -> bool {
        true
    }

    open spec fn encoding(v: u64) -> Seq<u8> {
        spec_u64_to_le_bytes(v)
    }

    open spec fn parse(b: Seq<u8>) -> Option<(u64, nat)> {
        match parse_u64(b) {
            Some(x) => Some((x, 8)),
            None => None,
        }
    }

    proof fn lemma_parse_encoding(v: u64, rest: Seq<u8>) {
        lemma_parse_u64(v, rest);
    }

    proof fn lemma_parse_sound(b: Seq<u8>) {
        lemma_parse_u64_sound(b);
    }

    fn encode_into(&self, out: &mut Vec<u8>) {
        let bytes = u64_to_le_bytes(*self);
        push_bytes(out, bytes.as_slice());
    }

    fn decode_at(b: &[u8], pos: usize) -> (r: Option<(u64, usize)>) {
        match read_u64(b, pos) {
            Some(x) => Some((x, pos + 8)),
            None => None,
        }
    }

    fn duplicate(&self) -> (r: u64) {
        *self
    }
}

/// Relies on `String::from_utf8`: it succeeds exactly on well-formed UTF-8,
/// and the string it returns holds the characters those bytes encode.
#[verifier::external_body]
fn string_from_utf8(bytes: Vec<u8>) -> (r: Option<String>)
    ensures
        r is Some <==> valid_utf8(bytes@),
        r matches Some(s) ==> s@ == decode_utf8(bytes@),
{
    String::from_utf8(bytes).ok()
}

impl Codec for String {
    /// The UTF-8 length must fit the eight-byte length prefix.
    open spec fn valid(v: Seq<char>) -> bool {
        encode_utf8(v).len() <= u64::MAX
    }

    /// The UTF-8 length, then the UTF-8 bytes.
    open spec fn encoding(v: Seq<char>) -> Seq<u8> {
        spec_u64_to_le_bytes(encode_utf8(v).len() as u64) + encode_utf8(v)
    }

    open spec fn parse(b: Seq<u8>) -> Option<(Seq<char>, nat)> {
        match parse_u64(b) {
            Some(n) => if b.len() - 8 >= n && valid_utf8(b.subrange(8, 8 + n)) {
                Some((decode_utf8(b.subrange(8, 8 + n)), (8 + n) as nat))
            } else {
                None
            },
            None => None,
        }
    }

    proof fn lemma_parse_encoding(v: Seq<char>, rest: Seq<u8>) {
        broadcast use encode_utf8_valid_utf8, encode_utf8_decode_utf8;

        let u = encode_utf8(v);
        let n = u.len() as u64;
        lemma_parse_u64(n, u + rest);
        let b = Self::encoding(v) + rest;
        assert(b =~= spec_u64_to_le_bytes(n) + (u + rest));
        assert(b.subrange(8, 8 + n) =~= u);
    }

    proof fn lemma_parse_sound(b: Seq<u8>) {
        broadcast use decode_utf8_encode_utf8;

        lemma_parse_u64_sound(b);
        if let Some((v, k)) = Self::parse(b) {
            let n = spec_u64_from_le_bytes(b.take(8));
            let u = b.subrange(8, 8 + n);
            assert(encode_utf8(v) == u);
            assert(u.len() == n);
            assert(b.take(k as int) =~= b.take(8) + u);
        }
    }

    fn encode_into(&self, out: &mut Vec<u8>) {
        let bytes = self.as_str().as_bytes_vec();
        let len = u64_to_le_bytes(bytes.len() as u64);
        push_bytes(out, len.as_slice());
        push_bytes(out, bytes.as_slice());
        assert(out@ =~= old(out)@ + Self::encoding(self@));
    }

    fn decode_at(b: &[u8], pos: usize) -> (r: Option<(String, usize)>) {
        let n = match read_u64(b, pos) {
            Some(n) => n,
            None => return None,
        };
        let start = pos + 8;
        if ((b.len() - start) as u64) < n {
            return None;
        }
        let end = start + n as usize;
        let bytes = slice_to_vec(slice_subrange(b, start, end));
        assert(bytes@ =~= b@.skip(pos as int).subrange(8, 8 + n));
        match string_from_utf8(bytes) {
            Some(s) => Some((s, end)),
            None => None,
        }
    }

    fn duplicate(&self) -> (r: String) {
        self.clone()
    }
}

/// The models of a list of values, in order.
pub open spec fn views<E: View>(v: Seq<E>) -> Seq<E::V> {
    v.map_values(|e: E| e@)
}

/// Every model in `s` can be encoded.
pub open spec fn all_valid<E: Codec>(s: Seq<E::V>) -> bool {
    forall|i: int| 0 <= i < s.len() ==> E::valid(#[trigger] s[i])
}

/// The encodings of the items of `s`, one after another.
pub open spec fn encode_items<E: Codec>(s: Seq<E::V>) -> Seq<u8>
    decreases s.len(),
{
    if s.len() == 0 {
        Seq::empty()
    } else {
        encode_items::<E>(s.drop_last()) + E::encoding(s.last())
    }
}

/// A list: its length as eight little-endian bytes, then its items.
pub open spec fn encode_seq<E: Codec>(s: Seq<E::V>) -> Seq<u8> {
    spec_u64_to_le_bytes(s.len() as u64) + encode_items::<E>(s)
}

/// Parses `n` items one after another, the first at `start`; gives them and
/// the position after the last.
pub open spec fn parse_items<E: Codec>(b: Seq<u8>, start: int, n: nat) -> Option<(Seq<E::V>, int)>
    decreases n,
{
    if n == 0 {
        Some((Seq::empty(), start))
    } else {
        match parse_items::<E>(b, start, (n - 1) as nat) {
            Some((xs, p)) => match E::parse(b.skip(p)) {
                Some((x, k)) => Some((xs.push(x), p + k)),
                None => None,
            },
            None => None,
        }
    }
}

/// Reads a list from the front of `b`.
pub open spec fn parse_seq<E: Codec>(b: Seq<u8>) -> Option<(Seq<E::V>, nat)> {
    match parse_u64(b) {
        Some(n) => match parse_items::<E>(b, 8, n as nat) {
            Some((xs, end)) => Some((xs, end as nat)),
            None => None,
        },
        None => None,
    }
}

proof fn lemma_parse_items<E: Codec>(pre: Seq<u8>, s: Seq<E::V>, rest: Seq<u8>)
    requires
        all_valid::<E>(s),
    ensures
        parse_items::<E>(pre + encode_items::<E>(s) + rest, pre.len() as int, s.len())
            == Some((s, pre.len() + encode_items::<E>(s).len() as int)),
    decreases s.len(),
{
    if s.len() == 0 {
        assert(s =~= Seq::<E::V>::empty());
    } else {
        let s2 = s.drop_last();
        let x = s.last();
        let b = pre + encode_items::<E>(s) + rest;
        assert(b =~= pre + encode_items::<E>(s2) + (E::encoding(x) + rest));
        assert(all_valid::<E>(s2));
        lemma_parse_items::<E>(pre, s2, E::encoding(x) + rest);
        let p = pre.len() + encode_items::<E>(s2).len() as int;
        assert(b.skip(p) =~= E::encoding(x) + rest);
        assert(E::valid(s[s.len() - 1]));
        E::lemma_parse_encoding(x, rest);
        assert(s2.push(x) =~= s);
    }
}

/// The list parser reads a list encoding back, whatever follows it.
pub proof fn lemma_parse_seq<E: Codec>(s: Seq<E::V>, rest: Seq<u8>)
    requires
        all_valid::<E>(s),
        s.len() <= u64::MAX,
    ensures
        parse_seq::<E>(encode_seq::<E>(s) + rest) == Some((s, encode_seq::<E>(s).len())),
{
    let pre = spec_u64_to_le_bytes(s.len() as u64);
    lemma_parse_u64(s.len() as u64, encode_items::<E>(s) + rest);
    assert(encode_seq::<E>(s) + rest =~= pre + encode_items::<E>(s) + rest);
    assert(encode_seq::<E>(s) + rest =~= pre + (encode_items::<E>(s) + rest));
    lemma_parse_items::<E>(pre, s, rest);
}

proof fn lemma_parse_items_sound<E: Codec>(b: Seq<u8>, start: int, n: nat)
    requires
        0 <= start <= b.len(),
    ensures
        parse_items::<E>(b, start, n) matches Some((xs, end)) ==> {
            &&& start <= end <= b.len()
            &&& b.subrange(start, end) == encode_items::<E>(xs)
            &&& xs.len() == n
        },
    decreases n,
{
    if n == 0 {
        assert(b.subrange(start, start) =~= encode_items::<E>(Seq::<E::V>::empty()));
    } else {
        lemma_parse_items_sound::<E>(b, start, (n - 1) as nat);
        if let Some((xs, p)) = parse_items::<E>(b, start, (n - 1) as nat) {
            E::lemma_parse_sound(b.skip(p));
            if let Some((x, k)) = E::parse(b.skip(p)) {
                let ys = xs.push(x);
                assert(ys.drop_last() =~= xs);
                assert(b.skip(p).take(k as int) =~= b.subrange(p, p + k));
                assert(b.subrange(start, p + k) =~= b.subrange(start, p) + b.subrange(p, p + k));
            }
        }
    }
}

/// The list parser accepts only list encodings.
pub proof fn lemma_parse_seq_sound<E: Codec>(b: Seq<u8>)
    ensures
        parse_seq::<E>(b) matches Some((xs, k)) ==> k <= b.len() && b.take(k as int) == encode_seq::<E>(xs),
{
    lemma_parse_u64_sound(b);
    if let Some(n) = parse_u64(b) {
        lemma_parse_items_sound::<E>(b, 8, n as nat);
        if let Some((xs, end)) = parse_items::<E>(b, 8, n as nat) {
            assert(xs.len() as u64 == n);
            assert(b.take(end) =~= b.take(8) + b.subrange(8, end));
        }
    }
}

proof fn lemma_parse_items_fails<E: Codec>(b: Seq<u8>, start: int, m: nat, n: nat)
    requires
        m <= n,
        parse_items::<E>(b, start, m) is None,
    ensures
        parse_items::<E>(b, start, n) is None,
    decreases n,
{
    if m < n {
        lemma_parse_items_fails::<E>(b, start, m, (n - 1) as nat);
    }
}

/// Appends the encoding of the list `v` to `out`.
pub fn encode_vec<E: Codec>(v: &Vec<E>, out: &mut Vec<u8>)
    ensures
        all_valid::<E>(views(v@)),
        v@.len() <= u64::MAX,
        final(out)@ == old(out)@ + encode_seq::<E>(views(v@)),
{
    let len = u64_to_le_bytes(v.len() as u64);
    push_bytes(out, len.as_slice());
    let ghost start = out@;
    let mut i: usize = 0;
    while i < v.len()
        invariant
            i <= v@.len(),
            start == old(out)@ + spec_u64_to_le_bytes(v@.len() as u64),
            out@ == start + encode_items::<E>(views(v@).take(i as int)),
            all_valid::<E>(views(v@).take(i as int)),
        decreases v@.len() - i,
    {
        v[i].encode_into(out);
        proof {
            let t = views(v@).take(i + 1);
            assert(t.drop_last() =~= views(v@).take(i as int));
            assert(out@ =~= start + encode_items::<E>(t));
            assert(all_valid::<E>(t)) by {
                assert(forall|j: int| 0 <= j < i ==> t[j] == views(v@).take(i as int)[j]);
            }
        }
        i = i + 1;
    }
    assert(views(v@).take(i as int) =~= views(v@));
}

/// Parses a list that starts at `pos`; gives it and the position after it.
pub fn decode_vec<E: Codec>(b: &[u8], pos: usize) -> (r: Option<(Vec<E>, usize)>)
    requires
        pos <= b@.len(),
    ensures
        match parse_seq::<E>(b@.skip(pos as int)) {
            Some((xs, k)) => match r {
                Some((v, e)) => views(v@) == xs && e == pos + k && e <= b@.len(),
                None => false,
            },
            None => r is None,
        },
{
    let ghost bs = b@.skip(pos as int);
    let n = match read_u64(b, pos) {
        Some(n) => n,
        None => return None,
    };
    let mut items: Vec<E> = Vec::new();
    let mut cur: usize = pos + 8;
    let mut i: u64 = 0;
    assert(items@ =~= Seq::<E>::empty());
    assert(views(items@) =~= Seq::<E::V>::empty());
    while i < n
        invariant
            pos + 8 <= cur <= b@.len(),
            i <= n,
            bs == b@.skip(pos as int),
            parse_u64(bs) == Some(n),
            parse_items::<E>(bs, 8, i as nat) == Some((views(items@), cur - pos)),
        decreases n - i,
    {
        assert(bs.skip(cur - pos) =~= b@.skip(cur as int));
        match E::decode_at(b, cur) {
            Some((x, e)) => {
                proof {
                    let old_items = views(items@);
                    assert(views(items@.push(x)) =~= old_items.push(x@));
                }
                items.push(x);
                cur = e;
            },
            None => {
                proof {
                    lemma_parse_items_fails::<E>(bs, 8, (i + 1) as nat, n as nat);
                }
                return None;
            },
        }
        i = i + 1;
    }
    Some((items, cur))
}

/// A copy of every item of `v`, in order.
pub fn duplicate_vec<E: Codec>(v: &Vec<E>) -> (r: Vec<E>)
    ensures
        views(r@) == views(v@),
{
    let mut out: Vec<E> = Vec::new();
    let mut k: usize = 0;
    while k < v.len()
        invariant
            k <= v@.len(),
            views(out@) == views(v@).take(k as int),
        decreases v@.len() - k,
    {
        let ghost before = views(out@);
        let x = v[k].duplicate();
        out.push(x);
        assert(views(out@) =~= before.push(x@));
        assert(views(v@).take(k + 1) =~= views(v@).take(k as int).push(v@[k as int]@));
        k = k + 1;
    }
    assert(views(v@).take(k as int) =~= views(v@));
    out
}

} // verus!
