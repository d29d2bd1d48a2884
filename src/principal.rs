//! Committee member identities.
use crate::codec::{push_bytes, views, Codec};
use vstd::prelude::*;
use vstd::slice::*;

verus! {

/// Number of bytes in the longest principal identifier.
pub const MAX_PRINCIPAL_LEN: usize = 29;

/// An opaque identity of a committee member: up to 29 bytes, compared
/// byte for byte.
#[derive(Debug)]
pub struct Principal {
    bytes: Vec<u8>,
}

impl Principal {
    #[verifier::type_invariant]
    spec fn well_formed(&self) -> bool {
        self.bytes@.len() <= MAX_PRINCIPAL_LEN
    }
}

impl View for Principal {
    type V = Seq<u8>;

    closed spec fn view(&self) -> Seq<u8> {
        self.bytes@
    }
}

/// A byte string that can name a principal.
pub open spec fn valid_principal(p: Seq<u8>) -> bool {
    p.len() <= MAX_PRINCIPAL_LEN
}

/// The byte strings of a list of principals, in order.
pub open spec fn principal_views(v: Seq<Principal>) -> Seq<Seq<u8>> {
    views(v)
}

/// Byte-wise comparison of two byte vectors.
fn same_bytes(a: &Vec<u8>, b: &Vec<u8>) -> (r: bool)
    ensures
        r == (a@ == b@),
{
    if a.len() != b.len() {
        return false;
    }
    let mut i: usize = 0;
    while i < a.len()
        invariant
            a@.len() == b@.len(),
            i <= a@.len(),
            forall|j: int| 0 <= j < i ==> a@[j] == b@[j],
        decreases a@.len() - i,
    {
        if a[i] != b[i] {
            return false;
        }
        i = i + 1;
    }
    assert(a@ =~= b@);
    true
}

impl Principal {
    /// The principal whose identifier is `slice`.
    pub fn from_slice(slice: &[u8]) -> (r: Principal)
        requires
            slice@.len() <= MAX_PRINCIPAL_LEN,
        ensures
            r@ == slice@,
    {
        Principal { bytes: vstd::slice::slice_to_vec(slice) }
    }

    /// The identifier bytes.
    pub fn as_slice(&self) -> (r: &[u8])
        ensures
            r@ == self@,
    {
        self.bytes.as_slice()
    }

    /// Whether `self` and `other` name the same principal.
    pub fn same(&self, other: &Principal) -> (r: bool)
        ensures
            r == (self@ == other@),
    {
        same_bytes(&self.bytes, &other.bytes)
    }
}

impl Clone for Principal {
    fn clone(&self) -> (r: Principal)
        ensures
            r@ == self@,
    {
        Codec::duplicate(self)
    }
}

impl PartialEq for Principal {
    fn eq(&self, other: &Principal) -> (r: bool) {
        self.same(other)
    }
}

impl vstd::std_specs::cmp::PartialEqSpecImpl for Principal {
    open spec fn obeys_eq_spec() -> bool {
        true
    }

    open spec fn eq_spec(&self, other: &Principal) -> bool {
        self@ == other@
    }
}

impl Codec for Principal {
    open spec fn valid(v: Seq<u8>) -> bool {
        valid_principal(v)
    }

    /// A length byte, then the identifier bytes.
    open spec fn encoding(v: Seq<u8>) -> Seq<u8> {
        seq![v.len() as u8] + v
    }

    open spec fn parse(b: Seq<u8>) -> Option<(Seq<u8>, nat)> {
        if b.len() >= 1 && b[0] <= MAX_PRINCIPAL_LEN && b.len() - 1 >= b[0] {
            Some((b.subrange(1, 1 + b[0]), (1 + b[0]) as nat))
        } else {
            None
        }
    }

    proof fn lemma_parse_encoding(v: Seq<u8>, rest: Seq<u8>) {
        let b = Self::encoding(v) + rest;
        assert(b[0] == v.len() as u8);
        assert(b.subrange(1, 1 + v.len() as int) =~= v);
    }

    proof fn lemma_parse_sound(b: Seq<u8>) {
        if let Some((v, k)) = Self::parse(b) {
            assert(v.len() == b[0]);
            assert(b.take(k as int) =~= seq![b[0]] + v);
        }
    }

    fn encode_into(&self, out: &mut Vec<u8>) {
        proof {
            use_type_invariant(self);
        }
        out.push(self.bytes.len() as u8);
        push_bytes(out, self.bytes.as_slice());
        assert(out@ =~= old(out)@ + Self::encoding(self@));
    }

    fn decode_at(b: &[u8], pos: usize) -> (r: Option<(Principal, usize)>) {
        if b.len() - pos < 1 {
            return None;
        }
        let n = b[pos] as usize;
        if n > MAX_PRINCIPAL_LEN || b.len() - pos - 1 < n {
            return None;
        }
        let bytes = slice_subrange(b, pos + 1, pos + 1 + n);
        assert(bytes@ =~= b@.skip(pos as int).subrange(1, 1 + n));
        Some((Principal::from_slice(bytes), pos + 1 + n))
    }

    fn duplicate(&self) -> (r: Principal) {
        proof {
            use_type_invariant(self);
        }
        let mut bytes: Vec<u8> = Vec::new();
        let mut i: usize = 0;
        while i < self.bytes.len()
            invariant
                i <= self.bytes@.len(),
                bytes@ == self.bytes@.take(i as int),
            decreases self.bytes@.len() - i,
        {
            bytes.push(self.bytes[i]);
            i = i + 1;
            assert(bytes@ =~= self.bytes@.take(i as int));
        }
        assert(bytes@ =~= self.bytes@);
        Principal { bytes }
    }
}

/// Whether some member of `v` names the same principal as `p`.
pub fn contains_principal(v: &Vec<Principal>, p: &Principal) -> (r: bool)
    ensures
        r == principal_views(v@).contains(p@),
{
    let mut i: usize = 0;
    while i < v.len()
        invariant
            i <= v@.len(),
            forall|j: int| 0 <= j < i ==> v@[j]@ != p@,
        decreases v@.len() - i,
    {
        if v[i].same(p) {
            assert(principal_views(v@)[i as int] == p@);
            return true;
        }
        i = i + 1;
    }
    assert(!principal_views(v@).contains(p@)) by {
        if principal_views(v@).contains(p@) {
            let k = choose|k: int| 0 <= k < principal_views(v@).len() && principal_views(v@)[k] == p@;
            assert(v@[k]@ == p@);
        }
    }
    false
}

/// Lexicographic byte order; a proper prefix comes first.
pub open spec fn lex_lt(a: Seq<u8>, b: Seq<u8>) -> bool
    decreases a.len(),
{
    if a.len() == 0 {
        b.len() > 0
    } else if b.len() == 0 {
        false
    } else if a[0] != b[0] {
        a[0] < b[0]
    } else {
        lex_lt(a.drop_first(), b.drop_first())
    }
}

/// The order of principals: shorter first, then byte by byte.
pub open spec fn principal_lt(a: Seq<u8>, b: Seq<u8>) -> bool {
    a.len() < b.len() || (a.len() == b.len() && lex_lt(a, b))
}

/// Strictly increasing in principal order, hence without repeats.
pub open spec fn sorted_principals(s: Seq<Seq<u8>>) -> bool {
    forall|i: int, j: int| 0 <= i < j < s.len() ==> principal_lt(#[trigger] s[i], #[trigger] s[j])
}

proof fn lemma_lex_irreflexive(a: Seq<u8>)
    ensures
        !lex_lt(a, a),
    decreases a.len(),
{
    if a.len() > 0 {
        lemma_lex_irreflexive(a.drop_first());
    }
}

proof fn lemma_lex_transitive(a: Seq<u8>, b: Seq<u8>, c: Seq<u8>)
    requires
        lex_lt(a, b),
        lex_lt(b, c),
    ensures
        lex_lt(a, c),
    decreases a.len(),
{
    if a.len() > 0 && a[0] == b[0] && b[0] == c[0] {
        lemma_lex_transitive(a.drop_first(), b.drop_first(), c.drop_first());
    }
}

proof fn lemma_lex_total(a: Seq<u8>, b: Seq<u8>)
    requires
        a != b,
    ensures
        lex_lt(a, b) || lex_lt(b, a),
    decreases a.len(),
{
    if a.len() == 0 && b.len() == 0 {
        assert(a =~= b);
    }
    if a.len() > 0 && b.len() > 0 && a[0] == b[0] {
        if a.drop_first() == b.drop_first() {
            assert(a =~= seq![a[0]] + a.drop_first());
            assert(b =~= seq![b[0]] + b.drop_first());
        }
        lemma_lex_total(a.drop_first(), b.drop_first());
    }
}

/// The principal order is a strict total order.
pub proof fn lemma_principal_order(a: Seq<u8>, b: Seq<u8>, c: Seq<u8>)
    ensures
        !principal_lt(a, a),
        principal_lt(a, b) && principal_lt(b, c) ==> principal_lt(a, c),
        a != b ==> principal_lt(a, b) || principal_lt(b, a),
        !(principal_lt(a, b) && principal_lt(b, a)),
{
    lemma_lex_irreflexive(a);
    if principal_lt(a, b) && principal_lt(b, c) && a.len() == b.len() && b.len() == c.len() {
        lemma_lex_transitive(a, b, c);
    }
    if a != b && a.len() == b.len() {
        lemma_lex_total(a, b);
    }
    if principal_lt(a, b) && principal_lt(b, a) {
        lemma_lex_transitive(a, b, a);
    }
}

/// A sorted list of principals holds each at most once.
pub proof fn lemma_sorted_no_duplicates(s: Seq<Seq<u8>>)
    requires
        sorted_principals(s),
    ensures
        s.no_duplicates(),
{
    assert forall|i: int, j: int| 0 <= i < s.len() && 0 <= j < s.len() && i != j implies s[i] != s[j] by {
        lemma_principal_order(s[i], s[j], s[j]);
        lemma_principal_order(s[j], s[i], s[i]);
    }
}

/// Whether `a` comes before `b` in principal order.
pub fn principal_less(a: &Principal, b: &Principal) -> (r: bool)
    ensures
        r == principal_lt(a@, b@),
{
    let n = a.as_slice().len();
    if n != b.as_slice().len() {
        return n < b.as_slice().len();
    }
    let x = a.as_slice();
    let y = b.as_slice();
    let mut i: usize = 0;
    assert(x@.skip(0) =~= x@ && y@.skip(0) =~= y@);
    while i < n
        invariant
            x@ == a@,
            y@ == b@,
            n == x@.len(),
            n == y@.len(),
            i <= n,
            lex_lt(a@, b@) == lex_lt(x@.skip(i as int), y@.skip(i as int)),
        decreases n - i,
    {
        if x[i] != y[i] {
            return x[i] < y[i];
        }
        assert(x@.skip(i as int).drop_first() =~= x@.skip(i + 1));
        assert(y@.skip(i as int).drop_first() =~= y@.skip(i + 1));
        i = i + 1;
    }
    false
}

/// Whether `k` is where `x` goes in the sorted `s`.
pub open spec fn is_insert_position(s: Seq<Seq<u8>>, x: Seq<u8>, k: int) -> bool {
    &&& 0 <= k <= s.len()
    &&& forall|i: int| 0 <= i < k ==> principal_lt(#[trigger] s[i], x)
    &&& forall|i: int| k <= i < s.len() ==> principal_lt(x, #[trigger] s[i])
}

/// `s` with `x` put in its place in principal order.
pub open spec fn sorted_insert(s: Seq<Seq<u8>>, x: Seq<u8>) -> Seq<Seq<u8>> {
    s.insert(choose|k: int| is_insert_position(s, x, k), x)
}

/// Inserting into a sorted list keeps it sorted and adds `x` to its set.
pub proof fn lemma_sorted_insert(s: Seq<Seq<u8>>, x: Seq<u8>)
    requires
        sorted_principals(s),
        !s.contains(x),
    ensures
        sorted_principals(sorted_insert(s, x)),
        sorted_insert(s, x).to_set() == s.to_set().insert(x),
        sorted_insert(s, x).len() == s.len() + 1,
{
    let k = insert_position_of(s, x);
    let t = sorted_insert(s, x);
    assert(t == s.insert(k, x));
    assert forall|i: int, j: int| 0 <= i < j < t.len() implies principal_lt(#[trigger] t[i], #[trigger] t[j]) by {
        if j < k {
            assert(t[i] == s[i] && t[j] == s[j]);
        } else if j == k {
            assert(t[i] == s[i]);
        } else if i == k {
            assert(t[j] == s[j - 1]);
        } else if i < k {
            assert(t[i] == s[i] && t[j] == s[j - 1]);
        } else {
            assert(t[i] == s[i - 1] && t[j] == s[j - 1]);
        }
    }
    assert forall|y: Seq<u8>| t.to_set().contains(y) <==> s.to_set().insert(x).contains(y) by {
        if t.contains(y) {
            let i = choose|i: int| 0 <= i < t.len() && t[i] == y;
            if i < k {
                assert(s[i] == y);
            } else if i > k {
                assert(s[i - 1] == y);
            }
        }
        if s.contains(y) {
            let i = choose|i: int| 0 <= i < s.len() && s[i] == y;
            if i < k {
                assert(t[i] == y);
            } else {
                assert(t[i + 1] == y);
            }
        }
        if y == x {
            assert(t[k] == x);
        }
    }
    assert(t.to_set() =~= s.to_set().insert(x));
}

/// The place of `x` in the sorted `s` that holds no `x`: there is exactly one.
pub proof fn insert_position_of(s: Seq<Seq<u8>>, x: Seq<u8>) -> (k: int)
    requires
        sorted_principals(s),
        !s.contains(x),
    ensures
        is_insert_position(s, x, k),
        (choose|j: int| is_insert_position(s, x, j)) == k,
{
    let w = choose_position(s, x, 0);
    let c = choose|j: int| is_insert_position(s, x, j);
    assert(is_insert_position(s, x, c));
    if c < w {
        lemma_principal_order(s[c], x, s[c]);
    } else if c > w {
        lemma_principal_order(s[w], x, s[w]);
    }
    w
}

/// The first position from `k` on whose principal does not come before `x`.
proof fn choose_position(s: Seq<Seq<u8>>, x: Seq<u8>, k: int) -> (w: int)
    requires
        sorted_principals(s),
        !s.contains(x),
        0 <= k <= s.len(),
        forall|i: int| 0 <= i < k ==> principal_lt(#[trigger] s[i], x),
    ensures
        is_insert_position(s, x, w),
    decreases s.len() - k,
{
    if k < s.len() && principal_lt(s[k], x) {
        choose_position(s, x, k + 1)
    } else {
        assert forall|i: int| k <= i < s.len() implies principal_lt(x, #[trigger] s[i]) by {
            assert(s[k] != x);
            lemma_principal_order(x, s[k], s[i]);
            lemma_principal_order(s[k], x, x);
        }
        k
    }
}

/// Puts `p` in its place in the sorted `v`.
pub fn insert_sorted(v: &mut Vec<Principal>, p: Principal)
    requires
        sorted_principals(principal_views(old(v)@)),
        !principal_views(old(v)@).contains(p@),
    ensures
        principal_views(final(v)@) == sorted_insert(principal_views(old(v)@), p@),
{
    let ghost s = principal_views(v@);
    let ghost x = p@;
    let mut k: usize = 0;
    while k < v.len() && principal_less(&v[k], &p)
        invariant
            s == principal_views(v@),
            x == p@,
            k <= v@.len(),
            forall|i: int| 0 <= i < k ==> principal_lt(#[trigger] s[i], x),
        decreases v@.len() - k,
    {
        k = k + 1;
    }
    proof {
        let w = insert_position_of(s, x);
        if (k as int) < w {
            assert(principal_lt(s[k as int], x));
        } else if (k as int) > w {
            lemma_principal_order(s[w], x, s[w]);
        }
    }
    v.insert(k, p);
    assert(principal_views(v@) =~= s.insert(k as int, x));
}

} // verus!
