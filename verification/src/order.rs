//! The order of keys: byte strings compared lexicographically, and the
//! half-open key ranges that leaf pages and inner nodes are responsible for.
use vstd::prelude::*;

verus! {

/// `a` comes strictly before `b` in lexicographic byte order.
pub open spec fn lex_lt(a: Seq<u8>, b: Seq<u8>) -> bool
    decreases a.len(),
{
    if b.len() == 0 {
        false
    } else if a.len() == 0 {
        true
    } else if a[0] != b[0] {
        a[0] < b[0]
    } else {
        lex_lt(a.skip(1), b.skip(1))
    }
}

/// `a` comes before `b` or is `b`.
pub open spec fn lex_le(a: Seq<u8>, b: Seq<u8>) -> bool {
    a == b || lex_lt(a, b)
}

/// No key comes before itself.
pub proof fn lemma_lex_irreflexive(a: Seq<u8>)
    ensures
        !lex_lt(a, a),
    decreases a.len(),
{
    if a.len() > 0 {
        lemma_lex_irreflexive(a.skip(1));
    }
}

/// The order is transitive.
pub proof fn lemma_lex_transitive(a: Seq<u8>, b: Seq<u8>, c: Seq<u8>)
    requires
        lex_lt(a, b),
        lex_lt(b, c),
    ensures
        lex_lt(a, c),
    decreases a.len(),
{
    if a.len() > 0 {
        if a[0] == b[0] && b[0] == c[0] {
            lemma_lex_transitive(a.skip(1), b.skip(1), c.skip(1));
        }
    }
}

/// Any two keys are equal or one comes before the other.
pub proof fn lemma_lex_total(a: Seq<u8>, b: Seq<u8>)
    ensures
        a == b || lex_lt(a, b) || lex_lt(b, a),
    decreases a.len(),
{
    if a.len() > 0 && b.len() > 0 && a[0] == b[0] {
        lemma_lex_total(a.skip(1), b.skip(1));
        if a.skip(1) == b.skip(1) {
            assert(a =~= seq![a[0]] + a.skip(1));
            assert(b =~= seq![b[0]] + b.skip(1));
        }
    } else if a.len() == 0 && b.len() == 0 {
        assert(a =~= b);
    }
}

/// All order facts at once, for use inside one proof.
pub proof fn lemma_lex_order()
    ensures
        forall|a: Seq<u8>| !#[trigger] lex_lt(a, a),
        forall|a: Seq<u8>, b: Seq<u8>, c: Seq<u8>|
            #[trigger] lex_lt(a, b) && #[trigger] lex_lt(b, c) ==> lex_lt(a, c),
        forall|a: Seq<u8>, b: Seq<u8>| #[trigger]
            lex_lt(a, b) ==> a != b && !lex_lt(b, a),
        forall|a: Seq<u8>, b: Seq<u8>| !#[trigger] lex_lt(a, b) ==> a == b || lex_lt(b, a),
{
    assert forall|a: Seq<u8>| !#[trigger] lex_lt(a, a) by {
        lemma_lex_irreflexive(a);
    }
    assert forall|a: Seq<u8>, b: Seq<u8>, c: Seq<u8>| #[trigger]
        lex_lt(a, b) && #[trigger] lex_lt(b, c) implies lex_lt(a, c) by {
        lemma_lex_transitive(a, b, c);
    }
    assert forall|a: Seq<u8>, b: Seq<u8>| #[trigger]
        lex_lt(a, b) implies a != b && !lex_lt(b, a) by {
        if lex_lt(b, a) {
            lemma_lex_transitive(a, b, a);
        }
    }
    assert forall|a: Seq<u8>, b: Seq<u8>| !#[trigger] lex_lt(a, b) implies a == b || lex_lt(
        b,
        a,
    ) by {
        lemma_lex_total(a, b);
    }
}

/// The empty key is the least key.
pub proof fn lemma_lex_empty_least(a: Seq<u8>)
    ensures
        lex_le(Seq::empty(), a),
        !lex_lt(a, Seq::empty()),
{
    if a.len() == 0 {
        assert(a =~= Seq::<u8>::empty());
    }
}

/// Decides whether `a` comes strictly before `b`.
pub fn key_lt(a: &[u8], b: &[u8]) -> (r: bool)
    ensures
        r == lex_lt(a@, b@),
{
    let mut i: usize = 0;
    assert(a@.skip(0) =~= a@);
    assert(b@.skip(0) =~= b@);
    while i < a.len() && i < b.len()
        invariant
            i <= a@.len(),
            i <= b@.len(),
            lex_lt(a@, b@) == lex_lt(a@.skip(i as int), b@.skip(i as int)),
        decreases a@.len() - i,
    {
        if a[i] != b[i] {
            return a[i] < b[i];
        }
        assert(a@.skip(i as int).skip(1) =~= a@.skip(i + 1));
        assert(b@.skip(i as int).skip(1) =~= b@.skip(i + 1));
        i += 1;
    }
    i < b.len()
}

/// Decides whether two keys are the same.
pub fn key_eq(a: &[u8], b: &[u8]) -> (r: bool)
    ensures
        r == (a@ == b@),
{
    if a.len() != b.len() {
        return false;
    }
    let mut i: usize = 0;
    while i < a.len()
        invariant
            i <= a@.len(),
            a@.len() == b@.len(),
            forall|j: int| 0 <= j < i ==> a@[j] == b@[j],
        decreases a@.len() - i,
    {
        if a[i] != b[i] {
            return false;
        }
        i += 1;
    }
    assert(a@ =~= b@);
    true
}

/// Copies a byte slice into a vector.
pub fn to_vec(a: &[u8]) -> (r: Vec<u8>)
    ensures
        r@ == a@,
{
    let mut r: Vec<u8> = Vec::with_capacity(a.len());
    r.extend_from_slice(a);
    assert(r@ =~= a@);
    r
}

/// The keys from `lo` (included) up to `hi` (excluded; no bound when `None`).
#[verifier::ext_equal]
pub struct KeyRange {
    pub lo: Seq<u8>,
    pub hi: Option<Seq<u8>>,
}

impl KeyRange {
    pub open spec fn full() -> KeyRange {
        KeyRange { lo: Seq::empty(), hi: None }
    }

    /// A range that holds no key.
    pub open spec fn nothing() -> KeyRange {
        KeyRange { lo: Seq::empty(), hi: Some(Seq::empty()) }
    }

    pub open spec fn contains(self, k: Seq<u8>) -> bool {
        &&& lex_le(self.lo, k)
        &&& self.hi matches Some(h) ==> lex_lt(k, h)
    }

    /// `k` lies strictly inside: both halves of a cut at `k` are non-empty.
    pub open spec fn cuts(self, k: Seq<u8>) -> bool {
        &&& lex_lt(self.lo, k)
        &&& self.hi matches Some(h) ==> lex_lt(k, h)
    }

    pub open spec fn below(self, k: Seq<u8>) -> KeyRange {
        KeyRange { lo: self.lo, hi: Some(k) }
    }

    pub open spec fn from(self, k: Seq<u8>) -> KeyRange {
        KeyRange { lo: k, hi: self.hi }
    }

    /// The upper bound as a page stores it: the empty key stands for no bound.
    pub open spec fn high_fence(self) -> Seq<u8> {
        match self.hi {
            Some(h) => h,
            None => Seq::empty(),
        }
    }
}

} // verus!
