//! The order of keys: byte strings compared lexicographically.

use vstd::prelude::*;

verus! {

/// `a` comes strictly before `b`: at the first position where they differ
/// `a` holds the smaller byte, or `a` is a proper prefix of `b`.
pub open spec fn lex_lt(a: Seq<u8>, b: Seq<u8>) -> bool
    decreases a.len(),
{
    if b.len() == 0 {
        false
    } else if a.len() == 0 {
        true
    } else if a[0] != b[0] {
        a[0] < b[0]
    } else {
        lex_lt(a.skip(1), b.skip(1))
    }
}

/// `a` comes before `b` or equals it.
pub open spec fn lex_le(a: Seq<u8>, b: Seq<u8>) -> bool {
    a == b || lex_lt(a, b)
}

/// How one key stands to another.
#[derive(Clone, Copy, Debug, PartialEq, Eq, Structural)]
pub enum Rank {
    Below,
    Same,
    Above,
}

/// The rank of `a` relative to `b`.
pub open spec fn rank(a: Seq<u8>, b: Seq<u8>) -> Rank {
    if a == b {
        Rank::Same
    } else if lex_lt(a, b) {
        Rank::Below
    } else {
        Rank::Above
    }
}

/// No key comes before itself.
pub proof fn lemma_lex_irreflexive(a: Seq<u8>)
    ensures
        !lex_lt(a, a),
    decreases a.len(),
{
    if a.len() > 0 {
        lemma_lex_irreflexive(a.skip(1));
    }
}

/// The order is transitive.
pub proof fn lemma_lex_transitive(a: Seq<u8>, b: Seq<u8>, c: Seq<u8>)
    requires
        lex_lt(a, b),
        lex_lt(b, c),
    ensures
        lex_lt(a, c),
    decreases a.len(),
{
    if a.len() > 0 && a[0] == b[0] && b[0] == c[0] {
        lemma_lex_transitive(a.skip(1), b.skip(1), c.skip(1));
    }
}

/// Of two different keys exactly one comes first.
pub proof fn lemma_lex_total(a: Seq<u8>, b: Seq<u8>)
    ensures
        a == b || lex_lt(a, b) || lex_lt(b, a),
        !(lex_lt(a, b) && lex_lt(b, a)),
        lex_lt(a, b) ==> a != b,
    decreases a.len(),
{
    if a.len() > 0 && b.len() > 0 {
        lemma_lex_total(a.skip(1), b.skip(1));
        if a[0] == b[0] && a.skip(1) == b.skip(1) {
            assert(a =~= seq![a[0]] + a.skip(1));
            assert(b =~= seq![b[0]] + b.skip(1));
        }
    } else if a.len() == 0 && b.len() == 0 {
        assert(a =~= b);
    }
}

/// A common prefix does not decide the order: what follows it does.
pub proof fn lemma_lex_skip_prefix(a: Seq<u8>, b: Seq<u8>, n: int)
    requires
        0 <= n <= a.len(),
        n <= b.len(),
        a.take(n) == b.take(n),
    ensures
        lex_lt(a, b) == lex_lt(a.skip(n), b.skip(n)),
        (a == b) == (a.skip(n) == b.skip(n)),
    decreases n,
{
    if n > 0 {
        assert(a[0] == a.take(n)[0]);
        assert(b[0] == b.take(n)[0]);
        assert(a.skip(1).take(n - 1) =~= a.take(n).skip(1));
        assert(b.skip(1).take(n - 1) =~= b.take(n).skip(1));
        lemma_lex_skip_prefix(a.skip(1), b.skip(1), n - 1);
        assert(a.skip(1).skip(n - 1) =~= a.skip(n));
        assert(b.skip(1).skip(n - 1) =~= b.skip(n));
        if a.skip(n) == b.skip(n) {
            assert(a =~= a.take(n) + a.skip(n));
            assert(b =~= b.take(n) + b.skip(n));
        }
    } else {
        assert(a.skip(0) =~= a);
        assert(b.skip(0) =~= b);
    }
}

/// Compares two keys byte by byte.
pub fn rank_keys(a: &[u8], b: &[u8]) -> (r: Rank)
    ensures
        r == rank(a@, b@),
{
    let mut i: usize = 0;
    while i < a.len() && i < b.len()
        invariant
            i <= a.len(),
            i <= b.len(),
            a@.take(i as int) == b@.take(i as int),
        decreases a.len() - i,
    {
        if a[i] != b[i] {
            proof {
                lemma_lex_skip_prefix(a@, b@, i as int);
                lemma_lex_total(a@, b@);
            }
            return if a[i] < b[i] {
                Rank::Below
            } else {
                Rank::Above
            };
        }
        assert(a@.take(i + 1) =~= a@.take(i as int).push(a@[i as int]));
        assert(b@.take(i + 1) =~= b@.take(i as int).push(b@[i as int]));
        i = i + 1;
    }
    proof {
        lemma_lex_skip_prefix(a@, b@, i as int);
        lemma_lex_total(a@, b@);
        if a.len() == b.len() {
            assert(a@.skip(i as int) =~= b@.skip(i as int));
        }
    }
    if a.len() == b.len() {
        Rank::Same
    } else if a.len() < b.len() {
        Rank::Below
    } else {
        Rank::Above
    }
}

/// One end of a range of keys.
#[derive(Debug)]
pub enum KeyBound {
    /// The range reaches the key and holds it.
    Included(Vec<u8>),
    /// The range reaches the key and leaves it out.
    Excluded(Vec<u8>),
    /// The range has no end on this side.
    Unbounded,
}

/// One end of a range of keys, as a plain value.
pub enum Bound {
    Included(Seq<u8>),
    Excluded(Seq<u8>),
    Unbounded,
}

impl View for KeyBound {
    type V = Bound;

    open spec fn view(&self) -> Bound {
        match self {
            KeyBound::Included(key) => Bound::Included(key@),
            KeyBound::Excluded(key) => Bound::Excluded(key@),
            KeyBound::Unbounded => Bound::Unbounded,
        }
    }
}

/// `key` is not before the lower end `lower`.
pub open spec fn above(lower: Bound, key: Seq<u8>) -> bool {
    match lower {
        Bound::Included(b) => lex_le(b, key),
        Bound::Excluded(b) => lex_lt(b, key),
        Bound::Unbounded => true,
    }
}

/// `key` is not behind the upper end `upper`.
pub open spec fn below(upper: Bound, key: Seq<u8>) -> bool {
    match upper {
        Bound::Included(b) => lex_le(key, b),
        Bound::Excluded(b) => lex_lt(key, b),
        Bound::Unbounded => true,
    }
}

/// `key` lies in the range from `lower` to `upper`.
pub open spec fn within(lower: Bound, upper: Bound, key: Seq<u8>) -> bool {
    above(lower, key) && below(upper, key)
}

/// Tells whether `key` lies in the range from `lower` to `upper`.
pub fn key_within(lower: &KeyBound, upper: &KeyBound, key: &[u8]) -> (b: bool)
    ensures
        b == within(lower@, upper@, key@),
{
    proof {
        lemma_lex_irreflexive(key@);
    }
    let low = match lower {
        KeyBound::Included(b) => match rank_keys(b.as_slice(), key) {
            Rank::Above => false,
            _ => true,
        },
        KeyBound::Excluded(b) => match rank_keys(b.as_slice(), key) {
            Rank::Below => true,
            _ => false,
        },
        KeyBound::Unbounded => true,
    };
    let high = match upper {
        KeyBound::Included(b) => match rank_keys(key, b.as_slice()) {
            Rank::Above => false,
            _ => true,
        },
        KeyBound::Excluded(b) => match rank_keys(key, b.as_slice()) {
            Rank::Below => true,
            _ => false,
        },
        KeyBound::Unbounded => true,
    };
    low && high
}

} // verus!
