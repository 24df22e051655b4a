//! Strict total orders and how values are compared under them.
//!
//! Everything the library sorts or looks up goes through [`Ordered`]: a type
//! names the key it is ordered by, says which keys come first, proves that
//! this is a strict total order, and compares two values accordingly.

use vstd::prelude::*;
use vstd::utf8::*;

verus! {

/// Where one value stands relative to another.
#[derive(Debug, Clone, Copy, PartialEq, Eq, Structural)]
pub enum Rank {
    First,
    Same,
    Second,
}

/// A type whose values are put in order by a key.
pub trait Ordered: Sized {
    /// What the order looks at.
    type Key;

    spec fn key(&self) -> Self::Key;

    /// Whether `a` comes strictly ahead of `b`.
    spec fn precedes(a: Self::Key, b: Self::Key) -> bool;

    /// The order is strict, transitive and total.
    proof fn order_laws(a: Self::Key, b: Self::Key, c: Self::Key)
        ensures
            !Self::precedes(a, a),
            Self::precedes(a, b) && Self::precedes(b, c) ==> Self::precedes(a, c),
            a == b || Self::precedes(a, b) || Self::precedes(b, a),
    ;

    /// Which of the two comes first: `self`, `other`, or neither.
    fn rank(&self, other: &Self) -> (r: Rank)
        ensures
            r == Rank::First <==> Self::precedes(self.key(), other.key()),
            r == Rank::Same <==> self.key() == other.key(),
            r == Rank::Second <==> Self::precedes(other.key(), self.key()),
    ;
}

/// Lexicographic order on byte strings: a proper prefix comes first, and
/// otherwise the first differing byte decides.
pub open spec fn bytes_precede(a: Seq<u8>, b: Seq<u8>) -> bool
    decreases a.len(),
{
    if b.len() == 0 {
        false
    } else if a.len() == 0 {
        true
    } else if a[0] == b[0] {
        bytes_precede(a.drop_first(), b.drop_first())
    } else {
        a[0] < b[0]
    }
}

pub proof fn bytes_order_laws(a: Seq<u8>, b: Seq<u8>, c: Seq<u8>)
    ensures
        !bytes_precede(a, a),
        bytes_precede(a, b) && bytes_precede(b, c) ==> bytes_precede(a, c),
        a == b || bytes_precede(a, b) || bytes_precede(b, a),
    decreases a.len(),
{
    if a.len() > 0 {
        bytes_order_laws(
            a.drop_first(),
            if b.len() > 0 { b.drop_first() } else { b },
            if c.len() > 0 { c.drop_first() } else { c },
        );
        if b.len() > 0 && a[0] == b[0] && a.drop_first() == b.drop_first() {
            assert(a =~= seq![a[0]] + a.drop_first());
            assert(b =~= seq![b[0]] + b.drop_first());
        }
    } else if b.len() == 0 {
        assert(a =~= b);
    }
}

proof fn bytes_precede_skips_common_prefix(a: Seq<u8>, b: Seq<u8>, n: int)
    requires
        0 <= n <= a.len(),
        n <= b.len(),
        a.take(n) == b.take(n),
    ensures
        bytes_precede(a, b) == bytes_precede(a.skip(n), b.skip(n)),
    decreases n,
{
    if n == 0 {
        assert(a.skip(0) =~= a);
        assert(b.skip(0) =~= b);
    } else {
        assert(a[0] == a.take(n)[0]);
        assert(b[0] == b.take(n)[0]);
        assert(a.drop_first().take(n - 1) =~= a.take(n).drop_first());
        assert(b.drop_first().take(n - 1) =~= b.take(n).drop_first());
        bytes_precede_skips_common_prefix(a.drop_first(), b.drop_first(), n - 1);
        assert(a.drop_first().skip(n - 1) =~= a.skip(n));
        assert(b.drop_first().skip(n - 1) =~= b.skip(n));
    }
}

/// The first byte in which two strings differ decides which comes first: the
/// one with the smaller byte, or the one that ends there.
pub proof fn the_first_difference_decides(a: Seq<u8>, b: Seq<u8>, n: int)
    requires
        0 <= n <= a.len(),
        n <= b.len(),
        forall|i: int| 0 <= i < n ==> a[i] == b[i],
        n < a.len() && n < b.len() ==> a[n] != b[n],
    ensures
        n < a.len() && n < b.len() ==> (bytes_precede(a, b) <==> a[n] < b[n]),
        n == a.len() ==> (bytes_precede(a, b) <==> a.len() < b.len()),
        n == b.len() ==> !bytes_precede(a, b),
{
    assert(a.take(n) =~= b.take(n));
    bytes_precede_skips_common_prefix(a, b, n);
}

/// Text is listed by the bytes that encode it, and the first difference
/// decides.
pub proof fn text_is_listed_by_its_bytes(a: Seq<char>, b: Seq<char>, n: int)
    requires
        0 <= n <= encode_utf8(a).len(),
        n <= encode_utf8(b).len(),
        forall|i: int| 0 <= i < n ==> encode_utf8(a)[i] == encode_utf8(b)[i],
        n < encode_utf8(a).len() && n < encode_utf8(b).len() ==> encode_utf8(a)[n]
            != encode_utf8(b)[n],
    ensures
        n < encode_utf8(a).len() && n < encode_utf8(b).len() ==> (text_precedes(a, b)
            <==> encode_utf8(a)[n] < encode_utf8(b)[n]),
        n == encode_utf8(a).len() ==> (text_precedes(a, b) <==> encode_utf8(a).len() < encode_utf8(
            b,
        ).len()),
        n == encode_utf8(b).len() ==> !text_precedes(a, b),
{
    the_first_difference_decides(encode_utf8(a), encode_utf8(b), n);
}

/// Compare two byte strings lexicographically.
pub fn rank_bytes(a: &[u8], b: &[u8]) -> (r: Rank)
    ensures
        r == Rank::First <==> bytes_precede(a@, b@),
        r == Rank::Same <==> a@ == b@,
        r == Rank::Second <==> bytes_precede(b@, a@),
{
    let mut i: usize = 0;
    while i < a.len() && i < b.len() && a[i] == b[i]
        invariant
            0 <= i <= a@.len(),
            i <= b@.len(),
            a@.take(i as int) == b@.take(i as int),
        decreases a.len() - i,
    {
        assert(a@.take(i + 1) =~= a@.take(i as int).push(a@[i as int]));
        assert(b@.take(i + 1) =~= b@.take(i as int).push(b@[i as int]));
        i = i + 1;
    }
    proof {
        bytes_precede_skips_common_prefix(a@, b@, i as int);
        bytes_precede_skips_common_prefix(b@, a@, i as int);
        bytes_order_laws(a@, b@, a@);
        if i == a@.len() && i == b@.len() {
            assert(a@.take(i as int) =~= a@);
            assert(b@.take(i as int) =~= b@);
        }
    }
    if i < a.len() {
        if i < b.len() {
            if a[i] < b[i] {
                Rank::First
            } else {
                Rank::Second
            }
        } else {
            Rank::Second
        }
    } else if i < b.len() {
        Rank::First
    } else {
        Rank::Same
    }
}

/// Text is ordered by the bytes that encode it, as `str` documents.
pub open spec fn text_precedes(a: Seq<char>, b: Seq<char>) -> bool {
    bytes_precede(encode_utf8(a), encode_utf8(b))
}

proof fn encoding_is_injective(a: Seq<char>, b: Seq<char>)
    ensures
        encode_utf8(a) == encode_utf8(b) <==> a == b,
{
    encode_utf8_decode_utf8(a);
    encode_utf8_decode_utf8(b);
}

pub proof fn text_order_laws(a: Seq<char>, b: Seq<char>, c: Seq<char>)
    ensures
        !text_precedes(a, a),
        text_precedes(a, b) && text_precedes(b, c) ==> text_precedes(a, c),
        a == b || text_precedes(a, b) || text_precedes(b, a),
{
    encoding_is_injective(a, b);
    bytes_order_laws(encode_utf8(a), encode_utf8(b), encode_utf8(c));
}

/// Compare two pieces of text.
pub fn rank_text(a: &str, b: &str) -> (r: Rank)
    ensures
        r == Rank::First <==> text_precedes(a@, b@),
        r == Rank::Same <==> a@ == b@,
        r == Rank::Second <==> text_precedes(b@, a@),
{
    proof {
        encoding_is_injective(a@, b@);
    }
    rank_bytes(a.as_bytes(), b.as_bytes())
}

impl Ordered for String {
    type Key = Seq<char>;

    open spec fn key(&self) -> Seq<char> {
        self@
    }

    open spec fn precedes(a: Seq<char>, b: Seq<char>) -> bool {
        text_precedes(a, b)
    }

    proof fn order_laws(a: Seq<char>, b: Seq<char>, c: Seq<char>) {
        text_order_laws(a, b, c);
    }

    fn rank(&self, other: &Self) -> (r: Rank) {
        rank_text(self.as_str(), other.as_str())
    }
}

} // verus!
