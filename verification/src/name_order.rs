//! The order in which names and item identifiers stand: that of their UTF-8
//! bytes, the order of `str` itself.

use vstd::prelude::*;
use vstd::utf8::*;

verus! {

/// The first index from `i` on at which `a` and `b` differ or one of them ends.
pub open spec fn mismatch_from(a: Seq<u8>, b: Seq<u8>, i: int) -> int
    decreases a.len() - i,
{
    if 0 <= i < a.len() && i < b.len() && a[i] == b[i] {
        mismatch_from(a, b, i + 1)
    } else {
        i
    }
}

/// Lexicographic order on bytes: at the first index where the two differ or
/// one ends, `a` has ended and `b` has not, or `a` holds the smaller byte.
pub open spec fn bytes_precede(a: Seq<u8>, b: Seq<u8>) -> bool {
    let k = mismatch_from(a, b, 0);
    k < b.len() && (k == a.len() || a[k] < b[k])
}

/// `a` stands strictly before `b`.
pub open spec fn name_precedes(a: Seq<char>, b: Seq<char>) -> bool {
    bytes_precede(encode_utf8(a), encode_utf8(b))
}

/// `a` stands before `b` or is `b`.
pub open spec fn name_leq(a: Seq<char>, b: Seq<char>) -> bool {
    a == b || name_precedes(a, b)
}

/// Where one name stands with respect to another.
#[derive(Debug, Clone, Copy, PartialEq, Eq, Structural)]
pub enum Placement {
    Before,
    Same,
    After,
}

/// Where `a` stands with respect to `b`.
pub open spec fn placement(a: Seq<char>, b: Seq<char>) -> Placement {
    if a == b {
        Placement::Same
    } else if name_precedes(a, b) {
        Placement::Before
    } else {
        Placement::After
    }
}

/// What `mismatch_from` returns: both sequences agree from `i` up to it, and
/// there they differ or one of them ends.
pub proof fn lemma_mismatch_from(a: Seq<u8>, b: Seq<u8>, i: int)
    requires
        0 <= i <= a.len(),
        i <= b.len(),
    ensures
        i <= mismatch_from(a, b, i) <= a.len(),
        mismatch_from(a, b, i) <= b.len(),
        forall|j: int| i <= j < mismatch_from(a, b, i) ==> a[j] == b[j],
        mismatch_from(a, b, i) == a.len() || mismatch_from(a, b, i) == b.len() || a[mismatch_from(
            a,
            b,
            i,
        )] != b[mismatch_from(a, b, i)],
    decreases a.len() - i,
{
    if i < a.len() && i < b.len() && a[i] == b[i] {
        lemma_mismatch_from(a, b, i + 1);
    }
}

/// An index with the properties of `lemma_mismatch_from` is the one that
/// `mismatch_from` returns.
pub proof fn lemma_mismatch_is(a: Seq<u8>, b: Seq<u8>, i: int, k: int)
    requires
        0 <= i <= k <= a.len(),
        k <= b.len(),
        forall|j: int| i <= j < k ==> a[j] == b[j],
        k == a.len() || k == b.len() || a[k] != b[k],
    ensures
        mismatch_from(a, b, i) == k,
    decreases k - i,
{
    if i < k {
        lemma_mismatch_is(a, b, i + 1, k);
    }
}

/// Of two byte sequences exactly one holds: they are equal, the first
/// precedes the second, or the second precedes the first.
pub proof fn lemma_bytes_trichotomy(a: Seq<u8>, b: Seq<u8>)
    ensures
        a == b || bytes_precede(a, b) || bytes_precede(b, a),
        !(bytes_precede(a, b) && bytes_precede(b, a)),
        a == b ==> !bytes_precede(a, b),
{
    let k = mismatch_from(a, b, 0);
    lemma_mismatch_from(a, b, 0);
    lemma_mismatch_is(b, a, 0, k);
    if k == a.len() && k == b.len() {
        assert(a =~= b);
    }
}

/// Lexicographic order on bytes is transitive.
pub proof fn lemma_bytes_transitive(a: Seq<u8>, b: Seq<u8>, c: Seq<u8>)
    requires
        bytes_precede(a, b),
        bytes_precede(b, c),
    ensures
        bytes_precede(a, c),
{
    let k1 = mismatch_from(a, b, 0);
    let k2 = mismatch_from(b, c, 0);
    lemma_mismatch_from(a, b, 0);
    lemma_mismatch_from(b, c, 0);
    let k = if k1 <= k2 {
        k1
    } else {
        k2
    };
    lemma_mismatch_is(a, c, 0, k);
}

/// Two names with the same bytes are the same name.
pub proof fn lemma_encoding_tells_names_apart(a: Seq<char>, b: Seq<char>)
    requires
        encode_utf8(a) == encode_utf8(b),
    ensures
        a == b,
{
    encode_utf8_decode_utf8(a);
    encode_utf8_decode_utf8(b);
}

/// Of two names exactly one holds: they are equal, the first precedes the
/// second, or the second precedes the first.
pub proof fn lemma_name_trichotomy(a: Seq<char>, b: Seq<char>)
    ensures
        a == b || name_precedes(a, b) || name_precedes(b, a),
        !(name_precedes(a, b) && name_precedes(b, a)),
        a == b ==> !name_precedes(a, b),
{
    lemma_bytes_trichotomy(encode_utf8(a), encode_utf8(b));
    if encode_utf8(a) == encode_utf8(b) {
        lemma_encoding_tells_names_apart(a, b);
    }
}

/// The order of names is transitive.
pub proof fn lemma_name_transitive(a: Seq<char>, b: Seq<char>, c: Seq<char>)
    requires
        name_precedes(a, b),
        name_precedes(b, c),
    ensures
        name_precedes(a, c),
{
    lemma_bytes_transitive(encode_utf8(a), encode_utf8(b), encode_utf8(c));
}

/// Finds where `a` stands with respect to `b`, byte by byte.
pub fn place(a: &str, b: &str) -> (p: Placement)
    ensures
        p == placement(a@, b@),
{
    let x = a.as_bytes();
    let y = b.as_bytes();
    let mut i: usize = 0;
    while i < x.len() && i < y.len()
        invariant
            i <= x@.len(),
            i <= y@.len(),
            x@ == encode_utf8(a@),
            y@ == encode_utf8(b@),
            forall|j: int| 0 <= j < i ==> x@[j] == y@[j],
        decreases x@.len() - i,
    {
        if x[i] != y[i] {
            proof {
                lemma_mismatch_is(x@, y@, 0, i as int);
                lemma_mismatch_is(y@, x@, 0, i as int);
                lemma_name_trichotomy(a@, b@);
            }
            if x[i] < y[i] {
                return Placement::Before;
            } else {
                return Placement::After;
            }
        }
        i += 1;
    }
    proof {
        lemma_mismatch_is(x@, y@, 0, i as int);
        lemma_mismatch_is(y@, x@, 0, i as int);
        lemma_name_trichotomy(a@, b@);
        if x@.len() == y@.len() {
            assert(x@ =~= y@);
            lemma_encoding_tells_names_apart(a@, b@);
        }
    }
    if x.len() == y.len() {
        Placement::Same
    } else if x.len() < y.len() {
        Placement::Before
    } else {
        Placement::After
    }
}

} // verus!
