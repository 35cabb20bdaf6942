use vstd::prelude::*;

verus! {

/// Strict lexicographic order on character sequences, by scalar value.
pub open spec fn lex_lt(a: Seq<char>, b: Seq<char>) -> bool
    decreases a.len() + b.len(),
{
    if b.len() == 0 {
        false
    } else if a.len() == 0 {
        true
    } else if a[0] < b[0] {
        true
    } else if b[0] < a[0] {
        false
    } else {
        lex_lt(a.skip(1), b.skip(1))
    }
}

/// The order is irreflexive.
pub proof fn lemma_lex_lt_irrefl(a: Seq<char>)
    ensures
        !lex_lt(a, a),
    decreases a.len(),
{
    if a.len() > 0 {
        lemma_lex_lt_irrefl(a.skip(1));
    }
}

/// The order is total: two unordered sequences are equal.
pub proof fn lemma_lex_lt_connected(a: Seq<char>, b: Seq<char>)
    requires
        !lex_lt(a, b),
        !lex_lt(b, a),
    ensures
        a == b,
    decreases a.len() + b.len(),
{
    if a.len() == 0 && b.len() == 0 {
        assert(a =~= b);
    } else if a.len() > 0 && b.len() > 0 {
        lemma_lex_lt_connected(a.skip(1), b.skip(1));
        assert(a[0] == b[0]);
        assert(a =~= b) by {
            assert(a.skip(1) =~= b.skip(1));
            assert(a.skip(1).len() == a.len() - 1);
            assert(b.skip(1).len() == b.len() - 1);
            assert(a.len() == b.len());
            assert(forall|i: int| 1 <= i < a.len() ==> a[i] == a.skip(1)[i - 1]);
            assert(forall|i: int| 1 <= i < b.len() ==> b[i] == b.skip(1)[i - 1]);
        }
    }
}

/// The order is transitive.
pub proof fn lemma_lex_lt_trans(a: Seq<char>, b: Seq<char>, c: Seq<char>)
    requires
        lex_lt(a, b),
        lex_lt(b, c),
    ensures
        lex_lt(a, c),
    decreases a.len() + b.len() + c.len(),
{
    if a.len() == 0 {
        assert(c.len() > 0);
    } else {
        assert(b.len() > 0 && c.len() > 0);
        if a[0] == b[0] && b[0] == c[0] {
            lemma_lex_lt_trans(a.skip(1), b.skip(1), c.skip(1));
        }
    }
}

/// Relies on `str`'s `PartialOrd` implementation: `&str` values compare
/// lexicographically by their UTF-8 bytes, and UTF-8 encoding preserves the
/// order of Unicode scalar values, so the byte order coincides with
/// [`lex_lt`] over the character sequences the two views denote.
#[verifier::external_body]
pub fn str_lt(a: &str, b: &str) -> (r: bool)
    ensures
        r == lex_lt(a@, b@),
{
    a < b
}

/// Window instances order by key first, then by start: the order window
/// instances close in.
pub open spec fn win_before(k1: Seq<char>, s1: int, k2: Seq<char>, s2: int) -> bool {
    lex_lt(k1, k2) || (k1 == k2 && s1 < s2)
}

/// [`win_before`] is a strict total order on (key, start) pairs.
pub proof fn lemma_win_before_trans(
    k1: Seq<char>,
    s1: int,
    k2: Seq<char>,
    s2: int,
    k3: Seq<char>,
    s3: int,
)
    requires
        win_before(k1, s1, k2, s2),
        win_before(k2, s2, k3, s3),
    ensures
        win_before(k1, s1, k3, s3),
{
    if lex_lt(k1, k2) && lex_lt(k2, k3) {
        lemma_lex_lt_trans(k1, k2, k3);
    }
}

/// Two unordered (key, start) pairs are equal.
pub proof fn lemma_win_before_connected(k1: Seq<char>, s1: int, k2: Seq<char>, s2: int)
    requires
        !win_before(k1, s1, k2, s2),
        !win_before(k2, s2, k1, s1),
    ensures
        k1 == k2 && s1 == s2,
{
    lemma_lex_lt_connected(k1, k2);
}

} // verus!
