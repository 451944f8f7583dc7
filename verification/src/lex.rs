//! Lexicographic order on strings, used to compare code names and the
//! boundaries of category ranges.

use vstd::prelude::*;
use vstd::string::StrSliceExecFns;

verus! {

/// Strict lexicographic order on character sequences: the empty sequence
/// comes first, otherwise the first differing character decides, and a
/// proper prefix precedes any of its extensions.
pub open spec fn lex_lt(a: Seq<char>, b: Seq<char>) -> bool
    decreases a.len(),
{
    if b.len() == 0 {
        false
    } else if a.len() == 0 {
        true
    } else if a[0] != b[0] {
        (a[0] as int) < (b[0] as int)
    } else {
        lex_lt(a.drop_first(), b.drop_first())
    }
}

/// Non-strict lexicographic order.
pub open spec fn lex_le(a: Seq<char>, b: Seq<char>) -> bool {
    lex_lt(a, b) || a == b
}

/// Dropping an equal prefix of both sequences does not change how they
/// compare.
proof fn lemma_lex_lt_skip(a: Seq<char>, b: Seq<char>, i: int)
    requires
        0 <= i <= a.len(),
        i <= b.len(),
        forall|j: int| 0 <= j < i ==> a[j] == b[j],
    ensures
        lex_lt(a, b) == lex_lt(a.skip(i), b.skip(i)),
    decreases i,
{
    if i == 0 {
        assert(a.skip(0) =~= a);
        assert(b.skip(0) =~= b);
    } else {
        assert(a[0] == b[0]);
        assert(a.len() > 0 && b.len() > 0);
        lemma_lex_lt_skip(a.drop_first(), b.drop_first(), i - 1);
        assert(a.skip(i) =~= a.drop_first().skip(i - 1));
        assert(b.skip(i) =~= b.drop_first().skip(i - 1));
    }
}

/// The order is irreflexive.
pub proof fn lemma_lex_lt_irreflexive(a: Seq<char>)
    ensures
        !lex_lt(a, a),
    decreases a.len(),
{
    if a.len() > 0 {
        lemma_lex_lt_irreflexive(a.drop_first());
    }
}

/// The order is asymmetric: two sequences never precede each other.
pub proof fn lemma_lex_lt_asymmetric(a: Seq<char>, b: Seq<char>)
    requires
        lex_lt(a, b),
    ensures
        !lex_lt(b, a),
    decreases a.len(),
{
    if a.len() > 0 && b.len() > 0 && a[0] == b[0] {
        lemma_lex_lt_asymmetric(a.drop_first(), b.drop_first());
    }
}

/// The order is transitive.
pub proof fn lemma_lex_lt_transitive(a: Seq<char>, b: Seq<char>, c: Seq<char>)
    requires
        lex_lt(a, b),
        lex_lt(b, c),
    ensures
        lex_lt(a, c),
    decreases a.len(),
{
    if a.len() > 0 && b.len() > 0 && c.len() > 0 && a[0] == b[0] && b[0] == c[0] {
        lemma_lex_lt_transitive(a.drop_first(), b.drop_first(), c.drop_first());
    }
}

/// The order is total: two sequences that do not compare either way are
/// equal.
pub proof fn lemma_lex_lt_connected(a: Seq<char>, b: Seq<char>)
    requires
        !lex_lt(a, b),
        !lex_lt(b, a),
    ensures
        a == b,
    decreases a.len(),
{
    if a.len() == 0 {
        assert(b.len() == 0);
        assert(a =~= b);
    } else {
        assert(b.len() > 0);
        assert(a[0] == b[0]);
        lemma_lex_lt_connected(a.drop_first(), b.drop_first());
        assert(a.drop_first().len() == b.drop_first().len());
        assert(a.len() == b.len());
        assert forall|i: int| 0 <= i < a.len() implies a[i] == b[i] by {
            if i > 0 {
                assert(a[i] == a.drop_first()[i - 1]);
                assert(b[i] == b.drop_first()[i - 1]);
            }
        }
        assert(a =~= b);
    }
}

/// Compare two strings in the lexicographic order of their characters.
pub fn str_cmp(a: &str, b: &str) -> (r: core::cmp::Ordering)
    ensures
        r == core::cmp::Ordering::Less <==> lex_lt(a@, b@),
        r == core::cmp::Ordering::Equal <==> a@ == b@,
        r == core::cmp::Ordering::Greater <==> lex_lt(b@, a@),
{
    let a_len = a.unicode_len();
    let b_len = b.unicode_len();
    let mut i: usize = 0;
    while i < a_len && i < b_len
        invariant
            0 <= i <= a_len,
            i <= b_len,
            a_len == a@.len(),
            b_len == b@.len(),
            forall|j: int| 0 <= j < i ==> a@[j] == b@[j],
        decreases a_len - i,
    {
        let ca = a.get_char(i);
        let cb = b.get_char(i);
        if ca != cb {
            proof {
                lemma_lex_lt_skip(a@, b@, i as int);
                lemma_lex_lt_skip(b@, a@, i as int);
                lemma_lex_lt_irreflexive(a@);
            }
            if (ca as u32) < (cb as u32) {
                proof {
                    lemma_lex_lt_asymmetric(a@, b@);
                }
                return core::cmp::Ordering::Less;
            } else {
                proof {
                    lemma_lex_lt_asymmetric(b@, a@);
                }
                return core::cmp::Ordering::Greater;
            }
        }
        i = i + 1;
    }
    proof {
        lemma_lex_lt_skip(a@, b@, i as int);
        lemma_lex_lt_skip(b@, a@, i as int);
    }
    if a_len < b_len {
        core::cmp::Ordering::Less
    } else if b_len < a_len {
        core::cmp::Ordering::Greater
    } else {
        proof {
            assert(a@ =~= b@);
        }
        core::cmp::Ordering::Equal
    }
}

/// Decide the strict lexicographic order between two strings.
pub fn str_lt(a: &str, b: &str) -> (r: bool)
    ensures
        r == lex_lt(a@, b@),
{
    matches!(str_cmp(a, b), core::cmp::Ordering::Less)
}

/// Decide the non-strict lexicographic order between two strings.
pub fn str_le(a: &str, b: &str) -> (r: bool)
    ensures
        r == lex_le(a@, b@),
{
    !matches!(str_cmp(a, b), core::cmp::Ordering::Greater)
}

} // verus!
