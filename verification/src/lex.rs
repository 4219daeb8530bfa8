//! Strict lexicographic order on character sequences, the order in which
//! the task ledger hands out registered ids.

use vstd::prelude::*;

verus! {

/// `a` and `b` agree on the prefix of length `i`, and at position `i`
/// either `a` ends while `b` goes on, or `a`'s character is smaller
/// (by Unicode scalar value).
pub open spec fn lex_lt_at(a: Seq<char>, b: Seq<char>, i: int) -> bool {
    &&& 0 <= i <= a.len()
    &&& i <= b.len()
    &&& (forall|j: int| 0 <= j < i ==> a[j] == b[j])
    &&& ((i == a.len() && i < b.len()) || (i < a.len() && i < b.len() && (a[i] as u32) < (
    b[i] as u32)))
}

/// Strict lexicographic order: `a` comes before `b`.
pub open spec fn lex_lt(a: Seq<char>, b: Seq<char>) -> bool {
    exists|i: int| lex_lt_at(a, b, i)
}

/// No sequence comes before itself.
pub proof fn lemma_lex_irreflexive(a: Seq<char>)
    ensures
        !lex_lt(a, a),
{
    assert forall|i: int| !lex_lt_at(a, a, i) by {}
}

/// At most one of `lex_lt(a, b)` and `lex_lt(b, a)` holds.
pub proof fn lemma_lex_asymmetric(a: Seq<char>, b: Seq<char>)
    requires
        lex_lt(a, b),
    ensures
        !lex_lt(b, a),
{
    let i1 = choose|i: int| lex_lt_at(a, b, i);
    assert forall|i2: int| !lex_lt_at(b, a, i2) by {
        if lex_lt_at(b, a, i2) {
            if i1 < i2 {
                // b and a agree below i2, so a[i1] == b[i1]; but the witness
                // for lex_lt(a, b) says position i1 separates them.
                assert(b[i1] == a[i1]);
                assert(i1 < a.len());
            } else if i2 < i1 {
                assert(a[i2] == b[i2]);
                assert(i2 < b.len());
            } else {
                assert(i1 == i2);
            }
        }
    }
}

/// The order is transitive.
pub proof fn lemma_lex_transitive(a: Seq<char>, b: Seq<char>, c: Seq<char>)
    requires
        lex_lt(a, b),
        lex_lt(b, c),
    ensures
        lex_lt(a, c),
{
    let i1 = choose|i: int| lex_lt_at(a, b, i);
    let i2 = choose|i: int| lex_lt_at(b, c, i);
    if i1 < i2 {
        assert(lex_lt_at(a, c, i1));
    } else {
        assert(lex_lt_at(a, c, i2));
    }
}

/// Any two sequences are ordered one way or the other, or are equal.
pub proof fn lemma_lex_trichotomy(a: Seq<char>, b: Seq<char>)
    ensures
        a == b || lex_lt(a, b) || lex_lt(b, a),
{
    lemma_lex_trichotomy_from(a, b, 0);
}

proof fn lemma_lex_trichotomy_from(a: Seq<char>, b: Seq<char>, k: int)
    requires
        0 <= k <= a.len(),
        k <= b.len(),
        forall|j: int| 0 <= j < k ==> a[j] == b[j],
    ensures
        a == b || lex_lt(a, b) || lex_lt(b, a),
    decreases a.len() - k,
{
    if k == a.len() {
        if k == b.len() {
            assert(a =~= b);
        } else {
            assert(lex_lt_at(a, b, k));
        }
    } else if k == b.len() {
        assert(lex_lt_at(b, a, k));
    } else if (a[k] as u32) < (b[k] as u32) {
        assert(lex_lt_at(a, b, k));
    } else if (b[k] as u32) < (a[k] as u32) {
        assert(lex_lt_at(b, a, k));
    } else {
        vstd::utf8::char_u32_cast(a[k], a[k] as u32);
        vstd::utf8::char_u32_cast(b[k], b[k] as u32);
        assert(a[k] == b[k]);
        lemma_lex_trichotomy_from(a, b, k + 1);
    }
}

/// Decides `lex_lt` on two string slices by walking their characters.
pub fn str_lt(a: &str, b: &str) -> (r: bool)
    ensures
        r == lex_lt(a@, b@),
{
    let alen = a.unicode_len();
    let blen = b.unicode_len();
    let mut i: usize = 0;
    loop
        invariant
            i <= alen,
            i <= blen,
            alen == a@.len(),
            blen == b@.len(),
            forall|j: int| 0 <= j < i ==> a@[j] == b@[j],
        decreases alen - i,
    {
        if i == alen {
            if alen < blen {
                assert(lex_lt_at(a@, b@, i as int));
                return true;
            } else {
                assert(a@ =~= b@);
                proof {
                    lemma_lex_irreflexive(a@);
                }
                return false;
            }
        }
        if i == blen {
            assert(lex_lt_at(b@, a@, i as int));
            proof {
                lemma_lex_asymmetric(b@, a@);
            }
            return false;
        }
        let ca = a.get_char(i);
        let cb = b.get_char(i);
        if (ca as u32) < (cb as u32) {
            assert(lex_lt_at(a@, b@, i as int));
            return true;
        }
        if (cb as u32) < (ca as u32) {
            assert(lex_lt_at(b@, a@, i as int));
            proof {
                lemma_lex_asymmetric(b@, a@);
            }
            return false;
        }
        proof {
            vstd::utf8::char_u32_cast(ca, ca as u32);
            vstd::utf8::char_u32_cast(cb, cb as u32);
        }
        assert(a@[i as int] == b@[i as int]);
        i = i + 1;
    }
}

/// Decides whether two string slices read the same, through the order:
/// two sequences are equal exactly when neither comes before the other.
pub fn str_eq(a: &str, b: &str) -> (r: bool)
    ensures
        r == (a@ == b@),
{
    let lt1 = str_lt(a, b);
    let lt2 = str_lt(b, a);
    proof {
        lemma_lex_trichotomy(a@, b@);
        if a@ == b@ {
            lemma_lex_irreflexive(a@);
        }
        if lex_lt(a@, b@) {
            lemma_lex_asymmetric(a@, b@);
        }
    }
    !lt1 && !lt2
}

} // verus!
