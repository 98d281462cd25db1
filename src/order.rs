use std::cmp::Ordering;
use vstd::prelude::*;

verus! {

/// Lexicographic comparison of two byte sequences; a proper prefix comes first.
pub open spec fn lex_cmp(a: Seq<u8>, b: Seq<u8>) -> Ordering
    decreases a.len(),
{
    if a.len() == 0 {
        if b.len() == 0 {
            Ordering::Equal
        } else {
            Ordering::Less
        }
    } else if b.len() == 0 {
        Ordering::Greater
    } else if a[0] < b[0] {
        Ordering::Less
    } else if a[0] > b[0] {
        Ordering::Greater
    } else {
        lex_cmp(a.drop_first(), b.drop_first())
    }
}

/// Two sequences compare as equal exactly when they are equal.
pub proof fn lemma_lex_equal(a: Seq<u8>, b: Seq<u8>)
    ensures
        (lex_cmp(a, b) == Ordering::Equal) <==> a == b,
    decreases a.len(),
{
    if a.len() > 0 && b.len() > 0 && a[0] == b[0] {
        lemma_lex_equal(a.drop_first(), b.drop_first());
        if a.drop_first() == b.drop_first() {
            assert(a =~= b) by {
                assert forall|i: int| 0 <= i < a.len() implies a[i] == b[i] by {
                    if i > 0 {
                        assert(a[i] == a.drop_first()[i - 1]);
                        assert(b[i] == b.drop_first()[i - 1]);
                    }
                }
            }
        }
        if a == b {
            assert(a.drop_first() == b.drop_first());
        }
    } else if a.len() == 0 && b.len() == 0 {
        assert(a =~= b);
    }
}

/// Swapping the operands swaps `Less` and `Greater`.
pub proof fn lemma_lex_flip(a: Seq<u8>, b: Seq<u8>)
    ensures
        (lex_cmp(a, b) == Ordering::Greater) <==> (lex_cmp(b, a) == Ordering::Less),
    decreases a.len(),
{
    if a.len() > 0 && b.len() > 0 && a[0] == b[0] {
        lemma_lex_flip(a.drop_first(), b.drop_first());
    }
}

/// `Greater` is transitive.
pub proof fn lemma_lex_greater_trans(a: Seq<u8>, b: Seq<u8>, c: Seq<u8>)
    requires
        lex_cmp(a, b) == Ordering::Greater,
        lex_cmp(b, c) == Ordering::Greater,
    ensures
        lex_cmp(a, c) == Ordering::Greater,
    decreases a.len(),
{
    if a.len() > 0 && b.len() > 0 && c.len() > 0 && a[0] == b[0] && b[0] == c[0] {
        lemma_lex_greater_trans(a.drop_first(), b.drop_first(), c.drop_first());
    }
}

/// Of two different sequences, one that is not greater is smaller.
pub proof fn lemma_lex_total(a: Seq<u8>, b: Seq<u8>)
    requires
        lex_cmp(a, b) != Ordering::Greater,
        a != b,
    ensures
        lex_cmp(b, a) == Ordering::Greater,
{
    lemma_lex_equal(a, b);
    lemma_lex_flip(b, a);
}

/// Compares two byte slices lexicographically, the shorter first on a common prefix.
pub fn compare_arrays(a: &[u8], b: &[u8]) -> (r: Ordering)
    ensures
        r == lex_cmp(a@, b@),
{
    let min_length: usize = if a.len() < b.len() { a.len() } else { b.len() };
    let mut i: usize = 0;
    proof {
        assert(a@.subrange(0, a@.len() as int) =~= a@);
        assert(b@.subrange(0, b@.len() as int) =~= b@);
    }
    while i < min_length
        invariant
            min_length as int == if a@.len() < b@.len() { a@.len() } else { b@.len() },
            i <= min_length,
            lex_cmp(a@, b@) == lex_cmp(a@.subrange(i as int, a@.len() as int), b@.subrange(i as int, b@.len() as int)),
        decreases min_length - i,
    {
        proof {
            let sa = a@.subrange(i as int, a@.len() as int);
            let sb = b@.subrange(i as int, b@.len() as int);
            assert(sa.drop_first() =~= a@.subrange(i + 1, a@.len() as int));
            assert(sb.drop_first() =~= b@.subrange(i + 1, b@.len() as int));
        }
        if a[i] < b[i] {
            return Ordering::Less;
        } else if a[i] > b[i] {
            return Ordering::Greater;
        }
        i = i + 1;
    }
    assert(a@.subrange(i as int, a@.len() as int).len() == 0 || b@.subrange(i as int, b@.len() as int).len() == 0);
    if a.len() < b.len() {
        Ordering::Less
    } else if a.len() > b.len() {
        Ordering::Greater
    } else {
        Ordering::Equal
    }
}

} // verus!
