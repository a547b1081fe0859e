//! Key ordering as a capability: builders and readers take a comparator
//! value whose executable `compare` realizes a proved total order.

use vstd::prelude::*;

verus! {

/// Ordering over byte keys, supplied by the caller.
///
/// Contracts of the block builder and reader are stated over `cmp_spec`;
/// `compare` must realize it, and every implementation proves the order
/// total through `lemma_total_order`.
pub trait SliceComparator: Sized {
    /// The mathematical order this comparator realizes: negative when `a`
    /// sorts before `b`, zero exactly on equal keys, positive otherwise.
    spec fn cmp_spec(&self, a: Seq<u8>, b: Seq<u8>) -> int;

    /// The order is total: zero exactly on equal keys, antisymmetric,
    /// and transitive.
    proof fn lemma_total_order(&self, a: Seq<u8>, b: Seq<u8>, c: Seq<u8>)
        ensures
            self.cmp_spec(a, b) == 0 <==> a == b,
            self.cmp_spec(a, b) < 0 <==> self.cmp_spec(b, a) > 0,
            self.cmp_spec(a, b) < 0 && self.cmp_spec(b, c) < 0 ==> self.cmp_spec(a, c) < 0,
    ;

    /// Compares two keys; the sign of the result is the sign of
    /// `cmp_spec`.
    fn compare(&self, a: &[u8], b: &[u8]) -> (r: i32)
        ensures
            r < 0 <==> self.cmp_spec(a@, b@) < 0,
            r == 0 <==> self.cmp_spec(a@, b@) == 0,
            r > 0 <==> self.cmp_spec(a@, b@) > 0,
    ;
}

/// Lexicographic order on byte sequences: the first differing byte
/// decides; a strict prefix sorts before its extensions.
pub open spec fn lex_cmp(a: Seq<u8>, b: Seq<u8>) -> int
    decreases a.len(),
{
    if a.len() == 0 && b.len() == 0 {
        0
    } else if a.len() == 0 {
        -1
    } else if b.len() == 0 {
        1
    } else if a[0] < b[0] {
        -1
    } else if a[0] > b[0] {
        1
    } else {
        lex_cmp(a.skip(1), b.skip(1))
    }
}

/// `lex_cmp` is zero exactly on equal sequences.
pub proof fn lemma_lex_cmp_eq(a: Seq<u8>, b: Seq<u8>)
    ensures
        lex_cmp(a, b) == 0 <==> a == b,
    decreases a.len(),
{
    if a.len() == 0 || b.len() == 0 {
        if a.len() == 0 && b.len() == 0 {
            assert(a =~= b);
        } else {
            assert(lex_cmp(a, b) != 0);
            assert(a != b) by {
                assert(a.len() != b.len());
            }
        }
    } else if a[0] == b[0] {
        lemma_lex_cmp_eq(a.skip(1), b.skip(1));
        if lex_cmp(a, b) == 0 {
            assert(a.skip(1) =~= b.skip(1));
            assert forall|j: int| 0 <= j < a.len() implies a[j] == b[j] by {
                if j >= 1 {
                    assert(a[j] == a.skip(1)[j - 1]);
                    assert(b[j] == b.skip(1)[j - 1]);
                }
            }
            assert(a =~= b);
        }
        if a == b {
            assert(a.skip(1) =~= b.skip(1));
        }
    } else {
        if a == b {
            assert(a[0] == b[0]);
        }
    }
}

/// `lex_cmp` is antisymmetric: swapping the arguments flips the sign.
pub proof fn lemma_lex_cmp_antisymmetric(a: Seq<u8>, b: Seq<u8>)
    ensures
        lex_cmp(a, b) < 0 <==> lex_cmp(b, a) > 0,
    decreases a.len(),
{
    if a.len() > 0 && b.len() > 0 && a[0] == b[0] {
        lemma_lex_cmp_antisymmetric(a.skip(1), b.skip(1));
    }
}

/// `lex_cmp` is transitive on strict orderings.
pub proof fn lemma_lex_cmp_transitive(a: Seq<u8>, b: Seq<u8>, c: Seq<u8>)
    requires
        lex_cmp(a, b) < 0,
        lex_cmp(b, c) < 0,
    ensures
        lex_cmp(a, c) < 0,
    decreases a.len(),
{
    if a.len() == 0 {
        if c.len() == 0 {
            if b.len() == 0 {
            } else {
                assert(lex_cmp(b, c) >= 0);
            }
        }
    } else {
        assert(b.len() > 0);
        assert(c.len() > 0);
        if a[0] == b[0] && b[0] == c[0] {
            lemma_lex_cmp_transitive(a.skip(1), b.skip(1), c.skip(1));
        }
    }
}

/// The comparator of the raw byte order: plain lexicographic comparison.
#[derive(Clone, Copy)]
pub struct LessThanComparator;

impl SliceComparator for LessThanComparator {
    open spec fn cmp_spec(&self, a: Seq<u8>, b: Seq<u8>) -> int {
        lex_cmp(a, b)
    }

    proof fn lemma_total_order(&self, a: Seq<u8>, b: Seq<u8>, c: Seq<u8>) {
        lemma_lex_cmp_eq(a, b);
        lemma_lex_cmp_antisymmetric(a, b);
        if lex_cmp(a, b) < 0 && lex_cmp(b, c) < 0 {
            lemma_lex_cmp_transitive(a, b, c);
        }
    }

    fn compare(&self, a: &[u8], b: &[u8]) -> (r: i32) {
        let mut i: usize = 0;
        let a_len = a.len();
        let b_len = b.len();
        proof {
            assert(a@.skip(0) =~= a@);
            assert(b@.skip(0) =~= b@);
        }
        while i < a_len && i < b_len
            invariant
                i <= a_len,
                i <= b_len,
                a_len == a@.len(),
                b_len == b@.len(),
                lex_cmp(a@, b@) == lex_cmp(a@.skip(i as int), b@.skip(i as int)),
            decreases a_len - i,
        {
            let x = a[i];
            let y = b[i];
            if x < y {
                proof {
                    assert(a@.skip(i as int)[0] == x && b@.skip(i as int)[0] == y);
                }
                return -1;
            }
            if x > y {
                proof {
                    assert(a@.skip(i as int)[0] == x && b@.skip(i as int)[0] == y);
                }
                return 1;
            }
            proof {
                assert(a@.skip(i as int)[0] == x && b@.skip(i as int)[0] == y);
                vstd::seq_lib::lemma_seq_skip_of_skip(a@, i as int, 1);
                vstd::seq_lib::lemma_seq_skip_of_skip(b@, i as int, 1);
                assert(a@.skip(i as int).skip(1) =~= a@.skip(i + 1));
                assert(b@.skip(i as int).skip(1) =~= b@.skip(i + 1));
            }
            i = i + 1;
        }
        proof {
            assert(a@.skip(i as int).len() == 0 || b@.skip(i as int).len() == 0);
        }
        if a_len == b_len {
            proof {
                assert(a@.skip(i as int).len() == 0 && b@.skip(i as int).len() == 0);
            }
            0
        } else if a_len < b_len {
            -1
        } else {
            1
        }
    }
}

} // verus!
