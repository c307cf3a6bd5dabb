//! Byte-string helpers: common prefixes, prefix tests and the lexicographic
//! order on keys.

use vstd::prelude::*;
use vstd::slice::slice_subrange;
use vstd::slice::slice_to_vec;

verus! {

/// The first index at or after `i` where `a` and `b` stop agreeing, given
/// that one only looks from `i` on.
pub open spec fn common_from(a: Seq<u8>, b: Seq<u8>, i: nat) -> nat
    decreases a.len() - i,
{
    if i < a.len() && i < b.len() && a[i as int] == b[i as int] {
        common_from(a, b, i + 1)
    } else {
        i
    }
}

/// Length of the longest common prefix of `a` and `b`.
pub open spec fn common_prefix_len(a: Seq<u8>, b: Seq<u8>) -> nat {
    common_from(a, b, 0)
}

/// `a` comes strictly before `b` in lexicographic order: they agree up to
/// some index where either `a` ends and `b` goes on, or `a` holds the
/// smaller byte.
pub open spec fn lex_lt(a: Seq<u8>, b: Seq<u8>) -> bool {
    exists|i: int|
        0 <= i <= a.len() && i <= b.len() && #[trigger] a.take(i) == b.take(i) && (if i
            == a.len() {
            i < b.len()
        } else {
            i < b.len() && a[i] < b[i]
        })
}

/// What `common_from` returns: the sequences agree between `i` and the
/// result, and differ right after it unless one of them ends there.
pub proof fn lemma_common_from(a: Seq<u8>, b: Seq<u8>, i: nat)
    requires
        i <= a.len(),
        i <= b.len(),
    ensures
        i <= common_from(a, b, i),
        common_from(a, b, i) <= a.len(),
        common_from(a, b, i) <= b.len(),
        forall|j: int| i <= j < common_from(a, b, i) ==> a[j] == b[j],
        common_from(a, b, i) < a.len() && common_from(a, b, i) < b.len() ==> a[common_from(
            a,
            b,
            i,
        ) as int] != b[common_from(a, b, i) as int],
    decreases a.len() - i,
{
    if i < a.len() && i < b.len() && a[i as int] == b[i as int] {
        lemma_common_from(a, b, i + 1);
    }
}

/// The longest common prefix is a prefix of both, and is the longest.
pub proof fn lemma_common_prefix(a: Seq<u8>, b: Seq<u8>)
    ensures
        common_prefix_len(a, b) <= a.len(),
        common_prefix_len(a, b) <= b.len(),
        a.take(common_prefix_len(a, b) as int) == b.take(common_prefix_len(a, b) as int),
        common_prefix_len(a, b) < a.len() && common_prefix_len(a, b) < b.len() ==> a[common_prefix_len(
            a,
            b,
        ) as int] != b[common_prefix_len(a, b) as int],
        a.is_prefix_of(b) <==> common_prefix_len(a, b) == a.len(),
        a.len() > 0 && b.len() > 0 && a[0] == b[0] ==> common_prefix_len(a, b) >= 1,
{
    lemma_common_from(a, b, 0);
}

/// Length of the longest common prefix of two byte strings.
pub fn common_prefix(a: &[u8], b: &[u8]) -> (n: usize)
    ensures
        n == common_prefix_len(a@, b@),
{
    let mut i: usize = 0;
    while i < a.len() && i < b.len() && a[i] == b[i]
        invariant
            i <= a@.len(),
            i <= b@.len(),
            common_from(a@, b@, i as nat) == common_prefix_len(a@, b@),
        decreases a@.len() - i,
    {
        i += 1;
    }
    i
}

/// Whether `key` begins with `prefix`.
pub fn starts_with(key: &[u8], prefix: &[u8]) -> (r: bool)
    ensures
        r == prefix@.is_prefix_of(key@),
{
    let n = common_prefix(prefix, key);
    proof {
        lemma_common_prefix(prefix@, key@);
    }
    n == prefix.len()
}

/// Whether two byte strings are equal.
pub fn same_bytes(a: &[u8], b: &[u8]) -> (r: bool)
    ensures
        r == (a@ == b@),
{
    if a.len() != b.len() {
        return false;
    }
    let n = common_prefix(a, b);
    proof {
        lemma_common_prefix(a@, b@);
        if n == a@.len() {
            assert(b@ =~= b@.take(n as int));
        }
    }
    n == a.len()
}

/// The part of `s` from index `n` on.
pub fn tail(s: &[u8], n: usize) -> (r: &[u8])
    requires
        n <= s@.len(),
    ensures
        r@ == s@.skip(n as int),
{
    slice_subrange(s, n, s.len())
}

/// The first `n` bytes of `s`, as an owned vector.
pub fn head(s: &[u8], n: usize) -> (r: Vec<u8>)
    requires
        n <= s@.len(),
    ensures
        r@ == s@.take(n as int),
{
    slice_to_vec(slice_subrange(s, 0, n))
}

/// `a` followed by `b`, as an owned vector.
pub fn joined(a: &[u8], b: &[u8]) -> (r: Vec<u8>)
    ensures
        r@ == a@ + b@,
{
    let mut r = slice_to_vec(a);
    let mut i: usize = 0;
    while i < b.len()
        invariant
            i <= b@.len(),
            r@ == a@ + b@.take(i as int),
        decreases b@.len() - i,
    {
        r.push(b[i]);
        i += 1;
    }
    r
}

} // verus!
