//! Character-sequence utilities: the longest-common-prefix function and the
//! executable helpers that the trie operations build on. Words are compared
//! code point by code point, never by bytes, so a multi-byte character is
//! never split.

use vstd::prelude::*;
use vstd::string::StrSliceExecFns;

verus! {

/// Length of the longest common prefix of two character sequences.
pub open spec fn common_prefix_len(a: Seq<char>, b: Seq<char>) -> nat
    decreases a.len(),
{
    if a.len() == 0 || b.len() == 0 || a[0] != b[0] {
        0
    } else {
        1 + common_prefix_len(a.skip(1), b.skip(1))
    }
}

/// The defining properties of `common_prefix_len`: it is a common prefix,
/// and the two sequences diverge right after it.
pub proof fn lemma_common_prefix_len(a: Seq<char>, b: Seq<char>)
    ensures
        common_prefix_len(a, b) <= a.len(),
        common_prefix_len(a, b) <= b.len(),
        a.take(common_prefix_len(a, b) as int) == b.take(common_prefix_len(a, b) as int),
        common_prefix_len(a, b) < a.len() && common_prefix_len(a, b) < b.len()
            ==> a[common_prefix_len(a, b) as int] != b[common_prefix_len(a, b) as int],
    decreases a.len(),
{
    if a.len() == 0 || b.len() == 0 || a[0] != b[0] {
        assert(a.take(0) =~= b.take(0));
    } else {
        lemma_common_prefix_len(a.skip(1), b.skip(1));
        let k = common_prefix_len(a.skip(1), b.skip(1)) as int;
        assert(a.take(k + 1) =~= b.take(k + 1)) by {
            assert forall|i: int| 0 <= i < k + 1 implies a[i] == b[i] by {
                if i > 0 {
                    assert(a.skip(1).take(k)[i - 1] == b.skip(1).take(k)[i - 1]);
                }
            }
        }
    }
}

/// Stepping a common prefix forward: skipping one matching character on both
/// sides shortens the longest common prefix by exactly one.
proof fn lemma_common_prefix_len_step(a: Seq<char>, b: Seq<char>, k: int)
    requires
        0 <= k < a.len(),
        k < b.len(),
        a[k] == b[k],
    ensures
        common_prefix_len(a.skip(k), b.skip(k)) == 1 + common_prefix_len(
            a.skip(k + 1),
            b.skip(k + 1),
        ),
{
    assert(a.skip(k)[0] == b.skip(k)[0]);
    assert(a.skip(k).skip(1) =~= a.skip(k + 1));
    assert(b.skip(k).skip(1) =~= b.skip(k + 1));
}

/// A shared prefix of length `j` witnesses that the longest common prefix is
/// at least that long.
pub proof fn lemma_common_prefix_len_at_least(a: Seq<char>, b: Seq<char>, j: int)
    requires
        0 <= j <= a.len(),
        j <= b.len(),
        a.take(j) == b.take(j),
    ensures
        j <= common_prefix_len(a, b),
    decreases j,
{
    if j > 0 {
        assert(a[0] == a.take(j)[0]);
        assert(b[0] == b.take(j)[0]);
        assert(a.skip(1).take(j - 1) =~= a.take(j).skip(1));
        assert(b.skip(1).take(j - 1) =~= b.take(j).skip(1));
        lemma_common_prefix_len_at_least(a.skip(1), b.skip(1), j - 1);
    }
}

/// Skipping in two steps is the same as skipping once.
pub proof fn lemma_skip_skip(w: Seq<char>, k: int, j: int)
    requires
        0 <= k,
        0 <= j,
        k + j <= w.len(),
    ensures
        w.skip(k).skip(j) == w.skip(k + j),
{
    assert(w.skip(k).skip(j) =~= w.skip(k + j));
}

/// Copies the characters of a string slice into a vector.
pub fn to_char_vec(s: &str) -> (v: Vec<char>)
    ensures
        v@ == s@,
{
    let n = s.unicode_len();
    let mut v: Vec<char> = Vec::new();
    let mut i: usize = 0;
    while i < n
        invariant
            n == s@.len(),
            i <= n,
            v@ == s@.take(i as int),
        decreases n - i,
    {
        v.push(s.get_char(i));
        i = i + 1;
        proof {
            assert(v@ =~= s@.take(i as int));
        }
    }
    proof {
        assert(s@.take(n as int) =~= s@);
    }
    v
}

/// Longest common prefix of `w` from position `pos` on against `lab`,
/// counted in characters.
pub fn common_len_from(w: &Vec<char>, pos: usize, lab: &Vec<char>) -> (k: usize)
    requires
        pos <= w@.len(),
    ensures
        k as nat == common_prefix_len(w@.skip(pos as int), lab@),
{
    let ghost a = w@.skip(pos as int);
    let a_len = w.len() - pos;
    let mut k: usize = 0;
    proof {
        assert(a.skip(0) =~= a);
        assert(lab@.skip(0) =~= lab@);
    }
    while k < a_len && k < lab.len() && w[pos + k] == lab[k]
        invariant
            pos <= w@.len(),
            w@.len() <= usize::MAX,
            a == w@.skip(pos as int),
            a_len == a.len(),
            k <= a_len,
            k <= lab@.len(),
            common_prefix_len(a, lab@) == k + common_prefix_len(
                a.skip(k as int),
                lab@.skip(k as int),
            ),
        decreases a_len - k,
    {
        proof {
            assert(a[k as int] == w@[pos + k]);
            lemma_common_prefix_len_step(a, lab@, k as int);
        }
        k = k + 1;
    }
    proof {
        if k < a_len && k < lab.len() {
            assert(a.skip(k as int)[0] == w@[pos + k]);
            assert(lab@.skip(k as int)[0] == lab@[k as int]);
            assert(common_prefix_len(a.skip(k as int), lab@.skip(k as int)) == 0);
        } else {
            assert(a.skip(k as int).len() == 0 || lab@.skip(k as int).len() == 0);
        }
    }
    k
}

} // verus!
