//! Character-level text helpers shared by the URL builder and the wire-format
//! readers.

use vstd::prelude::*;

verus! {

/// Whether `p` occurs in `s` starting at position `pos`.
pub open spec fn occurs_at(s: Seq<char>, pos: int, p: Seq<char>) -> bool {
    &&& 0 <= pos
    &&& pos + p.len() <= s.len()
    &&& s.subrange(pos, pos + p.len() as int) == p
}

/// Decides `occurs_at(s@, pos, p@)`.
pub fn match_at(s: &str, n: usize, pos: usize, p: &str) -> (b: bool)
    requires
        n == s@.len(),
        pos <= n,
    ensures
        b == occurs_at(s@, pos as int, p@),
{
    let m = p.unicode_len();
    if m > n - pos {
        assert(!occurs_at(s@, pos as int, p@));
        return false;
    }
    let mut i: usize = 0;
    while i < m
        invariant
            n == s@.len(),
            m == p@.len(),
            pos + m <= n,
            i <= m,
            forall|k: int| 0 <= k < i ==> s@[pos + k] == p@[k],
        decreases m - i,
    {
        if s.get_char(pos + i) != p.get_char(i) {
            assert(!occurs_at(s@, pos as int, p@)) by {
                if occurs_at(s@, pos as int, p@) {
                    let sub = s@.subrange(pos as int, pos + p@.len() as int);
                    assert(sub[i as int] == p@[i as int]);
                }
            }
            return false;
        }
        i = i + 1;
    }
    assert(s@.subrange(pos as int, pos + p@.len() as int) =~= p@);
    true
}

} // verus!

verus! {

/// Splitting text at a known decomposition point: if everything from `pos` on
/// is `a` followed by `b`, then `a` sits at `pos` and `b` right after it.
pub proof fn lemma_skip_split(s: Seq<char>, pos: int, a: Seq<char>, b: Seq<char>)
    requires
        0 <= pos <= s.len(),
        s.skip(pos) == a + b,
    ensures
        pos + a.len() + b.len() == s.len(),
        s.subrange(pos, pos + a.len()) == a,
        s.skip(pos + a.len()) == b,
        forall|i: int| 0 <= i < a.len() ==> s[pos + i] == #[trigger] a[i],
        forall|i: int| 0 <= i < b.len() ==> s[pos + a.len() + i] == #[trigger] b[i],
{
    assert(s.skip(pos).len() == a.len() + b.len());
    assert forall|i: int| 0 <= i < a.len() implies s[pos + i] == #[trigger] a[i] by {
        assert(s.skip(pos)[i] == s[i + pos]);
        assert((a + b)[i] == a[i]);
    }
    assert forall|i: int| 0 <= i < b.len() implies s[pos + a.len() + i] == #[trigger] b[i] by {
        assert(s.skip(pos)[a.len() + i] == s[a.len() + i + pos]);
        assert((a + b)[a.len() + i] == b[i]);
    }
    assert(s.subrange(pos, pos + a.len()) =~= a);
    assert(s.skip(pos + a.len()) =~= b);
}

} // verus!
