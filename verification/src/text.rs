//! Character-level text helpers.
use vstd::prelude::*;

verus! {

/// Whether `s` begins with `prefix`.
pub open spec fn begins_with(s: Seq<char>, prefix: Seq<char>) -> bool {
    prefix.len() <= s.len() && s.take(prefix.len() as int) == prefix
}

/// The characters of `s`, in order.
pub fn chars_of(s: &str) -> (r: Vec<char>)
    ensures
        r@ == s@,
{
    let mut out: Vec<char> = Vec::new();
    for c in it: s.chars()
        invariant
            out@ == it.seq().take(it.index()),
            it.seq() == s@,
    {
        assert(it.seq().take(it.index() + 1) == it.seq().take(it.index()).push(c));
        out.push(c);
    }
    assert(s@.take(s@.len() as int) =~= s@);
    out
}

/// Whether `prefix` stands in `s` at offset `at`.
pub fn chars_match_at(s: &[char], prefix: &[char], at: usize) -> (r: bool)
    requires
        at <= s@.len(),
    ensures
        r == begins_with(s@.skip(at as int), prefix@),
{
    let n: usize = s.len();
    if prefix.len() > n - at {
        return false;
    }
    let mut k: usize = 0;
    while k < prefix.len()
        invariant
            n == s@.len(),
            k <= prefix@.len(),
            at + prefix@.len() <= s@.len(),
            forall|j: int| 0 <= j < k ==> s@[at + j] == prefix@[j],
        decreases prefix@.len() - k,
    {
        if s[at + k] != prefix[k] {
            assert(s@.skip(at as int).take(prefix@.len() as int)[k as int] != prefix@[k as int]);
            return false;
        }
        k = k + 1;
    }
    assert(s@.skip(at as int).take(prefix@.len() as int) =~= prefix@);
    true
}

/// Whether the characters `s` are those of `other`.
pub fn same_text(s: &[char], other: &str) -> (r: bool)
    ensures
        r == (s@ == other@),
{
    let o: Vec<char> = chars_of(other);
    let r: bool = s.len() == o.len() && chars_match_at(s, o.as_slice(), 0);
    proof {
        assert(s@.skip(0) =~= s@);
        if s@.len() == o@.len() {
            assert(s@.take(o@.len() as int) =~= s@);
        }
    }
    r
}

/// Whether the characters `s` begin with those of `prefix`.
pub fn has_prefix(s: &[char], prefix: &str) -> (r: bool)
    ensures
        r == begins_with(s@, prefix@),
{
    let p: Vec<char> = chars_of(prefix);
    assert(s@.skip(0) =~= s@);
    chars_match_at(s, p.as_slice(), 0)
}

/// A text begins with a prefix exactly where it is at least as long and each
/// character of the prefix is the one there.
pub proof fn prefix_is_charwise(s: Seq<char>, prefix: Seq<char>)
    ensures
        begins_with(s, prefix) <==> prefix.len() <= s.len() && forall|k: int|
            0 <= k < prefix.len() ==> #[trigger] s[k] == prefix[k],
{
    if prefix.len() <= s.len() {
        let front = s.take(prefix.len() as int);
        assert forall|k: int| 0 <= k < prefix.len() implies front[k] == #[trigger] s[k] by {}
        if forall|k: int| 0 <= k < prefix.len() ==> #[trigger] s[k] == prefix[k] {
            assert(front =~= prefix);
        }
    }
}

} // verus!
