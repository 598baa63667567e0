//! Byte-level reading and searching, with the vocabulary that
//! the rest of the library shares.
use vstd::prelude::*;

verus! {

/// The smallest `i` in `0..n` that satisfies `p`.
pub open spec fn least(n: int, p: spec_fn(int) -> bool) -> Option<int>
    decreases n,
{
    if n <= 0 {
        None
    } else {
        match least(n - 1, p) {
            Some(i) => Some(i),
            None => if p(n - 1) {
                Some(n - 1)
            } else {
                None
            },
        }
    }
}

/// `least` is what its name says: the index it gives is in range, satisfies
/// the predicate, and no smaller index does; it gives none only when no index
/// in range satisfies the predicate.
pub proof fn lemma_least(n: int, p: spec_fn(int) -> bool)
    ensures
        match least(n, p) {
            Some(i) => 0 <= i < n && p(i) && forall|j: int| 0 <= j < i ==> !#[trigger] p(j),
            None => forall|j: int| 0 <= j < n ==> !#[trigger] p(j),
        },
    decreases n,
{
    if n > 0 {
        lemma_least(n - 1, p);
    }
}

/// An index that satisfies `p`, with none before it, is the least one.
pub proof fn lemma_least_is(n: int, p: spec_fn(int) -> bool, i: int)
    requires
        0 <= i < n,
        p(i),
        forall|j: int| 0 <= j < i ==> !#[trigger] p(j),
    ensures
        least(n, p) == Some(i),
{
    lemma_least(n, p);
    match least(n, p) {
        Some(k) => {
            if k < i {
                assert(!p(k));
            }
        },
        None => {
            assert(!p(i));
        },
    }
}

/// Where nothing in range satisfies `p`, there is no least index.
pub proof fn lemma_least_none(n: int, p: spec_fn(int) -> bool)
    requires
        forall|j: int| 0 <= j < n ==> !#[trigger] p(j),
    ensures
        least(n, p) is None,
{
    lemma_least(n, p);
}

/// The little-endian 32-bit word at offset `at`.
pub open spec fn le32(b: Seq<u8>, at: int) -> int {
    b[at] + 0x100 * b[at + 1] + 0x1_0000 * b[at + 2] + 0x100_0000 * b[at + 3]
}

/// The little-endian 64-bit word at offset `at`.
pub open spec fn le64(b: Seq<u8>, at: int) -> int {
    le32(b, at) + 0x1_0000_0000 * le32(b, at + 4)
}

/// The four little-endian bytes of `v`.
pub open spec fn le32_bytes(v: u32) -> Seq<u8> {
    seq![
        (v % 0x100) as u8,
        (v / 0x100 % 0x100) as u8,
        (v / 0x1_0000 % 0x100) as u8,
        (v / 0x100_0000) as u8,
    ]
}

/// The eight little-endian bytes of `v`.
pub open spec fn le64_bytes(v: u64) -> Seq<u8> {
    le32_bytes((v % 0x1_0000_0000) as u32) + le32_bytes((v / 0x1_0000_0000) as u32)
}

/// Reading back the four bytes of a word gives the word.
pub proof fn lemma_le32_roundtrip(v: u32)
    ensures
        le32_bytes(v).len() == 4,
        le32(le32_bytes(v), 0) == v,
{
}

/// Whether `needle` stands in `hay` at offset `i`.
pub open spec fn occurs_at(hay: Seq<u8>, needle: Seq<u8>, i: int) -> bool {
    &&& 0 <= i
    &&& i + needle.len() <= hay.len()
    &&& hay.subrange(i, i + needle.len()) == needle
}

/// Reads the little-endian 32-bit word at `at`.
pub fn read_le32(b: &[u8], at: usize) -> (r: u32)
    requires
        at + 4 <= b@.len(),
    ensures
        r == le32(b@, at as int),
{
    b[at] as u32 + 0x100 * (b[at + 1] as u32) + 0x1_0000 * (b[at + 2] as u32) + 0x100_0000 * (b[at
        + 3] as u32)
}

/// Reads the little-endian 64-bit word at `at`.
pub fn read_le64(b: &[u8], at: usize) -> (r: u64)
    requires
        at + 8 <= b@.len(),
    ensures
        r == le64(b@, at as int),
{
    let n: usize = b.len();
    assert(at + 8 <= n);
    let low: u32 = read_le32(b, at);
    let high: u32 = read_le32(b, at + 4);
    low as u64 + 0x1_0000_0000 * (high as u64)
}

/// Appends the four little-endian bytes of `v`.
pub fn push_le32(out: &mut Vec<u8>, v: u32)
    ensures
        final(out)@ == old(out)@ + le32_bytes(v),
{
    out.push((v % 0x100) as u8);
    out.push((v / 0x100 % 0x100) as u8);
    out.push((v / 0x1_0000 % 0x100) as u8);
    out.push((v / 0x100_0000) as u8);
    assert(out@ =~= old(out)@ + le32_bytes(v));
}

/// Whether `needle` stands in `hay` at offset `at`.
pub fn matches_at(hay: &[u8], needle: &[u8], at: usize) -> (r: bool)
    ensures
        r == occurs_at(hay@, needle@, at as int),
{
    let n: usize = hay.len();
    if at > n || needle.len() > n - at {
        return false;
    }
    let mut k: usize = 0;
    while k < needle.len()
        invariant
            n == hay@.len(),
            k <= needle@.len(),
            at + needle@.len() <= hay@.len(),
            forall|j: int| 0 <= j < k ==> hay@[at + j] == needle@[j],
        decreases needle@.len() - k,
    {
        if hay[at + k] != needle[k] {
            assert(hay@.subrange(at as int, at + needle@.len())[k as int] != needle@[k as int]);
            return false;
        }
        k = k + 1;
    }
    assert(hay@.subrange(at as int, at + needle@.len()) =~= needle@);
    true
}

/// The first offset at or after `from` where `needle` stands in `hay`.
pub fn find_bytes(hay: &[u8], needle: &[u8], from: usize) -> (r: Option<usize>)
    requires
        from <= hay@.len(),
        needle@.len() > 0,
    ensures
        match r {
            Some(i) => from <= i && occurs_at(hay@, needle@, i as int) && forall|j: int|
                from <= j < i ==> !#[trigger] occurs_at(hay@, needle@, j),
            None => forall|j: int| from <= j ==> !#[trigger] occurs_at(hay@, needle@, j),
        },
{
    let mut i: usize = from;
    while i < hay.len()
        invariant
            from <= i <= hay@.len(),
            forall|j: int| from <= j < i ==> !#[trigger] occurs_at(hay@, needle@, j),
        decreases hay@.len() - i,
    {
        if matches_at(hay, needle, i) {
            return Some(i);
        }
        i = i + 1;
    }
    None
}

/// Four bytes that are the digits of `v` to the base 256, lowest first, are read as
/// `v`.
pub proof fn words_are_little_endian(b: Seq<u8>, at: int, v: u32)
    requires
        0 <= at,
        at + 4 <= b.len(),
        b[at] as int == v as int % 0x100,
        b[at + 1] as int == v as int / 0x100 % 0x100,
        b[at + 2] as int == v as int / 0x1_0000 % 0x100,
        b[at + 3] as int == v as int / 0x100_0000 % 0x100,
    ensures
        le32(b, at) == v,
{
}

/// Eight bytes that are the digits of `v` to the base 256, lowest first, are read as
/// `v`.
pub proof fn long_words_are_little_endian(b: Seq<u8>, at: int, v: u64)
    requires
        0 <= at,
        at + 8 <= b.len(),
        b[at] as int == v as int % 0x100,
        b[at + 1] as int == v as int / 0x100 % 0x100,
        b[at + 2] as int == v as int / 0x1_0000 % 0x100,
        b[at + 3] as int == v as int / 0x100_0000 % 0x100,
        b[at + 4] as int == v as int / 0x1_0000_0000 % 0x100,
        b[at + 5] as int == v as int / 0x100_0000_0000 % 0x100,
        b[at + 6] as int == v as int / 0x1_0000_0000_0000 % 0x100,
        b[at + 7] as int == v as int / 0x100_0000_0000_0000 % 0x100,
    ensures
        le64(b, at) == v,
{
    lemma_halves(v);
    words_are_little_endian(b, at, (v % 0x1_0000_0000) as u32);
    words_are_little_endian(b, at + 4, (v / 0x1_0000_0000) as u32);
}

/// The digits of a long word are those of its two halves.
proof fn lemma_halves(v: u64)
    ensures
        v % 0x1_0000_0000 % 0x100 == v % 0x100,
        v % 0x1_0000_0000 / 0x100 % 0x100 == v / 0x100 % 0x100,
        v % 0x1_0000_0000 / 0x1_0000 % 0x100 == v / 0x1_0000 % 0x100,
        v % 0x1_0000_0000 / 0x100_0000 == v / 0x100_0000 % 0x100,
        v / 0x1_0000_0000 / 0x100 == v / 0x100_0000_0000,
        v / 0x1_0000_0000 / 0x1_0000 == v / 0x1_0000_0000_0000,
        v / 0x1_0000_0000 / 0x100_0000 == v / 0x100_0000_0000_0000,
        v / 0x1_0000_0000 < 0x1_0000_0000,
        v / 0x100_0000_0000_0000 < 0x100,
{
    assert(v % 0x1_0000_0000 % 0x100 == v % 0x100 && v % 0x1_0000_0000 / 0x100 % 0x100 == v / 0x100
        % 0x100 && v % 0x1_0000_0000 / 0x1_0000 % 0x100 == v / 0x1_0000 % 0x100 && v % 0x1_0000_0000
        / 0x100_0000 == v / 0x100_0000 % 0x100) by (bit_vector);
    assert(v / 0x1_0000_0000 / 0x100 == v / 0x100_0000_0000 && v / 0x1_0000_0000 / 0x1_0000 == v
        / 0x1_0000_0000_0000 && v / 0x1_0000_0000 / 0x100_0000 == v / 0x100_0000_0000_0000 && v
        / 0x1_0000_0000 < 0x1_0000_0000 && v / 0x100_0000_0000_0000 < 0x100) by (bit_vector);
}

/// The bytes of a word are its digits to the base 256, lowest first.
pub proof fn word_bytes_are_digits(v: u32)
    ensures
        le32_bytes(v).len() == 4,
        le32_bytes(v)[0] as int == v as int % 0x100,
        le32_bytes(v)[1] as int == v as int / 0x100 % 0x100,
        le32_bytes(v)[2] as int == v as int / 0x1_0000 % 0x100,
        le32_bytes(v)[3] as int == v as int / 0x100_0000 % 0x100,
{
}

/// The bytes of a long word are its digits to the base 256, lowest first.
pub proof fn long_word_bytes_are_digits(v: u64)
    ensures
        le64_bytes(v).len() == 8,
        le64_bytes(v)[0] as int == v as int % 0x100,
        le64_bytes(v)[1] as int == v as int / 0x100 % 0x100,
        le64_bytes(v)[2] as int == v as int / 0x1_0000 % 0x100,
        le64_bytes(v)[3] as int == v as int / 0x100_0000 % 0x100,
        le64_bytes(v)[4] as int == v as int / 0x1_0000_0000 % 0x100,
        le64_bytes(v)[5] as int == v as int / 0x100_0000_0000 % 0x100,
        le64_bytes(v)[6] as int == v as int / 0x1_0000_0000_0000 % 0x100,
        le64_bytes(v)[7] as int == v as int / 0x100_0000_0000_0000 % 0x100,
{
    lemma_halves(v);
    word_bytes_are_digits((v % 0x1_0000_0000) as u32);
    word_bytes_are_digits((v / 0x1_0000_0000) as u32);
    let low = le32_bytes((v % 0x1_0000_0000) as u32);
    let high = le32_bytes((v / 0x1_0000_0000) as u32);
    assert(forall|k: int| 0 <= k < 4 ==> le64_bytes(v)[k] == low[k]);
    assert(forall|k: int| 4 <= k < 8 ==> le64_bytes(v)[k] == high[k - 4]);
}

/// A needle stands at an offset exactly where all of it lies within the hay and each
/// of its bytes is the one there.
pub proof fn occurrence_is_bytewise(hay: Seq<u8>, needle: Seq<u8>, i: int)
    ensures
        occurs_at(hay, needle, i) <==> {
            &&& 0 <= i
            &&& i + needle.len() <= hay.len()
            &&& forall|k: int| 0 <= k < needle.len() ==> #[trigger] hay[i + k] == needle[k]
        },
{
    if 0 <= i && i + needle.len() <= hay.len() {
        let there = hay.subrange(i, i + needle.len());
        assert forall|k: int| 0 <= k < needle.len() implies there[k] == #[trigger] hay[i + k] by {}
        if forall|k: int| 0 <= k < needle.len() ==> #[trigger] hay[i + k] == needle[k] {
            assert forall|k: int| 0 <= k < needle.len() implies there[k] == needle[k] by {
                assert(hay[i + k] == needle[k]);
            }
            assert(there =~= needle);
        }
    }
}

} // verus!
