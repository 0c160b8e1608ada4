//! Byte-string helpers shared by the other modules.

use vstd::prelude::*;
use vstd::utf8::*;

verus! {

/// The bytes that a piece of text is made of.
pub open spec fn bytes_of(text: Seq<char>) -> Seq<u8> {
    encode_utf8(text)
}

/// Whether two byte strings hold the same bytes.
pub fn same_bytes(a: &[u8], b: &[u8]) -> (same: bool)
    ensures
        same == (a@ == b@),
{
    if a.len() != b.len() {
        return false;
    }
    let mut i: usize = 0;
    while i < a.len()
        invariant
            i <= a.len(),
            a.len() == b.len(),
            forall|j: int| 0 <= j < i ==> a@[j] == b@[j],
        decreases a.len() - i,
    {
        if a[i] != b[i] {
            return false;
        }
        i += 1;
    }
    assert(a@ =~= b@);
    true
}

/// Whether `s` starts with `prefix`.
pub fn starts_with(s: &[u8], prefix: &[u8]) -> (found: bool)
    ensures
        found == prefix@.is_prefix_of(s@),
{
    if prefix.len() > s.len() {
        return false;
    }
    let mut i: usize = 0;
    while i < prefix.len()
        invariant
            i <= prefix@.len() <= s@.len(),
            forall|j: int| 0 <= j < i ==> prefix@[j] == s@[j],
        decreases prefix@.len() - i,
    {
        if prefix[i] != s[i] {
            assert(s@.subrange(0, prefix@.len() as int)[i as int] != prefix@[i as int]);
            return false;
        }
        i += 1;
    }
    assert(prefix@ =~= s@.subrange(0, prefix@.len() as int));
    true
}

/// A copy of the bytes of `s` from index `from` up to, not including, `to`.
pub fn copy_range(s: &[u8], from: usize, to: usize) -> (piece: Vec<u8>)
    requires
        from <= to <= s@.len(),
    ensures
        piece@ == s@.subrange(from as int, to as int),
{
    let mut piece: Vec<u8> = Vec::new();
    let mut i: usize = from;
    while i < to
        invariant
            from <= i <= to <= s@.len(),
            piece@ == s@.subrange(from as int, i as int),
        decreases to - i,
    {
        piece.push(s[i]);
        assert(piece@ =~= s@.subrange(from as int, i + 1));
        i += 1;
    }
    piece
}

/// Reads bytes as text with `std::str::from_utf8`. The standard library
/// documents that the call succeeds exactly on well-formed UTF-8 and that the
/// text it returns is made of the very bytes it was given; that is all that is
/// assumed here.
#[verifier::external_body]
pub(crate) fn text_of<'a>(bytes: &'a [u8]) -> (text: Option<&'a str>)
    ensures
        text is Some <==> valid_utf8(bytes@),
        text matches Some(s) ==> bytes_of(s@) == bytes@,
{
    match std::str::from_utf8(bytes) {
        Ok(s) => Some(s),
        Err(_) => None,
    }
}

/// The index of the first `sep` in `s`, or the length of `s` where it holds
/// none.
pub open spec fn first_index_of(s: Seq<u8>, sep: u8) -> int
    decreases s.len(),
{
    if s.len() == 0 || s[0] == sep {
        0
    } else {
        1 + first_index_of(s.drop_first(), sep)
    }
}

/// The fields of `s`, which `sep` separates: one more than there are
/// separators, in order, some of them empty where separators touch each other
/// or an end of `s`.
pub open spec fn split_on(s: Seq<u8>, sep: u8) -> Seq<Seq<u8>>
    decreases s.len(),
{
    let k = first_index_of(s, sep);
    if 0 <= k < s.len() {
        seq![s.subrange(0, k)] + split_on(s.subrange(k + 1, s.len() as int), sep)
    } else {
        seq![s]
    }
}

/// Where the first `i` bytes of `s` hold no `sep`, and `s` ends there or has
/// `sep` there, `i` is the index that `first_index_of` gives.
pub proof fn lemma_first_index_of(s: Seq<u8>, sep: u8, i: int)
    requires
        0 <= i <= s.len(),
        forall|j: int| 0 <= j < i ==> s[j] != sep,
        i == s.len() || s[i] == sep,
    ensures
        first_index_of(s, sep) == i,
    decreases i,
{
    if i > 0 {
        let rest = s.drop_first();
        assert forall|j: int| 0 <= j < i - 1 implies rest[j] != sep by {
            assert(rest[j] == s[j + 1]);
        }
        lemma_first_index_of(rest, sep, i - 1);
    }
}

/// The deep view of a byte vector is its view.
pub proof fn lemma_deep_view_bytes(v: Vec<u8>)
    ensures
        v.deep_view() == v@,
{
    assert(v.deep_view() =~= v@);
}

/// Splits `s` at every `sep`.
pub fn split_fields(s: &[u8], sep: u8) -> (fields: Vec<Vec<u8>>)
    ensures
        fields.deep_view() == split_on(s@, sep),
{
    let n = s.len();
    let mut fields: Vec<Vec<u8>> = Vec::new();
    let mut start: usize = 0;
    let mut i: usize = 0;
    assert(fields.deep_view() =~= Seq::<Seq<u8>>::empty());
    assert(s@.subrange(0, n as int) =~= s@);
    while i < n
        invariant
            n == s@.len(),
            start <= i <= n,
            forall|j: int| start <= j < i ==> s@[j] != sep,
            split_on(s@, sep) == fields.deep_view() + split_on(
                s@.subrange(start as int, n as int),
                sep,
            ),
        decreases n - i,
    {
        if s[i] == sep {
            let field = copy_range(s, start, i);
            proof {
                let rest = s@.subrange(start as int, n as int);
                assert forall|j: int| 0 <= j < i - start implies rest[j] != sep by {
                    assert(rest[j] == s@[start + j]);
                }
                lemma_first_index_of(rest, sep, i - start);
                assert(rest.subrange(0, i - start) =~= field@);
                assert(rest.subrange(i - start + 1, rest.len() as int) =~= s@.subrange(
                    i + 1,
                    n as int,
                ));
            }
            let ghost before = fields.deep_view();
            fields.push(field);
            proof {
        lemma_deep_view_bytes(field);
        assert(fields.deep_view() =~= before + seq![field@]);
    }
            start = i + 1;
        }
        i += 1;
    }
    let field = copy_range(s, start, n);
    proof {
        let rest = s@.subrange(start as int, n as int);
        assert forall|j: int| 0 <= j < n - start implies rest[j] != sep by {
            assert(rest[j] == s@[start + j]);
        }
        lemma_first_index_of(rest, sep, n - start);
    }
    let ghost before = fields.deep_view();
    fields.push(field);
    proof {
        lemma_deep_view_bytes(field);
        assert(fields.deep_view() =~= before + seq![field@]);
    }
    fields
}

/// Bytes below 128 are well-formed UTF-8, one character each.
pub proof fn lemma_ascii_is_utf8(bytes: Seq<u8>)
    requires
        forall|i: int| 0 <= i < bytes.len() ==> bytes[i] < 0x80,
    ensures
        valid_utf8(bytes),
{
    assert(bytes.subrange(0, 0) =~= Seq::<u8>::empty());
    assert(partial_valid_utf8(bytes, 0));
    partial_valid_utf8_extend_ascii_block(bytes, 0, bytes.len() as int);
    assert(bytes.subrange(0, bytes.len() as int) =~= bytes);
}

} // verus!
