//! Source text as bytes: token estimates, lossless slicing and line offsets.

use vstd::prelude::*;
use vstd::utf8::*;

verus! {

/// The bytes of a text, which is how every contract of this library reads text.
pub open spec fn text_bytes(s: Seq<char>) -> Seq<u8> {
    encode_utf8(s)
}

/// Number of tokens that a text of `len` bytes is taken to hold: one for
/// every four bytes, rounded down.
pub open spec fn spec_tokens(len: int) -> int {
    len / 4
}

/// Estimates how many tokens a text of `len` bytes holds. Every decision on
/// the size of a chunk goes through this estimate.
pub fn tokens_for_length(len: usize) -> (tokens: usize)
    ensures
        tokens as int == spec_tokens(len as int),
{
    len / 4
}

/// Estimates how many tokens a text holds, from its length in bytes.
pub fn estimate_tokens(text: &str) -> (tokens: usize)
    ensures
        tokens as int == spec_tokens(text_bytes(text@).len() as int),
{
    tokens_for_length(text.as_bytes().len())
}

/// Whether `start..end` is a range of `bytes` that begins and ends between
/// two characters.
pub open spec fn spec_sliceable(bytes: Seq<u8>, start: int, end: int) -> bool {
    &&& 0 <= start <= end <= bytes.len()
    &&& is_char_boundary(bytes, start)
    &&& is_char_boundary(bytes, end)
}

/// In valid text, a position is between two characters of the whole exactly
/// when it is so in the prefix that ends at a later such position.
proof fn lemma_boundary_in_prefix(bytes: Seq<u8>, start: int, end: int)
    requires
        valid_utf8(bytes),
        0 <= start <= end <= bytes.len(),
        is_char_boundary(bytes, end),
    ensures
        valid_utf8(bytes.subrange(0, end)),
        is_char_boundary(bytes.subrange(0, end), start) == is_char_boundary(bytes, start),
{
    let head = bytes.subrange(0, end);
    valid_utf8_split(bytes, end);
    if start == end {
        is_char_boundary_start_end_of_seq(head);
        assert(is_char_boundary(head, start));
    } else {
        is_char_boundary_iff_not_is_continuation_byte(bytes, start);
        is_char_boundary_iff_not_is_continuation_byte(head, start);
        assert(head[start] == bytes[start]);
    }
}

/// The text of `source` between two byte offsets, or `None` where the range
/// is out of bounds or cuts a character.
pub fn slice_text(source: &str, start: usize, end: usize) -> (r: Option<String>)
    ensures
        r.is_some() == spec_sliceable(text_bytes(source@), start as int, end as int),
        r matches Some(s) ==> text_bytes(s@) == text_bytes(source@).subrange(
            start as int,
            end as int,
        ),
{
    if start > end || end > source.as_bytes().len() {
        return None;
    }
    if !source.is_char_boundary(start) || !source.is_char_boundary(end) {
        return None;
    }
    proof {
        encode_utf8_valid_utf8(source@);
        lemma_boundary_in_prefix(text_bytes(source@), start as int, end as int);
    }
    let (head, _) = source.split_at(end);
    let (_, mid) = head.split_at(start);
    proof {
        assert(text_bytes(mid@) =~= text_bytes(source@).subrange(start as int, end as int));
    }
    Some(mid.to_owned())
}

/// The offsets found in the first `k` bytes at which a line begins: zero,
/// and the position after every line feed.
pub open spec fn spec_newline_offsets(bytes: Seq<u8>, k: int) -> Seq<int>
    decreases k,
{
    if k <= 0 {
        seq![0int]
    } else {
        let before = spec_newline_offsets(bytes, k - 1);
        if bytes[k - 1] == 10u8 {
            before.push(k)
        } else {
            before
        }
    }
}

/// The offsets that bound the lines of a text: entry `i` is where line `i`
/// (counted from zero) begins, and the last entry is the length of the text.
/// A text that ends in a line feed has no empty line after it.
pub open spec fn spec_line_offsets(bytes: Seq<u8>) -> Seq<int> {
    let found = spec_newline_offsets(bytes, bytes.len() as int);
    if found.last() == bytes.len() {
        found
    } else {
        found.push(bytes.len() as int)
    }
}

/// Number of lines of a text.
pub open spec fn spec_line_count(bytes: Seq<u8>) -> int {
    spec_line_offsets(bytes).len() - 1
}

/// The line offsets of a text as machine numbers.
pub open spec fn spec_offsets(bytes: Seq<u8>) -> Seq<usize> {
    Seq::new(spec_line_offsets(bytes).len(), |i: int| spec_line_offsets(bytes)[i] as usize)
}

/// Whether a vector of offsets holds exactly the given mathematical offsets.
pub open spec fn offsets_match(v: Seq<usize>, s: Seq<int>) -> bool {
    &&& v.len() == s.len()
    &&& forall|i: int| 0 <= i < v.len() ==> (#[trigger] v[i]) as int == s[i]
}

/// Whether offsets begin at zero and strictly increase.
pub open spec fn offsets_increasing(s: Seq<int>) -> bool {
    &&& s.len() >= 1
    &&& s[0] == 0
    &&& forall|i: int, j: int| 0 <= i < j < s.len() ==> #[trigger] s[i] < #[trigger] s[j]
}

proof fn lemma_newline_offsets(bytes: Seq<u8>, k: int)
    requires
        0 <= k <= bytes.len(),
    ensures
        offsets_increasing(spec_newline_offsets(bytes, k)),
        spec_newline_offsets(bytes, k).last() <= k,
        forall|i: int|
            0 < i < spec_newline_offsets(bytes, k).len() ==> {
                let e = #[trigger] spec_newline_offsets(bytes, k)[i];
                0 < e <= k && bytes[e - 1] == 10u8
            },
    decreases k,
{
    if k > 0 {
        lemma_newline_offsets(bytes, k - 1);
    }
}

/// In valid text, the position after a line feed lies between two characters.
proof fn lemma_boundary_after_newline(bytes: Seq<u8>, p: int)
    requires
        valid_utf8(bytes),
        0 < p <= bytes.len(),
        bytes[p - 1] == 10u8,
    ensures
        is_char_boundary(bytes, p),
{
    if p == bytes.len() {
        is_char_boundary_start_end_of_seq(bytes);
    } else {
        is_char_boundary_iff_not_is_continuation_byte(bytes, p - 1);
        valid_utf8_split(bytes, p - 1);
        let rest = bytes.subrange(p - 1, bytes.len() as int);
        assert(rest[0] == 10u8);
        assert(rest[1] == bytes[p]);
        assert(length_of_first_scalar(rest) == 1);
        assert(valid_utf8(pop_first_scalar(rest)));
        is_char_boundary_start_end_of_seq(pop_first_scalar(rest));
        assert(is_char_boundary(rest, 1)) by {
            reveal_with_fuel(is_char_boundary, 2);
        }
        is_char_boundary_iff_not_is_continuation_byte(rest, 1);
        is_char_boundary_iff_not_is_continuation_byte(bytes, p);
    }
}

/// The line offsets of a text begin at zero, strictly increase and end at
/// the length of the text; in valid text each lies between two characters.
pub proof fn lemma_line_offsets(bytes: Seq<u8>)
    ensures
        offsets_increasing(spec_line_offsets(bytes)),
        spec_line_offsets(bytes).last() == bytes.len(),
        bytes.len() > 0 ==> spec_line_count(bytes) >= 1,
        bytes.len() == 0 ==> spec_line_count(bytes) == 0,
        valid_utf8(bytes) ==> forall|i: int|
            0 <= i < spec_line_offsets(bytes).len() ==> is_char_boundary(
                bytes,
                #[trigger] spec_line_offsets(bytes)[i],
            ),
{
    let n = bytes.len() as int;
    let found = spec_newline_offsets(bytes, n);
    let offs = spec_line_offsets(bytes);
    lemma_newline_offsets(bytes, n);
    if valid_utf8(bytes) {
        is_char_boundary_start_end_of_seq(bytes);
        assert forall|i: int| 0 <= i < offs.len() implies is_char_boundary(
            bytes,
            #[trigger] offs[i],
        ) by {
            if i == 0 {
            } else if i < found.len() {
                assert(offs[i] == found[i]);
                lemma_boundary_after_newline(bytes, found[i]);
            }
        }
    }
}

/// Computes the offsets that bound the lines of a text.
pub fn line_offsets(source: &str) -> (offsets: Vec<usize>)
    ensures
        offsets_match(offsets@, spec_line_offsets(text_bytes(source@))),
        offsets@ == spec_offsets(text_bytes(source@)),
{
    let bytes = source.as_bytes();
    let n = bytes.len();
    let mut offsets: Vec<usize> = Vec::new();
    offsets.push(0);
    let mut k: usize = 0;
    while k < n
        invariant
            k <= n,
            n == bytes@.len(),
            bytes@ == text_bytes(source@),
            offsets_match(offsets@, spec_newline_offsets(bytes@, k as int)),
        decreases n - k,
    {
        if bytes[k] == 10u8 {
            offsets.push(k + 1);
        }
        k = k + 1;
    }
    proof {
        lemma_newline_offsets(bytes@, n as int);
    }
    if offsets[offsets.len() - 1] != n {
        offsets.push(n);
    }
    assert(offsets@ =~= spec_offsets(text_bytes(source@)));
    offsets
}

} // verus!
