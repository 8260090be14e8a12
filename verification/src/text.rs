use vstd::prelude::*;
use vstd::string::StringSliceAdditionalSpecFns;
use vstd::utf8::{
    decode_utf8, encode_utf8_decode_utf8, encode_utf8_valid_utf8, is_char_boundary, is_char_boundary_iff_not_is_continuation_byte,
    is_char_boundary_start_end_of_seq, valid_utf8,
};

verus! {

/// The UTF-8 bytes of `s`.
pub open spec fn bytes_of(s: &str) -> Seq<u8> {
    s.spec_bytes()
}

/// `start..end` is a byte range of `s` that starts and ends on character boundaries,
/// i.e. `&s[start..end]` does not panic.
pub open spec fn is_slice_range(s: &str, start: int, end: int) -> bool {
    &&& 0 <= start <= end <= bytes_of(s).len()
    &&& is_char_boundary(bytes_of(s), start)
    &&& is_char_boundary(bytes_of(s), end)
}

/// The characters of `s` between the byte offsets `start` and `end`.
pub open spec fn slice_chars(s: &str, start: int, end: int) -> Seq<char> {
    decode_utf8(bytes_of(s).subrange(start, end))
}

/// The text of `s` between the byte offsets `start` and `end`, as `&s[start..end]` gives it.
pub fn str_slice<'a>(s: &'a str, start: usize, end: usize) -> (r: &'a str)
    requires
        is_slice_range(s, start as int, end as int),
    ensures
        bytes_of(r) == bytes_of(s).subrange(start as int, end as int),
        r@ == slice_chars(s, start as int, end as int),
{
    broadcast use encode_utf8_valid_utf8, encode_utf8_decode_utf8;

    let ghost bs = bytes_of(s);
    assert(valid_utf8(bs));
    let (_, rest) = s.split_at(start);
    let ghost rs = bytes_of(rest);
    assert(valid_utf8(rs));
    assert(rs =~= bs.subrange(start as int, bs.len() as int));
    let mid = end - start;
    proof {
        if mid == 0 {
            is_char_boundary_start_end_of_seq(rs);
        } else if end as int == bs.len() {
            is_char_boundary_start_end_of_seq(rs);
        } else {
            is_char_boundary_iff_not_is_continuation_byte(bs, end as int);
            is_char_boundary_iff_not_is_continuation_byte(rs, mid as int);
            assert(rs[mid as int] == bs[end as int]);
        }
    }
    let (piece, _) = rest.split_at(mid);
    assert(bytes_of(piece) =~= bs.subrange(start as int, end as int));
    piece
}

} // verus!
