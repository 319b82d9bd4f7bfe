//! Texts cut to the length at which they are shown.

use vstd::prelude::*;
use vstd::string::{StringExecFns, StringSliceAdditionalSpecFns};
use vstd::utf8::{
    decode_utf8, encode_utf8, encode_utf8_decode_utf8, encode_utf8_valid_utf8, is_char_boundary,
    is_char_boundary_iff_not_is_continuation_byte, is_char_boundary_start_end_of_seq,
    valid_utf8_split,
};

verus! {

/// Where the first line of the bytes of a text ends: at the first line feed,
/// or at the end where there is none.
pub open spec fn first_line_len(bytes: Seq<u8>) -> int
    decreases bytes.len(),
{
    if bytes.len() == 0 || bytes[0] == 10 {
        0
    } else {
        1 + first_line_len(bytes.skip(1))
    }
}

/// The bytes of the first line of a text.
pub open spec fn first_line(text: Seq<char>) -> Seq<u8> {
    encode_utf8(text).take(first_line_len(encode_utf8(text)))
}

/// The first line of a text cannot be cut to `length` bytes: the cut
/// would leave no room for the mark of the cut, or would fall within a
/// character.
pub open spec fn cut_falls_badly(text: Seq<char>, length: int) -> bool {
    first_line(text).len() > length && !(length >= 1 && is_char_boundary(
        first_line(text),
        length - 1,
    ))
}

/// The first line of a text, as it is where it takes no more than `length`
/// bytes, and else cut to one byte less and marked as cut.
pub open spec fn shortened(text: Seq<char>, length: int) -> Seq<char> {
    if first_line(text).len() > length {
        decode_utf8(first_line(text).take(length - 1)) + "…"@
    } else {
        decode_utf8(first_line(text))
    }
}

/// A line feed that stands at `i` with none before it ends the first line.
proof fn lemma_first_line_len(bytes: Seq<u8>, i: int)
    requires
        0 <= i <= bytes.len(),
        forall|j: int| 0 <= j < i ==> bytes[j] != 10,
        i == bytes.len() || bytes[i] == 10,
    ensures
        first_line_len(bytes) == i,
    decreases i,
{
    if i > 0 {
        let rest = bytes.skip(1);
        assert forall|j: int| 0 <= j < i - 1 implies rest[j] != 10 by {
            assert(rest[j] == bytes[j + 1]);
        }
        lemma_first_line_len(rest, i - 1);
    }
}

/// The first line of `text`, cut to `length - 1` bytes and marked with an
/// ellipsis where it takes more than `length` bytes.
pub fn shorten(text: &str, length: usize) -> (short: String)
    requires
        !cut_falls_badly(text@, length as int),
    ensures
        short@ == shortened(text@, length as int),
{
    let bytes = text.as_bytes();
    let ghost all = encode_utf8(text@);
    let mut end: usize = 0;
    while end < bytes.len() && bytes[end] != 10
        invariant
            end <= bytes.len(),
            bytes@ == all,
            forall|j: int| 0 <= j < end ==> all[j] != 10,
        decreases bytes.len() - end,
    {
        end += 1;
    }
    proof {
        lemma_first_line_len(all, end as int);
        encode_utf8_valid_utf8(text@);
        if end < all.len() {
            is_char_boundary_iff_not_is_continuation_byte(all, end as int);
        } else {
            is_char_boundary_start_end_of_seq(all);
        }
        valid_utf8_split(all, end as int);
    }
    let (line, _) = text.split_at(end);
    proof {
        assert(line.spec_bytes() =~= first_line(text@));
        encode_utf8_decode_utf8(line@);
    }
    if line.len() > length {
        let (head, _) = line.split_at(length - 1);
        proof {
            assert(head.spec_bytes() =~= first_line(text@).take(length - 1));
            encode_utf8_decode_utf8(head@);
        }
        head.to_owned().concat("…")
    } else {
        line.to_owned()
    }
}

} // verus!
