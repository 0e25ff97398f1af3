//! Parts of a source text, by byte offsets.

use vstd::prelude::*;
use vstd::utf8::{decode_utf8, encode_utf8, is_char_boundary};

verus! {

/// The text between two byte offsets; nothing where an offset stands inside
/// a character or past the end.
pub open spec fn text_at(source: Seq<char>, from: nat, to: nat) -> Seq<char> {
    let bytes = encode_utf8(source);
    if from <= to && is_char_boundary(bytes, from as int) && is_char_boundary(bytes, to as int) {
        decode_utf8(bytes.subrange(from as int, to as int))
    } else {
        Seq::empty()
    }
}

/// How many bytes a text has.
pub open spec fn byte_len(s: Seq<char>) -> nat {
    encode_utf8(s).len()
}

proof fn lemma_boundary_in_front(bytes: Seq<u8>, a: int, b: int)
    requires
        vstd::utf8::valid_utf8(bytes),
        0 <= a <= b,
        is_char_boundary(bytes, b),
    ensures
        b <= bytes.len(),
        vstd::utf8::valid_utf8(bytes.subrange(0, b)),
        is_char_boundary(bytes.subrange(0, b), a) == is_char_boundary(bytes, a),
{
    assert(b <= bytes.len());
    vstd::utf8::valid_utf8_split(bytes, b);
    let front = bytes.subrange(0, b);
    vstd::utf8::is_char_boundary_start_end_of_seq(front);
    if a < b {
        vstd::utf8::is_char_boundary_iff_not_is_continuation_byte(bytes, a);
        vstd::utf8::is_char_boundary_iff_not_is_continuation_byte(front, a);
    }
}

/// The text between two byte offsets.
pub fn part_at<'a>(source: &'a str, from: usize, to: usize) -> (r: &'a str)
    ensures
        r@ == text_at(source@, from as nat, to as nat),
{
    proof {
        vstd::utf8::encode_utf8_valid_utf8(source@);
        vstd::utf8::encode_utf8_decode_utf8(Seq::<char>::empty());
    }
    if from > to || !source.is_char_boundary(from) || !source.is_char_boundary(to) {
        let r = "";
        proof {
            reveal_strlit("");
            assert(r@ =~= Seq::empty());
        }
        return r;
    }
    proof {
        lemma_boundary_in_front(encode_utf8(source@), from as int, to as int);
    }
    let (front, _) = source.split_at(to);
    let (_, part) = front.split_at(from);
    proof {
        let bytes = encode_utf8(source@);
        assert(encode_utf8(part@) =~= bytes.subrange(from as int, to as int));
        vstd::utf8::encode_utf8_decode_utf8(part@);
    }
    part
}

/// The last character boundary at or before an offset.
pub open spec fn boundary_before(bytes: Seq<u8>, end: nat) -> nat
    decreases end,
{
    if end == 0 || is_char_boundary(bytes, end as int) {
        end
    } else {
        boundary_before(bytes, (end - 1) as nat)
    }
}

/// The longest front of a text that has at most `max` bytes.
pub open spec fn cut(s: Seq<char>, max: nat) -> Seq<char> {
    if byte_len(s) <= max {
        s
    } else {
        text_at(s, 0, boundary_before(encode_utf8(s), max))
    }
}

/// The front of a text that has at most `max` bytes.
pub fn cut_text(s: &str, max: usize) -> (r: String)
    ensures
        r@ == cut(s@, max as nat),
{
    if s.as_bytes().len() <= max {
        return s.to_owned();
    }
    let ghost bytes = encode_utf8(s@);
    let mut end: usize = max;
    while end > 0 && !s.is_char_boundary(end)
        invariant
            bytes == encode_utf8(s@),
            boundary_before(bytes, max as nat) == boundary_before(bytes, end as nat),
        decreases end,
    {
        end = end - 1;
    }
    part_at(s, 0, end).to_owned()
}

} // verus!
