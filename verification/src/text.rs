//! Text measured in bytes.

use vstd::prelude::*;
use vstd::utf8::{
    decode_utf8, encode_utf8, encode_utf8_decode_utf8, encode_utf8_valid_utf8, is_char_boundary,
    is_char_boundary_iff_not_is_continuation_byte, is_char_boundary_start_end_of_seq,
};

verus! {

/// Bytes that some characters take.
pub open spec fn byte_count(text: Seq<char>) -> nat {
    encode_utf8(text).len()
}

pub fn byte_len(text: &str) -> (r: usize)
    ensures
        r == byte_count(text@),
{
    text.as_bytes().len()
}

/// The last place up to `end` where no character is cut.
pub open spec fn cut(bytes: Seq<u8>, end: nat) -> nat
    decreases end,
{
    if end == 0 || is_char_boundary(bytes, end as int) {
        end
    } else {
        cut(bytes, (end - 1) as nat)
    }
}

/// The beginning of a text, of at most `limit` bytes and without a cut character.
pub open spec fn beginning(text: Seq<char>, limit: nat) -> Seq<u8> {
    let bytes = encode_utf8(text);
    let end = if bytes.len() < limit {
        bytes.len()
    } else {
        limit
    };
    bytes.subrange(0, cut(bytes, end) as int)
}

/// The same beginning as characters.
pub open spec fn start_of(text: Seq<char>, limit: nat) -> Seq<char> {
    decode_utf8(beginning(text, limit))
}

/// A text cut off at `limit` bytes, or before the character that does not fit.
pub fn shortened(text: &str, limit: usize) -> (r: String)
    ensures
        encode_utf8(r@) == beginning(text@, limit as nat),
        r@ == start_of(text@, limit as nat),
{
    let length: usize = byte_len(text);
    let ghost bytes = encode_utf8(text@);
    let start: usize = if length < limit {
        length
    } else {
        limit
    };
    let mut end: usize = start;
    while end > 0 && !text.is_char_boundary(end)
        invariant
            end <= start <= bytes.len(),
            bytes == encode_utf8(text@),
            cut(bytes, end as nat) == cut(bytes, start as nat),
        ensures
            end <= start,
            end == cut(bytes, start as nat),
            end == 0 || is_char_boundary(bytes, end as int),
        decreases end,
    {
        end = end - 1;
    }
    proof {
        encode_utf8_valid_utf8(text@);
        is_char_boundary_start_end_of_seq(bytes);
    }
    let (head, _) = text.split_at(end);
    proof {
        encode_utf8_decode_utf8(head@);
    }
    head.to_owned()
}

/// A text that is cut off is never longer than the limit, and one within it is kept whole.
pub proof fn a_short_text_is_kept(text: Seq<char>, limit: nat)
    ensures
        beginning(text, limit).len() <= limit,
        encode_utf8(text).len() <= limit ==> beginning(text, limit) == encode_utf8(text),
{
    encode_utf8_valid_utf8(text);
    is_char_boundary_start_end_of_seq(encode_utf8(text));
    let bytes = encode_utf8(text);
    let end = if bytes.len() < limit {
        bytes.len()
    } else {
        limit
    };
    lemma_cut(bytes, end);
    assert(bytes.subrange(0, bytes.len() as int) =~= bytes);
}

proof fn lemma_cut(bytes: Seq<u8>, end: nat)
    ensures
        cut(bytes, end) <= end,
    decreases end,
{
    if end > 0 && !is_char_boundary(bytes, end as int) {
        lemma_cut(bytes, (end - 1) as nat);
    }
}

/// The character of a decimal digit.
pub open spec fn digit_char(digit: nat) -> char {
    (48 + digit) as u8 as char
}

/// A number in decimal digits.
pub open spec fn decimal(number: nat) -> Seq<char>
    decreases number,
{
    if number < 10 {
        seq![digit_char(number)]
    } else {
        decimal(number / 10).push(digit_char(number % 10))
    }
}

fn digit_text(digit: u64) -> (r: &'static str)
    requires
        digit < 10,
    ensures
        r@ == seq![digit_char(digit as nat)],
{
    proof {
        reveal_strlit("0");
        reveal_strlit("1");
        reveal_strlit("2");
        reveal_strlit("3");
        reveal_strlit("4");
        reveal_strlit("5");
        reveal_strlit("6");
        reveal_strlit("7");
        reveal_strlit("8");
        reveal_strlit("9");
    }
    let r: &'static str = match digit {
        0 => "0",
        1 => "1",
        2 => "2",
        3 => "3",
        4 => "4",
        5 => "5",
        6 => "6",
        7 => "7",
        8 => "8",
        _ => "9",
    };
    assert(r@ =~= seq![digit_char(digit as nat)]);
    r
}

pub fn decimal_text(number: u64) -> (r: String)
    ensures
        r@ == decimal(number as nat),
    decreases number,
{
    if number < 10 {
        digit_text(number).to_owned()
    } else {
        let mut out = decimal_text(number / 10);
        out.append(digit_text(number % 10));
        assert(decimal((number / 10) as nat) + seq![digit_char((number % 10) as nat)]
            =~= decimal((number / 10) as nat).push(digit_char((number % 10) as nat)));
        out
    }
}

/// A letter of the alphabet, in lower case.
pub open spec fn lower(byte: u8) -> u8 {
    if 0x41 <= byte <= 0x5a {
        (byte + 0x20) as u8
    } else {
        byte
    }
}

pub open spec fn lowered(bytes: Seq<u8>) -> Seq<u8> {
    Seq::new(bytes.len(), |i: int| lower(bytes[i]))
}

/// Whether a text is a name, upper and lower case being the same.
pub fn is_named(text: &str, name: &str) -> (r: bool)
    ensures
        r == (lowered(encode_utf8(text@)) == encode_utf8(name@)),
{
    let bytes = text.as_bytes();
    let wanted = name.as_bytes();
    if bytes.len() != wanted.len() {
        assert(lowered(bytes@).len() != wanted@.len());
        return false;
    }
    for i in 0..bytes.len()
        invariant
            bytes@ == encode_utf8(text@),
            wanted@ == encode_utf8(name@),
            bytes@.len() == wanted@.len(),
            forall|k: int| 0 <= k < i ==> lower(#[trigger] bytes@[k]) == wanted@[k],
    {
        let b: u8 = bytes[i];
        let small: u8 = if 0x41 <= b && b <= 0x5a {
            b + 0x20
        } else {
            b
        };
        if small != wanted[i] {
            assert(lowered(bytes@)[i as int] != wanted@[i as int]);
            return false;
        }
    }
    assert(lowered(bytes@) =~= wanted@);
    true
}

/// Where a text ends once the dots behind it are gone.
pub open spec fn undotted(bytes: Seq<u8>) -> Seq<u8>
    decreases bytes.len(),
{
    if bytes.len() > 0 && bytes.last() == 0x2e {
        undotted(bytes.drop_last())
    } else {
        bytes
    }
}

/// A text without the dots behind it.
pub fn without_dots(text: &str) -> (r: String)
    ensures
        encode_utf8(r@) == undotted(encode_utf8(text@)),
{
    let bytes = text.as_bytes();
    let ghost all = bytes@;
    let mut end: usize = bytes.len();
    assert(all.take(all.len() as int) =~= all);
    proof {
        encode_utf8_valid_utf8(text@);
        is_char_boundary_start_end_of_seq(all);
    }
    while end > 0 && bytes[end - 1] == 0x2e
        invariant
            all == bytes@,
            all == encode_utf8(text@),
            vstd::utf8::valid_utf8(all),
            end <= all.len(),
            undotted(all) == undotted(all.take(end as int)),
            is_char_boundary(all, end as int),
        ensures
            end <= all.len(),
            is_char_boundary(all, end as int),
            undotted(all) == undotted(all.take(end as int)),
            end == 0 || all[end - 1] != 0x2e,
        decreases end,
    {
        assert(all.take(end as int).drop_last() =~= all.take(end - 1));
        proof {
            is_char_boundary_iff_not_is_continuation_byte(all, end - 1);
        }
        end = end - 1;
    }
    let (head, _) = text.split_at(end);
    assert(encode_utf8(head@) =~= all.take(end as int));
    head.to_owned()
}

} // verus!
