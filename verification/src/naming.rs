//! Names for composited frames.
//!
//! The frame stream carries no timestamps: the encoder puts frames in the
//! lexical order of their names. So a frame's name is its timestamp written
//! with a fixed number of digits, and the lexical order of the names is the
//! order of the timestamps.
use crate::encoder::lex_le;
use crate::encoder::lex_le_from;
use vstd::prelude::*;
use vstd::string::StringExecFns;
use vstd::utf8::encode_utf8;
use vstd::utf8::is_ascii_chars;
use vstd::utf8::is_ascii_chars_encode_utf8;

verus! {

/// Number of digits in a frame's name: enough for any 64-bit timestamp.
pub const NAME_DIGITS: usize = 19;

/// The character that writes the digit `d`.
pub open spec fn digit_char(d: int) -> char {
    ((0x30 + d) as u8) as char
}

/// `value` written in decimal with exactly `width` digits, zeros in front.
pub open spec fn padded_decimal(value: int, width: nat) -> Seq<char>
    decreases width,
{
    if width == 0 {
        Seq::empty()
    } else {
        padded_decimal(value / 10, (width - 1) as nat).push(digit_char(value % 10))
    }
}

/// Ten to the power `n`.
pub open spec fn pow10(n: nat) -> int
    decreases n,
{
    if n == 0 {
        1
    } else {
        10 * pow10((n - 1) as nat)
    }
}

/// The name of the frame of a snapshot.
///
/// From 0 on, a timestamp is written with `NAME_DIGITS` digits. Below 0, a
/// dash is followed by the distance from the least 64-bit integer, written
/// the same way: a dash sorts before every digit, and among negative
/// timestamps the later one is farther from the least.
pub open spec fn canvas_name(timestamp: int) -> Seq<char> {
    if timestamp >= 0 {
        padded_decimal(timestamp, NAME_DIGITS as nat) + seq!['.', 'p', 'n', 'g']
    } else {
        seq!['-'] + padded_decimal(timestamp + 0x8000_0000_0000_0000, NAME_DIGITS as nat)
            + seq!['.', 'p', 'n', 'g']
    }
}

/// Whether `a` and `b` agree before position `at` and `a` has the smaller
/// character there.
pub open spec fn differ_at(a: Seq<char>, b: Seq<char>, at: int) -> bool {
    &&& 0 <= at < a.len()
    &&& at < b.len()
    &&& forall|i: int| 0 <= i < at ==> a[i] == b[i]
    &&& (a[at] as u32) < (b[at] as u32)
}

/// Padded numbers have the width asked for and consist of digits.
pub proof fn lemma_padded_decimal_digits(value: int, width: nat)
    requires
        0 <= value,
    ensures
        padded_decimal(value, width).len() == width,
        forall|i: int|
            0 <= i < width ==> '0' <= (#[trigger] padded_decimal(value, width)[i]) <= '9',
    decreases width,
{
    if width > 0 {
        lemma_padded_decimal_digits(value / 10, (width - 1) as nat);
    }
}

/// Of two numbers that fit the width, the smaller one's padded form has the
/// smaller digit at the first position where the two forms differ.
pub proof fn lemma_padded_decimal_order(a: int, b: int, width: nat) -> (at: int)
    requires
        0 <= a < b < pow10(width),
    ensures
        differ_at(padded_decimal(a, width), padded_decimal(b, width), at),
    decreases width,
{
    lemma_padded_decimal_digits(a, width);
    lemma_padded_decimal_digits(b, width);
    if width == 0 {
        0
    } else {
        let narrower = (width - 1) as nat;
        lemma_padded_decimal_digits(a / 10, narrower);
        lemma_padded_decimal_digits(b / 10, narrower);
        if a / 10 < b / 10 {
            lemma_padded_decimal_order(a / 10, b / 10, narrower)
        } else {
            assert(a / 10 == b / 10);
            assert(a % 10 < b % 10);
            width - 1
        }
    }
}

/// A sequence that has the smaller character at the first position where
/// two differ comes strictly first in lexical order of the encoded bytes.
pub proof fn lemma_differ_at_is_lexical(a: Seq<char>, b: Seq<char>, at: int)
    requires
        is_ascii_chars(a),
        is_ascii_chars(b),
        differ_at(a, b, at),
    ensures
        lex_le(encode_utf8(a), encode_utf8(b)),
        !lex_le(encode_utf8(b), encode_utf8(a)),
{
    is_ascii_chars_encode_utf8(a);
    is_ascii_chars_encode_utf8(b);
    let x = encode_utf8(a);
    let y = encode_utf8(b);
    assert forall|i: int| 0 <= i < at implies x[i] == y[i] by {
        assert(a[i] == b[i]);
    }
    assert(x[at] == a[at] as u8);
    assert(y[at] == b[at] as u8);
    assert(x[at] < y[at]);
    lemma_lexical_from(x, y, at, 0);
}

/// Bytes that agree up to a position where the first has the smaller byte
/// are in strict lexical order, from any earlier position on.
proof fn lemma_lexical_from(x: Seq<u8>, y: Seq<u8>, at: int, from: int)
    requires
        0 <= from <= at < x.len(),
        at < y.len(),
        forall|i: int| 0 <= i < at ==> x[i] == y[i],
        x[at] < y[at],
    ensures
        lex_le_from(x, y, from),
        !lex_le_from(y, x, from),
    decreases at - from,
{
    if from < at {
        lemma_lexical_from(x, y, at, from + 1);
    }
}

/// Frame names consist of ASCII characters.
pub proof fn lemma_canvas_name_is_ascii(timestamp: int)
    requires
        i64::MIN <= timestamp <= i64::MAX,
    ensures
        is_ascii_chars(canvas_name(timestamp)),
{
    if timestamp >= 0 {
        lemma_padded_decimal_digits(timestamp, NAME_DIGITS as nat);
    } else {
        lemma_padded_decimal_digits(timestamp + 0x8000_0000_0000_0000, NAME_DIGITS as nat);
    }
}

/// Names sort as timestamps do: of two snapshots, the earlier one's frame
/// has the name that comes strictly first in lexical order.
pub proof fn lemma_canvas_names_sort_by_time(earlier: int, later: int)
    requires
        i64::MIN <= earlier < later <= i64::MAX,
    ensures
        lex_le(encode_utf8(canvas_name(earlier)), encode_utf8(canvas_name(later))),
        !lex_le(encode_utf8(canvas_name(later)), encode_utf8(canvas_name(earlier))),
{
    let a = canvas_name(earlier);
    let b = canvas_name(later);
    lemma_canvas_name_is_ascii(earlier);
    lemma_canvas_name_is_ascii(later);
    assert(pow10(NAME_DIGITS as nat) == 10_000_000_000_000_000_000int) by {
        reveal_with_fuel(pow10, 20);
    }
    let width = NAME_DIGITS as nat;
    if earlier >= 0 {
        lemma_padded_decimal_digits(earlier, width);
        lemma_padded_decimal_digits(later, width);
        let at = lemma_padded_decimal_order(earlier, later, width);
        assert(differ_at(a, b, at));
        lemma_differ_at_is_lexical(a, b, at);
    } else if later < 0 {
        let offset = 0x8000_0000_0000_0000int;
        lemma_padded_decimal_digits(earlier + offset, width);
        lemma_padded_decimal_digits(later + offset, width);
        let at = lemma_padded_decimal_order(earlier + offset, later + offset, width);
        assert(differ_at(a, b, at + 1)) by {
            assert forall|i: int| 0 <= i < at + 1 implies a[i] == b[i] by {
                if i > 0 {
                    assert(a[i] == padded_decimal(earlier + offset, width)[i - 1]);
                    assert(b[i] == padded_decimal(later + offset, width)[i - 1]);
                }
            }
            assert(a[at + 1] == padded_decimal(earlier + offset, width)[at]);
            assert(b[at + 1] == padded_decimal(later + offset, width)[at]);
        }
        lemma_differ_at_is_lexical(a, b, at + 1);
    } else {
        lemma_padded_decimal_digits(later, width);
        assert(a[0] == '-');
        assert(b[0] == padded_decimal(later, width)[0]);
        assert(differ_at(a, b, 0));
        lemma_differ_at_is_lexical(a, b, 0);
    }
}

/// The text of one digit.
fn digit_text(d: u64) -> (text: &'static str)
    requires
        d < 10,
    ensures
        text@ == seq![digit_char(d as int)],
{
    let text = match d {
        0 => "0",
        1 => "1",
        2 => "2",
        3 => "3",
        4 => "4",
        5 => "5",
        6 => "6",
        7 => "7",
        8 => "8",
        _ => "9",
    };
    proof {
        reveal_strlit("0");
        reveal_strlit("1");
        reveal_strlit("2");
        reveal_strlit("3");
        reveal_strlit("4");
        reveal_strlit("5");
        reveal_strlit("6");
        reveal_strlit("7");
        reveal_strlit("8");
        reveal_strlit("9");
        assert(text@ =~= seq![digit_char(d as int)]);
    }
    text
}

/// Appends `value` in decimal with exactly `width` digits.
fn push_padded(text: &mut String, value: u64, width: usize)
    ensures
        final(text)@ == old(text)@ + padded_decimal(value as int, width as nat),
    decreases width,
{
    if width > 0 {
        push_padded(text, value / 10, width - 1);
        text.append(digit_text(value % 10));
        assert(text@ =~= old(text)@ + padded_decimal(value as int, width as nat));
    } else {
        assert(text@ =~= old(text)@ + padded_decimal(value as int, width as nat));
    }
}

/// The name under which the frame of a snapshot is stored.
pub fn canvas_file_name(timestamp: i64) -> (name: String)
    ensures
        name@ == canvas_name(timestamp as int),
{
    let mut name = String::new();
    if timestamp >= 0 {
        push_padded(&mut name, timestamp as u64, NAME_DIGITS);
    } else {
        proof {
            reveal_strlit("-");
        }
        name.append("-");
        push_padded(&mut name, (timestamp - i64::MIN) as u64, NAME_DIGITS);
    }
    proof {
        reveal_strlit(".png");
    }
    name.append(".png");
    assert(name@ =~= canvas_name(timestamp as int));
    name
}

} // verus!
