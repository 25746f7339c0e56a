//! Tiles and their file names.
//!
//! A tile file is named `<quadrant>-<timestamp>.<ext>`: the id of the
//! quadrant it covers, a dash, the timestamp of the snapshot it belongs to,
//! then anything from the next dot or dash on. Both numbers are decimal, with
//! an optional plus sign in front.
use crate::error::Error;
use crate::layout::TILE_SIZE;
use vstd::prelude::*;
use vstd::string::StringSliceAdditionalSpecFns;

verus! {

/// The byte `-`.
pub const DASH: u8 = 0x2d;

/// The byte `.`.
pub const DOT: u8 = 0x2e;

/// The byte `+`.
pub const PLUS: u8 = 0x2b;

/// The byte `0`.
pub const ZERO: u8 = 0x30;

/// What a tile's file name says: which quadrant, of which snapshot.
#[derive(Clone, Copy, Debug, PartialEq, Eq, Structural, Hash)]
pub struct TileKey {
    /// The quadrant id, 0 to 3.
    pub quadrant: u8,
    /// The timestamp of the snapshot.
    pub timestamp: i64,
}

impl TileKey {
    /// The quadrant id is one of the four.
    pub open spec fn wf(&self) -> bool {
        self.quadrant < 4
    }
}

/// Where a quadrant's region starts in the frame, in pixels from the left
/// and from the top: 0 top left, 1 top right, 2 bottom left, 3 bottom right.
pub open spec fn quadrant_origin(quadrant: int) -> (int, int) {
    ((quadrant % 2) * TILE_SIZE, (quadrant / 2) * TILE_SIZE)
}

/// Where a quadrant's region starts in the frame.
pub fn quadrant_offset(quadrant: u8) -> (origin: (usize, usize))
    requires
        quadrant < 4,
    ensures
        origin.0 == quadrant_origin(quadrant as int).0,
        origin.1 == quadrant_origin(quadrant as int).1,
{
    match quadrant {
        0 => (0, 0),
        1 => (TILE_SIZE, 0),
        2 => (0, TILE_SIZE),
        _ => (TILE_SIZE, TILE_SIZE),
    }
}

/// Length of the longest prefix of `s` that holds neither `a` nor `b`.
pub open spec fn prefix_len(s: Seq<u8>, a: u8, b: u8) -> nat
    decreases s.len(),
{
    if s.len() == 0 || s[0] == a || s[0] == b {
        0
    } else {
        1 + prefix_len(s.skip(1), a, b)
    }
}

/// Whether `b` is a decimal digit.
pub open spec fn is_digit(b: u8) -> bool {
    0x30 <= b <= 0x39
}

/// Whether `s` holds decimal digits only.
pub open spec fn all_digits(s: Seq<u8>) -> bool {
    forall|i: int| 0 <= i < s.len() ==> is_digit(#[trigger] s[i])
}

/// The number that the decimal digits `s` write.
pub open spec fn decimal_value(s: Seq<u8>) -> int
    decreases s.len(),
{
    if s.len() == 0 {
        0
    } else {
        decimal_value(s.drop_last()) * 10 + (s.last() - 0x30)
    }
}

/// `s` without a plus sign in front.
pub open spec fn unsigned_digits(s: Seq<u8>) -> Seq<u8> {
    if s.len() > 0 && s[0] == PLUS {
        s.skip(1)
    } else {
        s
    }
}

/// The number that `s` writes, if `s` is one or more decimal digits after
/// an optional plus sign and the number is at most `max`.
pub open spec fn parse_unsigned(s: Seq<u8>, max: int) -> Option<int> {
    let digits = unsigned_digits(s);
    if digits.len() > 0 && all_digits(digits) && decimal_value(digits) <= max {
        Some(decimal_value(digits))
    } else {
        None
    }
}

/// What a file name says, or why it is no tile's name.
///
/// The quadrant id is the text before the first dash. It must be a number
/// that fits in 64 bits, else the name is malformed, and at most 3, else the
/// quadrant is unsupported. The timestamp is the text after that dash up to
/// the next dash or dot. It must be a number that fits a signed 64-bit
/// integer, else the name is malformed; so is a name without a dash.
pub open spec fn tile_key_of(name: Seq<u8>) -> Result<TileKey, Error> {
    let dash = prefix_len(name, DASH, DASH) as int;
    match parse_unsigned(name.take(dash), u64::MAX as int) {
        None => Err(Error::Parse),
        Some(quadrant) => if quadrant > 3 {
            Err(Error::UnsupportedQuadrant)
        } else if dash == name.len() {
            Err(Error::Parse)
        } else {
            let rest = name.skip(dash + 1);
            let stop = prefix_len(rest, DASH, DOT) as int;
            match parse_unsigned(rest.take(stop), i64::MAX as int) {
                None => Err(Error::Parse),
                Some(timestamp) => Ok(
                    TileKey { quadrant: quadrant as u8, timestamp: timestamp as i64 },
                ),
            }
        }
    }
}

/// A prefix without `a` and `b` that ends at the end of `s` or before an
/// `a` or `b` is the longest such prefix.
proof fn lemma_prefix_len(s: Seq<u8>, a: u8, b: u8, n: int)
    requires
        0 <= n <= s.len(),
        forall|i: int| 0 <= i < n ==> s[i] != a && s[i] != b,
        n == s.len() || s[n] == a || s[n] == b,
    ensures
        prefix_len(s, a, b) == n,
    decreases n,
{
    if n > 0 {
        let t = s.skip(1);
        assert forall|i: int| 0 <= i < n - 1 implies t[i] != a && t[i] != b by {
            assert(t[i] == s[i + 1]);
        }
        lemma_prefix_len(t, a, b, n - 1);
    }
}

/// The digits of a number are worth at least any prefix of them.
proof fn lemma_decimal_value_prefix(s: Seq<u8>, k: int)
    requires
        all_digits(s),
        0 <= k <= s.len(),
    ensures
        0 <= decimal_value(s.take(k)) <= decimal_value(s),
    decreases s.len() - k,
{
    if k == s.len() {
        assert(s.take(k) =~= s);
        lemma_decimal_value_nonnegative(s);
    } else {
        lemma_decimal_value_prefix(s, k + 1);
        let t = s.take(k + 1);
        assert(t.drop_last() =~= s.take(k));
        assert(t.last() == s[k]);
        assert(all_digits(s.take(k))) by {
            assert forall|i: int| 0 <= i < k implies is_digit(#[trigger] s.take(k)[i]) by {
                assert(s.take(k)[i] == s[i]);
            }
        }
        lemma_decimal_value_nonnegative(s.take(k));
    }
}

/// Digits write no negative number.
proof fn lemma_decimal_value_nonnegative(s: Seq<u8>)
    requires
        all_digits(s),
    ensures
        0 <= decimal_value(s),
    decreases s.len(),
{
    if s.len() > 0 {
        let t = s.drop_last();
        assert forall|i: int| 0 <= i < t.len() implies is_digit(#[trigger] t[i]) by {
            assert(t[i] == s[i]);
        }
        lemma_decimal_value_nonnegative(t);
    }
}

/// Finds the first `a` or `b` in `bytes` at or after `from`, or the end.
fn scan(bytes: &[u8], from: usize, a: u8, b: u8) -> (at: usize)
    requires
        from <= bytes@.len(),
    ensures
        from <= at <= bytes@.len(),
        at - from == prefix_len(bytes@.skip(from as int), a, b),
{
    let mut at = from;
    while at < bytes.len() && bytes[at] != a && bytes[at] != b
        invariant
            from <= at <= bytes@.len(),
            forall|i: int| from <= i < at ==> bytes@[i] != a && bytes@[i] != b,
        decreases bytes@.len() - at,
    {
        at += 1;
    }
    proof {
        lemma_prefix_len(bytes@.skip(from as int), a, b, at - from);
    }
    at
}

/// Reads the number written in `bytes[from..to]`.
fn parse_decimal(bytes: &[u8], from: usize, to: usize, max: u64) -> (r: Option<u64>)
    requires
        from <= to <= bytes@.len(),
    ensures
        match r {
            Some(v) => parse_unsigned(bytes@.subrange(from as int, to as int), max as int) == Some(
                v as int,
            ),
            None => parse_unsigned(bytes@.subrange(from as int, to as int), max as int) is None,
        },
{
    let ghost text = bytes@.subrange(from as int, to as int);
    let start = if from < to && bytes[from] == PLUS {
        from + 1
    } else {
        from
    };
    let ghost digits = bytes@.subrange(start as int, to as int);
    assert(digits =~= unsigned_digits(text));
    if start == to {
        return None;
    }
    let mut value: u64 = 0;
    let mut at = start;
    while at < to
        invariant
            from <= start <= at <= to <= bytes@.len(),
            digits == bytes@.subrange(start as int, to as int),
            digits == unsigned_digits(bytes@.subrange(from as int, to as int)),
            all_digits(digits.take(at - start)),
            value == decimal_value(digits.take(at - start)),
            value <= max,
        decreases to - at,
    {
        let b = bytes[at];
        if b < 0x30 || b > 0x39 {
            assert(!is_digit(digits[at - start]));
            return None;
        }
        let ghost longer = digits.take(at - start + 1);
        proof {
            assert(longer.drop_last() =~= digits.take(at - start));
            assert(longer.last() == b);
            assert forall|i: int| 0 <= i < longer.len() implies is_digit(#[trigger] longer[i]) by {
                if i < at - start {
                    assert(longer[i] == digits.take(at - start)[i]);
                }
            }
        }
        let next = value as u128 * 10 + (b - 0x30) as u128;
        if next > max as u128 {
            proof {
                if all_digits(digits) {
                    lemma_decimal_value_prefix(digits, at - start + 1);
                }
            }
            return None;
        }
        value = next as u64;
        at += 1;
    }
    assert(digits.take(at - start) =~= digits);
    Some(value)
}

/// Reads a tile's file name.
///
/// Fails with `Error::Parse` where a number is missing or is no number, and
/// with `Error::UnsupportedQuadrant` where the quadrant id is a number
/// above 3.
pub fn parse_tile_name(name: &str) -> (r: Result<TileKey, Error>)
    ensures
        r == tile_key_of(name.spec_bytes()),
        r matches Ok(key) ==> key.wf() && key.timestamp >= 0,
{
    let bytes = name.as_bytes();
    let dash = scan(bytes, 0, DASH, DASH);
    assert(bytes@.skip(0) =~= bytes@);
    assert(bytes@.take(dash as int) =~= bytes@.subrange(0, dash as int));
    let quadrant = match parse_decimal(bytes, 0, dash, u64::MAX) {
        Some(q) => q,
        None => {
            return Err(Error::Parse);
        },
    };
    if quadrant > 3 {
        return Err(Error::UnsupportedQuadrant);
    }
    if dash == bytes.len() {
        return Err(Error::Parse);
    }
    let stop = scan(bytes, dash + 1, DASH, DOT);
    proof {
        let rest = bytes@.skip(dash + 1);
        assert(rest.take(stop - dash - 1) =~= bytes@.subrange(dash + 1, stop as int));
    }
    match parse_decimal(bytes, dash + 1, stop, i64::MAX as u64) {
        Some(timestamp) => Ok(TileKey { quadrant: quadrant as u8, timestamp: timestamp as i64 }),
        None => Err(Error::Parse),
    }
}

} // verus!
