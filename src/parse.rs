//! Reading a point from text such as `"(3, -2)"`.
use crate::coord::Cartesian;
use vstd::prelude::*;
use vstd::string::StringSliceAdditionalSpecFns;

verus! {

/// Why a point could not be read.
#[derive(Clone, Copy, Debug, PartialEq, Eq, Structural)]
pub enum ParseCoordError {
    /// A coordinate is empty.
    Empty,
    /// A coordinate holds a byte that is not a digit where a digit must stand.
    InvalidDigit,
    /// A coordinate is above `i32::MAX`.
    PosOverflow,
    /// A coordinate is below `i32::MIN`.
    NegOverflow,
    /// The text has no comma between the coordinates.
    MissingComma,
}

/// ASCII whitespace: space, tab, line feed, vertical tab, form feed, carriage return. Other
/// Unicode whitespace, such as U+00A0 or U+3000, is not trimmed, and a coordinate next to it
/// reads as `InvalidDigit`.
pub open spec fn is_ws(b: u8) -> bool {
    b == 32 || (9 <= b <= 13)
}

/// A byte that trimming removes: a parenthesis, or else whitespace.
pub open spec fn trims(b: u8, paren: bool) -> bool {
    if paren {
        b == 40 || b == 41
    } else {
        is_ws(b)
    }
}

/// `t` without its leading bytes that `trims` removes.
pub open spec fn skip_front(t: Seq<u8>, paren: bool) -> Seq<u8>
    decreases t.len(),
{
    if t.len() > 0 && trims(t[0], paren) {
        skip_front(t.skip(1), paren)
    } else {
        t
    }
}

/// `t` without its trailing bytes that `trims` removes.
pub open spec fn skip_back(t: Seq<u8>, paren: bool) -> Seq<u8>
    decreases t.len(),
{
    if t.len() > 0 && trims(t.last(), paren) {
        skip_back(t.drop_last(), paren)
    } else {
        t
    }
}

/// `t` trimmed at both ends.
pub open spec fn trimmed(t: Seq<u8>, paren: bool) -> Seq<u8> {
    skip_back(skip_front(t, paren), paren)
}

/// The position of the first comma in `t`, or its length where it has none.
pub open spec fn first_comma(t: Seq<u8>) -> int
    decreases t.len(),
{
    if t.len() == 0 {
        0
    } else if first_comma(t.drop_last()) < t.len() - 1 {
        first_comma(t.drop_last())
    } else if t.last() == 44 {
        t.len() - 1
    } else {
        t.len() as int
    }
}

pub open spec fn is_digit(b: u8) -> bool {
    48 <= b <= 57
}

/// Reads the digits `d` from the left, adding each to the value with the sign given by `neg`,
/// and stops at the first byte that is not a digit or the first value outside `i32`.
pub open spec fn accumulate(d: Seq<u8>, neg: bool) -> Result<int, ParseCoordError>
    decreases d.len(),
{
    if d.len() == 0 {
        Ok(0)
    } else {
        match accumulate(d.drop_last(), neg) {
            Err(e) => Err(e),
            Ok(v) => if !is_digit(d.last()) {
                Err(ParseCoordError::InvalidDigit)
            } else {
                let w = if neg {
                    v * 10 - (d.last() - 48)
                } else {
                    v * 10 + (d.last() - 48)
                };
                if w > i32::MAX {
                    Err(ParseCoordError::PosOverflow)
                } else if w < i32::MIN {
                    Err(ParseCoordError::NegOverflow)
                } else {
                    Ok(w)
                }
            },
        }
    }
}

/// The `i32` that `t` spells in decimal, with an optional sign.
pub open spec fn int_of(t: Seq<u8>) -> Result<i32, ParseCoordError> {
    if t.len() == 0 {
        Err(ParseCoordError::Empty)
    } else {
        let signed = t[0] == 43 || t[0] == 45;
        let d = if signed {
            t.skip(1)
        } else {
            t
        };
        if d.len() == 0 {
            Err(ParseCoordError::InvalidDigit)
        } else {
            match accumulate(d, t[0] == 45) {
                Ok(v) => Ok(v as i32),
                Err(e) => Err(e),
            }
        }
    }
}

/// The point that `s` spells: parentheses trimmed from both ends, then the whitespace-trimmed
/// text before the first comma as `x`, and that after it, up to any further comma, as `y`.
pub open spec fn coord_of(s: Seq<u8>) -> Result<Cartesian, ParseCoordError> {
    let t = trimmed(s, true);
    let c = first_comma(t);
    match int_of(trimmed(t.subrange(0, c), false)) {
        Err(e) => Err(e),
        Ok(x) => if c == t.len() {
            Err(ParseCoordError::MissingComma)
        } else {
            let rest = t.subrange(c + 1, t.len() as int);
            match int_of(trimmed(rest.subrange(0, first_comma(rest)), false)) {
                Err(e) => Err(e),
                Ok(y) => Ok(Cartesian { x, y }),
            }
        },
    }
}

fn trims_byte(b: u8, paren: bool) -> (r: bool)
    ensures
        r == trims(b, paren),
{
    if paren {
        b == 40 || b == 41
    } else {
        b == 32 || (9 <= b && b <= 13)
    }
}

/// The bounds of `b[lo..hi]` trimmed at both ends.
fn trim_range(b: &[u8], lo: usize, hi: usize, paren: bool) -> (r: (usize, usize))
    requires
        lo <= hi <= b@.len(),
    ensures
        lo <= r.0 <= r.1 <= hi,
        b@.subrange(r.0 as int, r.1 as int) == trimmed(b@.subrange(lo as int, hi as int), paren),
{
    let mut i = lo;
    while i < hi && trims_byte(b[i], paren)
        invariant
            lo <= i <= hi <= b@.len(),
            skip_front(b@.subrange(lo as int, hi as int), paren) == skip_front(
                b@.subrange(i as int, hi as int),
                paren,
            ),
        decreases hi - i,
    {
        assert(b@.subrange(i as int, hi as int).skip(1) =~= b@.subrange(i + 1, hi as int));
        i += 1;
    }
    let mut j = hi;
    while j > i && trims_byte(b[j - 1], paren)
        invariant
            lo <= i <= j <= hi <= b@.len(),
            skip_front(b@.subrange(lo as int, hi as int), paren) == b@.subrange(i as int, hi as int),
            skip_back(b@.subrange(i as int, hi as int), paren) == skip_back(
                b@.subrange(i as int, j as int),
                paren,
            ),
        decreases j - i,
    {
        assert(b@.subrange(i as int, j as int).drop_last() =~= b@.subrange(i as int, j - 1));
        j -= 1;
    }
    (i, j)
}

proof fn lemma_first_comma_prefix(t: Seq<u8>, k: int)
    requires
        0 <= k <= t.len(),
        first_comma(t.subrange(0, k)) < k,
    ensures
        first_comma(t) == first_comma(t.subrange(0, k)),
    decreases t.len() - k,
{
    if k < t.len() {
        assert(t.subrange(0, k + 1).drop_last() =~= t.subrange(0, k));
        lemma_first_comma_prefix(t, k + 1);
    } else {
        assert(t.subrange(0, k) =~= t);
    }
}

/// The position of the first comma in `b[lo..hi]`, or `hi`.
fn find_comma(b: &[u8], lo: usize, hi: usize) -> (r: usize)
    requires
        lo <= hi <= b@.len(),
    ensures
        lo <= r <= hi,
        r - lo == first_comma(b@.subrange(lo as int, hi as int)),
{
    let ghost t = b@.subrange(lo as int, hi as int);
    let mut i = lo;
    assert(t.subrange(0, 0).len() == 0);
    while i < hi
        invariant
            lo <= i <= hi <= b@.len(),
            t == b@.subrange(lo as int, hi as int),
            first_comma(t.subrange(0, i - lo)) == i - lo,
        decreases hi - i,
    {
        assert(t.subrange(0, i - lo + 1).drop_last() =~= t.subrange(0, i - lo));
        if b[i] == 44 {
            proof {
                lemma_first_comma_prefix(t, i - lo + 1);
            }
            return i;
        }
        i += 1;
    }
    assert(t.subrange(0, i - lo) =~= t);
    i
}

/// The `i32` that `b[lo..hi]` spells.
fn parse_int(b: &[u8], lo: usize, hi: usize) -> (r: Result<i32, ParseCoordError>)
    requires
        lo <= hi <= b@.len(),
    ensures
        r == int_of(b@.subrange(lo as int, hi as int)),
{
    let ghost t = b@.subrange(lo as int, hi as int);
    if lo == hi {
        return Err(ParseCoordError::Empty);
    }
    let neg = b[lo] == 45;
    let start = if b[lo] == 43 || b[lo] == 45 {
        lo + 1
    } else {
        lo
    };
    if start == hi {
        return Err(ParseCoordError::InvalidDigit);
    }
    let ghost d = b@.subrange(start as int, hi as int);
    assert(d =~= (if t[0] == 43 || t[0] == 45 {
        t.skip(1)
    } else {
        t
    }));
    let mut v: i64 = 0;
    let mut i = start;
    assert(d.subrange(0, 0) =~= Seq::<u8>::empty());
    while i < hi
        invariant
            lo <= start <= i <= hi <= b@.len(),
            lo < hi,
            start < hi,
            t == b@.subrange(lo as int, hi as int),
            d == b@.subrange(start as int, hi as int),
            d == (if t[0] == 43 || t[0] == 45 {
                t.skip(1)
            } else {
                t
            }),
            neg == (b@[lo as int] == 45),
            i32::MIN <= v <= i32::MAX,
            accumulate(d.subrange(0, i - start), neg) == Ok::<int, ParseCoordError>(v as int),
        decreases hi - i,
    {
        assert(d.subrange(0, i - start + 1).drop_last() =~= d.subrange(0, i - start));
        let c = b[i];
        assert(d.subrange(0, i - start + 1).last() == c);
        assert(t[0] == b@[lo as int]);
        if !(48 <= c && c <= 57) {
            assert(accumulate(d.subrange(0, i - start + 1), neg) == Err::<int, ParseCoordError>(
                ParseCoordError::InvalidDigit,
            ));
            proof {
                lemma_accumulate_stops(d, i - start + 1, neg);
            }
            return Err(ParseCoordError::InvalidDigit);
        }
        let digit = (c - 48) as i64;
        let w: i64 = if neg {
            v * 10 - digit
        } else {
            v * 10 + digit
        };
        if w > i32::MAX as i64 {
            assert(accumulate(d.subrange(0, i - start + 1), neg) == Err::<int, ParseCoordError>(
                ParseCoordError::PosOverflow,
            ));
            proof {
                lemma_accumulate_stops(d, i - start + 1, neg);
            }
            return Err(ParseCoordError::PosOverflow);
        }
        if w < i32::MIN as i64 {
            assert(accumulate(d.subrange(0, i - start + 1), neg) == Err::<int, ParseCoordError>(
                ParseCoordError::NegOverflow,
            ));
            proof {
                lemma_accumulate_stops(d, i - start + 1, neg);
            }
            return Err(ParseCoordError::NegOverflow);
        }
        v = w;
        i += 1;
    }
    assert(d.subrange(0, i - start) =~= d);
    Ok(v as i32)
}

/// Once reading stops with an error, later bytes do not change it.
proof fn lemma_accumulate_stops(d: Seq<u8>, k: int, neg: bool)
    requires
        0 <= k <= d.len(),
        accumulate(d.subrange(0, k), neg) is Err,
    ensures
        accumulate(d, neg) == accumulate(d.subrange(0, k), neg),
    decreases d.len() - k,
{
    if k < d.len() {
        assert(d.subrange(0, k + 1).drop_last() =~= d.subrange(0, k));
        lemma_accumulate_stops(d, k + 1, neg);
    } else {
        assert(d.subrange(0, k) =~= d);
    }
}

impl Cartesian {
    /// Reads a point written as `"(x, y)"`; the parentheses may be left out, and ASCII
    /// whitespace may stand around each coordinate.
    pub fn parse(s: &str) -> (r: Result<Cartesian, ParseCoordError>)
        ensures
            r == coord_of(s.spec_bytes()),
    {
        let b = s.as_bytes();
        let ghost sb = b@;
        let (lo, hi) = trim_range(b, 0, b.len(), true);
        let ghost t = b@.subrange(lo as int, hi as int);
        assert(b@.subrange(0, b@.len() as int) =~= sb);
        let c = find_comma(b, lo, hi);
        assert(t.subrange(0, c - lo) =~= b@.subrange(lo as int, c as int));
        let (xl, xh) = trim_range(b, lo, c, false);
        let x = match parse_int(b, xl, xh) {
            Ok(x) => x,
            Err(e) => {
                return Err(e);
            },
        };
        if c == hi {
            return Err(ParseCoordError::MissingComma);
        }
        let ghost rest = t.subrange(c - lo + 1, t.len() as int);
        assert(rest =~= b@.subrange(c + 1, hi as int));
        let c2 = find_comma(b, c + 1, hi);
        assert(rest.subrange(0, c2 - (c + 1)) =~= b@.subrange(c + 1, c2 as int));
        let (yl, yh) = trim_range(b, c + 1, c2, false);
        let y = match parse_int(b, yl, yh) {
            Ok(y) => y,
            Err(e) => {
                return Err(e);
            },
        };
        Ok(Cartesian { x: x, y: y })
    }
}

impl std::str::FromStr for Cartesian {
    type Err = ParseCoordError;

    fn from_str(s: &str) -> (r: Result<Cartesian, ParseCoordError>)
        ensures
            r == coord_of(s.spec_bytes()),
    {
        Cartesian::parse(s)
    }
}

} // verus!
