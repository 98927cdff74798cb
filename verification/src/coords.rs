//! Coordinate files: parsing of `x,y` lines.
//!
//! A coordinate line holds two comma-separated decimal numbers (optional
//! sign, integer digits, optional fraction), and anything after the second
//! comma is ignored — the layout the library itself writes. The grammar and
//! the parsed value are specified exactly over the byte sequence of the
//! line; a line that does not match (including numbers beyond eighteen
//! digits on either side of the point) is rejected.
use vstd::prelude::*;
use vstd::string::StringSliceAdditionalSpecFns;

use crate::errors::MavDACError;
use crate::fx::idiv;
use crate::fx::tdiv;
use crate::fx::Fx;
use crate::fx::FX_SCALE;
use crate::geom::vec2_v;
use crate::geom::Vec2D;

verus! {

/// An ASCII decimal digit.
pub open spec fn is_digit_b(b: u8) -> bool {
    48 <= b <= 57
}

/// The value of a digit string, most significant first.
pub open spec fn digits_val(s: Seq<u8>) -> int
    decreases s.len(),
{
    if s.len() == 0 {
        0
    } else {
        10 * digits_val(s.drop_last()) + (s.last() - 48)
    }
}

/// Every byte is a decimal digit.
pub open spec fn all_digits(s: Seq<u8>) -> bool {
    forall|i: int| 0 <= i < s.len() ==> is_digit_b(#[trigger] s[i])
}

/// Ten to the `n`-th power.
pub open spec fn pow10(n: nat) -> int
    decreases n,
{
    if n == 0 {
        1int
    } else {
        10 * pow10((n - 1) as nat)
    }
}

/// The position of the first occurrence of `b` at or after `i`, or the
/// length when `b` does not occur.
pub open spec fn find_byte(s: Seq<u8>, b: u8, i: int) -> int
    decreases s.len() - i,
{
    if i < 0 || i >= s.len() {
        s.len() as int
    } else if s[i] == b {
        i
    } else {
        find_byte(s, b, i + 1)
    }
}

/// Where the first occurrence sits: between `i` and the length, on `b` when
/// inside, with nothing but non-`b` bytes before it.
pub proof fn lemma_find_byte(s: Seq<u8>, b: u8, i: int)
    requires
        0 <= i <= s.len(),
    ensures
        i <= find_byte(s, b, i) <= s.len(),
        find_byte(s, b, i) < s.len() ==> s[find_byte(s, b, i)] == b,
        forall|j: int| i <= j < find_byte(s, b, i) ==> s[j] != b,
    decreases s.len() - i,
{
    if i < s.len() && s[i] != b {
        lemma_find_byte(s, b, i + 1);
    }
}

/// Whether the number starts with a minus sign.
pub open spec fn num_neg(s: Seq<u8>) -> bool {
    s.len() > 0 && s[0] == 45
}

/// The number with its sign stripped.
pub open spec fn num_body(s: Seq<u8>) -> Seq<u8> {
    if num_neg(s) {
        s.skip(1)
    } else {
        s
    }
}

/// A well-formed decimal number: after the optional sign, digits with at
/// most one decimal point somewhere among them, at least one digit in all,
/// and at most eighteen digits on either side of the point.
pub open spec fn num_wf(s: Seq<u8>) -> bool {
    let body = num_body(s);
    let p = find_byte(body, 46, 0);
    &&& body.len() > 0
    &&& (p < body.len() ==> body.len() > 1)
    &&& (forall|i: int| 0 <= i < body.len() && i != p ==> is_digit_b(#[trigger] body[i]))
    &&& p <= 18
    &&& (if p < body.len() {
        body.len() - p - 1
    } else {
        0int
    }) <= 18
}

/// The fixed-point mantissa a well-formed decimal number denotes: integer
/// digits scaled exactly, fractional digits scaled and truncated toward
/// zero at the last mantissa bit.
pub open spec fn num_val(s: Seq<u8>) -> int {
    let body = num_body(s);
    let p = find_byte(body, 46, 0);
    let ip = body.take(p);
    let fp = if p < body.len() {
        body.skip(p + 1)
    } else {
        Seq::empty()
    };
    let mag = digits_val(ip) * FX_SCALE + tdiv(digits_val(fp) * FX_SCALE, pow10(fp.len()));
    if num_neg(s) {
        -mag
    } else {
        mag
    }
}

/// The parse of one coordinate line: the first comma-separated field is the
/// x ordinate, the second the y ordinate, anything later is ignored. `None`
/// when the second field is missing or either field is not a well-formed
/// number.
pub open spec fn spec_parse_coordinate(s: Seq<u8>) -> Option<(int, int)> {
    let c1 = find_byte(s, 44, 0);
    if c1 >= s.len() {
        None
    } else {
        let xseg = s.take(c1);
        let rest = s.skip(c1 + 1);
        let c2 = find_byte(rest, 44, 0);
        let yseg = rest.take(c2);
        if num_wf(xseg) && num_wf(yseg) {
            Some((num_val(xseg), num_val(yseg)))
        } else {
            None
        }
    }
}

/// A digit string's value is nonnegative and below ten to its length.
pub proof fn lemma_digits_val_bound(s: Seq<u8>)
    requires
        all_digits(s),
    ensures
        0 <= digits_val(s) < pow10(s.len()),
    decreases s.len(),
{
    if s.len() > 0 {
        assert(all_digits(s.drop_last())) by {
            assert(forall|i: int|
                0 <= i < s.len() - 1 ==> #[trigger] s.drop_last()[i] == s[i]);
        }
        lemma_digits_val_bound(s.drop_last());
        let prev = digits_val(s.drop_last());
        assert(0 <= 10 * prev + (s.last() - 48) < 10 * pow10(s.drop_last().len()))
            by (nonlinear_arith)
            requires
                0 <= prev < pow10(s.drop_last().len()),
                48 <= s.last() <= 57,
        ;
    }
}

/// Powers of ten grow with the exponent.
pub proof fn lemma_pow10_mono(a: nat, b: nat)
    requires
        a <= b,
    ensures
        0 < pow10(a) <= pow10(b),
    decreases b,
{
    if b > 0 {
        if a == b {
            lemma_pow10_mono((a - 1) as nat, (b - 1) as nat);
        } else {
            lemma_pow10_mono(a, (b - 1) as nat);
        }
    }
}

/// Skipping over bytes that are not `b` does not move the first occurrence.
proof fn lemma_find_byte_prefix(s: Seq<u8>, b: u8, k: int)
    requires
        0 <= k <= s.len(),
        forall|j: int| 0 <= j < k ==> s[j] != b,
    ensures
        find_byte(s, b, 0) == find_byte(s, b, k),
    decreases k,
{
    if k > 0 {
        lemma_find_byte_prefix(s, b, k - 1);
    }
}

/// A coordinate: the position of one reference point, exchanged through
/// coordinate files.
#[derive(Clone, Copy, Debug, PartialEq, Eq, Structural)]
pub struct Coordinate {
    pub pos: Vec2D,
}

impl Coordinate {
    /// Get the coordinate position as an `(x, y)` pair.
    pub fn pos(&self) -> (r: (Fx, Fx))
        ensures
            r.0 == self.pos.x,
            r.1 == self.pos.y,
    {
        (self.pos.x, self.pos.y)
    }

    /// Parse one coordinate line. Fails exactly when the line does not hold
    /// two comma-separated well-formed decimal numbers.
    pub fn parse(s: &str) -> (r: Result<Coordinate, MavDACError>)
        ensures
            match r {
                Ok(c) => spec_parse_coordinate(s.spec_bytes()) matches Some(v) && c.pos == vec2_v(
                    v.0,
                    v.1,
                ),
                Err(e) => e == MavDACError::Coordinate && spec_parse_coordinate(s.spec_bytes())
                    is None,
            },
    {
        let bytes = s.as_bytes();
        let n = bytes.len();
        proof {
            lemma_find_byte(bytes@, 44, 0);
        }
        let c1 = find_byte_exec(bytes, 44, 0);
        if c1 >= n {
            return Err(MavDACError::Coordinate);
        }
        proof {
            lemma_find_byte(bytes@.skip(c1 + 1), 44, 0);
        }
        let c2r = find_byte_exec_from(bytes, 44, c1 + 1);
        let ghost rest = bytes@.skip(c1 + 1);
        proof {
            assert(bytes@.take(c1 as int) =~= bytes@.subrange(0, c1 as int));
            assert(rest.take(c2r - (c1 + 1)) =~= bytes@.subrange(c1 + 1, c2r as int));
        }
        let x = match parse_num(bytes, 0, c1) {
            Ok(v) => v,
            Err(e) => {
                return Err(e);
            },
        };
        let y = match parse_num(bytes, c1 + 1, c2r) {
            Ok(v) => v,
            Err(e) => {
                return Err(e);
            },
        };
        Ok(Coordinate { pos: Vec2D { x, y } })
    }
}

/// First occurrence of a byte, scanning from the start of the slice.
fn find_byte_exec(bytes: &[u8], b: u8, start: usize) -> (r: usize)
    requires
        start <= bytes@.len(),
    ensures
        r == find_byte(bytes@, b, start as int),
        start <= r <= bytes@.len(),
{
    proof {
        lemma_find_byte(bytes@, b, start as int);
    }
    let n = bytes.len();
    let mut i = start;
    while i < n
        invariant
            start <= i <= n,
            n == bytes@.len(),
            find_byte(bytes@, b, start as int) == find_byte(bytes@, b, i as int),
        decreases n - i,
    {
        if bytes[i] == b {
            return i;
        }
        i = i + 1;
    }
    proof {
        lemma_find_byte(bytes@, b, n as int);
    }
    n
}

/// First occurrence of a byte within the tail of the slice that starts at
/// `start`, as a position in the whole slice (the slice length when absent);
/// the specification speaks of the tail sequence.
fn find_byte_exec_from(bytes: &[u8], b: u8, start: usize) -> (r: usize)
    requires
        start <= bytes@.len(),
    ensures
        r - start == find_byte(bytes@.skip(start as int), b, 0),
        start <= r <= bytes@.len(),
{
    proof {
        lemma_find_byte(bytes@.skip(start as int), b, 0);
    }
    let n = bytes.len();
    let mut i = start;
    while i < n
        invariant
            start <= i <= n,
            n == bytes@.len(),
            find_byte(bytes@.skip(start as int), b, 0) == find_byte(
                bytes@.skip(start as int),
                b,
                i - start,
            ),
        decreases n - i,
    {
        proof {
            assert(bytes@.skip(start as int)[i - start] == bytes@[i as int]);
        }
        if bytes[i] == b {
            return i;
        }
        i = i + 1;
    }
    n
}

/// Parse the decimal number held in `bytes[start..end)` into a fixed-point
/// value; the contract is exact over the byte subrange.
fn parse_num(bytes: &[u8], start: usize, end: usize) -> (r: Result<Fx, MavDACError>)
    requires
        start <= end <= bytes@.len(),
    ensures
        match r {
            Ok(v) => num_wf(bytes@.subrange(start as int, end as int)) && v@ == num_val(
                bytes@.subrange(start as int, end as int),
            ),
            Err(e) => e == MavDACError::Coordinate && !num_wf(
                bytes@.subrange(start as int, end as int),
            ),
        },
{
    let ghost seg = bytes@.subrange(start as int, end as int);
    if start == end {
        return Err(MavDACError::Coordinate);
    }
    let neg = bytes[start] == 45;
    let bstart = if neg {
        start + 1
    } else {
        start
    };
    let ghost body = num_body(seg);
    proof {
        assert(body =~= bytes@.subrange(bstart as int, end as int));
    }
    let blen = end - bstart;
    if blen == 0 {
        return Err(MavDACError::Coordinate);
    }
    // locate the decimal point and check every other byte is a digit
    let mut k: usize = 0;
    let mut dotk: usize = blen;
    while k < blen
        invariant
            start <= bstart <= end <= bytes@.len(),
            bstart + blen == end,
            body == bytes@.subrange(bstart as int, end as int),
            body == num_body(bytes@.subrange(start as int, end as int)),
            body.len() == blen,
            k <= blen,
            dotk <= blen,
            dotk < blen ==> dotk < k && body[dotk as int] == 46 && dotk == find_byte(body, 46, 0),
            dotk == blen ==> (forall|j: int| 0 <= j < k ==> body[j] != 46),
            forall|i: int| 0 <= i < k && i != dotk ==> is_digit_b(#[trigger] body[i]),
        decreases blen - k,
    {
        let c = bytes[bstart + k];
        if c == 46 {
            if dotk == blen {
                proof {
                    lemma_find_byte_prefix(body, 46, k as int);
                }
                dotk = k;
            } else {
                // a second decimal point: position k is neither the first
                // point nor a digit, so the number is malformed
                proof {
                    assert(!is_digit_b(body[k as int]));
                    assert(!num_wf(bytes@.subrange(start as int, end as int)));
                }
                return Err(MavDACError::Coordinate);
            }
        } else if c < 48 || c > 57 {
            proof {
                lemma_find_byte(body, 46, 0);
                if dotk == blen {
                    lemma_find_byte_prefix(body, 46, k as int);
                }
                assert(!is_digit_b(body[k as int]));
                assert(find_byte(body, 46, 0) != k);
                assert(!num_wf(bytes@.subrange(start as int, end as int)));
            }
            return Err(MavDACError::Coordinate);
        }
        k = k + 1;
    }
    proof {
        if dotk == blen {
            lemma_find_byte_prefix(body, 46, blen as int);
        }
        assert(dotk == find_byte(body, 46, 0));
    }
    if dotk < blen && blen == 1 {
        return Err(MavDACError::Coordinate);
    }
    let iplen = dotk;
    let fplen = if dotk < blen {
        blen - dotk - 1
    } else {
        0
    };
    if iplen > 18 || fplen > 18 {
        return Err(MavDACError::Coordinate);
    }
    let ghost ip = body.take(dotk as int);
    let ghost fp = if dotk < blen {
        body.skip(dotk + 1)
    } else {
        Seq::<u8>::empty()
    };
    proof {
        assert(all_digits(ip));
        assert(all_digits(fp));
        lemma_digits_val_bound(ip);
        lemma_digits_val_bound(fp);
        lemma_pow10_mono(ip.len(), 18);
        lemma_pow10_mono(fp.len(), 18);
        reveal_with_fuel(pow10, 20);
    }
    // integer digits
    let mut acc: i128 = 0;
    let mut k2: usize = 0;
    while k2 < iplen
        invariant
            bstart + blen == end,
            end <= bytes@.len(),
            body == bytes@.subrange(bstart as int, end as int),
            body.len() == blen,
            ip == body.take(iplen as int),
            iplen <= blen,
            iplen <= 18,
            all_digits(ip),
            k2 <= iplen,
            acc == digits_val(ip.take(k2 as int)),
            0 <= acc < 1000000000000000000,
        decreases iplen - k2,
    {
        proof {
            assert(ip.take(k2 + 1).drop_last() =~= ip.take(k2 as int));
            assert(all_digits(ip.take(k2 + 1)));
            lemma_digits_val_bound(ip.take(k2 + 1));
            lemma_pow10_mono(ip.take(k2 + 1).len(), 18);
            reveal_with_fuel(pow10, 20);
        }
        let c = bytes[bstart + k2];
        acc = 10 * acc + ((c - 48) as i128);
        k2 = k2 + 1;
    }
    proof {
        assert(ip.take(iplen as int) =~= ip);
    }
    // fractional digits
    let mut facc: i128 = 0;
    let mut p10: i128 = 1;
    let mut k3: usize = 0;
    while k3 < fplen
        invariant
            bstart + blen == end,
            end <= bytes@.len(),
            body == bytes@.subrange(bstart as int, end as int),
            body.len() == blen,
            dotk < blen || fplen == 0,
            fplen == (if dotk < blen {
                blen - dotk - 1
            } else {
                0
            }),
            fp == (if dotk < blen {
                body.skip(dotk + 1)
            } else {
                Seq::<u8>::empty()
            }),
            fplen <= 18,
            fp.len() == fplen,
            all_digits(fp),
            k3 <= fplen,
            facc == digits_val(fp.take(k3 as int)),
            0 <= facc < 1000000000000000000,
            p10 == pow10(k3 as nat),
            0 < p10 <= 1000000000000000000,
        decreases fplen - k3,
    {
        proof {
            assert(fp.take(k3 + 1).drop_last() =~= fp.take(k3 as int));
            assert(all_digits(fp.take(k3 + 1)));
            lemma_digits_val_bound(fp.take(k3 + 1));
            lemma_pow10_mono(fp.take(k3 + 1).len(), 18);
            lemma_pow10_mono((k3 + 1) as nat, 18);
            reveal_with_fuel(pow10, 20);
            assert(fp[k3 as int] == body[dotk + 1 + k3]);
        }
        let c = bytes[bstart + dotk + 1 + k3];
        facc = 10 * facc + ((c - 48) as i128);
        p10 = 10 * p10;
        k3 = k3 + 1;
    }
    proof {
        assert(fp.take(fplen as int) =~= fp);
    }
    let frac: i128 = idiv(facc * FX_SCALE, p10);
    let mag: i128 = acc * FX_SCALE + frac;
    proof {
        crate::fx::lemma_tdiv_mag(facc as int * FX_SCALE, p10 as int, 1000000000000000000 * (
        FX_SCALE as int));
    }
    let m: i128 = if neg {
        -mag
    } else {
        mag
    };
    Ok(Fx { m })
}

} // verus!
