//! Numbers as they are written in a field: read lengths and quality scores.
//!
//! A read length is a run of decimal digits, with one `+` before it at most.
//! A quality score is written the same way with at most one `.` in it. A
//! score is kept as the exact decimal that was written, and two scores are
//! compared exactly.

use vstd::prelude::*;
use vstd::slice::slice_subrange;
use crate::table::{lemma_pieces_nonempty, pieces, split, views};

verus! {

/// The byte `+`.
pub const PLUS: u8 = 43;

/// The byte `.`.
pub const DOT: u8 = 46;

/// The most digits that a score may have after its `.`.
pub const MAX_SCALE: u8 = 19;

/// A decimal digit.
pub open spec fn is_digit(b: u8) -> bool {
    48 <= b <= 57
}

/// Every byte is a decimal digit.
pub open spec fn all_digits(s: Seq<u8>) -> bool {
    forall|i: int| 0 <= i < s.len() ==> is_digit(#[trigger] s[i])
}

/// The number that is written when the digits `s` follow digits that are
/// worth `acc`.
pub open spec fn value_from(acc: nat, s: Seq<u8>) -> nat
    decreases s.len(),
{
    if s.len() == 0 {
        acc
    } else {
        value_from(acc, s.drop_last()) * 10 + (s.last() - 48) as nat
    }
}

/// `s` without a `+` at its start.
pub open spec fn unsigned(s: Seq<u8>) -> Seq<u8> {
    if s.len() > 0 && s.first() == PLUS {
        s.drop_first()
    } else {
        s
    }
}

/// What the digits `s` make of `acc`, where every byte is a digit and the
/// number fits 64 bits.
pub open spec fn read_from(acc: nat, s: Seq<u8>) -> Option<u64> {
    if all_digits(s) && value_from(acc, s) <= u64::MAX {
        Some(value_from(acc, s) as u64)
    } else {
        None
    }
}

/// The read length that `s` writes: at least one digit after at most one `+`,
/// and a number that fits 64 bits.
pub open spec fn parsed_u64(s: Seq<u8>) -> Option<u64> {
    if unsigned(s).len() > 0 {
        read_from(0, unsigned(s))
    } else {
        None
    }
}

/// Ten to the power `n`.
pub open spec fn pow10(n: nat) -> nat
    decreases n,
{
    if n == 0 {
        1
    } else {
        10 * pow10((n - 1) as nat)
    }
}

/// The digits and the scale of the score that `s` writes, the score being
/// `digits / 10^scale`. After at most one `+` stand digits with at most one
/// `.` among them; there is at least one digit, there are at most
/// [`MAX_SCALE`] digits after the `.`, and all digits together write a number
/// that fits 64 bits.
pub open spec fn parsed_decimal(s: Seq<u8>) -> Option<(u64, u8)> {
    let parts = pieces(unsigned(s), DOT);
    let whole = parts[0];
    let fraction = if parts.len() == 2 {
        parts[1]
    } else {
        Seq::<u8>::empty()
    };
    if parts.len() <= 2 && whole.len() + fraction.len() > 0 && fraction.len() <= MAX_SCALE {
        match read_from(0, whole + fraction) {
            Some(digits) => Some((digits, fraction.len() as u8)),
            None => None,
        }
    } else {
        None
    }
}

/// A number does not shrink when digits are written after it.
proof fn lemma_value_grows(acc: nat, s: Seq<u8>, k: int)
    requires
        0 <= k <= s.len(),
    ensures
        value_from(acc, s.take(k)) <= value_from(acc, s),
    decreases s.len() - k,
{
    if k == s.len() {
        assert(s.take(k) =~= s);
    } else {
        lemma_value_grows(acc, s.drop_last(), k);
        assert(s.drop_last().take(k) =~= s.take(k));
    }
}

/// Reading `a` and then `b` is reading `a + b`.
proof fn lemma_value_concat(acc: nat, a: Seq<u8>, b: Seq<u8>)
    ensures
        value_from(acc, a + b) == value_from(value_from(acc, a), b),
        all_digits(a + b) <==> all_digits(a) && all_digits(b),
    decreases b.len(),
{
    if b.len() == 0 {
        assert(a + b =~= a);
    } else {
        lemma_value_concat(acc, a, b.drop_last());
        assert((a + b).drop_last() =~= a + b.drop_last());
    }
    if all_digits(a + b) {
        assert forall|i: int| 0 <= i < a.len() implies is_digit(#[trigger] a[i]) by {
            assert(a[i] == (a + b)[i]);
        }
        assert forall|i: int| 0 <= i < b.len() implies is_digit(#[trigger] b[i]) by {
            assert(b[i] == (a + b)[a.len() + i]);
        }
    }
}

/// Powers of ten grow with the exponent, and the nineteenth fits 64 bits.
proof fn lemma_pow10_grows(i: nat, j: nat)
    requires
        i <= j,
    ensures
        pow10(i) <= pow10(j),
        pow10(i) >= 1,
        pow10(19) == 10_000_000_000_000_000_000,
    decreases j,
{
    if i < j {
        lemma_pow10_grows(i, (j - 1) as nat);
    } else if i > 0 {
        lemma_pow10_grows((i - 1) as nat, (j - 1) as nat);
    }
    reveal_with_fuel(pow10, 20);
}

/// Reads the digits `s` after digits that are worth `acc`.
fn read_digits(acc: u64, s: &[u8]) -> (r: Option<u64>)
    ensures
        r == read_from(acc as nat, s@),
{
    let mut value: u64 = acc;
    let mut i: usize = 0;
    proof {
        assert(s@.take(0) =~= Seq::<u8>::empty());
    }
    while i < s.len()
        invariant
            i <= s.len(),
            all_digits(s@.take(i as int)),
            value == value_from(acc as nat, s@.take(i as int)),
        decreases s.len() - i,
    {
        let b: u8 = s[i];
        if b < 48 || b > 57 {
            return None;
        }
        proof {
            assert(s@.take(i + 1).drop_last() =~= s@.take(i as int));
            lemma_value_grows(acc as nat, s@, i + 1);
            assert forall|k: int| 0 <= k < i + 1 implies is_digit(#[trigger] s@.take(i + 1)[k]) by {
                if k < i {
                    assert(s@.take(i as int)[k] == s@.take(i + 1)[k]);
                }
            }
        }
        let digit: u64 = (b - 48) as u64;
        if value > (u64::MAX - digit) / 10 {
            return None;
        }
        value = value * 10 + digit;
        i += 1;
    }
    proof {
        assert(s@.take(i as int) =~= s@);
    }
    Some(value)
}

/// `s` without a `+` at its start.
fn skip_plus(s: &[u8]) -> (r: &[u8])
    ensures
        r@ == unsigned(s@),
{
    if s.len() > 0 && s[0] == PLUS {
        proof {
            assert(s@.subrange(1, s@.len() as int) =~= s@.drop_first());
        }
        slice_subrange(s, 1, s.len())
    } else {
        s
    }
}

/// Reads a read length.
pub fn parse_u64(s: &[u8]) -> (r: Option<u64>)
    ensures
        r == parsed_u64(s@),
{
    let body = skip_plus(s);
    if body.len() == 0 {
        return None;
    }
    read_digits(0, body)
}

/// Ten to the power `n`.
fn ten_to(n: u8) -> (r: u128)
    requires
        n <= MAX_SCALE,
    ensures
        r == pow10(n as nat),
        r <= 10_000_000_000_000_000_000,
{
    let mut r: u128 = 1;
    let mut i: u8 = 0;
    while i < n
        invariant
            i <= n <= MAX_SCALE,
            r == pow10(i as nat),
        decreases n - i,
    {
        proof {
            lemma_pow10_grows((i + 1) as nat, 19);
        }
        r = r * 10;
        i += 1;
    }
    proof {
        lemma_pow10_grows(n as nat, 19);
    }
    r
}

/// A quality score or a threshold for one: the exact decimal
/// `digits / 10^scale`, with a scale of at most [`MAX_SCALE`].
#[derive(Clone, Copy, Debug)]
pub struct Decimal {
    digits: u64,
    scale: u8,
}

impl Decimal {
    #[verifier::type_invariant]
    spec fn scale_fits(self) -> bool {
        self.scale <= MAX_SCALE
    }

    /// The digits of the decimal, read as one whole number.
    pub closed spec fn spec_digits(&self) -> u64 {
        self.digits
    }

    /// How many of the digits stand after the decimal point.
    pub closed spec fn spec_scale(&self) -> u8 {
        self.scale
    }

    /// `self` is `other` or more, as numbers.
    pub open spec fn reaches(self, other: Decimal) -> bool {
        self.spec_digits() * pow10(other.spec_scale() as nat) >= other.spec_digits() * pow10(
            self.spec_scale() as nat,
        )
    }

    /// The decimal `digits / 10^scale`, where the scale is at most
    /// [`MAX_SCALE`].
    pub fn new(digits: u64, scale: u8) -> (r: Option<Decimal>)
        ensures
            r is Some <==> scale <= MAX_SCALE,
            r matches Some(d) ==> d.spec_digits() == digits && d.spec_scale() == scale,
    {
        if scale <= MAX_SCALE {
            Some(Decimal { digits, scale })
        } else {
            None
        }
    }

    /// The digits of the decimal, read as one whole number.
    #[verifier::when_used_as_spec(spec_digits)]
    pub fn digits(&self) -> (r: u64)
        ensures
            r == self.spec_digits(),
    {
        self.digits
    }

    /// How many of the digits stand after the decimal point.
    #[verifier::when_used_as_spec(spec_scale)]
    pub fn scale(&self) -> (r: u8)
        ensures
            r == self.spec_scale(),
            r <= MAX_SCALE,
    {
        proof {
            use_type_invariant(self);
        }
        self.scale
    }

    /// Whether `self` is `other` or more, as numbers.
    pub fn at_least(&self, other: &Decimal) -> (r: bool)
        ensures
            r == self.reaches(*other),
    {
        proof {
            use_type_invariant(self);
            use_type_invariant(other);
        }
        let up: u128 = ten_to(other.scale);
        let down: u128 = ten_to(self.scale);
        let a: u128 = self.digits as u128;
        let b: u128 = other.digits as u128;
        assert(a * up <= 0xffff_ffff_ffff_ffff * 10_000_000_000_000_000_000) by (nonlinear_arith)
            requires
                a <= 0xffff_ffff_ffff_ffff,
                up <= 10_000_000_000_000_000_000,
        ;
        assert(b * down <= 0xffff_ffff_ffff_ffff * 10_000_000_000_000_000_000) by (nonlinear_arith)
            requires
                b <= 0xffff_ffff_ffff_ffff,
                down <= 10_000_000_000_000_000_000,
        ;
        a * up >= b * down
    }
}

/// Reads a quality score.
pub fn parse_decimal(s: &[u8]) -> (r: Option<Decimal>)
    ensures
        match r {
            Some(d) => parsed_decimal(s@) == Some((d.spec_digits(), d.spec_scale())),
            None => parsed_decimal(s@) is None,
        },
{
    let body = skip_plus(s);
    let parts = split(body, DOT);
    proof {
        lemma_pieces_nonempty(body@, DOT);
    }
    if parts.len() > 2 {
        return None;
    }
    let whole: &[u8] = parts[0];
    assert(whole@ == views(parts@)[0]);
    let fraction: &[u8] = if parts.len() == 2 {
        assert(parts@[1]@ == views(parts@)[1]);
        parts[1]
    } else {
        slice_subrange(whole, 0, 0)
    };
    if (whole.len() == 0 && fraction.len() == 0) || fraction.len() > MAX_SCALE as usize {
        return None;
    }
    proof {
        lemma_value_concat(0, whole@, fraction@);
        lemma_value_grows(value_from(0, whole@), fraction@, 0);
        assert(fraction@.take(0) =~= Seq::<u8>::empty());
    }
    let upper: u64 = match read_digits(0, whole) {
        Some(upper) => upper,
        None => {
            return None;
        },
    };
    match read_digits(upper, fraction) {
        Some(digits) => Decimal::new(digits, fraction.len() as u8),
        None => None,
    }
}

} // verus!
