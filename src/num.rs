//! Decimal numbers of the text format: unsigned integers and signed decimals
//! with a fractional part, read and written exactly.
use vstd::prelude::*;
use crate::text::{scan, scan_chars, Stop};

verus! {

pub open spec fn is_digit(c: char) -> bool {
    '0' <= c && c <= '9'
}

pub open spec fn all_digits(s: Seq<char>) -> bool {
    forall|i: int| 0 <= i < s.len() ==> is_digit(#[trigger] s[i])
}

pub open spec fn digit_value(c: char) -> int {
    (c as u32) - ('0' as u32)
}

/// The value of a string of decimal digits.
pub open spec fn digits_value(s: Seq<char>) -> int
    decreases s.len(),
{
    if s.len() == 0 {
        0
    } else {
        digits_value(s.drop_last()) * 10 + digit_value(s.last())
    }
}

pub open spec fn digit_char(d: int) -> char {
    if d == 0 {
        '0'
    } else if d == 1 {
        '1'
    } else if d == 2 {
        '2'
    } else if d == 3 {
        '3'
    } else if d == 4 {
        '4'
    } else if d == 5 {
        '5'
    } else if d == 6 {
        '6'
    } else if d == 7 {
        '7'
    } else if d == 8 {
        '8'
    } else {
        '9'
    }
}

/// The decimal digits of `n`, without leading zeros.
pub open spec fn decimal_text(n: nat) -> Seq<char>
    decreases n,
{
    if n < 10 {
        seq![digit_char(n as int)]
    } else {
        decimal_text(n / 10).push(digit_char((n % 10) as int))
    }
}

pub open spec fn pow10(n: nat) -> nat
    decreases n,
{
    if n == 0 {
        1
    } else {
        10 * pow10((n - 1) as nat)
    }
}

/// The unsigned 32-bit number that `s` spells, if it spells one.
pub open spec fn u32_of(s: Seq<char>) -> Option<u32> {
    if s.len() > 0 && all_digits(s) && digits_value(s) <= u32::MAX {
        Some(digits_value(s) as u32)
    } else {
        None
    }
}

proof fn lemma_digits_prefix(s: Seq<char>, i: int)
    requires
        all_digits(s),
        0 <= i <= s.len(),
    ensures
        0 <= digits_value(s.take(i)) <= digits_value(s),
    decreases s.len(),
{
    if i < s.len() {
        assert(s.drop_last().take(i) =~= s.take(i));
        lemma_digits_prefix(s.drop_last(), i);
        lemma_digits_nonneg(s.drop_last());
    } else {
        assert(s.take(i) =~= s);
        lemma_digits_nonneg(s);
    }
}

proof fn lemma_digits_nonneg(s: Seq<char>)
    requires
        all_digits(s),
    ensures
        digits_value(s) >= 0,
    decreases s.len(),
{
    if s.len() > 0 {
        lemma_digits_nonneg(s.drop_last());
    }
}

/// The value of the digits `s` when they are a nonempty string of digits whose
/// value is at most `max`.
pub open spec fn bounded_digits(s: Seq<char>, max: int) -> Option<int> {
    if s.len() > 0 && all_digits(s) && digits_value(s) <= max {
        Some(digits_value(s))
    } else {
        None
    }
}

/// Reads an unsigned 32-bit number written in decimal digits alone.
pub fn parse_u32(s: &Vec<char>) -> (r: Option<u32>)
    ensures
        r == u32_of(s@),
{
    proof {
        if all_digits(s@) {
            lemma_digits_nonneg(s@);
        }
    }
    match parse_digits(s, 4294967295) {
        Some(v) => Some(v as u32),
        None => None,
    }
}

/// Reads a nonempty string of decimal digits whose value is at most `max`.
fn parse_digits(s: &Vec<char>, max: u64) -> (r: Option<u64>)
    requires
        max <= i64::MAX || max == u32::MAX,
    ensures
        match bounded_digits(s@, max as int) {
            Some(v) => r == Some(v as u64),
            None => r is None,
        },
        r matches Some(x) ==> x <= max,
{
    if s.len() == 0 {
        return None;
    }
    let mut acc: u128 = 0;
    let mut i: usize = 0;
    while i < s.len()
        invariant
            i <= s@.len(),
            s@.len() > 0,
            forall|j: int| 0 <= j < i ==> is_digit(#[trigger] s@[j]),
            acc == digits_value(s@.take(i as int)),
            acc <= max,
            max <= i64::MAX || max == u32::MAX,
        decreases s@.len() - i,
    {
        let c = s[i];
        if !('0' <= c && c <= '9') {
            return None;
        }
        assert(s@.take(i + 1).drop_last() =~= s@.take(i as int));
        acc = acc * 10 + ((c as u32) - ('0' as u32)) as u128;
        i = i + 1;
        if acc > max as u128 {
            proof {
                if all_digits(s@) {
                    lemma_digits_prefix(s@, i as int);
                }
            }
            return None;
        }
    }
    assert(s@.take(i as int) =~= s@);
    Some(acc as u64)
}

/// Writes the decimal digits of `n` after `out`.
fn push_decimal(out: &mut Vec<char>, n: u64)
    ensures
        final(out)@ == old(out)@ + decimal_text(n as nat),
    decreases n,
{
    if n >= 10 {
        push_decimal(out, n / 10);
    }
    let d = n % 10;
    let c = if d == 0 {
        '0'
    } else if d == 1 {
        '1'
    } else if d == 2 {
        '2'
    } else if d == 3 {
        '3'
    } else if d == 4 {
        '4'
    } else if d == 5 {
        '5'
    } else if d == 6 {
        '6'
    } else if d == 7 {
        '7'
    } else if d == 8 {
        '8'
    } else {
        '9'
    };
    out.push(c);
    assert(final(out)@ =~= old(out)@ + decimal_text(n as nat));
}

/// The decimal text of a number reads back as that number.
pub proof fn lemma_decimal_round_trip(n: nat)
    ensures
        decimal_text(n).len() > 0,
        all_digits(decimal_text(n)),
        digits_value(decimal_text(n)) == n,
    decreases n,
{
    let d = (n % 10) as int;
    assert(is_digit(digit_char(d)) && digit_value(digit_char(d)) == d);
    if n >= 10 {
        lemma_decimal_round_trip(n / 10);
        let t = decimal_text(n / 10).push(digit_char(d));
        assert(t.drop_last() =~= decimal_text(n / 10));
        assert(digits_value(t) == digits_value(decimal_text(n / 10)) * 10 + d);
        assert((n / 10) * 10 + n % 10 == n) by (nonlinear_arith);
        assert(decimal_text(n) == t);
    } else {
        let t = seq![digit_char(d)];
        assert(t.drop_last() =~= Seq::<char>::empty());
        assert(t.last() == digit_char(d));
        assert(digits_value(t) == digits_value(t.drop_last()) * 10 + digit_value(t.last()));
        assert(n % 10 == n);
        assert(decimal_text(n) == t);
    }
}

/// The decimal text of `n`.
pub fn u32_text(n: u32) -> (r: Vec<char>)
    ensures
        r@ == decimal_text(n as nat),
{
    let mut out: Vec<char> = Vec::new();
    push_decimal(&mut out, n as u64);
    assert(out@ =~= decimal_text(n as nat));
    out
}

/// A decimal number: `mantissa / 10^scale`, written with `scale` digits after
/// the point.
#[derive(Clone, Copy, Debug, PartialEq, Eq)]
pub struct Num {
    pub mantissa: i64,
    pub scale: u32,
}

/// The most digits after the point that a number may have.
pub const MAX_SCALE: u32 = 18;

impl Num {
    pub open spec fn wf(&self) -> bool {
        self.scale <= MAX_SCALE && self.mantissa > i64::MIN
    }

    /// The whole number `v`.
    pub fn whole(v: i64) -> (r: Num)
        requires
            v > i64::MIN,
        ensures
            r == (Num { mantissa: v, scale: 0 }),
            r.wf(),
    {
        Num { mantissa: v, scale: 0 }
    }
}

/// The number that `s` spells: an optional `-`, digits, and optionally a point
/// followed by digits.
pub open spec fn num_of(s: Seq<char>) -> Option<Num> {
    let neg = s.len() > 0 && s[0] == '-';
    let body = if neg {
        s.skip(1)
    } else {
        s
    };
    let dot = scan(body, 0, Stop::Char('.'));
    let whole = body.take(dot);
    let frac = if dot < body.len() {
        body.skip(dot + 1)
    } else {
        Seq::empty()
    };
    if whole.len() == 0 || (dot < body.len() && frac.len() == 0) || !all_digits(frac)
        || frac.len() > MAX_SCALE {
        None
    } else {
        match bounded_digits(whole + frac, i64::MAX as int) {
            None => None,
            Some(v) => Some(
                Num { mantissa: (if neg { -v } else { v }) as i64, scale: frac.len() as u32 },
            ),
        }
    }
}

pub open spec fn zeros(n: int) -> Seq<char>
    decreases n,
{
    if n <= 0 {
        Seq::empty()
    } else {
        zeros(n - 1).push('0')
    }
}

/// The text of `n`: a `-` when it is negative, the whole part, and where the
/// scale is positive a point and exactly `scale` digits.
pub open spec fn num_text(n: Num) -> Seq<char> {
    let a = if n.mantissa < 0 {
        -n.mantissa
    } else {
        n.mantissa as int
    };
    let p = pow10(n.scale as nat);
    let sign = if n.mantissa < 0 {
        seq!['-']
    } else {
        Seq::empty()
    };
    let f = decimal_text((a % p as int) as nat);
    sign + decimal_text((a / p as int) as nat) + if n.scale == 0 {
        Seq::empty()
    } else {
        seq!['.'] + zeros(n.scale - f.len()) + f
    }
}

pub(crate) fn pow10_u64(n: u32) -> (r: u64)
    requires
        n <= MAX_SCALE,
    ensures
        r == pow10(n as nat),
        r > 0,
{
    let mut r: u64 = 1;
    let mut i: u32 = 0;
    proof {
        lemma_pow10_top();
    }
    while i < n
        invariant
            i <= n <= MAX_SCALE,
            r == pow10(i as nat),
            pow10(MAX_SCALE as nat) == 1_000_000_000_000_000_000,
        decreases n - i,
    {
        proof {
            lemma_pow10_mono((i + 1) as nat, MAX_SCALE as nat);
        }
        r = r * 10;
        i = i + 1;
    }
    proof {
        lemma_pow10_mono(n as nat, n as nat);
    }
    r
}

pub(crate) proof fn lemma_pow10_top()
    ensures
        pow10(MAX_SCALE as nat) == 1_000_000_000_000_000_000,
{
    reveal_with_fuel(pow10, 20);
}

pub(crate) proof fn lemma_pow10_mono(i: nat, n: nat)
    requires
        i <= n,
    ensures
        1 <= pow10(i) <= pow10(n),
    decreases n,
{
    if i < n {
        lemma_pow10_mono(i, (n - 1) as nat);
    } else if n > 0 {
        lemma_pow10_mono((n - 1) as nat, (n - 1) as nat);
    }
}

/// Whether every character of `v` from `from` on is a digit.
fn digits_from(v: &Vec<char>, from: usize) -> (r: bool)
    ensures
        r == (forall|j: int| from <= j < v@.len() ==> is_digit(#[trigger] v@[j])),
{
    let mut k: usize = from;
    while k < v.len()
        invariant
            from <= k || k == from,
            forall|j: int| from <= j < k ==> is_digit(#[trigger] v@[j]),
        decreases v@.len() - k,
    {
        if !('0' <= v[k] && v[k] <= '9') {
            return false;
        }
        k = k + 1;
    }
    true
}

proof fn lemma_digits_concat(x: Seq<char>, y: Seq<char>)
    ensures
        digits_value(x + y) == digits_value(x) * pow10(y.len()) + digits_value(y),
    decreases y.len(),
{
    if y.len() == 0 {
        assert(x + y =~= x);
        assert(pow10(0) == 1);
        assert(digits_value(y) == 0);
        assert(digits_value(x) * pow10(y.len()) == digits_value(x));
    } else {
        let y1 = y.drop_last();
        assert((x + y).drop_last() =~= x + y1);
        assert((x + y).last() == y.last());
        lemma_digits_concat(x, y1);
        let (dx, dy1, pw, l) = (digits_value(x), digits_value(y1), pow10(y1.len()), digit_value(y.last()));
        assert(pow10(y.len()) == 10 * pw);
        assert(digits_value(x + y) == digits_value(x + y1) * 10 + l);
        assert(digits_value(y) == dy1 * 10 + l);
        assert(digits_value(x + y1) == dx * pw + dy1);
        assert((dx * pw + dy1) * 10 + l == dx * (10 * pw) + (dy1 * 10 + l)) by (nonlinear_arith);
        assert(dx * pow10(y.len()) == dx * (10 * pw));
    }
}

proof fn lemma_zeros(k: int)
    ensures
        zeros(k).len() == if k > 0 {
            k
        } else {
            0
        },
        all_digits(zeros(k)),
        digits_value(zeros(k)) == 0,
    decreases k,
{
    if k > 0 {
        lemma_zeros(k - 1);
        assert(zeros(k).drop_last() =~= zeros(k - 1));
        assert(digit_value('0') == 0);
    }
}

proof fn lemma_decimal_len(n: nat, s: nat)
    requires
        s >= 1,
        n < pow10(s),
    ensures
        decimal_text(n).len() <= s,
    decreases n,
{
    if n >= 10 {
        assert(s >= 2) by {
            if s == 1 {
                assert(pow10(0) == 1);
            }
        }
        assert(pow10(s) == 10 * pow10((s - 1) as nat));
        assert(n / 10 < pow10((s - 1) as nat)) by (nonlinear_arith)
            requires
                n < 10 * pow10((s - 1) as nat),
        ;
        lemma_decimal_len(n / 10, (s - 1) as nat);
    }
}

/// Facts shared by both forms of a number's text: its magnitude split at the point.
proof fn lemma_split(n: Num) -> (qr: (int, int))
    requires
        n.wf(),
    ensures
        ({
            let a: int = if n.mantissa < 0 {
                -n.mantissa
            } else {
                n.mantissa as int
            };
            let p = pow10(n.scale as nat) as int;
            &&& qr.0 == a / p
            &&& qr.1 == a % p
            &&& 0 <= qr.0
            &&& 0 <= qr.1 < p
            &&& qr.0 * p + qr.1 == a
            &&& 1 <= p
            &&& a <= i64::MAX
        }),
{
    let a: int = if n.mantissa < 0 {
        -n.mantissa
    } else {
        n.mantissa as int
    };
    let p = pow10(n.scale as nat);
    lemma_pow10_mono(0, n.scale as nat);
    let q = a / p as int;
    let r = a % p as int;
    assert(0 <= q && 0 <= r < p && q * p + r == a) by (nonlinear_arith)
        requires
            a >= 0,
            p >= 1,
            q == a / p as int,
            r == a % p as int,
    ;
    (q, r)
}

/// The text of a number reads back as the same number.
pub proof fn lemma_num_round_trip(n: Num)
    requires
        n.wf(),
    ensures
        num_of(num_text(n)) == Some(n),
{
    if n.scale == 0 {
        lemma_whole_round_trip(n);
    } else {
        lemma_fraction_round_trip(n);
    }
}

proof fn lemma_sign(n: Num, w: Seq<char>, rest: Seq<char>)
    requires
        w.len() > 0,
        all_digits(w),
        num_text(n) == (if n.mantissa < 0 {
            seq!['-']
        } else {
            Seq::<char>::empty()
        }) + (w + rest),
    ensures
        (num_text(n).len() > 0 && num_text(n)[0] == '-') == (n.mantissa < 0),
        (if n.mantissa < 0 {
            num_text(n).skip(1)
        } else {
            num_text(n)
        }) =~= w + rest,
{
    if n.mantissa >= 0 {
        assert(num_text(n)[0] == w[0]);
        assert(is_digit(w[0]));
    }
}

proof fn lemma_whole_round_trip(n: Num)
    requires
        n.wf(),
        n.scale == 0,
    ensures
        num_of(num_text(n)) == Some(n),
{
    let (q, r) = lemma_split(n);
    assert(pow10(0) == 1);
    let w = decimal_text(q as nat);
    lemma_decimal_round_trip(q as nat);
    assert(q * 1 + r == q + r) by (nonlinear_arith);
    let text = num_text(n);
    assert(text =~= (if n.mantissa < 0 {
        seq!['-']
    } else {
        Seq::<char>::empty()
    }) + (w + Seq::<char>::empty()));
    lemma_sign(n, w, Seq::empty());
    assert(w + Seq::<char>::empty() =~= w);
    lemma_scan_at_end(w);
    assert(w.take(w.len() as int) =~= w);
}

proof fn lemma_fraction_round_trip(n: Num)
    requires
        n.wf(),
        n.scale > 0,
    ensures
        num_of(num_text(n)) == Some(n),
{
    let (q, r) = lemma_split(n);
    let sc = n.scale as nat;
    let w = decimal_text(q as nat);
    let f = decimal_text(r as nat);
    lemma_decimal_round_trip(q as nat);
    lemma_decimal_round_trip(r as nat);
    lemma_decimal_len(r as nat, sc);
    let z = zeros(n.scale - f.len());
    let frac = z + f;
    lemma_zeros(n.scale - f.len());
    assert(frac.len() == n.scale);
    assert(all_digits(frac));
    lemma_digits_concat(z, f);
    assert(digits_value(frac) == r);
    let text = num_text(n);
    let tail = seq!['.'] + frac;
    assert(text =~= (if n.mantissa < 0 {
        seq!['-']
    } else {
        Seq::<char>::empty()
    }) + (w + tail));
    lemma_sign(n, w, tail);
    lemma_scan_dot(w, frac);
    let body = w + tail;
    assert(body.take(w.len() as int) =~= w);
    assert(body.skip(w.len() as int + 1) =~= frac);
    lemma_digits_concat(w, frac);
    assert(digits_value(w + frac) == q * pow10(sc) + r);
}

proof fn lemma_scan_at_end(w: Seq<char>)
    requires
        all_digits(w),
    ensures
        scan(w, 0, Stop::Char('.')) == w.len(),
{
    assert forall|i: int| 0 <= i < w.len() implies !crate::text::stops(Stop::Char('.'), #[trigger] w[i]) by {
        assert(is_digit(w[i]));
    }
    crate::text::lemma_scan_at(w, 0, Stop::Char('.'), w.len() as int);
}

proof fn lemma_scan_dot(w: Seq<char>, frac: Seq<char>)
    requires
        all_digits(w),
    ensures
        scan(w + (seq!['.'] + frac), 0, Stop::Char('.')) == w.len(),
{
    let b = w + (seq!['.'] + frac);
    assert forall|i: int| 0 <= i < w.len() implies !crate::text::stops(Stop::Char('.'), #[trigger] b[i]) by {
        assert(b[i] == w[i]);
        assert(is_digit(w[i]));
    }
    assert(b[w.len() as int] == '.');
    crate::text::lemma_scan_at(b, 0, Stop::Char('.'), w.len() as int);
}

impl Num {
    /// Reads a number written as an optional `-`, digits, and optionally a
    /// point followed by at most eighteen digits.
    #[verifier::rlimit(100)]
    pub fn parse(s: &Vec<char>) -> (r: Option<Num>)
        ensures
            r == num_of(s@),
            r matches Some(n) ==> n.wf(),
    {
        let neg = s.len() > 0 && s[0] == '-';
        let start: usize = if neg {
            1
        } else {
            0
        };
        let ghost body = if neg {
            s@.skip(1)
        } else {
            s@
        };
        assert(body =~= s@.skip(start as int));
        let dot = scan_chars(s, start, Stop::Char('.'));
        proof {
            crate::text::lemma_scan_skip(s@, start as int, 0, Stop::Char('.'));
            crate::text::lemma_scan_bounds(s@, start as int, Stop::Char('.'));
        }
        let mut digits: Vec<char> = Vec::new();
        let mut i: usize = start;
        while i < dot
            invariant
                start <= i <= dot <= s@.len(),
                digits@ == s@.subrange(start as int, i as int),
            decreases dot - i,
        {
            digits.push(s[i]);
            i = i + 1;
            assert(digits@ =~= s@.subrange(start as int, i as int));
        }
        let whole_len = digits.len();
        assert(digits@ =~= body.take(dot - start));
        let ghost whole = digits@;
        let mut scale: usize = 0;
        if dot < s.len() {
            let mut i: usize = dot + 1;
            while i < s.len()
                invariant
                    dot < i <= s@.len(),
                    digits@ == whole + s@.subrange(dot + 1, i as int),
                decreases s@.len() - i,
            {
                digits.push(s[i]);
                i = i + 1;
                assert(digits@ =~= whole + s@.subrange(dot + 1, i as int));
            }
            scale = s.len() - dot - 1;
            assert(s@.subrange(dot + 1, s@.len() as int) =~= body.skip(dot - start + 1));
            if scale == 0 {
                return None;
            }
        } else {
            assert(digits@ =~= whole + Seq::<char>::empty());
        }
        let ghost frac = digits@.skip(whole_len as int);
        assert(digits@ =~= whole + frac);
        proof {
            let sdot = dot - start;
            assert(scan(body, 0, Stop::Char('.')) == sdot);
            if sdot < body.len() {
                assert(frac =~= body.skip(sdot + 1));
            } else {
                assert(frac =~= Seq::<char>::empty());
            }
        }
        if whole_len == 0 || scale > 18 {
            return None;
        }
        if !digits_from(&digits, whole_len) {
            assert(!all_digits(frac)) by {
                let j = choose|j: int| whole_len <= j < digits@.len() && !is_digit(digits@[j]);
                assert(frac[j - whole_len] == digits@[j]);
            }
            return None;
        }
        assert(all_digits(frac)) by {
            assert forall|j: int| 0 <= j < frac.len() implies is_digit(#[trigger] frac[j]) by {
                assert(frac[j] == digits@[whole_len + j]);
                assert(is_digit(digits@[whole_len + j]));
            }
        }
        proof {
            if all_digits(digits@) {
                lemma_digits_nonneg(digits@);
            }
        }
        match parse_digits(&digits, 9223372036854775807) {
            None => None,
            Some(v) => {
                let m: i64 = if neg {
                    -(v as i64)
                } else {
                    v as i64
                };
                Some(Num { mantissa: m, scale: scale as u32 })
            },
        }
    }

    /// Writes this number as `num_text` gives it.
    pub fn to_text(&self) -> (r: Vec<char>)
        requires
            self.wf(),
        ensures
            r@ == num_text(*self),
    {
        let a: u64 = if self.mantissa < 0 {
            (-self.mantissa) as u64
        } else {
            self.mantissa as u64
        };
        let p = pow10_u64(self.scale);
        let mut out: Vec<char> = Vec::new();
        if self.mantissa < 0 {
            out.push('-');
        }
        let ghost sign = out@;
        push_decimal(&mut out, a / p);
        if self.scale > 0 {
            let mut f: Vec<char> = Vec::new();
            push_decimal(&mut f, a % p);
            out.push('.');
            let ghost before = out@;
            let mut pad: usize = f.len();
            while pad < self.scale as usize
                invariant
                    f@.len() <= pad <= self.scale || pad == f@.len(),
                    out@ == before + zeros(pad - f@.len()),
                decreases self.scale - pad,
            {
                out.push('0');
                pad = pad + 1;
                assert(out@ =~= before + zeros(pad - f@.len()));
            }
            assert(zeros(pad - f@.len()) == zeros(self.scale - f@.len())) by {
                if f@.len() > self.scale {
                    assert(pad == f@.len());
                }
            }
            let ghost padded = out@;
            let mut j: usize = 0;
            while j < f.len()
                invariant
                    j <= f@.len(),
                    out@ == padded + f@.take(j as int),
                decreases f@.len() - j,
            {
                out.push(f[j]);
                j = j + 1;
                assert(out@ =~= padded + f@.take(j as int));
            }
            assert(f@.take(j as int) =~= f@);
            assert(out@ =~= num_text(*self));
        } else {
            assert(out@ =~= num_text(*self));
        }
        out
    }
}

} // verus!
