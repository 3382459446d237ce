use vstd::prelude::*;
use crate::text::{chars_of, string_of};

verus! {

pub open spec fn is_digit(c: char) -> bool {
    '0' <= c && c <= '9'
}

pub open spec fn all_digits(s: Seq<char>) -> bool {
    forall|i: int| 0 <= i < s.len() ==> is_digit(#[trigger] s[i])
}

pub open spec fn digit_value(c: char) -> nat {
    (c as u32 - '0' as u32) as nat
}

/// The number that a run of decimal digits spells.
pub open spec fn digits_value(s: Seq<char>) -> nat
    decreases s.len(),
{
    if s.len() == 0 {
        0
    } else {
        10 * digits_value(s.drop_last()) + digit_value(s.last())
    }
}

/// How many decimal digits `s` starts with.
pub open spec fn lead_digits(s: Seq<char>) -> nat
    decreases s.len(),
{
    if s.len() > 0 && is_digit(s[0]) {
        1 + lead_digits(s.drop_first())
    } else {
        0
    }
}

/// `f` without its trailing zeros.
pub open spec fn trim_zeros(f: Seq<char>) -> Seq<char>
    decreases f.len(),
{
    if f.len() > 0 && f.last() == '0' {
        trim_zeros(f.drop_last())
    } else {
        f
    }
}

/// The number `whole.frac`, written with its fraction digits.
pub struct SampleView {
    pub whole: nat,
    pub frac: Seq<char>,
}

/// A well-formed sample: its fraction is decimal digits without a trailing zero, and its value
/// lies within [30, 220].
pub open spec fn valid_sample(v: SampleView) -> bool {
    all_digits(v.frac) && trim_zeros(v.frac) == v.frac && in_range(v.whole, v.frac)
}

/// Whether the decimal `whole.frac` lies within [30, 220], both ends included.
pub open spec fn in_range(whole: nat, frac: Seq<char>) -> bool {
    30 <= whole && (whole < 220 || (whole == 220 && trim_zeros(frac).len() == 0))
}

/// `s` without a leading plus sign.
pub open spec fn unsigned_text(s: Seq<char>) -> Seq<char> {
    if s.len() > 0 && s[0] == '+' {
        s.drop_first()
    } else {
        s
    }
}

/// The digits after the decimal point, where `s` continues with one after its leading digits.
pub open spec fn fraction_text(s: Seq<char>) -> Seq<char> {
    let rest = s.skip(lead_digits(s) as int);
    if rest.len() > 0 {
        rest.drop_first()
    } else {
        Seq::<char>::empty()
    }
}

/// Whether `s` is a plain decimal number: digits, optionally a point and more digits, and at
/// least one digit in all.
pub open spec fn is_decimal(s: Seq<char>) -> bool {
    let k = lead_digits(s);
    let rest = s.skip(k as int);
    (rest.len() == 0 && k > 0) || (rest.len() > 0 && rest[0] == '.' && all_digits(
        fraction_text(s),
    ) && (k > 0 || fraction_text(s).len() > 0))
}

pub open spec fn is_exponent_mark(c: char) -> bool {
    c == 'e' || c == 'E'
}

/// Where the exponent of `s` starts: its first `e` or `E`, or its end.
pub open spec fn exponent_start(s: Seq<char>) -> nat
    decreases s.len(),
{
    if s.len() > 0 && !is_exponent_mark(s[0]) {
        1 + exponent_start(s.drop_first())
    } else {
        0
    }
}

/// The digits of an exponent part `e[+-]digits`.
pub open spec fn exponent_digits(x: Seq<char>) -> Seq<char> {
    let y = x.drop_first();
    if y.len() > 0 && (y[0] == '+' || y[0] == '-') {
        y.drop_first()
    } else {
        y
    }
}

/// Whether `x` is empty or an exponent part: `e` or `E`, an optional sign, and digits.
pub open spec fn is_exponent(x: Seq<char>) -> bool {
    x.len() == 0 || (all_digits(exponent_digits(x)) && exponent_digits(x).len() > 0)
}

/// The power of ten that an exponent part stands for (zero where there is none).
pub open spec fn exponent_value(x: Seq<char>) -> int {
    if x.len() == 0 {
        0
    } else if x.drop_first().len() > 0 && x.drop_first()[0] == '-' {
        -digits_value(exponent_digits(x))
    } else {
        digits_value(exponent_digits(x)) as int
    }
}

pub open spec fn zeros(n: nat) -> Seq<char> {
    Seq::new(n, |i: int| '0')
}

/// The digits before the point of the number with digits `ds` and its point at `pos`.
pub open spec fn whole_digits(ds: Seq<char>, pos: int) -> Seq<char> {
    if pos <= 0 {
        Seq::<char>::empty()
    } else if pos <= ds.len() {
        ds.take(pos)
    } else {
        ds + zeros((pos - ds.len()) as nat)
    }
}

/// The digits after the point of the number with digits `ds` and its point at `pos`.
pub open spec fn frac_digits(ds: Seq<char>, pos: int) -> Seq<char> {
    if pos <= 0 {
        zeros((-pos) as nat) + ds
    } else if pos < ds.len() {
        ds.skip(pos)
    } else {
        Seq::<char>::empty()
    }
}

/// The heart-rate sample that a line reads as: a decimal number, with an optional plus sign
/// and an optional exponent part, whose value lies within [30, 220].
pub open spec fn sample_of(line: Seq<char>) -> Option<SampleView> {
    let b = unsigned_text(line);
    let m = b.take(exponent_start(b) as int);
    let x = b.skip(exponent_start(b) as int);
    let int_digits = m.take(lead_digits(m) as int);
    let ds = int_digits + fraction_text(m);
    let pos = int_digits.len() + exponent_value(x);
    let whole = digits_value(whole_digits(ds, pos));
    let frac = frac_digits(ds, pos);
    if is_decimal(m) && is_exponent(x) && in_range(whole, frac) {
        Some(SampleView { whole, frac: trim_zeros(frac) })
    } else {
        None
    }
}

/// The decimal text of a natural number.
pub open spec fn nat_text(n: nat) -> Seq<char>
    decreases n,
{
    if n < 10 {
        seq![digit_char(n)]
    } else {
        nat_text(n / 10).push(digit_char(n % 10))
    }
}

pub open spec fn digit_char(d: nat) -> char {
    ((d + 48) as u8) as char
}

/// The shortest decimal text of a sample: no leading zeros, no trailing fraction zeros.
pub open spec fn sample_text(v: SampleView) -> Seq<char> {
    if v.frac.len() == 0 {
        nat_text(v.whole)
    } else {
        nat_text(v.whole) + seq!['.'] + v.frac
    }
}

/// A heart-rate reading in beats per minute, kept as exact decimal digits.
pub struct Sample {
    pub whole: u32,
    pub frac: Vec<char>,
}

impl View for Sample {
    type V = SampleView;

    open spec fn view(&self) -> SampleView {
        SampleView { whole: self.whole as nat, frac: self.frac@ }
    }
}

impl Clone for Sample {
    fn clone(&self) -> (r: Sample)
        ensures
            r@ == self@,
    {
        Sample { whole: self.whole, frac: self.frac.clone() }
    }
}

impl Sample {
    /// The shortest decimal text of the reading.
    pub fn to_text(&self) -> (r: String)
        ensures
            r@ == sample_text(self@),
    {
        let mut out = digits_of(self.whole as u64);
        if self.frac.len() > 0 {
            out.push('.');
            let mut i: usize = 0;
            let ghost start = out@;
            while i < self.frac.len()
                invariant
                    i <= self.frac@.len(),
                    out@ == start + self.frac@.take(i as int),
                decreases self.frac@.len() - i,
            {
                out.push(self.frac[i]);
                assert(self.frac@.take(i + 1) =~= self.frac@.take(i as int).push(self.frac@[i as int]));
                i = i + 1;
            }
            assert(self.frac@.take(i as int) =~= self.frac@);
        }
        string_of(&out)
    }
}

/// The sample that a trimmed line reads as: a decimal number, with an optional plus sign and
/// an optional exponent part, whose value lies within [30, 220], both ends included. Any other
/// line gives `None`.
pub fn parse_sample(line: &str) -> (r: Option<Sample>)
    ensures
        match r {
            Some(v) => sample_of(line@) == Some(v@) && valid_sample(v@),
            None => sample_of(line@) is None,
        },
{
    let chars = chars_of(line);
    sample_in(&chars)
}

pub fn is_ascii_digit(c: char) -> (r: bool)
    ensures
        r == is_digit(c),
{
    '0' <= c && c <= '9'
}

pub open spec fn pow10(n: nat) -> nat
    decreases n,
{
    if n == 0 {
        1
    } else {
        10 * pow10((n - 1) as nat)
    }
}

/// Zeros appended to a run of digits multiply its value by a power of ten.
proof fn lemma_trailing_zeros(s: Seq<char>, m: nat)
    ensures
        digits_value(s + zeros(m)) == digits_value(s) * pow10(m),
        m >= 3 ==> pow10(m) >= 1000,
    decreases m,
{
    if m == 0 {
        assert(s + zeros(0) =~= s);
        assert(pow10(0) == 1);
    } else {
        lemma_trailing_zeros(s, (m - 1) as nat);
        assert((s + zeros(m)).drop_last() =~= s + zeros((m - 1) as nat));
        assert((s + zeros(m)).last() == '0');
        assert(digits_value(s + zeros(m)) == 10 * digits_value(s + zeros((m - 1) as nat)));
        assert(pow10(m) == 10 * pow10((m - 1) as nat));
        assert(digits_value(s) * (10 * pow10((m - 1) as nat)) == 10 * (digits_value(s) * pow10(
            (m - 1) as nat,
        ))) by (nonlinear_arith);
        if m >= 4 {
            assert(pow10((m - 1) as nat) >= 1000);
        } else if m == 3 {
            assert(pow10(1) == 10) by {
                assert(pow10(0) == 1);
            }
            assert(pow10(2) == 100);
        }
    }
}

/// A point at or before the first digit, or three or more places past the last, puts the
/// value outside [30, 220].
proof fn lemma_point_out_of_reach(ds: Seq<char>, pos: int)
    requires
        pos <= 0 || pos >= ds.len() + 3,
    ensures
        !in_range(digits_value(whole_digits(ds, pos)), frac_digits(ds, pos)),
{
    if pos > 0 {
        let z = (pos - ds.len()) as nat;
        lemma_trailing_zeros(ds, z);
        if digits_value(ds) > 0 {
            assert(digits_value(ds) * pow10(z) >= pow10(z)) by (nonlinear_arith)
                requires
                    digits_value(ds) > 0,
            ;
        }
    } else {
        assert(whole_digits(ds, pos) =~= Seq::<char>::empty());
    }
}

/// The value of a run of digits, exact up to 1000 and only known to exceed it beyond.
fn saturated_value(d: &Vec<char>) -> (r: u64)
    requires
        all_digits(d@),
    ensures
        r <= 1000 ==> r as nat == digits_value(d@),
        r > 1000 ==> digits_value(d@) > 1000,
{
    let mut w: u64 = 0;
    let mut i: usize = 0;
    assert(d@.take(0) =~= Seq::<char>::empty());
    while i < d.len()
        invariant
            i <= d@.len(),
            all_digits(d@),
            w <= 1000 ==> w as nat == digits_value(d@.take(i as int)),
            w > 1000 ==> digits_value(d@.take(i as int)) > 1000,
            w <= 10009,
        decreases d@.len() - i,
    {
        assert(is_digit(d@[i as int]));
        let v = (d[i] as u32 - 48) as u64;
        assert(d@.take(i + 1).drop_last() =~= d@.take(i as int));
        if w <= 1000 {
            w = w * 10 + v;
        }
        i = i + 1;
    }
    assert(d@.take(i as int) =~= d@);
    w
}

/// The digits of the number part `line[start..e]` and how many stand before its point.
fn mantissa_digits(line: &Vec<char>, start: usize, e: usize) -> (r: Option<(Vec<char>, usize)>)
    requires
        start <= e <= line@.len(),
    ensures
        ({
            let m = line@.subrange(start as int, e as int);
            match r {
                Some((ds, il)) => is_decimal(m) && ds@ == m.take(lead_digits(m) as int)
                    + fraction_text(m) && il == lead_digits(m) && il <= m.len() && all_digits(ds@)
                    && ds@.len() <= line@.len(),
                None => !is_decimal(m),
            }
        }),
{
    let ghost m = line@.subrange(start as int, e as int);
    let mut ds: Vec<char> = Vec::new();
    let mut i: usize = start;
    assert(m =~= line@.subrange(i as int, e as int));
    while i < e && is_ascii_digit(line[i])
        invariant
            start <= i <= e <= line@.len(),
            m == line@.subrange(start as int, e as int),
            lead_digits(m) == (i - start) + lead_digits(line@.subrange(i as int, e as int)),
            ds@ == line@.subrange(start as int, i as int),
            all_digits(ds@),
        decreases e - i,
    {
        assert(line@.subrange(i as int, e as int).drop_first() =~= line@.subrange(
            i + 1,
            e as int,
        ));
        ds.push(line[i]);
        assert(ds@ =~= line@.subrange(start as int, i + 1));
        i = i + 1;
    }
    let k = i;
    assert(lead_digits(line@.subrange(k as int, e as int)) == 0);
    assert(m.take(lead_digits(m) as int) =~= line@.subrange(start as int, k as int));
    assert(m.skip(lead_digits(m) as int) =~= line@.subrange(k as int, e as int));
    if k == e {
        assert(fraction_text(m) =~= Seq::<char>::empty());
        assert(ds@ =~= m.take(lead_digits(m) as int) + fraction_text(m));
        if k > start {
            Some((ds, k - start))
        } else {
            None
        }
    } else if line[k] == '.' {
        let mut j: usize = k + 1;
        assert(ds@ =~= line@.subrange(start as int, k as int) + line@.subrange(k + 1, j as int));
        assert(m.skip(lead_digits(m) as int)[0] == '.');
        assert(fraction_text(m) =~= line@.subrange(k + 1, e as int));
        while j < e && is_ascii_digit(line[j])
            invariant
                k < j <= e <= line@.len(),
                ds@ == line@.subrange(start as int, k as int) + line@.subrange(k + 1, j as int),
                all_digits(ds@),
                all_digits(line@.subrange(k + 1, j as int)),
            decreases e - j,
        {
            assert(line@.subrange(k + 1, j + 1) =~= line@.subrange(k + 1, j as int).push(line@[j as int]));
            ds.push(line[j]);
            assert(ds@ =~= line@.subrange(start as int, k as int) + line@.subrange(
                k + 1,
                j + 1,
            ));
            j = j + 1;
        }
        assert(line@.subrange(k as int, e as int).drop_first() =~= line@.subrange(
            k + 1,
            e as int,
        ));
        if j < e {
            assert(line@.subrange(k + 1, e as int)[j - k - 1] == line@[j as int]);
            None
        } else if k > start || j > k + 1 {
            assert(ds@ =~= m.take(lead_digits(m) as int) + fraction_text(m));
            Some((ds, k - start))
        } else {
            None
        }
    } else {
        assert(m.skip(lead_digits(m) as int)[0] == line@[k as int]);
        None
    }
}

/// The sign and the saturated magnitude of the exponent part `line[e..]`; the magnitude is
/// exact up to `line.len() + 10` and only known to exceed it beyond.
fn exponent_of(line: &Vec<char>, e: usize) -> (r: Option<(bool, u128)>)
    requires
        e <= line@.len(),
        e < line@.len() ==> is_exponent_mark(line@[e as int]),
    ensures
        ({
            let x = line@.skip(e as int);
            let bound = line@.len() + 10;
            match r {
                None => !is_exponent(x),
                Some((neg, ev)) => is_exponent(x) && (ev <= bound ==> exponent_value(x) == (if neg {
                    -(ev as int)
                } else {
                    ev as int
                })) && (ev > bound ==> (if neg {
                    exponent_value(x) < -bound
                } else {
                    exponent_value(x) > bound
                })),
            }
        }),
{
    let n = line.len();
    let ghost x = line@.skip(e as int);
    if e == n {
        assert(x.len() == 0);
        return Some((false, 0));
    }
    let bound: u128 = n as u128 + 10;
    let mut neg: bool = false;
    let mut ev: u128 = 0;
    let mut j: usize = e + 1;
    assert(x.drop_first() =~= line@.skip(e + 1));
    if j < n && (line[j] == '+' || line[j] == '-') {
        neg = line[j] == '-';
        j = j + 1;
    }
    assert(neg == (x.drop_first().len() > 0 && x.drop_first()[0] == '-'));
    let dstart = j;
    assert(exponent_digits(x) =~= line@.skip(dstart as int));
    assert(line@.subrange(dstart as int, j as int) =~= Seq::<char>::empty());
    while j < n && is_ascii_digit(line[j])
        invariant
            dstart <= j <= n,
            n == line@.len(),
            bound == n + 10,
            ev <= bound ==> ev == digits_value(line@.subrange(dstart as int, j as int)),
            ev > bound ==> digits_value(line@.subrange(dstart as int, j as int)) > bound,
            ev <= 10 * bound + 9,
            all_digits(line@.subrange(dstart as int, j as int)),
        decreases n - j,
    {
        let d = (line[j] as u32 - 48) as u128;
        assert(line@.subrange(dstart as int, j + 1).drop_last() =~= line@.subrange(
            dstart as int,
            j as int,
        ));
        if ev <= bound {
            ev = ev * 10 + d;
        }
        assert(line@.subrange(dstart as int, j + 1) =~= line@.subrange(dstart as int, j as int).push(
            line@[j as int],
        ));
        j = j + 1;
    }
    if j < n {
        assert(exponent_digits(x)[j - dstart] == line@[j as int]);
        return None;
    }
    if j == dstart {
        return None;
    }
    assert(exponent_digits(x) =~= line@.subrange(dstart as int, j as int));
    Some((neg, ev))
}

/// The sample with digits `ds` and its point at `p`, if its value lies within [30, 220].
fn shifted_sample(ds: &Vec<char>, p: usize) -> (r: Option<Sample>)
    requires
        all_digits(ds@),
        0 < p < ds@.len() + 3,
    ensures
        ({
            let whole = digits_value(whole_digits(ds@, p as int));
            let frac = frac_digits(ds@, p as int);
            match r {
                Some(v) => in_range(whole, frac) && v@ == (SampleView {
                    whole,
                    frac: trim_zeros(frac),
                }) && valid_sample(v@),
                None => !in_range(whole, frac),
            }
        }),
{
    let mut wd: Vec<char> = Vec::new();
    let mut t: usize = 0;
    while t < p && t < ds.len()
        invariant
            t <= p,
            t <= ds@.len(),
            wd@ == ds@.take(t as int),
        decreases p - t,
    {
        wd.push(ds[t]);
        assert(wd@ =~= ds@.take(t + 1));
        t = t + 1;
    }
    if t < p {
        assert(wd@ =~= ds@ + zeros(0));
        while t < p
            invariant
                ds@.len() <= t <= p,
                wd@ == ds@ + zeros((t - ds@.len()) as nat),
            decreases p - t,
        {
            wd.push('0');
            assert(wd@ =~= ds@ + zeros((t + 1 - ds@.len()) as nat));
            t = t + 1;
        }
    }
    assert(wd@ =~= whole_digits(ds@, p as int));
    assert(all_digits(wd@));
    let whole = saturated_value(&wd);
    let mut frac: Vec<char> = Vec::new();
    let f0: usize = if p < ds.len() {
        p
    } else {
        ds.len()
    };
    let mut f: usize = f0;
    while f < ds.len()
        invariant
            f0 <= f <= ds@.len(),
            frac@ == ds@.subrange(f0 as int, f as int),
            all_digits(ds@),
        decreases ds@.len() - f,
    {
        frac.push(ds[f]);
        assert(frac@ =~= ds@.subrange(f0 as int, f + 1));
        f = f + 1;
    }
    assert(frac@ =~= frac_digits(ds@, p as int));
    assert(all_digits(frac@));
    let ghost full = frac@;
    while frac.len() > 0 && frac[frac.len() - 1] == '0'
        invariant
            trim_zeros(frac@) == trim_zeros(full),
            all_digits(frac@),
        decreases frac.len(),
    {
        frac.pop();
    }
    assert(trim_zeros(frac@) == frac@);
    if whole >= 30 && (whole < 220 || (whole == 220 && frac.len() == 0)) {
        Some(Sample { whole: whole as u32, frac })
    } else {
        None
    }
}

/// The sample that `line` reads as; see `parse_sample`.
pub fn sample_in(line: &Vec<char>) -> (r: Option<Sample>)
    ensures
        match r {
            Some(v) => sample_of(line@) == Some(v@) && valid_sample(v@),
            None => sample_of(line@) is None,
        },
{
    let n = line.len();
    let mut start: usize = 0;
    if n > 0 && line[0] == '+' {
        start = 1;
    }
    let ghost b = unsigned_text(line@);
    assert(b =~= line@.skip(start as int));
    let mut e: usize = start;
    while e < n && !(line[e] == 'e' || line[e] == 'E')
        invariant
            start <= e <= n,
            n == line@.len(),
            b == line@.skip(start as int),
            exponent_start(b) == (e - start) + exponent_start(line@.skip(e as int)),
        decreases n - e,
    {
        assert(line@.skip(e as int).drop_first() =~= line@.skip(e + 1));
        e = e + 1;
    }
    assert(exponent_start(line@.skip(e as int)) == 0);
    assert(b.take(exponent_start(b) as int) =~= line@.subrange(start as int, e as int));
    assert(b.skip(exponent_start(b) as int) =~= line@.skip(e as int));
    let (ds, int_len) = match mantissa_digits(line, start, e) {
        Some(x) => x,
        None => return None,
    };
    let (neg, ev) = match exponent_of(line, e) {
        Some(x) => x,
        None => return None,
    };
    let bound: u128 = n as u128 + 10;
    let ghost m = line@.subrange(start as int, e as int);
    let ghost x = line@.skip(e as int);
    let ghost pos = int_len + exponent_value(x);
    assert(m.take(lead_digits(m) as int).len() == int_len);
    assert(sample_of(line@) == (if is_decimal(m) && is_exponent(x) && in_range(
        digits_value(whole_digits(ds@, pos)),
        frac_digits(ds@, pos),
    ) {
        Some(
            SampleView {
                whole: digits_value(whole_digits(ds@, pos)),
                frac: trim_zeros(frac_digits(ds@, pos)),
            },
        )
    } else {
        None
    }));
    assert(int_len <= ds@.len());
    if ev > bound || (neg && ev >= int_len as u128) || (!neg && (int_len as u128 + ev >= ds.len()
        as u128 + 3 || int_len as u128 + ev == 0)) {
        proof {
            lemma_point_out_of_reach(ds@, pos);
        }
        return None;
    }
    let p: usize = if neg {
        int_len - ev as usize
    } else {
        int_len + ev as usize
    };
    assert(p as int == pos);
    shifted_sample(&ds, p)
}

/// The decimal digits of `n`.
pub fn digits_of(n: u64) -> (r: Vec<char>)
    ensures
        r@ == nat_text(n as nat),
{
    let mut m: u64 = n;
    let mut r: Vec<char> = Vec::new();
    while m >= 10
        invariant
            nat_text(n as nat) == nat_text(m as nat) + r@,
        decreases m,
    {
        let d = (m % 10) as u32;
        let c = char_of_digit(d);
        let ghost old_r = r@;
        r.insert(0, c);
        assert(nat_text(m as nat) == nat_text((m / 10) as nat).push(c));
        assert(nat_text((m / 10) as nat).push(c) + old_r =~= nat_text((m / 10) as nat) + r@);
        m = m / 10;
    }
    let c = char_of_digit(m as u32);
    let ghost old_r = r@;
    r.insert(0, c);
    assert(nat_text(m as nat) == seq![c]);
    assert(seq![c] + old_r =~= r@);
    r
}

fn char_of_digit(d: u32) -> (c: char)
    requires
        d < 10,
    ensures
        c == digit_char(d as nat),
        is_digit(c),
{
    ((d as u8) + 48u8) as char
}

} // verus!
