use vstd::prelude::*;
use vstd::string::StringSliceAdditionalSpecFns;

verus! {

/// Why an input could not be read as a wait specification.
#[derive(Clone, Copy, PartialEq, Eq, Structural, Debug)]
pub enum ParseError {
    /// A numeric run is empty or does not fit in 64 bits.
    MalformedNumber,
    /// A numeric run reaches the end of the input with no unit after it.
    MissingUnit,
    /// The character after a numeric run is not a unit.
    InvalidUnit,
    /// A unit is not strictly finer than the one before it.
    InvalidUnitOrdering,
    /// The milliseconds of a compound duration do not fit in 64 bits.
    DurationOverflow,
    /// A complete timestamp was read, but it lies before "now".
    TimestampInPast,
    /// No accepted format matches the input.
    UnrecognizedFormat,
}

/// A non-negative amount of time, counted in nanoseconds.
#[derive(Clone, Copy, PartialEq, Eq, Structural, Debug)]
pub struct Span {
    pub nanos: u128,
}

pub const NANOS_PER_SEC: u128 = 1_000_000_000;

pub const NANOS_PER_MILLI: u128 = 1_000_000;

impl Span {
    pub open spec fn value(self) -> int {
        self.nanos as int
    }

    /// The empty span.
    pub fn zero() -> (r: Span)
        ensures
            r.value() == 0,
    {
        Span { nanos: 0 }
    }

    /// Whole seconds of the span.
    pub fn whole_secs(&self) -> (r: u128)
        ensures
            r == self.nanos / NANOS_PER_SEC,
    {
        self.nanos / NANOS_PER_SEC
    }

    /// Nanoseconds past the last whole second.
    pub fn subsec_nanos(&self) -> (r: u32)
        ensures
            r == self.nanos % NANOS_PER_SEC,
    {
        (self.nanos % NANOS_PER_SEC) as u32
    }
}

/// The units of a compound duration, from the finest to the coarsest.
#[derive(Clone, Copy, PartialEq, Eq, Structural, Debug)]
pub enum Unit {
    Milliseconds,
    Seconds,
    Minutes,
    Hours,
    Days,
}

/// The place of a unit in the order of magnitudes: a larger rank is a coarser unit.
pub open spec fn rank(u: Unit) -> int {
    match u {
        Unit::Milliseconds => 0,
        Unit::Seconds => 1,
        Unit::Minutes => 2,
        Unit::Hours => 3,
        Unit::Days => 4,
    }
}

/// Milliseconds in one of a unit.
pub open spec fn millis_per(u: Unit) -> int {
    match u {
        Unit::Milliseconds => 1,
        Unit::Seconds => 1000,
        Unit::Minutes => 60_000,
        Unit::Hours => 3_600_000,
        Unit::Days => 86_400_000,
    }
}

fn unit_rank(u: Unit) -> (r: u8)
    ensures
        r as int == rank(u),
{
    match u {
        Unit::Milliseconds => 0,
        Unit::Seconds => 1,
        Unit::Minutes => 2,
        Unit::Hours => 3,
        Unit::Days => 4,
    }
}

fn unit_millis(u: Unit) -> (r: u64)
    ensures
        r as int == millis_per(u),
{
    match u {
        Unit::Milliseconds => 1,
        Unit::Seconds => 1000,
        Unit::Minutes => 60_000,
        Unit::Hours => 3_600_000,
        Unit::Days => 86_400_000,
    }
}

pub open spec fn is_digit(c: u8) -> bool {
    48 <= c <= 57
}

/// How many decimal digits stand in `b` from position `i` on.
pub open spec fn run_len(b: Seq<u8>, i: int) -> nat
    decreases b.len() - i,
{
    if 0 <= i < b.len() && is_digit(b[i]) {
        1 + run_len(b, i + 1)
    } else {
        0
    }
}

/// The number written by the digits `b[lo..hi]`.
pub open spec fn digits_value(b: Seq<u8>, lo: int, hi: int) -> int
    decreases hi - lo,
{
    if hi <= lo {
        0
    } else {
        digits_value(b, lo, hi - 1) * 10 + (b[hi - 1] - 48)
    }
}

/// The unit that starts at `b[j]`, and where the text after it starts.
pub open spec fn unit_at(b: Seq<u8>, j: int) -> Option<(Unit, int)> {
    if b[j] == 100 {
        Some((Unit::Days, j + 1))
    } else if b[j] == 104 {
        Some((Unit::Hours, j + 1))
    } else if b[j] == 109 {
        if j + 1 < b.len() && b[j + 1] == 115 {
            Some((Unit::Milliseconds, j + 2))
        } else {
            Some((Unit::Minutes, j + 1))
        }
    } else if b[j] == 115 {
        Some((Unit::Seconds, j + 1))
    } else {
        None
    }
}

/// Reads the `<number><unit>` pairs of `b` from position `i` on, after a pair in unit `last`
/// and with `total` milliseconds read so far.
pub open spec fn scan_units(b: Seq<u8>, i: int, last: Option<Unit>, total: int) -> Result<
    int,
    ParseError,
>
    decreases b.len() - i,
{
    if i < 0 || i >= b.len() {
        Ok(total)
    } else {
        let j = i + run_len(b, i);
        let v = digits_value(b, i, j);
        if j >= b.len() {
            Err(ParseError::MissingUnit)
        } else if j == i || v > u64::MAX {
            Err(ParseError::MalformedNumber)
        } else {
            match unit_at(b, j) {
                None => Err(ParseError::InvalidUnit),
                Some((u, next)) => {
                    if last is Some && rank(u) >= rank(last->0) {
                        Err(ParseError::InvalidUnitOrdering)
                    } else if v * millis_per(u) > u64::MAX || total + v * millis_per(u)
                        > u64::MAX {
                        Err(ParseError::DurationOverflow)
                    } else {
                        scan_units(b, next, Some(u), total + v * millis_per(u))
                    }
                },
            }
        }
    }
}

/// The milliseconds of a compound duration such as `1d2h3m4s5ms`.
pub open spec fn units_millis(b: Seq<u8>) -> Result<int, ParseError> {
    if b.len() == 0 {
        Err(ParseError::MalformedNumber)
    } else {
        scan_units(b, 0, None, 0)
    }
}

/// Where the digits of a plain number start: after an optional `+`.
pub open spec fn sign_len(b: Seq<u8>) -> int {
    if b.len() > 0 && b[0] == 43 {
        1
    } else {
        0
    }
}

/// A whole number of seconds: an optional `+` and then digits only, that fit in 64 bits.
pub open spec fn plain_seconds(b: Seq<u8>) -> Option<int> {
    let s = sign_len(b);
    if s < b.len() && s + run_len(b, s) == b.len() && digits_value(b, s, b.len() as int)
        <= u64::MAX {
        Some(digits_value(b, s, b.len() as int))
    } else {
        None
    }
}

/// Exponents past this are read as this: the result is then saturated or zero either way.
pub const EXPONENT_CAP: u128 = 1_000_000_000_000_000_000_000_000_000_000;

/// The digits `b[lo..hi]` read as a number that stops growing at `EXPONENT_CAP`.
pub open spec fn exponent_value(b: Seq<u8>, lo: int, hi: int) -> int
    decreases hi - lo,
{
    if hi <= lo {
        0
    } else {
        let v = exponent_value(b, lo, hi - 1) * 10 + (b[hi - 1] - 48);
        if v > EXPONENT_CAP {
            EXPONENT_CAP as int
        } else {
            v
        }
    }
}

/// The `j`-th digit of a mantissa whose integer digits are `b[s..s + ip]` and whose fraction
/// digits are `b[fs..fs + fp]`; zero past its end.
pub open spec fn mant_digit(b: Seq<u8>, s: int, ip: int, fs: int, fp: int, j: int) -> int {
    if 0 <= j < ip {
        b[s + j] - 48
    } else if ip <= j < ip + fp {
        b[fs + j - ip] - 48
    } else {
        0
    }
}

/// The first `count` digits of a mantissa as a number, saturated at `u64::MAX`.
pub open spec fn saturated_prefix(b: Seq<u8>, s: int, ip: int, fs: int, fp: int, count: nat) -> int
    decreases count,
{
    if count == 0 {
        0
    } else {
        let v = saturated_prefix(b, s, ip, fs, fp, (count - 1) as nat) * 10 + mant_digit(
            b,
            s,
            ip,
            fs,
            fp,
            count - 1,
        );
        if v > u64::MAX {
            u64::MAX as int
        } else {
            v
        }
    }
}

/// Seconds written as a floating-point number (`1.5`, `.25`, `1e3`, `2.5E-3`, `-0.0`), as
/// nanoseconds: an optional sign, digits with an optional decimal point (at least one digit),
/// and an optional exponent. The value is truncated to whole nanoseconds and saturated at
/// `u64::MAX` nanoseconds; a negative number gives zero.
pub open spec fn float_nanos(b: Seq<u8>) -> Option<int> {
    let n = b.len() as int;
    let neg = n > 0 && b[0] == 45;
    let s: int = if n > 0 && (b[0] == 43 || b[0] == 45) {
        1
    } else {
        0
    };
    let ip = run_len(b, s) as int;
    let p = s + ip;
    let has_dot = p < n && b[p] == 46;
    let fs = if has_dot {
        p + 1
    } else {
        p
    };
    let fp: int = if has_dot {
        run_len(b, fs) as int
    } else {
        0
    };
    let after = if has_dot {
        fs + fp
    } else {
        p
    };
    let has_exp = after < n && (b[after] == 101 || b[after] == 69);
    let es = after + 1;
    let esn: int = if es < n && (b[es] == 43 || b[es] == 45) {
        1
    } else {
        0
    };
    let ed = run_len(b, es + esn) as int;
    let e = if !has_exp {
        0
    } else if esn == 1 && b[es] == 45 {
        -exponent_value(b, es + esn, n)
    } else {
        exponent_value(b, es + esn, n)
    };
    let len = ip + e + 9;
    if !(ip + fp > 0 && (after == n || (has_exp && ed > 0 && es + esn + ed == n))) {
        None
    } else if neg || len <= 0 {
        Some(0)
    } else {
        Some(saturated_prefix(b, s, ip, fs, fp, len as nat))
    }
}

/// What a duration string denotes, in nanoseconds: whole seconds, floating-point seconds, or a
/// compound of units.
pub open spec fn duration_nanos(b: Seq<u8>) -> Result<int, ParseError> {
    if plain_seconds(b) is Some {
        Ok(plain_seconds(b)->0 * 1_000_000_000)
    } else if float_nanos(b) is Some {
        Ok(float_nanos(b)->0)
    } else {
        match units_millis(b) {
            Ok(m) => Ok(m * 1_000_000),
            Err(e) => Err(e),
        }
    }
}

proof fn lemma_run_len_split(b: Seq<u8>, i: int, j: int)
    requires
        0 <= i <= j <= i + run_len(b, i),
        i <= b.len(),
    ensures
        run_len(b, i) == (j - i) + run_len(b, j),
        forall|k: int| i <= k < j ==> is_digit(#[trigger] b[k]),
        j <= b.len(),
    decreases j - i,
{
    if i < j {
        lemma_run_len_split(b, i + 1, j);
    }
}

proof fn lemma_digits_value_mono(b: Seq<u8>, lo: int, k: int, hi: int)
    requires
        lo <= k <= hi,
        forall|x: int| lo <= x < hi ==> is_digit(#[trigger] b[x]),
    ensures
        0 <= digits_value(b, lo, k) <= digits_value(b, lo, hi),
    decreases hi - k,
{
    if k < hi {
        lemma_digits_value_mono(b, lo, k, hi - 1);
        lemma_digits_value_nonneg(b, lo, hi - 1);
    } else {
        lemma_digits_value_nonneg(b, lo, hi);
    }
}

proof fn lemma_digits_value_nonneg(b: Seq<u8>, lo: int, hi: int)
    requires
        forall|x: int| lo <= x < hi ==> is_digit(#[trigger] b[x]),
    ensures
        digits_value(b, lo, hi) >= 0,
    decreases hi - lo,
{
    if lo < hi {
        lemma_digits_value_nonneg(b, lo, hi - 1);
    }
}

proof fn lemma_saturated_stays(b: Seq<u8>, s: int, ip: int, fs: int, fp: int, j: nat, l: nat)
    requires
        j <= l,
        saturated_prefix(b, s, ip, fs, fp, j) == u64::MAX,
        forall|k: int| s <= k < s + ip ==> is_digit(#[trigger] b[k]),
        forall|k: int| fs <= k < fs + fp ==> is_digit(#[trigger] b[k]),
    ensures
        saturated_prefix(b, s, ip, fs, fp, l) == u64::MAX,
    decreases l,
{
    if j < l {
        lemma_saturated_stays(b, s, ip, fs, fp, j, (l - 1) as nat);
        let k = l - 1;
        if 0 <= k < ip {
            assert(is_digit(b[s + k]));
        } else if ip <= k < ip + fp {
            assert(is_digit(b[fs + k - ip]));
        }
    }
}

proof fn lemma_saturated_zero(b: Seq<u8>, s: int, ip: int, fs: int, fp: int, l: nat)
    requires
        forall|k: int| s <= k < s + ip ==> #[trigger] b[k] == 48,
        forall|k: int| fs <= k < fs + fp ==> #[trigger] b[k] == 48,
    ensures
        saturated_prefix(b, s, ip, fs, fp, l) == 0,
    decreases l,
{
    if l > 0 {
        lemma_saturated_zero(b, s, ip, fs, fp, (l - 1) as nat);
        let k = l - 1;
        if 0 <= k < ip {
            assert(b[s + k] == 48);
        } else if ip <= k < ip + fp {
            assert(b[fs + k - ip] == 48);
        }
    }
}

/// Finds the end of the digit run that starts at `i`.
fn digit_run_end(b: &[u8], i: usize) -> (j: usize)
    requires
        i <= b@.len(),
    ensures
        j as int == i + run_len(b@, i as int),
{
    let mut j: usize = i;
    while j < b.len() && b[j] >= 48 && b[j] <= 57
        invariant
            i <= j <= b@.len(),
            run_len(b@, i as int) == (j - i) + run_len(b@, j as int),
        decreases b@.len() - j,
    {
        j = j + 1;
    }
    j
}

/// The value of the digits `b[lo..hi]`, or `None` where it does not fit in 64 bits.
fn digits_to_u64(b: &[u8], lo: usize, hi: usize) -> (r: Option<u64>)
    requires
        lo <= hi <= b@.len(),
        forall|x: int| lo <= x < hi ==> is_digit(#[trigger] b@[x]),
    ensures
        match r {
            Some(v) => v as int == digits_value(b@, lo as int, hi as int),
            None => digits_value(b@, lo as int, hi as int) > u64::MAX,
        },
{
    let mut v: u64 = 0;
    let mut k: usize = lo;
    while k < hi
        invariant
            lo <= k <= hi <= b@.len(),
            forall|x: int| lo <= x < hi ==> is_digit(#[trigger] b@[x]),
            v as int == digits_value(b@, lo as int, k as int),
        decreases hi - k,
    {
        let d = (b[k] - 48) as u64;
        match v.checked_mul(10) {
            Some(t) => match t.checked_add(d) {
                Some(w) => {
                    v = w;
                },
                None => {
                    proof {
                        lemma_digits_value_mono(b@, lo as int, k + 1, hi as int);
                    }
                    return None;
                },
            },
            None => {
                proof {
                    lemma_digits_value_mono(b@, lo as int, k + 1, hi as int);
                }
                return None;
            },
        }
        k = k + 1;
    }
    Some(v)
}

/// Reads a compound duration such as `1d2h3m4s5ms` into milliseconds.
pub fn parse_duration_str_with_units(value: &str) -> (r: Result<u64, ParseError>)
    ensures
        match r {
            Ok(m) => units_millis(value.spec_bytes()) == Ok::<int, ParseError>(m as int),
            Err(e) => units_millis(value.spec_bytes()) == Err::<int, ParseError>(e),
        },
{
    let b = value.as_bytes();
    let n = b.len();
    if n == 0 {
        return Err(ParseError::MalformedNumber);
    }
    let mut total: u64 = 0;
    let mut last: Option<Unit> = None;
    let mut i: usize = 0;
    while i < n
        invariant
            n == b@.len(),
            b@ == value.spec_bytes(),
            0 <= i <= n,
            units_millis(b@) == scan_units(b@, i as int, last, total as int),
        decreases n - i,
    {
        let j = digit_run_end(b, i);
        proof {
            lemma_run_len_split(b@, i as int, j as int);
        }
        if j == n {
            return Err(ParseError::MissingUnit);
        }
        if j == i {
            return Err(ParseError::MalformedNumber);
        }
        let v = match digits_to_u64(b, i, j) {
            Some(v) => v,
            None => {
                return Err(ParseError::MalformedNumber);
            },
        };
        let c = b[j];
        let (unit, next) = if c == 100 {
            (Unit::Days, j + 1)
        } else if c == 104 {
            (Unit::Hours, j + 1)
        } else if c == 109 {
            if j + 1 < n && b[j + 1] == 115 {
                (Unit::Milliseconds, j + 2)
            } else {
                (Unit::Minutes, j + 1)
            }
        } else if c == 115 {
            (Unit::Seconds, j + 1)
        } else {
            return Err(ParseError::InvalidUnit);
        };
        assert(unit_at(b@, j as int) == Some((unit, next as int)));
        match last {
            Some(l) => {
                if unit_rank(unit) >= unit_rank(l) {
                    return Err(ParseError::InvalidUnitOrdering);
                }
            },
            None => {},
        }
        let contribution = match v.checked_mul(unit_millis(unit)) {
            Some(c) => c,
            None => {
                return Err(ParseError::DurationOverflow);
            },
        };
        total = match total.checked_add(contribution) {
            Some(t) => t,
            None => {
                return Err(ParseError::DurationOverflow);
            },
        };
        last = Some(unit);
        i = next;
    }
    Ok(total)
}

fn parse_plain_seconds(b: &[u8]) -> (r: Option<u64>)
    ensures
        match r {
            Some(v) => plain_seconds(b@) == Some(v as int),
            None => plain_seconds(b@) is None,
        },
{
    let n = b.len();
    let s: usize = if n > 0 && b[0] == 43 {
        1
    } else {
        0
    };
    if s >= n {
        return None;
    }
    let j = digit_run_end(b, s);
    if j != n {
        return None;
    }
    proof {
        lemma_run_len_split(b@, s as int, j as int);
    }
    digits_to_u64(b, s, n)
}

/// Whether every byte of `b[lo..hi]` is the digit zero.
fn all_zeros(b: &[u8], lo: usize, hi: usize) -> (r: bool)
    requires
        lo <= hi <= b@.len(),
    ensures
        r == (forall|k: int| lo <= k < hi ==> #[trigger] b@[k] == 48),
{
    let mut k: usize = lo;
    while k < hi
        invariant
            lo <= k <= hi <= b@.len(),
            forall|x: int| lo <= x < k ==> #[trigger] b@[x] == 48,
        decreases hi - k,
    {
        if b[k] != 48 {
            return false;
        }
        k = k + 1;
    }
    true
}

/// The digits `b[lo..hi]` as a number that stops growing at `EXPONENT_CAP`.
fn read_exponent(b: &[u8], lo: usize, hi: usize) -> (r: u128)
    requires
        lo <= hi <= b@.len(),
        forall|x: int| lo <= x < hi ==> is_digit(#[trigger] b@[x]),
    ensures
        r as int == exponent_value(b@, lo as int, hi as int),
        r <= EXPONENT_CAP,
{
    let mut acc: u128 = 0;
    let mut k: usize = lo;
    while k < hi
        invariant
            lo <= k <= hi <= b@.len(),
            forall|x: int| lo <= x < hi ==> is_digit(#[trigger] b@[x]),
            acc as int == exponent_value(b@, lo as int, k as int),
            acc <= EXPONENT_CAP,
        decreases hi - k,
    {
        let v = acc * 10 + (b[k] - 48) as u128;
        acc = if v > EXPONENT_CAP {
            EXPONENT_CAP
        } else {
            v
        };
        k = k + 1;
    }
    acc
}

/// The first `len` digits of the mantissa `b[s..s + ip]`, `b[fs..fs + fp]` as a number,
/// saturated at `u64::MAX`.
fn mantissa_nanos(b: &[u8], s: usize, ip: usize, fs: usize, fp: usize, lenu: u128) -> (r: u64)
    requires
        s + ip <= fs,
        fs + fp <= b@.len(),
        forall|k: int| s <= k < s + ip ==> is_digit(#[trigger] b@[k]),
        forall|k: int| fs <= k < fs + fp ==> is_digit(#[trigger] b@[k]),
    ensures
        r as int == saturated_prefix(b@, s as int, ip as int, fs as int, fp as int, lenu as nat),
{
    let n = b.len();
    let mut acc: u64 = 0;
    let mut j: u128 = 0;
    while j < lenu && acc < u64::MAX
        invariant
            j <= lenu,
            s + ip <= fs,
            fs + fp <= b@.len() == n,
            forall|k: int| s <= k < s + ip ==> is_digit(#[trigger] b@[k]),
            forall|k: int| fs <= k < fs + fp ==> is_digit(#[trigger] b@[k]),
            acc as int == saturated_prefix(b@, s as int, ip as int, fs as int, fp as int, j as nat),
        decreases lenu - j,
    {
        let d: u64 = if j < ip as u128 {
            (b[s + j as usize] - 48) as u64
        } else if j < (ip + fp) as u128 {
            (b[fs + (j as usize - ip)] - 48) as u64
        } else {
            0
        };
        assert(d as int == mant_digit(b@, s as int, ip as int, fs as int, fp as int, j as int));
        let v: u128 = acc as u128 * 10 + d as u128;
        acc = if v > u64::MAX as u128 {
            u64::MAX
        } else {
            v as u64
        };
        j = j + 1;
    }
    if acc == u64::MAX {
        proof {
            lemma_saturated_stays(
                b@,
                s as int,
                ip as int,
                fs as int,
                fp as int,
                j as nat,
                lenu as nat,
            );
        }
    }
    acc
}

#[verifier::rlimit(60)]
fn parse_float_nanos(b: &[u8]) -> (r: Option<u64>)
    ensures
        match r {
            Some(v) => float_nanos(b@) == Some(v as int),
            None => float_nanos(b@) is None,
        },
{
    let n = b.len();
    let neg = n > 0 && b[0] == 45;
    let s: usize = if n > 0 && (b[0] == 43 || b[0] == 45) {
        1
    } else {
        0
    };
    let p = digit_run_end(b, s);
    proof {
        lemma_run_len_split(b@, s as int, p as int);
    }
    let ip = p - s;
    let has_dot = p < n && b[p] == 46;
    let fs: usize = if has_dot {
        p + 1
    } else {
        p
    };
    let (fp, after) = if has_dot {
        let a = digit_run_end(b, fs);
        proof {
            lemma_run_len_split(b@, fs as int, a as int);
        }
        (a - fs, a)
    } else {
        (0, p)
    };
    assert(fs + fp == after <= n);
    assert(ip <= fs);
    if ip == 0 && fp == 0 {
        return None;
    }
    let mut e: i128 = 0;
    if after < n {
        if b[after] != 101 && b[after] != 69 {
            return None;
        }
        let es = after + 1;
        let esn: usize = if es < n && (b[es] == 43 || b[es] == 45) {
            1
        } else {
            0
        };
        let start = es + esn;
        let end = digit_run_end(b, start);
        if end == start || end != n {
            return None;
        }
        proof {
            lemma_run_len_split(b@, start as int, end as int);
        }
        let mag = read_exponent(b, start, n);
        e = if esn == 1 && b[es] == 45 {
            -(mag as i128)
        } else {
            mag as i128
        };
    }
    if neg {
        return Some(0);
    }
    let len: i128 = ip as i128 + e + 9;
    if len <= 0 {
        return Some(0);
    }
    if all_zeros(b, s, p) && all_zeros(b, fs, fs + fp) {
        proof {
            lemma_saturated_zero(b@, s as int, ip as int, fs as int, fp as int, len as nat);
        }
        return Some(0);
    }
    Some(mantissa_nanos(b, s, ip, fs, fp, len as u128))
}

/// Reads a duration: whole seconds (`123`), floating-point seconds (`1.5`, `1e3`), or a compound of units
/// (`1d2h3m4s5ms`), tried in that order.
pub fn parse_duration_str(value: &str) -> (r: Result<Span, ParseError>)
    ensures
        match r {
            Ok(sp) => duration_nanos(value.spec_bytes()) == Ok::<int, ParseError>(sp.value()),
            Err(e) => duration_nanos(value.spec_bytes()) == Err::<int, ParseError>(e),
        },
{
    let b = value.as_bytes();
    if let Some(secs) = parse_plain_seconds(b) {
        return Ok(Span { nanos: secs as u128 * NANOS_PER_SEC });
    }
    if let Some(nanos) = parse_float_nanos(b) {
        return Ok(Span { nanos: nanos as u128 });
    }
    match parse_duration_str_with_units(value) {
        Ok(ms) => Ok(Span { nanos: ms as u128 * NANOS_PER_MILLI }),
        Err(e) => Err(e),
    }
}

/// The decimal digits of `n`, with no leading zero.
pub open spec fn decimal_digits(n: nat) -> Seq<u8>
    decreases n,
{
    if n < 10 {
        seq![(48 + n) as u8]
    } else {
        decimal_digits(n / 10).push((48 + n % 10) as u8)
    }
}

/// How a unit is written.
pub open spec fn unit_suffix(u: Unit) -> Seq<u8> {
    match u {
        Unit::Milliseconds => seq![109u8, 115u8],
        Unit::Seconds => seq![115u8],
        Unit::Minutes => seq![109u8],
        Unit::Hours => seq![104u8],
        Unit::Days => seq![100u8],
    }
}

/// The text of `<number><unit>` pairs, one after another.
pub open spec fn compose(parts: Seq<(nat, Unit)>) -> Seq<u8>
    decreases parts.len(),
{
    if parts.len() == 0 {
        Seq::empty()
    } else {
        decimal_digits(parts[0].0) + unit_suffix(parts[0].1) + compose(parts.drop_first())
    }
}

/// The milliseconds that the pairs add up to.
pub open spec fn parts_total(parts: Seq<(nat, Unit)>) -> int
    decreases parts.len(),
{
    if parts.len() == 0 {
        0
    } else {
        parts[0].0 * millis_per(parts[0].1) + parts_total(parts.drop_first())
    }
}

/// Each unit of the pairs is strictly finer than the one before it, and than `last`.
pub open spec fn descending(parts: Seq<(nat, Unit)>, last: Option<Unit>) -> bool
    decreases parts.len(),
{
    parts.len() == 0 || ((last is None || rank(parts[0].1) < rank(last->0)) && descending(
        parts.drop_first(),
        Some(parts[0].1),
    ))
}

/// The `k`-th unit, from the coarsest.
pub open spec fn unit_from_coarsest(k: nat) -> Unit {
    if k == 0 {
        Unit::Days
    } else if k == 1 {
        Unit::Hours
    } else if k == 2 {
        Unit::Minutes
    } else if k == 3 {
        Unit::Seconds
    } else {
        Unit::Milliseconds
    }
}

/// The non-zero pairs of `rem` milliseconds over the units from the `k`-th coarsest on.
pub open spec fn parts_from(rem: nat, k: nat) -> Seq<(nat, Unit)>
    decreases 5 - k,
{
    if k >= 5 {
        Seq::empty()
    } else {
        let u = unit_from_coarsest(k);
        let v = rem / (millis_per(u) as nat);
        let rest = parts_from(rem % (millis_per(u) as nat), k + 1);
        if v > 0 {
            seq![(v, u)] + rest
        } else {
            rest
        }
    }
}

/// The pairs of the canonical text of `ms` milliseconds: every non-zero unit from the
/// coarsest, and `0ms` for nothing.
pub open spec fn canonical_parts(ms: nat) -> Seq<(nat, Unit)> {
    if parts_from(ms, 0).len() == 0 {
        seq![(0nat, Unit::Milliseconds)]
    } else {
        parts_from(ms, 0)
    }
}

proof fn lemma_decimal_digits(b: Seq<u8>, i: int, n: nat)
    requires
        0 <= i,
        i + decimal_digits(n).len() <= b.len(),
        b.subrange(i, i + decimal_digits(n).len()) == decimal_digits(n),
    ensures
        decimal_digits(n).len() >= 1,
        forall|k: int| i <= k < i + decimal_digits(n).len() ==> is_digit(#[trigger] b[k]),
        digits_value(b, i, i + decimal_digits(n).len()) == n,
    decreases n,
{
    let d = decimal_digits(n);
    let l = d.len() as int;
    if n < 10 {
        assert(b[i] == b.subrange(i, i + l)[0]);
        assert(digits_value(b, i, i) == 0);
    } else {
        let e = decimal_digits(n / 10);
        let le = e.len() as int;
        assert(b.subrange(i, i + le) =~= b.subrange(i, i + l).subrange(0, le));
        assert(d.subrange(0, le) =~= e);
        lemma_decimal_digits(b, i, n / 10);
        assert(b[i + le] == b.subrange(i, i + l)[le]);
        assert forall|k: int| i <= k < i + l implies is_digit(#[trigger] b[k]) by {
            if k < i + le {
            } else {
                assert(b[k] == d[le]);
            }
        }
    }
}

proof fn lemma_run_len_exact(b: Seq<u8>, i: int, l: int)
    requires
        0 <= i,
        0 <= l,
        i + l <= b.len(),
        forall|k: int| i <= k < i + l ==> is_digit(#[trigger] b[k]),
        i + l == b.len() || !is_digit(b[i + l]),
    ensures
        run_len(b, i) == l,
    decreases l,
{
    if l > 0 {
        lemma_run_len_exact(b, i + 1, l - 1);
    }
}

proof fn lemma_compose_nonempty(parts: Seq<(nat, Unit)>)
    requires
        parts.len() > 0,
    ensures
        compose(parts).len() > decimal_digits(parts[0].0).len(),
        compose(parts)[decimal_digits(parts[0].0).len() as int] == unit_suffix(parts[0].1)[0],
        is_digit(compose(parts)[0]),
{
    let d = decimal_digits(parts[0].0);
    let t = d + unit_suffix(parts[0].1);
    assert(compose(parts) == t + compose(parts.drop_first()));
    assert(compose(parts)[d.len() as int] == t[d.len() as int]);
    assert(d.subrange(0, d.len() as int) =~= d);
    lemma_decimal_digits(d, 0, parts[0].0);
    assert(compose(parts)[0] == d[0]);
}

/// Reading the pairs `parts` from position `i` on adds their milliseconds to `total`.
proof fn lemma_scan_compose(
    b: Seq<u8>,
    i: int,
    parts: Seq<(nat, Unit)>,
    last: Option<Unit>,
    total: int,
)
    requires
        0 <= i <= b.len(),
        b.subrange(i, b.len() as int) == compose(parts),
        descending(parts, last),
        0 <= total,
        total + parts_total(parts) <= u64::MAX,
    ensures
        scan_units(b, i, last, total) == Ok::<int, ParseError>(total + parts_total(parts)),
    decreases parts.len(),
{
    if parts.len() == 0 {
        assert(b.subrange(i, b.len() as int).len() == 0);
    } else {
        let (v, u) = parts[0];
        let rest = parts.drop_first();
        let d = decimal_digits(v);
        let l = d.len() as int;
        let sfx = unit_suffix(u);
        let tail = b.subrange(i, b.len() as int);
        assert(tail == d + sfx + compose(rest));
        assert(tail.len() == l + sfx.len() + compose(rest).len());
        assert(b.subrange(i, i + l) =~= tail.subrange(0, l));
        assert(tail.subrange(0, l) =~= d);
        lemma_decimal_digits(b, i, v);
        assert(b[i + l] == tail[l]);
        lemma_run_len_exact(b, i, l);
        lemma_parts_total_nonneg(rest);
        let next = i + l + sfx.len();
        if rest.len() > 0 {
            lemma_compose_nonempty(rest);
            assert(b[next] == tail[l + sfx.len()]);
            assert(compose(rest)[0] == tail[l + sfx.len()]);
        }
        if u == Unit::Minutes && i + l + 1 < b.len() {
            assert(b[i + l + 1] == tail[l + 1]);
            assert(rest.len() > 0);
        }
        if u == Unit::Milliseconds {
            assert(b[i + l + 1] == tail[l + 1]);
        }
        assert(unit_at(b, i + l) == Some((u, next)));
        assert(v * millis_per(u) >= 0) by (nonlinear_arith)
            requires
                millis_per(u) >= 1,
        ;
        assert(tail.subrange(l + sfx.len(), tail.len() as int) =~= compose(rest));
        assert(b.subrange(next, b.len() as int) =~= tail.subrange(
            l + sfx.len(),
            tail.len() as int,
        ));
        lemma_scan_compose(b, next, rest, Some(u), total + v * millis_per(u));
    }
}

proof fn lemma_parts_total_nonneg(parts: Seq<(nat, Unit)>)
    ensures
        parts_total(parts) >= 0,
    decreases parts.len(),
{
    if parts.len() > 0 {
        lemma_parts_total_nonneg(parts.drop_first());
        assert(parts[0].0 * millis_per(parts[0].1) >= 0) by (nonlinear_arith)
            requires
                millis_per(parts[0].1) >= 1,
        ;
    }
}

/// A number as written: at least one digit, leading zeros allowed.
pub open spec fn written_number(w: Seq<u8>) -> bool {
    w.len() > 0 && forall|k: int| 0 <= k < w.len() ==> is_digit(#[trigger] w[k])
}

/// The text of `<number><unit>` pairs whose numbers are given as written.
pub open spec fn compose_written(parts: Seq<(Seq<u8>, Unit)>) -> Seq<u8>
    decreases parts.len(),
{
    if parts.len() == 0 {
        Seq::empty()
    } else {
        parts[0].0 + unit_suffix(parts[0].1) + compose_written(parts.drop_first())
    }
}

/// The milliseconds that written pairs add up to.
pub open spec fn written_total(parts: Seq<(Seq<u8>, Unit)>) -> int
    decreases parts.len(),
{
    if parts.len() == 0 {
        0
    } else {
        digits_value(parts[0].0, 0, parts[0].0.len() as int) * millis_per(parts[0].1)
            + written_total(parts.drop_first())
    }
}

/// Written pairs whose numbers are well formed and whose units each are strictly finer than the
/// one before, and than `last`.
pub open spec fn written_descending(parts: Seq<(Seq<u8>, Unit)>, last: Option<Unit>) -> bool
    decreases parts.len(),
{
    parts.len() == 0 || (written_number(parts[0].0) && (last is None || rank(parts[0].1) < rank(
        last->0,
    )) && written_descending(parts.drop_first(), Some(parts[0].1)))
}

/// The unit of the last written pair, or `last` when there are none.
pub open spec fn written_final_unit(parts: Seq<(Seq<u8>, Unit)>, last: Option<Unit>) -> Option<
    Unit,
>
    decreases parts.len(),
{
    if parts.len() == 0 {
        last
    } else {
        written_final_unit(parts.drop_first(), Some(parts[0].1))
    }
}

proof fn lemma_digits_value_copy(b: Seq<u8>, i: int, w: Seq<u8>, k: int)
    requires
        0 <= i,
        0 <= k <= w.len(),
        i + w.len() <= b.len(),
        b.subrange(i, i + w.len()) == w,
    ensures
        digits_value(b, i, i + k) == digits_value(w, 0, k),
    decreases k,
{
    if k > 0 {
        lemma_digits_value_copy(b, i, w, k - 1);
        assert(b[i + k - 1] == b.subrange(i, i + w.len())[k - 1]);
    }
}

proof fn lemma_written_total_nonneg(parts: Seq<(Seq<u8>, Unit)>, last: Option<Unit>)
    requires
        written_descending(parts, last),
    ensures
        written_total(parts) >= 0,
    decreases parts.len(),
{
    if parts.len() > 0 {
        let w = parts[0].0;
        lemma_written_total_nonneg(parts.drop_first(), Some(parts[0].1));
        lemma_digits_value_nonneg(w, 0, w.len() as int);
        let v = digits_value(w, 0, w.len() as int);
        assert(v * millis_per(parts[0].1) >= 0) by (nonlinear_arith)
            requires
                v >= 0,
                millis_per(parts[0].1) >= 1,
        ;
    }
}

/// The number `w` standing at position `i`, followed by a byte that is not a digit: it forms the
/// whole digit run there.
proof fn lemma_number_at(b: Seq<u8>, i: int, w: Seq<u8>)
    requires
        0 <= i,
        i + w.len() < b.len(),
        b.subrange(i, i + w.len()) == w,
        written_number(w),
        !is_digit(b[i + w.len()]),
    ensures
        run_len(b, i) == w.len(),
        digits_value(b, i, i + w.len()) == digits_value(w, 0, w.len() as int),
        digits_value(w, 0, w.len() as int) >= 0,
{
    assert forall|k: int| i <= k < i + w.len() implies is_digit(#[trigger] b[k]) by {
        assert(b[k] == b.subrange(i, i + w.len())[k - i]);
    }
    lemma_run_len_exact(b, i, w.len() as int);
    lemma_digits_value_copy(b, i, w, w.len() as int);
    lemma_digits_value_nonneg(w, 0, w.len() as int);
}

/// Reading written pairs from position `i` on, when a digit or the end follows them, adds their
/// milliseconds to `total` and goes on after them.
proof fn lemma_scan_written(
    b: Seq<u8>,
    i: int,
    parts: Seq<(Seq<u8>, Unit)>,
    last: Option<Unit>,
    total: int,
)
    requires
        0 <= i,
        i + compose_written(parts).len() <= b.len(),
        b.subrange(i, i + compose_written(parts).len()) == compose_written(parts),
        i + compose_written(parts).len() < b.len() ==> is_digit(
            b[i + compose_written(parts).len()],
        ),
        written_descending(parts, last),
        0 <= total,
        total + written_total(parts) <= u64::MAX,
    ensures
        scan_units(b, i, last, total) == scan_units(
            b,
            i + compose_written(parts).len(),
            written_final_unit(parts, last),
            total + written_total(parts),
        ),
    decreases parts.len(),
{
    if parts.len() > 0 {
        let (w, u) = parts[0];
        let rest = parts.drop_first();
        let l = w.len() as int;
        let sfx = unit_suffix(u);
        let c = compose_written(parts);
        let seg = b.subrange(i, i + c.len());
        assert(c == w + sfx + compose_written(rest));
        assert(c.len() == l + sfx.len() + compose_written(rest).len());
        assert(b.subrange(i, i + l) =~= seg.subrange(0, l));
        assert(seg.subrange(0, l) =~= w);
        assert(b[i + l] == seg[l]);
        lemma_number_at(b, i, w);
        lemma_written_total_nonneg(rest, Some(u));
        let v = digits_value(w, 0, l);
        assert(v <= v * millis_per(u)) by (nonlinear_arith)
            requires
                v >= 0,
                millis_per(u) >= 1,
        ;
        let next = i + l + sfx.len();
        if rest.len() > 0 {
            let w2 = rest[0].0;
            assert(written_descending(rest, Some(u)));
            assert(written_number(w2));
            assert(w2.len() > 0);
            assert(is_digit(w2[0]));
            assert(compose_written(rest) == w2 + unit_suffix(rest[0].1) + compose_written(
                rest.drop_first(),
            ));
            assert(b[next] == seg[l + sfx.len()]);
            assert(compose_written(rest)[0] == w2[0]);
            assert(is_digit(w2[0]));
        }
        if u == Unit::Minutes && i + l + 1 < b.len() {
            if rest.len() == 0 {
                assert(is_digit(b[i + l + 1]));
            } else {
                assert(b[i + l + 1] == seg[l + 1]);
            }
        }
        if u == Unit::Milliseconds {
            assert(b[i + l + 1] == seg[l + 1]);
        }
        assert(unit_at(b, i + l) == Some((u, next)));
        assert(b.subrange(next, next + compose_written(rest).len()) =~= seg.subrange(
            l + sfx.len(),
            c.len() as int,
        ));
        assert(seg.subrange(l + sfx.len(), c.len() as int) =~= compose_written(rest));
        lemma_scan_written(b, next, rest, Some(u), total + v * millis_per(u));
    }
}

/// Strictly descending pairs (numbers as written, leading zeros allowed), then a number in a
/// unit that is the same as or coarser than the last of them: the compound is refused for its
/// unit ordering, whatever follows.
pub proof fn law_unit_ordering(parts: Seq<(Seq<u8>, Unit)>, w: Seq<u8>, u: Unit, rest: Seq<u8>)
    requires
        written_descending(parts, None),
        written_total(parts) <= u64::MAX,
        written_final_unit(parts, None) is Some,
        rank(u) >= rank(written_final_unit(parts, None)->0),
        written_number(w),
        digits_value(w, 0, w.len() as int) <= u64::MAX,
        u == Unit::Minutes ==> rest.len() == 0 || rest[0] != 115,
    ensures
        units_millis(compose_written(parts) + w + unit_suffix(u) + rest) == Err::<
            int,
            ParseError,
        >(ParseError::InvalidUnitOrdering),
{
    let c = compose_written(parts);
    let sfx = unit_suffix(u);
    let b = c + w + sfx + rest;
    let i = c.len() as int;
    let l = w.len() as int;
    assert(b.subrange(0, i) =~= c);
    assert(b.subrange(i, i + l) =~= w);
    assert(b[i] == w[0]);
    lemma_scan_written(b, 0, parts, None, 0);
    assert(b[i + l] == sfx[0]);
    lemma_number_at(b, i, w);
    if u == Unit::Milliseconds {
        assert(b[i + l + 1] == sfx[1]);
    }
    if u == Unit::Minutes && i + l + 1 < b.len() {
        assert(b[i + l + 1] == rest[0]);
    }
}

/// Strictly descending pairs followed by a bare number: the compound is refused for the
/// missing unit.
pub proof fn law_missing_unit(parts: Seq<(Seq<u8>, Unit)>, w: Seq<u8>)
    requires
        written_descending(parts, None),
        written_total(parts) <= u64::MAX,
        written_number(w),
    ensures
        units_millis(compose_written(parts) + w) == Err::<int, ParseError>(
            ParseError::MissingUnit,
        ),
{
    let c = compose_written(parts);
    let b = c + w;
    let i = c.len() as int;
    assert(b.subrange(0, i) =~= c);
    assert(b[i] == w[0]);
    lemma_scan_written(b, 0, parts, None, 0);
    assert forall|k: int| i <= k < i + w.len() implies is_digit(#[trigger] b[k]) by {
        assert(b[k] == w[k - i]);
    }
    lemma_run_len_exact(b, i, w.len() as int);
}

/// Strictly descending pairs, then a number followed by a byte that is neither a digit nor a
/// unit: the compound is refused for that unit, whatever follows.
pub proof fn law_invalid_unit(parts: Seq<(Seq<u8>, Unit)>, w: Seq<u8>, c: u8, rest: Seq<u8>)
    requires
        written_descending(parts, None),
        written_total(parts) <= u64::MAX,
        written_number(w),
        digits_value(w, 0, w.len() as int) <= u64::MAX,
        !is_digit(c),
        c != 100 && c != 104 && c != 109 && c != 115,
    ensures
        units_millis(compose_written(parts) + w + seq![c] + rest) == Err::<int, ParseError>(
            ParseError::InvalidUnit,
        ),
{
    let cw = compose_written(parts);
    let b = cw + w + seq![c] + rest;
    let i = cw.len() as int;
    let l = w.len() as int;
    assert(b.subrange(0, i) =~= cw);
    assert(b.subrange(i, i + l) =~= w);
    assert(b[i] == w[0]);
    lemma_scan_written(b, 0, parts, None, 0);
    assert(b[i + l] == c);
    lemma_number_at(b, i, w);
}

/// A compound duration written as `<number><unit>` pairs in strictly descending units reads as
/// the exact sum of their milliseconds, as long as that sum fits in 64 bits.
pub proof fn law_units_sum(parts: Seq<(nat, Unit)>)
    requires
        parts.len() > 0,
        descending(parts, None),
        parts_total(parts) <= u64::MAX,
    ensures
        units_millis(compose(parts)) == Ok::<int, ParseError>(parts_total(parts)),
        duration_nanos(compose(parts)) == Ok::<int, ParseError>(parts_total(parts) * 1_000_000),
{
    let b = compose(parts);
    lemma_compose_nonempty(parts);
    assert(b.subrange(0, b.len() as int) =~= b);
    lemma_scan_compose(b, 0, parts, None, 0);
    let l = decimal_digits(parts[0].0).len() as int;
    assert(b.subrange(0, l) =~= decimal_digits(parts[0].0)) by {
        assert(b == decimal_digits(parts[0].0) + unit_suffix(parts[0].1) + compose(
            parts.drop_first(),
        ));
    }
    lemma_decimal_digits(b, 0, parts[0].0);
    lemma_run_len_exact(b, 0, l);
    assert(sign_len(b) == 0);
    assert(plain_seconds(b) is None);
    assert(float_nanos(b) is None);
}

/// Every compound of the five units, days down to milliseconds, reads as the exact sum of its
/// milliseconds when that sum fits in 64 bits: `1d2h3m4s5ms` is 93_784_005 milliseconds.
pub proof fn law_full_compound(d: nat, h: nat, m: nat, s: nat, ms: nat)
    requires
        d * 86_400_000 + h * 3_600_000 + m * 60_000 + s * 1000 + ms <= u64::MAX,
    ensures
        units_millis(
            compose(
                seq![
                    (d, Unit::Days),
                    (h, Unit::Hours),
                    (m, Unit::Minutes),
                    (s, Unit::Seconds),
                    (ms, Unit::Milliseconds),
                ],
            ),
        ) == Ok::<int, ParseError>(
            (d * 86_400_000 + h * 3_600_000 + m * 60_000 + s * 1000 + ms) as int,
        ),
        duration_nanos(
            compose(
                seq![
                    (d, Unit::Days),
                    (h, Unit::Hours),
                    (m, Unit::Minutes),
                    (s, Unit::Seconds),
                    (ms, Unit::Milliseconds),
                ],
            ),
        ) == Ok::<int, ParseError>(
            ((d * 86_400_000 + h * 3_600_000 + m * 60_000 + s * 1000 + ms) * 1_000_000) as int,
        ),
{
    let p = seq![
        (d, Unit::Days),
        (h, Unit::Hours),
        (m, Unit::Minutes),
        (s, Unit::Seconds),
        (ms, Unit::Milliseconds),
    ];
    let from_h = seq![(h, Unit::Hours), (m, Unit::Minutes), (s, Unit::Seconds), (ms, Unit::Milliseconds)];
    let from_m = seq![(m, Unit::Minutes), (s, Unit::Seconds), (ms, Unit::Milliseconds)];
    let from_s = seq![(s, Unit::Seconds), (ms, Unit::Milliseconds)];
    let from_ms = seq![(ms, Unit::Milliseconds)];
    assert(p.drop_first() =~= from_h);
    assert(from_h.drop_first() =~= from_m);
    assert(from_m.drop_first() =~= from_s);
    assert(from_s.drop_first() =~= from_ms);
    assert(from_ms.drop_first() =~= Seq::<(nat, Unit)>::empty());
    assert(from_ms[0] == (ms, Unit::Milliseconds));
    assert(parts_total(from_ms.drop_first()) == 0);
    assert(descending(from_ms.drop_first(), Some(Unit::Milliseconds)));
    assert(parts_total(from_ms) == from_ms[0].0 * millis_per(from_ms[0].1) + parts_total(from_ms.drop_first()));
    assert(parts_total(from_ms) == ms);
    assert(parts_total(from_s) == s * 1000 + ms);
    assert(parts_total(from_m) == m * 60_000 + s * 1000 + ms);
    assert(parts_total(from_h) == h * 3_600_000 + m * 60_000 + s * 1000 + ms);
    assert(parts_total(p) == d * 86_400_000 + h * 3_600_000 + m * 60_000 + s * 1000 + ms);
    assert(descending(from_ms, Some(Unit::Seconds)));
    assert(descending(from_s, Some(Unit::Minutes)));
    assert(descending(from_m, Some(Unit::Hours)));
    assert(descending(from_h, Some(Unit::Days)));
    assert(descending(p, None));
    law_units_sum(p);
}

proof fn lemma_parts_from(rem: nat, k: nat, last: Option<Unit>)
    requires
        k <= 5,
        last is None || rank(last->0) > 4 - k,
    ensures
        parts_total(parts_from(rem, k)) == (if k < 5 {
            rem as int
        } else {
            0
        }),
        descending(parts_from(rem, k), last),
    decreases 5 - k,
{
    if k < 5 {
        let u = unit_from_coarsest(k);
        let m = millis_per(u) as nat;
        let v = rem / m;
        let rest = parts_from(rem % m, k + 1);
        vstd::arithmetic::div_mod::lemma_fundamental_div_mod(rem as int, m as int);
        lemma_parts_from(rem % m, k + 1, Some(u));
        lemma_parts_from(rem % m, k + 1, last);
        if k == 4 {
            assert(rem % 1 == 0);
        }
        if v > 0 {
            let p = seq![(v, u)] + rest;
            assert(p[0] == (v, u));
            assert(p.drop_first() =~= rest);
            assert(v * m == m * v) by (nonlinear_arith);
        } else {
            assert(m * 0 == 0);
        }
    }
}

/// Writes `n` in decimal at the end of `out`.
fn push_decimal(out: &mut Vec<u8>, n: u64)
    ensures
        final(out)@ == old(out)@ + decimal_digits(n as nat),
    decreases n,
{
    if n >= 10 {
        push_decimal(out, n / 10);
    }
    out.push((48 + n % 10) as u8);
    proof {
        if n >= 10 {
            assert(decimal_digits(n as nat) == decimal_digits((n / 10) as nat).push(
                (48 + n % 10) as u8,
            ));
        }
        assert(final(out)@ =~= old(out)@ + decimal_digits(n as nat));
    }
}

/// The canonical text of `ms` milliseconds: every non-zero unit from days down to
/// milliseconds, as in `1d2h3m4s5ms`, and `0ms` for nothing.
pub fn format_millis(ms: u64) -> (r: Vec<u8>)
    ensures
        r@ == compose(canonical_parts(ms as nat)),
{
    let mut out: Vec<u8> = Vec::new();
    let mut rem: u64 = ms;
    let mut k: usize = 0;
    while k < 5
        invariant
            k <= 5,
            out@ + compose(parts_from(rem as nat, k as nat)) == compose(parts_from(ms as nat, 0)),
        decreases 5 - k,
    {
        let u = if k == 0 {
            Unit::Days
        } else if k == 1 {
            Unit::Hours
        } else if k == 2 {
            Unit::Minutes
        } else if k == 3 {
            Unit::Seconds
        } else {
            Unit::Milliseconds
        };
        assert(u == unit_from_coarsest(k as nat));
        let m = unit_millis(u);
        let v = rem / m;
        let ghost rest = parts_from((rem % m) as nat, (k + 1) as nat);
        let ghost before = out@;
        if v > 0 {
            push_decimal(&mut out, v);
            match u {
                Unit::Days => out.push(100),
                Unit::Hours => out.push(104),
                Unit::Minutes => out.push(109),
                Unit::Seconds => out.push(115),
                Unit::Milliseconds => {
                    out.push(109);
                    out.push(115);
                },
            }
            proof {
                let p = seq![(v as nat, u)] + rest;
                assert(p[0] == (v as nat, u));
                assert(p.drop_first() =~= rest);
                assert(parts_from(rem as nat, k as nat) == p);
                assert(out@ =~= before + decimal_digits(v as nat) + unit_suffix(u));
                assert(out@ + compose(rest) =~= before + compose(p));
            }
        }
        rem = rem % m;
        k = k + 1;
    }
    if out.len() == 0 {
        proof {
            if parts_from(ms as nat, 0).len() > 0 {
                lemma_compose_nonempty(parts_from(ms as nat, 0));
            }
            let c = seq![(0nat, Unit::Milliseconds)];
            assert(c.drop_first() =~= Seq::<(nat, Unit)>::empty());
            assert(c[0] == (0nat, Unit::Milliseconds));
            assert(compose(c) =~= seq![48u8, 109u8, 115u8]);
        }
        out.push(48);
        out.push(109);
        out.push(115);
        proof {
            assert(out@ =~= seq![48u8, 109u8, 115u8]);
        }
    } else {
        proof {
            assert(out@ =~= out@ + compose(Seq::<(nat, Unit)>::empty()));
            if parts_from(ms as nat, 0).len() == 0 {
                assert(compose(parts_from(ms as nat, 0)).len() == 0);
            }
        }
    }
    out
}

/// Reading back the canonical text of a whole number of milliseconds gives that number again.
pub proof fn law_canonical_round_trip(ms: u64)
    ensures
        duration_nanos(compose(canonical_parts(ms as nat))) == Ok::<int, ParseError>(
            ms * 1_000_000,
        ),
        units_millis(compose(canonical_parts(ms as nat))) == Ok::<int, ParseError>(ms as int),
{
    lemma_parts_from(ms as nat, 0, None);
    let c = canonical_parts(ms as nat);
    if parts_from(ms as nat, 0).len() == 0 {
        let z = seq![(0nat, Unit::Milliseconds)];
        assert(z.drop_first() =~= Seq::<(nat, Unit)>::empty());
        assert(z[0] == (0nat, Unit::Milliseconds));
        assert(parts_total(z.drop_first()) == 0);
        assert(parts_total(z) == z[0].0 * millis_per(z[0].1) + parts_total(z.drop_first()));
        assert(parts_total(z) == 0);
        assert(descending(z.drop_first(), Some(Unit::Milliseconds)));
        assert(descending(z, None));
    }
    law_units_sum(c);
}

/// The five-unit text of `ms` milliseconds, zeros written out: whole days, then the hours,
/// minutes, seconds and milliseconds left over, as in `1d2h3m4s5ms` or `0d0h1m0s0ms`.
pub open spec fn five_unit_parts(ms: nat) -> Seq<(nat, Unit)> {
    seq![
        (ms / 86_400_000, Unit::Days),
        ((ms / 3_600_000) % 24, Unit::Hours),
        ((ms / 60_000) % 60, Unit::Minutes),
        ((ms / 1000) % 60, Unit::Seconds),
        (ms % 1000, Unit::Milliseconds),
    ]
}

/// Reading back the five-unit text of a whole number of milliseconds gives that number again.
pub proof fn law_five_unit_round_trip(ms: u64)
    ensures
        duration_nanos(compose(five_unit_parts(ms as nat))) == Ok::<int, ParseError>(
            ms * 1_000_000,
        ),
{
    let x = ms as int;
    let q1 = x / 1000;
    let q2 = q1 / 60;
    let q3 = q2 / 60;
    let q4 = q3 / 24;
    vstd::arithmetic::div_mod::lemma_fundamental_div_mod(x, 1000);
    vstd::arithmetic::div_mod::lemma_fundamental_div_mod(q1, 60);
    vstd::arithmetic::div_mod::lemma_fundamental_div_mod(q2, 60);
    vstd::arithmetic::div_mod::lemma_fundamental_div_mod(q3, 24);
    vstd::arithmetic::div_mod::lemma_div_denominator(x, 1000, 60);
    vstd::arithmetic::div_mod::lemma_div_denominator(x, 60_000, 60);
    vstd::arithmetic::div_mod::lemma_div_denominator(x, 3_600_000, 24);
    assert(q2 == x / 60_000);
    assert(q3 == x / 3_600_000);
    assert(q4 == x / 86_400_000);
    let d = q4;
    let h = q3 % 24;
    let m = q2 % 60;
    let s = q1 % 60;
    let r = x % 1000;
    assert(d * 86_400_000 + h * 3_600_000 + m * 60_000 + s * 1000 + r == x);
    law_full_compound(d as nat, h as nat, m as nat, s as nat, r as nat);
    assert(five_unit_parts(ms as nat) =~= seq![
        (d as nat, Unit::Days),
        (h as nat, Unit::Hours),
        (m as nat, Unit::Minutes),
        (s as nat, Unit::Seconds),
        (r as nat, Unit::Milliseconds),
    ]);
}

/// A whole number of seconds written in decimal reads as exactly that many seconds.
pub proof fn law_whole_seconds(n: u64)
    ensures
        duration_nanos(decimal_digits(n as nat)) == Ok::<int, ParseError>(n * 1_000_000_000),
{
    let b = decimal_digits(n as nat);
    assert(b.subrange(0, b.len() as int) =~= b);
    lemma_decimal_digits(b, 0, n as nat);
    lemma_run_len_exact(b, 0, b.len() as int);
    assert(sign_len(b) == 0);
}

} // verus!
