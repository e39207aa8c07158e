use vstd::prelude::*;

verus! {

pub const PLUS: u8 = 43;
pub const MINUS: u8 = 45;
pub const DOT: u8 = 46;
pub const ZERO: u8 = 48;
pub const NINE: u8 = 57;
pub const EXP_UPPER: u8 = 69;
pub const EXP_LOWER: u8 = 101;

/// Seconds are written with nine more decimal places as nanoseconds.
pub const NANOS_EXPONENT: i128 = 9;

/// An exponent at least this large in magnitude is held as this value: a
/// non-zero elapsed time scaled by it is beyond `LIMIT`, or rounds to 0.
pub const EXPONENT_CAP: u128 = 100_000_000_000_000_000_000;

/// Magnitudes of nanoseconds are held up to `2^127`; `i128` holds them
/// from `-LIMIT` to `LIMIT - 1`.
pub const LIMIT: u128 = 0x8000_0000_0000_0000_0000_0000_0000_0000;

pub open spec fn is_digit(c: u8) -> bool {
    ZERO <= c <= NINE
}

pub open spec fn all_digits(ds: Seq<u8>) -> bool {
    forall|i: int| 0 <= i < ds.len() ==> is_digit(#[trigger] ds[i])
}

/// The number that the decimal digits `ds` write.
pub open spec fn digits_value(ds: Seq<u8>) -> nat
    decreases ds.len(),
{
    if ds.len() == 0 {
        0
    } else {
        digits_value(ds.drop_last()) * 10 + (ds.last() - ZERO) as nat
    }
}

pub open spec fn pow10(k: nat) -> nat
    decreases k,
{
    if k == 0 {
        1
    } else {
        10 * pow10((k - 1) as nat)
    }
}

/// The first position in `b[s..e]` holding `c1` or `c2`, or `e`.
pub open spec fn first_of(b: Seq<u8>, s: int, e: int, c1: u8, c2: u8) -> int
    decreases e - s,
{
    if s >= e {
        e
    } else if b[s] == c1 || b[s] == c2 {
        s
    } else {
        first_of(b, s + 1, e, c1, c2)
    }
}

/// `m * 10^t` rounded to the nearest whole number, halves away from zero.
pub open spec fn rounded(m: nat, t: int) -> nat {
    if t >= 0 {
        m * pow10(t as nat)
    } else {
        (m + 5 * pow10((-t - 1) as nat)) / pow10((-t) as nat)
    }
}

/// The magnitude `v` with its sign, held within the range of `i128`.
pub open spec fn clamped(negative: bool, v: nat) -> i128 {
    if negative {
        if v >= LIMIT {
            i128::MIN
        } else {
            (-v) as i128
        }
    } else {
        if v >= LIMIT {
            i128::MAX
        } else {
            v as i128
        }
    }
}

/// Where the number in `b[s..e]` begins, after an optional sign.
pub open spec fn number_start(b: Seq<u8>, s: int, e: int) -> int {
    if s < e && (b[s] == PLUS || b[s] == MINUS) {
        s + 1
    } else {
        s
    }
}

/// The elapsed time that the cell `b[s..e]` writes, in nanoseconds: a
/// number of seconds in the form Rust reads as a float, other than `inf`
/// and `NaN`. That is an optional sign, decimal digits with at most one `.`
/// and at least one digit, then optionally `e` or `E`, an optional sign and
/// digits. The value is rounded to the nearest nanosecond, halves away from
/// zero, and held within the range of `i128`. `None` when the cell is not
/// of that form.
pub open spec fn cell_nanos(b: Seq<u8>, s: int, e: int) -> Option<i128> {
    let s1 = number_start(b, s, e);
    let x = first_of(b, s1, e, EXP_LOWER, EXP_UPPER);
    let d = first_of(b, s1, x, DOT, DOT);
    let f = if d < x {
        d + 1
    } else {
        x
    };
    let digits = b.subrange(s1, d) + b.subrange(f, x);
    let t = NANOS_EXPONENT + exponent_value(b, x, e) - (x - f);
    if digits.len() >= 1 && all_digits(digits) && exponent_ok(b, x, e) {
        Some(clamped(s < e && b[s] == MINUS, rounded(digits_value(digits), t)))
    } else {
        None
    }
}

/// Where the digits of the exponent part `b[x..e]` begin, after the `e`
/// and an optional sign.
pub open spec fn exponent_digits_start(b: Seq<u8>, x: int, e: int) -> int {
    if x + 1 < e && (b[x + 1] == MINUS || b[x + 1] == PLUS) {
        x + 2
    } else {
        x + 1
    }
}

/// The exponent part `b[x..e]` is empty, or an `e` or `E`, an optional
/// sign and at least one digit.
pub open spec fn exponent_ok(b: Seq<u8>, x: int, e: int) -> bool {
    x >= e || (exponent_digits_start(b, x, e) < e && all_digits(
        b.subrange(exponent_digits_start(b, x, e), e),
    ))
}

pub open spec fn exponent_negative(b: Seq<u8>, x: int, e: int) -> bool {
    x + 1 < e && b[x + 1] == MINUS
}

pub open spec fn exponent_magnitude(b: Seq<u8>, x: int, e: int) -> nat {
    if x >= e {
        0
    } else {
        digits_value(b.subrange(exponent_digits_start(b, x, e), e))
    }
}

/// The exponent that `b[x..e]` writes; 0 when there is none.
pub open spec fn exponent_value(b: Seq<u8>, x: int, e: int) -> int {
    if exponent_negative(b, x, e) {
        -exponent_magnitude(b, x, e)
    } else {
        exponent_magnitude(b, x, e) as int
    }
}

proof fn lemma_pow10_positive(k: nat)
    ensures
        pow10(k) >= 1,
    decreases k,
{
    if k > 0 {
        lemma_pow10_positive((k - 1) as nat);
    }
}

proof fn lemma_pow10_monotone(i: nat, j: nat)
    requires
        i <= j,
    ensures
        pow10(i) <= pow10(j),
    decreases j,
{
    if i < j {
        lemma_pow10_monotone(i, (j - 1) as nat);
    }
}

/// Digits written after others multiply those by a power of ten.
proof fn lemma_digits_concat(a: Seq<u8>, c: Seq<u8>)
    ensures
        digits_value(a + c) == digits_value(a) * pow10(c.len()) + digits_value(c),
    decreases c.len(),
{
    if c.len() == 0 {
        assert(a + c =~= a);
        assert(pow10(0) == 1);
        assert(digits_value(a) * 1 == digits_value(a));
    } else {
        let c1 = c.drop_last();
        lemma_digits_concat(a, c1);
        assert((a + c).drop_last() =~= a + c1);
        assert((a + c).last() == c.last());
        let av = digits_value(a);
        let p = pow10(c1.len());
        let cv = digits_value(c1);
        let dl = (c.last() - ZERO) as nat;
        assert(digits_value(c) == cv * 10 + dl);
        assert(digits_value(a + c) == digits_value(a + c1) * 10 + dl);
        assert(pow10(c.len()) == 10 * p);
        assert((av * p + cv) * 10 + dl == av * (10 * p) + (cv * 10 + dl)) by (nonlinear_arith);
        assert(digits_value(a + c) == av * pow10(c.len()) + digits_value(c));
    }
}

proof fn lemma_digits_bound(ds: Seq<u8>)
    requires
        all_digits(ds),
    ensures
        digits_value(ds) < pow10(ds.len()),
    decreases ds.len(),
{
    if ds.len() > 0 {
        let init = ds.drop_last();
        assert(all_digits(init)) by {
            assert forall|i: int| 0 <= i < init.len() implies is_digit(#[trigger] init[i]) by {
                assert(init[i] == ds[i]);
            }
        }
        lemma_digits_bound(init);
        assert(is_digit(ds[ds.len() - 1]));
    }
}

proof fn lemma_pow10_large()
    ensures
        pow10(39) > LIMIT,
{
    reveal_with_fuel(pow10, 40);
}

/// Rounding at more places than `m` has digits gives 0.
proof fn lemma_rounded_below(m: nat, len: nat, t: int)
    requires
        m < pow10(len),
        t < 0,
        -t > len,
    ensures
        rounded(m, t) == 0,
{
    let k = (-t) as nat;
    let q = pow10((k - 1) as nat);
    lemma_pow10_monotone(len, (k - 1) as nat);
    assert(pow10(k) == 10 * q);
    vstd::arithmetic::div_mod::lemma_fundamental_div_mod_converse(
        (m + 5 * q) as int,
        pow10(k) as int,
        0,
        (m + 5 * q) as int,
    );
}

/// Scaling a non-zero number up by 39 places or more goes beyond `LIMIT`.
proof fn lemma_rounded_above(m: nat, t: int)
    requires
        t >= 39,
    ensures
        m == 0 ==> rounded(m, t) == 0,
        m > 0 ==> rounded(m, t) >= LIMIT,
{
    lemma_pow10_monotone(39, t as nat);
    lemma_pow10_large();
    let p = pow10(t as nat);
    assert(m > 0 ==> m * p >= p) by (nonlinear_arith)
        requires p >= 0;
    assert(m == 0 ==> m * p == 0) by (nonlinear_arith);
}

/// Rounding the digits `ds` at the last `k` of them gives the number the
/// others write, plus one when the first dropped digit is 5 or more.
proof fn lemma_rounded_split(ds: Seq<u8>, cut: int)
    requires
        all_digits(ds),
        0 <= cut < ds.len(),
    ensures
        rounded(digits_value(ds), cut - ds.len()) == digits_value(ds.subrange(0, cut)) + (if ds[cut]
            >= 5 + ZERO {
            1nat
        } else {
            0nat
        }),
{
    let pre = ds.subrange(0, cut);
    let suf = ds.subrange(cut, ds.len() as int);
    let first = suf.subrange(0, 1);
    let rest = suf.subrange(1, suf.len() as int);
    assert(ds =~= pre + suf);
    assert(suf =~= first + rest);
    lemma_digits_concat(pre, suf);
    lemma_digits_concat(first, rest);
    assert(all_digits(rest)) by {
        assert forall|i: int| 0 <= i < rest.len() implies is_digit(#[trigger] rest[i]) by {
            assert(rest[i] == ds[cut + 1 + i]);
        }
    }
    lemma_digits_bound(rest);
    assert(first.drop_last() =~= Seq::<u8>::empty());
    assert(is_digit(ds[cut]));
    let d0 = (ds[cut] - ZERO) as nat;
    assert(first[0] == ds[cut]);
    assert(digits_value(first.drop_last()) == 0);
    assert(digits_value(first) == d0);
    let k = suf.len();
    let q = pow10((k - 1) as nat);
    let p = pow10(k);
    assert(p == 10 * q);
    let pv = digits_value(pre);
    let rv = digits_value(rest);
    let m = digits_value(ds);
    assert(m == pv * p + (d0 * q + rv));
    assert(d0 <= 9);
    if d0 >= 5 {
        assert(0 <= d0 * q + rv + 5 * q - p < p) by (nonlinear_arith)
            requires 5 <= d0 <= 9, 0 <= rv < q, p == 10 * q;
        assert(m + 5 * q == (pv + 1) * p + (d0 * q + rv + 5 * q - p)) by (nonlinear_arith)
            requires m == pv * p + (d0 * q + rv);
        vstd::arithmetic::div_mod::lemma_fundamental_div_mod_converse(
            (m + 5 * q) as int,
            p as int,
            (pv + 1) as int,
            d0 * q + rv + 5 * q - p,
        );
    } else {
        assert(0 <= d0 * q + rv + 5 * q < p) by (nonlinear_arith)
            requires 0 <= d0 <= 4, 0 <= rv < q, p == 10 * q;
        assert(m + 5 * q == pv * p + (d0 * q + rv + 5 * q));
        vstd::arithmetic::div_mod::lemma_fundamental_div_mod_converse(
            (m + 5 * q) as int,
            p as int,
            pv as int,
            (d0 * q + rv + 5 * q) as int,
        );
    }
}

/// The first position in `b[s..e]` holding `c1` or `c2`, or `e`.
fn find_either(b: &[u8], s: usize, e: usize, c1: u8, c2: u8) -> (r: usize)
    requires
        s <= e <= b@.len(),
    ensures
        r as int == first_of(b@, s as int, e as int, c1, c2),
        s <= r <= e,
{
    let mut i = s;
    while i < e && b[i] != c1 && b[i] != c2
        invariant
            s <= i <= e <= b@.len(),
            first_of(b@, s as int, e as int, c1, c2) == first_of(b@, i as int, e as int, c1, c2),
        decreases e - i,
    {
        i += 1;
    }
    i
}

/// The digits of the number in `b[s1..x]`, without its `.` at `d`.
fn mantissa_digits(b: &[u8], s1: usize, d: usize, f: usize, x: usize) -> (r: Vec<u8>)
    requires
        s1 <= d <= f <= x <= b@.len(),
    ensures
        r@ == b@.subrange(s1 as int, d as int) + b@.subrange(f as int, x as int),
{
    let mut r: Vec<u8> = Vec::new();
    let mut i = s1;
    while i < d
        invariant
            s1 <= i <= d <= b@.len(),
            r@ == b@.subrange(s1 as int, i as int),
        decreases d - i,
    {
        r.push(b[i]);
        i += 1;
        assert(r@ =~= b@.subrange(s1 as int, i as int));
    }
    let ghost head = r@;
    let mut i = f;
    while i < x
        invariant
            f <= i <= x <= b@.len(),
            head == b@.subrange(s1 as int, d as int),
            r@ == head + b@.subrange(f as int, i as int),
        decreases x - i,
    {
        r.push(b[i]);
        i += 1;
        assert(r@ =~= head + b@.subrange(f as int, i as int));
    }
    r
}

fn digits_only(ds: &Vec<u8>) -> (r: bool)
    ensures
        r == all_digits(ds@),
{
    let mut i: usize = 0;
    while i < ds.len()
        invariant
            i <= ds@.len(),
            forall|j: int| 0 <= j < i ==> is_digit(#[trigger] ds@[j]),
        decreases ds@.len() - i,
    {
        if ds[i] < ZERO || ds[i] > NINE {
            assert(!is_digit(ds@[i as int]));
            return false;
        }
        i += 1;
    }
    true
}

/// The number that `ds[..to]` writes, held at most at `LIMIT`.
fn digits_number(ds: &Vec<u8>, to: usize) -> (r: u128)
    requires
        all_digits(ds@),
        to <= ds@.len(),
    ensures
        r <= LIMIT,
        r < LIMIT ==> r as nat == digits_value(ds@.subrange(0, to as int)),
        r == LIMIT ==> digits_value(ds@.subrange(0, to as int)) >= LIMIT,
{
    let mut acc: u128 = 0;
    let mut i: usize = 0;
    while i < to
        invariant
            i <= to <= ds@.len(),
            all_digits(ds@),
            acc <= LIMIT,
            acc < LIMIT ==> acc as nat == digits_value(ds@.subrange(0, i as int)),
            acc == LIMIT ==> digits_value(ds@.subrange(0, i as int)) >= LIMIT,
        decreases to - i,
    {
        assert(is_digit(ds@[i as int]));
        assert(ds@.subrange(0, i + 1).drop_last() =~= ds@.subrange(0, i as int));
        if acc < LIMIT {
            if acc > LIMIT / 10 {
                acc = LIMIT;
            } else {
                let next = acc * 10 + (ds[i] - ZERO) as u128;
                acc = if next < LIMIT {
                    next
                } else {
                    LIMIT
                };
            }
        }
        i += 1;
    }
    acc
}

/// `m * 10^t`, held at most at `LIMIT`.
fn scale_up(m: u128, t: u128) -> (r: u128)
    requires
        m < LIMIT,
    ensures
        r <= LIMIT,
        r < LIMIT ==> r as nat == m * pow10(t as nat),
        r == LIMIT ==> m * pow10(t as nat) >= LIMIT,
{
    if m == 0 {
        assert(m * pow10(t as nat) == 0);
        return 0;
    }
    let mut acc = m;
    let mut i: u128 = 0;
    assert(pow10(0) == 1);
    assert(m * 1 == m);
    while i < t
        invariant
            i <= t,
            m > 0,
            acc < LIMIT,
            acc as nat == m * pow10(i as nat),
        decreases t - i,
    {
        proof {
            let pi = pow10(i as nat);
            assert(m * (10 * pi) == 10 * (m * pi)) by (nonlinear_arith);
            lemma_pow10_monotone((i + 1) as nat, t as nat);
            let pt = pow10(t as nat);
            assert(m * pt >= m * (10 * pi)) by (nonlinear_arith)
                requires pt >= 10 * pi, m > 0;
        }
        if acc > LIMIT / 10 {
            return LIMIT;
        }
        let next = acc * 10;
        if next >= LIMIT {
            return LIMIT;
        }
        acc = next;
        i += 1;
    }
    acc
}

/// The sign and the magnitude of the exponent part `b[x..e]`, the
/// magnitude held at most at `EXPONENT_CAP`; `None` when it is malformed.
fn read_exponent(b: &[u8], x: usize, e: usize) -> (r: Option<(bool, u128)>)
    requires
        x <= e <= b@.len(),
    ensures
        r is Some <==> exponent_ok(b@, x as int, e as int),
        r matches Some((negative, magnitude)) ==> {
            &&& negative == exponent_negative(b@, x as int, e as int)
            &&& magnitude < EXPONENT_CAP ==> magnitude as nat == exponent_magnitude(b@, x as int, e as int)
            &&& magnitude >= EXPONENT_CAP ==> exponent_magnitude(b@, x as int, e as int) >= EXPONENT_CAP
            &&& magnitude <= EXPONENT_CAP
        },
{
    if x >= e {
        return Some((false, 0));
    }
    let negative = x + 1 < e && b[x + 1] == MINUS;
    let start = if x + 1 < e && (b[x + 1] == MINUS || b[x + 1] == PLUS) {
        x + 2
    } else {
        x + 1
    };
    if start >= e {
        return None;
    }
    let ghost ds = b@.subrange(start as int, e as int);
    let mut acc: u128 = 0;
    let mut i = start;
    while i < e
        invariant
            start <= i <= e <= b@.len(),
            x < e,
            start as int == exponent_digits_start(b@, x as int, e as int),
            negative == exponent_negative(b@, x as int, e as int),
            ds == b@.subrange(start as int, e as int),
            forall|j: int| 0 <= j < i - start ==> is_digit(#[trigger] ds[j]),
            acc <= EXPONENT_CAP,
            acc < EXPONENT_CAP ==> acc as nat == digits_value(ds.subrange(0, i - start)),
            acc >= EXPONENT_CAP ==> digits_value(ds.subrange(0, i - start)) >= EXPONENT_CAP,
        decreases e - i,
    {
        if b[i] < ZERO || b[i] > NINE {
            assert(!is_digit(ds[i - start]));
            return None;
        }
        assert(ds.subrange(0, i + 1 - start).drop_last() =~= ds.subrange(0, i - start));
        if acc < EXPONENT_CAP {
            let next = acc * 10 + (b[i] - ZERO) as u128;
            acc = if next < EXPONENT_CAP {
                next
            } else {
                EXPONENT_CAP
            };
        }
        i += 1;
    }
    assert(ds.subrange(0, e - start) =~= ds);
    Some((negative, acc))
}

/// The magnitude of the digits `ds`, with `frac_len` of them after the
/// point, scaled by the exponent `exponent` (read as `exp_negative` and
/// `magnitude`) and by nine places, rounded; held at most at `LIMIT`.
fn rounded_magnitude(
    ds: &Vec<u8>,
    frac_len: usize,
    exp_negative: bool,
    magnitude: u128,
    exponent: Ghost<int>,
) -> (v: u128)
    requires
        all_digits(ds@),
        frac_len <= ds@.len() <= usize::MAX,
        magnitude <= EXPONENT_CAP,
        magnitude < EXPONENT_CAP ==> exponent@ == (if exp_negative {
            -(magnitude as int)
        } else {
            magnitude as int
        }),
        magnitude == EXPONENT_CAP ==> (if exp_negative {
            exponent@ <= -(EXPONENT_CAP as int)
        } else {
            exponent@ >= EXPONENT_CAP
        }),
    ensures
        v <= LIMIT,
        v < LIMIT ==> v as nat == rounded(digits_value(ds@), NANOS_EXPONENT + exponent@ - frac_len),
        v == LIMIT ==> rounded(digits_value(ds@), NANOS_EXPONENT + exponent@ - frac_len) >= LIMIT,
{
    let ghost m = digits_value(ds@);
    let ghost t = NANOS_EXPONENT + exponent@ - frac_len;
    proof {
        lemma_digits_bound(ds@);
    }
    if magnitude >= EXPONENT_CAP {
        if exp_negative {
            proof {
                lemma_rounded_below(m, ds@.len(), t);
            }
            0
        } else {
            let w = digits_number(&ds, ds.len());
            assert(ds@.subrange(0, ds@.len() as int) =~= ds@);
            proof {
                lemma_rounded_above(m, t);
            }
            if w == 0 {
                0
            } else {
                LIMIT
            }
        }
    } else {
        let frac_len = frac_len as i128;
        let exponent: i128 = if exp_negative {
            -(magnitude as i128)
        } else {
            magnitude as i128
        };
        let scale: i128 = NANOS_EXPONENT + exponent - frac_len;
        assert(scale == t);
        if scale >= 0 {
            let w = digits_number(&ds, ds.len());
            assert(ds@.subrange(0, ds@.len() as int) =~= ds@);
            if w == LIMIT {
                proof {
                    lemma_pow10_positive(t as nat);
                    let p = pow10(t as nat);
                    assert(m * p >= m) by (nonlinear_arith)
                        requires p >= 1;
                }
                LIMIT
            } else {
                scale_up(w, scale as u128)
            }
        } else {
            let places = (-scale) as u128;
            if places > ds.len() as u128 {
                proof {
                    lemma_rounded_below(m, ds@.len(), t);
                }
                0
            } else {
                let cut = ds.len() - places as usize;
                proof {
                    lemma_rounded_split(ds@, cut as int);
                }
                let w = digits_number(&ds, cut);
                if w == LIMIT {
                    LIMIT
                } else if ds[cut] >= 5 + ZERO {
                    w + 1
                } else {
                    w
                }
            }
        }
    }
}

/// Reads the elapsed-time cell `b[s..e]` as nanoseconds.
pub fn parse_nanos(b: &[u8], s: usize, e: usize) -> (r: Option<i128>)
    requires
        s <= e <= b@.len(),
    ensures
        r == cell_nanos(b@, s as int, e as int),
{
    let negative = s < e && b[s] == MINUS;
    let s1 = if s < e && (b[s] == PLUS || b[s] == MINUS) {
        s + 1
    } else {
        s
    };
    let x = find_either(b, s1, e, EXP_LOWER, EXP_UPPER);
    let d = find_either(b, s1, x, DOT, DOT);
    let f = if d < x {
        d + 1
    } else {
        x
    };
    let ds = mantissa_digits(b, s1, d, f, x);
    if ds.len() == 0 || !digits_only(&ds) {
        return None;
    }
    let (exp_negative, magnitude) = match read_exponent(b, x, e) {
        None => return None,
        Some(v) => v,
    };
    let v = rounded_magnitude(
        &ds,
        x - f,
        exp_negative,
        magnitude,
        Ghost(exponent_value(b@, x as int, e as int)),
    );
    if negative {
        if v == LIMIT {
            Some(i128::MIN)
        } else {
            Some(-(v as i128))
        }
    } else if v == LIMIT {
        Some(i128::MAX)
    } else {
        Some(v as i128)
    }
}

} // verus!
