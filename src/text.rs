//! Character-level text handling: splitting on a separator and reading decimal numbers.
use vstd::prelude::*;

verus! {

/// The index of the first `c` in `s` at or after `i`, or `s.len()` when there is none.
pub open spec fn find_from(s: Seq<char>, c: char, i: int) -> int
    decreases s.len() - i,
{
    if i < 0 || i >= s.len() {
        s.len() as int
    } else if s[i] == c {
        i
    } else {
        find_from(s, c, i + 1)
    }
}

/// The index of the first `c` in `s`, or `s.len()` when there is none.
pub open spec fn find_spec(s: Seq<char>, c: char) -> int {
    find_from(s, c, 0)
}

/// The pieces of `s[start..]` around each occurrence of `sep`, scanning from `i`.
pub open spec fn split_scan(s: Seq<char>, sep: Seq<char>, start: int, i: int) -> Seq<Seq<char>>
    decreases s.len() - i,
{
    if sep.len() == 0 || i < 0 || i + sep.len() > s.len() {
        seq![s.subrange(start, s.len() as int)]
    } else if s.subrange(i, i + sep.len()) == sep {
        seq![s.subrange(start, i)] + split_scan(s, sep, i + sep.len(), i + sep.len())
    } else {
        split_scan(s, sep, start, i + 1)
    }
}

/// The pieces of `s` between the occurrences of `sep`, left to right, as `str::split` gives
/// them: there is always at least one piece, and empty pieces are kept.
pub open spec fn split_spec(s: Seq<char>, sep: Seq<char>) -> Seq<Seq<char>> {
    split_scan(s, sep, 0, 0)
}

/// The views of a vector of character vectors.
pub open spec fn views(v: Seq<Vec<char>>) -> Seq<Seq<char>> {
    v.map_values(|p: Vec<char>| p@)
}

/// The characters of `s`.
pub fn chars_of(s: &str) -> (r: Vec<char>)
    ensures
        r@ == s@,
{
    let mut out: Vec<char> = Vec::new();
    for c in it: s.chars()
        invariant
            out@ == it.seq().take(it.index() as int),
    {
        out.push(c);
        assert(out@ =~= it.seq().take(it.index() as int + 1));
    }
    out
}

/// Relies on std's `String: FromIterator<char>`: the string of the characters, in order.
#[verifier::external_body]
pub(crate) fn string_from_chars(chars: &Vec<char>) -> (r: String)
    ensures
        r@ == chars@,
{
    chars.iter().collect()
}

/// `s[from..to]`, copied.
pub fn slice_of(s: &Vec<char>, from: usize, to: usize) -> (r: Vec<char>)
    requires
        from <= to <= s@.len(),
    ensures
        r@ == s@.subrange(from as int, to as int),
{
    let mut out: Vec<char> = Vec::with_capacity(to - from);
    let mut i: usize = from;
    while i < to
        invariant
            from <= i <= to <= s@.len(),
            out@ == s@.subrange(from as int, i as int),
        decreases to - i,
    {
        out.push(s[i]);
        i += 1;
        assert(out@ =~= s@.subrange(from as int, i as int));
    }
    out
}

/// Whether `sep` occurs in `s` at index `i`.
fn occurs_at(s: &Vec<char>, sep: &Vec<char>, i: usize) -> (r: bool)
    requires
        i + sep@.len() <= s@.len(),
    ensures
        r == (s@.subrange(i as int, i + sep@.len()) == sep@),
{
    let n = s.len();
    let mut j: usize = 0;
    while j < sep.len()
        invariant
            n == s@.len(),
            j <= sep@.len(),
            i + sep@.len() <= s@.len(),
            forall|k: int| 0 <= k < j ==> s@[i + k] == sep@[k],
        decreases sep@.len() - j,
    {
        if s[i + j] != sep[j] {
            assert(s@.subrange(i as int, i + sep@.len())[j as int] != sep@[j as int]);
            return false;
        }
        j += 1;
    }
    assert(s@.subrange(i as int, i + sep@.len()) =~= sep@);
    true
}

/// The index of the first `c` in `s`, or `s.len()` when there is none.
pub fn find_char(s: &Vec<char>, c: char) -> (r: usize)
    ensures
        r == find_spec(s@, c),
{
    let mut i: usize = 0;
    while i < s.len()
        invariant
            i <= s@.len(),
            find_spec(s@, c) == find_from(s@, c, i as int),
        decreases s@.len() - i,
    {
        if s[i] == c {
            return i;
        }
        i += 1;
    }
    i
}

/// The pieces of `s` between the occurrences of `sep`.
pub fn split(s: &Vec<char>, sep: &Vec<char>) -> (r: Vec<Vec<char>>)
    requires
        sep@.len() > 0,
    ensures
        views(r@) == split_spec(s@, sep@),
{
    let mut out: Vec<Vec<char>> = Vec::new();
    let mut start: usize = 0;
    let mut i: usize = 0;
    while sep.len() <= s.len() - i
        invariant
            sep@.len() > 0,
            start <= i <= s@.len(),
            split_spec(s@, sep@) == views(out@) + split_scan(s@, sep@, start as int, i as int),
        decreases s@.len() - i,
    {
        if occurs_at(s, sep, i) {
            let piece = slice_of(s, start, i);
            let ghost before = out@;
            out.push(piece);
            assert(views(out@) =~= views(before).push(piece@));
            assert(views(out@) + split_scan(s@, sep@, (i + sep@.len()) as int, (i + sep@.len()) as int)
                =~= views(before) + split_scan(s@, sep@, start as int, i as int));
            i = i + sep.len();
            start = i;
        } else {
            i += 1;
        }
    }
    let last = slice_of(s, start, s.len());
    let ghost before = out@;
    out.push(last);
    assert(views(out@) =~= views(before).push(last@));
    assert(views(out@) =~= views(before) + split_scan(s@, sep@, start as int, i as int));
    out
}

/// Whether every character of `s` is an ASCII digit.
pub open spec fn all_digits(s: Seq<char>) -> bool {
    forall|i: int| 0 <= i < s.len() ==> '0' <= #[trigger] s[i] <= '9'
}

/// The value of the digit `c`.
pub open spec fn digit_value(c: char) -> int {
    (c as int) - ('0' as int)
}

/// The value of the decimal digits `s` (zero for none).
pub open spec fn digits_value(s: Seq<char>) -> int
    decreases s.len(),
{
    if s.len() == 0 {
        0
    } else {
        digits_value(s.drop_last()) * 10 + digit_value(s.last())
    }
}

/// Whether the token starts with a sign.
pub open spec fn has_sign(t: Seq<char>) -> bool {
    t.len() > 0 && (t[0] == '-' || t[0] == '+')
}

/// Whether the token starts with a minus sign.
pub open spec fn is_negative(t: Seq<char>) -> bool {
    t.len() > 0 && t[0] == '-'
}

/// The token without its sign.
pub open spec fn unsigned_part(t: Seq<char>) -> Seq<char> {
    if has_sign(t) {
        t.drop_first()
    } else {
        t
    }
}

/// The largest exponent magnitude that is read.
pub const MAX_EXPONENT: u64 = 9999;

/// Where the exponent marker (`e` or `E`) stands, or the length when there is none.
pub open spec fn exponent_index(t: Seq<char>) -> int {
    let a = find_spec(t, 'e');
    let b = find_spec(t, 'E');
    if a <= b {
        a
    } else {
        b
    }
}

/// Whether the token has an exponent marker.
pub open spec fn has_exponent(t: Seq<char>) -> bool {
    exponent_index(t) < t.len()
}

/// The token before its exponent marker.
pub open spec fn mantissa(t: Seq<char>) -> Seq<char> {
    t.take(exponent_index(t))
}

/// The token after its exponent marker (empty when there is none).
pub open spec fn exponent_token(t: Seq<char>) -> Seq<char> {
    if has_exponent(t) {
        t.skip(exponent_index(t) + 1)
    } else {
        Seq::empty()
    }
}

/// The exponent: the signed number after the marker, zero when there is none.
pub open spec fn exponent_value(t: Seq<char>) -> int {
    let x = exponent_token(t);
    if is_negative(x) {
        -digits_value(unsigned_part(x))
    } else {
        digits_value(unsigned_part(x))
    }
}

/// The digits of the mantissa before its decimal point.
pub open spec fn mantissa_whole(t: Seq<char>) -> Seq<char> {
    let u = unsigned_part(mantissa(t));
    u.take(find_spec(u, '.'))
}

/// The digits of the mantissa after its decimal point (none when there is no point).
pub open spec fn mantissa_fraction(t: Seq<char>) -> Seq<char> {
    let u = unsigned_part(mantissa(t));
    let d = find_spec(u, '.');
    if d < u.len() {
        u.skip(d + 1)
    } else {
        Seq::empty()
    }
}

/// All digits of the mantissa, the point left out.
pub open spec fn significand(t: Seq<char>) -> Seq<char> {
    mantissa_whole(t) + mantissa_fraction(t)
}

/// Where the decimal point falls among the significand's digits once the exponent is
/// applied (it may fall before the first digit or after the last).
pub open spec fn point_of(t: Seq<char>) -> int {
    mantissa_whole(t).len() + exponent_value(t)
}

/// The digits before a point at `p` in the digits `d`, padded with zeros past their end.
pub open spec fn shifted_whole(d: Seq<char>, p: int) -> Seq<char> {
    Seq::new(
        if p > 0 {
            p as nat
        } else {
            0
        },
        |k: int|
            if k < d.len() {
                d[k]
            } else {
                '0'
            },
    )
}

/// The digits after a point at `p` in the digits `d`, with zeros in front when the point
/// falls before the first digit.
pub open spec fn shifted_fraction(d: Seq<char>, p: int) -> Seq<char> {
    Seq::new(
        if d.len() > p {
            (d.len() - p) as nat
        } else {
            0
        },
        |k: int|
            if k + p < 0 {
                '0'
            } else {
                d[k + p]
            },
    )
}

/// The digits of the number's integer part.
pub open spec fn whole_digits(t: Seq<char>) -> Seq<char> {
    shifted_whole(significand(t), point_of(t))
}

/// The digits of the number's fractional part.
pub open spec fn fraction_digits(t: Seq<char>) -> Seq<char> {
    shifted_fraction(significand(t), point_of(t))
}

/// Whether the token is a decimal number: an optional sign, digits, optionally a point
/// followed by digits, with at least one digit before the exponent; then optionally `e` or
/// `E`, an optional sign and at least one digit, of size at most `MAX_EXPONENT`.
pub open spec fn is_decimal(t: Seq<char>) -> bool {
    &&& all_digits(mantissa_whole(t))
    &&& all_digits(mantissa_fraction(t))
    &&& mantissa_whole(t).len() + mantissa_fraction(t).len() > 0
    &&& has_exponent(t) ==> {
        let e = unsigned_part(exponent_token(t));
        e.len() > 0 && all_digits(e) && digits_value(e) <= MAX_EXPONENT
    }
}

/// A decimal token taken apart: its sign, its significand's digits, and where the point
/// falls among them.
pub struct DecimalParts {
    pub negative: bool,
    pub digits: Vec<char>,
    pub point: i128,
}

pub proof fn lemma_find_from_bounds(s: Seq<char>, c: char, i: int)
    requires
        0 <= i <= s.len(),
    ensures
        i <= find_from(s, c, i) <= s.len(),
        find_from(s, c, i) < s.len() ==> s[find_from(s, c, i)] == c,
        forall|k: int| i <= k < find_from(s, c, i) ==> s[k] != c,
    decreases s.len() - i,
{
    if i < s.len() && s[i] != c {
        lemma_find_from_bounds(s, c, i + 1);
    }
}

/// Whether every character is a digit.
pub fn check_digits(d: &Vec<char>) -> (r: bool)
    ensures
        r == all_digits(d@),
{
    let mut i: usize = 0;
    while i < d.len()
        invariant
            i <= d@.len(),
            forall|k: int| 0 <= k < i ==> '0' <= #[trigger] d@[k] <= '9',
        decreases d@.len() - i,
    {
        if !('0' <= d[i] && d[i] <= '9') {
            assert(!('0' <= d@[i as int] <= '9'));
            return false;
        }
        i += 1;
    }
    true
}

/// `a` followed by `b`.
fn concat(a: &Vec<char>, b: &Vec<char>) -> (r: Vec<char>)
    ensures
        r@ == a@ + b@,
{
    let mut out = slice_of(a, 0, a.len());
    let mut i: usize = 0;
    while i < b.len()
        invariant
            i <= b@.len(),
            out@ == a@ + b@.take(i as int),
        decreases b@.len() - i,
    {
        out.push(b[i]);
        i += 1;
        assert(out@ =~= a@ + b@.take(i as int));
    }
    assert(b@.take(i as int) =~= b@);
    out
}

/// The token without its sign.
fn strip_sign(t: &Vec<char>) -> (r: Vec<char>)
    ensures
        r@ == unsigned_part(t@),
{
    let r = if t.len() > 0 && (t[0] == '-' || t[0] == '+') {
        slice_of(t, 1, t.len())
    } else {
        slice_of(t, 0, t.len())
    };
    assert(r@ =~= unsigned_part(t@));
    r
}

/// Takes a decimal token apart; `None` when it is not a decimal number.
pub fn decimal_parts(t: &Vec<char>) -> (r: Option<DecimalParts>)
    ensures
        r is Some <==> is_decimal(t@),
        r matches Some(p) ==> p.negative == is_negative(t@) && p.digits@ == significand(t@)
            && p.point == point_of(t@) && all_digits(p.digits@) && -(MAX_EXPONENT as int) <= p.point
            <= usize::MAX + MAX_EXPONENT,
{
    let lower = find_char(t, 'e');
    let upper = find_char(t, 'E');
    proof {
        lemma_find_from_bounds(t@, 'e', 0);
        lemma_find_from_bounds(t@, 'E', 0);
    }
    let x = if lower <= upper {
        lower
    } else {
        upper
    };
    let m = slice_of(t, 0, x);
    assert(m@ =~= mantissa(t@));
    let negative = t.len() > 0 && t[0] == '-';
    let u = strip_sign(&m);
    proof {
        if x > 0 {
            assert(m@[0] == t@[0]);
        }
    }
    let d = find_char(&u, '.');
    proof {
        lemma_find_from_bounds(u@, '.', 0);
    }
    let whole = slice_of(&u, 0, d);
    let fraction = if d < u.len() {
        slice_of(&u, d + 1, u.len())
    } else {
        Vec::new()
    };
    assert(whole@ =~= mantissa_whole(t@));
    assert(fraction@ =~= mantissa_fraction(t@));
    if whole.len() == 0 && fraction.len() == 0 {
        return None;
    }
    if !check_digits(&whole) || !check_digits(&fraction) {
        return None;
    }
    let mut exponent: i128 = 0;
    if x < t.len() {
        assert(x < t@.len());
        let etok = slice_of(t, x + 1, t.len());
        assert(etok@ =~= exponent_token(t@));
        let e = strip_sign(&etok);
        if e.len() == 0 || !check_digits(&e) {
            return None;
        }
        let v = digits_value_capped(&e, MAX_EXPONENT);
        if v > MAX_EXPONENT {
            return None;
        }
        let eneg = etok.len() > 0 && etok[0] == '-';
        exponent = if eneg {
            -(v as i128)
        } else {
            v as i128
        };
        assert(-(MAX_EXPONENT as int) <= exponent <= MAX_EXPONENT);
    } else {
        assert(exponent_token(t@) =~= Seq::<char>::empty());
        reveal_with_fuel(digits_value, 1);
    }
    let digits = concat(&whole, &fraction);
    assert(all_digits(digits@)) by {
        assert forall|k: int| 0 <= k < digits@.len() implies '0' <= #[trigger] digits@[k] <= '9' by {
            if k < whole@.len() {
                assert(digits@[k] == whole@[k]);
            } else {
                assert(digits@[k] == fraction@[k - whole@.len()]);
            }
        }
    }
    Some(DecimalParts { negative, digits, point: whole.len() as i128 + exponent })
}

pub proof fn lemma_shifted_all_digits(d: Seq<char>, p: int)
    requires
        all_digits(d),
    ensures
        all_digits(shifted_whole(d, p)),
        all_digits(shifted_fraction(d, p)),
{
    assert forall|k: int| 0 <= k < shifted_whole(d, p).len() implies '0' <= #[trigger] shifted_whole(
        d,
        p,
    )[k] <= '9' by {
        if k < d.len() {
            assert('0' <= d[k] <= '9');
        }
    }
    assert forall|k: int| 0 <= k < shifted_fraction(d, p).len() implies '0'
        <= #[trigger] shifted_fraction(d, p)[k] <= '9' by {
        if k + p >= 0 {
            assert('0' <= d[k + p] <= '9');
        }
    }
}

/// The value of the digits before a point at `point` when it is at most `cap`, else
/// `cap + 1`.
pub fn shifted_whole_capped(d: &Vec<char>, point: i128, cap: u64) -> (r: u64)
    requires
        all_digits(d@),
        cap <= MAX_WHOLE_SECONDS,
    ensures
        r <= cap ==> r == digits_value(shifted_whole(d@, point as int)),
        r > cap ==> r == cap + 1 && digits_value(shifted_whole(d@, point as int)) > cap,
{
    let ghost w = shifted_whole(d@, point as int);
    proof {
        lemma_shifted_all_digits(d@, point as int);
    }
    let mut acc: u64 = 0;
    let mut k: i128 = 0;
    while k < point
        invariant
            0 <= k,
            point > 0 ==> k <= point,
            point <= 0 ==> k == 0,
            w == shifted_whole(d@, point as int),
            all_digits(w),
            all_digits(d@),
            cap <= MAX_WHOLE_SECONDS,
            acc <= cap + 1,
            acc <= cap ==> acc == digits_value(w.take(k as int)),
            acc > cap ==> digits_value(w.take(k as int)) > cap,
        decreases point - k,
    {
        let c = if k < d.len() as i128 {
            d[k as usize]
        } else {
            '0'
        };
        proof {
            assert(c == w[k as int]);
            let prefix = w.take(k as int);
            assert(w.take(k as int + 1).drop_last() =~= prefix);
            assert(all_digits(prefix)) by {
                assert forall|j: int| 0 <= j < prefix.len() implies '0' <= #[trigger] prefix[j]
                    <= '9' by {
                    assert(prefix[j] == w[j]);
                }
            }
            lemma_digits_value_nonneg(prefix);
            assert('0' <= w[k as int] <= '9');
        }
        let digit = (c as u32 - '0' as u32) as u64;
        if acc > cap {
            acc = cap + 1;
        } else {
            let v = acc * 10 + digit;
            if v > cap {
                acc = cap + 1;
            } else {
                acc = v;
            }
        }
        k += 1;
    }
    proof {
        if point > 0 {
            assert(k == point);
            assert(w.take(k as int) =~= w);
        } else {
            assert(k == 0);
            assert(w.len() == 0);
            assert(w.take(0) =~= w);
        }
        assert(digits_value(w.take(k as int)) == digits_value(w));
    }
    acc
}

/// The value of fractional digit `j` for a point at `point`, zero past the last digit.
pub fn shifted_fraction_digit(d: &Vec<char>, point: i128, j: usize) -> (r: u64)
    requires
        all_digits(d@),
        j < 9,
        -(MAX_EXPONENT as int) <= point <= usize::MAX + MAX_EXPONENT,
    ensures
        r == if j < shifted_fraction(d@, point as int).len() {
            digit_value(shifted_fraction(d@, point as int)[j as int])
        } else {
            0
        },
        r <= 9,
{
    let idx: i128 = j as i128 + point;
    if idx < 0 {
        0
    } else if idx < d.len() as i128 {
        let c = d[idx as usize];
        assert('0' <= d@[idx as int] <= '9');
        (c as u32 - '0' as u32) as u64
    } else {
        0
    }
}

/// Nanoseconds in a second.
pub const NANOS_PER_SECOND: u64 = 1_000_000_000;

/// The largest whole number of seconds whose nanoseconds can fit an `i64`.
pub const MAX_WHOLE_SECONDS: u64 = 9_223_372_036;

/// `10` to the power `n`.
pub open spec fn pow10(n: nat) -> int
    decreases n,
{
    if n == 0 {
        1
    } else {
        10 * pow10((n - 1) as nat)
    }
}

/// The first `n` digits of `f` as an integer, missing digits read as zeros.
pub open spec fn fraction_scaled(f: Seq<char>, n: nat) -> int
    decreases n,
{
    if n == 0 {
        0
    } else {
        fraction_scaled(f, (n - 1) as nat) * 10 + if n - 1 < f.len() {
            digit_value(f[n - 1])
        } else {
            0int
        }
    }
}

/// The size of a decimal number of seconds in whole nanoseconds, the rest cut off.
pub open spec fn nanos_magnitude(t: Seq<char>) -> int {
    digits_value(whole_digits(t)) * (NANOS_PER_SECOND as int) + fraction_scaled(
        fraction_digits(t),
        9,
    )
}

/// A decimal number of seconds as nanoseconds, truncated toward zero; `None` when the token
/// is not a decimal number or the result does not fit an `i64`.
pub open spec fn seconds_as_nanos(t: Seq<char>) -> Option<int> {
    if is_decimal(t) && nanos_magnitude(t) <= i64::MAX {
        Some(
            if is_negative(t) {
                -nanos_magnitude(t)
            } else {
                nanos_magnitude(t)
            },
        )
    } else {
        None
    }
}

/// The size of a decimal number times ten, rounded to the nearest integer (halves up).
pub open spec fn tenths_magnitude(t: Seq<char>) -> int {
    let f = fraction_digits(t);
    digits_value(whole_digits(t)) * 10 + (if f.len() > 0 {
        digit_value(f[0])
    } else {
        0int
    }) + (if f.len() > 1 && digit_value(f[1]) >= 5 {
        1int
    } else {
        0int
    })
}

/// A decimal number times ten, rounded to the nearest integer with halves away from zero;
/// `None` when the token is not a decimal number.
pub open spec fn tenths_rounded(t: Seq<char>) -> Option<int> {
    if is_decimal(t) {
        Some(
            if is_negative(t) {
                -tenths_magnitude(t)
            } else {
                tenths_magnitude(t)
            },
        )
    } else {
        None
    }
}

pub proof fn lemma_digits_value_nonneg(s: Seq<char>)
    requires
        all_digits(s),
    ensures
        digits_value(s) >= 0,
    decreases s.len(),
{
    if s.len() > 0 {
        assert(all_digits(s.drop_last())) by {
            assert forall|i: int| 0 <= i < s.drop_last().len() implies '0' <= #[trigger] s.drop_last()[i]
                <= '9' by {
                assert(s.drop_last()[i] == s[i]);
            }
        }
        lemma_digits_value_nonneg(s.drop_last());
    }
}

pub proof fn lemma_fraction_scaled_bounds(f: Seq<char>, n: nat)
    requires
        all_digits(f),
    ensures
        0 <= fraction_scaled(f, n) < pow10(n),
    decreases n,
{
    if n > 0 {
        lemma_fraction_scaled_bounds(f, (n - 1) as nat);
    }
}

/// The value of the digits `w` when it is at most `cap`, else `cap + 1`.
pub fn digits_value_capped(w: &Vec<char>, cap: u64) -> (r: u64)
    requires
        all_digits(w@),
        cap <= MAX_WHOLE_SECONDS,
    ensures
        r <= cap ==> r == digits_value(w@),
        r > cap ==> r == cap + 1 && digits_value(w@) > cap,
{
    let mut acc: u64 = 0;
    let mut i: usize = 0;
    while i < w.len()
        invariant
            i <= w@.len(),
            all_digits(w@),
            cap <= MAX_WHOLE_SECONDS,
            acc <= cap + 1,
            acc <= cap ==> acc == digits_value(w@.take(i as int)),
            acc > cap ==> digits_value(w@.take(i as int)) > cap,
        decreases w@.len() - i,
    {
        let c = w[i];
        let d = (c as u32 - '0' as u32) as u64;
        proof {
            let prefix = w@.take(i as int);
            assert(w@.take(i as int + 1).drop_last() =~= prefix);
            assert(all_digits(prefix)) by {
                assert forall|k: int| 0 <= k < prefix.len() implies '0' <= #[trigger] prefix[k]
                    <= '9' by {
                    assert(prefix[k] == w@[k]);
                }
            }
            lemma_digits_value_nonneg(prefix);
            assert('0' <= w@[i as int] <= '9');
        }
        if acc > cap {
            acc = cap + 1;
        } else {
            let v = acc * 10 + d;
            if v > cap {
                acc = cap + 1;
            } else {
                acc = v;
            }
        }
        i += 1;
    }
    assert(w@.take(i as int) =~= w@);
    acc
}

/// A decimal number of seconds as nanoseconds, truncated toward zero; `None` when the token
/// is not a decimal number or the result does not fit an `i64`.
pub fn parse_seconds_as_nanos(t: &Vec<char>) -> (r: Option<i64>)
    ensures
        seconds_as_nanos(t@) == match r {
            Some(v) => Some(v as int),
            None => None::<int>,
        },
{
    let parts = match decimal_parts(t) {
        Some(p) => p,
        None => return None,
    };
    let ghost f = fraction_digits(t@);
    proof {
        lemma_shifted_all_digits(parts.digits@, parts.point as int);
    }
    let w = shifted_whole_capped(&parts.digits, parts.point, MAX_WHOLE_SECONDS);
    proof {
        lemma_shifted_all_digits(parts.digits@, parts.point as int);
        lemma_fraction_scaled_bounds(f, 9);
        reveal_with_fuel(pow10, 10);
    }
    if w > MAX_WHOLE_SECONDS {
        return None;
    }
    let mut frac: u64 = 0;
    let mut k: usize = 0;
    while k < 9
        invariant
            k <= 9,
            all_digits(parts.digits@),
            -(MAX_EXPONENT as int) <= parts.point <= usize::MAX + MAX_EXPONENT,
            f == shifted_fraction(parts.digits@, parts.point as int),
            frac == fraction_scaled(f, k as nat),
            frac < pow10(k as nat),
            pow10(9) == 1_000_000_000,
        decreases 9 - k,
    {
        let d = shifted_fraction_digit(&parts.digits, parts.point, k);
        proof {
            lemma_pow10_monotone(k as nat + 1, 9);
        }
        frac = frac * 10 + d;
        k += 1;
    }
    let magnitude: u64 = w * NANOS_PER_SECOND + frac;
    if magnitude > i64::MAX as u64 {
        return None;
    }
    let m = magnitude as i64;
    if parts.negative {
        Some(-m)
    } else {
        Some(m)
    }
}

proof fn lemma_pow10_monotone(a: nat, b: nat)
    requires
        a <= b,
    ensures
        pow10(a) <= pow10(b),
    decreases b - a,
{
    if a < b {
        lemma_pow10_monotone(a, (b - 1) as nat);
        lemma_pow10_positive((b - 1) as nat);
    }
}

proof fn lemma_pow10_positive(n: nat)
    ensures
        pow10(n) >= 1,
    decreases n,
{
    if n > 0 {
        lemma_pow10_positive((n - 1) as nat);
    }
}

/// A number of seconds that reads lies within the range of an `i64` and its negation.
pub proof fn lemma_seconds_as_nanos_range(t: Seq<char>)
    ensures
        seconds_as_nanos(t) matches Some(n) ==> -i64::MAX <= n <= i64::MAX,
{
    if is_decimal(t) {
        lemma_digits_value_nonneg(whole_digits(t));
        lemma_fraction_scaled_bounds(fraction_digits(t), 9);
    }
}

} // verus!
