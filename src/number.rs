use crate::amount::{
    all_digits,
    amount_of,
    digits_value,
    fraction_digits,
    has_sign,
    is_decimal,
    is_digit,
    is_digit_char,
    is_negative,
    nine_places,
    point_index,
    scaled_digits,
    lemma_point_unique,
    parse_amount,
    point_at,
    unsigned_part,
    whole_digits,
    AmountError,
};
use crate::amount::{raw_amount_value, without_commas, RawAmount};
use crate::audit::zeros;
use vstd::prelude::*;

verus! {

/// Largest accepted magnitude of a decimal exponent; a negative exponent beyond it gives
/// zero when the mantissa has few enough whole digits.
pub const EXPONENT_LIMIT: u64 = 1000;

pub open spec fn is_exponent_marker(c: char) -> bool {
    c == 'e' || c == 'E'
}

/// `k` is the first exponent marker of `s`.
pub open spec fn marker_at(s: Seq<char>, k: int) -> bool {
    &&& 0 <= k < s.len()
    &&& is_exponent_marker(s[k])
    &&& forall|j: int| 0 <= j < k ==> !is_exponent_marker(#[trigger] s[j])
}

pub open spec fn has_marker(s: Seq<char>) -> bool {
    exists|k: int| marker_at(s, k)
}

pub open spec fn marker_index(s: Seq<char>) -> int {
    choose|k: int| marker_at(s, k)
}

/// An optional sign followed by at least one digit.
pub open spec fn exponent_ok(x: Seq<char>) -> bool {
    unsigned_part(x).len() > 0 && all_digits(unsigned_part(x))
}

pub open spec fn exponent_of(x: Seq<char>) -> int {
    if is_negative(x) {
        -digits_value(unsigned_part(x))
    } else {
        digits_value(unsigned_part(x))
    }
}

/// A decimal text with its point moved `e` places to the right, as plain decimal text.
pub open spec fn shifted(m: Seq<char>, e: int) -> Seq<char> {
    let b = unsigned_part(m);
    let d = whole_digits(b) + fraction_digits(b);
    let p = whole_digits(b).len() + e;
    let sign = if is_negative(m) {
        seq!['-']
    } else {
        Seq::empty()
    };
    sign + if p <= 0 {
        seq!['0', '.'] + zeros((-p) as nat) + d
    } else if p >= d.len() {
        d + zeros((p - d.len()) as nat)
    } else {
        d.take(p) + seq!['.'] + d.skip(p)
    }
}

/// The fixed-point value of a JSON number's text: a decimal, optionally followed by an
/// exponent (`1.5e-7`), which moves the decimal point exactly.
pub open spec fn number_value(s: Seq<char>) -> Result<int, AmountError> {
    if !has_marker(s) {
        amount_of(s)
    } else {
        let k = marker_index(s);
        let m = s.take(k);
        let x = s.skip(k + 1);
        if !is_decimal(m) || !exponent_ok(x) {
            Err(AmountError::NotANumber)
        } else if digits_value(unsigned_part(x)) > EXPONENT_LIMIT && !negligible(m, x) {
            Err(AmountError::OutOfRange)
        } else {
            amount_of(shifted(m, exponent_of(x)))
        }
    }
}

/// A negative exponent beyond the limit moves every digit of the mantissa below the nine
/// kept places, so the amount truncates to zero.
pub open spec fn negligible(m: Seq<char>, x: Seq<char>) -> bool {
    is_negative(x) && whole_digits(unsigned_part(m)).len() + 9 <= EXPONENT_LIMIT
}

proof fn lemma_decimal_digits(m: Seq<char>)
    requires
        is_decimal(m),
    ensures
        all_digits(whole_digits(unsigned_part(m))),
        all_digits(fraction_digits(unsigned_part(m))),
{
    let b = unsigned_part(m);
    if all_digits(b) {
        assert(whole_digits(b) =~= b);
    } else {
        let k = choose|k: int| point_at(b, k);
        assert(point_at(b, k));
    }
}

proof fn lemma_shifted_to_zero(m: Seq<char>, e: int)
    requires
        is_decimal(m),
        whole_digits(unsigned_part(m)).len() + e <= -9,
    ensures
        amount_of(shifted(m, e)) == Ok::<int, AmountError>(0),
{
    let b = unsigned_part(m);
    let d = whole_digits(b) + fraction_digits(b);
    lemma_decimal_digits(m);
    let z = (-(whole_digits(b).len() + e)) as nat;
    let body = seq!['0', '.'] + zeros(z) + d;
    let t = shifted(m, e);
    assert(unsigned_part(t) =~= body);
    let rest = zeros(z) + d;
    assert(body.skip(2) =~= rest);
    assert(body.take(1) =~= seq!['0']);
    assert(all_digits(rest)) by {
        assert forall|i: int| 0 <= i < rest.len() implies is_digit(#[trigger] rest[i]) by {
            if i >= z {
                let j = i - z;
                if j < whole_digits(b).len() {
                    assert(rest[i] == whole_digits(b)[j]);
                } else {
                    assert(rest[i] == fraction_digits(b)[j - whole_digits(b).len()]);
                }
            }
        }
    }
    assert(point_at(body, 1));
    lemma_point_unique(body, 1);
    assert(whole_digits(body) =~= seq!['0']);
    assert(fraction_digits(body) =~= rest);
    assert(nine_places(rest) =~= zeros(9));
    crate::audit::lemma_all_digits_zeros(9);
    crate::audit::lemma_concat_value(seq!['0'], zeros(9));
    assert(digits_value(seq!['0']) == 0) by {
        let e0 = Seq::<char>::empty();
        assert(seq!['0'].drop_last() =~= e0);
        assert(digits_value(e0) == 0);
        assert(seq!['0'].last() == '0');
        assert(crate::amount::digit_value('0') == 0);
    }
    assert(scaled_digits(t) == seq!['0'] + zeros(9));
}

/// The number of whole digits of the decimal mantissa `cs[..k]`.
fn whole_len(cs: &Vec<char>, k: usize) -> (r: usize)
    requires
        k <= cs.len(),
        is_decimal(cs@.take(k as int)),
    ensures
        r == whole_digits(unsigned_part(cs@.take(k as int))).len(),
{
    let ghost s = cs@;
    let ghost m = s.take(k as int);
    let start: usize = if k > 0 && (cs[0] == '-' || cs[0] == '+') {
        1
    } else {
        0
    };
    let ghost b = unsigned_part(m);
    assert(b =~= s.subrange(start as int, k as int));
    let mut w: usize = start;
    while w < k && is_digit_char(cs[w])
        invariant
            start <= w <= k,
            k <= s.len(),
            s == cs@,
            b == s.subrange(start as int, k as int),
            forall|j: int| start <= j < w ==> is_digit(#[trigger] s[j]),
        decreases k - w,
    {
        w += 1;
    }
    let ghost kw = w - start;
    proof {
        if w < k {
            assert(!is_digit(b[kw]));
            assert(!all_digits(b));
            let j = choose|j: int| point_at(b, j);
            assert(point_at(b, j));
            if j < kw {
                assert(b[j] == s[start + j]);
            } else if j > kw {
                assert(b.take(j)[kw] == b[kw]);
            }
            lemma_point_unique(b, kw);
        } else {
            assert(all_digits(b)) by {
                assert forall|i: int| 0 <= i < b.len() implies is_digit(#[trigger] b[i]) by {
                    assert(b[i] == s[start + i]);
                }
            }
        }
    }
    w - start
}

fn copy_range(src: &Vec<char>, from: usize, to: usize, out: &mut Vec<char>)
    requires
        from <= to <= src.len(),
    ensures
        final(out)@ == old(out)@ + src@.subrange(from as int, to as int),
{
    let ghost start = out@;
    let mut i: usize = from;
    while i < to
        invariant
            from <= i <= to,
            to <= src.len(),
            out@ == start + src@.subrange(from as int, i as int),
        decreases to - i,
    {
        out.push(src[i]);
        i += 1;
        assert(out@ =~= start + src@.subrange(from as int, i as int));
    }
}

fn push_zeros(out: &mut Vec<char>, n: usize)
    ensures
        final(out)@ == old(out)@ + zeros(n as nat),
{
    let ghost start = out@;
    let mut i: usize = 0;
    while i < n
        invariant
            i <= n,
            out@ == start + zeros(i as nat),
        decreases n - i,
    {
        out.push('0');
        i += 1;
        assert(out@ =~= start + zeros(i as nat));
    }
}

/// The exponent that follows index `from`, bounded by `EXPONENT_LIMIT`.
fn parse_exponent(cs: &Vec<char>, xs: usize) -> (r: Result<i128, AmountError>)
    requires
        0 < xs <= cs.len(),
    ensures
        match r {
            Ok(e) => exponent_ok(cs@.skip(xs as int)) && digits_value(unsigned_part(cs@.skip(xs as int)))
                <= EXPONENT_LIMIT && e == exponent_of(cs@.skip(xs as int)) && -(EXPONENT_LIMIT as int)
                <= e <= EXPONENT_LIMIT,
            Err(AmountError::NotANumber) => !exponent_ok(cs@.skip(xs as int)),
            Err(AmountError::OutOfRange) => exponent_ok(cs@.skip(xs as int)) && digits_value(
                unsigned_part(cs@.skip(xs as int)),
            ) > EXPONENT_LIMIT,
            Err(_) => false,
        },
{
    let ghost s = cs@;
    let n = cs.len();
    let ghost x = s.skip(xs as int);
    let xneg = xs < n && cs[xs] == '-';
    let dstart: usize = if xs < n && (cs[xs] == '-' || cs[xs] == '+') {
        xs + 1
    } else {
        xs
    };
    let ghost xd = unsigned_part(x);
    assert(xd =~= s.subrange(dstart as int, n as int));
    if dstart == n {
        return Err(AmountError::NotANumber);
    }
    let mut q: usize = dstart;
    while q < n && is_digit_char(cs[q])
        invariant
            dstart <= q <= n,
            n == s.len(),
            s == cs@,
            forall|j: int| dstart <= j < q ==> is_digit(#[trigger] s[j]),
        decreases n - q,
    {
        q += 1;
    }
    if q < n {
        assert(!all_digits(xd)) by {
            assert(xd[q - dstart] == s[q as int]);
        }
        return Err(AmountError::NotANumber);
    }
    assert(all_digits(xd)) by {
        assert forall|i: int| 0 <= i < xd.len() implies is_digit(#[trigger] xd[i]) by {
            assert(xd[i] == s[dstart + i]);
        }
    }
    let mut ev: u64 = 0;
    let mut t: usize = dstart;
    while t < n
        invariant
            dstart <= t <= n,
            n == s.len(),
            s == cs@,
            xd == s.subrange(dstart as int, n as int),
            xd == unsigned_part(x),
            x == s.skip(xs as int),
            all_digits(xd),
            ev as int == digits_value(xd.take(t - dstart)),
            ev <= EXPONENT_LIMIT,
        decreases n - t,
    {
        let c = cs[t];
        proof {
            assert(xd[t - dstart] == c);
            assert(xd.take(t + 1 - dstart).drop_last() =~= xd.take(t - dstart));
        }
        ev = ev * 10 + (c as u32 - '0' as u32) as u64;
        assert(ev as int == digits_value(xd.take(t + 1 - dstart)));
        t += 1;
        if ev > EXPONENT_LIMIT {
            proof {
                crate::amount::lemma_digits_value_grows(xd, t - dstart);
                assert(digits_value(xd) > EXPONENT_LIMIT);
                assert(xd == unsigned_part(x));
                assert(exponent_ok(x));
            }
            return Err(AmountError::OutOfRange);
        }
    }
    assert(xd.take(n - dstart) =~= xd);
    let e: i128 = if xneg {
        0 - ev as i128
    } else {
        ev as i128
    };
    assert(e == exponent_of(x));
    Ok(e)
}

/// The mantissa `cs[..k]`, a decimal, with its point moved `e` places to the right.
#[verifier::rlimit(80)]
fn shift_point(cs: &Vec<char>, k: usize, e: i128) -> (r: Vec<char>)
    requires
        k < cs.len(),
        is_decimal(cs@.take(k as int)),
        -(EXPONENT_LIMIT as int) <= e <= EXPONENT_LIMIT,
    ensures
        r@ == shifted(cs@.take(k as int), e as int),
{
    let ghost s = cs@;
    let n = cs.len();
    let ghost m = s.take(k as int);
    let neg = k > 0 && cs[0] == '-';
    let start: usize = if k > 0 && (cs[0] == '-' || cs[0] == '+') {
        1
    } else {
        0
    };
    let ghost b = unsigned_part(m);
    assert(b =~= s.subrange(start as int, k as int));
    let mut w: usize = start;
    while w < k && is_digit_char(cs[w])
        invariant
            start <= w <= k,
            k < n,
            n == s.len(),
            s == cs@,
            b == s.subrange(start as int, k as int),
            forall|j: int| start <= j < w ==> is_digit(#[trigger] s[j]),
        decreases k - w,
    {
        w += 1;
    }
    let has_point = w < k;
    let ghost kw = w - start;
    proof {
        assert(all_digits(b.take(kw))) by {
            assert forall|i: int| 0 <= i < kw implies is_digit(#[trigger] b.take(kw)[i]) by {
                assert(b.take(kw)[i] == s[start + i]);
            }
        }
        if has_point {
            assert(!is_digit(b[kw]));
            assert(!all_digits(b));
            let j = choose|j: int| point_at(b, j);
            assert(point_at(b, j));
            if j < kw {
                assert(b[j] == s[start + j]);
            } else if j > kw {
                assert(b.take(j)[kw] == b[kw]);
            }
            lemma_point_unique(b, kw);
        } else {
            assert(b.take(kw) =~= b);
        }
    }
    let mut digits: Vec<char> = Vec::new();
    copy_range(cs, start, w, &mut digits);
    if has_point {
        copy_range(cs, w + 1, k, &mut digits);
    }
    let ghost d = whole_digits(b) + fraction_digits(b);
    proof {
        if has_point {
            assert(whole_digits(b) =~= s.subrange(start as int, w as int));
            assert(fraction_digits(b) =~= s.subrange(w + 1, k as int));
        } else {
            assert(whole_digits(b) =~= s.subrange(start as int, w as int));
            assert(fraction_digits(b) =~= Seq::<char>::empty());
        }
    }
    assert(digits@ =~= d);
    let dl = digits.len();
    let p: i128 = (w - start) as i128 + e;
    let mut out: Vec<char> = Vec::new();
    if neg {
        out.push('-');
    }
    let ghost sign = out@;
    if p <= 0 {
        out.push('0');
        out.push('.');
        push_zeros(&mut out, (0 - p) as usize);
        copy_range(&digits, 0, dl, &mut out);
        assert(digits@.subrange(0, dl as int) =~= d);
        assert(out@ =~= sign + (seq!['0', '.'] + zeros((-p) as nat) + d));
    } else if p >= dl as i128 {
        copy_range(&digits, 0, dl, &mut out);
        push_zeros(&mut out, (p - dl as i128) as usize);
        assert(digits@.subrange(0, dl as int) =~= d);
        assert(out@ =~= sign + (d + zeros((p - dl) as nat)));
    } else {
        copy_range(&digits, 0, p as usize, &mut out);
        out.push('.');
        copy_range(&digits, p as usize, dl, &mut out);
        assert(out@ =~= sign + (d.take(p as int) + seq!['.'] + d.skip(p as int)));
    }
    assert(out@ =~= shifted(m, e as int));
    out
}

/// Parses the text of a JSON number into fixed-point units: a decimal, or a decimal with
/// an exponent of at most `EXPONENT_LIMIT` in magnitude.
pub fn parse_number(cs: &Vec<char>) -> (r: Result<i128, AmountError>)
    ensures
        match r {
            Ok(v) => number_value(cs@) == Ok::<int, AmountError>(v as int),
            Err(e) => number_value(cs@) == Err::<int, AmountError>(e),
        },
{
    let ghost s = cs@;
    let n = cs.len();
    let mut k: usize = 0;
    while k < n && !(cs[k] == 'e' || cs[k] == 'E')
        invariant
            k <= n,
            n == s.len(),
            s == cs@,
            forall|j: int| 0 <= j < k ==> !is_exponent_marker(#[trigger] s[j]),
        decreases n - k,
    {
        k += 1;
    }
    if k == n {
        assert(!has_marker(s)) by {
            if has_marker(s) {
                let j = choose|j: int| marker_at(s, j);
                assert(!is_exponent_marker(s[j]));
            }
        }
        return parse_amount(cs);
    }
    assert(marker_at(s, k as int));
    assert(marker_index(s) == k) by {
        let j = choose|j: int| marker_at(s, j);
        if j < k {
            assert(!is_exponent_marker(s[j]));
        } else if j > k {
            assert(!is_exponent_marker(s[k as int]));
        }
    }
    let ghost m = s.take(k as int);
    let ghost x = s.skip(k + 1);
    let mut mant: Vec<char> = Vec::new();
    copy_range(cs, 0, k, &mut mant);
    assert(mant@ =~= m);
    match parse_amount(&mant) {
        Err(AmountError::NotANumber) => {
            return Err(AmountError::NotANumber);
        },
        _ => {},
    }
    assert(is_decimal(m));
    let e = match parse_exponent(cs, k + 1) {
        Ok(e) => e,
        Err(AmountError::OutOfRange) => {
            let xneg = k + 1 < n && cs[k + 1] == '-';
            let wl = whole_len(cs, k);
            if xneg && wl <= (EXPONENT_LIMIT - 9) as usize {
                proof {
                    assert(x[0] == s[k + 1]);
                    assert(negligible(m, x));
                    assert(exponent_of(x) == -digits_value(unsigned_part(x)));
                    lemma_shifted_to_zero(m, exponent_of(x));
                }
                return Ok(0);
            }
            proof {
                if k + 1 < n {
                    assert(x[0] == s[k + 1]);
                }
            }
            return Err(AmountError::OutOfRange);
        },
        Err(err) => {
            return Err(err);
        },
    };
    let out = shift_point(cs, k, e);
    proof {
        assert(number_value(s) == amount_of(out@));
    }
    parse_amount(&out)
}

/// A string amount with comma grouping reads as the same value as the number written
/// without the commas (`"1,234.5"` and `1234.5`), for numbers in plain decimal form.
pub proof fn law_grouped_string_matches_number(grouped: String, number: String)
    requires
        without_commas(grouped@) == number@,
        forall|i: int| 0 <= i < number@.len() ==> !is_exponent_marker(#[trigger] number@[i]),
    ensures
        raw_amount_value(RawAmount::Text(grouped)) == raw_amount_value(RawAmount::Number(number)),
{
    if has_marker(number@) {
        let k = choose|k: int| marker_at(number@, k);
        assert(is_exponent_marker(number@[k]));
    }
}

} // verus!
