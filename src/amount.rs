use crate::number::{number_value, parse_number};
use vstd::prelude::*;

verus! {

/// Number of fixed-point units in one token.
pub const SCALE: u64 = 1_000_000_000;

/// Largest accepted positive amount, in fixed-point units (one `SCALE` of tokens).
pub const AMOUNT_LIMIT: u64 = 1_000_000_000_000_000_000;

/// Largest accepted magnitude of a negative amount, in fixed-point units (10^27 tokens);
/// beyond it the 128-bit ledger arithmetic could overflow.
pub const NEGATIVE_LIMIT: u128 = 1_000_000_000_000_000_000_000_000_000_000_000_000;

/// Why a single amount was refused.
#[derive(Debug, Clone, Copy, PartialEq, Eq, Structural)]
pub enum AmountError {
    /// The value is neither a JSON number nor a JSON string.
    WrongType,
    /// The text is not a plain decimal number.
    NotANumber,
    /// The amount is larger than `SCALE` tokens (most likely a misplaced decimal point).
    AboveLimit,
    /// A negative amount beyond `NEGATIVE_LIMIT`, or an exponent beyond `EXPONENT_LIMIT`.
    OutOfRange,
}

/// An amount as it stands in an input document.
#[derive(Debug, Clone, PartialEq, Eq)]
pub enum RawAmount {
    /// A JSON number, in its textual form.
    Number(String),
    /// A JSON string, which may hold comma grouping separators.
    Text(String),
    /// Any other JSON value, in its textual form.
    Other(String),
}

pub open spec fn is_digit(c: char) -> bool {
    '0' <= c && c <= '9'
}

pub open spec fn digit_value(c: char) -> int {
    c as int - '0' as int
}

pub open spec fn all_digits(s: Seq<char>) -> bool {
    forall|i: int| 0 <= i < s.len() ==> is_digit(#[trigger] s[i])
}

/// The natural number written by a string of decimal digits.
pub open spec fn digits_value(s: Seq<char>) -> int
    decreases s.len(),
{
    if s.len() == 0 {
        0
    } else {
        digits_value(s.drop_last()) * 10 + digit_value(s.last())
    }
}

pub open spec fn has_sign(s: Seq<char>) -> bool {
    s.len() > 0 && (s[0] == '-' || s[0] == '+')
}

pub open spec fn is_negative(s: Seq<char>) -> bool {
    s.len() > 0 && s[0] == '-'
}

/// The text without its leading sign, if any.
pub open spec fn unsigned_part(s: Seq<char>) -> Seq<char> {
    if has_sign(s) {
        s.skip(1)
    } else {
        s
    }
}

/// `b` is digits, a decimal point at index `k`, then digits.
pub open spec fn point_at(b: Seq<char>, k: int) -> bool {
    &&& 0 <= k < b.len()
    &&& b[k] == '.'
    &&& all_digits(b.take(k))
    &&& all_digits(b.skip(k + 1))
}

/// An optional sign followed by digits with at most one decimal point, and at least one digit.
pub open spec fn is_decimal(s: Seq<char>) -> bool {
    let b = unsigned_part(s);
    (b.len() > 0 && all_digits(b)) || (b.len() > 1 && exists|k: int| point_at(b, k))
}

/// Index of the decimal point in an unsigned decimal, or its length when it has none.
pub open spec fn point_index(b: Seq<char>) -> int {
    if all_digits(b) {
        b.len() as int
    } else {
        choose|k: int| point_at(b, k)
    }
}

pub open spec fn whole_digits(b: Seq<char>) -> Seq<char> {
    b.take(point_index(b))
}

pub open spec fn fraction_digits(b: Seq<char>) -> Seq<char> {
    if point_index(b) < b.len() {
        b.skip(point_index(b) + 1)
    } else {
        Seq::empty()
    }
}

/// The first nine fraction digits, padded with zeros: truncation to fixed-point units.
pub open spec fn nine_places(f: Seq<char>) -> Seq<char> {
    Seq::new(9, |i: int| if i < f.len() { f[i] } else { '0' })
}

/// The digits of the amount in fixed-point units: whole digits, then nine fraction digits.
pub open spec fn scaled_digits(s: Seq<char>) -> Seq<char> {
    let b = unsigned_part(s);
    whole_digits(b) + nine_places(fraction_digits(b))
}

/// Magnitude of a decimal text times `SCALE`, truncated toward zero.
pub open spec fn scaled_magnitude(s: Seq<char>) -> int {
    digits_value(scaled_digits(s))
}

/// The fixed-point value of a decimal text, or why it is refused.
pub open spec fn amount_of(s: Seq<char>) -> Result<int, AmountError> {
    if !is_decimal(s) {
        Err(AmountError::NotANumber)
    } else if is_negative(s) {
        if scaled_magnitude(s) > NEGATIVE_LIMIT {
            Err(AmountError::OutOfRange)
        } else {
            Ok(-scaled_magnitude(s))
        }
    } else if above_limit(s) {
        Err(AmountError::AboveLimit)
    } else {
        Ok(scaled_magnitude(s))
    }
}

/// Some fraction digit beyond the ninth is not zero.
pub open spec fn nonzero_beyond_nine(f: Seq<char>) -> bool {
    exists|i: int| 9 <= i < f.len() && f[i] != '0'
}

/// The exact value of an unsigned decimal text is more than `SCALE` tokens: its truncation
/// is above the limit, or at the limit with a non-zero digit cut off.
pub open spec fn above_limit(s: Seq<char>) -> bool {
    scaled_magnitude(s) > AMOUNT_LIMIT || (scaled_magnitude(s) == AMOUNT_LIMIT && nonzero_beyond_nine(
        fraction_digits(unsigned_part(s)),
    ))
}

/// The text with every comma removed.
pub open spec fn without_commas(s: Seq<char>) -> Seq<char>
    decreases s.len(),
{
    if s.len() == 0 {
        s
    } else if s.last() == ',' {
        without_commas(s.drop_last())
    } else {
        without_commas(s.drop_last()).push(s.last())
    }
}

/// The fixed-point value of an amount of an input document.
pub open spec fn raw_amount_value(v: RawAmount) -> Result<int, AmountError> {
    match v {
        RawAmount::Number(t) => number_value(t@),
        RawAmount::Text(t) => amount_of(without_commas(t@)),
        RawAmount::Other(_) => Err(AmountError::WrongType),
    }
}

pub proof fn lemma_point_unique(b: Seq<char>, k: int)
    requires
        point_at(b, k),
    ensures
        point_index(b) == k,
        !all_digits(b),
{
    assert(!is_digit(b[k]));
    let j = choose|j: int| point_at(b, j);
    assert(point_at(b, j));
    if j < k {
        assert(b.take(k)[j] == b[j]);
    } else if j > k {
        assert(b.take(j)[k] == b[k]);
    }
}

proof fn lemma_digits_value_step(s: Seq<char>, t: int)
    requires
        0 <= t < s.len(),
    ensures
        digits_value(s.take(t + 1)) == digits_value(s.take(t)) * 10 + digit_value(s[t]),
{
    assert(s.take(t + 1).drop_last() =~= s.take(t));
}

pub proof fn lemma_digits_value_grows(s: Seq<char>, t: int)
    requires
        0 <= t <= s.len(),
        all_digits(s),
    ensures
        digits_value(s.take(t)) <= digits_value(s),
        0 <= digits_value(s.take(t)),
    decreases s.len() - t,
{
    if t < s.len() {
        lemma_digits_value_step(s, t);
        assert(is_digit(s[t]));
        lemma_digits_value_grows(s, t + 1);
    } else {
        assert(s.take(t) =~= s);
        lemma_digits_value_nonneg(s);
    }
}

proof fn lemma_digits_value_nonneg(s: Seq<char>)
    requires
        all_digits(s),
    ensures
        0 <= digits_value(s),
    decreases s.len(),
{
    if s.len() > 0 {
        assert(is_digit(s[s.len() - 1]));
        lemma_digits_value_nonneg(s.drop_last());
    }
}

pub fn is_digit_char(c: char) -> (r: bool)
    ensures
        r == is_digit(c),
{
    '0' <= c && c <= '9'
}

/// The characters of `s`, in order.
pub fn chars_of(s: &str) -> (r: Vec<char>)
    ensures
        r@ == s@,
{
    let n = s.unicode_len();
    let mut r: Vec<char> = Vec::new();
    let mut i: usize = 0;
    while i < n
        invariant
            n == s@.len(),
            i <= n,
            r@ == s@.take(i as int),
        decreases n - i,
    {
        r.push(s.get_char(i));
        i += 1;
        assert(r@ =~= s@.take(i as int));
    }
    assert(s@.take(n as int) =~= s@);
    r
}

/// The characters of `s` with every comma left out.
pub fn chars_without_commas(s: &str) -> (r: Vec<char>)
    ensures
        r@ == without_commas(s@),
{
    let n = s.unicode_len();
    let mut r: Vec<char> = Vec::new();
    let mut i: usize = 0;
    while i < n
        invariant
            n == s@.len(),
            i <= n,
            r@ == without_commas(s@.take(i as int)),
        decreases n - i,
    {
        let c = s.get_char(i);
        assert(s@.take(i + 1).drop_last() =~= s@.take(i as int));
        if c != ',' {
            r.push(c);
        }
        i += 1;
    }
    assert(s@.take(n as int) =~= s@);
    r
}

/// Parses a decimal text into fixed-point units, truncating beyond nine fraction digits.
#[verifier::rlimit(60)]
pub fn parse_amount(cs: &Vec<char>) -> (r: Result<i128, AmountError>)
    ensures
        r matches Ok(v) ==> v <= AMOUNT_LIMIT,
        match r {
            Ok(v) => amount_of(cs@) == Ok::<int, AmountError>(v as int),
            Err(e) => amount_of(cs@) == Err::<int, AmountError>(e),
        },
{
    let ghost s = cs@;
    let n = cs.len();
    let neg = n > 0 && cs[0] == '-';
    let start: usize = if n > 0 && (cs[0] == '-' || cs[0] == '+') {
        1
    } else {
        0
    };
    let ghost b = unsigned_part(s);
    assert(b =~= s.skip(start as int));
    // Whole digits run from `start` up to `k`.
    let mut k: usize = start;
    while k < n && is_digit_char(cs[k])
        invariant
            start <= k <= n,
            n == s.len(),
            s == cs@,
            b == s.skip(start as int),
            all_digits(b.take(k - start)),
        decreases n - k,
    {
        assert(b.take(k + 1 - start) =~= b.take(k - start).push(b[k - start]));
        k += 1;
    }
    let has_point = k < n;
    if has_point {
        if cs[k] != '.' {
            proof {
                assert(!all_digits(b)) by {
                    assert(!is_digit(b[k - start]));
                }
                if exists|j: int| point_at(b, j) {
                    let j = choose|j: int| point_at(b, j);
                    if j < k - start {
                        assert(b.take(k - start)[j] == b[j]);
                    } else if j > k - start {
                        assert(b.take(j)[k - start] == b[k - start]);
                    }
                }
            }
            return Err(AmountError::NotANumber);
        }
        let mut j: usize = k + 1;
        while j < n && is_digit_char(cs[j])
            invariant
                start <= k < j <= n,
                start <= 1,
                n == s.len(),
                b.len() == n - start,
                s == cs@,
                b == s.skip(start as int),
                all_digits(b.skip(k + 1 - start).take(j - k - 1)),
            decreases n - j,
        {
            assert(b.skip(k + 1 - start).take(j - k) =~= b.skip(k + 1 - start).take(j - k
                - 1).push(b[j - start]));
            j += 1;
        }
        if j < n {
            proof {
                assert(!all_digits(b)) by {
                    assert(!is_digit(b[k - start]));
                }
                if exists|p: int| point_at(b, p) {
                    let p = choose|p: int| point_at(b, p);
                    if p < k - start {
                        assert(b.take(k - start)[p] == b[p]);
                    } else if p > k - start {
                        assert(b.take(p)[k - start] == b[k - start]);
                    } else {
                        assert(b.skip(k + 1 - start)[j - k - 1] == b[j - start]);
                    }
                }
            }
            return Err(AmountError::NotANumber);
        }
        assert(b.skip(k + 1 - start).take(j - k - 1) =~= b.skip(k + 1 - start));
        if n - start < 2 {
            proof {
                assert(!all_digits(b)) by {
                    assert(!is_digit(b[k - start]));
                }
            }
            return Err(AmountError::NotANumber);
        }
        proof {
            assert(point_at(b, k - start));
            lemma_point_unique(b, k - start);
        }
    } else {
        assert(b.take(k - start) =~= b);
        if n == start {
            return Err(AmountError::NotANumber);
        }
    }
    assert(is_decimal(s));
    let ghost w = scaled_digits(s);
    let ghost kw = k - start;
    assert(whole_digits(b) =~= b.take(kw));
    let limit: u128 = if neg {
        NEGATIVE_LIMIT
    } else {
        AMOUNT_LIMIT as u128
    };
    let kw_exec: usize = k - start;
    assert(w.len() == kw + 9);
    assert(all_digits(w)) by {
        assert forall|i: int| 0 <= i < w.len() implies is_digit(#[trigger] w[i]) by {
            if i < kw {
                assert(b.take(kw)[i] == b[i]);
            } else if has_point && i - kw < fraction_digits(b).len() {
                assert(fraction_digits(b) =~= b.skip(kw + 1));
                assert(b.skip(kw + 1)[i - kw] == b[kw + 1 + i - kw]);
            }
        }
    }
    let mut acc: u128 = 0;
    let total: u128 = kw_exec as u128 + 9;
    let mut t: u128 = 0;
    while t < total
        invariant
            kw_exec == kw,
            total == kw + 9,
            t <= kw + 9,
            w.len() == kw + 9,
            kw == k - start,
            start <= k <= n,
            start <= 1,
            n == s.len(),
            s == cs@,
            b == s.skip(start as int),
            b.len() == n - start,
            w == whole_digits(b) + nine_places(fraction_digits(b)),
            w == scaled_digits(s),
            whole_digits(b) == b.take(kw),
            has_point ==> k < n && fraction_digits(b) == b.skip(kw + 1),
            !has_point ==> k == n && fraction_digits(b) == Seq::<char>::empty(),
            all_digits(w),
            is_decimal(s),
            neg == is_negative(s),
            limit == (if neg { NEGATIVE_LIMIT } else { AMOUNT_LIMIT as u128 }),
            acc as int == digits_value(w.take(t as int)),
            acc <= limit,
        decreases kw + 9 - t,
    {
        let c = if t < kw_exec as u128 {
            cs[start + t as usize]
        } else {
            let q: usize = (t - kw_exec as u128) as usize;
            if has_point && q < n - k - 1 {
                cs[k + 1 + q]
            } else {
                '0'
            }
        };
        proof {
            if t < kw {
                assert(b.take(kw)[t as int] == b[t as int]);
            } else if has_point {
                assert(fraction_digits(b).len() == n - k - 1);
            }
            assert(c == w[t as int]);
            lemma_digits_value_step(w, t as int);
        }
        let d = (c as u32 - '0' as u32) as u128;
        acc = acc * 10 + d;
        t += 1;
        if acc > limit {
            proof {
                lemma_digits_value_grows(w, t as int);
            }
            if neg {
                return Err(AmountError::OutOfRange);
            } else {
                return Err(AmountError::AboveLimit);
            }
        }
    }
    assert(w.take(kw + 9) =~= w);
    if neg {
        Ok(0i128 - acc as i128)
    } else {
        if acc == AMOUNT_LIMIT as u128 {
            let cut = if has_point {
                nonzero_after_nine(cs, k + 1)
            } else {
                false
            };
            proof {
                if has_point {
                    assert(b.skip(kw + 1) =~= s.skip(k + 1));
                } else {
                    assert(!nonzero_beyond_nine(fraction_digits(b)));
                }
            }
            if cut {
                return Err(AmountError::AboveLimit);
            }
        }
        Ok(acc as i128)
    }
}

/// Whether `cs[from..]` holds a non-zero character after its first nine.
fn nonzero_after_nine(cs: &Vec<char>, from: usize) -> (r: bool)
    requires
        from <= cs.len(),
    ensures
        r == nonzero_beyond_nine(cs@.skip(from as int)),
{
    let ghost f = cs@.skip(from as int);
    let len = cs.len() - from;
    let mut i: usize = 9;
    while i < len
        invariant
            9 <= i,
            len == f.len(),
            f == cs@.skip(from as int),
            from + len == cs.len(),
            forall|j: int| 9 <= j < i && j < len ==> f[j] == '0',
        decreases len - i,
    {
        assert(f[i as int] == cs@[from + i]);
        if cs[from + i] != '0' {
            return true;
        }
        i += 1;
    }
    false
}

/// The fixed-point value of an amount of an input document: numbers are parsed as
/// written, exponent included, strings after their commas are removed, anything else is refused.
pub fn raw_amount(v: &RawAmount) -> (r: Result<i128, AmountError>)
    ensures
        match r {
            Ok(x) => raw_amount_value(*v) == Ok::<int, AmountError>(x as int),
            Err(e) => raw_amount_value(*v) == Err::<int, AmountError>(e),
        },
{
    match v {
        RawAmount::Number(t) => parse_number(&chars_of(t.as_str())),
        RawAmount::Text(t) => parse_amount(&chars_without_commas(t.as_str())),
        RawAmount::Other(_) => Err(AmountError::WrongType),
    }
}

} // verus!
