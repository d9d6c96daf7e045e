use crate::amount::{
    raw_amount_value,
    without_commas,
    RawAmount,
    all_digits,
    amount_of,
    digit_value,
    digits_value,
    fraction_digits,
    is_decimal,
    is_digit,
    nine_places,
    point_at,
    point_index,
    scaled_digits,
    unsigned_part,
    whole_digits,
    SCALE,
};
use crate::ledger::{distinct_ids, total_for};
use crate::render::{decimal, digit_char, negated_text, padded, trimmed};
use vstd::arithmetic::div_mod::lemma_mod_breakdown;
use vstd::prelude::*;

verus! {

pub open spec fn pow10(k: nat) -> nat
    decreases k,
{
    if k == 0 {
        1
    } else {
        10 * pow10((k - 1) as nat)
    }
}

pub open spec fn zeros(m: nat) -> Seq<char> {
    Seq::new(m, |i: int| '0')
}

/// The entries an audit record of `plan` adds when read back: each identifier with the
/// negative of its planned amount.
pub open spec fn debits(plan: Seq<(Seq<char>, u64)>) -> Seq<(Seq<char>, int)> {
    plan.map_values(|p: (Seq<char>, u64)| (p.0, -(p.1 as int)))
}

proof fn lemma_digit_char(d: int)
    requires
        0 <= d < 10,
    ensures
        is_digit(digit_char(d)),
        digit_value(digit_char(d)) == d,
{
}

proof fn lemma_push_value(s: Seq<char>, c: char)
    ensures
        digits_value(s.push(c)) == digits_value(s) * 10 + digit_value(c),
{
    assert(s.push(c).drop_last() =~= s);
}

proof fn lemma_decimal(n: nat)
    ensures
        all_digits(decimal(n)),
        digits_value(decimal(n)) == n,
        decimal(n).len() >= 1,
    decreases n,
{
    if n < 10 {
        lemma_digit_char(n as int);
        assert(digits_value(decimal(n)) == digits_value(seq![digit_char(n as int)]));
        lemma_push_value(Seq::empty(), digit_char(n as int));
        assert(Seq::<char>::empty().push(digit_char(n as int)) =~= seq![digit_char(n as int)]);
    } else {
        lemma_decimal(n / 10);
        lemma_digit_char((n % 10) as int);
        lemma_push_value(decimal(n / 10), digit_char((n % 10) as int));
    }
}

proof fn lemma_pow10_positive(k: nat)
    ensures
        pow10(k) > 0,
    decreases k,
{
    if k > 0 {
        lemma_pow10_positive((k - 1) as nat);
    }
}

proof fn lemma_padded(n: nat, k: nat)
    ensures
        all_digits(padded(n, k)),
        padded(n, k).len() == k,
        digits_value(padded(n, k)) == n % pow10(k),
    decreases k,
{
    if k > 0 {
        lemma_padded(n / 10, (k - 1) as nat);
        lemma_digit_char((n % 10) as int);
        lemma_push_value(padded(n / 10, (k - 1) as nat), digit_char((n % 10) as int));
        lemma_pow10_positive((k - 1) as nat);
        lemma_mod_breakdown(n as int, 10, pow10((k - 1) as nat) as int);
    }
}

proof fn lemma_trimmed(n: nat, k: nat)
    ensures
        padded(n, k) == trimmed(n, k) + zeros((k - trimmed(n, k).len()) as nat),
        trimmed(n, k).len() <= k,
    decreases k,
{
    lemma_padded(n, k);
    if k > 0 && n % 10 == 0 {
        lemma_trimmed(n / 10, (k - 1) as nat);
        lemma_padded(n / 10, (k - 1) as nat);
        assert(digit_char((n % 10) as int) == '0');
        assert(padded(n, k) =~= trimmed(n, k) + zeros((k - trimmed(n, k).len()) as nat));
    } else {
        assert(padded(n, k) =~= trimmed(n, k) + zeros(0));
    }
}

pub proof fn lemma_concat_value(a: Seq<char>, b: Seq<char>)
    ensures
        digits_value(a + b) == digits_value(a) * pow10(b.len()) + digits_value(b),
    decreases b.len(),
{
    if b.len() == 0 {
        assert(a + b =~= a);
        assert(pow10(0) == 1);
        assert(digits_value(b) == 0);
        assert(digits_value(a) * 1 == digits_value(a));
    } else {
        assert((a + b).drop_last() =~= a + b.drop_last());
        lemma_concat_value(a, b.drop_last());
        let p = pow10((b.len() - 1) as nat);
        let va = digits_value(a);
        let vb = digits_value(b.drop_last());
        let c = digit_value(b.last());
        assert((a + b).last() == b.last());
        assert(digits_value(a + b) == digits_value(a + b.drop_last()) * 10 + c);
        assert(digits_value(b) == vb * 10 + c);
        assert(pow10(b.len()) == 10 * p);
        assert(digits_value(a + b.drop_last()) == va * p + vb);
        assert((va * p + vb) * 10 + c == va * (10 * p) + (vb * 10 + c)) by (nonlinear_arith);
        assert(digits_value(a + b) == va * pow10(b.len()) + digits_value(b));
    }
}

pub proof fn lemma_all_digits_zeros(m: nat)
    ensures
        all_digits(zeros(m)),
        digits_value(zeros(m)) == 0,
    decreases m,
{
    if m > 0 {
        assert(zeros(m).drop_last() =~= zeros((m - 1) as nat));
        lemma_all_digits_zeros((m - 1) as nat);
    }
}

/// The audit text of any planned amount reads back as exactly its negative.
pub proof fn law_negated_text_reads_back(x: u64)
    ensures
        amount_of(negated_text(x)) == Ok::<int, crate::amount::AmountError>(-(x as int)),
{
    let q = (x / SCALE) as nat;
    let f = (x % SCALE) as nat;
    let s = negated_text(x);
    lemma_decimal(q);
    let dq = decimal(q);
    reveal_with_fuel(pow10, 10);
    assert(pow10(9) == 1_000_000_000);
    let b = unsigned_part(s);
    if f == 0 {
        assert(b =~= dq);
        assert(is_decimal(s));
        assert(point_index(b) == b.len());
        assert(whole_digits(b) =~= dq);
        assert(nine_places(fraction_digits(b)) =~= zeros(9));
        lemma_all_digits_zeros(9);
        lemma_concat_value(dq, zeros(9));
        assert(scaled_digits(s) == dq + zeros(9));
    } else {
        let t = trimmed(f, 9);
        lemma_trimmed(f, 9);
        lemma_padded(f, 9);
        let k = dq.len() as int;
        assert(b =~= dq + seq!['.'] + t);
        assert(b.take(k) =~= dq);
        assert(b.skip(k + 1) =~= t);
        assert(all_digits(t)) by {
            assert forall|i: int| 0 <= i < t.len() implies is_digit(#[trigger] t[i]) by {
                assert(t[i] == padded(f, 9)[i]);
            }
        }
        assert(point_at(b, k));
        assert(is_decimal(s));
        assert(!is_digit(b[k]));
        let j = choose|j: int| point_at(b, j);
        if j < k {
            assert(b.take(k)[j] == b[j]);
        } else if j > k {
            assert(b.take(j)[k] == b[k]);
        }
        assert(point_index(b) == k);
        assert(whole_digits(b) =~= dq);
        assert(fraction_digits(b) =~= t);
        assert(nine_places(t) =~= padded(f, 9));
        lemma_concat_value(dq, padded(f, 9));
        assert(scaled_digits(s) == dq + padded(f, 9));
    }
    assert(digits_value(scaled_digits(s)) == x);
}

proof fn lemma_no_commas(s: Seq<char>)
    requires
        forall|i: int| 0 <= i < s.len() ==> #[trigger] s[i] != ',',
    ensures
        without_commas(s) == s,
    decreases s.len(),
{
    if s.len() > 0 {
        assert forall|i: int| 0 <= i < s.len() - 1 implies #[trigger] s.drop_last()[i] != ',' by {
            assert(s.drop_last()[i] == s[i]);
        }
        lemma_no_commas(s.drop_last());
        assert(s.drop_last().push(s.last()) =~= s);
    }
}

/// An audit record's value, read back as a document's string amount, is exactly the negative
/// of the planned amount it records.
pub proof fn law_audit_value_reads_back(x: u64, text: String)
    requires
        text@ == negated_text(x),
    ensures
        raw_amount_value(RawAmount::Text(text)) == Ok::<int, crate::amount::AmountError>(-(x as int)),
{
    let s = negated_text(x);
    let dq = decimal((x / SCALE) as nat);
    lemma_decimal((x / SCALE) as nat);
    assert forall|i: int| 0 <= i < s.len() implies #[trigger] s[i] != ',' by {
        if 1 <= i < 1 + dq.len() {
            assert(s[i] == dq[i - 1]);
            assert(is_digit(dq[i - 1]));
        } else if i >= 1 + dq.len() + 1 {
            let f = (x % SCALE) as nat;
            lemma_trimmed(f, 9);
            lemma_padded(f, 9);
            let t = trimmed(f, 9);
            assert(s =~= seq!['-'] + dq + seq!['.'] + t);
            assert(s[i] == t[i - dq.len() - 2]);
            assert(t[i - dq.len() - 2] == padded(f, 9)[i - dq.len() - 2]);
        }
    }
    lemma_no_commas(s);
    law_negated_text_reads_back(x);
}

proof fn lemma_debits_total(plan: Seq<(Seq<char>, u64)>, i: int)
    requires
        distinct_ids(plan),
        0 <= i < plan.len(),
    ensures
        total_for(debits(plan), plan[i].0) == -(plan[i].1 as int),
    decreases plan.len(),
{
    let d = debits(plan);
    assert(d.drop_last() =~= debits(plan.drop_last()));
    if i < plan.len() - 1 {
        assert(distinct_ids(plan.drop_last())) by {
            assert forall|a: int, b: int|
                0 <= a < plan.len() - 1 && 0 <= b < plan.len() - 1 && a != b implies (#[trigger] plan.drop_last()[a]).0
                    != (#[trigger] plan.drop_last()[b]).0 by {
                assert(plan.drop_last()[a] == plan[a]);
                assert(plan.drop_last()[b] == plan[b]);
            }
        }
        lemma_debits_total(plan.drop_last(), i);
        assert(plan[plan.len() - 1].0 != plan[i].0);
        assert(plan.drop_last()[i] == plan[i]);
    } else {
        lemma_absent_debits(plan.drop_last(), plan[i].0);
    }
}

proof fn lemma_absent_debits(plan: Seq<(Seq<char>, u64)>, id: Seq<char>)
    requires
        forall|a: int| 0 <= a < plan.len() ==> (#[trigger] plan[a]).0 != id,
    ensures
        total_for(debits(plan), id) == 0,
    decreases plan.len(),
{
    if plan.len() > 0 {
        assert(debits(plan).drop_last() =~= debits(plan.drop_last()));
        assert forall|a: int| 0 <= a < plan.len() - 1 implies (#[trigger] plan.drop_last()[a]).0 != id by {
            assert(plan.drop_last()[a] == plan[a]);
        }
        lemma_absent_debits(plan.drop_last(), id);
    }
}

/// Reading an audit record back after the documents that were minted from lowers each
/// planned identifier's total by exactly its planned amount.
pub proof fn law_debits_lower_totals(e: Seq<(Seq<char>, int)>, plan: Seq<(Seq<char>, u64)>, i: int)
    requires
        distinct_ids(plan),
        0 <= i < plan.len(),
    ensures
        total_for(e + debits(plan), plan[i].0) == total_for(e, plan[i].0) - plan[i].1,
{
    crate::ledger::law_total_order_independent(e, debits(plan), plan[i].0);
    lemma_debits_total(plan, i);
}

} // verus!
