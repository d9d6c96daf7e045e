use crate::amount::SCALE;
use crate::json::{json_entries_view, pretty_json, to_pretty_json, JsonValue, JsonValueView};
use crate::ledger::ledger_view;
use crate::plan::MintOpt;
use vstd::prelude::*;

verus! {

pub open spec fn digit_char(d: int) -> char {
    if d == 0 {
        '0'
    } else if d == 1 {
        '1'
    } else if d == 2 {
        '2'
    } else if d == 3 {
        '3'
    } else if d == 4 {
        '4'
    } else if d == 5 {
        '5'
    } else if d == 6 {
        '6'
    } else if d == 7 {
        '7'
    } else if d == 8 {
        '8'
    } else {
        '9'
    }
}

/// The decimal digits of `n`, without leading zeros.
pub open spec fn decimal(n: nat) -> Seq<char>
    decreases n,
{
    if n < 10 {
        seq![digit_char(n as int)]
    } else {
        decimal(n / 10).push(digit_char((n % 10) as int))
    }
}

/// The last `k` decimal digits of `n`, with leading zeros.
pub open spec fn padded(n: nat, k: nat) -> Seq<char>
    decreases k,
{
    if k == 0 {
        Seq::empty()
    } else {
        padded(n / 10, (k - 1) as nat).push(digit_char((n % 10) as int))
    }
}

/// `padded(n, k)` without its trailing zeros.
pub open spec fn trimmed(n: nat, k: nat) -> Seq<char>
    decreases k,
{
    if k > 0 && n % 10 == 0 {
        trimmed(n / 10, (k - 1) as nat)
    } else {
        padded(n, k)
    }
}

/// A fixed-point amount in tokens with nine decimal places.
pub open spec fn scaled_text(x: u64) -> Seq<char> {
    decimal((x / SCALE) as nat) + seq!['.'] + padded((x % SCALE) as nat, 9)
}

/// The negative of a fixed-point amount in tokens, in its shortest decimal form.
pub open spec fn negated_text(x: u64) -> Seq<char> {
    seq!['-'] + decimal((x / SCALE) as nat) + if x % SCALE == 0 {
        Seq::empty()
    } else {
        seq!['.'] + trimmed((x % SCALE) as nat, 9)
    }
}

/// One entry of the mint object literal.
pub open spec fn object_line(p: (Seq<char>, u64)) -> Seq<char> {
    "    \""@ + p.0 + "\": "@ + decimal(p.1 as nat)
}

/// The entry lines of the mint object literal, separated by a comma and a newline.
pub open spec fn object_body(plan: Seq<(Seq<char>, u64)>) -> Seq<char>
    decreases plan.len(),
{
    if plan.len() == 0 {
        Seq::empty()
    } else if plan.len() == 1 {
        object_line(plan[0])
    } else {
        object_body(plan.drop_last()) + ",\n"@ + object_line(plan.last())
    }
}

/// The mint object literal of the command line.
pub open spec fn mint_object(plan: Seq<(Seq<char>, u64)>) -> Seq<char> {
    "{\n"@ + object_body(plan) + "\n}"@
}

pub open spec fn memo_clause(memo: Option<String>) -> Seq<char> {
    match memo {
        Some(m) => "--memo '"@ + m@ + "'"@,
        None => Seq::empty(),
    }
}

/// The command line that mints the planned amounts.
pub open spec fn command_text(plan: Seq<(Seq<char>, u64)>, pem: Seq<char>, memo: Option<String>) -> Seq<
    char,
> {
    "ledger --pem "@ + pem + " https://alberto.app/api token mint mqbh742x4s356ddaryrxaowt4wxtlocekzpufodvowrirfrqaaaaa3l '"@
        + mint_object(plan) + "' "@ + memo_clause(memo)
}

/// The planned amounts as integer JSON values.
pub open spec fn amounts_json(plan: Seq<(Seq<char>, u64)>) -> Seq<(Seq<char>, JsonValueView)> {
    plan.map_values(|p: (Seq<char>, u64)| (p.0, JsonValueView::Int(p.1)))
}

/// What a mint run prints: JSON of the amounts, or the command line when anything is minted.
pub open spec fn console_text(plan: Seq<(Seq<char>, u64)>, opts: MintOpt) -> Option<Seq<char>> {
    if opts.json {
        Some(pretty_json(amounts_json(plan)))
    } else if plan.len() == 0 {
        None
    } else {
        Some(command_text(plan, opts.pem@, opts.memo))
    }
}

fn digit_text(d: u64) -> (r: String)
    requires
        d < 10,
    ensures
        r@ == seq![digit_char(d as int)],
{
    let all = "0123456789";
    proof {
        reveal_strlit("0123456789");
    }
    let r = String::from_str(all.substring_char(d as usize, d as usize + 1));
    assert(r@ =~= seq![digit_char(d as int)]);
    r
}

/// The decimal digits of `n`.
pub fn decimal_text(n: u64) -> (r: String)
    ensures
        r@ == decimal(n as nat),
    decreases n,
{
    if n < 10 {
        digit_text(n)
    } else {
        let mut s = decimal_text(n / 10);
        let d = digit_text(n % 10);
        s.append(d.as_str());
        s
    }
}

fn padded_text(n: u64, k: u64) -> (r: String)
    ensures
        r@ == padded(n as nat, k as nat),
    decreases k,
{
    if k == 0 {
        String::new()
    } else {
        let mut s = padded_text(n / 10, k - 1);
        let d = digit_text(n % 10);
        s.append(d.as_str());
        s
    }
}

fn trimmed_text(n: u64, k: u64) -> (r: String)
    ensures
        r@ == trimmed(n as nat, k as nat),
    decreases k,
{
    if k > 0 && n % 10 == 0 {
        trimmed_text(n / 10, k - 1)
    } else {
        padded_text(n, k)
    }
}

/// A fixed-point amount in tokens with nine decimal places (`80.500000000`).
pub fn format_scaled(x: u64) -> (r: String)
    ensures
        r@ == scaled_text(x),
{
    let mut s = decimal_text(x / SCALE);
    s.append(".");
    let f = padded_text(x % SCALE, 9);
    s.append(f.as_str());
    proof {
        reveal_strlit(".");
    }
    assert(s@ =~= scaled_text(x));
    s
}

/// The negative of a fixed-point amount in tokens, in its shortest form (`-80.5`).
pub fn format_negated(x: u64) -> (r: String)
    ensures
        r@ == negated_text(x),
{
    let mut s = String::from_str("-");
    let whole = decimal_text(x / SCALE);
    s.append(whole.as_str());
    proof {
        reveal_strlit("-");
        reveal_strlit(".");
    }
    if x % SCALE != 0 {
        s.append(".");
        let f = trimmed_text(x % SCALE, 9);
        s.append(f.as_str());
    }
    assert(s@ =~= negated_text(x));
    s
}

/// The mint object literal: one line per identifier with its amount in fixed-point units.
pub fn format_mint_object(plan: &Vec<(String, u64)>) -> (r: String)
    ensures
        r@ == mint_object(ledger_view(plan@)),
{
    let ghost pv = ledger_view(plan@);
    let mut body = String::new();
    let mut i: usize = 0;
    while i < plan.len()
        invariant
            i <= plan.len(),
            pv == ledger_view(plan@),
            body@ == object_body(pv.take(i as int)),
        decreases plan.len() - i,
    {
        let ghost prev = pv.take(i as int);
        assert(pv.take(i + 1).drop_last() =~= prev);
        if i > 0 {
            body.append(",\n");
        }
        body.append("    \"");
        body.append(plan[i].0.as_str());
        body.append("\": ");
        let amount = decimal_text(plan[i].1);
        body.append(amount.as_str());
        proof {
            if i == 0 {
                assert(body@ =~= object_line(pv[0]));
            } else {
                assert(body@ =~= object_body(prev) + ",\n"@ + object_line(pv[i as int]));
            }
        }
        i += 1;
    }
    assert(pv.take(plan.len() as int) =~= pv);
    let mut r = String::from_str("{\n");
    r.append(body.as_str());
    r.append("\n}");
    assert(r@ =~= mint_object(pv));
    r
}

/// The command line that mints the planned amounts.
pub fn format_command(plan: &Vec<(String, u64)>, pem: &String, memo: &Option<String>) -> (r: String)
    ensures
        r@ == command_text(ledger_view(plan@), pem@, *memo),
{
    let mut r = String::from_str("ledger --pem ");
    r.append(pem.as_str());
    r.append(
        " https://alberto.app/api token mint mqbh742x4s356ddaryrxaowt4wxtlocekzpufodvowrirfrqaaaaa3l '",
    );
    let object = format_mint_object(plan);
    r.append(object.as_str());
    r.append("' ");
    match memo {
        Some(m) => {
            r.append("--memo '");
            r.append(m.as_str());
            r.append("'");
        },
        None => {},
    }
    assert(r@ =~= command_text(ledger_view(plan@), pem@, *memo));
    r
}

/// What a mint run prints: the planned amounts as pretty JSON, or else the command line,
/// or nothing when the plan is empty.
pub fn render_output(plan: &Vec<(String, u64)>, opts: &MintOpt) -> (r: Option<String>)
    ensures
        match r {
            Some(s) => console_text(ledger_view(plan@), *opts) == Some(s@),
            None => (console_text(ledger_view(plan@), *opts) is None),
        },
{
    if opts.json {
        let mut entries: Vec<(String, JsonValue)> = Vec::new();
        let mut i: usize = 0;
        while i < plan.len()
            invariant
                i <= plan.len(),
                entries.len() == i,
                json_entries_view(entries@) == amounts_json(ledger_view(plan@)).take(i as int),
            decreases plan.len() - i,
        {
            let ghost prev = entries@;
            entries.push((plan[i].0.clone(), JsonValue::Int(plan[i].1)));
            proof {
                let lhs = json_entries_view(entries@);
                let rhs = amounts_json(ledger_view(plan@)).take(i + 1);
                assert forall|k: int| 0 <= k < i + 1 implies lhs[k] == rhs[k] by {
                    if k < i {
                        assert(entries@[k] == prev[k]);
                        assert(json_entries_view(prev)[k] == lhs[k]);
                    }
                }
                assert(lhs =~= rhs);
            }
            i += 1;
        }
        assert(amounts_json(ledger_view(plan@)).take(plan.len() as int) =~= amounts_json(
            ledger_view(plan@),
        ));
        to_pretty_json(&entries)
    } else if plan.len() == 0 {
        None
    } else {
        Some(format_command(plan, &opts.pem, &opts.memo))
    }
}

/// The audit record entries: each identifier with the negative of its planned amount, in tokens.
pub open spec fn audit_json(plan: Seq<(Seq<char>, u64)>) -> Seq<(Seq<char>, JsonValueView)> {
    plan.map_values(|p: (Seq<char>, u64)| (p.0, JsonValueView::Text(negated_text(p.1))))
}

/// The audit record of a plan: a JSON object of each identifier with the negative of its
/// planned amount, as a decimal string. Read back as a document, it debits what was minted.
pub fn audit_record(plan: &Vec<(String, u64)>) -> (r: String)
    ensures
        r@ == pretty_json(audit_json(ledger_view(plan@))),
{
    let mut entries: Vec<(String, JsonValue)> = Vec::new();
    let mut i: usize = 0;
    while i < plan.len()
        invariant
            i <= plan.len(),
            entries.len() == i,
            json_entries_view(entries@) == audit_json(ledger_view(plan@)).take(i as int),
        decreases plan.len() - i,
    {
        let ghost prev = entries@;
        let text = format_negated(plan[i].1);
        entries.push((plan[i].0.clone(), JsonValue::Text(text)));
        proof {
            let lhs = json_entries_view(entries@);
            let rhs = audit_json(ledger_view(plan@)).take(i + 1);
            assert forall|k: int| 0 <= k < i + 1 implies lhs[k] == rhs[k] by {
                if k < i {
                    assert(entries@[k] == prev[k]);
                    assert(json_entries_view(prev)[k] == lhs[k]);
                }
            }
            assert(lhs =~= rhs);
        }
        i += 1;
    }
    assert(audit_json(ledger_view(plan@)).take(plan.len() as int) =~= audit_json(ledger_view(plan@)));
    match to_pretty_json(&entries) {
        Some(text) => text,
        None => String::new(),
    }
}

/// The lines of a balance report: each identifier with a positive balance, with that
/// balance in tokens, in ledger order.
pub open spec fn report_lines(l: Seq<(Seq<char>, u64)>) -> Seq<Seq<char>>
    decreases l.len(),
{
    if l.len() == 0 {
        Seq::empty()
    } else if l.last().1 > 0 {
        report_lines(l.drop_last()).push(l.last().0 + ": "@ + scaled_text(l.last().1))
    } else {
        report_lines(l.drop_last())
    }
}

pub open spec fn texts_view(v: Seq<String>) -> Seq<Seq<char>> {
    v.map_values(|s: String| s@)
}

/// The lines that report a ledger: each identifier whose balance is positive, with its
/// balance in tokens.
pub fn balance_lines(ledger: &Vec<(String, u64)>) -> (r: Vec<String>)
    ensures
        texts_view(r@) == report_lines(ledger_view(ledger@)),
{
    let ghost lv = ledger_view(ledger@);
    let mut out: Vec<String> = Vec::new();
    let mut i: usize = 0;
    while i < ledger.len()
        invariant
            i <= ledger.len(),
            lv == ledger_view(ledger@),
            texts_view(out@) == report_lines(lv.take(i as int)),
        decreases ledger.len() - i,
    {
        assert(lv.take(i + 1).drop_last() =~= lv.take(i as int));
        if ledger[i].1 > 0 {
            let mut line = ledger[i].0.clone();
            line.append(": ");
            let amount = format_scaled(ledger[i].1);
            line.append(amount.as_str());
            let ghost prev = out@;
            out.push(line);
            assert(texts_view(out@) =~= texts_view(prev).push(line@));
        }
        i += 1;
    }
    assert(lv.take(ledger.len() as int) =~= lv);
    out
}

/// `s` right-aligned in a field of `width` characters.
pub open spec fn right_aligned(s: Seq<char>, width: nat) -> Seq<char> {
    if s.len() >= width {
        s
    } else {
        Seq::new((width - s.len()) as nat, |i: int| ' ') + s
    }
}

/// The length of the longest amount text of a plan.
pub open spec fn widest(plan: Seq<(Seq<char>, u64)>) -> nat
    decreases plan.len(),
{
    if plan.len() == 0 {
        0
    } else {
        let w = widest(plan.drop_last());
        let n = scaled_text(plan.last().1).len();
        if n > w {
            n
        } else {
            w
        }
    }
}

/// The lines that report a plan: each identifier, a tab, and its amount in tokens,
/// right-aligned to the longest amount.
pub fn summary_lines(plan: &Vec<(String, u64)>) -> (r: Vec<String>)
    ensures
        r.len() == plan.len(),
        forall|i: int|
            0 <= i < r.len() ==> (#[trigger] r@[i])@ == plan@[i].0@ + "\t"@ + right_aligned(
                scaled_text(plan@[i].1),
                widest(ledger_view(plan@)),
            ),
{
    let ghost pv = ledger_view(plan@);
    let mut amounts: Vec<String> = Vec::new();
    let mut width: usize = 0;
    let mut i: usize = 0;
    while i < plan.len()
        invariant
            i <= plan.len(),
            pv == ledger_view(plan@),
            amounts.len() == i,
            forall|k: int| 0 <= k < i ==> (#[trigger] amounts@[k])@ == scaled_text(plan@[k].1),
            width as nat == widest(pv.take(i as int)),
        decreases plan.len() - i,
    {
        let a = format_scaled(plan[i].1);
        let n = a.unicode_len();
        assert(pv.take(i + 1).drop_last() =~= pv.take(i as int));
        if n > width {
            width = n;
        }
        amounts.push(a);
        i += 1;
    }
    assert(pv.take(plan.len() as int) =~= pv);
    let mut out: Vec<String> = Vec::new();
    let mut j: usize = 0;
    while j < plan.len()
        invariant
            j <= plan.len(),
            out.len() == j,
            amounts.len() == plan.len(),
            forall|k: int| 0 <= k < plan.len() ==> (#[trigger] amounts@[k])@ == scaled_text(plan@[k].1),
            forall|k: int|
                0 <= k < j ==> (#[trigger] out@[k])@ == plan@[k].0@ + "\t"@ + right_aligned(
                    scaled_text(plan@[k].1),
                    width as nat,
                ),
            width as nat == widest(ledger_view(plan@)),
        decreases plan.len() - j,
    {
        let mut line = plan[j].0.clone();
        line.append("\t");
        let n = amounts[j].unicode_len();
        let mut pad: usize = n;
        while pad < width
            invariant
                n <= pad <= width || (n > width && pad == n),
                n == amounts@[j as int]@.len(),
                line@ == plan@[j as int].0@ + "\t"@ + Seq::new((pad - n) as nat, |q: int| ' '),
            decreases width - pad,
        {
            line.append(" ");
            proof {
                reveal_strlit(" ");
            }
            pad += 1;
            assert(line@ =~= plan@[j as int].0@ + "\t"@ + Seq::new((pad - n) as nat, |q: int| ' '));
        }
        line.append(amounts[j].as_str());
        proof {
            if n >= width {
                assert(Seq::new((pad - n) as nat, |q: int| ' ') =~= Seq::<char>::empty());
            }
        }
        assert(line@ =~= plan@[j as int].0@ + "\t"@ + right_aligned(scaled_text(plan@[j as int].1), width as nat));
        out.push(line);
        j += 1;
    }
    out
}

/// The console output depends on the plan, the format and the command's parameters, never
/// on whether the run is a dry run.
pub proof fn law_dry_run_same_output(plan: Seq<(Seq<char>, u64)>, committed: MintOpt, dry: MintOpt)
    requires
        committed.json == dry.json,
        committed.pem@ == dry.pem@,
        committed.memo == dry.memo,
    ensures
        console_text(plan, committed) == console_text(plan, dry),
{
}

} // verus!
