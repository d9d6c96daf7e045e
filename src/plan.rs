use crate::amount::{amount_of, chars_of, parse_amount, AmountError, SCALE};
use crate::ledger::ledger_view;
use vstd::prelude::*;

verus! {

/// Lower end of the jitter band, in billionths of the nominal maximum.
pub const JITTER_LOW: u64 = 800_000_000;

/// Upper end (excluded) of the jitter band, in billionths of the nominal maximum.
pub const JITTER_HIGH: u64 = 1_200_000_000;

/// Options of a mint run.
pub struct MintOpt {
    /// The maximum amount to mint for one identifier in one run, in fixed-point units.
    pub max: u64,
    /// Whether to leave out the audit record of what was minted.
    pub dry_run: bool,
    /// Whether each identifier gets its own cap, drawn in the jitter band around `max`.
    pub randomize: bool,
    /// A memo to pass to the minting command.
    pub memo: Option<String>,
    /// Whether to output JSON instead of the full command line.
    pub json: bool,
    /// The credential file named in the command line.
    pub pem: String,
}

/// Options of a balance report.
pub struct BalancesOpt {}

pub open spec fn min_int(a: int, b: int) -> int {
    if a <= b {
        a
    } else {
        b
    }
}

/// `max` scaled by a draw given in billionths, truncated and saturated to 64 bits.
pub open spec fn jittered_cap(max: u64, draw: u64) -> int {
    min_int((max as int * draw as int) / (SCALE as int), u64::MAX as int)
}

/// The cap of one identifier.
pub open spec fn cap_of(max: u64, randomize: bool, draw: u64) -> int {
    if randomize {
        jittered_cap(max, draw)
    } else {
        max as int
    }
}

/// Every draw lies in the jitter band.
pub open spec fn draws_in_band(draws: Seq<u64>) -> bool {
    forall|i: int| 0 <= i < draws.len() ==> JITTER_LOW <= #[trigger] draws[i] < JITTER_HIGH
}

/// Each identifier of the ledger with its balance clamped to its cap.
pub open spec fn mint_plan(
    ledger: Seq<(Seq<char>, u64)>,
    max: u64,
    randomize: bool,
    draws: Seq<u64>,
) -> Seq<(Seq<char>, u64)> {
    Seq::new(
        ledger.len(),
        |i: int| (ledger[i].0, min_int(ledger[i].1 as int, cap_of(max, randomize, draws[i])) as u64),
    )
}

/// The per-run maximum from its decimal text, in fixed-point units; a negative maximum
/// mints nothing.
pub fn parse_max(text: &str) -> (r: Result<u64, AmountError>)
    ensures
        match r {
            Ok(m) => amount_of(text@) is Ok && m as int == (if amount_of(text@)->Ok_0 < 0 {
                0
            } else {
                amount_of(text@)->Ok_0
            }),
            Err(e) => amount_of(text@) == Err::<int, AmountError>(e),
        },
{
    match parse_amount(&chars_of(text)) {
        Ok(v) => {
            if v < 0 {
                Ok(0)
            } else {
                assert(v <= crate::amount::AMOUNT_LIMIT);
                Ok(v as u64)
            }
        },
        Err(e) => Err(e),
    }
}

/// The cap of one identifier, from its draw when randomized.
pub fn cap(max: u64, randomize: bool, draw: u64) -> (r: u64)
    ensures
        r as int == cap_of(max, randomize, draw),
{
    if randomize {
        assert((max as int) * (draw as int) <= (u64::MAX as int) * (u64::MAX as int)) by (nonlinear_arith)
            requires
                max <= u64::MAX,
                draw <= u64::MAX,
        ;
        let scaled = (max as u128) * (draw as u128) / (SCALE as u128);
        if scaled > u64::MAX as u128 {
            u64::MAX
        } else {
            scaled as u64
        }
    } else {
        max
    }
}

/// The amounts to mint: each balance clamped to its cap, from `draws[i]` when randomized.
pub fn plan_with_draws(ledger: &Vec<(String, u64)>, opts: &MintOpt, draws: &Vec<u64>) -> (r: Vec<
    (String, u64),
>)
    requires
        opts.randomize ==> draws.len() == ledger.len(),
    ensures
        ledger_view(r@) == mint_plan(ledger_view(ledger@), opts.max, opts.randomize, draws@),
{
    let ghost target = mint_plan(ledger_view(ledger@), opts.max, opts.randomize, draws@);
    let mut out: Vec<(String, u64)> = Vec::new();
    let mut i: usize = 0;
    while i < ledger.len()
        invariant
            i <= ledger.len(),
            out.len() == i,
            opts.randomize ==> draws.len() == ledger.len(),
            target == mint_plan(ledger_view(ledger@), opts.max, opts.randomize, draws@),
            ledger_view(out@) == target.take(i as int),
        decreases ledger.len() - i,
    {
        let draw = if opts.randomize {
            draws[i]
        } else {
            0
        };
        let c = cap(opts.max, opts.randomize, draw);
        let balance = ledger[i].1;
        let amount = if balance <= c {
            balance
        } else {
            c
        };
        let ghost prev = out@;
        out.push((ledger[i].0.clone(), amount));
        proof {
            let lv = ledger_view(out@);
            assert forall|k: int| 0 <= k < i + 1 implies lv[k] == target.take(i + 1)[k] by {
                if k < i {
                    assert(out@[k] == prev[k]);
                    assert(ledger_view(prev)[k] == lv[k]);
                }
            }
            assert(lv =~= target.take(i + 1));
        }
        i += 1;
    }
    assert(target.take(ledger.len() as int) =~= target);
    out
}

/// Relies on `rand::thread_rng` and `Rng::gen_range`: a uniform draw from `lo..hi`, which
/// must be non-empty (`gen_range` panics on an empty range).
#[verifier::external_body]
fn draw_in(lo: u64, hi: u64) -> (r: u64)
    requires
        lo < hi,
    ensures
        lo <= r < hi,
{
    rand::Rng::gen_range(&mut rand::thread_rng(), lo..hi)
}

/// The amounts to mint; when randomized, each identifier's cap comes from a fresh draw in
/// the jitter band.
pub fn mint_amounts(ledger: &Vec<(String, u64)>, opts: &MintOpt) -> (r: Vec<(String, u64)>)
    ensures
        exists|d: Seq<u64>|
            d.len() == ledger.len() && draws_in_band(d) && ledger_view(r@) == mint_plan(
                ledger_view(ledger@),
                opts.max,
                opts.randomize,
                d,
            ),
{
    let mut draws: Vec<u64> = Vec::new();
    let mut i: usize = 0;
    while i < ledger.len()
        invariant
            i <= ledger.len(),
            draws.len() == i,
            draws_in_band(draws@),
        decreases ledger.len() - i,
    {
        let d = if opts.randomize {
            draw_in(JITTER_LOW, JITTER_HIGH)
        } else {
            SCALE
        };
        draws.push(d);
        i += 1;
    }
    plan_with_draws(ledger, opts, &draws)
}

/// Without randomization the plan does not depend on the draws: runs on the same ledger
/// and maximum plan the same amounts.
pub proof fn law_fixed_plan_is_repeatable(
    ledger: Seq<(Seq<char>, u64)>,
    max: u64,
    first: Seq<u64>,
    second: Seq<u64>,
)
    ensures
        mint_plan(ledger, max, false, first) == mint_plan(ledger, max, false, second),
{
    assert(mint_plan(ledger, max, false, first) =~= mint_plan(ledger, max, false, second));
}

/// With randomization, each identifier's amount is its balance clamped to a cap scaled
/// from the nominal maximum by its own draw; it never exceeds the balance, nor the nominal
/// maximum scaled by the top of the jitter band, and reaches at least the smaller of the
/// balance and the maximum scaled by the bottom of the band.
pub proof fn law_randomized_amounts_bounded(
    ledger: Seq<(Seq<char>, u64)>,
    max: u64,
    draws: Seq<u64>,
)
    requires
        draws.len() == ledger.len(),
        draws_in_band(draws),
    ensures
        forall|i: int|
            0 <= i < ledger.len() ==> {
                let a = (#[trigger] mint_plan(ledger, max, true, draws)[i]).1 as int;
                &&& a == min_int(ledger[i].1 as int, jittered_cap(max, draws[i]))
                &&& a <= ledger[i].1
                &&& a * (SCALE as int) <= (max as int) * (JITTER_HIGH as int)
                &&& a >= min_int(ledger[i].1 as int, (max as int) * (JITTER_LOW as int) / (SCALE as int))
            },
{
    assert forall|i: int| 0 <= i < ledger.len() implies {
        let a = (#[trigger] mint_plan(ledger, max, true, draws)[i]).1 as int;
        &&& a == min_int(ledger[i].1 as int, jittered_cap(max, draws[i]))
        &&& a <= ledger[i].1
        &&& a * (SCALE as int) <= (max as int) * (JITTER_HIGH as int)
        &&& a >= min_int(ledger[i].1 as int, (max as int) * (JITTER_LOW as int) / (SCALE as int))
    } by {
        let d = draws[i];
        let m = max as int;
        let q = (m * d as int) / (SCALE as int);
        assert(JITTER_LOW <= d < JITTER_HIGH);
        assert(q * (SCALE as int) <= m * d as int) by (nonlinear_arith)
            requires
                q == (m * d as int) / (SCALE as int),
                m >= 0,
                d >= 0,
        ;
        assert(m * d as int <= m * (JITTER_HIGH as int)) by (nonlinear_arith)
            requires
                m >= 0,
                d < JITTER_HIGH,
        ;
        assert((m * (JITTER_LOW as int)) / (SCALE as int) <= q) by (nonlinear_arith)
            requires
                q == (m * d as int) / (SCALE as int),
                m >= 0,
                d >= JITTER_LOW,
        ;
        let a = min_int(ledger[i].1 as int, jittered_cap(max, d));
        assert(0 <= a);
        if a == jittered_cap(max, d) && a < q {
            assert(a == u64::MAX);
            assert(a * (SCALE as int) <= q * (SCALE as int)) by (nonlinear_arith)
                requires
                    a <= q,
            ;
        } else if a == q {
        } else {
            assert(a <= q);
            assert(a * (SCALE as int) <= q * (SCALE as int)) by (nonlinear_arith)
                requires
                    a <= q,
            ;
        }
    }
}

} // verus!
