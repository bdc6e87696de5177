//! Total cost of buying both sides of a market, and the arbitrage decision.
use vstd::prelude::*;
use crate::document::{extract_quotes, reward_quote};
use crate::fee::{
    calculate_fee, fee_of, in_range, FeeCache, FeeError, FEE_FLOOR, FEE_ONE, FEE_PEAK, PRICE_ONE,
};

verus! {

/// Cash needed, in units of 10^-15, to buy one unit of each side at the
/// given prices (millionths), each side paying its own proportional fee.
pub open spec fn total_cost(yes: int, no: int) -> int {
    yes * FEE_ONE + no * FEE_ONE + yes * fee_of(yes) + no * fee_of(no)
}

/// The memo after the fees of `yes` and then `no` were asked for: each price
/// in range is added with its fee, and asking stops at the first price out
/// of range.
pub open spec fn memo_after(m: Map<u64, u64>, yes: i64, no: i64) -> Map<u64, u64> {
    if !in_range(yes as int) {
        m
    } else if !in_range(no as int) {
        m.insert(yes as u64, fee_of(yes as int) as u64)
    } else {
        m.insert(yes as u64, fee_of(yes as int) as u64).insert(no as u64, fee_of(no as int) as u64)
    }
}

/// Whether buying both sides costs less than the one-unit payout minus the
/// demanded margin `min_profit` (millionths).
pub open spec fn is_arbitrage(yes: int, no: int, min_profit: int) -> bool {
    total_cost(yes, no) < (PRICE_ONE - min_profit) * FEE_ONE
}

/// Fees of both sides and the total cost of buying both, going through the
/// memo. The yes side is checked first.
pub fn calculate_total_cost(cache: &mut FeeCache, yes_price: i64, no_price: i64) -> (r: Result<
    (u64, u64, u64),
    FeeError,
>)
    requires
        old(cache).wf(),
    ensures
        final(cache).wf(),
        final(cache)@ == memo_after(old(cache)@, yes_price, no_price),
        in_range(yes_price as int) && in_range(no_price as int) ==> r == Ok::<
            (u64, u64, u64),
            FeeError,
        >(
            (
                fee_of(yes_price as int) as u64,
                fee_of(no_price as int) as u64,
                total_cost(yes_price as int, no_price as int) as u64,
            ),
        ),
        !in_range(yes_price as int) ==> r == Err::<(u64, u64, u64), FeeError>(
            FeeError::OutOfRange { price: yes_price },
        ),
        in_range(yes_price as int) && !in_range(no_price as int) ==> r == Err::<
            (u64, u64, u64),
            FeeError,
        >(FeeError::OutOfRange { price: no_price }),
{
    let yes_fee = calculate_fee(cache, yes_price)?;
    let no_fee = calculate_fee(cache, no_price)?;
    let y = yes_price as u64;
    let n = no_price as u64;
    proof {
        lemma_total_cost_fits(yes_price as int, no_price as int);
    }
    let total = y * FEE_ONE + n * FEE_ONE + y * yes_fee + n * no_fee;
    Ok((yes_fee, no_fee, total))
}

/// The total cost of two prices in range fits in 64 bits.
proof fn lemma_total_cost_fits(yes: int, no: int)
    requires
        in_range(yes),
        in_range(no),
    ensures
        0 <= total_cost(yes, no) <= u64::MAX,
{
    let (fy, fn_) = (fee_of(yes), fee_of(no));
    assert(0 <= yes * fy <= PRICE_ONE * FEE_PEAK) by (nonlinear_arith)
        requires
            0 <= yes <= PRICE_ONE,
            0 <= fy <= FEE_PEAK,
    ;
    assert(0 <= no * fn_ <= PRICE_ONE * FEE_PEAK) by (nonlinear_arith)
        requires
            0 <= no <= PRICE_ONE,
            0 <= fn_ <= FEE_PEAK,
    ;
    assert(0 <= yes * FEE_ONE <= PRICE_ONE * FEE_ONE) by (nonlinear_arith)
        requires
            0 <= yes <= PRICE_ONE,
    ;
    assert(0 <= no * FEE_ONE <= PRICE_ONE * FEE_ONE) by (nonlinear_arith)
        requires
            0 <= no <= PRICE_ONE,
    ;
}

/// What the scan reports for two prices and a margin: the out-of-range
/// error of the first price outside [0.0, 1.0], the yes side first; else
/// `(true, yes, no)` when the prices are an arbitrage, `(false, 0, 0)` when
/// not.
pub open spec fn arb_result(yes: i64, no: i64, min_profit: u64) -> Result<(bool, i64, i64), FeeError> {
    if !in_range(yes as int) {
        Err(FeeError::OutOfRange { price: yes })
    } else if !in_range(no as int) {
        Err(FeeError::OutOfRange { price: no })
    } else if is_arbitrage(yes as int, no as int, min_profit as int) {
        Ok((true, yes, no))
    } else {
        Ok((false, 0, 0))
    }
}

/// The price that stands for a missing or unreadable one: 1.0, at which no
/// pair of prices is ever an arbitrage.
pub open spec fn or_default(q: Option<i64>) -> i64 {
    match q {
        Some(p) => p,
        None => PRICE_ONE as i64,
    }
}

/// The arbitrage decision for two prices (millionths) and a margin
/// (millionths): `(true, yes, no)` when buying both sides costs less than
/// one minus the margin, `(false, 0, 0)` otherwise. Fails when either price
/// lies outside [0.0, 1.0], the yes side checked first.
pub fn decide_arb(cache: &mut FeeCache, yes_price: i64, no_price: i64, min_profit: u64) -> (r:
    Result<(bool, i64, i64), FeeError>)
    requires
        old(cache).wf(),
    ensures
        final(cache).wf(),
        final(cache)@ == memo_after(old(cache)@, yes_price, no_price),
        r == arb_result(yes_price, no_price, min_profit),
{
    let (_yes_fee, _no_fee, total) = calculate_total_cost(cache, yes_price, no_price)?;
    proof {
        let (y, n) = (yes_price as int, no_price as int);
        assert(y * fee_of(y) >= 0 && n * fee_of(n) >= 0 && y * FEE_ONE >= 0 && n * FEE_ONE >= 0)
            by (nonlinear_arith)
            requires
                y >= 0,
                n >= 0,
                fee_of(y) >= 0,
                fee_of(n) >= 0,
        ;
        assert(min_profit >= PRICE_ONE ==> (PRICE_ONE - min_profit) * FEE_ONE <= 0)
            by (nonlinear_arith);
        lemma_total_cost_fits(y, n);
        assert(total == total_cost(y, n));
    }
    if min_profit < PRICE_ONE && total < (PRICE_ONE - min_profit) * FEE_ONE {
        Ok((true, yes_price, no_price))
    } else {
        Ok((false, 0, 0))
    }
}

/// Replaces each missing price by 1.0.
pub fn apply_defaults(yes: Option<i64>, no: Option<i64>) -> (r: (i64, i64))
    ensures
        r == (or_default(yes), or_default(no)),
{
    let y = match yes {
        Some(p) => p,
        None => PRICE_ONE as i64,
    };
    let n = match no {
        Some(p) => p,
        None => PRICE_ONE as i64,
    };
    (y, n)
}

/// The arbitrage decision for two prices as read from a document, each
/// missing one taken as 1.0.
pub fn scan_quotes(cache: &mut FeeCache, yes: Option<i64>, no: Option<i64>, min_profit: u64) -> (r:
    Result<(bool, i64, i64), FeeError>)
    requires
        old(cache).wf(),
    ensures
        final(cache).wf(),
        final(cache)@ == memo_after(old(cache)@, or_default(yes), or_default(no)),
        r == arb_result(or_default(yes), or_default(no), min_profit),
{
    let (y, n) = apply_defaults(yes, no);
    decide_arb(cache, y, n, min_profit)
}

/// Scans an order-book document for an arbitrage between its yes side
/// (`rewards[0].price`) and its no side (`rewards[1].price`), with a margin
/// `min_profit` in millionths. A document that does not parse, or a price
/// that is missing or not a number, counts as a price of 1.0; a price
/// outside [0.0, 1.0] fails the scan.
pub fn find_arb(cache: &mut FeeCache, orderbook_json: &str, min_profit: u64) -> (r: Result<
    (bool, i64, i64),
    FeeError,
>)
    requires
        old(cache).wf(),
    ensures
        final(cache).wf(),
        r == arb_result(
            or_default(reward_quote(orderbook_json@, 0)),
            or_default(reward_quote(orderbook_json@, 1)),
            min_profit,
        ),
        final(cache)@ == memo_after(
            old(cache)@,
            or_default(reward_quote(orderbook_json@, 0)),
            or_default(reward_quote(orderbook_json@, 1)),
        ),
{
    let (yes, no) = extract_quotes(orderbook_json);
    scan_quotes(cache, yes, no, min_profit)
}

/// Two prices of 1.0, the stand-in for unreadable ones, are never an
/// arbitrage, whatever the margin.
pub proof fn lemma_default_prices_never_arbitrage(min_profit: u64)
    ensures
        arb_result(PRICE_ONE as i64, PRICE_ONE as i64, min_profit) == Ok::<
            (bool, i64, i64),
            FeeError,
        >((false, 0i64, 0i64)),
{
    assert(fee_of(PRICE_ONE as int) == FEE_FLOOR);
}

} // verus!
