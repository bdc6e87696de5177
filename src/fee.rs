//! The fee formula and the memo of computed fees.
use vstd::prelude::*;
use std::collections::HashMap;
use vstd::string::StringExecFns;

verus! {

broadcast use vstd::std_specs::hash::group_hash_axioms;

/// One whole unit of price (a price of 1.0), in millionths.
pub const PRICE_ONE: u64 = 1_000_000;

/// The lowest fee (0.1%), in billionths.
pub const FEE_FLOOR: u64 = 1_000_000;

/// The highest fee (3%), reached at a price of 0.5, in billionths.
pub const FEE_PEAK: u64 = 30_000_000;

/// Number of fee units (billionths) in a whole.
pub const FEE_ONE: u64 = 1_000_000_000;

/// Distance of a price from the midpoint 0.5, scaled so that 0.0 and 1.0 are
/// at distance `PRICE_ONE`.
pub open spec fn certainty(p: int) -> int {
    let d = 2 * p - PRICE_ONE;
    if d < 0 { -d } else { d }
}

/// The fee at price `p` (millionths), in billionths:
/// `max(0.001, 0.03 * (1 - |2p - 1|))`.
pub open spec fn fee_of(p: int) -> int {
    let linear = 30 * (PRICE_ONE - certainty(p));
    if linear < FEE_FLOOR { FEE_FLOOR as int } else { linear }
}

/// A price that the fee formula accepts: within [0.0, 1.0].
pub open spec fn in_range(p: int) -> bool {
    0 <= p <= PRICE_ONE
}

/// Why a fee could not be computed.
#[derive(Debug, Clone, Copy, PartialEq, Eq, Structural)]
pub enum FeeError {
    /// The price (in millionths) lies outside [0.0, 1.0].
    OutOfRange { price: i64 },
}

/// Decimal digits of a natural number, most significant first.
pub open spec fn nat_text(n: nat) -> Seq<char>
    decreases n,
{
    let digits = seq!['0', '1', '2', '3', '4', '5', '6', '7', '8', '9'];
    if n < 10 {
        seq![digits[n as int]]
    } else {
        nat_text(n / 10).push(digits[(n % 10) as int])
    }
}

/// Decimal text of an integer, with a leading `-` when negative.
pub open spec fn int_text(i: int) -> Seq<char> {
    if i < 0 {
        seq!['-'] + nat_text((-i) as nat)
    } else {
        nat_text(i as nat)
    }
}

/// Relies on `i64::to_string` (its `Display`): the decimal text of the value.
#[verifier::external_body]
fn decimal_text(i: i64) -> (r: String)
    ensures
        r@ == int_text(i as int),
{
    i.to_string()
}

impl FeeError {
    /// A sentence describing the error, ending with the rejected price.
    pub fn message(&self) -> (r: String)
        ensures
            match self {
                FeeError::OutOfRange { price } => r@ == "Price must be between 0 and 1000000 millionths, got "@
                    + int_text(*price as int),
            },
    {
        match self {
            FeeError::OutOfRange { price } => {
                let mut text = "Price must be between 0 and 1000000 millionths, got ".to_owned();
                let number = decimal_text(*price);
                text.append(number.as_str());
                text
            },
        }
    }
}

/// Computes the fee at a price in range, without consulting any cache.
pub fn compute_fee(price: u64) -> (fee: u64)
    requires
        price <= PRICE_ONE,
    ensures
        fee == fee_of(price as int),
        FEE_FLOOR <= fee <= FEE_PEAK,
{
    let twice: u64 = 2 * price;
    let cert: u64 = if twice >= PRICE_ONE { twice - PRICE_ONE } else { PRICE_ONE - twice };
    let linear: u64 = 30 * (PRICE_ONE - cert);
    if linear < FEE_FLOOR {
        FEE_FLOOR
    } else {
        linear
    }
}

/// A memo of fees already computed, keyed by price in millionths.
pub struct FeeCache {
    entries: HashMap<u64, u64>,
}

/// Every entry of a memo holds the fee of its key, and every key is a price
/// in range.
pub open spec fn memo_wf(m: Map<u64, u64>) -> bool {
    forall|k: u64| #[trigger] m.contains_key(k) ==> k <= PRICE_ONE && m[k] == fee_of(k as int)
}

impl View for FeeCache {
    type V = Map<u64, u64>;

    closed spec fn view(&self) -> Map<u64, u64> {
        self.entries@
    }
}

impl FeeCache {
    pub open spec fn wf(&self) -> bool {
        memo_wf(self@)
    }

    /// An empty memo.
    pub fn new() -> (c: FeeCache)
        ensures
            c.wf(),
            c@ == Map::<u64, u64>::empty(),
    {
        FeeCache { entries: HashMap::new() }
    }

    /// The stored fee of `price`, computing and storing it first if absent.
    pub fn get_or_compute(&mut self, price: u64) -> (fee: u64)
        requires
            old(self).wf(),
            price <= PRICE_ONE,
        ensures
            final(self).wf(),
            fee == fee_of(price as int),
            final(self)@ == old(self)@.insert(price, fee),
    {
        match self.entries.get(&price) {
            Some(f) => {
                let fee = *f;
                proof {
                    assert(self@.insert(price, fee) =~= self@);
                }
                fee
            },
            None => {
                let fee = compute_fee(price);
                self.entries.insert(price, fee);
                fee
            },
        }
    }

    /// Removes every entry.
    pub fn clear(&mut self)
        ensures
            final(self).wf(),
            final(self)@ == Map::<u64, u64>::empty(),
    {
        self.entries.clear();
    }

    /// Number of entries.
    pub fn len(&self) -> (n: usize)
        ensures
            n == self@.len(),
    {
        self.entries.len()
    }
}

/// The fee at `price` (millionths), in billionths, going through the memo.
/// Fails exactly when the price lies outside [0.0, 1.0].
pub fn calculate_fee(cache: &mut FeeCache, price: i64) -> (r: Result<u64, FeeError>)
    requires
        old(cache).wf(),
    ensures
        final(cache).wf(),
        in_range(price as int) ==> r == Ok::<u64, FeeError>(fee_of(price as int) as u64)
            && final(cache)@ == old(cache)@.insert(price as u64, fee_of(price as int) as u64),
        !in_range(price as int) ==> r == Err::<u64, FeeError>(FeeError::OutOfRange { price })
            && final(cache)@ == old(cache)@,
{
    if price < 0 || price > PRICE_ONE as i64 {
        return Err(FeeError::OutOfRange { price });
    }
    Ok(cache.get_or_compute(price as u64))
}

/// Empties the memo.
pub fn clear_fee_cache(cache: &mut FeeCache)
    ensures
        final(cache).wf(),
        final(cache)@ == Map::<u64, u64>::empty(),
{
    cache.clear();
}

/// Number of prices whose fee the memo holds.
pub fn get_cache_size(cache: &FeeCache) -> (n: usize)
    ensures
        n == cache@.len(),
{
    cache.len()
}

/// For every price in [0.0, 1.0] the fee lies between 0.1% and 3%, and a
/// price and its complement `1 - p` pay the same fee.
pub proof fn lemma_fee_bounded_and_symmetric(p: int)
    requires
        in_range(p),
    ensures
        FEE_FLOOR <= fee_of(p) <= FEE_PEAK,
        fee_of(p) == fee_of(PRICE_ONE - p),
{
}

/// Asking twice for the fee of the same price gives the same fee, and the
/// second request leaves the memo, and so its size, as the first left it.
pub proof fn lemma_repeated_lookup_is_stable(m: Map<u64, u64>, p: u64)
    requires
        memo_wf(m),
        p <= PRICE_ONE,
    ensures
        ({
            let first = m.insert(p, fee_of(p as int) as u64);
            &&& memo_wf(first)
            &&& first.insert(p, fee_of(p as int) as u64) == first
            &&& first.insert(p, fee_of(p as int) as u64).len() == first.len()
        }),
{
    let first = m.insert(p, fee_of(p as int) as u64);
    assert(first.insert(p, fee_of(p as int) as u64) =~= first);
}

/// A memo that was just cleared holds no entry.
pub proof fn lemma_cleared_memo_is_empty()
    ensures
        Map::<u64, u64>::empty().len() == 0,
        memo_wf(Map::<u64, u64>::empty()),
{
}

/// What a well-formed memo returns for a price equals a fresh computation of
/// the formula, so the memo never changes a fee.
pub proof fn lemma_memo_agrees_with_formula(m: Map<u64, u64>, p: u64)
    requires
        memo_wf(m),
        m.contains_key(p),
    ensures
        m[p] == fee_of(p as int),
{
}

} // verus!
