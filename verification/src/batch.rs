//! Many options at once: one result for each contract, in order.
use crate::bates::{bates_price, bates_price_and_greeks, bates_price_spec};
use crate::bsm::{bsm_price, bsm_price_and_greeks, bsm_price_and_greeks_spec, bsm_price_spec};
use crate::greeks::bump_and_reprice_greeks_spec;
use crate::heston::{heston_price, heston_price_and_greeks, heston_price_spec};
use crate::iv::{implied_vol, implied_vol_spec};
use crate::number::{lawful, Elementary, Number};
use crate::types::{BatesParams, HestonParams, IvProblem, OptionContract, PricingResult};
use vstd::prelude::*;

verus! {

/// The Black-Scholes-Merton price and sensitivities of each contract.
pub fn batch_bsm<T: Number, M: Elementary<T>>(
    m: M,
    contracts: &Vec<OptionContract<T>>,
) -> (res: Vec<PricingResult<T>>)
    requires
        lawful::<T, M>(m),
    ensures
        res@.len() == contracts@.len(),
        forall|i: int|
            0 <= i < contracts@.len()
                ==> (#[trigger] res@[i]) == bsm_price_and_greeks_spec(m, contracts@[i]),
{
    let mut out: Vec<PricingResult<T>> = Vec::new();
    while out.len() < contracts.len()
        invariant
            lawful::<T, M>(m),
            out@.len() <= contracts@.len(),
            forall|i: int|
                0 <= i < out@.len()
                    ==> (#[trigger] out@[i]) == bsm_price_and_greeks_spec(m, contracts@[i]),
        decreases contracts@.len() - out@.len(),
    {
        let c = &contracts[out.len()];
        let x = bsm_price_and_greeks(m, c);
        out.push(x);
    }
    out
}

/// The Black-Scholes-Merton price of each contract.
pub fn batch_bsm_price<T: Number, M: Elementary<T>>(
    m: M,
    contracts: &Vec<OptionContract<T>>,
) -> (res: Vec<T>)
    requires
        lawful::<T, M>(m),
    ensures
        res@.len() == contracts@.len(),
        forall|i: int|
            0 <= i < contracts@.len() ==> (#[trigger] res@[i]) == bsm_price_spec(m, contracts@[i]),
{
    let mut out: Vec<T> = Vec::new();
    while out.len() < contracts.len()
        invariant
            lawful::<T, M>(m),
            out@.len() <= contracts@.len(),
            forall|i: int|
                0 <= i < out@.len() ==> (#[trigger] out@[i]) == bsm_price_spec(m, contracts@[i]),
        decreases contracts@.len() - out@.len(),
    {
        let c = &contracts[out.len()];
        let x = bsm_price(m, c);
        out.push(x);
    }
    out
}

/// The price of each contract in Heston's model.
pub fn batch_heston<T: Number, M: Elementary<T>>(
    m: M,
    contracts: &Vec<OptionContract<T>>,
    params: &HestonParams<T>,
) -> (res: Vec<T>)
    requires
        lawful::<T, M>(m),
    ensures
        res@.len() == contracts@.len(),
        forall|i: int|
            0 <= i < contracts@.len()
                ==> (#[trigger] res@[i])
                    == heston_price_spec(
                        m,
                        contracts@[i].spot,
                        contracts@[i].strike,
                        contracts@[i].expiry,
                        contracts@[i].rate,
                        contracts@[i].div_yield,
                        *params,
                        contracts@[i].opt_type,
                    ),
{
    let mut out: Vec<T> = Vec::new();
    while out.len() < contracts.len()
        invariant
            lawful::<T, M>(m),
            out@.len() <= contracts@.len(),
            forall|i: int|
                0 <= i < out@.len()
                    ==> (#[trigger] out@[i])
                        == heston_price_spec(
                            m,
                            contracts@[i].spot,
                            contracts@[i].strike,
                            contracts@[i].expiry,
                            contracts@[i].rate,
                            contracts@[i].div_yield,
                            *params,
                            contracts@[i].opt_type,
                        ),
        decreases contracts@.len() - out@.len(),
    {
        let c = &contracts[out.len()];
        let x = heston_price(
            m,
            c.spot,
            c.strike,
            c.expiry,
            c.rate,
            c.div_yield,
            params,
            c.opt_type,
        );
        out.push(x);
    }
    out
}

/// The price and sensitivities of each contract in Heston's model.
pub fn batch_heston_greeks<T: Number, M: Elementary<T>>(
    m: M,
    contracts: &Vec<OptionContract<T>>,
    params: &HestonParams<T>,
) -> (res: Vec<PricingResult<T>>)
    requires
        lawful::<T, M>(m),
    ensures
        res@.len() == contracts@.len(),
        forall|i: int|
            0 <= i < contracts@.len()
                ==> (#[trigger] res@[i])
                    == bump_and_reprice_greeks_spec(
                        m,
                        contracts@[i].spot,
                        contracts@[i].strike,
                        contracts@[i].expiry,
                        contracts@[i].rate,
                        contracts@[i].div_yield,
                        *params,
                        contracts@[i].opt_type,
                    ),
{
    let mut out: Vec<PricingResult<T>> = Vec::new();
    while out.len() < contracts.len()
        invariant
            lawful::<T, M>(m),
            out@.len() <= contracts@.len(),
            forall|i: int|
                0 <= i < out@.len()
                    ==> (#[trigger] out@[i])
                        == bump_and_reprice_greeks_spec(
                            m,
                            contracts@[i].spot,
                            contracts@[i].strike,
                            contracts@[i].expiry,
                            contracts@[i].rate,
                            contracts@[i].div_yield,
                            *params,
                            contracts@[i].opt_type,
                        ),
        decreases contracts@.len() - out@.len(),
    {
        let c = &contracts[out.len()];
        let x = heston_price_and_greeks(
            m,
            c.spot,
            c.strike,
            c.expiry,
            c.rate,
            c.div_yield,
            params,
            c.opt_type,
        );
        out.push(x);
    }
    out
}

/// The price of each contract in Bates's model.
pub fn batch_bates<T: Number, M: Elementary<T>>(
    m: M,
    contracts: &Vec<OptionContract<T>>,
    params: &BatesParams<T>,
) -> (res: Vec<T>)
    requires
        lawful::<T, M>(m),
    ensures
        res@.len() == contracts@.len(),
        forall|i: int|
            0 <= i < contracts@.len()
                ==> (#[trigger] res@[i])
                    == bates_price_spec(
                        m,
                        contracts@[i].spot,
                        contracts@[i].strike,
                        contracts@[i].expiry,
                        contracts@[i].rate,
                        contracts@[i].div_yield,
                        *params,
                        contracts@[i].opt_type,
                    ),
{
    let mut out: Vec<T> = Vec::new();
    while out.len() < contracts.len()
        invariant
            lawful::<T, M>(m),
            out@.len() <= contracts@.len(),
            forall|i: int|
                0 <= i < out@.len()
                    ==> (#[trigger] out@[i])
                        == bates_price_spec(
                            m,
                            contracts@[i].spot,
                            contracts@[i].strike,
                            contracts@[i].expiry,
                            contracts@[i].rate,
                            contracts@[i].div_yield,
                            *params,
                            contracts@[i].opt_type,
                        ),
        decreases contracts@.len() - out@.len(),
    {
        let c = &contracts[out.len()];
        let x = bates_price(m, c.spot, c.strike, c.expiry, c.rate, c.div_yield, params, c.opt_type);
        out.push(x);
    }
    out
}

/// The price and sensitivities of each contract in Bates's model.
pub fn batch_bates_greeks<T: Number, M: Elementary<T>>(
    m: M,
    contracts: &Vec<OptionContract<T>>,
    params: &BatesParams<T>,
) -> (res: Vec<PricingResult<T>>)
    requires
        lawful::<T, M>(m),
    ensures
        res@.len() == contracts@.len(),
        forall|i: int|
            0 <= i < contracts@.len()
                ==> (#[trigger] res@[i])
                    == bump_and_reprice_greeks_spec(
                        m,
                        contracts@[i].spot,
                        contracts@[i].strike,
                        contracts@[i].expiry,
                        contracts@[i].rate,
                        contracts@[i].div_yield,
                        *params,
                        contracts@[i].opt_type,
                    ),
{
    let mut out: Vec<PricingResult<T>> = Vec::new();
    while out.len() < contracts.len()
        invariant
            lawful::<T, M>(m),
            out@.len() <= contracts@.len(),
            forall|i: int|
                0 <= i < out@.len()
                    ==> (#[trigger] out@[i])
                        == bump_and_reprice_greeks_spec(
                            m,
                            contracts@[i].spot,
                            contracts@[i].strike,
                            contracts@[i].expiry,
                            contracts@[i].rate,
                            contracts@[i].div_yield,
                            *params,
                            contracts@[i].opt_type,
                        ),
        decreases contracts@.len() - out@.len(),
    {
        let c = &contracts[out.len()];
        let x = bates_price_and_greeks(
            m,
            c.spot,
            c.strike,
            c.expiry,
            c.rate,
            c.div_yield,
            params,
            c.opt_type,
        );
        out.push(x);
    }
    out
}

/// The implied volatility of each contract at its price.
pub fn batch_implied_vol<T: Number, M: Elementary<T>>(
    m: M,
    contracts: &Vec<OptionContract<T>>,
    market_prices: &Vec<T>,
) -> (res: Vec<Option<T>>)
    requires
        lawful::<T, M>(m),
        contracts@.len() == market_prices@.len(),
    ensures
        res@.len() == contracts@.len(),
        forall|i: int|
            0 <= i < contracts@.len()
                ==> (#[trigger] res@[i])
                    == implied_vol_spec(
                        m,
                        IvProblem { contract: contracts@[i], market_price: market_prices@[i] },
                    ),
{
    let mut out: Vec<Option<T>> = Vec::new();
    while out.len() < contracts.len()
        invariant
            lawful::<T, M>(m),
            contracts@.len() == market_prices@.len(),
            out@.len() <= contracts@.len(),
            forall|i: int|
                0 <= i < out@.len()
                    ==> (#[trigger] out@[i])
                        == implied_vol_spec(
                            m,
                            IvProblem { contract: contracts@[i], market_price: market_prices@[i] },
                        ),
        decreases contracts@.len() - out@.len(),
    {
        let c = &contracts[out.len()];
        let x = implied_vol(m, &IvProblem { contract: *c, market_price: market_prices[out.len()] });
        out.push(x);
    }
    out
}

} // verus!
