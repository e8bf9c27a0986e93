//! Paying for uploads with SOL.

use crate::base64::Base64;
use vstd::prelude::*;

verus! {

/// What the service that signs for SOL answers.
#[derive(Debug, PartialEq, Eq)]
pub struct SigResponse {
    pub ar_tx_sig: Base64,
    pub ar_tx_id: Base64,
    pub ar_tx_owner: Base64,
}

/// What a [`SigResponse`] holds.
#[verifier::ext_equal]
pub struct SignatureFields {
    pub ar_tx_sig: Seq<u8>,
    pub ar_tx_id: Seq<u8>,
    pub ar_tx_owner: Seq<u8>,
}

impl View for SigResponse {
    type V = SignatureFields;

    open spec fn view(&self) -> SignatureFields {
        SignatureFields {
            ar_tx_sig: self.ar_tx_sig@,
            ar_tx_id: self.ar_tx_id@,
            ar_tx_owner: self.ar_tx_owner@,
        }
    }
}

impl Clone for SigResponse {
    fn clone(&self) -> (copy: Self)
        ensures
            copy@ == self@,
    {
        SigResponse {
            ar_tx_sig: self.ar_tx_sig.clone(),
            ar_tx_id: self.ar_tx_id.clone(),
            ar_tx_owner: self.ar_tx_owner.clone(),
        }
    }
}

/// The terms on which winstons are paid for with lamports: how many winstons a lamport buys, and
/// the least that is asked for.
#[derive(Debug, Clone, Copy, PartialEq, Eq, Structural)]
pub struct SolTerms {
    pub rate: u64,
    pub floor: u64,
}

/// How many lamports a reward costs.
pub open spec fn lamports_for(reward: u64, terms: SolTerms) -> nat {
    let share = reward as nat / terms.rate as nat;
    if share < terms.floor {
        terms.floor as nat
    } else {
        share
    }
}

/// How many lamports a reward costs.
pub fn lamports(reward: u64, terms: SolTerms) -> (cost: u64)
    requires
        terms.rate != 0,
    ensures
        cost == lamports_for(reward, terms),
        cost >= terms.floor,
        cost >= reward / terms.rate,
        cost == terms.floor || cost == reward / terms.rate,
{
    let share: u64 = reward / terms.rate;
    if share < terms.floor {
        terms.floor
    } else {
        share
    }
}

/// What is asked for is the greater of the reward at the rate and the floor: it is no less than
/// either, and it is one of them. The reward at the rate is what the rate goes into the reward.
pub proof fn lamports_are_the_greater_of_price_and_floor(reward: u64, terms: SolTerms)
    requires
        terms.rate > 0,
    ensures
        lamports_for(reward, terms) >= terms.floor,
        lamports_for(reward, terms) >= reward as nat / terms.rate as nat,
        lamports_for(reward, terms) == terms.floor || lamports_for(reward, terms) == reward as nat
            / terms.rate as nat,
        (lamports_for(reward, terms) + 1) * terms.rate > reward,
{
    let (r, d) = (reward as int, terms.rate as int);
    vstd::arithmetic::div_mod::lemma_fundamental_div_mod(r, d);
    assert((r / d + 1) * d > r) by (nonlinear_arith)
        requires
            r == d * (r / d) + r % d,
            r % d < d,
    ;
    let cost = lamports_for(reward, terms) as int;
    assert((cost + 1) * d >= (r / d + 1) * d) by (nonlinear_arith)
        requires
            cost >= r / d,
            d > 0,
    ;
}

/// Every field of an answer counts.
pub proof fn every_field_of_an_answer_counts(response: SigResponse)
    ensures
        response@.ar_tx_sig == response.ar_tx_sig.0@,
        response@.ar_tx_id == response.ar_tx_id.0@,
        response@.ar_tx_owner == response.ar_tx_owner.0@,
{
}

} // verus!
