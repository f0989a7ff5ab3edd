//! Instant-unstake evaluator: decides from live metrics whether a validator
//! must lose its stake now, without waiting for the next scoring cycle.
use vstd::prelude::*;

verus! {

/// The most recent live metrics of one validator.
#[derive(Clone, Copy, PartialEq, Eq, Structural, Debug)]
pub struct LiveMetrics {
    /// Delinquent in the current epoch.
    pub delinquent: bool,
    /// Commission (percent) charged now.
    pub commission: u8,
    /// Commission (percent) charged in the previous epoch.
    pub previous_commission: u8,
    /// A pool-specific risk flag raised against the validator.
    pub risk_flagged: bool,
}

/// A validator must be unstaked at once when it is delinquent, raised its
/// commission, charges above the ceiling, carries a risk flag or is
/// blacklisted.
pub open spec fn must_unstake(m: LiveMetrics, blacklisted: bool, commission_max: u8) -> bool {
    m.delinquent || m.commission > m.previous_commission || m.commission > commission_max
        || m.risk_flagged || blacklisted
}

/// Evaluates the live metrics of one validator, its blacklist membership and
/// the commission ceiling.
pub fn evaluate_instant_unstake(m: &LiveMetrics, blacklisted: bool, commission_max: u8) -> (r: bool)
    ensures
        r == must_unstake(*m, blacklisted, commission_max),
{
    m.delinquent || m.commission > m.previous_commission || m.commission > commission_max
        || m.risk_flagged || blacklisted
}

} // verus!
