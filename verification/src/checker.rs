//! Spam-check admission: the verdict combinator of the parallel check, and
//! the two stock checkers.
//!
//! The two predicates of a checker run concurrently in the surrounding
//! runtime; each either answers within the decision window or stalls past
//! it. An answer is therefore an `Option<bool>`: `Some(verdict)` for a
//! prompt answer, `None` for one that never arrived because the other
//! predicate already settled the decision.

use vstd::prelude::*;

verus! {

/// An IP address, held as its 128 bits (a version-4 address occupies the
/// low 32).
#[derive(Clone, Copy, Debug, PartialEq, Eq, Hash, Structural)]
pub struct IpAddress {
    pub bits: u128,
}

impl IpAddress {
    /// Builds the address holding exactly the given bits.
    pub fn new(bits: u128) -> (r: IpAddress)
        ensures
            r.bits == bits,
    {
        IpAddress { bits }
    }
}

/// The admission verdict of the parallel spam check, given what each
/// predicate answered within the decision window: reject as soon as either
/// answers true — even while the other still runs — admit only once both
/// have answered false, and stay undecided otherwise.
pub open spec fn spec_spam_decision(ip: Option<bool>, user: Option<bool>) -> Option<bool> {
    if ip == Some(true) || user == Some(true) {
        Some(true)
    } else if ip == Some(false) && user == Some(false) {
        Some(false)
    } else {
        None
    }
}

/// Combines the two predicate answers into the admission verdict.
pub fn spam_decision(ip: Option<bool>, user: Option<bool>) -> (r: Option<bool>)
    ensures
        r == spec_spam_decision(ip, user),
{
    if ip == Some(true) || user == Some(true) {
        Some(true)
    } else if ip == Some(false) && user == Some(false) {
        Some(false)
    } else {
        None
    }
}

/// A checker that admits everyone: both predicates answer false at once.
#[derive(Clone, Copy, Default)]
pub struct DefaultChecker {}

impl DefaultChecker {
    /// Never reports a name as a spammer.
    pub fn is_user_spammer(&self, _name: &str) -> (r: Option<bool>)
        ensures
            r == Some(false),
    {
        Some(false)
    }

    /// Never reports an address as a spammer.
    pub fn is_ip_spammer(&self, _addr: &IpAddress) -> (r: Option<bool>)
        ensures
            r == Some(false),
    {
        Some(false)
    }
}

/// Behaviour of a [`TestChecker`].
#[derive(Clone, Copy, Debug, PartialEq, Eq, Structural)]
pub enum CheckerMode {
    /// Both predicates answer false at once.
    Standard,
    /// Each predicate answers the configured verdict at once.
    Fixed { ip: bool, user: bool },
    /// The user predicate answers true at once; the IP predicate stalls.
    DelayIp,
    /// The IP predicate answers true at once; the user predicate stalls.
    DelayUser,
}

/// What the user predicate answers under the given mode.
pub open spec fn spec_user_answer(m: CheckerMode) -> Option<bool> {
    match m {
        CheckerMode::Standard => Some(false),
        CheckerMode::Fixed { ip: _, user } => Some(user),
        CheckerMode::DelayIp => Some(true),
        CheckerMode::DelayUser => None,
    }
}

/// What the IP predicate answers under the given mode.
pub open spec fn spec_ip_answer(m: CheckerMode) -> Option<bool> {
    match m {
        CheckerMode::Standard => Some(false),
        CheckerMode::Fixed { ip, user: _ } => Some(ip),
        CheckerMode::DelayUser => Some(true),
        CheckerMode::DelayIp => None,
    }
}

/// A checker with scripted answers, for exercising the admission paths.
pub struct TestChecker {
    pub mode: CheckerMode,
}

impl TestChecker {
    /// A checker that behaves as the given mode says.
    pub fn new(mode: CheckerMode) -> (r: TestChecker)
        ensures
            r.mode == mode,
    {
        TestChecker { mode }
    }

    /// The user predicate's answer, or `None` where it stalls.
    pub fn is_user_spammer(&self, _name: &str) -> (r: Option<bool>)
        ensures
            r == spec_user_answer(self.mode),
    {
        match self.mode {
            CheckerMode::Standard => Some(false),
            CheckerMode::Fixed { ip: _, user } => Some(user),
            CheckerMode::DelayIp => Some(true),
            CheckerMode::DelayUser => None,
        }
    }

    /// The IP predicate's answer, or `None` where it stalls.
    pub fn is_ip_spammer(&self, _addr: &IpAddress) -> (r: Option<bool>)
        ensures
            r == spec_ip_answer(self.mode),
    {
        match self.mode {
            CheckerMode::Standard => Some(false),
            CheckerMode::Fixed { ip, user: _ } => Some(ip),
            CheckerMode::DelayUser => Some(true),
            CheckerMode::DelayIp => None,
        }
    }
}

impl Default for TestChecker {
    /// The checker that admits everyone.
    fn default() -> (r: TestChecker)
        ensures
            r.mode == CheckerMode::Standard,
    {
        TestChecker { mode: CheckerMode::Standard }
    }
}

} // verus!
