//! The spread factors of a shuffle.

use vstd::prelude::*;
use crate::types::UseCaseKey;

verus! {

/// The three spread factors of a shuffle.
///
/// After a transaction is emitted at slot `k`, its sender is held back until
/// slot `k + 1 + sender_spread_factor`, and its use case until slot `k + 1`
/// plus the spread factor of that use case.
#[derive(Clone, Copy, Debug, PartialEq, Eq, Structural)]
pub struct Config {
    pub sender_spread_factor: usize,
    pub platform_use_case_spread_factor: usize,
    pub user_use_case_spread_factor: usize,
}

impl Config {
    pub fn new(
        sender_spread_factor: usize,
        platform_use_case_spread_factor: usize,
        user_use_case_spread_factor: usize,
    ) -> (config: Self)
        ensures
            config == (Config {
                sender_spread_factor,
                platform_use_case_spread_factor,
                user_use_case_spread_factor,
            }),
    {
        Config {
            sender_spread_factor,
            platform_use_case_spread_factor,
            user_use_case_spread_factor,
        }
    }

    /// The spread factor that applies to `use_case_key`.
    pub open spec fn spread_of(&self, use_case_key: UseCaseKey) -> int {
        match use_case_key {
            UseCaseKey::Platform => self.platform_use_case_spread_factor as int,
            UseCaseKey::Other(_) => self.user_use_case_spread_factor as int,
        }
    }

    /// The largest of the three spread factors.
    pub open spec fn max_spread_factor(&self) -> int {
        let s = self.sender_spread_factor as int;
        let p = self.platform_use_case_spread_factor as int;
        let u = self.user_use_case_spread_factor as int;
        if s >= p && s >= u {
            s
        } else if p >= u {
            p
        } else {
            u
        }
    }

    pub fn sender_spread_factor(&self) -> (factor: usize)
        ensures
            factor == self.sender_spread_factor,
    {
        self.sender_spread_factor
    }

    pub fn use_case_spread_factor(&self, use_case_key: &UseCaseKey) -> (factor: usize)
        ensures
            factor == self.spread_of(*use_case_key),
            factor <= self.max_spread_factor(),
    {
        match use_case_key {
            UseCaseKey::Platform => self.platform_use_case_spread_factor,
            _ => self.user_use_case_spread_factor,
        }
    }
}

impl Default for Config {
    /// No spreading at all.
    fn default() -> (config: Self)
        ensures
            config == (Config {
                sender_spread_factor: 0,
                platform_use_case_spread_factor: 0,
                user_use_case_spread_factor: 0,
            }),
    {
        Config {
            sender_spread_factor: 0,
            platform_use_case_spread_factor: 0,
            user_use_case_spread_factor: 0,
        }
    }
}

} // verus!
