//! The settings of a deployment: how the currency is shown, what a new
//! account holds, and what every account is paid at a time.

use vstd::prelude::*;

verus! {

/// The settings as they are read, before they are put to use.
#[derive(Debug, Clone, PartialEq, Eq)]
pub struct PartialConfig {
    pub currency: String,
    pub starting_coins: u32,
    pub income: u32,
}

/// The settings in use.
#[derive(Debug, Clone, PartialEq, Eq)]
pub struct Config {
    pub currency: String,
    pub starting_coins: u32,
    pub income: u32,
}

impl Default for PartialConfig {
    fn default() -> (settings: PartialConfig)
        ensures
            settings.currency@ == "💵"@,
            settings.starting_coins == 100,
            settings.income == 5,
    {
        PartialConfig { currency: "💵".to_owned(), starting_coins: 100, income: 5 }
    }
}

impl Config {
    /// The settings in use that `part_cfg` stands for.
    pub fn from(part_cfg: PartialConfig) -> (settings: Config)
        ensures
            settings.currency == part_cfg.currency,
            settings.starting_coins == part_cfg.starting_coins,
            settings.income == part_cfg.income,
    {
        Config {
            currency: part_cfg.currency,
            starting_coins: part_cfg.starting_coins,
            income: part_cfg.income,
        }
    }
}

} // verus!
