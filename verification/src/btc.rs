//! Calls into the bitcoin crate, each behind a contract: address parsing
//! and amount parsing. What they return is a function of the text alone,
//! so each result carries a name the callers' contracts build on.

use vstd::prelude::*;
use crate::types::Network;

verus! {

/// What the logic reads of a parsed address: its output script and the
/// minimum economically spendable value for that script.
#[derive(Clone, Debug)]
pub struct ScriptInfo {
    pub script: Vec<u8>,
    pub dust: u64,
}

/// The outcome of parsing an address for a network: the script and dust
/// value when the text is a valid address of that network, nothing
/// otherwise. Parsing depends on the text and network alone.
pub uninterp spec fn address_script_info(s: Seq<char>, net: Network) -> Option<ScriptInfo>;

/// Relies on bitcoin's `Address::from_str`, `Address::require_network`,
/// `Address::script_pubkey` and `Script::minimal_non_dust`: each is a pure
/// function of the address text and the required network, so the combined
/// outcome is named by [`address_script_info`].
#[verifier::external_body]
pub fn parse_address(s: &str, net: Network) -> (r: Option<ScriptInfo>)
    ensures
        r == address_script_info(s@, net),
{
    let n = match net {
        Network::Bitcoin => bitcoin::Network::Bitcoin,
        Network::Testnet => bitcoin::Network::Testnet,
        Network::Signet => bitcoin::Network::Signet,
        Network::Regtest => bitcoin::Network::Regtest,
    };
    let unchecked: bitcoin::Address<bitcoin::address::NetworkUnchecked> = s.parse().ok()?;
    let addr = unchecked.require_network(n).ok()?;
    let spk = addr.script_pubkey();
    Some(ScriptInfo { dust: spk.minimal_non_dust().to_sat(), script: spk.into_bytes() })
}

/// The satoshi value a text denominated in whole bitcoin stands for, if it
/// parses. Parsing depends on the text alone.
pub uninterp spec fn btc_amount_sats(s: Seq<char>) -> Option<u64>;

/// Relies on bitcoin's `Amount::from_str_in` with the bitcoin
/// denomination: a pure function of the text, named by
/// [`btc_amount_sats`].
#[verifier::external_body]
pub fn parse_btc_amount(s: &str) -> (r: Option<u64>)
    ensures
        r == btc_amount_sats(s@),
{
    bitcoin::Amount::from_str_in(s, bitcoin::Denomination::Bitcoin).ok().map(|a| a.to_sat())
}

} // verus!
