//! Shared plain types: the network tag and the text-form field state.

use vstd::prelude::*;

verus! {

/// The network a wallet is configured for. Only whether the network is the
/// main one matters to the logic here: addresses and descriptors for any of
/// the test networks are interchangeable with one another but not with the
/// main network.
#[derive(Clone, Copy, Debug, PartialEq, Eq, Structural)]
pub enum Network {
    Bitcoin,
    Testnet,
    Signet,
    Regtest,
}

impl Network {
    /// Whether descriptors and addresses of `self` are accepted by a wallet
    /// configured for `other`: equal networks always, and any two test
    /// networks among each other.
    pub open spec fn spec_compatible_with(self, other: Network) -> bool {
        (self == Network::Bitcoin) == (other == Network::Bitcoin)
    }

    pub fn compatible_with(self, other: Network) -> (r: bool)
        ensures
            r == self.spec_compatible_with(other),
    {
        (self == Network::Bitcoin) == (other == Network::Bitcoin)
    }
}

/// State of one text field of a form: the text as typed, whether the last
/// validation accepted it, and an optional inline warning.
#[derive(Clone, Debug)]
pub struct FormValue {
    pub value: String,
    pub valid: bool,
    pub warning: Option<String>,
}

impl FormValue {
    /// An empty field, marked valid: a field shows no error before it is
    /// first filled in.
    pub fn new() -> (r: FormValue)
        ensures
            r.value@ == Seq::<char>::empty(),
            r.valid,
            r.warning is None,
    {
        FormValue { value: String::new(), valid: true, warning: None }
    }
}

} // verus!
