//! The chain that a deployment watches.
use vstd::prelude::*;

verus! {

#[derive(Clone, Copy, Debug, PartialEq, Eq, Structural)]
pub enum Network {
    Mainnet,
    Goerli,
}

/// The network's name, as used in table names and URLs.
pub open spec fn network_name(n: Network) -> Seq<char> {
    match n {
        Network::Mainnet => seq!['m', 'a', 'i', 'n', 'n', 'e', 't'],
        Network::Goerli => seq!['g', 'o', 'e', 'r', 'l', 'i'],
    }
}

impl Network {
    /// The network's name: `mainnet` or `goerli`.
    pub fn to_string(&self) -> (r: String)
        ensures
            r@ == network_name(*self),
    {
        match self {
            Network::Mainnet => {
                proof { reveal_strlit("mainnet"); }
                "mainnet".to_owned()
            },
            Network::Goerli => {
                proof { reveal_strlit("goerli"); }
                "goerli".to_owned()
            },
        }
    }
}

} // verus!
