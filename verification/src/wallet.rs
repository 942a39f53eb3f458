//! Non-custodial wallet boundary: private key material never crosses into
//! a server-side service.
use vstd::prelude::*;

verus! {

/// How a wallet holds its keys; only non-custodial wallets exist.
#[derive(Debug, Clone, Copy, PartialEq, Eq)]
pub enum WalletMode {
    NonCustodial,
}

} // verus!
