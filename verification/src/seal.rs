//! Seals that close a contract's state, and their concealed form.

use vstd::prelude::*;
use bp::seals::txout::{BlindSeal, TxPtr};
use commit_verify::Conceal;

verus! {

/// How a seal is to be closed in the witness transaction.
#[derive(Clone, Copy, Debug, PartialEq, Eq, PartialOrd, Ord, Hash)]
pub enum CloseMethod {
    OpretFirst,
    TapretFirst,
}

impl CloseMethod {
    /// The byte that stands for the method in serialized data.
    pub open spec fn tag(self) -> u8 {
        match self {
            CloseMethod::OpretFirst => 0u8,
            CloseMethod::TapretFirst => 1u8,
        }
    }
}

/// A value that belongs to one of the supported layer-one chains.
#[derive(Clone, Copy, Debug, PartialEq, Eq, PartialOrd, Ord, Hash)]
pub enum XChain<T> {
    Bitcoin(T),
    Liquid(T),
}

impl<T> XChain<T> {
    /// The byte that stands for the chain in serialized data.
    pub open spec fn chain_tag(self) -> u8 {
        match self {
            XChain::Bitcoin(_) => 0u8,
            XChain::Liquid(_) => 1u8,
        }
    }

    /// The value, whatever the chain.
    pub open spec fn inner(self) -> T {
        match self {
            XChain::Bitcoin(t) => t,
            XChain::Liquid(t) => t,
        }
    }
}

/// A concealed seal: the commitment to a seal definition.
pub type SecretSeal = [u8; 32];

/// A seal on an output of the witness transaction that is still to come.
#[derive(Clone, Copy, Debug, PartialEq, Eq, PartialOrd, Ord, Hash)]
pub struct VoutSeal {
    pub method: CloseMethod,
    pub vout: u32,
    pub blinding: u64,
}

/// A seal that ends a transfer: either known only by its commitment, or an
/// output of the witness transaction.
#[derive(Clone, Copy, Debug, PartialEq, Eq, PartialOrd, Ord, Hash)]
pub enum TerminalSeal {
    ConcealedUtxo(SecretSeal),
    WitnessVout(VoutSeal),
}

/// The commitment to a seal on output `vout` of the witness transaction,
/// closed by the method with tag `method` and blinded with `blinding`.
pub uninterp spec fn vout_seal_commitment(method: u8, vout: u32, blinding: u64) -> Seq<u8>;

/// Calls `commit_verify::Conceal::conceal` on the `bp` blind seal that
/// points to the witness transaction. Trusted: the result depends on the
/// method, the output number and the blinding factor alone.
#[verifier::external_body]
fn conceal_vout_seal(method: CloseMethod, vout: u32, blinding: u64) -> (r: SecretSeal)
    ensures
        r@ == vout_seal_commitment(method.tag(), vout, blinding),
{
    let method = match method {
        CloseMethod::OpretFirst => bp::dbc::Method::OpretFirst,
        CloseMethod::TapretFirst => bp::dbc::Method::TapretFirst,
    };
    BlindSeal::<TxPtr>::with_blinded_vout(method, vout, blinding).conceal().to_byte_array()
}

impl TerminalSeal {
    /// The concealed form: a commitment that is already concealed stands for
    /// itself, a revealed seal is replaced by its commitment.
    pub open spec fn concealed(self) -> Seq<u8> {
        match self {
            TerminalSeal::ConcealedUtxo(secret) => secret@,
            TerminalSeal::WitnessVout(seal) => vout_seal_commitment(
                seal.method.tag(),
                seal.vout,
                seal.blinding,
            ),
        }
    }

    /// Conceals the seal.
    pub fn conceal(&self) -> (r: SecretSeal)
        ensures
            r@ == self.concealed(),
    {
        match self {
            TerminalSeal::ConcealedUtxo(secret) => *secret,
            TerminalSeal::WitnessVout(seal) => conceal_vout_seal(
                seal.method,
                seal.vout,
                seal.blinding,
            ),
        }
    }
}

impl XChain<TerminalSeal> {
    /// Conceals the seal and keeps its chain.
    pub fn conceal(&self) -> (r: XChain<SecretSeal>)
        ensures
            r.chain_tag() == self.chain_tag(),
            r.inner()@ == self.inner().concealed(),
    {
        match self {
            XChain::Bitcoin(seal) => XChain::Bitcoin(seal.conceal()),
            XChain::Liquid(seal) => XChain::Liquid(seal.conceal()),
        }
    }
}

} // verus!
