//! What a consignment holds, as far as its identifier and its index read it.

use vstd::prelude::*;
use crate::seal::{TerminalSeal, XChain};

verus! {

/// Identifier of an operation.
pub type OpId = [u8; 32];

/// Identifier of a contract.
pub type ContractId = [u8; 32];

/// Identifier of a bundle of state transitions.
pub type BundleId = [u8; 32];

/// Identifier of a schema.
pub type SchemaId = [u8; 32];

/// Identifier of an interface.
pub type IfaceId = [u8; 32];

/// Identifier of an interface implementation.
pub type ImplId = [u8; 32];

/// Identifier of an attachment.
pub type AttachId = [u8; 32];

/// Digest of an operation or bundle that leaves out what is confidential.
pub type DiscloseHash = [u8; 32];

/// Tag of an asset in confidential amounts.
pub type AssetTag = [u8; 32];

/// Identifier of a transaction.
pub type Txid = [u8; 32];

/// Identifier of the transaction that anchors a bundle.
pub type WitnessId = XChain<Txid>;

/// Kind of an owned state.
pub type AssignmentType = u16;

/// Whether two identifiers hold the same bytes.
pub fn same_id(a: &[u8; 32], b: &[u8; 32]) -> (r: bool)
    ensures
        r == (a@ == b@),
{
    let mut i: usize = 0;
    while i < 32
        invariant
            i <= 32,
            forall|j: int| 0 <= j < i ==> a@[j] == b@[j],
        decreases 32 - i,
    {
        if a[i] != b[i] {
            return false;
        }
        i = i + 1;
    }
    assert(a@ =~= b@);
    true
}

/// Version of the container format.
#[derive(Clone, Copy, Debug, PartialEq, Eq)]
pub enum ContainerVer {
    V2,
}

impl ContainerVer {
    /// The byte that stands for the version in serialized data.
    pub open spec fn tag(self) -> u8 {
        2u8
    }

    /// The byte that stands for the version in serialized data.
    pub fn to_byte(&self) -> (b: u8)
        ensures
            b == self.tag(),
    {
        2
    }
}

/// The schema under which a contract was issued.
#[derive(Clone, Copy, Debug, PartialEq, Eq)]
pub struct Schema {
    pub id: SchemaId,
}

/// The operation that issues a contract.
#[derive(Clone, Copy, Debug, PartialEq, Eq)]
pub struct Genesis {
    pub id: OpId,
    pub disclose_hash: DiscloseHash,
}

impl Genesis {
    /// The identifier of the contract: the bytes of the genesis identifier.
    pub fn contract_id(&self) -> (id: ContractId)
        ensures
            id@ == self.id@,
    {
        self.id
    }
}

/// A state transition.
#[derive(Clone, Copy, Debug, PartialEq, Eq)]
pub struct Transition {
    pub id: OpId,
}

/// A state extension.
#[derive(Clone, Copy, Debug, PartialEq, Eq)]
pub struct Extension {
    pub id: OpId,
    pub disclose_hash: DiscloseHash,
}

/// The transitions that one witness transaction commits to.
#[derive(Clone, Debug, PartialEq, Eq)]
pub struct TransitionBundle {
    pub id: BundleId,
    pub disclose_hash: DiscloseHash,
    pub known_transitions: Vec<Transition>,
}

/// A bundle together with the witness that anchors it.
#[derive(Clone, Debug, PartialEq, Eq)]
pub struct AnchoredBundle {
    pub witness_id: WitnessId,
    pub bundle: TransitionBundle,
}

/// The seals at which a transfer ends within one bundle.
#[derive(Clone, Debug, PartialEq, Eq)]
pub struct Terminal {
    pub bundle_id: BundleId,
    pub seals: Vec<XChain<TerminalSeal>>,
}

/// An interface with the implementation that the contract has for it.
#[derive(Clone, Copy, Debug, PartialEq, Eq)]
pub struct IfacePair {
    pub iface_id: IfaceId,
    pub impl_id: ImplId,
}

/// A file attached to the contract.
#[derive(Clone, Debug, PartialEq, Eq)]
pub struct Attachment {
    pub id: AttachId,
    pub data: Vec<u8>,
}

/// Additional data on the contract, in serialized form.
#[derive(Clone, Debug, PartialEq, Eq)]
pub struct Supplement {
    pub serialized: Vec<u8>,
}

/// The asset tag used for one kind of owned state.
#[derive(Clone, Copy, Debug, PartialEq, Eq)]
pub struct AssetTagEntry {
    pub assignment_type: AssignmentType,
    pub tag: AssetTag,
}

/// Signatures over one part of the container; both the part's identifier and
/// the signatures are in serialized form.
#[derive(Clone, Debug, PartialEq, Eq)]
pub struct Signature {
    pub content_id: Vec<u8>,
    pub sigs: Vec<u8>,
}

/// A consignment: a contract's data as handed from one party to another.
/// `TYPE` says whether it is a transfer.
#[derive(Clone, Debug, PartialEq, Eq)]
pub struct Consignment<const TYPE: bool> {
    pub version: ContainerVer,
    pub transfer: bool,
    pub schema: Schema,
    pub genesis: Genesis,
    pub ifaces: Vec<IfacePair>,
    pub bundles: Vec<AnchoredBundle>,
    pub extensions: Vec<Extension>,
    pub terminals: Vec<Terminal>,
    pub attachments: Vec<Attachment>,
    pub supplements: Vec<Supplement>,
    pub asset_tags: Vec<AssetTagEntry>,
    pub signatures: Vec<Signature>,
}

/// A consignment that hands over state.
pub type Transfer = Consignment<true>;

/// A consignment that hands over a contract as issued.
pub type Contract = Consignment<false>;

/// Some bundle knows a transition with the identifier `opid`.
pub open spec fn has_transition(bundles: Seq<AnchoredBundle>, opid: Seq<u8>) -> bool {
    exists|i: int, j: int|
        0 <= i < bundles.len() && 0 <= j < bundles[i].bundle.known_transitions@.len() && (
        #[trigger] bundles[i].bundle.known_transitions@[j]).id@ == opid
}

/// Some extension has the identifier `opid`.
pub open spec fn has_extension(extensions: Seq<Extension>, opid: Seq<u8>) -> bool {
    exists|i: int| 0 <= i < extensions.len() && (#[trigger] extensions[i]).id@ == opid
}

/// Some bundle has the identifier `bundle_id`.
pub open spec fn has_bundle(bundles: Seq<AnchoredBundle>, bundle_id: Seq<u8>) -> bool {
    exists|i: int| 0 <= i < bundles.len() && (#[trigger] bundles[i]).bundle.id@ == bundle_id
}

/// `e` is the first extension with the identifier `opid`.
pub open spec fn is_first_extension(extensions: Seq<Extension>, opid: Seq<u8>, e: Extension) -> bool {
    exists|i: int|
        {
            &&& 0 <= i < extensions.len()
            &&& #[trigger] extensions[i] == e
            &&& e.id@ == opid
            &&& forall|a: int| 0 <= a < i ==> (#[trigger] extensions[a]).id@ != opid
        }
}

/// Bundle `i` is the first with the identifier `bundle_id`.
pub open spec fn is_first_bundle(bundles: Seq<AnchoredBundle>, bundle_id: Seq<u8>, i: int) -> bool {
    &&& 0 <= i < bundles.len()
    &&& bundles[i].bundle.id@ == bundle_id
    &&& forall|a: int| 0 <= a < i ==> (#[trigger] bundles[a]).bundle.id@ != bundle_id
}

impl<const TYPE: bool> Consignment<TYPE> {
    /// The identifier of the contract.
    pub fn contract_id(&self) -> (id: ContractId)
        ensures
            id@ == self.genesis.id@,
    {
        self.genesis.contract_id()
    }
}

impl<const TYPE: bool> Consignment<TYPE> {
    /// The transition with the identifier `opid`, if a bundle knows one.
    pub fn transition(&self, opid: &OpId) -> (r: Option<&Transition>)
        ensures
            r.is_some() == has_transition(self.bundles@, opid@),
            r.is_some() ==> r.unwrap().id@ == opid@,
    {
        let mut i: usize = 0;
        while i < self.bundles.len()
            invariant
                i <= self.bundles.len(),
                forall|a: int, b: int|
                    0 <= a < i && 0 <= b < self.bundles@[a].bundle.known_transitions@.len() ==> (
                    #[trigger] self.bundles@[a].bundle.known_transitions@[b]).id@ != opid@,
            decreases self.bundles.len() - i,
        {
            let known = &self.bundles[i].bundle.known_transitions;
            let mut j: usize = 0;
            while j < known.len()
                invariant
                    i < self.bundles.len(),
                    known == &self.bundles@[i as int].bundle.known_transitions,
                    j <= known.len(),
                    forall|b: int| 0 <= b < j ==> (#[trigger] known@[b]).id@ != opid@,
                decreases known.len() - j,
            {
                if same_id(&known[j].id, opid) {
                    assert(self.bundles@[i as int].bundle.known_transitions@[j as int].id@ == opid@);
                    return Some(&known[j]);
                }
                j = j + 1;
            }
            i = i + 1;
        }
        None
    }

    /// The extension with the identifier `opid`, if there is one.
    pub fn extension(&self, opid: &OpId) -> (r: Option<&Extension>)
        ensures
            r.is_some() == has_extension(self.extensions@, opid@),
            r.is_some() ==> is_first_extension(self.extensions@, opid@, *r.unwrap()),
    {
        let mut i: usize = 0;
        while i < self.extensions.len()
            invariant
                i <= self.extensions.len(),
                forall|a: int| 0 <= a < i ==> (#[trigger] self.extensions@[a]).id@ != opid@,
            decreases self.extensions.len() - i,
        {
            if same_id(&self.extensions[i].id, opid) {
                assert(self.extensions@[i as int] == self.extensions[i as int]);
                return Some(&self.extensions[i]);
            }
            i = i + 1;
        }
        None
    }

    /// The first anchored bundle with the identifier `bundle_id`, if there
    /// is one.
    pub fn anchored_bundle(&self, bundle_id: &BundleId) -> (r: Option<&AnchoredBundle>)
        ensures
            r.is_some() == has_bundle(self.bundles@, bundle_id@),
            r.is_some() ==> exists|i: int|
                is_first_bundle(self.bundles@, bundle_id@, i) && #[trigger] self.bundles@[i]
                    == *r.unwrap(),
    {
        let mut i: usize = 0;
        while i < self.bundles.len()
            invariant
                i <= self.bundles.len(),
                forall|a: int| 0 <= a < i ==> (#[trigger] self.bundles@[a]).bundle.id@ != bundle_id@,
            decreases self.bundles.len() - i,
        {
            if same_id(&self.bundles[i].bundle.id, bundle_id) {
                assert(is_first_bundle(self.bundles@, bundle_id@, i as int));
                assert(self.bundles@[i as int] == self.bundles[i as int]);
                return Some(&self.bundles[i]);
            }
            i = i + 1;
        }
        None
    }
}

} // verus!
