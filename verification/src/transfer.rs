//! The commitment to a consignment, from which a transfer's identifier is
//! derived. The order of the committed parts is fixed, and collections are
//! committed to in canonical arrangement, so that the order in which their
//! members were put in leaves no trace.

use vstd::prelude::*;
use vstd::slice::slice_to_vec;
use vstd::string::StringSliceAdditionalSpecFns;
use crate::canon::{lemma_entry, SortedMap};
use crate::contract::{AnchoredBundle, AssetTagEntry, Attachment, BundleId, Consignment, Extension,
    IfacePair, Signature, Supplement, Terminal};
use crate::digest::{absorbed, tagged_sha256, TaggedHasher};
use crate::encoding::{append_bytes, collect, collection_bytes, consistent, data_view,
    is_arrangement, join, lemma_collect_dom, lemma_collect_plain, lemma_collect_same,
    lemma_images_same, lemma_join_contains, lemma_join_same, lemma_keys_arranged,
    lemma_keys_canonical, write_collection, Entries, Width};
use crate::ident::{TransferId, TRANSFER_ID_TAG};
use crate::order::{lex_lt, lex_lt_at};
use crate::seal::{SecretSeal, XChain};

verus! {

/// The collections of a consignment that its commitment includes, in the
/// order in which they are committed to.
#[derive(Clone, Copy, Debug, PartialEq, Eq)]
pub enum CollectionKind {
    Ifaces,
    Bundles,
    Extensions,
    Terminals,
    Attachments,
    Supplements,
    AssetTags,
    Signatures,
}

impl CollectionKind {
    /// The bound on the number of members.
    pub open spec fn width(self) -> Width {
        match self {
            CollectionKind::Ifaces => Width::Tiny,
            CollectionKind::Bundles => Width::Large,
            CollectionKind::Extensions => Width::Large,
            CollectionKind::Terminals => Width::Small,
            CollectionKind::Attachments => Width::Small,
            CollectionKind::Supplements => Width::Tiny,
            CollectionKind::AssetTags => Width::Tiny,
            CollectionKind::Signatures => Width::Tiny,
        }
    }

    /// The bound on the number of members.
    pub fn bound(&self) -> (w: Width)
        ensures
            w == self.width(),
    {
        match self {
            CollectionKind::Ifaces => Width::Tiny,
            CollectionKind::Bundles => Width::Large,
            CollectionKind::Extensions => Width::Large,
            CollectionKind::Terminals => Width::Small,
            CollectionKind::Attachments => Width::Small,
            CollectionKind::Supplements => Width::Tiny,
            CollectionKind::AssetTags => Width::Tiny,
            CollectionKind::Signatures => Width::Tiny,
        }
    }
}

/// A collection holds more members than its commitment has room for.
#[derive(Clone, Copy, Debug, PartialEq, Eq)]
pub struct SizeLimitExceeded {
    /// The collection that is too large.
    pub collection: CollectionKind,
    /// The number of its distinct members.
    pub len: usize,
    /// The largest number that can be committed to.
    pub max: u64,
}

/// An entry that is ordered by the bytes that are committed to.
pub open spec fn plain(bytes: Seq<u8>) -> (Seq<u8>, Seq<u8>) {
    (bytes, bytes)
}

/// A 16-bit number in little-endian order.
pub open spec fn le16(n: u16) -> Seq<u8> {
    seq![(n % 256) as u8, (n / 256) as u8]
}

/// A 16-bit number in big-endian order, so that byte order is number order.
pub open spec fn be16(n: u16) -> Seq<u8> {
    seq![(n / 256) as u8, (n % 256) as u8]
}

/// Big-endian byte strings stand in the order of their numbers, so asset
/// tags are committed to in ascending order of the kind of state.
pub proof fn lemma_be16_order(a: u16, b: u16)
    ensures
        lex_lt(be16(a), be16(b)) <==> a < b,
{
    let x = be16(a);
    let y = be16(b);
    if a < b {
        if a / 256 < b / 256 {
            assert(lex_lt_at(x, y, 0));
        } else {
            assert(x[0] == y[0]);
            assert(lex_lt_at(x, y, 1));
        }
    }
    if lex_lt(x, y) {
        let k = choose|k: int| lex_lt_at(x, y, k);
        if k == 1 {
            assert(x[0] == y[0]);
        }
    }
}

/// The byte form of a boolean.
pub open spec fn bool_byte(b: bool) -> u8 {
    if b {
        1u8
    } else {
        0u8
    }
}

/// A member of a collection that is committed to.
pub trait Member {
    /// The key by which the member is ordered among the others, and the
    /// bytes that are committed to.
    spec fn entry(&self) -> (Seq<u8>, Seq<u8>);

    /// The key by which the member is ordered.
    fn sort_key(&self) -> (key: Vec<u8>)
        ensures
            key@ == self.entry().0,
    ;

    /// The bytes that are committed to.
    fn committed_bytes(&self) -> (data: Vec<u8>)
        ensures
            data@ == self.entry().1,
    ;
}

/// Of an interface, the identifier of its implementation is committed to.
impl Member for IfacePair {
    open spec fn entry(&self) -> (Seq<u8>, Seq<u8>) {
        plain(self.impl_id@)
    }

    fn sort_key(&self) -> (key: Vec<u8>) {
        slice_to_vec(self.impl_id.as_slice())
    }

    fn committed_bytes(&self) -> (data: Vec<u8>) {
        slice_to_vec(self.impl_id.as_slice())
    }
}

/// Of an anchored bundle, the disclosure hash of the bundle is committed to.
impl Member for AnchoredBundle {
    open spec fn entry(&self) -> (Seq<u8>, Seq<u8>) {
        plain(self.bundle.disclose_hash@)
    }

    fn sort_key(&self) -> (key: Vec<u8>) {
        slice_to_vec(self.bundle.disclose_hash.as_slice())
    }

    fn committed_bytes(&self) -> (data: Vec<u8>) {
        slice_to_vec(self.bundle.disclose_hash.as_slice())
    }
}

/// Of an extension, its disclosure hash is committed to.
impl Member for Extension {
    open spec fn entry(&self) -> (Seq<u8>, Seq<u8>) {
        plain(self.disclose_hash@)
    }

    fn sort_key(&self) -> (key: Vec<u8>) {
        slice_to_vec(self.disclose_hash.as_slice())
    }

    fn committed_bytes(&self) -> (data: Vec<u8>) {
        slice_to_vec(self.disclose_hash.as_slice())
    }
}

/// Of an attachment, its identifier is committed to.
impl Member for Attachment {
    open spec fn entry(&self) -> (Seq<u8>, Seq<u8>) {
        plain(self.id@)
    }

    fn sort_key(&self) -> (key: Vec<u8>) {
        slice_to_vec(self.id.as_slice())
    }

    fn committed_bytes(&self) -> (data: Vec<u8>) {
        slice_to_vec(self.id.as_slice())
    }
}

/// A supplement is committed to as it is serialized.
impl Member for Supplement {
    open spec fn entry(&self) -> (Seq<u8>, Seq<u8>) {
        plain(self.serialized@)
    }

    fn sort_key(&self) -> (key: Vec<u8>) {
        slice_to_vec(self.serialized.as_slice())
    }

    fn committed_bytes(&self) -> (data: Vec<u8>) {
        slice_to_vec(self.serialized.as_slice())
    }
}

/// Asset tags stand in the order of the kinds of state they are for; the
/// kind, little-endian, and the tag are committed to.
impl Member for AssetTagEntry {
    open spec fn entry(&self) -> (Seq<u8>, Seq<u8>) {
        (be16(self.assignment_type), le16(self.assignment_type) + self.tag@)
    }

    fn sort_key(&self) -> (key: Vec<u8>) {
        let mut key: Vec<u8> = Vec::new();
        key.push((self.assignment_type / 256) as u8);
        key.push((self.assignment_type % 256) as u8);
        assert(key@ =~= be16(self.assignment_type));
        key
    }

    fn committed_bytes(&self) -> (data: Vec<u8>) {
        let mut data: Vec<u8> = Vec::new();
        data.push((self.assignment_type % 256) as u8);
        data.push((self.assignment_type / 256) as u8);
        append_bytes(&mut data, self.tag.as_slice());
        assert(data@ =~= le16(self.assignment_type) + self.tag@);
        data
    }
}

/// Signatures stand in the order of what they sign; the identifier of what
/// is signed and the signatures are committed to.
impl Member for Signature {
    open spec fn entry(&self) -> (Seq<u8>, Seq<u8>) {
        (self.content_id@, self.content_id@ + self.sigs@)
    }

    fn sort_key(&self) -> (key: Vec<u8>) {
        slice_to_vec(self.content_id.as_slice())
    }

    fn committed_bytes(&self) -> (data: Vec<u8>) {
        let mut data = slice_to_vec(self.content_id.as_slice());
        append_bytes(&mut data, self.sigs.as_slice());
        data
    }
}

/// The entries of the members, in the order in which they are held.
pub open spec fn entries_of<T: Member>(items: Seq<T>) -> Entries {
    Seq::new(items.len(), |i: int| items[i].entry())
}

/// A terminal as it is shown to others: the bundle and the concealed seal.
pub type TerminalPair = (BundleId, XChain<SecretSeal>);

/// The byte form of a terminal: the bundle, the chain of the seal, and the
/// seal in concealed form.
pub open spec fn terminal_bytes(bundle_id: Seq<u8>, chain_tag: u8, secret: Seq<u8>) -> Seq<u8> {
    bundle_id + seq![chain_tag] + secret
}

/// The byte form of a terminal pair.
pub open spec fn pair_bytes(pair: TerminalPair) -> Seq<u8> {
    terminal_bytes(pair.0@, pair.1.chain_tag(), pair.1.inner()@)
}

/// The byte forms of the pairs, in their order.
pub open spec fn pairs_bytes(pairs: Seq<TerminalPair>) -> Seq<Seq<u8>> {
    Seq::new(pairs.len(), |k: int| pair_bytes(pairs[k]))
}

/// The entries that the seals of one terminal give.
pub open spec fn terminal_seal_entries(t: Terminal) -> Entries {
    Seq::new(
        t.seals@.len(),
        |j: int|
            plain(
                terminal_bytes(
                    t.bundle_id@,
                    t.seals@[j].chain_tag(),
                    t.seals@[j].inner().concealed(),
                ),
            ),
    )
}

/// `pair` shows seal `j` of terminal `i`: the bundle of that terminal, the
/// chain of the seal, and the seal in concealed form.
pub open spec fn shows<const TYPE: bool>(
    pair: TerminalPair,
    c: Consignment<TYPE>,
    i: int,
    j: int,
) -> bool {
    &&& 0 <= i < c.terminals@.len()
    &&& 0 <= j < c.terminals@[i].seals@.len()
    &&& pair.0@ == c.terminals@[i].bundle_id@
    &&& pair.1.chain_tag() == c.terminals@[i].seals@[j].chain_tag()
    &&& pair.1.inner()@ == c.terminals@[i].seals@[j].inner().concealed()
}

/// `pair` shows some seal of some terminal of `c`.
pub open spec fn is_terminal_of<const TYPE: bool>(pair: TerminalPair, c: Consignment<TYPE>) -> bool {
    exists|i: int, j: int| #[trigger] shows(pair, c, i, j)
}

/// Seal `j` of terminal `i` of `c` is shown by one of `pairs`.
pub open spec fn is_shown<const TYPE: bool>(
    pairs: Seq<TerminalPair>,
    c: Consignment<TYPE>,
    i: int,
    j: int,
) -> bool {
    exists|k: int| 0 <= k < pairs.len() && #[trigger] shows(pairs[k], c, i, j)
}

/// The byte form of a terminal tells its parts apart.
pub proof fn lemma_terminal_bytes_injective(
    b1: Seq<u8>,
    t1: u8,
    s1: Seq<u8>,
    b2: Seq<u8>,
    t2: u8,
    s2: Seq<u8>,
)
    requires
        b1.len() == b2.len(),
        terminal_bytes(b1, t1, s1) == terminal_bytes(b2, t2, s2),
    ensures
        b1 == b2,
        t1 == t2,
        s1 == s2,
{
    let x = terminal_bytes(b1, t1, s1);
    let y = terminal_bytes(b2, t2, s2);
    let n = b1.len() as int;
    assert(x.len() == n + 1 + s1.len());
    assert(y.len() == n + 1 + s2.len());
    assert forall|i: int| 0 <= i < n implies b1[i] == b2[i] by {
        assert(x[i] == b1[i]);
        assert(y[i] == b2[i]);
    }
    assert(b1 =~= b2);
    assert(x[n] == t1);
    assert(y[n] == t2);
    assert forall|i: int| 0 <= i < s1.len() implies s1[i] == s2[i] by {
        assert(x[n + 1 + i] == s1[i]);
        assert(y[n + 1 + i] == s2[i]);
    }
    assert(s1 =~= s2);
}

impl<const TYPE: bool> Consignment<TYPE> {
    /// The terminals, each seal concealed and paired with its bundle.
    pub open spec fn terminal_entries(&self) -> Entries {
        join(Seq::new(self.terminals@.len(), |i: int| terminal_seal_entries(self.terminals@[i])))
    }

    /// The entries of one collection, in the order of insertion.
    pub open spec fn entries(&self, kind: CollectionKind) -> Entries {
        match kind {
            CollectionKind::Ifaces => entries_of(self.ifaces@),
            CollectionKind::Bundles => entries_of(self.bundles@),
            CollectionKind::Extensions => entries_of(self.extensions@),
            CollectionKind::Terminals => self.terminal_entries(),
            CollectionKind::Attachments => entries_of(self.attachments@),
            CollectionKind::Supplements => entries_of(self.supplements@),
            CollectionKind::AssetTags => entries_of(self.asset_tags@),
            CollectionKind::Signatures => entries_of(self.signatures@),
        }
    }

    /// The members of one collection, by their sort keys.
    pub open spec fn members(&self, kind: CollectionKind) -> Map<Seq<u8>, Seq<u8>> {
        collect(self.entries(kind))
    }

    /// The collection has more distinct members than can be committed to.
    pub open spec fn oversized(&self, kind: CollectionKind) -> bool {
        self.members(kind).dom().len() > kind.width().max_len()
    }

    /// The first collection, in the order of commitment, that is too large.
    pub open spec fn first_oversized(&self) -> Option<CollectionKind> {
        if self.oversized(CollectionKind::Ifaces) {
            Some(CollectionKind::Ifaces)
        } else if self.oversized(CollectionKind::Bundles) {
            Some(CollectionKind::Bundles)
        } else if self.oversized(CollectionKind::Extensions) {
            Some(CollectionKind::Extensions)
        } else if self.oversized(CollectionKind::Terminals) {
            Some(CollectionKind::Terminals)
        } else if self.oversized(CollectionKind::Attachments) {
            Some(CollectionKind::Attachments)
        } else if self.oversized(CollectionKind::Supplements) {
            Some(CollectionKind::Supplements)
        } else if self.oversized(CollectionKind::AssetTags) {
            Some(CollectionKind::AssetTags)
        } else if self.oversized(CollectionKind::Signatures) {
            Some(CollectionKind::Signatures)
        } else {
            None
        }
    }

    /// The byte form of one collection.
    pub open spec fn committed(&self, kind: CollectionKind) -> Seq<u8> {
        collection_bytes(kind.width(), self.members(kind))
    }

    /// The version, the kind of container, the contract and the disclosure
    /// hash of its genesis.
    pub open spec fn commitment_head(&self) -> Seq<u8> {
        seq![self.version.tag()] + seq![bool_byte(self.transfer)] + self.genesis.id@
            + self.genesis.disclose_hash@
    }

    /// All that the identifier commits to, in the fixed order.
    pub open spec fn commitment(&self) -> Seq<u8> {
        self.commitment_head() + self.committed(CollectionKind::Ifaces) + self.committed(
            CollectionKind::Bundles,
        ) + self.committed(CollectionKind::Extensions) + self.committed(CollectionKind::Terminals)
            + self.committed(CollectionKind::Attachments) + self.committed(
            CollectionKind::Supplements,
        ) + self.committed(CollectionKind::AssetTags) + self.committed(CollectionKind::Signatures)
    }
}

/// Puts one more entry into the members collected so far.
fn put(m: &mut SortedMap<Vec<u8>>, key: Vec<u8>, data: Vec<u8>, Ghost(before): Ghost<Entries>)
    requires
        old(m).wf(),
        data_view(old(m)@) == collect(before),
    ensures
        final(m).wf(),
        data_view(final(m)@) == collect(before.push((key@, data@))),
{
    let ghost k = key@;
    let ghost d = data@;
    let ghost old_map = m@;
    m.insert(key, data);
    proof {
        assert(before.push((k, d)).drop_last() =~= before);
        assert(data_view(m@) =~= data_view(old_map).insert(k, d));
    }
}

/// Collects the members of a collection, whatever the order in which they
/// are held.
fn members_of<T: Member>(items: &Vec<T>) -> (m: SortedMap<Vec<u8>>)
    ensures
        m.wf(),
        data_view(m@) == collect(entries_of(items@)),
{
    let mut m: SortedMap<Vec<u8>> = SortedMap::new();
    let ghost all = entries_of(items@);
    assert(data_view(m@) =~= collect(all.take(0)));
    let mut i: usize = 0;
    while i < items.len()
        invariant
            i <= items.len(),
            all == entries_of(items@),
            m.wf(),
            data_view(m@) == collect(all.take(i as int)),
        decreases items.len() - i,
    {
        let key = items[i].sort_key();
        let data = items[i].committed_bytes();
        put(&mut m, key, data, Ghost(all.take(i as int)));
        assert(all.take(i + 1) =~= all.take(i as int).push(all[i as int]));
        i = i + 1;
    }
    assert(all.take(i as int) =~= all);
    m
}

/// The byte form of a terminal.
pub fn terminal_to_bytes(bundle_id: &[u8; 32], seal: &XChain<SecretSeal>) -> (out: Vec<u8>)
    ensures
        out@ == terminal_bytes(bundle_id@, seal.chain_tag(), seal.inner()@),
{
    let mut out: Vec<u8> = Vec::new();
    append_bytes(&mut out, bundle_id.as_slice());
    match seal {
        XChain::Bitcoin(secret) => {
            out.push(0u8);
            append_bytes(&mut out, secret.as_slice());
        },
        XChain::Liquid(secret) => {
            out.push(1u8);
            append_bytes(&mut out, secret.as_slice());
        },
    }
    proof {
        assert(out@ =~= terminal_bytes(bundle_id@, seal.chain_tag(), seal.inner()@));
    }
    out
}

/// Adds the byte form of one collection to `out`, unless it is too large.
fn commit_collection(kind: CollectionKind, m: &SortedMap<Vec<u8>>, out: &mut Vec<u8>) -> (r: Result<
    (),
    SizeLimitExceeded,
>)
    requires
        m.wf(),
    ensures
        match r {
            Ok(()) => {
                &&& data_view(m@).dom().len() <= kind.width().max_len()
                &&& final(out)@ == old(out)@ + collection_bytes(kind.width(), data_view(m@))
            },
            Err(e) => {
                &&& data_view(m@).dom().len() > kind.width().max_len()
                &&& e.collection == kind
                &&& e.len == data_view(m@).dom().len()
                &&& e.max == kind.width().max_len()
                &&& final(out)@ == old(out)@
            },
        },
{
    proof {
        lemma_keys_canonical(m);
    }
    let width = kind.bound();
    let max = width.limit();
    let len = m.len();
    if len as u64 > max {
        Err(SizeLimitExceeded { collection: kind, len, max })
    } else {
        write_collection(width, m, out);
        Ok(())
    }
}

impl<const TYPE: bool> Consignment<TYPE> {
    /// The terminals as they are shown to others, every seal in concealed
    /// form: each pair of a bundle and a concealed seal once, in ascending
    /// order of their byte forms.
    pub fn terminals_disclose(&self) -> (r: Vec<TerminalPair>)
        ensures
            is_arrangement(pairs_bytes(r@), self.members(CollectionKind::Terminals).dom()),
            forall|k: int| 0 <= k < r@.len() ==> is_terminal_of(#[trigger] r@[k], *self),
            forall|i: int, j: int|
                0 <= i < self.terminals@.len() && 0 <= j < self.terminals@[i].seals@.len()
                    ==> #[trigger] is_shown(r@, *self, i, j),
    {
        let mut m: SortedMap<TerminalPair> = SortedMap::new();
        let ghost parts = Seq::new(
            self.terminals@.len(),
            |i: int| terminal_seal_entries(self.terminals@[i]),
        );
        assert(m@.dom() =~= collect(join(parts.take(0))).dom());
        let mut i: usize = 0;
        while i < self.terminals.len()
            invariant
                i <= self.terminals.len(),
                parts == Seq::new(
                    self.terminals@.len(),
                    |i: int| terminal_seal_entries(self.terminals@[i]),
                ),
                m.wf(),
                m@.dom() == collect(join(parts.take(i as int))).dom(),
                forall|k: Seq<u8>| m@.contains_key(k) ==> pair_bytes(#[trigger] m@[k]) == k,
            decreases self.terminals.len() - i,
        {
            let terminal = &self.terminals[i];
            let ghost done = join(parts.take(i as int));
            let ghost part = parts[i as int];
            assert(done + part.take(0) =~= done);
            let mut j: usize = 0;
            while j < terminal.seals.len()
                invariant
                    j <= terminal.seals.len(),
                    part == terminal_seal_entries(*terminal),
                    m.wf(),
                    m@.dom() == collect(done + part.take(j as int)).dom(),
                    forall|k: Seq<u8>| m@.contains_key(k) ==> pair_bytes(#[trigger] m@[k]) == k,
                decreases terminal.seals.len() - j,
            {
                let secret = terminal.seals[j].conceal();
                let key = terminal_to_bytes(&terminal.bundle_id, &secret);
                let ghost k0 = key@;
                m.insert(key, (terminal.bundle_id, secret));
                proof {
                    let now = done + part.take(j + 1);
                    assert(now.drop_last() =~= done + part.take(j as int));
                    assert(now.last() == part[j as int]);
                    assert(part[j as int] == plain(k0));
                    assert(m@.dom() =~= collect(now).dom());
                }
                j = j + 1;
            }
            proof {
                assert(part.take(j as int) =~= part);
                assert(parts.take(i + 1).drop_last() =~= parts.take(i as int));
            }
            i = i + 1;
        }
        let ghost all = join(parts);
        proof {
            assert(parts.take(i as int) =~= parts);
            lemma_keys_arranged(&m);
        }
        let n = m.len();
        let mut out: Vec<TerminalPair> = Vec::new();
        let mut k: usize = 0;
        while k < n
            invariant
                k <= n,
                n == m.keys().len(),
                m.wf(),
                out@ == m.values().take(k as int),
            decreases n - k,
        {
            out.push(*m.value_at(k));
            assert(m.values().take(k + 1) =~= m.values().take(k as int).push(
                m.values()[k as int],
            ));
            k = k + 1;
        }
        proof {
            assert(m.values().take(n as int) =~= m.values());
            assert forall|x: int| 0 <= x < out@.len() implies pair_bytes(out@[x])
                == #[trigger] m.keys()[x] by {
                lemma_entry(&m, x);
            }
            assert(pairs_bytes(out@) =~= m.keys());
            assert forall|key: Seq<u8>| m.keys().contains(key) <==> m@.dom().contains(key) by {
                assert(m@.contains_key(key) == m.keys().contains(key));
            }
            assert forall|x: int| 0 <= x < out@.len() implies is_terminal_of(
                #[trigger] out@[x],
                *self,
            ) by {
                let key = m.keys()[x];
                lemma_entry(&m, x);
                lemma_collect_dom(all, key);
                let y = choose|y: int| 0 <= y < all.len() && #[trigger] all[y].0 == key;
                assert(all.contains(all[y]));
                lemma_join_contains(parts, all[y]);
                let (i, j) = choose|i: int, j: int|
                    0 <= i < parts.len() && 0 <= j < parts[i].len() && #[trigger] parts[i][j]
                        == all[y];
                let t = self.terminals@[i];
                lemma_terminal_bytes_injective(
                    out@[x].0@,
                    out@[x].1.chain_tag(),
                    out@[x].1.inner()@,
                    t.bundle_id@,
                    t.seals@[j].chain_tag(),
                    t.seals@[j].inner().concealed(),
                );
                assert(shows(out@[x], *self, i, j));
            }
            assert forall|i: int, j: int|
                0 <= i < self.terminals@.len() && 0 <= j
                    < self.terminals@[i].seals@.len() implies #[trigger] is_shown(
                out@,
                *self,
                i,
                j,
            ) by {
                let t = self.terminals@[i];
                let e = parts[i][j];
                lemma_join_contains(parts, e);
                assert(all.contains(e));
                let y = choose|y: int| 0 <= y < all.len() && all[y] == e;
                lemma_collect_dom(all, e.0);
                assert(all[y].0 == e.0);
                assert(m@.contains_key(e.0));
                assert(m.keys().contains(e.0));
                let x = choose|x: int| 0 <= x < m.keys().len() && m.keys()[x] == e.0;
                lemma_entry(&m, x);
                lemma_terminal_bytes_injective(
                    out@[x].0@,
                    out@[x].1.chain_tag(),
                    out@[x].1.inner()@,
                    t.bundle_id@,
                    t.seals@[j].chain_tag(),
                    t.seals@[j].inner().concealed(),
                );
                assert(shows(out@[x], *self, i, j));
            }
        }
        out
    }

    /// The terminals as members of a committed collection.
    fn terminal_members(&self) -> (m: SortedMap<Vec<u8>>)
        ensures
            m.wf(),
            data_view(m@) == self.members(CollectionKind::Terminals),
    {
        let pairs = self.terminals_disclose();
        let mut m: SortedMap<Vec<u8>> = SortedMap::new();
        let ghost all = Seq::new(pairs@.len(), |k: int| plain(pair_bytes(pairs@[k])));
        assert(data_view(m@) =~= collect(all.take(0)));
        let mut k: usize = 0;
        while k < pairs.len()
            invariant
                k <= pairs.len(),
                all == Seq::new(pairs@.len(), |k: int| plain(pair_bytes(pairs@[k]))),
                m.wf(),
                data_view(m@) == collect(all.take(k as int)),
            decreases pairs.len() - k,
        {
            let bytes = terminal_to_bytes(&pairs[k].0, &pairs[k].1);
            let copy = slice_to_vec(bytes.as_slice());
            put(&mut m, bytes, copy, Ghost(all.take(k as int)));
            assert(all.take(k + 1) =~= all.take(k as int).push(all[k as int]));
            k = k + 1;
        }
        proof {
            assert(all.take(k as int) =~= all);
            let held = self.members(CollectionKind::Terminals);
            self.lemma_entries_consistent_terminals();
            assert forall|key: Seq<u8>| collect(all).contains_key(key) <==> held.contains_key(
                key,
            ) by {
                lemma_collect_dom(all, key);
                if collect(all).contains_key(key) {
                    let x = choose|x: int| 0 <= x < all.len() && #[trigger] all[x].0 == key;
                    assert(pairs_bytes(pairs@)[x] == key);
                    assert(pairs_bytes(pairs@).contains(key));
                }
                if held.contains_key(key) {
                    assert(pairs_bytes(pairs@).contains(key));
                    let x = choose|x: int|
                        0 <= x < pairs_bytes(pairs@).len() && pairs_bytes(pairs@)[x] == key;
                    assert(all[x].0 == key);
                }
            }
            assert forall|key: Seq<u8>| collect(all).contains_key(key) implies collect(all)[key]
                == held[key] by {
                lemma_collect_plain(all, key);
                lemma_collect_plain(self.terminal_entries(), key);
            }
            assert(collect(all) =~= held);
        }
        m
    }

    /// The bytes that the identifier commits to. Fails where a collection
    /// has more distinct members than its bound, and then names the first
    /// such collection.
    pub fn commitment_bytes(&self) -> (r: Result<Vec<u8>, SizeLimitExceeded>)
        ensures
            match r {
                Ok(bytes) => self.first_oversized().is_none() && bytes@ == self.commitment(),
                Err(e) => {
                    &&& self.first_oversized() == Some(e.collection)
                    &&& e.len == self.members(e.collection).dom().len()
                    &&& e.max == e.collection.width().max_len()
                },
            },
    {
        let mut out: Vec<u8> = Vec::new();
        out.push(self.version.to_byte());
        out.push(if self.transfer { 1u8 } else { 0u8 });
        append_bytes(&mut out, self.contract_id().as_slice());
        append_bytes(&mut out, self.genesis.disclose_hash.as_slice());
        assert(out@ =~= self.commitment_head());
        let m = members_of(&self.ifaces);
        if let Err(e) = commit_collection(CollectionKind::Ifaces, &m, &mut out) {
            return Err(e);
        }
        let m = members_of(&self.bundles);
        if let Err(e) = commit_collection(CollectionKind::Bundles, &m, &mut out) {
            return Err(e);
        }
        let m = members_of(&self.extensions);
        if let Err(e) = commit_collection(CollectionKind::Extensions, &m, &mut out) {
            return Err(e);
        }
        let m = self.terminal_members();
        if let Err(e) = commit_collection(CollectionKind::Terminals, &m, &mut out) {
            return Err(e);
        }
        let m = members_of(&self.attachments);
        if let Err(e) = commit_collection(CollectionKind::Attachments, &m, &mut out) {
            return Err(e);
        }
        let m = members_of(&self.supplements);
        if let Err(e) = commit_collection(CollectionKind::Supplements, &m, &mut out) {
            return Err(e);
        }
        let m = members_of(&self.asset_tags);
        if let Err(e) = commit_collection(CollectionKind::AssetTags, &m, &mut out) {
            return Err(e);
        }
        let m = members_of(&self.signatures);
        if let Err(e) = commit_collection(CollectionKind::Signatures, &m, &mut out) {
            return Err(e);
        }
        Ok(out)
    }

    /// Feeds all that the identifier commits to into `engine`, which is
    /// left as it was where a collection is too large.
    pub fn commit_encode(&self, engine: &mut TaggedHasher) -> (r: Result<(), SizeLimitExceeded>)
        ensures
            match r {
                Ok(()) => {
                    &&& self.first_oversized().is_none()
                    &&& absorbed(*final(engine)) == absorbed(*old(engine)) + self.commitment()
                },
                Err(e) => {
                    &&& self.first_oversized() == Some(e.collection)
                    &&& e.len == self.members(e.collection).dom().len()
                    &&& e.max == e.collection.width().max_len()
                    &&& *final(engine) == *old(engine)
                },
            },
    {
        match self.commitment_bytes() {
            Ok(bytes) => {
                engine.input(bytes.as_slice());
                Ok(())
            },
            Err(e) => Err(e),
        }
    }

    /// What the identifier of the consignment is, where none of its
    /// collections is too large.
    pub open spec fn commitment_id(&self) -> Seq<u8> {
        tagged_sha256(TRANSFER_ID_TAG.spec_bytes(), self.commitment())
    }
}

impl Consignment<true> {
    /// The identifier of the transfer: the tagged digest of its commitment.
    /// Fails where a collection has more distinct members than its bound.
    pub fn transfer_id(&self) -> (r: Result<TransferId, SizeLimitExceeded>)
        ensures
            match r {
                Ok(id) => self.first_oversized().is_none() && id@ == self.commitment_id(),
                Err(e) => {
                    &&& self.first_oversized() == Some(e.collection)
                    &&& e.len == self.members(e.collection).dom().len()
                    &&& e.max == e.collection.width().max_len()
                },
            },
    {
        let mut engine = TaggedHasher::new(TRANSFER_ID_TAG);
        match self.commit_encode(&mut engine) {
            Ok(()) => Ok(TransferId::from_hasher(engine)),
            Err(e) => Err(e),
        }
    }
}

impl<const TYPE: bool> Consignment<TYPE> {
    /// Every terminal entry is ordered by its own bytes.
    proof fn lemma_entries_consistent_terminals(&self)
        ensures
            forall|x: int|
                0 <= x < self.terminal_entries().len() ==> (#[trigger] self.terminal_entries()[x]).0
                    == self.terminal_entries()[x].1,
    {
        let parts = Seq::new(
            self.terminals@.len(),
            |i: int| terminal_seal_entries(self.terminals@[i]),
        );
        let all = self.terminal_entries();
        assert forall|x: int| 0 <= x < all.len() implies (#[trigger] all[x]).0 == all[x].1 by {
            assert(all.contains(all[x]));
            lemma_join_contains(parts, all[x]);
        }
    }

    /// In the collections that are sets every entry is ordered by its own
    /// bytes, so none of them holds a key with two different values.
    proof fn lemma_entries_consistent(&self, kind: CollectionKind)
        requires
            consistent(entries_of(self.asset_tags@)),
            consistent(entries_of(self.signatures@)),
        ensures
            consistent(self.entries(kind)),
    {
        self.lemma_entries_consistent_terminals();
    }
}

/// The commitment reads of each collection its members only: two
/// consignments with the same head and, in every collection, the same
/// entries in whatever order have the same commitment and the same
/// identifier, and fail alike where a collection is too large. The map-typed
/// collections of the first must hold no key with two different values.
pub proof fn lemma_commitment_by_members<const A: bool, const B: bool>(
    a: Consignment<A>,
    b: Consignment<B>,
)
    requires
        a.commitment_head() == b.commitment_head(),
        forall|kind: CollectionKind| #[trigger] a.entries(kind).to_set() == b.entries(kind).to_set(),
        consistent(entries_of(a.asset_tags@)),
        consistent(entries_of(a.signatures@)),
    ensures
        forall|kind: CollectionKind| #[trigger] a.members(kind) == b.members(kind),
        a.commitment() == b.commitment(),
        a.commitment_id() == b.commitment_id(),
        a.first_oversized() == b.first_oversized(),
{
    assert forall|kind: CollectionKind| #[trigger] a.members(kind) == b.members(kind) by {
        assert(a.entries(kind).to_set() == b.entries(kind).to_set());
        a.lemma_entries_consistent(kind);
        lemma_collect_same(a.entries(kind), b.entries(kind));
    }
    assert(a.members(CollectionKind::Ifaces) == b.members(CollectionKind::Ifaces));
    assert(a.members(CollectionKind::Bundles) == b.members(CollectionKind::Bundles));
    assert(a.members(CollectionKind::Extensions) == b.members(CollectionKind::Extensions));
    assert(a.members(CollectionKind::Terminals) == b.members(CollectionKind::Terminals));
    assert(a.members(CollectionKind::Attachments) == b.members(CollectionKind::Attachments));
    assert(a.members(CollectionKind::Supplements) == b.members(CollectionKind::Supplements));
    assert(a.members(CollectionKind::AssetTags) == b.members(CollectionKind::AssetTags));
    assert(a.members(CollectionKind::Signatures) == b.members(CollectionKind::Signatures));
}

/// Members that are held equally often, in whatever order, give the same
/// entries.
proof fn lemma_entries_same<T: Member>(x: Seq<T>, y: Seq<T>)
    requires
        x.to_multiset() == y.to_multiset(),
    ensures
        entries_of(x).to_set() == entries_of(y).to_set(),
{
    lemma_images_same(x, y, |t: T| t.entry(), entries_of(x), entries_of(y));
}

/// The order of insertion leaves no trace: two consignments that agree in
/// version, kind and genesis, and whose collections hold the same members
/// equally often but in any order, have the same commitment and the same
/// identifier. The map-typed collections of the first must hold no key with
/// two different values.
pub proof fn lemma_insertion_order<const A: bool, const B: bool>(
    a: Consignment<A>,
    b: Consignment<B>,
)
    requires
        a.version == b.version,
        a.transfer == b.transfer,
        a.genesis == b.genesis,
        a.ifaces@.to_multiset() == b.ifaces@.to_multiset(),
        a.bundles@.to_multiset() == b.bundles@.to_multiset(),
        a.extensions@.to_multiset() == b.extensions@.to_multiset(),
        a.terminals@.to_multiset() == b.terminals@.to_multiset(),
        a.attachments@.to_multiset() == b.attachments@.to_multiset(),
        a.supplements@.to_multiset() == b.supplements@.to_multiset(),
        a.asset_tags@.to_multiset() == b.asset_tags@.to_multiset(),
        a.signatures@.to_multiset() == b.signatures@.to_multiset(),
        consistent(entries_of(a.asset_tags@)),
        consistent(entries_of(a.signatures@)),
    ensures
        a.commitment() == b.commitment(),
        a.commitment_id() == b.commitment_id(),
        a.first_oversized() == b.first_oversized(),
{
    lemma_entries_same(a.ifaces@, b.ifaces@);
    lemma_entries_same(a.bundles@, b.bundles@);
    lemma_entries_same(a.extensions@, b.extensions@);
    let pa = Seq::new(a.terminals@.len(), |i: int| terminal_seal_entries(a.terminals@[i]));
    let pb = Seq::new(b.terminals@.len(), |i: int| terminal_seal_entries(b.terminals@[i]));
    lemma_images_same(a.terminals@, b.terminals@, |t: Terminal| terminal_seal_entries(t), pa, pb);
    lemma_join_same(pa, pb);
    lemma_entries_same(a.attachments@, b.attachments@);
    lemma_entries_same(a.supplements@, b.supplements@);
    lemma_entries_same(a.asset_tags@, b.asset_tags@);
    lemma_entries_same(a.signatures@, b.signatures@);
    assert forall|kind: CollectionKind| #[trigger]
        a.entries(kind).to_set() == b.entries(kind).to_set() by {}
    lemma_commitment_by_members(a, b);
}

} // verus!
