//! A consignment together with an index from its operations to the
//! witnesses that anchor them: the read-only view that validation works on.

use std::rc::Rc;
use vstd::prelude::*;
use vstd::slice::slice_to_vec;
use crate::canon::SortedMap;
use crate::contract::{has_bundle, has_extension, has_transition, is_first_bundle,
    is_first_extension, same_id, AnchoredBundle, AssetTagEntry, BundleId, Consignment, Extension,
    Genesis, OpId, Schema, Transition, TransitionBundle, WitnessId};
use crate::encoding::{collect, is_arrangement, join, lemma_collect_count, lemma_collect_dom,
    lemma_collect_value, lemma_join_contains, lemma_keys_arranged};
use crate::transfer::{is_shown, is_terminal_of, pairs_bytes, CollectionKind, TerminalPair};

verus! {

/// Identifier of a library of the virtual machine.
pub type LibId = [u8; 32];

/// Identifier of a type system.
pub type TypeSysId = [u8; 32];

/// A type system against which state is checked.
#[derive(Clone, Copy, Debug, PartialEq, Eq)]
pub struct TypeSystem {
    pub id: TypeSysId,
}

/// An operation of a contract, by reference.
#[derive(Clone, Copy, Debug)]
pub enum OpRef<'op> {
    Genesis(&'op Genesis),
    Transition(&'op Transition),
    Extension(&'op Extension),
}

/// The operations that one anchored bundle knows, each with the bundle's
/// witness.
pub open spec fn bundle_ops(b: AnchoredBundle) -> Seq<(Seq<u8>, WitnessId)> {
    Seq::new(
        b.bundle.known_transitions@.len(),
        |j: int| (b.bundle.known_transitions@[j].id@, b.witness_id),
    )
}

/// The operations that the bundles know, bundle after bundle.
pub open spec fn index_entries(bundles: Seq<AnchoredBundle>) -> Seq<(Seq<u8>, WitnessId)> {
    join(Seq::new(bundles.len(), |i: int| bundle_ops(bundles[i])))
}

/// The bundle index: each operation that a bundle knows, mapped to the
/// witness of that bundle (of the last such bundle, should several know it).
pub open spec fn witness_index(bundles: Seq<AnchoredBundle>) -> Map<Seq<u8>, WitnessId> {
    collect(index_entries(bundles))
}

/// `copy` holds what `held` holds.
pub open spec fn same_bundle(copy: AnchoredBundle, held: AnchoredBundle) -> bool {
    &&& copy.witness_id == held.witness_id
    &&& copy.bundle.id == held.bundle.id
    &&& copy.bundle.disclose_hash == held.bundle.disclose_hash
    &&& copy.bundle.known_transitions@ == held.bundle.known_transitions@
}

/// No operation is known twice, neither to two bundles nor to one.
pub open spec fn operations_distinct(bundles: Seq<AnchoredBundle>) -> bool {
    forall|a: int, b: int|
        0 <= a < b < index_entries(bundles).len() ==> #[trigger] index_entries(bundles)[a].0
            != #[trigger] index_entries(bundles)[b].0
}

/// The index knows exactly the operations that some bundle knows.
pub proof fn lemma_index_domain(bundles: Seq<AnchoredBundle>, opid: Seq<u8>)
    ensures
        witness_index(bundles).contains_key(opid) <==> has_transition(bundles, opid),
{
    let parts = Seq::new(bundles.len(), |i: int| bundle_ops(bundles[i]));
    let all = index_entries(bundles);
    lemma_collect_dom(all, opid);
    if witness_index(bundles).contains_key(opid) {
        let x = choose|x: int| 0 <= x < all.len() && #[trigger] all[x].0 == opid;
        assert(all.contains(all[x]));
        lemma_join_contains(parts, all[x]);
        let (i, j) = choose|i: int, j: int|
            0 <= i < parts.len() && 0 <= j < parts[i].len() && #[trigger] parts[i][j] == all[x];
        assert(bundles[i].bundle.known_transitions@[j].id@ == opid);
    }
    if has_transition(bundles, opid) {
        let (i, j) = choose|i: int, j: int|
            0 <= i < bundles.len() && 0 <= j < bundles[i].bundle.known_transitions@.len() && (
            #[trigger] bundles[i].bundle.known_transitions@[j]).id@ == opid;
        let e = parts[i][j];
        lemma_join_contains(parts, e);
        assert(all.contains(e));
        let x = choose|x: int| 0 <= x < all.len() && all[x] == e;
        assert(all[x].0 == opid);
    }
}

/// Where the bundles know disjoint operations, the index holds one entry
/// for each operation, and maps each to the witness of the one bundle that
/// knows it.
pub proof fn lemma_index_of_disjoint_bundles(bundles: Seq<AnchoredBundle>)
    requires
        operations_distinct(bundles),
    ensures
        witness_index(bundles).dom().finite(),
        witness_index(bundles).dom().len() == index_entries(bundles).len(),
        forall|i: int, j: int|
            0 <= i < bundles.len() && 0 <= j < bundles[i].bundle.known_transitions@.len()
                ==> witness_index(bundles).contains_key(
                (#[trigger] bundles[i].bundle.known_transitions@[j]).id@,
            ) && witness_index(bundles)[bundles[i].bundle.known_transitions@[j].id@]
                == bundles[i].witness_id,
{
    let parts = Seq::new(bundles.len(), |i: int| bundle_ops(bundles[i]));
    let all = index_entries(bundles);
    lemma_collect_count(all);
    assert forall|i: int, j: int|
        0 <= i < bundles.len() && 0 <= j < bundles[i].bundle.known_transitions@.len()
            implies witness_index(bundles).contains_key(
        (#[trigger] bundles[i].bundle.known_transitions@[j]).id@,
    ) && witness_index(bundles)[bundles[i].bundle.known_transitions@[j].id@]
        == bundles[i].witness_id by {
        let e = parts[i][j];
        lemma_join_contains(parts, e);
        assert(all.contains(e));
        let x = choose|x: int| 0 <= x < all.len() && all[x] == e;
        lemma_collect_value(all, x);
    }
}

/// A copy of an anchored bundle that owns all it holds.
pub fn copy_bundle(ab: &AnchoredBundle) -> (r: AnchoredBundle)
    ensures
        same_bundle(r, *ab),
{
    AnchoredBundle {
        witness_id: ab.witness_id,
        bundle: TransitionBundle {
            id: ab.bundle.id,
            disclose_hash: ab.bundle.disclose_hash,
            known_transitions: slice_to_vec(ab.bundle.known_transitions.as_slice()),
        },
    }
}

/// A consignment with its bundle index.
#[derive(Debug)]
pub struct IndexedConsignment<'c, const TYPE: bool> {
    consignment: &'c Consignment<TYPE>,
    op_witness_ids: SortedMap<WitnessId>,
}

/// The identifiers of the bundles of a consignment as they stood when the
/// sequence was made, given out one by one.
#[derive(Debug)]
pub struct BundleIdIter {
    ids: Vec<BundleId>,
    next: usize,
}

impl BundleIdIter {
    /// The identifiers that are still to come.
    pub closed spec fn remaining(&self) -> Seq<Seq<u8>> {
        Seq::new(
            if self.next <= self.ids@.len() {
                (self.ids@.len() - self.next) as nat
            } else {
                0nat
            },
            |i: int| self.ids@[self.next + i]@,
        )
    }

    /// Gives the next identifier, or nothing once all have been given; from
    /// then on it gives nothing, however often it is asked.
    pub fn next(&mut self) -> (r: Option<BundleId>)
        ensures
            old(self).remaining().len() == 0 ==> r.is_none() && final(self).remaining().len() == 0,
            old(self).remaining().len() > 0 ==> r.is_some() && r.unwrap()@ == old(
                self,
            ).remaining()[0] && final(self).remaining() == old(self).remaining().drop_first(),
    {
        if self.next < self.ids.len() {
            let id = self.ids[self.next];
            let ghost before = self.remaining();
            self.next = self.next + 1;
            assert(self.remaining() =~= before.drop_first());
            Some(id)
        } else {
            None
        }
    }
}

impl<'c, const TYPE: bool> IndexedConsignment<'c, TYPE> {
    /// The consignment that is indexed.
    pub closed spec fn source(&self) -> Consignment<TYPE> {
        *self.consignment
    }

    /// The bundle index: operation to witness.
    pub closed spec fn index(&self) -> Map<Seq<u8>, WitnessId> {
        self.op_witness_ids@
    }

    /// The index is that of the consignment's bundles.
    #[verifier::type_invariant]
    spec fn wf(&self) -> bool {
        &&& self.op_witness_ids.wf()
        &&& self.op_witness_ids@ == witness_index(self.consignment.bundles@)
    }

    /// Builds the index by one pass over the anchored bundles.
    pub fn new(consignment: &'c Consignment<TYPE>) -> (r: Self)
        ensures
            r.source() == *consignment,
            r.index() == witness_index(consignment.bundles@),
    {
        let mut index: SortedMap<WitnessId> = SortedMap::new();
        let ghost parts = Seq::new(
            consignment.bundles@.len(),
            |i: int| bundle_ops(consignment.bundles@[i]),
        );
        assert(index@ =~= collect(join(parts.take(0))));
        let mut i: usize = 0;
        while i < consignment.bundles.len()
            invariant
                i <= consignment.bundles.len(),
                parts == Seq::new(
                    consignment.bundles@.len(),
                    |i: int| bundle_ops(consignment.bundles@[i]),
                ),
                index.wf(),
                index@ == collect(join(parts.take(i as int))),
            decreases consignment.bundles.len() - i,
        {
            let ab = &consignment.bundles[i];
            let ghost done = join(parts.take(i as int));
            let ghost part = parts[i as int];
            assert(done + part.take(0) =~= done);
            let mut j: usize = 0;
            while j < ab.bundle.known_transitions.len()
                invariant
                    j <= ab.bundle.known_transitions.len(),
                    part == bundle_ops(*ab),
                    index.wf(),
                    index@ == collect(done + part.take(j as int)),
                decreases ab.bundle.known_transitions.len() - j,
            {
                let key = slice_to_vec(ab.bundle.known_transitions[j].id.as_slice());
                index.insert(key, ab.witness_id);
                proof {
                    let now = done + part.take(j + 1);
                    assert(now.drop_last() =~= done + part.take(j as int));
                    assert(now.last() == part[j as int]);
                }
                j = j + 1;
            }
            proof {
                assert(part.take(j as int) =~= part);
                assert(parts.take(i + 1).drop_last() =~= parts.take(i as int));
            }
            i = i + 1;
        }
        assert(parts.take(i as int) =~= parts);
        IndexedConsignment { consignment, op_witness_ids: index }
    }

    /// The consignment that is indexed.
    pub fn deref(&self) -> (c: &'c Consignment<TYPE>)
        ensures
            *c == self.source(),
    {
        self.consignment
    }

    /// Number of operations in the index.
    pub fn indexed_operations(&self) -> (n: usize)
        ensures
            n == self.index().dom().len(),
            self.index() == witness_index(self.source().bundles@),
    {
        proof {
            use_type_invariant(self);
            lemma_keys_arranged(&self.op_witness_ids);
        }
        self.op_witness_ids.len()
    }

    /// The schema of the consignment.
    pub fn schema(&self) -> (s: &'c Schema)
        ensures
            *s == self.source().schema,
    {
        &self.consignment.schema
    }

    /// The asset tags of the consignment, one for each kind of state.
    pub fn asset_tags(&self) -> (tags: &'c Vec<AssetTagEntry>)
        ensures
            *tags == self.source().asset_tags,
    {
        &self.consignment.asset_tags
    }

    /// The genesis of the contract.
    pub fn genesis(&self) -> (g: &'c Genesis)
        ensures
            *g == self.source().genesis,
    {
        &self.consignment.genesis
    }

    /// The operation with the identifier `opid`: the genesis if it is the
    /// genesis identifier; else a transition that a bundle knows under it;
    /// else an extension with it; else nothing.
    pub fn operation(&self, opid: OpId) -> (r: Option<OpRef<'c>>)
        ensures
            match r {
                Some(OpRef::Genesis(g)) => opid@ == self.source().genesis.id@ && *g
                    == self.source().genesis,
                Some(OpRef::Transition(t)) => {
                    &&& opid@ != self.source().genesis.id@
                    &&& has_transition(self.source().bundles@, opid@)
                    &&& t.id@ == opid@
                },
                Some(OpRef::Extension(e)) => {
                    &&& opid@ != self.source().genesis.id@
                    &&& !has_transition(self.source().bundles@, opid@)
                    &&& is_first_extension(self.source().extensions@, opid@, *e)
                },
                None => {
                    &&& opid@ != self.source().genesis.id@
                    &&& !has_transition(self.source().bundles@, opid@)
                    &&& !has_extension(self.source().extensions@, opid@)
                },
            },
    {
        if same_id(&opid, &self.consignment.genesis.id) {
            return Some(OpRef::Genesis(&self.consignment.genesis));
        }
        match self.consignment.transition(&opid) {
            Some(t) => Some(OpRef::Transition(t)),
            None => match self.consignment.extension(&opid) {
                Some(e) => Some(OpRef::Extension(e)),
                None => None,
            },
        }
    }

    /// The witness that anchors the operation `opid`, if a bundle knows the
    /// operation.
    pub fn op_witness_id(&self, opid: OpId) -> (r: Option<WitnessId>)
        ensures
            r == if self.index().contains_key(opid@) {
                Some(self.index()[opid@])
            } else {
                None
            },
            r.is_some() == has_transition(self.source().bundles@, opid@),
            self.index() == witness_index(self.source().bundles@),
    {
        proof {
            use_type_invariant(self);
            lemma_index_domain(self.consignment.bundles@, opid@);
        }
        match self.op_witness_ids.get(opid.as_slice()) {
            Some(w) => Some(*w),
            None => None,
        }
    }

    /// The terminals of the consignment, every seal in concealed form: each
    /// pair of a bundle and a concealed seal once, in ascending order of
    /// their byte forms.
    pub fn terminals(&self) -> (r: Vec<TerminalPair>)
        ensures
            is_arrangement(
                pairs_bytes(r@),
                self.source().members(CollectionKind::Terminals).dom(),
            ),
            forall|k: int| 0 <= k < r@.len() ==> is_terminal_of(#[trigger] r@[k], self.source()),
            forall|i: int, j: int|
                0 <= i < self.source().terminals@.len() && 0 <= j
                    < self.source().terminals@[i].seals@.len() ==> #[trigger] is_shown(
                    r@,
                    self.source(),
                    i,
                    j,
                ),
    {
        self.consignment.terminals_disclose()
    }

    /// The identifiers of the anchored bundles, in the order in which the
    /// consignment holds them at this moment.
    pub fn bundle_ids(&self) -> (iter: BundleIdIter)
        ensures
            iter.remaining() == Seq::new(
                self.source().bundles@.len(),
                |i: int| self.source().bundles@[i].bundle.id@,
            ),
    {
        let mut ids: Vec<BundleId> = Vec::new();
        let mut i: usize = 0;
        while i < self.consignment.bundles.len()
            invariant
                i <= self.consignment.bundles.len(),
                ids@.len() == i,
                forall|a: int| 0 <= a < i ==> ids@[a]@ == self.consignment.bundles@[a].bundle.id@,
            decreases self.consignment.bundles.len() - i,
        {
            ids.push(self.consignment.bundles[i].bundle.id);
            i = i + 1;
        }
        let iter = BundleIdIter { ids, next: 0 };
        assert(iter.remaining() =~= Seq::new(
            self.source().bundles@.len(),
            |i: int| self.source().bundles@[i].bundle.id@,
        ));
        iter
    }

    /// A copy of the first anchored bundle with the identifier `bundle_id`,
    /// behind a handle that does not borrow from the consignment.
    pub fn anchored_bundle(&self, bundle_id: BundleId) -> (r: Option<Rc<AnchoredBundle>>)
        ensures
            r.is_some() == has_bundle(self.source().bundles@, bundle_id@),
            r.is_some() ==> exists|i: int|
                is_first_bundle(self.source().bundles@, bundle_id@, i) && same_bundle(
                    *r.unwrap(),
                    #[trigger] self.source().bundles@[i],
                ),
    {
        match self.consignment.anchored_bundle(&bundle_id) {
            Some(ab) => {
                let copy = copy_bundle(ab);
                proof {
                    let i = choose|i: int|
                        is_first_bundle(self.consignment.bundles@, bundle_id@, i)
                            && #[trigger] self.consignment.bundles@[i] == *ab;
                    assert(same_bundle(copy, self.source().bundles@[i]));
                }
                Some(Rc::new(copy))
            },
            None => None,
        }
    }

    /// Whether a program made of the libraries `libs` can be had from the
    /// consignment. It holds no libraries: the empty program is found, and
    /// for any other the first library asked for is reported as missing.
    pub fn program(&self, libs: &Vec<LibId>) -> (r: Result<(), LibId>)
        ensures
            libs@.len() == 0 ==> r.is_ok(),
            libs@.len() > 0 ==> r == Err::<(), LibId>(libs@[0]),
    {
        if libs.len() == 0 {
            Ok(())
        } else {
            Err(libs[0])
        }
    }

    /// The type system with the identifier `id`. The consignment holds no
    /// type systems, so none is found.
    pub fn type_system(&self, id: TypeSysId) -> (r: Option<&'c TypeSystem>)
        ensures
            r.is_none(),
    {
        None
    }
}

} // verus!
