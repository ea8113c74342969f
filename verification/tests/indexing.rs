use std::rc::Rc;

use rgb_containers::contract::{
    AnchoredBundle, AssetTagEntry, ContainerVer, Consignment, Extension, Genesis, Schema, Terminal,
    Transfer, Transition, TransitionBundle,
};
use rgb_containers::indexed::{copy_bundle, IndexedConsignment, OpRef};
use rgb_containers::seal::{CloseMethod, TerminalSeal, VoutSeal, XChain};

fn id(seed: u8) -> [u8; 32] {
    let mut bytes = [seed; 32];
    bytes[0] = seed.wrapping_add(1);
    bytes
}

fn bundle(seed: u8, liquid: bool, ops: &[u8]) -> AnchoredBundle {
    let txid = id(seed.wrapping_add(100));
    AnchoredBundle {
        witness_id: if liquid { XChain::Liquid(txid) } else { XChain::Bitcoin(txid) },
        bundle: TransitionBundle {
            id: id(seed),
            disclose_hash: id(seed.wrapping_add(50)),
            known_transitions: ops.iter().map(|op| Transition { id: id(*op) }).collect(),
        },
    }
}

fn transfer() -> Transfer {
    Consignment {
        version: ContainerVer::V2,
        transfer: true,
        schema: Schema { id: id(250) },
        genesis: Genesis { id: id(1), disclose_hash: id(2) },
        ifaces: vec![],
        bundles: vec![bundle(30, false, &[42, 40, 41]), bundle(20, true, &[45]), bundle(25, false, &[])],
        extensions: vec![
            Extension { id: id(60), disclose_hash: id(62) },
            Extension { id: id(61), disclose_hash: id(59) },
        ],
        terminals: vec![
            Terminal {
                bundle_id: id(30),
                seals: vec![
                    XChain::Liquid(TerminalSeal::ConcealedUtxo(id(70))),
                    XChain::Bitcoin(TerminalSeal::WitnessVout(VoutSeal {
                        method: CloseMethod::TapretFirst,
                        vout: 1,
                        blinding: 77,
                    })),
                    XChain::Bitcoin(TerminalSeal::ConcealedUtxo(id(71))),
                ],
            },
            Terminal {
                bundle_id: id(20),
                seals: vec![XChain::Bitcoin(TerminalSeal::ConcealedUtxo(id(72)))],
            },
        ],
        attachments: vec![],
        supplements: vec![],
        asset_tags: vec![AssetTagEntry { assignment_type: 4000, tag: id(90) }],
        signatures: vec![],
    }
}

fn witness_bytes(w: XChain<[u8; 32]>) -> (bool, [u8; 32]) {
    match w {
        XChain::Bitcoin(txid) => (false, txid),
        XChain::Liquid(txid) => (true, txid),
    }
}

#[test]
fn index_has_one_entry_per_operation() {
    let t = transfer();
    let indexed = IndexedConsignment::new(&t);
    assert_eq!(indexed.indexed_operations(), 4);
}

#[test]
fn index_maps_operation_to_witness_of_its_bundle() {
    let t = transfer();
    let indexed = IndexedConsignment::new(&t);
    for op in [40u8, 41, 42] {
        let w = indexed.op_witness_id(id(op)).expect("known operation");
        assert_eq!(witness_bytes(w), (false, id(130)));
    }
    let w = indexed.op_witness_id(id(45)).expect("known operation");
    assert_eq!(witness_bytes(w), (true, id(120)));
}

#[test]
fn index_knows_no_other_operation() {
    let t = transfer();
    let indexed = IndexedConsignment::new(&t);
    assert!(indexed.op_witness_id(id(1)).is_none()); // the genesis
    assert!(indexed.op_witness_id(id(60)).is_none()); // an extension
    assert!(indexed.op_witness_id(id(30)).is_none()); // a bundle
    assert!(indexed.op_witness_id(id(99)).is_none());
    assert!(indexed.op_witness_id([0; 32]).is_none());
}

#[test]
fn index_of_empty_consignment_is_empty() {
    let mut t = transfer();
    t.bundles.clear();
    let indexed = IndexedConsignment::new(&t);
    assert_eq!(indexed.indexed_operations(), 0);
    assert!(indexed.op_witness_id(id(40)).is_none());
}

#[test]
fn operation_known_to_two_bundles_goes_with_the_later() {
    let mut t = transfer();
    t.bundles.push(bundle(21, true, &[40]));
    let indexed = IndexedConsignment::new(&t);
    assert_eq!(indexed.indexed_operations(), 4);
    let w = indexed.op_witness_id(id(40)).unwrap();
    assert_eq!(witness_bytes(w), (true, id(121)));
}

#[test]
fn operation_finds_the_genesis() {
    let t = transfer();
    let indexed = IndexedConsignment::new(&t);
    match indexed.operation(id(1)) {
        Some(OpRef::Genesis(g)) => {
            assert_eq!(g.id, id(1));
            assert_eq!(g.disclose_hash, id(2));
        }
        _ => panic!("genesis expected"),
    }
}

#[test]
fn operation_prefers_the_genesis() {
    let mut t = transfer();
    t.bundles[0].bundle.known_transitions.push(Transition { id: id(1) });
    t.extensions.push(Extension { id: id(1), disclose_hash: id(3) });
    let indexed = IndexedConsignment::new(&t);
    assert!(matches!(indexed.operation(id(1)), Some(OpRef::Genesis(_))));
}

#[test]
fn operation_finds_transitions() {
    let t = transfer();
    let indexed = IndexedConsignment::new(&t);
    for op in [40u8, 41, 42, 45] {
        match indexed.operation(id(op)) {
            Some(OpRef::Transition(tr)) => assert_eq!(tr.id, id(op)),
            _ => panic!("transition expected"),
        }
    }
}

#[test]
fn operation_finds_extensions() {
    let t = transfer();
    let indexed = IndexedConsignment::new(&t);
    match indexed.operation(id(61)) {
        Some(OpRef::Extension(e)) => {
            assert_eq!(e.id, id(61));
            assert_eq!(e.disclose_hash, id(59));
        }
        _ => panic!("extension expected"),
    }
}

#[test]
fn operation_prefers_a_transition_to_an_extension() {
    let mut t = transfer();
    t.extensions.push(Extension { id: id(45), disclose_hash: id(3) });
    let indexed = IndexedConsignment::new(&t);
    assert!(matches!(indexed.operation(id(45)), Some(OpRef::Transition(_))));
}

#[test]
fn operation_of_unrelated_id_is_absent() {
    let t = transfer();
    let indexed = IndexedConsignment::new(&t);
    assert!(indexed.operation(id(99)).is_none());
    assert!(indexed.operation(id(30)).is_none());
    assert!(indexed.operation([0; 32]).is_none());
}

#[test]
fn consignment_lookups() {
    let t = transfer();
    assert_eq!(t.transition(&id(41)).map(|tr| tr.id), Some(id(41)));
    assert!(t.transition(&id(60)).is_none());
    assert_eq!(t.extension(&id(60)).map(|e| e.disclose_hash), Some(id(62)));
    assert!(t.extension(&id(41)).is_none());
    assert_eq!(t.anchored_bundle(&id(20)).map(|ab| ab.bundle.disclose_hash), Some(id(70)));
    assert!(t.anchored_bundle(&id(40)).is_none());
    assert_eq!(t.contract_id(), id(1));
}

#[test]
fn terminals_are_concealed_and_canonical() {
    let t = transfer();
    let indexed = IndexedConsignment::new(&t);
    let revealed =
        TerminalSeal::WitnessVout(VoutSeal { method: CloseMethod::TapretFirst, vout: 1, blinding: 77 });
    let concealed = revealed.conceal();
    let mut bitcoin_seals = vec![id(71), concealed];
    bitcoin_seals.sort();

    let got: Vec<([u8; 32], bool, [u8; 32])> = indexed
        .terminals()
        .into_iter()
        .map(|(bundle_id, seal)| {
            let (liquid, secret) = witness_bytes(seal);
            (bundle_id, liquid, secret)
        })
        .collect();
    let expected = vec![
        (id(20), false, id(72)),
        (id(30), false, bitcoin_seals[0]),
        (id(30), false, bitcoin_seals[1]),
        (id(30), true, id(70)),
    ];
    assert_eq!(got, expected);
}

#[test]
fn terminals_never_show_a_revealed_seal() {
    let mut t = transfer();
    t.terminals = vec![Terminal {
        bundle_id: id(5),
        seals: (0..20u32)
            .map(|vout| {
                XChain::Bitcoin(TerminalSeal::WitnessVout(VoutSeal {
                    method: CloseMethod::OpretFirst,
                    vout,
                    blinding: 1000 + vout as u64,
                }))
            })
            .collect(),
    }];
    let indexed = IndexedConsignment::new(&t);
    let shown = indexed.terminals();
    assert_eq!(shown.len(), 20);
    for seal in t.terminals[0].seals.iter() {
        let concealed = seal.conceal();
        let (_, secret) = witness_bytes(concealed);
        assert!(shown.iter().any(|(b, s)| *b == id(5) && witness_bytes(*s) == (false, secret)));
    }
}

#[test]
fn consignment_discloses_the_same_terminals() {
    let t = transfer();
    let indexed = IndexedConsignment::new(&t);
    assert_eq!(t.terminals_disclose(), indexed.terminals());
    assert_eq!(t.terminals_disclose().len(), 4);
}

#[test]
fn terminals_hold_each_pair_once() {
    let mut t = transfer();
    t.terminals = vec![
        Terminal { bundle_id: id(5), seals: vec![XChain::Bitcoin(TerminalSeal::ConcealedUtxo(id(9)))] },
        Terminal {
            bundle_id: id(5),
            seals: vec![
                XChain::Bitcoin(TerminalSeal::ConcealedUtxo(id(9))),
                XChain::Liquid(TerminalSeal::ConcealedUtxo(id(9))),
            ],
        },
    ];
    let indexed = IndexedConsignment::new(&t);
    assert_eq!(indexed.terminals().len(), 2);
    t.terminals.clear();
    let indexed = IndexedConsignment::new(&t);
    assert!(indexed.terminals().is_empty());
}

#[test]
fn bundle_ids_come_once_each_in_order() {
    let t = transfer();
    let indexed = IndexedConsignment::new(&t);
    let mut iter = indexed.bundle_ids();
    assert_eq!(iter.next(), Some(id(30)));
    assert_eq!(iter.next(), Some(id(20)));
    assert_eq!(iter.next(), Some(id(25)));
    assert_eq!(iter.next(), None);
}

#[test]
fn bundle_ids_stay_exhausted() {
    let t = transfer();
    let indexed = IndexedConsignment::new(&t);
    let mut iter = indexed.bundle_ids();
    while iter.next().is_some() {}
    for _ in 0..5 {
        assert_eq!(iter.next(), None);
    }
    let mut again = indexed.bundle_ids();
    assert_eq!(again.next(), Some(id(30)));
}

#[test]
fn bundle_ids_of_no_bundles() {
    let mut t = transfer();
    t.bundles.clear();
    let indexed = IndexedConsignment::new(&t);
    assert_eq!(indexed.bundle_ids().next(), None);
}

#[test]
fn anchored_bundle_outlives_the_adapter() {
    let t = transfer();
    let handle: Rc<AnchoredBundle> = {
        let indexed = IndexedConsignment::new(&t);
        indexed.anchored_bundle(id(30)).expect("bundle is there")
    };
    assert_eq!(handle.bundle.id, id(30));
    assert_eq!(handle.bundle.disclose_hash, id(80));
    assert_eq!(witness_bytes(handle.witness_id), (false, id(130)));
    let ops: Vec<[u8; 32]> = handle.bundle.known_transitions.iter().map(|tr| tr.id).collect();
    assert_eq!(ops, vec![id(42), id(40), id(41)]);
}

#[test]
fn anchored_bundle_of_unknown_id_is_absent() {
    let t = transfer();
    let indexed = IndexedConsignment::new(&t);
    assert!(indexed.anchored_bundle(id(40)).is_none());
    assert!(indexed.anchored_bundle(id(1)).is_none());
}

#[test]
fn copy_of_bundle_holds_the_same() {
    let b = bundle(7, true, &[1, 2, 3]);
    let c = copy_bundle(&b);
    assert_eq!(c.bundle.id, b.bundle.id);
    assert_eq!(c.bundle.disclose_hash, b.bundle.disclose_hash);
    assert_eq!(witness_bytes(c.witness_id), witness_bytes(b.witness_id));
    assert_eq!(c.bundle.known_transitions.len(), 3);
    assert_eq!(c.bundle.known_transitions[2].id, id(3));
}

#[test]
fn adapter_hands_out_what_the_consignment_holds() {
    let t = transfer();
    let indexed = IndexedConsignment::new(&t);
    assert_eq!(indexed.schema().id, id(250));
    assert_eq!(indexed.genesis().id, id(1));
    assert_eq!(indexed.asset_tags().len(), 1);
    assert_eq!(indexed.asset_tags()[0].assignment_type, 4000);
    assert_eq!(indexed.asset_tags()[0].tag, id(90));
    assert!(std::ptr::eq(indexed.deref(), &t));
    assert!(std::ptr::eq(indexed.schema(), &t.schema));
}

#[test]
fn adapter_resolves_no_programs_or_type_systems() {
    let t = transfer();
    let indexed = IndexedConsignment::new(&t);
    assert_eq!(indexed.program(&vec![]), Ok(()));
    assert_eq!(indexed.program(&vec![id(3), id(4)]), Err(id(3)));
    assert!(indexed.type_system(id(3)).is_none());
}
