//! The dimensions of transactions and events, and their keys.

use std::collections::HashSet;

use sui_kvstore::dimensions::emit_module_value;
use sui_kvstore::dimensions::encode_dimension_key;
use sui_kvstore::dimensions::event_type_value;
use sui_kvstore::dimensions::extract_event_dimensions;
use sui_kvstore::dimensions::extract_transaction_dimensions;
use sui_kvstore::dimensions::move_call_value;
use sui_kvstore::dimensions::Event;
use sui_kvstore::dimensions::ExecutedTransaction;
use sui_kvstore::dimensions::IndexDimension;
use sui_kvstore::dimensions::MoveCall;
use sui_kvstore::dimensions::Owner;
use sui_kvstore::dimensions::StructTag;

#[test]
fn test_dimension_tags_are_unique() {
    let tags = [
        IndexDimension::Sender,
        IndexDimension::Recipient,
        IndexDimension::AffectedObject,
        IndexDimension::MoveCall,
        IndexDimension::EmitModule,
        IndexDimension::EventType,
    ];
    let tag_bytes: HashSet<u8> = tags.iter().map(|t| t.tag_byte()).collect();
    assert_eq!(
        tag_bytes.len(),
        tags.len(),
        "all dimension tags must be unique"
    );
}

#[test]
fn dimension_tags_have_their_values() {
    assert_eq!(IndexDimension::Sender.tag_byte(), 0x01);
    assert_eq!(IndexDimension::Recipient.tag_byte(), 0x02);
    assert_eq!(IndexDimension::AffectedObject.tag_byte(), 0x03);
    assert_eq!(IndexDimension::MoveCall.tag_byte(), 0x04);
    assert_eq!(IndexDimension::EmitModule.tag_byte(), 0x05);
    assert_eq!(IndexDimension::EventType.tag_byte(), 0x06);
}

#[test]
fn test_encode_dimension_key_format() {
    let value = b"hello";
    let key = encode_dimension_key(IndexDimension::EmitModule, value);
    assert_eq!(key[0], 0x05);
    assert_eq!(&key[1..], b"hello");
}

#[test]
fn test_encode_dimension_key_no_collision() {
    let value = vec![0x42; 32];
    let key1 = encode_dimension_key(IndexDimension::Sender, &value);
    let key2 = encode_dimension_key(IndexDimension::Recipient, &value);
    assert_ne!(key1, key2);
}

#[test]
fn test_move_call_compound_key_hierarchy() {
    let pkg = [0xAA; 32];

    let pkg_only = move_call_value(&pkg, None, None);
    let pkg_mod = move_call_value(&pkg, Some("coin"), None);
    let pkg_mod_func = move_call_value(&pkg, Some("coin"), Some("transfer"));

    // Package-level is just the 32-byte address
    assert_eq!(pkg_only.len(), 32);
    // Module-level extends with module bytes
    assert_eq!(pkg_mod.len(), 32 + 4);
    // Function-level adds \x00 separator + function bytes
    assert_eq!(pkg_mod_func.len(), 32 + 4 + 1 + 8);
    assert_eq!(pkg_mod_func[36], 0x00);

    // Each level is a strict prefix of the next
    assert!(pkg_mod.starts_with(&pkg_only));
    assert!(pkg_mod_func.starts_with(&pkg_mod[..36]));
}

#[test]
fn test_move_call_no_collision_across_modules() {
    let pkg = [0xBB; 32];
    // "ab" + function "cd" vs "a" + function "bcd"
    let key1 = move_call_value(&pkg, Some("ab"), Some("cd"));
    let key2 = move_call_value(&pkg, Some("a"), Some("bcd"));
    assert_ne!(key1, key2);
}

#[test]
fn a_function_without_a_module_does_not_count() {
    let pkg = [0xBB; 32];
    assert_eq!(move_call_value(&pkg, None, Some("cd")), pkg.to_vec());
}

#[test]
fn test_event_type_compound_key_hierarchy() {
    let addr = [0xCC; 32];

    let addr_only = event_type_value(&addr, None, None, None);
    let addr_mod = event_type_value(&addr, Some("coin"), None, None);
    let addr_mod_name = event_type_value(&addr, Some("coin"), Some("CoinEvent"), None);
    let bcs_params = vec![0x01, 0x02, 0x03];
    let addr_full = event_type_value(&addr, Some("coin"), Some("CoinEvent"), Some(&bcs_params));

    assert_eq!(addr_only.len(), 32);
    assert_eq!(addr_mod.len(), 32 + 4);
    assert_eq!(addr_mod_name.len(), 32 + 4 + 1 + 9);
    assert_eq!(addr_full.len(), 32 + 4 + 1 + 9 + 1 + 3);

    // Separators at the right positions
    assert_eq!(addr_mod_name[36], 0x00); // between module and name
    assert_eq!(addr_full[46], 0x00); // between name and instantiation
}

#[test]
fn event_type_levels_are_prefixes() {
    let addr = [0xCC; 32];
    let levels = [
        event_type_value(&addr, None, None, None),
        event_type_value(&addr, Some("coin"), None, None),
        event_type_value(&addr, Some("coin"), Some("CoinEvent"), None),
        event_type_value(&addr, Some("coin"), Some("CoinEvent"), Some(&[7, 7])),
    ];
    for pair in levels.windows(2) {
        assert!(pair[1].starts_with(&pair[0]));
        assert!(pair[1].len() > pair[0].len());
    }
    // A zero byte in the instantiation does not make it another name.
    assert_ne!(
        event_type_value(&addr, Some("m"), Some("n"), Some(&[0x00, 0x01])),
        event_type_value(&addr, Some("m"), Some("nx"), Some(&[0x01])),
    );
}

#[test]
fn test_emit_module_compound_key() {
    let pkg = [0xDD; 32];

    let pkg_only = emit_module_value(&pkg, None);
    let pkg_mod = emit_module_value(&pkg, Some("transfer"));

    assert_eq!(pkg_only.len(), 32);
    assert_eq!(pkg_mod.len(), 32 + 8);
    assert!(pkg_mod.starts_with(&pkg_only));
}

fn event(name: &str, params: Option<Vec<u8>>) -> Event {
    Event {
        package_id: [0x10; 32],
        transaction_module: "emitter".to_string(),
        type_: StructTag {
            address: [0x20; 32],
            module: "types".to_string(),
            name: name.to_string(),
            type_params_bcs: params,
        },
    }
}

fn transaction() -> ExecutedTransaction {
    ExecutedTransaction {
        sender: [0x01; 32],
        changed_object_owners: vec![
            Owner::AddressOwner([0x02; 32]),
            Owner::Other,
            Owner::ConsensusAddressOwner { owner: [0x03; 32] },
        ],
        changed_object_ids: vec![[0x04; 32], [0x05; 32]],
        move_calls: vec![MoveCall {
            package: [0x06; 32],
            module: "coin".to_string(),
            function: "join".to_string(),
        }],
        events: vec![event("Plain", None), event("Generic", Some(vec![0x09]))],
    }
}

fn cat(parts: &[&[u8]]) -> Vec<u8> {
    parts.concat()
}

#[test]
fn transaction_dimensions_come_in_order() {
    let dims = extract_transaction_dimensions(&transaction());
    let pkg = [0x06u8; 32];
    let emitter = [0x10u8; 32];
    let address = [0x20u8; 32];
    let expected = vec![
        (IndexDimension::Sender, vec![0x01; 32]),
        (IndexDimension::Recipient, vec![0x02; 32]),
        (IndexDimension::Recipient, vec![0x03; 32]),
        (IndexDimension::AffectedObject, vec![0x04; 32]),
        (IndexDimension::AffectedObject, vec![0x05; 32]),
        (IndexDimension::MoveCall, pkg.to_vec()),
        (IndexDimension::MoveCall, cat(&[&pkg, b"coin"])),
        (IndexDimension::MoveCall, cat(&[&pkg, b"coin\x00join"])),
        (IndexDimension::EmitModule, emitter.to_vec()),
        (IndexDimension::EmitModule, cat(&[&emitter, b"emitter"])),
        (IndexDimension::EventType, address.to_vec()),
        (IndexDimension::EventType, cat(&[&address, b"types"])),
        (IndexDimension::EventType, cat(&[&address, b"types\x00Plain"])),
        (IndexDimension::EmitModule, emitter.to_vec()),
        (IndexDimension::EmitModule, cat(&[&emitter, b"emitter"])),
        (IndexDimension::EventType, address.to_vec()),
        (IndexDimension::EventType, cat(&[&address, b"types"])),
        (IndexDimension::EventType, cat(&[&address, b"types\x00Generic"])),
        (IndexDimension::EventType, cat(&[&address, b"types\x00Generic\x00\x09"])),
    ];
    assert_eq!(dims, expected);
}

#[test]
fn events_inherit_the_sender_and_carry_their_index() {
    let tx = transaction();
    let dims = extract_event_dimensions(&tx);
    // Six entries for the plain event, one more for the generic one.
    assert_eq!(dims.len(), 6 + 7);
    assert_eq!(dims[0], (IndexDimension::Sender, vec![0x01; 32], 0));
    assert_eq!(dims[6], (IndexDimension::Sender, vec![0x01; 32], 1));
    assert!(dims[..6].iter().all(|dim| dim.2 == 0));
    assert!(dims[6..].iter().all(|dim| dim.2 == 1));

    // Each is a dimension of the transaction too.
    let all = extract_transaction_dimensions(&tx);
    for (dim, value, _) in dims {
        assert!(all.contains(&(dim, value)));
    }
}

#[test]
fn a_transaction_without_events_has_no_event_dimensions() {
    let mut tx = transaction();
    tx.events.clear();
    assert!(extract_event_dimensions(&tx).is_empty());
}
