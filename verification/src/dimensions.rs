//! The dimensions by which transactions and events can be looked up.
//!
//! A dimension value becomes part of a row key: one tag byte, then the value's
//! bytes. Compound dimensions have hierarchical values, of which each prefix level
//! is a value of its own, so that a query at any level is a single lookup. The
//! 32 bytes of an address or package come first and need no separator; a zero byte
//! separates the components of variable length that follow. That is safe because
//! Move identifiers hold no zero byte.

use vstd::prelude::*;

use crate::row_map;

verus! {

/// A dimension of the inverted index. Each has a tag of its own, so no two can
/// produce the same row key.
#[derive(Clone, Copy, Debug, PartialEq, Eq, Hash, Structural)]
pub enum IndexDimension {
    Sender,
    Recipient,
    AffectedObject,
    /// Compound: `[package_32]` | `[package_32][module]` | `[package_32][module\x00function]`
    MoveCall,
    /// Compound: `[package_id_32]` | `[package_id_32][module]`
    EmitModule,
    /// Compound: `[type_address_32]` | `[..][module]` | `[..\x00name]` | `[..\x00name\x00instantiation_bcs]`
    EventType,
}

/// The tag of a dimension.
pub open spec fn tag_of(dim: IndexDimension) -> u8 {
    match dim {
        IndexDimension::Sender => 0x01,
        IndexDimension::Recipient => 0x02,
        IndexDimension::AffectedObject => 0x03,
        IndexDimension::MoveCall => 0x04,
        IndexDimension::EmitModule => 0x05,
        IndexDimension::EventType => 0x06,
    }
}

impl IndexDimension {
    /// The tag of the dimension.
    pub fn tag_byte(self) -> (tag: u8)
        ensures
            tag == tag_of(self),
    {
        match self {
            IndexDimension::Sender => 0x01,
            IndexDimension::Recipient => 0x02,
            IndexDimension::AffectedObject => 0x03,
            IndexDimension::MoveCall => 0x04,
            IndexDimension::EmitModule => 0x05,
            IndexDimension::EventType => 0x06,
        }
    }
}

/// The key of a dimension value: the tag, then the value.
pub open spec fn dimension_key(dim: IndexDimension, value: Seq<u8>) -> Seq<u8> {
    seq![tag_of(dim)] + value
}

/// Encode a dimension value into a component of a row key.
pub fn encode_dimension_key(dim: IndexDimension, value: &[u8]) -> (key: Vec<u8>)
    ensures
        key@ == dimension_key(dim, value@),
{
    let mut key: Vec<u8> = Vec::new();
    key.push(dim.tag_byte());
    append(&mut key, value);
    key
}

/// Put more bytes at the end.
fn append(bytes: &mut Vec<u8>, more: &[u8])
    ensures
        final(bytes)@ == old(bytes)@ + more@,
{
    bytes.extend_from_slice(more);
    assert(bytes@ =~= old(bytes)@ + more@);
}

/// The bytes of a text.
pub open spec fn text(s: Seq<char>) -> Seq<u8> {
    vstd::utf8::encode_utf8(s)
}

/// The bytes of a text that may be absent.
pub open spec fn optional_text(s: Option<&str>) -> Option<Seq<u8>> {
    match s {
        Some(s) => Some(text(s@)),
        None => None,
    }
}

/// A Move call at the desired specificity. A function counts only with a module.
pub open spec fn move_call(package: Seq<u8>, module: Option<Seq<u8>>, function: Option<Seq<u8>>) -> Seq<u8> {
    match (module, function) {
        (None, _) => package,
        (Some(module), None) => package + module,
        (Some(module), Some(function)) => package + module + seq![0u8] + function,
    }
}

/// Build a MoveCall compound value at the desired specificity.
pub fn move_call_value(package: &[u8], module: Option<&str>, function: Option<&str>) -> (value: Vec<u8>)
    ensures
        value@ == move_call(package@, optional_text(module), optional_text(function)),
{
    let mut value: Vec<u8> = row_map::copy_bytes(package);
    if let Some(module) = module {
        append(&mut value, module.as_bytes());
        if let Some(function) = function {
            value.push(0x00);
            append(&mut value, function.as_bytes());
            assert(value@ =~= package@ + text(module@) + seq![0u8] + text(function@));
        }
    }
    value
}

/// An emitting module at the desired specificity.
pub open spec fn emit_module(package_id: Seq<u8>, module: Option<Seq<u8>>) -> Seq<u8> {
    match module {
        None => package_id,
        Some(module) => package_id + module,
    }
}

/// Build an EmitModule compound value at the desired specificity.
pub fn emit_module_value(package_id: &[u8], module: Option<&str>) -> (value: Vec<u8>)
    ensures
        value@ == emit_module(package_id@, optional_text(module)),
{
    let mut value: Vec<u8> = row_map::copy_bytes(package_id);
    if let Some(module) = module {
        append(&mut value, module.as_bytes());
    }
    value
}

/// An event type at the desired specificity. Each part counts only with the one
/// before it.
pub open spec fn event_type(
    type_address: Seq<u8>,
    module: Option<Seq<u8>>,
    name: Option<Seq<u8>>,
    instantiation_bcs: Option<Seq<u8>>,
) -> Seq<u8> {
    match (module, name, instantiation_bcs) {
        (None, _, _) => type_address,
        (Some(module), None, _) => type_address + module,
        (Some(module), Some(name), None) => type_address + module + seq![0u8] + name,
        (Some(module), Some(name), Some(bcs)) => type_address + module + seq![0u8] + name + seq![0u8] + bcs,
    }
}

/// The contents of a byte string that may be absent.
pub open spec fn optional_bytes(bytes: Option<&[u8]>) -> Option<Seq<u8>> {
    match bytes {
        Some(bytes) => Some(bytes@),
        None => None,
    }
}

/// Build an EventType compound value at the desired specificity.
/// `instantiation_bcs` is the BCS encoding of the list of type parameters, used only
/// for a fully instantiated generic type.
pub fn event_type_value(
    type_address: &[u8],
    module: Option<&str>,
    name: Option<&str>,
    instantiation_bcs: Option<&[u8]>,
) -> (value: Vec<u8>)
    ensures
        value@ == event_type(
            type_address@,
            optional_text(module),
            optional_text(name),
            optional_bytes(instantiation_bcs),
        ),
{
    let mut value: Vec<u8> = row_map::copy_bytes(type_address);
    if let Some(module) = module {
        append(&mut value, module.as_bytes());
        if let Some(name) = name {
            value.push(0x00);
            append(&mut value, name.as_bytes());
            assert(value@ =~= type_address@ + text(module@) + seq![0u8] + text(name@));
            if let Some(bcs) = instantiation_bcs {
                value.push(0x00);
                append(&mut value, bcs);
                assert(value@ =~= type_address@ + text(module@) + seq![0u8] + text(name@) + seq![0u8]
                    + bcs@);
            }
        }
    }
    value
}

/// Who owns an object.
pub enum Owner {
    AddressOwner([u8; 32]),
    ConsensusAddressOwner { owner: [u8; 32] },
    /// An owner without an address: another object, everyone, or no one.
    Other,
}

/// A call of a Move function.
pub struct MoveCall {
    pub package: [u8; 32],
    pub module: String,
    pub function: String,
}

/// The type of an event.
pub struct StructTag {
    pub address: [u8; 32],
    pub module: String,
    pub name: String,
    /// The BCS encoding of the list of type parameters; absent where there are none.
    pub type_params_bcs: Option<Vec<u8>>,
}

/// An event, without its payload.
pub struct Event {
    pub package_id: [u8; 32],
    pub transaction_module: String,
    pub type_: StructTag,
}

/// What the index reads of an executed transaction.
pub struct ExecutedTransaction {
    pub sender: [u8; 32],
    /// The owners of the objects that the transaction wrote.
    pub changed_object_owners: Vec<Owner>,
    /// The ids of the objects that the transaction touched.
    pub changed_object_ids: Vec<[u8; 32]>,
    pub move_calls: Vec<MoveCall>,
    pub events: Vec<Event>,
}

/// A dimension and a value in it.
pub type Dimension = (IndexDimension, Seq<u8>);

/// The dimensions of a list, with the contents of their values.
pub open spec fn dimension_views(dims: Seq<(IndexDimension, Vec<u8>)>) -> Seq<Dimension> {
    dims.map_values(|dim: (IndexDimension, Vec<u8>)| (dim.0, dim.1@))
}

/// The address of an owner, as a recipient.
pub open spec fn recipient(owner: Owner) -> Seq<Dimension> {
    match owner {
        Owner::AddressOwner(address) => seq![(IndexDimension::Recipient, address@)],
        Owner::ConsensusAddressOwner { owner } => seq![(IndexDimension::Recipient, owner@)],
        Owner::Other => seq![],
    }
}

/// An object, as affected.
pub open spec fn affected(id: [u8; 32]) -> Dimension {
    (IndexDimension::AffectedObject, id@)
}

/// A Move call at each level: package, module, function.
pub open spec fn move_call_levels(call: MoveCall) -> Seq<Dimension> {
    let package = call.package@;
    let module = Some(text(call.module@));
    let function = Some(text(call.function@));
    seq![
        (IndexDimension::MoveCall, move_call(package, None, None)),
        (IndexDimension::MoveCall, move_call(package, module, None)),
        (IndexDimension::MoveCall, move_call(package, module, function)),
    ]
}

/// An event at each level of its emitting module and of its type.
pub open spec fn event_levels(event: Event) -> Seq<Dimension> {
    let package = event.package_id@;
    let address = event.type_.address@;
    let module = Some(text(event.type_.module@));
    let name = Some(text(event.type_.name@));
    let levels = seq![
        (IndexDimension::EmitModule, emit_module(package, None)),
        (IndexDimension::EmitModule, emit_module(package, Some(text(event.transaction_module@)))),
        (IndexDimension::EventType, event_type(address, None, None, None)),
        (IndexDimension::EventType, event_type(address, module, None, None)),
        (IndexDimension::EventType, event_type(address, module, name, None)),
    ];
    match event.type_.type_params_bcs {
        None => levels,
        Some(bcs) => levels.push((IndexDimension::EventType, event_type(address, module, name, Some(bcs@)))),
    }
}

/// Every dimension of a transaction: its sender, its recipients, the objects that
/// it affected, its Move calls and its events.
pub open spec fn transaction_dimensions(tx: ExecutedTransaction) -> Seq<Dimension> {
    seq![(IndexDimension::Sender, tx.sender@)] + tx.changed_object_owners@.flat_map(|owner: Owner| recipient(owner))
        + tx.changed_object_ids@.map_values(|id: [u8; 32]| affected(id)) + tx.move_calls@.flat_map(
        |call: MoveCall| move_call_levels(call),
    ) + tx.events@.flat_map(|event: Event| event_levels(event))
}

/// A dimension, a value in it, and the index of the event that has it.
pub type EventDimension = (IndexDimension, Seq<u8>, u32);

/// The event dimensions of a list, with the contents of their values.
pub open spec fn event_dimension_views(dims: Seq<(IndexDimension, Vec<u8>, u32)>) -> Seq<EventDimension> {
    dims.map_values(|dim: (IndexDimension, Vec<u8>, u32)| (dim.0, dim.1@, dim.2))
}

/// Dimensions, as those of the event at an index.
pub open spec fn of_event(dims: Seq<Dimension>, event_idx: u32) -> Seq<EventDimension> {
    dims.map_values(|dim: Dimension| (dim.0, dim.1, event_idx))
}

/// Every dimension of each event in turn: the sender of its transaction, and the
/// event's own levels.
pub open spec fn event_dimensions(sender: Seq<u8>, events: Seq<Event>) -> Seq<EventDimension>
    decreases events.len(),
{
    if events.len() == 0 {
        seq![]
    } else {
        event_dimensions(sender, events.drop_last()) + of_event(
            seq![(IndexDimension::Sender, sender)] + event_levels(events.last()),
            (events.len() - 1) as u32,
        )
    }
}

/// Move all of `more` to the end of `dims`.
fn append_dimensions(
    dims: &mut Vec<(IndexDimension, Vec<u8>)>,
    more: Vec<(IndexDimension, Vec<u8>)>,
)
    ensures
        dimension_views(final(dims)@) == dimension_views(old(dims)@) + dimension_views(more@),
{
    let ghost added = more@;
    let mut more = more;
    dims.append(&mut more);
    assert(dimension_views(dims@) =~= dimension_views(old(dims)@) + dimension_views(added));
}

/// A Move call at each level.
fn extract_move_call(call: &MoveCall) -> (dims: Vec<(IndexDimension, Vec<u8>)>)
    ensures
        dimension_views(dims@) == move_call_levels(*call),
{
    let package = call.package.as_slice();
    let module = call.module.as_str();
    let function = call.function.as_str();
    let mut dims: Vec<(IndexDimension, Vec<u8>)> = Vec::new();
    dims.push((IndexDimension::MoveCall, move_call_value(package, None, None)));
    dims.push((IndexDimension::MoveCall, move_call_value(package, Some(module), None)));
    dims.push((IndexDimension::MoveCall, move_call_value(package, Some(module), Some(function))));
    assert(dimension_views(dims@) =~= move_call_levels(*call));
    dims
}

/// An event at each level.
fn extract_event(event: &Event) -> (dims: Vec<(IndexDimension, Vec<u8>)>)
    ensures
        dimension_views(dims@) == event_levels(*event),
{
    let package = event.package_id.as_slice();
    let address = event.type_.address.as_slice();
    let emit_module = event.transaction_module.as_str();
    let module = event.type_.module.as_str();
    let name = event.type_.name.as_str();
    let mut dims: Vec<(IndexDimension, Vec<u8>)> = Vec::new();
    dims.push((IndexDimension::EmitModule, emit_module_value(package, None)));
    dims.push((IndexDimension::EmitModule, emit_module_value(package, Some(emit_module))));
    dims.push((IndexDimension::EventType, event_type_value(address, None, None, None)));
    dims.push((IndexDimension::EventType, event_type_value(address, Some(module), None, None)));
    dims.push((IndexDimension::EventType, event_type_value(address, Some(module), Some(name), None)));
    if let Some(bcs) = &event.type_.type_params_bcs {
        let value = event_type_value(address, Some(module), Some(name), Some(bcs.as_slice()));
        dims.push((IndexDimension::EventType, value));
    }
    assert(dimension_views(dims@) =~= event_levels(*event));
    dims
}

/// Extract every dimension of a transaction, at every prefix level.
pub fn extract_transaction_dimensions(tx: &ExecutedTransaction) -> (dims: Vec<(IndexDimension, Vec<u8>)>)
    ensures
        dimension_views(dims@) == transaction_dimensions(*tx),
{
    let mut dims: Vec<(IndexDimension, Vec<u8>)> = Vec::new();
    dims.push((IndexDimension::Sender, row_map::copy_bytes(tx.sender.as_slice())));
    let ghost sender = seq![(IndexDimension::Sender, tx.sender@)];
    assert(dimension_views(dims@) =~= sender);

    let ghost owners = tx.changed_object_owners@;
    let ghost to_recipient = |owner: Owner| recipient(owner);
    let mut i: usize = 0;
    assert(sender =~= sender + owners.take(0).flat_map(to_recipient));
    while i < tx.changed_object_owners.len()
        invariant
            i <= tx.changed_object_owners.len(),
            owners == tx.changed_object_owners@,
            to_recipient == (|owner: Owner| recipient(owner)),
            dimension_views(dims@) == sender + owners.take(i as int).flat_map(to_recipient),
        decreases tx.changed_object_owners.len() - i,
    {
        let ghost before = dimension_views(dims@);
        match &tx.changed_object_owners[i] {
            Owner::AddressOwner(address) => {
                dims.push((IndexDimension::Recipient, row_map::copy_bytes(address.as_slice())));
            },
            Owner::ConsensusAddressOwner { owner } => {
                dims.push((IndexDimension::Recipient, row_map::copy_bytes(owner.as_slice())));
            },
            Owner::Other => {},
        }
        proof {
            assert(dimension_views(dims@) =~= before + recipient(owners[i as int]));
            owners.lemma_flat_map_take_append(to_recipient, i as int);
        }
        i = i + 1;
    }
    let ghost recipients = owners.flat_map(to_recipient);
    assert(owners.take(i as int) =~= owners);

    let ghost ids = tx.changed_object_ids@;
    let ghost to_affected = |id: [u8; 32]| affected(id);
    let mut i: usize = 0;
    assert(sender + recipients =~= sender + recipients + ids.take(0).map_values(to_affected));
    while i < tx.changed_object_ids.len()
        invariant
            i <= tx.changed_object_ids.len(),
            ids == tx.changed_object_ids@,
            to_affected == (|id: [u8; 32]| affected(id)),
            dimension_views(dims@) == sender + recipients + ids.take(i as int).map_values(to_affected),
        decreases tx.changed_object_ids.len() - i,
    {
        let ghost before = dimension_views(dims@);
        dims.push((IndexDimension::AffectedObject, row_map::copy_bytes(tx.changed_object_ids[i].as_slice())));
        proof {
            assert(dimension_views(dims@) =~= before.push(affected(ids[i as int])));
            assert(ids.take(i + 1).map_values(to_affected) =~= ids.take(i as int).map_values(to_affected).push(
                affected(ids[i as int]),
            ));
            assert(dimension_views(dims@) =~= sender + recipients + ids.take(i + 1).map_values(to_affected));
        }
        i = i + 1;
    }
    let ghost objects = sender + recipients + ids.map_values(to_affected);
    assert(ids.take(i as int) =~= ids);

    let ghost calls = tx.move_calls@;
    let ghost to_calls = |call: MoveCall| move_call_levels(call);
    let mut i: usize = 0;
    assert(objects =~= objects + calls.take(0).flat_map(to_calls));
    while i < tx.move_calls.len()
        invariant
            i <= tx.move_calls.len(),
            calls == tx.move_calls@,
            to_calls == (|call: MoveCall| move_call_levels(call)),
            dimension_views(dims@) == objects + calls.take(i as int).flat_map(to_calls),
        decreases tx.move_calls.len() - i,
    {
        append_dimensions(&mut dims, extract_move_call(&tx.move_calls[i]));
        proof {
            calls.lemma_flat_map_take_append(to_calls, i as int);
            assert(dimension_views(dims@) =~= objects + calls.take(i + 1).flat_map(to_calls));
        }
        i = i + 1;
    }
    let ghost called = objects + calls.flat_map(to_calls);
    assert(calls.take(i as int) =~= calls);

    let ghost events = tx.events@;
    let ghost to_levels = |event: Event| event_levels(event);
    let mut i: usize = 0;
    assert(called =~= called + events.take(0).flat_map(to_levels));
    while i < tx.events.len()
        invariant
            i <= tx.events.len(),
            events == tx.events@,
            to_levels == (|event: Event| event_levels(event)),
            dimension_views(dims@) == called + events.take(i as int).flat_map(to_levels),
        decreases tx.events.len() - i,
    {
        append_dimensions(&mut dims, extract_event(&tx.events[i]));
        proof {
            events.lemma_flat_map_take_append(to_levels, i as int);
            assert(dimension_views(dims@) =~= called + events.take(i + 1).flat_map(to_levels));
        }
        i = i + 1;
    }
    assert(events.take(i as int) =~= events);
    dims
}

/// Extract the dimensions of each event of a transaction: one entry for each event
/// and prefix level. Each event inherits the transaction's sender, so that a filter
/// on both can be evaluated on events alone.
pub fn extract_event_dimensions(tx: &ExecutedTransaction) -> (dims: Vec<(IndexDimension, Vec<u8>, u32)>)
    ensures
        event_dimension_views(dims@) == event_dimensions(tx.sender@, tx.events@),
{
    let mut dims: Vec<(IndexDimension, Vec<u8>, u32)> = Vec::new();
    let ghost sender = tx.sender@;
    let ghost events = tx.events@;
    let mut idx: usize = 0;
    assert(event_dimension_views(dims@) =~= seq![]);
    while idx < tx.events.len()
        invariant
            idx <= tx.events.len(),
            sender == tx.sender@,
            events == tx.events@,
            event_dimension_views(dims@) == event_dimensions(sender, events.take(idx as int)),
        decreases tx.events.len() - idx,
    {
        let event_idx: u32 = idx as u32;
        let ghost before = event_dimension_views(dims@);
        dims.push((IndexDimension::Sender, row_map::copy_bytes(tx.sender.as_slice()), event_idx));
        let levels = extract_event(&tx.events[idx]);
        let ghost all = dimension_views(levels@);
        let ghost owned = seq![(IndexDimension::Sender, sender)];
        assert(event_dimension_views(dims@) =~= before + of_event(owned + all.take(0), event_idx));
        for level in walk: levels
            invariant
                all == dimension_views(walk.seq()),
                owned == seq![(IndexDimension::Sender, sender)],
                event_dimension_views(dims@) == before + of_event(owned + all.take(walk.index() as int), event_idx),
        {
            let ghost i = walk.index() as int;
            let ghost partial = event_dimension_views(dims@);
            let (dim, value) = level;
            dims.push((dim, value, event_idx));
            proof {
                assert(all[i] == (dim, value@));
                assert(event_dimension_views(dims@) =~= partial.push((dim, value@, event_idx)));
                assert(of_event(owned + all.take(i + 1), event_idx) =~= of_event(
                    owned + all.take(i),
                    event_idx,
                ).push((dim, value@, event_idx)));
                assert(event_dimension_views(dims@) =~= before + of_event(owned + all.take(i + 1), event_idx));
            }
        }
        proof {
            assert(all.take(all.len() as int) =~= all);
            assert(events.take(idx + 1).drop_last() =~= events.take(idx as int));
        }
        idx = idx + 1;
    }
    assert(events.take(idx as int) =~= events);
    dims
}

/// The bytes can be those of a Move identifier: at least one, and no zero byte.
pub open spec fn is_identifier(bytes: Seq<u8>) -> bool {
    bytes.len() > 0 && !bytes.contains(0u8)
}

proof fn lemma_first_zero(a: Seq<u8>, rest: Seq<u8>, b: Seq<u8>, other: Seq<u8>)
    requires
        !a.contains(0u8),
        !b.contains(0u8),
        a + seq![0u8] + rest == b + seq![0u8] + other,
    ensures
        a == b,
        rest == other,
{
    let left = a + seq![0u8] + rest;
    let right = b + seq![0u8] + other;
    if a.len() < b.len() {
        assert(left[a.len() as int] == 0);
        assert(right[a.len() as int] == b[a.len() as int]);
        assert(b.contains(0u8));
    }
    if b.len() < a.len() {
        assert(right[b.len() as int] == 0);
        assert(left[b.len() as int] == a[b.len() as int]);
        assert(a.contains(0u8));
    }
    assert(a =~= b) by {
        assert(left.take(a.len() as int) =~= a);
        assert(right.take(b.len() as int) =~= b);
    }
    assert(rest =~= other) by {
        assert(left.skip(a.len() + 1int) =~= rest);
        assert(right.skip(b.len() + 1int) =~= other);
    }
}

proof fn lemma_same_head(p: Seq<u8>, a: Seq<u8>, q: Seq<u8>, b: Seq<u8>)
    requires
        p.len() == q.len(),
        p + a == q + b,
    ensures
        p == q,
        a == b,
{
    assert((p + a).take(p.len() as int) =~= p);
    assert((q + b).take(q.len() as int) =~= q);
    assert((p + a).skip(p.len() as int) =~= a);
    assert((q + b).skip(q.len() as int) =~= b);
}

/// No two dimensions have the same tag.
pub proof fn law_tags_are_unique(a: IndexDimension, b: IndexDimension)
    requires
        tag_of(a) == tag_of(b),
    ensures
        a == b,
{
}

/// No two dimension values have the same key.
pub proof fn law_dimension_keys_do_not_collide(
    a: IndexDimension,
    a_value: Seq<u8>,
    b: IndexDimension,
    b_value: Seq<u8>,
)
    requires
        dimension_key(a, a_value) == dimension_key(b, b_value),
    ensures
        a == b,
        a_value == b_value,
{
    assert(dimension_key(a, a_value)[0] == tag_of(a));
    assert(dimension_key(b, b_value)[0] == tag_of(b));
    lemma_same_head(seq![tag_of(a)], a_value, seq![tag_of(b)], b_value);
}

/// Each level of a Move call is a prefix of the next, and a strict one.
pub proof fn law_move_call_levels_are_prefixes(package: Seq<u8>, module: Seq<u8>, function: Seq<u8>)
    requires
        is_identifier(module),
    ensures
        ({
            let first = move_call(package, None, None);
            let second = move_call(package, Some(module), None);
            let third = move_call(package, Some(module), Some(function));
            &&& first.is_prefix_of(second)
            &&& first.len() < second.len()
            &&& second.is_prefix_of(third)
            &&& second.len() < third.len()
        }),
{
}

/// What follows the 32 bytes of a compound value: nothing, a module, or a module, a
/// zero byte and more.
spec fn tail_of(module: Option<Seq<u8>>, more: Option<Seq<u8>>) -> Seq<u8> {
    match (module, more) {
        (None, _) => seq![],
        (Some(module), None) => module,
        (Some(module), Some(more)) => module + seq![0u8] + more,
    }
}

proof fn lemma_tails_do_not_collide(
    a_module: Option<Seq<u8>>,
    a_more: Option<Seq<u8>>,
    b_module: Option<Seq<u8>>,
    b_more: Option<Seq<u8>>,
)
    requires
        a_module matches Some(module) ==> !module.contains(0u8) && (b_module is Some || module.len() > 0),
        b_module matches Some(module) ==> !module.contains(0u8) && (a_module is Some || module.len() > 0),
        a_module is None ==> a_more is None,
        b_module is None ==> b_more is None,
        tail_of(a_module, a_more) == tail_of(b_module, b_more),
    ensures
        a_module == b_module,
        a_more == b_more,
{
    let a = tail_of(a_module, a_more);
    let b = tail_of(b_module, b_more);
    match (a_module, b_module) {
        (Some(am), Some(bm)) => match (a_more, b_more) {
            (Some(a_rest), Some(b_rest)) => {
                lemma_first_zero(am, a_rest, bm, b_rest);
            },
            (Some(_), None) => {
                assert(a[am.len() as int] == 0);
                assert(bm.contains(b[am.len() as int]));
            },
            (None, Some(_)) => {
                assert(b[bm.len() as int] == 0);
                assert(am.contains(a[bm.len() as int]));
            },
            (None, None) => {},
        },
        (Some(am), None) => {
            assert(a.len() > 0);
        },
        (None, Some(bm)) => {
            assert(b.len() > 0);
        },
        (None, None) => {},
    }
}

/// Two Move call values are the same only if they name the same call at the same
/// level, given packages of one width.
pub proof fn law_move_calls_do_not_collide(
    a_package: Seq<u8>,
    a_module: Option<Seq<u8>>,
    a_function: Option<Seq<u8>>,
    b_package: Seq<u8>,
    b_module: Option<Seq<u8>>,
    b_function: Option<Seq<u8>>,
)
    requires
        a_package.len() == b_package.len(),
        a_module matches Some(module) ==> is_identifier(module),
        b_module matches Some(module) ==> is_identifier(module),
        a_module is None ==> a_function is None,
        b_module is None ==> b_function is None,
        move_call(a_package, a_module, a_function) == move_call(b_package, b_module, b_function),
    ensures
        a_package == b_package,
        a_module == b_module,
        a_function == b_function,
{
    let a_tail = tail_of(a_module, a_function);
    let b_tail = tail_of(b_module, b_function);
    assert(move_call(a_package, a_module, a_function) =~= a_package + a_tail);
    assert(move_call(b_package, b_module, b_function) =~= b_package + b_tail);
    lemma_same_head(a_package, a_tail, b_package, b_tail);
    lemma_tails_do_not_collide(a_module, a_function, b_module, b_function);
}

/// Two emitting modules have the same value only if they are the same, at the same
/// level, given packages of one width; and the package level is a prefix of the module level.
pub proof fn law_emit_modules_do_not_collide(
    a_package: Seq<u8>,
    a_module: Option<Seq<u8>>,
    b_package: Seq<u8>,
    b_module: Option<Seq<u8>>,
)
    requires
        a_package.len() == b_package.len(),
        a_module matches Some(module) ==> is_identifier(module),
        b_module matches Some(module) ==> is_identifier(module),
    ensures
        emit_module(a_package, None).is_prefix_of(emit_module(a_package, a_module)),
        emit_module(a_package, a_module) == emit_module(b_package, b_module) ==> a_package == b_package
            && a_module == b_module,
{
    if emit_module(a_package, a_module) == emit_module(b_package, b_module) {
        let a_tail = tail_of(a_module, None);
        let b_tail = tail_of(b_module, None);
        assert(emit_module(a_package, a_module) =~= a_package + a_tail);
        assert(emit_module(b_package, b_module) =~= b_package + b_tail);
        lemma_same_head(a_package, a_tail, b_package, b_tail);
        lemma_tails_do_not_collide(a_module, None, b_module, None);
    }
}

/// Each level of an event type is a prefix of the next, and a strict one.
pub proof fn law_event_type_levels_are_prefixes(
    address: Seq<u8>,
    module: Seq<u8>,
    name: Seq<u8>,
    bcs: Seq<u8>,
)
    requires
        is_identifier(module),
    ensures
        ({
            let first = event_type(address, None, None, None);
            let second = event_type(address, Some(module), None, None);
            let third = event_type(address, Some(module), Some(name), None);
            let fourth = event_type(address, Some(module), Some(name), Some(bcs));
            &&& first.is_prefix_of(second)
            &&& first.len() < second.len()
            &&& second.is_prefix_of(third)
            &&& second.len() < third.len()
            &&& third.is_prefix_of(fourth)
            &&& third.len() < fourth.len()
        }),
{
}

/// A name, with a zero byte and more behind it where there is more.
spec fn name_and_more(name: Option<Seq<u8>>, more: Option<Seq<u8>>) -> Option<Seq<u8>> {
    match (name, more) {
        (None, _) => None,
        (Some(name), None) => Some(name),
        (Some(name), Some(more)) => Some(name + seq![0u8] + more),
    }
}

/// Two event type values are the same only if they name the same type at the same
/// level, given addresses of one width.
pub proof fn law_event_types_do_not_collide(
    a_address: Seq<u8>,
    a_module: Option<Seq<u8>>,
    a_name: Option<Seq<u8>>,
    a_bcs: Option<Seq<u8>>,
    b_address: Seq<u8>,
    b_module: Option<Seq<u8>>,
    b_name: Option<Seq<u8>>,
    b_bcs: Option<Seq<u8>>,
)
    requires
        a_address.len() == b_address.len(),
        a_module matches Some(module) ==> is_identifier(module),
        b_module matches Some(module) ==> is_identifier(module),
        a_name matches Some(name) ==> !name.contains(0u8),
        b_name matches Some(name) ==> !name.contains(0u8),
        a_module is None ==> a_name is None,
        b_module is None ==> b_name is None,
        a_name is None ==> a_bcs is None,
        b_name is None ==> b_bcs is None,
        event_type(a_address, a_module, a_name, a_bcs) == event_type(b_address, b_module, b_name, b_bcs),
    ensures
        a_address == b_address,
        a_module == b_module,
        a_name == b_name,
        a_bcs == b_bcs,
{
    let a_more = name_and_more(a_name, a_bcs);
    let b_more = name_and_more(b_name, b_bcs);
    let a_tail = tail_of(a_module, a_more);
    let b_tail = tail_of(b_module, b_more);
    assert(event_type(a_address, a_module, a_name, a_bcs) =~= a_address + a_tail);
    assert(event_type(b_address, b_module, b_name, b_bcs) =~= b_address + b_tail);
    lemma_same_head(a_address, a_tail, b_address, b_tail);
    lemma_tails_do_not_collide(a_module, a_more, b_module, b_more);
    if a_name is Some && b_name is Some {
        assert(tail_of(a_name, a_bcs) =~= a_more->0);
        assert(tail_of(b_name, b_bcs) =~= b_more->0);
        lemma_tails_do_not_collide(a_name, a_bcs, b_name, b_bcs);
    }
}

/// Where an item of a list of lists ends up when they are put in a row.
proof fn lemma_flat_map_contains<A, B>(items: Seq<A>, f: spec_fn(A) -> Seq<B>, i: int, b: B)
    requires
        0 <= i < items.len(),
        f(items[i]).contains(b),
    ensures
        items.flat_map(f).contains(b),
    decreases items.len(),
{
    let last = items.len() - 1;
    items.lemma_flat_map_take_append(f, last);
    assert(items.take(items.len() as int) =~= items);
    let front = items.take(last).flat_map(f);
    let back = f(items[last]);
    if i == last {
        let j = choose|j: int| 0 <= j < back.len() && back[j] == b;
        assert((front + back)[front.len() + j] == b);
    } else {
        lemma_flat_map_contains(items.take(last), f, i, b);
        let j = choose|j: int| 0 <= j < front.len() && front[j] == b;
        assert((front + back)[j] == b);
    }
}

/// Every event of a transaction is found by each dimension of the event and by the
/// transaction's sender.
pub proof fn law_events_have_every_level(sender: Seq<u8>, events: Seq<Event>, i: int, dim: Dimension)
    requires
        0 <= i < events.len(),
        dim == (IndexDimension::Sender, sender) || event_levels(events[i]).contains(dim),
    ensures
        event_dimensions(sender, events).contains((dim.0, dim.1, i as u32)),
    decreases events.len(),
{
    let owned = seq![(IndexDimension::Sender, sender)] + event_levels(events.last());
    let front = event_dimensions(sender, events.drop_last());
    let back = of_event(owned, (events.len() - 1) as u32);
    let item = (dim.0, dim.1, i as u32);
    if i == events.len() - 1 {
        if dim == (IndexDimension::Sender, sender) {
            assert(owned[0] == dim);
            assert(back[0] == item);
            assert((front + back)[front.len() as int] == item);
        } else {
            let levels = event_levels(events.last());
            let j = choose|j: int| 0 <= j < levels.len() && levels[j] == dim;
            assert(owned[j + 1] == dim);
            assert(back[j + 1] == item);
            assert((front + back)[front.len() + j + 1] == item);
        }
    } else {
        law_events_have_every_level(sender, events.drop_last(), i, dim);
        let j = choose|j: int| 0 <= j < front.len() && front[j] == item;
        assert((front + back)[j] == item);
    }
}

/// A dimension by which an event is found finds its transaction too.
pub proof fn law_event_dimensions_are_transaction_dimensions(tx: ExecutedTransaction, dim: EventDimension)
    requires
        event_dimensions(tx.sender@, tx.events@).contains(dim),
    ensures
        transaction_dimensions(tx).contains((dim.0, dim.1)),
{
    let to_levels = |event: Event| event_levels(event);
    let all = transaction_dimensions(tx);
    let levels = tx.events@.flat_map(to_levels);
    let before = all.len() - levels.len();
    let item = (dim.0, dim.1);
    lemma_event_dimension_source(tx.sender@, tx.events@, dim);
    if item == (IndexDimension::Sender, tx.sender@) {
        assert(all[0] == item);
    } else {
        let i = choose|i: int| 0 <= i < tx.events@.len() && #[trigger] event_levels(tx.events@[i]).contains(item);
        assert(to_levels(tx.events@[i]).contains(item));
        lemma_flat_map_contains(tx.events@, to_levels, i, item);
        let j = choose|j: int| 0 <= j < levels.len() && levels[j] == item;
        assert(all[before + j] == item);
    }
}

/// Where an event dimension comes from.
proof fn lemma_event_dimension_source(sender: Seq<u8>, events: Seq<Event>, dim: EventDimension)
    requires
        event_dimensions(sender, events).contains(dim),
    ensures
        (dim.0, dim.1) == (IndexDimension::Sender, sender) || exists|i: int|
            0 <= i < events.len() && #[trigger] event_levels(events[i]).contains((dim.0, dim.1)),
    decreases events.len(),
{
    if events.len() > 0 {
        let levels = event_levels(events.last());
        let owned = seq![(IndexDimension::Sender, sender)] + levels;
        let front = event_dimensions(sender, events.drop_last());
        let back = of_event(owned, (events.len() - 1) as u32);
        let j = choose|j: int| 0 <= j < (front + back).len() && (front + back)[j] == dim;
        if j < front.len() {
            assert(front[j] == dim);
            lemma_event_dimension_source(sender, events.drop_last(), dim);
            if (dim.0, dim.1) != (IndexDimension::Sender, sender) {
                let i = choose|i: int|
                    0 <= i < events.drop_last().len() && #[trigger] event_levels(
                        events.drop_last()[i],
                    ).contains((dim.0, dim.1));
                assert(event_levels(events[i]).contains((dim.0, dim.1)));
            }
        } else {
            let k = j - front.len();
            assert(back[k] == dim);
            if k > 0 {
                assert(levels[k - 1] == (dim.0, dim.1));
                assert(event_levels(events[events.len() - 1]).contains((dim.0, dim.1)));
            }
        }
    }
}

/// A key is the tag of its dimension, a byte from 1 to 6, with the value behind it as it
/// is.
pub proof fn law_keys_are_tag_and_value(dim: IndexDimension, value: Seq<u8>, i: int)
    ensures
        dimension_key(dim, value).len() == value.len() + 1,
        dimension_key(dim, value)[0] == 0x01 <==> dim is Sender,
        dimension_key(dim, value)[0] == 0x02 <==> dim is Recipient,
        dimension_key(dim, value)[0] == 0x03 <==> dim is AffectedObject,
        dimension_key(dim, value)[0] == 0x04 <==> dim is MoveCall,
        dimension_key(dim, value)[0] == 0x05 <==> dim is EmitModule,
        dimension_key(dim, value)[0] == 0x06 <==> dim is EventType,
        dimension_key(dim, value)[0] == tag_of(dim),
        0 <= i < value.len() ==> dimension_key(dim, value)[i + 1] == value[i],
{
}

/// The parts of a Move call can be read off its value: the package comes first, then the
/// module, then, behind a zero byte, the function. There is nothing else in it, and a
/// function without a module is left out.
pub proof fn law_move_calls_spell_their_parts(
    package: Seq<u8>,
    module: Seq<u8>,
    function: Seq<u8>,
    without_module: Option<Seq<u8>>,
)
    ensures
        move_call(package, None, without_module) == package,
        ({
            let value = move_call(package, Some(module), None);
            &&& value.take(package.len() as int) == package
            &&& value.skip(package.len() as int) == module
        }),
        ({
            let value = move_call(package, Some(module), Some(function));
            let end: int = package.len() + module.len() as int;
            &&& value.take(package.len() as int) == package
            &&& value.subrange(package.len() as int, end) == module
            &&& value[end] == 0
            &&& value.skip(end + 1) == function
        }),
{
    let short = move_call(package, Some(module), None);
    assert(short.take(package.len() as int) =~= package);
    assert(short.skip(package.len() as int) =~= module);
    let long = move_call(package, Some(module), Some(function));
    let end: int = package.len() + module.len() as int;
    assert(long.take(package.len() as int) =~= package);
    assert(long.subrange(package.len() as int, end) =~= module);
    assert(long.skip(end + 1) =~= function);
}

/// The parts of an emitting module can be read off its value: the package comes first,
/// then the module, and there is nothing else in it.
pub proof fn law_emit_modules_spell_their_parts(package: Seq<u8>, module: Seq<u8>)
    ensures
        emit_module(package, None) == package,
        emit_module(package, Some(module)).take(package.len() as int) == package,
        emit_module(package, Some(module)).skip(package.len() as int) == module,
{
    assert(emit_module(package, Some(module)).take(package.len() as int) =~= package);
    assert(emit_module(package, Some(module)).skip(package.len() as int) =~= module);
}

/// The parts of an event type can be read off its value: the address comes first, then
/// the module, then, each behind a zero byte, the name and the type parameters. There is
/// nothing else in it, and a part without the one before it is left out.
pub proof fn law_event_types_spell_their_parts(
    address: Seq<u8>,
    module: Seq<u8>,
    name: Seq<u8>,
    bcs: Seq<u8>,
    without_module: Option<Seq<u8>>,
    without_name: Option<Seq<u8>>,
)
    ensures
        event_type(address, None, without_module, without_name) == address,
        ({
            let value = event_type(address, Some(module), None, without_name);
            &&& value.take(address.len() as int) == address
            &&& value.skip(address.len() as int) == module
        }),
        ({
            let value = event_type(address, Some(module), Some(name), None);
            let end: int = address.len() + module.len() as int;
            &&& value.take(address.len() as int) == address
            &&& value.subrange(address.len() as int, end) == module
            &&& value[end] == 0
            &&& value.skip(end + 1) == name
        }),
        ({
            let value = event_type(address, Some(module), Some(name), Some(bcs));
            let end: int = address.len() + module.len() as int;
            let name_end: int = end + 1 + name.len();
            &&& value.take(address.len() as int) == address
            &&& value.subrange(address.len() as int, end) == module
            &&& value[end] == 0
            &&& value.subrange(end + 1, name_end) == name
            &&& value[name_end] == 0
            &&& value.skip(name_end + 1) == bcs
        }),
{
    let end: int = address.len() + module.len() as int;
    let name_end: int = end + 1 + name.len();
    let second = event_type(address, Some(module), None, without_name);
    assert(second.take(address.len() as int) =~= address);
    assert(second.skip(address.len() as int) =~= module);
    let third = event_type(address, Some(module), Some(name), None);
    assert(third.take(address.len() as int) =~= address);
    assert(third.subrange(address.len() as int, end) =~= module);
    assert(third.skip(end + 1) =~= name);
    let fourth = event_type(address, Some(module), Some(name), Some(bcs));
    assert(fourth.take(address.len() as int) =~= address);
    assert(fourth.subrange(address.len() as int, end) =~= module);
    assert(fourth.subrange(end + 1, name_end) =~= name);
    assert(fourth.skip(name_end + 1) =~= bcs);
}

/// An item of one of two lists is an item of both in a row, and the other way round.
proof fn lemma_add_contains<A>(a: Seq<A>, b: Seq<A>, item: A)
    ensures
        (a + b).contains(item) <==> a.contains(item) || b.contains(item),
{
    let both = a + b;
    if a.contains(item) {
        let j = choose|j: int| 0 <= j < a.len() && a[j] == item;
        assert(both[j] == item);
    }
    if b.contains(item) {
        let j = choose|j: int| 0 <= j < b.len() && b[j] == item;
        assert(both[a.len() + j] == item);
    }
    if both.contains(item) {
        let j = choose|j: int| 0 <= j < both.len() && both[j] == item;
        if j < a.len() {
            assert(a[j] == item);
        } else {
            assert(b[j - a.len()] == item);
        }
    }
}

/// An item of a list of lists in a row is an item of one of the lists.
proof fn lemma_flat_map_source<A, B>(items: Seq<A>, f: spec_fn(A) -> Seq<B>, b: B) -> (i: int)
    requires
        items.flat_map(f).contains(b),
    ensures
        0 <= i < items.len(),
        f(items[i]).contains(b),
    decreases items.len(),
{
    if items.len() == 0 {
        assert(items.flat_map(f) =~= seq![]);
        0
    } else {
        let last = items.len() - 1;
        items.lemma_flat_map_take_append(f, last);
        assert(items.take(items.len() as int) =~= items);
        lemma_add_contains(items.take(last).flat_map(f), f(items[last]), b);
        if f(items[last]).contains(b) {
            last
        } else {
            lemma_flat_map_source(items.take(last), f, b)
        }
    }
}

/// The five lists that the dimensions of a transaction are put together from.
proof fn lemma_transaction_dimensions_contain(tx: ExecutedTransaction, dim: Dimension)
    ensures
        transaction_dimensions(tx).contains(dim) <==> {
            ||| dim == (IndexDimension::Sender, tx.sender@)
            ||| tx.changed_object_owners@.flat_map(|owner: Owner| recipient(owner)).contains(dim)
            ||| tx.changed_object_ids@.map_values(|id: [u8; 32]| affected(id)).contains(dim)
            ||| tx.move_calls@.flat_map(|call: MoveCall| move_call_levels(call)).contains(dim)
            ||| tx.events@.flat_map(|event: Event| event_levels(event)).contains(dim)
        },
{
    let sender = seq![(IndexDimension::Sender, tx.sender@)];
    let recipients = tx.changed_object_owners@.flat_map(|owner: Owner| recipient(owner));
    let objects = tx.changed_object_ids@.map_values(|id: [u8; 32]| affected(id));
    let calls = tx.move_calls@.flat_map(|call: MoveCall| move_call_levels(call));
    let events = tx.events@.flat_map(|event: Event| event_levels(event));
    lemma_add_contains(sender, recipients, dim);
    lemma_add_contains(sender + recipients, objects, dim);
    lemma_add_contains(sender + recipients + objects, calls, dim);
    lemma_add_contains(sender + recipients + objects + calls, events, dim);
    assert(sender[0] == (IndexDimension::Sender, tx.sender@));
    assert(sender.contains(sender[0]));
}

proof fn lemma_levels(event: Event)
    ensures
        forall|k: int|
            0 <= k < event_levels(event).len() ==> event_levels(event).contains(
                #[trigger] event_levels(event)[k],
            ),
{
}

/// A transaction is found by everything that takes part in it: its sender, the address
/// of each owner of an object that it wrote, each object that it touched, each of its
/// Move calls by package, by module and by function, and each of its events by emitting
/// package and module, and by type at every level.
pub proof fn law_transactions_are_found_by_their_parts(tx: ExecutedTransaction)
    ensures
        transaction_dimensions(tx).contains((IndexDimension::Sender, tx.sender@)),
        forall|i: int|
            0 <= i < tx.changed_object_owners@.len() ==> match #[trigger] tx.changed_object_owners@[i] {
                Owner::AddressOwner(address) => transaction_dimensions(tx).contains(
                    (IndexDimension::Recipient, address@),
                ),
                Owner::ConsensusAddressOwner { owner } => transaction_dimensions(tx).contains(
                    (IndexDimension::Recipient, owner@),
                ),
                Owner::Other => true,
            },
        forall|i: int|
            0 <= i < tx.changed_object_ids@.len() ==> transaction_dimensions(tx).contains(
                (IndexDimension::AffectedObject, (#[trigger] tx.changed_object_ids@[i])@),
            ),
        forall|i: int|
            0 <= i < tx.move_calls@.len() ==> {
                let call = #[trigger] tx.move_calls@[i];
                let module = vstd::utf8::encode_utf8(call.module@);
                let function = vstd::utf8::encode_utf8(call.function@);
                let dims = transaction_dimensions(tx);
                &&& dims.contains((IndexDimension::MoveCall, call.package@))
                &&& dims.contains((IndexDimension::MoveCall, call.package@ + module))
                &&& dims.contains((IndexDimension::MoveCall, call.package@ + module + seq![0u8] + function))
            },
        forall|i: int|
            0 <= i < tx.events@.len() ==> {
                let event = #[trigger] tx.events@[i];
                let emitter = vstd::utf8::encode_utf8(event.transaction_module@);
                let address = event.type_.address@;
                let module = vstd::utf8::encode_utf8(event.type_.module@);
                let name = vstd::utf8::encode_utf8(event.type_.name@);
                let dims = transaction_dimensions(tx);
                &&& dims.contains((IndexDimension::EmitModule, event.package_id@))
                &&& dims.contains((IndexDimension::EmitModule, event.package_id@ + emitter))
                &&& dims.contains((IndexDimension::EventType, address))
                &&& dims.contains((IndexDimension::EventType, address + module))
                &&& dims.contains((IndexDimension::EventType, address + module + seq![0u8] + name))
                &&& event.type_.type_params_bcs matches Some(bcs) ==> dims.contains(
                    (IndexDimension::EventType, address + module + seq![0u8] + name + seq![0u8] + bcs@),
                )
            },
{
    let dims = transaction_dimensions(tx);
    lemma_transaction_dimensions_contain(tx, (IndexDimension::Sender, tx.sender@));
    let to_recipient = |owner: Owner| recipient(owner);
    assert forall|i: int| 0 <= i < tx.changed_object_owners@.len() implies match #[trigger] tx.changed_object_owners@[i] {
        Owner::AddressOwner(address) => dims.contains((IndexDimension::Recipient, address@)),
        Owner::ConsensusAddressOwner { owner } => dims.contains((IndexDimension::Recipient, owner@)),
        Owner::Other => true,
    } by {
        let owner = tx.changed_object_owners@[i];
        if !(owner is Other) {
            let dim = recipient(owner)[0];
            assert(to_recipient(owner).contains(dim));
            lemma_flat_map_contains(tx.changed_object_owners@, to_recipient, i, dim);
            lemma_transaction_dimensions_contain(tx, dim);
        }
    }
    assert forall|i: int| 0 <= i < tx.changed_object_ids@.len() implies dims.contains(
        (IndexDimension::AffectedObject, (#[trigger] tx.changed_object_ids@[i])@),
    ) by {
        let objects = tx.changed_object_ids@.map_values(|id: [u8; 32]| affected(id));
        assert(objects[i] == affected(tx.changed_object_ids@[i]));
        lemma_transaction_dimensions_contain(tx, objects[i]);
    }
    let to_calls = |call: MoveCall| move_call_levels(call);
    assert forall|i: int| 0 <= i < tx.move_calls@.len() implies {
        let call = #[trigger] tx.move_calls@[i];
        let module = vstd::utf8::encode_utf8(call.module@);
        let function = vstd::utf8::encode_utf8(call.function@);
        &&& dims.contains((IndexDimension::MoveCall, call.package@))
        &&& dims.contains((IndexDimension::MoveCall, call.package@ + module))
        &&& dims.contains((IndexDimension::MoveCall, call.package@ + module + seq![0u8] + function))
    } by {
        let call = tx.move_calls@[i];
        let levels = move_call_levels(call);
        assert(levels == to_calls(call));
        assert(levels.contains(levels[0]) && levels.contains(levels[1]) && levels.contains(levels[2]));
        lemma_flat_map_contains(tx.move_calls@, to_calls, i, levels[0]);
        lemma_flat_map_contains(tx.move_calls@, to_calls, i, levels[1]);
        lemma_flat_map_contains(tx.move_calls@, to_calls, i, levels[2]);
        lemma_transaction_dimensions_contain(tx, levels[0]);
        lemma_transaction_dimensions_contain(tx, levels[1]);
        lemma_transaction_dimensions_contain(tx, levels[2]);
    }
    let to_levels = |event: Event| event_levels(event);
    assert forall|i: int| 0 <= i < tx.events@.len() implies {
        let event = #[trigger] tx.events@[i];
        let emitter = vstd::utf8::encode_utf8(event.transaction_module@);
        let address = event.type_.address@;
        let module = vstd::utf8::encode_utf8(event.type_.module@);
        let name = vstd::utf8::encode_utf8(event.type_.name@);
        &&& dims.contains((IndexDimension::EmitModule, event.package_id@))
        &&& dims.contains((IndexDimension::EmitModule, event.package_id@ + emitter))
        &&& dims.contains((IndexDimension::EventType, address))
        &&& dims.contains((IndexDimension::EventType, address + module))
        &&& dims.contains((IndexDimension::EventType, address + module + seq![0u8] + name))
        &&& event.type_.type_params_bcs matches Some(bcs) ==> dims.contains(
            (IndexDimension::EventType, address + module + seq![0u8] + name + seq![0u8] + bcs@),
        )
    } by {
        let event = tx.events@[i];
        let levels = event_levels(event);
        assert(levels == to_levels(event));
        lemma_levels(event);
        assert forall|k: int| 0 <= k < levels.len() implies dims.contains(#[trigger] levels[k]) by {
            lemma_flat_map_contains(tx.events@, to_levels, i, levels[k]);
            lemma_transaction_dimensions_contain(tx, levels[k]);
        }
        assert(dims.contains(levels[0]) && dims.contains(levels[1]) && dims.contains(levels[2]));
        assert(dims.contains(levels[3]) && dims.contains(levels[4]));
        if event.type_.type_params_bcs is Some {
            assert(dims.contains(levels[5]));
        }
    }
}

/// The owner has the address.
pub open spec fn owner_has(owner: Owner, address: Seq<u8>) -> bool {
    ||| owner matches Owner::AddressOwner(own) && own@ == address
    ||| owner matches Owner::ConsensusAddressOwner { owner: own } && own@ == address
}

/// The value is the call's package, its module in it, or its function in that.
pub open spec fn call_has(call: MoveCall, value: Seq<u8>) -> bool {
    let module = vstd::utf8::encode_utf8(call.module@);
    let function = vstd::utf8::encode_utf8(call.function@);
    ||| value == call.package@
    ||| value == call.package@ + module
    ||| value == call.package@ + module + seq![0u8] + function
}

/// The value is the package that emitted the event, or the module in it.
pub open spec fn event_emitted_by(event: Event, value: Seq<u8>) -> bool {
    ||| value == event.package_id@
    ||| value == event.package_id@ + vstd::utf8::encode_utf8(event.transaction_module@)
}

/// The value is the address of the event's type, its module in it, its name in that, or
/// its type parameters with that.
pub open spec fn event_typed(event: Event, value: Seq<u8>) -> bool {
    let address = event.type_.address@;
    let module = vstd::utf8::encode_utf8(event.type_.module@);
    let name = vstd::utf8::encode_utf8(event.type_.name@);
    ||| value == address
    ||| value == address + module
    ||| value == address + module + seq![0u8] + name
    ||| event.type_.type_params_bcs matches Some(bcs) && value == address + module + seq![0u8] + name + seq![0u8]
        + bcs@
}

proof fn lemma_event_level_source(event: Event, dim: Dimension)
    requires
        event_levels(event).contains(dim),
    ensures
        dim.0 is EmitModule || dim.0 is EventType,
        dim.0 is EmitModule ==> event_emitted_by(event, dim.1),
        dim.0 is EventType ==> event_typed(event, dim.1),
{
    let levels = event_levels(event);
    let k = choose|k: int| 0 <= k < levels.len() && levels[k] == dim;
    assert(k == 0 || k == 1 || k == 2 || k == 3 || k == 4 || k == 5);
}

/// A transaction is found by nothing else: each of its dimensions is its sender, the
/// address of an owner, an object that it touched, or a level of one of its Move calls
/// or events.
pub proof fn law_transaction_dimensions_name_its_parts(tx: ExecutedTransaction, dim: Dimension)
    requires
        transaction_dimensions(tx).contains(dim),
    ensures
        match dim.0 {
            IndexDimension::Sender => dim.1 == tx.sender@,
            IndexDimension::Recipient => exists|i: int|
                0 <= i < tx.changed_object_owners@.len() && owner_has(
                    #[trigger] tx.changed_object_owners@[i],
                    dim.1,
                ),
            IndexDimension::AffectedObject => exists|i: int|
                0 <= i < tx.changed_object_ids@.len() && (#[trigger] tx.changed_object_ids@[i])@ == dim.1,
            IndexDimension::MoveCall => exists|i: int|
                0 <= i < tx.move_calls@.len() && call_has(#[trigger] tx.move_calls@[i], dim.1),
            IndexDimension::EmitModule => exists|i: int|
                0 <= i < tx.events@.len() && event_emitted_by(#[trigger] tx.events@[i], dim.1),
            IndexDimension::EventType => exists|i: int|
                0 <= i < tx.events@.len() && event_typed(#[trigger] tx.events@[i], dim.1),
        },
{
    lemma_transaction_dimensions_contain(tx, dim);
    let to_recipient = |owner: Owner| recipient(owner);
    let to_calls = |call: MoveCall| move_call_levels(call);
    let to_levels = |event: Event| event_levels(event);
    if tx.changed_object_owners@.flat_map(to_recipient).contains(dim) {
        let i = lemma_flat_map_source(tx.changed_object_owners@, to_recipient, dim);
        assert(owner_has(tx.changed_object_owners@[i], dim.1));
    }
    let objects = tx.changed_object_ids@.map_values(|id: [u8; 32]| affected(id));
    if objects.contains(dim) {
        let i = choose|i: int| 0 <= i < objects.len() && objects[i] == dim;
        assert(tx.changed_object_ids@[i]@ == dim.1);
    }
    if tx.move_calls@.flat_map(to_calls).contains(dim) {
        let i = lemma_flat_map_source(tx.move_calls@, to_calls, dim);
        let levels = move_call_levels(tx.move_calls@[i]);
        let k = choose|k: int| 0 <= k < levels.len() && levels[k] == dim;
        assert(k == 0 || k == 1 || k == 2);
        assert(call_has(tx.move_calls@[i], dim.1));
    }
    if tx.events@.flat_map(to_levels).contains(dim) {
        let i = lemma_flat_map_source(tx.events@, to_levels, dim);
        lemma_event_level_source(tx.events@[i], dim);
        assert(dim.0 is EmitModule ==> event_emitted_by(tx.events@[i], dim.1));
        assert(dim.0 is EventType ==> event_typed(tx.events@[i], dim.1));
    }
}

/// The length of a list of lists in a row, where each has `base` items, and one more if
/// `extra` holds.
proof fn lemma_flat_map_len<A, B>(items: Seq<A>, f: spec_fn(A) -> Seq<B>, base: nat, extra: spec_fn(A) -> bool)
    requires
        forall|i: int|
            0 <= i < items.len() ==> f(#[trigger] items[i]).len() == base + if extra(items[i]) {
                1nat
            } else {
                0nat
            },
    ensures
        items.flat_map(f).len() == base * items.len() + items.filter(extra).len(),
    decreases items.len(),
{
    reveal(Seq::filter);
    if items.len() == 0 {
        assert(items.flat_map(f) =~= seq![]);
        assert(base * 0 == 0) by (nonlinear_arith);
    } else {
        let last = items.len() - 1;
        items.lemma_flat_map_take_append(f, last);
        assert(items.take(items.len() as int) =~= items);
        assert(items.take(last) =~= items.drop_last());
        lemma_flat_map_len(items.drop_last(), f, base, extra);
        assert(f(items[last]).len() == base + if extra(items[last]) { 1nat } else { 0nat });
        assert(base * items.len() == base * (items.len() - 1) + base) by (nonlinear_arith)
            requires
                items.len() > 0,
        ;
    }
}

/// A transaction has one entry for each way in which it is found: its sender, each owner
/// with an address, each object, three for each Move call, and five or six for each
/// event.
pub proof fn law_transaction_dimensions_are_counted(tx: ExecutedTransaction)
    ensures
        transaction_dimensions(tx).len() == 1 + tx.changed_object_owners@.filter(
            |owner: Owner| !(owner is Other),
        ).len() + tx.changed_object_ids@.len() + 3 * tx.move_calls@.len() + 5 * tx.events@.len()
            + tx.events@.filter(|event: Event| event.type_.type_params_bcs is Some).len(),
{
    lemma_flat_map_len(
        tx.changed_object_owners@,
        |owner: Owner| recipient(owner),
        0,
        |owner: Owner| !(owner is Other),
    );
    let never = |call: MoveCall| false;
    lemma_flat_map_len(tx.move_calls@, |call: MoveCall| move_call_levels(call), 3, never);
    lemma_nothing_filtered(tx.move_calls@, never);
    lemma_flat_map_len(
        tx.events@,
        |event: Event| event_levels(event),
        5,
        |event: Event| event.type_.type_params_bcs is Some,
    );
}

proof fn lemma_nothing_filtered<A>(items: Seq<A>, pred: spec_fn(A) -> bool)
    requires
        forall|item: A| !(#[trigger] pred(item)),
    ensures
        items.filter(pred).len() == 0,
    decreases items.len(),
{
    reveal(Seq::filter);
    if items.len() > 0 {
        lemma_nothing_filtered(items.drop_last(), pred);
    }
}

/// Each event is found, under its own index, by the sender of its transaction, by the
/// package and the module that emitted it, and by its type at every level.
pub proof fn law_events_are_found_by_their_parts(sender: Seq<u8>, events: Seq<Event>, i: int)
    requires
        0 <= i < events.len(),
    ensures
        ({
            let dims = event_dimensions(sender, events);
            let idx = i as u32;
            let event = events[i];
            let emitter = vstd::utf8::encode_utf8(event.transaction_module@);
            let address = event.type_.address@;
            let module = vstd::utf8::encode_utf8(event.type_.module@);
            let name = vstd::utf8::encode_utf8(event.type_.name@);
            &&& dims.contains((IndexDimension::Sender, sender, idx))
            &&& dims.contains((IndexDimension::EmitModule, event.package_id@, idx))
            &&& dims.contains((IndexDimension::EmitModule, event.package_id@ + emitter, idx))
            &&& dims.contains((IndexDimension::EventType, address, idx))
            &&& dims.contains((IndexDimension::EventType, address + module, idx))
            &&& dims.contains((IndexDimension::EventType, address + module + seq![0u8] + name, idx))
            &&& event.type_.type_params_bcs matches Some(bcs) ==> dims.contains(
                (IndexDimension::EventType, address + module + seq![0u8] + name + seq![0u8] + bcs@, idx),
            )
        }),
{
    let levels = event_levels(events[i]);
    lemma_levels(events[i]);
    law_events_have_every_level(sender, events, i, (IndexDimension::Sender, sender));
    law_events_have_every_level(sender, events, i, levels[0]);
    law_events_have_every_level(sender, events, i, levels[1]);
    law_events_have_every_level(sender, events, i, levels[2]);
    law_events_have_every_level(sender, events, i, levels[3]);
    law_events_have_every_level(sender, events, i, levels[4]);
    if events[i].type_.type_params_bcs is Some {
        law_events_have_every_level(sender, events, i, levels[5]);
    }
}

/// The dimension, at its index, is one by which the `i`-th event is found.
pub open spec fn finds_event(sender: Seq<u8>, events: Seq<Event>, dim: EventDimension, i: int) -> bool {
    &&& 0 <= i < events.len()
    &&& dim.2 == i as u32
    &&& match dim.0 {
        IndexDimension::Sender => dim.1 == sender,
        IndexDimension::EmitModule => event_emitted_by(events[i], dim.1),
        IndexDimension::EventType => event_typed(events[i], dim.1),
        _ => false,
    }
}

/// No event is found by anything else: each entry is the sender or a level of the event
/// at its index.
pub proof fn law_event_dimensions_name_the_event_at_their_index(
    sender: Seq<u8>,
    events: Seq<Event>,
    dim: EventDimension,
)
    requires
        event_dimensions(sender, events).contains(dim),
    ensures
        exists|i: int| finds_event(sender, events, dim, i),
    decreases events.len(),
{
    if events.len() > 0 {
        let last = events.len() - 1;
        let owned = seq![(IndexDimension::Sender, sender)] + event_levels(events.last());
        let front = event_dimensions(sender, events.drop_last());
        let back = of_event(owned, last as u32);
        lemma_add_contains(front, back, dim);
        if front.contains(dim) {
            law_event_dimensions_name_the_event_at_their_index(sender, events.drop_last(), dim);
            let i = choose|i: int| finds_event(sender, events.drop_last(), dim, i);
            assert(finds_event(sender, events, dim, i));
        } else {
            let k = choose|k: int| 0 <= k < back.len() && back[k] == dim;
            assert(owned[k] == (dim.0, dim.1));
            if k > 0 {
                assert(event_levels(events.last())[k - 1] == (dim.0, dim.1));
                lemma_event_level_source(events.last(), (dim.0, dim.1));
            }
            assert(finds_event(sender, events, dim, last));
        }
    }
}

/// Each event has one entry for each way in which it is found: its sender, and five or
/// six levels.
pub proof fn law_event_dimensions_are_counted(sender: Seq<u8>, events: Seq<Event>)
    ensures
        event_dimensions(sender, events).len() == 6 * events.len() + events.filter(
            |event: Event| event.type_.type_params_bcs is Some,
        ).len(),
    decreases events.len(),
{
    reveal(Seq::filter);
    if events.len() > 0 {
        law_event_dimensions_are_counted(sender, events.drop_last());
    }
}

/// What is said of a list of dimensions is said of its items, one by one.
pub proof fn law_views_are_the_items(
    dims: Seq<(IndexDimension, Vec<u8>)>,
    event_dims: Seq<(IndexDimension, Vec<u8>, u32)>,
    i: int,
)
    ensures
        dimension_views(dims).len() == dims.len(),
        0 <= i < dims.len() ==> dimension_views(dims)[i] == (dims[i].0, dims[i].1@),
        event_dimension_views(event_dims).len() == event_dims.len(),
        0 <= i < event_dims.len() ==> event_dimension_views(event_dims)[i] == (
            event_dims[i].0,
            event_dims[i].1@,
            event_dims[i].2,
        ),
{
}

/// A part counts with its bytes where it is given, though it is empty, and only there.
pub proof fn law_parts_count_where_they_are_given(part: &str, bytes: &[u8])
    ensures
        optional_text(Some(part)) == Some(vstd::utf8::encode_utf8(part@)),
        optional_text(None) is None,
        optional_bytes(Some(bytes)) == Some(bytes@),
        optional_bytes(None) is None,
{
}

} // verus!
