use wsdf_engine::dispatch::{find_variant, select_consumption, try_subdissectors, Host, TapValue};
use wsdf_engine::host::{Resolver, Seen, TableHost};
use wsdf_engine::dissect::{dissect, DecodeError, Dissection, Mode, NodeValue};
use wsdf_engine::plan::{plan, strategy_for, FieldPlan, Strategy};
use wsdf_engine::registry::Registry;
use wsdf_engine::schema::{
    ByteLen, ByteOrder, CompositeSchema, Count, Elem, EnumSchema, FieldSchema, FieldType, Schema,
    Subdissector, VariantSchema,
};
use wsdf_engine::store::{read_uint, FieldStore};
use wsdf_engine::validate::{check_schema, SchemaErrorKind};

/// A host with the message resolver: 1 names Data, 2 Control, anything else Heartbeat.
fn host() -> TableHost {
    let mut h = TableHost::new();
    h.resolvers.push(Resolver {
        field: "msg_type".to_string(),
        arms: vec![(1, "Data".to_string()), (2, "Control".to_string())],
        otherwise: Some("Heartbeat".to_string()),
    });
    h
}

fn consuming(n: usize) -> TableHost {
    let mut h = host();
    h.consumers.push((0, n, "consumed".to_string()));
    h
}

fn selecting(n: usize) -> TableHost {
    let mut h = host();
    h.selected.push(("baby_udp.payload".to_string(), n));
    h
}

fn delegate_calls(h: &TableHost) -> Vec<(String, u64, usize)> {
    h.seen
        .iter()
        .filter_map(|c| match c {
            Seen::Delegate { table, key, len } => Some((table.clone(), *key, *len)),
            _ => None,
        })
        .collect()
}

fn taps(h: &TableHost) -> Vec<(usize, usize)> {
    h.seen
        .iter()
        .filter_map(|c| match c {
            Seen::Tap { tap, offset, .. } => Some((*tap, *offset)),
            _ => None,
        })
        .collect()
}

fn tap_values(h: &TableHost) -> Vec<TapValue> {
    h.seen
        .iter()
        .filter_map(|c| match c {
            Seen::Tap { value, .. } => Some(*value),
            _ => None,
        })
        .collect()
}

fn resolved_from(h: &TableHost) -> Vec<Option<u64>> {
    h.seen
        .iter()
        .filter_map(|c| match c {
            Seen::Resolve { value, .. } => Some(*value),
            _ => None,
        })
        .collect()
}

fn field(name: &str, ty: FieldType) -> FieldSchema {
    FieldSchema {
        name: name.to_string(),
        ty,
        hidden: false,
        save: false,
        rename: None,
        decode_with: None,
        consume_with: None,
        subdissector: None,
        get_variant: None,
        taps: Vec::new(),
    }
}

fn u16be() -> FieldType {
    FieldType::UInt { width: 2, order: ByteOrder::Big }
}

fn u8t() -> FieldType {
    FieldType::UInt { width: 1, order: ByteOrder::Big }
}

fn composite(name: &str, fields: Vec<FieldSchema>) -> CompositeSchema {
    CompositeSchema { name: name.to_string(), fields, pre_dissect: Vec::new(), post_dissect: Vec::new() }
}

/// The fixed header with a payload handed to the port table, keyed on the destination port
/// and then the source port.
fn udp_schema() -> Schema {
    let mut payload = field("payload", FieldType::Bytes(ByteLen::Rest));
    payload.subdissector = Some(Subdissector::Table { table: "baby_udp.port".to_string(), keys: vec![1, 0] });
    Schema {
        name: "baby_udp".to_string(),
        composites: vec![composite(
            "BabyUdp",
            vec![
                field("src_port", u16be()),
                field("dst_port", u16be()),
                field("length", u16be()),
                field("checksum", u16be()),
                payload,
            ],
        )],
        enums: Vec::new(),
        root: 0,
    }
}

/// A message whose payload variant is chosen from a saved one-byte type.
fn message_schema() -> Schema {
    let mut msg_type = field("msg_type", u8t());
    msg_type.save = true;
    let mut payload = field("payload", FieldType::Enum(0));
    payload.get_variant = Some(0);
    Schema {
        name: "message".to_string(),
        composites: vec![
            composite("Message", vec![msg_type, payload]),
            composite(
                "Data",
                vec![field("length", u16be()), field("payload", FieldType::Bytes(ByteLen::Hint(0)))],
            ),
            composite("Control", vec![field("code", u8t())]),
            composite("Heartbeat", Vec::new()),
        ],
        enums: vec![EnumSchema {
            name: "MessageType".to_string(),
            variants: vec![
                VariantSchema { name: "Data".to_string(), composite: 1 },
                VariantSchema { name: "Control".to_string(), composite: 2 },
                VariantSchema { name: "Heartbeat".to_string(), composite: 3 },
            ],
        }],
        root: 0,
    }
}

/// Registers the schema, then dissects one packet with it.
fn run<H: Host>(schema: &Schema, data: &[u8], mode: Mode, host: &mut H) -> Dissection {
    let mut reg = Registry::new();
    reg.register(schema).unwrap();
    dissect(schema, &reg, data, mode, host)
}

fn spans(d: &Dissection) -> Vec<(String, usize, usize)> {
    d.nodes.iter().map(|n| (n.path.clone(), n.start, n.len)).collect()
}

fn assert_offsets_monotone(d: &Dissection) {
    for w in d.nodes.windows(2) {
        assert!(w[0].start <= w[1].start);
    }
    for n in &d.nodes {
        assert!(n.start + n.len <= d.consumed);
    }
}

const UDP_PACKET: [u8; 12] = [0x04, 0xd2, 0x00, 0x35, 0x00, 0x0c, 0xbe, 0xef, 1, 2, 3, 4];

#[test]
fn fixed_header_with_delegated_payload() {
    let schema = udp_schema();
    let mut h = host();
    let d = run(&schema, &UDP_PACKET, Mode::Tree, &mut h);
    assert_eq!(d.consumed, 12);
    assert_eq!(
        spans(&d),
        vec![
            ("baby_udp".to_string(), 0, 12),
            ("baby_udp.src_port".to_string(), 0, 2),
            ("baby_udp.dst_port".to_string(), 2, 2),
            ("baby_udp.length".to_string(), 4, 2),
            ("baby_udp.checksum".to_string(), 6, 2),
            ("baby_udp.payload".to_string(), 8, 4),
        ]
    );
    assert!(matches!(d.nodes[1].value, NodeValue::UInt(1234)));
    assert!(matches!(d.nodes[2].value, NodeValue::UInt(53)));
    assert!(matches!(d.nodes[5].value, NodeValue::Delegated));
    // The destination port is tried before the source port, each with the 4 payload bytes.
    assert_eq!(
        delegate_calls(&h),
        vec![("baby_udp.port".to_string(), 53, 4), ("baby_udp.port".to_string(), 1234, 4)]
    );
    assert_eq!(d.errors, 0);
    let ids: Vec<Option<u32>> = d.nodes.iter().map(|n| n.id).collect();
    assert_eq!(ids, vec![Some(0), Some(0), Some(1), Some(2), Some(3), None]);
}

#[test]
fn subdissector_fallback_takes_all_remaining_bytes() {
    let schema = udp_schema();
    let mut h = host();
    let d = run(&schema, &UDP_PACKET, Mode::Tree, &mut h);
    assert_eq!(d.nodes[5].start, 8);
    assert_eq!(d.nodes[5].len, 4);
    assert_eq!(d.consumed, UDP_PACKET.len());
}

#[test]
fn first_matching_delegate_wins_and_stops_the_search() {
    let schema = udp_schema();
    let mut h = host();
    h.delegates.push(("baby_udp.port".to_string(), 53, 3));
    h.delegates.push(("baby_udp.port".to_string(), 1234, 4));
    let d = run(&schema, &UDP_PACKET, Mode::Tree, &mut h);
    assert_eq!(delegate_calls(&h).len(), 1);
    assert_eq!(d.nodes[5].len, 3);
    assert_eq!(d.consumed, 11);
}

#[test]
fn delegation_outcome_from_answers() {
    assert_eq!(select_consumption(&vec![0, 0, 0], 10), 10);
    assert_eq!(select_consumption(&vec![], 7), 7);
    assert_eq!(select_consumption(&vec![0, 3, 5], 10), 3);
    assert_eq!(select_consumption(&vec![20], 10), 10);
    let mut h = host();
    h.delegates.push(("t".to_string(), 2, 5));
    let rest = [0u8; 9];
    let d = try_subdissectors(&mut h, "t", &vec![1, 2, 3], &rest);
    assert_eq!(d.consumed, 5);
    assert_eq!(d.answers, vec![0, 5]);
    let mut h = host();
    let d = try_subdissectors(&mut h, "t", &vec![1, 2, 3], &rest);
    assert_eq!(d.consumed, 9);
    assert_eq!(d.answers, vec![0, 0, 0]);
}

#[test]
fn variant_selected_from_saved_discriminant() {
    let schema = message_schema();
    let mut h = host();
    let d = run(&schema, &[0x01, 0x00, 0x02, 0xaa, 0xbb], Mode::Tree, &mut h);
    assert_eq!(resolved_from(&h), vec![Some(1)]);
    assert_eq!(d.consumed, 5);
    assert_eq!(
        spans(&d),
        vec![
            ("message".to_string(), 0, 5),
            ("message.msg_type".to_string(), 0, 1),
            ("message.payload.Data".to_string(), 1, 4),
            ("message.payload.Data.length".to_string(), 1, 2),
            ("message.payload.Data.payload".to_string(), 3, 2),
        ]
    );

    let mut h = host();
    let d = run(&schema, &[0x05], Mode::Tree, &mut h);
    assert_eq!(resolved_from(&h), vec![Some(5)]);
    assert_eq!(d.consumed, 1);
    assert_eq!(d.nodes[2].path, "message.payload.Heartbeat");
}

#[test]
fn variant_names_resolve_to_their_index() {
    let schema = message_schema();
    assert_eq!(find_variant(&schema.enums[0], "Data"), Some(0));
    assert_eq!(find_variant(&schema.enums[0], "Heartbeat"), Some(2));
    assert_eq!(find_variant(&schema.enums[0], "Nope"), None);
}

#[test]
fn unknown_variant_is_an_error_scoped_to_the_field() {
    let mut h = TableHost::new();
    h.resolvers.push(Resolver { field: "msg_type".to_string(), arms: Vec::new(), otherwise: Some("Bogus".to_string()) });
    let schema = message_schema();
    let d = run(&schema, &[0x02, 0x07], Mode::Tree, &mut h);
    assert_eq!(d.errors, 1);
    assert_eq!(d.consumed, 1);
    assert!(matches!(d.nodes[2].value, NodeValue::Error(DecodeError::UnknownVariant)));
    assert_eq!(d.nodes[0].len, 1);
}

#[test]
fn size_only_matches_tree_consumption() {
    for (schema, data) in [
        (udp_schema(), UDP_PACKET.to_vec()),
        (message_schema(), vec![0x01, 0x00, 0x02, 0xaa, 0xbb]),
        (message_schema(), vec![0x02, 0x09]),
        (message_schema(), vec![0x03]),
    ] {
        let tree = run(&schema, &data, Mode::Tree, &mut host());
        let size = run(&schema, &data, Mode::SizeOnly, &mut host());
        assert_eq!(size.consumed, tree.consumed);
        assert!(size.nodes.is_empty());
    }
}

#[test]
fn offsets_never_go_backwards() {
    let schema = message_schema();
    for data in [vec![0x01, 0x00, 0x02, 0xaa, 0xbb], vec![0x01, 0x00, 0x09, 0xaa], vec![0x02]] {
        let d = run(&schema, &data, Mode::Tree, &mut host());
        assert_offsets_monotone(&d);
        assert!(d.consumed <= data.len());
    }
    let d = run(&udp_schema(), &UDP_PACKET, Mode::Tree, &mut host());
    assert_offsets_monotone(&d);
}

#[test]
fn truncated_buffer_truncates_the_subtree() {
    let schema = udp_schema();
    let d = run(&schema, &UDP_PACKET[..5], Mode::Tree, &mut host());
    assert_eq!(d.consumed, 4);
    assert_eq!(d.errors, 1);
    assert!(matches!(d.nodes[3].value, NodeValue::Error(DecodeError::OutOfRange)));
    assert_eq!(d.nodes[3].start, 4);
    assert_eq!(d.nodes[0].len, 4);
}

#[test]
fn length_hint_beyond_buffer_is_a_decode_error() {
    let schema = message_schema();
    let d = run(&schema, &[0x01, 0x00, 0x09, 0xaa], Mode::Tree, &mut host());
    assert_eq!(d.errors, 1);
    assert_eq!(d.consumed, 3);
    let last = d.nodes.last().unwrap();
    assert!(matches!(last.value, NodeValue::Error(DecodeError::OutOfRange)));
    assert_eq!(last.path, "message.payload.Data.payload");
}

#[test]
fn save_load_round_trip_u8_u16_u32_both_orders() {
    let data = [0x12u8, 0x34, 0x56, 0x78];
    let mut store = FieldStore::new();
    let a = read_uint(&data, 0, 1, ByteOrder::Big).unwrap();
    let b = read_uint(&data, 0, 2, ByteOrder::Big).unwrap();
    let c = read_uint(&data, 0, 2, ByteOrder::Little).unwrap();
    let d = read_uint(&data, 0, 4, ByteOrder::Big).unwrap();
    let e = read_uint(&data, 0, 4, ByteOrder::Little).unwrap();
    store.save("a", a, 1);
    store.save("b", b, 2);
    store.save("c", c, 2);
    store.save("d", d, 4);
    store.save("e", e, 4);
    assert_eq!(store.get_u8("a"), Some(0x12));
    assert_eq!(store.get_u16("b"), Some(0x1234));
    assert_eq!(store.get_u16("c"), Some(0x3412));
    assert_eq!(store.get_u32("d"), Some(0x1234_5678));
    assert_eq!(store.get_u32("e"), Some(0x7856_3412));
    assert_eq!(store.get_u16("a"), None);
    assert_eq!(store.get_u8("missing"), None);
    store.save("a", 7, 1);
    assert_eq!(store.get_u8("a"), Some(7));
}

#[test]
fn read_uint_bounds_and_orders() {
    let data = [1u8, 2, 3, 4, 5, 6, 7, 8, 9];
    assert_eq!(read_uint(&data, 1, 8, ByteOrder::Big), Some(0x0203_0405_0607_0809));
    assert_eq!(read_uint(&data, 1, 8, ByteOrder::Little), Some(0x0908_0706_0504_0302));
    assert_eq!(read_uint(&data, 8, 2, ByteOrder::Big), None);
    assert_eq!(read_uint(&data, 9, 1, ByteOrder::Big), None);
    assert_eq!(read_uint(&data, 9, 0, ByteOrder::Big), Some(0));
}

#[test]
fn saved_fields_reach_taps_and_packet_store() {
    let mut schema = udp_schema();
    schema.composites[0].fields[0].taps = vec![7, 8];
    schema.composites[0].pre_dissect = vec![1];
    schema.composites[0].post_dissect = vec![2];
    let mut h = host();
    run(&schema, &UDP_PACKET, Mode::Tree, &mut h);
    assert_eq!(taps(&h), vec![(1, 0), (7, 0), (8, 0), (2, 12)]);
    assert_eq!(tap_values(&h)[1], TapValue::UInt(1234));
    let mut h = host();
    run(&schema, &UDP_PACKET, Mode::SizeOnly, &mut h);
    assert!(taps(&h).is_empty());
}

#[test]
fn registration_is_idempotent() {
    let schema = message_schema();
    let mut reg = Registry::new();
    assert!(reg.register(&schema).is_ok());
    let first: Vec<Option<u32>> = (0..4).map(|c| reg.subtree_id(c)).collect();
    let first_fields: Vec<Option<u32>> = (0..4).flat_map(|c| (0..2).map(move |j| (c, j))).map(|(c, j)| reg.field_id(c, j)).collect();
    for _ in 0..3 {
        assert!(reg.register(&schema).is_ok());
    }
    let again: Vec<Option<u32>> = (0..4).map(|c| reg.subtree_id(c)).collect();
    let again_fields: Vec<Option<u32>> = (0..4).flat_map(|c| (0..2).map(move |j| (c, j))).map(|(c, j)| reg.field_id(c, j)).collect();
    assert_eq!(first, again);
    assert_eq!(first_fields, again_fields);
    assert_eq!(first, vec![Some(0), Some(1), Some(2), Some(3)]);
    // msg_type, length and the data payload, and code, are leaves; the enum field is not.
    assert_eq!(reg.field_id(0, 0), Some(0));
    assert_eq!(reg.field_id(0, 1), None);
    assert_eq!(reg.field_id(1, 0), Some(1));
    assert_eq!(reg.field_id(1, 1), Some(2));
    assert_eq!(reg.field_id(2, 0), Some(3));
}

#[test]
fn dispatch_table_created_once() {
    let mut schema = udp_schema();
    let mut second = field("trailer", FieldType::Bytes(ByteLen::Rest));
    second.subdissector = Some(Subdissector::DecodeAs("baby_udp.port".to_string()));
    schema.composites.push(composite("Other", vec![second]));
    let mut reg = Registry::new();
    assert!(reg.register(&schema).is_ok());
    assert!(reg.has_table("baby_udp.port"));
    assert!(!reg.has_table("ip.proto"));
    assert_eq!(reg.field_id(0, 4), None);
    assert_eq!(reg.field_id(0, 3), Some(3));
}

#[test]
fn schema_errors_are_reported_before_registration() {
    let mut schema = udp_schema();
    schema.composites[0].fields[2].decode_with = Some(1);
    schema.composites[0].fields[2].consume_with = Some(2);
    let e = check_schema(&schema).unwrap_err();
    assert_eq!(e.kind, SchemaErrorKind::ConflictingStrategies);
    assert_eq!((e.owner, e.item), (0, 2));
    let mut reg = Registry::new();
    assert_eq!(reg.register(&schema).unwrap_err().kind, SchemaErrorKind::ConflictingStrategies);
    assert_eq!(reg.subtree_id(0), None);

    let mut schema = udp_schema();
    schema.composites[0].fields[1].name = "src_port".to_string();
    assert_eq!(check_schema(&schema).unwrap_err().kind, SchemaErrorKind::DuplicateField);

    let mut schema = udp_schema();
    schema.composites[0].fields[0].ty = FieldType::Bytes(ByteLen::Hint(3));
    assert_eq!(check_schema(&schema).unwrap_err().kind, SchemaErrorKind::UnresolvedReference);

    let mut schema = udp_schema();
    schema.composites[0].fields[4].save = true;
    assert_eq!(check_schema(&schema).unwrap_err().kind, SchemaErrorKind::UnsavableField);

    let mut schema = udp_schema();
    schema.root = 3;
    assert_eq!(check_schema(&schema).unwrap_err().kind, SchemaErrorKind::MissingRoot);

    let mut schema = udp_schema();
    schema.composites.push(composite("BabyUdp", Vec::new()));
    assert_eq!(check_schema(&schema).unwrap_err().kind, SchemaErrorKind::DuplicateComposite);

    let mut schema = message_schema();
    schema.enums[0].variants[2].name = "Data".to_string();
    assert_eq!(check_schema(&schema).unwrap_err().kind, SchemaErrorKind::DuplicateVariant);

    assert!(check_schema(&udp_schema()).is_ok());
    assert!(check_schema(&message_schema()).is_ok());
}

#[test]
fn plan_marks_emitted_fields_and_strategy_priority() {
    let schema = udp_schema();
    let plans = plan(&schema.composites[0]);
    let emits: Vec<bool> = plans.iter().map(|p| p.emit).collect();
    assert_eq!(emits, vec![true, true, false, false, false]);
    assert_eq!(plans[4].strategy, Strategy::Subdissect);
    assert_eq!(plans[0].strategy, Strategy::Default);

    let schema = message_schema();
    let plans = plan(&schema.composites[1]);
    assert_eq!(plans[0], FieldPlan { emit: true, save: false, needs_context: false, strategy: Strategy::Default });
    let plans = plan(&schema.composites[0]);
    assert_eq!(plans[0], FieldPlan { emit: false, save: true, needs_context: false, strategy: Strategy::Default });
    assert!(plans[1].emit && plans[1].needs_context);

    let mut f = field("x", u8t());
    f.hidden = true;
    assert_eq!(strategy_for(&f), Strategy::Hidden);
    f.decode_with = Some(4);
    assert_eq!(strategy_for(&f), Strategy::DecodeWith(4));
    f.consume_with = Some(5);
    assert_eq!(strategy_for(&f), Strategy::ConsumeWith(5));
    f.subdissector = Some(Subdissector::DecodeAs("t".to_string()));
    assert_eq!(strategy_for(&f), Strategy::Subdissect);
}

#[test]
fn hidden_and_custom_strategies() {
    let mut schema = udp_schema();
    schema.composites[0].fields[2].hidden = true;
    schema.composites[0].fields[3].decode_with = Some(0);
    let mut h = host();
    h.formats.push((0, "beef".to_string()));
    let d = run(&schema, &UDP_PACKET, Mode::Tree, &mut h);
    assert_eq!(d.consumed, 12);
    let paths: Vec<String> = d.nodes.iter().map(|n| n.path.clone()).collect();
    assert!(!paths.contains(&"baby_udp.length".to_string()));
    let checksum = d.nodes.iter().find(|n| n.path == "baby_udp.checksum").unwrap();
    assert_eq!((checksum.start, checksum.len), (6, 2));
    assert!(matches!(&checksum.value, NodeValue::Text(t) if t == "beef"));

    let mut schema = udp_schema();
    schema.composites[0].fields[4].subdissector = None;
    schema.composites[0].fields[4].consume_with = Some(0);
    let d = run(&schema, &UDP_PACKET, Mode::Tree, &mut consuming(2));
    assert_eq!(d.consumed, 10);
    let d = run(&schema, &UDP_PACKET, Mode::Tree, &mut consuming(9));
    assert_eq!(d.consumed, 8);
    assert_eq!(d.errors, 1);
    assert!(matches!(d.nodes.last().unwrap().value, NodeValue::Error(DecodeError::BadConsumption)));
}

#[test]
fn sequences_repeat_by_count_or_hint() {
    let schema = Schema {
        name: "seq".to_string(),
        composites: vec![
            composite(
                "Root",
                vec![
                    field("n", u8t()),
                    field("items", FieldType::Sequence { elem: Elem::Composite(1), count: Count::Hint(0) }),
                    field("words", FieldType::Sequence { elem: Elem::UInt { width: 2, order: ByteOrder::Little }, count: Count::Fixed(2) }),
                ],
            ),
            composite("Item", vec![field("v", u8t())]),
        ],
        enums: Vec::new(),
        root: 0,
    };
    let data = [2u8, 0xa, 0xb, 1, 0, 2, 0];
    let d = run(&schema, &data, Mode::Tree, &mut host());
    assert_eq!(d.consumed, 7);
    assert_eq!(d.errors, 0);
    let words: Vec<u64> = d.nodes.iter().filter(|n| n.path == "seq.words").map(|n| match n.value {
        NodeValue::UInt(v) => v,
        _ => panic!("not an integer"),
    }).collect();
    assert_eq!(words, vec![1, 2]);
    assert_eq!(d.nodes.iter().filter(|n| n.path == "seq.items.v").count(), 2);
    let size = run(&schema, &data, Mode::SizeOnly, &mut host());
    assert_eq!(size.consumed, 7);
}

#[test]
fn decode_as_uses_the_selected_decoder() {
    let mut schema = udp_schema();
    schema.composites[0].fields[4].subdissector = Some(Subdissector::DecodeAs("baby_udp.payload".to_string()));
    let d = run(&schema, &UDP_PACKET, Mode::Tree, &mut selecting(1));
    assert_eq!(d.consumed, 9);
    let d = run(&schema, &UDP_PACKET, Mode::Tree, &mut selecting(5));
    assert_eq!(d.consumed, 8);
    assert_eq!(d.errors, 1);
}

#[test]
fn registration_records_field_labels() {
    let mut schema = udp_schema();
    schema.composites[0].fields[3].rename = Some("Sum".to_string());
    let mut reg = Registry::new();
    reg.register(&schema).unwrap();
    assert_eq!(reg.label(0, 0), Some("Src Port".to_string()));
    assert_eq!(reg.label(0, 1), Some("Dst Port".to_string()));
    assert_eq!(reg.label(0, 3), Some("Sum".to_string()));
    assert_eq!(reg.label(0, 9), None);
}

#[test]
fn schema_error_location_for_unresolved_key() {
    let mut schema = udp_schema();
    schema.composites[0].fields[4].subdissector = Some(Subdissector::Table { table: "t".to_string(), keys: vec![7] });
    let mut reg = Registry::new();
    let e = reg.register(&schema).unwrap_err();
    assert_eq!(e.kind, SchemaErrorKind::UnresolvedReference);
    assert_eq!((e.owner, e.item), (0, 4));
}
