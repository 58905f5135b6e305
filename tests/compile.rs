use canbus_config::builder::NetworkBuilder;
use canbus_config::decl::{Access, EnumDecl, EnumEntryDecl, MessageIdTemplate};
use canbus_config::descriptor::resolve_type;
use canbus_config::elaborate::{elaborate_enum, enum_width};
use canbus_config::error::ConfigError;
use canbus_config::link::rx_mapping;
use canbus_config::message::{dlc_of, MessageId};
use canbus_config::network::{MessageUsage, DEFAULT_INTERVAL_MS};
use canbus_config::order::topo_order;
use canbus_config::types::{Elem, NamedType, Primitive, Ratio, TypeRef};

fn enum_decl(entries: &[(&str, Option<u64>)]) -> EnumDecl {
    EnumDecl {
        name: "E".to_string(),
        description: None,
        entries: entries
            .iter()
            .map(|(n, v)| EnumEntryDecl { name: n.to_string(), value: *v })
            .collect(),
    }
}

fn enum_parts(t: NamedType) -> (u8, Vec<u64>) {
    match t {
        NamedType::Enum { bits, entries, .. } => (bits, entries.iter().map(|e| e.value).collect()),
        _ => panic!("not an enum"),
    }
}

#[test]
fn resolves_integers() {
    let names: Vec<String> = vec![];
    assert_eq!(
        resolve_type(&names, "u8"),
        Ok(TypeRef::Single(Elem::Primitive(Primitive::UnsignedInt { bits: 8 })))
    );
    assert_eq!(
        resolve_type(&names, "i64"),
        Ok(TypeRef::Single(Elem::Primitive(Primitive::SignedInt { bits: 64 })))
    );
    assert_eq!(resolve_type(&names, "u0"), Err(ConfigError::InvalidType));
    assert_eq!(resolve_type(&names, "u65"), Err(ConfigError::InvalidType));
    assert_eq!(resolve_type(&names, "x7"), Err(ConfigError::InvalidType));
}

#[test]
fn resolves_u8_array() {
    let names: Vec<String> = vec![];
    assert_eq!(
        resolve_type(&names, "u8[4]"),
        Ok(TypeRef::Array { len: 4, elem: Elem::Primitive(Primitive::UnsignedInt { bits: 8 }) })
    );
}

#[test]
fn resolves_decimal_array() {
    let names: Vec<String> = vec![];
    let expected = Primitive::Decimal {
        bits: 10,
        offset: Ratio { num: 0, den: 1 },
        scale: Ratio { num: 100, den: 1023 },
    };
    assert_eq!(
        resolve_type(&names, "d10<0..100>[2]"),
        Ok(TypeRef::Array { len: 2, elem: Elem::Primitive(expected) })
    );
}

#[test]
fn decimal_decodes_to_its_bounds() {
    let names: Vec<String> = vec![];
    let t = resolve_type(&names, "d8<-1.5..2.5>").unwrap();
    let (offset, scale) = match t {
        TypeRef::Single(Elem::Primitive(Primitive::Decimal { bits: 8, offset, scale })) => {
            (offset, scale)
        }
        other => panic!("unexpected {:?}", other),
    };
    assert_eq!(offset, Ratio { num: -15, den: 10 });
    assert_eq!(scale, Ratio { num: 40, den: 2550 });
    // raw 0 decodes to -1.5, raw 255 to 2.5
    let decode = |raw: i128| -> (i128, i128) {
        (
            raw * scale.num * offset.den as i128 + offset.num * scale.den as i128,
            scale.den as i128 * offset.den as i128,
        )
    };
    let (n0, d0) = decode(0);
    assert_eq!(n0 * 10, -15 * d0);
    let (n1, d1) = decode(255);
    assert_eq!(n1 * 10, 25 * d1);
    let approx = n1 as f64 / d1 as f64;
    assert!((approx - 2.5).abs() < 1e-12);
}

#[test]
fn decimal_range_must_increase() {
    let names: Vec<String> = vec![];
    assert_eq!(resolve_type(&names, "d8<5..1>"), Err(ConfigError::InvalidRange));
    assert_eq!(resolve_type(&names, "d8<1..1>"), Err(ConfigError::InvalidRange));
    assert_eq!(resolve_type(&names, "d8<1.0..1>"), Err(ConfigError::InvalidRange));
}

#[test]
fn resolves_declared_names() {
    let names = vec!["Mode".to_string(), "Point".to_string()];
    assert_eq!(resolve_type(&names, "Point"), Ok(TypeRef::Single(Elem::Named(1))));
    assert_eq!(
        resolve_type(&names, "Mode[3]"),
        Ok(TypeRef::Array { len: 3, elem: Elem::Named(0) })
    );
    assert_eq!(resolve_type(&names, "Other"), Err(ConfigError::InvalidType));
}

#[test]
fn enum_width_single_zero() {
    let (bits, values) = enum_parts(elaborate_enum(&enum_decl(&[("A", Some(0))])).unwrap());
    assert_eq!(bits, 0);
    assert_eq!(values, vec![0]);
}

#[test]
fn enum_width_up_to_five() {
    let d = enum_decl(&[("A", Some(0)), ("B", Some(1)), ("C", Some(5))]);
    let (bits, values) = enum_parts(elaborate_enum(&d).unwrap());
    assert_eq!(bits, 3);
    assert_eq!(values, vec![0, 1, 5]);
}

#[test]
fn enum_implicit_follows_previous() {
    let d = enum_decl(&[("A", Some(5)), ("B", None)]);
    let (bits, values) = enum_parts(elaborate_enum(&d).unwrap());
    assert_eq!(values, vec![5, 6]);
    assert_eq!(bits, 3);
    let d = enum_decl(&[("A", None), ("B", None), ("C", None)]);
    assert_eq!(enum_parts(elaborate_enum(&d).unwrap()).1, vec![0, 1, 2]);
}

#[test]
fn enum_implicit_overflow() {
    let d = enum_decl(&[("A", Some(u64::MAX)), ("B", None)]);
    assert!(matches!(elaborate_enum(&d), Err(ConfigError::EnumValueOverflow)));
}

#[test]
fn enum_width_values() {
    assert_eq!(enum_width(0), 0);
    assert_eq!(enum_width(1), 1);
    assert_eq!(enum_width(2), 2);
    assert_eq!(enum_width(255), 8);
    assert_eq!(enum_width(256), 9);
    assert_eq!(enum_width(u64::MAX), 64);
}

#[test]
fn orders_dependencies_first() {
    let deps = vec![vec![1], vec![], vec![0, 1]];
    assert_eq!(topo_order(&deps), Ok(vec![1, 0, 2]));
}

#[test]
fn rejects_cycles() {
    let deps = vec![vec![1], vec![2], vec![0]];
    assert_eq!(topo_order(&deps), Err(ConfigError::CyclicType));
    let deps = vec![vec![0]];
    assert_eq!(topo_order(&deps), Err(ConfigError::CyclicType));
}

#[test]
fn stream_positional_mapping() {
    let mapping = vec![(3, 11), (1, 10)];
    assert_eq!(rx_mapping(5, &mapping), vec![None, Some(10), None, Some(11), None]);
}

#[test]
fn dlc_rounds_up() {
    assert_eq!(dlc_of(29), 4);
    assert_eq!(dlc_of(32), 4);
    assert_eq!(dlc_of(0), 0);
    assert_eq!(dlc_of(1), 1);
}

#[test]
fn default_bus_is_synthesized() {
    let mut b = NetworkBuilder::new();
    let m = b.create_message("status", None);
    b.add_field(m, "u8", "value");
    let net = b.build_at(0).unwrap();
    assert_eq!(net.buses.len(), 1);
    assert_eq!(net.buses[0].name, "can0");
    assert_eq!(net.baudrate, 1_000_000);
    assert!(net.messages.iter().all(|m| m.bus == 0));
}

#[test]
fn message_of_29_bits_has_dlc_4() {
    let mut b = NetworkBuilder::new();
    let m = b.create_message("frame", None);
    b.add_signal(m, "a", Primitive::UnsignedInt { bits: 13 });
    b.add_signal(m, "b", Primitive::UnsignedInt { bits: 8 });
    b.add_signal(m, "c", Primitive::SignedInt { bits: 8 });
    let net = b.build_at(0).unwrap();
    let msg = &net.messages[m];
    assert_eq!(msg.dlc, 4);
    let offsets: Vec<u64> = msg.signals.iter().map(|s| s.offset).collect();
    assert_eq!(offsets, vec![0, 13, 21]);
    assert_eq!(msg.signals[0].name, "frame_a");
}

#[test]
fn typed_message_is_contiguous() {
    let mut b = NetworkBuilder::new();
    let mode = b.define_enum("Mode");
    b.add_enum_entry(mode, "Off", None);
    b.add_enum_entry(mode, "On", None);
    b.add_enum_entry(mode, "Auto", None);
    let point = b.define_struct("Point");
    b.add_attribute(point, "x", "i16");
    b.add_attribute(point, "y", "d10<0..100>");
    b.add_attribute(point, "mode", "Mode");
    let m = b.create_message("pos", None);
    b.add_field(m, "Point", "p");
    b.add_field(m, "u8[2]", "raw");
    let net = b.build_at(0).unwrap();
    let msg = &net.messages[m];
    let layout: Vec<(u64, u8)> =
        msg.signals.iter().map(|s| (s.offset, s.format.primitive.bits())).collect();
    assert_eq!(layout, vec![(0, 16), (16, 10), (26, 2), (28, 8), (36, 8)]);
    assert_eq!(msg.dlc, 6);
    assert_eq!(msg.signals[0].name, "pos_p_x");
    assert_eq!(msg.signals[3].name, "pos_raw_0");
    assert_eq!(msg.signals[4].name, "pos_raw_1");
    assert!(msg.signals[2].format.value_table.is_some());
}

#[test]
fn protocol_messages_have_their_roles() {
    let b = NetworkBuilder::new();
    let get_req = b._get_req_message();
    let set_resp = b._set_resp_message();
    let net = b.build_at(0).unwrap();
    assert_eq!(net.messages[get_req].name, "get_req");
    assert_eq!(net.messages[set_resp].name, "set_resp");
    assert_eq!(b._get_resp_message(), net.get_resp_message);
    assert_eq!(b._set_req_message(), net.set_req_message);
    assert_eq!(net.messages[net.get_req_message].usage, MessageUsage::GetReq);
    assert_eq!(net.messages[net.get_resp_message].usage, MessageUsage::GetResp);
    assert_eq!(net.messages[net.set_req_message].usage, MessageUsage::SetReq);
    assert_eq!(net.messages[net.set_resp_message].usage, MessageUsage::SetResp);
    // header 13 + 8 + 8 bits
    assert_eq!(net.messages[net.get_req_message].dlc, 4);
    // header 1 + 1 + 1 + 13 + 8 + 8 bits and a 32-bit value
    assert_eq!(net.messages[net.get_resp_message].dlc, 8);
    // ids are distinct on the one bus
    let mut ids: Vec<MessageId> = net.messages.iter().map(|m| m.id).collect();
    ids.dedup();
    assert_eq!(ids.len(), net.messages.len());
}

#[test]
fn unclaimed_message_is_external() {
    let mut b = NetworkBuilder::new();
    let with_interval = b.create_message("fast", Some(10));
    let without = b.create_message("slow", None);
    let net = b.build_at(0).unwrap();
    assert_eq!(net.messages[with_interval].usage, MessageUsage::External { interval_ms: 10 });
    assert_eq!(
        net.messages[without].usage,
        MessageUsage::External { interval_ms: DEFAULT_INTERVAL_MS }
    );
}

#[test]
fn commands_and_streams_claim_messages() {
    let mut b = NetworkBuilder::new();
    let server = b.create_node("server");
    let client = b.create_node("client");
    assert_eq!(b.create_node("server"), server);
    let req = b.create_message("req", None);
    let resp = b.create_message("resp", None);
    let cmd = b.add_command(server, "reset", req, resp);
    b.add_extern_command(client, req);
    let data = b.create_message("data", None);
    let oe0 = b.add_object_entry(server, "a", "u8", Access::ReadOnly);
    let oe1 = b.add_object_entry(server, "b", "u8", Access::ReadOnly);
    b.add_field(data, "u8", "a");
    b.add_field(data, "u8", "b");
    let s = b.add_tx_stream(server, "telemetry", data, vec![oe0, oe1]);
    let local = b.add_object_entry(client, "b_copy", "u8", Access::ReadWrite);
    b.add_rx_stream(client, server, s, vec![(1, local)]);
    let net = b.build_at(42).unwrap();
    assert_eq!(net.timestamp_ms, 42);
    assert_eq!(
        net.messages[req].usage,
        MessageUsage::CommandRequest { node: server, command: cmd }
    );
    assert_eq!(
        net.messages[resp].usage,
        MessageUsage::CommandResponse { node: server, command: cmd }
    );
    assert_eq!(net.messages[data].usage, MessageUsage::Stream { node: server, stream: s });
    assert_eq!(net.nodes[client].extern_commands, vec![(server, cmd)]);
    assert_eq!(net.nodes[client].rx_streams[0].mapping, vec![None, Some(local)]);
    assert_eq!(net.nodes[server].tx_streams[0].mapping, vec![Some(oe0), Some(oe1)]);
    assert_eq!(net.nodes[server].object_entries[1].id, 1);
    assert_eq!(net.nodes[client].object_entries[0].id, 0);
}

#[test]
fn second_role_is_refused() {
    let mut b = NetworkBuilder::new();
    let n = b.create_node("n");
    let req = b.create_message("req", None);
    let resp = b.create_message("resp", None);
    b.add_command(n, "one", req, resp);
    b.add_command(n, "two", req, resp);
    assert!(matches!(b.build_at(0), Err(ConfigError::UsageConflict)));
}

#[test]
fn undefined_attribute_type() {
    let mut b = NetworkBuilder::new();
    let s = b.define_struct("S");
    b.add_attribute(s, "x", "u8");
    b.add_attribute(s, "y", "Missing");
    assert!(matches!(
        b.build_at(0),
        Err(ConfigError::UndefinedType { decl: 7, attribute: 1 })
    ));
}

#[test]
fn array_of_declared_type_in_a_struct_is_undefined() {
    let mut b = NetworkBuilder::new();
    let inner = b.define_struct("B");
    b.add_attribute(inner, "v", "u4");
    let outer = b.define_struct("A");
    b.add_attribute(outer, "bs", "B[3]");
    assert!(matches!(
        b.build_at(0),
        Err(ConfigError::UndefinedType { decl: 8, attribute: 0 })
    ));
}

#[test]
fn cyclic_structs() {
    let mut b = NetworkBuilder::new();
    let a = b.define_struct("A");
    let c = b.define_struct("B");
    b.add_attribute(a, "b", "B");
    b.add_attribute(c, "a", "A");
    assert!(matches!(b.build_at(0), Err(ConfigError::CyclicType)));
}

#[test]
fn struct_declared_before_its_dependency() {
    let mut b = NetworkBuilder::new();
    let outer = b.define_struct("Outer");
    let inner = b.define_struct("Inner");
    b.add_attribute(outer, "i", "Inner");
    b.add_attribute(outer, "n", "u4");
    b.add_attribute(inner, "v", "u4");
    let m = b.create_message("m", None);
    b.add_field(m, "Outer", "o");
    let net = b.build_at(0).unwrap();
    let pos = |name: &str| net.types.iter().position(|t| t.name().as_str() == name).unwrap();
    assert!(pos("Inner") < pos("Outer"));
    assert_eq!(net.messages[m].signals.len(), 2);
}

#[test]
fn duplicate_ids_on_one_bus() {
    let mut b = NetworkBuilder::new();
    let x = b.create_message("x", None);
    let y = b.create_message("y", None);
    b.set_message_id(x, MessageIdTemplate::StdId(5));
    b.set_message_id(y, MessageIdTemplate::StdId(5));
    assert!(matches!(b.build_at(0), Err(ConfigError::DuplicateId)));
}

#[test]
fn placeholder_ids_avoid_declared_ones() {
    let mut b = NetworkBuilder::new();
    let x = b.create_message("x", None);
    b.set_message_id(x, MessageIdTemplate::StdId(0));
    let net = b.build_at(0).unwrap();
    assert_eq!(net.messages[x].id, MessageId::StandardId(0));
    assert_eq!(net.messages[0].id, MessageId::StandardId(1));
}

#[test]
fn bus_must_be_chosen_among_several() {
    let mut b = NetworkBuilder::new();
    b.create_bus("a");
    b.create_bus("b");
    assert!(matches!(b.build_at(0), Err(ConfigError::AmbiguousBus)));
}

#[test]
fn chosen_bus_and_baudrate() {
    let mut b = NetworkBuilder::new();
    let bus = b.create_bus("a");
    b.set_baudrate(500_000);
    let m = b.create_message("m", None);
    b.set_message_bus(m, bus);
    let net = b.build_at(0).unwrap();
    assert_eq!(net.buses.len(), 1);
    assert_eq!(net.buses[0].baudrate, 500_000);
    assert_eq!(net.messages[m].bus, bus);
}

#[test]
fn build_stamps_the_time() {
    let net = NetworkBuilder::new().build().unwrap();
    assert!(net.timestamp_ms > 0);
}

#[test]
fn first_pair_wins_at_a_position() {
    let mapping = vec![(2, 7), (2, 8), (9, 1)];
    assert_eq!(rx_mapping(3, &mapping), vec![None, None, Some(7)]);
    assert_eq!(rx_mapping(0, &mapping), vec![]);
}

#[test]
fn overlong_literal_is_not_a_decimal() {
    let names: Vec<String> = vec![];
    assert_eq!(
        resolve_type(&names, "d8<0..12345678901234567890>"),
        Err(ConfigError::InvalidType)
    );
    assert_eq!(resolve_type(&names, "d8<.5..1>").is_ok(), true);
    // min 5, max .6
    assert_eq!(resolve_type(&names, "d8<5...6>"), Err(ConfigError::InvalidRange));
    assert_eq!(resolve_type(&names, "d8<0...6>").is_ok(), true);
    assert_eq!(resolve_type(&names, "d8<5.>..6>"), Err(ConfigError::InvalidType));
}

#[test]
fn extern_command_without_owner_is_skipped() {
    let mut b = NetworkBuilder::new();
    let n = b.create_node("n");
    let other = b.create_message("other", None);
    b.add_extern_command(n, other);
    let net = b.build_at(0).unwrap();
    assert!(net.nodes[n].extern_commands.is_empty());
}

#[test]
fn array_of_structs_in_a_message() {
    let mut b = NetworkBuilder::new();
    let p = b.define_struct("Pair");
    b.add_attribute(p, "a", "u3");
    b.add_attribute(p, "b", "i5");
    let m = b.create_message("m", None);
    b.add_field(m, "Pair[3]", "pairs");
    let net = b.build_at(0).unwrap();
    let msg = &net.messages[m];
    let layout: Vec<(u64, u8)> =
        msg.signals.iter().map(|s| (s.offset, s.format.primitive.bits())).collect();
    assert_eq!(layout, vec![(0, 3), (3, 5), (8, 3), (11, 5), (16, 3), (19, 5)]);
    assert_eq!(msg.dlc, 3);
    assert_eq!(msg.signals[2].name, "m_pairs_1_a");
    let node_types = {
        let mut b2 = NetworkBuilder::new();
        let p2 = b2.define_struct("Pair");
        b2.add_attribute(p2, "a", "u3");
        let n = b2.create_node("n");
        b2.add_object_entry(n, "pair", "Pair", Access::ReadWrite);
        let net2 = b2.build_at(0).unwrap();
        net2.nodes[n].types.iter().map(|t| net2.types[*t].name().clone()).collect::<Vec<_>>()
    };
    assert_eq!(node_types, vec!["Pair".to_string()]);
}

#[test]
fn ordered_graph_keeps_its_order() {
    let deps = vec![vec![], vec![0], vec![0, 1], vec![]];
    assert_eq!(topo_order(&deps), Ok(vec![0, 1, 2, 3]));
}

#[test]
fn prelude_types_and_lengths() {
    let b = NetworkBuilder::new();
    let net = b.build_at(0).unwrap();
    let names: Vec<String> = net.types.iter().map(|t| t.name().clone()).collect();
    assert_eq!(
        names,
        vec![
            "get_resp_erno",
            "set_resp_erno",
            "get_req_header",
            "get_resp_header",
            "set_req_header",
            "set_resp_header",
            "command_resp_erno"
        ]
    );
    assert_eq!(net.messages[net.set_req_message].dlc, 8);
    assert_eq!(net.messages[net.set_resp_message].dlc, 3);
}

#[test]
fn subscriber_aligned_with_five_positions() {
    let mut b = NetworkBuilder::new();
    let p = b.create_node("p");
    let q = b.create_node("q");
    let m = b.create_message("m", None);
    let mut entries = vec![];
    for name in ["e0", "e1", "e2", "e3", "e4"] {
        entries.push(b.add_object_entry(p, name, "u8", Access::ReadOnly));
    }
    let s = b.add_tx_stream(p, "s", m, entries);
    let oe_a = b.add_object_entry(q, "a", "u8", Access::ReadWrite);
    let oe_b = b.add_object_entry(q, "b", "u8", Access::ReadWrite);
    b.add_rx_stream(q, p, s, vec![(3, oe_b), (1, oe_a)]);
    let net = b.build_at(0).unwrap();
    let rx = &net.nodes[q].rx_streams[0];
    assert_eq!(rx.mapping, vec![None, Some(oe_a), None, Some(oe_b), None]);
    assert_eq!(rx.message, m);
    assert_eq!(rx.name, "s");
}

#[test]
fn overlong_range_is_decided_on_the_digits() {
    let names: Vec<String> = vec![];
    assert_eq!(
        resolve_type(&names, "d8<99999999999999999999..1>"),
        Err(ConfigError::InvalidRange)
    );
    assert_eq!(
        resolve_type(&names, "d8<0.1000000000000000000000001..0.1>"),
        Err(ConfigError::InvalidRange)
    );
    assert_eq!(resolve_type(&names, "d8<-0..0>"), Err(ConfigError::InvalidRange));
    assert_eq!(resolve_type(&names, "d8<-0.5..-0.25>").is_ok(), true);
    assert_eq!(resolve_type(&names, "d8<-0.25..-0.5>"), Err(ConfigError::InvalidRange));
}
