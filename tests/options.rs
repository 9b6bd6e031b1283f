use wsdf_engine::options::{
    DecodeFrom, Elem, FieldOptions, Lit, MetaItem, MetaValue, OptionError, ProtocolFieldOptions,
    ProtocolOptions, SubdissectorOption, VariantOptions,
};

fn s(x: &str) -> Lit {
    Lit::Str(x.to_string())
}

fn nv(name: &str, v: MetaValue) -> MetaItem {
    MetaItem::NameValue(name.to_string(), v)
}

#[test]
fn path_options_set_flags() {
    let mut o = FieldOptions::default();
    assert!(o.add_option(&MetaItem::Path("hide".to_string())).is_ok());
    assert!(o.add_option(&MetaItem::Path("save".to_string())).is_ok());
    assert!(o.add_option(&MetaItem::Path("bytes".to_string())).is_ok());
    assert_eq!((o.hidden, o.save, o.bytes), (Some(true), Some(true), Some(true)));
    assert_eq!(o.add_option(&MetaItem::Path("nope".to_string())), Err(OptionError::Unrecognized));
    assert_eq!(o.add_option(&MetaItem::List("hide".to_string())), Err(OptionError::UnexpectedList));
}

#[test]
fn name_value_options_set_fields() {
    let mut o = FieldOptions::default();
    assert!(o.add_option(&nv("hide", MetaValue::One(Lit::Bool(false)))).is_ok());
    assert_eq!(o.hidden, Some(false));
    assert!(o.add_option(&nv("len_field", MetaValue::One(s("x")))).is_ok());
    assert!(o.add_option(&nv("typ", MetaValue::One(s("FT_UINT8")))).is_ok());
    assert!(o.add_option(&nv("enc", MetaValue::One(s("ENC_LITTLE_ENDIAN")))).is_ok());
    assert!(o.add_option(&nv("get_variant", MetaValue::One(s("get_message_type")))).is_ok());
    assert!(o.add_option(&nv("rename", MetaValue::One(s("Source")))).is_ok());
    assert_eq!(o.size_hint.as_deref(), Some("x"));
    assert_eq!(o.ws_type.as_deref(), Some("FT_UINT8"));
    assert_eq!(o.ws_enc.as_deref(), Some("ENC_LITTLE_ENDIAN"));
    assert_eq!(o.get_variant.as_deref(), Some("get_message_type"));
    assert_eq!(o.rename.as_deref(), Some("Source"));
    assert_eq!(o.add_option(&nv("save", MetaValue::One(s("yes")))), Err(OptionError::BadValue));
    assert_eq!(o.save, None);
    assert_eq!(o.add_option(&nv("bogus", MetaValue::One(s("x")))), Err(OptionError::Unrecognized));
}

#[test]
fn display_option_single_and_combined() {
    let mut o = FieldOptions::default();
    assert!(o.add_option(&nv("display", MetaValue::One(s("BASE_HEX")))).is_ok());
    let d = o.ws_display.as_ref().unwrap();
    assert_eq!(d.display.as_str(), "field_display_e_BASE_HEX");
    assert!(d.ext.is_none());
    assert!(o
        .add_option(&nv("display", MetaValue::Or(s("BASE_DEC"), s("BASE_SHOW_ASCII_PRINTABLE"))))
        .is_ok());
    let d = o.ws_display.as_ref().unwrap();
    assert_eq!(d.display.as_str(), "field_display_e_BASE_DEC");
    assert_eq!(d.ext.as_ref().unwrap().as_str(), "BASE_SHOW_ASCII_PRINTABLE");
    assert_eq!(
        o.add_option(&nv("display", MetaValue::Or(s("BASE_DEC"), Lit::Int(3)))),
        Err(OptionError::BadValue)
    );
}

#[test]
fn tap_option_takes_one_or_many_names() {
    let mut o = FieldOptions::default();
    assert!(o.add_option(&nv("tap", MetaValue::One(s("f")))).is_ok());
    assert_eq!(o.taps, vec!["f".to_string()]);
    let many = MetaValue::Many(vec![Elem::One(s("f")), Elem::One(s("g")), Elem::One(s("h"))]);
    assert!(o.add_option(&nv("tap", many)).is_ok());
    assert_eq!(o.taps, vec!["f".to_string(), "g".to_string(), "h".to_string()]);
    let bad = MetaValue::Many(vec![Elem::One(s("f")), Elem::One(Lit::Int(1))]);
    assert_eq!(o.add_option(&nv("tap", bad)), Err(OptionError::BadValue));
    assert_eq!(o.taps.len(), 3);
}

#[test]
fn subdissector_option_forms() {
    let mut o = FieldOptions::default();
    assert!(o.add_option(&nv("subdissector", MetaValue::One(s("moldudp.payload")))).is_ok());
    assert!(matches!(&o.subdissector, Some(SubdissectorOption::DecodeAs(t)) if t == "moldudp.payload"));
    let table = MetaValue::Many(vec![
        Elem::One(s("baby_udp.port")),
        Elem::One(s("dst_port")),
        Elem::One(s("src_port")),
    ]);
    assert!(o.add_option(&nv("subdissector", table)).is_ok());
    match &o.subdissector {
        Some(SubdissectorOption::Table { table, fields }) => {
            assert_eq!(table, "baby_udp.port");
            assert_eq!(fields, &vec!["dst_port".to_string(), "src_port".to_string()]);
        }
        _ => panic!("expected a table"),
    }
    assert_eq!(o.add_option(&nv("subdissector", MetaValue::Many(vec![]))), Err(OptionError::BadValue));
}

#[test]
fn variant_and_hook_options() {
    let mut v = VariantOptions::default();
    assert!(v.add_option(&nv("rename", MetaValue::One(s("Data Packet")))).is_ok());
    assert!(v.add_option(&nv("pre_dissect", MetaValue::Many(vec![Elem::One(s("a"))]))).is_ok());
    assert_eq!(v.rename.as_deref(), Some("Data Packet"));
    assert_eq!(v.pre_dissect, vec!["a".to_string()]);
    assert_eq!(v.add_option(&MetaItem::Path("rename".to_string())), Err(OptionError::NotNameValue));
    assert_eq!(v.add_option(&nv("hide", MetaValue::One(Lit::Bool(true)))), Err(OptionError::Unrecognized));

    let mut p = ProtocolFieldOptions::default();
    assert!(p.add_option(&nv("post_dissect", MetaValue::One(s("done")))).is_ok());
    assert!(p.add_option(&nv("proto_name", MetaValue::One(s("ignored")))).is_ok());
    assert_eq!(p.post_dissect, vec!["done".to_string()]);
    assert!(p.pre_dissect.is_empty());
}

#[test]
fn decode_from_entries_accumulate() {
    let mut p = ProtocolOptions::default();
    let v = MetaValue::Many(vec![Elem::Tuple(vec![s("ip.proto"), Lit::Int(17)]), Elem::One(s("moldudp.payload"))]);
    assert!(p.add_option(&nv("decode_from", v)).is_ok());
    assert!(p.add_option(&nv("decode_from", MetaValue::One(s("test.payload")))).is_ok());
    assert_eq!(p.decode_from.len(), 3);
    assert!(matches!(&p.decode_from[0], DecodeFrom::Uint(t, ps) if t == "ip.proto" && ps == &vec![17]));
    assert!(matches!(&p.decode_from[1], DecodeFrom::DecodeAs(t) if t == "moldudp.payload"));
    assert!(matches!(&p.decode_from[2], DecodeFrom::DecodeAs(t) if t == "test.payload"));
    let too_big = MetaValue::Many(vec![Elem::Tuple(vec![s("udp.port"), Lit::Int(1 << 40)])]);
    assert_eq!(p.add_option(&nv("decode_from", too_big)), Err(OptionError::BadValue));
    assert_eq!(p.decode_from.len(), 3);
    assert!(p.add_option(&nv("proto_desc", MetaValue::One(s("Baby UDP by wsdf")))).is_ok());
    assert!(p.add_option(&nv("proto_filter", MetaValue::One(s("baby_udp")))).is_ok());
    assert_eq!(p.proto_desc.as_deref(), Some("Baby UDP by wsdf"));
    assert_eq!(p.proto_filter.as_deref(), Some("baby_udp"));
    assert!(p.add_option(&nv("pre_dissect", MetaValue::One(s("x")))).is_ok());
    assert_eq!(p.add_option(&nv("tap", MetaValue::One(s("x")))), Err(OptionError::Unrecognized));
}
