use wsdf_engine::plugin::{version_bytes, PluginType};

#[test]
fn plugin_types_parse_by_name() {
    assert_eq!(PluginType::parse("Dissector"), Some(PluginType::Dissector));
    assert_eq!(PluginType::parse("FileType"), Some(PluginType::FileType));
    assert_eq!(PluginType::parse("DFilter"), Some(PluginType::DFilter));
    assert_eq!(PluginType::parse("dissector"), None);
    assert_eq!(PluginType::parse(""), None);
}

#[test]
fn plugin_type_constants() {
    assert_eq!(PluginType::Dissector.to_const_ident(), "WS_PLUGIN_DESC_DISSECTOR");
    assert_eq!(PluginType::TapListener.to_const_ident(), "WS_PLUGIN_DESC_TAP_LISTENER");
    assert_eq!(PluginType::or_default(None), PluginType::Epan);
    assert_eq!(PluginType::or_default(Some(PluginType::Codec)).to_const_ident(), "WS_PLUGIN_DESC_CODEC");
}

#[test]
fn version_string_is_zero_terminated() {
    assert_eq!(version_bytes("0.0.1"), vec![48, 46, 48, 46, 49, 0]);
    assert_eq!(version_bytes(""), vec![0]);
}
