use wsdf_engine::case::CaseConvert;
use wsdf_engine::registry::field_label;
use wsdf_engine::schema::{ByteOrder, FieldSchema, FieldType};

#[test]
fn to_wsdf_snake_case_works() {
    let tests = [
        ("FooBar", "foo_bar"),
        ("foo_bar", "foo_bar"),
        ("fooBar", "foo_bar"),
        ("_FooBar", "_foo_bar"),
        ("FooBar_", "foo_bar_"),
        ("_FooBar_", "_foo_bar_"),
        ("__foo_bar", "__foo_bar"),
        ("__foo__bar", "__foo__bar"),
        ("foo bar", "foo_bar"),
        ("Foo Bar", "foo_bar"),
    ];

    for (tt, want) in tests {
        assert_eq!(tt.to_wsdf_snake_case(), want);
    }
}

#[test]
fn to_wsdf_title_case_works() {
    let tests = [
        ("FooBar", "Foo Bar"),
        ("foo_bar", "Foo Bar"),
        ("fooBar", "Foo Bar"),
        ("foo_bar_", "Foo Bar"),
        ("_foo_bar", "Foo Bar"),
        ("_foo_bar_", "Foo Bar"),
        ("__foo_bar__", "Foo Bar"),
    ];

    for (tt, want) in tests {
        assert_eq!(tt.to_wsdf_title_case(), want);
    }
}

#[test]
fn to_wsdf_upper_case_works() {
    let tests = [
        ("FooBar", "FOO BAR"),
        ("foo_bar", "FOO BAR"),
        ("fooBar", "FOO BAR"),
        ("foo_bar_", "FOO BAR"),
        ("_foo_bar", "FOO BAR"),
        ("_foo_bar_", "FOO BAR"),
        ("__foo_bar__", "FOO BAR"),
    ];

    for (tt, want) in tests {
        assert_eq!(tt.to_wsdf_upper_case(), want);
    }
}

#[test]
fn title_case_drops_blank_words_and_trims() {
    assert_eq!("source_port".to_wsdf_title_case(), "Source Port");
    assert_eq!("".to_wsdf_title_case(), "");
    assert_eq!("___".to_wsdf_title_case(), "");
    assert_eq!("a_ _b".to_wsdf_title_case(), "A B");
}

#[test]
fn snake_case_lowers_after_whitespace_and_capitals() {
    assert_eq!("BabyUDP".to_wsdf_snake_case(), "baby_udp");
    assert_eq!("  Foo".to_wsdf_snake_case(), "_foo");
    assert_eq!("DestPort".to_wsdf_snake_case(), "dest_port");
}

#[test]
fn upper_case_of_renamed_protocol() {
    assert_eq!("BabyUdp".to_wsdf_upper_case(), "BABY UDP");
}

#[test]
fn trim_drops_outer_whitespace_only() {
    assert_eq!(wsdf_engine::case::trim("  a b \t"), "a b");
    assert_eq!(wsdf_engine::case::trim(" \n "), "");
    assert_eq!(wsdf_engine::case::trim("x"), "x");
}

#[test]
fn field_labels_use_rename_or_title_case() {
    let mut f = FieldSchema {
        name: "source_port".to_string(),
        ty: FieldType::UInt { width: 2, order: ByteOrder::Big },
        hidden: false,
        save: false,
        rename: None,
        decode_with: None,
        consume_with: None,
        subdissector: None,
        get_variant: None,
        taps: Vec::new(),
    };
    assert_eq!(field_label(&f), "Source Port");
    f.rename = Some("Src".to_string());
    assert_eq!(field_label(&f), "Src");
}

#[test]
fn title_of_snake_joins_capitalized_words() {
    assert_eq!(wsdf_engine::case::title_of_snake("foo_bar"), "Foo Bar");
    assert_eq!(wsdf_engine::case::title_of_snake("__foo__bar_"), "Foo Bar");
    assert_eq!(wsdf_engine::case::title_of_snake("dest_port"), "Dest Port");
    assert_eq!(wsdf_engine::case::title_of_snake(""), "");
}
