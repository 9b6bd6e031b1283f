use wsdf_engine::display::{FieldDisplay, FieldDisplayPair};

fn expr(text: &str) -> syn::Expr {
    syn::parse_str::<syn::Expr>(text).unwrap()
}

#[test]
fn without_ext() {
    let pair = FieldDisplayPair::new(("BASE_NONE", None));
    assert_eq!(
        expr(&pair.to_expr()),
        expr("wsdf::epan_sys::field_display_e_BASE_NONE as std::ffi::c_int | 0 as std::ffi::c_int")
    );
}

#[test]
fn with_ext() {
    let pair = FieldDisplayPair::new(("BASE_NONE", Some("BASE_SHOW_ASCII_PRINTABLE")));
    assert_eq!(
        expr(&pair.to_expr()),
        expr(
            "wsdf::epan_sys::field_display_e_BASE_NONE as std::ffi::c_int | \
             wsdf::epan_sys::BASE_SHOW_ASCII_PRINTABLE as std::ffi::c_int"
        )
    );
}

#[test]
fn display_prefix_only_where_the_constant_has_one() {
    assert_eq!(FieldDisplay::new("BASE_HEX").as_str(), "field_display_e_BASE_HEX");
    assert_eq!(FieldDisplay::new("BASE_DEC").as_str(), "field_display_e_BASE_DEC");
    assert_eq!(FieldDisplay::new("BASE_RANGE_STRING").as_str(), "BASE_RANGE_STRING");
    assert_eq!(FieldDisplay::new("BASE_SHOW_UTF_8_PRINTABLE").as_str(), "BASE_SHOW_UTF_8_PRINTABLE");
    assert_eq!(FieldDisplay::new("").as_str(), "field_display_e_");
}

#[test]
fn pair_keeps_missing_extension_missing() {
    let pair = FieldDisplayPair::new(("BASE_HEX", None));
    assert_eq!(pair.display, FieldDisplay::new("BASE_HEX"));
    assert!(pair.ext.is_none());
    let pair = FieldDisplayPair::new(("BASE_HEX", Some("BASE_ALLOW_ZERO")));
    assert_eq!(pair.ext, Some(FieldDisplay("BASE_ALLOW_ZERO".to_string())));
}
