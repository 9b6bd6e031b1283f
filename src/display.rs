use vstd::prelude::*;

use crate::text::{concat_str, str_eq};

verus! {

/// The display constants that are spelled without an enum prefix.
pub open spec fn unprefixed_displays() -> Seq<Seq<char>> {
    seq![
        "BASE_RANGE_STRING"@,
        "BASE_EXT_STRING"@,
        "BASE_VAL64_STRING"@,
        "BASE_ALLOW_ZERO"@,
        "BASE_UNIT_STRING"@,
        "BASE_NO_DISPLAY_VALUE"@,
        "BASE_PROTOCOL_INFO"@,
        "BASE_SPECIAL_VALS"@,
        "BASE_SHOW_ASCII_PRINTABLE"@,
        "BASE_SHOW_UTF_8_PRINTABLE"@,
    ]
}

/// The prefix that the remaining display constants carry.
pub open spec fn display_prefix() -> Seq<char> {
    "field_display_e_"@
}

/// The full constant name for a raw display name.
pub open spec fn display_name(raw: Seq<char>) -> Seq<char> {
    if unprefixed_displays().contains(raw) {
        raw
    } else {
        display_prefix() + raw
    }
}

/// A display hint for a field, holding the full name of the display constant.
#[derive(Debug, Clone, PartialEq, Eq)]
pub struct FieldDisplay(pub String);

impl View for FieldDisplay {
    type V = Seq<char>;

    open spec fn view(&self) -> Seq<char> {
        self.0@
    }
}

impl FieldDisplay {
    /// Builds a display hint from a raw name such as `BASE_HEX`, adding the enum prefix
    /// where the constant carries one.
    pub fn new(raw: &str) -> (r: FieldDisplay)
        ensures
            r@ == display_name(raw@),
    {
        let names: [&str; 10] = [
            "BASE_RANGE_STRING",
            "BASE_EXT_STRING",
            "BASE_VAL64_STRING",
            "BASE_ALLOW_ZERO",
            "BASE_UNIT_STRING",
            "BASE_NO_DISPLAY_VALUE",
            "BASE_PROTOCOL_INFO",
            "BASE_SPECIAL_VALS",
            "BASE_SHOW_ASCII_PRINTABLE",
            "BASE_SHOW_UTF_8_PRINTABLE",
        ];
        assert(names@.map_values(|s: &str| s@) =~= unprefixed_displays());
        let mut i: usize = 0;
        while i < 10
            invariant
                names@.map_values(|s: &str| s@) == unprefixed_displays(),
                i <= 10,
                forall|k: int| 0 <= k < i ==> unprefixed_displays()[k] != raw@,
            decreases 10 - i,
        {
            if str_eq(raw, names[i]) {
                assert(unprefixed_displays()[i as int] == raw@);
                return FieldDisplay(String::from_str(raw));
            }
            i = i + 1;
        }
        assert(!unprefixed_displays().contains(raw@));
        FieldDisplay(concat_str("field_display_e_", raw))
    }

    /// The full name of the display constant.
    pub fn as_str(&self) -> (r: &str)
        ensures
            r@ == self@,
    {
        self.0.as_str()
    }
}

/// A display hint together with an optional extension flag, combined with `|` when emitted.
#[derive(Debug, Clone, PartialEq, Eq)]
pub struct FieldDisplayPair {
    pub display: FieldDisplay,
    pub ext: Option<FieldDisplay>,
}

/// The path under which the display constants live.
pub open spec fn constants_path() -> Seq<char> {
    "wsdf::epan_sys::"@
}

/// The integer cast appended to each operand.
pub open spec fn int_cast() -> Seq<char> {
    " as std::ffi::c_int"@
}

/// The expression text for a display pair: both constants cast to `c_int` and combined with a
/// bitwise or, with `0` standing for a missing extension.
pub open spec fn pair_expr(display: Seq<char>, ext: Option<Seq<char>>) -> Seq<char> {
    let right = match ext {
        Some(e) => constants_path() + e,
        None => "0"@,
    };
    constants_path() + display + int_cast() + " | "@ + right + int_cast()
}

impl FieldDisplayPair {
    /// Builds a pair from a raw display name and an optional raw extension name.
    pub fn new(raw: (&str, Option<&str>)) -> (r: FieldDisplayPair)
        ensures
            r.display@ == display_name(raw.0@),
            r.ext is None <==> raw.1 is None,
            raw.1 matches Some(e) ==> r.ext matches Some(x) && x@ == display_name(e@),
    {
        let (display, ext) = raw;
        let ext = match ext {
            Some(e) => Some(FieldDisplay::new(e)),
            None => None,
        };
        FieldDisplayPair { display: FieldDisplay::new(display), ext }
    }

    /// Renders the pair as Rust expression text.
    pub fn to_expr(&self) -> (r: String)
        ensures
            r@ == pair_expr(
                self.display@,
                match self.ext {
                    Some(e) => Some(e@),
                    None => None,
                },
            ),
    {
        let left = concat_str("wsdf::epan_sys::", self.display.as_str());
        let left = left.concat(" as std::ffi::c_int");
        let left = left.concat(" | ");
        let right = match &self.ext {
            Some(e) => concat_str("wsdf::epan_sys::", e.as_str()),
            None => String::from_str("0"),
        };
        let right = right.concat(" as std::ffi::c_int");
        let r = left.concat(right.as_str());
        proof {
            assert(r@ =~= pair_expr(
                self.display@,
                match self.ext {
                    Some(e) => Some(e@),
                    None => None,
                },
            ));
        }
        r
    }
}

} // verus!
