//! Field options as a protocol author writes them, `name` or `name = value`, and how each
//! one sets a field's behaviour.
use vstd::prelude::*;

use crate::display::{display_name, FieldDisplay, FieldDisplayPair};
use crate::text::str_eq;

verus! {

/// A literal in an option's value.
#[derive(Debug)]
pub enum Lit {
    Str(String),
    Bool(bool),
    Int(u64),
    /// Any other expression.
    Other,
}

/// One element of an array or tuple value: a literal, or a tuple of literals.
#[derive(Debug)]
pub enum Elem {
    One(Lit),
    Tuple(Vec<Lit>),
}

/// The value of a `name = value` option.
#[derive(Debug)]
pub enum MetaValue {
    One(Lit),
    /// `left | right`.
    Or(Lit, Lit),
    /// An array or a tuple.
    Many(Vec<Elem>),
}

/// One option item.
#[derive(Debug)]
pub enum MetaItem {
    /// A bare name, as in `hide`.
    Path(String),
    /// `name = value`.
    NameValue(String, MetaValue),
    /// `name(...)`, which no option takes.
    List(String),
}

/// Literals as values.
pub enum LitV {
    Str(Seq<char>),
    Bool(bool),
    Int(u64),
    Other,
}

pub enum ElemV {
    One(LitV),
    Tuple(Seq<LitV>),
}

pub enum ValueV {
    One(LitV),
    Or(LitV, LitV),
    Many(Seq<ElemV>),
}

pub enum MetaV {
    Path(Seq<char>),
    NameValue(Seq<char>, ValueV),
    List(Seq<char>),
}

impl View for Lit {
    type V = LitV;

    open spec fn view(&self) -> LitV {
        match self {
            Lit::Str(s) => LitV::Str(s@),
            Lit::Bool(b) => LitV::Bool(*b),
            Lit::Int(i) => LitV::Int(*i),
            Lit::Other => LitV::Other,
        }
    }
}

impl View for Elem {
    type V = ElemV;

    open spec fn view(&self) -> ElemV {
        match self {
            Elem::One(l) => ElemV::One(l@),
            Elem::Tuple(ls) => ElemV::Tuple(ls@.map_values(|l: Lit| l@)),
        }
    }
}

impl View for MetaValue {
    type V = ValueV;

    open spec fn view(&self) -> ValueV {
        match self {
            MetaValue::One(l) => ValueV::One(l@),
            MetaValue::Or(a, b) => ValueV::Or(a@, b@),
            MetaValue::Many(es) => ValueV::Many(es@.map_values(|e: Elem| e@)),
        }
    }
}

impl View for MetaItem {
    type V = MetaV;

    open spec fn view(&self) -> MetaV {
        match self {
            MetaItem::Path(p) => MetaV::Path(p@),
            MetaItem::NameValue(n, v) => MetaV::NameValue(n@, v@),
            MetaItem::List(n) => MetaV::List(n@),
        }
    }
}

/// Where a field's bytes are handed to external decoders, by table name and key field names.
#[derive(Debug)]
pub enum SubdissectorOption {
    DecodeAs(String),
    Table { table: String, fields: Vec<String> },
}

pub enum SubdissectorV {
    DecodeAs(Seq<char>),
    Table { table: Seq<char>, fields: Seq<Seq<char>> },
}

/// The options of one field.
#[derive(Debug, Default)]
pub struct FieldOptions {
    pub hidden: Option<bool>,
    /// The name of an earlier integer field that gives this field's length.
    pub size_hint: Option<String>,
    /// Wire type, e.g. `FT_UINT8`.
    pub ws_type: Option<String>,
    /// Encoding, e.g. `ENC_LITTLE_ENDIAN`.
    pub ws_enc: Option<String>,
    pub ws_display: Option<FieldDisplayPair>,
    /// The resolver that names an enum field's variant.
    pub get_variant: Option<String>,
    pub taps: Vec<String>,
    pub decode_with: Option<String>,
    pub consume_with: Option<String>,
    pub subdissector: Option<SubdissectorOption>,
    pub rename: Option<String>,
    pub save: Option<bool>,
    pub bytes: Option<bool>,
}

pub struct FieldOptionsV {
    pub hidden: Option<bool>,
    pub size_hint: Option<Seq<char>>,
    pub ws_type: Option<Seq<char>>,
    pub ws_enc: Option<Seq<char>>,
    pub ws_display: Option<(Seq<char>, Option<Seq<char>>)>,
    pub get_variant: Option<Seq<char>>,
    pub taps: Seq<Seq<char>>,
    pub decode_with: Option<Seq<char>>,
    pub consume_with: Option<Seq<char>>,
    pub subdissector: Option<SubdissectorV>,
    pub rename: Option<Seq<char>>,
    pub save: Option<bool>,
    pub bytes: Option<bool>,
}

pub open spec fn opt_view(o: Option<String>) -> Option<Seq<char>> {
    match o {
        Some(s) => Some(s@),
        None => None,
    }
}

impl View for FieldOptions {
    type V = FieldOptionsV;

    open spec fn view(&self) -> FieldOptionsV {
        FieldOptionsV {
            hidden: self.hidden,
            size_hint: opt_view(self.size_hint),
            ws_type: opt_view(self.ws_type),
            ws_enc: opt_view(self.ws_enc),
            ws_display: match self.ws_display {
                Some(p) => Some(
                    (
                        p.display@,
                        match p.ext {
                            Some(e) => Some(e@),
                            None => None,
                        },
                    ),
                ),
                None => None,
            },
            get_variant: opt_view(self.get_variant),
            taps: self.taps@.map_values(|t: String| t@),
            decode_with: opt_view(self.decode_with),
            consume_with: opt_view(self.consume_with),
            subdissector: match self.subdissector {
                Some(SubdissectorOption::DecodeAs(t)) => Some(SubdissectorV::DecodeAs(t@)),
                Some(SubdissectorOption::Table { table, fields }) => Some(
                    SubdissectorV::Table { table: table@, fields: fields@.map_values(|f: String| f@) },
                ),
                None => None,
            },
            rename: opt_view(self.rename),
            save: self.save,
            bytes: self.bytes,
        }
    }
}

/// What is wrong with an option item.
#[derive(Debug, Clone, Copy, PartialEq, Eq)]
pub enum OptionError {
    /// The name is not an option of this kind of item.
    Unrecognized,
    /// The value has the wrong form.
    BadValue,
    /// `name(...)` items are not options.
    UnexpectedList,
    /// Only `name = value` items are options here.
    NotNameValue,
}

/// A string literal's text.
pub open spec fn str_of(l: LitV) -> Option<Seq<char>> {
    match l {
        LitV::Str(s) => Some(s),
        _ => None,
    }
}

/// A boolean literal's value.
pub open spec fn bool_of(v: ValueV) -> Option<bool> {
    match v {
        ValueV::One(LitV::Bool(b)) => Some(b),
        _ => None,
    }
}

/// A single string value.
pub open spec fn string_of(v: ValueV) -> Option<Seq<char>> {
    match v {
        ValueV::One(l) => str_of(l),
        _ => None,
    }
}

/// The elements of a value: those of an array or tuple, or the value itself.
pub open spec fn unpacked(v: ValueV) -> Seq<ElemV> {
    match v {
        ValueV::Many(es) => es,
        ValueV::One(l) => seq![ElemV::One(l)],
        ValueV::Or(_, _) => seq![ElemV::One(LitV::Other)],
    }
}

/// The element is a string literal.
pub open spec fn elem_str(e: ElemV) -> Option<Seq<char>> {
    match e {
        ElemV::One(l) => str_of(l),
        ElemV::Tuple(_) => None,
    }
}

/// Every element of `es` is a string literal.
pub open spec fn all_strs(es: Seq<ElemV>) -> bool {
    forall|i: int| 0 <= i < es.len() ==> (#[trigger] elem_str(es[i])) is Some
}

/// The strings of `es`, which are all string literals.
pub open spec fn strs(es: Seq<ElemV>) -> Seq<Seq<char>> {
    es.map_values(|e: ElemV| elem_str(e)->0)
}

/// A list of strings: one string, or an array or tuple of them.
pub open spec fn strings_of(v: ValueV) -> Option<Seq<Seq<char>>> {
    if all_strs(unpacked(v)) {
        Some(strs(unpacked(v)))
    } else {
        None
    }
}

/// A subdissector option: a single table name to decode as, or a table name followed by at
/// least one key field name.
pub open spec fn subdissector_of(v: ValueV) -> Option<SubdissectorV> {
    let items = unpacked(v);
    if items.len() == 1 {
        match elem_str(items[0]) {
            Some(t) => Some(SubdissectorV::DecodeAs(t)),
            None => None,
        }
    } else if items.len() >= 2 && elem_str(items[0]) is Some && all_strs(items.skip(1)) {
        Some(SubdissectorV::Table { table: elem_str(items[0])->0, fields: strs(items.skip(1)) })
    } else {
        None
    }
}

/// A display option: `"BASE_X"` or `"BASE_X" | "BASE_Y"`.
pub open spec fn display_of(v: ValueV) -> Option<(Seq<char>, Option<Seq<char>>)> {
    match v {
        ValueV::One(LitV::Str(d)) => Some((display_name(d), None)),
        ValueV::Or(LitV::Str(d), LitV::Str(e)) => Some((display_name(d), Some(display_name(e)))),
        _ => None,
    }
}

/// The options after one more item, or `None` where the item is refused.
pub open spec fn field_option(o: FieldOptionsV, m: MetaV) -> Option<FieldOptionsV> {
    match m {
        MetaV::Path(p) => if p == "hide"@ {
            Some(FieldOptionsV { hidden: Some(true), ..o })
        } else if p == "save"@ {
            Some(FieldOptionsV { save: Some(true), ..o })
        } else if p == "bytes"@ {
            Some(FieldOptionsV { bytes: Some(true), ..o })
        } else {
            None
        },
        MetaV::NameValue(n, v) => if n == "hide"@ {
            match bool_of(v) {
                Some(b) => Some(FieldOptionsV { hidden: Some(b), ..o }),
                None => None,
            }
        } else if n == "save"@ {
            match bool_of(v) {
                Some(b) => Some(FieldOptionsV { save: Some(b), ..o }),
                None => None,
            }
        } else if n == "bytes"@ {
            match bool_of(v) {
                Some(b) => Some(FieldOptionsV { bytes: Some(b), ..o }),
                None => None,
            }
        } else if n == "len_field"@ {
            match string_of(v) {
                Some(s) => Some(FieldOptionsV { size_hint: Some(s), ..o }),
                None => None,
            }
        } else if n == "typ"@ {
            match string_of(v) {
                Some(s) => Some(FieldOptionsV { ws_type: Some(s), ..o }),
                None => None,
            }
        } else if n == "enc"@ {
            match string_of(v) {
                Some(s) => Some(FieldOptionsV { ws_enc: Some(s), ..o }),
                None => None,
            }
        } else if n == "get_variant"@ {
            match string_of(v) {
                Some(s) => Some(FieldOptionsV { get_variant: Some(s), ..o }),
                None => None,
            }
        } else if n == "decode_with"@ {
            match string_of(v) {
                Some(s) => Some(FieldOptionsV { decode_with: Some(s), ..o }),
                None => None,
            }
        } else if n == "consume_with"@ {
            match string_of(v) {
                Some(s) => Some(FieldOptionsV { consume_with: Some(s), ..o }),
                None => None,
            }
        } else if n == "rename"@ {
            match string_of(v) {
                Some(s) => Some(FieldOptionsV { rename: Some(s), ..o }),
                None => None,
            }
        } else if n == "display"@ {
            match display_of(v) {
                Some(d) => Some(FieldOptionsV { ws_display: Some(d), ..o }),
                None => None,
            }
        } else if n == "tap"@ {
            match strings_of(v) {
                Some(ts) => Some(FieldOptionsV { taps: ts, ..o }),
                None => None,
            }
        } else if n == "subdissector"@ {
            match subdissector_of(v) {
                Some(sd) => Some(FieldOptionsV { subdissector: Some(sd), ..o }),
                None => None,
            }
        } else {
            None
        },
        MetaV::List(_) => None,
    }
}

fn lit_string(l: &Lit) -> (r: Option<String>)
    ensures
        r is Some <==> str_of(l@) is Some,
        r matches Some(t) ==> t@ == str_of(l@)->0,
{
    match l {
        Lit::Str(t) => Some(t.clone()),
        _ => None,
    }
}

fn elem_string(e: &Elem) -> (r: Option<String>)
    ensures
        r is Some <==> elem_str(e@) is Some,
        r matches Some(t) ==> t@ == elem_str(e@)->0,
{
    match e {
        Elem::One(l) => lit_string(l),
        Elem::Tuple(_) => None,
    }
}

fn value_bool(v: &MetaValue) -> (r: Option<bool>)
    ensures
        r == bool_of(v@),
{
    match v {
        MetaValue::One(Lit::Bool(b)) => Some(*b),
        _ => None,
    }
}

fn value_string(v: &MetaValue) -> (r: Option<String>)
    ensures
        r is Some <==> string_of(v@) is Some,
        r matches Some(t) ==> t@ == string_of(v@)->0,
{
    match v {
        MetaValue::One(l) => lit_string(l),
        _ => None,
    }
}

/// The strings of elements `from..` of an array or tuple, if all are string literals.
fn elem_strings(es: &Vec<Elem>, from: usize) -> (r: Option<Vec<String>>)
    requires
        from <= es@.len(),
    ensures
        r is Some <==> all_strs(es@.map_values(|e: Elem| e@).skip(from as int)),
        r matches Some(ts) ==> ts@.map_values(|t: String| t@) == strs(
            es@.map_values(|e: Elem| e@).skip(from as int),
        ),
{
    let ghost ev = es@.map_values(|e: Elem| e@).skip(from as int);
    let mut out: Vec<String> = Vec::new();
    let mut i: usize = from;
    while i < es.len()
        invariant
            from <= i <= es@.len(),
            ev == es@.map_values(|e: Elem| e@).skip(from as int),
            all_strs(ev.take(i - from)),
            out@.map_values(|t: String| t@) == strs(ev.take(i - from)),
        decreases es@.len() - i,
    {
        assert(ev[i - from] == es@[i as int]@);
        match elem_string(&es[i]) {
            Some(t) => {
                let ghost before = out@;
                out.push(t);
                proof {
                    assert(ev.take(i + 1 - from) =~= ev.take(i - from).push(ev[i - from]));
                    assert(out@.map_values(|t: String| t@) =~= before.map_values(|t: String| t@).push(t@));
                    assert(strs(ev.take(i + 1 - from)) =~= strs(ev.take(i - from)).push(elem_str(ev[i - from])->0));
                    assert forall|k: int| 0 <= k < ev.take(i + 1 - from).len() implies (#[trigger] elem_str(ev.take(i + 1 - from)[k])) is Some by {
                        if k < i - from {
                            assert(ev.take(i + 1 - from)[k] == ev.take(i - from)[k]);
                        }
                    }
                }
            },
            None => {
                proof {
                    assert(!all_strs(ev)) by {
                        assert(elem_str(ev[i - from]) is None);
                    }
                }
                return None;
            },
        }
        i = i + 1;
    }
    assert(ev.take(es@.len() - from) =~= ev);
    Some(out)
}

fn value_strings(v: &MetaValue) -> (r: Option<Vec<String>>)
    ensures
        r is Some <==> strings_of(v@) is Some,
        r matches Some(ts) ==> ts@.map_values(|t: String| t@) == strings_of(v@)->0,
{
    match v {
        MetaValue::One(l) => match lit_string(l) {
            Some(t) => {
                let r = vec![t];
                proof {
                    let u = unpacked(v@);
                    assert(u =~= seq![ElemV::One(l@)]);
                    assert(elem_str(u[0]) is Some);
                    assert(all_strs(u));
                    assert(r@.map_values(|t: String| t@) =~= strs(u));
                }
                Some(r)
            },
            None => {
                assert(elem_str(unpacked(v@)[0]) is None);
                None
            },
        },
        MetaValue::Or(_, _) => {
            assert(elem_str(unpacked(v@)[0]) is None);
            None
        },
        MetaValue::Many(es) => {
            assert(es@.map_values(|e: Elem| e@).skip(0) =~= unpacked(v@));
            elem_strings(es, 0)
        },
    }
}

fn value_subdissector(v: &MetaValue) -> (r: Option<SubdissectorOption>)
    ensures
        match subdissector_of(v@) {
            Some(sd) => r matches Some(o) && Some(sd) == (match o {
                SubdissectorOption::DecodeAs(t) => Some(SubdissectorV::DecodeAs(t@)),
                SubdissectorOption::Table { table, fields } => Some(
                    SubdissectorV::Table { table: table@, fields: fields@.map_values(|f: String| f@) },
                ),
            }),
            None => r is None,
        },
{
    match v {
        MetaValue::One(l) => {
            assert(unpacked(v@) =~= seq![ElemV::One(l@)]);
            match lit_string(l) {
                Some(t) => Some(SubdissectorOption::DecodeAs(t)),
                None => None,
            }
        },
        MetaValue::Or(_, _) => {
            assert(unpacked(v@) =~= seq![ElemV::One(LitV::Other)]);
            None
        },
        MetaValue::Many(es) => {
            let ghost ev = es@.map_values(|e: Elem| e@);
            assert(unpacked(v@) == ev);
            if es.len() == 0 {
                return None;
            }
            assert(ev[0] == es@[0]@);
            let first = elem_string(&es[0]);
            if es.len() == 1 {
                return match first {
                    Some(t) => Some(SubdissectorOption::DecodeAs(t)),
                    None => None,
                };
            }
            match first {
                None => None,
                Some(table) => match elem_strings(es, 1) {
                    Some(fields) => Some(SubdissectorOption::Table { table, fields }),
                    None => None,
                },
            }
        },
    }
}

fn value_display(v: &MetaValue) -> (r: Option<FieldDisplayPair>)
    ensures
        match display_of(v@) {
            Some(d) => r matches Some(p) && p.display@ == d.0 && (match p.ext {
                Some(e) => Some(e@),
                None => None,
            }) == d.1,
            None => r is None,
        },
{
    match v {
        MetaValue::One(Lit::Str(d)) => Some(FieldDisplayPair { display: FieldDisplay::new(d.as_str()), ext: None }),
        MetaValue::Or(Lit::Str(d), Lit::Str(e)) => Some(
            FieldDisplayPair {
                display: FieldDisplay::new(d.as_str()),
                ext: Some(FieldDisplay::new(e.as_str())),
            },
        ),
        _ => None,
    }
}

impl FieldOptions {
    /// Applies one option item. A refused item leaves the options as they were.
    pub fn add_option(&mut self, meta: &MetaItem) -> (r: Result<(), OptionError>)
        ensures
            match field_option(old(self)@, meta@) {
                Some(n) => r is Ok && final(self)@ == n,
                None => r is Err && final(self)@ == old(self)@,
            },
    {
        match meta {
            MetaItem::Path(p) => {
                let p = p.as_str();
                if str_eq(p, "hide") {
                    self.hidden = Some(true);
                } else if str_eq(p, "save") {
                    self.save = Some(true);
                } else if str_eq(p, "bytes") {
                    self.bytes = Some(true);
                } else {
                    return Err(OptionError::Unrecognized);
                }
                Ok(())
            },
            MetaItem::NameValue(n, v) => {
                let n = n.as_str();
                if str_eq(n, "hide") || str_eq(n, "save") || str_eq(n, "bytes") {
                    let b = match value_bool(v) {
                        Some(b) => b,
                        None => {
                            return Err(OptionError::BadValue);
                        },
                    };
                    if str_eq(n, "hide") {
                        self.hidden = Some(b);
                    } else if str_eq(n, "save") {
                        self.save = Some(b);
                    } else {
                        self.bytes = Some(b);
                    }
                    Ok(())
                } else if str_eq(n, "len_field") || str_eq(n, "typ") || str_eq(n, "enc") || str_eq(
                    n,
                    "get_variant",
                ) || str_eq(n, "decode_with") || str_eq(n, "consume_with") || str_eq(n, "rename") {
                    let t = match value_string(v) {
                        Some(t) => t,
                        None => {
                            return Err(OptionError::BadValue);
                        },
                    };
                    if str_eq(n, "len_field") {
                        self.size_hint = Some(t);
                    } else if str_eq(n, "typ") {
                        self.ws_type = Some(t);
                    } else if str_eq(n, "enc") {
                        self.ws_enc = Some(t);
                    } else if str_eq(n, "get_variant") {
                        self.get_variant = Some(t);
                    } else if str_eq(n, "decode_with") {
                        self.decode_with = Some(t);
                    } else if str_eq(n, "consume_with") {
                        self.consume_with = Some(t);
                    } else {
                        self.rename = Some(t);
                    }
                    Ok(())
                } else if str_eq(n, "display") {
                    match value_display(v) {
                        Some(d) => {
                            self.ws_display = Some(d);
                            Ok(())
                        },
                        None => Err(OptionError::BadValue),
                    }
                } else if str_eq(n, "tap") {
                    match value_strings(v) {
                        Some(ts) => {
                            self.taps = ts;
                            Ok(())
                        },
                        None => Err(OptionError::BadValue),
                    }
                } else if str_eq(n, "subdissector") {
                    match value_subdissector(v) {
                        Some(sd) => {
                            self.subdissector = Some(sd);
                            Ok(())
                        },
                        None => Err(OptionError::BadValue),
                    }
                } else {
                    Err(OptionError::Unrecognized)
                }
            },
            MetaItem::List(_) => Err(OptionError::UnexpectedList),
        }
    }
}

/// The options of an enum variant.
#[derive(Debug, Default)]
pub struct VariantOptions {
    pub rename: Option<String>,
    pub pre_dissect: Vec<String>,
    pub post_dissect: Vec<String>,
}

pub struct VariantOptionsV {
    pub rename: Option<Seq<char>>,
    pub pre_dissect: Seq<Seq<char>>,
    pub post_dissect: Seq<Seq<char>>,
}

impl View for VariantOptions {
    type V = VariantOptionsV;

    open spec fn view(&self) -> VariantOptionsV {
        VariantOptionsV {
            rename: opt_view(self.rename),
            pre_dissect: self.pre_dissect@.map_values(|t: String| t@),
            post_dissect: self.post_dissect@.map_values(|t: String| t@),
        }
    }
}

/// The variant options after one more item, or why the item is refused.
pub open spec fn variant_option(o: VariantOptionsV, m: MetaV) -> Result<VariantOptionsV, OptionError> {
    match m {
        MetaV::NameValue(n, v) => if n == "rename"@ {
            match string_of(v) {
                Some(s) => Ok(VariantOptionsV { rename: Some(s), ..o }),
                None => Err(OptionError::BadValue),
            }
        } else if n == "pre_dissect"@ {
            match strings_of(v) {
                Some(ts) => Ok(VariantOptionsV { pre_dissect: ts, ..o }),
                None => Err(OptionError::BadValue),
            }
        } else if n == "post_dissect"@ {
            match strings_of(v) {
                Some(ts) => Ok(VariantOptionsV { post_dissect: ts, ..o }),
                None => Err(OptionError::BadValue),
            }
        } else {
            Err(OptionError::Unrecognized)
        },
        _ => Err(OptionError::NotNameValue),
    }
}

impl VariantOptions {
    /// Applies one option item. A refused item leaves the options as they were.
    pub fn add_option(&mut self, meta: &MetaItem) -> (r: Result<(), OptionError>)
        ensures
            match variant_option(old(self)@, meta@) {
                Ok(n) => r is Ok && final(self)@ == n,
                Err(e) => r == Err::<(), _>(e) && final(self)@ == old(self)@,
            },
    {
        match meta {
            MetaItem::NameValue(n, v) => {
                let n = n.as_str();
                if str_eq(n, "rename") {
                    match value_string(v) {
                        Some(t) => {
                            self.rename = Some(t);
                            Ok(())
                        },
                        None => Err(OptionError::BadValue),
                    }
                } else if str_eq(n, "pre_dissect") || str_eq(n, "post_dissect") {
                    match value_strings(v) {
                        Some(ts) => {
                            if str_eq(n, "pre_dissect") {
                                self.pre_dissect = ts;
                            } else {
                                self.post_dissect = ts;
                            }
                            Ok(())
                        },
                        None => Err(OptionError::BadValue),
                    }
                } else {
                    Err(OptionError::Unrecognized)
                }
            },
            _ => Err(OptionError::NotNameValue),
        }
    }
}

/// The hook options of a type that can be dissected.
#[derive(Debug, Default)]
pub struct ProtocolFieldOptions {
    pub pre_dissect: Vec<String>,
    pub post_dissect: Vec<String>,
}

pub struct ProtocolFieldOptionsV {
    pub pre_dissect: Seq<Seq<char>>,
    pub post_dissect: Seq<Seq<char>>,
}

impl View for ProtocolFieldOptions {
    type V = ProtocolFieldOptionsV;

    open spec fn view(&self) -> ProtocolFieldOptionsV {
        ProtocolFieldOptionsV {
            pre_dissect: self.pre_dissect@.map_values(|t: String| t@),
            post_dissect: self.post_dissect@.map_values(|t: String| t@),
        }
    }
}

/// The names of protocol-level options, which may stand beside hook options.
pub open spec fn is_protocol_key(n: Seq<char>) -> bool {
    n == "proto_desc"@ || n == "proto_name"@ || n == "proto_filter"@ || n == "decode_from"@
}

/// The hook options after one more item, or why the item is refused.
pub open spec fn protocol_field_option(o: ProtocolFieldOptionsV, m: MetaV) -> Result<
    ProtocolFieldOptionsV,
    OptionError,
> {
    match m {
        MetaV::NameValue(n, v) => if n == "pre_dissect"@ {
            match strings_of(v) {
                Some(ts) => Ok(ProtocolFieldOptionsV { pre_dissect: ts, ..o }),
                None => Err(OptionError::BadValue),
            }
        } else if n == "post_dissect"@ {
            match strings_of(v) {
                Some(ts) => Ok(ProtocolFieldOptionsV { post_dissect: ts, ..o }),
                None => Err(OptionError::BadValue),
            }
        } else if is_protocol_key(n) {
            Ok(o)
        } else {
            Err(OptionError::Unrecognized)
        },
        _ => Err(OptionError::NotNameValue),
    }
}

impl ProtocolFieldOptions {
    /// Applies one option item; protocol-level items are passed over. A refused item leaves
    /// the options as they were.
    pub fn add_option(&mut self, meta: &MetaItem) -> (r: Result<(), OptionError>)
        ensures
            match protocol_field_option(old(self)@, meta@) {
                Ok(n) => r is Ok && final(self)@ == n,
                Err(e) => r == Err::<(), _>(e) && final(self)@ == old(self)@,
            },
    {
        match meta {
            MetaItem::NameValue(n, v) => {
                let n = n.as_str();
                if str_eq(n, "pre_dissect") || str_eq(n, "post_dissect") {
                    match value_strings(v) {
                        Some(ts) => {
                            if str_eq(n, "pre_dissect") {
                                self.pre_dissect = ts;
                            } else {
                                self.post_dissect = ts;
                            }
                            Ok(())
                        },
                        None => Err(OptionError::BadValue),
                    }
                } else if str_eq(n, "proto_desc") || str_eq(n, "proto_name") || str_eq(n, "proto_filter")
                    || str_eq(n, "decode_from") {
                    Ok(())
                } else {
                    Err(OptionError::Unrecognized)
                }
            },
            _ => Err(OptionError::NotNameValue),
        }
    }
}

/// A dissector table the protocol registers itself in: a table to decode as, or an integer
/// table with the values it answers to.
#[derive(Debug)]
pub enum DecodeFrom {
    DecodeAs(String),
    Uint(String, Vec<u32>),
}

pub enum DecodeFromV {
    DecodeAs(Seq<char>),
    Uint(Seq<char>, Seq<u32>),
}

impl View for DecodeFrom {
    type V = DecodeFromV;

    open spec fn view(&self) -> DecodeFromV {
        match self {
            DecodeFrom::DecodeAs(t) => DecodeFromV::DecodeAs(t@),
            DecodeFrom::Uint(t, ps) => DecodeFromV::Uint(t@, ps@),
        }
    }
}

/// The options of a protocol.
#[derive(Debug, Default)]
pub struct ProtocolOptions {
    pub decode_from: Vec<DecodeFrom>,
    pub proto_desc: Option<String>,
    pub proto_name: Option<String>,
    pub proto_filter: Option<String>,
}

pub struct ProtocolOptionsV {
    pub decode_from: Seq<DecodeFromV>,
    pub proto_desc: Option<Seq<char>>,
    pub proto_name: Option<Seq<char>>,
    pub proto_filter: Option<Seq<char>>,
}

impl View for ProtocolOptions {
    type V = ProtocolOptionsV;

    open spec fn view(&self) -> ProtocolOptionsV {
        ProtocolOptionsV {
            decode_from: self.decode_from@.map_values(|d: DecodeFrom| d@),
            proto_desc: opt_view(self.proto_desc),
            proto_name: opt_view(self.proto_name),
            proto_filter: opt_view(self.proto_filter),
        }
    }
}

/// The literals of an element: itself, or those of its tuple.
pub open spec fn lits_of(e: ElemV) -> Seq<LitV> {
    match e {
        ElemV::One(l) => seq![l],
        ElemV::Tuple(ls) => ls,
    }
}

/// An integer literal that fits 32 bits.
pub open spec fn port_of(l: LitV) -> Option<u32> {
    match l {
        LitV::Int(i) => if i <= u32::MAX {
            Some(i as u32)
        } else {
            None
        },
        _ => None,
    }
}

pub open spec fn all_ports(ls: Seq<LitV>) -> bool {
    forall|i: int| 0 <= i < ls.len() ==> (#[trigger] port_of(ls[i])) is Some
}

pub open spec fn ports(ls: Seq<LitV>) -> Seq<u32> {
    ls.map_values(|l: LitV| port_of(l)->0)
}

/// One entry of a `decode_from` option: `"table"`, or `("table", value, ...)`.
pub open spec fn decode_from_entry(e: ElemV) -> Option<DecodeFromV> {
    let ls = lits_of(e);
    if ls.len() == 1 {
        match str_of(ls[0]) {
            Some(t) => Some(DecodeFromV::DecodeAs(t)),
            None => None,
        }
    } else if ls.len() >= 2 && str_of(ls[0]) is Some && all_ports(ls.skip(1)) {
        Some(DecodeFromV::Uint(str_of(ls[0])->0, ports(ls.skip(1))))
    } else {
        None
    }
}

/// The entries of a `decode_from` option, if every one is well formed.
pub open spec fn decode_from_of(v: ValueV) -> Option<Seq<DecodeFromV>> {
    let items = unpacked(v);
    if forall|i: int| 0 <= i < items.len() ==> (#[trigger] decode_from_entry(items[i])) is Some {
        Some(items.map_values(|e: ElemV| decode_from_entry(e)->0))
    } else {
        None
    }
}

/// The protocol options after one more item, or why the item is refused; `decode_from`
/// entries add to those given before.
pub open spec fn protocol_option(o: ProtocolOptionsV, m: MetaV) -> Result<ProtocolOptionsV, OptionError> {
    match m {
        MetaV::NameValue(n, v) => if n == "decode_from"@ {
            match decode_from_of(v) {
                Some(es) => Ok(ProtocolOptionsV { decode_from: o.decode_from + es, ..o }),
                None => Err(OptionError::BadValue),
            }
        } else if n == "proto_desc"@ {
            match string_of(v) {
                Some(t) => Ok(ProtocolOptionsV { proto_desc: Some(t), ..o }),
                None => Err(OptionError::BadValue),
            }
        } else if n == "proto_name"@ {
            match string_of(v) {
                Some(t) => Ok(ProtocolOptionsV { proto_name: Some(t), ..o }),
                None => Err(OptionError::BadValue),
            }
        } else if n == "proto_filter"@ {
            match string_of(v) {
                Some(t) => Ok(ProtocolOptionsV { proto_filter: Some(t), ..o }),
                None => Err(OptionError::BadValue),
            }
        } else if n == "pre_dissect"@ || n == "post_dissect"@ {
            Ok(o)
        } else {
            Err(OptionError::Unrecognized)
        },
        _ => Err(OptionError::NotNameValue),
    }
}

/// The values of literals `from..`, if all are 32-bit integers.
fn lit_ports(ls: &Vec<Lit>, from: usize) -> (r: Option<Vec<u32>>)
    requires
        from <= ls@.len(),
    ensures
        r is Some <==> all_ports(ls@.map_values(|l: Lit| l@).skip(from as int)),
        r matches Some(ps) ==> ps@ == ports(ls@.map_values(|l: Lit| l@).skip(from as int)),
{
    let ghost lv = ls@.map_values(|l: Lit| l@).skip(from as int);
    let mut out: Vec<u32> = Vec::new();
    let mut i: usize = from;
    while i < ls.len()
        invariant
            from <= i <= ls@.len(),
            lv == ls@.map_values(|l: Lit| l@).skip(from as int),
            all_ports(lv.take(i - from)),
            out@ == ports(lv.take(i - from)),
        decreases ls@.len() - i,
    {
        assert(lv[i - from] == ls@[i as int]@);
        match &ls[i] {
            Lit::Int(v) if *v <= u32::MAX as u64 => {
                out.push(*v as u32);
                proof {
                    assert(lv.take(i + 1 - from) =~= lv.take(i - from).push(lv[i - from]));
                    assert(ports(lv.take(i + 1 - from)) =~= ports(lv.take(i - from)).push(*v as u32));
                    assert forall|k: int| 0 <= k < lv.take(i + 1 - from).len() implies (#[trigger] port_of(lv.take(i + 1 - from)[k])) is Some by {
                        if k < i - from {
                            assert(lv.take(i + 1 - from)[k] == lv.take(i - from)[k]);
                        }
                    }
                }
            },
            _ => {
                assert(port_of(lv[i - from]) is None);
                return None;
            },
        }
        i = i + 1;
    }
    assert(lv.take(ls@.len() - from) =~= lv);
    Some(out)
}

fn decode_from_item(e: &Elem) -> (r: Option<DecodeFrom>)
    ensures
        match decode_from_entry(e@) {
            Some(d) => r matches Some(x) && x@ == d,
            None => r is None,
        },
{
    match e {
        Elem::One(l) => {
            assert(lits_of(e@) =~= seq![l@]);
            match lit_string(l) {
                Some(t) => Some(DecodeFrom::DecodeAs(t)),
                None => None,
            }
        },
        Elem::Tuple(ls) => {
            let ghost lv = ls@.map_values(|l: Lit| l@);
            assert(lits_of(e@) == lv);
            if ls.len() == 0 {
                return None;
            }
            assert(lv[0] == ls@[0]@);
            let name = lit_string(&ls[0]);
            if ls.len() == 1 {
                return match name {
                    Some(t) => Some(DecodeFrom::DecodeAs(t)),
                    None => None,
                };
            }
            match name {
                None => None,
                Some(t) => match lit_ports(ls, 1) {
                    Some(ps) => Some(DecodeFrom::Uint(t, ps)),
                    None => None,
                },
            }
        },
    }
}

fn decode_from_items(v: &MetaValue) -> (r: Option<Vec<DecodeFrom>>)
    ensures
        match decode_from_of(v@) {
            Some(es) => r matches Some(xs) && xs@.map_values(|d: DecodeFrom| d@) == es,
            None => r is None,
        },
{
    let mut out: Vec<DecodeFrom> = Vec::new();
    match v {
        MetaValue::One(l) => {
            let e = Elem::One(match l {
                Lit::Str(t) => Lit::Str(t.clone()),
                Lit::Bool(b) => Lit::Bool(*b),
                Lit::Int(i) => Lit::Int(*i),
                Lit::Other => Lit::Other,
            });
            assert(unpacked(v@) =~= seq![e@]);
            match decode_from_item(&e) {
                Some(d) => {
                    out.push(d);
                    assert(out@.map_values(|d: DecodeFrom| d@) =~= unpacked(v@).map_values(
                        |e: ElemV| decode_from_entry(e)->0,
                    ));
                    Some(out)
                },
                None => {
                    assert(decode_from_entry(unpacked(v@)[0]) is None);
                    None
                },
            }
        },
        MetaValue::Or(_, _) => {
            assert(unpacked(v@) =~= seq![ElemV::One(LitV::Other)]);
            assert(decode_from_entry(unpacked(v@)[0]) is None);
            None
        },
        MetaValue::Many(es) => {
            let ghost ev = es@.map_values(|e: Elem| e@);
            assert(unpacked(v@) == ev);
            let mut i: usize = 0;
            while i < es.len()
                invariant
                    i <= es@.len(),
                    ev == es@.map_values(|e: Elem| e@),
                    unpacked(v@) == ev,
                    forall|k: int| 0 <= k < i ==> (#[trigger] decode_from_entry(ev[k])) is Some,
                    out@.map_values(|d: DecodeFrom| d@) == ev.take(i as int).map_values(
                        |e: ElemV| decode_from_entry(e)->0,
                    ),
                decreases es@.len() - i,
            {
                assert(ev[i as int] == es@[i as int]@);
                match decode_from_item(&es[i]) {
                    Some(d) => {
                        let ghost before = out@;
                        out.push(d);
                        proof {
                            assert(ev.take(i + 1) =~= ev.take(i as int).push(ev[i as int]));
                            assert(out@.map_values(|d: DecodeFrom| d@) =~= before.map_values(
                                |d: DecodeFrom| d@,
                            ).push(d@));
                            assert(ev.take(i + 1).map_values(|e: ElemV| decode_from_entry(e)->0)
                                =~= ev.take(i as int).map_values(|e: ElemV| decode_from_entry(e)->0).push(
                                decode_from_entry(ev[i as int])->0,
                            ));
                        }
                    },
                    None => {
                        assert(decode_from_entry(unpacked(v@)[i as int]) is None);
                        return None;
                    },
                }
                i = i + 1;
            }
            assert(ev.take(es@.len() as int) =~= ev);
            Some(out)
        },
    }
}

impl ProtocolOptions {
    /// Applies one option item; hook items are passed over. A refused item leaves the
    /// options as they were.
    pub fn add_option(&mut self, meta: &MetaItem) -> (r: Result<(), OptionError>)
        ensures
            match protocol_option(old(self)@, meta@) {
                Ok(n) => r is Ok && final(self)@ == n,
                Err(e) => r == Err::<(), _>(e) && final(self)@ == old(self)@,
            },
    {
        match meta {
            MetaItem::NameValue(n, v) => {
                let n = n.as_str();
                if str_eq(n, "decode_from") {
                    match decode_from_items(v) {
                        Some(xs) => {
                            let ghost before = self@.decode_from;
                            let ghost xv = xs@.map_values(|d: DecodeFrom| d@);
                            let mut xs = xs;
                            self.decode_from.append(&mut xs);
                            proof {
                                assert(self@.decode_from =~= before + xv);
                            }
                            Ok(())
                        },
                        None => Err(OptionError::BadValue),
                    }
                } else if str_eq(n, "proto_desc") || str_eq(n, "proto_name") || str_eq(n, "proto_filter") {
                    let t = match value_string(v) {
                        Some(t) => t,
                        None => {
                            return Err(OptionError::BadValue);
                        },
                    };
                    if str_eq(n, "proto_desc") {
                        self.proto_desc = Some(t);
                    } else if str_eq(n, "proto_name") {
                        self.proto_name = Some(t);
                    } else {
                        self.proto_filter = Some(t);
                    }
                    Ok(())
                } else if str_eq(n, "pre_dissect") || str_eq(n, "post_dissect") {
                    Ok(())
                } else {
                    Err(OptionError::Unrecognized)
                }
            },
            _ => Err(OptionError::NotNameValue),
        }
    }
}

} // verus!
