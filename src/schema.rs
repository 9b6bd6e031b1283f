//! The declarative description of a protocol: composites, their fields, and enums.
use vstd::prelude::*;

verus! {

/// The byte order of an integer on the wire.
#[derive(Debug, Clone, Copy, PartialEq, Eq)]
pub enum ByteOrder {
    Big,
    Little,
}

/// How many elements a sequence holds.
#[derive(Debug, Clone, Copy, PartialEq, Eq)]
pub enum Count {
    /// A count fixed by the schema.
    Fixed(usize),
    /// The value of an earlier integer field of the same composite, by index.
    Hint(usize),
}

/// How many bytes an opaque byte field spans.
#[derive(Debug, Clone, Copy, PartialEq, Eq)]
pub enum ByteLen {
    Fixed(usize),
    /// The value of an earlier integer field of the same composite, by index.
    Hint(usize),
    /// Everything that is left of the buffer.
    Rest,
}

/// The element type of a sequence.
#[derive(Debug, Clone, Copy, PartialEq, Eq)]
pub enum Elem {
    UInt { width: usize, order: ByteOrder },
    /// A composite, by index into the schema's composites.
    Composite(usize),
}

/// The declared type of a field.
#[derive(Debug, Clone, Copy, PartialEq, Eq)]
pub enum FieldType {
    /// An unsigned integer of 1, 2, 4 or 8 bytes.
    UInt { width: usize, order: ByteOrder },
    /// Opaque bytes.
    Bytes(ByteLen),
    /// A nested composite, by index into the schema's composites.
    Composite(usize),
    /// A repeated element.
    Sequence { elem: Elem, count: Count },
    /// A sum type, by index into the schema's enums.
    Enum(usize),
}

/// Where a field's bytes are handed to external decoders.
#[derive(Debug)]
pub enum Subdissector {
    /// One decoder selected by the user for a named table.
    DecodeAs(String),
    /// A named table, tried with the values of the key fields (indices of earlier integer
    /// fields of the same composite) in the order given.
    Table { table: String, keys: Vec<usize> },
}

/// One field of a composite.
#[derive(Debug)]
pub struct FieldSchema {
    pub name: String,
    pub ty: FieldType,
    /// Decoded for its size only, with no tree entry.
    pub hidden: bool,
    /// Written into the field stores once decoded.
    pub save: bool,
    /// Display name to use instead of the title-cased field name.
    pub rename: Option<String>,
    /// A host function that formats the field, whose size is known from its type.
    pub decode_with: Option<usize>,
    /// A host function that consumes the field from the buffer and reports its size.
    pub consume_with: Option<usize>,
    pub subdissector: Option<Subdissector>,
    /// The host resolver that names the variant of an enum field.
    pub get_variant: Option<usize>,
    /// Host observers called, in order, once the field is decoded.
    pub taps: Vec<usize>,
}

/// An ordered list of fields with hooks that run before the first and after the last.
#[derive(Debug)]
pub struct CompositeSchema {
    pub name: String,
    pub fields: Vec<FieldSchema>,
    pub pre_dissect: Vec<usize>,
    pub post_dissect: Vec<usize>,
}

/// One alternative of an enum: a name and the composite that is decoded for it.
#[derive(Debug)]
pub struct VariantSchema {
    pub name: String,
    pub composite: usize,
}

/// A sum type whose variant a resolver names.
#[derive(Debug)]
pub struct EnumSchema {
    pub name: String,
    pub variants: Vec<VariantSchema>,
}

/// A protocol: its filter name, its types, and the composite that a packet starts with.
#[derive(Debug)]
pub struct Schema {
    pub name: String,
    pub composites: Vec<CompositeSchema>,
    pub enums: Vec<EnumSchema>,
    pub root: usize,
}

/// The integer widths that can be read.
pub open spec fn valid_width(w: usize) -> bool {
    w == 1 || w == 2 || w == 4 || w == 8
}

/// Field `k` exists before field `j` of `c` and is an integer.
pub open spec fn is_uint_before(c: CompositeSchema, k: usize, j: int) -> bool {
    &&& k < j
    &&& c.fields@[k as int].ty is UInt
}

/// At most one of decode-with, consume-with and subdissector is declared.
pub open spec fn one_strategy(f: FieldSchema) -> bool {
    (f.decode_with is Some) as int + (f.consume_with is Some) as int + (f.subdissector is Some) as int
        <= 1
}

/// The type of field `j` of `c` refers only to things that exist, and its length hints to
/// earlier integer fields.
pub open spec fn type_ok(s: Schema, c: CompositeSchema, j: int) -> bool {
    let f = c.fields@[j];
    match f.ty {
        FieldType::UInt { width, .. } => valid_width(width),
        FieldType::Bytes(ByteLen::Hint(h)) => is_uint_before(c, h, j),
        FieldType::Bytes(_) => true,
        FieldType::Composite(k) => k < s.composites@.len(),
        FieldType::Sequence { elem, count } => {
            &&& match elem {
                Elem::UInt { width, .. } => valid_width(width),
                Elem::Composite(k) => k < s.composites@.len(),
            }
            &&& match count {
                Count::Hint(h) => is_uint_before(c, h, j),
                Count::Fixed(_) => true,
            }
        },
        FieldType::Enum(e) => e < s.enums@.len() && f.get_variant is Some,
    }
}

/// The subdissector keys of field `j` of `c` are earlier integer fields.
pub open spec fn keys_ok(c: CompositeSchema, j: int) -> bool {
    match c.fields@[j].subdissector {
        Some(Subdissector::Table { keys, .. }) => forall|i: int|
            0 <= i < keys@.len() ==> is_uint_before(c, #[trigger] keys@[i], j),
        _ => true,
    }
}

/// Field `j` of `c` is well formed; only integers are saved.
pub open spec fn field_ok(s: Schema, c: CompositeSchema, j: int) -> bool {
    &&& one_strategy(c.fields@[j])
    &&& type_ok(s, c, j)
    &&& keys_ok(c, j)
    &&& (c.fields@[j].save ==> c.fields@[j].ty is UInt)
    &&& forall|i: int| 0 <= i < j ==> c.fields@[i].name@ != #[trigger] c.fields@[j].name@
}

/// Every field of composite `c` is well formed.
pub open spec fn composite_ok(s: Schema, c: CompositeSchema) -> bool {
    forall|j: int| 0 <= j < c.fields@.len() ==> #[trigger] field_ok(s, c, j)
}

/// Every variant of `e` names an existing composite, and variant names are distinct.
pub open spec fn enum_ok(s: Schema, e: EnumSchema) -> bool {
    forall|v: int|
        0 <= v < e.variants@.len() ==> {
            &&& #[trigger] e.variants@[v].composite < s.composites@.len()
            &&& forall|u: int| 0 <= u < v ==> e.variants@[u].name@ != e.variants@[v].name@
        }
}

/// A schema that registration accepts: all references resolve, no two composites share a
/// name, and every composite and enum is well formed.
pub open spec fn schema_ok(s: Schema) -> bool {
    &&& s.root < s.composites@.len()
    &&& forall|c: int| 0 <= c < s.composites@.len() ==> #[trigger] composite_ok(s, s.composites@[c])
    &&& forall|c: int, d: int|
        0 <= d < c < s.composites@.len() ==> #[trigger] s.composites@[d].name@
            != #[trigger] s.composites@[c].name@
    &&& forall|e: int| 0 <= e < s.enums@.len() ==> #[trigger] enum_ok(s, s.enums@[e])
}

} // verus!
