//! Detection of schema errors, which registration reports before any packet is decoded.
use vstd::prelude::*;

use crate::schema::{
    is_uint_before, keys_ok, one_strategy, schema_ok, type_ok, valid_width, composite_ok, enum_ok,
    field_ok, ByteLen, CompositeSchema, Count, Elem, EnumSchema, FieldType, Schema, Subdissector,
};
use crate::text::str_eq;

verus! {

/// What is wrong with a schema.
#[derive(Debug, Clone, Copy, PartialEq, Eq)]
pub enum SchemaErrorKind {
    /// The root composite does not exist.
    MissingRoot,
    /// More than one of decode-with, consume-with and subdissector is declared.
    ConflictingStrategies,
    /// A type, length hint, key or variant refers to something that does not exist or does
    /// not come earlier in the same composite, or an integer width is not 1, 2, 4 or 8.
    UnresolvedReference,
    /// A field that is not an integer is marked to be saved.
    UnsavableField,
    /// Two fields of one composite share a name.
    DuplicateField,
    /// Two composites share a name.
    DuplicateComposite,
    /// Two variants of one enum share a name.
    DuplicateVariant,
    /// The schema needs more identifiers than can be handed out.
    TooManyIdentifiers,
}

/// A schema error, with where it was found: a composite (or enum) index and a field (or
/// variant) index.
#[derive(Debug, Clone, Copy, PartialEq, Eq)]
pub struct SchemaError {
    pub kind: SchemaErrorKind,
    pub owner: usize,
    pub item: usize,
}

/// The schema error `e` is found where it says: the composite (or enum) `owner` and the
/// field (or variant, or earlier composite) `item` have the fault its kind names.
pub open spec fn error_located(s: Schema, e: SchemaError) -> bool {
    let cs = s.composites@;
    let field_at = e.owner < cs.len() && e.item < cs[e.owner as int].fields@.len();
    match e.kind {
        SchemaErrorKind::MissingRoot => s.root >= cs.len(),
        SchemaErrorKind::ConflictingStrategies => field_at && !one_strategy(
            cs[e.owner as int].fields@[e.item as int],
        ),
        SchemaErrorKind::UnresolvedReference => (field_at && !(type_ok(s, cs[e.owner as int], e.item as int)
            && keys_ok(cs[e.owner as int], e.item as int))) || (e.owner < s.enums@.len() && e.item
            < s.enums@[e.owner as int].variants@.len() && s.enums@[e.owner as int].variants@[e.item as int].composite
            >= cs.len()),
        SchemaErrorKind::UnsavableField => field_at && cs[e.owner as int].fields@[e.item as int].save
            && !(cs[e.owner as int].fields@[e.item as int].ty is UInt),
        SchemaErrorKind::DuplicateField => field_at && exists|i: int|
            0 <= i < e.item && #[trigger] cs[e.owner as int].fields@[i].name@ == cs[e.owner as int].fields@[e.item as int].name@,
        SchemaErrorKind::DuplicateComposite => e.owner < cs.len() && e.item < e.owner && cs[e.item as int].name@
            == cs[e.owner as int].name@,
        SchemaErrorKind::DuplicateVariant => e.owner < s.enums@.len() && e.item < s.enums@[e.owner as int].variants@.len()
            && exists|u: int|
            0 <= u < e.item && #[trigger] s.enums@[e.owner as int].variants@[u].name@
                == s.enums@[e.owner as int].variants@[e.item as int].name@,
        SchemaErrorKind::TooManyIdentifiers => true,
    }
}

fn is_uint_at(c: &CompositeSchema, k: usize, j: usize) -> (r: bool)
    requires
        j < c.fields@.len(),
    ensures
        r == is_uint_before(*c, k, j as int),
{
    k < j && matches!(c.fields[k].ty, FieldType::UInt { .. })
}

fn width_ok(w: usize) -> (r: bool)
    ensures
        r == valid_width(w),
{
    w == 1 || w == 2 || w == 4 || w == 8
}

fn check_type(s: &Schema, c: &CompositeSchema, j: usize) -> (r: bool)
    requires
        j < c.fields@.len(),
    ensures
        r == type_ok(*s, *c, j as int),
{
    let f = &c.fields[j];
    match f.ty {
        FieldType::UInt { width, .. } => width_ok(width),
        FieldType::Bytes(ByteLen::Hint(h)) => is_uint_at(c, h, j),
        FieldType::Bytes(_) => true,
        FieldType::Composite(k) => k < s.composites.len(),
        FieldType::Sequence { elem, count } => {
            let e = match elem {
                Elem::UInt { width, .. } => width_ok(width),
                Elem::Composite(k) => k < s.composites.len(),
            };
            let n = match count {
                Count::Hint(h) => is_uint_at(c, h, j),
                Count::Fixed(_) => true,
            };
            e && n
        },
        FieldType::Enum(e) => e < s.enums.len() && f.get_variant.is_some(),
    }
}

fn check_keys(c: &CompositeSchema, j: usize) -> (r: bool)
    requires
        j < c.fields@.len(),
    ensures
        r == keys_ok(*c, j as int),
{
    match &c.fields[j].subdissector {
        Some(Subdissector::Table { keys, .. }) => {
            let mut i: usize = 0;
            while i < keys.len()
                invariant
                    j < c.fields@.len(),
                    c.fields@[j as int].subdissector matches Some(Subdissector::Table { keys: ks, .. })
                        && ks == *keys,
                    i <= keys@.len(),
                    forall|t: int| 0 <= t < i ==> is_uint_before(*c, #[trigger] keys@[t], j as int),
                decreases keys@.len() - i,
            {
                if !is_uint_at(c, keys[i], j) {
                    return false;
                }
                i = i + 1;
            }
            true
        },
        _ => true,
    }
}

fn check_field(s: &Schema, c: &CompositeSchema, j: usize) -> (r: Result<(), SchemaErrorKind>)
    requires
        j < c.fields@.len(),
    ensures
        r is Ok <==> field_ok(*s, *c, j as int),
        r matches Err(k) ==> k != SchemaErrorKind::MissingRoot && k
            != SchemaErrorKind::TooManyIdentifiers && k != SchemaErrorKind::DuplicateComposite && k
            != SchemaErrorKind::DuplicateVariant,
        r == Err::<(), _>(SchemaErrorKind::UnresolvedReference) ==> !(type_ok(*s, *c, j as int)
            && keys_ok(*c, j as int)),
        r == Err::<(), _>(SchemaErrorKind::ConflictingStrategies) ==> !one_strategy(
            c.fields@[j as int],
        ),
        r == Err::<(), _>(SchemaErrorKind::UnsavableField) ==> c.fields@[j as int].save
            && !(c.fields@[j as int].ty is UInt),
        r == Err::<(), _>(SchemaErrorKind::DuplicateField) ==> exists|i: int|
            0 <= i < j && c.fields@[i].name@ == c.fields@[j as int].name@,
{
    let f = &c.fields[j];
    let n: usize = (if f.decode_with.is_some() { 1usize } else { 0 }) + (if f.consume_with.is_some() {
        1usize
    } else {
        0
    }) + (if f.subdissector.is_some() { 1usize } else { 0 });
    if n > 1 {
        return Err(SchemaErrorKind::ConflictingStrategies);
    }
    if !check_type(s, c, j) || !check_keys(c, j) {
        return Err(SchemaErrorKind::UnresolvedReference);
    }
    if f.save && !matches!(f.ty, FieldType::UInt { .. }) {
        return Err(SchemaErrorKind::UnsavableField);
    }
    let mut i: usize = 0;
    while i < j
        invariant
            j < c.fields@.len(),
            i <= j,
            f == c.fields@[j as int],
            forall|t: int| 0 <= t < i ==> c.fields@[t].name@ != c.fields@[j as int].name@,
        decreases j - i,
    {
        if str_eq(c.fields[i].name.as_str(), f.name.as_str()) {
            return Err(SchemaErrorKind::DuplicateField);
        }
        i = i + 1;
    }
    Ok(())
}

fn check_enum(s: &Schema, e: &EnumSchema) -> (r: Result<(), (SchemaErrorKind, usize)>)
    ensures
        r is Ok <==> enum_ok(*s, *e),
        r matches Err(k) ==> k.0 == SchemaErrorKind::UnresolvedReference || k.0
            == SchemaErrorKind::DuplicateVariant,
        r matches Err(k) ==> k.1 < e.variants@.len() && (k.0 == SchemaErrorKind::UnresolvedReference
            ==> e.variants@[k.1 as int].composite >= s.composites@.len()) && (k.0
            == SchemaErrorKind::DuplicateVariant ==> exists|u: int|
            0 <= u < k.1 && #[trigger] e.variants@[u].name@ == e.variants@[k.1 as int].name@),
{
    let mut v: usize = 0;
    while v < e.variants.len()
        invariant
            v <= e.variants@.len(),
            forall|t: int|
                0 <= t < v ==> {
                    &&& #[trigger] e.variants@[t].composite < s.composites@.len()
                    &&& forall|u: int| 0 <= u < t ==> e.variants@[u].name@ != e.variants@[t].name@
                },
        decreases e.variants@.len() - v,
    {
        if e.variants[v].composite >= s.composites.len() {
            return Err((SchemaErrorKind::UnresolvedReference, v));
        }
        let mut u: usize = 0;
        while u < v
            invariant
                v < e.variants@.len(),
                e.variants@[v as int].composite < s.composites@.len(),
                u <= v,
                forall|t: int| 0 <= t < u ==> e.variants@[t].name@ != e.variants@[v as int].name@,
            decreases v - u,
        {
            if str_eq(e.variants[u].name.as_str(), e.variants[v].name.as_str()) {
                assert(e.variants@[u as int].name@ == e.variants@[v as int].name@);
                assert(!enum_ok(*s, *e)) by {
                    assert(e.variants@[u as int].name@ == e.variants@[v as int].name@);
                    assert(e.variants@[v as int].composite < s.composites@.len());
                }
                return Err((SchemaErrorKind::DuplicateVariant, v));
            }
            u = u + 1;
        }
        v = v + 1;
    }
    Ok(())
}

/// Checks a schema for the errors that must stop startup.
pub fn check_schema(s: &Schema) -> (r: Result<(), SchemaError>)
    ensures
        r is Ok <==> schema_ok(*s),
        r matches Err(e) ==> e.kind != SchemaErrorKind::TooManyIdentifiers,
        r matches Err(e) ==> error_located(*s, e),
        r matches Err(e) ==> (e.kind == SchemaErrorKind::MissingRoot <==> s.root
            >= s.composites@.len()),
        r matches Err(e) ==> (e.kind == SchemaErrorKind::ConflictingStrategies ==> e.owner
            < s.composites@.len() && e.item < s.composites@[e.owner as int].fields@.len()
            && !one_strategy(s.composites@[e.owner as int].fields@[e.item as int])),
{
    if s.root >= s.composites.len() {
        return Err(SchemaError { kind: SchemaErrorKind::MissingRoot, owner: s.root, item: 0 });
    }
    let mut c: usize = 0;
    while c < s.composites.len()
        invariant
            s.root < s.composites@.len(),
            c <= s.composites@.len(),
            forall|t: int| 0 <= t < c ==> #[trigger] composite_ok(*s, s.composites@[t]),
            forall|t: int, d: int|
                0 <= d < t < c ==> #[trigger] s.composites@[d].name@
                    != #[trigger] s.composites@[t].name@,
        decreases s.composites@.len() - c,
    {
        let comp = &s.composites[c];
        let mut j: usize = 0;
        while j < comp.fields.len()
            invariant
                c < s.composites@.len(),
                s.root < s.composites@.len(),
                comp == s.composites@[c as int],
                j <= comp.fields@.len(),
                forall|t: int| 0 <= t < j ==> #[trigger] field_ok(*s, *comp, t),
            decreases comp.fields@.len() - j,
        {
            match check_field(s, comp, j) {
                Ok(()) => {},
                Err(kind) => {
                    assert(!composite_ok(*s, s.composites@[c as int]));
                    assert(kind != SchemaErrorKind::MissingRoot);
                    assert(s.root < s.composites@.len());
                    return Err(SchemaError { kind, owner: c, item: j });
                },
            }
            j = j + 1;
        }
        let mut d: usize = 0;
        while d < c
            invariant
                c < s.composites@.len(),
                s.root < s.composites@.len(),
                d <= c,
                forall|t: int| 0 <= t < d ==> s.composites@[t].name@ != s.composites@[c as int].name@,
            decreases c - d,
        {
            if str_eq(s.composites[d].name.as_str(), s.composites[c].name.as_str()) {
                return Err(SchemaError { kind: SchemaErrorKind::DuplicateComposite, owner: c, item: d });
            }
            d = d + 1;
        }
        c = c + 1;
    }
    let mut e: usize = 0;
    while e < s.enums.len()
        invariant
            schema_ok(*s) <==> forall|t: int| 0 <= t < s.enums@.len() ==> #[trigger] enum_ok(*s, s.enums@[t]),
            e <= s.enums@.len(),
            s.root < s.composites@.len(),
            forall|t: int| 0 <= t < e ==> #[trigger] enum_ok(*s, s.enums@[t]),
        decreases s.enums@.len() - e,
    {
        match check_enum(s, &s.enums[e]) {
            Ok(()) => {},
            Err((kind, v)) => {
                return Err(SchemaError { kind, owner: e, item: v });
            },
        }
        e = e + 1;
    }
    Ok(())
}

} // verus!
