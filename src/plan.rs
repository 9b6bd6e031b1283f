//! The per-field dissection plan of a composite, derived in one pure pass.
use vstd::prelude::*;

use crate::schema::{ByteLen, CompositeSchema, Count, FieldSchema, FieldType, Subdissector};

verus! {

/// How a field is decoded and added to the tree; exactly one applies to each field.
#[derive(Debug, Clone, Copy, PartialEq, Eq)]
pub enum Strategy {
    /// Hand the rest of the buffer to external decoders.
    Subdissect,
    /// Let a host function consume the field and report its size.
    ConsumeWith(usize),
    /// Let a host function format the field, whose size its type gives.
    DecodeWith(usize),
    /// Decode for the size only, with no tree entry.
    Hidden,
    /// Decode the field by its type.
    Default,
}

/// What the executor does for one field.
#[derive(Debug, Clone, Copy, PartialEq, Eq)]
pub struct FieldPlan {
    /// The value is kept for later fields, taps, hooks or resolvers.
    pub emit: bool,
    /// The value is written into both field stores.
    pub save: bool,
    /// A context is built for the field's host callbacks.
    pub needs_context: bool,
    pub strategy: Strategy,
}

/// The field has host callbacks that read a context.
pub open spec fn needs_context_spec(f: FieldSchema) -> bool {
    f.taps@.len() > 0 || f.consume_with is Some || f.decode_with is Some || f.get_variant is Some
}

/// Field `f` reads the value of field `k` as a length hint or a subdissector key.
pub open spec fn refers_to(f: FieldSchema, k: usize) -> bool {
    let by_type = match f.ty {
        FieldType::Bytes(ByteLen::Hint(h)) => h == k,
        FieldType::Sequence { count: Count::Hint(h), .. } => h == k,
        _ => false,
    };
    let by_key = match f.subdissector {
        Some(Subdissector::Table { keys, .. }) => keys@.contains(k),
        _ => false,
    };
    by_type || by_key
}

/// Field `j` of `c` must be emitted: its own callbacks need it, or a field of the composite
/// reads it.
pub open spec fn emit_spec(c: CompositeSchema, j: int) -> bool {
    needs_context_spec(c.fields@[j]) || exists|i: int|
        0 <= i < c.fields@.len() && #[trigger] refers_to(c.fields@[i], j as usize)
}

/// The strategy of a field, by priority: subdissector, consume-with, decode-with, hidden,
/// default.
pub open spec fn strategy_spec(f: FieldSchema) -> Strategy {
    if f.subdissector is Some {
        Strategy::Subdissect
    } else if f.consume_with is Some {
        Strategy::ConsumeWith(f.consume_with->0)
    } else if f.decode_with is Some {
        Strategy::DecodeWith(f.decode_with->0)
    } else if f.hidden {
        Strategy::Hidden
    } else {
        Strategy::Default
    }
}

/// The plan of field `j` of `c`.
pub open spec fn plan_spec(c: CompositeSchema, j: int) -> FieldPlan {
    FieldPlan {
        emit: emit_spec(c, j),
        save: c.fields@[j].save,
        needs_context: needs_context_spec(c.fields@[j]),
        strategy: strategy_spec(c.fields@[j]),
    }
}

/// Whether a field's host callbacks need a context.
pub fn needs_context(f: &FieldSchema) -> (r: bool)
    ensures
        r == needs_context_spec(*f),
{
    f.taps.len() > 0 || f.consume_with.is_some() || f.decode_with.is_some()
        || f.get_variant.is_some()
}

/// The strategy that applies to a field.
pub fn strategy_for(f: &FieldSchema) -> (r: Strategy)
    ensures
        r == strategy_spec(*f),
{
    if f.subdissector.is_some() {
        Strategy::Subdissect
    } else if let Some(g) = f.consume_with {
        Strategy::ConsumeWith(g)
    } else if let Some(g) = f.decode_with {
        Strategy::DecodeWith(g)
    } else if f.hidden {
        Strategy::Hidden
    } else {
        Strategy::Default
    }
}

/// Whether field `f` reads field `k`.
fn reads_field(f: &FieldSchema, k: usize) -> (r: bool)
    ensures
        r == refers_to(*f, k),
{
    let by_type = match f.ty {
        FieldType::Bytes(ByteLen::Hint(h)) => h == k,
        FieldType::Sequence { count: Count::Hint(h), .. } => h == k,
        _ => false,
    };
    if by_type {
        return true;
    }
    match &f.subdissector {
        Some(Subdissector::Table { keys, .. }) => {
            let mut i: usize = 0;
            while i < keys.len()
                invariant
                    i <= keys@.len(),
                    forall|t: int| 0 <= t < i ==> keys@[t] != k,
                    !by_type,
                    f.subdissector matches Some(Subdissector::Table { keys: ks, .. }) && ks == *keys,
                decreases keys@.len() - i,
            {
                if keys[i] == k {
                    assert(keys@[i as int] == k);
                    return true;
                }
                i = i + 1;
            }
            false
        },
        _ => false,
    }
}

/// Derives the plan of every field of a composite, in order.
pub fn plan(c: &CompositeSchema) -> (r: Vec<FieldPlan>)
    ensures
        r@.len() == c.fields@.len(),
        forall|j: int| 0 <= j < c.fields@.len() ==> r@[j] == #[trigger] plan_spec(*c, j),
{
    let n = c.fields.len();
    let mut plans: Vec<FieldPlan> = Vec::new();
    let mut j: usize = 0;
    while j < n
        invariant
            n == c.fields@.len(),
            j <= n,
            plans@.len() == j,
            forall|t: int| 0 <= t < j ==> plans@[t] == #[trigger] plan_spec(*c, t),
        decreases n - j,
    {
        let f = &c.fields[j];
        let mut read = false;
        let mut i: usize = 0;
        while i < n && !read
            invariant
                n == c.fields@.len(),
                j < n,
                i <= n,
                read ==> exists|t: int| 0 <= t < n && #[trigger] refers_to(c.fields@[t], j),
                !read ==> forall|t: int| 0 <= t < i ==> !#[trigger] refers_to(c.fields@[t], j),
            decreases n - i,
        {
            if reads_field(&c.fields[i], j) {
                read = true;
            }
            i = i + 1;
        }
        assert(read == exists|t: int| 0 <= t < n && #[trigger] refers_to(c.fields@[t], j));
        let ctx = needs_context(f);
        let strategy = strategy_for(f);
        assert(((j as int) as usize) == j);
        assert((ctx || read) == emit_spec(*c, j as int));
        plans.push(FieldPlan { emit: ctx || read, save: f.save, needs_context: ctx, strategy });
        assert(plans@[j as int] == plan_spec(*c, j as int));
        j = j + 1;
    }
    plans
}

} // verus!
