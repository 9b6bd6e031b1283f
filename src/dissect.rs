//! The executor: a recursive-descent walk of a packet's bytes by a schema.
use vstd::prelude::*;
use vstd::slice::slice_subrange;

use crate::dispatch::{delegations, find_variant, try_subdissectors, Host, HostCall, TapValue};
use crate::plan::{plan, plan_spec, FieldPlan, Strategy};
use crate::schema::{
    composite_ok, field_ok, schema_ok, type_ok, FieldSchema, valid_width, ByteLen, Count, Elem,
    FieldType, Schema, Subdissector,
};
use crate::measure::{
    answers_of, delegation, hint_of, key_count, lemma_answers_of_concat,
    lemma_answers_of_delegations, lemma_delegation, variant_named, m_composite, m_field, m_fields, m_seq, m_strategy,
    m_type, tooks, Answer,
};
use crate::registry::Registry;
use crate::trace::{
    lemma_delegate_shapes,
    delegate_shapes, h_composite, h_field, h_fields, h_seq, h_strategy, h_type, key_values, mode_taps,
    shape, shapes, tap_shapes, CallShape,
};
use crate::tree::{
    child, err, field_id_of, kind_of, lemma_nodes_after, lemma_nodes_view_concat, node_view, nodes_view,
    subtree_id_of, t_composite, t_field, t_fields, t_seq, t_strategy, t_type, Kind, NodeV,
};
use crate::store::{
    lemma_save_load_round_trip, lookup, pow256, read_uint, uint_value, FieldStore, Saved,
};
use crate::text::concat_str;

verus! {

/// Whether the walk builds the tree or only measures.
#[derive(Debug, Clone, Copy, PartialEq, Eq, Structural)]
pub enum Mode {
    Tree,
    /// Measures only: no nodes are added and no taps or hooks are called, since observers
    /// cannot change what is consumed; the calls that decide consumption are still made.
    SizeOnly,
}

/// A decode error, recorded in the tree where it happened.
#[derive(Debug, Clone, Copy, PartialEq, Eq)]
pub enum DecodeError {
    /// A read went past the end of the buffer.
    OutOfRange,
    /// A length hint or count has no usable value.
    MissingHint,
    /// The resolver named no variant.
    NoVariant,
    /// The resolver named a variant the enum does not have.
    UnknownVariant,
    /// A host function or decoder reported more bytes than remain.
    BadConsumption,
    /// Composites are nested deeper than the walk allows.
    TooDeep,
}

/// What a tree node shows.
#[derive(Debug)]
pub enum NodeValue {
    /// A composite; its children follow it.
    Subtree,
    UInt(u64),
    Bytes,
    /// Text formatted by a host function.
    Text(String),
    /// Bytes handed to external decoders.
    Delegated,
    Error(DecodeError),
}

/// One node of the output tree, in pre-order: a dotted path and a byte range.
#[derive(Debug)]
pub struct Node {
    pub path: String,
    /// The identifier registration gave the field or subtree, if any.
    pub id: Option<u32>,
    pub start: usize,
    pub len: usize,
    pub value: NodeValue,
}

/// The result of dissecting one packet.
#[derive(Debug)]
pub struct Dissection {
    /// Bytes consumed by the root composite.
    pub consumed: usize,
    /// The tree, in pre-order; empty in size-only mode.
    pub nodes: Vec<Node>,
    /// How many decode errors were recorded.
    pub errors: usize,
}

/// The nodes from index `from` on lie within `lo..hi` and start in non-decreasing order.
pub open spec fn in_order(nodes: Seq<Node>, from: int, lo: int, hi: int) -> bool {
    &&& forall|i: int|
        from <= i < nodes.len() ==> lo <= #[trigger] nodes[i].start && nodes[i].start
            + nodes[i].len <= hi
    &&& forall|i: int, k: int|
        from <= i < k < nodes.len() ==> #[trigger] nodes[i].start <= #[trigger] nodes[k].start
}

/// `new` keeps every node of `old` and may add more after them.
pub open spec fn extends(old: Seq<Node>, new: Seq<Node>) -> bool {
    &&& old.len() <= new.len()
    &&& forall|i: int| 0 <= i < old.len() ==> new[i] == old[i]
}

/// What every step of the walk guarantees of the nodes: earlier nodes are kept, new ones lie
/// in order within the bytes the step consumed, and size-only mode adds none.
pub open spec fn step_ok(old: Seq<Node>, new: Seq<Node>, mode: Mode, lo: int, hi: int) -> bool {
    &&& extends(old, new)
    &&& in_order(new, old.len() as int, lo, hi)
    &&& mode == Mode::SizeOnly ==> new == old
}

proof fn lemma_join(a: Seq<Node>, b: Seq<Node>, c: Seq<Node>, mode: Mode, lo: int, mid: int, hi: int)
    requires
        step_ok(a, b, mode, lo, mid),
        step_ok(b, c, mode, mid, hi),
        lo <= mid <= hi,
    ensures
        step_ok(a, c, mode, lo, hi),
{
    assert forall|i: int, k: int| a.len() <= i < k < c.len() implies #[trigger] c[i].start
        <= #[trigger] c[k].start by {
        if k < b.len() {
            assert(c[i] == b[i] && c[k] == b[k]);
        } else if i < b.len() {
            assert(c[i] == b[i]);
        }
    }
    assert forall|i: int| a.len() <= i < c.len() implies lo <= #[trigger] c[i].start && c[i].start
        + c[i].len <= hi by {
        if i < b.len() {
            assert(c[i] == b[i]);
        }
    }
}

/// `prefix.name`
fn child_path(prefix: &str, name: &str) -> (r: String)
    ensures
        r@ == prefix@ + "."@ + name@,
{
    concat_str(prefix, ".").concat(name)
}

/// The offset a step reached, whether it finished or stopped at a decode error.
pub open spec fn reached(r: Result<usize, usize>) -> usize {
    match r {
        Ok(e) => e,
        Err(e) => e,
    }
}

/// The local store after a field at `off`: an integer field marked to be saved that fits in
/// the buffer adds its name and decoded value.
pub open spec fn saved_after(
    f: FieldSchema,
    data: Seq<u8>,
    off: int,
    local: Seq<(Seq<char>, Saved)>,
) -> Seq<(Seq<char>, Saved)> {
    match f.ty {
        FieldType::UInt { width, order } => if f.save && off + width <= data.len() {
            local.push(
                (
                    f.name@,
                    Saved { value: uint_value(data.subrange(off, off + width), order) as u64, width },
                ),
            )
        } else {
            local
        },
        _ => local,
    }
}

/// A step's outcome with its offsets as integers.
pub open spec fn as_int(r: Result<usize, usize>) -> Result<int, int> {
    match r {
        Ok(e) => Ok(e as int),
        Err(e) => Err(e as int),
    }
}

/// `new` is `old` with calls appended.
pub open spec fn grew(old: Seq<HostCall>, new: Seq<HostCall>) -> bool {
    old.len() <= new.len() && new.take(old.len() as int) == old
}

/// The answers that decide consumption among the calls appended to `old` to make `new`.
pub open spec fn said(old: Seq<HostCall>, new: Seq<HostCall>) -> Seq<Answer> {
    answers_of(new.skip(old.len() as int))
}

proof fn lemma_grew_chain(a: Seq<HostCall>, b: Seq<HostCall>, c: Seq<HostCall>)
    requires
        grew(a, b),
        grew(b, c),
    ensures
        grew(a, c),
        said(a, c) == said(a, b) + said(b, c),
        shapes(c.skip(a.len() as int)) == shapes(b.skip(a.len() as int)) + shapes(c.skip(b.len() as int)),
{
    assert(c.take(a.len() as int) =~= b.take(a.len() as int)) by {
        assert forall|i: int| 0 <= i < a.len() implies c.take(a.len() as int)[i] == b.take(
            a.len() as int,
        )[i] by {
            assert(c[i] == c.take(b.len() as int)[i]);
        }
    }
    assert(c.skip(a.len() as int) =~= b.skip(a.len() as int) + c.skip(b.len() as int)) by {
        assert forall|i: int| 0 <= i < c.skip(a.len() as int).len() implies c.skip(a.len() as int)[i]
            == (b.skip(a.len() as int) + c.skip(b.len() as int))[i] by {
            if i < b.len() - a.len() {
                assert(c[a.len() + i] == c.take(b.len() as int)[a.len() + i]);
            }
        }
    }
    lemma_answers_of_concat(b.skip(a.len() as int), c.skip(b.len() as int));
    assert(shapes(b.skip(a.len() as int) + c.skip(b.len() as int)) =~= shapes(b.skip(a.len() as int)) + shapes(c.skip(b.len() as int)));
}

proof fn lemma_grew_refl(a: Seq<HostCall>)
    ensures
        grew(a, a),
        said(a, a) == Seq::<Answer>::empty(),
        shapes(a.skip(a.len() as int)) == Seq::<CallShape>::empty(),
{
    assert(a.take(a.len() as int) =~= a);
    assert(a.skip(a.len() as int) =~= Seq::<HostCall>::empty());
    assert(shapes(Seq::<HostCall>::empty()) =~= Seq::<CallShape>::empty());
}

proof fn lemma_said_append(a: Seq<HostCall>, q: Seq<HostCall>)
    ensures
        grew(a, a + q),
        said(a, a + q) == answers_of(q),
        shapes((a + q).skip(a.len() as int)) == shapes(q),
{
    assert((a + q).take(a.len() as int) =~= a);
    assert((a + q).skip(a.len() as int) =~= q);
}

/// One call appended: what it adds to the answers.
proof fn lemma_said_push(a: Seq<HostCall>, x: HostCall)
    ensures
        grew(a, a.push(x)),
        said(a, a.push(x)) == answers_of(seq![x]),
        shapes(a.push(x).skip(a.len() as int)) == seq![shape(x)],
{
    lemma_said_append(a, seq![x]);
    assert(a + seq![x] =~= a.push(x));
    assert(shapes(seq![x]) =~= seq![shape(x)]);
}

proof fn lemma_answers_of_one(x: HostCall)
    ensures
        answers_of(seq![x]) == match x {
            HostCall::ConsumeWith { answer, .. } => seq![Answer::Took(answer)],
            HostCall::Delegate { answer, .. } => seq![Answer::Took(answer)],
            HostCall::DecodeAs { answer, .. } => seq![Answer::Took(answer)],
            HostCall::Resolve { answer, .. } => seq![Answer::Named(answer)],
            _ => Seq::<Answer>::empty(),
        },
{
    assert(seq![x].drop_last() =~= Seq::<HostCall>::empty());
    assert(answers_of(Seq::<HostCall>::empty()) =~= Seq::<Answer>::empty());
    assert(Seq::<Answer>::empty() + seq![Answer::Took(0)] =~= seq![Answer::Took(0)]);
    match x {
        HostCall::ConsumeWith { answer, .. } => {
            assert(Seq::<Answer>::empty() + seq![Answer::Took(answer)] =~= seq![Answer::Took(answer)]);
        },
        HostCall::Delegate { answer, .. } => {
            assert(Seq::<Answer>::empty() + seq![Answer::Took(answer)] =~= seq![Answer::Took(answer)]);
        },
        HostCall::DecodeAs { answer, .. } => {
            assert(Seq::<Answer>::empty() + seq![Answer::Took(answer)] =~= seq![Answer::Took(answer)]);
        },
        HostCall::Resolve { answer, .. } => {
            assert(Seq::<Answer>::empty() + seq![Answer::Named(answer)] =~= seq![Answer::Named(answer)]);
        },
        _ => {
            assert(Seq::<Answer>::empty() + Seq::<Answer>::empty() =~= Seq::<Answer>::empty());
        },
    }
}

/// The tap calls that running `taps` in order on one value makes.
pub open spec fn tap_calls(
    taps: Seq<usize>,
    value: TapValue,
    offset: usize,
    fields: Seq<(Seq<char>, Saved)>,
    local: Seq<(Seq<char>, Saved)>,
) -> Seq<HostCall> {
    Seq::new(taps.len(), |i: int| HostCall::Tap { tap: taps[i], value, offset, fields, local })
}

proof fn lemma_tap_calls_quiet(
    taps: Seq<usize>,
    value: TapValue,
    offset: usize,
    fields: Seq<(Seq<char>, Saved)>,
    local: Seq<(Seq<char>, Saved)>,
)
    ensures
        answers_of(tap_calls(taps, value, offset, fields, local)) == Seq::<Answer>::empty(),
    decreases taps.len(),
{
    let t = tap_calls(taps, value, offset, fields, local);
    if taps.len() > 0 {
        lemma_tap_calls_quiet(taps.drop_last(), value, offset, fields, local);
        assert(t.drop_last() =~= tap_calls(taps.drop_last(), value, offset, fields, local));
        assert(Seq::<Answer>::empty() + Seq::<Answer>::empty() =~= Seq::<Answer>::empty());
    } else {
        assert(t =~= Seq::<HostCall>::empty());
    }
}

/// Calls the taps in order, each once, with the same value, offset and stores.
fn run_taps<H: Host>(
    host: &mut H,
    taps: &Vec<usize>,
    value: TapValue,
    data: &[u8],
    offset: usize,
    fields: &FieldStore,
    local: &FieldStore,
)
    ensures
        final(host).calls() == old(host).calls() + tap_calls(taps@, value, offset, fields@, local@),
        grew(old(host).calls(), final(host).calls()),
        said(old(host).calls(), final(host).calls()) == Seq::<Answer>::empty(),
        shapes(final(host).calls().skip(old(host).calls().len() as int)) == tap_shapes(
            taps@,
            value,
            offset as int,
            fields@,
            local@,
        ),
{
    let mut t: usize = 0;
    assert(old(host).calls() + tap_calls(taps@.take(0), value, offset, fields@, local@) =~= old(host).calls());
    while t < taps.len()
        invariant
            t <= taps@.len(),
            host.calls() == old(host).calls() + tap_calls(taps@.take(t as int), value, offset, fields@, local@),
        decreases taps@.len() - t,
    {
        host.tap(taps[t], value, data, offset, fields, local);
        assert(host.calls() =~= old(host).calls() + tap_calls(taps@.take(t + 1), value, offset, fields@, local@));
        t = t + 1;
    }
    assert(taps@.take(taps@.len() as int) =~= taps@);
    proof {
        lemma_said_append(old(host).calls(), tap_calls(taps@, value, offset, fields@, local@));
        lemma_tap_calls_quiet(taps@, value, offset, fields@, local@);
        assert(shapes(tap_calls(taps@, value, offset, fields@, local@)) =~= tap_shapes(taps@, value, offset as int, fields@, local@));
    }
}

/// Records a decode error: counts it and, when building the tree, adds an error node.
fn record_error(mode: Mode, out: &mut Vec<Node>, errors: &mut usize, path: String, at: usize, e: DecodeError)
    ensures
        step_ok(old(out)@, final(out)@, mode, at as int, at as int),
        mode == Mode::Tree ==> nodes_view(final(out)@.skip(old(out)@.len() as int)) == seq![
            err(path@, at as int, e),
        ],
        *final(errors) as int == if *old(errors) < usize::MAX {
            *old(errors) + 1
        } else {
            *old(errors) as int
        },
{
    if *errors < usize::MAX {
        *errors = *errors + 1;
    }
    push_node(mode, out, Node { path, id: None, start: at, len: 0, value: NodeValue::Error(e) });
}

/// Adds a node when building the tree.
fn push_node(mode: Mode, out: &mut Vec<Node>, n: Node)
    ensures
        step_ok(old(out)@, final(out)@, mode, n.start as int, n.start + n.len),
        mode == Mode::Tree ==> final(out)@ == old(out)@.push(n),
        mode == Mode::Tree ==> nodes_view(final(out)@.skip(old(out)@.len() as int)) == seq![
            node_view(n),
        ],
{
    if mode == Mode::Tree {
        out.push(n);
        assert(out@.skip(old(out)@.len() as int) =~= seq![n]);
        assert(nodes_view(seq![n]) =~= seq![node_view(n)]);
    }
}

/// The value of an earlier emitted integer field, as a size.
fn hint_value(vals: &Vec<Option<u64>>, h: usize) -> (r: Option<usize>)
    ensures
        r is Some <==> hint_of(vals@, h) is Some,
        r matches Some(n) ==> n as int == hint_of(vals@, h)->0,
{
    if h < vals.len() {
        match vals[h] {
            Some(v) => if v <= usize::MAX as u64 {
                Some(v as usize)
            } else {
                None
            },
            None => None,
        }
    } else {
        None
    }
}

/// Walks one composite at `offset`; returns the offset after it. A decode error inside
/// truncates the composite at the field where it happened. The host's answers that decide
/// the consumption are appended to `log`.
#[verifier::rlimit(80)]
fn walk_composite<H: Host>(
    schema: &Schema,
    registry: &Registry,
    data: &[u8],
    c: usize,
    offset: usize,
    prefix: &str,
    depth: usize,
    mode: Mode,
    fields: &mut FieldStore,
    host: &mut H,
    out: &mut Vec<Node>,
    errors: &mut usize,
) -> (end: usize)
    requires
        schema_ok(*schema),
        c < schema.composites@.len(),
        offset <= data@.len(),
    ensures
        offset <= end <= data@.len(),
        step_ok(old(out)@, final(out)@, mode, offset as int, end as int),
        mode == Mode::Tree ==> {
            let k = old(out)@.len() as int;
            &&& final(out)@.len() > k
            &&& final(out)@[k].path@ == prefix@
            &&& final(out)@[k].start == offset
            &&& final(out)@[k].len == end - offset
            &&& final(out)@[k].value is Subtree
        },
        grew(old(host).calls(), final(host).calls()),
        forall|tail: Seq<Answer>|
            #[trigger] m_composite(
                *schema,
                data@,
                c as int,
                offset as int,
                depth as nat,
                said(old(host).calls(), final(host).calls()) + tail,
            ) == (end as int, tail),
        mode == Mode::Tree ==> forall|tail: Seq<Answer>|
            #[trigger] t_composite(
                *schema,
                registry@,
                data@,
                c as int,
                offset as int,
                depth as nat,
                said(old(host).calls(), final(host).calls()) + tail,
                prefix@,
            ) == nodes_view(final(out)@.skip(old(out)@.len() as int)),
        forall|tail: Seq<Answer>|
            #[trigger] h_composite(
                *schema,
                data@,
                c as int,
                offset as int,
                depth as nat,
                mode,
                said(old(host).calls(), final(host).calls()) + tail,
                old(fields)@,
                prefix@,
            ) == (shapes(final(host).calls().skip(old(host).calls().len() as int)), final(fields)@),
    decreases depth, 3int,
{
    let comp = &schema.composites[c];
    proof {
        assert(composite_ok(*schema, schema.composites@[c as int]));
    }
    let plans = plan(comp);
    let n = comp.fields.len();
    let mut local = FieldStore::new();
    let mut vals: Vec<Option<u64>> = Vec::new();
    let mut i: usize = 0;
    while i < n
        invariant
            vals@.len() == i,
            i <= n,
            forall|t: int| 0 <= t < i ==> vals@[t] is None,
        decreases n - i,
    {
        vals.push(None);
        i = i + 1;
    }
    assert(vals@ =~= Seq::new(n as nat, |t: int| None::<u64>));
    if mode == Mode::Tree {
        run_taps(host, &comp.pre_dissect, TapValue::Unit, data, offset, fields, &local);
    } else {
        proof {
            lemma_grew_refl(host.calls());
        }
    }
    let idx = out.len();
    let ghost start_nodes = out@;
    let ghost log0 = host.calls();
    let ghost init_vals = vals@;
    let ghost pre_shapes = if mode == Mode::Tree {
        tap_shapes(comp.pre_dissect@, TapValue::Unit, offset as int, old(fields)@, Seq::<(Seq<char>, Saved)>::empty())
    } else {
        Seq::<CallShape>::empty()
    };
    proof {
        assert(local@ == Seq::<(Seq<char>, Saved)>::empty());
        if mode != Mode::Tree {
            assert(log0 == old(host).calls());
        }
        assert(shapes(log0.skip(old(host).calls().len() as int)) == pre_shapes);
        assert(fields@ == old(fields)@);
        assert forall|tail: Seq<Answer>|
            h_fields(*schema, data@, c as int, 0, offset as int, init_vals, Seq::<(Seq<char>, Saved)>::empty(), depth as nat, mode, #[trigger] (said(log0, host.calls()) + tail), old(fields)@, prefix@)
                == (shapes(host.calls().skip(log0.len() as int)) + h_fields(*schema, data@, c as int, 0, offset as int, vals@, local@, depth as nat, mode, tail, fields@, prefix@).0,
                    h_fields(*schema, data@, c as int, 0, offset as int, vals@, local@, depth as nat, mode, tail, fields@, prefix@).1,
                    h_fields(*schema, data@, c as int, 0, offset as int, vals@, local@, depth as nat, mode, tail, fields@, prefix@).2) by {
            lemma_grew_refl(log0);
            assert(said(log0, host.calls()) + tail =~= tail);
            assert(Seq::<CallShape>::empty() + h_fields(*schema, data@, c as int, 0, offset as int, vals@, local@, depth as nat, mode, tail, fields@, prefix@).0 =~= h_fields(*schema, data@, c as int, 0, offset as int, vals@, local@, depth as nat, mode, tail, fields@, prefix@).0);
        }
    }
    push_node(mode, out, Node { path: String::from_str(prefix), id: registry.subtree_id(c), start: offset, len: 0, value: NodeValue::Subtree });
    proof {
        lemma_grew_refl(log0);
        assert forall|tail: Seq<Answer>|
            m_fields(*schema, data@, c as int, 0, offset as int, init_vals, depth as nat, #[trigger] (said(log0, host.calls()) + tail))
                == m_fields(*schema, data@, c as int, 0, offset as int, vals@, depth as nat, tail) by {
            assert(said(log0, host.calls()) + tail =~= tail);
        }
        if mode == Mode::Tree {
            assert(out@.skip(idx + 1) =~= Seq::<Node>::empty());
            assert(nodes_view(Seq::<Node>::empty()) =~= Seq::<NodeV>::empty());
            assert forall|tail: Seq<Answer>|
                t_fields(*schema, registry@, data@, c as int, 0, offset as int, init_vals, depth as nat, #[trigger] (said(log0, host.calls()) + tail), prefix@)
                    == nodes_view(out@.skip(idx + 1)) + t_fields(*schema, registry@, data@, c as int, 0, offset as int, vals@, depth as nat, tail, prefix@) by {
                assert(said(log0, host.calls()) + tail =~= tail);
                assert(Seq::<NodeV>::empty() + t_fields(*schema, registry@, data@, c as int, 0, offset as int, vals@, depth as nat, tail, prefix@) =~= t_fields(*schema, registry@, data@, c as int, 0, offset as int, vals@, depth as nat, tail, prefix@));
            }
        }
    }
    let mut cur = offset;
    let mut j: usize = 0;
    while j < n
        invariant
            schema_ok(*schema),
            c < schema.composites@.len(),
            comp == schema.composites@[c as int],
            n == comp.fields@.len(),
            plans@.len() == n,
            forall|t: int| 0 <= t < n ==> plans@[t] == #[trigger] plan_spec(*comp, t),
            vals@.len() == n,
            j <= n,
            offset <= cur <= data@.len(),
            idx == start_nodes.len(),
            start_nodes == old(out)@,
            grew(old(host).calls(), log0),
            said(old(host).calls(), log0) == Seq::<Answer>::empty(),
            init_vals == Seq::new(n as nat, |t: int| None::<u64>),
            step_ok(start_nodes, out@, mode, offset as int, cur as int),
            mode == Mode::Tree ==> out@.len() > idx && out@[idx as int].start == offset
                && out@[idx as int].len == 0 && out@[idx as int].path@ == prefix@
                && out@[idx as int].value is Subtree && out@[idx as int].id == subtree_id_of(registry@, c as int),
            mode == Mode::Tree ==> forall|tail: Seq<Answer>|
                t_fields(*schema, registry@, data@, c as int, 0, offset as int, init_vals, depth as nat, #[trigger] (said(log0, host.calls()) + tail), prefix@)
                    == nodes_view(out@.skip(idx + 1)) + t_fields(*schema, registry@, data@, c as int, j as int, cur as int, vals@, depth as nat, tail, prefix@),
            grew(log0, host.calls()),
            shapes(log0.skip(old(host).calls().len() as int)) == pre_shapes,
            pre_shapes == if mode == Mode::Tree {
                tap_shapes(comp.pre_dissect@, TapValue::Unit, offset as int, old(fields)@, Seq::<(Seq<char>, Saved)>::empty())
            } else {
                Seq::<CallShape>::empty()
            },
            forall|tail: Seq<Answer>|
                h_fields(*schema, data@, c as int, 0, offset as int, init_vals, Seq::<(Seq<char>, Saved)>::empty(), depth as nat, mode, #[trigger] (said(log0, host.calls()) + tail), old(fields)@, prefix@)
                    == (shapes(host.calls().skip(log0.len() as int)) + h_fields(*schema, data@, c as int, j as int, cur as int, vals@, local@, depth as nat, mode, tail, fields@, prefix@).0,
                        h_fields(*schema, data@, c as int, j as int, cur as int, vals@, local@, depth as nat, mode, tail, fields@, prefix@).1,
                        h_fields(*schema, data@, c as int, j as int, cur as int, vals@, local@, depth as nat, mode, tail, fields@, prefix@).2),
            forall|tail: Seq<Answer>|
                m_fields(*schema, data@, c as int, 0, offset as int, init_vals, depth as nat, #[trigger] (said(log0, host.calls()) + tail))
                    == m_fields(*schema, data@, c as int, j as int, cur as int, vals@, depth as nat, tail),
        decreases n - j,
    {
        let ghost before = out@;
        let ghost log1 = host.calls();
        let ghost vals1 = vals@;
        let ghost lc0 = local@;
        let ghost fb = fields@;
        let r = walk_field(schema, registry, data, c, j, plans[j], cur, prefix, depth, mode, fields, &mut local, &mut vals, host, out, errors);
        proof {
            lemma_grew_chain(log0, log1, host.calls());
            assert forall|tail: Seq<Answer>|
                m_fields(*schema, data@, c as int, 0, offset as int, init_vals, depth as nat, #[trigger] (said(log0, host.calls()) + tail))
                    == match r {
                        Ok(e) => m_fields(*schema, data@, c as int, j + 1, e as int, vals@, depth as nat, tail),
                        Err(e) => (e as int, tail),
                    } by {
                assert(said(log0, host.calls()) + tail =~= said(log0, log1) + (said(log1, host.calls()) + tail));
                assert(m_field(*schema, data@, c as int, j as int, cur as int, vals1, depth as nat, said(log1, host.calls()) + tail)
                    == (as_int(r), vals@, tail));
            }
            if mode == Mode::Tree {
                lemma_nodes_after(before, out@, idx + 1);
                assert forall|tail: Seq<Answer>|
                    t_fields(*schema, registry@, data@, c as int, 0, offset as int, init_vals, depth as nat, #[trigger] (said(log0, host.calls()) + tail), prefix@)
                        == nodes_view(out@.skip(idx + 1)) + match r {
                            Ok(e) => t_fields(*schema, registry@, data@, c as int, j + 1, e as int, vals@, depth as nat, tail, prefix@),
                            Err(_) => Seq::<NodeV>::empty(),
                        } by {
                    let x = said(log1, host.calls()) + tail;
                    assert(said(log0, host.calls()) + tail =~= said(log0, log1) + x);
                    assert(m_field(*schema, data@, c as int, j as int, cur as int, vals1, depth as nat, x) == (as_int(r), vals@, tail));
                    assert(t_field(*schema, registry@, data@, c as int, j as int, cur as int, vals1, depth as nat, x, prefix@)
                        == nodes_view(out@.skip(before.len() as int)));
                    let rest_nodes = match r {
                        Ok(e) => t_fields(*schema, registry@, data@, c as int, j + 1, e as int, vals@, depth as nat, tail, prefix@),
                        Err(_) => Seq::<NodeV>::empty(),
                    };
                    assert(t_fields(*schema, registry@, data@, c as int, j as int, cur as int, vals1, depth as nat, x, prefix@) == nodes_view(out@.skip(before.len() as int)) + rest_nodes);
                    assert(nodes_view(before.skip(idx + 1)) + nodes_view(out@.skip(before.len() as int)) + rest_nodes
                        =~= nodes_view(before.skip(idx + 1)) + (nodes_view(out@.skip(before.len() as int)) + rest_nodes));
                }
            }
        }
        proof {
            assert forall|tail: Seq<Answer>|
                h_fields(*schema, data@, c as int, 0, offset as int, init_vals, Seq::<(Seq<char>, Saved)>::empty(), depth as nat, mode, #[trigger] (said(log0, host.calls()) + tail), old(fields)@, prefix@)
                    == match r {
                        Ok(e) => (shapes(host.calls().skip(log0.len() as int)) + h_fields(*schema, data@, c as int, j + 1, e as int, vals@, local@, depth as nat, mode, tail, fields@, prefix@).0, h_fields(*schema, data@, c as int, j + 1, e as int, vals@, local@, depth as nat, mode, tail, fields@, prefix@).1, h_fields(*schema, data@, c as int, j + 1, e as int, vals@, local@, depth as nat, mode, tail, fields@, prefix@).2),
                        Err(_) => (shapes(host.calls().skip(log0.len() as int)), fields@, local@),
                    } by {
                let x = said(log1, host.calls()) + tail;
                assert(said(log0, host.calls()) + tail =~= said(log0, log1) + x);
                assert(m_field(*schema, data@, c as int, j as int, cur as int, vals1, depth as nat, x) == (as_int(r), vals@, tail));
                assert(h_field(*schema, data@, c as int, j as int, cur as int, vals1, lc0, depth as nat, mode, x, fb, prefix@)
                    == (shapes(host.calls().skip(log1.len() as int)), fields@));
                let a1 = shapes(log1.skip(log0.len() as int));
                let a2 = shapes(host.calls().skip(log1.len() as int));
                match r {
                    Ok(e) => {
                        assert(a1 + (a2 + h_fields(*schema, data@, c as int, j + 1, e as int, vals@, local@, depth as nat, mode, tail, fields@, prefix@).0) =~= a1 + a2 + h_fields(*schema, data@, c as int, j + 1, e as int, vals@, local@, depth as nat, mode, tail, fields@, prefix@).0);
                    },
                    Err(_) => {},
                }
            }
        }
        match r {
            Ok(e) => {
                proof {
                    lemma_join(start_nodes, before, out@, mode, offset as int, cur as int, e as int);
                }
                cur = e;
            },
            Err(e) => {
                proof {
                    lemma_join(start_nodes, before, out@, mode, offset as int, cur as int, e as int);
                }
                cur = e;
                let ghost b = host.calls();
                if mode == Mode::Tree {
                    run_taps(host, &comp.post_dissect, TapValue::Unit, data, cur, fields, &local);
                    let ghost pre = out@;
                    out[idx].len = cur - offset;
                    proof {
                        assert forall|t: int| 0 <= t < out@.len() && t != idx implies out@[t] == pre[t] by {}
                        assert(out@[idx as int].start == offset);
                    }
                }
                proof {
                    if mode != Mode::Tree {
                        lemma_grew_refl(b);
                    }
                    lemma_grew_chain(old(host).calls(), log0, b);
                    lemma_grew_chain(old(host).calls(), b, host.calls());
                    assert(said(old(host).calls(), host.calls()) =~= said(log0, b));
                    assert forall|tail: Seq<Answer>|
                        #[trigger] m_composite(*schema, data@, c as int, offset as int, depth as nat, said(old(host).calls(), host.calls()) + tail)
                            == (cur as int, tail) by {
                        assert(m_fields(*schema, data@, c as int, 0, offset as int, init_vals, depth as nat, said(log0, b) + tail)
                            == (cur as int, tail));
                    }
                    if mode == Mode::Tree {
                        assert(out@.skip(idx as int) =~= seq![out@[idx as int]] + out@.skip(idx + 1));
                        lemma_nodes_view_concat(seq![out@[idx as int]], out@.skip(idx + 1));
                        assert(nodes_view(seq![out@[idx as int]]) =~= seq![node_view(out@[idx as int])]);
                        assert forall|tail: Seq<Answer>|
                            #[trigger] t_composite(*schema, registry@, data@, c as int, offset as int, depth as nat, said(old(host).calls(), host.calls()) + tail, prefix@)
                                == nodes_view(out@.skip(old(out)@.len() as int)) by {
                            assert(said(old(host).calls(), host.calls()) + tail == said(log0, b) + tail);
                            assert(m_composite(*schema, data@, c as int, offset as int, depth as nat, said(old(host).calls(), host.calls()) + tail) == (cur as int, tail));
                            assert(t_fields(*schema, registry@, data@, c as int, 0, offset as int, init_vals, depth as nat, said(log0, b) + tail, prefix@) == nodes_view(out@.skip(idx + 1)) + Seq::<NodeV>::empty());
                            assert(seq![node_view(out@[idx as int])] + (nodes_view(out@.skip(idx + 1)) + Seq::<NodeV>::empty()) =~= seq![node_view(out@[idx as int])] + nodes_view(out@.skip(idx + 1)));
                        }
                    }
                }
                proof {
                    assert forall|tail: Seq<Answer>|
                        #[trigger] h_composite(*schema, data@, c as int, offset as int, depth as nat, mode, said(old(host).calls(), host.calls()) + tail, old(fields)@, prefix@)
                            == (shapes(host.calls().skip(old(host).calls().len() as int)), fields@) by {
                        assert(said(old(host).calls(), host.calls()) + tail == said(log0, b) + tail);
                        assert(m_composite(*schema, data@, c as int, offset as int, depth as nat, said(old(host).calls(), host.calls()) + tail) == (cur as int, tail));
                        assert(h_fields(*schema, data@, c as int, 0, offset as int, init_vals, Seq::<(Seq<char>, Saved)>::empty(), depth as nat, mode, said(log0, b) + tail, old(fields)@, prefix@) == (shapes(b.skip(log0.len() as int)) + Seq::<CallShape>::empty(), fields@, local@));
                        assert(shapes(host.calls().skip(old(host).calls().len() as int)) == pre_shapes + shapes(b.skip(log0.len() as int)) + shapes(host.calls().skip(b.len() as int)));
        assert(shapes(host.calls().skip(b.len() as int)) == if mode == Mode::Tree {
            tap_shapes(comp.post_dissect@, TapValue::Unit, cur as int, fields@, local@)
        } else {
            Seq::<CallShape>::empty()
        });
                        assert(shapes(b.skip(log0.len() as int)) + Seq::<CallShape>::empty() =~= shapes(b.skip(log0.len() as int)));
                        let hf = h_fields(*schema, data@, c as int, 0, offset as int, init_vals, Seq::<(Seq<char>, Saved)>::empty(), depth as nat, mode, said(log0, b) + tail, old(fields)@, prefix@);
                        assert(hf.0 == shapes(b.skip(log0.len() as int)));
                        assert(hf.1 == fields@);
                        assert(hf.2 == local@);
                        assert(comp == schema.composites@[c as int]);
                        assert(init_vals == Seq::new(comp.fields@.len(), |i: int| None::<u64>));
                        let post = if mode == Mode::Tree {
                            tap_shapes(comp.post_dissect@, TapValue::Unit, cur as int, fields@, local@)
                        } else {
                            Seq::<CallShape>::empty()
                        };
                        assert(h_composite(*schema, data@, c as int, offset as int, depth as nat, mode, said(old(host).calls(), host.calls()) + tail, old(fields)@, prefix@).1 == fields@);
                        let lg = said(old(host).calls(), host.calls()) + tail;
                        assert(m_composite(*schema, data@, c as int, offset as int, depth as nat, lg).0 == cur as int);
                        assert(h_fields(*schema, data@, c as int, 0, offset as int, Seq::new(comp.fields@.len(), |i: int| None::<u64>), Seq::<(Seq<char>, Saved)>::empty(), depth as nat, mode, lg, old(fields)@, prefix@) == hf);
                                                assert(h_composite(*schema, data@, c as int, offset as int, depth as nat, mode, said(old(host).calls(), host.calls()) + tail, old(fields)@, prefix@).0 =~= pre_shapes + hf.0 + post) by {
                            let cc = schema.composites@[c as int];
                            assert(pre_shapes == if mode == Mode::Tree {
                                tap_shapes(cc.pre_dissect@, TapValue::Unit, offset as int, old(fields)@, Seq::<(Seq<char>, Saved)>::empty())
                            } else {
                                Seq::<CallShape>::empty()
                            });
                            assert(post == if mode == Mode::Tree {
                                tap_shapes(cc.post_dissect@, TapValue::Unit, m_composite(*schema, data@, c as int, offset as int, depth as nat, lg).0, hf.1, hf.2)
                            } else {
                                Seq::<CallShape>::empty()
                            });
                        }
                    }
                }
                return cur;
            },
        }
        j = j + 1;
    }
    let ghost b = host.calls();
    if mode == Mode::Tree {
        run_taps(host, &comp.post_dissect, TapValue::Unit, data, cur, fields, &local);
        let ghost pre = out@;
        out[idx].len = cur - offset;
        proof {
            assert forall|t: int| 0 <= t < out@.len() && t != idx implies out@[t] == pre[t] by {}
            assert(out@[idx as int].start == offset);
        }
    }
    proof {
        if mode != Mode::Tree {
            lemma_grew_refl(b);
        }
        lemma_grew_chain(old(host).calls(), log0, b);
        lemma_grew_chain(old(host).calls(), b, host.calls());
        assert(said(old(host).calls(), host.calls()) =~= said(log0, b));
        assert forall|tail: Seq<Answer>|
            #[trigger] m_composite(*schema, data@, c as int, offset as int, depth as nat, said(old(host).calls(), host.calls()) + tail)
                == (cur as int, tail) by {
            assert(m_fields(*schema, data@, c as int, 0, offset as int, init_vals, depth as nat, said(log0, b) + tail)
                == m_fields(*schema, data@, c as int, n as int, cur as int, vals@, depth as nat, tail));
        }
        if mode == Mode::Tree {
            assert(out@.skip(idx as int) =~= seq![out@[idx as int]] + out@.skip(idx + 1));
            lemma_nodes_view_concat(seq![out@[idx as int]], out@.skip(idx + 1));
            assert(nodes_view(seq![out@[idx as int]]) =~= seq![node_view(out@[idx as int])]);
            assert forall|tail: Seq<Answer>|
                #[trigger] t_composite(*schema, registry@, data@, c as int, offset as int, depth as nat, said(old(host).calls(), host.calls()) + tail, prefix@)
                    == nodes_view(out@.skip(old(out)@.len() as int)) by {
                assert(said(old(host).calls(), host.calls()) + tail == said(log0, b) + tail);
                assert(m_composite(*schema, data@, c as int, offset as int, depth as nat, said(old(host).calls(), host.calls()) + tail) == (cur as int, tail));
                assert(t_fields(*schema, registry@, data@, c as int, 0, offset as int, init_vals, depth as nat, said(log0, b) + tail, prefix@) == nodes_view(out@.skip(idx + 1)) + t_fields(*schema, registry@, data@, c as int, n as int, cur as int, vals@, depth as nat, tail, prefix@));
                assert(seq![node_view(out@[idx as int])] + (nodes_view(out@.skip(idx + 1)) + t_fields(*schema, registry@, data@, c as int, n as int, cur as int, vals@, depth as nat, tail, prefix@)) =~= seq![node_view(out@[idx as int])] + nodes_view(out@.skip(idx + 1)));
            }
        }
    }
    proof {
        assert forall|tail: Seq<Answer>|
            #[trigger] h_composite(*schema, data@, c as int, offset as int, depth as nat, mode, said(old(host).calls(), host.calls()) + tail, old(fields)@, prefix@)
                == (shapes(host.calls().skip(old(host).calls().len() as int)), fields@) by {
            assert(said(old(host).calls(), host.calls()) + tail == said(log0, b) + tail);
            assert(m_composite(*schema, data@, c as int, offset as int, depth as nat, said(old(host).calls(), host.calls()) + tail) == (cur as int, tail));
            assert(h_fields(*schema, data@, c as int, 0, offset as int, init_vals, Seq::<(Seq<char>, Saved)>::empty(), depth as nat, mode, said(log0, b) + tail, old(fields)@, prefix@) == (shapes(b.skip(log0.len() as int)) + h_fields(*schema, data@, c as int, n as int, cur as int, vals@, local@, depth as nat, mode, tail, fields@, prefix@).0, fields@, local@));
            assert(shapes(host.calls().skip(old(host).calls().len() as int)) == pre_shapes + shapes(b.skip(log0.len() as int)) + shapes(host.calls().skip(b.len() as int)));
        assert(shapes(host.calls().skip(b.len() as int)) == if mode == Mode::Tree {
            tap_shapes(comp.post_dissect@, TapValue::Unit, cur as int, fields@, local@)
        } else {
            Seq::<CallShape>::empty()
        });
            assert(h_fields(*schema, data@, c as int, n as int, cur as int, vals@, local@, depth as nat, mode, tail, fields@, prefix@) == (Seq::<CallShape>::empty(), fields@, local@));
        assert(shapes(b.skip(log0.len() as int)) + Seq::<CallShape>::empty() =~= shapes(b.skip(log0.len() as int)));
        }
    }
    cur
}

/// Walks field `j` of composite `c` at `offset`; returns the offset after it, as `Err` where
/// a decode error stops the composite.
fn walk_field<H: Host>(
    schema: &Schema,
    registry: &Registry,
    data: &[u8],
    c: usize,
    j: usize,
    fp: FieldPlan,
    offset: usize,
    prefix: &str,
    depth: usize,
    mode: Mode,
    fields: &mut FieldStore,
    local: &mut FieldStore,
    vals: &mut Vec<Option<u64>>,
    host: &mut H,
    out: &mut Vec<Node>,
    errors: &mut usize,
) -> (end: Result<usize, usize>)
    requires
        schema_ok(*schema),
        c < schema.composites@.len(),
        j < schema.composites@[c as int].fields@.len(),
        fp == plan_spec(schema.composites@[c as int], j as int),
        old(vals)@.len() == schema.composites@[c as int].fields@.len(),
        offset <= data@.len(),
    ensures
        final(vals)@.len() == old(vals)@.len(),
        final(local)@ == saved_after(schema.composites@[c as int].fields@[j as int], data@, offset as int, old(local)@),
        offset <= reached(end) <= data@.len(),
        step_ok(old(out)@, final(out)@, mode, offset as int, reached(end) as int),
        grew(old(host).calls(), final(host).calls()),
        forall|tail: Seq<Answer>|
            #[trigger] m_field(
                *schema,
                data@,
                c as int,
                j as int,
                offset as int,
                old(vals)@,
                depth as nat,
                said(old(host).calls(), final(host).calls()) + tail,
            ) == (as_int(end), final(vals)@, tail),
        mode == Mode::Tree ==> forall|tail: Seq<Answer>|
            #[trigger] t_field(
                *schema,
                registry@,
                data@,
                c as int,
                j as int,
                offset as int,
                old(vals)@,
                depth as nat,
                said(old(host).calls(), final(host).calls()) + tail,
                prefix@,
            ) == nodes_view(final(out)@.skip(old(out)@.len() as int)),
        forall|tail: Seq<Answer>|
            #[trigger] h_field(
                *schema,
                data@,
                c as int,
                j as int,
                offset as int,
                old(vals)@,
                old(local)@,
                depth as nat,
                mode,
                said(old(host).calls(), final(host).calls()) + tail,
                old(fields)@,
                prefix@,
            ) == (shapes(final(host).calls().skip(old(host).calls().len() as int)), final(fields)@),
    decreases depth, 2int,
{
    let comp = &schema.composites[c];
    let f = &comp.fields[j];
    proof {
        assert(composite_ok(*schema, schema.composites@[c as int]));
        assert(field_ok(*schema, *comp, j as int));
        lemma_grew_refl(old(host).calls());
    }
    let path = child_path(prefix, f.name.as_str());
    let remaining = data.len() - offset;
    // The value of an integer or byte field, read before anything else needs it.
    let mut value = TapValue::Unit;
    let mut size: Option<usize> = None;
    match f.ty {
        FieldType::UInt { width, order } => {
            match read_uint(data, offset, width, order) {
                None => {
                    record_error(mode, out, errors, path, offset, DecodeError::OutOfRange);
                    proof {
                        assert forall|tail: Seq<Answer>| #[trigger] (said(old(host).calls(), host.calls()) + tail) =~= tail by {}
                    }
                    return Err(offset);
                },
                Some(v) => {
                    value = TapValue::UInt(v);
                    size = Some(width);
                    if fp.emit {
                        vals.set(j, Some(v));
                    }
                    if fp.save {
                        local.save(f.name.as_str(), v, width);
                        fields.save(path.as_str(), v, width);
                    }
                },
            }
        },
        FieldType::Bytes(len) => {
            let n = match len {
                ByteLen::Fixed(n) => Some(n),
                ByteLen::Hint(h) => hint_value(vals, h),
                ByteLen::Rest => Some(remaining),
            };
            match n {
                Some(n) => {
                    if n > remaining {
                        record_error(mode, out, errors, path, offset, DecodeError::OutOfRange);
                        proof {
                            assert forall|tail: Seq<Answer>| #[trigger] (said(old(host).calls(), host.calls()) + tail) =~= tail by {}
                        }
                        return Err(offset);
                    }
                    value = TapValue::Bytes { start: offset, len: n };
                    size = Some(n);
                },
                None => {
                    record_error(mode, out, errors, path, offset, DecodeError::MissingHint);
                    proof {
                        assert forall|tail: Seq<Answer>| #[trigger] (said(old(host).calls(), host.calls()) + tail) =~= tail by {}
                    }
                    return Err(offset);
                },
            }
        },
        _ => {},
    }
    proof {
        assert forall|tail: Seq<Answer>|
            m_field(*schema, data@, c as int, j as int, offset as int, old(vals)@, depth as nat, tail)
                == #[trigger] m_strategy(*schema, data@, c as int, j as int, offset as int, vals@, depth as nat, tail, size_int(size)) by {}
    }
    if mode == Mode::Tree {
        run_taps(host, &f.taps, value, data, offset, fields, local);
    } else {
        proof {
            lemma_grew_refl(host.calls());
        }
    }
    let ghost t1 = host.calls();
    let ghost vals1 = vals@;
    let ghost fs1 = fields@;
    let ghost lc1 = local@;
    proof {
        if mode != Mode::Tree {
            assert(t1 == old(host).calls());
        }
        assert(shapes(t1.skip(old(host).calls().len() as int)) == mode_taps(mode, f.taps@, value, offset as int, fs1, lc1));
    }
    let ghost pv = path@;
    proof {
        assert forall|x: Seq<Answer>|
            t_field(*schema, registry@, data@, c as int, j as int, offset as int, old(vals)@, depth as nat, x, prefix@)
                == #[trigger] t_strategy(*schema, registry@, data@, c as int, j as int, offset as int, vals@, depth as nat, x, size_int(size), kind_of(value), pv) by {}
    }
    let r = walk_strategy(schema, registry, data, c, j, fp, offset, path, value, size, depth, mode, fields, &*local, vals, host, out, errors);
    proof {
        if mode == Mode::Tree {
            assert forall|tail: Seq<Answer>|
                #[trigger] t_field(*schema, registry@, data@, c as int, j as int, offset as int, old(vals)@, depth as nat, said(old(host).calls(), host.calls()) + tail, prefix@)
                    == nodes_view(out@.skip(old(out)@.len() as int)) by {
                lemma_grew_chain(old(host).calls(), t1, host.calls());
                assert(said(old(host).calls(), host.calls()) =~= said(t1, host.calls()));
                assert(t_strategy(*schema, registry@, data@, c as int, j as int, offset as int, vals1, depth as nat, said(t1, host.calls()) + tail, size_int(size), kind_of(value), pv)
                    == nodes_view(out@.skip(old(out)@.len() as int)));
            }
        }
        lemma_grew_chain(old(host).calls(), t1, host.calls());
        assert(said(old(host).calls(), host.calls()) =~= said(t1, host.calls()));
        assert forall|tail: Seq<Answer>|
            #[trigger] m_field(*schema, data@, c as int, j as int, offset as int, old(vals)@, depth as nat, said(old(host).calls(), host.calls()) + tail)
                == (as_int(r), vals@, tail) by {
            assert(m_strategy(*schema, data@, c as int, j as int, offset as int, vals1, depth as nat, said(t1, host.calls()) + tail, size_int(size))
                == (as_int(r), vals1, tail));
        }
    }
    proof {
        lemma_grew_chain(old(host).calls(), t1, host.calls());
        assert forall|tail: Seq<Answer>|
            #[trigger] h_field(*schema, data@, c as int, j as int, offset as int, old(vals)@, old(local)@, depth as nat, mode, said(old(host).calls(), host.calls()) + tail, old(fields)@, prefix@)
                == (shapes(host.calls().skip(old(host).calls().len() as int)), fields@) by {
            assert(said(old(host).calls(), host.calls()) =~= said(t1, host.calls()));
            assert(h_strategy(*schema, data@, c as int, j as int, offset as int, vals1, lc1, depth as nat, mode, said(t1, host.calls()) + tail, fs1, pv, size_int(size), value)
                == (shapes(host.calls().skip(t1.len() as int)), fields@));
        }
    }
    r
}

/// Integer sizes as the model has them.
pub open spec fn size_int(size: Option<usize>) -> Option<int> {
    match size {
        Some(n) => Some(n as int),
        None => None,
    }
}

/// Offers the rest of the buffer to the dispatch table, keyed by the emitted values of the
/// key fields that have one, and logs the delegates' answers.
fn delegate_table<H: Host>(
    host: &mut H,
    table: &str,
    keys: &Vec<usize>,
    vals: &Vec<Option<u64>>,
    rest: &[u8],
) -> (r: usize)
    ensures
        r <= rest@.len(),
        grew(old(host).calls(), final(host).calls()),
        forall|tail: Seq<Answer>|
            #[trigger] delegation(
                said(old(host).calls(), final(host).calls()) + tail,
                key_count(keys@, vals@),
                rest@.len() as int,
            ) == (r as int, tail),
        forall|tail: Seq<Answer>|
            #[trigger] delegate_shapes(
                table@,
                key_values(keys@, vals@),
                rest@,
                said(old(host).calls(), final(host).calls()) + tail,
            ) == shapes(final(host).calls().skip(old(host).calls().len() as int)),
{
    let mut key_vals: Vec<u64> = Vec::new();
    let mut k: usize = 0;
    assert(keys@.take(0) =~= Seq::<usize>::empty());
    assert(key_vals@ =~= key_values(Seq::<usize>::empty(), vals@));
    while k < keys.len()
        invariant
            k <= keys@.len(),
            key_vals@.len() == key_count(keys@.take(k as int), vals@),
            key_vals@ == key_values(keys@.take(k as int), vals@),
        decreases keys@.len() - k,
    {
        assert(keys@.take(k + 1).drop_last() =~= keys@.take(k as int));
        let key = keys[k];
        let ghost kv0 = key_vals@;
        if key < vals.len() {
            if let Some(v) = vals[key] {
                key_vals.push(v);
                assert(key_vals@ =~= kv0 + seq![v]);
            } else {
                assert(key_vals@ =~= kv0 + Seq::<u64>::empty());
            }
        } else {
            assert(key_vals@ =~= kv0 + Seq::<u64>::empty());
        }
        k = k + 1;
    }
    assert(keys@.take(keys@.len() as int) =~= keys@);
    let ghost c0 = host.calls();
    let d = try_subdissectors(host, table, &key_vals, rest);
    let rl = rest.len();
    proof {
        lemma_said_append(c0, delegations(table@, key_vals@, rest@, d.answers@));
        lemma_answers_of_delegations(table@, key_vals@, rest@, d.answers@);
        assert forall|tail: Seq<Answer>|
            #[trigger] delegation(said(old(host).calls(), host.calls()) + tail, key_count(keys@, vals@), rest@.len() as int)
                == (d.consumed as int, tail) by {
            lemma_delegation(d.answers@, key_count(keys@, vals@), rl, tail);
        }
        assert forall|tail: Seq<Answer>|
            #[trigger] delegate_shapes(table@, key_values(keys@, vals@), rest@, said(old(host).calls(), host.calls()) + tail)
                == shapes(host.calls().skip(old(host).calls().len() as int)) by {
            lemma_delegate_shapes(table@, key_vals@, rest@, d.answers@, tail);
        }
    }
    d.consumed
}

/// Decodes field `j` by its strategy once its own value has been read; `size` is known for
/// integers and bytes.
#[verifier::rlimit(80)]
fn walk_strategy<H: Host>(
    schema: &Schema,
    registry: &Registry,
    data: &[u8],
    c: usize,
    j: usize,
    fp: FieldPlan,
    offset: usize,
    path: String,
    value: TapValue,
    size: Option<usize>,
    depth: usize,
    mode: Mode,
    fields: &mut FieldStore,
    local: &FieldStore,
    vals: &mut Vec<Option<u64>>,
    host: &mut H,
    out: &mut Vec<Node>,
    errors: &mut usize,
) -> (end: Result<usize, usize>)
    requires
        schema_ok(*schema),
        c < schema.composites@.len(),
        j < schema.composites@[c as int].fields@.len(),
        fp == plan_spec(schema.composites@[c as int], j as int),
        offset <= data@.len(),
        size matches Some(n) ==> offset + n <= data@.len(),
        value matches TapValue::UInt(_) ==> size is Some,
    ensures
        final(vals)@ == old(vals)@,
        offset <= reached(end) <= data@.len(),
        step_ok(old(out)@, final(out)@, mode, offset as int, reached(end) as int),
        grew(old(host).calls(), final(host).calls()),
        forall|tail: Seq<Answer>|
            #[trigger] m_strategy(
                *schema,
                data@,
                c as int,
                j as int,
                offset as int,
                old(vals)@,
                depth as nat,
                said(old(host).calls(), final(host).calls()) + tail,
                size_int(size),
            ) == (as_int(end), old(vals)@, tail),
        mode == Mode::Tree ==> forall|tail: Seq<Answer>|
            #[trigger] t_strategy(
                *schema,
                registry@,
                data@,
                c as int,
                j as int,
                offset as int,
                old(vals)@,
                depth as nat,
                said(old(host).calls(), final(host).calls()) + tail,
                size_int(size),
                kind_of(value),
                path@,
            ) == nodes_view(final(out)@.skip(old(out)@.len() as int)),
        forall|tail: Seq<Answer>|
            #[trigger] h_strategy(
                *schema,
                data@,
                c as int,
                j as int,
                offset as int,
                old(vals)@,
                local@,
                depth as nat,
                mode,
                said(old(host).calls(), final(host).calls()) + tail,
                old(fields)@,
                path@,
                size_int(size),
                value,
            ) == (shapes(final(host).calls().skip(old(host).calls().len() as int)), final(fields)@),
    decreases depth, 1int,
{
    let comp = &schema.composites[c];
    let f = &comp.fields[j];
    let remaining = data.len() - offset;
    proof {
        lemma_grew_refl(old(host).calls());
        assert forall|tail: Seq<Answer>| #[trigger] (said(old(host).calls(), host.calls()) + tail) =~= tail by {}
    }
    match fp.strategy {
        Strategy::Subdissect => {
            let rest = slice_subrange(data, offset, data.len());
            match &f.subdissector {
                Some(Subdissector::DecodeAs(table)) => {
                    let n = host.decode_as(table.as_str(), rest);
                    proof {
                        lemma_said_push(old(host).calls(), HostCall::DecodeAs { table: table@, rest: rest@, answer: n });
                        lemma_answers_of_one(HostCall::DecodeAs { table: table@, rest: rest@, answer: n });
                        assert forall|tail: Seq<Answer>|
                            #[trigger] m_strategy(*schema, data@, c as int, j as int, offset as int, old(vals)@, depth as nat, said(old(host).calls(), host.calls()) + tail, size_int(size))
                                == (if n > remaining { Ok::<int, int>(offset as int) } else { Ok::<int, int>(offset + n) }, old(vals)@, tail) by {
                            let t2 = said(old(host).calls(), host.calls()) + tail;
                            assert(t2 =~= seq![Answer::Took(n)] + tail);
                            assert(t2[0] == Answer::Took(n));
                            assert(t2.skip(1) =~= tail);
                        }
                    }
                    proof {
                        assert forall|tail: Seq<Answer>| #[trigger] (said(old(host).calls(), host.calls()) + tail)[0] == Answer::Took(n) by {
                            assert(said(old(host).calls(), host.calls()) + tail =~= seq![Answer::Took(n)] + tail);
                        }
                        assert forall|tail: Seq<Answer>| (#[trigger] (said(old(host).calls(), host.calls()) + tail)).len() > 0 by {
                            assert(said(old(host).calls(), host.calls()) + tail =~= seq![Answer::Took(n)] + tail);
                        }
                    }
                    proof {
                        assert forall|tail: Seq<Answer>|
                            #[trigger] h_strategy(*schema, data@, c as int, j as int, offset as int, old(vals)@, local@, depth as nat, mode, said(old(host).calls(), host.calls()) + tail, old(fields)@, path@, size_int(size), value)
                                == (shapes(host.calls().skip(old(host).calls().len() as int)), fields@) by {
                            assert(shapes(host.calls().skip(old(host).calls().len() as int)) == seq![CallShape::DecodeAs { table: table@, rest: rest@ }]);
                        }
                    }
                    let ghost pv = path@;
                    if n > remaining {
                        record_error(mode, out, errors, path, offset, DecodeError::BadConsumption);
                        proof {
                            if mode == Mode::Tree {
                                assert forall|tail: Seq<Answer>|
                                    #[trigger] t_strategy(*schema, registry@, data@, c as int, j as int, offset as int, old(vals)@, depth as nat, said(old(host).calls(), host.calls()) + tail, size_int(size), kind_of(value), pv)
                                        == nodes_view(out@.skip(old(out)@.len() as int)) by {
                                    assert((said(old(host).calls(), host.calls()) + tail)[0] == Answer::Took(n));
                                    assert((said(old(host).calls(), host.calls()) + tail).len() > 0);
                                }
                            }
                        }
                        return Ok(offset);
                    }
                    push_node(mode, out, Node { path, id: registry.field_id(c, j), start: offset, len: n, value: NodeValue::Delegated });
                    proof {
                        if mode == Mode::Tree {
                            assert forall|tail: Seq<Answer>|
                                #[trigger] t_strategy(*schema, registry@, data@, c as int, j as int, offset as int, old(vals)@, depth as nat, said(old(host).calls(), host.calls()) + tail, size_int(size), kind_of(value), pv)
                                    == nodes_view(out@.skip(old(out)@.len() as int)) by {
                                assert((said(old(host).calls(), host.calls()) + tail)[0] == Answer::Took(n));
                                assert((said(old(host).calls(), host.calls()) + tail).len() > 0);
                            }
                        }
                    }
                    Ok(offset + n)
                },
                Some(Subdissector::Table { table, keys }) => {
                    let n = delegate_table(host, table.as_str(), keys, vals, rest);
                    proof {
                        assert forall|tail: Seq<Answer>|
                            #[trigger] h_strategy(*schema, data@, c as int, j as int, offset as int, old(vals)@, local@, depth as nat, mode, said(old(host).calls(), host.calls()) + tail, old(fields)@, path@, size_int(size), value)
                                == (shapes(host.calls().skip(old(host).calls().len() as int)), fields@) by {
                            assert(rest@ == data@.subrange(offset as int, data@.len() as int));
                            assert(delegate_shapes(table@, key_values(keys@, vals@), rest@, said(old(host).calls(), host.calls()) + tail) == shapes(host.calls().skip(old(host).calls().len() as int)));
                        }
                    }
                    proof {
                        assert(rest@.len() == remaining);
                        assert forall|tail: Seq<Answer>|
                            #[trigger] m_strategy(*schema, data@, c as int, j as int, offset as int, old(vals)@, depth as nat, said(old(host).calls(), host.calls()) + tail, size_int(size))
                                == (Ok::<int, int>(offset + n), old(vals)@, tail) by {
                            assert(delegation(said(old(host).calls(), host.calls()) + tail, key_count(keys@, vals@), rest@.len() as int) == (n as int, tail));
                        }
                    }
                    let ghost pv = path@;
                    push_node(mode, out, Node { path, id: registry.field_id(c, j), start: offset, len: n, value: NodeValue::Delegated });
                    proof {
                        if mode == Mode::Tree {
                            assert forall|tail: Seq<Answer>|
                                #[trigger] t_strategy(*schema, registry@, data@, c as int, j as int, offset as int, old(vals)@, depth as nat, said(old(host).calls(), host.calls()) + tail, size_int(size), kind_of(value), pv)
                                    == nodes_view(out@.skip(old(out)@.len() as int)) by {
                                assert(delegation(said(old(host).calls(), host.calls()) + tail, key_count(keys@, vals@), rest@.len() as int) == (n as int, tail));
                            }
                        }
                    }
                    Ok(offset + n)
                },
                None => {
                    proof {
                        assert forall|tail: Seq<Answer>|
                            #[trigger] h_strategy(*schema, data@, c as int, j as int, offset as int, old(vals)@, local@, depth as nat, mode, said(old(host).calls(), host.calls()) + tail, old(fields)@, path@, size_int(size), value)
                                == (shapes(host.calls().skip(old(host).calls().len() as int)), fields@) by {
                    
                        }
                    }
                    let ghost pv = path@;
                    push_node(mode, out, Node { path, id: registry.field_id(c, j), start: offset, len: 0, value: NodeValue::Delegated });
                    proof {
                        if mode == Mode::Tree {
                            assert forall|tail: Seq<Answer>|
                                #[trigger] t_strategy(*schema, registry@, data@, c as int, j as int, offset as int, old(vals)@, depth as nat, said(old(host).calls(), host.calls()) + tail, size_int(size), kind_of(value), pv)
                                    == nodes_view(out@.skip(old(out)@.len() as int)) by {
                                assert(f.subdissector is None);
                            }
                        }
                    }
                    Ok(offset)
                },
            }
        },
        Strategy::ConsumeWith(g) => {
            let (n, text) = host.consume_with(g, data, offset, fields, local);
            proof {
                lemma_said_push(old(host).calls(), HostCall::ConsumeWith { func: g, offset, answer: n, text: text@ });
                lemma_answers_of_one(HostCall::ConsumeWith { func: g, offset, answer: n, text: text@ });
                assert forall|tail: Seq<Answer>|
                    #[trigger] m_strategy(*schema, data@, c as int, j as int, offset as int, old(vals)@, depth as nat, said(old(host).calls(), host.calls()) + tail, size_int(size))
                        == (if n > remaining { Ok::<int, int>(offset as int) } else { Ok::<int, int>(offset + n) }, old(vals)@, tail) by {
                    let t2 = said(old(host).calls(), host.calls()) + tail;
                    assert(t2 =~= seq![Answer::Took(n)] + tail);
                    assert(t2[0] == Answer::Took(n));
                    assert(t2.skip(1) =~= tail);
                }
            }
            proof {
                assert forall|tail: Seq<Answer>|
                    #[trigger] h_strategy(*schema, data@, c as int, j as int, offset as int, old(vals)@, local@, depth as nat, mode, said(old(host).calls(), host.calls()) + tail, old(fields)@, path@, size_int(size), value)
                        == (shapes(host.calls().skip(old(host).calls().len() as int)), fields@) by {
                    assert(shapes(host.calls().skip(old(host).calls().len() as int)) == seq![CallShape::ConsumeWith { func: g, offset }]);
                }
            }
            let ghost pv = path@;
            if n > remaining {
                record_error(mode, out, errors, path, offset, DecodeError::BadConsumption);
                proof {
                if mode == Mode::Tree {
                    assert forall|tail: Seq<Answer>|
                        #[trigger] t_strategy(*schema, registry@, data@, c as int, j as int, offset as int, old(vals)@, depth as nat, said(old(host).calls(), host.calls()) + tail, size_int(size), kind_of(value), pv)
                            == nodes_view(out@.skip(old(out)@.len() as int)) by {
                        let t2 = said(old(host).calls(), host.calls()) + tail;
                        assert(t2 =~= seq![Answer::Took(n)] + tail);
                        assert(t2[0] == Answer::Took(n));
                    }
                }
                }
                return Ok(offset);
            }
            push_node(mode, out, Node { path, id: registry.field_id(c, j), start: offset, len: n, value: NodeValue::Text(text) });
            proof {
                if mode == Mode::Tree {
                    assert forall|tail: Seq<Answer>|
                        #[trigger] t_strategy(*schema, registry@, data@, c as int, j as int, offset as int, old(vals)@, depth as nat, said(old(host).calls(), host.calls()) + tail, size_int(size), kind_of(value), pv)
                            == nodes_view(out@.skip(old(out)@.len() as int)) by {
                        let t2 = said(old(host).calls(), host.calls()) + tail;
                        assert(t2 =~= seq![Answer::Took(n)] + tail);
                        assert(t2[0] == Answer::Took(n));
                    }
                }
            }
            Ok(offset + n)
        },
        Strategy::DecodeWith(g) => {
            let text = host.decode_with(g, value, data, offset, fields, local);
            let ghost c1 = host.calls();
            proof {
                lemma_said_push(old(host).calls(), HostCall::DecodeWith { func: g, value, offset, answer: text@ });
                lemma_answers_of_one(HostCall::DecodeWith { func: g, value, offset, answer: text@ });
                assert forall|tail: Seq<Answer>| #[trigger] (said(old(host).calls(), host.calls()) + tail) =~= tail by {}
            }
            let ghost dshape = seq![CallShape::DecodeWith { func: g, value, offset }];
            proof {
                assert(shapes(c1.skip(old(host).calls().len() as int)) == dshape);
            }
            let end = match size {
                Some(n) => {
                    proof {
                        assert forall|tail: Seq<Answer>|
                            #[trigger] h_strategy(*schema, data@, c as int, j as int, offset as int, old(vals)@, local@, depth as nat, mode, said(old(host).calls(), host.calls()) + tail, old(fields)@, path@, size_int(size), value)
                                == (shapes(host.calls().skip(old(host).calls().len() as int)), fields@) by {
                    
                        }
                    }
                    offset + n
                },
                None => {
                    let r = walk_type(schema, registry, data, c, j, offset, path.as_str(), depth, Mode::SizeOnly, fields, local, vals, host, out, errors);
                    proof {
                        assert forall|tail: Seq<Answer>|
                            #[trigger] h_strategy(*schema, data@, c as int, j as int, offset as int, old(vals)@, local@, depth as nat, mode, said(old(host).calls(), host.calls()) + tail, old(fields)@, path@, size_int(size), value)
                                == (shapes(host.calls().skip(old(host).calls().len() as int)), fields@) by {
                            lemma_grew_chain(old(host).calls(), c1, host.calls());
                            assert(h_type(*schema, data@, c as int, j as int, offset as int, old(vals)@, local@, depth as nat, Mode::SizeOnly, said(c1, host.calls()) + tail, old(fields)@, path@)
                                == (shapes(host.calls().skip(c1.len() as int)), fields@));
                            assert(said(old(host).calls(), host.calls()) =~= said(c1, host.calls()));
                        }
                    }
                    proof {
                        lemma_grew_chain(old(host).calls(), c1, host.calls());
                        assert(said(old(host).calls(), host.calls()) =~= said(c1, host.calls()));
                        assert forall|tail: Seq<Answer>|
                            #[trigger] m_strategy(*schema, data@, c as int, j as int, offset as int, old(vals)@, depth as nat, said(old(host).calls(), host.calls()) + tail, size_int(size))
                                == (as_int(r), old(vals)@, tail) by {
                            assert(m_type(*schema, data@, c as int, j as int, offset as int, old(vals)@, depth as nat, said(c1, host.calls()) + tail) == (as_int(r), tail));
                        }
                    }
                    match r {
                        Ok(e) => e,
                        Err(e) => {
                            return Err(e);
                        },
                    }
                },
            };
            let ghost pv = path@;
            let ghost before = out@;
            push_node(mode, out, Node { path, id: registry.field_id(c, j), start: offset, len: end - offset, value: NodeValue::Text(text) });
            proof {
                if mode == Mode::Tree {
                    assert forall|tail: Seq<Answer>|
                        #[trigger] t_strategy(*schema, registry@, data@, c as int, j as int, offset as int, old(vals)@, depth as nat, said(old(host).calls(), host.calls()) + tail, size_int(size), kind_of(value), pv)
                            == nodes_view(out@.skip(old(out)@.len() as int)) by {
                        if size is None {
                            assert(m_type(*schema, data@, c as int, j as int, offset as int, old(vals)@, depth as nat, said(c1, host.calls()) + tail)
                                == (Ok::<int, int>(end as int), tail));
                        }
                        assert(before == old(out)@);
                    }
                }
            }
            Ok(end)
        },
        Strategy::Hidden => {
            proof {
                assert(out@.skip(out@.len() as int) =~= Seq::<Node>::empty());
                assert(nodes_view(Seq::<Node>::empty()) =~= Seq::<NodeV>::empty());
            }
            match size {
                Some(n) => {
                    proof {
                        assert forall|tail: Seq<Answer>|
                            #[trigger] h_strategy(*schema, data@, c as int, j as int, offset as int, old(vals)@, local@, depth as nat, mode, said(old(host).calls(), host.calls()) + tail, old(fields)@, path@, size_int(size), value)
                                == (shapes(host.calls().skip(old(host).calls().len() as int)), fields@) by {
                    
                        }
                    }
                    proof {
                        if mode == Mode::Tree {
                            assert forall|tail: Seq<Answer>|
                                #[trigger] t_strategy(*schema, registry@, data@, c as int, j as int, offset as int, old(vals)@, depth as nat, said(old(host).calls(), host.calls()) + tail, size_int(size), kind_of(value), path@)
                                    == nodes_view(out@.skip(old(out)@.len() as int)) by {}
                        }
                    }
                    Ok(offset + n)
                },
                None => {
                    let r = walk_type(schema, registry, data, c, j, offset, path.as_str(), depth, Mode::SizeOnly, fields, local, vals, host, out, errors);
                    proof {
                        assert forall|tail: Seq<Answer>|
                            #[trigger] h_strategy(*schema, data@, c as int, j as int, offset as int, old(vals)@, local@, depth as nat, mode, said(old(host).calls(), host.calls()) + tail, old(fields)@, path@, size_int(size), value)
                                == (shapes(host.calls().skip(old(host).calls().len() as int)), fields@) by {
                            assert(h_type(*schema, data@, c as int, j as int, offset as int, old(vals)@, local@, depth as nat, Mode::SizeOnly, said(old(host).calls(), host.calls()) + tail, old(fields)@, path@)
                                == (shapes(host.calls().skip(old(host).calls().len() as int)), fields@));
                        }
                    }
                    proof {
                        assert forall|tail: Seq<Answer>|
                            #[trigger] m_strategy(*schema, data@, c as int, j as int, offset as int, old(vals)@, depth as nat, said(old(host).calls(), host.calls()) + tail, size_int(size))
                                == (as_int(r), old(vals)@, tail) by {
                            assert(m_type(*schema, data@, c as int, j as int, offset as int, old(vals)@, depth as nat, said(old(host).calls(), host.calls()) + tail) == (as_int(r), tail));
                        }
                    }
                    proof {
                        if mode == Mode::Tree {
                            assert(out@ == old(out)@);
                            assert forall|tail: Seq<Answer>|
                                #[trigger] t_strategy(*schema, registry@, data@, c as int, j as int, offset as int, old(vals)@, depth as nat, said(old(host).calls(), host.calls()) + tail, size_int(size), kind_of(value), path@)
                                    == nodes_view(out@.skip(old(out)@.len() as int)) by {}
                        }
                    }
                    r
                },
            }
        },
        Strategy::Default => {
            match size {
                Some(n) => {
                    let v = match value {
                        TapValue::UInt(v) => NodeValue::UInt(v),
                        _ => NodeValue::Bytes,
                    };
                    let ghost pv = path@;
                    proof {
                        assert forall|tail: Seq<Answer>|
                            #[trigger] h_strategy(*schema, data@, c as int, j as int, offset as int, old(vals)@, local@, depth as nat, mode, said(old(host).calls(), host.calls()) + tail, old(fields)@, path@, size_int(size), value)
                                == (shapes(host.calls().skip(old(host).calls().len() as int)), fields@) by {
                    
                        }
                    }
                    push_node(mode, out, Node { path, id: registry.field_id(c, j), start: offset, len: n, value: v });
                    proof {
                        if mode == Mode::Tree {
                            assert forall|tail: Seq<Answer>|
                                #[trigger] t_strategy(*schema, registry@, data@, c as int, j as int, offset as int, old(vals)@, depth as nat, said(old(host).calls(), host.calls()) + tail, size_int(size), kind_of(value), pv)
                                    == nodes_view(out@.skip(old(out)@.len() as int)) by {}
                        }
                    }
                    Ok(offset + n)
                },
                None => {
                    let r = walk_type(schema, registry, data, c, j, offset, path.as_str(), depth, mode, fields, local, vals, host, out, errors);
                    proof {
                        assert forall|tail: Seq<Answer>|
                            #[trigger] h_strategy(*schema, data@, c as int, j as int, offset as int, old(vals)@, local@, depth as nat, mode, said(old(host).calls(), host.calls()) + tail, old(fields)@, path@, size_int(size), value)
                                == (shapes(host.calls().skip(old(host).calls().len() as int)), fields@) by {
                            assert(h_type(*schema, data@, c as int, j as int, offset as int, old(vals)@, local@, depth as nat, mode, said(old(host).calls(), host.calls()) + tail, old(fields)@, path@)
                                == (shapes(host.calls().skip(old(host).calls().len() as int)), fields@));
                        }
                    }
                    proof {
                        assert forall|tail: Seq<Answer>|
                            #[trigger] m_strategy(*schema, data@, c as int, j as int, offset as int, old(vals)@, depth as nat, said(old(host).calls(), host.calls()) + tail, size_int(size))
                                == (as_int(r), old(vals)@, tail) by {
                            assert(m_type(*schema, data@, c as int, j as int, offset as int, old(vals)@, depth as nat, said(old(host).calls(), host.calls()) + tail) == (as_int(r), tail));
                        }
                    }
                    proof {
                        if mode == Mode::Tree {
                            assert forall|tail: Seq<Answer>|
                                #[trigger] t_strategy(*schema, registry@, data@, c as int, j as int, offset as int, old(vals)@, depth as nat, said(old(host).calls(), host.calls()) + tail, size_int(size), kind_of(value), path@)
                                    == nodes_view(out@.skip(old(out)@.len() as int)) by {
                                assert(t_type(*schema, registry@, data@, c as int, j as int, offset as int, old(vals)@, depth as nat, said(old(host).calls(), host.calls()) + tail, path@)
                                    == nodes_view(out@.skip(old(out)@.len() as int)));
                            }
                        }
                    }
                    r
                },
            }
        },
    }
}

/// Walks a field of composite, sequence or enum type at `offset`.
#[verifier::rlimit(100)]
fn walk_type<H: Host>(
    schema: &Schema,
    registry: &Registry,
    data: &[u8],
    c: usize,
    j: usize,
    offset: usize,
    path: &str,
    depth: usize,
    mode: Mode,
    fields: &mut FieldStore,
    local: &FieldStore,
    vals: &mut Vec<Option<u64>>,
    host: &mut H,
    out: &mut Vec<Node>,
    errors: &mut usize,
) -> (end: Result<usize, usize>)
    requires
        schema_ok(*schema),
        c < schema.composites@.len(),
        j < schema.composites@[c as int].fields@.len(),
        offset <= data@.len(),
    ensures
        final(vals)@ == old(vals)@,
        offset <= reached(end) <= data@.len(),
        step_ok(old(out)@, final(out)@, mode, offset as int, reached(end) as int),
        grew(old(host).calls(), final(host).calls()),
        forall|tail: Seq<Answer>|
            #[trigger] m_type(
                *schema,
                data@,
                c as int,
                j as int,
                offset as int,
                old(vals)@,
                depth as nat,
                said(old(host).calls(), final(host).calls()) + tail,
            ) == (as_int(end), tail),
        mode == Mode::Tree ==> forall|tail: Seq<Answer>|
            #[trigger] t_type(
                *schema,
                registry@,
                data@,
                c as int,
                j as int,
                offset as int,
                old(vals)@,
                depth as nat,
                said(old(host).calls(), final(host).calls()) + tail,
                path@,
            ) == nodes_view(final(out)@.skip(old(out)@.len() as int)),
        forall|tail: Seq<Answer>|
            #[trigger] h_type(
                *schema,
                data@,
                c as int,
                j as int,
                offset as int,
                old(vals)@,
                local@,
                depth as nat,
                mode,
                said(old(host).calls(), final(host).calls()) + tail,
                old(fields)@,
                path@,
            ) == (shapes(final(host).calls().skip(old(host).calls().len() as int)), final(fields)@),
    decreases depth, 0int,
{
    let comp = &schema.composites[c];
    let f = &comp.fields[j];
    proof {
        assert(composite_ok(*schema, schema.composites@[c as int]));
        assert(field_ok(*schema, *comp, j as int));
        assert(type_ok(*schema, *comp, j as int));
        lemma_grew_refl(old(host).calls());
        assert forall|tail: Seq<Answer>| #[trigger] (said(old(host).calls(), host.calls()) + tail) =~= tail by {}
    }
    match f.ty {
        FieldType::Composite(k) => {
            if depth == 0 {
                record_error(mode, out, errors, String::from_str(path), offset, DecodeError::TooDeep);
                return Err(offset);
            }
            let e = walk_composite(schema, registry, data, k, offset, path, depth - 1, mode, fields, host, out, errors);
            proof {
                assert forall|tail: Seq<Answer>|
                    #[trigger] m_type(*schema, data@, c as int, j as int, offset as int, old(vals)@, depth as nat, said(old(host).calls(), host.calls()) + tail)
                        == (Ok::<int, int>(e as int), tail) by {
                    assert(m_composite(*schema, data@, k as int, offset as int, (depth - 1) as nat, said(old(host).calls(), host.calls()) + tail) == (e as int, tail));
                }
                if mode == Mode::Tree {
                    assert forall|tail: Seq<Answer>|
                        #[trigger] t_type(*schema, registry@, data@, c as int, j as int, offset as int, old(vals)@, depth as nat, said(old(host).calls(), host.calls()) + tail, path@)
                            == nodes_view(out@.skip(old(out)@.len() as int)) by {
                        assert(t_composite(*schema, registry@, data@, k as int, offset as int, (depth - 1) as nat, said(old(host).calls(), host.calls()) + tail, path@)
                            == nodes_view(out@.skip(old(out)@.len() as int)));
                    }
                }
                assert forall|tail: Seq<Answer>|
                    #[trigger] h_type(*schema, data@, c as int, j as int, offset as int, old(vals)@, local@, depth as nat, mode, said(old(host).calls(), host.calls()) + tail, old(fields)@, path@)
                        == (shapes(host.calls().skip(old(host).calls().len() as int)), fields@) by {
                    assert(h_composite(*schema, data@, k as int, offset as int, (depth - 1) as nat, mode, said(old(host).calls(), host.calls()) + tail, old(fields)@, path@)
                        == (shapes(host.calls().skip(old(host).calls().len() as int)), fields@));
                }
            }
            Ok(e)
        },
        FieldType::Sequence { elem, count } => {
            let n = match count {
                Count::Fixed(n) => Some(n),
                Count::Hint(h) => hint_value(vals, h),
            };
            let n = match n {
                Some(n) => n,
                None => {
                    record_error(mode, out, errors, String::from_str(path), offset, DecodeError::MissingHint);
                    return Err(offset);
                },
            };
            let ghost start_nodes = out@;
            let ghost log0 = host.calls();
            proof {
                assert forall|x: Seq<Answer>|
                    #[trigger] m_type(*schema, data@, c as int, j as int, offset as int, old(vals)@, depth as nat, x)
                        == m_seq(*schema, data@, elem, n as int, 0, offset as int, depth as nat, x) by {}
                assert forall|x: Seq<Answer>|
                    #[trigger] t_type(*schema, registry@, data@, c as int, j as int, offset as int, old(vals)@, depth as nat, x, path@)
                        == t_seq(*schema, registry@, data@, c as int, j as int, elem, n as int, 0, offset as int, depth as nat, x, path@) by {}
                assert(out@.skip(start_nodes.len() as int) =~= Seq::<Node>::empty());
                assert(nodes_view(Seq::<Node>::empty()) =~= Seq::<NodeV>::empty());
                assert forall|tail: Seq<Answer>|
                    t_seq(*schema, registry@, data@, c as int, j as int, elem, n as int, 0, offset as int, depth as nat, #[trigger] (said(log0, host.calls()) + tail), path@)
                        == nodes_view(out@.skip(start_nodes.len() as int)) + t_seq(*schema, registry@, data@, c as int, j as int, elem, n as int, 0, offset as int, depth as nat, tail, path@) by {
                    assert(said(log0, host.calls()) + tail =~= tail);
                    assert(Seq::<NodeV>::empty() + t_seq(*schema, registry@, data@, c as int, j as int, elem, n as int, 0, offset as int, depth as nat, tail, path@) =~= t_seq(*schema, registry@, data@, c as int, j as int, elem, n as int, 0, offset as int, depth as nat, tail, path@));
                }
            }
            proof {
                assert forall|x: Seq<Answer>| #[trigger] h_type(*schema, data@, c as int, j as int, offset as int, old(vals)@, local@, depth as nat, mode, x, old(fields)@, path@) == h_seq(*schema, data@, elem, n as int, 0, offset as int, depth as nat, mode, x, old(fields)@, path@) by {}
                assert forall|tail: Seq<Answer>|
                    h_seq(*schema, data@, elem, n as int, 0, offset as int, depth as nat, mode, #[trigger] (said(log0, host.calls()) + tail), old(fields)@, path@)
                        == (shapes(host.calls().skip(log0.len() as int)) + h_seq(*schema, data@, elem, n as int, 0, offset as int, depth as nat, mode, tail, fields@, path@).0, h_seq(*schema, data@, elem, n as int, 0, offset as int, depth as nat, mode, tail, fields@, path@).1) by {
                    assert(said(log0, host.calls()) + tail =~= tail);
                    assert(Seq::<CallShape>::empty() + h_seq(*schema, data@, elem, n as int, 0, offset as int, depth as nat, mode, tail, fields@, path@).0 =~= h_seq(*schema, data@, elem, n as int, 0, offset as int, depth as nat, mode, tail, fields@, path@).0);
                }
            }
            let dl = data.len();
            let mut cur = offset;
            let mut e: usize = 0;
            while e < n
                invariant
                    schema_ok(*schema),
                    start_nodes == old(out)@,
                    log0 == old(host).calls(),
                    dl == data@.len(),
                    offset <= cur <= data@.len(),
                    step_ok(start_nodes, out@, mode, offset as int, cur as int),
                    match elem {
                        Elem::UInt { width, .. } => valid_width(width),
                        Elem::Composite(k) => k < schema.composites@.len(),
                    },
                    grew(log0, host.calls()),
                    forall|x: Seq<Answer>|
                        #[trigger] m_type(*schema, data@, c as int, j as int, offset as int, old(vals)@, depth as nat, x)
                            == m_seq(*schema, data@, elem, n as int, 0, offset as int, depth as nat, x),
                    forall|tail: Seq<Answer>|
                        m_seq(*schema, data@, elem, n as int, 0, offset as int, depth as nat, #[trigger] (said(log0, host.calls()) + tail))
                            == m_seq(*schema, data@, elem, n as int, e as int, cur as int, depth as nat, tail),
                    forall|x: Seq<Answer>| #[trigger] h_type(*schema, data@, c as int, j as int, offset as int, old(vals)@, local@, depth as nat, mode, x, old(fields)@, path@) == h_seq(*schema, data@, elem, n as int, 0, offset as int, depth as nat, mode, x, old(fields)@, path@),
                    forall|tail: Seq<Answer>|
                        h_seq(*schema, data@, elem, n as int, 0, offset as int, depth as nat, mode, #[trigger] (said(log0, host.calls()) + tail), old(fields)@, path@)
                            == (shapes(host.calls().skip(log0.len() as int)) + h_seq(*schema, data@, elem, n as int, e as int, cur as int, depth as nat, mode, tail, fields@, path@).0, h_seq(*schema, data@, elem, n as int, e as int, cur as int, depth as nat, mode, tail, fields@, path@).1),
                    forall|x: Seq<Answer>|
                        #[trigger] t_type(*schema, registry@, data@, c as int, j as int, offset as int, old(vals)@, depth as nat, x, path@)
                            == t_seq(*schema, registry@, data@, c as int, j as int, elem, n as int, 0, offset as int, depth as nat, x, path@),
                    mode == Mode::Tree ==> forall|tail: Seq<Answer>|
                        t_seq(*schema, registry@, data@, c as int, j as int, elem, n as int, 0, offset as int, depth as nat, #[trigger] (said(log0, host.calls()) + tail), path@)
                            == nodes_view(out@.skip(start_nodes.len() as int)) + t_seq(*schema, registry@, data@, c as int, j as int, elem, n as int, e as int, cur as int, depth as nat, tail, path@),
                decreases n - e,
            {
                let ghost before = out@;
                let ghost log1 = host.calls();
                match elem {
                    Elem::UInt { width, order } => {
                        match read_uint(data, cur, width, order) {
                            None => {
                                record_error(mode, out, errors, String::from_str(path), cur, DecodeError::OutOfRange);
                                proof {
                                    lemma_join(start_nodes, before, out@, mode, offset as int, cur as int, cur as int);
                                    assert forall|tail: Seq<Answer>|
                                        #[trigger] m_type(*schema, data@, c as int, j as int, offset as int, old(vals)@, depth as nat, said(old(host).calls(), host.calls()) + tail)
                                            == (Err::<int, int>(cur as int), tail) by {
                                        assert(m_type(*schema, data@, c as int, j as int, offset as int, old(vals)@, depth as nat, said(log0, host.calls()) + tail)
                                            == m_seq(*schema, data@, elem, n as int, 0, offset as int, depth as nat, said(log0, host.calls()) + tail));
                                        assert(m_seq(*schema, data@, elem, n as int, 0, offset as int, depth as nat, said(log0, host.calls()) + tail)
                                            == m_seq(*schema, data@, elem, n as int, e as int, cur as int, depth as nat, tail));
                                    }
                                    if mode == Mode::Tree {
                                        lemma_nodes_after(before, out@, start_nodes.len() as int);
                                        assert forall|tail: Seq<Answer>|
                                            #[trigger] t_type(*schema, registry@, data@, c as int, j as int, offset as int, old(vals)@, depth as nat, said(old(host).calls(), host.calls()) + tail, path@)
                                                == nodes_view(out@.skip(old(out)@.len() as int)) by {
                                            assert(t_seq(*schema, registry@, data@, c as int, j as int, elem, n as int, e as int, cur as int, depth as nat, tail, path@) == seq![err(path@, cur as int, DecodeError::OutOfRange)]);
                                        }
                                    }
                                }
                                proof {
                                    assert forall|tail: Seq<Answer>|
                                        #[trigger] h_type(*schema, data@, c as int, j as int, offset as int, old(vals)@, local@, depth as nat, mode, said(old(host).calls(), host.calls()) + tail, old(fields)@, path@)
                                            == (shapes(host.calls().skip(old(host).calls().len() as int)), fields@) by {
                                        assert(h_seq(*schema, data@, elem, n as int, e as int, cur as int, depth as nat, mode, tail, fields@, path@) == (Seq::<CallShape>::empty(), fields@));
                                        assert(shapes(host.calls().skip(log0.len() as int)) + Seq::<CallShape>::empty() =~= shapes(host.calls().skip(log0.len() as int)));
                                    }
                                }
                                proof {
                                    assert forall|tail: Seq<Answer>|
                                        #[trigger] h_type(*schema, data@, c as int, j as int, offset as int, old(vals)@, local@, depth as nat, mode, said(old(host).calls(), host.calls()) + tail, old(fields)@, path@)
                                            == (shapes(host.calls().skip(old(host).calls().len() as int)), fields@) by {
                                        assert(h_seq(*schema, data@, elem, n as int, e as int, cur as int, depth as nat, mode, tail, fields@, path@) == (Seq::<CallShape>::empty(), fields@));
                                        assert(shapes(host.calls().skip(log0.len() as int)) + Seq::<CallShape>::empty() =~= shapes(host.calls().skip(log0.len() as int)));
                                    }
                                }
                                return Err(cur);
                            },
                            Some(v) => {
                                push_node(mode, out, Node { path: String::from_str(path), id: registry.field_id(c, j), start: cur, len: width, value: NodeValue::UInt(v) });
                                proof {
                                    lemma_join(start_nodes, before, out@, mode, offset as int, cur as int, cur + width);
                                    if mode == Mode::Tree {
                                        lemma_nodes_after(before, out@, start_nodes.len() as int);
                                        assert forall|tail: Seq<Answer>|
                                            t_seq(*schema, registry@, data@, c as int, j as int, elem, n as int, 0, offset as int, depth as nat, #[trigger] (said(log0, host.calls()) + tail), path@)
                                                == nodes_view(out@.skip(start_nodes.len() as int)) + t_seq(*schema, registry@, data@, c as int, j as int, elem, n as int, e + 1, cur + width, depth as nat, tail, path@) by {
                                            assert(t_seq(*schema, registry@, data@, c as int, j as int, elem, n as int, e as int, cur as int, depth as nat, tail, path@) == seq![node_view(out@.last())] + t_seq(*schema, registry@, data@, c as int, j as int, elem, n as int, e + 1, cur + width, depth as nat, tail, path@));
                                            assert(nodes_view(before.skip(start_nodes.len() as int)) + seq![node_view(out@.last())] + t_seq(*schema, registry@, data@, c as int, j as int, elem, n as int, e + 1, cur + width, depth as nat, tail, path@)
                                                =~= nodes_view(before.skip(start_nodes.len() as int)) + (seq![node_view(out@.last())] + t_seq(*schema, registry@, data@, c as int, j as int, elem, n as int, e + 1, cur + width, depth as nat, tail, path@)));
                                        }
                                    }
                                }
                                proof {
                                    assert forall|tail: Seq<Answer>|
                                        h_seq(*schema, data@, elem, n as int, 0, offset as int, depth as nat, mode, #[trigger] (said(log0, host.calls()) + tail), old(fields)@, path@)
                                            == (shapes(host.calls().skip(log0.len() as int)) + h_seq(*schema, data@, elem, n as int, e + 1, cur + width, depth as nat, mode, tail, fields@, path@).0, h_seq(*schema, data@, elem, n as int, e + 1, cur + width, depth as nat, mode, tail, fields@, path@).1) by {
                                        assert(h_seq(*schema, data@, elem, n as int, e as int, cur as int, depth as nat, mode, tail, fields@, path@) == h_seq(*schema, data@, elem, n as int, e + 1, cur + width, depth as nat, mode, tail, fields@, path@));
                                    }
                                }
                                cur = cur + width;
                            },
                        }
                    },
                    Elem::Composite(k) => {
                        if depth == 0 {
                            record_error(mode, out, errors, String::from_str(path), cur, DecodeError::TooDeep);
                            proof {
                                lemma_join(start_nodes, before, out@, mode, offset as int, cur as int, cur as int);
                                assert forall|tail: Seq<Answer>|
                                    #[trigger] m_type(*schema, data@, c as int, j as int, offset as int, old(vals)@, depth as nat, said(old(host).calls(), host.calls()) + tail)
                                        == (Err::<int, int>(cur as int), tail) by {
                                    assert(m_type(*schema, data@, c as int, j as int, offset as int, old(vals)@, depth as nat, said(log0, host.calls()) + tail)
                                        == m_seq(*schema, data@, elem, n as int, 0, offset as int, depth as nat, said(log0, host.calls()) + tail));
                                    assert(m_seq(*schema, data@, elem, n as int, 0, offset as int, depth as nat, said(log0, host.calls()) + tail)
                                        == m_seq(*schema, data@, elem, n as int, e as int, cur as int, depth as nat, tail));
                                }
                                if mode == Mode::Tree {
                                    lemma_nodes_after(before, out@, start_nodes.len() as int);
                                    assert forall|tail: Seq<Answer>|
                                        #[trigger] t_type(*schema, registry@, data@, c as int, j as int, offset as int, old(vals)@, depth as nat, said(old(host).calls(), host.calls()) + tail, path@)
                                            == nodes_view(out@.skip(old(out)@.len() as int)) by {
                                        assert(t_seq(*schema, registry@, data@, c as int, j as int, elem, n as int, e as int, cur as int, depth as nat, tail, path@) == seq![err(path@, cur as int, DecodeError::TooDeep)]);
                                    }
                                }
                            }
                            return Err(cur);
                        }
                        let ghost fb = fields@;
                        let next = walk_composite(schema, registry, data, k, cur, path, depth - 1, mode, fields, host, out, errors);
                        proof {
                            lemma_grew_chain(log0, log1, host.calls());
                            assert forall|tail: Seq<Answer>|
                                h_seq(*schema, data@, elem, n as int, 0, offset as int, depth as nat, mode, #[trigger] (said(log0, host.calls()) + tail), old(fields)@, path@)
                                    == (shapes(host.calls().skip(log0.len() as int)) + h_seq(*schema, data@, elem, n as int, e + 1, next as int, depth as nat, mode, tail, fields@, path@).0, h_seq(*schema, data@, elem, n as int, e + 1, next as int, depth as nat, mode, tail, fields@, path@).1) by {
                                let x = said(log1, host.calls()) + tail;
                                assert(said(log0, host.calls()) + tail =~= said(log0, log1) + x);
                                assert(m_composite(*schema, data@, k as int, cur as int, (depth - 1) as nat, x) == (next as int, tail));
                                assert(h_composite(*schema, data@, k as int, cur as int, (depth - 1) as nat, mode, x, fb, path@)
                                    == (shapes(host.calls().skip(log1.len() as int)), fields@));
                                assert(h_seq(*schema, data@, elem, n as int, e as int, cur as int, depth as nat, mode, x, fb, path@) == (shapes(host.calls().skip(log1.len() as int)) + h_seq(*schema, data@, elem, n as int, e + 1, next as int, depth as nat, mode, tail, fields@, path@).0, h_seq(*schema, data@, elem, n as int, e + 1, next as int, depth as nat, mode, tail, fields@, path@).1));
                                assert(shapes(log1.skip(log0.len() as int)) + (shapes(host.calls().skip(log1.len() as int)) + h_seq(*schema, data@, elem, n as int, e + 1, next as int, depth as nat, mode, tail, fields@, path@).0)
                                    =~= shapes(log1.skip(log0.len() as int)) + shapes(host.calls().skip(log1.len() as int)) + h_seq(*schema, data@, elem, n as int, e + 1, next as int, depth as nat, mode, tail, fields@, path@).0);
                            }
                        }

                        proof {
                            lemma_join(start_nodes, before, out@, mode, offset as int, cur as int, next as int);
                            lemma_grew_chain(log0, log1, host.calls());
                            assert forall|tail: Seq<Answer>|
                                m_seq(*schema, data@, elem, n as int, 0, offset as int, depth as nat, #[trigger] (said(log0, host.calls()) + tail))
                                    == m_seq(*schema, data@, elem, n as int, e + 1, next as int, depth as nat, tail) by {
                                assert(said(log0, host.calls()) + tail =~= said(log0, log1) + (said(log1, host.calls()) + tail));
                                assert(m_composite(*schema, data@, k as int, cur as int, (depth - 1) as nat, said(log1, host.calls()) + tail) == (next as int, tail));
                            }
                            if mode == Mode::Tree {
                                lemma_nodes_after(before, out@, start_nodes.len() as int);
                                assert forall|tail: Seq<Answer>|
                                    t_seq(*schema, registry@, data@, c as int, j as int, elem, n as int, 0, offset as int, depth as nat, #[trigger] (said(log0, host.calls()) + tail), path@)
                                        == nodes_view(out@.skip(start_nodes.len() as int)) + t_seq(*schema, registry@, data@, c as int, j as int, elem, n as int, e + 1, next as int, depth as nat, tail, path@) by {
                                    let x = said(log1, host.calls()) + tail;
                                    assert(said(log0, host.calls()) + tail =~= said(log0, log1) + x);
                                    assert(m_composite(*schema, data@, k as int, cur as int, (depth - 1) as nat, x) == (next as int, tail));
                                    assert(t_composite(*schema, registry@, data@, k as int, cur as int, (depth - 1) as nat, x, path@) == nodes_view(out@.skip(before.len() as int)));
                                    assert(t_seq(*schema, registry@, data@, c as int, j as int, elem, n as int, e as int, cur as int, depth as nat, x, path@) == nodes_view(out@.skip(before.len() as int)) + t_seq(*schema, registry@, data@, c as int, j as int, elem, n as int, e + 1, next as int, depth as nat, tail, path@));
                                    assert(nodes_view(before.skip(start_nodes.len() as int)) + nodes_view(out@.skip(before.len() as int)) + t_seq(*schema, registry@, data@, c as int, j as int, elem, n as int, e + 1, next as int, depth as nat, tail, path@)
                                        =~= nodes_view(before.skip(start_nodes.len() as int)) + (nodes_view(out@.skip(before.len() as int)) + t_seq(*schema, registry@, data@, c as int, j as int, elem, n as int, e + 1, next as int, depth as nat, tail, path@)));
                                }
                            }
                        }
                        cur = next;
                    },
                }
                e = e + 1;
            }
            proof {
                assert forall|tail: Seq<Answer>|
                    #[trigger] m_type(*schema, data@, c as int, j as int, offset as int, old(vals)@, depth as nat, said(old(host).calls(), host.calls()) + tail)
                        == (Ok::<int, int>(cur as int), tail) by {
                    assert(m_type(*schema, data@, c as int, j as int, offset as int, old(vals)@, depth as nat, said(log0, host.calls()) + tail)
                        == m_seq(*schema, data@, elem, n as int, 0, offset as int, depth as nat, said(log0, host.calls()) + tail));
                    assert(m_seq(*schema, data@, elem, n as int, 0, offset as int, depth as nat, said(log0, host.calls()) + tail)
                        == m_seq(*schema, data@, elem, n as int, e as int, cur as int, depth as nat, tail));
                }
            }
            proof {
                if mode == Mode::Tree {
                    assert forall|tail: Seq<Answer>|
                        #[trigger] t_type(*schema, registry@, data@, c as int, j as int, offset as int, old(vals)@, depth as nat, said(old(host).calls(), host.calls()) + tail, path@)
                            == nodes_view(out@.skip(old(out)@.len() as int)) by {
                        assert(t_seq(*schema, registry@, data@, c as int, j as int, elem, n as int, e as int, cur as int, depth as nat, tail, path@) == Seq::<NodeV>::empty());
                        assert(nodes_view(out@.skip(start_nodes.len() as int)) + Seq::<NodeV>::empty() =~= nodes_view(out@.skip(start_nodes.len() as int)));
                    }
                }
            }
            proof {
                assert forall|tail: Seq<Answer>|
                    #[trigger] h_type(*schema, data@, c as int, j as int, offset as int, old(vals)@, local@, depth as nat, mode, said(old(host).calls(), host.calls()) + tail, old(fields)@, path@)
                        == (shapes(host.calls().skip(old(host).calls().len() as int)), fields@) by {
                    assert(h_seq(*schema, data@, elem, n as int, e as int, cur as int, depth as nat, mode, tail, fields@, path@) == (Seq::<CallShape>::empty(), fields@));
                    assert(shapes(host.calls().skip(log0.len() as int)) + Seq::<CallShape>::empty() =~= shapes(host.calls().skip(log0.len() as int)));
                }
            }
            Ok(cur)
        },
        FieldType::Enum(en) => {
            let resolver = match f.get_variant {
                Some(r) => r,
                None => 0,
            };
            let name = host.resolve_variant(resolver, local);
            let ghost nv: Option<Seq<char>> = match &name {
                Some(n) => Some(n@),
                None => None,
            };
            let enm = &schema.enums[en];
            let found = match &name {
                Some(nm) => find_variant(enm, nm.as_str()),
                None => None,
            };
            let ghost log1 = host.calls();
            proof {
                let call = HostCall::Resolve { resolver, local: local@, answer: nv };
                lemma_said_push(old(host).calls(), call);
                lemma_answers_of_one(call);
                assert(en < schema.enums@.len());
                if let Some(nm) = nv {
                    lemma_variant_named(*schema, en as int, nm, found);
                }
                assert forall|tail: Seq<Answer>| #[trigger] (said(old(host).calls(), log1) + tail).skip(1) =~= tail by {}
                assert forall|tail: Seq<Answer>| #[trigger] (said(old(host).calls(), log1) + tail)[0] == Answer::Named(nv) by {}
            }
            match found {
                None => {
                    let e = if name.is_none() {
                        DecodeError::NoVariant
                    } else {
                        DecodeError::UnknownVariant
                    };
                    record_error(mode, out, errors, String::from_str(path), offset, e);
                    proof {
                        assert forall|tail: Seq<Answer>|
                            #[trigger] h_type(*schema, data@, c as int, j as int, offset as int, old(vals)@, local@, depth as nat, mode, said(old(host).calls(), host.calls()) + tail, old(fields)@, path@)
                                == (shapes(host.calls().skip(old(host).calls().len() as int)), fields@) by {
                            assert((said(old(host).calls(), host.calls()) + tail)[0] == Answer::Named(nv));
                            assert(shapes(host.calls().skip(old(host).calls().len() as int)) == seq![CallShape::Resolve { resolver, local: local@ }]);
                        }
                    }
                    Err(offset)
                },
                Some(v) => {
                    if depth == 0 {
                        record_error(mode, out, errors, String::from_str(path), offset, DecodeError::TooDeep);
                        proof {
                            assert forall|tail: Seq<Answer>|
                                #[trigger] h_type(*schema, data@, c as int, j as int, offset as int, old(vals)@, local@, depth as nat, mode, said(old(host).calls(), host.calls()) + tail, old(fields)@, path@)
                                    == (shapes(host.calls().skip(old(host).calls().len() as int)), fields@) by {
                                assert((said(old(host).calls(), host.calls()) + tail)[0] == Answer::Named(nv));
                                assert(shapes(host.calls().skip(old(host).calls().len() as int)) == seq![CallShape::Resolve { resolver, local: local@ }]);
                            }
                        }
                        return Err(offset);
                    }
                    proof {
                        assert(crate::schema::enum_ok(*schema, schema.enums@[en as int]));
                        assert(enm.variants@[v as int].composite < schema.composites@.len());
                    }
                    let vpath = child_path(path, enm.variants[v].name.as_str());
                    let ghost fb = fields@;
                    let e = walk_composite(schema, registry, data, enm.variants[v].composite, offset, vpath.as_str(), depth - 1, mode, fields, host, out, errors);
                    proof {
                        lemma_grew_chain(old(host).calls(), log1, host.calls());
                        assert forall|tail: Seq<Answer>|
                            #[trigger] h_type(*schema, data@, c as int, j as int, offset as int, old(vals)@, local@, depth as nat, mode, said(old(host).calls(), host.calls()) + tail, old(fields)@, path@)
                                == (shapes(host.calls().skip(old(host).calls().len() as int)), fields@) by {
                            let t2 = said(old(host).calls(), host.calls()) + tail;
                            assert(t2 =~= seq![Answer::Named(nv)] + (said(log1, host.calls()) + tail));
                            assert(t2.skip(1) =~= said(log1, host.calls()) + tail);
                            assert(t2[0] == Answer::Named(nv));
                            assert(h_composite(*schema, data@, schema.enums@[en as int].variants@[v as int].composite as int, offset as int, (depth - 1) as nat, mode, said(log1, host.calls()) + tail, fb, vpath@)
                                == (shapes(host.calls().skip(log1.len() as int)), fields@));
                            assert(shapes(log1.skip(old(host).calls().len() as int)) == seq![CallShape::Resolve { resolver, local: local@ }]);
                        }
                    }
                    proof {
                        lemma_grew_chain(old(host).calls(), log1, host.calls());
                        assert forall|tail: Seq<Answer>|
                            #[trigger] m_type(*schema, data@, c as int, j as int, offset as int, old(vals)@, depth as nat, said(old(host).calls(), host.calls()) + tail)
                                == (Ok::<int, int>(e as int), tail) by {
                            let t2 = said(old(host).calls(), host.calls()) + tail;
                            assert(t2 =~= seq![Answer::Named(nv)] + (said(log1, host.calls()) + tail));
                            assert(t2.skip(1) =~= said(log1, host.calls()) + tail);
                            assert(t2[0] == Answer::Named(nv));
                            assert(m_composite(*schema, data@, schema.enums@[en as int].variants@[v as int].composite as int, offset as int, (depth - 1) as nat, said(log1, host.calls()) + tail) == (e as int, tail));
                        }
                        if mode == Mode::Tree {
                            assert forall|tail: Seq<Answer>|
                                #[trigger] t_type(*schema, registry@, data@, c as int, j as int, offset as int, old(vals)@, depth as nat, said(old(host).calls(), host.calls()) + tail, path@)
                                    == nodes_view(out@.skip(old(out)@.len() as int)) by {
                                let t2 = said(old(host).calls(), host.calls()) + tail;
                                assert(t2 =~= seq![Answer::Named(nv)] + (said(log1, host.calls()) + tail));
                                assert(t2.skip(1) =~= said(log1, host.calls()) + tail);
                                assert(t2[0] == Answer::Named(nv));
                                assert(vpath@ == child(path@, schema.enums@[en as int].variants@[v as int].name@));
                                assert(t_composite(*schema, registry@, data@, schema.enums@[en as int].variants@[v as int].composite as int, offset as int, (depth - 1) as nat, said(log1, host.calls()) + tail, vpath@)
                                    == nodes_view(out@.skip(old(out)@.len() as int)));
                            }
                        }
                    }
                    Ok(e)
                },
            }
        },
        _ => Ok(offset),
    }
}

proof fn lemma_variant_named(s: Schema, en: int, name: Seq<char>, found: Option<usize>)
    requires
        0 <= en < s.enums@.len(),
        found matches Some(v) ==> v < s.enums@[en].variants@.len() && s.enums@[en].variants@[v as int].name@
            == name && forall|u: int| 0 <= u < v ==> s.enums@[en].variants@[u].name@ != name,
        found is None <==> forall|v: int|
            0 <= v < s.enums@[en].variants@.len() ==> s.enums@[en].variants@[v].name@ != name,
    ensures
        variant_named(s, en, name) == match found {
            Some(v) => Some(v as int),
            None => None::<int>,
        },
{
    let vs = s.enums@[en].variants@;
    if let Some(v) = found {
        assert(exists|w: int| 0 <= w < vs.len() && vs[w].name@ == name) by {
            assert(vs[v as int].name@ == name);
        }
        let w = choose|w: int|
            0 <= w < vs.len() && vs[w].name@ == name && forall|u: int| 0 <= u < w ==> vs[u].name@ != name;
        assert(exists|w: int|
            0 <= w < vs.len() && vs[w].name@ == name && forall|u: int| 0 <= u < w ==> vs[u].name@ != name) by {
            assert(0 <= v < vs.len());
        }
        if w < v {
            assert(vs[w].name@ != name);
        } else if v < w {
            assert(vs[v as int].name@ != name);
        }
    }
}

/// The deepest nesting of composites a walk follows.
pub const MAX_DEPTH: usize = 64;

/// The bytes that dissecting `data` by `s` consumes, given the host's answers in the order
/// the walk asked for them.
pub open spec fn measure(s: Schema, data: Seq<u8>, answers: Seq<Answer>) -> int {
    m_composite(s, data, s.root as int, 0, MAX_DEPTH as nat, answers).0
}

/// What a dissection of `data` by `s` guarantees, given the host calls it made: the
/// consumption is the measure of the host's answers among those calls, which it used up; its
/// nodes lie in order within the bytes consumed; in tree mode the first node is the root
/// subtree, named after the schema, spanning all the bytes consumed; size-only mode adds none.
pub open spec fn dissected(s: Schema, data: Seq<u8>, mode: Mode, r: Dissection, calls: Seq<HostCall>) -> bool {
    &&& r.consumed <= data.len()
    &&& r.consumed == measure(s, data, answers_of(calls))
    &&& m_composite(s, data, s.root as int, 0, MAX_DEPTH as nat, answers_of(calls)).1.len() == 0
    &&& in_order(r.nodes@, 0, 0, r.consumed as int)
    &&& mode == Mode::SizeOnly ==> r.nodes@.len() == 0
    &&& mode == Mode::Tree ==> {
        &&& r.nodes@.len() > 0
        &&& r.nodes@[0].path@ == s.name@
        &&& r.nodes@[0].start == 0
        &&& r.nodes@[0].len == r.consumed
        &&& r.nodes@[0].value is Subtree
    }
}

/// Dissects one packet from its first byte. A well-formed schema is required; registration
/// checks it. Nodes carry the identifiers that `registry` holds for their fields. Every call
/// to the host is recorded in its `calls`; those made here are appended to what it had.
pub fn dissect<H: Host>(
    schema: &Schema,
    registry: &Registry,
    data: &[u8],
    mode: Mode,
    host: &mut H,
) -> (r: Dissection)
    requires
        schema_ok(*schema),
    ensures
        grew(old(host).calls(), final(host).calls()),
        dissected(*schema, data@, mode, r, final(host).calls().skip(old(host).calls().len() as int)),
        shapes(final(host).calls().skip(old(host).calls().len() as int)) == h_composite(
            *schema,
            data@,
            schema.root as int,
            0,
            MAX_DEPTH as nat,
            mode,
            answers_of(final(host).calls().skip(old(host).calls().len() as int)),
            Seq::<(Seq<char>, Saved)>::empty(),
            schema.name@,
        ).0,
        mode == Mode::Tree ==> nodes_view(r.nodes@) == t_composite(
            *schema,
            registry@,
            data@,
            schema.root as int,
            0,
            MAX_DEPTH as nat,
            answers_of(final(host).calls().skip(old(host).calls().len() as int)),
            schema.name@,
        ),
{
    let mut fields = FieldStore::new();
    let mut out: Vec<Node> = Vec::new();
    let mut errors: usize = 0;
    let ghost f0 = fields@;
    assert(f0 =~= Seq::<(Seq<char>, Saved)>::empty());
    let consumed = walk_composite(schema, registry, data, schema.root, 0, schema.name.as_str(), MAX_DEPTH, mode, &mut fields, host, &mut out, &mut errors);
    proof {
        assert(said(old(host).calls(), host.calls()) + Seq::<Answer>::empty() =~= said(old(host).calls(), host.calls()));
        assert(m_composite(*schema, data@, schema.root as int, 0, MAX_DEPTH as nat, said(old(host).calls(), host.calls()) + Seq::<Answer>::empty()) == (consumed as int, Seq::<Answer>::empty()));
        assert(h_composite(*schema, data@, schema.root as int, 0, MAX_DEPTH as nat, mode, said(old(host).calls(), host.calls()) + Seq::<Answer>::empty(), Seq::<(Seq<char>, Saved)>::empty(), schema.name@).0
            == shapes(host.calls().skip(old(host).calls().len() as int)));
        if mode == Mode::Tree {
            assert(out@.skip(0) =~= out@);
            assert(t_composite(*schema, registry@, data@, schema.root as int, 0, MAX_DEPTH as nat, said(old(host).calls(), host.calls()) + Seq::<Answer>::empty(), schema.name@)
                == nodes_view(out@.skip(0)));
        }
    }
    Dissection { consumed, nodes: out, errors }
}

/// Size/dissect equivalence: a size-only dissection and a tree-building dissection of the
/// same buffer by the same schema consume the same number of bytes whenever the host's
/// answers in the two runs were alike.
pub proof fn lemma_size_matches_tree(
    s: Schema,
    data: Seq<u8>,
    tree: Dissection,
    tree_calls: Seq<HostCall>,
    size: Dissection,
    size_calls: Seq<HostCall>,
)
    requires
        dissected(s, data, Mode::Tree, tree, tree_calls),
        dissected(s, data, Mode::SizeOnly, size, size_calls),
        answers_of(tree_calls) == answers_of(size_calls),
    ensures
        tree.consumed == size.consumed,
        size.nodes@.len() == 0,
{
}

/// Offset monotonicity: the nodes of a dissection start in non-decreasing order, and each
/// ends within the bytes consumed.
pub proof fn lemma_offsets_monotone(
    s: Schema,
    data: Seq<u8>,
    mode: Mode,
    r: Dissection,
    calls: Seq<HostCall>,
    i: int,
    k: int,
)
    requires
        dissected(s, data, mode, r, calls),
        0 <= i <= k < r.nodes@.len(),
    ensures
        r.nodes@[i].start <= r.nodes@[k].start,
        r.nodes@[k].start + r.nodes@[k].len <= r.consumed,
{
    if i < k {
        assert(r.nodes@[i].start <= r.nodes@[k].start);
    }
}

/// Save/load round trip through the walk: once an unsigned 8, 16 or 32-bit field marked to
/// be saved has been read, in either byte order, the composite's store gives back exactly the
/// decoded value under the field's name, with the width it was read with.
pub proof fn lemma_saved_field_reads_back(
    f: FieldSchema,
    data: Seq<u8>,
    off: int,
    local: Seq<(Seq<char>, Saved)>,
)
    requires
        f.ty is UInt,
        f.ty->UInt_width == 1 || f.ty->UInt_width == 2 || f.ty->UInt_width == 4,
        f.save,
        0 <= off,
        off + f.ty->UInt_width <= data.len(),
    ensures
        ({
            let w = f.ty->UInt_width;
            let v = uint_value(data.subrange(off, off + w), f.ty->UInt_order);
            &&& v < pow256(w as nat)
            &&& (v as u64) as nat == v
            &&& lookup(saved_after(f, data, off, local), f.name@) == Some(
                Saved { value: v as u64, width: w },
            )
        }),
{
    let w = f.ty->UInt_width;
    let bs = data.subrange(off, off + w);
    lemma_save_load_round_trip(local, f.name@, bs, f.ty->UInt_order);
}

} // verus!
