//! The tree a walk builds, as a function of the schema, the registry, the buffer and the
//! host's answers.
use vstd::prelude::*;

use crate::dissect::{DecodeError, Node, NodeValue};
use crate::measure::{
    delegation, hint_of, key_count, m_composite, m_field, m_type, variant_named, Answer,
};
use crate::plan::{plan_spec, strategy_spec, Strategy};
use crate::registry::RegistryView;
use crate::schema::{ByteLen, Count, Elem, FieldType, Schema, Subdissector};
use crate::store::uint_value;

verus! {

/// What a node shows, without the text a host function formatted.
pub enum Kind {
    Subtree,
    UInt(u64),
    Bytes,
    Text,
    Delegated,
    Error(DecodeError),
}

/// A node as a value.
pub struct NodeV {
    pub path: Seq<char>,
    pub id: Option<u32>,
    pub start: int,
    pub len: int,
    pub kind: Kind,
}

pub open spec fn node_view(n: Node) -> NodeV {
    NodeV {
        path: n.path@,
        id: n.id,
        start: n.start as int,
        len: n.len as int,
        kind: match n.value {
            NodeValue::Subtree => Kind::Subtree,
            NodeValue::UInt(v) => Kind::UInt(v),
            NodeValue::Bytes => Kind::Bytes,
            NodeValue::Text(_) => Kind::Text,
            NodeValue::Delegated => Kind::Delegated,
            NodeValue::Error(e) => Kind::Error(e),
        },
    }
}

pub open spec fn nodes_view(ns: Seq<Node>) -> Seq<NodeV> {
    ns.map_values(|n: Node| node_view(n))
}

/// `prefix.name`
pub open spec fn child(prefix: Seq<char>, name: Seq<char>) -> Seq<char> {
    prefix + "."@ + name
}

pub open spec fn field_id_of(reg: RegistryView, c: int, j: int) -> Option<u32> {
    if 0 <= c < reg.fields.len() && 0 <= j < reg.fields[c].len() {
        reg.fields[c][j]
    } else {
        None
    }
}

pub open spec fn subtree_id_of(reg: RegistryView, c: int) -> Option<u32> {
    if 0 <= c < reg.subtrees.len() {
        reg.subtrees[c]
    } else {
        None
    }
}

/// An error marker at `at`.
pub open spec fn err(path: Seq<char>, at: int, e: DecodeError) -> NodeV {
    NodeV { path, id: None, start: at, len: 0, kind: Kind::Error(e) }
}

/// The nodes of composite `c` walked from `off` under `prefix`: its subtree node, spanning
/// what the composite consumes, then the nodes of its fields.
pub open spec fn t_composite(
    s: Schema,
    reg: RegistryView,
    data: Seq<u8>,
    c: int,
    off: int,
    depth: nat,
    log: Seq<Answer>,
    prefix: Seq<char>,
) -> Seq<NodeV>
    decreases depth, 5int, 0int,
{
    if 0 <= c < s.composites@.len() {
        seq![
            NodeV {
                path: prefix,
                id: subtree_id_of(reg, c),
                start: off,
                len: m_composite(s, data, c, off, depth, log).0 - off,
                kind: Kind::Subtree,
            },
        ] + t_fields(
            s,
            reg,
            data,
            c,
            0,
            off,
            Seq::new(s.composites@[c].fields@.len(), |i: int| None::<u64>),
            depth,
            log,
            prefix,
        )
    } else {
        Seq::empty()
    }
}

/// The nodes of fields `j..` of composite `c`, up to the field where a decode error stops it.
pub open spec fn t_fields(
    s: Schema,
    reg: RegistryView,
    data: Seq<u8>,
    c: int,
    j: int,
    off: int,
    vals: Seq<Option<u64>>,
    depth: nat,
    log: Seq<Answer>,
    prefix: Seq<char>,
) -> Seq<NodeV>
    decreases depth, 4int, s.composites@[c].fields@.len() - j,
{
    if 0 <= c < s.composites@.len() && 0 <= j < s.composites@[c].fields@.len() {
        let (r, vals2, rest) = m_field(s, data, c, j, off, vals, depth, log);
        t_field(s, reg, data, c, j, off, vals, depth, log, prefix) + match r {
            Ok(e) => t_fields(s, reg, data, c, j + 1, e, vals2, depth, rest, prefix),
            Err(_) => Seq::empty(),
        }
    } else {
        Seq::empty()
    }
}

/// The nodes of field `j` of composite `c` at `off`.
pub open spec fn t_field(
    s: Schema,
    reg: RegistryView,
    data: Seq<u8>,
    c: int,
    j: int,
    off: int,
    vals: Seq<Option<u64>>,
    depth: nat,
    log: Seq<Answer>,
    prefix: Seq<char>,
) -> Seq<NodeV>
    decreases depth, 3int, 0int,
{
    let f = s.composites@[c].fields@[j];
    let path = child(prefix, f.name@);
    let remaining = data.len() - off;
    match f.ty {
        FieldType::UInt { width, order } => if off + width > data.len() {
            seq![err(path, off, DecodeError::OutOfRange)]
        } else {
            let v = uint_value(data.subrange(off, off + width), order);
            let vals2 = if plan_spec(s.composites@[c], j).emit {
                vals.update(j, Some(v as u64))
            } else {
                vals
            };
            t_strategy(s, reg, data, c, j, off, vals2, depth, log, Some(width as int), Kind::UInt(v as u64), path)
        },
        FieldType::Bytes(bl) => {
            let n = match bl {
                ByteLen::Fixed(n) => Some(n as int),
                ByteLen::Hint(h) => hint_of(vals, h),
                ByteLen::Rest => Some(remaining),
            };
            match n {
                None => seq![err(path, off, DecodeError::MissingHint)],
                Some(n) => if n > remaining {
                    seq![err(path, off, DecodeError::OutOfRange)]
                } else {
                    t_strategy(s, reg, data, c, j, off, vals, depth, log, Some(n), Kind::Bytes, path)
                },
            }
        },
        _ => t_strategy(s, reg, data, c, j, off, vals, depth, log, None, Kind::Bytes, path),
    }
}

/// A node of field `j` at `path`, with its registered identifier.
pub open spec fn field_node(reg: RegistryView, c: int, j: int, path: Seq<char>, off: int, len: int, kind: Kind) -> NodeV {
    NodeV { path, id: field_id_of(reg, c, j), start: off, len, kind }
}

/// The nodes of field `j` by its strategy; `size` and `kind` are known for integers and
/// bytes. Hidden fields add none.
pub open spec fn t_strategy(
    s: Schema,
    reg: RegistryView,
    data: Seq<u8>,
    c: int,
    j: int,
    off: int,
    vals: Seq<Option<u64>>,
    depth: nat,
    log: Seq<Answer>,
    size: Option<int>,
    kind: Kind,
    path: Seq<char>,
) -> Seq<NodeV>
    decreases depth, 2int, 0int,
{
    let f = s.composites@[c].fields@[j];
    let remaining = data.len() - off;
    match strategy_spec(f) {
        Strategy::Subdissect => match f.subdissector {
            Some(Subdissector::DecodeAs(_)) => if log.len() > 0 && log[0] is Took {
                if log[0]->Took_0 > remaining {
                    seq![err(path, off, DecodeError::BadConsumption)]
                } else {
                    seq![field_node(reg, c, j, path, off, log[0]->Took_0 as int, Kind::Delegated)]
                }
            } else {
                Seq::empty()
            },
            Some(Subdissector::Table { keys, .. }) => seq![
                field_node(reg, c, j, path, off, delegation(log, key_count(keys@, vals), remaining).0, Kind::Delegated),
            ],
            None => seq![field_node(reg, c, j, path, off, 0, Kind::Delegated)],
        },
        Strategy::ConsumeWith(_) => if log.len() > 0 && log[0] is Took {
            if log[0]->Took_0 > remaining {
                seq![err(path, off, DecodeError::BadConsumption)]
            } else {
                seq![field_node(reg, c, j, path, off, log[0]->Took_0 as int, Kind::Text)]
            }
        } else {
            Seq::empty()
        },
        Strategy::DecodeWith(_) => match size {
            Some(n) => seq![field_node(reg, c, j, path, off, n, Kind::Text)],
            None => match m_type(s, data, c, j, off, vals, depth, log).0 {
                Ok(e) => seq![field_node(reg, c, j, path, off, e - off, Kind::Text)],
                Err(_) => Seq::empty(),
            },
        },
        Strategy::Hidden => Seq::empty(),
        Strategy::Default => match size {
            Some(n) => seq![field_node(reg, c, j, path, off, n, kind)],
            None => t_type(s, reg, data, c, j, off, vals, depth, log, path),
        },
    }
}

/// The nodes of a field of composite, sequence or enum type at `off`.
pub open spec fn t_type(
    s: Schema,
    reg: RegistryView,
    data: Seq<u8>,
    c: int,
    j: int,
    off: int,
    vals: Seq<Option<u64>>,
    depth: nat,
    log: Seq<Answer>,
    path: Seq<char>,
) -> Seq<NodeV>
    decreases depth, 1int, 0int,
{
    let f = s.composites@[c].fields@[j];
    match f.ty {
        FieldType::Composite(k) => if depth == 0 {
            seq![err(path, off, DecodeError::TooDeep)]
        } else {
            t_composite(s, reg, data, k as int, off, (depth - 1) as nat, log, path)
        },
        FieldType::Sequence { elem, count } => {
            let n = match count {
                Count::Fixed(n) => Some(n as int),
                Count::Hint(h) => hint_of(vals, h),
            };
            match n {
                None => seq![err(path, off, DecodeError::MissingHint)],
                Some(n) => t_seq(s, reg, data, c, j, elem, n, 0, off, depth, log, path),
            }
        },
        FieldType::Enum(en) => if log.len() > 0 && log[0] is Named && en < s.enums@.len() {
            match log[0]->Named_0 {
                None => seq![err(path, off, DecodeError::NoVariant)],
                Some(name) => match variant_named(s, en as int, name) {
                    None => seq![err(path, off, DecodeError::UnknownVariant)],
                    Some(v) => if depth == 0 {
                        seq![err(path, off, DecodeError::TooDeep)]
                    } else {
                        t_composite(
                            s,
                            reg,
                            data,
                            s.enums@[en as int].variants@[v].composite as int,
                            off,
                            (depth - 1) as nat,
                            log.skip(1),
                            child(path, s.enums@[en as int].variants@[v].name@),
                        )
                    },
                },
            }
        } else {
            Seq::empty()
        },
        _ => Seq::empty(),
    }
}

/// The nodes of elements `e..n` of a sequence from `cur`.
pub open spec fn t_seq(
    s: Schema,
    reg: RegistryView,
    data: Seq<u8>,
    c: int,
    j: int,
    elem: Elem,
    n: int,
    e: int,
    cur: int,
    depth: nat,
    log: Seq<Answer>,
    path: Seq<char>,
) -> Seq<NodeV>
    decreases depth, 0int, n - e,
{
    if e >= n {
        Seq::empty()
    } else {
        match elem {
            Elem::UInt { width, order } => if cur + width > data.len() {
                seq![err(path, cur, DecodeError::OutOfRange)]
            } else {
                seq![
                    field_node(
                        reg,
                        c,
                        j,
                        path,
                        cur,
                        width as int,
                        Kind::UInt(uint_value(data.subrange(cur, cur + width), order) as u64),
                    ),
                ] + t_seq(s, reg, data, c, j, elem, n, e + 1, cur + width, depth, log, path)
            },
            Elem::Composite(k) => if depth == 0 {
                seq![err(path, cur, DecodeError::TooDeep)]
            } else {
                let (next, rest) = m_composite(s, data, k as int, cur, (depth - 1) as nat, log);
                t_composite(s, reg, data, k as int, cur, (depth - 1) as nat, log, path) + t_seq(
                    s,
                    reg,
                    data,
                    c,
                    j,
                    elem,
                    n,
                    e + 1,
                    next,
                    depth,
                    rest,
                    path,
                )
            },
        }
    }
}

/// The kind a field's own value gives its node.
pub open spec fn kind_of(v: crate::dispatch::TapValue) -> Kind {
    match v {
        crate::dispatch::TapValue::UInt(x) => Kind::UInt(x),
        _ => Kind::Bytes,
    }
}

pub proof fn lemma_nodes_view_concat(a: Seq<Node>, b: Seq<Node>)
    ensures
        nodes_view(a + b) == nodes_view(a) + nodes_view(b),
{
    assert(nodes_view(a + b) =~= nodes_view(a) + nodes_view(b));
}

/// The nodes after `k` in `c`, which extends `b`, which has `k` nodes or more: those of `b`
/// after `k`, then those `c` added.
pub proof fn lemma_nodes_after(b: Seq<Node>, c: Seq<Node>, k: int)
    requires
        0 <= k <= b.len() <= c.len(),
        forall|i: int| 0 <= i < b.len() ==> c[i] == b[i],
    ensures
        nodes_view(c.skip(k)) == nodes_view(b.skip(k)) + nodes_view(c.skip(b.len() as int)),
{
    assert(c.skip(k) =~= b.skip(k) + c.skip(b.len() as int));
    lemma_nodes_view_concat(b.skip(k), c.skip(b.len() as int));
}

} // verus!
