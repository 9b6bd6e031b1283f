//! The calls a walk makes to the host, as a function of the schema, the buffer, the mode, the
//! host's answers and the packet store it starts with. Answers are left out of the calls
//! here: they are what the host gives back.
use vstd::prelude::*;

use crate::dispatch::{HostCall, TapValue};
use crate::dissect::{saved_after, Mode};
use crate::measure::{hint_of, m_composite, m_field, Answer, variant_named};
use crate::plan::{plan_spec, strategy_spec, Strategy};
use crate::schema::{ByteLen, Count, Elem, FieldType, Schema, Subdissector};
use crate::store::{uint_value, Saved};
use crate::tree::child;

verus! {

/// A call to the host without its answer.
pub enum CallShape {
    Tap {
        tap: usize,
        value: TapValue,
        offset: usize,
        fields: Seq<(Seq<char>, Saved)>,
        local: Seq<(Seq<char>, Saved)>,
    },
    DecodeWith { func: usize, value: TapValue, offset: usize },
    ConsumeWith { func: usize, offset: usize },
    Resolve { resolver: usize, local: Seq<(Seq<char>, Saved)> },
    Delegate { table: Seq<char>, key: u64, rest: Seq<u8> },
    DecodeAs { table: Seq<char>, rest: Seq<u8> },
}

pub open spec fn shape(c: HostCall) -> CallShape {
    match c {
        HostCall::Tap { tap, value, offset, fields, local } => CallShape::Tap {
            tap,
            value,
            offset,
            fields,
            local,
        },
        HostCall::DecodeWith { func, value, offset, .. } => CallShape::DecodeWith { func, value, offset },
        HostCall::ConsumeWith { func, offset, .. } => CallShape::ConsumeWith { func, offset },
        HostCall::Resolve { resolver, local, .. } => CallShape::Resolve { resolver, local },
        HostCall::Delegate { table, key, rest, .. } => CallShape::Delegate { table, key, rest },
        HostCall::DecodeAs { table, rest, .. } => CallShape::DecodeAs { table, rest },
    }
}

pub open spec fn shapes(cs: Seq<HostCall>) -> Seq<CallShape> {
    cs.map_values(|c: HostCall| shape(c))
}

/// The taps called in order, each once, on one value with the given stores.
pub open spec fn tap_shapes(
    taps: Seq<usize>,
    value: TapValue,
    offset: int,
    fields: Seq<(Seq<char>, Saved)>,
    local: Seq<(Seq<char>, Saved)>,
) -> Seq<CallShape> {
    Seq::new(
        taps.len(),
        |i: int| CallShape::Tap { tap: taps[i], value, offset: offset as usize, fields, local },
    )
}

/// The values of the key fields that have one, in the order the keys are given.
pub open spec fn key_values(keys: Seq<usize>, vals: Seq<Option<u64>>) -> Seq<u64>
    decreases keys.len(),
{
    if keys.len() == 0 {
        Seq::empty()
    } else {
        key_values(keys.drop_last(), vals) + if keys.last() < vals.len() && vals[keys.last() as int] is Some {
            seq![vals[keys.last() as int]->0]
        } else {
            Seq::<u64>::empty()
        }
    }
}

/// The delegate calls: each key value in order, with the whole rest of the buffer, until one
/// delegate takes bytes.
pub open spec fn delegate_shapes(table: Seq<char>, kv: Seq<u64>, rest: Seq<u8>, log: Seq<Answer>) -> Seq<
    CallShape,
>
    decreases kv.len(),
{
    if kv.len() == 0 || log.len() == 0 {
        Seq::empty()
    } else {
        match log[0] {
            Answer::Took(a) => seq![CallShape::Delegate { table, key: kv[0], rest }] + if a != 0 {
                Seq::<CallShape>::empty()
            } else {
                delegate_shapes(table, kv.skip(1), rest, log.skip(1))
            },
            Answer::Named(_) => Seq::empty(),
        }
    }
}

/// The calls made walking composite `c` from `off`, and the packet store after it:
/// pre-dissect hooks with an empty local store, the fields, then post-dissect hooks with the
/// local store holding every saved field. Hooks and taps run when building the tree only.
pub open spec fn h_composite(
    s: Schema,
    data: Seq<u8>,
    c: int,
    off: int,
    depth: nat,
    mode: Mode,
    log: Seq<Answer>,
    pkt: Seq<(Seq<char>, Saved)>,
    prefix: Seq<char>,
) -> (Seq<CallShape>, Seq<(Seq<char>, Saved)>)
    decreases depth, 5int, 0int,
{
    if 0 <= c < s.composites@.len() {
        let comp = s.composites@[c];
        let empty = Seq::<(Seq<char>, Saved)>::empty();
        let pre = if mode == Mode::Tree {
            tap_shapes(comp.pre_dissect@, TapValue::Unit, off, pkt, empty)
        } else {
            Seq::empty()
        };
        let (fs, pkt2, local2) = h_fields(
            s,
            data,
            c,
            0,
            off,
            Seq::new(comp.fields@.len(), |i: int| None::<u64>),
            empty,
            depth,
            mode,
            log,
            pkt,
            prefix,
        );
        let end = m_composite(s, data, c, off, depth, log).0;
        let post = if mode == Mode::Tree {
            tap_shapes(comp.post_dissect@, TapValue::Unit, end, pkt2, local2)
        } else {
            Seq::empty()
        };
        (pre + fs + post, pkt2)
    } else {
        (Seq::empty(), pkt)
    }
}

/// The calls made walking fields `j..`, with the packet and local stores after them.
pub open spec fn h_fields(
    s: Schema,
    data: Seq<u8>,
    c: int,
    j: int,
    off: int,
    vals: Seq<Option<u64>>,
    local: Seq<(Seq<char>, Saved)>,
    depth: nat,
    mode: Mode,
    log: Seq<Answer>,
    pkt: Seq<(Seq<char>, Saved)>,
    prefix: Seq<char>,
) -> (Seq<CallShape>, Seq<(Seq<char>, Saved)>, Seq<(Seq<char>, Saved)>)
    decreases depth, 4int, s.composites@[c].fields@.len() - j,
{
    if 0 <= c < s.composites@.len() && 0 <= j < s.composites@[c].fields@.len() {
        let (r, vals2, rest) = m_field(s, data, c, j, off, vals, depth, log);
        let (fc, pkt2) = h_field(s, data, c, j, off, vals, local, depth, mode, log, pkt, prefix);
        let local2 = saved_after(s.composites@[c].fields@[j], data, off, local);
        match r {
            Ok(e) => {
                let (more, pkt3, local3) = h_fields(s, data, c, j + 1, e, vals2, local2, depth, mode, rest, pkt2, prefix);
                (fc + more, pkt3, local3)
            },
            Err(_) => (fc, pkt2, local2),
        }
    } else {
        (Seq::empty(), pkt, local)
    }
}

/// The calls made for field `j` at `off`: its value is read and saved first, then its taps
/// run in order with that value and both stores, then its strategy.
pub open spec fn h_field(
    s: Schema,
    data: Seq<u8>,
    c: int,
    j: int,
    off: int,
    vals: Seq<Option<u64>>,
    local: Seq<(Seq<char>, Saved)>,
    depth: nat,
    mode: Mode,
    log: Seq<Answer>,
    pkt: Seq<(Seq<char>, Saved)>,
    prefix: Seq<char>,
) -> (Seq<CallShape>, Seq<(Seq<char>, Saved)>)
    decreases depth, 3int, 0int,
{
    let f = s.composites@[c].fields@[j];
    let path = child(prefix, f.name@);
    let remaining = data.len() - off;
    match f.ty {
        FieldType::UInt { width, order } => if off + width > data.len() {
            (Seq::empty(), pkt)
        } else {
            let v = uint_value(data.subrange(off, off + width), order) as u64;
            let vals2 = if plan_spec(s.composites@[c], j).emit {
                vals.update(j, Some(v))
            } else {
                vals
            };
            let local2 = if f.save {
                local.push((f.name@, Saved { value: v, width }))
            } else {
                local
            };
            let pkt2 = if f.save {
                pkt.push((path, Saved { value: v, width }))
            } else {
                pkt
            };
            let (sc, pkt3) = h_strategy(s, data, c, j, off, vals2, local2, depth, mode, log, pkt2, path, Some(width as int), TapValue::UInt(v));
            (mode_taps(mode, f.taps@, TapValue::UInt(v), off, pkt2, local2) + sc, pkt3)
        },
        FieldType::Bytes(bl) => {
            let n = match bl {
                ByteLen::Fixed(n) => Some(n as int),
                ByteLen::Hint(h) => hint_of(vals, h),
                ByteLen::Rest => Some(remaining),
            };
            match n {
                None => (Seq::empty(), pkt),
                Some(n) => if n > remaining {
                    (Seq::empty(), pkt)
                } else {
                    let value = TapValue::Bytes { start: off as usize, len: n as usize };
                    let (sc, pkt3) = h_strategy(s, data, c, j, off, vals, local, depth, mode, log, pkt, path, Some(n), value);
                    (mode_taps(mode, f.taps@, value, off, pkt, local) + sc, pkt3)
                },
            }
        },
        _ => {
            let (sc, pkt3) = h_strategy(s, data, c, j, off, vals, local, depth, mode, log, pkt, path, None, TapValue::Unit);
            (mode_taps(mode, f.taps@, TapValue::Unit, off, pkt, local) + sc, pkt3)
        },
    }
}

/// The calls made by field `j`'s strategy: the rest of the buffer offered to the chosen
/// decoder or to each key's delegate in turn, one consume or format call, or those of its
/// type's walk.
pub open spec fn h_strategy(
    s: Schema,
    data: Seq<u8>,
    c: int,
    j: int,
    off: int,
    vals: Seq<Option<u64>>,
    local: Seq<(Seq<char>, Saved)>,
    depth: nat,
    mode: Mode,
    log: Seq<Answer>,
    pkt: Seq<(Seq<char>, Saved)>,
    path: Seq<char>,
    size: Option<int>,
    value: TapValue,
) -> (Seq<CallShape>, Seq<(Seq<char>, Saved)>)
    decreases depth, 2int, 0int,
{
    let f = s.composites@[c].fields@[j];
    let rest = data.subrange(off, data.len() as int);
    match strategy_spec(f) {
        Strategy::Subdissect => match f.subdissector {
            Some(Subdissector::DecodeAs(t)) => (seq![CallShape::DecodeAs { table: t@, rest }], pkt),
            Some(Subdissector::Table { table, keys }) => (
                delegate_shapes(table@, key_values(keys@, vals), rest, log),
                pkt,
            ),
            None => (Seq::empty(), pkt),
        },
        Strategy::ConsumeWith(g) => (seq![CallShape::ConsumeWith { func: g, offset: off as usize }], pkt),
        Strategy::DecodeWith(g) => {
            let call = seq![CallShape::DecodeWith { func: g, value, offset: off as usize }];
            match size {
                Some(_) => (call, pkt),
                None => {
                    let (tc, pkt2) = h_type(s, data, c, j, off, vals, local, depth, Mode::SizeOnly, log, pkt, path);
                    (call + tc, pkt2)
                },
            }
        },
        Strategy::Hidden => match size {
            Some(_) => (Seq::empty(), pkt),
            None => h_type(s, data, c, j, off, vals, local, depth, Mode::SizeOnly, log, pkt, path),
        },
        Strategy::Default => match size {
            Some(_) => (Seq::empty(), pkt),
            None => h_type(s, data, c, j, off, vals, local, depth, mode, log, pkt, path),
        },
    }
}

/// The calls made walking a field of composite, sequence or enum type. An enum field first
/// hands its resolver the composite's local store.
pub open spec fn h_type(
    s: Schema,
    data: Seq<u8>,
    c: int,
    j: int,
    off: int,
    vals: Seq<Option<u64>>,
    local: Seq<(Seq<char>, Saved)>,
    depth: nat,
    mode: Mode,
    log: Seq<Answer>,
    pkt: Seq<(Seq<char>, Saved)>,
    path: Seq<char>,
) -> (Seq<CallShape>, Seq<(Seq<char>, Saved)>)
    decreases depth, 1int, 0int,
{
    let f = s.composites@[c].fields@[j];
    match f.ty {
        FieldType::Composite(k) => if depth == 0 {
            (Seq::empty(), pkt)
        } else {
            h_composite(s, data, k as int, off, (depth - 1) as nat, mode, log, pkt, path)
        },
        FieldType::Sequence { elem, count } => {
            let n = match count {
                Count::Fixed(n) => Some(n as int),
                Count::Hint(h) => hint_of(vals, h),
            };
            match n {
                None => (Seq::empty(), pkt),
                Some(n) => h_seq(s, data, elem, n, 0, off, depth, mode, log, pkt, path),
            }
        },
        FieldType::Enum(en) => {
            let call = seq![
                CallShape::Resolve {
                    resolver: match f.get_variant {
                        Some(r) => r,
                        None => 0,
                    },
                    local,
                },
            ];
            if log.len() > 0 && log[0] is Named && en < s.enums@.len() && log[0]->Named_0 is Some
                && depth > 0 {
                match variant_named(s, en as int, log[0]->Named_0->0) {
                    Some(v) => {
                        let (vc, pkt2) = h_composite(
                            s,
                            data,
                            s.enums@[en as int].variants@[v].composite as int,
                            off,
                            (depth - 1) as nat,
                            mode,
                            log.skip(1),
                            pkt,
                            child(path, s.enums@[en as int].variants@[v].name@),
                        );
                        (call + vc, pkt2)
                    },
                    None => (call, pkt),
                }
            } else {
                (call, pkt)
            }
        },
        _ => (Seq::empty(), pkt),
    }
}

/// The calls made walking elements `e..n` of a sequence from `cur`.
pub open spec fn h_seq(
    s: Schema,
    data: Seq<u8>,
    elem: Elem,
    n: int,
    e: int,
    cur: int,
    depth: nat,
    mode: Mode,
    log: Seq<Answer>,
    pkt: Seq<(Seq<char>, Saved)>,
    path: Seq<char>,
) -> (Seq<CallShape>, Seq<(Seq<char>, Saved)>)
    decreases depth, 0int, n - e,
{
    if e >= n {
        (Seq::empty(), pkt)
    } else {
        match elem {
            Elem::UInt { width, .. } => if cur + width > data.len() {
                (Seq::empty(), pkt)
            } else {
                h_seq(s, data, elem, n, e + 1, cur + width, depth, mode, log, pkt, path)
            },
            Elem::Composite(k) => if depth == 0 {
                (Seq::empty(), pkt)
            } else {
                let (next, rest) = m_composite(s, data, k as int, cur, (depth - 1) as nat, log);
                let (cs, pkt2) = h_composite(s, data, k as int, cur, (depth - 1) as nat, mode, log, pkt, path);
                let (cs2, pkt3) = h_seq(s, data, elem, n, e + 1, next, depth, mode, rest, pkt2, path);
                (cs + cs2, pkt3)
            },
        }
    }
}

/// A field's taps, when building the tree.
pub open spec fn mode_taps(
    mode: Mode,
    taps: Seq<usize>,
    value: TapValue,
    off: int,
    pkt: Seq<(Seq<char>, Saved)>,
    local: Seq<(Seq<char>, Saved)>,
) -> Seq<CallShape> {
    if mode == Mode::Tree {
        tap_shapes(taps, value, off, pkt, local)
    } else {
        Seq::empty()
    }
}

/// One delegation's calls, in the host's record, have the shapes the model gives them.
pub proof fn lemma_delegate_shapes(
    table: Seq<char>,
    kv: Seq<u64>,
    rest: Seq<u8>,
    answers: Seq<usize>,
    tail: Seq<Answer>,
)
    requires
        answers.len() <= kv.len(),
        forall|i: int| 0 <= i < answers.len() - 1 ==> answers[i] == 0,
        answers.len() < kv.len() ==> answers.len() > 0 && answers.last() != 0,
    ensures
        shapes(crate::dispatch::delegations(table, kv, rest, answers)) == delegate_shapes(
            table,
            kv,
            rest,
            crate::measure::tooks(answers) + tail,
        ),
    decreases answers.len(),
{
    let d = crate::dispatch::delegations(table, kv, rest, answers);
    let log = crate::measure::tooks(answers) + tail;
    if answers.len() == 0 {
        assert(shapes(d) =~= Seq::<CallShape>::empty());
        assert(kv.len() == 0);
    } else {
        assert(log[0] == Answer::Took(answers[0]));
        assert(kv.len() > 0);
        if answers[0] == 0 {
            let a2 = answers.skip(1);
            assert forall|i: int| 0 <= i < a2.len() - 1 implies a2[i] == 0 by {
                assert(a2[i] == answers[i + 1]);
            }
            if a2.len() > 0 {
                assert(a2.last() == answers.last());
            }
            lemma_delegate_shapes(table, kv.skip(1), rest, a2, tail);
            assert(log.skip(1) =~= crate::measure::tooks(a2) + tail);
            assert(shapes(d) =~= seq![CallShape::Delegate { table, key: kv[0], rest }] + shapes(
                crate::dispatch::delegations(table, kv.skip(1), rest, a2),
            ));
        } else {
            assert(answers.len() == 1);
            assert(shapes(d) =~= seq![CallShape::Delegate { table, key: kv[0], rest }]);
            assert(seq![CallShape::Delegate { table, key: kv[0], rest }] + Seq::<CallShape>::empty()
                =~= seq![CallShape::Delegate { table, key: kv[0], rest }]);
        }
    }
}

} // verus!
