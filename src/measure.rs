//! How many bytes a walk consumes, as a function of the schema, the buffer and the host's
//! answers. Tree building plays no part in it.
use vstd::prelude::*;

use crate::plan::{plan_spec, strategy_spec, Strategy};
use crate::schema::{ByteLen, Count, Elem, FieldType, Schema, Subdissector};
use crate::dispatch::{claimed, delegations, HostCall};
use crate::store::uint_value;

verus! {

/// One answer of the host that decides how many bytes are consumed.
pub enum Answer {
    /// Bytes that a decoder or a consume function reported taking.
    Took(usize),
    /// The variant name a resolver gave, if any.
    Named(Option<Seq<char>>),
}

/// The answers among the host's calls that decide consumption, in order.
pub open spec fn answers_of(calls: Seq<HostCall>) -> Seq<Answer>
    decreases calls.len(),
{
    if calls.len() == 0 {
        Seq::empty()
    } else {
        answers_of(calls.drop_last()) + match calls.last() {
            HostCall::ConsumeWith { answer, .. } => seq![Answer::Took(answer)],
            HostCall::Delegate { answer, .. } => seq![Answer::Took(answer)],
            HostCall::DecodeAs { answer, .. } => seq![Answer::Took(answer)],
            HostCall::Resolve { answer, .. } => seq![Answer::Named(answer)],
            _ => Seq::empty(),
        }
    }
}

pub proof fn lemma_answers_of_concat(a: Seq<HostCall>, b: Seq<HostCall>)
    ensures
        answers_of(a + b) == answers_of(a) + answers_of(b),
    decreases b.len(),
{
    if b.len() == 0 {
        assert(a + b =~= a);
        assert(answers_of(b) =~= Seq::<Answer>::empty());
        assert(answers_of(a) + answers_of(b) =~= answers_of(a));
    } else {
        lemma_answers_of_concat(a, b.drop_last());
        assert((a + b).drop_last() =~= a + b.drop_last());
        assert((a + b).last() == b.last());
        let t = match b.last() {
            HostCall::ConsumeWith { answer, .. } => seq![Answer::Took(answer)],
            HostCall::Delegate { answer, .. } => seq![Answer::Took(answer)],
            HostCall::DecodeAs { answer, .. } => seq![Answer::Took(answer)],
            HostCall::Resolve { answer, .. } => seq![Answer::Named(answer)],
            _ => Seq::<Answer>::empty(),
        };
        assert(answers_of(a) + answers_of(b.drop_last()) + t =~= answers_of(a) + (answers_of(
            b.drop_last(),
        ) + t));
    }
}

/// The delegate calls of a delegation stand in the answers as their byte counts.
pub proof fn lemma_answers_of_delegations(table: Seq<char>, keys: Seq<u64>, rest: Seq<u8>, answers: Seq<usize>)
    ensures
        answers_of(delegations(table, keys, rest, answers)) == tooks(answers),
    decreases answers.len(),
{
    let d = delegations(table, keys, rest, answers);
    if answers.len() > 0 {
        lemma_answers_of_delegations(table, keys, rest, answers.drop_last());
        assert(d.drop_last() =~= delegations(table, keys, rest, answers.drop_last()));
        assert(tooks(answers) =~= tooks(answers.drop_last()) + seq![Answer::Took(answers.last())]);
    } else {
        assert(tooks(answers) =~= Seq::<Answer>::empty());
    }
}

/// The index of the first variant of enum `en` named `name`.
pub open spec fn variant_named(s: Schema, en: int, name: Seq<char>) -> Option<int> {
    let vs = s.enums@[en].variants@;
    if exists|v: int| 0 <= v < vs.len() && vs[v].name@ == name {
        Some(
            choose|v: int|
                0 <= v < vs.len() && vs[v].name@ == name && forall|u: int|
                    0 <= u < v ==> vs[u].name@ != name,
        )
    } else {
        None
    }
}

/// The usable value of an emitted integer field, as a size.
pub open spec fn hint_of(vals: Seq<Option<u64>>, h: usize) -> Option<int> {
    if h < vals.len() && vals[h as int] is Some && vals[h as int]->0 <= usize::MAX {
        Some(vals[h as int]->0 as int)
    } else {
        None
    }
}

/// How many of `keys` name an emitted value.
pub open spec fn key_count(keys: Seq<usize>, vals: Seq<Option<u64>>) -> nat
    decreases keys.len(),
{
    if keys.len() == 0 {
        0
    } else {
        key_count(keys.drop_last(), vals) + if keys.last() < vals.len() && vals[keys.last() as int] is Some {
            1nat
        } else {
            0nat
        }
    }
}

/// Reads up to `count` delegate answers, stopping after the first that took bytes; returns
/// what is accounted for (the whole of `remaining` when none took any) and the answers left.
pub open spec fn delegation(log: Seq<Answer>, count: nat, remaining: int) -> (int, Seq<Answer>)
    decreases count,
{
    if count == 0 || log.len() == 0 {
        (remaining, log)
    } else {
        match log[0] {
            Answer::Took(a) => if a != 0 {
                (if a <= remaining {
                    a as int
                } else {
                    remaining
                }, log.skip(1))
            } else {
                delegation(log.skip(1), (count - 1) as nat, remaining)
            },
            Answer::Named(_) => (remaining, log),
        }
    }
}

/// A single `Took` answer at the front of the log: the offset after a field that took that
/// many bytes, staying put where it claimed more than remain.
pub open spec fn took(log: Seq<Answer>, off: int, remaining: int) -> (Result<int, int>, Seq<Answer>) {
    if log.len() > 0 && log[0] is Took {
        let n = log[0]->Took_0;
        if n > remaining {
            (Ok(off), log.skip(1))
        } else {
            (Ok(off + n), log.skip(1))
        }
    } else {
        (Ok(off), log)
    }
}

/// The offset after composite `c` of `s` walked from `off`, and the answers left.
pub open spec fn m_composite(
    s: Schema,
    data: Seq<u8>,
    c: int,
    off: int,
    depth: nat,
    log: Seq<Answer>,
) -> (int, Seq<Answer>)
    decreases depth, 5int, 0int,
{
    if 0 <= c < s.composites@.len() {
        m_fields(
            s,
            data,
            c,
            0,
            off,
            Seq::new(s.composites@[c].fields@.len(), |i: int| None::<u64>),
            depth,
            log,
        )
    } else {
        (off, log)
    }
}

/// The offset after fields `j..` of composite `c`; a field that stops with a decode error
/// ends the composite where it stopped.
pub open spec fn m_fields(
    s: Schema,
    data: Seq<u8>,
    c: int,
    j: int,
    off: int,
    vals: Seq<Option<u64>>,
    depth: nat,
    log: Seq<Answer>,
) -> (int, Seq<Answer>)
    decreases depth, 4int, s.composites@[c].fields@.len() - j,
{
    if 0 <= c < s.composites@.len() && 0 <= j < s.composites@[c].fields@.len() {
        let (r, vals2, rest) = m_field(s, data, c, j, off, vals, depth, log);
        match r {
            Ok(e) => m_fields(s, data, c, j + 1, e, vals2, depth, rest),
            Err(e) => (e, rest),
        }
    } else {
        (off, log)
    }
}

/// Field `j` of composite `c` at `off`: where it ends (`Err` where a decode error stops the
/// composite), the emitted values after it, and the answers left.
pub open spec fn m_field(
    s: Schema,
    data: Seq<u8>,
    c: int,
    j: int,
    off: int,
    vals: Seq<Option<u64>>,
    depth: nat,
    log: Seq<Answer>,
) -> (Result<int, int>, Seq<Option<u64>>, Seq<Answer>)
    decreases depth, 3int, 0int,
{
    let f = s.composites@[c].fields@[j];
    let remaining = data.len() - off;
    match f.ty {
        FieldType::UInt { width, order } => if off + width > data.len() {
            (Err(off), vals, log)
        } else {
            let v = uint_value(data.subrange(off, off + width), order);
            let vals2 = if plan_spec(s.composites@[c], j).emit {
                vals.update(j, Some(v as u64))
            } else {
                vals
            };
            m_strategy(s, data, c, j, off, vals2, depth, log, Some(width as int))
        },
        FieldType::Bytes(bl) => {
            let n = match bl {
                ByteLen::Fixed(n) => Some(n as int),
                ByteLen::Hint(h) => hint_of(vals, h),
                ByteLen::Rest => Some(remaining),
            };
            match n {
                None => (Err(off), vals, log),
                Some(n) => if n > remaining {
                    (Err(off), vals, log)
                } else {
                    m_strategy(s, data, c, j, off, vals, depth, log, Some(n))
                },
            }
        },
        _ => m_strategy(s, data, c, j, off, vals, depth, log, None),
    }
}

/// Field `j` decoded by its strategy, once its own value has been read; `size` is known for
/// integers and bytes.
pub open spec fn m_strategy(
    s: Schema,
    data: Seq<u8>,
    c: int,
    j: int,
    off: int,
    vals: Seq<Option<u64>>,
    depth: nat,
    log: Seq<Answer>,
    size: Option<int>,
) -> (Result<int, int>, Seq<Option<u64>>, Seq<Answer>)
    decreases depth, 2int, 0int,
{
    let f = s.composites@[c].fields@[j];
    let remaining = data.len() - off;
    match strategy_spec(f) {
        Strategy::Subdissect => match f.subdissector {
            Some(Subdissector::DecodeAs(_)) => {
                let (r, rest) = took(log, off, remaining);
                (r, vals, rest)
            },
            Some(Subdissector::Table { keys, .. }) => {
                let (n, rest) = delegation(log, key_count(keys@, vals), remaining);
                (Ok(off + n), vals, rest)
            },
            None => (Ok(off), vals, log),
        },
        Strategy::ConsumeWith(_) => {
            let (r, rest) = took(log, off, remaining);
            (r, vals, rest)
        },
        _ => match size {
            Some(n) => (Ok(off + n), vals, log),
            None => {
                let (r, rest) = m_type(s, data, c, j, off, vals, depth, log);
                (r, vals, rest)
            },
        },
    }
}

/// A field of composite, sequence or enum type at `off`.
pub open spec fn m_type(
    s: Schema,
    data: Seq<u8>,
    c: int,
    j: int,
    off: int,
    vals: Seq<Option<u64>>,
    depth: nat,
    log: Seq<Answer>,
) -> (Result<int, int>, Seq<Answer>)
    decreases depth, 1int, 0int,
{
    let f = s.composites@[c].fields@[j];
    match f.ty {
        FieldType::Composite(k) => if depth == 0 {
            (Err(off), log)
        } else {
            let (e, rest) = m_composite(s, data, k as int, off, (depth - 1) as nat, log);
            (Ok(e), rest)
        },
        FieldType::Sequence { elem, count } => {
            let n = match count {
                Count::Fixed(n) => Some(n as int),
                Count::Hint(h) => hint_of(vals, h),
            };
            match n {
                None => (Err(off), log),
                Some(n) => m_seq(s, data, elem, n, 0, off, depth, log),
            }
        },
        FieldType::Enum(en) => if log.len() > 0 && log[0] is Named && en < s.enums@.len() {
            match log[0]->Named_0 {
                None => (Err(off), log.skip(1)),
                Some(name) => match variant_named(s, en as int, name) {
                    None => (Err(off), log.skip(1)),
                    Some(v) => if depth == 0 {
                        (Err(off), log.skip(1))
                    } else {
                        let (e, rest) = m_composite(
                            s,
                            data,
                            s.enums@[en as int].variants@[v].composite as int,
                            off,
                            (depth - 1) as nat,
                            log.skip(1),
                        );
                        (Ok(e), rest)
                    },
                },
            }
        } else {
            (Err(off), log)
        },
        _ => (Ok(off), log),
    }
}

/// Elements `e..n` of a sequence from `cur`.
pub open spec fn m_seq(
    s: Schema,
    data: Seq<u8>,
    elem: Elem,
    n: int,
    e: int,
    cur: int,
    depth: nat,
    log: Seq<Answer>,
) -> (Result<int, int>, Seq<Answer>)
    decreases depth, 0int, n - e,
{
    if e >= n {
        (Ok(cur), log)
    } else {
        match elem {
            Elem::UInt { width, .. } => if cur + width > data.len() {
                (Err(cur), log)
            } else {
                m_seq(s, data, elem, n, e + 1, cur + width, depth, log)
            },
            Elem::Composite(k) => if depth == 0 {
                (Err(cur), log)
            } else {
                let (next, rest) = m_composite(s, data, k as int, cur, (depth - 1) as nat, log);
                m_seq(s, data, elem, n, e + 1, next, depth, rest)
            },
        }
    }
}

/// Delegate answers as they stand in the log.
pub open spec fn tooks(answers: Seq<usize>) -> Seq<Answer> {
    answers.map_values(|a: usize| Answer::Took(a))
}

/// The answers of one delegation, read back from the log, account for what delegation
/// accounted for.
pub proof fn lemma_delegation(answers: Seq<usize>, count: nat, remaining: usize, tail: Seq<Answer>)
    requires
        answers.len() <= count,
        forall|i: int| 0 <= i < answers.len() - 1 ==> answers[i] == 0,
        answers.len() < count ==> answers.len() > 0 && answers.last() != 0,
    ensures
        delegation(tooks(answers) + tail, count, remaining as int) == (
            claimed(answers, remaining) as int,
            tail,
        ),
    decreases answers.len(),
{
    let log = tooks(answers) + tail;
    if answers.len() > 0 {
        assert(log[0] == Answer::Took(answers[0]));
        if answers[0] == 0 {
            let rest = answers.skip(1);
            assert(log.skip(1) =~= tooks(rest) + tail);
            assert forall|i: int| 0 <= i < rest.len() - 1 implies rest[i] == 0 by {
                assert(rest[i] == answers[i + 1]);
            }
            if rest.len() > 0 {
                assert(rest.last() == answers.last());
            }
            lemma_delegation(rest, (count - 1) as nat, remaining, tail);
        } else {
            assert(answers.len() == 1);
            assert(log.skip(1) =~= tail);
        }
    } else {
        assert(log =~= tail);
    }
}

} // verus!
