//! A host whose answers come from tables: delegates by table and key, decoders selected per
//! table, consume and format functions by number, and resolvers that map a saved field's
//! value to a variant name. It records every call it receives.
use vstd::prelude::*;

use crate::dispatch::{Host, HostCall, TapValue};
use crate::store::FieldStore;
use crate::text::str_eq;

verus! {

/// Names a variant from the value saved under `field` in the composite's store.
#[derive(Debug)]
pub struct Resolver {
    pub field: String,
    /// Values and the variant each names.
    pub arms: Vec<(u64, String)>,
    /// The variant for any other value; `None` names none.
    pub otherwise: Option<String>,
}

/// A call as the table host saw it, for inspection after a walk.
#[derive(Debug, Clone, PartialEq, Eq)]
pub enum Seen {
    Tap { tap: usize, value: TapValue, offset: usize },
    Format { func: usize, offset: usize },
    Consume { func: usize, offset: usize },
    Resolve { resolver: usize, value: Option<u64> },
    Delegate { table: String, key: u64, len: usize },
    DecodeAs { table: String, len: usize },
}

/// A host that answers from tables.
pub struct TableHost {
    /// Delegates: table, key, and the bytes each takes.
    pub delegates: Vec<(String, u64, usize)>,
    /// Decoders selected per table, and the bytes each takes.
    pub selected: Vec<(String, usize)>,
    /// Consume functions: number, bytes taken, and text.
    pub consumers: Vec<(usize, usize, String)>,
    /// Format functions: number and text.
    pub formats: Vec<(usize, String)>,
    /// Resolvers, by number.
    pub resolvers: Vec<Resolver>,
    /// The calls received, in order.
    pub seen: Vec<Seen>,
    calls: Ghost<Seq<HostCall>>,
}

impl TableHost {
    /// A host with empty tables: every delegate declines and nothing is consumed.
    pub fn new() -> (r: TableHost)
        ensures
            r.calls() == Seq::<HostCall>::empty(),
    {
        TableHost {
            delegates: Vec::new(),
            selected: Vec::new(),
            consumers: Vec::new(),
            formats: Vec::new(),
            resolvers: Vec::new(),
            seen: Vec::new(),
            calls: Ghost(Seq::empty()),
        }
    }

    /// The bytes the first delegate registered in `table` under `key` takes; 0 where none is.
    fn delegate_answer(&self, table: &str, key: u64) -> (r: usize)
        ensures
            (exists|i: int|
                0 <= i < self.delegates@.len() && #[trigger] self.delegates@[i].0@ == table@
                    && self.delegates@[i].1 == key && r == self.delegates@[i].2 && forall|k: int|
                    0 <= k < i ==> !(self.delegates@[k].0@ == table@ && self.delegates@[k].1 == key))
                || (r == 0 && forall|i: int|
                0 <= i < self.delegates@.len() ==> !(#[trigger] self.delegates@[i].0@ == table@
                    && self.delegates@[i].1 == key)),
    {
        let mut i: usize = 0;
        while i < self.delegates.len()
            invariant
                i <= self.delegates@.len(),
                forall|k: int| 0 <= k < i ==> !(#[trigger] self.delegates@[k].0@ == table@ && self.delegates@[k].1 == key),
            decreases self.delegates@.len() - i,
        {
            if self.delegates[i].1 == key && str_eq(self.delegates[i].0.as_str(), table) {
                return self.delegates[i].2;
            }
            i = i + 1;
        }
        0
    }

    /// The bytes the decoder selected first for `table` takes; 0 where none is.
    fn selected_answer(&self, table: &str) -> (r: usize)
        ensures
            (exists|i: int|
                0 <= i < self.selected@.len() && #[trigger] self.selected@[i].0@ == table@ && r
                    == self.selected@[i].1 && forall|k: int| 0 <= k < i ==> self.selected@[k].0@ != table@)
                || (r == 0 && forall|i: int| 0 <= i < self.selected@.len() ==> #[trigger] self.selected@[i].0@ != table@),
    {
        let mut i: usize = 0;
        while i < self.selected.len()
            invariant
                i <= self.selected@.len(),
                forall|k: int| 0 <= k < i ==> #[trigger] self.selected@[k].0@ != table@,
            decreases self.selected@.len() - i,
        {
            if str_eq(self.selected[i].0.as_str(), table) {
                return self.selected[i].1;
            }
            i = i + 1;
        }
        0
    }

    /// The bytes and text of the first consume function numbered `func`; nothing where none is.
    fn consumer_answer(&self, func: usize) -> (r: (usize, String))
        ensures
            (exists|i: int|
                0 <= i < self.consumers@.len() && #[trigger] self.consumers@[i].0 == func && r.0
                    == self.consumers@[i].1 && r.1@ == self.consumers@[i].2@ && forall|k: int|
                    0 <= k < i ==> self.consumers@[k].0 != func) || (r.0 == 0 && r.1@.len() == 0
                && forall|i: int| 0 <= i < self.consumers@.len() ==> #[trigger] self.consumers@[i].0 != func),
    {
        let mut i: usize = 0;
        while i < self.consumers.len()
            invariant
                i <= self.consumers@.len(),
                forall|k: int| 0 <= k < i ==> #[trigger] self.consumers@[k].0 != func,
            decreases self.consumers@.len() - i,
        {
            if self.consumers[i].0 == func {
                return (self.consumers[i].1, self.consumers[i].2.clone());
            }
            i = i + 1;
        }
        (0, String::new())
    }

    /// The text of the first format function numbered `func`; empty where none is.
    fn format_answer(&self, func: usize) -> (r: String)
        ensures
            (exists|i: int|
                0 <= i < self.formats@.len() && #[trigger] self.formats@[i].0 == func && r@
                    == self.formats@[i].1@ && forall|k: int| 0 <= k < i ==> self.formats@[k].0 != func)
                || (r@.len() == 0 && forall|i: int| 0 <= i < self.formats@.len() ==> #[trigger] self.formats@[i].0 != func),
    {
        let mut i: usize = 0;
        while i < self.formats.len()
            invariant
                i <= self.formats@.len(),
                forall|k: int| 0 <= k < i ==> #[trigger] self.formats@[k].0 != func,
            decreases self.formats@.len() - i,
        {
            if self.formats[i].0 == func {
                return self.formats[i].1.clone();
            }
            i = i + 1;
        }
        String::new()
    }

    /// The value saved under the resolver's field, and the variant its arms, or else its
    /// default, name for that value.
    fn resolver_answer(&self, resolver: usize, local: &FieldStore) -> (r: (Option<u64>, Option<String>))
        ensures
            resolver >= self.resolvers@.len() ==> r.0 is None && r.1 is None,
            resolver < self.resolvers@.len() ==> r.0 == match local.get_spec(self.resolvers@[resolver as int].field@) {
                Some(sv) => Some(sv.value),
                None => None::<u64>,
            },
            r.0 is None ==> r.1 is None,
            resolver < self.resolvers@.len() && r.0 is Some ==> {
                let rs = self.resolvers@[resolver as int];
                let v = r.0->0;
                (exists|i: int|
                    0 <= i < rs.arms@.len() && #[trigger] rs.arms@[i].0 == v && r.1 is Some && r.1->0@
                        == rs.arms@[i].1@ && forall|k: int| 0 <= k < i ==> rs.arms@[k].0 != v) || ((forall|i: int|
                    0 <= i < rs.arms@.len() ==> #[trigger] rs.arms@[i].0 != v) && match rs.otherwise {
                    Some(d) => r.1 is Some && r.1->0@ == d@,
                    None => r.1 is None,
                })
            },
    {
        if resolver >= self.resolvers.len() {
            return (None, None);
        }
        let r = &self.resolvers[resolver];
        let value = match local.get(r.field.as_str()) {
            Some(saved) => saved.value,
            None => {
                return (None, None);
            },
        };
        let mut i: usize = 0;
        while i < r.arms.len()
            invariant
                i <= r.arms@.len(),
                resolver < self.resolvers@.len(),
                *r == self.resolvers@[resolver as int],
                local.get_spec(r.field@) is Some,
                local.get_spec(r.field@)->0.value == value,
                forall|k: int| 0 <= k < i ==> #[trigger] r.arms@[k].0 != value,
            decreases r.arms@.len() - i,
        {
            if r.arms[i].0 == value {
                return (Some(value), Some(r.arms[i].1.clone()));
            }
            i = i + 1;
        }
        match &r.otherwise {
            Some(n) => (Some(value), Some(n.clone())),
            None => (Some(value), None),
        }
    }
}

impl Host for TableHost {
    closed spec fn calls(&self) -> Seq<HostCall> {
        self.calls@
    }

    fn tap(
        &mut self,
        tap: usize,
        value: TapValue,
        packet: &[u8],
        offset: usize,
        fields: &FieldStore,
        local: &FieldStore,
    ) {
        self.seen.push(Seen::Tap { tap, value, offset });
        self.calls = Ghost(
            self.calls@.push(HostCall::Tap { tap, value, offset, fields: fields@, local: local@ }),
        );
    }

    fn decode_with(
        &mut self,
        func: usize,
        value: TapValue,
        packet: &[u8],
        offset: usize,
        fields: &FieldStore,
        local: &FieldStore,
    ) -> (r: String) {
        let r = self.format_answer(func);
        self.seen.push(Seen::Format { func, offset });
        self.calls = Ghost(self.calls@.push(HostCall::DecodeWith { func, value, offset, answer: r@ }));
        r
    }

    fn consume_with(
        &mut self,
        func: usize,
        packet: &[u8],
        offset: usize,
        fields: &FieldStore,
        local: &FieldStore,
    ) -> (r: (usize, String)) {
        let r = self.consumer_answer(func);
        self.seen.push(Seen::Consume { func, offset });
        self.calls = Ghost(
            self.calls@.push(HostCall::ConsumeWith { func, offset, answer: r.0, text: r.1@ }),
        );
        r
    }

    fn resolve_variant(&mut self, resolver: usize, local: &FieldStore) -> (r: Option<String>) {
        let (value, r) = self.resolver_answer(resolver, local);
        self.seen.push(Seen::Resolve { resolver, value });
        self.calls = Ghost(
            self.calls@.push(
                HostCall::Resolve {
                    resolver,
                    local: local@,
                    answer: match &r {
                        Some(n) => Some(n@),
                        None => None,
                    },
                },
            ),
        );
        r
    }

    fn try_delegate(&mut self, table: &str, key: u64, rest: &[u8]) -> (r: usize) {
        let r = self.delegate_answer(table, key);
        self.seen.push(Seen::Delegate { table: String::from_str(table), key, len: rest.len() });
        self.calls = Ghost(self.calls@.push(HostCall::Delegate { table: table@, key, rest: rest@, answer: r }));
        r
    }

    fn decode_as(&mut self, table: &str, rest: &[u8]) -> (r: usize) {
        let r = self.selected_answer(table);
        self.seen.push(Seen::DecodeAs { table: String::from_str(table), len: rest.len() });
        self.calls = Ghost(self.calls@.push(HostCall::DecodeAs { table: table@, rest: rest@, answer: r }));
        r
    }
}

} // verus!
