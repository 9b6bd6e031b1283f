//! Variant dispatch, subdissector delegation, and the host interface they go through.
use vstd::prelude::*;

use crate::schema::EnumSchema;
use crate::store::{FieldStore, Saved};
use crate::text::str_eq;

verus! {

/// The value handed to a tap, hook or formatting function.
#[derive(Debug, Clone, Copy, PartialEq, Eq)]
pub enum TapValue {
    /// A composite, an enum, a sequence, or a hook before or after a composite.
    Unit,
    UInt(u64),
    /// Opaque bytes, as a range of the packet.
    Bytes { start: usize, len: usize },
}

/// The host's side of dissection: the functions a protocol author supplies and the dispatch
/// tables of external decoders. The engine checks what these return before relying on it.
/// A call the engine made to the host, with what the host answered. Stores appear as their
/// entries.
pub enum HostCall {
    Tap {
        tap: usize,
        value: TapValue,
        offset: usize,
        fields: Seq<(Seq<char>, Saved)>,
        local: Seq<(Seq<char>, Saved)>,
    },
    DecodeWith { func: usize, value: TapValue, offset: usize, answer: Seq<char> },
    ConsumeWith { func: usize, offset: usize, answer: usize, text: Seq<char> },
    Resolve { resolver: usize, local: Seq<(Seq<char>, Saved)>, answer: Option<Seq<char>> },
    Delegate { table: Seq<char>, key: u64, rest: Seq<u8>, answer: usize },
    DecodeAs { table: Seq<char>, rest: Seq<u8>, answer: usize },
}

/// The host's side of dissection: the functions a protocol author supplies and the dispatch
/// tables of external decoders. Each method records the call it received, and its answer,
/// in `calls`. The engine checks what the host returns before relying on it.
pub trait Host {
    /// Every call the host has received, oldest first.
    spec fn calls(&self) -> Seq<HostCall>;

    /// Observes a decoded field, or a composite before or after its fields. `fields` is the
    /// packet-wide store and `local` the store of the current composite. Packet metadata
    /// such as the capture time belongs to the host, which knows the packet it handed over.
    fn tap(
        &mut self,
        tap: usize,
        value: TapValue,
        packet: &[u8],
        offset: usize,
        fields: &FieldStore,
        local: &FieldStore,
    )
        ensures
            final(self).calls() == old(self).calls().push(
                HostCall::Tap { tap, value, offset, fields: fields@, local: local@ },
            ),
    ;

    /// Formats a field whose size its type gives.
    fn decode_with(
        &mut self,
        func: usize,
        value: TapValue,
        packet: &[u8],
        offset: usize,
        fields: &FieldStore,
        local: &FieldStore,
    ) -> (r: String)
        ensures
            final(self).calls() == old(self).calls().push(
                HostCall::DecodeWith { func, value, offset, answer: r@ },
            ),
    ;

    /// Consumes a field from `packet` at `offset`; returns how many bytes it took and its text.
    fn consume_with(
        &mut self,
        func: usize,
        packet: &[u8],
        offset: usize,
        fields: &FieldStore,
        local: &FieldStore,
    ) -> (r: (usize, String))
        ensures
            final(self).calls() == old(self).calls().push(
                HostCall::ConsumeWith { func, offset, answer: r.0, text: r.1@ },
            ),
    ;

    /// Names the variant of an enum field from the saved fields of the current composite.
    fn resolve_variant(&mut self, resolver: usize, local: &FieldStore) -> (r: Option<String>)
        ensures
            final(self).calls() == old(self).calls().push(
                HostCall::Resolve {
                    resolver,
                    local: local@,
                    answer: match r {
                        Some(n) => Some(n@),
                        None => None,
                    },
                },
            ),
    ;

    /// Offers `rest` to the decoder registered in `table` under `key`; returns how many bytes
    /// it took, zero where none is registered or it declined.
    fn try_delegate(&mut self, table: &str, key: u64, rest: &[u8]) -> (r: usize)
        ensures
            final(self).calls() == old(self).calls().push(
                HostCall::Delegate { table: table@, key, rest: rest@, answer: r },
            ),
    ;

    /// Offers `rest` to the decoder the user selected for `table`; returns how many bytes it
    /// took.
    fn decode_as(&mut self, table: &str, rest: &[u8]) -> (r: usize)
        ensures
            final(self).calls() == old(self).calls().push(
                HostCall::DecodeAs { table: table@, rest: rest@, answer: r },
            ),
    ;
}

/// The delegate calls that offering `rest` to `table` under `keys` makes, given their
/// answers: the keys in order, one call each, as many as there are answers.
pub open spec fn delegations(table: Seq<char>, keys: Seq<u64>, rest: Seq<u8>, answers: Seq<usize>) -> Seq<
    HostCall,
> {
    Seq::new(
        answers.len(),
        |i: int| HostCall::Delegate { table, key: keys[i], rest, answer: answers[i] },
    )
}

/// Finds the variant of `e` that a resolver named.
pub fn find_variant(e: &EnumSchema, name: &str) -> (r: Option<usize>)
    ensures
        r matches Some(v) ==> v < e.variants@.len() && e.variants@[v as int].name@ == name@
            && forall|u: int| 0 <= u < v ==> e.variants@[u].name@ != name@,
        r is None <==> forall|v: int|
            0 <= v < e.variants@.len() ==> e.variants@[v].name@ != name@,
{
    let mut v: usize = 0;
    while v < e.variants.len()
        invariant
            v <= e.variants@.len(),
            forall|u: int| 0 <= u < v ==> e.variants@[u].name@ != name@,
        decreases e.variants@.len() - v,
    {
        if str_eq(e.variants[v].name.as_str(), name) {
            return Some(v);
        }
        v = v + 1;
    }
    None
}

/// The bytes that delegation accounts for, given the delegates' answers in the order they
/// were asked: the first non-zero answer, at most `remaining`; the whole of `remaining` when
/// every answer is zero.
pub open spec fn claimed(answers: Seq<usize>, remaining: usize) -> usize
    decreases answers.len(),
{
    if answers.len() == 0 {
        remaining
    } else if answers[0] != 0 {
        if answers[0] <= remaining {
            answers[0]
        } else {
            remaining
        }
    } else {
        claimed(answers.skip(1), remaining)
    }
}

/// Computes what delegation accounts for from the delegates' answers.
pub fn select_consumption(answers: &Vec<usize>, remaining: usize) -> (r: usize)
    ensures
        r == claimed(answers@, remaining),
{
    let mut i: usize = 0;
    assert(answers@.skip(0) =~= answers@);
    while i < answers.len()
        invariant
            i <= answers@.len(),
            claimed(answers@, remaining) == claimed(answers@.skip(i as int), remaining),
        decreases answers@.len() - i,
    {
        assert(answers@.skip(i as int).skip(1) =~= answers@.skip(i + 1));
        let a = answers[i];
        if a != 0 {
            return if a <= remaining {
                a
            } else {
                remaining
            };
        }
        i = i + 1;
    }
    remaining
}

/// The outcome of offering a byte range to a dispatch table.
#[derive(Debug)]
pub struct Delegation {
    /// The bytes accounted for.
    pub consumed: usize,
    /// What each delegate asked answered, in the order the keys were tried.
    pub answers: Vec<usize>,
}

/// Offers `rest` to the decoders of `table` registered under each key, in order, until one
/// takes bytes; where none does, the fallback accounts for all of `rest`.
pub fn try_subdissectors<H: Host>(host: &mut H, table: &str, keys: &Vec<u64>, rest: &[u8]) -> (r:
    Delegation)
    ensures
        r.answers@.len() <= keys@.len(),
        forall|i: int| 0 <= i < r.answers@.len() - 1 ==> r.answers@[i] == 0,
        r.answers@.len() < keys@.len() ==> r.answers@.len() > 0 && r.answers@.last() != 0,
        r.consumed == claimed(r.answers@, rest@.len() as usize),
        r.consumed <= rest@.len(),
        final(host).calls() == old(host).calls() + delegations(table@, keys@, rest@, r.answers@),
{
    let mut answers: Vec<usize> = Vec::new();
    let mut i: usize = 0;
    let mut taken: usize = 0;
    assert(old(host).calls() + delegations(table@, keys@, rest@, answers@) =~= old(host).calls());
    while i < keys.len() && taken == 0
        invariant
            i <= keys@.len(),
            answers@.len() == i,
            forall|t: int| 0 <= t < i - 1 ==> answers@[t] == 0,
            taken == 0 <==> forall|t: int| 0 <= t < i ==> answers@[t] == 0,
            i > 0 ==> taken == answers@[i - 1],
            host.calls() == old(host).calls() + delegations(table@, keys@, rest@, answers@),
        decreases keys@.len() - i,
    {
        let ghost prev = answers@;
        assert(forall|t: int| 0 <= t < i ==> prev[t] == 0);
        taken = host.try_delegate(table, keys[i], rest);
        answers.push(taken);
        assert(answers@ == prev.push(taken));
        assert(forall|t: int| 0 <= t < i ==> answers@[t] == prev[t]);
        assert(answers@[i as int] == taken);
        assert(host.calls() =~= old(host).calls() + delegations(table@, keys@, rest@, answers@));
        i = i + 1;
    }
    let consumed = select_consumption(&answers, rest.len());
    proof {
        lemma_claimed_bound(answers@, rest@.len() as usize);
    }
    Delegation { consumed, answers }
}

proof fn lemma_claimed_bound(answers: Seq<usize>, remaining: usize)
    ensures
        claimed(answers, remaining) <= remaining,
    decreases answers.len(),
{
    if answers.len() > 0 && answers[0] == 0 {
        lemma_claimed_bound(answers.skip(1), remaining);
    }
}

/// Subdissector fallback: when no delegate takes any bytes, delegation accounts for every
/// remaining byte; when the first delegate that takes bytes reports no more than remain,
/// exactly its report is accounted for, and the answers after it play no part.
pub proof fn lemma_subdissector_fallback(answers: Seq<usize>, remaining: usize)
    ensures
        (forall|i: int| 0 <= i < answers.len() ==> answers[i] == 0) ==> claimed(answers, remaining)
            == remaining,
        forall|k: int|
            0 <= k < answers.len() && answers[k] != 0 && answers[k] <= remaining && (forall|i: int|
                0 <= i < k ==> answers[i] == 0) ==> claimed(answers, remaining) == answers[k]
                && claimed(answers, remaining) == claimed(answers.take(k + 1), remaining),
    decreases answers.len(),
{
    if answers.len() > 0 {
        lemma_subdissector_fallback(answers.skip(1), remaining);
        assert forall|k: int|
            0 <= k < answers.len() && answers[k] != 0 && answers[k] <= remaining && (forall|i: int|
                0 <= i < k ==> answers[i] == 0) implies claimed(answers, remaining) == answers[k]
            && claimed(answers, remaining) == claimed(answers.take(k + 1), remaining) by {
            if k > 0 {
                assert(answers[0] == 0);
                assert(answers.skip(1)[k - 1] == answers[k]);
                assert forall|i: int| 0 <= i < k - 1 implies answers.skip(1)[i] == 0 by {
                    assert(answers.skip(1)[i] == answers[i + 1]);
                }
                assert(answers.take(k + 1).skip(1) =~= answers.skip(1).take(k));
            }
        }
        if forall|i: int| 0 <= i < answers.len() ==> answers[i] == 0 {
            assert(answers[0] == 0);
            assert forall|i: int| 0 <= i < answers.skip(1).len() implies answers.skip(1)[i] == 0 by {
                assert(answers.skip(1)[i] == answers[i + 1]);
            }
        }
    }
}

} // verus!
