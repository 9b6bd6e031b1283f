//! Reading integers from packet bytes, and the stores that saved field values live in.
use vstd::prelude::*;

use crate::schema::ByteOrder;
use crate::text::str_eq;

verus! {

/// The value of bytes read most significant first.
pub open spec fn be_value(bs: Seq<u8>) -> nat
    decreases bs.len(),
{
    if bs.len() == 0 {
        0
    } else {
        be_value(bs.drop_last()) * 256 + bs.last() as nat
    }
}

/// The value of bytes read least significant first.
pub open spec fn le_value(bs: Seq<u8>) -> nat
    decreases bs.len(),
{
    if bs.len() == 0 {
        0
    } else {
        bs[0] as nat + 256 * le_value(bs.skip(1))
    }
}

/// The value of bytes in the given order.
pub open spec fn uint_value(bs: Seq<u8>, order: ByteOrder) -> nat {
    match order {
        ByteOrder::Big => be_value(bs),
        ByteOrder::Little => le_value(bs),
    }
}

/// 256 to the power `n`.
pub open spec fn pow256(n: nat) -> nat
    decreases n,
{
    if n == 0 {
        1
    } else {
        256 * pow256((n - 1) as nat)
    }
}

proof fn lemma_pow256_small()
    ensures
        pow256(0) == 1,
        pow256(1) == 0x100,
        pow256(2) == 0x1_0000,
        pow256(3) == 0x100_0000,
        pow256(4) == 0x1_0000_0000,
        pow256(5) == 0x100_0000_0000,
        pow256(6) == 0x1_0000_0000_0000,
        pow256(7) == 0x100_0000_0000_0000,
        pow256(8) == 0x1_0000_0000_0000_0000,
{
    assert(pow256(0) == 1);
    assert(pow256(1) == 0x100);
    assert(pow256(2) == 0x1_0000);
    assert(pow256(3) == 0x100_0000);
    assert(pow256(4) == 0x1_0000_0000);
    assert(pow256(5) == 0x100_0000_0000);
    assert(pow256(6) == 0x1_0000_0000_0000);
    assert(pow256(7) == 0x100_0000_0000_0000);
    assert(pow256(8) == 0x1_0000_0000_0000_0000);
}

proof fn lemma_pow256_mono(a: nat, b: nat)
    requires
        a <= b,
    ensures
        pow256(a) <= pow256(b),
    decreases b,
{
    if a < b {
        lemma_pow256_mono(a, (b - 1) as nat);
        lemma_pow256_pos((b - 1) as nat);
    }
}

proof fn lemma_pow256_pos(n: nat)
    ensures
        pow256(n) >= 1,
    decreases n,
{
    if n > 0 {
        lemma_pow256_pos((n - 1) as nat);
    }
}

/// A value read from `n` bytes is below 256 to the power `n`, in either order.
pub proof fn lemma_uint_value_bound(bs: Seq<u8>, order: ByteOrder)
    ensures
        uint_value(bs, order) < pow256(bs.len()),
    decreases bs.len(),
{
    match order {
        ByteOrder::Big => lemma_be_bound(bs),
        ByteOrder::Little => lemma_le_bound(bs),
    }
}

proof fn lemma_be_bound(bs: Seq<u8>)
    ensures
        be_value(bs) < pow256(bs.len()),
    decreases bs.len(),
{
    if bs.len() > 0 {
        lemma_be_bound(bs.drop_last());
        let p = pow256(bs.drop_last().len());
        let v = be_value(bs.drop_last());
        let b = bs.last() as nat;
        assert(v * 256 + b < p * 256) by (nonlinear_arith)
            requires
                v < p,
                b < 256,
        ;
    }
}

proof fn lemma_le_bound(bs: Seq<u8>)
    ensures
        le_value(bs) < pow256(bs.len()),
    decreases bs.len(),
{
    if bs.len() > 0 {
        lemma_le_bound(bs.skip(1));
        let p = pow256(bs.skip(1).len());
        let v = le_value(bs.skip(1));
        let b = bs[0] as nat;
        assert(b + 256 * v < 256 * p) by (nonlinear_arith)
            requires
                v < p,
                b < 256,
        ;
    }
}

/// Reads an unsigned integer of `width` bytes at `offset`, or `None` where the buffer is too
/// short.
pub fn read_uint(data: &[u8], offset: usize, width: usize, order: ByteOrder) -> (r: Option<u64>)
    requires
        width <= 8,
    ensures
        r is Some <==> offset + width <= data@.len(),
        r matches Some(v) ==> v as nat == uint_value(
            data@.subrange(offset as int, offset + width),
            order,
        ),
{
    if offset > data.len() || width > data.len() - offset {
        return None;
    }
    let n = data.len();
    let ghost bs = data@.subrange(offset as int, offset + width);
    let mut acc: u64 = 0;
    let mut i: usize = 0;
    match order {
        ByteOrder::Big => {
            assert(bs.subrange(0, 0) =~= seq![]);
            while i < width
                invariant
                    width <= 8,
                    offset + width <= data@.len(),
                    n == data@.len(),
                    bs == data@.subrange(offset as int, offset + width),
                    i <= width,
                    acc as nat == be_value(bs.subrange(0, i as int)),
                decreases width - i,
            {
                proof {
                    lemma_be_bound(bs.subrange(0, i as int));
                    lemma_pow256_mono(i as nat, 7);
                    lemma_pow256_small();
                    assert(bs.subrange(0, i + 1).drop_last() =~= bs.subrange(0, i as int));
                }
                let b = data[offset + i];
                acc = acc * 256 + b as u64;
                i = i + 1;
            }
            assert(bs.subrange(0, width as int) =~= bs);
        },
        ByteOrder::Little => {
            i = width;
            assert(bs.subrange(width as int, width as int) =~= seq![]);
            while i > 0
                invariant
                    width <= 8,
                    offset + width <= data@.len(),
                    n == data@.len(),
                    bs == data@.subrange(offset as int, offset + width),
                    i <= width,
                    acc as nat == le_value(bs.subrange(i as int, width as int)),
                decreases i,
            {
                proof {
                    lemma_le_bound(bs.subrange(i as int, width as int));
                    lemma_pow256_mono((width - i) as nat, 7);
                    lemma_pow256_small();
                    assert(bs.subrange(i - 1, width as int).skip(1) =~= bs.subrange(
                        i as int,
                        width as int,
                    ));
                }
                let b = data[offset + i - 1];
                acc = b as u64 + 256 * acc;
                i = i - 1;
            }
            assert(bs.subrange(0, width as int) =~= bs);
        },
    }
    Some(acc)
}

/// A saved value: the integer and the width it was read with.
#[derive(Debug, Clone, Copy, PartialEq, Eq)]
pub struct Saved {
    pub value: u64,
    pub width: usize,
}

/// Decoded field values by name, as saved during one packet or one composite.
#[derive(Debug)]
pub struct FieldStore {
    entries: Vec<(String, Saved)>,
}

/// The entry saved last under `key`, if any.
pub open spec fn lookup(entries: Seq<(Seq<char>, Saved)>, key: Seq<char>) -> Option<Saved>
    decreases entries.len(),
{
    if entries.len() == 0 {
        None
    } else if entries.last().0 == key {
        Some(entries.last().1)
    } else {
        lookup(entries.drop_last(), key)
    }
}

impl View for FieldStore {
    type V = Seq<(Seq<char>, Saved)>;

    closed spec fn view(&self) -> Seq<(Seq<char>, Saved)> {
        self.entries@.map_values(|e: (String, Saved)| (e.0@, e.1))
    }
}

impl FieldStore {
    /// The saved value under `key`, if any.
    pub open spec fn get_spec(&self, key: Seq<char>) -> Option<Saved> {
        lookup(self@, key)
    }

    /// An empty store.
    pub fn new() -> (r: FieldStore)
        ensures
            r@ == Seq::<(Seq<char>, Saved)>::empty(),
    {
        let r = FieldStore { entries: Vec::new() };
        assert(r@ =~= Seq::<(Seq<char>, Saved)>::empty());
        r
    }

    /// Saves `value`, read with `width` bytes, under `key`; a later save of the same key wins.
    pub fn save(&mut self, key: &str, value: u64, width: usize)
        ensures
            final(self)@ == old(self)@.push((key@, Saved { value, width })),
    {
        self.entries.push((String::from_str(key), Saved { value, width }));
        assert(final(self)@ =~= old(self)@.push((key@, Saved { value, width })));
    }

    /// The value saved last under `key`.
    pub fn get(&self, key: &str) -> (r: Option<Saved>)
        ensures
            r == self.get_spec(key@),
    {
        let mut i: usize = self.entries.len();
        assert(self@.subrange(0, i as int) =~= self@);
        while i > 0
            invariant
                i <= self.entries@.len(),
                lookup(self@, key@) == lookup(self@.subrange(0, i as int), key@),
            decreases i,
        {
            let ghost pre = self@.subrange(0, i as int);
            assert(pre.drop_last() =~= self@.subrange(0, i - 1));
            assert(pre.last() == (self.entries@[i - 1].0@, self.entries@[i - 1].1));
            if str_eq(self.entries[i - 1].0.as_str(), key) {
                return Some(self.entries[i - 1].1);
            }
            i = i - 1;
        }
        assert(self@.subrange(0, 0) =~= Seq::<(Seq<char>, Saved)>::empty());
        None
    }

    /// The value under `key` if it was saved from one byte.
    pub fn get_u8(&self, key: &str) -> (r: Option<u8>)
        ensures
            r == (match self.get_spec(key@) {
                Some(s) => if s.width == 1 && s.value < 0x100 {
                    Some(s.value as u8)
                } else {
                    None
                },
                None => None,
            }),
    {
        match self.get(key) {
            Some(s) => if s.width == 1 && s.value < 0x100 {
                Some(s.value as u8)
            } else {
                None
            },
            None => None,
        }
    }

    /// The value under `key` if it was saved from two bytes.
    pub fn get_u16(&self, key: &str) -> (r: Option<u16>)
        ensures
            r == (match self.get_spec(key@) {
                Some(s) => if s.width == 2 && s.value < 0x1_0000 {
                    Some(s.value as u16)
                } else {
                    None
                },
                None => None,
            }),
    {
        match self.get(key) {
            Some(s) => if s.width == 2 && s.value < 0x1_0000 {
                Some(s.value as u16)
            } else {
                None
            },
            None => None,
        }
    }

    /// The value under `key` if it was saved from four bytes.
    pub fn get_u32(&self, key: &str) -> (r: Option<u32>)
        ensures
            r == (match self.get_spec(key@) {
                Some(s) => if s.width == 4 && s.value < 0x1_0000_0000 {
                    Some(s.value as u32)
                } else {
                    None
                },
                None => None,
            }),
    {
        match self.get(key) {
            Some(s) => if s.width == 4 && s.value < 0x1_0000_0000 {
                Some(s.value as u32)
            } else {
                None
            },
            None => None,
        }
    }
}

/// Save/load round trip: an unsigned 8, 16 or 32-bit value read in either byte order and
/// saved under a key reads back unchanged, with the width it was read with, and fits that
/// width, so the getter of that width returns it.
pub proof fn lemma_save_load_round_trip(
    entries: Seq<(Seq<char>, Saved)>,
    key: Seq<char>,
    bs: Seq<u8>,
    order: ByteOrder,
)
    requires
        bs.len() == 1 || bs.len() == 2 || bs.len() == 4,
    ensures
        ({
            let v = uint_value(bs, order);
            &&& v < pow256(bs.len())
            &&& (v as u64) as nat == v
            &&& lookup(entries.push((key, Saved { value: v as u64, width: bs.len() as usize })), key)
                == Some(Saved { value: v as u64, width: bs.len() as usize })
        }),
{
    lemma_uint_value_bound(bs, order);
    lemma_pow256_small();
    let v = uint_value(bs, order);
    let e = entries.push((key, Saved { value: v as u64, width: bs.len() as usize }));
    assert(e.last() == (key, Saved { value: v as u64, width: bs.len() as usize }));
}

} // verus!
