//! The tagged value representation: a raw value is either an immediate,
//! encoded in the word itself and never moved by the collector, or a pointer
//! to a heap block that a collection cycle may relocate.

use vstd::prelude::*;

verus! {

/// A raw runtime value. An immediate carries its payload directly; a pointer
/// names a heap block by its position in the block store.
#[derive(Clone, Copy, PartialEq, Eq, Structural, Debug)]
pub enum Raw {
    Imm(i64),
    Ptr(usize),
}

/// The abstract (mathematical) form of a runtime value, obtained by reading
/// pointers through the heap. `Undef` stands for a dangling or ill-formed
/// reading and never arises from a well-formed heap.
pub ghost enum Val {
    Imm(i64),
    Blk { tag: u8, items: Seq<Val> },
    Bytes(Seq<u8>),
    BoxI32(i32),
    BoxI64(i64),
    BoxF64(u64),
    NumArr(Seq<u64>),
    Undef,
}

/// The payload of an immediate raw value.
pub open spec fn imm_val(r: Raw) -> i64 {
    match r {
        Raw::Imm(n) => n,
        Raw::Ptr(_) => arbitrary(),
    }
}

/// The tag of a block-shaped abstract value.
pub open spec fn blk_tag(v: Val) -> u8 {
    match v {
        Val::Blk { tag, .. } => tag,
        _ => arbitrary(),
    }
}

/// The items of a block-shaped abstract value.
pub open spec fn blk_items(v: Val) -> Seq<Val> {
    match v {
        Val::Blk { items, .. } => items,
        _ => arbitrary(),
    }
}

/// The abstract form of a linked list: nil is the immediate `0`, a cons cell
/// is a two-field block of tag `0` holding head and tail.
pub open spec fn list_v(items: Seq<Val>) -> Val
    decreases items.len(),
{
    if items.len() == 0 {
        Val::Imm(0)
    } else {
        Val::Blk { tag: 0, items: seq![items[0], list_v(items.drop_first())] }
    }
}

/// Two sequences with the same list form are equal.
pub proof fn lemma_list_v_inj(s1: Seq<Val>, s2: Seq<Val>)
    requires
        list_v(s1) == list_v(s2),
    ensures
        s1 == s2,
    decreases s1.len(),
{
    if s1.len() == 0 {
        if s2.len() != 0 {
            assert(list_v(s2) is Blk);
        }
        assert(s1 =~= s2);
    } else {
        assert(list_v(s1) is Blk);
        if s2.len() == 0 {
            assert(list_v(s2) is Imm);
        }
        let d1 = s1.drop_first();
        let d2 = s2.drop_first();
        let e1: Seq<Val> = seq![s1[0], list_v(d1)];
        let e2: Seq<Val> = seq![s2[0], list_v(d2)];
        assert(e1 == e2);
        assert(e1[0] == s1[0] && e1[1] == list_v(d1));
        assert(e2[0] == s2[0] && e2[1] == list_v(d2));
        lemma_list_v_inj(d1, d2);
        assert forall|i: int| 0 <= i < s1.len() implies s1[i] == s2[i] by {
            if i > 0 {
                assert(s1[i] == d1[i - 1]);
                assert(s2[i] == d2[i - 1]);
            }
        }
        assert(s1 =~= s2);
    }
}

/// Tests the low tag bit: odd words are immediates, even words are pointers.
pub fn word_is_immediate(w: u64) -> (b: bool)
    ensures
        b == (w & 1 == 1),
{
    w & 1 == 1
}

/// The integer an immediate word denotes: the payload sits above the tag bit
/// and is read back with an arithmetic shift.
pub open spec fn word_int(w: u64) -> i64 {
    (w as i64) >> 1
}

/// Encodes a host integer as an immediate word: payload shifted up one bit,
/// tag bit set. The word holds one bit fewer than the host integer, so the
/// payload must fit in the upper bits.
pub fn int_to_word(n: i64) -> (w: u64)
    requires
        -0x4000_0000_0000_0000 <= n < 0x4000_0000_0000_0000,
    ensures
        w & 1 == 1,
        word_int(w) == n,
{
    let w: u64 = ((n as u64) << 1u64) | 1u64;
    proof {
        assert((((n as u64) << 1u64) | 1u64) & 1 == 1) by (bit_vector);
        assert(-0x4000_0000_0000_0000 <= n < 0x4000_0000_0000_0000 ==> (((((n as u64) << 1u64)
            | 1u64) as i64) >> 1) == n) by (bit_vector);
    }
    w
}

/// Reads a host integer back out of an immediate word.
pub fn word_to_int(w: u64) -> (n: i64)
    requires
        w & 1 == 1,
    ensures
        n == word_int(w),
{
    (w as i64) >> 1u64
}

/// Round trip of the immediate encoding: decoding an encoded integer gives
/// the integer back, for every integer the payload bits can hold.
pub proof fn lemma_word_round_trip(n: i64)
    requires
        -0x4000_0000_0000_0000 <= n < 0x4000_0000_0000_0000,
    ensures
        word_int((((n as u64) << 1u64) | 1u64) as u64) == n,
{
    assert(-0x4000_0000_0000_0000 <= n < 0x4000_0000_0000_0000 ==> (((((n as u64) << 1u64) | 1u64)
        as i64) >> 1) == n) by (bit_vector);
}

} // verus!
