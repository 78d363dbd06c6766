//! The block store: collector-managed heap blocks, the well-formedness of a
//! heap, and the decoding of raw values into their abstract form.
//!
//! Blocks live in one growing store. The region at and above `live_from` is
//! the current half-space; everything below it is dead space left behind by
//! earlier collection cycles, and a raw pointer into it is dangling.

use vstd::prelude::*;

use crate::value::{Raw, Val};

verus! {

/// One heap block: a header (here the variant and tag) followed by contents.
/// `Fields` blocks hold further raw values (tuples, cons cells, option and
/// result wrappers); the remaining variants hold flat host data by copy.
pub enum Block {
    Fields { tag: u8, fields: Vec<Raw> },
    Bytes { data: Vec<u8> },
    BoxI32 { v: i32 },
    BoxI64 { v: i64 },
    BoxF64 { bits: u64 },
    NumArr { elems: Vec<u64> },
}

/// The mathematical view of one heap block.
pub ghost enum BlockV {
    Fields { tag: u8, fields: Seq<Raw> },
    Bytes { data: Seq<u8> },
    BoxI32 { v: i32 },
    BoxI64 { v: i64 },
    BoxF64 { bits: u64 },
    NumArr { elems: Seq<u64> },
}

impl View for Block {
    type V = BlockV;

    open spec fn view(&self) -> BlockV {
        match self {
            Block::Fields { tag, fields } => BlockV::Fields { tag: *tag, fields: fields@ },
            Block::Bytes { data } => BlockV::Bytes { data: data@ },
            Block::BoxI32 { v } => BlockV::BoxI32 { v: *v },
            Block::BoxI64 { v } => BlockV::BoxI64 { v: *v },
            Block::BoxF64 { bits } => BlockV::BoxF64 { bits: *bits },
            Block::NumArr { elems } => BlockV::NumArr { elems: elems@ },
        }
    }
}

/// A raw value that may be handed out when the live half-space is
/// `[live_from, bound)`: an immediate, or a pointer into that region.
pub open spec fn raw_ok(bound: int, live_from: int, r: Raw) -> bool {
    match r {
        Raw::Imm(_) => true,
        Raw::Ptr(j) => live_from <= j < bound,
    }
}

/// How far up the store a decoding of `r` can reach: nothing for an
/// immediate, the block itself for a pointer. Fields of a well-formed block
/// point strictly below it, so this bounds the whole reading.
pub open spec fn raw_bound(r: Raw) -> nat {
    match r {
        Raw::Imm(_) => 0,
        Raw::Ptr(j) => (j + 1) as nat,
    }
}

/// A block standing at position `i` is well formed when each of its fields
/// is an immediate or points into the live region strictly below `i`.
pub open spec fn block_ok(b: BlockV, live_from: int, i: int) -> bool {
    match b {
        BlockV::Fields { fields, .. } => forall|k: int|
            0 <= k < fields.len() ==> raw_ok(i, live_from, fields[k]),
        _ => true,
    }
}

/// A well-formed block store: every live block's fields point downward into
/// the live region.
pub open spec fn heap_ok(h: Seq<BlockV>, live_from: int) -> bool {
    &&& 0 <= live_from <= h.len()
    &&& forall|i: int| live_from <= i < h.len() ==> block_ok(h[i], live_from, i)
}

/// Fuelled reading of a raw value through the store. The fuel only serves as
/// a termination measure; `lemma_dec_agree` shows it does not matter once it
/// covers `raw_bound`.
pub open spec fn dec(h: Seq<BlockV>, r: Raw, fuel: nat) -> Val
    decreases fuel, 0int,
{
    match r {
        Raw::Imm(n) => Val::Imm(n),
        Raw::Ptr(j) => if fuel == 0 {
            Val::Undef
        } else if j < h.len() {
            match h[j as int] {
                BlockV::Fields { tag, fields } => Val::Blk {
                    tag,
                    items: dec_fields(h, fields, (fuel - 1) as nat),
                },
                BlockV::Bytes { data } => Val::Bytes(data),
                BlockV::BoxI32 { v } => Val::BoxI32(v),
                BlockV::BoxI64 { v } => Val::BoxI64(v),
                BlockV::BoxF64 { bits } => Val::BoxF64(bits),
                BlockV::NumArr { elems } => Val::NumArr(elems),
            }
        } else {
            Val::Undef
        },
    }
}

/// Fuelled reading of a whole field row.
pub open spec fn dec_fields(h: Seq<BlockV>, fs: Seq<Raw>, fuel: nat) -> Seq<Val>
    decreases fuel, fs.len() + 1,
{
    if fs.len() == 0 {
        Seq::empty()
    } else {
        dec_fields(h, fs.drop_last(), fuel).push(dec(h, fs.last(), fuel))
    }
}

/// The abstract form of a raw value in a store: the fuelled reading with
/// just enough fuel for its own bound.
pub open spec fn decode(h: Seq<BlockV>, r: Raw) -> Val {
    dec(h, r, raw_bound(r))
}

/// A field row reads pointwise.
pub proof fn lemma_dec_fields_map(h: Seq<BlockV>, fs: Seq<Raw>, fuel: nat)
    ensures
        dec_fields(h, fs, fuel) == Seq::new(fs.len(), |k: int| dec(h, fs[k], fuel)),
    decreases fs.len(),
{
    if fs.len() > 0 {
        lemma_dec_fields_map(h, fs.drop_last(), fuel);
        assert(dec_fields(h, fs, fuel) =~= Seq::new(fs.len(), |k: int| dec(h, fs[k], fuel)));
    } else {
        assert(dec_fields(h, fs, fuel) =~= Seq::new(fs.len(), |k: int| dec(h, fs[k], fuel)));
    }
}

/// Two stores agree below `b`: the blocks are present, equal and well
/// formed on the whole of `[live_from, b)`.
pub open spec fn agree_below(h1: Seq<BlockV>, h2: Seq<BlockV>, live_from: int, b: int) -> bool {
    forall|k: int|
        live_from <= k < b ==> k < h1.len() && k < h2.len() && #[trigger] h1[k] == h2[k]
            && block_ok(h1[k], live_from, k)
}

/// Reading a raw value bounded by `b_end` sees neither the fuel (once it
/// covers the bound) nor any block at or above `b_end`: two stores that agree
/// on the live region below `b_end` read it alike.
pub proof fn lemma_dec_agree(
    h1: Seq<BlockV>,
    h2: Seq<BlockV>,
    live_from: int,
    b_end: int,
    r: Raw,
    f1: nat,
    f2: nat,
)
    requires
        0 <= live_from,
        agree_below(h1, h2, live_from, b_end),
        raw_ok(b_end, live_from, r),
        f1 >= raw_bound(r),
        f2 >= raw_bound(r),
    ensures
        dec(h1, r, f1) == dec(h2, r, f2),
    decreases raw_bound(r), 0int,
{
    match r {
        Raw::Imm(_) => {
        },
        Raw::Ptr(j) => {
            assert(live_from <= j < b_end);
            assert(h1[j as int] == h2[j as int]);
            assert(block_ok(h1[j as int], live_from, j as int));
            assert(agree_below(h1, h2, live_from, j as int)) by {
                assert forall|k: int| live_from <= k < j as int implies k < h1.len() && k
                    < h2.len() && #[trigger] h1[k] == h2[k] && block_ok(h1[k], live_from, k) by {
                    assert(live_from <= k < b_end);
                }
            }
            match h1[j as int] {
                BlockV::Fields { tag, fields } => {
                    lemma_dec_fields_agree(
                        h1,
                        h2,
                        live_from,
                        j as int,
                        fields,
                        (f1 - 1) as nat,
                        (f2 - 1) as nat,
                    );
                },
                _ => {
                },
            }
        },
    }
}

/// The field-row form of `lemma_dec_agree`.
pub proof fn lemma_dec_fields_agree(
    h1: Seq<BlockV>,
    h2: Seq<BlockV>,
    live_from: int,
    j: int,
    fs: Seq<Raw>,
    f1: nat,
    f2: nat,
)
    requires
        0 <= live_from,
        0 <= j,
        agree_below(h1, h2, live_from, j),
        forall|k: int| 0 <= k < fs.len() ==> raw_ok(j, live_from, #[trigger] fs[k]),
        f1 >= j,
        f2 >= j,
    ensures
        dec_fields(h1, fs, f1) == dec_fields(h2, fs, f2),
    decreases j, fs.len() + 1,
{
    if fs.len() > 0 {
        assert(forall|k: int|
            0 <= k < fs.drop_last().len() ==> raw_ok(j, live_from, #[trigger] fs.drop_last()[k]));
        lemma_dec_fields_agree(h1, h2, live_from, j, fs.drop_last(), f1, f2);
        assert(raw_ok(j, live_from, fs.last()));
        lemma_dec_agree(h1, h2, live_from, j, fs.last(), f1, f2);
    }
}

/// Reading a raw value with any sufficient fuel gives its abstract form.
pub proof fn lemma_dec_is_decode(h: Seq<BlockV>, live_from: int, b_end: int, r: Raw, fuel: nat)
    requires
        0 <= live_from,
        b_end <= h.len(),
        forall|k: int| live_from <= k < b_end ==> block_ok(#[trigger] h[k], live_from, k),
        raw_ok(b_end, live_from, r),
        fuel >= raw_bound(r),
    ensures
        dec(h, r, fuel) == decode(h, r),
{
    assert forall|k: int| live_from <= k < b_end implies k < h.len() && k < h.len()
        && #[trigger] h[k] == h[k] && block_ok(h[k], live_from, k) by {
        assert(block_ok(h[k], live_from, k));
    }
    assert(agree_below(h, h, live_from, b_end));
    lemma_dec_agree(h, h, live_from, b_end, r, fuel, raw_bound(r));
}

/// The position a pointer names; meaningless for an immediate.
pub open spec fn ptr_ix(r: Raw) -> int {
    match r {
        Raw::Imm(_) => -1,
        Raw::Ptr(j) => j as int,
    }
}

/// The tag of a `Fields` block.
pub open spec fn tag_of(b: BlockV) -> u8 {
    match b {
        BlockV::Fields { tag, .. } => tag,
        _ => arbitrary(),
    }
}

/// The field row of a `Fields` block.
pub open spec fn fields_of(b: BlockV) -> Seq<Raw> {
    match b {
        BlockV::Fields { fields, .. } => fields,
        _ => arbitrary(),
    }
}

/// A `Fields` block reads as a `Blk` whose items are its fields' readings.
pub proof fn lemma_decode_fields_at(h: Seq<BlockV>, lf: int, j: int)
    requires
        heap_ok(h, lf),
        h.len() <= usize::MAX,
        lf <= j < h.len(),
        (h[j] is Fields),
    ensures
        decode(h, Raw::Ptr(j as usize)) == (Val::Blk {
            tag: tag_of(h[j]),
            items: Seq::new(fields_of(h[j]).len(), |k: int| decode(h, fields_of(h[j])[k])),
        }),
{
    let fs = fields_of(h[j]);
    let r = Raw::Ptr(j as usize);
    assert(raw_bound(r) == j + 1);
    assert(block_ok(h[j], lf, j));
    assert(dec(h, r, (j + 1) as nat) == Val::Blk { tag: tag_of(h[j]), items: dec_fields(h, fs, j as nat) });
    lemma_dec_fields_map(h, fs, j as nat);
    assert forall|k: int| 0 <= k < fs.len() implies dec(h, fs[k], j as nat) == decode(
        h,
        #[trigger] fs[k],
    ) by {
        assert(raw_ok(j, lf, fs[k]));
        lemma_dec_is_decode(h, lf, j, fs[k], j as nat);
    }
    assert(Seq::new(fs.len(), |k: int| dec(h, fs[k], j as nat)) =~= Seq::new(
        fs.len(),
        |k: int| decode(h, fs[k]),
    ));
}

/// Appending a well-formed block keeps the store well formed and leaves
/// every reading of the region below it unchanged.
pub proof fn lemma_push_block(h: Seq<BlockV>, lf: int, b: BlockV)
    requires
        heap_ok(h, lf),
        block_ok(b, lf, h.len() as int),
    ensures
        heap_ok(h.push(b), lf),
        forall|r: Raw|
            raw_ok(h.len() as int, lf, r) ==> decode(h.push(b), r) == #[trigger] decode(h, r),
{
    let h2 = h.push(b);
    assert forall|i: int| lf <= i < h2.len() implies block_ok(#[trigger] h2[i], lf, i) by {
        if i < h.len() {
            assert(block_ok(h[i], lf, i));
        }
    }
    assert forall|r: Raw| raw_ok(h.len() as int, lf, r) implies decode(h2, r)
        == #[trigger] decode(h, r) by {
        assert forall|k: int| lf <= k < h.len() implies k < h.len() && k < h2.len()
            && #[trigger] h[k] == h2[k] && block_ok(h[k], lf, k) by {
            assert(block_ok(h[k], lf, k));
        }
        assert(agree_below(h, h2, lf, h.len() as int));
        lemma_dec_agree(h, h2, lf, h.len() as int, r, raw_bound(r), raw_bound(r));
    }
}

/// Replacing the block at `j` by a well-formed one keeps the store well
/// formed and leaves every reading bounded below `j` unchanged.
pub proof fn lemma_update_block(h: Seq<BlockV>, lf: int, j: int, b: BlockV)
    requires
        heap_ok(h, lf),
        lf <= j < h.len(),
        block_ok(b, lf, j),
    ensures
        heap_ok(h.update(j, b), lf),
        forall|r: Raw|
            raw_ok(j, lf, r) ==> decode(h.update(j, b), r) == #[trigger] decode(h, r),
{
    let h2 = h.update(j, b);
    assert forall|i: int| lf <= i < h2.len() implies block_ok(#[trigger] h2[i], lf, i) by {
        if i != j {
            assert(h2[i] == h[i]);
            assert(block_ok(h[i], lf, i));
        }
    }
    assert forall|r: Raw| raw_ok(j, lf, r) implies decode(h2, r) == #[trigger] decode(h, r) by {
        assert forall|k: int| lf <= k < j implies k < h.len() && k < h2.len() && #[trigger] h[k]
            == h2[k] && block_ok(h[k], lf, k) by {
            assert(block_ok(h[k], lf, k));
        }
        assert(agree_below(h, h2, lf, j));
        lemma_dec_agree(h, h2, lf, j, r, raw_bound(r), raw_bound(r));
    }
}

/// The byte contents of a `Bytes` block.
pub open spec fn data_of(b: BlockV) -> Seq<u8> {
    match b {
        BlockV::Bytes { data } => data,
        _ => arbitrary(),
    }
}

/// The element words of a numeric array block.
pub open spec fn elems_of(b: BlockV) -> Seq<u64> {
    match b {
        BlockV::NumArr { elems } => elems,
        _ => arbitrary(),
    }
}

/// The abstract form a flat data block reads as.
pub open spec fn data_val(b: BlockV) -> Val {
    match b {
        BlockV::Fields { .. } => arbitrary(),
        BlockV::Bytes { data } => Val::Bytes(data),
        BlockV::BoxI32 { v } => Val::BoxI32(v),
        BlockV::BoxI64 { v } => Val::BoxI64(v),
        BlockV::BoxF64 { bits } => Val::BoxF64(bits),
        BlockV::NumArr { elems } => Val::NumArr(elems),
    }
}

/// Inversion of reading a valid raw value: the shape of its abstract form
/// discloses the shape of what it points at, and a valid raw value never
/// reads to `Undef`.
pub proof fn lemma_decode_inv(h: Seq<BlockV>, lf: int, r: Raw)
    requires
        heap_ok(h, lf),
        h.len() <= usize::MAX,
        raw_ok(h.len() as int, lf, r),
    ensures
        !(decode(h, r) is Undef),
        (decode(h, r) is Imm) == (r is Imm),
        (r is Imm) ==> decode(h, r) == Val::Imm(crate::value::imm_val(r)),
        (decode(h, r) is Blk) ==> (h[ptr_ix(r)] is Fields) && decode(h, r) == (Val::Blk {
            tag: tag_of(h[ptr_ix(r)]),
            items: Seq::new(
                fields_of(h[ptr_ix(r)]).len(),
                |k: int| decode(h, fields_of(h[ptr_ix(r)])[k]),
            ),
        }),
        (decode(h, r) is Bytes) ==> (h[ptr_ix(r)] is Bytes) && decode(h, r) == Val::Bytes(
            data_of(h[ptr_ix(r)]),
        ),
        (decode(h, r) is NumArr) ==> (h[ptr_ix(r)] is NumArr) && decode(h, r) == Val::NumArr(
            elems_of(h[ptr_ix(r)]),
        ),
        (decode(h, r) is BoxI32) ==> (h[ptr_ix(r)] is BoxI32),
        (decode(h, r) is BoxI64) ==> (h[ptr_ix(r)] is BoxI64),
        (decode(h, r) is BoxF64) ==> (h[ptr_ix(r)] is BoxF64),
{
    match r {
        Raw::Imm(_) => {
        },
        Raw::Ptr(j) => {
            assert(lf <= j < h.len());
            assert(raw_bound(r) == j + 1);
            match h[j as int] {
                BlockV::Fields { tag, fields } => {
                    lemma_decode_fields_at(h, lf, j as int);
                },
                _ => {
                },
            }
        },
    }
}

/// Shifting a well-formed block keeps it well formed at its new position.
pub proof fn lemma_shift_block_ok(b: BlockV, lf: int, j: int, d: int)
    requires
        block_ok(b, lf, j),
        0 <= lf,
        0 <= lf + d,
        j + d <= usize::MAX,
    ensures
        block_ok(shift_block(b, d), lf + d, j + d),
{
    match b {
        BlockV::Fields { tag, fields } => {
            let sfs = Seq::new(fields.len(), |k: int| shift_raw(fields[k], d));
            assert forall|k: int| 0 <= k < sfs.len() implies raw_ok(j + d, lf + d, #[trigger] sfs[k]) by {
                assert(raw_ok(j, lf, fields[k]));
                match fields[k] {
                    Raw::Imm(_) => {
                    },
                    Raw::Ptr(m) => {
                        assert((m + d) as usize as int == m + d);
                    },
                }
            }
        },
        _ => {
        },
    }
}

/// How a relocation moves one raw value: immediates stand still, pointers
/// move by the cycle's displacement.
pub open spec fn shift_raw(r: Raw, d: int) -> Raw {
    match r {
        Raw::Imm(n) => Raw::Imm(n),
        Raw::Ptr(j) => Raw::Ptr((j + d) as usize),
    }
}

/// How a relocation rewrites one block: field rows move with the cycle,
/// flat data is copied as it stands.
pub open spec fn shift_block(b: BlockV, d: int) -> BlockV {
    match b {
        BlockV::Fields { tag, fields } => BlockV::Fields {
            tag,
            fields: Seq::new(fields.len(), |k: int| shift_raw(fields[k], d)),
        },
        _ => b,
    }
}

/// Every live block of `h1` below `b` reappears in `h2` displaced by `d`
/// with its fields shifted alike.
pub open spec fn shifted_below(h1: Seq<BlockV>, h2: Seq<BlockV>, lf1: int, d: int, b: int) -> bool {
    forall|k: int|
        lf1 <= k < b ==> k < h1.len() && block_ok(#[trigger] h1[k], lf1, k) && k + d < h2.len()
            && h2[k + d] == shift_block(h1[k], d)
}

/// A relocated store reads exactly as the store it came from: if every live
/// block of `h1` reappears in `h2` displaced by `d` with its fields shifted
/// alike, then a shifted raw value reads to the same abstract form.
pub proof fn lemma_dec_shift(
    h1: Seq<BlockV>,
    h2: Seq<BlockV>,
    lf1: int,
    b_end: int,
    d: int,
    r: Raw,
    f1: nat,
    f2: nat,
)
    requires
        0 <= lf1,
        0 <= lf1 + d,
        h2.len() <= usize::MAX,
        shifted_below(h1, h2, lf1, d, b_end),
        raw_ok(b_end, lf1, r),
        f1 >= raw_bound(r),
        f2 >= raw_bound(shift_raw(r, d)),
    ensures
        dec(h2, shift_raw(r, d), f2) == dec(h1, r, f1),
    decreases raw_bound(r), 0int,
{
    match r {
        Raw::Imm(_) => {
        },
        Raw::Ptr(j) => {
            assert(lf1 <= j < b_end);
            assert(block_ok(h1[j as int], lf1, j as int));
            assert(h2[j + d] == shift_block(h1[j as int], d));
            assert(shift_raw(r, d) == Raw::Ptr((j + d) as usize));
            assert((j + d) as usize as int == j + d);
            assert(shifted_below(h1, h2, lf1, d, j as int)) by {
                assert forall|k: int| lf1 <= k < j as int implies k < h1.len() && block_ok(
                    #[trigger] h1[k],
                    lf1,
                    k,
                ) && k + d < h2.len() && h2[k + d] == shift_block(h1[k], d) by {
                    assert(lf1 <= k < b_end);
                }
            }
            match h1[j as int] {
                BlockV::Fields { tag, fields } => {
                    lemma_dec_shift_fields(
                        h1,
                        h2,
                        lf1,
                        j as int,
                        d,
                        fields,
                        (f1 - 1) as nat,
                        (f2 - 1) as nat,
                    );
                },
                _ => {
                },
            }
        },
    }
}

/// The field-row form of `lemma_dec_shift`.
pub proof fn lemma_dec_shift_fields(
    h1: Seq<BlockV>,
    h2: Seq<BlockV>,
    lf1: int,
    j: int,
    d: int,
    fs: Seq<Raw>,
    f1: nat,
    f2: nat,
)
    requires
        0 <= lf1,
        0 <= lf1 + d,
        0 <= j,
        h2.len() <= usize::MAX,
        shifted_below(h1, h2, lf1, d, j),
        forall|k: int| 0 <= k < fs.len() ==> raw_ok(j, lf1, #[trigger] fs[k]),
        f1 >= j,
        f2 >= j + d,
    ensures
        dec_fields(h2, Seq::new(fs.len(), |k: int| shift_raw(fs[k], d)), f2) == dec_fields(
            h1,
            fs,
            f1,
        ),
    decreases j, fs.len() + 1,
{
    let sfs = Seq::new(fs.len(), |k: int| shift_raw(fs[k], d));
    if fs.len() > 0 {
        assert(forall|k: int|
            0 <= k < fs.drop_last().len() ==> raw_ok(j, lf1, #[trigger] fs.drop_last()[k]));
        lemma_dec_shift_fields(h1, h2, lf1, j, d, fs.drop_last(), f1, f2);
        assert(sfs.drop_last() =~= Seq::new(
            fs.drop_last().len(),
            |k: int| shift_raw(fs.drop_last()[k], d),
        ));
        assert(raw_ok(j, lf1, fs.last()));
        assert(f2 >= raw_bound(shift_raw(fs.last(), d))) by {
            match fs.last() {
                Raw::Imm(_) => {
                },
                Raw::Ptr(m) => {
                    assert(lf1 <= m < j);
                    assert(m + d < h2.len()) by {
                        assert(block_ok(h1[m as int], lf1, m as int));
                    }
                    assert((m + d) as usize as int == m + d);
                },
            }
        }
        lemma_dec_shift(h1, h2, lf1, j, d, fs.last(), f1, f2);
        assert(sfs.last() == shift_raw(fs.last(), d));
    } else {
        assert(sfs =~= Seq::empty());
    }
}

} // verus!
