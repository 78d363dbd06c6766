//! The runtime token and the root stack.
//!
//! `OCamlRuntime` is the exclusive capability for touching the embedded
//! heap: every operation that reads, roots or allocates takes it, and taking
//! it by `&mut` serializes all collection-triggering work. The root stack is
//! the one registry the collector repairs on a cycle; any raw value held
//! outside it is dangling as soon as a cycle runs.

use vstd::pervasive::VecAdditionalExecFns;
use vstd::prelude::*;

use crate::heap::{
    block_ok, data_val, decode, fields_of, heap_ok, lemma_dec_shift, lemma_decode_fields_at,
    lemma_push_block, lemma_shift_block_ok, lemma_update_block, ptr_ix, raw_bound, raw_ok,
    shift_block, shift_raw, tag_of, Block, BlockV,
};
use crate::value::{blk_items, blk_tag, imm_val, Raw, Val};

verus! {

/// The views of a sequence of blocks.
pub open spec fn views_of(v: Seq<Block>) -> Seq<BlockV> {
    v.map_values(|b: Block| b@)
}

/// An owned root: a cell on the root stack that the collector visits and
/// repairs on every cycle. It cannot be copied, so exactly one owner can
/// release it, and release must respect stack order.
pub struct BoxRoot {
    idx: usize,
}

impl BoxRoot {
    /// The position of this root's cell on the root stack.
    pub closed spec fn index(&self) -> int {
        self.idx as int
    }
}

/// The runtime token: the embedded heap, the current half-space mark, the
/// root stack, and whether every allocation forces a collection cycle (the
/// harshest schedule the collector is allowed to take).
pub struct OCamlRuntime {
    heap: Vec<Block>,
    live_from: usize,
    roots: Vec<Raw>,
    collect_on_alloc: bool,
}

impl OCamlRuntime {
    /// The block store as a sequence of block views.
    pub closed spec fn heapv(&self) -> Seq<BlockV> {
        self.heap@.map_values(|b: Block| b@)
    }

    /// Where the live half-space starts.
    pub closed spec fn live_start(&self) -> int {
        self.live_from as int
    }

    /// The root stack contents, bottom first.
    pub closed spec fn rootsv(&self) -> Seq<Raw> {
        self.roots@
    }

    /// The root stack depth.
    pub open spec fn depth(&self) -> int {
        self.rootsv().len() as int
    }

    /// Whether every allocation primitive forces a collection cycle first.
    pub closed spec fn auto_collect(&self) -> bool {
        self.collect_on_alloc
    }

    /// A raw value this runtime may hand out right now.
    pub open spec fn val_ok(&self, r: Raw) -> bool {
        raw_ok(self.heapv().len() as int, self.live_start(), r)
    }

    /// The abstract form of a raw value in the current heap.
    pub open spec fn read(&self, r: Raw) -> Val {
        decode(self.heapv(), r)
    }

    /// The abstract form of the value a root cell holds.
    pub open spec fn root_val(&self, i: int) -> Val {
        self.read(self.rootsv()[i])
    }

    /// Well-formedness: the heap is acyclic (fields point downward into the
    /// live half-space) and every root cell holds a valid raw value.
    pub open spec fn wf(&self) -> bool {
        &&& heap_ok(self.heapv(), self.live_start())
        &&& forall|k: int|
            0 <= k < self.rootsv().len() ==> raw_ok(
                self.heapv().len() as int,
                self.live_start(),
                #[trigger] self.rootsv()[k],
            )
    }

    /// The session frame every operation preserves: the root stack depth,
    /// the collection schedule, and the abstract value held by every root
    /// that existed before — whatever relocation happened in between.
    pub open spec fn keeps_roots_of(&self, prev: Self) -> bool {
        &&& self.depth() == prev.depth()
        &&& self.auto_collect() == prev.auto_collect()
        &&& forall|i: int| 0 <= i < prev.depth() ==> self.root_val(i) == prev.root_val(i)
    }

    /// Starts a runtime with an empty heap and an empty root stack. With
    /// `collect_on_alloc` set, every allocation primitive forces a full
    /// collection cycle first.
    pub fn new(collect_on_alloc: bool) -> (rt: Self)
        ensures
            rt.wf(),
            rt.depth() == 0,
            rt.auto_collect() == collect_on_alloc,
            rt.heapv().len() == rt.live_start(),
    {
        let rt = OCamlRuntime { heap: Vec::new(), live_from: 0, roots: Vec::new(), collect_on_alloc };
        proof {
            assert(rt.heapv() =~= Seq::<BlockV>::empty());
        }
        rt
    }

    /// The current root stack depth.
    pub fn root_depth(&self) -> (n: usize)
        ensures
            n as int == self.depth(),
    {
        self.roots.len()
    }

    /// How many blocks the live half-space holds.
    pub fn live_block_count(&self) -> (n: usize)
        requires
            self.wf(),
        ensures
            n as int == self.heapv().len() - self.live_start(),
    {
        self.heap.len() - self.live_from
    }

    /// Pushes a new root cell holding `r` and hands back its owner.
    /// Root-stack depth grows by one; the heap is untouched.
    pub fn acquire_root(&mut self, r: Raw) -> (root: BoxRoot)
        requires
            old(self).wf(),
            old(self).val_ok(r),
        ensures
            final(self).wf(),
            final(self).heapv() == old(self).heapv(),
            final(self).live_start() == old(self).live_start(),
            final(self).auto_collect() == old(self).auto_collect(),
            final(self).rootsv() == old(self).rootsv().push(r),
            root.index() == old(self).depth(),
    {
        let root = BoxRoot { idx: self.roots.len() };
        self.roots.push(r);
        proof {
            assert forall|k: int| 0 <= k < self.rootsv().len() implies raw_ok(
                self.heapv().len() as int,
                self.live_start(),
                #[trigger] self.rootsv()[k],
            ) by {
                if k < old(self).rootsv().len() {
                    assert(self.rootsv()[k] == old(self).rootsv()[k]);
                    assert(raw_ok(
                        old(self).heapv().len() as int,
                        old(self).live_start(),
                        old(self).rootsv()[k],
                    ));
                } else {
                    assert(self.rootsv()[k] == r);
                }
            }
        }
        root
    }

    /// Releases the most recently acquired live root, restoring the stack
    /// to its prior depth. Owning the root and stack order are both demanded
    /// here: releasing out of order is a contract violation, not an error
    /// the runtime recovers from.
    pub fn release_root(&mut self, root: BoxRoot)
        requires
            old(self).wf(),
            root.index() + 1 == old(self).depth(),
        ensures
            final(self).wf(),
            final(self).heapv() == old(self).heapv(),
            final(self).live_start() == old(self).live_start(),
            final(self).auto_collect() == old(self).auto_collect(),
            final(self).rootsv() == old(self).rootsv().drop_last(),
    {
        let _ = self.roots.pop();
    }

    /// Overwrites a root cell in place, without changing the stack depth.
    /// This is what lets a loop reuse one root instead of growing the stack.
    pub fn update_root(&mut self, root: &BoxRoot, r: Raw)
        requires
            old(self).wf(),
            0 <= root.index() < old(self).depth(),
            old(self).val_ok(r),
        ensures
            final(self).wf(),
            final(self).heapv() == old(self).heapv(),
            final(self).live_start() == old(self).live_start(),
            final(self).auto_collect() == old(self).auto_collect(),
            final(self).rootsv() == old(self).rootsv().update(root.index(), r),
    {
        self.roots.set(root.idx, r);
    }

    /// Borrows the raw value a root currently holds: an ephemeral view,
    /// valid only until the next allocation primitive runs.
    pub fn borrow_root(&self, root: &BoxRoot) -> (r: Raw)
        requires
            self.wf(),
            0 <= root.index() < self.depth(),
        ensures
            r == self.rootsv()[root.index()],
            self.val_ok(r),
            self.read(r) == self.root_val(root.index()),
    {
        self.roots[root.idx]
    }

    /// Runs one collection cycle: every live block moves to the fresh
    /// half-space, every root cell is repaired to follow its block, and the
    /// old addresses all go dead. The abstract value of every root is
    /// untouched; any raw value held outside the root stack is not.
    pub fn collect(&mut self)
        requires
            old(self).wf(),
        ensures
            final(self).wf(),
            final(self).auto_collect() == old(self).auto_collect(),
            final(self).rootsv().len() == old(self).rootsv().len(),
            forall|i: int|
                0 <= i < old(self).depth() ==> final(self).root_val(i) == old(self).root_val(i),
    {
        let ghost h1 = self.heapv();
        let ghost lf1 = self.live_start();
        let ghost r1 = self.rootsv();
        let len = self.heap.len();
        let lf = self.live_from;
        let pad: usize = if lf == 0 {
            1
        } else {
            0
        };
        let ghost d: int = pad - lf1;
        let mut nh: Vec<Block> = Vec::new();
        if pad == 1 {
            nh.push(Block::Bytes { data: Vec::new() });
        }
        let mut i: usize = lf;
        while i < len
            invariant
                self.heapv() == h1,
                self.live_start() == lf1,
                lf1 == lf as int,
                heap_ok(h1, lf1),
                len == h1.len(),
                len == self.heap.len(),
                lf <= i <= len,
                pad <= 1,
                (pad == 1) == (lf1 == 0),
                d == pad - lf1,
                0 <= lf1 + d,
                nh@.len() == pad + (i - lf),
                forall|j: int|
                    lf1 <= j < i ==> (#[trigger] views_of(nh@)[j + d])
                        == shift_block(h1[j], d),
            decreases len - i,
        {
            let b2 = self.shift_block_exec(i);
            let ghost nh0 = nh@;
            nh.push(b2);
            proof {
                assert(nh@ == nh0.push(b2));
                assert(nh0.len() == i + d);
                assert(b2@ == shift_block(h1[i as int], d));
                assert forall|j: int|
                    lf1 <= j < i + 1 implies (#[trigger] views_of(nh@)[j + d])
                    == shift_block(h1[j], d) by {
                    assert(views_of(nh@)[j + d] == nh@[j + d]@);
                    if j < i {
                        assert(nh@[j + d] == nh0[j + d]);
                        assert(views_of(nh0)[j + d] == nh0[j + d]@);
                        assert(views_of(nh0)[j + d] == shift_block(h1[j], d));
                    } else {
                        assert(nh@[j + d] == b2);
                    }
                }
            }
            i += 1;
        }
        let ghost h2 = views_of(nh@);
        let nh_count = nh.len();
        self.heap = nh;
        self.live_from = pad;
        proof {
            assert(self.heapv() == h2);
            assert(h2.len() == nh_count as int);
            assert(h2.len() == pad + (len - lf1));
        }
        let mut k: usize = 0;
        let rlen = self.roots.len();
        while k < rlen
            invariant
                self.heapv() == h2,
                self.live_start() == pad as int,
                self.auto_collect() == old(self).auto_collect(),
                heap_ok(h1, lf1),
                lf1 == lf as int,
                len == h1.len(),
                pad <= 1,
                d == pad - lf1,
                0 <= lf1 + d,
                h2.len() == pad + (len - lf1),
                h2.len() <= usize::MAX,
                forall|j: int|
                    lf1 <= j < len ==> (#[trigger] h2[j + d]) == shift_block(h1[j], d),
                forall|m: int| 0 <= m < r1.len() ==> raw_ok(len as int, lf1, #[trigger] r1[m]),
                rlen == r1.len(),
                self.rootsv().len() == r1.len(),
                k <= rlen,
                forall|m: int| k <= m < rlen ==> #[trigger] self.rootsv()[m] == r1[m],
                forall|m: int|
                    0 <= m < k ==> #[trigger] self.rootsv()[m] == shift_raw(r1[m], d),
            decreases rlen - k,
        {
            let cur = self.roots[k];
            let moved = shift_raw_exec(cur, lf, pad, len, Ghost(d));
            self.roots.set(k, moved);
            k += 1;
        }
        proof {
            let lf2 = pad as int;
            assert forall|i2: int| lf2 <= i2 < h2.len() implies block_ok(
                #[trigger] h2[i2],
                lf2,
                i2,
            ) by {
                let j = i2 - d;
                assert(lf1 <= j < len);
                assert(h2[j + d] == shift_block(h1[j], d));
                assert(block_ok(h1[j], lf1, j));
                lemma_shift_block_ok(h1[j], lf1, j, d);
            }
            assert(heap_ok(h2, lf2));
            assert forall|m: int| 0 <= m < r1.len() implies raw_ok(
                h2.len() as int,
                lf2,
                #[trigger] self.rootsv()[m],
            ) by {
                assert(self.rootsv()[m] == shift_raw(r1[m], d));
                match r1[m] {
                    Raw::Imm(_) => {
                    },
                    Raw::Ptr(j) => {
                        assert((j + d) as usize as int == j + d);
                    },
                }
            }
            assert forall|m: int| 0 <= m < r1.len() implies self.root_val(m) == old(
                self,
            ).root_val(m) by {
                assert(self.rootsv()[m] == shift_raw(r1[m], d));
                assert(raw_ok(len as int, lf1, r1[m]));
                assert forall|j: int|
                    lf1 <= j < len implies j < h1.len() && block_ok(#[trigger] h1[j], lf1, j) && j
                    + d < h2.len() && h2[j + d] == shift_block(h1[j], d) by {
                    assert(block_ok(h1[j], lf1, j));
                    assert(h2[j + d] == shift_block(h1[j], d));
                }
                lemma_dec_shift(
                    h1,
                    h2,
                    lf1,
                    len as int,
                    d,
                    r1[m],
                    raw_bound(r1[m]),
                    raw_bound(shift_raw(r1[m], d)),
                );
            }
        }
    }


    /// The block store lives in one host vector, so its length always fits
    /// the host's address space.
    pub proof fn lemma_heap_bounded(&self)
        ensures
            self.heapv().len() <= usize::MAX,
    {
        vstd::std_specs::vec::axiom_spec_len(&self.heap);
    }

    /// The collection trigger every allocation primitive passes through:
    /// under the forced schedule it runs a full cycle, otherwise none.
    fn maybe_collect(&mut self)
        requires
            old(self).wf(),
        ensures
            final(self).wf(),
            final(self).auto_collect() == old(self).auto_collect(),
            final(self).rootsv().len() == old(self).rootsv().len(),
            forall|i: int|
                0 <= i < old(self).depth() ==> final(self).root_val(i) == old(self).root_val(i),
    {
        if self.collect_on_alloc {
            self.collect();
        }
    }

    /// Appends one `Fields` block built from already-valid raw values.
    /// No collection runs here; readings of everything already valid stand.
    fn push_fields_block(&mut self, tag: u8, fields: Vec<Raw>) -> (r: Raw)
        requires
            old(self).wf(),
            forall|k: int| 0 <= k < fields@.len() ==> old(self).val_ok(#[trigger] fields@[k]),
        ensures
            final(self).wf(),
            final(self).live_start() == old(self).live_start(),
            final(self).rootsv() == old(self).rootsv(),
            final(self).auto_collect() == old(self).auto_collect(),
            final(self).heapv().len() == old(self).heapv().len() + 1,
            final(self).val_ok(r),
            (r is Ptr),
            ptr_ix(r) == old(self).heapv().len(),
            forall|x: Raw|
                old(self).val_ok(x) ==> final(self).read(x) == #[trigger] old(self).read(x),
            final(self).read(r) == (Val::Blk {
                tag,
                items: Seq::new(fields@.len(), |k: int| old(self).read(fields@[k])),
            }),
            final(self).heapv()[ptr_ix(r)] == (BlockV::Fields { tag, fields: fields@ }),
    {
        let n = self.heap.len();
        let ghost h1 = self.heapv();
        let ghost lf = self.live_start();
        let ghost fsv = fields@;
        let ghost nb = BlockV::Fields { tag, fields: fsv };
        self.heap.push(Block::Fields { tag, fields });
        let n2 = self.heap.len();
        proof {
            assert(self.heapv() =~= h1.push(nb));
            assert(self.heapv().len() == n2 as int);
            assert forall|k: int| 0 <= k < fsv.len() implies raw_ok(
                h1.len() as int,
                lf,
                #[trigger] fsv[k],
            ) by {}
            assert(block_ok(nb, lf, h1.len() as int));
            lemma_push_block(h1, lf, nb);
            assert(self.rootsv() =~= old(self).rootsv());
            assert forall|k: int| 0 <= k < self.rootsv().len() implies raw_ok(
                self.heapv().len() as int,
                self.live_start(),
                #[trigger] self.rootsv()[k],
            ) by {
                assert(raw_ok(h1.len() as int, lf, old(self).rootsv()[k]));
                assert(self.rootsv()[k] == old(self).rootsv()[k]);
            }
            assert(h1.len() == n as int);
            lemma_decode_fields_at(self.heapv(), lf, h1.len() as int);
            assert((h1.len() as int) as usize == n);
            assert(self.heapv()[h1.len() as int] == nb);
            assert(Seq::new(fsv.len(), |k: int| decode(self.heapv(), fsv[k])) =~= Seq::new(
                fsv.len(),
                |k: int| decode(h1, fsv[k]),
            )) by {
                assert forall|k: int|
                    0 <= k < fsv.len() implies decode(self.heapv(), fsv[k]) == decode(
                    h1,
                    #[trigger] fsv[k],
                ) by {
                    assert(raw_ok(h1.len() as int, lf, fsv[k]));
                }
            }
            assert(Seq::new(fsv.len(), |k: int| decode(h1, fsv[k])) =~= Seq::new(
                fsv.len(),
                |k: int| old(self).read(fsv[k]),
            ));
            assert(self.read(Raw::Ptr(n)) == (Val::Blk {
                tag,
                items: Seq::new(fsv.len(), |k: int| old(self).read(fsv[k])),
            }));
        }
        Raw::Ptr(n)
    }

    /// Appends one flat data block (bytes, a boxed scalar, a numeric array).
    fn push_data_block(&mut self, b: Block) -> (r: Raw)
        requires
            old(self).wf(),
            !(b@ is Fields),
        ensures
            final(self).wf(),
            final(self).live_start() == old(self).live_start(),
            final(self).rootsv() == old(self).rootsv(),
            final(self).auto_collect() == old(self).auto_collect(),
            final(self).heapv().len() == old(self).heapv().len() + 1,
            final(self).val_ok(r),
            (r is Ptr),
            ptr_ix(r) == old(self).heapv().len(),
            forall|x: Raw|
                old(self).val_ok(x) ==> final(self).read(x) == #[trigger] old(self).read(x),
            final(self).read(r) == data_val(b@),
    {
        let n = self.heap.len();
        let ghost h1 = self.heapv();
        let ghost lf = self.live_start();
        let ghost nb = b@;
        self.heap.push(b);
        proof {
            assert(self.heapv() =~= h1.push(nb));
            assert(block_ok(nb, lf, h1.len() as int));
            lemma_push_block(h1, lf, nb);
            assert(self.rootsv() =~= old(self).rootsv());
            assert forall|k: int| 0 <= k < self.rootsv().len() implies raw_ok(
                self.heapv().len() as int,
                self.live_start(),
                #[trigger] self.rootsv()[k],
            ) by {
                assert(raw_ok(h1.len() as int, lf, old(self).rootsv()[k]));
                assert(self.rootsv()[k] == old(self).rootsv()[k]);
            }
            assert(self.heapv()[n as int] == nb);
            assert(self.read(Raw::Ptr(n)) == data_val(nb));
        }
        Raw::Ptr(n)
    }


    /// Boxes a host 32-bit integer in a fresh heap cell.
    /// A collection cycle may run first; every live root survives it.
    pub fn alloc_int32(&mut self, v: i32) -> (r: Raw)
        requires
            old(self).wf(),
        ensures
            final(self).wf(),
            final(self).keeps_roots_of(*old(self)),
            final(self).val_ok(r),
            (r is Ptr),
            forall|k: int|
                0 <= k < final(self).depth() ==> raw_bound(#[trigger] final(self).rootsv()[k])
                    <= ptr_ix(r),
            final(self).read(r) == Val::BoxI32(v),
    {
        self.maybe_collect();
        let ghost mid = *self;
        let r = self.push_data_block(Block::BoxI32 { v });
        proof {
            lemma_alloc_frame(*old(self), mid, *self);
            lemma_roots_bounded(mid, *self, ptr_ix(r));
        }
        r
    }

    /// Boxes a host 64-bit integer in a fresh heap cell.
    pub fn alloc_int64(&mut self, v: i64) -> (r: Raw)
        requires
            old(self).wf(),
        ensures
            final(self).wf(),
            final(self).keeps_roots_of(*old(self)),
            final(self).val_ok(r),
            (r is Ptr),
            forall|k: int|
                0 <= k < final(self).depth() ==> raw_bound(#[trigger] final(self).rootsv()[k])
                    <= ptr_ix(r),
            final(self).read(r) == Val::BoxI64(v),
    {
        self.maybe_collect();
        let ghost mid = *self;
        let r = self.push_data_block(Block::BoxI64 { v });
        proof {
            lemma_alloc_frame(*old(self), mid, *self);
            lemma_roots_bounded(mid, *self, ptr_ix(r));
        }
        r
    }

    /// Boxes a floating-point number, carried as its IEEE bit pattern, in a
    /// fresh heap cell.
    pub fn alloc_double(&mut self, bits: u64) -> (r: Raw)
        requires
            old(self).wf(),
        ensures
            final(self).wf(),
            final(self).keeps_roots_of(*old(self)),
            final(self).val_ok(r),
            (r is Ptr),
            forall|k: int|
                0 <= k < final(self).depth() ==> raw_bound(#[trigger] final(self).rootsv()[k])
                    <= ptr_ix(r),
            final(self).read(r) == Val::BoxF64(bits),
    {
        self.maybe_collect();
        let ghost mid = *self;
        let r = self.push_data_block(Block::BoxF64 { bits });
        proof {
            lemma_alloc_frame(*old(self), mid, *self);
            lemma_roots_bounded(mid, *self, ptr_ix(r));
        }
        r
    }

    /// Copies host bytes into a fresh length-prefixed heap block. The input
    /// is read once, fully, before this returns.
    pub fn alloc_bytes(&mut self, data: &[u8]) -> (r: Raw)
        requires
            old(self).wf(),
        ensures
            final(self).wf(),
            final(self).keeps_roots_of(*old(self)),
            final(self).val_ok(r),
            (r is Ptr),
            forall|k: int|
                0 <= k < final(self).depth() ==> raw_bound(#[trigger] final(self).rootsv()[k])
                    <= ptr_ix(r),
            final(self).read(r) == Val::Bytes(data@),
    {
        self.maybe_collect();
        let ghost mid = *self;
        let copied = copy_byte_slice(data);
        let r = self.push_data_block(Block::Bytes { data: copied });
        proof {
            lemma_alloc_frame(*old(self), mid, *self);
            lemma_roots_bounded(mid, *self, ptr_ix(r));
        }
        r
    }

    /// Allocates a one-dimensional numeric array block by a single bulk copy
    /// of host element words (IEEE bit patterns). The source is host memory,
    /// never the embedded heap, so no per-element rooting is owed.
    pub fn alloc_bigarray1(&mut self, elems: &[u64]) -> (r: Raw)
        requires
            old(self).wf(),
        ensures
            final(self).wf(),
            final(self).keeps_roots_of(*old(self)),
            final(self).val_ok(r),
            (r is Ptr),
            forall|k: int|
                0 <= k < final(self).depth() ==> raw_bound(#[trigger] final(self).rootsv()[k])
                    <= ptr_ix(r),
            final(self).read(r) == Val::NumArr(elems@),
    {
        self.maybe_collect();
        let ghost mid = *self;
        let copied = copy_u64_slice(elems);
        let r = self.push_data_block(Block::NumArr { elems: copied });
        proof {
            lemma_alloc_frame(*old(self), mid, *self);
            lemma_roots_bounded(mid, *self, ptr_ix(r));
        }
        r
    }

    /// Wraps an already-rooted value in a fresh one-field block of the given
    /// tag: the "present", "ok" and "error" wrappers all take this shape.
    fn alloc_wrap(&mut self, tag: u8, inner: &BoxRoot) -> (r: Raw)
        requires
            old(self).wf(),
            0 <= inner.index() < old(self).depth(),
        ensures
            final(self).wf(),
            final(self).keeps_roots_of(*old(self)),
            final(self).val_ok(r),
            (r is Ptr),
            forall|k: int|
                0 <= k < final(self).depth() ==> raw_bound(#[trigger] final(self).rootsv()[k])
                    <= ptr_ix(r),
            final(self).read(r) == (Val::Blk {
                tag,
                items: seq![old(self).root_val(inner.index())],
            }),
    {
        self.maybe_collect();
        let ghost mid = *self;
        let v = self.roots[inner.idx];
        proof {
            assert(raw_ok(mid.heapv().len() as int, mid.live_start(), mid.rootsv()[inner.index()]));
        }
        let mut fields: Vec<Raw> = Vec::new();
        fields.push(v);
        let ghost fsv = fields@;
        proof {
            assert(fsv =~= seq![v]);
        }
        let r = self.push_fields_block(tag, fields);
        proof {
            lemma_alloc_frame(*old(self), mid, *self);
            lemma_roots_bounded(mid, *self, ptr_ix(r));
            assert(Seq::new(fsv.len(), |k: int| mid.read(fsv[k]))[0] == mid.read(v));
            assert(Seq::new(fsv.len(), |k: int| mid.read(fsv[k])) =~= seq![mid.read(v)]);
            assert(mid.read(v) == mid.root_val(inner.index()));
            assert(mid.root_val(inner.index()) == old(self).root_val(inner.index()));
        }
        r
    }

    /// Wraps an already-rooted value as "present" (option).
    pub fn alloc_some(&mut self, inner: &BoxRoot) -> (r: Raw)
        requires
            old(self).wf(),
            0 <= inner.index() < old(self).depth(),
        ensures
            final(self).wf(),
            final(self).keeps_roots_of(*old(self)),
            final(self).val_ok(r),
            (r is Ptr),
            forall|k: int|
                0 <= k < final(self).depth() ==> raw_bound(#[trigger] final(self).rootsv()[k])
                    <= ptr_ix(r),
            final(self).read(r) == (Val::Blk {
                tag: 0,
                items: seq![old(self).root_val(inner.index())],
            }),
    {
        self.alloc_wrap(0, inner)
    }

    /// Wraps an already-rooted value as a success payload (result).
    pub fn alloc_ok(&mut self, inner: &BoxRoot) -> (r: Raw)
        requires
            old(self).wf(),
            0 <= inner.index() < old(self).depth(),
        ensures
            final(self).wf(),
            final(self).keeps_roots_of(*old(self)),
            final(self).val_ok(r),
            (r is Ptr),
            forall|k: int|
                0 <= k < final(self).depth() ==> raw_bound(#[trigger] final(self).rootsv()[k])
                    <= ptr_ix(r),
            final(self).read(r) == (Val::Blk {
                tag: 0,
                items: seq![old(self).root_val(inner.index())],
            }),
    {
        self.alloc_wrap(0, inner)
    }

    /// Wraps an already-rooted value as a failure payload (result).
    pub fn alloc_error(&mut self, inner: &BoxRoot) -> (r: Raw)
        requires
            old(self).wf(),
            0 <= inner.index() < old(self).depth(),
        ensures
            final(self).wf(),
            final(self).keeps_roots_of(*old(self)),
            final(self).val_ok(r),
            (r is Ptr),
            forall|k: int|
                0 <= k < final(self).depth() ==> raw_bound(#[trigger] final(self).rootsv()[k])
                    <= ptr_ix(r),
            final(self).read(r) == (Val::Blk {
                tag: 1,
                items: seq![old(self).root_val(inner.index())],
            }),
    {
        self.alloc_wrap(1, inner)
    }

    /// Allocates a cons cell from two already-rooted values: head first,
    /// tail second. Both roots are read only after the collection trigger,
    /// so the cell always holds the repaired addresses.
    pub fn alloc_cons(&mut self, head: &BoxRoot, tail: &BoxRoot) -> (r: Raw)
        requires
            old(self).wf(),
            0 <= head.index() < old(self).depth(),
            0 <= tail.index() < old(self).depth(),
        ensures
            final(self).wf(),
            final(self).keeps_roots_of(*old(self)),
            final(self).val_ok(r),
            (r is Ptr),
            forall|k: int|
                0 <= k < final(self).depth() ==> raw_bound(#[trigger] final(self).rootsv()[k])
                    <= ptr_ix(r),
            final(self).read(r) == (Val::Blk {
                tag: 0,
                items: seq![
                    old(self).root_val(head.index()),
                    old(self).root_val(tail.index()),
                ],
            }),
    {
        self.maybe_collect();
        let ghost mid = *self;
        let hv = self.roots[head.idx];
        let tv = self.roots[tail.idx];
        proof {
            assert(raw_ok(mid.heapv().len() as int, mid.live_start(), mid.rootsv()[head.index()]));
            assert(raw_ok(mid.heapv().len() as int, mid.live_start(), mid.rootsv()[tail.index()]));
        }
        let mut fields: Vec<Raw> = Vec::new();
        fields.push(hv);
        fields.push(tv);
        let ghost fsv = fields@;
        proof {
            assert(fsv =~= seq![hv, tv]);
        }
        let r = self.push_fields_block(0, fields);
        proof {
            lemma_alloc_frame(*old(self), mid, *self);
            lemma_roots_bounded(mid, *self, ptr_ix(r));
            assert(Seq::new(fsv.len(), |k: int| mid.read(fsv[k]))[0] == mid.read(hv));
            assert(Seq::new(fsv.len(), |k: int| mid.read(fsv[k]))[1] == mid.read(tv));
            assert(Seq::new(fsv.len(), |k: int| mid.read(fsv[k])) =~= seq![
                mid.read(hv),
                mid.read(tv),
            ]);
            assert(mid.root_val(head.index()) == old(self).root_val(head.index()));
            assert(mid.root_val(tail.index()) == old(self).root_val(tail.index()));
        }
        r
    }

    /// Allocates a tuple block of `n` fields, every field set to the
    /// immediate `0` until its real value is stored. The caller must store
    /// all fields before any further allocation can expose the block to a
    /// cycle with fields unset; the field values themselves must already be
    /// rooted before this runs.
    pub fn alloc_tuple(&mut self, n: usize) -> (r: Raw)
        requires
            old(self).wf(),
        ensures
            final(self).wf(),
            final(self).keeps_roots_of(*old(self)),
            final(self).val_ok(r),
            (r is Ptr),
            forall|k: int|
                0 <= k < final(self).depth() ==> raw_bound(#[trigger] final(self).rootsv()[k])
                    <= ptr_ix(r),
            final(self).read(r) == (Val::Blk {
                tag: 0,
                items: Seq::new(n as nat, |k: int| Val::Imm(0)),
            }),
            (final(self).heapv()[ptr_ix(r)] is Fields),
            fields_of(final(self).heapv()[ptr_ix(r)]).len() == n as int,
            tag_of(final(self).heapv()[ptr_ix(r)]) == 0,
    {
        self.maybe_collect();
        let ghost mid = *self;
        let mut fields: Vec<Raw> = Vec::new();
        let mut k: usize = 0;
        while k < n
            invariant
                k <= n,
                fields@.len() == k as int,
                forall|m: int| 0 <= m < k ==> #[trigger] fields@[m] == Raw::Imm(0),
            decreases n - k,
        {
            fields.push(Raw::Imm(0));
            k += 1;
        }
        let ghost fsv = fields@;
        let r = self.push_fields_block(0, fields);
        proof {
            lemma_alloc_frame(*old(self), mid, *self);
            lemma_roots_bounded(mid, *self, ptr_ix(r));
            assert(Seq::new(fsv.len(), |m: int| mid.read(fsv[m])) =~= Seq::new(
                n as nat,
                |m: int| Val::Imm(0),
            )) by {
                assert forall|m: int| 0 <= m < fsv.len() implies mid.read(#[trigger] fsv[m])
                    == Val::Imm(0) by {
                    assert(fsv[m] == Raw::Imm(0));
                }
            }
        }
        r
    }

    /// Stores an already-rooted raw value into field `i` of a rooted tuple
    /// block. No collection can run here, and the store does not root its
    /// argument: the argument must point strictly below the tuple block, as
    /// every value converted before the tuple was allocated does.
    pub fn store_raw_field_at(&mut self, tup: &BoxRoot, i: usize, r: Raw)
        requires
            old(self).wf(),
            0 <= tup.index() < old(self).depth(),
            (old(self).rootsv()[tup.index()] is Ptr),
            (old(self).heapv()[ptr_ix(old(self).rootsv()[tup.index()])] is Fields),
            i < fields_of(old(self).heapv()[ptr_ix(old(self).rootsv()[tup.index()])]).len(),
            raw_ok(ptr_ix(old(self).rootsv()[tup.index()]), old(self).live_start(), r),
        ensures
            final(self).wf(),
            final(self).rootsv() == old(self).rootsv(),
            final(self).live_start() == old(self).live_start(),
            final(self).auto_collect() == old(self).auto_collect(),
            final(self).heapv().len() == old(self).heapv().len(),
            forall|x: Raw|
                raw_ok(ptr_ix(old(self).rootsv()[tup.index()]), old(self).live_start(), x)
                    ==> final(self).read(x) == #[trigger] old(self).read(x),
            (old(self).read(old(self).rootsv()[tup.index()]) is Blk),
            final(self).read(final(self).rootsv()[tup.index()]) == (Val::Blk {
                tag: blk_tag(old(self).read(old(self).rootsv()[tup.index()])),
                items: blk_items(old(self).read(old(self).rootsv()[tup.index()])).update(
                    i as int,
                    old(self).read(r),
                ),
            }),
            final(self).heapv()[ptr_ix(old(self).rootsv()[tup.index()])] == (BlockV::Fields {
                tag: tag_of(old(self).heapv()[ptr_ix(old(self).rootsv()[tup.index()])]),
                fields: fields_of(old(self).heapv()[ptr_ix(old(self).rootsv()[tup.index()])]).update(
                    i as int,
                    r,
                ),
            }),
    {
        let t = self.roots[tup.idx];
        let b = match t {
            Raw::Ptr(j) => j,
            Raw::Imm(_) => unreached(),
        };
        let ghost h1 = self.heapv();
        let ghost lf = self.live_start();
        let hn = self.heap.len();
        proof {
            assert(raw_ok(h1.len() as int, lf, old(self).rootsv()[tup.index()]));
            assert(h1[b as int] == self.heap@[b as int]@);
        }
        let nb = match &self.heap[b] {
            Block::Fields { tag, fields } => {
                let ghost fsv = fields@;
                let flen = fields.len();
                let mut nf: Vec<Raw> = Vec::new();
                let mut k: usize = 0;
                while k < flen
                    invariant
                        k <= flen,
                        i < flen,
                        flen == fsv.len(),
                        fields@ == fsv,
                        nf@.len() == k as int,
                        forall|m: int| 0 <= m < k ==> #[trigger] nf@[m] == fsv.update(i as int, r)[m],
                    decreases flen - k,
                {
                    if k == i {
                        nf.push(r);
                    } else {
                        nf.push(fields[k]);
                    }
                    k += 1;
                }
                proof {
                    assert(nf@ =~= fsv.update(i as int, r));
                }
                Block::Fields { tag: *tag, fields: nf }
            },
            _ => unreached(),
        };
        self.heap.set(b, nb);
        proof {
            let bi = b as int;
            let nbv = BlockV::Fields {
                tag: tag_of(h1[bi]),
                fields: fields_of(h1[bi]).update(i as int, r),
            };
            assert(self.heapv() =~= h1.update(bi, nbv));
            assert(block_ok(nbv, lf, bi)) by {
                assert(block_ok(h1[bi], lf, bi));
                assert forall|m: int|
                    0 <= m < fields_of(nbv).len() implies raw_ok(bi, lf, #[trigger] fields_of(
                    nbv,
                )[m]) by {
                    if m != i {
                        assert(fields_of(nbv)[m] == fields_of(h1[bi])[m]);
                        assert(raw_ok(bi, lf, fields_of(h1[bi])[m]));
                    }
                }
            }
            lemma_update_block(h1, lf, bi, nbv);
            assert forall|k: int| 0 <= k < self.rootsv().len() implies raw_ok(
                self.heapv().len() as int,
                self.live_start(),
                #[trigger] self.rootsv()[k],
            ) by {
                assert(raw_ok(h1.len() as int, lf, old(self).rootsv()[k]));
                assert(self.rootsv()[k] == old(self).rootsv()[k]);
            }
            lemma_decode_fields_at(h1, lf, bi);
            lemma_decode_fields_at(self.heapv(), lf, bi);
            assert(self.heapv()[bi] == nbv);
            let oldfs = fields_of(h1[bi]);
            let newfs = fields_of(nbv);
            assert(newfs == oldfs.update(i as int, r));
            assert(Seq::new(newfs.len(), |m: int| decode(self.heapv(), newfs[m])) =~= Seq::new(
                oldfs.len(),
                |m: int| decode(h1, oldfs[m]),
            ).update(i as int, decode(h1, r))) by {
                assert forall|m: int|
                    0 <= m < newfs.len() implies decode(self.heapv(), #[trigger] newfs[m]) == (
                if m == i {
                    decode(h1, r)
                } else {
                    decode(h1, oldfs[m])
                }) by {
                    if m == i {
                        assert(newfs[m] == r);
                        assert(raw_ok(bi, lf, r));
                        assert(decode(self.heapv(), r) == decode(h1, r));
                    } else {
                        assert(newfs[m] == oldfs[m]);
                        assert(raw_ok(bi, lf, oldfs[m]));
                        assert(decode(self.heapv(), oldfs[m]) == decode(h1, oldfs[m]));
                    }
                }
            }
        }
    }

    /// Tells an immediate from a pointer by the value alone, without any
    /// heap access.
    pub fn is_immediate(&self, r: Raw) -> (b: bool)
        ensures
            b == (r is Imm),
    {
        match r {
            Raw::Imm(_) => true,
            Raw::Ptr(_) => false,
        }
    }

    /// Decodes an immediate into its host integer; no heap access, and
    /// nothing here can dangle.
    pub fn read_int(&self, r: Raw) -> (n: i64)
        requires
            (r is Imm),
        ensures
            r == Raw::Imm(n),
            self.read(r) == Val::Imm(n),
    {
        match r {
            Raw::Imm(n) => n,
            Raw::Ptr(_) => unreached(),
        }
    }

    /// Reads the tag out of a pointed-to block header.
    pub fn read_tag(&self, r: Raw) -> (t: u8)
        requires
            self.wf(),
            self.val_ok(r),
            (r is Ptr),
            (self.heapv()[ptr_ix(r)] is Fields),
        ensures
            t == tag_of(self.heapv()[ptr_ix(r)]),
            (self.read(r) is Blk),
            blk_tag(self.read(r)) == t,
    {
        let j = match r {
            Raw::Ptr(j) => j,
            Raw::Imm(_) => unreached(),
        };
        let hn = self.heap.len();
        proof {
            assert(self.heapv()[j as int] == self.heap@[j as int]@);
            lemma_decode_fields_at(self.heapv(), self.live_start(), j as int);
        }
        match &self.heap[j] {
            Block::Fields { tag, .. } => *tag,
            _ => unreached(),
        }
    }

    /// Reads the element count out of a pointed-to block header.
    pub fn field_count(&self, r: Raw) -> (n: usize)
        requires
            self.wf(),
            self.val_ok(r),
            (r is Ptr),
            (self.heapv()[ptr_ix(r)] is Fields),
        ensures
            n as int == fields_of(self.heapv()[ptr_ix(r)]).len(),
            (self.read(r) is Blk),
            blk_items(self.read(r)).len() == n as int,
    {
        let j = match r {
            Raw::Ptr(j) => j,
            Raw::Imm(_) => unreached(),
        };
        let hn = self.heap.len();
        proof {
            assert(self.heapv()[j as int] == self.heap@[j as int]@);
            lemma_decode_fields_at(self.heapv(), self.live_start(), j as int);
        }
        match &self.heap[j] {
            Block::Fields { fields, .. } => fields.len(),
            _ => unreached(),
        }
    }

    /// Reads one raw field out of a pointed-to block: an ephemeral value,
    /// valid until the next allocation primitive.
    pub fn read_field(&self, r: Raw, i: usize) -> (f: Raw)
        requires
            self.wf(),
            self.val_ok(r),
            (r is Ptr),
            (self.heapv()[ptr_ix(r)] is Fields),
            i < fields_of(self.heapv()[ptr_ix(r)]).len(),
        ensures
            f == fields_of(self.heapv()[ptr_ix(r)])[i as int],
            self.val_ok(f),
            (self.read(r) is Blk),
            blk_items(self.read(r)).len() == fields_of(self.heapv()[ptr_ix(r)]).len(),
            blk_items(self.read(r))[i as int] == self.read(f),
    {
        let j = match r {
            Raw::Ptr(j) => j,
            Raw::Imm(_) => unreached(),
        };
        let hn = self.heap.len();
        proof {
            assert(self.heapv()[j as int] == self.heap@[j as int]@);
            lemma_decode_fields_at(self.heapv(), self.live_start(), j as int);
            assert(block_ok(self.heapv()[j as int], self.live_start(), j as int));
        }
        match &self.heap[j] {
            Block::Fields { fields, .. } => fields[i],
            _ => unreached(),
        }
    }

    /// Copies the contents of a byte block back out to the host.
    pub fn read_bytes(&self, r: Raw) -> (out: Vec<u8>)
        requires
            self.wf(),
            self.val_ok(r),
            (r is Ptr),
            (self.heapv()[ptr_ix(r)] is Bytes),
        ensures
            self.read(r) == Val::Bytes(out@),
    {
        let j = match r {
            Raw::Ptr(j) => j,
            Raw::Imm(_) => unreached(),
        };
        proof {
            assert(self.heapv()[j as int] == self.heap@[j as int]@);
            assert(self.read(r) == data_val(self.heapv()[j as int]));
        }
        match &self.heap[j] {
            Block::Bytes { data } => copy_bytes(data),
            _ => unreached(),
        }
    }

    /// Reads a boxed 32-bit integer back out.
    pub fn read_box_i32(&self, r: Raw) -> (v: i32)
        requires
            self.wf(),
            self.val_ok(r),
            (r is Ptr),
            (self.heapv()[ptr_ix(r)] is BoxI32),
        ensures
            self.read(r) == Val::BoxI32(v),
    {
        let j = match r {
            Raw::Ptr(j) => j,
            Raw::Imm(_) => unreached(),
        };
        proof {
            assert(self.heapv()[j as int] == self.heap@[j as int]@);
            assert(self.read(r) == data_val(self.heapv()[j as int]));
        }
        match &self.heap[j] {
            Block::BoxI32 { v } => *v,
            _ => unreached(),
        }
    }

    /// Reads a boxed 64-bit integer back out.
    pub fn read_box_i64(&self, r: Raw) -> (v: i64)
        requires
            self.wf(),
            self.val_ok(r),
            (r is Ptr),
            (self.heapv()[ptr_ix(r)] is BoxI64),
        ensures
            self.read(r) == Val::BoxI64(v),
    {
        let j = match r {
            Raw::Ptr(j) => j,
            Raw::Imm(_) => unreached(),
        };
        proof {
            assert(self.heapv()[j as int] == self.heap@[j as int]@);
            assert(self.read(r) == data_val(self.heapv()[j as int]));
        }
        match &self.heap[j] {
            Block::BoxI64 { v } => *v,
            _ => unreached(),
        }
    }

    /// Reads a boxed floating-point bit pattern back out.
    pub fn read_box_f64_bits(&self, r: Raw) -> (bits: u64)
        requires
            self.wf(),
            self.val_ok(r),
            (r is Ptr),
            (self.heapv()[ptr_ix(r)] is BoxF64),
        ensures
            self.read(r) == Val::BoxF64(bits),
    {
        let j = match r {
            Raw::Ptr(j) => j,
            Raw::Imm(_) => unreached(),
        };
        proof {
            assert(self.heapv()[j as int] == self.heap@[j as int]@);
            assert(self.read(r) == data_val(self.heapv()[j as int]));
        }
        match &self.heap[j] {
            Block::BoxF64 { bits } => *bits,
            _ => unreached(),
        }
    }

    /// Copies the element words of a numeric array block back out.
    pub fn read_num_array(&self, r: Raw) -> (out: Vec<u64>)
        requires
            self.wf(),
            self.val_ok(r),
            (r is Ptr),
            (self.heapv()[ptr_ix(r)] is NumArr),
        ensures
            self.read(r) == Val::NumArr(out@),
    {
        let j = match r {
            Raw::Ptr(j) => j,
            Raw::Imm(_) => unreached(),
        };
        proof {
            assert(self.heapv()[j as int] == self.heap@[j as int]@);
            assert(self.read(r) == data_val(self.heapv()[j as int]));
        }
        match &self.heap[j] {
            Block::NumArr { elems } => copy_u64s(elems),
            _ => unreached(),
        }
    }

    /// Copies the block at `i` into the fresh half-space form: pointer
    /// fields move by the cycle's displacement, flat data is copied.
    fn shift_block_exec(&self, i: usize) -> (out: Block)
        requires
            heap_ok(self.heapv(), self.live_start()),
            self.live_start() <= i < self.heapv().len(),
        ensures
            out@ == shift_block(
                self.heapv()[i as int],
                (if self.live_start() == 0 { 1int } else { 0int }) - self.live_start(),
            ),
    {
        let lf = self.live_from;
        let pad: usize = if lf == 0 {
            1
        } else {
            0
        };
        let ghost d: int = pad - lf;
        let len = self.heap.len();
        proof {
            assert(block_ok(self.heapv()[i as int], lf as int, i as int));
            assert(self.heapv()[i as int] == self.heap@[i as int]@);
        }
        match &self.heap[i] {
            Block::Fields { tag, fields } => {
                let ghost fsv = fields@;
                let mut nf: Vec<Raw> = Vec::new();
                let n = fields.len();
                let mut k: usize = 0;
                while k < n
                    invariant
                        n == fsv.len(),
                        k <= n,
                        pad <= 1,
                        d == pad - lf,
                        0 <= lf as int + d,
                        i < len,
                        forall|m: int| 0 <= m < n ==> raw_ok(i as int, lf as int, #[trigger] fsv[m]),
                        nf@.len() == k,
                        forall|m: int| 0 <= m < k ==> #[trigger] nf@[m] == shift_raw(fsv[m], d),
                        fields@ == fsv,
                    decreases n - k,
                {
                    let f = fields[k];
                    let moved = shift_raw_exec(f, lf, pad, i, Ghost(d));
                    nf.push(moved);
                    k += 1;
                }
                proof {
                    assert(nf@ =~= Seq::new(fsv.len(), |m: int| shift_raw(fsv[m], d)));
                }
                Block::Fields { tag: *tag, fields: nf }
            },
            Block::Bytes { data } => Block::Bytes { data: copy_bytes(data) },
            Block::BoxI32 { v } => Block::BoxI32 { v: *v },
            Block::BoxI64 { v } => Block::BoxI64 { v: *v },
            Block::BoxF64 { bits } => Block::BoxF64 { bits: *bits },
            Block::NumArr { elems } => Block::NumArr { elems: copy_u64s(elems) },
        }
    }
}

/// Moves one raw value by the displacement of a collection cycle.
fn shift_raw_exec(r: Raw, lf: usize, pad: usize, hi: usize, d: Ghost<int>) -> (out: Raw)
    requires
        pad <= 1,
        d@ == pad - lf,
        raw_ok(hi as int, lf as int, r),
    ensures
        out == shift_raw(r, d@),
{
    match r {
        Raw::Imm(n) => Raw::Imm(n),
        Raw::Ptr(j) => {
            let j2 = j - lf + pad;
            proof {
                assert((j as int + d@) as usize as int == j as int + d@);
            }
            Raw::Ptr(j2)
        },
    }
}

/// Copies a byte vector.
fn copy_bytes(v: &Vec<u8>) -> (out: Vec<u8>)
    ensures
        out@ == v@,
{
    let mut out: Vec<u8> = Vec::new();
    let n = v.len();
    let mut k: usize = 0;
    while k < n
        invariant
            n == v@.len(),
            k <= n,
            out@ == v@.subrange(0, k as int),
        decreases n - k,
    {
        out.push(v[k]);
        proof {
            assert(out@ =~= v@.subrange(0, k as int + 1));
        }
        k += 1;
    }
    proof {
        assert(out@ =~= v@);
    }
    out
}

/// Copies a vector of element words.
fn copy_u64s(v: &Vec<u64>) -> (out: Vec<u64>)
    ensures
        out@ == v@,
{
    let mut out: Vec<u64> = Vec::new();
    let n = v.len();
    let mut k: usize = 0;
    while k < n
        invariant
            n == v@.len(),
            k <= n,
            out@ == v@.subrange(0, k as int),
        decreases n - k,
    {
        out.push(v[k]);
        proof {
            assert(out@ =~= v@.subrange(0, k as int + 1));
        }
        k += 1;
    }
    proof {
        assert(out@ =~= v@);
    }
    out
}


/// Copies host bytes out of a borrowed slice.
fn copy_byte_slice(s: &[u8]) -> (out: Vec<u8>)
    ensures
        out@ == s@,
{
    let mut out: Vec<u8> = Vec::new();
    let n = s.len();
    let mut k: usize = 0;
    while k < n
        invariant
            n == s@.len(),
            k <= n,
            out@ == s@.subrange(0, k as int),
        decreases n - k,
    {
        out.push(s[k]);
        proof {
            assert(out@ =~= s@.subrange(0, k as int + 1));
        }
        k += 1;
    }
    proof {
        assert(out@ =~= s@);
    }
    out
}

/// Copies host element words out of a borrowed slice.
fn copy_u64_slice(s: &[u64]) -> (out: Vec<u64>)
    ensures
        out@ == s@,
{
    let mut out: Vec<u64> = Vec::new();
    let n = s.len();
    let mut k: usize = 0;
    while k < n
        invariant
            n == s@.len(),
            k <= n,
            out@ == s@.subrange(0, k as int),
        decreases n - k,
    {
        out.push(s[k]);
        proof {
            assert(out@ =~= s@.subrange(0, k as int + 1));
        }
        k += 1;
    }
    proof {
        assert(out@ =~= s@);
    }
    out
}

/// Chains the collection trigger and an appended block into the session
/// frame: roots that were live before keep their abstract values.
proof fn lemma_alloc_frame(pre: OCamlRuntime, mid: OCamlRuntime, post: OCamlRuntime)
    requires
        mid.wf(),
        mid.auto_collect() == pre.auto_collect(),
        mid.rootsv().len() == pre.rootsv().len(),
        forall|i: int| 0 <= i < pre.depth() ==> mid.root_val(i) == pre.root_val(i),
        post.rootsv() == mid.rootsv(),
        post.auto_collect() == mid.auto_collect(),
        forall|x: Raw| mid.val_ok(x) ==> post.read(x) == #[trigger] mid.read(x),
    ensures
        post.keeps_roots_of(pre),
{
    assert forall|i: int| 0 <= i < pre.depth() implies post.root_val(i) == pre.root_val(i) by {
        assert(raw_ok(mid.heapv().len() as int, mid.live_start(), mid.rootsv()[i]));
        assert(post.read(mid.rootsv()[i]) == mid.read(mid.rootsv()[i]));
        assert(post.rootsv()[i] == mid.rootsv()[i]);
    }
}

/// Every root points strictly below a block that sits at the top of the
/// store.
proof fn lemma_roots_bounded(mid: OCamlRuntime, post: OCamlRuntime, b: int)
    requires
        mid.wf(),
        post.rootsv() == mid.rootsv(),
        mid.heapv().len() <= b,
    ensures
        forall|k: int| 0 <= k < post.depth() ==> raw_bound(#[trigger] post.rootsv()[k]) <= b,
{
    assert forall|k: int| 0 <= k < post.depth() implies raw_bound(#[trigger] post.rootsv()[k])
        <= b by {
        assert(raw_ok(mid.heapv().len() as int, mid.live_start(), mid.rootsv()[k]));
        assert(post.rootsv()[k] == mid.rootsv()[k]);
    }
}

} // verus!
