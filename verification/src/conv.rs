//! Conversion from host values into the runtime's tagged representation,
//! and the reverse readings the round-trip laws rest on.
//!
//! Every composite conversion obeys the root-before-allocate rule: a
//! sub-value produced earlier is captured in a root before the allocation
//! that combines it, because that allocation may run a collection cycle
//! that moves everything not rooted.

use vstd::prelude::*;

use crate::heap::{fields_of, lemma_decode_inv, ptr_ix, raw_bound, raw_ok, tag_of};
use crate::runtime::{BoxRoot, OCamlRuntime};
use crate::value::{blk_items, blk_tag, lemma_list_v_inj, list_v, Raw, Val};

verus! {

/// Conversion of a host value into the runtime's representation. The
/// contract carries the whole safety story: the conversion returns a valid
/// value that reads as the host value's abstract form, keeps every root
/// that existed before it at its prior abstract value, and leaves the root
/// stack at its prior depth.
pub trait IntoOCaml {
    /// The abstract form this host value converts to.
    spec fn abs(&self) -> Val;

    /// Converts to an ephemeral value: valid until the next allocation.
    fn to_ocaml(&self, rt: &mut OCamlRuntime) -> (r: Raw)
        requires
            old(rt).wf(),
        ensures
            final(rt).wf(),
            final(rt).keeps_roots_of(*old(rt)),
            final(rt).val_ok(r),
            final(rt).read(r) == self.abs(),
    ;

    /// Converts and roots the result, so it survives later allocations.
    fn to_boxroot(&self, rt: &mut OCamlRuntime) -> (root: BoxRoot)
        requires
            old(rt).wf(),
        ensures
            final(rt).wf(),
            final(rt).depth() == old(rt).depth() + 1,
            final(rt).auto_collect() == old(rt).auto_collect(),
            forall|i: int|
                0 <= i < old(rt).depth() ==> final(rt).root_val(i) == old(rt).root_val(i),
            root.index() == old(rt).depth(),
            final(rt).root_val(root.index()) == self.abs(),
    {
        let r = self.to_ocaml(rt);
        rt.acquire_root(r)
    }
}

impl IntoOCaml for () {
    /// Unit is the reserved immediate `0`.
    open spec fn abs(&self) -> Val {
        Val::Imm(0)
    }

    fn to_ocaml(&self, rt: &mut OCamlRuntime) -> (r: Raw) {
        Raw::Imm(0)
    }
}

impl IntoOCaml for i64 {
    /// A host integer is an immediate: no allocation at all.
    open spec fn abs(&self) -> Val {
        Val::Imm(*self)
    }

    fn to_ocaml(&self, rt: &mut OCamlRuntime) -> (r: Raw) {
        Raw::Imm(*self)
    }
}

impl IntoOCaml for i32 {
    /// A narrower host integer widens into the same immediate shape.
    open spec fn abs(&self) -> Val {
        Val::Imm(*self as i64)
    }

    fn to_ocaml(&self, rt: &mut OCamlRuntime) -> (r: Raw) {
        Raw::Imm(*self as i64)
    }
}

impl IntoOCaml for bool {
    /// Booleans are the immediates `0` and `1`.
    open spec fn abs(&self) -> Val {
        Val::Imm(
            if *self {
                1
            } else {
                0
            },
        )
    }

    fn to_ocaml(&self, rt: &mut OCamlRuntime) -> (r: Raw) {
        if *self {
            Raw::Imm(1)
        } else {
            Raw::Imm(0)
        }
    }
}

/// A host byte buffer (also the carrier for text, kept lossless: arbitrary
/// bytes round-trip unchanged, and a caller holding text validates it on
/// the host side).
pub struct ByteBuf {
    pub data: Vec<u8>,
}

impl IntoOCaml for ByteBuf {
    open spec fn abs(&self) -> Val {
        Val::Bytes(self.data@)
    }

    fn to_ocaml(&self, rt: &mut OCamlRuntime) -> (r: Raw) {
        rt.alloc_bytes(self.data.as_slice())
    }
}

/// A host floating-point number carried as its IEEE bit pattern, so that
/// every value - the non-finite ones included - round-trips bitwise.
pub struct FloatBits {
    pub bits: u64,
}

impl IntoOCaml for FloatBits {
    open spec fn abs(&self) -> Val {
        Val::BoxF64(self.bits)
    }

    fn to_ocaml(&self, rt: &mut OCamlRuntime) -> (r: Raw) {
        rt.alloc_double(self.bits)
    }
}

/// A host 32-bit integer destined for the boxed 32-bit shape.
pub struct BoxedInt32 {
    pub v: i32,
}

impl IntoOCaml for BoxedInt32 {
    open spec fn abs(&self) -> Val {
        Val::BoxI32(self.v)
    }

    fn to_ocaml(&self, rt: &mut OCamlRuntime) -> (r: Raw) {
        rt.alloc_int32(self.v)
    }
}

/// A host 64-bit integer destined for the boxed 64-bit shape.
pub struct BoxedInt64 {
    pub v: i64,
}

impl IntoOCaml for BoxedInt64 {
    open spec fn abs(&self) -> Val {
        Val::BoxI64(self.v)
    }

    fn to_ocaml(&self, rt: &mut OCamlRuntime) -> (r: Raw) {
        rt.alloc_int64(self.v)
    }
}

impl<A: IntoOCaml> IntoOCaml for Box<A> {
    /// An indirect host value converts as its referent: no extra layer.
    open spec fn abs(&self) -> Val {
        (**self).abs()
    }

    fn to_ocaml(&self, rt: &mut OCamlRuntime) -> (r: Raw) {
        (**self).to_ocaml(rt)
    }
}

impl<A: IntoOCaml> IntoOCaml for Option<A> {
    /// Absent is a reserved immediate; present wraps the rooted inner value
    /// in a one-field block.
    open spec fn abs(&self) -> Val {
        match self {
            Option::None => Val::Imm(0),
            Option::Some(a) => Val::Blk { tag: 0, items: seq![a.abs()] },
        }
    }

    fn to_ocaml(&self, rt: &mut OCamlRuntime) -> (r: Raw)
        ensures
            (self is None) ==> *final(rt) == *old(rt) && r == Raw::Imm(0),
    {
        match self {
            Option::None => Raw::Imm(0),
            Option::Some(a) => {
                let root = a.to_boxroot(rt);
                let r = rt.alloc_some(&root);
                rt.release_root(root);
                r
            },
        }
    }
}

impl<A: IntoOCaml, E: IntoOCaml> IntoOCaml for Result<A, E> {
    /// Success and failure both wrap their rooted payload; the tag tells
    /// them apart.
    open spec fn abs(&self) -> Val {
        match self {
            Result::Ok(a) => Val::Blk { tag: 0, items: seq![a.abs()] },
            Result::Err(e) => Val::Blk { tag: 1, items: seq![e.abs()] },
        }
    }

    fn to_ocaml(&self, rt: &mut OCamlRuntime) -> (r: Raw) {
        match self {
            Result::Ok(a) => {
                let root = a.to_boxroot(rt);
                let r = rt.alloc_ok(&root);
                rt.release_root(root);
                r
            },
            Result::Err(e) => {
                let root = e.to_boxroot(rt);
                let r = rt.alloc_error(&root);
                rt.release_root(root);
                r
            },
        }
    }
}

impl<A: IntoOCaml> IntoOCaml for Vec<A> {
    /// A host sequence converts to the order-preserving linked list of its
    /// elements' conversions.
    open spec fn abs(&self) -> Val {
        list_v(self@.map_values(|a: A| a.abs()))
    }

    /// Tail-first construction: walk the host sequence backwards, root each
    /// converted element, allocate a cons cell from it and the reused tail
    /// root, then overwrite that same root with the new cell. One root slot
    /// carries the whole loop, however long the list.
    fn to_ocaml(&self, rt: &mut OCamlRuntime) -> (r: Raw) {
        let ghost absq = self@.map_values(|a: A| a.abs());
        let ghost base = old(rt).depth();
        let tail = rt.acquire_root(Raw::Imm(0));
        let mut i = self.len();
        proof {
            assert(absq.subrange(i as int, absq.len() as int) =~= Seq::<Val>::empty());
        }
        while i > 0
            invariant
                rt.wf(),
                rt.auto_collect() == old(rt).auto_collect(),
                base == old(rt).depth(),
                rt.depth() == base + 1,
                tail.index() == base,
                forall|q: int| 0 <= q < base ==> rt.root_val(q) == old(rt).root_val(q),
                i <= self@.len(),
                absq.len() == self@.len(),
                absq == self@.map_values(|a: A| a.abs()),
                rt.root_val(base) == list_v(absq.subrange(i as int, absq.len() as int)),
            decreases i,
        {
            i -= 1;
            let er = self[i].to_boxroot(rt);
            let cons = rt.alloc_cons(&er, &tail);
            let ghost s2 = *rt;
            rt.release_root(er);
            rt.update_root(&tail, cons);
            proof {
                let rest = absq.subrange(i as int + 1, absq.len() as int);
                let whole = absq.subrange(i as int, absq.len() as int);
                assert(whole.len() > 0);
                assert(whole[0] == absq[i as int]);
                assert(whole.drop_first() =~= rest);
                assert(absq[i as int] == self@[i as int].abs());
                assert(s2.read(cons) == (Val::Blk { tag: 0, items: seq![absq[i as int], list_v(rest)] }));
                assert(rt.read(cons) == s2.read(cons));
                assert(rt.root_val(base) == list_v(whole));
            }
        }
        let out = rt.borrow_root(&tail);
        rt.release_root(tail);
        proof {
            assert(absq.subrange(0, absq.len() as int) =~= absq);
        }
        out
    }
}

/// Combines the top `n` roots into a fresh `n`-field tuple block and
/// releases them. The fields were all converted and rooted before the one
/// allocation here, so the block is filled by consecutive raw stores with
/// nothing able to trigger a cycle while any field is still unset; field
/// order is ascending position order, exactly the order of the roots.
pub fn alloc_tuple_from_roots(rt: &mut OCamlRuntime, ids: Vec<BoxRoot>) -> (r: Raw)
    requires
        old(rt).wf(),
        ids@.len() >= 1,
        ids@.len() <= old(rt).depth(),
        forall|k: int|
            0 <= k < ids@.len() ==> (#[trigger] ids@[k].index()) == old(rt).depth() - ids@.len()
                + k,
    ensures
        final(rt).wf(),
        final(rt).depth() == old(rt).depth() - ids@.len(),
        final(rt).auto_collect() == old(rt).auto_collect(),
        forall|i: int|
            0 <= i < old(rt).depth() - ids@.len() ==> final(rt).root_val(i) == old(rt).root_val(i),
        final(rt).val_ok(r),
        final(rt).read(r) == (Val::Blk {
            tag: 0,
            items: Seq::new(
                ids@.len(),
                |k: int| old(rt).root_val(old(rt).depth() - ids@.len() + k),
            ),
        }),
{
    let ghost d0 = old(rt).depth();
    let ghost nn = ids@.len() as int;
    let n = ids.len();
    let t = rt.alloc_tuple(n);
    let ghost sa = *rt;
    let troot = rt.acquire_root(t);
    let ghost s1 = *rt;
    proof {
        assert(s1.rootsv() == sa.rootsv().push(t));
        assert(s1.rootsv()[troot.index()] == t);
        assert forall|m: int| 0 <= m < d0 implies raw_bound(#[trigger] s1.rootsv()[m])
            <= ptr_ix(t) by {
            assert(s1.rootsv()[m] == sa.rootsv()[m]);
            assert(raw_bound(sa.rootsv()[m]) <= ptr_ix(t));
        }
        assert(s1.read(t) == (Val::Blk { tag: 0, items: Seq::new(nn as nat, |m: int| Val::Imm(0)) }));
    }
    let mut k: usize = 0;
    proof {
        assert(Seq::new(
            nn as nat,
            |m: int|
                if m < k {
                    s1.root_val(ids@[m].index())
                } else {
                    Val::Imm(0)
                },
        ) =~= Seq::new(nn as nat, |m: int| Val::Imm(0)));
    }
    while k < n
        invariant
            rt.wf(),
            n as int == nn,
            1 <= nn <= d0,
            k <= n,
            d0 == old(rt).depth(),
            s1.wf(),
            s1.depth() == d0 + 1,
            rt.auto_collect() == s1.auto_collect(),
            rt.rootsv() == s1.rootsv(),
            rt.live_start() == s1.live_start(),
            rt.heapv().len() == s1.heapv().len(),
            troot.index() == d0,
            (t is Ptr),
            s1.rootsv()[d0] == t,
            ids@.len() == nn,
            forall|m: int| 0 <= m < nn ==> (#[trigger] ids@[m].index()) == d0 - nn + m,
            (rt.heapv()[ptr_ix(t)] is Fields),
            fields_of(rt.heapv()[ptr_ix(t)]).len() == nn,
            forall|m: int|
                0 <= m < d0 ==> raw_bound(#[trigger] s1.rootsv()[m]) <= ptr_ix(t),
            forall|x: Raw| raw_ok(ptr_ix(t), s1.live_start(), x) ==> rt.read(x) == #[trigger] s1.read(x),
            rt.read(t) == (Val::Blk {
                tag: 0,
                items: Seq::new(
                    nn as nat,
                    |m: int|
                        if m < k {
                            s1.root_val(ids@[m].index())
                        } else {
                            Val::Imm(0)
                        },
                ),
            }),
        decreases n - k,
    {
        let fr = rt.borrow_root(&ids[k]);
        let ghost sk = *rt;
        proof {
            assert(raw_bound(s1.rootsv()[ids@[k as int].index()]) <= ptr_ix(t));
            assert(raw_ok(ptr_ix(t), s1.live_start(), fr)) by {
                assert(raw_ok(rt.heapv().len() as int, rt.live_start(), fr));
            }
            assert(rt.read(fr) == s1.read(fr));
            assert(s1.read(fr) == s1.root_val(ids@[k as int].index()));
        }
        rt.store_raw_field_at(&troot, k, fr);
        proof {
            assert(rt.rootsv() == sk.rootsv());
            assert forall|x: Raw| raw_ok(ptr_ix(t), s1.live_start(), x) implies rt.read(x)
                == #[trigger] s1.read(x) by {
                assert(rt.read(x) == sk.read(x));
            }
            assert(rt.read(t) == (Val::Blk {
                tag: 0,
                items: blk_items(sk.read(t)).update(k as int, sk.read(fr)),
            }));
            assert(Seq::new(
                nn as nat,
                |m: int|
                    if m < k {
                        s1.root_val(ids@[m].index())
                    } else {
                        Val::Imm(0)
                    },
            ).update(k as int, s1.root_val(ids@[k as int].index())) =~= Seq::new(
                nn as nat,
                |m: int|
                    if m < k + 1 {
                        s1.root_val(ids@[m].index())
                    } else {
                        Val::Imm(0)
                    },
            ));
        }
        k += 1;
    }
    proof {
        assert(Seq::new(
            nn as nat,
            |m: int|
                if m < k {
                    s1.root_val(ids@[m].index())
                } else {
                    Val::Imm(0)
                },
        ) =~= Seq::new(nn as nat, |m: int| s1.root_val(ids@[m].index())));
    }
    let out = rt.borrow_root(&troot);
    rt.release_root(troot);
    let ghost s3 = *rt;
    proof {
        assert(s3.rootsv() =~= s1.rootsv().drop_last());
        assert(s3.read(out) == (Val::Blk {
            tag: 0,
            items: Seq::new(
                nn as nat,
                |m: int| s1.root_val(ids@[m].index()),
            ),
        }));
    }
    let ghost ids0 = ids@;
    let mut ids = ids;
    let mut m = n;
    proof {
        assert(rt.rootsv() =~= s3.rootsv().take(d0 - nn + m as int));
    }
    while m > 0
        invariant
            rt.wf(),
            m <= n,
            n as int == nn,
            1 <= nn <= d0,
            d0 == old(rt).depth(),
            rt.auto_collect() == s3.auto_collect(),
            rt.heapv() == s3.heapv(),
            rt.live_start() == s3.live_start(),
            s3.rootsv().len() == d0,
            ids@.len() == m as int,
            ids@ == ids0.take(m as int),
            rt.rootsv() == s3.rootsv().take(d0 - nn + m as int),
            forall|q: int| 0 <= q < ids0.len() ==> (#[trigger] ids0[q].index()) == d0 - nn + q,
            ids0.len() == nn,
        decreases m,
    {
        m -= 1;
        let id = match ids.pop() {
            Option::Some(id) => id,
            Option::None => vstd::pervasive::unreached(),
        };
        proof {
            assert(id == ids0[m as int]);
            assert(id.index() == d0 - nn + m as int);
            assert(rt.rootsv().len() == d0 - nn + m + 1);
            assert(ids@ =~= ids0.take(m as int));
        }
        rt.release_root(id);
        proof {
            assert(rt.rootsv() =~= s3.rootsv().take(d0 - nn + m as int));
        }
    }
    proof {
        assert(rt.rootsv() =~= s3.rootsv().take(d0 - nn));
        assert forall|i: int| 0 <= i < d0 - nn implies rt.root_val(i) == old(rt).root_val(i) by {
            assert(rt.rootsv()[i] == s3.rootsv()[i]);
            assert(s3.rootsv()[i] == s1.rootsv()[i]);
            assert(s3.read(s3.rootsv()[i]) == s1.read(s1.rootsv()[i])) by {
                assert(raw_bound(s1.rootsv()[i]) <= ptr_ix(t));
                assert(raw_ok(ptr_ix(t), s1.live_start(), s1.rootsv()[i])) by {
                    assert(raw_ok(s1.heapv().len() as int, s1.live_start(), s1.rootsv()[i]));
                }
            }
            assert(s1.root_val(i) == old(rt).root_val(i));
        }
        assert(rt.read(out) == s3.read(out));
        assert(Seq::new(nn as nat, |q: int| s1.root_val(ids0[q].index())) =~= Seq::new(
            nn as nat,
            |q: int| old(rt).root_val(d0 - nn + q),
        )) by {
            assert forall|q: int| 0 <= q < nn implies s1.root_val(#[trigger] ids0[q].index())
                == old(rt).root_val(d0 - nn + q) by {
                assert(ids0[q].index() == d0 - nn + q);
                assert(s1.root_val(d0 - nn + q) == old(rt).root_val(d0 - nn + q));
            }
        }
        assert(Seq::new(nn as nat, |q: int| old(rt).root_val(d0 - nn + q)) =~= Seq::new(
            ids0.len(),
            |q: int| old(rt).root_val(old(rt).depth() - ids0.len() + q),
        ));
    }
    out
}

impl<A: IntoOCaml, B: IntoOCaml> IntoOCaml for (A, B) {
    /// A fixed-arity tuple converts to one block whose fields keep the
    /// tuple's order.
    open spec fn abs(&self) -> Val {
        Val::Blk { tag: 0, items: seq![self.0.abs(), self.1.abs()] }
    }

    /// Every field is converted and rooted, in ascending position order,
    /// before the single tuple allocation; the raw stores that fill the
    /// block then run with nothing in between that could trigger a cycle.
    fn to_ocaml(&self, rt: &mut OCamlRuntime) -> (r: Raw) {
        let ghost d0 = old(rt).depth();
        let r0 = self.0.to_boxroot(rt);
        let r1 = self.1.to_boxroot(rt);
        let ghost sc = *rt;
        let mut ids: Vec<BoxRoot> = Vec::new();
        ids.push(r0);
        ids.push(r1);
        proof {
            assert(sc.depth() == d0 + 2);
            assert(ids@.len() == 2);
            assert(ids@[0].index() == d0 + 0);
            assert(ids@[1].index() == d0 + 1);
            assert(sc.root_val(d0 + 0) == self.0.abs());
            assert(sc.root_val(d0 + 1) == self.1.abs());
        }
        let r = alloc_tuple_from_roots(rt, ids);
        proof {
            assert(Seq::new(2, |q: int| sc.root_val(sc.depth() - 2 + q)) =~= seq![self.0.abs(), self.1.abs()]);
            assert forall|i: int| 0 <= i < d0 implies rt.root_val(i) == old(rt).root_val(i) by {
                assert(rt.root_val(i) == sc.root_val(i));
            }
        }
        r
    }
}

impl<A: IntoOCaml, B: IntoOCaml, C: IntoOCaml> IntoOCaml for (A, B, C) {
    /// A fixed-arity tuple converts to one block whose fields keep the
    /// tuple's order.
    open spec fn abs(&self) -> Val {
        Val::Blk { tag: 0, items: seq![self.0.abs(), self.1.abs(), self.2.abs()] }
    }

    /// Every field is converted and rooted, in ascending position order,
    /// before the single tuple allocation; the raw stores that fill the
    /// block then run with nothing in between that could trigger a cycle.
    fn to_ocaml(&self, rt: &mut OCamlRuntime) -> (r: Raw) {
        let ghost d0 = old(rt).depth();
        let r0 = self.0.to_boxroot(rt);
        let r1 = self.1.to_boxroot(rt);
        let r2 = self.2.to_boxroot(rt);
        let ghost sc = *rt;
        let mut ids: Vec<BoxRoot> = Vec::new();
        ids.push(r0);
        ids.push(r1);
        ids.push(r2);
        proof {
            assert(sc.depth() == d0 + 3);
            assert(ids@.len() == 3);
            assert(ids@[0].index() == d0 + 0);
            assert(ids@[1].index() == d0 + 1);
            assert(ids@[2].index() == d0 + 2);
            assert(sc.root_val(d0 + 0) == self.0.abs());
            assert(sc.root_val(d0 + 1) == self.1.abs());
            assert(sc.root_val(d0 + 2) == self.2.abs());
        }
        let r = alloc_tuple_from_roots(rt, ids);
        proof {
            assert(Seq::new(3, |q: int| sc.root_val(sc.depth() - 3 + q)) =~= seq![self.0.abs(), self.1.abs(), self.2.abs()]);
            assert forall|i: int| 0 <= i < d0 implies rt.root_val(i) == old(rt).root_val(i) by {
                assert(rt.root_val(i) == sc.root_val(i));
            }
        }
        r
    }
}

impl<A: IntoOCaml, B: IntoOCaml, C: IntoOCaml, D: IntoOCaml> IntoOCaml for (A, B, C, D) {
    /// A fixed-arity tuple converts to one block whose fields keep the
    /// tuple's order.
    open spec fn abs(&self) -> Val {
        Val::Blk { tag: 0, items: seq![self.0.abs(), self.1.abs(), self.2.abs(), self.3.abs()] }
    }

    /// Every field is converted and rooted, in ascending position order,
    /// before the single tuple allocation; the raw stores that fill the
    /// block then run with nothing in between that could trigger a cycle.
    fn to_ocaml(&self, rt: &mut OCamlRuntime) -> (r: Raw) {
        let ghost d0 = old(rt).depth();
        let r0 = self.0.to_boxroot(rt);
        let r1 = self.1.to_boxroot(rt);
        let r2 = self.2.to_boxroot(rt);
        let r3 = self.3.to_boxroot(rt);
        let ghost sc = *rt;
        let mut ids: Vec<BoxRoot> = Vec::new();
        ids.push(r0);
        ids.push(r1);
        ids.push(r2);
        ids.push(r3);
        proof {
            assert(sc.depth() == d0 + 4);
            assert(ids@.len() == 4);
            assert(ids@[0].index() == d0 + 0);
            assert(ids@[1].index() == d0 + 1);
            assert(ids@[2].index() == d0 + 2);
            assert(ids@[3].index() == d0 + 3);
            assert(sc.root_val(d0 + 0) == self.0.abs());
            assert(sc.root_val(d0 + 1) == self.1.abs());
            assert(sc.root_val(d0 + 2) == self.2.abs());
            assert(sc.root_val(d0 + 3) == self.3.abs());
        }
        let r = alloc_tuple_from_roots(rt, ids);
        proof {
            assert(Seq::new(4, |q: int| sc.root_val(sc.depth() - 4 + q)) =~= seq![self.0.abs(), self.1.abs(), self.2.abs(), self.3.abs()]);
            assert forall|i: int| 0 <= i < d0 implies rt.root_val(i) == old(rt).root_val(i) by {
                assert(rt.root_val(i) == sc.root_val(i));
            }
        }
        r
    }
}

impl<A: IntoOCaml, B: IntoOCaml, C: IntoOCaml, D: IntoOCaml, E: IntoOCaml> IntoOCaml for (A, B, C, D, E) {
    /// A fixed-arity tuple converts to one block whose fields keep the
    /// tuple's order.
    open spec fn abs(&self) -> Val {
        Val::Blk { tag: 0, items: seq![self.0.abs(), self.1.abs(), self.2.abs(), self.3.abs(), self.4.abs()] }
    }

    /// Every field is converted and rooted, in ascending position order,
    /// before the single tuple allocation; the raw stores that fill the
    /// block then run with nothing in between that could trigger a cycle.
    fn to_ocaml(&self, rt: &mut OCamlRuntime) -> (r: Raw) {
        let ghost d0 = old(rt).depth();
        let r0 = self.0.to_boxroot(rt);
        let r1 = self.1.to_boxroot(rt);
        let r2 = self.2.to_boxroot(rt);
        let r3 = self.3.to_boxroot(rt);
        let r4 = self.4.to_boxroot(rt);
        let ghost sc = *rt;
        let mut ids: Vec<BoxRoot> = Vec::new();
        ids.push(r0);
        ids.push(r1);
        ids.push(r2);
        ids.push(r3);
        ids.push(r4);
        proof {
            assert(sc.depth() == d0 + 5);
            assert(ids@.len() == 5);
            assert(ids@[0].index() == d0 + 0);
            assert(ids@[1].index() == d0 + 1);
            assert(ids@[2].index() == d0 + 2);
            assert(ids@[3].index() == d0 + 3);
            assert(ids@[4].index() == d0 + 4);
            assert(sc.root_val(d0 + 0) == self.0.abs());
            assert(sc.root_val(d0 + 1) == self.1.abs());
            assert(sc.root_val(d0 + 2) == self.2.abs());
            assert(sc.root_val(d0 + 3) == self.3.abs());
            assert(sc.root_val(d0 + 4) == self.4.abs());
        }
        let r = alloc_tuple_from_roots(rt, ids);
        proof {
            assert(Seq::new(5, |q: int| sc.root_val(sc.depth() - 5 + q)) =~= seq![self.0.abs(), self.1.abs(), self.2.abs(), self.3.abs(), self.4.abs()]);
            assert forall|i: int| 0 <= i < d0 implies rt.root_val(i) == old(rt).root_val(i) by {
                assert(rt.root_val(i) == sc.root_val(i));
            }
        }
        r
    }
}

impl<A: IntoOCaml, B: IntoOCaml, C: IntoOCaml, D: IntoOCaml, E: IntoOCaml, F: IntoOCaml> IntoOCaml for (A, B, C, D, E, F) {
    /// A fixed-arity tuple converts to one block whose fields keep the
    /// tuple's order.
    open spec fn abs(&self) -> Val {
        Val::Blk { tag: 0, items: seq![self.0.abs(), self.1.abs(), self.2.abs(), self.3.abs(), self.4.abs(), self.5.abs()] }
    }

    /// Every field is converted and rooted, in ascending position order,
    /// before the single tuple allocation; the raw stores that fill the
    /// block then run with nothing in between that could trigger a cycle.
    fn to_ocaml(&self, rt: &mut OCamlRuntime) -> (r: Raw) {
        let ghost d0 = old(rt).depth();
        let r0 = self.0.to_boxroot(rt);
        let r1 = self.1.to_boxroot(rt);
        let r2 = self.2.to_boxroot(rt);
        let r3 = self.3.to_boxroot(rt);
        let r4 = self.4.to_boxroot(rt);
        let r5 = self.5.to_boxroot(rt);
        let ghost sc = *rt;
        let mut ids: Vec<BoxRoot> = Vec::new();
        ids.push(r0);
        ids.push(r1);
        ids.push(r2);
        ids.push(r3);
        ids.push(r4);
        ids.push(r5);
        proof {
            assert(sc.depth() == d0 + 6);
            assert(ids@.len() == 6);
            assert(ids@[0].index() == d0 + 0);
            assert(ids@[1].index() == d0 + 1);
            assert(ids@[2].index() == d0 + 2);
            assert(ids@[3].index() == d0 + 3);
            assert(ids@[4].index() == d0 + 4);
            assert(ids@[5].index() == d0 + 5);
            assert(sc.root_val(d0 + 0) == self.0.abs());
            assert(sc.root_val(d0 + 1) == self.1.abs());
            assert(sc.root_val(d0 + 2) == self.2.abs());
            assert(sc.root_val(d0 + 3) == self.3.abs());
            assert(sc.root_val(d0 + 4) == self.4.abs());
            assert(sc.root_val(d0 + 5) == self.5.abs());
        }
        let r = alloc_tuple_from_roots(rt, ids);
        proof {
            assert(Seq::new(6, |q: int| sc.root_val(sc.depth() - 6 + q)) =~= seq![self.0.abs(), self.1.abs(), self.2.abs(), self.3.abs(), self.4.abs(), self.5.abs()]);
            assert forall|i: int| 0 <= i < d0 implies rt.root_val(i) == old(rt).root_val(i) by {
                assert(rt.root_val(i) == sc.root_val(i));
            }
        }
        r
    }
}

impl<A: IntoOCaml, B: IntoOCaml, C: IntoOCaml, D: IntoOCaml, E: IntoOCaml, F: IntoOCaml, G: IntoOCaml> IntoOCaml for (A, B, C, D, E, F, G) {
    /// A fixed-arity tuple converts to one block whose fields keep the
    /// tuple's order.
    open spec fn abs(&self) -> Val {
        Val::Blk { tag: 0, items: seq![self.0.abs(), self.1.abs(), self.2.abs(), self.3.abs(), self.4.abs(), self.5.abs(), self.6.abs()] }
    }

    /// Every field is converted and rooted, in ascending position order,
    /// before the single tuple allocation; the raw stores that fill the
    /// block then run with nothing in between that could trigger a cycle.
    fn to_ocaml(&self, rt: &mut OCamlRuntime) -> (r: Raw) {
        let ghost d0 = old(rt).depth();
        let r0 = self.0.to_boxroot(rt);
        let r1 = self.1.to_boxroot(rt);
        let r2 = self.2.to_boxroot(rt);
        let r3 = self.3.to_boxroot(rt);
        let r4 = self.4.to_boxroot(rt);
        let r5 = self.5.to_boxroot(rt);
        let r6 = self.6.to_boxroot(rt);
        let ghost sc = *rt;
        let mut ids: Vec<BoxRoot> = Vec::new();
        ids.push(r0);
        ids.push(r1);
        ids.push(r2);
        ids.push(r3);
        ids.push(r4);
        ids.push(r5);
        ids.push(r6);
        proof {
            assert(sc.depth() == d0 + 7);
            assert(ids@.len() == 7);
            assert(ids@[0].index() == d0 + 0);
            assert(ids@[1].index() == d0 + 1);
            assert(ids@[2].index() == d0 + 2);
            assert(ids@[3].index() == d0 + 3);
            assert(ids@[4].index() == d0 + 4);
            assert(ids@[5].index() == d0 + 5);
            assert(ids@[6].index() == d0 + 6);
            assert(sc.root_val(d0 + 0) == self.0.abs());
            assert(sc.root_val(d0 + 1) == self.1.abs());
            assert(sc.root_val(d0 + 2) == self.2.abs());
            assert(sc.root_val(d0 + 3) == self.3.abs());
            assert(sc.root_val(d0 + 4) == self.4.abs());
            assert(sc.root_val(d0 + 5) == self.5.abs());
            assert(sc.root_val(d0 + 6) == self.6.abs());
        }
        let r = alloc_tuple_from_roots(rt, ids);
        proof {
            assert(Seq::new(7, |q: int| sc.root_val(sc.depth() - 7 + q)) =~= seq![self.0.abs(), self.1.abs(), self.2.abs(), self.3.abs(), self.4.abs(), self.5.abs(), self.6.abs()]);
            assert forall|i: int| 0 <= i < d0 implies rt.root_val(i) == old(rt).root_val(i) by {
                assert(rt.root_val(i) == sc.root_val(i));
            }
        }
        r
    }
}

impl<A: IntoOCaml, B: IntoOCaml, C: IntoOCaml, D: IntoOCaml, E: IntoOCaml, F: IntoOCaml, G: IntoOCaml, H: IntoOCaml> IntoOCaml for (A, B, C, D, E, F, G, H) {
    /// A fixed-arity tuple converts to one block whose fields keep the
    /// tuple's order.
    open spec fn abs(&self) -> Val {
        Val::Blk { tag: 0, items: seq![self.0.abs(), self.1.abs(), self.2.abs(), self.3.abs(), self.4.abs(), self.5.abs(), self.6.abs(), self.7.abs()] }
    }

    /// Every field is converted and rooted, in ascending position order,
    /// before the single tuple allocation; the raw stores that fill the
    /// block then run with nothing in between that could trigger a cycle.
    fn to_ocaml(&self, rt: &mut OCamlRuntime) -> (r: Raw) {
        let ghost d0 = old(rt).depth();
        let r0 = self.0.to_boxroot(rt);
        let r1 = self.1.to_boxroot(rt);
        let r2 = self.2.to_boxroot(rt);
        let r3 = self.3.to_boxroot(rt);
        let r4 = self.4.to_boxroot(rt);
        let r5 = self.5.to_boxroot(rt);
        let r6 = self.6.to_boxroot(rt);
        let r7 = self.7.to_boxroot(rt);
        let ghost sc = *rt;
        let mut ids: Vec<BoxRoot> = Vec::new();
        ids.push(r0);
        ids.push(r1);
        ids.push(r2);
        ids.push(r3);
        ids.push(r4);
        ids.push(r5);
        ids.push(r6);
        ids.push(r7);
        proof {
            assert(sc.depth() == d0 + 8);
            assert(ids@.len() == 8);
            assert(ids@[0].index() == d0 + 0);
            assert(ids@[1].index() == d0 + 1);
            assert(ids@[2].index() == d0 + 2);
            assert(ids@[3].index() == d0 + 3);
            assert(ids@[4].index() == d0 + 4);
            assert(ids@[5].index() == d0 + 5);
            assert(ids@[6].index() == d0 + 6);
            assert(ids@[7].index() == d0 + 7);
            assert(sc.root_val(d0 + 0) == self.0.abs());
            assert(sc.root_val(d0 + 1) == self.1.abs());
            assert(sc.root_val(d0 + 2) == self.2.abs());
            assert(sc.root_val(d0 + 3) == self.3.abs());
            assert(sc.root_val(d0 + 4) == self.4.abs());
            assert(sc.root_val(d0 + 5) == self.5.abs());
            assert(sc.root_val(d0 + 6) == self.6.abs());
            assert(sc.root_val(d0 + 7) == self.7.abs());
        }
        let r = alloc_tuple_from_roots(rt, ids);
        proof {
            assert(Seq::new(8, |q: int| sc.root_val(sc.depth() - 8 + q)) =~= seq![self.0.abs(), self.1.abs(), self.2.abs(), self.3.abs(), self.4.abs(), self.5.abs(), self.6.abs(), self.7.abs()]);
            assert forall|i: int| 0 <= i < d0 implies rt.root_val(i) == old(rt).root_val(i) by {
                assert(rt.root_val(i) == sc.root_val(i));
            }
        }
        r
    }
}

impl<A: IntoOCaml, B: IntoOCaml, C: IntoOCaml, D: IntoOCaml, E: IntoOCaml, F: IntoOCaml, G: IntoOCaml, H: IntoOCaml, I: IntoOCaml> IntoOCaml for (A, B, C, D, E, F, G, H, I) {
    /// A fixed-arity tuple converts to one block whose fields keep the
    /// tuple's order.
    open spec fn abs(&self) -> Val {
        Val::Blk { tag: 0, items: seq![self.0.abs(), self.1.abs(), self.2.abs(), self.3.abs(), self.4.abs(), self.5.abs(), self.6.abs(), self.7.abs(), self.8.abs()] }
    }

    /// Every field is converted and rooted, in ascending position order,
    /// before the single tuple allocation; the raw stores that fill the
    /// block then run with nothing in between that could trigger a cycle.
    fn to_ocaml(&self, rt: &mut OCamlRuntime) -> (r: Raw) {
        let ghost d0 = old(rt).depth();
        let r0 = self.0.to_boxroot(rt);
        let r1 = self.1.to_boxroot(rt);
        let r2 = self.2.to_boxroot(rt);
        let r3 = self.3.to_boxroot(rt);
        let r4 = self.4.to_boxroot(rt);
        let r5 = self.5.to_boxroot(rt);
        let r6 = self.6.to_boxroot(rt);
        let r7 = self.7.to_boxroot(rt);
        let r8 = self.8.to_boxroot(rt);
        let ghost sc = *rt;
        let mut ids: Vec<BoxRoot> = Vec::new();
        ids.push(r0);
        ids.push(r1);
        ids.push(r2);
        ids.push(r3);
        ids.push(r4);
        ids.push(r5);
        ids.push(r6);
        ids.push(r7);
        ids.push(r8);
        proof {
            assert(sc.depth() == d0 + 9);
            assert(ids@.len() == 9);
            assert(ids@[0].index() == d0 + 0);
            assert(ids@[1].index() == d0 + 1);
            assert(ids@[2].index() == d0 + 2);
            assert(ids@[3].index() == d0 + 3);
            assert(ids@[4].index() == d0 + 4);
            assert(ids@[5].index() == d0 + 5);
            assert(ids@[6].index() == d0 + 6);
            assert(ids@[7].index() == d0 + 7);
            assert(ids@[8].index() == d0 + 8);
            assert(sc.root_val(d0 + 0) == self.0.abs());
            assert(sc.root_val(d0 + 1) == self.1.abs());
            assert(sc.root_val(d0 + 2) == self.2.abs());
            assert(sc.root_val(d0 + 3) == self.3.abs());
            assert(sc.root_val(d0 + 4) == self.4.abs());
            assert(sc.root_val(d0 + 5) == self.5.abs());
            assert(sc.root_val(d0 + 6) == self.6.abs());
            assert(sc.root_val(d0 + 7) == self.7.abs());
            assert(sc.root_val(d0 + 8) == self.8.abs());
        }
        let r = alloc_tuple_from_roots(rt, ids);
        proof {
            assert(Seq::new(9, |q: int| sc.root_val(sc.depth() - 9 + q)) =~= seq![self.0.abs(), self.1.abs(), self.2.abs(), self.3.abs(), self.4.abs(), self.5.abs(), self.6.abs(), self.7.abs(), self.8.abs()]);
            assert forall|i: int| 0 <= i < d0 implies rt.root_val(i) == old(rt).root_val(i) by {
                assert(rt.root_val(i) == sc.root_val(i));
            }
        }
        r
    }
}

impl<A: IntoOCaml, B: IntoOCaml, C: IntoOCaml, D: IntoOCaml, E: IntoOCaml, F: IntoOCaml, G: IntoOCaml, H: IntoOCaml, I: IntoOCaml, J: IntoOCaml> IntoOCaml for (A, B, C, D, E, F, G, H, I, J) {
    /// A fixed-arity tuple converts to one block whose fields keep the
    /// tuple's order.
    open spec fn abs(&self) -> Val {
        Val::Blk { tag: 0, items: seq![self.0.abs(), self.1.abs(), self.2.abs(), self.3.abs(), self.4.abs(), self.5.abs(), self.6.abs(), self.7.abs(), self.8.abs(), self.9.abs()] }
    }

    /// Every field is converted and rooted, in ascending position order,
    /// before the single tuple allocation; the raw stores that fill the
    /// block then run with nothing in between that could trigger a cycle.
    fn to_ocaml(&self, rt: &mut OCamlRuntime) -> (r: Raw) {
        let ghost d0 = old(rt).depth();
        let r0 = self.0.to_boxroot(rt);
        let r1 = self.1.to_boxroot(rt);
        let r2 = self.2.to_boxroot(rt);
        let r3 = self.3.to_boxroot(rt);
        let r4 = self.4.to_boxroot(rt);
        let r5 = self.5.to_boxroot(rt);
        let r6 = self.6.to_boxroot(rt);
        let r7 = self.7.to_boxroot(rt);
        let r8 = self.8.to_boxroot(rt);
        let r9 = self.9.to_boxroot(rt);
        let ghost sc = *rt;
        let mut ids: Vec<BoxRoot> = Vec::new();
        ids.push(r0);
        ids.push(r1);
        ids.push(r2);
        ids.push(r3);
        ids.push(r4);
        ids.push(r5);
        ids.push(r6);
        ids.push(r7);
        ids.push(r8);
        ids.push(r9);
        proof {
            assert(sc.depth() == d0 + 10);
            assert(ids@.len() == 10);
            assert(ids@[0].index() == d0 + 0);
            assert(ids@[1].index() == d0 + 1);
            assert(ids@[2].index() == d0 + 2);
            assert(ids@[3].index() == d0 + 3);
            assert(ids@[4].index() == d0 + 4);
            assert(ids@[5].index() == d0 + 5);
            assert(ids@[6].index() == d0 + 6);
            assert(ids@[7].index() == d0 + 7);
            assert(ids@[8].index() == d0 + 8);
            assert(ids@[9].index() == d0 + 9);
            assert(sc.root_val(d0 + 0) == self.0.abs());
            assert(sc.root_val(d0 + 1) == self.1.abs());
            assert(sc.root_val(d0 + 2) == self.2.abs());
            assert(sc.root_val(d0 + 3) == self.3.abs());
            assert(sc.root_val(d0 + 4) == self.4.abs());
            assert(sc.root_val(d0 + 5) == self.5.abs());
            assert(sc.root_val(d0 + 6) == self.6.abs());
            assert(sc.root_val(d0 + 7) == self.7.abs());
            assert(sc.root_val(d0 + 8) == self.8.abs());
            assert(sc.root_val(d0 + 9) == self.9.abs());
        }
        let r = alloc_tuple_from_roots(rt, ids);
        proof {
            assert(Seq::new(10, |q: int| sc.root_val(sc.depth() - 10 + q)) =~= seq![self.0.abs(), self.1.abs(), self.2.abs(), self.3.abs(), self.4.abs(), self.5.abs(), self.6.abs(), self.7.abs(), self.8.abs(), self.9.abs()]);
            assert forall|i: int| 0 <= i < d0 implies rt.root_val(i) == old(rt).root_val(i) by {
                assert(rt.root_val(i) == sc.root_val(i));
            }
        }
        r
    }
}


/// The abstract form of a linked list of host integers.
pub open spec fn i64_list_v(s: Seq<i64>) -> Val {
    list_v(s.map_values(|n: i64| Val::Imm(n)))
}

/// Reads a linked list of immediates back into a host vector: the reverse
/// direction of the list conversion, walking head fields front to back.
pub fn read_i64_list(rt: &OCamlRuntime, r: Raw) -> (out: Vec<i64>)
    requires
        rt.wf(),
        rt.val_ok(r),
        (exists|s: Seq<i64>| rt.read(r) == i64_list_v(s)),
    ensures
        rt.read(r) == i64_list_v(out@),
{
    let ghost s0 = choose|s: Seq<i64>| rt.read(r) == i64_list_v(s);
    let ghost absq = s0.map_values(|n: i64| Val::Imm(n));
    let mut out: Vec<i64> = Vec::new();
    let mut cur = r;
    proof {
        assert(absq.subrange(0, absq.len() as int) =~= absq);
    }
    while !matches!(cur, Raw::Imm(_))
        invariant
            rt.wf(),
            rt.val_ok(cur),
            absq == s0.map_values(|n: i64| Val::Imm(n)),
            absq.len() == s0.len(),
            out@.len() <= s0.len(),
            out@ == s0.subrange(0, out@.len() as int),
            rt.read(cur) == list_v(absq.subrange(out@.len() as int, absq.len() as int)),
        decreases raw_bound(cur),
    {
        let ghost k = out@.len() as int;
        let ghost suffix = absq.subrange(k, absq.len() as int);
        proof {
            rt.lemma_heap_bounded();
            lemma_decode_inv(rt.heapv(), rt.live_start(), cur);
            assert(suffix.len() > 0) by {
                if suffix.len() == 0 {
                    assert(rt.read(cur) == Val::Imm(0));
                }
            }
            assert(rt.read(cur) == (Val::Blk { tag: 0, items: seq![suffix[0], list_v(suffix.drop_first())] }));
            assert(blk_items(rt.read(cur)).len() == 2);
            assert(fields_of(rt.heapv()[ptr_ix(cur)]).len() == 2);
        }
        let head = rt.read_field(cur, 0);
        proof {
            assert(rt.read(head) == suffix[0]);
            assert(suffix[0] == Val::Imm(s0[k]));
            lemma_decode_inv(rt.heapv(), rt.live_start(), head);
        }
        let n = rt.read_int(head);
        let tail = rt.read_field(cur, 1);
        proof {
            assert(rt.read(tail) == list_v(suffix.drop_first()));
            assert(suffix.drop_first() =~= absq.subrange(k + 1, absq.len() as int));
            assert(raw_bound(tail) < raw_bound(cur)) by {
                let j = ptr_ix(cur);
                assert(crate::heap::block_ok(rt.heapv()[j], rt.live_start(), j));
                assert(raw_ok(j, rt.live_start(), tail));
            }
        }
        out.push(n);
        proof {
            assert(n == s0[k]);
            assert(out@ =~= s0.subrange(0, k + 1));
        }
        cur = tail;
    }
    proof {
        let k = out@.len() as int;
        let suffix = absq.subrange(k, absq.len() as int);
        assert(suffix.len() == 0) by {
            if suffix.len() > 0 {
                assert(rt.read(cur) is Blk);
                assert(cur is Imm);
            }
        }
        assert(out@ =~= s0);
        assert(out@.map_values(|n: i64| Val::Imm(n)) =~= absq);
    }
    out
}

/// Round trip of an integer: converting and reading back is the identity.
pub fn i64_round_trip(rt: &mut OCamlRuntime, n: i64) -> (m: i64)
    requires
        old(rt).wf(),
    ensures
        m == n,
        final(rt).wf(),
        final(rt).keeps_roots_of(*old(rt)),
{
    let r = n.to_ocaml(rt);
    proof {
        rt.lemma_heap_bounded();
        lemma_decode_inv(rt.heapv(), rt.live_start(), r);
    }
    rt.read_int(r)
}

/// Round trip of a boolean.
pub fn bool_round_trip(rt: &mut OCamlRuntime, b: bool) -> (c: bool)
    requires
        old(rt).wf(),
    ensures
        c == b,
        final(rt).wf(),
        final(rt).keeps_roots_of(*old(rt)),
{
    let r = b.to_ocaml(rt);
    proof {
        rt.lemma_heap_bounded();
        lemma_decode_inv(rt.heapv(), rt.live_start(), r);
    }
    let n = rt.read_int(r);
    n == 1
}

/// Round trip of a byte buffer: the bytes come back unchanged, whatever
/// they hold.
pub fn bytes_round_trip(rt: &mut OCamlRuntime, b: ByteBuf) -> (out: Vec<u8>)
    requires
        old(rt).wf(),
    ensures
        out@ == b.data@,
        final(rt).wf(),
        final(rt).keeps_roots_of(*old(rt)),
{
    let r = b.to_ocaml(rt);
    proof {
        rt.lemma_heap_bounded();
        lemma_decode_inv(rt.heapv(), rt.live_start(), r);
    }
    rt.read_bytes(r)
}

/// Round trip of a floating-point bit pattern: bitwise identity, so the
/// non-finite values survive exactly.
pub fn float_bits_round_trip(rt: &mut OCamlRuntime, fb: FloatBits) -> (bits: u64)
    requires
        old(rt).wf(),
    ensures
        bits == fb.bits,
        final(rt).wf(),
        final(rt).keeps_roots_of(*old(rt)),
{
    let r = fb.to_ocaml(rt);
    proof {
        rt.lemma_heap_bounded();
        lemma_decode_inv(rt.heapv(), rt.live_start(), r);
    }
    rt.read_box_f64_bits(r)
}

/// Round trip of a boxed 32-bit integer.
pub fn boxed_i32_round_trip(rt: &mut OCamlRuntime, v: i32) -> (w: i32)
    requires
        old(rt).wf(),
    ensures
        w == v,
        final(rt).wf(),
        final(rt).keeps_roots_of(*old(rt)),
{
    let r = (BoxedInt32 { v }).to_ocaml(rt);
    proof {
        rt.lemma_heap_bounded();
        lemma_decode_inv(rt.heapv(), rt.live_start(), r);
    }
    rt.read_box_i32(r)
}

/// Round trip of a boxed 64-bit integer.
pub fn boxed_i64_round_trip(rt: &mut OCamlRuntime, v: i64) -> (w: i64)
    requires
        old(rt).wf(),
    ensures
        w == v,
        final(rt).wf(),
        final(rt).keeps_roots_of(*old(rt)),
{
    let r = (BoxedInt64 { v }).to_ocaml(rt);
    proof {
        rt.lemma_heap_bounded();
        lemma_decode_inv(rt.heapv(), rt.live_start(), r);
    }
    rt.read_box_i64(r)
}

/// Round trip of a numeric array: a single bulk copy in, a single bulk
/// copy out, contents bitwise identical, the empty array included.
pub fn num_array_round_trip(rt: &mut OCamlRuntime, elems: &Vec<u64>) -> (out: Vec<u64>)
    requires
        old(rt).wf(),
    ensures
        out@ == elems@,
        final(rt).wf(),
        final(rt).keeps_roots_of(*old(rt)),
{
    let r = rt.alloc_bigarray1(elems.as_slice());
    proof {
        rt.lemma_heap_bounded();
        lemma_decode_inv(rt.heapv(), rt.live_start(), r);
    }
    rt.read_num_array(r)
}

/// List round trip: any host sequence of integers converts to the linked
/// list and reads back as the same sequence in the same order — the law
/// holds for the empty sequence and for every length, and its proof does
/// not depend on the collection schedule.
pub fn i64_list_round_trip(rt: &mut OCamlRuntime, v: &Vec<i64>) -> (w: Vec<i64>)
    requires
        old(rt).wf(),
    ensures
        w@ == v@,
        final(rt).wf(),
        final(rt).keeps_roots_of(*old(rt)),
{
    let r = v.to_ocaml(rt);
    proof {
        let m1: Seq<Val> = v@.map_values(|a: i64| <i64 as IntoOCaml>::abs(&a));
        let m2: Seq<Val> = v@.map_values(|n: i64| Val::Imm(n));
        assert(m1 =~= m2);
        assert(rt.read(r) == i64_list_v(v@));
    }
    let w = read_i64_list(rt, r);
    proof {
        lemma_list_v_inj(
            w@.map_values(|n: i64| Val::Imm(n)),
            v@.map_values(|n: i64| Val::Imm(n)),
        );
        assert forall|q: int| 0 <= q < w@.len() implies w@[q] == v@[q] by {
            assert(w@.map_values(|n: i64| Val::Imm(n))[q] == v@.map_values(
                |n: i64| Val::Imm(n),
            )[q]);
        }
        assert(w@ =~= v@);
    }
    w
}

/// Option round trip: present stays present with the same payload, absent
/// stays absent — and absent allocates nothing, which `none_allocates_nothing`
/// states separately.
pub fn option_i64_round_trip(rt: &mut OCamlRuntime, o: &Option<i64>) -> (p: Option<i64>)
    requires
        old(rt).wf(),
    ensures
        p == o,
        final(rt).wf(),
        final(rt).keeps_roots_of(*old(rt)),
{
    let r = o.to_ocaml(rt);
    proof {
        rt.lemma_heap_bounded();
        lemma_decode_inv(rt.heapv(), rt.live_start(), r);
    }
    if rt.is_immediate(r) {
        proof {
            if o is Some {
                assert(rt.read(r) is Blk);
            }
        }
        Option::None
    } else {
        proof {
            if o is None {
                assert(rt.read(r) is Imm);
            }
            assert(blk_items(rt.read(r)).len() == 1);
            assert(fields_of(rt.heapv()[ptr_ix(r)]).len() == 1);
        }
        let f = rt.read_field(r, 0);
        proof {
            lemma_decode_inv(rt.heapv(), rt.live_start(), f);
        }
        let n = rt.read_int(f);
        Option::Some(n)
    }
}

/// Result round trip: the variant and the payload both survive; the tag
/// alone tells success from failure.
pub fn result_i64_bytes_round_trip(rt: &mut OCamlRuntime, x: Result<i64, ByteBuf>) -> (y: Result<
    i64,
    Vec<u8>,
>)
    requires
        old(rt).wf(),
    ensures
        ({
            match x {
                Result::Ok(n) => (y matches Result::Ok(m) && m == n),
                Result::Err(b) => (y matches Result::Err(d) && d@ == b.data@),
            }
        }),
        final(rt).wf(),
        final(rt).keeps_roots_of(*old(rt)),
{
    let r = x.to_ocaml(rt);
    proof {
        rt.lemma_heap_bounded();
        lemma_decode_inv(rt.heapv(), rt.live_start(), r);
        assert(blk_items(rt.read(r)).len() == 1);
        assert(fields_of(rt.heapv()[ptr_ix(r)]).len() == 1);
    }
    let tag = rt.read_tag(r);
    let f = rt.read_field(r, 0);
    proof {
        lemma_decode_inv(rt.heapv(), rt.live_start(), f);
    }
    if tag == 0 {
        proof {
            if x is Err {
                assert(blk_tag(rt.read(r)) == 1);
            }
        }
        let n = rt.read_int(f);
        Result::Ok(n)
    } else {
        proof {
            if x is Ok {
                assert(blk_tag(rt.read(r)) == 0);
            }
        }
        let d = rt.read_bytes(f);
        Result::Err(d)
    }
}

/// Tuple round trip for one mixed shape: field values and field order come
/// back exactly; the contracts of the fixed-arity conversions state the
/// same for every arity.
pub fn tuple3_round_trip(rt: &mut OCamlRuntime, a: i64, b: ByteBuf, c: bool) -> (out: (
    i64,
    Vec<u8>,
    bool,
))
    requires
        old(rt).wf(),
    ensures
        out.0 == a,
        out.1@ == b.data@,
        out.2 == c,
        final(rt).wf(),
        final(rt).keeps_roots_of(*old(rt)),
{
    let t = (a, b, c);
    let r = t.to_ocaml(rt);
    proof {
        rt.lemma_heap_bounded();
        lemma_decode_inv(rt.heapv(), rt.live_start(), r);
        assert(blk_items(rt.read(r)).len() == 3);
        assert(fields_of(rt.heapv()[ptr_ix(r)]).len() == 3);
    }
    let f0 = rt.read_field(r, 0);
    let f1 = rt.read_field(r, 1);
    let f2 = rt.read_field(r, 2);
    proof {
        lemma_decode_inv(rt.heapv(), rt.live_start(), f0);
        lemma_decode_inv(rt.heapv(), rt.live_start(), f1);
        lemma_decode_inv(rt.heapv(), rt.live_start(), f2);
    }
    let va = rt.read_int(f0);
    let vb = rt.read_bytes(f1);
    let n2 = rt.read_int(f2);
    (va, vb, n2 == 1)
}

/// The absent option is a reserved immediate: converting `None` leaves the
/// block store exactly as it was, so no allocation happens at all.
pub fn none_allocates_nothing(rt: &mut OCamlRuntime) -> (r: Raw)
    requires
        old(rt).wf(),
        !old(rt).auto_collect(),
    ensures
        final(rt).wf(),
        final(rt).keeps_roots_of(*old(rt)),
        final(rt).heapv() == old(rt).heapv(),
        (r is Imm),
{
    let o: Option<i64> = Option::None;
    let r = o.to_ocaml(rt);
    proof {
        rt.lemma_heap_bounded();
        lemma_decode_inv(rt.heapv(), rt.live_start(), r);
    }
    r
}

} // verus!
