//! The rooting discipline under stress: collection cycles forced between
//! every allocation must move nothing that a root still reaches, and every
//! composite conversion must leave the root stack at its prior depth.

use ocaml_interop::conv::{ByteBuf, IntoOCaml};
use ocaml_interop::runtime::OCamlRuntime;
use ocaml_interop::value::Raw;

fn decode_pair_list(rt: &OCamlRuntime, r: Raw) -> Vec<(i64, Option<i64>)> {
    let mut out = Vec::new();
    let mut cur = r;
    while !rt.is_immediate(cur) {
        let pair = rt.read_field(cur, 0);
        let first = rt.read_int(rt.read_field(pair, 0));
        let opt = rt.read_field(pair, 1);
        let second = if rt.is_immediate(opt) {
            None
        } else {
            Some(rt.read_int(rt.read_field(opt, 0)))
        };
        out.push((first, second));
        cur = rt.read_field(cur, 1);
    }
    out
}

#[test]
fn nested_composites_survive_forced_collection() {
    let mut rt = OCamlRuntime::new(true);
    let v: Vec<(i64, Option<i64>)> = (0..120)
        .map(|n| (n, if n % 3 == 0 { None } else { Some(n * n) }))
        .collect();
    let r = v.to_ocaml(&mut rt);
    assert_eq!(decode_pair_list(&rt, r), v);
}

#[test]
fn rooted_values_survive_explicit_cycles() {
    let mut rt = OCamlRuntime::new(false);
    let root = ByteBuf { data: b"survivor".to_vec() }.to_boxroot(&mut rt);
    for _ in 0..5 {
        rt.collect();
    }
    let r = rt.borrow_root(&root);
    assert_eq!(rt.read_bytes(r), b"survivor".to_vec());
    rt.release_root(root);
    assert_eq!(rt.root_depth(), 0);
}

#[test]
fn conversions_leave_root_depth_unchanged() {
    let mut rt = OCamlRuntime::new(true);
    let outer = (7i64, 8i64).to_boxroot(&mut rt);
    let before = rt.root_depth();

    let _ = vec![1i64, 2, 3].to_ocaml(&mut rt);
    assert_eq!(rt.root_depth(), before);

    let _ = Some(5i64).to_ocaml(&mut rt);
    assert_eq!(rt.root_depth(), before);

    let x: Result<i64, i64> = Err(9);
    let _ = x.to_ocaml(&mut rt);
    assert_eq!(rt.root_depth(), before);

    let _ = (1i64, 2i64, 3i64, 4i64, 5i64, 6i64, 7i64, 8i64, 9i64, 10i64).to_ocaml(&mut rt);
    assert_eq!(rt.root_depth(), before);

    let r = rt.borrow_root(&outer);
    assert_eq!(rt.read_int(rt.read_field(r, 0)), 7);
    assert_eq!(rt.read_int(rt.read_field(r, 1)), 8);
    rt.release_root(outer);
}

#[test]
fn update_root_reuses_one_cell() {
    let mut rt = OCamlRuntime::new(false);
    let root = 1i64.to_boxroot(&mut rt);
    let depth = rt.root_depth();
    rt.update_root(&root, Raw::Imm(41));
    assert_eq!(rt.root_depth(), depth);
    let r = rt.borrow_root(&root);
    assert_eq!(rt.read_int(r), 41);
    rt.release_root(root);
}

#[test]
fn boxed_values_convert_through_indirection() {
    let mut rt = OCamlRuntime::new(true);
    let b: Box<i64> = Box::new(77);
    let r = b.to_ocaml(&mut rt);
    assert!(rt.is_immediate(r));
    assert_eq!(rt.read_int(r), 77);
}

#[test]
fn result_tags_tell_variants_apart() {
    let mut rt = OCamlRuntime::new(false);
    let ok: Result<i64, i64> = Ok(5);
    let err: Result<i64, i64> = Err(5);
    let r_ok = ok.to_ocaml(&mut rt);
    let r_err = err.to_ocaml(&mut rt);
    assert_eq!(rt.read_tag(r_ok), 0);
    assert_eq!(rt.read_tag(r_err), 1);
}
