//! Tuple conversions for every supported arity: field values and field
//! order come back exactly as they went in.

use ocaml_interop::conv::IntoOCaml;
use ocaml_interop::runtime::OCamlRuntime;
use ocaml_interop::value::Raw;

fn fields_as_ints(rt: &OCamlRuntime, r: Raw) -> Vec<i64> {
    let n = rt.field_count(r);
    let mut out = Vec::new();
    let mut k = 0;
    while k < n {
        out.push(rt.read_int(rt.read_field(r, k)));
        k += 1;
    }
    out
}

#[test]
fn tuple2_preserves_fields_and_order() {
    let mut rt = OCamlRuntime::new(true);
    let r = (10i64, 20i64).to_ocaml(&mut rt);
    assert_eq!(fields_as_ints(&rt, r), vec![10, 20]);
}

#[test]
fn tuple3_preserves_fields_and_order() {
    let mut rt = OCamlRuntime::new(true);
    let r = (1i64, 2i64, 3i64).to_ocaml(&mut rt);
    assert_eq!(fields_as_ints(&rt, r), vec![1, 2, 3]);
}

#[test]
fn tuple4_preserves_fields_and_order() {
    let mut rt = OCamlRuntime::new(true);
    let r = (1i64, 2i64, 3i64, 4i64).to_ocaml(&mut rt);
    assert_eq!(fields_as_ints(&rt, r), vec![1, 2, 3, 4]);
}

#[test]
fn tuple5_preserves_fields_and_order() {
    let mut rt = OCamlRuntime::new(true);
    let r = (1i64, 2i64, 3i64, 4i64, 5i64).to_ocaml(&mut rt);
    assert_eq!(fields_as_ints(&rt, r), vec![1, 2, 3, 4, 5]);
}

#[test]
fn tuple6_preserves_fields_and_order() {
    let mut rt = OCamlRuntime::new(true);
    let r = (1i64, 2i64, 3i64, 4i64, 5i64, 6i64).to_ocaml(&mut rt);
    assert_eq!(fields_as_ints(&rt, r), vec![1, 2, 3, 4, 5, 6]);
}

#[test]
fn tuple7_preserves_fields_and_order() {
    let mut rt = OCamlRuntime::new(true);
    let r = (1i64, 2i64, 3i64, 4i64, 5i64, 6i64, 7i64).to_ocaml(&mut rt);
    assert_eq!(fields_as_ints(&rt, r), vec![1, 2, 3, 4, 5, 6, 7]);
}

#[test]
fn tuple8_preserves_fields_and_order() {
    let mut rt = OCamlRuntime::new(true);
    let r = (1i64, 2i64, 3i64, 4i64, 5i64, 6i64, 7i64, 8i64).to_ocaml(&mut rt);
    assert_eq!(fields_as_ints(&rt, r), vec![1, 2, 3, 4, 5, 6, 7, 8]);
}

#[test]
fn tuple9_preserves_fields_and_order() {
    let mut rt = OCamlRuntime::new(true);
    let r = (1i64, 2i64, 3i64, 4i64, 5i64, 6i64, 7i64, 8i64, 9i64).to_ocaml(&mut rt);
    assert_eq!(fields_as_ints(&rt, r), vec![1, 2, 3, 4, 5, 6, 7, 8, 9]);
}

#[test]
fn tuple10_preserves_fields_and_order() {
    let mut rt = OCamlRuntime::new(true);
    let r = (1i64, 2i64, 3i64, 4i64, 5i64, 6i64, 7i64, 8i64, 9i64, 10i64).to_ocaml(&mut rt);
    assert_eq!(fields_as_ints(&rt, r), vec![1, 2, 3, 4, 5, 6, 7, 8, 9, 10]);
}

#[test]
fn nested_tuple_of_mixed_shapes() {
    let mut rt = OCamlRuntime::new(true);
    let r = ((1i64, 2i64), Some(3i64)).to_ocaml(&mut rt);
    let inner = rt.read_field(r, 0);
    assert_eq!(fields_as_ints(&rt, inner), vec![1, 2]);
    let opt = rt.read_field(r, 1);
    assert!(!rt.is_immediate(opt));
    assert_eq!(rt.read_int(rt.read_field(opt, 0)), 3);
}
