//! Round trips through the modeled runtime, on the normal schedule and on
//! the harshest one, where every allocation forces a collection cycle.

use ocaml_interop::conv::{
    bool_round_trip, boxed_i32_round_trip, boxed_i64_round_trip, bytes_round_trip,
    float_bits_round_trip, i64_list_round_trip, i64_round_trip, num_array_round_trip,
    option_i64_round_trip, result_i64_bytes_round_trip, tuple3_round_trip, ByteBuf, FloatBits,
    IntoOCaml,
};
use ocaml_interop::runtime::OCamlRuntime;
use ocaml_interop::value::{int_to_word, word_is_immediate, word_to_int};

#[test]
fn word_codec_round_trips() {
    for n in [0i64, 1, -1, 7, -7, 0x3FFF_FFFF_FFFF_FFFF, -0x4000_0000_0000_0000] {
        let w = int_to_word(n);
        assert!(word_is_immediate(w));
        assert_eq!(word_to_int(w), n);
    }
}

#[test]
fn word_codec_exact_values() {
    assert_eq!(int_to_word(0), 1);
    assert_eq!(int_to_word(3), 7);
    assert_eq!(int_to_word(-1), u64::MAX);
    assert!(!word_is_immediate(4));
    assert_eq!(word_to_int(7), 3);
}

#[test]
fn int_round_trips() {
    let mut rt = OCamlRuntime::new(false);
    for n in [0i64, 1, -1, i64::MAX, i64::MIN, 42] {
        assert_eq!(i64_round_trip(&mut rt, n), n);
    }
}

#[test]
fn int_round_trips_under_forced_collection() {
    let mut rt = OCamlRuntime::new(true);
    for n in [0i64, 5, -5, 123_456_789] {
        assert_eq!(i64_round_trip(&mut rt, n), n);
    }
}

#[test]
fn narrow_int_converts_to_immediate() {
    let mut rt = OCamlRuntime::new(false);
    let r = (-7i32).to_ocaml(&mut rt);
    assert!(rt.is_immediate(r));
    assert_eq!(rt.read_int(r), -7);
}

#[test]
fn bool_round_trips() {
    let mut rt = OCamlRuntime::new(false);
    assert!(bool_round_trip(&mut rt, true));
    assert!(!bool_round_trip(&mut rt, false));
}

#[test]
fn bytes_round_trip_text_and_raw() {
    let mut rt = OCamlRuntime::new(false);
    let text = String::from("hello world");
    let out = bytes_round_trip(&mut rt, ByteBuf { data: text.clone().into_bytes() });
    assert_eq!(String::from_utf8(out).unwrap(), text);
    let raw = vec![0u8, 255, 7, 128];
    let out = bytes_round_trip(&mut rt, ByteBuf { data: raw.clone() });
    assert_eq!(out, raw);
}

#[test]
fn float_round_trips_bitwise() {
    let mut rt = OCamlRuntime::new(true);
    for x in [0.0f64, -0.0, 1.5, f64::INFINITY, f64::NEG_INFINITY, f64::NAN, f64::MIN_POSITIVE] {
        let bits = float_bits_round_trip(&mut rt, FloatBits { bits: x.to_bits() });
        assert_eq!(bits, x.to_bits());
    }
}

#[test]
fn boxed_ints_round_trip() {
    let mut rt = OCamlRuntime::new(true);
    assert_eq!(boxed_i32_round_trip(&mut rt, i32::MIN), i32::MIN);
    assert_eq!(boxed_i32_round_trip(&mut rt, 7), 7);
    assert_eq!(boxed_i64_round_trip(&mut rt, i64::MAX), i64::MAX);
    assert_eq!(boxed_i64_round_trip(&mut rt, -3), -3);
}

#[test]
fn list_round_trips_small() {
    let mut rt = OCamlRuntime::new(false);
    assert_eq!(i64_list_round_trip(&mut rt, &vec![1, 2, 3]), vec![1, 2, 3]);
    assert_eq!(i64_list_round_trip(&mut rt, &vec![]), Vec::<i64>::new());
    assert_eq!(i64_list_round_trip(&mut rt, &vec![9]), vec![9]);
}

#[test]
fn list_round_trips_thousand_elements() {
    let mut rt = OCamlRuntime::new(false);
    let v: Vec<i64> = (0..1000).collect();
    assert_eq!(i64_list_round_trip(&mut rt, &v), v);
}

#[test]
fn list_round_trips_under_forced_collection() {
    let mut rt = OCamlRuntime::new(true);
    let v: Vec<i64> = (0..200).map(|n| n * 3 - 100).collect();
    assert_eq!(i64_list_round_trip(&mut rt, &v), v);
}

#[test]
fn option_round_trips() {
    let mut rt = OCamlRuntime::new(false);
    assert_eq!(option_i64_round_trip(&mut rt, &Some(5)), Some(5));
    assert_eq!(option_i64_round_trip(&mut rt, &None), None);
}

#[test]
fn none_allocates_no_block() {
    let mut rt = OCamlRuntime::new(false);
    let before = rt.live_block_count();
    let o: Option<i64> = None;
    let r = o.to_ocaml(&mut rt);
    assert!(rt.is_immediate(r));
    assert_eq!(rt.live_block_count(), before);
}

#[test]
fn result_round_trips() {
    let mut rt = OCamlRuntime::new(false);
    assert_eq!(result_i64_bytes_round_trip(&mut rt, Ok(5)), Ok(5));
    let err = result_i64_bytes_round_trip(
        &mut rt,
        Err(ByteBuf { data: String::from("bad").into_bytes() }),
    );
    assert_eq!(err, Err(String::from("bad").into_bytes()));
}

#[test]
fn numeric_array_round_trips_bitwise() {
    let mut rt = OCamlRuntime::new(true);
    let values = [1.0f64, 2.0, 3.0];
    let bits: Vec<u64> = values.iter().map(|x| x.to_bits()).collect();
    let out = num_array_round_trip(&mut rt, &bits);
    assert_eq!(out, bits);
    for (word, x) in out.iter().zip(values.iter()) {
        assert_eq!(f64::from_bits(*word), *x);
    }
    let empty: Vec<u64> = Vec::new();
    assert_eq!(num_array_round_trip(&mut rt, &empty), empty);
}

#[test]
fn mixed_tuple_round_trips() {
    let mut rt = OCamlRuntime::new(true);
    let (a, b, c) = tuple3_round_trip(
        &mut rt,
        1,
        ByteBuf { data: String::from("a").into_bytes() },
        true,
    );
    assert_eq!(a, 1);
    assert_eq!(String::from_utf8(b).unwrap(), "a");
    assert!(c);
}
