use vortex_core::alp::{alp_choose_exponents, alp_decode_array, alp_encode, AlpElem};
use vortex_core::array::{
    Array, BoolArray, ConstantArray, Exponents, PrimitiveArray, RoaringBoolArray, SparseArray,
    StructArray, VarBinArray,
};
use vortex_core::bitmap::bitmap_to_vec;
use vortex_core::compress::{compress, CompressConfig};
use vortex_core::compute::{canonicalize, filter, scalar_at, slice, take};
use vortex_core::dtype::{DType, Nullability, PType};
use vortex_core::file::{read_all, write_file, RowFilter, VortexBatchReaderBuilder};
use vortex_core::scalar::Scalar;
use vortex_core::stats::{compute_stat, Stat};

fn bool_array(vals: &[bool]) -> Array {
    Array::Bool(BoolArray::from_vec(vals.to_vec()))
}

fn u64_array(vals: &[u64]) -> Array {
    Array::Primitive(PrimitiveArray {
        ptype: PType::U64,
        values: vals.to_vec(),
        validity: None,
    })
}

fn u32_array(vals: &[u64]) -> Array {
    Array::Primitive(PrimitiveArray {
        ptype: PType::U32,
        values: vals.to_vec(),
        validity: None,
    })
}

fn varbin_array(vals: &[&str]) -> Array {
    let mut offsets = vec![0usize];
    let mut bytes = Vec::new();
    for v in vals {
        bytes.extend_from_slice(v.as_bytes());
        offsets.push(bytes.len());
    }
    Array::VarBin(VarBinArray {
        is_utf8: true,
        offsets,
        bytes,
        validity: None,
    })
}

#[test]
fn iter() {
    let b = bool_array(&[true, false, true, true]);
    let array = RoaringBoolArray::encode(&b).unwrap();
    let values = bitmap_to_vec(array.bitmap());
    assert_eq!(values, vec![0, 2, 3]);
}

#[test]
fn mod_iter() {
    let b = bool_array(&[true, false, true, true]);
    let array = RoaringBoolArray::encode(&b).unwrap();
    assert_eq!(bitmap_to_vec(array.bitmap()), vec![0, 2, 3]);
}

#[test]
fn scalar_at_roaring() {
    let b = bool_array(&[true, false, true, true]);
    let array = Array::RoaringBool(RoaringBoolArray::encode(&b).unwrap());
    let truthy = Scalar::Bool(true);
    let falsy = Scalar::Bool(false);
    assert_eq!(scalar_at(&array, 0).unwrap(), truthy);
    assert_eq!(scalar_at(&array, 1).unwrap(), falsy);
    assert_eq!(scalar_at(&array, 2).unwrap(), truthy);
    assert_eq!(scalar_at(&array, 3).unwrap(), truthy);
}

#[test]
fn test_scalar_at() {
    let b = bool_array(&[true, false, true, true]);
    let array = Array::RoaringBool(RoaringBoolArray::encode(&b).unwrap());
    assert_eq!(scalar_at(&array, 0).unwrap(), Scalar::Bool(true));
    assert_eq!(scalar_at(&array, 1).unwrap(), Scalar::Bool(false));
    assert_eq!(scalar_at(&array, 2).unwrap(), Scalar::Bool(true));
    assert_eq!(scalar_at(&array, 3).unwrap(), Scalar::Bool(true));
}

#[test]
fn test_slice_roaring() {
    let b = bool_array(&[true, false, true, true]);
    let array = Array::RoaringBool(RoaringBoolArray::encode(&b).unwrap());
    let sliced = slice(&array, 1, 4).unwrap();
    assert_eq!(sliced.len(), 3);
    match &sliced {
        Array::RoaringBool(rb) => {
            assert_eq!(bitmap_to_vec(&rb.bitmap), vec![1, 2]);
        }
        _ => panic!("expected the bitmap encoding"),
    }
}

/// The decimal transform of the adaptive float encoding, as its caller
/// computes it: candidate integer and exactness per element.
fn alp_elems(vals: &[f64], e: u8, f: u8) -> Vec<AlpElem> {
    let scale = 10f64.powi(e as i32) / 10f64.powi(f as i32);
    vals.iter()
        .map(|&v| {
            let scaled = v * scale;
            let enc = if scaled.is_finite() && scaled.abs() < 9.0e18 {
                scaled.round() as i64
            } else {
                0
            };
            let dec = enc as f64 / 10f64.powi(e as i32) * 10f64.powi(f as i32);
            AlpElem {
                bits: v.to_bits(),
                encoded: enc,
                exact: dec.to_bits() == v.to_bits(),
            }
        })
        .collect()
}

#[test]
fn test_alp_round_trip() {
    let vals = [1.1f64, 2.2, 3.3, 1e30];
    let parray = PrimitiveArray {
        ptype: PType::F64,
        values: vals.iter().map(|v| v.to_bits()).collect(),
        validity: None,
    };
    let elems = alp_elems(&vals, 1, 0);
    let encoded = alp_encode(&parray, &elems, Exponents { e: 1, f: 0 }).unwrap();
    let al = match &encoded {
        Array::Alp(al) => al,
        _ => panic!("expected the float encoding"),
    };
    assert_eq!(al.exponents(), Exponents { e: 1, f: 0 });
    match al.encoded() {
        Array::Primitive(p) => {
            assert_eq!(p.ptype, PType::I64);
            assert_eq!(p.values, vec![11u64, 22, 33, 0]);
        }
        _ => panic!("expected an integer child"),
    }
    match al.patches() {
        Some(Array::Sparse(sp)) => {
            assert_eq!(sp.indices, vec![3u64]);
            match &*sp.values {
                Array::Primitive(pv) => {
                    assert_eq!(pv.values, vec![1e30f64.to_bits()]);
                }
                _ => panic!("expected float patch values"),
            }
        }
        _ => panic!("expected patches"),
    }
    // Decode: the caller inverts each stored integer, the library overlays
    // the patches; the result is the original bits, element for element.
    let inverse: Vec<u64> = match al.encoded() {
        Array::Primitive(p) => p
            .values
            .iter()
            .map(|&enc| ((enc as i64) as f64 / 10f64 * 1f64).to_bits())
            .collect(),
        _ => unreachable!(),
    };
    let out = alp_decode_array(al, &inverse).unwrap();
    let expect: Vec<u64> = vals.iter().map(|v| v.to_bits()).collect();
    assert_eq!(out, expect);
}

#[test]
fn test_alp_choose_exponents() {
    // A cost grid with a unique minimum and a tie: the lower pair wins.
    let mut costs = vec![vec![9u64; 19]; 19];
    costs[1][0] = 3;
    costs[2][5] = 3;
    let exp = alp_choose_exponents(&costs).unwrap();
    assert_eq!((exp.e, exp.f), (1, 0));
}

#[test]
fn test_slice_composition() {
    // slice(slice(a, 1, 6), 2, 4) == slice(a, 3, 5)
    let a = u64_array(&[10, 11, 12, 13, 14, 15, 16]);
    let inner = slice(&a, 1, 6).unwrap();
    let twice = slice(&inner, 2, 4).unwrap();
    let direct = slice(&a, 3, 5).unwrap();
    assert_eq!(twice.len(), 2);
    for i in 0..2 {
        assert_eq!(
            scalar_at(&twice, i).unwrap(),
            scalar_at(&direct, i).unwrap()
        );
    }
}

#[test]
fn test_take_identity() {
    let a = u64_array(&[5, 6, 7, 8]);
    let idx = u64_array(&[0, 1, 2, 3]);
    let taken = take(&a, &idx).unwrap();
    assert_eq!(taken.len(), 4);
    for i in 0..4 {
        assert_eq!(scalar_at(&taken, i).unwrap(), scalar_at(&a, i).unwrap());
    }
}

#[test]
fn test_filter_all_true_and_false() {
    let a = u64_array(&[5, 6, 7]);
    let all_true = bool_array(&[true, true, true]);
    let kept = filter(&a, &all_true).unwrap();
    assert_eq!(kept.len(), 3);
    for i in 0..3 {
        assert_eq!(scalar_at(&kept, i).unwrap(), scalar_at(&a, i).unwrap());
    }
    let all_false = bool_array(&[false, false, false]);
    let none = filter(&a, &all_false).unwrap();
    assert_eq!(none.len(), 0);
}

#[test]
fn test_scalar_at_canonical_equivalence() {
    let c = Array::Constant(ConstantArray {
        scalar: Scalar::Prim(PType::U64, 42),
        length: 3,
    });
    let flat = canonicalize(&c).unwrap();
    for i in 0..3 {
        assert_eq!(scalar_at(&c, i).unwrap(), scalar_at(&flat, i).unwrap());
    }
    let sparse = Array::Sparse(SparseArray {
        indices: vec![1, 3],
        values: Box::new(u64_array(&[100, 200])),
        length: 5,
    });
    let flat2 = canonicalize(&sparse).unwrap();
    for i in 0..5 {
        let a = scalar_at(&sparse, i).unwrap();
        let b = scalar_at(&flat2, i).unwrap();
        assert_eq!(a.is_null(), b.is_null());
        if !a.is_null() {
            assert_eq!(a.as_prim(), b.as_prim());
        }
    }
}

#[test]
fn test_compress_never_expands() {
    let vals: Vec<bool> = (0..64).map(|i| i == 3).collect();
    let a = bool_array(&vals);
    let cfg = CompressConfig::default_config();
    let before = a.nbytes();
    let compressed = compress(a, &cfg, 0);
    assert!(compressed.nbytes() <= before);
    assert_eq!(compressed.len(), 64);
}

#[test]
fn test_stats_idempotent() {
    let b = bool_array(&[true, false, true, true]);
    let array = Array::RoaringBool(RoaringBoolArray::encode(&b).unwrap());
    let first = compute_stat(&array, Stat::TrueCount).unwrap();
    let second = compute_stat(&array, Stat::TrueCount).unwrap();
    assert_eq!(first, second);
    assert_eq!(first, 3);
}

#[test]
fn test_roaring_round_trip() {
    let vals = [true, false, true, true, false];
    let b = bool_array(&vals);
    let encoded = Array::RoaringBool(RoaringBoolArray::encode(&b).unwrap());
    let decoded = canonicalize(&encoded).unwrap();
    assert_eq!(decoded.len(), vals.len());
    for (i, v) in vals.iter().enumerate() {
        assert_eq!(scalar_at(&decoded, i).unwrap(), Scalar::Bool(*v));
    }
}

fn two_column_file() -> Vec<u8> {
    let names = vec![b"strings".to_vec(), b"numbers".to_vec()];
    let columns = vec![
        vec![
            varbin_array(&["ab", "foo", "bar", "baz"]),
            varbin_array(&["ab", "foo", "bar", "baz"]),
        ],
        vec![u32_array(&[1, 2, 3, 4]), u32_array(&[5, 6, 7, 8])],
    ];
    let dtype = DType::Struct(
        vec![b"strings".to_vec(), b"numbers".to_vec()],
        vec![
            DType::Utf8(Nullability::NonNullable),
            DType::Int(
                vortex_core::dtype::IntWidth::W32,
                vortex_core::dtype::Signedness::Unsigned,
                Nullability::NonNullable,
            ),
        ],
        Nullability::NonNullable,
    );
    write_file(&names, &columns, &dtype).unwrap()
}

#[test]
fn test_read_simple() {
    let file = two_column_file();
    let builder = VortexBatchReaderBuilder::new(file.clone());
    let mut stream = builder.build().unwrap();
    let batches = read_all(&mut stream, &file).unwrap();
    assert_eq!(batches.len(), 2);
    for batch in &batches {
        assert_eq!(batch.len(), 4);
    }
    // First batch, first column holds the strings.
    match &batches[0] {
        Array::Struct(st) => {
            assert_eq!(st.names[0], b"strings".to_vec());
            assert_eq!(
                scalar_at(&st.fields[0], 0).unwrap(),
                Scalar::Utf8(b"ab".to_vec())
            );
            assert_eq!(
                scalar_at(&st.fields[1], 0).unwrap(),
                Scalar::Prim(PType::U32, 1)
            );
        }
        _ => panic!("expected a struct batch"),
    }
}

#[test]
fn test_read_projection() {
    let file = two_column_file();
    let builder = VortexBatchReaderBuilder::new(file.clone()).with_projection(vec![0]);
    let mut stream = builder.build().unwrap();
    let batches = read_all(&mut stream, &file).unwrap();
    assert_eq!(batches.len(), 2);
    for batch in &batches {
        assert_eq!(batch.len(), 4);
        match batch {
            Array::Struct(st) => {
                assert_eq!(st.fields.len(), 1);
                assert_eq!(st.names[0], b"strings".to_vec());
            }
            _ => panic!("expected a struct batch"),
        }
    }
}

#[test]
fn test_take_across_chunks() {
    let file = two_column_file();
    let take_indices = u64_array(&[0, 3, 4, 7]);
    let builder = VortexBatchReaderBuilder::new(file.clone()).with_take_indices(take_indices);
    let mut stream = builder.build().unwrap();
    let batches = read_all(&mut stream, &file).unwrap();
    assert_eq!(batches.len(), 2);
    let mut strings = Vec::new();
    let mut numbers = Vec::new();
    for batch in &batches {
        match batch {
            Array::Struct(st) => {
                for i in 0..st.length {
                    match scalar_at(&st.fields[0], i).unwrap() {
                        Scalar::Utf8(s) => strings.push(String::from_utf8(s).unwrap()),
                        other => panic!("unexpected scalar {:?}", other),
                    }
                    match scalar_at(&st.fields[1], i).unwrap() {
                        Scalar::Prim(_, v) => numbers.push(v),
                        other => panic!("unexpected scalar {:?}", other),
                    }
                }
            }
            _ => panic!("expected a struct batch"),
        }
    }
    assert_eq!(strings, vec!["ab", "baz", "ab", "baz"]);
    assert_eq!(numbers, vec![1, 4, 5, 8]);
}

#[test]
fn test_row_filter() {
    let file = two_column_file();
    let filter = RowFilter::new(vec![vortex_core::file::Predicate {
        column: 1,
        op: vortex_core::file::CompareOp::Gt,
        literal: 2,
    }]);
    let builder = VortexBatchReaderBuilder::new(file.clone()).with_row_filter(filter);
    let mut stream = builder.build().unwrap();
    let batches = read_all(&mut stream, &file).unwrap();
    assert_eq!(batches.len(), 2);
    // First chunk keeps numbers 3 and 4; second keeps all of 5..=8.
    assert_eq!(batches[0].len(), 2);
    assert_eq!(batches[1].len(), 4);
}

#[test]
fn test_message_round_trip() {
    let a = u32_array(&[7, 8, 9]);
    let mut buf = Vec::new();
    vortex_core::file::encode_array(&a, &mut buf).unwrap();
    let b = vortex_core::file::decode_array(&buf, 0, buf.len()).unwrap();
    assert_eq!(b.len(), 3);
    for i in 0..3 {
        assert_eq!(scalar_at(&b, i).unwrap(), scalar_at(&a, i).unwrap());
    }
}

#[test]
fn test_nullable_scalar() {
    let s = vortex_core::scalar::NullableScalar::some(Box::new(Scalar::Bool(true)));
    match s {
        vortex_core::scalar::NullableScalar::Present(inner) => {
            assert_eq!(*inner, Scalar::Bool(true))
        }
        _ => panic!("expected a present value"),
    }
    let n = vortex_core::scalar::NullableScalar::none(DType::Bool(Nullability::Nullable));
    assert!(matches!(
        n,
        vortex_core::scalar::NullableScalar::Absent(DType::Bool(Nullability::Nullable))
    ));
}

#[test]
fn test_struct_take() {
    let st = Array::Struct(StructArray {
        names: vec![b"xs".to_vec()],
        fields: vec![u64_array(&[9, 8, 7, 6])],
        length: 4,
    });
    let idx = u64_array(&[3, 0]);
    let taken = take(&st, &idx).unwrap();
    match &taken {
        Array::Struct(t) => {
            assert_eq!(t.length, 2);
            assert_eq!(scalar_at(&t.fields[0], 0).unwrap(), Scalar::Prim(PType::U64, 6));
            assert_eq!(scalar_at(&t.fields[0], 1).unwrap(), Scalar::Prim(PType::U64, 9));
        }
        _ => panic!("expected a struct"),
    }
}

#[test]
fn test_roaring_encode_ignores_validity() {
    // The bitmap's logical type is non-nullable, so encoding reads the raw
    // values and ignores the mask.
    let b = Array::Bool(vortex_core::array::BoolArray {
        values: vec![true, false, true],
        validity: Some(vec![true, false, true]),
    });
    let array = RoaringBoolArray::encode(&b).unwrap();
    assert_eq!(bitmap_to_vec(array.bitmap()), vec![0, 2]);
}

#[test]
fn test_take_signed_indices() {
    // Signed non-nullable integer indices are accepted.
    let a = u64_array(&[5, 6, 7, 8]);
    let idx = Array::Primitive(PrimitiveArray {
        ptype: PType::I64,
        values: vec![3, 1],
        validity: None,
    });
    let taken = take(&a, &idx).unwrap();
    assert_eq!(scalar_at(&taken, 0).unwrap(), Scalar::Prim(PType::U64, 8));
    assert_eq!(scalar_at(&taken, 1).unwrap(), Scalar::Prim(PType::U64, 6));
}

#[test]
fn test_take_across_chunks_unsorted() {
    // Unsorted take indices: each batch keeps its window's indices in the
    // order given.
    let file = two_column_file();
    let take_indices = u64_array(&[3, 0, 7, 4]);
    let builder = VortexBatchReaderBuilder::new(file.clone()).with_take_indices(take_indices);
    let mut stream = builder.build().unwrap();
    let batches = read_all(&mut stream, &file).unwrap();
    let mut numbers = Vec::new();
    for batch in &batches {
        match batch {
            Array::Struct(st) => {
                for i in 0..st.length {
                    match scalar_at(&st.fields[1], i).unwrap() {
                        Scalar::Prim(_, v) => numbers.push(v),
                        other => panic!("unexpected scalar {:?}", other),
                    }
                }
            }
            _ => panic!("expected a struct batch"),
        }
    }
    assert_eq!(numbers, vec![4, 1, 8, 5]);
}
