//! Files written and read back.
use dwim::gguf::{writer, Error, Gguf, Info, Malformed, Number, Value, BF16, F32, PTQ1_0};
use dwim::tensor::{Packing, Tensor};

/// How ternary matrices are packed here.
const PACKING: Packing = Packing { block: 128, block_bytes: 28 };

type Piece = (String, Vec<usize>, u32, Vec<u8>);

fn floats(values: &[f32]) -> Vec<u8> {
    values.iter().flat_map(|v| v.to_le_bytes()).collect()
}

/// A file with a tensor of each type, and its ternary bytes.
fn sample() -> (Vec<u8>, Vec<u8>) {
    let meta = [
        ("general.architecture", Value::Str("qwen35".into())),
        ("qwen35.block_count", Value::U32(2)),
        ("list", Value::Array(vec![Value::I32(-1), Value::I32(1)])),
        ("scale", Value::F32(0.5f32.to_bits())),
    ];
    let bf16: Vec<u8> = (0..8u16).flat_map(|v| (v << 8).to_le_bytes()).collect();
    let tern = vec![7u8; 2 * PACKING.row_bytes(128).unwrap()];
    let tensors = vec![
        ("norm".to_string(), vec![3], F32, floats(&[1.0, 2.0, 3.0])),
        ("w".to_string(), vec![4, 2], BF16, bf16),
        ("t".to_string(), vec![128, 2], PTQ1_0, tern.clone()),
    ];
    (writer::write(&meta, &tensors), tern)
}

#[test]
fn reads_back_what_it_wrote() {
    let (file, tern) = sample();
    let g = Gguf::open(&file, PACKING).unwrap();
    assert_eq!(g.str("general.architecture").unwrap(), "qwen35");
    assert_eq!(g.u32("qwen35.block_count").unwrap(), 2);
    assert_eq!(g.number("scale").unwrap(), Number::F32(0.5f32.to_bits()));
    assert_eq!(g.array("list").unwrap()[0].as_i64(), Some(-1));
    assert!(g.u32("missing").is_err());
    let norm: Vec<f32> = g.f32s("norm").unwrap().into_iter().map(f32::from_bits).collect();
    assert_eq!(norm, [1.0, 2.0, 3.0]);
    match g.bf16("w").unwrap() {
        Tensor::Bf16 { shape, data } => {
            assert_eq!(shape, [2, 4]);
            assert_eq!(data[3], 3 << 8);
        }
        _ => panic!("not bf16"),
    }
    assert_eq!(g.info("t").unwrap().shape(), [2, 128]);
    assert_eq!(g.bytes("t").unwrap(), tern);
    assert!(g.bf16("t").is_err());
}

#[test]
fn finds_all_that_was_written_and_nothing_else() {
    let tensors = || {
        vec![
            ("b".to_string(), vec![2], F32, floats(&[1.0, 2.0])),
            ("a".to_string(), vec![2, 2], BF16, vec![1, 2, 3, 4, 5, 6, 7, 8]),
        ]
    };
    let file = writer::write(&[("x", Value::U8(1)), ("y", Value::Str("z".into()))], &tensors());
    let g = Gguf::open(&file, PACKING).unwrap();
    assert!(matches!(g.get("x"), Some(Value::U8(1))));
    assert_eq!(g.str("y").unwrap(), "z");
    assert!(g.get("z").is_none());
    assert_eq!(g.tensors(), ["a", "b"]);
    for (name, dims, dtype, data) in tensors() {
        let info = g.info(&name).unwrap();
        assert_eq!((&info.dims, info.dtype), (&dims, dtype));
        assert_eq!(g.bytes(&name).unwrap(), data);
    }
}

#[test]
fn knows_what_can_be_written() {
    let empty = || Value::Array(Vec::new());
    assert!(writer::writable(&[("k", Value::Array(vec![Value::U8(1)]))], &[]));
    assert!(!writer::writable(&[("k", empty())], &[]));
    assert!(!writer::writable(&[("j", Value::U8(1)), ("k", Value::Array(vec![empty()]))], &[]));
    let tensor = ("t".to_string(), vec![2, 3], F32, vec![0; 24]);
    assert!(writer::writable(&[], &[tensor]));
}

#[test]
fn reads_back_every_kind_of_value() {
    let values = [
        Value::U8(200),
        Value::I8(-3),
        Value::U16(60000),
        Value::I16(-300),
        Value::U32(4_000_000_000),
        Value::I32(-70000),
        Value::F32(1.5f32.to_bits()),
        Value::Bool(true),
        Value::Str("gr\u{fc}n".into()),
        Value::Array(vec![Value::Array(vec![Value::Bool(false)]), Value::Array(vec![Value::Bool(true)])]),
        Value::U64(u64::MAX),
        Value::I64(i64::MIN),
        Value::F64(2.25f64.to_bits()),
    ];
    for value in values {
        let file = writer::write(&[("k", value)], &[]);
        let again = Gguf::open(&file, PACKING).unwrap();
        // Written out once more, it is the same file.
        let Some(read) = again.get("k") else { panic!("the key is there") };
        assert_eq!(writer::write(&[("k", copy(read))], &[]), file);
    }
}

/// The same value again.
fn copy(value: &Value) -> Value {
    match value {
        Value::U8(v) => Value::U8(*v),
        Value::I8(v) => Value::I8(*v),
        Value::U16(v) => Value::U16(*v),
        Value::I16(v) => Value::I16(*v),
        Value::U32(v) => Value::U32(*v),
        Value::I32(v) => Value::I32(*v),
        Value::F32(v) => Value::F32(*v),
        Value::Bool(v) => Value::Bool(*v),
        Value::Str(s) => Value::Str(s.clone()),
        Value::Array(values) => Value::Array(values.iter().map(copy).collect()),
        Value::U64(v) => Value::U64(*v),
        Value::I64(v) => Value::I64(*v),
        Value::F64(v) => Value::F64(*v),
    }
}

#[test]
fn lays_out_a_head_to_the_byte() {
    let file = writer::write(&[("k", Value::U8(9))], &[("t".to_string(), vec![2], F32, floats(&[1.0, 2.0]))]);
    let mut want = b"GGUF".to_vec();
    want.extend(3u32.to_le_bytes());
    want.extend(1u64.to_le_bytes());
    want.extend(1u64.to_le_bytes());
    want.extend(1u64.to_le_bytes());
    want.extend(b"k");
    want.extend(0u32.to_le_bytes());
    want.push(9);
    want.extend(1u64.to_le_bytes());
    want.extend(b"t");
    want.extend(1u32.to_le_bytes());
    want.extend(2u64.to_le_bytes());
    want.extend(0u32.to_le_bytes());
    want.extend(0u64.to_le_bytes());
    want.resize(want.len().div_ceil(32) * 32, 0);
    want.extend(floats(&[1.0, 2.0]));
    want.resize(want.len().div_ceil(32) * 32, 0);
    assert_eq!(file, want);
}

#[test]
fn refuses_files_that_are_not_its_own() {
    let (file, _) = sample();
    let parse = |data: &[u8]| Gguf::open(data, PACKING).err();
    assert_eq!(parse(b"GGUF"), Some(Malformed::Short));
    assert_eq!(parse(&file[..60]), Some(Malformed::Short));
    let mut other = file.clone();
    other[0] = b'X';
    assert_eq!(parse(&other), Some(Malformed::Magic));
    let mut other = file.clone();
    other[4] = 9;
    assert_eq!(parse(&other), Some(Malformed::Version(9)));
    // The type of the first value stands behind its key.
    let mut other = file.clone();
    other[32 + "general.architecture".len()] = 77;
    assert_eq!(parse(&other), Some(Malformed::Kind(77)));
    let mut other = file.clone();
    other[32] = 0xff;
    assert_eq!(parse(&other), Some(Malformed::Utf8(1, 0)));
    let mut other = file.clone();
    other[31 + "general.architecture".len()] = 0xc3;
    assert_eq!(parse(&other), Some(Malformed::BrokenOff(19)));
    assert_eq!(Malformed::Utf8(1, 0).message(""), "invalid utf-8 sequence of 1 bytes from index 0");
    assert_eq!(Malformed::BrokenOff(19).message(""), "incomplete utf-8 byte sequence from index 19");
    assert_eq!(Malformed::Magic.message("a.gguf"), "a.gguf is not a GGUF file");
    assert_eq!(Malformed::Version(9).message(""), "GGUF version 9 is not supported");
}

#[test]
fn says_what_a_file_lacks() {
    let (file, _) = sample();
    let g = Gguf::open(&file, PACKING).unwrap();
    let said = |e: Error| e.message();
    assert_eq!(said(g.need("x").unwrap_err()), "missing metadata 'x'");
    assert_eq!(said(g.u32("scale").unwrap_err()), "metadata 'scale' is not an integer");
    assert_eq!(said(g.str("scale").unwrap_err()), "metadata 'scale' is not a string");
    assert_eq!(said(g.array("scale").unwrap_err()), "metadata 'scale' is not an array");
    assert_eq!(said(g.number("list").unwrap_err()), "metadata 'list' is not a number");
    assert_eq!(said(g.info("x").unwrap_err()), "missing tensor 'x'");
    assert_eq!(said(g.f32s("w").unwrap_err()), "tensor 'w' is not f32");
    assert_eq!(said(g.bf16("norm").unwrap_err()), "tensor 'norm' is not a bf16 matrix");
    assert_eq!(said(g.ternary("w").unwrap_err()), "tensor 'w' is not a ternary matrix");
    let negative = writer::write(&[("n", Value::I32(-1))], &[]);
    let g = Gguf::open(&negative, PACKING).unwrap();
    assert_eq!(g.u32("n").unwrap_err(), Error::OutOfRange);
}

#[test]
fn lists_tensors_in_order() {
    let (file, tern) = sample();
    let g = Gguf::open(&file, PACKING).unwrap();
    assert_eq!(g.tensors(), ["norm", "t", "w"]);
    match g.ternary("t").unwrap() {
        Tensor::Ternary { shape, data } => {
            assert_eq!(shape, [2, 128]);
            assert_eq!(data, tern);
        }
        _ => panic!("not ternary"),
    }
}

#[test]
fn refuses_tensors_past_the_end() {
    let (file, _) = sample();
    let cut = &file[..file.len() - 64];
    let g = Gguf::open(cut, PACKING).unwrap();
    assert_eq!(g.bytes("t").unwrap_err(), Error::PastEnd("t".to_string()));
}

#[test]
fn sizes_tensors_by_type() {
    let info = |dims: Vec<usize>, dtype: u32| Info { dims, dtype, offset: 0 };
    assert_eq!(info(vec![3, 2], F32).size(&PACKING), Ok(24));
    assert_eq!(info(vec![4, 2], BF16).size(&PACKING), Ok(16));
    assert_eq!(info(vec![256, 3], PTQ1_0).size(&PACKING), Ok(3 * 2 * 28));
    assert_eq!(info(vec![], F32).size(&PACKING), Err(Error::NoDimensions));
    assert_eq!(info(vec![1], 5).size(&PACKING), Err(Error::Type(5)));
    assert_eq!(info(vec![usize::MAX, 2], F32).size(&PACKING), Err(Error::TooLarge));
    assert_eq!(info(vec![1, 2, 3], F32).shape(), [3, 2, 1]);
    assert_eq!(Error::Type(5).message(), "tensor type 5 is not supported");
}

#[test]
fn aligns_tensor_data_as_the_file_says() {
    // A file with an alignment of its own, its data where that puts it.
    let mut file = writer::write(&[("general.alignment", Value::U32(64))], &[("t".to_string(), vec![1], F32, floats(&[4.0]))]);
    let g = Gguf::open(&file, PACKING).unwrap();
    let start = g.bytes("t").map(|b| b.len());
    assert!(start == Ok(4) || start == Err(Error::PastEnd("t".to_string())));
    let head = 24 + 8 + 17 + 4 + 4 + 8 + 1 + 4 + 8 + 4 + 8;
    file.truncate(head);
    file.resize(head.div_ceil(64) * 64, 0);
    file.extend(floats(&[4.0]));
    let g = Gguf::open(&file, PACKING).unwrap();
    assert_eq!(g.f32s("t").unwrap(), [4.0f32.to_bits()]);
    let odd = writer::write(&[("general.alignment", Value::U32(0))], &[]);
    assert_eq!(Gguf::open(&odd, PACKING).err(), Some(Malformed::Alignment(0)));
}

#[test]
fn pieces_carry_over() {
    // What is written of each tensor is what is read of it, whatever lies
    // beside it.
    let pieces: Vec<Piece> = (0..5u8)
        .map(|i| (format!("t{i}"), vec![i as usize + 1], F32, floats(&vec![i as f32; i as usize + 1])))
        .collect();
    let file = writer::write(&[], &pieces);
    let g = Gguf::open(&file, PACKING).unwrap();
    for (name, dims, dtype, data) in &pieces {
        let info = g.info(name).unwrap();
        assert_eq!((&info.dims, info.dtype), (dims, *dtype));
        assert_eq!(g.bytes(name).unwrap(), data);
    }
}
