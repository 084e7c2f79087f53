//! The safetensors container, and the tensors read from it.

use deepseek_v4_candle::loader::{
    parse_header, place_entry, EntryError, HeaderError, LoadError, RawEntry, SafeTensors,
};
use deepseek_v4_candle::tensor::Tensor;

fn floats(t: &Tensor) -> Vec<f32> {
    t.data().iter().map(|b| f32::from_bits(*b)).collect()
}

/// A file of the given entries (name, type, shape, bytes), in that order.
fn file(entries: &[(&str, &str, &str, Vec<u8>)]) -> Vec<u8> {
    let mut header = String::from("{");
    let mut blob: Vec<u8> = Vec::new();
    for (k, (name, dtype, shape, bytes)) in entries.iter().enumerate() {
        if k > 0 {
            header.push(',');
        }
        let begin = blob.len();
        blob.extend_from_slice(bytes);
        header.push_str(&format!(
            "\"{name}\":{{\"dtype\":\"{dtype}\",\"shape\":{shape},\"data_offsets\":[{begin},{}]}}",
            blob.len()
        ));
    }
    header.push('}');
    framed(header.as_bytes(), &blob)
}

fn framed(header: &[u8], blob: &[u8]) -> Vec<u8> {
    let mut out = (header.len() as u64).to_le_bytes().to_vec();
    out.extend_from_slice(header);
    out.extend_from_slice(blob);
    out
}

fn singles(v: &[f32]) -> Vec<u8> {
    v.iter().flat_map(|x| x.to_le_bytes()).collect()
}

/// The upper halves of singles.
fn halves(v: &[f32]) -> Vec<u8> {
    v.iter().flat_map(|x| ((x.to_bits() >> 16) as u16).to_le_bytes()).collect()
}

/// One tensor per stored type.
fn sample() -> Vec<u8> {
    file(&[
        ("w_f32", "F32", "[2,3]", singles(&[1.0, 2.0, 3.0, 4.0, 5.0, 6.0])),
        ("w_bf16", "BF16", "[4]", halves(&[1.0, 2.0, 0.5, -1.0])),
        ("lin.weight", "F8_E4M3", "[2,4]", vec![0x38, 0x40, 0x44, 0x48, 0x38, 0x38, 0x40, 0x40]),
        ("lin.scale", "F8_E8M0", "[1,1]", vec![0x80]),
        ("exp.weight", "U8", "[2,2]", vec![0x21, 0x54, 0x93, 0xA7]),
        ("exp.scale", "F8_E8M0", "[2,2]", vec![0x80, 0x7F, 0x7F, 0x81]),
        ("exp32.weight", "U8", "[2,16]", vec![0x22; 32]),
        ("exp32.scale", "F8_E8M0", "[2,1]", vec![0x7F, 0x7F]),
        ("wo.weight", "BF16", "[2,2]", halves(&[1.0, 2.0, 0.5, -1.0])),
    ])
}

#[test]
fn reads_tensor_metadata() {
    let bytes = sample();
    let st = SafeTensors::parse(&bytes).unwrap();
    assert_eq!(
        st.info("w_f32").map(|i| (i.dtype.as_str(), i.shape.clone())),
        Some(("F32", vec![2, 3]))
    );
    assert_eq!(
        st.info("lin.weight").map(|i| (i.dtype.as_str(), i.shape.clone())),
        Some(("F8_E4M3", vec![2, 4]))
    );
    assert_eq!(st.info("w_bf16").map(|i| i.shape.clone()), Some(vec![4]));
    assert_eq!(st.info("missing").map(|i| i.shape.clone()), None);
}

#[test]
fn lists_all_tensor_names() {
    let bytes = sample();
    let st = SafeTensors::parse(&bytes).unwrap();
    assert_eq!(
        st.tensor_names(),
        vec![
            "exp.scale",
            "exp.weight",
            "exp32.scale",
            "exp32.weight",
            "lin.scale",
            "lin.weight",
            "w_bf16",
            "w_f32",
            "wo.weight"
        ]
    );
}

#[test]
fn reads_raw_bytes_by_offset() {
    let bytes = sample();
    let st = SafeTensors::parse(&bytes).unwrap();
    assert_eq!(st.raw("lin.scale").ok(), Some(&[0x80u8][..]));
    assert_eq!(st.raw("exp.weight").ok(), Some(&[0x21u8, 0x54, 0x93, 0xA7][..]));
    assert_eq!(
        st.raw("lin.weight").ok(),
        Some(&[0x38u8, 0x40, 0x44, 0x48, 0x38, 0x38, 0x40, 0x40][..])
    );
    assert!(st.raw("missing").is_err());
}

#[test]
fn dequants_f32_tensor() {
    let bytes = sample();
    let st = SafeTensors::parse(&bytes).unwrap();
    let t = st.f32_tensor("w_f32", &vec![2, 3]).unwrap();
    assert_eq!(t.dims(), &[2, 3]);
    assert_eq!(floats(&t), vec![1.0, 2.0, 3.0, 4.0, 5.0, 6.0]);
}

#[test]
fn dequants_bf16_tensor() {
    let bytes = sample();
    let st = SafeTensors::parse(&bytes).unwrap();
    let t = st.bf16_tensor("w_bf16", &vec![4]).unwrap();
    assert_eq!(floats(&t), vec![1.0, 2.0, 0.5, -1.0]);
}

#[test]
fn dequants_fp8_weight_with_scale() {
    let bytes = sample();
    let st = SafeTensors::parse(&bytes).unwrap();
    let t = st.fp8_tensor("lin", 2, 4, 128).unwrap();
    assert_eq!(t.dims(), &[2, 4]);
    assert_eq!(floats(&t), vec![2.0, 4.0, 6.0, 8.0, 2.0, 2.0, 4.0, 4.0]);
}

#[test]
fn dequants_fp4_expert_with_scale() {
    let bytes = sample();
    let st = SafeTensors::parse(&bytes).unwrap();
    let t = st.fp4_tensor("exp", 2, 4, 2).unwrap();
    assert_eq!(t.dims(), &[2, 4]);
    assert_eq!(floats(&t), vec![1.0, 2.0, 2.0, 3.0, 1.5, -0.5, 24.0, -4.0]);
}

#[test]
fn auto_tensor_dispatches_on_header_dtype() {
    let bytes = sample();
    let st = SafeTensors::parse(&bytes).unwrap();
    let f = st.auto_tensor("w_f32", &vec![2, 3]).unwrap();
    assert_eq!(floats(&f), vec![1.0, 2.0, 3.0, 4.0, 5.0, 6.0]);
    let b = st.auto_tensor("w_bf16", &vec![4]).unwrap();
    assert_eq!(floats(&b), vec![1.0, 2.0, 0.5, -1.0]);
}

/// A scale beside the weight means a quantized one; none means one that is read as it is stored.
#[test]
fn linear_dispatches_on_scale_presence() {
    let bytes = sample();
    let st = SafeTensors::parse(&bytes).unwrap();
    let fp8 = st.linear("lin", 2, 4, false).unwrap();
    assert_eq!(floats(&fp8), vec![2.0, 4.0, 6.0, 8.0, 2.0, 2.0, 4.0, 4.0]);

    let fp4 = st.linear("exp32", 2, 32, true).unwrap();
    assert_eq!(fp4.dims(), &[2, 32]);
    assert_eq!(floats(&fp4), vec![1.0; 64]);

    let auto = st.linear("wo", 2, 2, false).unwrap();
    assert_eq!(floats(&auto), vec![1.0, 2.0, 0.5, -1.0]);
}

/// Without a scale the weight is read as it is stored, whatever type was expected.
#[test]
fn linear_without_scale_ignores_the_expected_type() {
    let bytes = sample();
    let st = SafeTensors::parse(&bytes).unwrap();
    let auto = st.linear("wo", 2, 2, true).unwrap();
    assert_eq!(floats(&auto), vec![1.0, 2.0, 0.5, -1.0]);
    assert!(matches!(st.linear("nothing", 2, 2, true).err(), Some(LoadError::NotFound(n)) if n == "nothing.weight"));
}

#[test]
fn refuses_missing_tensors() {
    let bytes = sample();
    let st = SafeTensors::parse(&bytes).unwrap();
    assert!(matches!(st.raw("missing").err(), Some(LoadError::NotFound(n)) if n == "missing"));
    assert!(matches!(st.f32_tensor("missing", &vec![1]).err(), Some(LoadError::NotFound(_))));
    assert!(matches!(st.bf16_tensor("missing", &vec![1]).err(), Some(LoadError::NotFound(_))));
    assert!(matches!(st.auto_tensor("missing", &vec![1]).err(), Some(LoadError::NotFound(_))));
    assert!(matches!(st.fp8_tensor("wo", 2, 2, 128).err(), Some(LoadError::NotFound(n)) if n == "wo.scale"));
    assert!(matches!(st.fp4_tensor("none", 2, 2, 32).err(), Some(LoadError::NotFound(n)) if n == "none.weight"));
}

#[test]
fn refuses_wrong_byte_counts() {
    let bytes = sample();
    let st = SafeTensors::parse(&bytes).unwrap();
    assert!(matches!(st.f32_tensor("w_f32", &vec![2, 2]).err(), Some(LoadError::Length(_))));
    assert!(matches!(st.bf16_tensor("w_bf16", &vec![5]).err(), Some(LoadError::Length(_))));
    assert!(matches!(st.auto_tensor("w_f32", &vec![7]).err(), Some(LoadError::Length(_))));
    assert!(matches!(st.fp8_tensor("lin", 4, 4, 128).err(), Some(LoadError::Length(_))));
    assert!(matches!(st.fp4_tensor("exp", 4, 4, 2).err(), Some(LoadError::Length(_))));
    // The byte count that this shape asks for is not a machine word.
    assert!(st.f32_tensor("w_f32", &vec![usize::MAX, 2]).is_err());
}

#[test]
fn refuses_quantized_types_in_plain_reads() {
    let bytes = sample();
    let st = SafeTensors::parse(&bytes).unwrap();
    assert!(matches!(st.auto_tensor("lin.weight", &vec![2, 4]).err(), Some(LoadError::Dtype(_))));
}

/// A shape that a `F32` tensor is read under need not be the stored one.
#[test]
fn reads_under_another_shape() {
    let bytes = sample();
    let st = SafeTensors::parse(&bytes).unwrap();
    let t = st.f32_tensor("w_f32", &vec![3, 1, 2]).unwrap();
    assert_eq!(t.dims(), &[3, 1, 2]);
}

#[test]
fn skips_metadata() {
    let header = br#"{"__metadata__":{"format":"pt"},"a":{"dtype":"U8","shape":[1],"data_offsets":[0,1]}}"#;
    let bytes = framed(header, &[7]);
    let st = SafeTensors::parse(&bytes).unwrap();
    assert_eq!(st.tensor_names(), vec!["a"]);
    assert_eq!(st.raw("a").ok(), Some(&[7u8][..]));
}

/// A name given twice stands for the entry given last.
#[test]
fn keeps_the_last_of_equal_names() {
    let header = br#"{"a":{"dtype":"U8","shape":[1],"data_offsets":[0,1]},"a":{"dtype":"I8","shape":[1],"data_offsets":[1,2]}}"#;
    let bytes = framed(header, &[7, 8]);
    let st = SafeTensors::parse(&bytes).unwrap();
    assert_eq!(st.tensor_names(), vec!["a"]);
    assert_eq!(st.info("a").map(|i| i.dtype.as_str()), Some("I8"));
    assert_eq!(st.raw("a").ok(), Some(&[8u8][..]));
}

#[test]
fn places_entries_after_the_header() {
    let bytes = sample();
    let header_len = u64::from_le_bytes(bytes[0..8].try_into().unwrap()) as usize;
    let st = SafeTensors::parse(&bytes).unwrap();
    let info = st.info("w_f32").unwrap();
    assert_eq!((info.begin, info.end), (8 + header_len, 8 + header_len + 24));
    let listed = parse_header(&bytes).unwrap();
    assert_eq!(listed.len(), 9);
}

#[test]
fn refuses_broken_headers() {
    assert!(matches!(SafeTensors::parse(&[1, 2, 3]).err(), Some(HeaderError::TooSmall)));
    assert!(matches!(SafeTensors::parse(&framed(b"{}", &[])[..9]).err(), Some(HeaderError::TooLong)));
    let mut huge = vec![0xFFu8; 8];
    huge.extend_from_slice(b"{}");
    assert!(matches!(SafeTensors::parse(&huge).err(), Some(HeaderError::TooLong)));
    assert!(matches!(SafeTensors::parse(&framed(b"{", &[])).err(), Some(HeaderError::NotJson)));
    assert!(matches!(SafeTensors::parse(&framed(b"[]", &[])).err(), Some(HeaderError::NotObject)));
    assert!(SafeTensors::parse(&framed(b"{}", &[])).unwrap().tensor_names().is_empty());
}

fn entry_error(entry: &str) -> Option<EntryError> {
    let header = format!("{{\"a\":{entry}}}");
    match SafeTensors::parse(&framed(header.as_bytes(), &[0; 8])).err() {
        Some(HeaderError::Entry(name, e)) => {
            assert_eq!(name, "a");
            Some(e)
        }
        _ => None,
    }
}

#[test]
fn refuses_broken_entries() {
    assert_eq!(entry_error(r#"{"shape":[1],"data_offsets":[0,1]}"#), Some(EntryError::MissingDtype));
    assert_eq!(entry_error(r#"{"dtype":3,"shape":[1],"data_offsets":[0,1]}"#), Some(EntryError::MissingDtype));
    assert_eq!(entry_error(r#"7"#), Some(EntryError::MissingDtype));
    assert_eq!(entry_error(r#"{"dtype":"U8","data_offsets":[0,1]}"#), Some(EntryError::MissingShape));
    assert_eq!(
        entry_error(r#"{"dtype":"U8","shape":[1,"x"],"data_offsets":[0,1]}"#),
        Some(EntryError::NonIntegerDim)
    );
    assert_eq!(
        entry_error(r#"{"dtype":"U8","shape":[-1],"data_offsets":[0,1]}"#),
        Some(EntryError::NonIntegerDim)
    );
    assert_eq!(entry_error(r#"{"dtype":"U8","shape":[1]}"#), Some(EntryError::MissingOffsets));
    assert_eq!(
        entry_error(r#"{"dtype":"U8","shape":[1],"data_offsets":[0]}"#),
        Some(EntryError::OffsetCount)
    );
    assert_eq!(
        entry_error(r#"{"dtype":"U8","shape":[1],"data_offsets":[0,1,2]}"#),
        Some(EntryError::OffsetCount)
    );
    assert_eq!(
        entry_error(r#"{"dtype":"U8","shape":[1],"data_offsets":[0,"x"]}"#),
        Some(EntryError::BadOffset)
    );
    assert_eq!(
        entry_error(r#"{"dtype":"U8","shape":[1],"data_offsets":[0,9]}"#),
        Some(EntryError::OutOfRange)
    );
    assert_eq!(
        entry_error(r#"{"dtype":"U8","shape":[1],"data_offsets":[2,1]}"#),
        Some(EntryError::OutOfRange)
    );
    assert_eq!(entry_error(r#"{"dtype":"U8","shape":[1],"data_offsets":[0,8]}"#), None);
}

#[test]
fn places_an_entry() {
    let raw = RawEntry {
        dtype: Some("F32".to_string()),
        shape: Some(vec![Some(2), Some(3)]),
        offsets: Some(vec![Some(4), Some(28)]),
    };
    let info = place_entry(raw, 100, 200).unwrap();
    assert_eq!(info.dtype, "F32");
    assert_eq!(info.shape, vec![2, 3]);
    assert_eq!((info.begin, info.end), (104, 128));
}
