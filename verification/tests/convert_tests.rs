use llama_q8::convert::{find_tensor, oversized_offset, tensor_f32_bits, TensorFile, TensorFileError};

fn safetensors_file(name: &str, data: &[u8]) -> Vec<u8> {
    let header = format!(
        "{{\"{}\":{{\"dtype\":\"BF16\",\"shape\":[{}],\"data_offsets\":[0,{}]}}}}",
        name,
        data.len() / 2,
        data.len()
    );
    let mut out = Vec::new();
    out.extend_from_slice(&(header.len() as u64).to_le_bytes());
    out.extend_from_slice(header.as_bytes());
    out.extend_from_slice(data);
    out
}

#[test]
fn tensors_are_found_in_the_first_file_that_holds_them() {
    let a = safetensors_file("alpha", &[0x80, 0x3F, 0x00, 0x40]);
    let b = safetensors_file("beta", &[0x40, 0x40]);
    let fa = TensorFile::open(&a).ok().unwrap();
    let fb = TensorFile::open(&b).ok().unwrap();
    assert_eq!(fa.tensor("alpha"), Some(&[0x80u8, 0x3F, 0x00, 0x40][..]));
    assert_eq!(fa.tensor("beta"), None);
    let files = [fa, fb];
    assert_eq!(find_tensor(&files, "beta"), Some(&[0x40u8, 0x40][..]));
    assert_eq!(find_tensor(&files, "alpha").map(|d| d.len()), Some(4));
    assert_eq!(find_tensor(&files, "gamma"), None);
}

#[test]
fn malformed_files_are_refused() {
    assert!(TensorFile::open(&[1, 2, 3]).is_err());
    let mut bad = safetensors_file("alpha", &[0, 0]);
    bad.push(0);
    assert!(TensorFile::open(&bad).is_err());
}

#[test]
fn bf16_tensors_widen_and_pad() {
    let data = [0x80, 0x3F, 0x00, 0x40];
    let out = tensor_f32_bits(&data, None);
    assert_eq!(out.iter().map(|&b| f32::from_bits(b)).collect::<Vec<_>>(), vec![1.0, 2.0]);
    let padded = tensor_f32_bits(&data, Some(5));
    assert_eq!(padded.iter().map(|&b| f32::from_bits(b)).collect::<Vec<_>>(), vec![1.0, 2.0, 0.0, 0.0, 0.0]);
    let unchanged = tensor_f32_bits(&data, Some(1));
    assert_eq!(unchanged.len(), 2);
}

fn raw_file(header: &str, data: &[u8]) -> Vec<u8> {
    let mut out = Vec::new();
    out.extend_from_slice(&(header.len() as u64).to_le_bytes());
    out.extend_from_slice(header.as_bytes());
    out.extend_from_slice(data);
    out
}

#[test]
fn offsets_near_the_word_limit_are_refused_before_parsing() {
    let big = (1u64 << 61) - 1;
    let mut entries = Vec::new();
    let mut start = 0u64;
    for i in 0..8 {
        entries.push(format!(
            "\"t{}\":{{\"dtype\":\"U8\",\"shape\":[{}],\"data_offsets\":[{},{}]}}",
            i,
            big,
            start,
            start + big
        ));
        start += big;
    }
    entries.push(format!(
        "\"t8\":{{\"dtype\":\"U8\",\"shape\":[3],\"data_offsets\":[{},{}]}}",
        start,
        start + 3
    ));
    let header = format!("{{{}}}", entries.join(","));
    let file = raw_file(&header, &[]);
    assert!(oversized_offset(&file));
    assert_eq!(TensorFile::open(&file).err(), Some(TensorFileError::OversizedOffset));
}

#[test]
fn only_data_offsets_are_bounded() {
    let long_name = safetensors_file("layer.123456789012345678901234567890", &[0, 0]);
    assert!(!oversized_offset(&long_name));
    assert!(TensorFile::open(&long_name).is_ok());
    let escaped = safetensors_file("a\\\"99999999999999999999999", &[0, 0]);
    assert!(!oversized_offset(&escaped));
    assert!(TensorFile::open(&escaped).is_ok());
    let header = "{\"w\":{\"dtype\":\"U8\",\"shape\":[22],\"data_offsets\":[0,22]}}";
    let data = b"1234567890123456789012".to_vec();
    let file = raw_file(header, &data);
    assert!(!oversized_offset(&file));
    assert!(TensorFile::open(&file).is_ok());
    let empty_dim = raw_file(
        "{\"w\":{\"dtype\":\"U8\",\"shape\":[18446744073709551615,0],\"data_offsets\":[0,0]}}",
        &[],
    );
    assert!(!oversized_offset(&empty_dim));
    assert!(TensorFile::open(&empty_dim).is_ok());
    let extra_fields = raw_file(
        "{\"w\":{\"dtype\":\"U8\",\"shape\":[1],\"data_offsets\":[0,1],\"n\":99999999999999999999999,\"x\":{\"data_offsets\":[0,99999999999999999999999]}}}",
        &[7],
    );
    assert!(!oversized_offset(&extra_fields));
    assert_eq!(TensorFile::open(&extra_fields).ok().unwrap().tensor("w"), Some(&[7u8][..]));
    let big_but_safe = raw_file(
        "{\"w\":{\"dtype\":\"U8\",\"shape\":[10000000000000000000],\"data_offsets\":[0,10000000000000000000]}}",
        &[],
    );
    assert!(!oversized_offset(&big_but_safe));
    assert_eq!(TensorFile::open(&big_but_safe).err(), Some(TensorFileError::Malformed));
    let just_over = raw_file(
        "{\"w\":{\"dtype\":\"U8\",\"shape\":[1],\"data_offsets\":[0,18446744073709551615]}}",
        &[],
    );
    assert!(oversized_offset(&just_over));
    let spaced = raw_file(
        "{ \"w\" : { \"dtype\" : \"U8\" , \"data_offsets\" :\n[ 0 , 18446744073709551615 ] } }",
        &[],
    );
    assert!(oversized_offset(&spaced));
    let escaped_key = raw_file(
        "{\"w\":{\"dtype\":\"U8\",\"shape\":[1],\"data\\u005Foffsets\":[0,18446744073709551615]}}",
        &[],
    );
    assert!(oversized_offset(&escaped_key));
    assert_eq!(TensorFile::open(&escaped_key).err(), Some(TensorFileError::OversizedOffset));
    assert!(!oversized_offset(&[1, 2, 3]));
    assert_eq!(TensorFile::open(&[1, 2, 3]).err(), Some(TensorFileError::Malformed));
}
