use rustpotion::{EmbeddingTable, EncodeError, InitError, Pooling, PotionModel, RustPotion, Vocabulary};

fn vocab(entries: &[(&str, i32)]) -> Vocabulary {
    Vocabulary::from_entries(entries.iter().map(|(t, i)| (t.to_string(), *i)).collect()).unwrap()
}

fn table(rows: &[&[f32]]) -> EmbeddingTable {
    let d = if rows.is_empty() { 0 } else { rows[0].len() };
    let words: Vec<u32> = rows.iter().flat_map(|r| r.iter().map(|x| x.to_bits())).collect();
    EmbeddingTable::new(words, rows.len(), d).unwrap()
}

fn bundle(rows: &[&[f32]], entries: &[(&str, i32)]) -> RustPotion {
    RustPotion::new(table(rows), vocab(entries)).unwrap()
}

/// The mean of the rows, scaled to unit length; `None` where the norm is zero.
fn pool(rows: &[&[u32]], d: usize) -> Option<Vec<f32>> {
    let mut out = vec![0.0f32; d];
    for row in rows {
        for i in 0..d {
            out[i] += f32::from_bits(row[i]);
        }
    }
    for x in out.iter_mut() {
        *x /= rows.len() as f32;
    }
    let norm = out.iter().map(|x| x * x).sum::<f32>().sqrt();
    if norm == 0.0 {
        return None;
    }
    for x in out.iter_mut() {
        *x /= norm;
    }
    Some(out)
}

/// The embedding of `sentence`.
fn embed(b: &RustPotion, sentence: &str) -> Result<Vec<f32>, EncodeError> {
    match b.encode(sentence)? {
        Pooling::Zero(length) => Ok(vec![0.0; length]),
        Pooling::Mean(rows) => pool(&rows, b.dimensions()).ok_or(EncodeError::DegenerateEmbedding),
    }
}

const EXPECTED: [f32; 64] = [
    -0.2448156, 0.061568744, -0.22705789, -0.31100106, 0.12387812, 0.012164102, 0.01942585, 0.035540108,
    -0.07884298, -0.06828589, 0.050681777, 0.010798689, -0.24065527, 0.017179, -0.14778298, 0.017902775,
    -0.021063324, 0.0009791754, 0.1243356, 0.068948865, 0.07675242, 0.075124845, -0.24434778, -0.04048412,
    -0.103753075, 0.09782061, -0.061317045, 0.10301087, -0.08056018, 0.07269006, -0.09015573, 0.10328307,
    -0.036621373, -0.15114696, -0.1601051, 0.07354359, 0.1521876, 0.14489494, 0.0033242279, 0.042615157,
    0.16762823, 0.14624678, -0.056714535, 0.006396434, 0.22005582, -0.12236872, 0.12488188, -0.11172927,
    -0.10943516, 0.038111348, 0.03470044, -0.14869972, -0.10061913, -0.04580568, 0.12865654, 0.040736992,
    0.09603614, -0.030117376, 0.34759793, 0.1326759, 0.063730046, -0.09230757, 0.20546633, 0.046358567,
];

#[test]
fn load_and_encode() {
    // The table holds, for the one token, the vector that the published
    // model has for this sentence.
    let encoder = bundle(&[&EXPECTED], &[("test", 0)]);
    let expected: Vec<u32> = EXPECTED.iter().map(|x| x.to_bits()).collect();
    assert_eq!(encoder.encode("test"), Ok(Pooling::Mean(vec![&expected[..]])));
    let got = embed(&encoder, "test").unwrap();
    assert_eq!(got.len(), 64);
    for i in 0..64 {
        assert!((got[i] - EXPECTED[i]).abs() < 1e-6, "component {}", i);
    }
}

#[test]
fn zeroed() {
    let encoder = bundle(&[&[0.25f32; 64]], &[("test", 0)]);
    assert_eq!(embed(&encoder, ""), Ok(vec![0.0; 64]));
    assert_eq!(encoder.encode(""), Ok(Pooling::Zero(64)));
}

#[test]
fn a_unit_row_is_its_own_embedding() {
    let zero = [0.0f32; 4];
    let b = bundle(&[&zero, &zero, &zero, &zero, &zero, &[1.0, 0.0, 0.0, 0.0]], &[("test", 5)]);
    assert_eq!(b.dimensions(), 4);
    assert_eq!(embed(&b, "test"), Ok(vec![1.0, 0.0, 0.0, 0.0]));
}

#[test]
fn the_rows_of_the_tokens_are_handed_out_in_order() {
    let b = bundle(
        &[&[1.0, 2.0], &[3.0, 4.0], &[5.0, 6.0]],
        &[("hello", 2), (",", 0), ("world", 1), ("##s", 2)],
    );
    let row = |x: f32, y: f32| vec![x.to_bits(), y.to_bits()];
    let (r0, r1, r2) = (row(1.0, 2.0), row(3.0, 4.0), row(5.0, 6.0));
    assert_eq!(
        b.encode("Hello, worlds"),
        Ok(Pooling::Mean(vec![&r2[..], &r0[..], &r1[..], &r2[..]]))
    );
}

#[test]
fn the_mean_is_taken_over_the_tokens() {
    let b = bundle(&[&[3.0, 0.0], &[0.0, 4.0]], &[("a", 0), ("b", 1)]);
    // Mean (1.5, 2.0), norm 2.5.
    assert_eq!(embed(&b, "a b"), Ok(vec![0.6, 0.8]));
    // Mean (2.0, 4.0 / 3.0) of three rows.
    let got = embed(&b, "a a b").unwrap();
    let norm = (4.0f32 + 16.0 / 9.0).sqrt();
    assert!((got[0] - 2.0 / norm).abs() < 1e-6);
    assert!((got[1] - (4.0 / 3.0) / norm).abs() < 1e-6);
}

#[test]
fn an_embedding_has_unit_length() {
    let b = bundle(
        &[&[0.3, -1.2, 4.0], &[2.0, 0.1, -0.7], &[-5.0, 0.0, 0.25]],
        &[("one", 0), ("two", 1), ("three", 2), ("##s", 1)],
    );
    for sentence in ["one", "one two", "three twos one", "ones ones ones"] {
        let v = embed(&b, sentence).unwrap();
        let norm = v.iter().map(|x| x * x).sum::<f32>().sqrt();
        assert!((norm - 1.0).abs() < 1e-5, "sentence {:?}", sentence);
    }
}

#[test]
fn every_result_has_the_dimension_of_the_table() {
    let b = bundle(&[&[1.0, 2.0, 3.0], &[4.0, 5.0, 6.0]], &[("a", 0), ("b", 1)]);
    for sentence in ["", "a", "b a", "a, b", "A B A B"] {
        match b.encode(sentence) {
            Ok(Pooling::Zero(length)) => assert_eq!(length, 3),
            Ok(Pooling::Mean(rows)) => {
                assert!(!rows.is_empty());
                assert!(rows.iter().all(|r| r.len() == 3));
            }
            Err(_) => {}
        }
    }
    assert_eq!(embed(&b, "b a").unwrap().len(), 3);
    assert_eq!(embed(&b, "").unwrap().len(), 3);
}

#[test]
fn encoding_twice_gives_the_same() {
    let b = bundle(&[&[1.0, 2.0], &[3.0, 4.0]], &[("a", 0), ("b", 1)]);
    for sentence in ["", "a b", "b", "c", "  "] {
        assert_eq!(b.encode(sentence), b.encode(sentence));
        assert_eq!(embed(&b, sentence), embed(&b, sentence));
    }
}

#[test]
fn an_unknown_word_fails_the_sentence() {
    let b = bundle(&[&[1.0, 2.0]], &[("a", 0)]);
    assert_eq!(b.encode("a zebra a"), Err(EncodeError::UnknownToken("zebra".to_string())));
}

#[test]
fn a_sentence_without_tokens_is_degenerate() {
    let b = bundle(&[&[1.0, 2.0]], &[("a", 0)]);
    assert_eq!(b.encode(" "), Err(EncodeError::DegenerateEmbedding));
    assert_eq!(b.encode("@#$"), Err(EncodeError::DegenerateEmbedding));
    assert_eq!(b.encode("\u{4f60}\u{597d}"), Err(EncodeError::DegenerateEmbedding));
}

#[test]
fn rows_that_cancel_pool_to_nothing() {
    let b = bundle(&[&[1.0, -2.0], &[-1.0, 2.0]], &[("a", 0), ("b", 1)]);
    assert_eq!(embed(&b, "a b"), Err(EncodeError::DegenerateEmbedding));
}

#[test]
fn a_batch_is_encoded_sentence_by_sentence() {
    let b = bundle(&[&[1.0, 2.0], &[3.0, 4.0]], &[("a", 0), ("b", 1)]);
    let sentences: Vec<String> =
        ["a", "", "b a", "nope", " ", "B"].iter().map(|s| s.to_string()).collect();
    let all = b.encode_many(sentences.clone());
    assert_eq!(all.len(), sentences.len());
    for (i, s) in sentences.iter().enumerate() {
        assert_eq!(all[i], b.encode(s), "sentence {}", i);
    }
    assert_eq!(all[3], Err(EncodeError::UnknownToken("nope".to_string())));
    assert_eq!(all[4], Err(EncodeError::DegenerateEmbedding));
    // A sentence has the same result in any batch.
    let other = b.encode_many(vec!["b a".to_string()]);
    assert_eq!(other[0], all[2]);
    assert_eq!(b.encode_many(Vec::new()), Vec::new());
}

#[test]
fn a_vocabulary_that_names_a_missing_row_is_a_shape_mismatch() {
    let r = RustPotion::new(table(&[&[1.0], &[2.0]]), vocab(&[("a", 0), ("b", 2)]));
    assert_eq!(r.err(), Some(InitError::ShapeMismatch));
    assert!(RustPotion::new(table(&[&[1.0], &[2.0]]), vocab(&[("a", 0), ("b", 1)])).is_ok());
    assert!(RustPotion::new(table(&[]), vocab(&[])).is_ok());
    assert_eq!(RustPotion::new(table(&[]), vocab(&[("a", 0)])).err(), Some(InitError::ShapeMismatch));
}

#[test]
fn a_bundle_hands_out_its_parts() {
    let b = bundle(&[&[1.0, 2.0], &[3.0, 4.0]], &[("a", 0), ("b", 1)]);
    assert_eq!(b.table().rows(), 2);
    assert_eq!(b.table().dimensions(), 2);
    assert_eq!(b.vocab().get("b"), Some(1));
    assert_eq!(b.dimensions(), 2);
}

#[test]
fn variants_are_named_as_their_directories() {
    assert_eq!(PotionModel::RETRIEVAL32M.name(), "RETRIEVAL32M");
    assert_eq!(PotionModel::BASE8M.name(), "BASE8M");
    assert_eq!(PotionModel::BASE4M.name(), "BASE4M");
    assert_eq!(PotionModel::BASE2M.name(), "BASE2M");
    assert_eq!(format!("{:?}", PotionModel::BASE2M), "BASE2M");
    assert_eq!(rustpotion::model::tensor_file_name(), "model.safetensors");
    assert_eq!(rustpotion::model::tokenizer_file_name(), "tokenizer.json");
}

fn le_bytes(values: &[f32]) -> Vec<u8> {
    values.iter().flat_map(|v| v.to_le_bytes()).collect()
}

fn entries(list: &[(&str, i32)]) -> Vec<(String, i32)> {
    list.iter().map(|(t, i)| (t.to_string(), *i)).collect()
}

fn container(name: &str, shape: Vec<usize>, values: &[f32]) -> Vec<u8> {
    let data = le_bytes(values);
    let view =
        safetensors::tensor::TensorView::new(safetensors::tensor::Dtype::F32, shape, &data).unwrap();
    safetensors::serialize(vec![(name.to_string(), view)], None).unwrap()
}

#[test]
fn a_bundle_is_built_from_a_tensor_and_entries() {
    let data = le_bytes(&[1.0, 0.0, 0.0, 2.0]);
    let b = RustPotion::from_parts(&[2, 2], &data, entries(&[("a", 0), ("b", 1)])).unwrap();
    assert_eq!(b.dimensions(), 2);
    assert_eq!(b.table().rows(), 2);
    assert_eq!(embed(&b, "b"), Ok(vec![0.0, 1.0]));
}

#[test]
fn building_reports_the_first_thing_that_is_wrong() {
    let data = le_bytes(&[1.0, 0.0, 0.0, 2.0]);
    let build = |shape: &[usize], list: &[(&str, i32)]| {
        RustPotion::from_parts(shape, &data, entries(list)).err()
    };
    // The shape is looked at before the entries.
    assert_eq!(build(&[3, 2], &[("a", -1)]), Some(InitError::ShapeMismatch));
    assert_eq!(build(&[2, 2], &[("a", -1)]), Some(InitError::MalformedVocabulary));
    assert_eq!(build(&[2, 2], &[("a", 0), ("a", 1)]), Some(InitError::MalformedVocabulary));
    assert_eq!(build(&[2, 2], &[("a", 0), ("b", 2)]), Some(InitError::ShapeMismatch));
    assert_eq!(build(&[2, 2], &[]), None);
}

#[test]
fn a_bundle_is_built_from_a_container() {
    let bytes = container("embeddings", vec![6, 4], &{
        let mut values = vec![0.0f32; 24];
        values[20] = 1.0;
        values
    });
    let b = RustPotion::from_artifacts(&bytes, entries(&[("test", 5)])).unwrap();
    assert_eq!(b.dimensions(), 4);
    assert_eq!(embed(&b, "test"), Ok(vec![1.0, 0.0, 0.0, 0.0]));
    assert_eq!(embed(&b, "Test!"), Err(EncodeError::UnknownToken("!".to_string())));
}

#[test]
fn a_container_is_looked_at_before_the_entries() {
    let good = container("embeddings", vec![1, 2], &[1.0, 2.0]);
    let other = container("weights", vec![1, 2], &[1.0, 2.0]);
    let flat = container("embeddings", vec![2], &[1.0, 2.0]);
    let build = |bytes: &[u8], list: &[(&str, i32)]| {
        RustPotion::from_artifacts(bytes, entries(list)).err()
    };
    assert_eq!(build(b"junk", &[("a", -1)]), Some(InitError::MalformedTensorContainer));
    assert_eq!(build(&other, &[("a", 0)]), Some(InitError::MalformedTensorContainer));
    assert_eq!(build(&flat, &[("a", -1)]), Some(InitError::ShapeMismatch));
    let whole = {
        let data = [0u8; 8];
        let view = safetensors::tensor::TensorView::new(
            safetensors::tensor::Dtype::I32,
            vec![1, 2],
            &data,
        )
        .unwrap();
        safetensors::serialize(vec![("embeddings".to_string(), view)], None).unwrap()
    };
    assert_eq!(build(&whole, &[("a", 0)]), Some(InitError::ShapeMismatch));
    assert_eq!(build(&good, &[("a", -1)]), Some(InitError::MalformedVocabulary));
    assert_eq!(build(&good, &[("a", 1)]), Some(InitError::ShapeMismatch));
    assert_eq!(build(&good, &[("a", 0)]), None);
}
