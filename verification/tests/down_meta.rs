use std::collections::HashMap;

use larql::archive::{read_tensor_pair, ENDS_BEYOND};
use larql::down_meta::{
    describe_batch, down_source, feature_batches, feature_count, feature_meta, gather_layers,
    layer_batches, locate_tensor, read_packed_down, write_down_meta, Batch, DownMetaStep,
    DownSource, ExpertFormat, FeatureMeta, LayerResult, Listing, MatrixBatch, PackedRead,
    TensorIndex, TensorPlace,
};
use larql::error::VindexError;
use larql::float_bits::{is_nan, is_not_positive, numeric_order_key, total_order_key};
use larql::header::check_data_ends;
use larql::lists::present;
use larql::text::{is_white_space, trim};
use larql::top_k::{select_top, Scored};
use safetensors::tensor::TensorView;
use safetensors::{serialize, Dtype};

/// An archive of byte tensors.
fn archive(tensors: &[(&str, &[usize], &[u8])]) -> Vec<u8> {
    let views: Vec<(&str, TensorView<'_>)> = tensors
        .iter()
        .map(|(name, shape, data)| {
            (*name, TensorView::new(Dtype::U8, shape.to_vec(), data).unwrap())
        })
        .collect();
    serialize(views, None::<HashMap<String, String>>).unwrap()
}

/// An archive with a given header and no data.
fn raw_archive(header: &str) -> Vec<u8> {
    let mut bytes = (header.len() as u64).to_le_bytes().to_vec();
    bytes.extend_from_slice(header.as_bytes());
    bytes
}

fn place<'a>(shard: &'a [u8], name: &'a str) -> Option<TensorPlace<'a>> {
    Some(TensorPlace { shard, name })
}

fn bits(column: &[f32]) -> Vec<u32> {
    column.iter().map(|score| score.to_bits()).collect()
}

fn interesting_floats() -> Vec<f32> {
    vec![
        0.0,
        -0.0,
        1.0,
        -1.0,
        1.5,
        -2.5e-20,
        f32::MIN_POSITIVE,
        f32::from_bits(1),
        -f32::from_bits(1),
        f32::MAX,
        f32::MIN,
        f32::INFINITY,
        f32::NEG_INFINITY,
        f32::NAN,
        -f32::NAN,
        f32::from_bits(0x7f80_0001),
        f32::from_bits(0xffff_ffff),
    ]
}

#[test]
fn bit_patterns_order_as_floats_do() {
    for a in interesting_floats() {
        assert_eq!(is_nan(a.to_bits()), a.is_nan(), "{a}");
        assert_eq!(is_not_positive(a.to_bits()), a <= 0.0, "{a}");
        for b in interesting_floats() {
            let (left, right) = (a.to_bits(), b.to_bits());
            assert_eq!(total_order_key(left).cmp(&total_order_key(right)), a.total_cmp(&b));
            if let Some(order) = a.partial_cmp(&b) {
                assert_eq!(numeric_order_key(left).cmp(&numeric_order_key(right)), order);
            }
        }
    }
}

#[test]
fn top_scores_come_highest_first() {
    let top = select_top(&bits(&[0.5, 3.0, -1.0, 2.0, f32::INFINITY]), 3);
    let picked: Vec<(usize, f32)> =
        top.picked.iter().map(|score| (score.index, f32::from_bits(score.bits))).collect();
    assert_eq!(picked, vec![(4, f32::INFINITY), (1, 3.0), (3, 2.0)]);
    assert_eq!(top.nan_count, 0);
}

#[test]
fn nan_scores_take_no_part() {
    let top = select_top(&bits(&[f32::NAN, 1.0, -f32::NAN, 2.0]), 10);
    let picked: Vec<usize> = top.picked.iter().map(|score| score.index).collect();
    assert_eq!(picked, vec![3, 1]);
    assert_eq!(top.nan_count, 2);
    let top = select_top(&bits(&[f32::NAN]), 1);
    assert!(top.picked.is_empty());
    assert_eq!(top.nan_count, 1);
}

#[test]
fn equal_scores_keep_their_order() {
    let top = select_top(&bits(&[1.0, 2.0, 1.0, 2.0, 2.0]), 4);
    let picked: Vec<usize> = top.picked.iter().map(|score| score.index).collect();
    assert_eq!(picked, vec![1, 3, 4, 0]);
    // Zeros differ in the total order.
    let top = select_top(&bits(&[-0.0, 0.0]), 1);
    assert_eq!(top.picked[0].index, 1);
}

#[test]
fn top_of_nothing_is_nothing() {
    assert!(select_top(&vec![], 3).picked.is_empty());
    assert!(select_top(&bits(&[1.0, 2.0]), 0).picked.is_empty());
}

#[test]
fn picked_scores_are_those_of_a_full_sort() {
    let mut state: u32 = 1;
    let column: Vec<f32> = (0..200)
        .map(|_| {
            state = state.wrapping_mul(1_664_525).wrapping_add(1_013_904_223);
            f32::from_bits(state)
        })
        .collect();
    let mut order: Vec<usize> = (0..column.len()).filter(|&i| !column[i].is_nan()).collect();
    order.sort_by(|&a, &b| column[b].total_cmp(&column[a]));
    for k in [0, 1, 7, 100, 500] {
        let top = select_top(&bits(&column), k);
        let picked: Vec<usize> = top.picked.iter().map(|score| score.index).collect();
        assert_eq!(picked, order[..k.min(order.len())]);
        assert_eq!(top.nan_count, column.len() - order.len());
    }
}

#[test]
fn stage_marks_the_checkpoint_last() {
    assert_eq!(
        write_down_meta(false),
        vec![
            DownMetaStep::AnnounceStage,
            DownMetaStep::BuildVocabulary,
            DownMetaStep::ProjectLayers,
            DownMetaStep::WriteBinary,
            DownMetaStep::StageDone,
            DownMetaStep::MarkCheckpoint,
        ]
    );
}

#[test]
fn resumed_stage_is_skipped() {
    assert_eq!(
        write_down_meta(true),
        vec![
            DownMetaStep::AnnounceStage,
            DownMetaStep::NoticeSkip,
            DownMetaStep::BuildVocabulary,
        ]
    );
}

#[test]
fn down_matrices_come_from_where_the_format_has_them() {
    for (format, is_moe, n_experts, source) in [
        (ExpertFormat::PackedMxfp4, true, 8, DownSource::Packed),
        (ExpertFormat::PackedMxfp4, false, 0, DownSource::Packed),
        (ExpertFormat::PackedBF16, true, 8, DownSource::Dense),
        (ExpertFormat::PackedBF16, false, 8, DownSource::Dense),
        (ExpertFormat::PerExpert, true, 8, DownSource::Experts(8)),
        (ExpertFormat::PerExpert, true, 0, DownSource::Dense),
        (ExpertFormat::PerExpert, false, 8, DownSource::Dense),
    ] {
        assert_eq!(down_source(format, is_moe, n_experts), source);
    }
}

#[test]
fn packed_tensors_are_read_from_their_archives() {
    let blocks_data: Vec<u8> = (0..24).collect();
    let blocks = archive(&[
        ("other", &[1], &[99]),
        ("blocks", &[2, 3, 4], &blocks_data),
    ]);
    let scales = archive(&[("scales", &[2, 3], &[7, 8, 9, 10, 11, 12])]);
    match read_packed_down(place(&blocks, "blocks"), place(&scales, "scales")) {
        Ok(PackedRead::Loaded(packed)) => {
            assert_eq!(packed.n_experts, 2);
            assert_eq!(packed.out_features, 3);
            assert_eq!(packed.groups, 4);
            assert_eq!(packed.in_features, 128);
            assert_eq!(packed.blocks, &blocks_data[..]);
            assert_eq!(packed.scales, &[7, 8, 9, 10, 11, 12]);
        }
        _ => panic!("not loaded"),
    }
}

#[test]
fn a_tensor_that_is_not_listed_leaves_the_layer_empty() {
    let blocks = archive(&[("blocks", &[1, 1, 1], &[1])]);
    assert!(matches!(read_packed_down(None, None), Ok(PackedRead::Absent)));
    assert!(matches!(read_packed_down(place(&blocks, "blocks"), None), Ok(PackedRead::Absent)));
    assert!(matches!(read_packed_down(None, place(&blocks, "blocks")), Ok(PackedRead::Absent)));
}

#[test]
fn a_flat_block_tensor_is_misshapen() {
    let blocks = archive(&[("blocks", &[2, 3], &[0; 6]), ("scales", &[1], &[0])]);
    let read = read_packed_down(place(&blocks, "blocks"), place(&blocks, "scales"));
    assert!(matches!(read, Ok(PackedRead::Misshapen)));
}

/// The text of the error on reading two tensors.
fn read_error(first: &[u8], first_name: &str, second: &[u8], second_name: &str) -> String {
    match read_packed_down(place(first, first_name), place(second, second_name)) {
        Err(VindexError::Parse(text)) => text,
        Ok(_) => panic!("read"),
    }
}

#[test]
fn unreadable_archives_are_parse_errors() {
    let good = archive(&[("blocks", &[1, 1, 1], &[1])]);
    let mut cut = good.clone();
    cut.pop();
    let mut frame = vec![0u8; 8];
    frame[0] = 1;
    let mut vast = vec![0u8; 8];
    vast[4] = 1;
    for (bytes, text) in [
        (&b""[..], "header too small"),
        (&b"1234567"[..], "header too small"),
        (&frame[..], "invalid header length"),
        (&vast[..], "header too large"),
        (&cut[..], "incomplete metadata, file not fully covered"),
    ] {
        assert_eq!(read_error(bytes, "blocks", &good, "blocks"), text);
        assert_eq!(read_error(&good, "blocks", bytes, "blocks"), text);
        // Both archives are parsed before either tensor is looked up.
        assert_eq!(read_error(&good, "scales", bytes, "blocks"), text);
    }
}

#[test]
fn unknown_tensors_are_parse_errors_that_name_them() {
    let good = archive(&[("blocks", &[1, 1, 1], &[1])]);
    assert_eq!(read_error(&good, "blocks", &good, "scales"), "tensor `scales` not found");
    assert_eq!(read_error(&good, "scales", &good, "blocks"), "tensor `scales` not found");
    assert_eq!(read_error(&good, "one", &good, "other"), "tensor `one` not found");
}

#[test]
fn tensors_are_located_by_key() {
    let mut index = TensorIndex::new();
    index.insert("k".to_string(), Listing { shard: 1, name: "stored".to_string() });
    let shards: Vec<&[u8]> = vec![&[1], &[2]];
    let found = locate_tensor(&Some("k".to_string()), &index, &shards).unwrap();
    assert_eq!((found.shard, found.name), (&[2u8][..], "stored"));
    assert!(locate_tensor(&Some("other".to_string()), &index, &shards).is_none());
    assert!(locate_tensor(&None, &index, &shards).is_none());
    index.insert(String::new(), Listing { shard: 0, name: "blank".to_string() });
    let found = locate_tensor(&None, &index, &shards).unwrap();
    assert_eq!((found.shard, found.name), (&[1u8][..], "blank"));
}

#[test]
fn tensor_pairs_carry_shape_and_bytes() {
    let first = archive(&[("a", &[2], &[1, 2]), ("b", &[1], &[3])]);
    let second = archive(&[("a", &[1, 3], &[4, 5, 6])]);
    match read_tensor_pair(&first, "b", &second, "a") {
        Ok((one, two)) => {
            assert_eq!((one.shape, one.data), (vec![1], &[3u8][..]));
            assert_eq!((two.shape, two.data), (vec![1, 3], &[4u8, 5, 6][..]));
        }
        Err(VindexError::Parse(text)) => panic!("{text}"),
    }
}

/// Bytes of the largest tensor whose bits can be counted.
const EIGHTH: usize = usize::MAX / 8;

/// Eight tensors, one behind the other, that end just short of the range of `usize`. `entry` writes
/// a tensor, given its name and where its data start and end.
fn spanning(entry: impl Fn(usize, usize, usize) -> String) -> Vec<String> {
    (0..8).map(|i| entry(i, i * EIGHTH, (i + 1) * EIGHTH)).collect()
}

fn by_name(i: usize, start: usize, end: usize) -> String {
    format!(
        r#""t{i}":{{"dtype":"U8","shape":[{EIGHTH}],"data\u005Foff\u0073ets" : [ {start} , {end} ]}}"#
    )
}

fn by_place(i: usize, start: usize, end: usize) -> String {
    format!(r#""t{i}":[{{"U8":null}},[{EIGHTH}],[{start},{end}]]"#)
}

#[test]
fn data_ends_beyond_the_archive_are_refused() {
    for entries in [spanning(by_name), spanning(by_place)] {
        let bytes = raw_archive(&format!("{{{}}}", entries.join(",")));
        assert!(!check_data_ends(&bytes));
        assert_eq!(read_error(&bytes, "t0", &bytes, "t0"), ENDS_BEYOND);
    }
    assert!(check_data_ends(&archive(&[("a", &[2], &[1, 2])])));
    assert!(check_data_ends(b"short"));
}

#[test]
fn too_few_tensors_to_span_the_range_are_left_to_the_parser() {
    for entries in [spanning(by_name), spanning(by_place)] {
        let bytes = raw_archive(&format!("{{{}}}", entries[..7].join(",")));
        assert!(check_data_ends(&bytes));
        let text = "incomplete metadata, file not fully covered";
        assert_eq!(read_error(&bytes, "t0", &bytes, "t0"), text);
    }
    for header in [
        r#"{"a":{"dtype":"U8","shape":[1],"data_offsets":[0,18446744073709551615]}}"#,
        r#"{"a":["U8",[1],[0,18446744073709551615]]}"#,
    ] {
        let bytes = raw_archive(header);
        assert!(check_data_ends(&bytes));
        let text = "invalid shape, data type, or offset for tensor";
        assert_eq!(read_error(&bytes, "a", &bytes, "a"), text);
    }
}

#[test]
fn only_the_last_tensor_of_a_name_counts() {
    let mut entries = spanning(by_name);
    // The same names, some of them written with escapes.
    for i in 0..8 {
        let name = if i % 2 == 0 { format!("t{i}") } else { format!("\\u0074\\u003{i}") };
        entries.push(format!(r#""{name}":["U8",[0],[0,0]]"#));
    }
    let bytes = raw_archive(&format!("{{{}}}", entries.join(",")));
    assert!(check_data_ends(&bytes));
    match read_tensor_pair(&bytes, "t0", &bytes, "t7") {
        Ok((one, two)) => assert_eq!((one.shape, two.shape), (vec![0], vec![0])),
        Err(VindexError::Parse(text)) => panic!("{text}"),
    }
    // Overridden the other way round, the long ones count.
    entries.rotate_left(8);
    let bytes = raw_archive(&format!("{{{}}}", entries.join(",")));
    assert!(!check_data_ends(&bytes));
    assert_eq!(read_error(&bytes, "t0", &bytes, "t7"), ENDS_BEYOND);
}

#[test]
fn names_are_compared_as_they_are_meant() {
    let long = format!(r#"["U8",[{EIGHTH}],[0,{}]]"#, usize::MAX);
    let short = r#"["U8",[0],[0,0]]"#;
    let fill: Vec<String> = (0..8).map(|i| format!(r#""f{i}":{short}"#)).collect();
    for (one, other, same) in [
        ("é", "\\u00e9", true),
        ("€", "\\u20AC", true),
        ("😀", "\\ud83d\\uDE00", true),
        ("\\/\\n", "/\\u000a", true),
        ("\\\"\\\\", "\\u0022\\u005c", true),
        ("é", "e\\u0301", false),
        ("a", "b", false),
        ("a", "aa", false),
    ] {
        let header = format!(r#"{{"{one}":{long},"{other}":{short},{}}}"#, fill.join(","));
        assert_eq!(check_data_ends(&raw_archive(&header)), same, "{header}");
    }
}

#[test]
fn numbers_that_end_no_data_are_left_to_the_parser() {
    let name = "data_offsets\u{7}18446744073709551615";
    let named = r#"{"data_offsets\u000718446744073709551615":["U8",[0],[0,0]]}"#;
    let shape = vec![0, usize::MAX];
    for (header, name, shape) in [
        (r#"{"a":["U8",[0,18446744073709551615],[0,0]]}"#, "a", shape.clone()),
        (
            r#"{"a":{"dtype":"U8","shape":[0,18446744073709551615],"data_offsets":[0,0]}}"#,
            "a",
            shape.clone(),
        ),
        (
            r#"{"a":{"sh\u0061pe":[0,18446744073709551615],"dtype":"U8","data_offsets":[0,0]}}"#,
            "a",
            shape,
        ),
        (
            r#"{"a":{"note":[0,99999999999999999999],"dtype":"U8","shape":[0],"data_offsets":[0,0]}}"#,
            "a",
            vec![0],
        ),
        (named, name, vec![0]),
    ] {
        let bytes = raw_archive(header);
        assert!(check_data_ends(&bytes), "{header}");
        match read_tensor_pair(&bytes, name, &bytes, name) {
            Ok((one, _)) => assert_eq!((one.shape, one.data), (shape, &[][..]), "{header}"),
            Err(VindexError::Parse(text)) => panic!("{header}: {text}"),
        }
    }
}

#[test]
fn summary_caps_the_features() {
    assert_eq!(feature_count(100, 0), 100);
    assert_eq!(feature_count(100, 10), 10);
    assert_eq!(feature_count(10, 10), 10);
    assert_eq!(feature_count(5, 10), 5);
}

#[test]
fn batches_cut_all_features_once() {
    for (features, size) in [(0, 4), (1, 4), (4, 4), (10, 4), (12, 4), (3, usize::MAX)] {
        let batches: Vec<(usize, usize)> =
            feature_batches(features, size).iter().map(|batch| (batch.start, batch.end)).collect();
        let expected: Vec<(usize, usize)> = (0..features)
            .step_by(size)
            .map(|start| (start, start.saturating_add(size).min(features)))
            .collect();
        assert_eq!(batches, expected);
    }
}

#[test]
fn feature_is_named_by_its_strongest_token_with_text() {
    let picked = vec![
        Scored { index: 0, bits: 3.0f32.to_bits() },
        Scored { index: 2, bits: 2.0f32.to_bits() },
        Scored { index: 1, bits: 1.0f32.to_bits() },
        Scored { index: 4, bits: 0.5f32.to_bits() },
    ];
    let vocabulary = vec![
        Some(" \t\n".to_string()),
        None,
        Some("\u{3000} Paris\u{a0}".to_string()),
        Some("unused".to_string()),
        Some("in Rome".to_string()),
    ];
    let meta = feature_meta(&picked, &vocabulary);
    assert_eq!(meta.top_token, "Paris");
    assert_eq!(meta.top_token_id, 2);
    assert_eq!(f32::from_bits(meta.c_score), 2.0);
    let entries: Vec<(&str, u32, f32)> = meta
        .top_k
        .iter()
        .map(|entry| (entry.token.as_str(), entry.token_id, f32::from_bits(entry.logit)))
        .collect();
    assert_eq!(entries, vec![("Paris", 2, 2.0), ("in Rome", 4, 0.5)]);
}

#[test]
fn feature_without_text_is_blank() {
    let meta = feature_meta(&vec![Scored { index: 0, bits: 3.0f32.to_bits() }], &vec![None]);
    assert_eq!(meta.top_token, "");
    assert_eq!(meta.top_token_id, 0);
    assert_eq!(f32::from_bits(meta.c_score), 0.0);
    assert!(meta.top_k.is_empty());
}

#[test]
fn trimming_is_that_of_str() {
    for text in ["", " ", "a", " a ", "\u{2003}a b\u{85}\u{2029}", "\u{200b}a", "x\r\n", "\u{feff} y"] {
        assert_eq!(trim(text), text.trim());
    }
}

#[test]
fn white_space_is_the_unicode_property() {
    let spaces = [
        0x9, 0xa, 0xb, 0xc, 0xd, 0x20, 0x85, 0xa0, 0x1680, 0x2000, 0x2001, 0x2002, 0x2003, 0x2004,
        0x2005, 0x2006, 0x2007, 0x2008, 0x2009, 0x200a, 0x2028, 0x2029, 0x202f, 0x205f, 0x3000,
    ];
    for c in '\0'..=char::MAX {
        assert_eq!(is_white_space(c), c.is_whitespace(), "{c:?}");
        assert_eq!(is_white_space(c), spaces.contains(&(c as u32)), "{c:?}");
    }
    for space in spaces {
        let c = char::from_u32(space).unwrap();
        assert_eq!(trim(&format!("{c}a{c}")), "a");
    }
}

#[test]
fn absent_expert_matrices_leave_no_gap() {
    assert_eq!(present(vec![Some(1), None, Some(3), None]), vec![1, 3]);
    assert!(present::<u8>(vec![None]).is_empty());
}

#[test]
fn layer_is_walked_matrix_by_matrix() {
    let part = |matrix, start, end| MatrixBatch { matrix, batch: Batch { start, end } };
    assert_eq!(
        layer_batches(&vec![5, 0, 2], 2),
        vec![part(0, 0, 2), part(0, 2, 4), part(0, 4, 5), part(2, 0, 2)]
    );
    assert!(layer_batches(&vec![], 2).is_empty());
    assert!(layer_batches(&vec![0], 2).is_empty());
}

#[test]
fn batches_are_described_behind_each_other() {
    let vocabulary: Vec<Option<String>> =
        ["zero", "one", "two"].iter().map(|text| Some(text.to_string())).collect();
    let mut slots: Vec<Option<FeatureMeta>> = vec![];
    let first = vec![bits(&[1.0, 3.0, 2.0]), bits(&[f32::NAN, -1.0, f32::NAN])];
    assert_eq!(describe_batch(&first, 2, &vocabulary, &mut slots), vec![0, 2]);
    let second = vec![bits(&[5.0, 4.0, 6.0])];
    assert_eq!(describe_batch(&second, 2, &vocabulary, &mut slots), vec![0]);
    assert!(describe_batch(&vec![], 2, &vocabulary, &mut slots).is_empty());

    let named: Vec<(&str, u32, f32, usize)> = slots
        .iter()
        .map(|slot| {
            let meta = slot.as_ref().unwrap();
            let score = f32::from_bits(meta.c_score);
            (meta.top_token.as_str(), meta.top_token_id, score, meta.top_k.len())
        })
        .collect();
    assert_eq!(named, vec![("one", 1, 3.0, 2), ("one", 1, -1.0, 1), ("two", 2, 6.0, 2)]);
}

#[test]
fn layers_are_put_in_their_places() {
    let results: Vec<Result<LayerResult<u8>, String>> = vec![
        Ok(LayerResult { layer: 2, slots: vec![Some(20), None] }),
        Ok(LayerResult { layer: 0, slots: vec![] }),
        Ok(LayerResult { layer: 1, slots: vec![Some(10)] }),
    ];
    assert_eq!(
        gather_layers(4, results),
        Ok(vec![None, Some(vec![Some(10)]), Some(vec![Some(20), None]), None])
    );
}

#[test]
fn first_failed_layer_fails_the_stage() {
    let results: Vec<Result<LayerResult<u8>, &str>> = vec![
        Ok(LayerResult { layer: 0, slots: vec![Some(1)] }),
        Err("first"),
        Err("second"),
    ];
    assert_eq!(gather_layers(3, results), Err("first"));
}
