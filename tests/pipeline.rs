use torrent_meta::bencode::DecodeError;
use torrent_meta::metainfo::{Layout, MappingError};
use torrent_meta::pipeline::{describe, process, respond, storage_name, PipelineError, TorrentResponse};
use torrent_meta::validate::{piece_count, ValidationError};

fn cat(parts: &[&[u8]]) -> Vec<u8> {
    let mut out = Vec::new();
    for p in parts {
        out.extend_from_slice(p);
    }
    out
}

fn single_file(pieces_len: usize) -> Vec<u8> {
    let pieces = vec![0u8; pieces_len];
    let len = format!("6:pieces{}:", pieces_len);
    cat(&[
        b"d4:infod6:lengthi100e4:name5:a.txt12:piece lengthi16384e",
        len.as_bytes(),
        &pieces,
        b"ee",
    ])
}

fn info_only(info: &str) -> Vec<u8> {
    format!("d4:info{}e", info).into_bytes()
}

fn mapping_error(bytes: &[u8]) -> MappingError {
    match process(&bytes.to_vec()) {
        Err(PipelineError::Mapping(m)) => m,
        other => panic!("expected a mapping error, got {:?}", other),
    }
}

fn validation_error(bytes: &[u8]) -> ValidationError {
    match process(&bytes.to_vec()) {
        Err(PipelineError::Validation(v)) => v,
        other => panic!("expected a validation error, got {:?}", other),
    }
}

const PIECES20: &str = "6:pieces20:aaaaaaaaaaaaaaaaaaaa";

#[test]
fn single_file_torrent_succeeds() {
    match respond(&single_file(20)) {
        TorrentResponse::Success(t) => {
            assert_eq!(t.info.name, "a.txt");
            assert_eq!(t.info.piece_length, 16384);
            assert_eq!(t.info.pieces, vec![0u8; 20]);
            assert_eq!(t.info.layout, Layout::SingleFile { length: 100 });
            assert_eq!(t.announce, None);
            assert!(t.announce_list.is_empty());
            assert!(t.nodes.is_empty());
            assert_eq!(piece_count(&t), 1);
        }
        TorrentResponse::Fail(m) => panic!("unexpected failure: {}", m),
    }
}

#[test]
fn trailing_byte_fails() {
    let mut b = single_file(20);
    b.push(b'x');
    assert_eq!(process(&b), Err(PipelineError::Decode(DecodeError::TrailingData)));
    assert_eq!(
        respond(&b),
        TorrentResponse::Fail("Failed to parse torrent: trailing data after the value".to_string())
    );
}

#[test]
fn both_or_neither_layout_key_is_ambiguous() {
    let both = info_only(&format!(
        "d5:filesld6:lengthi1e4:pathl1:aeee6:lengthi1e4:name1:n12:piece lengthi1e{}e",
        PIECES20
    ));
    assert_eq!(mapping_error(&both), MappingError::AmbiguousLayout);
    let neither = info_only(&format!("d4:name1:n12:piece lengthi1e{}e", PIECES20));
    assert_eq!(mapping_error(&neither), MappingError::AmbiguousLayout);
}

#[test]
fn pieces_length_must_be_multiple_of_twenty() {
    assert_eq!(validation_error(&single_file(19)), ValidationError::PiecesNotMultipleOfDigest);
    match process(&single_file(40)) {
        Ok(t) => assert_eq!(piece_count(&t), 2),
        Err(e) => panic!("unexpected failure: {:?}", e),
    }
}

#[test]
fn multi_file_torrent_maps_files() {
    let b = info_only(&format!(
        "d5:filesld6:lengthi5e4:pathl3:dir5:a.txteed6:lengthi7e6:md5sum2:ab4:pathl5:b.txteee4:name1:n12:piece lengthi1e{}e",
        PIECES20
    ));
    let t = process(&b).unwrap();
    match &t.info.layout {
        Layout::MultiFile { files } => {
            assert_eq!(files.len(), 2);
            assert_eq!(files[0].length, 5);
            assert_eq!(files[0].path, vec!["dir".to_string(), "a.txt".to_string()]);
            assert_eq!(files[1].md5sum, Some("ab".to_string()));
        }
        other => panic!("expected several files, got {:?}", other),
    }
}

#[test]
fn file_checks_are_reported() {
    let empty_path = info_only(&format!(
        "d5:filesld6:lengthi5e4:pathleee4:name1:n12:piece lengthi1e{}e",
        PIECES20
    ));
    assert_eq!(validation_error(&empty_path), ValidationError::EmptyPath);
    let empty_segment = info_only(&format!(
        "d5:filesld6:lengthi5e4:pathl1:a0:eee4:name1:n12:piece lengthi1e{}e",
        PIECES20
    ));
    assert_eq!(validation_error(&empty_segment), ValidationError::EmptyPathSegment);
    let negative = info_only(&format!(
        "d5:filesld6:lengthi-5e4:pathl1:aeee4:name1:n12:piece lengthi1e{}e",
        PIECES20
    ));
    assert_eq!(validation_error(&negative), ValidationError::NegativeLength);
    let no_files = info_only(&format!("d5:filesle4:name1:n12:piece lengthi1e{}e", PIECES20));
    assert_eq!(validation_error(&no_files), ValidationError::NoFiles);
    let zero_piece = info_only(&format!("d6:lengthi1e4:name1:n12:piece lengthi0e{}e", PIECES20));
    assert_eq!(validation_error(&zero_piece), ValidationError::PieceLengthNotPositive);
    let negative_single = info_only(&format!("d6:lengthi-1e4:name1:n12:piece lengthi1e{}e", PIECES20));
    assert_eq!(validation_error(&negative_single), ValidationError::NegativeLength);
}

#[test]
fn mapping_errors_are_reported() {
    assert_eq!(mapping_error(b"i1e"), MappingError::NotADictionary);
    assert_eq!(mapping_error(b"de"), MappingError::MissingKey("info".to_string()));
    assert_eq!(mapping_error(b"d4:infoi1ee"), MappingError::WrongType("info".to_string()));
    let bad_name = cat(&[
        b"d4:infod6:lengthi1e4:name1:\xff12:piece lengthi1e",
        PIECES20.as_bytes(),
        b"ee",
    ]);
    assert_eq!(mapping_error(&bad_name), MappingError::InvalidUtf8("name".to_string()));
    let no_name = info_only(&format!("d6:lengthi1e12:piece lengthi1e{}e", PIECES20));
    assert_eq!(mapping_error(&no_name), MappingError::MissingKey("name".to_string()));
    let bad_announce = format!("d8:announcei1e4:infod6:lengthi1e4:name1:n12:piece lengthi1e{}ee", PIECES20);
    assert_eq!(mapping_error(bad_announce.as_bytes()), MappingError::WrongType("announce".to_string()));
    let bad_node = format!("d4:infod6:lengthi1e4:name1:n12:piece lengthi1e{}e5:nodesll1:heee", PIECES20);
    assert_eq!(mapping_error(bad_node.as_bytes()), MappingError::MalformedNode);
}

#[test]
fn optional_fields_are_mapped() {
    let b = format!(
        "d8:announce3:t/113:announce-listll3:t/13:t/2elee7:comment2:hi10:created by2:me13:creation datei7e8:encoding5:UTF-84:infod6:lengthi1e4:name1:n12:piece lengthi1e{}7:privatei1ee5:nodesll4:hosti6881eeee",
        PIECES20
    );
    let t = process(&b.into_bytes()).unwrap();
    assert_eq!(t.announce, Some("t/1".to_string()));
    assert_eq!(t.announce_list, vec![vec!["t/1".to_string(), "t/2".to_string()], vec![]]);
    assert_eq!(t.comment, Some("hi".to_string()));
    assert_eq!(t.created_by, Some("me".to_string()));
    assert_eq!(t.creation_date, Some(7));
    assert_eq!(t.encoding, Some("UTF-8".to_string()));
    assert_eq!(t.info.private, Some(1));
    assert_eq!(t.nodes.len(), 1);
    assert_eq!(t.nodes[0].host, "host");
    assert_eq!(t.nodes[0].port, 6881);
}

#[test]
fn diagnostics_name_the_failure() {
    assert_eq!(
        describe(&PipelineError::Mapping(MappingError::WrongType("info".to_string()))),
        "Failed to parse torrent: wrong type for key: info"
    );
    assert_eq!(
        describe(&PipelineError::Validation(ValidationError::PiecesNotMultipleOfDigest)),
        "Failed to parse torrent: pieces is not a multiple of 20 bytes"
    );
}

#[test]
fn storage_name_keeps_one_segment() {
    let b = info_only(&format!("d6:lengthi1e4:name3:a/b12:piece lengthi1e{}e", PIECES20));
    let t = process(&b).unwrap();
    assert_eq!(storage_name(&t), "a\u{FF0F}b.torrent");
}

#[test]
fn repeated_runs_give_identical_results() {
    let mut inputs: Vec<Vec<u8>> = Vec::new();
    let mut seed: u64 = 12345;
    for i in 0..1000usize {
        seed = seed.wrapping_mul(6364136223846793005).wrapping_add(1442695040888963407);
        let mut b = single_file(((seed >> 33) % 3) as usize * 10 + 20);
        if i % 2 == 1 {
            let cut = ((seed >> 17) as usize) % b.len();
            b.truncate(cut);
        }
        inputs.push(b);
    }
    let first: Vec<TorrentResponse> = inputs.iter().map(|b| respond(b)).collect();
    let second: Vec<TorrentResponse> = inputs.iter().rev().map(|b| respond(b)).collect();
    for (a, b) in first.iter().zip(second.iter().rev()) {
        assert_eq!(a, b);
    }
}

fn with_zero_pieces(head: &[u8], tail: &[u8]) -> Vec<u8> {
    cat(&[head, &[0u8; 20], tail])
}

#[test]
fn byte_string_name_maps_to_text() {
    let b = with_zero_pieces(b"d4:infod6:lengthi100e4:name4:spam12:piece lengthi16384e6:pieces20:", b"ee");
    match respond(&b) {
        TorrentResponse::Success(t) => assert_eq!(t.info.name, "spam"),
        TorrentResponse::Fail(m) => panic!("unexpected failure: {}", m),
    }
}

#[test]
fn length_integer_forms() {
    let build = |x: &[u8]| {
        let head = cat(&[b"d4:infod6:length", x, b"4:name5:a.txt12:piece lengthi16384e6:pieces20:"]);
        with_zero_pieces(&head, b"ee")
    };
    match respond(&build(b"i42e")) {
        TorrentResponse::Success(t) => assert_eq!(t.info.layout, Layout::SingleFile { length: 42 }),
        TorrentResponse::Fail(m) => panic!("unexpected failure: {}", m),
    }
    for bad in [&b"i-0e"[..], &b"i04e"[..]] {
        assert_eq!(
            respond(&build(bad)),
            TorrentResponse::Fail("Failed to parse torrent: invalid integer".to_string())
        );
    }
}

#[test]
fn multi_file_path_keeps_order() {
    let b = with_zero_pieces(
        b"d4:infod5:filesld6:lengthi1e4:pathl4:spam4:eggseee4:name3:dir12:piece lengthi16384e6:pieces20:",
        b"ee",
    );
    match respond(&b) {
        TorrentResponse::Success(t) => {
            assert_eq!(t.info.name, "dir");
            match &t.info.layout {
                Layout::MultiFile { files } => {
                    assert_eq!(files.len(), 1);
                    assert_eq!(files[0].length, 1);
                    assert_eq!(files[0].path, vec!["spam".to_string(), "eggs".to_string()]);
                    assert_eq!(files[0].md5sum, None);
                }
                other => panic!("expected several files, got {:?}", other),
            }
        }
        TorrentResponse::Fail(m) => panic!("unexpected failure: {}", m),
    }
}

#[test]
fn reencoded_buffer_gets_same_response() {
    let b = with_zero_pieces(
        b"d4:infod4:name5:a.txt6:lengthi100e6:pieces20:",
        b"12:piece lengthi16384ee8:announce3:t/1e",
    );
    let v = torrent_meta::bencode::decode(&b).unwrap();
    let b2 = torrent_meta::bencode::encode(&v);
    assert_ne!(b, b2);
    assert_eq!(respond(&b), respond(&b2));
    assert!(matches!(respond(&b2), TorrentResponse::Success(_)));
}
