use std::io::Read;

use flate2::read::GzDecoder;
use rati::archive::{ArchiveMeta, S3Archive};
use rati::codec::{compress, decompress, gzip_compress, zstd_compress, DecodeError};
use rati::error::S3Error;
use rati::http::{
    build_cache_headers, get_tile, get_tile_by_id, is_not_modified, pick_response_encoding,
    quality_texts, recode_tile, serve_tile, tile_head, Header, RequestHeaders, TileAnswer, TilePlan,
};
use rati::index::{TileEntry, TileIndex};
use rati::range::ByteRange;
use rati::server::{status_of, worker_threads};
use rati::tile::TileCompression::{Gzip, Plain, Zstd};
use rati::tile::{TileCompression, TileId};

fn value_of<'a>(headers: &'a [Header], name: &str) -> Option<&'a str> {
    headers.iter().find(|h| h.name == name).map(|h| h.value.as_str())
}

#[test]
fn cache_headers_include_all_required_fields() {
    let meta = ArchiveMeta {
        etag: "\"abc123\"".into(),
        last_modified: "Thu, 17 Apr 2025 12:00:00 GMT".into(),
        dataset_id: "42".into(),
        tile_count: 100,
    };
    let headers = build_cache_headers(&meta, 3600);

    assert_eq!(value_of(&headers, "etag").unwrap(), "\"abc123\"");
    assert_eq!(
        value_of(&headers, "last-modified").unwrap(),
        "Thu, 17 Apr 2025 12:00:00 GMT"
    );
    assert_eq!(
        value_of(&headers, "cache-control").unwrap(),
        "public, max-age=3600, immutable"
    );
    assert_eq!(value_of(&headers, "vary").unwrap(), "Accept-Encoding");
    assert_eq!(value_of(&headers, "x-dataset-id").unwrap(), "42");
}

#[test]
fn cache_headers_default_cache_max_age() {
    let meta = ArchiveMeta {
        etag: "\"x\"".into(),
        last_modified: "Thu, 01 Jan 2025 00:00:00 GMT".into(),
        dataset_id: "test-dataset".into(),
        tile_count: 1,
    };
    let headers = build_cache_headers(&meta, 86400);

    assert_eq!(
        value_of(&headers, "cache-control").unwrap(),
        "public, max-age=86400, immutable"
    );
}

#[test]
fn cache_headers_zero_max_age() {
    let meta = ArchiveMeta {
        etag: "\"x\"".into(),
        last_modified: "Thu, 01 Jan 2025 00:00:00 GMT".into(),
        dataset_id: "ds".into(),
        tile_count: 1,
    };
    let headers = build_cache_headers(&meta, 0);

    assert_eq!(
        value_of(&headers, "cache-control").unwrap(),
        "public, max-age=0, immutable"
    );
}

fn no_headers() -> RequestHeaders {
    RequestHeaders { if_none_match: None, accept_encoding: None }
}

fn with_if_none_match(val: &[u8]) -> RequestHeaders {
    RequestHeaders { if_none_match: Some(val.to_vec()), accept_encoding: None }
}

#[test]
fn is_not_modified_test() {
    let with = |val: &'static str| with_if_none_match(val.as_bytes());
    let etag = "\"abc123\"";

    // Matches
    assert!(is_not_modified(&with("\"abc123\""), etag));
    assert!(is_not_modified(&with("\"other\", \"abc123\""), etag));
    assert!(is_not_modified(&with("*"), etag));

    // No match
    assert!(!is_not_modified(&with("\"different\""), etag));
    assert!(!is_not_modified(&no_headers(), etag));
    assert!(!is_not_modified(&with("\"abc123-modified\""), etag));
}

fn with_accept_encoding(val: &[u8]) -> RequestHeaders {
    RequestHeaders { if_none_match: None, accept_encoding: Some(val.to_vec()) }
}

/// The quality texts that read as a number that is not positive.
fn refused(headers: &RequestHeaders) -> Vec<String> {
    let mut texts = quality_texts(headers);
    texts.retain(|q| q.parse::<f32>().is_ok_and(|q| q <= 0.0));
    texts
}

fn pick_for(headers: &RequestHeaders, src: TileCompression) -> TileCompression {
    pick_response_encoding(headers, src, &refused(headers))
}

#[test]
fn pick_response_encoding_test() {
    let pick = |hdr: &'static str, src| pick_for(&with_accept_encoding(hdr.as_bytes()), src);

    // Passthrough wins, even when other encodings are accepted.
    assert_eq!(pick("gzip, zstd", Gzip), Gzip);
    assert_eq!(pick("gzip, zstd", Zstd), Zstd);
    assert_eq!(pick("gzip", Gzip), Gzip);
    assert_eq!(pick("zstd", Zstd), Zstd);

    // Plain source: prefer zstd over gzip.
    assert_eq!(pick("gzip, zstd", Plain), Zstd);
    assert_eq!(pick("gzip", Plain), Gzip);
    assert_eq!(pick("zstd", Plain), Zstd);

    // Re-encode when source isn't accepted.
    assert_eq!(pick("gzip", Zstd), Gzip);
    assert_eq!(pick("zstd", Gzip), Zstd);

    // q=0 rejects.
    assert_eq!(pick("gzip;q=0, zstd", Gzip), Zstd);
    assert_eq!(pick("gzip;q=0.0", Gzip), Plain);

    // q parsing still accepts positive quality values.
    assert_eq!(pick("gzip;q=0.5", Plain), Gzip);
    assert_eq!(pick("gzip;q=1.0, deflate;q=0.5", Plain), Gzip);

    // Nothing useful accepted.
    assert_eq!(pick("deflate", Zstd), Plain);
    assert_eq!(pick("gzip-foo", Plain), Plain); // prefix lookalike
    assert_eq!(pick_for(&no_headers(), Gzip), Plain);
}

#[test]
fn gzip_round_trip() {
    let original = b"Hello, Valhalla tile data!";
    let compressed = gzip_compress(original);
    let mut decoder = GzDecoder::new(compressed.as_slice());
    let mut result = Vec::new();
    decoder.read_to_end(&mut result).unwrap();
    assert_eq!(result, original);
}

#[test]
fn gzip_starts_with_magic() {
    let compressed = gzip_compress(b"test");
    assert_eq!(compressed[0], 0x1f);
    assert_eq!(compressed[1], 0x8b);
}

#[test]
fn quality_texts_are_listed_in_order() {
    let h = with_accept_encoding(b"gzip; q= 0 ;x=1;q=2, br, zstd;Q=0;q=0.");
    assert_eq!(quality_texts(&h), ["0", "2", "0."]);
    assert!(quality_texts(&no_headers()).is_empty());
    assert!(quality_texts(&with_accept_encoding(b"gzip;q=\xff")).is_empty());
}

#[test]
fn negotiation_edge_cases() {
    let pick = |hdr: &[u8], src| pick_for(&with_accept_encoding(hdr), src);

    // case and blanks do not matter around an offer, but a blank before `;` belongs to the name
    assert_eq!(pick(b"\t GZip ;q=1", Plain), Plain);
    assert_eq!(pick(b"\t GZip;q=1 ", Plain), Gzip);
    assert_eq!(pick(b"ZSTD", Plain), Zstd);
    // one refusing quality is enough, wherever it stands among the parameters
    assert_eq!(pick(b"gzip;a=b; q=-1 ;q=1", Plain), Plain);
    assert_eq!(pick(b"gzip;q=-0", Plain), Plain);
    assert_eq!(pick(b"gzip;q=0e5", Plain), Plain);
    // what does not read as a number refuses nothing
    assert_eq!(pick(b"gzip;q=zero", Plain), Gzip);
    assert_eq!(pick(b"gzip;q=NaN", Plain), Gzip);
    assert_eq!(pick(b"gzip;q", Plain), Gzip);
    // a later offer of the same coding stands on its own
    assert_eq!(pick(b"gzip;q=0, gzip", Plain), Gzip);
    // the wildcard is not looked at
    assert_eq!(pick(b"*", Gzip), Plain);
    // a value that is not plain text is as good as none
    assert_eq!(pick(b"gzip, \x80", Gzip), Plain);
    assert_eq!(pick(b"", Gzip), Plain);
}

#[test]
fn conditional_edge_cases() {
    let etag = "\"abc123\"";
    assert!(is_not_modified(&with_if_none_match(b"\t\"abc123\" ,x"), etag));
    assert!(is_not_modified(&with_if_none_match(b"x,,*"), etag));
    assert!(!is_not_modified(&with_if_none_match(b"**"), etag));
    assert!(!is_not_modified(&with_if_none_match(b""), etag));
    assert!(!is_not_modified(&with_if_none_match(b"*, \xe9"), etag));
}

#[test]
fn entity_tags_are_compared_weakly() {
    let sends = |value: &str, etag: &str| is_not_modified(&with_if_none_match(value.as_bytes()), etag);
    assert!(sends("W/\"abc123\"", "\"abc123\""));
    assert!(sends("\"abc123\"", "W/\"abc123\""));
    assert!(sends("W/\"abc123\"", "W/\"abc123\""));
    assert!(sends("\"x\", W/\"abc123\" , \"y\"", "\"abc123\""));
    assert!(!sends("W/\"abc\"", "\"abc123\""));
    assert!(!sends("w/\"abc123\"", "\"abc123\""));
    assert!(!sends("W/ \"abc123\"", "\"abc123\""));
    assert!(!sends("W/*", "\"abc123\""));
}

#[test]
fn stray_quotes_keep_no_commas() {
    let sends = |value: &str, etag: &str| is_not_modified(&with_if_none_match(value.as_bytes()), etag);
    assert!(sends("x\", \"abc\"", "\"abc\""));
    assert!(sends("\"x, *", "\"abc\""));
    assert!(sends("\"x\"y, \"abc\"", "\"abc\""));
    assert!(sends("W/\"x,*", "\"abc\""));
    assert!(sends("\"a\" \"b,c\", \"abc\"", "\"abc\""));
    assert!(sends("\"a,b", "\"a"));
    assert!(!sends("x\", \"abc", "\"abc\""));
    // further tags never take a match away
    assert!(sends("\"abc\", x\", \"", "\"abc\""));
    assert!(sends("x\", \"abc\", \"y", "\"abc\""));
}

#[test]
fn only_entity_tags_are_weak() {
    let sends = |value: &str, etag: &str| is_not_modified(&with_if_none_match(value.as_bytes()), etag);
    assert!(!sends("abc", "W/abc"));
    assert!(!sends("W/abc", "abc"));
    assert!(sends("W/abc", "W/abc"));
    assert!(!sends("\"a\"b\"", "W/\"a\"b\""));
    assert!(!sends("W/\"", "\""));
    assert!(sends("\"\"", "W/\"\""));
}

#[test]
fn commas_inside_quotes_belong_to_the_tag() {
    let sends = |value: &str, etag: &str| is_not_modified(&with_if_none_match(value.as_bytes()), etag);
    assert!(sends("\"a,b\"", "\"a,b\""));
    assert!(sends("\"x\",W/\"a, ,b\", \"y\"", "\"a, ,b\""));
    assert!(sends("\"a,b\", \"c\"", "\"c\""));
    assert!(!sends("\"a,b\"", "\"a"));
    assert!(!sends("\"a,*,b\"", "\"c\""));
}

#[test]
fn cache_headers_leave_out_what_cannot_be_a_value() {
    let meta = ArchiveMeta {
        etag: "a\nb".into(),
        last_modified: "tab\there".into(),
        dataset_id: "\u{7f}".into(),
        tile_count: 1,
    };
    let headers = build_cache_headers(&meta, u32::MAX);
    let list: Vec<(&str, &str)> = headers.iter().map(|h| (h.name, h.value.as_str())).collect();
    assert_eq!(
        list,
        [
            ("last-modified", "tab\there"),
            ("cache-control", "public, max-age=4294967295, immutable"),
            ("vary", "Accept-Encoding"),
        ]
    );
    let meta = ArchiveMeta {
        etag: "".into(),
        last_modified: "\0".into(),
        dataset_id: "größe".into(),
        tile_count: 1,
    };
    let headers = build_cache_headers(&meta, 1);
    assert_eq!(value_of(&headers, "etag"), Some(""));
    assert_eq!(value_of(&headers, "last-modified"), None);
    assert_eq!(value_of(&headers, "x-dataset-id"), Some("größe"));
}

const TILE: &[u8] = b"tile bytes, tile bytes, tile bytes, tile bytes";

fn archive_of(compression: TileCompression) -> S3Archive {
    let mut index = TileIndex::new();
    index.insert(TileId::new(10), TileEntry { offset: 1024, size: 46 });
    S3Archive::new("bucket".into(), "key".into(), index, compression)
}

#[test]
fn archive_looks_tiles_up() {
    let archive = archive_of(TileCompression::Gzip);
    assert_eq!(archive.bucket(), "bucket");
    assert_eq!(archive.key(), "key");
    assert_eq!(archive.compression(), TileCompression::Gzip);
    assert_eq!(archive.tile_size(TileId::new(10)), Some(46));
    assert_eq!(archive.tile_size(TileId::new(11)), None);
    assert_eq!(
        archive.get_tile(TileId::new(10)),
        Some(ByteRange { offset: 1024, length: 46 })
    );
    assert_eq!(archive.get_tile(TileId::new(11)), None);
}

#[test]
fn head_tells_length_only_without_recoding() {
    for (stored, sent) in [(Plain, Plain), (Gzip, Gzip), (Zstd, Zstd), (Plain, Gzip), (Gzip, Plain)] {
        let answer = tile_head(&archive_of(stored), TileId::new(10), sent);
        assert_eq!(answer.status(), 200);
        let headers = answer.headers();
        let coding = if sent == Plain { None } else { Some(sent.header_name()) };
        assert_eq!(value_of(&headers, "content-type"), Some("application/octet-stream"));
        assert_eq!(value_of(&headers, "content-encoding"), coding);
        let length = if stored == sent { Some("46") } else { None };
        assert_eq!(value_of(&headers, "content-length"), length);
    }
    let missing = tile_head(&archive_of(Plain), TileId::new(11), Plain);
    assert_eq!(missing.status(), 404);
    assert!(missing.headers().is_empty());
}

#[test]
fn head_length_is_the_length_of_the_body() {
    let stored = TileCompression::Plain;
    let head = tile_head(&archive_of(stored), TileId::new(10), stored);
    match (head, serve_tile(Ok(TILE.to_vec()), stored, stored)) {
        (TileAnswer::Head { content_length, .. }, TileAnswer::Body { body, .. }) => {
            assert_eq!(content_length, Some(body.len() as u32));
        }
        _ => panic!("a tile is expected"),
    }
}

#[test]
fn tiles_are_served_transparently() {
    for stored in [Plain, Gzip, Zstd] {
        let on_disk = compress(TILE.to_vec(), stored);
        for sent in [Plain, Gzip, Zstd] {
            let answer = serve_tile(Ok(on_disk.clone()), stored, sent);
            assert_eq!(answer.status(), 200);
            let headers = answer.headers();
            let coding = if sent == Plain { None } else { Some(sent.header_name()) };
            assert_eq!(value_of(&headers, "content-encoding"), coding);
            assert_eq!(value_of(&headers, "content-type"), Some("application/octet-stream"));
            match answer {
                TileAnswer::Body { body, .. } => {
                    if stored == sent {
                        assert_eq!(body, on_disk);
                    }
                    assert_eq!(decompress(body, sent).unwrap(), TILE);
                }
                _ => panic!("a body is expected"),
            }
        }
    }
}

#[test]
fn pass_through_does_not_decode() {
    let garbage = vec![1u8, 2, 3];
    match serve_tile(Ok(garbage.clone()), TileCompression::Zstd, TileCompression::Zstd) {
        TileAnswer::Body { body, content_encoding } => {
            assert_eq!(body, garbage);
            assert_eq!(content_encoding, Some("zstd"));
        }
        _ => panic!("a body is expected"),
    }
}

#[test]
fn failures_are_server_errors() {
    let error = S3Error::Request("timeout".into());
    let answer = serve_tile(Err(error), TileCompression::Plain, TileCompression::Gzip);
    assert_eq!(answer.status(), 500);
    assert!(answer.headers().is_empty());
    match answer {
        TileAnswer::Failed(log) => assert_eq!(log, "S3 error: S3 request failed: timeout"),
        _ => panic!("a failure is expected"),
    }

    let answer = serve_tile(Ok(vec![1, 2, 3]), TileCompression::Gzip, TileCompression::Plain);
    assert!(matches!(answer, TileAnswer::Failed(log) if log.starts_with("decode error: ")));
    let answer = serve_tile(Ok(vec![1, 2, 3]), TileCompression::Zstd, TileCompression::Gzip);
    assert!(matches!(answer, TileAnswer::Failed(log) if log.starts_with("decode error: ")));

    let outcome = Err(DecodeError { message: "corrupt".into() });
    match recode_tile(outcome, TileCompression::Gzip) {
        TileAnswer::Failed(log) => assert_eq!(log, "decode error: corrupt"),
        _ => panic!("a failure is expected"),
    }
    match recode_tile(Ok(TILE.to_vec()), TileCompression::Plain) {
        TileAnswer::Body { content_encoding, body } => {
            assert_eq!(content_encoding, None);
            assert_eq!(body, TILE);
        }
        _ => panic!("a body is expected"),
    }
}

#[test]
fn codecs_compress() {
    let plain = vec![7u8; 4096];
    let zst = zstd_compress(&plain);
    assert_eq!(&zst[..4], [0x28, 0xb5, 0x2f, 0xfd]);
    assert!(zst.len() < 100);
    assert_eq!(decompress(zst, TileCompression::Zstd).unwrap(), plain);
    let gz = gzip_compress(&plain);
    assert!(gz.len() < 100);
    assert_eq!(decompress(gz, TileCompression::Gzip).unwrap(), plain);
    assert_eq!(decompress(gzip_compress(b""), TileCompression::Gzip).unwrap(), b"");
    assert_eq!(decompress(zstd_compress(b""), TileCompression::Zstd).unwrap(), b"");
    assert_eq!(compress(plain.clone(), TileCompression::Plain), plain);
}

fn request(if_none_match: Option<&str>, accept: Option<&str>) -> RequestHeaders {
    RequestHeaders {
        if_none_match: if_none_match.map(|v| v.as_bytes().to_vec()),
        accept_encoding: accept.map(|v| v.as_bytes().to_vec()),
    }
}

#[test]
fn requests_are_planned() {
    let archive = archive_of(TileCompression::Gzip);
    let none: Vec<String> = Vec::new();
    let etag = "\"e\"";

    // level 2, index 1 is tile 10
    let plan = get_tile(false, &request(None, Some("gzip")), &none, etag, &archive, "2/000/001.gph");
    match plan {
        TilePlan::Fetch(range, coding) => {
            assert_eq!(range, ByteRange { offset: 1024, length: 46 });
            assert_eq!(coding, TileCompression::Gzip);
        }
        _ => panic!("a fetch is expected"),
    }
    let plan = get_tile_by_id(false, &request(None, Some("zstd")), &none, etag, &archive, 10);
    assert!(matches!(plan, TilePlan::Fetch(_, TileCompression::Zstd)));

    let status = |plan: TilePlan| match plan {
        TilePlan::Answer(answer) => answer.status(),
        TilePlan::Fetch(..) => 0,
    };
    for is_head in [false, true] {
        // a current copy comes first, also where there is no such tile or path
        let h = request(Some("\"e\""), None);
        assert_eq!(status(get_tile(is_head, &h, &none, etag, &archive, "nonsense")), 304);
        assert_eq!(status(get_tile_by_id(is_head, &h, &none, etag, &archive, 11)), 304);
        let h = request(Some("\"old\""), None);
        assert_eq!(status(get_tile(is_head, &h, &none, etag, &archive, "nonsense")), 400);
        assert_eq!(status(get_tile(is_head, &h, &none, etag, &archive, "2/000/002.gph")), 404);
        assert_eq!(status(get_tile_by_id(is_head, &h, &none, etag, &archive, 11)), 404);
    }
    assert_eq!(status(get_tile_by_id(true, &no_headers(), &none, etag, &archive, 10)), 200);
    assert_eq!(status(get_tile(true, &no_headers(), &none, etag, &archive, "2/1")), 200);
    assert_eq!(TileAnswer::NotModified.status(), 304);
}

#[test]
fn refused_codings_are_not_planned() {
    let archive = archive_of(TileCompression::Gzip);
    let h = request(None, Some("gzip;q=0, zstd;q=0.000"));
    let plan = get_tile_by_id(false, &h, &refused(&h), "\"e\"", &archive, 10);
    assert!(matches!(plan, TilePlan::Fetch(_, TileCompression::Plain)));
}

#[test]
fn status_and_threads() {
    let meta = ArchiveMeta {
        etag: "\"e\"".into(),
        last_modified: "Thu, 01 Jan 2025 00:00:00 GMT".into(),
        dataset_id: "ds".into(),
        tile_count: 3,
    };
    let status = status_of("s3://bucket/key.tar", &meta);
    assert_eq!(status.dataset_id, "ds");
    assert_eq!(status.tile_count, 3);
    assert_eq!(status.s3_source, "s3://bucket/key.tar");
    assert_eq!(status.s3_etag, "\"e\"");

    assert_eq!(worker_threads(Some(16), 4), 4);
    assert_eq!(worker_threads(Some(2), 4), 2);
    assert_eq!(worker_threads(None, 4), 4);
    assert_eq!(worker_threads(None, 100), 8);
}
