use rati::archive::{
    detect_compression, header_before, parse_dataset_id, parse_s3_url, probe_dataset_id,
    DATASET_ID_OFFSET, GRAPH_TILE_HEADER_SIZE,
};
use rati::codec::decompress;
use rati::error::{S3Error, TarError};
use rati::index::{
    parse_index, read_index_header, TileEntry, TileIndex, TileIndexEntry, TILE_INDEX_ENTRY_SIZE,
};
use rati::range::{ByteRange, RangeReply};
use rati::tar::{octal_to_u64, TarHeader, TAR_BLOCK_SIZE};
use rati::tile::{TileCompression, TileId};

/// Build a minimal tar header for a file with the given name and size.
fn make_tar_header(name: &str, size: u64) -> [u8; TAR_BLOCK_SIZE] {
    let mut header = [0u8; TAR_BLOCK_SIZE];

    // name (bytes 0-99)
    header[..name.len()].copy_from_slice(name.as_bytes());

    // size as octal ASCII (bytes 124-135), null-terminated
    let size_str = format!("{:011o}\0", size);
    header[124..136].copy_from_slice(size_str.as_bytes());

    // typeflag = '0' (regular file) at byte 156
    header[156] = b'0';

    // magic = "ustar\0" at bytes 257-262
    header[257..263].copy_from_slice(b"ustar\0");

    // version = "00" at bytes 263-264
    header[263..265].copy_from_slice(b"00");

    set_checksum(&mut header);
    header
}

/// Compute the checksum: the checksum field (148-155) counts as spaces.
fn set_checksum(header: &mut [u8; TAR_BLOCK_SIZE]) {
    let mut sum = 0u64;
    for (i, &byte) in header.iter().enumerate() {
        if (148..156).contains(&i) {
            sum += b' ' as u64;
        } else {
            sum += byte as u64;
        }
    }
    let chksum_str = format!("{:06o}\0 ", sum);
    header[148..156].copy_from_slice(chksum_str.as_bytes());
}

/// Build index.bin content from a slice of (offset, tile_id, size) tuples.
fn make_index_bin(entries: &[(u64, u32, u32)]) -> Vec<u8> {
    let mut data = Vec::with_capacity(entries.len() * TILE_INDEX_ENTRY_SIZE);
    for &(offset, tile_id, size) in entries {
        data.extend_from_slice(&offset.to_le_bytes());
        data.extend_from_slice(&tile_id.to_le_bytes());
        data.extend_from_slice(&size.to_le_bytes());
    }
    data
}

#[test]
fn from_path_gph_test() {
    let id = TileId::from_path("2/000/818/660.gph").unwrap();
    assert_eq!(id.0, 2 | (818660 << 3));

    let id = TileId::from_path("2/000/818/660.csv").unwrap();
    assert_eq!(id.0, 2 | (818660 << 3));

    let id = TileId::from_path("2/000/818/660.spd").unwrap();
    assert_eq!(id.0, 2 | (818660 << 3));

    let id = TileId::from_path("2/000/818/660").unwrap();
    assert_eq!(id.0, 2 | (818660 << 3));

    let id = TileId::from_path("0/000/529.gph").unwrap();
    assert_eq!(id.0, 529 << 3);

    let id = TileId::from_path("0/000/529").unwrap();
    assert_eq!(id.0, 529 << 3);

    // compression suffix on top of an extension
    let id = TileId::from_path("2/000/818/660.gph.zst").unwrap();
    assert_eq!(id.0, 2 | (818660 << 3));

    let id = TileId::from_path("2/000/818/660.gph.gz").unwrap();
    assert_eq!(id.0, 2 | (818660 << 3));

    // invalid
    assert!(TileId::from_path("").is_none());
    assert!(TileId::from_path("660.gph").is_none());
    assert!(TileId::from_path("660.gph").is_none());
    assert!(TileId::from_path("abc/000/818/660.gph").is_none());
    assert!(TileId::from_path("2/abc/818/660.gph").is_none());
}

#[test]
fn parse_index_header() {
    let header = make_tar_header("index.bin", 48); // 3 entries x 16 bytes
    let (offset, size) = read_index_header(&header).unwrap();
    assert_eq!(offset, 512);
    assert_eq!(size, 48);
}

#[test]
fn reject_non_index_first_entry() {
    let header = make_tar_header("0/000/529.gph", 1024);
    let err = read_index_header(&header).unwrap_err();
    assert!(matches!(err, TarError::FirstEntryNotIndex { .. }));
}

#[test]
fn parse_index_entries() {
    // Tile IDs: level 0 tile 529 = 0 | (529 << 3) = 0x1088
    //           level 2 tile 744881 = 2 | (744881 << 3) = 0x005B1B0A
    let entries = [(3281408, 0x1088u32, 648u32), (5000000, 0x005B1B0A, 12345)];
    let data = make_index_bin(&entries);
    let index = parse_index(&data).unwrap();

    assert_eq!(index.len(), 2);

    let e0 = index.get(TileId::new(0x1088)).unwrap();
    assert_eq!((e0.offset, e0.size), (3281408, 648));
    let e1 = index.get(TileId::new(0x005B1B0A)).unwrap();
    assert_eq!((e1.offset, e1.size), (5000000, 12345));

    assert!(index.get(TileId::new(0xDEAD)).is_none());
}

#[test]
fn detect_compression_from_name() {
    assert_eq!(
        TileCompression::from_name("2/000/818/660.gph"),
        TileCompression::Plain
    );
    assert_eq!(
        TileCompression::from_name("2/000/818/660.gph.gz"),
        TileCompression::Gzip
    );
    assert_eq!(
        TileCompression::from_name("2/000/818/660.gph.zst"),
        TileCompression::Zstd
    );
    assert_eq!(
        TileCompression::from_name("index.bin"),
        TileCompression::Plain
    );
}

#[test]
fn decompress_round_trips() {
    let plain = b"some tile bytes - graph header would go here".repeat(8);

    // Plain: passthrough
    let out = decompress(plain.clone(), TileCompression::Plain).unwrap();
    assert_eq!(out.as_slice(), plain.as_slice());

    // Gzip
    let mut enc = flate2::write::GzEncoder::new(Vec::new(), flate2::Compression::default());
    std::io::Write::write_all(&mut enc, &plain).unwrap();
    let gz = enc.finish().unwrap();
    let out = decompress(gz, TileCompression::Gzip).unwrap();
    assert_eq!(out.as_slice(), plain.as_slice());

    // Zstd
    let zst = zstd::encode_all(plain.as_slice(), 3).unwrap();
    let out = decompress(zst, TileCompression::Zstd).unwrap();
    assert_eq!(out.as_slice(), plain.as_slice());
}

#[test]
fn reject_invalid_index_size() {
    let data = vec![0u8; 17]; // not a multiple of 16
    let err = parse_index(&data).unwrap_err();
    assert!(matches!(err, TarError::InvalidIndexSize { .. }));
}

#[test]
fn reject_empty_index() {
    let err = parse_index(&[]).unwrap_err();
    assert!(matches!(err, TarError::EmptyIndex));
}

#[test]
fn octal_parsing() {
    // Standard octal: "00000031400\0" = 13056 in decimal
    assert_eq!(octal_to_u64(b"00000031400\0"), 13056);
    // With trailing spaces
    assert_eq!(octal_to_u64(b"0000144 \0\0\0\0"), 100);
    // Zero
    assert_eq!(octal_to_u64(b"00000000000\0"), 0);
}

#[test]
fn parse_dataset_id_valid() {
    // Build a fake 272-byte header with dataset_id = 123456789 at offset 32
    let mut header = vec![0u8; GRAPH_TILE_HEADER_SIZE];
    let id: u64 = 123_456_789;
    header[DATASET_ID_OFFSET..DATASET_ID_OFFSET + 8].copy_from_slice(&id.to_le_bytes());

    let result = parse_dataset_id(&header).unwrap();
    assert_eq!(result, 123_456_789);
}

#[test]
fn parse_dataset_id_zero() {
    let header = vec![0u8; GRAPH_TILE_HEADER_SIZE];
    let result = parse_dataset_id(&header).unwrap();
    assert_eq!(result, 0);
}

#[test]
fn parse_dataset_id_large_value() {
    let mut header = vec![0u8; GRAPH_TILE_HEADER_SIZE];
    let id: u64 = 0xDEAD_BEEF_CAFE_BABE;
    header[DATASET_ID_OFFSET..DATASET_ID_OFFSET + 8].copy_from_slice(&id.to_le_bytes());

    let result = parse_dataset_id(&header).unwrap();
    assert_eq!(result, 0xDEAD_BEEF_CAFE_BABE);
}

#[test]
fn parse_dataset_id_too_short() {
    let header = vec![0u8; 39]; // needs at least 40 bytes (32 + 8)
    let err = parse_dataset_id(&header).unwrap_err();
    assert!(err.message().contains("too short"));
}

#[test]
fn parse_dataset_id_exact_minimum_size() {
    let mut header = vec![0u8; DATASET_ID_OFFSET + 8]; // exactly 40 bytes
    let id: u64 = 42;
    header[DATASET_ID_OFFSET..DATASET_ID_OFFSET + 8].copy_from_slice(&id.to_le_bytes());

    let result = parse_dataset_id(&header).unwrap();
    assert_eq!(result, 42);
}

#[test]
fn parse_s3_url_test() {
    assert_eq!(
        parse_s3_url("s3://my-bucket/path/to/file.tar"),
        Some(("my-bucket", "path/to/file.tar"))
    );
    assert_eq!(
        parse_s3_url("s3://bucket/file.tar"),
        Some(("bucket", "file.tar"))
    );

    assert_eq!(parse_s3_url("bucket/key"), None);
    assert_eq!(parse_s3_url("https://wrong/scheme"), None);
    assert_eq!(parse_s3_url("s3:/bad-url/format"), None);
    assert_eq!(parse_s3_url("s3://bucket-only"), None);
    assert_eq!(parse_s3_url("s3://file-only.tar"), None);
}

#[test]
fn url_edge_cases() {
    assert_eq!(parse_s3_url("s3://b/"), Some(("b", "")));
    assert_eq!(parse_s3_url("s3:///k"), Some(("", "k")));
    assert_eq!(parse_s3_url("s3://bücket/ключ"), Some(("bücket", "ключ")));
    assert_eq!(parse_s3_url("S3://b/k"), None);
    assert_eq!(parse_s3_url(""), None);
}

#[test]
fn path_edge_cases() {
    // a sign, any padding and any place for the slashes
    assert_eq!(TileId::from_path("+1/2").unwrap().0, 1 | (2 << 3));
    assert_eq!(TileId::from_path("1/0/0/2/.gph").unwrap().0, 1 | (2 << 3));
    assert_eq!(TileId::from_path("1//2").unwrap().0, 1 | (2 << 3));
    assert_eq!(TileId::from_path("1/+2").unwrap().0, 1 | (2 << 3));
    // the largest level and the largest index, whose high bits are shifted out
    assert_eq!(TileId::from_path("4294967295/0").unwrap().0, u32::MAX);
    assert_eq!(TileId::from_path("0/4/294/967/295").unwrap().0, 0xFFFF_FFF8);
    // out of range, empty, or not digits
    assert!(TileId::from_path("4294967296/0").is_none());
    assert!(TileId::from_path("0/4294967296").is_none());
    assert!(TileId::from_path("1/").is_none());
    assert!(TileId::from_path("1/.gph").is_none());
    assert!(TileId::from_path("/1").is_none());
    assert!(TileId::from_path("+/1").is_none());
    assert!(TileId::from_path("1/-2").is_none());
    assert!(TileId::from_path("1.0/2").is_none());
    assert!(TileId::from_path("index.bin").is_none());
}

#[test]
fn tile_paths_follow_the_convention() {
    // every level, with the padding that its grid has and with more
    for level in 0u32..8 {
        for &index in &[0u32, 7, 529, 818660, 4194303] {
            let digits = format!("{:09}", index);
            let path = format!("{}/{}/{}/{}.gph", level, &digits[..3], &digits[3..6], &digits[6..]);
            let id = TileId::from_path(&path).unwrap();
            assert_eq!(id, TileId::new(level | (index << 3)));
            assert_eq!(id.0 & 7, level);
            assert_eq!(id.0 >> 3, index);
        }
    }
}

#[test]
fn labels() {
    assert_eq!(TileId::new(6549282).to_text(), "6549282");
    assert_eq!(TileId::new(0).to_text(), "0");
    assert_eq!(TileId::new(u32::MAX).to_text(), "4294967295");
    assert_eq!(TileCompression::Plain.header_name(), "identity");
    assert_eq!(TileCompression::Gzip.header_name(), "gzip");
    assert_eq!(TileCompression::Zstd.header_name(), "zstd");
    assert_eq!(TileCompression::Plain.to_text(), "none");
    assert_eq!(TileCompression::Gzip.to_text(), "gzip");
    assert_eq!(TileCompression::Zstd.to_text(), "zstd");
}

#[test]
fn header_reads_back() {
    let header = make_tar_header("2/000/818/660.gph", 0o777_7777_7777);
    let parsed = TarHeader::parse(&header).unwrap();
    assert_eq!(parsed.name, "2/000/818/660.gph");
    assert_eq!(parsed.size, 0o777_7777_7777);

    // a name that fills its field has no NUL behind it
    let name = "n".repeat(100);
    assert_eq!(TarHeader::parse(&make_tar_header(&name, 1)).unwrap().name, name);

    // names are UTF-8
    let header = make_tar_header("tuile-é", 3);
    assert_eq!(TarHeader::parse(&header).unwrap().name, "tuile-é");
}

#[test]
fn header_checksum_counts_signed_bytes_too() {
    let mut header = make_tar_header("é", 0);
    let mut sum = 0i64;
    for (i, &byte) in header.iter().enumerate() {
        sum += if (148..156).contains(&i) { 32 } else { byte as i8 as i64 };
    }
    header[148..156].copy_from_slice(format!("{:06o}\0 ", sum).as_bytes());
    assert_eq!(TarHeader::parse(&header).unwrap().name, "é");
}

#[test]
fn invalid_headers() {
    let mut header = make_tar_header("index.bin", 16);
    header[0] = b'I';
    let err = TarHeader::parse(&header).unwrap_err();
    assert_eq!(err.message(), "invalid tar header: checksum mismatch");
    assert_eq!(
        read_index_header(&header).unwrap_err().message(),
        "invalid tar header: checksum mismatch"
    );

    let mut header = make_tar_header("index.bin", 16);
    header[0] = 0xFF;
    set_checksum(&mut header);
    let err = TarHeader::parse(&header).unwrap_err();
    assert_eq!(err.message(), "invalid tar header: name is not valid UTF-8");

    // a block of zeros is not a header
    assert!(TarHeader::parse(&[0u8; TAR_BLOCK_SIZE]).is_err());
}

#[test]
fn octal_padding_on_both_sides() {
    assert_eq!(octal_to_u64(b"   17 \0"), 15);
    assert_eq!(octal_to_u64(b"\0\0 777\0\0"), 511);
    assert_eq!(octal_to_u64(b""), 0);
    assert_eq!(octal_to_u64(b"89"), 0);
    assert_eq!(octal_to_u64(b"1777777777777777777777"), u64::MAX);
}

#[test]
fn index_reads_back_and_later_entries_win() {
    let entries = [(512, 8, 1), (u64::MAX, u32::MAX, u32::MAX), (1024, 8, 2)];
    let index = parse_index(&make_index_bin(&entries)).unwrap();
    assert_eq!(index.len(), 2);
    assert!(!index.is_empty());
    assert_eq!(index.get(TileId::new(8)), Some(TileEntry { offset: 1024, size: 2 }));
    assert_eq!(
        index.get(TileId::new(u32::MAX)),
        Some(TileEntry { offset: u64::MAX, size: u32::MAX })
    );
    assert_eq!(index.get(TileId::new(9)), None);
    // the tile listed first has the place that is listed last for it
    assert_eq!(index.first(), Some(TileEntry { offset: 1024, size: 2 }));

    let e = TileIndexEntry::from_bytes(&[1, 2, 0, 0, 0, 0, 0, 0x80, 3, 4, 0, 0, 5, 0, 0, 6]);
    assert_eq!(e.offset, 0x8000_0000_0000_0201);
    assert_eq!(e.tile_id, TileId::new(0x0403));
    assert_eq!(e.size, 0x0600_0005);
}

#[test]
fn the_first_entry_is_the_first_tile() {
    // ids in every order, and enough of them to spread over a hash map
    for ids in [[1u32, 2, 3], [3, 2, 1], [2, 9, 8], [8, 16, 24], [u32::MAX, 0, 7]] {
        let entries: Vec<(u64, u32, u32)> =
            ids.iter().enumerate().map(|(i, &id)| (512 * (i as u64 + 2), id, 1)).collect();
        let index = parse_index(&make_index_bin(&entries)).unwrap();
        assert_eq!(index.first(), Some(TileEntry { offset: 1024, size: 1 }));
    }
    let many: Vec<(u64, u32, u32)> = (0..500).map(|i| (512 + i, 499 - i as u32, 3)).collect();
    let index = parse_index(&make_index_bin(&many)).unwrap();
    assert_eq!(index.first(), Some(TileEntry { offset: 512, size: 3 }));

    let mut index = TileIndex::new();
    assert_eq!(index.first(), None);
    assert!(index.is_empty());
    index.insert(TileId::new(5), TileEntry { offset: 1, size: 1 });
    index.insert(TileId::new(4), TileEntry { offset: 2, size: 2 });
    assert_eq!(index.first(), Some(TileEntry { offset: 1, size: 1 }));
}

#[test]
fn headers_stand_before_tiles() {
    assert_eq!(header_before(512), Some(ByteRange { offset: 0, length: 512 }));
    assert_eq!(header_before(1536), Some(ByteRange { offset: 1024, length: 512 }));
    assert_eq!(header_before(u64::MAX), Some(ByteRange { offset: u64::MAX - 512, length: 512 }));
    assert_eq!(header_before(511), None);
    assert_eq!(header_before(0), None);
}

#[test]
fn index_errors() {
    let err = parse_index(&[0u8; 17]).unwrap_err();
    assert_eq!(err.message(), "index.bin size 17 is not a multiple of entry size 16");
    assert_eq!(parse_index(&[]).unwrap_err().message(), "index.bin is empty");
    let err = read_index_header(&make_tar_header("0/000/529.gph", 1024)).unwrap_err();
    assert_eq!(err.message(), "first tar entry must be 'index.bin', got '0/000/529.gph'");
    assert_eq!(
        TarError::MissingIndexNoScan.message(),
        "archive has no index.bin; re-run with --scan-index to build index from tar headers"
    );
}

#[test]
fn error_messages() {
    assert_eq!(S3Error::Request("gone".into()).message(), "S3 request failed: gone");
    assert_eq!(S3Error::Protocol("odd".into()).message(), "odd");
    assert_eq!(S3Error::Tar(TarError::EmptyIndex).message(), "index.bin is empty");
    assert_eq!(
        parse_dataset_id(&[0; 39]).unwrap_err().message(),
        "header too short for dataset_id: 39 bytes (need at least 40)"
    );
}

#[test]
fn ranges() {
    let range = ByteRange { offset: 512, length: 48 };
    assert_eq!(range.header().unwrap(), "bytes=512-559");
    let range = ByteRange { offset: 0, length: 1 };
    assert_eq!(range.header().unwrap(), "bytes=0-0");
    let range = ByteRange { offset: 7, length: 0 };
    assert!(range.header().is_none());

    assert_eq!(RangeReply::Received(vec![1, 2]).into_bytes().unwrap(), [1, 2]);
    assert_eq!(
        RangeReply::RequestFailed("no route".into()).into_bytes().unwrap_err().message(),
        "S3 request failed: no route"
    );
    assert_eq!(
        RangeReply::BodyFailed("reset".into()).into_bytes().unwrap_err().message(),
        "S3 request failed: reading response body: reset"
    );
}

#[test]
fn compression_from_tile_header() {
    let header = make_tar_header("2/000/818/660.gph.zst", 10);
    assert_eq!(detect_compression(&header).unwrap(), TileCompression::Zstd);
    let err = detect_compression(&header[..511]).unwrap_err();
    assert_eq!(err.message(), "tile header shorter than 512 bytes");
    let err = detect_compression(&[1u8; 512]).unwrap_err();
    assert_eq!(err.message(), "invalid tar header: checksum mismatch");
}

#[test]
fn dataset_id_probe() {
    let tile = |size| Some(TileEntry { offset: 1024, size });
    assert_eq!(
        probe_dataset_id(tile(272), TileCompression::Plain).unwrap(),
        ByteRange { offset: 1024, length: 272 }
    );
    assert_eq!(
        probe_dataset_id(tile(9), TileCompression::Gzip).unwrap(),
        ByteRange { offset: 1024, length: 9 }
    );
    assert_eq!(
        probe_dataset_id(tile(271), TileCompression::Plain).unwrap_err().message(),
        "tile is only 271 bytes, too small for GraphTileHeader (272 bytes)"
    );
    assert_eq!(
        probe_dataset_id(None, TileCompression::Plain).unwrap_err().message(),
        "no tiles in index to read header from"
    );
}

#[test]
fn slashes_may_stand_anywhere_in_the_index() {
    let id = TileId::from_path("2/000/818/660.gph");
    for path in ["2/818660.gph", "2/8/1/8/6/6/0.gph", "2//000818660/.gph"] {
        assert_eq!(TileId::from_path(path), id);
    }
}

#[test]
fn octal_digits_join() {
    assert_eq!(octal_to_u64(b"12"), 10);
    assert_eq!(octal_to_u64(b"345"), 229);
    assert_eq!(octal_to_u64(b"12345"), 10 * 512 + 229);
    assert_eq!(octal_to_u64(b"12 345"), 10 * 512 + 229);
}

#[test]
fn a_wrong_byte_in_a_header_is_found() {
    let header = make_tar_header("2/000/818/660.gph", 4711);
    for at in (0..148).chain(156..512) {
        for flip in [1u8, 0x80, 0xFF] {
            let mut wrong = header;
            wrong[at] ^= flip;
            let err = TarHeader::parse(&wrong).unwrap_err();
            assert_eq!(err.message(), "invalid tar header: checksum mismatch");
        }
    }
}

#[test]
fn joined_indexes_hold_the_tiles_of_both() {
    let mut data = make_index_bin(&[(512, 1, 10), (1024, 2, 20)]);
    data.extend_from_slice(&make_index_bin(&[(2048, 3, 30), (4096, 2, 40)]));
    let index = parse_index(&data).unwrap();
    assert_eq!(index.len(), 3);
    assert_eq!(index.get(TileId::new(1)), Some(TileEntry { offset: 512, size: 10 }));
    assert_eq!(index.get(TileId::new(2)), Some(TileEntry { offset: 4096, size: 40 }));
    assert_eq!(index.get(TileId::new(3)), Some(TileEntry { offset: 2048, size: 30 }));
    assert_eq!(index.first(), Some(TileEntry { offset: 512, size: 10 }));
}
