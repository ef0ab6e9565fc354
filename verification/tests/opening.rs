use rati::archive::{dataset_id_from_decoded, detect_dataset_id, ArchiveMeta, S3Archive};
use rati::codec::{gzip_compress, zstd_compress, DecodeError};
use rati::error::{S3Error, TarError};
use rati::open::{AwaitBytes, AwaitHead, DatasetIdSource, HeadReply, OpenStep};
use rati::range::ByteRange;
use rati::scan::{chunk_range, count_chunks, ScanNote, ScanOutcome, TarScan, CHUNK_SIZE};
use rati::tile::{TileCompression, TileId};

/// A tar header block.
fn tar_header(name: &str, size: u64) -> Vec<u8> {
    let mut header = vec![0u8; 512];
    header[..name.len()].copy_from_slice(name.as_bytes());
    header[124..136].copy_from_slice(format!("{:011o}\0", size).as_bytes());
    header[156] = b'0';
    let sum: u64 = header.iter().map(|&b| b as u64).sum::<u64>() + 8 * 32;
    header[148..156].copy_from_slice(format!("{:06o}\0 ", sum).as_bytes());
    header
}

/// A tar archive of the entries, with the offset of each entry's data.
fn tar_of(entries: &[(&str, &[u8])]) -> (Vec<u8>, Vec<u64>) {
    let mut tar = Vec::new();
    let mut offsets = Vec::new();
    for (name, data) in entries {
        tar.extend_from_slice(&tar_header(name, data.len() as u64));
        offsets.push(tar.len() as u64);
        tar.extend_from_slice(data);
        tar.resize(tar.len().div_ceil(512) * 512, 0);
    }
    tar.resize(tar.len() + 1024, 0);
    (tar, offsets)
}

fn index_bin(entries: &[(u64, u32, u32)]) -> Vec<u8> {
    let mut data = Vec::new();
    for &(offset, id, size) in entries {
        data.extend_from_slice(&offset.to_le_bytes());
        data.extend_from_slice(&id.to_le_bytes());
        data.extend_from_slice(&size.to_le_bytes());
    }
    data
}

/// A graph tile with a dataset id in its header.
fn graph_tile(dataset_id: u64) -> Vec<u8> {
    let mut tile = vec![0u8; 300];
    tile[32..40].copy_from_slice(&dataset_id.to_le_bytes());
    tile
}

/// An archive with `index.bin` and one tile under the path of tile 10.
fn indexed_archive(name: &str, tile: &[u8]) -> Vec<u8> {
    let index = index_bin(&[(512 + 512 + 512, 10, tile.len() as u32)]);
    let (tar, offsets) = tar_of(&[("index.bin", &index), (name, tile)]);
    assert_eq!(offsets[1], 1536);
    tar
}

fn start(scan_index: bool, dataset_id: Option<&str>) -> AwaitHead {
    S3Archive::open("s3://bucket/path/key.tar", scan_index, dataset_id).unwrap()
}

fn head_of(archive: &[u8]) -> HeadReply {
    HeadReply {
        etag: Some("\"etag\"".into()),
        last_modified: Some(1_744_891_200),
        content_length: Some(archive.len() as i64),
    }
}

fn slice(archive: &[u8], offset: u64, length: u64) -> Vec<u8> {
    let end = archive.len().min((offset + length) as usize);
    archive[offset as usize..end].to_vec()
}

/// Runs a conversation to its end, and lists the ranges that were read.
fn run(archive: &[u8], begin: AwaitHead) -> (OpenStep, Vec<(u64, u64)>) {
    let mut step = begin.reply(Ok(head_of(archive)));
    let mut reads = Vec::new();
    loop {
        let (offset, length, next) = match step {
            OpenStep::Read(ByteRange { offset, length }, next) => (offset, length, next),
            last => return (last, reads),
        };
        assert_eq!(next.bucket(), "bucket");
        assert_eq!(next.key(), "path/key.tar");
        assert_eq!(next.archive_size(), archive.len() as u64);
        assert_eq!(next.is_scanning(), offset == 0 && !reads.is_empty());
        reads.push((offset, length));
        step = next.reply(Ok(slice(archive, offset, length)));
    }
}

fn opened(step: OpenStep) -> (S3Archive, ArchiveMeta, DatasetIdSource) {
    match step {
        OpenStep::Ready(archive, meta, source) => (archive, meta, source),
        other => panic!("not opened: {:?}", other),
    }
}

fn failure(step: OpenStep) -> String {
    match step {
        OpenStep::Failed(e) => e.message(),
        other => panic!("not failed: {:?}", other),
    }
}

#[test]
fn opens_an_archive_with_an_index() {
    let tar = indexed_archive("2/000/001.gph", &graph_tile(77));
    let begin = start(false, None);
    assert_eq!(begin.bucket(), "bucket");
    assert_eq!(begin.key(), "path/key.tar");
    let (step, reads) = run(&tar, begin);
    assert_eq!(reads, [(0, 512), (512, 16), (1024, 512), (1536, 272)]);
    let (archive, meta, source) = opened(step);
    assert!(matches!(source, DatasetIdSource::Detected));
    assert_eq!(archive.bucket(), "bucket");
    assert_eq!(archive.key(), "path/key.tar");
    assert_eq!(archive.compression(), TileCompression::Plain);
    assert_eq!(
        archive.get_tile(TileId::from_path("2/000/001.gph").unwrap()),
        Some(ByteRange { offset: 1536, length: 300 })
    );
    assert_eq!(meta.etag, "\"etag\"");
    assert_eq!(meta.last_modified, "Thu, 17 Apr 2025 12:00:00 GMT");
    assert_eq!(meta.dataset_id, "77");
    assert_eq!(meta.tile_count, 1);
}

#[test]
fn opens_compressed_archives() {
    let gz = gzip_compress(&graph_tile(5));
    let tar = indexed_archive("2/000/001.gph.gz", &gz);
    let (step, reads) = run(&tar, start(false, None));
    assert_eq!(reads[3], (1536, gz.len() as u64));
    let (archive, meta, _) = opened(step);
    assert_eq!(archive.compression(), TileCompression::Gzip);
    assert_eq!(meta.dataset_id, "5");

    let zst = zstd_compress(&graph_tile(u64::MAX));
    let tar = indexed_archive("2/000/001.gph.zst", &zst);
    let (archive, meta, _) = opened(run(&tar, start(false, None)).0);
    assert_eq!(archive.compression(), TileCompression::Zstd);
    assert_eq!(meta.dataset_id, "18446744073709551615");
}

#[test]
fn a_given_dataset_id_comes_first() {
    let tar = indexed_archive("2/000/001.gph", &graph_tile(77));
    let (step, reads) = run(&tar, start(false, Some("mine")));
    assert_eq!(reads, [(0, 512), (512, 16), (1024, 512)]);
    let (_, meta, source) = opened(step);
    assert!(matches!(source, DatasetIdSource::Given));
    assert_eq!(meta.dataset_id, "mine");
}

fn fallback(name: &str, tile: &[u8]) -> String {
    let (_, meta, source) = opened(run(&indexed_archive(name, tile), start(false, None)).0);
    assert_eq!(meta.dataset_id, "\"etag\"");
    match source {
        DatasetIdSource::Fallback(e) => e.message(),
        other => panic!("no fallback: {:?}", other),
    }
}

#[test]
fn the_etag_is_the_last_resort() {
    assert_eq!(
        fallback("2/000/001.gph", &graph_tile(0)),
        "dataset_id is 0; tile may not be a graph tile"
    );
    assert_eq!(
        fallback("2/000/001.csv", b"short"),
        "tile is only 5 bytes, too small for GraphTileHeader (272 bytes)"
    );
    assert_eq!(
        fallback("2/000/001.csv.gz", &gzip_compress(b"short")),
        "header too short for dataset_id: 5 bytes (need at least 40)"
    );
    assert!(fallback("2/000/001.csv.gz", b"no gzip").starts_with("decode tile for dataset_id: "));
    assert!(fallback("2/000/001.csv.zst", b"no zstd").starts_with("decode tile for dataset_id: "));

    // a failed read of the tile does not keep the archive from opening
    let tar = indexed_archive("2/000/001.gph", &graph_tile(77));
    let step = at_tile(&tar).reply(Err(S3Error::Request("gone".into())));
    let (_, meta, source) = opened(step);
    assert_eq!(meta.dataset_id, "\"etag\"");
    assert!(matches!(source, DatasetIdSource::Fallback(S3Error::Request(_))));
}

/// The conversation where the tile is to be read.
fn at_tile(tar: &[u8]) -> AwaitBytes {
    let mut step = start(false, None).reply(Ok(head_of(tar)));
    for (offset, length) in [(0, 512), (512, 16), (1024, 512)] {
        step = match step {
            OpenStep::Read(_, next) => next.reply(Ok(slice(tar, offset, length))),
            other => panic!("ended: {:?}", other),
        };
    }
    match step {
        OpenStep::Read(_, next) => next,
        other => panic!("ended: {:?}", other),
    }
}

#[test]
fn dataset_ids_of_tiles() {
    assert_eq!(detect_dataset_id(graph_tile(9), TileCompression::Plain).unwrap(), 9);
    assert_eq!(dataset_id_from_decoded(Ok(graph_tile(10))).unwrap(), 10);
    let error = DecodeError { message: "corrupt".into() };
    assert_eq!(
        dataset_id_from_decoded(Err(error)).unwrap_err().message(),
        "decode tile for dataset_id: corrupt"
    );
}

#[test]
fn a_url_must_name_bucket_and_key() {
    let err = S3Archive::open("https://x/y", false, None).unwrap_err();
    assert_eq!(err.message(), "expected s3:// URL, got: https://x/y");
}

#[test]
fn every_field_of_the_head_is_needed() {
    let reply = |change: fn(&mut HeadReply)| {
        let mut head = head_of(&[0; 1024]);
        change(&mut head);
        failure(start(false, None).reply(Ok(head)))
    };
    assert_eq!(reply(|h| h.etag = None), "S3 HeadObject returned no ETag");
    assert_eq!(reply(|h| h.last_modified = None), "S3 HeadObject returned no Last-Modified");
    assert_eq!(
        reply(|h| h.last_modified = Some(253_402_300_800)),
        "S3 HeadObject returned no Last-Modified"
    );
    assert_eq!(
        reply(|h| h.last_modified = Some(-62_135_596_801)),
        "S3 HeadObject returned no Last-Modified"
    );
    assert_eq!(reply(|h| h.content_length = None), "S3 HeadObject returned no Content-Length");
    assert_eq!(
        failure(start(false, None).reply(Err("denied".into()))),
        "S3 request failed: HeadObject failed: denied"
    );
}

#[test]
fn dates_are_http_dates() {
    let tar = indexed_archive("2/000/001.gph", &graph_tile(1));
    for (seconds, text) in [
        (0, "Thu, 01 Jan 1970 00:00:00 GMT"),
        (-62_135_596_800, "Mon, 01 Jan 0001 00:00:00 GMT"),
        (253_402_300_799, "Fri, 31 Dec 9999 23:59:59 GMT"),
    ] {
        let mut head = head_of(&tar);
        head.last_modified = Some(seconds);
        let mut step = start(false, Some("x")).reply(Ok(head));
        for (offset, length) in [(0, 512), (512, 16), (1024, 512)] {
            step = match step {
                OpenStep::Read(_, next) => next.reply(Ok(slice(&tar, offset, length))),
                other => panic!("ended: {:?}", other),
            };
        }
        assert_eq!(opened(step).1.last_modified, text);
    }
}

#[test]
fn a_date_can_be_given_as_text() {
    let step = start(false, None).after_head(Some("e".into()), Some("d".into()), Some(1024));
    assert!(matches!(step, OpenStep::Read(ByteRange { offset: 0, length: 512 }, _)));
    let step = start(false, None).after_head(Some("e".into()), None, Some(1024));
    assert_eq!(failure(step), "S3 HeadObject returned no Last-Modified");
}

#[test]
fn opening_fails() {
    // too short for a header
    assert_eq!(failure(run(&[0; 511], start(true, None)).0), "tar header shorter than 512 bytes");
    // no header
    assert_eq!(
        failure(run(&[0; 1024], start(true, None)).0),
        "invalid tar header: checksum mismatch"
    );
    // no index, and no scan asked for
    let (plain, _) = tar_of(&[("2/000/001.gph", &graph_tile(1))]);
    let step = run(&plain, start(false, None)).0;
    assert!(matches!(step, OpenStep::Failed(S3Error::Tar(TarError::MissingIndexNoScan))));
    // an index that is empty or not made of entries
    let (tar, _) = tar_of(&[("index.bin", b"")]);
    assert_eq!(failure(run(&tar, start(true, None)).0), "index.bin is empty");
    let (tar, _) = tar_of(&[("index.bin", &[0; 17])]);
    assert_eq!(
        failure(run(&tar, start(true, None)).0),
        "index.bin size 17 is not a multiple of entry size 16"
    );
    // a tile header that is not there
    let index = index_bin(&[(4096, 10, 1)]);
    let (tar, _) = tar_of(&[("index.bin", &index)]);
    assert_eq!(tar.len(), 2048);
    let mut longer = tar.clone();
    longer.resize(4000, 0);
    assert_eq!(
        failure(run(&longer, start(true, None)).0),
        "tile header shorter than 512 bytes"
    );
    // a read that fails
    let step = match start(false, None).reply(Ok(head_of(&tar))) {
        OpenStep::Read(_, next) => next.reply(Err(S3Error::Request("gone".into()))),
        other => other,
    };
    assert_eq!(failure(step), "S3 request failed: gone");
}

#[test]
fn scans_a_plain_archive() {
    let tile = graph_tile(31);
    let (tar, offsets) = tar_of(&[
        ("README", b"not a tile"),
        ("2/000/001.gph", &tile),
        ("dir/", b""),
        ("0/000/529.gph", b"12345"),
        ("2/000/001.gph", b"again"),
    ]);
    let (step, reads) = run(&tar, start(true, Some("x")));
    assert_eq!(reads, [(0, 512), (0, tar.len() as u64)]);
    let (archive, meta, _) = opened(step);
    assert_eq!(meta.tile_count, 2);
    assert_eq!(archive.compression(), TileCompression::Plain);
    assert_eq!(
        archive.get_tile(TileId::new(10)),
        Some(ByteRange { offset: offsets[4], length: 5 })
    );
    assert_eq!(
        archive.get_tile(TileId::new(529 << 3)),
        Some(ByteRange { offset: offsets[3], length: 5 })
    );
    assert_eq!(archive.get_tile(TileId::new(0)), None);

    let (tar, _) = tar_of(&[("2/000/001.gph", &tile)]);
    let (_, meta, source) = opened(run(&tar, start(true, None)).0);
    assert!(matches!(source, DatasetIdSource::Detected));
    assert_eq!(meta.dataset_id, "31");
}

#[test]
fn the_first_tile_tells_the_compression_of_a_scan() {
    let (tar, _) = tar_of(&[
        ("notes.zst", b""),
        ("2/000/001.gph.gz", b"x"),
        ("2/000/002.gph", b"y"),
    ]);
    let (archive, _, _) = opened(run(&tar, start(true, Some("x"))).0);
    assert_eq!(archive.compression(), TileCompression::Gzip);
}

#[test]
fn a_scan_needs_tiles_and_valid_headers() {
    let (tar, _) = tar_of(&[("README", b"no tile")]);
    assert_eq!(failure(run(&tar, start(true, None)).0), "index.bin is empty");

    let (mut tar, offsets) = tar_of(&[("2/000/001.gph", b"x"), ("2/000/002.gph", b"y")]);
    tar[offsets[1] as usize - 512] = b'9';
    assert_eq!(
        failure(run(&tar, start(true, None)).0),
        "invalid tar header: checksum mismatch"
    );
}

#[test]
fn a_scan_ends_at_zeros_or_at_the_end() {
    // nothing behind a block of zeros is looked at
    let (mut tar, _) = tar_of(&[("2/000/001.gph", b"x")]);
    tar.extend_from_slice(&tar_header("2/000/002.gph", 0));
    let (_, meta, _) = opened(run(&tar, start(true, Some("x"))).0);
    assert_eq!(meta.tile_count, 1);

    // no zeros at the end, and less than a block
    let (mut tar, _) = tar_of(&[("2/000/001.gph", b"x")]);
    tar.truncate(1024 + 100);
    let (_, meta, _) = opened(run(&tar, start(true, Some("x"))).0);
    assert_eq!(meta.tile_count, 1);
}

#[test]
fn tiles_beyond_the_size_limit_are_skipped() {
    let mut tar = tar_header("2/000/001.gph", 1);
    tar.resize(1024, 0);
    tar.extend_from_slice(&tar_header("2/000/002.gph", 1 << 32));
    let (archive, meta, _) = opened(run(&tar, start(true, Some("x"))).0);
    assert_eq!(meta.tile_count, 1);
    assert_eq!(archive.tile_size(TileId::new(10)), Some(1));
}

/// Feeds an archive to a scan chunk by chunk.
fn scan(archive: &[u8]) -> ScanOutcome {
    let mut outcome = TarScan::start(archive.len() as u64);
    let mut taken: u64 = 0;
    loop {
        match outcome {
            ScanOutcome::More(scan) => {
                let range = scan.wanted();
                assert_eq!(range, chunk_range(archive.len() as u64, taken));
                taken += 1;
                outcome = scan.take(&slice(archive, range.offset, range.length));
            }
            last => return last,
        }
    }
}

#[test]
fn headers_in_every_chunk_are_found() {
    let big = vec![1u8; CHUNK_SIZE as usize - 1024];
    let (tar, offsets) = tar_of(&[
        ("2/000/001.gph", &big),
        ("2/000/002.gph", &big),
        ("2/000/003.gph", b"x"),
    ]);
    assert_eq!(count_chunks(tar.len() as u64), 3);
    match scan(&tar) {
        ScanOutcome::Done(index, _) => {
            assert_eq!(index.len(), 3);
            assert_eq!(index.get(TileId::new(2 | (3 << 3))).unwrap().offset, offsets[2]);
        }
        other => panic!("not done: {:?}", other),
    }
}

#[test]
fn chunks_without_headers_are_passed_over() {
    let big = vec![1u8; 2 * CHUNK_SIZE as usize + 5000];
    let (tar, offsets) = tar_of(&[("2/000/001.gph", &big), ("2/000/002.gph", b"x")]);
    match scan(&tar) {
        ScanOutcome::Done(index, compression) => {
            assert_eq!(compression, TileCompression::Plain);
            assert_eq!(index.len(), 2);
            assert_eq!(index.get(TileId::new(2 | (2 << 3))).unwrap().offset, offsets[1]);
        }
        other => panic!("not done: {:?}", other),
    }
}

#[test]
fn a_scan_of_nothing() {
    assert!(matches!(
        TarScan::start(511),
        ScanOutcome::Failed(S3Error::Tar(TarError::EmptyIndex))
    ));
}

#[test]
fn short_chunks_run_out_of_bounds() {
    let (tar, _) = tar_of(&[("2/000/001.gph", &[1; 4000]), ("2/000/002.gph", b"x")]);
    match TarScan::start(tar.len() as u64) {
        ScanOutcome::More(scan) => {
            assert!(matches!(scan.take(&tar[..512]), ScanOutcome::OutOfBounds));
        }
        other => panic!("not waiting: {:?}", other),
    }
    // a header that the last chunk cuts has no chunk to go on in
    match TarScan::start(tar.len() as u64) {
        ScanOutcome::More(scan) => match scan.take(&tar[..100]) {
            ScanOutcome::Failed(e) => assert_eq!(e.message(), "unexpected end of chunk stream"),
            other => panic!("not failed: {:?}", other),
        },
        other => panic!("not waiting: {:?}", other),
    }
    // a cut header is put together from a short chunk and the next one
    let size = CHUNK_SIZE + 1024;
    let header = tar_header("2/000/001.gph", 3 * CHUNK_SIZE);
    match TarScan::start(size) {
        ScanOutcome::More(scan) => match scan.take(&header[..100]) {
            ScanOutcome::More(scan) => {
                assert_eq!(scan.wanted(), ByteRange { offset: CHUNK_SIZE, length: 1024 });
                match scan.take(&header[100..]) {
                    ScanOutcome::Done(index, _) => assert_eq!(index.len(), 1),
                    other => panic!("not done: {:?}", other),
                }
            }
            other => panic!("not waiting: {:?}", other),
        },
        other => panic!("not waiting: {:?}", other),
    }
}

#[test]
fn chunks_cover_an_archive() {
    for size in [0, 1, 512, CHUNK_SIZE - 1, CHUNK_SIZE, CHUNK_SIZE + 1, 3 * CHUNK_SIZE] {
        let mut at: u64 = 0;
        for i in 0..count_chunks(size) {
            let range = chunk_range(size, i);
            assert_eq!(range.offset, at);
            assert!(range.length > 0 && range.length <= CHUNK_SIZE);
            at += range.length;
        }
        assert_eq!(at, size);
    }
    assert_eq!(count_chunks(u64::MAX), 1 << 41);
}

/// An archive with `index.bin` that lists the entries in the order given, by their positions.
fn archive_listing(entries: &[(&str, u32, &[u8])], order: &[usize]) -> Vec<u8> {
    let blank = vec![0u8; 16 * order.len()];
    let mut members: Vec<(&str, &[u8])> = vec![("index.bin", blank.as_slice())];
    members.extend(entries.iter().map(|&(name, _, data)| (name, data)));
    let (_, offsets) = tar_of(&members);
    let list: Vec<(u64, u32, u32)> = order
        .iter()
        .map(|&i| (offsets[i + 1], entries[i].1, entries[i].2.len() as u32))
        .collect();
    let index = index_bin(&list);
    members[0] = ("index.bin", index.as_slice());
    tar_of(&members).0
}

#[test]
fn the_tile_listed_first_decides() {
    let plain = graph_tile(11);
    let gz = gzip_compress(&graph_tile(22));
    let zst = zstd_compress(&graph_tile(33));
    let entries: [(&str, u32, &[u8]); 3] = [
        ("2/000/001.gph", 10, &plain),
        ("2/000/002.gph.gz", 18, &gz),
        ("2/000/003.gph.zst", 26, &zst),
    ];
    let expected = [
        (TileCompression::Plain, "11"),
        (TileCompression::Gzip, "22"),
        (TileCompression::Zstd, "33"),
    ];
    for order in [[0usize, 1, 2], [1, 0, 2], [2, 1, 0], [1, 2, 0], [2, 0, 1], [0, 2, 1]] {
        let tar = archive_listing(&entries, &order);
        let (archive, meta, _) = opened(run(&tar, start(false, None)).0);
        let (compression, id) = expected[order[0]];
        assert_eq!(archive.compression(), compression);
        assert_eq!(meta.dataset_id, id);
        assert_eq!(meta.tile_count, 3);
    }
}

#[test]
fn a_tile_listed_again_has_its_later_place() {
    let old = graph_tile(1);
    let new = gzip_compress(&graph_tile(2));
    let entries: [(&str, u32, &[u8]); 2] =
        [("2/000/001.gph", 10, &old), ("2/000/001.gph.gz", 10, &new)];
    let (archive, meta, _) = opened(run(&archive_listing(&entries, &[0, 1]), start(false, None)).0);
    assert_eq!(meta.tile_count, 1);
    assert_eq!(archive.compression(), TileCompression::Gzip);
    assert_eq!(meta.dataset_id, "2");
}

#[test]
fn a_scanned_archive_has_the_dataset_id_of_its_first_tile() {
    for ids in [[1u64, 2], [2, 1]] {
        let (tar, _) = tar_of(&[
            ("notes", b"x"),
            ("2/000/009.gph", &graph_tile(ids[0])),
            ("2/000/001.gph", &graph_tile(ids[1])),
        ]);
        let (_, meta, _) = opened(run(&tar, start(true, None)).0);
        assert_eq!(meta.dataset_id, ids[0].to_string());
    }
}

#[test]
fn a_tile_needs_room_for_its_header() {
    let (tar, _) = tar_of(&[("index.bin", &index_bin(&[(511, 10, 1)]))]);
    assert!(matches!(run(&tar, start(false, None)).0, OpenStep::OutOfBounds));
}

fn messages(notes: &[ScanNote]) -> Vec<String> {
    notes.iter().map(|note| note.message()).collect()
}

#[test]
fn a_scan_tells_what_it_skips_and_finds() {
    let mut tar = tar_header("2/000/001.gph", 0);
    tar.extend_from_slice(&tar_header("README", 0));
    tar.extend_from_slice(&tar_header("2/000/002.gph", 1 << 32));
    let mut notes = vec![ScanNote::Scanned(7)];
    let outcome = match TarScan::start(tar.len() as u64) {
        ScanOutcome::More(scan) => scan.take_noting(&tar, &mut notes),
        other => other,
    };
    assert!(matches!(outcome, ScanOutcome::Done(..)));
    assert_eq!(
        messages(&notes),
        [
            "Scanned 7 tiles so far...",
            "Skipping tile 2/000/002.gph (4294967296 bytes): exceeds u32::MAX size limit",
            "Built index from tar scan: 1 tiles",
        ]
    );
}

#[test]
fn a_scan_tells_how_far_it_is() {
    let mut tar = Vec::new();
    for i in 0..2001 {
        tar.extend_from_slice(&tar_header(&format!("0/{:03}/{:03}.gph", i / 1000, i % 1000), 0));
    }
    // the same tile again, which adds none
    tar.extend_from_slice(&tar_header("0/000/000.gph", 0));
    let mut notes = Vec::new();
    let mut step = start(true, Some("x")).reply(Ok(head_of(&tar)));
    loop {
        step = match step {
            OpenStep::Read(range, next) => {
                let bytes = slice(&tar, range.offset, range.length);
                next.reply_noting(Ok(bytes), &mut notes)
            }
            last => {
                assert_eq!(opened(last).1.tile_count, 2001);
                break;
            }
        };
    }
    assert_eq!(
        messages(&notes),
        [
            "index.bin not found in archive; scanning tar headers to build index via range requests.",
            "Scanned 1000 tiles so far...",
            "Scanned 2000 tiles so far...",
            "Built index from tar scan: 2001 tiles",
        ]
    );
}

#[test]
fn a_scan_that_cannot_start_is_still_told() {
    let mut head = head_of(&[]);
    head.content_length = Some(100);
    let mut notes = Vec::new();
    let step = match start(true, None).reply(Ok(head)) {
        OpenStep::Read(_, next) => next.reply_noting(Ok(tar_header("README", 0)), &mut notes),
        other => other,
    };
    assert_eq!(failure(step), "index.bin is empty");
    assert!(matches!(notes.as_slice(), [ScanNote::Started]));

    // no scan is asked for, or there is an index
    let mut notes = Vec::new();
    for (scan_index, name) in [(false, "README"), (true, "index.bin")] {
        if let OpenStep::Read(_, next) = start(scan_index, None).reply(Ok(head_of(&[0; 1024]))) {
            next.reply_noting(Ok(tar_header(name, 16)), &mut notes);
        }
    }
    assert!(notes.is_empty());
}

#[test]
fn a_failed_scan_still_tells_what_it_skipped() {
    let mut tar = tar_header("2/000/002.gph", 0);
    tar.extend_from_slice(&[1; 512]);
    let mut notes = Vec::new();
    match TarScan::start(tar.len() as u64) {
        ScanOutcome::More(scan) => {
            assert!(matches!(scan.take_noting(&tar, &mut notes), ScanOutcome::Failed(_)));
        }
        other => panic!("not waiting: {:?}", other),
    }
    assert!(notes.is_empty());
    let tar = tar_header("2/000/002.gph", 1 << 32);
    match TarScan::start(tar.len() as u64) {
        ScanOutcome::More(scan) => {
            assert!(matches!(scan.take_noting(&tar, &mut notes), ScanOutcome::Failed(_)));
        }
        other => panic!("not waiting: {:?}", other),
    }
    assert_eq!(
        messages(&notes),
        ["Skipping tile 2/000/002.gph (4294967296 bytes): exceeds u32::MAX size limit"]
    );
}
