//! Archives on an object store: where they are, what their tiles tell of them, and finding tiles
//! in them.

use vstd::prelude::*;
use vstd::slice::slice_subrange;
use vstd::string::*;

use crate::codec::decompress;
use crate::error::S3Error;
use crate::index::{le_u64, TileEntry, TileIndex};
use crate::range::ByteRange;
use crate::scan::to_block;
use crate::tar::{TarHeader, TAR_BLOCK_SIZE};
use crate::text::{append_decimal, chars_of, find_char};
use crate::tile::{TileCompression, TileId};

verus! {

/// Size of Valhalla's `GraphTileHeader`.
pub const GRAPH_TILE_HEADER_SIZE: usize = 272;

/// Byte offset of `dataset_id_`, a `u64`, within a `GraphTileHeader`.
///
/// Layout of the header:
///   - bytes  0..8:   bit fields
///   - bytes  8..16:  `base_ll_`
///   - bytes 16..32:  `version_`
///   - bytes 32..40:  `dataset_id_`
pub const DATASET_ID_OFFSET: usize = 32;

/// Where `dataset_id_` ends.
pub const DATASET_ID_END: usize = 40;

/// Bucket and key of an `s3://bucket/key` URL.
pub open spec fn s3_location(url: Seq<char>) -> Option<(Seq<char>, Seq<char>)> {
    if "s3://"@.is_prefix_of(url) {
        crate::text::split_once(url.skip("s3://"@.len() as int), '/')
    } else {
        None
    }
}

/// Splits an `s3://bucket/key` URL into bucket and key.
pub fn parse_s3_url<'a>(url: &'a str) -> (location: Option<(&'a str, &'a str)>)
    ensures
        match location {
            Some((bucket, key)) => s3_location(url@) == Some((bucket@, key@)),
            None => s3_location(url@) is None,
        },
{
    let chars = chars_of(url);
    let scheme = chars_of("s3://");
    if chars.len() < scheme.len() {
        return None;
    }
    let start = slice_subrange(chars.as_slice(), 0, scheme.len());
    assert(start@ =~= url@.take("s3://"@.len() as int));
    if !crate::text::same_chars(start, scheme.as_slice()) {
        return None;
    }
    let path = slice_subrange(chars.as_slice(), scheme.len(), chars.len());
    assert(path@ =~= url@.skip("s3://"@.len() as int));
    let slash = find_char(path, '/');
    if slash >= path.len() {
        return None;
    }
    let at: usize = scheme.len() + slash;
    let bucket = url.substring_char(scheme.len(), at);
    let key = url.substring_char(at + 1, chars.len());
    assert(bucket@ =~= path@.take(slash as int));
    assert(key@ =~= path@.skip(slash + 1));
    Some((bucket, key))
}

/// The `dataset_id_` of a `GraphTileHeader`, or why there is none.
pub open spec fn dataset_id_of(header: Seq<u8>) -> Result<u64, crate::error::S3ErrorView> {
    if header.len() < DATASET_ID_END {
        Err(
            crate::error::S3ErrorView::Protocol(
                "header too short for dataset_id: "@ + crate::text::decimal(header.len())
                    + " bytes (need at least "@ + crate::text::decimal(DATASET_ID_END as nat)
                    + ")"@,
            ),
        )
    } else {
        Ok(
            crate::index::le_value(
                header.subrange(DATASET_ID_OFFSET as int, DATASET_ID_END as int),
            ) as u64,
        )
    }
}

/// Extracts `dataset_id_`, a little-endian `u64`, from the bytes of a `GraphTileHeader`.
pub fn parse_dataset_id(header: &[u8]) -> (r: Result<u64, S3Error>)
    ensures
        crate::error::result_view(r) == dataset_id_of(header@),
{
    if header.len() < DATASET_ID_END {
        let mut text = "header too short for dataset_id: ".to_owned();
        append_decimal(&mut text, header.len() as u64);
        text.append(" bytes (need at least ");
        append_decimal(&mut text, DATASET_ID_END as u64);
        text.append(")");
        return Err(S3Error::Protocol(text));
    }
    Ok(le_u64(slice_subrange(header, DATASET_ID_OFFSET, DATASET_ID_END)))
}

/// The compression that the name in a tile's tar header tells, or why it tells none.
pub open spec fn compression_of_header(header: Seq<u8>) -> Result<
    TileCompression,
    crate::error::S3ErrorView,
> {
    if header.len() != TAR_BLOCK_SIZE {
        Err(crate::error::S3ErrorView::Protocol("tile header shorter than 512 bytes"@))
    } else {
        match crate::tar::header_of(header) {
            Ok(h) => Ok(TileCompression::of_name(h.name)),
            Err(e) => Err(crate::error::S3ErrorView::Tar(e)),
        }
    }
}

/// Tells the compression of an archive's tiles from the tar header of one of them.
///
/// Index entries hold no file names, so the header, which sits right before the tile's data,
/// has to be read to recover one.
pub fn detect_compression(header: &[u8]) -> (r: Result<TileCompression, S3Error>)
    ensures
        crate::error::result_view(r) == compression_of_header(header@),
{
    if header.len() != TAR_BLOCK_SIZE {
        return Err(S3Error::Protocol("tile header shorter than 512 bytes".to_owned()));
    }
    let block = to_block(header);
    match TarHeader::parse(&block) {
        Ok(h) => Ok(TileCompression::from_name(h.name.as_str())),
        Err(e) => Err(S3Error::Tar(e)),
    }
}

/// The tar header of a tile whose data starts at `offset`: the block right before it, unless
/// there is no room for one.
pub open spec fn header_range(offset: u64) -> Option<ByteRange> {
    if offset >= TAR_BLOCK_SIZE {
        Some(
            ByteRange { offset: (offset - TAR_BLOCK_SIZE) as u64, length: TAR_BLOCK_SIZE as u64 },
        )
    } else {
        None
    }
}

/// Tells where the tar header of a tile lies whose data starts at `offset`.
pub fn header_before(offset: u64) -> (r: Option<ByteRange>)
    ensures
        r == header_range(offset),
{
    let length: u64 = TAR_BLOCK_SIZE as u64;
    if offset >= length {
        Some(ByteRange { offset: offset - length, length })
    } else {
        None
    }
}

/// The bytes of tile `first` to read for the dataset id, or why there are none.
///
/// A plain tile's header is enough; a compressed tile has to be read whole.
pub open spec fn dataset_range(first: Option<TileEntry>, compression: TileCompression) -> Result<
    ByteRange,
    crate::error::S3ErrorView,
> {
    match first {
        None => Err(
            crate::error::S3ErrorView::Protocol("no tiles in index to read header from"@),
        ),
        Some(e) => if compression != TileCompression::Plain {
            Ok(ByteRange { offset: e.offset, length: e.size as u64 })
        } else if e.size < GRAPH_TILE_HEADER_SIZE {
            Err(
                crate::error::S3ErrorView::Protocol(
                    "tile is only "@ + crate::text::decimal(e.size as nat)
                        + " bytes, too small for GraphTileHeader ("@ + crate::text::decimal(
                        GRAPH_TILE_HEADER_SIZE as nat,
                    ) + " bytes)"@,
                ),
            )
        } else {
            Ok(ByteRange { offset: e.offset, length: GRAPH_TILE_HEADER_SIZE as u64 })
        },
    }
}

/// Chooses the bytes of tile `first` to read for the dataset id.
pub fn probe_dataset_id(first: Option<TileEntry>, compression: TileCompression) -> (r: Result<
    ByteRange,
    S3Error,
>)
    ensures
        crate::error::result_view(r) == dataset_range(first, compression),
{
    let e = match first {
        None => return Err(
            S3Error::Protocol("no tiles in index to read header from".to_owned()),
        ),
        Some(e) => e,
    };
    if compression != TileCompression::Plain {
        return Ok(ByteRange { offset: e.offset, length: e.size as u64 });
    }
    if (e.size as u64) < GRAPH_TILE_HEADER_SIZE as u64 {
        let mut text = "tile is only ".to_owned();
        append_decimal(&mut text, e.size as u64);
        text.append(" bytes, too small for GraphTileHeader (");
        append_decimal(&mut text, GRAPH_TILE_HEADER_SIZE as u64);
        text.append(" bytes)");
        return Err(S3Error::Protocol(text));
    }
    Ok(ByteRange { offset: e.offset, length: GRAPH_TILE_HEADER_SIZE as u64 })
}

/// The dataset id in the plain bytes of a tile. Zero is not a dataset id.
pub open spec fn nonzero_dataset_id(plain: Seq<u8>) -> Result<u64, crate::error::S3ErrorView> {
    match dataset_id_of(plain) {
        Err(e) => Err(e),
        Ok(id) => if id == 0 {
            Err(
                crate::error::S3ErrorView::Protocol(
                    "dataset_id is 0; tile may not be a graph tile"@,
                ),
            )
        } else {
            Ok(id)
        },
    }
}

/// The dataset id in the stored bytes of a tile, given what decoding them gave.
pub open spec fn dataset_id_of_decoded(outcome: Result<Seq<u8>, Seq<char>>) -> Result<
    u64,
    crate::error::S3ErrorView,
> {
    match outcome {
        Ok(plain) => nonzero_dataset_id(plain),
        Err(what) => Err(
            crate::error::S3ErrorView::Protocol("decode tile for dataset_id: "@ + what),
        ),
    }
}

/// Reads the dataset id from what decoding a tile gave.
pub fn dataset_id_from_decoded(outcome: Result<Vec<u8>, crate::codec::DecodeError>) -> (r: Result<
    u64,
    S3Error,
>)
    ensures
        crate::error::result_view(r) == dataset_id_of_decoded(crate::error::result_view(outcome)),
{
    let plain = match outcome {
        Ok(plain) => plain,
        Err(e) => {
            let mut text = "decode tile for dataset_id: ".to_owned();
            text.append(e.message.as_str());
            return Err(S3Error::Protocol(text));
        },
    };
    match parse_dataset_id(plain.as_slice()) {
        Err(e) => Err(e),
        Ok(id) => if id == 0 {
            Err(S3Error::Protocol("dataset_id is 0; tile may not be a graph tile".to_owned()))
        } else {
            Ok(id)
        },
    }
}

/// Reads the dataset id from the stored bytes of a tile.
pub fn detect_dataset_id(raw: Vec<u8>, compression: TileCompression) -> (r: Result<u64, S3Error>)
    ensures
        crate::error::result_view(r) == dataset_id_of_decoded(
            crate::codec::decoded(raw@, compression),
        ),
{
    dataset_id_from_decoded(decompress(raw, compression))
}

/// What is known of an archive when it has been opened.
#[derive(Debug)]
pub struct ArchiveMeta {
    /// ETag of the object, quotes included.
    pub etag: String,
    /// When the object was last modified, as an HTTP date.
    pub last_modified: String,
    /// Dataset id: given, found in a tile's header, or else the ETag.
    pub dataset_id: String,
    /// Number of tiles in the index.
    pub tile_count: usize,
}

/// An [`ArchiveMeta`] with its texts as characters.
pub struct ArchiveMetaView {
    pub etag: Seq<char>,
    pub last_modified: Seq<char>,
    pub dataset_id: Seq<char>,
    pub tile_count: nat,
}

impl View for ArchiveMeta {
    type V = ArchiveMetaView;

    open spec fn view(&self) -> ArchiveMetaView {
        ArchiveMetaView {
            etag: self.etag@,
            last_modified: self.last_modified@,
            dataset_id: self.dataset_id@,
            tile_count: self.tile_count as nat,
        }
    }
}

/// An opened archive: where it is and where its tiles are in it.
#[derive(Debug)]
pub struct S3Archive {
    bucket: String,
    key: String,
    index: TileIndex,
    compression: TileCompression,
}

/// An [`S3Archive`] with its texts as characters and its index taken by its view.
pub struct S3ArchiveView {
    pub bucket: Seq<char>,
    pub key: Seq<char>,
    pub index: crate::index::TileIndexView,
    pub compression: TileCompression,
}

impl View for S3Archive {
    type V = S3ArchiveView;

    closed spec fn view(&self) -> S3ArchiveView {
        S3ArchiveView {
            bucket: self.bucket@,
            key: self.key@,
            index: self.index@,
            compression: self.compression,
        }
    }
}

impl S3Archive {
    /// An archive from its parts.
    pub fn new(bucket: String, key: String, index: TileIndex, compression: TileCompression) -> (a:
        Self)
        ensures
            a@ == (S3ArchiveView { bucket: bucket@, key: key@, index: index@, compression }),
    {
        Self { bucket, key, index, compression }
    }

    /// Bucket that holds the archive.
    pub fn bucket(&self) -> (s: &str)
        ensures
            s@ == self@.bucket,
    {
        self.bucket.as_str()
    }

    /// Key of the archive in its bucket.
    pub fn key(&self) -> (s: &str)
        ensures
            s@ == self@.key,
    {
        self.key.as_str()
    }

    /// The bytes that hold a tile, exactly as stored, compressed or not. Nothing when the tile
    /// is not in the index.
    pub fn get_tile(&self, tile_id: TileId) -> (range: Option<ByteRange>)
        ensures
            range == (if self@.index.tiles.contains_key(tile_id.0) {
                let e = self@.index.tiles[tile_id.0];
                Some(ByteRange { offset: e.offset, length: e.size as u64 })
            } else {
                None
            }),
    {
        match self.index.get(tile_id) {
            Some(e) => Some(ByteRange { offset: e.offset, length: e.size as u64 }),
            None => None,
        }
    }

    /// The stored size of a tile, or nothing when the tile does not exist. For a compressed
    /// archive this is the compressed size, not the size that a client receives.
    pub fn tile_size(&self, tile_id: TileId) -> (size: Option<u32>)
        ensures
            size == (if self@.index.tiles.contains_key(tile_id.0) {
                Some(self@.index.tiles[tile_id.0].size)
            } else {
                None
            }),
    {
        match self.index.get(tile_id) {
            Some(e) => Some(e.size),
            None => None,
        }
    }

    /// Compression of the tiles inside this archive.
    pub fn compression(&self) -> (c: TileCompression)
        ensures
            c == self@.compression,
    {
        self.compression
    }
}

/// A bucket and a key are read back from the URL that they make up. A bucket's name holds no
/// slash.
pub proof fn law_url_reads_back(bucket: Seq<char>, key: Seq<char>)
    requires
        !bucket.contains('/'),
    ensures
        s3_location("s3://"@ + bucket + seq!['/'] + key) == Some((bucket, key)),
{
    let url = "s3://"@ + bucket + seq!['/'] + key;
    let path = url.skip("s3://"@.len() as int);
    assert(url.take("s3://"@.len() as int) =~= "s3://"@);
    assert(path =~= bucket + seq!['/'] + key);
    assert forall|j: int| 0 <= j < bucket.len() implies path[j] != '/' by {
        assert(bucket.contains(bucket[j]));
    }
    crate::text::lemma_find_is(path, '/', bucket.len() as int);
    assert(path.take(bucket.len() as int) =~= bucket);
    assert(path.skip(bucket.len() as int + 1) =~= key);
}

/// A dataset id is read back from the tile header that holds it, whatever else the tile holds.
pub proof fn law_dataset_id_reads_back(before: Seq<u8>, id: u64, behind: Seq<u8>)
    requires
        before.len() == 32,
    ensures
        dataset_id_of(before + crate::index::le_bytes(id as nat, 8) + behind) == Ok::<
            u64,
            crate::error::S3ErrorView,
        >(id),
        id != 0 ==> nonzero_dataset_id(before + crate::index::le_bytes(id as nat, 8) + behind)
            == Ok::<u64, crate::error::S3ErrorView>(id),
{
    reveal_with_fuel(crate::index::byte_range, 9);
    crate::index::lemma_le_bytes(id as nat, 8);
    let header = before + crate::index::le_bytes(id as nat, 8) + behind;
    assert(header.subrange(DATASET_ID_OFFSET as int, DATASET_ID_END as int)
        =~= crate::index::le_bytes(id as nat, 8));
}

/// A URL of another scheme, or without a slash behind its bucket, names no archive.
pub proof fn law_url_needs_bucket_and_key(url: Seq<char>, rest: Seq<char>)
    ensures
        !"s3://"@.is_prefix_of(url) ==> s3_location(url) is None,
        !rest.contains('/') ==> s3_location("s3://"@ + rest) is None,
{
    let bare = "s3://"@ + rest;
    assert(bare.skip("s3://"@.len() as int) =~= rest);
    if !rest.contains('/') {
        crate::text::law_split_once(rest, '/', Seq::empty());
    }
}

/// There is a dataset id to read exactly in what is at least forty bytes long, and zero does not
/// count as one.
pub proof fn law_dataset_id_needs_forty_bytes(tile: Seq<u8>)
    ensures
        dataset_id_of(tile) is Ok <==> tile.len() >= 40,
        tile.len() < 40 ==> (dataset_id_of(tile) matches Err(e) && e
            == crate::error::S3ErrorView::Protocol(
            "header too short for dataset_id: "@ + crate::text::decimal(tile.len())
                + " bytes (need at least "@ + crate::text::decimal(40) + ")"@,
        )),
        nonzero_dataset_id(tile) is Ok <==> (dataset_id_of(tile) matches Ok(id) && id != 0),
        nonzero_dataset_id(tile) is Ok ==> nonzero_dataset_id(tile) == dataset_id_of(tile),
        dataset_id_of(tile) is Err ==> nonzero_dataset_id(tile) == dataset_id_of(tile),
{
}

/// The dataset id is looked for in what decoding the tile gave, all of it; a tile that cannot be
/// decoded tells none.
pub proof fn law_dataset_id_of_decoded_tile(plain: Seq<u8>, what: Seq<char>)
    ensures
        dataset_id_of_decoded(Ok(plain)) == nonzero_dataset_id(plain),
        dataset_id_of_decoded(Err(what)) matches Err(e) && e == crate::error::S3ErrorView::Protocol(
            "decode tile for dataset_id: "@ + what,
        ),
{
}

/// The name in a tile's tar header tells the compression by its end, if the header is a whole and
/// valid block.
pub proof fn law_tile_header_tells_compression(header: Seq<u8>)
    ensures
        header.len() != 512 ==> (compression_of_header(header) matches Err(e) && e
            == crate::error::S3ErrorView::Protocol("tile header shorter than 512 bytes"@)),
        header.len() == 512 ==> match crate::tar::header_of(header) {
            Ok(h) => compression_of_header(header) matches Ok(c) && {
                &&& c == TileCompression::Zstd <==> ".zst"@.is_suffix_of(h.name)
                &&& c == TileCompression::Gzip <==> ".gz"@.is_suffix_of(h.name)
            },
            Err(e) => compression_of_header(header) matches Err(why) && why
                == crate::error::S3ErrorView::Tar(e),
        },
{
    if header.len() == 512 {
        if let Ok(h) = crate::tar::header_of(header) {
            reveal_strlit(".zst");
            reveal_strlit(".gz");
            if ".zst"@.is_suffix_of(h.name) && ".gz"@.is_suffix_of(h.name) {
                let n = h.name.len() as int;
                assert(h.name.subrange(n - 4, n).last() == 't');
                assert(h.name.subrange(n - 3, n).last() == 'z');
            }
        }
    }
}

/// The tar header of a tile is the block that ends where its data starts.
pub proof fn law_header_ends_at_data(offset: u64)
    ensures
        header_range(offset) is Some <==> offset >= 512,
        header_range(offset) matches Some(range) ==> range.length == 512 && range.offset
            + range.length == offset,
{
}

/// What is read for the dataset id starts where the first tile starts. Of a compressed tile it is
/// everything that is stored; of a plain one it is its header of 272 bytes, which must be there.
pub proof fn law_dataset_id_read(entry: TileEntry, compression: TileCompression)
    ensures
        compression != TileCompression::Plain ==> (dataset_range(
            Some(entry),
            compression,
        ) matches Ok(range) && range.offset == entry.offset && range.length == entry.size),
        entry.size >= 272 ==> (dataset_range(Some(entry), TileCompression::Plain) matches Ok(range)
            && range.offset == entry.offset && range.length == 272),
        entry.size < 272 ==> (dataset_range(Some(entry), TileCompression::Plain) matches Err(e) && e
            == crate::error::S3ErrorView::Protocol(
            "tile is only "@ + crate::text::decimal(entry.size as nat)
                + " bytes, too small for GraphTileHeader ("@ + crate::text::decimal(272)
                + " bytes)"@,
        )),
        dataset_range(None, compression) matches Err(e) && e == crate::error::S3ErrorView::Protocol(
            "no tiles in index to read header from"@,
        ),
{
}

/// What is known of an archive holds what its view says.
pub proof fn law_meta_view(meta: ArchiveMeta)
    ensures
        meta@.etag == meta.etag@,
        meta@.last_modified == meta.last_modified@,
        meta@.dataset_id == meta.dataset_id@,
        meta@.tile_count == meta.tile_count,
{
}

} // verus!
