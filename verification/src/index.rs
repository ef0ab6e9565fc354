//! The tile index of an archive: where each tile's bytes are.

use rustc_hash::FxHashMap;
use vstd::prelude::*;
use vstd::slice::slice_subrange;

use crate::error::TarError;
use crate::tar::{TarHeader, TAR_BLOCK_SIZE};
use crate::text::{chars_of, same_chars};
use crate::tile::TileId;

verus! {

/// Size of a single index entry in bytes: a `u64` and two `u32`.
pub const TILE_INDEX_ENTRY_SIZE: usize = 16;

/// Where the fields of an index entry start: the offset, the tile id and the size.
pub const ENTRY_ID_START: usize = 8;

pub const ENTRY_SIZE_START: usize = 12;

/// Name of the index file, which must be the first entry of the tar.
pub const TILE_INDEX_FILE_NAME: &'static str = "index.bin";

/// The number that `bytes` write with the lowest byte first.
pub open spec fn le_value(bytes: Seq<u8>) -> nat
    decreases bytes.len(),
{
    if bytes.len() == 0 {
        0
    } else {
        bytes[0] as nat + 256 * le_value(bytes.drop_first())
    }
}

/// 256 to the power of `n`.
pub open spec fn byte_range(n: nat) -> nat
    decreases n,
{
    if n == 0 {
        1
    } else {
        256 * byte_range((n - 1) as nat)
    }
}

/// `n` bytes write less than 256 to the power of `n`.
pub proof fn lemma_le_bound(bytes: Seq<u8>)
    ensures
        le_value(bytes) < byte_range(bytes.len()),
    decreases bytes.len(),
{
    if bytes.len() != 0 {
        lemma_le_bound(bytes.drop_first());
    }
}

/// Reads up to eight bytes, lowest first.
pub fn le_u64(bytes: &[u8]) -> (n: u64)
    requires
        bytes@.len() <= 8,
    ensures
        n == le_value(bytes@),
{
    let mut n: u64 = 0;
    let mut i: usize = bytes.len();
    assert(bytes@.skip(i as int) =~= Seq::<u8>::empty());
    while i > 0
        invariant
            i <= bytes@.len() <= 8,
            n == le_value(bytes@.skip(i as int)),
        decreases i,
    {
        proof {
            let tail = bytes@.skip(i - 1);
            assert(tail.drop_first() =~= bytes@.skip(i as int));
            lemma_le_bound(tail);
            reveal_with_fuel(byte_range, 9);
        }
        i -= 1;
        n = n * 256 + bytes[i] as u64;
    }
    assert(bytes@.skip(0) =~= bytes@);
    n
}

/// One entry of `index.bin`: offset `u64`, tile id `u32`, size `u32`, all little-endian.
#[derive(Debug, Clone, Copy)]
pub struct TileIndexEntry {
    pub tile_id: TileId,
    /// Byte offset from the start of the tar archive.
    pub offset: u64,
    pub size: u32,
}

/// The entry that sixteen bytes hold.
pub open spec fn entry_of(data: Seq<u8>) -> TileIndexEntry {
    TileIndexEntry {
        offset: le_value(data.take(ENTRY_ID_START as int)) as u64,
        tile_id: TileId(
            le_value(data.subrange(ENTRY_ID_START as int, ENTRY_SIZE_START as int)) as u32,
        ),
        size: le_value(
            data.subrange(ENTRY_SIZE_START as int, TILE_INDEX_ENTRY_SIZE as int),
        ) as u32,
    }
}

impl TileIndexEntry {
    /// Parses a single entry.
    pub fn from_bytes(data: &[u8; TILE_INDEX_ENTRY_SIZE]) -> (e: Self)
        ensures
            e == entry_of(data@),
    {
        let bytes: &[u8] = data;
        Self::from_slice(bytes)
    }

    fn from_slice(bytes: &[u8]) -> (e: Self)
        requires
            bytes@.len() == TILE_INDEX_ENTRY_SIZE,
        ensures
            e == entry_of(bytes@),
    {
        let offset_bytes = slice_subrange(bytes, 0, ENTRY_ID_START);
        let id_bytes = slice_subrange(bytes, ENTRY_ID_START, ENTRY_SIZE_START);
        let size_bytes = slice_subrange(bytes, ENTRY_SIZE_START, TILE_INDEX_ENTRY_SIZE);
        proof {
            assert(offset_bytes@ =~= bytes@.take(ENTRY_ID_START as int));
            lemma_le_bound(id_bytes@);
            lemma_le_bound(size_bytes@);
            reveal_with_fuel(byte_range, 5);
        }
        Self {
            offset: le_u64(offset_bytes),
            tile_id: TileId(le_u64(id_bytes) as u32),
            size: le_u64(size_bytes) as u32,
        }
    }
}

/// Where a tile lies in the archive.
#[derive(Debug, Clone, Copy, PartialEq, Eq, Structural)]
pub struct TileEntry {
    /// Byte offset from the start of the tar archive.
    pub offset: u64,
    /// Length of the tile as it is stored.
    pub size: u32,
}

/// The hash builder of [`rustc_hash::FxHashMap`].
#[verifier::external_type_specification]
#[verifier::external_body]
pub struct ExFxBuildHasher(rustc_hash::FxBuildHasher);

/// [`std::collections::HashMap::insert`] on a map with `rustc_hash`'s hasher: the key is bound
/// to the new value, whatever it was bound to before, and every other key keeps its value.
#[verifier::external_body]
fn map_insert(map: &mut FxHashMap<u32, TileEntry>, id: u32, entry: TileEntry)
    ensures
        final(map)@ == old(map)@.insert(id, entry),
{
    map.insert(id, entry);
}

/// [`std::collections::HashMap::get`] on a map with `rustc_hash`'s hasher: the value that the
/// key is bound to, if it is bound.
#[verifier::external_body]
fn map_get(map: &FxHashMap<u32, TileEntry>, id: u32) -> (entry: Option<TileEntry>)
    ensures
        entry == (if map@.contains_key(id) {
            Some(map@[id])
        } else {
            None
        }),
{
    map.get(&id).copied()
}

/// [`std::collections::HashMap::len`] on a map with `rustc_hash`'s hasher: the number of keys.
#[verifier::external_body]
fn map_len(map: &FxHashMap<u32, TileEntry>) -> (n: usize)
    ensures
        n == map@.dom().len(),
{
    map.len()
}

/// What an index holds.
#[verifier::ext_equal]
pub struct TileIndexView {
    /// The tiles by packed id.
    pub tiles: Map<u32, TileEntry>,
    /// The id of the tile that was listed first.
    pub first: Option<u32>,
}

impl TileIndexView {
    /// An index without tiles.
    pub open spec fn empty() -> Self {
        TileIndexView { tiles: Map::empty(), first: None }
    }

    /// The index with one more tile, in place of an earlier one with the same id.
    pub open spec fn insert(self, id: u32, entry: TileEntry) -> Self {
        TileIndexView {
            tiles: self.tiles.insert(id, entry),
            first: if self.first is None {
                Some(id)
            } else {
                self.first
            },
        }
    }

    /// The place of the tile that was listed first. When that tile was listed again, this is the
    /// later place, as for any tile.
    pub open spec fn first_tile(self) -> Option<TileEntry> {
        match self.first {
            Some(id) => Some(self.tiles[id]),
            None => None,
        }
    }

    /// Whether the tile that was listed first is one of the tiles; there is none only when there
    /// are no tiles.
    pub open spec fn wf(self) -> bool {
        match self.first {
            Some(id) => self.tiles.contains_key(id),
            None => self.tiles == Map::<u32, TileEntry>::empty(),
        }
    }
}

/// Tiles by packed id, and which of them was listed first.
#[derive(Debug)]
pub struct TileIndex {
    map: FxHashMap<u32, TileEntry>,
    first: Option<u32>,
}

impl View for TileIndex {
    type V = TileIndexView;

    closed spec fn view(&self) -> TileIndexView {
        TileIndexView { tiles: self.map@, first: self.first }
    }
}

impl TileIndex {
    #[verifier::type_invariant]
    spec fn inv(self) -> bool {
        self@.wf()
    }

    /// An index without tiles.
    pub fn new() -> (index: Self)
        ensures
            index@ == TileIndexView::empty(),
    {
        Self { map: FxHashMap::default(), first: None }
    }

    /// Binds a tile, in place of an earlier one with the same id.
    pub fn insert(&mut self, id: TileId, entry: TileEntry)
        ensures
            final(self)@ == old(self)@.insert(id.0, entry),
    {
        let mut taken = TileIndex::new();
        std::mem::swap(&mut taken, self);
        proof {
            use_type_invariant(&taken);
        }
        let TileIndex { mut map, first } = taken;
        map_insert(&mut map, id.0, entry);
        *self = TileIndex {
            map,
            first: match first {
                Some(id) => Some(id),
                None => Some(id.0),
            },
        };
    }

    /// The place of a tile.
    pub fn get(&self, id: TileId) -> (entry: Option<TileEntry>)
        ensures
            entry == (if self@.tiles.contains_key(id.0) {
                Some(self@.tiles[id.0])
            } else {
                None
            }),
    {
        map_get(&self.map, id.0)
    }

    /// The number of tiles.
    pub fn len(&self) -> (n: usize)
        ensures
            n == self@.tiles.dom().len(),
    {
        map_len(&self.map)
    }

    /// Whether there is no tile.
    pub fn is_empty(&self) -> (b: bool)
        ensures
            b == (self@.tiles == Map::<u32, TileEntry>::empty()),
            b == (self@.first is None),
    {
        proof {
            use_type_invariant(self);
        }
        self.first.is_none()
    }

    /// The place of the tile that was listed first.
    pub fn first(&self) -> (entry: Option<TileEntry>)
        ensures
            entry == self@.first_tile(),
    {
        proof {
            use_type_invariant(self);
        }
        match self.first {
            Some(id) => map_get(&self.map, id),
            None => None,
        }
    }
}

/// The sixteen bytes of entry `i`.
pub open spec fn record(data: Seq<u8>, i: int) -> Seq<u8> {
    data.subrange(
        i * TILE_INDEX_ENTRY_SIZE as int,
        i * TILE_INDEX_ENTRY_SIZE as int + TILE_INDEX_ENTRY_SIZE as int,
    )
}

/// The tiles that the first `n` entries of `index.bin` bind, later entries over earlier ones.
pub open spec fn indexed(data: Seq<u8>, n: nat) -> TileIndexView
    decreases n,
{
    if n == 0 {
        TileIndexView::empty()
    } else {
        let e = entry_of(record(data, n - 1));
        indexed(data, (n - 1) as nat).insert(
            e.tile_id.0,
            TileEntry { offset: e.offset, size: e.size },
        )
    }
}

/// The index that the bytes of `index.bin` hold, or what is wrong with them.
pub open spec fn index_of(data: Seq<u8>) -> Result<TileIndexView, crate::error::TarErrorView> {
    if data.len() % TILE_INDEX_ENTRY_SIZE as nat != 0 {
        Err(
            crate::error::TarErrorView::InvalidIndexSize {
                size: data.len() as usize,
                entry_size: TILE_INDEX_ENTRY_SIZE,
            },
        )
    } else if data.len() == 0 {
        Err(crate::error::TarErrorView::EmptyIndex)
    } else {
        Ok(indexed(data, data.len() / TILE_INDEX_ENTRY_SIZE as nat))
    }
}

/// Whether no entry behind the first one of `index.bin` has the id of the first one.
pub open spec fn first_id_is_unique(data: Seq<u8>) -> bool {
    forall|i: int|
        0 < i < data.len() / TILE_INDEX_ENTRY_SIZE as nat ==> entry_of(
            #[trigger] record(data, i),
        ).tile_id != entry_of(record(data, 0)).tile_id
}

/// The tile that is listed first is the one of the first entry, and it has the place that this
/// entry gives unless a later entry gives it another one.
proof fn lemma_first_entry(data: Seq<u8>, n: nat)
    requires
        0 < n <= data.len() / TILE_INDEX_ENTRY_SIZE as nat,
    ensures
        indexed(data, n).first == Some(entry_of(record(data, 0)).tile_id.0),
        first_id_is_unique(data) ==> indexed(data, n).first_tile() == Some(
            TileEntry {
                offset: entry_of(record(data, 0)).offset,
                size: entry_of(record(data, 0)).size,
            },
        ),
    decreases n,
{
    reveal_with_fuel(indexed, 2);
    if n > 1 {
        lemma_first_entry(data, (n - 1) as nat);
        if first_id_is_unique(data) {
            assert(entry_of(record(data, n - 1)).tile_id != entry_of(record(data, 0)).tile_id);
        }
    }
}

/// Parses the content of `index.bin`.
///
/// The first tile of the index is the one that the first entry lists. When a later entry lists it
/// again, the place that the later entry gives counts, as for any tile.
pub fn parse_index(data: &[u8]) -> (r: Result<TileIndex, TarError>)
    ensures
        crate::error::result_view(r) == index_of(data@),
        r matches Ok(index) ==> index@.first == Some(entry_of(record(data@, 0)).tile_id.0),
        r matches Ok(index) ==> (first_id_is_unique(data@) ==> index@.first_tile() == Some(
            TileEntry {
                offset: entry_of(record(data@, 0)).offset,
                size: entry_of(record(data@, 0)).size,
            },
        )),
{
    if !data.len().is_multiple_of(TILE_INDEX_ENTRY_SIZE) {
        return Err(
            TarError::InvalidIndexSize { size: data.len(), entry_size: TILE_INDEX_ENTRY_SIZE },
        );
    }
    let len: usize = data.len();
    let count: usize = len / TILE_INDEX_ENTRY_SIZE;
    let mut entries = TileIndex::new();
    let mut i: usize = 0;
    let mut at: usize = 0;
    while i < count
        invariant
            i <= count,
            at == 16 * i,
            16 * count == len,
            len == data@.len(),
            entries@ == indexed(data@, i as nat),
            (entries@.first is None) == (i == 0),
        decreases count - i,
    {
        let chunk = slice_subrange(data, at, at + TILE_INDEX_ENTRY_SIZE);
        assert(chunk@ =~= record(data@, i as int));
        let e = TileIndexEntry::from_slice(chunk);
        entries.insert(e.tile_id, TileEntry { offset: e.offset, size: e.size });
        i += 1;
        at += TILE_INDEX_ENTRY_SIZE;
    }
    if entries.is_empty() {
        return Err(TarError::EmptyIndex);
    }
    proof {
        lemma_first_entry(data@, count as nat);
    }
    Ok(entries)
}

/// Where the content of `index.bin` lies, as offset and size, or why the archive's first header
/// does not tell.
pub open spec fn index_range(header: Seq<u8>) -> Result<
    (u64, u64),
    crate::error::TarErrorView,
> {
    match crate::tar::header_of(header) {
        Err(e) => Err(e),
        Ok(h) => if h.name == TILE_INDEX_FILE_NAME@ {
            Ok((TAR_BLOCK_SIZE as u64, h.size))
        } else {
            Err(crate::error::TarErrorView::FirstEntryNotIndex { actual: h.name })
        },
    }
}

/// Parses the first tar header of an archive and tells where the content of `index.bin` lies.
///
/// The range that it gives is to be read from the archive and handed to [`parse_index`].
pub fn read_index_header(header_bytes: &[u8; TAR_BLOCK_SIZE]) -> (r: Result<(u64, u64), TarError>)
    ensures
        crate::error::result_view(r) == index_range(header_bytes@),
{
    let header = match TarHeader::parse(header_bytes) {
        Ok(h) => h,
        Err(e) => return Err(e),
    };
    let name = chars_of(header.name.as_str());
    let wanted = chars_of(TILE_INDEX_FILE_NAME);
    if !same_chars(name.as_slice(), wanted.as_slice()) {
        return Err(TarError::FirstEntryNotIndex { actual: header.name });
    }
    // The content starts right after the header block.
    Ok((TAR_BLOCK_SIZE as u64, header.size))
}

/// The lowest `width` bytes of `n`, lowest first.
pub open spec fn le_bytes(n: nat, width: nat) -> Seq<u8>
    decreases width,
{
    if width == 0 {
        Seq::empty()
    } else {
        seq![(n % 256) as u8] + le_bytes(n / 256, (width - 1) as nat)
    }
}

/// A number that fits is read back from its bytes.
pub proof fn lemma_le_bytes(n: nat, width: nat)
    requires
        n < byte_range(width),
    ensures
        le_bytes(n, width).len() == width,
        le_value(le_bytes(n, width)) == n,
    decreases width,
{
    if width > 0 {
        lemma_le_bytes(n / 256, (width - 1) as nat);
        assert(le_bytes(n, width).drop_first() =~= le_bytes(n / 256, (width - 1) as nat));
    }
}

/// The sixteen bytes of an entry.
pub open spec fn entry_bytes(e: TileIndexEntry) -> Seq<u8> {
    le_bytes(e.offset as nat, 8) + le_bytes(e.tile_id.0 as nat, 4) + le_bytes(e.size as nat, 4)
}

/// The content of `index.bin` for a list of entries.
pub open spec fn index_bytes(entries: Seq<TileIndexEntry>) -> Seq<u8>
    decreases entries.len(),
{
    if entries.len() == 0 {
        Seq::empty()
    } else {
        index_bytes(entries.drop_last()) + entry_bytes(entries.last())
    }
}

/// Whether `index` binds exactly the ids of `entries`, each to the last entry with that id, and
/// has the tile of the first entry as its first.
pub open spec fn binds(index: TileIndexView, entries: Seq<TileIndexEntry>) -> bool {
    &&& entries.len() > 0 ==> index.first == Some(entries[0].tile_id.0)
    &&& entries.len() == 0 ==> index.first is None
    &&& forall|id: u32| #[trigger]
        index.tiles.contains_key(id) ==> exists|i: int|
            0 <= i < entries.len() && (#[trigger] entries[i]).tile_id.0 == id
    &&& forall|i: int|
        0 <= i < entries.len() ==> index.tiles.contains_key((#[trigger] entries[i]).tile_id.0)
    &&& forall|i: int| #[trigger]
        is_last(entries, i) ==> index.tiles[entries[i].tile_id.0] == (TileEntry {
            offset: entries[i].offset,
            size: entries[i].size,
        })
}

/// Whether entry `i` is the last one with its id.
pub open spec fn is_last(entries: Seq<TileIndexEntry>, i: int) -> bool {
    &&& 0 <= i < entries.len()
    &&& forall|j: int|
        i < j < entries.len() ==> (#[trigger] entries[j]).tile_id.0 != entries[i].tile_id.0
}

proof fn lemma_entry_bytes(e: TileIndexEntry)
    ensures
        entry_bytes(e).len() == TILE_INDEX_ENTRY_SIZE,
        entry_of(entry_bytes(e)) == e,
{
    reveal_with_fuel(byte_range, 9);
    lemma_le_bytes(e.offset as nat, 8);
    lemma_le_bytes(e.tile_id.0 as nat, 4);
    lemma_le_bytes(e.size as nat, 4);
    let bytes = entry_bytes(e);
    assert(bytes.take(ENTRY_ID_START as int) =~= le_bytes(e.offset as nat, 8));
    assert(bytes.subrange(ENTRY_ID_START as int, ENTRY_SIZE_START as int) =~= le_bytes(
        e.tile_id.0 as nat,
        4,
    ));
    assert(bytes.subrange(ENTRY_SIZE_START as int, TILE_INDEX_ENTRY_SIZE as int) =~= le_bytes(
        e.size as nat,
        4,
    ));
}

proof fn lemma_index_bytes(entries: Seq<TileIndexEntry>)
    ensures
        index_bytes(entries).len() == TILE_INDEX_ENTRY_SIZE * entries.len(),
        forall|i: int|
            0 <= i < entries.len() ==> #[trigger] record(index_bytes(entries), i) == entry_bytes(
                entries[i],
            ),
    decreases entries.len(),
{
    if entries.len() > 0 {
        let before = entries.drop_last();
        lemma_index_bytes(before);
        lemma_entry_bytes(entries.last());
        assert forall|i: int| 0 <= i < entries.len() implies #[trigger] record(
            index_bytes(entries),
            i,
        ) == entry_bytes(entries[i]) by {
            if i < before.len() {
                assert(record(index_bytes(entries), i) =~= record(index_bytes(before), i));
                assert(before[i] == entries[i]);
            } else {
                assert(record(index_bytes(entries), i) =~= entry_bytes(entries.last()));
            }
        }
    }
}

#[verifier::rlimit(40)]
proof fn lemma_indexed(data: Seq<u8>, entries: Seq<TileIndexEntry>)
    requires
        forall|i: int|
            0 <= i < entries.len() ==> entry_of(record(data, i)) == #[trigger] entries[i],
    ensures
        binds(indexed(data, entries.len()), entries),
    decreases entries.len(),
{
    if entries.len() > 0 {
        let before = entries.drop_last();
        let last = entries.last();
        assert forall|i: int| 0 <= i < before.len() implies entry_of(record(data, i))
            == #[trigger] before[i] by {
            assert(before[i] == entries[i]);
        }
        lemma_indexed(data, before);
        let old_index = indexed(data, before.len());
        let index = indexed(data, entries.len());
        assert(entry_of(record(data, entries.len() - 1)) == entries[entries.len() - 1]);
        assert(index == old_index.insert(
            last.tile_id.0,
            TileEntry { offset: last.offset, size: last.size },
        ));
        assert forall|id: u32| #[trigger] index.tiles.contains_key(id) implies exists|i: int|
            0 <= i < entries.len() && (#[trigger] entries[i]).tile_id.0 == id by {
            if id == last.tile_id.0 {
                assert(entries[entries.len() - 1].tile_id.0 == id);
            } else {
                assert(old_index.tiles.contains_key(id));
                let i = choose|i: int|
                    0 <= i < before.len() && (#[trigger] before[i]).tile_id.0 == id;
                assert(entries[i].tile_id.0 == id);
            }
        }
        assert forall|i: int| 0 <= i < entries.len() implies index.tiles.contains_key(
            (#[trigger] entries[i]).tile_id.0,
        ) by {
            if i < before.len() {
                assert(before[i] == entries[i]);
            }
        }
        assert forall|i: int| #[trigger]
            is_last(entries, i) implies index.tiles[entries[i].tile_id.0] == (TileEntry {
            offset: entries[i].offset,
            size: entries[i].size,
        }) by {
            if i < before.len() {
                assert(entries[entries.len() - 1].tile_id.0 != entries[i].tile_id.0);
                assert(before[i] == entries[i]);
                assert forall|j: int| i < j < before.len() implies (#[trigger] before[j]).tile_id.0
                    != before[i].tile_id.0 by {
                    assert(before[j] == entries[j]);
                }
                assert(is_last(before, i));
            }
        }
    }
}

/// Reading the content of `index.bin` gives back the entries that were written: every one of
/// them is found under its id, the last one where several have the same id, and there are no
/// others.
#[verifier::rlimit(40)]
pub proof fn law_index_reads_back(entries: Seq<TileIndexEntry>)
    requires
        entries.len() > 0,
    ensures
        index_of(index_bytes(entries)) == Ok::<TileIndexView, crate::error::TarErrorView>(
            indexed(index_bytes(entries), entries.len()),
        ),
        binds(indexed(index_bytes(entries), entries.len()), entries),
{
    let data = index_bytes(entries);
    lemma_index_bytes(entries);
    assert forall|i: int| 0 <= i < entries.len() implies entry_of(record(data, i))
        == #[trigger] entries[i] by {
        assert(record(data, i) == entry_bytes(entries[i]));
        lemma_entry_bytes(entries[i]);
    }
    assert(data.len() % TILE_INDEX_ENTRY_SIZE as nat == 0 && data.len()
        / TILE_INDEX_ENTRY_SIZE as nat == entries.len()) by {
        let n = entries.len();
        assert(data.len() == 16 * n);
    }
    lemma_indexed(data, entries);
    assert(index_of(data) == Ok::<TileIndexView, crate::error::TarErrorView>(
        indexed(data, entries.len()),
    ));
}

#[verifier::rlimit(40)]
proof fn lemma_indexed_joined(a: Seq<u8>, b: Seq<u8>, n: nat, m: nat)
    requires
        a.len() == TILE_INDEX_ENTRY_SIZE * n,
        TILE_INDEX_ENTRY_SIZE * m <= b.len(),
        n > 0,
    ensures
        indexed(a + b, n + m).tiles == indexed(a, n).tiles.union_prefer_right(indexed(b, m).tiles),
        indexed(a + b, n + m).first == indexed(a, n).first,
    decreases n + m,
{
    if m == 0 {
        lemma_indexed_prefix(a, b, n);
        assert(indexed(a, n).tiles.union_prefer_right(indexed(b, m).tiles) =~= indexed(a, n).tiles);
    } else {
        lemma_indexed_joined(a, b, n, (m - 1) as nat);
        assert(record(a + b, n + m - 1) =~= record(b, m - 1));
        lemma_some_first(a, n);
        assert(indexed(a + b, n + m).tiles =~= indexed(a, n).tiles.union_prefer_right(
            indexed(b, m).tiles,
        ));
    }
}

proof fn lemma_some_first(data: Seq<u8>, n: nat)
    requires
        n > 0,
    ensures
        indexed(data, n).first is Some,
{
}

proof fn lemma_indexed_prefix(a: Seq<u8>, b: Seq<u8>, n: nat)
    requires
        TILE_INDEX_ENTRY_SIZE * n <= a.len(),
    ensures
        indexed(a + b, n) == indexed(a, n),
    decreases n,
{
    if n > 0 {
        lemma_indexed_prefix(a, b, (n - 1) as nat);
        assert(record(a + b, n - 1) =~= record(a, n - 1));
    }
}

/// Two contents of `index.bin` one behind the other hold the tiles of both, those of the second
/// over those of the first, and have the first tile of the first.
pub proof fn law_joined_indexes(a: Seq<u8>, b: Seq<u8>)
    requires
        index_of(a) is Ok,
        index_of(b) is Ok,
    ensures
        index_of(a + b) matches Ok(index) && index.tiles == index_of(
            a,
        )->Ok_0.tiles.union_prefer_right(index_of(b)->Ok_0.tiles) && index.first == index_of(
            a,
        )->Ok_0.first,
{
    let n = a.len() / TILE_INDEX_ENTRY_SIZE as nat;
    let m = b.len() / TILE_INDEX_ENTRY_SIZE as nat;
    assert(a.len() == 16 * n && b.len() == 16 * m);
    assert((a + b).len() == 16 * (n + m));
    lemma_indexed_joined(a, b, n, m);
}

/// What becomes of the content of `index.bin`: it must be made of entries of sixteen bytes, and
/// there must be one.
pub proof fn law_index_is_made_of_entries(data: Seq<u8>)
    requires
        data.len() <= usize::MAX,
    ensures
        index_of(data) is Ok <==> data.len() > 0 && data.len() % 16 == 0,
        data.len() % 16 != 0 ==> index_of(data) == Err::<TileIndexView, _>(
            crate::error::TarErrorView::InvalidIndexSize {
                size: data.len() as usize,
                entry_size: 16,
            },
        ),
        data.len() == 0 ==> index_of(data) == Err::<TileIndexView, _>(
            crate::error::TarErrorView::EmptyIndex,
        ),
{
}

/// Where the index lies: right behind the first header block, as long as the header says, when that
/// header names `index.bin` and nothing else.
pub proof fn law_index_lies_behind_header(header: Seq<u8>)
    ensures
        match crate::tar::header_of(header) {
            Ok(h) => if h.name == "index.bin"@ {
                index_range(header) matches Ok((offset, length)) && offset == 512 && length
                    == h.size
            } else {
                index_range(header) matches Err(e) && e
                    == crate::error::TarErrorView::FirstEntryNotIndex { actual: h.name }
            },
            Err(e) => index_range(header) matches Err(why) && why == e,
        },
{
}

/// An index keeps the tile that was bound first as its first, at the place bound last for it.
pub proof fn law_first_tile_stays(
    index: TileIndexView,
    id: u32,
    entry: TileEntry,
    other: u32,
    later: TileEntry,
)
    ensures
        TileIndexView::empty().first_tile() is None,
        TileIndexView::empty().insert(id, entry).first_tile() == Some(entry),
        index.first is Some ==> index.insert(other, later).first == index.first,
        index.first is Some && index.first != Some(other) ==> index.insert(
            other,
            later,
        ).first_tile() == index.first_tile(),
        index.first == Some(other) ==> index.insert(other, later).first_tile() == Some(later),
{
}

/// The content of `index.bin` is sixteen bytes long for each entry.
pub proof fn lemma_index_bytes_len(entries: Seq<TileIndexEntry>)
    ensures
        index_bytes(entries).len() == 16 * entries.len(),
{
    lemma_index_bytes(entries);
}

} // verus!
