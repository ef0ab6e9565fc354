//! Building the index of an archive without `index.bin` from its tar headers.
//!
//! The archive is read in chunks of a fixed size, in order. A scan takes one chunk at a time,
//! reads the headers that lie in it and passes over the data between them. A header that a
//! chunk boundary cuts is put together from both sides.

use vstd::prelude::*;
use vstd::slice::{slice_subrange, slice_to_vec};
use vstd::string::*;

use crate::error::{S3Error, TarError};
use crate::index::{TileEntry, TileIndex};
use crate::range::ByteRange;
use crate::tar::{TarHeader, TAR_BLOCK_SIZE};
use crate::text::append_decimal;
use crate::tile::{TileCompression, TileId};

verus! {

/// Length of every chunk but the last.
pub const CHUNK_SIZE: u64 = 0x80_0000;

/// The tar block size as a file offset.
pub const BLOCK: u64 = 512;

/// The number of chunks of an archive.
pub open spec fn chunk_count(archive_size: nat) -> nat {
    (archive_size + CHUNK_SIZE - 1) as nat / CHUNK_SIZE as nat
}

/// State of a scan between two chunks.
pub struct ScanView {
    /// Size of the archive.
    pub size: nat,
    /// Number of chunks taken so far.
    pub taken: nat,
    /// Position of the next header.
    pub pos: nat,
    /// The part of that header which the last chunk held, when it held a part.
    pub partial: Option<Seq<u8>>,
    /// The tiles found so far.
    pub entries: crate::index::TileIndexView,
    /// Compression of the first tile found.
    pub compression: TileCompression,
}

/// What a header block does to a scan.
pub enum BlockStep {
    /// The block ends the archive.
    Stop,
    /// The block is not a header.
    Fail(crate::error::TarErrorView),
    /// The scan goes on behind the entry.
    Next(ScanView),
}

/// What comes of taking a chunk, or of starting.
pub enum ScanOutcomeView {
    More(ScanView),
    Done(crate::index::TileIndexView, TileCompression),
    Failed(crate::error::S3ErrorView),
    OutOfBounds,
}

/// The block that ends an archive.
pub open spec fn is_zero_block(block: Seq<u8>) -> bool {
    forall|i: int| 0 <= i < block.len() ==> block[i] == 0
}

/// Where the header behind an entry of `data_size` bytes at `pos` starts: the data is padded to
/// full blocks.
pub open spec fn next_header(pos: nat, data_size: nat) -> nat {
    pos + BLOCK as nat + (data_size + BLOCK as nat - 1) as nat / BLOCK as nat * BLOCK as nat
}

/// The scan behind an entry. The entry is indexed when its name is a tile path and its size
/// fits; the first tile's name tells the compression.
pub open spec fn behind_entry(st: ScanView, header: crate::tar::TarHeaderView) -> ScanView {
    let pos = next_header(st.pos, header.size as nat);
    match crate::tile::id_of_path(header.name) {
        Some(id) if header.size <= u32::MAX => ScanView {
            pos,
            entries: st.entries.insert(
                id,
                TileEntry { offset: (st.pos + BLOCK) as u64, size: header.size as u32 },
            ),
            compression: if st.entries.first is None {
                TileCompression::of_name(header.name)
            } else {
                st.compression
            },
            ..st
        },
        _ => ScanView { pos, ..st },
    }
}

/// Reads the block at the position of the scan.
pub open spec fn take_block(st: ScanView, block: Seq<u8>) -> BlockStep {
    if is_zero_block(block) {
        BlockStep::Stop
    } else {
        match crate::tar::header_of(block) {
            Err(e) => BlockStep::Fail(e),
            Ok(header) => BlockStep::Next(behind_entry(st, header)),
        }
    }
}

/// The end of a scan: the archive must hold a tile.
pub open spec fn ended(st: ScanView) -> ScanOutcomeView {
    if st.entries.first is None {
        ScanOutcomeView::Failed(
            crate::error::S3ErrorView::Tar(crate::error::TarErrorView::EmptyIndex),
        )
    } else {
        ScanOutcomeView::Done(st.entries, st.compression)
    }
}

/// A scan that needs the next chunk, which must exist.
pub open spec fn needs_chunk(st: ScanView) -> ScanOutcomeView {
    if st.taken < chunk_count(st.size) {
        ScanOutcomeView::More(st)
    } else {
        ScanOutcomeView::Failed(
            crate::error::S3ErrorView::Protocol("unexpected end of chunk stream"@),
        )
    }
}

/// How far the scan is from the end of the archive.
pub open spec fn remaining(st: ScanView) -> nat {
    if st.pos > st.size {
        0
    } else {
        (st.size - st.pos + 1) as nat
    }
}

/// Reads the headers that lie in `chunk`, which starts at `base` in the archive, from the
/// position of the scan on.
pub open spec fn walk(st: ScanView, chunk: Seq<u8>, base: nat) -> ScanOutcomeView
    decreases remaining(st),
{
    if st.pos + BLOCK > st.size {
        ended(st)
    } else if st.pos >= base + CHUNK_SIZE {
        needs_chunk(st)
    } else if st.pos < base || st.pos > base + chunk.len() {
        ScanOutcomeView::OutOfBounds
    } else if st.pos + BLOCK > base + chunk.len() {
        needs_chunk(ScanView { partial: Some(chunk.skip(st.pos - base)), ..st })
    } else {
        match take_block(st, chunk.subrange(st.pos - base, st.pos - base + BLOCK)) {
            BlockStep::Stop => ended(st),
            BlockStep::Fail(e) => ScanOutcomeView::Failed(crate::error::S3ErrorView::Tar(e)),
            BlockStep::Next(next) => walk(next, chunk, base),
        }
    }
}

/// What comes of taking the next chunk.
pub open spec fn take_chunk(st: ScanView, chunk: Seq<u8>) -> ScanOutcomeView {
    let base = st.taken * CHUNK_SIZE as nat;
    let now = ScanView { taken: st.taken + 1, partial: None, ..st };
    match st.partial {
        None => walk(now, chunk, base),
        Some(head) => if head.len() + chunk.len() < BLOCK {
            ScanOutcomeView::OutOfBounds
        } else {
            match take_block(now, head + chunk.take(BLOCK - head.len())) {
                BlockStep::Stop => ended(now),
                BlockStep::Fail(e) => ScanOutcomeView::Failed(crate::error::S3ErrorView::Tar(e)),
                BlockStep::Next(next) => walk(next, chunk, base),
            }
        },
    }
}

/// The scan of an archive before its first chunk.
pub open spec fn fresh(archive_size: nat) -> ScanView {
    ScanView {
        size: archive_size,
        taken: 0,
        pos: 0,
        partial: None,
        entries: crate::index::TileIndexView::empty(),
        compression: TileCompression::Plain,
    }
}

/// What comes of starting a scan.
pub open spec fn started(archive_size: nat) -> ScanOutcomeView {
    if BLOCK > archive_size {
        ended(fresh(archive_size))
    } else {
        needs_chunk(fresh(archive_size))
    }
}

/// A scan reports its progress each time that it has found this many more tiles.
pub const REPORT_EVERY: usize = 1000;

/// Something worth telling about a scan.
#[derive(Debug)]
pub enum ScanNote {
    /// The archive has no `index.bin`, so it is scanned.
    Started,
    /// A tile is left out of the index because its size does not fit.
    Skipped { name: String, size: u64 },
    /// So many tiles have been found, and the scan goes on.
    Scanned(usize),
    /// The scan has ended with so many tiles.
    Built(usize),
}

/// A [`ScanNote`] with its name as characters.
pub enum ScanNoteView {
    Started,
    Skipped { name: Seq<char>, size: u64 },
    Scanned(nat),
    Built(nat),
}

impl View for ScanNote {
    type V = ScanNoteView;

    open spec fn view(&self) -> ScanNoteView {
        match *self {
            ScanNote::Started => ScanNoteView::Started,
            ScanNote::Skipped { name, size } => ScanNoteView::Skipped { name: name@, size },
            ScanNote::Scanned(count) => ScanNoteView::Scanned(count as nat),
            ScanNote::Built(count) => ScanNoteView::Built(count as nat),
        }
    }
}

impl ScanNoteView {
    /// The note in words.
    pub open spec fn message(self) -> Seq<char> {
        match self {
            ScanNoteView::Started =>
                "index.bin not found in archive; scanning tar headers to build index via range requests."@,
            ScanNoteView::Skipped { name, size } => "Skipping tile "@ + name + " ("@
                + crate::text::decimal(size as nat) + " bytes): exceeds u32::MAX size limit"@,
            ScanNoteView::Scanned(count) => "Scanned "@ + crate::text::decimal(count)
                + " tiles so far..."@,
            ScanNoteView::Built(count) => "Built index from tar scan: "@ + crate::text::decimal(
                count,
            ) + " tiles"@,
        }
    }
}

impl ScanNote {
    /// The note in words.
    pub fn message(&self) -> (s: String)
        ensures
            s@ == self@.message(),
    {
        match self {
            ScanNote::Started =>
                "index.bin not found in archive; scanning tar headers to build index via range requests.".to_owned(),
            ScanNote::Skipped { name, size } => {
                let mut s = "Skipping tile ".to_owned();
                s.append(name.as_str());
                s.append(" (");
                append_decimal(&mut s, *size);
                s.append(" bytes): exceeds u32::MAX size limit");
                s
            },
            ScanNote::Scanned(count) => {
                let mut s = "Scanned ".to_owned();
                append_decimal(&mut s, *count as u64);
                s.append(" tiles so far...");
                s
            },
            ScanNote::Built(count) => {
                let mut s = "Built index from tar scan: ".to_owned();
                append_decimal(&mut s, *count as u64);
                s.append(" tiles");
                s
            },
        }
    }
}

/// The notes of a list, each taken by its view.
pub open spec fn note_list(notes: Seq<ScanNote>) -> Seq<ScanNoteView> {
    notes.map_values(|n: ScanNote| n@)
}

/// What an entry gives to note: a tile whose size does not fit is skipped, and every so many
/// tiles the progress is reported.
pub open spec fn entry_notes(st: ScanView, header: crate::tar::TarHeaderView) -> Seq<
    ScanNoteView,
> {
    if crate::tile::id_of_path(header.name) is None {
        Seq::empty()
    } else if header.size > u32::MAX {
        seq![ScanNoteView::Skipped { name: header.name, size: header.size }]
    } else {
        let count = behind_entry(st, header).entries.tiles.dom().len();
        if count % REPORT_EVERY as nat == 0 {
            seq![ScanNoteView::Scanned(count)]
        } else {
            Seq::empty()
        }
    }
}

/// What the end of a scan gives to note.
pub open spec fn end_notes(st: ScanView) -> Seq<ScanNoteView> {
    if st.entries.first is None {
        Seq::empty()
    } else {
        seq![ScanNoteView::Built(st.entries.tiles.dom().len())]
    }
}

/// What reading the headers that lie in a chunk gives to note, as [`walk`] reads them.
pub open spec fn walk_notes(st: ScanView, chunk: Seq<u8>, base: nat) -> Seq<ScanNoteView>
    decreases remaining(st),
{
    if st.pos + BLOCK > st.size {
        end_notes(st)
    } else if st.pos >= base + CHUNK_SIZE || st.pos < base || st.pos + BLOCK > base + chunk.len() {
        Seq::empty()
    } else {
        let block = chunk.subrange(st.pos - base, st.pos - base + BLOCK);
        match take_block(st, block) {
            BlockStep::Stop => end_notes(st),
            BlockStep::Fail(_) => Seq::empty(),
            BlockStep::Next(next) => entry_notes(st, crate::tar::header_of(block)->Ok_0)
                + walk_notes(next, chunk, base),
        }
    }
}

/// What taking the next chunk gives to note.
pub open spec fn chunk_notes(st: ScanView, chunk: Seq<u8>) -> Seq<ScanNoteView> {
    let base = st.taken * CHUNK_SIZE as nat;
    let now = ScanView { taken: st.taken + 1, partial: None, ..st };
    match st.partial {
        None => walk_notes(now, chunk, base),
        Some(head) => if head.len() + chunk.len() < BLOCK {
            Seq::empty()
        } else {
            let block = head + chunk.take(BLOCK - head.len());
            match take_block(now, block) {
                BlockStep::Stop => end_notes(now),
                BlockStep::Fail(_) => Seq::empty(),
                BlockStep::Next(next) => entry_notes(now, crate::tar::header_of(block)->Ok_0)
                    + walk_notes(next, chunk, base),
            }
        },
    }
}

/// Adds a note.
pub(crate) fn add_note(notes: &mut Vec<ScanNote>, note: ScanNote)
    ensures
        note_list(final(notes)@) == note_list(old(notes)@) + seq![note@],
{
    notes.push(note);
    assert(note_list(notes@) =~= note_list(old(notes)@) + seq![note@]);
}

/// A scan that waits for a chunk.
#[derive(Debug)]
pub struct TarScan {
    archive_size: u64,
    taken: u64,
    pos: u64,
    partial: Option<Vec<u8>>,
    entries: TileIndex,
    compression: TileCompression,
}

impl View for TarScan {
    type V = ScanView;

    closed spec fn view(&self) -> ScanView {
        ScanView {
            size: self.archive_size as nat,
            taken: self.taken as nat,
            pos: self.pos as nat,
            partial: match self.partial {
                Some(head) => Some(head@),
                None => None,
            },
            entries: self.entries@,
            compression: self.compression,
        }
    }
}

/// What comes of taking a chunk, or of starting.
#[derive(Debug)]
pub enum ScanOutcome {
    /// The scan waits for the next chunk.
    More(TarScan),
    /// The archive is scanned.
    Done(TileIndex, TileCompression),
    /// The archive cannot be indexed.
    Failed(S3Error),
    /// The chunk ends before the place where the next header starts, or before it ends. A chunk
    /// of the length that was asked for never does.
    OutOfBounds,
}

impl View for ScanOutcome {
    type V = ScanOutcomeView;

    open spec fn view(&self) -> ScanOutcomeView {
        match *self {
            ScanOutcome::More(scan) => ScanOutcomeView::More(scan@),
            ScanOutcome::Done(index, compression) => ScanOutcomeView::Done(index@, compression),
            ScanOutcome::Failed(e) => ScanOutcomeView::Failed(e@),
            ScanOutcome::OutOfBounds => ScanOutcomeView::OutOfBounds,
        }
    }
}

/// The bytes of chunk `i`.
pub open spec fn chunk_range_of(archive_size: nat, i: nat) -> (nat, nat) {
    let offset = i * CHUNK_SIZE as nat;
    (
        offset,
        if archive_size - offset < CHUNK_SIZE {
            (archive_size - offset) as nat
        } else {
            CHUNK_SIZE as nat
        },
    )
}

enum BlockRead {
    Stop,
    Fail(TarError),
    Entry(u64),
}

fn is_zeros(block: &[u8]) -> (b: bool)
    ensures
        b == is_zero_block(block@),
{
    let mut i: usize = 0;
    while i < block.len()
        invariant
            i <= block@.len(),
            forall|j: int| 0 <= j < i ==> block@[j] == 0,
        decreases block@.len() - i,
    {
        if block[i] != 0 {
            return false;
        }
        i += 1;
    }
    true
}

/// The bytes as a fixed-size block.
pub fn to_block(bytes: &[u8]) -> (block: [u8; TAR_BLOCK_SIZE])
    requires
        bytes@.len() == TAR_BLOCK_SIZE,
    ensures
        block@ == bytes@,
{
    let mut block: [u8; TAR_BLOCK_SIZE] = [0; TAR_BLOCK_SIZE];
    let mut i: usize = 0;
    while i < TAR_BLOCK_SIZE
        invariant
            i <= TAR_BLOCK_SIZE,
            bytes@.len() == TAR_BLOCK_SIZE,
            block@.len() == TAR_BLOCK_SIZE,
            forall|j: int| 0 <= j < i ==> block@[j] == bytes@[j],
        decreases TAR_BLOCK_SIZE - i,
    {
        block[i] = bytes[i];
        i += 1;
    }
    assert(block@ =~= bytes@);
    block
}

/// Reads the block at `pos` into the index.
fn read_block(
    block: &[u8],
    pos: u64,
    entries: &mut TileIndex,
    compression: &mut TileCompression,
    notes: &mut Vec<ScanNote>,
    Ghost(st): Ghost<ScanView>,
) -> (read: BlockRead)
    requires
        block@.len() == TAR_BLOCK_SIZE,
        pos + BLOCK <= u64::MAX,
        st.pos == pos,
        st.entries == old(entries)@,
        st.compression == *old(compression),
    ensures
        match take_block(st, block@) {
            BlockStep::Stop => read is Stop && final(entries)@ == st.entries
                && *final(compression) == st.compression && final(notes)@ == old(notes)@,
            BlockStep::Fail(e) => read matches BlockRead::Fail(error) && error@ == e
                && final(notes)@ == old(notes)@,
            BlockStep::Next(next) => read matches BlockRead::Entry(size) && size
                < 0x10_0000_0000 && next == (ScanView {
                pos: next_header(st.pos, size as nat),
                entries: final(entries)@,
                compression: *final(compression),
                ..st
            }) && note_list(final(notes)@) == note_list(old(notes)@) + entry_notes(
                st,
                crate::tar::header_of(block@)->Ok_0,
            ),
        },
{
    if is_zeros(block) {
        return BlockRead::Stop;
    }
    let raw = to_block(block);
    proof {
        crate::tar::lemma_header_fields(raw@);
    }
    let header = match TarHeader::parse(&raw) {
        Ok(header) => header,
        Err(e) => return BlockRead::Fail(e),
    };
    let size: u64 = header.size;
    let ghost seen = header@;
    assert(note_list(notes@) =~= note_list(notes@) + Seq::<ScanNoteView>::empty());
    if let Some(id) = TileId::from_path(header.name.as_str()) {
        if size > u32::MAX as u64 {
            add_note(notes, ScanNote::Skipped { name: header.name, size });
        } else {
            if entries.is_empty() {
                *compression = TileCompression::from_name(header.name.as_str());
            }
            entries.insert(id, TileEntry { offset: pos + BLOCK, size: size as u32 });
            let count: usize = entries.len();
            assert(behind_entry(st, seen).entries == entries@);
            if count % REPORT_EVERY == 0 {
                add_note(notes, ScanNote::Scanned(count));
            }
        }
    }
    BlockRead::Entry(size)
}

impl TarScan {
    #[verifier::type_invariant]
    spec fn wf(self) -> bool {
        &&& self.taken < chunk_count(self.archive_size as nat)
        &&& self.pos + BLOCK <= self.archive_size
        &&& self.partial matches Some(head) ==> head@.len() < BLOCK
    }

    /// Starts the scan of an archive.
    pub fn start(archive_size: u64) -> (outcome: ScanOutcome)
        ensures
            outcome@ == started(archive_size as nat),
    {
        if archive_size < BLOCK {
            return ScanOutcome::Failed(S3Error::Tar(TarError::EmptyIndex));
        }
        let entries = TileIndex::new();
        Self::wait(archive_size, 0, 0, None, entries, TileCompression::Plain)
    }

    /// A scan that needs chunk number `taken`.
    fn wait(
        archive_size: u64,
        taken: u64,
        pos: u64,
        partial: Option<Vec<u8>>,
        entries: TileIndex,
        compression: TileCompression,
    ) -> (outcome: ScanOutcome)
        requires
            pos + BLOCK <= archive_size,
            partial matches Some(head) ==> head@.len() < BLOCK,
        ensures
            outcome@ == needs_chunk(
                (ScanView {
                    size: archive_size as nat,
                    taken: taken as nat,
                    pos: pos as nat,
                    partial: match partial {
                        Some(head) => Some(head@),
                        None => None,
                    },
                    entries: entries@,
                    compression,
                }),
            ),
    {
        if taken < count_chunks(archive_size) {
            ScanOutcome::More(
                TarScan { archive_size, taken, pos, partial, entries, compression },
            )
        } else {
            ScanOutcome::Failed(S3Error::Protocol("unexpected end of chunk stream".to_owned()))
        }
    }

    /// The end of a scan.
    fn end(
        entries: TileIndex,
        compression: TileCompression,
        notes: &mut Vec<ScanNote>,
        Ghost(st): Ghost<ScanView>,
    ) -> (outcome: ScanOutcome)
        requires
            st.entries == entries@,
            st.compression == compression,
        ensures
            outcome@ == ended(st),
            note_list(final(notes)@) == note_list(old(notes)@) + end_notes(st),
    {
        if entries.is_empty() {
            assert(note_list(notes@) =~= note_list(notes@) + Seq::<ScanNoteView>::empty());
            ScanOutcome::Failed(S3Error::Tar(TarError::EmptyIndex))
        } else {
            add_note(notes, ScanNote::Built(entries.len()));
            ScanOutcome::Done(entries, compression)
        }
    }

    /// The range of the chunk that the scan waits for.
    pub fn wanted(&self) -> (range: ByteRange)
        ensures
            (range.offset as nat, range.length as nat) == chunk_range_of(self@.size, self@.taken),
    {
        proof {
            use_type_invariant(self);
        }
        chunk_range(self.archive_size, self.taken)
    }

    /// Takes the next chunk.
    pub fn take(self, chunk: &[u8]) -> (outcome: ScanOutcome)
        ensures
            outcome@ == take_chunk(self@, chunk@),
    {
        let mut notes: Vec<ScanNote> = Vec::new();
        self.take_noting(chunk, &mut notes)
    }

    /// Takes the next chunk, and adds to `notes` what is worth telling about it.
    pub fn take_noting(self, chunk: &[u8], notes: &mut Vec<ScanNote>) -> (outcome: ScanOutcome)
        ensures
            outcome@ == take_chunk(self@, chunk@),
            note_list(final(notes)@) == note_list(old(notes)@) + chunk_notes(self@, chunk@),
    {
        proof {
            use_type_invariant(&self);
        }
        let ghost old_view = self@;
        let TarScan { archive_size, taken, pos, partial, mut entries, mut compression } = self;
        let base: u64 = taken * CHUNK_SIZE;
        let ghost now = ScanView { taken: (taken + 1) as nat, partial: None, ..old_view };
        match partial {
            None => Self::read_chunk(
                archive_size,
                taken + 1,
                pos,
                entries,
                compression,
                notes,
                chunk,
                base,
            ),
            Some(head) => {
                assert(note_list(notes@) =~= note_list(notes@) + Seq::<ScanNoteView>::empty());
                if chunk.len() < TAR_BLOCK_SIZE - head.len() {
                    return ScanOutcome::OutOfBounds;
                }
                let mut block = head;
                let rest = slice_subrange(chunk, 0, TAR_BLOCK_SIZE - block.len());
                block.extend_from_slice(rest);
                assert(block@ =~= head@ + chunk@.take(BLOCK - head@.len()));
                let read = read_block(
                    block.as_slice(),
                    pos,
                    &mut entries,
                    &mut compression,
                    notes,
                    Ghost(now),
                );
                match read {
                    BlockRead::Stop => Self::end(entries, compression, notes, Ghost(now)),
                    BlockRead::Fail(e) => ScanOutcome::Failed(S3Error::Tar(e)),
                    BlockRead::Entry(size) => {
                        let ghost next = ScanView {
                            pos: next_header(pos as nat, size as nat),
                            entries: entries@,
                            compression,
                            ..now
                        };
                        let ghost told = note_list(notes@);
                        let ghost ahead = walk_notes(next, chunk@, base as nat);
                        assert(told + ahead =~= note_list(old(notes)@) + (entry_notes(
                            now,
                            crate::tar::header_of(block@)->Ok_0,
                        ) + ahead));
                        match behind(pos, size) {
                            None => Self::end(entries, compression, notes, Ghost(next)),
                            Some(from) => Self::read_chunk(
                                archive_size,
                                taken + 1,
                                from,
                                entries,
                                compression,
                                notes,
                                chunk,
                                base,
                            ),
                        }
                    },
                }
            },
        }
    }

    /// Reads the headers that lie in a chunk.
    fn read_chunk(
        archive_size: u64,
        taken: u64,
        from: u64,
        found: TileIndex,
        first: TileCompression,
        notes: &mut Vec<ScanNote>,
        chunk: &[u8],
        base: u64,
    ) -> (outcome: ScanOutcome)
        requires
            base <= archive_size,
        ensures
            outcome@ == walk(
                (ScanView {
                    size: archive_size as nat,
                    taken: taken as nat,
                    pos: from as nat,
                    partial: None,
                    entries: found@,
                    compression: first,
                }),
                chunk@,
                base as nat,
            ),
            note_list(final(notes)@) == note_list(old(notes)@) + walk_notes(
                (ScanView {
                    size: archive_size as nat,
                    taken: taken as nat,
                    pos: from as nat,
                    partial: None,
                    entries: found@,
                    compression: first,
                }),
                chunk@,
                base as nat,
            ),
    {
        let mut pos: u64 = from;
        let mut entries = found;
        let mut compression = first;
        let ghost start = ScanView {
            size: archive_size as nat,
            taken: taken as nat,
            pos: from as nat,
            partial: None,
            entries: found@,
            compression: first,
        };
        let ghost mut st = start;
        loop
            invariant
                base <= archive_size,
                start == (ScanView {
                    size: archive_size as nat,
                    taken: taken as nat,
                    pos: from as nat,
                    partial: None,
                    entries: found@,
                    compression: first,
                }),
                st == (ScanView {
                    size: archive_size as nat,
                    taken: taken as nat,
                    pos: pos as nat,
                    partial: None,
                    entries: entries@,
                    compression,
                }),
                walk(st, chunk@, base as nat) == walk(start, chunk@, base as nat),
                note_list(notes@) + walk_notes(st, chunk@, base as nat) == note_list(old(notes)@)
                    + walk_notes(start, chunk@, base as nat),
            decreases remaining(st),
        {
            let ghost told = note_list(notes@);
            assert(told =~= told + Seq::<ScanNoteView>::empty());
            if pos > archive_size || archive_size - pos < BLOCK {
                return Self::end(entries, compression, notes, Ghost(st));
            }
            if pos < base {
                return ScanOutcome::OutOfBounds;
            }
            let local: u64 = pos - base;
            if local >= CHUNK_SIZE {
                return Self::wait(archive_size, taken, pos, None, entries, compression);
            }
            if local > chunk.len() as u64 {
                return ScanOutcome::OutOfBounds;
            }
            let at: usize = local as usize;
            if chunk.len() - at < TAR_BLOCK_SIZE {
                let head = slice_to_vec(slice_subrange(chunk, at, chunk.len()));
                assert(head@ =~= chunk@.skip(at as int));
                return Self::wait(archive_size, taken, pos, Some(head), entries, compression);
            }
            let block = slice_subrange(chunk, at, at + TAR_BLOCK_SIZE);
            match read_block(block, pos, &mut entries, &mut compression, notes, Ghost(st)) {
                BlockRead::Stop => return Self::end(entries, compression, notes, Ghost(st)),
                BlockRead::Fail(e) => return ScanOutcome::Failed(S3Error::Tar(e)),
                BlockRead::Entry(size) => {
                    proof {
                        let seen = entry_notes(st, crate::tar::header_of(block@)->Ok_0);
                        let before = st;
                        st = ScanView {
                            pos: next_header(pos as nat, size as nat),
                            entries: entries@,
                            compression,
                            ..st
                        };
                        let ahead = walk_notes(st, chunk@, base as nat);
                        assert(block@ =~= chunk@.subrange(before.pos - base, before.pos - base
                            + BLOCK));
                        assert(note_list(notes@) + ahead =~= told + (seen + ahead));
                    }
                    match behind(pos, size) {
                        None => return Self::end(entries, compression, notes, Ghost(st)),
                        Some(next) => {
                            pos = next;
                        },
                    }
                },
            }
        }
    }
}

/// Where the header behind an entry starts, unless that is past every position.
fn behind(pos: u64, data_size: u64) -> (next: Option<u64>)
    requires
        pos + BLOCK <= u64::MAX,
        data_size < 0x10_0000_0000,
    ensures
        match next {
            Some(p) => p == next_header(pos as nat, data_size as nat),
            None => next_header(pos as nat, data_size as nat) > u64::MAX,
        },
{
    let padded: u64 = (data_size + (BLOCK - 1)) / BLOCK * BLOCK;
    (pos + BLOCK).checked_add(padded)
}

/// The number of chunks of an archive.
pub fn count_chunks(archive_size: u64) -> (n: u64)
    ensures
        n == chunk_count(archive_size as nat),
{
    archive_size / CHUNK_SIZE + if archive_size % CHUNK_SIZE != 0 {
        1
    } else {
        0
    }
}

/// The range of chunk `i`.
pub fn chunk_range(archive_size: u64, i: u64) -> (range: ByteRange)
    requires
        i < chunk_count(archive_size as nat),
    ensures
        (range.offset as nat, range.length as nat) == chunk_range_of(archive_size as nat, i as nat),
{
    let offset: u64 = i * CHUNK_SIZE;
    let left: u64 = archive_size - offset;
    ByteRange {
        offset,
        length: if left < CHUNK_SIZE {
            left
        } else {
            CHUNK_SIZE
        },
    }
}

/// Reads the headers of a whole archive from the position of the scan on.
pub open spec fn scan_from(st: ScanView, archive: Seq<u8>) -> ScanOutcomeView
    decreases remaining(st),
{
    if st.pos + BLOCK > st.size {
        ended(st)
    } else {
        match take_block(st, archive.subrange(st.pos as int, st.pos + BLOCK)) {
            BlockStep::Stop => ended(st),
            BlockStep::Fail(e) => ScanOutcomeView::Failed(crate::error::S3ErrorView::Tar(e)),
            BlockStep::Next(next) => scan_from(next, archive),
        }
    }
}

/// Chunk `i` of an archive.
pub open spec fn chunk_of(archive: Seq<u8>, i: nat) -> Seq<u8> {
    let (offset, length) = chunk_range_of(archive.len(), i);
    archive.subrange(offset as int, (offset + length) as int)
}

/// What comes of handing a scan the chunks of an archive one after the other.
pub open spec fn fed(st: ScanView, archive: Seq<u8>) -> ScanOutcomeView
    decreases chunk_count(archive.len()) - st.taken,
{
    match take_chunk(st, chunk_of(archive, st.taken)) {
        ScanOutcomeView::More(next) => if st.taken < next.taken < chunk_count(archive.len()) {
            fed(next, archive)
        } else {
            ScanOutcomeView::More(next)
        },
        last => last,
    }
}

/// Whether a scan that waits for a chunk has read what came before of `archive`, and holds the
/// part of a header that the last chunk ended with.
pub open spec fn follows(st: ScanView, archive: Seq<u8>) -> bool {
    let seen = (st.taken * CHUNK_SIZE) as nat;
    &&& st.size == archive.len()
    &&& st.taken < chunk_count(archive.len())
    &&& st.pos + BLOCK <= st.size
    &&& match st.partial {
        None => seen <= st.pos,
        Some(head) => st.pos < seen < st.pos + BLOCK && head == archive.subrange(
            st.pos as int,
            seen as int,
        ),
    }
}

/// How far a scan of the whole archive gets does not depend on the chunks taken.
proof fn lemma_scan_from_same(a: ScanView, b: ScanView, archive: Seq<u8>)
    requires
        a.size == b.size,
        a.pos == b.pos,
        a.entries == b.entries,
        a.compression == b.compression,
    ensures
        scan_from(a, archive) == scan_from(b, archive),
    decreases remaining(a),
{
    if a.pos + BLOCK <= a.size {
        let block = archive.subrange(a.pos as int, a.pos + BLOCK);
        match (take_block(a, block), take_block(b, block)) {
            (BlockStep::Next(next_a), BlockStep::Next(next_b)) => {
                lemma_scan_from_same(next_a, next_b, archive);
            },
            _ => {},
        }
    }
}

/// Reading chunk `k` of an archive takes the scan of the whole archive as far as the chunk goes.
proof fn lemma_walk(st: ScanView, archive: Seq<u8>, k: nat)
    requires
        st.size == archive.len(),
        st.taken == k + 1,
        st.partial is None,
        k < chunk_count(archive.len()),
        k * CHUNK_SIZE <= st.pos,
    ensures
        match walk(st, chunk_of(archive, k), k * CHUNK_SIZE as nat) {
            ScanOutcomeView::More(next) => next.taken == st.taken && follows(next, archive)
                && scan_from(next, archive) == scan_from(st, archive),
            ScanOutcomeView::OutOfBounds => false,
            last => last == scan_from(st, archive),
        },
    decreases remaining(st),
{
    let base = k * CHUNK_SIZE as nat;
    let chunk = chunk_of(archive, k);
    if st.pos + BLOCK > st.size {
    } else if st.pos >= base + CHUNK_SIZE {
    } else if st.pos + BLOCK > base + chunk.len() {
        let head = chunk.skip(st.pos - base);
        let next = ScanView { partial: Some(head), ..st };
        assert(chunk.len() == CHUNK_SIZE);
        assert(head =~= archive.subrange(st.pos as int, (st.taken * CHUNK_SIZE) as int));
        lemma_scan_from_same(st, next, archive);
    } else {
        let block = chunk.subrange(st.pos - base, st.pos - base + BLOCK);
        assert(block =~= archive.subrange(st.pos as int, st.pos + BLOCK));
        match take_block(st, block) {
            BlockStep::Next(next) => {
                lemma_walk(next, archive, k);
            },
            _ => {},
        }
    }
}

/// Taking the next chunk of the archive that a scan follows.
pub proof fn lemma_take_chunk(st: ScanView, archive: Seq<u8>)
    requires
        follows(st, archive),
    ensures
        match take_chunk(st, chunk_of(archive, st.taken)) {
            ScanOutcomeView::More(next) => next.taken == st.taken + 1 && follows(next, archive)
                && scan_from(next, archive) == scan_from(st, archive),
            ScanOutcomeView::OutOfBounds => false,
            last => last == scan_from(st, archive),
        },
{
    let k = st.taken;
    let base = k * CHUNK_SIZE as nat;
    let chunk = chunk_of(archive, k);
    let now = ScanView { taken: st.taken + 1, partial: None, ..st };
    lemma_scan_from_same(st, now, archive);
    match st.partial {
        None => {
            lemma_walk(now, archive, k);
        },
        Some(head) => {
            let block = head + chunk.take(BLOCK - head.len());
            assert(block =~= archive.subrange(st.pos as int, st.pos + BLOCK));
            match take_block(now, block) {
                BlockStep::Next(next) => {
                    lemma_walk(next, archive, k);
                },
                _ => {},
            }
        },
    }
}

/// A scan that is handed the chunks of the archive that it follows ends as the scan of the whole
/// archive does.
proof fn lemma_fed(st: ScanView, archive: Seq<u8>)
    requires
        follows(st, archive),
    ensures
        fed(st, archive) == scan_from(st, archive),
    decreases chunk_count(archive.len()) - st.taken,
{
    lemma_take_chunk(st, archive);
    match take_chunk(st, chunk_of(archive, st.taken)) {
        ScanOutcomeView::More(next) => {
            lemma_fed(next, archive);
        },
        _ => {},
    }
}

/// What comes of scanning an archive chunk by chunk from its start.
pub open spec fn scanned(archive: Seq<u8>) -> ScanOutcomeView {
    match started(archive.len()) {
        ScanOutcomeView::More(st) => fed(st, archive),
        at_once => at_once,
    }
}

/// Scanning an archive chunk by chunk gives what reading its headers in one piece gives: chunk
/// boundaries, also those inside a header, do not show. It never runs out of bounds and never
/// waits for a chunk that the archive does not have.
pub proof fn law_chunks_do_not_show(archive: Seq<u8>)
    ensures
        scanned(archive) == scan_from(fresh(archive.len()), archive),
        scanned(archive) is Done || scanned(archive) is Failed,
{
    let st = fresh(archive.len());
    if st.pos + BLOCK <= st.size {
        assert(follows(st, archive));
        lemma_fed(st, archive);
    }
    lemma_scan_from_ends(st, archive);
}

proof fn lemma_scan_from_ends(st: ScanView, archive: Seq<u8>)
    ensures
        scan_from(st, archive) is Done || scan_from(st, archive) is Failed,
    decreases remaining(st),
{
    if st.pos + BLOCK <= st.size {
        match take_block(st, archive.subrange(st.pos as int, st.pos + BLOCK)) {
            BlockStep::Next(next) => {
                lemma_scan_from_ends(next, archive);
            },
            _ => {},
        }
    }
}

/// The first `n` chunks of an archive, one behind the other.
pub open spec fn joined_chunks(archive: Seq<u8>, n: nat) -> Seq<u8>
    decreases n,
{
    if n == 0 {
        Seq::empty()
    } else {
        joined_chunks(archive, (n - 1) as nat) + chunk_of(archive, (n - 1) as nat)
    }
}

proof fn lemma_joined_chunks(archive: Seq<u8>, n: nat)
    requires
        n <= chunk_count(archive.len()),
    ensures
        joined_chunks(archive, n) == archive.take(
            if n * CHUNK_SIZE < archive.len() {
                n * CHUNK_SIZE
            } else {
                archive.len() as int
            },
        ),
    decreases n,
{
    if n > 0 {
        lemma_joined_chunks(archive, (n - 1) as nat);
        assert(joined_chunks(archive, n) =~= archive.take(
            if n * CHUNK_SIZE < archive.len() {
                n * CHUNK_SIZE
            } else {
                archive.len() as int
            },
        ));
    } else {
        assert(joined_chunks(archive, n) =~= archive.take(0));
    }
}

/// The chunks make up the archive, without gap and without overlap.
pub proof fn law_chunks_cover_archive(archive: Seq<u8>)
    ensures
        joined_chunks(archive, chunk_count(archive.len())) == archive,
{
    lemma_joined_chunks(archive, chunk_count(archive.len()));
    assert(archive.take(archive.len() as int) =~= archive);
}

/// An entry of a tar archive: its header block and its data, padded to full blocks.
pub struct Member {
    pub header: Seq<u8>,
    pub data: Seq<u8>,
}

/// What the header of an entry says.
pub open spec fn head_of(m: Member) -> crate::tar::TarHeaderView {
    crate::tar::header_of(m.header)->Ok_0
}

/// Whether an entry has a valid header and as much data as the header says, filled up to full
/// blocks and no further.
pub open spec fn is_member(m: Member) -> bool {
    &&& m.header.len() == 512
    &&& crate::tar::header_of(m.header) is Ok
    &&& m.data.len() % 512 == 0
    &&& head_of(m).size <= m.data.len() < head_of(m).size + 512
}

/// The data of an entry takes the least number of full blocks that holds it: the next header stands
/// behind the header of the entry and so many blocks.
pub proof fn law_data_takes_full_blocks(pos: nat, size: nat)
    ensures
        pos + 512 + size <= next_header(pos, size) < pos + 512 + size + 512,
        (next_header(pos, size) - pos) % 512 == 0,
{
}

/// The bytes of an archive's entries.
pub open spec fn tar_bytes(members: Seq<Member>) -> Seq<u8>
    decreases members.len(),
{
    if members.len() == 0 {
        Seq::empty()
    } else {
        tar_bytes(members.drop_last()) + members.last().header + members.last().data
    }
}

/// Whether an archive's entries can end where these bytes start: fewer than a block are left, or
/// a block of zeros comes.
pub open spec fn is_tail(tail: Seq<u8>) -> bool {
    tail.len() < 512 || forall|i: int| 0 <= i < 512 ==> #[trigger] tail[i] == 0
}

/// The id of the tile that an entry holds. An entry is a tile when its name is a tile path and
/// its size fits an index.
pub open spec fn tile_of(m: Member) -> Option<u32> {
    if head_of(m).size <= 0xffff_ffff {
        crate::tile::id_of_path(head_of(m).name)
    } else {
        None
    }
}

/// Whether entry `i` is the last one that holds the tile that it holds.
pub open spec fn is_last_tile(members: Seq<Member>, i: int) -> bool {
    &&& 0 <= i < members.len()
    &&& tile_of(members[i]) is Some
    &&& forall|j: int|
        i < j < members.len() ==> tile_of(#[trigger] members[j]) != tile_of(members[i])
}

/// Whether entry `i` is the first one that holds a tile.
pub open spec fn is_first_tile(members: Seq<Member>, i: int) -> bool {
    &&& 0 <= i < members.len()
    &&& tile_of(members[i]) is Some
    &&& forall|j: int| 0 <= j < i ==> tile_of(#[trigger] members[j]) is None
}

/// Whether `index` holds exactly the tiles among the entries of an archive, each as its last
/// entry has it, with the offset of its data in the archive, and has the tile that comes first in
/// the archive as its first.
pub open spec fn holds_tiles(index: crate::index::TileIndexView, members: Seq<Member>) -> bool {
    &&& forall|i: int| #[trigger]
        is_first_tile(members, i) ==> index.first == tile_of(members[i])
    &&& index.first matches Some(id) ==> index.tiles.contains_key(id)
    &&& index.first is None ==> index.tiles == Map::<u32, TileEntry>::empty()
    &&& forall|id: u32| #[trigger]
        index.tiles.contains_key(id) ==> exists|i: int|
            0 <= i < members.len() && tile_of(#[trigger] members[i]) == Some(id)
    &&& forall|i: int|
        0 <= i < members.len() && tile_of(#[trigger] members[i]) is Some ==> index.tiles.contains_key(
            tile_of(members[i])->0,
        )
    &&& forall|i: int| #[trigger]
        is_last_tile(members, i) ==> index.tiles[tile_of(members[i])->0] == (TileEntry {
            offset: (tar_bytes(members.take(i)).len() + 512) as u64,
            size: head_of(members[i]).size as u32,
        })
}

/// The scan of an archive of `size` bytes behind its first entries.
spec fn behind_members(members: Seq<Member>, size: nat) -> ScanView
    decreases members.len(),
{
    if members.len() == 0 {
        fresh(size)
    } else {
        behind_entry(behind_members(members.drop_last(), size), head_of(members.last()))
    }
}

proof fn lemma_zero_block_sum(block: Seq<u8>, n: nat)
    requires
        is_zero_block(block),
        n <= block.len(),
    ensures
        crate::tar::unsigned_sum(block, n) == crate::tar::signed_sum(block, n),
        crate::tar::unsigned_sum(block, n) == 32 * (if n <= 148 {
            0
        } else if n <= 156 {
            n - 148
        } else {
            8
        }),
    decreases n,
{
    if n > 0 {
        lemma_zero_block_sum(block, (n - 1) as nat);
    }
}

/// A block of zeros is not a header.
proof fn lemma_header_not_zero(block: Seq<u8>)
    requires
        block.len() == BLOCK,
        crate::tar::header_of(block) is Ok,
    ensures
        !is_zero_block(block),
{
    if is_zero_block(block) {
        lemma_zero_block_sum(block, block.len());
        let field = block.subrange(148, 156);
        assert(crate::tar::is_padding(field));
        let nothing = Seq::<u8>::empty();
        crate::tar::law_octal_reads_back(0, 0, nothing, field);
        assert(nothing + crate::tar::octal_text(0, 0) + field =~= field);
    }
}

/// What an entry does to a scan, in terms of the tile that it holds.
proof fn lemma_behind_member(st: ScanView, m: Member)
    requires
        is_member(m),
    ensures
        behind_entry(st, head_of(m)).size == st.size,
        behind_entry(st, head_of(m)).pos == st.pos + m.header.len() + m.data.len(),
        behind_entry(st, head_of(m)).entries == (match tile_of(m) {
            Some(id) => st.entries.insert(
                id,
                TileEntry { offset: (st.pos + BLOCK) as u64, size: head_of(m).size as u32 },
            ),
            None => st.entries,
        }),
        behind_entry(st, head_of(m)).compression == (if tile_of(m) is Some && st.entries.first is None {
            TileCompression::of_name(head_of(m).name)
        } else {
            st.compression
        }),
{
    law_data_takes_full_blocks(st.pos, head_of(m).size as nat);
}

proof fn lemma_behind_members_pos(members: Seq<Member>, size: nat)
    requires
        forall|i: int| 0 <= i < members.len() ==> is_member(#[trigger] members[i]),
    ensures
        behind_members(members, size).size == size,
        behind_members(members, size).pos == tar_bytes(members).len(),
    decreases members.len(),
{
    if members.len() > 0 {
        let before = members.drop_last();
        assert forall|i: int| 0 <= i < before.len() implies is_member(#[trigger] before[i]) by {
            assert(before[i] == members[i]);
        }
        lemma_behind_members_pos(before, size);
        assert(is_member(members[members.len() - 1]));
        lemma_behind_member(behind_members(before, size), members.last());
    }
}

/// The first tile of one more entry is the first tile so far, or there was none.
proof fn lemma_first_of_one_more(
    old_index: crate::index::TileIndexView,
    members: Seq<Member>,
    k: int,
)
    requires
        members.len() > 0,
        holds_tiles(old_index, members.drop_last()),
        is_first_tile(members, k),
    ensures
        k < members.len() - 1 ==> old_index.first == tile_of(members[k]),
        k == members.len() - 1 ==> old_index.first is None,
{
    let before = members.drop_last();
    if k < before.len() {
        assert(before[k] == members[k]);
        assert forall|j: int| 0 <= j < k implies tile_of(#[trigger] before[j]) is None by {
            assert(before[j] == members[j]);
        }
        assert(is_first_tile(before, k));
    } else if old_index.first is Some {
        let id = old_index.first->0;
        assert(old_index.tiles.contains_key(id));
        let j = choose|j: int| 0 <= j < before.len() && tile_of(#[trigger] before[j]) == Some(id);
        assert(before[j] == members[j]);
    }
}

/// The place of one more entry's tile: the entry itself, or its place so far.
proof fn lemma_last_of_one_more(
    old_index: crate::index::TileIndexView,
    members: Seq<Member>,
    k: int,
)
    requires
        members.len() > 0,
        holds_tiles(old_index, members.drop_last()),
        is_last_tile(members, k),
    ensures
        k < members.len() - 1 ==> tile_of(members.last()) != tile_of(members[k]),
        k < members.len() - 1 ==> old_index.tiles[tile_of(members[k])->0] == (TileEntry {
            offset: (tar_bytes(members.take(k)).len() + BLOCK) as u64,
            size: head_of(members[k]).size as u32,
        }),
        k == members.len() - 1 ==> members.take(k) == members.drop_last(),
{
    let before = members.drop_last();
    if k < before.len() {
        assert(before[k] == members[k]);
        assert(before.take(k) =~= members.take(k));
        assert(tile_of(members[members.len() - 1]) != tile_of(members[k]));
        assert forall|j: int| k < j < before.len() implies tile_of(#[trigger] before[j])
            != tile_of(before[k]) by {
            assert(before[j] == members[j]);
        }
        assert(is_last_tile(before, k));
    } else {
        assert(before =~= members.take(k));
    }
}

/// The ids of one more entry are the ids so far and that of the entry.
proof fn lemma_ids_of_one_more(
    old_index: crate::index::TileIndexView,
    members: Seq<Member>,
    id: u32,
)
    requires
        members.len() > 0,
        holds_tiles(old_index, members.drop_last()),
    ensures
        (old_index.tiles.contains_key(id) || tile_of(members.last()) == Some(id)) == (exists|i: int|
            0 <= i < members.len() && tile_of(#[trigger] members[i]) == Some(id)),
{
    let before = members.drop_last();
    let n = members.len() - 1;
    if tile_of(members.last()) == Some(id) {
        assert(tile_of(members[n]) == Some(id));
    } else if old_index.tiles.contains_key(id) {
        let i = choose|i: int| 0 <= i < before.len() && tile_of(#[trigger] before[i]) == Some(id);
        assert(tile_of(members[i]) == Some(id));
    } else if exists|i: int| 0 <= i < members.len() && tile_of(#[trigger] members[i]) == Some(id) {
        let i = choose|i: int| 0 <= i < members.len() && tile_of(#[trigger] members[i]) == Some(id);
        assert(before[i] == members[i]);
    }
}

/// Behind one more entry, the index holds the tiles of one more entry.
#[verifier::rlimit(40)]
#[verifier::spinoff_prover]
proof fn lemma_holds_one_more(
    old_index: crate::index::TileIndexView,
    index: crate::index::TileIndexView,
    members: Seq<Member>,
)
    requires
        members.len() > 0,
        holds_tiles(old_index, members.drop_last()),
        index == (match tile_of(members.last()) {
            Some(id) => old_index.insert(
                id,
                TileEntry {
                    offset: (tar_bytes(members.drop_last()).len() + BLOCK) as u64,
                    size: head_of(members.last()).size as u32,
                },
            ),
            None => old_index,
        }),
    ensures
        holds_tiles(index, members),
{
    assert forall|i: int| #[trigger] is_first_tile(members, i) implies index.first == tile_of(
        members[i],
    ) by {
        lemma_first_of_one_more(old_index, members, i);
    }
    assert forall|id: u32| #[trigger] index.tiles.contains_key(id) implies exists|i: int|
        0 <= i < members.len() && tile_of(#[trigger] members[i]) == Some(id) by {
        lemma_ids_of_one_more(old_index, members, id);
    }
    assert forall|i: int|
        0 <= i < members.len() && tile_of(
            #[trigger] members[i],
        ) is Some implies index.tiles.contains_key(tile_of(members[i])->0) by {
        lemma_ids_of_one_more(old_index, members, tile_of(members[i])->0);
    }
    assert forall|i: int| #[trigger]
        is_last_tile(members, i) implies index.tiles[tile_of(members[i])->0] == (TileEntry {
        offset: (tar_bytes(members.take(i)).len() + BLOCK) as u64,
        size: head_of(members[i]).size as u32,
    }) by {
        lemma_last_of_one_more(old_index, members, i);
    }
}

#[verifier::rlimit(40)]
proof fn lemma_behind_members_tiles(members: Seq<Member>, size: nat)
    requires
        forall|i: int| 0 <= i < members.len() ==> is_member(#[trigger] members[i]),
    ensures
        holds_tiles(behind_members(members, size).entries, members),
    decreases members.len(),
{
    if members.len() > 0 {
        let before = members.drop_last();
        assert forall|i: int| 0 <= i < before.len() implies is_member(#[trigger] before[i]) by {
            assert(before[i] == members[i]);
        }
        lemma_behind_members_tiles(before, size);
        lemma_behind_members_pos(before, size);
        assert(is_member(members[members.len() - 1]));
        lemma_behind_member(behind_members(before, size), members.last());
        lemma_holds_one_more(
            behind_members(before, size).entries,
            behind_members(members, size).entries,
            members,
        );
    }
}

#[verifier::rlimit(40)]
proof fn lemma_behind_members_compression(members: Seq<Member>, size: nat, k: int)
    requires
        forall|i: int| 0 <= i < members.len() ==> is_member(#[trigger] members[i]),
        is_first_tile(members, k),
    ensures
        behind_members(members, size).compression == TileCompression::of_name(
            head_of(members[k]).name,
        ),
    decreases members.len(),
{
    let before = members.drop_last();
    let old_st = behind_members(before, size);
    assert forall|i: int| 0 <= i < before.len() implies is_member(#[trigger] before[i]) by {
        assert(before[i] == members[i]);
    }
    lemma_behind_members_tiles(before, size);
    assert(is_member(members[members.len() - 1]));
    lemma_behind_member(old_st, members.last());
    if k < before.len() {
        assert(before[k] == members[k]);
        assert forall|j: int| 0 <= j < k implies tile_of(#[trigger] before[j]) is None by {
            assert(before[j] == members[j]);
        }
        lemma_behind_members_compression(before, size, k);
        assert(old_st.entries.tiles.contains_key(tile_of(before[k])->0));
    } else {
        lemma_first_of_one_more(old_st.entries, members, k);
    }
}

proof fn lemma_tar_bytes_prefix(members: Seq<Member>, i: int)
    requires
        0 <= i <= members.len(),
    ensures
        tar_bytes(members.take(i)).is_prefix_of(tar_bytes(members)),
    decreases members.len() - i,
{
    if i < members.len() {
        lemma_tar_bytes_prefix(members, i + 1);
        assert(members.take(i + 1).drop_last() =~= members.take(i));
        let shorter = tar_bytes(members.take(i));
        let longer = tar_bytes(members.take(i + 1));
        assert(longer.take(shorter.len() as int) =~= shorter);
        assert(tar_bytes(members).take(longer.len() as int) =~= longer);
        assert(tar_bytes(members).take(shorter.len() as int) =~= shorter);
    } else {
        assert(members.take(i) =~= members);
    }
}

/// The scan reads one entry after the other.
#[verifier::rlimit(40)]
#[verifier::spinoff_prover]
proof fn lemma_scan_members(members: Seq<Member>, archive: Seq<u8>, i: int)
    requires
        0 <= i <= members.len(),
        forall|i: int| 0 <= i < members.len() ==> is_member(#[trigger] members[i]),
        tar_bytes(members).is_prefix_of(archive),
    ensures
        scan_from(behind_members(members.take(i), archive.len()), archive) == scan_from(
            behind_members(members, archive.len()),
            archive,
        ),
    decreases members.len() - i,
{
    if i < members.len() {
        let st = behind_members(members.take(i), archive.len());
        let m = members[i];
        assert(is_member(m));
        let part = members.take(i + 1);
        assert(part.drop_last() =~= members.take(i));
        assert(part.last() == m);
        assert forall|j: int| 0 <= j < members.take(i).len() implies is_member(
            #[trigger] members.take(i)[j],
        ) by {
            assert(members.take(i)[j] == members[j]);
        }
        lemma_behind_members_pos(members.take(i), archive.len());
        let tail = archive.skip(tar_bytes(members).len() as int);
        assert(archive.take(tar_bytes(members).len() as int) == tar_bytes(members));
        assert(archive =~= tar_bytes(members) + tail);
        lemma_member_bytes(members, tail, i);
        let block = archive.subrange(st.pos as int, st.pos + BLOCK);
        assert(block == m.header);
        lemma_header_not_zero(block);
        assert(take_block(st, block) == BlockStep::Next(behind_members(part, archive.len())));
        lemma_scan_members(members, archive, i + 1);
    } else {
        assert(members.take(i) =~= members);
    }
}

/// Scanning an archive without `index.bin` finds exactly the tiles among its entries. Entries
/// that are not tiles are passed over; of several entries for one tile the last one counts. The
/// name of the first tile tells the compression. An archive without tiles is refused.
#[verifier::rlimit(40)]
pub proof fn law_scan_finds_tiles(members: Seq<Member>, tail: Seq<u8>)
    requires
        forall|i: int| 0 <= i < members.len() ==> is_member(#[trigger] members[i]),
        is_tail(tail),
    ensures
        match scanned(tar_bytes(members) + tail) {
            ScanOutcomeView::Done(index, compression) => {
                &&& holds_tiles(index, members)
                &&& exists|i: int| #[trigger] is_first_tile(members, i)
                &&& forall|i: int| #[trigger]
                    is_first_tile(members, i) ==> compression == TileCompression::of_name(
                        head_of(members[i]).name,
                    )
            },
            ScanOutcomeView::Failed(e) => {
                &&& e == crate::error::S3ErrorView::Tar(crate::error::TarErrorView::EmptyIndex)
                &&& forall|i: int| 0 <= i < members.len() ==> tile_of(#[trigger] members[i]) is None
            },
            _ => false,
        },
{
    let archive = tar_bytes(members) + tail;
    let size = archive.len();
    law_chunks_do_not_show(archive);
    assert(archive.take(tar_bytes(members).len() as int) =~= tar_bytes(members));
    lemma_scan_members(members, archive, 0);
    assert(members.take(0) =~= Seq::<Member>::empty());
    assert(behind_members(members.take(0), size) == fresh(size));
    let st = behind_members(members, size);
    lemma_behind_members_pos(members, size);
    lemma_behind_members_tiles(members, size);
    if st.pos + BLOCK <= st.size {
        assert(archive.subrange(st.pos as int, st.pos + BLOCK) =~= tail.take(BLOCK as int));
    }
    assert(scanned(archive) == ended(st));
    if st.entries.first is None {
        assert forall|i: int| 0 <= i < members.len() implies tile_of(
            #[trigger] members[i],
        ) is None by {
            if tile_of(members[i]) is Some {
                assert(st.entries.tiles.contains_key(tile_of(members[i])->0));
            }
        }
    } else {
        if forall|i: int| 0 <= i < members.len() ==> tile_of(#[trigger] members[i]) is None {
            assert forall|id: u32| !(#[trigger] st.entries.tiles.contains_key(id)) by {}
            assert(st.entries.tiles =~= Map::<u32, TileEntry>::empty());
        }
        let i = choose|i: int| 0 <= i < members.len() && tile_of(#[trigger] members[i]) is Some;
        lemma_first_tile(members, i);
        assert forall|k: int| #[trigger] is_first_tile(members, k) implies st.compression
            == TileCompression::of_name(head_of(members[k]).name) by {
            lemma_behind_members_compression(members, size, k);
        }
    }
}

proof fn lemma_first_tile(members: Seq<Member>, i: int)
    requires
        0 <= i < members.len(),
        tile_of(members[i]) is Some,
    ensures
        exists|k: int| #[trigger] is_first_tile(members, k),
    decreases i,
{
    if forall|j: int| 0 <= j < i ==> tile_of(#[trigger] members[j]) is None {
        assert(is_first_tile(members, i));
    } else {
        let j = choose|j: int| 0 <= j < i && tile_of(#[trigger] members[j]) is Some;
        lemma_first_tile(members, j);
    }
}

/// A scan stops at the first block that is neither a header nor zeros, and fails for what is wrong
/// with that block.
#[verifier::rlimit(40)]
pub proof fn law_scan_refuses_bad_header(members: Seq<Member>, block: Seq<u8>, behind: Seq<u8>)
    requires
        forall|i: int| 0 <= i < members.len() ==> is_member(#[trigger] members[i]),
        block.len() == 512,
        crate::tar::header_of(block) is Err,
        exists|i: int| 0 <= i < 512 && #[trigger] block[i] != 0,
    ensures
        scanned(tar_bytes(members) + block + behind) == ScanOutcomeView::Failed(
            crate::error::S3ErrorView::Tar(crate::tar::header_of(block)->Err_0),
        ),
{
    let archive = tar_bytes(members) + block + behind;
    let size = archive.len();
    law_chunks_do_not_show(archive);
    assert(archive.take(tar_bytes(members).len() as int) =~= tar_bytes(members));
    lemma_scan_members(members, archive, 0);
    assert(members.take(0) =~= Seq::<Member>::empty());
    assert(behind_members(members.take(0), size) == fresh(size));
    let st = behind_members(members, size);
    lemma_behind_members_pos(members, size);
    assert(archive.subrange(st.pos as int, st.pos + BLOCK) =~= block);
}

/// An archive is read in chunks of eight mebibytes; only the last one can be shorter, and it ends
/// where the archive ends.
pub proof fn law_chunk_lengths(size: nat, i: nat)
    ensures
        (chunk_count(size) - 1) * 0x80_0000 < size <= chunk_count(size) * 0x80_0000 || size == 0
            && chunk_count(size) == 0,
        i + 1 < chunk_count(size) ==> chunk_range_of(size, i) == ((i * 0x80_0000) as nat, 0x80_0000nat),
        i + 1 == chunk_count(size) ==> chunk_range_of(size, i).0 == i * 0x80_0000 && chunk_range_of(
            size,
            i,
        ).0 + chunk_range_of(size, i).1 == size && 0 < chunk_range_of(size, i).1 <= 0x80_0000,
{
}

/// A chunk that is shorter than what was asked for never passes for a longer one: where the next
/// header starts behind its end, or a header that was cut still lacks bytes, the scan gives up, and
/// where it cuts a header and there is no further chunk, the scan fails.
pub proof fn law_short_chunk(st: ScanView, chunk: Seq<u8>)
    requires
        st.pos + 512 <= st.size,
        st.taken < chunk_count(st.size),
    ensures
        st.partial matches Some(head) && head.len() + chunk.len() < 512 ==> take_chunk(
            st,
            chunk,
        ) is OutOfBounds,
        st.partial is None && st.taken * 0x80_0000 + chunk.len() < st.pos < (st.taken + 1)
            * 0x80_0000 ==> take_chunk(st, chunk) is OutOfBounds,
        st.partial is None && st.taken * 0x80_0000 <= st.pos < (st.taken + 1) * 0x80_0000 && st.pos
            <= st.taken * 0x80_0000 + chunk.len() < st.pos + 512 ==> match take_chunk(st, chunk) {
            ScanOutcomeView::More(next) => {
                &&& st.taken + 1 < chunk_count(st.size)
                &&& next == (ScanView {
                    taken: st.taken + 1,
                    partial: Some(chunk.skip(st.pos - st.taken * 0x80_0000)),
                    ..st
                })
            },
            ScanOutcomeView::Failed(e) => {
                &&& st.taken + 1 == chunk_count(st.size)
                &&& e == crate::error::S3ErrorView::Protocol("unexpected end of chunk stream"@)
            },
            _ => false,
        },
{
}

/// What an entry gives to note: a tile path with a size over 32 bits is skipped under its name, and
/// every thousandth tile is counted.
pub proof fn law_entry_notes(st: ScanView, header: crate::tar::TarHeaderView)
    ensures
        crate::tile::id_of_path(header.name) is None ==> entry_notes(st, header).len() == 0,
        crate::tile::id_of_path(header.name) is Some && header.size > 0xffff_ffff ==> entry_notes(
            st,
            header,
        ) == seq![ScanNoteView::Skipped { name: header.name, size: header.size }],
        header.size <= 0xffff_ffff ==> (crate::tile::id_of_path(header.name) matches Some(id) ==> {
            let count = st.entries.tiles.dom().insert(id).len();
            if count % 1000 == 0 {
                entry_notes(st, header) == seq![ScanNoteView::Scanned(count)]
            } else {
                entry_notes(st, header).len() == 0
            }
        }),
        st.entries.first is Some ==> end_notes(st) == seq![
            ScanNoteView::Built(st.entries.tiles.dom().len()),
        ],
        st.entries.first is None ==> end_notes(st).len() == 0,
{
    if let Some(id) = crate::tile::id_of_path(header.name) {
        if header.size <= 0xffff_ffff {
            assert(behind_entry(st, header).entries.tiles.dom() =~= st.entries.tiles.dom().insert(
                id,
            ));
        }
    }
}

/// What the notes say.
pub proof fn law_note_messages(name: Seq<char>, size: u64, count: nat)
    ensures
        ScanNoteView::Started.message()
            == "index.bin not found in archive; scanning tar headers to build index via range requests."@,
        (ScanNoteView::Skipped { name, size }).message() == "Skipping tile "@ + name + " ("@
            + crate::text::decimal(size as nat) + " bytes): exceeds u32::MAX size limit"@,
        ScanNoteView::Scanned(count).message() == "Scanned "@ + crate::text::decimal(count)
            + " tiles so far..."@,
        ScanNoteView::Built(count).message() == "Built index from tar scan: "@
            + crate::text::decimal(count) + " tiles"@,
{
}

/// What reading the headers of a whole archive gives to note.
pub open spec fn scan_notes(st: ScanView, archive: Seq<u8>) -> Seq<ScanNoteView>
    decreases remaining(st),
{
    if st.pos + 512 > st.size {
        end_notes(st)
    } else {
        let block = archive.subrange(st.pos as int, st.pos as int + 512);
        match take_block(st, block) {
            BlockStep::Stop => end_notes(st),
            BlockStep::Fail(_) => Seq::empty(),
            BlockStep::Next(next) => entry_notes(st, crate::tar::header_of(block)->Ok_0)
                + scan_notes(next, archive),
        }
    }
}

proof fn lemma_scan_notes_same(a: ScanView, b: ScanView, archive: Seq<u8>)
    requires
        a.size == b.size,
        a.pos == b.pos,
        a.entries == b.entries,
        a.compression == b.compression,
    ensures
        scan_notes(a, archive) == scan_notes(b, archive),
    decreases remaining(a),
{
    if a.pos + BLOCK <= a.size {
        let block = archive.subrange(a.pos as int, a.pos + BLOCK);
        match (take_block(a, block), take_block(b, block)) {
            (BlockStep::Next(next_a), BlockStep::Next(next_b)) => {
                lemma_scan_notes_same(next_a, next_b, archive);
            },
            _ => {},
        }
    }
}

#[verifier::rlimit(40)]
proof fn lemma_walk_notes(st: ScanView, archive: Seq<u8>, k: nat)
    requires
        st.size == archive.len(),
        st.taken == k + 1,
        st.partial is None,
        k < chunk_count(archive.len()),
        k * CHUNK_SIZE <= st.pos,
    ensures
        walk_notes(st, chunk_of(archive, k), k * CHUNK_SIZE as nat) + (match walk(
            st,
            chunk_of(archive, k),
            k * CHUNK_SIZE as nat,
        ) {
            ScanOutcomeView::More(next) => scan_notes(next, archive),
            _ => Seq::empty(),
        }) == scan_notes(st, archive),
    decreases remaining(st),
{
    let base = k * CHUNK_SIZE as nat;
    let chunk = chunk_of(archive, k);
    let ahead = match walk(st, chunk, base) {
        ScanOutcomeView::More(next) => scan_notes(next, archive),
        _ => Seq::empty(),
    };
    lemma_walk(st, archive, k);
    if st.pos + BLOCK > st.size {
        assert(walk_notes(st, chunk, base) + ahead =~= scan_notes(st, archive));
    } else if st.pos >= base + CHUNK_SIZE {
        assert(walk_notes(st, chunk, base) + ahead =~= scan_notes(st, archive));
    } else if st.pos + BLOCK > base + chunk.len() {
        let next = ScanView { partial: Some(chunk.skip(st.pos - base)), ..st };
        lemma_scan_notes_same(st, next, archive);
        assert(walk_notes(st, chunk, base) + ahead =~= scan_notes(st, archive));
    } else {
        let block = chunk.subrange(st.pos - base, st.pos - base + BLOCK);
        assert(block =~= archive.subrange(st.pos as int, st.pos + BLOCK));
        match take_block(st, block) {
            BlockStep::Next(next) => {
                lemma_walk_notes(next, archive, k);
                let told = entry_notes(st, crate::tar::header_of(block)->Ok_0);
                assert(told + walk_notes(next, chunk, base) + ahead =~= told + (walk_notes(
                    next,
                    chunk,
                    base,
                ) + ahead));
            },
            _ => {
                assert(walk_notes(st, chunk, base) + ahead =~= scan_notes(st, archive));
            },
        }
    }
}

/// What a scan gives to note does not depend on the chunks either: the notes on the next chunk, and
/// the notes of the scan from there on, are the notes of the scan from here on.
#[verifier::rlimit(40)]
pub proof fn law_chunks_do_not_show_in_notes(st: ScanView, archive: Seq<u8>)
    requires
        follows(st, archive),
    ensures
        chunk_notes(st, chunk_of(archive, st.taken)) + (match take_chunk(
            st,
            chunk_of(archive, st.taken),
        ) {
            ScanOutcomeView::More(next) => scan_notes(next, archive),
            _ => Seq::empty(),
        }) == scan_notes(st, archive),
{
    let k = st.taken;
    let base = k * CHUNK_SIZE as nat;
    let chunk = chunk_of(archive, k);
    let now = ScanView { taken: st.taken + 1, partial: None, ..st };
    lemma_scan_notes_same(st, now, archive);
    let ahead = match take_chunk(st, chunk) {
        ScanOutcomeView::More(next) => scan_notes(next, archive),
        _ => Seq::empty(),
    };
    match st.partial {
        None => {
            lemma_walk_notes(now, archive, k);
        },
        Some(head) => {
            let block = head + chunk.take(BLOCK - head.len());
            assert(block =~= archive.subrange(st.pos as int, st.pos + BLOCK));
            match take_block(now, block) {
                BlockStep::Next(next) => {
                    lemma_walk_notes(next, archive, k);
                    let told = entry_notes(now, crate::tar::header_of(block)->Ok_0);
                    assert(told + walk_notes(next, chunk, base) + ahead =~= told + (walk_notes(
                        next,
                        chunk,
                        base,
                    ) + ahead));
                },
                _ => {
                    assert(chunk_notes(st, chunk) + ahead =~= scan_notes(st, archive));
                },
            }
        },
    }
}

/// Where an entry lies in its archive: its header behind the entries before it, and its data right
/// behind its header.
pub proof fn lemma_member_bytes(members: Seq<Member>, tail: Seq<u8>, k: int)
    requires
        0 <= k < members.len(),
        members[k].header.len() == 512,
    ensures
        ({
            let archive = tar_bytes(members) + tail;
            let start = tar_bytes(members.take(k)).len() as int;
            &&& start + 512 + members[k].data.len() <= archive.len()
            &&& archive.subrange(start, start + 512) == members[k].header
            &&& archive.subrange(start + 512, start + 512 + members[k].data.len())
                == members[k].data
        }),
{
    let archive = tar_bytes(members) + tail;
    let all = tar_bytes(members);
    let start = tar_bytes(members.take(k)).len() as int;
    let m = members[k];
    lemma_tar_bytes_prefix(members, k + 1);
    let part = members.take(k + 1);
    assert(part.drop_last() =~= members.take(k));
    assert(part.last() == m);
    let upto = tar_bytes(part);
    assert(all.take(upto.len() as int) =~= upto);
    assert forall|j: int| 0 <= j < upto.len() implies archive[j] == upto[j] by {
        assert(all.take(upto.len() as int)[j] == all[j]);
    }
    assert(archive.subrange(start, start + 512) =~= m.header);
    assert(archive.subrange(start + 512, start + 512 + m.data.len()) =~= m.data);
}

/// Notes and outcomes hold what their views say.
pub proof fn law_scan_views(
    notes: Seq<ScanNote>,
    i: int,
    name: String,
    size: u64,
    count: usize,
    index: TileIndex,
    compression: TileCompression,
    scan: TarScan,
    e: S3Error,
)
    ensures
        note_list(notes).len() == notes.len(),
        0 <= i < notes.len() ==> note_list(notes)[i] == notes[i]@,
        ScanNote::Started@ == ScanNoteView::Started,
        (ScanNote::Skipped { name, size })@ == (ScanNoteView::Skipped { name: name@, size }),
        ScanNote::Scanned(count)@ == ScanNoteView::Scanned(count as nat),
        ScanNote::Built(count)@ == ScanNoteView::Built(count as nat),
        ScanOutcome::More(scan)@ == ScanOutcomeView::More(scan@),
        ScanOutcome::Done(index, compression)@ == ScanOutcomeView::Done(index@, compression),
        ScanOutcome::Failed(e)@ == ScanOutcomeView::Failed(e@),
        ScanOutcome::OutOfBounds@ == ScanOutcomeView::OutOfBounds,
{
}

} // verus!
