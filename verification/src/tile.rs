//! Tile ids, tile paths and the compression of tiles.

use vstd::prelude::*;
use vstd::slice::slice_subrange;

use crate::text::{
    append_decimal, chars_of, ends_with, find_char, parse_u32,
};

verus! {

/// Packed Valhalla tile id: `level | (tile_index << 3)`.
#[derive(Debug, Clone, Copy, PartialEq, Eq, Hash, Structural)]
pub struct TileId(pub u32);

/// The packed id of tile `index` on level `level`.
pub open spec fn packed(level: u32, index: u32) -> u32 {
    level | (index << 3u32)
}

/// The text with every `/` taken out.
pub open spec fn without_slashes(s: Seq<char>) -> Seq<char> {
    s.filter(|c: char| c != '/')
}

/// The packed id that a tile path names.
///
/// The level is the text before the first `/`. The tile index is what follows, up to the first
/// `.` if there is one, with its slashes taken out. Both are decimal numbers.
pub open spec fn id_of_path(path: Seq<char>) -> Option<u32> {
    match crate::text::split_once(path, '/') {
        None => None,
        Some((level, rest)) => {
            let digits = match crate::text::split_once(rest, '.') {
                Some((head, _)) => head,
                None => rest,
            };
            match (crate::text::u32_of(level), crate::text::u32_of(without_slashes(digits))) {
                (Some(l), Some(i)) => Some(packed(l, i)),
                _ => None,
            }
        },
    }
}

fn remove_slashes(s: &[char]) -> (r: Vec<char>)
    ensures
        r@ == without_slashes(s@),
{
    let mut r: Vec<char> = Vec::new();
    let ghost keep = |c: char| c != '/';
    let mut i: usize = 0;
    assert(s@.take(0).filter(keep) =~= r@) by {
        reveal(Seq::filter);
    }
    while i < s.len()
        invariant
            i <= s@.len(),
            keep == (|c: char| c != '/'),
            r@ == s@.take(i as int).filter(keep),
        decreases s@.len() - i,
    {
        let c = s[i];
        proof {
            reveal(Seq::filter);
            assert(s@.take(i + 1).drop_last() =~= s@.take(i as int));
        }
        if c != '/' {
            r.push(c);
        }
        i += 1;
    }
    assert(s@.take(i as int) =~= s@);
    r
}

impl TileId {
    /// Wraps an id that is already packed.
    pub fn new(raw: u32) -> (id: Self)
        ensures
            id.0 == raw,
    {
        Self(raw)
    }

    /// Parses a Valhalla tile path like `2/000/818/660.gph` into a packed id.
    ///
    /// Numeric tile names hold no dots, so the first dot after the level starts the suffixes
    /// (`.gph`, `.gph.zst` and the like), which are ignored.
    pub fn from_path(path: &str) -> (id: Option<Self>)
        ensures
            id == (match id_of_path(path@) {
                Some(raw) => Some(TileId(raw)),
                None => None,
            }),
    {
        let chars = chars_of(path);
        let slash = find_char(chars.as_slice(), '/');
        if slash >= chars.len() {
            return None;
        }
        let level_text = slice_subrange(chars.as_slice(), 0, slash);
        let rest = slice_subrange(chars.as_slice(), slash + 1, chars.len());
        assert(level_text@ =~= path@.take(slash as int));
        assert(rest@ =~= path@.skip(slash + 1));
        let level = parse_u32(level_text)?;
        let dot = find_char(rest, '.');
        proof {
            crate::text::lemma_find(rest@, '.');
        }
        let head = slice_subrange(rest, 0, dot);
        assert(dot < rest@.len() ==> head@ =~= rest@.take(dot as int));
        assert(dot == rest@.len() ==> head@ =~= rest@);
        let digits = remove_slashes(head);
        let index = parse_u32(digits.as_slice())?;
        Some(Self(level | (index << 3)))
    }

    /// The id in decimal.
    pub fn to_text(&self) -> (s: String)
        ensures
            s@ == crate::text::decimal(self.0 as nat),
    {
        let mut s = String::new();
        append_decimal(&mut s, self.0 as u64);
        assert(s@ =~= crate::text::decimal(self.0 as nat));
        s
    }
}

/// Compression of the tiles inside an archive. It is the same for every tile of an archive.
#[derive(Debug, Clone, Copy, PartialEq, Eq, Structural)]
pub enum TileCompression {
    Plain,
    Gzip,
    Zstd,
}

impl View for TileCompression {
    type V = TileCompression;

    open spec fn view(&self) -> TileCompression {
        *self
    }
}

impl TileCompression {
    /// The compression that the suffix of a file name tells.
    pub open spec fn of_name(name: Seq<char>) -> Self {
        if ".zst"@.is_suffix_of(name) {
            Self::Zstd
        } else if ".gz"@.is_suffix_of(name) {
            Self::Gzip
        } else {
            Self::Plain
        }
    }

    /// The content-coding token.
    pub open spec fn token(self) -> Seq<char> {
        match self {
            Self::Plain => "identity"@,
            Self::Gzip => "gzip"@,
            Self::Zstd => "zstd"@,
        }
    }

    /// Tells the compression from the suffix of a file name.
    pub fn from_name(name: &str) -> (c: Self)
        ensures
            c == Self::of_name(name@),
    {
        if ends_with(name, ".zst") {
            Self::Zstd
        } else if ends_with(name, ".gz") {
            Self::Gzip
        } else {
            Self::Plain
        }
    }

    /// Token used on the wire in `Accept-Encoding` and `Content-Encoding`.
    ///
    /// [`Self::Plain`] gives the conventional `"identity"`; a response leaves `Content-Encoding`
    /// out in that case.
    pub fn header_name(self) -> (s: &'static str)
        ensures
            s@ == self.token(),
    {
        match self {
            Self::Plain => "identity",
            Self::Gzip => "gzip",
            Self::Zstd => "zstd",
        }
    }

    /// Label for logs: the wire token, but `none` for plain tiles.
    pub fn to_text(&self) -> (s: &'static str)
        ensures
            s@ == (if *self == TileCompression::Plain {
                "none"@
            } else {
                self.token()
            }),
    {
        match *self {
            Self::Plain => "none",
            other => other.header_name(),
        }
    }
}

/// `n` in decimal with leading zeros up to `width` digits.
pub open spec fn padded(n: nat, width: nat) -> Seq<char> {
    let digits = crate::text::decimal(n);
    Seq::new((width - digits.len()) as nat, |i: int| '0') + digits
}

/// The text in groups of three with slashes between them.
pub open spec fn grouped(digits: Seq<char>) -> Seq<char>
    decreases digits.len(),
{
    if digits.len() <= 3 {
        digits
    } else {
        digits.take(3).push('/') + grouped(digits.skip(3))
    }
}

/// The path of a tile: the level, then the index padded to `width` digits and split into groups,
/// then a suffix.
pub open spec fn tile_path(level: u32, index: u32, width: nat, suffix: Seq<char>) -> Seq<char> {
    crate::text::decimal(level as nat).push('/') + (grouped(padded(index as nat, width)) + suffix)
}

proof fn lemma_grouped(digits: Seq<char>)
    requires
        forall|i: int| 0 <= i < digits.len() ==> crate::text::is_digit(#[trigger] digits[i]),
    ensures
        without_slashes(grouped(digits)) == digits,
        forall|i: int| 0 <= i < grouped(digits).len() ==> #[trigger] grouped(digits)[i] != '.',
    decreases digits.len(),
{
    let keep = |c: char| c != '/';
    if digits.len() <= 3 {
        lemma_keeps_all(digits);
    } else {
        let head = digits.take(3);
        let rest = digits.skip(3);
        assert forall|i: int| 0 <= i < rest.len() implies crate::text::is_digit(
            #[trigger] rest[i],
        ) by {
            assert(rest[i] == digits[i + 3]);
        }
        lemma_keeps_all(head);
        lemma_grouped(rest);
        assert(head.push('/').filter(keep) =~= head) by {
            reveal(Seq::filter);
            assert(head.push('/').drop_last() =~= head);
        }
        Seq::filter_distributes_over_add(head.push('/'), grouped(rest), keep);
        assert(head + rest =~= digits);
        assert forall|i: int| 0 <= i < grouped(digits).len() implies #[trigger] grouped(digits)[i]
            != '.' by {
            if i >= 4 {
                assert(grouped(digits)[i] == grouped(rest)[i - 4]);
            } else if i < 3 {
                assert(grouped(digits)[i] == digits[i]);
            }
        }
    }
}

proof fn lemma_keeps_all(s: Seq<char>)
    requires
        forall|i: int| 0 <= i < s.len() ==> crate::text::is_digit(#[trigger] s[i]),
    ensures
        without_slashes(s) == s,
    decreases s.len(),
{
    reveal(Seq::filter);
    if s.len() != 0 {
        lemma_keeps_all(s.drop_last());
        assert(s.drop_last().push(s.last()) =~= s);
    }
}

/// A path in its parts: the level, the digits of the index with slashes among them, the suffix.
pub proof fn law_path_parts(level: Seq<char>, digits: Seq<char>, suffix: Seq<char>)
    requires
        !level.contains('/'),
        !digits.contains('.'),
        suffix.len() == 0 || suffix[0] == '.',
    ensures
        id_of_path(level.push('/') + (digits + suffix)) == (match (
            crate::text::u32_of(level),
            crate::text::u32_of(without_slashes(digits)),
        ) {
            (Some(l), Some(i)) => Some(packed(l, i)),
            _ => None,
        }),
{
    lemma_path_parts(level, digits, suffix);
}

#[verifier::rlimit(40)]
proof fn lemma_path_parts(level: Seq<char>, digits: Seq<char>, suffix: Seq<char>)
    requires
        !level.contains('/'),
        !digits.contains('.'),
        suffix.len() == 0 || suffix[0] == '.',
    ensures
        id_of_path(level.push('/') + (digits + suffix)) == (match (
            crate::text::u32_of(level),
            crate::text::u32_of(without_slashes(digits)),
        ) {
            (Some(l), Some(i)) => Some(packed(l, i)),
            _ => None,
        }),
{
    let tail = digits + suffix;
    let path = level.push('/') + tail;
    assert forall|j: int| 0 <= j < level.len() implies path[j] != '/' by {
        assert(level.contains(level[j]));
    }
    crate::text::lemma_find_is(path, '/', level.len() as int);
    assert(path.take(level.len() as int) =~= level);
    assert(path.skip(level.len() as int + 1) =~= tail);
    assert forall|j: int| 0 <= j < digits.len() implies tail[j] != '.' by {
        assert(digits.contains(digits[j]));
    }
    crate::text::lemma_find_is(tail, '.', digits.len() as int);
    assert(tail.take(digits.len() as int) =~= digits);
    assert(suffix.len() == 0 ==> tail =~= digits);
}

/// A tile path names the packed id of its level and index, however far the index is padded and
/// whatever suffixes follow it.
#[verifier::rlimit(40)]
pub proof fn law_path_names_tile(level: u32, index: u32, width: nat, suffix: Seq<char>)
    requires
        crate::text::decimal(index as nat).len() <= width,
        suffix.len() == 0 || suffix[0] == '.',
    ensures
        id_of_path(tile_path(level, index, width, suffix)) == Some(packed(level, index)),
{
    let level_text = crate::text::decimal(level as nat);
    let index_text = crate::text::decimal(index as nat);
    let digits = padded(index as nat, width);
    crate::text::lemma_decimal(level as nat);
    crate::text::lemma_decimal(index as nat);
    let zeros = Seq::new((width - index_text.len()) as nat, |i: int| '0');
    assert(digits == zeros + index_text);
    assert forall|i: int| 0 <= i < digits.len() implies crate::text::is_digit(
        #[trigger] digits[i],
    ) by {
        if i >= zeros.len() {
            assert(digits[i] == index_text[i - zeros.len()]);
        }
    }
    crate::text::lemma_leading_zeros(zeros, index_text);
    lemma_grouped(digits);
    lemma_path_parts(level_text, grouped(digits), suffix);
}

/// Level and index can be read back from a packed id, so no two tiles share one.
pub proof fn law_packed_unpacks(level: u32, index: u32)
    requires
        level < 8,
        index < 0x2000_0000,
    ensures
        packed(level, index) & 7 == level,
        packed(level, index) >> 3u32 == index,
{
    assert((level | (index << 3u32)) & 7 == level) by (bit_vector)
        requires
            level < 8,
    ;
    assert((level | (index << 3u32)) >> 3u32 == index) by (bit_vector)
        requires
            level < 8,
            index < 0x2000_0000,
    ;
}

/// Where the slashes stand in the index of a tile path does not matter.
pub proof fn law_grouping_does_not_matter(
    level: Seq<char>,
    a: Seq<char>,
    b: Seq<char>,
    suffix: Seq<char>,
)
    requires
        !level.contains('/'),
        !a.contains('.'),
        !b.contains('.'),
        without_slashes(a) == without_slashes(b),
        suffix.len() == 0 || suffix[0] == '.',
    ensures
        id_of_path(level.push('/') + (a + suffix)) == id_of_path(level.push('/') + (b + suffix)),
{
    lemma_path_parts(level, a, suffix);
    lemma_path_parts(level, b, suffix);
}

/// A path without a slash names no tile.
pub proof fn law_path_needs_level(path: Seq<char>)
    requires
        !path.contains('/'),
    ensures
        id_of_path(path) is None,
{
    crate::text::law_split_once(path, '/', Seq::empty());
}

/// Taking the slashes out of a text keeps every other character, in order.
pub proof fn law_without_slashes(a: Seq<char>, b: Seq<char>)
    ensures
        without_slashes(a + seq!['/'] + b) == without_slashes(a) + without_slashes(b),
        !a.contains('/') ==> without_slashes(a) == a,
        !without_slashes(a).contains('/'),
{
    let keep = |c: char| c != '/';
    Seq::filter_distributes_over_add(a + seq!['/'], b, keep);
    Seq::filter_distributes_over_add(a, seq!['/'], keep);
    assert(seq!['/'].filter(keep) =~= Seq::<char>::empty()) by {
        reveal(Seq::filter);
        reveal_with_fuel(Seq::filter, 2);
    }
    assert(without_slashes(a) + Seq::<char>::empty() =~= without_slashes(a));
    if !a.contains('/') {
        lemma_keeps_without(a);
    }
    assert forall|i: int| 0 <= i < without_slashes(a).len() implies without_slashes(a)[i] != '/' by {
        a.lemma_filter_pred(keep, i);
    }
}

proof fn lemma_keeps_without(s: Seq<char>)
    requires
        !s.contains('/'),
    ensures
        without_slashes(s) == s,
    decreases s.len(),
{
    reveal(Seq::filter);
    if s.len() != 0 {
        assert(s.contains(s[s.len() - 1]));
        assert forall|i: int| 0 <= i < s.drop_last().len() implies s.drop_last()[i] != '/' by {
            assert(s.contains(s[i]));
        }
        lemma_keeps_without(s.drop_last());
        assert(s.drop_last().push(s.last()) =~= s);
    }
}

/// A packed id holds the level in its three lowest bits and the index above them; bits of either
/// that do not fit there are merged or lost.
pub proof fn law_packed_bits(level: u32, index: u32)
    ensures
        packed(level, index) & 7 == level & 7,
        packed(level, index) >> 3u32 == (level >> 3u32) | (index & 0x1fff_ffff),
        level < 8 && index < 0x2000_0000 ==> packed(level, index) == level + 8 * index,
{
    assert((level | (index << 3u32)) & 7 == level & 7) by (bit_vector);
    assert((level | (index << 3u32)) >> 3u32 == (level >> 3u32) | (index & 0x1fff_ffff))
        by (bit_vector);
    if level < 8 && index < 0x2000_0000 {
        assert((level | (index << 3u32)) == level + 8 * index) by (bit_vector)
            requires
                level < 8,
                index < 0x2000_0000,
        ;
    }
}

/// The end of a name tells the compression: `.zst` and `.gz`, and no other end.
pub proof fn law_suffix_tells_compression(stem: Seq<char>, name: Seq<char>)
    ensures
        TileCompression::of_name(stem + ".zst"@) == TileCompression::Zstd,
        TileCompression::of_name(stem + ".gz"@) == TileCompression::Gzip,
        TileCompression::of_name(name) == TileCompression::Zstd ==> ".zst"@.is_suffix_of(name),
        TileCompression::of_name(name) == TileCompression::Gzip ==> ".gz"@.is_suffix_of(name),
        ".zst"@.is_suffix_of(name) || ".gz"@.is_suffix_of(name) ==> TileCompression::of_name(name)
            != TileCompression::Plain,
{
    reveal_strlit(".zst");
    reveal_strlit(".gz");
    let a = stem + ".zst"@;
    let b = stem + ".gz"@;
    assert(a.subrange(a.len() - 4, a.len() as int) =~= ".zst"@);
    assert(b.subrange(b.len() - 3, b.len() as int) =~= ".gz"@);
    assert(b.last() == 'z' && ".zst"@.last() == 't');
    if ".zst"@.is_suffix_of(b) {
        assert(b.subrange(b.len() - 4, b.len() as int).last() == b.last());
    }
}

/// The tokens of the codings on the wire, all of them different.
pub proof fn law_tokens(coding: TileCompression)
    ensures
        coding == TileCompression::Plain <==> coding.token() == "identity"@,
        coding == TileCompression::Gzip <==> coding.token() == "gzip"@,
        coding == TileCompression::Zstd <==> coding.token() == "zstd"@,
{
    reveal_strlit("identity");
    reveal_strlit("gzip");
    reveal_strlit("zstd");
    assert("gzip"@[0] != "zstd"@[0]);
}

} // verus!
