//! What tile requests are answered: conditional requests, content codings and headers.

use vstd::prelude::*;
use vstd::slice::slice_subrange;
use vstd::string::*;

use crate::archive::{ArchiveMeta, S3Archive};
use crate::codec::{compress, decompress, DecodeError};
use crate::error::S3Error;
use crate::etag::{split_tags, without_weak_mark};
use crate::range::ByteRange;
use crate::text::{
    append_decimal, chars_of, eq_ignore_case, find_char, same_chars, split_chars, string_of, trimmed,
};
use crate::tile::{TileCompression, TileId};

verus! {

/// The request headers that a tile request is answered by, as raw bytes.
#[derive(Debug)]
pub struct RequestHeaders {
    pub if_none_match: Option<Vec<u8>>,
    pub accept_encoding: Option<Vec<u8>>,
}

/// A byte that can stand in a header value that is read as text.
pub open spec fn is_visible(b: u8) -> bool {
    0x20 <= b < 0x7f || b == 0x09
}

/// A header value as text. A value with other than visible ASCII bytes, spaces and tabs is not
/// read at all.
pub open spec fn header_text(value: Option<Seq<u8>>) -> Option<Seq<char>> {
    match value {
        Some(bytes) if forall|i: int| 0 <= i < bytes.len() ==> is_visible(#[trigger] bytes[i]) => Some(
            bytes.map_values(|b: u8| b as char),
        ),
        _ => None,
    }
}

/// Reads a header value as text.
fn read_header(value: &Option<Vec<u8>>) -> (text: Option<Vec<char>>)
    ensures
        text.deep_view() == header_text(value.deep_view()),
{
    let bytes = match value {
        Some(bytes) => bytes,
        None => return None,
    };
    let mut text: Vec<char> = Vec::new();
    let mut i: usize = 0;
    assert(value.deep_view() matches Some(d) && d =~= bytes@);
    while i < bytes.len()
        invariant
            i <= bytes@.len(),
            value.deep_view() == Some(bytes@),
            forall|j: int| 0 <= j < i ==> is_visible(#[trigger] bytes@[j]),
            text@ == bytes@.take(i as int).map_values(|b: u8| b as char),
        decreases bytes@.len() - i,
    {
        let b = bytes[i];
        if !((0x20 <= b && b < 0x7f) || b == 0x09) {
            assert(!is_visible(bytes@[i as int]));
            return None;
        }
        text.push(b as char);
        i += 1;
        assert(text@ =~= bytes@.take(i as int).map_values(|b: u8| b as char));
    }
    assert(bytes@.take(i as int) =~= bytes@);
    assert(text.deep_view() =~= text@);
    Some(text)
}

/// The wildcard, or the ETag in a weak comparison: it does not matter which of the two is weak.
pub open spec fn is_tag(tag: Seq<char>, etag: Seq<char>) -> bool {
    tag == "*"@ || crate::etag::opaque_tag(tag)
        == crate::etag::opaque_tag(etag)
}

/// Whether one of the tags of an `If-None-Match` value is the wildcard or the ETag.
pub open spec fn names_etag(value: Seq<char>, etag: Seq<char>) -> bool {
    exists|i: int|
        0 <= i < crate::etag::tag_list(value).len() && is_tag(
            crate::text::trim(#[trigger] crate::etag::tag_list(value)[i]),
            etag,
        )
}

/// Whether the client's copy is current.
pub open spec fn not_modified(if_none_match: Option<Seq<u8>>, etag: Seq<char>) -> bool {
    match header_text(if_none_match) {
        Some(value) => names_etag(value, etag),
        None => false,
    }
}

/// Tells whether a tag of `If-None-Match` matches the ETag, or the wildcard `*` is among them, so
/// that the answer is "not modified".
///
/// As RFC 9110 has it, the comparison of entity tags is weak, so that `W/"x"` matches `"x"`, and a
/// comma inside the quotes of an entity tag belongs to the tag. Any other text is compared as it
/// is.
pub fn is_not_modified(request_headers: &RequestHeaders, etag: &str) -> (b: bool)
    ensures
        b == not_modified(request_headers.if_none_match.deep_view(), etag@),
{
    let value = match read_header(&request_headers.if_none_match) {
        Some(value) => value,
        None => return false,
    };
    assert(value.deep_view() =~= value@);
    let etag_chars = chars_of(etag);
    let held = without_weak_mark(etag_chars.as_slice());
    let wildcard = chars_of("*");
    let tags = split_tags(value.as_slice());
    let ghost pieces = crate::etag::tag_list(value@);
    let mut i: usize = 0;
    while i < tags.len()
        invariant
            i <= tags@.len(),
            crate::text::texts(tags@) == pieces,
            pieces == crate::etag::tag_list(value@),
            held@ == crate::etag::opaque_tag(etag@),
            wildcard@ == "*"@,
            not_modified(request_headers.if_none_match.deep_view(), etag@) == names_etag(
                value@,
                etag@,
            ),
            forall|j: int|
                0 <= j < i ==> !is_tag(crate::text::trim(#[trigger] pieces[j]), etag@),
        decreases tags@.len() - i,
    {
        let tag = trimmed(tags[i]);
        assert(pieces[i as int] == tags@[i as int]@);
        if same_chars(tag, wildcard.as_slice()) || same_chars(without_weak_mark(tag), held) {
            return true;
        }
        i += 1;
    }
    assert(pieces.len() == tags@.len());
    false
}

/// Name and parameters of one offer in an `Accept-Encoding` value.
pub open spec fn offer(piece: Seq<char>) -> (Seq<char>, Seq<char>) {
    let token = crate::text::trim(piece);
    match crate::text::split_once(token, ';') {
        Some(parts) => parts,
        None => (token, Seq::empty()),
    }
}

/// The text of a quality parameter `q=..`, or nothing for another parameter.
pub open spec fn quality(param: Seq<char>) -> Option<Seq<char>> {
    let p = crate::text::trim(param);
    if "q="@.is_prefix_of(p) {
        Some(crate::text::trim(p.skip("q="@.len() as int)))
    } else {
        None
    }
}

/// The quality texts among parameters, in order.
pub open spec fn qualities_among(params: Seq<Seq<char>>) -> Seq<Seq<char>>
    decreases params.len(),
{
    if params.len() == 0 {
        Seq::empty()
    } else {
        let before = qualities_among(params.drop_last());
        match quality(params.last()) {
            Some(text) => before.push(text),
            None => before,
        }
    }
}

/// The quality texts of one offer, in order.
pub open spec fn qualities(piece: Seq<char>) -> Seq<Seq<char>> {
    qualities_among(crate::text::split(offer(piece).1, ';'))
}

/// The quality texts of several offers, in order.
pub open spec fn all_qualities(pieces: Seq<Seq<char>>) -> Seq<Seq<char>>
    decreases pieces.len(),
{
    if pieces.len() == 0 {
        Seq::empty()
    } else {
        all_qualities(pieces.drop_last()) + qualities(pieces.last())
    }
}

/// The texts of a list of strings.
pub open spec fn string_texts(list: Seq<String>) -> Seq<Seq<char>> {
    list.map_values(|s: String| s@)
}

fn prefix_matches(s: &[char], prefix: &str) -> (n: Option<usize>)
    ensures
        match n {
            Some(len) => prefix@.is_prefix_of(s@) && len == prefix@.len(),
            None => !prefix@.is_prefix_of(s@),
        },
{
    let wanted = chars_of(prefix);
    if s.len() < wanted.len() {
        return None;
    }
    let start = slice_subrange(s, 0, wanted.len());
    if same_chars(start, wanted.as_slice()) {
        Some(wanted.len())
    } else {
        None
    }
}

fn read_offer<'a>(piece: &'a [char]) -> (parts: (&'a [char], &'a [char]))
    ensures
        (parts.0@, parts.1@) == offer(piece@),
{
    let token = trimmed(piece);
    let i = find_char(token, ';');
    proof {
        crate::text::lemma_find(token@, ';');
    }
    let name = slice_subrange(token, 0, i);
    if i < token.len() {
        let params = slice_subrange(token, i + 1, token.len());
        assert(name@ =~= token@.take(i as int));
        assert(params@ =~= token@.skip(i + 1));
        (name, params)
    } else {
        let params = slice_subrange(token, i, i);
        assert(name@ =~= token@);
        assert(params@ =~= Seq::<char>::empty());
        (name, params)
    }
}

fn read_qualities(params: &[char]) -> (found: Vec<String>)
    ensures
        string_texts(found@) == qualities_among(crate::text::split(params@, ';')),
{
    let pieces = split_chars(params, ';');
    let ghost all = crate::text::texts(pieces@);
    let mut found: Vec<String> = Vec::new();
    let mut i: usize = 0;
    assert(string_texts(found@) =~= qualities_among(all.take(0)));
    while i < pieces.len()
        invariant
            i <= pieces@.len(),
            all == crate::text::texts(pieces@),
            string_texts(found@) == qualities_among(all.take(i as int)),
        decreases pieces@.len() - i,
    {
        let p = trimmed(pieces[i]);
        let ghost before = string_texts(found@);
        proof {
            assert(all[i as int] == pieces@[i as int]@);
            assert(all.take(i + 1).drop_last() =~= all.take(i as int));
        }
        if let Some(n) = prefix_matches(p, "q=") {
            let rest = slice_subrange(p, n, p.len());
            assert(rest@ =~= p@.skip("q="@.len() as int));
            let text = string_of(trimmed(rest));
            found.push(text);
            assert(string_texts(found@) =~= before.push(text@));
        }
        i += 1;
    }
    assert(all.take(i as int) =~= all);
    found
}

/// The quality texts in `Accept-Encoding`, in order.
pub open spec fn header_qualities(accept_encoding: Option<Seq<u8>>) -> Seq<Seq<char>> {
    match header_text(accept_encoding) {
        Some(value) => all_qualities(crate::text::split(value, ',')),
        None => Seq::empty(),
    }
}

/// Lists the quality texts in `Accept-Encoding`. Those of them that read as a number that is not
/// positive refuse the coding that they stand with; which ones do is for the caller to tell.
pub fn quality_texts(headers: &RequestHeaders) -> (found: Vec<String>)
    ensures
        string_texts(found@) == header_qualities(headers.accept_encoding.deep_view()),
{
    let mut found: Vec<String> = Vec::new();
    assert(string_texts(found@) =~= Seq::<Seq<char>>::empty());
    let value = match read_header(&headers.accept_encoding) {
        Some(value) => value,
        None => return found,
    };
    assert(value.deep_view() =~= value@);
    let pieces = split_chars(value.as_slice(), ',');
    let ghost all = crate::text::texts(pieces@);
    let mut i: usize = 0;
    assert(all_qualities(all.take(0)) =~= Seq::<Seq<char>>::empty());
    while i < pieces.len()
        invariant
            i <= pieces@.len(),
            all == crate::text::texts(pieces@),
            string_texts(found@) == all_qualities(all.take(i as int)),
        decreases pieces@.len() - i,
    {
        let (_, params) = read_offer(pieces[i]);
        let mut more = read_qualities(params);
        let ghost before = string_texts(found@);
        let ghost added = string_texts(more@);
        proof {
            assert(all[i as int] == pieces@[i as int]@);
            assert(all.take(i + 1).drop_last() =~= all.take(i as int));
        }
        found.append(&mut more);
        assert(string_texts(found@) =~= before + added);
        i += 1;
    }
    assert(all.take(i as int) =~= all);
    found
}

/// Whether an offer accepts `coding`: it has its name, and none of its quality texts is
/// refused.
pub open spec fn accepts(
    piece: Seq<char>,
    coding: TileCompression,
    refused: Seq<Seq<char>>,
) -> bool {
    &&& crate::text::same_ignoring_case(offer(piece).0, coding.token())
    &&& forall|i: int|
        0 <= i < qualities(piece).len() ==> !refused.contains(#[trigger] qualities(piece)[i])
}

/// Whether an `Accept-Encoding` value accepts `coding`.
pub open spec fn accepted(
    accept_encoding: Option<Seq<u8>>,
    coding: TileCompression,
    refused: Seq<Seq<char>>,
) -> bool {
    match header_text(accept_encoding) {
        Some(value) => exists|i: int|
            0 <= i < crate::text::split(value, ',').len() && accepts(
                #[trigger] crate::text::split(value, ',')[i],
                coding,
                refused,
            ),
        None => false,
    }
}

/// The coding of the response: the one on disk when it is accepted, so that nothing has to be
/// decoded; else zstd before gzip; else plain.
pub open spec fn negotiated(source: TileCompression, zstd_ok: bool, gzip_ok: bool) -> TileCompression {
    if source == TileCompression::Zstd && zstd_ok {
        TileCompression::Zstd
    } else if source == TileCompression::Gzip && gzip_ok {
        TileCompression::Gzip
    } else if zstd_ok {
        TileCompression::Zstd
    } else if gzip_ok {
        TileCompression::Gzip
    } else {
        TileCompression::Plain
    }
}

/// The coding of the response to a request.
pub open spec fn response_encoding(
    accept_encoding: Option<Seq<u8>>,
    source: TileCompression,
    refused: Seq<Seq<char>>,
) -> TileCompression {
    negotiated(
        source,
        accepted(accept_encoding, TileCompression::Zstd, refused),
        accepted(accept_encoding, TileCompression::Gzip, refused),
    )
}

fn is_listed(text: &String, list: &Vec<String>) -> (b: bool)
    ensures
        b == string_texts(list@).contains(text@),
{
    let ghost all = string_texts(list@);
    let mut i: usize = 0;
    while i < list.len()
        invariant
            i <= list@.len(),
            all == string_texts(list@),
            forall|j: int| 0 <= j < i ==> all[j] != text@,
        decreases list@.len() - i,
    {
        assert(all[i as int] == list@[i as int]@);
        if list[i] == *text {
            return true;
        }
        i += 1;
    }
    false
}

fn none_listed(texts: &Vec<String>, list: &Vec<String>) -> (b: bool)
    ensures
        b == (forall|i: int|
            0 <= i < string_texts(texts@).len() ==> !string_texts(list@).contains(
                #[trigger] string_texts(texts@)[i],
            )),
{
    let ghost all = string_texts(texts@);
    let mut i: usize = 0;
    while i < texts.len()
        invariant
            i <= texts@.len(),
            all == string_texts(texts@),
            forall|j: int| 0 <= j < i ==> !string_texts(list@).contains(#[trigger] all[j]),
        decreases texts@.len() - i,
    {
        assert(all[i as int] == texts@[i as int]@);
        if is_listed(&texts[i], list) {
            return false;
        }
        i += 1;
    }
    true
}

/// Picks the coding of a response from `Accept-Encoding` and the compression on disk.
///
/// `refused` holds the quality texts that read as a number that is not positive: `gzip;q=0`
/// refuses gzip.
pub fn pick_response_encoding(
    headers: &RequestHeaders,
    source: TileCompression,
    refused: &Vec<String>,
) -> (encoding: TileCompression)
    ensures
        encoding == response_encoding(
            headers.accept_encoding.deep_view(),
            source,
            string_texts(refused@),
        ),
{
    let mut zstd_ok: bool = false;
    let mut gzip_ok: bool = false;
    if let Some(value) = read_header(&headers.accept_encoding) {
        assert(value.deep_view() =~= value@);
        let pieces = split_chars(value.as_slice(), ',');
        let ghost all = crate::text::split(value@, ',');
        let ghost no = string_texts(refused@);
        let mut i: usize = 0;
        while i < pieces.len()
            invariant
                i <= pieces@.len(),
                all == crate::text::texts(pieces@),
                no == string_texts(refused@),
                zstd_ok == (exists|j: int|
                    0 <= j < i && accepts(#[trigger] all[j], TileCompression::Zstd, no)),
                gzip_ok == (exists|j: int|
                    0 <= j < i && accepts(#[trigger] all[j], TileCompression::Gzip, no)),
            decreases pieces@.len() - i,
        {
            let (name, params) = read_offer(pieces[i]);
            let weights = read_qualities(params);
            assert(all[i as int] == pieces@[i as int]@);
            let allowed: bool = none_listed(&weights, refused);
            let is_zstd: bool = eq_ignore_case(name, TileCompression::Zstd.header_name());
            let is_gzip: bool = eq_ignore_case(name, TileCompression::Gzip.header_name());
            if allowed && is_zstd {
                zstd_ok = true;
            }
            if allowed && is_gzip {
                gzip_ok = true;
            }
            proof {
                assert(accepts(all[i as int], TileCompression::Zstd, no) == (allowed && is_zstd));
                assert(accepts(all[i as int], TileCompression::Gzip, no) == (allowed && is_gzip));
            }
            i += 1;
        }
        assert(all.len() == pieces@.len());
    }
    if source == TileCompression::Zstd && zstd_ok {
        TileCompression::Zstd
    } else if source == TileCompression::Gzip && gzip_ok {
        TileCompression::Gzip
    } else if zstd_ok {
        TileCompression::Zstd
    } else if gzip_ok {
        TileCompression::Gzip
    } else {
        TileCompression::Plain
    }
}

/// A response header.
#[derive(Debug)]
pub struct Header {
    pub name: &'static str,
    pub value: String,
}

/// The names and values of a list of headers.
pub open spec fn header_list(headers: Seq<Header>) -> Seq<(Seq<char>, Seq<char>)> {
    headers.map_values(|h: Header| (h.name@, h.value@))
}

/// Whether a text can be a header value: it holds no control character but the tab.
pub open spec fn is_header_value(text: Seq<char>) -> bool {
    forall|i: int| 0 <= i < text.len() ==> is_header_char(#[trigger] text[i])
}

/// A character that can stand in a header value.
pub open spec fn is_header_char(c: char) -> bool {
    (c as u32 >= 0x20 && c as u32 != 0x7f) || c == '\t'
}

/// The header, where the text can be its value.
pub open spec fn header_if_valid(name: Seq<char>, text: Seq<char>) -> Seq<(Seq<char>, Seq<char>)> {
    if is_header_value(text) {
        seq![(name, text)]
    } else {
        Seq::empty()
    }
}

/// The value of `Cache-Control`.
pub open spec fn cache_control(max_age: u32) -> Seq<char> {
    "public, max-age="@ + crate::text::decimal(max_age as nat) + ", immutable"@
}

/// The headers of every tile response. A text of the archive that cannot be a header value has
/// its header left out.
pub open spec fn cache_headers(
    meta: crate::archive::ArchiveMetaView,
    max_age: u32,
) -> Seq<(Seq<char>, Seq<char>)> {
    header_if_valid("etag"@, meta.etag) + header_if_valid("last-modified"@, meta.last_modified)
        + seq![("cache-control"@, cache_control(max_age))] + seq![
        ("vary"@, "Accept-Encoding"@),
    ] + header_if_valid("x-dataset-id"@, meta.dataset_id)
}

fn can_be_value(text: &str) -> (b: bool)
    ensures
        b == is_header_value(text@),
{
    let chars = chars_of(text);
    let mut i: usize = 0;
    while i < chars.len()
        invariant
            i <= chars@.len(),
            chars@ == text@,
            forall|j: int| 0 <= j < i ==> is_header_char(#[trigger] chars@[j]),
        decreases chars@.len() - i,
    {
        let c = chars[i];
        if !((c as u32 >= 0x20 && c as u32 != 0x7f) || c == '\t') {
            assert(!is_header_char(text@[i as int]));
            return false;
        }
        i += 1;
    }
    true
}

fn push_if_valid(headers: &mut Vec<Header>, name: &'static str, value: &str)
    ensures
        header_list(final(headers)@) == header_list(old(headers)@) + header_if_valid(
            name@,
            value@,
        ),
{
    if can_be_value(value) {
        let h = Header { name, value: value.to_owned() };
        headers.push(h);
        assert(header_list(headers@) =~= header_list(old(headers)@) + seq![(name@, value@)]);
    } else {
        assert(header_list(headers@) =~= header_list(old(headers)@) + Seq::empty());
    }
}

/// Builds the headers that every tile response carries for caches between here and the client.
pub fn build_cache_headers(meta: &ArchiveMeta, cache_max_age: u32) -> (headers: Vec<Header>)
    ensures
        header_list(headers@) == cache_headers(meta@, cache_max_age),
{
    let mut headers: Vec<Header> = Vec::new();
    assert(header_list(headers@) =~= Seq::<(Seq<char>, Seq<char>)>::empty());
    push_if_valid(&mut headers, "etag", meta.etag.as_str());
    push_if_valid(&mut headers, "last-modified", meta.last_modified.as_str());
    let ghost before = header_list(headers@);
    let mut text = "public, max-age=".to_owned();
    append_decimal(&mut text, cache_max_age as u64);
    text.append(", immutable");
    headers.push(Header { name: "cache-control", value: text });
    assert(header_list(headers@) =~= before + seq![("cache-control"@, text@)]);
    let ghost before = header_list(headers@);
    headers.push(Header { name: "vary", value: "Accept-Encoding".to_owned() });
    assert(header_list(headers@) =~= before + seq![("vary"@, "Accept-Encoding"@)]);
    push_if_valid(&mut headers, "x-dataset-id", meta.dataset_id.as_str());
    assert(header_list(headers@) =~= cache_headers(meta@, cache_max_age));
    headers
}

/// What a tile request is answered.
#[derive(Debug)]
pub enum TileAnswer {
    /// The client's copy is current.
    NotModified,
    /// The path is not a tile path.
    BadRequest,
    /// The archive has no such tile.
    NotFound,
    /// The tile could not be read, for the reason to be logged.
    Failed(String),
    /// The headers of the tile.
    Head { content_encoding: Option<&'static str>, content_length: Option<u32> },
    /// The tile.
    Body { content_encoding: Option<&'static str>, body: Vec<u8> },
}

/// A [`TileAnswer`] with its texts as characters.
pub enum TileAnswerView {
    NotModified,
    BadRequest,
    NotFound,
    Failed(Seq<char>),
    Head { content_encoding: Option<Seq<char>>, content_length: Option<u32> },
    Body { content_encoding: Option<Seq<char>>, body: Seq<u8> },
}

/// An optional text as characters.
pub open spec fn text_of(s: Option<&'static str>) -> Option<Seq<char>> {
    match s {
        Some(s) => Some(s@),
        None => None,
    }
}

impl View for TileAnswer {
    type V = TileAnswerView;

    open spec fn view(&self) -> TileAnswerView {
        match *self {
            TileAnswer::NotModified => TileAnswerView::NotModified,
            TileAnswer::BadRequest => TileAnswerView::BadRequest,
            TileAnswer::NotFound => TileAnswerView::NotFound,
            TileAnswer::Failed(why) => TileAnswerView::Failed(why@),
            TileAnswer::Head { content_encoding, content_length } => TileAnswerView::Head {
                content_encoding: text_of(content_encoding),
                content_length,
            },
            TileAnswer::Body { content_encoding, body } => TileAnswerView::Body {
                content_encoding: text_of(content_encoding),
                body: body@,
            },
        }
    }
}

impl TileAnswerView {
    /// The HTTP status code.
    pub open spec fn status(self) -> u16 {
        match self {
            TileAnswerView::NotModified => 304,
            TileAnswerView::BadRequest => 400,
            TileAnswerView::NotFound => 404,
            TileAnswerView::Failed(_) => 500,
            TileAnswerView::Head { .. } => 200,
            TileAnswerView::Body { .. } => 200,
        }
    }
}

impl TileAnswer {
    /// The HTTP status code.
    pub fn status(&self) -> (code: u16)
        ensures
            code == self@.status(),
    {
        match self {
            TileAnswer::NotModified => 304,
            TileAnswer::BadRequest => 400,
            TileAnswer::NotFound => 404,
            TileAnswer::Failed(_) => 500,
            TileAnswer::Head { .. } => 200,
            TileAnswer::Body { .. } => 200,
        }
    }
}

/// A header that is there only when it has a value.
pub open spec fn header_if_some(name: Seq<char>, value: Option<Seq<char>>) -> Seq<
    (Seq<char>, Seq<char>),
> {
    match value {
        Some(value) => seq![(name, value)],
        None => Seq::empty(),
    }
}

/// The headers of an answer itself, beside those of [`cache_headers`]. The headers of a tile say
/// what its body holds; the other answers have no body.
pub open spec fn answer_headers(answer: TileAnswerView) -> Seq<(Seq<char>, Seq<char>)> {
    let content_type = seq![("content-type"@, "application/octet-stream"@)];
    match answer {
        TileAnswerView::Head { content_encoding, content_length } => content_type
            + header_if_some("content-encoding"@, content_encoding) + header_if_some(
            "content-length"@,
            match content_length {
                Some(n) => Some(crate::text::decimal(n as nat)),
                None => None,
            },
        ),
        TileAnswerView::Body { content_encoding, .. } => content_type + header_if_some(
            "content-encoding"@,
            content_encoding,
        ),
        _ => Seq::empty(),
    }
}

fn content_headers(content_encoding: Option<&'static str>) -> (headers: Vec<Header>)
    ensures
        header_list(headers@) == seq![("content-type"@, "application/octet-stream"@)]
            + header_if_some("content-encoding"@, text_of(content_encoding)),
{
    let mut headers: Vec<Header> = Vec::new();
    headers.push(Header { name: "content-type", value: "application/octet-stream".to_owned() });
    assert(header_list(headers@) =~= seq![("content-type"@, "application/octet-stream"@)]);
    let ghost before = header_list(headers@);
    if let Some(token) = content_encoding {
        headers.push(Header { name: "content-encoding", value: token.to_owned() });
        assert(header_list(headers@) =~= before + seq![("content-encoding"@, token@)]);
    } else {
        assert(before =~= before + Seq::empty());
    }
    headers
}

impl TileAnswer {
    /// The headers of the answer itself.
    pub fn headers(&self) -> (headers: Vec<Header>)
        ensures
            header_list(headers@) == answer_headers(self@),
    {
        match self {
            TileAnswer::Head { content_encoding, content_length } => {
                let mut headers = content_headers(*content_encoding);
                let ghost before = header_list(headers@);
                if let Some(n) = *content_length {
                    let mut text = String::new();
                    append_decimal(&mut text, n as u64);
                    assert(text@ =~= crate::text::decimal(n as nat));
                    headers.push(Header { name: "content-length", value: text });
                    assert(header_list(headers@) =~= before + seq![("content-length"@, text@)]);
                } else {
                    assert(before =~= before + Seq::empty());
                }
                headers
            },
            TileAnswer::Body { content_encoding, .. } => content_headers(*content_encoding),
            _ => {
                let headers: Vec<Header> = Vec::new();
                assert(header_list(headers@) =~= Seq::<(Seq<char>, Seq<char>)>::empty());
                headers
            },
        }
    }
}

/// The value of `Content-Encoding`; a plain response has none.
pub open spec fn content_encoding_of(encoding: TileCompression) -> Option<Seq<char>> {
    if encoding == TileCompression::Plain {
        None
    } else {
        Some(encoding.token())
    }
}

fn content_encoding(encoding: TileCompression) -> (value: Option<&'static str>)
    ensures
        text_of(value) == content_encoding_of(encoding),
{
    if encoding != TileCompression::Plain {
        Some(encoding.header_name())
    } else {
        None
    }
}

/// What a `HEAD` request for a tile is answered. The length is told only when the coding of the
/// response is the one on disk: only then the stored size is the size of the body.
pub open spec fn head_answer(
    archive: crate::archive::S3ArchiveView,
    tile_id: TileId,
    encoding: TileCompression,
) -> TileAnswerView {
    if archive.index.tiles.contains_key(tile_id.0) {
        TileAnswerView::Head {
            content_encoding: content_encoding_of(encoding),
            content_length: if encoding == archive.compression {
                Some(archive.index.tiles[tile_id.0].size)
            } else {
                None
            },
        }
    } else {
        TileAnswerView::NotFound
    }
}

/// Answers a `HEAD` request, without reading the tile.
pub fn tile_head(
    archive: &S3Archive,
    tile_id: TileId,
    response_encoding: TileCompression,
) -> (answer: TileAnswer)
    ensures
        answer@ == head_answer(archive@, tile_id, response_encoding),
{
    let size = match archive.tile_size(tile_id) {
        Some(size) => size,
        None => return TileAnswer::NotFound,
    };
    TileAnswer::Head {
        content_encoding: content_encoding(response_encoding),
        content_length: if response_encoding == archive.compression() {
            Some(size)
        } else {
            None
        },
    }
}

/// The answer that carries what decoding a tile gave, coded for the response.
pub open spec fn recoded_answer(
    outcome: Result<Seq<u8>, Seq<char>>,
    encoding: TileCompression,
) -> TileAnswerView {
    match outcome {
        Ok(plain) => TileAnswerView::Body {
            content_encoding: content_encoding_of(encoding),
            body: crate::codec::encoded(plain, encoding),
        },
        Err(what) => TileAnswerView::Failed("decode error: "@ + what),
    }
}

/// What a `GET` request is answered when reading the tile gave `reply`.
pub open spec fn served(
    reply: Result<Seq<u8>, crate::error::S3ErrorView>,
    compression: TileCompression,
    encoding: TileCompression,
) -> TileAnswerView {
    match reply {
        Err(e) => TileAnswerView::Failed("S3 error: "@ + e.message()),
        Ok(tile) => if compression == encoding {
            TileAnswerView::Body { content_encoding: content_encoding_of(encoding), body: tile }
        } else {
            recoded_answer(crate::codec::decoded(tile, compression), encoding)
        },
    }
}

/// Whether a `Content-Encoding`, or that there is none, tells the coding of a body.
pub open spec fn labels(content_encoding: Option<Seq<char>>, coding: TileCompression) -> bool {
    match content_encoding {
        None => coding == TileCompression::Plain,
        Some(token) => {
            ||| token == "gzip"@ && coding == TileCompression::Gzip
            ||| token == "zstd"@ && coding == TileCompression::Zstd
        },
    }
}

/// Codes what decoding a tile gave for the response.
pub fn recode_tile(
    outcome: Result<Vec<u8>, DecodeError>,
    response_encoding: TileCompression,
) -> (answer: TileAnswer)
    ensures
        answer@ == recoded_answer(crate::error::result_view(outcome), response_encoding),
        outcome matches Ok(plain) ==> (answer@ matches TileAnswerView::Body { body, .. }
            && crate::codec::restores(
            crate::codec::decoded(body, response_encoding),
            plain@,
        )),
        answer@ matches TileAnswerView::Body { content_encoding, .. } ==> labels(
            content_encoding,
            response_encoding,
        ),
{
    match outcome {
        Ok(plain) => TileAnswer::Body {
            content_encoding: content_encoding(response_encoding),
            body: compress(plain, response_encoding),
        },
        Err(e) => {
            let mut text = "decode error: ".to_owned();
            text.append(e.message.as_str());
            TileAnswer::Failed(text)
        },
    }
}

/// Answers a `GET` request with the bytes that reading the tile gave, in the negotiated coding.
///
/// Bytes that are stored in that coding are passed through. Others are decoded and coded again,
/// so that a client that decodes the body gets the tile that is stored.
pub fn serve_tile(
    reply: Result<Vec<u8>, S3Error>,
    compression: TileCompression,
    response_encoding: TileCompression,
) -> (answer: TileAnswer)
    ensures
        answer@ == served(crate::error::result_view(reply), compression, response_encoding),
        reply matches Ok(tile) ==> (crate::codec::decoded(tile@, compression) matches Ok(plain)
            ==> (answer@ matches TileAnswerView::Body { body, .. } && crate::codec::restores(
            crate::codec::decoded(body, response_encoding),
            plain,
        ))),
        answer@ matches TileAnswerView::Body { content_encoding, .. } ==> labels(
            content_encoding,
            response_encoding,
        ),
{
    let tile = match reply {
        Ok(tile) => tile,
        Err(e) => {
            let mut text = "S3 error: ".to_owned();
            text.append(e.message().as_str());
            return TileAnswer::Failed(text);
        },
    };
    if compression == response_encoding {
        TileAnswer::Body { content_encoding: content_encoding(response_encoding), body: tile }
    } else {
        recode_tile(decompress(tile, compression), response_encoding)
    }
}

/// What to do about a tile request.
#[derive(Debug)]
pub enum TilePlan {
    /// Answer at once.
    Answer(TileAnswer),
    /// Read this range and serve it in this coding.
    Fetch(ByteRange, TileCompression),
}

/// A [`TilePlan`] with its answer taken by its view.
pub enum TilePlanView {
    Answer(TileAnswerView),
    Fetch(ByteRange, TileCompression),
}

impl View for TilePlan {
    type V = TilePlanView;

    open spec fn view(&self) -> TilePlanView {
        match *self {
            TilePlan::Answer(answer) => TilePlanView::Answer(answer@),
            TilePlan::Fetch(range, encoding) => TilePlanView::Fetch(range, encoding),
        }
    }
}

/// What to do about a request for a tile, which is missing when the path named none. A current
/// copy is confirmed before anything else is looked at.
pub open spec fn planned(
    is_head: bool,
    if_none_match: Option<Seq<u8>>,
    accept_encoding: Option<Seq<u8>>,
    refused: Seq<Seq<char>>,
    etag: Seq<char>,
    archive: crate::archive::S3ArchiveView,
    tile: Option<TileId>,
) -> TilePlanView {
    if not_modified(if_none_match, etag) {
        TilePlanView::Answer(TileAnswerView::NotModified)
    } else {
        match tile {
            None => TilePlanView::Answer(TileAnswerView::BadRequest),
            Some(tile_id) => {
                let encoding = response_encoding(accept_encoding, archive.compression, refused);
                if is_head {
                    TilePlanView::Answer(head_answer(archive, tile_id, encoding))
                } else if archive.index.tiles.contains_key(tile_id.0) {
                    let e = archive.index.tiles[tile_id.0];
                    TilePlanView::Fetch(
                        ByteRange { offset: e.offset, length: e.size as u64 },
                        encoding,
                    )
                } else {
                    TilePlanView::Answer(TileAnswerView::NotFound)
                }
            },
        }
    }
}

fn plan_tile(
    is_head: bool,
    headers: &RequestHeaders,
    refused: &Vec<String>,
    archive: &S3Archive,
    tile_id: TileId,
) -> (plan: TilePlan)
    ensures
        forall|etag: Seq<char>|
            !not_modified(headers.if_none_match.deep_view(), etag) ==> plan@
                == #[trigger] planned(
                is_head,
                headers.if_none_match.deep_view(),
                headers.accept_encoding.deep_view(),
                string_texts(refused@),
                etag,
                archive@,
                Some(tile_id),
            ),
{
    let encoding = pick_response_encoding(headers, archive.compression(), refused);
    if is_head {
        return TilePlan::Answer(tile_head(archive, tile_id, encoding));
    }
    match archive.get_tile(tile_id) {
        Some(range) => TilePlan::Fetch(range, encoding),
        None => TilePlan::Answer(TileAnswer::NotFound),
    }
}

/// The tile that a path names, if it names one.
pub open spec fn tile_at(path: Seq<char>) -> Option<TileId> {
    match crate::tile::id_of_path(path) {
        Some(raw) => Some(TileId(raw)),
        None => None,
    }
}

/// The tile with a packed id.
pub open spec fn tile_with(raw: u32) -> Option<TileId> {
    Some(TileId(raw))
}

/// Plans the answer to a request for the tile at a path.
pub fn get_tile(
    is_head: bool,
    headers: &RequestHeaders,
    refused: &Vec<String>,
    etag: &str,
    archive: &S3Archive,
    path: &str,
) -> (plan: TilePlan)
    ensures
        plan@ == planned(
            is_head,
            headers.if_none_match.deep_view(),
            headers.accept_encoding.deep_view(),
            string_texts(refused@),
            etag@,
            archive@,
            tile_at(path@),
        ),
{
    if is_not_modified(headers, etag) {
        return TilePlan::Answer(TileAnswer::NotModified);
    }
    match TileId::from_path(path) {
        None => TilePlan::Answer(TileAnswer::BadRequest),
        Some(tile_id) => plan_tile(is_head, headers, refused, archive, tile_id),
    }
}

/// Plans the answer to a request for the tile with a packed id.
pub fn get_tile_by_id(
    is_head: bool,
    headers: &RequestHeaders,
    refused: &Vec<String>,
    etag: &str,
    archive: &S3Archive,
    tile_id: u32,
) -> (plan: TilePlan)
    ensures
        plan@ == planned(
            is_head,
            headers.if_none_match.deep_view(),
            headers.accept_encoding.deep_view(),
            string_texts(refused@),
            etag@,
            archive@,
            tile_with(tile_id),
        ),
{
    if is_not_modified(headers, etag) {
        return TilePlan::Answer(TileAnswer::NotModified);
    }
    plan_tile(is_head, headers, refused, archive, TileId::new(tile_id))
}

/// A copy is current when one of the tags in `If-None-Match`, blanks around it aside, is the
/// wildcard or weakly matches the ETag, and only then.
pub proof fn law_current_copy(value: Seq<u8>, tags: Seq<Seq<char>>, etag: Seq<char>)
    requires
        tags.len() > 0,
        forall|i: int| 0 <= i < tags.len() ==> crate::etag::is_whole(#[trigger] tags[i]),
        header_text(Some(value)) == Some(crate::text::joined(tags, ',')),
    ensures
        not_modified(Some(value), etag) == (exists|i: int|
            0 <= i < tags.len() && is_tag(crate::text::trim(#[trigger] tags[i]), etag)),
{
    crate::etag::law_list_of_whole_tags(tags);
}

/// Further tags in `If-None-Match` never make a current copy out of date.
pub proof fn law_more_tags(
    value: Seq<u8>,
    tags: Seq<Seq<char>>,
    longer: Seq<u8>,
    more: Seq<Seq<char>>,
    etag: Seq<char>,
)
    requires
        tags.len() > 0,
        forall|i: int| 0 <= i < tags.len() ==> crate::etag::is_whole(#[trigger] tags[i]),
        forall|i: int| 0 <= i < more.len() ==> crate::etag::is_whole(#[trigger] more[i]),
        header_text(Some(value)) == Some(crate::text::joined(tags, ',')),
        header_text(Some(longer)) == Some(crate::text::joined(tags + more, ',')),
        not_modified(Some(value), etag),
    ensures
        not_modified(Some(longer), etag),
{
    let all = tags + more;
    assert forall|i: int| 0 <= i < all.len() implies crate::etag::is_whole(#[trigger] all[i]) by {
        if i >= tags.len() {
            assert(all[i] == more[i - tags.len()]);
        }
    }
    law_current_copy(value, tags, etag);
    law_current_copy(longer, all, etag);
    let i = choose|i: int|
        0 <= i < tags.len() && is_tag(crate::text::trim(#[trigger] tags[i]), etag);
    assert(all[i] == tags[i]);
}

/// Where no weak tag is in play and no entity tag holds a comma, a copy is current when a part of
/// `If-None-Match` between commas, blanks around it aside, is the wildcard or the whole ETag, and
/// only then. Stray quotes change nothing.
pub proof fn law_plain_comparison(value: Seq<u8>, text: Seq<char>, etag: Seq<char>)
    requires
        header_text(Some(value)) == Some(text),
        forall|i: int|
            0 <= i < crate::etag::tag_list(text).len() && crate::etag::is_entity_tag(
                crate::text::trim(#[trigger] crate::etag::tag_list(text)[i]),
            ) ==> !crate::etag::tag_list(text)[i].contains(','),
        forall|i: int|
            0 <= i < crate::text::split(text, ',').len() ==> !crate::etag::is_weak(
                crate::text::trim(#[trigger] crate::text::split(text, ',')[i]),
            ),
        !crate::etag::is_weak(etag),
    ensures
        not_modified(Some(value), etag) == (exists|i: int|
            0 <= i < crate::text::split(text, ',').len() && {
                let part = crate::text::trim(#[trigger] crate::text::split(text, ',')[i]);
                part == "*"@ || part == etag
            }),
{
    crate::etag::law_plain_list(text);
    let parts = crate::text::split(text, ',');
    assert forall|i: int| 0 <= i < parts.len() implies is_tag(
        crate::text::trim(#[trigger] parts[i]),
        etag,
    ) == (crate::text::trim(parts[i]) == "*"@ || crate::text::trim(parts[i]) == etag) by {}
}

/// Two entity tags match when their texts are the same, whichever of them is weak.
#[verifier::rlimit(40)]
pub proof fn law_weak_comparison(
    sent_weak: bool,
    sent: Seq<char>,
    held_weak: bool,
    held: Seq<char>,
)
    requires
        !sent.contains('"'),
        !held.contains('"'),
    ensures
        is_tag(
            crate::text::trim(crate::etag::entity_tag(sent_weak, sent)),
            crate::etag::entity_tag(held_weak, held),
        ) == (sent == held),
{
    reveal_strlit("*");
    let tag = crate::etag::entity_tag(sent_weak, sent);
    crate::text::lemma_trim_is(tag, 0, tag.len() as int);
    assert(tag.subrange(0, tag.len() as int) =~= tag);
    crate::etag::law_opaque_tag(sent_weak, sent);
    crate::etag::law_opaque_tag(held_weak, held);
    let a = crate::etag::entity_tag(false, sent);
    let b = crate::etag::entity_tag(false, held);
    assert(a.subrange(1, a.len() - 1) =~= sent);
    assert(b.subrange(1, b.len() - 1) =~= held);
    assert(tag[0] != '*');
}

/// A coding is accepted when one of the offers in `Accept-Encoding` accepts it, and only then.
pub proof fn law_accepted_codings(
    value: Seq<u8>,
    offers: Seq<Seq<char>>,
    coding: TileCompression,
    refused: Seq<Seq<char>>,
)
    requires
        offers.len() > 0,
        forall|i: int| 0 <= i < offers.len() ==> !(#[trigger] offers[i]).contains(','),
        header_text(Some(value)) == Some(crate::text::joined(offers, ',')),
    ensures
        accepted(Some(value), coding, refused) == (exists|i: int|
            0 <= i < offers.len() && accepts(#[trigger] offers[i], coding, refused)),
{
    crate::text::lemma_split_joined(offers, ',');
}

/// A compressed response is in a coding that the client accepts. It is the coding on disk
/// whenever the client accepts that one; otherwise zstd comes before gzip. A client that accepts
/// neither gets a plain response.
pub proof fn law_response_coding(
    accept_encoding: Option<Seq<u8>>,
    source: TileCompression,
    refused: Seq<Seq<char>>,
)
    ensures
        ({
            let picked = response_encoding(accept_encoding, source, refused);
            let zstd_ok = accepted(accept_encoding, TileCompression::Zstd, refused);
            let gzip_ok = accepted(accept_encoding, TileCompression::Gzip, refused);
            &&& picked != TileCompression::Plain ==> accepted(accept_encoding, picked, refused)
            &&& source != TileCompression::Plain && accepted(accept_encoding, source, refused)
                ==> picked == source
            &&& zstd_ok && picked != source ==> picked == TileCompression::Zstd
            &&& (picked == TileCompression::Plain) == (!zstd_ok && !gzip_ok)
        }),
{
}

/// A tile that is stored in the coding of the response is passed through as it is.
pub proof fn law_pass_through(tile: Seq<u8>, coding: TileCompression)
    ensures
        served(Ok(tile), coding, coding) == (TileAnswerView::Body {
            content_encoding: content_encoding_of(coding),
            body: tile,
        }),
{
}

/// A `HEAD` request is answered as the `GET` request would be, but for the body: a request that
/// needs no tile has the same answer, and a tile has the same coding.
pub proof fn law_head_answers_as_get(
    if_none_match: Option<Seq<u8>>,
    accept_encoding: Option<Seq<u8>>,
    refused: Seq<Seq<char>>,
    etag: Seq<char>,
    archive: crate::archive::S3ArchiveView,
    tile: Option<TileId>,
)
    ensures
        ({
            let head = planned(
                true,
                if_none_match,
                accept_encoding,
                refused,
                etag,
                archive,
                tile,
            );
            let get = planned(
                false,
                if_none_match,
                accept_encoding,
                refused,
                etag,
                archive,
                tile,
            );
            match get {
                TilePlanView::Answer(_) => head == get,
                TilePlanView::Fetch(_, encoding) => head matches TilePlanView::Answer(answer)
                    && answer matches TileAnswerView::Head { content_encoding, .. }
                    && content_encoding == content_encoding_of(encoding),
            }
        }),
{
}

/// The length that a `HEAD` response tells is the length of the body that `GET` sends, for a
/// tile that is stored in as many bytes as the index says. It is told exactly when the coding of
/// the response is the one on disk.
pub proof fn law_head_length(
    archive: crate::archive::S3ArchiveView,
    tile_id: TileId,
    encoding: TileCompression,
    tile: Seq<u8>,
)
    requires
        archive.index.tiles.contains_key(tile_id.0),
        archive.index.tiles[tile_id.0].size == tile.len(),
    ensures
        head_answer(archive, tile_id, encoding) matches TileAnswerView::Head {
            content_encoding,
            content_length,
        } && content_length is Some == (encoding == archive.compression) && (content_length matches Some(
            length,
        ) ==> served(Ok(tile), archive.compression, encoding) matches TileAnswerView::Body {
            content_encoding: sent,
            body,
        } && sent == content_encoding && body.len() == length),
{
}

/// Every tile response tells caches how long to keep it and that it varies with the codings that
/// the client accepts; ETag, date and dataset id are there when they can be header values.
pub proof fn law_cache_headers(meta: crate::archive::ArchiveMetaView, max_age: u32)
    ensures
        cache_headers(meta, max_age).contains(("cache-control"@, cache_control(max_age))),
        cache_headers(meta, max_age).contains(("vary"@, "Accept-Encoding"@)),
        is_header_value(meta.etag) ==> cache_headers(meta, max_age).contains(("etag"@, meta.etag)),
        is_header_value(meta.last_modified) ==> cache_headers(meta, max_age).contains(
            ("last-modified"@, meta.last_modified),
        ),
        is_header_value(meta.dataset_id) ==> cache_headers(meta, max_age).contains(
            ("x-dataset-id"@, meta.dataset_id),
        ),
{
    let list = cache_headers(meta, max_age);
    let a = header_if_valid("etag"@, meta.etag).len() as int;
    let b = header_if_valid("last-modified"@, meta.last_modified).len() as int;
    assert(a > 0 ==> list[0] == ("etag"@, meta.etag));
    assert(b > 0 ==> list[a] == ("last-modified"@, meta.last_modified));
    assert(list[a + b] == ("cache-control"@, cache_control(max_age)));
    assert(list[a + b + 1] == ("vary"@, "Accept-Encoding"@));
    assert(is_header_value(meta.dataset_id) ==> list[a + b + 2] == (
        "x-dataset-id"@,
        meta.dataset_id,
    ));
}

/// A header value of visible ASCII characters, spaces and tabs is read as these characters; any
/// other byte keeps a value from being read.
pub proof fn law_header_text(bytes: Seq<u8>, at: int)
    ensures
        (forall|i: int| 0 <= i < bytes.len() ==> (0x20 <= #[trigger] bytes[i] <= 0x7e || bytes[i]
            == 0x09)) ==> (header_text(Some(bytes)) matches Some(text) && text.len() == bytes.len()
            && forall|i: int|
            0 <= i < bytes.len() ==> #[trigger] text[i] == bytes[i] as char),
        0 <= at < bytes.len() && !(0x20 <= bytes[at] <= 0x7e || bytes[at] == 0x09) ==> header_text(
            Some(bytes),
        ) is None,
        header_text(None) is None,
{
    if 0 <= at < bytes.len() && !(0x20 <= bytes[at] <= 0x7e || bytes[at] == 0x09) {
        assert(!is_visible(bytes[at]));
    }
}

/// A client that sends back the ETag that it was given has a current copy. An ETag is a text in
/// quotes without a quote in it, weak or not, of characters that a header can hold.
#[verifier::rlimit(40)]
pub proof fn law_own_etag_is_current(value: Seq<u8>, weak: bool, text: Seq<char>)
    requires
        !text.contains('"'),
        value.len() == crate::etag::entity_tag(weak, text).len(),
        forall|i: int|
            0 <= i < value.len() ==> #[trigger] value[i] as char == crate::etag::entity_tag(
                weak,
                text,
            )[i] && (0x20 <= value[i] <= 0x7e || value[i] == 0x09),
    ensures
        not_modified(Some(value), crate::etag::entity_tag(weak, text)),
        not_modified(Some(value), crate::etag::entity_tag(!weak, text)),
{
    let tag = crate::etag::entity_tag(weak, text);
    let nothing = Seq::<char>::empty();
    law_header_text(value, 0);
    let read = header_text(Some(value))->0;
    assert(read =~= tag) by {
        assert forall|i: int| 0 <= i < tag.len() implies read[i] == tag[i] by {
            assert(read[i] == value[i] as char);
        }
    }
    let tags = seq![tag];
    assert(nothing + tag + nothing =~= tag);
    crate::etag::law_entity_tag_is_whole(nothing, weak, text, nothing);
    law_current_copy(value, tags, tag);
    law_current_copy(value, tags, crate::etag::entity_tag(!weak, text));
    law_weak_comparison(weak, text, weak, text);
    law_weak_comparison(weak, text, !weak, text);
    assert(tags[0] == tag);
}

/// The wildcard among the tags makes every copy current.
pub proof fn law_wildcard(value: Seq<u8>, tags: Seq<Seq<char>>, at: int, etag: Seq<char>)
    requires
        0 <= at < tags.len(),
        crate::text::trim(tags[at]) == "*"@,
        forall|i: int| 0 <= i < tags.len() ==> crate::etag::is_whole(#[trigger] tags[i]),
        header_text(Some(value)) == Some(crate::text::joined(tags, ',')),
    ensures
        not_modified(Some(value), etag),
        !not_modified(None, etag),
{
    law_current_copy(value, tags, etag);
}

/// An offer is a name and what stands behind its first semicolon, blanks around the whole aside.
pub proof fn law_offer(
    before: Seq<char>,
    name: Seq<char>,
    params: Seq<char>,
    behind: Seq<char>,
)
    requires
        forall|i: int| 0 <= i < before.len() ==> (#[trigger] before[i] == ' ' || before[i] == '\t'),
        forall|i: int| 0 <= i < behind.len() ==> (#[trigger] behind[i] == ' ' || behind[i] == '\t'),
        !name.contains(';'),
        name.len() > 0 && name[0] != ' ' && name[0] != '\t',
    ensures
        name.last() != ' ' && name.last() != '\t' ==> offer(before + name + behind) == (
            name,
            Seq::<char>::empty(),
        ),
        params.len() == 0 || (params.last() != ' ' && params.last() != '\t') ==> offer(
            before + (name + seq![';'] + params) + behind,
        ) == (name, params),
{
    let full = name + seq![';'] + params;
    if name.last() != ' ' && name.last() != '\t' {
        crate::text::law_trim(before, name, behind);
        crate::text::law_split_once(name, ';', params);
    }
    if params.len() == 0 || (params.last() != ' ' && params.last() != '\t') {
        assert(full.last() == (if params.len() == 0 {
            ';'
        } else {
            params.last()
        }));
        crate::text::law_trim(before, full, behind);
        crate::text::law_split_once(name, ';', params);
    }
}

/// A quality parameter is `q=` and a text, with blanks wherever they may stand around them; no other
/// parameter is one.
pub proof fn law_quality(
    before: Seq<char>,
    gap: Seq<char>,
    text: Seq<char>,
    behind: Seq<char>,
    param: Seq<char>,
)
    requires
        forall|i: int| 0 <= i < before.len() ==> (#[trigger] before[i] == ' ' || before[i] == '\t'),
        forall|i: int| 0 <= i < gap.len() ==> (#[trigger] gap[i] == ' ' || gap[i] == '\t'),
        forall|i: int| 0 <= i < behind.len() ==> (#[trigger] behind[i] == ' ' || behind[i] == '\t'),
        text.len() > 0 ==> text[0] != ' ' && text[0] != '\t' && text.last() != ' ' && text.last()
            != '\t',
        text.len() == 0 ==> gap.len() == 0,
    ensures
        quality(before + ("q="@ + gap + text) + behind) == Some(text),
        !"q="@.is_prefix_of(crate::text::trim(param)) ==> quality(param) is None,
{
    reveal_strlit("q=");
    let core = "q="@ + gap + text;
    crate::text::law_trim(before, core, behind);
    assert(core.take(2) =~= "q="@);
    let nothing = Seq::<char>::empty();
    assert(core.skip(2) =~= gap + text + nothing);
    crate::text::law_trim(gap, text, nothing);
}

/// The quality texts of parameters are those of each of them, and no others.
pub proof fn law_qualities_among(params: Seq<Seq<char>>, text: Seq<char>)
    ensures
        qualities_among(params).contains(text) <==> exists|i: int|
            0 <= i < params.len() && quality(#[trigger] params[i]) == Some(text),
    decreases params.len(),
{
    if params.len() > 0 {
        let before = params.drop_last();
        let n = params.len() - 1;
        law_qualities_among(before, text);
        let found = qualities_among(params);
        if exists|i: int| 0 <= i < params.len() && quality(#[trigger] params[i]) == Some(text) {
            let i = choose|i: int|
                0 <= i < params.len() && quality(#[trigger] params[i]) == Some(text);
            if i < n {
                assert(before[i] == params[i]);
                let j = choose|j: int|
                    0 <= j < qualities_among(before).len() && qualities_among(before)[j] == text;
                assert(found[j] == text);
            } else {
                assert(found[found.len() - 1] == text);
            }
        }
        if found.contains(text) {
            let j = choose|j: int| 0 <= j < found.len() && found[j] == text;
            if j < qualities_among(before).len() {
                assert(qualities_among(before)[j] == text);
                let i = choose|i: int|
                    0 <= i < before.len() && quality(#[trigger] before[i]) == Some(text);
                assert(params[i] == before[i]);
            } else {
                assert(quality(params[n]) == Some(text));
            }
        }
    }
}

/// An offer with parameters accepts the coding that it names, in whatever case, unless one of its
/// parameters is a quality that is refused; without parameters it accepts it in any case.
#[verifier::rlimit(40)]
pub proof fn law_accepts(
    before: Seq<char>,
    name: Seq<char>,
    params: Seq<Seq<char>>,
    behind: Seq<char>,
    coding: TileCompression,
    refused: Seq<Seq<char>>,
)
    requires
        forall|i: int| 0 <= i < before.len() ==> (#[trigger] before[i] == ' ' || before[i] == '\t'),
        forall|i: int| 0 <= i < behind.len() ==> (#[trigger] behind[i] == ' ' || behind[i] == '\t'),
        !name.contains(';'),
        name.len() > 0 && name[0] != ' ' && name[0] != '\t',
        name.last() != ' ' && name.last() != '\t',
        params.len() > 0,
        forall|i: int| 0 <= i < params.len() ==> !(#[trigger] params[i]).contains(';'),
        ({
            let all = crate::text::joined(params, ';');
            all.len() == 0 || (all.last() != ' ' && all.last() != '\t')
        }),
    ensures
        accepts(before + name + behind, coding, refused) == crate::text::same_ignoring_case(
            name,
            coding.token(),
        ),
        accepts(
            before + (name + seq![';'] + crate::text::joined(params, ';')) + behind,
            coding,
            refused,
        ) == (crate::text::same_ignoring_case(name, coding.token()) && forall|i: int, text: Seq<
            char,
        >|
            0 <= i < params.len() && #[trigger] quality(params[i]) == Some(text)
                ==> !(#[trigger] refused.contains(text))),
{
    let all = crate::text::joined(params, ';');
    law_offer(before, name, all, behind);
    let bare = before + name + behind;
    let nothing = Seq::<char>::empty();
    assert(!nothing.contains(';'));
    assert(crate::text::split(nothing, ';') =~= seq![nothing]) by {
        crate::text::lemma_find(nothing, ';');
    }
    assert(qualities(bare).len() == 0) by {
        let none = seq![nothing];
        assert(crate::text::trim(nothing) =~= nothing);
        reveal_strlit("q=");
        assert(quality(none[0]) is None);
        assert(none.drop_last() =~= Seq::<Seq<char>>::empty());
        reveal_with_fuel(qualities_among, 2);
    }
    let piece = before + (name + seq![';'] + all) + behind;
    crate::text::lemma_split_joined(params, ';');
    let found = qualities(piece);
    assert(found == qualities_among(params));
    let clear = forall|i: int| 0 <= i < found.len() ==> !refused.contains(#[trigger] found[i]);
    let clean = forall|i: int, text: Seq<char>|
        0 <= i < params.len() && #[trigger] quality(params[i]) == Some(text)
            ==> !(#[trigger] refused.contains(text));
    if clear {
        assert forall|i: int, text: Seq<char>|
            0 <= i < params.len() && #[trigger] quality(params[i]) == Some(
                text,
            ) implies !(#[trigger] refused.contains(text)) by {
            law_qualities_among(params, text);
            let j = choose|j: int| 0 <= j < found.len() && found[j] == text;
            assert(!refused.contains(found[j]));
        }
    }
    if clean {
        assert forall|j: int| 0 <= j < found.len() implies !refused.contains(#[trigger] found[j]) by {
            law_qualities_among(params, found[j]);
            assert(found.contains(found[j]));
            let i = choose|i: int|
                0 <= i < params.len() && quality(#[trigger] params[i]) == Some(found[j]);
            assert(quality(params[i]) == Some(found[j]));
        }
    }
}

/// The quality texts of a header are those of each of its offers, and no others.
pub proof fn law_header_qualities(value: Seq<u8>, offers: Seq<Seq<char>>, text: Seq<char>)
    requires
        offers.len() > 0,
        forall|i: int| 0 <= i < offers.len() ==> !(#[trigger] offers[i]).contains(','),
        header_text(Some(value)) == Some(crate::text::joined(offers, ',')),
    ensures
        header_qualities(Some(value)).contains(text) <==> exists|i: int|
            0 <= i < offers.len() && qualities(#[trigger] offers[i]).contains(text),
        header_qualities(None).len() == 0,
{
    crate::text::lemma_split_joined(offers, ',');
    lemma_all_qualities(offers, text);
}

proof fn lemma_all_qualities(offers: Seq<Seq<char>>, text: Seq<char>)
    ensures
        all_qualities(offers).contains(text) <==> exists|i: int|
            0 <= i < offers.len() && qualities(#[trigger] offers[i]).contains(text),
    decreases offers.len(),
{
    if offers.len() > 0 {
        let before = offers.drop_last();
        let n = offers.len() - 1;
        lemma_all_qualities(before, text);
        let a = all_qualities(before);
        let b = qualities(offers.last());
        let found = all_qualities(offers);
        if exists|i: int| 0 <= i < offers.len() && qualities(#[trigger] offers[i]).contains(text) {
            let i = choose|i: int|
                0 <= i < offers.len() && qualities(#[trigger] offers[i]).contains(text);
            if i < n {
                assert(before[i] == offers[i]);
                let j = choose|j: int| 0 <= j < a.len() && a[j] == text;
                assert(found[j] == text);
            } else {
                let j = choose|j: int| 0 <= j < b.len() && b[j] == text;
                assert(found[a.len() + j] == text);
            }
        }
        if found.contains(text) {
            let j = choose|j: int| 0 <= j < found.len() && found[j] == text;
            if j < a.len() {
                assert(a[j] == text);
                let i = choose|i: int|
                    0 <= i < before.len() && qualities(#[trigger] before[i]).contains(text);
                assert(offers[i] == before[i]);
            } else {
                assert(b[j - a.len()] == text);
                assert(qualities(offers[n]).contains(text));
            }
        }
    }
}

/// A tile that the index holds is read whole: a `GET` that needs it reads from where its entry says
/// as many bytes as its entry says, which is the length that `HEAD` tells where it tells one.
/// `object` is the archive; the answer passes on what was read where nothing has to be recoded.
#[verifier::rlimit(40)]
pub proof fn law_tile_is_read_whole(
    if_none_match: Option<Seq<u8>>,
    accept_encoding: Option<Seq<u8>>,
    refused: Seq<Seq<char>>,
    etag: Seq<char>,
    archive: crate::archive::S3ArchiveView,
    tile_id: TileId,
    object: Seq<u8>,
)
    requires
        !not_modified(if_none_match, etag),
        archive.index.tiles.contains_key(tile_id.0),
        ({
            let e = archive.index.tiles[tile_id.0];
            e.offset + e.size <= object.len()
        }),
    ensures
        ({
            let e = archive.index.tiles[tile_id.0];
            let tile = object.subrange(e.offset as int, e.offset + e.size);
            &&& planned(
                false,
                if_none_match,
                accept_encoding,
                refused,
                etag,
                archive,
                Some(tile_id),
            ) matches TilePlanView::Fetch(range, encoding) && {
                let read = object.subrange(range.offset as int, range.offset + range.length);
                &&& range.offset == e.offset && range.length == e.size
                &&& read == tile && read.len() == e.size
                &&& encoding == response_encoding(accept_encoding, archive.compression, refused)
                &&& encoding == archive.compression ==> (served(
                    Ok(read),
                    archive.compression,
                    encoding,
                ) matches TileAnswerView::Body { body, .. } && body == tile)
                &&& planned(
                    true,
                    if_none_match,
                    accept_encoding,
                    refused,
                    etag,
                    archive,
                    Some(tile_id),
                ) matches TilePlanView::Answer(answer) && answer matches TileAnswerView::Head {
                    content_encoding,
                    content_length,
                } && labels(content_encoding, encoding) && (content_length is Some <==> encoding
                    == archive.compression) && (content_length matches Some(n) ==> n == read.len())
            }
        }),
{
    law_content_encoding(response_encoding(accept_encoding, archive.compression, refused));
}

/// A response names its coding, and a plain one names none; the name tells the coding.
pub proof fn law_content_encoding(encoding: TileCompression)
    ensures
        labels(content_encoding_of(encoding), encoding),
        forall|other: TileCompression| #[trigger]
            labels(content_encoding_of(encoding), other) ==> other == encoding,
{
    crate::tile::law_tokens(encoding);
    reveal_strlit("gzip");
    reveal_strlit("zstd");
    assert("gzip"@[0] != "zstd"@[0]);
}

/// What is answered without a tile, to `GET` and to `HEAD` alike: a current copy is confirmed before
/// anything else, a path that names no tile is a bad request, and a tile that the index does not
/// hold is not found.
pub proof fn law_answers_without_tile(
    is_head: bool,
    if_none_match: Option<Seq<u8>>,
    accept_encoding: Option<Seq<u8>>,
    refused: Seq<Seq<char>>,
    etag: Seq<char>,
    archive: crate::archive::S3ArchiveView,
    tile: Option<TileId>,
)
    ensures
        ({
            let plan = planned(
                is_head,
                if_none_match,
                accept_encoding,
                refused,
                etag,
                archive,
                tile,
            );
            &&& not_modified(if_none_match, etag) <==> (plan matches TilePlanView::Answer(answer)
                && answer.status() == 304)
            &&& !not_modified(if_none_match, etag) ==> {
                &&& tile is None <==> (plan matches TilePlanView::Answer(answer) && answer.status()
                    == 400)
                &&& tile matches Some(id) ==> (!archive.index.tiles.contains_key(id.0) <==> (
                plan matches TilePlanView::Answer(answer) && answer.status() == 404))
                &&& tile matches Some(id) ==> (archive.index.tiles.contains_key(id.0) ==> (
                plan is Fetch <==> !is_head))
            }
        }),
{
}

/// The status codes of the answers.
pub proof fn law_status(answer: TileAnswerView)
    ensures
        answer is NotModified <==> answer.status() == 304,
        answer is BadRequest <==> answer.status() == 400,
        answer is NotFound <==> answer.status() == 404,
        answer is Failed <==> answer.status() == 500,
        answer is Head || answer is Body <==> answer.status() == 200,
{
}

/// Every body says how it is coded. What could be decoded is sent, in the coding of the response,
/// and named so; bytes that are stored in that coding are sent as they are. What could not be read
/// or decoded is a failure.
pub proof fn law_body_names_its_coding(
    tile: Seq<u8>,
    compression: TileCompression,
    encoding: TileCompression,
    e: crate::error::S3ErrorView,
)
    ensures
        compression == encoding ==> (served(
            Ok(tile),
            compression,
            encoding,
        ) matches TileAnswerView::Body { content_encoding, body } && body == tile && labels(
            content_encoding,
            encoding,
        )),
        compression != encoding ==> match crate::codec::decoded(tile, compression) {
            Ok(plain) => {
                &&& served(Ok(tile), compression, encoding) == recoded_answer(Ok(plain), encoding)
                &&& recoded_answer(Ok(plain), encoding) matches TileAnswerView::Body {
                    content_encoding,
                    body,
                } && labels(content_encoding, encoding) && body == (match encoding {
                    TileCompression::Plain => plain,
                    TileCompression::Gzip => crate::codec::gzip_stream(plain, 6),
                    TileCompression::Zstd => crate::codec::zstd_stream(plain, 0),
                })
            },
            Err(what) => served(Ok(tile), compression, encoding) == TileAnswerView::Failed(
                "decode error: "@ + what,
            ),
        },
        served(Err(e), compression, encoding) == TileAnswerView::Failed("S3 error: "@ + e.message()),
{
    law_content_encoding(encoding);
}

/// `GET` and `HEAD` name the same coding for a tile.
pub proof fn law_same_coding_for_head_and_get(
    archive: crate::archive::S3ArchiveView,
    tile_id: TileId,
    encoding: TileCompression,
    tile: Seq<u8>,
)
    requires
        archive.index.tiles.contains_key(tile_id.0),
    ensures
        head_answer(archive, tile_id, encoding) matches TileAnswerView::Head { content_encoding, .. }
            && labels(content_encoding, encoding) && (served(
            Ok(tile),
            archive.compression,
            encoding,
        ) matches TileAnswerView::Body { content_encoding: sent, .. } ==> sent == content_encoding),
{
    law_content_encoding(encoding);
}

/// The headers of an answer: a tile has its type, its coding where it has one, and for `HEAD` its
/// length where it is known; no other answer has any.
pub proof fn law_answer_headers(
    coding: Option<Seq<char>>,
    length: Option<u32>,
    body: Seq<u8>,
    other: TileAnswerView,
)
    ensures
        ({
            let head = answer_headers(
                TileAnswerView::Head { content_encoding: coding, content_length: length },
            );
            let get = answer_headers(TileAnswerView::Body { content_encoding: coding, body });
            let n: int = if coding is Some {
                2
            } else {
                1
            };
            &&& get.len() == n
            &&& get[0] == ("content-type"@, "application/octet-stream"@)
            &&& coding matches Some(token) ==> get[1] == ("content-encoding"@, token)
            &&& head.len() == n + (if length is Some {
                1int
            } else {
                0
            })
            &&& head.take(n) == get
            &&& length matches Some(size) ==> head[n] == (
                "content-length"@,
                crate::text::decimal(size as nat),
            )
        }),
        !(other is Head) && !(other is Body) ==> answer_headers(other).len() == 0,
{
    let n: int = if coding is Some {
        2
    } else {
        1
    };
    let head = answer_headers(
        TileAnswerView::Head { content_encoding: coding, content_length: length },
    );
    let get = answer_headers(TileAnswerView::Body { content_encoding: coding, body });
    assert(head.take(n) =~= get);
}

/// Whether a text can be sent as a header value: it holds no control character but the tab.
pub open spec fn can_be_sent(text: Seq<char>) -> bool {
    forall|i: int|
        0 <= i < text.len() ==> (#[trigger] text[i] == '\t' || (' ' <= text[i] && text[i]
            != '\x7f'))
}

/// The headers for caches, in order: ETag, date and dataset id as far as they can be sent, with the
/// lifetime and the header that responses vary with before the dataset id, and nothing else.
#[verifier::rlimit(40)]
pub proof fn law_cache_header_list(meta: crate::archive::ArchiveMetaView, max_age: u32)
    ensures
        ({
            let list = cache_headers(meta, max_age);
            let a: int = if can_be_sent(meta.etag) {
                1
            } else {
                0
            };
            let b: int = if can_be_sent(meta.last_modified) {
                1
            } else {
                0
            };
            let c: int = if can_be_sent(meta.dataset_id) {
                1
            } else {
                0
            };
            &&& list.len() == a + b + 2 + c
            &&& a == 1 ==> list[0] == ("etag"@, meta.etag)
            &&& b == 1 ==> list[a] == ("last-modified"@, meta.last_modified)
            &&& list[a + b] == (
                "cache-control"@,
                "public, max-age="@ + crate::text::decimal(max_age as nat) + ", immutable"@,
            )
            &&& list[a + b + 1] == ("vary"@, "Accept-Encoding"@)
            &&& c == 1 ==> list[a + b + 2] == ("x-dataset-id"@, meta.dataset_id)
        }),
{
    lemma_can_be_sent(meta.etag);
    lemma_can_be_sent(meta.last_modified);
    lemma_can_be_sent(meta.dataset_id);
}

proof fn lemma_can_be_sent(text: Seq<char>)
    ensures
        can_be_sent(text) == is_header_value(text),
{
    assert forall|i: int| 0 <= i < text.len() implies is_header_char(#[trigger] text[i]) == (text[i]
        == '\t' || (' ' <= text[i] && text[i] != '\x7f')) by {
        lemma_header_char(text[i]);
    }
    if is_header_value(text) {
        assert forall|i: int| 0 <= i < text.len() implies (#[trigger] text[i] == '\t' || (' '
            <= text[i] && text[i] != '\x7f')) by {
            assert(is_header_char(text[i]));
        }
    }
}

proof fn lemma_header_char(c: char)
    ensures
        is_header_char(c) == (c == '\t' || (' ' <= c && c != '\x7f')),
{
}

/// A tile is the same under its path and under its packed id, all 32 bits of it: a `GET` of either
/// reads what the index binds to that id, and a path that names no tile is asked for in vain.
pub proof fn law_tile_by_path_and_by_id(
    accept_encoding: Option<Seq<u8>>,
    refused: Seq<Seq<char>>,
    etag: Seq<char>,
    archive: crate::archive::S3ArchiveView,
    level: u32,
    index: u32,
    width: nat,
    suffix: Seq<char>,
    raw: u32,
    path: Seq<char>,
)
    requires
        crate::text::decimal(index as nat).len() <= width,
        suffix.len() == 0 || suffix[0] == '.',
    ensures
        archive.index.tiles.contains_key(raw) ==> (planned(
            false,
            None,
            accept_encoding,
            refused,
            etag,
            archive,
            tile_with(raw),
        ) matches TilePlanView::Fetch(range, _) && range.offset == archive.index.tiles[raw].offset
            && range.length == archive.index.tiles[raw].size),
        raw == level | (index << 3u32) ==> tile_at(
            crate::tile::tile_path(level, index, width, suffix),
        ) == tile_with(raw),
        crate::tile::id_of_path(path) is None <==> tile_at(path) is None,
{
    crate::tile::law_path_names_tile(level, index, width, suffix);
}

/// A list of headers has the name and the value of each of them, and a list of strings the text of
/// each of them.
pub proof fn law_lists(headers: Seq<Header>, strings: Seq<String>, i: int)
    ensures
        header_list(headers).len() == headers.len(),
        0 <= i < headers.len() ==> header_list(headers)[i] == (headers[i].name@, headers[i].value@),
        string_texts(strings).len() == strings.len(),
        0 <= i < strings.len() ==> string_texts(strings)[i] == strings[i]@,
{
}

/// An answer holds what its view says, the whole body among it, and so does a plan.
pub proof fn law_answer_views(
    token: &'static str,
    length: Option<u32>,
    body: Vec<u8>,
    why: String,
    answer: TileAnswer,
    range: ByteRange,
    coding: TileCompression,
)
    ensures
        text_of(Some(token)) == Some(token@),
        text_of(None) is None,
        (TileAnswer::Body { content_encoding: Some(token), body })@ == (TileAnswerView::Body {
            content_encoding: Some(token@),
            body: body@,
        }),
        (TileAnswer::Body { content_encoding: None, body })@ == (TileAnswerView::Body {
            content_encoding: None,
            body: body@,
        }),
        (TileAnswer::Head { content_encoding: Some(token), content_length: length })@ == (
        TileAnswerView::Head { content_encoding: Some(token@), content_length: length }),
        (TileAnswer::Head { content_encoding: None, content_length: length })@ == (
        TileAnswerView::Head { content_encoding: None, content_length: length }),
        TileAnswer::Failed(why)@ == TileAnswerView::Failed(why@),
        TileAnswer::NotModified@ == TileAnswerView::NotModified,
        TileAnswer::BadRequest@ == TileAnswerView::BadRequest,
        TileAnswer::NotFound@ == TileAnswerView::NotFound,
        TilePlan::Answer(answer)@ == TilePlanView::Answer(answer@),
        TilePlan::Fetch(range, coding)@ == TilePlanView::Fetch(range, coding),
{
}

} // verus!
