//! Entity tags and the lists of them that `If-None-Match` holds.

use vstd::prelude::*;
use vstd::slice::slice_subrange;

use crate::text::find_char;

verus! {

/// The first position from `from` on that does not hold a blank, or the length.
pub open spec fn blank_run(s: Seq<char>, from: int) -> int
    decreases s.len() - from,
{
    if 0 <= from < s.len() && crate::text::is_blank(s[from]) {
        blank_run(s, from + 1)
    } else {
        from
    }
}

/// The first position from `from` on that holds a quote, or the length.
pub open spec fn next_quote(s: Seq<char>, from: int) -> int
    decreases s.len() - from,
{
    if 0 <= from < s.len() && s[from] != '"' {
        next_quote(s, from + 1)
    } else {
        from
    }
}

/// Where the quotes of an entity tag at the start of `s` would open: behind blanks and the mark of
/// a weak tag.
pub open spec fn quote_start(s: Seq<char>) -> int {
    let a = blank_run(s, 0);
    if a + 1 < s.len() && s[a] == 'W' && s[a + 1] == '/' {
        a + 2
    } else {
        a
    }
}

/// Where the list goes on behind an entity tag at the start of `s`, if there is one: blanks, the
/// mark of a weak tag or none, a text in quotes without a quote in it, and blanks up to a comma or
/// to the end.
pub open spec fn entity_tag_end(s: Seq<char>) -> Option<int> {
    let b = quote_start(s);
    let c = next_quote(s, b + 1);
    let d = blank_run(s, c + 1);
    if b < s.len() && s[b] == '"' && c < s.len() && (d == s.len() || s[d] == ',') {
        Some(d)
    } else {
        None
    }
}

/// Where the first piece of a list ends: behind the entity tag at its start, if there is one, and
/// else at the first comma or at the end.
pub open spec fn tag_end(list: Seq<char>) -> int {
    match entity_tag_end(list) {
        Some(end) => end,
        None => crate::text::find(list, ',') as int,
    }
}

/// The pieces of a list of entity tags, always at least one. The list is split at its commas, but
/// for those inside the quotes of an entity tag.
pub open spec fn tag_list(list: Seq<char>) -> Seq<Seq<char>>
    decreases list.len(),
{
    let i = tag_end(list);
    if 0 <= i < list.len() {
        seq![list.take(i)] + tag_list(list.skip(i + 1))
    } else {
        seq![list]
    }
}

/// A text in quotes without a quote in it.
pub open spec fn is_quoted(tag: Seq<char>) -> bool {
    &&& tag.len() >= 2
    &&& tag[0] == '"'
    &&& tag.last() == '"'
    &&& forall|i: int| 0 < i < tag.len() - 1 ==> #[trigger] tag[i] != '"'
}

/// A weak entity tag: the mark `W/` and a text in quotes.
pub open spec fn is_weak(tag: Seq<char>) -> bool {
    tag.len() >= 2 && tag[0] == 'W' && tag[1] == '/' && is_quoted(tag.skip(2))
}

/// An entity tag, weak or not.
pub open spec fn is_entity_tag(tag: Seq<char>) -> bool {
    is_quoted(tag) || is_weak(tag)
}

/// The tag without the mark of a weak one. A text that is not an entity tag has no mark.
pub open spec fn opaque_tag(tag: Seq<char>) -> Seq<char> {
    if is_weak(tag) {
        tag.skip(2)
    } else {
        tag
    }
}

proof fn lemma_blank_run(s: Seq<char>, from: int)
    requires
        0 <= from <= s.len(),
    ensures
        from <= blank_run(s, from) <= s.len(),
        forall|i: int|
            from <= i < blank_run(s, from) ==> crate::text::is_blank(#[trigger] s[i]),
        blank_run(s, from) < s.len() ==> !crate::text::is_blank(s[blank_run(s, from)]),
    decreases s.len() - from,
{
    if from < s.len() && crate::text::is_blank(s[from]) {
        lemma_blank_run(s, from + 1);
    }
}

proof fn lemma_blank_run_is(s: Seq<char>, from: int, to: int)
    requires
        0 <= from <= to <= s.len(),
        forall|i: int| from <= i < to ==> crate::text::is_blank(#[trigger] s[i]),
        to < s.len() ==> !crate::text::is_blank(s[to]),
    ensures
        blank_run(s, from) == to,
    decreases to - from,
{
    if from < to {
        assert(crate::text::is_blank(s[from]));
        lemma_blank_run_is(s, from + 1, to);
    }
}

proof fn lemma_next_quote(s: Seq<char>, from: int)
    requires
        0 <= from <= s.len(),
    ensures
        from <= next_quote(s, from) <= s.len(),
        forall|i: int| from <= i < next_quote(s, from) ==> #[trigger] s[i] != '"',
        next_quote(s, from) < s.len() ==> s[next_quote(s, from)] == '"',
    decreases s.len() - from,
{
    if from < s.len() && s[from] != '"' {
        lemma_next_quote(s, from + 1);
    }
}

proof fn lemma_next_quote_is(s: Seq<char>, from: int, to: int)
    requires
        0 <= from <= to <= s.len(),
        forall|i: int| from <= i < to ==> #[trigger] s[i] != '"',
        to < s.len() ==> s[to] == '"',
    ensures
        next_quote(s, from) == to,
    decreases to - from,
{
    if from < to {
        assert(s[from] != '"');
        lemma_next_quote_is(s, from + 1, to);
    }
}

fn skip_blanks(s: &[char], from: usize) -> (to: usize)
    requires
        from <= s@.len(),
    ensures
        to == blank_run(s@, from as int),
        to <= s@.len(),
{
    let mut i: usize = from;
    while i < s.len() && (s[i] == ' ' || s[i] == '\t')
        invariant
            from <= i <= s@.len(),
            blank_run(s@, from as int) == blank_run(s@, i as int),
        decreases s@.len() - i,
    {
        i += 1;
    }
    i
}

fn find_quote(s: &[char], from: usize) -> (to: usize)
    requires
        from <= s@.len(),
    ensures
        to == next_quote(s@, from as int),
        to <= s@.len(),
{
    let mut i: usize = from;
    while i < s.len() && s[i] != '"'
        invariant
            from <= i <= s@.len(),
            next_quote(s@, from as int) == next_quote(s@, i as int),
        decreases s@.len() - i,
    {
        i += 1;
    }
    i
}

fn find_entity_tag_end(s: &[char]) -> (end: Option<usize>)
    ensures
        match end {
            Some(i) => entity_tag_end(s@) == Some(i as int) && i <= s@.len(),
            None => entity_tag_end(s@) is None,
        },
{
    let a = skip_blanks(s, 0);
    let b: usize = if s.len() - a > 1 && s[a] == 'W' && s[a + 1] == '/' {
        a + 2
    } else {
        a
    };
    if b >= s.len() || s[b] != '"' {
        return None;
    }
    let c = find_quote(s, b + 1);
    if c >= s.len() {
        return None;
    }
    let d = skip_blanks(s, c + 1);
    if d == s.len() || s[d] == ',' {
        Some(d)
    } else {
        None
    }
}

/// The pieces of a list of entity tags, always at least one.
pub fn split_tags<'a>(list: &'a [char]) -> (tags: Vec<&'a [char]>)
    ensures
        crate::text::texts(tags@) == tag_list(list@),
{
    let mut tags: Vec<&'a [char]> = Vec::new();
    let mut rest: &'a [char] = list;
    assert(crate::text::texts(tags@) + tag_list(rest@) =~= tag_list(list@));
    loop
        invariant
            crate::text::texts(tags@) + tag_list(rest@) == tag_list(list@),
        decreases rest@.len(),
    {
        let i: usize = match find_entity_tag_end(rest) {
            Some(end) => end,
            None => find_char(rest, ','),
        };
        let ghost before = crate::text::texts(tags@);
        if i >= rest.len() {
            tags.push(rest);
            assert(crate::text::texts(tags@) =~= before + seq![rest@]);
            return tags;
        }
        let tag = slice_subrange(rest, 0, i);
        let behind = slice_subrange(rest, i + 1, rest.len());
        assert(tag@ =~= rest@.take(i as int));
        assert(behind@ =~= rest@.skip(i + 1));
        tags.push(tag);
        assert(crate::text::texts(tags@) =~= before + seq![tag@]);
        assert(crate::text::texts(tags@) + tag_list(behind@) =~= before + tag_list(rest@));
        rest = behind;
    }
}

fn has_quotes_around(tag: &[char]) -> (b: bool)
    ensures
        b == is_quoted(tag@),
{
    if tag.len() < 2 || tag[0] != '"' {
        return false;
    }
    let end = find_quote(tag, 1);
    proof {
        lemma_next_quote(tag@, 1);
    }
    end == tag.len() - 1
}

/// The tag without the mark of a weak one.
pub fn without_weak_mark<'a>(tag: &'a [char]) -> (r: &'a [char])
    ensures
        r@ == opaque_tag(tag@),
{
    if tag.len() < 2 || tag[0] != 'W' || tag[1] != '/' {
        return tag;
    }
    let r = slice_subrange(tag, 2, tag.len());
    assert(r@ =~= tag@.skip(2));
    if has_quotes_around(r) {
        r
    } else {
        tag
    }
}

/// An entity tag at the start of a list ends at a comma or at the end of the list, and is one once
/// the blanks around it are gone.
proof fn lemma_entity_tag_end(list: Seq<char>, end: int)
    requires
        entity_tag_end(list) == Some(end),
    ensures
        0 <= end <= list.len(),
        end < list.len() ==> list[end] == ',',
        is_entity_tag(crate::text::trim(list.take(end))),
{
    let a = blank_run(list, 0);
    let b = quote_start(list);
    let c = next_quote(list, b + 1);
    lemma_blank_run(list, 0);
    lemma_next_quote(list, b + 1);
    lemma_blank_run(list, c + 1);
    let piece = list.take(end);
    let tag = piece.subrange(a, c + 1);
    crate::text::lemma_trim_is(piece, a, c + 1);
    if b == a {
        assert(is_quoted(tag));
    } else {
        assert(tag.skip(2) =~= list.subrange(b, c + 1));
        assert(is_quoted(tag.skip(2)));
    }
}

/// A list in which no entity tag holds a comma is split at all of its commas. What is not an
/// entity tag, such as a text with a stray quote, keeps no comma to itself.
pub proof fn law_plain_list(list: Seq<char>)
    requires
        forall|i: int|
            0 <= i < tag_list(list).len() && is_entity_tag(
                crate::text::trim(#[trigger] tag_list(list)[i]),
            ) ==> !tag_list(list)[i].contains(','),
    ensures
        tag_list(list) == crate::text::split(list, ','),
    decreases list.len(),
{
    let i = tag_end(list);
    crate::text::lemma_find(list, ',');
    let pieces = tag_list(list);
    if let Some(end) = entity_tag_end(list) {
        lemma_entity_tag_end(list, end);
        assert(list.take(list.len() as int) =~= list);
        assert(pieces[0] == list.take(end));
        assert forall|j: int| 0 <= j < end implies list[j] != ',' by {
            assert(list.take(end)[j] == list[j]);
            assert(list.take(end).contains(list.take(end)[j]));
        }
        crate::text::lemma_find_is(list, ',', end);
    }
    if i < list.len() {
        let rest = list.skip(i + 1);
        assert forall|j: int|
            0 <= j < tag_list(rest).len() && is_entity_tag(
                crate::text::trim(#[trigger] tag_list(rest)[j]),
            ) implies !tag_list(rest)[j].contains(',') by {
            assert(pieces[j + 1] == tag_list(rest)[j]);
        }
        law_plain_list(rest);
    }
}

/// Whether a text opens the quotes of an entity tag and does not close them.
pub open spec fn is_open(tag: Seq<char>) -> bool {
    let b = quote_start(tag);
    b < tag.len() && tag[b] == '"' && next_quote(tag, b + 1) == tag.len()
}

/// Whether a text is one piece of a list wherever it stands in one: it is an entity tag with
/// blanks around it, or it holds no comma and does not leave the quotes of an entity tag open.
pub open spec fn is_whole(tag: Seq<char>) -> bool {
    entity_tag_end(tag) == Some(tag.len() as int) || (!tag.contains(',') && !is_open(tag))
}

/// An entity tag: the text in quotes, behind the mark of a weak one where it is weak.
pub open spec fn entity_tag(weak: bool, text: Seq<char>) -> Seq<char> {
    if weak {
        seq!['W', '/', '"'] + text + seq!['"']
    } else {
        seq!['"'] + text + seq!['"']
    }
}

proof fn lemma_whole_ends(tag: Seq<char>, rest: Seq<char>)
    requires
        is_whole(tag),
    ensures
        tag_end(tag) == tag.len(),
        tag_end(tag.push(',') + rest) == tag.len(),
{
    let s = tag.push(',') + rest;
    let n = tag.len() as int;
    assert forall|i: int| 0 <= i < n implies s[i] == tag[i] by {}
    assert(s[n] == ',');
    let a = blank_run(tag, 0);
    lemma_blank_run(tag, 0);
    lemma_blank_run_is(s, 0, a);
    let b = quote_start(tag);
    assert(quote_start(s) == b);
    if !tag.contains(',') {
        assert forall|j: int| 0 <= j < n implies s[j] != ',' && tag[j] != ',' by {
            assert(tag.contains(tag[j]));
        }
        crate::text::lemma_find_is(s, ',', n);
        crate::text::lemma_find_is(tag, ',', n);
    }
    if b < n && tag[b] == '"' {
        let c = next_quote(tag, b + 1);
        lemma_next_quote(tag, b + 1);
        if c < n {
            lemma_next_quote_is(s, b + 1, c);
            let d = blank_run(tag, c + 1);
            lemma_blank_run(tag, c + 1);
            lemma_blank_run_is(s, c + 1, d);
            if !tag.contains(',') && d < n {
                assert(tag.contains(tag[d]));
            }
        }
    }
}

/// A list that is put together from whole pieces is taken apart into them.
pub proof fn law_list_of_whole_tags(tags: Seq<Seq<char>>)
    requires
        tags.len() > 0,
        forall|i: int| 0 <= i < tags.len() ==> is_whole(#[trigger] tags[i]),
    ensures
        tag_list(crate::text::joined(tags, ',')) == tags,
    decreases tags.len(),
{
    let list = crate::text::joined(tags, ',');
    let first = tags[0];
    if tags.len() == 1 {
        lemma_whole_ends(first, Seq::empty());
        assert(tag_list(list) =~= tags);
    } else {
        let rest = tags.drop_first();
        assert forall|i: int| 0 <= i < rest.len() implies is_whole(#[trigger] rest[i]) by {
            assert(rest[i] == tags[i + 1]);
        }
        law_list_of_whole_tags(rest);
        lemma_whole_ends(first, crate::text::joined(rest, ','));
        assert(list.take(first.len() as int) =~= first);
        assert(list.skip(first.len() as int + 1) =~= crate::text::joined(rest, ','));
        assert(tag_list(list) =~= tags);
    }
}

/// An entity tag is whole, with blanks on either side, also where there are commas inside its
/// quotes.
pub proof fn law_entity_tag_is_whole(
    before: Seq<char>,
    weak: bool,
    text: Seq<char>,
    behind: Seq<char>,
)
    requires
        forall|i: int| 0 <= i < before.len() ==> (#[trigger] before[i] == ' ' || before[i] == '\t'),
        !text.contains('"'),
        forall|i: int| 0 <= i < behind.len() ==> (#[trigger] behind[i] == ' ' || behind[i] == '\t'),
    ensures
        is_whole(before + entity_tag(weak, text) + behind),
{
    let s = before + entity_tag(weak, text) + behind;
    let a = before.len() as int;
    let b: int = if weak {
        a + 2
    } else {
        a
    };
    let c = b + 1 + text.len();
    lemma_blank_run_is(s, 0, a);
    assert(quote_start(s) == b);
    assert forall|i: int| b + 1 <= i < c implies #[trigger] s[i] != '"' by {
        assert(s[i] == text[i - b - 1]);
        assert(text.contains(text[i - b - 1]));
    }
    lemma_next_quote_is(s, b + 1, c);
    assert forall|i: int| c + 1 <= i < s.len() implies crate::text::is_blank(#[trigger] s[i]) by {
        assert(s[i] == behind[i - c - 1]);
    }
    lemma_blank_run_is(s, c + 1, s.len() as int);
}

/// The entity tags are those that [`entity_tag`] writes around a text without quotes; in a weak
/// comparison only that text counts.
pub proof fn law_opaque_tag(weak: bool, text: Seq<char>)
    requires
        !text.contains('"'),
    ensures
        is_entity_tag(entity_tag(weak, text)),
        is_weak(entity_tag(weak, text)) == weak,
        opaque_tag(entity_tag(weak, text)) == entity_tag(false, text),
{
    let quoted = entity_tag(false, text);
    assert forall|i: int| 0 < i < quoted.len() - 1 implies #[trigger] quoted[i] != '"' by {
        assert(text.contains(text[i - 1]));
    }
    if weak {
        assert(entity_tag(weak, text).skip(2) =~= quoted);
    }
}

/// Only a weak entity tag has a mark to lose: `W/` and then a text in quotes without a quote in it.
pub proof fn law_only_weak_tags_are_marked(tag: Seq<char>, text: Seq<char>)
    requires
        text == tag.subrange(3, tag.len() - 1),
    ensures
        opaque_tag(tag) != tag ==> {
            &&& tag.len() >= 4
            &&& tag == seq!['W', '/', '"'] + text + seq!['"']
            &&& !text.contains('"')
            &&& opaque_tag(tag) == seq!['"'] + text + seq!['"']
        },
{
    if opaque_tag(tag) != tag {
        let quoted = tag.skip(2);
        assert(is_quoted(quoted));
        assert(tag =~= seq!['W', '/', '"'] + text + seq!['"']) by {
            assert(tag[2] == quoted[0]);
            assert(tag.last() == quoted.last());
        }
        assert(quoted =~= seq!['"'] + text + seq!['"']);
        assert forall|i: int| 0 <= i < text.len() implies text[i] != '"' by {
            assert(quoted[i + 1] == text[i]);
        }
    }
}

} // verus!
