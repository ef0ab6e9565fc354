//! Text as sequences of characters: searching, splitting, trimming and numbers.

use vstd::prelude::*;
use vstd::slice::slice_subrange;
use vstd::string::*;

verus! {

/// Position of the first `x` in `s`, or `s.len()` when `s` holds none.
pub open spec fn find<T>(s: Seq<T>, x: T) -> nat
    decreases s.len(),
{
    if s.len() == 0 || s[0] == x {
        0
    } else {
        1 + find(s.drop_first(), x)
    }
}

/// `find` gives the least position that holds `x`.
pub proof fn lemma_find<T>(s: Seq<T>, x: T)
    ensures
        find(s, x) <= s.len(),
        find(s, x) < s.len() ==> s[find(s, x) as int] == x,
        forall|j: int| 0 <= j < find(s, x) ==> s[j] != x,
    decreases s.len(),
{
    if s.len() != 0 && s[0] != x {
        let rest = s.drop_first();
        lemma_find(rest, x);
        assert forall|j: int| 0 <= j < find(s, x) implies s[j] != x by {
            if j > 0 {
                assert(s[j] == rest[j - 1]);
            }
        }
    }
}

/// A position before which `x` does not occur, and at which it does or the sequence ends, is
/// the one that `find` gives.
pub proof fn lemma_find_is<T>(s: Seq<T>, x: T, i: int)
    requires
        0 <= i <= s.len(),
        i < s.len() ==> s[i] == x,
        forall|j: int| 0 <= j < i ==> s[j] != x,
    ensures
        find(s, x) == i,
{
    lemma_find(s, x);
    let k = find(s, x) as int;
    if k < i {
        assert(s[k] == x);
    } else if i < k {
        assert(s[i] != x);
    }
}

/// The text before and after the first `c`, or nothing when `c` does not occur.
pub open spec fn split_once(s: Seq<char>, c: char) -> Option<(Seq<char>, Seq<char>)> {
    let i = find(s, c) as int;
    if i < s.len() {
        Some((s.take(i), s.skip(i + 1)))
    } else {
        None
    }
}

/// The pieces of `s` between the occurrences of `sep`, always at least one.
pub open spec fn split(s: Seq<char>, sep: char) -> Seq<Seq<char>>
    decreases s.len(),
{
    let i = find(s, sep) as int;
    if i < s.len() {
        seq![s.take(i)] + split(s.skip(i + 1), sep)
    } else {
        seq![s]
    }
}

/// The pieces with `sep` between them.
pub open spec fn joined(pieces: Seq<Seq<char>>, sep: char) -> Seq<char>
    decreases pieces.len(),
{
    if pieces.len() == 0 {
        Seq::empty()
    } else if pieces.len() == 1 {
        pieces[0]
    } else {
        pieces[0].push(sep) + joined(pieces.drop_first(), sep)
    }
}

/// Splitting a joined text gives the pieces back.
pub proof fn lemma_split_joined(pieces: Seq<Seq<char>>, sep: char)
    requires
        pieces.len() > 0,
        forall|i: int| 0 <= i < pieces.len() ==> !(#[trigger] pieces[i]).contains(sep),
    ensures
        split(joined(pieces, sep), sep) == pieces,
    decreases pieces.len(),
{
    let s = joined(pieces, sep);
    let first = pieces[0];
    assert forall|j: int| 0 <= j < first.len() implies s[j] != sep by {
        assert(first.contains(first[j]));
        assert(s[j] == first[j]);
    }
    if pieces.len() == 1 {
        lemma_find_is(s, sep, first.len() as int);
        assert(split(s, sep) =~= pieces);
    } else {
        let rest = pieces.drop_first();
        assert forall|i: int| 0 <= i < rest.len() implies !(#[trigger] rest[i]).contains(sep) by {
            assert(rest[i] == pieces[i + 1]);
        }
        lemma_split_joined(rest, sep);
        lemma_find_is(s, sep, first.len() as int);
        assert(s.take(first.len() as int) =~= first);
        assert(s.skip(first.len() as int + 1) =~= joined(rest, sep));
        assert(split(s, sep) =~= pieces);
    }
}

/// The whitespace that can stand in a header value.
pub open spec fn is_blank(c: char) -> bool {
    c == ' ' || c == '\t'
}

/// `s` without its leading blanks.
pub open spec fn trim_start(s: Seq<char>) -> Seq<char>
    decreases s.len(),
{
    if s.len() != 0 && is_blank(s[0]) {
        trim_start(s.drop_first())
    } else {
        s
    }
}

/// `s` without its trailing blanks.
pub open spec fn trim_end(s: Seq<char>) -> Seq<char>
    decreases s.len(),
{
    if s.len() != 0 && is_blank(s.last()) {
        trim_end(s.drop_last())
    } else {
        s
    }
}

/// `s` without the blanks at its two ends.
pub open spec fn trim(s: Seq<char>) -> Seq<char> {
    trim_end(trim_start(s))
}

/// Between blanks, a text that starts and ends with other characters is what trimming leaves.
pub proof fn lemma_trim_is(s: Seq<char>, from: int, to: int)
    requires
        0 <= from < to <= s.len(),
        forall|i: int| 0 <= i < from ==> is_blank(#[trigger] s[i]),
        forall|i: int| to <= i < s.len() ==> is_blank(#[trigger] s[i]),
        !is_blank(s[from]),
        !is_blank(s[to - 1]),
    ensures
        trim(s) == s.subrange(from, to),
    decreases s.len(),
{
    if from > 0 {
        assert(is_blank(s[0]));
        let rest = s.drop_first();
        assert forall|i: int| 0 <= i < from - 1 implies is_blank(#[trigger] rest[i]) by {
            assert(rest[i] == s[i + 1]);
        }
        assert forall|i: int| to - 1 <= i < rest.len() implies is_blank(#[trigger] rest[i]) by {
            assert(rest[i] == s[i + 1]);
        }
        lemma_trim_is(rest, from - 1, to - 1);
        assert(rest.subrange(from - 1, to - 1) =~= s.subrange(from, to));
    } else if to < s.len() {
        assert(is_blank(s[s.len() - 1]));
        lemma_trim_is(s.drop_last(), from, to);
        assert(s.drop_last().subrange(from, to) =~= s.subrange(from, to));
        assert(trim_start(s) == s);
        assert(trim_start(s.drop_last()) == s.drop_last());
    } else {
        assert(s.subrange(from, to) =~= s);
    }
}

/// An ASCII decimal digit.
pub open spec fn is_digit(c: char) -> bool {
    '0' <= c <= '9'
}

/// The number that a string of decimal digits writes; 0 for the empty one.
pub open spec fn decimal_value(s: Seq<char>) -> nat
    decreases s.len(),
{
    if s.len() == 0 {
        0
    } else {
        decimal_value(s.drop_last()) * 10 + (s.last() as nat - '0' as nat) as nat
    }
}

/// `n` in decimal, without leading zeros.
pub open spec fn decimal(n: nat) -> Seq<char>
    decreases n,
{
    if n < 10 {
        seq![(n + '0' as nat) as char]
    } else {
        decimal(n / 10).push((n % 10 + '0' as nat) as char)
    }
}

/// One or more decimal digits.
pub open spec fn all_digits(s: Seq<char>) -> bool {
    s.len() > 0 && forall|i: int| 0 <= i < s.len() ==> is_digit(#[trigger] s[i])
}

/// The `u32` that `s` writes in decimal: digits only, after at most one `+`, and in range.
pub open spec fn u32_of(s: Seq<char>) -> Option<u32> {
    let digits = if s.len() > 0 && s[0] == '+' {
        s.drop_first()
    } else {
        s
    };
    if all_digits(digits) && decimal_value(digits) <= u32::MAX {
        Some(decimal_value(digits) as u32)
    } else {
        None
    }
}

/// Reading back a number that was written gives the number.
pub proof fn lemma_decimal(n: nat)
    ensures
        all_digits(decimal(n)),
        decimal_value(decimal(n)) == n,
    decreases n,
{
    let last = (n % 10 + '0' as nat) as char;
    if n < 10 {
        let s = seq![(n + '0' as nat) as char];
        assert(s.drop_last() =~= Seq::<char>::empty());
        reveal_with_fuel(decimal_value, 2);
    } else {
        lemma_decimal(n / 10);
        assert(decimal(n).drop_last() =~= decimal(n / 10));
        assert(decimal(n).last() == last);
    }
}

/// A prefix of digits never writes a larger number than the whole.
proof fn lemma_decimal_value_prefix(s: Seq<char>, i: int)
    requires
        0 <= i <= s.len(),
    ensures
        decimal_value(s.take(i)) <= decimal_value(s),
    decreases s.len() - i,
{
    if i < s.len() {
        lemma_decimal_value_prefix(s, i + 1);
        assert(s.take(i + 1).drop_last() =~= s.take(i));
    } else {
        assert(s.take(i) =~= s);
    }
}

/// The characters of `s`.
pub fn chars_of(s: &str) -> (chars: Vec<char>)
    ensures
        chars@ == s@,
{
    let mut chars: Vec<char> = Vec::new();
    for c in iter: s.chars()
        invariant
            iter.seq() == s@,
            chars@ == s@.take(iter.index() as int),
    {
        chars.push(c);
        assert(chars@ =~= s@.take(iter.index() + 1));
    }
    assert(s@.take(s@.len() as int) =~= s@);
    chars
}

/// Position of the first `c`, or the length.
pub fn find_char(s: &[char], c: char) -> (i: usize)
    ensures
        i == find(s@, c),
{
    let mut i: usize = 0;
    while i < s.len() && s[i] != c
        invariant
            i <= s@.len(),
            forall|j: int| 0 <= j < i ==> s@[j] != c,
        decreases s@.len() - i,
    {
        i += 1;
    }
    proof {
        lemma_find_is(s@, c, i as int);
    }
    i
}

/// Whether two texts are the same.
pub fn same_chars(a: &[char], b: &[char]) -> (same: bool)
    ensures
        same == (a@ == b@),
{
    if a.len() != b.len() {
        return false;
    }
    let mut i: usize = 0;
    while i < a.len()
        invariant
            i <= a@.len(),
            a@.len() == b@.len(),
            forall|j: int| 0 <= j < i ==> a@[j] == b@[j],
        decreases a@.len() - i,
    {
        if a[i] != b[i] {
            return false;
        }
        i += 1;
    }
    assert(a@ =~= b@);
    true
}

/// Whether `s` ends with `suffix`.
pub fn ends_with(s: &str, suffix: &str) -> (r: bool)
    ensures
        r == suffix@.is_suffix_of(s@),
{
    let chars = chars_of(s);
    let tail = chars_of(suffix);
    if tail.len() > chars.len() {
        return false;
    }
    let from: usize = chars.len() - tail.len();
    let end = slice_subrange(chars.as_slice(), from, chars.len());
    same_chars(end, tail.as_slice())
}

/// `s` without the blanks at its two ends.
pub fn trimmed<'a>(s: &'a [char]) -> (r: &'a [char])
    ensures
        r@ == trim(s@),
{
    let mut from: usize = 0;
    assert(s@.skip(0) =~= s@);
    while from < s.len() && (s[from] == ' ' || s[from] == '\t')
        invariant
            from <= s@.len(),
            trim_start(s@.skip(from as int)) == trim_start(s@),
        decreases s@.len() - from,
    {
        assert(s@.skip(from as int).drop_first() =~= s@.skip(from + 1));
        from += 1;
    }
    assert(trim_start(s@) == s@.skip(from as int));
    let mut to: usize = s.len();
    assert(s@.subrange(from as int, to as int) =~= s@.skip(from as int));
    while from < to && (s[to - 1] == ' ' || s[to - 1] == '\t')
        invariant
            from <= to <= s@.len(),
            trim_end(s@.subrange(from as int, to as int)) == trim(s@),
        decreases to,
    {
        assert(s@.subrange(from as int, to as int).drop_last() =~= s@.subrange(
            from as int,
            to - 1,
        ));
        to -= 1;
    }
    slice_subrange(s, from, to)
}

/// Reads a `u32` in decimal.
pub fn parse_u32(s: &[char]) -> (n: Option<u32>)
    ensures
        n == u32_of(s@),
{
    let from: usize = if s.len() > 0 && s[0] == '+' {
        1
    } else {
        0
    };
    let digits = slice_subrange(s, from, s.len());
    assert(from == 1 ==> digits@ =~= s@.drop_first());
    assert(from == 0 ==> digits@ =~= s@);
    if digits.len() == 0 {
        return None;
    }
    let mut n: u32 = 0;
    let mut i: usize = 0;
    while i < digits.len()
        invariant
            i <= digits@.len(),
            forall|j: int| 0 <= j < i ==> is_digit(#[trigger] digits@[j]),
            n == decimal_value(digits@.take(i as int)),
            digits@ == (if s@.len() > 0 && s@[0] == '+' {
                s@.drop_first()
            } else {
                s@
            }),
        decreases digits@.len() - i,
    {
        let c = digits[i];
        if c < '0' || c > '9' {
            assert(!is_digit(digits@[i as int]));
            return None;
        }
        let d: u32 = c as u32 - '0' as u32;
        proof {
            assert(digits@.take(i + 1).drop_last() =~= digits@.take(i as int));
            lemma_decimal_value_prefix(digits@, i + 1);
        }
        if n > (u32::MAX - d) / 10 {
            return None;
        }
        n = n * 10 + d;
        i += 1;
    }
    assert(digits@.take(i as int) =~= digits@);
    Some(n)
}

/// Appends `n` in decimal.
pub fn append_decimal(out: &mut String, n: u64)
    ensures
        final(out)@ == old(out)@ + decimal(n as nat),
    decreases n,
{
    if n >= 10 {
        append_decimal(out, n / 10);
    }
    let d: u64 = n % 10;
    proof {
        reveal_strlit("0");
        reveal_strlit("1");
        reveal_strlit("2");
        reveal_strlit("3");
        reveal_strlit("4");
        reveal_strlit("5");
        reveal_strlit("6");
        reveal_strlit("7");
        reveal_strlit("8");
        reveal_strlit("9");
    }
    let digit = match d {
        0 => "0",
        1 => "1",
        2 => "2",
        3 => "3",
        4 => "4",
        5 => "5",
        6 => "6",
        7 => "7",
        8 => "8",
        _ => "9",
    };
    assert(digit@ =~= seq![(d as nat + '0' as nat) as char]);
    out.append(digit);
    assert(out@ =~= old(out)@ + decimal(n as nat));
}

/// [`String::push`] appends one character.
pub assume_specification[ String::push ](s: &mut String, c: char)
    ensures
        final(s)@ == old(s)@.push(c),
;

/// The characters as a string.
pub fn string_of(chars: &[char]) -> (s: String)
    ensures
        s@ == chars@,
{
    let mut s = String::new();
    let mut i: usize = 0;
    while i < chars.len()
        invariant
            i <= chars@.len(),
            s@ == chars@.take(i as int),
        decreases chars@.len() - i,
    {
        s.push(chars[i]);
        i += 1;
        assert(s@ =~= chars@.take(i as int));
    }
    assert(chars@.take(i as int) =~= chars@);
    s
}

/// The texts that a list of slices holds.
pub open spec fn texts(pieces: Seq<&[char]>) -> Seq<Seq<char>> {
    pieces.map_values(|piece: &[char]| piece@)
}

/// The pieces of `s` between the occurrences of `sep`, always at least one.
pub fn split_chars<'a>(s: &'a [char], sep: char) -> (pieces: Vec<&'a [char]>)
    ensures
        texts(pieces@) == split(s@, sep),
{
    let mut pieces: Vec<&'a [char]> = Vec::new();
    let mut rest: &'a [char] = s;
    assert(texts(pieces@) + split(rest@, sep) =~= split(s@, sep));
    loop
        invariant
            texts(pieces@) + split(rest@, sep) == split(s@, sep),
        decreases rest@.len(),
    {
        let i = find_char(rest, sep);
        let ghost before = texts(pieces@);
        if i >= rest.len() {
            pieces.push(rest);
            assert(texts(pieces@) =~= before + seq![rest@]);
            return pieces;
        }
        let piece = slice_subrange(rest, 0, i);
        let behind = slice_subrange(rest, i + 1, rest.len());
        assert(piece@ =~= rest@.take(i as int));
        assert(behind@ =~= rest@.skip(i + 1));
        pieces.push(piece);
        assert(texts(pieces@) =~= before + seq![piece@]);
        assert(texts(pieces@) + split(behind@, sep) =~= before + split(rest@, sep));
        rest = behind;
    }
}

/// An ASCII capital letter made small; any other character as it is.
pub open spec fn ascii_lower(c: char) -> char {
    if 'A' <= c <= 'Z' {
        (c as u32 + 32) as char
    } else {
        c
    }
}

/// Whether two texts are the same but for the case of ASCII letters.
pub open spec fn same_ignoring_case(a: Seq<char>, b: Seq<char>) -> bool {
    &&& a.len() == b.len()
    &&& forall|i: int| 0 <= i < a.len() ==> ascii_lower(#[trigger] a[i]) == ascii_lower(b[i])
}

fn to_lower(c: char) -> (l: char)
    ensures
        l == ascii_lower(c),
{
    if 'A' <= c && c <= 'Z' {
        (c as u8 + 32) as char
    } else {
        c
    }
}

/// Whether two texts are the same but for the case of ASCII letters.
pub fn eq_ignore_case(a: &[char], b: &str) -> (same: bool)
    ensures
        same == same_ignoring_case(a@, b@),
{
    let other = chars_of(b);
    if a.len() != other.len() {
        return false;
    }
    let mut i: usize = 0;
    while i < a.len()
        invariant
            i <= a@.len(),
            a@.len() == other@.len(),
            other@ == b@,
            forall|j: int| 0 <= j < i ==> ascii_lower(#[trigger] a@[j]) == ascii_lower(b@[j]),
        decreases a@.len() - i,
    {
        if to_lower(a[i]) != to_lower(other[i]) {
            return false;
        }
        i += 1;
    }
    true
}

/// Splitting once at a character gives what stands before and behind its first occurrence.
pub proof fn law_split_once(before: Seq<char>, c: char, behind: Seq<char>)
    requires
        !before.contains(c),
    ensures
        split_once(before + seq![c] + behind, c) == Some((before, behind)),
        split_once(before, c) is None,
{
    let s = before + seq![c] + behind;
    assert forall|j: int| 0 <= j < before.len() implies s[j] != c && before[j] != c by {
        assert(before.contains(before[j]));
    }
    lemma_find_is(s, c, before.len() as int);
    lemma_find_is(before, c, before.len() as int);
    assert(s.take(before.len() as int) =~= before);
    assert(s.skip(before.len() as int + 1) =~= behind);
}

/// The pieces of a text hold no separator, and with separators between them they make up the text.
pub proof fn law_split_makes_up_text(s: Seq<char>, sep: char)
    ensures
        split(s, sep).len() > 0,
        joined(split(s, sep), sep) == s,
        forall|i: int| 0 <= i < split(s, sep).len() ==> !(#[trigger] split(s, sep)[i]).contains(sep),
    decreases s.len(),
{
    lemma_find(s, sep);
    let i = find(s, sep) as int;
    let pieces = split(s, sep);
    if i < s.len() {
        let rest = s.skip(i + 1);
        law_split_makes_up_text(rest, sep);
        assert(pieces.drop_first() =~= split(rest, sep));
        assert(joined(pieces, sep) =~= s);
        assert forall|k: int| 0 <= k < pieces.len() implies !(#[trigger] pieces[k]).contains(
            sep,
        ) by {
            if k > 0 {
                assert(pieces[k] == split(rest, sep)[k - 1]);
            }
        }
    }
}

/// Trimming takes the spaces and tabs at both ends away and nothing else.
pub proof fn law_trim(before: Seq<char>, core: Seq<char>, behind: Seq<char>)
    requires
        forall|i: int| 0 <= i < before.len() ==> (#[trigger] before[i] == ' ' || before[i] == '\t'),
        forall|i: int| 0 <= i < behind.len() ==> (#[trigger] behind[i] == ' ' || behind[i] == '\t'),
        core.len() > 0 ==> core[0] != ' ' && core[0] != '\t' && core.last() != ' ' && core.last()
            != '\t',
    ensures
        trim(before + core + behind) == core,
{
    let s = before + core + behind;
    if core.len() > 0 {
        let from = before.len() as int;
        let to = from + core.len();
        assert forall|i: int| to <= i < s.len() implies is_blank(#[trigger] s[i]) by {
            assert(s[i] == behind[i - to]);
        }
        lemma_trim_is(s, from, to);
        assert(s.subrange(from, to) =~= core);
    } else {
        assert forall|i: int| 0 <= i < s.len() implies is_blank(#[trigger] s[i]) by {
            if i >= before.len() {
                assert(s[i] == behind[i - before.len()]);
            }
        }
        lemma_trim_blanks(s);
    }
}

proof fn lemma_trim_blanks(s: Seq<char>)
    requires
        forall|i: int| 0 <= i < s.len() ==> is_blank(#[trigger] s[i]),
    ensures
        trim(s) == Seq::<char>::empty(),
    decreases s.len(),
{
    if s.len() > 0 {
        assert(is_blank(s[0]));
        let rest = s.drop_first();
        assert forall|i: int| 0 <= i < rest.len() implies is_blank(#[trigger] rest[i]) by {
            assert(rest[i] == s[i + 1]);
        }
        lemma_trim_blanks(rest);
    } else {
        assert(trim(s) =~= Seq::<char>::empty());
    }
}

/// A number in decimal: its last digit stands for the ones, and what stands before it is the number
/// of tens.
pub proof fn law_decimal_digits(tens: nat, ones: nat)
    requires
        ones < 10,
    ensures
        tens == 0 ==> decimal(ones) == seq!["0123456789"@[ones as int]],
        tens > 0 ==> decimal(10 * tens + ones) == decimal(tens).push("0123456789"@[ones as int]),
{
    reveal_strlit("0123456789");
    if tens > 0 {
        let n = 10 * tens + ones;
        assert(n / 10 == tens && n % 10 == ones);
    }
}

/// The number that a text of digits writes: a further digit makes it ten times as large and adds
/// the digit.
pub proof fn law_decimal_value(s: Seq<char>, digit: nat)
    requires
        digit < 10,
    ensures
        decimal_value(Seq::empty()) == 0,
        decimal_value(s.push("0123456789"@[digit as int])) == 10 * decimal_value(s) + digit,
{
    reveal_strlit("0123456789");
    assert(s.push("0123456789"@[digit as int]).drop_last() =~= s);
}

/// A number is read back from its digits, with zeros and a plus sign before it, if it fits 32 bits.
pub proof fn law_u32_reads_back(sign: Seq<char>, zeros: Seq<char>, n: nat)
    requires
        sign.len() == 0 || sign == seq!['+'],
        forall|i: int| 0 <= i < zeros.len() ==> zeros[i] == '0',
    ensures
        n <= 0xffff_ffff ==> u32_of(sign + zeros + decimal(n)) == Some(n as u32),
        n > 0xffff_ffff ==> u32_of(sign + zeros + decimal(n)) is None,
{
    let digits = zeros + decimal(n);
    let s = sign + zeros + decimal(n);
    lemma_decimal(n);
    lemma_leading_zeros(zeros, decimal(n));
    assert forall|i: int| 0 <= i < digits.len() implies is_digit(#[trigger] digits[i]) by {
        if i >= zeros.len() {
            assert(digits[i] == decimal(n)[i - zeros.len()]);
        }
    }
    if sign.len() == 0 {
        assert(s =~= digits);
        assert(is_digit(digits[0]));
    } else {
        assert(s.drop_first() =~= digits);
    }
}

/// Zeros before a number do not change it.
pub proof fn lemma_leading_zeros(zeros: Seq<char>, digits: Seq<char>)
    requires
        forall|i: int| 0 <= i < zeros.len() ==> zeros[i] == '0',
    ensures
        decimal_value(zeros + digits) == decimal_value(digits),
    decreases zeros.len() + digits.len(),
{
    let all = zeros + digits;
    if digits.len() != 0 {
        assert(all.drop_last() =~= zeros + digits.drop_last());
        lemma_leading_zeros(zeros, digits.drop_last());
    } else if zeros.len() != 0 {
        assert(all.drop_last() =~= zeros.drop_last() + digits);
        lemma_leading_zeros(zeros.drop_last(), digits);
    }
}

/// A text is not read as a number when it holds no digit, or a character that is not a digit and
/// not a plus sign at its start.
pub proof fn law_u32_refuses(s: Seq<char>, at: int)
    requires
        s.len() == 0 || s == seq!['+'] || (0 <= at < s.len() && !('0' <= s[at] <= '9') && !(at == 0
            && s[at] == '+')),
    ensures
        u32_of(s) is None,
{
    if s.len() > 0 && s != seq!['+'] {
        let digits = if s[0] == '+' {
            s.drop_first()
        } else {
            s
        };
        if s[0] == '+' {
            assert(digits[at - 1] == s[at]);
        } else {
            assert(digits[at] == s[at]);
        }
    } else if s.len() > 0 {
        assert(s.drop_first().len() == 0);
    }
}

/// Two texts are the same but for case when each character of one is that of the other, or the
/// same letter of the other case.
pub proof fn law_same_ignoring_case(a: Seq<char>, b: Seq<char>)
    ensures
        same_ignoring_case(a, b) == (a.len() == b.len() && forall|i: int|
            0 <= i < a.len() ==> {
                ||| #[trigger] a[i] == b[i]
                ||| 'a' <= a[i] <= 'z' && a[i] as u32 == b[i] as u32 + 0x20
                ||| 'a' <= b[i] <= 'z' && b[i] as u32 == a[i] as u32 + 0x20
            }),
{
    assert forall|i: int| 0 <= i < a.len() && i < b.len() implies (ascii_lower(#[trigger] a[i])
        == ascii_lower(b[i])) == (a[i] == b[i] || ('a' <= a[i] <= 'z' && a[i] as u32 == b[i] as u32
        + 0x20) || ('a' <= b[i] <= 'z' && b[i] as u32 == a[i] as u32 + 0x20)) by {}
}

/// A list of slices has the text of each of them.
pub proof fn law_texts(pieces: Seq<&[char]>, i: int)
    ensures
        texts(pieces).len() == pieces.len(),
        0 <= i < pieces.len() ==> texts(pieces)[i] == pieces[i]@,
{
}

} // verus!
