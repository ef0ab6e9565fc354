//! POSIX tar headers.

use vstd::prelude::*;
use vstd::slice::slice_subrange;
use vstd::string::*;

use crate::error::TarError;

verus! {

/// Size of a POSIX tar header block.
pub const TAR_BLOCK_SIZE: usize = 512;

/// Length of the name field, which starts the header.
pub const NAME_LEN: usize = 100;

/// Where the size field starts and ends.
pub const SIZE_START: usize = 124;

pub const SIZE_END: usize = 136;

/// Where the checksum field starts and ends.
pub const CHECKSUM_START: usize = 148;

pub const CHECKSUM_END: usize = 156;

/// The error of [`std::str::from_utf8`].
#[verifier::external_type_specification]
#[verifier::external_body]
pub struct ExUtf8Error(core::str::Utf8Error);

/// [`std::str::from_utf8`] accepts exactly the valid UTF-8 byte strings, and the text that it
/// gives has these bytes.
pub assume_specification<'a>[ core::str::from_utf8 ](v: &'a [u8]) -> (r: Result<
    &'a str,
    core::str::Utf8Error,
>)
    ensures
        match r {
            Ok(s) => vstd::utf8::valid_utf8(v@) && s.spec_bytes() == v@,
            Err(_) => !vstd::utf8::valid_utf8(v@),
        },
;

/// An ASCII octal digit.
pub open spec fn is_octal(b: u8) -> bool {
    0x30 <= b <= 0x37
}

/// The number that the octal digits of a field write; every other byte is passed over.
pub open spec fn octal_value(field: Seq<u8>) -> nat
    decreases field.len(),
{
    if field.len() == 0 {
        0
    } else if is_octal(field.last()) {
        octal_value(field.drop_last()) * 8 + (field.last() - 0x30) as nat
    } else {
        octal_value(field.drop_last())
    }
}

/// 8 to the power of `n`.
pub open spec fn eights(n: nat) -> nat
    decreases n,
{
    if n == 0 {
        1
    } else {
        8 * eights((n - 1) as nat)
    }
}

/// A field of `n` bytes writes less than 8 to the power of `n`.
pub proof fn lemma_octal_bound(field: Seq<u8>)
    ensures
        octal_value(field) < eights(field.len()),
    decreases field.len(),
{
    if field.len() != 0 {
        lemma_octal_bound(field.drop_last());
    }
}

proof fn lemma_octal_prefix(field: Seq<u8>, i: int)
    requires
        0 <= i <= field.len(),
    ensures
        octal_value(field.take(i)) <= octal_value(field),
    decreases field.len() - i,
{
    if i < field.len() {
        lemma_octal_prefix(field, i + 1);
        assert(field.take(i + 1).drop_last() =~= field.take(i));
    } else {
        assert(field.take(i) =~= field);
    }
}

/// Reads an octal ASCII field of a tar header, padded with NULs and spaces.
pub fn octal_to_u64(field: &[u8]) -> (n: u64)
    requires
        octal_value(field@) <= u64::MAX,
    ensures
        n == octal_value(field@),
{
    let mut n: u64 = 0;
    let mut i: usize = 0;
    while i < field.len()
        invariant
            i <= field@.len(),
            n == octal_value(field@.take(i as int)),
            octal_value(field@) <= u64::MAX,
        decreases field@.len() - i,
    {
        let b = field[i];
        proof {
            assert(field@.take(i + 1).drop_last() =~= field@.take(i as int));
            lemma_octal_prefix(field@, i + 1);
        }
        if 0x30 <= b && b <= 0x37 {
            n = n * 8 + (b - 0x30) as u64;
        }
        i += 1;
    }
    assert(field@.take(i as int) =~= field@);
    n
}

/// The byte at `i` as the checksum counts it: the checksum field itself counts as spaces.
pub open spec fn counted_byte(raw: Seq<u8>, i: int) -> u8 {
    if CHECKSUM_START <= i < CHECKSUM_END {
        0x20
    } else {
        raw[i]
    }
}

/// A byte read as a two's complement number.
pub open spec fn signed_byte(b: u8) -> int {
    if b < 128 {
        b as int
    } else {
        b - 256
    }
}

/// Sum of the first `n` counted bytes.
pub open spec fn unsigned_sum(raw: Seq<u8>, n: nat) -> int
    decreases n,
{
    if n == 0 {
        0
    } else {
        unsigned_sum(raw, (n - 1) as nat) + counted_byte(raw, n - 1)
    }
}

/// Sum of the first `n` counted bytes, each with its sign.
pub open spec fn signed_sum(raw: Seq<u8>, n: nat) -> int
    decreases n,
{
    if n == 0 {
        0
    } else {
        signed_sum(raw, (n - 1) as nat) + signed_byte(counted_byte(raw, n - 1))
    }
}

/// Whether the stored checksum is one of the two sums over the whole header.
pub open spec fn checksum_matches(raw: Seq<u8>) -> bool {
    let stored = octal_value(raw.subrange(CHECKSUM_START as int, CHECKSUM_END as int));
    stored == unsigned_sum(raw, raw.len()) || stored == signed_sum(raw, raw.len())
}

/// The name field up to its first NUL.
pub open spec fn name_bytes(raw: Seq<u8>) -> Seq<u8> {
    let field = raw.take(NAME_LEN as int);
    field.take(crate::text::find(field, 0u8) as int)
}

/// The fields of a tar header that an index needs.
#[derive(Debug)]
pub struct TarHeader {
    pub name: String,
    pub size: u64,
}

/// A [`TarHeader`] with its name as characters.
pub struct TarHeaderView {
    pub name: Seq<char>,
    pub size: u64,
}

impl View for TarHeader {
    type V = TarHeaderView;

    open spec fn view(&self) -> TarHeaderView {
        TarHeaderView { name: self.name@, size: self.size }
    }
}

/// What a header block says, or what is wrong with it.
pub open spec fn header_of(raw: Seq<u8>) -> Result<TarHeaderView, crate::error::TarErrorView> {
    if !checksum_matches(raw) {
        Err(crate::error::TarErrorView::InvalidHeader("checksum mismatch"@))
    } else if !vstd::utf8::valid_utf8(name_bytes(raw)) {
        Err(crate::error::TarErrorView::InvalidHeader("name is not valid UTF-8"@))
    } else {
        Ok(
            TarHeaderView {
                name: vstd::utf8::decode_utf8(name_bytes(raw)),
                size: octal_value(raw.subrange(SIZE_START as int, SIZE_END as int)) as u64,
            },
        )
    }
}

/// The two numeric fields of a header fit their types.
pub proof fn lemma_header_fields(raw: Seq<u8>)
    requires
        raw.len() == TAR_BLOCK_SIZE,
    ensures
        octal_value(raw.subrange(CHECKSUM_START as int, CHECKSUM_END as int)) < 0x100_0000,
        octal_value(raw.subrange(SIZE_START as int, SIZE_END as int)) < 0x10_0000_0000,
{
    lemma_octal_bound(raw.subrange(CHECKSUM_START as int, CHECKSUM_END as int));
    lemma_octal_bound(raw.subrange(SIZE_START as int, SIZE_END as int));
    reveal_with_fuel(eights, 13);
}

impl TarHeader {
    /// Parses a header block after verifying its checksum.
    ///
    /// The checksum is accepted as a sum of unsigned or of signed bytes.
    pub fn parse(raw: &[u8; TAR_BLOCK_SIZE]) -> (r: Result<Self, TarError>)
        ensures
            crate::error::result_view(r) == header_of(raw@),
    {
        proof {
            lemma_header_fields(raw@);
        }
        let block: &[u8] = raw;
        let stored: u64 = octal_to_u64(slice_subrange(block, CHECKSUM_START, CHECKSUM_END));
        let mut unsigned: u64 = 0;
        let mut signed: i64 = 0;
        let mut i: usize = 0;
        while i < TAR_BLOCK_SIZE
            invariant
                i <= TAR_BLOCK_SIZE,
                block@ == raw@,
                block@.len() == TAR_BLOCK_SIZE,
                unsigned == unsigned_sum(raw@, i as nat),
                unsigned <= 255 * i,
                signed == signed_sum(raw@, i as nat),
                -128 * i <= signed <= 127 * i,
            decreases TAR_BLOCK_SIZE - i,
        {
            let b: u8 = if CHECKSUM_START <= i && i < CHECKSUM_END {
                0x20
            } else {
                block[i]
            };
            unsigned += b as u64;
            signed += if b < 128 {
                b as i64
            } else {
                b as i64 - 256
            };
            i += 1;
        }
        if stored != unsigned && stored as i64 != signed {
            return Err(TarError::InvalidHeader("checksum mismatch".to_owned()));
        }
        let field = slice_subrange(block, 0, NAME_LEN);
        assert(field@ =~= raw@.take(NAME_LEN as int));
        let end = find_nul(field);
        proof {
            crate::text::lemma_find(field@, 0u8);
        }
        let bytes = slice_subrange(field, 0, end);
        assert(bytes@ =~= name_bytes(raw@));
        match core::str::from_utf8(bytes) {
            Err(_) => Err(TarError::InvalidHeader("name is not valid UTF-8".to_owned())),
            Ok(name) => {
                proof {
                    vstd::utf8::encode_utf8_decode_utf8(name@);
                }
                let size: u64 = octal_to_u64(slice_subrange(block, SIZE_START, SIZE_END));
                Ok(Self { name: name.to_owned(), size })
            },
        }
    }
}

/// Position of the first NUL, or the length.
fn find_nul(s: &[u8]) -> (i: usize)
    ensures
        i == crate::text::find(s@, 0u8),
{
    let mut i: usize = 0;
    while i < s.len() && s[i] != 0
        invariant
            i <= s@.len(),
            forall|j: int| 0 <= j < i ==> s@[j] != 0,
        decreases s@.len() - i,
    {
        i += 1;
    }
    proof {
        crate::text::lemma_find_is(s@, 0u8, i as int);
    }
    i
}

/// `n` in octal with `width` digits.
pub open spec fn octal_text(n: nat, width: nat) -> Seq<u8>
    decreases width,
{
    if width == 0 {
        Seq::empty()
    } else {
        octal_text(n / 8, (width - 1) as nat).push((0x30 + n % 8) as u8)
    }
}

/// Bytes among which there is no octal digit, such as NULs and spaces.
pub open spec fn is_padding(bytes: Seq<u8>) -> bool {
    forall|i: int| 0 <= i < bytes.len() ==> (#[trigger] bytes[i] < 0x30 || bytes[i] > 0x37)
}

proof fn lemma_octal_text(n: nat, width: nat)
    requires
        n < eights(width),
    ensures
        octal_text(n, width).len() == width,
        octal_value(octal_text(n, width)) == n,
    decreases width,
{
    if width > 0 {
        let before = octal_text(n / 8, (width - 1) as nat);
        lemma_octal_text(n / 8, (width - 1) as nat);
        assert(octal_text(n, width).drop_last() =~= before);
        assert(is_octal((0x30 + n % 8) as u8));
    }
}

proof fn lemma_padding_behind(field: Seq<u8>, padding: Seq<u8>)
    requires
        is_padding(padding),
    ensures
        octal_value(field + padding) == octal_value(field),
    decreases padding.len(),
{
    if padding.len() == 0 {
        assert(field + padding =~= field);
    } else {
        assert((field + padding).drop_last() =~= field + padding.drop_last());
        lemma_padding_behind(field, padding.drop_last());
    }
}

proof fn lemma_padding_before(padding: Seq<u8>, field: Seq<u8>)
    requires
        is_padding(padding),
    ensures
        octal_value(padding + field) == octal_value(field),
    decreases field.len(),
{
    if field.len() == 0 {
        assert(padding + field =~= Seq::<u8>::empty() + padding);
        lemma_padding_behind(Seq::empty(), padding);
    } else {
        assert((padding + field).drop_last() =~= padding + field.drop_last());
        lemma_padding_before(padding, field.drop_last());
    }
}

/// An octal field reads back as the number written into it, whatever padding stands on either
/// side of the digits.
pub proof fn law_octal_reads_back(n: nat, width: nat, before: Seq<u8>, behind: Seq<u8>)
    requires
        n < eights(width),
        is_padding(before),
        is_padding(behind),
    ensures
        octal_value(before + octal_text(n, width) + behind) == n,
{
    lemma_octal_text(n, width);
    lemma_padding_before(before, octal_text(n, width));
    lemma_padding_behind(before + octal_text(n, width), behind);
}

/// The block with its checksum field filled in: the unsigned sum in six octal digits, a NUL and
/// a space.
pub open spec fn with_checksum(raw: Seq<u8>) -> Seq<u8> {
    raw.take(148) + octal_text(unsigned_sum(raw, raw.len()) as nat, 6).push(
        0,
    ).push(0x20) + raw.skip(156)
}

proof fn lemma_sum_same(a: Seq<u8>, b: Seq<u8>, n: nat)
    requires
        forall|i: int| 0 <= i < n ==> counted_byte(a, i) == #[trigger] counted_byte(b, i),
    ensures
        unsigned_sum(a, n) == unsigned_sum(b, n),
    decreases n,
{
    if n > 0 {
        lemma_sum_same(a, b, (n - 1) as nat);
        assert(counted_byte(a, n - 1) == counted_byte(b, n - 1));
    }
}

proof fn lemma_sum_bound(raw: Seq<u8>, n: nat)
    ensures
        0 <= unsigned_sum(raw, n) <= 255 * n,
    decreases n,
{
    if n > 0 {
        lemma_sum_bound(raw, (n - 1) as nat);
    }
}

proof fn lemma_with_checksum(raw: Seq<u8>)
    requires
        raw.len() == TAR_BLOCK_SIZE,
    ensures
        with_checksum(raw).len() == TAR_BLOCK_SIZE,
        checksum_matches(with_checksum(raw)),
        forall|i: int|
            0 <= i < TAR_BLOCK_SIZE && !(CHECKSUM_START <= i < CHECKSUM_END) ==> #[trigger]
                with_checksum(raw)[i] == raw[i],
{
    let n = unsigned_sum(raw, raw.len()) as nat;
    let block = with_checksum(raw);
    lemma_sum_bound(raw, raw.len());
    reveal_with_fuel(eights, 7);
    lemma_octal_text(n, 6);
    let field = octal_text(n, 6).push(0).push(0x20);
    assert(block.subrange(CHECKSUM_START as int, CHECKSUM_END as int) =~= field);
    let nothing = Seq::<u8>::empty();
    assert(nothing + octal_text(n, 6) + seq![0u8, 0x20u8] =~= field);
    law_octal_reads_back(n, 6, nothing, seq![0u8, 0x20u8]);
    lemma_sum_same(raw, block, TAR_BLOCK_SIZE as nat);
}

/// A header block reads back as the name and the size written into it, once its checksum is
/// filled in. Nothing is asked of the other fields.
pub proof fn law_header_reads_back(raw: Seq<u8>, name: Seq<char>, size: nat)
    requires
        raw.len() == 512,
        vstd::utf8::encode_utf8(name).len() <= 100,
        !vstd::utf8::encode_utf8(name).contains(0u8),
        raw.take(vstd::utf8::encode_utf8(name).len() as int) == vstd::utf8::encode_utf8(name),
        vstd::utf8::encode_utf8(name).len() < 100 ==> raw[vstd::utf8::encode_utf8(
            name,
        ).len() as int] == 0,
        size < eights(11),
        raw.subrange(124, 136) == octal_text(size, 11).push(0),
    ensures
        header_of(with_checksum(raw)) == Ok::<TarHeaderView, crate::error::TarErrorView>(
            TarHeaderView { name, size: size as u64 },
        ),
{
    let block = with_checksum(raw);
    let bytes = vstd::utf8::encode_utf8(name);
    lemma_with_checksum(raw);
    let field = block.take(NAME_LEN as int);
    assert forall|j: int| 0 <= j < bytes.len() implies field[j] == bytes[j] && field[j] != 0 by {
        assert(raw.take(bytes.len() as int)[j] == bytes[j]);
        assert(bytes.contains(bytes[j]));
    }
    crate::text::lemma_find_is(field, 0u8, bytes.len() as int);
    assert(name_bytes(block) =~= bytes);
    vstd::utf8::encode_utf8_valid_utf8(name);
    vstd::utf8::encode_utf8_decode_utf8(name);
    let digits = octal_text(size, 11);
    let nothing = Seq::<u8>::empty();
    assert(block.subrange(SIZE_START as int, SIZE_END as int) =~= raw.subrange(
        SIZE_START as int,
        SIZE_END as int,
    ));
    assert(nothing + digits + seq![0u8] =~= digits.push(0));
    law_octal_reads_back(size, 11, nothing, seq![0u8]);
}

/// Octal digits behind a field count as further digits of its number.
pub proof fn law_octal_digits_join(field: Seq<u8>, digits: Seq<u8>)
    requires
        forall|i: int| 0 <= i < digits.len() ==> 0x30 <= #[trigger] digits[i] <= 0x37,
    ensures
        octal_value(field + digits) == octal_value(field) * eights(digits.len()) + octal_value(
            digits,
        ),
    decreases digits.len(),
{
    if digits.len() == 0 {
        assert(field + digits =~= field);
        let v = octal_value(field);
        assert(v * 1 == v) by (nonlinear_arith);
    } else {
        let before = digits.drop_last();
        assert(is_octal(digits[digits.len() - 1]));
        assert forall|i: int| 0 <= i < before.len() implies 0x30 <= #[trigger] before[i] <= 0x37 by {
            assert(before[i] == digits[i]);
        }
        law_octal_digits_join(field, before);
        assert((field + digits).drop_last() =~= field + before);
        let v = octal_value(field);
        let e = eights(before.len());
        let w = octal_value(before);
        assert(eights(digits.len()) == 8 * e);
        assert((v * e + w) * 8 == v * (8 * e) + w * 8) by (nonlinear_arith);
    }
}

/// The two sums differ by 256 for every counted byte that is negative when it is read with its
/// sign.
proof fn lemma_sums_differ(raw: Seq<u8>, n: nat) -> (high: nat)
    ensures
        unsigned_sum(raw, n) - signed_sum(raw, n) == 256 * high,
    decreases n,
{
    if n == 0 {
        0
    } else {
        let before = lemma_sums_differ(raw, (n - 1) as nat);
        if counted_byte(raw, n - 1) < 128 {
            before
        } else {
            before + 1
        }
    }
}

proof fn lemma_sums_of_update(raw: Seq<u8>, at: int, b: u8, n: nat)
    requires
        0 <= at < raw.len(),
        n <= raw.len(),
        !(CHECKSUM_START <= at < CHECKSUM_END),
    ensures
        unsigned_sum(raw.update(at, b), n) == unsigned_sum(raw, n) + (if at < n {
            b - raw[at]
        } else {
            0
        }),
        signed_sum(raw.update(at, b), n) == signed_sum(raw, n) + (if at < n {
            signed_byte(b) - signed_byte(raw[at])
        } else {
            0
        }),
    decreases n,
{
    if n > 0 {
        lemma_sums_of_update(raw, at, b, (n - 1) as nat);
    }
}

/// A header block with one wrong byte outside its checksum field is refused.
pub proof fn law_wrong_byte_is_found(raw: Seq<u8>, at: int, b: u8)
    requires
        raw.len() == 512,
        checksum_matches(raw),
        0 <= at < 512,
        !(148 <= at < 156),
        b != raw[at],
    ensures
        !checksum_matches(raw.update(at, b)),
        header_of(raw.update(at, b)) is Err,
{
    let wrong = raw.update(at, b);
    assert(wrong.subrange(CHECKSUM_START as int, CHECKSUM_END as int) =~= raw.subrange(
        CHECKSUM_START as int,
        CHECKSUM_END as int,
    ));
    lemma_sums_of_update(raw, at, b, raw.len());
    let high = lemma_sums_differ(raw, raw.len());
    assert(high == 0 || 256 * high >= 256);
}

/// The sum of bytes.
pub open spec fn byte_total(bytes: Seq<u8>) -> int
    decreases bytes.len(),
{
    if bytes.len() == 0 {
        0
    } else {
        byte_total(bytes.drop_last()) + bytes.last()
    }
}

/// The sum of bytes, each read as a number from -128 to 127.
pub open spec fn signed_total(bytes: Seq<u8>) -> int
    decreases bytes.len(),
{
    if bytes.len() == 0 {
        0
    } else {
        signed_total(bytes.drop_last()) + (if bytes.last() <= 127 {
            bytes.last() as int
        } else {
            bytes.last() - 256
        })
    }
}

proof fn lemma_sums(raw: Seq<u8>, n: nat)
    requires
        raw.len() == 512,
        n <= 512,
    ensures
        n <= 148 ==> unsigned_sum(raw, n) == byte_total(raw.take(n as int)) && signed_sum(raw, n)
            == signed_total(raw.take(n as int)),
        148 <= n <= 156 ==> unsigned_sum(raw, n) == byte_total(raw.take(148)) + 32 * (n - 148)
            && signed_sum(raw, n) == signed_total(raw.take(148)) + 32 * (n - 148),
        156 <= n ==> unsigned_sum(raw, n) == byte_total(raw.take(148)) + 256 + byte_total(
            raw.subrange(156, n as int),
        ) && signed_sum(raw, n) == signed_total(raw.take(148)) + 256 + signed_total(
            raw.subrange(156, n as int),
        ),
    decreases n,
{
    if n > 0 {
        lemma_sums(raw, (n - 1) as nat);
        if n <= 148 {
            assert(raw.take(n as int).drop_last() =~= raw.take(n - 1));
        }
        if n > 156 {
            assert(raw.subrange(156, n as int).drop_last() =~= raw.subrange(156, n - 1));
        }
    }
    if n == 156 {
        assert(raw.subrange(156, 156) =~= Seq::<u8>::empty());
    }
}

/// A header's checksum is right when the number in its field is the sum of all the other bytes of
/// the block and of eight spaces, with or without signs.
pub proof fn law_checksum_is_sum(raw: Seq<u8>)
    requires
        raw.len() == 512,
    ensures
        checksum_matches(raw) == ({
            let stored = octal_value(raw.subrange(148, 156));
            ||| stored == byte_total(raw.take(148)) + 8 * 0x20 + byte_total(raw.skip(156))
            ||| stored == signed_total(raw.take(148)) + 8 * 0x20 + signed_total(raw.skip(156))
        }),
{
    lemma_sums(raw, 512);
    assert(raw.subrange(156, 512) =~= raw.skip(156));
}

/// What a header block says: its name is what stands before the first NUL of its first hundred
/// bytes, which must be UTF-8, and its size is the octal number at byte 124. A wrong checksum comes
/// before anything else.
pub proof fn law_header_fields(raw: Seq<u8>, end: int)
    requires
        raw.len() == 512,
        0 <= end <= 100,
        forall|j: int| 0 <= j < end ==> raw[j] != 0,
        end < 100 ==> raw[end] == 0,
    ensures
        match header_of(raw) {
            Ok(h) => {
                &&& checksum_matches(raw)
                &&& vstd::utf8::valid_utf8(raw.take(end))
                &&& h.name == vstd::utf8::decode_utf8(raw.take(end))
                &&& h.size as nat == octal_value(raw.subrange(124, 136))
            },
            Err(e) => {
                &&& !checksum_matches(raw) || !vstd::utf8::valid_utf8(raw.take(end))
                &&& e == crate::error::TarErrorView::InvalidHeader(
                    if checksum_matches(raw) {
                        "name is not valid UTF-8"@
                    } else {
                        "checksum mismatch"@
                    },
                )
            },
        },
{
    let field = raw.take(100);
    crate::text::lemma_find_is(field, 0u8, end);
    assert(field.take(end) =~= raw.take(end));
    lemma_header_fields(raw);
}

/// What is wrong with a header is never that it is not the index.
pub proof fn lemma_header_error(raw: Seq<u8>)
    ensures
        header_of(raw) matches Err(e) ==> e is InvalidHeader,
{
}

/// A header holds what its view says.
pub proof fn law_header_view(header: TarHeader)
    ensures
        header@.name == header.name@,
        header@.size == header.size,
{
}

} // verus!
