//! Byte ranges of an object.

use vstd::prelude::*;
use vstd::string::*;

use crate::error::S3Error;
use crate::text::append_decimal;

verus! {

/// A run of bytes of the archive.
#[derive(Debug, Clone, Copy, PartialEq, Eq, Structural)]
pub struct ByteRange {
    pub offset: u64,
    pub length: u64,
}

impl View for ByteRange {
    type V = ByteRange;

    open spec fn view(&self) -> ByteRange {
        *self
    }
}

/// The value of the `Range` header that asks for the bytes of a range, if there are any.
pub open spec fn range_value(range: ByteRange) -> Option<Seq<char>> {
    if range.length == 0 {
        None
    } else {
        Some(
            "bytes="@ + crate::text::decimal(range.offset as nat) + "-"@ + crate::text::decimal(
                (range.offset + range.length - 1) as nat,
            ),
        )
    }
}

/// A range asks for as many bytes as it is long: the `Range` header names the first and the last of
/// them. Nothing is asked for where there is nothing to read.
pub proof fn law_range_asks_for_its_bytes(range: ByteRange, last: nat)
    requires
        range.length > 0 ==> last + 1 - range.offset == range.length,
    ensures
        range.length == 0 <==> range_value(range) is None,
        range.length > 0 ==> range_value(range) == Some(
            "bytes="@ + crate::text::decimal(range.offset as nat) + "-"@ + crate::text::decimal(
                last,
            ),
        ),
{
}

/// The bytes that were received are handed on as they are, and every failure is a failed request.
pub proof fn law_received_bytes(bytes: Vec<u8>, what: String)
    ensures
        bytes_of(RangeReply::Received(bytes)) matches Ok(got) && got == bytes@,
        bytes_of(RangeReply::RequestFailed(what)) matches Err(e) && e
            == crate::error::S3ErrorView::Request(what@),
        bytes_of(RangeReply::BodyFailed(what)) matches Err(e) && e
            == crate::error::S3ErrorView::Request("reading response body: "@ + what@),
{
}

impl ByteRange {
    /// The value of the `Range` header that asks for these bytes. Nothing is asked for when the
    /// range is empty.
    pub fn header(&self) -> (value: Option<String>)
        requires
            self.offset + self.length <= u64::MAX,
        ensures
            value.deep_view() == range_value(*self),
            match value {
                Some(text) => self.length > 0 && text@ == "bytes="@ + crate::text::decimal(
                    self.offset as nat,
                ) + "-"@ + crate::text::decimal((self.offset + self.length - 1) as nat),
                None => self.length == 0,
            },
    {
        if self.length == 0 {
            return None;
        }
        let mut text = "bytes=".to_owned();
        append_decimal(&mut text, self.offset);
        text.append("-");
        append_decimal(&mut text, self.offset + self.length - 1);
        Some(text)
    }
}

/// What asking for a range gave.
#[derive(Debug)]
pub enum RangeReply {
    /// The bytes.
    Received(Vec<u8>),
    /// The request failed, with the text of its error.
    RequestFailed(String),
    /// The body of the response could not be read, with the text of the error.
    BodyFailed(String),
}

/// The bytes that a reply gives, or the error that it stands for.
pub open spec fn bytes_of(reply: RangeReply) -> Result<Seq<u8>, crate::error::S3ErrorView> {
    match reply {
        RangeReply::Received(bytes) => Ok(bytes@),
        RangeReply::RequestFailed(what) => Err(crate::error::S3ErrorView::Request(what@)),
        RangeReply::BodyFailed(what) => Err(
            crate::error::S3ErrorView::Request("reading response body: "@ + what@),
        ),
    }
}

impl RangeReply {
    /// Takes the bytes out of the reply.
    pub fn into_bytes(self) -> (r: Result<Vec<u8>, S3Error>)
        ensures
            crate::error::result_view(r) == bytes_of(self),
    {
        match self {
            RangeReply::Received(bytes) => Ok(bytes),
            RangeReply::RequestFailed(what) => Err(S3Error::Request(what)),
            RangeReply::BodyFailed(what) => {
                let mut text = "reading response body: ".to_owned();
                text.append(what.as_str());
                Err(S3Error::Request(text))
            },
        }
    }
}

} // verus!
