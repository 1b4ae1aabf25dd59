//! Byte-range sources: the range contract every source follows (a request
//! past the end is clamped to what is there; a start at or past the end, or a
//! reversed range, is an error), the in-memory source, and the growth steps
//! of reading a whole document of unknown length.

use vstd::prelude::*;
use bytes::Bytes;
use crate::text::{decimal, push_decimal};

verus! {

/// `bytes::Bytes`, an immutable shared byte buffer.
#[verifier::external_type_specification]
#[verifier::external_body]
pub struct ExBytes(Bytes);

/// The bytes that a `Bytes` buffer holds.
pub uninterp spec fn bytes_content(b: Bytes) -> Seq<u8>;

/// `Bytes::from(Vec<u8>)`: the buffer holds the vector's bytes.
#[verifier::external_body]
fn bytes_from_vec(v: Vec<u8>) -> (b: Bytes)
    ensures
        bytes_content(b) == v@,
{
    Bytes::from(v)
}

/// `Bytes::len`: the number of bytes held.
#[verifier::external_body]
fn bytes_len(b: &Bytes) -> (n: usize)
    ensures
        n == bytes_content(*b).len(),
{
    b.len()
}

/// `Bytes::slice(start..end)`: the bytes at `[start, end)`. The crate panics
/// unless `start <= end <= len`, which the precondition rules out.
#[verifier::external_body]
fn bytes_slice(b: &Bytes, start: usize, end: usize) -> (r: Bytes)
    requires
        start <= end <= bytes_content(*b).len(),
    ensures
        bytes_content(r) == bytes_content(*b).subrange(start as int, end as int),
{
    b.slice(start..end)
}

/// `<Bytes as Clone>::clone`: the clone shares the same bytes.
pub assume_specification[ <Bytes as Clone>::clone ](b: &Bytes) -> (r: Bytes)
    ensures
        bytes_content(r) == bytes_content(*b),
;

/// Error of a byte source, with the path or cause in its text.
#[derive(Debug, Clone, PartialEq, Eq)]
pub struct SourceError(pub String);

/// The end of the bytes a request `[start, end)` gets from a source of `len`
/// bytes, or `None` when the request is an error.
pub open spec fn clamped_end(start: u64, end: u64, len: u64) -> Option<u64> {
    if start >= len || start > end {
        None
    } else if end < len {
        Some(end)
    } else {
        Some(len)
    }
}

/// Applies the range contract: `None` for a start at or past the end or a
/// reversed range, else the end clamped to `len`.
pub fn clamp_range(start: u64, end: u64, len: u64) -> (r: Option<u64>)
    ensures
        r == clamped_end(start, end, len),
{
    if start >= len || start > end {
        None
    } else if end < len {
        Some(end)
    } else {
        Some(len)
    }
}

/// The message of an out-of-bounds request to an in-memory source.
pub open spec fn range_error_message(start: u64, end: u64, len: u64) -> Seq<char> {
    "range "@ + decimal(start as nat) + ".."@ + decimal(end as nat) + " out of bounds (len "@
        + decimal(len as nat) + ")"@
}

/// In-memory source.
#[derive(Debug, Clone)]
pub struct MemorySource(Bytes);

impl MemorySource {
    /// The bytes of the source.
    pub closed spec fn data(&self) -> Seq<u8> {
        bytes_content(self.0)
    }

    /// A source over `data`.
    pub fn new(data: Vec<u8>) -> (s: Self)
        ensures
            s.data() == data@,
    {
        MemorySource(bytes_from_vec(data))
    }

    /// A source over an existing buffer.
    pub fn from_bytes(data: Bytes) -> (s: Self)
        ensures
            s.data() == bytes_content(data),
    {
        MemorySource(data)
    }

    /// The bytes of `[start, end)`, clamped at the end of the data; an error
    /// when `start` is at or past the end or the range is reversed.
    pub fn read_range(&self, start: u64, end: u64) -> (r: Result<Bytes, SourceError>)
        ensures
            clamped_end(start, end, self.data().len() as u64) matches Some(e) ==> (r matches Ok(b)
                && bytes_content(b) == self.data().subrange(start as int, e as int)),
            clamped_end(start, end, self.data().len() as u64) is None ==> (r matches Err(err)
                && err.0@ == range_error_message(start, end, self.data().len() as u64)),
    {
        let n = bytes_len(&self.0);
        let len = n as u64;
        match clamp_range(start, end, len) {
            None => {
                let mut m = String::from_str("range ");
                push_decimal(&mut m, start);
                m.append("..");
                push_decimal(&mut m, end);
                m.append(" out of bounds (len ");
                push_decimal(&mut m, len);
                m.append(")");
                Err(SourceError(m))
            },
            Some(e) => Ok(bytes_slice(&self.0, start as usize, e as usize)),
        }
    }
}

/// The HTTP `Range` header value for `[start, end)`. HTTP ranges name their
/// last byte, `end - 1` (held at 0 for an empty range at 0).
pub fn range_header(start: u64, end: u64) -> (h: String)
    ensures
        h@ == "bytes="@ + decimal(start as nat) + "-"@ + decimal(
            if end == 0 {
                0
            } else {
                (end - 1) as nat
            },
        ),
{
    let mut h = String::from_str("bytes=");
    push_decimal(&mut h, start);
    h.append("-");
    let last: u64 = if end == 0 {
        0
    } else {
        end - 1
    };
    push_decimal(&mut h, last);
    h
}

/// How the reply to an HTTP range request for `[start, end)` gives the
/// requested bytes.
#[derive(Debug, Clone, Copy, PartialEq, Eq)]
pub enum RangeReply {
    /// 206: the server sent the range, clamped at the end; the body is the
    /// answer.
    Body,
    /// 200: the server ignored the range and sent everything; the answer is
    /// the body's bytes `[start, end)`.
    Slice(usize, usize),
    /// 200 with a body that ends at or before `start`.
    StartPastEnd,
    /// 416: the range starts at or past the end.
    NotSatisfiable,
    /// Any other status.
    Failed(u16),
}

/// Reads the reply to a range request for `[start, end)` (with `start <= end`)
/// whose status is `status` and whose body holds `body_len` bytes, so that
/// the source keeps the range contract whatever the server did with the
/// range.
pub fn range_reply(status: u16, start: u64, end: u64, body_len: usize) -> (r: RangeReply)
    requires
        start <= end,
    ensures
        status == 206 ==> r == RangeReply::Body,
        status == 200 ==> match clamped_end(start, end, body_len as u64) {
            Some(e) => r == RangeReply::Slice(start as usize, e as usize),
            None => r == RangeReply::StartPastEnd,
        },
        status == 416 ==> r == RangeReply::NotSatisfiable,
        status != 206 && status != 200 && status != 416 ==> r == RangeReply::Failed(status),
{
    if status == 206 {
        RangeReply::Body
    } else if status == 200 {
        match clamp_range(start, end, body_len as u64) {
            Some(e) => RangeReply::Slice(start as usize, e as usize),
            None => RangeReply::StartPastEnd,
        }
    } else if status == 416 {
        RangeReply::NotSatisfiable
    } else {
        RangeReply::Failed(status)
    }
}

/// First request size of reading a whole document (64 KiB).
pub const FETCH_ALL_INITIAL: u64 = 65536;

/// Request size beyond which a document is refused (64 MiB).
pub const FETCH_ALL_LIMIT: u64 = 67108864;

/// What to do after a request of `cap` bytes from offset 0 returned `got`.
#[derive(Debug, Clone, Copy, PartialEq, Eq)]
pub enum FetchAllStep {
    /// Shorter than asked: the end is reached; the returned bytes are the
    /// document.
    Done,
    /// Ask again for this many bytes.
    Grow(u64),
    /// The document exceeds the limit: a request of one byte more than the
    /// limit came back full.
    TooLarge,
}

/// The step after a request of `cap` bytes returned `got`. A full read of
/// exactly the limit is followed by a probe of one byte more, so a document
/// of exactly the limit is read whole and only a longer one is refused.
pub open spec fn fetch_all_next(cap: u64, got: u64) -> FetchAllStep {
    if got < cap {
        FetchAllStep::Done
    } else if cap > FETCH_ALL_LIMIT {
        FetchAllStep::TooLarge
    } else if cap == FETCH_ALL_LIMIT {
        FetchAllStep::Grow((FETCH_ALL_LIMIT + 1) as u64)
    } else if cap * 4 > FETCH_ALL_LIMIT {
        FetchAllStep::Grow(FETCH_ALL_LIMIT)
    } else {
        FetchAllStep::Grow((cap * 4) as u64)
    }
}

/// Decides the next step of reading a whole document by requests that grow
/// fourfold from `FETCH_ALL_INITIAL` up to the limit, then probe one byte past
/// it.
pub fn fetch_all_step(cap: u64, got: u64) -> (r: FetchAllStep)
    ensures
        r == fetch_all_next(cap, got),
{
    if got < cap {
        FetchAllStep::Done
    } else if cap > FETCH_ALL_LIMIT {
        FetchAllStep::TooLarge
    } else if cap == FETCH_ALL_LIMIT {
        FetchAllStep::Grow(FETCH_ALL_LIMIT + 1)
    } else if cap > FETCH_ALL_LIMIT / 4 {
        FetchAllStep::Grow(FETCH_ALL_LIMIT)
    } else {
        FetchAllStep::Grow(cap * 4)
    }
}

/// The message of a document over the limit.
pub fn document_too_large() -> (e: SourceError)
    ensures
        e.0@ == "document exceeds 64MiB"@,
{
    SourceError(String::from_str("document exceeds 64MiB"))
}

/// A whole-document read asks at most seven times: the sizes grow fourfold
/// from the initial size to exactly the limit (six requests), then one probe
/// of the limit plus one byte decides between a document of exactly the
/// limit and a longer one.
pub proof fn lemma_fetch_all_terminates(k: nat)
    requires
        k <= 5,
    ensures
        fetch_all_next(cap_after(k), cap_after(k)) == if k < 5 {
            FetchAllStep::Grow(cap_after(k + 1))
        } else {
            FetchAllStep::Grow((FETCH_ALL_LIMIT + 1) as u64)
        },
        cap_after(5) == FETCH_ALL_LIMIT,
        fetch_all_next((FETCH_ALL_LIMIT + 1) as u64, (FETCH_ALL_LIMIT + 1) as u64) == FetchAllStep::TooLarge,
        forall|got: u64| got <= FETCH_ALL_LIMIT ==> #[trigger] fetch_all_next((FETCH_ALL_LIMIT + 1) as u64, got)
            == FetchAllStep::Done,
{
    reveal_with_fuel(cap_after, 6);
}

/// The request size after `k` growth steps.
pub open spec fn cap_after(k: nat) -> u64
    decreases k,
{
    if k == 0 {
        FETCH_ALL_INITIAL
    } else {
        (cap_after((k - 1) as nat) * 4) as u64
    }
}

} // verus!
