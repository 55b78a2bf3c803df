//! The request that opens a session: what the client intends to do, sent once,
//! as the first bytes on the connection.
//!
//! On the wire a request is a four-byte discriminant, least significant byte
//! first, followed for a `Get` by the path as a length-prefixed UTF-8 text.

use crate::error::ProtocolError;
use crate::wire::{
    blob_shortfall, blob_span, bounded, get_text, get_u32, le_bytes, le_value,
    lemma_blob_shortfall, lemma_le_bytes_len, lemma_le_bytes_of_value, lemma_le_value_of_bytes,
    lemma_parse_text_of_bytes, lemma_parse_text_sound, parse_text, pow256, put_text, put_u32,
    text_bytes,
};
use vstd::prelude::*;
use vstd::utf8::*;

verus! {

/// What a client asks of the server at the start of a session.
#[derive(Debug, PartialEq, Eq)]
pub enum Request {
    /// Pull the file or subtree at this path, relative to the served directory.
    Get(String),
    /// Push files into the served directory.
    Upload,
}

/// A request as a mathematical value.
pub enum RequestView {
    Get(Seq<char>),
    Upload,
}

impl View for Request {
    type V = RequestView;

    open spec fn view(&self) -> RequestView {
        match self {
            Request::Get(path) => RequestView::Get(path@),
            Request::Upload => RequestView::Upload,
        }
    }
}

impl Clone for Request {
    fn clone(&self) -> (copy: Request)
        ensures
            copy@ == self@,
    {
        match self {
            Request::Get(path) => Request::Get(path.clone()),
            Request::Upload => Request::Upload,
        }
    }
}

/// The discriminant of a `Get` request.
pub const GET_TAG: u32 = 0;

/// The discriminant of an `Upload` request.
pub const UPLOAD_TAG: u32 = 1;

impl RequestView {
    /// Whether the path is short enough for its length to be written in the
    /// eight bytes the frame has for it. Every `Request` in memory is.
    pub open spec fn fits(self) -> bool {
        self matches RequestView::Get(path) ==> encode_utf8(path).len() < pow256(8)
    }
}

/// The frame of a request.
pub open spec fn request_bytes(request: RequestView) -> Seq<u8> {
    match request {
        RequestView::Get(path) => le_bytes(GET_TAG as nat, 4) + text_bytes(path),
        RequestView::Upload => le_bytes(UPLOAD_TAG as nat, 4),
    }
}

/// What a decoder makes of `bytes`: the request at their start and the length
/// of its frame, or the reason why there is none.
pub open spec fn parse_request(bytes: Seq<u8>) -> Result<(RequestView, nat), ProtocolError> {
    if bytes.len() < 4 {
        Err(ProtocolError::Truncated)
    } else {
        let tag = le_value(bytes.take(4));
        if tag == UPLOAD_TAG {
            Ok((RequestView::Upload, 4))
        } else if tag == GET_TAG {
            match parse_text(bytes.skip(4)) {
                Ok((path, used)) => Ok((RequestView::Get(path), 4 + used)),
                Err(fault) => Err(fault),
            }
        } else {
            Err(ProtocolError::UnknownRequest)
        }
    }
}

/// Encoding a request and decoding the result gives the request back, together
/// with the length of its frame, whatever bytes follow the frame.
pub proof fn lemma_request_round_trip(request: RequestView, rest: Seq<u8>)
    requires
        request.fits(),
    ensures
        parse_request(request_bytes(request) + rest) == Ok::<(RequestView, nat), ProtocolError>(
            (request, request_bytes(request).len()),
        ),
{
    let all = request_bytes(request) + rest;
    reveal_with_fuel(pow256, 5);
    match request {
        RequestView::Get(path) => {
            lemma_le_bytes_len(GET_TAG as nat, 4);
            lemma_le_value_of_bytes(GET_TAG as nat, 4);
            assert(all.take(4) =~= le_bytes(GET_TAG as nat, 4));
            assert(all.skip(4) =~= text_bytes(path) + rest);
            lemma_parse_text_of_bytes(path, rest);
        },
        RequestView::Upload => {
            lemma_le_bytes_len(UPLOAD_TAG as nat, 4);
            lemma_le_value_of_bytes(UPLOAD_TAG as nat, 4);
            assert(all.take(4) =~= le_bytes(UPLOAD_TAG as nat, 4));
        },
    }
}

/// A decoder accepts nothing but frames: whatever it reads as a request is that
/// request's encoding.
pub proof fn lemma_parse_request_sound(bytes: Seq<u8>)
    ensures
        parse_request(bytes) matches Ok((request, used)) ==> used <= bytes.len() && bytes.take(
            used as int,
        ) == request_bytes(request),
{
    if let Ok((request, used)) = parse_request(bytes) {
        lemma_le_bytes_of_value(bytes.take(4));
        match request {
            RequestView::Get(path) => {
                lemma_parse_text_sound(bytes.skip(4));
                assert(bytes.take(used as int) =~= bytes.take(4) + bytes.skip(4).take(used - 4));
            },
            RequestView::Upload => {
                assert(bytes.take(4) =~= request_bytes(request));
            },
        }
    }
}

/// The frame of `request`. Decoding it gives `request` back.
pub fn encode_request(request: &Request) -> (bytes: Vec<u8>)
    ensures
        bytes@ == request_bytes(request@),
        parse_request(bytes@) == Ok::<(RequestView, nat), ProtocolError>(
            (request@, bytes@.len()),
        ),
{
    let mut out: Vec<u8> = Vec::new();
    match request {
        Request::Get(path) => {
            put_u32(&mut out, GET_TAG);
            put_text(&mut out, path.as_str());
        },
        Request::Upload => {
            put_u32(&mut out, UPLOAD_TAG);
        },
    }
    proof {
        assert(out@ =~= request_bytes(request@));
        lemma_request_round_trip(request@, Seq::empty());
        assert(request_bytes(request@) + Seq::<u8>::empty() =~= request_bytes(request@));
    }
    out
}

/// Decodes the request at the start of `bytes` and tells how long its frame is.
/// Bytes behind the frame are left alone; anything short of a whole frame is
/// refused.
pub fn decode_request(bytes: &[u8]) -> (decoded: Result<(Request, usize), ProtocolError>)
    ensures
        match parse_request(bytes@) {
            Ok((request, used)) => decoded matches Ok((got, n)) && got@ == request && n == used,
            Err(fault) => decoded matches Err(got) && got == fault,
        },
{
    let tag: u32 = match get_u32(bytes, 0) {
        Some(tag) => tag,
        None => {
            return Err(ProtocolError::Truncated);
        },
    };
    proof {
        assert(bytes@.take(4) =~= bytes@.subrange(0, 4));
        crate::wire::lemma_le_value_bound(bytes@.take(4));
        reveal_with_fuel(pow256, 5);
    }
    if tag == UPLOAD_TAG {
        Ok((Request::Upload, 4))
    } else if tag == GET_TAG {
        match get_text(bytes, 4) {
            Ok((path, next)) => Ok((Request::Get(path), next)),
            Err(fault) => Err(fault),
        }
    } else {
        Err(ProtocolError::UnknownRequest)
    }
}

/// How many more bytes are to be asked for before the request that begins at
/// the start of `bytes` is there to its end: what is missing of the
/// discriminant, then of the path of a `Get`. None when the frame is all there
/// or cannot become a frame.
pub open spec fn request_shortfall(bytes: Seq<u8>) -> nat {
    if bytes.len() < 4 {
        (4 - bytes.len()) as nat
    } else if le_value(bytes.take(4)) == GET_TAG {
        blob_shortfall(bytes.skip(4))
    } else {
        0
    }
}

/// More is asked for exactly while the request is cut short: once nothing is,
/// what a decoder says of the bytes is final.
pub proof fn lemma_request_shortfall(bytes: Seq<u8>)
    ensures
        request_shortfall(bytes) > 0 <==> parse_request(bytes) == Err::<
            (RequestView, nat),
            ProtocolError,
        >(ProtocolError::Truncated),
{
    if bytes.len() >= 4 {
        lemma_blob_shortfall(bytes.skip(4));
    }
}

/// A reader that asks for what is missing reads a request to its end and no
/// further: of a frame that is cut short, something is missing, and no more
/// than the rest of the frame.
pub proof fn lemma_request_shortfall_within(request: RequestView, cut: int)
    requires
        request.fits(),
        0 <= cut < request_bytes(request).len(),
    ensures
        0 < request_shortfall(request_bytes(request).take(cut)) <= request_bytes(request).len()
            - cut,
{
    let whole = request_bytes(request);
    let held = whole.take(cut);
    reveal_with_fuel(pow256, 5);
    match request {
        RequestView::Get(path) => {
            lemma_le_bytes_len(GET_TAG as nat, 4);
            if cut >= 4 {
                lemma_le_value_of_bytes(GET_TAG as nat, 4);
                assert(held.take(4) =~= le_bytes(GET_TAG as nat, 4));
                assert(held.skip(4) =~= text_bytes(path).take(cut - 4));
                crate::wire::lemma_blob_shortfall_within(encode_utf8(path), cut - 4);
            }
        },
        RequestView::Upload => {
            lemma_le_bytes_len(UPLOAD_TAG as nat, 4);
        },
    }
}

/// Tells a reader how many bytes to ask the connection for next: none when
/// the request is there to its end or the bytes cannot become one, and then
/// `decode_request` says which. Nothing comes back when the path would be
/// longer than memory can hold.
pub fn request_missing(bytes: &[u8]) -> (missing: Option<usize>)
    ensures
        missing == bounded(request_shortfall(bytes@)),
{
    let held: usize = bytes.len();
    let tag: u32 = match get_u32(bytes, 0) {
        Some(tag) => tag,
        None => {
            return Some(4 - held);
        },
    };
    proof {
        assert(bytes@.take(4) =~= bytes@.subrange(0, 4));
        crate::wire::lemma_le_value_bound(bytes@.take(4));
        reveal_with_fuel(pow256, 5);
    }
    if tag == GET_TAG {
        match blob_span(bytes, 4) {
            Ok(_) => {
                proof {
                    lemma_blob_shortfall(bytes@.skip(4));
                }
                Some(0)
            },
            Err(missing) => missing,
        }
    } else {
        Some(0)
    }
}

} // verus!
