//! The protocol: requests as text, how they are read from bytes, and what the
//! store answers to them.

use crate::framing::{
    begins_request, law_scan_characterized, law_scan_complete_stays, law_scan_frame,
    law_scan_malformed_stays, law_scan_prefix, law_scan_sound, raw_frame, raw_well_formed, scan,
    scan_frame, Method, RawRequest, Scan, Scanned,
};
use crate::store::Store;
use vstd::prelude::*;
use vstd::slice::{slice_subrange, slice_to_vec};
use vstd::utf8::*;

verus! {

/// A parsed command.
#[derive(Debug)]
pub struct Request {
    /// What is asked for.
    pub command: Method,
    /// The key that is read or written.
    pub key: String,
    /// What follows the key on the request line. It has to be there and
    /// decides nothing.
    pub rest: String,
    /// The value to store; empty for a `get`.
    pub body: String,
}

/// A request as a mathematical value.
pub ghost struct RequestView {
    pub command: Method,
    pub key: Seq<char>,
    pub rest: Seq<char>,
    pub body: Seq<char>,
}

impl View for Request {
    type V = RequestView;

    open spec fn view(&self) -> RequestView {
        RequestView {
            command: self.command,
            key: self.key@,
            rest: self.rest@,
            body: self.body@,
        }
    }
}

/// The parts of a request as the bytes that encode them.
pub open spec fn bytes_of(request: RequestView) -> RawRequest {
    RawRequest {
        command: request.command,
        key: encode_utf8(request.key),
        rest: encode_utf8(request.rest),
        body: encode_utf8(request.body),
    }
}

/// The parts of a request as the text that their bytes encode.
pub open spec fn text_of(raw: RawRequest) -> RequestView {
    RequestView {
        command: raw.command,
        key: decode_utf8(raw.key),
        rest: decode_utf8(raw.rest),
        body: decode_utf8(raw.body),
    }
}

/// Each part encodes text.
pub open spec fn is_text(raw: RawRequest) -> bool {
    valid_utf8(raw.key) && valid_utf8(raw.rest) && valid_utf8(raw.body)
}

/// A request that can be sent and read back: its key is not empty and holds
/// neither space nor line feed, its lines hold no line feed, and it has a body
/// only if it is a `set`.
pub open spec fn well_formed(request: RequestView) -> bool {
    raw_well_formed(bytes_of(request))
}

/// The bytes by which a request is sent.
pub open spec fn frame(request: RequestView) -> Seq<u8> {
    raw_frame(bytes_of(request))
}

/// What the bytes received so far amount to.
pub ghost enum Decoded {
    /// A whole request, and the count of bytes it took.
    Complete(RequestView, nat),
    /// The beginning of a request: more bytes are needed.
    Incomplete,
    /// No request: the bytes break the grammar, or a part of the request is
    /// not UTF-8.
    Malformed,
}

/// Reads one request off the front of `buf`.
pub open spec fn decode(buf: Seq<u8>) -> Decoded {
    match scan(buf) {
        Scanned::Complete(raw, n) => if is_text(raw) {
            Decoded::Complete(text_of(raw), n)
        } else {
            Decoded::Malformed
        },
        Scanned::Incomplete => Decoded::Incomplete,
        Scanned::Malformed => Decoded::Malformed,
    }
}

/// A request that `decode` reads is well formed, and the bytes that it took
/// are the bytes by which that request is sent.
pub proof fn law_decode_sound(buf: Seq<u8>)
    ensures
        decode(buf) matches Decoded::Complete(request, n) ==> {
            &&& well_formed(request)
            &&& n <= buf.len()
            &&& buf.take(n as int) == frame(request)
        },
{
    broadcast use decode_utf8_encode_utf8;

    if let Scanned::Complete(raw, n) = scan(buf) {
        law_scan_sound(buf);
        if is_text(raw) {
            assert(bytes_of(text_of(raw)) == raw);
        }
    }
}

/// Whatever follows the bytes of a well-formed request, `decode` reads that
/// request and takes exactly its bytes.
pub proof fn law_decode_frame(request: RequestView, more: Seq<u8>)
    requires
        well_formed(request),
    ensures
        decode(frame(request) + more) == Decoded::Complete(request, frame(request).len()),
{
    broadcast use {encode_utf8_valid_utf8, encode_utf8_decode_utf8};

    law_scan_frame(bytes_of(request), more);
    assert(text_of(bytes_of(request)) == request);
}

/// Nothing is read before the last byte of a request has come: short of it, a
/// well-formed request reads as the beginning of one.
pub proof fn law_decode_prefix(request: RequestView, k: int)
    requires
        well_formed(request),
        0 <= k < frame(request).len(),
    ensures
        decode(frame(request).take(k)) == Decoded::Incomplete,
{
    law_scan_prefix(bytes_of(request), k);
}

/// No bytes at all are the beginning of a request.
pub proof fn lemma_nothing_is_incomplete()
    ensures
        decode(Seq::empty()) == Decoded::Incomplete,
{
}

/// A request once read stays read: bytes received after it change neither the
/// request nor the count of bytes that it took.
pub proof fn law_decode_complete_stays(buf: Seq<u8>, more: Seq<u8>)
    requires
        decode(buf) is Complete,
    ensures
        decode(buf + more) == decode(buf),
{
    law_scan_complete_stays(buf, more);
}

/// Bytes that hold no request hold none whatever is received after them.
pub proof fn law_decode_malformed_stays(buf: Seq<u8>, more: Seq<u8>)
    requires
        decode(buf) is Malformed,
    ensures
        decode(buf + more) is Malformed,
{
    if scan(buf) is Malformed {
        law_scan_malformed_stays(buf, more);
    } else {
        law_scan_complete_stays(buf, more);
    }
}

/// A whole request, well formed and in text, lies at the front of `buf`.
pub open spec fn holds(buf: Seq<u8>) -> bool {
    exists|request: RequestView|
        well_formed(request) && (#[trigger] frame(request)).is_prefix_of(buf)
}

/// What `decode` finds is what is there. It reads a request exactly when a
/// whole well-formed request lies at the front of the buffer; it asks for more
/// bytes exactly when the buffer is the beginning of a request line and body,
/// short of their end; and it finds the buffer malformed exactly when neither
/// is so. Whether the parts are text is looked at once the request is whole.
pub proof fn law_decode_characterized(buf: Seq<u8>)
    ensures
        decode(buf) is Complete <==> holds(buf),
        decode(buf) is Incomplete <==> begins_request(buf),
        decode(buf) is Malformed <==> !holds(buf) && !begins_request(buf),
{
    law_scan_characterized(buf);
    law_decode_sound(buf);
    if decode(buf) is Complete {
        assert(frame(decode(buf)->Complete_0).is_prefix_of(buf));
    }
    if holds(buf) {
        let request = choose|request: RequestView|
            well_formed(request) && (#[trigger] frame(request)).is_prefix_of(buf);
        law_decode_frame(request, buf.skip(frame(request).len() as int));
        assert(buf =~= frame(request) + buf.skip(frame(request).len() as int));
    }
}

/// The outcome of reading a request off the front of a buffer.
#[derive(Debug)]
pub enum Parsed {
    /// A whole request, and the count of bytes it took.
    Complete(Request, usize),
    /// The buffer holds the beginning of a request: more bytes are needed.
    Incomplete,
    /// The buffer holds no request, whatever follows.
    Malformed,
}

impl View for Parsed {
    type V = Decoded;

    open spec fn view(&self) -> Decoded {
        match self {
            Parsed::Complete(request, n) => Decoded::Complete(request@, *n as nat),
            Parsed::Incomplete => Decoded::Incomplete,
            Parsed::Malformed => Decoded::Malformed,
        }
    }
}

/// `String::from_utf8` of the standard library: the text that `bytes` encode
/// in UTF-8, and nothing where they are not UTF-8.
#[verifier::external_body]
fn text_from_utf8(bytes: Vec<u8>) -> (text: Option<String>)
    ensures
        text is Some <==> valid_utf8(bytes@),
        text matches Some(s) ==> s@ == decode_utf8(bytes@),
{
    match String::from_utf8(bytes) {
        Ok(s) => Some(s),
        Err(_) => None,
    }
}

/// The text between two positions of `buf`, if the bytes there are UTF-8.
fn part(buf: &[u8], from: usize, to: usize) -> (text: Option<String>)
    requires
        from <= to <= buf@.len(),
    ensures
        text is Some <==> valid_utf8(buf@.subrange(from as int, to as int)),
        text matches Some(s) ==> s@ == decode_utf8(buf@.subrange(from as int, to as int)),
{
    text_from_utf8(slice_to_vec(slice_subrange(buf, from, to)))
}

/// Reads one request off the front of `buf`. Nothing is consumed: the buffer
/// is the caller's, and the count says how much of it the request took.
pub fn parse_request(buf: &[u8]) -> (parsed: Parsed)
    ensures
        parsed@ == decode(buf@),
{
    match scan_frame(buf) {
        Scan::Incomplete => Parsed::Incomplete,
        Scan::Malformed => Parsed::Malformed,
        Scan::Complete(layout) => {
            let key = part(buf, 4, layout.space);
            let rest = part(buf, layout.space + 1, layout.newline);
            let body = match layout.command {
                Method::GET => Some(String::new()),
                Method::SET => part(buf, layout.newline + 1, layout.end - 1),
            };
            match (key, rest, body) {
                (Some(key), Some(rest), Some(body)) => Parsed::Complete(
                    Request { command: layout.command, key, rest, body },
                    layout.end,
                ),
                _ => Parsed::Malformed,
            }
        },
    }
}

/// The request at the front of `buf`, if a whole one is there.
pub fn parse(buf: &[u8]) -> (request: Option<Request>)
    ensures
        match decode(buf@) {
            Decoded::Complete(read, _) => request matches Some(r) && r@ == read,
            _ => request is None,
        },
{
    match parse_request(buf) {
        Parsed::Complete(request, _) => Some(request),
        _ => None,
    }
}

/// The three bytes that acknowledge a `set`: `ok` and a line feed.
pub open spec fn ack() -> Seq<u8> {
    seq![111u8, 107u8, 10u8]
}

/// The store after a request: a `set` stores its body under its key, in place
/// of what was there; a `get` changes nothing.
pub open spec fn apply(store: Map<Seq<char>, Seq<char>>, request: RequestView) -> Map<
    Seq<char>,
    Seq<char>,
> {
    match request.command {
        Method::GET => store,
        Method::SET => store.insert(request.key, request.body),
    }
}

/// The bytes that answer a request: to a `get`, the bytes of the value stored
/// under the key, none where there is no such value; to a `set`, the
/// acknowledgement.
pub open spec fn respond(store: Map<Seq<char>, Seq<char>>, request: RequestView) -> Seq<u8> {
    match request.command {
        Method::GET => if store.contains_key(request.key) {
            encode_utf8(store[request.key])
        } else {
            Seq::empty()
        },
        Method::SET => ack(),
    }
}

/// The store after a sequence of requests, taken in their order.
pub open spec fn run(store: Map<Seq<char>, Seq<char>>, requests: Seq<RequestView>) -> Map<
    Seq<char>,
    Seq<char>,
>
    decreases requests.len(),
{
    if requests.len() == 0 {
        store
    } else {
        apply(run(store, requests.drop_last()), requests.last())
    }
}

/// A `get` for the key `key`.
pub open spec fn get_of(key: Seq<char>, rest: Seq<char>) -> RequestView {
    RequestView { command: Method::GET, key, rest, body: Seq::empty() }
}

/// A `set` of `body` under the key `key`.
pub open spec fn set_of(key: Seq<char>, rest: Seq<char>, body: Seq<char>) -> RequestView {
    RequestView { command: Method::SET, key, rest, body }
}

/// A key that no `set` has named reads as no bytes: whatever requests a fresh
/// store has served, a `get` for a key that none of them set is answered with
/// nothing.
pub proof fn law_unset_key_reads_nothing(
    requests: Seq<RequestView>,
    key: Seq<char>,
    rest: Seq<char>,
)
    requires
        forall|i: int|
            0 <= i < requests.len() ==> !((#[trigger] requests[i]).command is SET
                && requests[i].key == key),
    ensures
        !run(Map::empty(), requests).contains_key(key),
        respond(run(Map::empty(), requests), get_of(key, rest)) == Seq::<u8>::empty(),
    decreases requests.len(),
{
    if requests.len() > 0 {
        let front = requests.drop_last();
        assert forall|i: int| 0 <= i < front.len() implies !((#[trigger] front[i]).command is SET
            && front[i].key == key) by {
            assert(front[i] == requests[i]);
        }
        law_unset_key_reads_nothing(front, key, rest);
        assert(!(requests[requests.len() - 1].command is SET && requests[requests.len() - 1].key
            == key));
    }
}

/// A `get` that follows a `set` of the same key is answered with the bytes of
/// the value that was set.
pub proof fn law_get_after_set(
    store: Map<Seq<char>, Seq<char>>,
    key: Seq<char>,
    body: Seq<char>,
    set_rest: Seq<char>,
    get_rest: Seq<char>,
)
    ensures
        respond(apply(store, set_of(key, set_rest, body)), get_of(key, get_rest)) == encode_utf8(
            body,
        ),
{
}

/// Of two `set`s of one key the later one counts: a `get` that follows them is
/// answered with the bytes of the second value.
pub proof fn law_set_overwrites(
    store: Map<Seq<char>, Seq<char>>,
    key: Seq<char>,
    first: Seq<char>,
    second: Seq<char>,
    rest: Seq<char>,
)
    ensures
        respond(
            apply(apply(store, set_of(key, rest, first)), set_of(key, rest, second)),
            get_of(key, rest),
        ) == encode_utf8(second),
        apply(apply(store, set_of(key, rest, first)), set_of(key, rest, second)) == apply(
            store,
            set_of(key, rest, second),
        ),
{
    assert(store.insert(key, first).insert(key, second) =~= store.insert(key, second));
}

/// A value comes back byte for byte as it was sent: where a `set` has been
/// read off the wire, a `get` for its key is answered with the very bytes of
/// its body line.
pub proof fn law_value_returned_as_sent(
    store: Map<Seq<char>, Seq<char>>,
    buf: Seq<u8>,
    rest: Seq<char>,
)
    requires
        decode(buf) is Complete,
        decode(buf)->Complete_0.command is SET,
    ensures
        respond(
            apply(store, decode(buf)->Complete_0),
            get_of(decode(buf)->Complete_0.key, rest),
        ) == scan(buf)->Complete_0.body,
{
    broadcast use decode_utf8_encode_utf8;

}

/// Serves one request: mutates the store as the request says and returns the
/// bytes that answer it. It cannot fail.
pub fn handle(command: Request, storage: &mut Store) -> (response: Vec<u8>)
    ensures
        final(storage)@ == apply(old(storage)@, command@),
        response@ == respond(old(storage)@, command@),
{
    match command.command {
        Method::GET => match storage.get(&command.key) {
            Some(value) => slice_to_vec(value.as_str().as_bytes()),
            None => Vec::new(),
        },
        Method::SET => {
            storage.insert(command.key, command.body);
            let mut response: Vec<u8> = Vec::new();
            response.push(111);
            response.push(107);
            response.push(10);
            assert(response@ =~= ack());
            response
        },
    }
}

} // verus!
