//! Framing: where a request begins and ends in a stream of bytes.
//!
//! A request is a line `<command> <key> <rest>` closed by a line feed, the
//! command being `get` or `set`, each of the two separators one space, the key
//! non-empty and free of spaces. After a `set` line comes a second line, the
//! body. This module finds those boundaries and nothing else: what the bytes
//! between them mean is left to the caller.

use vstd::prelude::*;

verus! {

/// The byte that separates the parts of a request line.
pub const SPACE: u8 = 32;

/// The byte that ends a line.
pub const NEWLINE: u8 = 10;

/// What a request asks for.
#[derive(Clone, Copy, Debug, PartialEq, Eq, Structural)]
pub enum Method {
    GET,
    SET,
}

/// The word that names a command, with the space that follows it.
pub open spec fn head(command: Method) -> Seq<u8> {
    match command {
        Method::GET => seq![103u8, 101u8, 116u8, SPACE],
        Method::SET => seq![115u8, 101u8, 116u8, SPACE],
    }
}

/// The parts of a request as bytes.
pub ghost struct RawRequest {
    pub command: Method,
    pub key: Seq<u8>,
    pub rest: Seq<u8>,
    pub body: Seq<u8>,
}

/// The parts can be told apart again once written down: the key is not empty
/// and holds neither space nor line feed, no line holds a line feed, and only
/// a `set` has a body.
pub open spec fn raw_well_formed(raw: RawRequest) -> bool {
    &&& raw.key.len() > 0
    &&& !raw.key.contains(SPACE)
    &&& !raw.key.contains(NEWLINE)
    &&& !raw.rest.contains(NEWLINE)
    &&& !raw.body.contains(NEWLINE)
    &&& raw.command is GET ==> raw.body.len() == 0
}

/// The request line of a request.
pub open spec fn raw_line(raw: RawRequest) -> Seq<u8> {
    head(raw.command) + raw.key + seq![SPACE] + raw.rest + seq![NEWLINE]
}

/// The bytes by which a request is sent.
pub open spec fn raw_frame(raw: RawRequest) -> Seq<u8> {
    match raw.command {
        Method::GET => raw_line(raw),
        Method::SET => raw_line(raw) + raw.body + seq![NEWLINE],
    }
}

/// The first position at or behind `from` that holds `a` or `b`; the length of
/// `buf` where there is none.
pub open spec fn first_of(buf: Seq<u8>, from: int, a: u8, b: u8) -> int
    decreases buf.len() - from,
{
    if from >= buf.len() {
        buf.len() as int
    } else if buf[from] == a || buf[from] == b {
        from
    } else {
        first_of(buf, from + 1, a, b)
    }
}

/// `buf` and `word` hold the same bytes as far as both reach.
pub open spec fn agrees(buf: Seq<u8>, word: Seq<u8>) -> bool {
    forall|i: int| 0 <= i < buf.len() && i < word.len() ==> buf[i] == word[i]
}

/// What the bytes received so far amount to.
pub ghost enum Scanned {
    /// A whole request, and the count of bytes it took.
    Complete(RawRequest, nat),
    /// The beginning of a request: more bytes are needed.
    Incomplete,
    /// No request begins like this, whatever follows.
    Malformed,
}

/// Reads one request off the front of `buf`.
pub open spec fn scan(buf: Seq<u8>) -> Scanned {
    let get = agrees(buf, head(Method::GET));
    let set = agrees(buf, head(Method::SET));
    let command = if get { Method::GET } else { Method::SET };
    let space: int = first_of(buf, 4, SPACE, NEWLINE);
    let newline: int = first_of(buf, space + 1, NEWLINE, NEWLINE);
    let end: int = first_of(buf, newline + 1, NEWLINE, NEWLINE);
    if !get && !set {
        Scanned::Malformed
    } else if buf.len() < 4 || space == buf.len() {
        Scanned::Incomplete
    } else if buf[space] == NEWLINE || space == 4 {
        Scanned::Malformed
    } else if newline == buf.len() {
        Scanned::Incomplete
    } else if command is GET {
        Scanned::Complete(
            RawRequest {
                command,
                key: buf.subrange(4, space),
                rest: buf.subrange(space + 1, newline),
                body: Seq::empty(),
            },
            (newline + 1) as nat,
        )
    } else if end == buf.len() {
        Scanned::Incomplete
    } else {
        Scanned::Complete(
            RawRequest {
                command,
                key: buf.subrange(4, space),
                rest: buf.subrange(space + 1, newline),
                body: buf.subrange(newline + 1, end),
            },
            (end + 1) as nat,
        )
    }
}

/// `first_of` stops at the first of the two bytes and skips none.
pub proof fn lemma_first_of(buf: Seq<u8>, from: int, a: u8, b: u8)
    requires
        0 <= from <= buf.len(),
    ensures
        from <= first_of(buf, from, a, b) <= buf.len(),
        forall|j: int| from <= j < first_of(buf, from, a, b) ==> buf[j] != a && buf[j] != b,
        first_of(buf, from, a, b) < buf.len() ==> {
            ||| buf[first_of(buf, from, a, b)] == a
            ||| buf[first_of(buf, from, a, b)] == b
        },
    decreases buf.len() - from,
{
    if from < buf.len() && buf[from] != a && buf[from] != b {
        lemma_first_of(buf, from + 1, a, b);
    }
}

/// A position that holds one of the two bytes, with none of them between
/// `from` and it, is where `first_of` stops; so is the end of `buf` where none
/// of them follows `from`.
pub proof fn lemma_first_of_at(buf: Seq<u8>, from: int, a: u8, b: u8, at: int)
    requires
        0 <= from <= at <= buf.len(),
        forall|j: int| from <= j < at ==> buf[j] != a && buf[j] != b,
        at < buf.len() ==> buf[at] == a || buf[at] == b,
    ensures
        first_of(buf, from, a, b) == at,
    decreases at - from,
{
    if from < at {
        lemma_first_of_at(buf, from + 1, a, b, at);
    }
}

/// A request that `scan` reads is well formed, and the bytes that it took are
/// the bytes by which that request is sent.
pub proof fn law_scan_sound(buf: Seq<u8>)
    ensures
        scan(buf) matches Scanned::Complete(raw, n) ==> {
            &&& raw_well_formed(raw)
            &&& n <= buf.len()
            &&& buf.take(n as int) == raw_frame(raw)
        },
{
    if let Scanned::Complete(raw, n) = scan(buf) {
        let space: int = first_of(buf, 4, SPACE, NEWLINE);
        let newline: int = first_of(buf, space + 1, NEWLINE, NEWLINE);
        let end: int = first_of(buf, newline + 1, NEWLINE, NEWLINE);
        lemma_first_of(buf, 4, SPACE, NEWLINE);
        lemma_first_of(buf, space + 1, NEWLINE, NEWLINE);
        assert(buf.take(4) =~= head(raw.command));
        assert(buf.take(newline + 1) =~= raw_line(raw));
        if raw.command is SET {
            lemma_first_of(buf, newline + 1, NEWLINE, NEWLINE);
            assert(buf.take(end + 1) =~= raw_frame(raw));
        }
    }
}

/// Whatever follows the bytes of a well-formed request, `scan` reads that
/// request and takes exactly its bytes.
pub proof fn law_scan_frame(raw: RawRequest, more: Seq<u8>)
    requires
        raw_well_formed(raw),
    ensures
        scan(raw_frame(raw) + more) == Scanned::Complete(raw, raw_frame(raw).len()),
{
    let buf = raw_frame(raw) + more;
    let space: int = 4 + raw.key.len() as int;
    let newline: int = space + 1 + raw.rest.len();
    let end: int = newline + 1 + raw.body.len();
    assert(forall|j: int| 0 <= j < 4 ==> buf[j] == head(raw.command)[j]);
    assert(forall|j: int| 4 <= j < space ==> buf[j] == raw.key[j - 4]);
    assert(buf[space] == SPACE);
    assert(forall|j: int| space + 1 <= j < newline ==> buf[j] == raw.rest[j - space - 1]);
    assert(buf[newline] == NEWLINE);
    lemma_first_of_at(buf, 4, SPACE, NEWLINE, space);
    lemma_first_of_at(buf, space + 1, NEWLINE, NEWLINE, newline);
    assert(buf.subrange(4, space) =~= raw.key);
    assert(buf.subrange(space + 1, newline) =~= raw.rest);
    if raw.command is SET {
        assert(forall|j: int| newline + 1 <= j < end ==> buf[j] == raw.body[j - newline - 1]);
        assert(buf[end] == NEWLINE);
        lemma_first_of_at(buf, newline + 1, NEWLINE, NEWLINE, end);
        assert(buf.subrange(newline + 1, end) =~= raw.body);
    } else {
        assert(raw.body =~= Seq::empty());
    }
}

/// Short of its last byte, a well-formed request reads as the beginning of a
/// request: neither as a request nor as an error.
pub proof fn law_scan_prefix(raw: RawRequest, k: int)
    requires
        raw_well_formed(raw),
        0 <= k < raw_frame(raw).len(),
    ensures
        scan(raw_frame(raw).take(k)) == Scanned::Incomplete,
{
    let frame = raw_frame(raw);
    let buf = frame.take(k);
    let space: int = 4 + raw.key.len() as int;
    let newline: int = space + 1 + raw.rest.len();
    let end: int = newline + 1 + raw.body.len();
    assert(forall|j: int| 0 <= j < 4 && j < k ==> buf[j] == head(raw.command)[j]);
    assert(forall|j: int| 4 <= j < space && j < k ==> buf[j] == raw.key[j - 4]);
    assert(forall|j: int| space + 1 <= j < newline && j < k ==> buf[j] == raw.rest[j - space - 1]);
    assert(agrees(buf, head(raw.command)));
    if k >= 4 {
        if k <= space {
            lemma_first_of_at(buf, 4, SPACE, NEWLINE, k);
        } else {
            assert(buf[space] == SPACE);
            lemma_first_of_at(buf, 4, SPACE, NEWLINE, space);
            if k <= newline {
                lemma_first_of_at(buf, space + 1, NEWLINE, NEWLINE, k);
            } else {
                assert(buf[newline] == NEWLINE);
                lemma_first_of_at(buf, space + 1, NEWLINE, NEWLINE, newline);
                assert(raw.command is SET);
                assert(forall|j: int|
                    newline + 1 <= j < end && j < k ==> buf[j] == raw.body[j - newline - 1]);
                lemma_first_of_at(buf, newline + 1, NEWLINE, NEWLINE, k);
            }
        }
    }
}

/// Bytes that begin no request begin none whatever is received after them.
pub proof fn law_scan_malformed_stays(buf: Seq<u8>, more: Seq<u8>)
    requires
        scan(buf) is Malformed,
    ensures
        scan(buf + more) is Malformed,
{
    let all = buf + more;
    assert(forall|j: int| 0 <= j < buf.len() ==> all[j] == buf[j]);
    let get = agrees(buf, head(Method::GET));
    let set = agrees(buf, head(Method::SET));
    if !get && !set {
        let i: int = choose|i: int|
            0 <= i < buf.len() && i < head(Method::GET).len() && buf[i] != head(Method::GET)[i];
        let j: int = choose|j: int|
            0 <= j < buf.len() && j < head(Method::SET).len() && buf[j] != head(Method::SET)[j];
        assert(all[i] != head(Method::GET)[i]);
        assert(all[j] != head(Method::SET)[j]);
    } else {
        let space: int = first_of(buf, 4, SPACE, NEWLINE);
        lemma_first_of(buf, 4, SPACE, NEWLINE);
        lemma_first_of_at(all, 4, SPACE, NEWLINE, space);
        assert(agrees(all, head(Method::GET)) || agrees(all, head(Method::SET))) by {
            if get {
                assert(agrees(all, head(Method::GET)));
            } else {
                assert(agrees(all, head(Method::SET)));
            }
        }
    }
}

/// A request once read stays read: bytes received after it change neither the
/// request nor the count of bytes that it took.
pub proof fn law_scan_complete_stays(buf: Seq<u8>, more: Seq<u8>)
    requires
        scan(buf) is Complete,
    ensures
        scan(buf + more) == scan(buf),
{
    let raw = scan(buf)->Complete_0;
    let n: nat = scan(buf)->Complete_1;
    law_scan_sound(buf);
    law_scan_frame(raw, buf.skip(n as int) + more);
    assert(buf + more =~= raw_frame(raw) + (buf.skip(n as int) + more));
}

/// A whole request lies at the front of `buf`.
pub open spec fn holds_request(buf: Seq<u8>) -> bool {
    exists|raw: RawRequest| raw_well_formed(raw) && (#[trigger] raw_frame(raw)).is_prefix_of(buf)
}

/// `buf` is the beginning of a request, short of its end.
pub open spec fn begins_request(buf: Seq<u8>) -> bool {
    exists|raw: RawRequest|
        raw_well_formed(raw) && buf.is_prefix_of(#[trigger] raw_frame(raw)) && buf.len()
            < raw_frame(raw).len()
}

/// A request of which `buf` is the beginning, where `scan` finds `buf`
/// incomplete: the key and the lines end where `buf` ends, but for a key
/// that is still empty, which becomes one letter.
spec fn completion(buf: Seq<u8>) -> RawRequest {
    let command = if agrees(buf, head(Method::GET)) {
        Method::GET
    } else {
        Method::SET
    };
    let space: int = first_of(buf, 4, SPACE, NEWLINE);
    let newline: int = first_of(buf, space + 1, NEWLINE, NEWLINE);
    if buf.len() < 4 {
        RawRequest { command, key: seq![107u8], rest: Seq::empty(), body: Seq::empty() }
    } else if space == buf.len() {
        RawRequest {
            command,
            key: buf.skip(4) + seq![107u8],
            rest: Seq::empty(),
            body: Seq::empty(),
        }
    } else if newline == buf.len() {
        RawRequest {
            command,
            key: buf.subrange(4, space),
            rest: buf.skip(space + 1),
            body: Seq::empty(),
        }
    } else {
        RawRequest {
            command,
            key: buf.subrange(4, space),
            rest: buf.subrange(space + 1, newline),
            body: buf.skip(newline + 1),
        }
    }
}

/// What `scan` finds incomplete can be completed.
proof fn lemma_completion(buf: Seq<u8>)
    requires
        scan(buf) is Incomplete,
    ensures
        raw_well_formed(completion(buf)),
        buf.is_prefix_of(raw_frame(completion(buf))),
        buf.len() < raw_frame(completion(buf)).len(),
{
    let raw = completion(buf);
    let frame = raw_frame(raw);
    let space: int = first_of(buf, 4, SPACE, NEWLINE);
    let newline: int = first_of(buf, space + 1, NEWLINE, NEWLINE);
    assert(agrees(buf, head(raw.command)));
    if buf.len() < 4 {
        assert(buf =~= frame.subrange(0, buf.len() as int));
    } else {
        lemma_first_of(buf, 4, SPACE, NEWLINE);
        if space == buf.len() {
            assert(buf =~= frame.subrange(0, buf.len() as int));
        } else {
            lemma_first_of(buf, space + 1, NEWLINE, NEWLINE);
            if newline == buf.len() {
                assert(buf =~= frame.subrange(0, buf.len() as int));
            } else {
                lemma_first_of(buf, newline + 1, NEWLINE, NEWLINE);
                assert(raw.command is SET);
                assert(buf =~= frame.subrange(0, buf.len() as int));
            }
        }
    }
}

/// What `scan` finds is what is there. It reads a request exactly when a
/// whole well-formed request lies at the front of the buffer; it asks for
/// more bytes exactly when the buffer is the beginning of one, short of its
/// end; and it finds the buffer malformed exactly when neither is so, and so
/// no bytes to come can mend it.
pub proof fn law_scan_characterized(buf: Seq<u8>)
    ensures
        scan(buf) is Complete <==> holds_request(buf),
        scan(buf) is Incomplete <==> begins_request(buf),
        scan(buf) is Malformed <==> !holds_request(buf) && !begins_request(buf),
{
    if scan(buf) is Complete {
        law_scan_sound(buf);
        let raw = scan(buf)->Complete_0;
        assert(raw_frame(raw).is_prefix_of(buf));
    }
    if scan(buf) is Incomplete {
        lemma_completion(buf);
        assert(buf.is_prefix_of(raw_frame(completion(buf))));
    }
    if holds_request(buf) {
        let raw = choose|raw: RawRequest|
            raw_well_formed(raw) && (#[trigger] raw_frame(raw)).is_prefix_of(buf);
        law_scan_frame(raw, buf.skip(raw_frame(raw).len() as int));
        assert(buf =~= raw_frame(raw) + buf.skip(raw_frame(raw).len() as int));
    }
    if begins_request(buf) {
        let raw = choose|raw: RawRequest|
            raw_well_formed(raw) && buf.is_prefix_of(#[trigger] raw_frame(raw)) && buf.len()
                < raw_frame(raw).len();
        law_scan_prefix(raw, buf.len() as int);
        assert(buf =~= raw_frame(raw).take(buf.len() as int));
    }
}

/// Where the parts of a request lie in the bytes that hold it.
#[derive(Clone, Copy, Debug)]
pub struct Layout {
    /// What the request asks for.
    pub command: Method,
    /// The position of the space that ends the key.
    pub space: usize,
    /// The position of the line feed that ends the request line.
    pub newline: usize,
    /// The count of bytes that the request takes.
    pub end: usize,
}

impl Layout {
    /// The positions lie in `buf` in their order, and the body is there for a
    /// `set` only.
    pub open spec fn fits(self, buf: Seq<u8>) -> bool {
        &&& 4 < self.space < self.newline < self.end <= buf.len()
        &&& self.command is GET ==> self.end == self.newline + 1
        &&& self.command is SET ==> self.end >= self.newline + 2
    }

    /// The parts that the positions cut out of `buf`.
    pub open spec fn raw(self, buf: Seq<u8>) -> RawRequest {
        RawRequest {
            command: self.command,
            key: buf.subrange(4, self.space as int),
            rest: buf.subrange(self.space + 1, self.newline as int),
            body: match self.command {
                Method::GET => Seq::empty(),
                Method::SET => buf.subrange(self.newline + 1, self.end - 1),
            },
        }
    }
}

/// The outcome of reading a request off the front of a buffer.
#[derive(Clone, Copy, Debug)]
pub enum Scan {
    /// A whole request lies at the front of the buffer.
    Complete(Layout),
    /// The buffer holds the beginning of a request: more bytes are needed.
    Incomplete,
    /// No request begins like this, whatever follows.
    Malformed,
}

impl Scan {
    /// The outcome, with the parts taken from `buf`.
    pub open spec fn of(self, buf: Seq<u8>) -> Scanned {
        match self {
            Scan::Complete(layout) => Scanned::Complete(layout.raw(buf), layout.end as nat),
            Scan::Incomplete => Scanned::Incomplete,
            Scan::Malformed => Scanned::Malformed,
        }
    }
}

/// The byte at position `i` of a command's word and space.
fn head_byte(command: Method, i: usize) -> (byte: u8)
    requires
        i < 4,
    ensures
        byte == head(command)[i as int],
{
    if i == 3 {
        SPACE
    } else if i == 1 {
        101
    } else if i == 2 {
        116
    } else {
        match command {
            Method::GET => 103,
            Method::SET => 115,
        }
    }
}

/// Whether `buf` begins like the request line of `command`, as far as it
/// reaches.
fn begins(buf: &[u8], command: Method) -> (yes: bool)
    ensures
        yes == agrees(buf@, head(command)),
{
    let mut i: usize = 0;
    while i < 4 && i < buf.len()
        invariant
            i <= 4,
            i <= buf.len(),
            forall|j: int| 0 <= j < i ==> buf@[j] == head(command)[j],
        decreases 4 - i,
    {
        if buf[i] != head_byte(command, i) {
            return false;
        }
        i += 1;
    }
    true
}

/// The first position at or behind `from` that holds `a` or `b`; the length of
/// `buf` where there is none.
fn find(buf: &[u8], from: usize, a: u8, b: u8) -> (at: usize)
    requires
        from <= buf.len(),
    ensures
        at == first_of(buf@, from as int, a, b),
        from <= at <= buf.len(),
{
    let mut i: usize = from;
    while i < buf.len()
        invariant
            from <= i <= buf.len(),
            first_of(buf@, from as int, a, b) == first_of(buf@, i as int, a, b),
        decreases buf.len() - i,
    {
        if buf[i] == a || buf[i] == b {
            return i;
        }
        i += 1;
    }
    i
}

/// Reads one request off the front of `buf` and says where its parts lie.
/// Nothing is consumed: the buffer is the caller's.
pub fn scan_frame(buf: &[u8]) -> (found: Scan)
    ensures
        found.of(buf@) == scan(buf@),
        found matches Scan::Complete(layout) ==> layout.fits(buf@),
{
    let get = begins(buf, Method::GET);
    let set = begins(buf, Method::SET);
    if !get && !set {
        return Scan::Malformed;
    }
    if buf.len() < 4 {
        return Scan::Incomplete;
    }
    let command = if get {
        Method::GET
    } else {
        Method::SET
    };
    let space: usize = find(buf, 4, SPACE, NEWLINE);
    if space == buf.len() {
        return Scan::Incomplete;
    }
    if buf[space] == NEWLINE || space == 4 {
        return Scan::Malformed;
    }
    let newline: usize = find(buf, space + 1, NEWLINE, NEWLINE);
    if newline == buf.len() {
        return Scan::Incomplete;
    }
    proof {
        lemma_first_of(buf@, 4, SPACE, NEWLINE);
        lemma_first_of(buf@, space + 1, NEWLINE, NEWLINE);
    }
    match command {
        Method::GET => Scan::Complete(Layout { command, space, newline, end: newline + 1 }),
        Method::SET => {
            let stop: usize = find(buf, newline + 1, NEWLINE, NEWLINE);
            if stop == buf.len() {
                Scan::Incomplete
            } else {
                Scan::Complete(Layout { command, space, newline, end: stop + 1 })
            }
        },
    }
}

} // verus!
