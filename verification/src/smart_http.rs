//! The client side of the smart HTTP protocol: what a client makes of the
//! reference advertisement, and the request it posts to fetch objects.
//!
//! Nothing here touches the network. A caller performs the HTTP exchange and
//! hands over the status, the `Content-Type` header and the body.

use crate::buffer::{bytes_mut_view, bytes_to_vec, bytes_view, max_buffer_len};
use crate::pkt_line::{
    add_flush, add_pkt_line_string, decode_pkt_line, encode_pkt_line, flush_pkt, read_pkt_line,
    spec_add_pkt_line, PktLineError,
};
use crate::text::{
    bytes_equal, lemma_encode_utf8_concat, string_from_utf8, text_equal, trim, trim_str,
};
use crate::web_address::{
    spec_url_join, spec_url_path, spec_url_text, spec_url_with_path, url_join, url_path, url_text,
    url_with_path, MAX_URL_LEN,
};
use bytes::Bytes;
use bytes::BytesMut;
use vstd::prelude::*;
use vstd::string::StrSliceExecFns;
use vstd::string::StringExecFns;
use vstd::utf8::*;

verus! {

/// Media type of a reference advertisement for the upload-pack service.
pub const ADVERTISEMENT_CONTENT_TYPE: &'static str = "application/x-git-upload-pack-advertisement";

/// Media type of an upload-pack request.
pub const REQUEST_CONTENT_TYPE: &'static str = "application/x-git-upload-pack-request";

/// Payload of the pkt-line that announces the upload-pack service.
pub const SERVICE_ANNOUNCEMENT: &'static str = "# service=git-upload-pack\n";

/// Capabilities that the client declares on its first `want` line.
pub const CAPABILITIES: &'static str =
    "multi_ack_detailed side-band-64k thin-pack ofs-delta agent=libra/0.1.0";

/// Bytes of the object id at the start of a reference line.
pub const HASH_LEN: usize = 40;

/// A failure of reference discovery or of fetch negotiation.
#[derive(Clone, Copy, Debug, PartialEq, Eq, Structural)]
pub enum ProtocolError {
    /// The `Content-Type` is not that of a reference advertisement.
    ContentType,
    /// The status is neither 200 nor 304; the status is carried along.
    Status(u16),
    /// The body does not start with the service announcement.
    ServiceAnnouncement,
    /// A pkt-line is malformed, or one could not be written.
    PktLine(PktLineError),
    /// A reference line is not UTF-8 text that starts with forty bytes of object id.
    ReferenceLine,
    /// The first reference is not `HEAD` followed by NUL and the capabilities.
    Capabilities,
}

/// A reference that the remote advertised.
#[derive(Debug, Clone, PartialEq, Eq)]
pub struct DiscoveredReference {
    pub hash: String,
    pub _ref: String,
}

/// What a [`DiscoveredReference`] says: the object id and the reference's name.
pub struct ReferenceView {
    pub hash: Seq<char>,
    pub name: Seq<char>,
}

impl View for DiscoveredReference {
    type V = ReferenceView;

    open spec fn view(&self) -> ReferenceView {
        ReferenceView { hash: self.hash@, name: self._ref@ }
    }
}

/// The views of a list of references, in order.
pub open spec fn references_view(refs: Seq<DiscoveredReference>) -> Seq<ReferenceView> {
    Seq::new(refs.len(), |i: int| refs[i]@)
}

/// Whether an HTTP status lets the exchange go on.
pub open spec fn status_accepted(status: u16) -> bool {
    status == 200 || status == 304
}

/// Whether `name` starts with `HEAD` and a NUL.
pub open spec fn has_head_prefix(name: Seq<char>) -> bool {
    name.len() >= 5 && name[0] == 'H' && name[1] == 'E' && name[2] == 'A' && name[3] == 'D'
        && name[4] == '\0'
}

/// What one reference line says.
///
/// The line is UTF-8 text. Its first forty bytes are the object id; what
/// follows, without the white space around it, is the reference's name. On
/// the first line of an advertisement the name is `HEAD`, and a NUL and the
/// capabilities follow it.
pub open spec fn spec_reference_line(payload: Seq<u8>, first: bool) -> Result<
    ReferenceView,
    ProtocolError,
> {
    if !splits_at_id(payload) {
        Err(ProtocolError::ReferenceLine)
    } else {
        let hash = decode_utf8(payload.subrange(0, 40));
        let name = trim(decode_utf8(payload.subrange(40, payload.len() as int)));
        if !first {
            Ok(ReferenceView { hash, name })
        } else if has_head_prefix(name) {
            Ok(ReferenceView { hash, name: "HEAD"@ })
        } else {
            Err(ProtocolError::Capabilities)
        }
    }
}

/// The references listed in `buf`, the part of an advertisement that follows
/// the service announcement.
///
/// Before the first reference, flush markers are passed over. After it, the
/// list ends at a flush marker or at the end of the buffer. One malformed
/// line fails the whole list.
pub open spec fn spec_references(buf: Seq<u8>, first_seen: bool) -> Result<
    Seq<ReferenceView>,
    ProtocolError,
>
    decreases buf.len(),
{
    match decode_pkt_line(buf) {
        Err(e) => Err(ProtocolError::PktLine(e)),
        Ok(read) => if read.length == 0 {
            if buf.len() == 0 || first_seen {
                Ok(Seq::empty())
            } else {
                spec_references(read.rest, false)
            }
        } else {
            match spec_reference_line(read.payload, !first_seen) {
                Err(e) => Err(e),
                Ok(r) => match spec_references(read.rest, true) {
                    Err(e) => Err(e),
                    Ok(rs) => Ok(seq![r] + rs),
                },
            }
        },
    }
}

/// Whether the head of the answer to a discovery request lets the client
/// read the body: the content type is checked first, then the status.
pub open spec fn spec_discovery_head(status: u16, content_type: Seq<char>) -> Result<
    (),
    ProtocolError,
> {
    if content_type != ADVERTISEMENT_CONTENT_TYPE@ {
        Err(ProtocolError::ContentType)
    } else if !status_accepted(status) {
        Err(ProtocolError::Status(status))
    } else {
        Ok(())
    }
}

/// What a client makes of the answer to its discovery request.
///
/// The head of the answer must be in order; then the body must open with
/// the service announcement, and the references follow.
pub open spec fn spec_discovery(status: u16, content_type: Seq<char>, body: Seq<u8>) -> Result<
    Seq<ReferenceView>,
    ProtocolError,
> {
    match spec_discovery_head(status, content_type) {
        Err(e) => Err(e),
        Ok(_) => match decode_pkt_line(body) {
            Err(e) => Err(ProtocolError::PktLine(e)),
            Ok(read) => if read.payload != encode_utf8(SERVICE_ANNOUNCEMENT@) {
                Err(ProtocolError::ServiceAnnouncement)
            } else {
                spec_references(read.rest, false)
            },
        },
    }
}

/// Whether `name` starts with `HEAD` and a NUL.
fn starts_with_head(name: &str) -> (r: bool)
    ensures
        r == has_head_prefix(name@),
{
    name.unicode_len() >= 5 && name.get_char(0) == 'H' && name.get_char(1) == 'E' && name.get_char(
        2,
    ) == 'A' && name.get_char(3) == 'D' && name.get_char(4) == '\0'
}

/// Whether a line can be split into an object id and what follows: it is
/// UTF-8 text, and its first forty bytes are whole characters.
pub open spec fn splits_at_id(payload: Seq<u8>) -> bool {
    valid_utf8(payload) && payload.len() >= 40 && is_char_boundary(payload, 40)
}

/// The text of a reference line, if the line can be split into an object
/// id and what follows.
fn reference_line_text(payload: &Bytes) -> (r: Option<String>)
    ensures
        r is Some <==> splits_at_id(bytes_view(*payload)),
        r matches Some(line) ==> encode_utf8(line@) == bytes_view(*payload),
{
    broadcast use {encode_utf8_decode_utf8, decode_utf8_encode_utf8};

    let line = match string_from_utf8(bytes_to_vec(payload)) {
        None => {
            return None;
        },
        Some(s) => s,
    };
    assert(encode_utf8(line@) == bytes_view(*payload));
    let whole = payload.len() >= HASH_LEN && line.as_str().is_char_boundary(HASH_LEN);
    if whole {
        Some(line)
    } else {
        None
    }
}

/// Reads one reference line; `first` says whether it is the first of the
/// advertisement.
pub fn parse_reference_line(payload: &Bytes, first: bool) -> (r: Result<
    DiscoveredReference,
    ProtocolError,
>)
    ensures
        match spec_reference_line(bytes_view(*payload), first) {
            Ok(v) => r matches Ok(d) && d@ == v,
            Err(e) => r matches Err(f) && f == e,
        },
{
    broadcast use {encode_utf8_decode_utf8, decode_utf8_encode_utf8};

    let line = match reference_line_text(payload) {
        None => {
            return Err(ProtocolError::ReferenceLine);
        },
        Some(line) => line,
    };
    let text: &str = line.as_str();
    let (hash, rest) = text.split_at(HASH_LEN);
    let name = trim_str(rest);
    if !first {
        Ok(DiscoveredReference { hash: hash.to_owned(), _ref: name.to_owned() })
    } else if starts_with_head(name) {
        Ok(DiscoveredReference { hash: hash.to_owned(), _ref: "HEAD".to_owned() })
    } else {
        Err(ProtocolError::Capabilities)
    }
}

/// The first place at or after `from` where `text` holds a space; the
/// length of `text` when there is none.
pub open spec fn find_space(text: Seq<char>, from: int) -> int
    decreases text.len() - from,
{
    if from < 0 || from >= text.len() {
        text.len() as int
    } else if text[from] == ' ' {
        from
    } else {
        find_space(text, from + 1)
    }
}

/// The pieces of `text` from place `from` on that single spaces set apart.
/// Two spaces in a row set an empty piece apart, and so does a space at
/// the end.
pub open spec fn split_at_spaces(text: Seq<char>, from: int) -> Seq<Seq<char>>
    decreases text.len() - from,
{
    let space = find_space(text, from);
    if from < 0 || space >= text.len() || space < from {
        seq![text.subrange(from, text.len() as int)]
    } else {
        seq![text.subrange(from, space)] + split_at_spaces(text, space + 1)
    }
}

/// The capabilities that the first reference line of an advertisement
/// declares: what follows `HEAD` and the NUL, set apart by spaces.
pub open spec fn spec_capabilities(payload: Seq<u8>) -> Result<Seq<Seq<char>>, ProtocolError> {
    if !splits_at_id(payload) {
        Err(ProtocolError::ReferenceLine)
    } else {
        let name = trim(decode_utf8(payload.subrange(40, payload.len() as int)));
        if has_head_prefix(name) {
            Ok(split_at_spaces(name, 5))
        } else {
            Err(ProtocolError::Capabilities)
        }
    }
}

/// Reads the capabilities that the first reference line of an
/// advertisement declares.
pub fn parse_capabilities(payload: &Bytes) -> (r: Result<Vec<String>, ProtocolError>)
    ensures
        match spec_capabilities(bytes_view(*payload)) {
            Ok(list) => r matches Ok(caps) && texts(caps@) == list,
            Err(e) => r matches Err(f) && f == e,
        },
{
    broadcast use {encode_utf8_decode_utf8, decode_utf8_encode_utf8};

    let line = match reference_line_text(payload) {
        None => {
            return Err(ProtocolError::ReferenceLine);
        },
        Some(line) => line,
    };
    let text: &str = line.as_str();
    let (_, rest) = text.split_at(HASH_LEN);
    let name = trim_str(rest);
    if !starts_with_head(name) {
        return Err(ProtocolError::Capabilities);
    }
    let n: usize = name.unicode_len();
    let mut caps: Vec<String> = Vec::new();
    let mut start: usize = 5;
    let mut i: usize = 5;
    assert(texts(caps@) + split_at_spaces(name@, 5) =~= split_at_spaces(name@, 5));
    while i < n
        invariant
            5 <= start <= i <= n == name@.len(),
            find_space(name@, start as int) == find_space(name@, i as int),
            split_at_spaces(name@, 5) == texts(caps@) + split_at_spaces(name@, start as int),
        decreases n - i,
    {
        if name.get_char(i) == ' ' {
            let piece = name.substring_char(start, i).to_owned();
            proof {
                let listed = texts(caps@);
                let more = split_at_spaces(name@, i + 1);
                assert(texts(caps@.push(piece)) =~= listed.push(piece@));
                assert(listed + (seq![piece@] + more) =~= listed.push(piece@) + more);
            }
            caps.push(piece);
            start = i + 1;
        }
        i = i + 1;
    }
    let piece = name.substring_char(start, n).to_owned();
    proof {
        let listed = texts(caps@);
        assert(texts(caps@.push(piece)) =~= listed.push(piece@));
        assert(listed + seq![piece@] =~= listed.push(piece@));
    }
    caps.push(piece);
    Ok(caps)
}

/// `list` put in front of what is still to be read.
pub open spec fn prepend_references(
    list: Seq<ReferenceView>,
    more: Result<Seq<ReferenceView>, ProtocolError>,
) -> Result<Seq<ReferenceView>, ProtocolError> {
    match more {
        Ok(rs) => Ok(list + rs),
        Err(e) => Err(e),
    }
}

/// Reads the references of an advertisement from `content`, the body after
/// the service announcement.
pub fn parse_references(content: Bytes) -> (r: Result<Vec<DiscoveredReference>, ProtocolError>)
    ensures
        match spec_references(bytes_view(content), false) {
            Ok(v) => r matches Ok(refs) && references_view(refs@) == v,
            Err(e) => r matches Err(f) && f == e,
        },
{
    let ghost whole = spec_references(bytes_view(content), false);
    let mut cursor = content;
    let mut ref_list: Vec<DiscoveredReference> = Vec::new();
    let mut read_first_line = false;
    assert(references_view(ref_list@) + Seq::<ReferenceView>::empty() =~= Seq::<
        ReferenceView,
    >::empty());
    loop
        invariant
            whole == spec_references(bytes_view(content), false),
            whole == prepend_references(
                references_view(ref_list@),
                spec_references(bytes_view(cursor), read_first_line),
            ),
        decreases bytes_view(cursor).len(),
    {
        let exhausted = cursor.len() == 0;
        let ghost listed = references_view(ref_list@);
        let (bytes_take, pkt_line) = match read_pkt_line(&mut cursor) {
            Err(e) => {
                return Err(ProtocolError::PktLine(e));
            },
            Ok(line) => line,
        };
        if bytes_take == 0 {
            if exhausted || read_first_line {
                assert(listed + Seq::<ReferenceView>::empty() =~= listed);
                return Ok(ref_list);
            }
            continue ;
        }
        let reference = match parse_reference_line(&pkt_line, !read_first_line) {
            Err(e) => {
                return Err(e);
            },
            Ok(reference) => reference,
        };
        proof {
            let more = spec_references(bytes_view(cursor), true);
            assert(references_view(ref_list@.push(reference)) =~= listed.push(reference@));
            if more is Ok {
                assert(listed + (seq![reference@] + more->Ok_0) =~= listed.push(reference@)
                    + more->Ok_0);
            }
        }
        ref_list.push(reference);
        read_first_line = true;
    }
}

/// The texts of a list of strings, in order.
pub open spec fn texts(list: Seq<String>) -> Seq<Seq<char>> {
    Seq::new(list.len(), |i: int| list[i]@)
}

/// A `want` line. The first of a request also declares the capabilities,
/// behind a NUL.
pub open spec fn want_line(hash: Seq<char>, first: bool) -> Seq<char> {
    if first {
        "want "@ + hash + "\0"@ + CAPABILITIES@ + "\n"@
    } else {
        "want "@ + hash + "\n"@
    }
}

/// A `have` line.
pub open spec fn have_line(hash: Seq<char>) -> Seq<char> {
    "have "@ + hash + "\n"@
}

/// The lines of a request before its flush marker: one `want` line for each
/// wanted object, then one `have` line for each object at hand.
pub open spec fn request_lines(have: Seq<Seq<char>>, want: Seq<Seq<char>>) -> Seq<Seq<char>> {
    Seq::new(want.len(), |i: int| want_line(want[i], i == 0)) + Seq::new(
        have.len(),
        |i: int| have_line(have[i]),
    )
}

/// `stream` with each of `lines` appended as a pkt-line, or the reason why
/// the first line that does not fit cannot be written.
pub open spec fn spec_append_lines(stream: Seq<u8>, lines: Seq<Seq<char>>) -> Result<
    Seq<u8>,
    PktLineError,
>
    decreases lines.len(),
{
    if lines.len() == 0 {
        Ok(stream)
    } else {
        match spec_add_pkt_line(stream, encode_utf8(lines[0])) {
            Err(e) => Err(e),
            Ok(_) => spec_append_lines(
                stream + encode_pkt_line(encode_utf8(lines[0])),
                lines.drop_first(),
            ),
        }
    }
}

/// The body of a fetch request: the `want` and `have` lines, a flush
/// marker, and a final `done` line.
pub open spec fn spec_fetch_request(have: Seq<Seq<char>>, want: Seq<Seq<char>>) -> Result<
    Seq<u8>,
    ProtocolError,
> {
    match spec_append_lines(Seq::empty(), request_lines(have, want)) {
        Err(e) => Err(ProtocolError::PktLine(e)),
        Ok(lines) => if lines.len() + 4 > max_buffer_len() {
            Err(ProtocolError::PktLine(PktLineError::BufferFull))
        } else {
            match spec_add_pkt_line(lines + flush_pkt(), encode_utf8("done\n"@)) {
                Err(e) => Err(ProtocolError::PktLine(e)),
                Ok(_) => Ok(lines + flush_pkt() + encode_pkt_line(encode_utf8("done\n"@))),
            }
        },
    }
}

/// Appending the lines from `k` on starts with line `k`.
proof fn lemma_append_lines_step(stream: Seq<u8>, lines: Seq<Seq<char>>, k: int)
    requires
        0 <= k < lines.len(),
    ensures
        spec_append_lines(stream, lines.skip(k)) == match spec_add_pkt_line(
            stream,
            encode_utf8(lines[k]),
        ) {
            Err(e) => Err(e),
            Ok(_) => spec_append_lines(
                stream + encode_pkt_line(encode_utf8(lines[k])),
                lines.skip(k + 1),
            ),
        },
{
    assert(lines.skip(k).drop_first() =~= lines.skip(k + 1));
}

/// Which line stands at place `k` of a request.
proof fn lemma_request_line(have: Seq<Seq<char>>, want: Seq<Seq<char>>, k: int)
    requires
        0 <= k < want.len() + have.len(),
    ensures
        request_lines(have, want).len() == want.len() + have.len(),
        k < want.len() ==> request_lines(have, want)[k] == want_line(want[k], k == 0),
        k >= want.len() ==> request_lines(have, want)[k] == have_line(have[k - want.len()]),
{
}

/// The text of a `want` line.
fn make_want_line(hash: &str, first: bool) -> (line: String)
    ensures
        line@ == want_line(hash@, first),
{
    let mut line = "want ".to_owned();
    line.append(hash);
    if first {
        line.append("\0");
        line.append(CAPABILITIES);
    }
    line.append("\n");
    line
}

/// The text of a `have` line.
fn make_have_line(hash: &str) -> (line: String)
    ensures
        line@ == have_line(hash@),
{
    let mut line = "have ".to_owned();
    line.append(hash);
    line.append("\n");
    line
}

/// Path, relative to the repository's URL, of the reference advertisement.
pub const DISCOVERY_PATH: &'static str = "info/refs?service=git-upload-pack";

/// Path, relative to the repository's URL, of the upload-pack service.
pub const UPLOAD_PACK_PATH: &'static str = "git-upload-pack";

/// Whether `path` ends with a slash.
pub open spec fn spec_ends_with_slash(path: Seq<char>) -> bool {
    path.len() > 0 && path.last() == '/'
}

/// The URL that a client for `url` works from: the URL that `url` spells,
/// written out, when its path ends with a slash, else that URL with a
/// slash put at the end of its path. `None` when `url` is not an absolute
/// URL, or when a slash is to be added and the URL written out, or its
/// path, is longer than [`MAX_URL_LEN`] bytes.
pub open spec fn spec_client_url(url: Seq<char>) -> Option<Seq<char>> {
    match (spec_url_text(url), spec_url_path(url)) {
        (Some(text), Some(path)) => if spec_ends_with_slash(path) {
            Some(text)
        } else if encode_utf8(text).len() > MAX_URL_LEN || encode_utf8(path).len() > MAX_URL_LEN {
            None
        } else {
            spec_url_with_path(url, path + "/"@)
        },
        _ => None,
    }
}

/// Whether `path` ends with a slash.
pub fn ends_with_slash(path: &str) -> (r: bool)
    ensures
        r == spec_ends_with_slash(path@),
{
    let n: usize = path.unicode_len();
    n > 0 && path.get_char(n - 1) == '/'
}

/// A client that talks to a remote repository over the smart HTTP protocol.
///
/// It holds the repository's URL, which always ends its path with a slash so
/// that the service paths can be joined to it.
pub struct HttpsClient {
    url: String,
}

impl HttpsClient {
    /// The repository's URL as the client holds it.
    pub closed spec fn spec_url(&self) -> Seq<char> {
        self.url@
    }

    /// A client for the repository at `url`.
    pub fn from_url(url: &str) -> (r: Option<HttpsClient>)
        ensures
            r is Some <==> spec_client_url(url@) is Some,
            r matches Some(client) ==> spec_client_url(url@) == Some(client.spec_url()),
    {
        let text = match url_text(url) {
            None => {
                return None;
            },
            Some(text) => text,
        };
        let path = match url_path(url) {
            None => {
                return None;
            },
            Some(path) => path,
        };
        if ends_with_slash(path.as_str()) {
            return Some(HttpsClient { url: text });
        }
        if text.as_str().as_bytes().len() > MAX_URL_LEN || path.as_str().as_bytes().len()
            > MAX_URL_LEN {
            return None;
        }
        let mut path = path;
        proof {
            reveal_strlit("/");
            assert(is_ascii_chars("/"@));
            is_ascii_chars_encode_utf8("/"@);
            lemma_encode_utf8_concat(path@, "/"@);
        }
        path.append("/");
        match url_with_path(url, path.as_str()) {
            None => None,
            Some(url) => Some(HttpsClient { url }),
        }
    }

    /// The repository's URL as the client holds it.
    pub fn url(&self) -> (r: &str)
        ensures
            r@ == self.spec_url(),
    {
        self.url.as_str()
    }

    /// Where to GET the reference advertisement; `None` when the path cannot
    /// be joined to the client's URL.
    pub fn discovery_url(&self) -> (r: Option<String>)
        ensures
            r is Some <==> spec_url_join(self.spec_url(), DISCOVERY_PATH@) is Some,
            r matches Some(u) ==> spec_url_join(self.spec_url(), DISCOVERY_PATH@) == Some(u@),
    {
        url_join(self.url.as_str(), DISCOVERY_PATH)
    }

    /// Where to POST a fetch request; `None` when the path cannot be joined
    /// to the client's URL.
    pub fn upload_pack_url(&self) -> (r: Option<String>)
        ensures
            r is Some <==> spec_url_join(self.spec_url(), UPLOAD_PACK_PATH@) is Some,
            r matches Some(u) ==> spec_url_join(self.spec_url(), UPLOAD_PACK_PATH@) == Some(u@),
    {
        url_join(self.url.as_str(), UPLOAD_PACK_PATH)
    }

    /// Whether the head of the answer to a discovery request lets the
    /// client read the body. A content type other than that of a reference
    /// advertisement is refused whatever the status; then the status must
    /// be 200 or 304.
    pub fn check_discovery_head(&self, status: u16, content_type: &str) -> (r: Result<
        (),
        ProtocolError,
    >)
        ensures
            r == spec_discovery_head(status, content_type@),
    {
        if !text_equal(content_type, ADVERTISEMENT_CONTENT_TYPE) {
            return Err(ProtocolError::ContentType);
        }
        if status != 200 && status != 304 {
            return Err(ProtocolError::Status(status));
        }
        Ok(())
    }

    /// What a client makes of the answer to its discovery request: the
    /// references that the remote advertises, `HEAD` first.
    ///
    /// `status` and `content_type` are those of the HTTP response and `body` is
    /// its entity. Any deviation fails the whole call; no partial list is
    /// returned.
    pub fn discovery_reference(&self, status: u16, content_type: &str, body: Bytes) -> (r: Result<
        Vec<DiscoveredReference>,
        ProtocolError,
    >)
        ensures
            match spec_discovery(status, content_type@, bytes_view(body)) {
                Ok(v) => r matches Ok(refs) && references_view(refs@) == v,
                Err(e) => r matches Err(f) && f == e,
            },
            content_type@ != ADVERTISEMENT_CONTENT_TYPE@ ==> r == Err::<
                Vec<DiscoveredReference>,
                ProtocolError,
            >(ProtocolError::ContentType),
    {
        match self.check_discovery_head(status, content_type) {
            Err(e) => {
                return Err(e);
            },
            Ok(_) => {},
        }
        let mut response_content = body;
        let first_line = match read_pkt_line(&mut response_content) {
            Err(e) => {
                return Err(ProtocolError::PktLine(e));
            },
            Ok((_, first_line)) => first_line,
        };
        let announced = bytes_to_vec(&first_line);
        if !bytes_equal(announced.as_slice(), SERVICE_ANNOUNCEMENT.as_bytes()) {
            return Err(ProtocolError::ServiceAnnouncement);
        }
        parse_references(response_content)
    }

    /// Builds the body of a fetch request for the objects in `want`, given the
    /// objects in `have`.
    ///
    /// Fails when a line does not fit a pkt-line or the body outgrows what a
    /// buffer can hold.
    pub fn fetch_objects(&self, have: &Vec<String>, want: &Vec<String>) -> (r: Result<
        Bytes,
        ProtocolError,
    >)
        ensures
            match spec_fetch_request(texts(have@), texts(want@)) {
                Ok(body) => r matches Ok(b) && bytes_view(b) == body,
                Err(e) => r matches Err(f) && f == e,
            },
    {
        let ghost lines = request_lines(texts(have@), texts(want@));
        let ghost whole = spec_append_lines(Seq::empty(), lines);
        let mut buf = BytesMut::new();
        assert(lines.skip(0) =~= lines);
        let mut i: usize = 0;
        while i < want.len()
            invariant
                i <= want.len(),
                lines == request_lines(texts(have@), texts(want@)),
                whole == spec_append_lines(Seq::empty(), lines),
                whole == spec_append_lines(bytes_mut_view(buf), lines.skip(i as int)),
            decreases want.len() - i,
        {
            let line = make_want_line(want[i].as_str(), i == 0);
            proof {
                lemma_request_line(texts(have@), texts(want@), i as int);
                lemma_append_lines_step(bytes_mut_view(buf), lines, i as int);
            }
            match add_pkt_line_string(&mut buf, line) {
                Err(e) => {
                    return Err(ProtocolError::PktLine(e));
                },
                Ok(_) => {},
            }
            i = i + 1;
        }
        let mut j: usize = 0;
        while j < have.len()
            invariant
                j <= have.len(),
                lines == request_lines(texts(have@), texts(want@)),
                whole == spec_append_lines(Seq::empty(), lines),
                whole == spec_append_lines(bytes_mut_view(buf), lines.skip(want.len() + j)),
            decreases have.len() - j,
        {
            let line = make_have_line(have[j].as_str());
            proof {
                lemma_request_line(texts(have@), texts(want@), want.len() + j);
                lemma_append_lines_step(bytes_mut_view(buf), lines, want.len() + j);
            }
            match add_pkt_line_string(&mut buf, line) {
                Err(e) => {
                    return Err(ProtocolError::PktLine(e));
                },
                Ok(_) => {},
            }
            j = j + 1;
        }
        proof {
            assert(lines.len() == want.len() + have.len());
            assert(lines.skip(lines.len() as int) =~= Seq::<Seq<char>>::empty());
        }
        match add_flush(&mut buf) {
            Err(e) => {
                return Err(ProtocolError::PktLine(e));
            },
            Ok(_) => {},
        }
        match add_pkt_line_string(&mut buf, "done\n".to_owned()) {
            Err(e) => {
                return Err(ProtocolError::PktLine(e));
            },
            Ok(_) => {},
        }
        Ok(buf.freeze())
    }

    /// Whether the answer to a fetch request carries pack data: the status must
    /// be 200 or 304, and any other status is reported with its code.
    pub fn check_fetch_status(&self, status: u16) -> (r: Result<(), ProtocolError>)
        ensures
            r == if status_accepted(status) {
                Ok::<(), ProtocolError>(())
            } else {
                Err::<(), ProtocolError>(ProtocolError::Status(status))
            },
    {
        if status != 200 && status != 304 {
            Err(ProtocolError::Status(status))
        } else {
            Ok(())
        }
    }
}

} // verus!
