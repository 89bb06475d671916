//! The request head: request line, ordered headers and content length, and
//! the builder that assembles it from completed lines.
use vstd::prelude::*;
use vstd::string::StringSliceAdditionalSpecFns;
use vstd::utf8::*;

use crate::error::HeadError;
use crate::text::{
    copy_range, decimal, find, find_bytes, lower_of, lowercase, parse_decimal, same_bytes,
    same_text, utf8_text,
};

verus! {

/// The request methods that are recognized; any other token is refused.
#[allow(non_camel_case_types)]
#[derive(Debug, Clone, Copy, PartialEq, Eq, Structural)]
pub enum RequestMethod {
    CONNECT,
    DELETE,
    GET,
    HEAD,
    OPTIONS,
    POST,
    PUT,
    PATCH,
    TRACE,
}

/// The ASCII spelling of a method on the request line.
pub open spec fn method_name(m: RequestMethod) -> Seq<u8> {
    match m {
        RequestMethod::CONNECT => seq![67u8, 79, 78, 78, 69, 67, 84], // CONNECT
        RequestMethod::DELETE => seq![68u8, 69, 76, 69, 84, 69], // DELETE
        RequestMethod::GET => seq![71u8, 69, 84], // GET
        RequestMethod::HEAD => seq![72u8, 69, 65, 68], // HEAD
        RequestMethod::OPTIONS => seq![79u8, 80, 84, 73, 79, 78, 83], // OPTIONS
        RequestMethod::POST => seq![80u8, 79, 83, 84], // POST
        RequestMethod::PUT => seq![80u8, 85, 84], // PUT
        RequestMethod::PATCH => seq![80u8, 65, 84, 67, 72], // PATCH
        RequestMethod::TRACE => seq![84u8, 82, 65, 67, 69], // TRACE
    }
}

/// The method spelled by `s`, matched with case.
pub open spec fn method_of(s: Seq<u8>) -> Option<RequestMethod> {
    if s == method_name(RequestMethod::CONNECT) {
        Some(RequestMethod::CONNECT)
    } else if s == method_name(RequestMethod::DELETE) {
        Some(RequestMethod::DELETE)
    } else if s == method_name(RequestMethod::GET) {
        Some(RequestMethod::GET)
    } else if s == method_name(RequestMethod::HEAD) {
        Some(RequestMethod::HEAD)
    } else if s == method_name(RequestMethod::OPTIONS) {
        Some(RequestMethod::OPTIONS)
    } else if s == method_name(RequestMethod::POST) {
        Some(RequestMethod::POST)
    } else if s == method_name(RequestMethod::PUT) {
        Some(RequestMethod::PUT)
    } else if s == method_name(RequestMethod::PATCH) {
        Some(RequestMethod::PATCH)
    } else if s == method_name(RequestMethod::TRACE) {
        Some(RequestMethod::TRACE)
    } else {
        None
    }
}

impl RequestMethod {
    /// The method's spelling on the request line.
    pub fn name(&self) -> (r: Vec<u8>)
        ensures
            r@ == method_name(*self),
    {
        match self {
            RequestMethod::CONNECT => vec![67u8, 79, 78, 78, 69, 67, 84], // CONNECT
            RequestMethod::DELETE => vec![68u8, 69, 76, 69, 84, 69], // DELETE
            RequestMethod::GET => vec![71u8, 69, 84], // GET
            RequestMethod::HEAD => vec![72u8, 69, 65, 68], // HEAD
            RequestMethod::OPTIONS => vec![79u8, 80, 84, 73, 79, 78, 83], // OPTIONS
            RequestMethod::POST => vec![80u8, 79, 83, 84], // POST
            RequestMethod::PUT => vec![80u8, 85, 84], // PUT
            RequestMethod::PATCH => vec![80u8, 65, 84, 67, 72], // PATCH
            RequestMethod::TRACE => vec![84u8, 82, 65, 67, 69], // TRACE
        }
    }

    /// The method spelled by `b`, if any.
    pub fn from_bytes(b: &[u8]) -> (r: Option<RequestMethod>)
        ensures
            r == method_of(b@),
    {
        if same_bytes(b, RequestMethod::CONNECT.name().as_slice()) {
            Some(RequestMethod::CONNECT)
        } else if same_bytes(b, RequestMethod::DELETE.name().as_slice()) {
            Some(RequestMethod::DELETE)
        } else if same_bytes(b, RequestMethod::GET.name().as_slice()) {
            Some(RequestMethod::GET)
        } else if same_bytes(b, RequestMethod::HEAD.name().as_slice()) {
            Some(RequestMethod::HEAD)
        } else if same_bytes(b, RequestMethod::OPTIONS.name().as_slice()) {
            Some(RequestMethod::OPTIONS)
        } else if same_bytes(b, RequestMethod::POST.name().as_slice()) {
            Some(RequestMethod::POST)
        } else if same_bytes(b, RequestMethod::PUT.name().as_slice()) {
            Some(RequestMethod::PUT)
        } else if same_bytes(b, RequestMethod::PATCH.name().as_slice()) {
            Some(RequestMethod::PATCH)
        } else if same_bytes(b, RequestMethod::TRACE.name().as_slice()) {
            Some(RequestMethod::TRACE)
        } else {
            None
        }
    }

    /// Reads a method name; the match is case-sensitive.
    pub fn parse(input: &str) -> (r: Result<RequestMethod, HeadError>)
        ensures
            r == match method_of(input.spec_bytes()) {
                Some(m) => Ok::<RequestMethod, HeadError>(m),
                None => Err(HeadError::UnknownMethod),
            },
    {
        match RequestMethod::from_bytes(input.as_bytes()) {
            Some(m) => Ok(m),
            None => Err(HeadError::UnknownMethod),
        }
    }
}

/// The two protocol versions that are recognized.
#[derive(Debug, Clone, Copy, PartialEq, Eq, Structural)]
pub enum RequestVersion {
    /// `HTTP/1.1`
    RFC2616,
    /// `HTTP/1.0`
    RFC1945,
}

/// The spelling of a version on the request line.
pub open spec fn version_name(v: RequestVersion) -> Seq<u8> {
    match v {
        RequestVersion::RFC2616 => seq![72u8, 84, 84, 80, 47, 49, 46, 49], // HTTP/1.1
        RequestVersion::RFC1945 => seq![72u8, 84, 84, 80, 47, 49, 46, 48], // HTTP/1.0
    }
}

/// The version spelled by `s`, matched exactly.
pub open spec fn version_of(s: Seq<u8>) -> Option<RequestVersion> {
    if s == version_name(RequestVersion::RFC2616) {
        Some(RequestVersion::RFC2616)
    } else if s == version_name(RequestVersion::RFC1945) {
        Some(RequestVersion::RFC1945)
    } else {
        None
    }
}

impl RequestVersion {
    /// The version's spelling on the request line.
    pub fn name(&self) -> (r: Vec<u8>)
        ensures
            r@ == version_name(*self),
    {
        match self {
            RequestVersion::RFC2616 => vec![72u8, 84, 84, 80, 47, 49, 46, 49], // HTTP/1.1
            RequestVersion::RFC1945 => vec![72u8, 84, 84, 80, 47, 49, 46, 48], // HTTP/1.0
        }
    }

    /// The version spelled by `b`, if any.
    pub fn from_bytes(b: &[u8]) -> (r: Option<RequestVersion>)
        ensures
            r == version_of(b@),
    {
        if same_bytes(b, RequestVersion::RFC2616.name().as_slice()) {
            Some(RequestVersion::RFC2616)
        } else if same_bytes(b, RequestVersion::RFC1945.name().as_slice()) {
            Some(RequestVersion::RFC1945)
        } else {
            None
        }
    }

    /// Reads a version: exactly `HTTP/1.1` or `HTTP/1.0`.
    pub fn parse(input: &str) -> (r: Result<RequestVersion, HeadError>)
        ensures
            r == match version_of(input.spec_bytes()) {
                Some(v) => Ok::<RequestVersion, HeadError>(v),
                None => Err(HeadError::UnknownVersion),
            },
    {
        match RequestVersion::from_bytes(input.as_bytes()) {
            Some(v) => Ok(v),
            None => Err(HeadError::UnknownVersion),
        }
    }
}

/// A parsed request line, as values.
pub struct RequestLineModel {
    pub method: RequestMethod,
    pub path: Seq<u8>,
    pub version: RequestVersion,
}

/// A head, as values: the request line once the first line is in, the
/// headers in order of arrival, and the content length.
pub struct HeadModel {
    pub request: Option<RequestLineModel>,
    pub headers: Seq<(Seq<u8>, Seq<u8>)>,
    pub len: Option<usize>,
}

/// The space that separates the fields of the request line.
pub open spec fn space() -> Seq<u8> {
    seq![32u8]
}

/// The delimiter between a header's key and its value.
pub open spec fn colon_space() -> Seq<u8> {
    seq![58u8, 32u8]
}

/// The first line split on its first two spaces into method, path and
/// version; the method and the version must be known ones.
pub open spec fn request_line_of(s: Seq<u8>) -> Result<RequestLineModel, HeadError> {
    let i = find(s, space());
    let rest = s.subrange(i + 1, s.len() as int);
    let j = find(rest, space());
    if i < 0 || j < 0 {
        Err(HeadError::MalformedRequestLine)
    } else {
        match method_of(s.take(i)) {
            None => Err(HeadError::UnknownMethod),
            Some(m) => match version_of(rest.subrange(j + 1, rest.len() as int)) {
                None => Err(HeadError::UnknownVersion),
                Some(v) => Ok(RequestLineModel { method: m, path: rest.take(j), version: v }),
            },
        }
    }
}

/// A header line split on the first `": "` into key and value.
pub open spec fn header_of(s: Seq<u8>) -> Option<(Seq<u8>, Seq<u8>)> {
    let i = find(s, colon_space());
    if i < 0 {
        None
    } else {
        Some((s.take(i), s.subrange(i + 2, s.len() as int)))
    }
}

/// `content-length`, in lower case.
pub open spec fn content_length_name() -> Seq<u8> {
    seq![99u8, 111, 110, 116, 101, 110, 116, 45, 108, 101, 110, 103, 116, 104]  // content-length
}

/// A key that names the content length, in any case.
pub open spec fn is_content_length(key: Seq<u8>) -> bool {
    encode_utf8(lower_of(decode_utf8(key))) == content_length_name()
}

/// A header key, given as bytes, that matches `target` once both are in
/// lower case.
pub open spec fn same_key(key: Seq<u8>, target: Seq<char>) -> bool {
    lower_of(decode_utf8(key)) == lower_of(target)
}

/// A content length comes with a `Content-Length` header whose value reads
/// as that number.
pub open spec fn length_backed(h: HeadModel) -> bool {
    h.len matches Some(n) ==> exists|i: int|
        0 <= i < h.headers.len() && is_content_length(#[trigger] h.headers[i].0) && decimal(
            h.headers[i].1,
        ) == Some(n)
}

/// The head before any line.
pub open spec fn empty_head() -> HeadModel {
    HeadModel { request: None, headers: seq![], len: None }
}

/// Appends a header; a `Content-Length` header also sets the content length
/// (the last such header wins) and must carry an unsigned integer.
pub open spec fn add_header(h: HeadModel, key: Seq<u8>, value: Seq<u8>) -> Result<
    HeadModel,
    HeadError,
> {
    if is_content_length(key) {
        match decimal(value) {
            None => Err(HeadError::InvalidContentLength),
            Some(n) => Ok(HeadModel { len: Some(n), headers: h.headers.push((key, value)), ..h }),
        }
    } else {
        Ok(HeadModel { headers: h.headers.push((key, value)), ..h })
    }
}

/// One completed line taken into the head: the first is the request line,
/// every later one a header. A later line without the `": "` delimiter is
/// not a header and is left out.
pub open spec fn add_line(h: HeadModel, line: Seq<u8>) -> Result<HeadModel, HeadError> {
    match h.request {
        None => match request_line_of(line) {
            Ok(r) => Ok(HeadModel { request: Some(r), ..h }),
            Err(e) => Err(e),
        },
        Some(_) => match header_of(line) {
            None => Ok(h),
            Some(kv) => add_header(h, kv.0, kv.1),
        },
    }
}

/// The head built from a sequence of completed lines, stopping at the first
/// line that fails.
pub open spec fn build(lines: Seq<Seq<u8>>) -> Result<HeadModel, HeadError>
    decreases lines.len(),
{
    if lines.len() == 0 {
        Ok(empty_head())
    } else {
        match build(lines.drop_last()) {
            Ok(h) => add_line(h, lines.last()),
            Err(e) => Err(e),
        }
    }
}

/// The value of the first header whose key equals `target` once both are in
/// lower case.
pub open spec fn lookup(headers: Seq<(Seq<u8>, Seq<u8>)>, target: Seq<char>) -> Option<Seq<u8>>
    decreases headers.len(),
{
    if headers.len() == 0 {
        None
    } else if same_key(headers[0].0, target) {
        Some(headers[0].1)
    } else {
        lookup(headers.drop_first(), target)
    }
}

/// A parsed request line.
pub struct RequestLine {
    method: RequestMethod,
    path: Vec<u8>,
    version: RequestVersion,
}

impl View for RequestLine {
    type V = RequestLineModel;

    closed spec fn view(&self) -> RequestLineModel {
        RequestLineModel { method: self.method, path: self.path@, version: self.version }
    }
}

/// One header: key and value, as they came.
pub struct Header {
    key: Vec<u8>,
    value: Vec<u8>,
}

impl View for Header {
    type V = (Seq<u8>, Seq<u8>);

    closed spec fn view(&self) -> (Seq<u8>, Seq<u8>) {
        (self.key@, self.value@)
    }
}

/// The recognized head of a request.
pub struct Head {
    headers: Vec<Header>,
    req: Option<RequestLine>,
    len: Option<usize>,
}

impl View for Head {
    type V = HeadModel;

    closed spec fn view(&self) -> HeadModel {
        HeadModel {
            request: match self.req {
                Some(r) => Some(r@),
                None => None,
            },
            headers: self.headers@.map_values(|h: Header| h@),
            len: self.len,
        }
    }
}

impl Head {
    /// All text in the head is well-formed UTF-8, and a content length comes
    /// with the header that gave it.
    pub closed spec fn wf(&self) -> bool {
        &&& (self.req matches Some(r) ==> valid_utf8(r.path@))
        &&& forall|i: int|
            0 <= i < self.headers@.len() ==> valid_utf8(#[trigger] self.headers@[i].key@)
                && valid_utf8(self.headers@[i].value@)
        &&& length_backed(self@)
    }

    /// A content length is only ever there with a header that gave it.
    pub proof fn lemma_length_backed(&self)
        requires
            self.wf(),
        ensures
            length_backed(self@),
    {
    }

    /// The head before any line was taken in.
    pub fn empty() -> (r: Head)
        ensures
            r@ == empty_head(),
            r.wf(),
    {
        let r = Head { headers: Vec::new(), req: None, len: None };
        assert(r@.headers =~= empty_head().headers);
        r
    }

    /// The request path, as it came.
    pub fn path(&self) -> (r: Option<String>)
        requires
            self.wf(),
        ensures
            match self@.request {
                Some(l) => r matches Some(p) && p@ == decode_utf8(l.path),
                None => r is None,
            },
    {
        match &self.req {
            Some(l) => Some(utf8_text(l.path.as_slice())),
            None => None,
        }
    }

    /// The protocol version.
    pub fn version(&self) -> (r: Option<RequestVersion>)
        ensures
            r == match self@.request {
                Some(l) => Some(l.version),
                None => None,
            },
    {
        match &self.req {
            Some(l) => Some(l.version),
            None => None,
        }
    }

    /// The request method.
    pub fn method(&self) -> (r: Option<RequestMethod>)
        ensures
            r == match self@.request {
                Some(l) => Some(l.method),
                None => None,
            },
    {
        match &self.req {
            Some(l) => Some(l.method),
            None => None,
        }
    }

    /// The content length, when a `Content-Length` header gave one.
    pub fn len(&self) -> (r: Option<usize>)
        ensures
            r == self@.len,
    {
        self.len
    }

    /// Every header key in lower case, in order.
    fn lowered_keys(&self) -> (r: Vec<String>)
        requires
            self.wf(),
        ensures
            r@.len() == self@.headers.len(),
            forall|i: int|
                0 <= i < r@.len() ==> (#[trigger] r@[i])@ == lower_of(
                    decode_utf8(self@.headers[i].0),
                ),
    {
        let mut r: Vec<String> = Vec::new();
        let mut i: usize = 0;
        while i < self.headers.len()
            invariant
                self.wf(),
                i <= self.headers@.len(),
                r@.len() == i,
                forall|j: int|
                    0 <= j < i ==> (#[trigger] r@[j])@ == lower_of(
                        decode_utf8(self@.headers[j].0),
                    ),
            decreases self.headers@.len() - i,
        {
            assert(self@.headers[i as int].0 == self.headers@[i as int].key@);
            r.push(lowered_key(self.headers[i].key.as_slice()));
            i = i + 1;
        }
        r
    }

    /// The value of the first header whose key equals `target` once both are
    /// in lower case.
    pub fn find_header(&self, target: &str) -> (r: Option<String>)
        requires
            self.wf(),
        ensures
            match lookup(self@.headers, target@) {
                Some(v) => r matches Some(s) && s@ == decode_utf8(v),
                None => r is None,
            },
    {
        let t = lowercase(target);
        let keys = self.lowered_keys();
        match first_match(keys.as_slice(), &t) {
            Some(i) => {
                proof {
                    assert forall|j: int| 0 <= j < i implies !same_key(
                        #[trigger] self@.headers[j].0,
                        target@,
                    ) by {
                        assert(keys@[j]@ != t@);
                    }
                    lemma_lookup_first(self@.headers, target@, i as int);
                }
                assert(self@.headers[i as int].1 == self.headers@[i as int].value@);
                Some(utf8_text(self.headers[i].value.as_slice()))
            },
            None => {
                proof {
                    assert forall|j: int| 0 <= j < self@.headers.len() implies !same_key(
                        #[trigger] self@.headers[j].0,
                        target@,
                    ) by {
                        assert(keys@[j]@ != t@);
                    }
                    lemma_lookup_none(self@.headers, target@);
                }
                None
            },
        }
    }

    /// Takes one header in; a `Content-Length` value must be an unsigned integer.
    fn add_header(&mut self, key: Vec<u8>, value: Vec<u8>) -> (r: Result<(), HeadError>)
        requires
            old(self).wf(),
            valid_utf8(key@),
            valid_utf8(value@),
        ensures
            r is Ok ==> add_header(old(self)@, key@, value@) == Ok::<HeadModel, HeadError>(
                final(self)@,
            ) && final(self).wf(),
            r matches Err(e) ==> add_header(old(self)@, key@, value@) == Err::<HeadModel, HeadError>(
                e,
            ),
            r is Err ==> final(self)@ == old(self)@ && final(self).wf(),
    {
        let name = vec![99u8, 111, 110, 116, 101, 110, 116, 45, 108, 101, 110, 103, 116, 104];  // content-length
        let lowered = lowered_key(key.as_slice());
        let is_length = same_bytes(lowered.as_str().as_bytes(), name.as_slice());
        assert(name@ =~= content_length_name());
        if is_length {
            match parse_decimal(value.as_slice()) {
                Some(n) => {
                    self.len = Some(n);
                },
                None => {
                    return Err(HeadError::InvalidContentLength);
                },
            }
        }
        let ghost before = self@;
        self.headers.push(Header { key, value });
        assert(self@.headers =~= old(self)@.headers.push((key@, value@)));
        proof {
            let last = self@.headers.len() - 1;
            assert(self@.headers[last] == (key@, value@));
            if is_length {
                assert(is_content_length(self@.headers[last].0));
                assert(decimal(self@.headers[last].1) == self@.len);
            } else if let Some(n) = self@.len {
                assert(before.len == Some(n));
                let i = choose|i: int|
                    0 <= i < before.headers.len() && is_content_length(
                        #[trigger] before.headers[i].0,
                    ) && decimal(before.headers[i].1) == Some(n);
                assert(self@.headers[i] == before.headers[i]);
                assert(is_content_length(self@.headers[i].0));
            }
            assert(length_backed(self@));
        }
        Ok(())
    }
}

/// Assembles a head from completed lines, one at a time.
pub struct Builder {
    inner: Head,
}

impl View for Builder {
    type V = HeadModel;

    closed spec fn view(&self) -> HeadModel {
        self.inner@
    }
}

impl Builder {
    /// The head assembled so far is well-formed.
    pub closed spec fn wf(&self) -> bool {
        self.inner.wf()
    }

    /// A builder that has taken no line yet.
    pub fn new() -> (r: Builder)
        ensures
            r@ == empty_head(),
            r.wf(),
    {
        Builder { inner: Head::empty() }
    }

    /// The head assembled so far.
    pub fn collect<D>(self) -> (r: Head)
        requires
            self.wf(),
        ensures
            r@ == self@,
            r.wf(),
    {
        self.inner
    }

    /// `true` once the request line is in.
    pub fn has_request(&self) -> (r: bool)
        ensures
            r == self@.request is Some,
    {
        self.inner.req.is_some()
    }

    /// The number of headers taken in.
    pub fn len(&self) -> (r: usize)
        ensures
            r == self@.headers.len(),
    {
        self.inner.headers.len()
    }

    /// Takes in one completed line: the first as the request line, each later
    /// one as a header; a later line without `": "` is left out.
    pub fn insert(self, line: String) -> (r: Result<Builder, HeadError>)
        requires
            self.wf(),
        ensures
            match add_line(self@, encode_utf8(line@)) {
                Ok(h) => r matches Ok(b) && b@ == h && b.wf(),
                Err(e) => r matches Err(x) && x == e,
            },
    {
        let mut b = self;
        let bytes = line.as_str().as_bytes();
        proof {
            encode_utf8_valid_utf8(line@);
        }
        match b.take_line(bytes) {
            Ok(()) => Ok(b),
            Err(e) => Err(e),
        }
    }

    /// Takes in one completed line, given as well-formed UTF-8 bytes.
    pub fn take_line(&mut self, line: &[u8]) -> (r: Result<(), HeadError>)
        requires
            old(self).wf(),
            valid_utf8(line@),
        ensures
            r is Ok ==> add_line(old(self)@, line@) == Ok::<HeadModel, HeadError>(final(self)@)
                && final(self).wf(),
            r matches Err(e) ==> add_line(old(self)@, line@) == Err::<HeadModel, HeadError>(e),
            r is Err ==> final(self)@ == old(self)@ && final(self).wf(),
    {
        if self.inner.req.is_none() {
            match parse_request_line(line) {
                Ok(l) => {
                    self.inner.req = Some(l);
                    assert(self@.headers == old(self)@.headers);
                    assert(self@ == HeadModel { request: Some(l@), ..old(self)@ });
                    assert(add_line(old(self)@, line@) == Ok::<HeadModel, HeadError>(self@));
                    assert(self.wf());
                    Ok(())
                },
                Err(e) => Err(e),
            }
        } else {
            match parse_header_line(line) {
                None => Ok(()),
                Some((key, value)) => self.inner.add_header(key, value),
            }
        }
    }
}

/// Splits a header line, given as well-formed UTF-8 bytes, on its first
/// `": "` into key and value.
pub fn parse_header_line(line: &[u8]) -> (r: Option<(Vec<u8>, Vec<u8>)>)
    requires
        valid_utf8(line@),
    ensures
        match header_of(line@) {
            Some(kv) => r matches Some(x) && x.0@ == kv.0 && x.1@ == kv.1 && valid_utf8(kv.0)
                && valid_utf8(kv.1),
            None => r is None,
        },
{
    let delim = vec![58u8, 32u8];
    assert(delim@ =~= colon_space());
    let n = line.len();
    match find_bytes(line, delim.as_slice()) {
        None => None,
        Some(i) => {
            let key = copy_range(line, 0, i);
            let value = copy_range(line, i + 2, n);
            proof {
                split_utf8_at_ascii(line@, i as int, 2);
                assert(key@ =~= line@.take(i as int));
            }
            Some((key, value))
        },
    }
}

/// Pieces cut out of well-formed UTF-8 around an ASCII delimiter stay well-formed.
proof fn split_utf8_at_ascii(s: Seq<u8>, i: int, n: int)
    requires
        valid_utf8(s),
        0 <= i,
        1 <= n,
        i + n <= s.len(),
        forall|k: int| i <= k < i + n ==> is_leading_byte_width_1(#[trigger] s[k]),
    ensures
        valid_utf8(s.take(i)),
        valid_utf8(s.subrange(i + n, s.len() as int)),
{
    assert(is_leading_byte_width_1(s[i]));
    is_char_boundary_iff_is_leading_byte(s, i);
    valid_utf8_split(s, i);
    assert(s.subrange(0, i) =~= s.take(i));
    let m = i + n - 1;
    assert(is_leading_byte_width_1(s[m]));
    is_char_boundary_iff_is_leading_byte(s, m);
    valid_utf8_split(s, m);
    let t = s.subrange(m, s.len() as int);
    assert(t[0] == s[m]);
    assert(valid_utf8(pop_first_scalar(t)));
    assert(pop_first_scalar(t) =~= s.subrange(i + n, s.len() as int));
}

/// Parses a request line given as well-formed UTF-8 bytes.
pub fn parse_request_line(s: &[u8]) -> (r: Result<RequestLine, HeadError>)
    requires
        valid_utf8(s@),
    ensures
        match request_line_of(s@) {
            Ok(l) => r matches Ok(x) && x@ == l && valid_utf8(l.path),
            Err(e) => r matches Err(x) && x == e,
        },
{
    let sp = vec![32u8];
    assert(sp@ =~= space());
    let i = match find_bytes(s, sp.as_slice()) {
        Some(i) => i,
        None => {
            return Err(HeadError::MalformedRequestLine);
        },
    };
    let n = s.len();
    let rest = copy_range(s, i + 1, n);
    let j = match find_bytes(rest.as_slice(), sp.as_slice()) {
        Some(j) => j,
        None => {
            return Err(HeadError::MalformedRequestLine);
        },
    };
    let first = copy_range(s, 0, i);
    let method = match RequestMethod::from_bytes(first.as_slice()) {
        Some(m) => m,
        None => {
            return Err(HeadError::UnknownMethod);
        },
    };
    let tail = copy_range(rest.as_slice(), j + 1, rest.len());
    let version = match RequestVersion::from_bytes(tail.as_slice()) {
        Some(v) => v,
        None => {
            return Err(HeadError::UnknownVersion);
        },
    };
    let path = copy_range(rest.as_slice(), 0, j);
    proof {
        split_utf8_at_ascii(s@, i as int, 1);
        split_utf8_at_ascii(rest@, j as int, 1);
        assert(first@ =~= s@.take(i as int));
        assert(path@ =~= rest@.take(j as int));
    }
    Ok(RequestLine { method, path, version })
}

/// Returns `key` in lower case when it equals `attempt` once both are in
/// lower case.
pub fn take_equal(key: &str, attempt: &str) -> (r: Option<String>)
    ensures
        lower_of(key@) == lower_of(attempt@) ==> (r matches Some(s) && s@ == lower_of(key@)),
        lower_of(key@) != lower_of(attempt@) ==> r is None,
{
    let lower_key = lowercase(key);
    let lower_attempt = lowercase(attempt);
    if same_text(lower_key.as_str(), lower_attempt.as_str()) {
        Some(lower_key)
    } else {
        None
    }
}

/// A header key, given as well-formed UTF-8 bytes, in lower case.
fn lowered_key(key: &[u8]) -> (r: String)
    requires
        valid_utf8(key@),
    ensures
        r@ == lower_of(decode_utf8(key@)),
{
    let text = utf8_text(key);
    lowercase(text.as_str())
}

/// The first of `keys` equal to `target`.
pub fn first_match(keys: &[String], target: &String) -> (r: Option<usize>)
    ensures
        match r {
            Some(i) => i < keys@.len() && keys@[i as int]@ == target@ && forall|j: int|
                0 <= j < i ==> (#[trigger] keys@[j])@ != target@,
            None => forall|j: int| 0 <= j < keys@.len() ==> (#[trigger] keys@[j])@ != target@,
        },
{
    let mut i: usize = 0;
    while i < keys.len()
        invariant
            i <= keys@.len(),
            forall|j: int| 0 <= j < i ==> (#[trigger] keys@[j])@ != target@,
        decreases keys@.len() - i,
    {
        if same_text(keys[i].as_str(), target.as_str()) {
            return Some(i);
        }
        i = i + 1;
    }
    None
}

/// Lookup gives the value of the first header whose key matches.
proof fn lemma_lookup_first(headers: Seq<(Seq<u8>, Seq<u8>)>, target: Seq<char>, i: int)
    requires
        0 <= i < headers.len(),
        same_key(headers[i].0, target),
        forall|j: int| 0 <= j < i ==> !same_key(#[trigger] headers[j].0, target),
    ensures
        lookup(headers, target) == Some(headers[i].1),
    decreases i,
{
    if i > 0 {
        assert(!same_key(headers[0].0, target));
        let rest = headers.drop_first();
        assert forall|j: int| 0 <= j < i - 1 implies !same_key(#[trigger] rest[j].0, target) by {
            assert(rest[j] == headers[j + 1]);
        }
        lemma_lookup_first(rest, target, i - 1);
    }
}

/// Lookup finds nothing where no key matches.
proof fn lemma_lookup_none(headers: Seq<(Seq<u8>, Seq<u8>)>, target: Seq<char>)
    requires
        forall|j: int| 0 <= j < headers.len() ==> !same_key(#[trigger] headers[j].0, target),
    ensures
        lookup(headers, target) is None,
    decreases headers.len(),
{
    if headers.len() > 0 {
        assert(!same_key(headers[0].0, target));
        let rest = headers.drop_first();
        assert forall|j: int| 0 <= j < rest.len() implies !same_key(#[trigger] rest[j].0, target) by {
            assert(rest[j] == headers[j + 1]);
        }
        lemma_lookup_none(rest, target);
    }
}

/// Keys asked for that are equal once in lower case find the same header value.
pub proof fn lemma_lookup_ignores_case(
    headers: Seq<(Seq<u8>, Seq<u8>)>,
    target: Seq<char>,
    other: Seq<char>,
)
    requires
        lower_of(target) == lower_of(other),
    ensures
        lookup(headers, target) == lookup(headers, other),
    decreases headers.len(),
{
    if headers.len() > 0 {
        lemma_lookup_ignores_case(headers.drop_first(), target, other);
    }
}

/// A header line that the builder takes without error: it has the `": "`
/// delimiter, and a `Content-Length` key carries an unsigned integer.
pub open spec fn sound_header_line(line: Seq<u8>) -> bool {
    match header_of(line) {
        Some(kv) => is_content_length(kv.0) ==> decimal(kv.1) is Some,
        None => false,
    }
}

/// The key and value of each of `lines`, in order.
pub open spec fn header_pairs(lines: Seq<Seq<u8>>) -> Seq<(Seq<u8>, Seq<u8>)> {
    lines.map_values(|l: Seq<u8>| header_of(l)->Some_0)
}

/// Headers, however many and in whatever order, leave the request line as
/// the first line gave it, and are kept as they came, in order; a lookup then
/// gives the value of the first one whose key matches.
pub proof fn lemma_headers_inert(request: Seq<u8>, lines: Seq<Seq<u8>>)
    requires
        request_line_of(request) is Ok,
        forall|i: int| 0 <= i < lines.len() ==> sound_header_line(#[trigger] lines[i]),
    ensures
        build(seq![request] + lines) matches Ok(h) && h.request == Some(
            request_line_of(request)->Ok_0,
        ) && h.headers == header_pairs(lines),
    decreases lines.len(),
{
    let all = seq![request] + lines;
    if lines.len() == 0 {
        assert(all =~= seq![request]);
        assert(all.drop_last() =~= Seq::<Seq<u8>>::empty());
        assert(build(all.drop_last()) == Ok::<HeadModel, HeadError>(empty_head()));
        assert(header_pairs(lines) =~= Seq::<(Seq<u8>, Seq<u8>)>::empty());
        assert(empty_head().headers =~= header_pairs(lines));
    } else {
        assert(all.drop_last() =~= seq![request] + lines.drop_last());
        assert(all.last() == lines.last());
        lemma_headers_inert(request, lines.drop_last());
        assert(sound_header_line(lines[lines.len() - 1]));
        let prev = build(all.drop_last())->Ok_0;
        let kv = header_of(lines.last())->Some_0;
        assert(add_line(prev, lines.last()) == add_header(prev, kv.0, kv.1));
        assert(add_header(prev, kv.0, kv.1) matches Ok(h) && h.request == prev.request
            && h.headers == prev.headers.push(kv));
        assert(header_pairs(lines) =~= header_pairs(lines.drop_last()).push(
            header_of(lines.last())->Some_0,
        ));
    }
}

} // verus!
