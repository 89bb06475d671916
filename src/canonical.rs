//! Heads written out as lines, and what the scanner makes of them: any head
//! written as lines ended by CR LF and then the blank line is recognized as
//! the head the builder makes of those lines, with the bytes after it left
//! alone, and every recognized head was written so; in particular a request
//! in canonical form, `METHOD PATH HTTP/1.1`,
//! one header and the blank line, comes back with exactly the method, path
//! and header value that were written.
use vstd::prelude::*;
use vstd::utf8::*;

use crate::error::HeadError;
use crate::head::{
    add_line, build, colon_space, header_of, header_pairs, is_content_length,
    lemma_headers_inert, lookup, method_name, method_of, request_line_of, sound_header_line, space,
    version_name, version_of, HeadModel, RequestLineModel, RequestMethod, RequestVersion,
};
use crate::scan::{lemma_run_append, lemma_scan_settles, run, scan, start, step, ScanModel, CR, LF};
use crate::text::{decimal, find, lemma_find_first, lemma_find_sound, occurs_at};
use crate::utf8::{
    lemma_extend_by_scalar, lemma_whole_scalar_shape, scalar_step, truncated_scalar,
    whole_scalar, ScalarStep,
};

verus! {

/// A byte that is neither of the two line-break bytes.
pub open spec fn no_break(b: u8) -> bool {
    b != CR && b != LF
}

/// Text that may stand inside one line: well-formed UTF-8 without line breaks.
pub open spec fn line_text(t: Seq<u8>) -> bool {
    valid_utf8(t) && forall|i: int| 0 <= i < t.len() ==> no_break(#[trigger] t[i])
}

/// `t` holds no byte `b`.
pub open spec fn lacks(t: Seq<u8>, b: u8) -> bool {
    forall|i: int| 0 <= i < t.len() ==> #[trigger] t[i] != b
}

/// Carriage return and line feed.
pub open spec fn crlf() -> Seq<u8> {
    seq![CR, LF]
}

/// `METHOD SP PATH SP HTTP/1.1`.
pub open spec fn canonical_request_line(m: RequestMethod, path: Seq<u8>) -> Seq<u8> {
    method_name(m) + space() + path + space() + version_name(RequestVersion::RFC2616)
}

/// `METHOD SP PATH SP HTTP/1.1 CRLF KEY ": " VALUE CRLF CRLF`.
pub open spec fn canonical_request(
    m: RequestMethod,
    path: Seq<u8>,
    key: Seq<u8>,
    value: Seq<u8>,
) -> Seq<u8> {
    canonical_request_line(m, path) + crlf() + (key + colon_space() + value) + crlf() + crlf()
}

/// `s` with `t` added to its line, `t` consumed.
spec fn extended(s: ScanModel, t: Seq<u8>) -> ScanModel {
    ScanModel { line: s.line + t, count: s.count + t.len(), ..s }
}

/// `s` holding `d` as the start of a code point, `d` consumed.
spec fn holding(s: ScanModel, d: Seq<u8>) -> ScanModel {
    ScanModel { pending: d, count: s.count + d.len(), ..s }
}

/// `s` after its line went to the builder, the line break consumed.
spec fn line_taken(s: ScanModel) -> ScanModel {
    ScanModel { head: add_line(s.head, s.line)->Ok_0, line: seq![], count: s.count + 2, ..s }
}

/// A scanning state between code points and not after a carriage return.
spec fn at_rest(s: ScanModel) -> bool {
    s.status is Scanning && !s.cr && s.pending.len() == 0
}

/// The first bytes of a code point, short of its last, are held back.
proof fn lemma_run_scalar_start(s: ScanModel, c: Seq<u8>, j: int, limit: nat)
    requires
        at_rest(s),
        whole_scalar(c),
        no_break(c[0]),
        s.count + c.len() <= limit,
        0 <= j < c.len(),
    ensures
        run(s, c.take(j), limit) == holding(s, c.take(j)),
    decreases j,
{
    lemma_whole_scalar_shape(c);
    if j == 0 {
        assert(c.take(0) =~= Seq::<u8>::empty());
        assert(s.pending =~= c.take(0));
    } else {
        lemma_run_scalar_start(s, c, j - 1, limit);
        let d = c.take(j);
        assert(d.drop_last() =~= c.take(j - 1));
        assert(c.take(j - 1).push(c[j - 1]) =~= d);
        assert(!whole_scalar(d));
        assert(truncated_scalar(d));
        assert(scalar_step(d) == ScalarStep::Partial);
        if j > 1 {
            assert(is_continuation_byte(c[j - 1]));
        }
    }
}

/// The bytes of one code point, consumed at rest, extend the line.
proof fn lemma_run_scalar(s: ScanModel, c: Seq<u8>, limit: nat)
    requires
        at_rest(s),
        whole_scalar(c),
        no_break(c[0]),
        s.count + c.len() <= limit,
    ensures
        run(s, c, limit) == extended(s, c),
{
    lemma_whole_scalar_shape(c);
    let w = c.len() as int;
    lemma_run_scalar_start(s, c, w - 1, limit);
    assert(c.drop_last() =~= c.take(w - 1));
    assert(c.take(w - 1).push(c[w - 1]) =~= c);
    if w > 1 {
        assert(is_continuation_byte(c[w - 1]));
    }
    assert(scalar_step(c) == ScalarStep::Complete);
    assert(s.pending =~= Seq::<u8>::empty());
    let h = holding(s, c.take(w - 1));
    assert(run(s, c, limit) == step(h, c[w - 1], limit));
}

/// The first scalar of well-formed text, taken on its own, is one whole scalar.
proof fn lemma_first_scalar_whole(t: Seq<u8>)
    requires
        valid_utf8(t),
        t.len() > 0,
    ensures
        whole_scalar(t.take(length_of_first_scalar(t))),
        valid_utf8(t.skip(length_of_first_scalar(t))),
{
    let n = length_of_first_scalar(t);
    let c = t.take(n);
    assert(forall|i: int| 0 <= i < n ==> c[i] == #[trigger] t[i]);
    assert(pop_first_scalar(t) =~= t.skip(n));
}

/// Text without line breaks, consumed at rest, extends the line.
proof fn lemma_run_text(s: ScanModel, t: Seq<u8>, limit: nat)
    requires
        at_rest(s),
        line_text(t),
        s.count + t.len() <= limit,
    ensures
        run(s, t, limit) == extended(s, t),
    decreases t.len(),
{
    if t.len() == 0 {
        assert(s.line + t =~= s.line);
    } else {
        lemma_first_scalar_whole(t);
        let n = length_of_first_scalar(t);
        let c = t.take(n);
        let rest = t.skip(n);
        assert(c + rest =~= t);
        assert(no_break(t[0]));
        lemma_run_scalar(s, c, limit);
        lemma_run_append(s, c, rest, limit);
        let s1 = run(s, c, limit);
        assert(forall|i: int| 0 <= i < rest.len() ==> rest[i] == #[trigger] t[i + n]);
        lemma_run_text(s1, rest, limit);
        assert(s.line + c + rest =~= s.line + t);
    }
}

/// A line break after a line that is not the blank one hands the line to the
/// builder.
proof fn lemma_run_line_end(s: ScanModel, limit: nat)
    requires
        at_rest(s),
        !(s.line.len() == 0 && s.head.request is Some),
        add_line(s.head, s.line) is Ok,
        s.count + 2 <= limit,
    ensures
        run(s, crlf(), limit) == line_taken(s),
{
    assert(crlf().drop_last() =~= seq![CR]);
    assert(seq![CR].drop_last() =~= Seq::<u8>::empty());
    assert(run(s, Seq::<u8>::empty(), limit) == s);
    let t = step(s, CR, limit);
    assert(run(s, seq![CR], limit) == t);
    assert(run(s, crlf(), limit) == step(t, LF, limit));
}

/// The blank line after the request line completes the head.
proof fn lemma_run_blank(s: ScanModel, limit: nat)
    requires
        at_rest(s),
        s.line.len() == 0,
        s.head.request is Some,
        s.count + 2 <= limit,
    ensures
        run(s, crlf(), limit).status is Done,
        run(s, crlf(), limit).head == s.head,
        run(s, crlf(), limit).count == s.count + 2,
{
    assert(crlf().drop_last() =~= seq![CR]);
    assert(seq![CR].drop_last() =~= Seq::<u8>::empty());
    assert(run(s, Seq::<u8>::empty(), limit) == s);
    let t = step(s, CR, limit);
    assert(run(s, seq![CR], limit) == t);
    assert(run(s, crlf(), limit) == step(t, LF, limit));
}

/// Bytes below 0x80 are well-formed UTF-8.
proof fn lemma_ascii_utf8(t: Seq<u8>)
    requires
        forall|i: int| 0 <= i < t.len() ==> #[trigger] t[i] < 0x80,
    ensures
        valid_utf8(t),
{
    assert(valid_utf8(t.subrange(0, 0)));
    assert(forall|i: int| 0 <= i < t.len() ==> is_leading_byte_width_1(#[trigger] t[i]));
    partial_valid_utf8_extend_ascii_block(t, 0, t.len() as int);
    assert(t.subrange(0, t.len() as int) =~= t);
}

/// Method and version names are printable ASCII without spaces.
proof fn lemma_names_visible(m: RequestMethod)
    ensures
        forall|i: int|
            0 <= i < method_name(m).len() ==> 33 <= #[trigger] method_name(m)[i] <= 126,
        forall|i: int|
            0 <= i < version_name(RequestVersion::RFC2616).len() ==> 33 <= #[trigger] version_name(
                RequestVersion::RFC2616,
            )[i] <= 126,
        method_of(method_name(m)) == Some(m),
        version_of(version_name(RequestVersion::RFC2616)) == Some(RequestVersion::RFC2616),
{
    let v = version_name(RequestVersion::RFC2616);
    assert(v =~= seq![72u8, 84, 84, 80, 47, 49, 46, 49]);
    assert(v != version_name(RequestVersion::RFC1945)) by {
        assert(v[7] != version_name(RequestVersion::RFC1945)[7]);
    }
    assert(method_name(RequestMethod::GET) != method_name(RequestMethod::PUT)) by {
        assert(method_name(RequestMethod::GET)[0] != method_name(RequestMethod::PUT)[0]);
    }
    assert(method_name(RequestMethod::HEAD) != method_name(RequestMethod::POST)) by {
        assert(method_name(RequestMethod::HEAD)[0] != method_name(RequestMethod::POST)[0]);
    }
    assert(method_name(RequestMethod::PATCH) != method_name(RequestMethod::TRACE)) by {
        assert(method_name(RequestMethod::PATCH)[0] != method_name(RequestMethod::TRACE)[0]);
    }
    assert(method_name(RequestMethod::CONNECT) != method_name(RequestMethod::OPTIONS)) by {
        assert(method_name(RequestMethod::CONNECT)[0] != method_name(RequestMethod::OPTIONS)[0]);
    }
}

/// The request line that the canonical form writes parses back to what was
/// written.
proof fn lemma_parse_canonical_line(m: RequestMethod, path: Seq<u8>)
    requires
        lacks(path, 32),
    ensures
        request_line_of(canonical_request_line(m, path)) == Ok::<RequestLineModel, HeadError>(
            RequestLineModel { method: m, path, version: RequestVersion::RFC2616 },
        ),
{
    lemma_names_visible(m);
    let mb = method_name(m);
    let v = version_name(RequestVersion::RFC2616);
    let s = canonical_request_line(m, path);
    let i = mb.len() as int;
    assert(s.subrange(i, i + 1) =~= space());
    assert forall|k: int| 0 <= k < i implies !occurs_at(s, space(), k) by {
        assert(s.subrange(k, k + 1)[0] == mb[k]);
    }
    lemma_find_first(s, space(), 0, i);
    let rest = s.subrange(i + 1, s.len() as int);
    assert(rest =~= path + space() + v);
    let j = path.len() as int;
    assert(rest.subrange(j, j + 1) =~= space());
    assert forall|k: int| 0 <= k < j implies !occurs_at(rest, space(), k) by {
        assert(rest.subrange(k, k + 1)[0] == path[k]);
    }
    lemma_find_first(rest, space(), 0, j);
    assert(s.take(i) =~= mb);
    assert(rest.take(j) =~= path);
    assert(rest.subrange(j + 1, rest.len() as int) =~= v);
}

/// A header line `KEY ": " VALUE` whose key holds no `": "` splits back into
/// that key and value.
proof fn lemma_parse_header(key: Seq<u8>, value: Seq<u8>)
    requires
        find(key, colon_space()) == -1,
    ensures
        header_of(key + colon_space() + value) == Some((key, value)),
{
    let s = key + colon_space() + value;
    let i = key.len() as int;
    assert(s.subrange(i, i + 2) =~= colon_space());
    lemma_find_sound(key, colon_space(), 0);
    assert forall|k: int| 0 <= k < i implies !occurs_at(s, colon_space(), k) by {
        if k + 2 <= i {
            assert(s.subrange(k, k + 2) =~= key.subrange(k, k + 2));
            assert(!occurs_at(key, colon_space(), k));
        } else {
            assert(s.subrange(k, k + 2)[1] == 58);
            assert(colon_space()[1] == 32);
        }
    }
    lemma_find_first(s, colon_space(), 0, i);
    assert(s.take(i) =~= key);
    assert(s.subrange(i + 2, s.len() as int) =~= value);
}

/// Any request written in canonical form is recognized, and the method, the
/// path and the value found under the key are exactly those written.
pub proof fn lemma_canonical_round_trip(
    m: RequestMethod,
    path: Seq<u8>,
    key: Seq<u8>,
    value: Seq<u8>,
    limit: nat,
)
    requires
        line_text(path),
        lacks(path, 32),
        line_text(key),
        find(key, colon_space()) == -1,
        line_text(value),
        is_content_length(key) ==> decimal(value) is Some,
        canonical_request(m, path, key, value).len() <= limit,
    ensures
        ({
            let s = scan(canonical_request(m, path, key, value), limit);
            &&& s.status is Done
            &&& s.head.request == Some(
                RequestLineModel { method: m, path, version: RequestVersion::RFC2616 },
            )
            &&& lookup(s.head.headers, decode_utf8(key)) == Some(value)
        }),
{
    lemma_names_visible(m);
    let rl = canonical_request_line(m, path);
    let hl = key + colon_space() + value;
    let mb = method_name(m);
    let v = version_name(RequestVersion::RFC2616);
    lemma_ascii_utf8(mb);
    lemma_ascii_utf8(space());
    lemma_ascii_utf8(v);
    lemma_ascii_utf8(colon_space());
    valid_utf8_concat(mb, space());
    valid_utf8_concat(mb + space(), path);
    valid_utf8_concat(mb + space() + path, space());
    valid_utf8_concat(mb + space() + path + space(), v);
    assert forall|i: int| 0 <= i < rl.len() implies no_break(#[trigger] rl[i]) by {
        if i < mb.len() {
            assert(rl[i] == mb[i]);
        } else if i < mb.len() + 1 + path.len() && i > mb.len() {
            assert(rl[i] == path[i - mb.len() - 1]);
        } else if i >= mb.len() + 2 + path.len() {
            assert(rl[i] == v[i - mb.len() - 2 - path.len()]);
        }
    }
    valid_utf8_concat(key, colon_space());
    valid_utf8_concat(key + colon_space(), value);
    assert forall|i: int| 0 <= i < hl.len() implies no_break(#[trigger] hl[i]) by {
        if i < key.len() {
            assert(hl[i] == key[i]);
        } else if i >= key.len() + 2 {
            assert(hl[i] == value[i - key.len() - 2]);
        }
    }
    let input = canonical_request(m, path, key, value);
    let s0 = start();
    lemma_run_text(s0, rl, limit);
    let s1 = run(s0, rl, limit);
    assert(s0.line + rl =~= rl);
    lemma_parse_canonical_line(m, path);
    lemma_run_line_end(s1, limit);
    let s2 = run(s1, crlf(), limit);
    lemma_run_text(s2, hl, limit);
    let s3 = run(s2, hl, limit);
    assert(seq![] + hl =~= hl);
    lemma_parse_header(key, value);
    lemma_run_line_end(s3, limit);
    let s4 = run(s3, crlf(), limit);
    lemma_run_blank(s4, limit);
    lemma_run_append(s0, rl, crlf(), limit);
    lemma_run_append(s0, rl + crlf(), hl, limit);
    lemma_run_append(s0, rl + crlf() + hl, crlf(), limit);
    lemma_run_append(s0, rl + crlf() + hl + crlf(), crlf(), limit);
    assert(s4.head.headers =~= seq![(key, value)]);
}

/// The bytes of `lines`, each followed by CR LF.
pub open spec fn joined(lines: Seq<Seq<u8>>) -> Seq<u8>
    decreases lines.len(),
{
    if lines.len() == 0 {
        seq![]
    } else {
        joined(lines.drop_last()) + lines.last() + crlf()
    }
}

/// Lines as a head is written: none empty, none with a line break, all
/// well-formed UTF-8.
pub open spec fn written_lines(lines: Seq<Seq<u8>>) -> bool {
    forall|i: int| 0 <= i < lines.len() ==> line_text(#[trigger] lines[i]) && lines[i].len() > 0
}

proof fn lemma_build_has_request(lines: Seq<Seq<u8>>)
    requires
        lines.len() >= 1,
        build(lines) is Ok,
    ensures
        build(lines)->Ok_0.request is Some,
{
}

proof fn lemma_joined_grows(lines: Seq<Seq<u8>>)
    requires
        lines.len() >= 1,
    ensures
        joined(lines.drop_last()).len() < joined(lines).len(),
{
}

/// Lines that the builder takes without error, consumed from the start,
/// leave the scanner at rest with their head built and no line begun.
proof fn lemma_run_lines(lines: Seq<Seq<u8>>, limit: nat)
    requires
        written_lines(lines),
        build(lines) is Ok,
        joined(lines).len() <= limit,
    ensures
        ({
            let s = scan(joined(lines), limit);
            &&& at_rest(s)
            &&& s.line.len() == 0
            &&& s.head == build(lines)->Ok_0
            &&& s.count == joined(lines).len()
        }),
    decreases lines.len(),
{
    if lines.len() == 0 {
        assert(joined(lines) =~= Seq::<u8>::empty());
        assert(run(start(), Seq::<u8>::empty(), limit) == start());
    } else {
        let prev = lines.drop_last();
        let last = lines.last();
        assert(written_lines(prev)) by {
            assert forall|i: int| 0 <= i < prev.len() implies line_text(#[trigger] prev[i])
                && prev[i].len() > 0 by {
                assert(prev[i] == lines[i]);
            }
        }
        assert(line_text(lines[lines.len() - 1]));
        lemma_joined_grows(lines);
        lemma_run_lines(prev, limit);
        let s1 = scan(joined(prev), limit);
        lemma_run_text(s1, last, limit);
        let s2 = run(s1, last, limit);
        assert(s2.line =~= last);
        lemma_run_line_end(s2, limit);
        lemma_run_append(start(), joined(prev), last, limit);
        lemma_run_append(start(), joined(prev) + last, crlf(), limit);
    }
}

/// A head written as lines, each ended by CR LF, and then the blank line, is
/// recognized as the head that the builder makes of those lines, right after
/// the blank line, whatever bytes follow it.
pub proof fn lemma_recognizes_written_head(lines: Seq<Seq<u8>>, rest: Seq<u8>, limit: nat)
    requires
        lines.len() >= 1,
        written_lines(lines),
        build(lines) is Ok,
        joined(lines).len() + 2 <= limit,
    ensures
        ({
            let s = scan(joined(lines) + crlf() + rest, limit);
            &&& s.status is Done
            &&& s.head == build(lines)->Ok_0
            &&& s.count == joined(lines).len() + 2
        }),
{
    lemma_run_lines(lines, limit);
    lemma_build_has_request(lines);
    let s = scan(joined(lines), limit);
    lemma_run_blank(s, limit);
    lemma_run_append(start(), joined(lines), crlf(), limit);
    let head = joined(lines) + crlf();
    let input = head + rest;
    assert(input.take(head.len() as int) =~= head);
    lemma_scan_settles(input, head.len() as int, limit);
}

/// A request line followed by any number of header lines, in any order, is
/// recognized with the request line that the first line gives and with the
/// headers as they came, in order; lookups then give the value of the first
/// header whose key matches.
pub proof fn lemma_recognized_headers_inert(
    request: Seq<u8>,
    headers: Seq<Seq<u8>>,
    rest: Seq<u8>,
    limit: nat,
)
    requires
        written_lines(seq![request] + headers),
        request_line_of(request) is Ok,
        forall|i: int| 0 <= i < headers.len() ==> sound_header_line(#[trigger] headers[i]),
        joined(seq![request] + headers).len() + 2 <= limit,
    ensures
        ({
            let s = scan(joined(seq![request] + headers) + crlf() + rest, limit);
            &&& s.status is Done
            &&& s.head.request == Some(request_line_of(request)->Ok_0)
            &&& s.head.headers == header_pairs(headers)
        }),
{
    lemma_headers_inert(request, headers);
    lemma_recognizes_written_head(seq![request] + headers, rest, limit);
}

/// The bytes behind a scanning state: the lines it completed, its line, its
/// incomplete code point and a carriage return if one is pending.
spec fn behind(lines: Seq<Seq<u8>>, s: ScanModel) -> Seq<u8> {
    joined(lines) + s.line + s.pending + if s.cr {
        seq![CR]
    } else {
        seq![]
    }
}

/// `lines` are the lines completed on the way to the scanning state `s` after `bytes`.
spec fn traced(bytes: Seq<u8>, lines: Seq<Seq<u8>>, s: ScanModel) -> bool {
    &&& written_lines(lines)
    &&& build(lines) == Ok::<HeadModel, HeadError>(s.head)
    &&& (s.head.request is Some <==> lines.len() >= 1)
    &&& bytes == behind(lines, s)
}

/// What a state after `bytes` says of them.
spec fn accounted(bytes: Seq<u8>, s: ScanModel) -> bool {
    &&& s.status is Scanning ==> scanning_accounted(bytes, s)
    &&& s.status is Done ==> exists|lines: Seq<Seq<u8>>|
        #![trigger written_lines(lines)]
        done_from(bytes, lines, s)
}

spec fn scanning_accounted(bytes: Seq<u8>, s: ScanModel) -> bool {
    &&& s.count == bytes.len()
    &&& line_text(s.line)
    &&& forall|i: int| 0 <= i < s.pending.len() ==> no_break(#[trigger] s.pending[i])
    &&& s.cr ==> s.pending.len() == 0
    &&& exists|lines: Seq<Seq<u8>>| traced(bytes, lines, s)
}

spec fn done_from(bytes: Seq<u8>, lines: Seq<Seq<u8>>, s: ScanModel) -> bool {
    &&& lines.len() >= 1
    &&& written_lines(lines)
    &&& build(lines) == Ok::<HeadModel, HeadError>(s.head)
    &&& s.count <= bytes.len()
    &&& bytes.take(s.count as int) == joined(lines) + crlf()
}

/// A line break after a carriage return, from an accounted state.
proof fn lemma_accounted_line_feed(
    p: Seq<u8>,
    lines: Seq<Seq<u8>>,
    s: ScanModel,
    limit: nat,
)
    requires
        s.status is Scanning,
        s.count < limit,
        s.cr,
        scanning_accounted(p, s),
        traced(p, lines, s),
    ensures
        accounted(p.push(LF), step(s, LF, limit)),
{
    let bytes = p.push(LF);
    let t = step(s, LF, limit);
    assert(s.pending =~= Seq::<u8>::empty());
    if s.line.len() == 0 && s.head.request is Some {
        assert(p =~= joined(lines) + seq![CR]);
        assert(bytes =~= joined(lines) + crlf());
        assert(bytes.take(t.count as int) =~= bytes);
        assert(done_from(bytes, lines, t));
        assert(written_lines(lines));
    } else if add_line(s.head, s.line) is Ok {
        let more = lines.push(s.line);
        assert(more.drop_last() =~= lines);
        if s.line.len() == 0 {
            assert(s.head.request is None);
            assert(find(s.line, space()) == -1);
        }
        assert(written_lines(more)) by {
            assert forall|i: int| 0 <= i < more.len() implies line_text(#[trigger] more[i])
                && more[i].len() > 0 by {
                if i < lines.len() {
                    assert(more[i] == lines[i]);
                }
            }
        }
        assert(t.line =~= Seq::<u8>::empty());
        assert(t.pending =~= Seq::<u8>::empty());
        assert(bytes =~= behind(more, t));
        assert(traced(bytes, more, t));
        assert(line_text(t.line));
    }
}

/// A byte other than a line break, from an accounted state not after a
/// carriage return.
proof fn lemma_accounted_text_byte(
    p: Seq<u8>,
    lines: Seq<Seq<u8>>,
    s: ScanModel,
    b: u8,
    limit: nat,
)
    requires
        s.status is Scanning,
        s.count < limit,
        !s.cr,
        no_break(b),
        scanning_accounted(p, s),
        traced(p, lines, s),
    ensures
        accounted(p.push(b), step(s, b, limit)),
{
    let bytes = p.push(b);
    let t = step(s, b, limit);
    let c = s.pending.push(b);
    assert(forall|i: int| 0 <= i < c.len() ==> no_break(#[trigger] c[i]));
    if scalar_step(c) is Complete {
        lemma_extend_by_scalar(s.line, c);
        assert(t.line == s.line + c);
        assert(line_text(t.line)) by {
            assert forall|i: int| 0 <= i < t.line.len() implies no_break(#[trigger] t.line[i]) by {
                if i < s.line.len() {
                    assert(t.line[i] == s.line[i]);
                } else {
                    assert(t.line[i] == c[i - s.line.len()]);
                }
            }
        }
        assert(t.pending =~= Seq::<u8>::empty());
        assert(bytes =~= behind(lines, t));
        assert(traced(bytes, lines, t));
    } else if scalar_step(c) is Partial {
        assert(bytes =~= behind(lines, t));
        assert(traced(bytes, lines, t));
    }
}

/// A carriage return, from an accounted state not after one.
proof fn lemma_accounted_carriage_return(
    p: Seq<u8>,
    lines: Seq<Seq<u8>>,
    s: ScanModel,
    limit: nat,
)
    requires
        s.status is Scanning,
        s.count < limit,
        !s.cr,
        scanning_accounted(p, s),
        traced(p, lines, s),
    ensures
        accounted(p.push(CR), step(s, CR, limit)),
{
    let bytes = p.push(CR);
    let t = step(s, CR, limit);
    if s.pending.len() == 0 {
        assert(s.pending =~= Seq::<u8>::empty());
        assert(bytes =~= behind(lines, t));
        assert(traced(bytes, lines, t));
    }
}

proof fn lemma_scan_accounted(bytes: Seq<u8>, limit: nat)
    ensures
        accounted(bytes, scan(bytes, limit)),
    decreases bytes.len(),
{
    if bytes.len() == 0 {
        let s = start();
        let lines = Seq::<Seq<u8>>::empty();
        assert(joined(lines) =~= Seq::<u8>::empty());
        assert(bytes =~= behind(lines, s));
        assert(traced(bytes, lines, s));
    } else {
        let p = bytes.drop_last();
        let b = bytes.last();
        lemma_scan_accounted(p, limit);
        let s = scan(p, limit);
        assert(scan(bytes, limit) == step(s, b, limit));
        assert(bytes =~= p.push(b));
        if s.status is Done {
            let lines = choose|lines: Seq<Seq<u8>>|
                #![trigger written_lines(lines)]
                done_from(p, lines, s);
            assert(bytes.take(s.count as int) =~= p.take(s.count as int));
            assert(done_from(bytes, lines, s));
        } else if s.status is Scanning && s.count < limit {
            let lines = choose|lines: Seq<Seq<u8>>| traced(p, lines, s);
            if s.cr {
                if b == LF {
                    lemma_accounted_line_feed(p, lines, s, limit);
                }
            } else if b == CR {
                lemma_accounted_carriage_return(p, lines, s, limit);
            } else if b != LF {
                lemma_accounted_text_byte(p, lines, s, b, limit);
            }
        }
    }
}

/// Conversely, a recognized head was written as lines, each ended by CR LF,
/// and then the blank line: the bytes taken are those lines and that blank
/// line, and the head is the one the builder makes of the lines.
pub proof fn lemma_recognized_head_was_written(bytes: Seq<u8>, limit: nat)
    requires
        scan(bytes, limit).status is Done,
    ensures
        exists|lines: Seq<Seq<u8>>|
            #![trigger written_lines(lines)]
            {
                &&& lines.len() >= 1
                &&& written_lines(lines)
                &&& build(lines) == Ok::<HeadModel, HeadError>(
                    scan(bytes, limit).head,
                )
                &&& bytes.take(scan(bytes, limit).count as int) == joined(lines) + crlf()
            },
{
    lemma_scan_accounted(bytes, limit);
}

} // verus!
