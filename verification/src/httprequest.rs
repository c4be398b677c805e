//! The typed request model and the line-oriented request parser.
//!
//! The raw text of one request is split into physical lines; each line is
//! classified in priority order as request line, header line, blank line,
//! or body candidate; the parsed request is the left fold of those
//! classified lines over an initial request model.

use crate::headers::Headers;
use crate::strutil::{
    contains_char, find_char, find_char_in, spec_lines, spec_tokens, spec_trim, split_lines,
    split_tokens, str_eq, trim_str,
};
use vstd::prelude::*;

verus! {

/// The request method: the recognized literals are `"GET"` and `"Post"`,
/// case-sensitively; anything else stays `UnInit`.
#[derive(Debug, PartialEq, Eq, Structural, Clone, Copy)]
pub enum Method {
    Get,
    Post,
    UnInit,
}

/// The protocol version: the recognized literals are `"HTTP/1.1"` and
/// `"HTTP/2.0"`; anything else stays `UnInit`. Before any request line is
/// seen the effective version is `V1_1`, not `UnInit`.
#[derive(Debug, PartialEq, Eq, Structural, Clone, Copy)]
pub enum Version {
    V1_1,
    V2_0,
    UnInit,
}

/// The request target, stored verbatim: not decoded, not normalized.
#[derive(Debug, PartialEq, Eq)]
pub enum Resource {
    Path(String),
}

/// The method a token denotes.
pub open spec fn spec_method(t: Seq<char>) -> Method {
    if t == "GET"@ {
        Method::Get
    } else if t == "Post"@ {
        Method::Post
    } else {
        Method::UnInit
    }
}

/// The version a token denotes.
pub open spec fn spec_version(t: Seq<char>) -> Version {
    if t == "HTTP/1.1"@ {
        Version::V1_1
    } else if t == "HTTP/2.0"@ {
        Version::V2_0
    } else {
        Version::UnInit
    }
}

impl Method {
    /// The method named by `s`: exact, case-sensitive recognition of the
    /// closed literal set; every other token degrades to `UnInit`.
    pub fn from(s: &str) -> (m: Method)
        ensures
            m == spec_method(s@),
    {
        if str_eq(s, "GET") {
            Method::Get
        } else if str_eq(s, "Post") {
            Method::Post
        } else {
            Method::UnInit
        }
    }
}

impl Version {
    /// The version named by `s`: exact, case-sensitive recognition of the
    /// closed literal set; every other token degrades to `UnInit`.
    pub fn from(s: &str) -> (v: Version)
        ensures
            v == spec_version(s@),
    {
        if str_eq(s, "HTTP/1.1") {
            Version::V1_1
        } else if str_eq(s, "HTTP/2.0") {
            Version::V2_0
        } else {
            Version::UnInit
        }
    }
}

impl Resource {
    /// The stored target text.
    pub open spec fn path(self) -> Seq<char> {
        match self {
            Resource::Path(s) => s@,
        }
    }
}

/// A line carrying the literal `"HTTP"` anywhere is taken for the request line.
pub open spec fn contains_http(l: Seq<char>) -> bool {
    exists|i: int| 0 <= i && i + 4 <= l.len() && #[trigger] l.subrange(i, i + 4) == "HTTP"@
}

/// Executable test for the `"HTTP"` marker.
pub fn has_http_marker(s: &str) -> (r: bool)
    ensures
        r == contains_http(s@),
{
    let n = s.unicode_len();
    if n < 4 {
        return false;
    }
    let mut i: usize = 0;
    while i <= n - 4
        invariant
            4 <= n == s@.len(),
            i <= n - 3,
            forall|j: int| 0 <= j < i ==> #[trigger] s@.subrange(j, j + 4) != "HTTP"@,
        decreases n - i,
    {
        if s.get_char(i) == 'H' && s.get_char(i + 1) == 'T' && s.get_char(i + 2) == 'T'
            && s.get_char(i + 3) == 'P' {
            proof {
                reveal_strlit("HTTP");
                assert(s@.subrange(i as int, i + 4 as int) =~= "HTTP"@);
            }
            return true;
        }
        proof {
            let w = s@.subrange(i as int, i + 4 as int);
            assert(w != "HTTP"@) by {
                reveal_strlit("HTTP");
                if w == "HTTP"@ {
                    assert(s@[i as int] == w[0] && s@[i + 1 as int] == w[1] && s@[i + 2 as int]
                        == w[2] && s@[i + 3 as int] == w[3]);
                }
            }
        }
        i += 1;
    }
    proof {
        assert(!contains_http(s@)) by {
            if contains_http(s@) {
                let k = choose|k: int|
                    0 <= k && k + 4 <= s@.len() && #[trigger] s@.subrange(k, k + 4) == "HTTP"@;
                assert(s@.subrange(k, k + 4) != "HTTP"@);
            }
        }
    }
    false
}

/// The header name of a line: what stands before the first colon (the whole
/// line when there is none), trimmed on both sides.
pub open spec fn header_key(l: Seq<char>) -> Seq<char> {
    spec_trim(l.subrange(0, find_char(l, ':') as int))
}

/// The header value of a line: what stands after the first colon, trimmed
/// on both sides; empty when the line has no colon.
pub open spec fn header_value(l: Seq<char>) -> Seq<char> {
    if find_char(l, ':') >= l.len() {
        Seq::empty()
    } else {
        spec_trim(l.subrange(find_char(l, ':') + 1 as int, l.len() as int))
    }
}

/// Split a header line into its trimmed name and value.
pub fn parse_header(s: &str) -> (kv: (String, String))
    ensures
        kv.0@ == header_key(s@),
        kv.1@ == header_value(s@),
{
    let n = s.unicode_len();
    let i = find_char_in(s, ':');
    let key = trim_str(s.substring_char(0, i));
    if i < n {
        let value = trim_str(s.substring_char(i + 1, n));
        (key.to_owned(), value.to_owned())
    } else {
        let value = "";
        proof {
            reveal_strlit("");
            assert(value@ =~= Seq::<char>::empty());
        }
        (key.to_owned(), value.to_owned())
    }
}

/// Split a request line into its first three whitespace-separated tokens:
/// method, target, version.
pub fn parse_req(s: &str) -> (r: (Method, Version, Resource))
    requires
        spec_tokens(s@).len() >= 3,
    ensures
        r.0 == spec_method(spec_tokens(s@)[0]),
        r.1 == spec_version(spec_tokens(s@)[2]),
        r.2.path() == spec_tokens(s@)[1],
{
    let toks = split_tokens(s);
    let m = Method::from(toks[0]);
    let v = Version::from(toks[2]);
    let rs = Resource::Path(toks[1].to_owned());
    (m, v, rs)
}

/// The mathematical model of a request: what the five fields hold, with
/// the target and body as character sequences and the headers as a map.
pub ghost struct ReqModel {
    pub method: Method,
    pub version: Version,
    pub path: Seq<char>,
    pub headers: Map<Seq<char>, Seq<char>>,
    pub body: Seq<char>,
}

/// The model before any line is seen: method unrecognized, version `V1_1`
/// by fixed initialization, empty target, no headers, empty body.
pub open spec fn init_model() -> ReqModel {
    ReqModel {
        method: Method::UnInit,
        version: Version::V1_1,
        path: Seq::empty(),
        headers: Map::empty(),
        body: Seq::empty(),
    }
}

/// One line classified and folded into the model, in priority order:
/// request line, header line, blank line (skipped), body candidate
/// (overwriting an earlier candidate).
pub open spec fn step_line(m: ReqModel, l: Seq<char>) -> ReqModel {
    if contains_http(l) {
        ReqModel {
            method: spec_method(spec_tokens(l)[0]),
            version: spec_version(spec_tokens(l)[2]),
            path: spec_tokens(l)[1],
            ..m
        }
    } else if contains_char(l, ':') {
        ReqModel { headers: m.headers.insert(header_key(l), header_value(l)), ..m }
    } else if l.len() == 0 {
        m
    } else {
        ReqModel { body: l, ..m }
    }
}

/// The model after folding a sequence of lines, first line first.
pub open spec fn fold_lines(m: ReqModel, ls: Seq<Seq<char>>) -> ReqModel
    decreases ls.len(),
{
    if ls.len() == 0 {
        m
    } else {
        fold_lines(step_line(m, ls[0]), ls.drop_first())
    }
}

/// Folding one more line at the end applies one more step.
pub proof fn lemma_fold_lines_snoc(m: ReqModel, ls: Seq<Seq<char>>, l: Seq<char>)
    ensures
        fold_lines(m, ls.push(l)) == step_line(fold_lines(m, ls), l),
    decreases ls.len(),
{
    if ls.len() == 0 {
        assert(ls.push(l)[0] == l);
        assert(ls.push(l).drop_first() =~= Seq::<Seq<char>>::empty());
        assert(fold_lines(step_line(m, l), ls.push(l).drop_first()) == step_line(m, l));
    } else {
        assert(ls.push(l)[0] == ls[0]);
        assert(ls.push(l).drop_first() =~= ls.drop_first().push(l));
        lemma_fold_lines_snoc(step_line(m, ls[0]), ls.drop_first(), l);
    }
}

/// What parsing a raw request text means: fold its physical lines over the
/// initial model.
pub open spec fn spec_parse(raw: Seq<char>) -> ReqModel {
    fold_lines(init_model(), spec_lines(raw))
}

/// A line is well-formed as input when, if it is taken for the request
/// line, it has at least the three tokens the request line needs.
pub open spec fn line_wf(l: Seq<char>) -> bool {
    contains_http(l) ==> spec_tokens(l).len() >= 3
}

/// A raw request text is well-formed when each of its lines is.
pub open spec fn input_wf(raw: Seq<char>) -> bool {
    forall|k: int| 0 <= k < spec_lines(raw).len() ==> line_wf(#[trigger] spec_lines(raw)[k])
}

/// The one structural fault the parser reports: a line taken for the
/// request line has fewer than three whitespace-separated tokens.
#[derive(Debug, PartialEq, Eq, Structural, Clone, Copy)]
pub enum ParseError {
    MalformedRequestLine,
}

/// A parsed request. Built once per raw input and immutable afterwards.
#[derive(Debug, PartialEq)]
pub struct HttpRequest {
    pub method: Method,
    pub version: Version,
    pub resource: Resource,
    pub headers: Headers,
    pub msg_body: String,
}

impl HttpRequest {
    /// The model this request value holds.
    pub open spec fn model(self) -> ReqModel {
        ReqModel {
            method: self.method,
            version: self.version,
            path: self.resource.path(),
            headers: self.headers@,
            body: self.msg_body@,
        }
    }

    /// Parse one raw request text. Returns the parsed request exactly when
    /// every line is well-formed; a request line with fewer than three
    /// tokens fails this one request with `MalformedRequestLine`.
    pub fn parse(raw: &str) -> (r: Result<HttpRequest, ParseError>)
        ensures
            r is Ok <==> input_wf(raw@),
            r matches Ok(req) ==> req.model() == spec_parse(raw@),
            r matches Err(e) ==> e == ParseError::MalformedRequestLine,
    {
        let lines = split_lines(raw);
        let ghost ls = spec_lines(raw@);
        let mut method = Method::UnInit;
        let mut version = Version::V1_1;
        let mut resource = Resource::Path(String::new());
        let mut headers = Headers::new();
        let mut body = String::new();
        let mut k: usize = 0;
        proof {
            assert(ls.subrange(0, 0) =~= Seq::<Seq<char>>::empty());
        }
        while k < lines.len()
            invariant
                ls == spec_lines(raw@),
                lines.deep_view() == ls,
                k <= lines.len(),
                forall|j: int| 0 <= j < k ==> line_wf(#[trigger] ls[j]),
                fold_lines(init_model(), ls.subrange(0, k as int)) == (ReqModel {
                    method,
                    version,
                    path: resource.path(),
                    headers: headers@,
                    body: body@,
                }),
            decreases lines.len() - k,
        {
            let line = lines[k];
            assert(line@ == ls[k as int]);
            if has_http_marker(line) {
                let toks = split_tokens(line);
                if toks.len() < 3 {
                    proof {
                        assert(!line_wf(spec_lines(raw@)[k as int]));
                        assert(!input_wf(raw@));
                    }
                    return Err(ParseError::MalformedRequestLine);
                }
                let (m, v, rs) = parse_req(line);
                method = m;
                version = v;
                resource = rs;
            } else if find_char_in(line, ':') < line.unicode_len() {
                let (name, value) = parse_header(line);
                headers.insert(name, value);
            } else if line.unicode_len() == 0 {
            } else {
                body = line.to_owned();
            }
            proof {
                assert(ls.subrange(0, k + 1) =~= ls.subrange(0, k as int).push(ls[k as int]));
                lemma_fold_lines_snoc(init_model(), ls.subrange(0, k as int), ls[k as int]);
                assert(fold_lines(init_model(), ls.subrange(0, k + 1)) == (ReqModel {
                    method,
                    version,
                    path: resource.path(),
                    headers: headers@,
                    body: body@,
                }));
            }
            k += 1;
        }
        proof {
            assert(ls.subrange(0, lines.len() as int) =~= ls);
        }
        Ok(HttpRequest { method, version, resource, headers, msg_body: body })
    }

    /// Build a request from raw text that is known to be well-formed; the
    /// parsed request is exactly the model of the text.
    pub fn from(req: String) -> (r: HttpRequest)
        requires
            input_wf(req@),
        ensures
            r.model() == spec_parse(req@),
    {
        match Self::parse(req.as_str()) {
            Ok(r) => r,
            Err(_) => vstd::pervasive::unreached(),
        }
    }
}

/// A line that is stored as the body candidate: neither a request line nor
/// a header line, and not blank.
pub open spec fn is_body_line(l: Seq<char>) -> bool {
    !contains_http(l) && !contains_char(l, ':') && l.len() > 0
}

/// A line that is inserted into the header mapping: no `"HTTP"` marker,
/// but a colon somewhere.
pub open spec fn is_header_line(l: Seq<char>) -> bool {
    !contains_http(l) && contains_char(l, ':')
}

/// Folding lines none of which is a body candidate leaves the body alone.
proof fn lemma_fold_keeps_body(m: ReqModel, ls: Seq<Seq<char>>)
    requires
        forall|j: int| 0 <= j < ls.len() ==> !is_body_line(#[trigger] ls[j]),
    ensures
        fold_lines(m, ls).body == m.body,
    decreases ls.len(),
{
    if ls.len() > 0 {
        let rest = ls.drop_first();
        assert(!is_body_line(ls[0]));
        assert forall|j: int| 0 <= j < rest.len() implies !is_body_line(#[trigger] rest[j]) by {
            assert(rest[j] == ls[j + 1]);
        }
        lemma_fold_keeps_body(step_line(m, ls[0]), rest);
    }
}

/// Folding lines ending with the last body candidate at `i` makes the body
/// that line.
proof fn lemma_fold_body_at(m: ReqModel, ls: Seq<Seq<char>>, i: int)
    requires
        0 <= i < ls.len(),
        is_body_line(ls[i]),
        forall|j: int| i < j < ls.len() ==> !is_body_line(#[trigger] ls[j]),
    ensures
        fold_lines(m, ls).body == ls[i],
    decreases ls.len(),
{
    let rest = ls.drop_first();
    if i == 0 {
        assert(step_line(m, ls[0]).body == ls[0]);
        assert forall|j: int| 0 <= j < rest.len() implies !is_body_line(#[trigger] rest[j]) by {
            assert(rest[j] == ls[j + 1]);
        }
        lemma_fold_keeps_body(step_line(m, ls[0]), rest);
    } else {
        assert(rest[i - 1] == ls[i]);
        assert forall|j: int| i - 1 < j < rest.len() implies !is_body_line(#[trigger] rest[j]) by {
            assert(rest[j] == ls[j + 1]);
        }
        lemma_fold_body_at(step_line(m, ls[0]), rest, i - 1);
    }
}

/// Body retention: the parsed body is exactly the last body-candidate line
/// of the input; earlier candidates are overwritten, never concatenated.
pub proof fn lemma_body_is_last_candidate(raw: Seq<char>, i: int)
    requires
        0 <= i < spec_lines(raw).len(),
        is_body_line(spec_lines(raw)[i]),
        forall|j: int| i < j < spec_lines(raw).len() ==> !is_body_line(#[trigger] spec_lines(raw)[j]),
    ensures
        spec_parse(raw).body == spec_lines(raw)[i],
{
    lemma_fold_body_at(init_model(), spec_lines(raw), i);
}

/// Without any body-candidate line the parsed body stays empty.
pub proof fn lemma_body_empty_without_candidate(raw: Seq<char>)
    requires
        forall|j: int| 0 <= j < spec_lines(raw).len() ==> !is_body_line(#[trigger] spec_lines(raw)[j]),
    ensures
        spec_parse(raw).body == Seq::<char>::empty(),
{
    lemma_fold_keeps_body(init_model(), spec_lines(raw));
}

/// Folding lines none of which is a request line leaves method, version
/// and target alone.
proof fn lemma_fold_keeps_request_fields(m: ReqModel, ls: Seq<Seq<char>>)
    requires
        forall|j: int| 0 <= j < ls.len() ==> !contains_http(#[trigger] ls[j]),
    ensures
        fold_lines(m, ls).method == m.method,
        fold_lines(m, ls).version == m.version,
        fold_lines(m, ls).path == m.path,
    decreases ls.len(),
{
    if ls.len() > 0 {
        let rest = ls.drop_first();
        assert(!contains_http(ls[0]));
        assert forall|j: int| 0 <= j < rest.len() implies !contains_http(#[trigger] rest[j]) by {
            assert(rest[j] == ls[j + 1]);
        }
        lemma_fold_keeps_request_fields(step_line(m, ls[0]), rest);
    }
}

/// Absent a request line, the parsed method stays `UnInit`, the version
/// defaults to `V1_1`, and the target stays empty.
pub proof fn lemma_defaults_without_request_line(raw: Seq<char>)
    requires
        forall|j: int| 0 <= j < spec_lines(raw).len() ==> !contains_http(#[trigger] spec_lines(raw)[j]),
    ensures
        spec_parse(raw).method == Method::UnInit,
        spec_parse(raw).version == Version::V1_1,
        spec_parse(raw).path == Seq::<char>::empty(),
{
    lemma_fold_keeps_request_fields(init_model(), spec_lines(raw));
}

/// Folding lines none of which is a header line with the name `k` keeps
/// what the header mapping holds under `k`.
proof fn lemma_fold_keeps_header(m: ReqModel, ls: Seq<Seq<char>>, k: Seq<char>)
    requires
        forall|j: int|
            0 <= j < ls.len() ==> !(is_header_line(#[trigger] ls[j]) && header_key(ls[j]) == k),
    ensures
        fold_lines(m, ls).headers.contains_key(k) == m.headers.contains_key(k),
        m.headers.contains_key(k) ==> fold_lines(m, ls).headers[k] == m.headers[k],
    decreases ls.len(),
{
    if ls.len() > 0 {
        let rest = ls.drop_first();
        assert(!(is_header_line(ls[0]) && header_key(ls[0]) == k));
        assert forall|j: int|
            0 <= j < rest.len() implies !(is_header_line(#[trigger] rest[j]) && header_key(rest[j])
            == k) by {
            assert(rest[j] == ls[j + 1]);
        }
        lemma_fold_keeps_header(step_line(m, ls[0]), rest, k);
    }
}

/// Folding lines whose last header line with its name is at `i` records
/// that line's trimmed name and value in the header mapping.
proof fn lemma_fold_header_at(m: ReqModel, ls: Seq<Seq<char>>, i: int)
    requires
        0 <= i < ls.len(),
        is_header_line(ls[i]),
        forall|j: int|
            i < j < ls.len() ==> !(is_header_line(#[trigger] ls[j]) && header_key(ls[j])
                == header_key(ls[i])),
    ensures
        fold_lines(m, ls).headers.contains_key(header_key(ls[i])),
        fold_lines(m, ls).headers[header_key(ls[i])] == header_value(ls[i]),
    decreases ls.len(),
{
    let rest = ls.drop_first();
    if i == 0 {
        let m2 = step_line(m, ls[0]);
        assert(m2.headers == m.headers.insert(header_key(ls[0]), header_value(ls[0])));
        assert forall|j: int|
            0 <= j < rest.len() implies !(is_header_line(#[trigger] rest[j]) && header_key(rest[j])
            == header_key(ls[0])) by {
            assert(rest[j] == ls[j + 1]);
        }
        lemma_fold_keeps_header(m2, rest, header_key(ls[0]));
    } else {
        assert(rest[i - 1] == ls[i]);
        assert forall|j: int|
            i - 1 < j < rest.len() implies !(is_header_line(#[trigger] rest[j]) && header_key(
            rest[j],
        ) == header_key(rest[i - 1])) by {
            assert(rest[j] == ls[j + 1]);
        }
        lemma_fold_header_at(step_line(m, ls[0]), rest, i - 1);
    }
}

/// Header round-trip: a header line whose trimmed name no later header line
/// repeats ends up in the parsed mapping under that name, with its trimmed
/// value.
pub proof fn lemma_header_line_recorded(raw: Seq<char>, i: int)
    requires
        0 <= i < spec_lines(raw).len(),
        is_header_line(spec_lines(raw)[i]),
        forall|j: int|
            i < j < spec_lines(raw).len() ==> !(is_header_line(#[trigger] spec_lines(raw)[j])
                && header_key(spec_lines(raw)[j]) == header_key(spec_lines(raw)[i])),
    ensures
        spec_parse(raw).headers.contains_key(header_key(spec_lines(raw)[i])),
        spec_parse(raw).headers[header_key(spec_lines(raw)[i])] == header_value(
            spec_lines(raw)[i],
        ),
{
    lemma_fold_header_at(init_model(), spec_lines(raw), i);
}

/// Idempotence: the parsed model is a function of the raw text alone, so
/// two requests parsed from the same text agree in every field of the model.
pub proof fn lemma_parse_deterministic(a: HttpRequest, b: HttpRequest, raw: Seq<char>)
    requires
        a.model() == spec_parse(raw),
        b.model() == spec_parse(raw),
    ensures
        a.model() == b.model(),
{
}

} // verus!
