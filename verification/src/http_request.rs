//! HTTP request model: a parsed target URL plus a header multimap, and the
//! serializer that turns them into HTTP/1.1 request-head bytes.

use crate::headers::{add_values, HeaderSeq, Headers};
use crate::text::{dec_chars, push_dec, str_eq};
use crate::HttpError;
use vstd::prelude::*;
use vstd::string::{StrSliceExecFns, StringExecFns};
use vstd::utf8::encode_utf8;

verus! {

/// What the URL-parsing collaborator hands back for an input string:
/// scheme, host, explicit port, and everything from the path on
/// (path + query + fragment). `None` when the string is not a URL.
pub uninterp spec fn url_parts_of(s: Seq<char>) -> Option<
    (Seq<char>, Option<Seq<char>>, Option<u16>, Seq<char>),
>;

/// Relies on `url::Url::parse` and the accessors `scheme`, `host_str` and
/// `port`, and on the serialization slice from `Position::BeforePath`:
/// they compute the parts of the URL from the input string alone, and
/// parsing fails exactly when the input is not a URL.
#[verifier::external_body]
fn parse_url_parts(s: &str) -> (r: Option<(String, Option<String>, Option<u16>, String)>)
    ensures
        r is Some <==> url_parts_of(s@) is Some,
        r matches Some(p) ==> ({
            let q = url_parts_of(s@)->Some_0;
            &&& p.0@ == q.0
            &&& (p.1 is Some <==> q.1 is Some)
            &&& (p.1 matches Some(h) ==> h@ == q.1->Some_0)
            &&& p.2 == q.2
            &&& p.3@ == q.3
        }),
{
    match url::Url::parse(s) {
        Ok(u) => {
            let scheme = u.scheme().to_owned();
            let host = u.host_str().map(|h| h.to_owned());
            let port = u.port();
            let rest = u[url::Position::BeforePath..].to_owned();
            Some((scheme, host, port, rest))
        },
        Err(_) => None,
    }
}

/// A request under construction: the parsed pieces of its target URL and
/// its headers, in insertion order.
#[derive(Debug)]
pub struct HttpRequest {
    /// URL scheme, as the parser reports it (lower-cased by the parser).
    pub scheme: String,
    /// Host of the URL, if it has one.
    pub host: Option<String>,
    /// Port of the URL, only if written explicitly.
    pub port: Option<u16>,
    /// Path, query and fragment of the URL, starting at the path.
    pub path_and_query: String,
    /// Header multimap serialized after the fixed request headers.
    pub headers: Headers,
}

/// Where a request should connect: a `host:port` string, marked secure
/// (TLS) or not, or nothing for a URL whose scheme this client does not
/// speak.
#[derive(Debug, PartialEq)]
pub enum HttpTarget {
    Unsecure(String),
    Secure(String),
    NoTarget,
}

/// The `Content-Length` value a request advertises: the given length, or 0
/// for a bodyless request.
pub open spec fn content_len_val(content_length: Option<u64>) -> nat {
    match content_length {
        Some(n) => n as nat,
        None => 0,
    }
}

/// One serialized header line: `key: value1,value2\r\n`.
pub open spec fn header_line_chars(k: Seq<char>, vs: Seq<Seq<char>>) -> Seq<char> {
    k + ": "@ + join_values(vs) + "\r\n"@
}

/// Values of one key joined with commas, in call order.
pub open spec fn join_values(vs: Seq<Seq<char>>) -> Seq<char>
    decreases vs.len(),
{
    if vs.len() == 0 {
        Seq::empty()
    } else if vs.len() == 1 {
        vs[0]
    } else {
        join_values(vs.drop_last()) + ","@ + vs.last()
    }
}

/// The serialized header block: one line per key, in insertion order.
pub open spec fn headers_block_chars(h: HeaderSeq) -> Seq<char>
    decreases h.len(),
{
    if h.len() == 0 {
        Seq::empty()
    } else {
        headers_block_chars(h.drop_last()) + header_line_chars(h.last().0, h.last().1)
    }
}

impl HttpRequest {
    pub open spec fn wf(&self) -> bool {
        self.headers.wf()
    }

    pub open spec fn spec_is_http(&self) -> bool {
        self.scheme@ == "http"@
    }

    pub open spec fn spec_is_https(&self) -> bool {
        self.scheme@ == "https"@
    }

    /// The host this request addresses; a URL with no host falls back to
    /// the local machine.
    pub open spec fn spec_host(&self) -> Seq<char> {
        match self.host {
            Some(h) => h@,
            None => "localhost"@,
        }
    }

    /// The port this request addresses: the explicit one, else the
    /// scheme's default (`https` 443, otherwise 80).
    pub open spec fn spec_port(&self) -> u16 {
        match self.port {
            Some(p) => p,
            None => if self.spec_is_https() {
                443
            } else {
                80
            },
        }
    }

    /// The `host:port` string the transport connects to.
    pub open spec fn spec_target_chars(&self) -> Seq<char> {
        self.spec_host() + ":"@ + dec_chars(self.spec_port() as nat)
    }

    /// The whole serialized request head: request line, `Host`,
    /// `Connection: close`, `Content-Length`, the added headers in
    /// insertion order, and the blank line ending the head.
    pub open spec fn spec_request_chars(&self, verb: Seq<char>, content_length: Option<u64>) -> Seq<
        char,
    > {
        verb + " "@ + self.path_and_query@ + " HTTP/1.1\r\nHost: "@ + self.spec_host()
            + "\r\nConnection: close\r\nContent-Length: "@ + dec_chars(
            content_len_val(content_length),
        ) + "\r\n"@ + headers_block_chars(self.headers@) + "\r\n"@
    }

    /// Create a request for a complete URL; the URL must parse, but its
    /// scheme is not examined until the target is resolved.
    pub fn new(target_url: &str) -> (r: Result<HttpRequest, HttpError>)
        ensures
            r is Ok <==> url_parts_of(target_url@) is Some,
            r matches Ok(rq) ==> ({
                let q = url_parts_of(target_url@)->Some_0;
                &&& rq.scheme@ == q.0
                &&& (rq.host is Some <==> q.1 is Some)
                &&& (rq.host matches Some(h) ==> h@ == q.1->Some_0)
                &&& rq.port == q.2
                &&& rq.path_and_query@ == q.3
                &&& rq.headers@ == Seq::<(Seq<char>, Seq<Seq<char>>)>::empty()
                &&& rq.wf()
            }),
            r matches Err(e) ==> e == HttpError::ConfigurationError,
    {
        match parse_url_parts(target_url) {
            Some((scheme, host, port, path_and_query)) => Ok(
                HttpRequest { scheme, host, port, path_and_query, headers: Headers::new() },
            ),
            None => Err(HttpError::ConfigurationError),
        }
    }

    /// Add a header value. Repeated calls with the same key accumulate the
    /// values in call order; they never overwrite.
    pub fn add_header(&mut self, header: &str, value: &str)
        requires
            old(self).wf(),
        ensures
            final(self).wf(),
            final(self).headers@ == add_values(old(self).headers@, header@, seq![value@]),
            final(self).scheme == old(self).scheme,
            final(self).host == old(self).host,
            final(self).port == old(self).port,
            final(self).path_and_query == old(self).path_and_query,
    {
        self.headers.add(header, value.to_owned());
    }

    /// Resolve where this request connects: `host:port` with the port
    /// defaulted from the scheme, marked secure for `https`, insecure for
    /// `http`, and no target for any other scheme.
    pub fn request_target(&self) -> (t: HttpTarget)
        ensures
            self.spec_is_http() ==> (t matches HttpTarget::Unsecure(s) && s@
                == self.spec_target_chars()),
            self.spec_is_https() ==> (t matches HttpTarget::Secure(s) && s@
                == self.spec_target_chars()),
            !self.spec_is_http() && !self.spec_is_https() ==> t matches HttpTarget::NoTarget,
    {
        proof {
            reveal_strlit("http");
            reveal_strlit("https");
            assert("http"@.len() != "https"@.len());
            assert("http"@ != "https"@);
        }
        let mut conn = String::new();
        match &self.host {
            Some(h) => conn.append(h.as_str()),
            None => conn.append("localhost"),
        }
        conn.append(":");
        let port: u16 = match self.port {
            Some(p) => p,
            None => if str_eq(self.scheme.as_str(), "https") {
                443
            } else {
                80
            },
        };
        push_dec(&mut conn, port as u64);
        if str_eq(self.scheme.as_str(), "http") {
            HttpTarget::Unsecure(conn)
        } else if str_eq(self.scheme.as_str(), "https") {
            HttpTarget::Secure(conn)
        } else {
            HttpTarget::NoTarget
        }
    }

    /// The domain a TLS certificate must match: the URL's host.
    pub fn domain(&self) -> (r: String)
        ensures
            r@ == self.spec_host(),
    {
        match &self.host {
            Some(h) => h.clone(),
            None => String::from_str("localhost"),
        }
    }

    /// Serialize the request head for the given method and advertised
    /// body length (0 when none is given).
    pub fn request_bytes(&self, verb: &str, content_length: Option<u64>) -> (r: Vec<u8>)
        ensures
            r@ == encode_utf8(self.spec_request_chars(verb@, content_length)),
    {
        let mut s = String::new();
        s.append(verb);
        s.append(" ");
        s.append(self.path_and_query.as_str());
        s.append(" HTTP/1.1\r\nHost: ");
        match &self.host {
            Some(h) => s.append(h.as_str()),
            None => s.append("localhost"),
        }
        s.append("\r\nConnection: close\r\nContent-Length: ");
        let n: u64 = match content_length {
            Some(n) => n,
            None => 0,
        };
        push_dec(&mut s, n);
        s.append("\r\n");
        let ghost head = s@;
        let m = self.headers.len();
        let mut i: usize = 0;
        while i < m
            invariant
                m == self.headers@.len(),
                i <= m,
                s@ == head + headers_block_chars(self.headers@.subrange(0, i as int)),
            decreases m - i,
        {
            let (k, vs) = self.headers.entry_at(i);
            s.append(k.as_str());
            s.append(": ");
            let ghost line_start = s@;
            let ghost values = self.headers@[i as int].1;
            let vn = vs.len();
            let mut j: usize = 0;
            while j < vn
                invariant
                    vn == values.len(),
                    j <= vn,
                    vs.deep_view() == values,
                    s@ == line_start + join_values(values.subrange(0, j as int)),
                decreases vn - j,
            {
                if j > 0 {
                    s.append(",");
                }
                s.append(vs[j].as_str());
                proof {
                    let p = values.subrange(0, j + 1);
                    assert(p.drop_last() =~= values.subrange(0, j as int));
                    assert(p.last() == values[j as int]);
                    assert(s@ =~= line_start + join_values(p));
                }
                j = j + 1;
            }
            s.append("\r\n");
            proof {
                assert(values.subrange(0, vn as int) =~= values);
                let hp = self.headers@.subrange(0, i + 1);
                assert(hp.drop_last() =~= self.headers@.subrange(0, i as int));
                assert(hp.last() == self.headers@[i as int]);
                assert(s@ =~= head + headers_block_chars(hp));
            }
            i = i + 1;
        }
        s.append("\r\n");
        proof {
            assert(self.headers@.subrange(0, m as int) =~= self.headers@);
            assert(s@ =~= self.spec_request_chars(verb@, content_length));
        }
        s.as_str().as_bytes_vec()
    }
}

/// One step of orchestration: where a call must connect.
#[derive(Debug, PartialEq)]
pub enum TransportPlan {
    /// Connect plainly to this `host:port`.
    Plain(String),
    /// Connect to this `host:port`, then run a TLS handshake checking
    /// the certificate against this domain.
    Tls(String, String),
}

impl HttpRequest {
    /// Decide how a call for this request is carried, before any I/O:
    /// `http` connects plainly, `https` adds TLS against the URL's host,
    /// and any other scheme is a configuration error that stops the call
    /// without touching the network.
    pub fn connection_plan(&self) -> (r: Result<TransportPlan, HttpError>)
        ensures
            self.spec_is_http() ==> (r matches Ok(TransportPlan::Plain(t)) && t@
                == self.spec_target_chars()),
            self.spec_is_https() ==> (r matches Ok(TransportPlan::Tls(t, d)) && t@
                == self.spec_target_chars() && d@ == self.spec_host()),
            !self.spec_is_http() && !self.spec_is_https() ==> (r matches Err(e) && e
                == HttpError::ConfigurationError),
    {
        match self.request_target() {
            HttpTarget::Unsecure(t) => Ok(TransportPlan::Plain(t)),
            HttpTarget::Secure(t) => Ok(TransportPlan::Tls(t, self.domain())),
            HttpTarget::NoTarget => Err(HttpError::ConfigurationError),
        }
    }
}

/// The header block contains each slot's serialized line as a contiguous
/// run of characters.
proof fn lemma_block_contains_line(h: HeaderSeq, i: int)
    requires
        0 <= i < h.len(),
    ensures
        ({
            let line = header_line_chars(h[i].0, h[i].1);
            let block = headers_block_chars(h);
            exists|j: int|
                0 <= j && j + line.len() <= block.len() && #[trigger] block.subrange(
                    j,
                    j + line.len() as int,
                ) == line
        }),
    decreases h.len(),
{
    let line = header_line_chars(h[i].0, h[i].1);
    let block = headers_block_chars(h);
    let t = h.drop_last();
    let prev = headers_block_chars(t);
    if i == h.len() - 1 {
        let j = prev.len() as int;
        assert(block.subrange(j, j + line.len() as int) =~= line);
    } else {
        lemma_block_contains_line(t, i);
        assert(t[i] == h[i]);
        let line2 = header_line_chars(t[i].0, t[i].1);
        let j = choose|j: int|
            0 <= j && j + line2.len() <= prev.len() && #[trigger] prev.subrange(
                j,
                j + line2.len() as int,
            ) == line2;
        assert(block.subrange(j, j + line.len() as int) =~= prev.subrange(
            j,
            j + line.len() as int,
        ));
    }
}

/// Law: for every header slot of the request, the serialized head
/// contains one line `key: v1,v2,...` whose values are the slot's values
/// joined by commas in call order (`lemma_add_values_accumulates` says
/// those values accumulate across repeated `add_header` calls).
pub proof fn lemma_request_contains_header_line(
    rq: HttpRequest,
    verb: Seq<char>,
    content_length: Option<u64>,
    i: int,
)
    requires
        0 <= i < rq.headers@.len(),
    ensures
        ({
            let line = header_line_chars(rq.headers@[i].0, rq.headers@[i].1);
            let req = rq.spec_request_chars(verb, content_length);
            exists|j: int|
                0 <= j && j + line.len() <= req.len() && #[trigger] req.subrange(
                    j,
                    j + line.len() as int,
                ) == line
        }),
{
    let h = rq.headers@;
    let line = header_line_chars(h[i].0, h[i].1);
    let req = rq.spec_request_chars(verb, content_length);
    let block = headers_block_chars(h);
    let prefix = verb + " "@ + rq.path_and_query@ + " HTTP/1.1\r\nHost: "@ + rq.spec_host()
        + "\r\nConnection: close\r\nContent-Length: "@ + dec_chars(
        content_len_val(content_length),
    ) + "\r\n"@;
    assert(req =~= prefix + block + "\r\n"@);
    lemma_block_contains_line(h, i);
    let j = choose|j: int|
        0 <= j && j + line.len() <= block.len() && #[trigger] block.subrange(
            j,
            j + line.len() as int,
        ) == line;
    let j2 = prefix.len() as int + j;
    assert(req.subrange(j2, j2 + line.len() as int) =~= block.subrange(j, j + line.len() as int));
}

} // verus!
