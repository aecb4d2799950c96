//! Reusable request templates: method, headers, URL and query parameters,
//! assembled around a serialized body.
//!
//! The template computes the textual parts of a request — the URI with its
//! urlencoded query string, and the header list — as plain strings; the
//! transport layer turns them into whatever its HTTP library needs.

use vstd::prelude::*;
use vstd::string::StringExecFns;
use vstd::string::StringSliceAdditionalSpecFns;
use crate::params::Params;
use crate::params::Tags;
use crate::serialize::dec_digits;
use crate::serialize::i64_dec;

verus! {

/// Error of building a template whose required field is missing, or whose
/// header value was refused.
#[derive(Debug, Clone)]
pub enum TemplateError {
    /// The given header value holds a byte no header may carry.
    InvalidHeader(String),
    /// Names the field that was required.
    RequiredField(String),
}

/// Represents HTTP vs HTTPS for requests.
#[derive(Debug, Clone)]
pub enum Schema {
    Http,
    Https,
}

impl Schema {
    /// The scheme prefix of a URI under this schema.
    pub fn as_str(&self) -> (s: &str)
        ensures
            self is Http ==> s@ == "http://"@,
            self is Https ==> s@ == "https://"@,
    {
        match self {
            Schema::Http => "http://",
            Schema::Https => "https://",
        }
    }
}

/// Represents the encoding to be used when sending a request body: plain
/// JSON, or gzip at a compression level.
#[derive(Debug, Clone)]
pub enum Encoding {
    Json,
    GzipJson(u32),
}

/// A byte a header value may carry: horizontal tab, or a visible byte
/// other than delete.
pub open spec fn valid_header_byte(b: u8) -> bool {
    b == 9 || (32 <= b && b != 127)
}

/// Relies on http's `HeaderValue::from_str`: it accepts a string exactly
/// when every byte is a visible byte, a space or a horizontal tab.
#[verifier::external_body]
fn header_value_is_valid(s: &str) -> (r: bool)
    ensures
        r == forall|i: int|
            0 <= i < s.spec_bytes().len() ==> valid_header_byte(#[trigger] s.spec_bytes()[i]),
{
    http::HeaderValue::from_str(s).is_ok()
}

/// The urlencoded query string serde_urlencoded produces for a sequence of
/// key value pairs, a function of the pairs alone.
pub uninterp spec fn urlencoded_of(pairs: Seq<(Seq<char>, Seq<char>)>) -> Seq<char>;

/// Relies on serde_urlencoded's `to_string` over string pairs: the pairs,
/// in order, as one urlencoded query string.  Over a sequence of string
/// pairs the serializer takes no failing path, so the call always returns
/// a value.
#[verifier::external_body]
fn urlencode_pairs(pairs: &Vec<(String, String)>) -> (r: Option<String>)
    ensures
        r is Some,
        r matches Some(s) ==> s@ == urlencoded_of(
            pairs@.map_values(|p: (String, String)| (p.0@, p.1@)),
        ),
{
    serde_urlencoded::to_string(pairs).ok()
}

/// The decimal digits of a number, as characters.
pub open spec fn digit_chars(bs: Seq<u8>) -> Seq<char> {
    bs.map_values(|b: u8| b as char)
}

/// Every byte of a number's decimal ASCII form is a digit or the sign.
proof fn lemma_dec_digit_range(n: nat)
    ensures
        forall|i: int|
            0 <= i < dec_digits(n).len() ==> 0x30 <= #[trigger] dec_digits(n)[i] <= 0x39,
    decreases n,
{
    if n < 10 {
        assert(dec_digits(n) =~= seq![(0x30 + n) as u8]);
    } else {
        lemma_dec_digit_range(n / 10);
        assert(dec_digits(n) == dec_digits(n / 10) + seq![(0x30 + n % 10) as u8]);
        assert forall|i: int|
            0 <= i < dec_digits(n).len() implies 0x30 <= #[trigger] dec_digits(n)[i]
            <= 0x39 by {
            if i < dec_digits(n / 10).len() {
                assert(dec_digits(n)[i] == dec_digits(n / 10)[i]);
            } else {
                assert(dec_digits(n)[i] == (0x30 + n % 10) as u8);
            }
        }
    }
}

/// The number in decimal ASCII characters, with a minus sign when negative.
#[verifier::loop_isolation(false)]
fn i64_to_string(n: i64) -> (r: String)
    ensures
        r@ == digit_chars(i64_dec(n as int)),
{
    let digits = crate::serialize::i64_digits(n);
    let ghost bs = digits@;
    proof {
        if n < 0 {
            lemma_dec_digit_range((-(n as int)) as nat);
        } else {
            lemma_dec_digit_range(n as nat);
        }
        reveal_strlit("-");
        reveal_strlit("0");
        reveal_strlit("1");
        reveal_strlit("2");
        reveal_strlit("3");
        reveal_strlit("4");
        reveal_strlit("5");
        reveal_strlit("6");
        reveal_strlit("7");
        reveal_strlit("8");
        reveal_strlit("9");
    }
    let mut out = String::new();
    let mut i: usize = 0;
    proof {
        assert(out@ =~= digit_chars(bs.take(0)));
    }
    while i < digits.len()
        invariant
            i <= bs.len(),
            out@ == digit_chars(bs.take(i as int)),
        decreases bs.len() - i,
    {
        let b = digits[i];
        let piece: &str = if b == 0x2du8 {
            "-"
        } else if b == 0x30u8 {
            "0"
        } else if b == 0x31u8 {
            "1"
        } else if b == 0x32u8 {
            "2"
        } else if b == 0x33u8 {
            "3"
        } else if b == 0x34u8 {
            "4"
        } else if b == 0x35u8 {
            "5"
        } else if b == 0x36u8 {
            "6"
        } else if b == 0x37u8 {
            "7"
        } else if b == 0x38u8 {
            "8"
        } else {
            "9"
        };
        proof {
            assert(0x30 <= b <= 0x39 || b == 0x2d);
            assert(piece@ =~= seq![b as char]);
        }
        out.append(piece);
        i = i + 1;
        proof {
            assert(out@ =~= digit_chars(bs.take(i as int)));
        }
    }
    proof {
        assert(bs.take(bs.len() as int) =~= bs);
    }
    out
}

/// The query pairs of one request, in wire order: hostname, then the
/// optional mac and ip, the request timestamp, and the joined tags.
pub open spec fn query_pairs_of(p: Params, now_digits: Seq<char>) -> Seq<(Seq<char>, Seq<char>)> {
    seq![("hostname"@, p.hostname@)] + (if p.mac is Some {
        seq![("mac"@, (p.mac->Some_0)@)]
    } else {
        seq![]
    }) + (if p.ip is Some {
        seq![("ip"@, (p.ip->Some_0)@)]
    } else {
        seq![]
    }) + seq![("now"@, now_digits)] + (if p.tags is Some {
        seq![("tags"@, crate::params::comma_join((p.tags->Some_0)@))]
    } else {
        seq![]
    })
}

/// Build the query pairs of a set of params.
pub fn query_pairs(p: &Params) -> (v: Vec<(String, String)>)
    ensures
        v@.map_values(|q: (String, String)| (q.0@, q.1@)) == query_pairs_of(
            *p,
            digit_chars(i64_dec(p.now as int)),
        ),
{
    let mut v: Vec<(String, String)> = Vec::new();
    v.push((String::from_str("hostname"), p.hostname.clone()));
    match &p.mac {
        Some(m) => {
            v.push((String::from_str("mac"), m.clone()));
        },
        None => {},
    }
    match &p.ip {
        Some(m) => {
            v.push((String::from_str("ip"), m.clone()));
        },
        None => {},
    }
    v.push((String::from_str("now"), i64_to_string(p.now)));
    match &p.tags {
        Some(t) => {
            v.push((String::from_str("tags"), t.as_query_value()));
        },
        None => {},
    }
    proof {
        reveal_strlit("hostname");
        reveal_strlit("mac");
        reveal_strlit("ip");
        reveal_strlit("now");
        reveal_strlit("tags");
        assert(v@.map_values(|q: (String, String)| (q.0@, q.1@)) =~= query_pairs_of(
            *p,
            digit_chars(i64_dec(p.now as int)),
        ));
    }
    v
}

/// The header list of one generated request, in order: the charset,
/// content type, user agent and ingestion key from the template, and a
/// gzip content-encoding exactly when the body is gzip-encoded.
pub open spec fn header_list_of(t: RequestTemplate) -> Seq<(Seq<char>, Seq<char>)> {
    seq![
        ("Accept-Charset"@, t.charset@),
        ("Content-Type"@, t.content@),
        ("User-Agent"@, t.user_agent@),
        ("apiKey"@, t.api_key@),
    ] + if t.encoding is GzipJson {
        seq![("Content-Encoding"@, "gzip"@)]
    } else {
        seq![]
    }
}

/// A reusable template to generate requests from.
#[derive(Debug, Clone)]
pub struct RequestTemplate {
    /// HTTP method, default is POST.
    pub method: String,
    /// Content charset, default is utf8.
    pub charset: String,
    /// Content type, default is application/json.
    pub content: String,
    /// User agent header.
    pub user_agent: String,
    /// Content encoding, default is gzip.
    pub encoding: Encoding,
    /// HTTP schema, default is https.
    pub schema: Schema,
    /// Host / domain.
    pub host: String,
    /// Ingest endpoint path.
    pub endpoint: String,
    /// Query parameters appended to the URL.
    pub params: Params,
    /// The ingestion key sent as a header.
    pub api_key: String,
}

/// The textual parts of one generated request: everything the transport
/// layer needs besides the body bytes.
pub struct RequestParts {
    /// The HTTP method.
    pub method: String,
    /// The full URI, query string included.
    pub uri: String,
    /// The headers, as name value pairs, in order.
    pub headers: Vec<(String, String)>,
}

impl RequestTemplate {
    /// Constructs a new template builder.
    pub fn builder() -> (b: TemplateBuilder)
        ensures
            TemplateBuilder::is_default(b),
    {
        TemplateBuilder::new()
    }

    /// Use the template to compute a new request's parts, stamping the
    /// query parameters with the clock.
    pub fn new_request(&self) -> (parts: RequestParts)
        ensures
            parts.method@ == self.method@,
            exists|now: i64|
                parts.uri@ == (if self.schema is Http {
                    "http://"@
                } else {
                    "https://"@
                }) + self.host@ + self.endpoint@ + "?"@ + urlencoded_of(
                    query_pairs_of(
                        Params { now, ..self.params },
                        digit_chars(i64_dec(now as int)),
                    ),
                ),
            parts.headers@.map_values(|h: (String, String)| (h.0@, h.1@)) == header_list_of(
                *self,
            ),
    {
        let mut params = self.params.clone_fields();
        params.set_now(crate::body::now_timestamp());
        let ghost stamped_now: i64 = params.now;
        let pairs = query_pairs(&params);
        let query = match urlencode_pairs(&pairs) {
            Some(q) => q,
            None => {
                proof {
                    assert(false);
                }
                String::new()
            },
        };
        let mut uri = String::new();
        uri.append(self.schema.as_str());
        uri.append(self.host.as_str());
        uri.append(self.endpoint.as_str());
        uri.append("?");
        uri.append(query.as_str());
        let mut headers: Vec<(String, String)> = Vec::new();
        headers.push((String::from_str("Accept-Charset"), self.charset.clone()));
        headers.push((String::from_str("Content-Type"), self.content.clone()));
        headers.push((String::from_str("User-Agent"), self.user_agent.clone()));
        headers.push((String::from_str("apiKey"), self.api_key.clone()));
        match &self.encoding {
            Encoding::GzipJson(_) => {
                headers.push((String::from_str("Content-Encoding"), String::from_str("gzip")));
            },
            Encoding::Json => {},
        }
        proof {
            assert(uri@ == (if self.schema is Http {
                "http://"@
            } else {
                "https://"@
            }) + self.host@ + self.endpoint@ + "?"@ + urlencoded_of(
                query_pairs_of(
                    Params { now: stamped_now, ..self.params },
                    digit_chars(i64_dec(stamped_now as int)),
                ),
            ));
            assert(headers@.map_values(|h: (String, String)| (h.0@, h.1@)) =~= header_list_of(
                *self,
            ));
        }
        RequestParts { method: self.method.clone(), uri, headers }
    }
}

impl Params {
    /// A field-by-field copy of the params.
    pub fn clone_fields(&self) -> (p: Params)
        ensures
            p.hostname@ == self.hostname@,
            p.mac is Some <==> self.mac is Some,
            p.mac matches Some(m) ==> m@ == (self.mac->Some_0)@,
            p.ip is Some <==> self.ip is Some,
            p.ip matches Some(m) ==> m@ == (self.ip->Some_0)@,
            p.now == self.now,
            p.tags is Some <==> self.tags is Some,
            p.tags matches Some(t) ==> t@ == (self.tags->Some_0)@,
    {
        Params {
            hostname: self.hostname.clone(),
            mac: match &self.mac {
                Some(m) => Some(m.clone()),
                None => None,
            },
            ip: match &self.ip {
                Some(m) => Some(m.clone()),
                None => None,
            },
            now: self.now,
            tags: match &self.tags {
                Some(t) => Some(t.clone_tags()),
                None => None,
            },
        }
    }
}

/// Used to build an instance of `RequestTemplate`.
#[derive(Debug, Clone)]
pub struct TemplateBuilder {
    /// HTTP method.
    pub method: String,
    /// Content charset header value.
    pub charset: String,
    /// Content type header value.
    pub content: String,
    /// User agent header value.
    pub user_agent: String,
    /// Body encoding.
    pub encoding: Encoding,
    /// HTTP schema.
    pub schema: Schema,
    /// Host / domain.
    pub host: String,
    /// Ingest endpoint path.
    pub endpoint: String,
    /// Query parameters, required.
    pub params: Option<Params>,
    /// Ingestion key, required.
    pub api_key: Option<String>,
    /// The first header value that was refused, if any.
    pub err: Option<TemplateError>,
}

impl TemplateBuilder {
    /// Whether a builder carries the defaults of every non-required field.
    pub open spec fn is_default(b: TemplateBuilder) -> bool {
        &&& b.method@ == "POST"@
        &&& b.charset@ == "utf8"@
        &&& b.content@ == "application/json"@
        &&& b.user_agent@ == "logdna_client/0.1.0"@
        &&& b.encoding == Encoding::GzipJson(2)
        &&& b.schema is Https
        &&& b.host@ == "logs.logdna.com"@
        &&& b.endpoint@ == "/logs/ingest"@
        &&& b.params is None
        &&& b.api_key is None
        &&& b.err is None
    }

    /// Constructs a new template builder with the default method, headers,
    /// encoding, schema, host and endpoint.
    pub fn new() -> (b: TemplateBuilder)
        ensures
            TemplateBuilder::is_default(b),
    {
        TemplateBuilder {
            method: String::from_str("POST"),
            charset: String::from_str("utf8"),
            content: String::from_str("application/json"),
            user_agent: String::from_str("logdna_client/0.1.0"),
            encoding: Encoding::GzipJson(2),
            schema: Schema::Https,
            host: String::from_str("logs.logdna.com"),
            endpoint: String::from_str("/logs/ingest"),
            params: None,
            api_key: None,
            err: None,
        }
    }

    /// Set the method field.
    pub fn method(self, method: &str) -> (b: TemplateBuilder)
        ensures
            b.method@ == method@,
            b == (TemplateBuilder { method: b.method, ..self }),
    {
        TemplateBuilder { method: method.to_owned(), ..self }
    }

    /// Set the charset field; a value no header may carry is refused and
    /// recorded.
    pub fn charset(self, charset: &str) -> (b: TemplateBuilder)
        ensures
            (forall|i: int|
                0 <= i < charset.spec_bytes().len() ==> valid_header_byte(
                    #[trigger] charset.spec_bytes()[i],
                )) ==> b.charset@ == charset@ && b == (TemplateBuilder { charset: b.charset, ..self
            }),
    {
        if header_value_is_valid(charset) {
            TemplateBuilder { charset: charset.to_owned(), ..self }
        } else {
            TemplateBuilder {
                err: Some(TemplateError::InvalidHeader(charset.to_owned())),
                ..self
            }
        }
    }

    /// Set the content field; a value no header may carry is refused and
    /// recorded.
    pub fn content(self, content: &str) -> (b: TemplateBuilder)
        ensures
            (forall|i: int|
                0 <= i < content.spec_bytes().len() ==> valid_header_byte(
                    #[trigger] content.spec_bytes()[i],
                )) ==> b.content@ == content@ && b == (TemplateBuilder { content: b.content, ..self
            }),
    {
        if header_value_is_valid(content) {
            TemplateBuilder { content: content.to_owned(), ..self }
        } else {
            TemplateBuilder {
                err: Some(TemplateError::InvalidHeader(content.to_owned())),
                ..self
            }
        }
    }

    /// Set the user-agent field; a value no header may carry is refused and
    /// recorded.
    pub fn user_agent(self, user_agent: &str) -> (b: TemplateBuilder)
        ensures
            (forall|i: int|
                0 <= i < user_agent.spec_bytes().len() ==> valid_header_byte(
                    #[trigger] user_agent.spec_bytes()[i],
                )) ==> b.user_agent@ == user_agent@ && b == (TemplateBuilder {
                user_agent: b.user_agent,
                ..self
            }),
    {
        if header_value_is_valid(user_agent) {
            TemplateBuilder { user_agent: user_agent.to_owned(), ..self }
        } else {
            TemplateBuilder {
                err: Some(TemplateError::InvalidHeader(user_agent.to_owned())),
                ..self
            }
        }
    }

    /// Set the encoding field.
    pub fn encoding(self, encoding: Encoding) -> (b: TemplateBuilder)
        ensures
            b == (TemplateBuilder { encoding, ..self }),
    {
        TemplateBuilder { encoding, ..self }
    }

    /// Set the schema field.
    pub fn schema(self, schema: Schema) -> (b: TemplateBuilder)
        ensures
            b == (TemplateBuilder { schema, ..self }),
    {
        TemplateBuilder { schema, ..self }
    }

    /// Set the host field.
    pub fn host(self, host: &str) -> (b: TemplateBuilder)
        ensures
            b.host@ == host@,
            b == (TemplateBuilder { host: b.host, ..self }),
    {
        TemplateBuilder { host: host.to_owned(), ..self }
    }

    /// Set the endpoint field.
    pub fn endpoint(self, endpoint: &str) -> (b: TemplateBuilder)
        ensures
            b.endpoint@ == endpoint@,
            b == (TemplateBuilder { endpoint: b.endpoint, ..self }),
    {
        TemplateBuilder { endpoint: endpoint.to_owned(), ..self }
    }

    /// Set the api_key field.
    pub fn api_key(self, api_key: &str) -> (b: TemplateBuilder)
        ensures
            b.api_key matches Some(k) && k@ == api_key@,
            b == (TemplateBuilder { api_key: b.api_key, ..self }),
    {
        TemplateBuilder { api_key: Some(api_key.to_owned()), ..self }
    }

    /// Set the params field.
    pub fn params(self, params: Params) -> (b: TemplateBuilder)
        ensures
            b == (TemplateBuilder { params: Some(params), ..self }),
    {
        TemplateBuilder { params: Some(params), ..self }
    }

    /// Build a template from the current builder.  Errs exactly when the
    /// required params or api_key is missing.
    pub fn build(self) -> (r: Result<RequestTemplate, TemplateError>)
        ensures
            r is Ok <==> self.params is Some && self.api_key is Some,
            r matches Ok(t) ==> t == (RequestTemplate {
                method: self.method,
                charset: self.charset,
                content: self.content,
                user_agent: self.user_agent,
                encoding: self.encoding,
                schema: self.schema,
                host: self.host,
                endpoint: self.endpoint,
                params: self.params->Some_0,
                api_key: self.api_key->Some_0,
            }),
    {
        let TemplateBuilder {
            method,
            charset,
            content,
            user_agent,
            encoding,
            schema,
            host,
            endpoint,
            params,
            api_key,
            err: _,
        } = self;
        match (params, api_key) {
            (Some(params), Some(api_key)) => Ok(
                RequestTemplate {
                    method,
                    charset,
                    content,
                    user_agent,
                    encoding,
                    schema,
                    host,
                    endpoint,
                    params,
                    api_key,
                },
            ),
            (None, _) => Err(
                TemplateError::RequiredField(
                    String::from_str("params is required in a TemplateBuilder"),
                ),
            ),
            (_, None) => Err(
                TemplateError::RequiredField(
                    String::from_str("api_key is required in a TemplateBuilder"),
                ),
            ),
        }
    }
}

impl Tags {
    /// A field-by-field copy of the tag list.
    pub fn clone_tags(&self) -> (t: Tags)
        ensures
            t@ == self@,
    {
        let mut inner: Vec<String> = Vec::new();
        let mut i: usize = 0;
        let n = self.tag_count();
        while i < n
            invariant
                i <= self@.len(),
                n == self@.len(),
                inner@.map_values(|p: String| p@) == self@.take(i as int),
            decreases self@.len() - i,
        {
            let ghost prev = inner@.map_values(|p: String| p@);
            let t = self.tag_at(i);
            let ghost tv = t@;
            inner.push(t);
            i = i + 1;
            proof {
                assert(inner@.map_values(|p: String| p@) =~= prev.push(tv));
                assert(prev.push(tv) =~= self@.take(i as int));
            }
        }
        proof {
            assert(self@.take(self@.len() as int) =~= self@);
        }
        Tags::from_vec(inner)
    }
}

} // verus!
