//! Lines, key value maps, params, templates and response classification.

use logdna_client::body::IngestBody;
use logdna_client::body::KeyValueMap;
use logdna_client::body::Line;
use logdna_client::body::LineError;
use logdna_client::params::Params;
use logdna_client::params::ParamsError;
use logdna_client::params::Tags;
use logdna_client::request::Encoding;
use logdna_client::request::RequestTemplate;
use logdna_client::request::Schema;
use logdna_client::request::TemplateError;
use logdna_client::response::Response;

#[test]
fn line_builder_carries_every_field() {
    let labels = KeyValueMap::new().add("app", "test").add("workload", "test");
    let line = Line::builder()
        .line("this is a test")
        .app("rust-client")
        .level("INFO")
        .labels(labels)
        .build()
        .expect("Line::builder()");
    assert_eq!(line.line, "this is a test");
    assert_eq!(line.app.as_deref(), Some("rust-client"));
    assert_eq!(line.level.as_deref(), Some("INFO"));
    assert!(line.labels.is_some());
    assert!(line.annotations.is_none());
    assert!(line.meta.is_none());
}

#[test]
fn line_requires_its_text() {
    let res = Line::builder().app("nope").build();
    assert!(matches!(res, Err(LineError::RequiredField(_))));
}

#[test]
fn key_value_map_adds_replaces_and_removes() {
    let m = KeyValueMap::new().add("a", "1").add("b", "2");
    assert_eq!(m.len(), 2);
    // adding an existing key replaces its value in place
    let m = m.add("a", "3");
    assert_eq!(m.len(), 2);
    let (k, v) = m.pair_at(0);
    assert_eq!((k.as_str(), v.as_str()), ("a", "3"));
    let m = m.remove("a");
    assert_eq!(m.len(), 1);
    let (k, v) = m.pair_at(0);
    assert_eq!((k.as_str(), v.as_str()), ("b", "2"));
    // removing an absent key changes nothing
    let m = m.remove("zzz");
    assert_eq!(m.len(), 1);
}

#[test]
fn ingest_body_holds_its_lines() {
    let line = Line {
        annotations: None,
        app: None,
        env: None,
        file: None,
        host: None,
        labels: None,
        level: None,
        meta: None,
        line: "x".to_owned(),
        timestamp: 5,
    };
    let body = IngestBody::new(vec![line]);
    assert_eq!(body.lines().len(), 1);
    assert_eq!(body.lines()[0].timestamp, 5);
}

#[test]
fn tags_parse_and_join_round_trip() {
    let tags = Tags::parse("this,is,a,test");
    assert_eq!(tags.tag_count(), 4);
    assert_eq!(tags.tag_at(0), "this");
    assert_eq!(tags.as_query_value(), "this,is,a,test");

    let mut more = Tags::new();
    more.add("one");
    more.add("two");
    assert_eq!(more.as_query_value(), "one,two");

    // a trailing separator yields no trailing empty tag
    let t = Tags::parse("a,b,");
    assert_eq!(t.tag_count(), 2);
    assert_eq!(t.as_query_value(), "a,b");
}

#[test]
fn params_builder_requires_a_hostname() {
    let res = Params::builder().ip("127.0.0.1").build();
    assert!(matches!(res, Err(ParamsError::RequiredField(_))));

    let params = Params::builder()
        .hostname("rust-client-test")
        .ip("127.0.0.1")
        .tags(Tags::parse("this,is,a,test"))
        .build()
        .expect("Params::builder()");
    assert_eq!(params.hostname, "rust-client-test");
    assert_eq!(params.ip.as_deref(), Some("127.0.0.1"));
    assert_eq!(params.now, 0);

    let mut params = params;
    params.set_now(42);
    assert_eq!(params.now, 42);
}

#[test]
fn template_builder_requires_params_and_key() {
    let missing = RequestTemplate::builder().build();
    assert!(matches!(missing, Err(TemplateError::RequiredField(_))));

    let params = Params::builder().hostname("h").build().unwrap();
    let template = RequestTemplate::builder()
        .host("logs-k8s.logdna.com")
        .params(params)
        .api_key("API_KEY")
        .build()
        .expect("RequestTemplate::builder()");
    assert_eq!(template.host, "logs-k8s.logdna.com");
    assert_eq!(template.method, "POST");
    assert_eq!(template.endpoint, "/logs/ingest");
    assert!(matches!(template.encoding, Encoding::GzipJson(2)));
    assert!(matches!(template.schema, Schema::Https));
}

#[test]
fn invalid_header_values_are_refused() {
    let params = Params::builder().hostname("h").build().unwrap();
    let b = RequestTemplate::builder().charset("bad\nvalue").user_agent("fine-agent");
    let template = b.params(params).api_key("k").build().unwrap();
    // the invalid value was refused; the default stands
    assert_eq!(template.charset, "utf8");
    assert_eq!(template.user_agent, "fine-agent");
}

#[test]
fn new_request_assembles_uri_and_headers() {
    let params = Params::builder()
        .hostname("host-1")
        .tags(Tags::parse("a,b"))
        .build()
        .unwrap();
    let template = RequestTemplate::builder()
        .host("example.test")
        .params(params)
        .api_key("key-123")
        .build()
        .unwrap();
    let parts = template.new_request();
    assert_eq!(parts.method, "POST");
    assert!(parts.uri.starts_with("https://example.test/logs/ingest?hostname=host-1&now="));
    assert!(parts.uri.ends_with("&tags=a%2Cb"));
    let names: Vec<&str> = parts.headers.iter().map(|h| h.0.as_str()).collect();
    assert_eq!(
        names,
        vec!["Accept-Charset", "Content-Type", "User-Agent", "apiKey", "Content-Encoding"]
    );
    assert_eq!(parts.headers[3].1, "key-123");
}

#[test]
fn schema_prefixes() {
    assert_eq!(Schema::Http.as_str(), "http://");
    assert_eq!(Schema::Https.as_str(), "https://");
}

#[test]
fn response_statuses_are_classified() {
    assert!(matches!(Response::from_status(200, String::new()), Response::Sent));
    assert!(matches!(Response::from_status(299, String::new()), Response::Sent));
    let failed = Response::from_status(199, "early".to_owned());
    assert!(matches!(failed, Response::Failed(199, _)));
    let failed = Response::from_status(500, "server error".to_owned());
    match failed {
        Response::Failed(status, reason) => {
            assert_eq!(status, 500);
            assert_eq!(reason, "server error");
        },
        Response::Sent => panic!("500 is no success"),
    }
}
