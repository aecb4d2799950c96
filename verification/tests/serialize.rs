//! The streaming serializer: escaping, field order, the envelope, and the
//! exact bytes of finished bodies.

use logdna_client::body::KeyValueMap;
use logdna_client::body::Line;
use logdna_client::segmented_buffer::SegmentedPoolBuf;
use logdna_client::segmented_buffer::SegmentedPoolBufBuilder;
use logdna_client::serialize::IngestBodySerializer;
use logdna_client::serialize::IngestLineSerializer;
use logdna_client::serialize::IngestLineSerializeError;
use logdna_client::serialize::serialize_body;

fn fresh_buf() -> SegmentedPoolBuf {
    SegmentedPoolBufBuilder::new()
        .segment_size(256)
        .initial_capacity(512)
        .build()
}

fn plain_line(text: &str, timestamp: i64) -> Line {
    Line {
        annotations: None,
        app: None,
        env: None,
        file: None,
        host: None,
        labels: None,
        level: None,
        meta: None,
        line: text.to_owned(),
        timestamp,
    }
}

#[test]
fn three_records_produce_the_exact_body() {
    let one = plain_line("hello", 100);
    let mut two = plain_line("world", 101);
    two.app = Some("svc".to_owned());
    two.level = Some("INFO".to_owned());
    let mut three = plain_line("third", 102);
    three.labels = Some(KeyValueMap::new().add("k", "v"));

    let mut ser = IngestBodySerializer::from_buffer(fresh_buf()).expect("open");
    ser.write_line(&one).expect("record");
    ser.write_line(&two).expect("record");
    ser.write_line(&three).expect("record");
    let buf = ser.end().expect("close");

    let expected = "{\"lines\":[{\"line\":\"hello\",\"timestamp\":100},\
{\"app\":\"svc\",\"level\":\"INFO\",\"line\":\"world\",\"timestamp\":101},\
{\"label\":{\"k\":\"v\"},\"line\":\"third\",\"timestamp\":102}]}";
    assert_eq!(buf.to_vec(), expected.as_bytes().to_vec());
}

#[test]
fn full_record_parses_back_to_the_same_object() {
    let mut line = plain_line("the message", 1234567890);
    line.annotations = Some(KeyValueMap::new().add("b", "2").add("a", "1"));
    line.app = Some("app-name".to_owned());
    line.env = Some("prod".to_owned());
    line.file = Some("/var/log/syslog".to_owned());
    line.host = Some("node-us-0001".to_owned());
    line.labels = Some(KeyValueMap::new().add("team", "core"));
    line.level = Some("WARN".to_owned());
    line.meta = Some(serde_json::from_str("{\"deep\":[1,2,{\"x\":null}]}").unwrap());

    let ser = IngestLineSerializer::from_buffer(fresh_buf());
    let buf = ser.write_line(&line).expect("record");
    let bytes = buf.to_vec();

    let parsed: serde_json::Value = serde_json::from_slice(&bytes).expect("valid JSON");
    let expected: serde_json::Value = serde_json::from_str(
        "{\"annotation\":{\"b\":\"2\",\"a\":\"1\"},\"app\":\"app-name\",\"env\":\"prod\",\
         \"file\":\"/var/log/syslog\",\"host\":\"node-us-0001\",\"label\":{\"team\":\"core\"},\
         \"level\":\"WARN\",\"meta\":{\"deep\":[1,2,{\"x\":null}]},\"line\":\"the message\",\
         \"timestamp\":1234567890}",
    )
    .unwrap();
    assert_eq!(parsed, expected);

    // absent optional fields are omitted entirely, and the field order is
    // the fixed canonical one
    let text = String::from_utf8(bytes).unwrap();
    let order = [
        "annotation", "app", "env", "file", "host", "label", "level", "meta", "line",
        "timestamp",
    ];
    let mut last = 0;
    for key in order {
        let pos = text.find(&format!("\"{}\":", key)).expect("field present");
        assert!(pos >= last);
        last = pos;
    }
}

#[test]
fn absent_fields_are_omitted() {
    let line = plain_line("x", 0);
    let ser = IngestLineSerializer::from_buffer(fresh_buf());
    let buf = ser.write_line(&line).expect("record");
    let text = String::from_utf8(buf.to_vec()).unwrap();
    assert_eq!(text, "{\"line\":\"x\",\"timestamp\":0}");
}

#[test]
fn meta_goes_through_the_structured_value_encoder() {
    let mut line = plain_line("m", 1);
    line.meta = Some(serde_json::from_str("{\"a\":1,\"b\":[true,null]}").unwrap());
    let ser = IngestLineSerializer::from_buffer(fresh_buf());
    let buf = ser.write_line(&line).expect("record");
    let text = String::from_utf8(buf.to_vec()).unwrap();
    // the encoder's compact text is embedded as the member's value: a
    // pass-through of the value's own bytes would not parse as an object
    assert_eq!(text, "{\"meta\":{\"a\":1,\"b\":[true,null]},\"line\":\"m\",\"timestamp\":1}");
}

#[test]
fn escaping_reproduces_every_input_byte() {
    // a quote, a backslash, a newline and a control byte inside an
    // otherwise plain ASCII message
    let input = "say \"hi\"\\\n\u{1} done";
    let mut line = plain_line(input, 7);
    line.line = input.to_owned();
    let ser = IngestLineSerializer::from_buffer(fresh_buf());
    let buf = ser.write_line(&line).expect("record");
    let parsed: serde_json::Value = serde_json::from_slice(&buf.to_vec()).expect("valid JSON");
    assert_eq!(parsed["line"].as_str().unwrap(), input);
}

/// The inverse of the escape alphabet the encoder emits, over raw bytes.
fn unescape_bytes(s: &[u8]) -> Option<Vec<u8>> {
    let mut out = Vec::new();
    let mut i = 0;
    while i < s.len() {
        if s[i] == b'\\' {
            if i + 1 >= s.len() {
                return None;
            }
            match s[i + 1] {
                b'u' => {
                    if i + 6 > s.len() || s[i + 2] != b'0' || s[i + 3] != b'0' {
                        return None;
                    }
                    let hex = std::str::from_utf8(&s[i + 4..i + 6]).ok()?;
                    out.push(u8::from_str_radix(hex, 16).ok()?);
                    i += 6;
                },
                b'b' => {
                    out.push(0x08);
                    i += 2;
                },
                b't' => {
                    out.push(0x09);
                    i += 2;
                },
                b'n' => {
                    out.push(0x0a);
                    i += 2;
                },
                b'f' => {
                    out.push(0x0c);
                    i += 2;
                },
                b'r' => {
                    out.push(0x0d);
                    i += 2;
                },
                b'"' => {
                    out.push(0x22);
                    i += 2;
                },
                b'\\' => {
                    out.push(0x5c);
                    i += 2;
                },
                _ => return None,
            }
        } else if s[i] == b'"' {
            return None;
        } else {
            out.push(s[i]);
            i += 1;
        }
    }
    Some(out)
}

#[test]
fn every_byte_value_survives_the_escape_round_trip() {
    let mut input = Vec::new();
    for b in 0..=255u8 {
        input.push(b);
    }
    let ser = IngestLineSerializer::from_buffer(fresh_buf());
    let mut vs = ser.into_serialize_value();
    vs.serialize_utf8(&input).expect("escape");
    let out = vs.into_buffer().to_vec();
    assert_eq!(out[0], b'"');
    assert_eq!(out[out.len() - 1], b'"');
    let decoded = unescape_bytes(&out[1..out.len() - 1]).expect("decodes");
    assert_eq!(decoded, input);
}

#[test]
fn field_value_writers_produce_their_exact_text() {
    let ser = IngestLineSerializer::from_buffer(fresh_buf());
    let mut vs = ser.into_serialize_value();
    vs.serialize_str("plain").expect("str");
    vs.serialize_i64(&-42).expect("i64");
    vs.serialize_i64(&i64::MIN).expect("i64");
    let m = KeyValueMap::new().add("k", "v").add("q", "\"quoted\"");
    vs.serialize_map(&m).expect("map");
    vs.serialize(&serde_json::from_str("[1,\"two\",false]").unwrap()).expect("value");
    let text = String::from_utf8(vs.into_buffer().to_vec()).unwrap();
    assert_eq!(
        text,
        "\"plain\"-42-9223372036854775808{\"k\":\"v\",\"q\":\"\\\"quoted\\\"\"}[1,\"two\",false]"
    );
}

#[test]
fn serialize_body_wraps_every_record() {
    let lines = vec![plain_line("a", 1), plain_line("b", 2)];
    let buf = serialize_body(&lines, fresh_buf()).expect("body");
    let text = String::from_utf8(buf.to_vec()).unwrap();
    assert_eq!(
        text,
        "{\"lines\":[{\"line\":\"a\",\"timestamp\":1},{\"line\":\"b\",\"timestamp\":2}]}"
    );
}

#[test]
fn a_record_that_cannot_fit_reports_buffer_full() {
    let tiny = SegmentedPoolBufBuilder::new()
        .segment_size(16)
        .initial_capacity(16)
        .max_capacity(Some(32))
        .build();
    let line = plain_line("a very long message that cannot possibly fit in the ceiling", 1);
    let ser = IngestLineSerializer::from_buffer(tiny);
    let res = ser.write_line(&line);
    assert!(matches!(res, Err(IngestLineSerializeError::BufferFull)));
}

#[test]
fn empty_body_is_the_bare_envelope() {
    let ser = IngestBodySerializer::from_buffer(fresh_buf()).expect("open");
    let buf = ser.end().expect("close");
    assert_eq!(buf.to_vec(), b"{\"lines\":[]}".to_vec());
}

#[test]
fn decimal_timestamps_are_exact() {
    for (n, expect) in [
        (0i64, "{\"line\":\"t\",\"timestamp\":0}"),
        (7, "{\"line\":\"t\",\"timestamp\":7}"),
        (-1, "{\"line\":\"t\",\"timestamp\":-1}"),
        (i64::MAX, "{\"line\":\"t\",\"timestamp\":9223372036854775807}"),
        (i64::MIN, "{\"line\":\"t\",\"timestamp\":-9223372036854775808}"),
    ] {
        let line = plain_line("t", n);
        let ser = IngestLineSerializer::from_buffer(fresh_buf());
        let buf = ser.write_line(&line).expect("record");
        assert_eq!(String::from_utf8(buf.to_vec()).unwrap(), expect);
    }
}

#[test]
fn empty_map_and_empty_string_fields() {
    let mut line = plain_line("", 1);
    line.labels = Some(KeyValueMap::new());
    line.app = Some(String::new());
    let ser = IngestLineSerializer::from_buffer(fresh_buf());
    let buf = ser.write_line(&line).expect("record");
    assert_eq!(
        String::from_utf8(buf.to_vec()).unwrap(),
        "{\"app\":\"\",\"label\":{},\"line\":\"\",\"timestamp\":1}"
    );
}
