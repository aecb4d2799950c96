//! Log lines and the body type built from them.
//!
//! A `Line` carries the fields of one log record: a required message text
//! and timestamp, and optional annotations, app, environment, file, host,
//! labels, level and metadata.  `LineBuilder` assembles one, stamping it
//! with the clock when no required field is missing.

use vstd::prelude::*;
use vstd::string::StringExecFns;

verus! {

/// Error of building a line whose required field is missing.
#[derive(Debug)]
pub enum LineError {
    /// Names the field that was required.
    RequiredField(String),
}

/// A JSON key value map (an object with a depth of one), kept in insertion
/// order with unique keys.
#[derive(Debug, Clone)]
pub struct KeyValueMap {
    pairs: Vec<(String, String)>,
}

/// The first position of a key among a sequence of pairs, or -1.
pub open spec fn key_index(s: Seq<(Seq<char>, Seq<char>)>, k: Seq<char>) -> int
    decreases s.len(),
{
    if s.len() == 0 {
        -1
    } else if s[0].0 == k {
        0
    } else {
        let r = key_index(s.drop_first(), k);
        if r < 0 {
            -1
        } else {
            r + 1
        }
    }
}

impl View for KeyValueMap {
    type V = Seq<(Seq<char>, Seq<char>)>;

    closed spec fn view(&self) -> Seq<(Seq<char>, Seq<char>)> {
        self.pairs@.map_values(|p: (String, String)| (p.0@, p.1@))
    }
}

impl KeyValueMap {
    /// Keys are pairwise distinct.
    pub open spec fn wf(self) -> bool {
        forall|i: int, j: int|
            0 <= i < j < self@.len() ==> (#[trigger] self@[i]).0 != (#[trigger] self@[j]).0
    }

    /// Create an empty key value map.
    pub fn new() -> (m: KeyValueMap)
        ensures
            m@ =~= Seq::<(Seq<char>, Seq<char>)>::empty(),
            m.wf(),
    {
        let m = KeyValueMap { pairs: Vec::new() };
        proof {
            assert(m@ =~= Seq::<(Seq<char>, Seq<char>)>::empty());
        }
        m
    }

    /// Add a key value pair to the map, replacing the value when the key is
    /// already there.
    #[verifier::loop_isolation(false)]
    pub fn add(self, key: &str, value: &str) -> (m: KeyValueMap)
        requires
            self.wf(),
        ensures
            m.wf(),
            m@ == if key_index(self@, key@) >= 0 {
                self@.update(key_index(self@, key@), (key@, value@))
            } else {
                self@.push((key@, value@))
            },
    {
        let ghost orig = self@;
        let ghost kidx = key_index(orig, key@);
        proof {
            lemma_key_index_props(orig, key@);
        }
        let key_owned = key.to_owned();
        let mut out: Vec<(String, String)> = Vec::new();
        let mut replaced = false;
        let mut i: usize = 0;
        proof {
            assert(orig.take(0) =~= Seq::<(Seq<char>, Seq<char>)>::empty());
            assert(out@.map_values(|p: (String, String)| (p.0@, p.1@)) =~= orig.take(0));
        }
        while i < self.pairs.len()
            invariant
                self.wf(),
                i <= self.pairs@.len(),
                orig == self@,
                kidx == key_index(orig, key@),
                key_owned@ == key@,
                replaced <==> 0 <= kidx < i,
                out@.map_values(|p: (String, String)| (p.0@, p.1@)) == if replaced {
                    orig.take(i as int).update(kidx, (key@, value@))
                } else {
                    orig.take(i as int)
                },
            decreases self.pairs@.len() - i,
        {
            let p = &self.pairs[i];
            let ghost before = out@.map_values(|q: (String, String)| (q.0@, q.1@));
            if !replaced && p.0 == key_owned {
                proof {
                    lemma_key_index_props(orig, key@);
                    assert(orig[i as int].0 == key@);
                    assert(kidx == i as int);
                }
                out.push((key_owned.clone(), value.to_owned()));
                replaced = true;
                proof {
                    assert(out@.map_values(|q: (String, String)| (q.0@, q.1@)) =~= before.push(
                        (key@, value@)));
                    assert(orig.take(i + 1).update(i as int, (key@, value@)) =~= orig.take(
                        i as int).push((key@, value@)));
                }
            } else {
                out.push((p.0.clone(), p.1.clone()));
                proof {
                    assert(out@.map_values(|q: (String, String)| (q.0@, q.1@)) =~= before.push(
                        orig[i as int]));
                    if replaced {
                        assert(orig.take(i + 1).update(kidx, (key@, value@)) =~= orig.take(
                            i as int).update(kidx, (key@, value@)).push(orig[i as int]));
                    } else {
                        assert(orig.take(i + 1) =~= orig.take(i as int).push(orig[i as int]));
                        assert(orig[i as int].0 != key@);
                    }
                }
            }
            i = i + 1;
        }
        proof {
            assert(orig.take(orig.len() as int) =~= orig);
        }
        if !replaced {
            out.push((key_owned, value.to_owned()));
            proof {
                assert(out@.map_values(|q: (String, String)| (q.0@, q.1@)) =~= orig.push(
                    (key@, value@)));
            }
        }
        let m = KeyValueMap { pairs: out };
        proof {
            assert(m@ == out@.map_values(|q: (String, String)| (q.0@, q.1@)));
            assert forall|a: int, b: int| 0 <= a < b < m@.len() implies (#[trigger] m@[a]).0 != (
            #[trigger] m@[b]).0 by {
                if replaced {
                    if a == kidx {
                        assert(orig[b].0 != orig[kidx].0);
                    } else if b == kidx {
                        assert(orig[a].0 != orig[kidx].0);
                    } else {
                        assert(orig[a].0 != orig[b].0);
                    }
                } else {
                    if b == m@.len() - 1 {
                        assert(orig[a].0 != key@);
                    } else {
                        assert(orig[a].0 != orig[b].0);
                    }
                }
            }
        }
        m
    }

    /// Remove a key value pair from the map, if its key is there.
    #[verifier::loop_isolation(false)]
    pub fn remove(self, key: &str) -> (m: KeyValueMap)
        requires
            self.wf(),
        ensures
            m.wf(),
            m@ == if key_index(self@, key@) >= 0 {
                self@.remove(key_index(self@, key@))
            } else {
                self@
            },
    {
        let ghost orig = self@;
        let ghost kidx = key_index(orig, key@);
        proof {
            lemma_key_index_props(orig, key@);
        }
        let key_owned = key.to_owned();
        let mut out: Vec<(String, String)> = Vec::new();
        let mut removed = false;
        let mut i: usize = 0;
        proof {
            assert(orig.take(0) =~= Seq::<(Seq<char>, Seq<char>)>::empty());
            assert(out@.map_values(|p: (String, String)| (p.0@, p.1@)) =~= orig.take(0));
        }
        while i < self.pairs.len()
            invariant
                self.wf(),
                i <= self.pairs@.len(),
                orig == self@,
                kidx == key_index(orig, key@),
                key_owned@ == key@,
                removed <==> 0 <= kidx < i,
                out@.map_values(|p: (String, String)| (p.0@, p.1@)) == if removed {
                    orig.take(i as int).remove(kidx)
                } else {
                    orig.take(i as int)
                },
            decreases self.pairs@.len() - i,
        {
            let p = &self.pairs[i];
            let ghost before = out@.map_values(|q: (String, String)| (q.0@, q.1@));
            if !removed && p.0 == key_owned {
                proof {
                    lemma_key_index_props(orig, key@);
                    assert(orig[i as int].0 == key@);
                    assert(kidx == i as int);
                    assert(orig.take(i + 1).remove(i as int) =~= orig.take(i as int));
                }
                removed = true;
            } else {
                out.push((p.0.clone(), p.1.clone()));
                proof {
                    assert(out@.map_values(|q: (String, String)| (q.0@, q.1@)) =~= before.push(
                        orig[i as int]));
                    if removed {
                        assert(orig.take(i + 1).remove(kidx) =~= orig.take(i as int).remove(
                            kidx).push(orig[i as int]));
                    } else {
                        assert(orig.take(i + 1) =~= orig.take(i as int).push(orig[i as int]));
                        assert(orig[i as int].0 != key@);
                    }
                }
            }
            i = i + 1;
        }
        proof {
            assert(orig.take(orig.len() as int) =~= orig);
        }
        let m = KeyValueMap { pairs: out };
        proof {
            assert(m@ == out@.map_values(|q: (String, String)| (q.0@, q.1@)));
            assert forall|a: int, b: int| 0 <= a < b < m@.len() implies (#[trigger] m@[a]).0 != (
            #[trigger] m@[b]).0 by {
                if removed {
                    let ra = if a < kidx {
                        a
                    } else {
                        a + 1
                    };
                    let rb = if b < kidx {
                        b
                    } else {
                        b + 1
                    };
                    assert(m@[a] == orig[ra]);
                    assert(m@[b] == orig[rb]);
                    assert(orig[ra].0 != orig[rb].0);
                } else {
                    assert(orig[a].0 != orig[b].0);
                }
            }
        }
        m
    }

    /// How many pairs the map holds.
    pub fn len(&self) -> (n: usize)
        ensures
            n == self@.len(),
    {
        self.pairs.len()
    }

    /// The pair at a given position.
    pub fn pair_at(&self, i: usize) -> (p: (&String, &String))
        requires
            i < self@.len(),
        ensures
            p.0@ == self@[i as int].0,
            p.1@ == self@[i as int].1,
    {
        let p = &self.pairs[i];
        (&p.0, &p.1)
    }
}

proof fn lemma_key_index_props(s: Seq<(Seq<char>, Seq<char>)>, k: Seq<char>)
    ensures
        key_index(s, k) == -1 || 0 <= key_index(s, k) < s.len(),
        key_index(s, k) >= 0 ==> s[key_index(s, k)].0 == k,
        key_index(s, k) >= 0 ==> forall|j: int|
            0 <= j < key_index(s, k) ==> (#[trigger] s[j]).0 != k,
        key_index(s, k) == -1 ==> forall|j: int| 0 <= j < s.len() ==> (#[trigger] s[j]).0 != k,
    decreases s.len(),
{
    if s.len() > 0 && s[0].0 != k {
        lemma_key_index_props(s.drop_first(), k);
        let r = key_index(s.drop_first(), k);
        if r >= 0 {
            assert forall|j: int| 0 <= j < r + 1 implies (#[trigger] s[j]).0 != k by {
                if j > 0 {
                    assert(s.drop_first()[j - 1].0 != k);
                }
            }
        } else {
            assert forall|j: int| 0 <= j < s.len() implies (#[trigger] s[j]).0 != k by {
                if j > 0 {
                    assert(s.drop_first()[j - 1].0 != k);
                }
            }
        }
    }
}

/// Defines a log line, marking non-required fields as `Option`.
#[derive(Debug, Clone)]
pub struct Line {
    /// The annotations field, a key value map.
    pub annotations: Option<KeyValueMap>,
    /// The app field, e.g. hello-world-service.
    pub app: Option<String>,
    /// The env field, e.g. kubernetes.
    pub env: Option<String>,
    /// The file field, e.g. /var/log/syslog.
    pub file: Option<String>,
    /// The host field, e.g. node-us-0001.
    pub host: Option<String>,
    /// The labels field, a key value map.
    pub labels: Option<KeyValueMap>,
    /// The level field, e.g. INFO.
    pub level: Option<String>,
    /// The meta field; can be any JSON value.
    pub meta: Option<serde_json::Value>,
    /// The line field: the message text itself.
    pub line: String,
    /// The timestamp of when the log line was constructed.
    pub timestamp: i64,
}

impl Line {
    /// Create a new line builder.
    pub fn builder() -> (b: LineBuilder)
        ensures
            b == LineBuilder::empty(),
    {
        LineBuilder::new()
    }
}

/// Used to build a log line.
#[derive(Debug, Clone)]
pub struct LineBuilder {
    pub annotations: Option<KeyValueMap>,
    pub app: Option<String>,
    pub env: Option<String>,
    pub file: Option<String>,
    pub host: Option<String>,
    pub labels: Option<KeyValueMap>,
    pub level: Option<String>,
    pub line: Option<String>,
    pub meta: Option<serde_json::Value>,
}

impl LineBuilder {
    /// The builder every field of which is absent.
    pub open spec fn empty() -> LineBuilder {
        LineBuilder {
            annotations: None,
            app: None,
            env: None,
            file: None,
            host: None,
            labels: None,
            level: None,
            line: None,
            meta: None,
        }
    }

    /// Creates a new line builder.
    pub fn new() -> (b: LineBuilder)
        ensures
            b == LineBuilder::empty(),
    {
        LineBuilder {
            annotations: None,
            app: None,
            env: None,
            file: None,
            host: None,
            labels: None,
            level: None,
            line: None,
            meta: None,
        }
    }

    /// Set the annotations field in the builder.
    pub fn annotations(self, annotations: KeyValueMap) -> (b: LineBuilder)
        ensures
            b == (LineBuilder { annotations: Some(annotations), ..self }),
    {
        LineBuilder { annotations: Some(annotations), ..self }
    }

    /// Set the app field in the builder.
    pub fn app(self, app: &str) -> (b: LineBuilder)
        ensures
            b.app matches Some(s) && s@ == app@,
            b == (LineBuilder { app: b.app, ..self }),
    {
        LineBuilder { app: Some(app.to_owned()), ..self }
    }

    /// Set the env field in the builder.
    pub fn env(self, env: &str) -> (b: LineBuilder)
        ensures
            b.env matches Some(s) && s@ == env@,
            b == (LineBuilder { env: b.env, ..self }),
    {
        LineBuilder { env: Some(env.to_owned()), ..self }
    }

    /// Set the file field in the builder.
    pub fn file(self, file: &str) -> (b: LineBuilder)
        ensures
            b.file matches Some(s) && s@ == file@,
            b == (LineBuilder { file: b.file, ..self }),
    {
        LineBuilder { file: Some(file.to_owned()), ..self }
    }

    /// Set the host field in the builder.
    pub fn host(self, host: &str) -> (b: LineBuilder)
        ensures
            b.host matches Some(s) && s@ == host@,
            b == (LineBuilder { host: b.host, ..self }),
    {
        LineBuilder { host: Some(host.to_owned()), ..self }
    }

    /// Set the labels field in the builder.
    pub fn labels(self, labels: KeyValueMap) -> (b: LineBuilder)
        ensures
            b == (LineBuilder { labels: Some(labels), ..self }),
    {
        LineBuilder { labels: Some(labels), ..self }
    }

    /// Set the level field in the builder.
    pub fn level(self, level: &str) -> (b: LineBuilder)
        ensures
            b.level matches Some(s) && s@ == level@,
            b == (LineBuilder { level: b.level, ..self }),
    {
        LineBuilder { level: Some(level.to_owned()), ..self }
    }

    /// Set the line field in the builder.
    pub fn line(self, line: &str) -> (b: LineBuilder)
        ensures
            b.line matches Some(s) && s@ == line@,
            b == (LineBuilder { line: b.line, ..self }),
    {
        LineBuilder { line: Some(line.to_owned()), ..self }
    }

    /// Set the meta field in the builder.
    pub fn meta(self, meta: serde_json::Value) -> (b: LineBuilder)
        ensures
            b == (LineBuilder { meta: Some(meta), ..self }),
    {
        LineBuilder { meta: Some(meta), ..self }
    }

    /// Construct a log line from the contents of this builder, stamping it
    /// with the clock.  Errs exactly when the required line field is
    /// missing.
    pub fn build(self) -> (r: Result<Line, LineError>)
        ensures
            r is Ok <==> self.line is Some,
            r matches Ok(l) ==> l == (Line {
                annotations: self.annotations,
                app: self.app,
                env: self.env,
                file: self.file,
                host: self.host,
                labels: self.labels,
                level: self.level,
                meta: self.meta,
                line: self.line->Some_0,
                timestamp: l.timestamp,
            }),
    {
        let LineBuilder { annotations, app, env, file, host, labels, level, line, meta } = self;
        match line {
            Some(line) => Ok(
                Line {
                    annotations,
                    app,
                    env,
                    file,
                    host,
                    labels,
                    level,
                    meta,
                    line,
                    timestamp: now_timestamp(),
                },
            ),
            None => Err(LineError::RequiredField(String::from_str("line field is required"))),
        }
    }
}

/// Relies on chrono's `Utc::now`: seconds since the Unix epoch, as the
/// system clock reports them.  Nothing is promised of the clock's value.
#[verifier::external_body]
pub(crate) fn now_timestamp() -> i64 {
    chrono::Utc::now().timestamp()
}

/// The body of one ingestion request: the log lines it carries.
#[derive(Debug, Clone)]
pub struct IngestBody {
    lines: Vec<Line>,
}

impl View for IngestBody {
    type V = Seq<Line>;

    closed spec fn view(&self) -> Seq<Line> {
        self.lines@
    }
}

impl IngestBody {
    /// Create a new `IngestBody`.
    pub fn new(lines: Vec<Line>) -> (b: IngestBody)
        ensures
            b@ == lines@,
    {
        IngestBody { lines }
    }

    /// The lines the body carries.
    pub fn lines(&self) -> (lines: &Vec<Line>)
        ensures
            lines@ == self@,
    {
        &self.lines
    }
}


} // verus!
