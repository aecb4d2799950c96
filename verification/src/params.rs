//! Query parameters sent along with every ingestion request.

use vstd::prelude::*;
use vstd::string::StringExecFns;
use vstd::string::StrSliceExecFns;

verus! {

/// Error of building params whose required field is missing.
#[derive(Debug)]
pub enum ParamsError {
    /// Names the field that was required.
    RequiredField(String),
}

/// A comma separated list of tags.
#[derive(Debug, Clone)]
pub struct Tags {
    inner: Vec<String>,
}

/// The first comma's position in a character sequence, or its length when
/// it holds none.
pub open spec fn find_comma(s: Seq<char>) -> nat
    decreases s.len(),
{
    if s.len() == 0 {
        0
    } else if s[0] == ',' {
        0
    } else {
        1 + find_comma(s.drop_first())
    }
}

/// A character sequence split at commas, with a final empty piece omitted:
/// the behaviour of splitting on a terminator.
pub open spec fn comma_split(s: Seq<char>) -> Seq<Seq<char>>
    decreases s.len(),
{
    if s.len() == 0 {
        seq![]
    } else {
        let i = find_comma(s);
        if i >= s.len() {
            seq![s]
        } else {
            seq![s.take(i as int)] + comma_split(s.skip(i + 1 as int))
        }
    }
}

/// Pieces joined with commas between them.
pub open spec fn comma_join(ps: Seq<Seq<char>>) -> Seq<char>
    decreases ps.len(),
{
    if ps.len() == 0 {
        seq![]
    } else if ps.len() == 1 {
        ps[0]
    } else {
        comma_join(ps.drop_last()) + seq![','] + ps.last()
    }
}

proof fn lemma_find_comma_none(t: Seq<char>)
    requires
        forall|j: int| 0 <= j < t.len() ==> t[j] != ',',
    ensures
        find_comma(t) == t.len(),
    decreases t.len(),
{
    if t.len() > 0 {
        assert forall|j: int| 0 <= j < t.drop_first().len() implies t.drop_first()[j] != ',' by {
            assert(t.drop_first()[j] == t[j + 1]);
        }
        lemma_find_comma_none(t.drop_first());
    }
}

proof fn lemma_find_comma_at(t: Seq<char>, k: int)
    requires
        0 <= k < t.len(),
        t[k] == ',',
        forall|j: int| 0 <= j < k ==> t[j] != ',',
    ensures
        find_comma(t) == k,
    decreases k,
{
    if k > 0 {
        assert forall|j: int| 0 <= j < k - 1 implies t.drop_first()[j] != ',' by {
            assert(t.drop_first()[j] == t[j + 1]);
        }
        assert(t.drop_first()[k - 1] == t[k]);
        lemma_find_comma_at(t.drop_first(), k - 1);
    }
}

/// The substrings between commas, in order, with a final empty substring
/// omitted: one pass over the characters, splitting as a terminator does.
#[verifier::loop_isolation(false)]
fn split_commas(s: &str) -> (v: Vec<String>)
    ensures
        v@.map_values(|p: String| p@) == comma_split(s@),
{
    let n = s.unicode_len();
    let mut v: Vec<String> = Vec::new();
    let mut start: usize = 0;
    let mut i: usize = 0;
    proof {
        assert(v@.map_values(|p: String| p@) =~= Seq::<Seq<char>>::empty());
        assert(s@.skip(0) =~= s@);
        assert(Seq::<Seq<char>>::empty() + comma_split(s@) =~= comma_split(s@));
    }
    while i < n
        invariant
            start <= i <= n == s@.len(),
            comma_split(s@) == v@.map_values(|p: String| p@) + comma_split(
                s@.skip(start as int),
            ),
            forall|j: int| start <= j < i ==> s@[j] != ',',
        decreases n - i,
    {
        let c = s.get_char(i);
        if c == ',' {
            let ghost t = s@.skip(start as int);
            let ghost k = i - start;
            let ghost prev = v@.map_values(|p: String| p@);
            proof {
                assert forall|j: int| 0 <= j < k implies t[j] != ',' by {
                    assert(t[j] == s@[start + j]);
                }
                assert(t[k as int] == s@[i as int]);
                lemma_find_comma_at(t, k as int);
                assert(t.take(k as int) =~= s@.subrange(start as int, i as int));
                assert(t.skip(k + 1 as int) =~= s@.skip(i + 1));
            }
            let piece = s.substring_char(start, i);
            v.push(piece.to_owned());
            proof {
                assert(v@.map_values(|p: String| p@) =~= prev.push(
                    s@.subrange(start as int, i as int)));
                assert(comma_split(t) == seq![s@.subrange(start as int, i as int)]
                    + comma_split(s@.skip(i + 1)));
                assert(prev + comma_split(t) =~= prev.push(
                    s@.subrange(start as int, i as int)) + comma_split(s@.skip(i + 1)));
            }
            start = i + 1;
        }
        i = i + 1;
    }
    if start < n {
        let ghost t = s@.skip(start as int);
        let ghost prev = v@.map_values(|p: String| p@);
        proof {
            assert forall|j: int| 0 <= j < t.len() implies t[j] != ',' by {
                assert(t[j] == s@[start + j]);
            }
            lemma_find_comma_none(t);
            assert(t =~= s@.subrange(start as int, n as int));
        }
        let piece = s.substring_char(start, n);
        v.push(piece.to_owned());
        proof {
            assert(v@.map_values(|p: String| p@) =~= prev.push(t));
            assert(comma_split(t) =~= seq![t]);
            assert(prev + comma_split(t) =~= prev.push(t));
        }
    } else {
        proof {
            assert(s@.skip(start as int) =~= Seq::<char>::empty());
            assert(v@.map_values(|p: String| p@) + comma_split(Seq::<char>::empty())
                =~= v@.map_values(|p: String| p@));
        }
    }
    v
}

impl View for Tags {
    type V = Seq<Seq<char>>;

    closed spec fn view(&self) -> Seq<Seq<char>> {
        self.inner@.map_values(|p: String| p@)
    }
}

impl Tags {
    /// An empty tag list.
    pub fn new() -> (t: Tags)
        ensures
            t@ =~= Seq::<Seq<char>>::empty(),
    {
        let t = Tags { inner: Vec::new() };
        proof {
            assert(t@ =~= Seq::<Seq<char>>::empty());
        }
        t
    }

    /// Parse a comma separated string into tags.
    pub fn parse(tags: &str) -> (t: Tags)
        ensures
            t@ == comma_split(tags@),
    {
        Tags { inner: split_commas(tags) }
    }

    /// Add one tag at the end of the list.
    pub fn add(&mut self, tag: &str)
        ensures
            final(self)@ == old(self)@.push(tag@),
    {
        self.inner.push(tag.to_owned());
        proof {
            assert(final(self)@ =~= old(self)@.push(tag@));
        }
    }


    /// How many tags the list holds.
    pub fn tag_count(&self) -> (n: usize)
        ensures
            n == self@.len(),
    {
        self.inner.len()
    }

    /// The tag at a given position.
    pub fn tag_at(&self, i: usize) -> (t: String)
        requires
            i < self@.len(),
        ensures
            t@ == self@[i as int],
    {
        self.inner[i].clone()
    }

    /// Wrap an existing list of tags.
    pub fn from_vec(inner: Vec<String>) -> (t: Tags)
        ensures
            t@ == inner@.map_values(|p: String| p@),
    {
        Tags { inner }
    }

    /// The tags joined back into one comma separated string, as they go on
    /// the wire.
    #[verifier::loop_isolation(false)]
    pub fn as_query_value(&self) -> (s: String)
        ensures
            s@ == comma_join(self@),
    {
        let mut out = String::new();
        let mut i: usize = 0;
        proof {
            assert(self@.take(0) =~= Seq::<Seq<char>>::empty());
        }
        while i < self.inner.len()
            invariant
                i <= self.inner@.len(),
                out@ == comma_join(self@.take(i as int)),
            decreases self.inner@.len() - i,
        {
            if i > 0 {
                out.append(",");
                proof {
                    reveal_strlit(",");
                }
            }
            out.append(self.inner[i].as_str());
            i = i + 1;
            proof {
                assert(self@.take(i as int).drop_last() =~= self@.take(i - 1));
                assert(self@.take(i as int).last() == self@[i - 1]);
                if i > 1 {
                    assert(out@ =~= comma_join(self@.take(i as int)));
                } else {
                    assert(comma_join(self@.take(1)) == self@[0]);
                    assert(out@ =~= comma_join(self@.take(i as int)));
                }
            }
        }
        proof {
            assert(self@.take(self@.len() as int) =~= self@);
        }
        out
    }
}

/// The query parameters of one ingestion request.
#[derive(Debug, Clone)]
pub struct Params {
    /// The sending host's name.
    pub hostname: String,
    /// The sending host's MAC address, when one is reported.
    pub mac: Option<String>,
    /// The sending host's IP address, when one is reported.
    pub ip: Option<String>,
    /// The request's own timestamp, stamped when a request is built.
    pub now: i64,
    /// The tag list, when one is set.
    pub tags: Option<Tags>,
}

impl Params {
    /// Create a new params builder.
    pub fn builder() -> (b: ParamsBuilder)
        ensures
            b.spec_hostname() is None,
            b.spec_mac() is None,
            b.spec_ip() is None,
            b.spec_tags() is None,
    {
        ParamsBuilder::new()
    }

    /// Stamp the params with a request timestamp.
    pub fn set_now(&mut self, now: i64)
        ensures
            *final(self) == (Params { now, ..*old(self) }),
    {
        self.now = now;
    }
}

/// Used to build an instance of `Params`.
#[derive(Debug, Clone)]
pub struct ParamsBuilder {
    hostname: Option<String>,
    mac: Option<String>,
    ip: Option<String>,
    tags: Option<Tags>,
}

impl ParamsBuilder {
    /// The hostname set so far.
    pub closed spec fn spec_hostname(self) -> Option<String> {
        self.hostname
    }

    /// The MAC address set so far.
    pub closed spec fn spec_mac(self) -> Option<String> {
        self.mac
    }

    /// The IP address set so far.
    pub closed spec fn spec_ip(self) -> Option<String> {
        self.ip
    }

    /// The tags set so far.
    pub closed spec fn spec_tags(self) -> Option<Tags> {
        self.tags
    }

    /// A builder with no field set.
    pub fn new() -> (b: ParamsBuilder)
        ensures
            b.spec_hostname() is None,
            b.spec_mac() is None,
            b.spec_ip() is None,
            b.spec_tags() is None,
    {
        ParamsBuilder { hostname: None, mac: None, ip: None, tags: None }
    }

    /// Set the hostname field.
    pub fn hostname(self, hostname: &str) -> (b: ParamsBuilder)
        ensures
            b.spec_hostname() matches Some(s) && s@ == hostname@,
            b.spec_mac() == self.spec_mac(),
            b.spec_ip() == self.spec_ip(),
            b.spec_tags() == self.spec_tags(),
    {
        ParamsBuilder { hostname: Some(hostname.to_owned()), ..self }
    }

    /// Set the MAC address field.
    pub fn mac(self, mac: &str) -> (b: ParamsBuilder)
        ensures
            b.spec_mac() matches Some(s) && s@ == mac@,
            b.spec_hostname() == self.spec_hostname(),
            b.spec_ip() == self.spec_ip(),
            b.spec_tags() == self.spec_tags(),
    {
        ParamsBuilder { mac: Some(mac.to_owned()), ..self }
    }

    /// Set the IP address field.
    pub fn ip(self, ip: &str) -> (b: ParamsBuilder)
        ensures
            b.spec_ip() matches Some(s) && s@ == ip@,
            b.spec_hostname() == self.spec_hostname(),
            b.spec_mac() == self.spec_mac(),
            b.spec_tags() == self.spec_tags(),
    {
        ParamsBuilder { ip: Some(ip.to_owned()), ..self }
    }

    /// Set the tags field.
    pub fn tags(self, tags: Tags) -> (b: ParamsBuilder)
        ensures
            b.spec_tags() == Some(tags),
            b.spec_hostname() == self.spec_hostname(),
            b.spec_mac() == self.spec_mac(),
            b.spec_ip() == self.spec_ip(),
    {
        ParamsBuilder { tags: Some(tags), ..self }
    }

    /// Build the params.  Errs exactly when the required hostname is
    /// missing; the request timestamp starts at zero and is stamped at
    /// request time.
    pub fn build(self) -> (r: Result<Params, ParamsError>)
        ensures
            r is Ok <==> self.spec_hostname() is Some,
            r matches Ok(p) ==> {
                &&& Some(p.hostname) == self.spec_hostname()
                &&& p.mac == self.spec_mac()
                &&& p.ip == self.spec_ip()
                &&& p.tags == self.spec_tags()
                &&& p.now == 0
            },
    {
        let ParamsBuilder { hostname, mac, ip, tags } = self;
        match hostname {
            Some(hostname) => Ok(Params { hostname, mac, ip, now: 0, tags }),
            None => Err(
                ParamsError::RequiredField(
                    String::from_str("hostname is required in a ParamsBuilder"),
                ),
            ),
        }
    }
}

} // verus!
