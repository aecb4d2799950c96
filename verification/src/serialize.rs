//! Streaming, field-by-field encoding of log lines into a pooled segmented
//! buffer.
//!
//! Each record is written directly as compact JSON text: an object with the
//! fields in a fixed canonical order, every absent optional field omitted
//! entirely, strings escaped byte by byte, and the timestamp in plain
//! decimal.  The envelope serializer wraps a sequence of such records in
//! the outer `{"lines":[...]}` container, placing separators between
//! records.  No intermediate tree or string of the whole record is ever
//! built: everything goes straight into the buffer.

use vstd::prelude::*;
use vstd::slice::slice_subrange;
use vstd::utf8::is_ascii_chars;
use crate::escape::escaped;
use crate::escape::escape_code;
use crate::escape::escape_of;
use crate::escape::from_escape_table;
use crate::escape::hex_digit_of;
use crate::escape::lemma_escaped_clear_run;
use crate::escape::lemma_escaped_concat;
use crate::body::KeyValueMap;
use crate::body::Line;
use crate::segmented_buffer::SegmentedPoolBuf;
use crate::segmented_buffer::SegmentedPoolBufError;

verus! {

#[verifier::external_type_specification]
#[verifier::external_body]
pub struct ExValue(serde_json::Value);

#[verifier::external_type_specification]
#[verifier::external_body]
pub struct ExJsonError(serde_json::Error);

/// The compact JSON text that serde_json produces for a value.  The text is
/// a function of the value alone: the underlying map keeps its entries in a
/// fixed order.
pub uninterp spec fn value_json(v: serde_json::Value) -> Seq<u8>;

/// Relies on serde_json's `to_vec`: the compact JSON encoding of the value,
/// written to a fresh byte vector.  With this crate's configuration the
/// call takes no failing path: the value's maps carry string keys, its
/// numbers are finite, and the sink is a growable vector.
#[verifier::external_body]
fn value_to_json_bytes(v: &serde_json::Value) -> (r: Result<Vec<u8>, serde_json::Error>)
    ensures
        r is Ok,
        r matches Ok(b) ==> b@ == value_json(*v),
{
    serde_json::to_vec(v)
}

/// The compact JSON bytes of a structured value, as verified code can hold
/// and measure them.
pub fn value_to_json(v: &serde_json::Value) -> (r: Vec<u8>)
    ensures
        r@ == value_json(*v),
{
    match value_to_json_bytes(v) {
        Ok(b) => b,
        Err(_) => {
            proof {
                assert(false);
            }
            Vec::new()
        },
    }
}

/// Error of serializing one log line.
#[derive(Debug, PartialEq, Eq, Structural)]
pub enum IngestLineSerializeError {
    /// The buffer refused to grow past its configured ceiling.
    BufferFull,
}

/// The UTF-8 bytes of a string.
pub open spec fn sbytes(s: Seq<char>) -> Seq<u8> {
    vstd::utf8::encode_utf8(s)
}

/// A byte sequence as a quoted, escaped JSON string.
pub open spec fn json_quote(s: Seq<u8>) -> Seq<u8> {
    seq![0x22u8] + escaped(s) + seq![0x22u8]
}

/// The decimal digits of a non-negative number.
pub open spec fn dec_digits(n: nat) -> Seq<u8>
    decreases n,
{
    if n < 10 {
        seq![(0x30 + n) as u8]
    } else {
        dec_digits(n / 10) + seq![(0x30 + n % 10) as u8]
    }
}

/// A signed number in decimal ASCII, no quoting.
pub open spec fn i64_dec(n: int) -> Seq<u8> {
    if n < 0 {
        seq![0x2du8] + dec_digits((-n) as nat)
    } else {
        dec_digits(n as nat)
    }
}

/// Fragments joined by commas.
pub open spec fn joined(fs: Seq<Seq<u8>>) -> Seq<u8>
    decreases fs.len(),
{
    if fs.len() == 0 {
        seq![]
    } else if fs.len() == 1 {
        fs[0]
    } else {
        joined(fs.drop_last()) + seq![0x2cu8] + fs.last()
    }
}

/// The separator owed before a fragment: nothing for the first, a comma
/// after that.
pub open spec fn sep(first: bool) -> Seq<u8> {
    if first {
        seq![]
    } else {
        seq![0x2cu8]
    }
}

/// Joining one more fragment appends the separator and the fragment.
pub proof fn lemma_joined_push(fs: Seq<Seq<u8>>, f: Seq<u8>)
    ensures
        joined(fs.push(f)) == joined(fs) + sep(fs.len() == 0) + f,
{
    if fs.len() == 0 {
        assert(joined(fs.push(f)) == fs.push(f)[0]);
        assert(joined(fs) + sep(true) + f =~= f);
        assert(fs.push(f)[0] == f);
    } else {
        assert(fs.push(f).drop_last() =~= fs);
        assert(fs.push(f).last() == f);
    }
}

/// One key value pair of a depth-one map, as JSON text.
pub open spec fn pair_frag(p: (Seq<char>, Seq<char>)) -> Seq<u8> {
    json_quote(sbytes(p.0)) + seq![0x3au8] + json_quote(sbytes(p.1))
}

/// A key value map as a JSON object of string keys and string values, in
/// the map's own order.
pub open spec fn map_json(m: Seq<(Seq<char>, Seq<char>)>) -> Seq<u8> {
    seq![0x7bu8] + joined(m.map_values(|p: (Seq<char>, Seq<char>)| pair_frag(p))) + seq![0x7du8]
}

/// One object member: a quoted key, a colon, and the value's JSON text.
pub open spec fn member(key: Seq<char>, val: Seq<u8>) -> Seq<u8> {
    json_quote(sbytes(key)) + seq![0x3au8] + val
}

/// A singleton fragment when the field is present, nothing otherwise.
pub open spec fn opt_field(present: bool, frag: Seq<u8>) -> Seq<Seq<u8>> {
    if present {
        seq![frag]
    } else {
        seq![]
    }
}

/// The members of one record, present fields only, in the fixed canonical
/// order: annotation, app, env, file, host, label, level, meta, then the
/// required line and timestamp.
pub open spec fn fields_of(l: Line) -> Seq<Seq<u8>> {
    fields_suffix(l, 1)
}

/// One record as compact JSON text.
pub open spec fn line_json(l: Line) -> Seq<u8> {
    seq![0x7bu8] + joined(fields_of(l)) + seq![0x7du8]
}

/// The opening of the envelope: the outer object, its one key, and the
/// record array's bracket.
pub open spec fn envelope_open() -> Seq<u8> {
    seq![0x7bu8] + json_quote(sbytes("lines"@)) + seq![0x3au8] + seq![0x5bu8]
}

/// The closing of the envelope: the array's and the object's end.
pub open spec fn envelope_close() -> Seq<u8> {
    seq![0x5du8, 0x7du8]
}

/// A whole request body: the envelope around the records, comma-separated,
/// in order.
pub open spec fn body_json(lines: Seq<Line>) -> Seq<u8> {
    envelope_open() + joined(lines.map_values(|l: Line| line_json(l))) + envelope_close()
}

/// Whether `extra` more bytes stay within the writer's ceiling, when one is
/// configured.
pub open spec fn fits(w: SegmentedPoolBuf, extra: int) -> bool {
    !(w.limited() && w.content().len() + extra > w.spec_allowed())
}

/// The standard bookkeeping every serializing step preserves: buffer
/// configuration and read cursor are untouched, already-written bytes stay
/// exactly as they were, and the pool's allocation counter grows by at most
/// twice the emitted length.
pub open spec fn emits(w0: SegmentedPoolBuf, w1: SegmentedPoolBuf, e: int) -> bool {
    &&& w1.wf()
    &&& w1.spec_segment_size() == w0.spec_segment_size()
    &&& w1.spec_max_size() == w0.spec_max_size()
    &&& w1.read_index() == w0.read_index()
    &&& w1.spec_pool().spec_max_reserve() == w0.spec_pool().spec_max_reserve()
    &&& w1.spec_pool().spec_total_allocated() <= w0.spec_pool().spec_total_allocated() + 2 * e
    &&& w0.content().len() <= w1.content().len()
    &&& w0.content() == w1.content().take(w0.content().len() as int)
}

/// Write raw bytes through, with the standard bookkeeping.
fn write_slice(w: &mut SegmentedPoolBuf, bytes: &[u8]) -> (r: Result<
    (),
    IngestLineSerializeError,
>)
    requires
        old(w).wf(),
        old(w).content().len() + bytes@.len() + old(w).spec_segment_size() <= usize::MAX,
        old(w).spec_pool().spec_total_allocated() + 2 * bytes@.len() <= usize::MAX,
    ensures
        emits(*old(w), *final(w), bytes@.len() as int),
        r is Ok ==> final(w).content() == old(w).content() + bytes@,
        r is Ok <==> fits(*old(w), bytes@.len() as int),
        r is Err ==> r == Err::<(), IngestLineSerializeError>(
            IngestLineSerializeError::BufferFull,
        ),
    {
    let res = w.write(bytes);
    match res {
        Ok(_) => {
            proof {
                assert(old(w).content() =~= final(w).content().take(
                    old(w).content().len() as int));
            }
            Ok(())
        },
        Err(_) => {
            proof {
                assert(old(w).content() =~= final(w).content().take(
                    old(w).content().len() as int));
            }
            Err(IngestLineSerializeError::BufferFull)
        },
    }
}

/// Scan the bytes for runs that need no escape, writing each run as one
/// fragment and flushing an escape sequence only at a byte that requires
/// one.
#[verifier::loop_isolation(false)]
pub fn format_escaped_str_contents(w: &mut SegmentedPoolBuf, s: &[u8]) -> (r: Result<
    (),
    IngestLineSerializeError,
>)
    requires
        old(w).wf(),
        old(w).content().len() + escaped(s@).len() + old(w).spec_segment_size() <= usize::MAX,
        old(w).spec_pool().spec_total_allocated() + 2 * escaped(s@).len() <= usize::MAX,
    ensures
        emits(*old(w), *final(w), escaped(s@).len() as int),
        r is Ok ==> final(w).content() == old(w).content() + escaped(s@),
        r is Ok <==> fits(*old(w), escaped(s@).len() as int),
        r is Err ==> r == Err::<(), IngestLineSerializeError>(
            IngestLineSerializeError::BufferFull,
        ),
{
    let ghost total = escaped(s@).len() as int;
    let mut start: usize = 0;
    let mut i: usize = 0;
    proof {
        assert(s@.take(0) =~= Seq::<u8>::empty());
        assert(escaped(Seq::<u8>::empty()) =~= Seq::<u8>::empty());
        assert(old(w).content() + Seq::<u8>::empty() =~= old(w).content());
        lemma_emits_refl(*old(w));
    }
    while i < s.len()
        invariant
            start <= i <= s@.len(),
            emits(*old(w), *w, escaped(s@.take(start as int)).len() as int),
            w.content() == old(w).content() + escaped(s@.take(start as int)),
            forall|j: int| start <= j < i ==> escape_code(#[trigger] s@[j]) == 0,
        decreases s@.len() - i,
    {
        let c = from_escape_table(s[i]);
        if c != 0 {
            let ghost partial0 = escaped(s@.take(start as int)).len() as int;
            proof {
                lemma_escape_split(s@, start as int, i as int);
            }
            if start < i {
                let run = slice_subrange(s, start, i);
                proof {
                    lemma_escaped_clear_run(run@);
                }
                let ghost pre = *w;
                let res = write_slice(w, run);
                proof {
                    lemma_emits_trans(*old(w), pre, *w, partial0, run@.len() as int);
                    lemma_emits_weaken(*old(w), *w, partial0 + run@.len(), total);
                }
                match res {
                    Ok(_) => {},
                    Err(e) => {
                        proof {
                            assert(!fits(*old(w), total));
                        }
                        return Err(e);
                    },
                }
            }
            proof {
                assert(w.content() =~= old(w).content() + escaped(s@.take(i as int)));
            }
            let ghost partial1 = escaped(s@.take(i as int)).len() as int;
            let b = s[i];
            let mut esc: Vec<u8> = Vec::new();
            esc.push(0x5cu8);
            if c == 0x75u8 {
                esc.push(0x75u8);
                esc.push(0x30u8);
                esc.push(0x30u8);
                esc.push(hex_digit_of(b / 16));
                esc.push(hex_digit_of(b % 16));
            } else {
                esc.push(c);
            }
            proof {
                assert(esc@ =~= escape_of(s@[i as int]));
                lemma_escape_split_one(s@, i as int);
            }
            let ghost pre = *w;
            let res = write_slice(w, esc.as_slice());
            proof {
                lemma_emits_trans(*old(w), pre, *w, partial1, esc@.len() as int);
                lemma_emits_weaken(*old(w), *w, partial1 + esc@.len(), total);
            }
            match res {
                Ok(_) => {},
                Err(e) => {
                    proof {
                        assert(!fits(*old(w), total));
                    }
                    return Err(e);
                },
            }
            start = i + 1;
            proof {
                assert(w.content() =~= old(w).content() + escaped(s@.take(start as int)));
            }
        }
        i = i + 1;
    }
    let ghost partial0 = escaped(s@.take(start as int)).len() as int;
    proof {
        lemma_escape_split(s@, start as int, s@.len() as int);
        assert(s@.take(s@.len() as int) =~= s@);
        assert(s@.subrange(start as int, s@.len() as int) =~= s@.skip(start as int));
    }
    if start < s.len() {
        let run = slice_subrange(s, start, s.len());
        proof {
            lemma_escaped_clear_run(run@);
        }
        let ghost pre = *w;
        let res = write_slice(w, run);
        proof {
            lemma_emits_trans(*old(w), pre, *w, partial0, run@.len() as int);
            lemma_emits_weaken(*old(w), *w, partial0 + run@.len(), total);
        }
        match res {
            Ok(_) => {},
            Err(e) => {
                proof {
                    assert(!fits(*old(w), total));
                }
                return Err(e);
            },
        }
    }
    proof {
        assert(w.content() =~= old(w).content() + escaped(s@));
        lemma_emits_weaken(*old(w), *w, escaped(s@.take(start as int)).len() + (
        if start < s@.len() {
            escaped(s@.subrange(start as int, s@.len() as int)).len() as int
        } else {
            0int
        }), total);
        if w.limited() {
            w.lemma_content_within_allowed();
        }
    }
    Ok(())
}

/// Escaped prefixes decompose: the escape of a take is the escape of a
/// shorter take plus the escape of the bytes in between.
proof fn lemma_escape_split(s: Seq<u8>, a: int, b: int)
    requires
        0 <= a <= b <= s.len(),
    ensures
        escaped(s.take(b)) == escaped(s.take(a)) + escaped(s.subrange(a, b)),
        escaped(s.take(a)).len() + escaped(s.subrange(a, b)).len() <= escaped(s).len(),
{
    assert(s.take(b) =~= s.take(a) + s.subrange(a, b));
    lemma_escaped_concat(s.take(a), s.subrange(a, b));
    assert(s =~= s.take(b) + s.subrange(b, s.len() as int));
    lemma_escaped_concat(s.take(b), s.subrange(b, s.len() as int));
}

/// One escaped byte extends an escaped prefix.
proof fn lemma_escape_split_one(s: Seq<u8>, i: int)
    requires
        0 <= i < s.len(),
    ensures
        escaped(s.take(i + 1)) == escaped(s.take(i)) + escape_of(s[i]),
        escaped(s.take(i)).len() + escape_of(s[i]).len() <= escaped(s).len(),
{
    crate::escape::lemma_escaped_push(s.take(i), s[i]);
    assert(s.take(i).push(s[i]) =~= s.take(i + 1));
    lemma_escape_split(s, i, i + 1);
    assert(s.subrange(i, i + 1) =~= seq![s[i]]);
    assert(seq![s[i]].drop_first() =~= Seq::<u8>::empty());
    assert(escaped(seq![s[i]]) == escape_of(s[i]) + escaped(Seq::<u8>::empty()));
    assert(escape_of(s[i]) + Seq::<u8>::empty() =~= escape_of(s[i]));
    assert(escaped(seq![s[i]]) =~= escape_of(s[i]));
}

/// Serializing steps chain: two in a row emit the sum.
pub proof fn lemma_emits_trans(w0: SegmentedPoolBuf, w1: SegmentedPoolBuf, w2: SegmentedPoolBuf, e1: int, e2: int)
    requires
        emits(w0, w1, e1),
        emits(w1, w2, e2),
    ensures
        emits(w0, w2, e1 + e2),
{
    assert(w0.content() =~= w2.content().take(w0.content().len() as int));
}

/// Emitting within a smaller budget also stays within a larger one.
pub proof fn lemma_emits_weaken(w0: SegmentedPoolBuf, w1: SegmentedPoolBuf, e1: int, e2: int)
    requires
        emits(w0, w1, e1),
        e1 <= e2,
    ensures
        emits(w0, w1, e2),
{
}

/// A serializing step that emits nothing.
pub proof fn lemma_emits_refl(w: SegmentedPoolBuf)
    requires
        w.wf(),
    ensures
        emits(w, w, 0),
{
    assert(w.content() =~= w.content().take(w.content().len() as int));
}


/// Append the decimal digits of a number, most significant first.
fn push_digits(x: u64, v: &mut Vec<u8>)
    ensures
        final(v)@ == old(v)@ + dec_digits(x as nat),
    decreases x,
{
    if x < 10 {
        v.push(0x30u8 + x as u8);
        proof {
            assert(final(v)@ =~= old(v)@ + dec_digits(x as nat));
        }
    } else {
        push_digits(x / 10, v);
        v.push(0x30u8 + (x % 10) as u8);
        proof {
            assert(final(v)@ =~= old(v)@ + dec_digits(x as nat));
        }
    }
}

/// The decimal ASCII form of a signed number.
pub(crate) fn i64_digits(n: i64) -> (v: Vec<u8>)
    ensures
        v@ == i64_dec(n as int),
{
    let mut v: Vec<u8> = Vec::new();
    if n < 0 {
        v.push(0x2du8);
        let m: u64 = ((-(n + 1)) as u64) + 1;
        proof {
            assert(m as nat == (-(n as int)) as nat);
        }
        push_digits(m, &mut v);
        proof {
            assert(v@ =~= i64_dec(n as int));
        }
    } else {
        push_digits(n as u64, &mut v);
        proof {
            assert(v@ =~= i64_dec(n as int));
        }
    }
    v
}

/// Write a signed number in plain decimal, no quoting.
pub fn write_i64(w: &mut SegmentedPoolBuf, n: i64) -> (r: Result<(), IngestLineSerializeError>)
    requires
        old(w).wf(),
        old(w).content().len() + i64_dec(n as int).len() + old(w).spec_segment_size()
            <= usize::MAX,
        old(w).spec_pool().spec_total_allocated() + 2 * i64_dec(n as int).len() <= usize::MAX,
    ensures
        emits(*old(w), *final(w), i64_dec(n as int).len() as int),
        r is Ok ==> final(w).content() == old(w).content() + i64_dec(n as int),
        r is Ok <==> fits(*old(w), i64_dec(n as int).len() as int),
        r is Err ==> r == Err::<(), IngestLineSerializeError>(
            IngestLineSerializeError::BufferFull,
        ),
{
    let digits = i64_digits(n);
    write_slice(w, digits.as_slice())
}

/// Write a byte sequence as one quoted, escaped JSON string.
pub fn write_json_string(w: &mut SegmentedPoolBuf, s: &[u8]) -> (r: Result<
    (),
    IngestLineSerializeError,
>)
    requires
        old(w).wf(),
        old(w).content().len() + json_quote(s@).len() + old(w).spec_segment_size()
            <= usize::MAX,
        old(w).spec_pool().spec_total_allocated() + 2 * json_quote(s@).len() <= usize::MAX,
    ensures
        emits(*old(w), *final(w), json_quote(s@).len() as int),
        r is Ok ==> final(w).content() == old(w).content() + json_quote(s@),
        r is Ok <==> fits(*old(w), json_quote(s@).len() as int),
        r is Err ==> r == Err::<(), IngestLineSerializeError>(
            IngestLineSerializeError::BufferFull,
        ),
{
    let ghost total = json_quote(s@).len() as int;
    let quote: [u8; 1] = [0x22u8];
    let ghost w0 = *w;
    proof {
        lemma_emits_refl(w0);
    }
    let r1 = write_slice(w, quote.as_slice());
    proof {
        lemma_emits_weaken(*old(w), *w, 1, total);
    }
    match r1 {
        Ok(_) => {},
        Err(e) => {
            return Err(e);
        },
    }
    let ghost w1 = *w;
    let r2 = format_escaped_str_contents(w, s);
    proof {
        lemma_emits_trans(*old(w), w1, *w, 1, escaped(s@).len() as int);
        lemma_emits_weaken(*old(w), *w, 1 + escaped(s@).len() as int, total);
    }
    match r2 {
        Ok(_) => {},
        Err(e) => {
            return Err(e);
        },
    }
    let ghost w2 = *w;
    let r3 = write_slice(w, quote.as_slice());
    proof {
        lemma_emits_trans(*old(w), w2, *w, 1 + escaped(s@).len() as int, 1);
    }
    match r3 {
        Ok(_) => {},
        Err(e) => {
            return Err(e);
        },
    }
    proof {
        assert(final(w).content() =~= old(w).content() + json_quote(s@));
    }
    Ok(())
}

/// Joined prefixes never outgrow the whole.
proof fn lemma_joined_take_mono(fs: Seq<Seq<u8>>, k: int)
    requires
        0 <= k <= fs.len(),
    ensures
        joined(fs.take(k)).len() <= joined(fs).len(),
    decreases fs.len() - k,
{
    if k == fs.len() {
        assert(fs.take(k) =~= fs);
    } else {
        lemma_joined_take_mono(fs, k + 1);
        lemma_joined_push(fs.take(k), fs[k]);
        assert(fs.take(k).push(fs[k]) =~= fs.take(k + 1));
    }
}

/// Joining the next fragment of a prefix appends its separator and text.
proof fn lemma_joined_take_step(fs: Seq<Seq<u8>>, k: int)
    requires
        0 <= k < fs.len(),
    ensures
        joined(fs.take(k + 1)) == joined(fs.take(k)) + sep(k == 0) + fs[k],
        joined(fs.take(k)).len() + sep(k == 0).len() + fs[k].len() <= joined(fs).len(),
{
    lemma_joined_push(fs.take(k), fs[k]);
    assert(fs.take(k).push(fs[k]) =~= fs.take(k + 1));
    lemma_joined_take_mono(fs, k + 1);
}

/// Write a key value map as a JSON object of string keys and string values,
/// in the map's own order.
#[verifier::rlimit(60)]
#[verifier::loop_isolation(false)]
pub fn write_map(w: &mut SegmentedPoolBuf, m: &KeyValueMap) -> (r: Result<
    (),
    IngestLineSerializeError,
>)
    requires
        old(w).wf(),
        old(w).content().len() + map_json(m@).len() + old(w).spec_segment_size() <= usize::MAX,
        old(w).spec_pool().spec_total_allocated() + 2 * map_json(m@).len() <= usize::MAX,
    ensures
        emits(*old(w), *final(w), map_json(m@).len() as int),
        r is Ok ==> final(w).content() == old(w).content() + map_json(m@),
        r is Ok <==> fits(*old(w), map_json(m@).len() as int),
        r is Err ==> r == Err::<(), IngestLineSerializeError>(
            IngestLineSerializeError::BufferFull,
        ),
{
    let ghost frags = m@.map_values(|p: (Seq<char>, Seq<char>)| pair_frag(p));
    let ghost total = map_json(m@).len() as int;
    let brace_open: [u8; 1] = [0x7bu8];
    let brace_close: [u8; 1] = [0x7du8];
    let comma: [u8; 1] = [0x2cu8];
    let colon: [u8; 1] = [0x3au8];
    proof {
        lemma_emits_refl(*old(w));
        lemma_joined_take_mono(frags, 0);
        assert(frags.take(0) =~= Seq::<Seq<u8>>::empty());
    }
    let r0 = write_slice(w, brace_open.as_slice());
    proof {
        lemma_emits_weaken(*old(w), *w, 1, total);
    }
    match r0 {
        Ok(_) => {},
        Err(e) => {
            return Err(e);
        },
    }
    let mut i: usize = 0;
    while i < m.len()
        invariant
            i <= m@.len(),
            emits(*old(w), *w, 1 + joined(frags.take(i as int)).len() as int),
            w.content() == old(w).content() + seq![0x7bu8] + joined(frags.take(i as int)),
            joined(frags.take(i as int)).len() <= joined(frags).len(),
        decreases m@.len() - i,
    {
        let ghost partial = 1 + joined(frags.take(i as int)).len() as int;
        proof {
            lemma_joined_take_step(frags, i as int);
        }
        if i > 0 {
            let ghost pre = *w;
            let rc = write_slice(w, comma.as_slice());
            proof {
                lemma_emits_trans(*old(w), pre, *w, partial, 1);
                lemma_emits_weaken(*old(w), *w, partial + 1, total);
            }
            match rc {
                Ok(_) => {},
                Err(e) => {
                    return Err(e);
                },
            }
        }
        let (k, v) = m.pair_at(i);
        let ks = k.as_str();
        let vs = v.as_str();
        let ghost pre = *w;
        let rk = write_json_string(w, ks.as_bytes());
        proof {
            lemma_emits_trans(*old(w), pre, *w, partial + sep(i as int == 0).len(), json_quote(
                sbytes(m@[i as int].0)).len() as int);
            lemma_emits_weaken(*old(w), *w, partial + sep(i as int == 0).len() + json_quote(
                sbytes(m@[i as int].0)).len(), total);
        }
        match rk {
            Ok(_) => {},
            Err(e) => {
                return Err(e);
            },
        }
        let ghost pre2 = *w;
        let rcol = write_slice(w, colon.as_slice());
        proof {
            lemma_emits_trans(*old(w), pre2, *w, partial + sep(i as int == 0).len() + json_quote(
                sbytes(m@[i as int].0)).len(), 1);
            lemma_emits_weaken(*old(w), *w, partial + sep(i as int == 0).len() + json_quote(
                sbytes(m@[i as int].0)).len() + 1, total);
        }
        match rcol {
            Ok(_) => {},
            Err(e) => {
                return Err(e);
            },
        }
        let ghost pre3 = *w;
        let rv = write_json_string(w, vs.as_bytes());
        proof {
            lemma_emits_trans(*old(w), pre3, *w, partial + sep(i as int == 0).len() + json_quote(
                sbytes(m@[i as int].0)).len() + 1, json_quote(sbytes(m@[i as int].1)).len() as int);
            lemma_emits_weaken(*old(w), *w, partial + sep(i as int == 0).len() + pair_frag(
                m@[i as int]).len(), total);
        }
        match rv {
            Ok(_) => {},
            Err(e) => {
                return Err(e);
            },
        }
        i = i + 1;
        proof {
            assert(frags[i - 1] == pair_frag(m@[i - 1]));
            assert(w.content() =~= old(w).content() + seq![0x7bu8] + joined(frags.take(i as int)));
        }
    }
    proof {
        assert(frags.take(frags.len() as int) =~= frags);
    }
    let ghost prefinal = *w;
    let rb = write_slice(w, brace_close.as_slice());
    proof {
        lemma_emits_trans(*old(w), prefinal, *w, 1 + joined(frags).len() as int, 1);
    }
    match rb {
        Ok(_) => {},
        Err(e) => {
            return Err(e);
        },
    }
    proof {
        assert(final(w).content() =~= old(w).content() + map_json(m@));
    }
    Ok(())
}

/// Writes one record's fields, in the fixed canonical order, directly into
/// a pooled segmented buffer.
pub struct IngestLineSerializer {
    buf: SegmentedPoolBuf,
}

impl IngestLineSerializer {
    /// The buffer the serializer writes into.
    pub closed spec fn spec_buf(self) -> SegmentedPoolBuf {
        self.buf
    }

    /// Wrap a buffer for record serialization.
    pub fn from_buffer(buf: SegmentedPoolBuf) -> (s: IngestLineSerializer)
        ensures
            s.spec_buf() == buf,
    {
        IngestLineSerializer { buf }
    }

    /// Hand the buffer back.
    pub fn into_inner(self) -> (b: SegmentedPoolBuf)
        ensures
            b == self.spec_buf(),
    {
        let IngestLineSerializer { buf } = self;
        buf
    }
}


/// Write the separator owed before a field, then its quoted key and the
/// key value separator, and clear the first-field flag.
fn serde_serialize_key_to_buf(w: &mut SegmentedPoolBuf, first: &mut bool, key: &str) -> (r:
    Result<(), IngestLineSerializeError>)
    requires
        old(w).wf(),
        old(w).content().len() + sep(*old(first)).len() + json_quote(sbytes(key@)).len() + 1
            + old(w).spec_segment_size() <= usize::MAX,
        old(w).spec_pool().spec_total_allocated() + 2 * (sep(*old(first)).len() + json_quote(
            sbytes(key@),
        ).len() + 1) <= usize::MAX,
    ensures
        emits(*old(w), *final(w), (sep(*old(first)).len() + json_quote(sbytes(key@)).len()
            + 1) as int),
        *final(first) == false,
        r is Ok ==> final(w).content() == old(w).content() + sep(*old(first)) + json_quote(
            sbytes(key@),
        ) + seq![0x3au8],
        r is Ok <==> fits(
            *old(w),
            (sep(*old(first)).len() + json_quote(sbytes(key@)).len() + 1) as int,
        ),
        r is Err ==> r == Err::<(), IngestLineSerializeError>(
            IngestLineSerializeError::BufferFull,
        ),
{
    let ghost total = sep(*old(first)).len() + json_quote(sbytes(key@)).len() + 1;
    let comma: [u8; 1] = [0x2cu8];
    let colon: [u8; 1] = [0x3au8];
    proof {
        lemma_emits_refl(*old(w));
    }
    if !*first {
        let rc = write_slice(w, comma.as_slice());
        proof {
            lemma_emits_weaken(*old(w), *w, 1, total as int);
        }
        match rc {
            Ok(_) => {},
            Err(e) => {
                *first = false;
                return Err(e);
            },
        }
    }
    *first = false;
    let ghost w1 = *w;
    let kb = key.as_bytes();
    let rk = write_json_string(w, kb);
    proof {
        lemma_emits_trans(*old(w), w1, *w, sep(*old(first)).len() as int, json_quote(
            sbytes(key@)).len() as int);
        lemma_emits_weaken(*old(w), *w, (sep(*old(first)).len() + json_quote(
            sbytes(key@)).len()) as int, total as int);
    }
    match rk {
        Ok(_) => {},
        Err(e) => {
            return Err(e);
        },
    }
    let ghost w2 = *w;
    let rcol = write_slice(w, colon.as_slice());
    proof {
        lemma_emits_trans(*old(w), w2, *w, (sep(*old(first)).len() + json_quote(
            sbytes(key@)).len()) as int, 1);
    }
    match rcol {
        Ok(_) => {},
        Err(e) => {
            return Err(e);
        },
    }
    proof {
        assert(final(w).content() =~= old(w).content() + sep(*old(first)) + json_quote(
            sbytes(key@)) + seq![0x3au8]);
    }
    Ok(())
}

/// The bytes one member write emits: the owed separator, the quoted key,
/// the key value separator, and the value's text.
pub open spec fn member_emission(first: bool, key: Seq<char>, val: Seq<u8>) -> Seq<u8> {
    sep(first) + member(key, val)
}

/// Write one string-valued member.
fn write_str_member(w: &mut SegmentedPoolBuf, first: &mut bool, key: &str, val: &str) -> (r:
    Result<(), IngestLineSerializeError>)
    requires
        old(w).wf(),
        old(w).content().len() + member_emission(*old(first), key@, json_quote(
            sbytes(val@),
        )).len() + old(w).spec_segment_size() <= usize::MAX,
        old(w).spec_pool().spec_total_allocated() + 2 * member_emission(*old(first), key@,
            json_quote(sbytes(val@))).len() <= usize::MAX,
    ensures
        emits(*old(w), *final(w), member_emission(*old(first), key@, json_quote(
            sbytes(val@),
        )).len() as int),
        *final(first) == false,
        r is Ok ==> final(w).content() == old(w).content() + member_emission(*old(first), key@,
            json_quote(sbytes(val@))),
        r is Ok <==> fits(
            *old(w),
            member_emission(*old(first), key@, json_quote(sbytes(val@))).len() as int,
        ),
        r is Err ==> r == Err::<(), IngestLineSerializeError>(
            IngestLineSerializeError::BufferFull,
        ),
{
    let ghost total = member_emission(*old(first), key@, json_quote(sbytes(val@))).len() as int;
    let rk = serde_serialize_key_to_buf(w, first, key);
    proof {
        lemma_emits_weaken(*old(w), *w, (sep(*old(first)).len() + json_quote(
            sbytes(key@)).len() + 1) as int, total);
    }
    match rk {
        Ok(_) => {},
        Err(e) => {
            return Err(e);
        },
    }
    let ghost w1 = *w;
    let vb = val.as_bytes();
    let rv = write_json_string(w, vb);
    proof {
        lemma_emits_trans(*old(w), w1, *w, (sep(*old(first)).len() + json_quote(
            sbytes(key@)).len() + 1) as int, json_quote(sbytes(val@)).len() as int);
    }
    match rv {
        Ok(_) => {},
        Err(e) => {
            return Err(e);
        },
    }
    proof {
        assert(final(w).content() =~= old(w).content() + member_emission(*old(first), key@,
            json_quote(sbytes(val@))));
    }
    Ok(())
}

/// Write one map-valued member.
fn write_map_member(w: &mut SegmentedPoolBuf, first: &mut bool, key: &str, val: &KeyValueMap)
    -> (r: Result<(), IngestLineSerializeError>)
    requires
        old(w).wf(),
        old(w).content().len() + member_emission(*old(first), key@, map_json(val@)).len() + old(
            w,
        ).spec_segment_size() <= usize::MAX,
        old(w).spec_pool().spec_total_allocated() + 2 * member_emission(*old(first), key@,
            map_json(val@)).len() <= usize::MAX,
    ensures
        emits(*old(w), *final(w), member_emission(*old(first), key@, map_json(val@)).len() as int),
        *final(first) == false,
        r is Ok ==> final(w).content() == old(w).content() + member_emission(*old(first), key@,
            map_json(val@)),
        r is Ok <==> fits(
            *old(w),
            member_emission(*old(first), key@, map_json(val@)).len() as int,
        ),
        r is Err ==> r == Err::<(), IngestLineSerializeError>(
            IngestLineSerializeError::BufferFull,
        ),
{
    let ghost total = member_emission(*old(first), key@, map_json(val@)).len() as int;
    let rk = serde_serialize_key_to_buf(w, first, key);
    proof {
        lemma_emits_weaken(*old(w), *w, (sep(*old(first)).len() + json_quote(
            sbytes(key@)).len() + 1) as int, total);
    }
    match rk {
        Ok(_) => {},
        Err(e) => {
            return Err(e);
        },
    }
    let ghost w1 = *w;
    let rv = write_map(w, val);
    proof {
        lemma_emits_trans(*old(w), w1, *w, (sep(*old(first)).len() + json_quote(
            sbytes(key@)).len() + 1) as int, map_json(val@).len() as int);
    }
    match rv {
        Ok(_) => {},
        Err(e) => {
            return Err(e);
        },
    }
    proof {
        assert(final(w).content() =~= old(w).content() + member_emission(*old(first), key@,
            map_json(val@)));
    }
    Ok(())
}

/// Write the timestamp member: decimal digits, no quoting.
fn write_i64_member(w: &mut SegmentedPoolBuf, first: &mut bool, key: &str, val: i64) -> (r:
    Result<(), IngestLineSerializeError>)
    requires
        old(w).wf(),
        old(w).content().len() + member_emission(*old(first), key@, i64_dec(val as int)).len()
            + old(w).spec_segment_size() <= usize::MAX,
        old(w).spec_pool().spec_total_allocated() + 2 * member_emission(*old(first), key@,
            i64_dec(val as int)).len() <= usize::MAX,
    ensures
        emits(*old(w), *final(w), member_emission(*old(first), key@, i64_dec(
            val as int,
        )).len() as int),
        *final(first) == false,
        r is Ok ==> final(w).content() == old(w).content() + member_emission(*old(first), key@,
            i64_dec(val as int)),
        r is Ok <==> fits(
            *old(w),
            member_emission(*old(first), key@, i64_dec(val as int)).len() as int,
        ),
        r is Err ==> r == Err::<(), IngestLineSerializeError>(
            IngestLineSerializeError::BufferFull,
        ),
{
    let ghost total = member_emission(*old(first), key@, i64_dec(val as int)).len() as int;
    let rk = serde_serialize_key_to_buf(w, first, key);
    proof {
        lemma_emits_weaken(*old(w), *w, (sep(*old(first)).len() + json_quote(
            sbytes(key@)).len() + 1) as int, total);
    }
    match rk {
        Ok(_) => {},
        Err(e) => {
            return Err(e);
        },
    }
    let ghost w1 = *w;
    let rv = write_i64(w, val);
    proof {
        lemma_emits_trans(*old(w), w1, *w, (sep(*old(first)).len() + json_quote(
            sbytes(key@)).len() + 1) as int, i64_dec(val as int).len() as int);
    }
    match rv {
        Ok(_) => {},
        Err(e) => {
            return Err(e);
        },
    }
    proof {
        assert(final(w).content() =~= old(w).content() + member_emission(*old(first), key@,
            i64_dec(val as int)));
    }
    Ok(())
}

/// Write the metadata member: the key, then the compact JSON the
/// structured-value encoder produces for the value.
fn write_value_member(w: &mut SegmentedPoolBuf, first: &mut bool, key: &str,
    val: &serde_json::Value) -> (r: Result<(), IngestLineSerializeError>)
    requires
        old(w).wf(),
        old(w).content().len() + member_emission(*old(first), key@, value_json(*val)).len()
            + old(w).spec_segment_size() <= usize::MAX,
        old(w).spec_pool().spec_total_allocated() + 2 * member_emission(*old(first), key@,
            value_json(*val)).len() <= usize::MAX,
    ensures
        emits(*old(w), *final(w), member_emission(*old(first), key@, value_json(
            *val,
        )).len() as int),
        *final(first) == false,
        r is Ok ==> final(w).content() == old(w).content() + member_emission(*old(first), key@,
            value_json(*val)),
        r is Ok <==> fits(
            *old(w),
            member_emission(*old(first), key@, value_json(*val)).len() as int,
        ),
        r is Err ==> r == Err::<(), IngestLineSerializeError>(
            IngestLineSerializeError::BufferFull,
        ),
{
    let ghost total = member_emission(*old(first), key@, value_json(*val)).len() as int;
    let bytes = value_to_json(val);
    let rk = serde_serialize_key_to_buf(w, first, key);
    proof {
        lemma_emits_weaken(*old(w), *w, (sep(*old(first)).len() + json_quote(
            sbytes(key@)).len() + 1) as int, total);
    }
    match rk {
        Ok(_) => {},
        Err(e) => {
            return Err(e);
        },
    }
    let ghost w1 = *w;
    let rv = write_slice(w, bytes.as_slice());
    proof {
        lemma_emits_trans(*old(w), w1, *w, (sep(*old(first)).len() + json_quote(
            sbytes(key@)).len() + 1) as int, value_json(*val).len() as int);
    }
    match rv {
        Ok(_) => {},
        Err(e) => {
            return Err(e);
        },
    }
    proof {
        assert(final(w).content() =~= old(w).content() + member_emission(*old(first), key@,
            value_json(*val)));
    }
    Ok(())
}

/// The member fragments one field position contributes: one fragment when
/// the field is present, none otherwise.
pub open spec fn field_chunk(l: Line, j: int) -> Seq<Seq<u8>> {
    if j < 1 {
        seq![]
    } else if j == 1 {
        opt_field(l.annotations is Some, member("annotation"@, map_json((l.annotations->Some_0)@)))
    } else if j == 2 {
        opt_field(l.app is Some, member("app"@, json_quote(sbytes((l.app->Some_0)@))))
    } else if j == 3 {
        opt_field(l.env is Some, member("env"@, json_quote(sbytes((l.env->Some_0)@))))
    } else if j == 4 {
        opt_field(l.file is Some, member("file"@, json_quote(sbytes((l.file->Some_0)@))))
    } else if j == 5 {
        opt_field(l.host is Some, member("host"@, json_quote(sbytes((l.host->Some_0)@))))
    } else if j == 6 {
        opt_field(l.labels is Some, member("label"@, map_json((l.labels->Some_0)@)))
    } else if j == 7 {
        opt_field(l.level is Some, member("level"@, json_quote(sbytes((l.level->Some_0)@))))
    } else if j == 8 {
        opt_field(l.meta is Some, member("meta"@, value_json(l.meta->Some_0)))
    } else if j == 9 {
        seq![member("line"@, json_quote(sbytes(l.line@)))]
    } else if j == 10 {
        seq![member("timestamp"@, i64_dec(l.timestamp as int))]
    } else {
        seq![]
    }
}

/// The member fragments from field position `j` on.
pub open spec fn fields_suffix(l: Line, j: int) -> Seq<Seq<u8>>
    decreases 11 - j,
{
    if 1 <= j <= 10 {
        field_chunk(l, j) + fields_suffix(l, j + 1)
    } else {
        seq![]
    }
}


/// The writer state in the middle of one record: the object is open, the
/// members in `done` are written and joined, the first-member flag agrees,
/// and the member fragments still owed are those from position `j` on.
pub open spec fn line_state(
    w0: SegmentedPoolBuf,
    w: SegmentedPoolBuf,
    l: Line,
    done: Seq<Seq<u8>>,
    firstv: bool,
    j: int,
) -> bool {
    &&& w.wf()
    &&& emits(w0, w, 1 + joined(done).len() as int)
    &&& w.content() == w0.content() + seq![0x7bu8] + joined(done)
    &&& firstv == (done.len() == 0)
    &&& done.len() <= fields_of(l).len()
    &&& fields_of(l).take(done.len() as int) == done
    &&& fields_of(l).skip(done.len() as int) == fields_suffix(l, j)
}

/// The room one record needs: its bytes fit the machine limits of the
/// buffer's length and of the pool's allocation counter.
pub open spec fn line_budget(w0: SegmentedPoolBuf, l: Line) -> bool {
    &&& w0.content().len() + line_json(l).len() + w0.spec_segment_size() <= usize::MAX
    &&& w0.spec_pool().spec_total_allocated() + 2 * line_json(l).len() <= usize::MAX
}


#[verifier::rlimit(100)]
#[verifier::spinoff_prover]
fn wl_step_1(
    w: &mut SegmentedPoolBuf,
    first: &mut bool,
    from: &Line,
    Ghost(w0): Ghost<SegmentedPoolBuf>,
    Ghost(done): Ghost<Seq<Seq<u8>>>,
) -> (res: (Result<(), IngestLineSerializeError>, Ghost<Seq<Seq<u8>>>))
    requires
        line_state(w0, *old(w), *from, done, *old(first), 1),
        line_budget(w0, *from),
    ensures
        res.0 is Ok ==> line_state(w0, *final(w), *from, res.1@, *final(first), 2),
        res.0 is Err ==> emits(w0, *final(w), line_json(*from).len() as int),
        res.0 == Err::<(), IngestLineSerializeError>(
            IngestLineSerializeError::BufferFull,
        ) ==> !fits(w0, line_json(*from).len() as int),
        res.0 is Err ==> res.0 == Err::<(), IngestLineSerializeError>(
            IngestLineSerializeError::BufferFull,
        ),
{
    let ghost fs = fields_of(*from);
    let ghost total = line_json(*from).len() as int;
    let ghost k = done.len() as int;
    proof {
        assert(fields_suffix(*from, 1) == field_chunk(*from, 1) + fields_suffix(*from, 2));
    }
    match &from.annotations {
        Some(m) => {
                proof {
                    assert(field_chunk(*from, 1) =~= seq![member("annotation"@, map_json((from.annotations->Some_0)@))]);
                    assert(fs.skip(k) == field_chunk(*from, 1) + fields_suffix(*from, 2));
                    assert(fs.skip(k).len() >= 1);
                    assert(k < fs.len());
                    assert(fs.skip(k)[0] == fs[k]);
                    assert(fs[k] == member("annotation"@, map_json((from.annotations->Some_0)@)));
                    lemma_joined_take_step(fs, k);
                }
                let ghost pre = *w;
                let ghost partial = 1 + joined(done).len() as int;
                let ghost eb = member_emission(*first, "annotation"@, map_json((from.annotations->Some_0)@)).len() as int;
                let r = write_map_member(w, first, "annotation", m);
                match r {
                    Ok(_) => {},
                    Err(e) => {
                        proof {
                            lemma_emits_trans(w0, pre, *w, partial, eb);
                            lemma_emits_weaken(w0, *w, partial + eb, total);
                            assert(!fits(w0, total));
                        }
                        return (Err(e), Ghost(done));
                    },
                }
                let ghost done2 = done.push(member("annotation"@, map_json((from.annotations->Some_0)@)));
                proof {
                    lemma_emits_trans(w0, pre, *w, partial, eb);
                    assert(fs.take(k + 1) =~= fs.take(k).push(fs[k]));
                    assert(done2 =~= fs.take(k + 1));
                    assert forall|ii: int|
                        0 <= ii < fs.skip(k + 1).len() implies fs.skip(k + 1)[ii] == fields_suffix(
                        *from, 2)[ii] by {
                        assert(fs.skip(k)[ii + 1] == fs[k + ii + 1]);
                    }
                    assert(fs.skip(k + 1) =~= fields_suffix(*from, 2));
                    assert(w.content() =~= w0.content() + seq![0x7bu8] + joined(done2));
                }
                (Ok(()), Ghost(done2))
        },
        None => {
            proof {
                assert(field_chunk(*from, 1) =~= Seq::<Seq<u8>>::empty());
                assert(fs.skip(k) =~= fields_suffix(*from, 2));
            }
            (Ok(()), Ghost(done))
        },
    }
}

#[verifier::rlimit(100)]
#[verifier::spinoff_prover]
fn wl_step_2(
    w: &mut SegmentedPoolBuf,
    first: &mut bool,
    from: &Line,
    Ghost(w0): Ghost<SegmentedPoolBuf>,
    Ghost(done): Ghost<Seq<Seq<u8>>>,
) -> (res: (Result<(), IngestLineSerializeError>, Ghost<Seq<Seq<u8>>>))
    requires
        line_state(w0, *old(w), *from, done, *old(first), 2),
        line_budget(w0, *from),
    ensures
        res.0 is Ok ==> line_state(w0, *final(w), *from, res.1@, *final(first), 3),
        res.0 is Err ==> emits(w0, *final(w), line_json(*from).len() as int),
        res.0 == Err::<(), IngestLineSerializeError>(
            IngestLineSerializeError::BufferFull,
        ) ==> !fits(w0, line_json(*from).len() as int),
        res.0 is Err ==> res.0 == Err::<(), IngestLineSerializeError>(
            IngestLineSerializeError::BufferFull,
        ),
{
    let ghost fs = fields_of(*from);
    let ghost total = line_json(*from).len() as int;
    let ghost k = done.len() as int;
    proof {
        assert(fields_suffix(*from, 2) == field_chunk(*from, 2) + fields_suffix(*from, 3));
    }
    match &from.app {
        Some(m) => {
                proof {
                    assert(field_chunk(*from, 2) =~= seq![member("app"@, json_quote(sbytes((from.app->Some_0)@)))]);
                    assert(fs.skip(k) == field_chunk(*from, 2) + fields_suffix(*from, 3));
                    assert(fs.skip(k).len() >= 1);
                    assert(k < fs.len());
                    assert(fs.skip(k)[0] == fs[k]);
                    assert(fs[k] == member("app"@, json_quote(sbytes((from.app->Some_0)@))));
                    lemma_joined_take_step(fs, k);
                }
                let ghost pre = *w;
                let ghost partial = 1 + joined(done).len() as int;
                let ghost eb = member_emission(*first, "app"@, json_quote(sbytes((from.app->Some_0)@))).len() as int;
                let r = write_str_member(w, first, "app", m.as_str());
                match r {
                    Ok(_) => {},
                    Err(e) => {
                        proof {
                            lemma_emits_trans(w0, pre, *w, partial, eb);
                            lemma_emits_weaken(w0, *w, partial + eb, total);
                            assert(!fits(w0, total));
                        }
                        return (Err(e), Ghost(done));
                    },
                }
                let ghost done2 = done.push(member("app"@, json_quote(sbytes((from.app->Some_0)@))));
                proof {
                    lemma_emits_trans(w0, pre, *w, partial, eb);
                    assert(fs.take(k + 1) =~= fs.take(k).push(fs[k]));
                    assert(done2 =~= fs.take(k + 1));
                    assert forall|ii: int|
                        0 <= ii < fs.skip(k + 1).len() implies fs.skip(k + 1)[ii] == fields_suffix(
                        *from, 3)[ii] by {
                        assert(fs.skip(k)[ii + 1] == fs[k + ii + 1]);
                    }
                    assert(fs.skip(k + 1) =~= fields_suffix(*from, 3));
                    assert(w.content() =~= w0.content() + seq![0x7bu8] + joined(done2));
                }
                (Ok(()), Ghost(done2))
        },
        None => {
            proof {
                assert(field_chunk(*from, 2) =~= Seq::<Seq<u8>>::empty());
                assert(fs.skip(k) =~= fields_suffix(*from, 3));
            }
            (Ok(()), Ghost(done))
        },
    }
}

#[verifier::rlimit(100)]
#[verifier::spinoff_prover]
fn wl_step_3(
    w: &mut SegmentedPoolBuf,
    first: &mut bool,
    from: &Line,
    Ghost(w0): Ghost<SegmentedPoolBuf>,
    Ghost(done): Ghost<Seq<Seq<u8>>>,
) -> (res: (Result<(), IngestLineSerializeError>, Ghost<Seq<Seq<u8>>>))
    requires
        line_state(w0, *old(w), *from, done, *old(first), 3),
        line_budget(w0, *from),
    ensures
        res.0 is Ok ==> line_state(w0, *final(w), *from, res.1@, *final(first), 4),
        res.0 is Err ==> emits(w0, *final(w), line_json(*from).len() as int),
        res.0 == Err::<(), IngestLineSerializeError>(
            IngestLineSerializeError::BufferFull,
        ) ==> !fits(w0, line_json(*from).len() as int),
        res.0 is Err ==> res.0 == Err::<(), IngestLineSerializeError>(
            IngestLineSerializeError::BufferFull,
        ),
{
    let ghost fs = fields_of(*from);
    let ghost total = line_json(*from).len() as int;
    let ghost k = done.len() as int;
    proof {
        assert(fields_suffix(*from, 3) == field_chunk(*from, 3) + fields_suffix(*from, 4));
    }
    match &from.env {
        Some(m) => {
                proof {
                    assert(field_chunk(*from, 3) =~= seq![member("env"@, json_quote(sbytes((from.env->Some_0)@)))]);
                    assert(fs.skip(k) == field_chunk(*from, 3) + fields_suffix(*from, 4));
                    assert(fs.skip(k).len() >= 1);
                    assert(k < fs.len());
                    assert(fs.skip(k)[0] == fs[k]);
                    assert(fs[k] == member("env"@, json_quote(sbytes((from.env->Some_0)@))));
                    lemma_joined_take_step(fs, k);
                }
                let ghost pre = *w;
                let ghost partial = 1 + joined(done).len() as int;
                let ghost eb = member_emission(*first, "env"@, json_quote(sbytes((from.env->Some_0)@))).len() as int;
                let r = write_str_member(w, first, "env", m.as_str());
                match r {
                    Ok(_) => {},
                    Err(e) => {
                        proof {
                            lemma_emits_trans(w0, pre, *w, partial, eb);
                            lemma_emits_weaken(w0, *w, partial + eb, total);
                            assert(!fits(w0, total));
                        }
                        return (Err(e), Ghost(done));
                    },
                }
                let ghost done2 = done.push(member("env"@, json_quote(sbytes((from.env->Some_0)@))));
                proof {
                    lemma_emits_trans(w0, pre, *w, partial, eb);
                    assert(fs.take(k + 1) =~= fs.take(k).push(fs[k]));
                    assert(done2 =~= fs.take(k + 1));
                    assert forall|ii: int|
                        0 <= ii < fs.skip(k + 1).len() implies fs.skip(k + 1)[ii] == fields_suffix(
                        *from, 4)[ii] by {
                        assert(fs.skip(k)[ii + 1] == fs[k + ii + 1]);
                    }
                    assert(fs.skip(k + 1) =~= fields_suffix(*from, 4));
                    assert(w.content() =~= w0.content() + seq![0x7bu8] + joined(done2));
                }
                (Ok(()), Ghost(done2))
        },
        None => {
            proof {
                assert(field_chunk(*from, 3) =~= Seq::<Seq<u8>>::empty());
                assert(fs.skip(k) =~= fields_suffix(*from, 4));
            }
            (Ok(()), Ghost(done))
        },
    }
}

#[verifier::rlimit(100)]
#[verifier::spinoff_prover]
fn wl_step_4(
    w: &mut SegmentedPoolBuf,
    first: &mut bool,
    from: &Line,
    Ghost(w0): Ghost<SegmentedPoolBuf>,
    Ghost(done): Ghost<Seq<Seq<u8>>>,
) -> (res: (Result<(), IngestLineSerializeError>, Ghost<Seq<Seq<u8>>>))
    requires
        line_state(w0, *old(w), *from, done, *old(first), 4),
        line_budget(w0, *from),
    ensures
        res.0 is Ok ==> line_state(w0, *final(w), *from, res.1@, *final(first), 5),
        res.0 is Err ==> emits(w0, *final(w), line_json(*from).len() as int),
        res.0 == Err::<(), IngestLineSerializeError>(
            IngestLineSerializeError::BufferFull,
        ) ==> !fits(w0, line_json(*from).len() as int),
        res.0 is Err ==> res.0 == Err::<(), IngestLineSerializeError>(
            IngestLineSerializeError::BufferFull,
        ),
{
    let ghost fs = fields_of(*from);
    let ghost total = line_json(*from).len() as int;
    let ghost k = done.len() as int;
    proof {
        assert(fields_suffix(*from, 4) == field_chunk(*from, 4) + fields_suffix(*from, 5));
    }
    match &from.file {
        Some(m) => {
                proof {
                    assert(field_chunk(*from, 4) =~= seq![member("file"@, json_quote(sbytes((from.file->Some_0)@)))]);
                    assert(fs.skip(k) == field_chunk(*from, 4) + fields_suffix(*from, 5));
                    assert(fs.skip(k).len() >= 1);
                    assert(k < fs.len());
                    assert(fs.skip(k)[0] == fs[k]);
                    assert(fs[k] == member("file"@, json_quote(sbytes((from.file->Some_0)@))));
                    lemma_joined_take_step(fs, k);
                }
                let ghost pre = *w;
                let ghost partial = 1 + joined(done).len() as int;
                let ghost eb = member_emission(*first, "file"@, json_quote(sbytes((from.file->Some_0)@))).len() as int;
                let r = write_str_member(w, first, "file", m.as_str());
                match r {
                    Ok(_) => {},
                    Err(e) => {
                        proof {
                            lemma_emits_trans(w0, pre, *w, partial, eb);
                            lemma_emits_weaken(w0, *w, partial + eb, total);
                            assert(!fits(w0, total));
                        }
                        return (Err(e), Ghost(done));
                    },
                }
                let ghost done2 = done.push(member("file"@, json_quote(sbytes((from.file->Some_0)@))));
                proof {
                    lemma_emits_trans(w0, pre, *w, partial, eb);
                    assert(fs.take(k + 1) =~= fs.take(k).push(fs[k]));
                    assert(done2 =~= fs.take(k + 1));
                    assert forall|ii: int|
                        0 <= ii < fs.skip(k + 1).len() implies fs.skip(k + 1)[ii] == fields_suffix(
                        *from, 5)[ii] by {
                        assert(fs.skip(k)[ii + 1] == fs[k + ii + 1]);
                    }
                    assert(fs.skip(k + 1) =~= fields_suffix(*from, 5));
                    assert(w.content() =~= w0.content() + seq![0x7bu8] + joined(done2));
                }
                (Ok(()), Ghost(done2))
        },
        None => {
            proof {
                assert(field_chunk(*from, 4) =~= Seq::<Seq<u8>>::empty());
                assert(fs.skip(k) =~= fields_suffix(*from, 5));
            }
            (Ok(()), Ghost(done))
        },
    }
}

#[verifier::rlimit(100)]
#[verifier::spinoff_prover]
fn wl_step_5(
    w: &mut SegmentedPoolBuf,
    first: &mut bool,
    from: &Line,
    Ghost(w0): Ghost<SegmentedPoolBuf>,
    Ghost(done): Ghost<Seq<Seq<u8>>>,
) -> (res: (Result<(), IngestLineSerializeError>, Ghost<Seq<Seq<u8>>>))
    requires
        line_state(w0, *old(w), *from, done, *old(first), 5),
        line_budget(w0, *from),
    ensures
        res.0 is Ok ==> line_state(w0, *final(w), *from, res.1@, *final(first), 6),
        res.0 is Err ==> emits(w0, *final(w), line_json(*from).len() as int),
        res.0 == Err::<(), IngestLineSerializeError>(
            IngestLineSerializeError::BufferFull,
        ) ==> !fits(w0, line_json(*from).len() as int),
        res.0 is Err ==> res.0 == Err::<(), IngestLineSerializeError>(
            IngestLineSerializeError::BufferFull,
        ),
{
    let ghost fs = fields_of(*from);
    let ghost total = line_json(*from).len() as int;
    let ghost k = done.len() as int;
    proof {
        assert(fields_suffix(*from, 5) == field_chunk(*from, 5) + fields_suffix(*from, 6));
    }
    match &from.host {
        Some(m) => {
                proof {
                    assert(field_chunk(*from, 5) =~= seq![member("host"@, json_quote(sbytes((from.host->Some_0)@)))]);
                    assert(fs.skip(k) == field_chunk(*from, 5) + fields_suffix(*from, 6));
                    assert(fs.skip(k).len() >= 1);
                    assert(k < fs.len());
                    assert(fs.skip(k)[0] == fs[k]);
                    assert(fs[k] == member("host"@, json_quote(sbytes((from.host->Some_0)@))));
                    lemma_joined_take_step(fs, k);
                }
                let ghost pre = *w;
                let ghost partial = 1 + joined(done).len() as int;
                let ghost eb = member_emission(*first, "host"@, json_quote(sbytes((from.host->Some_0)@))).len() as int;
                let r = write_str_member(w, first, "host", m.as_str());
                match r {
                    Ok(_) => {},
                    Err(e) => {
                        proof {
                            lemma_emits_trans(w0, pre, *w, partial, eb);
                            lemma_emits_weaken(w0, *w, partial + eb, total);
                            assert(!fits(w0, total));
                        }
                        return (Err(e), Ghost(done));
                    },
                }
                let ghost done2 = done.push(member("host"@, json_quote(sbytes((from.host->Some_0)@))));
                proof {
                    lemma_emits_trans(w0, pre, *w, partial, eb);
                    assert(fs.take(k + 1) =~= fs.take(k).push(fs[k]));
                    assert(done2 =~= fs.take(k + 1));
                    assert forall|ii: int|
                        0 <= ii < fs.skip(k + 1).len() implies fs.skip(k + 1)[ii] == fields_suffix(
                        *from, 6)[ii] by {
                        assert(fs.skip(k)[ii + 1] == fs[k + ii + 1]);
                    }
                    assert(fs.skip(k + 1) =~= fields_suffix(*from, 6));
                    assert(w.content() =~= w0.content() + seq![0x7bu8] + joined(done2));
                }
                (Ok(()), Ghost(done2))
        },
        None => {
            proof {
                assert(field_chunk(*from, 5) =~= Seq::<Seq<u8>>::empty());
                assert(fs.skip(k) =~= fields_suffix(*from, 6));
            }
            (Ok(()), Ghost(done))
        },
    }
}

#[verifier::rlimit(100)]
#[verifier::spinoff_prover]
fn wl_step_6(
    w: &mut SegmentedPoolBuf,
    first: &mut bool,
    from: &Line,
    Ghost(w0): Ghost<SegmentedPoolBuf>,
    Ghost(done): Ghost<Seq<Seq<u8>>>,
) -> (res: (Result<(), IngestLineSerializeError>, Ghost<Seq<Seq<u8>>>))
    requires
        line_state(w0, *old(w), *from, done, *old(first), 6),
        line_budget(w0, *from),
    ensures
        res.0 is Ok ==> line_state(w0, *final(w), *from, res.1@, *final(first), 7),
        res.0 is Err ==> emits(w0, *final(w), line_json(*from).len() as int),
        res.0 == Err::<(), IngestLineSerializeError>(
            IngestLineSerializeError::BufferFull,
        ) ==> !fits(w0, line_json(*from).len() as int),
        res.0 is Err ==> res.0 == Err::<(), IngestLineSerializeError>(
            IngestLineSerializeError::BufferFull,
        ),
{
    let ghost fs = fields_of(*from);
    let ghost total = line_json(*from).len() as int;
    let ghost k = done.len() as int;
    proof {
        assert(fields_suffix(*from, 6) == field_chunk(*from, 6) + fields_suffix(*from, 7));
    }
    match &from.labels {
        Some(m) => {
                proof {
                    assert(field_chunk(*from, 6) =~= seq![member("label"@, map_json((from.labels->Some_0)@))]);
                    assert(fs.skip(k) == field_chunk(*from, 6) + fields_suffix(*from, 7));
                    assert(fs.skip(k).len() >= 1);
                    assert(k < fs.len());
                    assert(fs.skip(k)[0] == fs[k]);
                    assert(fs[k] == member("label"@, map_json((from.labels->Some_0)@)));
                    lemma_joined_take_step(fs, k);
                }
                let ghost pre = *w;
                let ghost partial = 1 + joined(done).len() as int;
                let ghost eb = member_emission(*first, "label"@, map_json((from.labels->Some_0)@)).len() as int;
                let r = write_map_member(w, first, "label", m);
                match r {
                    Ok(_) => {},
                    Err(e) => {
                        proof {
                            lemma_emits_trans(w0, pre, *w, partial, eb);
                            lemma_emits_weaken(w0, *w, partial + eb, total);
                            assert(!fits(w0, total));
                        }
                        return (Err(e), Ghost(done));
                    },
                }
                let ghost done2 = done.push(member("label"@, map_json((from.labels->Some_0)@)));
                proof {
                    lemma_emits_trans(w0, pre, *w, partial, eb);
                    assert(fs.take(k + 1) =~= fs.take(k).push(fs[k]));
                    assert(done2 =~= fs.take(k + 1));
                    assert forall|ii: int|
                        0 <= ii < fs.skip(k + 1).len() implies fs.skip(k + 1)[ii] == fields_suffix(
                        *from, 7)[ii] by {
                        assert(fs.skip(k)[ii + 1] == fs[k + ii + 1]);
                    }
                    assert(fs.skip(k + 1) =~= fields_suffix(*from, 7));
                    assert(w.content() =~= w0.content() + seq![0x7bu8] + joined(done2));
                }
                (Ok(()), Ghost(done2))
        },
        None => {
            proof {
                assert(field_chunk(*from, 6) =~= Seq::<Seq<u8>>::empty());
                assert(fs.skip(k) =~= fields_suffix(*from, 7));
            }
            (Ok(()), Ghost(done))
        },
    }
}

#[verifier::rlimit(100)]
#[verifier::spinoff_prover]
fn wl_step_7(
    w: &mut SegmentedPoolBuf,
    first: &mut bool,
    from: &Line,
    Ghost(w0): Ghost<SegmentedPoolBuf>,
    Ghost(done): Ghost<Seq<Seq<u8>>>,
) -> (res: (Result<(), IngestLineSerializeError>, Ghost<Seq<Seq<u8>>>))
    requires
        line_state(w0, *old(w), *from, done, *old(first), 7),
        line_budget(w0, *from),
    ensures
        res.0 is Ok ==> line_state(w0, *final(w), *from, res.1@, *final(first), 8),
        res.0 is Err ==> emits(w0, *final(w), line_json(*from).len() as int),
        res.0 == Err::<(), IngestLineSerializeError>(
            IngestLineSerializeError::BufferFull,
        ) ==> !fits(w0, line_json(*from).len() as int),
        res.0 is Err ==> res.0 == Err::<(), IngestLineSerializeError>(
            IngestLineSerializeError::BufferFull,
        ),
{
    let ghost fs = fields_of(*from);
    let ghost total = line_json(*from).len() as int;
    let ghost k = done.len() as int;
    proof {
        assert(fields_suffix(*from, 7) == field_chunk(*from, 7) + fields_suffix(*from, 8));
    }
    match &from.level {
        Some(m) => {
                proof {
                    assert(field_chunk(*from, 7) =~= seq![member("level"@, json_quote(sbytes((from.level->Some_0)@)))]);
                    assert(fs.skip(k) == field_chunk(*from, 7) + fields_suffix(*from, 8));
                    assert(fs.skip(k).len() >= 1);
                    assert(k < fs.len());
                    assert(fs.skip(k)[0] == fs[k]);
                    assert(fs[k] == member("level"@, json_quote(sbytes((from.level->Some_0)@))));
                    lemma_joined_take_step(fs, k);
                }
                let ghost pre = *w;
                let ghost partial = 1 + joined(done).len() as int;
                let ghost eb = member_emission(*first, "level"@, json_quote(sbytes((from.level->Some_0)@))).len() as int;
                let r = write_str_member(w, first, "level", m.as_str());
                match r {
                    Ok(_) => {},
                    Err(e) => {
                        proof {
                            lemma_emits_trans(w0, pre, *w, partial, eb);
                            lemma_emits_weaken(w0, *w, partial + eb, total);
                            assert(!fits(w0, total));
                        }
                        return (Err(e), Ghost(done));
                    },
                }
                let ghost done2 = done.push(member("level"@, json_quote(sbytes((from.level->Some_0)@))));
                proof {
                    lemma_emits_trans(w0, pre, *w, partial, eb);
                    assert(fs.take(k + 1) =~= fs.take(k).push(fs[k]));
                    assert(done2 =~= fs.take(k + 1));
                    assert forall|ii: int|
                        0 <= ii < fs.skip(k + 1).len() implies fs.skip(k + 1)[ii] == fields_suffix(
                        *from, 8)[ii] by {
                        assert(fs.skip(k)[ii + 1] == fs[k + ii + 1]);
                    }
                    assert(fs.skip(k + 1) =~= fields_suffix(*from, 8));
                    assert(w.content() =~= w0.content() + seq![0x7bu8] + joined(done2));
                }
                (Ok(()), Ghost(done2))
        },
        None => {
            proof {
                assert(field_chunk(*from, 7) =~= Seq::<Seq<u8>>::empty());
                assert(fs.skip(k) =~= fields_suffix(*from, 8));
            }
            (Ok(()), Ghost(done))
        },
    }
}

#[verifier::rlimit(100)]
#[verifier::spinoff_prover]
fn wl_step_8(
    w: &mut SegmentedPoolBuf,
    first: &mut bool,
    from: &Line,
    Ghost(w0): Ghost<SegmentedPoolBuf>,
    Ghost(done): Ghost<Seq<Seq<u8>>>,
) -> (res: (Result<(), IngestLineSerializeError>, Ghost<Seq<Seq<u8>>>))
    requires
        line_state(w0, *old(w), *from, done, *old(first), 8),
        line_budget(w0, *from),
    ensures
        res.0 is Ok ==> line_state(w0, *final(w), *from, res.1@, *final(first), 9),
        res.0 is Err ==> emits(w0, *final(w), line_json(*from).len() as int),
        res.0 == Err::<(), IngestLineSerializeError>(
            IngestLineSerializeError::BufferFull,
        ) ==> !fits(w0, line_json(*from).len() as int),
        res.0 is Err ==> res.0 == Err::<(), IngestLineSerializeError>(
            IngestLineSerializeError::BufferFull,
        ),
{
    let ghost fs = fields_of(*from);
    let ghost total = line_json(*from).len() as int;
    let ghost k = done.len() as int;
    proof {
        assert(fields_suffix(*from, 8) == field_chunk(*from, 8) + fields_suffix(*from, 9));
    }
    match &from.meta {
        Some(m) => {
                proof {
                    assert(field_chunk(*from, 8) =~= seq![member("meta"@, value_json(from.meta->Some_0))]);
                    assert(fs.skip(k) == field_chunk(*from, 8) + fields_suffix(*from, 9));
                    assert(fs.skip(k).len() >= 1);
                    assert(k < fs.len());
                    assert(fs.skip(k)[0] == fs[k]);
                    assert(fs[k] == member("meta"@, value_json(from.meta->Some_0)));
                    lemma_joined_take_step(fs, k);
                }
                let ghost pre = *w;
                let ghost partial = 1 + joined(done).len() as int;
                let ghost eb = member_emission(*first, "meta"@, value_json(from.meta->Some_0)).len() as int;
                let r = write_value_member(w, first, "meta", m);
                match r {
                    Ok(_) => {},
                    Err(e) => {
                        proof {
                            lemma_emits_trans(w0, pre, *w, partial, eb);
                            lemma_emits_weaken(w0, *w, partial + eb, total);
                            assert(!fits(w0, total));
                        }
                        return (Err(e), Ghost(done));
                    },
                }
                let ghost done2 = done.push(member("meta"@, value_json(from.meta->Some_0)));
                proof {
                    lemma_emits_trans(w0, pre, *w, partial, eb);
                    assert(fs.take(k + 1) =~= fs.take(k).push(fs[k]));
                    assert(done2 =~= fs.take(k + 1));
                    assert forall|ii: int|
                        0 <= ii < fs.skip(k + 1).len() implies fs.skip(k + 1)[ii] == fields_suffix(
                        *from, 9)[ii] by {
                        assert(fs.skip(k)[ii + 1] == fs[k + ii + 1]);
                    }
                    assert(fs.skip(k + 1) =~= fields_suffix(*from, 9));
                    assert(w.content() =~= w0.content() + seq![0x7bu8] + joined(done2));
                }
                (Ok(()), Ghost(done2))
        },
        None => {
            proof {
                assert(field_chunk(*from, 8) =~= Seq::<Seq<u8>>::empty());
                assert(fs.skip(k) =~= fields_suffix(*from, 9));
            }
            (Ok(()), Ghost(done))
        },
    }
}

#[verifier::rlimit(100)]
#[verifier::spinoff_prover]
fn wl_step_9(
    w: &mut SegmentedPoolBuf,
    first: &mut bool,
    from: &Line,
    Ghost(w0): Ghost<SegmentedPoolBuf>,
    Ghost(done): Ghost<Seq<Seq<u8>>>,
) -> (res: (Result<(), IngestLineSerializeError>, Ghost<Seq<Seq<u8>>>))
    requires
        line_state(w0, *old(w), *from, done, *old(first), 9),
        line_budget(w0, *from),
    ensures
        res.0 is Ok ==> line_state(w0, *final(w), *from, res.1@, *final(first), 10),
        res.0 is Err ==> emits(w0, *final(w), line_json(*from).len() as int),
        res.0 == Err::<(), IngestLineSerializeError>(
            IngestLineSerializeError::BufferFull,
        ) ==> !fits(w0, line_json(*from).len() as int),
        res.0 is Err ==> res.0 == Err::<(), IngestLineSerializeError>(
            IngestLineSerializeError::BufferFull,
        ),
{
    let ghost fs = fields_of(*from);
    let ghost total = line_json(*from).len() as int;
    let ghost k = done.len() as int;
    proof {
        assert(fields_suffix(*from, 9) == field_chunk(*from, 9) + fields_suffix(*from, 10));
    }
    {
            proof {
                assert(field_chunk(*from, 9) =~= seq![member("line"@, json_quote(sbytes(from.line@)))]);
                assert(fs.skip(k) == field_chunk(*from, 9) + fields_suffix(*from, 10));
                assert(fs.skip(k).len() >= 1);
                assert(k < fs.len());
                assert(fs.skip(k)[0] == fs[k]);
                assert(fs[k] == member("line"@, json_quote(sbytes(from.line@))));
                lemma_joined_take_step(fs, k);
            }
            let ghost pre = *w;
            let ghost partial = 1 + joined(done).len() as int;
            let ghost eb = member_emission(*first, "line"@, json_quote(sbytes(from.line@))).len() as int;
            let r = write_str_member(w, first, "line", from.line.as_str());
            match r {
                Ok(_) => {},
                Err(e) => {
                    proof {
                        lemma_emits_trans(w0, pre, *w, partial, eb);
                        lemma_emits_weaken(w0, *w, partial + eb, total);
                        if e is BufferFull {
                            assert(!fits(w0, total));
                        }
                    }
                    return (Err(e), Ghost(done));
                },
            }
            let ghost done2 = done.push(member("line"@, json_quote(sbytes(from.line@))));
            proof {
                lemma_emits_trans(w0, pre, *w, partial, eb);
                assert(fs.take(k + 1) =~= fs.take(k).push(fs[k]));
                assert(done2 =~= fs.take(k + 1));
                assert forall|ii: int|
                    0 <= ii < fs.skip(k + 1).len() implies fs.skip(k + 1)[ii] == fields_suffix(
                    *from, 10)[ii] by {
                    assert(fs.skip(k)[ii + 1] == fs[k + ii + 1]);
                }
                assert(fs.skip(k + 1) =~= fields_suffix(*from, 10));
                assert(w.content() =~= w0.content() + seq![0x7bu8] + joined(done2));
            }
            (Ok(()), Ghost(done2))
    }
}

#[verifier::rlimit(100)]
#[verifier::spinoff_prover]
fn wl_step_10(
    w: &mut SegmentedPoolBuf,
    first: &mut bool,
    from: &Line,
    Ghost(w0): Ghost<SegmentedPoolBuf>,
    Ghost(done): Ghost<Seq<Seq<u8>>>,
) -> (res: (Result<(), IngestLineSerializeError>, Ghost<Seq<Seq<u8>>>))
    requires
        line_state(w0, *old(w), *from, done, *old(first), 10),
        line_budget(w0, *from),
    ensures
        res.0 is Ok ==> line_state(w0, *final(w), *from, res.1@, *final(first), 11),
        res.0 is Err ==> emits(w0, *final(w), line_json(*from).len() as int),
        res.0 == Err::<(), IngestLineSerializeError>(
            IngestLineSerializeError::BufferFull,
        ) ==> !fits(w0, line_json(*from).len() as int),
        res.0 is Err ==> res.0 == Err::<(), IngestLineSerializeError>(
            IngestLineSerializeError::BufferFull,
        ),
{
    let ghost fs = fields_of(*from);
    let ghost total = line_json(*from).len() as int;
    let ghost k = done.len() as int;
    proof {
        assert(fields_suffix(*from, 10) == field_chunk(*from, 10) + fields_suffix(*from, 11));
    }
    {
            proof {
                assert(field_chunk(*from, 10) =~= seq![member("timestamp"@, i64_dec(from.timestamp as int))]);
                assert(fs.skip(k) == field_chunk(*from, 10) + fields_suffix(*from, 11));
                assert(fs.skip(k).len() >= 1);
                assert(k < fs.len());
                assert(fs.skip(k)[0] == fs[k]);
                assert(fs[k] == member("timestamp"@, i64_dec(from.timestamp as int)));
                lemma_joined_take_step(fs, k);
            }
            let ghost pre = *w;
            let ghost partial = 1 + joined(done).len() as int;
            let ghost eb = member_emission(*first, "timestamp"@, i64_dec(from.timestamp as int)).len() as int;
            let r = write_i64_member(w, first, "timestamp", from.timestamp);
            match r {
                Ok(_) => {},
                Err(e) => {
                    proof {
                        lemma_emits_trans(w0, pre, *w, partial, eb);
                        lemma_emits_weaken(w0, *w, partial + eb, total);
                        if e is BufferFull {
                            assert(!fits(w0, total));
                        }
                    }
                    return (Err(e), Ghost(done));
                },
            }
            let ghost done2 = done.push(member("timestamp"@, i64_dec(from.timestamp as int)));
            proof {
                lemma_emits_trans(w0, pre, *w, partial, eb);
                assert(fs.take(k + 1) =~= fs.take(k).push(fs[k]));
                assert(done2 =~= fs.take(k + 1));
                assert forall|ii: int|
                    0 <= ii < fs.skip(k + 1).len() implies fs.skip(k + 1)[ii] == fields_suffix(
                    *from, 11)[ii] by {
                    assert(fs.skip(k)[ii + 1] == fs[k + ii + 1]);
                }
                assert(fs.skip(k + 1) =~= fields_suffix(*from, 11));
                assert(w.content() =~= w0.content() + seq![0x7bu8] + joined(done2));
            }
            (Ok(()), Ghost(done2))
    }
}

/// Write one record into the buffer: an object holding the present fields
/// in the fixed canonical order, absent optional fields omitted entirely.
#[verifier::rlimit(60)]
pub fn write_line_into(w: &mut SegmentedPoolBuf, from: &Line) -> (r: Result<
    (),
    IngestLineSerializeError,
>)
    requires
        old(w).wf(),
        old(w).content().len() + line_json(*from).len() + old(w).spec_segment_size()
            <= usize::MAX,
        old(w).spec_pool().spec_total_allocated() + 2 * line_json(*from).len() <= usize::MAX,
    ensures
        emits(*old(w), *final(w), line_json(*from).len() as int),
        r is Ok ==> final(w).content() == old(w).content() + line_json(*from),
        r is Ok <==> fits(*old(w), line_json(*from).len() as int),
        r is Err ==> r == Err::<(), IngestLineSerializeError>(
            IngestLineSerializeError::BufferFull,
        ),
{
    let ghost w0 = *old(w);
    let ghost fs = fields_of(*from);
    let ghost total = line_json(*from).len() as int;
    let mut first = true;
    let brace_open: [u8; 1] = [0x7bu8];
    let brace_close: [u8; 1] = [0x7du8];
    proof {
        lemma_emits_refl(w0);
        lemma_joined_take_mono(fs, 0);
    }
    let rb = write_slice(w, brace_open.as_slice());
    proof {
        lemma_emits_weaken(w0, *w, 1, total);
    }
    match rb {
        Ok(_) => {},
        Err(e) => {
            proof {
                assert(!fits(w0, total));
            }
            return Err(e);
        },
    }
    let ghost done0 = Seq::<Seq<u8>>::empty();
    proof {
        assert(done0 =~= fs.take(0));
        assert(fs.skip(0) =~= fs);
        assert(joined(done0) =~= Seq::<u8>::empty());
        assert(w.content() =~= w0.content() + seq![0x7bu8] + joined(done0));
    }
    let (r1, g1) = wl_step_1(w, &mut first, from, Ghost(w0), Ghost(done0));
    match r1 {
        Ok(_) => {},
        Err(e) => {
            return Err(e);
        },
    }
    let (r2, g2) = wl_step_2(w, &mut first, from, Ghost(w0), g1);
    match r2 {
        Ok(_) => {},
        Err(e) => {
            return Err(e);
        },
    }
    let (r3, g3) = wl_step_3(w, &mut first, from, Ghost(w0), g2);
    match r3 {
        Ok(_) => {},
        Err(e) => {
            return Err(e);
        },
    }
    let (r4, g4) = wl_step_4(w, &mut first, from, Ghost(w0), g3);
    match r4 {
        Ok(_) => {},
        Err(e) => {
            return Err(e);
        },
    }
    let (r5, g5) = wl_step_5(w, &mut first, from, Ghost(w0), g4);
    match r5 {
        Ok(_) => {},
        Err(e) => {
            return Err(e);
        },
    }
    let (r6, g6) = wl_step_6(w, &mut first, from, Ghost(w0), g5);
    match r6 {
        Ok(_) => {},
        Err(e) => {
            return Err(e);
        },
    }
    let (r7, g7) = wl_step_7(w, &mut first, from, Ghost(w0), g6);
    match r7 {
        Ok(_) => {},
        Err(e) => {
            return Err(e);
        },
    }
    let (r8, g8) = wl_step_8(w, &mut first, from, Ghost(w0), g7);
    match r8 {
        Ok(_) => {},
        Err(e) => {
            return Err(e);
        },
    }
    let (r9, g9) = wl_step_9(w, &mut first, from, Ghost(w0), g8);
    match r9 {
        Ok(_) => {},
        Err(e) => {
            return Err(e);
        },
    }
    let (r10, g10) = wl_step_10(w, &mut first, from, Ghost(w0), g9);
    match r10 {
        Ok(_) => {},
        Err(e) => {
            return Err(e);
        },
    }
    proof {
        assert(fields_suffix(*from, 11) =~= Seq::<Seq<u8>>::empty());
        assert(fs.skip(g10@.len() as int) =~= Seq::<Seq<u8>>::empty());
        assert(g10@.len() == fs.len());
        assert(g10@ == fs.take(fs.len() as int));
        assert(fs.take(fs.len() as int) =~= fs);
        assert(joined(g10@) == joined(fs));
    }
    let ghost pre = *w;
    let rb2 = write_slice(w, brace_close.as_slice());
    proof {
        lemma_emits_trans(w0, pre, *w, 1 + joined(fs).len() as int, 1);
    }
    match rb2 {
        Ok(_) => {},
        Err(e) => {
            proof {
                assert(!fits(w0, total));
            }
            return Err(e);
        },
    }
    proof {
        assert(final(w).content() =~= old(w).content() + line_json(*from));
        if w.limited() {
            w.lemma_content_within_allowed();
        }
    }
    Ok(())
}


impl IngestLineSerializer {
    /// Serialize one record into the buffer and hand the buffer back.  On
    /// failure the buffer is discarded, as a partially written record makes
    /// it unusable for transport.
    pub fn write_line(self, from: &Line) -> (r: Result<
        SegmentedPoolBuf,
        IngestLineSerializeError,
    >)
        requires
            self.spec_buf().wf(),
            self.spec_buf().content().len() + line_json(*from).len()
                + self.spec_buf().spec_segment_size() <= usize::MAX,
            self.spec_buf().spec_pool().spec_total_allocated() + 2 * line_json(*from).len()
                <= usize::MAX,
        ensures
            r matches Ok(b) ==> b.content() == self.spec_buf().content() + line_json(*from)
                && emits(self.spec_buf(), b, line_json(*from).len() as int),
            r is Ok <==> fits(self.spec_buf(), line_json(*from).len() as int),
            r is Err ==> r == Err::<SegmentedPoolBuf, IngestLineSerializeError>(
                IngestLineSerializeError::BufferFull,
            ),
    {
        let IngestLineSerializer { buf } = self;
        let mut w = buf;
        match write_line_into(&mut w, from) {
            Ok(_) => Ok(w),
            Err(e) => Err(e),
        }
    }

    /// Wrap this serializer for field-value writing.
    pub fn into_serialize_value(self) -> (s: IngestBytesSerializer)
        ensures
            s.spec_buf() == self.spec_buf(),
    {
        IngestBytesSerializer { ser: self }
    }
}

/// Writes single field values — strings, maps, numbers, structured values,
/// raw text — directly into the underlying buffer.
pub struct IngestBytesSerializer {
    ser: IngestLineSerializer,
}

impl IngestBytesSerializer {
    /// The buffer the serializer writes into.
    pub closed spec fn spec_buf(self) -> SegmentedPoolBuf {
        self.ser.spec_buf()
    }

    /// Hand the buffer back.
    pub fn into_buffer(self) -> (b: SegmentedPoolBuf)
        ensures
            b == self.spec_buf(),
    {
        let IngestBytesSerializer { ser } = self;
        ser.into_inner()
    }

    /// Write a string as a quoted, escaped JSON string.
    pub fn serialize_str(&mut self, key: &str) -> (r: Result<(), IngestLineSerializeError>)
        requires
            old(self).spec_buf().wf(),
            old(self).spec_buf().content().len() + json_quote(sbytes(key@)).len() + old(
                self,
            ).spec_buf().spec_segment_size() <= usize::MAX,
            old(self).spec_buf().spec_pool().spec_total_allocated() + 2 * json_quote(
                sbytes(key@),
            ).len() <= usize::MAX,
        ensures
            emits(old(self).spec_buf(), final(self).spec_buf(), json_quote(
                sbytes(key@),
            ).len() as int),
            r is Ok ==> final(self).spec_buf().content() == old(self).spec_buf().content()
                + json_quote(sbytes(key@)),
            r is Ok <==> fits(old(self).spec_buf(), json_quote(sbytes(key@)).len() as int),
            r is Err ==> r == Err::<(), IngestLineSerializeError>(
                IngestLineSerializeError::BufferFull,
            ),
    {
        let kb = key.as_bytes();
        write_json_string(&mut self.ser.buf, kb)
    }

    /// Write a key value map as a JSON object.
    pub fn serialize_map(&mut self, key: &KeyValueMap) -> (r: Result<
        (),
        IngestLineSerializeError,
    >)
        requires
            old(self).spec_buf().wf(),
            old(self).spec_buf().content().len() + map_json(key@).len() + old(
                self,
            ).spec_buf().spec_segment_size() <= usize::MAX,
            old(self).spec_buf().spec_pool().spec_total_allocated() + 2 * map_json(key@).len()
                <= usize::MAX,
        ensures
            emits(old(self).spec_buf(), final(self).spec_buf(), map_json(key@).len() as int),
            r is Ok ==> final(self).spec_buf().content() == old(self).spec_buf().content()
                + map_json(key@),
            r is Ok <==> fits(old(self).spec_buf(), map_json(key@).len() as int),
            r is Err ==> r == Err::<(), IngestLineSerializeError>(
                IngestLineSerializeError::BufferFull,
            ),
    {
        write_map(&mut self.ser.buf, key)
    }

    /// Write a signed number in plain decimal.
    pub fn serialize_i64(&mut self, key: &i64) -> (r: Result<(), IngestLineSerializeError>)
        requires
            old(self).spec_buf().wf(),
            old(self).spec_buf().content().len() + i64_dec(*key as int).len() + old(
                self,
            ).spec_buf().spec_segment_size() <= usize::MAX,
            old(self).spec_buf().spec_pool().spec_total_allocated() + 2 * i64_dec(
                *key as int,
            ).len() <= usize::MAX,
        ensures
            emits(old(self).spec_buf(), final(self).spec_buf(), i64_dec(*key as int).len() as int),
            r is Ok ==> final(self).spec_buf().content() == old(self).spec_buf().content()
                + i64_dec(*key as int),
            r is Ok <==> fits(old(self).spec_buf(), i64_dec(*key as int).len() as int),
            r is Err ==> r == Err::<(), IngestLineSerializeError>(
                IngestLineSerializeError::BufferFull,
            ),
    {
        write_i64(&mut self.ser.buf, *key)
    }

    /// Write an arbitrary structured value: whatever compact JSON the
    /// external structured-value encoder produces for it.
    pub fn serialize(&mut self, key: &serde_json::Value) -> (r: Result<
        (),
        IngestLineSerializeError,
    >)
        requires
            old(self).spec_buf().wf(),
            old(self).spec_buf().content().len() + value_json(*key).len() + old(
                self,
            ).spec_buf().spec_segment_size() <= usize::MAX,
            old(self).spec_buf().spec_pool().spec_total_allocated() + 2 * value_json(*key).len()
                <= usize::MAX,
        ensures
            emits(old(self).spec_buf(), final(self).spec_buf(), value_json(*key).len() as int),
            r is Ok ==> final(self).spec_buf().content() == old(self).spec_buf().content()
                + value_json(*key),
            r is Ok <==> fits(old(self).spec_buf(), value_json(*key).len() as int),
            r is Err ==> r == Err::<(), IngestLineSerializeError>(
                IngestLineSerializeError::BufferFull,
            ),
    {
        let bytes = value_to_json(key);
        write_slice(&mut self.ser.buf, bytes.as_slice())
    }

    /// Consume message text as a byte stream, escaping it incrementally
    /// into a quoted JSON string: an arbitrarily large message never needs
    /// a second full-size buffer.
    pub fn serialize_utf8(&mut self, bytes: &[u8]) -> (r: Result<(), IngestLineSerializeError>)
        requires
            old(self).spec_buf().wf(),
            old(self).spec_buf().content().len() + json_quote(bytes@).len() + old(
                self,
            ).spec_buf().spec_segment_size() <= usize::MAX,
            old(self).spec_buf().spec_pool().spec_total_allocated() + 2 * json_quote(
                bytes@,
            ).len() <= usize::MAX,
        ensures
            emits(old(self).spec_buf(), final(self).spec_buf(), json_quote(bytes@).len() as int),
            r is Ok ==> final(self).spec_buf().content() == old(self).spec_buf().content()
                + json_quote(bytes@),
            r is Ok <==> fits(old(self).spec_buf(), json_quote(bytes@).len() as int),
            r is Err ==> r == Err::<(), IngestLineSerializeError>(
                IngestLineSerializeError::BufferFull,
            ),
    {
        write_json_string(&mut self.ser.buf, bytes)
    }
}

/// Wraps a sequence of serialized records in the outer container: the
/// envelope object, its one key, and the record array, with separators
/// between records.
pub struct IngestBodySerializer {
    buf: SegmentedPoolBuf,
    first: bool,
}

impl IngestBodySerializer {
    /// The buffer the serializer writes into.
    pub closed spec fn spec_buf(self) -> SegmentedPoolBuf {
        self.buf
    }

    /// Whether no record has been written yet.
    pub closed spec fn spec_first(self) -> bool {
        self.first
    }

    /// Open the envelope on a buffer: the outer object brace, the record
    /// list's key, and the array bracket.
    pub fn from_buffer(buf: SegmentedPoolBuf) -> (r: Result<
        IngestBodySerializer,
        IngestLineSerializeError,
    >)
        requires
            buf.wf(),
            buf.content().len() + envelope_open().len() + buf.spec_segment_size() <= usize::MAX,
            buf.spec_pool().spec_total_allocated() + 2 * envelope_open().len() <= usize::MAX,
        ensures
            r matches Ok(s) ==> {
                &&& s.spec_buf().wf()
                &&& emits(buf, s.spec_buf(), envelope_open().len() as int)
                &&& s.spec_buf().content() == buf.content() + envelope_open()
                &&& s.spec_first()
            },
            r is Ok <==> fits(buf, envelope_open().len() as int),
            r is Err ==> r == Err::<IngestBodySerializer, IngestLineSerializeError>(
                IngestLineSerializeError::BufferFull,
            ),
    {
        let mut w = buf;
        let open_bytes: [u8; 10] = [
            0x7bu8,
            0x22u8,
            0x6cu8,
            0x69u8,
            0x6eu8,
            0x65u8,
            0x73u8,
            0x22u8,
            0x3au8,
            0x5bu8,
        ];
        proof {
            reveal_strlit("lines");
            assert(is_ascii_chars("lines"@));
            vstd::utf8::is_ascii_chars_encode_utf8("lines"@);
            assert(sbytes("lines"@) =~= seq![0x6cu8, 0x69u8, 0x6eu8, 0x65u8, 0x73u8]);
            lemma_escaped_clear_run(sbytes("lines"@));
            assert(open_bytes@ =~= envelope_open());
        }
        match write_slice(&mut w, open_bytes.as_slice()) {
            Ok(_) => Ok(IngestBodySerializer { buf: w, first: true }),
            Err(e) => Err(e),
        }
    }

    /// Write one record into the envelope, preceded by a separator when it
    /// is not the first.
    pub fn write_line(&mut self, from: &Line) -> (r: Result<(), IngestLineSerializeError>)
        requires
            old(self).spec_buf().wf(),
            old(self).spec_buf().content().len() + 1 + line_json(*from).len() + old(
                self,
            ).spec_buf().spec_segment_size() <= usize::MAX,
            old(self).spec_buf().spec_pool().spec_total_allocated() + 2 * (1 + line_json(
                *from,
            ).len()) <= usize::MAX,
        ensures
            emits(old(self).spec_buf(), final(self).spec_buf(), (sep(
                old(self).spec_first(),
            ).len() + line_json(*from).len()) as int),
            r is Ok ==> final(self).spec_buf().content() == old(self).spec_buf().content() + sep(
                old(self).spec_first(),
            ) + line_json(*from) && !final(self).spec_first(),
            r is Ok <==> fits(
                old(self).spec_buf(),
                (sep(old(self).spec_first()).len() + line_json(*from).len()) as int,
            ),
            r is Err ==> r == Err::<(), IngestLineSerializeError>(
                IngestLineSerializeError::BufferFull,
            ),
    {
        let ghost w0 = old(self).spec_buf();
        let ghost total = sep(old(self).spec_first()).len() + line_json(*from).len() as int;
        let comma: [u8; 1] = [0x2cu8];
        proof {
            lemma_emits_refl(w0);
        }
        if !self.first {
            let rc = write_slice(&mut self.buf, comma.as_slice());
            proof {
                lemma_emits_weaken(w0, self.spec_buf(), 1, total as int);
            }
            match rc {
                Ok(_) => {},
                Err(e) => {
                    return Err(e);
                },
            }
        }
        let ghost mid = self.spec_buf();
        let rl = write_line_into(&mut self.buf, from);
        proof {
            lemma_emits_trans(w0, mid, self.spec_buf(), sep(old(self).spec_first()).len() as int,
                line_json(*from).len() as int);
        }
        match rl {
            Ok(_) => {},
            Err(e) => {
                return Err(e);
            },
        }
        self.first = false;
        proof {
            assert(final(self).spec_buf().content() =~= w0.content() + sep(
                old(self).spec_first()) + line_json(*from));
        }
        Ok(())
    }

    /// Close the envelope — the array's and the object's end — and hand the
    /// finished buffer back.  It must be called exactly once, after all
    /// intended records.
    pub fn end(self) -> (r: Result<SegmentedPoolBuf, IngestLineSerializeError>)
        requires
            self.spec_buf().wf(),
            self.spec_buf().content().len() + envelope_close().len()
                + self.spec_buf().spec_segment_size() <= usize::MAX,
            self.spec_buf().spec_pool().spec_total_allocated() + 2 * envelope_close().len()
                <= usize::MAX,
        ensures
            r matches Ok(b) ==> b.content() == self.spec_buf().content() + envelope_close()
                && emits(self.spec_buf(), b, envelope_close().len() as int),
            r is Ok <==> fits(self.spec_buf(), envelope_close().len() as int),
            r is Err ==> r == Err::<SegmentedPoolBuf, IngestLineSerializeError>(
                IngestLineSerializeError::BufferFull,
            ),
    {
        let IngestBodySerializer { buf, first: _ } = self;
        let mut w = buf;
        let close_bytes: [u8; 2] = [0x5du8, 0x7du8];
        proof {
            assert(close_bytes@ =~= envelope_close());
        }
        match write_slice(&mut w, close_bytes.as_slice()) {
            Ok(_) => Ok(w),
            Err(e) => Err(e),
        }
    }
}

/// Serialize a whole request body: open the envelope, write every record
/// in order with separators between them, and close it.  The finished
/// buffer holds exactly the body's canonical JSON text.
#[verifier::rlimit(60)]
#[verifier::loop_isolation(false)]
pub fn serialize_body(lines: &Vec<Line>, buf: SegmentedPoolBuf) -> (r: Result<
    SegmentedPoolBuf,
    IngestLineSerializeError,
>)
    requires
        buf.wf(),
        buf.content().len() + body_json(lines@).len() + buf.spec_segment_size() <= usize::MAX,
        buf.spec_pool().spec_total_allocated() + 2 * body_json(lines@).len() <= usize::MAX,
    ensures
        r matches Ok(b) ==> b.wf() && b.content() == buf.content() + body_json(lines@),
        r is Ok <==> fits(buf, body_json(lines@).len() as int),
        r is Err ==> r == Err::<SegmentedPoolBuf, IngestLineSerializeError>(
            IngestLineSerializeError::BufferFull,
        ),
{
    let ghost recs = lines@.map_values(|l: Line| line_json(l));
    let ghost total = body_json(lines@).len() as int;
    let ghost w0 = buf;
    let mut ser = match IngestBodySerializer::from_buffer(buf) {
        Ok(s) => s,
        Err(e) => {
            proof {
                assert(!fits(w0, total));
            }
            return Err(e);
        },
    };
    let mut i: usize = 0;
    proof {
        assert(recs.take(0) =~= Seq::<Seq<u8>>::empty());
        lemma_joined_take_mono(recs, 0);
    }
    while i < lines.len()
        invariant
            i <= lines@.len(),
            ser.spec_buf().wf(),
            emits(w0, ser.spec_buf(), (envelope_open().len() + joined(
                recs.take(i as int),
            ).len()) as int),
            ser.spec_buf().content() == w0.content() + envelope_open() + joined(
                recs.take(i as int),
            ),
            ser.spec_first() == (i == 0),
            joined(recs.take(i as int)).len() <= joined(recs).len(),
        decreases lines@.len() - i,
    {
        let ghost partial = (envelope_open().len() + joined(recs.take(i as int)).len()) as int;
        proof {
            lemma_joined_take_step(recs, i as int);
            assert(recs[i as int] == line_json(lines@[i as int]));
        }
        let line = &lines[i];
        let ghost pre = ser.spec_buf();
        let rl = ser.write_line(line);
        proof {
            lemma_emits_trans(w0, pre, ser.spec_buf(), partial, (sep(i as int == 0).len()
                + line_json(lines@[i as int]).len()) as int);
            lemma_emits_weaken(w0, ser.spec_buf(), partial + sep(i as int == 0).len()
                + line_json(lines@[i as int]).len(), total);
        }
        match rl {
            Ok(_) => {},
            Err(e) => {
                proof {
                    assert(!fits(w0, total));
                }
                return Err(e);
            },
        }
        i = i + 1;
        proof {
            assert(ser.spec_buf().content() =~= w0.content() + envelope_open() + joined(
                recs.take(i as int)));
        }
    }
    proof {
        assert(recs.take(recs.len() as int) =~= recs);
    }
    let ghost pre = ser.spec_buf();
    let rend = ser.end();
    match rend {
        Ok(b) => {
            proof {
                lemma_emits_trans(w0, pre, b, (envelope_open().len() + joined(
                    recs).len()) as int, envelope_close().len() as int);
                assert(b.content() =~= w0.content() + body_json(lines@));
                if b.limited() {
                    b.lemma_content_within_allowed();
                }
            }
            Ok(b)
        },
        Err(e) => {
            proof {
                assert(!fits(w0, total));
            }
            Err(e)
        },
    }
}
} // verus!
