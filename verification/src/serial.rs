//! The on-disk image: a fixed header (format tag, version, global counts
//! and timestamp range) followed by the field table, the identifier table,
//! the lexicon and the trail blocks, in that order. Integers are 64-bit
//! little-endian words; strings are length-prefixed UTF-8; each trail block
//! opens with its event count and delta-encodes its timestamps.

use vstd::prelude::*;
use crate::cons::EventRec;
use crate::model::{EventModel, Store};

verus! {

/// The format tag opening every image.
pub const MAGIC: u64 = 0x7472_6169_6c64_6231;

/// A 64-bit word as its eight little-endian bytes.
pub open spec fn le(x: u64) -> Seq<u8> {
    vstd::bytes::spec_u64_to_le_bytes(x)
}

/// Wrapping difference, used to delta-encode timestamps (deltas may be
/// negative, so they wrap).
pub open spec fn wsub(a: u64, b: u64) -> u64 {
    vstd::wrapping::u64_specs::wrapping_sub(a, b)
}

/// Wrapping sum, undoing `wsub`.
pub open spec fn wadd(a: u64, b: u64) -> u64 {
    vstd::wrapping::u64_specs::wrapping_add(a, b)
}

/// A string as a length prefix plus its UTF-8 bytes.
pub open spec fn ser_str(s: Seq<char>) -> Seq<u8> {
    le(vstd::utf8::encode_utf8(s).len() as u64) + vstd::utf8::encode_utf8(s)
}

/// A list of strings, in order.
pub open spec fn ser_strs(ss: Seq<Seq<char>>) -> Seq<u8>
    decreases ss.len(),
{
    if ss.len() == 0 {
        Seq::empty()
    } else {
        ser_strs(ss.drop_last()) + ser_str(ss.last())
    }
}

/// The identifier table: 16 raw bytes per trail, in trail order.
pub open spec fn ser_uuids(us: Seq<Seq<u8>>) -> Seq<u8>
    decreases us.len(),
{
    if us.len() == 0 {
        Seq::empty()
    } else {
        ser_uuids(us.drop_last()) + us.last()
    }
}

/// A list of 64-bit words.
pub open spec fn ser_words(ws: Seq<u64>) -> Seq<u8>
    decreases ws.len(),
{
    if ws.len() == 0 {
        Seq::empty()
    } else {
        ser_words(ws.drop_last()) + le(ws.last())
    }
}

/// The lexicon: per field, a value count then the values themselves.
pub open spec fn ser_lexicons(ls: Seq<Seq<Seq<char>>>) -> Seq<u8>
    decreases ls.len(),
{
    if ls.len() == 0 {
        Seq::empty()
    } else {
        ser_lexicons(ls.drop_last()) + le(ls.last().len() as u64) + ser_strs(ls.last())
    }
}

/// The timestamp each event's delta is taken against: its predecessor's,
/// or 0 for a trail's first event.
pub open spec fn prev_ts(evs: Seq<EventModel>) -> u64 {
    if evs.len() == 0 {
        0
    } else {
        evs.last().ts
    }
}

/// A trail's events: per event, the wrapped timestamp delta then one item
/// word per field slot.
pub open spec fn ser_events(evs: Seq<EventModel>) -> Seq<u8>
    decreases evs.len(),
{
    if evs.len() == 0 {
        Seq::empty()
    } else {
        ser_events(evs.drop_last()) + le(wsub(evs.last().ts, prev_ts(evs.drop_last())))
            + ser_words(evs.last().items)
    }
}

/// The trail blocks: per trail, an event count then its encoded events.
pub open spec fn ser_trails(ts: Seq<Seq<EventModel>>) -> Seq<u8>
    decreases ts.len(),
{
    if ts.len() == 0 {
        Seq::empty()
    } else {
        ser_trails(ts.drop_last()) + le(ts.last().len() as u64) + ser_events(ts.last())
    }
}

/// The whole image of a frozen store.
pub open spec fn ser_db(s: Store, version: u64) -> Seq<u8> {
    le(MAGIC) + le(version) + le(s.fields.len() as u64) + le(s.uuids.len() as u64) + le(
        s.num_events,
    ) + le(s.min_ts) + le(s.max_ts) + ser_strs(s.fields) + ser_uuids(s.uuids) + ser_lexicons(
        s.lexicons,
    ) + ser_trails(s.trails)
}

/// Appends one little-endian word.
pub fn push_u64(buf: &mut Vec<u8>, x: u64)
    ensures
        final(buf)@ == old(buf)@ + le(x),
{
    let mut bs = vstd::bytes::u64_to_le_bytes(x);
    buf.append(&mut bs);
}

/// Appends one length-prefixed string.
pub fn push_str(buf: &mut Vec<u8>, s: &String)
    ensures
        final(buf)@ == old(buf)@ + ser_str(s@),
{
    let bytes = s.as_str().as_bytes();
    push_u64(buf, bytes.len() as u64);
    buf.extend_from_slice(bytes);
    proof {
        assert(buf@ =~= old(buf)@ + ser_str(s@));
    }
}

/// Reads the little-endian word at `pos`.
pub fn read_u64(bytes: &Vec<u8>, pos: usize) -> (r: u64)
    requires
        pos + 8 <= bytes@.len(),
    ensures
        le(r) == bytes@.subrange(pos as int, pos as int + 8),
{
    let _len = bytes.len();
    let s = vstd::slice::slice_subrange(bytes.as_slice(), pos, pos + 8);
    let r = vstd::bytes::u64_from_le_bytes(s);
    proof {
        vstd::bytes::lemma_auto_spec_u64_to_from_le_bytes();
    }
    r
}

/// Relies on `String::from_utf8`: it succeeds exactly on valid UTF-8 input
/// and decodes those bytes into the string they spell.
#[verifier::external_body]
pub fn bytes_to_string(v: Vec<u8>) -> (r: Option<String>)
    ensures
        match r {
            Option::Some(s) => vstd::utf8::valid_utf8(v@) && s@ == vstd::utf8::decode_utf8(v@),
            Option::None => !vstd::utf8::valid_utf8(v@),
        },
{
    match String::from_utf8(v) {
        Result::Ok(s) => Option::Some(s),
        Result::Err(_) => Option::None,
    }
}

/// Serializes a frozen store into its byte image.
pub fn serialize_store(
    fields: &Vec<String>,
    uuids: &Vec<[u8; 16]>,
    lexicons: &Vec<Vec<String>>,
    trails: &Vec<Vec<EventRec>>,
    num_events: u64,
    min_ts: u64,
    max_ts: u64,
    version: u64,
) -> (r: Vec<u8>)
    ensures
        r@ == ser_db(
            Store {
                fields: fields.deep_view(),
                uuids: uuids.deep_view(),
                lexicons: lexicons.deep_view(),
                trails: trails.deep_view(),
                num_events,
                min_ts,
                max_ts,
            },
            version,
        ),
{
    let ghost m = Store {
        fields: fields.deep_view(),
        uuids: uuids.deep_view(),
        lexicons: lexicons.deep_view(),
        trails: trails.deep_view(),
        num_events,
        min_ts,
        max_ts,
    };
    let mut buf: Vec<u8> = Vec::new();
    push_u64(&mut buf, MAGIC);
    push_u64(&mut buf, version);
    push_u64(&mut buf, fields.len() as u64);
    push_u64(&mut buf, uuids.len() as u64);
    push_u64(&mut buf, num_events);
    push_u64(&mut buf, min_ts);
    push_u64(&mut buf, max_ts);
    let ghost header = buf@;
    proof {
        assert(header =~= le(MAGIC) + le(version) + le(m.fields.len() as u64) + le(
            m.uuids.len() as u64,
        ) + le(num_events) + le(min_ts) + le(max_ts));
    }
    let nf = fields.len();
    for f in 0..nf
        invariant
            nf == fields@.len(),
            m.fields == fields.deep_view(),
            buf@ == header + ser_strs(m.fields.take(f as int)),
    {
        proof {
            assert(fields.deep_view()[f as int] == fields@[f as int]@);
        }
        push_str(&mut buf, &fields[f]);
        proof {
            assert(m.fields.take(f + 1).drop_last() =~= m.fields.take(f as int));
            assert(buf@ =~= header + ser_strs(m.fields.take(f + 1)));
        }
    }
    proof {
        assert(m.fields.take(nf as int) =~= m.fields);
    }
    let ghost done_f = header + ser_strs(m.fields);
    let nu = uuids.len();
    for t in 0..nu
        invariant
            nu == uuids@.len(),
            m.uuids == uuids.deep_view(),
            buf@ == done_f + ser_uuids(m.uuids.take(t as int)),
    {
        buf.extend_from_slice(uuids[t].as_slice());
        proof {
            assert(uuids.deep_view()[t as int] == uuids@[t as int].deep_view());
            assert(uuids@[t as int].deep_view() =~= uuids@[t as int]@);
            assert(m.uuids.take(t + 1).drop_last() =~= m.uuids.take(t as int));
            assert(buf@ =~= done_f + ser_uuids(m.uuids.take(t + 1)));
        }
    }
    proof {
        assert(m.uuids.take(nu as int) =~= m.uuids);
    }
    let ghost done_u = done_f + ser_uuids(m.uuids);
    let nl = lexicons.len();
    for f in 0..nl
        invariant
            nl == lexicons@.len(),
            m.lexicons == lexicons.deep_view(),
            buf@ == done_u + ser_lexicons(m.lexicons.take(f as int)),
    {
        proof {
            assert(lexicons.deep_view()[f as int] == lexicons@[f as int].deep_view());
        }
        push_u64(&mut buf, lexicons[f].len() as u64);
        let ghost table = m.lexicons[f as int];
        let ghost base = buf@;
        let nv = lexicons[f].len();
        for v in 0..nv
            invariant
                nv == lexicons@[f as int]@.len(),
                f < lexicons@.len(),
                table == lexicons@[f as int].deep_view(),
                buf@ == base + ser_strs(table.take(v as int)),
        {
            proof {
                assert(lexicons@[f as int].deep_view()[v as int]
                    == lexicons@[f as int]@[v as int]@);
            }
            push_str(&mut buf, &lexicons[f][v]);
            proof {
                assert(table.take(v + 1).drop_last() =~= table.take(v as int));
                assert(buf@ =~= base + ser_strs(table.take(v + 1)));
            }
        }
        proof {
            assert(table.take(nv as int) =~= table);
            assert(m.lexicons.take(f + 1).drop_last() =~= m.lexicons.take(f as int));
            assert(buf@ =~= done_u + ser_lexicons(m.lexicons.take(f + 1)));
        }
    }
    proof {
        assert(m.lexicons.take(nl as int) =~= m.lexicons);
    }
    let ghost done_l = done_u + ser_lexicons(m.lexicons);
    let nt = trails.len();
    for t in 0..nt
        invariant
            nt == trails@.len(),
            m.trails == trails.deep_view(),
            buf@ == done_l + ser_trails(m.trails.take(t as int)),
    {
        proof {
            assert(trails.deep_view()[t as int] == trails@[t as int].deep_view());
        }
        push_u64(&mut buf, trails[t].len() as u64);
        let ghost trail = m.trails[t as int];
        let ghost base = buf@;
        let ne = trails[t].len();
        let mut prev: u64 = 0;
        for e in 0..ne
            invariant
                ne == trails@[t as int]@.len(),
                t < trails@.len(),
                trail == trails@[t as int].deep_view(),
                prev == prev_ts(trail.take(e as int)),
                buf@ == base + ser_events(trail.take(e as int)),
        {
            proof {
                assert(trails@[t as int].deep_view()[e as int]
                    == trails@[t as int]@[e as int]@);
            }
            let ev_ts = trails[t][e].timestamp;
            push_u64(&mut buf, ev_ts.wrapping_sub(prev));
            let ghost ev = trail[e as int];
            let ghost base_e = buf@;
            let ni = trails[t][e].items.len();
            for w in 0..ni
                invariant
                    ne == trails@[t as int]@.len(),
                    e < ne,
                    t < trails@.len(),
                    ni == trails@[t as int]@[e as int].items@.len(),
                    ev == trails@[t as int]@[e as int]@,
                    buf@ == base_e + ser_words(ev.items.take(w as int)),
            {
                push_u64(&mut buf, trails[t][e].items[w].0);
                proof {
                    assert(ev.items[w as int] == trails@[t as int]@[e as int].items@[w as int].0);
                    assert(ev.items.take(w + 1).drop_last() =~= ev.items.take(w as int));
                    assert(buf@ =~= base_e + ser_words(ev.items.take(w + 1)));
                }
            }
            proof {
                assert(ev.items.take(ni as int) =~= ev.items);
                assert(trail.take(e + 1).drop_last() =~= trail.take(e as int));
                assert(trail.take(e + 1).last() == ev);
                assert(buf@ =~= base + ser_events(trail.take(e + 1)));
                assert(prev_ts(trail.take(e + 1)) == ev.ts);
            }
            prev = ev_ts;
        }
        proof {
            assert(trail.take(ne as int) =~= trail);
            assert(m.trails.take(t + 1).drop_last() =~= m.trails.take(t as int));
            assert(buf@ =~= done_l + ser_trails(m.trails.take(t + 1)));
        }
    }
    proof {
        assert(m.trails.take(nt as int) =~= m.trails);
        assert(buf@ =~= ser_db(m, version));
    }
    buf
}

/// Undoing a wrapped delta: the delta recovered from the reconstructed
/// timestamp is the stored one.
pub proof fn lemma_wrap_unwrap(prev: u64, delta: u64)
    ensures
        wsub(wadd(prev, delta), prev) == delta,
{
}

/// Copies `n` bytes out of the image.
pub fn read_chunk(bytes: &Vec<u8>, pos: usize, n: usize) -> (r: Vec<u8>)
    requires
        pos + n <= bytes@.len(),
    ensures
        r@ == bytes@.subrange(pos as int, pos as int + n as int),
{
    let _len = bytes.len();
    let s = vstd::slice::slice_subrange(bytes.as_slice(), pos, pos + n);
    vstd::slice::slice_to_vec(s)
}

/// A leading chunk of a suffix pins down the bytes it covers and where
/// the remainder starts.
pub proof fn lemma_chunk_at(bytes: Seq<u8>, pos: int, a: Seq<u8>, rest: Seq<u8>)
    requires
        0 <= pos <= bytes.len(),
        a + rest == bytes.skip(pos),
    ensures
        bytes.len() - pos == a.len() + rest.len(),
        bytes.subrange(pos, pos + a.len()) == a,
        bytes.skip(pos + a.len()) == rest,
{
    let n = a.len() as int;
    assert((a + rest).len() == a.len() + rest.len());
    assert(bytes.skip(pos).len() == bytes.len() - pos);
    assert forall|j: int| 0 <= j < n implies bytes[pos + j] == a[j] by {
        assert(bytes.skip(pos)[j] == bytes[pos + j]);
        assert((a + rest)[j] == a[j]);
    }
    assert(bytes.subrange(pos, pos + n) =~= a);
    assert forall|j: int| 0 <= j < rest.len() implies bytes[pos + n + j] == rest[j] by {
        assert(bytes.skip(pos)[n + j] == bytes[pos + n + j]);
        assert((a + rest)[n + j] == rest[j]);
    }
    assert(bytes.skip(pos + n) =~= rest);
}

/// A valid string encoding starting at `pos` pins down the bytes there:
/// the length word, the payload, and where the remainder starts.
pub proof fn lemma_str_at(bytes: Seq<u8>, pos: int, x: Seq<char>, rest: Seq<u8>)
    requires
        0 <= pos <= bytes.len(),
        ser_str(x) + rest == bytes.skip(pos),
    ensures
        bytes.len() - pos == 8 + vstd::utf8::encode_utf8(x).len() + rest.len(),
        bytes.subrange(pos, pos + 8) == le(vstd::utf8::encode_utf8(x).len() as u64),
        bytes.subrange(pos + 8, pos + 8 + vstd::utf8::encode_utf8(x).len() as int)
            == vstd::utf8::encode_utf8(x),
        bytes.skip(pos + 8 + vstd::utf8::encode_utf8(x).len() as int) == rest,
        vstd::utf8::valid_utf8(vstd::utf8::encode_utf8(x)),
{
    vstd::bytes::lemma_auto_spec_u64_to_from_le_bytes();
    vstd::utf8::encode_utf8_valid_utf8(x);
    let e = vstd::utf8::encode_utf8(x);
    let n = e.len() as int;
    assert(bytes.skip(pos) =~= le(e.len() as u64) + (e + rest));
    assert(bytes.subrange(pos, pos + 8) =~= le(e.len() as u64));
    assert forall|j: int| 0 <= j < n implies bytes[pos + 8 + j] == e[j] by {
        assert(bytes.skip(pos)[8 + j] == bytes[pos + 8 + j]);
        assert((le(e.len() as u64) + (e + rest))[8 + j] == (e + rest)[j]);
    }
    assert(bytes.subrange(pos + 8, pos + 8 + n) =~= e);
    assert forall|j: int| 0 <= j < rest.len() implies bytes[pos + 8 + n + j] == rest[j] by {
        assert(bytes.skip(pos)[8 + n + j] == bytes[pos + 8 + n + j]);
        assert((le(e.len() as u64) + (e + rest))[8 + n + j] == (e + rest)[n + j]);
    }
    assert(bytes.skip(pos + 8 + n) =~= rest);
}

/// Reads one length-prefixed string whose byte length must lie in
/// `min_len ..= max_len`; hands back the string and the position after it.
/// Succeeds on every position where such a string is encoded, returning
/// exactly it.
pub fn parse_string(bytes: &Vec<u8>, pos: usize, min_len: u64, max_len: u64) -> (r: Option<
    (String, usize),
>)
    requires
        pos <= bytes@.len(),
        max_len <= 0xFFFF_FFFF,
    ensures
        match r {
            Option::Some(p) => {
                &&& pos + 8 <= p.1 <= bytes@.len()
                &&& bytes@.subrange(pos as int, p.1 as int) == ser_str(p.0@)
                &&& min_len <= vstd::utf8::encode_utf8(p.0@).len() <= max_len
            },
            Option::None => true,
        },
        forall|x: Seq<char>, rest: Seq<u8>|
            (#[trigger] (ser_str(x) + rest) == bytes@.skip(pos as int) && min_len
                <= vstd::utf8::encode_utf8(x).len() <= max_len) ==> (r matches Option::Some(p)
                && p.0@ == x && bytes@.skip(p.1 as int) == rest),
{
    let l = bytes.len();
    if l - pos < 8 {
        proof {
            assert forall|x: Seq<char>, rest: Seq<u8>|
                (ser_str(x) + rest == bytes@.skip(pos as int) && min_len <= vstd::utf8::encode_utf8(
                    x,
                ).len() <= max_len) implies false by {
                lemma_str_at(bytes@, pos as int, x, rest);
            }
        }
        return Option::None;
    }
    let lw = read_u64(bytes, pos);
    if lw < min_len || lw > max_len {
        proof {
            vstd::bytes::lemma_auto_spec_u64_to_from_le_bytes();
            assert forall|x: Seq<char>, rest: Seq<u8>|
                (ser_str(x) + rest == bytes@.skip(pos as int) && min_len <= vstd::utf8::encode_utf8(
                    x,
                ).len() <= max_len) implies false by {
                lemma_str_at(bytes@, pos as int, x, rest);
                assert(lw == vstd::utf8::encode_utf8(x).len() as u64);
            }
        }
        return Option::None;
    }
    let n = lw as usize;
    if l - (pos + 8) < n {
        proof {
            vstd::bytes::lemma_auto_spec_u64_to_from_le_bytes();
            assert forall|x: Seq<char>, rest: Seq<u8>|
                (ser_str(x) + rest == bytes@.skip(pos as int) && min_len <= vstd::utf8::encode_utf8(
                    x,
                ).len() <= max_len) implies false by {
                lemma_str_at(bytes@, pos as int, x, rest);
                assert(lw == vstd::utf8::encode_utf8(x).len() as u64);
            }
        }
        return Option::None;
    }
    let chunk = read_chunk(bytes, pos + 8, n);
    let ghost chunk_bytes = chunk@;
    match bytes_to_string(chunk) {
        Option::None => {
            proof {
                vstd::bytes::lemma_auto_spec_u64_to_from_le_bytes();
                assert forall|x: Seq<char>, rest: Seq<u8>|
                    (ser_str(x) + rest == bytes@.skip(pos as int) && min_len
                        <= vstd::utf8::encode_utf8(x).len() <= max_len) implies false by {
                    lemma_str_at(bytes@, pos as int, x, rest);
                    assert(lw == vstd::utf8::encode_utf8(x).len() as u64);
                    assert(chunk_bytes == vstd::utf8::encode_utf8(x));
                }
            }
            Option::None
        },
        Option::Some(s) => {
            proof {
                vstd::utf8::decode_utf8_encode_utf8(chunk_bytes);
                assert(vstd::utf8::encode_utf8(s@) == chunk_bytes);
                assert(bytes@.subrange(pos as int, pos as int + 8 + n as int) =~= bytes@.subrange(
                    pos as int,
                    pos as int + 8,
                ) + bytes@.subrange(pos as int + 8, pos as int + 8 + n as int));
                assert(bytes@.subrange(pos as int, pos as int + 8 + n as int) == ser_str(s@));
                vstd::bytes::lemma_auto_spec_u64_to_from_le_bytes();
                assert forall|x: Seq<char>, rest: Seq<u8>|
                    (ser_str(x) + rest == bytes@.skip(pos as int) && min_len
                        <= vstd::utf8::encode_utf8(x).len() <= max_len) implies s@ == x
                    && bytes@.skip(pos as int + 8 + n as int) == rest by {
                    lemma_str_at(bytes@, pos as int, x, rest);
                    assert(lw == vstd::utf8::encode_utf8(x).len() as u64);
                    assert(chunk_bytes == vstd::utf8::encode_utf8(x));
                    vstd::utf8::encode_utf8_decode_utf8(x);
                }
            }
            Option::Some((s, pos + 8 + n))
        },
    }
}

/// Reads `count` length-prefixed strings in a row. Succeeds on every
/// position where `count` such strings are encoded, returning exactly
/// them.
pub fn parse_strings(
    bytes: &Vec<u8>,
    pos: usize,
    count: usize,
    min_len: u64,
    max_len: u64,
) -> (r: Option<(Vec<String>, usize)>)
    requires
        pos <= bytes@.len(),
        max_len <= 0xFFFF_FFFF,
    ensures
        match r {
            Option::Some(p) => {
                &&& pos <= p.1 <= bytes@.len()
                &&& bytes@.subrange(pos as int, p.1 as int) == ser_strs(p.0.deep_view())
                &&& p.0@.len() == count
                &&& forall|i: int|
                    0 <= i < count ==> min_len <= vstd::utf8::encode_utf8(
                        #[trigger] p.0.deep_view()[i],
                    ).len() <= max_len
            },
            Option::None => true,
        },
        forall|xs: Seq<Seq<char>>, rest: Seq<u8>|
            (#[trigger] (ser_strs(xs) + rest) == bytes@.skip(pos as int) && xs.len() == count && (
            forall|i: int|
                0 <= i < xs.len() ==> min_len <= vstd::utf8::encode_utf8(#[trigger] xs[i]).len()
                    <= max_len)) ==> (r matches Option::Some(p) && p.0.deep_view() == xs
                && bytes@.skip(p.1 as int) == rest),
{
    let mut out: Vec<String> = Vec::new();
    let mut cur: usize = pos;
    let mut i: usize = 0;
    proof {
        assert forall|xs: Seq<Seq<char>>, rest: Seq<u8>|
            (#[trigger] (ser_strs(xs) + rest) == bytes@.skip(pos as int) && xs.len() == count && (
            forall|ii: int|
                0 <= ii < xs.len() ==> min_len <= vstd::utf8::encode_utf8(#[trigger] xs[ii]).len()
                    <= max_len)) implies out.deep_view() == xs.take(0) && ser_strs(xs.skip(0))
            + rest == bytes@.skip(pos as int) by {
            assert(out.deep_view() =~= xs.take(0));
            assert(xs.skip(0) =~= xs);
        }
    }
    while i < count
        invariant
            i <= count,
            out@.len() == i,
            pos <= cur <= bytes@.len(),
            max_len <= 0xFFFF_FFFF,
            bytes@.subrange(pos as int, cur as int) == ser_strs(out.deep_view()),
            forall|j: int|
                0 <= j < i ==> min_len <= vstd::utf8::encode_utf8(
                    #[trigger] out.deep_view()[j],
                ).len() <= max_len,
            forall|xs: Seq<Seq<char>>, rest: Seq<u8>|
                (#[trigger] (ser_strs(xs) + rest) == bytes@.skip(pos as int) && xs.len() == count
                    && (forall|ii: int|
                    0 <= ii < xs.len() ==> min_len <= vstd::utf8::encode_utf8(
                        #[trigger] xs[ii],
                    ).len() <= max_len)) ==> out.deep_view() == xs.take(i as int) && ser_strs(
                    xs.skip(i as int),
                ) + rest == bytes@.skip(cur as int),
        decreases count - i,
    {
        let ghost prev_dv = out.deep_view();
        let ghost prev_cur = cur as int;
        match parse_string(bytes, cur, min_len, max_len) {
            Option::None => {
                proof {
                    assert forall|xs: Seq<Seq<char>>, rest: Seq<u8>|
                        (#[trigger] (ser_strs(xs) + rest) == bytes@.skip(pos as int) && xs.len() == count && (
                        forall|ii: int|
                            0 <= ii < xs.len() ==> min_len <= vstd::utf8::encode_utf8(
                                #[trigger] xs[ii],
                            ).len() <= max_len)) implies false by {
                        assert(ser_strs(xs) + rest == bytes@.skip(pos as int));
                        let tail = xs.skip(i as int);
                        lemma_strs_left(tail);
                        assert(tail[0] == xs[i as int]);
                        assert(tail.drop_first() =~= xs.skip(i as int + 1));
                        assert(ser_str(xs[i as int]) + (ser_strs(xs.skip(i as int + 1)) + rest)
                            =~= ser_strs(tail) + rest);
                    }
                }
                return Option::None;
            },
            Option::Some((s, p2)) => {
                let ghost s_view = s@;
                out.push(s);
                cur = p2;
                proof {
                    assert(forall|g: int|
                        0 <= g < out@.len() ==> #[trigger] out.deep_view()[g]
                            == out@[g].deep_view());
                    assert(out.deep_view() =~= prev_dv.push(s_view));
                    assert(out.deep_view().drop_last() =~= prev_dv);
                    assert(bytes@.subrange(pos as int, cur as int) =~= bytes@.subrange(
                        pos as int,
                        prev_cur,
                    ) + bytes@.subrange(prev_cur, cur as int));
                    assert(bytes@.subrange(pos as int, cur as int) == ser_strs(out.deep_view()));
                    assert forall|xs: Seq<Seq<char>>, rest: Seq<u8>|
                        (#[trigger] (ser_strs(xs) + rest) == bytes@.skip(pos as int) && xs.len() == count && (
                        forall|ii: int|
                            0 <= ii < xs.len() ==> min_len <= vstd::utf8::encode_utf8(
                                #[trigger] xs[ii],
                            ).len() <= max_len)) implies out.deep_view() == xs.take(i as int + 1)
                        && ser_strs(xs.skip(i as int + 1)) + rest == bytes@.skip(cur as int) by {
                        assert(ser_strs(xs) + rest == bytes@.skip(pos as int));
                        assert(prev_dv == xs.take(i as int));
                        let tail = xs.skip(i as int);
                        lemma_strs_left(tail);
                        assert(tail[0] == xs[i as int]);
                        assert(tail.drop_first() =~= xs.skip(i as int + 1));
                        assert(ser_str(xs[i as int]) + (ser_strs(xs.skip(i as int + 1)) + rest)
                            =~= ser_strs(tail) + rest);
                        assert(s_view == xs[i as int]);
                        assert(out.deep_view() =~= xs.take(i as int + 1));
                    }
                }
            },
        }
        i += 1;
    }
    proof {
        assert forall|xs: Seq<Seq<char>>, rest: Seq<u8>|
            (#[trigger] (ser_strs(xs) + rest) == bytes@.skip(pos as int) && xs.len() == count && (forall|ii: int|
                0 <= ii < xs.len() ==> min_len <= vstd::utf8::encode_utf8(#[trigger] xs[ii]).len()
                    <= max_len)) implies out.deep_view() == xs && bytes@.skip(cur as int)
            == rest by {
            assert(ser_strs(xs) + rest == bytes@.skip(pos as int));
            assert(out.deep_view() == xs.take(count as int));
            assert(xs.take(count as int) =~= xs);
            assert(xs.skip(count as int) =~= Seq::<Seq<char>>::empty());
            assert(ser_strs(xs.skip(count as int)) + rest =~= rest);
        }
    }
    Option::Some((out, cur))
}

/// Reads `count` 16-byte identifiers in a row. Succeeds on every position
/// where `count` identifiers are encoded, returning exactly them.
pub fn parse_uuids(bytes: &Vec<u8>, pos: usize, count: usize) -> (r: Option<
    (Vec<[u8; 16]>, usize),
>)
    requires
        pos <= bytes@.len(),
    ensures
        match r {
            Option::Some(p) => {
                &&& pos <= p.1 <= bytes@.len()
                &&& bytes@.subrange(pos as int, p.1 as int) == ser_uuids(p.0.deep_view())
                &&& p.0@.len() == count
            },
            Option::None => true,
        },
        forall|us: Seq<Seq<u8>>, rest: Seq<u8>|
            (#[trigger] (ser_uuids(us) + rest) == bytes@.skip(pos as int) && us.len() == count && (
            forall|i: int| 0 <= i < us.len() ==> (#[trigger] us[i]).len() == 16)) ==> (
            r matches Option::Some(p) && p.0.deep_view() == us && bytes@.skip(p.1 as int) == rest),
{
    let l = bytes.len();
    let mut out: Vec<[u8; 16]> = Vec::new();
    let mut cur: usize = pos;
    let mut i: usize = 0;
    proof {
        assert forall|us: Seq<Seq<u8>>, rest: Seq<u8>|
            (#[trigger] (ser_uuids(us) + rest) == bytes@.skip(pos as int) && us.len() == count && (
            forall|ii: int| 0 <= ii < us.len() ==> (#[trigger] us[ii]).len() == 16)) implies out
            .deep_view() == us.take(0) && ser_uuids(us.skip(0)) + rest == bytes@.skip(
            pos as int,
        ) by {
            assert(out.deep_view() =~= us.take(0));
            assert(us.skip(0) =~= us);
        }
    }
    while i < count
        invariant
            i <= count,
            out@.len() == i,
            pos <= cur <= bytes@.len(),
            l == bytes@.len(),
            bytes@.subrange(pos as int, cur as int) == ser_uuids(out.deep_view()),
            forall|us: Seq<Seq<u8>>, rest: Seq<u8>|
                (#[trigger] (ser_uuids(us) + rest) == bytes@.skip(pos as int) && us.len() == count
                    && (forall|ii: int| 0 <= ii < us.len() ==> (#[trigger] us[ii]).len() == 16))
                    ==> out.deep_view() == us.take(i as int) && ser_uuids(us.skip(i as int)) + rest
                    == bytes@.skip(cur as int),
        decreases count - i,
    {
        if l - cur < 16 {
            proof {
                assert forall|us: Seq<Seq<u8>>, rest: Seq<u8>|
                    (#[trigger] (ser_uuids(us) + rest) == bytes@.skip(pos as int) && us.len()
                        == count && (forall|ii: int|
                        0 <= ii < us.len() ==> (#[trigger] us[ii]).len() == 16)) implies false by {
                    assert(ser_uuids(us) + rest == bytes@.skip(pos as int));
                    let tail = us.skip(i as int);
                    lemma_uuids_left(tail);
                    assert(tail[0] == us[i as int]);
                    assert(tail.drop_first() =~= us.skip(i as int + 1));
                    assert(us[i as int] + (ser_uuids(us.skip(i as int + 1)) + rest) =~= ser_uuids(
                        tail,
                    ) + rest);
                    lemma_chunk_at(
                        bytes@,
                        cur as int,
                        us[i as int],
                        ser_uuids(us.skip(i as int + 1)) + rest,
                    );
                }
            }
            return Option::None;
        }
        let ghost prev_dv = out.deep_view();
        let ghost prev_cur = cur as int;
        let s = vstd::slice::slice_subrange(bytes.as_slice(), cur, cur + 16);
        let u: [u8; 16] = [s[0], s[1], s[2], s[3], s[4], s[5], s[6], s[7], s[8], s[9], s[10], s[11], s[12], s[13], s[14], s[15]];
        proof {
            assert(u@ =~= bytes@.subrange(cur as int, cur as int + 16));
        }
        out.push(u);
        cur = cur + 16;
        proof {
            assert(forall|g: int|
                0 <= g < out@.len() ==> #[trigger] out.deep_view()[g] == out@[g].deep_view());
            assert(u.deep_view() =~= u@);
            assert(out.deep_view() =~= prev_dv.push(u@));
            assert(out.deep_view().drop_last() =~= prev_dv);
            assert(bytes@.subrange(pos as int, cur as int) =~= bytes@.subrange(pos as int, prev_cur)
                + bytes@.subrange(prev_cur, cur as int));
            assert(bytes@.subrange(pos as int, cur as int) == ser_uuids(out.deep_view()));
            assert forall|us: Seq<Seq<u8>>, rest: Seq<u8>|
                (#[trigger] (ser_uuids(us) + rest) == bytes@.skip(pos as int) && us.len() == count
                    && (forall|ii: int| 0 <= ii < us.len() ==> (#[trigger] us[ii]).len() == 16))
                    implies out.deep_view() == us.take(i as int + 1) && ser_uuids(
                us.skip(i as int + 1),
            ) + rest == bytes@.skip(cur as int) by {
                assert(ser_uuids(us) + rest == bytes@.skip(pos as int));
                assert(prev_dv == us.take(i as int));
                let tail = us.skip(i as int);
                lemma_uuids_left(tail);
                assert(tail[0] == us[i as int]);
                assert(tail.drop_first() =~= us.skip(i as int + 1));
                assert(us[i as int] + (ser_uuids(us.skip(i as int + 1)) + rest) =~= ser_uuids(tail)
                    + rest);
                lemma_chunk_at(
                    bytes@,
                    prev_cur,
                    us[i as int],
                    ser_uuids(us.skip(i as int + 1)) + rest,
                );
                assert(u@ == us[i as int]);
                assert(out.deep_view() =~= us.take(i as int + 1));
            }
        }
        i += 1;
    }
    proof {
        assert forall|us: Seq<Seq<u8>>, rest: Seq<u8>|
            (#[trigger] (ser_uuids(us) + rest) == bytes@.skip(pos as int) && us.len() == count && (
            forall|ii: int| 0 <= ii < us.len() ==> (#[trigger] us[ii]).len() == 16)) implies out
            .deep_view() == us && bytes@.skip(cur as int) == rest by {
            assert(ser_uuids(us) + rest == bytes@.skip(pos as int));
            assert(out.deep_view() == us.take(count as int));
            assert(us.take(count as int) =~= us);
            assert(us.skip(count as int) =~= Seq::<Seq<u8>>::empty());
            assert(ser_uuids(us.skip(count as int)) + rest =~= rest);
        }
    }
    Option::Some((out, cur))
}

/// Splitting two equal concatenations at the same offset gives equal parts.
pub proof fn lemma_split(a: Seq<u8>, b: Seq<u8>, c: Seq<u8>, d: Seq<u8>)
    requires
        a + b == c + d,
        a.len() == c.len(),
    ensures
        a == c,
        b == d,
{
    assert forall|i: int| 0 <= i < a.len() implies a[i] == c[i] by {
        assert((a + b)[i] == a[i]);
        assert((c + d)[i] == c[i]);
    }
    assert(a =~= c);
    assert((a + b).len() == a.len() + b.len());
    assert((c + d).len() == c.len() + d.len());
    assert(b.len() == d.len());
    assert forall|i: int| 0 <= i < b.len() implies b[i] == d[i] by {
        assert((a + b)[a.len() + i] == b[i]);
        assert((c + d)[c.len() + i] == d[i]);
    }
    assert(b =~= d);
}

/// A leading word determines itself and what follows it.
pub proof fn lemma_peel_u64(x: u64, b: Seq<u8>, y: u64, d: Seq<u8>)
    requires
        le(x) + b == le(y) + d,
    ensures
        x == y,
        b == d,
{
    vstd::bytes::lemma_auto_spec_u64_to_from_le_bytes();
    lemma_split(le(x), b, le(y), d);
    assert(vstd::bytes::spec_u64_from_le_bytes(le(x)) == x);
    assert(vstd::bytes::spec_u64_from_le_bytes(le(y)) == y);
}

/// A leading length-prefixed string determines itself and what follows.
pub proof fn lemma_peel_str(s1: Seq<char>, b1: Seq<u8>, s2: Seq<char>, b2: Seq<u8>)
    requires
        ser_str(s1) + b1 == ser_str(s2) + b2,
        vstd::utf8::encode_utf8(s1).len() < 0xFFFF_FFFF_FFFF_FFFF,
        vstd::utf8::encode_utf8(s2).len() < 0xFFFF_FFFF_FFFF_FFFF,
    ensures
        s1 == s2,
        b1 == b2,
{
    let e1 = vstd::utf8::encode_utf8(s1);
    let e2 = vstd::utf8::encode_utf8(s2);
    assert(ser_str(s1) + b1 =~= le(e1.len() as u64) + (e1 + b1));
    assert(ser_str(s2) + b2 =~= le(e2.len() as u64) + (e2 + b2));
    lemma_peel_u64(e1.len() as u64, e1 + b1, e2.len() as u64, e2 + b2);
    lemma_split(e1, b1, e2, b2);
    vstd::utf8::encode_utf8_decode_utf8(s1);
    vstd::utf8::encode_utf8_decode_utf8(s2);
}

/// The string table serializer, unfolded at the front.
pub proof fn lemma_strs_left(xs: Seq<Seq<char>>)
    requires
        xs.len() > 0,
    ensures
        ser_strs(xs) == ser_str(xs[0]) + ser_strs(
            xs.drop_first(),
        ),
    decreases xs.len(),
{
    if xs.len() == 1 {
        assert(xs.drop_last() =~= Seq::<Seq<char>>::empty());
        assert(xs.drop_first() =~= Seq::<Seq<char>>::empty());
        assert(ser_strs(xs) =~= ser_str(xs[0])
            + ser_strs(xs.drop_first()));
    } else {
        let dl = xs.drop_last();
        lemma_strs_left(dl);
        assert(dl[0] == xs[0]);
        assert(dl.drop_first() =~= xs.drop_first().drop_last());
        assert(xs.drop_first().last() == xs.last());
        assert(ser_strs(xs) =~= ser_str(xs[0])
            + ser_strs(xs.drop_first()));
    }
}

/// Equal-length string tables with the same image are equal.
pub proof fn lemma_strs_inj(xs: Seq<Seq<char>>, ys: Seq<Seq<char>>, r1: Seq<u8>, r2: Seq<u8>)
    requires
        xs.len() == ys.len(),
        ser_strs(xs) + r1 == ser_strs(ys) + r2,
        forall|i: int|
            0 <= i < xs.len() ==> vstd::utf8::encode_utf8(#[trigger] xs[i]).len()
                < 0xFFFF_FFFF_FFFF_FFFF,
        forall|i: int|
            0 <= i < ys.len() ==> vstd::utf8::encode_utf8(#[trigger] ys[i]).len()
                < 0xFFFF_FFFF_FFFF_FFFF,
    ensures
        xs == ys,
        r1 == r2,
    decreases xs.len(),
{
    if xs.len() == 0 {
        assert(ser_strs(xs) + r1 =~= r1);
        assert(ser_strs(ys) + r2 =~= r2);
        assert(xs =~= ys);
    } else {
        lemma_strs_left(xs);
        lemma_strs_left(ys);
        assert(ser_str(xs[0]) + (ser_strs(xs.drop_first()) + r1)
            =~= ser_strs(xs) + r1);
        assert(ser_str(ys[0]) + (ser_strs(ys.drop_first()) + r2)
            =~= ser_strs(ys) + r2);
        lemma_peel_str(
            xs[0],
            ser_strs(xs.drop_first()) + r1,
            ys[0],
            ser_strs(ys.drop_first()) + r2,
        );
        assert(forall|i: int|
            0 <= i < xs.drop_first().len() ==> #[trigger] xs.drop_first()[i] == xs[i + 1]);
        assert(forall|i: int|
            0 <= i < ys.drop_first().len() ==> #[trigger] ys.drop_first()[i] == ys[i + 1]);
        lemma_strs_inj(xs.drop_first(), ys.drop_first(), r1, r2);
        assert forall|i: int| 0 <= i < xs.len() implies xs[i] == ys[i] by {
            if i > 0 {
                assert(xs.drop_first()[i - 1] == ys.drop_first()[i - 1]);
            }
        }
        assert(xs =~= ys);
    }
}

/// The identifier table serializer, unfolded at the front.
pub proof fn lemma_uuids_left(us: Seq<Seq<u8>>)
    requires
        us.len() > 0,
    ensures
        ser_uuids(us) == us[0] + ser_uuids(us.drop_first()),
    decreases us.len(),
{
    if us.len() == 1 {
        assert(us.drop_last() =~= Seq::<Seq<u8>>::empty());
        assert(us.drop_first() =~= Seq::<Seq<u8>>::empty());
        assert(ser_uuids(us) =~= us[0] + ser_uuids(
            us.drop_first(),
        ));
    } else {
        let dl = us.drop_last();
        lemma_uuids_left(dl);
        assert(dl[0] == us[0]);
        assert(dl.drop_first() =~= us.drop_first().drop_last());
        assert(us.drop_first().last() == us.last());
        assert(ser_uuids(us) =~= us[0] + ser_uuids(
            us.drop_first(),
        ));
    }
}

/// Equal-length identifier tables with the same image are equal.
pub proof fn lemma_uuids_inj(us: Seq<Seq<u8>>, vs: Seq<Seq<u8>>, r1: Seq<u8>, r2: Seq<u8>)
    requires
        us.len() == vs.len(),
        ser_uuids(us) + r1 == ser_uuids(vs) + r2,
        forall|i: int| 0 <= i < us.len() ==> (#[trigger] us[i]).len() == 16,
        forall|i: int| 0 <= i < vs.len() ==> (#[trigger] vs[i]).len() == 16,
    ensures
        us == vs,
        r1 == r2,
    decreases us.len(),
{
    if us.len() == 0 {
        assert(ser_uuids(us) + r1 =~= r1);
        assert(ser_uuids(vs) + r2 =~= r2);
        assert(us =~= vs);
    } else {
        lemma_uuids_left(us);
        lemma_uuids_left(vs);
        assert(us[0] + (ser_uuids(us.drop_first()) + r1)
            =~= ser_uuids(us) + r1);
        assert(vs[0] + (ser_uuids(vs.drop_first()) + r2)
            =~= ser_uuids(vs) + r2);
        lemma_split(
            us[0],
            ser_uuids(us.drop_first()) + r1,
            vs[0],
            ser_uuids(vs.drop_first()) + r2,
        );
        assert(forall|i: int|
            0 <= i < us.drop_first().len() ==> #[trigger] us.drop_first()[i] == us[i + 1]);
        assert(forall|i: int|
            0 <= i < vs.drop_first().len() ==> #[trigger] vs.drop_first()[i] == vs[i + 1]);
        lemma_uuids_inj(us.drop_first(), vs.drop_first(), r1, r2);
        assert forall|i: int| 0 <= i < us.len() implies us[i] == vs[i] by {
            if i > 0 {
                assert(us.drop_first()[i - 1] == vs.drop_first()[i - 1]);
            }
        }
        assert(us =~= vs);
    }
}

/// The word-list serializer, unfolded at the front.
pub proof fn lemma_words_left(ws: Seq<u64>)
    requires
        ws.len() > 0,
    ensures
        ser_words(ws) == le(ws[0]) + ser_words(ws.drop_first()),
    decreases ws.len(),
{
    if ws.len() == 1 {
        assert(ws.drop_last() =~= Seq::<u64>::empty());
        assert(ws.drop_first() =~= Seq::<u64>::empty());
        assert(ser_words(ws) =~= le(ws[0]) + ser_words(
            ws.drop_first(),
        ));
    } else {
        let dl = ws.drop_last();
        lemma_words_left(dl);
        assert(dl[0] == ws[0]);
        assert(dl.drop_first() =~= ws.drop_first().drop_last());
        assert(ws.drop_first().last() == ws.last());
        assert(ser_words(ws) =~= le(ws[0]) + ser_words(
            ws.drop_first(),
        ));
    }
}

/// Equal-length word lists with the same image are equal.
pub proof fn lemma_words_inj(ws: Seq<u64>, zs: Seq<u64>, r1: Seq<u8>, r2: Seq<u8>)
    requires
        ws.len() == zs.len(),
        ser_words(ws) + r1 == ser_words(zs) + r2,
    ensures
        ws == zs,
        r1 == r2,
    decreases ws.len(),
{
    if ws.len() == 0 {
        assert(ser_words(ws) + r1 =~= r1);
        assert(ser_words(zs) + r2 =~= r2);
        assert(ws =~= zs);
    } else {
        lemma_words_left(ws);
        lemma_words_left(zs);
        assert(le(ws[0]) + (ser_words(ws.drop_first()) + r1)
            =~= ser_words(ws) + r1);
        assert(le(zs[0]) + (ser_words(zs.drop_first()) + r2)
            =~= ser_words(zs) + r2);
        lemma_peel_u64(
            ws[0],
            ser_words(ws.drop_first()) + r1,
            zs[0],
            ser_words(zs.drop_first()) + r2,
        );
        lemma_words_inj(ws.drop_first(), zs.drop_first(), r1, r2);
        assert forall|i: int| 0 <= i < ws.len() implies ws[i] == zs[i] by {
            if i > 0 {
                assert(ws.drop_first()[i - 1] == zs.drop_first()[i - 1]);
            }
        }
        assert(ws =~= zs);
    }
}

/// A trail's events serialized against an explicit predecessor timestamp,
/// consumed from the front; the proof-side mirror of `ser_events`.
pub open spec fn ser_events_from(evs: Seq<EventModel>, prev: u64) -> Seq<u8>
    decreases evs.len(),
{
    if evs.len() == 0 {
        Seq::empty()
    } else {
        le(wsub(evs[0].ts, prev)) + ser_words(
            evs[0].items,
        ) + ser_events_from(evs.drop_first(), evs[0].ts)
    }
}

/// `ser_events_from`, unfolded at the back.
pub proof fn lemma_events_from_snoc(evs: Seq<EventModel>, prev: u64)
    requires
        evs.len() > 0,
    ensures
        ser_events_from(evs, prev) == ser_events_from(evs.drop_last(), prev) + le(
            wsub(
                evs.last().ts,
                if evs.len() >= 2 {
                    evs[evs.len() - 2].ts
                } else {
                    prev
                },
            ),
        ) + ser_words(evs.last().items),
    decreases evs.len(),
{
    if evs.len() == 1 {
        assert(evs.drop_last() =~= Seq::<EventModel>::empty());
        assert(evs.drop_first() =~= Seq::<EventModel>::empty());
        assert(ser_events_from(evs.drop_first(), evs[0].ts) =~= Seq::<u8>::empty());
        assert(ser_events_from(evs.drop_last(), prev) =~= Seq::<u8>::empty());
        assert(evs.last() == evs[0]);
        assert(ser_events_from(evs, prev) =~= ser_events_from(evs.drop_last(), prev)
            + le(wsub(evs.last().ts, prev))
            + ser_words(evs.last().items));
    } else {
        let df = evs.drop_first();
        lemma_events_from_snoc(df, evs[0].ts);
        assert(df.last() == evs.last());
        assert(df.drop_last() =~= evs.drop_last().drop_first());
        assert(evs.drop_last()[0] == evs[0]);
        if evs.len() >= 3 {
            assert(df[df.len() - 2] == evs[evs.len() - 2]);
        } else {
            assert(df.len() == 1);
            assert(evs[0].ts == evs[evs.len() - 2].ts);
        }
        assert(ser_events_from(evs, prev) =~= ser_events_from(evs.drop_last(), prev)
            + le(
            wsub(
                evs.last().ts,
                if evs.len() >= 2 {
                    evs[evs.len() - 2].ts
                } else {
                    prev
                },
            ),
        ) + ser_words(evs.last().items));
    }
}

/// The two event serializers agree for a trail's first predecessor 0.
pub proof fn lemma_events_from_eq(evs: Seq<EventModel>)
    ensures
        ser_events(evs) == ser_events_from(evs, 0),
    decreases evs.len(),
{
    if evs.len() > 0 {
        lemma_events_from_eq(evs.drop_last());
        lemma_events_from_snoc(evs, 0);
        if evs.len() >= 2 {
            assert(prev_ts(evs.drop_last()) == evs[evs.len() - 2].ts);
        } else {
            assert(prev_ts(evs.drop_last()) == 0);
        }
        assert(ser_events(evs) =~= ser_events_from(evs, 0));
    }
}

/// Equal-length event sequences with the same image, decoded against the
/// same predecessor, are equal.
pub proof fn lemma_events_inj(
    e1: Seq<EventModel>,
    e2: Seq<EventModel>,
    prev: u64,
    r1: Seq<u8>,
    r2: Seq<u8>,
)
    requires
        e1.len() == e2.len(),
        forall|i: int|
            0 <= i < e1.len() ==> (#[trigger] e1[i]).items.len() == (#[trigger] e2[i]).items.len(),
        ser_events_from(e1, prev) + r1 == ser_events_from(e2, prev) + r2,
    ensures
        e1 == e2,
        r1 == r2,
    decreases e1.len(),
{
    if e1.len() == 0 {
        assert(ser_events_from(e1, prev) + r1 =~= r1);
        assert(ser_events_from(e2, prev) + r2 =~= r2);
        assert(e1 =~= e2);
    } else {
        let w1 = ser_words(e1[0].items);
        let w2 = ser_words(e2[0].items);
        let rest1 = ser_events_from(e1.drop_first(), e1[0].ts);
        let rest2 = ser_events_from(e2.drop_first(), e2[0].ts);
        assert(le(wsub(e1[0].ts, prev)) + (w1 + (rest1 + r1))
            =~= ser_events_from(e1, prev) + r1);
        assert(le(wsub(e2[0].ts, prev)) + (w2 + (rest2 + r2))
            =~= ser_events_from(e2, prev) + r2);
        lemma_peel_u64(
            wsub(e1[0].ts, prev),
            w1 + (rest1 + r1),
            wsub(e2[0].ts, prev),
            w2 + (rest2 + r2),
        );
        assert(wadd(prev, wsub(e1[0].ts, prev)) == e1[0].ts);
        assert(wadd(prev, wsub(e2[0].ts, prev)) == e2[0].ts);
        assert(e1[0].ts == e2[0].ts);
        assert(w1 + (rest1 + r1) =~= ser_words(e1[0].items) + (rest1 + r1));
        lemma_words_inj(e1[0].items, e2[0].items, rest1 + r1, rest2 + r2);
        assert(e1[0] =~= e2[0]);
        assert(forall|i: int|
            0 <= i < e1.drop_first().len() ==> #[trigger] e1.drop_first()[i] == e1[i + 1]);
        assert(forall|i: int|
            0 <= i < e2.drop_first().len() ==> #[trigger] e2.drop_first()[i] == e2[i + 1]);
        lemma_events_inj(e1.drop_first(), e2.drop_first(), e1[0].ts, r1, r2);
        assert forall|i: int| 0 <= i < e1.len() implies e1[i] == e2[i] by {
            if i > 0 {
                assert(e1.drop_first()[i - 1] == e2.drop_first()[i - 1]);
            }
        }
        assert(e1 =~= e2);
    }
}

/// The lexicon serializer, unfolded at the front.
pub proof fn lemma_lex_left(ls: Seq<Seq<Seq<char>>>)
    requires
        ls.len() > 0,
    ensures
        ser_lexicons(ls) == le(ls[0].len() as u64)
            + ser_strs(ls[0]) + ser_lexicons(ls.drop_first()),
    decreases ls.len(),
{
    if ls.len() == 1 {
        assert(ls.drop_last() =~= Seq::<Seq<Seq<char>>>::empty());
        assert(ls.drop_first() =~= Seq::<Seq<Seq<char>>>::empty());
        assert(ser_lexicons(ls) =~= le(ls[0].len() as u64)
            + ser_strs(ls[0]) + ser_lexicons(ls.drop_first()));
    } else {
        let dl = ls.drop_last();
        lemma_lex_left(dl);
        assert(dl[0] == ls[0]);
        assert(dl.drop_first() =~= ls.drop_first().drop_last());
        assert(ls.drop_first().last() == ls.last());
        assert(ser_lexicons(ls) =~= le(ls[0].len() as u64)
            + ser_strs(ls[0]) + ser_lexicons(ls.drop_first()));
    }
}

/// Equal-length lexicon sections with the same image are equal.
pub proof fn lemma_lex_inj(l1: Seq<Seq<Seq<char>>>, l2: Seq<Seq<Seq<char>>>, r1: Seq<u8>, r2: Seq<u8>)
    requires
        l1.len() == l2.len(),
        forall|f: int| 0 <= f < l1.len() ==> (#[trigger] l1[f]).len() < 0xFFFF_FFFF_FFFF_FFFF,
        forall|f: int| 0 <= f < l2.len() ==> (#[trigger] l2[f]).len() < 0xFFFF_FFFF_FFFF_FFFF,
        forall|f: int, v: int|
            0 <= f < l1.len() && 0 <= v < l1[f].len() ==> vstd::utf8::encode_utf8(
                #[trigger] l1[f][v],
            ).len() < 0xFFFF_FFFF_FFFF_FFFF,
        forall|f: int, v: int|
            0 <= f < l2.len() && 0 <= v < l2[f].len() ==> vstd::utf8::encode_utf8(
                #[trigger] l2[f][v],
            ).len() < 0xFFFF_FFFF_FFFF_FFFF,
        ser_lexicons(l1) + r1 == ser_lexicons(l2) + r2,
    ensures
        l1 == l2,
        r1 == r2,
    decreases l1.len(),
{
    if l1.len() == 0 {
        assert(ser_lexicons(l1) + r1 =~= r1);
        assert(ser_lexicons(l2) + r2 =~= r2);
        assert(l1 =~= l2);
    } else {
        lemma_lex_left(l1);
        lemma_lex_left(l2);
        let rest1 = ser_lexicons(l1.drop_first());
        let rest2 = ser_lexicons(l2.drop_first());
        assert(le(l1[0].len() as u64) + (ser_strs(l1[0]) + (rest1
            + r1)) =~= ser_lexicons(l1) + r1);
        assert(le(l2[0].len() as u64) + (ser_strs(l2[0]) + (rest2
            + r2)) =~= ser_lexicons(l2) + r2);
        lemma_peel_u64(
            l1[0].len() as u64,
            ser_strs(l1[0]) + (rest1 + r1),
            l2[0].len() as u64,
            ser_strs(l2[0]) + (rest2 + r2),
        );
        assert(l1[0].len() == l2[0].len());
        lemma_strs_inj(l1[0], l2[0], rest1 + r1, rest2 + r2);
        assert(forall|i: int|
            0 <= i < l1.drop_first().len() ==> #[trigger] l1.drop_first()[i] == l1[i + 1]);
        assert(forall|i: int|
            0 <= i < l2.drop_first().len() ==> #[trigger] l2.drop_first()[i] == l2[i + 1]);
        lemma_lex_inj(l1.drop_first(), l2.drop_first(), r1, r2);
        assert forall|i: int| 0 <= i < l1.len() implies l1[i] == l2[i] by {
            if i > 0 {
                assert(l1.drop_first()[i - 1] == l2.drop_first()[i - 1]);
            }
        }
        assert(l1 =~= l2);
    }
}

/// The trail-block serializer, unfolded at the front.
pub proof fn lemma_trails_left(ts: Seq<Seq<EventModel>>)
    requires
        ts.len() > 0,
    ensures
        ser_trails(ts) == le(ts[0].len() as u64)
            + ser_events(ts[0]) + ser_trails(ts.drop_first()),
    decreases ts.len(),
{
    if ts.len() == 1 {
        assert(ts.drop_last() =~= Seq::<Seq<EventModel>>::empty());
        assert(ts.drop_first() =~= Seq::<Seq<EventModel>>::empty());
        assert(ser_trails(ts) =~= le(ts[0].len() as u64)
            + ser_events(ts[0]) + ser_trails(ts.drop_first()));
    } else {
        let dl = ts.drop_last();
        lemma_trails_left(dl);
        assert(dl[0] == ts[0]);
        assert(dl.drop_first() =~= ts.drop_first().drop_last());
        assert(ts.drop_first().last() == ts.last());
        assert(ser_trails(ts) =~= le(ts[0].len() as u64)
            + ser_events(ts[0]) + ser_trails(ts.drop_first()));
    }
}

/// Equal-length trail sections with the same image are equal, provided
/// every event carries the same number of item slots.
pub proof fn lemma_trails_inj(
    t1: Seq<Seq<EventModel>>,
    t2: Seq<Seq<EventModel>>,
    k: int,
    r1: Seq<u8>,
    r2: Seq<u8>,
)
    requires
        t1.len() == t2.len(),
        forall|t: int| 0 <= t < t1.len() ==> (#[trigger] t1[t]).len() < 0xFFFF_FFFF_FFFF_FFFF,
        forall|t: int| 0 <= t < t2.len() ==> (#[trigger] t2[t]).len() < 0xFFFF_FFFF_FFFF_FFFF,
        forall|t: int, e: int|
            0 <= t < t1.len() && 0 <= e < t1[t].len() ==> (#[trigger] t1[t][e]).items.len() == k,
        forall|t: int, e: int|
            0 <= t < t2.len() && 0 <= e < t2[t].len() ==> (#[trigger] t2[t][e]).items.len() == k,
        ser_trails(t1) + r1 == ser_trails(t2) + r2,
    ensures
        t1 == t2,
        r1 == r2,
    decreases t1.len(),
{
    if t1.len() == 0 {
        assert(ser_trails(t1) + r1 =~= r1);
        assert(ser_trails(t2) + r2 =~= r2);
        assert(t1 =~= t2);
    } else {
        lemma_trails_left(t1);
        lemma_trails_left(t2);
        let rest1 = ser_trails(t1.drop_first());
        let rest2 = ser_trails(t2.drop_first());
        assert(le(t1[0].len() as u64) + (ser_events(t1[0]) + (rest1
            + r1)) =~= ser_trails(t1) + r1);
        assert(le(t2[0].len() as u64) + (ser_events(t2[0]) + (rest2
            + r2)) =~= ser_trails(t2) + r2);
        lemma_peel_u64(
            t1[0].len() as u64,
            ser_events(t1[0]) + (rest1 + r1),
            t2[0].len() as u64,
            ser_events(t2[0]) + (rest2 + r2),
        );
        assert(t1[0].len() == t2[0].len());
        lemma_events_from_eq(t1[0]);
        lemma_events_from_eq(t2[0]);
        lemma_events_inj(t1[0], t2[0], 0, rest1 + r1, rest2 + r2);
        assert(forall|i: int|
            0 <= i < t1.drop_first().len() ==> #[trigger] t1.drop_first()[i] == t1[i + 1]);
        assert(forall|i: int|
            0 <= i < t2.drop_first().len() ==> #[trigger] t2.drop_first()[i] == t2[i + 1]);
        lemma_trails_inj(t1.drop_first(), t2.drop_first(), k, r1, r2);
        assert forall|i: int| 0 <= i < t1.len() implies t1[i] == t2[i] by {
            if i > 0 {
                assert(t1.drop_first()[i - 1] == t2.drop_first()[i - 1]);
            }
        }
        assert(t1 =~= t2);
    }
}

} // verus!
