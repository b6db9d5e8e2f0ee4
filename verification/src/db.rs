//! The read side: a finalized database reopened from its byte image, its
//! metadata accessors and identifier lookups, and the cursor machinery that
//! replays one trail's events at a time.

use vstd::prelude::*;
use crate::cons::{find_uuid, uuid_eq, EventRec};
use crate::errors::Error;
use crate::item::{item_field, item_val, spec_item_field, spec_item_val, Field, Item, Timestamp, TrailId, Uuid, Version};
use crate::model::{
    all_distinct, event_wf, fieldname_ok, find_pos, lemma_find_pos, store_wf, total_events,
    ts_bounds, EventModel, Store, DB_VERSION, MAX_FIELDNAME_LEN, MAX_FIELDS, MAX_LEXICON_SIZE,
    MAX_TIMESTAMP, MAX_TRAILS, MAX_TRAIL_LEN, MAX_VALUE_LEN,
};
use crate::serial::{
    le, lemma_chunk_at, lemma_events_from_eq, lemma_lex_left, lemma_trails_left, lemma_words_left,
    parse_strings, parse_uuids, prev_ts, read_u64, ser_db, ser_events, ser_events_from,
    ser_lexicons, ser_strs, ser_trails, ser_uuids, ser_words, wadd, wsub, MAGIC,
};

verus! {

/// True exactly when no two strings in the list are equal.
fn strings_distinct(v: &Vec<String>) -> (r: bool)
    ensures
        r <==> all_distinct(v.deep_view()),
{
    let n = v.len();
    for i in 0..n
        invariant
            n == v@.len(),
            forall|a: int, b: int|
                0 <= a < b < n && a < i ==> v.deep_view()[a] != v.deep_view()[b],
    {
        for j in (i + 1)..n
            invariant
                i < n == v@.len(),
                forall|a: int, b: int|
                    0 <= a < b < n && a < i ==> v.deep_view()[a] != v.deep_view()[b],
                forall|b: int| i < b < j ==> v.deep_view()[i as int] != v.deep_view()[b],
        {
            let same = v[i].eq(&v[j]);
            proof {
                assert(v.deep_view()[i as int] == v@[i as int]@);
                assert(v.deep_view()[j as int] == v@[j as int]@);
            }
            if same {
                proof {
                    assert(!all_distinct(v.deep_view()));
                }
                return false;
            }
        }
    }
    true
}

/// True exactly when no two identifiers in the list are equal.
fn uuids_distinct(v: &Vec<Uuid>) -> (r: bool)
    ensures
        r <==> all_distinct(v.deep_view()),
{
    let n = v.len();
    for i in 0..n
        invariant
            n == v@.len(),
            forall|a: int, b: int|
                0 <= a < b < n && a < i ==> v.deep_view()[a] != v.deep_view()[b],
    {
        for j in (i + 1)..n
            invariant
                i < n == v@.len(),
                forall|a: int, b: int|
                    0 <= a < b < n && a < i ==> v.deep_view()[a] != v.deep_view()[b],
                forall|b: int| i < b < j ==> v.deep_view()[i as int] != v.deep_view()[b],
        {
            let same = uuid_eq(&v[i], &v[j]);
            proof {
                assert(v.deep_view()[i as int] == v@[i as int].deep_view());
                assert(v.deep_view()[j as int] == v@[j as int].deep_view());
                assert(v@[i as int].deep_view() =~= v@[i as int]@);
                assert(v@[j as int].deep_view() =~= v@[j as int]@);
            }
            if same {
                proof {
                    assert(v.deep_view()[i as int] == v.deep_view()[j as int]);
                    assert(!all_distinct(v.deep_view()));
                }
                return false;
            }
        }
    }
    true
}

/// The shape of a valid lexicon section for `k` fields.
pub open spec fn lex_section_ok(ls: Seq<Seq<Seq<char>>>, k: int) -> bool {
    &&& ls.len() == k
    &&& forall|f: int| 0 <= f < ls.len() ==> (#[trigger] ls[f]).len() <= MAX_LEXICON_SIZE
    &&& forall|f: int| 0 <= f < ls.len() ==> all_distinct(#[trigger] ls[f])
    &&& forall|f: int, v: int|
        0 <= f < ls.len() && 0 <= v < ls[f].len() ==> vstd::utf8::encode_utf8(
            #[trigger] ls[f][v],
        ).len() <= MAX_VALUE_LEN
}

/// One step of the lexicon section: a valid remainder starting at field
/// `f` pins down the count word and where the value table starts.
proof fn lemma_lex_step(bytes: Seq<u8>, cur: int, ls: Seq<Seq<Seq<char>>>, f: int, rest: Seq<u8>)
    requires
        0 <= cur <= bytes.len(),
        0 <= f < ls.len(),
        ser_lexicons(ls.skip(f)) + rest == bytes.skip(cur),
    ensures
        bytes.len() - cur >= 8,
        bytes.subrange(cur, cur + 8) == le(ls[f].len() as u64),
        bytes.skip(cur + 8) == ser_strs(ls[f]) + (ser_lexicons(ls.skip(f + 1)) + rest),
{
    let tail = ls.skip(f);
    lemma_lex_left(tail);
    assert(tail[0] == ls[f]);
    assert(tail.drop_first() =~= ls.skip(f + 1));
    vstd::bytes::lemma_auto_spec_u64_to_from_le_bytes();
    assert(le(ls[f].len() as u64) + (ser_strs(ls[f]) + (ser_lexicons(ls.skip(f + 1)) + rest)) =~= ser_lexicons(
        tail,
    ) + rest);
    lemma_chunk_at(
        bytes,
        cur,
        le(ls[f].len() as u64),
        ser_strs(ls[f]) + (ser_lexicons(ls.skip(f + 1)) + rest),
    );
}

/// Reads the lexicon section: one counted value table per user field.
/// Succeeds on every position where a valid lexicon section is encoded,
/// returning exactly it.
fn parse_lexicons(bytes: &Vec<u8>, pos: usize, k: usize) -> (r: Option<(Vec<Vec<String>>, usize)>)
    requires
        pos <= bytes@.len(),
    ensures
        forall|ls: Seq<Seq<Seq<char>>>, rest: Seq<u8>|
            (#[trigger] (ser_lexicons(ls) + rest) == bytes@.skip(pos as int) && lex_section_ok(
                ls,
                k as int,
            )) ==> (r matches Option::Some(p) && p.0.deep_view() == ls && bytes@.skip(p.1 as int)
                == rest),
        match r {
            Option::Some(p) => {
                &&& pos <= p.1 <= bytes@.len()
                &&& bytes@.subrange(pos as int, p.1 as int) == ser_lexicons(p.0.deep_view())
                &&& p.0@.len() == k
                &&& forall|f: int|
                    0 <= f < k ==> (#[trigger] p.0.deep_view()[f]).len() <= MAX_LEXICON_SIZE
                &&& forall|f: int| 0 <= f < k ==> all_distinct(#[trigger] p.0.deep_view()[f])
                &&& forall|f: int, v: int|
                    0 <= f < k && 0 <= v < p.0.deep_view()[f].len() ==> vstd::utf8::encode_utf8(
                        #[trigger] p.0.deep_view()[f][v],
                    ).len() <= MAX_VALUE_LEN
            },
            Option::None => true,
        },
{
    let l = bytes.len();
    let mut out: Vec<Vec<String>> = Vec::new();
    let mut cur: usize = pos;
    let mut f: usize = 0;
    proof {
        assert forall|ls: Seq<Seq<Seq<char>>>, rest: Seq<u8>|
            (#[trigger] (ser_lexicons(ls) + rest) == bytes@.skip(pos as int) && lex_section_ok(
                ls,
                k as int,
            )) implies out.deep_view() == ls.take(0) && ser_lexicons(ls.skip(0)) + rest
            == bytes@.skip(pos as int) by {
            assert(out.deep_view() =~= ls.take(0));
            assert(ls.skip(0) =~= ls);
        }
    }
    while f < k
        invariant
            f <= k,
            out@.len() == f,
            pos <= cur <= bytes@.len(),
            l == bytes@.len(),
            bytes@.subrange(pos as int, cur as int) == ser_lexicons(out.deep_view()),
            forall|ls: Seq<Seq<Seq<char>>>, rest: Seq<u8>|
                (#[trigger] (ser_lexicons(ls) + rest) == bytes@.skip(pos as int) && lex_section_ok(
                    ls,
                    k as int,
                )) ==> out.deep_view() == ls.take(f as int) && ser_lexicons(ls.skip(f as int))
                    + rest == bytes@.skip(cur as int),
            forall|g: int|
                0 <= g < f ==> (#[trigger] out.deep_view()[g]).len() <= MAX_LEXICON_SIZE,
            forall|g: int| 0 <= g < f ==> all_distinct(#[trigger] out.deep_view()[g]),
            forall|g: int, v: int|
                0 <= g < f && 0 <= v < out.deep_view()[g].len() ==> vstd::utf8::encode_utf8(
                    #[trigger] out.deep_view()[g][v],
                ).len() <= MAX_VALUE_LEN,
        decreases k - f,
    {
        if l - cur < 8 {
            proof {
                assert forall|ls: Seq<Seq<Seq<char>>>, rest: Seq<u8>|
                    (#[trigger] (ser_lexicons(ls) + rest) == bytes@.skip(pos as int)
                        && lex_section_ok(ls, k as int)) implies false by {
                    lemma_lex_step(bytes@, cur as int, ls, f as int, rest);
                }
            }
            return Option::None;
        }
        let cw = read_u64(bytes, cur);
        if cw > MAX_LEXICON_SIZE as u64 {
            proof {
                vstd::bytes::lemma_auto_spec_u64_to_from_le_bytes();
                assert forall|ls: Seq<Seq<Seq<char>>>, rest: Seq<u8>|
                    (#[trigger] (ser_lexicons(ls) + rest) == bytes@.skip(pos as int)
                        && lex_section_ok(ls, k as int)) implies false by {
                    lemma_lex_step(bytes@, cur as int, ls, f as int, rest);
                    assert(cw == ls[f as int].len() as u64);
                }
            }
            return Option::None;
        }
        let ghost prev_dv = out.deep_view();
        let ghost prev_cur = cur as int;
        match parse_strings(bytes, cur + 8, cw as usize, 0, MAX_VALUE_LEN as u64) {
            Option::None => {
                proof {
                    vstd::bytes::lemma_auto_spec_u64_to_from_le_bytes();
                    assert forall|ls: Seq<Seq<Seq<char>>>, rest: Seq<u8>|
                        (#[trigger] (ser_lexicons(ls) + rest) == bytes@.skip(pos as int)
                            && lex_section_ok(ls, k as int)) implies false by {
                        lemma_lex_step(bytes@, cur as int, ls, f as int, rest);
                        assert(cw == ls[f as int].len() as u64);
                        assert(forall|v: int|
                            0 <= v < ls[f as int].len() ==> vstd::utf8::encode_utf8(
                                #[trigger] ls[f as int][v],
                            ).len() <= MAX_VALUE_LEN);
                        assert(ser_strs(ls[f as int]) + (ser_lexicons(ls.skip(f as int + 1))
                            + rest) == bytes@.skip(cur as int + 8));
                    }
                }
                return Option::None;
            },
            Option::Some((table, p2)) => {
                proof {
                    vstd::bytes::lemma_auto_spec_u64_to_from_le_bytes();
                    assert forall|ls: Seq<Seq<Seq<char>>>, rest: Seq<u8>|
                        (#[trigger] (ser_lexicons(ls) + rest) == bytes@.skip(pos as int)
                            && lex_section_ok(ls, k as int)) implies table.deep_view()
                        == ls[f as int] && bytes@.skip(p2 as int) == ser_lexicons(
                        ls.skip(f as int + 1),
                    ) + rest by {
                        lemma_lex_step(bytes@, cur as int, ls, f as int, rest);
                        assert(cw == ls[f as int].len() as u64);
                        assert(forall|v: int|
                            0 <= v < ls[f as int].len() ==> vstd::utf8::encode_utf8(
                                #[trigger] ls[f as int][v],
                            ).len() <= MAX_VALUE_LEN);
                        assert(ser_strs(ls[f as int]) + (ser_lexicons(ls.skip(f as int + 1))
                            + rest) == bytes@.skip(cur as int + 8));
                    }
                }
                if !strings_distinct(&table) {
                    proof {
                        assert forall|ls: Seq<Seq<Seq<char>>>, rest: Seq<u8>|
                            (#[trigger] (ser_lexicons(ls) + rest) == bytes@.skip(pos as int)
                                && lex_section_ok(ls, k as int)) implies false by {
                            assert(table.deep_view() == ls[f as int]);
                            assert(all_distinct(ls[f as int]));
                        }
                    }
                    return Option::None;
                }
                let ghost table_dv = table.deep_view();
                out.push(table);
                cur = p2;
                proof {
                    assert(forall|g: int|
                        0 <= g < out@.len() ==> #[trigger] out.deep_view()[g]
                            == out@[g].deep_view());
                    assert(out.deep_view() =~= prev_dv.push(table_dv));
                    assert(out.deep_view().drop_last() =~= prev_dv);
                    assert(bytes@.subrange(pos as int, cur as int) =~= bytes@.subrange(
                        pos as int,
                        prev_cur,
                    ) + bytes@.subrange(prev_cur, prev_cur + 8) + bytes@.subrange(
                        prev_cur + 8,
                        cur as int,
                    ));
                    assert(bytes@.subrange(pos as int, cur as int) == ser_lexicons(
                        out.deep_view(),
                    ));
                    assert forall|ls: Seq<Seq<Seq<char>>>, rest: Seq<u8>|
                        (#[trigger] (ser_lexicons(ls) + rest) == bytes@.skip(pos as int)
                            && lex_section_ok(ls, k as int)) implies out.deep_view() == ls.take(
                        f as int + 1,
                    ) && ser_lexicons(ls.skip(f as int + 1)) + rest == bytes@.skip(
                        cur as int,
                    ) by {
                        assert(prev_dv == ls.take(f as int));
                        assert(table_dv == ls[f as int]);
                        assert(out.deep_view() =~= ls.take(f as int + 1));
                    }
                }
            },
        }
        f += 1;
    }
    proof {
        assert forall|ls: Seq<Seq<Seq<char>>>, rest: Seq<u8>|
            (#[trigger] (ser_lexicons(ls) + rest) == bytes@.skip(pos as int) && lex_section_ok(
                ls,
                k as int,
            )) implies out.deep_view() == ls && bytes@.skip(cur as int) == rest by {
            assert(out.deep_view() == ls.take(k as int));
            assert(ls.take(k as int) =~= ls);
            assert(ls.skip(k as int) =~= Seq::<Seq<Seq<char>>>::empty());
            assert(ser_lexicons(ls.skip(k as int)) + rest =~= rest);
        }
    }
    Option::Some((out, cur))
}

/// A valid event encoding at `pos` pins down the delta word and where the
/// item words start.
proof fn lemma_event_step(bytes: Seq<u8>, pos: int, ev: EventModel, prev: u64, rest: Seq<u8>)
    requires
        0 <= pos <= bytes.len(),
        le(wsub(ev.ts, prev)) + ser_words(ev.items) + rest == bytes.skip(pos),
    ensures
        bytes.len() - pos >= 8,
        bytes.subrange(pos, pos + 8) == le(wsub(ev.ts, prev)),
        bytes.skip(pos + 8) == ser_words(ev.items) + rest,
{
    vstd::bytes::lemma_auto_spec_u64_to_from_le_bytes();
    assert(le(wsub(ev.ts, prev)) + (ser_words(ev.items) + rest) =~= le(wsub(ev.ts, prev))
        + ser_words(ev.items) + rest);
    lemma_chunk_at(bytes, pos, le(wsub(ev.ts, prev)), ser_words(ev.items) + rest);
}

/// One step of a word list: a valid remainder starting at slot `f` pins
/// down the word there and where the next slot starts.
proof fn lemma_words_step(bytes: Seq<u8>, cur: int, ws: Seq<u64>, f: int, rest: Seq<u8>)
    requires
        0 <= cur <= bytes.len(),
        0 <= f < ws.len(),
        ser_words(ws.skip(f)) + rest == bytes.skip(cur),
    ensures
        bytes.len() - cur >= 8,
        bytes.subrange(cur, cur + 8) == le(ws[f]),
        bytes.skip(cur + 8) == ser_words(ws.skip(f + 1)) + rest,
{
    let tail = ws.skip(f);
    lemma_words_left(tail);
    assert(tail[0] == ws[f]);
    assert(tail.drop_first() =~= ws.skip(f + 1));
    vstd::bytes::lemma_auto_spec_u64_to_from_le_bytes();
    assert(le(ws[f]) + (ser_words(ws.skip(f + 1)) + rest) =~= ser_words(tail) + rest);
    lemma_chunk_at(bytes, cur, le(ws[f]), ser_words(ws.skip(f + 1)) + rest);
}

/// Reads one event: a wrapped timestamp delta against `prev`, then one item
/// word per user field, each checked against its slot and its lexicon.
/// Succeeds on every position where an event well-formed for these
/// lexicons is encoded, returning exactly it.
fn parse_event(bytes: &Vec<u8>, pos: usize, lexicons: &Vec<Vec<String>>, prev: u64) -> (r: Option<
    (EventRec, usize),
>)
    requires
        pos <= bytes@.len(),
    ensures
        match r {
            Option::Some(p) => {
                &&& pos <= p.1 <= bytes@.len()
                &&& bytes@.subrange(pos as int, p.1 as int) == le(wsub(p.0@.ts, prev))
                    + ser_words(p.0@.items)
                &&& event_wf(p.0@, lexicons.deep_view())
            },
            Option::None => true,
        },
        forall|ev: EventModel, rest: Seq<u8>|
            (#[trigger] (le(wsub(ev.ts, prev)) + ser_words(ev.items) + rest) == bytes@.skip(
                pos as int,
            ) && event_wf(ev, lexicons.deep_view())) ==> (r matches Option::Some(p) && p.0@ == ev
                && bytes@.skip(p.1 as int) == rest),
{
    let l = bytes.len();
    if l - pos < 8 {
        proof {
            assert forall|ev: EventModel, rest: Seq<u8>|
                (#[trigger] (le(wsub(ev.ts, prev)) + ser_words(ev.items) + rest) == bytes@.skip(
                    pos as int,
                ) && event_wf(ev, lexicons.deep_view())) implies false by {
                lemma_event_step(bytes@, pos as int, ev, prev, rest);
            }
        }
        return Option::None;
    }
    let delta = read_u64(bytes, pos);
    let ts = prev.wrapping_add(delta);
    if ts > MAX_TIMESTAMP {
        proof {
            vstd::bytes::lemma_auto_spec_u64_to_from_le_bytes();
            assert forall|ev: EventModel, rest: Seq<u8>|
                (#[trigger] (le(wsub(ev.ts, prev)) + ser_words(ev.items) + rest) == bytes@.skip(
                    pos as int,
                ) && event_wf(ev, lexicons.deep_view())) implies false by {
                lemma_event_step(bytes@, pos as int, ev, prev, rest);
                assert(delta == wsub(ev.ts, prev));
                assert(wadd(prev, wsub(ev.ts, prev)) == ev.ts);
            }
        }
        return Option::None;
    }
    proof {
        crate::serial::lemma_wrap_unwrap(prev, delta);
    }
    let k = lexicons.len();
    let mut items: Vec<Item> = Vec::new();
    let mut cur: usize = pos + 8;
    let mut f: usize = 0;
    proof {
        vstd::bytes::lemma_auto_spec_u64_to_from_le_bytes();
        assert forall|ev: EventModel, rest: Seq<u8>|
            (#[trigger] (le(wsub(ev.ts, prev)) + ser_words(ev.items) + rest) == bytes@.skip(
                pos as int,
            ) && event_wf(ev, lexicons.deep_view())) implies ts == ev.ts && Seq::new(
            items@.len(),
            |i: int| items@[i].0,
        ) == ev.items.take(0) && ser_words(ev.items.skip(0)) + rest == bytes@.skip(
            cur as int,
        ) by {
            lemma_event_step(bytes@, pos as int, ev, prev, rest);
            assert(delta == wsub(ev.ts, prev));
            assert(wadd(prev, wsub(ev.ts, prev)) == ev.ts);
            assert(Seq::new(items@.len(), |i: int| items@[i].0) =~= ev.items.take(0));
            assert(ev.items.skip(0) =~= ev.items);
        }
    }
    while f < k
        invariant
            f <= k == lexicons@.len(),
            items@.len() == f,
            pos + 8 <= cur <= bytes@.len(),
            l == bytes@.len(),
            bytes@.subrange(pos as int + 8, cur as int) == ser_words(
                Seq::new(items@.len(), |i: int| items@[i].0),
            ),
            forall|g: int|
                0 <= g < f ==> spec_item_field(#[trigger] items@[g].0) == g + 1
                    && spec_item_val(items@[g].0) < lexicons.deep_view()[g].len(),
            forall|ev: EventModel, rest: Seq<u8>|
                (#[trigger] (le(wsub(ev.ts, prev)) + ser_words(ev.items) + rest) == bytes@.skip(
                    pos as int,
                ) && event_wf(ev, lexicons.deep_view())) ==> ts == ev.ts && Seq::new(
                    items@.len(),
                    |i: int| items@[i].0,
                ) == ev.items.take(f as int) && ser_words(ev.items.skip(f as int)) + rest
                    == bytes@.skip(cur as int),
        decreases k - f,
    {
        if l - cur < 8 {
            proof {
                assert forall|ev: EventModel, rest: Seq<u8>|
                    (#[trigger] (le(wsub(ev.ts, prev)) + ser_words(ev.items) + rest)
                        == bytes@.skip(pos as int) && event_wf(ev, lexicons.deep_view()))
                    implies false by {
                    assert(ev.items.len() == lexicons@.len());
                    lemma_words_step(bytes@, cur as int, ev.items, f as int, rest);
                }
            }
            return Option::None;
        }
        let w = read_u64(bytes, cur);
        if item_field(w) != f as u64 + 1 {
            proof {
                vstd::bytes::lemma_auto_spec_u64_to_from_le_bytes();
                assert forall|ev: EventModel, rest: Seq<u8>|
                    (#[trigger] (le(wsub(ev.ts, prev)) + ser_words(ev.items) + rest)
                        == bytes@.skip(pos as int) && event_wf(ev, lexicons.deep_view()))
                    implies false by {
                    assert(ev.items.len() == lexicons@.len());
                    lemma_words_step(bytes@, cur as int, ev.items, f as int, rest);
                    assert(w == ev.items[f as int]);
                    assert(spec_item_field(ev.items[f as int]) == f + 1);
                }
            }
            return Option::None;
        }
        if item_val(w) >= lexicons[f].len() as u64 {
            proof {
                vstd::bytes::lemma_auto_spec_u64_to_from_le_bytes();
                assert forall|ev: EventModel, rest: Seq<u8>|
                    (#[trigger] (le(wsub(ev.ts, prev)) + ser_words(ev.items) + rest)
                        == bytes@.skip(pos as int) && event_wf(ev, lexicons.deep_view()))
                    implies false by {
                    assert(ev.items.len() == lexicons@.len());
                    lemma_words_step(bytes@, cur as int, ev.items, f as int, rest);
                    assert(w == ev.items[f as int]);
                    assert(spec_item_field(ev.items[f as int]) == f + 1);
                    assert(spec_item_val(ev.items[f as int]) < lexicons.deep_view()[
                        f as int
                    ].len());
                    assert(lexicons.deep_view()[f as int] == lexicons@[f as int].deep_view());
                }
            }
            return Option::None;
        }
        let ghost prev_words = Seq::new(items@.len(), |i: int| items@[i].0);
        let ghost prev_cur = cur as int;
        items.push(Item(w));
        cur = cur + 8;
        proof {
            assert(lexicons.deep_view()[f as int] == lexicons@[f as int].deep_view());
            let words = Seq::new(items@.len(), |i: int| items@[i].0);
            assert(words =~= prev_words.push(w));
            assert(words.drop_last() =~= prev_words);
            assert(bytes@.subrange(pos as int + 8, cur as int) =~= bytes@.subrange(
                pos as int + 8,
                prev_cur,
            ) + bytes@.subrange(prev_cur, cur as int));
            assert(bytes@.subrange(pos as int + 8, cur as int) == ser_words(words));
            vstd::bytes::lemma_auto_spec_u64_to_from_le_bytes();
            assert forall|ev: EventModel, rest: Seq<u8>|
                (#[trigger] (le(wsub(ev.ts, prev)) + ser_words(ev.items) + rest) == bytes@.skip(
                    pos as int,
                ) && event_wf(ev, lexicons.deep_view())) implies ts == ev.ts && words
                == ev.items.take(f as int + 1) && ser_words(ev.items.skip(f as int + 1)) + rest
                == bytes@.skip(cur as int) by {
                assert(ev.items.len() == lexicons@.len());
                assert(prev_words == ev.items.take(f as int));
                lemma_words_step(bytes@, prev_cur, ev.items, f as int, rest);
                assert(w == ev.items[f as int]);
                assert(words =~= ev.items.take(f as int + 1));
            }
        }
        f += 1;
    }
    let ev = EventRec { timestamp: ts, items };
    proof {
        assert(event_wf(ev@, lexicons.deep_view()));
        assert(bytes@.subrange(pos as int, cur as int) =~= bytes@.subrange(
            pos as int,
            pos as int + 8,
        ) + bytes@.subrange(pos as int + 8, cur as int));
        assert(bytes@.subrange(pos as int, cur as int) == le(wsub(ev@.ts, prev)) + ser_words(
            ev@.items,
        ));
        assert forall|evm: EventModel, rest: Seq<u8>|
            (#[trigger] (le(wsub(evm.ts, prev)) + ser_words(evm.items) + rest) == bytes@.skip(
                pos as int,
            ) && event_wf(evm, lexicons.deep_view())) implies ev@ == evm && bytes@.skip(
            cur as int,
        ) == rest by {
            assert(evm.items.len() == lexicons@.len());
            assert(Seq::new(items@.len(), |i: int| items@[i].0) == evm.items.take(k as int));
            assert(evm.items.take(k as int) =~= evm.items);
            assert(evm.items.skip(k as int) =~= Seq::<u64>::empty());
            assert(ser_words(evm.items.skip(k as int)) + rest =~= rest);
            assert(ts == evm.ts);
            assert(ev@ =~= evm);
        }
    }
    Option::Some((ev, cur))
}

/// The shape of a valid trail section: `n` trails, each nonempty, within
/// the per-trail cap, and with events well-formed for the lexicons.
pub open spec fn trails_section_ok(
    tr: Seq<Seq<EventModel>>,
    n: int,
    lexs: Seq<Seq<Seq<char>>>,
) -> bool {
    &&& tr.len() == n
    &&& forall|t: int| 0 <= t < tr.len() ==> 1 <= (#[trigger] tr[t]).len() <= MAX_TRAIL_LEN
    &&& forall|t: int, e: int|
        0 <= t < tr.len() && 0 <= e < tr[t].len() ==> event_wf(#[trigger] tr[t][e], lexs)
}

/// One step of the trail section: a valid remainder starting at trail `t`
/// pins down the count word and where the events start.
proof fn lemma_trail_step(bytes: Seq<u8>, cur: int, tr: Seq<Seq<EventModel>>, t: int, rest: Seq<u8>)
    requires
        0 <= cur <= bytes.len(),
        0 <= t < tr.len(),
        ser_trails(tr.skip(t)) + rest == bytes.skip(cur),
    ensures
        bytes.len() - cur >= 8,
        bytes.subrange(cur, cur + 8) == le(tr[t].len() as u64),
        bytes.skip(cur + 8) == ser_events_from(tr[t], 0) + (ser_trails(tr.skip(t + 1)) + rest),
{
    let tail = tr.skip(t);
    lemma_trails_left(tail);
    assert(tail[0] == tr[t]);
    assert(tail.drop_first() =~= tr.skip(t + 1));
    lemma_events_from_eq(tr[t]);
    vstd::bytes::lemma_auto_spec_u64_to_from_le_bytes();
    assert(le(tr[t].len() as u64) + (ser_events_from(tr[t], 0) + (ser_trails(tr.skip(t + 1))
        + rest)) =~= ser_trails(tail) + rest);
    lemma_chunk_at(
        bytes,
        cur,
        le(tr[t].len() as u64),
        ser_events_from(tr[t], 0) + (ser_trails(tr.skip(t + 1)) + rest),
    );
}

/// One step inside a trail: a valid remainder starting at event `e` with
/// predecessor `prev` is one event encoding followed by the rest.
proof fn lemma_trail_event_step(evs: Seq<EventModel>, e: int, prev: u64, tail_bytes: Seq<u8>)
    requires
        0 <= e < evs.len(),
    ensures
        ser_events_from(evs.skip(e), prev) + tail_bytes == le(wsub(evs[e].ts, prev)) + ser_words(
            evs[e].items,
        ) + (ser_events_from(evs.skip(e + 1), evs[e].ts) + tail_bytes),
{
    let tail = evs.skip(e);
    assert(tail[0] == evs[e]);
    assert(tail.drop_first() =~= evs.skip(e + 1));
    assert(ser_events_from(tail, prev) == le(wsub(evs[e].ts, prev)) + ser_words(evs[e].items)
        + ser_events_from(evs.skip(e + 1), evs[e].ts));
    assert(ser_events_from(tail, prev) + tail_bytes =~= le(wsub(evs[e].ts, prev)) + ser_words(
        evs[e].items,
    ) + (ser_events_from(evs.skip(e + 1), evs[e].ts) + tail_bytes));
}

/// Reads the trail blocks: per trail an event count, then that many
/// delta-encoded events. Succeeds on every position where a valid trail
/// section is encoded, returning exactly it.
fn parse_trails(bytes: &Vec<u8>, pos: usize, n: usize, lexicons: &Vec<Vec<String>>) -> (r: Option<
    (Vec<Vec<EventRec>>, usize),
>)
    requires
        pos <= bytes@.len(),
    ensures
        forall|tr: Seq<Seq<EventModel>>, rest: Seq<u8>|
            (#[trigger] (ser_trails(tr) + rest) == bytes@.skip(pos as int) && trails_section_ok(
                tr,
                n as int,
                lexicons.deep_view(),
            )) ==> (r matches Option::Some(p) && p.0.deep_view() == tr && bytes@.skip(p.1 as int)
                == rest),
        match r {
            Option::Some(p) => {
                &&& pos <= p.1 <= bytes@.len()
                &&& bytes@.subrange(pos as int, p.1 as int) == ser_trails(p.0.deep_view())
                &&& p.0@.len() == n
                &&& forall|t: int|
                    0 <= t < n ==> 1 <= (#[trigger] p.0.deep_view()[t]).len() <= MAX_TRAIL_LEN
                &&& forall|t: int, e: int|
                    0 <= t < n && 0 <= e < p.0.deep_view()[t].len() ==> event_wf(
                        #[trigger] p.0.deep_view()[t][e],
                        lexicons.deep_view(),
                    )
            },
            Option::None => true,
        },
{
    let l = bytes.len();
    let mut out: Vec<Vec<EventRec>> = Vec::new();
    let mut cur: usize = pos;
    let mut t: usize = 0;
    proof {
        assert forall|tr: Seq<Seq<EventModel>>, rest: Seq<u8>|
            (#[trigger] (ser_trails(tr) + rest) == bytes@.skip(pos as int) && trails_section_ok(
                tr,
                n as int,
                lexicons.deep_view(),
            )) implies out.deep_view() == tr.take(0) && ser_trails(tr.skip(0)) + rest
            == bytes@.skip(pos as int) by {
            assert(out.deep_view() =~= tr.take(0));
            assert(tr.skip(0) =~= tr);
        }
    }
    while t < n
        invariant
            t <= n,
            out@.len() == t,
            pos <= cur <= bytes@.len(),
            l == bytes@.len(),
            bytes@.subrange(pos as int, cur as int) == ser_trails(out.deep_view()),
            forall|g: int|
                0 <= g < t ==> 1 <= (#[trigger] out.deep_view()[g]).len() <= MAX_TRAIL_LEN,
            forall|g: int, e: int|
                0 <= g < t && 0 <= e < out.deep_view()[g].len() ==> event_wf(
                    #[trigger] out.deep_view()[g][e],
                    lexicons.deep_view(),
                ),
            forall|tr: Seq<Seq<EventModel>>, rest: Seq<u8>|
                (#[trigger] (ser_trails(tr) + rest) == bytes@.skip(pos as int)
                    && trails_section_ok(tr, n as int, lexicons.deep_view())) ==> out.deep_view()
                    == tr.take(t as int) && ser_trails(tr.skip(t as int)) + rest == bytes@.skip(
                    cur as int,
                ),
        decreases n - t,
    {
        if l - cur < 8 {
            proof {
                assert forall|tr: Seq<Seq<EventModel>>, rest: Seq<u8>|
                    (#[trigger] (ser_trails(tr) + rest) == bytes@.skip(pos as int)
                        && trails_section_ok(tr, n as int, lexicons.deep_view())) implies false by {
                    lemma_trail_step(bytes@, cur as int, tr, t as int, rest);
                }
            }
            return Option::None;
        }
        let ew = read_u64(bytes, cur);
        if ew < 1 || ew > MAX_TRAIL_LEN as u64 {
            proof {
                vstd::bytes::lemma_auto_spec_u64_to_from_le_bytes();
                assert forall|tr: Seq<Seq<EventModel>>, rest: Seq<u8>|
                    (#[trigger] (ser_trails(tr) + rest) == bytes@.skip(pos as int)
                        && trails_section_ok(tr, n as int, lexicons.deep_view())) implies false by {
                    lemma_trail_step(bytes@, cur as int, tr, t as int, rest);
                    assert(ew == tr[t as int].len() as u64);
                }
            }
            return Option::None;
        }
        let ecnt = ew as usize;
        let ghost prev_dv = out.deep_view();
        let ghost prev_cur = cur as int;
        let ghost count_end = cur as int + 8;
        let mut trail: Vec<EventRec> = Vec::new();
        let mut ecur: usize = cur + 8;
        let mut prev: u64 = 0;
        let mut e: usize = 0;
        proof {
            vstd::bytes::lemma_auto_spec_u64_to_from_le_bytes();
            assert forall|tr: Seq<Seq<EventModel>>, rest: Seq<u8>|
                (#[trigger] (ser_trails(tr) + rest) == bytes@.skip(pos as int)
                    && trails_section_ok(tr, n as int, lexicons.deep_view())) implies out
                .deep_view() == tr.take(t as int) && ecnt == tr[t as int].len()
                && trail.deep_view() == tr[t as int].take(0) && ser_events_from(
                tr[t as int].skip(0),
                prev,
            ) + (ser_trails(tr.skip(t as int + 1)) + rest) == bytes@.skip(ecur as int) by {
                lemma_trail_step(bytes@, prev_cur, tr, t as int, rest);
                assert(ew == tr[t as int].len() as u64);
                assert(trail.deep_view() =~= tr[t as int].take(0));
                assert(tr[t as int].skip(0) =~= tr[t as int]);
            }
        }
        while e < ecnt
            invariant
                e <= ecnt,
                t < n,
                trail@.len() == e,
                0 <= count_end <= ecur <= bytes@.len(),
                l == bytes@.len(),
                prev == prev_ts(trail.deep_view()),
                bytes@.subrange(count_end, ecur as int) == ser_events(trail.deep_view()),
                forall|e0: int|
                    0 <= e0 < e ==> event_wf(
                        #[trigger] trail.deep_view()[e0],
                        lexicons.deep_view(),
                    ),
                forall|tr: Seq<Seq<EventModel>>, rest: Seq<u8>|
                    (#[trigger] (ser_trails(tr) + rest) == bytes@.skip(pos as int)
                        && trails_section_ok(tr, n as int, lexicons.deep_view())) ==> out
                        .deep_view() == tr.take(t as int) && ecnt == tr[t as int].len()
                        && trail.deep_view() == tr[t as int].take(e as int) && ser_events_from(
                        tr[t as int].skip(e as int),
                        prev,
                    ) + (ser_trails(tr.skip(t as int + 1)) + rest) == bytes@.skip(ecur as int),
            decreases ecnt - e,
        {
            let ghost prev_edv = trail.deep_view();
            let ghost prev_ecur = ecur as int;
            let ghost prev_prev = prev;
            match parse_event(bytes, ecur, lexicons, prev) {
                Option::None => {
                    proof {
                        assert forall|tr: Seq<Seq<EventModel>>, rest: Seq<u8>|
                            (#[trigger] (ser_trails(tr) + rest) == bytes@.skip(pos as int)
                                && trails_section_ok(tr, n as int, lexicons.deep_view()))
                            implies false by {
                            lemma_trail_event_step(
                                tr[t as int],
                                e as int,
                                prev,
                                ser_trails(tr.skip(t as int + 1)) + rest,
                            );
                            assert(le(wsub(tr[t as int][e as int].ts, prev)) + ser_words(
                                tr[t as int][e as int].items,
                            ) + (ser_events_from(tr[t as int].skip(e as int + 1), tr[t as int][
                                e as int
                            ].ts) + (ser_trails(tr.skip(t as int + 1)) + rest)) == bytes@.skip(
                                ecur as int,
                            ));
                            assert(event_wf(tr[t as int][e as int], lexicons.deep_view()));
                        }
                    }
                    return Option::None;
                },
                Option::Some((ev, p2)) => {
                    let ghost ev_model = ev@;
                    let new_prev = ev.timestamp;
                    trail.push(ev);
                    ecur = p2;
                    prev = new_prev;
                    proof {
                        assert(forall|g: int|
                            0 <= g < trail@.len() ==> #[trigger] trail.deep_view()[g]
                                == trail@[g].deep_view());
                        assert(trail.deep_view() =~= prev_edv.push(ev_model));
                        assert(trail.deep_view().drop_last() =~= prev_edv);
                        assert(0 <= count_end);
                        assert(count_end <= prev_ecur);
                        assert(prev_ecur <= ecur as int);
                        assert(ecur as int <= bytes@.len());
                        assert(bytes@.subrange(count_end, ecur as int) =~= bytes@.subrange(
                            count_end,
                            prev_ecur,
                        ) + bytes@.subrange(prev_ecur, ecur as int));
                        assert(bytes@.subrange(count_end, ecur as int) == ser_events(
                            trail.deep_view(),
                        ));
                        assert(prev == prev_ts(trail.deep_view()));
                        assert forall|tr: Seq<Seq<EventModel>>, rest: Seq<u8>|
                            (#[trigger] (ser_trails(tr) + rest) == bytes@.skip(pos as int)
                                && trails_section_ok(tr, n as int, lexicons.deep_view())) implies
                            trail.deep_view() == tr[t as int].take(e as int + 1)
                            && ser_events_from(tr[t as int].skip(e as int + 1), prev) + (
                        ser_trails(tr.skip(t as int + 1)) + rest) == bytes@.skip(
                            ecur as int,
                        ) by {
                            assert(prev_edv == tr[t as int].take(e as int));
                            lemma_trail_event_step(
                                tr[t as int],
                                e as int,
                                prev_prev,
                                ser_trails(tr.skip(t as int + 1)) + rest,
                            );
                            assert(le(wsub(tr[t as int][e as int].ts, prev_prev)) + ser_words(
                                tr[t as int][e as int].items,
                            ) + (ser_events_from(tr[t as int].skip(e as int + 1), tr[t as int][
                                e as int
                            ].ts) + (ser_trails(tr.skip(t as int + 1)) + rest)) == bytes@.skip(
                                prev_ecur,
                            ));
                            assert(event_wf(tr[t as int][e as int], lexicons.deep_view()));
                            assert(ev_model == tr[t as int][e as int]);
                            assert(trail.deep_view() =~= tr[t as int].take(e as int + 1));
                            assert(prev == tr[t as int][e as int].ts);
                        }
                    }
                },
            }
            e += 1;
        }
        let ghost trail_dv = trail.deep_view();
        out.push(trail);
        cur = ecur;
        proof {
            assert(forall|g: int|
                0 <= g < out@.len() ==> #[trigger] out.deep_view()[g] == out@[g].deep_view());
            assert(out.deep_view() =~= prev_dv.push(trail_dv));
            assert(out.deep_view().drop_last() =~= prev_dv);
            assert(bytes@.subrange(pos as int, cur as int) =~= bytes@.subrange(
                pos as int,
                prev_cur,
            ) + bytes@.subrange(prev_cur, count_end) + bytes@.subrange(count_end, cur as int));
            assert(bytes@.subrange(pos as int, cur as int) == ser_trails(out.deep_view()));
            assert forall|tr: Seq<Seq<EventModel>>, rest: Seq<u8>|
                (#[trigger] (ser_trails(tr) + rest) == bytes@.skip(pos as int)
                    && trails_section_ok(tr, n as int, lexicons.deep_view())) implies out
                .deep_view() == tr.take(t as int + 1) && ser_trails(tr.skip(t as int + 1)) + rest
                == bytes@.skip(cur as int) by {
                assert(prev_dv == tr.take(t as int));
                assert(trail_dv == tr[t as int].take(ecnt as int));
                assert(tr[t as int].take(ecnt as int) =~= tr[t as int]);
                assert(out.deep_view() =~= tr.take(t as int + 1));
                assert(tr[t as int].skip(ecnt as int) =~= Seq::<EventModel>::empty());
                assert(ser_events_from(tr[t as int].skip(ecnt as int), prev)
                    =~= Seq::<u8>::empty());
                assert(ser_events_from(tr[t as int].skip(ecnt as int), prev) + (ser_trails(
                    tr.skip(t as int + 1),
                ) + rest) =~= ser_trails(tr.skip(t as int + 1)) + rest);
            }
        }
        t += 1;
    }
    proof {
        assert forall|tr: Seq<Seq<EventModel>>, rest: Seq<u8>|
            (#[trigger] (ser_trails(tr) + rest) == bytes@.skip(pos as int) && trails_section_ok(
                tr,
                n as int,
                lexicons.deep_view(),
            )) implies out.deep_view() == tr && bytes@.skip(cur as int) == rest by {
            assert(out.deep_view() == tr.take(n as int));
            assert(tr.take(n as int) =~= tr);
            assert(tr.skip(n as int) =~= Seq::<Seq<EventModel>>::empty());
            assert(ser_trails(tr.skip(n as int)) + rest =~= rest);
        }
    }
    Option::Some((out, cur))
}

/// A well-formed store's image decomposes into its header words followed
/// by the four sections in order.
#[verifier::rlimit(100)]
proof fn lemma_valid_image(bytes: Seq<u8>, s: Store)
    requires
        bytes == ser_db(s, DB_VERSION),
    ensures
        bytes.len() >= 56,
        bytes.subrange(0, 8) == le(MAGIC),
        bytes.subrange(8, 16) == le(DB_VERSION),
        bytes.subrange(16, 24) == le(s.fields.len() as u64),
        bytes.subrange(24, 32) == le(s.uuids.len() as u64),
        bytes.subrange(32, 40) == le(s.num_events),
        bytes.subrange(40, 48) == le(s.min_ts),
        bytes.subrange(48, 56) == le(s.max_ts),
        bytes.skip(56) == ser_strs(s.fields) + (ser_uuids(s.uuids) + (ser_lexicons(s.lexicons) + (
        ser_trails(s.trails) + Seq::<u8>::empty()))),
{
    vstd::bytes::lemma_auto_spec_u64_to_from_le_bytes();
    assert(bytes.subrange(0, 8) =~= le(MAGIC));
    assert(bytes.subrange(8, 16) =~= le(DB_VERSION));
    assert(bytes.subrange(16, 24) =~= le(s.fields.len() as u64));
    assert(bytes.subrange(24, 32) =~= le(s.uuids.len() as u64));
    assert(bytes.subrange(32, 40) =~= le(s.num_events));
    assert(bytes.subrange(40, 48) =~= le(s.min_ts));
    assert(bytes.subrange(48, 56) =~= le(s.max_ts));
    assert(bytes.skip(56) =~= ser_strs(s.fields) + (ser_uuids(s.uuids) + (ser_lexicons(s.lexicons)
        + (ser_trails(s.trails) + Seq::<u8>::empty()))));
}

/// Finds the least and greatest timestamp over all events; (0, 0) when
/// there are no trails.
fn scan_extrema(trails: &Vec<Vec<EventRec>>) -> (r: (u64, u64))
    requires
        forall|t: int| 0 <= t < trails@.len() ==> (#[trigger] trails.deep_view()[t]).len() >= 1,
    ensures
        trails@.len() == 0 ==> r == (0u64, 0u64),
        trails@.len() > 0 ==> {
            &&& forall|t: int, e: int|
                0 <= t < trails@.len() && 0 <= e < trails.deep_view()[t].len() ==> r.0 <= (
                #[trigger] trails.deep_view()[t][e]).ts <= r.1
            &&& exists|t: int, e: int|
                0 <= t < trails@.len() && 0 <= e < trails.deep_view()[t].len() && (
                #[trigger] trails.deep_view()[t][e]).ts == r.0
            &&& exists|t: int, e: int|
                0 <= t < trails@.len() && 0 <= e < trails.deep_view()[t].len() && (
                #[trigger] trails.deep_view()[t][e]).ts == r.1
        },
{
    let n = trails.len();
    let mut mn: u64 = 0;
    let mut mx: u64 = 0;
    for t in 0..n
        invariant
            n == trails@.len(),
            forall|t0: int|
                0 <= t0 < trails@.len() ==> (#[trigger] trails.deep_view()[t0]).len() >= 1,
            t > 0 ==> forall|t0: int, e0: int|
                0 <= t0 < t && 0 <= e0 < trails.deep_view()[t0].len() ==> mn <= (
                #[trigger] trails.deep_view()[t0][e0]).ts <= mx,
            t > 0 ==> exists|t0: int, e0: int|
                0 <= t0 < t && 0 <= e0 < trails.deep_view()[t0].len() && (
                #[trigger] trails.deep_view()[t0][e0]).ts == mn,
            t > 0 ==> exists|t0: int, e0: int|
                0 <= t0 < t && 0 <= e0 < trails.deep_view()[t0].len() && (
                #[trigger] trails.deep_view()[t0][e0]).ts == mx,
            t == 0 ==> mn == 0 && mx == 0,
    {
        proof {
            assert(trails.deep_view()[t as int] == trails@[t as int].deep_view());
        }
        let ne = trails[t].len();
        for e in 0..ne
            invariant
                t < n == trails@.len(),
                ne == trails@[t as int]@.len(),
                ne >= 1,
                forall|t0: int|
                    0 <= t0 < trails@.len() ==> (#[trigger] trails.deep_view()[t0]).len() >= 1,
                t > 0 || e > 0 ==> forall|t0: int, e0: int|
                    0 <= t0 <= t && 0 <= e0 < trails.deep_view()[t0].len() && (t0 < t || e0 < e)
                        ==> mn <= (#[trigger] trails.deep_view()[t0][e0]).ts <= mx,
                t > 0 || e > 0 ==> exists|t0: int, e0: int|
                    0 <= t0 <= t && 0 <= e0 < trails.deep_view()[t0].len() && (t0 < t || e0 < e)
                        && (#[trigger] trails.deep_view()[t0][e0]).ts == mn,
                t > 0 || e > 0 ==> exists|t0: int, e0: int|
                    0 <= t0 <= t && 0 <= e0 < trails.deep_view()[t0].len() && (t0 < t || e0 < e)
                        && (#[trigger] trails.deep_view()[t0][e0]).ts == mx,
                t == 0 && e == 0 ==> mn == 0 && mx == 0,
        {
            let ts = trails[t][e].timestamp;
            proof {
                assert(trails.deep_view()[t as int] == trails@[t as int].deep_view());
                assert(trails.deep_view()[t as int][e as int] == trails@[t as int]@[e as int]@);
            }
            if t == 0 && e == 0 {
                mn = ts;
                mx = ts;
                proof {
                    assert(trails.deep_view()[0][0].ts == mn);
                }
            } else {
                if ts < mn {
                    mn = ts;
                }
                if ts > mx {
                    mx = ts;
                }
                proof {
                    assert(trails.deep_view()[t as int][e as int].ts <= mx);
                    assert(mn <= trails.deep_view()[t as int][e as int].ts);
                }
            }
        }
    }
    (mn, mx)
}

/// What a reader is, mathematically: the frozen content plus the format
/// version it was written with.
pub struct DbModel {
    pub store: Store,
    pub version: u64,
}

/// A finalized database, reopened read-only from its byte image.
pub struct Db {
    fields: Vec<String>,
    uuids: Vec<Uuid>,
    lexicons: Vec<Vec<String>>,
    trails: Vec<Vec<EventRec>>,
    num_events: u64,
    min_ts: u64,
    max_ts: u64,
    version: u64,
}

impl View for Db {
    type V = DbModel;

    closed spec fn view(&self) -> DbModel {
        DbModel {
            store: Store {
                fields: self.fields.deep_view(),
                uuids: self.uuids.deep_view(),
                lexicons: self.lexicons.deep_view(),
                trails: self.trails.deep_view(),
                num_events: self.num_events,
                min_ts: self.min_ts,
                max_ts: self.max_ts,
            },
            version: self.version,
        }
    }
}

/// What holds of every successfully opened database.
pub open spec fn db_wf(m: DbModel) -> bool {
    &&& store_wf(m.store)
    &&& m.version == DB_VERSION
}

impl Db {
    /// What holds of every successfully opened database.
    pub open spec fn wf(&self) -> bool {
        db_wf(self@)
    }

    /// Opens a database from its byte image, validating every section.
    /// Opening succeeds on the image of every well-formed store — in
    /// particular on whatever `finalize` wrote — and an opened database
    /// re-serializes to the input byte for byte; no two well-formed
    /// contents share an image, so what was finalized is what is read
    /// back.
    #[verifier::rlimit(100)]
    pub fn open(bytes: &Vec<u8>) -> (r: Result<Db, Error>)
        ensures
            match r {
                Result::Ok(db) => {
                    &&& db.wf()
                    &&& db@.version == DB_VERSION
                    &&& ser_db(db@.store, DB_VERSION) == bytes@
                },
                Result::Err(e) => {
                    ||| e == Error::InvalidInfoFile
                    ||| e == Error::IncompatibleVersion
                    ||| e == Error::InvalidFieldsFile
                    ||| e == Error::InvalidUuidsFile
                    ||| e == Error::InvalidLexiconFile
                    ||| e == Error::InvalidTrailsFile
                    ||| e == Error::InvalidPackage
                },
            },
            (exists|s: Store| store_wf(s) && bytes@ == #[trigger] ser_db(s, DB_VERSION))
                ==> r is Ok,
    {
        let ghost valid = exists|s: Store| store_wf(s) && bytes@ == #[trigger] ser_db(
            s,
            DB_VERSION,
        );
        let l = bytes.len();
        if l < 56 {
            proof {
                if valid {
                    let s0 = choose|s: Store|
                        store_wf(s) && bytes@ == #[trigger] ser_db(s, DB_VERSION);
                    lemma_valid_image(bytes@, s0);
                    assert(false);
                }
            }
            return Result::Err(Error::InvalidInfoFile);
        }
        let magic = read_u64(bytes, 0);
        let version = read_u64(bytes, 8);
        let kw = read_u64(bytes, 16);
        let nw = read_u64(bytes, 24);
        let ne = read_u64(bytes, 32);
        let mn = read_u64(bytes, 40);
        let mx = read_u64(bytes, 48);
        if magic != MAGIC {
            proof {
                if valid {
                    let s0 = choose|s: Store|
                        store_wf(s) && bytes@ == #[trigger] ser_db(s, DB_VERSION);
                    lemma_valid_image(bytes@, s0);
                    vstd::bytes::lemma_auto_spec_u64_to_from_le_bytes();
                    assert(magic == MAGIC);
                    assert(false);
                }
            }
            return Result::Err(Error::InvalidInfoFile);
        }
        if version != DB_VERSION {
            proof {
                if valid {
                    let s0 = choose|s: Store|
                        store_wf(s) && bytes@ == #[trigger] ser_db(s, DB_VERSION);
                    lemma_valid_image(bytes@, s0);
                    vstd::bytes::lemma_auto_spec_u64_to_from_le_bytes();
                    assert(version == DB_VERSION);
                    assert(false);
                }
            }
            return Result::Err(Error::IncompatibleVersion);
        }
        if kw > MAX_FIELDS as u64 {
            proof {
                if valid {
                    let s0 = choose|s: Store|
                        store_wf(s) && bytes@ == #[trigger] ser_db(s, DB_VERSION);
                    lemma_valid_image(bytes@, s0);
                    vstd::bytes::lemma_auto_spec_u64_to_from_le_bytes();
                    assert(kw == s0.fields.len() as u64);
                    assert(false);
                }
            }
            return Result::Err(Error::InvalidFieldsFile);
        }
        if nw > MAX_TRAILS as u64 {
            proof {
                if valid {
                    let s0 = choose|s: Store|
                        store_wf(s) && bytes@ == #[trigger] ser_db(s, DB_VERSION);
                    lemma_valid_image(bytes@, s0);
                    vstd::bytes::lemma_auto_spec_u64_to_from_le_bytes();
                    assert(nw == s0.uuids.len() as u64);
                    assert(false);
                }
            }
            return Result::Err(Error::InvalidUuidsFile);
        }
        let k = kw as usize;
        let n = nw as usize;
        let fields = match parse_strings(bytes, 56, k, 1, MAX_FIELDNAME_LEN as u64) {
            Option::None => {
                proof {
                if valid {
                    let s0 = choose|s: Store|
                        store_wf(s) && bytes@ == #[trigger] ser_db(s, DB_VERSION);
                    lemma_valid_image(bytes@, s0);
                    vstd::bytes::lemma_auto_spec_u64_to_from_le_bytes();
                    assert(kw == s0.fields.len() as u64);
                    assert(nw == s0.uuids.len() as u64);
                    assert(k == s0.fields.len());
                    assert(n == s0.uuids.len());
                    assert(forall|i: int|
                        0 <= i < s0.fields.len() ==> 1 <= vstd::utf8::encode_utf8(
                            #[trigger] s0.fields[i],
                        ).len() <= MAX_FIELDNAME_LEN);
                    assert(ser_strs(s0.fields) + (ser_uuids(s0.uuids) + (ser_lexicons(s0.lexicons)
                        + (ser_trails(s0.trails) + Seq::<u8>::empty()))) == bytes@.skip(56));
                    assert(false);
                }
            }
            return Result::Err(Error::InvalidFieldsFile);
            },
            Option::Some(x) => x,
        };
        let (fields, p1) = fields;
        if !strings_distinct(&fields) {
            proof {
                if valid {
                    let s0 = choose|s: Store|
                        store_wf(s) && bytes@ == #[trigger] ser_db(s, DB_VERSION);
                    lemma_valid_image(bytes@, s0);
                    vstd::bytes::lemma_auto_spec_u64_to_from_le_bytes();
                    assert(kw == s0.fields.len() as u64);
                    assert(nw == s0.uuids.len() as u64);
                    assert(k == s0.fields.len());
                    assert(n == s0.uuids.len());
                    assert(forall|i: int|
                        0 <= i < s0.fields.len() ==> 1 <= vstd::utf8::encode_utf8(
                            #[trigger] s0.fields[i],
                        ).len() <= MAX_FIELDNAME_LEN);
                    assert(ser_strs(s0.fields) + (ser_uuids(s0.uuids) + (ser_lexicons(s0.lexicons)
                        + (ser_trails(s0.trails) + Seq::<u8>::empty()))) == bytes@.skip(56));
                    assert(fields.deep_view() == s0.fields);
                    assert(all_distinct(fields.deep_view()));
                    assert(false);
                }
            }
            return Result::Err(Error::InvalidFieldsFile);
        }
        let uuids = match parse_uuids(bytes, p1, n) {
            Option::None => {
                proof {
                if valid {
                    let s0 = choose|s: Store|
                        store_wf(s) && bytes@ == #[trigger] ser_db(s, DB_VERSION);
                    lemma_valid_image(bytes@, s0);
                    vstd::bytes::lemma_auto_spec_u64_to_from_le_bytes();
                    assert(kw == s0.fields.len() as u64);
                    assert(nw == s0.uuids.len() as u64);
                    assert(k == s0.fields.len());
                    assert(n == s0.uuids.len());
                    assert(forall|i: int|
                        0 <= i < s0.fields.len() ==> 1 <= vstd::utf8::encode_utf8(
                            #[trigger] s0.fields[i],
                        ).len() <= MAX_FIELDNAME_LEN);
                    assert(ser_strs(s0.fields) + (ser_uuids(s0.uuids) + (ser_lexicons(s0.lexicons)
                        + (ser_trails(s0.trails) + Seq::<u8>::empty()))) == bytes@.skip(56));
                    assert(forall|i: int|
                        0 <= i < s0.uuids.len() ==> (#[trigger] s0.uuids[i]).len() == 16);
                    assert(ser_uuids(s0.uuids) + (ser_lexicons(s0.lexicons) + (ser_trails(
                        s0.trails,
                    ) + Seq::<u8>::empty())) == bytes@.skip(p1 as int));
                    assert(false);
                }
            }
            return Result::Err(Error::InvalidUuidsFile);
            },
            Option::Some(x) => x,
        };
        let (uuids, p2) = uuids;
        if !uuids_distinct(&uuids) {
            proof {
                if valid {
                    let s0 = choose|s: Store|
                        store_wf(s) && bytes@ == #[trigger] ser_db(s, DB_VERSION);
                    lemma_valid_image(bytes@, s0);
                    vstd::bytes::lemma_auto_spec_u64_to_from_le_bytes();
                    assert(kw == s0.fields.len() as u64);
                    assert(nw == s0.uuids.len() as u64);
                    assert(k == s0.fields.len());
                    assert(n == s0.uuids.len());
                    assert(forall|i: int|
                        0 <= i < s0.fields.len() ==> 1 <= vstd::utf8::encode_utf8(
                            #[trigger] s0.fields[i],
                        ).len() <= MAX_FIELDNAME_LEN);
                    assert(ser_strs(s0.fields) + (ser_uuids(s0.uuids) + (ser_lexicons(s0.lexicons)
                        + (ser_trails(s0.trails) + Seq::<u8>::empty()))) == bytes@.skip(56));
                    assert(forall|i: int|
                        0 <= i < s0.uuids.len() ==> (#[trigger] s0.uuids[i]).len() == 16);
                    assert(ser_uuids(s0.uuids) + (ser_lexicons(s0.lexicons) + (ser_trails(
                        s0.trails,
                    ) + Seq::<u8>::empty())) == bytes@.skip(p1 as int));
                    assert(uuids.deep_view() == s0.uuids);
                    assert(all_distinct(uuids.deep_view()));
                    assert(false);
                }
            }
            return Result::Err(Error::InvalidUuidsFile);
        }
        let lexicons = match parse_lexicons(bytes, p2, k) {
            Option::None => {
                proof {
                if valid {
                    let s0 = choose|s: Store|
                        store_wf(s) && bytes@ == #[trigger] ser_db(s, DB_VERSION);
                    lemma_valid_image(bytes@, s0);
                    vstd::bytes::lemma_auto_spec_u64_to_from_le_bytes();
                    assert(kw == s0.fields.len() as u64);
                    assert(nw == s0.uuids.len() as u64);
                    assert(k == s0.fields.len());
                    assert(n == s0.uuids.len());
                    assert(forall|i: int|
                        0 <= i < s0.fields.len() ==> 1 <= vstd::utf8::encode_utf8(
                            #[trigger] s0.fields[i],
                        ).len() <= MAX_FIELDNAME_LEN);
                    assert(ser_strs(s0.fields) + (ser_uuids(s0.uuids) + (ser_lexicons(s0.lexicons)
                        + (ser_trails(s0.trails) + Seq::<u8>::empty()))) == bytes@.skip(56));
                    assert(forall|i: int|
                        0 <= i < s0.uuids.len() ==> (#[trigger] s0.uuids[i]).len() == 16);
                    assert(ser_uuids(s0.uuids) + (ser_lexicons(s0.lexicons) + (ser_trails(
                        s0.trails,
                    ) + Seq::<u8>::empty())) == bytes@.skip(p1 as int));
                    assert(lex_section_ok(s0.lexicons, k as int));
                    assert(ser_lexicons(s0.lexicons) + (ser_trails(s0.trails)
                        + Seq::<u8>::empty()) == bytes@.skip(p2 as int));
                    assert(false);
                }
            }
            return Result::Err(Error::InvalidLexiconFile);
            },
            Option::Some(x) => x,
        };
        let (lexicons, p3) = lexicons;
        let trails = match parse_trails(bytes, p3, n, &lexicons) {
            Option::None => {
                proof {
                if valid {
                    let s0 = choose|s: Store|
                        store_wf(s) && bytes@ == #[trigger] ser_db(s, DB_VERSION);
                    lemma_valid_image(bytes@, s0);
                    vstd::bytes::lemma_auto_spec_u64_to_from_le_bytes();
                    assert(kw == s0.fields.len() as u64);
                    assert(nw == s0.uuids.len() as u64);
                    assert(k == s0.fields.len());
                    assert(n == s0.uuids.len());
                    assert(forall|i: int|
                        0 <= i < s0.fields.len() ==> 1 <= vstd::utf8::encode_utf8(
                            #[trigger] s0.fields[i],
                        ).len() <= MAX_FIELDNAME_LEN);
                    assert(ser_strs(s0.fields) + (ser_uuids(s0.uuids) + (ser_lexicons(s0.lexicons)
                        + (ser_trails(s0.trails) + Seq::<u8>::empty()))) == bytes@.skip(56));
                    assert(forall|i: int|
                        0 <= i < s0.uuids.len() ==> (#[trigger] s0.uuids[i]).len() == 16);
                    assert(ser_uuids(s0.uuids) + (ser_lexicons(s0.lexicons) + (ser_trails(
                        s0.trails,
                    ) + Seq::<u8>::empty())) == bytes@.skip(p1 as int));
                    assert(lex_section_ok(s0.lexicons, k as int));
                    assert(ser_lexicons(s0.lexicons) + (ser_trails(s0.trails)
                        + Seq::<u8>::empty()) == bytes@.skip(p2 as int));
                    assert(lexicons.deep_view() == s0.lexicons);
                    assert(trails_section_ok(s0.trails, n as int, lexicons.deep_view()));
                    assert(ser_trails(s0.trails) + Seq::<u8>::empty() == bytes@.skip(p3 as int));
                    assert(false);
                }
            }
            return Result::Err(Error::InvalidTrailsFile);
            },
            Option::Some(x) => x,
        };
        let (trails, p4) = trails;
        if p4 != l {
            proof {
                if valid {
                    let s0 = choose|s: Store|
                        store_wf(s) && bytes@ == #[trigger] ser_db(s, DB_VERSION);
                    lemma_valid_image(bytes@, s0);
                    vstd::bytes::lemma_auto_spec_u64_to_from_le_bytes();
                    assert(kw == s0.fields.len() as u64);
                    assert(nw == s0.uuids.len() as u64);
                    assert(k == s0.fields.len());
                    assert(n == s0.uuids.len());
                    assert(forall|i: int|
                        0 <= i < s0.fields.len() ==> 1 <= vstd::utf8::encode_utf8(
                            #[trigger] s0.fields[i],
                        ).len() <= MAX_FIELDNAME_LEN);
                    assert(ser_strs(s0.fields) + (ser_uuids(s0.uuids) + (ser_lexicons(s0.lexicons)
                        + (ser_trails(s0.trails) + Seq::<u8>::empty()))) == bytes@.skip(56));
                    assert(forall|i: int|
                        0 <= i < s0.uuids.len() ==> (#[trigger] s0.uuids[i]).len() == 16);
                    assert(ser_uuids(s0.uuids) + (ser_lexicons(s0.lexicons) + (ser_trails(
                        s0.trails,
                    ) + Seq::<u8>::empty())) == bytes@.skip(p1 as int));
                    assert(lex_section_ok(s0.lexicons, k as int));
                    assert(ser_lexicons(s0.lexicons) + (ser_trails(s0.trails)
                        + Seq::<u8>::empty()) == bytes@.skip(p2 as int));
                    assert(lexicons.deep_view() == s0.lexicons);
                    assert(trails_section_ok(s0.trails, n as int, lexicons.deep_view()));
                    assert(ser_trails(s0.trails) + Seq::<u8>::empty() == bytes@.skip(p3 as int));
                    assert(trails.deep_view() == s0.trails);
                    assert(bytes@.skip(p4 as int) == Seq::<u8>::empty());
                    assert(bytes@.skip(p4 as int).len() == 0);
                    assert(p4 == l);
                    assert(false);
                }
            }
            return Result::Err(Error::InvalidPackage);
        }
        let mut total: u64 = 0;
        let mut t: usize = 0;
        while t < n
            invariant
                t <= n == trails@.len() <= MAX_TRAILS,
                forall|t0: int|
                    0 <= t0 < trails@.len() ==> 1 <= (#[trigger] trails.deep_view()[t0]).len()
                        <= MAX_TRAIL_LEN,
                total == total_events(trails.deep_view().take(t as int)),
                total <= t * (MAX_TRAIL_LEN as int),
            decreases n - t,
        {
            proof {
                assert(trails.deep_view()[t as int] == trails@[t as int].deep_view());
                assert(trails.deep_view().take(t + 1).drop_last() =~= trails.deep_view().take(
                    t as int,
                ));
            }
            total = total + trails[t].len() as u64;
            t += 1;
        }
        proof {
            assert(trails.deep_view().take(n as int) =~= trails.deep_view());
        }
        if total != ne {
            proof {
                if valid {
                    let s0 = choose|s: Store|
                        store_wf(s) && bytes@ == #[trigger] ser_db(s, DB_VERSION);
                    lemma_valid_image(bytes@, s0);
                    vstd::bytes::lemma_auto_spec_u64_to_from_le_bytes();
                    assert(kw == s0.fields.len() as u64);
                    assert(nw == s0.uuids.len() as u64);
                    assert(k == s0.fields.len());
                    assert(n == s0.uuids.len());
                    assert(forall|i: int|
                        0 <= i < s0.fields.len() ==> 1 <= vstd::utf8::encode_utf8(
                            #[trigger] s0.fields[i],
                        ).len() <= MAX_FIELDNAME_LEN);
                    assert(ser_strs(s0.fields) + (ser_uuids(s0.uuids) + (ser_lexicons(s0.lexicons)
                        + (ser_trails(s0.trails) + Seq::<u8>::empty()))) == bytes@.skip(56));
                    assert(forall|i: int|
                        0 <= i < s0.uuids.len() ==> (#[trigger] s0.uuids[i]).len() == 16);
                    assert(ser_uuids(s0.uuids) + (ser_lexicons(s0.lexicons) + (ser_trails(
                        s0.trails,
                    ) + Seq::<u8>::empty())) == bytes@.skip(p1 as int));
                    assert(lex_section_ok(s0.lexicons, k as int));
                    assert(ser_lexicons(s0.lexicons) + (ser_trails(s0.trails)
                        + Seq::<u8>::empty()) == bytes@.skip(p2 as int));
                    assert(lexicons.deep_view() == s0.lexicons);
                    assert(trails_section_ok(s0.trails, n as int, lexicons.deep_view()));
                    assert(ser_trails(s0.trails) + Seq::<u8>::empty() == bytes@.skip(p3 as int));
                    assert(trails.deep_view() == s0.trails);
                    assert(bytes@.skip(p4 as int) == Seq::<u8>::empty());
                    assert(total == total_events(trails.deep_view()));
                    assert(total_events(s0.trails) == s0.num_events);
                    assert(ne == s0.num_events);
                    assert(false);
                }
            }
            return Result::Err(Error::InvalidInfoFile);
        }
        let (amn, amx) = scan_extrema(&trails);
        if n == 0 {
            if mn != 0 || mx != 0 {
                proof {
                if valid {
                    let s0 = choose|s: Store|
                        store_wf(s) && bytes@ == #[trigger] ser_db(s, DB_VERSION);
                    lemma_valid_image(bytes@, s0);
                    vstd::bytes::lemma_auto_spec_u64_to_from_le_bytes();
                    assert(kw == s0.fields.len() as u64);
                    assert(nw == s0.uuids.len() as u64);
                    assert(k == s0.fields.len());
                    assert(n == s0.uuids.len());
                    assert(forall|i: int|
                        0 <= i < s0.fields.len() ==> 1 <= vstd::utf8::encode_utf8(
                            #[trigger] s0.fields[i],
                        ).len() <= MAX_FIELDNAME_LEN);
                    assert(ser_strs(s0.fields) + (ser_uuids(s0.uuids) + (ser_lexicons(s0.lexicons)
                        + (ser_trails(s0.trails) + Seq::<u8>::empty()))) == bytes@.skip(56));
                    assert(forall|i: int|
                        0 <= i < s0.uuids.len() ==> (#[trigger] s0.uuids[i]).len() == 16);
                    assert(ser_uuids(s0.uuids) + (ser_lexicons(s0.lexicons) + (ser_trails(
                        s0.trails,
                    ) + Seq::<u8>::empty())) == bytes@.skip(p1 as int));
                    assert(lex_section_ok(s0.lexicons, k as int));
                    assert(ser_lexicons(s0.lexicons) + (ser_trails(s0.trails)
                        + Seq::<u8>::empty()) == bytes@.skip(p2 as int));
                    assert(lexicons.deep_view() == s0.lexicons);
                    assert(trails_section_ok(s0.trails, n as int, lexicons.deep_view()));
                    assert(ser_trails(s0.trails) + Seq::<u8>::empty() == bytes@.skip(p3 as int));
                    assert(trails.deep_view() == s0.trails);
                    assert(bytes@.skip(p4 as int) == Seq::<u8>::empty());
                    assert(s0.trails.len() == 0);
                    assert(mn == s0.min_ts && mx == s0.max_ts);
                    assert(false);
                }
            }
            return Result::Err(Error::InvalidInfoFile);
            }
        } else {
            if amn != mn || amx != mx {
                proof {
                if valid {
                    let s0 = choose|s: Store|
                        store_wf(s) && bytes@ == #[trigger] ser_db(s, DB_VERSION);
                    lemma_valid_image(bytes@, s0);
                    vstd::bytes::lemma_auto_spec_u64_to_from_le_bytes();
                    assert(kw == s0.fields.len() as u64);
                    assert(nw == s0.uuids.len() as u64);
                    assert(k == s0.fields.len());
                    assert(n == s0.uuids.len());
                    assert(forall|i: int|
                        0 <= i < s0.fields.len() ==> 1 <= vstd::utf8::encode_utf8(
                            #[trigger] s0.fields[i],
                        ).len() <= MAX_FIELDNAME_LEN);
                    assert(ser_strs(s0.fields) + (ser_uuids(s0.uuids) + (ser_lexicons(s0.lexicons)
                        + (ser_trails(s0.trails) + Seq::<u8>::empty()))) == bytes@.skip(56));
                    assert(forall|i: int|
                        0 <= i < s0.uuids.len() ==> (#[trigger] s0.uuids[i]).len() == 16);
                    assert(ser_uuids(s0.uuids) + (ser_lexicons(s0.lexicons) + (ser_trails(
                        s0.trails,
                    ) + Seq::<u8>::empty())) == bytes@.skip(p1 as int));
                    assert(lex_section_ok(s0.lexicons, k as int));
                    assert(ser_lexicons(s0.lexicons) + (ser_trails(s0.trails)
                        + Seq::<u8>::empty()) == bytes@.skip(p2 as int));
                    assert(lexicons.deep_view() == s0.lexicons);
                    assert(trails_section_ok(s0.trails, n as int, lexicons.deep_view()));
                    assert(ser_trails(s0.trails) + Seq::<u8>::empty() == bytes@.skip(p3 as int));
                    assert(trails.deep_view() == s0.trails);
                    assert(bytes@.skip(p4 as int) == Seq::<u8>::empty());
                    assert(mn == s0.min_ts && mx == s0.max_ts);
                    assert(s0.trails.len() > 0);
                    let (t0, e0) = choose|t0: int, e0: int|
                        0 <= t0 < trails@.len() && 0 <= e0 < trails.deep_view()[t0].len() && (
                        #[trigger] trails.deep_view()[t0][e0]).ts == amn;
                    assert(s0.min_ts <= s0.trails[t0][e0].ts);
                    let (t1, e1) = choose|t1: int, e1: int|
                        0 <= t1 < s0.trails.len() && 0 <= e1 < s0.trails[t1].len() && (
                        #[trigger] s0.trails[t1][e1]).ts == s0.min_ts;
                    assert(amn <= trails.deep_view()[t1][e1].ts);
                    assert(amn == s0.min_ts);
                    let (t2, e2) = choose|t2: int, e2: int|
                        0 <= t2 < trails@.len() && 0 <= e2 < trails.deep_view()[t2].len() && (
                        #[trigger] trails.deep_view()[t2][e2]).ts == amx;
                    assert(s0.trails[t2][e2].ts <= s0.max_ts);
                    let (t3, e3) = choose|t3: int, e3: int|
                        0 <= t3 < s0.trails.len() && 0 <= e3 < s0.trails[t3].len() && (
                        #[trigger] s0.trails[t3][e3]).ts == s0.max_ts;
                    assert(trails.deep_view()[t3][e3].ts <= amx);
                    assert(amx == s0.max_ts);
                    assert(false);
                }
            }
            return Result::Err(Error::InvalidInfoFile);
            }
        }
        let db = Db {
            fields,
            uuids,
            lexicons,
            trails,
            num_events: ne,
            min_ts: mn,
            max_ts: mx,
            version,
        };
        proof {
            let m = db@.store;
            assert forall|t0: int| 0 <= t0 < m.uuids.len() implies (#[trigger] m.uuids[t0]).len()
                == 16 by {
                assert(m.uuids[t0] == db.uuids@[t0].deep_view());
                assert(db.uuids@[t0].deep_view() =~= db.uuids@[t0]@);
            }
            assert forall|f0: int| 0 <= f0 < m.fields.len() implies fieldname_ok(
                #[trigger] m.fields[f0],
            ) by {}
            assert(m.num_events == total_events(m.trails));
            assert(ts_bounds(m));
            assert(store_wf(m));
            vstd::bytes::lemma_auto_spec_u64_to_from_le_bytes();
            assert(bytes@.subrange(0, 56) =~= le(MAGIC) + le(DB_VERSION) + le(kw) + le(nw) + le(
                ne,
            ) + le(mn) + le(mx));
            assert(bytes@ =~= bytes@.subrange(0, 56) + bytes@.subrange(56, p1 as int)
                + bytes@.subrange(p1 as int, p2 as int) + bytes@.subrange(p2 as int, p3 as int)
                + bytes@.subrange(p3 as int, p4 as int));
            assert(kw == m.fields.len() as u64);
            assert(nw == m.uuids.len() as u64);
            assert(ser_db(m, DB_VERSION) =~= bytes@);
        }
        Result::Ok(db)
    }

    /// Number of trails (distinct identifiers).
    pub fn num_trails(&self) -> (r: u64)
        ensures
            r == self@.store.uuids.len(),
    {
        self.uuids.len() as u64
    }

    /// Total number of events, computed at finalize time and stored.
    pub fn num_events(&self) -> (r: u64)
        ensures
            r == self@.store.num_events,
    {
        self.num_events
    }

    /// Number of fields, the reserved time slot included: one more than
    /// the user fields declared at construction.
    pub fn num_fields(&self) -> (r: u64)
        requires
            self.wf(),
        ensures
            r == self@.store.fields.len() + 1,
    {
        self.fields.len() as u64 + 1
    }

    /// Least timestamp over all events; 0 for an empty database.
    pub fn min_timestamp(&self) -> (r: Timestamp)
        ensures
            r == self@.store.min_ts,
    {
        self.min_ts
    }

    /// Greatest timestamp over all events; 0 for an empty database.
    pub fn max_timestamp(&self) -> (r: Timestamp)
        ensures
            r == self@.store.max_ts,
    {
        self.max_ts
    }

    /// The format version the image was written with.
    pub fn version(&self) -> (r: Version)
        ensures
            r == self@.version,
    {
        self.version
    }

    /// Advisory prefetch hint; the in-memory image needs none, so this has
    /// no observable effect.
    pub fn will_need(&self) {
    }

    /// Advisory release hint; the in-memory image needs none, so this has
    /// no observable effect.
    pub fn dont_need(&self) {
    }

    /// Releases the database.
    pub fn close(self) {
    }

    /// The trail ordinal assigned to `uuid`, or nothing when the
    /// identifier is unknown — absence, not a fault.
    pub fn get_trail_id(&self, uuid: &Uuid) -> (r: Option<TrailId>)
        requires
            self.wf(),
        ensures
            match r {
                Option::Some(t) => t < self@.store.uuids.len() && self@.store.uuids[t as int]
                    == uuid@,
                Option::None => forall|t: int|
                    0 <= t < self@.store.uuids.len() ==> self@.store.uuids[t] != uuid@,
            },
    {
        proof {
            lemma_find_pos(self@.store.uuids, uuid@);
        }
        match find_uuid(&self.uuids, uuid) {
            Option::Some(t) => Option::Some(t as u64),
            Option::None => Option::None,
        }
    }

    /// The identifier of trail `trail_id`, or nothing when out of range.
    pub fn get_uuid(&self, trail_id: TrailId) -> (r: Option<Uuid>)
        ensures
            match r {
                Option::Some(u) => trail_id < self@.store.uuids.len() && u@
                    == self@.store.uuids[trail_id as int],
                Option::None => trail_id >= self@.store.uuids.len(),
            },
    {
        if trail_id < self.uuids.len() as u64 {
            let u = self.uuids[trail_id as usize];
            proof {
                assert(self.uuids.deep_view()[trail_id as int]
                    == self.uuids@[trail_id as int].deep_view());
                assert(u.deep_view() =~= u@);
            }
            Option::Some(u)
        } else {
            Option::None
        }
    }

    /// Resolves a packed item back to the value string it stands for;
    /// an item whose components do not resolve is an unknown-field error,
    /// never a silent substitute.
    pub fn get_item_value(&self, item: Item) -> (r: Result<String, Error>)
        requires
            self.wf(),
        ensures
            ({
                let f = spec_item_field(item.0);
                let v = spec_item_val(item.0);
                if 1 <= f <= self@.store.fields.len() && v < self@.store.lexicons[f - 1].len() {
                    match r {
                        Result::Ok(s) => s@ == self@.store.lexicons[f - 1][v as int],
                        Result::Err(_) => false,
                    }
                } else {
                    r == Result::<String, Error>::Err(Error::UnknownField)
                }
            }),
    {
        let f = item_field(item.0);
        let v = item_val(item.0);
        if f < 1 || f > self.fields.len() as u64 {
            return Result::Err(Error::UnknownField);
        }
        let fi = (f - 1) as usize;
        proof {
            assert(self.lexicons.deep_view()[fi as int] == self.lexicons@[fi as int].deep_view());
        }
        if v >= self.lexicons[fi].len() as u64 {
            return Result::Err(Error::UnknownField);
        }
        let s = self.lexicons[fi][v as usize].clone();
        proof {
            assert(self.lexicons@[fi as int].deep_view()[v as int]
                == self.lexicons@[fi as int]@[v as int]@);
        }
        Result::Ok(s)
    }

    /// The name of field `field`: the reserved time slot for 0, a declared
    /// name for `1..=k`, nothing beyond.
    pub fn get_field_name(&self, field: Field) -> (r: Option<String>)
        requires
            self.wf(),
        ensures
            match r {
                Option::Some(s) => {
                    ||| (field == 0 && s@ == "time"@)
                    ||| (1 <= field <= self@.store.fields.len() && s@ == self@.store.fields[
                        field - 1
                    ])
                },
                Option::None => field > self@.store.fields.len(),
            },
    {
        if field == 0 {
            return Option::Some("time".to_owned());
        }
        if field as u64 > self.fields.len() as u64 {
            return Option::None;
        }
        let fi = (field - 1) as usize;
        let s = self.fields[fi].clone();
        proof {
            assert(self.fields.deep_view()[fi as int] == self.fields@[fi as int]@);
        }
        Option::Some(s)
    }
}

/// One decoded event: its timestamp and one item per user field, in
/// field-declaration order.
pub struct Event {
    pub timestamp: Timestamp,
    pub items: Vec<Item>,
}

impl View for Event {
    type V = EventModel;

    open spec fn view(&self) -> EventModel {
        EventModel {
            ts: self.timestamp,
            items: Seq::new(self.items@.len(), |i: int| self.items@[i].0),
        }
    }
}

/// What a cursor is, mathematically: the database it reads, whether it is
/// bound, and where in its trail it stands.
pub struct CursorModel {
    pub db: DbModel,
    pub bound: bool,
    pub tid: u64,
    pub pos: int,
}

/// A stateful, rebindable decoder over one trail at a time. Independent
/// cursors over one database do not interfere.
pub struct Cursor<'a> {
    db: &'a Db,
    bound: bool,
    tid: u64,
    pos: usize,
}

impl<'a> View for Cursor<'a> {
    type V = CursorModel;

    closed spec fn view(&self) -> CursorModel {
        CursorModel { db: self.db@, bound: self.bound, tid: self.tid, pos: self.pos as int }
    }
}

/// What holds of every cursor handed out by this library.
pub open spec fn cursor_wf(c: CursorModel) -> bool {
    &&& db_wf(c.db)
    &&& c.bound ==> c.tid < c.db.store.trails.len() && 0 <= c.pos <= c.db.store.trails[c.tid as int].len()
}

impl<'a> Cursor<'a> {
    /// What holds of every cursor handed out by this library.
    pub open spec fn wf(&self) -> bool {
        cursor_wf(self@)
    }

    /// Binds the cursor to trail `trail_id`, positioned at its first
    /// event. Fails exactly when the ordinal is out of range, leaving the
    /// cursor as it was — still usable for a later valid bind.
    pub fn get_trail(&mut self, trail_id: TrailId) -> (r: Result<(), Error>)
        requires
            old(self).wf(),
        ensures
            final(self).wf(),
            final(self)@.db == old(self)@.db,
            if trail_id < old(self)@.db.store.trails.len() {
                &&& r == Result::<(), Error>::Ok(())
                &&& final(self)@.bound
                &&& final(self)@.tid == trail_id
                &&& final(self)@.pos == 0
            } else {
                &&& r == Result::<(), Error>::Err(Error::InvalidTrailId)
                &&& final(self)@ == old(self)@
            },
    {
        if trail_id < self.db.uuids.len() as u64 {
            self.bound = true;
            self.tid = trail_id;
            self.pos = 0;
            Result::Ok(())
        } else {
            Result::Err(Error::InvalidTrailId)
        }
    }

    /// The bound trail's total event count, without consuming anything;
    /// 0 for an unbound cursor.
    pub fn len(&self) -> (r: u64)
        requires
            self.wf(),
        ensures
            self@.bound ==> r == self@.db.store.trails[self@.tid as int].len(),
            !self@.bound ==> r == 0,
    {
        if self.bound {
            proof {
                assert(self.db.trails.deep_view()[self.tid as int]
                    == self.db.trails@[self.tid as int].deep_view());
            }
            self.db.trails[self.tid as usize].len() as u64
        } else {
            0
        }
    }

    /// Decodes the next event of the bound trail, or nothing once the
    /// trail is exhausted (or the cursor unbound).
    pub fn next(&mut self) -> (r: Option<Event>)
        requires
            old(self).wf(),
        ensures
            final(self).wf(),
            final(self)@.db == old(self)@.db,
            final(self)@.bound == old(self)@.bound,
            final(self)@.tid == old(self)@.tid,
            if old(self)@.bound && old(self)@.pos < old(self)@.db.store.trails[old(
                self,
            )@.tid as int].len() {
                match r {
                    Option::Some(ev) => {
                        &&& ev@ == old(self)@.db.store.trails[old(self)@.tid as int][old(
                            self,
                        )@.pos]
                        &&& final(self)@.pos == old(self)@.pos + 1
                    },
                    Option::None => false,
                }
            } else {
                r is None && final(self)@.pos == old(self)@.pos
            },
    {
        if !self.bound {
            return Option::None;
        }
        proof {
            assert(self.db.trails.deep_view()[self.tid as int]
                == self.db.trails@[self.tid as int].deep_view());
        }
        if self.pos >= self.db.trails[self.tid as usize].len() {
            return Option::None;
        }
        let rec = &self.db.trails[self.tid as usize][self.pos];
        proof {
            assert(self.db.trails@[self.tid as int].deep_view()[self.pos as int]
                == self.db.trails@[self.tid as int]@[self.pos as int]@);
        }
        let ni = rec.items.len();
        let mut items: Vec<Item> = Vec::new();
        let mut w: usize = 0;
        while w < ni
            invariant
                w <= ni == rec.items@.len(),
                items@.len() == w,
                forall|i: int| 0 <= i < w ==> #[trigger] items@[i].0 == rec.items@[i].0,
            decreases ni - w,
        {
            items.push(Item(rec.items[w].0));
            w += 1;
        }
        let ev = Event { timestamp: rec.timestamp, items };
        proof {
            assert(ev@.items =~= rec@.items);
            assert(ev@ == rec@);
        }
        self.pos = self.pos + 1;
        Option::Some(ev)
    }
}

/// What a trail handle is, mathematically: its ordinal and the cursor
/// already bound to it.
pub struct TrailModel {
    pub id: u64,
    pub cursor: CursorModel,
}

/// A thin pairing of a trail ordinal with a cursor already bound to it.
pub struct Trail<'a> {
    pub id: TrailId,
    cursor: Cursor<'a>,
}

impl<'a> View for Trail<'a> {
    type V = TrailModel;

    closed spec fn view(&self) -> TrailModel {
        TrailModel { id: self.id, cursor: self.cursor@ }
    }
}

impl<'a> Trail<'a> {
    /// What holds of every trail handle handed out by this library.
    pub open spec fn wf(&self) -> bool {
        &&& cursor_wf(self@.cursor)
        &&& self@.cursor.bound
        &&& self@.cursor.tid == self@.id
    }

    /// Decodes the next event of this trail; same contract as the bound
    /// cursor it carries.
    pub fn next(&mut self) -> (r: Option<Event>)
        requires
            old(self).wf(),
        ensures
            final(self).wf(),
            final(self)@.id == old(self)@.id,
            final(self)@.cursor.db == old(self)@.cursor.db,
            if old(self)@.cursor.pos < old(self)@.cursor.db.store.trails[old(
                self,
            )@.id as int].len() {
                match r {
                    Option::Some(ev) => {
                        &&& ev@ == old(self)@.cursor.db.store.trails[old(self)@.id as int][old(
                            self,
                        )@.cursor.pos]
                        &&& final(self)@.cursor.pos == old(self)@.cursor.pos + 1
                    },
                    Option::None => false,
                }
            } else {
                r is None && final(self)@.cursor.pos == old(self)@.cursor.pos
            },
    {
        self.cursor.next()
    }
}

/// What the trail iterator is, mathematically: the database it walks and
/// the next ordinal it will hand out.
pub struct DbIterModel {
    pub db: DbModel,
    pub pos: u64,
}

/// A lazy, restartable walk over all trails in ordinal order.
pub struct DbIter<'a> {
    pos: u64,
    db: &'a Db,
}

impl<'a> View for DbIter<'a> {
    type V = DbIterModel;

    closed spec fn view(&self) -> DbIterModel {
        DbIterModel { db: self.db@, pos: self.pos }
    }
}

impl<'a> DbIter<'a> {
    /// What holds of every iterator handed out by this library.
    pub open spec fn wf(&self) -> bool {
        db_wf(self@.db)
    }

    /// Hands out the next trail, freshly opened on a private cursor, or
    /// nothing once every ordinal has been yielded. The position counter
    /// advances (wrapping) on every call, yielded or not.
    pub fn next(&mut self) -> (r: Option<Trail<'a>>)
        requires
            old(self).wf(),
        ensures
            final(self).wf(),
            final(self)@.db == old(self)@.db,
            final(self)@.pos == crate::serial::wadd(old(self)@.pos, 1),
            if old(self)@.pos < old(self)@.db.store.trails.len() {
                match r {
                    Option::Some(trail) => {
                        &&& trail.wf()
                        &&& trail@.id == old(self)@.pos
                        &&& trail@.cursor.db == old(self)@.db
                        &&& trail@.cursor.pos == 0
                    },
                    Option::None => false,
                }
            } else {
                r is None
            },
    {
        let id = self.pos;
        self.pos = id.wrapping_add(1);
        if id >= self.db.uuids.len() as u64 {
            return Option::None;
        }
        let mut cursor = self.db.cursor();
        let bound = cursor.get_trail(id);
        proof {
            assert(bound is Ok);
        }
        Option::Some(Trail { id, cursor })
    }
}

impl Db {
    /// Allocates a fresh, unbound cursor over this database; many cursors
    /// may coexist.
    pub fn cursor(&self) -> (r: Cursor<'_>)
        requires
            self.wf(),
        ensures
            r.wf(),
            r@.db == self@,
            !r@.bound,
    {
        Cursor { db: self, bound: false, tid: 0, pos: 0 }
    }

    /// Opens trail `trail_id` on a fresh cursor, or nothing when the
    /// ordinal is out of range.
    pub fn get_trail(&self, trail_id: TrailId) -> (r: Option<Trail<'_>>)
        requires
            self.wf(),
        ensures
            match r {
                Option::Some(trail) => {
                    &&& trail_id < self@.store.trails.len()
                    &&& trail.wf()
                    &&& trail@.id == trail_id
                    &&& trail@.cursor.db == self@
                    &&& trail@.cursor.pos == 0
                },
                Option::None => trail_id >= self@.store.trails.len(),
            },
    {
        let mut cursor = self.cursor();
        match cursor.get_trail(trail_id) {
            Result::Err(_) => Option::None,
            Result::Ok(_) => Option::Some(Trail { id: trail_id, cursor }),
        }
    }

    /// The field-name table, for the merge path.
    pub(crate) fn fields_ref(&self) -> (r: &Vec<String>)
        ensures
            r.deep_view() == self@.store.fields,
    {
        &self.fields
    }

    /// The identifier table, for the merge path.
    pub(crate) fn uuids_ref(&self) -> (r: &Vec<Uuid>)
        ensures
            r.deep_view() == self@.store.uuids,
    {
        &self.uuids
    }

    /// The value tables, for the merge path.
    pub(crate) fn lexicons_ref(&self) -> (r: &Vec<Vec<String>>)
        ensures
            r.deep_view() == self@.store.lexicons,
    {
        &self.lexicons
    }

    /// The decoded trails, for the merge path.
    pub(crate) fn trails_ref(&self) -> (r: &Vec<Vec<EventRec>>)
        ensures
            r.deep_view() == self@.store.trails,
    {
        &self.trails
    }

    /// Walks the trails in ordinal order, each freshly opened on a
    /// private cursor.
    pub fn iter(&self) -> (r: DbIter<'_>)
        requires
            self.wf(),
        ensures
            r.wf(),
            r@.db == self@,
            r@.pos == 0,
    {
        DbIter { pos: 0, db: self }
    }
}

} // verus!
