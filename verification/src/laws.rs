//! The library's global guarantees, stated and proved over the models the
//! public contracts speak of: what an image pins down, the identifier
//! bijection, value round-trips, and what a construction sequence adds up
//! to.

use vstd::prelude::*;
use crate::cons::{apply_adds, lemma_add_ok_wf, new_items, resolved_vals, spec_add, AddReq};
use crate::errors::Error;
use crate::item::{spec_item_field, spec_item_val};
use crate::lexicon::intern_result;
use crate::model::{all_distinct, event_wf, find_pos, lemma_find_pos, store_wf, EventModel, Store};
use crate::serial::{
    le, lemma_lex_inj, lemma_split, lemma_strs_inj, lemma_trails_inj, lemma_uuids_inj, ser_db,
};

verus! {

/// Two stores with the same byte image agree on the version written and on
/// every header quantity: user field count, trail count, event total and
/// both timestamp extrema. In particular a database reopened from a
/// finalized image reports its builder's counts: `k + 1` fields for `k`
/// declared, one trail per distinct identifier, one event per add, and the
/// extrema of the added timestamps.
#[verifier::rlimit(100)]
pub proof fn lemma_image_determines_counts(a: Store, va: u64, b: Store, vb: u64)
    requires
        store_wf(a),
        store_wf(b),
        ser_db(a, va) == ser_db(b, vb),
    ensures
        va == vb,
        a.fields.len() == b.fields.len(),
        a.uuids.len() == b.uuids.len(),
        a.num_events == b.num_events,
        a.min_ts == b.min_ts,
        a.max_ts == b.max_ts,
{
    vstd::bytes::lemma_auto_spec_u64_to_from_le_bytes();
    let ia = ser_db(a, va);
    let ib = ser_db(b, vb);
    assert(ia.subrange(8, 16) =~= le(va));
    assert(ib.subrange(8, 16) =~= le(vb));
    assert(ia.subrange(16, 24) =~= le(a.fields.len() as u64));
    assert(ib.subrange(16, 24) =~= le(b.fields.len() as u64));
    assert(ia.subrange(24, 32) =~= le(a.uuids.len() as u64));
    assert(ib.subrange(24, 32) =~= le(b.uuids.len() as u64));
    assert(ia.subrange(32, 40) =~= le(a.num_events));
    assert(ib.subrange(32, 40) =~= le(b.num_events));
    assert(ia.subrange(40, 48) =~= le(a.min_ts));
    assert(ib.subrange(40, 48) =~= le(b.min_ts));
    assert(ia.subrange(48, 56) =~= le(a.max_ts));
    assert(ib.subrange(48, 56) =~= le(b.max_ts));
    assert(vstd::bytes::spec_u64_from_le_bytes(le(va)) == va);
    assert(vstd::bytes::spec_u64_from_le_bytes(le(vb)) == vb);
}

/// The identifier/ordinal mapping of a well-formed store is a bijection:
/// looking up the identifier of trail `t` finds exactly `t` again, so
/// `get_trail_id` after `get_uuid` (and the other way round) round-trips.
pub proof fn lemma_uuid_bijection(s: Store, t: int)
    requires
        store_wf(s),
        0 <= t < s.uuids.len(),
    ensures
        find_pos(s.uuids, s.uuids[t]) == Option::Some(t),
{
    lemma_find_pos(s.uuids, s.uuids[t]);
    match find_pos(s.uuids, s.uuids[t]) {
        Option::Some(i) => {
            if i != t {
                assert(s.uuids[i] == s.uuids[t]);
                assert(false);
            }
        },
        Option::None => {
            assert(s.uuids[t] != s.uuids[t]);
        },
    }
}

/// Every item of every event of a well-formed store resolves: its field
/// component names its own slot and its value component indexes that
/// slot's lexicon, so item-value lookup returns the interned string.
pub proof fn lemma_items_resolve(s: Store, t: int, e: int, f: int)
    requires
        store_wf(s),
        0 <= t < s.trails.len(),
        0 <= e < s.trails[t].len(),
        0 <= f < s.trails[t][e].items.len(),
    ensures
        1 <= spec_item_field(s.trails[t][e].items[f]) <= s.fields.len(),
        spec_item_val(s.trails[t][e].items[f]) < s.lexicons[f].len(),
        s.lexicons[f][spec_item_val(s.trails[t][e].items[f]) as int] == resolved_vals(
            s,
            s.trails[t][e],
        )[f],
{
    assert(event_wf(s.trails[t][e], s.lexicons));
    assert(spec_item_field(s.trails[t][e].items[f]) == f + 1);
}

/// The event a successful add appends resolves, through the store the add
/// leaves behind, to exactly the value strings that were supplied: what
/// iteration later yields and item-value lookup returns is what went in.
pub proof fn lemma_add_resolves(pre: Store, u: Seq<u8>, ts: u64, vals: Seq<Seq<char>>, post: Store)
    requires
        store_wf(pre),
        vals.len() == pre.fields.len(),
        spec_add(pre, u, ts, vals) == Result::<Store, Error>::Ok(post),
    ensures
        resolved_vals(post, EventModel { ts, items: new_items(pre.lexicons, vals) }) == vals,
{
    crate::cons::lemma_intern_errors_all_ok(pre.lexicons, vals, 0);
    let ev = EventModel { ts, items: new_items(pre.lexicons, vals) };
    assert forall|f: int| 0 <= f < vals.len() implies resolved_vals(post, ev)[f] == vals[f] by {
        lemma_find_pos(pre.lexicons[f], vals[f]);
        assert(intern_result(pre.lexicons[f], vals[f]) is Ok);
        crate::item::lemma_item_roundtrip(
            (f + 1) as u64,
            crate::cons::intern_ord(pre.lexicons[f], vals[f]),
        );
    }
    assert(resolved_vals(post, ev) =~= vals);
}

/// One further add never disturbs an existing event: the event keeps its
/// place, and — ordinals being stable, never reassigned — it still
/// resolves to the same value strings afterwards.
pub proof fn lemma_add_preserves_resolution(
    pre: Store,
    u: Seq<u8>,
    ts: u64,
    vals: Seq<Seq<char>>,
    post: Store,
    t: int,
    e: int,
)
    requires
        store_wf(pre),
        vals.len() == pre.fields.len(),
        spec_add(pre, u, ts, vals) == Result::<Store, Error>::Ok(post),
        0 <= t < pre.trails.len(),
        0 <= e < pre.trails[t].len(),
    ensures
        pre.trails.len() <= post.trails.len(),
        e < post.trails[t].len(),
        post.trails[t][e] == pre.trails[t][e],
        resolved_vals(post, pre.trails[t][e]) == resolved_vals(pre, pre.trails[t][e]),
{
    crate::cons::lemma_intern_errors_all_ok(pre.lexicons, vals, 0);
    lemma_find_pos(pre.uuids, u);
    let ev = pre.trails[t][e];
    assert(event_wf(ev, pre.lexicons));
    assert forall|f: int| 0 <= f < ev.items.len() implies post.lexicons[f][spec_item_val(
        ev.items[f],
    ) as int] == pre.lexicons[f][spec_item_val(ev.items[f]) as int] by {
        assert(spec_item_field(ev.items[f]) == f + 1);
        assert(intern_result(pre.lexicons[f], vals[f]) is Ok);
        lemma_find_pos(pre.lexicons[f], vals[f]);
    }
    assert(resolved_vals(post, ev) =~= resolved_vals(pre, ev));
}

/// However many adds follow, an event already present keeps its place and
/// what it resolves to. Together with `lemma_add_resolves` this is the
/// value round trip in full: every event of a finished construction
/// resolves to exactly the strings its own add supplied.
pub proof fn lemma_adds_preserve_resolution(
    s: Store,
    reqs: Seq<AddReq>,
    s2: Store,
    t: int,
    e: int,
)
    requires
        store_wf(s),
        apply_adds(s, reqs) == Result::<Store, Error>::Ok(s2),
        forall|i: int|
            0 <= i < reqs.len() ==> (#[trigger] reqs[i]).u.len() == 16 && reqs[i].vals.len()
                == s.fields.len(),
        0 <= t < s.trails.len(),
        0 <= e < s.trails[t].len(),
    ensures
        s.trails.len() <= s2.trails.len(),
        e < s2.trails[t].len(),
        s2.trails[t][e] == s.trails[t][e],
        resolved_vals(s2, s.trails[t][e]) == resolved_vals(s, s.trails[t][e]),
    decreases reqs.len(),
{
    if reqs.len() == 0 {
        assert(s2 == s);
    } else {
        let q = reqs[0];
        let s1 = match spec_add(s, q.u, q.ts, q.vals) {
            Result::Ok(x) => x,
            Result::Err(_) => s,
        };
        assert(spec_add(s, q.u, q.ts, q.vals) == Result::<Store, Error>::Ok(s1));
        lemma_add_ok_wf(s, q.u, q.ts, q.vals, s1);
        lemma_add_preserves_resolution(s, q.u, q.ts, q.vals, s1, t, e);
        assert(forall|i: int|
            0 <= i < reqs.drop_first().len() ==> #[trigger] reqs.drop_first()[i] == reqs[i + 1]);
        lemma_adds_preserve_resolution(s1, reqs.drop_first(), s2, t, e);
    }
}

/// The identifiers a request sequence mentions.
pub open spec fn req_uuids(reqs: Seq<AddReq>) -> Set<Seq<u8>> {
    Set::new(|u: Seq<u8>| exists|i: int| 0 <= i < reqs.len() && (#[trigger] reqs[i]).u == u)
}

/// Replaying a request sequence adds one event per request, and one trail
/// per identifier not seen before: afterwards the trail count is the
/// number of distinct identifiers ever added, and the trail set carries
/// exactly the old identifiers plus the requests'.
pub proof fn lemma_adds_totals(s: Store, reqs: Seq<AddReq>, s2: Store)
    requires
        store_wf(s),
        apply_adds(s, reqs) == Result::<Store, Error>::Ok(s2),
        forall|i: int|
            0 <= i < reqs.len() ==> (#[trigger] reqs[i]).u.len() == 16 && reqs[i].vals.len()
                == s.fields.len(),
    ensures
        store_wf(s2),
        s2.num_events == s.num_events + reqs.len(),
        s2.uuids.to_set() == s.uuids.to_set().union(req_uuids(reqs)),
        s2.fields == s.fields,
    decreases reqs.len(),
{
    if reqs.len() == 0 {
        assert(s2 == s);
        assert(req_uuids(reqs) =~= Set::<Seq<u8>>::empty());
        assert(s2.uuids.to_set() =~= s.uuids.to_set().union(req_uuids(reqs)));
    } else {
        let q = reqs[0];
        let s1 = match spec_add(s, q.u, q.ts, q.vals) {
            Result::Ok(x) => x,
            Result::Err(_) => s,
        };
        assert(spec_add(s, q.u, q.ts, q.vals) == Result::<Store, Error>::Ok(s1));
        lemma_add_ok_wf(s, q.u, q.ts, q.vals, s1);
        assert(s1.fields == s.fields);
        assert(forall|i: int|
            0 <= i < reqs.drop_first().len() ==> #[trigger] reqs.drop_first()[i] == reqs[i + 1]);
        lemma_adds_totals(s1, reqs.drop_first(), s2);
        assert(s.num_events < 0xFFFF_FFFF_FFFF_FFFFu64) by {
            crate::model::lemma_total_events_bound(s.trails);
        }
        lemma_find_pos(s.uuids, q.u);
        match find_pos(s.uuids, q.u) {
            Option::Some(t) => {
                assert(s1.uuids == s.uuids);
                assert(s.uuids.to_set().contains(q.u)) by {
                    assert(s.uuids[t] == q.u);
                }
            },
            Option::None => {
                assert(s1.uuids == s.uuids.push(q.u));
                assert(s1.uuids.to_set() =~= s.uuids.to_set().insert(q.u)) by {
                    assert forall|u: Seq<u8>| #[trigger] s1.uuids.to_set().contains(u) implies s
                        .uuids.to_set().insert(q.u).contains(u) by {
                        let i = choose|i: int| 0 <= i < s1.uuids.len() && s1.uuids[i] == u;
                        if i < s.uuids.len() {
                            assert(s.uuids[i] == u);
                        }
                    }
                    assert forall|u: Seq<u8>| s.uuids.to_set().insert(q.u).contains(u) implies
                        #[trigger] s1.uuids.to_set().contains(u) by {
                        if u == q.u {
                            assert(s1.uuids[s.uuids.len() as int] == u);
                        } else {
                            let i = choose|i: int| 0 <= i < s.uuids.len() && s.uuids[i] == u;
                            assert(s1.uuids[i] == u);
                        }
                    }
                }
            },
        }
        assert(req_uuids(reqs) =~= req_uuids(reqs.drop_first()).insert(q.u)) by {
            assert forall|u: Seq<u8>| #[trigger] req_uuids(reqs).contains(u) implies req_uuids(
                reqs.drop_first(),
            ).insert(q.u).contains(u) by {
                let i = choose|i: int| 0 <= i < reqs.len() && reqs[i].u == u;
                if i > 0 {
                    assert(reqs.drop_first()[i - 1].u == u);
                }
            }
            assert forall|u: Seq<u8>| req_uuids(reqs.drop_first()).insert(q.u).contains(u) implies
                #[trigger] req_uuids(reqs).contains(u) by {
                if u == q.u {
                    assert(reqs[0].u == u);
                } else {
                    let i = choose|i: int|
                        0 <= i < reqs.drop_first().len() && reqs.drop_first()[i].u == u;
                    assert(reqs[i + 1].u == u);
                }
            }
        }
        assert(s2.uuids.to_set() =~= s.uuids.to_set().union(req_uuids(reqs)));
    }
}

/// From a freshly opened builder, any successful construction sequence
/// ends with one trail per distinct identifier added and one event per
/// add call: `num_trails` is the distinct count and `num_events` the call
/// count.
pub proof fn lemma_counts_from_scratch(s: Store, reqs: Seq<AddReq>, s2: Store)
    requires
        store_wf(s),
        s.uuids.len() == 0,
        s.num_events == 0,
        apply_adds(s, reqs) == Result::<Store, Error>::Ok(s2),
        forall|i: int|
            0 <= i < reqs.len() ==> (#[trigger] reqs[i]).u.len() == 16 && reqs[i].vals.len()
                == s.fields.len(),
    ensures
        s2.num_events == reqs.len(),
        s2.uuids.len() == req_uuids(reqs).len(),
{
    lemma_adds_totals(s, reqs, s2);
    assert(s.uuids.to_set() =~= Set::<Seq<u8>>::empty());
    assert(s2.uuids.to_set() =~= req_uuids(reqs));
    assert(s2.uuids.no_duplicates()) by {
        assert(all_distinct(s2.uuids));
    }
    s2.uuids.unique_seq_to_set();
}

/// A well-formed store is pinned down completely by its byte image: two
/// well-formed stores with the same image are the same store. Hence a
/// database reopened from a finalized image carries exactly the frozen
/// builder content — schema, identifiers, lexicons and trails alike — and
/// every round-trip guarantee survives the trip through storage.
#[verifier::rlimit(100)]
pub proof fn lemma_image_determines_store(a: Store, va: u64, b: Store, vb: u64)
    requires
        store_wf(a),
        store_wf(b),
        ser_db(a, va) == ser_db(b, vb),
    ensures
        a == b,
        va == vb,
{
    lemma_image_determines_counts(a, va, b, vb);
    let header = le(crate::serial::MAGIC) + le(va) + le(a.fields.len() as u64) + le(
        a.uuids.len() as u64,
    ) + le(a.num_events) + le(a.min_ts) + le(a.max_ts);
    let body_a = crate::serial::ser_strs(a.fields) + (crate::serial::ser_uuids(a.uuids)
        + (crate::serial::ser_lexicons(a.lexicons) + crate::serial::ser_trails(a.trails)));
    let body_b = crate::serial::ser_strs(b.fields) + (crate::serial::ser_uuids(b.uuids)
        + (crate::serial::ser_lexicons(b.lexicons) + crate::serial::ser_trails(b.trails)));
    assert(ser_db(a, va) =~= header + body_a);
    assert(ser_db(b, vb) =~= header + body_b);
    lemma_split(header, body_a, header, body_b);
    lemma_strs_inj(
        a.fields,
        b.fields,
        crate::serial::ser_uuids(a.uuids) + (crate::serial::ser_lexicons(a.lexicons)
            + crate::serial::ser_trails(a.trails)),
        crate::serial::ser_uuids(b.uuids) + (crate::serial::ser_lexicons(b.lexicons)
            + crate::serial::ser_trails(b.trails)),
    );
    lemma_uuids_inj(
        a.uuids,
        b.uuids,
        crate::serial::ser_lexicons(a.lexicons) + crate::serial::ser_trails(a.trails),
        crate::serial::ser_lexicons(b.lexicons) + crate::serial::ser_trails(b.trails),
    );
    lemma_lex_inj(
        a.lexicons,
        b.lexicons,
        crate::serial::ser_trails(a.trails),
        crate::serial::ser_trails(b.trails),
    );
    assert forall|t: int, e: int|
        0 <= t < a.trails.len() && 0 <= e < a.trails[t].len() implies (
    #[trigger] a.trails[t][e]).items.len() == a.fields.len() by {
        assert(event_wf(a.trails[t][e], a.lexicons));
    }
    assert forall|t: int, e: int|
        0 <= t < b.trails.len() && 0 <= e < b.trails[t].len() implies (
    #[trigger] b.trails[t][e]).items.len() == b.fields.len() by {
        assert(event_wf(b.trails[t][e], b.lexicons));
    }
    lemma_trails_inj(
        a.trails,
        b.trails,
        a.fields.len() as int,
        Seq::empty(),
        Seq::empty(),
    );
    assert(a =~= b);
}

/// Replaying a request sequence drives the recorded extrema to the least
/// and greatest timestamp seen: every request's timestamp lies between
/// them, and each extremum is an added timestamp (or the original one when
/// the store already held events).
pub proof fn lemma_adds_extrema(s: Store, reqs: Seq<AddReq>, s2: Store)
    requires
        store_wf(s),
        apply_adds(s, reqs) == Result::<Store, Error>::Ok(s2),
        forall|i: int|
            0 <= i < reqs.len() ==> (#[trigger] reqs[i]).u.len() == 16 && reqs[i].vals.len()
                == s.fields.len(),
    ensures
        store_wf(s2),
        forall|i: int|
            0 <= i < reqs.len() ==> s2.min_ts <= (#[trigger] reqs[i]).ts <= s2.max_ts,
        s.num_events > 0 ==> s2.min_ts <= s.min_ts && s2.max_ts >= s.max_ts,
        s.num_events > 0 || reqs.len() > 0 ==> {
            &&& (s2.min_ts == s.min_ts && s.num_events > 0 || exists|i: int|
                0 <= i < reqs.len() && (#[trigger] reqs[i]).ts == s2.min_ts)
            &&& (s2.max_ts == s.max_ts && s.num_events > 0 || exists|i: int|
                0 <= i < reqs.len() && (#[trigger] reqs[i]).ts == s2.max_ts)
        },
        s2.num_events == s.num_events + reqs.len(),
    decreases reqs.len(),
{
    if reqs.len() == 0 {
        assert(s2 == s);
    } else {
        let q = reqs[0];
        let s1 = match spec_add(s, q.u, q.ts, q.vals) {
            Result::Ok(x) => x,
            Result::Err(_) => s,
        };
        assert(spec_add(s, q.u, q.ts, q.vals) == Result::<Store, Error>::Ok(s1));
        lemma_add_ok_wf(s, q.u, q.ts, q.vals, s1);
        assert(forall|i: int|
            0 <= i < reqs.drop_first().len() ==> #[trigger] reqs.drop_first()[i] == reqs[i + 1]);
        lemma_adds_extrema(s1, reqs.drop_first(), s2);
        assert(s.num_events < 0xFFFF_FFFF_FFFF_FFFFu64) by {
            crate::model::lemma_total_events_bound(s.trails);
        }
        assert(s1.num_events == s.num_events + 1);
        assert(s1.min_ts == if s.num_events == 0 {
            q.ts
        } else if q.ts < s.min_ts {
            q.ts
        } else {
            s.min_ts
        });
        assert forall|i: int| 0 <= i < reqs.len() implies s2.min_ts <= (#[trigger] reqs[i]).ts
            <= s2.max_ts by {
            if i == 0 {
                assert(s2.min_ts <= s1.min_ts <= q.ts);
                assert(q.ts <= s1.max_ts <= s2.max_ts);
            } else {
                assert(reqs.drop_first()[i - 1] == reqs[i]);
            }
        }
        if s2.min_ts != s.min_ts || s.num_events == 0 {
            if s2.min_ts == s1.min_ts && s1.min_ts == q.ts {
                assert(reqs[0].ts == s2.min_ts);
            } else {
                let i = choose|i: int|
                    0 <= i < reqs.drop_first().len() && (#[trigger] reqs.drop_first()[i]).ts
                        == s2.min_ts;
                if 0 <= i {
                    assert(reqs[i + 1].ts == s2.min_ts);
                }
            }
        }
        if s2.max_ts != s.max_ts || s.num_events == 0 {
            if s2.max_ts == s1.max_ts && s1.max_ts == q.ts {
                assert(reqs[0].ts == s2.max_ts);
            } else {
                let i = choose|i: int|
                    0 <= i < reqs.drop_first().len() && (#[trigger] reqs.drop_first()[i]).ts
                        == s2.max_ts;
                if 0 <= i {
                    assert(reqs[i + 1].ts == s2.max_ts);
                }
            }
        }
    }
}

} // verus!
