//! The mathematical model shared by the builder and the reader: schema,
//! interned value tables, trails of events, and the well-formedness that
//! every operation preserves.

use vstd::prelude::*;
use crate::item::{spec_item_field, spec_item_val};

verus! {

/// Longest accepted output path, in bytes.
pub const MAX_PATH_LEN: usize = 2048;

/// Most user fields a database may declare.
pub const MAX_FIELDS: usize = 16382;

/// Longest accepted field name, in bytes.
pub const MAX_FIELDNAME_LEN: usize = 512;

/// Longest accepted value, in bytes.
pub const MAX_VALUE_LEN: usize = 0x40_0000;

/// Most distinct values one field's lexicon may hold; keeps every value
/// ordinal inside the 32 bits the item codec reserves for it.
pub const MAX_LEXICON_SIZE: usize = 0xFFFF_FFFF;

/// Most distinct trails a database may hold.
pub const MAX_TRAILS: usize = 0xFFFF_FFFF;

/// Most events a single trail may hold.
pub const MAX_TRAIL_LEN: usize = 0xFFFF_FFFF;

/// Largest timestamp the format represents.
pub const MAX_TIMESTAMP: u64 = 0x3FFF_FFFF_FFFF_FFFF;

/// The format version written at finalize and required on open.
pub const DB_VERSION: u64 = 1;

/// One event: a timestamp and one packed item word per user field, in
/// field-declaration order (slot `f` carries field ordinal `f + 1`; ordinal
/// 0 is the reserved time slot).
#[verifier::ext_equal]
pub struct EventModel {
    pub ts: u64,
    pub items: Seq<u64>,
}

/// The accumulated (or frozen) database content.
#[verifier::ext_equal]
pub struct Store {
    /// User field names, in declaration order.
    pub fields: Seq<Seq<char>>,
    /// One identifier per trail, in first-seen order.
    pub uuids: Seq<Seq<u8>>,
    /// One value table per user field; a value's ordinal is its position.
    pub lexicons: Seq<Seq<Seq<char>>>,
    /// One event sequence per trail, parallel to `uuids`.
    pub trails: Seq<Seq<EventModel>>,
    /// Total number of events over all trails.
    pub num_events: u64,
    /// Minimum timestamp over all events; 0 when there are none.
    pub min_ts: u64,
    /// Maximum timestamp over all events; 0 when there are none.
    pub max_ts: u64,
}

/// Sum of the trail lengths.
pub open spec fn total_events(trails: Seq<Seq<EventModel>>) -> int
    decreases trails.len(),
{
    if trails.len() == 0 {
        0
    } else {
        total_events(trails.drop_last()) + trails.last().len()
    }
}

/// First position of `v` in `table`, if any.
pub open spec fn find_pos<A>(table: Seq<A>, v: A) -> Option<int>
    decreases table.len(),
{
    if table.len() == 0 {
        Option::None
    } else if table[0] == v {
        Option::Some(0)
    } else {
        match find_pos(table.drop_first(), v) {
            Option::Some(i) => Option::Some(i + 1),
            Option::None => Option::None,
        }
    }
}

/// What `find_pos` returns is the first matching position.
pub proof fn lemma_find_pos<A>(table: Seq<A>, v: A)
    ensures
        match find_pos(table, v) {
            Option::Some(i) => 0 <= i < table.len() && table[i] == v && forall|j: int|
                0 <= j < i ==> table[j] != v,
            Option::None => forall|j: int| 0 <= j < table.len() ==> table[j] != v,
        },
    decreases table.len(),
{
    if table.len() > 0 && table[0] != v {
        let rest = table.drop_first();
        lemma_find_pos(rest, v);
        assert(forall|j: int| 0 <= j < rest.len() ==> rest[j] == table[j + 1]);
        match find_pos(rest, v) {
            Option::Some(i) => {
                assert(forall|j: int| 1 <= j < i + 1 ==> table[j] == rest[j - 1]);
            },
            Option::None => {
                assert(forall|j: int| 1 <= j < table.len() ==> table[j] == rest[j - 1]);
            },
        }
    }
}

/// A well-formed event for a store with `k` user fields: one item per user
/// field, each packed for its own slot, each value ordinal inside its
/// field's lexicon, the timestamp in range.
pub open spec fn event_wf(ev: EventModel, lexicons: Seq<Seq<Seq<char>>>) -> bool {
    &&& ev.items.len() == lexicons.len()
    &&& ev.ts <= MAX_TIMESTAMP
    &&& forall|f: int|
        0 <= f < ev.items.len() ==> #[trigger] spec_item_field(ev.items[f]) == f + 1
            && spec_item_val(ev.items[f]) < lexicons[f].len()
}

/// A valid field name: non-empty and at most `MAX_FIELDNAME_LEN` bytes.
pub open spec fn fieldname_ok(name: Seq<char>) -> bool {
    0 < vstd::utf8::encode_utf8(name).len() <= MAX_FIELDNAME_LEN
}

/// No element occurs twice.
pub open spec fn all_distinct<A>(s: Seq<A>) -> bool {
    forall|i: int, j: int| 0 <= i < j < s.len() ==> s[i] != s[j]
}

/// The invariant every operation establishes and preserves.
pub open spec fn store_wf(s: Store) -> bool {
    &&& s.fields.len() <= MAX_FIELDS
    &&& forall|f: int| 0 <= f < s.fields.len() ==> fieldname_ok(#[trigger] s.fields[f])
    &&& all_distinct(s.fields)
    &&& s.lexicons.len() == s.fields.len()
    &&& forall|f: int| 0 <= f < s.lexicons.len() ==> (#[trigger] s.lexicons[f]).len()
        <= MAX_LEXICON_SIZE
    &&& forall|f: int| 0 <= f < s.lexicons.len() ==> all_distinct(#[trigger] s.lexicons[f])
    &&& forall|f: int, v: int|
        0 <= f < s.lexicons.len() && 0 <= v < s.lexicons[f].len() ==> vstd::utf8::encode_utf8(
            #[trigger] s.lexicons[f][v],
        ).len() <= MAX_VALUE_LEN
    &&& s.uuids.len() == s.trails.len()
    &&& s.uuids.len() <= MAX_TRAILS
    &&& forall|t: int| 0 <= t < s.uuids.len() ==> (#[trigger] s.uuids[t]).len() == 16
    &&& all_distinct(s.uuids)
    &&& forall|t: int|
        0 <= t < s.trails.len() ==> 1 <= (#[trigger] s.trails[t]).len() <= MAX_TRAIL_LEN
    &&& forall|t: int, e: int|
        0 <= t < s.trails.len() && 0 <= e < s.trails[t].len() ==> event_wf(
            #[trigger] s.trails[t][e],
            s.lexicons,
        )
    &&& s.num_events == total_events(s.trails)
    &&& ts_bounds(s)
}

/// `min_ts` and `max_ts` are the extrema of all timestamps, 0 when there
/// are no events.
pub open spec fn ts_bounds(s: Store) -> bool {
    &&& forall|t: int, e: int|
        0 <= t < s.trails.len() && 0 <= e < s.trails[t].len() ==> s.min_ts <= (
        #[trigger] s.trails[t][e]).ts <= s.max_ts
    &&& s.trails.len() > 0 ==> (exists|t: int, e: int|
        0 <= t < s.trails.len() && 0 <= e < s.trails[t].len() && (#[trigger] s.trails[t][e]).ts
            == s.min_ts)
    &&& s.trails.len() > 0 ==> (exists|t: int, e: int|
        0 <= t < s.trails.len() && 0 <= e < s.trails[t].len() && (#[trigger] s.trails[t][e]).ts
            == s.max_ts)
    &&& s.trails.len() == 0 ==> s.min_ts == 0 && s.max_ts == 0
}

/// Appending one event to an existing trail raises the total by one.
pub proof fn lemma_total_events_update(trails: Seq<Seq<EventModel>>, t: int, ev: EventModel)
    requires
        0 <= t < trails.len(),
    ensures
        total_events(trails.update(t, trails[t].push(ev))) == total_events(trails) + 1,
    decreases trails.len(),
{
    let upd = trails.update(t, trails[t].push(ev));
    if t == trails.len() - 1 {
        assert(upd.drop_last() =~= trails.drop_last());
        assert(upd.last() == trails.last().push(ev));
    } else {
        assert(upd.drop_last() =~= trails.drop_last().update(t, trails[t].push(ev)));
        assert(upd.last() == trails.last());
        lemma_total_events_update(trails.drop_last(), t, ev);
    }
}

/// The total is bounded by the trail count times the per-trail cap.
pub proof fn lemma_total_events_bound(trails: Seq<Seq<EventModel>>)
    requires
        forall|t: int| 0 <= t < trails.len() ==> (#[trigger] trails[t]).len() <= MAX_TRAIL_LEN,
    ensures
        total_events(trails) <= trails.len() * (MAX_TRAIL_LEN as int),
    decreases trails.len(),
{
    if trails.len() > 0 {
        lemma_total_events_bound(trails.drop_last());
    }
}

/// With no empty trails, the total is at least the trail count.
pub proof fn lemma_total_events_lower(trails: Seq<Seq<EventModel>>)
    requires
        forall|t: int| 0 <= t < trails.len() ==> (#[trigger] trails[t]).len() >= 1,
    ensures
        total_events(trails) >= trails.len(),
    decreases trails.len(),
{
    if trails.len() > 0 {
        lemma_total_events_lower(trails.drop_last());
    }
}

/// Opening a new trail with one event raises the total by one.
pub proof fn lemma_total_events_push(trails: Seq<Seq<EventModel>>, ev: EventModel)
    ensures
        total_events(trails.push(seq![ev])) == total_events(trails) + 1,
{
    let upd = trails.push(seq![ev]);
    assert(upd.drop_last() =~= trails);
    assert(upd.last() =~= seq![ev]);
}

} // verus!
