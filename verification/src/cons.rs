//! The mutable builder: accumulates (uuid, timestamp, values) tuples,
//! growing one lexicon per field and one provisional trail per distinct
//! identifier, until `finalize` freezes everything into a byte image.

use vstd::prelude::*;
use crate::errors::Error;
use crate::item::{pack_item, spec_item, spec_item_field, spec_item_val, Item, Timestamp, Uuid};
use crate::lexicon::{find_value, intern, intern_result};
use crate::model::{
    all_distinct, event_wf, fieldname_ok, find_pos, lemma_find_pos, lemma_total_events_bound,
    lemma_total_events_lower, lemma_total_events_push,
    lemma_total_events_update, store_wf, total_events, ts_bounds, EventModel, Store, MAX_FIELDS,
    MAX_FIELDNAME_LEN, MAX_LEXICON_SIZE, MAX_PATH_LEN, MAX_TIMESTAMP, MAX_TRAILS, MAX_TRAIL_LEN,
    MAX_VALUE_LEN,
};

verus! {

/// One buffered event: its timestamp and one packed item per user field.
pub struct EventRec {
    pub timestamp: u64,
    pub items: Vec<Item>,
}

impl View for EventRec {
    type V = EventModel;

    open spec fn view(&self) -> EventModel {
        EventModel {
            ts: self.timestamp,
            items: Seq::new(self.items@.len(), |i: int| self.items@[i].0),
        }
    }
}

impl DeepView for EventRec {
    type V = EventModel;

    open spec fn deep_view(&self) -> EventModel {
        self.view()
    }
}

/// What a constructor is, mathematically: the target path and the
/// accumulated content.
pub struct ConsModel {
    pub path: Seq<char>,
    pub store: Store,
}

/// A mutable builder for one database, created open and consumed by
/// `finalize` (write out) or `close` (discard).
pub struct Constructor {
    path: String,
    fields: Vec<String>,
    uuids: Vec<Uuid>,
    trails: Vec<Vec<EventRec>>,
    lexicons: Vec<Vec<String>>,
    num_events: u64,
    min_ts: u64,
    max_ts: u64,
}

impl View for Constructor {
    type V = ConsModel;

    closed spec fn view(&self) -> ConsModel {
        ConsModel {
            path: self.path@,
            store: Store {
                fields: self.fields.deep_view(),
                uuids: self.uuids.deep_view(),
                lexicons: self.lexicons.deep_view(),
                trails: self.trails.deep_view(),
                num_events: self.num_events,
                min_ts: self.min_ts,
                max_ts: self.max_ts,
            },
        }
    }
}

/// Why opening a constructor is refused, if it is; checks run in this
/// order: path length, field count, field name validity, duplicates.
pub open spec fn open_error(path: Seq<char>, fields: Seq<Seq<char>>) -> Option<Error> {
    if vstd::utf8::encode_utf8(path).len() > MAX_PATH_LEN {
        Option::Some(Error::PathTooLong)
    } else if fields.len() > MAX_FIELDS {
        Option::Some(Error::TooManyFields)
    } else if exists|i: int| 0 <= i < fields.len() && !fieldname_ok(#[trigger] fields[i]) {
        Option::Some(Error::InvalidFieldname)
    } else if !all_distinct(fields) {
        Option::Some(Error::DuplicateFields)
    } else {
        Option::None
    }
}

impl Constructor {
    /// The invariant every constructor operation preserves.
    pub open spec fn wf(&self) -> bool {
        &&& store_wf(self@.store)
        &&& vstd::utf8::encode_utf8(self@.path).len() <= MAX_PATH_LEN
    }

    /// Creates a builder for the given output path and user field names.
    /// Succeeds exactly when the path fits, the field count fits, and the
    /// names are valid and pairwise distinct; the new builder holds no
    /// trails, no events and empty lexicons.
    pub fn new(path: &str, fields: &Vec<&str>) -> (r: Result<Self, Error>)
        ensures
            match r {
                Result::Ok(c) => {
                    &&& open_error(path@, fields.deep_view()) is None
                    &&& c.wf()
                    &&& c@.path == path@
                    &&& c@.store.fields == fields.deep_view()
                    &&& c@.store.uuids.len() == 0
                    &&& c@.store.trails.len() == 0
                    &&& c@.store.lexicons.len() == fields@.len()
                    &&& forall|f: int|
                        0 <= f < fields@.len() ==> (#[trigger] c@.store.lexicons[f]).len() == 0
                    &&& c@.store.num_events == 0
                    &&& c@.store.min_ts == 0
                    &&& c@.store.max_ts == 0
                },
                Result::Err(e) => open_error(path@, fields.deep_view()) == Option::Some(e),
            },
    {
        if path.as_bytes().len() > MAX_PATH_LEN {
            return Result::Err(Error::PathTooLong);
        }
        if fields.len() > MAX_FIELDS {
            return Result::Err(Error::TooManyFields);
        }
        let k = fields.len();
        let mut names: Vec<String> = Vec::new();
        for i in 0..k
            invariant
                k == fields@.len() <= MAX_FIELDS,
                names.deep_view() == fields.deep_view().take(i as int),
                names@.len() == i,
                forall|j: int| 0 <= j < i ==> fieldname_ok(#[trigger] fields.deep_view()[j]),
                vstd::utf8::encode_utf8(path@).len() <= MAX_PATH_LEN,
        {
            let b = fields[i].as_bytes().len();
            proof {
                assert(fields.deep_view()[i as int] == fields@[i as int]@);
            }
            if b == 0 || b > MAX_FIELDNAME_LEN {
                proof {
                    assert(!fieldname_ok(fields.deep_view()[i as int]));
                }
                return Result::Err(Error::InvalidFieldname);
            }
            names.push(fields[i].to_owned());
            proof {
                assert(names.deep_view() =~= fields.deep_view().take(i + 1));
            }
        }
        proof {
            assert(names.deep_view() =~= fields.deep_view());
        }
        for i in 0..k
            invariant
                k == fields@.len() <= MAX_FIELDS,
                k == names@.len(),
                names.deep_view() == fields.deep_view(),
                forall|a: int, b: int|
                    0 <= a < b < k && a < i ==> fields.deep_view()[a] != fields.deep_view()[b],
                forall|j: int| 0 <= j < k ==> fieldname_ok(#[trigger] fields.deep_view()[j]),
                vstd::utf8::encode_utf8(path@).len() <= MAX_PATH_LEN,
        {
            for j in (i + 1)..k
                invariant
                    i < k == fields@.len() <= MAX_FIELDS,
                    k == names@.len(),
                    names.deep_view() == fields.deep_view(),
                    forall|a: int, b: int|
                        0 <= a < b < k && a < i ==> fields.deep_view()[a] != fields.deep_view()[b],
                    forall|b: int| i < b < j ==> fields.deep_view()[i as int] != fields.deep_view()[b],
                    forall|jj: int| 0 <= jj < k ==> fieldname_ok(#[trigger] fields.deep_view()[jj]),
                    vstd::utf8::encode_utf8(path@).len() <= MAX_PATH_LEN,
            {
                let same = names[i].eq(&names[j]);
                proof {
                    assert(names.deep_view()[i as int] == names@[i as int]@);
                    assert(names.deep_view()[j as int] == names@[j as int]@);
                }
                if same {
                    proof {
                        assert(!all_distinct(fields.deep_view()));
                    }
                    return Result::Err(Error::DuplicateFields);
                }
            }
        }
        let mut lexicons: Vec<Vec<String>> = Vec::new();
        let mut f: usize = 0;
        while f < k
            invariant
                f <= k,
                lexicons@.len() == f,
                forall|g: int| 0 <= g < f ==> (#[trigger] lexicons@[g])@.len() == 0,
            decreases k - f,
        {
            let fresh: Vec<String> = Vec::new();
            lexicons.push(fresh);
            f += 1;
        }
        let c = Constructor {
            path: path.to_owned(),
            fields: names,
            uuids: Vec::new(),
            trails: Vec::new(),
            lexicons,
            num_events: 0,
            min_ts: 0,
            max_ts: 0,
        };
        proof {
            assert(c@.store.uuids =~= Seq::<Seq<u8>>::empty());
            assert(c@.store.trails =~= Seq::<Seq<EventModel>>::empty());
            assert(total_events(c@.store.trails) == 0);
            assert(store_wf(c@.store));
        }
        Result::Ok(c)
    }
}

/// True exactly when the two identifiers hold the same bytes.
pub fn uuid_eq(a: &Uuid, b: &Uuid) -> (r: bool)
    ensures
        r <==> a@ == b@,
{
    let mut i: usize = 0;
    while i < 16
        invariant
            i <= 16,
            forall|j: int| 0 <= j < i ==> a@[j] == b@[j],
        decreases 16 - i,
    {
        if a[i] != b[i] {
            return false;
        }
        i += 1;
    }
    proof {
        assert(a@ =~= b@);
    }
    true
}

/// Position of `u` among the known identifiers, if present.
pub fn find_uuid(uuids: &Vec<Uuid>, u: &Uuid) -> (r: Option<usize>)
    ensures
        match r {
            Option::Some(t) => find_pos(uuids.deep_view(), u@) == Option::Some(t as int),
            Option::None => find_pos(uuids.deep_view(), u@) == Option::<int>::None,
        },
{
    let n = uuids.len();
    for t in 0..n
        invariant
            n == uuids@.len(),
            forall|j: int| 0 <= j < t ==> uuids.deep_view()[j] != u@,
    {
        let hit = uuid_eq(&uuids[t], u);
        proof {
            assert(uuids.deep_view()[t as int] == uuids@[t as int]@);
        }
        if hit {
            proof {
                let dv = uuids.deep_view();
                lemma_find_pos(dv, u@);
                match find_pos(dv, u@) {
                    Option::Some(tt) => {
                        if tt < t as int {
                            assert(dv[tt] != u@);
                        }
                        if tt > t as int {
                            assert(dv[t as int] != u@);
                        }
                    },
                    Option::None => {
                        assert(dv[t as int] != u@);
                    },
                }
            }
            return Option::Some(t);
        }
    }
    proof {
        lemma_find_pos(uuids.deep_view(), u@);
    }
    Option::None
}

/// First error that interning `vals[f..]` into the matching lexicons would
/// hit, if any.
pub open spec fn intern_errors(
    lexs: Seq<Seq<Seq<char>>>,
    vals: Seq<Seq<char>>,
    f: int,
) -> Option<Error>
    decreases vals.len() - f,
{
    if f < 0 || f >= vals.len() {
        Option::None
    } else {
        match intern_result(lexs[f], vals[f]) {
            Result::Err(e) => Option::Some(e),
            Result::Ok(_) => intern_errors(lexs, vals, f + 1),
        }
    }
}

/// The table after interning `v`, when interning succeeds.
pub open spec fn lex_after(table: Seq<Seq<char>>, v: Seq<char>) -> Seq<Seq<char>> {
    match intern_result(table, v) {
        Result::Ok(p) => p.0,
        Result::Err(_) => table,
    }
}

/// The ordinal interning `v` yields, when interning succeeds.
pub open spec fn intern_ord(table: Seq<Seq<char>>, v: Seq<char>) -> u64 {
    match intern_result(table, v) {
        Result::Ok(p) => p.1,
        Result::Err(_) => 0,
    }
}

/// All lexicons after interning one value per field.
pub open spec fn interned_lexicons(
    lexs: Seq<Seq<Seq<char>>>,
    vals: Seq<Seq<char>>,
) -> Seq<Seq<Seq<char>>> {
    Seq::new(lexs.len(), |f: int| lex_after(lexs[f], vals[f]))
}

/// The packed items of one freshly added event.
pub open spec fn new_items(lexs: Seq<Seq<Seq<char>>>, vals: Seq<Seq<char>>) -> Seq<u64> {
    Seq::new(vals.len(), |f: int| spec_item((f + 1) as u64, intern_ord(lexs[f], vals[f])))
}

/// When the first `f` fields intern cleanly, the first error overall is the
/// first error from `f` on.
pub proof fn lemma_intern_errors_skip(lexs: Seq<Seq<Seq<char>>>, vals: Seq<Seq<char>>, f: int)
    requires
        0 <= f <= vals.len(),
        forall|g: int| 0 <= g < f ==> intern_result(lexs[g], #[trigger] vals[g]) is Ok,
    ensures
        intern_errors(lexs, vals, 0) == intern_errors(lexs, vals, f),
    decreases f,
{
    if f > 0 {
        lemma_intern_errors_skip(lexs, vals, f - 1);
    }
}

/// The only errors interning can raise are the two capacity kinds.
pub proof fn lemma_intern_errors_kinds(lexs: Seq<Seq<Seq<char>>>, vals: Seq<Seq<char>>, f: int)
    ensures
        match intern_errors(lexs, vals, f) {
            Option::Some(e) => e == Error::ValueTooLong || e == Error::LexiconTooLarge,
            Option::None => true,
        },
    decreases vals.len() - f,
{
    if 0 <= f < vals.len() {
        lemma_intern_errors_kinds(lexs, vals, f + 1);
    }
}

/// No first error means every field interns cleanly.
pub proof fn lemma_intern_errors_all_ok(lexs: Seq<Seq<Seq<char>>>, vals: Seq<Seq<char>>, f: int)
    requires
        0 <= f <= vals.len(),
        intern_errors(lexs, vals, f) is None,
    ensures
        forall|g: int| f <= g < vals.len() ==> intern_result(lexs[g], #[trigger] vals[g]) is Ok,
    decreases vals.len() - f,
{
    if f < vals.len() {
        lemma_intern_errors_all_ok(lexs, vals, f + 1);
    }
}

/// What one `add` does to the store: the timestamp is checked, each value
/// interned, and the event appended to its identifier's trail (a fresh
/// trail for a fresh identifier); or the first error that rejects it,
/// leaving the store as it was.
pub open spec fn spec_add(s: Store, u: Seq<u8>, ts: u64, vals: Seq<Seq<char>>) -> Result<
    Store,
    Error,
> {
    if ts > MAX_TIMESTAMP {
        Result::Err(Error::TimestampTooLarge)
    } else if intern_errors(s.lexicons, vals, 0) is Some {
        Result::Err(intern_errors(s.lexicons, vals, 0).unwrap())
    } else {
        let ev = EventModel { ts, items: new_items(s.lexicons, vals) };
        let lex2 = interned_lexicons(s.lexicons, vals);
        let min2 = if s.num_events == 0 {
            ts
        } else if ts < s.min_ts {
            ts
        } else {
            s.min_ts
        };
        let max2 = if s.num_events == 0 {
            ts
        } else if ts > s.max_ts {
            ts
        } else {
            s.max_ts
        };
        match find_pos(s.uuids, u) {
            Option::Some(t) => {
                if s.trails[t].len() >= MAX_TRAIL_LEN {
                    Result::Err(Error::TrailTooLong)
                } else {
                    Result::Ok(
                        Store {
                            lexicons: lex2,
                            trails: s.trails.update(t, s.trails[t].push(ev)),
                            num_events: (s.num_events + 1) as u64,
                            min_ts: min2,
                            max_ts: max2,
                            ..s
                        },
                    )
                }
            },
            Option::None => {
                if s.uuids.len() >= MAX_TRAILS {
                    Result::Err(Error::TooManyTrails)
                } else {
                    Result::Ok(
                        Store {
                            uuids: s.uuids.push(u),
                            lexicons: lex2,
                            trails: s.trails.push(seq![ev]),
                            num_events: (s.num_events + 1) as u64,
                            min_ts: min2,
                            max_ts: max2,
                            ..s
                        },
                    )
                }
            },
        }
    }
}

/// Checks, without mutating anything, whether every value of one event can
/// be interned; hands back the first capacity error otherwise.
fn check_values(lexicons: &Vec<Vec<String>>, vals: &Vec<String>) -> (r: Option<Error>)
    requires
        vals@.len() == lexicons@.len(),
    ensures
        match r {
            Option::Some(e) => intern_errors(lexicons.deep_view(), vals.deep_view(), 0)
                == Option::Some(e),
            Option::None => intern_errors(lexicons.deep_view(), vals.deep_view(), 0)
                == Option::<Error>::None,
        },
{
    let n = vals.len();
    for f in 0..n
        invariant
            n == vals@.len() == lexicons@.len(),
            forall|g: int|
                0 <= g < f ==> intern_result(
                    lexicons.deep_view()[g],
                    #[trigger] vals.deep_view()[g],
                ) is Ok,
    {
        proof {
            assert(vals.deep_view()[f as int] == vals@[f as int]@);
            assert(lexicons.deep_view()[f as int] == lexicons@[f as int].deep_view());
        }
        match find_value(&lexicons[f], &vals[f]) {
            Option::Some(_) => {},
            Option::None => {
                if vals[f].as_str().as_bytes().len() > MAX_VALUE_LEN {
                    proof {
                        lemma_intern_errors_skip(
                            lexicons.deep_view(),
                            vals.deep_view(),
                            f as int,
                        );
                    }
                    return Option::Some(Error::ValueTooLong);
                }
                if lexicons[f].len() >= MAX_LEXICON_SIZE {
                    proof {
                        lemma_intern_errors_skip(
                            lexicons.deep_view(),
                            vals.deep_view(),
                            f as int,
                        );
                    }
                    return Option::Some(Error::LexiconTooLarge);
                }
            },
        }
    }
    proof {
        lemma_intern_errors_skip(lexicons.deep_view(), vals.deep_view(), n as int);
    }
    Option::None
}

/// Interns one value per field — all interns must have been checked viable —
/// and packs the resulting items.
fn intern_all(lexicons: &mut Vec<Vec<String>>, vals: &Vec<String>) -> (items: Vec<Item>)
    requires
        vals@.len() == old(lexicons)@.len(),
        old(lexicons)@.len() <= MAX_FIELDS,
        forall|f: int|
            0 <= f < vals@.len() ==> all_distinct(#[trigger] old(lexicons).deep_view()[f]),
        forall|f: int|
            0 <= f < vals@.len() ==> (#[trigger] old(lexicons).deep_view()[f]).len()
                <= MAX_LEXICON_SIZE,
        intern_errors(old(lexicons).deep_view(), vals.deep_view(), 0) == Option::<Error>::None,
    ensures
        final(lexicons)@.len() == old(lexicons)@.len(),
        final(lexicons).deep_view() == interned_lexicons(
            old(lexicons).deep_view(),
            vals.deep_view(),
        ),
        items@.len() == vals@.len(),
        forall|f: int|
            0 <= f < vals@.len() ==> (#[trigger] items@[f]).0 == spec_item(
                (f + 1) as u64,
                intern_ord(old(lexicons).deep_view()[f], vals.deep_view()[f]),
            ),
        forall|f: int|
            0 <= f < vals@.len() ==> intern_ord(
                old(lexicons).deep_view()[f],
                #[trigger] vals.deep_view()[f],
            ) < lex_after(old(lexicons).deep_view()[f], vals.deep_view()[f]).len(),
{
    proof {
        lemma_intern_errors_all_ok(old(lexicons).deep_view(), vals.deep_view(), 0);
    }
    let n = vals.len();
    let mut items: Vec<Item> = Vec::new();
    for f in 0..n
        invariant
            n == vals@.len() == old(lexicons)@.len() == lexicons@.len(),
            n <= MAX_FIELDS,
            forall|g: int|
                0 <= g < n ==> intern_result(
                    old(lexicons).deep_view()[g],
                    #[trigger] vals.deep_view()[g],
                ) is Ok,
            forall|g: int|
                0 <= g < n ==> all_distinct(#[trigger] old(lexicons).deep_view()[g]),
            forall|g: int|
                0 <= g < n ==> (#[trigger] old(lexicons).deep_view()[g]).len()
                    <= MAX_LEXICON_SIZE,
            forall|g: int|
                f <= g < n ==> #[trigger] lexicons.deep_view()[g] == old(
                    lexicons,
                ).deep_view()[g],
            forall|g: int|
                0 <= g < f ==> #[trigger] lexicons.deep_view()[g] == lex_after(
                    old(lexicons).deep_view()[g],
                    vals.deep_view()[g],
                ),
            items@.len() == f,
            forall|g: int|
                0 <= g < f ==> (#[trigger] items@[g]).0 == spec_item(
                    (g + 1) as u64,
                    intern_ord(old(lexicons).deep_view()[g], vals.deep_view()[g]),
                ),
    {
        let ghost pre_lex = lexicons@;
        let ghost pre_dv = lexicons.deep_view();
        proof {
            assert(vals.deep_view()[f as int] == vals@[f as int]@);
            assert(forall|g: int|
                0 <= g < pre_lex.len() ==> #[trigger] pre_dv[g] == pre_lex[g].deep_view());
            assert(lexicons.deep_view()[f as int] == old(lexicons).deep_view()[f as int]);
            assert(all_distinct(lexicons@[f as int].deep_view()));
            assert(lexicons@[f as int].deep_view().len() <= MAX_LEXICON_SIZE);
            assert(intern_result(lexicons@[f as int].deep_view(), vals@[f as int]@) is Ok);
        }
        let id = match intern(&mut lexicons[f], &vals[f]) {
            Result::Ok(id) => id,
            Result::Err(_) => {
                proof {
                    assert(false);
                }
                0
            },
        };
        proof {
            assert(forall|g: int|
                0 <= g < lexicons@.len() ==> #[trigger] lexicons.deep_view()[g]
                    == lexicons@[g].deep_view());
            assert(forall|g: int|
                0 <= g < pre_lex.len() && g != f ==> lexicons@[g] == pre_lex[g]);
            assert forall|g: int| 0 <= g < n && g != f as int implies #[trigger] lexicons
                .deep_view()[g] == pre_dv[g] by {
                assert(lexicons.deep_view()[g] == lexicons@[g].deep_view());
                assert(pre_dv[g] == pre_lex[g].deep_view());
            }
            assert(lexicons.deep_view()[f as int] == lex_after(
                old(lexicons).deep_view()[f as int],
                vals.deep_view()[f as int],
            ));
        }
        items.push(Item(pack_item(f as u64 + 1, id)));
    }
    proof {
        assert(lexicons.deep_view() =~= interned_lexicons(
            old(lexicons).deep_view(),
            vals.deep_view(),
        ));
        assert forall|f: int| 0 <= f < vals@.len() implies intern_ord(
            old(lexicons).deep_view()[f],
            #[trigger] vals.deep_view()[f],
        ) < lex_after(old(lexicons).deep_view()[f], vals.deep_view()[f]).len() by {
            assert(intern_result(old(lexicons).deep_view()[f], vals.deep_view()[f]) is Ok);
            lemma_find_pos(old(lexicons).deep_view()[f], vals.deep_view()[f]);
        }
    }
    items
}

impl Constructor {
    /// Adds one event: `values` carries exactly one entry per user field,
    /// in declaration order. The event lands on its identifier's trail — a
    /// fresh trail when the identifier is new — after every value is
    /// interned; a rejected add leaves the builder exactly as it was.
    pub fn add(&mut self, uuid: &Uuid, timestamp: Timestamp, values: &Vec<&str>) -> (r: Result<
        (),
        Error,
    >)
        requires
            old(self).wf(),
            values@.len() == old(self)@.store.fields.len(),
        ensures
            final(self).wf(),
            final(self)@.path == old(self)@.path,
            final(self)@.store.fields == old(self)@.store.fields,
            match r {
                Result::Ok(_) => spec_add(old(self)@.store, uuid@, timestamp, values.deep_view())
                    == Result::<Store, Error>::Ok(final(self)@.store),
                Result::Err(e) => {
                    &&& spec_add(old(self)@.store, uuid@, timestamp, values.deep_view())
                        == Result::<Store, Error>::Err(e)
                    &&& final(self)@ == old(self)@
                },
            },
    {
        let ghost pre = old(self)@.store;
        if timestamp > MAX_TIMESTAMP {
            return Result::Err(Error::TimestampTooLarge);
        }
        let n = values.len();
        let mut vals_owned: Vec<String> = Vec::new();
        for i in 0..n
            invariant
                n == values@.len(),
                vals_owned@.len() == i,
                vals_owned.deep_view() == values.deep_view().take(i as int),
        {
            vals_owned.push(values[i].to_owned());
            proof {
                assert(vals_owned.deep_view() =~= values.deep_view().take(i + 1));
            }
        }
        proof {
            assert(vals_owned.deep_view() =~= values.deep_view());
        }
        match check_values(&self.lexicons, &vals_owned) {
            Option::Some(e) => {
                return Result::Err(e);
            },
            Option::None => {},
        }
        let t_opt = find_uuid(&self.uuids, uuid);
        proof {
            lemma_find_pos(pre.uuids, uuid@);
        }
        match t_opt {
            Option::Some(t) => {
                proof {
                    assert(self.trails.deep_view()[t as int] == self.trails@[t as int].deep_view());
                }
                if self.trails[t].len() >= MAX_TRAIL_LEN {
                    return Result::Err(Error::TrailTooLong);
                }
            },
            Option::None => {
                if self.uuids.len() >= MAX_TRAILS {
                    return Result::Err(Error::TooManyTrails);
                }
            },
        }
        let items = intern_all(&mut self.lexicons, &vals_owned);
        let ghost ev_model = EventModel {
            ts: timestamp,
            items: new_items(pre.lexicons, values.deep_view()),
        };
        let ev = EventRec { timestamp, items };
        proof {
            assert(ev@.items =~= ev_model.items);
            assert(ev@ == ev_model);
        }
        if self.num_events == 0 {
            self.min_ts = timestamp;
            self.max_ts = timestamp;
        } else {
            if timestamp < self.min_ts {
                self.min_ts = timestamp;
            }
            if timestamp > self.max_ts {
                self.max_ts = timestamp;
            }
        }
        proof {
            lemma_total_events_bound(pre.trails);
            assert(pre.num_events < 0xFFFF_FFFF_FFFF_FFFFu64);
        }
        let ghost lex2 = interned_lexicons(pre.lexicons, values.deep_view());
        match t_opt {
            Option::Some(t) => {
                let ghost pre_trails = self.trails@;
                let ghost pre_tdv = self.trails.deep_view();
                proof {
                    assert(forall|g: int|
                        0 <= g < pre_trails.len() ==> #[trigger] pre_tdv[g]
                            == pre_trails[g].deep_view());
                }
                let tr = &mut self.trails[t];
                tr.push(ev);
                proof {
                    assert(forall|g: int|
                        0 <= g < self.trails@.len() ==> #[trigger] self.trails.deep_view()[g]
                            == self.trails@[g].deep_view());
                    assert(self.trails@[t as int]@ == pre_trails[t as int]@.push(ev));
                    assert(self.trails.deep_view()[t as int] =~= pre_tdv[t as int].push(ev@));
                    assert(self.trails.deep_view() =~= pre.trails.update(
                        t as int,
                        pre.trails[t as int].push(ev_model),
                    ));
                }
                self.num_events = self.num_events + 1;
                proof {
                    lemma_total_events_update(pre.trails, t as int, ev_model);
                    lemma_add_ok_wf(pre, uuid@, timestamp, values.deep_view(), self@.store);
                }
                Result::Ok(())
            },
            Option::None => {
                self.uuids.push(*uuid);
                let mut trail: Vec<EventRec> = Vec::new();
                trail.push(ev);
                self.trails.push(trail);
                proof {
                    assert(forall|g: int|
                        0 <= g < self.uuids@.len() ==> #[trigger] self.uuids.deep_view()[g]
                            == self.uuids@[g].deep_view());
                    assert(forall|g: int|
                        0 <= g < old(self).uuids@.len() ==> #[trigger] old(
                            self,
                        ).uuids.deep_view()[g] == old(self).uuids@[g].deep_view());
                    assert((*uuid).deep_view() =~= uuid@);
                    assert(self.uuids.deep_view() =~= pre.uuids.push(uuid@));
                    assert(forall|g: int|
                        0 <= g < self.trails@.len() ==> #[trigger] self.trails.deep_view()[g]
                            == self.trails@[g].deep_view());
                    assert(self.trails.deep_view()[pre.trails.len() as int] =~= seq![ev_model]);
                    assert(self.trails.deep_view() =~= pre.trails.push(seq![ev_model]));
                }
                self.num_events = self.num_events + 1;
                proof {
                    lemma_total_events_push(pre.trails, ev_model);
                    lemma_add_ok_wf(pre, uuid@, timestamp, values.deep_view(), self@.store);
                }
                Result::Ok(())
            },
        }
    }
}

/// One recorded `add` request: the identifier, the timestamp and the
/// value strings, one per user field.
pub struct AddReq {
    pub u: Seq<u8>,
    pub ts: u64,
    pub vals: Seq<Seq<char>>,
}

/// Replays a sequence of requests through `spec_add`, stopping at the
/// first rejection.
pub open spec fn apply_adds(s: Store, reqs: Seq<AddReq>) -> Result<Store, Error>
    decreases reqs.len(),
{
    if reqs.len() == 0 {
        Result::Ok(s)
    } else {
        match spec_add(s, reqs[0].u, reqs[0].ts, reqs[0].vals) {
            Result::Ok(s2) => apply_adds(s2, reqs.drop_first()),
            Result::Err(e) => Result::Err(e),
        }
    }
}

/// Replaying one more request is one more `spec_add`.
pub proof fn lemma_apply_adds_snoc(s: Store, reqs: Seq<AddReq>, q: AddReq)
    ensures
        apply_adds(s, reqs.push(q)) == (match apply_adds(s, reqs) {
            Result::Ok(s2) => spec_add(s2, q.u, q.ts, q.vals),
            Result::Err(e) => Result::<Store, Error>::Err(e),
        }),
    decreases reqs.len(),
{
    if reqs.len() == 0 {
        assert(reqs.push(q).drop_first() =~= Seq::<AddReq>::empty());
        assert(reqs.push(q)[0] == q);
        assert(apply_adds(s, reqs) == Result::<Store, Error>::Ok(s));
        match spec_add(s, q.u, q.ts, q.vals) {
            Result::Ok(s2) => {
                assert(apply_adds(s2, reqs.push(q).drop_first()) == Result::<Store, Error>::Ok(
                    s2,
                ));
            },
            Result::Err(_) => {},
        }
    } else {
        assert(reqs.push(q).drop_first() =~= reqs.drop_first().push(q));
        assert(reqs.push(q)[0] == reqs[0]);
        match spec_add(s, reqs[0].u, reqs[0].ts, reqs[0].vals) {
            Result::Ok(s2) => {
                lemma_apply_adds_snoc(s2, reqs.drop_first(), q);
            },
            Result::Err(_) => {},
        }
    }
}

/// The value strings one event stands for, read back through the store's
/// own lexicons.
pub open spec fn resolved_vals(s: Store, ev: EventModel) -> Seq<Seq<char>> {
    Seq::new(ev.items.len(), |f: int| s.lexicons[f][spec_item_val(ev.items[f]) as int])
}

/// The requests one trail of a finalized store stands for, in event order.
pub open spec fn trail_reqs(s: Store, u: Seq<u8>, evs: Seq<EventModel>) -> Seq<AddReq>
    decreases evs.len(),
{
    if evs.len() == 0 {
        Seq::empty()
    } else {
        trail_reqs(s, u, evs.drop_last()).push(
            AddReq { u, ts: evs.last().ts, vals: resolved_vals(s, evs.last()) },
        )
    }
}

/// The requests of the first `t` trails, in trail order.
pub open spec fn db_reqs_upto(s: Store, t: int) -> Seq<AddReq>
    decreases t,
{
    if t <= 0 {
        Seq::empty()
    } else {
        db_reqs_upto(s, t - 1) + trail_reqs(s, s.uuids[t - 1], s.trails[t - 1])
    }
}

/// Every request a finalized store stands for: its events, trail by trail
/// and in order, with their values read back through its lexicons.
pub open spec fn db_requests(s: Store) -> Seq<AddReq> {
    db_reqs_upto(s, s.trails.len() as int)
}

/// The requests of the trails from `t` on, in trail order.
pub open spec fn db_reqs_from(s: Store, t: int) -> Seq<AddReq>
    decreases s.trails.len() - t,
{
    if t < 0 || t >= s.trails.len() {
        Seq::empty()
    } else {
        trail_reqs(s, s.uuids[t], s.trails[t]) + db_reqs_from(s, t + 1)
    }
}

/// The first `t` trails' requests and the remaining trails' requests
/// together are the whole store's.
pub proof fn lemma_db_reqs_split(s: Store, t: int)
    requires
        0 <= t <= s.trails.len(),
    ensures
        db_reqs_upto(s, t) + db_reqs_from(s, t) == db_requests(s),
    decreases s.trails.len() - t,
{
    if t == s.trails.len() {
        assert(db_reqs_upto(s, t) + db_reqs_from(s, t) =~= db_requests(s));
    } else {
        lemma_db_reqs_split(s, t + 1);
        assert(db_reqs_upto(s, t + 1) == db_reqs_upto(s, t) + trail_reqs(
            s,
            s.uuids[t],
            s.trails[t],
        ));
        assert(db_reqs_upto(s, t) + db_reqs_from(s, t) =~= db_reqs_upto(s, t + 1) + db_reqs_from(
            s,
            t + 1,
        ));
    }
}

/// A trail stands for as many requests as it has events.
pub proof fn lemma_trail_reqs_len(s: Store, u: Seq<u8>, evs: Seq<EventModel>)
    ensures
        trail_reqs(s, u, evs).len() == evs.len(),
    decreases evs.len(),
{
    if evs.len() > 0 {
        lemma_trail_reqs_len(s, u, evs.drop_last());
    }
}

/// The requests of a trail prefix are a prefix of the trail's requests.
pub proof fn lemma_trail_reqs_take(s: Store, u: Seq<u8>, evs: Seq<EventModel>, j: int)
    requires
        0 <= j <= evs.len(),
    ensures
        trail_reqs(s, u, evs.take(j)) == trail_reqs(s, u, evs).take(j),
    decreases evs.len(),
{
    lemma_trail_reqs_len(s, u, evs);
    if j == evs.len() {
        assert(evs.take(j) =~= evs);
        assert(trail_reqs(s, u, evs).take(j) =~= trail_reqs(s, u, evs));
    } else {
        let dl = evs.drop_last();
        lemma_trail_reqs_len(s, u, dl);
        lemma_trail_reqs_take(s, u, dl, j);
        assert(evs.take(j) =~= dl.take(j));
        assert(trail_reqs(s, u, evs).take(j) =~= trail_reqs(s, u, dl).take(j));
    }
}

/// Replaying a concatenation replays the first part, then — if it got
/// through — the second; a rejection in the first part decides the whole.
pub proof fn lemma_apply_adds_app(s: Store, a: Seq<AddReq>, b: Seq<AddReq>)
    ensures
        apply_adds(s, a + b) == (match apply_adds(s, a) {
            Result::Ok(s1) => apply_adds(s1, b),
            Result::Err(e) => Result::<Store, Error>::Err(e),
        }),
    decreases a.len(),
{
    if a.len() == 0 {
        assert(a + b =~= b);
    } else {
        assert((a + b)[0] == a[0]);
        assert((a + b).drop_first() =~= a.drop_first() + b);
        match spec_add(s, a[0].u, a[0].ts, a[0].vals) {
            Result::Ok(s1) => {
                lemma_apply_adds_app(s1, a.drop_first(), b);
            },
            Result::Err(_) => {},
        }
    }
}

/// The store a successful `spec_add` yields is well-formed, provided the
/// store it started from was.
pub proof fn lemma_add_ok_wf(pre: Store, u: Seq<u8>, ts: u64, vals: Seq<Seq<char>>, post: Store)
    requires
        store_wf(pre),
        vals.len() == pre.fields.len(),
        u.len() == 16,
        spec_add(pre, u, ts, vals) == Result::<Store, Error>::Ok(post),
    ensures
        store_wf(post),
{
    lemma_find_pos(pre.uuids, u);
    lemma_intern_errors_all_ok(pre.lexicons, vals, 0);
    let ev = EventModel { ts, items: new_items(pre.lexicons, vals) };
    let lex2 = interned_lexicons(pre.lexicons, vals);
    // the grown lexicons stay well-formed and extend the old ones
    assert forall|f: int| 0 <= f < vals.len() implies {
        &&& all_distinct(#[trigger] lex2[f])
        &&& pre.lexicons[f].len() <= lex2[f].len() <= MAX_LEXICON_SIZE
        &&& (forall|j: int| 0 <= j < pre.lexicons[f].len() ==> lex2[f][j] == pre.lexicons[f][j])
        &&& (forall|v: int|
            0 <= v < lex2[f].len() ==> vstd::utf8::encode_utf8(#[trigger] lex2[f][v]).len()
                <= MAX_VALUE_LEN)
        &&& intern_ord(pre.lexicons[f], vals[f]) < lex2[f].len()
    } by {
        lemma_find_pos(pre.lexicons[f], vals[f]);
        assert(intern_result(pre.lexicons[f], vals[f]) is Ok);
    }
    // the fresh event is well-formed against the grown lexicons
    assert forall|f: int| 0 <= f < ev.items.len() implies #[trigger] spec_item_field(ev.items[f])
        == f + 1 && spec_item_val(ev.items[f]) < lex2[f].len() by {
        assert(intern_ord(pre.lexicons[f], vals[f]) < lex2[f].len());
        assert(lex2[f].len() <= MAX_LEXICON_SIZE);
        crate::item::lemma_item_roundtrip((f + 1) as u64, intern_ord(pre.lexicons[f], vals[f]));
    }
    assert(event_wf(ev, lex2));
    // old events stay well-formed: their ordinals still resolve
    assert forall|t: int, e: int|
        0 <= t < pre.trails.len() && 0 <= e < pre.trails[t].len() implies event_wf(
        #[trigger] pre.trails[t][e],
        lex2,
    ) by {
        let ev0 = pre.trails[t][e];
        assert(event_wf(ev0, pre.lexicons));
        assert forall|f: int| 0 <= f < ev0.items.len() implies #[trigger] spec_item_field(
            ev0.items[f],
        ) == f + 1 && spec_item_val(ev0.items[f]) < lex2[f].len() by {
            assert(spec_item_field(ev0.items[f]) == f + 1);
            assert(spec_item_val(ev0.items[f]) < pre.lexicons[f].len());
            assert(pre.lexicons[f].len() <= lex2[f].len());
        }
    }
    lemma_total_events_lower(pre.trails);
    lemma_total_events_bound(pre.trails);
    match find_pos(pre.uuids, u) {
        Option::Some(t) => {
            lemma_total_events_update(pre.trails, t, ev);
            assert(ts_bounds(post)) by {
                lemma_ts_bounds_update(pre, post, t, ev);
            }
        },
        Option::None => {
            lemma_total_events_push(pre.trails, ev);
            assert(ts_bounds(post)) by {
                lemma_ts_bounds_push(pre, post, ev);
            }
        },
    }
}

impl Constructor {
    /// Freezes the accumulated state — value ordinals keep their stable
    /// insertion order, trail ordinals their first-seen order — and hands
    /// back the byte image of the finalized database, consuming the
    /// builder. Writing the image to storage is the caller's step.
    pub fn finalize(self) -> (r: Result<Vec<u8>, Error>)
        requires
            self.wf(),
        ensures
            match r {
                Result::Ok(bytes) => bytes@ == crate::serial::ser_db(
                    self@.store,
                    crate::model::DB_VERSION,
                ),
                Result::Err(_) => false,
            },
    {
        let bytes = crate::serial::serialize_store(
            &self.fields,
            &self.uuids,
            &self.lexicons,
            &self.trails,
            self.num_events,
            self.min_ts,
            self.max_ts,
            crate::model::DB_VERSION,
        );
        Result::Ok(bytes)
    }

    /// Discards all accumulated state without writing anything.
    pub fn close(self) {
    }

    /// Merges an already-finalized database into this builder, matching
    /// trails by identifier and concatenating event sequences in
    /// existing-then-appended order; fresh identifiers open fresh trails.
    /// A schema mismatch is rejected up front and leaves the builder
    /// untouched.
    pub fn append(&mut self, db: &crate::db::Db) -> (r: Result<(), Error>)
        requires
            old(self).wf(),
            db.wf(),
        ensures
            final(self).wf(),
            final(self)@.path == old(self)@.path,
            final(self)@.store.fields == old(self)@.store.fields,
            if old(self)@.store.fields != db@.store.fields {
                &&& r == Result::<(), Error>::Err(Error::AppendFieldsMismatch)
                &&& final(self)@ == old(self)@
            } else {
                match r {
                    Result::Ok(_) => apply_adds(old(self)@.store, db_requests(db@.store))
                        == Result::<Store, Error>::Ok(final(self)@.store),
                    Result::Err(e) => {
                        &&& e != Error::AppendFieldsMismatch
                        &&& apply_adds(old(self)@.store, db_requests(db@.store))
                            == Result::<Store, Error>::Err(e)
                    },
                }
            },
    {
        let ghost pre = old(self)@.store;
        let ghost dbm = db@.store;
        let db_fields = db.fields_ref();
        let k = self.fields.len();
        if db_fields.len() != k {
            proof {
                assert(pre.fields.len() != dbm.fields.len());
            }
            return Result::Err(Error::AppendFieldsMismatch);
        }
        let mut i: usize = 0;
        while i < k
            invariant
                i <= k == self@.store.fields.len(),
                *self == *old(self),
                old(self).wf(),
                db_fields.deep_view() == db@.store.fields,
                db_fields@.len() == k,
                forall|j: int|
                    0 <= j < i ==> self@.store.fields[j] == #[trigger] db@.store.fields[j],
            decreases k - i,
        {
            let same = self.fields[i].eq(&db_fields[i]);
            proof {
                assert(self.fields.deep_view()[i as int] == self.fields@[i as int]@);
                assert(db_fields.deep_view()[i as int] == db_fields@[i as int]@);
            }
            if !same {
                proof {
                    assert(self@.store.fields[i as int] != db@.store.fields[i as int]);
                }
                return Result::Err(Error::AppendFieldsMismatch);
            }
            i += 1;
        }
        proof {
            assert(pre.fields =~= dbm.fields);
        }
        let db_uuids = db.uuids_ref();
        let db_lexicons = db.lexicons_ref();
        let db_trails = db.trails_ref();
        let n = db_trails.len();
        let ghost mut done: Seq<AddReq> = Seq::empty();
        let mut t: usize = 0;
        while t < n
            invariant
                t <= n == dbm.trails.len(),
                store_wf(dbm),
                dbm.fields.len() == pre.fields.len(),
                db_uuids.deep_view() == dbm.uuids,
                db_lexicons.deep_view() == dbm.lexicons,
                db_trails.deep_view() == dbm.trails,
                db_uuids@.len() == n,
                db_trails@.len() == n,
                pre.fields == dbm.fields,
                dbm == db@.store,
                done == db_reqs_upto(dbm, t as int),
                apply_adds(pre, done) == Result::<Store, Error>::Ok(self@.store),
                self.wf(),
                self@.path == old(self)@.path,
                self@.store.fields == pre.fields,
                pre == old(self)@.store,
            decreases n - t,
        {
            let uuid: Uuid = db_uuids[t];
            proof {
                assert(db_uuids.deep_view()[t as int] == db_uuids@[t as int].deep_view());
                assert(db_uuids@[t as int].deep_view() =~= db_uuids@[t as int]@);
                assert(uuid@ == dbm.uuids[t as int]);
                assert(db_trails.deep_view()[t as int] == db_trails@[t as int].deep_view());
            }
            let ghost trail_model = dbm.trails[t as int];
            let ghost u_model = dbm.uuids[t as int];
            let ne = db_trails[t].len();
            let mut e: usize = 0;
            while e < ne
                invariant
                    e <= ne,
                    t < n == dbm.trails.len(),
                    store_wf(dbm),
                    dbm.fields.len() == pre.fields.len(),
                    db_uuids.deep_view() == dbm.uuids,
                    db_lexicons.deep_view() == dbm.lexicons,
                    db_trails.deep_view() == dbm.trails,
                    db_trails@.len() == n,
                    ne == db_trails@[t as int]@.len(),
                    trail_model == dbm.trails[t as int],
                    u_model == dbm.uuids[t as int],
                    uuid@ == u_model,
                    pre.fields == dbm.fields,
                    dbm == db@.store,
                    done == db_reqs_upto(dbm, t as int) + trail_reqs(
                        dbm,
                        u_model,
                        trail_model.take(e as int),
                    ),
                    apply_adds(pre, done) == Result::<Store, Error>::Ok(self@.store),
                    self.wf(),
                    self@.path == old(self)@.path,
                    self@.store.fields == pre.fields,
                    pre == old(self)@.store,
                decreases ne - e,
            {
                proof {
                    assert(db_trails@[t as int].deep_view()[e as int]
                        == db_trails@[t as int]@[e as int]@);
                    assert(event_wf(trail_model[e as int], dbm.lexicons));
                }
                let ghost ev_model = trail_model[e as int];
                let rec = &db_trails[t][e];
                let ki = rec.items.len();
                let mut vals: Vec<String> = Vec::new();
                let mut f: usize = 0;
                while f < ki
                    invariant
                        f <= ki == ev_model.items.len(),
                        ki == rec.items@.len(),
                        rec@ == ev_model,
                        store_wf(dbm),
                        db_lexicons.deep_view() == dbm.lexicons,
                        event_wf(ev_model, dbm.lexicons),
                        vals@.len() == f,
                        vals.deep_view() == resolved_vals(dbm, ev_model).take(f as int),
                    decreases ki - f,
                {
                    let w = rec.items[f].0;
                    proof {
                        assert(ev_model.items[f as int] == rec.items@[f as int].0);
                        assert(spec_item_field(ev_model.items[f as int]) == f + 1);
                        assert(spec_item_val(w) < dbm.lexicons[f as int].len());
                        assert(db_lexicons.deep_view()[f as int]
                            == db_lexicons@[f as int].deep_view());
                    }
                    let v = crate::item::item_val(w) as usize;
                    let s = db_lexicons[f][v].clone();
                    proof {
                        assert(db_lexicons@[f as int].deep_view()[v as int]
                            == db_lexicons@[f as int]@[v as int]@);
                    }
                    vals.push(s);
                    proof {
                        assert(vals.deep_view() =~= resolved_vals(dbm, ev_model).take(
                            f as int + 1,
                        ));
                    }
                    f += 1;
                }
                proof {
                    assert(vals.deep_view() =~= resolved_vals(dbm, ev_model));
                }
                let mut refs: Vec<&str> = Vec::new();
                let mut f2: usize = 0;
                while f2 < ki
                    invariant
                        f2 <= ki,
                        vals@.len() == ki,
                        refs@.len() == f2,
                        forall|j: int| 0 <= j < f2 ==> (#[trigger] refs@[j])@ == vals@[j]@,
                    decreases ki - f2,
                {
                    refs.push(vals[f2].as_str());
                    f2 += 1;
                }
                proof {
                    assert(forall|g: int|
                        0 <= g < refs@.len() ==> #[trigger] refs.deep_view()[g]
                            == refs@[g].deep_view());
                    assert(forall|g: int|
                        0 <= g < vals@.len() ==> #[trigger] vals.deep_view()[g]
                            == vals@[g].deep_view());
                    assert(refs.deep_view() =~= vals.deep_view());
                    assert(refs.deep_view() =~= resolved_vals(dbm, ev_model));
                    assert(resolved_vals(dbm, ev_model).len() == dbm.fields.len());
                }
                let ts = rec.timestamp;
                let ghost req = AddReq { u: u_model, ts, vals: resolved_vals(dbm, ev_model) };
                let ghost cur_store = self@.store;
                match self.add(&uuid, ts, &refs) {
                    Result::Ok(_) => {
                        proof {
                            lemma_apply_adds_snoc(pre, done, req);
                            done = done.push(req);
                            assert(spec_add(cur_store, req.u, req.ts, req.vals)
                                == Result::<Store, Error>::Ok(self@.store));
                            assert(apply_adds(pre, done) == Result::<Store, Error>::Ok(
                                self@.store,
                            ));
                            assert(trail_model.take(e as int + 1).drop_last() =~= trail_model.take(
                                e as int,
                            ));
                            assert(trail_model.take(e as int + 1).last() == ev_model);
                            assert(done == db_reqs_upto(dbm, t as int) + trail_reqs(
                                dbm,
                                u_model,
                                trail_model.take(e as int + 1),
                            ));
                        }
                    },
                    Result::Err(err) => {
                        proof {
                            lemma_intern_errors_kinds(cur_store.lexicons, req.vals, 0);
                            assert(err != Error::AppendFieldsMismatch);
                            assert(spec_add(cur_store, req.u, req.ts, req.vals)
                                == Result::<Store, Error>::Err(err));
                            lemma_apply_adds_snoc(pre, done, req);
                            let done2 = done.push(req);
                            assert(apply_adds(pre, done2) == Result::<Store, Error>::Err(err));
                            assert(trail_model.take(e as int + 1).drop_last() =~= trail_model.take(
                                e as int,
                            ));
                            assert(trail_model.take(e as int + 1).last() == ev_model);
                            assert(done2 == db_reqs_upto(dbm, t as int) + trail_reqs(
                                dbm,
                                u_model,
                                trail_model.take(e as int + 1),
                            ));
                            lemma_trail_reqs_len(dbm, u_model, trail_model);
                            lemma_trail_reqs_take(dbm, u_model, trail_model, e as int + 1);
                            lemma_db_reqs_split(dbm, t as int);
                            let whole_trail = trail_reqs(dbm, u_model, trail_model);
                            assert(whole_trail =~= whole_trail.take(e as int + 1)
                                + whole_trail.skip(e as int + 1));
                            let rest = whole_trail.skip(e as int + 1) + db_reqs_from(
                                dbm,
                                t as int + 1,
                            );
                            assert(db_reqs_from(dbm, t as int) == whole_trail + db_reqs_from(
                                dbm,
                                t as int + 1,
                            ));
                            assert(db_requests(dbm) =~= done2 + rest);
                            lemma_apply_adds_app(pre, done2, rest);
                            assert(apply_adds(pre, db_requests(dbm))
                                == Result::<Store, Error>::Err(err));
                        }
                        return Result::Err(err);
                    },
                }
                e += 1;
            }
            proof {
                assert(trail_model.take(ne as int) =~= trail_model);
                assert(done == db_reqs_upto(dbm, t as int + 1));
            }
            t += 1;
        }
        proof {
            assert(done == db_requests(dbm));
        }
        Result::Ok(())
    }
}

/// Extending an existing trail by one event keeps the timestamp extrema
/// honest.
proof fn lemma_ts_bounds_update(pre: Store, post: Store, t: int, ev: EventModel)
    requires
        store_wf(pre),
        0 <= t < pre.trails.len(),
        post.trails == pre.trails.update(t, pre.trails[t].push(ev)),
        post.min_ts == if pre.num_events == 0 {
            ev.ts
        } else if ev.ts < pre.min_ts {
            ev.ts
        } else {
            pre.min_ts
        },
        post.max_ts == if pre.num_events == 0 {
            ev.ts
        } else if ev.ts > pre.max_ts {
            ev.ts
        } else {
            pre.max_ts
        },
    ensures
        ts_bounds(post),
{
    lemma_total_events_lower(pre.trails);
    assert(pre.num_events > 0);
    let nt = pre.trails[t].len() as int;
    assert(post.trails[t][nt] == ev);
    // every event keeps its place, so the old witnesses survive
    assert(forall|t0: int, e0: int|
        0 <= t0 < pre.trails.len() && 0 <= e0 < pre.trails[t0].len()
            ==> #[trigger] post.trails[t0][e0] == pre.trails[t0][e0]);
    if ev.ts < pre.min_ts {
        assert(post.trails[t][nt].ts == post.min_ts);
    } else {
        let (t0, e0) = choose|t0: int, e0: int|
            0 <= t0 < pre.trails.len() && 0 <= e0 < pre.trails[t0].len() && (
            #[trigger] pre.trails[t0][e0]).ts == pre.min_ts;
        assert(post.trails[t0][e0].ts == post.min_ts);
    }
    if ev.ts > pre.max_ts {
        assert(post.trails[t][nt].ts == post.max_ts);
    } else {
        let (t0, e0) = choose|t0: int, e0: int|
            0 <= t0 < pre.trails.len() && 0 <= e0 < pre.trails[t0].len() && (
            #[trigger] pre.trails[t0][e0]).ts == pre.max_ts;
        assert(post.trails[t0][e0].ts == post.max_ts);
    }
}

/// Opening a fresh one-event trail keeps the timestamp extrema honest.
proof fn lemma_ts_bounds_push(pre: Store, post: Store, ev: EventModel)
    requires
        store_wf(pre),
        post.trails == pre.trails.push(seq![ev]),
        post.min_ts == if pre.num_events == 0 {
            ev.ts
        } else if ev.ts < pre.min_ts {
            ev.ts
        } else {
            pre.min_ts
        },
        post.max_ts == if pre.num_events == 0 {
            ev.ts
        } else if ev.ts > pre.max_ts {
            ev.ts
        } else {
            pre.max_ts
        },
    ensures
        ts_bounds(post),
{
    lemma_total_events_lower(pre.trails);
    let nt = pre.trails.len() as int;
    assert(post.trails[nt][0] == ev);
    assert(forall|t0: int, e0: int|
        0 <= t0 < pre.trails.len() && 0 <= e0 < pre.trails[t0].len()
            ==> #[trigger] post.trails[t0][e0] == pre.trails[t0][e0]);
    if pre.num_events == 0 {
        assert(pre.trails.len() == 0);
        assert(post.trails[nt][0].ts == post.min_ts);
        assert(post.trails[nt][0].ts == post.max_ts);
    } else {
        assert(pre.trails.len() > 0);
        if ev.ts < pre.min_ts {
            assert(post.trails[nt][0].ts == post.min_ts);
        } else {
            let (t0, e0) = choose|t0: int, e0: int|
                0 <= t0 < pre.trails.len() && 0 <= e0 < pre.trails[t0].len() && (
                #[trigger] pre.trails[t0][e0]).ts == pre.min_ts;
            assert(post.trails[t0][e0].ts == post.min_ts);
        }
        if ev.ts > pre.max_ts {
            assert(post.trails[nt][0].ts == post.max_ts);
        } else {
            let (t0, e0) = choose|t0: int, e0: int|
                0 <= t0 < pre.trails.len() && 0 <= e0 < pre.trails[t0].len() && (
                #[trigger] pre.trails[t0][e0]).ts == pre.max_ts;
            assert(post.trails[t0][e0].ts == post.max_ts);
        }
    }
}

} // verus!
