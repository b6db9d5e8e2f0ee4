//! The lexicon: one value table per user field. Interning dedupes values by
//! byte equality and never reassigns an ordinal once given; resolving maps
//! an ordinal back to exactly the value that earned it.

use vstd::prelude::*;
use crate::errors::Error;
use crate::model::{all_distinct, find_pos, lemma_find_pos, MAX_LEXICON_SIZE, MAX_VALUE_LEN};

verus! {

/// What interning `v` into `table` yields: the (possibly grown) table and
/// the value's stable ordinal, or the capacity error that rejects it.
pub open spec fn intern_result(table: Seq<Seq<char>>, v: Seq<char>) -> Result<
    (Seq<Seq<char>>, u64),
    Error,
> {
    match find_pos(table, v) {
        Option::Some(i) => Result::Ok((table, i as u64)),
        Option::None => {
            if vstd::utf8::encode_utf8(v).len() > MAX_VALUE_LEN {
                Result::Err(Error::ValueTooLong)
            } else if table.len() >= MAX_LEXICON_SIZE {
                Result::Err(Error::LexiconTooLarge)
            } else {
                Result::Ok((table.push(v), table.len() as u64))
            }
        },
    }
}

/// First ordinal holding `v`, if the table holds it at all.
pub fn find_value(table: &Vec<String>, v: &String) -> (r: Option<u64>)
    ensures
        match r {
            Option::Some(i) => find_pos(table.deep_view(), v@) == Option::Some(i as int),
            Option::None => find_pos(table.deep_view(), v@) == Option::<int>::None,
        },
{
    proof {
        lemma_find_pos(table.deep_view(), v@);
    }
    let n = table.len();
    for i in 0..n
        invariant
            n == table.len(),
            forall|j: int| 0 <= j < i ==> table.deep_view()[j] != v@,
    {
        let hit = table[i].eq(v);
        proof {
            assert(table.deep_view()[i as int] == table@[i as int]@);
        }
        if hit {
            proof {
                let dv = table.deep_view();
                lemma_find_pos(dv, v@);
                match find_pos(dv, v@) {
                    Option::Some(ii) => {
                        assert(dv[ii] == v@);
                        if ii < i as int {
                            assert(dv[ii] != v@);
                        }
                        if ii > i as int {
                            assert(dv[i as int] != v@);
                        }
                        assert(ii == i as int);
                    },
                    Option::None => {
                        assert(dv[i as int] != v@);
                    },
                }
            }
            return Option::Some(i as u64);
        }
    }
    Option::None
}

/// Interns `v`: hands back its existing ordinal, or appends it and hands
/// back the fresh one. A rejected value leaves the table untouched.
pub fn intern(table: &mut Vec<String>, v: &String) -> (r: Result<u64, Error>)
    requires
        all_distinct(old(table).deep_view()),
        old(table)@.len() <= MAX_LEXICON_SIZE,
    ensures
        all_distinct(final(table).deep_view()),
        final(table)@.len() <= MAX_LEXICON_SIZE,
        old(table)@.len() <= final(table)@.len(),
        forall|j: int|
            0 <= j < old(table)@.len() ==> final(table).deep_view()[j] == old(
                table,
            ).deep_view()[j],
        match r {
            Result::Ok(id) => {
                &&& intern_result(old(table).deep_view(), v@) == Result::<_, Error>::Ok(
                    (final(table).deep_view(), id),
                )
                &&& id < final(table)@.len()
                &&& final(table).deep_view()[id as int] == v@
            },
            Result::Err(e) => {
                &&& *final(table) == *old(table)
                &&& intern_result(old(table).deep_view(), v@) == Result::<(Seq<Seq<char>>, u64), Error>::Err(e)
            },
        },
{
    proof {
        lemma_find_pos(table.deep_view(), v@);
    }
    match find_value(table, v) {
        Option::Some(id) => Result::Ok(id),
        Option::None => {
            if v.as_str().as_bytes().len() > MAX_VALUE_LEN {
                Result::Err(Error::ValueTooLong)
            } else if table.len() >= MAX_LEXICON_SIZE {
                Result::Err(Error::LexiconTooLarge)
            } else {
                let id = table.len() as u64;
                table.push(v.clone());
                proof {
                    assert(table.deep_view() =~= old(table).deep_view().push(v@));
                    assert(intern_result(old(table).deep_view(), v@) == Result::<
                        (Seq<Seq<char>>, u64),
                        Error,
                    >::Ok((table.deep_view(), id)));
                }
                Result::Ok(id)
            }
        },
    }
}

} // verus!
