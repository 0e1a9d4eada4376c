//! Numbering of new stressors.

use vstd::prelude::*;
use vstd::string::StrSliceExecFns;
use crate::model::{opt_text, Stressor};
use crate::text::{decimal, lemma_parse_decimal, parse_u32, push_char, push_decimal, u32_parse};

verus! {

/// The number an id of the form `S<number>` carries, read as
/// `str::parse::<u32>` reads the part after the `S`.
pub open spec fn id_number(id: Option<Seq<char>>) -> Option<u32> {
    match id {
        Some(t) => if t.len() > 0 && t[0] == 'S' {
            u32_parse(t.drop_first())
        } else {
            None
        },
        None => None,
    }
}

/// The highest number the stressors' ids carry, or 0 where none carries one.
pub open spec fn max_id_number(stressors: Seq<Stressor>) -> nat
    decreases stressors.len(),
{
    if stressors.len() == 0 {
        0
    } else {
        let before = max_id_number(stressors.drop_last());
        match id_number(opt_text(stressors.last().id)) {
            Some(v) => if v > before {
                v as nat
            } else {
                before
            },
            None => before,
        }
    }
}

/// The id for a new stressor: `S` and one more than the highest number that
/// the ids of the form `S<number>` carry.
pub open spec fn next_id(stressors: Seq<Stressor>) -> Seq<char> {
    seq!['S'] + decimal(max_id_number(stressors) + 1)
}

fn number_of(id: &Option<String>) -> (r: Option<u32>)
    ensures
        r == id_number(opt_text(*id)),
{
    match id {
        Some(t) => {
            let s = t.as_str();
            let n = s.unicode_len();
            if n > 0 && s.get_char(0) == 'S' {
                let rest = s.substring_char(1, n);
                assert(rest@ =~= t@.drop_first());
                parse_u32(rest)
            } else {
                None
            }
        },
        None => None,
    }
}

/// The id for a new stressor, one past the highest `S<number>` id.
pub fn next_stressor_id(stressors: &[Stressor]) -> (id: String)
    requires
        max_id_number(stressors@) < u32::MAX,
    ensures
        id@ == next_id(stressors@),
{
    let mut max: u32 = 0;
    let mut k: usize = 0;
    while k < stressors.len()
        invariant
            k <= stressors@.len(),
            max == max_id_number(stressors@.take(k as int)),
        decreases stressors@.len() - k,
    {
        proof {
            assert(stressors@.take(k + 1).drop_last() =~= stressors@.take(k as int));
        }
        match number_of(&stressors[k].id) {
            Some(v) => {
                if v > max {
                    max = v;
                }
            },
            None => {},
        }
        k = k + 1;
    }
    assert(stressors@.take(k as int) =~= stressors@);
    let mut id = String::new();
    push_char(&mut id, 'S');
    push_decimal(&mut id, (max + 1) as usize);
    assert(id@ =~= next_id(stressors@));
    id
}

proof fn lemma_max_id_number_bounds(stressors: Seq<Stressor>, k: int)
    requires
        0 <= k < stressors.len(),
    ensures
        id_number(opt_text(stressors[k].id)) matches Some(v) ==> v <= max_id_number(stressors),
    decreases stressors.len(),
{
    if k < stressors.len() - 1 {
        lemma_max_id_number_bounds(stressors.drop_last(), k);
        assert(stressors.drop_last()[k] == stressors[k]);
    }
}

/// A new stressor id is held by none of the stressors it was made for.
pub proof fn lemma_next_id_is_fresh(stressors: Seq<Stressor>)
    requires
        max_id_number(stressors) < u32::MAX,
    ensures
        forall|k: int| 0 <= k < stressors.len() ==> opt_text(#[trigger] stressors[k].id) != Some(next_id(stressors)),
{
    let next = next_id(stressors);
    let n = max_id_number(stressors) + 1;
    lemma_parse_decimal(n);
    assert(next.drop_first() =~= decimal(n));
    assert(id_number(Some(next)) == Some(n as u32));
    assert forall|k: int| 0 <= k < stressors.len() implies opt_text(#[trigger] stressors[k].id) != Some(next) by {
        lemma_max_id_number_bounds(stressors, k);
    }
}

} // verus!
