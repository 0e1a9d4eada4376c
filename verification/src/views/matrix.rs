//! Layout of the printed incidence matrix.

use vstd::prelude::*;
use vstd::string::StrSliceExecFns;
use crate::model::{opt_text, Stressor};

verus! {

/// The length in characters of a stressor's id (0 where it has none).
pub open spec fn id_width(s: Stressor) -> nat {
    match opt_text(s.id) {
        Some(id) => id.len(),
        None => 0,
    }
}

/// The width of the label column: that of the longest stressor id, and at
/// least that of the word `stressor`.
pub open spec fn label_column_width(stressors: Seq<Stressor>) -> nat
    decreases stressors.len(),
{
    if stressors.len() == 0 {
        8
    } else {
        let before = label_column_width(stressors.drop_last());
        let w = id_width(stressors.last());
        if w > before {
            w
        } else {
            before
        }
    }
}

/// The left label column has to fit whatever's longest: a stressor id, or
/// the word "stressor" in the header. Returns that width in characters.
pub fn label_width(stressors: &[Stressor]) -> (w: usize)
    ensures
        w == label_column_width(stressors@),
{
    let mut w: usize = 8;
    let mut k: usize = 0;
    while k < stressors.len()
        invariant
            k <= stressors@.len(),
            w == label_column_width(stressors@.take(k as int)),
        decreases stressors@.len() - k,
    {
        proof {
            assert(stressors@.take(k + 1).drop_last() =~= stressors@.take(k as int));
        }
        let len: usize = match &stressors[k].id {
            Some(id) => id.as_str().unicode_len(),
            None => 0,
        };
        if len > w {
            w = len;
        }
        k = k + 1;
    }
    assert(stressors@.take(k as int) =~= stressors@);
    w
}

/// The label column is as wide as the longest stressor id, counted in
/// characters, and never narrower than the 8 characters of `stressor`:
/// every id fits, and the width is 8 or the length of some id.
pub proof fn lemma_label_column_fits_longest_id(stressors: Seq<Stressor>)
    ensures
        label_column_width(stressors) >= 8,
        forall|k: int|
            0 <= k < stressors.len() && (#[trigger] stressors[k]).id is Some ==> stressors[k].id->0@.len()
                <= label_column_width(stressors),
        label_column_width(stressors) == 8 || exists|k: int|
            0 <= k < stressors.len() && (#[trigger] stressors[k]).id is Some && stressors[k].id->0@.len()
                == label_column_width(stressors),
    decreases stressors.len(),
{
    if stressors.len() > 0 {
        let init = stressors.drop_last();
        lemma_label_column_fits_longest_id(init);
        let last = stressors[stressors.len() - 1];
        assert(stressors.last() == last);
        assert forall|k: int| 0 <= k < init.len() implies #[trigger] init[k] == stressors[k] by {}
        if last.id is Some {
            assert(opt_text(last.id) == Some(last.id->0@));
        }
        assert forall|k: int|
            0 <= k < stressors.len() && (#[trigger] stressors[k]).id is Some implies stressors[k].id->0@.len()
                <= label_column_width(stressors) by {
            if k < init.len() {
                assert(init[k] == stressors[k]);
            } else {
                assert(id_width(last) == last.id->0@.len());
            }
        }
        if label_column_width(stressors) != 8 && label_column_width(stressors) == label_column_width(init) {
            let k = choose|k: int|
                0 <= k < init.len() && (#[trigger] init[k]).id is Some && init[k].id->0@.len()
                    == label_column_width(init);
            assert(stressors[k] == init[k]);
        }
    }
}

} // verus!
