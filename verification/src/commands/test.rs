//! Empirical testing of an architecture against fresh stressors: which
//! residues cover them, and how often each residue is cited.

use vstd::prelude::*;
use vstd::string::StringExecFns;
use crate::analysis::matrix::{is_ranking, rank_by_count};
use crate::model::{ascending, opt_text, IdSet, Stressor, TestStressor};
use crate::text::{decimal, push_decimal};

verus! {

/// How a test row is named: by its id, else by its name, else as `Row <i>`.
pub open spec fn row_label(t: TestStressor, i: int) -> Seq<char> {
    match opt_text(t.id) {
        Some(id) => id,
        None => match opt_text(t.name) {
            Some(n) => n,
            None => "Row "@ + decimal(i as nat),
        },
    }
}

/// Whether a test row needs no technical change yet no residue covers it.
pub open spec fn is_uncovered(t: TestStressor) -> bool {
    t.technical_change is None && t.covered_by@.len() == 0
}

/// The labels of the uncovered rows among the first `upto`, in row order.
pub open spec fn uncovered_rows(tests: Seq<TestStressor>, upto: int) -> Seq<Seq<char>>
    decreases upto,
{
    if upto <= 0 {
        Seq::empty()
    } else {
        let before = uncovered_rows(tests, upto - 1);
        if is_uncovered(tests[upto - 1]) {
            before.push(row_label(tests[upto - 1], upto - 1))
        } else {
            before
        }
    }
}

/// Whether some stressor of the list holds the id.
pub open spec fn holds_id(stressors: Seq<Stressor>, id: Seq<char>) -> bool {
    exists|k: int| 0 <= k < stressors.len() && opt_text((#[trigger] stressors[k]).id) == Some(id)
}

/// The residues among `ids` that no stressor of the list holds, in order.
pub open spec fn unknown_among(ids: Seq<Seq<char>>, stressors: Seq<Stressor>) -> Seq<Seq<char>>
    decreases ids.len(),
{
    if ids.len() == 0 {
        Seq::empty()
    } else {
        let before = unknown_among(ids.drop_last(), stressors);
        if holds_id(stressors, ids.last()) {
            before
        } else {
            before.push(ids.last())
        }
    }
}

/// The residues cited by the first `upto` test rows that no stressor of the
/// list holds, row by row, in the order each row cites them.
pub open spec fn unknown_residues(tests: Seq<TestStressor>, stressors: Seq<Stressor>, upto: int) -> Seq<
    Seq<char>,
>
    decreases upto,
{
    if upto <= 0 {
        Seq::empty()
    } else {
        unknown_residues(tests, stressors, upto - 1) + unknown_among(tests[upto - 1].covered_by@, stressors)
    }
}

/// The number of test rows among the first `upto` that need no naive change.
pub open spec fn naive_survivals(tests: Seq<TestStressor>, upto: int) -> nat
    decreases upto,
{
    if upto <= 0 {
        0
    } else {
        naive_survivals(tests, upto - 1) + if tests[upto - 1].naive_technical_change is None {
            1nat
        } else {
            0nat
        }
    }
}

/// The number of test rows among the first `upto` that need no technical change.
pub open spec fn residual_survivals(tests: Seq<TestStressor>, upto: int) -> nat
    decreases upto,
{
    if upto <= 0 {
        0
    } else {
        residual_survivals(tests, upto - 1) + if tests[upto - 1].technical_change is None {
            1nat
        } else {
            0nat
        }
    }
}

/// The number of test rows among the first `upto` that need no technical
/// change and that two or more residues cover.
pub open spec fn combined_survivals(tests: Seq<TestStressor>, upto: int) -> nat
    decreases upto,
{
    if upto <= 0 {
        0
    } else {
        combined_survivals(tests, upto - 1) + if tests[upto - 1].technical_change is None
            && tests[upto - 1].covered_by@.len() >= 2 {
            1nat
        } else {
            0nat
        }
    }
}

/// The residues that some test row cites.
pub open spec fn cited_residues(tests: Seq<TestStressor>) -> Set<Seq<char>> {
    Set::new(|x: Seq<char>| exists|i: int| 0 <= i < tests.len() && (#[trigger] tests[i]).covered_by@.contains(x))
}

/// The number of test rows among the first `upto` that cite the residue.
pub open spec fn citing_rows(tests: Seq<TestStressor>, x: Seq<char>, upto: int) -> nat
    decreases upto,
{
    if upto <= 0 {
        0
    } else {
        citing_rows(tests, x, upto - 1) + if tests[upto - 1].covered_by@.contains(x) {
            1nat
        } else {
            0nat
        }
    }
}

/// The ids of the stressors among the first `upto` that no test row cites,
/// in list order.
pub open spec fn orphan_residues(tests: Seq<TestStressor>, stressors: Seq<Stressor>, upto: int) -> Seq<
    Seq<char>,
>
    decreases upto,
{
    if upto <= 0 {
        Seq::empty()
    } else {
        let before = orphan_residues(tests, stressors, upto - 1);
        match opt_text(stressors[upto - 1].id) {
            Some(id) => if cited_residues(tests).contains(id) {
                before
            } else {
                before.push(id)
            },
            None => before,
        }
    }
}

/// What an empirical test shows.
pub struct TestEvaluation {
    /// How each test row that needs no technical change but is covered by no
    /// residue is named, in row order.
    pub uncovered: Vec<String>,
    /// The residues cited that no stressor of the list holds, in the order cited.
    pub unknown_residues: Vec<String>,
    /// The number of test rows.
    pub rows: usize,
    /// The number of rows the naive architecture survives (no naive change).
    pub naive_survivals: usize,
    /// The number of rows the residual architecture survives (no technical change).
    pub residual_survivals: usize,
    /// Each cited residue, in ascending order, with the number of rows citing
    /// it: the entries of a map from residue to count, kept as a sorted list
    /// for the same reason as `IdSet`.
    pub citations: Vec<(String, u32)>,
    /// The citations ranked by count, the most cited first; equal counts in
    /// ascending order of residue.
    pub leverage: Vec<(String, u32)>,
    /// The number of rows the residual architecture survives (no technical
    /// change) that two or more residues cover.
    pub combined: usize,
    /// The ids of the stressors that no test row cites, in list order.
    pub orphans: Vec<String>,
}

/// The texts of a list of strings.
pub open spec fn texts(v: Seq<String>) -> Seq<Seq<char>> {
    v.map_values(|s: String| s@)
}

/// The residues and counts of a list of citations.
pub open spec fn citation_views(v: Seq<(String, u32)>) -> Seq<(Seq<char>, int)> {
    v.map_values(|c: (String, u32)| (c.0@, c.1 as int))
}

/// The counts of a list of citations.
pub open spec fn citation_counts(v: Seq<(String, u32)>) -> Seq<int> {
    v.map_values(|c: (String, u32)| c.1 as int)
}

/// Whether every position is selected.
pub open spec fn all_selected(n: nat) -> Seq<bool> {
    Seq::new(n, |i: int| true)
}

fn label_of(t: &TestStressor, i: usize) -> (r: String)
    ensures
        r@ == row_label(*t, i as int),
{
    match &t.id {
        Some(id) => id.clone(),
        None => match &t.name {
            Some(n) => n.clone(),
            None => {
                let mut r = String::from_str("Row ");
                push_decimal(&mut r, i);
                r
            },
        },
    }
}

fn holds(stressors: &[Stressor], id: &String) -> (r: bool)
    ensures
        r == holds_id(stressors@, id@),
{
    let mut k: usize = 0;
    while k < stressors.len()
        invariant
            k <= stressors@.len(),
            forall|q: int| 0 <= q < k ==> opt_text((#[trigger] stressors@[q]).id) != Some(id@),
        decreases stressors@.len() - k,
    {
        match &stressors[k].id {
            Some(x) => {
                if *x == *id {
                    assert(opt_text(stressors@[k as int].id) == Some(id@));
                    return true;
                }
            },
            None => {},
        }
        k = k + 1;
    }
    false
}

fn count_citing(tests: &[TestStressor], x: &String) -> (n: usize)
    ensures
        n == citing_rows(tests@, x@, tests@.len() as int),
{
    let mut n: usize = 0;
    let mut i: usize = 0;
    while i < tests.len()
        invariant
            i <= tests@.len(),
            n <= i,
            n == citing_rows(tests@, x@, i as int),
        decreases tests@.len() - i,
    {
        if tests[i].covered_by.contains(x) {
            n = n + 1;
        }
        i = i + 1;
    }
    n
}

/// Evaluates an empirical test: the rows left uncovered, the residues cited
/// that the stressor list lacks, the survival counts, the surviving rows that
/// several residues cover together, how often each residue is cited and
/// which stressors no test row cites.
pub fn evaluate_test(tests: &[TestStressor], stressors: &[Stressor]) -> (e: TestEvaluation)
    requires
        forall|x: Seq<char>| #[trigger] citing_rows(tests@, x, tests@.len() as int) <= i32::MAX,
    ensures
        texts(e.uncovered@) == uncovered_rows(tests@, tests@.len() as int),
        texts(e.unknown_residues@) == unknown_residues(tests@, stressors@, tests@.len() as int),
        e.rows == tests@.len(),
        e.naive_survivals == naive_survivals(tests@, tests@.len() as int),
        e.residual_survivals == residual_survivals(tests@, tests@.len() as int),
        ascending(citation_views(e.citations@).map_values(|c: (Seq<char>, int)| c.0)),
        citation_views(e.citations@).map_values(|c: (Seq<char>, int)| c.0).to_set() == cited_residues(tests@),
        forall|k: int|
            0 <= k < e.citations@.len() ==> (#[trigger] e.citations@[k]).1 == citing_rows(
                tests@,
                e.citations@[k].0@,
                tests@.len() as int,
            ),
        exists|order: Seq<usize>|
            {
                &&& #[trigger] is_ranking(order, citation_counts(e.citations@), all_selected(e.citations@.len()))
                &&& e.leverage@.len() == order.len()
                &&& forall|k: int|
                    0 <= k < order.len() ==> #[trigger] citation_views(e.leverage@)[k] == citation_views(
                        e.citations@,
                    )[order[k] as int]
            },
        e.combined == combined_survivals(tests@, tests@.len() as int),
        texts(e.orphans@) == orphan_residues(tests@, stressors@, stressors@.len() as int),
{
    let n = tests.len();
    // Rows left uncovered, residues unknown to the list, survivals.
    let mut uncovered: Vec<String> = Vec::new();
    let mut unknown: Vec<String> = Vec::new();
    let mut naive: usize = 0;
    let mut residual: usize = 0;
    let mut combined: usize = 0;
    let mut cited = IdSet::new();
    let mut i: usize = 0;
    proof {
        assert(cited@.to_set() =~= Set::<Seq<char>>::empty());
    }
    while i < n
        invariant
            n == tests@.len(),
            i <= n,
            texts(uncovered@) == uncovered_rows(tests@, i as int),
            texts(unknown@) == unknown_residues(tests@, stressors@, i as int),
            naive <= i,
            residual <= i,
            naive == naive_survivals(tests@, i as int),
            residual == residual_survivals(tests@, i as int),
            combined <= i,
            combined == combined_survivals(tests@, i as int),
            cited@.to_set() == Set::new(
                |x: Seq<char>| exists|q: int| 0 <= q < i && (#[trigger] tests@[q]).covered_by@.contains(x),
            ),
        decreases n - i,
    {
        let t = &tests[i];
        if t.technical_change.is_none() && t.covered_by.is_empty() {
            let ghost before = uncovered@;
            let label = label_of(t, i);
            uncovered.push(label);
            assert(texts(uncovered@) =~= texts(before).push(label@));
        }
        let ghost unknown_before = texts(unknown@);
        let ghost cited_before = cited@.to_set();
        let m = t.covered_by.len();
        let mut k: usize = 0;
        proof {
            assert(t.covered_by@.take(0) =~= Seq::<Seq<char>>::empty());
            assert(unknown_before + unknown_among(t.covered_by@.take(0), stressors@) =~= unknown_before);
        }
        while k < m
            invariant
                m == t.covered_by@.len(),
                k <= m,
                texts(unknown@) == unknown_before + unknown_among(t.covered_by@.take(k as int), stressors@),
                cited@.to_set() == cited_before.union(t.covered_by@.take(k as int).to_set()),
            decreases m - k,
        {
            let residue = t.covered_by.get(k);
            proof {
                assert(t.covered_by@.take(k + 1).drop_last() =~= t.covered_by@.take(k as int));
                assert(t.covered_by@.take(k + 1).last() == residue@);
                assert(t.covered_by@.take(k + 1) =~= t.covered_by@.take(k as int) + seq![residue@]);
                Seq::lemma_to_set_insert_commutes(t.covered_by@.take(k as int), residue@);
            }
            if !holds(stressors, residue) {
                let ghost before = unknown@;
                let r = residue.clone();
                unknown.push(r);
                assert(texts(unknown@) =~= texts(before).push(r@));
            }
            cited.insert(residue.clone());
            proof {
                assert(cited@.to_set() =~= cited_before.union(t.covered_by@.take(k + 1).to_set()));
            }
            k = k + 1;
        }
        proof {
            assert(t.covered_by@.take(m as int) =~= t.covered_by@);
            assert(cited@.to_set() =~= Set::new(
                |x: Seq<char>| exists|q: int| 0 <= q < i + 1 && (#[trigger] tests@[q]).covered_by@.contains(x),
            )) by {
                assert forall|x: Seq<char>| cited@.to_set().contains(x) <==> exists|q: int|
                    0 <= q < i + 1 && (#[trigger] tests@[q]).covered_by@.contains(x) by {
                    if t.covered_by@.to_set().contains(x) {
                        assert(tests@[i as int].covered_by@.contains(x));
                    }
                }
            }
        }
        if t.naive_technical_change.is_none() {
            naive = naive + 1;
        }
        if t.technical_change.is_none() {
            residual = residual + 1;
        }
        if t.technical_change.is_none() && t.covered_by.len() >= 2 {
            combined = combined + 1;
        }
        i = i + 1;
    }
    assert(cited@.to_set() =~= cited_residues(tests@));
    // How often each residue is cited.
    let mut citations: Vec<(String, u32)> = Vec::new();
    let mut counts: Vec<u32> = Vec::new();
    let c = cited.len();
    let mut k: usize = 0;
    while k < c
        invariant
            c == cited@.len(),
            k <= c,
            forall|x: Seq<char>| #[trigger] citing_rows(tests@, x, tests@.len() as int) <= i32::MAX,
            citations@.len() == k,
            counts@.len() == k,
            forall|q: int| 0 <= q < k ==> (#[trigger] citations@[q]).0@ == cited@[q],
            forall|q: int|
                0 <= q < k ==> (#[trigger] citations@[q]).1 == citing_rows(tests@, cited@[q], tests@.len() as int),
            forall|q: int| 0 <= q < k ==> #[trigger] counts@[q] == citations@[q].1,
        decreases c - k,
    {
        let residue = cited.get(k);
        let count = count_citing(tests, residue);
        assert(count <= i32::MAX) by {
            assert(citing_rows(tests@, residue@, tests@.len() as int) <= i32::MAX);
        }
        citations.push((residue.clone(), count as u32));
        counts.push(count as u32);
        k = k + 1;
    }
    proof {
        use_type_invariant(&cited);
    }
    let ghost keys = citation_views(citations@).map_values(|c: (Seq<char>, int)| c.0);
    assert(keys =~= cited@);
    // The leverage ranking: the most cited first, ties by residue.
    let mut keep: Vec<bool> = Vec::new();
    let mut q: usize = 0;
    while q < c
        invariant
            q <= c,
            keep@.len() == q,
            forall|z: int| 0 <= z < q ==> keep@[z],
        decreases c - q,
    {
        keep.push(true);
        q = q + 1;
    }
    assert(keep@ =~= all_selected(citations@.len()));
    let order = rank_by_count(&counts, &keep);
    assert(counts@.map_values(|x: u32| x as int) =~= citation_counts(citations@));
    let mut leverage: Vec<(String, u32)> = Vec::new();
    let mut z: usize = 0;
    while z < order.len()
        invariant
            is_ranking(order@, citation_counts(citations@), keep@),
            keep@.len() == citations@.len(),
            z <= order@.len(),
            leverage@.len() == z,
            forall|y: int| 0 <= y < z ==> #[trigger] citation_views(leverage@)[y] == citation_views(citations@)[order@[y] as int],
        decreases order@.len() - z,
    {
        let p = order[z];
        let ghost before = leverage@;
        let entry = (citations[p].0.clone(), citations[p].1);
        leverage.push(entry);
        proof {
            assert(citation_views(leverage@) =~= citation_views(before).push(citation_views(citations@)[p as int]));
        }
        z = z + 1;
    }
    // Stressors no test row cites.
    let mut orphans: Vec<String> = Vec::new();
    let mut s: usize = 0;
    while s < stressors.len()
        invariant
            s <= stressors@.len(),
            cited@.to_set() == cited_residues(tests@),
            texts(orphans@) == orphan_residues(tests@, stressors@, s as int),
        decreases stressors@.len() - s,
    {
        match &stressors[s].id {
            Some(id) => {
                if !cited.contains(id) {
                    let ghost before = orphans@;
                    let o = id.clone();
                    orphans.push(o);
                    assert(texts(orphans@) =~= texts(before).push(o@));
                } else {
                    assert(cited_residues(tests@).contains(id@));
                }
            },
            None => {},
        }
        s = s + 1;
    }
    TestEvaluation {
        uncovered,
        unknown_residues: unknown,
        rows: n,
        naive_survivals: naive,
        residual_survivals: residual,
        citations,
        leverage,
        combined,
        orphans,
    }
}

/// Every test row that cites a residue adds one to its count, whatever the
/// row's technical change: the count is the number of rows whose
/// `covered_by` holds the residue.
pub proof fn lemma_citing_rows_counts_every_citing_row(tests: Seq<TestStressor>, x: Seq<char>, n: int)
    requires
        0 <= n <= tests.len(),
    ensures
        citing_rows(tests, x, n) == tests.take(n).filter(|t: TestStressor| t.covered_by@.contains(x)).len(),
    decreases n,
{
    reveal(Seq::filter);
    if n > 0 {
        lemma_citing_rows_counts_every_citing_row(tests, x, n - 1);
        assert(tests.take(n).drop_last() =~= tests.take(n - 1));
        assert(tests.take(n).last() == tests[n - 1]);
    }
}

/// The naive survivals are the rows with no naive technical change.
pub proof fn lemma_naive_survivals_are_rows_without_naive_change(tests: Seq<TestStressor>, n: int)
    requires
        0 <= n <= tests.len(),
    ensures
        naive_survivals(tests, n) == tests.take(n).filter(|t: TestStressor| t.naive_technical_change is None).len(),
    decreases n,
{
    reveal(Seq::filter);
    if n > 0 {
        lemma_naive_survivals_are_rows_without_naive_change(tests, n - 1);
        assert(tests.take(n).drop_last() =~= tests.take(n - 1));
        assert(tests.take(n).last() == tests[n - 1]);
    }
}

/// The residual survivals are the rows with no technical change.
pub proof fn lemma_residual_survivals_are_rows_without_change(tests: Seq<TestStressor>, n: int)
    requires
        0 <= n <= tests.len(),
    ensures
        residual_survivals(tests, n) == tests.take(n).filter(|t: TestStressor| t.technical_change is None).len(),
    decreases n,
{
    reveal(Seq::filter);
    if n > 0 {
        lemma_residual_survivals_are_rows_without_change(tests, n - 1);
        assert(tests.take(n).drop_last() =~= tests.take(n - 1));
        assert(tests.take(n).last() == tests[n - 1]);
    }
}

/// The combined survivals are the rows with no technical change that cite
/// two or more residues; they are never more than the residual survivals.
pub proof fn lemma_combined_survivals_are_multiply_covered_survivals(tests: Seq<TestStressor>, n: int)
    requires
        0 <= n <= tests.len(),
    ensures
        combined_survivals(tests, n) == tests.take(n).filter(
            |t: TestStressor| t.technical_change is None && t.covered_by@.len() >= 2,
        ).len(),
        combined_survivals(tests, n) <= residual_survivals(tests, n),
    decreases n,
{
    reveal(Seq::filter);
    if n > 0 {
        lemma_combined_survivals_are_multiply_covered_survivals(tests, n - 1);
        assert(tests.take(n).drop_last() =~= tests.take(n - 1));
        assert(tests.take(n).last() == tests[n - 1]);
    }
}

/// The uncovered rows are, in row order, exactly the rows that need no
/// technical change and that no residue covers, each named by its label.
pub proof fn lemma_uncovered_rows_are_unprotected_survivals(tests: Seq<TestStressor>, n: int)
    requires
        0 <= n <= tests.len(),
    ensures
        uncovered_rows(tests, n) == Seq::new(n as nat, |i: int| i).filter(
            |i: int| tests[i].technical_change is None && tests[i].covered_by@.len() == 0,
        ).map_values(|i: int| row_label(tests[i], i)),
    decreases n,
{
    reveal(Seq::filter);
    if n > 0 {
        lemma_uncovered_rows_are_unprotected_survivals(tests, n - 1);
        let idx = Seq::new(n as nat, |i: int| i);
        assert(idx.drop_last() =~= Seq::new((n - 1) as nat, |i: int| i));
        assert(idx.last() == n - 1);
        let p = |i: int| tests[i].technical_change is None && tests[i].covered_by@.len() == 0;
        let f = |i: int| row_label(tests[i], i);
        let prev = idx.drop_last().filter(p);
        if p(n - 1) {
            assert(prev.push(n - 1).map_values(f) =~= prev.map_values(f).push(f(n - 1)));
        }
    }
}

/// The unknown residues among some ids are, in order, exactly those that
/// no stressor of the list has as its id.
pub proof fn lemma_unknown_among_are_ids_no_stressor_holds(ids: Seq<Seq<char>>, stressors: Seq<Stressor>)
    ensures
        unknown_among(ids, stressors) == ids.filter(
            |x: Seq<char>|
                !(exists|k: int|
                    0 <= k < stressors.len() && (#[trigger] stressors[k]).id is Some && stressors[k].id->0@
                        == x),
        ),
    decreases ids.len(),
{
    reveal(Seq::filter);
    if ids.len() > 0 {
        lemma_unknown_among_are_ids_no_stressor_holds(ids.drop_last(), stressors);
        let x = ids.last();
        if holds_id(stressors, x) {
            let k = choose|k: int| 0 <= k < stressors.len() && opt_text((#[trigger] stressors[k]).id) == Some(x);
            assert(stressors[k].id is Some && stressors[k].id->0@ == x);
        }
        if exists|k: int| 0 <= k < stressors.len() && (#[trigger] stressors[k]).id is Some && stressors[k].id->0@ == x {
            let k = choose|k: int|
                0 <= k < stressors.len() && (#[trigger] stressors[k]).id is Some && stressors[k].id->0@ == x;
            assert(opt_text(stressors[k].id) == Some(x));
        }
    }
}

/// The orphans are, in list order, the ids of exactly those stressors that
/// have an id and whose id no test row cites.
pub proof fn lemma_orphans_are_stressors_no_row_cites(
    tests: Seq<TestStressor>,
    stressors: Seq<Stressor>,
    n: int,
)
    requires
        0 <= n <= stressors.len(),
    ensures
        orphan_residues(tests, stressors, n) == stressors.take(n).filter(
            |s: Stressor|
                s.id is Some && !(exists|i: int|
                    0 <= i < tests.len() && (#[trigger] tests[i]).covered_by@.contains(s.id->0@)),
        ).map_values(|s: Stressor| s.id->0@),
    decreases n,
{
    reveal(Seq::filter);
    if n > 0 {
        lemma_orphans_are_stressors_no_row_cites(tests, stressors, n - 1);
        let t = stressors.take(n);
        assert(t.drop_last() =~= stressors.take(n - 1));
        assert(t.last() == stressors[n - 1]);
        let p = |s: Stressor|
            s.id is Some && !(exists|i: int|
                0 <= i < tests.len() && (#[trigger] tests[i]).covered_by@.contains(s.id->0@));
        let f = |s: Stressor| s.id->0@;
        let prev = stressors.take(n - 1).filter(p);
        if p(stressors[n - 1]) {
            assert(prev.push(stressors[n - 1]).map_values(f) =~= prev.map_values(f).push(f(stressors[n - 1])));
        }
        if stressors[n - 1].id is Some {
            let id = stressors[n - 1].id->0@;
            assert(opt_text(stressors[n - 1].id) == Some(id));
            assert(cited_residues(tests).contains(id) == exists|i: int|
                0 <= i < tests.len() && (#[trigger] tests[i]).covered_by@.contains(id));
        }
    }
}

} // verus!
