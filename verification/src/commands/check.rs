//! Validation of the component and stressor lists.

use vstd::prelude::*;
use vstd::string::StringExecFns;
use crate::model::{opt_text, Component, IdSet, Stressor};
use crate::storage::{COMPONENTS_PATH, STRESSORS_PATH};
use crate::text::{
    blank, char_is_alphanumeric, decimal, id_chars_are_valid, id_chars_valid, is_blank, is_white_space, join,
    push_decimal,
};

verus! {

/// Where the id under check comes from.
pub enum IdToCheckIsFrom {
    /// Not in the component list yet
    CommandLine,
    /// One of the list's own rows, it'll match itself once
    ExistingList,
}

/// How many holders of an id make it a duplicate: one for an id from the
/// command line, two for an id of the list itself (which counts itself).
pub open spec fn uniqueness_threshold(origin: IdToCheckIsFrom) -> nat {
    match origin {
        IdToCheckIsFrom::CommandLine => 1,
        IdToCheckIsFrom::ExistingList => 2,
    }
}

/// The number of components with the given id.
pub open spec fn component_id_count(components: Seq<Component>, id: Seq<char>) -> nat
    decreases components.len(),
{
    if components.len() == 0 {
        0
    } else {
        component_id_count(components.drop_last(), id) + if components.last().id@ == id {
            1nat
        } else {
            0nat
        }
    }
}

/// What is wrong with a component, if anything: a blank id, an id with
/// characters other than letters, digits and `_`, or an id that others hold.
pub open spec fn component_issue(
    component: Component,
    components: Seq<Component>,
    origin: IdToCheckIsFrom,
) -> Option<Seq<char>> {
    if is_blank(component.id@) {
        Some("needs id"@)
    } else if !id_chars_valid(component.id@) {
        Some("only numbers and letters allowed in id"@)
    } else if component_id_count(components, component.id@) >= uniqueness_threshold(origin) {
        Some("id '"@ + component.id@ + "' must be unique"@)
    } else {
        None
    }
}

fn count_component_id(components: &[Component], id: &String) -> (n: usize)
    ensures
        n == component_id_count(components@, id@),
{
    let mut n: usize = 0;
    let mut k: usize = 0;
    while k < components.len()
        invariant
            k <= components@.len(),
            n <= k,
            n == component_id_count(components@.take(k as int), id@),
        decreases components@.len() - k,
    {
        proof {
            assert(components@.take(k + 1).drop_last() =~= components@.take(k as int));
        }
        if components[k].id == *id {
            n = n + 1;
        }
        k = k + 1;
    }
    assert(components@.take(k as int) =~= components@);
    n
}

/// Checks one component against the list: its id must not be blank, must
/// hold only letters, digits and `_`, and must be unique.
pub fn check_component(
    component: &Component,
    components: &[Component],
    origin: IdToCheckIsFrom,
) -> (issue: Option<String>)
    ensures
        opt_text(issue) == component_issue(*component, components@, origin),
{
    let uniqueness_threshold: usize = match origin {
        IdToCheckIsFrom::CommandLine => 1,
        IdToCheckIsFrom::ExistingList => 2,
    };
    if blank(component.id.as_str()) {
        Some(String::from_str("needs id"))
    } else if !id_chars_are_valid(component.id.as_str()) {
        Some(String::from_str("only numbers and letters allowed in id"))
    } else if count_component_id(components, &component.id) >= uniqueness_threshold {
        let mut m = String::from_str("id '");
        m.append(component.id.as_str());
        m.append("' must be unique");
        Some(m)
    } else {
        None
    }
}

/// A finding about a row of a file: `<path> row <number>- <issue>`, where
/// the first row after the header is row 2.
pub open spec fn finding(path: Seq<char>, index: int, issue: Seq<char>) -> Seq<char> {
    path + " row "@ + decimal((index + 2) as nat) + "- "@ + issue
}

fn finding_text(path: &str, index: usize, issue: &String) -> (r: String)
    requires
        index + 2 <= usize::MAX,
    ensures
        r@ == finding(path@, index as int, issue@),
{
    let mut r = String::from_str(path);
    r.append(" row ");
    push_decimal(&mut r, index + 2);
    r.append("- ");
    r.append(issue.as_str());
    r
}

/// The findings about the rows of the component list, in row order.
pub open spec fn component_findings(components: Seq<Component>, upto: int) -> Seq<Seq<char>>
    decreases upto,
{
    if upto <= 0 {
        Seq::empty()
    } else {
        let before = component_findings(components, upto - 1);
        match component_issue(components[upto - 1], components, IdToCheckIsFrom::ExistingList) {
            Some(issue) => before.push(finding(COMPONENTS_PATH@, upto - 1, issue)),
            None => before,
        }
    }
}

/// Checks every row of the component list; never fails.
pub fn check_components(components: &[Component]) -> (findings: Result<Vec<String>, String>)
    requires
        components@.len() + 2 <= usize::MAX,
    ensures
        findings matches Ok(f) && f@.map_values(|s: String| s@) == component_findings(
            components@,
            components@.len() as int,
        ),
{
    let mut findings: Vec<String> = Vec::new();
    let mut i: usize = 0;
    while i < components.len()
        invariant
            components@.len() + 2 <= usize::MAX,
            i <= components@.len(),
            findings@.map_values(|s: String| s@) == component_findings(components@, i as int),
        decreases components@.len() - i,
    {
        let ghost before = findings@;
        if let Some(issue) = check_component(&components[i], components, IdToCheckIsFrom::ExistingList) {
            let f = finding_text(COMPONENTS_PATH, i, &issue);
            findings.push(f);
            assert(findings@.map_values(|s: String| s@) =~= before.map_values(|s: String| s@).push(f@));
        }
        i = i + 1;
    }
    Ok(findings)
}

/// The number of stressors with the given id.
pub open spec fn stressor_id_count(stressors: Seq<Stressor>, id: Seq<char>) -> nat
    decreases stressors.len(),
{
    if stressors.len() == 0 {
        0
    } else {
        stressor_id_count(stressors.drop_last(), id) + if opt_text(stressors.last().id) == Some(id) {
            1nat
        } else {
            0nat
        }
    }
}

/// Whether some component has the given id.
pub open spec fn component_exists(components: Seq<Component>, id: Seq<char>) -> bool {
    exists|k: int| 0 <= k < components.len() && (#[trigger] components[k]).id@ == id
}

/// What is wrong with an id that a stressor says it affects, if anything:
/// characters other than letters, digits and `_`, or no component with it.
pub open spec fn affected_issue(id: Seq<char>, components: Seq<Component>) -> Option<Seq<char>> {
    if !id_chars_valid(id) {
        Some("only numbers and letters allowed in id for affected component '"@ + id + "'"@)
    } else if !component_exists(components, id) {
        Some("affected component '"@ + id + "' references non-existent component"@)
    } else {
        None
    }
}

/// The issues with the affected ids, in their order.
pub open spec fn affected_issues(ids: Seq<Seq<char>>, components: Seq<Component>) -> Seq<Seq<char>>
    decreases ids.len(),
{
    if ids.len() == 0 {
        Seq::empty()
    } else {
        let before = affected_issues(ids.drop_last(), components);
        match affected_issue(ids.last(), components) {
            Some(issue) => before.push(issue),
            None => before,
        }
    }
}

/// What is wrong with a stressor, if anything: a missing or blank id, an id
/// with characters other than letters, digits and `_`, an id that others
/// hold, or else the issues with the ids it affects, one per line.
pub open spec fn stressor_issue(
    stressor: Stressor,
    stressors: Seq<Stressor>,
    components: Seq<Component>,
    origin: IdToCheckIsFrom,
) -> Option<Seq<char>> {
    match opt_text(stressor.id) {
        None => Some("missing stressor id"@),
        Some(id) => if is_blank(id) {
            Some("missing stressor id"@)
        } else if !id_chars_valid(id) {
            Some("only numbers and letters allowed in id"@)
        } else if stressor_id_count(stressors, id) >= uniqueness_threshold(origin) {
            Some("id '"@ + id + "' must be unique"@)
        } else {
            let issues = affected_issues(stressor.affected_components@, components);
            if issues.len() == 0 {
                None
            } else {
                Some(join(issues, "\n\t"@))
            }
        },
    }
}

fn count_stressor_id(stressors: &[Stressor], id: &String) -> (n: usize)
    ensures
        n == stressor_id_count(stressors@, id@),
{
    let mut n: usize = 0;
    let mut k: usize = 0;
    while k < stressors.len()
        invariant
            k <= stressors@.len(),
            n <= k,
            n == stressor_id_count(stressors@.take(k as int), id@),
        decreases stressors@.len() - k,
    {
        proof {
            assert(stressors@.take(k + 1).drop_last() =~= stressors@.take(k as int));
        }
        match &stressors[k].id {
            Some(other) => {
                if *other == *id {
                    n = n + 1;
                }
            },
            None => {},
        }
        k = k + 1;
    }
    assert(stressors@.take(k as int) =~= stressors@);
    n
}

fn has_component(components: &[Component], id: &String) -> (r: bool)
    ensures
        r == component_exists(components@, id@),
{
    let mut k: usize = 0;
    while k < components.len()
        invariant
            k <= components@.len(),
            forall|q: int| 0 <= q < k ==> (#[trigger] components@[q]).id@ != id@,
        decreases components@.len() - k,
    {
        if components[k].id == *id {
            assert(components@[k as int].id@ == id@);
            return true;
        }
        k = k + 1;
    }
    false
}

/// The issues with the ids a stressor affects, joined one per line.
fn affected_component_issues(affected: &IdSet, components: &[Component]) -> (r: Option<String>)
    ensures
        opt_text(r) == (if affected_issues(affected@, components@).len() == 0 {
            None
        } else {
            Some(join(affected_issues(affected@, components@), "\n\t"@))
        }),
{
    let ghost sep = "\n\t"@;
    let mut text = String::new();
    let mut count: usize = 0;
    let n = affected.len();
    let mut i: usize = 0;
    proof {
        assert(affected@.take(0) =~= Seq::<Seq<char>>::empty());
    }
    while i < n
        invariant
            n == affected@.len(),
            i <= n,
            sep == "\n\t"@,
            count == affected_issues(affected@.take(i as int), components@).len(),
            count <= i,
            text@ == join(affected_issues(affected@.take(i as int), components@), sep),
        decreases n - i,
    {
        let a = affected.get(i);
        let ghost prefix = affected@.take(i as int);
        proof {
            assert(affected@.take(i + 1).drop_last() =~= prefix);
            assert(affected@.take(i + 1).last() == a@);
        }
        let mut issue: Option<String> = None;
        if !id_chars_are_valid(a.as_str()) {
            let mut m = String::from_str("only numbers and letters allowed in id for affected component '");
            m.append(a.as_str());
            m.append("'");
            issue = Some(m);
        } else if !has_component(components, a) {
            let mut m = String::from_str("affected component '");
            m.append(a.as_str());
            m.append("' references non-existent component");
            issue = Some(m);
        }
        assert(opt_text(issue) == affected_issue(a@, components@));
        let ghost issues_before = affected_issues(prefix, components@);
        match issue {
            Some(m) => {
                assert(affected_issues(affected@.take(i + 1), components@) == issues_before.push(m@));
                assert(issues_before.push(m@).drop_last() =~= issues_before);
                if count > 0 {
                    text.append("\n\t");
                }
                text.append(m.as_str());
                count = count + 1;
            },
            None => {
                assert(affected_issues(affected@.take(i + 1), components@) == issues_before);
            },
        }
        i = i + 1;
    }
    assert(affected@.take(n as int) =~= affected@);
    if count == 0 {
        None
    } else {
        Some(text)
    }
}

/// Checks one stressor against the lists: its id must be present, not
/// blank, hold only letters, digits and `_`, and be unique; each id it
/// affects must hold only those characters and name a component.
pub fn check_stressor(
    stressor: &Stressor,
    stressors: &[Stressor],
    components: &[Component],
    origin: IdToCheckIsFrom,
) -> (issue: Option<String>)
    ensures
        opt_text(issue) == stressor_issue(*stressor, stressors@, components@, origin),
{
    let uniqueness_threshold: usize = match origin {
        IdToCheckIsFrom::CommandLine => 1,
        IdToCheckIsFrom::ExistingList => 2,
    };
    match &stressor.id {
        None => Some(String::from_str("missing stressor id")),
        Some(id) => {
            if blank(id.as_str()) {
                Some(String::from_str("missing stressor id"))
            } else if !id_chars_are_valid(id.as_str()) {
                Some(String::from_str("only numbers and letters allowed in id"))
            } else if count_stressor_id(stressors, id) >= uniqueness_threshold {
                let mut m = String::from_str("id '");
                m.append(id.as_str());
                m.append("' must be unique");
                Some(m)
            } else {
                affected_component_issues(&stressor.affected_components, components)
            }
        },
    }
}

/// The findings about the rows of the stressor list, in row order.
pub open spec fn stressor_findings(
    stressors: Seq<Stressor>,
    components: Seq<Component>,
    upto: int,
) -> Seq<Seq<char>>
    decreases upto,
{
    if upto <= 0 {
        Seq::empty()
    } else {
        let before = stressor_findings(stressors, components, upto - 1);
        match stressor_issue(stressors[upto - 1], stressors, components, IdToCheckIsFrom::ExistingList) {
            Some(issue) => before.push(finding(STRESSORS_PATH@, upto - 1, issue)),
            None => before,
        }
    }
}

/// Checks every row of the stressor list against the lists; never fails.
pub fn check_stressors(stressors: &[Stressor], components: &[Component]) -> (findings: Result<
    Vec<String>,
    String,
>)
    requires
        stressors@.len() + 2 <= usize::MAX,
    ensures
        findings matches Ok(f) && f@.map_values(|s: String| s@) == stressor_findings(
            stressors@,
            components@,
            stressors@.len() as int,
        ),
{
    let mut findings: Vec<String> = Vec::new();
    let mut i: usize = 0;
    while i < stressors.len()
        invariant
            stressors@.len() + 2 <= usize::MAX,
            i <= stressors@.len(),
            findings@.map_values(|s: String| s@) == stressor_findings(stressors@, components@, i as int),
        decreases stressors@.len() - i,
    {
        let ghost before = findings@;
        if let Some(issue) = check_stressor(&stressors[i], stressors, components, IdToCheckIsFrom::ExistingList) {
            let f = finding_text(STRESSORS_PATH, i, &issue);
            findings.push(f);
            assert(findings@.map_values(|s: String| s@) =~= before.map_values(|s: String| s@).push(f@));
        }
        i = i + 1;
    }
    Ok(findings)
}

/// A component that passes the check made before it is added to the list
/// also passes the check of the list's own rows once it has been added.
pub proof fn lemma_accepted_component_stays_valid(component: Component, components: Seq<Component>)
    requires
        component_issue(component, components, IdToCheckIsFrom::CommandLine) is None,
    ensures
        component_issue(component, components.push(component), IdToCheckIsFrom::ExistingList) is None,
{
    assert(components.push(component).drop_last() =~= components);
}

/// A stressor that passes the check made before it is added to the list
/// also passes the check of the list's own rows once it has been added.
pub proof fn lemma_accepted_stressor_stays_valid(
    stressor: Stressor,
    stressors: Seq<Stressor>,
    components: Seq<Component>,
)
    requires
        stressor_issue(stressor, stressors, components, IdToCheckIsFrom::CommandLine) is None,
    ensures
        stressor_issue(stressor, stressors.push(stressor), components, IdToCheckIsFrom::ExistingList) is None,
{
    assert(stressors.push(stressor).drop_last() =~= stressors);
}

proof fn lemma_component_id_count_two(components: Seq<Component>, i: int, j: int)
    requires
        0 <= i < components.len(),
        0 <= j < components.len(),
        i != j,
        components[i].id@ == components[j].id@,
    ensures
        component_id_count(components, components[i].id@) >= 2,
    decreases components.len(),
{
    let id = components[i].id@;
    let init = components.drop_last();
    let last = components.len() - 1;
    if i == last || j == last {
        let other = if i == last { j } else { i };
        assert(init[other] == components[other]);
        lemma_component_id_count_one(init, other, id);
        assert(components.last() == components[last]);
    } else {
        assert(init[i] == components[i] && init[j] == components[j]);
        lemma_component_id_count_two(init, i, j);
    }
}

proof fn lemma_component_id_count_one(components: Seq<Component>, k: int, id: Seq<char>)
    requires
        0 <= k < components.len(),
        components[k].id@ == id,
    ensures
        component_id_count(components, id) >= 1,
    decreases components.len(),
{
    if k < components.len() - 1 {
        assert(components.drop_last()[k] == components[k]);
        lemma_component_id_count_one(components.drop_last(), k, id);
    } else {
        assert(components.last() == components[k]);
    }
}

/// Two rows of the component list with the same id are both reported.
pub proof fn lemma_duplicate_component_ids_reported(components: Seq<Component>, i: int, j: int)
    requires
        0 <= i < components.len(),
        0 <= j < components.len(),
        i != j,
        components[i].id@ == components[j].id@,
    ensures
        component_issue(components[i], components, IdToCheckIsFrom::ExistingList) is Some,
        component_issue(components[j], components, IdToCheckIsFrom::ExistingList) is Some,
{
    lemma_component_id_count_two(components, i, j);
    lemma_component_id_count_two(components, j, i);
}

proof fn lemma_stressor_id_count_one(stressors: Seq<Stressor>, k: int, id: Seq<char>)
    requires
        0 <= k < stressors.len(),
        opt_text(stressors[k].id) == Some(id),
    ensures
        stressor_id_count(stressors, id) >= 1,
    decreases stressors.len(),
{
    if k < stressors.len() - 1 {
        assert(stressors.drop_last()[k] == stressors[k]);
        lemma_stressor_id_count_one(stressors.drop_last(), k, id);
    } else {
        assert(stressors.last() == stressors[k]);
    }
}

proof fn lemma_stressor_id_count_two(stressors: Seq<Stressor>, i: int, j: int, id: Seq<char>)
    requires
        0 <= i < stressors.len(),
        0 <= j < stressors.len(),
        i != j,
        opt_text(stressors[i].id) == Some(id),
        opt_text(stressors[j].id) == Some(id),
    ensures
        stressor_id_count(stressors, id) >= 2,
    decreases stressors.len(),
{
    let init = stressors.drop_last();
    let last = stressors.len() - 1;
    if i == last || j == last {
        let other = if i == last { j } else { i };
        assert(init[other] == stressors[other]);
        lemma_stressor_id_count_one(init, other, id);
        assert(stressors.last() == stressors[last]);
    } else {
        assert(init[i] == stressors[i] && init[j] == stressors[j]);
        lemma_stressor_id_count_two(init, i, j, id);
    }
}

/// Two rows of the stressor list with the same id are both reported.
pub proof fn lemma_duplicate_stressor_ids_reported(
    stressors: Seq<Stressor>,
    components: Seq<Component>,
    i: int,
    j: int,
)
    requires
        0 <= i < stressors.len(),
        0 <= j < stressors.len(),
        i != j,
        stressors[i].id is Some,
        opt_text(stressors[i].id) == opt_text(stressors[j].id),
    ensures
        stressor_issue(stressors[i], stressors, components, IdToCheckIsFrom::ExistingList) is Some,
        stressor_issue(stressors[j], stressors, components, IdToCheckIsFrom::ExistingList) is Some,
{
    let id = stressors[i].id->0@;
    lemma_stressor_id_count_two(stressors, i, j, id);
}

proof fn lemma_component_id_count_filter(components: Seq<Component>, id: Seq<char>)
    ensures
        component_id_count(components, id) == components.filter(|c: Component| c.id@ == id).len(),
    decreases components.len(),
{
    reveal(Seq::filter);
    if components.len() > 0 {
        lemma_component_id_count_filter(components.drop_last(), id);
    }
}

proof fn lemma_stressor_id_count_filter(stressors: Seq<Stressor>, id: Seq<char>)
    ensures
        stressor_id_count(stressors, id) == stressors.filter(|s: Stressor| s.id is Some && s.id->0@ == id).len(),
    decreases stressors.len(),
{
    reveal(Seq::filter);
    if stressors.len() > 0 {
        lemma_stressor_id_count_filter(stressors.drop_last(), id);
    }
}

/// A component passes its check exactly when its id holds a character
/// other than white space, holds only letters, digits (as
/// `char::is_alphanumeric` sees them) and `_`, and is held by fewer
/// components of the list than the threshold of where it comes from: none
/// for an id from the command line, one (itself) for a row of the list.
pub proof fn lemma_component_accepted_exactly_when_valid(
    component: Component,
    components: Seq<Component>,
    origin: IdToCheckIsFrom,
)
    ensures
        component_issue(component, components, origin) is None <==> {
            let id = component.id@;
            &&& exists|i: int| 0 <= i < id.len() && !is_white_space(#[trigger] id[i])
            &&& forall|i: int| 0 <= i < id.len() ==> char_is_alphanumeric(#[trigger] id[i]) || id[i] == '_'
            &&& components.filter(|c: Component| c.id@ == id).len() < match origin {
                IdToCheckIsFrom::CommandLine => 1nat,
                IdToCheckIsFrom::ExistingList => 2nat,
            }
        },
{
    lemma_component_id_count_filter(components, component.id@);
}

/// The affected ids of a stressor raise no issue exactly when each holds
/// only letters, digits and `_` and is the id of some component; a
/// component's name does not count.
pub proof fn lemma_affected_ids_accepted_exactly_when_component_ids(
    ids: Seq<Seq<char>>,
    components: Seq<Component>,
)
    ensures
        affected_issues(ids, components).len() == 0 <==> forall|j: int|
            0 <= j < ids.len() ==> {
                &&& forall|i: int|
                    0 <= i < ids[j].len() ==> char_is_alphanumeric(#[trigger] ids[j][i]) || ids[j][i] == '_'
                &&& components.map_values(|c: Component| c.id@).contains(#[trigger] ids[j])
            },
    decreases ids.len(),
{
    let cids = components.map_values(|c: Component| c.id@);
    if ids.len() > 0 {
        let init = ids.drop_last();
        let x = ids.last();
        lemma_affected_ids_accepted_exactly_when_component_ids(init, components);
        assert(x == ids[ids.len() - 1]);
        if component_exists(components, x) {
            let k = choose|k: int| 0 <= k < components.len() && (#[trigger] components[k]).id@ == x;
            assert(cids[k] == x);
        }
        if cids.contains(x) {
            let k = choose|k: int| 0 <= k < cids.len() && cids[k] == x;
            assert(components[k].id@ == x);
        }
        let ok = |y: Seq<char>| {
            &&& forall|i: int| 0 <= i < y.len() ==> char_is_alphanumeric(#[trigger] y[i]) || y[i] == '_'
            &&& cids.contains(y)
        };
        assert(ok(x) == (affected_issue(x, components) is None));
        if affected_issues(ids, components).len() == 0 {
            assert forall|j: int| 0 <= j < ids.len() implies {
                &&& forall|i: int|
                    0 <= i < ids[j].len() ==> char_is_alphanumeric(#[trigger] ids[j][i]) || ids[j][i] == '_'
                &&& cids.contains(#[trigger] ids[j])
            } by {
                if j < ids.len() - 1 {
                    assert(init[j] == ids[j]);
                }
            }
        }
        if forall|j: int| 0 <= j < ids.len() ==> {
            &&& forall|i: int|
                0 <= i < ids[j].len() ==> char_is_alphanumeric(#[trigger] ids[j][i]) || ids[j][i] == '_'
            &&& cids.contains(#[trigger] ids[j])
        } {
            assert forall|j: int| 0 <= j < init.len() implies {
                &&& forall|i: int|
                    0 <= i < init[j].len() ==> char_is_alphanumeric(#[trigger] init[j][i]) || init[j][i] == '_'
                &&& cids.contains(#[trigger] init[j])
            } by {
                assert(init[j] == ids[j]);
            }
            assert(ok(ids[ids.len() - 1]));
        }
    }
}

/// A stressor passes its check exactly when it has an id that holds a
/// character other than white space, holds only letters, digits and `_`,
/// and is held by fewer stressors than the threshold of where it comes
/// from, and when each id it affects holds only letters, digits and `_` and
/// is the id of some component.
pub proof fn lemma_stressor_accepted_exactly_when_valid(
    stressor: Stressor,
    stressors: Seq<Stressor>,
    components: Seq<Component>,
    origin: IdToCheckIsFrom,
)
    ensures
        stressor_issue(stressor, stressors, components, origin) is None <==> {
            let id = stressor.id->0@;
            &&& stressor.id is Some
            &&& exists|i: int| 0 <= i < id.len() && !is_white_space(#[trigger] id[i])
            &&& forall|i: int| 0 <= i < id.len() ==> char_is_alphanumeric(#[trigger] id[i]) || id[i] == '_'
            &&& stressors.filter(|s: Stressor| s.id is Some && s.id->0@ == id).len() < match origin {
                IdToCheckIsFrom::CommandLine => 1nat,
                IdToCheckIsFrom::ExistingList => 2nat,
            }
            &&& forall|j: int|
                0 <= j < stressor.affected_components@.len() ==> {
                    &&& forall|i: int|
                        0 <= i < stressor.affected_components@[j].len() ==> char_is_alphanumeric(
                            #[trigger] stressor.affected_components@[j][i],
                        ) || stressor.affected_components@[j][i] == '_'
                    &&& components.map_values(|c: Component| c.id@).contains(
                        #[trigger] stressor.affected_components@[j],
                    )
                }
        },
{
    lemma_affected_ids_accepted_exactly_when_component_ids(stressor.affected_components@, components);
    if stressor.id is Some {
        let id = stressor.id->0@;
        lemma_stressor_id_count_filter(stressors, id);
        assert(opt_text(stressor.id) == Some(id));
        assert(!is_blank(id) <==> exists|i: int| 0 <= i < id.len() && !is_white_space(#[trigger] id[i]));
        assert(id_chars_valid(id) <==> forall|i: int|
            0 <= i < id.len() ==> char_is_alphanumeric(#[trigger] id[i]) || id[i] == '_');
        let threshold = uniqueness_threshold(origin);
        assert(threshold == match origin {
            IdToCheckIsFrom::CommandLine => 1nat,
            IdToCheckIsFrom::ExistingList => 2nat,
        });
        let issues = affected_issues(stressor.affected_components@, components);
        assert(stressor_issue(stressor, stressors, components, origin) is None <==> (!is_blank(id)
            && id_chars_valid(id) && stressor_id_count(stressors, id) < threshold && issues.len() == 0));
    }
}

} // verus!
