//! The data the analysis works on: components, stressors and the incidence
//! matrix between them.

use vstd::prelude::*;
use vstd::string::StringExecFns;
use crate::text::{
    join, lemma_split_on_nonempty, is_white_space, trim_end, trim_start, lemma_text_lt_irreflexive, lemma_text_lt_total,
    lemma_text_lt_transitive, push_char, split_on, text_less, text_lt, trim, trimmed,
};

verus! {

/// Whether each text comes before every later one, in the order of `String`.
pub open spec fn ascending(s: Seq<Seq<char>>) -> bool {
    forall|i: int, j: int| 0 <= i < j < s.len() ==> text_lt(#[trigger] s[i], #[trigger] s[j])
}

/// A set of ids, kept in ascending order without repetition, as a
/// `BTreeSet<String>` keeps its keys. vstd's contracts for `BTreeSet` hold
/// only for a key type known to obey the laws of `Ord`, which vstd states of
/// no `String`; here the order of `String` is written out (`text_lt`) and the
/// set is a sorted `Vec` whose order is its type invariant.
#[derive(Debug, PartialEq, Eq)]
pub struct IdSet {
    ids: Vec<String>,
}

impl View for IdSet {
    type V = Seq<Seq<char>>;

    /// The ids in ascending order.
    closed spec fn view(&self) -> Seq<Seq<char>> {
        self.ids@.map_values(|s: String| s@)
    }
}

impl IdSet {
    #[verifier::type_invariant]
    pub(crate) open spec fn sorted(self) -> bool {
        ascending(self@)
    }

    /// The empty set.
    pub fn new() -> (r: IdSet)
        ensures
            r@ == Seq::<Seq<char>>::empty(),
            ascending(r@),
    {
        let r = IdSet { ids: Vec::new() };
        assert(r@ =~= Seq::<Seq<char>>::empty());
        r
    }

    /// The number of ids.
    pub fn len(&self) -> (r: usize)
        ensures
            r == self@.len(),
    {
        self.ids.len()
    }

    pub fn is_empty(&self) -> (r: bool)
        ensures
            r == (self@.len() == 0),
    {
        self.ids.len() == 0
    }

    /// The id at position `i` of the ascending order.
    pub fn get(&self, i: usize) -> (r: &String)
        requires
            i < self@.len(),
        ensures
            r@ == self@[i as int],
    {
        &self.ids[i]
    }

    /// Whether the set holds `id`.
    pub fn contains(&self, id: &String) -> (r: bool)
        ensures
            r == self@.contains(id@),
    {
        let mut k: usize = 0;
        while k < self.ids.len()
            invariant
                k <= self.ids@.len(),
                forall|q: int| 0 <= q < k ==> self@[q] != id@,
            decreases self.ids@.len() - k,
        {
            if self.ids[k] == *id {
                assert(self@[k as int] == id@);
                return true;
            }
            k = k + 1;
        }
        false
    }

    /// Adds `id`; answers whether it was not there before.
    pub fn insert(&mut self, id: String) -> (r: bool)
        ensures
            r == !old(self)@.contains(id@),
            final(self)@.to_set() == old(self)@.to_set().insert(id@),
            ascending(final(self)@),
    {
        proof {
            use_type_invariant(&*self);
        }
        let ghost before = self@;
        let mut k: usize = 0;
        while k < self.ids.len() && text_less(self.ids[k].as_str(), id.as_str())
            invariant
                k <= self.ids@.len(),
                self@ == before,
                ascending(before),
                forall|q: int| 0 <= q < k ==> text_lt(#[trigger] before[q], id@),
            decreases self.ids@.len() - k,
        {
            k = k + 1;
        }
        if k < self.ids.len() && self.ids[k] == id {
            proof {
                assert(before[k as int] == id@);
                assert(before.to_set().insert(id@) =~= before.to_set());
            }
            return false;
        }
        proof {
            if k < before.len() {
                lemma_text_lt_total(before[k as int], id@);
                assert(text_lt(id@, before[k as int]));
            }
            assert forall|q: int| k <= q < before.len() implies text_lt(id@, #[trigger] before[q]) by {
                if q > k {
                    lemma_text_lt_transitive(id@, before[k as int], before[q]);
                }
            }
            assert forall|q: int| 0 <= q < before.len() implies before[q] != id@ by {
                lemma_text_lt_irreflexive(id@);
            }
        }
        let mut ids = Vec::new();
        std::mem::swap(&mut ids, &mut self.ids);
        ids.insert(k, id);
        let ghost after = ids@.map_values(|s: String| s@);
        proof {
            assert(after =~= before.insert(k as int, id@));
            assert forall|i: int, j: int| 0 <= i < j < after.len() implies text_lt(
                #[trigger] after[i],
                #[trigger] after[j],
            ) by {
                if j < k {
                } else if i < k && j == k {
                } else if i < k && j > k {
                    lemma_text_lt_transitive(before[i], id@, before[j - 1]);
                } else if i == k {
                } else {
                }
            }
            before.insert_ensures(k as int, id@);
            assert forall|x: Seq<char>| after.to_set().contains(x) <==> before.to_set().insert(
                id@,
            ).contains(x) by {
                if after.contains(x) {
                    let p = choose|p: int| 0 <= p < after.len() && after[p] == x;
                    if p < k {
                        assert(before[p] == x);
                    } else if p > k {
                        assert(before[p - 1] == x);
                    }
                }
                if before.contains(x) {
                    let p = choose|p: int| 0 <= p < before.len() && before[p] == x;
                    if p < k {
                        assert(after[p] == x);
                    } else {
                        assert(after[p + 1] == x);
                    }
                }
                if x == id@ {
                    assert(after[k as int] == x);
                }
            }
            assert(after.to_set() =~= before.to_set().insert(id@));
        }
        self.ids = ids;
        proof {
            use_type_invariant(&*self);
        }
        true
    }

    /// The set of the given ids, as collecting them into a `BTreeSet` gives it.
    pub fn from_vec(ids: Vec<String>) -> (r: IdSet)
        ensures
            r@.to_set() == ids@.map_values(|s: String| s@).to_set(),
            ascending(r@),
    {
        let mut set = IdSet::new();
        let ghost all = ids@.map_values(|s: String| s@);
        let mut i: usize = 0;
        proof {
            assert(set@.to_set() =~= all.take(0).to_set());
        }
        while i < ids.len()
            invariant
                all == ids@.map_values(|s: String| s@),
                i <= ids@.len(),
                set@.to_set() == all.take(i as int).to_set(),
            decreases ids@.len() - i,
        {
            let id = ids[i].clone();
            set.insert(id);
            proof {
                assert(all.take(i + 1) =~= all.take(i as int).push(all[i as int]));
                assert(all.take(i + 1) =~= all.take(i as int) + seq![all[i as int]]);
                Seq::lemma_to_set_insert_commutes(all.take(i as int), all[i as int]);
            }
            i = i + 1;
        }
        assert(all.take(i as int) =~= all);
        proof {
            use_type_invariant(&set);
        }
        set
    }
}

/// The ids kept from the given pieces: each trimmed, the empty ones left out.
pub open spec fn kept_ids(pieces: Seq<Seq<char>>) -> Set<Seq<char>> {
    Set::new(
        |t: Seq<char>|
            exists|k: int| 0 <= k < pieces.len() && t == trim(#[trigger] pieces[k]) && t.len() > 0,
    )
}

/// The ids that a cell of the `affected_components` column names: its
/// pieces between `;`, each trimmed, the empty ones left out.
pub open spec fn cell_ids(cell: Seq<char>) -> Set<Seq<char>> {
    kept_ids(split_on(cell, ';'))
}

proof fn lemma_kept_ids_push(pieces: Seq<Seq<char>>, p: Seq<char>)
    ensures
        kept_ids(pieces.push(p)) == (if trim(p).len() > 0 {
            kept_ids(pieces).insert(trim(p))
        } else {
            kept_ids(pieces)
        }),
{
    let after = pieces.push(p);
    let rhs = if trim(p).len() > 0 {
        kept_ids(pieces).insert(trim(p))
    } else {
        kept_ids(pieces)
    };
    assert forall|t: Seq<char>| kept_ids(after).contains(t) <==> rhs.contains(t) by {
        if kept_ids(after).contains(t) {
            let k = choose|k: int| 0 <= k < after.len() && t == trim(#[trigger] after[k]) && t.len() > 0;
            if k < pieces.len() {
                assert(pieces[k] == after[k]);
            }
        }
        if kept_ids(pieces).contains(t) {
            let k = choose|k: int| 0 <= k < pieces.len() && t == trim(#[trigger] pieces[k]) && t.len() > 0;
            assert(after[k] == pieces[k]);
        }
        if trim(p).len() > 0 && t == trim(p) {
            assert(after[pieces.len() as int] == p);
        }
    }
    assert(kept_ids(after) =~= rhs);
}

/// Reads the ids of an `affected_components` cell: the pieces between `;`,
/// trimmed, without the empty ones, in ascending order and each once.
pub fn affects_from_cell(cell: &str) -> (r: IdSet)
    ensures
        r@.to_set() == cell_ids(cell@),
        ascending(r@),
{
    let n = cell.unicode_len();
    let mut set = IdSet::new();
    let mut start: usize = 0;
    let mut i: usize = 0;
    let ghost mut done: Seq<Seq<char>> = Seq::empty();
    proof {
        assert(cell@.take(0) =~= Seq::<char>::empty());
        assert(split_on(cell@.take(0), ';') =~= done.push(cell@.subrange(0, 0)));
        assert(set@.to_set() =~= kept_ids(done));
    }
    while i < n
        invariant
            n == cell@.len(),
            start <= i <= n,
            split_on(cell@.take(i as int), ';') == done.push(cell@.subrange(start as int, i as int)),
            set@.to_set() == kept_ids(done),
        decreases n - i,
    {
        let c = cell.get_char(i);
        proof {
            assert(cell@.take(i + 1).drop_last() =~= cell@.take(i as int));
            assert(cell@.take(i + 1).last() == c);
            lemma_split_on_nonempty(cell@.take(i as int), ';');
        }
        if c == ';' {
            let piece = trimmed(cell.substring_char(start, i));
            proof {
                lemma_kept_ids_push(done, cell@.subrange(start as int, i as int));
                done = done.push(cell@.subrange(start as int, i as int));
                assert(cell@.subrange(i + 1, i + 1) =~= Seq::<char>::empty());
            }
            if piece.unicode_len() > 0 {
                set.insert(piece);
            }
            start = i + 1;
        } else {
            proof {
                assert(cell@.subrange(start as int, i + 1) =~= cell@.subrange(
                    start as int,
                    i as int,
                ).push(c));
                assert(split_on(cell@.take(i + 1), ';') =~= done.push(
                    cell@.subrange(start as int, i + 1),
                ));
            }
        }
        i = i + 1;
    }
    let piece = trimmed(cell.substring_char(start, n));
    proof {
        lemma_kept_ids_push(done, cell@.subrange(start as int, n as int));
        assert(cell@.take(n as int) =~= cell@);
    }
    if piece.unicode_len() > 0 {
        set.insert(piece);
    }
    proof {
        use_type_invariant(&set);
    }
    set
}

/// Writes the ids of a set into one `affected_components` cell, joined by `;`
/// in ascending order.
pub fn affects_to_cell(ids: &IdSet) -> (r: String)
    ensures
        r@ == join(ids@, seq![';']),
{
    let mut r = String::new();
    let n = ids.len();
    let mut i: usize = 0;
    proof {
        assert(ids@.take(0) =~= Seq::<Seq<char>>::empty());
    }
    while i < n
        invariant
            n == ids@.len(),
            i <= n,
            r@ == join(ids@.take(i as int), seq![';']),
        decreases n - i,
    {
        if i > 0 {
            push_char(&mut r, ';');
        }
        r.append(ids.get(i).as_str());
        proof {
            assert(ids@.take(i + 1).drop_last() =~= ids@.take(i as int));
            assert(ids@.take(i + 1).last() == ids@[i as int]);
        }
        i = i + 1;
    }
    assert(ids@.take(n as int) =~= ids@);
    r
}

/// A part of the architecture that stressors act on.
#[derive(Debug, PartialEq, Eq, Clone)]
pub struct Component {
    pub id: String,
    pub name: Option<String>,
}

/// The texts an optional `String` holds.
pub open spec fn opt_text(o: Option<String>) -> Option<Seq<char>> {
    match o {
        Some(s) => Some(s@),
        None => None,
    }
}

/// What a component is as a value: its id and its name.
pub struct ComponentView {
    pub id: Seq<char>,
    pub name: Option<Seq<char>>,
}

impl View for Component {
    type V = ComponentView;

    open spec fn view(&self) -> ComponentView {
        ComponentView { id: self.id@, name: opt_text(self.name) }
    }
}

/// How a component is shown: by its name, or by its id where it has none.
pub open spec fn component_label(c: ComponentView) -> Seq<char> {
    match c.name {
        Some(n) => n,
        None => c.id,
    }
}

impl Component {
    /// The component as it is shown: its name, or its id where it has none.
    pub fn to_string(&self) -> (r: String)
        ensures
            r@ == component_label(self@),
    {
        match &self.name {
            Some(n) => n.clone(),
            None => self.id.clone(),
        }
    }
}

/// Whether two components are equal as values.
pub fn same_component(a: &Component, b: &Component) -> (r: bool)
    ensures
        r == (a@ == b@),
{
    if a.id != b.id {
        return false;
    }
    match (&a.name, &b.name) {
        (Some(x), Some(y)) => *x == *y,
        (None, None) => true,
        _ => false,
    }
}

/// A pressure from the environment, and what it does to the architecture.
#[derive(Debug, PartialEq, Eq)]
pub struct Stressor {
    pub id: Option<String>,
    pub name: Option<String>,
    pub detection: Option<String>,
    pub attractor: Option<String>,
    pub business_reaction: Option<String>,
    pub technical_change: Option<String>,
    pub affected_components: IdSet,
}

/// How a stressor is shown: by its name, else by its id (empty where it has
/// neither).
pub open spec fn stressor_label(s: Stressor) -> Seq<char> {
    match opt_text(s.name) {
        Some(n) => n,
        None => match opt_text(s.id) {
            Some(id) => id,
            None => Seq::empty(),
        },
    }
}

impl Stressor {
    /// The stressor as it is shown: its name, else its id.
    pub fn to_string(&self) -> (r: String)
        ensures
            r@ == stressor_label(*self),
    {
        match &self.name {
            Some(n) => n.clone(),
            None => match &self.id {
                Some(id) => id.clone(),
                None => String::new(),
            },
        }
    }
}

/// A stressor of an empirical test of the architecture: beside what a
/// stressor records, the change the naive architecture would need and the
/// stressors (residues) that cover it.
#[derive(Debug, PartialEq, Eq)]
pub struct TestStressor {
    pub id: Option<String>,
    pub name: Option<String>,
    pub detection: Option<String>,
    pub attractor: Option<String>,
    pub business_reaction: Option<String>,
    pub technical_change: Option<String>,
    pub affected_components: IdSet,
    pub naive_technical_change: Option<String>,
    pub covered_by: IdSet,
}

/// The incidence matrix: one row per stressor, one column per component.
#[derive(Debug)]
pub struct Matrix {
    pub table: Vec<Vec<u32>>,
    pub stressors: Vec<Stressor>,
    pub components: Vec<Component>,
}

impl Matrix {
    /// The cells, row by row.
    pub open spec fn grid(&self) -> Seq<Seq<u32>> {
        self.table@.map_values(|row: Vec<u32>| row@)
    }

    /// Whether every row has a cell for each component.
    pub open spec fn has_columns(&self) -> bool {
        forall|r: int| 0 <= r < self.table@.len() ==> self.components@.len() <= (#[trigger] self.table@[r])@.len()
    }

    /// Whether the matrix has one row per stressor and, in each row, one
    /// cell per component.
    pub open spec fn is_well_formed(&self) -> bool {
        &&& self.table@.len() == self.stressors@.len()
        &&& forall|r: int| 0 <= r < self.table@.len() ==> (#[trigger] self.table@[r])@.len() == self.components@.len()
    }
}

/// Whether an id survives being written into a cell and read back: it is
/// not empty, holds no `;`, and neither starts nor ends with white space.
pub open spec fn fits_in_cell(id: Seq<char>) -> bool {
    &&& id.len() > 0
    &&& !id.contains(';')
    &&& !is_white_space(id[0])
    &&& !is_white_space(id.last())
}

proof fn lemma_split_without_sep(b: Seq<char>, sep: char)
    requires
        !b.contains(sep),
    ensures
        split_on(b, sep) == seq![b],
    decreases b.len(),
{
    if b.len() > 0 {
        assert(!b.drop_last().contains(sep)) by {
            if b.drop_last().contains(sep) {
                let i = choose|i: int| 0 <= i < b.drop_last().len() && b.drop_last()[i] == sep;
                assert(b[i] == sep);
            }
        }
        lemma_split_without_sep(b.drop_last(), sep);
        assert(b.last() != sep) by {
            assert(b[b.len() - 1] == b.last());
        }
        assert(b.drop_last().push(b.last()) =~= b);
    } else {
        assert(b =~= Seq::<char>::empty());
    }
}

proof fn lemma_split_after_sep(a: Seq<char>, b: Seq<char>, sep: char)
    requires
        !b.contains(sep),
    ensures
        split_on(a + seq![sep] + b, sep) == split_on(a, sep).push(b),
    decreases b.len(),
{
    let s = a + seq![sep] + b;
    if b.len() == 0 {
        assert(s.drop_last() =~= a);
        assert(b =~= Seq::<char>::empty());
    } else {
        assert(!b.drop_last().contains(sep)) by {
            if b.drop_last().contains(sep) {
                let i = choose|i: int| 0 <= i < b.drop_last().len() && b.drop_last()[i] == sep;
                assert(b[i] == sep);
            }
        }
        lemma_split_after_sep(a, b.drop_last(), sep);
        assert(s.drop_last() =~= a + seq![sep] + b.drop_last());
        assert(s.last() == b.last());
        assert(b.last() != sep) by {
            assert(b[b.len() - 1] == b.last());
        }
        assert(b.drop_last().push(b.last()) =~= b);
        assert(split_on(s, sep) =~= split_on(a, sep).push(b));
    }
}

proof fn lemma_split_join(parts: Seq<Seq<char>>, sep: char)
    requires
        parts.len() >= 1,
        forall|k: int| 0 <= k < parts.len() ==> !(#[trigger] parts[k]).contains(sep),
    ensures
        split_on(join(parts, seq![sep]), sep) == parts,
    decreases parts.len(),
{
    if parts.len() == 1 {
        lemma_split_without_sep(parts[0], sep);
        assert(parts =~= seq![parts[0]]);
    } else {
        let init = parts.drop_last();
        assert forall|k: int| 0 <= k < init.len() implies !(#[trigger] init[k]).contains(sep) by {
            assert(init[k] == parts[k]);
        }
        lemma_split_join(init, sep);
        assert(parts.last() == parts[parts.len() - 1]);
        lemma_split_after_sep(join(init, seq![sep]), parts.last(), sep);
        assert(init.push(parts.last()) =~= parts);
    }
}

proof fn lemma_trim_keeps(id: Seq<char>)
    requires
        id.len() > 0,
        !is_white_space(id[0]),
        !is_white_space(id.last()),
    ensures
        trim(id) == id,
{
    assert(trim_start(id) == id);
    assert(trim_end(id) == id);
}

/// Writing ids into one cell and reading the cell back gives the same ids,
/// where each id fits in a cell.
pub proof fn lemma_affects_cell_round_trip(ids: Seq<Seq<char>>)
    requires
        forall|k: int| 0 <= k < ids.len() ==> fits_in_cell(#[trigger] ids[k]),
    ensures
        cell_ids(join(ids, seq![';'])) == ids.to_set(),
{
    if ids.len() == 0 {
        assert(join(ids, seq![';']) =~= Seq::<char>::empty());
        let pieces = split_on(Seq::<char>::empty(), ';');
        assert(pieces =~= seq![Seq::<char>::empty()]);
        assert forall|t: Seq<char>| !cell_ids(join(ids, seq![';'])).contains(t) by {
            if cell_ids(join(ids, seq![';'])).contains(t) {
                let k = choose|k: int| 0 <= k < pieces.len() && t == trim(#[trigger] pieces[k]) && t.len() > 0;
                assert(pieces[k] =~= Seq::<char>::empty());
            }
        }
        assert(cell_ids(join(ids, seq![';'])) =~= ids.to_set());
    } else {
        assert forall|k: int| 0 <= k < ids.len() implies !(#[trigger] ids[k]).contains(';') by {
            assert(fits_in_cell(ids[k]));
        }
        lemma_split_join(ids, ';');
        assert forall|t: Seq<char>| cell_ids(join(ids, seq![';'])).contains(t) <==> ids.to_set().contains(t) by {
            if ids.to_set().contains(t) {
                let k = choose|k: int| 0 <= k < ids.len() && ids[k] == t;
                assert(fits_in_cell(ids[k]));
                lemma_trim_keeps(ids[k]);
            }
            if cell_ids(join(ids, seq![';'])).contains(t) {
                let k = choose|k: int| 0 <= k < ids.len() && t == trim(#[trigger] ids[k]) && t.len() > 0;
                assert(fits_in_cell(ids[k]));
                lemma_trim_keeps(ids[k]);
            }
        }
        assert(cell_ids(join(ids, seq![';'])) =~= ids.to_set());
    }
}

/// Two ascending sequences of ids with the same elements are the same.
pub proof fn lemma_ascending_unique(a: Seq<Seq<char>>, b: Seq<Seq<char>>)
    requires
        ascending(a),
        ascending(b),
        a.to_set() == b.to_set(),
    ensures
        a == b,
    decreases a.len() + b.len(),
{
    if a.len() == 0 || b.len() == 0 {
        if a.len() > 0 {
            assert(a.to_set().contains(a[0]));
        }
        if b.len() > 0 {
            assert(b.to_set().contains(b[0]));
        }
        assert(a =~= b);
    } else {
        assert(a.to_set().contains(a[0]));
        assert(b.to_set().contains(b[0]));
        let j = choose|j: int| 0 <= j < b.len() && b[j] == a[0];
        let i = choose|i: int| 0 <= i < a.len() && a[i] == b[0];
        if j > 0 {
            if i > 0 {
                lemma_text_lt_transitive(b[0], b[j], a[i]);
                lemma_text_lt_irreflexive(b[0]);
            } else {
                lemma_text_lt_irreflexive(b[0]);
            }
        }
        assert(a[0] == b[0]);
        let a2 = a.drop_first();
        let b2 = b.drop_first();
        assert forall|x: Seq<char>| a2.to_set().contains(x) <==> b2.to_set().contains(x) by {
            if a2.to_set().contains(x) {
                let p = choose|p: int| 0 <= p < a2.len() && a2[p] == x;
                assert(a[p + 1] == x);
                assert(b.to_set().contains(x));
                let q = choose|q: int| 0 <= q < b.len() && b[q] == x;
                if q == 0 {
                    lemma_text_lt_irreflexive(x);
                } else {
                    assert(b2[q - 1] == x);
                }
            }
            if b2.to_set().contains(x) {
                let p = choose|p: int| 0 <= p < b2.len() && b2[p] == x;
                assert(b[p + 1] == x);
                assert(a.to_set().contains(x));
                let q = choose|q: int| 0 <= q < a.len() && a[q] == x;
                if q == 0 {
                    lemma_text_lt_irreflexive(x);
                } else {
                    assert(a2[q - 1] == x);
                }
            }
        }
        assert(a2.to_set() =~= b2.to_set());
        lemma_ascending_unique(a2, b2);
        assert(a =~= seq![a[0]] + a2);
        assert(b =~= seq![b[0]] + b2);
    }
}

/// Reading back the cell written from a set of ids gives that set again,
/// where each id fits in a cell.
pub proof fn lemma_cell_reads_back_written_ids(ids: Seq<Seq<char>>, read: Seq<Seq<char>>)
    requires
        ascending(ids),
        forall|k: int| 0 <= k < ids.len() ==> fits_in_cell(#[trigger] ids[k]),
        ascending(read),
        read.to_set() == cell_ids(join(ids, seq![';'])),
    ensures
        read == ids,
{
    lemma_affects_cell_round_trip(ids);
    lemma_ascending_unique(read, ids);
}

} // verus!
