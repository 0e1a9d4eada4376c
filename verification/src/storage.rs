//! Where the architecture files live, and the rows written to them.

use vstd::prelude::*;
use vstd::string::StringExecFns;
use crate::model::{component_label, stressor_label, Component, Matrix};

verus! {

/// The file that lists the components.
pub const COMPONENTS_PATH: &'static str = "architecture/components.csv";

/// The file that lists the stressors.
pub const STRESSORS_PATH: &'static str = "architecture/stressors.csv";

/// The path of the matrix export made on the given date.
pub open spec fn matrix_path(date: Seq<char>) -> Seq<char> {
    "reports/matrix_"@ + date + ".csv"@
}

/// The path of the matrix export made on the given date (`YYYYMMDD`).
pub fn matrix_path_for_date(date: &str) -> (path: String)
    ensures
        path@ == matrix_path(date@),
{
    let mut path = String::from_str("reports/matrix_");
    path.append(date);
    path.append(".csv");
    path
}

/// The path of the contagion report made at the given time.
pub open spec fn analysis_path(stamp: Seq<char>) -> Seq<char> {
    "reports/analysis_"@ + stamp + ".md"@
}

/// The path of the contagion report made at the given time stamp.
pub fn analysis_path_for_stamp(stamp: &str) -> (path: String)
    ensures
        path@ == analysis_path(stamp@),
{
    let mut path = String::from_str("reports/analysis_");
    path.append(stamp);
    path.append(".md");
    path
}

/// The text of a matrix cell in the export: `1` for 1, `0` for anything else.
pub open spec fn cell_text(v: u32) -> Seq<char> {
    if v == 1 {
        "1"@
    } else {
        "0"@
    }
}

/// The texts of rows of fields.
pub open spec fn rows_text(rows: Seq<Vec<String>>) -> Seq<Seq<Seq<char>>> {
    rows.map_values(|row: Vec<String>| row@.map_values(|f: String| f@))
}

/// The header of the export: an empty field, then each component's label.
pub open spec fn matrix_header(m: Matrix) -> Seq<Seq<char>> {
    seq![Seq::empty()] + m.components@.map_values(|c: Component| component_label(c@))
}

/// The export's row for stressor `i`: its label, then the cells of its row.
pub open spec fn matrix_row(m: Matrix, i: int) -> Seq<Seq<char>> {
    seq![stressor_label(m.stressors@[i])] + m.grid()[i].map_values(|v: u32| cell_text(v))
}

fn cell_field(v: u32) -> (r: String)
    ensures
        r@ == cell_text(v),
{
    if v == 1 {
        String::from_str("1")
    } else {
        String::from_str("0")
    }
}

/// The rows of the matrix export: the header, then one row per stressor.
pub fn matrix_csv_rows(matrix: &Matrix) -> (rows: Vec<Vec<String>>)
    requires
        matrix.stressors@.len() <= matrix.table@.len(),
        forall|i: int|
            0 <= i < matrix.stressors@.len() ==> (#[trigger] matrix.stressors@[i]).name is Some
                || matrix.stressors@[i].id is Some,
    ensures
        rows@.len() == matrix.stressors@.len() + 1,
        rows_text(rows@)[0] == matrix_header(*matrix),
        forall|i: int| 0 <= i < matrix.stressors@.len() ==> #[trigger] rows_text(rows@)[i + 1] == matrix_row(*matrix, i),
{
    let mut rows: Vec<Vec<String>> = Vec::new();
    let mut header: Vec<String> = Vec::new();
    header.push(String::new());
    let mut c: usize = 0;
    while c < matrix.components.len()
        invariant
            c <= matrix.components@.len(),
            header@.len() == c + 1,
            header@.map_values(|f: String| f@) == seq![Seq::<char>::empty()] + matrix.components@.take(
                c as int,
            ).map_values(|c: Component| component_label(c@)),
        decreases matrix.components@.len() - c,
    {
        let ghost before = header@;
        let f = matrix.components[c].to_string();
        header.push(f);
        assert(matrix.components@.take(c + 1) =~= matrix.components@.take(c as int).push(
            matrix.components@[c as int],
        ));
        assert(header@.map_values(|f: String| f@) =~= before.map_values(|f: String| f@).push(f@));
        assert(matrix.components@.take(c + 1).map_values(|c: Component| component_label(c@))
            =~= matrix.components@.take(c as int).map_values(|c: Component| component_label(c@)).push(
            component_label(matrix.components@[c as int]@),
        ));
        assert(header@.map_values(|f: String| f@) =~= seq![Seq::<char>::empty()] + matrix.components@.take(
            c + 1,
        ).map_values(|c: Component| component_label(c@)));
        c = c + 1;
    }
    assert(matrix.components@.take(c as int) =~= matrix.components@);
    rows.push(header);
    let mut i: usize = 0;
    while i < matrix.stressors.len()
        invariant
            matrix.stressors@.len() <= matrix.table@.len(),
            forall|i: int|
                0 <= i < matrix.stressors@.len() ==> (#[trigger] matrix.stressors@[i]).name is Some
                    || matrix.stressors@[i].id is Some,
            i <= matrix.stressors@.len(),
            rows@.len() == i + 1,
            rows_text(rows@)[0] == matrix_header(*matrix),
            forall|q: int| 0 <= q < i ==> #[trigger] rows_text(rows@)[q + 1] == matrix_row(*matrix, q),
        decreases matrix.stressors@.len() - i,
    {
        let s = &matrix.stressors[i];
        let label = s.to_string();
        let cells = &matrix.table[i];
        assert(cells@ == matrix.grid()[i as int]);
        let mut row: Vec<String> = Vec::new();
        row.push(label);
        let mut k: usize = 0;
        while k < cells.len()
            invariant
                k <= cells@.len(),
                row@.len() == k + 1,
                row@.map_values(|f: String| f@) == seq![stressor_label(*s)] + cells@.take(k as int).map_values(
                    |v: u32| cell_text(v),
                ),
            decreases cells@.len() - k,
        {
            let ghost before = row@;
            let f = cell_field(cells[k]);
            row.push(f);
            assert(cells@.take(k + 1) =~= cells@.take(k as int).push(cells@[k as int]));
            assert(row@.map_values(|f: String| f@) =~= before.map_values(|f: String| f@).push(f@));
            assert(cells@.take(k + 1).map_values(|v: u32| cell_text(v)) =~= cells@.take(k as int).map_values(
                |v: u32| cell_text(v),
            ).push(cell_text(cells@[k as int])));
            assert(row@.map_values(|f: String| f@) =~= seq![stressor_label(*s)] + cells@.take(
                k + 1,
            ).map_values(|v: u32| cell_text(v)));
            k = k + 1;
        }
        assert(cells@.take(k as int) =~= cells@);
        let ghost before = rows@;
        rows.push(row);
        proof {
            assert(rows_text(rows@) =~= rows_text(before).push(matrix_row(*matrix, i as int)));
        }
        i = i + 1;
    }
    rows
}

} // verus!
