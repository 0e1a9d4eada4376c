//! The contagion report: the findings of the analyses written as Markdown.

use vstd::prelude::*;
use vstd::string::StringExecFns;
use crate::model::{component_label, stressor_label, Component, ComponentView, Stressor};
use crate::text::{decimal, join, push_decimal};

verus! {

/// The texts joined end to end.
pub open spec fn concat(parts: Seq<Seq<char>>) -> Seq<char>
    decreases parts.len(),
{
    if parts.len() == 0 {
        Seq::empty()
    } else {
        concat(parts.drop_last()) + parts.last()
    }
}

/// The report line of a coupled pair.
pub open spec fn coupling_line(t: (ComponentView, ComponentView, u32)) -> Seq<char> {
    "- "@ + component_label(t.0) + " and "@ + component_label(t.1) + " have "@ + decimal(t.2 as nat)
        + " common stressors\n"@
}

/// The report line of a cluster of merge candidates.
pub open spec fn cluster_line(members: Seq<ComponentView>) -> Seq<char> {
    "- "@ + join(members.map_values(|c: ComponentView| component_label(c)), ", "@) + "\n"@
}

/// The report line of a stressor with its row total.
pub open spec fn row_total_line(t: (Stressor, u32)) -> Seq<char> {
    "|"@ + stressor_label(t.0) + "|"@ + decimal(t.1 as nat) + "|\n"@
}

/// The report line of a component with its column total.
pub open spec fn column_total_line(t: (ComponentView, u32)) -> Seq<char> {
    "|"@ + component_label(t.0) + "|"@ + decimal(t.1 as nat) + "|\n"@
}

/// The report line of an untouched component.
pub open spec fn untouched_line(c: ComponentView) -> Seq<char> {
    "- "@ + component_label(c) + " - hit by 0 stressors\n"@
}

/// The pairs as values.
pub open spec fn pair_views(v: Seq<(&Component, &Component, u32)>) -> Seq<(ComponentView, ComponentView, u32)> {
    v.map_values(|t: (&Component, &Component, u32)| (t.0@, t.1@, t.2))
}

/// The clusters as values.
pub open spec fn cluster_views(v: Seq<Vec<&Component>>) -> Seq<Seq<ComponentView>> {
    v.map_values(|g: Vec<&Component>| g@.map_values(|c: &Component| c@))
}

/// The stressor totals as values.
pub open spec fn row_total_views(v: Seq<(&Stressor, u32)>) -> Seq<(Stressor, u32)> {
    v.map_values(|t: (&Stressor, u32)| (*t.0, t.1))
}

/// The component totals as values.
pub open spec fn column_total_views(v: Seq<(&Component, u32)>) -> Seq<(ComponentView, u32)> {
    v.map_values(|t: (&Component, u32)| (t.0@, t.1))
}

/// The components as values.
pub open spec fn component_list_views(v: Seq<&Component>) -> Seq<ComponentView> {
    v.map_values(|c: &Component| c@)
}

fn coupling_section(couplings: &[(&Component, &Component, u32)]) -> (r: String)
    ensures
        r@ == concat(pair_views(couplings@).map_values(|t: (ComponentView, ComponentView, u32)| coupling_line(t))),
{
    let ghost lines = pair_views(couplings@).map_values(|t: (ComponentView, ComponentView, u32)| coupling_line(t));
    let mut r = String::new();
    let mut k: usize = 0;
    assert(lines.take(0) =~= Seq::<Seq<char>>::empty());
    while k < couplings.len()
        invariant
            lines == pair_views(couplings@).map_values(|t: (ComponentView, ComponentView, u32)| coupling_line(t)),
            k <= couplings@.len(),
            r@ == concat(lines.take(k as int)),
        decreases couplings@.len() - k,
    {
        let (a, b, n) = couplings[k];
        let ghost before = r@;
        r.append("- ");
        r.append(a.to_string().as_str());
        r.append(" and ");
        r.append(b.to_string().as_str());
        r.append(" have ");
        push_decimal(&mut r, n as usize);
        r.append(" common stressors\n");
        proof {
            assert(lines.take(k + 1).drop_last() =~= lines.take(k as int));
            assert(lines[k as int] == coupling_line((a@, b@, n)));
            assert(r@ =~= before + lines[k as int]);
        }
        k = k + 1;
    }
    assert(lines.take(k as int) =~= lines);
    r
}

fn cluster_text(members: &Vec<&Component>) -> (r: String)
    ensures
        r@ == join(members@.map_values(|c: &Component| c@).map_values(|c: ComponentView| component_label(c)), ", "@),
{
    let ghost labels = members@.map_values(|c: &Component| c@).map_values(|c: ComponentView| component_label(c));
    let mut r = String::new();
    let mut k: usize = 0;
    assert(labels.take(0) =~= Seq::<Seq<char>>::empty());
    while k < members.len()
        invariant
            labels == members@.map_values(|c: &Component| c@).map_values(|c: ComponentView| component_label(c)),
            k <= members@.len(),
            r@ == join(labels.take(k as int), ", "@),
        decreases members@.len() - k,
    {
        let ghost before = r@;
        if k > 0 {
            r.append(", ");
        }
        let label = members[k].to_string();
        r.append(label.as_str());
        proof {
            assert(labels.take(k + 1).drop_last() =~= labels.take(k as int));
            assert(labels.take(k + 1).last() == label@);
        }
        k = k + 1;
    }
    assert(labels.take(k as int) =~= labels);
    r
}

fn cluster_section(clusters: &[Vec<&Component>]) -> (r: String)
    ensures
        r@ == concat(cluster_views(clusters@).map_values(|g: Seq<ComponentView>| cluster_line(g))),
{
    let ghost lines = cluster_views(clusters@).map_values(|g: Seq<ComponentView>| cluster_line(g));
    let mut r = String::new();
    let mut k: usize = 0;
    assert(lines.take(0) =~= Seq::<Seq<char>>::empty());
    while k < clusters.len()
        invariant
            lines == cluster_views(clusters@).map_values(|g: Seq<ComponentView>| cluster_line(g)),
            k <= clusters@.len(),
            r@ == concat(lines.take(k as int)),
        decreases clusters@.len() - k,
    {
        let ghost before = r@;
        r.append("- ");
        let text = cluster_text(&clusters[k]);
        r.append(text.as_str());
        r.append("\n");
        proof {
            assert(lines.take(k + 1).drop_last() =~= lines.take(k as int));
            assert(r@ =~= before + lines[k as int]);
        }
        k = k + 1;
    }
    assert(lines.take(k as int) =~= lines);
    r
}

fn row_total_section(rows: &[(&Stressor, u32)]) -> (r: String)
    ensures
        r@ == concat(row_total_views(rows@).map_values(|t: (Stressor, u32)| row_total_line(t))),
{
    let ghost lines = row_total_views(rows@).map_values(|t: (Stressor, u32)| row_total_line(t));
    let mut r = String::new();
    let mut k: usize = 0;
    assert(lines.take(0) =~= Seq::<Seq<char>>::empty());
    while k < rows.len()
        invariant
            lines == row_total_views(rows@).map_values(|t: (Stressor, u32)| row_total_line(t)),
            k <= rows@.len(),
            r@ == concat(lines.take(k as int)),
        decreases rows@.len() - k,
    {
        let (s, n) = rows[k];
        let ghost before = r@;
        r.append("|");
        r.append(s.to_string().as_str());
        r.append("|");
        push_decimal(&mut r, n as usize);
        r.append("|\n");
        proof {
            assert(lines.take(k + 1).drop_last() =~= lines.take(k as int));
            assert(r@ =~= before + lines[k as int]);
        }
        k = k + 1;
    }
    assert(lines.take(k as int) =~= lines);
    r
}

fn column_total_section(cols: &[(&Component, u32)]) -> (r: String)
    ensures
        r@ == concat(column_total_views(cols@).map_values(|t: (ComponentView, u32)| column_total_line(t))),
{
    let ghost lines = column_total_views(cols@).map_values(|t: (ComponentView, u32)| column_total_line(t));
    let mut r = String::new();
    let mut k: usize = 0;
    assert(lines.take(0) =~= Seq::<Seq<char>>::empty());
    while k < cols.len()
        invariant
            lines == column_total_views(cols@).map_values(|t: (ComponentView, u32)| column_total_line(t)),
            k <= cols@.len(),
            r@ == concat(lines.take(k as int)),
        decreases cols@.len() - k,
    {
        let (c, n) = cols[k];
        let ghost before = r@;
        r.append("|");
        r.append(c.to_string().as_str());
        r.append("|");
        push_decimal(&mut r, n as usize);
        r.append("|\n");
        proof {
            assert(lines.take(k + 1).drop_last() =~= lines.take(k as int));
            assert(r@ =~= before + lines[k as int]);
        }
        k = k + 1;
    }
    assert(lines.take(k as int) =~= lines);
    r
}

fn untouched_section(untouched: &[&Component]) -> (r: String)
    ensures
        r@ == concat(component_list_views(untouched@).map_values(|c: ComponentView| untouched_line(c))),
{
    let ghost lines = component_list_views(untouched@).map_values(|c: ComponentView| untouched_line(c));
    let mut r = String::new();
    let mut k: usize = 0;
    assert(lines.take(0) =~= Seq::<Seq<char>>::empty());
    while k < untouched.len()
        invariant
            lines == component_list_views(untouched@).map_values(|c: ComponentView| untouched_line(c)),
            k <= untouched@.len(),
            r@ == concat(lines.take(k as int)),
        decreases untouched@.len() - k,
    {
        let ghost before = r@;
        r.append("- ");
        r.append(untouched[k].to_string().as_str());
        r.append(" - hit by 0 stressors\n");
        proof {
            assert(lines.take(k + 1).drop_last() =~= lines.take(k as int));
            assert(r@ =~= before + lines[k as int]);
        }
        k = k + 1;
    }
    assert(lines.take(k as int) =~= lines);
    r
}

/// The contagion report: a title, then the coupled pairs, the merge
/// candidates, the highest row and column totals and the untouched
/// components, each section headed by the number of its entries.
pub open spec fn report_text(
    n_components: nat,
    n_stressors: nat,
    couplings: Seq<(ComponentView, ComponentView, u32)>,
    clusters: Seq<Seq<ComponentView>>,
    rows: Seq<(Stressor, u32)>,
    cols: Seq<(ComponentView, u32)>,
    untouched: Seq<ComponentView>,
) -> Seq<char> {
    "# Contagion Triggers\n"@ + "_Generated from "@ + decimal(n_components) + " components × "@
        + decimal(n_stressors) + " stressors._\n"@ + "\n"@
    + "### "@ + decimal(couplings.len()) + " Coupled pairs (hidden hyperliminal coupling)\n"@
        + "Rows where one stressor hits ≥2 components. If those components aren't functionally linked, this coupling is invisible until the stressor actually occurs.\n"@
        + "\n"@ + concat(couplings.map_values(|t: (ComponentView, ComponentView, u32)| coupling_line(t)))
        + "\n"@
    + "### "@ + decimal(clusters.len()) + " Merge candidates (identical stress response)\n"@
        + "Components whose columns are identical, they live and die together, so a change in one usually means a change in the other.\n"@
        + "\n"@ + concat(clusters.map_values(|g: Seq<ComponentView>| cluster_line(g))) + "\n"@
    + "### "@ + decimal(rows.len()) + " Highest row totals (most impactful stressors)\n"@
        + "High totals here concentrate hyperliminal coupling, often a non-functional concern.\n"@
        + "\n"@ + "|Stressor|Components hit|\n"@ + "|---|---|\n"@ + concat(
        rows.map_values(|t: (Stressor, u32)| row_total_line(t)),
    ) + "\n"@
    + "### "@ + decimal(cols.len()) + " Highest column totals (most stress-sensitive components)\n"@
        + "Doing too much, or genuinely load-bearing. If the latter, apply redundancy.\n"@ + "\n"@
        + "|Component|Stressors hitting it|\n"@ + "|---|---|\n"@ + concat(
        cols.map_values(|t: (ComponentView, u32)| column_total_line(t)),
    ) + "\n"@
    + "### "@ + decimal(untouched.len()) + " Untouched components\n"@
        + "Likely under-stressed rather than invulnerable. Add more stressors touching it.\n"@ + "\n"@
        + concat(untouched.map_values(|c: ComponentView| untouched_line(c)))
}

/// Writes the contagion report from the results of the analyses.
pub fn contagion_report(
    n_components: usize,
    n_stressors: usize,
    couplings: &[(&Component, &Component, u32)],
    clusters: &[Vec<&Component>],
    rows: &[(&Stressor, u32)],
    cols: &[(&Component, u32)],
    untouched: &[&Component],
) -> (r: String)
    ensures
        r@ == report_text(
            n_components as nat,
            n_stressors as nat,
            pair_views(couplings@),
            cluster_views(clusters@),
            row_total_views(rows@),
            column_total_views(cols@),
            component_list_views(untouched@),
        ),
{
    let mut r = String::from_str("# Contagion Triggers\n");
    r.append("_Generated from ");
    push_decimal(&mut r, n_components);
    r.append(" components × ");
    push_decimal(&mut r, n_stressors);
    r.append(" stressors._\n");
    r.append("\n");

    r.append("### ");
    push_decimal(&mut r, couplings.len());
    r.append(" Coupled pairs (hidden hyperliminal coupling)\n");
    r.append(
        "Rows where one stressor hits ≥2 components. If those components aren't functionally linked, this coupling is invisible until the stressor actually occurs.\n",
    );
    r.append("\n");
    r.append(coupling_section(couplings).as_str());
    r.append("\n");

    r.append("### ");
    push_decimal(&mut r, clusters.len());
    r.append(" Merge candidates (identical stress response)\n");
    r.append(
        "Components whose columns are identical, they live and die together, so a change in one usually means a change in the other.\n",
    );
    r.append("\n");
    r.append(cluster_section(clusters).as_str());
    r.append("\n");

    r.append("### ");
    push_decimal(&mut r, rows.len());
    r.append(" Highest row totals (most impactful stressors)\n");
    r.append("High totals here concentrate hyperliminal coupling, often a non-functional concern.\n");
    r.append("\n");
    r.append("|Stressor|Components hit|\n");
    r.append("|---|---|\n");
    r.append(row_total_section(rows).as_str());
    r.append("\n");

    r.append("### ");
    push_decimal(&mut r, cols.len());
    r.append(" Highest column totals (most stress-sensitive components)\n");
    r.append("Doing too much, or genuinely load-bearing. If the latter, apply redundancy.\n");
    r.append("\n");
    r.append("|Component|Stressors hitting it|\n");
    r.append("|---|---|\n");
    r.append(column_total_section(cols).as_str());
    r.append("\n");

    r.append("### ");
    push_decimal(&mut r, untouched.len());
    r.append(" Untouched components\n");
    r.append("Likely under-stressed rather than invulnerable. Add more stressors touching it.\n");
    r.append("\n");
    r.append(untouched_section(untouched).as_str());
    assert(pair_views(couplings@).len() == couplings@.len());
    assert(cluster_views(clusters@).len() == clusters@.len());
    assert(row_total_views(rows@).len() == rows@.len());
    assert(column_total_views(cols@).len() == cols@.len());
    assert(component_list_views(untouched@).len() == untouched@.len());
    assert(r@ =~= report_text(
        n_components as nat,
        n_stressors as nat,
        pair_views(couplings@),
        cluster_views(clusters@),
        row_total_views(rows@),
        column_total_views(cols@),
        component_list_views(untouched@),
    ));
    r
}

} // verus!
