//! What the native panel is told beyond the rows themselves.
//!
//! Presentation lives in the panel's own code; the program hands it the rows
//! and reads back what was chosen. Why a panel rather than a dialog: AeroSpace
//! does not manage panels, so it belongs to no workspace and is never hidden
//! or moved. It is also non-activating, so AeroSpace still reports the window
//! being slung as focused while the panel is up — which the System Events
//! dialog could not do.
use vstd::prelude::*;

use crate::picker::{row_views, Row, RowView};
use crate::text::{copy_text, views};

verus! {

/// The ids of the pinned rows, in order.
pub open spec fn pinned_ids(rows: Seq<RowView>) -> Seq<Seq<char>> {
    rows.filter(|r: RowView| r.pinned).map_values(|r: RowView| r.id)
}

/// Which folders are pinned, read back off the rows so the panel need not be
/// told twice. A pinned folder is simply one that sorted ahead of the rest.
pub fn pinned_from(rows: &[Row]) -> (r: Vec<String>)
    ensures
        views(r@) == pinned_ids(row_views(rows@)),
{
    let ghost all = row_views(rows@);
    let ghost keep = |r: RowView| r.pinned;
    let mut out: Vec<String> = Vec::new();
    let mut i: usize = 0;
    while i < rows.len()
        invariant
            i <= rows@.len(),
            all == row_views(rows@),
            keep == (|r: RowView| r.pinned),
            views(out@) == all.take(i as int).filter(keep).map_values(|r: RowView| r.id),
        decreases rows.len() - i,
    {
        proof {
            assert(all.take(i + 1) =~= all.take(i as int).push(all[i as int]));
            all.take(i as int).lemma_filter_push(all[i as int], keep);
        }
        if rows[i].pinned {
            let ghost before = out@;
            out.push(copy_text(&rows[i].id));
            assert(views(out@) =~= views(before).push(all[i as int].id));
            assert(all.take(i + 1).filter(keep).map_values(|r: RowView| r.id) =~= all.take(
                i as int,
            ).filter(keep).map_values(|r: RowView| r.id).push(all[i as int].id));
        }
        i += 1;
    }
    assert(all.take(all.len() as int) =~= all);
    out
}

} // verus!
