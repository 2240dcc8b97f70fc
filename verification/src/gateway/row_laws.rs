//! What holds of the rows that the gateway answers with.

use vstd::prelude::*;

use crate::gateway::hex::hex_of;
use crate::gateway::json::{law_member_is_found, member, value_json, JsonView};
use crate::gateway::response::{block_rows, row_members};
use crate::query::ast::BlockView;

verus! {

proof fn lemma_others_so_far(b: BlockView, row: int, n: nat, name: Seq<char>)
    requires
        n <= b.columns.len(),
        forall|d: int| 0 <= d < n ==> (#[trigger] b.columns[d]).name != name,
    ensures
        member(row_members(b, row, n), name) == member(row_members(b, row, 0), name),
    decreases n,
{
    if n > 0 {
        let last = b.columns[n - 1];
        let before = row_members(b, row, (n - 1) as nat);
        law_member_is_found(before, last.name, value_json(last.values[row]), name);
        lemma_others_so_far(b, row, (n - 1) as nat, name);
    }
}

/// There is one row for each entity of a block, in order. A row has under the name of a
/// column the value that the entity has in it, and, where no column is named so, the
/// entity's identifier under `id`.
pub proof fn law_rows_show_the_block(b: BlockView, row: int, c: int)
    requires
        0 <= row < b.ids.len(),
        0 <= c < b.columns.len(),
        forall|d: int|
            c < d < b.columns.len() ==> (#[trigger] b.columns[d]).name != b.columns[c].name,
    ensures
        block_rows(b).len() == b.ids.len(),
        block_rows(b)[row] matches JsonView::Object(m) && member(m, b.columns[c].name) == Some(
            value_json(b.columns[c].values[row]),
        ) && ((forall|d: int| 0 <= d < b.columns.len() ==> (#[trigger] b.columns[d]).name != "id"@)
            ==> member(m, "id"@) == Some(JsonView::Text(hex_of(b.ids[row])))),
{
    let n = b.columns.len();
    lemma_column_so_far(b, row, n, c);
    if forall|d: int| 0 <= d < b.columns.len() ==> (#[trigger] b.columns[d]).name != "id"@ {
        lemma_others_so_far(b, row, n, "id"@);
        assert(row_members(b, row, 0)[0].0 == "id"@);
    }
}

proof fn lemma_column_so_far(b: BlockView, row: int, n: nat, c: int)
    requires
        0 <= c < n <= b.columns.len(),
        forall|d: int| c < d < n ==> (#[trigger] b.columns[d]).name != b.columns[c].name,
    ensures
        member(row_members(b, row, n), b.columns[c].name) == Some(
            value_json(b.columns[c].values[row]),
        ),
    decreases n,
{
    let last = b.columns[n - 1];
    let before = row_members(b, row, (n - 1) as nat);
    law_member_is_found(before, last.name, value_json(last.values[row]), b.columns[c].name);
    if c < n - 1 {
        assert(last.name != b.columns[c].name);
        lemma_column_so_far(b, row, (n - 1) as nat, c);
    }
}

} // verus!
