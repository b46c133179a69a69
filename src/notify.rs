use vstd::prelude::*;

use crate::batch::{batch_messages, groups_view, messages_of};
use crate::block::{blocks_view, extend_blocks, Block, BlockView};
use crate::diff::{pairs_view, ItemDiff};
use crate::item::{items_view, ItemView};
use crate::render::{
    deleted_item_blocks, new_item_blocks, render_deleted_item, render_new_item,
    render_updated_item, updated_item_blocks,
};
use crate::text::{decimal, push_decimal};

verus! {

/// One message for the notification channel: a short plain-text summary and
/// its content units.
#[derive(Debug)]
pub struct Message {
    pub text: String,
    pub blocks: Vec<Block>,
}

/// The block groups of a change, one per item: new items, then changed
/// items, then removed ones, each in the diff's order.
pub open spec fn item_groups(
    added: Seq<ItemView>,
    changed: Seq<(ItemView, ItemView)>,
    gone: Seq<ItemView>,
    base: Seq<char>,
) -> Seq<Seq<BlockView>> {
    added.map_values(|i: ItemView| new_item_blocks(i, base)) + changed.map_values(
        |p: (ItemView, ItemView)| updated_item_blocks(p.0, p.1, base),
    ) + gone.map_values(|i: ItemView| deleted_item_blocks(i))
}

pub open spec fn diff_groups(d: ItemDiff, base: Seq<char>) -> Seq<Seq<BlockView>> {
    item_groups(items_view(d.new_items@), pairs_view(d.updated_items@), items_view(d.deleted_items@), base)
}

/// `Shop update: N new, M updated, K removed`.
pub open spec fn summary_text(added: nat, changed: nat, gone: nat) -> Seq<char> {
    "Shop update: "@ + decimal(added) + " new, "@ + decimal(changed) + " updated, "@ + decimal(gone)
        + " removed"@
}

/// The summary of message `k` of `total`: with ` (part k+1/total)` when
/// there is more than one.
pub open spec fn part_text(summary: Seq<char>, k: nat, total: nat) -> Seq<char> {
    if total > 1 {
        summary + " (part "@ + decimal(k + 1) + "/"@ + decimal(total) + ")"@
    } else {
        summary
    }
}

/// The block group of each item of the change.
pub fn render_groups(diff: &ItemDiff, base_url: &str) -> (r: Vec<Vec<Block>>)
    ensures
        groups_view(r@) == diff_groups(*diff, base_url@),
{
    let ghost expected = diff_groups(*diff, base_url@);
    let mut r: Vec<Vec<Block>> = Vec::new();
    let mut i: usize = 0;
    while i < diff.new_items.len()
        invariant
            expected == diff_groups(*diff, base_url@),
            i <= diff.new_items@.len(),
            groups_view(r@) =~= expected.subrange(0, i as int),
        decreases diff.new_items@.len() - i,
    {
        let ghost before = groups_view(r@);
        r.push(render_new_item(&diff.new_items[i], base_url));
        assert(groups_view(r@) =~= before.push(expected[i as int]));
        i = i + 1;
    }
    let ghost a = diff.new_items@.len();
    let mut j: usize = 0;
    while j < diff.updated_items.len()
        invariant
            expected == diff_groups(*diff, base_url@),
            a == diff.new_items@.len(),
            j <= diff.updated_items@.len(),
            groups_view(r@) =~= expected.subrange(0, a + j),
        decreases diff.updated_items@.len() - j,
    {
        let (o, n) = &diff.updated_items[j];
        let ghost before = groups_view(r@);
        r.push(render_updated_item(o, n, base_url));
        assert(groups_view(r@) =~= before.push(expected[a + j]));
        j = j + 1;
    }
    let ghost b = a + diff.updated_items@.len();
    let mut k: usize = 0;
    while k < diff.deleted_items.len()
        invariant
            expected == diff_groups(*diff, base_url@),
            b == diff.new_items@.len() + diff.updated_items@.len(),
            k <= diff.deleted_items@.len(),
            groups_view(r@) =~= expected.subrange(0, b + k),
        decreases diff.deleted_items@.len() - k,
    {
        let ghost before = groups_view(r@);
        r.push(render_deleted_item(&diff.deleted_items[k]));
        assert(groups_view(r@) =~= before.push(expected[b + k]));
        k = k + 1;
    }
    assert(groups_view(r@) =~= expected);
    r
}

/// The plain-text summary of a change.
pub fn summary(diff: &ItemDiff) -> (r: String)
    ensures
        r@ == summary_text(
            diff.new_items@.len(),
            diff.updated_items@.len(),
            diff.deleted_items@.len(),
        ),
{
    let mut out = String::from_str("Shop update: ");
    push_decimal(&mut out, diff.new_items.len() as u64);
    out.append(" new, ");
    push_decimal(&mut out, diff.updated_items.len() as u64);
    out.append(" updated, ");
    push_decimal(&mut out, diff.deleted_items.len() as u64);
    out.append(" removed");
    out
}

/// The messages that announce a change, in the order they are to be sent:
/// the item groups split by `batch_messages`, each with the summary. No
/// change, no message.
pub fn notification_messages(diff: &ItemDiff, base_url: &str) -> (r: Vec<Message>)
    ensures
        r@.len() == messages_of(diff_groups(*diff, base_url@)).len(),
        forall|k: int|
            0 <= k < r@.len() ==> blocks_view((#[trigger] r@[k]).blocks@) == messages_of(
                diff_groups(*diff, base_url@),
            )[k] && r@[k].text@ == part_text(
                summary_text(
                    diff.new_items@.len(),
                    diff.updated_items@.len(),
                    diff.deleted_items@.len(),
                ),
                k as nat,
                r@.len(),
            ),
        diff.new_items@.len() == 0 && diff.updated_items@.len() == 0 && diff.deleted_items@.len()
            == 0 ==> r@.len() == 0,
{
    let groups = render_groups(diff, base_url);
    let batches = batch_messages(&groups);
    let text = summary(diff);
    let total = batches.len();
    let ghost expected = messages_of(diff_groups(*diff, base_url@));
    assert(groups_view(batches@) == expected);
    let mut r: Vec<Message> = Vec::new();
    let mut k: usize = 0;
    while k < total
        invariant
            total == batches@.len(),
            groups_view(batches@) == expected,
            k <= total,
            expected.len() == total,
            r@.len() == k,
            forall|j: int|
                0 <= j < k ==> blocks_view((#[trigger] r@[j]).blocks@) == expected[j]
                    && r@[j].text@ == part_text(text@, j as nat, total as nat),
        decreases total - k,
    {
        let mut blocks: Vec<Block> = Vec::new();
        extend_blocks(&mut blocks, &batches[k]);
        assert(blocks_view(blocks@) =~= expected[k as int]) by {
            assert(groups_view(batches@)[k as int] == blocks_view(batches@[k as int]@));
        }
        let mut t = text.clone();
        if total > 1 {
            t.append(" (part ");
            push_decimal(&mut t, (k + 1) as u64);
            t.append("/");
            push_decimal(&mut t, total as u64);
            t.append(")");
        }
        r.push(Message { text: t, blocks });
        k = k + 1;
    }
    r
}

} // verus!
