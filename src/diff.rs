use vstd::prelude::*;

use crate::item::{ids_unique, items_view, ItemView, ShopItem};

verus! {

/// Position of the last item with id `id`, or -1 when there is none.
pub open spec fn index_of_id(c: Seq<ItemView>, id: usize) -> int
    decreases c.len(),
{
    if c.len() == 0 {
        -1
    } else if c.last().id == id {
        c.len() - 1
    } else {
        index_of_id(c.drop_last(), id)
    }
}

/// Some item of `c` has id `id`.
pub open spec fn has_id(c: Seq<ItemView>, id: usize) -> bool {
    index_of_id(c, id) >= 0
}

/// The items of `c`, in order, whose id does not occur in `other`.
pub open spec fn absent_from(c: Seq<ItemView>, other: Seq<ItemView>) -> Seq<ItemView>
    decreases c.len(),
{
    if c.len() == 0 {
        seq![]
    } else {
        let rest = absent_from(c.drop_last(), other);
        if has_id(other, c.last().id) {
            rest
        } else {
            rest.push(c.last())
        }
    }
}

/// Items of the new catalog whose id the old one lacks.
pub open spec fn added(old: Seq<ItemView>, new: Seq<ItemView>) -> Seq<ItemView> {
    absent_from(new, old)
}

/// Items of the old catalog whose id the new one lacks.
pub open spec fn removed(old: Seq<ItemView>, new: Seq<ItemView>) -> Seq<ItemView> {
    absent_from(old, new)
}

/// For each item of the new catalog, in order, whose id the old catalog has
/// with different content: the old item and the new one.
pub open spec fn changed_pairs(old: Seq<ItemView>, new: Seq<ItemView>) -> Seq<(ItemView, ItemView)>
    decreases new.len(),
{
    if new.len() == 0 {
        seq![]
    } else {
        let rest = changed_pairs(old, new.drop_last());
        let x = new.last();
        let j = index_of_id(old, x.id);
        if j >= 0 && old[j] != x {
            rest.push((old[j], x))
        } else {
            rest
        }
    }
}

/// The new sides of changed pairs.
pub open spec fn pair_news(s: Seq<(ItemView, ItemView)>) -> Seq<ItemView> {
    s.map_values(|p: (ItemView, ItemView)| p.1)
}

pub open spec fn pairs_view(s: Seq<(ShopItem, ShopItem)>) -> Seq<(ItemView, ItemView)> {
    s.map_values(|p: (ShopItem, ShopItem)| (p.0@, p.1@))
}

/// The change between two catalogs.
#[derive(Debug)]
pub struct ItemDiff {
    pub new_items: Vec<ShopItem>,
    pub deleted_items: Vec<ShopItem>,
    pub updated_items: Vec<(ShopItem, ShopItem)>,
}

impl ItemDiff {
    /// No item was added, removed or changed.
    pub fn is_empty(&self) -> (r: bool)
        ensures
            r == (self.new_items@.len() == 0 && self.deleted_items@.len() == 0
                && self.updated_items@.len() == 0),
    {
        self.new_items.len() == 0 && self.deleted_items.len() == 0 && self.updated_items.len() == 0
    }
}

/// Position of the last item with id `id`.
pub fn find_by_id(items: &Vec<ShopItem>, id: usize) -> (r: Option<usize>)
    ensures
        match r {
            Some(j) => j == index_of_id(items_view(items@), id) && j < items@.len()
                && items@[j as int].id == id,
            None => index_of_id(items_view(items@), id) == -1,
        },
{
    let ghost v = items_view(items@);
    let mut i: usize = items.len();
    assert(v.subrange(0, i as int) =~= v);
    while i > 0
        invariant
            v == items_view(items@),
            i <= items@.len(),
            index_of_id(v.subrange(0, i as int), id) == index_of_id(v, id),
        decreases i,
    {
        assert(v.subrange(0, i as int).drop_last() =~= v.subrange(0, i - 1));
        if items[i - 1].id == id {
            return Some(i - 1);
        }
        i = i - 1;
    }
    None
}

fn absent_items(c: &Vec<ShopItem>, other: &Vec<ShopItem>) -> (r: Vec<ShopItem>)
    ensures
        items_view(r@) == absent_from(items_view(c@), items_view(other@)),
{
    let ghost v = items_view(c@);
    let ghost o = items_view(other@);
    let mut r: Vec<ShopItem> = Vec::new();
    let mut i: usize = 0;
    while i < c.len()
        invariant
            v == items_view(c@),
            o == items_view(other@),
            i <= c@.len(),
            items_view(r@) == absent_from(v.subrange(0, i as int), o),
        decreases c@.len() - i,
    {
        assert(v.subrange(0, i + 1).drop_last() =~= v.subrange(0, i as int));
        let found = find_by_id(other, c[i].id);
        if found.is_none() {
            let ghost before = r@;
            r.push(c[i].copy_of());
            assert(items_view(r@) =~= items_view(before).push(c@[i as int]@));
        }
        i = i + 1;
    }
    assert(v.subrange(0, i as int) =~= v);
    r
}

fn changed_items(old: &Vec<ShopItem>, new: &Vec<ShopItem>) -> (r: Vec<(ShopItem, ShopItem)>)
    ensures
        pairs_view(r@) == changed_pairs(items_view(old@), items_view(new@)),
{
    let ghost o = items_view(old@);
    let ghost v = items_view(new@);
    let mut r: Vec<(ShopItem, ShopItem)> = Vec::new();
    let mut i: usize = 0;
    while i < new.len()
        invariant
            o == items_view(old@),
            v == items_view(new@),
            i <= new@.len(),
            pairs_view(r@) == changed_pairs(o, v.subrange(0, i as int)),
        decreases new@.len() - i,
    {
        assert(v.subrange(0, i + 1).drop_last() =~= v.subrange(0, i as int));
        let found = find_by_id(old, new[i].id);
        if let Some(j) = found {
            if !old[j].same_as(&new[i]) {
                let ghost before = r@;
                r.push((old[j].copy_of(), new[i].copy_of()));
                assert(pairs_view(r@) =~= pairs_view(before).push((o[j as int], v[i as int])));
            }
        }
        i = i + 1;
    }
    assert(v.subrange(0, i as int) =~= v);
    r
}

/// Compares two catalogs: items only in the new one (in its order), items
/// only in the old one (in its order), and items present in both with
/// different content (in the new one's order).
pub fn compute_diff(old_items: &Vec<ShopItem>, new_items: &Vec<ShopItem>) -> (d: ItemDiff)
    ensures
        items_view(d.new_items@) == added(items_view(old_items@), items_view(new_items@)),
        items_view(d.deleted_items@) == removed(items_view(old_items@), items_view(new_items@)),
        pairs_view(d.updated_items@) == changed_pairs(items_view(old_items@), items_view(new_items@)),
{
    ItemDiff {
        new_items: absent_items(new_items, old_items),
        deleted_items: absent_items(old_items, new_items),
        updated_items: changed_items(old_items, new_items),
    }
}

proof fn lemma_has_id_push(c: Seq<ItemView>, x: ItemView, id: usize)
    ensures
        has_id(c.push(x), id) == (x.id == id || has_id(c, id)),
{
    assert(c.push(x).drop_last() =~= c);
}

proof fn lemma_has_member_id(c: Seq<ItemView>, k: int)
    requires
        0 <= k < c.len(),
    ensures
        has_id(c, c[k].id),
    decreases c.len(),
{
    if c.last().id != c[k].id {
        lemma_has_member_id(c.drop_last(), k);
    }
}

proof fn lemma_index_of_id_bounds(c: Seq<ItemView>, id: usize)
    ensures
        -1 <= index_of_id(c, id) < c.len(),
        index_of_id(c, id) >= 0 ==> c[index_of_id(c, id)].id == id,
    decreases c.len(),
{
    if c.len() > 0 && c.last().id != id {
        lemma_index_of_id_bounds(c.drop_last(), id);
    }
}

proof fn lemma_has_id_last(c: Seq<ItemView>, id: usize)
    requires
        c.len() > 0,
    ensures
        has_id(c, id) == (c.last().id == id || has_id(c.drop_last(), id)),
{
}

proof fn lemma_absent_from_members(c: Seq<ItemView>, other: Seq<ItemView>, id: usize)
    ensures
        has_id(absent_from(c, other), id) == (has_id(c, id) && !has_id(other, id)),
    decreases c.len(),
{
    if c.len() > 0 {
        lemma_absent_from_members(c.drop_last(), other, id);
        let rest = absent_from(c.drop_last(), other);
        if !has_id(other, c.last().id) {
            lemma_has_id_push(rest, c.last(), id);
        }
    }
}

proof fn lemma_absent_from_covered(c: Seq<ItemView>, other: Seq<ItemView>)
    requires
        forall|k: int| 0 <= k < c.len() ==> has_id(other, #[trigger] c[k].id),
    ensures
        absent_from(c, other).len() == 0,
    decreases c.len(),
{
    if c.len() > 0 {
        assert(has_id(other, c[c.len() - 1].id));
        let d = c.drop_last();
        assert forall|k: int| 0 <= k < d.len() implies has_id(other, #[trigger] d[k].id) by {
            assert(d[k] == c[k]);
        }
        lemma_absent_from_covered(d, other);
    }
}

proof fn lemma_changed_pairs_none(old: Seq<ItemView>, new: Seq<ItemView>)
    requires
        forall|k: int|
            0 <= k < new.len() ==> index_of_id(old, #[trigger] new[k].id) >= 0
                && old[index_of_id(old, new[k].id)] == new[k],
    ensures
        changed_pairs(old, new).len() == 0,
    decreases new.len(),
{
    if new.len() > 0 {
        assert(index_of_id(old, new[new.len() - 1].id) >= 0);
        let d = new.drop_last();
        assert forall|k: int|
            0 <= k < d.len() implies index_of_id(old, #[trigger] d[k].id) >= 0
                && old[index_of_id(old, d[k].id)] == d[k] by {
            assert(d[k] == new[k]);
        }
        lemma_changed_pairs_none(old, d);
    }
}

proof fn lemma_changed_news_in_new(old: Seq<ItemView>, new: Seq<ItemView>, id: usize)
    ensures
        has_id(pair_news(changed_pairs(old, new)), id) ==> has_id(new, id),
    decreases new.len(),
{
    if new.len() > 0 {
        lemma_changed_news_in_new(old, new.drop_last(), id);
        lemma_has_id_last(new, id);
        let rest = changed_pairs(old, new.drop_last());
        let x = new.last();
        let j = index_of_id(old, x.id);
        if j >= 0 && old[j] != x {
            assert(pair_news(rest.push((old[j], x))) =~= pair_news(rest).push(x));
            lemma_has_id_push(pair_news(rest), x, id);
        }
    }
}

/// A catalog compared with itself shows no change.
pub proof fn lemma_diff_with_itself_is_empty(a: Seq<ItemView>)
    requires
        ids_unique(a),
    ensures
        added(a, a).len() == 0,
        removed(a, a).len() == 0,
        changed_pairs(a, a).len() == 0,
{
    assert forall|k: int| 0 <= k < a.len() implies has_id(a, #[trigger] a[k].id) by {
        lemma_has_member_id(a, k);
    }
    lemma_absent_from_covered(a, a);
    assert forall|k: int|
        0 <= k < a.len() implies index_of_id(a, #[trigger] a[k].id) >= 0
            && a[index_of_id(a, a[k].id)] == a[k] by {
        lemma_has_member_id(a, k);
        lemma_index_of_id_bounds(a, a[k].id);
    }
    lemma_changed_pairs_none(a, a);
}

/// What one direction reports as added, the other reports as removed, and
/// the other way round.
pub proof fn lemma_diff_antisymmetric(a: Seq<ItemView>, b: Seq<ItemView>, id: usize)
    ensures
        has_id(added(a, b), id) == has_id(removed(b, a), id),
        has_id(removed(a, b), id) == has_id(added(b, a), id),
        has_id(added(a, b), id) == (has_id(b, id) && !has_id(a, id)),
        has_id(removed(a, b), id) == (has_id(a, id) && !has_id(b, id)),
{
    lemma_absent_from_members(b, a, id);
    lemma_absent_from_members(a, b, id);
}

/// The added items, the new sides of the changed items and the old items
/// that were not removed together carry exactly the ids of the new catalog.
pub proof fn lemma_diff_rebuilds_new_ids(a: Seq<ItemView>, b: Seq<ItemView>, id: usize)
    ensures
        has_id(b, id) == (has_id(added(a, b), id) || has_id(pair_news(changed_pairs(a, b)), id)
            || (has_id(a, id) && !has_id(removed(a, b), id))),
{
    lemma_absent_from_members(b, a, id);
    lemma_absent_from_members(a, b, id);
    lemma_changed_news_in_new(a, b, id);
}

} // verus!
