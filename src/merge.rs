use vstd::prelude::*;

use crate::item::{
    ids_unique, accessories_sorted, accessories_view, copy_opt_string, opt_view, items_view, sorted_by_id, Accessory, AccessoryView,
    ItemView, ShopItem,
};
use crate::prices::{no_prices, PriceMap};
use crate::region::{Region, REGION_COUNT};

verus! {

/// One item as a region's listing shows it.
#[derive(Clone, Debug)]
pub struct RawItem {
    pub id: usize,
    pub title: String,
    pub description: String,
    pub price: u32,
    pub image_url: String,
    pub image_id: u64,
}

pub struct RawItemView {
    pub id: usize,
    pub title: Seq<char>,
    pub description: Seq<char>,
    pub price: u32,
    pub image_url: Seq<char>,
    pub image_id: u64,
}

impl View for RawItem {
    type V = RawItemView;

    open spec fn view(&self) -> RawItemView {
        RawItemView {
            id: self.id,
            title: self.title@,
            description: self.description@,
            price: self.price,
            image_url: self.image_url@,
            image_id: self.image_id,
        }
    }
}

/// One accessory option as an item's detail page shows it in one region.
#[derive(Clone, Debug)]
pub struct RawAccessory {
    pub id: usize,
    pub name: String,
    pub price: u32,
}

pub struct RawAccessoryView {
    pub id: usize,
    pub name: Seq<char>,
    pub price: u32,
}

impl View for RawAccessory {
    type V = RawAccessoryView;

    open spec fn view(&self) -> RawAccessoryView {
        RawAccessoryView { id: self.id, name: self.name@, price: self.price }
    }
}

/// What an item's detail page shows in one region.
#[derive(Clone, Debug)]
pub struct ItemDetail {
    pub id: usize,
    pub long_description: Option<String>,
    pub stock: Option<u32>,
    pub accessories: Vec<RawAccessory>,
}

pub struct ItemDetailView {
    pub id: usize,
    pub long_description: Option<Seq<char>>,
    pub stock: Option<u32>,
    pub accessories: Seq<RawAccessoryView>,
}

impl View for ItemDetail {
    type V = ItemDetailView;

    open spec fn view(&self) -> ItemDetailView {
        ItemDetailView {
            id: self.id,
            long_description: opt_view(self.long_description),
            stock: self.stock,
            accessories: self.accessories@.map_values(|a: RawAccessory| a@),
        }
    }
}

/// Number of ids below `id`; in an ascending sequence, where `id` is or would go.
pub open spec fn count_below(ids: Seq<usize>, id: usize) -> nat
    decreases ids.len(),
{
    if ids.len() == 0 {
        0
    } else {
        count_below(ids.drop_last(), id) + if ids.last() < id { 1nat } else { 0nat }
    }
}

pub open spec fn ascending(ids: Seq<usize>) -> bool {
    forall|i: int, j: int| 0 <= i < j < ids.len() ==> ids[i] < ids[j]
}

pub open spec fn item_ids(c: Seq<ItemView>) -> Seq<usize> {
    c.map_values(|x: ItemView| x.id)
}

pub open spec fn accessory_ids(a: Seq<AccessoryView>) -> Seq<usize> {
    a.map_values(|x: AccessoryView| x.id)
}

/// An item first seen in region `r`: its one price is that region's.
pub open spec fn new_item_view(x: RawItemView, r: nat) -> ItemView {
    ItemView {
        id: x.id,
        title: x.title,
        description: x.description,
        long_description: None,
        image_url: x.image_url,
        image_id: x.image_id,
        prices: no_prices().update(r as int, Some(x.price)),
        accessories: seq![],
        stock: None,
    }
}

/// Folds one listed item of region `r` into an id-sorted catalog: a known id
/// gets the region's price (replacing an earlier one for that region), a new
/// id is inserted at its place with that single price.
pub open spec fn merge_item(c: Seq<ItemView>, r: nat, x: RawItemView) -> Seq<ItemView> {
    let p = count_below(item_ids(c), x.id) as int;
    if p < c.len() && c[p].id == x.id {
        c.update(p, ItemView { prices: c[p].prices.update(r as int, Some(x.price)), ..c[p] })
    } else {
        c.insert(p, new_item_view(x, r))
    }
}

/// Folds a region's listing into the catalog, item by item.
pub open spec fn merge_listing(c: Seq<ItemView>, r: nat, xs: Seq<RawItemView>) -> Seq<ItemView>
    decreases xs.len(),
{
    if xs.len() == 0 {
        c
    } else {
        merge_item(merge_listing(c, r, xs.drop_last()), r, xs.last())
    }
}

/// Folds one accessory of region `r` into an id-sorted accessory list: the
/// first price seen for a region is kept, a new id is inserted at its place.
pub open spec fn merge_accessory(a: Seq<AccessoryView>, r: nat, x: RawAccessoryView) -> Seq<AccessoryView> {
    let p = count_below(accessory_ids(a), x.id) as int;
    if p < a.len() && a[p].id == x.id {
        if a[p].prices[r as int] is Some {
            a
        } else {
            a.update(p, AccessoryView { prices: a[p].prices.update(r as int, Some(x.price)), ..a[p] })
        }
    } else {
        a.insert(p, AccessoryView { id: x.id, name: x.name, prices: no_prices().update(r as int, Some(x.price)) })
    }
}

pub open spec fn merge_accessories(a: Seq<AccessoryView>, r: nat, xs: Seq<RawAccessoryView>) -> Seq<AccessoryView>
    decreases xs.len(),
{
    if xs.len() == 0 {
        a
    } else {
        merge_accessory(merge_accessories(a, r, xs.drop_last()), r, xs.last())
    }
}

/// A long description that is present and not empty.
pub open spec fn has_text(o: Option<Seq<char>>) -> bool {
    o is Some && o->Some_0.len() > 0
}

/// An item with a region's detail record folded in: the first non-empty
/// long description and the first stock seen are kept (an empty description
/// counts as none), accessories accumulate.
pub open spec fn with_detail(it: ItemView, r: nat, d: ItemDetailView) -> ItemView {
    ItemView {
        long_description: if has_text(it.long_description) {
            it.long_description
        } else if has_text(d.long_description) {
            d.long_description
        } else {
            None
        },
        stock: if it.stock is Some {
            it.stock
        } else {
            d.stock
        },
        accessories: merge_accessories(it.accessories, r, d.accessories),
        ..it
    }
}

/// Folds a detail record of region `r` into the catalog; a record for an id
/// the catalog lacks changes nothing.
pub open spec fn merge_detail(c: Seq<ItemView>, r: nat, d: ItemDetailView) -> Seq<ItemView> {
    let p = count_below(item_ids(c), d.id) as int;
    if p < c.len() && c[p].id == d.id {
        c.update(p, with_detail(c[p], r, d))
    } else {
        c
    }
}

/// Folds a region's detail records into the catalog, one by one.
pub open spec fn merge_details(c: Seq<ItemView>, r: nat, ds: Seq<ItemDetailView>) -> Seq<ItemView>
    decreases ds.len(),
{
    if ds.len() == 0 {
        c
    } else {
        merge_detail(merge_details(c, r, ds.drop_last()), r, ds.last())
    }
}

/// Every item's prices and its accessories' prices have one slot per region.
pub open spec fn catalog_wf(c: Seq<ItemView>) -> bool {
    &&& sorted_by_id(c)
    &&& forall|i: int| 0 <= i < c.len() ==> item_wf(#[trigger] c[i])
}

pub open spec fn item_wf(x: ItemView) -> bool {
    &&& x.prices.len() == REGION_COUNT
    &&& accessories_sorted(x.accessories)
    &&& forall|k: int| 0 <= k < x.accessories.len() ==> (#[trigger] x.accessories[k]).prices.len() == REGION_COUNT
}

proof fn lemma_count_below(ids: Seq<usize>, id: usize, i: int)
    requires
        0 <= i <= ids.len(),
        forall|k: int| 0 <= k < i ==> ids[k] < id,
        forall|k: int| i <= k < ids.len() ==> ids[k] >= id,
    ensures
        count_below(ids, id) == i,
    decreases ids.len(),
{
    if ids.len() > 0 {
        if ids.len() > i {
            lemma_count_below(ids.drop_last(), id, i);
        } else {
            lemma_count_below(ids.drop_last(), id, i - 1);
        }
    }
}

proof fn lemma_count_below_split(ids: Seq<usize>, id: usize)
    requires
        ascending(ids),
    ensures
        count_below(ids, id) <= ids.len(),
        forall|k: int| 0 <= k < count_below(ids, id) ==> ids[k] < id,
        forall|k: int| count_below(ids, id) <= k < ids.len() ==> ids[k] >= id,
    decreases ids.len(),
{
    if ids.len() > 0 {
        let d = ids.drop_last();
        assert forall|i: int, j: int| 0 <= i < j < d.len() implies d[i] < d[j] by {
            assert(d[i] == ids[i] && d[j] == ids[j]);
        }
        lemma_count_below_split(d, id);
        let q = count_below(d, id);
        if ids.last() < id {
            assert forall|k: int| 0 <= k < d.len() implies d[k] < id by {
                assert(ids[k] < ids[ids.len() - 1]);
            }
            if q < d.len() {
                assert(d[q as int] >= id);
            }
            assert(count_below(ids, id) == ids.len());
            assert forall|k: int| 0 <= k < ids.len() implies ids[k] < id by {
                if k < d.len() {
                    assert(d[k] == ids[k]);
                }
            }
        } else {
            assert(count_below(ids, id) == q);
            assert forall|k: int| 0 <= k < q implies ids[k] < id by {
                assert(d[k] == ids[k]);
            }
            assert forall|k: int| q <= k < ids.len() implies ids[k] >= id by {
                if k < d.len() {
                    assert(d[k] == ids[k]);
                }
            }
        }
    }
}

/// Some item of `c` has id `id` and price `p` in region `r`.
pub open spec fn has_price(c: Seq<ItemView>, id: usize, r: nat, p: u32) -> bool {
    exists|i: int| 0 <= i < c.len() && c[i].id == id && #[trigger] c[i].prices[r as int] == Some(p)
}

proof fn lemma_merge_item_wf(c: Seq<ItemView>, r: nat, x: RawItemView)
    requires
        catalog_wf(c),
        r < REGION_COUNT,
    ensures
        catalog_wf(merge_item(c, r, x)),
        has_price(merge_item(c, r, x), x.id, r, x.price),
{
    let ids = item_ids(c);
    let p = count_below(ids, x.id) as int;
    lemma_count_below_split(ids, x.id);
    let c1 = merge_item(c, r, x);
    if p < c.len() && c[p].id == x.id {
        assert(item_wf(c[p]));
        assert(item_wf(c1[p]));
    } else {
        assert forall|k: int| p <= k < c.len() implies c[k].id > x.id by {
            assert(ids[k] == c[k].id);
            assert(ids[k] >= x.id);
            assert(ids[p] == c[p].id);
            assert(ids[p] >= x.id);
            assert(c[p].id != x.id);
            if k > p {
                assert(c[p].id < c[k].id);
            }
        }
        assert forall|k: int| 0 <= k < p implies c[k].id < x.id by {
            assert(ids[k] == c[k].id);
        }
        assert(item_wf(c1[p]));
        assert forall|k: int| 0 <= k < c1.len() implies item_wf(#[trigger] c1[k]) by {
            if k < p {
                assert(c1[k] == c[k]);
            } else if k > p {
                assert(c1[k] == c[k - 1]);
            }
        }
    }
    assert(c1[p].id == x.id && c1[p].prices[r as int] == Some(x.price));
}

proof fn lemma_merge_item_keeps_price(c: Seq<ItemView>, r: nat, x: RawItemView, id: usize, q: u32)
    requires
        catalog_wf(c),
        r < REGION_COUNT,
        id != x.id,
        has_price(c, id, r, q),
    ensures
        has_price(merge_item(c, r, x), id, r, q),
{
    let ids = item_ids(c);
    let p = count_below(ids, x.id) as int;
    let i = choose|i: int| 0 <= i < c.len() && c[i].id == id && #[trigger] c[i].prices[r as int] == Some(q);
    let c1 = merge_item(c, r, x);
    lemma_count_below_split(ids, x.id);
    if p < c.len() && c[p].id == x.id {
        assert(i != p);
        assert(c1[i] == c[i]);
    } else {
        let v = new_item_view(x, r);
        assert(c1 == c.insert(p, v));
        if i < p {
            assert(c1[i] == c[i]);
        } else {
            assert(c1[i + 1] == c[i]);
        }
    }
}

/// The price of the last listed item with id `id`.
pub open spec fn last_price(xs: Seq<RawItemView>, id: usize) -> Option<u32>
    decreases xs.len(),
{
    if xs.len() == 0 {
        None
    } else if xs.last().id == id {
        Some(xs.last().price)
    } else {
        last_price(xs.drop_last(), id)
    }
}

/// The catalog with the region's price of every item listed in `xs` set to
/// its last listed price.
pub open spec fn with_last_prices(c: Seq<ItemView>, r: nat, xs: Seq<RawItemView>) -> Seq<ItemView> {
    Seq::new(
        c.len(),
        |i: int|
            match last_price(xs, c[i].id) {
                Some(q) => ItemView { prices: c[i].prices.update(r as int, Some(q)), ..c[i] },
                None => c[i],
            },
    )
}

proof fn lemma_last_price_listed(xs: Seq<RawItemView>, id: usize)
    ensures
        last_price(xs, id) is Some ==> exists|k: int| 0 <= k < xs.len() && #[trigger] xs[k].id == id
            && last_price(xs, id) == Some(xs[k].price),
        (exists|k: int| 0 <= k < xs.len() && #[trigger] xs[k].id == id) ==> last_price(xs, id) is Some,
    decreases xs.len(),
{
    if xs.len() > 0 {
        let d = xs.drop_last();
        lemma_last_price_listed(d, id);
        if last_price(xs, id) is Some && xs.last().id != id {
            let k = choose|k: int| 0 <= k < d.len() && #[trigger] d[k].id == id && last_price(d, id) == Some(d[k].price);
            assert(xs[k] == d[k]);
        }
        if exists|k: int| 0 <= k < xs.len() && #[trigger] xs[k].id == id {
            let k = choose|k: int| 0 <= k < xs.len() && #[trigger] xs[k].id == id;
            if xs.last().id != id {
                assert(d[k] == xs[k]);
            }
        }
    }
}

/// After a region's listing is merged, even one that lists an item more than
/// once, the catalog holds one item per id (ids ascending), and each listed
/// id has, in that region, the price of its last listing.
pub proof fn lemma_listing_prices(c: Seq<ItemView>, r: nat, xs: Seq<RawItemView>)
    requires
        catalog_wf(c),
        r < REGION_COUNT,
    ensures
        catalog_wf(merge_listing(c, r, xs)),
        ids_unique(merge_listing(c, r, xs)),
        forall|k: int|
            0 <= k < xs.len() ==> has_price(
                merge_listing(c, r, xs),
                #[trigger] xs[k].id,
                r,
                last_price(xs, xs[k].id)->Some_0,
            ) && last_price(xs, xs[k].id) is Some,
    decreases xs.len(),
{
    if xs.len() > 0 {
        let d = xs.drop_last();
        lemma_listing_prices(c, r, d);
        let f = merge_listing(c, r, xs);
        lemma_merge_item_wf(merge_listing(c, r, d), r, xs.last());
        assert forall|i: int, j: int| 0 <= i < f.len() && 0 <= j < f.len() && f[i].id == f[j].id implies i == j by {
            if i < j {
                assert(f[i].id < f[j].id);
            } else if j < i {
                assert(f[j].id < f[i].id);
            }
        }
        let m = merge_listing(c, r, d);
        let x = xs.last();
        lemma_merge_item_wf(m, r, x);
        assert forall|k: int|
            0 <= k < xs.len() implies has_price(
                merge_listing(c, r, xs),
                #[trigger] xs[k].id,
                r,
                last_price(xs, xs[k].id)->Some_0,
            ) && last_price(xs, xs[k].id) is Some by {
            if xs[k].id != x.id {
                assert(d[k] == xs[k]);
                lemma_merge_item_keeps_price(m, r, x, xs[k].id, last_price(d, d[k].id)->Some_0);
            }
        }
    }
}

proof fn lemma_listed_merge_is_update(c: Seq<ItemView>, r: nat, ys: Seq<RawItemView>)
    requires
        catalog_wf(c),
        r < REGION_COUNT,
        forall|k: int| 0 <= k < ys.len() ==> exists|i: int| 0 <= i < c.len() && #[trigger] c[i].id == (#[trigger] ys[k]).id,
    ensures
        merge_listing(c, r, ys) == with_last_prices(c, r, ys),
    decreases ys.len(),
{
    if ys.len() == 0 {
        assert(with_last_prices(c, r, ys) =~= c);
    } else {
        let d = ys.drop_last();
        let y = ys.last();
        assert forall|k: int| 0 <= k < d.len() implies exists|i: int| 0 <= i < c.len() && #[trigger] c[i].id == (#[trigger] d[k]).id by {
            assert(d[k] == ys[k]);
        }
        lemma_listed_merge_is_update(c, r, d);
        let u = with_last_prices(c, r, d);
        assert(item_ids(u) =~= item_ids(c));
        let ids = item_ids(c);
        lemma_count_below_split(ids, y.id);
        let p = count_below(ids, y.id) as int;
        let j = choose|i: int| 0 <= i < c.len() && #[trigger] c[i].id == ys[ys.len() - 1].id;
        assert(ids[j] == y.id);
        if p < j {
            assert(c[p].id < c[j].id);
            assert(ids[p] == c[p].id);
        }
        if j < p {
            assert(ids[j] < y.id);
        }
        assert(p == j);
        assert(item_wf(c[p]));
        let target = with_last_prices(c, r, ys);
        assert forall|i: int| 0 <= i < c.len() implies #[trigger] merge_item(u, r, y)[i] == target[i] by {
            if i == p {
                assert(u[p].prices.update(r as int, Some(y.price)) =~= c[p].prices.update(r as int, Some(y.price)));
            } else {
                assert(c[i].id != y.id) by {
                    if i < p {
                        assert(c[i].id < c[p].id);
                    } else {
                        assert(c[p].id < c[i].id);
                    }
                }
            }
        }
        assert(merge_item(u, r, y) =~= target);
    }
}

proof fn lemma_last_prices_already_set(c: Seq<ItemView>, r: nat, xs: Seq<RawItemView>)
    requires
        catalog_wf(c),
        r < REGION_COUNT,
        forall|k: int|
            0 <= k < xs.len() ==> has_price(c, #[trigger] xs[k].id, r, last_price(xs, xs[k].id)->Some_0),
    ensures
        with_last_prices(c, r, xs) == c,
{
    assert forall|i: int| 0 <= i < c.len() implies #[trigger] with_last_prices(c, r, xs)[i] == c[i] by {
        lemma_last_price_listed(xs, c[i].id);
        if last_price(xs, c[i].id) is Some {
            let k = choose|k: int| 0 <= k < xs.len() && #[trigger] xs[k].id == c[i].id
                && last_price(xs, c[i].id) == Some(xs[k].price);
            assert(has_price(c, xs[k].id, r, last_price(xs, xs[k].id)->Some_0));
            let q = last_price(xs, c[i].id)->Some_0;
            let j = choose|j: int| 0 <= j < c.len() && c[j].id == c[i].id && #[trigger] c[j].prices[r as int] == Some(q);
            if i < j {
                assert(c[i].id < c[j].id);
            }
            if j < i {
                assert(c[j].id < c[i].id);
            }
            assert(item_wf(c[i]));
            assert(c[i].prices.update(r as int, Some(q)) =~= c[i].prices);
        }
    }
    assert(with_last_prices(c, r, xs) =~= c);
}

/// A region's listing merged twice (a repeated crawl) gives the catalog that
/// one merge gives: no item is doubled and each price is set once.
pub proof fn lemma_merge_listing_twice(c: Seq<ItemView>, r: nat, xs: Seq<RawItemView>)
    requires
        catalog_wf(c),
        r < REGION_COUNT,
    ensures
        merge_listing(merge_listing(c, r, xs), r, xs) == merge_listing(c, r, xs),
{
    lemma_listing_prices(c, r, xs);
    let f = merge_listing(c, r, xs);
    assert forall|k: int| 0 <= k < xs.len() implies exists|i: int| 0 <= i < f.len() && #[trigger] f[i].id == (#[trigger] xs[k]).id by {
        assert(has_price(f, xs[k].id, r, last_price(xs, xs[k].id)->Some_0));
    }
    lemma_listed_merge_is_update(f, r, xs);
    lemma_last_prices_already_set(f, r, xs);
}

/// Some accessory of `a` has id `id` and a price in region `r`.
pub open spec fn has_accessory_price(a: Seq<AccessoryView>, id: usize, r: nat) -> bool {
    exists|i: int| 0 <= i < a.len() && a[i].id == id && (#[trigger] a[i].prices[r as int]) is Some
}

pub open spec fn accessories_wf(a: Seq<AccessoryView>) -> bool {
    &&& accessories_sorted(a)
    &&& forall|k: int| 0 <= k < a.len() ==> (#[trigger] a[k]).prices.len() == REGION_COUNT
}

proof fn lemma_merge_accessory_effect(a: Seq<AccessoryView>, r: nat, x: RawAccessoryView, id: usize)
    requires
        accessories_wf(a),
        r < REGION_COUNT,
    ensures
        accessories_wf(merge_accessory(a, r, x)),
        has_accessory_price(merge_accessory(a, r, x), x.id, r),
        has_accessory_price(a, id, r) ==> has_accessory_price(merge_accessory(a, r, x), id, r),
{
    let ids = accessory_ids(a);
    let p = count_below(ids, x.id) as int;
    lemma_count_below_split(ids, x.id);
    let a1 = merge_accessory(a, r, x);
    if p < a.len() && a[p].id == x.id {
        assert(a1[p].id == x.id && a1[p].prices[r as int] is Some);
        assert(accessory_ids(a1) =~= ids);
        if has_accessory_price(a, id, r) {
            let i = choose|i: int| 0 <= i < a.len() && a[i].id == id && (#[trigger] a[i].prices[r as int]) is Some;
            assert(a1[i].id == id && a1[i].prices[r as int] is Some);
        }
    } else {
        let v = AccessoryView { id: x.id, name: x.name, prices: no_prices().update(r as int, Some(x.price)) };
        assert(a1 == a.insert(p, v));
        assert forall|k: int| p <= k < a.len() implies a[k].id > x.id by {
            assert(ids[k] == a[k].id);
            assert(ids[p] == a[p].id);
            if k > p {
                assert(a[p].id < a[k].id);
            }
        }
        assert forall|k: int| 0 <= k < p implies a[k].id < x.id by {
            assert(ids[k] == a[k].id);
        }
        assert forall|k: int| 0 <= k < a1.len() implies (#[trigger] a1[k]).prices.len() == REGION_COUNT by {
            if k < p {
                assert(a1[k] == a[k]);
            } else if k > p {
                assert(a1[k] == a[k - 1]);
            }
        }
        assert(a1[p].id == x.id && a1[p].prices[r as int] is Some);
        if has_accessory_price(a, id, r) {
            let i = choose|i: int| 0 <= i < a.len() && a[i].id == id && (#[trigger] a[i].prices[r as int]) is Some;
            if i < p {
                assert(a1[i] == a[i]);
            } else {
                assert(a1[i + 1] == a[i]);
            }
        }
    }
}

proof fn lemma_merge_accessory_present(a: Seq<AccessoryView>, r: nat, x: RawAccessoryView)
    requires
        accessories_wf(a),
        has_accessory_price(a, x.id, r),
    ensures
        merge_accessory(a, r, x) == a,
{
    let ids = accessory_ids(a);
    let i = choose|i: int| 0 <= i < a.len() && a[i].id == x.id && (#[trigger] a[i].prices[r as int]) is Some;
    lemma_count_below_split(ids, x.id);
    let p = count_below(ids, x.id) as int;
    assert(ids[i] == x.id);
    if p < i {
        assert(a[p].id < a[i].id);
        assert(ids[p] == a[p].id);
    }
    if i < p {
        assert(ids[i] < x.id);
    }
    assert(p == i);
}

proof fn lemma_accessories_priced(a: Seq<AccessoryView>, r: nat, xs: Seq<RawAccessoryView>)
    requires
        accessories_wf(a),
        r < REGION_COUNT,
    ensures
        accessories_wf(merge_accessories(a, r, xs)),
        forall|k: int| 0 <= k < xs.len() ==> has_accessory_price(merge_accessories(a, r, xs), #[trigger] xs[k].id, r),
    decreases xs.len(),
{
    if xs.len() > 0 {
        let d = xs.drop_last();
        lemma_accessories_priced(a, r, d);
        let m = merge_accessories(a, r, d);
        lemma_merge_accessory_effect(m, r, xs.last(), xs.last().id);
        assert forall|k: int| 0 <= k < xs.len() implies has_accessory_price(merge_accessories(a, r, xs), #[trigger] xs[k].id, r) by {
            if k < xs.len() - 1 {
                assert(d[k] == xs[k]);
                lemma_merge_accessory_effect(m, r, xs.last(), xs[k].id);
            }
        }
    }
}

proof fn lemma_accessories_no_change(a: Seq<AccessoryView>, r: nat, xs: Seq<RawAccessoryView>)
    requires
        accessories_wf(a),
        forall|k: int| 0 <= k < xs.len() ==> has_accessory_price(a, #[trigger] xs[k].id, r),
    ensures
        merge_accessories(a, r, xs) == a,
    decreases xs.len(),
{
    if xs.len() > 0 {
        let d = xs.drop_last();
        assert forall|k: int| 0 <= k < d.len() implies has_accessory_price(a, #[trigger] d[k].id, r) by {
            assert(d[k] == xs[k]);
        }
        lemma_accessories_no_change(a, r, d);
        assert(has_accessory_price(a, xs[xs.len() - 1].id, r));
        lemma_merge_accessory_present(a, r, xs.last());
    }
}

/// A region's accessory list merged twice gives what one merge gives: no
/// accessory is doubled and the first price seen for the region stays,
/// repeated ids in the list included.
pub proof fn lemma_merge_accessories_twice(a: Seq<AccessoryView>, r: nat, xs: Seq<RawAccessoryView>)
    requires
        accessories_wf(a),
        r < REGION_COUNT,
    ensures
        merge_accessories(merge_accessories(a, r, xs), r, xs) == merge_accessories(a, r, xs),
{
    lemma_accessories_priced(a, r, xs);
    lemma_accessories_no_change(merge_accessories(a, r, xs), r, xs);
}

/// The price of the first listed accessory with id `id`.
pub open spec fn first_price(xs: Seq<RawAccessoryView>, id: usize) -> Option<u32>
    decreases xs.len(),
{
    if xs.len() == 0 {
        None
    } else if first_price(xs.drop_last(), id) is Some {
        first_price(xs.drop_last(), id)
    } else if xs.last().id == id {
        Some(xs.last().price)
    } else {
        None
    }
}

/// Some accessory of `a` has id `id` and price `p` in region `r`.
pub open spec fn has_accessory_price_of(a: Seq<AccessoryView>, id: usize, r: nat, p: u32) -> bool {
    exists|i: int| 0 <= i < a.len() && a[i].id == id && #[trigger] a[i].prices[r as int] == Some(p)
}

proof fn lemma_merge_accessory_prices(a: Seq<AccessoryView>, r: nat, x: RawAccessoryView, id: usize, p: u32)
    requires
        accessories_wf(a),
        r < REGION_COUNT,
    ensures
        has_accessory_price_of(a, id, r, p) ==> has_accessory_price_of(merge_accessory(a, r, x), id, r, p),
        !has_accessory_price(a, x.id, r) ==> has_accessory_price_of(merge_accessory(a, r, x), x.id, r, x.price),
        id != x.id && !has_accessory_price(a, id, r) ==> !has_accessory_price(merge_accessory(a, r, x), id, r),
{
    let ids = accessory_ids(a);
    let q = count_below(ids, x.id) as int;
    lemma_count_below_split(ids, x.id);
    let a1 = merge_accessory(a, r, x);
    let v = AccessoryView { id: x.id, name: x.name, prices: no_prices().update(r as int, Some(x.price)) };
    if q < a.len() && a[q].id == x.id {
        if has_accessory_price_of(a, id, r, p) {
            let i = choose|i: int| 0 <= i < a.len() && a[i].id == id && #[trigger] a[i].prices[r as int] == Some(p);
            if i != q {
                assert(a1[i] == a[i]);
            }
        }
        if !has_accessory_price(a, x.id, r) {
            assert(!(a[q].prices[r as int] is Some));
            assert(a1[q].id == x.id && a1[q].prices[r as int] == Some(x.price));
        }
        if id != x.id && !has_accessory_price(a, id, r) {
            assert forall|i: int| 0 <= i < a1.len() && a1[i].id == id implies !(#[trigger] a1[i].prices[r as int] is Some) by {
                if i != q {
                    assert(a1[i] == a[i]);
                }
            }
        }
    } else {
        assert(a1 == a.insert(q, v));
        if has_accessory_price_of(a, id, r, p) {
            let i = choose|i: int| 0 <= i < a.len() && a[i].id == id && #[trigger] a[i].prices[r as int] == Some(p);
            if i < q {
                assert(a1[i] == a[i]);
            } else {
                assert(a1[i + 1] == a[i]);
            }
        }
        assert(a1[q].id == x.id && a1[q].prices[r as int] == Some(x.price));
        if id != x.id && !has_accessory_price(a, id, r) {
            assert forall|i: int| 0 <= i < a1.len() && a1[i].id == id implies !(#[trigger] a1[i].prices[r as int] is Some) by {
                if i < q {
                    assert(a1[i] == a[i]);
                } else if i > q {
                    assert(a1[i] == a[i - 1]);
                }
            }
        }
    }
}

proof fn lemma_accessories_unpriced(a: Seq<AccessoryView>, r: nat, xs: Seq<RawAccessoryView>, id: usize)
    requires
        accessories_wf(a),
        r < REGION_COUNT,
        !has_accessory_price(a, id, r),
        first_price(xs, id) is None,
    ensures
        !has_accessory_price(merge_accessories(a, r, xs), id, r),
    decreases xs.len(),
{
    if xs.len() > 0 {
        let d = xs.drop_last();
        lemma_accessories_unpriced(a, r, d, id);
        lemma_accessories_priced(a, r, d);
        lemma_merge_accessory_prices(merge_accessories(a, r, d), r, xs.last(), id, 0);
    }
}

/// After a region's accessory list is merged, even one that names an
/// accessory more than once, the accessories have distinct ids (ascending),
/// and an accessory that had no price for the region gets the price of its
/// first listing.
pub proof fn lemma_accessories_first_seen(a: Seq<AccessoryView>, r: nat, xs: Seq<RawAccessoryView>, id: usize)
    requires
        accessories_wf(a),
        r < REGION_COUNT,
    ensures
        accessories_sorted(merge_accessories(a, r, xs)),
        first_price(xs, id) is Some && !has_accessory_price(a, id, r) ==> has_accessory_price_of(
            merge_accessories(a, r, xs),
            id,
            r,
            first_price(xs, id)->Some_0,
        ),
    decreases xs.len(),
{
    lemma_accessories_priced(a, r, xs);
    if xs.len() > 0 && first_price(xs, id) is Some && !has_accessory_price(a, id, r) {
        let d = xs.drop_last();
        let x = xs.last();
        lemma_accessories_priced(a, r, d);
        let m = merge_accessories(a, r, d);
        if first_price(d, id) is Some {
            lemma_accessories_first_seen(a, r, d, id);
            lemma_merge_accessory_prices(m, r, x, id, first_price(d, id)->Some_0);
        } else {
            lemma_accessories_unpriced(a, r, d, id);
            lemma_merge_accessory_prices(m, r, x, id, 0);
        }
    }
}

/// The item already shows everything that detail record `d` of region `r`
/// would add.
pub open spec fn detail_absorbed(it: ItemView, r: nat, d: ItemDetailView) -> bool {
    &&& (has_text(it.long_description) || (it.long_description is None && !has_text(d.long_description)))
    &&& (it.stock is Some || d.stock is None)
    &&& forall|k: int| 0 <= k < d.accessories.len() ==> has_accessory_price(it.accessories, #[trigger] d.accessories[k].id, r)
}

proof fn lemma_accessories_keep(a: Seq<AccessoryView>, r: nat, xs: Seq<RawAccessoryView>, id: usize)
    requires
        accessories_wf(a),
        r < REGION_COUNT,
        has_accessory_price(a, id, r),
    ensures
        has_accessory_price(merge_accessories(a, r, xs), id, r),
    decreases xs.len(),
{
    if xs.len() > 0 {
        lemma_accessories_keep(a, r, xs.drop_last(), id);
        lemma_accessories_priced(a, r, xs.drop_last());
        lemma_merge_accessory_effect(merge_accessories(a, r, xs.drop_last()), r, xs.last(), id);
    }
}

proof fn lemma_with_detail_effect(it: ItemView, r: nat, d: ItemDetailView, e: ItemDetailView)
    requires
        item_wf(it),
        r < REGION_COUNT,
    ensures
        item_wf(with_detail(it, r, e)),
        detail_absorbed(with_detail(it, r, e), r, e),
        detail_absorbed(it, r, d) ==> detail_absorbed(with_detail(it, r, e), r, d),
{
    lemma_accessories_priced(it.accessories, r, e.accessories);
    if detail_absorbed(it, r, d) {
        assert forall|k: int| 0 <= k < d.accessories.len() implies has_accessory_price(
            with_detail(it, r, e).accessories,
            #[trigger] d.accessories[k].id,
            r,
        ) by {
            lemma_accessories_keep(it.accessories, r, e.accessories, d.accessories[k].id);
        }
    }
}

proof fn lemma_with_detail_absorbed(it: ItemView, r: nat, d: ItemDetailView)
    requires
        item_wf(it),
        detail_absorbed(it, r, d),
    ensures
        with_detail(it, r, d) == it,
{
    lemma_accessories_no_change(it.accessories, r, d.accessories);
}

/// Record `d` is absorbed by the catalog item with its id, if there is one.
pub open spec fn detail_done(c: Seq<ItemView>, r: nat, d: ItemDetailView) -> bool {
    let p = count_below(item_ids(c), d.id) as int;
    p < c.len() && c[p].id == d.id ==> detail_absorbed(c[p], r, d)
}

proof fn lemma_merge_detail_effect(c: Seq<ItemView>, r: nat, d: ItemDetailView, e: ItemDetailView)
    requires
        catalog_wf(c),
        r < REGION_COUNT,
    ensures
        item_ids(merge_detail(c, r, e)) == item_ids(c),
        catalog_wf(merge_detail(c, r, e)),
        detail_done(merge_detail(c, r, e), r, e),
        detail_done(c, r, d) ==> detail_done(merge_detail(c, r, e), r, d),
{
    let c1 = merge_detail(c, r, e);
    let p = count_below(item_ids(c), e.id) as int;
    if p < c.len() && c[p].id == e.id {
        assert(item_wf(c[p]));
        lemma_with_detail_effect(c[p], r, d, e);
        assert(item_ids(c1) =~= item_ids(c));
        assert forall|k: int| 0 <= k < c1.len() implies item_wf(#[trigger] c1[k]) by {
            if k != p {
                assert(c1[k] == c[k]);
            }
        }
        assert(sorted_by_id(c1)) by {
            assert forall|i: int, j: int| 0 <= i < j < c1.len() implies c1[i].id < c1[j].id by {
                assert(c1[i].id == c[i].id && c1[j].id == c[j].id);
            }
        }
    } else {
        assert(c1 == c);
    }
}

proof fn lemma_details_done(c: Seq<ItemView>, r: nat, ds: Seq<ItemDetailView>)
    requires
        catalog_wf(c),
        r < REGION_COUNT,
    ensures
        catalog_wf(merge_details(c, r, ds)),
        forall|k: int| 0 <= k < ds.len() ==> detail_done(merge_details(c, r, ds), r, #[trigger] ds[k]),
    decreases ds.len(),
{
    if ds.len() > 0 {
        let d = ds.drop_last();
        lemma_details_done(c, r, d);
        let m = merge_details(c, r, d);
        lemma_merge_detail_effect(m, r, ds.last(), ds.last());
        assert forall|k: int| 0 <= k < ds.len() implies detail_done(merge_details(c, r, ds), r, #[trigger] ds[k]) by {
            if k < ds.len() - 1 {
                assert(d[k] == ds[k]);
                lemma_merge_detail_effect(m, r, ds[k], ds.last());
            }
        }
    }
}

proof fn lemma_details_no_change(c: Seq<ItemView>, r: nat, ds: Seq<ItemDetailView>)
    requires
        catalog_wf(c),
        forall|k: int| 0 <= k < ds.len() ==> detail_done(c, r, #[trigger] ds[k]),
    ensures
        merge_details(c, r, ds) == c,
    decreases ds.len(),
{
    if ds.len() > 0 {
        let d = ds.drop_last();
        assert forall|k: int| 0 <= k < d.len() implies detail_done(c, r, #[trigger] d[k]) by {
            assert(d[k] == ds[k]);
        }
        lemma_details_no_change(c, r, d);
        let e = ds.last();
        assert(detail_done(c, r, ds[ds.len() - 1]));
        let p = count_below(item_ids(c), e.id) as int;
        if p < c.len() && c[p].id == e.id {
            assert(item_wf(c[p]));
            lemma_with_detail_absorbed(c[p], r, e);
            assert(c.update(p, c[p]) =~= c);
        }
    }
}

/// A region's detail records merged twice give the catalog that one merge
/// gives: no accessory is doubled, the first price seen for a region and the
/// first long description and stock seen stay.
pub proof fn lemma_merge_details_twice(c: Seq<ItemView>, r: nat, ds: Seq<ItemDetailView>)
    requires
        catalog_wf(c),
        r < REGION_COUNT,
    ensures
        merge_details(merge_details(c, r, ds), r, ds) == merge_details(c, r, ds),
{
    lemma_details_done(c, r, ds);
    lemma_details_no_change(merge_details(c, r, ds), r, ds);
}

/// Where `id` is or would go in an id-sorted catalog.
fn item_position(c: &Vec<ShopItem>, id: usize) -> (p: usize)
    requires
        sorted_by_id(items_view(c@)),
    ensures
        p == count_below(item_ids(items_view(c@)), id),
        p <= c@.len(),
        forall|k: int| 0 <= k < p ==> c@[k].id < id,
        forall|k: int| p <= k < c@.len() ==> c@[k].id >= id,
{
    let ghost ids = item_ids(items_view(c@));
    let mut i: usize = 0;
    while i < c.len() && c[i].id < id
        invariant
            ids == item_ids(items_view(c@)),
            i <= c@.len(),
            forall|k: int| 0 <= k < i ==> ids[k] < id,
            forall|k: int| 0 <= k < i ==> c@[k].id < id,
        decreases c@.len() - i,
    {
        i = i + 1;
    }
    proof {
        assert forall|k: int| i <= k < ids.len() implies ids[k] >= id by {
            assert(ids[i as int] >= id);
            if k > i {
                assert(items_view(c@)[i as int].id < items_view(c@)[k].id);
            }
        }
        assert forall|k: int| i <= k < c@.len() implies c@[k].id >= id by {
            assert(ids[k] == c@[k].id);
        }
        lemma_count_below(ids, id, i as int);
    }
    i
}

/// Where `id` is or would go in an id-sorted accessory list.
fn accessory_position(a: &Vec<Accessory>, id: usize) -> (p: usize)
    requires
        accessories_sorted(accessories_view(a@)),
    ensures
        p == count_below(accessory_ids(accessories_view(a@)), id),
        p <= a@.len(),
        forall|k: int| 0 <= k < p ==> a@[k].id < id,
        forall|k: int| p <= k < a@.len() ==> a@[k].id >= id,
{
    let ghost ids = accessory_ids(accessories_view(a@));
    let mut i: usize = 0;
    while i < a.len() && a[i].id < id
        invariant
            ids == accessory_ids(accessories_view(a@)),
            i <= a@.len(),
            forall|k: int| 0 <= k < i ==> ids[k] < id,
            forall|k: int| 0 <= k < i ==> a@[k].id < id,
        decreases a@.len() - i,
    {
        i = i + 1;
    }
    proof {
        assert forall|k: int| i <= k < ids.len() implies ids[k] >= id by {
            assert(ids[i as int] >= id);
            if k > i {
                assert(accessories_view(a@)[i as int].id < accessories_view(a@)[k].id);
            }
        }
        assert forall|k: int| i <= k < a@.len() implies a@[k].id >= id by {
            assert(ids[k] == a@[k].id);
        }
        lemma_count_below(ids, id, i as int);
    }
    i
}

/// Folds one listed item of `region` into the catalog.
pub fn merge_raw_item(catalog: &mut Vec<ShopItem>, region: &Region, x: &RawItem)
    requires
        catalog_wf(items_view(old(catalog)@)),
    ensures
        items_view(final(catalog)@) == merge_item(items_view(old(catalog)@), region.spec_index(), x@),
        catalog_wf(items_view(final(catalog)@)),
{
    let ghost c = items_view(catalog@);
    let ghost r = region.spec_index();
    let p = item_position(catalog, x.id);
    if p < catalog.len() && catalog[p].id == x.id {
        let mut it = catalog[p].copy_of();
        it.prices.insert(region, x.price);
        let ghost it_view = it@;
        catalog.set(p, it);
        assert(it_view == ItemView { prices: c[p as int].prices.update(r as int, Some(x.price)), ..c[p as int] });
        assert(items_view(catalog@) =~= c.update(p as int, it_view));
        assert(item_wf(c[p as int]));
    } else {
        let mut prices = PriceMap::new();
        prices.insert(region, x.price);
        let it = ShopItem {
            id: x.id,
            title: x.title.clone(),
            description: x.description.clone(),
            long_description: None,
            image_url: x.image_url.clone(),
            image_id: x.image_id,
            prices,
            accessories: Vec::new(),
            stock: None,
        };
        let ghost it_view = it@;
        assert(it_view.accessories =~= Seq::<AccessoryView>::empty());
        assert(it_view =~= new_item_view(x@, r));
        let ghost before = catalog@;
        catalog.insert(p, it);
        assert(items_view(catalog@) =~= c.insert(p as int, it_view));
        assert forall|k: int| p <= k < before.len() implies before[k].id > x.id by {
            assert(before[p as int].id >= x.id);
            if k > p {
                assert(c[p as int].id < c[k].id);
            }
        }
    }
}

/// Folds one accessory of `region` into an id-sorted accessory list.
pub fn merge_raw_accessory(accs: &mut Vec<Accessory>, region: &Region, x: &RawAccessory)
    requires
        accessories_sorted(accessories_view(old(accs)@)),
        forall|k: int| 0 <= k < old(accs)@.len() ==> (#[trigger] old(accs)@[k]).prices@.len() == REGION_COUNT,
    ensures
        accessories_view(final(accs)@) == merge_accessory(accessories_view(old(accs)@), region.spec_index(), x@),
        accessories_sorted(accessories_view(final(accs)@)),
        forall|k: int| 0 <= k < final(accs)@.len() ==> (#[trigger] final(accs)@[k]).prices@.len() == REGION_COUNT,
{
    let ghost a = accessories_view(accs@);
    let ghost r = region.spec_index();
    let p = accessory_position(accs, x.id);
    if p < accs.len() && accs[p].id == x.id {
        if accs[p].prices.get(region).is_none() {
            let mut it = accs[p].copy_of();
            it.prices.insert(region, x.price);
            let ghost it_view = it@;
            accs.set(p, it);
            assert(accessories_view(accs@) =~= a.update(p as int, it_view));
        }
    } else {
        let mut prices = PriceMap::new();
        prices.insert(region, x.price);
        let it = Accessory { id: x.id, name: x.name.clone(), prices };
        let ghost it_view = it@;
        let ghost before = accs@;
        accs.insert(p, it);
        assert(accessories_view(accs@) =~= a.insert(p as int, it_view));
        assert forall|k: int| p <= k < before.len() implies before[k].id > x.id by {
            assert(before[p as int].id >= x.id);
            if k > p {
                assert(a[p as int].id < a[k].id);
            }
        }
    }
}

fn opt_has_text(o: &Option<String>) -> (r: bool)
    ensures
        r == has_text(opt_view(*o)),
{
    match o {
        Some(t) => t.as_str().unicode_len() > 0,
        None => false,
    }
}

/// Folds one detail record of `region` into the catalog.
pub fn merge_item_detail(catalog: &mut Vec<ShopItem>, region: &Region, d: &ItemDetail)
    requires
        catalog_wf(items_view(old(catalog)@)),
    ensures
        items_view(final(catalog)@) == merge_detail(items_view(old(catalog)@), region.spec_index(), d@),
        catalog_wf(items_view(final(catalog)@)),
{
    let ghost c = items_view(catalog@);
    let ghost r = region.spec_index();
    let p = item_position(catalog, d.id);
    if p < catalog.len() && catalog[p].id == d.id {
        let mut it = catalog[p].copy_of();
        assert(item_wf(c[p as int]));
        if !opt_has_text(&it.long_description) {
            it.long_description = if opt_has_text(&d.long_description) {
                copy_opt_string(&d.long_description)
            } else {
                None
            };
        }
        if it.stock.is_none() {
            it.stock = d.stock;
        }
        let ghost xs = d@.accessories;
        let ghost pre = it@;
        assert(pre.accessories == c[p as int].accessories);
        assert forall|k: int| 0 <= k < it.accessories@.len() implies (#[trigger] it.accessories@[k]).prices@.len() == REGION_COUNT by {
            assert(pre.accessories[k] == it.accessories@[k]@);
        }
        assert(xs.subrange(0, 0) =~= Seq::<RawAccessoryView>::empty());
        let mut i: usize = 0;
        while i < d.accessories.len()
            invariant
                c == items_view(old(catalog)@),
                p < c.len(),
                r == region.spec_index(),
                pre.accessories == c[p as int].accessories,
                (ItemView { accessories: pre.accessories, ..it@ }) == pre,
                xs == d.accessories@.map_values(|a: RawAccessory| a@),
                i <= d.accessories@.len(),
                accessories_sorted(accessories_view(it.accessories@)),
                forall|k: int| 0 <= k < it.accessories@.len() ==> (#[trigger] it.accessories@[k]).prices@.len() == REGION_COUNT,
                accessories_view(it.accessories@) == merge_accessories(
                    c[p as int].accessories,
                    r,
                    xs.subrange(0, i as int),
                ),
            decreases d.accessories@.len() - i,
        {
            assert(xs.subrange(0, i + 1).drop_last() =~= xs.subrange(0, i as int));
            merge_raw_accessory(&mut it.accessories, region, &d.accessories[i]);
            i = i + 1;
        }
        assert(xs.subrange(0, i as int) =~= xs);
        let ghost it_view = it@;
        catalog.set(p, it);
        assert(it_view.long_description == with_detail(c[p as int], r, d@).long_description);
        assert(it_view.stock == with_detail(c[p as int], r, d@).stock);
        assert(it_view == with_detail(c[p as int], r, d@));
        assert(items_view(catalog@) =~= c.update(p as int, it_view));
        assert forall|k: int| 0 <= k < it_view.accessories.len() implies (#[trigger] it_view.accessories[k]).prices.len() == REGION_COUNT by {
            assert(it_view.accessories[k] == catalog@[p as int].accessories@[k]@);
        }
    }
}

/// Folds a region's detail records into the catalog, one by one.
pub fn merge_region_details(catalog: &mut Vec<ShopItem>, region: &Region, details: &Vec<ItemDetail>)
    requires
        catalog_wf(items_view(old(catalog)@)),
    ensures
        items_view(final(catalog)@) == merge_details(
            items_view(old(catalog)@),
            region.spec_index(),
            details@.map_values(|d: ItemDetail| d@),
        ),
        catalog_wf(items_view(final(catalog)@)),
{
    let ghost c0 = items_view(catalog@);
    let ghost ds = details@.map_values(|d: ItemDetail| d@);
    let mut i: usize = 0;
    while i < details.len()
        invariant
            ds == details@.map_values(|d: ItemDetail| d@),
            i <= details@.len(),
            catalog_wf(items_view(catalog@)),
            items_view(catalog@) == merge_details(c0, region.spec_index(), ds.subrange(0, i as int)),
        decreases details@.len() - i,
    {
        assert(ds.subrange(0, i + 1).drop_last() =~= ds.subrange(0, i as int));
        merge_item_detail(catalog, region, &details[i]);
        i = i + 1;
    }
    assert(ds.subrange(0, i as int) =~= ds);
}

/// Folds a region's listing into the catalog, item by item.
pub fn merge_region(catalog: &mut Vec<ShopItem>, region: &Region, listing: &Vec<RawItem>)
    requires
        catalog_wf(items_view(old(catalog)@)),
    ensures
        items_view(final(catalog)@) == merge_listing(
            items_view(old(catalog)@),
            region.spec_index(),
            listing@.map_values(|x: RawItem| x@),
        ),
        catalog_wf(items_view(final(catalog)@)),
{
    let ghost c0 = items_view(catalog@);
    let ghost xs = listing@.map_values(|x: RawItem| x@);
    let mut i: usize = 0;
    while i < listing.len()
        invariant
            xs == listing@.map_values(|x: RawItem| x@),
            i <= listing@.len(),
            catalog_wf(items_view(catalog@)),
            items_view(catalog@) == merge_listing(c0, region.spec_index(), xs.subrange(0, i as int)),
        decreases listing@.len() - i,
    {
        assert(xs.subrange(0, i + 1).drop_last() =~= xs.subrange(0, i as int));
        merge_raw_item(catalog, region, &listing[i]);
        i = i + 1;
    }
    assert(xs.subrange(0, i as int) =~= xs);
}

} // verus!
