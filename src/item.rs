use vstd::prelude::*;

use crate::prices::PriceMap;

verus! {

/// An add-on option of an item, with its own prices.
#[derive(Clone, Debug)]
pub struct Accessory {
    pub id: usize,
    pub name: String,
    pub prices: PriceMap,
}

pub struct AccessoryView {
    pub id: usize,
    pub name: Seq<char>,
    pub prices: Seq<Option<u32>>,
}

impl View for Accessory {
    type V = AccessoryView;

    open spec fn view(&self) -> AccessoryView {
        AccessoryView { id: self.id, name: self.name@, prices: self.prices@ }
    }
}

/// One item of the storefront, merged over all regions.
#[derive(Clone, Debug)]
pub struct ShopItem {
    pub id: usize,
    pub title: String,
    pub description: String,
    pub long_description: Option<String>,
    pub image_url: String,
    pub image_id: u64,
    pub prices: PriceMap,
    pub accessories: Vec<Accessory>,
    pub stock: Option<u32>,
}

pub struct ItemView {
    pub id: usize,
    pub title: Seq<char>,
    pub description: Seq<char>,
    pub long_description: Option<Seq<char>>,
    pub image_url: Seq<char>,
    pub image_id: u64,
    pub prices: Seq<Option<u32>>,
    pub accessories: Seq<AccessoryView>,
    pub stock: Option<u32>,
}

pub open spec fn opt_view(s: Option<String>) -> Option<Seq<char>> {
    match s {
        Some(t) => Some(t@),
        None => None,
    }
}

pub open spec fn accessories_view(a: Seq<Accessory>) -> Seq<AccessoryView> {
    a.map_values(|x: Accessory| x@)
}

impl View for ShopItem {
    type V = ItemView;

    open spec fn view(&self) -> ItemView {
        ItemView {
            id: self.id,
            title: self.title@,
            description: self.description@,
            long_description: opt_view(self.long_description),
            image_url: self.image_url@,
            image_id: self.image_id,
            prices: self.prices@,
            accessories: accessories_view(self.accessories@),
            stock: self.stock,
        }
    }
}

/// The models of a sequence of items.
pub open spec fn items_view(c: Seq<ShopItem>) -> Seq<ItemView> {
    c.map_values(|x: ShopItem| x@)
}

/// Item ids are unique and ascending.
pub open spec fn sorted_by_id(c: Seq<ItemView>) -> bool {
    forall|i: int, j: int| 0 <= i < j < c.len() ==> c[i].id < c[j].id
}

/// No two items share an id.
pub open spec fn ids_unique(c: Seq<ItemView>) -> bool {
    forall|i: int, j: int| 0 <= i < c.len() && 0 <= j < c.len() && c[i].id == c[j].id ==> i == j
}

/// Accessory ids are unique and ascending.
pub open spec fn accessories_sorted(a: Seq<AccessoryView>) -> bool {
    forall|i: int, j: int| 0 <= i < j < a.len() ==> a[i].id < a[j].id
}

pub fn copy_opt_string(s: &Option<String>) -> (r: Option<String>)
    ensures
        opt_view(r) == opt_view(*s),
{
    match s {
        Some(t) => Some(t.clone()),
        None => None,
    }
}

fn same_opt_string(a: &Option<String>, b: &Option<String>) -> (r: bool)
    ensures
        r == (opt_view(*a) == opt_view(*b)),
{
    match (a, b) {
        (Some(x), Some(y)) => *x == *y,
        (None, None) => true,
        _ => false,
    }
}

impl Accessory {
    /// An accessory with the same model.
    pub fn copy_of(&self) -> (r: Accessory)
        ensures
            r@ == self@,
    {
        Accessory { id: self.id, name: self.name.clone(), prices: self.prices.copy_of() }
    }

    /// Structural equality.
    pub fn same_as(&self, other: &Accessory) -> (r: bool)
        ensures
            r == (self@ == other@),
    {
        self.id == other.id && self.name == other.name && self.prices.same_as(&other.prices)
    }
}

pub fn copy_accessories(a: &Vec<Accessory>) -> (r: Vec<Accessory>)
    ensures
        accessories_view(r@) == accessories_view(a@),
{
    let mut r: Vec<Accessory> = Vec::new();
    let mut i: usize = 0;
    while i < a.len()
        invariant
            i <= a@.len(),
            r@.len() == i,
            forall|j: int| 0 <= j < i ==> (#[trigger] r@[j])@ == a@[j]@,
        decreases a@.len() - i,
    {
        let x = a[i].copy_of();
        r.push(x);
        i = i + 1;
    }
    assert(accessories_view(r@) =~= accessories_view(a@));
    r
}

fn same_accessories(a: &Vec<Accessory>, b: &Vec<Accessory>) -> (r: bool)
    ensures
        r == (accessories_view(a@) == accessories_view(b@)),
{
    if a.len() != b.len() {
        assert(accessories_view(a@).len() != accessories_view(b@).len());
        return false;
    }
    let mut i: usize = 0;
    while i < a.len()
        invariant
            a@.len() == b@.len(),
            i <= a@.len(),
            forall|j: int| 0 <= j < i ==> a@[j]@ == b@[j]@,
        decreases a@.len() - i,
    {
        if !a[i].same_as(&b[i]) {
            assert(accessories_view(a@)[i as int] != accessories_view(b@)[i as int]);
            return false;
        }
        i = i + 1;
    }
    assert(accessories_view(a@) =~= accessories_view(b@));
    true
}

impl ShopItem {
    /// An item with the same model.
    pub fn copy_of(&self) -> (r: ShopItem)
        ensures
            r@ == self@,
    {
        ShopItem {
            id: self.id,
            title: self.title.clone(),
            description: self.description.clone(),
            long_description: copy_opt_string(&self.long_description),
            image_url: self.image_url.clone(),
            image_id: self.image_id,
            prices: self.prices.copy_of(),
            accessories: copy_accessories(&self.accessories),
            stock: self.stock,
        }
    }

    /// Structural equality: every field is equal.
    pub fn same_as(&self, other: &ShopItem) -> (r: bool)
        ensures
            r == (self@ == other@),
    {
        self.id == other.id && self.title == other.title && self.description == other.description
            && same_opt_string(&self.long_description, &other.long_description)
            && self.image_url == other.image_url && self.image_id == other.image_id
            && self.prices.same_as(&other.prices) && same_accessories(
            &self.accessories,
            &other.accessories,
        ) && self.stock == other.stock
    }
}

} // verus!
