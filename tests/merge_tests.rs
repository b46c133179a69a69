use shop_tracker::item::ShopItem;
use shop_tracker::merge::{
    merge_region, merge_region_details, ItemDetail, RawAccessory, RawItem,
};
use shop_tracker::region::Region;

fn raw(id: usize, title: &str, price: u32) -> RawItem {
    RawItem {
        id,
        title: title.to_string(),
        description: String::new(),
        price,
        image_url: format!("https://shop.example/{id}.png"),
        image_id: id as u64,
    }
}

fn detail(id: usize, long: Option<&str>, stock: Option<u32>, accs: &[(usize, &str, u32)]) -> ItemDetail {
    ItemDetail {
        id,
        long_description: long.map(|s| s.to_string()),
        stock,
        accessories: accs
            .iter()
            .map(|(i, n, p)| RawAccessory { id: *i, name: n.to_string(), price: *p })
            .collect(),
    }
}

#[test]
fn regions_accumulate_prices_in_id_order() {
    let mut catalog: Vec<ShopItem> = Vec::new();
    merge_region(&mut catalog, &Region::UnitedStates, &vec![raw(5, "E", 50), raw(2, "B", 20)]);
    merge_region(&mut catalog, &Region::Europe, &vec![raw(2, "B-eu", 21), raw(9, "I", 90)]);
    let ids: Vec<usize> = catalog.iter().map(|i| i.id).collect();
    assert_eq!(ids, vec![2, 5, 9]);
    assert_eq!(catalog[0].title, "B");
    assert_eq!(catalog[0].prices.get(&Region::UnitedStates), Some(20));
    assert_eq!(catalog[0].prices.get(&Region::Europe), Some(21));
    assert_eq!(catalog[1].prices.get(&Region::Europe), None);
    assert_eq!(catalog[2].prices.get(&Region::UnitedStates), None);
    assert_eq!(catalog[2].prices.get(&Region::Europe), Some(90));
}

#[test]
fn merging_a_listing_twice_changes_nothing() {
    let listing = vec![raw(3, "C", 30), raw(1, "A", 10)];
    let mut once: Vec<ShopItem> = Vec::new();
    merge_region(&mut once, &Region::India, &listing);
    let mut twice = once.clone();
    merge_region(&mut twice, &Region::India, &listing);
    assert_eq!(twice.len(), 2);
    for (a, b) in once.iter().zip(twice.iter()) {
        assert!(a.same_as(b));
    }
    let details = vec![detail(3, Some("long"), Some(4), &[(8, "Strap", 2), (8, "Strap again", 9)])];
    merge_region_details(&mut once, &Region::India, &details);
    merge_region_details(&mut once, &Region::India, &details);
    assert_eq!(once[1].accessories.len(), 1);
    assert_eq!(once[1].accessories[0].name, "Strap");
    assert_eq!(once[1].accessories[0].prices.get(&Region::India), Some(2));
}

#[test]
fn details_keep_first_values_and_collect_accessory_prices() {
    let mut catalog: Vec<ShopItem> = Vec::new();
    merge_region(&mut catalog, &Region::UnitedStates, &vec![raw(1, "A", 10)]);
    merge_region_details(
        &mut catalog,
        &Region::UnitedStates,
        &vec![detail(1, None, Some(7), &[(4, "Case", 3), (2, "Cable", 1)]), detail(99, Some("x"), None, &[])],
    );
    merge_region_details(
        &mut catalog,
        &Region::Canada,
        &vec![detail(1, Some("Long text"), Some(1), &[(4, "Case", 5)])],
    );
    let it = &catalog[0];
    assert_eq!(catalog.len(), 1);
    assert_eq!(it.long_description.as_deref(), Some("Long text"));
    assert_eq!(it.stock, Some(7));
    let acc_ids: Vec<usize> = it.accessories.iter().map(|a| a.id).collect();
    assert_eq!(acc_ids, vec![2, 4]);
    assert_eq!(it.accessories[1].prices.get(&Region::UnitedStates), Some(3));
    assert_eq!(it.accessories[1].prices.get(&Region::Canada), Some(5));
}

#[test]
fn repeated_ids_in_a_listing_keep_the_last_price_and_merge_idempotently() {
    let listing = vec![raw(4, "D", 1), raw(4, "D", 2), raw(1, "A", 3)];
    let mut once: Vec<ShopItem> = Vec::new();
    merge_region(&mut once, &Region::Australia, &listing);
    assert_eq!(once.len(), 2);
    assert_eq!(once[1].prices.get(&Region::Australia), Some(2));
    let mut twice = once.clone();
    merge_region(&mut twice, &Region::Australia, &listing);
    assert_eq!(twice.len(), 2);
    for (a, b) in once.iter().zip(twice.iter()) {
        assert!(a.same_as(b));
    }
}

#[test]
fn empty_long_description_is_replaced_by_a_later_one() {
    let mut catalog: Vec<ShopItem> = Vec::new();
    merge_region(&mut catalog, &Region::UnitedStates, &vec![raw(1, "A", 10)]);
    merge_region_details(&mut catalog, &Region::UnitedStates, &vec![detail(1, Some(""), None, &[])]);
    assert_eq!(catalog[0].long_description, None);
    merge_region_details(&mut catalog, &Region::Europe, &vec![detail(1, Some("Real text"), Some(3), &[])]);
    merge_region_details(&mut catalog, &Region::India, &vec![detail(1, Some("Later text"), Some(9), &[])]);
    assert_eq!(catalog[0].long_description.as_deref(), Some("Real text"));
    assert_eq!(catalog[0].stock, Some(3));
}
