use shop_tracker::block::Block;
use shop_tracker::diff::compute_diff;
use shop_tracker::item::ShopItem;
use shop_tracker::notify::notification_messages;
use shop_tracker::prices::PriceMap;
use shop_tracker::region::Region;

fn item(id: usize, title: &str, desc: &str, prices: &[(Region, u32)]) -> ShopItem {
    let mut map = PriceMap::new();
    for (r, p) in prices {
        map.insert(r, *p);
    }
    ShopItem {
        id,
        title: title.to_string(),
        description: desc.to_string(),
        long_description: None,
        image_url: format!("https://cdn.example/{id}.png"),
        image_id: id as u64,
        prices: map,
        accessories: Vec::new(),
        stock: None,
    }
}

fn ids(items: &[ShopItem]) -> Vec<usize> {
    items.iter().map(|i| i.id).collect()
}

#[test]
fn diff_of_catalog_with_itself_is_empty() {
    let a = vec![
        item(1, "A", "x", &[(Region::UnitedStates, 5)]),
        item(4, "B", "", &[(Region::Europe, 9)]),
    ];
    let d = compute_diff(&a, &a);
    assert!(d.is_empty());
    let e = compute_diff(&Vec::new(), &Vec::new());
    assert!(e.is_empty());
}

#[test]
fn diff_is_antisymmetric_in_added_and_removed() {
    let a = vec![item(1, "A", "", &[]), item(2, "B", "", &[]), item(3, "C", "", &[])];
    let b = vec![item(2, "B", "", &[]), item(3, "C2", "", &[]), item(5, "E", "", &[])];
    let ab = compute_diff(&a, &b);
    let ba = compute_diff(&b, &a);
    assert_eq!(ids(&ab.new_items), ids(&ba.deleted_items));
    assert_eq!(ids(&ab.deleted_items), ids(&ba.new_items));
    assert_eq!(ids(&ab.new_items), vec![5]);
    assert_eq!(ids(&ab.deleted_items), vec![1]);
    assert_eq!(ab.updated_items.len(), 1);
    assert_eq!(ab.updated_items[0].0.title, "C");
    assert_eq!(ab.updated_items[0].1.title, "C2");
}

#[test]
fn diff_rebuilds_the_new_id_set() {
    let a = vec![item(1, "A", "", &[]), item(2, "B", "", &[]), item(3, "C", "", &[])];
    let b = vec![item(2, "B", "", &[]), item(3, "C2", "", &[]), item(5, "E", "", &[])];
    let d = compute_diff(&a, &b);
    let removed = ids(&d.deleted_items);
    let mut rebuilt: Vec<usize> = ids(&d.new_items);
    rebuilt.extend(d.updated_items.iter().map(|p| p.1.id));
    rebuilt.extend(a.iter().map(|i| i.id).filter(|id| !removed.contains(id)));
    rebuilt.sort();
    rebuilt.dedup();
    assert_eq!(rebuilt, vec![2, 3, 5]);
}

#[test]
fn price_change_alone_is_an_update() {
    let a = vec![item(7, "Lamp", "", &[(Region::UnitedStates, 5)])];
    let b = vec![item(7, "Lamp", "", &[(Region::UnitedStates, 6)])];
    let d = compute_diff(&a, &b);
    assert!(d.new_items.is_empty());
    assert!(d.deleted_items.is_empty());
    assert_eq!(d.updated_items.len(), 1);
}

#[test]
fn new_item_scenario_gives_one_message_with_ping() {
    let old = vec![item(1, "A", "", &[(Region::UnitedStates, 5)])];
    let new = vec![
        item(1, "A", "", &[(Region::UnitedStates, 5)]),
        item(2, "B", "", &[(Region::UnitedStates, 10)]),
    ];
    let d = compute_diff(&old, &new);
    assert_eq!(ids(&d.new_items), vec![2]);
    assert!(d.deleted_items.is_empty());
    assert!(d.updated_items.is_empty());
    let msgs = notification_messages(&d, "https://shop.example/");
    assert_eq!(msgs.len(), 1);
    let blocks = &msgs[0].blocks;
    assert_eq!(blocks.len(), 4);
    match &blocks[0] {
        Block::Header(t) => assert_eq!(t, ":new: B (:shells: :flag-us: 10)"),
        other => panic!("unexpected block {:?}", other),
    }
    match &blocks[1] {
        Block::Section(t) => assert_eq!(
            t,
            "*Stock:* Unlimited\n\n<https://shop.example/shop/order?shop_item_id=2|*:tw_shopping_trolley: Buy*>"
        ),
        other => panic!("unexpected block {:?}", other),
    }
    match &blocks[2] {
        Block::Image(u, alt) => {
            assert_eq!(u, "https://cdn.example/2.png");
            assert_eq!(alt, "Image for B");
        }
        other => panic!("unexpected block {:?}", other),
    }
    assert!(matches!(&blocks[3], Block::Context(_)));
    assert_eq!(msgs[0].text, "Shop update: 1 new, 0 updated, 0 removed");
}

#[test]
fn cleared_description_shows_no_description() {
    let old = vec![item(3, "Hat", "foo", &[(Region::UnitedStates, 5)])];
    let new = vec![item(3, "Hat", "", &[(Region::UnitedStates, 5)])];
    let d = compute_diff(&old, &new);
    assert_eq!(d.updated_items.len(), 1);
    let msgs = notification_messages(&d, "https://shop.example/");
    assert_eq!(msgs.len(), 1);
    match &msgs[0].blocks[1] {
        Block::Section(t) => assert!(t.starts_with("foo \u{2192} _no description_\n")),
        other => panic!("unexpected block {:?}", other),
    }
    match &msgs[0].blocks[0] {
        Block::Header(t) => assert_eq!(t, "Hat (:shells: :flag-us: 5)"),
        other => panic!("unexpected block {:?}", other),
    }
}

#[test]
fn equal_price_everywhere_renders_once() {
    let all = [
        Region::UnitedStates,
        Region::Europe,
        Region::UnitedKingdom,
        Region::India,
        Region::Canada,
        Region::Australia,
        Region::Global,
    ];
    let prices: Vec<(Region, u32)> = all.iter().map(|r| (*r, 12)).collect();
    let d = compute_diff(&Vec::new(), &vec![item(9, "Mug", "", &prices)]);
    let msgs = notification_messages(&d, "https://shop.example/");
    match &msgs[0].blocks[0] {
        Block::Header(t) => assert_eq!(t, ":new: Mug (:shells: :earth_americas: 12)"),
        other => panic!("unexpected block {:?}", other),
    }
}

#[test]
fn empty_diff_gives_no_message() {
    let a = vec![item(1, "A", "", &[])];
    let d = compute_diff(&a, &a);
    assert!(notification_messages(&d, "https://shop.example/").is_empty());
}

#[test]
fn removed_and_updated_items_render_in_order() {
    let old = vec![item(1, "Old", "a_b", &[(Region::UnitedStates, 1)]), item(2, "Gone", "", &[])];
    let mut changed = item(1, "New", "a_b", &[(Region::UnitedStates, 2)]);
    changed.image_url = "https://cdn.example/other.png".to_string();
    let d = compute_diff(&old, &vec![changed]);
    let msgs = notification_messages(&d, "https://shop.example/");
    assert_eq!(msgs.len(), 1);
    let b = &msgs[0].blocks;
    // updated: header, section, old image, new image, divider; removed: 3; ping
    assert_eq!(b.len(), 9);
    match &b[0] {
        Block::Header(t) => assert_eq!(t, "Old \u{2192} New (:shells: :flag-us: 1 \u{2192} :flag-us: 2)"),
        other => panic!("unexpected block {:?}", other),
    }
    match &b[1] {
        Block::Section(t) => assert!(t.starts_with("_a\\_b_\n*Stock:* Unlimited")),
        other => panic!("unexpected block {:?}", other),
    }
    match &b[2] {
        Block::Image(_, alt) => assert_eq!(alt, "Old image for New"),
        other => panic!("unexpected block {:?}", other),
    }
    assert!(matches!(&b[4], Block::Divider));
    match &b[5] {
        Block::Header(t) => assert_eq!(t, ":win10-trash: Gone (:shells: )"),
        other => panic!("unexpected block {:?}", other),
    }
    assert_eq!(msgs[0].text, "Shop update: 0 new, 1 updated, 1 removed");
}
