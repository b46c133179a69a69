use shop_tracker::config::{default_base_url, default_cdn_base_url, default_cdn_key, default_user_agent};
use shop_tracker::parse::{parse_price, parse_stock};
use shop_tracker::prices::{format_prices_with_flags, PriceMap};
use shop_tracker::region::{regions, Region};
use shop_tracker::render::{buy_button, item_description, prices_changed};
use shop_tracker::text::{escape_markdown, push_decimal};

#[test]
fn markdown_characters_are_escaped() {
    assert_eq!(escape_markdown("a_b*c~d`e"), "a\\_b\\*c\\~d\\`e");
    assert_eq!(escape_markdown(""), "");
    assert_eq!(escape_markdown("plain \u{e9}"), "plain \u{e9}");
}

#[test]
fn decimals_are_written_without_leading_zeros() {
    let mut s = String::from("n=");
    push_decimal(&mut s, 0);
    push_decimal(&mut s, 1200);
    assert_eq!(s, "n=01200");
    let mut t = String::new();
    push_decimal(&mut t, u64::MAX);
    assert_eq!(t, u64::MAX.to_string());
}

#[test]
fn price_lines() {
    let mut p = PriceMap::new();
    assert_eq!(format_prices_with_flags(&p), "");
    p.insert(&Region::UnitedStates, 5);
    assert_eq!(format_prices_with_flags(&p), ":flag-us: 5");
    p.insert(&Region::Europe, 6);
    assert_eq!(format_prices_with_flags(&p), ":flag-us: 5 :flag-eu: 6");
    let mut all = PriceMap::new();
    for r in regions() {
        all.insert(&r, 7);
    }
    assert_eq!(format_prices_with_flags(&all), ":earth_americas: 7");
    all.insert(&Region::Global, 8);
    assert_eq!(
        format_prices_with_flags(&all),
        ":flag-us: 7 :flag-eu: 7 :flag-gb: 7 :flag-in: 7 :flag-ca: 7 :flag-au: 7 :earth_africa: 8"
    );
}

#[test]
fn price_change_detection() {
    let mut a = PriceMap::new();
    a.insert(&Region::UnitedStates, 5);
    let b = a.copy_of();
    assert!(!prices_changed(&a, &b));
    let mut c = a.copy_of();
    c.insert(&Region::India, 5);
    assert!(prices_changed(&a, &c));
}

#[test]
fn description_and_button_text() {
    assert_eq!(item_description(""), "");
    assert_eq!(item_description("so_cool"), "_so\\_cool_\n");
    assert_eq!(buy_button("https://x/"), "<https://x/|*:tw_shopping_trolley: Buy*>");
}

#[test]
fn region_codes_and_order() {
    let codes: Vec<&str> = regions().iter().map(|r| r.code()).collect();
    assert_eq!(codes, vec!["US", "EU", "UK", "IN", "CA", "AU", "XX"]);
    assert_eq!(Region::UnitedKingdom.name(), "UK");
    assert_eq!(Region::Global.index(), 6);
    assert_eq!(Region::from_index(3), Region::India);
    assert!(Region::Europe.is_shown_as("EU"));
    assert!(!Region::Europe.is_shown_as("US"));
    assert!(!Region::Europe.is_shown_as("EUR"));
}

#[test]
fn prices_are_read_from_their_digits() {
    assert_eq!(parse_price("1,250 shells"), Some(1250));
    assert_eq!(parse_price("7"), Some(7));
    assert_eq!(parse_price("free"), None);
    assert_eq!(parse_price("99999999999"), None);
    assert_eq!(parse_price("4294967295"), Some(u32::MAX));
}

#[test]
fn stock_indicators() {
    assert_eq!(parse_stock("Out of Stock"), Some(0));
    assert_eq!(parse_stock("only 5 left (of 10)"), Some(5));
    assert_eq!(parse_stock("12"), Some(12));
    assert_eq!(parse_stock("plenty"), None);
    assert_eq!(parse_stock("99999999999 left"), None);
}

#[test]
fn configuration_defaults() {
    assert!(default_user_agent().starts_with("Mozilla/5.0"));
    assert_eq!(default_base_url(), "https://flavortown.hackclub.com/");
    assert_eq!(default_cdn_key(), "beans");
    assert_eq!(default_cdn_base_url(), "https://cdn.hackclub.com/api/file");
}
