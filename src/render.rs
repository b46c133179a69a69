use vstd::prelude::*;

use crate::block::{blocks_view, Block, BlockView};
use crate::item::{ItemView, ShopItem};
use crate::prices::{format_prices_with_flags, price_text, PriceMap};
use crate::text::{decimal, escape_markdown, escaped, push_decimal};

verus! {

/// The description line: empty for no description, else the escaped text in
/// italics followed by a line break.
pub open spec fn description_text(desc: Seq<char>) -> Seq<char> {
    if desc.len() == 0 {
        seq![]
    } else {
        "_"@ + escaped(desc) + "_\n"@
    }
}

/// Where an item can be ordered.
pub open spec fn buy_link_text(base: Seq<char>, id: usize) -> Seq<char> {
    base + "shop/order?shop_item_id="@ + decimal(id as nat)
}

pub open spec fn buy_button_text(url: Seq<char>) -> Seq<char> {
    "<"@ + url + "|*:tw_shopping_trolley: Buy*>"@
}

pub open spec fn header_text(emoji: Seq<char>, title: Seq<char>, prices: Seq<Option<u32>>) -> Seq<char> {
    emoji + " "@ + title + " (:shells: "@ + price_text(prices) + ")"@
}

/// The stock line; an unknown stock shows as unlimited.
pub open spec fn stock_text(stock: Option<u32>) -> Seq<char> {
    "*Stock:* "@ + match stock {
        Some(n) => decimal(n as nat),
        None => "Unlimited"@,
    } + "\n\n"@
}

pub open spec fn new_item_blocks(item: ItemView, base: Seq<char>) -> Seq<BlockView> {
    seq![
        BlockView::Header(header_text(":new:"@, item.title, item.prices)),
        BlockView::Section(
            description_text(item.description) + stock_text(item.stock) + buy_button_text(
                buy_link_text(base, item.id),
            ),
        ),
        BlockView::Image(item.image_url, "Image for "@ + item.title),
    ]
}

pub open spec fn deleted_item_blocks(item: ItemView) -> Seq<BlockView> {
    seq![
        BlockView::Header(header_text(":win10-trash:"@, item.title, item.prices)),
        BlockView::Section(description_text(item.description)),
        BlockView::Image(item.image_url, "Image for "@ + item.title),
    ]
}

pub open spec fn title_change(old: ItemView, new: ItemView) -> Seq<char> {
    if old.title != new.title {
        old.title + " \u{2192} "@ + new.title
    } else {
        new.title
    }
}

/// One price line when the prices are the same in every region, else the
/// old line, an arrow and the new line.
pub open spec fn price_change(old: ItemView, new: ItemView) -> Seq<char> {
    if old.prices != new.prices {
        price_text(old.prices) + " \u{2192} "@ + price_text(new.prices)
    } else {
        price_text(new.prices)
    }
}

pub open spec fn shown_description(d: Seq<char>) -> Seq<char> {
    if d.len() == 0 {
        "_no description_"@
    } else {
        escaped(d)
    }
}

pub open spec fn description_change(old: Seq<char>, new: Seq<char>) -> Seq<char> {
    if old.len() == 0 && new.len() == 0 {
        seq![]
    } else if old.len() != 0 && old == new {
        description_text(new)
    } else {
        shown_description(old) + " \u{2192} "@ + shown_description(new) + "\n"@
    }
}

pub open spec fn updated_item_blocks(old: ItemView, new: ItemView, base: Seq<char>) -> Seq<BlockView> {
    seq![
        BlockView::Header(title_change(old, new) + " (:shells: "@ + price_change(old, new) + ")"@),
        BlockView::Section(
            description_change(old.description, new.description) + stock_text(new.stock)
                + buy_button_text(buy_link_text(base, new.id)),
        ),
    ] + if old.image_url != new.image_url {
        seq![BlockView::Image(old.image_url, "Old image for "@ + new.title)]
    } else {
        seq![]
    } + seq![BlockView::Image(new.image_url, "New image for "@ + new.title)]
}

/// Whether any region's price differs between the two maps.
pub fn prices_changed(old: &PriceMap, new: &PriceMap) -> (r: bool)
    ensures
        r == (old@ != new@),
{
    !old.same_as(new)
}

/// Italic, escaped description with a line break, or nothing for an empty one.
pub fn item_description(desc: &str) -> (r: String)
    ensures
        r@ == description_text(desc@),
{
    if desc.unicode_len() == 0 {
        return String::new();
    }
    let mut out = String::from_str("_");
    let e = escape_markdown(desc);
    out.append(e.as_str());
    out.append("_\n");
    out
}

/// The order button for `url`.
pub fn buy_button(url: &str) -> (r: String)
    ensures
        r@ == buy_button_text(url@),
{
    let mut out = String::from_str("<");
    out.append(url);
    out.append("|*:tw_shopping_trolley: Buy*>");
    out
}

/// `<emoji> <title> (:shells: <prices>)`.
pub fn item_header(emoji: &str, title: &str, prices: &PriceMap) -> (r: String)
    ensures
        r@ == header_text(emoji@, title@, prices@),
{
    let mut out = String::from_str(emoji);
    out.append(" ");
    out.append(title);
    out.append(" (:shells: ");
    let p = format_prices_with_flags(prices);
    out.append(p.as_str());
    out.append(")");
    out
}

fn stock_line(stock: Option<u32>) -> (r: String)
    ensures
        r@ == stock_text(stock),
{
    let mut out = String::from_str("*Stock:* ");
    match stock {
        Some(n) => push_decimal(&mut out, n as u64),
        None => out.append("Unlimited"),
    }
    out.append("\n\n");
    out
}

impl ShopItem {
    /// The page where this item is ordered, under the storefront's `base_url`.
    pub fn buy_link(&self, base_url: &str) -> (r: String)
        ensures
            r@ == buy_link_text(base_url@, self.id),
    {
        let mut out = String::from_str(base_url);
        out.append("shop/order?shop_item_id=");
        push_decimal(&mut out, self.id as u64);
        out
    }
}

fn image_alt(prefix: &str, title: &String) -> (r: String)
    ensures
        r@ == prefix@ + title@,
{
    let mut out = String::from_str(prefix);
    out.append(title.as_str());
    out
}

/// Header, body with description, stock and order button, and the image.
pub fn render_new_item(item: &ShopItem, base_url: &str) -> (r: Vec<Block>)
    ensures
        blocks_view(r@) == new_item_blocks(item@, base_url@),
{
    let header = item_header(":new:", item.title.as_str(), &item.prices);
    let mut body = item_description(item.description.as_str());
    let stock = stock_line(item.stock);
    body.append(stock.as_str());
    let link = item.buy_link(base_url);
    let button = buy_button(link.as_str());
    body.append(button.as_str());
    let r = vec![
        Block::Header(header),
        Block::Section(body),
        Block::Image(item.image_url.clone(), image_alt("Image for ", &item.title)),
    ];
    assert(blocks_view(r@) =~= new_item_blocks(item@, base_url@));
    r
}

/// Header marked as removed, description and image.
pub fn render_deleted_item(item: &ShopItem) -> (r: Vec<Block>)
    ensures
        blocks_view(r@) == deleted_item_blocks(item@),
{
    let header = item_header(":win10-trash:", item.title.as_str(), &item.prices);
    let body = item_description(item.description.as_str());
    let r = vec![
        Block::Header(header),
        Block::Section(body),
        Block::Image(item.image_url.clone(), image_alt("Image for ", &item.title)),
    ];
    assert(blocks_view(r@) =~= deleted_item_blocks(item@));
    r
}

fn shown_desc(d: &String) -> (r: String)
    ensures
        r@ == shown_description(d@),
{
    if d.as_str().unicode_len() == 0 {
        String::from_str("_no description_")
    } else {
        escape_markdown(d.as_str())
    }
}

fn description_change_line(old: &String, new: &String) -> (r: String)
    ensures
        r@ == description_change(old@, new@),
{
    let old_empty = old.as_str().unicode_len() == 0;
    let new_empty = new.as_str().unicode_len() == 0;
    if old_empty && new_empty {
        String::new()
    } else if !old_empty && *old == *new {
        item_description(new.as_str())
    } else {
        let mut out = shown_desc(old);
        out.append(" \u{2192} ");
        let n = shown_desc(new);
        out.append(n.as_str());
        out.append("\n");
        out
    }
}

/// One header with the title and price changes, a body with the description
/// change, and the image, or the old and the new image when it changed.
pub fn render_updated_item(old: &ShopItem, new: &ShopItem, base_url: &str) -> (r: Vec<Block>)
    ensures
        blocks_view(r@) == updated_item_blocks(old@, new@, base_url@),
{
    let mut header = if !(old.title == new.title) {
        let mut t = old.title.clone();
        t.append(" \u{2192} ");
        t.append(new.title.as_str());
        t
    } else {
        new.title.clone()
    };
    header.append(" (:shells: ");
    let new_prices = format_prices_with_flags(&new.prices);
    if prices_changed(&old.prices, &new.prices) {
        let old_prices = format_prices_with_flags(&old.prices);
        header.append(old_prices.as_str());
        header.append(" \u{2192} ");
    }
    header.append(new_prices.as_str());
    header.append(")");
    assert(header@ =~= title_change(old@, new@) + " (:shells: "@ + price_change(old@, new@) + ")"@);
    let mut body = description_change_line(&old.description, &new.description);
    let stock = stock_line(new.stock);
    body.append(stock.as_str());
    let link = new.buy_link(base_url);
    let button = buy_button(link.as_str());
    body.append(button.as_str());
    let mut r = vec![Block::Header(header), Block::Section(body)];
    if !(old.image_url == new.image_url) {
        r.push(Block::Image(old.image_url.clone(), image_alt("Old image for ", &new.title)));
    }
    r.push(Block::Image(new.image_url.clone(), image_alt("New image for ", &new.title)));
    assert(blocks_view(r@) =~= updated_item_blocks(old@, new@, base_url@));
    r
}

} // verus!
