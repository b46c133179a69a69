use vstd::prelude::*;

use crate::region::{all_regions, Region, REGION_COUNT};
use crate::text::{decimal, push_decimal};

verus! {

/// Prices of one thing, one optional slot per region in enumeration order.
#[derive(Clone, Debug)]
pub struct PriceMap {
    pub slots: Vec<Option<u32>>,
}

impl View for PriceMap {
    type V = Seq<Option<u32>>;

    open spec fn view(&self) -> Seq<Option<u32>> {
        self.slots@
    }
}

/// A price slot for every region, all empty.
pub open spec fn no_prices() -> Seq<Option<u32>> {
    Seq::new(REGION_COUNT as nat, |i: int| None::<u32>)
}

/// The regions that have a price, with that price, in enumeration order
/// (looking at the first `n` slots only).
pub open spec fn price_entries(s: Seq<Option<u32>>, n: nat) -> Seq<(nat, u32)>
    decreases n,
{
    if n == 0 {
        seq![]
    } else {
        let rest = price_entries(s, (n - 1) as nat);
        match s[n - 1] {
            Some(p) => rest.push(((n - 1) as nat, p)),
            None => rest,
        }
    }
}

/// How one region's price is shown: its flag, a space and the amount.
pub open spec fn entry_text(e: (nat, u32)) -> Seq<char> {
    all_regions()[e.0 as int].spec_flag() + " "@ + decimal(e.1 as nat)
}

/// Entries shown one after another, separated by single spaces.
pub open spec fn joined_entries(es: Seq<(nat, u32)>) -> Seq<char>
    decreases es.len(),
{
    if es.len() == 0 {
        seq![]
    } else if es.len() == 1 {
        entry_text(es[0])
    } else {
        joined_entries(es.drop_last()) + " "@ + entry_text(es.last())
    }
}

/// Every region has a price, and all prices are the same.
pub open spec fn is_uniform(s: Seq<Option<u32>>) -> bool {
    &&& s.len() == REGION_COUNT
    &&& s[0] is Some
    &&& forall|i: int| 0 <= i < s.len() ==> #[trigger] s[i] == s[0]
}

/// The price line of an item: one value for all regions when every region
/// has the same price, else each priced region with its flag.
pub open spec fn price_text(s: Seq<Option<u32>>) -> Seq<char> {
    if is_uniform(s) {
        ":earth_americas: "@ + decimal(s[0]->Some_0 as nat)
    } else {
        joined_entries(price_entries(s, shown_slots(s)))
    }
}

/// Slots that name a region: all of them in a well-formed map.
pub open spec fn shown_slots(s: Seq<Option<u32>>) -> nat {
    if s.len() < REGION_COUNT {
        s.len()
    } else {
        REGION_COUNT as nat
    }
}

proof fn lemma_joined_push(es: Seq<(nat, u32)>, e: (nat, u32))
    ensures
        joined_entries(es.push(e)) == if es.len() == 0 {
            entry_text(e)
        } else {
            joined_entries(es) + " "@ + entry_text(e)
        },
{
    assert(es.push(e).drop_last() =~= es);
}

impl PriceMap {
    /// One slot per region.
    pub open spec fn wf(&self) -> bool {
        self.slots@.len() == REGION_COUNT
    }

    /// A map with no prices.
    pub fn new() -> (r: PriceMap)
        ensures
            r.wf(),
            r@ == no_prices(),
    {
        let mut slots: Vec<Option<u32>> = Vec::new();
        let mut i: usize = 0;
        while i < REGION_COUNT
            invariant
                i <= REGION_COUNT,
                slots@ == Seq::new(i as nat, |j: int| None::<u32>),
            decreases REGION_COUNT - i,
        {
            slots.push(None);
            i = i + 1;
            assert(slots@ =~= Seq::new(i as nat, |j: int| None::<u32>));
        }
        PriceMap { slots }
    }

    /// The price of `region`, if it has one.
    pub fn get(&self, region: &Region) -> (r: Option<u32>)
        requires
            self.wf(),
        ensures
            r == self@[region.spec_index() as int],
    {
        self.slots[region.index()]
    }

    /// Sets the price of `region`, replacing any earlier one.
    pub fn insert(&mut self, region: &Region, price: u32)
        requires
            old(self).wf(),
        ensures
            final(self).wf(),
            final(self)@ == old(self)@.update(region.spec_index() as int, Some(price)),
    {
        let i = region.index();
        self.slots.set(i, Some(price));
    }

    /// A map with the same prices.
    pub fn copy_of(&self) -> (r: PriceMap)
        ensures
            r@ == self@,
    {
        let mut slots: Vec<Option<u32>> = Vec::new();
        let mut i: usize = 0;
        while i < self.slots.len()
            invariant
                i <= self.slots@.len(),
                slots@ == self.slots@.subrange(0, i as int),
            decreases self.slots@.len() - i,
        {
            slots.push(self.slots[i]);
            i = i + 1;
            assert(slots@ =~= self.slots@.subrange(0, i as int));
        }
        assert(self.slots@.subrange(0, i as int) =~= self.slots@);
        PriceMap { slots }
    }

    /// Whether both maps hold the same price for every region.
    pub fn same_as(&self, other: &PriceMap) -> (r: bool)
        ensures
            r == (self@ == other@),
    {
        if self.slots.len() != other.slots.len() {
            return false;
        }
        let mut i: usize = 0;
        while i < self.slots.len()
            invariant
                self.slots@.len() == other.slots@.len(),
                i <= self.slots@.len(),
                forall|j: int| 0 <= j < i ==> self.slots@[j] == other.slots@[j],
            decreases self.slots@.len() - i,
        {
            if self.slots[i] != other.slots[i] {
                return false;
            }
            i = i + 1;
        }
        assert(self@ =~= other@);
        true
    }

    /// Whether every region has a price and all prices are equal.
    pub fn is_uniform(&self) -> (r: bool)
        ensures
            r == is_uniform(self@),
    {
        if self.slots.len() != REGION_COUNT {
            return false;
        }
        let first = self.slots[0];
        if first.is_none() {
            return false;
        }
        let mut i: usize = 1;
        while i < REGION_COUNT
            invariant
                self.wf(),
                1 <= i <= REGION_COUNT,
                first == self@[0],
                forall|j: int| 0 <= j < i ==> self@[j] == first,
            decreases REGION_COUNT - i,
        {
            if self.slots[i] != first {
                return false;
            }
            i = i + 1;
        }
        true
    }

}

/// The price line: `:earth_americas: <price>` when every region has the same
/// price, else `<flag> <price>` for each priced region, space-separated.
pub fn format_prices_with_flags(prices: &PriceMap) -> (r: String)
    ensures
        r@ == price_text(prices@),
{
    if prices.is_uniform() {
        let mut out = String::from_str(":earth_americas: ");
        let p = prices.slots[0].unwrap();
        push_decimal(&mut out, p as u64);
        return out;
    }
    let mut out = String::new();
    let shown = if prices.slots.len() < REGION_COUNT { prices.slots.len() } else { REGION_COUNT };
    let mut i: usize = 0;
    while i < shown
        invariant
            shown == shown_slots(prices@),
            i <= shown,
            out@ == joined_entries(price_entries(prices@, i as nat)),
        decreases REGION_COUNT - i,
    {
        let ghost es = price_entries(prices@, i as nat);
        if let Some(p) = prices.slots[i] {
            proof {
                lemma_entries_len(prices@, i as nat);
            }
            if price_entries_nonempty(&prices.slots, i) {
                out.append(" ");
            }
            let region = Region::from_index(i);
            out.append(region.flag());
            out.append(" ");
            push_decimal(&mut out, p as u64);
            proof {
                lemma_joined_push(es, (i as nat, p));
                assert(all_regions()[i as int] == region);
                assert(out@ =~= joined_entries(es.push((i as nat, p))));
            }
        }
        i = i + 1;
    }
    out
}

proof fn lemma_entries_len(s: Seq<Option<u32>>, n: nat)
    ensures
        price_entries(s, n).len() == 0 <==> forall|j: int| 0 <= j < n ==> #[trigger] s[j] is None,
    decreases n,
{
    if n > 0 {
        lemma_entries_len(s, (n - 1) as nat);
    }
}

fn price_entries_nonempty(slots: &Vec<Option<u32>>, n: usize) -> (r: bool)
    requires
        n <= slots@.len(),
    ensures
        r == (price_entries(slots@, n as nat).len() > 0),
{
    proof {
        lemma_entries_len(slots@, n as nat);
    }
    let mut j: usize = 0;
    while j < n
        invariant
            n <= slots@.len(),
            j <= n,
            forall|k: int| 0 <= k < j ==> #[trigger] slots@[k] is None,
        decreases n - j,
    {
        if slots[j].is_some() {
            proof {
                lemma_entries_len(slots@, n as nat);
                assert(!(slots@[j as int] is None));
            }
            return true;
        }
        j = j + 1;
    }
    false
}

} // verus!
