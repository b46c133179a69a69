use vstd::prelude::*;

verus! {

/// A market of the storefront, with its own prices and availability.
#[derive(Clone, Copy, Debug, PartialEq, Eq, Structural)]
pub enum Region {
    UnitedStates,
    Europe,
    UnitedKingdom,
    India,
    Canada,
    Australia,
    Global,
}

/// Number of regions the storefront knows.
pub const REGION_COUNT: usize = 7;

impl Region {
    /// Position of the region in the fixed enumeration order.
    pub open spec fn spec_index(self) -> nat {
        match self {
            Region::UnitedStates => 0,
            Region::Europe => 1,
            Region::UnitedKingdom => 2,
            Region::India => 3,
            Region::Canada => 4,
            Region::Australia => 5,
            Region::Global => 6,
        }
    }

    /// Short code used to switch the site's active region.
    pub open spec fn spec_code(self) -> Seq<char> {
        match self {
            Region::UnitedStates => seq!['U', 'S'],
            Region::Europe => seq!['E', 'U'],
            Region::UnitedKingdom => seq!['U', 'K'],
            Region::India => seq!['I', 'N'],
            Region::Canada => seq!['C', 'A'],
            Region::Australia => seq!['A', 'U'],
            Region::Global => seq!['X', 'X'],
        }
    }

    pub fn code(&self) -> (r: &'static str)
        ensures
            r@ == self.spec_code(),
    {
        proof {
            reveal_strlit("US");
            reveal_strlit("EU");
            reveal_strlit("UK");
            reveal_strlit("IN");
            reveal_strlit("CA");
            reveal_strlit("AU");
            reveal_strlit("XX");
        }
        match self {
            Region::UnitedStates => "US",
            Region::Europe => "EU",
            Region::UnitedKingdom => "UK",
            Region::India => "IN",
            Region::Canada => "CA",
            Region::Australia => "AU",
            Region::Global => "XX",
        }
    }
}

impl Region {
    /// Position of the region in the fixed enumeration order.
    pub fn index(&self) -> (r: usize)
        ensures
            r == self.spec_index(),
            r < REGION_COUNT,
    {
        match self {
            Region::UnitedStates => 0,
            Region::Europe => 1,
            Region::UnitedKingdom => 2,
            Region::India => 3,
            Region::Canada => 4,
            Region::Australia => 5,
            Region::Global => 6,
        }
    }

    /// The region at position `i` of the enumeration order.
    pub fn from_index(i: usize) -> (r: Region)
        requires
            i < REGION_COUNT,
        ensures
            r.spec_index() == i,
    {
        if i == 0 {
            Region::UnitedStates
        } else if i == 1 {
            Region::Europe
        } else if i == 2 {
            Region::UnitedKingdom
        } else if i == 3 {
            Region::India
        } else if i == 4 {
            Region::Canada
        } else if i == 5 {
            Region::Australia
        } else {
            Region::Global
        }
    }

    /// Emoji shown in front of a price of this region.
    pub open spec fn spec_flag(self) -> Seq<char> {
        match self {
            Region::UnitedStates => ":flag-us:"@,
            Region::Europe => ":flag-eu:"@,
            Region::UnitedKingdom => ":flag-gb:"@,
            Region::India => ":flag-in:"@,
            Region::Canada => ":flag-ca:"@,
            Region::Australia => ":flag-au:"@,
            Region::Global => ":earth_africa:"@,
        }
    }

    pub fn flag(&self) -> (r: &'static str)
        ensures
            r@ == self.spec_flag(),
    {
        match self {
            Region::UnitedStates => ":flag-us:",
            Region::Europe => ":flag-eu:",
            Region::UnitedKingdom => ":flag-gb:",
            Region::India => ":flag-in:",
            Region::Canada => ":flag-ca:",
            Region::Australia => ":flag-au:",
            Region::Global => ":earth_africa:",
        }
    }

    /// Human-readable name of the region.
    pub open spec fn spec_name(self) -> Seq<char> {
        match self {
            Region::UnitedStates => "USA"@,
            Region::Europe => "Europe"@,
            Region::UnitedKingdom => "UK"@,
            Region::India => "India"@,
            Region::Canada => "Canada"@,
            Region::Australia => "Australia"@,
            Region::Global => "Global"@,
        }
    }

    pub fn name(&self) -> (r: &'static str)
        ensures
            r@ == self.spec_name(),
    {
        match self {
            Region::UnitedStates => "USA",
            Region::Europe => "Europe",
            Region::UnitedKingdom => "UK",
            Region::India => "India",
            Region::Canada => "Canada",
            Region::Australia => "Australia",
            Region::Global => "Global",
        }
    }
}

impl Region {
    /// Whether a page's displayed region code `shown` is this region's code.
    pub fn is_shown_as(&self, shown: &str) -> (r: bool)
        ensures
            r == (shown@ == self.spec_code()),
    {
        let code = self.code();
        let n = code.unicode_len();
        if shown.unicode_len() != n {
            return false;
        }
        let mut i: usize = 0;
        while i < n
            invariant
                n == code@.len(),
                n == shown@.len(),
                code@ == self.spec_code(),
                i <= n,
                forall|j: int| 0 <= j < i ==> shown@[j] == code@[j],
            decreases n - i,
        {
            if shown.get_char(i) != code.get_char(i) {
                return false;
            }
            i = i + 1;
        }
        assert(shown@ =~= code@);
        true
    }
}

/// Every region, in the fixed enumeration order.
pub open spec fn all_regions() -> Seq<Region> {
    seq![
        Region::UnitedStates,
        Region::Europe,
        Region::UnitedKingdom,
        Region::India,
        Region::Canada,
        Region::Australia,
        Region::Global,
    ]
}

/// Every region, in the fixed enumeration order; crawls visit them in this order.
pub fn regions() -> (r: Vec<Region>)
    ensures
        r@ == all_regions(),
        forall|i: int| 0 <= i < r@.len() ==> (#[trigger] r@[i]).spec_index() == i,
{
    let r = vec![
        Region::UnitedStates,
        Region::Europe,
        Region::UnitedKingdom,
        Region::India,
        Region::Canada,
        Region::Australia,
        Region::Global,
    ];
    assert(r@ =~= all_regions());
    r
}

} // verus!
