use vstd::prelude::*;

verus! {

pub open spec fn is_digit(c: char) -> bool {
    '0' <= c <= '9'
}

pub open spec fn digit_value(c: char) -> nat {
    (c as u32 - '0' as u32) as nat
}

/// The number that the ASCII digits of `s` spell, read in order, ignoring
/// every other character; `None` when `s` has no digit.
pub open spec fn all_digits_value(s: Seq<char>) -> Option<nat>
    decreases s.len(),
{
    if s.len() == 0 {
        None
    } else {
        let rest = all_digits_value(s.drop_last());
        let c = s.last();
        if is_digit(c) {
            match rest {
                Some(v) => Some(v * 10 + digit_value(c)),
                None => Some(digit_value(c)),
            }
        } else {
            rest
        }
    }
}

/// Reading `s` left to right: 0 before the first digit, 1 inside the first
/// run of digits, 2 after it; with the value of that run so far.
pub open spec fn first_run(s: Seq<char>) -> (nat, nat)
    decreases s.len(),
{
    if s.len() == 0 {
        (0, 0)
    } else {
        let (phase, acc) = first_run(s.drop_last());
        let c = s.last();
        if phase == 0 {
            if is_digit(c) {
                (1, digit_value(c))
            } else {
                (0, 0)
            }
        } else if phase == 1 {
            if is_digit(c) {
                (1, acc * 10 + digit_value(c))
            } else {
                (2, acc)
            }
        } else {
            (2, acc)
        }
    }
}

proof fn lemma_grow(v: nat, d: nat)
    ensures
        v * 10 + d >= v,
{
    assert(v * 10 >= v) by (nonlinear_arith);
}

/// A price shown with other characters around its digits (`1,250 shells`):
/// the digits read as one number, or `None` when there is none or it does
/// not fit in `u32`.
pub fn parse_price(text: &str) -> (r: Option<u32>)
    ensures
        r == match all_digits_value(text@) {
            Some(v) => if v <= u32::MAX {
                Some(v as u32)
            } else {
                None::<u32>
            },
            None => None::<u32>,
        },
{
    let n = text.unicode_len();
    let mut seen = false;
    let mut too_big = false;
    let mut acc: u64 = 0;
    let mut i: usize = 0;
    while i < n
        invariant
            n == text@.len(),
            i <= n,
            seen == (all_digits_value(text@.subrange(0, i as int)) is Some),
            seen && !too_big ==> all_digits_value(text@.subrange(0, i as int)) == Some(acc as nat)
                && acc <= u32::MAX,
            seen && too_big ==> all_digits_value(text@.subrange(0, i as int))->Some_0 > u32::MAX,
            !seen ==> !too_big,
        decreases n - i,
    {
        let c = text.get_char(i);
        let ghost prev = all_digits_value(text@.subrange(0, i as int));
        assert(text@.subrange(0, i + 1).drop_last() =~= text@.subrange(0, i as int));
        if '0' <= c && c <= '9' {
            let d = (c as u32 - '0' as u32) as u64;
            proof {
                if seen {
                    lemma_grow(prev->Some_0, d as nat);
                }
            }
            if !too_big {
                let next = if seen { acc * 10 + d } else { d };
                if next > u32::MAX as u64 {
                    too_big = true;
                } else {
                    acc = next;
                }
            }
            seen = true;
        }
        i = i + 1;
    }
    assert(text@.subrange(0, n as int) =~= text@);
    if !seen || too_big {
        None
    } else {
        Some(acc as u32)
    }
}

/// The lower-case letter or space `t`, in either case.
pub open spec fn same_letter(c: char, t: char) -> bool {
    c == t || ('a' <= t <= 'z' && c as u32 + 32 == t as u32)
}

/// `s` holds `pat` at position `i`, ignoring ASCII case.
pub open spec fn holds_at(s: Seq<char>, pat: Seq<char>, i: int) -> bool {
    0 <= i && i + pat.len() <= s.len() && forall|k: int| 0 <= k < pat.len() ==> same_letter(#[trigger] s[i + k], pat[k])
}

pub open spec fn says_out_of_stock(s: Seq<char>) -> bool {
    exists|i: int| holds_at(s, "out of stock"@, i)
}

fn holds_here(text: &str, n: usize, pat: &str, i: usize) -> (r: bool)
    requires
        n == text@.len(),
        i <= n,
    ensures
        r == holds_at(text@, pat@, i as int),
{
    let m = pat.unicode_len();
    if m > n - i {
        return false;
    }
    let mut k: usize = 0;
    while k < m
        invariant
            n == text@.len(),
            m == pat@.len(),
            i + m <= n,
            k <= m,
            forall|j: int| 0 <= j < k ==> same_letter(#[trigger] text@[i + j], pat@[j]),
        decreases m - k,
    {
        let c = text.get_char(i + k);
        let t = pat.get_char(k);
        if !(c == t || ('a' <= t && t <= 'z' && (c as u32) + 32 == (t as u32))) {
            assert(!same_letter(text@[i + k as int], pat@[k as int]));
            return false;
        }
        k = k + 1;
    }
    true
}

/// The remaining stock from a stock indicator's text: 0 when it says
/// "out of stock" in any case, else the number its first run of digits
/// spells; `None` when it has no digit or the number does not fit in `u32`.
pub fn parse_stock(text: &str) -> (r: Option<u32>)
    ensures
        says_out_of_stock(text@) ==> r == Some(0u32),
        !says_out_of_stock(text@) ==> r == if first_run(text@).0 == 0 || first_run(text@).1 > u32::MAX {
            None::<u32>
        } else {
            Some(first_run(text@).1 as u32)
        },
{
    let n = text.unicode_len();
    let mut i: usize = 0;
    while i < n
        invariant
            n == text@.len(),
            i <= n,
            forall|j: int| 0 <= j < i ==> !holds_at(text@, "out of stock"@, j),
        decreases n - i,
    {
        if holds_here(text, n, "out of stock", i) {
            return Some(0);
        }
        i = i + 1;
    }
    assert(!says_out_of_stock(text@)) by {
        assert forall|j: int| !holds_at(text@, "out of stock"@, j) by {
            if n <= j {
                proof_strlit_len();
            }
        }
    }
    let mut phase: u8 = 0;
    let mut too_big = false;
    let mut acc: u64 = 0;
    let mut k: usize = 0;
    while k < n
        invariant
            n == text@.len(),
            k <= n,
            phase as nat == first_run(text@.subrange(0, k as int)).0,
            !too_big ==> acc as nat == first_run(text@.subrange(0, k as int)).1 && acc <= u32::MAX,
            too_big ==> first_run(text@.subrange(0, k as int)).1 > u32::MAX && phase != 0,
        decreases n - k,
    {
        let c = text.get_char(k);
        let ghost prev = first_run(text@.subrange(0, k as int));
        assert(text@.subrange(0, k + 1).drop_last() =~= text@.subrange(0, k as int));
        let digit = '0' <= c && c <= '9';
        if phase == 0 {
            if digit {
                phase = 1;
                acc = (c as u32 - '0' as u32) as u64;
            }
        } else if phase == 1 {
            if digit {
                let d = (c as u32 - '0' as u32) as u64;
                proof {
                    lemma_grow(prev.1, d as nat);
                }
                if !too_big {
                    let next = acc * 10 + d;
                    if next > u32::MAX as u64 {
                        too_big = true;
                    } else {
                        acc = next;
                    }
                }
            } else {
                phase = 2;
            }
        }
        k = k + 1;
    }
    assert(text@.subrange(0, n as int) =~= text@);
    if phase == 0 || too_big {
        None
    } else {
        Some(acc as u32)
    }
}

proof fn proof_strlit_len()
    ensures
        "out of stock"@.len() == 12,
{
    reveal_strlit("out of stock");
}

} // verus!
