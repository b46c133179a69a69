use vstd::prelude::*;

use crate::block::{blocks_view, extend_blocks, Block, BlockView};

verus! {

/// Most content units one message may carry.
pub const MAX_BLOCKS_PER_MESSAGE: usize = 50;

/// Units taken by groups `from..to` in one message, with one divider
/// between each two of them.
pub open spec fn span_units(sizes: Seq<usize>, from: nat, to: nat) -> nat
    decreases to,
{
    if to <= from {
        0
    } else if to == from + 1 {
        sizes[from as int] as nat
    } else {
        span_units(sizes, from, (to - 1) as nat) + 1 + sizes[to - 1] as nat
    }
}

/// Greedy split of the first `n` groups into messages: the index of the first
/// group of each message, and the units taken so far by the open message.
/// A group opens a new message when it is the first one, or when the open
/// message, a divider and the group would pass `cap - 1` units, one unit
/// being kept for the trailing ping.
pub open spec fn plan(sizes: Seq<usize>, n: nat, cap: nat) -> (Seq<nat>, nat)
    decreases n,
{
    if n == 0 {
        (seq![], 0)
    } else {
        let (starts, cur) = plan(sizes, (n - 1) as nat, cap);
        let s = sizes[n - 1];
        if starts.len() == 0 || cur + 1 + s > cap - 1 {
            (starts.push((n - 1) as nat), s as nat)
        } else {
            (starts, (cur + 1 + s) as nat)
        }
    }
}

/// First group of each message for groups of the given sizes.
pub open spec fn batch_plan(sizes: Seq<usize>, cap: nat) -> Seq<nat> {
    plan(sizes, sizes.len(), cap).0
}

/// The group after the last one of message `k`.
pub open spec fn message_end(starts: Seq<nat>, k: int, n: nat) -> nat {
    if k + 1 < starts.len() {
        starts[k + 1]
    } else {
        n
    }
}

/// Message starts are ascending and cover the groups from the first one.
pub open spec fn starts_well_formed(starts: Seq<nat>, n: nat) -> bool {
    &&& (n == 0 <==> starts.len() == 0)
    &&& n > 0 ==> starts[0] == 0
    &&& forall|k: int| 0 <= k < starts.len() ==> #[trigger] starts[k] < n
    &&& forall|k1: int, k2: int| 0 <= k1 < k2 < starts.len() ==> starts[k1] < starts[k2]
}

proof fn lemma_plan(sizes: Seq<usize>, n: nat, cap: nat)
    requires
        n <= sizes.len(),
    ensures
        starts_well_formed(plan(sizes, n, cap).0, n),
        n > 0 ==> plan(sizes, n, cap).1 == span_units(sizes, plan(sizes, n, cap).0.last(), n),
        n == 0 ==> plan(sizes, n, cap).1 == 0,
        (forall|i: int| 0 <= i < n ==> sizes[i] + 1 <= cap) ==> {
            &&& n > 0 ==> plan(sizes, n, cap).1 + 1 <= cap
            &&& forall|k: int|
                0 <= k < plan(sizes, n, cap).0.len() ==> span_units(
                    sizes,
                    #[trigger] plan(sizes, n, cap).0[k],
                    message_end(plan(sizes, n, cap).0, k, n),
                ) + 1 <= cap
        },
    decreases n,
{
    if n > 0 {
        let m = (n - 1) as nat;
        lemma_plan(sizes, m, cap);
        let (starts, cur) = plan(sizes, m, cap);
        let s = sizes[m as int];
        if starts.len() == 0 || cur + 1 + s > cap - 1 {
            let st = starts.push(m);
            assert(span_units(sizes, m, n) == s);
            if forall|i: int| 0 <= i < n ==> sizes[i] + 1 <= cap {
                assert(sizes[m as int] + 1 <= cap);
                assert(forall|i: int| 0 <= i < m ==> sizes[i] + 1 <= cap);
                assert forall|k: int| 0 <= k < st.len() implies span_units(
                    sizes,
                    #[trigger] st[k],
                    message_end(st, k, n),
                ) + 1 <= cap by {
                    if k < starts.len() {
                        assert(st[k] == starts[k]);
                        if k + 1 < starts.len() {
                            assert(message_end(st, k, n) == message_end(starts, k, m));
                        } else {
                            assert(message_end(st, k, n) == m);
                        }
                    }
                }
            }
        } else {
            assert(starts.last() < m);
            assert(span_units(sizes, starts.last(), n) == cur + 1 + s);
            if forall|i: int| 0 <= i < n ==> sizes[i] + 1 <= cap {
                assert(forall|i: int| 0 <= i < m ==> sizes[i] + 1 <= cap);
                assert forall|k: int| 0 <= k < starts.len() implies span_units(
                    sizes,
                    #[trigger] starts[k],
                    message_end(starts, k, n),
                ) + 1 <= cap by {
                    if k + 1 == starts.len() {
                        assert(message_end(starts, k, n) == n);
                    } else {
                        assert(message_end(starts, k, n) == message_end(starts, k, m));
                    }
                }
            }
        }
    }
}

/// When every group fits in `cap - 1` units, the greedy split gives
/// messages of whole, consecutive groups, each within `cap - 1` units counted
/// with the dividers between its groups.
pub proof fn lemma_batches_fit(sizes: Seq<usize>, cap: nat)
    requires
        forall|i: int| 0 <= i < sizes.len() ==> sizes[i] + 1 <= cap,
    ensures
        starts_well_formed(batch_plan(sizes, cap), sizes.len()),
        forall|k: int|
            0 <= k < batch_plan(sizes, cap).len() ==> span_units(
                sizes,
                #[trigger] batch_plan(sizes, cap)[k],
                message_end(batch_plan(sizes, cap), k, sizes.len()),
            ) + 1 <= cap,
{
    lemma_plan(sizes, sizes.len(), cap);
}

/// First group of each message, splitting greedily so that no message
/// passes `capacity - 1` units with its dividers (a group larger than that
/// stands alone).
pub fn batch_starts(sizes: &Vec<usize>, capacity: usize) -> (r: Vec<usize>)
    ensures
        r@.len() == batch_plan(sizes@, capacity as nat).len(),
        forall|k: int| 0 <= k < r@.len() ==> r@[k] as nat == #[trigger] batch_plan(sizes@, capacity as nat)[k],
        starts_well_formed(batch_plan(sizes@, capacity as nat), sizes@.len()),
{
    let mut starts: Vec<usize> = Vec::new();
    let mut cur: u128 = 0;
    let mut i: usize = 0;
    while i < sizes.len()
        invariant
            i <= sizes@.len(),
            starts@.len() == plan(sizes@, i as nat, capacity as nat).0.len(),
            forall|k: int| 0 <= k < starts@.len() ==> starts@[k] as nat == #[trigger] plan(sizes@, i as nat, capacity as nat).0[k],
            cur as nat == plan(sizes@, i as nat, capacity as nat).1,
            cur <= usize::MAX as u128,
            starts@.len() == 0 ==> i == 0,
        decreases sizes@.len() - i,
    {
        let s = sizes[i];
        if starts.len() == 0 || cur + 1 + (s as u128) + 1 > capacity as u128 {
            starts.push(i);
            cur = s as u128;
        } else {
            cur = cur + 1 + (s as u128);
        }
        i = i + 1;
    }
    proof {
        lemma_plan(sizes@, sizes@.len(), capacity as nat);
    }
    starts
}

/// Text of the block that closes the last message and pings the channel.
pub open spec fn ping_text() -> Seq<char> {
    "pinging <!channel> \u{b7} <https://github.com/skyfallwastaken/flavortown-tracker|:star: star the repo!> \u{b7} <https://hackclub.slack.com/archives/C091UF79VDM|:robot_face: discord/slackbot ysws>"@
}

pub open spec fn ping_blocks() -> Seq<BlockView> {
    seq![BlockView::Context(ping_text())]
}

/// The block that closes the last message and pings the channel.
pub fn render_channel_ping() -> (r: Vec<Block>)
    ensures
        blocks_view(r@) == ping_blocks(),
{
    let t = String::from_str("pinging <!channel> \u{b7} <https://github.com/skyfallwastaken/flavortown-tracker|:star: star the repo!> \u{b7} <https://hackclub.slack.com/archives/C091UF79VDM|:robot_face: discord/slackbot ysws>");
    let r = vec![Block::Context(t)];
    assert(blocks_view(r@) =~= ping_blocks());
    r
}

pub open spec fn groups_view(g: Seq<Vec<Block>>) -> Seq<Seq<BlockView>> {
    g.map_values(|v: Vec<Block>| blocks_view(v@))
}

pub open spec fn sizes_of(g: Seq<Seq<BlockView>>) -> Seq<usize> {
    g.map_values(|v: Seq<BlockView>| v.len() as usize)
}

/// Groups `from..to` with one divider between each two of them.
pub open spec fn span_blocks(groups: Seq<Seq<BlockView>>, from: nat, to: nat) -> Seq<BlockView>
    decreases to,
{
    if to <= from {
        seq![]
    } else if to == from + 1 {
        groups[from as int]
    } else {
        span_blocks(groups, from, (to - 1) as nat).push(BlockView::Divider) + groups[to - 1]
    }
}

/// Message `k` of the split `starts`: its groups, and the ping if it is the last.
pub open spec fn message_blocks(groups: Seq<Seq<BlockView>>, starts: Seq<nat>, k: int) -> Seq<BlockView> {
    span_blocks(groups, starts[k], message_end(starts, k, groups.len()))
        + if k == starts.len() - 1 {
        ping_blocks()
    } else {
        seq![]
    }
}

/// The messages for groups in this order, each starting at a group chosen by
/// `batch_plan` with `MAX_BLOCKS_PER_MESSAGE`.
pub open spec fn messages_of(groups: Seq<Seq<BlockView>>) -> Seq<Seq<BlockView>> {
    let starts = batch_plan(sizes_of(groups), MAX_BLOCKS_PER_MESSAGE as nat);
    Seq::new(starts.len(), |k: int| message_blocks(groups, starts, k))
}

proof fn lemma_span_len(groups: Seq<Seq<BlockView>>, from: nat, to: nat)
    requires
        to <= groups.len(),
        forall|i: int| 0 <= i < groups.len() ==> groups[i].len() <= usize::MAX,
    ensures
        span_blocks(groups, from, to).len() == span_units(sizes_of(groups), from, to),
    decreases to,
{
    if to > from + 1 {
        lemma_span_len(groups, from, (to - 1) as nat);
    }
}

/// Group `i` lies in some message of the split `starts`.
pub open spec fn in_some_message(starts: Seq<nat>, n: nat, i: int) -> bool {
    exists|k: int| 0 <= k < starts.len() && #[trigger] starts[k] <= i < message_end(starts, k, n)
}

/// Each group lies in exactly one message of a well-formed split.
pub proof fn lemma_group_in_one_message(starts: Seq<nat>, n: nat, i: int)
    requires
        starts_well_formed(starts, n),
        0 <= i < n,
    ensures
        exists|k: int| 0 <= k < starts.len() && #[trigger] starts[k] <= i < message_end(starts, k, n),
        forall|k1: int, k2: int|
            0 <= k1 < starts.len() && 0 <= k2 < starts.len() && #[trigger] starts[k1] <= i < message_end(starts, k1, n)
                && #[trigger] starts[k2] <= i < message_end(starts, k2, n) ==> k1 == k2,
{
    lemma_find_message(starts, n, i, 0);
    assert forall|k1: int, k2: int|
        0 <= k1 < starts.len() && 0 <= k2 < starts.len() && #[trigger] starts[k1] <= i < message_end(starts, k1, n)
            && #[trigger] starts[k2] <= i < message_end(starts, k2, n) implies k1 == k2 by {
        if k1 < k2 {
            assert(starts[k1 + 1] <= starts[k2]);
        } else if k2 < k1 {
            assert(starts[k2 + 1] <= starts[k1]);
        }
    }
}

proof fn lemma_find_message(starts: Seq<nat>, n: nat, i: int, k: int)
    requires
        starts_well_formed(starts, n),
        0 <= i < n,
        0 <= k < starts.len(),
        starts[k] <= i,
    ensures
        exists|j: int| 0 <= j < starts.len() && #[trigger] starts[j] <= i < message_end(starts, j, n),
    decreases starts.len() - k,
{
    if k + 1 < starts.len() && starts[k + 1] <= i {
        lemma_find_message(starts, n, i, k + 1);
    } else {
        assert(starts[k] <= i < message_end(starts, k, n));
    }
}

/// With every group within `MAX_BLOCKS_PER_MESSAGE - 1` blocks, each
/// message holds whole consecutive groups (every group in exactly one
/// message) within `MAX_BLOCKS_PER_MESSAGE - 1` blocks with its dividers,
/// and within `MAX_BLOCKS_PER_MESSAGE` with the ping.
pub proof fn lemma_messages_fit(groups: Seq<Seq<BlockView>>)
    requires
        forall|i: int| 0 <= i < groups.len() ==> #[trigger] groups[i].len() + 1 <= MAX_BLOCKS_PER_MESSAGE,
    ensures
        starts_well_formed(batch_plan(sizes_of(groups), MAX_BLOCKS_PER_MESSAGE as nat), groups.len()),
        forall|i: int|
            0 <= i < groups.len() ==> #[trigger] in_some_message(
                batch_plan(sizes_of(groups), MAX_BLOCKS_PER_MESSAGE as nat),
                groups.len(),
                i,
            ),
        forall|k: int|
            0 <= k < messages_of(groups).len() ==> span_blocks(
                groups,
                #[trigger] batch_plan(sizes_of(groups), MAX_BLOCKS_PER_MESSAGE as nat)[k],
                message_end(batch_plan(sizes_of(groups), MAX_BLOCKS_PER_MESSAGE as nat), k, groups.len()),
            ).len() + 1 <= MAX_BLOCKS_PER_MESSAGE,
        forall|k: int| 0 <= k < messages_of(groups).len() ==> #[trigger] messages_of(groups)[k].len() <= MAX_BLOCKS_PER_MESSAGE,
{
    let sizes = sizes_of(groups);
    let cap = MAX_BLOCKS_PER_MESSAGE as nat;
    assert forall|i: int| 0 <= i < sizes.len() implies sizes[i] + 1 <= cap by {
        assert(groups[i].len() + 1 <= MAX_BLOCKS_PER_MESSAGE);
    }
    lemma_batches_fit(sizes, cap);
    let starts = batch_plan(sizes, cap);
    assert forall|i: int| 0 <= i < groups.len() implies #[trigger] in_some_message(starts, groups.len(), i) by {
        lemma_group_in_one_message(starts, groups.len(), i);
    }
    assert forall|k: int| 0 <= k < messages_of(groups).len() implies span_blocks(
        groups,
        #[trigger] starts[k],
        message_end(starts, k, groups.len()),
    ).len() + 1 <= MAX_BLOCKS_PER_MESSAGE && messages_of(groups)[k].len() <= MAX_BLOCKS_PER_MESSAGE by {
        let end = message_end(starts, k, groups.len());
        assert(span_units(sizes, starts[k], end) + 1 <= cap);
        if k + 1 < starts.len() {
            assert(starts[k + 1] < groups.len());
        }
        lemma_span_len(groups, starts[k], end);
    }
}

/// Splits item groups into messages: whole groups in order, one divider
/// between each two groups of a message, a new message whenever a divider and
/// the next group would leave no room for the ping, and the ping at the end
/// of the last message. No groups, no messages.
pub fn batch_messages(groups: &Vec<Vec<Block>>) -> (r: Vec<Vec<Block>>)
    ensures
        groups_view(r@) == messages_of(groups_view(groups@)),
        groups@.len() == 0 ==> r@.len() == 0,
{
    let ghost gv = groups_view(groups@);
    let n = groups.len();
    let mut sizes: Vec<usize> = Vec::new();
    let mut i: usize = 0;
    while i < n
        invariant
            n == groups@.len(),
            gv == groups_view(groups@),
            i <= n,
            sizes@ =~= sizes_of(gv).subrange(0, i as int),
        decreases n - i,
    {
        sizes.push(groups[i].len());
        i = i + 1;
    }
    assert(sizes@ =~= sizes_of(gv));
    let starts = batch_starts(&sizes, MAX_BLOCKS_PER_MESSAGE);
    let ghost plan_seq = batch_plan(sizes_of(gv), MAX_BLOCKS_PER_MESSAGE as nat);
    let ghost expected = messages_of(gv);
    let mut r: Vec<Vec<Block>> = Vec::new();
    let mut k: usize = 0;
    while k < starts.len()
        invariant
            n == groups@.len(),
            gv == groups_view(groups@),
            plan_seq == batch_plan(sizes_of(gv), MAX_BLOCKS_PER_MESSAGE as nat),
            expected == messages_of(gv),
            starts@.len() == plan_seq.len(),
            forall|j: int| 0 <= j < starts@.len() ==> starts@[j] as nat == #[trigger] plan_seq[j],
            starts_well_formed(plan_seq, n as nat),
            k <= starts@.len(),
            r@.len() == k,
            forall|j: int| 0 <= j < k ==> blocks_view((#[trigger] r@[j])@) == expected[j],
        decreases starts@.len() - k,
    {
        let from = starts[k];
        let to = if k + 1 < starts.len() { starts[k + 1] } else { n };
        assert(from as nat == plan_seq[k as int]);
        assert(to as nat == message_end(plan_seq, k as int, n as nat));
        let mut msg: Vec<Block> = Vec::new();
        let mut g: usize = from;
        while g < to
            invariant
                n == groups@.len(),
                gv == groups_view(groups@),
                from <= g <= to <= n,
                blocks_view(msg@) == span_blocks(gv, from as nat, g as nat),
            decreases to - g,
        {
            if g > from {
                let ghost before = msg@;
                msg.push(Block::Divider);
                assert(blocks_view(msg@) =~= blocks_view(before).push(BlockView::Divider));
            }
            extend_blocks(&mut msg, &groups[g]);
            g = g + 1;
            assert(blocks_view(msg@) =~= span_blocks(gv, from as nat, g as nat));
        }
        if k + 1 == starts.len() {
            let ping = render_channel_ping();
            extend_blocks(&mut msg, &ping);
        }
        assert(blocks_view(msg@) =~= expected[k as int]);
        r.push(msg);
        k = k + 1;
    }
    assert(groups_view(r@) =~= expected);
    r
}

} // verus!
