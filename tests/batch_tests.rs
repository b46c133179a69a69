use shop_tracker::batch::{batch_messages, batch_starts, MAX_BLOCKS_PER_MESSAGE};
use shop_tracker::block::Block;

fn group(n: usize) -> Vec<Block> {
    (0..n).map(|i| Block::Section(format!("unit {i}"))).collect()
}

#[test]
fn sixteen_groups_of_three_split_without_breaking_groups() {
    let groups: Vec<Vec<Block>> = (0..16).map(|_| group(3)).collect();
    let msgs = batch_messages(&groups);
    assert_eq!(msgs.len(), 2);
    for m in &msgs {
        assert!(m.len() <= MAX_BLOCKS_PER_MESSAGE - 1);
    }
    assert_eq!(msgs[0].len(), 47);
    assert_eq!(msgs[1].len(), 16);
    assert!(matches!(msgs[0].last(), Some(Block::Section(_))));
    assert!(matches!(msgs[1].first(), Some(Block::Section(_))));
    assert!(matches!(msgs[1].last(), Some(Block::Context(_))));
    let dividers: usize = msgs
        .iter()
        .map(|m| m.iter().filter(|b| matches!(b, Block::Divider)).count())
        .sum();
    assert_eq!(dividers, 14);
}

#[test]
fn greedy_starts_for_equal_sizes() {
    let sizes = vec![3usize; 16];
    assert_eq!(batch_starts(&sizes, 50), vec![0, 12]);
    assert_eq!(batch_starts(&Vec::new(), 50), Vec::<usize>::new());
    assert_eq!(batch_starts(&vec![60, 1, 1], 50), vec![0, 1]);
}

#[test]
fn no_groups_no_messages() {
    assert!(batch_messages(&Vec::new()).is_empty());
}

#[test]
fn single_group_gets_ping_and_no_divider() {
    let msgs = batch_messages(&vec![group(2)]);
    assert_eq!(msgs.len(), 1);
    assert_eq!(msgs[0].len(), 3);
    assert!(matches!(msgs[0][2], Block::Context(_)));
}

#[test]
fn message_closes_only_when_the_next_group_would_not_fit() {
    // 12 groups of 3 with 11 dividers take 47 units; a divider and one more
    // group of 1 still fit in 49, a group of 2 does not.
    let mut sizes = vec![3usize; 12];
    sizes.push(1);
    assert_eq!(batch_starts(&sizes, 50), vec![0]);
    let mut sizes2 = vec![3usize; 12];
    sizes2.push(2);
    assert_eq!(batch_starts(&sizes2, 50), vec![0, 12]);
}
