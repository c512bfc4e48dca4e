use lib::unreachable_blocks::{plan_unreachable_blocks, BlockLinks};

#[test]
fn plans_removing_a_detached_block() {
    // The entry block returns; block 1 is detached.
    let blocks = BlockLinks { links: vec![vec![], vec![]], roots: vec![0], layout: vec![0, 1] };

    assert_eq!(plan_unreachable_blocks(&blocks), vec![1]);

    let pruned = BlockLinks { links: vec![vec![]], roots: vec![0], layout: vec![0] };
    assert_eq!(plan_unreachable_blocks(&pruned), Vec::<usize>::new());
}

#[test]
fn keeps_structurally_referenced_blocks() {
    // The entry's `if` leads to its branches and, structurally, to its completion block 3.
    let blocks = BlockLinks {
        links: vec![vec![1, 2, 3], vec![], vec![], vec![]],
        roots: vec![0],
        layout: vec![0, 1, 2, 3],
    };

    assert_eq!(plan_unreachable_blocks(&blocks), Vec::<usize>::new());
}

#[test]
fn keeps_blocks_reached_from_every_root_and_removes_detached_chains() {
    // Root 0 reaches 1; handler root 3 reaches 4; 2 and 5 form a detached
    // cycle; region layout lists region 1's blocks after region 0's.
    let blocks = BlockLinks {
        links: vec![vec![1], vec![], vec![5], vec![4], vec![], vec![2]],
        roots: vec![0, 3],
        layout: vec![0, 1, 2, 5, 3, 4],
    };

    assert_eq!(plan_unreachable_blocks(&blocks), vec![2, 5]);
}
