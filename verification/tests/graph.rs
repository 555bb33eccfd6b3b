use desdec_app::graph::{chosen_function, ranks, rows_of, shortened, Block, NAME_SHOWN};

/// A mangled Rust name runs to a hundred characters; the heading shows what
/// it has room for and says that it did.
#[test]
fn a_long_name_is_shortened_and_says_so() {
    let long = "_RNvMs4_NtCscdodAO9FK5_5alloc7raw_vecNtB5_11RawVecInner11finish_growCstuaXukgBIa_10proc_macro";
    let shown = shortened(long);
    assert!(shown.chars().count() <= NAME_SHOWN + 1);
    assert!(shown.ends_with('…'));
    assert_eq!(shortened("main"), "main", "a short name is left alone");
}

#[test]
fn a_name_of_exactly_the_room_is_left_whole() {
    let exact: String = "é".repeat(NAME_SHOWN);
    assert_eq!(shortened(&exact), exact);
    let one_more: String = "é".repeat(NAME_SHOWN + 1);
    assert_eq!(shortened(&one_more), format!("{}…", "é".repeat(NAME_SHOWN)));
}

#[test]
fn the_graph_shows_the_selected_function_or_the_one_holding_the_instruction() {
    let functions = [(0x10, 0x20), (0x20, 0x40), (0x30, 0x50)];
    assert_eq!(chosen_function(Some(0x99), Some(0x24), &functions), Some(0x99));
    assert_eq!(chosen_function(None, Some(0x34), &functions), Some(0x20));
    assert_eq!(chosen_function(None, Some(0x44), &functions), Some(0x30));
    assert_eq!(chosen_function(None, Some(0x50), &functions), None);
    assert_eq!(chosen_function(None, None, &functions), None);
}

#[test]
fn each_rank_holds_its_blocks_in_address_order() {
    let rows = rows_of(&[0, 1, 1, 3, 2, 1]);
    assert_eq!(rows, vec![vec![0], vec![1, 2, 5], vec![4], vec![3]]);
    assert_eq!(rows_of(&[]), vec![Vec::<usize>::new()]);
}

fn block(start: u64, successors: &[u64]) -> Block {
    Block { start, successors: successors.to_vec() }
}

#[test]
fn the_two_arms_of_a_test_are_one_rank_below_it() {
    let blocks = [block(0x10, &[0x20, 0x18]), block(0x18, &[]), block(0x20, &[])];
    assert_eq!(ranks(&blocks), vec![0, 1, 1]);
}

#[test]
fn a_back_edge_does_not_push_the_loop_further_down() {
    let blocks = [block(0x10, &[0x14]), block(0x14, &[0x14, 0x1c]), block(0x1c, &[])];
    assert_eq!(ranks(&blocks), vec![0, 1, 2]);
}

#[test]
fn a_block_nothing_reaches_goes_below_the_deepest() {
    let blocks = [block(0x10, &[0x18]), block(0x14, &[0x18]), block(0x18, &[])];
    assert_eq!(ranks(&blocks), vec![0, 2, 1]);
    let lonely = [block(0x10, &[]), block(0x14, &[]), block(0x18, &[0x10])];
    assert_eq!(ranks(&lonely), vec![0, 1, 2], "unreached blocks keep their order, one rank each");
}

#[test]
fn the_shortest_way_decides_the_rank() {
    let blocks = [
        block(0x10, &[0x14, 0x30]),
        block(0x14, &[0x18]),
        block(0x18, &[0x30]),
        block(0x30, &[0x999]),
    ];
    assert_eq!(ranks(&blocks), vec![0, 1, 2, 1], "a way out of the function is ignored");
}

/// A block nothing reaches is placed rather than dropped: every block has a
/// row, the one of its rank.
#[test]
fn every_block_has_a_row() {
    let blocks = [block(0x10, &[0x18]), block(0x14, &[0x18]), block(0x18, &[]), block(0x1c, &[0x10])];
    let ranks = ranks(&blocks);
    let rows = rows_of(&ranks);
    assert_eq!(rows, vec![vec![0], vec![2], vec![1], vec![3]]);
    for (index, rank) in ranks.iter().enumerate() {
        assert!(rows[*rank].contains(&index));
    }
}
