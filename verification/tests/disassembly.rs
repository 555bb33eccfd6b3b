use desdec_app::disassembly::{address_text, hex, instruction_at_overview_row, is_jump, row_of, section_starts, Action, Asked, Columns, Listed, LEADING};

/// Calls leave the listing and come back; a branch stays in it.
#[test]
fn only_a_branch_counts_as_a_jump() {
    for mnemonic in ["jmp", "jmpq", "jne", "b", "b.eq", "cbz", "tbnz"] {
        assert!(is_jump(mnemonic), "{mnemonic} branches");
    }
    for mnemonic in ["callq", "bl", "blr", "br", "ret", "mov", "lea"] {
        assert!(
            !is_jump(mnemonic),
            "{mnemonic} is not a jump in the listing"
        );
    }
}

/// A heading takes a row of its own, so every instruction below it is one
/// row further down.
#[test]
fn a_section_heading_pushes_the_rows_below_it_down() {
    let sections = [0, 10, 25];

    assert_eq!(row_of(&sections, 1, 0), 2, "the column titles, then .text");
    assert_eq!(row_of(&sections, 1, 9), 11);
    assert_eq!(row_of(&sections, 1, 10), 13, "a second heading above it");
    assert_eq!(row_of(&sections, 1, 25), 29);
}

#[test]
fn a_listing_without_sections_has_one_row_per_instruction() {
    assert_eq!(row_of(&[], 0, 0), 0);
    assert_eq!(row_of(&[], 1, 41), 42);
    assert_eq!(row_of(&[5], 0, 4), 4, "before the only section starts");
}

#[test]
fn an_address_is_padded_to_the_column_and_never_cut() {
    assert_eq!(address_text(10, 0x401000), "0x00401000");
    assert_eq!(address_text(18, 0xdead_beef), "0x00000000deadbeef");
    assert_eq!(address_text(4, 0x401000), "0x401000", "a narrow column does not cut it");
    assert_eq!(address_text(0, 0), "0x0");
}

#[test]
fn bytes_are_written_in_pairs_of_lower_case_digits() {
    assert_eq!(hex(&[0x55, 0x48, 0x89, 0xe5]), "55 48 89 e5");
    assert_eq!(hex(&[0x0f]), "0f");
    assert_eq!(hex(&[]), "");
}

#[test]
fn each_section_is_named_where_it_begins() {
    let names: Vec<String> = [".init", ".text", ".text", ".text", ".fini", ".text"]
        .iter()
        .map(|name| name.to_string())
        .collect();
    assert_eq!(section_starts(&names), vec![0, 1, 4, 5]);
    assert_eq!(section_starts(&[]), Vec::<usize>::new());
}

#[test]
fn the_first_row_to_ask_is_the_one_kept() {
    let mut asked = Asked::default();
    let mut row = Asked::default();
    row.bookmark = Some(0x10);
    row.follow = Some(0x20);
    asked.merge(&row);
    let mut later = Asked::default();
    later.bookmark = Some(0x30);
    later.run_to = Some(0x40);
    asked.merge(&later);
    assert_eq!(asked.bookmark, Some(0x10));
    assert_eq!(asked.follow, Some(0x20));
    assert_eq!(asked.run_to, Some(0x40));
    assert_eq!(asked.inspect, None);

    let action = Action::default();
    assert_eq!(action.edit, None);
    assert!(!action.send_to_asm_studio);
}

fn listed(address: u64, bytes: usize, section: &str, text: &str) -> Listed {
    Listed { address, bytes, section: section.to_owned(), text: text.to_owned() }
}

#[test]
fn an_empty_listing_still_has_columns() {
    let columns = Columns::of(&[], None, &[]);
    assert_eq!(
        columns,
        Columns { address: 10, bytes: 4, section: 1, stack: 1, instruction: 1, instruction_nasm: 1 }
    );
}

#[test]
fn each_column_holds_the_widest_thing_the_file_puts_in_it() {
    let listing = [
        listed(0x40_1000, 5, ".text", "call 0x401020"),
        listed(0x1_0000_0000_0040, 3, ".init", "ret"),
    ];
    let spelt = [Some("call qword 0x401020".to_owned()), None];
    let depths = [Some(0x10), None, Some(0x1234)];
    let columns = Columns::of(&listing, Some(&spelt), &depths);
    assert_eq!(columns.address, 16, "thirteen digits, made even, and the 0x");
    assert_eq!(columns.bytes, 16, "five bytes, two digits and a space each, and the patch marker");
    assert_eq!(columns.section, 5);
    assert_eq!(columns.instruction, 13);
    assert_eq!(columns.instruction_nasm, 19);
    assert_eq!(columns.stack, 6);
    let unspelt = Columns::of(&listing, None, &depths);
    assert_eq!(unspelt.instruction_nasm, 13, "no speller: the decoder's width stands");
}

#[test]
fn a_short_address_still_takes_eight_digits() {
    let columns = Columns::of(&[listed(0x40_1000, 1, ".text", "nop")], None, &[]);
    assert_eq!(columns.address, 10);
    assert_eq!(columns.address, address_text(columns.address, 0x40_1000).len());
}

#[test]
fn a_click_on_the_overview_finds_the_first_instruction_at_or_below_its_row() {
    let sections = [0, 10, 25];
    assert_eq!(instruction_at_overview_row(30, &sections, LEADING, 0), Some(0));
    assert_eq!(instruction_at_overview_row(30, &sections, LEADING, 12), Some(10), "the heading's row gives the section's first");
    assert_eq!(instruction_at_overview_row(30, &sections, LEADING, 13), Some(10));
    assert_eq!(instruction_at_overview_row(30, &sections, LEADING, 27), Some(24));
    assert_eq!(instruction_at_overview_row(30, &sections, LEADING, 100), Some(29), "past the end, the last one");
    assert_eq!(instruction_at_overview_row(0, &sections, LEADING, 5), None);
}
