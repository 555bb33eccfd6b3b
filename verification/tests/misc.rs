use desdec_app::about::version_line;
use desdec_app::decompile::{decompilable_functions, default_function, preview_span, Preview, PREVIEW_LIMIT};
use desdec_app::dump::{go_to_value, resolve_offset, row_count, row_span, row_text, WIDTH};
use desdec_app::expert::is_the_native_api;
use desdec_app::expression::new_watch;
use desdec_app::library_file::{open, open_for, start_line, Draft};

#[test]
fn the_version_line_names_the_version_then_the_build() {
    assert_eq!(version_line("0.4.0", "9199178"), "v0.4.0 · 9199178");
}

#[test]
fn the_reader_starts_at_main_or_the_first_function() {
    let functions = vec![
        (0x10, "_start".to_string()),
        (0x40, "main".to_string()),
        (0x80, "main".to_string()),
    ];
    assert_eq!(default_function(&functions, Some(0x10)), Some(0x40));
    assert_eq!(default_function(&functions, None), Some(0x40));
    assert_eq!(default_function(&functions[..1], None), Some(0x10));
    assert_eq!(default_function(&[], Some(0x10)), None);
}

/// Without `main`, the entry point, when it is one of the functions; failing
/// both, the first.
#[test]
fn without_main_the_reader_starts_at_the_entry_point() {
    let functions = vec![
        (0x10, "frame_dummy".to_string()),
        (0x40, "_start".to_string()),
        (0x80, "helper".to_string()),
    ];
    assert_eq!(default_function(&functions, Some(0x40)), Some(0x40));
    assert_eq!(default_function(&functions, Some(0x44)), Some(0x10), "an entry point no function starts at");
    assert_eq!(default_function(&functions, None), Some(0x10));
}

/// The line begins with the version, as the package states it.
#[test]
fn version_line_reports_the_crate_version() {
    let version = "0.4.0";
    let line = version_line(version, "9199178");
    assert!(line.starts_with(&format!("v{version} · ")), "unexpected version line: {line}");
}

/// The line ends with the build it was made from.
#[test]
fn version_line_carries_a_build_identifier() {
    let build = "9199178";
    assert!(!build.is_empty(), "the build script left the build empty");
    assert!(version_line("0.4.0", build).ends_with(build));
}

#[test]
fn the_go_to_field_reads_hexadecimal_with_or_without_its_prefix() {
    assert_eq!(go_to_value("  0x40_1000 "), Some(0x401000));
    assert_eq!(go_to_value("0x0x1f"), Some(0x1f));
    assert_eq!(go_to_value("de ad"), Some(0xdead));
    assert_eq!(go_to_value("+ff"), Some(0xff));
    assert_eq!(go_to_value(""), None);
    assert_eq!(go_to_value("0x"), None);
    assert_eq!(go_to_value("xyz"), None);
    assert_eq!(go_to_value("1_0000_0000_0000_0000"), None, "more than a word");
}

#[test]
fn an_address_goes_to_its_offset_and_a_number_past_the_file_nowhere() {
    assert_eq!(resolve_offset(0x401000, Some(0x1000), 0x2000), Some(0x1000));
    assert_eq!(resolve_offset(0x10, None, 0x2000), Some(0x10));
    assert_eq!(resolve_offset(0x2000, None, 0x2000), None);
}

#[test]
fn the_native_api_is_named_in_any_case() {
    assert!(is_the_native_api("ntdll.dll"));
    assert!(is_the_native_api("NTDLL.DLL"));
    assert!(is_the_native_api("NtDll"));
    assert!(!is_the_native_api("kernel32.dll"));
    assert!(!is_the_native_api("ntdll.dl"));
}

#[test]
fn opening_on_an_undescribed_library_starts_its_line() {
    assert_eq!(
        start_line("libmaison = Format maison.".to_string(), "libcompletelyunknown", false),
        "libmaison = Format maison.\nlibcompletelyunknown = "
    );
    assert_eq!(start_line(String::new(), "libz", false), "libz = ");
    assert_eq!(start_line("libz = Compression.\n".to_string(), "libz", true), "libz = Compression.\n");
    let draft = Draft::default();
    assert!(draft.text.is_empty() && draft.refused.is_none());
}

#[test]
fn the_same_expression_twice_is_one_watch() {
    let watched = vec!["rax * 2".to_owned()];
    assert_eq!(new_watch("  rsp + 8 \n", &watched), Some("rsp + 8".to_owned()));
    assert_eq!(new_watch(" rax * 2 ", &watched), None);
    assert_eq!(new_watch("   ", &watched), None, "nothing typed, nothing watched");
    assert_eq!(new_watch("rax * 2", &[]), Some("rax * 2".to_owned()));
}

/// Opening on an undescribed library must leave the reader with only the
/// sentence to write. The library is handed in as the catalogue writes its
/// name, `libcompletelyunknown.so.1` becoming `libcompletelyunknown`.
#[test]
fn opening_on_a_library_starts_its_line() {
    let mut draft = Draft::default();
    draft.refused = Some("disk full".to_owned());
    open_for(&mut draft, String::new(), Some(("libcompletelyunknown", false)));
    assert!(draft.text.contains("libcompletelyunknown = "), "{:?}", draft.text);
    assert!(draft.refused.is_none());
}

#[test]
fn opening_plainly_shows_the_file_as_it_stands() {
    let mut draft = Draft::default();
    draft.refused = Some("disk full".to_owned());
    open(&mut draft, "libz = Compression.".to_owned());
    assert_eq!(draft.text, "libz = Compression.");
    assert!(draft.refused.is_none());
    open_for(&mut draft, "libz = Compression.".to_owned(), Some(("libz", true)));
    assert_eq!(draft.text, "libz = Compression.", "a described library adds nothing");
}

/// Sixteen bytes to a row, the last one perhaps short.
#[test]
fn the_dump_cuts_the_file_into_rows_of_sixteen() {
    assert_eq!(WIDTH, 16);
    assert_eq!(row_count(0), 0);
    assert_eq!(row_count(16), 1);
    assert_eq!(row_count(17), 2);
    assert_eq!(row_span(0, 17), (0, 16));
    assert_eq!(row_span(1, 17), (16, 17));
}

/// A row shows what a pending patch would write, and a dot for a byte that
/// cannot be printed.
#[test]
fn a_row_shows_its_bytes_patched_and_as_text() {
    let (hex, text) = row_text(b"AB\0 ~\x7f", &[None, Some(0x7a), None, None, None, None]);
    assert_eq!(hex, "41 7a 00 20 7e 7f ");
    assert_eq!(text, "Az. ~.");
    assert_eq!(row_text(&[], &[]), (String::new(), String::new()));
}

/// Only a function with a decoded body is offered to the decompiler.
#[test]
fn only_functions_with_a_body_are_offered() {
    let functions = [
        (0x1000, "main".to_owned(), 12),
        (0x2000, "in_a_section_nothing_decodes".to_owned(), 0),
        (0x3000, "helper".to_owned(), 3),
    ];
    assert_eq!(
        decompilable_functions(&functions),
        vec![(0x1000, "main".to_owned()), (0x3000, "helper".to_owned())]
    );
    assert_eq!(default_function(&decompilable_functions(&functions), None), Some(0x1000));
}

/// The preview shows one instruction, or the first forty-eight of a function
/// and counts the rest.
#[test]
fn the_assembly_preview_shows_a_glance_and_counts_the_rest() {
    assert_eq!(PREVIEW_LIMIT, 48);
    let functions = [(0x1000, 0, 10), (0x2000, 10, 110), (0x3000, 110, 500)];
    assert_eq!(preview_span(Preview::Instruction(Some(7)), &functions, 200), (7, 8, 0));
    assert_eq!(preview_span(Preview::Instruction(None), &functions, 200), (0, 0, 0));
    assert_eq!(preview_span(Preview::Function(0x1000), &functions, 200), (0, 10, 0));
    assert_eq!(preview_span(Preview::Function(0x2000), &functions, 200), (10, 58, 52));
    assert_eq!(preview_span(Preview::Function(0x3000), &functions, 200), (0, 0, 0), "past the listing");
    assert_eq!(preview_span(Preview::Function(0x4000), &functions, 200), (0, 0, 0), "no such function");
}
