use findit::distance::{edit_distance, levenshtein_distance, similarity_scaled};
use findit::files::{
    format_size, format_time, get_file_icon, get_file_type, get_permissions_string,
    is_executable_header, is_name_valid, is_shebang_header, parse_journal_line, parse_number,
    u64_to_string, FileType, PermissionsFichier,
};
use findit::cache::ChangeKind;
use findit::index::tokenize;
use findit::text::{
    base_name, parent_name, parse_query, split_terms, str_contains, str_ends_with, str_lt,
    str_starts_with,
};
use findit::SCORE_SCALE;

#[test]
fn edit_distance_known_values() {
    assert_eq!(edit_distance("kitten", "sitting"), 3);
    assert_eq!(edit_distance("", "abc"), 3);
    assert_eq!(edit_distance("abc", ""), 3);
    assert_eq!(edit_distance("same", "same"), 0);
    assert_eq!(edit_distance("flaw", "lawn"), 2);
}

#[test]
fn levenshtein_distance_ignores_ascii_case() {
    assert_eq!(levenshtein_distance("Hello", "hello"), 0);
    assert_eq!(levenshtein_distance("README", "readme"), 0);
    assert_eq!(levenshtein_distance("Documants", "documents"), 1);
}

#[test]
fn similarity_is_scaled_and_bounded() {
    assert_eq!(similarity_scaled("abc", "abc"), SCORE_SCALE);
    assert_eq!(similarity_scaled("", ""), SCORE_SCALE);
    // distance 1 over max length 4
    assert_eq!(similarity_scaled("abcd", "abce"), 7500);
    assert!(similarity_scaled("abc", "xyz") <= SCORE_SCALE);
}

#[test]
fn substring_prefix_suffix_order() {
    assert!(str_contains("report_final.txt", "final"));
    assert!(!str_contains("report.txt", "final"));
    assert!(str_contains("anything", ""));
    assert!(str_starts_with("report.txt", "rep"));
    assert!(!str_starts_with("report.txt", "port"));
    assert!(str_ends_with("report.txt", ".txt"));
    assert!(!str_ends_with("report.txt", ".md"));
    assert!(str_lt("abc", "abd"));
    assert!(str_lt("ab", "abc"));
    assert!(!str_lt("abc", "abc"));
    assert!(!str_lt("b", "aaaa"));
}

#[test]
fn path_components_split_on_slashes() {
    assert_eq!(base_name("/home/user/Documents/plan.pdf"), "plan.pdf");
    assert_eq!(parent_name("/home/user/Documents/plan.pdf"), "Documents");
    assert_eq!(base_name("plain.txt"), "plain.txt");
    assert_eq!(parent_name("plain.txt"), "");
}

#[test]
fn tokenize_emits_full_name_and_words() {
    // the case folding runs inside tokenize: an unchanged wrapper result
    // would keep the capital letters and this test would fail
    let toks = tokenize("My_Report.TXT");
    assert_eq!(toks[0], "my_report.txt");
    assert!(toks.contains(&String::from("my")));
    assert!(toks.contains(&String::from("report")));
    assert!(toks.contains(&String::from("txt")));
    // single-character words are not tokens
    let toks2 = tokenize("a_bc");
    assert_eq!(toks2[0], "a_bc");
    assert!(!toks2.contains(&String::from("a")));
    assert!(toks2.contains(&String::from("bc")));
}

#[test]
fn query_splitting_lowers_and_splits() {
    let terms = parse_query("  Hello   World ");
    assert_eq!(terms, vec![String::from("hello"), String::from("world")]);
    let none = parse_query("   ");
    assert!(none.is_empty());
    let raw = split_terms("one two");
    assert_eq!(raw, vec![String::from("one"), String::from("two")]);
}

#[test]
fn name_validation_accepts_word_characters_only() {
    assert!(is_name_valid("notes_2.txt"));
    assert!(is_name_valid(""));
    assert!(!is_name_valid("bad name"));
    assert!(!is_name_valid("semi;colon"));
}

#[test]
fn permissions_default_flags() {
    let p = PermissionsFichier::new("a.txt");
    assert_eq!(p.name, "a.txt");
    assert!(p.is_read && p.is_write && !p.is_delete);
}

#[test]
fn permission_bits_render_as_rwx() {
    assert_eq!(get_permissions_string(0o700), "rwx");
    assert_eq!(get_permissions_string(0o400), "r--");
    assert_eq!(get_permissions_string(0o200), "-w-");
    assert_eq!(get_permissions_string(0o000), "---");
}

#[test]
fn icons_follow_directory_flag() {
    assert_eq!(get_file_icon(true), "📁");
    assert_eq!(get_file_icon(false), "📄");
}

#[test]
fn decimal_rendering() {
    assert_eq!(u64_to_string(0), "0");
    assert_eq!(u64_to_string(42), "42");
    assert_eq!(u64_to_string(90210), "90210");
}

#[test]
fn sizes_render_with_one_decimal() {
    assert_eq!(format_size(512), "512 B");
    assert_eq!(format_size(1536), "1.5 KB");
    assert_eq!(format_size(1048576), "1.0 MB");
    assert_eq!(format_size(3 * 1073741824), "3.0 GB");
}

#[test]
fn times_render_with_fixed_months() {
    assert_eq!(format_time(0), "1970-01-01 00:00:00");
    assert_eq!(format_time(86400 + 3661), "1970-01-02 01:01:01");
}

#[test]
fn file_types_by_extension() {
    assert_eq!(get_file_type(true, "rs"), FileType::Directory);
    assert_eq!(get_file_type(false, "rs"), FileType::Code);
    assert_eq!(get_file_type(false, "pdf"), FileType::PDF);
    assert_eq!(get_file_type(false, "flac"), FileType::Audio);
    assert_eq!(get_file_type(false, "webp"), FileType::Image);
    assert_eq!(get_file_type(false, "mkv"), FileType::Video);
    assert_eq!(get_file_type(false, "md"), FileType::Text);
    assert_eq!(get_file_type(false, "docx"), FileType::Word);
    assert_eq!(get_file_type(false, "xlsx"), FileType::Excel);
    assert_eq!(get_file_type(false, "key"), FileType::PowerPoint);
    assert_eq!(get_file_type(false, "zzz"), FileType::Other);
}

#[test]
fn executable_headers() {
    assert!(is_executable_header(0x7f, b'E', b'L', b'F'));
    assert!(is_executable_header(0xfe, 0xed, 0xfa, 0xce));
    assert!(is_executable_header(0xfe, 0xed, 0xfa, 0xcf));
    assert!(!is_executable_header(b'M', b'Z', 0, 0));
    assert!(is_shebang_header(b'#', b'!'));
    assert!(!is_shebang_header(b'#', b'#'));
}

#[test]
fn journal_lines_yield_events() {
    let r = parse_journal_line("inotify CREATE /home/user/new.txt").unwrap();
    assert!(matches!(r.0, ChangeKind::Created));
    assert_eq!(r.1, "/home/user/new.txt");
    let r = parse_journal_line("inotify MODIFY /tmp/x").unwrap();
    assert!(matches!(r.0, ChangeKind::Modified));
    let r = parse_journal_line("inotify DELETE /tmp/x").unwrap();
    assert!(matches!(r.0, ChangeKind::Removed));
    assert!(parse_journal_line("no kind here /tmp/x").is_none());
    assert!(parse_journal_line("CREATE without path").is_none());
}

#[test]
fn numbers_parse_exactly() {
    assert_eq!(parse_number("0"), Some(0));
    assert_eq!(parse_number("123"), Some(123));
    assert_eq!(parse_number(""), None);
    assert_eq!(parse_number("12a"), None);
    assert_eq!(parse_number("18446744073709551615"), Some(u64::MAX));
    assert_eq!(parse_number("18446744073709551616"), None);
}
