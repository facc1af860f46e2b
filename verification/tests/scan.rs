use wgsl_modules::scan::{insert_include, is_complete, read_directive, scan_includes, Include};

fn inc(path: &str, start: usize, end: usize) -> Include {
    Include { path: path.to_string(), start, end }
}

#[test]
fn scan_finds_nothing_in_plain_text() {
    assert_eq!(scan_includes("fn main() {}\n"), Vec::<Include>::new());
    assert_eq!(scan_includes(""), Vec::<Include>::new());
}

#[test]
fn scan_line_form_behind_newline() {
    let source = "x\n& include \"b.inc\"\ny\n";
    let found = scan_includes(source);
    assert_eq!(found, vec![inc("b.inc", 2, 19)]);
    assert_eq!(&source[2..19], "& include \"b.inc\"");
}

#[test]
fn scan_line_form_at_start_of_text() {
    let source = "& include \"a.wgsl\"\nrest";
    assert_eq!(scan_includes(source), vec![inc("a.wgsl", 0, 18)]);
}

#[test]
fn scan_line_form_with_semicolon_takes_the_semicolon() {
    let source = "& include \"a.wgsl\";\nrest";
    let found = scan_includes(source);
    assert_eq!(found, vec![inc("a.wgsl", 0, 19)]);
    assert_eq!(&source[0..19], "& include \"a.wgsl\";");
}

#[test]
fn scan_line_form_with_comment_marker_and_single_quotes() {
    let source = "a;\n  //& include 'dir/a.wgsl'\nb";
    let found = scan_includes(source);
    assert_eq!(found.len(), 1);
    assert_eq!(found[0].path, "dir/a.wgsl");
    assert_eq!(&source[found[0].start..found[0].end], "//& include 'dir/a.wgsl'");
}

#[test]
fn scan_newline_anchor_keeps_the_indent_in_the_directive() {
    let source = "a\n   & include \"b\"\nc";
    let found = scan_includes(source);
    assert_eq!(found.len(), 1);
    assert_eq!(&source[found[0].start..found[0].end], "   & include \"b\"");
}

#[test]
fn scan_brace_anchor_leaves_the_indent_in_the_text() {
    let source = "fn f() {}  & include \"b\";\nc";
    let found = scan_includes(source);
    assert_eq!(found.len(), 1);
    assert_eq!(&source[found[0].start..found[0].end], "& include \"b\";");
}

#[test]
fn scan_block_form() {
    let source = "a\n/* & include \"b.wgsl\" */\nc";
    let found = scan_includes(source);
    assert_eq!(found.len(), 1);
    assert_eq!(found[0].path, "b.wgsl");
    assert_eq!(&source[found[0].start..found[0].end], "/* & include \"b.wgsl\" */");
}

#[test]
fn scan_block_form_with_semicolon_inside() {
    let source = "/* & include \"b.wgsl\"; */ rest";
    let found = scan_includes(source);
    assert_eq!(found.len(), 1);
    assert_eq!(&source[found[0].start..found[0].end], "/* & include \"b.wgsl\"; */");
}

#[test]
fn scan_orders_both_forms_by_place() {
    let source = "/* & include \"first\" */\n& include \"second\"\n/* & include \"third\" */\n";
    let found = scan_includes(source);
    let paths: Vec<&str> = found.iter().map(|i| i.path.as_str()).collect();
    assert_eq!(paths, vec!["first", "second", "third"]);
    assert!(found[0].end <= found[1].start);
    assert!(found[1].end <= found[2].start);
}

#[test]
fn scan_finds_directives_in_a_row() {
    let source = "& include \"a\";& include \"b\";\n& include \"c\"\n";
    let found = scan_includes(source);
    let paths: Vec<&str> = found.iter().map(|i| i.path.as_str()).collect();
    assert_eq!(paths, vec!["a", "b", "c"]);
    assert_eq!(&source[found[1].start..found[1].end], "& include \"b\";");
}

#[test]
fn scan_ignores_unterminated_quote() {
    assert_eq!(scan_includes("& include \"a.wgsl\nrest\n"), Vec::<Include>::new());
}

#[test]
fn scan_ignores_directive_without_anchor() {
    assert_eq!(scan_includes("x & include \"a\"\n"), Vec::<Include>::new());
}

#[test]
fn scan_takes_path_with_separators_as_written() {
    let found = scan_includes("& include \"..\\dir/a b.wgsl\"\n");
    assert_eq!(found.len(), 1);
    assert_eq!(found[0].path, "..\\dir/a b.wgsl");
}

#[test]
fn scan_gives_byte_offsets_in_text_beyond_ascii() {
    let source = "// größe\n& include \"é.wgsl\"\n";
    let found = scan_includes(source);
    assert_eq!(found.len(), 1);
    assert_eq!(found[0].path, "é.wgsl");
    assert_eq!(&source[found[0].start..found[0].end], "& include \"é.wgsl\"");
}

#[test]
fn insert_include_keeps_order() {
    let mut list = vec![inc("a", 0, 5), inc("c", 20, 25)];
    insert_include(&mut list, inc("b", 10, 15));
    assert_eq!(list, vec![inc("a", 0, 5), inc("b", 10, 15), inc("c", 20, 25)]);
    insert_include(&mut list, inc("z", 30, 31));
    assert_eq!(list.len(), 4);
    assert_eq!(list[3], inc("z", 30, 31));
}

#[test]
fn insert_include_drops_what_overlaps() {
    let mut list = vec![inc("a", 0, 5), inc("c", 20, 25)];
    insert_include(&mut list, inc("b", 4, 10));
    assert_eq!(list, vec![inc("a", 0, 5), inc("c", 20, 25)]);
    insert_include(&mut list, inc("d", 10, 21));
    assert_eq!(list, vec![inc("a", 0, 5), inc("c", 20, 25)]);
    insert_include(&mut list, inc("e", 5, 20));
    assert_eq!(list, vec![inc("a", 0, 5), inc("e", 5, 20), inc("c", 20, 25)]);
}

#[test]
fn read_directive_of_line_match() {
    let source = "x\n& include \"b.inc\"\ny\n";
    let groups = vec![Some((1, 20)), Some((1, 2)), Some((2, 2)), Some((13, 18)), Some((19, 20))];
    assert!(is_complete(&groups, source.len()));
    assert_eq!(read_directive(source, &groups), Some(inc("b.inc", 2, 19)));
}

#[test]
fn read_directive_behind_semicolon_skips_the_indent() {
    let source = "a;  & include 'b';c";
    let groups = vec![Some((1, 18)), Some((1, 2)), Some((2, 4)), Some((15, 16)), Some((17, 18))];
    assert!(is_complete(&groups, source.len()));
    assert_eq!(read_directive(source, &groups), Some(inc("b", 4, 18)));
}

#[test]
fn read_directive_rejects_empty_range_and_cut_characters() {
    let source = "é& include \"b\"\n";
    let empty = vec![Some((3, 3)), Some((3, 3)), Some((3, 3)), Some((3, 3)), Some((3, 3))];
    assert!(is_complete(&empty, source.len()));
    assert_eq!(read_directive(source, &empty), None);
    let cut = vec![Some((1, 15)), Some((1, 1)), Some((1, 1)), Some((13, 14)), Some((15, 15))];
    assert!(is_complete(&cut, source.len()));
    assert_eq!(read_directive(source, &cut), None);
}

#[test]
fn is_complete_wants_five_groups_inside_the_text() {
    assert!(!is_complete(&vec![Some((0, 1)), Some((0, 0)), Some((0, 0)), Some((0, 1))], 10));
    assert!(!is_complete(&vec![Some((0, 1)), None, Some((0, 0)), Some((0, 1)), Some((1, 1))], 10));
    assert!(!is_complete(&vec![Some((0, 11)), Some((0, 0)), Some((0, 0)), Some((0, 1)), Some((1, 1))], 10));
    assert!(!is_complete(&vec![Some((2, 1)), Some((0, 0)), Some((0, 0)), Some((0, 1)), Some((1, 1))], 10));
    assert!(is_complete(&vec![Some((0, 10)), Some((0, 0)), Some((0, 0)), Some((0, 1)), Some((1, 1)), None], 10));
}
