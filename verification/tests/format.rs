use atari_8bit_tools::assembler::format::{braces, format_source, is_source_extension, parse, reformatted, Slice};

fn chars(s: &str) -> Vec<char> {
    s.chars().collect()
}

#[test]
fn formats_labels_code_comments_and_braces() {
    let input = "label:\nlda #1 // comment\n{\nnop\n}\n";
    let expected = "label:\n    lda #1 // comment\n    {\n        nop\n    }\n";
    assert_eq!(format_source(input), expected);
}

#[test]
fn collapses_white_space_outside_string_literals() {
    let input = "  lda   \"a  b\"   ,x  \n";
    assert_eq!(format_source(input), "    lda \"a  b\" ,x\n");
}

#[test]
fn tabs_in_code_become_one_space() {
    assert_eq!(format_source("lda\t\t#1"), "    lda #1\n");
}

#[test]
fn white_space_in_comments_becomes_spaces() {
    assert_eq!(format_source("// a\t\tb"), "    // a  b\n");
}

#[test]
fn block_comments_span_lines() {
    let input = "/* a\n  b */ nop\n";
    assert_eq!(format_source(input), "    /* a\n    b */ nop\n");
}

#[test]
fn byte_order_mark_and_trailing_empty_lines_are_dropped() {
    let input = "\u{FEFF}nop\r\n\r\n  \n\n";
    assert_eq!(format_source(input), "    nop\n");
}

#[test]
fn empty_text_stays_empty() {
    assert_eq!(format_source(""), "");
    assert_eq!(format_source("\n\n   \n"), "");
}

#[test]
fn empty_lines_inside_are_kept() {
    assert_eq!(format_source("a:\n\nb:"), "a:\n\nb:\n");
}

#[test]
fn indentation_never_goes_below_zero() {
    assert_eq!(format_source("}\n}\nnop"), "    }\n    }\n    nop\n");
}

#[test]
fn braces_in_comments_do_not_count() {
    let input = "x: { // {\nnop\n}";
    assert_eq!(format_source(input), "x: { // {\n        nop\n    }\n");
}

#[test]
fn parse_cuts_code_and_line_comment() {
    let mut block = false;
    let slices = parse(&chars("lda #1 // load"), &mut block);
    assert!(!block);
    assert_eq!(slices.len(), 3);
    assert!(matches!(&slices[0], Slice::Text(t) if *t == chars("lda #1")));
    assert!(matches!(&slices[1], Slice::Line));
    assert!(matches!(&slices[2], Slice::Comment(c) if *c == chars("load")));
}

#[test]
fn parse_leaves_block_comment_open() {
    let mut block = false;
    let slices = parse(&chars("nop /* open"), &mut block);
    assert!(block);
    assert_eq!(slices.len(), 3);
    assert!(matches!(&slices[0], Slice::Text(t) if *t == chars("nop")));
    assert!(matches!(&slices[1], Slice::BlockOpen));
    assert!(matches!(&slices[2], Slice::Comment(c) if *c == chars("open")));
    let slices = parse(&chars("still */ rts"), &mut block);
    assert!(!block);
    assert_eq!(slices.len(), 3);
    assert!(matches!(&slices[0], Slice::Comment(c) if *c == chars("still")));
    assert!(matches!(&slices[1], Slice::BlockClose));
    assert!(matches!(&slices[2], Slice::Text(t) if *t == chars("rts")));
}

#[test]
fn parse_of_blank_rest_gives_empty_text() {
    let mut block = true;
    let slices = parse(&chars("*/   "), &mut block);
    assert!(!block);
    assert_eq!(slices.len(), 2);
    assert!(matches!(&slices[0], Slice::BlockClose));
    assert!(matches!(&slices[1], Slice::Text(t) if t.is_empty()));
}

#[test]
fn line_comment_before_block_comment_wins() {
    let mut block = false;
    let slices = parse(&chars("a // b /* c"), &mut block);
    assert!(!block);
    assert_eq!(slices.len(), 3);
    assert!(matches!(&slices[2], Slice::Comment(c) if *c == chars("b /* c")));
}

#[test]
fn braces_counts_code_text_only() {
    let mut block = false;
    let slices = parse(&chars("{ { } // {"), &mut block);
    assert_eq!(braces(&slices), 1);
    let slices = parse(&chars("} } /* { */"), &mut block);
    assert_eq!(braces(&slices), -2);
}

#[test]
fn block_comment_delimiters_alternate_across_lines() {
    let mut open = false;
    let r = parse(&chars("a /* b */ c /* d"), &mut open);
    let delims: Vec<bool> = r
        .iter()
        .filter_map(|s| match s {
            Slice::BlockOpen => Some(true),
            Slice::BlockClose => Some(false),
            _ => None,
        })
        .collect();
    assert_eq!(delims, vec![true, false, true]);
    assert!(open);
    let r = parse(&chars("e */ f"), &mut open);
    assert!(matches!(r[1], Slice::BlockClose));
    assert!(!open);
    let r = parse(&chars(""), &mut open);
    assert!(r.is_empty());
    assert!(!open);
}

#[test]
fn only_the_asm_extension_is_a_source() {
    assert!(is_source_extension("asm"));
    assert!(!is_source_extension("ASM"));
    assert!(!is_source_extension("asm2"));
    assert!(!is_source_extension("s"));
    assert!(!is_source_extension(""));
}

#[test]
fn formatted_files_are_left_alone() {
    assert_eq!(reformatted("    lda #1\n"), None);
    assert_eq!(reformatted("lda #1"), Some("    lda #1\n".to_string()));
    assert_eq!(reformatted(""), None);
}
