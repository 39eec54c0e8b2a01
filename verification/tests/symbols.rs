use atari_8bit_tools::kick_assembler::symbols::{Symbols, SymbolsError};

const SAMPLE: &str = ".label main=$0810\n.label data=$2000 {\n    .label x=$2001\n\n    .label y=$2002  \n}\n.label Zed=$1\n";

#[test]
fn reads_nested_symbols() {
    let s = Symbols::parse(SAMPLE).unwrap();
    assert_eq!(s.get("main"), Some(0x0810));
    assert_eq!(s.get("data"), Some(0x2000));
    assert_eq!(s.get("data.x"), Some(0x2001));
    assert_eq!(s.get("data.y"), Some(0x2002));
    assert_eq!(s.get("Zed"), Some(1));
}

#[test]
fn missing_names_give_nothing() {
    let s = Symbols::parse(SAMPLE).unwrap();
    assert_eq!(s.get("x"), None);
    assert_eq!(s.get("main.x"), None);
    assert_eq!(s.get("data.z"), None);
    assert_eq!(s.get(""), None);
    assert_eq!(s.get("data."), None);
}

#[test]
fn levels_are_ordered_by_name() {
    let s = Symbols::parse(SAMPLE).unwrap();
    let names: Vec<&str> = s.symbols.iter().map(|e| e.0.as_str()).collect();
    assert_eq!(names, vec!["Zed", "data", "main"]);
}

#[test]
fn a_later_definition_replaces_an_earlier_one() {
    let s = Symbols::parse(".label a=$1\n.label b=$3\n.label a=$2\n").unwrap();
    assert_eq!(s.symbols.len(), 2);
    assert_eq!(s.get("a"), Some(2));
}

#[test]
fn crlf_lines_are_read() {
    let s = Symbols::parse(".label a=$ff\r\n.label b=$FFFF {\r\n.label c=$0\r\n}\r\n").unwrap();
    assert_eq!(s.get("a"), Some(0xff));
    assert_eq!(s.get("b.c"), Some(0));
    assert_eq!(s.get("b"), Some(0xffff));
}

#[test]
fn unexpected_closing_brace_reports_its_line() {
    assert_eq!(
        Symbols::parse(".label a=$1\n}\n").err(),
        Some(SymbolsError::UnexpectedClosingBrace { line: 3 })
    );
    assert_eq!(
        Symbols::parse("}").err(),
        Some(SymbolsError::UnexpectedClosingBrace { line: 2 })
    );
}

#[test]
fn unparsable_lines_are_reported() {
    assert_eq!(Symbols::parse("foo").err(), Some(SymbolsError::Unparsable { line: 2 }));
    assert_eq!(
        Symbols::parse(".label a=$12345").err(),
        Some(SymbolsError::Unparsable { line: 2 })
    );
    assert_eq!(
        Symbols::parse("\n.label a-b=$1").err(),
        Some(SymbolsError::Unparsable { line: 3 })
    );
    assert_eq!(Symbols::parse(".label a=$1 { x").err(), Some(SymbolsError::Unparsable { line: 2 }));
}

#[test]
fn missing_closing_brace_is_reported() {
    assert_eq!(
        Symbols::parse(".label a=$1 {\n.label b=$2\n").err(),
        Some(SymbolsError::MissingClosingBrace)
    );
}

#[test]
fn empty_file_has_no_symbols() {
    let s = Symbols::parse("").unwrap();
    assert!(s.symbols.is_empty());
    assert_eq!(s.get("a"), None);
}

#[test]
fn entries_are_listed_by_address() {
    let s = Symbols::parse(".label c=$10\n.label a=$20\n.label b=$10\n.label d=$5\n").unwrap();
    let order = s.by_address();
    let names: Vec<&str> = order.iter().map(|&i| s.symbols[i].0.as_str()).collect();
    assert_eq!(names, vec!["d", "b", "c", "a"]);
}

#[test]
fn a_found_dotted_name_has_every_prefix_found() {
    let s = Symbols::parse(".label a=$10 {\n.label b=$20 {\n.label c=$30\n}\n}\n").unwrap();
    assert_eq!(s.get("a.b.c"), Some(0x30));
    assert_eq!(s.get("a.b"), Some(0x20));
    assert_eq!(s.get("a"), Some(0x10));
    assert_eq!(s.get("b"), None);
    assert_eq!(s.get("b.c"), None);
}
