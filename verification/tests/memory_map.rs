use atari_8bit_tools::kick_assembler::memory_map::{read_memory_map, MapError};

const RUN: &str = "Memory Map\n  $0801-$080c Basic\n  $080d-$080d FREE\n  $0810-$0820 Main\n  *$1000-$10ff Virt (page $100)\nWriting Symbol file: main.sym\n";

#[test]
fn prints_regions_and_free_memory() {
    let m = read_memory_map(RUN.as_bytes());
    let expected = "Memory Map\n   0801-080c    12 Basic\n   080d-080f     3 FREE\n   0810-0820    17 Main\n  *1000-10ff   256 Virt (page $100)\nWriting Symbol file: main.sym\n\nTotal Free memory 3\n";
    assert_eq!(String::from_utf8(m.printed).unwrap(), expected);
    assert!(matches!(m.result, Ok(3)));
}

#[test]
fn crlf_output_is_read() {
    let run = RUN.replace('\n', "\r\n");
    let m = read_memory_map(run.as_bytes());
    assert!(matches!(m.result, Ok(3)));
}

#[test]
fn output_without_symbol_file_is_not_identified() {
    let m = read_memory_map(b"  $0801-$080c Basic\n");
    assert_eq!(String::from_utf8(m.printed).unwrap(), "   0801-080c    12 Basic\n\n");
    assert!(matches!(m.result, Err(MapError::NotIdentified)));
}

#[test]
fn region_crossing_a_page_is_refused() {
    let line = "  $10f0-$1110 X (page 256)";
    let m = read_memory_map(format!("{line}\nWriting Symbol\n").as_bytes());
    assert_eq!(String::from_utf8(m.printed).unwrap(), "   10f0-1110    33 X (page 256)\n");
    match m.result {
        Err(MapError::InvalidPageUsage { line: l }) => assert_eq!(l, line.as_bytes()),
        _ => panic!("expected a page usage error"),
    }
}

#[test]
fn page_size_must_be_a_power_of_two() {
    let line = "  $1000-$1001 X (page 0x3)";
    let m = read_memory_map(format!("{line}\n").as_bytes());
    match m.result {
        Err(MapError::InvalidPageDefinition { line: l }) => assert_eq!(l, line.as_bytes()),
        _ => panic!("expected a page definition error"),
    }
}

#[test]
fn page_numbers_must_fit_sixteen_bits() {
    let m = read_memory_map(b"  $1000-$1001 X (page 70000)\n");
    assert!(matches!(m.result, Err(MapError::PageNumberTooLarge)));
    let m = read_memory_map(b"  $1000-$1001 X (page $10000)\n");
    assert!(matches!(m.result, Err(MapError::PageNumberTooLarge)));
}

#[test]
fn region_inside_its_page_is_accepted() {
    let m = read_memory_map(b"  $1000-$10ff X (page 0x0100)\nWriting Symbol\n");
    assert!(matches!(m.result, Ok(0)));
}

#[test]
fn page_zero_stops_the_reading() {
    let m = read_memory_map(b"  $1000-$1001 X (page 0)\n");
    assert!(matches!(m.result, Err(MapError::Overflow)));
}

#[test]
fn gap_that_ends_before_it_starts_stops_the_reading() {
    let m = read_memory_map(b"  $2000-$2000 FREE\n  $1000-$1001 X\n");
    assert_eq!(m.printed, Vec::<u8>::new());
    assert!(matches!(m.result, Err(MapError::Overflow)));
}

#[test]
fn lines_that_are_not_utf8_are_echoed() {
    let m = read_memory_map(b"\xff\xfe\nWriting Symbol\n");
    assert_eq!(m.printed, b"\xff\xfe\nWriting Symbol\n\nTotal Free memory 0\n".to_vec());
}

#[test]
fn malformed_page_clauses_are_ignored() {
    let m = read_memory_map(b"  $1000-$1001 X (page 12ab)\n  $1000-$1001 Y (page 0x)\nWriting Symbol\n");
    assert!(matches!(m.result, Ok(0)));
}

#[test]
fn symbol_line_that_is_not_utf8_does_not_count() {
    let m = read_memory_map(b"Writing Symbol\xff\n");
    assert_eq!(m.printed, b"Writing Symbol\xff\n\n".to_vec());
    assert!(matches!(m.result, Err(MapError::NotIdentified)));
}

#[test]
fn region_line_that_is_not_utf8_is_not_a_region() {
    let m = read_memory_map(b"  $1000-$10ff X\xff (page 0)\nWriting Symbol\n");
    assert!(matches!(m.result, Ok(0)));
}
