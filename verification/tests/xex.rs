use atari_8bit_tools::kick_assembler::{Output, Prg, Symbols};
use atari_8bit_tools::xex::segment::Segment;
use atari_8bit_tools::xex::xex_file::{XexError, XexFile};

#[test]
fn writes_header_segments_init_and_run() {
    let mut x = XexFile::new();
    x.write_segment(&(0x2000u16, &[1u8, 2, 3][..])).unwrap();
    x.init(0x2000).unwrap();
    let bytes = x.run(0x2010).unwrap();
    assert_eq!(
        bytes,
        vec![
            0xff, 0xff, 0x00, 0x20, 0x02, 0x20, 1, 2, 3, 0xe2, 0x02, 0xe3, 0x02, 0x00, 0x20, 0xe0,
            0x02, 0xe1, 0x02, 0x10, 0x20
        ]
    );
}

#[test]
fn empty_segment_is_refused() {
    let mut x = XexFile::new();
    let r = x.write_segment(&(0x2000u16, &[][..]));
    assert!(matches!(r, Err(XexError::InvalidSegment)));
    assert_eq!(x.run(0).unwrap().len(), 2 + 6);
}

#[test]
fn segment_past_ffff_is_refused() {
    let mut x = XexFile::new();
    assert!(matches!(
        x.write_segment(&(0xffffu16, &[1u8, 2])),
        Err(XexError::InvalidSegment)
    ));
    x.write_segment(&(0xffffu16, &[7u8])).unwrap();
    x.write_segment(&(0xfffeu16, &[7u8, 8])).unwrap();
    let bytes = x.run(0).unwrap();
    assert_eq!(&bytes[..2 + 5 + 6], &[0xff, 0xff, 0xff, 0xff, 0xff, 0xff, 7, 0xfe, 0xff, 0xff, 0xff, 7, 8]);
}

#[test]
fn streams_write_into_the_given_destination() {
    let mut v: Vec<u8> = vec![9];
    {
        let mut x = XexFile::stream(&mut v).unwrap();
        x.write_segment(&(0x0600u16, &[0xeau8])).unwrap();
    }
    assert_eq!(v, vec![9, 0xff, 0xff, 0x00, 0x06, 0x00, 0x06, 0xea]);
    let x = XexFile::owned_stream(Vec::new()).unwrap();
    assert_eq!(x.run(0x0600).unwrap(), vec![0xff, 0xff, 0xe0, 0x02, 0xe1, 0x02, 0x00, 0x06]);
}

#[test]
fn prg_bytes_hold_address_and_contents() {
    let p = Prg::from_file_bytes(vec![0x01, 0x08, 0xa9, 0x00]).unwrap();
    assert_eq!(p.address, 0x0801);
    assert_eq!(p.contents, vec![0xa9, 0x00]);
    assert_eq!(p.address(), 0x0801);
    assert_eq!(p.contents(), &[0xa9, 0x00]);
}

#[test]
fn output_is_written_as_its_program() {
    let out = Output {
        prg: Prg::from_file_bytes(vec![0x00, 0x20, 0x60]).unwrap(),
        symbols: Symbols { symbols: Vec::new() },
    };
    let mut x = XexFile::new();
    x.write_segment(&out).unwrap();
    assert_eq!(x.run(0x2000).unwrap()[..7].to_vec(), vec![0xff, 0xff, 0x00, 0x20, 0x00, 0x20, 0x60]);
}

#[test]
fn prg_file_shorter_than_an_address_holds_no_program() {
    assert!(Prg::from_file_bytes(vec![]).is_none());
    assert!(Prg::from_file_bytes(vec![0x01]).is_none());
    let p = Prg::from_file_bytes(vec![0x00, 0x20]).unwrap();
    assert_eq!(p.address, 0x2000);
    assert!(p.contents.is_empty());
}

#[test]
fn stream_appends_the_header_to_the_borrowed_vector() {
    let mut v: Vec<u8> = vec![1];
    {
        let x = XexFile::stream(&mut v).unwrap();
        assert_eq!(*x.file, vec![1, 0xff, 0xff]);
    }
    assert_eq!(v, vec![1, 0xff, 0xff]);
}

#[test]
fn owned_stream_on_a_vector_appends_the_header() {
    let x = XexFile::owned_stream(vec![7u8]).unwrap();
    assert_eq!(x.file, vec![7, 0xff, 0xff]);
}

#[test]
fn segments_at_the_top_of_memory_and_refusals() {
    let mut x = XexFile::new();
    x.write_segment(&(0xfffeu16, &[1u8, 2u8][..])).unwrap();
    assert_eq!(x.file, vec![0xff, 0xff, 0xfe, 0xff, 0xff, 0xff, 1, 2]);
    assert!(matches!(x.write_segment(&(0xffffu16, &[1u8, 2u8][..])), Err(XexError::InvalidSegment)));
    assert!(matches!(x.write_segment(&(0x2000u16, &[0u8; 0][..])), Err(XexError::InvalidSegment)));
    assert_eq!(x.file, vec![0xff, 0xff, 0xfe, 0xff, 0xff, 0xff, 1, 2]);
}

#[test]
fn init_on_a_new_file() {
    let mut x = XexFile::new();
    x.init(0x0600).unwrap();
    assert_eq!(x.file, vec![0xff, 0xff, 0xe2, 0x02, 0xe3, 0x02, 0x00, 0x06]);
}
