use capnprust::read_u32;
use capnprust::write_u32;

#[test]
fn write_u32_is_little_endian() {
    let mut buf = vec![0xFFu8; 12];
    write_u32(&mut buf, 4, 0x0A0B0C0D);
    assert_eq!(
        buf,
        vec![0xFF, 0xFF, 0xFF, 0xFF, 0x0D, 0x0C, 0x0B, 0x0A, 0xFF, 0xFF, 0xFF, 0xFF]
    );
}

#[test]
fn read_u32_reads_back_what_was_written() {
    let mut buf = vec![0u8; 8];
    write_u32(&mut buf, 0, 0xDEADBEEF);
    write_u32(&mut buf, 4, 7);
    assert_eq!(read_u32(&buf, 0), 0xDEADBEEF);
    assert_eq!(read_u32(&buf, 4), 7);
}

#[test]
fn read_u32_at_offset() {
    let buf = vec![0x01u8, 0x02, 0x03, 0x04, 0x05, 0x06, 0x07, 0x08];
    assert_eq!(read_u32(&buf, 0), 0x04030201);
    assert_eq!(read_u32(&buf, 4), 0x08070605);
}
