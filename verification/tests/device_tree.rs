use buddy_heap::device_tree::{cell_count, read_reg_from_cells, reg_is_readable};

#[test]
fn one_cell_each() {
    let reg = [0x10, 0x00, 0x00, 0x00, 0x00, 0x00, 0x01, 0x00];
    assert_eq!(read_reg_from_cells(&reg, 1, 1), Some((0x1000_0000, 0x100)));
}

#[test]
fn two_cells_each() {
    let reg = [0, 0, 0, 1, 0x80, 0, 0, 0, 0, 0, 0, 0, 0, 0x20, 0, 0];
    assert_eq!(read_reg_from_cells(&reg, 2, 2), Some((0x1_8000_0000, 0x20_0000)));
}

#[test]
fn mixed_widths() {
    let reg = [0, 0, 0, 0, 0x0c, 0, 0, 0, 0, 0x01, 0x02, 0x03];
    assert_eq!(read_reg_from_cells(&reg, 2, 1), Some((0x0c00_0000, 0x0001_0203)));
    assert_eq!(read_reg_from_cells(&reg, 1, 2), Some((0, 0x0c00_0000_0001_0203)));
}

#[test]
fn byte_order_is_big_endian() {
    let reg = [0x01, 0x02, 0x03, 0x04, 0xff, 0xfe, 0xfd, 0xfc];
    assert_eq!(read_reg_from_cells(&reg, 1, 1), Some((0x0102_0304, 0xfffe_fdfc)));
}

#[test]
fn too_short_property() {
    assert_eq!(read_reg_from_cells(&[0], 1, 1), None);
    assert_eq!(read_reg_from_cells(&[], 2, 2), None);
    assert_eq!(read_reg_from_cells(&[1, 2, 3], 2, 2), None);
}

#[test]
fn unsupported_widths() {
    let reg = [0u8; 16];
    assert_eq!(read_reg_from_cells(&reg, 0, 1), None);
    assert_eq!(read_reg_from_cells(&reg, 3, 1), None);
    assert_eq!(read_reg_from_cells(&reg, 1, 0), None);
    assert_eq!(read_reg_from_cells(&reg, 1, 3), None);
    assert_eq!(read_reg_from_cells(&reg, 0, 0), None);
}

#[test]
fn readable_tells_when_every_byte_is_there() {
    assert!(reg_is_readable(8, 1, 1));
    assert!(!reg_is_readable(7, 1, 1));
    assert!(!reg_is_readable(3, 1, 1));
    assert!(reg_is_readable(1, 1, 1));
    assert!(reg_is_readable(16, 2, 2));
    assert!(!reg_is_readable(15, 2, 2));
    assert!(reg_is_readable(4, 1, 3));
    assert!(reg_is_readable(4, 0, 1));
}

#[test]
fn cell_count_reads_one_cell_or_gives_zero() {
    assert_eq!(cell_count(&[0, 0, 0, 2]), 2);
    assert_eq!(cell_count(&[0x12, 0x34, 0x56, 0x78]), 0x1234_5678);
    assert_eq!(cell_count(&[]), 0);
    assert_eq!(cell_count(&[0, 0, 2]), 0);
    assert_eq!(cell_count(&[0, 0, 0, 0, 2]), 0);
}
