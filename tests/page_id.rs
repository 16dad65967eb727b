use virt_texture::page_id::{reduce_feedback, reduce_page_ids, PageId};

fn fields(p: &PageId) -> (u16, u16, u8) {
    (p.page_x(), p.page_y(), p.mip_level())
}

#[test]
fn from_bytes_decodes_low_bit_of_page_x() {
    let p = PageId::from_bytes(&[0x00, 0x04, 0x00, 0x10]);
    assert_eq!(p.page_x(), 1);
    assert_eq!(p.mip_level(), 0);
    // The high nibble of the last byte holds the low four bits of page_y.
    assert_eq!(p.page_y(), 1);
}

#[test]
fn from_bytes_decodes_field_boundaries() {
    assert_eq!(fields(&PageId::from_bytes(&[0x00, 0x00, 0x00, 0x00])), (0, 0, 0));
    assert_eq!(fields(&PageId::from_bytes(&[0xFF, 0xFF, 0xFF, 0xFF])), (16383, 16383, 15));
    assert_eq!(fields(&PageId::from_bytes(&[0xFF, 0xFC, 0x00, 0x00])), (16383, 0, 0));
    assert_eq!(fields(&PageId::from_bytes(&[0x80, 0x00, 0x00, 0x00])), (8192, 0, 0));
    assert_eq!(fields(&PageId::from_bytes(&[0x00, 0x03, 0x00, 0x00])), (0, 12288, 0));
    assert_eq!(fields(&PageId::from_bytes(&[0x00, 0x02, 0x00, 0x00])), (0, 8192, 0));
    assert_eq!(fields(&PageId::from_bytes(&[0x00, 0x00, 0xFF, 0x00])), (0, 4080, 0));
    assert_eq!(fields(&PageId::from_bytes(&[0x00, 0x00, 0x00, 0xF0])), (0, 15, 0));
    assert_eq!(fields(&PageId::from_bytes(&[0x00, 0x00, 0x00, 0x0F])), (0, 0, 15));
    assert_eq!(fields(&PageId::from_bytes(&[0x01, 0x04, 0x01, 0x12])), (65, 17, 2));
}

#[test]
fn to_bytes_inverts_from_bytes() {
    let samples = [
        (0u16, 0u16, 0u8),
        (1, 0, 0),
        (16383, 16383, 15),
        (8192, 4095, 7),
        (123, 4567, 9),
    ];
    for (x, y, m) in samples {
        let p = PageId::new(x, y, m);
        let bytes = p.to_bytes();
        assert_eq!(PageId::from_bytes(&bytes), p);
    }
    assert_eq!(PageId::new(1, 1, 0).to_bytes(), [0x00, 0x04, 0x00, 0x10]);
    for bytes in [[0x12u8, 0x34, 0x56, 0x78], [0xFF, 0x00, 0xAB, 0xCD]] {
        assert_eq!(PageId::from_bytes(&bytes).to_bytes(), bytes);
    }
}

#[test]
fn page_ids_order_by_mip_then_y_then_x() {
    let a = PageId::new(5, 5, 0);
    let b = PageId::new(0, 0, 1);
    let c = PageId::new(9, 0, 1);
    let d = PageId::new(0, 1, 1);
    assert!(a < b);
    assert!(b < c);
    assert!(c < d);
    assert!(d > a);
    assert_eq!(a.partial_cmp(&a), Some(std::cmp::Ordering::Equal));
    assert_eq!(a.sort_key(), 5 * 65536 + 5);
    assert_eq!(b.sort_key(), 1u64 << 32);
}

#[test]
fn reduce_page_ids_sorts_descending_without_duplicates() {
    let ids = vec![
        PageId::new(3, 1, 0),
        PageId::new(0, 0, 2),
        PageId::new(3, 1, 0),
        PageId::new(1, 1, 1),
        PageId::new(0, 2, 1),
        PageId::new(0, 0, 2),
        PageId::new(7, 0, 0),
    ];
    let reduced = reduce_page_ids(&ids);
    let expected = vec![
        PageId::new(0, 0, 2),
        PageId::new(0, 2, 1),
        PageId::new(1, 1, 1),
        PageId::new(3, 1, 0),
        PageId::new(7, 0, 0),
    ];
    assert_eq!(reduced, expected);
    for pair in reduced.windows(2) {
        assert!(pair[1] < pair[0]);
    }
}

#[test]
fn reduce_page_ids_of_nothing_is_empty() {
    assert!(reduce_page_ids(&[]).is_empty());
}

#[test]
fn reduce_feedback_decodes_and_deduplicates() {
    let buffer = [
        0x00, 0x04, 0x00, 0x10, // (1, 1, 0)
        0x00, 0x00, 0x00, 0x01, // (0, 0, 1)
        0x00, 0x04, 0x00, 0x10, // (1, 1, 0) again
        0x00, 0x08, 0x00, 0x00, // (2, 0, 0)
    ];
    let reduced = reduce_feedback(&buffer);
    assert_eq!(
        reduced,
        vec![PageId::new(0, 0, 1), PageId::new(1, 1, 0), PageId::new(2, 0, 0)]
    );
    assert!(reduce_feedback(&[]).is_empty());
}
