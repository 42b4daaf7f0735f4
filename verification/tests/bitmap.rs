use paged_records::bitmap::Bitmap;

#[test]
fn bitmap_size_rounds_up() {
    assert_eq!(Bitmap::bmp_size_in_bytes(0), 0);
    assert_eq!(Bitmap::bmp_size_in_bytes(1), 1);
    assert_eq!(Bitmap::bmp_size_in_bytes(7), 1);
    assert_eq!(Bitmap::bmp_size_in_bytes(8), 1);
    assert_eq!(Bitmap::bmp_size_in_bytes(9), 2);
    assert_eq!(Bitmap::bmp_size_in_bytes(16), 2);
    assert_eq!(Bitmap::bmp_size_in_bytes(17), 3);
    assert_eq!(Bitmap::bmp_size_in_bytes(65535), 8192);
}

#[test]
fn bitmap_new_is_all_clear() {
    let bmp = Bitmap::new(19);
    for i in 0..19 {
        assert!(!bmp.get(i));
    }
    assert_eq!(bmp.into_bytes(), vec![0, 0, 0]);
}

#[test]
fn bitmap_of_no_bits() {
    let bmp = Bitmap::new(0);
    assert_eq!(bmp.into_bytes(), Vec::<u8>::new());
}

#[test]
fn bitmap_set_then_get() {
    let mut bmp = Bitmap::new(12);
    bmp.set(0);
    bmp.set(3);
    bmp.set(11);
    for i in 0..12 {
        assert_eq!(bmp.get(i), i == 0 || i == 3 || i == 11);
    }
    // Bit i is bit i % 8 of byte i / 8
    assert_eq!(bmp.into_bytes(), vec![0b0000_1001, 0b0000_1000]);
}

#[test]
fn bitmap_set_twice_changes_nothing() {
    let mut bmp = Bitmap::new(8);
    bmp.set(5);
    bmp.set(5);
    assert!(bmp.get(5));
    assert_eq!(bmp.into_bytes(), vec![0b0010_0000]);
}

#[test]
fn bitmap_wraps_given_bytes() {
    let bmp = Bitmap::new_with_vec(10, vec![0b1000_0001, 0b0000_0010]);
    assert!(bmp.get(0));
    assert!(!bmp.get(1));
    assert!(bmp.get(7));
    assert!(!bmp.get(8));
    assert!(bmp.get(9));
    assert_eq!(bmp.into_bytes(), vec![0b1000_0001, 0b0000_0010]);
}
