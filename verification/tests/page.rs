use paged_records::page::Page;
use std::mem;

#[test]
fn create_test() {
    let page = Page::<4096>::new();
    let another_page = Page::<4096>::new_from_buf([1; 4096]);
    assert_eq!(*another_page.as_buf(), [1; 4096]);
    assert_eq!(*page.as_buf(), [0; 4096]);
    assert_eq!(mem::size_of_val(&*page.as_buf()), 4096);
}

#[test]
fn into_test() {
    let page = Page::<4096>::new();
    let mut buf = page.into_boxed_buf();
    for val in buf.iter_mut() {
        *val = 128;
    }
    let page = Page::<4096>::new_from_boxed_buf(buf);
    assert_eq!(*page.into_boxed_buf(), [128; 4096]);
}

#[test]
fn mut_test() {
    let mut page = Page::<4096>::new();
    {
        let mut_buf = page.as_mut_buf();
        for val in mut_buf.iter_mut() {
            *val = 128;
        }
    }
    assert_eq!(*page.as_buf(), [128; 4096]);
}

#[test]
fn default_test() {
    let page: Page<4096> = Default::default();
    assert_eq!(*page.as_buf(), [0; 4096]);
}

#[test]
fn page_of_no_bytes() {
    let page = Page::<0>::new();
    assert_eq!(page.as_buf().len(), 0);
}

#[test]
fn page_keeps_each_byte_of_its_buffer() {
    let mut buf = [0u8; 8];
    for (i, val) in buf.iter_mut().enumerate() {
        *val = i as u8 * 3;
    }
    let mut page = Page::<8>::new_from_buf(buf);
    assert_eq!(*page.as_buf(), [0, 3, 6, 9, 12, 15, 18, 21]);
    page.as_mut_buf()[2] = 200;
    assert_eq!(*page.into_boxed_buf(), [0, 3, 200, 9, 12, 15, 18, 21]);
}
