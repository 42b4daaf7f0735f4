use paged_records::attribute::{Attribute, AttributeType, AttributeValue};
use paged_records::error::{StoreError, StoreErrorKind};
use paged_records::page::Page;
use paged_records::record::Record;
use paged_records::record_page::{place_record, read_slot, SlotRead};
use paged_records::slot_directory::{get_slot_directory_hdr, init_rb_page};

fn schema() -> Vec<Attribute> {
    vec![Attribute {
        name: "n".to_string(),
        attribute_type: AttributeType::Int,
    }]
}

fn number(n: i32) -> Record {
    let mut vals = Record::new();
    vals.insert("n".to_string(), AttributeValue::Int(n));
    vals
}

fn found(read: Result<SlotRead, StoreError>) -> Record {
    match read {
        Ok(SlotRead::Found(record)) => record,
        other => panic!("no record: {:?}", other),
    }
}

#[test]
fn page_place_and_read() {
    let mut page = Page::<57>::new();
    init_rb_page(&mut page).unwrap();
    // A number takes 9 bytes and a slot: 45 free bytes hold two, and leave 11
    assert_eq!(place_record(&schema(), &mut page, &number(1)), Ok(0));
    assert_eq!(place_record(&schema(), &mut page, &number(2)), Ok(1));
    let full = *page.as_buf();
    let err = place_record(&schema(), &mut page, &number(3)).unwrap_err();
    assert_eq!(err, StoreError::PageFull);
    assert_eq!(err.kind(), StoreErrorKind::InvalidInput);
    assert_eq!(*page.as_buf(), full);

    let hdr = get_slot_directory_hdr(&page).unwrap();
    assert_eq!(hdr.data_start_offset, 57 - 18);
    assert_eq!(hdr.slots_vec.len(), 2);
    assert_eq!(found(read_slot(&schema(), &page, 0)), number(1));
    assert_eq!(found(read_slot(&schema(), &page, 1)), number(2));
    assert_eq!(
        read_slot(&schema(), &page, 2).unwrap_err(),
        StoreError::SlotNotFound
    );
    // With nothing but the count and the bitmap a third record fits
    assert_eq!(place_record(&schema(), &mut page, &Record::new()), Ok(2));
    assert_eq!(found(read_slot(&schema(), &page, 2)), Record::new());
    assert_eq!(found(read_slot(&schema(), &page, 0)), number(1));
}

#[test]
fn page_place_needs_a_directory() {
    let mut page = Page::<48>::new();
    let err = place_record(&schema(), &mut page, &number(1)).unwrap_err();
    assert_eq!(err, StoreError::CorruptPage);
    assert_eq!(err.kind(), StoreErrorKind::InvalidData);
    assert_eq!(*page.as_buf(), [0; 48]);

    let mut page = Page::<8>::new();
    assert_eq!(
        place_record(&schema(), &mut page, &number(1)),
        Err(StoreError::InvalidPageSize)
    );
}
