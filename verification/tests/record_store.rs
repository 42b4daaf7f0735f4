use paged_records::attribute::{Attribute, AttributeType, AttributeValue};
use paged_records::error::{StoreError, StoreErrorKind};
use paged_records::page::Page;
use paged_records::record::Record;
use paged_records::record_based_file_mgr::{RecordBasedFileMgr, RecordId};
use paged_records::slot_directory::{
    get_slot_directory_hdr, write_slot_directory_hdr, SlotDirectoryHeader,
    SlotDirectoryRecordEntry, HDR_SIZE, RECORD_ENTRY_SIZE,
};

const PAGE_SIZE: usize = 8 * 1024;
type Rbfm = RecordBasedFileMgr<PAGE_SIZE>;
type Small = RecordBasedFileMgr<64>;

fn person_attrs() -> Vec<Attribute> {
    vec![
        Attribute {
            name: "FirstName".to_string(),
            attribute_type: AttributeType::Varchar { len: 20 },
        },
        Attribute {
            name: "Age".to_string(),
            attribute_type: AttributeType::Int,
        },
        Attribute {
            name: "PowerLevel".to_string(),
            attribute_type: AttributeType::Real,
        },
    ]
}

fn text_attrs(len: u32) -> Vec<Attribute> {
    vec![Attribute {
        name: "t".to_string(),
        attribute_type: AttributeType::Varchar { len },
    }]
}

fn text_record(len: usize) -> Record {
    let mut vals = Record::new();
    vals.insert("t".to_string(), AttributeValue::Varchar("x".repeat(len)));
    vals
}

fn data_start_offset(page: &[u8]) -> u32 {
    u32::from_le_bytes([page[0], page[1], page[2], page[3]])
}

fn slot_count(page: &[u8]) -> u64 {
    let mut bytes = [0u8; 8];
    bytes.copy_from_slice(&page[4..12]);
    u64::from_le_bytes(bytes)
}

#[test]
fn rbfm_create_test() {
    // File should be created with no errors
    let file = Rbfm::create(vec![]).unwrap();

    // Opening the newly created file should work
    Rbfm::open(file.into_bytes(), vec![]).unwrap();
}

#[test]
fn rbfm_serialize_test() {
    // We check that the serialized header matches the minimum size we'd expect
    let mut hdr = SlotDirectoryHeader {
        data_start_offset: PAGE_SIZE as u32,
        slots_vec: vec![],
    };
    let hdr_size = hdr.serialized_size() as usize;
    assert_eq!(hdr_size, HDR_SIZE);

    hdr.slots_vec.push(SlotDirectoryRecordEntry {
        length: 0,
        offset: 0,
    });
    let hdr_size = hdr.serialized_size() as usize;
    assert_eq!(hdr_size, HDR_SIZE + RECORD_ENTRY_SIZE);

    hdr.slots_vec.push(SlotDirectoryRecordEntry {
        length: 0,
        offset: 0,
    });
    let hdr_size = hdr.serialized_size() as usize;
    assert_eq!(hdr_size, HDR_SIZE + RECORD_ENTRY_SIZE * 2);
}

#[test]
fn rbfm_insert_test() {
    let attrs = person_attrs();
    let mut file = Rbfm::create(attrs).unwrap();

    let mut attr_vals = Record::new();
    attr_vals.insert(
        "FirstName".to_string(),
        AttributeValue::Varchar("Cow".to_string()),
    );
    attr_vals.insert("Age".to_string(), AttributeValue::Int(28));
    attr_vals.insert(
        "PowerLevel".to_string(),
        AttributeValue::Real(8999.999f64.to_bits()),
    );
    let rid = file.insert(&attr_vals).unwrap();
    assert_eq!(
        rid,
        RecordId {
            page_num: 0,
            slot_num: 0,
        }
    );

    let read_result = file.read(&rid).unwrap();
    assert_eq!(read_result, attr_vals);

    // Try with one null
    attr_vals.remove("Age");
    let rid = file.insert(&attr_vals).unwrap();
    assert_eq!(
        rid,
        RecordId {
            page_num: 0,
            slot_num: 1,
        }
    );

    let read_result = file.read(&rid).unwrap();
    assert_eq!(read_result, attr_vals);

    // Try with all null values
    let null_attr_vals = Record::new();
    let rid = file.insert(&null_attr_vals).unwrap();
    assert_eq!(
        rid,
        RecordId {
            page_num: 0,
            slot_num: 2,
        }
    );

    let read_result = file.read(&rid).unwrap();
    assert_eq!(read_result, null_attr_vals);
    assert_ne!(read_result, attr_vals);
}

#[test]
fn rbfm_new_file_has_one_empty_page() {
    let file = Rbfm::create(person_attrs()).unwrap();
    assert_eq!(file.paged_file().num_pages(), 1);
    let page = file.paged_file().read_page_alloc(0).unwrap();
    let buf = page.as_buf();
    // The record bytes start at the end of the page, and there is no slot
    assert_eq!(&buf[0..12], &[0, 0x20, 0, 0, 0, 0, 0, 0, 0, 0, 0, 0]);
    assert!(buf[12..].iter().all(|b| *b == 0));
    let bytes = file.into_bytes();
    assert_eq!(bytes.len(), 8 + PAGE_SIZE);
    assert_eq!(&bytes[0..8], &[0, 0x20, 0, 0, 0, 0, 0, 0]);
}

#[test]
fn rbfm_page_layout_after_insert() {
    let mut file = Rbfm::create(person_attrs()).unwrap();
    let mut vals = Record::new();
    vals.insert(
        "FirstName".to_string(),
        AttributeValue::Varchar("Cow".to_string()),
    );
    vals.insert("Age".to_string(), AttributeValue::Int(28));
    vals.insert(
        "PowerLevel".to_string(),
        AttributeValue::Real(8999.999f64.to_bits()),
    );
    assert_eq!(file.required_space(&vals), Ok(8 + 24));
    file.insert(&vals).unwrap();

    let page = file.paged_file().read_page_alloc(0).unwrap();
    let buf = page.as_buf();
    // 8192 - 24 = 8168 = 0x1fe8
    assert_eq!(data_start_offset(buf), 8168);
    assert_eq!(slot_count(buf), 1);
    // The slot: length 24, offset 8168
    assert_eq!(&buf[12..20], &[24, 0, 0, 0, 0xe8, 0x1f, 0, 0]);
    // The record: count, bitmap, three end offsets, the values
    let mut expected = vec![3, 0, 0b111, 12, 0, 16, 0, 24, 0];
    expected.extend_from_slice(b"Cow");
    expected.extend_from_slice(&28i32.to_le_bytes());
    expected.extend_from_slice(&8999.999f64.to_le_bytes());
    assert_eq!(&buf[8168..8192], &expected[..]);
    // Free space in between is untouched
    assert!(buf[20..8168].iter().all(|b| *b == 0));

    // A second record goes directly in front of the first
    let mut vals = Record::new();
    vals.insert("Age".to_string(), AttributeValue::Int(-2));
    assert_eq!(file.required_space(&vals), Ok(8 + 9));
    let rid = file.insert(&vals).unwrap();
    assert_eq!(
        rid,
        RecordId {
            page_num: 0,
            slot_num: 1
        }
    );
    let page = file.paged_file().read_page_alloc(0).unwrap();
    let buf = page.as_buf();
    assert_eq!(data_start_offset(buf), 8168 - 9);
    assert_eq!(slot_count(buf), 2);
    assert_eq!(&buf[20..28], &[9, 0, 0, 0, 0xdf, 0x1f, 0, 0]);
    assert_eq!(
        &buf[8159..8168],
        &[3, 0, 0b010, 9, 0, 0xfe, 0xff, 0xff, 0xff]
    );
    assert_eq!(&buf[8168..8192], &expected[..]);
}

#[test]
fn rbfm_reopen_reads_the_same_records() {
    let mut file = Rbfm::create(person_attrs()).unwrap();
    let mut vals = Record::new();
    vals.insert(
        "FirstName".to_string(),
        AttributeValue::Varchar("Zoë".to_string()),
    );
    vals.insert(
        "PowerLevel".to_string(),
        AttributeValue::Real((-0.5f64).to_bits()),
    );
    let rid = file.insert(&vals).unwrap();
    let bytes = file.into_bytes();
    let file = Rbfm::open(bytes, person_attrs()).unwrap();
    let read = file.read(&rid).unwrap();
    assert_eq!(read, vals);
    assert_eq!(
        read.get("PowerLevel"),
        Some(&AttributeValue::Real((-0.5f64).to_bits()))
    );
    assert_eq!(
        read.get("FirstName"),
        Some(&AttributeValue::Varchar("Zoë".to_string()))
    );
    assert_eq!(read.get("Age"), None);
}

#[test]
fn rbfm_names_outside_the_schema_are_not_stored() {
    let mut file = Rbfm::create(person_attrs()).unwrap();
    let mut vals = Record::new();
    vals.insert("Age".to_string(), AttributeValue::Int(7));
    vals.insert("Height".to_string(), AttributeValue::Int(180));
    let rid = file.insert(&vals).unwrap();
    let read = file.read(&rid).unwrap();
    let mut expected = Record::new();
    expected.insert("Age".to_string(), AttributeValue::Int(7));
    assert_eq!(read, expected);
}

#[test]
fn rbfm_type_mismatch_changes_nothing() {
    let mut file = Rbfm::create(person_attrs()).unwrap();
    let before = file.paged_file().as_bytes().to_vec();

    let mut vals = Record::new();
    vals.insert("PowerLevel".to_string(), AttributeValue::Int(1));
    let err = file.insert(&vals).unwrap_err();
    assert_eq!(err, StoreError::AttributeTypeMismatch);
    assert_eq!(err.kind(), StoreErrorKind::InvalidInput);
    assert_eq!(err.to_string(), "Attribute type mismatch");
    assert_eq!(file.paged_file().as_bytes(), &before[..]);

    let mut vals = Record::new();
    vals.insert("Age".to_string(), AttributeValue::Real(1f64.to_bits()));
    assert_eq!(file.insert(&vals), Err(StoreError::AttributeTypeMismatch));

    let mut vals = Record::new();
    vals.insert("FirstName".to_string(), AttributeValue::Int(1));
    assert_eq!(file.insert(&vals), Err(StoreError::AttributeTypeMismatch));

    let mut vals = Record::new();
    vals.insert("Age".to_string(), AttributeValue::Varchar("28".to_string()));
    assert_eq!(file.insert(&vals), Err(StoreError::AttributeTypeMismatch));
    assert_eq!(
        file.required_space(&vals),
        Err(StoreError::AttributeTypeMismatch)
    );
    assert_eq!(file.paged_file().as_bytes(), &before[..]);
}

#[test]
fn rbfm_varchar_bound() {
    let mut file = Rbfm::create(person_attrs()).unwrap();
    let before = file.paged_file().as_bytes().to_vec();

    let mut vals = Record::new();
    vals.insert(
        "FirstName".to_string(),
        AttributeValue::Varchar("a".repeat(21)),
    );
    assert_eq!(file.insert(&vals), Err(StoreError::AttributeTypeMismatch));
    assert_eq!(file.paged_file().as_bytes(), &before[..]);

    // The bound is on the UTF-8 bytes: eleven letters of two bytes each
    let mut vals = Record::new();
    vals.insert(
        "FirstName".to_string(),
        AttributeValue::Varchar("é".repeat(11)),
    );
    assert_eq!(file.insert(&vals), Err(StoreError::AttributeTypeMismatch));
    assert_eq!(file.paged_file().as_bytes(), &before[..]);

    // Exactly at the bound
    let mut vals = Record::new();
    vals.insert(
        "FirstName".to_string(),
        AttributeValue::Varchar("é".repeat(10)),
    );
    let rid = file.insert(&vals).unwrap();
    assert_eq!(file.read(&rid).unwrap(), vals);
}

#[test]
fn rbfm_placement() {
    // A page of 64 bytes has 52 free bytes when new.
    // A text of n bytes makes a record of 5 + n bytes and takes 13 + n.
    let mut file = Small::create(text_attrs(60)).unwrap();

    // Takes 33 of the 52 bytes of page 0
    let a = file.insert(&text_record(20)).unwrap();
    assert_eq!(
        a,
        RecordId {
            page_num: 0,
            slot_num: 0
        }
    );
    let page = file.paged_file().read_page_alloc(0).unwrap();
    assert_eq!(data_start_offset(page.as_buf()), 64 - 25);

    // 19 bytes are free in page 0: a record that takes 20 goes to a new page
    let b = file.insert(&text_record(7)).unwrap();
    assert_eq!(
        b,
        RecordId {
            page_num: 1,
            slot_num: 0
        }
    );
    assert_eq!(file.paged_file().num_pages(), 2);
    let page = file.paged_file().read_page_alloc(0).unwrap();
    assert_eq!(data_start_offset(page.as_buf()), 64 - 25);
    assert_eq!(slot_count(page.as_buf()), 1);
    let page = file.paged_file().read_page_alloc(1).unwrap();
    assert_eq!(data_start_offset(page.as_buf()), 64 - 12);
    assert_eq!(slot_count(page.as_buf()), 1);

    // Both pages have room for a record that takes 19: it goes to the last
    let c = file.insert(&text_record(6)).unwrap();
    assert_eq!(
        c,
        RecordId {
            page_num: 1,
            slot_num: 1
        }
    );
    let page = file.paged_file().read_page_alloc(1).unwrap();
    assert_eq!(data_start_offset(page.as_buf()), 64 - 12 - 11);
    assert_eq!(slot_count(page.as_buf()), 2);

    // Page 1 has 52 - 20 - 19 = 13 bytes left, page 0 has 19:
    // a record that takes 19 fits page 0 only, and fills it
    let d = file.insert(&text_record(6)).unwrap();
    assert_eq!(
        d,
        RecordId {
            page_num: 0,
            slot_num: 1
        }
    );
    let page = file.paged_file().read_page_alloc(0).unwrap();
    assert_eq!(data_start_offset(page.as_buf()), 64 - 25 - 11);
    assert_eq!(slot_count(page.as_buf()), 2);
    assert_eq!(data_start_offset(page.as_buf()) as usize, 12 + 2 * 8);

    // Exactly the free space of page 1
    let e = file.insert(&text_record(0)).unwrap();
    assert_eq!(
        e,
        RecordId {
            page_num: 1,
            slot_num: 2
        }
    );

    // Nothing is left anywhere
    let f = file.insert(&text_record(0)).unwrap();
    assert_eq!(
        f,
        RecordId {
            page_num: 2,
            slot_num: 0
        }
    );

    assert_eq!(file.read(&a).unwrap(), text_record(20));
    assert_eq!(file.read(&b).unwrap(), text_record(7));
    assert_eq!(file.read(&c).unwrap(), text_record(6));
    assert_eq!(file.read(&d).unwrap(), text_record(6));
    assert_eq!(file.read(&e).unwrap(), text_record(0));
    assert_eq!(file.read(&f).unwrap(), text_record(0));
}

#[test]
fn rbfm_record_larger_than_a_page() {
    let mut file = Small::create(text_attrs(60)).unwrap();
    let before = file.paged_file().as_bytes().to_vec();
    // Takes 52: fits an empty page exactly
    assert_eq!(file.required_space(&text_record(39)), Ok(52));
    // Takes 53
    assert_eq!(
        file.insert(&text_record(40)),
        Err(StoreError::RecordTooLarge)
    );
    assert_eq!(file.paged_file().as_bytes(), &before[..]);
    let rid = file.insert(&text_record(39)).unwrap();
    assert_eq!(
        rid,
        RecordId {
            page_num: 0,
            slot_num: 0
        }
    );
    assert_eq!(file.read(&rid).unwrap(), text_record(39));
}

#[test]
fn rbfm_unusable_page_sizes() {
    assert_eq!(
        RecordBasedFileMgr::<11>::create(vec![]).unwrap_err(),
        StoreError::InvalidPageSize
    );
    assert_eq!(
        RecordBasedFileMgr::<0>::create(vec![]).unwrap_err(),
        StoreError::InvalidPageSize
    );
    assert_eq!(
        RecordBasedFileMgr::<11>::open(vec![11, 0, 0, 0, 0, 0, 0, 0], vec![]).unwrap_err(),
        StoreError::InvalidPageSize
    );
    let mut file = RecordBasedFileMgr::<12>::create(vec![]).unwrap();
    // Nothing fits behind the directory of a page of twelve bytes
    assert_eq!(file.insert(&Record::new()), Err(StoreError::RecordTooLarge));
}

#[test]
fn rbfm_open_checks_the_header() {
    let file = Rbfm::create(person_attrs()).unwrap();
    let bytes = file.into_bytes();
    let err = Small::open(bytes, person_attrs()).unwrap_err();
    assert_eq!(
        err,
        StoreError::PageSizeMismatch {
            header: 8192,
            expected: 64
        }
    );
    assert_eq!(
        err.to_string(),
        "Page size mismatch. Header: 8192, Expected: 64"
    );
    assert_eq!(
        Rbfm::open(vec![1, 2, 3], person_attrs()).unwrap_err(),
        StoreError::UnexpectedEof
    );
}

#[test]
fn rbfm_read_out_of_range() {
    let mut file = Rbfm::create(person_attrs()).unwrap();
    let rid = file.insert(&Record::new()).unwrap();
    assert_eq!(
        file.read(&RecordId {
            page_num: 1,
            slot_num: 0
        }),
        Err(StoreError::PageNotFound {
            page_num: 1,
            num_pages: 1
        })
    );
    let err = file
        .read(&RecordId {
            page_num: 0,
            slot_num: 1,
        })
        .unwrap_err();
    assert_eq!(err, StoreError::SlotNotFound);
    assert_eq!(err.kind(), StoreErrorKind::InvalidInput);
    assert_eq!(err.to_string(), "Slot does not exist");
    assert_eq!(file.read(&rid).unwrap(), Record::new());
}

/// A file with three records in page 0, whose slots are then replaced.
fn file_with_slots(slots: Vec<SlotDirectoryRecordEntry>) -> (Small, Vec<SlotDirectoryRecordEntry>) {
    let mut file = Small::create(text_attrs(60)).unwrap();
    file.insert(&text_record(1)).unwrap();
    file.insert(&text_record(2)).unwrap();
    file.insert(&text_record(3)).unwrap();
    let mut page: Page<64> = file.paged_file().read_page_alloc(0).unwrap();
    let mut hdr = get_slot_directory_hdr(&page).unwrap();
    let written = hdr.slots_vec.clone();
    hdr.slots_vec = slots;
    write_slot_directory_hdr(&mut page, &hdr).unwrap();
    let mut bytes = file.into_bytes();
    bytes[8..72].copy_from_slice(page.as_buf());
    (Small::open(bytes, text_attrs(60)).unwrap(), written)
}

#[test]
fn rbfm_dead_slot() {
    let (file, written) = file_with_slots(vec![
        SlotDirectoryRecordEntry {
            length: 0,
            offset: 0,
        },
        SlotDirectoryRecordEntry {
            length: 7,
            offset: 51,
        },
    ]);
    assert_eq!(
        written,
        vec![
            SlotDirectoryRecordEntry {
                length: 6,
                offset: 58
            },
            SlotDirectoryRecordEntry {
                length: 7,
                offset: 51
            },
            SlotDirectoryRecordEntry {
                length: 8,
                offset: 43
            },
        ]
    );
    let err = file
        .read(&RecordId {
            page_num: 0,
            slot_num: 0,
        })
        .unwrap_err();
    assert_eq!(err, StoreError::RecordDeleted);
    assert_eq!(err.kind(), StoreErrorKind::InvalidData);
    assert_eq!(err.to_string(), "Record deleted");
    assert_eq!(
        file.read(&RecordId {
            page_num: 0,
            slot_num: 1
        })
        .unwrap(),
        text_record(2)
    );
}

#[test]
fn rbfm_moved_slot_is_followed() {
    // Slot 0 says: the record is in page 0 under slot 2
    let (file, _) = file_with_slots(vec![
        SlotDirectoryRecordEntry {
            length: 0,
            offset: -2,
        },
        SlotDirectoryRecordEntry {
            length: 7,
            offset: 51,
        },
        SlotDirectoryRecordEntry {
            length: 8,
            offset: 43,
        },
    ]);
    assert_eq!(
        file.read(&RecordId {
            page_num: 0,
            slot_num: 0
        })
        .unwrap(),
        text_record(3)
    );
}

#[test]
fn rbfm_redirections_end() {
    // Slot 1 leads to itself
    let (file, _) = file_with_slots(vec![
        SlotDirectoryRecordEntry {
            length: 0,
            offset: -1,
        },
        SlotDirectoryRecordEntry {
            length: 0,
            offset: -1,
        },
    ]);
    let err = file
        .read(&RecordId {
            page_num: 0,
            slot_num: 0,
        })
        .unwrap_err();
    assert_eq!(err, StoreError::RedirectionLimit);
    assert_eq!(err.kind(), StoreErrorKind::InvalidData);

    // A redirection to a page that the file does not have
    let (file, _) = file_with_slots(vec![SlotDirectoryRecordEntry {
        length: 5,
        offset: -1,
    }]);
    assert_eq!(
        file.read(&RecordId {
            page_num: 0,
            slot_num: 0
        }),
        Err(StoreError::PageNotFound {
            page_num: 5,
            num_pages: 1
        })
    );
}

#[test]
fn rbfm_one_redirection_in_a_file_of_one_page() {
    let (file, _) = file_with_slots(vec![
        SlotDirectoryRecordEntry {
            length: 0,
            offset: -1,
        },
        SlotDirectoryRecordEntry {
            length: 0,
            offset: -2,
        },
        SlotDirectoryRecordEntry {
            length: 8,
            offset: 43,
        },
    ]);
    // One step leads to the record
    assert_eq!(
        file.read(&RecordId {
            page_num: 0,
            slot_num: 1
        })
        .unwrap(),
        text_record(3)
    );
    // Two steps are more than the file has pages
    assert_eq!(
        file.read(&RecordId {
            page_num: 0,
            slot_num: 0
        }),
        Err(StoreError::RedirectionLimit)
    );
}

#[test]
fn rbfm_slot_outside_the_page() {
    let (file, _) = file_with_slots(vec![SlotDirectoryRecordEntry {
        length: 8,
        offset: 60,
    }]);
    assert_eq!(
        file.read(&RecordId {
            page_num: 0,
            slot_num: 0
        }),
        Err(StoreError::CorruptPage)
    );
}

#[test]
fn rbfm_corrupt_page_stops_insert() {
    let file = Small::create(text_attrs(60)).unwrap();
    let mut bytes = file.into_bytes();
    // The record bytes would start inside the directory
    bytes[8] = 11;
    let mut file = Small::open(bytes.clone(), text_attrs(60)).unwrap();
    assert_eq!(file.insert(&text_record(1)), Err(StoreError::CorruptPage));
    assert_eq!(file.paged_file().as_bytes(), &bytes[..]);
    // More slots than the page can hold
    let mut bytes = Small::create(text_attrs(60)).unwrap().into_bytes();
    bytes[12] = 200;
    let mut file = Small::open(bytes.clone(), text_attrs(60)).unwrap();
    assert_eq!(file.insert(&text_record(1)), Err(StoreError::CorruptPage));
    assert_eq!(
        file.read(&RecordId {
            page_num: 0,
            slot_num: 0
        }),
        Err(StoreError::CorruptPage)
    );
    assert_eq!(file.paged_file().as_bytes(), &bytes[..]);
}

#[test]
fn rbfm_partial_page_stops_growth() {
    let mut bytes = Small::create(text_attrs(60)).unwrap().into_bytes();
    bytes.extend_from_slice(&[0, 0, 0]);
    let mut file = Small::open(bytes, text_attrs(60)).unwrap();
    // Page 0 takes records as long as it has room
    let rid = file.insert(&text_record(39)).unwrap();
    assert_eq!(file.read(&rid).unwrap(), text_record(39));
    let before = file.paged_file().as_bytes().to_vec();
    assert_eq!(file.insert(&text_record(0)), Err(StoreError::PartialPage));
    assert_eq!(file.paged_file().as_bytes(), &before[..]);
}

#[test]
fn rbfm_many_records() {
    let mut file = Rbfm::create(person_attrs()).unwrap();
    let mut rids = Vec::new();
    for i in 0..1000 {
        let mut vals = Record::new();
        vals.insert("Age".to_string(), AttributeValue::Int(i - 500));
        if i % 3 == 0 {
            vals.insert(
                "FirstName".to_string(),
                AttributeValue::Varchar(format!("name{}", i)),
            );
        }
        if i % 5 == 0 {
            vals.insert(
                "PowerLevel".to_string(),
                AttributeValue::Real((i as f64 / 7.0).to_bits()),
            );
        }
        rids.push((file.insert(&vals).unwrap(), vals));
    }
    assert!(file.paged_file().num_pages() > 1);
    let file = Rbfm::open(file.into_bytes(), person_attrs()).unwrap();
    for (rid, vals) in rids.iter() {
        assert_eq!(&file.read(rid).unwrap(), vals);
    }
}

#[test]
fn rbfm_schema_of_many_attributes() {
    let mut attrs = Vec::new();
    for i in 0..20 {
        attrs.push(Attribute {
            name: format!("a{}", i),
            attribute_type: AttributeType::Int,
        });
    }
    let mut file = Rbfm::create(attrs).unwrap();
    let mut vals = Record::new();
    vals.insert("a0".to_string(), AttributeValue::Int(1));
    vals.insert("a8".to_string(), AttributeValue::Int(i32::MIN));
    vals.insert("a19".to_string(), AttributeValue::Int(i32::MAX));
    // 2 + 3 + 3 * 2 + 3 * 4
    assert_eq!(file.required_space(&vals), Ok(8 + 23));
    let rid = file.insert(&vals).unwrap();
    let page = file.paged_file().read_page_alloc(0).unwrap();
    let record = &page.as_buf()[8192 - 23..];
    assert_eq!(&record[0..5], &[20, 0, 0b0000_0001, 0b0000_0001, 0b0000_1000]);
    assert_eq!(&record[5..11], &[15, 0, 19, 0, 23, 0]);
    assert_eq!(file.read(&rid).unwrap(), vals);
}
