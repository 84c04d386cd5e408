use pagekv::entry::Entry;
use pagekv::manager::{Fetched, PageManager};

fn put_entry(delete: bool, time: u64, key: &[u8], value: &[u8]) -> Entry {
    Entry::from_parts(delete, time, key.to_vec(), value.to_vec(), 0)
}

#[test]
fn test_page_manager() {
    let mut m = PageManager::new(8);

    let entry_a = put_entry(false, 1, b"test_keya", b"test_valuea");
    let entry_b = put_entry(false, 2, b"test_keyb", b"test_valueb");
    let len_a = 25 + b"test_keya".len() + b"test_valuea".len();

    let page_w = m.get_current();
    let offset_a = page_w.write_entry(&entry_a).expect("should not be full");
    let offset_b = page_w.write_entry(&entry_b).expect("should not be full");

    assert!(offset_a == 0);
    assert!(offset_b == len_a);

    match m.fetch_page(0) {
        Fetched::Current => {}
        _ => panic!("should fetch current page"),
    }

    let got_a = m.current.read_entry(0).expect("entry a should decode");
    let got_b = m.current.read_entry(len_a).expect("entry b should decode");

    assert!(!got_a.delete && got_a.key == b"test_keya".to_vec() && got_a.value == b"test_valuea".to_vec());
    assert!(!got_b.delete && got_b.key == b"test_keyb".to_vec() && got_b.value == b"test_valueb".to_vec());
    assert_eq!(got_a.time, 1);
    assert_eq!(got_b.time, 2);
}

#[test]
fn test_replacer() {
    let mut m = PageManager::new(3);

    let (_a, _img_a) = m.new_page().expect("should have space for page 1"); // ts = 0
    let (_b, _img_b) = m.new_page().expect("should have space for page 2"); // ts = 1
    let (_c, _img_c) = m.new_page().expect("should have space for page 3"); // ts = 2

    let mut touch = |m: &mut PageManager, id: u32| {
        match m.fetch_page(id) {
            Fetched::Frame(_) => {}
            _ => panic!("page should be resident"),
        }
        m.unpin_page(id);
    };

    touch(&mut m, 1); // ts = 3
    touch(&mut m, 2); // ts = 4
    touch(&mut m, 1); // ts = 5

    touch(&mut m, 1); // ts = 6
    touch(&mut m, 2); // ts = 7
    touch(&mut m, 1); // ts = 8
    touch(&mut m, 2); // ts = 9

    touch(&mut m, 3); // ts = 10 - least accessed, should get evicted

    m.unpin_page(1);
    m.unpin_page(2);
    m.unpin_page(3);

    let (slot, _img) = m.new_page().expect("a page should have been evicted");
    assert!(slot < 3);

    let mut actual_ids = Vec::new();
    for page in m.read.iter() {
        if let Some(page) = page {
            actual_ids.push(page.id);
        }
    }
    let expected_ids = vec![1u32, 2, 4];
    assert_eq!(expected_ids, actual_ids);
}

#[test]
fn test_pin_blocks_eviction() {
    let mut m = PageManager::new(3);
    let _ = m.new_page().expect("slot 0");
    let _ = m.new_page().expect("slot 1");
    let _ = m.new_page().expect("slot 2");
    // All three frames are pinned once and never released.
    assert!(m.new_page().is_err(), "no frame is evictable while all are pinned");
    m.unpin_page(2);
    assert!(m.new_page().is_ok(), "releasing the pin frees a victim");
}
