use pagekv::entry::Entry;
use pagekv::store::{bootstrap, GetOutcome, Store};
use pagekv::{StoreError, PAGE_SIZE};

/// Applies a flushed page image to an in-memory copy of the data file.
fn write_image(file: &mut Vec<u8>, page: u32, image: &[u8]) {
    let lo = page as usize * PAGE_SIZE;
    if file.len() < lo + PAGE_SIZE {
        file.resize(lo + PAGE_SIZE, 0);
    }
    file[lo..lo + PAGE_SIZE].copy_from_slice(image);
}

/// Reads a value, loading the owning page from the file copy if asked.
fn get_value(s: &mut Store, file: &Vec<u8>, key: &[u8]) -> Option<Vec<u8>> {
    for _ in 0..2 {
        match s.get(&key.to_vec()) {
            GetOutcome::Found(v) => return Some(v),
            GetOutcome::NotFound => return None,
            GetOutcome::NeedPage(p) => {
                let lo = p as usize * PAGE_SIZE;
                let raw = file[lo..lo + PAGE_SIZE].to_vec();
                s.install_page(p, &raw).expect("a frame should be available");
            }
        }
    }
    panic!("page load did not settle");
}

#[test]
fn entry_new_bytes_layout() {
    let bytes = Entry::new_bytes("a", "b", 1);
    let mut expected = vec![0u8];
    expected.extend_from_slice(&[0, 0, 0, 0, 0, 0, 0, 1]); // time = 1
    expected.extend_from_slice(&[0, 0, 0, 0, 0, 0, 0, 1]); // key length = 1
    expected.extend_from_slice(&[0, 0, 0, 0, 0, 0, 0, 1]); // value length = 1
    expected.push(b'a');
    expected.push(b'b');
    assert_eq!(bytes, expected);
}

#[test]
fn entry_new_keeps_fields() {
    let e = Entry::new(true, 7, 3, 0, b"abc".to_vec(), Vec::new(), 9);
    assert!(e.delete);
    assert_eq!(e.time, 7);
    assert_eq!(e.key_s, 3);
    assert_eq!(e.value_s, 0);
    assert_eq!(e.key, b"abc".to_vec());
    assert_eq!(e.pos, 9);
}

#[test]
fn put_get_round_trip() {
    let mut s = Store::new(4);
    let file: Vec<u8> = Vec::new();
    s.put(b"k".to_vec(), b"v1".to_vec(), 1).unwrap();
    assert_eq!(get_value(&mut s, &file, b"k"), Some(b"v1".to_vec()));
    // The value survives operations on other keys.
    s.put(b"other".to_vec(), b"x".to_vec(), 2).unwrap();
    s.del(&b"other".to_vec(), 3).unwrap();
    assert_eq!(get_value(&mut s, &file, b"k"), Some(b"v1".to_vec()));
    // A new put replaces it.
    s.put(b"k".to_vec(), b"v2".to_vec(), 4).unwrap();
    assert_eq!(get_value(&mut s, &file, b"k"), Some(b"v2".to_vec()));
}

#[test]
fn del_idempotent() {
    let mut s = Store::new(4);
    let file: Vec<u8> = Vec::new();
    s.put(b"k".to_vec(), b"v".to_vec(), 1).unwrap();
    s.del(&b"k".to_vec(), 2).unwrap();
    assert_eq!(get_value(&mut s, &file, b"k"), None);
    // A second delete is a no-op and still succeeds.
    assert!(s.del(&b"k".to_vec(), 3).is_ok());
    assert_eq!(get_value(&mut s, &file, b"k"), None);
}

#[test]
fn entry_too_large_rejected() {
    let mut s = Store::new(4);
    let huge = vec![7u8; PAGE_SIZE];
    match s.put(b"k".to_vec(), huge, 1) {
        Err(StoreError::EntryTooLarge) => {}
        _ => panic!("an entry over a page must be rejected"),
    }
}

#[test]
fn page_fill_rotates() {
    let mut s = Store::new(4);
    let mut file: Vec<u8> = Vec::new();
    // First record fills the page to 4092 of 4096 bytes.
    let v1 = vec![1u8; PAGE_SIZE - 25 - 1 - 4];
    let fl = s.put(b"a".to_vec(), v1.clone(), 1).unwrap();
    assert!(fl.is_none());
    assert_eq!(s.manager.current.id, 0);
    // The next record does not fit: the page rotates and the record
    // lands at offset 0 of page 1.
    let fl = s.put(b"b".to_vec(), b"second".to_vec(), 2).unwrap();
    let (pid, image) = fl.expect("the full page must be flushed");
    assert_eq!(pid, 0);
    write_image(&mut file, pid, &image);
    assert_eq!(s.manager.current.id, 1);
    assert_eq!(s.manager.current.read_entry(0).unwrap().key, b"b".to_vec());
    // Both records round-trip; the first needs its page loaded back.
    assert_eq!(get_value(&mut s, &file, b"b"), Some(b"second".to_vec()));
    assert_eq!(get_value(&mut s, &file, b"a"), Some(v1));
}

/// Runs a sequence of operations, then a graceful shutdown, and hands
/// back the data file a faithful disk would hold.
fn shutdown(mut s: Store, mut file: Vec<u8>) -> Vec<u8> {
    let (pid, image) = s.flush_current();
    write_image(&mut file, pid, &image);
    file
}

#[test]
fn restart_durability() {
    let mut s = Store::new(4);
    let mut file: Vec<u8> = Vec::new();
    let pad = vec![9u8; 3000];
    for (i, key) in [b"k1", b"k2", b"k3"].iter().enumerate() {
        if let Some((pid, image)) = s.put(key.to_vec(), pad.clone(), (i + 1) as u64).unwrap() {
            write_image(&mut file, pid, &image);
        }
    }
    let file = shutdown(s, file);
    let mut s2 = bootstrap(&file, 4).expect("bootstrap must succeed");
    for key in [b"k1", b"k2", b"k3"] {
        assert_eq!(get_value(&mut s2, &file, key), Some(pad.clone()));
    }
}

#[test]
fn tombstone_resolution_at_bootstrap() {
    let mut s = Store::new(4);
    let mut file: Vec<u8> = Vec::new();
    let pad = vec![9u8; 3500]; // forces a rotation between operations
    let apply = |file: &mut Vec<u8>, fl: Option<(u32, Vec<u8>)>| {
        if let Some((pid, image)) = fl {
            write_image(file, pid, &image);
        }
    };
    let fl = s.put(b"k".to_vec(), b"a".to_vec(), 1).unwrap();
    apply(&mut file, fl);
    let fl = s.put(b"pad1".to_vec(), pad.clone(), 2).unwrap();
    apply(&mut file, fl);
    let fl = s.put(b"k".to_vec(), b"b".to_vec(), 3).unwrap();
    apply(&mut file, fl);
    let fl = s.del(&b"k".to_vec(), 4).unwrap();
    apply(&mut file, fl);
    let fl = s.put(b"pad2".to_vec(), pad.clone(), 5).unwrap();
    apply(&mut file, fl);
    let fl = s.put(b"k".to_vec(), b"c".to_vec(), 6).unwrap();
    apply(&mut file, fl);
    assert!(s.manager.current.id >= 1, "the log must span at least two pages");
    let file = shutdown(s, file);
    let mut s2 = bootstrap(&file, 4).expect("bootstrap must succeed");
    assert_eq!(get_value(&mut s2, &file, b"k"), Some(b"c".to_vec()));
}

#[test]
fn corrupt_trailing_page_tolerated() {
    let mut s = Store::new(4);
    let file: Vec<u8> = Vec::new();
    s.put(b"k1".to_vec(), b"v1".to_vec(), 1).unwrap();
    s.put(b"k2".to_vec(), b"v2".to_vec(), 2).unwrap();
    let mut file = shutdown(s, file);
    // Cut the file in the middle of the second record on the last page.
    let len1 = 25 + 2 + 2;
    file.truncate(len1 + 27);
    let mut s2 = bootstrap(&file, 4).expect("a truncated tail must not abort bootstrap");
    assert_eq!(get_value(&mut s2, &file, b"k1"), Some(b"v1".to_vec()));
    assert_eq!(get_value(&mut s2, &file, b"k2"), None);
    // Writes continue after the last intact record.
    s2.put(b"k3".to_vec(), b"v3".to_vec(), 3).unwrap();
    assert_eq!(get_value(&mut s2, &file, b"k3"), Some(b"v3".to_vec()));
}

#[test]
fn bootstrap_deterministic() {
    let mut s = Store::new(4);
    let mut file: Vec<u8> = Vec::new();
    for i in 0..5u64 {
        let key = format!("key{}", i).into_bytes();
        if let Some((pid, image)) = s.put(key, vec![i as u8; 100], i + 1).unwrap() {
            write_image(&mut file, pid, &image);
        }
    }
    let file = shutdown(s, file);
    let mut s1 = bootstrap(&file, 4).expect("first bootstrap");
    let mut s2 = bootstrap(&file, 4).expect("second bootstrap");
    for i in 0..5u64 {
        let key = format!("key{}", i).into_bytes();
        let v1 = get_value(&mut s1, &file, &key);
        let v2 = get_value(&mut s2, &file, &key);
        assert_eq!(v1, v2);
        assert_eq!(v1, Some(vec![i as u8; 100]));
    }
}
