use cybergraph::files::{blob_profile, FileCursor, SeekFrom};

#[test]
fn the_blob_profile_is_the_hash_of_its_name() {
    assert_eq!(blob_profile(), *cyber_hemera::hash(b"cybergraph/blob/hemera-sponge").as_bytes());
}

#[test]
fn readers_fetch_whole_parts_and_read_across_them() {
    let data: Vec<u8> = (0..10u8).collect();
    let mut c = FileCursor::new(10, 4);
    assert_eq!(c.next_part(0), None);
    assert_eq!(c.next_part(3), Some(0));
    c.fill(0, data[0..4].to_vec());
    let mut buf = [0u8; 3];
    assert_eq!(c.read(&mut buf), 3);
    assert_eq!(buf, [0, 1, 2]);
    assert_eq!(c.next_part(3), None);
    let mut buf = [9u8; 3];
    assert_eq!(c.read(&mut buf), 1);
    assert_eq!(buf, [3, 9, 9]);
    assert_eq!(c.next_part(3), Some(4));
    c.fill(4, data[4..8].to_vec());
    assert_eq!(c.seek(SeekFrom::Current(3)).unwrap(), 7);
    assert_eq!(c.next_part(1), None);
    assert_eq!(c.seek(SeekFrom::End(-1)).unwrap(), 9);
    assert_eq!(c.next_part(1), Some(8));
    c.fill(8, data[8..10].to_vec());
    let mut buf = [0u8; 4];
    assert_eq!(c.read(&mut buf), 1);
    assert_eq!(buf[0], 9);
    assert_eq!(c.next_part(4), None);
    assert_eq!(c.read(&mut buf), 0);
}

#[test]
fn seeks_outside_u64_are_refused() {
    let mut c = FileCursor::new(10, 4);
    assert_eq!(c.seek(SeekFrom::Start(u64::MAX)).unwrap(), u64::MAX);
    assert!(c.seek(SeekFrom::Current(1)).is_err());
    assert_eq!(c.position, u64::MAX);
    assert_eq!(c.seek(SeekFrom::Start(5)).unwrap(), 5);
    assert!(c.seek(SeekFrom::Current(-6)).is_err());
    assert!(c.seek(SeekFrom::End(i64::MIN)).is_err());
    assert_eq!(c.seek(SeekFrom::Current(-5)).unwrap(), 0);
    assert_eq!(c.seek(SeekFrom::End(5)).unwrap(), 15);
}
