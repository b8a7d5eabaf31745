use rust_caskdb::database::disk_store::{scan_header, KeyDir, KeyDirScan};
use rust_caskdb::database::DatabaseError;
use rust_caskdb::database::format::{decode_kv, encode_kv, FormatError, KeyEntry, HEADER_SIZE};

/// Appends a record to `file` the way the disk store's `set` does, keeping
/// `keydir` up to date.
fn write(file: &mut Vec<u8>, keydir: &mut KeyDir, timestamp: u32, key: &str, val: &str) {
    let (total_size, encoded) = encode_kv(timestamp, key, val);
    let position = file.len() as u64;
    file.extend_from_slice(&encoded);
    keydir.record_set(key, timestamp, position, total_size);
}

/// Reads `file` back the way the disk store does when it opens a file.
fn scan(file: &[u8]) -> Result<KeyDir, FormatError> {
    let mut scan = KeyDirScan::new();
    loop {
        let position = scan.position() as usize;
        let start = position.min(file.len());
        let end = (position + HEADER_SIZE).min(file.len());
        let header = match scan_header(&file[start..end])? {
            None => break,
            Some(header) => header,
        };
        let key_start = position + HEADER_SIZE;
        let key_end = key_start + header.1 as usize;
        assert!(key_end <= file.len(), "key cut short");
        scan.key_read(header, &file[key_start..key_end])?;
    }
    Ok(scan.into_keydir())
}

/// Reads the value of `key` the way the disk store's `get` does.
fn read(file: &[u8], keydir: &KeyDir, key: &str) -> Option<String> {
    let entry = keydir.get(key)?;
    let start = entry.position as usize;
    let end = start + entry.total_size as usize;
    let (_timestamp, _key, val) = decode_kv(&file[start..end]);
    Some(val)
}

#[test]
fn test_keydir_get_after_insert() {
    let mut keydir = KeyDir::new();
    assert_eq!(keydir.get("name"), None);
    let entry = KeyEntry {
        timestamp: 5,
        position: 100,
        total_size: 20,
    };
    keydir.insert("name".to_string(), entry);
    assert_eq!(keydir.get("name"), Some(entry));
    assert_eq!(keydir.get("other"), None);
}

#[test]
fn test_keydir_record_set_replaces() {
    let mut keydir = KeyDir::new();
    keydir.record_set("k", 1, 0, 20);
    keydir.record_set("k", 2, 20, 25);
    assert_eq!(
        keydir.get("k"),
        Some(KeyEntry {
            timestamp: 2,
            position: 20,
            total_size: 25
        })
    );
}

#[test]
fn test_keydir_get_and_reopen() {
    let mut file = Vec::new();
    let mut keydir = KeyDir::new();
    write(&mut file, &mut keydir, 1, "name", "jojo");
    assert_eq!(read(&file, &keydir, "name"), Some("jojo".to_string()));
    assert_eq!(read(&file, &keydir, "some key"), None);

    let reopened = scan(&file).unwrap();
    assert_eq!(reopened.get("name"), keydir.get("name"));
    assert_eq!(read(&file, &reopened, "name"), Some("jojo".to_string()));
}

#[test]
fn test_keydir_persistence_and_deletion() {
    let books = [
        ("crime and punishment", "dostoevsky"),
        ("anna karenina", "tolstoy"),
        ("war and peace", "tolstoy"),
        ("hamlet", "shakespeare"),
        ("othello", "shakespeare"),
        ("brave new world", "huxley"),
        ("dune", "frank herbert"),
    ];
    let mut file = Vec::new();
    let mut keydir = KeyDir::new();
    for (key, val) in books.iter() {
        write(&mut file, &mut keydir, 7, key, val);
        assert_eq!(read(&file, &keydir, key), Some(val.to_string()));
    }
    for (key, _val) in books.iter() {
        write(&mut file, &mut keydir, 8, key, "");
    }
    write(&mut file, &mut keydir, 9, "end", "yes");

    let reopened = scan(&file).unwrap();
    for (key, _val) in books.iter() {
        assert_eq!(read(&file, &reopened, key), Some(String::new()));
        assert_eq!(reopened.get(key), keydir.get(key));
    }
    assert_eq!(read(&file, &reopened, "end"), Some("yes".to_string()));
}

#[test]
fn test_scan_positions() {
    let mut file = Vec::new();
    let mut keydir = KeyDir::new();
    write(&mut file, &mut keydir, 1, "a", "xy");
    write(&mut file, &mut keydir, 2, "bb", "");
    let reopened = scan(&file).unwrap();
    assert_eq!(
        reopened.get("a"),
        Some(KeyEntry {
            timestamp: 1,
            position: 0,
            total_size: 15
        })
    );
    assert_eq!(
        reopened.get("bb"),
        Some(KeyEntry {
            timestamp: 2,
            position: 15,
            total_size: 14
        })
    );
}

#[test]
fn test_scan_header_outcomes() {
    assert_eq!(scan_header(&[]), Ok(None));
    assert_eq!(scan_header(&[1, 2, 3]), Err(FormatError::Header(3)));
    assert_eq!(
        scan_header(&[1, 0, 0, 0, 2, 0, 0, 0, 3, 0, 0, 0]),
        Ok(Some((1, 2, 3)))
    );
}

#[test]
fn test_scan_fails_on_short_header() {
    let (_size, mut file) = encode_kv(1, "k", "v");
    file.extend_from_slice(&[0, 0, 0, 0, 0]);
    assert_eq!(scan(&file).err(), Some(FormatError::Header(5)));
}

#[test]
fn test_scan_fails_on_invalid_key() {
    let (_size, mut file) = encode_kv(1, "k", "v");
    file[HEADER_SIZE] = 0xff;
    assert_eq!(scan(&file).err(), Some(FormatError::InvalidKey));

    let mut scan = KeyDirScan::new();
    assert_eq!(scan.key_read((1, 1, 1), &[0xff]), Err(FormatError::InvalidKey));
    assert_eq!(scan.position(), 0);
    assert_eq!(scan.key_read((1, 1, 1), b"k"), Ok(()));
    assert_eq!(scan.position(), 14);
}

#[test]
fn test_scan_accepts_value_cut_short() {
    let (_size, mut file) = encode_kv(1, "key", "value");
    file.truncate(file.len() - 2);
    let keydir = scan(&file).unwrap();
    assert_eq!(
        keydir.get("key"),
        Some(KeyEntry {
            timestamp: 1,
            position: 0,
            total_size: 20
        })
    );
}

#[test]
fn test_database_error_from_io_error() {
    let error = std::io::Error::new(std::io::ErrorKind::UnexpectedEof, "cut short");
    match DatabaseError::from(error) {
        DatabaseError::Io(inner) => assert_eq!(inner.kind(), std::io::ErrorKind::UnexpectedEof),
        DatabaseError::Format(_) => panic!("expected an I/O error"),
    }
    let format = DatabaseError::Format(FormatError::InvalidKey);
    assert!(matches!(format, DatabaseError::Format(FormatError::InvalidKey)));
}
