use rust_caskdb::database::format::{
    decode_header, decode_kv, encode_header, encode_kv, is_record, FormatError, KeyEntry,
    HEADER_SIZE as LIB_HEADER_SIZE,
};

use rand::RngExt;
use std::time::{SystemTime, UNIX_EPOCH};
use uuid::Uuid;

const HEADER_SIZE: usize = 12;

fn get_random_header() -> (u32, u32, u32) {
    let mut rng = rand::rng();

    (
        rng.random::<u32>(),
        rng.random::<u32>(),
        rng.random::<u32>(),
    )
}

fn get_random_kv() -> (u32, String, String, usize) {
    let timestamp = SystemTime::now()
        .duration_since(UNIX_EPOCH)
        .expect("System time is before the Unix epoch")
        .as_secs() as u32;

    let key = Uuid::new_v4().to_string();
    let val = Uuid::new_v4().to_string();

    let size = HEADER_SIZE + key.len() + val.len();

    (timestamp, key, val, size)
}

#[derive(Debug)]
struct Header {
    timestamp: u32,
    key_size: u32,
    val_size: u32,
}

#[derive(Debug)]
struct KeyValue {
    timestamp: u32,
    key: String,
    val: String,
    sz: usize,
}

fn header_test(tt: Header) {
    let data = encode_header(tt.timestamp, tt.key_size, tt.val_size);
    let (timestamp, key_size, val_size) = decode_header(&data);

    assert_eq!(tt.timestamp, timestamp);
    assert_eq!(tt.key_size, key_size);
    assert_eq!(tt.val_size, val_size);
}

#[test]
fn test_header_serialisation() {
    let tests = vec![
        Header {
            timestamp: 10,
            key_size: 10,
            val_size: 10,
        },
        Header {
            timestamp: 0,
            key_size: 0,
            val_size: 0,
        },
        Header {
            timestamp: 10_000,
            key_size: 10_000,
            val_size: 10_000,
        },
    ];

    for tt in tests {
        header_test(tt);
    }
}

#[test]
fn test_header_random() {
    for _ in 0..100 {
        let (timestamp, key_size, val_size) = get_random_header();

        let tt = Header {
            timestamp,
            key_size,
            val_size,
        };

        header_test(tt);
    }
}

#[test]
fn test_header_maximum_value() {
    let tt = Header {
        timestamp: u32::MAX,
        key_size: 5,
        val_size: 5,
    };

    header_test(tt);
}

fn kv_test(tt: KeyValue) {
    let (size, data) = encode_kv(tt.timestamp, &tt.key, &tt.val);
    let (timestamp, key, val) = decode_kv(&data);

    assert_eq!(tt.timestamp, timestamp);
    assert_eq!(tt.key, key);
    assert_eq!(tt.val, val);
    assert_eq!(tt.sz, size);
}

#[test]
fn test_kv_serialisation() {
    let tests = vec![
        KeyValue {
            timestamp: 10,
            key: "hello".to_string(),
            val: "world".to_string(),
            sz: HEADER_SIZE + 10,
        },
        KeyValue {
            timestamp: 0,
            key: String::new(),
            val: String::new(),
            sz: HEADER_SIZE,
        },
    ];

    for tt in tests {
        kv_test(tt);
    }
}

#[test]
fn test_kv_random() {
    for _ in 0..100 {
        let (timestamp, key, val, size) = get_random_kv();

        let tt = KeyValue {
            timestamp,
            key,
            val,
            sz: size,
        };

        kv_test(tt);
    }
}

#[test]
fn test_header_size_constant() {
    assert_eq!(LIB_HEADER_SIZE, 12);
}

#[test]
fn test_header_bytes_little_endian() {
    let data = encode_header(0x0403_0201, 0x0807_0605, 0x0c0b_0a09);
    assert_eq!(data, vec![1, 2, 3, 4, 5, 6, 7, 8, 9, 10, 11, 12]);
    assert_eq!(encode_header(10, 5, 5), vec![10, 0, 0, 0, 5, 0, 0, 0, 5, 0, 0, 0]);
    assert_eq!(
        encode_header(u32::MAX, 0, 256),
        vec![255, 255, 255, 255, 0, 0, 0, 0, 0, 1, 0, 0]
    );
}

#[test]
fn test_decode_header_reads_first_twelve_bytes_only() {
    let data = vec![1, 0, 0, 0, 2, 0, 0, 0, 3, 0, 0, 0, 99, 98];
    assert_eq!(decode_header(&data), (1, 2, 3));
    let bytes = vec![0xff, 0xff, 0xff, 0xff, 0, 1, 0, 0, 0, 0, 1, 0];
    assert_eq!(decode_header(&bytes), (u32::MAX, 256, 65536));
}

#[test]
fn test_encode_kv_bytes() {
    let (size, data) = encode_kv(7, "ab", "xyz");
    assert_eq!(size, 17);
    assert_eq!(
        data,
        vec![7, 0, 0, 0, 2, 0, 0, 0, 3, 0, 0, 0, b'a', b'b', b'x', b'y', b'z']
    );
}

#[test]
fn test_encode_kv_counts_utf8_bytes() {
    // "é" is two bytes in UTF-8, "日本" six.
    let (size, data) = encode_kv(1, "é", "日本");
    assert_eq!(size, HEADER_SIZE + 2 + 6);
    assert_eq!(&data[4..8], &[2, 0, 0, 0]);
    assert_eq!(&data[8..12], &[6, 0, 0, 0]);
    let (timestamp, key, val) = decode_kv(&data);
    assert_eq!((timestamp, key.as_str(), val.as_str()), (1, "é", "日本"));
}

#[test]
fn test_decode_kv_ignores_trailing_bytes() {
    let (_size, mut data) = encode_kv(42, "name", "jojo");
    data.extend_from_slice(&[1, 2, 3]);
    let (timestamp, key, val) = decode_kv(&data);
    assert_eq!(timestamp, 42);
    assert_eq!(key, "name");
    assert_eq!(val, "jojo");
}

#[test]
fn test_is_record() {
    let (_size, data) = encode_kv(3, "key", "value");
    assert!(is_record(&data));
    assert!(!is_record(&data[..data.len() - 1]));
    assert!(!is_record(&data[..5]));
    assert!(!is_record(&[]));
    let mut bad_key = data.clone();
    bad_key[HEADER_SIZE] = 0xff;
    assert!(!is_record(&bad_key));
    let mut bad_val = data.clone();
    bad_val[HEADER_SIZE + 3] = 0xc3;
    assert!(!is_record(&bad_val));
    let huge = encode_header(0, u32::MAX, u32::MAX);
    assert!(!is_record(&huge));
}

#[test]
fn test_key_entry_and_format_error_values() {
    let entry = KeyEntry {
        timestamp: 1,
        position: 2,
        total_size: 3,
    };
    let copy = entry;
    assert_eq!(entry, copy);
    assert_ne!(FormatError::Header(3), FormatError::Header(4));
    assert_ne!(FormatError::Header(0), FormatError::InvalidKey);
}
