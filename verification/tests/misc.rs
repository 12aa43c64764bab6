use std::hash::Hasher;
use chapter_4::config::{ServerConfig, ServerConfigBuilder};
use chapter_4::connection::{compact_buffer, parse_buffered};
use chapter_4::request::parser::{RequestParser, RequestParserError};
use chapter_4::hashers::{hash_with_default, hash_with_fnv, hash_with_rapid, FnvHasher};
use chapter_4::header::map::{HeaderMap, HeaderMapErrors, Pos};
use chapter_4::header::map2::HeaderMap2;
use chapter_4::utils::{to_u32, to_u64};

#[test]
fn utils_fold_big_endian() {
    assert_eq!(to_u32(b""), 0);
    assert_eq!(to_u32(&[0x12, 0x34, 0x56, 0x78]), 0x12345678);
    assert_eq!(to_u32(&[0xff, 0x12, 0x34, 0x56, 0x78]), 0x12345678);
    assert_eq!(to_u64(&[1, 2, 3, 4, 5, 6, 7, 8]), 0x0102030405060708);
    assert_eq!(to_u64(&[9, 1, 2, 3, 4, 5, 6, 7, 8]), 0x0102030405060708);
    assert_eq!(to_u64(b"GET "), 0x47455420);
}

#[test]
fn config_builder() {
    let c = ServerConfigBuilder::new().build();
    assert_eq!(c.max_body_size, 2 << 20);
    assert_eq!(ServerConfig::default().max_body_size, 2 << 20);
    let c = ServerConfigBuilder::new().max_body_size(1024).build();
    assert_eq!(c.max_body_size, 1024);
}

#[test]
fn fnv_known_values() {
    assert_eq!(FnvHasher::new().finish(), 0xcbf29ce484222325);
    let mut h = FnvHasher::new();
    h.write(b"a");
    assert_eq!(h.finish(), 0xaf63dc4c8601ec8c);
    let mut h = FnvHasher::new();
    h.write(b"foobar");
    assert_eq!(h.finish(), 0x85944171f73967e8);
    let (hash, index) = hash_with_fnv(b"foobar");
    assert_eq!(hash, 0x85944171f73967e8);
    assert_eq!(index, (0x85944171f73967e8u64 & 8191) as usize);
}

#[test]
fn fnv_two_writes_hash_as_one() {
    let mut h = FnvHasher::new();
    h.write(b"foo");
    h.write(b"bar");
    assert_eq!(h.finish(), 0x85944171f73967e8);
}

#[test]
fn other_hashes_and_indices() {
    let (hash, index) = hash_with_rapid(b"content-type");
    assert_eq!(hash, rapidhash::v3::rapidhash_v3(b"content-type"));
    assert_eq!(index, (hash & 15) as usize);
    assert_ne!(hash_with_rapid(b"a").0, hash_with_rapid(b"b").0);
    let (hash, index) = hash_with_default(b"origin");
    let mut d = std::collections::hash_map::DefaultHasher::new();
    d.write(b"origin");
    assert_eq!(hash, d.finish());
    assert_eq!(index, (hash & 15) as usize);
}

#[test]
fn compact_buffer_moves_the_unread_bytes() {
    let mut buf = [1u8, 2, 3, 4, 5, 6, 7, 8];
    compact_buffer(&mut buf, 2, 5);
    assert_eq!(buf, [3, 4, 5, 0, 0, 0, 0, 0]);
    let mut buf = [1u8, 2, 3];
    compact_buffer(&mut buf, 0, 3);
    assert_eq!(buf, [1, 2, 3]);
}

#[test]
fn pos_empty_and_new() {
    assert!(Pos::empty().is_empty());
    let p = Pos::new(7, 3);
    assert!(!p.is_empty());
    assert_eq!(p.hash, 7);
    assert_eq!(p.index, 3);
}

#[test]
fn map_clear_contains_and_multiple_values() -> Result<(), HeaderMapErrors> {
    let mut map = HeaderMap::new();
    assert!(map.is_empty());
    assert_eq!(map.has_multiple_values(b"a"), None);
    // Removing from a map that never stored anything finds nothing.
    assert_eq!(map.remove(b"a".to_vec()), None);
    map.append(b"a".to_vec(), b"1".to_vec())?;
    assert_eq!(map.has_multiple_values(b"a"), Some(false));
    map.append(b"a".to_vec(), b"2".to_vec())?;
    assert_eq!(map.has_multiple_values(b"a"), Some(true));
    assert_eq!(map.has_multiple_values(b"b"), Some(false));
    assert!(map.contains_key(b"a"));
    assert!(!map.contains_key(b"b"));
    // Inserting over a name drops its extra values.
    assert_eq!(map.insert(b"a".to_vec(), b"3".to_vec())?, Some(b"1".to_vec()));
    assert_eq!(map.values_count(), 1);
    assert_eq!(map.has_multiple_values(b"a"), Some(false));
    map.clear();
    assert!(map.is_empty());
    assert_eq!(map.capacity(), 0);
    assert_eq!(map.values_count(), 0);
    assert_eq!(map.get(b"a"), None);
    assert!(map.get_all(b"a").next().is_none());
    map.insert(b"b".to_vec(), b"4".to_vec())?;
    assert_eq!(map.capacity(), 16);
    assert_eq!(map.get(b"b"), Some(b"4".as_ref()));
    assert_eq!(map.remove(b"b".to_vec()), Some(b"4".as_ref()));
    assert_eq!(map.remove(b"b".to_vec()), None);
    assert_eq!(map.len(), 0);
    Ok(())
}

/// Two names whose hashes share their low four bits, so that they want the
/// same slot of a 16-slot table.
fn colliding_names() -> (Vec<u8>, Vec<u8>) {
    let first = b"name-0".to_vec();
    let slot = rapidhash::v3::rapidhash_v3(&first) & 15;
    let mut i = 1u32;
    loop {
        let other = format!("name-{i}").into_bytes();
        if rapidhash::v3::rapidhash_v3(&other) & 15 == slot {
            return (first, other);
        }
        i += 1;
    }
}

#[test]
fn remove_keeps_names_further_along_the_probe() -> Result<(), HeaderMapErrors> {
    let (a, b) = colliding_names();
    let mut map = HeaderMap::new();
    map.insert(a.clone(), b"1".to_vec())?;
    map.append(b.clone(), b"2".to_vec())?;
    map.append(b.clone(), b"3".to_vec())?;
    assert_eq!(map.remove(a.clone()), Some(b"1".as_ref()));
    assert_eq!(map.get(&a), None);
    assert_eq!(map.get(&b), Some(b"2".as_ref()));
    let values: Vec<&[u8]> = {
        let mut it = map.get_all(&b);
        let mut v = vec![];
        while let Some(x) = it.next() {
            v.push(x);
        }
        v
    };
    assert_eq!(values, vec![b"2".as_ref(), b"3".as_ref()]);
    assert_eq!(map.len(), 1);
    assert_eq!(map.values_count(), 2);
    // The removed name can be stored again and read back.
    map.insert(a.clone(), b"4".to_vec())?;
    assert_eq!(map.get(&a), Some(b"4".as_ref()));
    assert_eq!(map.get(&b), Some(b"2".as_ref()));
    Ok(())
}

#[test]
fn growth_keeps_every_name_readable() -> Result<(), HeaderMapErrors> {
    let mut map = HeaderMap::new();
    let mut stored = 0;
    for i in 0..200u32 {
        let name = format!("header-{i}").into_bytes();
        match map.insert(name, format!("{i}").into_bytes()) {
            Ok(_) => stored += 1,
            Err(HeaderMapErrors::ProbeLimitExceeded) => {}
            Err(e) => return Err(e),
        }
    }
    assert!(map.capacity() > 16);
    let mut found = 0;
    for i in 0..200u32 {
        let name = format!("header-{i}").into_bytes();
        if let Some(v) = map.get(&name) {
            assert_eq!(v, format!("{i}").as_bytes());
            found += 1;
        }
    }
    assert_eq!(found, stored);
    assert_eq!(map.len(), stored);
    Ok(())
}

#[test]
fn iteration_yields_every_pair() -> Result<(), HeaderMapErrors> {
    let mut map = HeaderMap::new();
    map.append(b"set-cookie".to_vec(), b"a=1".to_vec())?;
    map.append(b"set-cookie".to_vec(), b"b=2".to_vec())?;
    let mut n = 0;
    let mut it = map.iter();
    while let Some((k, _)) = it.next() {
        assert_eq!(k, b"set-cookie".as_ref());
        n += 1;
    }
    assert_eq!(n, 2);
    for i in 0..40u32 {
        map.append(format!("x-{}", i % 7).into_bytes(), format!("{i}").into_bytes())?;
    }
    let mut n = 0;
    let mut it = map.iter();
    while let Some(_) = it.next() {
        n += 1;
    }
    assert_eq!(n, map.values_count());
    assert_eq!(n, 42);
    Ok(())
}

#[test]
fn error_messages() {
    assert_eq!(HeaderMapErrors::MaxCapacityReached.to_string(), "HeaderMap has reached max capacity");
    assert_eq!(HeaderMapErrors::ProbeLimitExceeded.to_string(), "Map probing limit exceeded");
}

#[test]
fn header_map2_insert_keeps_it_empty() {
    let mut m = HeaderMap2::new();
    m.insert(b"a", b"b");
    let _ = m;
}

#[test]
fn parse_buffered_keeps_the_unread_bytes() {
    let data = b"GET / HTTP/1.1\r\nHost: x\r\n";
    let mut buf = [0u8; 64];
    buf[..data.len()].copy_from_slice(data);
    let mut parser = RequestParser::new(1024);
    let left = parse_buffered(&mut parser, &mut buf, data.len()).unwrap();
    assert_eq!(left, data.len() - 15);
    assert_eq!(&buf[..left], &data[15..]);
    assert!(buf[left..].iter().all(|&b| b == 0));
    assert!(parser.done());

    let bad = b"FOO / HTTP/1.1\r\n";
    let mut buf = [0u8; 32];
    buf[..bad.len()].copy_from_slice(bad);
    let before = buf;
    let mut parser = RequestParser::new(1024);
    assert!(matches!(
        parse_buffered(&mut parser, &mut buf, bad.len()),
        Err(RequestParserError::InvalidRequestMethod)
    ));
    assert_eq!(buf, before);
}

#[test]
fn removed_slots_are_taken_again() -> Result<(), HeaderMapErrors> {
    let mut map = HeaderMap::new();
    for i in 0..200u32 {
        let name = format!("once-{i}").into_bytes();
        assert_eq!(map.insert(name.clone(), b"v".to_vec())?, None);
        assert_eq!(map.get(&name), Some(b"v".as_ref()));
        assert_eq!(map.remove(name.clone()), Some(b"v".as_ref()));
        assert_eq!(map.get(&name), None);
    }
    assert_eq!(map.len(), 0);
    assert_eq!(map.values_count(), 0);
    assert_eq!(map.capacity(), 16);
    Ok(())
}
