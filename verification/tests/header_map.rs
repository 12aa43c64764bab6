use chapter_4::header::map::{HeaderMap, HeaderMapErrors, MAX_CAPACITY};

fn b(s: &str) -> Vec<u8> {
    s.as_bytes().to_vec()
}

#[test]
fn insert() -> Result<(), HeaderMapErrors> {
    let mut map = HeaderMap::new();

    if map.insert(b("content-type"), b("text/html"))?.is_some() {
        panic!("Expected None, got Some")
    };
    match map.insert(b("content-type"), b("text/plain"))? {
        Some(old_value) => assert_eq!(old_value, b("text/html")),
        None => panic!("Expected Some, got None"),
    }
    match map.insert(b("content-type"), b("text/css"))? {
        Some(old_value) => assert_eq!(old_value, b("text/plain")),
        None => panic!("Expected Some, got None"),
    }

    assert_eq!(map.len(), 1);
    assert_eq!(map.values_count(), 1);
    assert_eq!(map.capacity(), 16);

    if map.insert(b("content-length"), b("123"))?.is_some() {
        panic!("Expected None, got Some")
    }
    match map.insert(b("content-length"), b("456"))? {
        Some(old_value) => assert_eq!(old_value, b("123")),
        None => panic!("Expected Some, got None"),
    }
    match map.insert(b("content-length"), b("789"))? {
        Some(old_value) => assert_eq!(old_value, b("456")),
        None => panic!("Expected Some, got None"),
    }
    match map.insert(b("content-length"), b("100"))? {
        Some(old_value) => assert_eq!(old_value, b("789")),
        None => panic!("Expected Some, got None"),
    }

    assert_eq!(map.len(), 2);
    assert_eq!(map.values_count(), 2);
    assert_eq!(map.capacity(), 16);
    Ok(())
}

#[test]
fn insert_many() -> Result<(), HeaderMapErrors> {
    let mut headers = vec![];
    for i in 0..100 {
        let key = format!("key{}", i);
        let value = format!("value{}", i);
        headers.push((key, value));
    }

    let mut map = HeaderMap::new();
    for (key, value) in headers.iter() {
        if map.insert(key.as_bytes().to_vec(), value.as_bytes().to_vec())?.is_some() {
            panic!("Expected None, got Some")
        }
    }

    assert_eq!(map.len(), 100);
    assert_eq!(map.values_count(), 100);
    assert_eq!(map.capacity(), (100 * 5_usize).next_power_of_two());
    Ok(())
}

#[test]
fn insert_until_capacity() -> Result<(), HeaderMapErrors> {
    let mut headers = vec![];
    for i in 0..(HeaderMap::MAX_SIZE) {
        let key = format!("key{}", i);
        let value = format!("value{}", i);
        headers.push((key, value));
    }

    let mut map = HeaderMap::new();
    for (key, value) in headers.iter() {
        if map.insert(key.as_bytes().to_vec(), value.as_bytes().to_vec())?.is_some() {
            panic!("Expected None, got Some")
        }
    }

    assert_eq!(map.len(), HeaderMap::MAX_SIZE);
    assert_eq!(map.values_count(), HeaderMap::MAX_SIZE);
    assert_eq!(map.capacity(), MAX_CAPACITY);
    Ok(())
}

#[test]
fn insert_too_many() -> Result<(), HeaderMapErrors> {
    let mut headers = vec![];
    for i in 0..(HeaderMap::MAX_SIZE + 1) {
        let key = format!("key{}", i);
        let value = format!("value{}", i);
        headers.push((key, value));
    }

    let mut map = HeaderMap::new();
    for (i, (key, value)) in headers.iter().enumerate() {
        if i == HeaderMap::MAX_SIZE {
            match map.insert(key.as_bytes().to_vec(), value.as_bytes().to_vec()) {
                Ok(_) => panic!("Expected Err, got Ok"),
                Err(e) => assert_eq!(e.to_string(), "HeaderMap has reached max capacity"),
            }
        } else {
            if map.insert(key.as_bytes().to_vec(), value.as_bytes().to_vec())?.is_some() {
                panic!("Expected None, got Some")
            }
        }
    }
    assert_eq!(map.len(), HeaderMap::MAX_SIZE);
    assert_eq!(map.values_count(), HeaderMap::MAX_SIZE);
    assert_eq!(map.capacity(), MAX_CAPACITY);
    Ok(())
}

#[test]
fn get() -> Result<(), HeaderMapErrors> {
    let mut map = HeaderMap::new();

    assert_eq!(map.get(b"content-type"), None);

    map.insert(b("content-type"), b("text/html"))?;
    assert_eq!(map.get(b"content-type"), Some(b"text/html".as_ref()));

    map.insert(b("content-type"), b("text/plain"))?;
    assert_eq!(map.get(b"content-type"), Some(b"text/plain".as_ref()));

    map.insert(b("content-length"), b("123"))?;
    assert_eq!(map.get(b"content-length"), Some(b"123".as_ref()));

    Ok(())
}

#[test]
fn get_mut() -> Result<(), HeaderMapErrors> {
    let mut map = HeaderMap::new();

    assert_eq!(map.get_mut(b"content-type"), None);

    map.insert(b("content-type"), b("text/html"))?;
    assert_eq!(map.get_mut(b"content-type"), Some(&mut b("text/html")));

    map.insert(b("content-type"), b("text/plain"))?;
    assert_eq!(map.get_mut(b"content-type"), Some(&mut b("text/plain")));

    map.insert(b("content-length"), b("123"))?;
    assert_eq!(map.get_mut(b"content-length"), Some(&mut b("123")));

    let content_type_mut = map.get_mut(b"content-type").unwrap();
    *content_type_mut = b("text/css");

    assert_eq!(map.get_mut(b"content-type"), Some(&mut b("text/css")));

    Ok(())
}

#[test]
fn append() -> Result<(), HeaderMapErrors> {
    let mut map = HeaderMap::new();

    map.append(b("set-cookie"), b("cookie1=value1"))?;
    map.append(b("content-type"), b("text/html"))?;

    map.append(b("set-cookie"), b("cookie2=value2"))?;
    map.append(b("content-type"), b("text/plain"))?;

    map.append(b("set-cookie"), b("cookie3=value3"))?;
    map.append(b("content-type"), b("text/css"))?;

    map.append(b("set-cookie"), b("cookie4=value4"))?;
    map.append(b("content-type"), b("text/xml"))?;

    assert_eq!(map.get(b"set-cookie"), Some(b"cookie1=value1".as_ref()));
    assert_eq!(map.get(b"content-type"), Some(b"text/html".as_ref()));
    assert_eq!(map.values_count(), 8);
    assert_eq!(map.len(), 2);
    Ok(())
}

#[test]
fn remove() -> Result<(), HeaderMapErrors> {
    let mut map = HeaderMap::new();

    map.insert(b("content-type"), b("text/html"))?;
    map.append(b("content-type"), b("text/plain"))?;

    map.insert(b("content-length"), b("123"))?;

    assert_eq!(map.remove(b("content-length")), Some(b"123".as_ref()));
    assert_eq!(map.get(b"content-length"), None);
    assert_eq!(map.len(), 1);
    assert_eq!(map.values_count(), 2);

    assert_eq!(map.remove(b("content-type")), Some(b"text/html".as_ref()));
    assert_eq!(map.get(b"content-type"), None);
    assert_eq!(map.len(), 0);
    assert_eq!(map.values_count(), 0);

    Ok(())
}

#[test]
fn get_all() -> Result<(), HeaderMapErrors> {
    let mut map = HeaderMap::new();
    map.append(b("set-cookie"), b("cookie1=value1"))?;
    map.append(b("set-cookie"), b("cookie2=value2"))?;
    map.append(b("set-cookie"), b("cookie3=value3"))?;

    let mut values = map.get_all(b"set-cookie");
    assert_eq!(values.next(), Some(b"cookie1=value1".as_ref()));
    assert_eq!(values.next(), Some(b"cookie2=value2".as_ref()));
    assert_eq!(values.next(), Some(b"cookie3=value3".as_ref()));
    assert_eq!(values.next(), None);
    Ok(())
}

#[test]
fn iter() -> Result<(), HeaderMapErrors> {
    let mut map = HeaderMap::new();
    map.append(b("set-cookie"), b("cookie1=value1"))?;
    map.append(b("set-cookie"), b("cookie2=value2"))?;
    map.append(b("set-cookie"), b("cookie3=value3"))?;
    map.append(b("content-type"), b("text/html"))?;
    map.append(b("content-type"), b("text/plain"))?;
    map.append(b("content-type"), b("text/css"))?;
    map.insert(b("content-length"), b("123"))?;

    let mut items = vec![];

    let mut it = map.iter();
    while let Some((key, value)) = it.next() {
        items.push((
            String::from_utf8_lossy(key).to_string(),
            String::from_utf8_lossy(value).to_string(),
        ));
    }

    assert_eq!(map.len(), 3);
    assert_eq!(map.values_count(), 7);
    assert_eq!(items.len(), 7);
    assert!(items.contains(&("set-cookie".into(), "cookie1=value1".into())));
    assert!(items.contains(&("set-cookie".into(), "cookie2=value2".into())));
    assert!(items.contains(&("set-cookie".into(), "cookie3=value3".into())));
    assert!(items.contains(&("content-type".into(), "text/html".into())));
    assert!(items.contains(&("content-type".into(), "text/plain".into())));
    assert!(items.contains(&("content-type".into(), "text/css".into())));
    assert!(items.contains(&("content-length".into(), "123".into())));
    Ok(())
}
