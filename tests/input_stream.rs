use buffoon::InputStream;

fn stream(bytes: &[u8]) -> InputStream {
    InputStream::from(bytes.to_vec())
}

#[test]
fn test_reading_empty_stream() {
    let mut i = stream(&[]);
    assert!(i.read_field().unwrap().is_none());
}

#[test]
fn test_reading_string() {
    let mut i = stream(b"\x0A\x04zomg");
    {
        let f = i.read_field().unwrap().unwrap();
        assert_eq!(f.tag(), 1);
        assert_eq!(f.read_string().unwrap(), "zomg");
    }
    assert!(i.read_field().unwrap().is_none());
}

#[test]
fn test_reading_single_byte_usize() {
    let mut i = stream(b"\x00\x08");
    {
        let f = i.read_field().unwrap().unwrap();
        assert_eq!(f.tag(), 0);
        assert_eq!(f.read::<u64>().unwrap(), 8);
    }
    assert!(i.read_field().unwrap().is_none());
}

#[test]
fn test_reading_multi_byte_usize() {
    let mut i = stream(b"\x00\x92\x0C");
    {
        let f = i.read_field().unwrap().unwrap();
        assert_eq!(f.tag(), 0);
        assert_eq!(f.read::<u64>().unwrap(), 1554);
    }
    assert!(i.read_field().unwrap().is_none());
}

#[test]
fn test_reading_sequential_fields() {
    let mut i = stream(b"\x00\x08\x0A\x04zomg\x12\x03lol");
    {
        let f = i.read_field().unwrap().unwrap();
        assert_eq!(f.tag(), 0);
        assert_eq!(f.read::<u64>().unwrap(), 8);
    }
    {
        let f = i.read_field().unwrap().unwrap();
        assert_eq!(f.tag(), 1);
        assert_eq!(f.read_string().unwrap(), "zomg");
    }
    {
        let f = i.read_field().unwrap().unwrap();
        assert_eq!(f.tag(), 2);
        assert_eq!(f.read_string().unwrap(), "lol");
    }
    assert!(i.read_field().unwrap().is_none());
}

#[test]
fn test_skipping_string_field() {
    let mut i = stream(b"\x00\x08\x0A\x04zomg\x12\x03lol");
    i.read_field().unwrap().unwrap().skip().unwrap();
    {
        let f = i.read_field().unwrap().unwrap();
        assert_eq!(f.tag(), 1);
        assert_eq!(f.read_string().unwrap(), "zomg");
    }
    i.read_field().unwrap().unwrap().skip().unwrap();
    assert!(i.read_field().unwrap().is_none());
}

#[test]
fn test_reading_multi_byte_tag_field() {
    let mut i = stream(b"\x92\x01\x04zomg");
    {
        let f = i.read_field().unwrap().unwrap();
        assert_eq!(f.tag(), 18);
        assert_eq!(f.read_string().unwrap(), "zomg");
    }
    assert!(i.read_field().unwrap().is_none());
}

#[test]
fn test_reading_incorrect_type_from_field() {
    let mut i = stream(b"\x92\x01\x04zomg");
    {
        let f = i.read_field().unwrap().unwrap();
        assert!(f.read::<u64>().is_err());
    }
}

#[test]
fn test_reading_packed_varints() {
    let mut i = stream(b"\x22\x06\x03\x8e\x02\x9e\xa7\x05");
    let f = i.read_field().unwrap().unwrap();
    assert_eq!(f.tag(), 4);
    let mut values = f.read_packed().unwrap();
    let mut nums: Vec<u64> = Vec::new();
    while let Some(v) = values.next() {
        nums.push(v.unwrap());
    }
    assert_eq!(nums, [3, 270, 86942]);
}
