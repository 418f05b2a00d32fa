use rtorrent::bencode::{DecodeError, EntryData, MetaError};
use rtorrent::decoder::{decode, decode_complete, skip};

#[test]
fn string() {
    let mut input: &[u8] = b"5:doggy";
    assert_eq!(decode(&mut input).unwrap().to_string(), "doggy");
}

#[test]
fn int_entry() {
    let mut input: &[u8] = b"i232e";
    assert_eq!(decode(&mut input).unwrap().to_string(), "232");
}

#[test]
fn list() {
    let mut input: &[u8] = b"li232e5:doggye";
    assert_eq!(decode(&mut input).unwrap().to_string(), ", 232, doggy");
}

#[test]
fn string_value_and_source() {
    let mut input: &[u8] = b"5:doggy";
    let e = decode(&mut input).unwrap();
    match &e.data {
        EntryData::Str(v) => assert_eq!(v.as_slice(), b"doggy"),
        _ => panic!("not a string"),
    }
    assert_eq!(e.src.as_slice(), b"5:doggy");
    assert!(input.is_empty());
}

#[test]
fn integers_signed_and_zero() {
    for (text, want) in [(&b"i232e"[..], 232i64), (&b"i-1e"[..], -1), (&b"i0e"[..], 0)] {
        let mut input: &[u8] = text;
        let e = decode(&mut input).unwrap();
        match e.data {
            EntryData::Int(v) => assert_eq!(v, want),
            _ => panic!("not an integer"),
        }
    }
}

#[test]
fn integer_extremes() {
    let mut input: &[u8] = b"i-9223372036854775808e";
    match decode(&mut input).unwrap().data {
        EntryData::Int(v) => assert_eq!(v, i64::MIN),
        _ => panic!("not an integer"),
    }
    let mut input: &[u8] = b"i9223372036854775807e";
    match decode(&mut input).unwrap().data {
        EntryData::Int(v) => assert_eq!(v, i64::MAX),
        _ => panic!("not an integer"),
    }
    let mut input: &[u8] = b"i9223372036854775808e";
    assert_eq!(decode(&mut input).err(), Some(DecodeError::BadNumber));
}

#[test]
fn list_items() {
    let mut input: &[u8] = b"li232e5:doggye";
    let e = decode(&mut input).unwrap();
    match &e.data {
        EntryData::List(items) => {
            assert_eq!(items.len(), 2);
            assert!(matches!(items[0].data, EntryData::Int(232)));
            match &items[1].data {
                EntryData::Str(v) => assert_eq!(v.as_slice(), b"doggy"),
                _ => panic!("not a string"),
            }
            assert_eq!(items[0].src.as_slice(), b"i232e");
            assert_eq!(items[1].src.as_slice(), b"5:doggy");
        },
        _ => panic!("not a list"),
    }
}

#[test]
fn dictionary_and_reencode() {
    let text: &[u8] = b"d3:cow3:moo4:spam4:eggse";
    let mut input = text;
    let e = decode(&mut input).unwrap();
    let cow = e.field("cow").unwrap();
    let spam = e.field("spam").unwrap();
    assert_eq!(cow.to_string(), "moo");
    assert_eq!(spam.to_string(), "eggs");
    assert_eq!(e.data.bencode().as_slice(), text);
    assert_eq!(e.src.as_slice(), text);
}

#[test]
fn dictionary_keys_sorted_on_decode() {
    let mut input: &[u8] = b"d4:spam4:eggs3:cow3:mooe";
    let e = decode(&mut input).unwrap();
    assert_eq!(e.data.bencode().as_slice(), b"d3:cow3:moo4:spam4:eggse");
}

#[test]
fn dictionary_later_key_wins() {
    let mut input: &[u8] = b"d1:ai1e1:ai2ee";
    let e = decode(&mut input).unwrap();
    assert_eq!(e.field("a").unwrap().as_usize(), Ok(2));
    assert_eq!(e.data.bencode().as_slice(), b"d1:ai2ee");
}

#[test]
fn field_errors() {
    let mut input: &[u8] = b"d3:cowi3ee";
    let e = decode(&mut input).unwrap();
    assert_eq!(e.field("pig").err(), Some(MetaError::Missing));
    assert_eq!(e.field("cow").unwrap().as_usize(), Ok(3));
    assert_eq!(e.as_usize(), Err(MetaError::BadType));
    let mut input: &[u8] = b"i-3e";
    let n = decode(&mut input).unwrap();
    assert_eq!(n.as_usize(), Err(MetaError::BadType));
    assert_eq!(n.field("x").err(), Some(MetaError::NotDictionary));
}

#[test]
fn nested_round_trip() {
    let text: &[u8] = b"d4:infod6:lengthi10e4:name1:xe4:listli1eli2eed1:ki-5eeee";
    let mut input = text;
    let e = decode(&mut input).unwrap();
    assert_eq!(e.data.bencode().as_slice(), text);
    let info = e.field("info").unwrap();
    assert_eq!(info.src.as_slice(), b"d6:lengthi10e4:name1:xe");
    assert_eq!(info.data.bencode().as_slice(), info.src.as_slice());
}

#[test]
fn decode_leaves_the_rest() {
    let mut input: &[u8] = b"i1ei2e";
    let e = decode(&mut input).unwrap();
    assert!(matches!(e.data, EntryData::Int(1)));
    assert_eq!(input, b"i2e");
}

#[test]
fn decode_errors() {
    let mut input: &[u8] = b"i12";
    assert_eq!(decode(&mut input).err(), Some(DecodeError::Truncated));
    assert_eq!(input, b"i12");
    let mut input: &[u8] = b"ixe";
    assert_eq!(decode(&mut input).err(), Some(DecodeError::BadNumber));
    let mut input: &[u8] = b"di1ei2ee";
    assert_eq!(decode(&mut input).err(), Some(DecodeError::BadKey));
    let mut input: &[u8] = b"10:abc";
    assert_eq!(decode(&mut input).err(), Some(DecodeError::Truncated));
    let mut input: &[u8] = b"-1:a";
    assert_eq!(decode(&mut input).err(), Some(DecodeError::BadNumber));
    let mut input: &[u8] = b"l";
    assert_eq!(decode(&mut input).err(), Some(DecodeError::Truncated));
    let mut input: &[u8] = b"";
    assert_eq!(decode(&mut input).err(), Some(DecodeError::Truncated));
    assert_eq!(decode_complete(b"i1ei2e").err(), Some(DecodeError::Trailing));
    assert!(decode_complete(b"i1e").is_ok());
}

#[test]
fn skip_drops_bytes() {
    let mut input: &[u8] = b"abcdef";
    skip(&mut input, 2);
    assert_eq!(input, b"cdef");
}

#[test]
fn entry_from_source() {
    let text: &[u8] = b"i7eXYZ";
    let e = rtorrent::bencode::Entry::from(EntryData::Int(7), text, 3);
    assert_eq!(e.src.as_slice(), b"i7e");
}
