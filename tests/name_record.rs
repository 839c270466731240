use dns_codec::error::DnsError;
use dns_codec::name::{Name, References};
use dns_codec::record::Record;
use dns_codec::types::{RRClass, RRType};

const LABELS: &[&str] = &["www", "server", "com"];
const ENCODED_LABELS: &str = "\x03www\x06server\x03com\0";
const ENCODED_LABELS_AND_POINTER: &[u8] = b"\x03www\xc0\x0c";
const IPV4: &str = "1.2.3.4";

fn strings(labels: &[&str]) -> Vec<String> {
    labels.iter().map(|&s| String::from(s)).collect()
}

fn labels_and_pointer() -> Name {
    Name::new(vec![String::from("www")], Some(12))
}

fn references() -> References {
    let mut r = References::new();
    r.insert(vec![String::from("server"), String::from("com")], 12);
    r
}

fn ipv4_record() -> Record {
    Record::new(RRType::A, RRClass::IN, b"\x01\x02\x03\x04".to_vec())
}

#[test]
fn vec_to_name() {
    let encoded_vec: Vec<u8> = ENCODED_LABELS.into();
    let name: Name = strings(LABELS).into();
    assert_eq!(encoded_vec, name.to_vec());
}

#[test]
fn name_to_vec() {
    let encoded_vec: Vec<u8> = ENCODED_LABELS.into();
    let name = Name::try_from(&encoded_vec[..]).unwrap();
    let target: Name = strings(LABELS).into();
    assert_eq!(target, name);
}

#[test]
fn decoding_name_with_pointer() -> Result<(), DnsError> {
    assert_eq!(labels_and_pointer(), Name::try_from(ENCODED_LABELS_AND_POINTER)?);
    Ok(())
}

#[test]
fn encoding_name_with_pointer() -> Result<(), DnsError> {
    assert_eq!(ENCODED_LABELS_AND_POINTER, labels_and_pointer().to_vec());
    Ok(())
}

#[test]
fn expand_name_with_pointer() -> Result<(), DnsError> {
    assert_eq!(LABELS, labels_and_pointer().expand(&references())?.labels());
    Ok(())
}

#[test]
fn compress_name() -> Result<(), DnsError> {
    let name = Name::from(strings(LABELS));
    assert_eq!(labels_and_pointer(), name.compress(&references())?);
    Ok(())
}

#[test]
fn ipv4_str_to_record() -> Result<(), DnsError> {
    assert_eq!(ipv4_record(), Record::from_ip_v4(IPV4)?);
    Ok(())
}

#[test]
fn encode_record() -> Result<(), DnsError> {
    assert_eq!(b"\x00\x01\x00\x01\x00\x04\x01\x02\x03\x04".to_vec(), ipv4_record().to_vec());
    Ok(())
}

#[test]
fn name_len_counts_wire_bytes() {
    let name: Name = strings(LABELS).into();
    assert_eq!(name.len(), ENCODED_LABELS.len());
    assert_eq!(labels_and_pointer().len(), ENCODED_LABELS_AND_POINTER.len());
}

#[test]
fn label_of_63_bytes_round_trips() {
    let long = "a".repeat(63);
    let name = Name::from(vec![long.clone(), String::from("com")]);
    let bytes = name.to_vec();
    assert_eq!(bytes[0], 63);
    assert_eq!(bytes.len(), 1 + 63 + 1 + 3 + 1);
    assert_eq!(Name::try_from(&bytes[..]).unwrap(), name);
}

#[test]
fn name_round_trips_printable_labels() {
    let name = Name::from(strings(&["a-b", "x_y~", "Z9"]));
    assert_eq!(Name::try_from(&name.to_vec()[..]).unwrap(), name);
}

#[test]
fn name_decodes_at_offset() {
    let bytes = b"\xff\xff\x02io\x00";
    let name = Name::decode(bytes, 2).unwrap();
    assert_eq!(name.labels(), &strings(&["io"]));
    assert_eq!(name.pointer(), &None);
}

#[test]
fn illegal_label_length_is_corrupt() {
    assert_eq!(Name::try_from(&b"\x40abc\x00"[..]), Err(DnsError::CorruptName));
    assert_eq!(Name::try_from(&b"\xbfabc\x00"[..]), Err(DnsError::CorruptName));
}

#[test]
fn truncated_or_unterminated_names_are_corrupt() {
    assert_eq!(Name::try_from(&b"\x05ab"[..]), Err(DnsError::CorruptName));
    assert_eq!(Name::try_from(&b"\x02ab"[..]), Err(DnsError::CorruptName));
    assert_eq!(Name::try_from(&b""[..]), Err(DnsError::CorruptName));
    assert_eq!(Name::try_from(&b"\x02ab\xc0"[..]), Err(DnsError::CorruptName));
}

#[test]
fn invalid_utf8_label_is_corrupt() {
    assert_eq!(Name::try_from(&b"\x02\xff\xfe\x00"[..]), Err(DnsError::CorruptName));
}

#[test]
fn utf8_label_decodes_to_its_characters() {
    let name = Name::try_from(&b"\x02\xc3\xa9\x00"[..]).unwrap();
    assert_eq!(name.labels(), &vec![String::from("\u{e9}")]);
    assert_eq!(name.to_vec(), b"\x02\xc3\xa9\x00".to_vec());
}

#[test]
fn pointer_keeps_fourteen_bits() {
    let name = Name::try_from(&b"\xff\xff"[..]).unwrap();
    assert_eq!(name.pointer(), &Some(0x3fff));
    assert_eq!(name.to_vec(), b"\xff\xff".to_vec());
}

#[test]
fn expand_unregistered_pointer_fails() {
    let name = Name::new(vec![String::from("www")], Some(40));
    assert_eq!(name.expand(&references()), Err(DnsError::CorruptName));
}

#[test]
fn expand_without_pointer_is_identity() {
    let name = Name::from(strings(LABELS));
    assert_eq!(name.expand(&References::new()).unwrap(), name);
}

#[test]
fn compress_of_compressed_name_fails() {
    assert_eq!(labels_and_pointer().compress(&references()), Err(DnsError::AlreadyCompressed));
}

#[test]
fn compress_prefers_longest_suffix() {
    let mut refs = References::new();
    refs.insert(strings(&["com"]), 30);
    refs.insert(strings(&["server", "com"]), 20);
    let name = Name::from(strings(LABELS));
    assert_eq!(name.compress(&refs).unwrap(), Name::new(strings(&["www"]), Some(20)));
}

#[test]
fn compress_without_match_is_unchanged() {
    let mut refs = References::new();
    refs.insert(strings(&["org"]), 30);
    let name = Name::from(strings(LABELS));
    assert_eq!(name.compress(&refs).unwrap(), name);
}

#[test]
fn references_first_entry_wins() {
    let mut refs = References::new();
    refs.insert(strings(&["a"]), 12);
    refs.insert(strings(&["b"]), 12);
    refs.insert(strings(&["a"]), 40);
    assert_eq!(refs.len(), 3);
    assert_eq!(refs.suffix_at(12), Some(&strings(&["a"])));
    assert_eq!(refs.offset_of_suffix(&strings(&["x", "a"]), 1), Some(12));
    assert_eq!(refs.suffix_at(13), None);
}

#[test]
fn compression_round_trip_scenario() {
    // "www.server.com" written at offset 12 registers each suffix
    let a = Name::from(strings(LABELS));
    let mut refs = References::new();
    refs.insert(strings(&["www", "server", "com"]), 12);
    refs.insert(strings(&["server", "com"]), 16);
    refs.insert(strings(&["com"]), 23);
    let b = Name::from(strings(&["mail", "server", "com"]));
    let c = b.compress(&refs).unwrap();
    assert_eq!(c.pointer(), &Some(16));
    assert!(12 <= 16 && 16 < 12 + a.len());
    let read = Name::try_from(&c.to_vec()[..]).unwrap();
    assert_eq!(read.expand(&refs).unwrap(), b);
}

#[test]
fn ipv4_parse_errors() {
    assert_eq!(Record::from_ip_v4("256.1.1.1"), Err(DnsError::InvalidAddress));
    assert_eq!(Record::from_ip_v4("1.2.3"), Err(DnsError::InvalidAddress));
    assert_eq!(Record::from_ip_v4("1.2.3.4.5"), Err(DnsError::InvalidAddress));
    assert_eq!(Record::from_ip_v4("1.2..4"), Err(DnsError::InvalidAddress));
    assert_eq!(Record::from_ip_v4("1.2.3.x"), Err(DnsError::InvalidAddress));
    assert_eq!(Record::from_ip_v4("-1.2.3.4"), Err(DnsError::InvalidAddress));
    assert_eq!(Record::from_ip_v4(""), Err(DnsError::InvalidAddress));
}

#[test]
fn ipv4_accepts_what_u8_parsing_accepts() {
    let r = Record::from_ip_v4("+8.008.255.0").unwrap();
    assert_eq!(r.data(), &vec![8, 8, 255, 0]);
    assert_eq!(r.rrtype(), &RRType::A);
    assert_eq!(r.rrclass(), &RRClass::IN);
}

#[test]
fn record_encodes_type_class_and_length() {
    let r = Record::new(RRType::MX, RRClass::CH, vec![9; 300]);
    let v = r.to_vec();
    assert_eq!(&v[..6], &[0, 15, 0, 3, 1, 44]);
    assert_eq!(v.len(), 306);
}
