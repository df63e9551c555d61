use std::collections::BTreeMap;
use tikv_dst::json::{ArrayIndex, Error, JsonRef, JsonType, HEADER_LEN, KEY_ENTRY_LEN};

/// A JSON value and its encoding.
#[derive(Clone)]
struct Json {
    code: u8,
    value: Vec<u8>,
}

impl Json {
    fn from_u64(n: u64) -> Json {
        Json { code: 0x0a, value: n.to_le_bytes().to_vec() }
    }
    fn from_i64(n: i64) -> Json {
        Json { code: 0x09, value: n.to_le_bytes().to_vec() }
    }
    fn from_f64(n: f64) -> Json {
        Json { code: 0x0b, value: n.to_le_bytes().to_vec() }
    }
    fn from_literal(b: u8) -> Json {
        Json { code: 0x04, value: vec![b] }
    }
    fn from_bool(b: bool) -> Json {
        Json::from_literal(if b { 1 } else { 2 })
    }
    fn from_str_val(s: &str) -> Json {
        let mut value = varint(s.len() as u64);
        value.extend_from_slice(s.as_bytes());
        Json { code: 0x0c, value }
    }
    fn from_time(packed: u64) -> Json {
        Json { code: 0x0f, value: packed.to_le_bytes().to_vec() }
    }
    fn from_duration(nanos: i64, fsp: u32) -> Json {
        let mut value = nanos.to_le_bytes().to_vec();
        value.extend_from_slice(&fsp.to_le_bytes());
        Json { code: 0x11, value }
    }
    fn from_opaque(tp: u8, bytes: &[u8]) -> Json {
        let mut value = vec![tp];
        value.extend(varint(bytes.len() as u64));
        value.extend_from_slice(bytes);
        Json { code: 0x0d, value }
    }
    fn from_array(elems: Vec<Json>) -> Json {
        Json { code: 0x03, value: container(&[], &elems) }
    }
    fn from_object(entries: BTreeMap<String, Json>) -> Json {
        let keys: Vec<&[u8]> = entries.keys().map(|k| k.as_bytes()).collect();
        let values: Vec<Json> = entries.values().cloned().collect();
        Json { code: 0x01, value: container(&keys, &values) }
    }
    fn as_ref(&self) -> JsonRef<'_> {
        JsonRef::new(JsonType::from_code(self.code).unwrap(), &self.value)
    }
}

fn varint(mut n: u64) -> Vec<u8> {
    let mut out = Vec::new();
    while n >= 0x80 {
        out.push((n & 0x7f) as u8 | 0x80);
        n >>= 7;
    }
    out.push(n as u8);
    out
}

/// Header, key entries, value entries, keys, values.
fn container(keys: &[&[u8]], values: &[Json]) -> Vec<u8> {
    let mut off = 8 + keys.len() * 6 + values.len() * 5;
    let mut key_entries = Vec::new();
    let mut key_data = Vec::new();
    for k in keys {
        key_entries.extend_from_slice(&(off as u32).to_le_bytes());
        key_entries.extend_from_slice(&(k.len() as u16).to_le_bytes());
        key_data.extend_from_slice(k);
        off += k.len();
    }
    let mut value_entries = Vec::new();
    let mut value_data = Vec::new();
    for v in values {
        value_entries.push(v.code);
        if v.code == 0x04 {
            value_entries.extend_from_slice(&[v.value[0], 0, 0, 0]);
        } else {
            value_entries.extend_from_slice(&(off as u32).to_le_bytes());
            value_data.extend_from_slice(&v.value);
            off += v.value.len();
        }
    }
    let mut out = (values.len() as u32).to_le_bytes().to_vec();
    out.extend_from_slice(&(off as u32).to_le_bytes());
    out.extend(key_entries);
    out.extend(value_entries);
    out.extend(key_data);
    out.extend(value_data);
    out
}

fn parse(text: &str) -> Json {
    encode(&serde_json::from_str::<serde_json::Value>(text).unwrap())
}

fn encode(v: &serde_json::Value) -> Json {
    match v {
        serde_json::Value::Null => Json::from_literal(0),
        serde_json::Value::Bool(b) => Json::from_bool(*b),
        serde_json::Value::Number(n) => {
            if let Some(i) = n.as_i64() {
                Json::from_i64(i)
            } else if let Some(u) = n.as_u64() {
                Json::from_u64(u)
            } else {
                Json::from_f64(n.as_f64().unwrap())
            }
        }
        serde_json::Value::String(s) => Json::from_str_val(s),
        serde_json::Value::Array(a) => Json::from_array(a.iter().map(encode).collect()),
        serde_json::Value::Object(o) => {
            Json::from_object(o.iter().map(|(k, v)| (k.clone(), encode(v))).collect())
        }
    }
}

fn get_u64(j: JsonRef<'_>) -> u64 {
    assert_eq!(j.get_type(), JsonType::U64);
    u64::from_le_bytes(j.value().try_into().unwrap())
}

fn get_str(j: JsonRef<'_>) -> String {
    assert_eq!(j.get_type(), JsonType::String);
    let len = j.value()[0] as usize;
    assert_eq!(j.value().len(), len + 1);
    String::from_utf8(j.value()[1..].to_vec()).unwrap()
}

fn get_literal(j: JsonRef<'_>) -> bool {
    match j.as_literal("").unwrap() {
        1 => true,
        2 => false,
        other => panic!("{}", other),
    }
}

fn get_time(j: JsonRef<'_>) -> u64 {
    assert_eq!(j.get_type(), JsonType::Datetime);
    u64::from_le_bytes(j.value().try_into().unwrap())
}

fn get_duration(j: JsonRef<'_>) -> (i64, u32) {
    assert_eq!(j.get_type(), JsonType::Time);
    let nanos = i64::from_le_bytes(j.value()[..8].try_into().unwrap());
    (nanos, u32::from_le_bytes(j.value()[8..].try_into().unwrap()))
}

#[test]
fn test_type() {
    let legal_cases = vec![
        (r#"{"key":"value"}"#, JsonType::Object),
        (r#"["d1","d2"]"#, JsonType::Array),
        (r#"-3"#, JsonType::I64),
        (r#"3"#, JsonType::I64),
        (r#"18446744073709551615"#, JsonType::U64),
        (r#"18446744073709551616"#, JsonType::Double),
        (r#"3.0"#, JsonType::Double),
        (r#"null"#, JsonType::Literal),
        (r#"true"#, JsonType::Literal),
        (r#"false"#, JsonType::Literal),
    ];

    for (json_str, tp) in legal_cases {
        let json = parse(json_str);
        assert_eq!(json.as_ref().get_type(), tp, "{:?}", json_str);
        // The type is also read back from a value entry.
        let array = Json::from_array(vec![json.clone()]);
        let elem = array.as_ref().array_get_elem(0).unwrap();
        assert_eq!(elem.get_type(), tp, "{:?}", json_str);
        assert_eq!(elem.value(), &json.value[..], "{:?}", json_str);
    }
}

/// 1998-06-13 12:13:14, packed.
const DATETIME: u64 = ((((1998 * 13 + 6) << 5 | 13) << 17) | (12 << 12 | 13 << 6 | 14)) << 24;

/// 12:13:14 in nanoseconds.
const DURATION: i64 = (12 * 3600 + 13 * 60 + 14) * 1_000_000_000;

fn sample_array() -> Vec<Json> {
    vec![Json::from_u64(1), Json::from_str_val("abcdefg")]
}

fn sample_object() -> BTreeMap<String, Json> {
    BTreeMap::from([
        ("key1".to_string(), Json::from_u64(1)),
        ("key2".to_string(), Json::from_str_val("abcdefg")),
    ])
}

#[test]
fn test_array_get_elem() {
    let json_array = Json::from_array(vec![
        Json::from_u64(1),
        Json::from_time(DATETIME),
        Json::from_duration(DURATION, 0),
        Json::from_array(sample_array()),
        Json::from_str_val("abcdefg"),
        Json::from_bool(false),
        Json::from_object(sample_object()),
    ]);
    let json_array_ref = json_array.as_ref();

    assert_eq!(get_u64(json_array_ref.array_get_elem(0).unwrap()), 1);
    assert_eq!(get_time(json_array_ref.array_get_elem(1).unwrap()), DATETIME);
    assert_eq!(get_duration(json_array_ref.array_get_elem(2).unwrap()), (DURATION, 0));
    assert_eq!(
        get_u64(json_array_ref.array_get_elem(3).unwrap().array_get_elem(0).unwrap()),
        1
    );
    assert_eq!(
        get_str(json_array_ref.array_get_elem(3).unwrap().array_get_elem(1).unwrap()),
        "abcdefg"
    );
    assert_eq!(get_str(json_array_ref.array_get_elem(4).unwrap()), "abcdefg");
    assert_eq!(get_literal(json_array_ref.array_get_elem(5).unwrap()), false);
    assert_eq!(
        json_array_ref.array_get_elem(6).unwrap().object_get_key(0).unwrap(),
        b"key1"
    );
    assert_eq!(
        json_array_ref.array_get_elem(6).unwrap().object_get_key(1).unwrap(),
        b"key2"
    );
    assert_eq!(
        get_u64(json_array_ref.array_get_elem(6).unwrap().object_get_val(0).unwrap()),
        1
    );
    assert_eq!(
        get_str(json_array_ref.array_get_elem(6).unwrap().object_get_val(1).unwrap()),
        "abcdefg"
    );
}

#[test]
fn test_object_get_val() {
    let json_object = Json::from_object(BTreeMap::from([
        ("0".to_string(), Json::from_u64(1)),
        ("1".to_string(), Json::from_time(DATETIME)),
        ("2".to_string(), Json::from_duration(DURATION, 0)),
        ("3".to_string(), Json::from_array(sample_array())),
        ("4".to_string(), Json::from_str_val("abcdefg")),
        ("5".to_string(), Json::from_bool(false)),
        ("6".to_string(), Json::from_object(sample_object())),
    ]));
    let json_object_ref = json_object.as_ref();

    assert_eq!(json_object_ref.object_get_key(0).unwrap(), b"0");
    assert_eq!(json_object_ref.object_get_key(1).unwrap(), b"1");
    assert_eq!(json_object_ref.object_get_key(2).unwrap(), b"2");
    assert_eq!(json_object_ref.object_get_key(3).unwrap(), b"3");

    assert_eq!(get_u64(json_object_ref.object_get_val(0).unwrap()), 1);
    assert_eq!(get_time(json_object_ref.object_get_val(1).unwrap()), DATETIME);
    assert_eq!(get_duration(json_object_ref.object_get_val(2).unwrap()), (DURATION, 0));
    assert_eq!(
        get_u64(json_object_ref.object_get_val(3).unwrap().array_get_elem(0).unwrap()),
        1
    );
    assert_eq!(
        get_str(json_object_ref.object_get_val(3).unwrap().array_get_elem(1).unwrap()),
        "abcdefg"
    );
    assert_eq!(get_str(json_object_ref.object_get_val(4).unwrap()), "abcdefg");
    assert_eq!(get_literal(json_object_ref.object_get_val(5).unwrap()), false);
    assert_eq!(
        json_object_ref.object_get_val(6).unwrap().object_get_key(0).unwrap(),
        b"key1"
    );
    assert_eq!(
        json_object_ref.object_get_val(6).unwrap().object_get_key(1).unwrap(),
        b"key2"
    );
    assert_eq!(
        get_u64(json_object_ref.object_get_val(6).unwrap().object_get_val(0).unwrap()),
        1
    );
    assert_eq!(
        get_str(json_object_ref.object_get_val(6).unwrap().object_get_val(1).unwrap()),
        "abcdefg"
    );
}

#[test]
fn test_object_get_key_poison_offsets_err_not_panic() {
    // type Object + 8-byte header (elem_count=1, size=...) + key entry with
    // huge key_off so key slice is OOB.
    let mut value = vec![0u8; HEADER_LEN + KEY_ENTRY_LEN];
    let value_len = value.len() as u32;
    // element count = 1
    value[0..4].copy_from_slice(&1u32.to_le_bytes());
    // size = value.len()
    value[4..8].copy_from_slice(&value_len.to_le_bytes());
    // key_off = 0xffff_fff0, key_len = 4
    let key_entry = HEADER_LEN;
    value[key_entry..key_entry + 4].copy_from_slice(&0xffff_fff0u32.to_le_bytes());
    value[key_entry + 4..key_entry + 6].copy_from_slice(&4u16.to_le_bytes());

    let j = JsonRef::new(JsonType::Object, &value);
    let err = j.object_get_key(0).unwrap_err();
    match err {
        Error::CorruptedData(msg) => {
            assert!(
                msg.contains("out of bounds") || msg.contains("overflow"),
                "unexpected msg: {}",
                msg
            );
        }
        other => panic!("expected CorruptedData, got {:?}", other),
    }

    // Truncated key-entry table: elem_count claims 2 keys but buffer too short.
    let mut short = vec![0u8; HEADER_LEN];
    short[0..4].copy_from_slice(&2u32.to_le_bytes());
    short[4..8].copy_from_slice(&8u32.to_le_bytes());
    let j2 = JsonRef::new(JsonType::Object, &short);
    assert!(j2.object_get_key(0).is_err());
    assert!(j2.object_search_key(b"x").is_err());
}

#[test]
fn test_array_get_elem_truncated_err_not_panic() {
    // Array header claims 1 elem but no value entry bytes.
    let mut value = vec![0u8; HEADER_LEN];
    value[0..4].copy_from_slice(&1u32.to_le_bytes());
    value[4..8].copy_from_slice(&8u32.to_le_bytes());
    let j = JsonRef::new(JsonType::Array, &value);
    assert!(j.array_get_elem(0).is_err());
    assert!(j.val_entry_get(HEADER_LEN).is_err());
}

fn message(r: Result<JsonRef<'_>, Error>) -> String {
    match r {
        Err(Error::CorruptedData(msg)) => msg,
        Err(Error::InvalidDataType(msg)) => format!("type: {}", msg),
        Err(Error::UnexpectedEof) => "eof".to_string(),
        Ok(j) => panic!("{:?}", j),
    }
}

/// An array with one entry of this type and offset.
fn entry(code: u8, off: u32, data: &[u8]) -> Vec<u8> {
    let mut value = 1u32.to_le_bytes().to_vec();
    value.extend_from_slice(&0u32.to_le_bytes());
    value.push(code);
    value.extend_from_slice(&off.to_le_bytes());
    value.extend_from_slice(data);
    value
}

#[test]
fn corrupt_entries_are_reported() {
    let arr = |v: &[u8]| message(JsonRef::new(JsonType::Array, v).array_get_elem(0));
    assert_eq!(arr(&[0; 8]), "JSON binary out of bounds: [8, 9) of len 8");
    assert_eq!(arr(&entry(0x77, 0, &[])), "type: unexpected JSON type");
    assert_eq!(arr(&entry(0x0a, 13, &[0; 7])), "JSON binary out of bounds: [13, 21) of len 20");
    assert_eq!(arr(&entry(0x0c, 14, &[])), "JSON string offset 14 past len 13");
    assert_eq!(arr(&entry(0x0c, 13, &[])), "eof");
    assert_eq!(arr(&entry(0x0c, 13, &[5, 0])), "JSON binary out of bounds: [13, 19) of len 15");
    assert_eq!(arr(&entry(0x0d, 13, &[])), "JSON opaque offset 14 past len 13");
    assert_eq!(arr(&entry(0x0d, 13, &[1, 0x80])), "eof");
    assert_eq!(arr(&entry(0x11, 13, &[0; 8])), "JSON binary out of bounds: [13, 25) of len 21");
    assert_eq!(arr(&entry(0x10, 13, &[0; 4])), "JSON binary out of bounds: [13, 21) of len 17");
    assert_eq!(arr(&entry(0x03, 13, &[0; 4])), "JSON binary out of bounds: [17, 21) of len 17");
    assert_eq!(
        arr(&entry(0x01, 13, &[0, 0, 0, 0, 9, 0, 0, 0])),
        "JSON binary out of bounds: [13, 22) of len 21"
    );
    let mut cut = entry(0x0a, 0, &[]);
    cut.truncate(11);
    assert_eq!(arr(&cut), "JSON binary out of bounds: [9, 13) of len 11");
    let whole = JsonRef::new(JsonType::Array, &[0; 8]);
    assert_eq!(message(whole.array_get_elem(usize::MAX)), "JSON array index overflow");
    assert_eq!(message(whole.object_get_val(usize::MAX)), "JSON object value-entry offset overflow");
    assert_eq!(
        message(whole.val_entry_get(usize::MAX)),
        format!("JSON binary out of bounds: [{}, {}) of len 8", usize::MAX, usize::MAX)
    );
    // A document that is too short for its element count.
    let stub = JsonRef::new(JsonType::Object, &[1, 0]);
    assert_eq!(message(stub.object_get_val(0)), "JSON binary out of bounds: [0, 4) of len 2");
    assert!(stub.object_search_key(b"k").is_err());
    match whole.object_get_key(usize::MAX) {
        Err(Error::CorruptedData(msg)) => assert_eq!(msg, "JSON object key index overflow"),
        other => panic!("{:?}", other),
    }
    // A length that no offset can reach.
    let huge = entry(0x0c, 13, &[0xff, 0xff, 0xff, 0xff, 0xff, 0xff, 0xff, 0xff, 0xff, 0x01]);
    assert_eq!(arr(&huge), "JSON string length overflow");
}

#[test]
fn opaque_values_keep_their_type_byte() {
    let bytes = vec![7u8; 200];
    let opaque = Json::from_opaque(0xfd, &bytes);
    let array = Json::from_array(vec![Json::from_u64(3), opaque.clone()]);
    let elem = array.as_ref().array_get_elem(1).unwrap();
    assert_eq!(elem.get_type(), JsonType::Opaque);
    assert_eq!(elem.value(), &opaque.value[..]);
    assert_eq!(elem.value().len(), 1 + 2 + 200);
    assert_eq!(elem.binary_len(), 204);
}

#[test]
fn indices_count_from_both_ends() {
    let array = Json::from_array(vec![Json::from_u64(1); 3]);
    let j = array.as_ref();
    assert_eq!(j.get_elem_count(), 3);
    assert_eq!(j.array_get_index(ArrayIndex::Left(7)), Some(7));
    assert_eq!(j.array_get_index(ArrayIndex::Right(0)), Some(2));
    assert_eq!(j.array_get_index(ArrayIndex::Right(2)), Some(0));
    assert_eq!(j.array_get_index(ArrayIndex::Right(3)), None);
}

#[test]
fn every_key_is_found() {
    let entries: BTreeMap<String, Json> =
        (0..50).map(|i| (format!("k{}", i * 7), Json::from_u64(i))).collect();
    let keys: Vec<String> = entries.keys().cloned().collect();
    let object = Json::from_object(entries);
    let j = object.as_ref();
    for (i, key) in keys.iter().enumerate() {
        assert_eq!(j.object_search_key(key.as_bytes()).unwrap(), Some(i));
        assert_eq!(j.object_get_key(i).unwrap(), key.as_bytes());
    }
    for key in ["", "k", "k1", "k99", "z"] {
        assert_eq!(j.object_search_key(key.as_bytes()).unwrap(), None);
    }
    let empty = Json::from_object(BTreeMap::new());
    assert_eq!(empty.as_ref().object_search_key(b"k").unwrap(), None);
}

#[test]
fn the_first_of_equal_keys_is_found() {
    let keys: Vec<&[u8]> = vec![b"a", b"b", b"b", b"b", b"c", b"c"];
    let values: Vec<Json> = (0..6).map(Json::from_u64).collect();
    let object = Json { code: 0x01, value: container(&keys, &values) };
    let j = object.as_ref();
    assert_eq!(j.object_search_key(b"a").unwrap(), Some(0));
    assert_eq!(j.object_search_key(b"b").unwrap(), Some(1));
    assert_eq!(j.object_search_key(b"c").unwrap(), Some(4));
    assert_eq!(j.object_search_key(b"bb").unwrap(), None);
}

#[test]
fn only_literals_are_literals() {
    let json = Json::from_u64(7);
    match json.as_ref().as_literal("7") {
        Err(Error::InvalidDataType(msg)) => assert!(msg.ends_with("from 7 to literal"), "{}", msg),
        other => panic!("{:?}", other),
    }
    assert_eq!(Json::from_literal(0).as_ref().as_literal("null").unwrap(), 0);
}
