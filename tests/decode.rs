use multipart_extract::value::canonical_name;
use multipart_extract::{
    coerce, decode, ChunkOutcome, Decoder, MultipartError, Part, PartAction, Schema, SchemaError,
    Slot, Value, ValueTree,
};

fn strings(v: &[&str]) -> Vec<String> {
    v.iter().map(|s| s.to_string()).collect()
}

fn profile_schema() -> Schema {
    let names = strings(&["name", "avatar", "tags"]);
    let declared = vec![("avatar".to_string(), "1MB".to_string())];
    match Schema::build(&names, &declared) {
        Ok(s) => s,
        Err(_) => panic!("schema should build"),
    }
}

fn get<'a>(tree: &'a ValueTree, key: &str) -> Option<&'a Slot> {
    tree.entries.iter().find(|(k, _)| k == key).map(|(_, s)| s)
}

fn scalar(d: &mut Decoder, name: &str, text: &str) {
    let action = d.begin_part(Some(name.to_string()), None, "text/plain".to_string());
    assert!(matches!(action, PartAction::ReadScalar));
    d.scalar_chunk(Some(Ok(text.as_bytes().to_vec())));
}

fn file(d: &mut Decoder, name: &str, filename: &str, chunks: &[Vec<u8>]) -> Result<(), MultipartError> {
    let action = d.begin_part(
        Some(name.to_string()),
        Some(filename.to_string()),
        "image/png".to_string(),
    );
    assert!(matches!(action, PartAction::ReadFile));
    for c in chunks {
        match d.file_chunk(Ok(c.clone())) {
            ChunkOutcome::Continue => {}
            ChunkOutcome::PartDone => return Ok(()),
            ChunkOutcome::Abort(e) => return Err(e),
        }
    }
    d.end_file();
    Ok(())
}

fn text_of(s: Option<&Slot>) -> String {
    match s {
        Some(Slot::Single(Value::Text(t))) => t.clone(),
        _ => panic!("expected a single text value"),
    }
}

#[test]
fn lookup_gives_declared_limits() {
    let s = profile_schema();
    assert_eq!(s.lookup(&"avatar".to_string()), Some(1048576));
    assert_eq!(s.lookup(&"name".to_string()), None);
    assert_eq!(s.lookup(&"notInSchema".to_string()), None);
    assert!(s.contains(&"tags".to_string()));
    assert!(!s.contains(&"notInSchema".to_string()));
}

#[test]
fn lookup_uses_names_not_declaration_order() {
    let names = strings(&["a", "b", "c"]);
    let declared = vec![
        ("c".to_string(), "10 KB".to_string()),
        ("a".to_string(), "20000".to_string()),
    ];
    let s = Schema::build(&names, &declared).ok().unwrap();
    assert_eq!(s.lookup(&"a".to_string()), Some(20000));
    assert_eq!(s.lookup(&"b".to_string()), None);
    assert_eq!(s.lookup(&"c".to_string()), Some(10240));
}

#[test]
fn schema_construction_is_idempotent() {
    let names = strings(&["name", "avatar", "tags"]);
    let declared = vec![("avatar".to_string(), "1MB".to_string()), ("tags".to_string(), "2 KiB".to_string())];
    let a = Schema::build(&names, &declared).ok().unwrap();
    let b = Schema::build(&names, &declared).ok().unwrap();
    assert_eq!(a.entries, b.entries);
    assert_eq!(a.entries.len(), 3);
}

#[test]
fn invalid_size_literal_is_rejected() {
    let names = strings(&["avatar"]);
    let declared = vec![("avatar".to_string(), "huge".to_string())];
    match Schema::build(&names, &declared) {
        Err(SchemaError::InvalidSizeLiteral(f)) => assert_eq!(f, "avatar"),
        Ok(_) => panic!("literal should be rejected"),
    }
}

#[test]
fn zero_size_literal_is_rejected() {
    let names = strings(&["avatar", "doc"]);
    for literal in ["0MB", "0", "0.1"] {
        let declared = vec![("doc".to_string(), literal.to_string())];
        match Schema::build(&names, &declared) {
            Err(SchemaError::InvalidSizeLiteral(f)) => assert_eq!(f, "doc"),
            Ok(_) => panic!("a zero size should be rejected"),
        }
    }
}

#[test]
fn overlong_size_literal_is_rejected() {
    let names = strings(&["doc"]);
    for literal in ["184467440737095516155", "1844674407370955161.55", "000000000000000000001"] {
        let declared = vec![("doc".to_string(), literal.to_string())];
        match Schema::build(&names, &declared) {
            Err(SchemaError::InvalidSizeLiteral(f)) => assert_eq!(f, "doc"),
            Ok(_) => panic!("an overlong literal should be rejected"),
        }
    }
}

#[test]
fn twenty_digit_literal_is_parsed() {
    let names = strings(&["doc"]);
    let declared = vec![("doc".to_string(), "00000000000000001024".to_string())];
    let s = Schema::build(&names, &declared).ok().unwrap();
    assert_eq!(s.lookup(&"doc".to_string()), Some(1024));
}

#[test]
fn from_parsed_rejects_missing_count() {
    let names = strings(&["avatar"]);
    let parsed = vec![("avatar".to_string(), None)];
    assert!(Schema::from_parsed(&names, &parsed).is_err());
    let parsed = vec![("avatar".to_string(), Some(0u64))];
    assert!(Schema::from_parsed(&names, &parsed).is_err());
    let parsed = vec![("avatar".to_string(), Some(5u64))];
    let s = Schema::from_parsed(&names, &parsed).ok().unwrap();
    assert_eq!(s.lookup(&"avatar".to_string()), Some(5));
}

#[test]
fn coerce_scalars() {
    assert!(matches!(coerce("42"), Value::Integer(42)));
    assert!(matches!(coerce("-7"), Value::Integer(-7)));
    assert!(matches!(coerce("true"), Value::Boolean(true)));
    assert!(matches!(coerce("false"), Value::Boolean(false)));
    assert!(matches!(coerce(""), Value::Text(ref t) if t.is_empty()));
    assert!(matches!(coerce("abc"), Value::Text(ref t) if t == "abc"));
    assert!(matches!(coerce("+5"), Value::Text(ref t) if t == "+5"));
    assert!(matches!(coerce("-"), Value::Text(ref t) if t == "-"));
    assert!(matches!(coerce("True"), Value::Text(ref t) if t == "True"));
}

#[test]
fn coerce_integer_bounds() {
    assert!(matches!(coerce("9223372036854775807"), Value::Integer(i64::MAX)));
    assert!(matches!(coerce("-9223372036854775808"), Value::Integer(i64::MIN)));
    assert!(matches!(coerce("9223372036854775808"), Value::Text(_)));
    assert!(matches!(coerce("-9223372036854775809"), Value::Text(_)));
    assert!(matches!(coerce("123456789012345678901234567890"), Value::Text(_)));
}

#[test]
fn canonical_names() {
    assert_eq!(canonical_name(&"tags[]".to_string()), "tags");
    assert_eq!(canonical_name(&"tags".to_string()), "tags");
    assert_eq!(canonical_name(&"a[][]".to_string()), "a[]");
}

#[test]
fn scalar_part_values() {
    let names = strings(&["n", "b", "s", "e", "missing", "bad", "failed"]);
    let schema = Schema::build(&names, &Vec::new()).ok().unwrap();
    let mut d = Decoder::new(schema);
    scalar(&mut d, "n", "42");
    scalar(&mut d, "b", "true");
    scalar(&mut d, "s", "abc");
    scalar(&mut d, "e", "");
    d.begin_part(Some("missing".to_string()), None, String::new());
    d.scalar_chunk(None);
    d.begin_part(Some("bad".to_string()), None, String::new());
    d.scalar_chunk(Some(Ok(vec![0xff, 0xfe])));
    d.begin_part(Some("failed".to_string()), None, String::new());
    d.scalar_chunk(Some(Err(())));
    let t = d.finish();
    assert!(matches!(get(&t, "n"), Some(Slot::Single(Value::Integer(42)))));
    assert!(matches!(get(&t, "b"), Some(Slot::Single(Value::Boolean(true)))));
    assert_eq!(text_of(get(&t, "s")), "abc");
    assert_eq!(text_of(get(&t, "e")), "");
    assert!(matches!(get(&t, "missing"), Some(Slot::Single(Value::Null))));
    assert!(matches!(get(&t, "bad"), Some(Slot::Single(Value::Null))));
    assert!(matches!(get(&t, "failed"), Some(Slot::Single(Value::Null))));
    assert_eq!(t.entries.len(), 7);
}

#[test]
fn array_fields_merge_in_order() {
    let mut d = Decoder::new(profile_schema());
    scalar(&mut d, "tags[]", "a");
    scalar(&mut d, "tags[]", "b");
    scalar(&mut d, "tags[]", "c");
    let t = d.finish();
    assert_eq!(t.entries.len(), 1);
    match get(&t, "tags") {
        Some(Slot::List(vs)) => {
            let got: Vec<String> = vs
                .iter()
                .map(|v| match v {
                    Value::Text(s) => s.clone(),
                    _ => panic!("expected text"),
                })
                .collect();
            assert_eq!(got, strings(&["a", "b", "c"]));
        }
        _ => panic!("expected a list"),
    }
}

#[test]
fn single_array_element_is_still_a_list() {
    let mut d = Decoder::new(profile_schema());
    scalar(&mut d, "tags[]", "a");
    let t = d.finish();
    match get(&t, "tags") {
        Some(Slot::List(vs)) => assert_eq!(vs.len(), 1),
        _ => panic!("expected a list"),
    }
}

#[test]
fn repeated_plain_field_keeps_last() {
    let mut d = Decoder::new(profile_schema());
    scalar(&mut d, "name", "first");
    scalar(&mut d, "tags[]", "x");
    scalar(&mut d, "name", "second");
    let t = d.finish();
    assert_eq!(t.entries.len(), 2);
    assert_eq!(t.entries[0].0, "name");
    assert_eq!(text_of(get(&t, "name")), "second");
}

#[test]
fn unknown_field_is_dropped() {
    let mut d = Decoder::new(profile_schema());
    let a = d.begin_part(Some("notInSchema".to_string()), None, "text/plain".to_string());
    assert!(matches!(a, PartAction::Skip));
    let a = d.begin_part(
        Some("notInSchema".to_string()),
        Some("x.bin".to_string()),
        "application/octet-stream".to_string(),
    );
    assert!(matches!(a, PartAction::Skip));
    let a = d.begin_part(None, None, "text/plain".to_string());
    assert!(matches!(a, PartAction::Skip));
    scalar(&mut d, "name", "Ada");
    let t = d.finish();
    assert!(get(&t, "notInSchema").is_none());
    assert_eq!(t.entries.len(), 1);
}

#[test]
fn file_within_limit_concatenates_chunks() {
    let names = strings(&["doc"]);
    let declared = vec![("doc".to_string(), "6".to_string())];
    let mut d = Decoder::new(Schema::build(&names, &declared).ok().unwrap());
    let r = file(&mut d, "doc", "a.txt", &[vec![1, 2], vec![3], vec![4, 5, 6]]);
    assert!(r.is_ok());
    let t = d.finish();
    match get(&t, "doc") {
        Some(Slot::Single(Value::File(f))) => {
            assert_eq!(f.bytes, vec![1, 2, 3, 4, 5, 6]);
            assert_eq!(f.name, "a.txt");
            assert_eq!(f.content_type, "image/png");
        }
        _ => panic!("expected a file"),
    }
}

#[test]
fn file_over_limit_fails_at_first_excess_chunk() {
    let names = strings(&["doc"]);
    let declared = vec![("doc".to_string(), "5".to_string())];
    let mut d = Decoder::new(Schema::build(&names, &declared).ok().unwrap());
    let r = file(&mut d, "doc", "a.txt", &[vec![1, 2], vec![3, 4], vec![5, 6], vec![7]]);
    match r {
        Err(MultipartError::FileSizeError { field, limit }) => {
            assert_eq!(field, "doc");
            assert_eq!(limit, 5);
        }
        _ => panic!("expected a size error"),
    }
}

#[test]
fn unbounded_file_takes_everything() {
    let names = strings(&["doc"]);
    let mut d = Decoder::new(Schema::build(&names, &Vec::new()).ok().unwrap());
    let big = vec![7u8; 100_000];
    assert!(file(&mut d, "doc", "a", &[big.clone(), big.clone()]).is_ok());
    let t = d.finish();
    match get(&t, "doc") {
        Some(Slot::Single(Value::File(f))) => assert_eq!(f.bytes.len(), 200_000),
        _ => panic!("expected a file"),
    }
}

#[test]
fn failed_chunk_records_null() {
    let mut d = Decoder::new(profile_schema());
    d.begin_part(Some("avatar".to_string()), Some("a.png".to_string()), "image/png".to_string());
    assert!(matches!(d.file_chunk(Ok(vec![1, 2, 3])), ChunkOutcome::Continue));
    assert!(matches!(d.file_chunk(Err(())), ChunkOutcome::PartDone));
    scalar(&mut d, "name", "Ada");
    let t = d.finish();
    assert!(matches!(get(&t, "avatar"), Some(Slot::Single(Value::Null))));
    assert_eq!(text_of(get(&t, "name")), "Ada");
}

#[test]
fn file_array_field() {
    let mut d = Decoder::new(profile_schema());
    assert!(file(&mut d, "tags[]", "one", &[vec![1]]).is_ok());
    assert!(file(&mut d, "tags[]", "two", &[vec![2]]).is_ok());
    let t = d.finish();
    match get(&t, "tags") {
        Some(Slot::List(vs)) => {
            assert_eq!(vs.len(), 2);
            assert!(matches!(&vs[1], Value::File(f) if f.name == "two"));
        }
        _ => panic!("expected a list"),
    }
}

#[test]
fn end_to_end_avatar_too_large() {
    let mut d = Decoder::new(profile_schema());
    scalar(&mut d, "name", "Ada");
    let chunk = vec![0u8; 64 * 1024];
    let chunks: Vec<Vec<u8>> = (0..32).map(|_| chunk.clone()).collect();
    match file(&mut d, "avatar", "ada.png", &chunks) {
        Err(MultipartError::FileSizeError { field, limit }) => {
            assert_eq!(field, "avatar");
            assert_eq!(limit, 1048576);
        }
        _ => panic!("expected a size error"),
    }
}

#[test]
fn end_to_end_avatar_accepted() {
    let mut d = Decoder::new(profile_schema());
    scalar(&mut d, "name", "Ada");
    let chunks: Vec<Vec<u8>> = (0..10).map(|_| vec![9u8; 51200]).collect();
    assert!(file(&mut d, "avatar", "ada.png", &chunks).is_ok());
    let t = d.finish();
    assert_eq!(t.entries.len(), 2);
    assert_eq!(text_of(get(&t, "name")), "Ada");
    match get(&t, "avatar") {
        Some(Slot::Single(Value::File(f))) => {
            assert_eq!(f.bytes.len(), 512000);
            assert_eq!(f.name, "ada.png");
            assert_eq!(f.content_type, "image/png");
        }
        _ => panic!("expected a file"),
    }
    assert!(get(&t, "tags").is_none());
}

fn text_part(name: &str, text: &str) -> Part {
    Part {
        name: Some(name.to_string()),
        filename: None,
        content_type: "text/plain".to_string(),
        chunks: vec![Ok(text.as_bytes().to_vec())],
    }
}

fn file_part(name: &str, filename: &str, chunks: Vec<Result<Vec<u8>, ()>>) -> Part {
    Part {
        name: Some(name.to_string()),
        filename: Some(filename.to_string()),
        content_type: "image/png".to_string(),
        chunks,
    }
}

#[test]
fn decode_stream_avatar_too_large() {
    let chunks: Vec<Result<Vec<u8>, ()>> = (0..32).map(|_| Ok(vec![0u8; 65536])).collect();
    let parts = vec![
        text_part("name", "Ada"),
        file_part("avatar", "ada.png", chunks),
        text_part("tags[]", "after"),
    ];
    match decode(profile_schema(), parts) {
        Err(MultipartError::FileSizeError { field, limit }) => {
            assert_eq!(field, "avatar");
            assert_eq!(limit, 1048576);
        }
        _ => panic!("expected a size error"),
    }
}

#[test]
fn decode_stream_avatar_accepted() {
    let chunks: Vec<Result<Vec<u8>, ()>> = (0..4).map(|_| Ok(vec![3u8; 128000])).collect();
    let parts = vec![text_part("name", "Ada"), file_part("avatar", "ada.png", chunks)];
    let t = match decode(profile_schema(), parts) {
        Ok(t) => t,
        Err(_) => panic!("decode should succeed"),
    };
    assert_eq!(t.entries.len(), 2);
    assert_eq!(text_of(get(&t, "name")), "Ada");
    match get(&t, "avatar") {
        Some(Slot::Single(Value::File(f))) => assert_eq!(f.bytes.len(), 512000),
        _ => panic!("expected a file"),
    }
    assert!(get(&t, "tags").is_none());
}

#[test]
fn decode_exactly_at_limit() {
    let names = strings(&["doc"]);
    let declared = vec![("doc".to_string(), "4".to_string())];
    let schema = Schema::build(&names, &declared).ok().unwrap();
    let parts = vec![file_part("doc", "d", vec![Ok(vec![1, 2]), Ok(vec![3, 4])])];
    let t = decode(schema, parts).ok().unwrap();
    match get(&t, "doc") {
        Some(Slot::Single(Value::File(f))) => assert_eq!(f.bytes, vec![1, 2, 3, 4]),
        _ => panic!("expected a file"),
    }
}

#[test]
fn decode_chunk_error_then_more_parts() {
    let parts = vec![
        file_part("avatar", "a.png", vec![Ok(vec![1]), Err(()), Ok(vec![2])]),
        text_part("tags[]", "a"),
        text_part("notInSchema", "zzz"),
        text_part("tags[]", "b"),
        Part {
            name: Some("name".to_string()),
            filename: None,
            content_type: "text/plain".to_string(),
            chunks: Vec::new(),
        },
    ];
    let t = decode(profile_schema(), parts).ok().unwrap();
    assert!(matches!(get(&t, "avatar"), Some(Slot::Single(Value::Null))));
    assert!(matches!(get(&t, "name"), Some(Slot::Single(Value::Null))));
    assert!(get(&t, "notInSchema").is_none());
    match get(&t, "tags") {
        Some(Slot::List(vs)) => assert_eq!(vs.len(), 2),
        _ => panic!("expected a list"),
    }
    assert_eq!(t.entries.len(), 3);
}

#[test]
fn decode_empty_stream() {
    let t = decode(profile_schema(), Vec::new()).ok().unwrap();
    assert!(t.entries.is_empty());
}
