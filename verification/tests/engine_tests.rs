use redisjson::backward_path;
use redisjson::codec::to_text;
use redisjson::ops::{ErrKind, JType, OpOut, ValueOp};
use redisjson::redisjson::{Error, Format, RedisJSON};
use redisjson::value::Value;

fn doc(text: &str) -> RedisJSON {
    RedisJSON::from_str(text, Format::JSON).unwrap()
}

fn get(d: &RedisJSON, path: &str) -> String {
    d.to_string(path, Format::JSON).unwrap()
}

#[test]
fn normalize_legacy_paths() {
    assert_eq!(backward_path(".".to_string()), "$");
    assert_eq!(backward_path(".foo".to_string()), "$.foo");
    assert_eq!(backward_path("foo".to_string()), "$.foo");
    assert_eq!(backward_path("$.foo".to_string()), "$.foo");
    assert_eq!(backward_path("".to_string()), "$.");
}

#[test]
fn parse_and_serialize_round_trip() {
    let cases = [
        "null",
        "true",
        "false",
        "0",
        "-7",
        "9223372036854775807",
        "-9223372036854775808",
        "9223372036854775808",
        "1.5",
        "1.0",
        "1e3",
        "-2.5e-2",
        "\"hello\"",
        "\"\"",
        "[]",
        "{}",
        "[1,2,3]",
        "{\"a\":1,\"b\":[true,null],\"c\":{\"d\":\"x\"}}",
    ];
    for t in cases {
        let d = doc(t);
        assert_eq!(get(&d, "$"), *t, "round trip of {t}");
    }
}

#[test]
fn parse_accepts_whitespace_and_escapes() {
    let d = doc("  { \"a\" : [ 1 , 2 ] }  ");
    assert_eq!(get(&d, "$"), "{\"a\":[1,2]}");
    let e = doc("\"a\\nb\\t\\\"q\\\\s\\u0041\"");
    assert_eq!(get(&e, "$"), "\"a\\u000ab\\u0009\\\"q\\\\sA\"");
    let smile = doc("\"\\ud83d\\ude00\"");
    assert_eq!(get(&smile, "$"), "\"\u{1f600}\"");
}

#[test]
fn parse_rejects_malformed_payloads() {
    for t in ["", "{", "[1,", "01", "1.", "tru", "\"a", "nullx", "{\"a\":}", "[1 2]"] {
        assert!(
            matches!(RedisJSON::from_str(t, Format::JSON), Err(Error::Kind(ErrKind::Parse))),
            "expected a parse failure for {t}"
        );
    }
}

#[test]
fn number_literals_are_kept_verbatim() {
    let d = doc("{\"big\":123456789012345678901234567890,\"f\":0.125}");
    assert_eq!(get(&d, "$.big"), "123456789012345678901234567890");
    assert_eq!(get(&d, "$.f"), "0.125");
}

#[test]
fn format_names() {
    assert_eq!(Format::from_str("JSON").unwrap(), Format::JSON);
    assert_eq!(Format::from_str("BSON").unwrap(), Format::BSON);
    assert!(Format::from_str("XML").is_err());
    assert!(Format::from_str("json").is_err());
}

#[test]
fn bson_payload_takes_first_field() {
    // the document {"a": 1} in the binary format, written out by hand
    let bytes: Vec<u8> = vec![
        0x0c, 0x00, 0x00, 0x00, // total length
        0x10, b'a', 0x00, // int32 field "a"
        0x01, 0x00, 0x00, 0x00, // value 1
        0x00, // terminator
    ];
    let payload = String::from_utf8(bytes).unwrap();
    let d = RedisJSON::from_str(&payload, Format::BSON).unwrap();
    assert_eq!(get(&d, "$"), "1");
}

#[test]
fn bson_rejects_garbage() {
    assert!(RedisJSON::from_str("notbson", Format::BSON).is_err());
}

#[test]
fn serializing_to_bson_is_unsupported() {
    let d = doc("1");
    assert!(matches!(
        d.to_string("$", Format::BSON),
        Err(Error::Kind(ErrKind::UnsupportedFormat))
    ));
}

#[test]
fn end_to_end_document_flow() {
    let mut d = doc("{\"a\":1,\"b\":[1,2,3]}");

    match d.value_op("$.a", &ValueOp::NumIncrBy(2)).unwrap() {
        OpOut::NewVal(v) => assert_eq!(to_text(&v), "3"),
        _ => panic!("expected the new number"),
    }
    assert_eq!(get(&d, "$.a"), "3");

    match d
        .value_op("$.b", &ValueOp::ArrAppend(vec![Value::Int(4)]))
        .unwrap()
    {
        OpOut::Len(n) => assert_eq!(n, 4),
        _ => panic!("expected the new length"),
    }
    assert_eq!(get(&d, "$.b"), "[1,2,3,4]");

    match d.value_op("$.b", &ValueOp::ArrPop(-1)).unwrap() {
        OpOut::Popped(v) => assert_eq!(to_text(&v), "4"),
        _ => panic!("expected the removed element"),
    }
    assert_eq!(get(&d, "$.b"), "[1,2,3]");

    let keys = d.obj_keys("$").unwrap();
    assert_eq!(keys, vec!["a".to_string(), "b".to_string()]);

    // deletion removes the entry, so the path no longer resolves
    assert_eq!(d.delete_path("$.a").unwrap(), 1);
    assert!(matches!(
        d.to_string("$.a", Format::JSON),
        Err(Error::Kind(ErrKind::NoSuchPath))
    ));
    assert_eq!(get(&d, "$"), "{\"b\":[1,2,3]}");
}

#[test]
fn delete_counts_and_is_idempotent() {
    let mut d = doc("{\"a\":{\"x\":1},\"b\":{\"x\":2},\"c\":null}");
    assert_eq!(d.delete_path("$..x").unwrap(), 2);
    assert_eq!(get(&d, "$"), "{\"a\":{},\"b\":{},\"c\":null}");
    assert_eq!(d.delete_path("$..x").unwrap(), 0);
    assert_eq!(get(&d, "$"), "{\"a\":{},\"b\":{},\"c\":null}");
    // a removed null entry is gone but not counted
    assert_eq!(d.delete_path("$.c").unwrap(), 0);
    assert!(matches!(
        d.to_string("$.c", Format::JSON),
        Err(Error::Kind(ErrKind::NoSuchPath))
    ));
}

#[test]
fn delete_array_elements_shifts_the_rest() {
    let mut d = doc("[1,2,3]");
    assert_eq!(d.delete_path("$[1]").unwrap(), 1);
    assert_eq!(get(&d, "$"), "[1,3]");
    // an index path is not idempotent: later elements move into the slot
    assert_eq!(d.delete_path("$[0]").unwrap(), 1);
    assert_eq!(get(&d, "$"), "[3]");
    let mut w = doc("{\"a\":[1,2]}");
    assert_eq!(w.delete_path("$.a[*]").unwrap(), 2);
    assert_eq!(get(&w, "$"), "{\"a\":[]}");
}

#[test]
fn delete_at_the_root_clears_the_tree() {
    // the root has no parent to remove it from; the key's owner drops the key
    let mut d = doc("{\"a\":1}");
    assert_eq!(d.delete_path("$").unwrap(), 1);
    assert_eq!(get(&d, "$"), "null");
    assert_eq!(d.delete_path("$").unwrap(), 0);
}

#[test]
fn set_value_at_root_and_below() {
    let mut d = doc("{\"a\":1}");
    d.set_value("{\"b\":2}", "$", Format::JSON).unwrap();
    assert_eq!(get(&d, "$"), "{\"b\":2}");
    d.set_value("5", "$.b", Format::JSON).unwrap();
    assert_eq!(get(&d, "$"), "{\"b\":5}");
    assert!(matches!(
        d.set_value("5", "$.missing", Format::JSON),
        Err(Error::Kind(ErrKind::NoSuchPath))
    ));
    assert!(matches!(
        d.set_value("{", "$", Format::JSON),
        Err(Error::Kind(ErrKind::Parse))
    ));
    assert!(matches!(
        d.set_value("5", "$[", Format::JSON),
        Err(Error::Kind(ErrKind::PathSyntax))
    ));
}

#[test]
fn typed_reads() {
    let d = doc("{\"s\":\"abc\",\"a\":[1,2],\"o\":{\"k\":1},\"n\":7}");
    assert_eq!(d.str_len("$.s").unwrap(), 3);
    assert_eq!(d.arr_len("$.a").unwrap(), 2);
    assert_eq!(d.obj_len("$.o").unwrap(), 1);
    assert_eq!(d.get_type("$.n").unwrap(), "number");
    assert_eq!(d.get_type("$").unwrap(), "object");
    assert!(matches!(
        d.str_len("$.n"),
        Err(Error::Kind(ErrKind::WrongType(JType::Str, JType::Num)))
    ));
    assert!(matches!(
        d.arr_len("$.missing"),
        Err(Error::Kind(ErrKind::NoSuchPath))
    ));
    assert!(matches!(
        d.obj_len("$.["),
        Err(Error::Kind(ErrKind::PathSyntax))
    ));
}

#[test]
fn str_len_counts_bytes() {
    let d = doc("{\"s\":\"\u{e9}\u{1f600}\"}");
    assert_eq!(d.str_len("$.s").unwrap(), 6);
}

#[test]
fn wildcard_and_descent_selection() {
    let d = doc("{\"a\":{\"x\":1},\"b\":[{\"x\":2},{\"y\":3}]}");
    assert_eq!(get(&d, "$.a.x"), "1");
    assert_eq!(get(&d, "$.b[0].x"), "2");
    assert_eq!(get(&d, "$.b[*]"), "{\"x\":2}");
    assert_eq!(get(&d, "$..x"), "1");
    assert_eq!(get(&d, "$['a']['x']"), "1");
    assert_eq!(get(&d, "$[\"a\"]"), "{\"x\":1}");
}

#[test]
fn descent_matches_shallowest_occurrences_only() {
    // a key nested inside a matched node is not reported again
    let mut d = doc("{\"x\":{\"x\":1},\"a\":{\"x\":2}}");
    assert_eq!(get(&d, "$..x"), "{\"x\":1}");
    assert_eq!(d.delete_path("$..x").unwrap(), 2);
    assert_eq!(get(&d, "$"), "{\"a\":{}}");
}

#[test]
fn arr_index_finds_scalars_only() {
    let d = doc("{\"b\":[1,\"two\",null,true,2,1]}");
    assert_eq!(d.arr_index("$.b", "1", 0, usize::MAX).unwrap(), 0);
    assert_eq!(d.arr_index("$.b", "1", 1, usize::MAX).unwrap(), 5);
    assert_eq!(d.arr_index("$.b", "\"two\"", 0, usize::MAX).unwrap(), 1);
    assert_eq!(d.arr_index("$.b", "null", 0, usize::MAX).unwrap(), 2);
    assert_eq!(d.arr_index("$.b", "true", 0, usize::MAX).unwrap(), 3);
    assert_eq!(d.arr_index("$.b", "7", 0, usize::MAX).unwrap(), -1);
    assert_eq!(d.arr_index("$.b", "1", 1, 4).unwrap(), -1);
    // an array or object literal can never match
    assert_eq!(d.arr_index("$.b", "[1]", 0, usize::MAX).unwrap(), -1);
    assert_eq!(d.arr_index("$.b", "{\"a\":1}", 0, usize::MAX).unwrap(), -1);
    // a non-array node is a type mismatch
    assert!(matches!(
        d.arr_index("$", "1", 0, usize::MAX),
        Err(Error::Kind(ErrKind::WrongType(JType::Arr, JType::Obj)))
    ));
}

#[test]
fn arr_insert_normalizes_negative_indexes() {
    let mut d = doc("[1,2,3]");
    match d
        .value_op("$", &ValueOp::ArrInsert(-1, vec![Value::Int(99)]))
        .unwrap()
    {
        OpOut::NewVal(v) => assert_eq!(to_text(&v), "[1,2,99,3]"),
        _ => panic!("expected the new array"),
    }
    assert_eq!(get(&d, "$"), "[1,2,99,3]");

    let mut e = doc("[1,2,3]");
    assert!(matches!(
        e.value_op("$", &ValueOp::ArrInsert(3, vec![Value::Int(9)])),
        Err(Error::Kind(ErrKind::IndexOutOfBounds))
    ));
    assert!(matches!(
        e.value_op("$", &ValueOp::ArrInsert(-3, vec![Value::Int(9)])),
        Err(Error::Kind(ErrKind::IndexOutOfBounds))
    ));
}

#[test]
fn arr_pop_and_trim() {
    let mut d = doc("[0,1,2,3,4]");
    match d.value_op("$", &ValueOp::ArrPop(1)).unwrap() {
        OpOut::Popped(v) => assert_eq!(to_text(&v), "1"),
        _ => panic!("expected the removed element"),
    }
    assert_eq!(get(&d, "$"), "[0,2,3,4]");
    // an out-of-range positive index clamps to the last element
    match d.value_op("$", &ValueOp::ArrPop(99)).unwrap() {
        OpOut::Popped(v) => assert_eq!(to_text(&v), "4"),
        _ => panic!("expected the removed element"),
    }
    let mut empty = doc("[]");
    assert!(matches!(
        empty.value_op("$", &ValueOp::ArrPop(-1)),
        Err(Error::Kind(ErrKind::IndexOutOfBounds))
    ));

    let mut t = doc("[0,1,2,3,4]");
    match t.value_op("$", &ValueOp::ArrTrim(1, 3)).unwrap() {
        OpOut::NewVal(v) => assert_eq!(to_text(&v), "[1,2]"),
        _ => panic!("expected the kept slice"),
    }
    // crossed bounds leave nothing: the kept range is half-open
    let mut u = doc("[0,1,2]");
    match u.value_op("$", &ValueOp::ArrTrim(2, 1)).unwrap() {
        OpOut::NewVal(v) => assert_eq!(to_text(&v), "[]"),
        _ => panic!("expected the kept slice"),
    }
}

#[test]
fn numeric_ops_are_exact() {
    let mut d = doc("{\"n\":6}");
    match d.value_op("$.n", &ValueOp::NumMultBy(7)).unwrap() {
        OpOut::NewVal(v) => assert_eq!(to_text(&v), "42"),
        _ => panic!("expected the new number"),
    }
    match d.value_op("$.n", &ValueOp::NumPowBy(2)).unwrap() {
        OpOut::NewVal(v) => assert_eq!(to_text(&v), "1764"),
        _ => panic!("expected the new number"),
    }
    let mut big = doc("{\"n\":9223372036854775807}");
    assert!(matches!(
        big.value_op("$.n", &ValueOp::NumIncrBy(1)),
        Err(Error::Kind(ErrKind::NotRepresentable))
    ));
    // the node keeps its value after a failed rewrite
    assert_eq!(get(&big, "$.n"), "9223372036854775807");
    let mut frac = doc("{\"n\":1.5}");
    assert!(matches!(
        frac.value_op("$.n", &ValueOp::NumIncrBy(1)),
        Err(Error::Kind(ErrKind::NotRepresentable))
    ));
    let mut s = doc("{\"n\":\"x\"}");
    assert!(matches!(
        s.value_op("$.n", &ValueOp::NumIncrBy(1)),
        Err(Error::Kind(ErrKind::WrongType(JType::Num, JType::Str)))
    ));
}

#[test]
fn str_append_reports_byte_length() {
    let mut d = doc("{\"s\":\"ab\"}");
    match d
        .value_op("$.s", &ValueOp::StrAppend("cde".to_string()))
        .unwrap()
    {
        OpOut::Len(n) => assert_eq!(n, 5),
        _ => panic!("expected the new length"),
    }
    assert_eq!(get(&d, "$.s"), "\"abcde\"");
}

#[test]
fn multi_match_collects_every_failure() {
    let mut d = doc("{\"a\":1,\"b\":\"x\",\"c\":2}");
    // incrementing every child: two numbers succeed, the string fails
    match d.value_op("$.*", &ValueOp::NumIncrBy(1)) {
        Err(Error::Kind(ErrKind::WrongType(JType::Num, JType::Str))) => {}
        other => panic!("expected the single failure, got {:?}", other.is_ok()),
    }
    // the successes are kept, the failing node is untouched
    assert_eq!(get(&d, "$"), "{\"a\":2,\"b\":\"x\",\"c\":3}");

    let mut e = doc("{\"a\":\"x\",\"b\":\"y\"}");
    match e.value_op("$.*", &ValueOp::NumIncrBy(1)) {
        Err(Error::Multi(ks)) => {
            assert_eq!(ks.len(), 2);
            assert!(matches!(ks[0], ErrKind::WrongType(JType::Num, JType::Str)));
        }
        other => panic!("expected both failures, got {:?}", other.is_ok()),
    }
}

#[test]
fn delete_transform_rewrites_to_null_in_place() {
    // the node transform nulls a match without removing the entry
    let mut d = doc("{\"a\":1}");
    match d.value_op("$.a", &ValueOp::Delete).unwrap() {
        OpOut::Deleted(held) => assert!(held),
        _ => panic!("expected the deletion report"),
    }
    assert_eq!(get(&d, "$.a"), "null");
}

#[test]
fn value_op_without_matches_reports_null() {
    let mut d = doc("{\"a\":1}");
    match d.value_op("$.zzz", &ValueOp::NumIncrBy(1)).unwrap() {
        OpOut::NewVal(v) => assert_eq!(to_text(&v), "null"),
        _ => panic!("expected the null placeholder"),
    }
}

#[test]
fn to_json_answers_many_paths() {
    let d = doc("{\"a\":1,\"b\":[2]}");
    let mut paths = vec!["$.a".to_string(), "$.b".to_string(), "$.zzz".to_string()];
    let joined = d.to_json(&mut paths).unwrap();
    assert_eq!(joined, "{\"$.a\":1,\"$.b\":[2],\"$.zzz\":null}");
}

#[test]
fn get_memory_by_type() {
    let d = doc("{\"n\":null,\"b\":true,\"i\":1,\"f\":1.5,\"s\":\"x\",\"a\":[],\"o\":{}}");
    assert_eq!(d.get_memory("$.n").unwrap(), 0);
    assert_eq!(d.get_memory("$.b").unwrap(), 1);
    assert_eq!(d.get_memory("$.i").unwrap(), 8);
    assert_eq!(d.get_memory("$.f").unwrap(), 8);
    assert_eq!(d.get_memory("$.s").unwrap(), 24);
    assert_eq!(d.get_memory("$.a").unwrap(), 24);
    assert_eq!(d.get_memory("$.o").unwrap(), 24);
}

#[test]
fn error_messages_concatenate() {
    let e = Error::Kind(ErrKind::NoSuchPath);
    assert_eq!(e.message(), "ERR path does not exist");
    let w = Error::Kind(ErrKind::WrongType(JType::Arr, JType::Str));
    assert_eq!(
        w.message(),
        "ERR wrong type of path value - expected array but found string"
    );
    let m = Error::Multi(vec![ErrKind::NotRepresentable, ErrKind::IndexOutOfBounds]);
    assert_eq!(
        m.message(),
        "ERR can not represent result as NumberERR index out of bounds"
    );
}

#[test]
fn value_name_covers_every_variant() {
    assert_eq!(RedisJSON::value_name(&Value::Null), "null");
    assert_eq!(RedisJSON::value_name(&Value::Bool(true)), "boolean");
    assert_eq!(RedisJSON::value_name(&Value::Int(1)), "number");
    assert_eq!(RedisJSON::value_name(&Value::Str("x".to_string())), "string");
    assert_eq!(RedisJSON::value_name(&Value::Arr(vec![])), "array");
    assert_eq!(RedisJSON::value_name(&Value::Obj(vec![])), "object");
}

#[test]
fn duplicate_keys_keep_the_last_value() {
    let d = doc("{\"a\":1,\"b\":2,\"a\":3}");
    assert_eq!(get(&d, "$"), "{\"a\":3,\"b\":2}");
}

#[test]
fn storage_round_trip() {
    let d = doc("{\"a\":[1,2.5,\"x\"],\"b\":null}");
    let stored = d.serialize_for_storage();
    let loaded = RedisJSON::deserialize_from_storage(&stored, 2).unwrap();
    assert_eq!(loaded.serialize_for_storage(), stored);
    assert!(matches!(
        RedisJSON::deserialize_from_storage(&stored, 1),
        Err(Error::Kind(ErrKind::UnsupportedFormat))
    ));
}

#[test]
fn cross_check_with_reference_parser() {
    // our serialization of a parsed tree must mean the same JSON to serde_json
    let t = "{\"a\":[1,2.5,\"x\\n\"],\"b\":{\"c\":null}}";
    let ours: String = get(&doc(t), "$");
    let theirs: serde_json::Value = serde_json::from_str(t).unwrap();
    let reparsed: serde_json::Value = serde_json::from_str(&ours).unwrap();
    assert_eq!(theirs, reparsed);
}
