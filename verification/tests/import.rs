use modality_json::assemble::prepare_json_object;
use modality_json::attr::{display_bytes, string_to_attr_val, AttrVal};
use modality_json::client::{normalize_event_key, normalize_timeline_key, Client, SinkCall};
use modality_json::config::{parse_attr_key_rename, AttrKeyRename, PluginConfig, TimestampUnit};
use modality_json::error::Error;
use modality_json::json::{get_val_at_path, json_leaf_to_attr_val, parse_json_value, JsonNum, JsonValue};
use modality_json::flatten::walk_obj;
use modality_json::numtext::{parse_i128_text, scale_decimal_text};
use modality_json::reader::{drain_batch, pair_captures, parse_regex_line, process_buffer};
use modality_json::registry::TimelineRegistry;
use modality_json::types::{Interruptor, RetryDurationUs};

fn b(s: &str) -> Vec<u8> {
    s.as_bytes().to_vec()
}

fn parse_obj_fields(text: &str) -> Vec<(Vec<u8>, JsonValue)> {
    let buf = b(text);
    let (v, end) = parse_json_value(&buf, 0).expect("parse");
    assert_eq!(end, buf.len());
    match v {
        JsonValue::Obj(fields) => fields,
        _ => panic!("expected an object"),
    }
}

fn base_cfg() -> PluginConfig {
    let mut cfg = PluginConfig::new();
    cfg.timeline_names.push(b("tl"));
    cfg.event_names.push(b("name"));
    cfg
}

#[test]
fn flattening_is_deterministic() {
    let fields = parse_obj_fields(r#"{"a":{"b":1},"c":[2,3],"s":"x"}"#);
    let once = walk_obj(&fields);
    let twice = walk_obj(&fields);
    assert_eq!(once, twice);
}

#[test]
fn flatten_paths_are_dotted_and_indexed() {
    let fields = parse_obj_fields(r#"{"a":{"b":1},"c":[2,3]}"#);
    let flat = walk_obj(&fields);
    assert_eq!(
        flat,
        vec![
            (b("a.b"), AttrVal::Integer(1)),
            (b("c.0"), AttrVal::Integer(2)),
            (b("c.1"), AttrVal::Integer(3)),
        ]
    );
}

#[test]
fn null_leaves_never_appear() {
    let fields = parse_obj_fields(r#"{"x":null,"y":1,"z":{"w":null},"v":[null,null]}"#);
    let flat = walk_obj(&fields);
    assert_eq!(flat, vec![(b("y"), AttrVal::Integer(1))]);
    assert_eq!(json_leaf_to_attr_val(&JsonValue::Null), None);
}

#[test]
fn timeline_identity_is_stable() {
    let mut reg = TimelineRegistry::new();
    let id1 = reg.resolve_or_create(&b("tl"), &AttrVal::Str(b("X")));
    let id2 = reg.resolve_or_create(&b("tl"), &AttrVal::Str(b("X")));
    let id3 = reg.resolve_or_create(&b("tl"), &AttrVal::Str(b("Y")));
    assert_eq!(id1, id2);
    assert_ne!(id1, id3);
    assert_eq!(reg.len(), 2);
}

fn metadata_calls(calls: &[SinkCall]) -> Vec<(u64, AttrVal)> {
    calls
        .iter()
        .filter_map(|c| match c {
            SinkCall::SetTimelineMetadata { token, value } => Some((*token, value.clone())),
            _ => None,
        })
        .collect()
}

#[test]
fn timeline_metadata_is_deduplicated() {
    let mut client = Client::new(Vec::new(), Vec::new());
    let tkvs = || vec![(b("tl"), AttrVal::Str(b("X")))];
    let ekvs = || vec![(b("name"), AttrVal::Str(b("e")))];
    let first = client.send_event_on_timeline(0, tkvs(), 0, ekvs());
    let second = client.send_event_on_timeline(0, tkvs(), 1, ekvs());
    assert_eq!(metadata_calls(&first).len(), 1);
    assert_eq!(metadata_calls(&second).len(), 0);
    // a changed value is sent again
    let third = client.send_event_on_timeline(
        0,
        vec![(b("tl"), AttrVal::Str(b("Z")))],
        2,
        ekvs(),
    );
    assert_eq!(metadata_calls(&third).len(), 1);
    // the same key on another timeline is its own cache entry
    let fourth = client.send_event_on_timeline(1, tkvs(), 3, ekvs());
    assert_eq!(metadata_calls(&fourth).len(), 1);
}

#[test]
fn coercion_boundaries() {
    // 2^63 does not fit a signed 64-bit integer
    let fields = parse_obj_fields(r#"{"big":9223372036854775808,"small":9223372036854775807}"#);
    let flat = walk_obj(&fields);
    assert_eq!(flat[0], (b("big"), AttrVal::BigInt(9223372036854775808i128)));
    assert_eq!(flat[1], (b("small"), AttrVal::Integer(9223372036854775807i64)));
    // captured text coercion
    assert_eq!(string_to_attr_val(&b("3.14")), AttrVal::Float(b("3.14")));
    assert_eq!(string_to_attr_val(&b("abc")), AttrVal::Str(b("abc")));
    assert_eq!(string_to_attr_val(&b("42")), AttrVal::Integer(42));
    assert_eq!(string_to_attr_val(&b("-7")), AttrVal::Integer(-7));
    // beyond the signed 64-bit range a capture becomes a big integer
    assert_eq!(
        string_to_attr_val(&b("9223372036854775808")),
        AttrVal::BigInt(9223372036854775808i128)
    );
    assert_eq!(
        string_to_attr_val(&b("-9223372036854775808")),
        AttrVal::Integer(i64::MIN)
    );
    assert_eq!(string_to_attr_val(&b("1.2.3")), AttrVal::Str(b("1.2.3")));
    // a value past the signed 128-bit range stays text
    assert_eq!(
        string_to_attr_val(&b("170141183460469231731687303715884105728")),
        AttrVal::Str(b("170141183460469231731687303715884105728"))
    );
}

#[test]
fn timestamp_conversion() {
    let ms = TimestampUnit::Milliseconds;
    let got = ms.attr_val_to_ns(&AttrVal::Integer(1500)).expect("numeric");
    assert_eq!(got, AttrVal::BigInt(1500000000));
    let s = TimestampUnit::Seconds;
    assert_eq!(s.attr_val_to_ns(&AttrVal::Integer(2)).unwrap(), AttrVal::BigInt(2000000000));
    let us = TimestampUnit::Microseconds;
    assert_eq!(us.attr_val_to_ns(&AttrVal::Integer(7)).unwrap(), AttrVal::BigInt(7000));
    let ns = TimestampUnit::Nanoseconds;
    assert_eq!(ns.attr_val_to_ns(&AttrVal::Integer(9)).unwrap(), AttrVal::BigInt(9));
    // a fractional timestamp truncates toward zero after scaling
    assert_eq!(
        s.attr_val_to_ns(&AttrVal::Float(b("1.5"))).unwrap(),
        AttrVal::BigInt(1500000000)
    );
    assert_eq!(
        ns.attr_val_to_ns(&AttrVal::Float(b("2.7"))).unwrap(),
        AttrVal::BigInt(2)
    );
    // non-numeric values are rejected
    assert_eq!(
        s.attr_val_to_ns(&AttrVal::Str(b("soon"))),
        Err(Error::NonNumericTimestamp)
    );
    assert_eq!(
        s.attr_val_to_ns(&AttrVal::Bool(true)),
        Err(Error::NonNumericTimestamp)
    );
}

#[test]
fn ordering_is_dense_over_ten_records() {
    let mut reg = TimelineRegistry::new();
    let mut client = Client::new(Vec::new(), Vec::new());
    let cfg = base_cfg();
    let mut text = String::new();
    for i in 0..10 {
        text.push_str(&format!("{{\"tl\":\"X\",\"name\":\"e{}\"}}\n", i));
    }
    let buf = b(&text);
    let calls = process_buffer(&buf, &cfg, None, &mut reg, &mut client).expect("ok");
    let ords: Vec<u128> = calls
        .iter()
        .filter_map(|c| match c {
            SinkCall::SendEvent { ordering, .. } => Some(*ordering),
            _ => None,
        })
        .collect();
    assert_eq!(ords, (0..10).collect::<Vec<u128>>());
}

#[test]
fn missing_event_name_fails_and_sends_nothing() {
    let mut reg = TimelineRegistry::new();
    let cfg = base_cfg();
    let fields = parse_obj_fields(r#"{"tl":"X","other":1}"#);
    let got = prepare_json_object(&JsonValue::Obj(fields), &Vec::new(), &cfg, &mut reg);
    assert!(matches!(got, Err(Error::MissingEventName)));

    let mut client = Client::new(Vec::new(), Vec::new());
    let buf = b(r#"{"tl":"X","other":1}"#);
    let got = process_buffer(&buf, &cfg, None, &mut reg, &mut client);
    assert!(matches!(got, Err(Error::MissingEventName)));
}

#[test]
fn missing_timeline_identity_fails() {
    let mut reg = TimelineRegistry::new();
    let cfg = base_cfg();
    let fields = parse_obj_fields(r#"{"name":"e"}"#);
    let got = prepare_json_object(&JsonValue::Obj(fields), &Vec::new(), &cfg, &mut reg);
    assert!(matches!(got, Err(Error::MissingTimelineIdentity)));
    assert_eq!(reg.len(), 0);
}

#[test]
fn capture_count_mismatch_is_an_error() {
    let re = regex::Regex::new(r"(\w+) (\w+)").unwrap();
    let buf = b("alpha beta\n");
    let attrs = vec![b("only_one")];
    let got = parse_regex_line(&buf, 0, Some(&re), &attrs);
    assert!(matches!(got, Err(Error::AttributeCaptureMismatch)));
    // and directly at the pairing step
    let caps = vec![Some(b("alpha")), Some(b("beta"))];
    assert!(matches!(
        pair_captures(&caps, &attrs),
        Err(Error::AttributeCaptureMismatch)
    ));
}

#[test]
fn unmatched_and_unconfigured_lines_fail() {
    let buf = b("not json at all\n");
    let got = parse_regex_line(&buf, 0, None, &Vec::new());
    assert!(matches!(got, Err(Error::UnmatchedNonJsonLine)));
    let re = regex::Regex::new(r"^\d+$").unwrap();
    let got = parse_regex_line(&buf, 0, Some(&re), &Vec::new());
    assert!(matches!(got, Err(Error::UnmatchedNonJsonLine)));
}

#[test]
fn non_json_attrs_attach_to_following_records() {
    let mut reg = TimelineRegistry::new();
    let mut client = Client::new(Vec::new(), Vec::new());
    let mut cfg = base_cfg();
    cfg.non_json_attrs.push(b("lineno"));
    let re = regex::Regex::new(r"line (\d+)").unwrap();
    let buf = b("line 7\n{\"tl\":\"X\",\"name\":\"e\"}\n{\"tl\":\"X\",\"name\":\"f\"}\n");
    let calls = process_buffer(&buf, &cfg, Some(&re), &mut reg, &mut client).expect("ok");
    // the captured attribute is declared as an event key on the first record
    let declared: Vec<Vec<u8>> = calls
        .iter()
        .filter_map(|c| match c {
            SinkCall::DeclareKey { key, .. } => Some(key.clone()),
            _ => None,
        })
        .collect();
    assert!(declared.contains(&b("event.lineno")));
    // the captured pair lands on the first record; once that batch is
    // drained the pending extras are cleared, so the second record
    // does not carry it
    let events: Vec<&Vec<(u64, AttrVal)>> = calls
        .iter()
        .filter_map(|c| match c {
            SinkCall::SendEvent { attrs, .. } => Some(attrs),
            _ => None,
        })
        .collect();
    assert_eq!(events.len(), 2);
    assert!(events[0].iter().any(|(_, v)| *v == AttrVal::Integer(7)));
    assert!(!events[1].iter().any(|(_, v)| *v == AttrVal::Integer(7)));
}

#[test]
fn arrays_yield_one_event_per_element() {
    let mut reg = TimelineRegistry::new();
    let mut client = Client::new(Vec::new(), Vec::new());
    let cfg = base_cfg();
    let buf = b(r#"[{"tl":"X","name":"a"},{"tl":"X","name":"b"}]"#);
    let calls = process_buffer(&buf, &cfg, None, &mut reg, &mut client).expect("ok");
    let n_events = calls
        .iter()
        .filter(|c| matches!(c, SinkCall::SendEvent { .. }))
        .count();
    assert_eq!(n_events, 2);
}

#[test]
fn rename_tables_rewrite_keys() {
    let mut client = Client::new(
        vec![AttrKeyRename { original: b("tl"), new: b("zone") }],
        vec![AttrKeyRename { original: b("level"), new: b("severity") }],
    );
    let calls = client.send_event_on_timeline(
        0,
        vec![(b("tl"), AttrVal::Str(b("X")))],
        0,
        vec![(b("level"), AttrVal::Integer(3)), (b("name"), AttrVal::Str(b("e")))],
    );
    let declared: Vec<Vec<u8>> = calls
        .iter()
        .filter_map(|c| match c {
            SinkCall::DeclareKey { key, .. } => Some(key.clone()),
            _ => None,
        })
        .collect();
    assert!(declared.contains(&b("timeline.zone")));
    assert!(declared.contains(&b("event.severity")));
    assert!(declared.contains(&b("event.name")));
    assert!(!declared.contains(&b("timeline.tl")));
}

#[test]
fn keys_are_interned_once() {
    let mut client = Client::new(Vec::new(), Vec::new());
    let ekvs = || vec![(b("name"), AttrVal::Str(b("e")))];
    let first = client.send_event_on_timeline(0, Vec::new(), 0, ekvs());
    let second = client.send_event_on_timeline(0, Vec::new(), 1, ekvs());
    let count = |cs: &[SinkCall]| {
        cs.iter().filter(|c| matches!(c, SinkCall::DeclareKey { .. })).count()
    };
    assert_eq!(count(&first), 1);
    assert_eq!(count(&second), 0);
}

#[test]
fn open_timeline_only_on_switch() {
    let mut client = Client::new(Vec::new(), Vec::new());
    let ekvs = || vec![(b("name"), AttrVal::Str(b("e")))];
    let opens = |cs: &[SinkCall]| {
        cs.iter().filter(|c| matches!(c, SinkCall::OpenTimeline { .. })).count()
    };
    assert_eq!(opens(&client.send_event_on_timeline(0, Vec::new(), 0, ekvs())), 1);
    assert_eq!(opens(&client.send_event_on_timeline(0, Vec::new(), 1, ekvs())), 0);
    assert_eq!(opens(&client.send_event_on_timeline(1, Vec::new(), 2, ekvs())), 1);
    assert_eq!(opens(&client.send_event_on_timeline(0, Vec::new(), 3, ekvs())), 1);
}

#[test]
fn timeline_name_gets_prefix_and_reserved_key() {
    let mut reg = TimelineRegistry::new();
    let mut cfg = base_cfg();
    cfg.timeline_name_prefix = Some(b("run-"));
    let fields = parse_obj_fields(r#"{"tl":"X","name":"e"}"#);
    let rts = prepare_json_object(&JsonValue::Obj(fields), &Vec::new(), &cfg, &mut reg)
        .expect("ok");
    assert!(rts
        .timeline_kvs
        .iter()
        .any(|(k, v)| k == &b("name") && *v == AttrVal::Str(b("run-X"))));
    // the signature key itself stays in the timeline bucket
    assert!(rts.timeline_kvs.iter().any(|(k, v)| k == &b("tl") && *v == AttrVal::Str(b("X"))));
}

#[test]
fn timestamp_attr_appends_reserved_key() {
    let mut reg = TimelineRegistry::new();
    let mut cfg = base_cfg();
    cfg.timestamp_attr = Some(b("ts"));
    cfg.timestamp_attr_units = Some(TimestampUnit::Milliseconds);
    let fields = parse_obj_fields(r#"{"tl":"X","name":"e","ts":1500}"#);
    let rts = prepare_json_object(&JsonValue::Obj(fields), &Vec::new(), &cfg, &mut reg)
        .expect("ok");
    assert!(rts
        .event_kvs
        .iter()
        .any(|(k, v)| k == &b("timestamp") && *v == AttrVal::BigInt(1500000000)));
    // the raw attribute is kept too
    assert!(rts.event_kvs.iter().any(|(k, v)| k == &b("ts") && *v == AttrVal::Integer(1500)));
}

#[test]
fn non_numeric_timestamp_is_fatal_for_the_record() {
    let mut reg = TimelineRegistry::new();
    let mut cfg = base_cfg();
    cfg.timestamp_attr = Some(b("ts"));
    let fields = parse_obj_fields(r#"{"tl":"X","name":"e","ts":"late"}"#);
    let got = prepare_json_object(&JsonValue::Obj(fields), &Vec::new(), &cfg, &mut reg);
    assert!(matches!(got, Err(Error::NonNumericTimestamp)));
}

#[test]
fn top_level_non_object_is_malformed() {
    let mut reg = TimelineRegistry::new();
    let cfg = base_cfg();
    let got = prepare_json_object(&JsonValue::Bool(true), &Vec::new(), &cfg, &mut reg);
    assert!(matches!(got, Err(Error::MalformedInput)));
    let mut client = Client::new(Vec::new(), Vec::new());
    let buf = b("[1,2]");
    let got = process_buffer(&buf, &cfg, None, &mut reg, &mut client);
    assert!(matches!(got, Err(Error::MalformedInput)));
}

#[test]
fn json_parser_reads_values_and_positions() {
    let buf = b(" {\"a\": [true, false, null, \"x\\n\", 1.5e2]} tail");
    let (v, end) = parse_json_value(&buf, 1).expect("parse");
    assert_eq!(&buf[end..], b" tail".as_slice());
    match v {
        JsonValue::Obj(fields) => {
            assert_eq!(fields.len(), 1);
            assert_eq!(fields[0].0, b("a"));
            match &fields[0].1 {
                JsonValue::Arr(items) => {
                    assert_eq!(items.len(), 5);
                    assert_eq!(items[0], JsonValue::Bool(true));
                    assert_eq!(items[1], JsonValue::Bool(false));
                    assert_eq!(items[2], JsonValue::Null);
                    assert_eq!(items[3], JsonValue::Str(b("x\n")));
                    assert_eq!(items[4], JsonValue::Num(JsonNum::F(b("1.5e2"))));
                },
                _ => panic!("expected array"),
            }
        },
        _ => panic!("expected object"),
    }
}

#[test]
fn json_parser_handles_escapes() {
    let buf = b(r#""aA\té😀b""#);
    let (v, _) = parse_json_value(&buf, 0).expect("parse");
    assert_eq!(v, JsonValue::Str("aA\t\u{e9}\u{1F600}b".as_bytes().to_vec()));
    // a lone surrogate is malformed
    let bad = b(r#""\ud83d""#);
    assert!(parse_json_value(&bad, 0).is_err());
}

#[test]
fn json_parser_classifies_numbers() {
    let cases: Vec<(&str, JsonNum)> = vec![
        ("0", JsonNum::I(0)),
        ("-1", JsonNum::I(-1)),
        ("9223372036854775807", JsonNum::I(9223372036854775807)),
        ("9223372036854775808", JsonNum::U(9223372036854775808)),
        ("18446744073709551615", JsonNum::U(18446744073709551615)),
        ("18446744073709551616", JsonNum::F(b("18446744073709551616"))),
        ("-9223372036854775808", JsonNum::I(i64::MIN)),
        ("-9223372036854775809", JsonNum::F(b("-9223372036854775809"))),
        ("1.5", JsonNum::F(b("1.5"))),
        ("1e3", JsonNum::F(b("1e3"))),
    ];
    for (text, want) in cases {
        let buf = b(text);
        let (v, _) = parse_json_value(&buf, 0).expect(text);
        assert_eq!(v, JsonValue::Num(want), "{}", text);
    }
    // leading zeros are not a JSON number
    assert!(parse_json_value(&b("0123"), 0).is_err());
    assert!(parse_json_value(&b("{\"a\":01}"), 0).is_err());
}

#[test]
fn parse_i128_text_bounds() {
    assert_eq!(
        parse_i128_text(&b("170141183460469231731687303715884105727")),
        Some(i128::MAX)
    );
    assert_eq!(
        parse_i128_text(&b("-170141183460469231731687303715884105728")),
        Some(i128::MIN)
    );
    assert_eq!(parse_i128_text(&b("170141183460469231731687303715884105728")), None);
    assert_eq!(parse_i128_text(&b("+42")), Some(42));
    assert_eq!(parse_i128_text(&b("")), None);
    assert_eq!(parse_i128_text(&b("4x2")), None);
}

#[test]
fn scale_decimal_text_is_exact() {
    assert_eq!(scale_decimal_text(&b("1.5"), 9), Some(1500000000));
    assert_eq!(scale_decimal_text(&b("0.000000001"), 9), Some(1));
    assert_eq!(scale_decimal_text(&b("0.0000000001"), 9), Some(0));
    assert_eq!(scale_decimal_text(&b("-2.75"), 3), Some(-2750));
    assert_eq!(scale_decimal_text(&b("1e3"), 0), Some(1000));
    assert_eq!(scale_decimal_text(&b("2.5e-4"), 6), Some(250));
    assert_eq!(scale_decimal_text(&b("1e999"), 0), Some(i128::MAX));
    assert_eq!(scale_decimal_text(&b("-1e999"), 0), Some(i128::MIN));
    assert_eq!(scale_decimal_text(&b("1e-999"), 9), Some(0));
    assert_eq!(scale_decimal_text(&b("nonsense"), 0), None);
}

#[test]
fn big_integer_timestamps_saturate() {
    let s = TimestampUnit::Seconds;
    let big = 170141183460469231731687303715884105i128;
    assert_eq!(
        s.attr_val_to_ns(&AttrVal::BigInt(big)).unwrap(),
        AttrVal::BigInt(i128::MAX)
    );
    assert_eq!(
        s.attr_val_to_ns(&AttrVal::BigInt(-big)).unwrap(),
        AttrVal::BigInt(i128::MIN)
    );
}

#[test]
fn normalize_scope_keys() {
    assert_eq!(normalize_timeline_key(b("foo")), b("timeline.foo"));
    assert_eq!(normalize_timeline_key(b("timeline.foo")), b("timeline.foo"));
    assert_eq!(normalize_event_key(b("foo")), b("event.foo"));
    assert_eq!(normalize_event_key(b("event.foo")), b("event.foo"));
}

#[test]
fn display_matches_value_shapes() {
    assert_eq!(display_bytes(&AttrVal::Bool(true)), b("true"));
    assert_eq!(display_bytes(&AttrVal::Bool(false)), b("false"));
    assert_eq!(display_bytes(&AttrVal::Integer(-42)), b("-42"));
    assert_eq!(display_bytes(&AttrVal::BigInt(9223372036854775808i128)), b("9223372036854775808"));
    assert_eq!(display_bytes(&AttrVal::Float(b("3.14"))), b("3.14"));
    assert_eq!(display_bytes(&AttrVal::Str(b("hi"))), b("hi"));
}

#[test]
fn attr_key_rename_parsing() {
    let got = parse_attr_key_rename(&b("old.key,new.key")).expect("comma");
    assert_eq!(got, AttrKeyRename { original: b("old.key"), new: b("new.key") });
    assert!(parse_attr_key_rename(&b("no-comma")).is_none());
}

#[test]
fn timestamp_unit_names() {
    assert_eq!(TimestampUnit::from_str(&b("s")), Some(TimestampUnit::Seconds));
    assert_eq!(TimestampUnit::from_str(&b("SECONDS")), Some(TimestampUnit::Seconds));
    assert_eq!(TimestampUnit::from_str(&b("ms")), Some(TimestampUnit::Milliseconds));
    assert_eq!(TimestampUnit::from_str(&b("millis")), Some(TimestampUnit::Milliseconds));
    assert_eq!(TimestampUnit::from_str(&b("us")), Some(TimestampUnit::Microseconds));
    assert_eq!(TimestampUnit::from_str(&b("Micros")), Some(TimestampUnit::Microseconds));
    assert_eq!(TimestampUnit::from_str(&b("ns")), Some(TimestampUnit::Nanoseconds));
    assert_eq!(TimestampUnit::from_str(&b("nanoseconds")), Some(TimestampUnit::Nanoseconds));
    assert_eq!(TimestampUnit::from_str(&b("fortnights")), None);
    assert_eq!(TimestampUnit::default(), TimestampUnit::Nanoseconds);
}

#[test]
fn interruptor_flag() {
    let intr = Interruptor::new();
    assert!(!intr.is_set());
    let other = intr.clone();
    other.set();
    assert!(intr.is_set());
}

#[test]
fn retry_duration_parsing() {
    assert_eq!(RetryDurationUs::default(), RetryDurationUs(100000));
    assert_eq!(RetryDurationUs::from_text(&b("250")), Some(RetryDurationUs(250)));
    // surrounding whitespace is trimmed before parsing
    assert_eq!(RetryDurationUs::from_text(&b(" 42 ")), Some(RetryDurationUs(42)));
    assert_eq!(RetryDurationUs::from_text(&b("\t250\r\n")), Some(RetryDurationUs(250)));
    assert_eq!(RetryDurationUs::from_text(&b("   ")), None);
    assert_eq!(RetryDurationUs::from_text(&b("-1")), None);
    assert_eq!(RetryDurationUs::from_text(&b(" -1 ")), None);
    assert_eq!(RetryDurationUs::from_text(&b("soon")), None);
}

#[test]
fn dotted_path_lookup() {
    let fields = parse_obj_fields(r#"{"a":{"b":{"c":5}},"d":1}"#);
    assert_eq!(get_val_at_path(&b("a.b.c"), &fields), Some(&JsonValue::Num(JsonNum::I(5))));
    assert_eq!(get_val_at_path(&b("d"), &fields), Some(&JsonValue::Num(JsonNum::I(1))));
    assert_eq!(get_val_at_path(&b("a.b.missing"), &fields), None);
    assert_eq!(get_val_at_path(&b("d.c"), &fields), None);
}

#[test]
fn duplicate_object_keys_keep_the_last_value() {
    let fields = parse_obj_fields(r#"{"a":1,"b":2,"a":3}"#);
    assert_eq!(
        fields,
        vec![(b("a"), JsonValue::Num(JsonNum::I(3))), (b("b"), JsonValue::Num(JsonNum::I(2)))]
    );
    let flat = walk_obj(&fields);
    assert_eq!(flat, vec![(b("a"), AttrVal::Integer(3)), (b("b"), AttrVal::Integer(2))]);
}

#[test]
fn drain_batch_applies_extras_to_every_record() {
    let mut reg = TimelineRegistry::new();
    let mut client = Client::new(Vec::new(), Vec::new());
    let cfg = base_cfg();
    let rec = |s: &str| parse_json_value(&b(s), 0).expect("parse").0;
    let pending = vec![rec(r#"{"tl":"X","name":"a"}"#), rec(r#"{"tl":"Y","name":"b"}"#)];
    let extras = vec![(b("src"), AttrVal::Integer(1))];
    let calls = drain_batch(&pending, &extras, &cfg, &mut reg, &mut client, 5).expect("ok");
    let events: Vec<(u128, &Vec<(u64, AttrVal)>)> = calls
        .iter()
        .filter_map(|c| match c {
            SinkCall::SendEvent { ordering, attrs } => Some((*ordering, attrs)),
            _ => None,
        })
        .collect();
    // one event per record, at the consecutive orderings from the base
    assert_eq!(events.len(), 2);
    assert_eq!(events[0].0, 5);
    assert_eq!(events[1].0, 6);
    // the pending extras reach both records of the batch
    assert!(events[0].1.iter().any(|(_, v)| *v == AttrVal::Integer(1)));
    assert!(events[1].1.iter().any(|(_, v)| *v == AttrVal::Integer(1)));
    // two distinct signatures were registered
    assert_eq!(reg.len(), 2);
}

#[test]
fn empty_arrays_consume_without_events() {
    let mut reg = TimelineRegistry::new();
    let mut client = Client::new(Vec::new(), Vec::new());
    let cfg = base_cfg();
    let buf = b("[] {\"tl\":\"X\",\"name\":\"a\"} []");
    let calls = process_buffer(&buf, &cfg, None, &mut reg, &mut client).expect("ok");
    let ords: Vec<u128> = calls
        .iter()
        .filter_map(|c| match c {
            SinkCall::SendEvent { ordering, .. } => Some(*ordering),
            _ => None,
        })
        .collect();
    assert_eq!(ords, vec![0]);
}
