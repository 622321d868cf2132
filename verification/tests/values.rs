use config_precedence::errors::ValueError;
use config_precedence::values::{parse_config_values, AttrMeta, DtValue, RawParam, TypedValue};

fn meta(attr_id: i32, name: &str, data_type: &str, role: &str) -> AttrMeta {
    AttrMeta {
        attr_id,
        attr_name: name.to_string(),
        data_type: data_type.to_string(),
        role: role.to_string(),
    }
}

fn param(key: &str, type_: &str, value: &str) -> RawParam {
    RawParam { key: key.to_string(), type_: type_.to_string(), value: value.to_string() }
}

#[test]
fn int_parameter_parses() {
    let lookup = vec![meta(1, "max_orders_day", "int", "param")];
    let params = vec![param("max_orders_day", "int", "250")];
    let out = parse_config_values(123, &params, &lookup).unwrap();
    assert_eq!(out.len(), 1);
    assert_eq!(out[0].match_id, 123);
    assert_eq!(out[0].attr_id, 1);
    assert_eq!(out[0].role, "param");
    assert_eq!(out[0].value, TypedValue::Int(250));
}

#[test]
fn match_role_is_rejected() {
    let lookup = vec![meta(1, "max_orders_day", "int", "match")];
    let params = vec![param("max_orders_day", "int", "250")];
    assert_eq!(
        parse_config_values(1, &params, &lookup),
        Err(ValueError::WrongRole {
            key: "max_orders_day".to_string(),
            role: "match".to_string()
        })
    );
}

#[test]
fn fractional_text_fails_int_parse() {
    let lookup = vec![meta(1, "max_orders_day", "int", "param")];
    let params = vec![param("max_orders_day", "int", "250.5")];
    assert_eq!(
        parse_config_values(1, &params, &lookup),
        Err(ValueError::TypeParseError {
            key: "max_orders_day".to_string(),
            data_type: "int".to_string(),
            value: "250.5".to_string()
        })
    );
}

#[test]
fn dec_parameter_parses() {
    let lookup = vec![meta(2, "discount_pct", "dec", "param")];
    let params = vec![param("discount_pct", "dec", "0.125")];
    let out = parse_config_values(1, &params, &lookup).unwrap();
    match &out[0].value {
        TypedValue::Dec(text) => {
            assert_eq!(text, "0.125");
            assert_eq!(text.parse::<f64>().unwrap(), 0.125);
        },
        other => panic!("expected a decimal, got {:?}", other),
    }
}

#[test]
fn dec_accepts_exponent_notation() {
    let lookup = vec![meta(2, "discount_pct", "dec", "param")];
    for ok in ["2.5e10", "-0.5", "+3.", ".5", "1E-9", "42"] {
        let params = vec![param("discount_pct", "dec", ok)];
        assert!(parse_config_values(1, &params, &lookup).is_ok(), "rejected {}", ok);
    }
}

#[test]
fn dec_rejects_malformed_text() {
    let lookup = vec![meta(2, "discount_pct", "dec", "param")];
    for bad in ["", ".", "1.2.3", "1e", "e5", "+-3", "12a", "--1"] {
        let params = vec![param("discount_pct", "dec", bad)];
        assert!(
            matches!(
                parse_config_values(1, &params, &lookup),
                Err(ValueError::TypeParseError { .. })
            ),
            "accepted {}",
            bad
        );
    }
}

#[test]
fn unknown_key_is_rejected() {
    let lookup = vec![meta(1, "known", "int", "param")];
    let params = vec![param("mystery", "int", "1")];
    assert_eq!(
        parse_config_values(1, &params, &lookup),
        Err(ValueError::UnknownAttribute { key: "mystery".to_string() })
    );
}

#[test]
fn unknown_key_rejected_whatever_type_and_value_say() {
    let lookup = vec![meta(1, "known", "int", "param")];
    for (t, v) in [("int", "1"), ("dec", "2.5"), ("str", "x"), ("bool", "true"), ("", "")] {
        let params = vec![param("mystery", t, v)];
        assert_eq!(
            parse_config_values(1, &params, &lookup),
            Err(ValueError::UnknownAttribute { key: "mystery".to_string() })
        );
    }
}

#[test]
fn schema_type_overrides_parameter_tag() {
    // The declared type in the schema, not the parameter's own tag, decides.
    let lookup = vec![meta(1, "flag", "bool", "param")];
    let params = vec![param("flag", "int", "true")];
    let out = parse_config_values(1, &params, &lookup).unwrap();
    assert_eq!(out[0].value, TypedValue::Bool(true));
}

#[test]
fn str_parameter_is_verbatim() {
    let lookup = vec![meta(1, "label", "str", "param")];
    let params = vec![param("label", "str", "  anything goes 123 ")];
    let out = parse_config_values(1, &params, &lookup).unwrap();
    assert_eq!(out[0].value, TypedValue::Str("  anything goes 123 ".to_string()));
}

#[test]
fn bool_literals_are_case_sensitive() {
    let lookup = vec![meta(1, "flag", "bool", "param")];
    let out = parse_config_values(1, &vec![param("flag", "bool", "false")], &lookup).unwrap();
    assert_eq!(out[0].value, TypedValue::Bool(false));
    for bad in ["True", "FALSE", "1", "yes", ""] {
        assert!(
            matches!(
                parse_config_values(1, &vec![param("flag", "bool", bad)], &lookup),
                Err(ValueError::TypeParseError { .. })
            ),
            "accepted {}",
            bad
        );
    }
}

#[test]
fn dt_parameter_parses_utc_timestamp() {
    let lookup = vec![meta(9, "starts_at", "dt", "param")];
    let params = vec![param("starts_at", "dt", "2024-03-01T12:30:05Z")];
    let out = parse_config_values(1, &params, &lookup).unwrap();
    assert_eq!(
        out[0].value,
        TypedValue::Dt(DtValue { year: 2024, month: 3, day: 1, hour: 12, minute: 30, second: 5 })
    );
}

#[test]
fn dt_rejects_other_shapes() {
    let lookup = vec![meta(9, "starts_at", "dt", "param")];
    for bad in [
        "2024-03-01 12:30:05",
        "2024-03-01T12:30:05",
        "2024-03-01T12:30:05+00:00",
        "2024-13-01T00:00:00Z",
        "2023-02-29T00:00:00Z",
        "not a date",
    ] {
        assert!(
            matches!(
                parse_config_values(1, &vec![param("starts_at", "dt", bad)], &lookup),
                Err(ValueError::TypeParseError { .. })
            ),
            "accepted {}",
            bad
        );
    }
}

#[test]
fn unsupported_declared_type_is_rejected() {
    let lookup = vec![meta(1, "weight", "float", "param")];
    let params = vec![param("weight", "float", "1.5")];
    assert_eq!(
        parse_config_values(1, &params, &lookup),
        Err(ValueError::UnsupportedDataType {
            key: "weight".to_string(),
            data_type: "float".to_string()
        })
    );
}

#[test]
fn int_range_limits_are_enforced() {
    let lookup = vec![meta(1, "n", "int", "param")];
    let ok = parse_config_values(1, &vec![param("n", "int", "9223372036854775807")], &lookup)
        .unwrap();
    assert_eq!(ok[0].value, TypedValue::Int(i64::MAX));
    let ok = parse_config_values(1, &vec![param("n", "int", "-9223372036854775808")], &lookup)
        .unwrap();
    assert_eq!(ok[0].value, TypedValue::Int(i64::MIN));
    assert!(matches!(
        parse_config_values(1, &vec![param("n", "int", "9223372036854775808")], &lookup),
        Err(ValueError::TypeParseError { .. })
    ));
    let ok = parse_config_values(1, &vec![param("n", "int", "+42")], &lookup).unwrap();
    assert_eq!(ok[0].value, TypedValue::Int(42));
}

#[test]
fn failing_middle_parameter_aborts_whole_batch() {
    let lookup = vec![
        meta(1, "a", "int", "param"),
        meta(2, "b", "int", "param"),
        meta(3, "c", "int", "param"),
    ];
    let params = vec![
        param("a", "int", "1"),
        param("b", "int", "oops"),
        param("c", "int", "3"),
    ];
    // One error, zero outputs: no partial result accompanies it.
    assert_eq!(
        parse_config_values(1, &params, &lookup),
        Err(ValueError::TypeParseError {
            key: "b".to_string(),
            data_type: "int".to_string(),
            value: "oops".to_string()
        })
    );
}

#[test]
fn batch_yields_one_value_per_parameter_in_order() {
    let lookup = vec![
        meta(1, "a", "int", "param"),
        meta(2, "b", "str", "param"),
        meta(3, "c", "bool", "param"),
    ];
    let params = vec![
        param("a", "int", "-5"),
        param("b", "str", "text"),
        param("c", "bool", "true"),
    ];
    let out = parse_config_values(77, &params, &lookup).unwrap();
    assert_eq!(out.len(), 3);
    assert_eq!(out[0].value, TypedValue::Int(-5));
    assert_eq!(out[1].value, TypedValue::Str("text".to_string()));
    assert_eq!(out[2].value, TypedValue::Bool(true));
    assert!(out.iter().all(|v| v.match_id == 77 && v.role == "param"));
}

#[test]
fn dt_accepts_leap_day() {
    let lookup = vec![meta(9, "starts_at", "dt", "param")];
    let params = vec![param("starts_at", "dt", "2024-02-29T23:59:59Z")];
    let out = parse_config_values(1, &params, &lookup).unwrap();
    assert_eq!(
        out[0].value,
        TypedValue::Dt(DtValue { year: 2024, month: 2, day: 29, hour: 23, minute: 59, second: 59 })
    );
}

#[test]
fn first_matching_schema_entry_wins() {
    // The lookup resolves a key to the first record carrying that name.
    let lookup = vec![
        meta(1, "n", "int", "param"),
        meta(2, "n", "str", "param"),
    ];
    let params = vec![param("n", "int", "7")];
    let out = parse_config_values(1, &params, &lookup).unwrap();
    assert_eq!(out[0].attr_id, 1);
    assert_eq!(out[0].value, TypedValue::Int(7));
}
