use vstd::prelude::*;

use crate::errors::ValueError;
use chrono::Datelike;
use chrono::Timelike;

verus! {

/// One attribute's schema record: its id, name, declared data type
/// ("int", "dec", "str", "bool" or "dt") and role ("match" or "param").
#[derive(Debug, Clone, PartialEq, Eq)]
pub struct AttrMeta {
    pub attr_id: i32,
    pub attr_name: String,
    pub data_type: String,
    pub role: String,
}

/// One raw parameter as received: a key, the type tag it was sent with (not
/// authoritative; the schema's declared type decides), and the raw value text.
#[derive(Debug, Clone, PartialEq, Eq)]
pub struct RawParam {
    pub key: String,
    pub type_: String,
    pub value: String,
}

/// A calendar timestamp in UTC, second precision, as plain field values.
#[derive(Debug, Clone, Copy, PartialEq, Eq, Structural)]
pub struct DtValue {
    pub year: i32,
    pub month: u8,
    pub day: u8,
    pub hour: u8,
    pub minute: u8,
    pub second: u8,
}

/// A parsed, typed parameter value. A decimal keeps its validated literal
/// text: the text is checked against the decimal grammar, and a consumer
/// converts it to its numeric form outside this library.
#[derive(Debug, Clone, PartialEq, Eq)]
pub enum TypedValue {
    Int(i64),
    Dec(String),
    Str(String),
    Bool(bool),
    Dt(DtValue),
}

/// One fully parsed parameter, ready for a downstream evaluator.
#[derive(Debug, Clone, PartialEq, Eq)]
pub struct ConfigValue {
    pub match_id: i32,
    pub attr_id: i32,
    pub role: String,
    pub value: TypedValue,
}

/// First schema record of `lk` whose attribute name is `key`, if any.
pub open spec fn lookup_meta(lk: Seq<AttrMeta>, key: Seq<char>) -> Option<AttrMeta>
    decreases lk.len(),
{
    if lk.len() == 0 {
        None
    } else if lk[0].attr_name@ == key {
        Some(lk[0])
    } else {
        lookup_meta(lk.drop_first(), key)
    }
}

/// Resolves a parameter key in the schema lookup.
fn lookup_attr_meta<'a>(lk: &'a Vec<AttrMeta>, key: &String) -> (r: Option<&'a AttrMeta>)
    ensures
        match r {
            Some(m) => lookup_meta(lk@, key@) == Some(*m),
            None => lookup_meta(lk@, key@) is None,
        },
{
    let mut k: usize = 0;
    assert(lk@.skip(0) =~= lk@);
    while k < lk.len()
        invariant
            0 <= k <= lk@.len(),
            lookup_meta(lk@, key@) == lookup_meta(lk@.skip(k as int), key@),
        decreases lk@.len() - k,
    {
        assert(lk@.skip(k as int)[0] == lk@[k as int]);
        if lk[k].attr_name == *key {
            return Some(&lk[k]);
        }
        assert(lk@.skip(k as int).drop_first() =~= lk@.skip(k as int + 1));
        k = k + 1;
    }
    assert(lk@.skip(k as int).len() == 0);
    None
}

/// Whether two strings hold the same characters.
pub fn str_eq(a: &str, b: &str) -> (r: bool)
    ensures
        r == (a@ == b@),
{
    let alen = a.unicode_len();
    let blen = b.unicode_len();
    if alen != blen {
        return false;
    }
    let mut i: usize = 0;
    while i < alen
        invariant
            0 <= i <= alen,
            alen == a@.len(),
            blen == b@.len(),
            alen == blen,
            forall|j: int| 0 <= j < i ==> a@[j] == b@[j],
        decreases alen - i,
    {
        if a.get_char(i) != b.get_char(i) {
            return false;
        }
        i = i + 1;
    }
    assert(a@ =~= b@);
    true
}

/// Whether `c` is an ASCII decimal digit.
pub open spec fn is_digit(c: char) -> bool {
    '0' <= c && c <= '9'
}

/// The numeric value of an all-digit sequence, read base 10.
pub open spec fn digits_value(s: Seq<char>) -> int
    decreases s.len(),
{
    if s.len() == 0 {
        0
    } else {
        digits_value(s.drop_last()) * 10 + (s.last() as int - '0' as int)
    }
}

/// Whether every character of `s` is an ASCII decimal digit.
pub open spec fn all_digits(s: Seq<char>) -> bool {
    forall|i: int| 0 <= i < s.len() ==> is_digit(s[i])
}

/// The signed base-10 integer literal grammar: an optional sign followed by
/// one or more digits, with its unbounded numeric value.
pub open spec fn spec_parse_int(s: Seq<char>) -> Option<int> {
    if s.len() > 0 && (s[0] == '+' || s[0] == '-') {
        let d = s.drop_first();
        if d.len() > 0 && all_digits(d) {
            if s[0] == '-' {
                Some(-digits_value(d))
            } else {
                Some(digits_value(d))
            }
        } else {
            None
        }
    } else if s.len() > 0 && all_digits(s) {
        Some(digits_value(s))
    } else {
        None
    }
}

/// Relies on std's `str::parse::<i64>`: an optional sign followed by base-10
/// digits, rejected when empty, on any other character, or when the value
/// leaves the signed 64-bit range.
#[verifier::external_body]
fn parse_i64(s: &str) -> (r: Option<i64>)
    ensures
        r == (match spec_parse_int(s@) {
            Some(v) => if i64::MIN <= v <= i64::MAX {
                Some(v as i64)
            } else {
                None::<i64>
            },
            None => None::<i64>,
        }),
{
    match s.parse::<i64>() {
        Ok(v) => Some(v),
        Err(_) => None,
    }
}

/// The states of the decimal literal scanner.
#[derive(Debug, Clone, Copy, PartialEq, Eq, Structural)]
pub enum DecState {
    /// Nothing read yet.
    Start,
    /// A leading sign was read.
    Sign,
    /// Reading integer-part digits.
    IntPart,
    /// A dot was read before any digit.
    LeadDot,
    /// A dot was read after integer-part digits.
    DotTail,
    /// Reading fraction digits.
    FracPart,
    /// An exponent mark was read.
    ExpMark,
    /// An exponent sign was read.
    ExpSign,
    /// Reading exponent digits.
    ExpPart,
    /// The text left the grammar.
    Fail,
}

/// One step of the decimal literal scanner.
pub open spec fn dec_step(st: DecState, c: char) -> DecState {
    match st {
        DecState::Start => if c == '+' || c == '-' {
            DecState::Sign
        } else if is_digit(c) {
            DecState::IntPart
        } else if c == '.' {
            DecState::LeadDot
        } else {
            DecState::Fail
        },
        DecState::Sign => if is_digit(c) {
            DecState::IntPart
        } else if c == '.' {
            DecState::LeadDot
        } else {
            DecState::Fail
        },
        DecState::IntPart => if is_digit(c) {
            DecState::IntPart
        } else if c == '.' {
            DecState::DotTail
        } else if c == 'e' || c == 'E' {
            DecState::ExpMark
        } else {
            DecState::Fail
        },
        DecState::LeadDot => if is_digit(c) {
            DecState::FracPart
        } else {
            DecState::Fail
        },
        DecState::DotTail => if is_digit(c) {
            DecState::FracPart
        } else if c == 'e' || c == 'E' {
            DecState::ExpMark
        } else {
            DecState::Fail
        },
        DecState::FracPart => if is_digit(c) {
            DecState::FracPart
        } else if c == 'e' || c == 'E' {
            DecState::ExpMark
        } else {
            DecState::Fail
        },
        DecState::ExpMark => if c == '+' || c == '-' {
            DecState::ExpSign
        } else if is_digit(c) {
            DecState::ExpPart
        } else {
            DecState::Fail
        },
        DecState::ExpSign => if is_digit(c) {
            DecState::ExpPart
        } else {
            DecState::Fail
        },
        DecState::ExpPart => if is_digit(c) {
            DecState::ExpPart
        } else {
            DecState::Fail
        },
        DecState::Fail => DecState::Fail,
    }
}

/// Runs the scanner over `s` from state `st`.
pub open spec fn dec_run(st: DecState, s: Seq<char>) -> DecState
    decreases s.len(),
{
    if s.len() == 0 {
        st
    } else {
        dec_run(dec_step(st, s[0]), s.drop_first())
    }
}

/// The states in which the scanner has read a complete literal.
pub open spec fn dec_accepting(st: DecState) -> bool {
    st == DecState::IntPart || st == DecState::DotTail || st == DecState::FracPart || st
        == DecState::ExpPart
}

/// The decimal literal grammar: standard decimal notation with an optional
/// sign, an optional fraction, and an optional exponent.
pub open spec fn is_dec_literal(s: Seq<char>) -> bool {
    dec_accepting(dec_run(DecState::Start, s))
}

/// Running the scanner over a split text runs it over the parts in turn.
pub proof fn lemma_dec_run_concat(st: DecState, s1: Seq<char>, s2: Seq<char>)
    ensures
        dec_run(st, s1 + s2) == dec_run(dec_run(st, s1), s2),
    decreases s1.len(),
{
    if s1.len() == 0 {
        assert(s1 + s2 =~= s2);
    } else {
        assert((s1 + s2)[0] == s1[0]);
        assert((s1 + s2).drop_first() =~= s1.drop_first() + s2);
        lemma_dec_run_concat(dec_step(st, s1[0]), s1.drop_first(), s2);
    }
}

/// One step of the decimal literal scanner, executable form.
fn dec_step_exec(st: DecState, c: char) -> (r: DecState)
    ensures
        r == dec_step(st, c),
{
    match st {
        DecState::Start => if c == '+' || c == '-' {
            DecState::Sign
        } else if '0' <= c && c <= '9' {
            DecState::IntPart
        } else if c == '.' {
            DecState::LeadDot
        } else {
            DecState::Fail
        },
        DecState::Sign => if '0' <= c && c <= '9' {
            DecState::IntPart
        } else if c == '.' {
            DecState::LeadDot
        } else {
            DecState::Fail
        },
        DecState::IntPart => if '0' <= c && c <= '9' {
            DecState::IntPart
        } else if c == '.' {
            DecState::DotTail
        } else if c == 'e' || c == 'E' {
            DecState::ExpMark
        } else {
            DecState::Fail
        },
        DecState::LeadDot => if '0' <= c && c <= '9' {
            DecState::FracPart
        } else {
            DecState::Fail
        },
        DecState::DotTail => if '0' <= c && c <= '9' {
            DecState::FracPart
        } else if c == 'e' || c == 'E' {
            DecState::ExpMark
        } else {
            DecState::Fail
        },
        DecState::FracPart => if '0' <= c && c <= '9' {
            DecState::FracPart
        } else if c == 'e' || c == 'E' {
            DecState::ExpMark
        } else {
            DecState::Fail
        },
        DecState::ExpMark => if c == '+' || c == '-' {
            DecState::ExpSign
        } else if '0' <= c && c <= '9' {
            DecState::ExpPart
        } else {
            DecState::Fail
        },
        DecState::ExpSign => if '0' <= c && c <= '9' {
            DecState::ExpPart
        } else {
            DecState::Fail
        },
        DecState::ExpPart => if '0' <= c && c <= '9' {
            DecState::ExpPart
        } else {
            DecState::Fail
        },
        DecState::Fail => DecState::Fail,
    }
}

/// Whether `s` is a well-formed decimal literal.
#[verifier::loop_isolation(false)]
pub fn check_dec_literal(s: &str) -> (r: bool)
    ensures
        r == is_dec_literal(s@),
{
    let n = s.unicode_len();
    let mut st = DecState::Start;
    proof {
        assert(s@.take(0) =~= Seq::<char>::empty());
    }
    let mut i: usize = 0;
    while i < n
        invariant
            0 <= i <= n,
            st == dec_run(DecState::Start, s@.take(i as int)),
        decreases n - i,
    {
        let c = s.get_char(i);
        proof {
            assert(s@.take(i as int + 1) =~= s@.take(i as int) + seq![s@[i as int]]);
            lemma_dec_run_concat(DecState::Start, s@.take(i as int), seq![s@[i as int]]);
            assert(seq![s@[i as int]][0] == s@[i as int]);
            assert(seq![s@[i as int]].drop_first() =~= Seq::<char>::empty());
            assert(dec_run(dec_step(st, s@[i as int]), Seq::<char>::empty()) == dec_step(
                st,
                s@[i as int],
            ));
            assert(dec_run(st, seq![s@[i as int]]) == dec_step(st, s@[i as int]));
        }
        st = dec_step_exec(st, c);
        i = i + 1;
    }
    proof {
        assert(s@.take(n as int) =~= s@);
    }
    match st {
        DecState::IntPart => true,
        DecState::DotTail => true,
        DecState::FracPart => true,
        DecState::ExpPart => true,
        _ => false,
    }
}

/// The timestamp a text of the form `YYYY-MM-DDTHH:MM:SSZ` denotes, if it is
/// well formed as a UTC calendar instant; what the datetime parser accepts
/// depends on the text alone.
pub uninterp spec fn dt_of(s: Seq<char>) -> Option<DtValue>;

/// Relies on chrono's `NaiveDateTime::parse_from_str` with the fixed format
/// `%Y-%m-%dT%H:%M:%SZ`, and on its `Datelike`/`Timelike` field accessors, to
/// parse a UTC timestamp text and hand its calendar fields over.
#[verifier::external_body]
fn parse_datetime_utc(s: &str) -> (r: Option<DtValue>)
    ensures
        r == dt_of(s@),
{
    match chrono::NaiveDateTime::parse_from_str(s, "%Y-%m-%dT%H:%M:%SZ") {
        Ok(dt) => Some(
            DtValue {
                year: dt.year(),
                month: dt.month() as u8,
                day: dt.day() as u8,
                hour: dt.hour() as u8,
                minute: dt.minute() as u8,
                second: dt.second() as u8,
            },
        ),
        Err(_) => None,
    }
}

/// Parses one raw value under the schema record's declared data type.
pub open spec fn spec_parse_value(m: AttrMeta, p: RawParam) -> Result<TypedValue, ValueError> {
    if m.data_type@ == "int"@ {
        match spec_parse_int(p.value@) {
            Some(v) => if i64::MIN <= v <= i64::MAX {
                Ok(TypedValue::Int(v as i64))
            } else {
                Err(ValueError::TypeParseError {
                    key: p.key,
                    data_type: m.data_type,
                    value: p.value,
                })
            },
            None => Err(ValueError::TypeParseError {
                key: p.key,
                data_type: m.data_type,
                value: p.value,
            }),
        }
    } else if m.data_type@ == "dec"@ {
        if is_dec_literal(p.value@) {
            Ok(TypedValue::Dec(p.value))
        } else {
            Err(ValueError::TypeParseError { key: p.key, data_type: m.data_type, value: p.value })
        }
    } else if m.data_type@ == "str"@ {
        Ok(TypedValue::Str(p.value))
    } else if m.data_type@ == "bool"@ {
        if p.value@ == "true"@ {
            Ok(TypedValue::Bool(true))
        } else if p.value@ == "false"@ {
            Ok(TypedValue::Bool(false))
        } else {
            Err(ValueError::TypeParseError { key: p.key, data_type: m.data_type, value: p.value })
        }
    } else if m.data_type@ == "dt"@ {
        match dt_of(p.value@) {
            Some(d) => Ok(TypedValue::Dt(d)),
            None => Err(ValueError::TypeParseError {
                key: p.key,
                data_type: m.data_type,
                value: p.value,
            }),
        }
    } else {
        Err(ValueError::UnsupportedDataType { key: p.key, data_type: m.data_type })
    }
}

/// Resolves and parses one raw parameter: unknown keys fail with
/// `UnknownAttribute`, a role other than "param" fails with `WrongRole`, and
/// the value is parsed under the schema's declared data type.
pub open spec fn spec_parse_param(match_id: i32, lk: Seq<AttrMeta>, p: RawParam) -> Result<
    ConfigValue,
    ValueError,
> {
    match lookup_meta(lk, p.key@) {
        None => Err(ValueError::UnknownAttribute { key: p.key }),
        Some(m) => if m.role@ != "param"@ {
            Err(ValueError::WrongRole { key: p.key, role: m.role })
        } else {
            match spec_parse_value(m, p) {
                Ok(v) => Ok(
                    ConfigValue { match_id, attr_id: m.attr_id, role: m.role, value: v },
                ),
                Err(e) => Err(e),
            }
        },
    }
}

/// Processes raw parameters in order, fail-fast: the first failing parameter
/// aborts the batch.
pub open spec fn spec_parse_values(
    match_id: i32,
    params: Seq<RawParam>,
    lk: Seq<AttrMeta>,
    acc: Seq<ConfigValue>,
) -> Result<Seq<ConfigValue>, ValueError>
    decreases params.len(),
{
    if params.len() == 0 {
        Ok(acc)
    } else {
        match spec_parse_param(match_id, lk, params[0]) {
            Ok(cv) => spec_parse_values(match_id, params.drop_first(), lk, acc.push(cv)),
            Err(e) => Err(e),
        }
    }
}

/// The whole batch on the abstract level.
pub open spec fn spec_parse_config_values(
    match_id: i32,
    params: Seq<RawParam>,
    lk: Seq<AttrMeta>,
) -> Result<Seq<ConfigValue>, ValueError> {
    spec_parse_values(match_id, params, lk, Seq::empty())
}

/// Splitting the parameter sequence splits the fold.
pub proof fn lemma_parse_values_concat(
    match_id: i32,
    s1: Seq<RawParam>,
    s2: Seq<RawParam>,
    lk: Seq<AttrMeta>,
    acc: Seq<ConfigValue>,
)
    ensures
        spec_parse_values(match_id, s1 + s2, lk, acc) == (match spec_parse_values(
            match_id,
            s1,
            lk,
            acc,
        ) {
            Ok(a) => spec_parse_values(match_id, s2, lk, a),
            Err(e) => Err::<Seq<ConfigValue>, ValueError>(e),
        }),
    decreases s1.len(),
{
    if s1.len() == 0 {
        assert(s1 + s2 =~= s2);
    } else {
        assert((s1 + s2)[0] == s1[0]);
        assert((s1 + s2).drop_first() =~= s1.drop_first() + s2);
        match spec_parse_param(match_id, lk, s1[0]) {
            Ok(cv) => {
                lemma_parse_values_concat(match_id, s1.drop_first(), s2, lk, acc.push(cv));
            },
            Err(e) => {},
        }
    }
}

/// Parses a batch of raw parameters into typed config values against the
/// attribute schema `attr_lookup`.
///
/// Each key must resolve (`UnknownAttribute`) to a schema record with role
/// "param" (`WrongRole`); its raw text is then parsed under the record's
/// declared data type: "int", "dec", "str", "bool" or "dt", any other
/// declared type failing with `UnsupportedDataType`, and any text outside
/// the declared type's grammar with `TypeParseError`. The first failing
/// parameter aborts the whole batch; no partial output is returned.
#[verifier::loop_isolation(false)]
pub fn parse_config_values(
    match_id: i32,
    raw_params: &Vec<RawParam>,
    attr_lookup: &Vec<AttrMeta>,
) -> (r: Result<Vec<ConfigValue>, ValueError>)
    ensures
        (match r {
            Ok(vs) => spec_parse_config_values(match_id, raw_params@, attr_lookup@) == Ok::<
                Seq<ConfigValue>,
                ValueError,
            >(vs@),
            Err(e) => spec_parse_config_values(match_id, raw_params@, attr_lookup@) == Err::<
                Seq<ConfigValue>,
                ValueError,
            >(e),
        }),
{
    let ghost lk = attr_lookup@;
    let mut out: Vec<ConfigValue> = Vec::new();
    proof {
        assert(raw_params@.take(0) =~= Seq::<RawParam>::empty());
    }
    let mut i: usize = 0;
    while i < raw_params.len()
        invariant
            0 <= i <= raw_params@.len(),
            spec_parse_values(match_id, raw_params@.take(i as int), lk, Seq::empty()) == Ok::<
                Seq<ConfigValue>,
                ValueError,
            >(out@),
        decreases raw_params@.len() - i,
    {
        let param = &raw_params[i];
        let ghost cur = out@;
        proof {
            assert(*param == raw_params@[i as int]);
            assert(raw_params@ =~= raw_params@.take(i as int) + raw_params@.skip(i as int));
            lemma_parse_values_concat(
                match_id,
                raw_params@.take(i as int),
                raw_params@.skip(i as int),
                lk,
                Seq::empty(),
            );
            assert(raw_params@.skip(i as int)[0] == raw_params@[i as int]);
            assert(raw_params@.take(i as int + 1) =~= raw_params@.take(i as int) + seq![
                raw_params@[i as int],
            ]);
            lemma_parse_values_concat(
                match_id,
                raw_params@.take(i as int),
                seq![raw_params@[i as int]],
                lk,
                Seq::empty(),
            );
            assert(seq![raw_params@[i as int]][0] == raw_params@[i as int]);
            assert(seq![raw_params@[i as int]].drop_first() =~= Seq::<RawParam>::empty());
        }
        let meta = match lookup_attr_meta(attr_lookup, &param.key) {
            Some(m) => m,
            None => {
                return Err(ValueError::UnknownAttribute { key: param.key.clone() });
            },
        };
        if !str_eq(meta.role.as_str(), "param") {
            return Err(
                ValueError::WrongRole { key: param.key.clone(), role: meta.role.clone() },
            );
        }
        let value = if str_eq(meta.data_type.as_str(), "int") {
            match parse_i64(param.value.as_str()) {
                Some(v) => TypedValue::Int(v),
                None => {
                    return Err(
                        ValueError::TypeParseError {
                            key: param.key.clone(),
                            data_type: meta.data_type.clone(),
                            value: param.value.clone(),
                        },
                    );
                },
            }
        } else if str_eq(meta.data_type.as_str(), "dec") {
            if check_dec_literal(param.value.as_str()) {
                TypedValue::Dec(param.value.clone())
            } else {
                return Err(
                    ValueError::TypeParseError {
                        key: param.key.clone(),
                        data_type: meta.data_type.clone(),
                        value: param.value.clone(),
                    },
                );
            }
        } else if str_eq(meta.data_type.as_str(), "str") {
            TypedValue::Str(param.value.clone())
        } else if str_eq(meta.data_type.as_str(), "bool") {
            if str_eq(param.value.as_str(), "true") {
                TypedValue::Bool(true)
            } else if str_eq(param.value.as_str(), "false") {
                TypedValue::Bool(false)
            } else {
                return Err(
                    ValueError::TypeParseError {
                        key: param.key.clone(),
                        data_type: meta.data_type.clone(),
                        value: param.value.clone(),
                    },
                );
            }
        } else if str_eq(meta.data_type.as_str(), "dt") {
            match parse_datetime_utc(param.value.as_str()) {
                Some(d) => TypedValue::Dt(d),
                None => {
                    return Err(
                        ValueError::TypeParseError {
                            key: param.key.clone(),
                            data_type: meta.data_type.clone(),
                            value: param.value.clone(),
                        },
                    );
                },
            }
        } else {
            return Err(
                ValueError::UnsupportedDataType {
                    key: param.key.clone(),
                    data_type: meta.data_type.clone(),
                },
            );
        };
        let cv = ConfigValue {
            match_id,
            attr_id: meta.attr_id,
            role: meta.role.clone(),
            value,
        };
        out.push(cv);
        proof {
            assert(spec_parse_values(match_id, Seq::<RawParam>::empty(), lk, cur.push(cv)) == Ok::<
                Seq<ConfigValue>,
                ValueError,
            >(cur.push(cv)));
            assert(spec_parse_param(match_id, lk, raw_params@[i as int]) == Ok::<
                ConfigValue,
                ValueError,
            >(cv));
        }
        i = i + 1;
    }
    proof {
        assert(raw_params@.take(raw_params@.len() as int) =~= raw_params@);
    }
    Ok(out)
}

} // verus!
