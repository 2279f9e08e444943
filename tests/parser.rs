use stellarust::date::{map_to_date, DateErrorKind, DateParseError};
use stellarust::parser::{
    array, bracketed, contents, decimal, hash_map, identifier, integer, key, key_value,
    dict, number_value, opt_space, quoted, quoted_key, req_space, root, string_literal, unquoted,
    unquoted_key, value, ErrorKind,
};
use stellarust::parser::{error_context, Production};
use stellarust::grammar::MemberKind;
use stellarust::value::{Date, Val};

fn b(s: &str) -> &[u8] {
    s.as_bytes()
}

fn date(year: i32, month: u8, day: u8) -> Val<'static> {
    Val::Date(Date { year, month, day })
}

fn only_entry<'a>(v: Val<'a>) -> (&'a [u8], Val<'a>) {
    match v {
        Val::Dict(mut entries) => {
            assert_eq!(entries.len(), 1);
            entries.remove(0)
        }
        other => panic!("expected a dict, found {:?}", other),
    }
}

#[test]
fn opt_space__empty_string__accepted() {
    assert_eq!(opt_space(b(""), 0), 0);
}

#[test]
fn opt_space__all_space_chars__accepted() {
    assert_eq!(opt_space(b(" \t\n\r"), 0), 4);
}

#[test]
fn req_space__empty_string__rejected() {
    assert!(req_space(b(""), 0).is_err());
}

#[test]
fn req_space__all_space_chars__accepted() {
    assert_eq!(req_space(b(" \t\n\r"), 0), Ok(4));
}

#[test]
fn unquoted__integer__integer() {
    assert_eq!(unquoted(b("0"), 0), Ok((Val::Integer(0), 1)));
}

#[test]
fn unquoted__decimal__decimal() {
    assert_eq!(unquoted(b("0.0"), 0), Ok((Val::Decimal(b("0.0")), 3)));
}

#[test]
fn unquoted__identifier__identifier() {
    assert_eq!(unquoted(b("zer0"), 0), Ok((Val::Identifier(b("zer0")), 4)));
}

#[test]
fn identifire__alphanumeric_with_underscore__accepted() {
    let text = "alpha_numeric1234567890";
    assert_eq!(identifier(b(text), 0), Ok((Val::Identifier(b(text)), text.len())));
}

#[test]
fn identifire__begins_with_number__rejectec() {
    assert!(identifier(b("0alpha_numeric1234567890"), 0).is_err());
}

#[test]
fn identifire__empty__rejectec() {
    assert!(identifier(b(""), 0).is_err());
}

#[test]
fn integer__empty__rejected() {
    assert!(integer(b(""), 0).is_err());
}

#[test]
fn integer__zero__accepted() {
    assert_eq!(integer(b("0"), 0), Ok((Val::Integer(0), 1)));
}

#[test]
fn integer__negative_number__accepted() {
    assert_eq!(integer(b("-1"), 0), Ok((Val::Integer(-1), 2)));
}

#[test]
fn integer__all_digits__accepted() {
    assert_eq!(integer(b("1234567890"), 0), Ok((Val::Integer(1234567890), 10)));
}

#[test]
fn integer__dots__accepted_up_to_dot_then_remainder() {
    let text = b("-12345.6789");
    let (v, e) = integer(text, 0).unwrap();
    assert_eq!(v, Val::Integer(-12345));
    assert_eq!(&text[e..], b(".6789"));
}

#[test]
fn integer__letters__int_up_to_letter_then_remainder() {
    let text = b("-1234567d89.098098");
    let (v, e) = integer(text, 0).unwrap();
    assert_eq!(v, Val::Integer(-1234567));
    assert_eq!(&text[e..], b("d89.098098"));
}

#[test]
fn integer_limits_and_overflow() {
    assert_eq!(integer(b("9223372036854775807"), 0), Ok((Val::Integer(i64::MAX), 19)));
    assert_eq!(integer(b("-9223372036854775808"), 0), Ok((Val::Integer(i64::MIN), 20)));
    assert_eq!(integer(b("9223372036854775808"), 0).unwrap_err().kind, ErrorKind::Numeric);
    assert!(integer(b("-9223372036854775809"), 0).is_err());
    assert!(integer(b("-"), 0).is_err());
}

#[test]
fn decimal__small_number__accepted() {
    let text = "0.00001011110110132";
    assert_eq!(decimal(b(text), 0), Ok((Val::Decimal(b(text)), text.len())));
}

#[test]
fn decimal__negative_number__accepted() {
    assert_eq!(decimal(b("-0.1"), 0), Ok((Val::Decimal(b("-0.1")), 4)));
}

#[test]
fn decimal__all_digits__accepted() {
    assert_eq!(decimal(b("-12345.6789"), 0), Ok((Val::Decimal(b("-12345.6789")), 11)));
}

#[test]
fn decimal__too_many_dots__accepted_with_remainder() {
    let text = b("-12345.6789.098098");
    let (v, e) = decimal(text, 0).unwrap();
    assert_eq!(v, Val::Decimal(b("-12345.6789")));
    assert_eq!(&text[e..], b(".098098"));
}

#[test]
fn decimal__letters__float_up_to_letter_then_remainder() {
    let text = b("-12345.67d89.098098");
    let (v, e) = decimal(text, 0).unwrap();
    assert_eq!(v, Val::Decimal(b("-12345.67")));
    assert_eq!(&text[e..], b("d89.098098"));
}

#[test]
fn decimal_needs_digits_on_both_sides() {
    assert!(decimal(b("1."), 0).is_err());
    assert!(decimal(b(".5"), 0).is_err());
    assert!(decimal(b("12"), 0).is_err());
}

#[test]
fn quoted__date__date() {
    assert_eq!(quoted(b("\"2200.01.01\""), 0), Ok((date(2200, 1, 1), 12)));
}

#[test]
fn quoted__not_date__string() {
    assert_eq!(quoted(b("\"2200.011\""), 0), Ok((Val::StringLiteral(b("2200.011")), 10)));
}

#[test]
fn quoted_dates_at_the_edges_are_accepted() {
    assert_eq!(quoted(b("\"2200.01.01\""), 0).unwrap().0, date(2200, 1, 1));
    assert_eq!(quoted(b("\"0.05.01\""), 0).unwrap().0, date(0, 5, 1));
    assert_eq!(quoted(b("\"9999.12.31\""), 0).unwrap().0, date(9999, 12, 31));
}

#[test]
fn quoted_out_of_range_date_is_a_string() {
    assert_eq!(quoted(b("\"2200.13.01\""), 0).unwrap().0, Val::StringLiteral(b("2200.13.01")));
    assert_eq!(quoted(b("\"2201.02.29\""), 0).unwrap().0, Val::StringLiteral(b("2201.02.29")));
    assert_eq!(quoted(b("\"2000.02.29\""), 0).unwrap().0, date(2000, 2, 29));
}

#[test]
fn date__decimal_separated_yyyy_mm_date__accepted() {
    assert_eq!(map_to_date(b("2200.01.01")), Ok(Date { year: 2200, month: 1, day: 1 }));
}

#[test]
fn date__3digit_year__accepted() {
    assert_eq!(map_to_date(b("200.01.01")), Ok(Date { year: 200, month: 1, day: 1 }));
}

#[test]
fn date__2digit_year__accepted() {
    assert_eq!(map_to_date(b("20.01.01")), Ok(Date { year: 20, month: 1, day: 1 }));
}

#[test]
fn date__1digit_year__accepted() {
    assert_eq!(map_to_date(b("2.01.01")), Ok(Date { year: 2, month: 1, day: 1 }));
}

#[test]
fn date_errors() {
    assert_eq!(map_to_date(b("2200.011")), Err(DateParseError { kind: DateErrorKind::Malformed }));
    assert_eq!(map_to_date(b("2200.01.01x")), Err(DateParseError { kind: DateErrorKind::Malformed }));
    assert_eq!(map_to_date(b("2200.00.01")), Err(DateParseError { kind: DateErrorKind::OutOfRange }));
    assert_eq!(map_to_date(b("2200.04.31")), Err(DateParseError { kind: DateErrorKind::OutOfRange }));
    assert_eq!(map_to_date(b("10000.01.01")), Err(DateParseError { kind: DateErrorKind::OutOfRange }));
}

#[test]
fn string_literal__string__accepted() {
    let text = "this is a string with a bun1234567890ch of special characters!@#$%^&*(_()";
    assert_eq!(string_literal(b(text), 0), (Val::StringLiteral(b(text)), text.len()));
}

#[test]
fn string_literal__decimal_separated_yyyy_mm_string_litteral__accepted() {
    for stop in ["\"", "=", "{", "}"] {
        assert_eq!(string_literal(b(stop), 0), (Val::StringLiteral(b("")), 0));
    }
    assert!(quoted(b("\"a=b\""), 0).is_err());
    assert_eq!(quoted(b("\"\""), 0), Ok((Val::StringLiteral(b("")), 2)));
}

#[test]
fn date__4digit_year__accepted() {
    assert_eq!(map_to_date(b("2200.01.01")), Ok(Date { year: 2200, month: 1, day: 1 }));
}

#[test]
fn keys_unquoted_and_quoted() {
    assert_eq!(unquoted_key(b("abc_1=2"), 0), Ok((b("abc_1"), 5)));
    assert!(unquoted_key(b("1abc"), 0).is_err());
    assert_eq!(quoted_key(b("\"a b\"=2"), 0), Ok((b("a b"), 5)));
    assert!(quoted_key(b("\"a b"), 0).is_err());
    assert_eq!(dict(b("a=1 b=2"), 0), Ok((Val::Dict(vec![(b("a"), Val::Integer(1)), (b("b"), Val::Integer(2))]), 7)));
}

#[test]
fn key__lowercase_with_underscore__accepted() {
    let text = "name_with_underscore____d";
    assert_eq!(key(b(text), 0), Ok((b(text), text.len())));
}

#[test]
fn bracketed__dict__dict() {
    let text = "{\n                first=\"first\"\n                second=\"second\"\n        }";
    let (v, e) = bracketed(b(text), 0).unwrap();
    assert_eq!(e, text.len());
    assert_eq!(
        v,
        Val::Dict(vec![
            (b("first"), Val::StringLiteral(b("first"))),
            (b("second"), Val::StringLiteral(b("second")))
        ])
    );
}

#[test]
fn bracketed__array__array() {
    let text = "{\n            0=\"first\"\n            1=\"second\"\n        }";
    let (v, _) = bracketed(b(text), 0).unwrap();
    assert_eq!(
        v,
        Val::Array(vec![Val::StringLiteral(b("first")), Val::StringLiteral(b("second"))])
    );
}

#[test]
fn bracketed__set__set() {
    let text = "{\n            \"first\"\n            \"second\"\n        }";
    let (v, _) = bracketed(b(text), 0).unwrap();
    assert_eq!(
        v,
        Val::List(vec![Val::StringLiteral(b("first")), Val::StringLiteral(b("second"))])
    );
}

#[test]
fn key_value__unquoted__accepted() {
    let text = "key=\"value\"\n                ";
    assert_eq!(key_value(b(text), 0), Ok(((b("key"), Val::StringLiteral(b("value"))), 11)));
}

#[test]
fn key_value__quoted__accepted() {
    let text = "\"key\"=0\n                ";
    assert_eq!(key_value(b(text), 0), Ok(((b("key"), Val::Integer(0)), 7)));
}

#[test]
fn key_value_with_spaces_around_equals() {
    assert_eq!(key_value(b("a = 1"), 0), Ok(((b("a"), Val::Integer(1)), 5)));
    assert_eq!(key_value(b("a 1").as_ref(), 0).unwrap_err().kind, ErrorKind::MissingDelimiter);
}

#[test]
fn basics() {
    let text = "version=\"Herbert v3.2.2\"\nrevision=83287\ndate=\"2200.05.01\"\nfloat=-0.123939887\n";
    assert_eq!(
        root(b(text)),
        Ok(Val::Dict(vec![
            (b("version"), Val::StringLiteral(b("Herbert v3.2.2"))),
            (b("revision"), Val::Integer(83287)),
            (b("date"), date(2200, 5, 1)),
            (b("float"), Val::Decimal(b("-0.123939887"))),
        ]))
    );
}

#[test]
fn set_numbers_same_line() {
    let text = "set_of_numbers={\n                40 41\n            }\n            ";
    let (k, v) = only_entry(root(b(text)).unwrap());
    assert_eq!(k, b("set_of_numbers"));
    assert_eq!(v, Val::List(vec![Val::Integer(40), Val::Integer(41)]));
}

#[test]
fn numbers_on_one_line_form_a_list() {
    assert_eq!(
        value(b("{ 40 41 }"), 0),
        Ok((Val::List(vec![Val::Integer(40), Val::Integer(41)]), 9))
    );
}

#[test]
fn space_not_new_line() {
    let text = "modules={\n                0=shipyard\t\t\t\t1=trading_hub\t\t\t}\n                ";
    let (_, v) = only_entry(root(b(text)).unwrap());
    assert_eq!(
        v,
        Val::Array(vec![Val::Identifier(b("shipyard")), Val::Identifier(b("trading_hub"))])
    );
}

#[test]
fn tab_separated_array_of_identifiers() {
    assert_eq!(
        value(b("{ 0=shipyard\t\t1=trading_hub }"), 0).unwrap().0,
        Val::Array(vec![Val::Identifier(b("shipyard")), Val::Identifier(b("trading_hub"))])
    );
}

fn intel_entry(tag: i64) -> Val<'static> {
    Val::List(vec![Val::NumberedDict(
        tag,
        vec![(b("intel"), Val::Integer(0)), (b("stale_intel"), Val::List(vec![]))],
    )])
}

#[test]
fn intel_numbered_dicts() {
    let text = "intel={\n    {\n        14 {\n            intel=0\n            stale_intel={\n            }\n        }\n    }\n    {\n        19 {\n            intel=0\n            stale_intel={\n            }\n        }\n    }\n}\n";
    let (k, v) = only_entry(root(b(text)).unwrap());
    assert_eq!(k, b("intel"));
    assert_eq!(v, Val::List(vec![intel_entry(14), intel_entry(19)]));
}

#[test]
fn intel_numbered_dicts_on_one_line() {
    let text = "intel={ { 14 { intel=0 stale_intel={} } } { 19 { intel=0 stale_intel={} } } }";
    let (_, v) = only_entry(root(b(text)).unwrap());
    assert_eq!(v, Val::List(vec![intel_entry(14), intel_entry(19)]));
}

#[test]
fn dict_of_dicts() {
    let text = "dict_of_dicts={\n    icon={\n        category=\"human\"\n        file=\"flag_human_9.dds\"\n    }\n    background={\n        category=\"backgrounds\"\n        file=\"00_solid.dds\"\n    }\n    colors={\n        \"blue\"\n        \"black\"\n        \"null\"\n        \"null\"\n    }\n}";
    let (_, v) = only_entry(root(b(text)).unwrap());
    assert_eq!(
        v,
        Val::Dict(vec![
            (
                b("icon"),
                Val::Dict(vec![
                    (b("category"), Val::StringLiteral(b("human"))),
                    (b("file"), Val::StringLiteral(b("flag_human_9.dds")))
                ])
            ),
            (
                b("background"),
                Val::Dict(vec![
                    (b("category"), Val::StringLiteral(b("backgrounds"))),
                    (b("file"), Val::StringLiteral(b("00_solid.dds")))
                ])
            ),
            (
                b("colors"),
                Val::List(vec![
                    Val::StringLiteral(b("blue")),
                    Val::StringLiteral(b("black")),
                    Val::StringLiteral(b("null")),
                    Val::StringLiteral(b("null"))
                ])
            ),
        ])
    );
}

#[test]
fn quoted__key__ok() {
    let text = "\"The name Of A Ship\"=0\n            ";
    assert_eq!(
        root(b(text)),
        Ok(Val::Dict(vec![(b("The name Of A Ship"), Val::Integer(0))]))
    );
}

#[test]
fn empty__set__set() {
    let text = "empty_set={}\n            ";
    assert_eq!(root(b(text)), Ok(Val::Dict(vec![(b("empty_set"), Val::List(vec![]))])));
}

#[test]
fn empty_body_is_an_empty_list() {
    assert_eq!(value(b("{}"), 0), Ok((Val::List(vec![]), 2)));
    assert_eq!(value(b("{ \n\t }"), 0), Ok((Val::List(vec![]), 6)));
}

#[test]
fn root__set_of_strings__accepted() {
    let text = "set_of_strings={\n  \"Ancient Relics Story Pack\"\n  \"Apocalypse\"\n}";
    assert_eq!(
        root(b(text)),
        Ok(Val::Dict(vec![(
            b("set_of_strings"),
            Val::List(vec![
                Val::StringLiteral(b("Ancient Relics Story Pack")),
                Val::StringLiteral(b("Apocalypse"))
            ])
        )]))
    );
}

#[test]
fn array__of__arrays() {
    let text = "array_of_arrays={ 0={ 0=\"a\" } 1={ 0=\"one\" } 2={ 0=\"two\" } }";
    let (_, v) = only_entry(root(b(text)).unwrap());
    assert_eq!(
        v,
        Val::Array(vec![
            Val::Array(vec![Val::StringLiteral(b("a"))]),
            Val::Array(vec![Val::StringLiteral(b("one"))]),
            Val::Array(vec![Val::StringLiteral(b("two"))]),
        ])
    );
}

#[test]
fn identifier__with__underscore() {
    let text = "identifier=identi_fire\n            ";
    assert_eq!(
        root(b(text)),
        Ok(Val::Dict(vec![(b("identifier"), Val::Identifier(b("identi_fire")))]))
    );
}

#[test]
fn dict__key_identifier_pairs__ok() {
    let text = "dict={\n    alpha=a\n    beta=b\n    cthulhu=ilhjok\n}";
    let (_, v) = only_entry(root(b(text)).unwrap());
    assert_eq!(
        v,
        Val::Dict(vec![
            (b("alpha"), Val::Identifier(b("a"))),
            (b("beta"), Val::Identifier(b("b"))),
            (b("cthulhu"), Val::Identifier(b("ilhjok"))),
        ])
    );
}

#[test]
fn duplicate_keys_are_kept_in_order() {
    let text = "a=1 b=2 a=3";
    assert_eq!(
        root(b(text)),
        Ok(Val::Dict(vec![
            (b("a"), Val::Integer(1)),
            (b("b"), Val::Integer(2)),
            (b("a"), Val::Integer(3)),
        ]))
    );
}

#[test]
fn array_is_ordered_by_index() {
    let text = "{ 2=c 0=a 1=b 0=z }";
    assert_eq!(
        value(b(text), 0).unwrap().0,
        Val::Array(vec![
            Val::Identifier(b("a")),
            Val::Identifier(b("z")),
            Val::Identifier(b("b")),
            Val::Identifier(b("c")),
        ])
    );
}

#[test]
fn members_need_whitespace_between_them() {
    assert_eq!(root(b("a=\"x\"b=1")).unwrap_err().kind, ErrorKind::Lexical);
    assert!(value(b("{ 1 2}"), 0).is_ok());
    assert!(value(b("{ \"a\"\"b\" }"), 0).is_err());
}

#[test]
fn unterminated_body_is_rejected() {
    assert_eq!(value(b("{ 1 2 "), 0).unwrap_err().kind, ErrorKind::Unterminated);
    assert_eq!(contents(b("x"), 0).unwrap_err().kind, ErrorKind::Unterminated);
    assert!(root(b("a={ b=1")).is_err());
}

#[test]
fn trailing_text_is_rejected() {
    assert!(root(b("a=1 }")).is_err());
    assert!(root(b("a=1\n\n")).is_ok());
    assert_eq!(root(b("")), Ok(Val::Dict(vec![])));
}

#[test]
fn set_of_collections_holds_braced_values_only() {
    assert_eq!(
        value(b("{ { a=1 } { 2 } }"), 0).unwrap().0,
        Val::List(vec![
            Val::Dict(vec![(b("a"), Val::Integer(1))]),
            Val::List(vec![Val::Integer(2)]),
        ])
    );
    assert!(value(b("{ { a=1 } x }"), 0).is_err());
}

#[test]
fn number_value_reads_index_and_value() {
    assert_eq!(number_value(b("12 = x"), 0), Ok(((12, Val::Identifier(b("x"))), 6)));
    assert!(number_value(b("-1=x"), 0).is_err());
}

#[test]
fn array__array_of_arrays__returns_map_of_key_array() {
    let text = "0={ 0=1 } 1={ 0=2 1=3 }";
    assert_eq!(
        array(b(text), 0),
        Ok((
            vec![
                Val::Array(vec![Val::Integer(1)]),
                Val::Array(vec![Val::Integer(2), Val::Integer(3)])
            ],
            text.len()
        ))
    );
}

#[test]
fn array__array_of_dicts__returns_map_of_key_dict() {
    let text = "1={ b=2 } 0={ a=1 }";
    assert_eq!(
        array(b(text), 0),
        Ok((
            vec![
                Val::Dict(vec![(b("a"), Val::Integer(1))]),
                Val::Dict(vec![(b("b"), Val::Integer(2))])
            ],
            text.len()
        ))
    );
}

#[test]
fn array__array_of_sets__returns_map_of_key_set() {
    let text = "0={ 1 2 } 1={ \"x\" }";
    assert_eq!(
        array(b(text), 0),
        Ok((
            vec![
                Val::List(vec![Val::Integer(1), Val::Integer(2)]),
                Val::List(vec![Val::StringLiteral(b("x"))])
            ],
            text.len()
        ))
    );
}

#[test]
fn set__set_of_arrays__returns_vec_of_arrays() {
    let text = "{ 0=a } { 0=b 1=c }";
    assert_eq!(
        stellarust::parser::set(b(text), 0, MemberKind::Bracketed),
        Ok((
            vec![
                Val::Array(vec![Val::Identifier(b("a"))]),
                Val::Array(vec![Val::Identifier(b("b")), Val::Identifier(b("c"))])
            ],
            text.len()
        ))
    );
}

#[test]
fn set__set_of_dicts__returns_vec_of_dicts() {
    let text = "{ a=1 }\n{ b=2 }";
    assert_eq!(
        stellarust::parser::set(b(text), 0, MemberKind::Bracketed),
        Ok((
            vec![
                Val::Dict(vec![(b("a"), Val::Integer(1))]),
                Val::Dict(vec![(b("b"), Val::Integer(2))])
            ],
            text.len()
        ))
    );
}

#[test]
fn set__set_of_sets__returns_vec_of_sets() {
    let text = "{ 1 } { }";
    assert_eq!(
        stellarust::parser::set(b(text), 0, MemberKind::Value),
        Ok((vec![Val::List(vec![Val::Integer(1)]), Val::List(vec![])], text.len()))
    );
}

#[test]
fn dict__dict_of_arrays__returns_map_of_key_array() {
    let text = "a={ 0=1 } b={ 0=2 }";
    assert_eq!(
        hash_map(b(text), 0),
        Ok((
            vec![
                (b("a"), Val::Array(vec![Val::Integer(1)])),
                (b("b"), Val::Array(vec![Val::Integer(2)]))
            ],
            text.len()
        ))
    );
}

#[test]
fn dict__dict_of_dicts__returns_map_of_key_dict() {
    let text = "a={ x=1 } b={ y=2 }";
    assert_eq!(
        hash_map(b(text), 0),
        Ok((
            vec![
                (b("a"), Val::Dict(vec![(b("x"), Val::Integer(1))])),
                (b("b"), Val::Dict(vec![(b("y"), Val::Integer(2))]))
            ],
            text.len()
        ))
    );
}

#[test]
fn dict__dict_of_sets__returns_map_of_key_set() {
    let text = "a={ 1 2 } b={ }";
    assert_eq!(
        hash_map(b(text), 0),
        Ok((
            vec![
                (b("a"), Val::List(vec![Val::Integer(1), Val::Integer(2)])),
                (b("b"), Val::List(vec![]))
            ],
            text.len()
        ))
    );
}

#[test]
fn key_value__array__returns_key_val_array() {
    assert_eq!(
        key_value(b("k={ 0=1 }"), 0),
        Ok(((b("k"), Val::Array(vec![Val::Integer(1)])), 9))
    );
}

#[test]
fn key_value__dict__returns_key_val_dict() {
    assert_eq!(
        key_value(b("k={ a=1 }"), 0),
        Ok(((b("k"), Val::Dict(vec![(b("a"), Val::Integer(1))])), 9))
    );
}

#[test]
fn key_value__set__returns_key_val_set() {
    assert_eq!(key_value(b("k={ 1 }"), 0), Ok(((b("k"), Val::List(vec![Val::Integer(1)])), 7)));
}

#[test]
fn number_value__number__array__returns_ordered_vec_arrays() {
    assert_eq!(
        number_value(b("3={ 1=b 0=a }"), 0),
        Ok(((3, Val::Array(vec![Val::Identifier(b("a")), Val::Identifier(b("b"))])), 13))
    );
}

#[test]
fn number_value__number__dict__returns_ordered_vec_dicts() {
    assert_eq!(
        number_value(b("0={ a=1 }"), 0),
        Ok(((0, Val::Dict(vec![(b("a"), Val::Integer(1))])), 9))
    );
}

#[test]
fn number_value__number__set__returns_ordered_vec_sets() {
    assert_eq!(
        number_value(b("7={ 1 2 }"), 0),
        Ok(((7, Val::List(vec![Val::Integer(1), Val::Integer(2)])), 9))
    );
}

#[test]
fn string_leaves_borrow_the_input() {
    let text = String::from("name=\"Eat My Shorts\" id=x1");
    let buffer = text.as_bytes();
    let range = buffer.as_ptr_range();
    match root(buffer).unwrap() {
        Val::Dict(entries) => {
            for (k, v) in entries.iter() {
                assert!(range.contains(&k.as_ptr()));
                match v {
                    Val::StringLiteral(s) | Val::Identifier(s) => {
                        assert!(range.contains(&s.as_ptr()))
                    }
                    _ => panic!(),
                }
            }
        }
        _ => panic!(),
    }
}

#[test]
fn parsing_twice_gives_the_same_tree() {
    let text = "a={ 1=x 0=y } b=\"2200.01.01\" c={ { 1 { k=v } } }";
    assert_eq!(root(b(text)), root(b(text)));
}

#[test]
fn errors_name_the_production_and_show_their_surroundings() {
    let text = b("a={ b=1 c }");
    let e = root(text).unwrap_err();
    assert_eq!(e.kind, ErrorKind::MissingDelimiter);
    assert_eq!(e.production, Production::KeyValue);
    assert_eq!(e.offset, 10);
    assert_eq!(error_context(text, &e), (b(" c "), b("}")));
    let e = root(b("x")).unwrap_err();
    assert_eq!(error_context(b("x"), &e), (b("x"), b("")));
}
