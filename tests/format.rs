use stellarust::format::format_val;
use stellarust::parser::root;
use stellarust::value::{Date, Val};

fn text(v: &Val) -> String {
    let mut out = Vec::new();
    format_val(&mut out, v);
    String::from_utf8(out).unwrap()
}

fn b(s: &str) -> &[u8] {
    s.as_bytes()
}

#[test]
fn format_integer() {
    let mut out = Vec::new();
    stellarust::format::format_integer(&mut out, 0);
    out.push(b' ');
    stellarust::format::format_integer(&mut out, -234);
    out.push(b' ');
    stellarust::format::format_integer(&mut out, i64::MIN);
    assert_eq!(String::from_utf8(out).unwrap(), "0 -234 -9223372036854775808");
}

#[test]
fn format_decimal() {
    assert_eq!(text(&Val::Decimal(b("0.0"))), "0.0");
}

#[test]
fn format_identifier() {
    assert_eq!(text(&Val::Identifier(b("identifier"))), "identifier");
}

#[test]
fn format_string_literal() {
    assert_eq!(text(&Val::StringLiteral(b("String Litteral"))), "\"String Litteral\"");
}

#[test]
fn format_date() {
    let mut out = Vec::new();
    stellarust::format::format_date(&mut out, &Date { year: 2021, month: 1, day: 1 });
    assert_eq!(String::from_utf8(out).unwrap(), "\"2021.01.01\"");
}

#[test]
fn format_set() {
    let v = Val::List(vec![Val::Integer(0), Val::Integer(1)]);
    assert_eq!(text(&v), "{ 0 1 }");
    assert_eq!(text(&Val::List(vec![])), "{ }");
}

#[test]
fn format_dict() {
    let v = Val::Dict(vec![
        (b("key"), Val::Integer(0)),
        (b("dict"), Val::Dict(vec![(b("key"), Val::Integer(0))])),
    ]);
    assert_eq!(text(&v), "{ \"key\"=0 \"dict\"={ \"key\"=0 } }");
}

#[test]
fn format_NumberedDict() {
    let v = Val::List(vec![Val::NumberedDict(-234, vec![(b("key"), Val::Integer(0))])]);
    assert_eq!(text(&v), "{ -234 { \"key\"=0 } }");
}

#[test]
fn format_array_numbers_members_from_zero() {
    let v = Val::Array(vec![Val::Identifier(b("a")), Val::Identifier(b("b"))]);
    assert_eq!(text(&v), "{ 0=a 1=b }");
}

#[test]
fn canonical_text_reads_back_to_the_same_tree() {
    let source = "version=\"Herbert v3.2.2\"\nrevision=83287\ndate=\"2200.05.01\"\nfloat=-0.123939887\nintel={ { 14 { intel=0 stale_intel={ a=1 } } } }\narr={ 1=b 0=a }\nset={ 40 41 }";
    let tree = root(b(source)).unwrap();
    let canonical = match &tree {
        Val::Dict(entries) => stellarust::format::format_document(entries),
        _ => panic!(),
    };
    assert!(String::from_utf8(canonical.clone()).unwrap().starts_with("\"version\"=\"Herbert v3.2.2\"\n\"revision\"=83287\n"));
    let again = root(&canonical).unwrap();
    assert_eq!(again, tree);
}

#[test]
fn get_key_value_pair_strings_quotes_the_key() {
    let mut out = Vec::new();
    stellarust::format::get_key_value_pair_strings(&mut out, b("name"), &Val::StringLiteral(b("Eat My Shorts")));
    assert_eq!(String::from_utf8(out).unwrap(), "\"name\"=\"Eat My Shorts\"");
}
