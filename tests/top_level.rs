use stellarust::value::{Date, Val};

fn b(s: &str) -> &[u8] {
    s.as_bytes()
}

#[test]
fn value() {
    assert_eq!(stellarust::parser::value(b("\"2200.05.01\""), 0), Ok((Val::Date(Date { year: 2200, month: 5, day: 1 }), 12)));
    assert_eq!(stellarust::parser::value(b("-3.5"), 0), Ok((Val::Decimal(b("-3.5")), 4)));
    assert_eq!(stellarust::parser::value(b("yes"), 0), Ok((Val::Identifier(b("yes")), 3)));
    assert!(stellarust::parser::value(b(""), 0).is_err());
    assert!(stellarust::parser::value(b("}"), 0).is_err());
}

#[test]
fn root() {
    let text = "a=1\nb={ c=2 }\n";
    assert_eq!(
        stellarust::parser::root(b(text)),
        Ok(Val::Dict(vec![
            (b("a"), Val::Integer(1)),
            (b("b"), Val::Dict(vec![(b("c"), Val::Integer(2))])),
        ]))
    );
}

