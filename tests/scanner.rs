use stellarust::scan::{
    alphabet_table, identifier_table, number_table, punctuation_table, reserved_table,
    space_table, string_litteral_content_table, take_while_simd, take_while_unrolled, token_table,
    is_alphabetic, is_digit, is_identifier_char, is_reserved, is_space, is_string_litteral_contents,
    is_token, CharClass,
};

#[test]
fn take_while_simd__string_with_leading_whitespace__whitespace_collected_remainder_returned() {
    let text = " \t\n\r|Stop this is a big long string";
    let (remainder, parsed) = take_while_simd(CharClass::Space, text.as_bytes());
    assert_eq!(remainder, "|Stop this is a big long string".as_bytes());
    assert_eq!(parsed, " \t\n\r".as_bytes());
}

#[test]
fn take_while_simd__string_with_many_leading_whitespace__whitespace_collected_remainder_returned() {
    let text = "\t\t\t\t\t\t\t\t\t\t\t\t\t\t\t\t\t\t\t\t|Stop this is a big long string";
    let (remainder, parsed) = take_while_simd(CharClass::Space, text.as_bytes());
    assert_eq!(remainder, "|Stop this is a big long string".as_bytes());
    assert_eq!(parsed, "\t\t\t\t\t\t\t\t\t\t\t\t\t\t\t\t\t\t\t\t".as_bytes());
}

#[test]
fn take_while_simd__short_string__whitespace_collected_remainder_returned() {
    let text = "\t\t\ts";
    let (remainder, parsed) = take_while_simd(CharClass::Space, text.as_bytes());
    assert_eq!(remainder, "s".as_bytes());
    assert_eq!(parsed, "\t\t\t".as_bytes());
}

#[test]
fn take_while_simd__all_white_space__whitespace_collected_remainder_returned() {
    let text = " \t\n\r";
    let (remainder, parsed) = take_while_simd(CharClass::Space, text.as_bytes());
    assert_eq!(remainder, "".as_bytes());
    assert_eq!(parsed, " \t\n\r".as_bytes());
}

#[test]
fn window_and_scalar_scans_agree_on_every_class() {
    let classes = [
        CharClass::Space,
        CharClass::Digit,
        CharClass::Identifier,
        CharClass::Alphabetic,
        CharClass::StringLiteralContents,
        CharClass::Token,
        CharClass::Reserved,
        CharClass::Punctuation,
    ];
    let mut inputs: Vec<Vec<u8>> = vec![
        b"".to_vec(),
        b"abc_123 = {}".to_vec(),
        b"                       x".to_vec(),
        b"0123456789012345678901234567890123".to_vec(),
        b"\x0b\x0c \t".to_vec(),
        b"Herbert v3.2.2 with spaces and \"quotes\" {}=".to_vec(),
    ];
    let all: Vec<u8> = (0..=255u8).collect();
    inputs.push(all.clone());
    for start in 0..=255u8 {
        let mut v = vec![start; 20];
        v.push(b'=');
        inputs.push(v);
    }
    for class in classes.iter() {
        for input in inputs.iter() {
            assert_eq!(
                take_while_simd(*class, input),
                take_while_unrolled(*class, input),
                "{:?} on {:?}",
                class,
                input
            );
        }
    }
}

#[test]
fn vertical_tab_and_form_feed_are_not_whitespace() {
    let text = "\x0b\x0c\x0b\x0c\x0b\x0c\x0b\x0c\x0b\x0c\x0b\x0c\x0b\x0c\x0b\x0c";
    let (remainder, parsed) = take_while_simd(CharClass::Space, text.as_bytes());
    assert_eq!(parsed.len(), 0);
    assert_eq!(remainder.len(), 16);
}

#[test]
fn tables_hold_their_classes() {
    let space = space_table();
    assert!(space[b' ' as usize] && space[b'\t' as usize] && space[b'\n' as usize] && space[b'\r' as usize]);
    assert_eq!(space.iter().filter(|b| **b).count(), 4);
    let digits = number_table();
    assert_eq!(digits.iter().filter(|b| **b).count(), 10);
    assert!(digits[b'7' as usize] && !digits[b'a' as usize]);
    let ident = identifier_table();
    assert_eq!(ident.iter().filter(|b| **b).count(), 63);
    assert!(ident[b'_' as usize] && !ident[b'-' as usize]);
    let alpha = alphabet_table();
    assert_eq!(alpha.iter().filter(|b| **b).count(), 52);
    let tokens = token_table();
    assert!(tokens[b'=' as usize] && tokens[b'{' as usize] && tokens[b'}' as usize]);
    assert_eq!(tokens.iter().filter(|b| **b).count(), 3);
    let reserved = reserved_table();
    assert!(reserved[b'"' as usize]);
    assert_eq!(reserved.iter().filter(|b| **b).count(), 4);
    let punct = punctuation_table();
    assert_eq!(punct.iter().filter(|b| **b).count(), 32);
    let contents = string_litteral_content_table();
    assert!(contents[b' ' as usize] && contents[b'.' as usize] && contents[b'\n' as usize]);
    assert!(!contents[b'"' as usize] && !contents[b'=' as usize] && !contents[b'{' as usize]);
    assert!(!contents[0x80]);
    assert_eq!(contents.iter().filter(|b| **b).count(), 95 - 4 + 3);
}

#[test]
fn byte_predicates() {
    assert!(is_space(b'\t') && !is_space(b'x'));
    assert!(is_digit(b'9') && !is_digit(b'a'));
    assert!(is_identifier_char(b'_') && is_identifier_char(b'Z') && !is_identifier_char(b'-'));
    assert!(is_alphabetic(b'q') && !is_alphabetic(b'_'));
    assert!(is_token(b'=') && !is_token(b'"'));
    assert!(is_reserved(b'"') && !is_reserved(b'.'));
    assert!(is_string_litteral_contents(b' ') && !is_string_litteral_contents(b'}'));
}
