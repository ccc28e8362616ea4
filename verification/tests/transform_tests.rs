use parse::regex::transform::{to_thompson_postfix, ThompsonOp};

#[test]
fn concat_test() -> Result<(), &'static str> {
    let input = "abcdefg";
    let result = to_thompson_postfix(input)?;
    let mut expect = vec![ThompsonOp::Primary('a')];
    for c in input.chars().skip(1) {
        expect.push(ThompsonOp::Primary(c));
        expect.push(ThompsonOp::Concat);
    }

    assert_eq!(result, expect);

    Ok(())
}

#[test]
fn or_test_1() -> Result<(), &'static str> {
    // Concatenation binds tighter than alternation: `ab|c` is `(ab)|c`.
    let input = "ab|c";
    let result = to_thompson_postfix(input)?;
    let expect = vec![
        ThompsonOp::Primary('a'),
        ThompsonOp::Primary('b'),
        ThompsonOp::Concat,
        ThompsonOp::Primary('c'),
        ThompsonOp::Or,
    ];

    assert_eq!(result, expect);

    Ok(())
}

#[test]
fn or_test_2() -> Result<(), &'static str> {
    // `a|bc` is `a|(bc)`.
    let input = "a|bc";
    let result = to_thompson_postfix(input)?;
    let expect = vec![
        ThompsonOp::Primary('a'),
        ThompsonOp::Primary('b'),
        ThompsonOp::Primary('c'),
        ThompsonOp::Concat,
        ThompsonOp::Or,
    ];

    assert_eq!(result, expect);

    Ok(())
}

#[test]
fn asterisk_test_1() -> Result<(), &'static str> {
    // `ab*|c` is `(a(b*))|c`.
    let input = "ab*|c";
    let result = to_thompson_postfix(input)?;
    let expect = vec![
        ThompsonOp::Primary('a'),
        ThompsonOp::Primary('b'),
        ThompsonOp::Asterisk,
        ThompsonOp::Concat,
        ThompsonOp::Primary('c'),
        ThompsonOp::Or,
    ];

    assert_eq!(result, expect);

    Ok(())
}

#[test]
fn asterisk_test_2() -> Result<(), &'static str> {
    // `a|b*c` is `a|((b*)c)`.
    let input = "a|b*c";
    let result = to_thompson_postfix(input)?;
    let expect = vec![
        ThompsonOp::Primary('a'),
        ThompsonOp::Primary('b'),
        ThompsonOp::Asterisk,
        ThompsonOp::Primary('c'),
        ThompsonOp::Concat,
        ThompsonOp::Or,
    ];

    assert_eq!(result, expect);

    Ok(())
}

#[test]
fn paren_test_1() -> Result<(), &'static str> {
    let input = "a|(b*c)";
    let result = to_thompson_postfix(input)?;
    let expect = vec![
        ThompsonOp::Primary('a'),
        ThompsonOp::Primary('b'),
        ThompsonOp::Asterisk,
        ThompsonOp::Primary('c'),
        ThompsonOp::Concat,
        ThompsonOp::Or,
    ];

    assert_eq!(result, expect);

    Ok(())
}

#[test]
fn paren_test_2() -> Result<(), &'static str> {
    let input = "(ab)*|c";
    let result = to_thompson_postfix(input)?;
    let expect = vec![
        ThompsonOp::Primary('a'),
        ThompsonOp::Primary('b'),
        ThompsonOp::Concat,
        ThompsonOp::Asterisk,
        ThompsonOp::Primary('c'),
        ThompsonOp::Or,
    ];

    assert_eq!(result, expect);

    Ok(())
}

#[test]
fn paren_test_3() -> Result<(), &'static str> {
    // `12(ab)*|c#*` is `(12((ab)*)) | (c(#*))`.
    let input = "12(ab)*|c#*";
    let result = to_thompson_postfix(input)?;
    let expect = vec![
        ThompsonOp::Primary('1'),
        ThompsonOp::Primary('2'),
        ThompsonOp::Concat,
        ThompsonOp::Primary('a'),
        ThompsonOp::Primary('b'),
        ThompsonOp::Concat,
        ThompsonOp::Asterisk,
        ThompsonOp::Concat,
        ThompsonOp::Primary('c'),
        ThompsonOp::Primary('#'),
        ThompsonOp::Asterisk,
        ThompsonOp::Concat,
        ThompsonOp::Or,
    ];

    assert_eq!(result, expect);

    Ok(())
}

#[test]
fn paren_test_4() -> Result<(), &'static str> {
    // `12(ab)*|(c#)*` is `(12((ab)*)) | ((c#)*)`.
    let input = "12(ab)*|(c#)*";
    let result = to_thompson_postfix(input)?;
    let expect = vec![
        ThompsonOp::Primary('1'),
        ThompsonOp::Primary('2'),
        ThompsonOp::Concat,
        ThompsonOp::Primary('a'),
        ThompsonOp::Primary('b'),
        ThompsonOp::Concat,
        ThompsonOp::Asterisk,
        ThompsonOp::Concat,
        ThompsonOp::Primary('c'),
        ThompsonOp::Primary('#'),
        ThompsonOp::Concat,
        ThompsonOp::Asterisk,
        ThompsonOp::Or,
    ];

    assert_eq!(result, expect);

    Ok(())
}

#[test]
fn char_class_test_1() -> Result<(), &'static str> {
    let input = ".*abc";
    let result = to_thompson_postfix(input)?;
    let expect = vec![
        ThompsonOp::All,
        ThompsonOp::Asterisk,
        ThompsonOp::Primary('a'),
        ThompsonOp::Concat,
        ThompsonOp::Primary('b'),
        ThompsonOp::Concat,
        ThompsonOp::Primary('c'),
        ThompsonOp::Concat,
    ];

    assert_eq!(result, expect);

    Ok(())
}

#[test]
fn char_class_test_2() -> Result<(), &'static str> {
    let input = "\\.*abc";
    let result = to_thompson_postfix(input)?;
    let expect = vec![
        ThompsonOp::Primary('.'),
        ThompsonOp::Asterisk,
        ThompsonOp::Primary('a'),
        ThompsonOp::Concat,
        ThompsonOp::Primary('b'),
        ThompsonOp::Concat,
        ThompsonOp::Primary('c'),
        ThompsonOp::Concat,
    ];

    assert_eq!(result, expect);

    Ok(())
}

#[test]
fn char_class_test_3() -> Result<(), &'static str> {
    let input = "\\\\*abc";
    let result = to_thompson_postfix(input)?;
    let expect = vec![
        ThompsonOp::Primary('\\'),
        ThompsonOp::Asterisk,
        ThompsonOp::Primary('a'),
        ThompsonOp::Concat,
        ThompsonOp::Primary('b'),
        ThompsonOp::Concat,
        ThompsonOp::Primary('c'),
        ThompsonOp::Concat,
    ];

    assert_eq!(result, expect);

    Ok(())
}

#[test]
fn char_class_test_4() -> Result<(), &'static str> {
    let input = "(a.)*|b";
    let result = to_thompson_postfix(input)?;
    let expect = vec![
        ThompsonOp::Primary('a'),
        ThompsonOp::All,
        ThompsonOp::Concat,
        ThompsonOp::Asterisk,
        ThompsonOp::Primary('b'),
        ThompsonOp::Or,
    ];

    assert_eq!(result, expect);

    Ok(())
}
