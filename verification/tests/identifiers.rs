use steel_parser::ast::{Identifier, NameRules, Number, Rejection, Type};

#[test]
fn accepts_letters_digits_and_underscores() {
    for name in ["x", "X", "abc", "a1", "a_b", "_", "_x", "__9", "camelCase", "Z0_z"] {
        let id = Identifier::new(name);
        assert_eq!(id.as_ref().map(|i| i.as_str()), Some(name), "{}", name);
    }
}

#[test]
fn rejects_the_empty_name() {
    assert_eq!(Identifier::new(""), None);
}

#[test]
fn rejects_a_leading_digit() {
    assert_eq!(Identifier::new("1"), None);
    assert_eq!(Identifier::new("1a"), None);
    assert_eq!(Identifier::new("9_"), None);
}

#[test]
fn rejects_other_characters() {
    for name in ["a-b", "a b", " a", "a.", "a+", "é", "aé", "a\n", "naïve", "x\"", "a/b"] {
        assert_eq!(Identifier::new(name), None, "{}", name);
    }
}

#[test]
fn leading_underscore_is_a_choice() {
    let strict = NameRules { leading_underscore: false };
    let lenient = NameRules { leading_underscore: true };
    assert_eq!(NameRules::standard(), lenient);
    assert_eq!(Identifier::with_rules("_x", strict), None);
    assert_eq!(Identifier::with_rules("_", strict), None);
    assert_eq!(Identifier::with_rules("_x", lenient).unwrap().as_str(), "_x");
    assert_eq!(Identifier::with_rules("x_", strict).unwrap().as_str(), "x_");
    assert_eq!(Identifier::with_rules("1x", lenient), None);
}

#[test]
fn equal_names_are_equal_identifiers() {
    assert_eq!(Identifier::new("abc"), Identifier::new("abc"));
    assert_ne!(Identifier::new("abc"), Identifier::new("abd"));
    let id = Identifier::new("abc").unwrap();
    assert_eq!(id.clone(), id);
}

#[test]
fn a_type_holds_its_name() {
    let t = Type::new(Identifier::new("Int").unwrap());
    assert_eq!(t.iden().as_str(), "Int");
    assert_eq!(t, Type::new(Identifier::new("Int").unwrap()));
}

#[test]
fn number_literals() {
    for text in ["0", "7", "42", "007", "1.5", "0.0", "12.345", "10.0"] {
        assert_eq!(Number::new(text).map(|n| n.as_str().to_string()), Some(text.to_string()));
    }
    for text in ["", ".", "1.", ".5", "1..2", "1.2.3", "a", "1a", "1.a", "-1", "1 ", "1e5", "٣"] {
        assert_eq!(Number::new(text), None, "{}", text);
    }
}

#[test]
fn a_rejection_has_its_reason() {
    let lenient = NameRules::standard();
    let strict = NameRules { leading_underscore: false };
    assert_eq!(Identifier::check("abc", lenient).unwrap().as_str(), "abc");
    assert_eq!(Identifier::check("", lenient), Err(Rejection::Empty));
    assert_eq!(Identifier::check("a-b+c", lenient), Err(Rejection::Contains('-')));
    assert_eq!(Identifier::check("1a", lenient), Err(Rejection::StartsWith('1')));
    assert_eq!(Identifier::check("_a", strict), Err(Rejection::StartsWith('_')));
    assert_eq!(Identifier::check("_a", lenient).unwrap().as_str(), "_a");
}

#[test]
fn the_characters_are_looked_at_before_the_start() {
    assert_eq!(Identifier::check("1a b", NameRules::standard()), Err(Rejection::Contains(' ')));
    assert_eq!(
        Identifier::check("_é", NameRules { leading_underscore: false }),
        Err(Rejection::Contains('é'))
    );
}
