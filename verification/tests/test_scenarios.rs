use dfa_regex::{Error, Regex};

#[test]
fn single_symbol() {
    let re = Regex::new("a").unwrap();
    assert!(re.is_match("a"));
    assert!(!re.is_match(""));
    assert!(!re.is_match("aa"));
}

#[test]
fn union_of_concatenations() {
    let re = Regex::new("ab|cd").unwrap();
    assert!(re.is_match("ab"));
    assert!(re.is_match("cd"));
    assert!(!re.is_match("ac"));
    assert!(!re.is_match("a"));
}

#[test]
fn star_of_union() {
    let re = Regex::new("(ab|cd)*").unwrap();
    assert!(re.is_match(""));
    assert!(re.is_match("ab"));
    assert!(re.is_match("abab"));
    assert!(re.is_match("cdcdcd"));
    assert!(!re.is_match("abc"));
}

#[test]
fn plus_of_union() {
    let re = Regex::new("(ab|cd)+").unwrap();
    assert!(!re.is_match(""));
    assert!(re.is_match("ababababababab"));
}

#[test]
fn class_of_three_ranges() {
    let re = Regex::new("[a-zA-Z0-9]+").unwrap();
    assert!(re.is_match("a"));
    assert!(re.is_match("42"));
    assert!(re.is_match("AAAAAAA"));
    assert!(!re.is_match(""));
    assert!(!re.is_match("AAAAAAA!"));
}

#[test]
fn mail_address() {
    let re = Regex::new("[a-zA-Z0-9+_.-]+@[a-zA-Z0-9.-]+").unwrap();
    assert!(re.is_match("example.samplemail@gmail.com"));
    assert!(!re.is_match("sample?examplemail@gmail.com"));
}

#[test]
fn unclosed_class() {
    assert_eq!(
        Regex::new("[abc").unwrap_err(),
        Error::Syntax("Brackets at position 0 doesn't have a closing brackets!".to_string())
    );
}

#[test]
fn range_upside_down() {
    assert_eq!(
        Regex::new("[z-a]").unwrap_err(),
        Error::InvalidRange("Invalid Range: \"z\" is bigger than \"a\"!".to_string())
    );
}

#[test]
fn lone_opening_parenthesis() {
    assert_eq!(
        Regex::new("(").unwrap_err(),
        Error::Syntax("Invalid group: missing closing parenthesis!".to_string())
    );
}

#[test]
fn lone_star() {
    assert_eq!(
        Regex::new("*").unwrap_err(),
        Error::Syntax(
            "Invalid Closure: ClosureStar operator needs a preceding literal, e.g. \"a*\", \"(ab)*\", \"(a|c)*\"."
                .to_string()
        )
    );
}

#[test]
fn lone_union() {
    assert_eq!(
        Regex::new("|").unwrap_err(),
        Error::Syntax(
            "Invalid Union: the union operator \"|\" needs to be between two literals, e.g. \"ab|cd\", \"a|z\", \"1*|0*\"."
                .to_string()
        )
    );
}

#[test]
fn star_after_star() {
    assert_eq!(
        Regex::new("a**").unwrap_err(),
        Error::Syntax(
            "Invalid Closure: ClosureStar operator can't be followed by another Closure Star operator"
                .to_string()
        )
    );
}

#[test]
fn trailing_union() {
    let re = Regex::new("a|").unwrap();
    assert!(re.is_match(""));
    assert!(re.is_match("a"));
    assert!(!re.is_match("aa"));
}
