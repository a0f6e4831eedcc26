use robotstxt::parser::RobotsTxtParser;
use robotstxt::parser::escape_pattern;

#[test]
fn test_parse_key_value() {
    let negative = ("", "", false);
    let positive = ("User-agent", "Googlebot", true);

    assert_eq!(negative, RobotsTxtParser::parse_key_value("# "));
    assert_eq!(negative, RobotsTxtParser::parse_key_value("# User-agent: Googlebot"));

    assert_eq!(positive, RobotsTxtParser::parse_key_value("User-agent: Googlebot"));
    assert_eq!(positive, RobotsTxtParser::parse_key_value("User-agent  Googlebot"));
    assert_eq!(positive, RobotsTxtParser::parse_key_value("User-agent \t Googlebot"));
    assert_eq!(positive, RobotsTxtParser::parse_key_value("User-agent\tGooglebot"));
    assert_eq!(positive, RobotsTxtParser::parse_key_value("User-agent: Googlebot # 123"));
    assert_eq!(positive, RobotsTxtParser::parse_key_value("User-agent\tGooglebot # 123"));
}

#[test]
fn test_escape_pattern() {
    assert_eq!("http://www.example.com", &escape_pattern("http://www.example.com"));
    assert_eq!("/a/b/c", &escape_pattern("/a/b/c"));
    assert_eq!("%AA", &escape_pattern("%aa"));
    assert_eq!("%AA", &escape_pattern("%aA"));
    assert_eq!("/Sanjos%C3%A9Sellers", &escape_pattern("/SanjoséSellers"));
    assert_eq!("%C3%A1", &escape_pattern("á"));
}

// Escaping is idempotent: a canonicalized pattern is left unchanged.
#[test]
fn test_escape_pattern_idempotent() {
    let samples = ["/SanjoséSellers", "%aa", "/a/b/c", "%zz%", "%a", "%%aa", "á%2f"];
    for s in samples {
        let once = escape_pattern(s);
        let twice = escape_pattern(&once);
        assert_eq!(once, twice);
    }
}

// A key whose value is empty is still a directive; a line without any
// separator is not.
#[test]
fn test_parse_key_value_edges() {
    assert_eq!(("Disallow", "", true), RobotsTxtParser::parse_key_value("Disallow:"));
    assert_eq!(("", "", false), RobotsTxtParser::parse_key_value("word"));
    assert_eq!(("", "", false), RobotsTxtParser::parse_key_value(""));
    // Whitespace separators only work with exactly one word after them.
    assert_eq!(("", "", false), RobotsTxtParser::parse_key_value("User-agent Googlebot News"));
    // A key that trims to empty is rejected.
    assert_eq!(("", "", false), RobotsTxtParser::parse_key_value(": value"));
    assert_eq!(("", "", false), RobotsTxtParser::parse_key_value(" : value"));
    assert_eq!(("", "", false), RobotsTxtParser::parse_key_value("  \t: value"));
}

// The line is trimmed before the separator is looked for, so leading
// whitespace does not defeat the whitespace-separator tolerance.
#[test]
fn test_parse_key_value_leading_whitespace() {
    assert_eq!(("key", "value", true), RobotsTxtParser::parse_key_value(" key value"));
    assert_eq!(("User-agent", "Googlebot", true), RobotsTxtParser::parse_key_value(
        "   User-agent Googlebot"
    ));
    assert_eq!(("User-agent", "Googlebot", true), RobotsTxtParser::parse_key_value(
        "\t User-agent: Googlebot"
    ));
}
