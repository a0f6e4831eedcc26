use robotstxt::DefaultMatcher;
use robotstxt::get_path_params_query;
use robotstxt::matcher::LongestMatchRobotsMatchStrategy;
use robotstxt::matcher::RobotsMatchStrategy;

#[test]
fn test_extract_user_agent() {
    // Example: 'Googlebot/2.1' becomes 'Googlebot'
    assert_eq!("Googlebot", DefaultMatcher::extract_user_agent("Googlebot/2.1"));
    assert_eq!("Googlebot", DefaultMatcher::extract_user_agent("Googlebot"));
    assert_eq!("Googlebot-", DefaultMatcher::extract_user_agent("Googlebot-"));
    assert_eq!("Googlebot_", DefaultMatcher::extract_user_agent("Googlebot_"));
    assert_eq!("Googlebot_", DefaultMatcher::extract_user_agent("Googlebot_2.1"));
    assert_eq!("", DefaultMatcher::extract_user_agent("1Googlebot_2.1"));
    assert_eq!("Goo", DefaultMatcher::extract_user_agent("Goo1glebot_2.1"));
}

#[test]
fn test_is_valid_user_agent_to_obey() {
    assert!(DefaultMatcher::is_valid_user_agent_to_obey("Foobot"));
    assert!(DefaultMatcher::is_valid_user_agent_to_obey("Foobot-Bar"));
    assert!(DefaultMatcher::is_valid_user_agent_to_obey("Foo_Bar"));
    assert!(!DefaultMatcher::is_valid_user_agent_to_obey(""));
    assert!(!DefaultMatcher::is_valid_user_agent_to_obey("ツ"));
    assert!(!DefaultMatcher::is_valid_user_agent_to_obey("Foobot*"));
    assert!(!DefaultMatcher::is_valid_user_agent_to_obey(" Foobot "));
    assert!(!DefaultMatcher::is_valid_user_agent_to_obey("Foobot/2.1"));
    assert!(!DefaultMatcher::is_valid_user_agent_to_obey("Foobot Bar"));
}

// Glob matching: `*` spans path segments, and `$` anchors the pattern at
// the end of the path.
#[test]
fn test_pattern_match_wildcards() {
    assert!(LongestMatchRobotsMatchStrategy::matches("/", "/"));
    assert!(LongestMatchRobotsMatchStrategy::matches("/abc", "/"));
    assert!(!LongestMatchRobotsMatchStrategy::matches("/", "/abc"));
    assert!(LongestMatchRobotsMatchStrategy::matches(
        "/google/robotstxt/tree/master",
        "/*/*/tree/master"
    ));
    assert!(LongestMatchRobotsMatchStrategy::matches(
        "/google/robotstxt/tree/master/index.html",
        "/*/*/tree/master"
    ));
    assert!(LongestMatchRobotsMatchStrategy::matches(
        "/google/robotstxt/tree/master",
        "/*/*/tree/master$"
    ));
    assert!(!LongestMatchRobotsMatchStrategy::matches(
        "/google/robotstxt/tree/master/abc",
        "/*/*/tree/master$"
    ));
    assert!(!LongestMatchRobotsMatchStrategy::matches(
        "/google/robotstxt/tree/abc",
        "/*/*/tree/master"
    ));
}

// A pattern without `*` or `$` matches exactly the paths it prefixes.
#[test]
fn test_pattern_match_plain_prefix() {
    assert!(LongestMatchRobotsMatchStrategy::matches("/foo/bar", "/foo"));
    assert!(LongestMatchRobotsMatchStrategy::matches("/foo", "/foo"));
    assert!(!LongestMatchRobotsMatchStrategy::matches("/fo", "/foo"));
    assert!(!LongestMatchRobotsMatchStrategy::matches("/bar/foo", "/foo"));
}

// A non-negative match priority is the pattern's character count.
#[test]
fn test_match_priority_is_pattern_len() {
    let strategy = LongestMatchRobotsMatchStrategy;
    assert_eq!(4, strategy.match_allow("/foo/bar", "/foo"));
    assert_eq!(-1, strategy.match_allow("/bar", "/foo"));
    assert_eq!(2, strategy.match_disallow("/foo", "/*"));
    assert_eq!(-1, strategy.match_disallow("/foo", "/foo$x"));
}

#[test]
fn test_path_params_query_cases() {
    let f = get_path_params_query;
    assert_eq!("/", f(""));
    assert_eq!("/", f("http://www.example.com"));
    assert_eq!("/", f("http://www.example.com/"));
    assert_eq!("/a", f("http://www.example.com/a"));
    assert_eq!("/a/", f("http://www.example.com/a/"));
    assert_eq!("/a/b?c=http://d.e/", f("http://www.example.com/a/b?c=http://d.e/"));
    assert_eq!("/a/b?c=d&e=f", f("http://www.example.com/a/b?c=d&e=f#fragment"));
    assert_eq!("/", f("example.com"));
    assert_eq!("/", f("example.com/"));
    assert_eq!("/a", f("example.com/a"));
    assert_eq!("/a/", f("example.com/a/"));
    assert_eq!("/a/b?c=d&e=f", f("example.com/a/b?c=d&e=f#fragment"));
    assert_eq!("/", f("a"));
    assert_eq!("/", f("a/"));
    assert_eq!("/a", f("/a"));
    assert_eq!("/b", f("a/b"));
    assert_eq!("/?a", f("example.com?a"));
    assert_eq!("/a;b", f("example.com/a;b#c"));
    assert_eq!("/b/c", f("//a/b/c"));
}

// Path extraction always yields something that begins with a slash.
#[test]
fn test_path_always_starts_with_slash() {
    let inputs = ["", "x", "#", "http://", "?q", ";p", "\u{1F600}", "a#b/c", "://"];
    for url in inputs {
        let p = get_path_params_query(url);
        assert!(p.starts_with('/'), "path for {:?} was {:?}", url, p);
    }
}

// Scenario: a one-rule document disallowing everything.
#[test]
fn test_simple_disallow() {
    let robotstxt = "user-agent: FooBot\ndisallow: /\n";
    let mut matcher = DefaultMatcher::default();
    assert!(!matcher.one_agent_allowed_by_robots(robotstxt, "FooBot", "http://foo.bar/"));
}

// Scenario: the longest match wins, so a more specific Allow overrides a
// shorter Disallow.
#[test]
fn test_longest_match_wins() {
    let robotstxt = "user-agent: FooBot\ndisallow: /\nallow: /foo\n";
    let mut matcher = DefaultMatcher::default();
    assert!(matcher.one_agent_allowed_by_robots(robotstxt, "FooBot", "http://foo.bar/foo/bar"));
    // Equal priorities tie in favour of allowing.
    let tied = "user-agent: FooBot\ndisallow: /x/\nallow: /y/\n";
    let mut matcher = DefaultMatcher::default();
    assert!(!matcher.one_agent_allowed_by_robots(tied, "FooBot", "http://foo.bar/x/y"));
    let really_tied = "user-agent: FooBot\ndisallow: /x/\nallow: /x/\n";
    let mut matcher = DefaultMatcher::default();
    assert!(matcher.one_agent_allowed_by_robots(really_tied, "FooBot", "http://foo.bar/x/y"));
}

// Scenario: a specific block that imposes nothing allows, even when a
// global block disallows everything.
#[test]
fn test_specific_block_overrides_global() {
    let robotstxt = "user-agent: *\ndisallow: /\nuser-agent: FooBot\nallow: /foo\n";
    let mut matcher = DefaultMatcher::default();
    assert!(matcher.one_agent_allowed_by_robots(robotstxt, "FooBot", "http://foo.bar/bar"));
    let mut matcher = DefaultMatcher::default();
    assert!(!matcher.one_agent_allowed_by_robots(robotstxt, "BarBot", "http://foo.bar/bar"));
}

// The matcher can be reused across documents; each parse clears its state.
#[test]
fn test_matcher_reuse_is_deterministic() {
    let deny = "user-agent: FooBot\ndisallow: /\n";
    let allow_all = "user-agent: FooBot\nallow: /\n";
    let mut matcher = DefaultMatcher::default();
    let first = matcher.one_agent_allowed_by_robots(deny, "FooBot", "http://foo.bar/x");
    assert!(matcher.one_agent_allowed_by_robots(allow_all, "FooBot", "http://foo.bar/x"));
    let again = matcher.one_agent_allowed_by_robots(deny, "FooBot", "http://foo.bar/x");
    assert_eq!(first, again);
    assert!(!first);
}

// User-agent matching is case-insensitive and stops at the first character
// that cannot appear in an agent token.
#[test]
fn test_user_agent_case_and_suffix() {
    let robotstxt = "User-agent: FOOBOT\nDisallow: /\n";
    let mut matcher = DefaultMatcher::default();
    assert!(!matcher.one_agent_allowed_by_robots(robotstxt, "foobot", "http://foo.bar/"));
    let versioned = "User-agent: FooBot/1.0\nDisallow: /\n";
    let mut matcher = DefaultMatcher::default();
    assert!(!matcher.one_agent_allowed_by_robots(versioned, "FooBot", "http://foo.bar/"));
}

// A `*` agent followed by more text still opens the global block when
// whitespace follows the star.
#[test]
fn test_global_agent_with_trailing_text() {
    let with_space = "User-agent: * baz\nDisallow: /\n";
    let mut matcher = DefaultMatcher::default();
    assert!(!matcher.one_agent_allowed_by_robots(with_space, "FooBot", "http://foo.bar/"));
    let without_space = "User-agent: *baz\nDisallow: /\n";
    let mut matcher = DefaultMatcher::default();
    assert!(matcher.one_agent_allowed_by_robots(without_space, "FooBot", "http://foo.bar/"));
}

// An Allow value ending in /index.htm or /index.html is retried as the
// end-anchored directory pattern; other names are not.
#[test]
fn test_index_htm_normalization() {
    let robotstxt = "User-agent: FooBot\nDisallow: /x/\nAllow: /x/index.htm\n";
    let mut matcher = DefaultMatcher::default();
    assert!(matcher.one_agent_allowed_by_robots(robotstxt, "FooBot", "http://foo.bar/x/"));
    let mut matcher = DefaultMatcher::default();
    assert!(!matcher.one_agent_allowed_by_robots(robotstxt, "FooBot", "http://foo.bar/x/y"));

    let html = "User-agent: FooBot\nDisallow: /x/\nAllow: /x/index.html\n";
    let mut matcher = DefaultMatcher::default();
    assert!(matcher.one_agent_allowed_by_robots(html, "FooBot", "http://foo.bar/x/"));

    // A name that merely begins with index.htm earns no retry.
    let other = "User-agent: FooBot\nDisallow: /x/\nAllow: /x/index.htmx\n";
    let mut matcher = DefaultMatcher::default();
    assert!(!matcher.one_agent_allowed_by_robots(other, "FooBot", "http://foo.bar/x/"));
}

// A line beginning with whitespace is still a directive once trimmed.
#[test]
fn test_leading_whitespace_directive() {
    let robotstxt = "User-agent: FooBot\n  disallow /\n";
    let mut matcher = DefaultMatcher::default();
    assert!(!matcher.one_agent_allowed_by_robots(robotstxt, "FooBot", "http://foo.bar/x"));
}

// Accepted misspellings of Disallow are obeyed.
#[test]
fn test_disallow_typos() {
    for key in ["disalow", "dissallow", "dissalow", "diasllow", "disallaw"] {
        let doc = format!("user-agent: FooBot\n{}: /\n", key);
        let mut matcher = DefaultMatcher::default();
        assert!(
            !matcher.one_agent_allowed_by_robots(&doc, "FooBot", "http://foo.bar/x"),
            "typo {} not obeyed",
            key
        );
    }
}

// Patterns in the document are escaped before matching, so a raw UTF-8
// pattern matches the percent-encoded URL path.
#[test]
fn test_pattern_escaping_applies() {
    let robotstxt = "User-agent: FooBot\nDisallow: /á\n";
    let mut matcher = DefaultMatcher::default();
    assert!(!matcher.one_agent_allowed_by_robots(robotstxt, "FooBot", "http://foo.bar/%C3%A1x"));
}

// A document with directives but no User-agent line allows everything: the
// rules never apply to anyone.
#[test]
fn test_no_user_agent_allows_all() {
    let robotstxt = "disallow: /\nallow: /x\nsitemap: http://a/b\n";
    let mut matcher = DefaultMatcher::default();
    assert!(matcher.one_agent_allowed_by_robots(robotstxt, "FooBot", "http://foo.bar/"));
}

// The empty document allows everything.
#[test]
fn test_empty_document_allows_all() {
    let mut matcher = DefaultMatcher::default();
    assert!(matcher.one_agent_allowed_by_robots("", "FooBot", "http://foo.bar/"));
}

// Truncation keeps a prefix of an overlong line: once one character does
// not fit the byte budget, nothing after it is retained, not even a
// narrower character that would still fit.
#[test]
fn test_overlong_line_is_truncated_to_a_prefix() {
    // The Disallow line reaches 16662 bytes, then holds a three-byte
    // character that would overflow the 16664-byte budget, then one more
    // ASCII character. Both trailing characters must be dropped, leaving
    // the same pattern the Allow line names; the tie is then allowed.
    let body = format!("/{}", "a".repeat(16651));
    let mut doc = String::from("User-agent: FooBot\n");
    doc.push_str("Disallow: ");
    doc.push_str(&body);
    doc.push('\u{20AC}');
    doc.push('a');
    doc.push('\n');
    doc.push_str("Allow: ");
    doc.push_str(&body);
    doc.push('\n');
    let url = format!("http://foo.bar/{}", "a".repeat(16652));
    let mut matcher = DefaultMatcher::default();
    assert!(matcher.one_agent_allowed_by_robots(&doc, "FooBot", &url));
}

// Multiple user agents can be asked about at once; any of them matching a
// block makes it specific.
#[test]
fn test_multiple_agents() {
    let robotstxt = "user-agent: BarBot\ndisallow: /\n";
    let mut matcher = DefaultMatcher::default();
    let agents = vec!["FooBot", "BarBot"];
    assert!(!matcher.allowed_by_robots(robotstxt, agents, "http://foo.bar/x"));
}
