use robotstxt::DefaultMatcher;
use robotstxt::RobotsParseHandler;
use robotstxt::parse_robotstxt;

#[derive(Default)]
struct RobotsStatsReporter {
    last_line_seen: u32,
    valid_directives: u32,
    unknown_directives: u32,
    sitemap: String,
}

impl RobotsStatsReporter {
    fn digest(&mut self, line_num: u32) {
        assert!(line_num >= self.last_line_seen);
        self.last_line_seen = line_num;
        self.valid_directives += 1;
    }
}

impl RobotsParseHandler for RobotsStatsReporter {
    fn handle_robots_start(&mut self) {
        self.last_line_seen = 0;
        self.valid_directives = 0;
        self.unknown_directives = 0;
        self.sitemap.clear();
    }

    fn handle_robots_end(&mut self) {}

    fn handle_user_agent(&mut self, line_num: u32, _user_agent: &str) {
        self.digest(line_num);
    }

    fn handle_allow(&mut self, line_num: u32, _value: &str) {
        self.digest(line_num);
    }

    fn handle_disallow(&mut self, line_num: u32, _value: &str) {
        self.digest(line_num);
    }

    fn handle_sitemap(&mut self, line_num: u32, value: &str) {
        self.digest(line_num);
        self.sitemap.push_str(value);
    }

    // Any other unrecognized name/value pairs.
    fn handle_unknown_action(&mut self, line_num: u32, _action: &str, _value: &str) {
        self.last_line_seen = line_num;
        self.unknown_directives += 1;
    }
}

#[test]
// Different kinds of line endings are all supported: %x0D / %x0A / %x0D.0A
fn test_lines_numbers_are_counted_correctly() {
    let mut report = RobotsStatsReporter::default();
    let unix_file = "User-Agent: foo\n\
        Allow: /some/path\n\
        User-Agent: bar\n\
        \n\
        \n\
        Disallow: /\n";
    parse_robotstxt(unix_file, &mut report);
    assert_eq!(4, report.valid_directives);
    assert_eq!(6, report.last_line_seen);

    let mac_file = "User-Agent: foo\r\
        Allow: /some/path\r\
        User-Agent: bar\r\
        \r\
        \r\
        Disallow: /\r";
    parse_robotstxt(mac_file, &mut report);
    assert_eq!(4, report.valid_directives);
    assert_eq!(6, report.last_line_seen);

    let no_final_new_line = "User-Agent: foo\n\
        Allow: /some/path\n\
        User-Agent: bar\n\
        \n\
        \n\
        Disallow: /";
    parse_robotstxt(no_final_new_line, &mut report);
    assert_eq!(4, report.valid_directives);
    assert_eq!(6, report.last_line_seen);

    let mixed_file = "User-Agent: foo\n\
        Allow: /some/path\r\n\
        User-Agent: bar\n\
        \r\n\
        \n\
        Disallow: /";
    parse_robotstxt(mixed_file, &mut report);
    assert_eq!(4, report.valid_directives);
    assert_eq!(6, report.last_line_seen);
}

#[test]
// BOM characters are unparseable and thus skipped. The rules following the
// line are used.
fn test_utf8_byte_order_mark_is_skipped() {
    let mut report = RobotsStatsReporter::default();
    let utf8_file_full_bom = "\u{EF}\u{BB}\u{BF}\
        User-Agent: foo\n\
        Allow: /AnyValue\n";
    parse_robotstxt(utf8_file_full_bom, &mut report);
    assert_eq!(2, report.valid_directives);
    assert_eq!(0, report.unknown_directives);

    // We allow as well partial ByteOrderMarks.
    let utf8_file_partial_2bom = "\u{EF}\u{BB}\
        User-Agent: foo\n\
        Allow: /AnyValue\n";
    parse_robotstxt(utf8_file_partial_2bom, &mut report);
    assert_eq!(2, report.valid_directives);
    assert_eq!(0, report.unknown_directives);

    let utf8_file_partial_1bom = "\u{EF}\
        User-Agent: foo\n\
        Allow: /AnyValue\n";
    parse_robotstxt(utf8_file_partial_1bom, &mut report);
    assert_eq!(2, report.valid_directives);
    assert_eq!(0, report.unknown_directives);

    // If the BOM is not the right sequence, the first line looks like garbage
    // that is skipped.
    let utf8_file_broken_bom = "\u{EF}\u{11}\u{BF}\
        User-Agent: foo\n\
        Allow: /AnyValue\n";
    parse_robotstxt(utf8_file_broken_bom, &mut report);
    assert_eq!(1, report.valid_directives);
    // We get one broken line.
    assert_eq!(1, report.unknown_directives);

    // Some other messed up file: BOMs only valid in the beginning of the file.
    let utf8_bom_somewhere_in_middle_of_file = "User-Agent: foo\n\
        \u{EF}\u{BB}\u{BF}\
        Allow: /AnyValue\n";
    parse_robotstxt(utf8_bom_somewhere_in_middle_of_file, &mut report);
    assert_eq!(1, report.valid_directives);
    assert_eq!(1, report.unknown_directives);
}

#[test]
// Google specific: the I-D allows any line that crawlers might need, such as
// sitemaps, which Google supports.
fn test_non_standard_line_example_sitemap() {
    let mut report = RobotsStatsReporter::default();

    {
        let sitemap_loc = "http://foo.bar/sitemap.xml";
        let mut robotstxt: String = "User-Agent: foo\n\
        Allow: /some/path\n\
        User-Agent: bar\n\
        \n\
        \n"
        .into();
        robotstxt.push_str(&format!("Sitemap: {}\n", sitemap_loc));

        parse_robotstxt(&robotstxt, &mut report);
        assert_eq!(sitemap_loc, report.sitemap.as_str());
    }

    {
        // A sitemap line may appear anywhere in the file.
        let mut robotstxt = String::new();
        let sitemap_loc = "http://foo.bar/sitemap.xml";
        let robotstxt_temp = "User-Agent: foo\n\
            Allow: /some/path\n\
            User-Agent: bar\n\
            \n\
            \n";
        robotstxt.push_str(&format!("Sitemap: {}\n{}", sitemap_loc, robotstxt_temp));

        parse_robotstxt(&robotstxt, &mut report);
        assert_eq!(sitemap_loc, report.sitemap.as_str());
    }
}

// A line past the byte budget is truncated, but the line counter still
// advances exactly once for it.
#[test]
fn test_overlong_line_counts_once() {
    let mut report = RobotsStatsReporter::default();
    let mut doc = String::from("User-Agent: foo\n");
    for _ in 0..20000 {
        doc.push('x');
    }
    doc.push('\n');
    doc.push_str("Allow: /y\n");
    parse_robotstxt(&doc, &mut report);
    assert_eq!(2, report.valid_directives);
    assert_eq!(3, report.last_line_seen);
}

#[test]
fn test_blank_line_case() {
    let robots_content = r#"User-agent: *
Disallow: /*q=
Disallow: /users/*?
Disallow: /join/*?
Disallow: /morelikethis/
Disallow: /download/
Disallow: /checkout/
Disallow: /global/
Disallow: /api/
Disallow: /critiques/
 
Sitemap: http://sitemaps.test.net/sitemap-index.xml.gz"#;
    let mut matcher = DefaultMatcher::default();
    assert!(matcher.one_agent_allowed_by_robots(&robots_content, "bot", "https://www.test.com/"));
}

#[test]
fn test_unknown_robotstxt_case() {
    let robots_content = "#!/usr/bin/env bash\n\
# Make sure you have `curl` installed\n\
\n\
######## VARIABLES #########\n\
abc";
    let mut matcher = DefaultMatcher::default();
    assert!(matcher.one_agent_allowed_by_robots(&robots_content, "bot", "https://www.test.com/"));
}
