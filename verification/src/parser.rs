//! The tolerant robots.txt line parser: key classification (including the
//! common misspellings), the key/value tokenizer, pattern escaping, the
//! line splitter with BOM handling, and the parse driver.

use vstd::prelude::*;
use vstd::string::StrSliceExecFns;

verus! {

use crate::ParseEvent;
use crate::RobotsParseHandler;
use crate::apply_events;
use crate::event_line;
use crate::text::ascii_lower;
use crate::text::char_ascii_lower;
use crate::text::chars_of;
use crate::text::find_char;
use crate::text::find_space_or_tab;
use crate::text::is_prefix_of;
use crate::text::is_space_or_tab;
use crate::text::lemma_find_char;
use crate::text::lemma_find_space_or_tab;
use crate::text::trim;
use crate::text::trim_bounds;

/// A enum represents key types in robotstxt.
#[derive(Clone, Copy, Debug, PartialEq, Eq, Structural)]
pub enum ParseKeyType {
    // Generic highlevel fields.
    UserAgent,
    Sitemap,
    // Fields within a user-agent.
    Allow,
    Disallow,
    /// Unrecognized field; the original key text is kept.
    Unknown,
}

/// The key matches `target` when the ASCII-lowered key begins with the
/// ASCII-lowered target.
pub open spec fn key_matches(key: Seq<char>, target: Seq<char>) -> bool {
    is_prefix_of(ascii_lower(target), ascii_lower(key))
}

/// The classification of a directive key, with or without the accepted typos.
pub open spec fn classify_key(key: Seq<char>, allow_typo: bool) -> ParseKeyType {
    if key_matches(key, "user-agent"@) || (allow_typo && (key_matches(key, "useragent"@)
        || key_matches(key, "user agent"@))) {
        ParseKeyType::UserAgent
    } else if key_matches(key, "allow"@) {
        ParseKeyType::Allow
    } else if key_matches(key, "disallow"@) || (allow_typo && (key_matches(key, "dissallow"@)
        || key_matches(key, "dissalow"@) || key_matches(key, "disalow"@) || key_matches(
        key,
        "diasllow"@,
    ) || key_matches(key, "disallaw"@))) {
        ParseKeyType::Disallow
    } else if key_matches(key, "sitemap"@) || key_matches(key, "site-map"@) {
        ParseKeyType::Sitemap
    } else {
        ParseKeyType::Unknown
    }
}

/// Case-insensitive (ASCII) prefix test of `target` against the key in `kc`.
fn key_has_prefix(kc: &Vec<char>, target: &str) -> (r: bool)
    ensures
        r == key_matches(kc@, target@),
{
    let tc = chars_of(target);
    let tn = tc.len();
    if tn > kc.len() {
        assert(!key_matches(kc@, target@));
        return false;
    }
    let mut j: usize = 0;
    while j < tn
        invariant
            0 <= j <= tn == tc@.len(),
            tn <= kc@.len(),
            tc@ == target@,
            forall|i: int|
                0 <= i < j ==> crate::text::ascii_lower_char(kc@[i]) == crate::text::ascii_lower_char(
                    tc@[i],
                ),
        decreases tn - j,
    {
        if char_ascii_lower(kc[j]) != char_ascii_lower(tc[j]) {
            assert(ascii_lower(kc@).take(tn as int)[j as int] != ascii_lower(target@)[j as int]);
            return false;
        }
        j += 1;
    }
    assert(ascii_lower(target@) =~= ascii_lower(kc@).take(tn as int));
    true
}

/// A robots.txt has lines of key/value pairs. A ParsedRobotsKey represents
/// a key.
///
/// It can parse a text-representation of a key (including common typos) into
/// an enumeration, for faster processing afterwards. For unparsable keys, the
/// original string representation is kept.
pub struct ParsedRobotsKey {
    type_: ParseKeyType,
    key_text: String,
    /// Allow for typos such as DISALOW in robots.txt.
    allow_typo: bool,
}

impl ParsedRobotsKey {
    /// The classification this key currently holds.
    pub closed spec fn spec_type(&self) -> ParseKeyType {
        self.type_
    }

    /// The stored text of an unrecognized key.
    pub closed spec fn spec_unknown_text(&self) -> Seq<char> {
        self.key_text@
    }

    /// Whether this key accepts the common misspellings.
    pub closed spec fn spec_allow_typo(&self) -> bool {
        self.allow_typo
    }

    /// Parse given key text and classify it.
    pub fn parse(&mut self, key: &str)
        ensures
            final(self).spec_type() == classify_key(key@, old(self).spec_allow_typo()),
            final(self).spec_type() == ParseKeyType::Unknown ==> final(self).spec_unknown_text()
                == key@,
            final(self).spec_type() != ParseKeyType::Unknown ==> final(self).spec_unknown_text()
                == old(self).spec_unknown_text(),
            final(self).spec_allow_typo() == old(self).spec_allow_typo(),
    {
        let kc = chars_of(key);
        let typo = self.allow_typo;
        if key_has_prefix(&kc, "user-agent") || (typo && (key_has_prefix(&kc, "useragent")
            || key_has_prefix(&kc, "user agent"))) {
            self.type_ = ParseKeyType::UserAgent;
        } else if key_has_prefix(&kc, "allow") {
            self.type_ = ParseKeyType::Allow;
        } else if key_has_prefix(&kc, "disallow") || (typo && (key_has_prefix(&kc, "dissallow")
            || key_has_prefix(&kc, "dissalow") || key_has_prefix(&kc, "disalow") || key_has_prefix(
            &kc,
            "diasllow",
        ) || key_has_prefix(&kc, "disallaw"))) {
            self.type_ = ParseKeyType::Disallow;
        } else if key_has_prefix(&kc, "sitemap") || key_has_prefix(&kc, "site-map") {
            self.type_ = ParseKeyType::Sitemap;
        } else {
            self.type_ = ParseKeyType::Unknown;
            self.key_text = key.to_owned();
        }
    }

    /// Returns the type of key.
    pub fn get_type(&self) -> (r: &ParseKeyType)
        ensures
            *r == self.spec_type(),
    {
        &self.type_
    }

    /// If this is an unknown key, get the text.
    pub fn get_unknown_text(&self) -> (r: String)
        ensures
            r@ == self.spec_unknown_text(),
    {
        self.key_text.clone()
    }
}

/// What the tokenizer makes of one raw line: `None` for a dropped line,
/// otherwise the trimmed key and the trimmed value.
///
/// Anything from the first `#` on is a comment, and the remainder is
/// trimmed. The separator is the first `:`; people who forget the colon are
/// tolerated by accepting a whitespace separator instead, but only when
/// exactly one word follows it. The trimmed key must be non-empty.
pub open spec fn spec_key_value(line: Seq<char>) -> Option<(Seq<char>, Seq<char>)> {
    let hash = find_char(line, 0, '#');
    let stripped = if hash < line.len() {
        line.take(hash)
    } else {
        line
    };
    let l = trim(stripped);
    let colon = find_char(l, 0, ':');
    if colon < l.len() {
        let key = trim(l.take(colon));
        if key.len() == 0 {
            None
        } else {
            Some((key, trim(l.skip(colon + 1))))
        }
    } else {
        let w = find_space_or_tab(l, 0);
        if w < l.len() {
            let val = trim(l.skip(w));
            if val.len() == 0 || find_space_or_tab(val, 0) < val.len() {
                None
            } else {
                let key = trim(l.take(w));
                if key.len() == 0 {
                    None
                } else {
                    Some((key, val))
                }
            }
        } else {
            None
        }
    }
}

/// Search for `c` in `v` within `[from, to)`; answers `to` when absent.
fn find_char_within(v: &Vec<char>, from: usize, to: usize, c: char) -> (r: usize)
    requires
        from <= to <= v@.len(),
    ensures
        r - from == find_char(v@.subrange(from as int, to as int), 0, c),
        from <= r <= to,
{
    let ghost s = v@.subrange(from as int, to as int);
    let mut i: usize = from;
    while i < to
        invariant
            from <= i <= to <= v@.len(),
            s == v@.subrange(from as int, to as int),
            find_char(s, 0, c) == find_char(s, i - from, c),
        decreases to - i,
    {
        if v[i] == c {
            proof {
                lemma_find_char(s, (i - from) as int, c);
            }
            return i;
        }
        assert(s[i - from] == v@[i as int]);
        i += 1;
    }
    proof {
        lemma_find_char(s, (i - from) as int, c);
    }
    i
}

/// Search for a space or tab in `v` within `[from, to)`; answers `to` when absent.
fn find_space_or_tab_within(v: &Vec<char>, from: usize, to: usize) -> (r: usize)
    requires
        from <= to <= v@.len(),
    ensures
        r - from == find_space_or_tab(v@.subrange(from as int, to as int), 0),
        from <= r <= to,
{
    let ghost s = v@.subrange(from as int, to as int);
    let mut i: usize = from;
    while i < to
        invariant
            from <= i <= to <= v@.len(),
            s == v@.subrange(from as int, to as int),
            find_space_or_tab(s, 0) == find_space_or_tab(s, i - from),
        decreases to - i,
    {
        if crate::text::char_space_or_tab(v[i]) {
            proof {
                lemma_find_space_or_tab(s, (i - from) as int);
            }
            return i;
        }
        assert(s[i - from] == v@[i as int]);
        i += 1;
    }
    proof {
        lemma_find_space_or_tab(s, (i - from) as int);
    }
    i
}

/// A robotstxt parser over one document body.
pub struct RobotsTxtParser<'a> {
    robots_body: &'a str,
}

impl<'a> RobotsTxtParser<'a> {
    /// The document this parser reads.
    pub closed spec fn spec_body(&self) -> Seq<char> {
        self.robots_body@
    }

    pub fn new(robots_body: &'a str) -> (r: Self)
        ensures
            r.spec_body() == robots_body@,
    {
        RobotsTxtParser { robots_body }
    }

    /// Parse the body of this parser's robots.txt and emit parse callbacks.
    /// This will accept typical typos found in robots.txt, such as 'disalow'.
    ///
    /// Note, this function will accept all kind of input but will skip
    /// everything that does not look like a robots directive.
    pub fn parse<H: RobotsParseHandler>(&self, handler: &mut H)
        requires
            self.spec_body().len() < u32::MAX,
        ensures
            *final(handler) == apply_events::<H>(
                *old(handler),
                doc_events(self.spec_body()),
            ),
    {
        let ghost doc = self.robots_body@;
        let ghost h0 = *handler;
        handler.handle_robots_start();
        let ghost h1 = *handler;
        proof {
            crate::lemma_apply_one::<H>(h0, ParseEvent::Start);
        }
        let v = chars_of(self.robots_body);
        let n = v.len();
        // Skipping a possible BOM prefix in the first characters of the input.
        let mut i: usize = 0;
        if n >= 1 && v[0] == '\u{EF}' {
            i = 1;
            if n >= 2 && v[1] == '\u{BB}' {
                i = 2;
                if n >= 3 && v[2] == '\u{BF}' {
                    i = 3;
                }
            }
        }
        assert(i as int == bom_prefix_len(doc));
        let mut cur: Vec<char> = Vec::new();
        let mut cur_bytes: usize = 0;
        let mut over: bool = false;
        let mut line_num: u32 = 0;
        let mut prev_cr: bool = false;
        let ghost mut lines_done: Seq<Seq<char>> = Seq::empty();
        proof {
            assert(cur@ =~= Seq::<char>::empty());
            assert(lines_done + split_rest(cur@, over, doc.skip(i as int), prev_cr) =~= doc_lines(doc));
            assert(line_events(lines_done, 1) =~= Seq::<ParseEvent>::empty());
            assert(apply_events::<H>(h1, line_events(lines_done, 1)) == h1);
        }
        while i < n
            invariant
                i <= n,
                n == v@.len(),
                v@ == doc,
                doc.len() < u32::MAX,
                cur_bytes as int == utf8_len(cur@),
                cur_bytes <= MAX_LINE_LEN,
                over ==> cur_bytes > MAX_LINE_LEN - 4,
                line_num as int == lines_done.len(),
                lines_done.len() <= i,
                doc_lines(doc) == lines_done + split_rest(cur@, over, doc.skip(i as int), prev_cr),
                *handler == apply_events::<H>(h1, line_events(lines_done, 1)),
            decreases n - i,
        {
            let c = v[i];
            let ghost rest = doc.skip(i as int);
            let ghost acc = cur@;
            let ghost prev0 = prev_cr;
            let ghost over0 = over;
            let ghost done0 = lines_done;
            proof {
                assert(rest[0] == c);
                assert(rest.drop_first() =~= doc.skip(i + 1));
            }
            if c == '\n' || c == '\r' {
                // Only emit an empty line if this was not due to the second
                // character of a CR-LF line ending.
                let is_crlf_continuation = cur.len() == 0 && prev_cr && c == '\n';
                if !is_crlf_continuation {
                    line_num = line_num + 1;
                    let line_str = crate::text::string_of(&cur);
                    proof {
                        lemma_utf8_len_ge(acc);
                    }
                    parse_and_emit_line(handler, line_num, line_str.as_str());
                    proof {
                        lemma_line_events_push(done0, acc, 1);
                        crate::lemma_apply_events_app::<H>(
                            h1,
                            line_events(done0, 1),
                            opt_event(line_event(line_num, acc)),
                        );
                        lines_done = done0.push(acc);
                    }
                }
                cur.clear();
                cur_bytes = 0;
                over = false;
                prev_cr = c == '\r';
                i += 1;
                proof {
                    assert(cur@ =~= Seq::<char>::empty());
                    if is_crlf_continuation {
                        assert(acc =~= Seq::<char>::empty());
                        lemma_utf8_len_ge(acc);
                        assert(!over0);
                        assert(split_rest(acc, over0, rest, prev0) == split_rest(
                            acc,
                            over0,
                            doc.skip(i as int),
                            false,
                        ));
                    } else {
                        let rr = split_rest(Seq::<char>::empty(), false, doc.skip(i as int), c == '\r');
                        assert(split_rest(acc, over0, rest, prev0) == seq![acc] + rr);
                        assert(done0 + (seq![acc] + rr) =~= lines_done + rr);
                    }
                }
            } else {
                let w = char_width(c);
                if !over && cur_bytes + w <= MAX_LINE_LEN {
                    cur.push(c);
                    cur_bytes = cur_bytes + w;
                    proof {
                        assert(cur@.drop_last() =~= acc);
                        assert(cur@.last() == c);
                        assert(utf8_len(cur@) == utf8_len(acc) + utf8_width(c));
                    }
                } else {
                    // The line is over its byte budget: skip the rest of it.
                    over = true;
                }
                i += 1;
            }
        }
        proof {
            assert(doc.skip(n as int) =~= Seq::<char>::empty());
            assert(split_rest(cur@, over, doc.skip(n as int), prev_cr) =~= seq![cur@]);
        }
        line_num = line_num + 1;
        let line_str = crate::text::string_of(&cur);
        proof {
            lemma_utf8_len_ge(cur@);
        }
        parse_and_emit_line(handler, line_num, line_str.as_str());
        proof {
            lemma_line_events_push(lines_done, cur@, 1);
            crate::lemma_apply_events_app::<H>(
                h1,
                line_events(lines_done, 1),
                opt_event(line_event(line_num, cur@)),
            );
            lines_done = lines_done.push(cur@);
            assert(doc_lines(doc) =~= lines_done);
        }
        handler.handle_robots_end();
        proof {
            crate::lemma_apply_one::<H>(
                apply_events::<H>(h1, line_events(lines_done, 1)),
                ParseEvent::End,
            );
            crate::lemma_apply_events_app::<H>(
                h0,
                seq![ParseEvent::Start],
                line_events(doc_lines(doc), 1),
            );
            crate::lemma_apply_events_app::<H>(
                h0,
                seq![ParseEvent::Start] + line_events(doc_lines(doc), 1),
                seq![ParseEvent::End],
            );
        }
    }

    /// Attempts to parse a line of robots.txt into a key/value pair.
    ///
    /// On success, the parsed key and value, and true, are returned. If
    /// parsing is unsuccessful, two empty strings and false are returned.
    pub fn parse_key_value<'l>(line: &'l str) -> (r: (&'l str, &'l str, bool))
        ensures
            r.2 <==> spec_key_value(line@) is Some,
            r.2 ==> spec_key_value(line@) == Some((r.0@, r.1@)),
            !r.2 ==> r.0@.len() == 0 && r.1@.len() == 0,
    {
        proof {
            reveal_strlit("");
        }
        let v = chars_of(line);
        let n = v.len();
        // Remove comments from the current robots.txt line, then trim it.
        let hash = crate::text::find_char_from(&v, 0, '#');
        let stop = if hash < n {
            hash
        } else {
            n
        };
        let (llo, lhi) = trim_bounds(&v, 0, stop);
        proof {
            if hash < n {
                assert(v@.subrange(0, stop as int) =~= line@.take(hash as int));
            } else {
                assert(v@.subrange(0, stop as int) =~= line@);
            }
        }
        let ghost l = v@.subrange(llo as int, lhi as int);
        // Rules must match the pattern `<key>[ \t]*:[ \t]*<value>`.
        let colon = find_char_within(&v, llo, lhi, ':');
        if colon < lhi {
            let (klo, khi) = trim_bounds(&v, llo, colon);
            proof {
                assert(v@.subrange(llo as int, colon as int) =~= l.take(colon - llo));
            }
            if khi == klo {
                // The trimmed key is empty.
                return ("", "", false);
            }
            let (vlo, vhi) = trim_bounds(&v, colon + 1, lhi);
            proof {
                assert(v@.subrange(colon + 1, lhi as int) =~= l.skip(colon - llo + 1));
            }
            let key = line.substring_char(klo, khi);
            let value = line.substring_char(vlo, vhi);
            (key, value, true)
        } else {
            // Some people forget the colon; accept whitespace in its stead,
            // but only when exactly one word follows it.
            let w = find_space_or_tab_within(&v, llo, lhi);
            if w < lhi {
                let (vlo, vhi) = trim_bounds(&v, w, lhi);
                proof {
                    assert(v@.subrange(w as int, lhi as int) =~= l.skip(w - llo));
                }
                if vhi == vlo {
                    return ("", "", false);
                }
                let ws2 = find_space_or_tab_within(&v, vlo, vhi);
                if ws2 < vhi {
                    proof {
                        assert(v@.subrange(vlo as int, vhi as int) =~= trim(l.skip(w - llo)));
                    }
                    return ("", "", false);
                }
                let (klo, khi) = trim_bounds(&v, llo, w);
                proof {
                    assert(v@.subrange(llo as int, w as int) =~= l.take(w - llo));
                }
                if khi == klo {
                    return ("", "", false);
                }
                (line.substring_char(klo, khi), line.substring_char(vlo, vhi), true)
            } else {
                ("", "", false)
            }
        }
    }
}

/// A hexadecimal digit, in either case.
pub open spec fn is_hex_digit(c: char) -> bool {
    ('0' <= c && c <= '9') || ('a' <= c && c <= 'f') || ('A' <= c && c <= 'F')
}

/// Upper-cases the hex digits `a`-`f`; any other character is unchanged.
pub open spec fn hex_upper(c: char) -> char {
    if 'a' <= c && c <= 'f' {
        ((c as u32 - 0x20) as u8) as char
    } else {
        c
    }
}

/// The upper-case hex digit with value `v`.
pub open spec fn hex_digit_char(v: u8) -> char
    recommends
        v < 16,
{
    if v < 10 {
        (0x30 + v) as char
    } else {
        (0x37 + v) as char
    }
}

/// `%HH` with upper-case hex digits, for one byte.
pub open spec fn pct_encode_byte(b: u8) -> Seq<char> {
    seq!['%', hex_digit_char(b / 16), hex_digit_char(b % 16)]
}

/// Each byte of `bs`, percent-encoded, concatenated.
pub open spec fn pct_encode_bytes(bs: Seq<u8>) -> Seq<char>
    decreases bs.len(),
{
    if bs.len() == 0 {
        Seq::empty()
    } else {
        pct_encode_byte(bs[0]) + pct_encode_bytes(bs.drop_first())
    }
}

/// The canonical form of an Allow/Disallow path pattern.
///
/// A `%` followed by two hex digits keeps them, upper-cased; any other `%`
/// passes through. A character outside the ASCII range is percent-encoded
/// byte by byte (in its UTF-8 encoding); everything else passes through.
pub open spec fn escape(s: Seq<char>) -> Seq<char>
    decreases s.len(),
{
    if s.len() == 0 {
        Seq::empty()
    } else if s[0] == '%' && s.len() >= 3 && is_hex_digit(s[1]) && is_hex_digit(s[2]) {
        seq!['%', hex_upper(s[1]), hex_upper(s[2])] + escape(s.skip(3))
    } else if (s[0] as u32) < 0x80 {
        seq![s[0]] + escape(s.skip(1))
    } else {
        pct_encode_bytes(vstd::utf8::encode_scalar(s[0] as u32)) + escape(s.skip(1))
    }
}

/// Escaping makes a sequence at most twelve times as long: a character
/// yields at most four `%HH` groups.
pub proof fn lemma_escape_len(s: Seq<char>)
    ensures
        escape(s).len() <= 12 * s.len(),
    decreases s.len(),
{
    if s.len() == 0 {
    } else if s[0] == '%' && s.len() >= 3 && is_hex_digit(s[1]) && is_hex_digit(s[2]) {
        lemma_escape_len(s.skip(3));
    } else if (s[0] as u32) < 0x80 {
        lemma_escape_len(s.skip(1));
    } else {
        lemma_escape_len(s.skip(1));
        lemma_pct_encode_bytes_len(vstd::utf8::encode_scalar(s[0] as u32));
    }
}

proof fn lemma_pct_cons(b: u8, rest: Seq<u8>)
    ensures
        pct_encode_bytes(seq![b] + rest) == pct_encode_byte(b) + pct_encode_bytes(rest),
{
    assert((seq![b] + rest)[0] == b);
    assert((seq![b] + rest).drop_first() =~= rest);
}

proof fn lemma_pct_encode_bytes_len(bs: Seq<u8>)
    ensures
        pct_encode_bytes(bs).len() == 3 * bs.len(),
    decreases bs.len(),
{
    if bs.len() > 0 {
        lemma_pct_encode_bytes_len(bs.drop_first());
    }
}

proof fn lemma_hex_upper_fixed(c: char)
    ensures
        is_hex_digit(c) ==> is_hex_digit(hex_upper(c)),
        hex_upper(hex_upper(c)) == hex_upper(c),
        is_hex_digit(c) ==> (hex_upper(c) as u32) < 0x80 && hex_upper(c) != '%',
{
}

proof fn lemma_hex_digit_char_fixed(v: u8)
    requires
        v < 16,
    ensures
        is_hex_digit(hex_digit_char(v)),
        hex_upper(hex_digit_char(v)) == hex_digit_char(v),
        (hex_digit_char(v) as u32) < 0x80,
        hex_digit_char(v) != '%',
{
}

/// Escaping a non-empty sequence gives a non-empty sequence, and cannot
/// move a hex digit to the front where there was none.
proof fn lemma_escape_first(s: Seq<char>)
    requires
        s.len() > 0,
    ensures
        escape(s).len() > 0,
        !is_hex_digit(s[0]) ==> !is_hex_digit(escape(s)[0]),
{
    if s[0] == '%' && s.len() >= 3 && is_hex_digit(s[1]) && is_hex_digit(s[2]) {
        assert(escape(s)[0] == '%');
    } else if (s[0] as u32) < 0x80 {
        assert(escape(s)[0] == s[0]);
    } else {
        let bs = vstd::utf8::encode_scalar(s[0] as u32);
        assert(bs.len() > 0);
        assert(pct_encode_bytes(bs)[0] == '%');
        assert(escape(s)[0] == '%');
    }
}

/// Escaping walks over an already-canonical `%HH` group unchanged.
proof fn lemma_escape_hex_group(h1: char, h2: char, t: Seq<char>)
    requires
        is_hex_digit(h1),
        is_hex_digit(h2),
        hex_upper(h1) == h1,
        hex_upper(h2) == h2,
    ensures
        escape(seq!['%', h1, h2] + t) == seq!['%', h1, h2] + escape(t),
{
    let s = seq!['%', h1, h2] + t;
    assert(s[0] == '%' && s[1] == h1 && s[2] == h2);
    assert(s.skip(3) =~= t);
    assert(escape(s) == seq!['%', hex_upper(h1), hex_upper(h2)] + escape(t));
}

/// Escaping walks over percent-encoded bytes unchanged.
proof fn lemma_escape_pct_bytes(bs: Seq<u8>, t: Seq<char>)
    ensures
        escape(pct_encode_bytes(bs) + t) == pct_encode_bytes(bs) + escape(t),
    decreases bs.len(),
{
    if bs.len() == 0 {
        assert(pct_encode_bytes(bs) + t =~= t);
        assert(pct_encode_bytes(bs) + escape(t) =~= escape(t));
    } else {
        let b0 = bs[0];
        let rest = bs.drop_first();
        lemma_hex_digit_char_fixed(b0 / 16);
        lemma_hex_digit_char_fixed(b0 % 16);
        lemma_escape_pct_bytes(rest, t);
        assert(pct_encode_bytes(bs) + t =~= pct_encode_byte(b0) + (pct_encode_bytes(rest) + t));
        lemma_escape_hex_group(
            hex_digit_char(b0 / 16),
            hex_digit_char(b0 % 16),
            pct_encode_bytes(rest) + t,
        );
        assert(pct_encode_byte(b0) + (pct_encode_bytes(rest) + escape(t)) =~= pct_encode_bytes(bs)
            + escape(t));
    }
}

/// Escaping is idempotent: escaping an already-escaped pattern changes
/// nothing.
pub proof fn lemma_escape_idempotent(s: Seq<char>)
    ensures
        escape(escape(s)) == escape(s),
    decreases s.len(),
{
    if s.len() == 0 {
    } else if s[0] == '%' && s.len() >= 3 && is_hex_digit(s[1]) && is_hex_digit(s[2]) {
        let u1 = hex_upper(s[1]);
        let u2 = hex_upper(s[2]);
        let r = escape(s.skip(3));
        lemma_hex_upper_fixed(s[1]);
        lemma_hex_upper_fixed(s[2]);
        lemma_escape_idempotent(s.skip(3));
        lemma_escape_hex_group(u1, u2, r);
        assert(escape(s) == seq!['%', u1, u2] + r);
    } else if (s[0] as u32) < 0x80 {
        let c = s[0];
        let sp = s.skip(1);
        let r = escape(sp);
        lemma_escape_idempotent(sp);
        let cs = seq![c] + r;
        assert(escape(s) == cs);
        assert(cs[0] == c);
        assert(cs.skip(1) =~= r);
        if c == '%' {
            // The pass-through case: the lookahead failed on `s`, and it must
            // keep failing on the escaped remainder.
            assert(!(s.len() >= 3 && is_hex_digit(s[1]) && is_hex_digit(s[2])));
            if sp.len() == 0 {
                assert(r =~= Seq::<char>::empty());
                assert(cs.len() < 3);
            } else if !is_hex_digit(sp[0]) {
                lemma_escape_first(sp);
                assert(!is_hex_digit(cs[1]));
            } else {
                // sp[0] is a hex digit, hence ASCII and not '%'.
                assert((sp[0] as u32) < 0x80);
                assert(r == seq![sp[0]] + escape(sp.skip(1)));
                if sp.len() == 1 {
                    assert(sp.skip(1) =~= Seq::<char>::empty());
                    assert(r =~= seq![sp[0]]);
                    assert(cs.len() < 3);
                } else {
                    assert(!is_hex_digit(sp[1]));
                    let spp = sp.skip(1);
                    assert(spp[0] == sp[1]);
                    lemma_escape_first(spp);
                    assert(cs[2] == r[1]);
                    assert(r[1] == escape(spp)[0]);
                    assert(!is_hex_digit(cs[2]));
                }
            }
            assert(escape(cs) == seq![c] + escape(r));
        } else {
            assert(escape(cs) == seq![c] + escape(r));
        }
        assert(seq![c] + escape(r) == seq![c] + r);
    } else {
        let bs = vstd::utf8::encode_scalar(s[0] as u32);
        let r = escape(s.skip(1));
        lemma_escape_idempotent(s.skip(1));
        lemma_escape_pct_bytes(bs, r);
        assert(escape(s) == pct_encode_bytes(bs) + r);
    }
}

fn exec_hex_upper(c: char) -> (r: char)
    ensures
        r == hex_upper(c),
{
    let u = c as u32;
    if 0x61 <= u && u <= 0x66 {
        ((u - 0x20) as u8) as char
    } else {
        c
    }
}

fn exec_is_hex_digit(c: char) -> (r: bool)
    ensures
        r == is_hex_digit(c),
{
    let u = c as u32;
    (0x30 <= u && u <= 0x39) || (0x61 <= u && u <= 0x66) || (0x41 <= u && u <= 0x46)
}

fn exec_hex_digit_char(v: u8) -> (r: char)
    requires
        v < 16,
    ensures
        r == hex_digit_char(v),
{
    if v < 10 {
        (0x30 + v) as char
    } else {
        (0x37 + v) as char
    }
}

/// Push `%HH` for one byte.
fn push_pct_byte(out: &mut Vec<char>, b: u8)
    ensures
        final(out)@ == old(out)@ + pct_encode_byte(b),
{
    out.push('%');
    out.push(exec_hex_digit_char(b / 16));
    out.push(exec_hex_digit_char(b % 16));
    proof {
        assert(final(out)@ =~= old(out)@ + pct_encode_byte(b));
    }
}

/// Canonicalize the allowed/disallowed path patterns.
///
/// UTF-8 multibyte sequences (and other out-of-range ASCII values) are
/// percent-encoded, and any existing percent-encoded values have their hex
/// values normalised to uppercase.
///
/// For example:
/// ```txt
///     /SanJoséSellers ==> /Sanjos%C3%A9Sellers
///     %aa ==> %AA
/// ```
pub fn escape_pattern(path: &str) -> (r: String)
    ensures
        r@ == escape(path@),
{
    let v = chars_of(path);
    let n = v.len();
    let mut out: Vec<char> = Vec::new();
    let mut i: usize = 0;
    proof {
        assert(v@.skip(0) =~= v@);
        assert(out@ + escape(v@) =~= escape(v@));
    }
    while i < n
        invariant
            0 <= i <= n == v@.len(),
            escape(v@) == out@ + escape(v@.skip(i as int)),
        decreases n - i,
    {
        let c = v[i];
        let ghost rest = v@.skip(i as int);
        let ghost before = out@;
        proof {
            assert(rest[0] == v@[i as int]);
        }
        if c == '%' && n - i >= 3 && exec_is_hex_digit(v[i + 1]) && exec_is_hex_digit(v[i + 2]) {
            proof {
                assert(rest[1] == v@[i + 1]);
                assert(rest[2] == v@[i + 2]);
                assert(rest.skip(3) =~= v@.skip(i + 3));
            }
            out.push('%');
            out.push(exec_hex_upper(v[i + 1]));
            out.push(exec_hex_upper(v[i + 2]));
            proof {
                let chunk = seq!['%', hex_upper(rest[1]), hex_upper(rest[2])];
                assert(out@ =~= before + chunk);
                assert(escape(rest) == chunk + escape(v@.skip(i + 3)));
                assert(before + (chunk + escape(v@.skip(i + 3))) =~= (before + chunk) + escape(
                    v@.skip(i + 3),
                ));
            }
            i += 3;
        } else if (c as u32) < 0x80 {
            out.push(c);
            proof {
                assert(rest.skip(1) =~= v@.skip(i + 1));
                assert(out@ =~= before + seq![c]);
                assert(escape(rest) == seq![c] + escape(v@.skip(i + 1)));
                assert(before + (seq![c] + escape(v@.skip(i + 1))) =~= (before + seq![c]) + escape(
                    v@.skip(i + 1),
                ));
            }
            i += 1;
        } else {
            proof {
                vstd::utf8::char_is_scalar(c);
            }
            let u = c as u32;
            let ghost bs = vstd::utf8::encode_scalar(u);
            if u < 0x800 {
                let b0: u8 = 0xC0 | ((u >> 6) & 0x1F) as u8;
                let b1: u8 = 0x80 | (u & 0x3F) as u8;
                proof {
                    assert(bs =~= seq![b0] + seq![b1]);
                    lemma_pct_cons(b0, seq![b1]);
                    lemma_pct_cons(b1, Seq::<u8>::empty());
                    assert(seq![b1] =~= seq![b1] + Seq::<u8>::empty());
                    assert(pct_encode_byte(b1) + pct_encode_bytes(Seq::<u8>::empty())
                        =~= pct_encode_byte(b1));
                }
                push_pct_byte(&mut out, b0);
                push_pct_byte(&mut out, b1);
            } else if u < 0x10000 {
                let b0: u8 = 0xE0 | ((u >> 12) & 0x0F) as u8;
                let b1: u8 = 0x80 | ((u >> 6) & 0x3F) as u8;
                let b2: u8 = 0x80 | (u & 0x3F) as u8;
                proof {
                    assert(bs =~= seq![b0] + (seq![b1] + seq![b2]));
                    lemma_pct_cons(b0, seq![b1] + seq![b2]);
                    lemma_pct_cons(b1, seq![b2]);
                    lemma_pct_cons(b2, Seq::<u8>::empty());
                    assert(seq![b2] =~= seq![b2] + Seq::<u8>::empty());
                    assert(pct_encode_byte(b2) + pct_encode_bytes(Seq::<u8>::empty())
                        =~= pct_encode_byte(b2));
                    assert(seq![b1] + seq![b2] =~= seq![b1, b2]);
                    assert(bs =~= seq![b0, b1, b2]);
                }
                push_pct_byte(&mut out, b0);
                push_pct_byte(&mut out, b1);
                push_pct_byte(&mut out, b2);
            } else {
                let b0: u8 = 0xF0 | ((u >> 18) & 0x7) as u8;
                let b1: u8 = 0x80 | ((u >> 12) & 0x3F) as u8;
                let b2: u8 = 0x80 | ((u >> 6) & 0x3F) as u8;
                let b3: u8 = 0x80 | (u & 0x3F) as u8;
                proof {
                    assert(bs =~= seq![b0] + (seq![b1] + (seq![b2] + seq![b3])));
                    lemma_pct_cons(b0, seq![b1] + (seq![b2] + seq![b3]));
                    lemma_pct_cons(b1, seq![b2] + seq![b3]);
                    lemma_pct_cons(b2, seq![b3]);
                    lemma_pct_cons(b3, Seq::<u8>::empty());
                    assert(seq![b3] =~= seq![b3] + Seq::<u8>::empty());
                    assert(pct_encode_byte(b3) + pct_encode_bytes(Seq::<u8>::empty())
                        =~= pct_encode_byte(b3));
                    assert(seq![b2] + seq![b3] =~= seq![b2, b3]);
                    assert(seq![b1] + (seq![b2] + seq![b3]) =~= seq![b1, b2, b3]);
                    assert(bs =~= seq![b0, b1, b2, b3]);
                }
                push_pct_byte(&mut out, b0);
                push_pct_byte(&mut out, b1);
                push_pct_byte(&mut out, b2);
                push_pct_byte(&mut out, b3);
            }
            proof {
                assert(rest.skip(1) =~= v@.skip(i + 1));
                assert(out@ =~= before + pct_encode_bytes(bs));
                assert(escape(rest) == pct_encode_bytes(bs) + escape(v@.skip(i + 1)));
                assert(before + (pct_encode_bytes(bs) + escape(v@.skip(i + 1))) =~= (before
                    + pct_encode_bytes(bs)) + escape(v@.skip(i + 1)));
            }
            i += 1;
        }
    }
    proof {
        assert(v@.skip(n as int) =~= Seq::<char>::empty());
        assert(escape(v@) =~= out@);
    }
    crate::text::string_of(&out)
}

/// Certain browsers limit the URL length to 2083 bytes. In a robots.txt, it
/// is fairly safe to assume any valid line is not going to be more than many
/// times that max URL length. Characters of a line beyond this byte budget
/// are skipped.
pub const MAX_LINE_LEN: usize = 2083 * 8;

/// The width, in bytes, of one character's UTF-8 encoding.
pub open spec fn utf8_width(c: char) -> int {
    vstd::utf8::encode_scalar(c as u32).len() as int
}

/// The length, in bytes, of the UTF-8 encoding of `s`.
pub open spec fn utf8_len(s: Seq<char>) -> int
    decreases s.len(),
{
    if s.len() == 0 {
        0
    } else {
        utf8_len(s.drop_last()) + utf8_width(s.last())
    }
}

pub proof fn lemma_utf8_len_ge(s: Seq<char>)
    ensures
        utf8_len(s) >= s.len(),
    decreases s.len(),
{
    if s.len() > 0 {
        lemma_utf8_len_ge(s.drop_last());
    }
}

fn char_width(c: char) -> (w: usize)
    ensures
        w as int == utf8_width(c),
        1 <= w <= 4,
{
    proof {
        vstd::utf8::char_is_scalar(c);
    }
    let u = c as u32;
    if u < 0x80 {
        1
    } else if u < 0x800 {
        2
    } else if u < 0x10000 {
        3
    } else {
        4
    }
}

/// How many of the first characters of `s` spell out the start of a UTF-8
/// byte order mark (the code points `EF BB BF`, in order): the parser skips
/// them, accepting partial marks as well.
pub open spec fn bom_prefix_len(s: Seq<char>) -> int {
    if s.len() >= 1 && s[0] == '\u{EF}' {
        if s.len() >= 2 && s[1] == '\u{BB}' {
            if s.len() >= 3 && s[2] == '\u{BF}' {
                3
            } else {
                2
            }
        } else {
            1
        }
    } else {
        0
    }
}

/// A character that terminates a line.
pub open spec fn is_line_break(c: char) -> bool {
    c == '\n' || c == '\r'
}

/// The lines still to be emitted, given the retained content `acc` of the
/// line being read, whether that line has already overflowed its byte
/// budget, the remaining input `s`, and whether the last line terminator
/// seen was a carriage return.
///
/// A line feed right after a carriage return terminates the same line, not a
/// new one. Characters are retained while the line's byte budget allows it;
/// from the first character that does not fit, the rest of the line is
/// skipped, so the retained text is a prefix of the line. The text after the
/// last terminator is always emitted as one final line, empty or not.
pub open spec fn split_rest(acc: Seq<char>, over: bool, s: Seq<char>, prev_cr: bool) -> Seq<
    Seq<char>,
>
    decreases s.len(),
{
    if s.len() == 0 {
        seq![acc]
    } else if is_line_break(s[0]) {
        if acc.len() == 0 && prev_cr && s[0] == '\n' {
            split_rest(acc, over, s.drop_first(), false)
        } else {
            seq![acc] + split_rest(Seq::empty(), false, s.drop_first(), s[0] == '\r')
        }
    } else {
        if !over && utf8_len(acc) + utf8_width(s[0]) <= MAX_LINE_LEN as int {
            split_rest(acc.push(s[0]), false, s.drop_first(), prev_cr)
        } else {
            split_rest(acc, true, s.drop_first(), prev_cr)
        }
    }
}

/// The lines of a document, in order: what the parse driver hands to the
/// tokenizer, line by line. Line numbers are the position here, plus one.
pub open spec fn doc_lines(doc: Seq<char>) -> Seq<Seq<char>> {
    split_rest(Seq::empty(), false, doc.skip(bom_prefix_len(doc)), false)
}

/// The number of line terminator characters in `s`.
pub open spec fn count_line_breaks(s: Seq<char>) -> int
    decreases s.len(),
{
    if s.len() == 0 {
        0
    } else {
        (if is_line_break(s[0]) {
            1int
        } else {
            0int
        }) + count_line_breaks(s.drop_first())
    }
}

pub proof fn lemma_split_rest_count(acc: Seq<char>, over: bool, s: Seq<char>, prev_cr: bool)
    ensures
        1 <= split_rest(acc, over, s, prev_cr).len() <= 1 + count_line_breaks(s),
        count_line_breaks(s) >= 0,
    decreases s.len(),
{
    if s.len() == 0 {
    } else if is_line_break(s[0]) {
        if acc.len() == 0 && prev_cr && s[0] == '\n' {
            lemma_split_rest_count(acc, over, s.drop_first(), false);
        } else {
            lemma_split_rest_count(Seq::empty(), false, s.drop_first(), s[0] == '\r');
        }
    } else {
        if !over && utf8_len(acc) + utf8_width(s[0]) <= MAX_LINE_LEN as int {
            lemma_split_rest_count(acc.push(s[0]), false, s.drop_first(), prev_cr);
        } else {
            lemma_split_rest_count(acc, true, s.drop_first(), prev_cr);
        }
    }
}

/// Every line that the splitter emits respects the byte budget.
pub proof fn lemma_split_rest_line_len(acc: Seq<char>, over: bool, s: Seq<char>, prev_cr: bool)
    requires
        utf8_len(acc) <= MAX_LINE_LEN as int,
    ensures
        forall|i: int|
            0 <= i < split_rest(acc, over, s, prev_cr).len() ==> utf8_len(
                #[trigger] split_rest(acc, over, s, prev_cr)[i],
            ) <= MAX_LINE_LEN as int && split_rest(acc, over, s, prev_cr)[i].len()
                <= MAX_LINE_LEN as int,
    decreases s.len(),
{
    lemma_utf8_len_ge(acc);
    let r = split_rest(acc, over, s, prev_cr);
    if s.len() == 0 {
        assert(r[0] == acc);
    } else if is_line_break(s[0]) {
        if acc.len() == 0 && prev_cr && s[0] == '\n' {
            lemma_split_rest_line_len(acc, over, s.drop_first(), false);
            let rr = split_rest(acc, over, s.drop_first(), false);
            assert forall|i: int| 0 <= i < r.len() implies utf8_len(#[trigger] r[i])
                <= MAX_LINE_LEN as int && r[i].len() <= MAX_LINE_LEN as int by {
                assert(r[i] == rr[i]);
            }
        } else {
            lemma_split_rest_line_len(Seq::empty(), false, s.drop_first(), s[0] == '\r');
            let rr = split_rest(Seq::empty(), false, s.drop_first(), s[0] == '\r');
            assert(r == seq![acc] + rr);
            assert forall|i: int| 0 <= i < r.len() implies utf8_len(#[trigger] r[i])
                <= MAX_LINE_LEN as int && r[i].len() <= MAX_LINE_LEN as int by {
                if i == 0 {
                    assert(r[0] == acc);
                } else {
                    assert(r[i] == rr[i - 1]);
                }
            }
        }
    } else {
        let c = s[0];
        if !over && utf8_len(acc) + utf8_width(c) <= MAX_LINE_LEN as int {
            let acc2 = acc.push(c);
            assert(acc2.drop_last() =~= acc);
            assert(acc2.last() == c);
            assert(utf8_len(acc2) == utf8_len(acc) + utf8_width(c));
            lemma_split_rest_line_len(acc2, false, s.drop_first(), prev_cr);
            let rr = split_rest(acc2, false, s.drop_first(), prev_cr);
            assert forall|i: int| 0 <= i < r.len() implies utf8_len(#[trigger] r[i])
                <= MAX_LINE_LEN as int && r[i].len() <= MAX_LINE_LEN as int by {
                assert(r[i] == rr[i]);
            }
        } else {
            lemma_split_rest_line_len(acc, true, s.drop_first(), prev_cr);
            let rr = split_rest(acc, true, s.drop_first(), prev_cr);
            assert forall|i: int| 0 <= i < r.len() implies utf8_len(#[trigger] r[i])
                <= MAX_LINE_LEN as int && r[i].len() <= MAX_LINE_LEN as int by {
                assert(r[i] == rr[i]);
            }
        }
    }
}

/// The event, if any, that one line produces: unparseable lines produce
/// nothing; Allow and Disallow directives carry escaped values, every other
/// directive carries its value as it stands.
pub open spec fn line_event(n: u32, line: Seq<char>) -> Option<ParseEvent> {
    match spec_key_value(line) {
        None => None,
        Some((k, v)) => Some(
            match classify_key(k, true) {
                ParseKeyType::UserAgent => ParseEvent::UserAgent { line: n, value: v },
                ParseKeyType::Allow => ParseEvent::Allow { line: n, value: escape(v) },
                ParseKeyType::Disallow => ParseEvent::Disallow { line: n, value: escape(v) },
                ParseKeyType::Sitemap => ParseEvent::Sitemap { line: n, value: v },
                ParseKeyType::Unknown => ParseEvent::Unknown { line: n, key: k, value: v },
            },
        ),
    }
}

/// An optional event as a sequence of zero or one events.
pub open spec fn opt_event(o: Option<ParseEvent>) -> Seq<ParseEvent> {
    match o {
        None => Seq::empty(),
        Some(e) => seq![e],
    }
}

/// The events of `lines`, numbering the first one `first`.
pub open spec fn line_events(lines: Seq<Seq<char>>, first: int) -> Seq<ParseEvent>
    decreases lines.len(),
{
    if lines.len() == 0 {
        Seq::empty()
    } else {
        opt_event(line_event(first as u32, lines[0])) + line_events(lines.drop_first(), first + 1)
    }
}

proof fn lemma_line_events_push(lines: Seq<Seq<char>>, x: Seq<char>, first: int)
    ensures
        line_events(lines.push(x), first) == line_events(lines, first) + opt_event(
            line_event((first + lines.len()) as u32, x),
        ),
    decreases lines.len(),
{
    let ev = opt_event(line_event((first + lines.len()) as u32, x));
    if lines.len() == 0 {
        assert(lines.push(x) =~= seq![x]);
        assert(seq![x][0] == x);
        assert(seq![x].drop_first() =~= Seq::<Seq<char>>::empty());
        assert(line_events(Seq::<Seq<char>>::empty(), first + 1) == Seq::<ParseEvent>::empty());
        assert(line_events(seq![x], first) == opt_event(line_event(first as u32, x))
            + Seq::<ParseEvent>::empty());
        assert(line_events(seq![x], first) =~= ev);
        assert(line_events(lines, first) == Seq::<ParseEvent>::empty());
        assert(line_events(lines, first) + ev =~= ev);
    } else {
        assert(lines.push(x)[0] == lines[0]);
        assert(lines.push(x).drop_first() =~= lines.drop_first().push(x));
        lemma_line_events_push(lines.drop_first(), x, first + 1);
        let head = opt_event(line_event(first as u32, lines[0]));
        assert(head + (line_events(lines.drop_first(), first + 1) + ev) =~= (head + line_events(
            lines.drop_first(),
            first + 1,
        )) + ev);
    }
}

proof fn lemma_line_event_line(n: u32, l: Seq<char>)
    ensures
        line_event(n, l) is Some ==> event_line(line_event(n, l)->Some_0) == Some(n),
{
}

proof fn lemma_count_breaks_skip(s: Seq<char>, k: int)
    requires
        0 <= k <= s.len(),
    ensures
        count_line_breaks(s.skip(k)) <= count_line_breaks(s),
        count_line_breaks(s.skip(k)) >= 0,
    decreases k,
{
    if k == 0 {
        assert(s.skip(0) =~= s);
        lemma_split_rest_count(Seq::empty(), false, s, false);
    } else {
        assert(s.drop_first().skip(k - 1) =~= s.skip(k));
        lemma_count_breaks_skip(s.drop_first(), k - 1);
    }
}

proof fn lemma_count_breaks_le_len(s: Seq<char>)
    ensures
        count_line_breaks(s) <= s.len(),
    decreases s.len(),
{
    if s.len() > 0 {
        lemma_count_breaks_le_len(s.drop_first());
    }
}

/// Every event of `line_events(lines, first)` reports a line number, those
/// numbers never decrease along the sequence, and they stay within
/// `[first, first + lines.len() - 1]`.
proof fn lemma_line_events_numbers(lines: Seq<Seq<char>>, first: int)
    requires
        1 <= first,
        first + lines.len() <= u32::MAX + 1,
    ensures
        forall|i: int|
            0 <= i < line_events(lines, first).len() ==> event_line(
                #[trigger] line_events(lines, first)[i],
            ) is Some,
        forall|i: int|
            0 <= i < line_events(lines, first).len() ==> first <= event_line(
                #[trigger] line_events(lines, first)[i],
            )->Some_0 as int <= first + lines.len() - 1,
        forall|i: int, j: int|
            0 <= i <= j < line_events(lines, first).len() ==> event_line(
                #[trigger] line_events(lines, first)[i],
            )->Some_0 as int <= event_line(#[trigger] line_events(lines, first)[j])->Some_0 as int,
    decreases lines.len(),
{
    if lines.len() == 0 {
    } else {
        let le = line_events(lines, first);
        let head = opt_event(line_event(first as u32, lines[0]));
        let tail = line_events(lines.drop_first(), first + 1);
        assert(le == head + tail);
        lemma_line_event_line(first as u32, lines[0]);
        lemma_line_events_numbers(lines.drop_first(), first + 1);
        assert forall|i: int| 0 <= i < le.len() implies event_line(#[trigger] le[i]) is Some
            && first <= event_line(le[i])->Some_0 as int <= first + lines.len() - 1 by {
            if i < head.len() {
                assert(le[i] == head[i]);
                assert(event_line(le[i]) == Some(first as u32));
            } else {
                assert(le[i] == tail[i - head.len()]);
            }
        }
        assert forall|i: int, j: int| 0 <= i <= j < le.len() implies event_line(
            #[trigger] le[i],
        )->Some_0 as int <= event_line(#[trigger] le[j])->Some_0 as int by {
            if i < head.len() {
                assert(le[i] == head[i]);
                assert(event_line(le[i]) == Some(first as u32));
                if j < head.len() {
                    assert(le[j] == head[j]);
                } else {
                    assert(le[j] == tail[j - head.len()]);
                }
            } else {
                assert(le[i] == tail[i - head.len()]);
                assert(le[j] == tail[j - head.len()]);
            }
        }
    }
}

/// Line numbers reported to the handler are 1-based, monotonically
/// non-decreasing along the callbacks, and never exceed the count of line
/// terminators plus one.
pub proof fn lemma_line_numbers(doc: Seq<char>)
    requires
        doc.len() < u32::MAX,
    ensures
        forall|i: int|
            0 <= i < doc_events(doc).len() ==> match event_line(#[trigger] doc_events(doc)[i]) {
                None => true,
                Some(l) => 1 <= l as int <= count_line_breaks(doc) + 1,
            },
        forall|i: int, j: int|
            0 <= i <= j < doc_events(doc).len() && event_line(doc_events(doc)[i]) is Some
                && event_line(doc_events(doc)[j]) is Some ==> event_line(
                #[trigger] doc_events(doc)[i],
            )->Some_0 as int <= event_line(#[trigger] doc_events(doc)[j])->Some_0 as int,
{
    let bom = bom_prefix_len(doc);
    let lines = doc_lines(doc);
    lemma_split_rest_count(Seq::empty(), false, doc.skip(bom), false);
    lemma_count_breaks_skip(doc, bom);
    lemma_count_breaks_le_len(doc);
    assert(lines.len() <= count_line_breaks(doc) + 1);
    lemma_line_events_numbers(lines, 1);
    let le = line_events(lines, 1);
    let evs = doc_events(doc);
    assert(evs == seq![ParseEvent::Start] + le + seq![ParseEvent::End]);
    assert forall|i: int| 0 <= i < evs.len() implies match event_line(#[trigger] evs[i]) {
        None => true,
        Some(l) => 1 <= l as int <= count_line_breaks(doc) + 1,
    } by {
        if i == 0 {
            assert(evs[i] == ParseEvent::Start);
        } else if i <= le.len() {
            assert(evs[i] == le[i - 1]);
        } else {
            assert(evs[i] == ParseEvent::End);
        }
    }
    assert forall|i: int, j: int|
        0 <= i <= j < evs.len() && event_line(evs[i]) is Some && event_line(
            evs[j],
        ) is Some implies event_line(#[trigger] evs[i])->Some_0 as int <= event_line(
        #[trigger] evs[j],
    )->Some_0 as int by {
        assert(event_line(ParseEvent::Start) is None);
        assert(event_line(ParseEvent::End) is None);
        if i == 0 || i > le.len() {
            assert(evs[i] == ParseEvent::Start || evs[i] == ParseEvent::End);
        } else if j == 0 || j > le.len() {
            assert(evs[j] == ParseEvent::Start || evs[j] == ParseEvent::End);
        } else {
            assert(evs[i] == le[i - 1]);
            assert(evs[j] == le[j - 1]);
        }
    }
}

/// The events that one whole document produces: the start callback, each
/// line's event, and the end callback.
pub open spec fn doc_events(doc: Seq<char>) -> Seq<ParseEvent> {
    seq![ParseEvent::Start] + line_events(doc_lines(doc), 1) + seq![ParseEvent::End]
}

/// What event `emit` produces from a classified key.
pub open spec fn event_for(t: ParseKeyType, key_text: Seq<char>, n: u32, value: Seq<char>) -> ParseEvent {
    match t {
        ParseKeyType::UserAgent => ParseEvent::UserAgent { line: n, value },
        ParseKeyType::Allow => ParseEvent::Allow { line: n, value },
        ParseKeyType::Disallow => ParseEvent::Disallow { line: n, value },
        ParseKeyType::Sitemap => ParseEvent::Sitemap { line: n, value },
        ParseKeyType::Unknown => ParseEvent::Unknown { line: n, key: key_text, value },
    }
}

/// The key and value of a parsed line are never longer than the line.
proof fn lemma_key_value_len(line: Seq<char>)
    ensures
        match spec_key_value(line) {
            None => true,
            Some(kv) => kv.0.len() <= line.len() && kv.1.len() <= line.len(),
        },
{
    let hash = find_char(line, 0, '#');
    lemma_find_char(line, 0, '#');
    let stripped = if hash < line.len() {
        line.take(hash)
    } else {
        line
    };
    let l = trim(stripped);
    crate::text::lemma_trim_len(stripped);
    assert(l.len() <= line.len());
    let colon = find_char(l, 0, ':');
    lemma_find_char(l, 0, ':');
    if colon < l.len() {
        crate::text::lemma_trim_len(l.take(colon));
        crate::text::lemma_trim_len(l.skip(colon + 1));
    } else {
        let w = find_space_or_tab(l, 0);
        lemma_find_space_or_tab(l, 0);
        if w < l.len() {
            crate::text::lemma_trim_len(l.skip(w));
            crate::text::lemma_trim_len(l.take(w));
        }
    }
}

impl<'a> RobotsTxtParser<'a> {
    /// Whether the value of a key of this classification is run through the
    /// pattern escaper: only Allow and Disallow values are.
    pub fn need_escape_value_for_key(key: &ParsedRobotsKey) -> (r: bool)
        ensures
            r == (key.spec_type() == ParseKeyType::Allow || key.spec_type()
                == ParseKeyType::Disallow),
    {
        match key.get_type() {
            ParseKeyType::Allow => true,
            ParseKeyType::Disallow => true,
            _ => false,
        }
    }
}

/// Hands one classified directive to the handler.
fn emit<H: RobotsParseHandler>(handler: &mut H, line: u32, key: &ParsedRobotsKey, value: &str)
    requires
        value@.len() < i32::MAX,
    ensures
        *final(handler) == old(handler).on_event(
            event_for(key.spec_type(), key.spec_unknown_text(), line, value@),
        ),
{
    match key.get_type() {
        ParseKeyType::UserAgent => handler.handle_user_agent(line, value),
        ParseKeyType::Sitemap => handler.handle_sitemap(line, value),
        ParseKeyType::Allow => handler.handle_allow(line, value),
        ParseKeyType::Disallow => handler.handle_disallow(line, value),
        ParseKeyType::Unknown => {
            let action = key.get_unknown_text();
            handler.handle_unknown_action(line, action.as_str(), value);
        },
    }
}

/// Tokenizes, classifies and escapes one line, and hands the resulting
/// directive, if any, to the handler.
fn parse_and_emit_line<H: RobotsParseHandler>(handler: &mut H, current_line: u32, line: &str)
    requires
        line@.len() <= MAX_LINE_LEN as int,
    ensures
        *final(handler) == apply_events::<H>(
            *old(handler),
            opt_event(line_event(current_line, line@)),
        ),
{
    proof {
        lemma_key_value_len(line@);
    }
    let (string_key, value, ok) = RobotsTxtParser::parse_key_value(line);
    if !ok {
        return ;
    }
    let mut key = ParsedRobotsKey::default();
    key.parse(string_key);
    let ghost ev = line_event(current_line, line@)->Some_0;
    proof {
        assert(line_event(current_line, line@) == Some(ev));
        assert(opt_event(line_event(current_line, line@)) == seq![ev]);
        crate::lemma_apply_one::<H>(*handler, ev);
    }
    if RobotsTxtParser::need_escape_value_for_key(&key) {
        proof {
            lemma_escape_len(value@);
        }
        let escaped = escape_pattern(value);
        emit(handler, current_line, &key, escaped.as_str());
        proof {
            assert(ev == event_for(
                key.spec_type(),
                key.spec_unknown_text(),
                current_line,
                escaped@,
            ));
        }
    } else {
        emit(handler, current_line, &key, value);
        proof {
            assert(ev == event_for(key.spec_type(), key.spec_unknown_text(), current_line, value@));
        }
    }
}

impl Default for ParsedRobotsKey {
    /// An unclassified key that accepts typos.
    fn default() -> (r: Self)
        ensures
            r.spec_type() == ParseKeyType::Unknown,
            r.spec_unknown_text() == Seq::<char>::empty(),
            r.spec_allow_typo(),
    {
        ParsedRobotsKey { type_: ParseKeyType::Unknown, allow_typo: true, key_text: String::new() }
    }
}

} // verus!
