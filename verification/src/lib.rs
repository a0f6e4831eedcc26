//! A robots.txt parser and matcher in the style of Google's crawler:
//! a tolerant line parser that feeds typed directive events to a handler,
//! and a matcher that resolves Allow/Disallow conflicts by longest match.

use std::borrow::Cow;

use vstd::prelude::*;
use vstd::string::StrSliceExecFns;

pub mod matcher;
pub mod parser;
pub mod text;

verus! {

use crate::text::find_char;
use crate::text::lemma_find_char;

/// A default [`matcher::RobotsMatcher`] with the longest-match strategy.
pub type DefaultMatcher<'a> = matcher::RobotsMatcher<'a, matcher::LongestMatchRobotsMatchStrategy>;

/// One parser callback, as a value: what the parse driver tells a handler,
/// in the order it tells it.
pub enum ParseEvent {
    Start,
    UserAgent { line: u32, value: Seq<char> },
    Allow { line: u32, value: Seq<char> },
    Disallow { line: u32, value: Seq<char> },
    Sitemap { line: u32, value: Seq<char> },
    Unknown { line: u32, key: Seq<char>, value: Seq<char> },
    End,
}

/// Handler for directives found in robots.txt.
///
/// A handler carries a transition function saying how one parser event
/// changes it; each callback promises to advance the handler by exactly one
/// event. The parse driver can then state, for any handler, what a whole
/// document does to it. A handler whose state the proofs do not follow can
/// leave the default transition, which claims nothing new.
pub trait RobotsParseHandler: Sized {
    /// How one parser event changes this handler.
    open spec fn on_event(self, event: ParseEvent) -> Self {
        self
    }

    fn handle_robots_start(&mut self)
        ensures
            *final(self) == old(self).on_event(ParseEvent::Start),
    ;

    fn handle_robots_end(&mut self)
        ensures
            *final(self) == old(self).on_event(ParseEvent::End),
    ;

    fn handle_user_agent(&mut self, line_num: u32, user_agent: &str)
        ensures
            *final(self) == old(self).on_event(
                ParseEvent::UserAgent { line: line_num, value: user_agent@ },
            ),
    ;

    fn handle_allow(&mut self, line_num: u32, value: &str)
        requires
            value@.len() < i32::MAX,
        ensures
            *final(self) == old(self).on_event(
                ParseEvent::Allow { line: line_num, value: value@ },
            ),
    ;

    fn handle_disallow(&mut self, line_num: u32, value: &str)
        requires
            value@.len() < i32::MAX,
        ensures
            *final(self) == old(self).on_event(
                ParseEvent::Disallow { line: line_num, value: value@ },
            ),
    ;

    fn handle_sitemap(&mut self, line_num: u32, value: &str)
        ensures
            *final(self) == old(self).on_event(
                ParseEvent::Sitemap { line: line_num, value: value@ },
            ),
    ;

    /// Any other unrecognized name/value pairs.
    fn handle_unknown_action(&mut self, line_num: u32, action: &str, value: &str)
        ensures
            *final(self) == old(self).on_event(
                ParseEvent::Unknown { line: line_num, key: action@, value: value@ },
            ),
    ;
}

/// A character that can begin the `path;params?query` portion of a URL.
pub open spec fn is_path_start_char(c: char) -> bool {
    c == '/' || c == '?' || c == ';'
}

/// The first index at or after `from` where a path can start,
/// or `s.len()` when there is none (or `from` is out of range).
pub open spec fn find_path_char(s: Seq<char>, from: int) -> int
    decreases s.len() - from,
{
    if !(0 <= from && from < s.len()) {
        s.len() as int
    } else if is_path_start_char(s[from]) {
        from
    } else {
        find_path_char(s, from + 1)
    }
}

proof fn lemma_find_path_char(s: Seq<char>, from: int)
    requires
        0 <= from <= s.len(),
    ensures
        from <= find_path_char(s, from) <= s.len(),
        find_path_char(s, from) < s.len() ==> is_path_start_char(s[find_path_char(s, from)]),
        forall|j: int| from <= j < find_path_char(s, from) ==> !is_path_start_char(s[j]),
    decreases s.len() - from,
{
    if from < s.len() && !is_path_start_char(s[from]) {
        lemma_find_path_char(s, from + 1);
    }
}

/// The first index at or after `from` where the three characters `://` stand,
/// or `s.len()` when there is none (or `from` is out of range).
pub open spec fn find_protocol(s: Seq<char>, from: int) -> int
    decreases s.len() - from,
{
    if !(0 <= from && from + 3 <= s.len()) {
        s.len() as int
    } else if s[from] == ':' && s[from + 1] == '/' && s[from + 2] == '/' {
        from
    } else {
        find_protocol(s, from + 1)
    }
}

proof fn lemma_find_protocol(s: Seq<char>, from: int)
    requires
        0 <= from <= s.len(),
    ensures
        from <= find_protocol(s, from) <= s.len(),
        find_protocol(s, from) < s.len() ==> find_protocol(s, from) + 3 <= s.len(),
    decreases s.len() - from,
{
    if from + 3 <= s.len() && !(s[from] == ':' && s[from + 1] == '/' && s[from + 2] == '/') {
        lemma_find_protocol(s, from + 1);
    }
}

fn exec_find_path_char(v: &Vec<char>, from: usize) -> (r: usize)
    requires
        from <= v@.len(),
    ensures
        r as int == find_path_char(v@, from as int),
        from <= r <= v@.len(),
{
    let mut i: usize = from;
    while i < v.len()
        invariant
            from <= i <= v@.len(),
            find_path_char(v@, from as int) == find_path_char(v@, i as int),
        decreases v@.len() - i,
    {
        let c = v[i];
        if c == '/' || c == '?' || c == ';' {
            return i;
        }
        i += 1;
    }
    i
}

fn exec_find_protocol(v: &Vec<char>, from: usize) -> (r: usize)
    requires
        from <= v@.len(),
    ensures
        r as int == find_protocol(v@, from as int),
        from <= r <= v@.len(),
        r < v@.len() ==> r + 3 <= v@.len(),
{
    let n = v.len();
    let mut i: usize = from;
    proof {
        lemma_find_protocol(v@, from as int);
    }
    while i < n
        invariant
            from <= i <= n == v@.len(),
            find_protocol(v@, from as int) == find_protocol(v@, i as int),
        decreases v@.len() - i,
    {
        if n - i < 3 {
            proof {
                lemma_find_protocol(v@, i as int);
            }
            return n;
        }
        if v[i] == ':' && v[i + 1] == '/' && v[i + 2] == '/' {
            return i;
        }
        i += 1;
    }
    i
}

/// What `get_path_params_query` returns: the `path;params?query` portion of
/// `url`, with scheme, authority and fragment removed, always beginning
/// with `/`.
pub open spec fn path_of(url: Seq<char>) -> Seq<char> {
    let n = url.len() as int;
    let start: int = if n >= 2 && url[0] == '/' && url[1] == '/' {
        2
    } else {
        0
    };
    let early = find_path_char(url, start);
    let proto = find_protocol(url, start);
    let after: int = if proto < n && !(early < n && early < proto) {
        proto + 3
    } else {
        start
    };
    let path_start = find_path_char(url, after);
    if path_start == n {
        seq!['/']
    } else {
        let hash = find_char(url, start, '#');
        if hash < path_start {
            seq!['/']
        } else if url[path_start] == '/' {
            url.subrange(path_start, hash)
        } else {
            seq!['/'] + url.subrange(path_start, hash)
        }
    }
}

/// Extracts path (with params) and query part from URL. Removes scheme,
/// authority, and fragment. Result always starts with "/".
/// Returns "/" if the url doesn't have a path or is not valid.
pub fn get_path_params_query<'a>(url: &'a str) -> (r: Cow<'a, str>)
    ensures
        r@ == path_of(url@),
        r@.len() >= 1,
        r@[0] == '/',
{
    proof {
        reveal_strlit("/");
        lemma_find_path_char(url@, 0);
        lemma_find_char(url@, 0, '#');
    }
    let v = text::chars_of(url);
    let n = v.len();
    // Initial two slashes are ignored.
    let start: usize = if n >= 2 && v[0] == '/' && v[1] == '/' {
        2
    } else {
        0
    };
    let early = exec_find_path_char(&v, start);
    let proto = exec_find_protocol(&v, start);
    // A `://` only marks a scheme when no path character precedes it.
    let after: usize = if proto < n && !(early < n && early < proto) {
        proto + 3
    } else {
        start
    };
    let path_start = exec_find_path_char(&v, after);
    if path_start == n {
        return Cow::Borrowed("/");
    }
    proof {
        lemma_find_path_char(url@, after as int);
        lemma_find_char(url@, start as int, '#');
    }
    let hash = text::find_char_from(&v, start, '#');
    if hash < path_start {
        return Cow::Borrowed("/");
    }
    if v[path_start] == '/' {
        Cow::Borrowed(url.substring_char(path_start, hash))
    } else {
        // Prepend a slash if the result would start e.g. with '?'.
        let mut out: Vec<char> = Vec::new();
        out.push('/');
        let mut i: usize = path_start;
        while i < hash
            invariant
                path_start <= i <= hash <= v@.len(),
                out@ == seq!['/'] + v@.subrange(path_start as int, i as int),
            decreases hash - i,
        {
            out.push(v[i]);
            proof {
                assert(seq!['/'] + v@.subrange(path_start as int, i as int).push(v@[i as int])
                    =~= seq!['/'] + v@.subrange(path_start as int, i + 1));
            }
            i += 1;
        }
        Cow::Owned(text::string_of(&out))
    }
}

/// Parses body of a robots.txt and emits parse callbacks. This will accept
/// typical typos found in robots.txt, such as 'disalow'.
///
/// Note, this function will accept all kind of input but will skip
/// everything that does not look like a robots directive.
pub fn parse_robotstxt<H: RobotsParseHandler>(robots_body: &str, parse_callback: &mut H)
    requires
        robots_body@.len() < u32::MAX,
    ensures
        *final(parse_callback) == apply_events::<H>(
            *old(parse_callback),
            parser::doc_events(robots_body@),
        ),
{
    let robots_parser = parser::RobotsTxtParser::new(robots_body);
    robots_parser.parse(parse_callback);
}

/// The handler after every event of `events`, in order, starting from `h`.
pub open spec fn apply_events<H: RobotsParseHandler>(h: H, events: Seq<ParseEvent>) -> H
    decreases events.len(),
{
    if events.len() == 0 {
        h
    } else {
        apply_events::<H>(h.on_event(events[0]), events.drop_first())
    }
}

/// The source line number an event reports, if it reports one.
pub open spec fn event_line(ev: ParseEvent) -> Option<u32> {
    match ev {
        ParseEvent::Start => None,
        ParseEvent::End => None,
        ParseEvent::UserAgent { line, .. } => Some(line),
        ParseEvent::Allow { line, .. } => Some(line),
        ParseEvent::Disallow { line, .. } => Some(line),
        ParseEvent::Sitemap { line, .. } => Some(line),
        ParseEvent::Unknown { line, .. } => Some(line),
    }
}

/// Folding a single event is one transition.
pub proof fn lemma_apply_one<H: RobotsParseHandler>(h: H, ev: ParseEvent)
    ensures
        apply_events::<H>(h, seq![ev]) == h.on_event(ev),
{
    assert(seq![ev][0] == ev);
    assert(seq![ev].drop_first() =~= Seq::<ParseEvent>::empty());
    assert(apply_events::<H>(h.on_event(ev), Seq::<ParseEvent>::empty()) == h.on_event(ev));
}

/// Folding a concatenation folds the two parts in order.
pub proof fn lemma_apply_events_app<H: RobotsParseHandler>(
    h: H,
    a: Seq<ParseEvent>,
    b: Seq<ParseEvent>,
)
    ensures
        apply_events::<H>(h, a + b) == apply_events::<H>(apply_events::<H>(h, a), b),
    decreases a.len(),
{
    if a.len() == 0 {
        assert(a + b =~= b);
    } else {
        assert((a + b).drop_first() =~= a.drop_first() + b);
        lemma_apply_events_app::<H>(h.on_event(a[0]), a.drop_first(), b);
    }
}

} // verus!
