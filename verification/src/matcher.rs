//! The matcher: glob-style pattern matching of URL paths against
//! robots.txt patterns, the per-agent bookkeeping of best matches, and the
//! final Allow/Disallow verdict under longest-match priority.

use std::borrow::Cow;

use vstd::prelude::*;
use vstd::string::StrSliceExecFns;

verus! {

use crate::ParseEvent;
use crate::RobotsParseHandler;
use crate::apply_events;
use crate::parser::doc_events;
use crate::text::ascii_lower;
use crate::text::char_ascii_lower;
use crate::text::char_whitespace;
use crate::text::chars_of;
use crate::text::is_prefix_of;
use crate::text::is_unicode_whitespace;

/// Instead of just maintaining a Boolean indicating whether a given line has
/// matched, we maintain a count of the maximum number of characters matched
/// by that pattern.
///
/// This structure stores the information associated with a match (e.g. when
/// a Disallow is matched) as the priority of the match and the line matching.
///
/// The priority is initialized with a negative value to make sure that a
/// match of priority 0 is higher priority than no match at all.
#[derive(Clone, Copy, Debug, PartialEq, Eq, Structural)]
pub struct Match {
    pub priority: i32,
    pub line: u32,
}

/// The priority marking "no match seen".
pub const NO_MATCH_PRIORITY: i32 = -1;

impl Match {
    pub fn new(priority: i32, line: u32) -> (r: Match)
        ensures
            r == (Match { priority, line }),
    {
        Match { priority, line }
    }

    pub fn set(&mut self, priority: i32, line: u32)
        ensures
            *final(self) == (Match { priority, line }),
    {
        self.priority = priority;
        self.line = line;
    }

    pub fn clear(&mut self)
        ensures
            *final(self) == (Match { priority: NO_MATCH_PRIORITY, line: 0 }),
    {
        self.set(NO_MATCH_PRIORITY, 0);
    }

    pub fn line(&self) -> (r: u32)
        ensures
            r == self.line,
    {
        self.line
    }

    pub fn priority(&self) -> (r: i32)
        ensures
            r == self.priority,
    {
        self.priority
    }

    /// The match with the higher priority; ties go to `b`.
    pub fn higher_priority_match<'a>(a: &'a Match, b: &'a Match) -> (r: &'a Match)
        ensures
            *r == spec_higher_priority_match(*a, *b),
    {
        if a.priority() > b.priority() {
            a
        } else {
            b
        }
    }
}

/// The match with the higher priority; ties go to `b`.
pub open spec fn spec_higher_priority_match(a: Match, b: Match) -> Match {
    if a.priority > b.priority {
        a
    } else {
        b
    }
}

/// A fresh, cleared match slot.
pub open spec fn empty_match() -> Match {
    Match { priority: NO_MATCH_PRIORITY, line: 0 }
}

impl Default for Match {
    fn default() -> (r: Match)
        ensures
            r == empty_match(),
    {
        Match::new(NO_MATCH_PRIORITY, 0)
    }
}

/// The best matches seen for one directive kind: one slot for the global
/// (`*`) agent, one for the caller's specific agents.
#[derive(Clone, Copy, Debug, PartialEq, Eq, Structural)]
pub struct MatchHierarchy {
    pub global: Match,
    pub specific: Match,
}

/// A fresh, cleared hierarchy.
pub open spec fn empty_hierarchy() -> MatchHierarchy {
    MatchHierarchy { global: empty_match(), specific: empty_match() }
}

impl MatchHierarchy {
    pub fn clear(&mut self)
        ensures
            *final(self) == empty_hierarchy(),
    {
        self.global.clear();
        self.specific.clear();
    }
}

impl Default for MatchHierarchy {
    fn default() -> (r: MatchHierarchy)
        ensures
            r == empty_hierarchy(),
    {
        MatchHierarchy { global: Match::new(NO_MATCH_PRIORITY, 0), specific: Match::new(NO_MATCH_PRIORITY, 0) }
    }
}

/// The positions in `path` at which a match of `pat` can end, having
/// started at position 0: `pat` is read left to right, `*` matches any run
/// of characters, every other character (including `$`) matches itself.
pub open spec fn reaches(path: Seq<char>, pat: Seq<char>, q: int) -> bool
    decreases pat.len(), q,
{
    if pat.len() == 0 {
        q == 0
    } else {
        let c = pat.last();
        let pre = pat.drop_last();
        if c == '*' {
            0 <= q <= path.len() && (reaches(path, pre, q) || (q > 0 && reaches(
                path,
                pat,
                q - 1,
            )))
        } else {
            0 < q <= path.len() && path[q - 1] == c && reaches(path, pre, q - 1)
        }
    }
}

/// A star at the end of the pattern reaches `q` exactly when the pattern
/// before it reaches some position at or before `q`.
pub proof fn lemma_reaches_star(path: Seq<char>, pat: Seq<char>, q: int)
    requires
        pat.len() > 0,
        pat.last() == '*',
    ensures
        reaches(path, pat, q) <==> (0 <= q <= path.len() && exists|q0: int|
            0 <= q0 <= q && #[trigger] reaches(path, pat.drop_last(), q0)),
    decreases (if q > 0 { q } else { 0 }),
{
    let pre = pat.drop_last();
    if q > 0 {
        lemma_reaches_star(path, pat, q - 1);
    }
    if reaches(path, pat, q) {
        if reaches(path, pre, q) {
            assert(0 <= q <= q && reaches(path, pre, q));
        } else {
            let q0 = choose|q0: int| 0 <= q0 <= q - 1 && #[trigger] reaches(path, pre, q0);
            assert(0 <= q0 <= q && reaches(path, pre, q0));
        }
    }
    if 0 <= q <= path.len() && exists|q0: int| 0 <= q0 <= q && #[trigger] reaches(path, pre, q0) {
        let q0 = choose|q0: int| 0 <= q0 <= q && #[trigger] reaches(path, pre, q0);
        if q0 == q {
            assert(reaches(path, pat, q));
        } else {
            assert(0 <= q0 <= q - 1 && reaches(path, pre, q0));
            assert(reaches(path, pat, q - 1));
            assert(reaches(path, pat, q));
        }
    }
}

/// Whether `pattern` matches `path`: anchored at the beginning of the path,
/// with `*` as a wildcard, and `$` special only at the very end of the
/// pattern, where it demands that the match reach the end of the path.
pub open spec fn pattern_matches(path: Seq<char>, pattern: Seq<char>) -> bool {
    if pattern.len() > 0 && pattern.last() == '$' {
        reaches(path, pattern.drop_last(), path.len() as int)
    } else {
        exists|q: int| 0 <= q <= path.len() && reaches(path, pattern, q)
    }
}

/// `q` is a member of the position vector.
spec fn pos_contains(s: Seq<usize>, q: int) -> bool {
    exists|k: int| 0 <= k < s.len() && s[k] == q
}

/// Once no position can be reached for some prefix of the pattern, no
/// position can be reached for any longer prefix either.
proof fn lemma_no_reaches_extend(path: Seq<char>, pat: Seq<char>, m: int, m2: int)
    requires
        0 <= m <= m2 <= pat.len(),
        forall|q: int| !(#[trigger] reaches(path, pat.take(m), q)),
    ensures
        forall|q: int| !(#[trigger] reaches(path, pat.take(m2), q)),
    decreases m2 - m,
{
    if m < m2 {
        assert forall|q: int| !(#[trigger] reaches(path, pat.take(m + 1), q)) by {
            let p1 = pat.take(m + 1);
            assert(p1.drop_last() =~= pat.take(m));
            if reaches(path, p1, q) {
                if p1.last() == '*' {
                    lemma_reaches_star(path, p1, q);
                    let q0 = choose|q0: int|
                        0 <= q0 <= q && #[trigger] reaches(path, p1.drop_last(), q0);
                    assert(reaches(path, p1.drop_last(), q0));
                    assert(reaches(path, pat.take(m), q0));
                } else {
                    assert(reaches(path, p1.drop_last(), q - 1));
                    assert(reaches(path, pat.take(m), q - 1));
                }
            }
        }
        lemma_no_reaches_extend(path, pat, m + 1, m2);
    }
}

/// The set-of-positions pattern match that `RobotsMatchStrategy::matches`
/// runs; it is quadratic in the worst case but bounded by the input size.
fn run_pattern_match(path: &str, pattern: &str) -> (r: bool)
    ensures
        r == pattern_matches(path@, pattern@),
{
    let pv = chars_of(path);
    let tv = chars_of(pattern);
    let pathlen = pv.len();
    let tn = tv.len();
    let has_dollar = tn > 0 && tv[tn - 1] == '$';
    let limit = if has_dollar {
        tn - 1
    } else {
        tn
    };
    // The `pos` vector holds a sorted list of the positions in `path` at
    // which the pattern prefix read so far can have finished matching. If
    // this list ever becomes empty, the whole pattern cannot match.
    let mut pos: Vec<usize> = Vec::new();
    pos.push(0);
    proof {
        assert(tv@.take(0) =~= Seq::<char>::empty());
        assert(pos@[0] == 0);
    }
    let mut i: usize = 0;
    while i < limit
        invariant
            0 <= i <= limit <= tn == tv@.len(),
            limit == (if has_dollar { tn - 1 } else { tn as int }),
            has_dollar == (tn > 0 && tv@[tn as int - 1] == '$'),
            pathlen == pv@.len(),
            pv@ == path@,
            tv@ == pattern@,
            pos@.len() >= 1,
            forall|k: int| 0 <= k < pos@.len() ==> #[trigger] pos@[k] <= pathlen,
            forall|k1: int, k2: int| 0 <= k1 < k2 < pos@.len() ==> pos@[k1] < pos@[k2],
            forall|q: int| pos_contains(pos@, q) <==> reaches(pv@, tv@.take(i as int), q),
        decreases limit - i,
    {
        let c = tv[i];
        let ghost prefix = tv@.take(i as int);
        let ghost prefix1 = tv@.take(i + 1);
        proof {
            assert(prefix1.drop_last() =~= prefix);
            assert(prefix1.last() == tv@[i as int]);
        }
        if c == '*' {
            let base = pos[0];
            let mut newpos: Vec<usize> = Vec::new();
            let mut q: usize = base;
            while q < pathlen
                invariant
                    base <= q <= pathlen,
                    newpos@.len() == q - base,
                    forall|k: int| 0 <= k < newpos@.len() ==> #[trigger] newpos@[k] == base + k,
                decreases pathlen - q,
            {
                newpos.push(q);
                q += 1;
            }
            newpos.push(pathlen);
            proof {
                assert(forall|k: int| 0 <= k < newpos@.len() ==> #[trigger] newpos@[k] == base + k);
                assert(forall|k: int| 0 <= k < pos@.len() ==> pos@[0] <= #[trigger] pos@[k]);
                assert(pos@[0] == base);
                assert(pos_contains(pos@, base as int));
                assert(reaches(pv@, prefix, base as int));
                assert forall|qq: int| pos_contains(newpos@, qq) <==> reaches(pv@, prefix1, qq) by {
                    lemma_reaches_star(pv@, prefix1, qq);
                    if pos_contains(newpos@, qq) {
                        let k = choose|k: int| 0 <= k < newpos@.len() && newpos@[k] == qq;
                        assert(base <= qq <= pathlen);
                        assert(reaches(pv@, prefix1.drop_last(), base as int));
                        assert(0 <= (base as int) <= qq && reaches(
                            pv@,
                            prefix1.drop_last(),
                            base as int,
                        ));
                        assert(reaches(pv@, prefix1, qq));
                    }
                    if reaches(pv@, prefix1, qq) {
                        let q0 = choose|q0: int|
                            0 <= q0 <= qq && #[trigger] reaches(pv@, prefix1.drop_last(), q0);
                        assert(reaches(pv@, prefix, q0));
                        assert(pos_contains(pos@, q0));
                        let k0 = choose|k0: int| 0 <= k0 < pos@.len() && pos@[k0] == q0;
                        assert(pos@[0] <= pos@[k0]);
                        assert(base <= q0);
                        assert(0 <= qq - base < newpos@.len());
                        assert(newpos@[qq - base] == qq);
                        assert(pos_contains(newpos@, qq));
                    }
                }
            }
            pos = newpos;
        } else {
            let mut newpos: Vec<usize> = Vec::new();
            let mut k: usize = 0;
            while k < pos.len()
                invariant
                    0 <= k <= pos@.len(),
                    pathlen == pv@.len(),
                    i < tv@.len(),
                    c == tv@[i as int],
                    forall|k1: int| 0 <= k1 < pos@.len() ==> #[trigger] pos@[k1] <= pathlen,
                    forall|k1: int, k2: int| 0 <= k1 < k2 < pos@.len() ==> pos@[k1] < pos@[k2],
                    forall|k1: int, k2: int|
                        0 <= k1 < k2 < newpos@.len() ==> newpos@[k1] < newpos@[k2],
                    forall|j: int| 0 <= j < newpos@.len() ==> #[trigger] newpos@[j] <= pathlen,
                    forall|qq: int|
                        pos_contains(newpos@, qq) <==> exists|k1: int|
                            0 <= k1 < k && #[trigger] pos@[k1] < pathlen && pos@[k1] + 1 == qq
                                && pv@[pos@[k1] as int] == tv@[i as int],
                decreases pos@.len() - k,
            {
                let p = pos[k];
                let ghost before = newpos@;
                if p < pathlen && pv[p] == c {
                    newpos.push(p + 1);
                    proof {
                    let kk = k as int;
                        assert(newpos@ == before.push((p + 1) as usize));
                        assert forall|k1: int, k2: int|
                            0 <= k1 < k2 < newpos@.len() implies newpos@[k1] < newpos@[k2] by {
                            if k2 == newpos@.len() - 1 {
                                assert(newpos@[k1] == before[k1]);
                                assert(pos_contains(before, before[k1] as int));
                                let k1p = choose|k1p: int|
                                    0 <= k1p < kk && #[trigger] pos@[k1p] < pathlen && pos@[k1p] + 1
                                        == before[k1] && pv@[pos@[k1p] as int] == tv@[i as int];
                                assert(pos@[k1p] < pos@[kk]);
                            } else {
                                assert(newpos@[k1] == before[k1] && newpos@[k2] == before[k2]);
                            }
                        }
                        assert forall|qq: int|
                            pos_contains(newpos@, qq) <==> exists|k1: int|
                                0 <= k1 < kk + 1 && #[trigger] pos@[k1] < pathlen && pos@[k1] + 1
                                    == qq && pv@[pos@[k1] as int] == tv@[i as int] by {
                            if pos_contains(newpos@, qq) {
                                let j = choose|j: int|
                                    0 <= j < newpos@.len() && newpos@[j] == qq;
                                if j == newpos@.len() - 1 {
                                    assert(qq == pos@[kk] + 1);
                                    assert(
                                        0 <= kk < kk + 1 && pos@[kk] < pathlen && pos@[kk] + 1 == qq
                                            && pv@[pos@[kk] as int] == tv@[i as int]);
                                } else {
                                    assert(pos_contains(before, qq));
                                }
                            }
                            if exists|k1: int|
                                0 <= k1 < kk + 1 && #[trigger] pos@[k1] < pathlen && pos@[k1] + 1
                                    == qq && pv@[pos@[k1] as int] == tv@[i as int] {
                                let k1 = choose|k1: int|
                                    0 <= k1 < kk + 1 && #[trigger] pos@[k1] < pathlen && pos@[k1]
                                        + 1 == qq && pv@[pos@[k1] as int] == tv@[i as int];
                                if k1 == kk {
                                    assert(newpos@[newpos@.len() - 1] == qq);
                                } else {
                                    assert(pos_contains(before, qq));
                                    let j = choose|j: int|
                                        0 <= j < before.len() && before[j] == qq;
                                    assert(newpos@[j] == qq);
                                }
                                assert(pos_contains(newpos@, qq));
                            }
                        }
                    }
                } else {
                    proof {
                        let kk = k as int;
                        assert(newpos@ == before);
                        assert forall|qq: int|
                            pos_contains(newpos@, qq) <==> exists|k1: int|
                                0 <= k1 < kk + 1 && #[trigger] pos@[k1] < pathlen && pos@[k1] + 1
                                    == qq && pv@[pos@[k1] as int] == tv@[i as int] by {
                            if exists|k1: int|
                                0 <= k1 < kk + 1 && #[trigger] pos@[k1] < pathlen && pos@[k1] + 1
                                    == qq && pv@[pos@[k1] as int] == tv@[i as int] {
                                let k1 = choose|k1: int|
                                    0 <= k1 < kk + 1 && #[trigger] pos@[k1] < pathlen && pos@[k1]
                                        + 1 == qq && pv@[pos@[k1] as int] == tv@[i as int];
                                assert(k1 != kk);
                            }
                        }
                    }
                }
                k += 1;
            }
            if newpos.len() == 0 {
                proof {
                    assert forall|qq: int| !(#[trigger] reaches(pv@, prefix1, qq)) by {
                        if reaches(pv@, prefix1, qq) {
                            assert(reaches(pv@, prefix, qq - 1));
                            assert(pos_contains(pos@, qq - 1));
                            let k1 = choose|k1: int| 0 <= k1 < pos@.len() && pos@[k1] == qq - 1;
                            assert(
                                0 <= k1 < pos@.len() && pos@[k1] < pathlen && pos@[k1] + 1 == qq
                                    && pv@[pos@[k1] as int] == tv@[i as int]);
                            assert(pos_contains(newpos@, qq));
                        }
                    }
                    assert(forall|qq: int| !(#[trigger] reaches(pv@, tv@.take(i + 1), qq)));
                    lemma_no_reaches_extend(pv@, tv@, i + 1, limit as int);
                    if has_dollar {
                        assert(tv@.take(limit as int) =~= tv@.drop_last());
                        assert(!reaches(pv@, tv@.take(limit as int), pv@.len() as int));
                        assert(reaches(path@, pattern@.drop_last(), path@.len() as int)
                            == reaches(pv@, tv@.take(limit as int), pv@.len() as int));
                        assert(!pattern_matches(path@, pattern@));
                    } else {
                        assert(tv@.take(limit as int) =~= tv@);
                        assert forall|qq: int| !(#[trigger] reaches(path@, pattern@, qq)) by {
                            assert(reaches(path@, pattern@, qq) == reaches(
                                pv@,
                                tv@.take(limit as int),
                                qq,
                            ));
                        }
                        assert(!pattern_matches(path@, pattern@));
                    }
                }
                return false;
            }
            proof {
                assert forall|qq: int| pos_contains(newpos@, qq) <==> reaches(pv@, prefix1, qq) by {
                    if pos_contains(newpos@, qq) {
                        assert(exists|k1: int|
                            0 <= k1 < pos@.len() && #[trigger] pos@[k1] < pathlen && pos@[k1] + 1
                                == qq && pv@[pos@[k1] as int] == tv@[i as int]);
                        let k1 = choose|k1: int|
                            0 <= k1 < pos@.len() && #[trigger] pos@[k1] < pathlen && pos@[k1] + 1
                                == qq && pv@[pos@[k1] as int] == tv@[i as int];
                        assert(pos_contains(pos@, qq - 1));
                        assert(reaches(pv@, prefix, qq - 1));
                        assert(reaches(pv@, prefix1, qq));
                    }
                    if reaches(pv@, prefix1, qq) {
                        assert(reaches(pv@, prefix, qq - 1));
                        assert(pos_contains(pos@, qq - 1));
                        let k1 = choose|k1: int| 0 <= k1 < pos@.len() && pos@[k1] == qq - 1;
                        assert(
                            0 <= k1 < pos@.len() && pos@[k1] < pathlen && pos@[k1] + 1 == qq
                                && pv@[pos@[k1] as int] == tv@[i as int]);
                        assert(pos_contains(newpos@, qq));
                    }
                }
            }
            pos = newpos;
        }
        i += 1;
    }
    let last = pos[pos.len() - 1];
    proof {
        assert(forall|k: int| 0 <= k < pos@.len() ==> #[trigger] pos@[k] <= pos@[pos@.len() - 1]);
        assert(pos_contains(pos@, last as int));
        if has_dollar {
            assert(tv@.take(limit as int) =~= tv@.drop_last());
        } else {
            assert(tv@.take(limit as int) =~= tv@);
        }
    }
    if has_dollar {
        proof {
            if last == pathlen {
                assert(reaches(pv@, tv@.drop_last(), pathlen as int));
            }
            if reaches(pv@, tv@.drop_last(), pathlen as int) {
                assert(pos_contains(pos@, pathlen as int));
                let k = choose|k: int| 0 <= k < pos@.len() && pos@[k] == pathlen;
                assert(pos@[k] <= pos@[pos@.len() - 1]);
            }
        }
        last == pathlen
    } else {
        proof {
            assert(reaches(pv@, tv@, last as int));
        }
        true
    }
}

/// How Allow and Disallow patterns are matched against a URL path and
/// weighed against each other.
///
/// The default matching strategy is longest-match: in case of conflicting
/// matches (both Allow and Disallow), the longest match is the one the
/// webmaster wants.
pub trait RobotsMatchStrategy: Sized {
    /// The priority an Allow pattern gets against this path.
    spec fn spec_match_allow(path: Seq<char>, pattern: Seq<char>) -> int;

    /// The priority a Disallow pattern gets against this path.
    spec fn spec_match_disallow(path: Seq<char>, pattern: Seq<char>) -> int;

    fn match_allow(&self, path: &str, pattern: &str) -> (r: i32)
        requires
            pattern@.len() <= i32::MAX as nat,
        ensures
            r as int == Self::spec_match_allow(path@, pattern@),
    ;

    fn match_disallow(&self, path: &str, pattern: &str) -> (r: i32)
        requires
            pattern@.len() <= i32::MAX as nat,
        ensures
            r as int == Self::spec_match_disallow(path@, pattern@),
    ;

    /// Returns true if URI path matches the specified pattern. Pattern is
    /// anchored at the beginning of path. '$' is special only at the end of
    /// pattern.
    ///
    /// Since 'path' and 'pattern' are both externally determined (by the
    /// webmaster), we make sure to have acceptable worst-case performance.
    fn matches(path: &str, pattern: &str) -> (r: bool)
        ensures
            r == pattern_matches(path@, pattern@),
    {
        run_pattern_match(path, pattern)
    }
}

/// The priority the longest-match strategy gives a pattern against a path:
/// the number of characters of the pattern when it matches, and -1 when it
/// does not.
pub open spec fn longest_match_priority(path: Seq<char>, pattern: Seq<char>) -> int {
    if pattern_matches(path, pattern) {
        pattern.len() as int
    } else {
        -1
    }
}

/// Implements the default robots.txt matching strategy. The maximum number
/// of characters matched by a pattern is returned as its match priority.
pub struct LongestMatchRobotsMatchStrategy;

impl RobotsMatchStrategy for LongestMatchRobotsMatchStrategy {
    open spec fn spec_match_allow(path: Seq<char>, pattern: Seq<char>) -> int {
        longest_match_priority(path, pattern)
    }

    open spec fn spec_match_disallow(path: Seq<char>, pattern: Seq<char>) -> int {
        longest_match_priority(path, pattern)
    }

    fn match_allow(&self, path: &str, pattern: &str) -> (r: i32) {
        if Self::matches(path, pattern) {
            chars_of(pattern).len() as i32
        } else {
            -1
        }
    }

    fn match_disallow(&self, path: &str, pattern: &str) -> (r: i32) {
        if Self::matches(path, pattern) {
            chars_of(pattern).len() as i32
        } else {
            -1
        }
    }
}

impl Default for LongestMatchRobotsMatchStrategy {
    fn default() -> (r: Self)
        ensures
            r == LongestMatchRobotsMatchStrategy,
    {
        LongestMatchRobotsMatchStrategy
    }
}

/// When a pattern earns a non-negative match priority, that priority is
/// exactly the pattern's length.
pub proof fn lemma_match_priority_is_pattern_len(path: Seq<char>, pattern: Seq<char>)
    ensures
        longest_match_priority(path, pattern) >= 0 ==> longest_match_priority(path, pattern)
            == pattern.len(),
{
}

proof fn lemma_literal_reaches(path: Seq<char>, pattern: Seq<char>, q: int)
    requires
        forall|i: int| 0 <= i < pattern.len() ==> #[trigger] pattern[i] != '*',
    ensures
        reaches(path, pattern, q) <==> (q == pattern.len() && is_prefix_of(pattern, path)),
    decreases pattern.len(),
{
    if pattern.len() == 0 {
        assert(path.take(0) =~= pattern);
    } else {
        let c = pattern.last();
        let pre = pattern.drop_last();
        assert(c != '*');
        assert(forall|i: int| 0 <= i < pre.len() ==> #[trigger] pre[i] == pattern[i]);
        lemma_literal_reaches(path, pre, q - 1);
        if reaches(path, pattern, q) {
            assert(q - 1 == pre.len() && is_prefix_of(pre, path));
            assert(path.take(q) =~= pattern);
        }
        if q == pattern.len() && is_prefix_of(pattern, path) {
            assert(path.take(q) == pattern);
            assert(path[q - 1] == c);
            assert(path.take(q - 1) =~= pre);
            assert(is_prefix_of(pre, path));
            assert(reaches(path, pre, q - 1));
        }
    }
}

/// A pattern without `*` and `$` matches a path exactly when it is a
/// prefix of that path.
pub proof fn lemma_plain_pattern_matches_prefix(path: Seq<char>, pattern: Seq<char>)
    requires
        forall|i: int| 0 <= i < pattern.len() ==> #[trigger] pattern[i] != '*' && pattern[i] != '$',
    ensures
        pattern_matches(path, pattern) <==> is_prefix_of(pattern, path),
{
    assert(forall|i: int| 0 <= i < pattern.len() ==> #[trigger] pattern[i] != '*');
    if pattern_matches(path, pattern) {
        let q = choose|q: int| 0 <= q <= path.len() && reaches(path, pattern, q);
        lemma_literal_reaches(path, pattern, q);
    }
    if is_prefix_of(pattern, path) {
        lemma_literal_reaches(path, pattern, pattern.len() as int);
        assert(reaches(path, pattern, pattern.len() as int));
    }
}

/// A character allowed in a user-agent token: letters, `-` and `_`.
pub open spec fn is_agent_char(c: char) -> bool {
    ('a' <= c && c <= 'z') || ('A' <= c && c <= 'Z') || c == '-' || c == '_'
}

/// The length of the longest prefix of `s` made of agent characters.
pub open spec fn agent_prefix_len(s: Seq<char>) -> int
    decreases s.len(),
{
    if s.len() == 0 || !is_agent_char(s[0]) {
        0
    } else {
        1 + agent_prefix_len(s.drop_first())
    }
}

proof fn lemma_agent_prefix_len(s: Seq<char>)
    ensures
        0 <= agent_prefix_len(s) <= s.len(),
        forall|j: int| 0 <= j < agent_prefix_len(s) ==> is_agent_char(#[trigger] s[j]),
        agent_prefix_len(s) < s.len() ==> !is_agent_char(s[agent_prefix_len(s)]),
    decreases s.len(),
{
    if s.len() > 0 && is_agent_char(s[0]) {
        lemma_agent_prefix_len(s.drop_first());
        assert forall|j: int| 0 <= j < agent_prefix_len(s) implies is_agent_char(
            #[trigger] s[j],
        ) by {
            if j > 0 {
                assert(s.drop_first()[j - 1] == s[j]);
            }
        }
        if agent_prefix_len(s) < s.len() {
            assert(s.drop_first()[agent_prefix_len(s) - 1] == s[agent_prefix_len(s)]);
        }
    }
}

/// The matchable part of a user-agent value: its longest prefix of agent
/// characters.
pub open spec fn extracted_agent(s: Seq<char>) -> Seq<char> {
    s.take(agent_prefix_len(s))
}

/// Equality up to ASCII case.
pub open spec fn ascii_eq_ignore_case(a: Seq<char>, b: Seq<char>) -> bool {
    ascii_lower(a) == ascii_lower(b)
}

/// The extracted agent matches one of the caller's agents.
pub open spec fn matches_any_agent(agents: Seq<Seq<char>>, ua: Seq<char>) -> bool {
    exists|i: int|
        0 <= i < agents.len() && ascii_eq_ignore_case(extracted_agent(ua), #[trigger] agents[i])
}

/// A user-agent value that names the global (`*`) agent: a `*`, either
/// alone or followed by whitespace.
pub open spec fn is_global_agent_value(v: Seq<char>) -> bool {
    v.len() >= 1 && v[0] == '*' && (v.len() == 1 || is_unicode_whitespace(v[1]))
}

/// The mathematical model of a matcher's state: what the matcher remembers
/// while a document's directives stream past it.
pub struct MatchState {
    /// Best Allow matches seen so far.
    pub allow: MatchHierarchy,
    /// Best Disallow matches seen so far.
    pub disallow: MatchHierarchy,
    /// Currently inside a `User-agent: *` block.
    pub seen_global_agent: bool,
    /// Currently inside a block naming one of the caller's agents.
    pub seen_specific_agent: bool,
    /// Some block for one of the caller's agents was ever opened.
    pub ever_seen_specific_agent: bool,
    /// A non-UserAgent directive was seen since the last block opened.
    pub seen_separator: bool,
    /// The URL path the patterns are matched against.
    pub path: Seq<char>,
    /// The caller's user-agent tokens.
    pub user_agents: Seq<Seq<char>>,
}

/// The state a matcher starts a document with: everything cleared but the
/// path and the agents.
pub open spec fn start_state(path: Seq<char>, user_agents: Seq<Seq<char>>) -> MatchState {
    MatchState {
        allow: empty_hierarchy(),
        disallow: empty_hierarchy(),
        seen_global_agent: false,
        seen_specific_agent: false,
        ever_seen_specific_agent: false,
        seen_separator: false,
        path,
        user_agents,
    }
}

/// A `User-agent` line: after a separator it opens a new block; a global
/// value raises the global flag; a value matching one of the caller's
/// agents raises the specific flags.
pub open spec fn step_user_agent(st: MatchState, value: Seq<char>) -> MatchState {
    let st1 = if st.seen_separator {
        MatchState {
            seen_global_agent: false,
            seen_specific_agent: false,
            seen_separator: false,
            ..st
        }
    } else {
        st
    };
    if is_global_agent_value(value) {
        MatchState { seen_global_agent: true, ..st1 }
    } else if matches_any_agent(st1.user_agents, value) {
        MatchState { seen_specific_agent: true, ever_seen_specific_agent: true, ..st1 }
    } else {
        st1
    }
}

/// A slot keeps only a strictly better priority.
pub open spec fn improve(slot: Match, pri: int, line: u32) -> Match {
    if (slot.priority as int) < pri {
        Match { priority: pri as i32, line }
    } else {
        slot
    }
}

/// The pattern that an Allow value ending in `/index.htm` or `/index.html`
/// is retried with: everything up to and including the last slash,
/// end-anchored.
pub open spec fn index_htm_pattern(v: Seq<char>) -> Option<Seq<char>> {
    let sp = last_slash(v);
    if sp >= 0 && (v.skip(sp) == "/index.htm"@ || v.skip(sp) == "/index.html"@) {
        Some(v.take(sp + 1).push('$'))
    } else {
        None
    }
}

/// The index of the last `/` in `v`, or -1 when there is none.
pub open spec fn last_slash(v: Seq<char>) -> int
    decreases v.len(),
{
    if v.len() == 0 {
        -1
    } else if v.last() == '/' {
        v.len() - 1
    } else {
        last_slash(v.drop_last())
    }
}

proof fn lemma_last_slash(v: Seq<char>)
    ensures
        -1 <= last_slash(v) < v.len(),
        last_slash(v) >= 0 ==> v[last_slash(v)] == '/',
        forall|j: int| last_slash(v) < j < v.len() ==> v[j] != '/',
    decreases v.len(),
{
    if v.len() > 0 && v.last() != '/' {
        lemma_last_slash(v.drop_last());
        assert(forall|j: int| 0 <= j < v.len() - 1 ==> v.drop_last()[j] == v[j]);
    }
}

/// An `Allow` line: ignored outside any agent block; otherwise the matched
/// priority improves the slot of the scope we are in, retrying an
/// `/index.htm...` value once with its directory pattern.
pub open spec fn step_allow<S: RobotsMatchStrategy>(st: MatchState, line: u32, value: Seq<char>) -> MatchState {
    if !st.seen_global_agent && !st.seen_specific_agent {
        st
    } else {
        let st1 = MatchState { seen_separator: true, ..st };
        let pri = S::spec_match_allow(st.path, value);
        if pri >= 0 {
            allow_improved(st1, pri, line)
        } else {
            match index_htm_pattern(value) {
                Some(p2) => {
                    let pri2 = S::spec_match_allow(st.path, p2);
                    if pri2 >= 0 {
                        allow_improved(st1, pri2, line)
                    } else {
                        st1
                    }
                },
                None => st1,
            }
        }
    }
}

/// The Allow slot of the scope we are in, improved.
pub open spec fn allow_improved(st: MatchState, pri: int, line: u32) -> MatchState {
    if st.seen_specific_agent {
        MatchState {
            allow: MatchHierarchy {
                specific: improve(st.allow.specific, pri, line),
                ..st.allow
            },
            ..st
        }
    } else {
        MatchState {
            allow: MatchHierarchy { global: improve(st.allow.global, pri, line), ..st.allow },
            ..st
        }
    }
}

/// A `Disallow` line: as for Allow, but with no retry.
pub open spec fn step_disallow<S: RobotsMatchStrategy>(st: MatchState, line: u32, value: Seq<char>) -> MatchState {
    if !st.seen_global_agent && !st.seen_specific_agent {
        st
    } else {
        let st1 = MatchState { seen_separator: true, ..st };
        let pri = S::spec_match_disallow(st.path, value);
        if pri >= 0 {
            disallow_improved(st1, pri, line)
        } else {
            st1
        }
    }
}

/// The Disallow slot of the scope we are in, improved.
pub open spec fn disallow_improved(st: MatchState, pri: int, line: u32) -> MatchState {
    if st.seen_specific_agent {
        MatchState {
            disallow: MatchHierarchy {
                specific: improve(st.disallow.specific, pri, line),
                ..st.disallow
            },
            ..st
        }
    } else {
        MatchState {
            disallow: MatchHierarchy {
                global: improve(st.disallow.global, pri, line),
                ..st.disallow
            },
            ..st
        }
    }
}

/// A Sitemap or unrecognized line only separates blocks.
pub open spec fn step_separator(st: MatchState) -> MatchState {
    MatchState { seen_separator: true, ..st }
}

/// How one parser event changes a matcher's state.
pub open spec fn match_step<S: RobotsMatchStrategy>(st: MatchState, ev: ParseEvent) -> MatchState {
    match ev {
        ParseEvent::Start => start_state(st.path, st.user_agents),
        ParseEvent::UserAgent { line, value } => step_user_agent(st, value),
        ParseEvent::Allow { line, value } => step_allow::<S>(st, line, value),
        ParseEvent::Disallow { line, value } => step_disallow::<S>(st, line, value),
        ParseEvent::Sitemap { line, value } => step_separator(st),
        ParseEvent::Unknown { line, key, value } => step_separator(st),
        ParseEvent::End => st,
    }
}

/// The matcher's state after a whole event sequence.
pub open spec fn fold_steps<S: RobotsMatchStrategy>(st: MatchState, events: Seq<ParseEvent>) -> MatchState
    decreases events.len(),
{
    if events.len() == 0 {
        st
    } else {
        fold_steps::<S>(match_step::<S>(st, events[0]), events.drop_first())
    }
}

/// Whether the matcher's final state disallows the URL: a specific match
/// wins over everything; a specific block that imposed nothing allows; else
/// the global matches decide; no match at all allows.
pub open spec fn spec_disallow(st: MatchState) -> bool {
    if st.allow.specific.priority > 0 || st.disallow.specific.priority > 0 {
        st.disallow.specific.priority > st.allow.specific.priority
    } else if st.ever_seen_specific_agent {
        false
    } else if st.disallow.global.priority > 0 || st.allow.global.priority > 0 {
        st.disallow.global.priority > st.allow.global.priority
    } else {
        false
    }
}

/// As `spec_disallow`, with the global scope ignored.
pub open spec fn spec_disallow_ignore_global(st: MatchState) -> bool {
    if st.allow.specific.priority > 0 || st.disallow.specific.priority > 0 {
        st.disallow.specific.priority > st.allow.specific.priority
    } else {
        false
    }
}

/// The verdict of one whole robots.txt document for one URL: what
/// `allowed_by_robots` returns.
pub open spec fn spec_allowed<S: RobotsMatchStrategy>(
    body: Seq<char>,
    user_agents: Seq<Seq<char>>,
    url: Seq<char>,
) -> bool {
    !spec_disallow(
        fold_steps::<S>(start_state(crate::path_of(url), user_agents), doc_events(body)),
    )
}

/// RobotsMatcher - matches robots.txt against URLs.
///
/// The Matcher uses a default match strategy for Allow/Disallow patterns
/// which is the official way of Google crawler to match robots.txt. It is
/// also possible to provide a custom match strategy.
///
/// The entry point for the user is to call one of the `allowed_by_robots`
/// methods that return directly if a URL is being allowed according to the
/// robots.txt and the crawl agent.
/// The RobotsMatcher can be re-used for URLs/robots.txt but is not
/// thread-safe.
pub struct RobotsMatcher<'a, S: RobotsMatchStrategy> {
    /// Characters of 'url' matching Allow.
    allow: MatchHierarchy,
    /// Characters of 'url' matching Disallow.
    disallow: MatchHierarchy,
    /// True if processing global agent rules.
    seen_global_agent: bool,
    /// True if processing our specific agent.
    seen_specific_agent: bool,
    /// True if we ever saw a block for our agent.
    ever_seen_specific_agent: bool,
    /// True if saw any key: value pair.
    seen_separator: bool,
    /// The path we want to pattern match.
    path: Cow<'a, str>,
    /// The user-agents we are interested in.
    user_agents: Vec<&'a str>,
    match_strategy: S,
}

/// The borrowed text of a possibly owned string.
fn cow_as_str<'b, 'a>(c: &'b Cow<'a, str>) -> (s: &'b str)
    ensures
        s@ == c@,
{
    match c {
        Cow::Borrowed(b) => b,
        Cow::Owned(o) => o.as_str(),
    }
}

/// Whether the agent-character prefix of `ua` of length `plen` equals
/// `agent`, ignoring ASCII case.
fn agent_prefix_eq(ua: &Vec<char>, plen: usize, agent: &str) -> (r: bool)
    requires
        plen <= ua@.len(),
    ensures
        r == ascii_eq_ignore_case(ua@.take(plen as int), agent@),
{
    let av = chars_of(agent);
    if av.len() != plen {
        assert(ascii_lower(ua@.take(plen as int)).len() == plen);
        assert(ascii_lower(agent@).len() == agent@.len());
        return false;
    }
    let mut j: usize = 0;
    while j < plen
        invariant
            0 <= j <= plen <= ua@.len(),
            av@.len() == plen,
            av@ == agent@,
            forall|i: int|
                0 <= i < j ==> crate::text::ascii_lower_char(ua@[i]) == crate::text::ascii_lower_char(
                    av@[i],
                ),
        decreases plen - j,
    {
        if char_ascii_lower(ua[j]) != char_ascii_lower(av[j]) {
            assert(ascii_lower(ua@.take(plen as int))[j as int] != ascii_lower(agent@)[j as int]);
            return false;
        }
        j += 1;
    }
    assert(ascii_lower(ua@.take(plen as int)) =~= ascii_lower(agent@));
    true
}

impl<'a, S: RobotsMatchStrategy> RobotsMatcher<'a, S> {
    /// The model of this matcher's state.
    pub closed spec fn state(&self) -> MatchState {
        MatchState {
            allow: self.allow,
            disallow: self.disallow,
            seen_global_agent: self.seen_global_agent,
            seen_specific_agent: self.seen_specific_agent,
            ever_seen_specific_agent: self.ever_seen_specific_agent,
            seen_separator: self.seen_separator,
            path: self.path@,
            user_agents: self.user_agents.deep_view(),
        }
    }

    /// Initialize next path and user-agents to check. Path must contain
    /// only the path, params, and query (if any) of the url and must start
    /// with a '/'.
    fn init_user_agents_and_path(&mut self, user_agents: Vec<&'a str>, path: Cow<'a, str>)
        ensures
            final(self).state() == (MatchState {
                path: path@,
                user_agents: user_agents.deep_view(),
                ..old(self).state()
            }),
    {
        self.path = path;
        self.user_agents = user_agents;
    }

    /// Returns true if we are disallowed from crawling a matching URI.
    fn disallow(&self) -> (r: bool)
        ensures
            r == spec_disallow(self.state()),
    {
        if self.allow.specific.priority() > 0 || self.disallow.specific.priority() > 0 {
            return self.disallow.specific.priority() > self.allow.specific.priority();
        }
        if self.ever_seen_specific_agent {
            // Matching group for user-agent but either without disallow or
            // empty one, i.e. priority == 0.
            return false;
        }
        if self.disallow.global.priority() > 0 || self.allow.global.priority() > 0 {
            return self.disallow.global.priority() > self.allow.global.priority();
        }
        false
    }

    /// Returns true if we are disallowed from crawling a matching URI.
    /// Ignores any rules specified for the default user agent, and bases
    /// its results only on the specified user agents.
    fn disallow_ignore_global(&self) -> (r: bool)
        ensures
            r == spec_disallow_ignore_global(self.state()),
    {
        if self.allow.specific.priority() > 0 || self.disallow.specific.priority() > 0 {
            return self.disallow.specific.priority() > self.allow.specific.priority();
        }
        false
    }

    /// Returns the line that matched or 0 if none matched.
    fn matching_line(&self) -> (r: u32)
        ensures
            r == (if self.state().ever_seen_specific_agent {
                spec_higher_priority_match(
                    self.state().disallow.specific,
                    self.state().allow.specific,
                ).line
            } else {
                spec_higher_priority_match(
                    self.state().disallow.global,
                    self.state().allow.global,
                ).line
            }),
    {
        if self.ever_seen_specific_agent {
            return Match::higher_priority_match(&self.disallow.specific, &self.allow.specific)
                .line();
        }
        Match::higher_priority_match(&self.disallow.global, &self.allow.global).line()
    }

    /// Returns true if any user-agent was seen.
    fn seen_any_agent(&self) -> (r: bool)
        ensures
            r == (self.state().seen_global_agent || self.state().seen_specific_agent),
    {
        self.seen_global_agent || self.seen_specific_agent
    }

    /// Extract the matchable part of a user agent string, essentially
    /// stopping at the first invalid character.
    /// Example: 'Googlebot/2.1' becomes 'Googlebot'
    pub fn extract_user_agent(user_agent: &str) -> (r: &str)
        ensures
            r@ == extracted_agent(user_agent@),
    {
        // Allowed characters in user-agent are [a-zA-Z_-].
        let v = chars_of(user_agent);
        let plen = agent_prefix(&v);
        user_agent.substring_char(0, plen)
    }

    /// Verifies that the given user agent is valid to be matched against
    /// robots.txt. Valid user agent strings only contain the characters
    /// [a-zA-Z_-].
    pub fn is_valid_user_agent_to_obey(user_agent: &str) -> (r: bool)
        ensures
            r == (user_agent@.len() > 0 && extracted_agent(user_agent@) == user_agent@),
    {
        let v = chars_of(user_agent);
        let plen = agent_prefix(&v);
        proof {
            if plen == v@.len() {
                assert(v@.take(plen as int) =~= user_agent@);
            } else {
                assert(extracted_agent(user_agent@).len() < user_agent@.len());
            }
        }
        v.len() > 0 && plen == v.len()
    }
}

fn char_agent(c: char) -> (r: bool)
    ensures
        r == is_agent_char(c),
{
    let u = c as u32;
    proof {
        assert((0x61 <= u && u <= 0x7A) == ('a' <= c && c <= 'z'));
        assert((0x41 <= u && u <= 0x5A) == ('A' <= c && c <= 'Z'));
        assert((u == 0x2D) == (c == '-'));
        assert((u == 0x5F) == (c == '_'));
    }
    (0x61 <= u && u <= 0x7A) || (0x41 <= u && u <= 0x5A) || u == 0x2D || u == 0x5F
}

/// The length of the leading run of agent characters in `v`.
fn agent_prefix(v: &Vec<char>) -> (r: usize)
    ensures
        r as int == agent_prefix_len(v@),
        r <= v@.len(),
{
    proof {
        lemma_agent_prefix_len(v@);
    }
    let n = v.len();
    let mut j: usize = 0;
    while j < n
        invariant
            0 <= j <= n == v@.len(),
            forall|i: int| 0 <= i < j ==> is_agent_char(#[trigger] v@[i]),
        decreases n - j,
    {
        let ok = char_agent(v[j]);
        if !ok {
            proof {
                lemma_agent_prefix_index(v@, j as int);
            }
            return j;
        }
        j += 1;
    }
    proof {
        lemma_agent_prefix_index(v@, n as int);
    }
    n
}

/// Whether `lit` occurs in `v` starting at position `start`.
fn has_prefix_at(v: &Vec<char>, start: usize, lit: &Vec<char>) -> (r: bool)
    requires
        start <= v@.len(),
    ensures
        r == is_prefix_of(lit@, v@.skip(start as int)),
{
    let ghost s = v@.skip(start as int);
    if v.len() - start < lit.len() {
        assert(s.len() < lit@.len());
        return false;
    }
    let n = lit.len();
    let vn = v.len();
    let mut j: usize = 0;
    while j < n
        invariant
            0 <= j <= n == lit@.len(),
            start + n <= vn == v@.len(),
            s == v@.skip(start as int),
            forall|k: int| 0 <= k < j ==> #[trigger] v@[start + k] == lit@[k],
        decreases n - j,
    {
        if v[start + j] != lit[j] {
            proof {
                assert(s[j as int] == v@[start + j]);
                assert(!is_prefix_of(lit@, s));
            }
            return false;
        }
        j += 1;
    }
    proof {
        assert forall|k: int| 0 <= k < n implies s.take(n as int)[k] == lit@[k] by {
            assert(s[k] == v@[start + k]);
        }
        assert(lit@ =~= s.take(n as int));
    }
    true
}

/// A prefix of the same length is the whole sequence.
proof fn lemma_eq_from_prefix(s: Seq<char>, p: Seq<char>)
    ensures
        (p.len() == s.len() && is_prefix_of(p, s)) <==> s == p,
{
    assert(s.take(s.len() as int) =~= s);
}

/// The index of the last `/` in `v`, when there is one.
fn find_last_slash(v: &Vec<char>) -> (r: Option<usize>)
    ensures
        match r {
            Some(i) => i as int == last_slash(v@) && i < v@.len(),
            None => last_slash(v@) == -1,
        },
{
    let mut t = v.len();
    while t > 0
        invariant
            0 <= t <= v@.len(),
            forall|j: int| t <= j < v@.len() ==> v@[j] != '/',
        decreases t,
    {
        if v[t - 1] == '/' {
            proof {
                lemma_last_slash_index(v@, t - 1);
            }
            return Some(t - 1);
        }
        t -= 1;
    }
    proof {
        lemma_no_slash(v@);
    }
    None
}

/// A `/` with none after it is the last one.
proof fn lemma_last_slash_index(v: Seq<char>, i: int)
    requires
        0 <= i < v.len(),
        v[i] == '/',
        forall|j: int| i < j < v.len() ==> v[j] != '/',
    ensures
        last_slash(v) == i,
    decreases v.len(),
{
    if v.last() != '/' {
        assert(forall|j: int| i < j < v.len() - 1 ==> v.drop_last()[j] == v[j]);
        lemma_last_slash_index(v.drop_last(), i);
    }
}

proof fn lemma_no_slash(v: Seq<char>)
    requires
        forall|j: int| 0 <= j < v.len() ==> v[j] != '/',
    ensures
        last_slash(v) == -1,
    decreases v.len(),
{
    if v.len() > 0 {
        lemma_no_slash(v.drop_last());
    }
}

impl<'a, S: RobotsMatchStrategy> RobotsParseHandler for RobotsMatcher<'a, S> {
    closed spec fn on_event(self, event: ParseEvent) -> Self {
        let st2 = match_step::<S>(self.state(), event);
        RobotsMatcher {
            allow: st2.allow,
            disallow: st2.disallow,
            seen_global_agent: st2.seen_global_agent,
            seen_specific_agent: st2.seen_specific_agent,
            ever_seen_specific_agent: st2.ever_seen_specific_agent,
            seen_separator: st2.seen_separator,
            ..self
        }
    }

    fn handle_robots_start(&mut self) {
        // This is a new robots.txt file: reset all per-document state.
        self.allow.clear();
        self.disallow.clear();
        self.seen_global_agent = false;
        self.seen_specific_agent = false;
        self.ever_seen_specific_agent = false;
        self.seen_separator = false;
    }

    fn handle_robots_end(&mut self) {
    }

    fn handle_user_agent(&mut self, line_num: u32, user_agent: &str) {
        if self.seen_separator {
            self.seen_specific_agent = false;
            self.seen_global_agent = false;
            self.seen_separator = false;
        }
        let ghost st1 = self.state();
        let ua = chars_of(user_agent);
        // Google-specific optimization: a '*' followed by space and more
        // characters in a user-agent record is still regarded a global rule.
        if ua.len() >= 1 && ua[0] == '*' && (ua.len() == 1 || char_whitespace(ua[1])) {
            self.seen_global_agent = true;
            proof {
                assert(is_global_agent_value(user_agent@));
            }
        } else {
            proof {
                assert(!is_global_agent_value(user_agent@));
            }
            let plen = agent_prefix(&ua);
            let ghost agents = self.user_agents.deep_view();
            let n = self.user_agents.len();
            let mut i: usize = 0;
            let mut found = false;
            while i < n
                invariant
                    0 <= i <= n == self.user_agents@.len(),
                    agents == self.user_agents.deep_view(),
                    ua@ == user_agent@,
                    plen as int == agent_prefix_len(ua@),
                    plen <= ua@.len(),
                    found <==> exists|j: int|
                        0 <= j < i && ascii_eq_ignore_case(
                            extracted_agent(ua@),
                            #[trigger] agents[j],
                        ),
                decreases n - i,
            {
                if !found {
                    if agent_prefix_eq(&ua, plen, self.user_agents[i]) {
                        found = true;
                        proof {
                            assert(agents[i as int] == self.user_agents@[i as int]@);
                            assert(ascii_eq_ignore_case(extracted_agent(ua@), agents[i as int]));
                        }
                    }
                }
                i += 1;
            }
            if found {
                self.ever_seen_specific_agent = true;
                self.seen_specific_agent = true;
                proof {
                    assert(matches_any_agent(st1.user_agents, user_agent@));
                }
            } else {
                proof {
                    assert(!matches_any_agent(st1.user_agents, user_agent@));
                }
            }
        }
    }

    fn handle_allow(&mut self, line_num: u32, value: &str) {
        if !self.seen_any_agent() {
            return ;
        }
        self.seen_separator = true;
        let ghost st1 = self.state();
        let path_str = cow_as_str(&self.path);
        let priority = self.match_strategy.match_allow(path_str, value);
        if priority >= 0 {
            if self.seen_specific_agent {
                if self.allow.specific.priority() < priority {
                    self.allow.specific.set(priority, line_num);
                }
            } else if self.allow.global.priority() < priority {
                self.allow.global.set(priority, line_num);
            }
            proof {
                assert(self.state() == allow_improved(
                    st1,
                    S::spec_match_allow(st1.path, value@),
                    line_num,
                ));
            }
        } else {
            // Google-specific optimization: 'index.htm' and 'index.html'
            // are normalized to the directory, end-anchored.
            let vc = chars_of(value);
            let slash = find_last_slash(&vc);
            match slash {
                Some(sp) => {
                    let lit_htm = chars_of("/index.htm");
                    let lit_html = chars_of("/index.html");
                    let tail_len = vc.len() - sp;
                    let is_index = (tail_len == lit_htm.len() && has_prefix_at(&vc, sp, &lit_htm))
                        || (tail_len == lit_html.len() && has_prefix_at(&vc, sp, &lit_html));
                    proof {
                        lemma_eq_from_prefix(vc@.skip(sp as int), "/index.htm"@);
                        lemma_eq_from_prefix(vc@.skip(sp as int), "/index.html"@);
                    }
                    if is_index {
                        let end = sp + 1;
                        let mut np: Vec<char> = Vec::new();
                        let mut t: usize = 0;
                        while t < end
                            invariant
                                0 <= t <= end <= vc@.len(),
                                np@ == vc@.take(t as int),
                            decreases end - t,
                        {
                            np.push(vc[t]);
                            proof {
                                assert(vc@.take(t as int).push(vc@[t as int]) =~= vc@.take(t + 1));
                            }
                            t += 1;
                        }
                        np.push('$');
                        let new_pattern = crate::text::string_of(&np);
                        let pri2 = self.match_strategy.match_allow(path_str, new_pattern.as_str());
                        proof {
                            assert(index_htm_pattern(value@) == Some(new_pattern@));
                        }
                        if pri2 >= 0 {
                            if self.seen_specific_agent {
                                if self.allow.specific.priority() < pri2 {
                                    self.allow.specific.set(pri2, line_num);
                                }
                            } else if self.allow.global.priority() < pri2 {
                                self.allow.global.set(pri2, line_num);
                            }
                            proof {
                                assert(self.state() == allow_improved(
                                    st1,
                                    S::spec_match_allow(st1.path, new_pattern@),
                                    line_num,
                                ));
                            }
                        }
                    } else {
                        proof {
                            assert(index_htm_pattern(value@) is None);
                        }
                    }
                },
                None => {
                    proof {
                        assert(index_htm_pattern(value@) is None);
                    }
                },
            }
        }
    }

    fn handle_disallow(&mut self, line_num: u32, value: &str) {
        if !self.seen_any_agent() {
            return ;
        }
        self.seen_separator = true;
        let ghost st1 = self.state();
        let path_str = cow_as_str(&self.path);
        let priority = self.match_strategy.match_disallow(path_str, value);
        if priority >= 0 {
            if self.seen_specific_agent {
                if self.disallow.specific.priority() < priority {
                    self.disallow.specific.set(priority, line_num);
                }
            } else if self.disallow.global.priority() < priority {
                self.disallow.global.set(priority, line_num);
            }
            proof {
                assert(self.state() == disallow_improved(
                    st1,
                    S::spec_match_disallow(st1.path, value@),
                    line_num,
                ));
            }
        }
    }

    fn handle_sitemap(&mut self, line_num: u32, value: &str) {
        self.seen_separator = true;
    }

    fn handle_unknown_action(&mut self, line_num: u32, action: &str, value: &str) {
        self.seen_separator = true;
    }
}

/// One handler step projects to one state step.
proof fn lemma_on_event_state<'x, S: RobotsMatchStrategy>(
    h: RobotsMatcher<'x, S>,
    ev: ParseEvent,
)
    ensures
        h.on_event(ev).state() == match_step::<S>(h.state(), ev),
{
}

/// A handler fold over a matcher projects to a state fold.
proof fn lemma_apply_is_fold<'x, S: RobotsMatchStrategy>(
    h: RobotsMatcher<'x, S>,
    evs: Seq<ParseEvent>,
)
    ensures
        apply_events::<RobotsMatcher<'x, S>>(h, evs).state() == fold_steps::<S>(h.state(), evs),
    decreases evs.len(),
{
    if evs.len() > 0 {
        lemma_on_event_state::<S>(h, evs[0]);
        lemma_apply_is_fold::<S>(h.on_event(evs[0]), evs.drop_first());
    }
}

impl<'a, S: RobotsMatchStrategy> RobotsMatcher<'a, S> {
    /// Returns true if 'url' is allowed to be fetched by any member of the
    /// "user_agents" vector. 'url' must be %-encoded according to RFC3986.
    pub fn allowed_by_robots(
        &mut self,
        robots_body: &'a str,
        user_agents: Vec<&'a str>,
        url: &'a str,
    ) -> (r: bool)
        requires
            robots_body@.len() < u32::MAX,
        ensures
            r == spec_allowed::<S>(robots_body@, user_agents.deep_view(), url@),
    {
        // The url is not normalized (escaped, percent encoded) here because
        // the user is asked to provide it in escaped form already.
        let ghost agents = user_agents.deep_view();
        let path = crate::get_path_params_query(url);
        self.init_user_agents_and_path(user_agents, path);
        let ghost pre = *self;
        crate::parse_robotstxt(robots_body, self);
        proof {
            let evs = doc_events(robots_body@);
            lemma_apply_is_fold::<S>(pre, evs);
            let mid = crate::parser::line_events(crate::parser::doc_lines(robots_body@), 1);
            assert(evs == seq![ParseEvent::Start] + mid + seq![ParseEvent::End]);
            assert(evs[0] == ParseEvent::Start);
            let st0 = start_state(crate::path_of(url@), agents);
            assert(match_step::<S>(pre.state(), ParseEvent::Start) == st0);
            assert(match_step::<S>(st0, ParseEvent::Start) == st0);
            assert(fold_steps::<S>(pre.state(), evs) == fold_steps::<S>(
                match_step::<S>(pre.state(), evs[0]),
                evs.drop_first(),
            ));
            assert(fold_steps::<S>(st0, evs) == fold_steps::<S>(
                match_step::<S>(st0, evs[0]),
                evs.drop_first(),
            ));
        }
        !self.disallow()
    }

    /// Do robots check for 'url' when there is only one user agent. 'url'
    /// must be %-encoded according to RFC3986.
    pub fn one_agent_allowed_by_robots(
        &mut self,
        robots_txt: &'a str,
        user_agent: &'a str,
        url: &'a str,
    ) -> (r: bool)
        requires
            robots_txt@.len() < u32::MAX,
        ensures
            r == spec_allowed::<S>(robots_txt@, seq![user_agent@], url@),
    {
        let user_agents = vec![user_agent];
        proof {
            assert(user_agents.deep_view() =~= seq![user_agent@]);
        }
        self.allowed_by_robots(robots_txt, user_agents, url)
    }
}

impl<'a, S: RobotsMatchStrategy + Default> Default for RobotsMatcher<'a, S> {
    /// A matcher with everything cleared: an empty path and no agents.
    fn default() -> (r: Self)
        ensures
            r.state() == start_state(""@, Seq::<Seq<char>>::empty()),
    {
        let r = RobotsMatcher {
            allow: MatchHierarchy::default(),
            disallow: MatchHierarchy::default(),
            seen_global_agent: false,
            seen_specific_agent: false,
            ever_seen_specific_agent: false,
            seen_separator: false,
            path: Cow::Borrowed(""),
            user_agents: Vec::new(),
            match_strategy: S::default(),
        };
        proof {
            assert(r.user_agents.deep_view() =~= Seq::<Seq<char>>::empty());
        }
        r
    }
}

/// Running a document through the matcher never depends on the state an
/// earlier document left behind: the first event of any document resets
/// everything but the query, so equal queries end in equal states.
pub proof fn lemma_verdict_ignores_prior_state<S: RobotsMatchStrategy>(
    st_a: MatchState,
    st_b: MatchState,
    body: Seq<char>,
)
    requires
        st_a.path == st_b.path,
        st_a.user_agents == st_b.user_agents,
    ensures
        fold_steps::<S>(st_a, doc_events(body)) == fold_steps::<S>(st_b, doc_events(body)),
{
    let evs = doc_events(body);
    let mid = crate::parser::line_events(crate::parser::doc_lines(body), 1);
    assert(evs == seq![ParseEvent::Start] + mid + seq![ParseEvent::End]);
    assert(evs[0] == ParseEvent::Start);
    assert(match_step::<S>(st_a, evs[0]) == match_step::<S>(st_b, evs[0]));
    assert(fold_steps::<S>(st_a, evs) == fold_steps::<S>(
        match_step::<S>(st_a, evs[0]),
        evs.drop_first(),
    ));
    assert(fold_steps::<S>(st_b, evs) == fold_steps::<S>(
        match_step::<S>(st_b, evs[0]),
        evs.drop_first(),
    ));
}

/// Events other than `UserAgent` can never open an agent block, so the
/// match slots stay clear.
proof fn lemma_fold_keeps_cleared<S: RobotsMatchStrategy>(st: MatchState, evs: Seq<ParseEvent>)
    requires
        st.allow == empty_hierarchy(),
        st.disallow == empty_hierarchy(),
        !st.seen_global_agent,
        !st.seen_specific_agent,
        !st.ever_seen_specific_agent,
        forall|i: int| 0 <= i < evs.len() ==> !(#[trigger] evs[i] is UserAgent),
    ensures
        ({
            let f = fold_steps::<S>(st, evs);
            f.allow == empty_hierarchy() && f.disallow == empty_hierarchy()
                && !f.seen_global_agent && !f.seen_specific_agent && !f.ever_seen_specific_agent
        }),
    decreases evs.len(),
{
    if evs.len() > 0 {
        let st2 = match_step::<S>(st, evs[0]);
        assert(!(evs[0] is UserAgent));
        assert(forall|i: int|
            0 <= i < evs.drop_first().len() ==> #[trigger] evs.drop_first()[i] == evs[i + 1]);
        lemma_fold_keeps_cleared::<S>(st2, evs.drop_first());
    }
}

/// A document with no `User-agent` directive allows every URL to every
/// agent: no block ever opens, so no Allow or Disallow rule applies.
pub proof fn lemma_no_user_agent_allows<S: RobotsMatchStrategy>(
    body: Seq<char>,
    user_agents: Seq<Seq<char>>,
    url: Seq<char>,
)
    requires
        forall|i: int|
            0 <= i < doc_events(body).len() ==> !(#[trigger] doc_events(body)[i] is UserAgent),
    ensures
        spec_allowed::<S>(body, user_agents, url),
{
    let st0 = start_state(crate::path_of(url), user_agents);
    lemma_fold_keeps_cleared::<S>(st0, doc_events(body));
}

/// A point where the agent characters stop pins the prefix length.
proof fn lemma_agent_prefix_index(s: Seq<char>, j: int)
    requires
        0 <= j <= s.len(),
        forall|i: int| 0 <= i < j ==> is_agent_char(#[trigger] s[i]),
        j < s.len() ==> !is_agent_char(s[j]),
    ensures
        agent_prefix_len(s) == j,
    decreases s.len(),
{
    if s.len() > 0 && is_agent_char(s[0]) {
        assert(forall|i: int| 0 <= i < j - 1 ==> s.drop_first()[i] == s[i + 1]);
        if j < s.len() {
            assert(s.drop_first()[j - 1] == s[j]);
        }
        lemma_agent_prefix_index(s.drop_first(), j - 1);
    }
}

} // verus!
