//! Regular-expression engines. Compilation and searching are done by the
//! `fancy_regex` and `regress` crates; this module chooses the engine, builds
//! the pattern and flags handed to them, converts the byte offsets they report
//! into character positions, and enumerates all non-overlapping matches.
use crate::text::{
    byte_offset, byte_offset_of_checked, char_index_of, chars_of, is_boundary_offset,
    lemma_byte_offset_monotone, lemma_byte_offset_suffix, str_eq, string_of,
};
use unicode_width::UnicodeWidthStr;
use vstd::prelude::*;

verus! {

// ── outside types ──────────────────────────────────────────────────────────

#[verifier::external_type_specification]
#[verifier::external_body]
pub struct ExFancyRegex(fancy_regex::Regex);

#[verifier::external_type_specification]
#[verifier::external_body]
pub struct ExRegressRegex(regress::Regex);

// ── names for what the outside functions compute ───────────────────────────

/// Whether `fancy_regex::Regex::new` accepts `pattern`.
pub uninterp spec fn fancy_compiles(pattern: Seq<char>) -> bool;

/// The byte range of the first match of `pattern` in `haystack`, as
/// `fancy_regex::Regex::find` reports it (`None` where it finds nothing or
/// gives up with an error).
pub uninterp spec fn fancy_find(pattern: Seq<char>, haystack: Seq<char>) -> Option<(int, int)>;

/// The message that the error of `fancy_regex::Regex::new` on `pattern`
/// displays.
pub uninterp spec fn fancy_error_message(pattern: Seq<char>) -> Seq<char>;

/// The characters `fancy_regex` treats as special, which `escape` quotes.
pub open spec fn regex_special(c: char) -> bool {
    c == '\\' || c == '.' || c == '+' || c == '*' || c == '?' || c == '(' || c == ')' || c == '|'
        || c == '[' || c == ']' || c == '{' || c == '}' || c == '^' || c == '$' || c == '#'
}

/// How `escape` writes one character once it quotes: a backslash before a
/// special character, and `\n`, `\t`, `\r` for newline, tab and return.
pub open spec fn quote_char(c: char) -> Seq<char> {
    if c == '\\' {
        seq!['\\', '\\']
    } else if c == '\n' {
        seq!['\\', 'n']
    } else if c == '\t' {
        seq!['\\', 't']
    } else if c == '\r' {
        seq!['\\', 'r']
    } else if regex_special(c) {
        seq!['\\', c]
    } else {
        seq![c]
    }
}

/// Every character of `s` written by `quote_char`, in order.
pub open spec fn quote_all(s: Seq<char>) -> Seq<char>
    decreases s.len(),
{
    if s.len() == 0 {
        Seq::empty()
    } else {
        quote_all(s.drop_last()) + quote_char(s.last())
    }
}

/// The text `fancy_regex::escape` produces for `text`: `text` itself when it
/// holds no special character, else every character quoted.
pub open spec fn fancy_escape(text: Seq<char>) -> Seq<char> {
    if exists|k: int| 0 <= k < text.len() && regex_special(#[trigger] text[k]) {
        quote_all(text)
    } else {
        text
    }
}

/// Whether `regress::Regex::with_flags` accepts `pattern` with the given flags.
pub uninterp spec fn regress_compiles(
    pattern: Seq<char>,
    icase: bool,
    multiline: bool,
    dot_all: bool,
) -> bool;

/// The message that the error of `regress::Regex::with_flags` on `pattern`
/// (with the given flags) displays.
pub uninterp spec fn regress_error_message(
    pattern: Seq<char>,
    icase: bool,
    multiline: bool,
    dot_all: bool,
) -> Seq<char>;

/// The byte range of the first match that `regress::Regex::find_from` yields
/// for `pattern` (with the given flags) in `text` from byte position `start`.
pub uninterp spec fn regress_find_from(
    pattern: Seq<char>,
    icase: bool,
    multiline: bool,
    dot_all: bool,
    text: Seq<char>,
    start: int,
) -> Option<(int, int)>;

/// The display width `UnicodeWidthStr::width` gives to `s`.
pub uninterp spec fn str_width(s: Seq<char>) -> nat;

/// The text `str::to_lowercase` gives for `s`.
pub uninterp spec fn lowercase(s: Seq<char>) -> Seq<char>;

// ── compiled matchers ──────────────────────────────────────────────────────

/// A `fancy_regex` regex together with the pattern it was compiled from.
/// Only `fancy_new` builds one, so `re` is always the compilation of `pattern`.
pub struct FancyMatcher {
    pattern: String,
    re: fancy_regex::Regex,
}

impl View for FancyMatcher {
    type V = Seq<char>;

    closed spec fn view(&self) -> Seq<char> {
        self.pattern@
    }
}

/// A `regress` regex together with the pattern and flags it was compiled from.
/// Only `regress_new` builds one.
pub struct RegressMatcher {
    pattern: String,
    icase: bool,
    multiline: bool,
    dot_all: bool,
    re: regress::Regex,
}

impl View for RegressMatcher {
    type V = (Seq<char>, bool, bool, bool);

    closed spec fn view(&self) -> (Seq<char>, bool, bool, bool) {
        (self.pattern@, self.icase, self.multiline, self.dot_all)
    }
}

/// Calls `fancy_regex::Regex::new`. The contract claims that it succeeds
/// exactly on the patterns named by `fancy_compiles`, that the regex it
/// returns is kept with its pattern, and that on failure the error's message
/// (its `Display`, by `to_string`) is the one named for the pattern.
#[verifier::external_body]
fn fancy_new(pattern: String) -> (r: Result<FancyMatcher, String>)
    ensures
        r is Ok <==> fancy_compiles(pattern@),
        r matches Ok(m) ==> m@ == pattern@,
        r matches Err(msg) ==> msg@ == fancy_error_message(pattern@),
{
    match fancy_regex::Regex::new(&pattern) {
        Ok(re) => Ok(FancyMatcher { pattern, re }),
        Err(e) => Err(e.to_string()),
    }
}

/// Calls `fancy_regex::Regex::find` on the text of `haystack` and keeps the
/// byte range of the match. The contract claims the result is `fancy_find` of
/// the pattern and the haystack, and that a match is a well-formed range of
/// character boundaries (`Match::as_str` slices the haystack by it).
#[verifier::external_body]
fn fancy_find_in(m: &FancyMatcher, haystack: &[char]) -> (r: Option<(usize, usize)>)
    ensures
        r is Some <==> fancy_find(m@, haystack@) is Some,
        r matches Some((s, e)) ==> {
            &&& fancy_find(m@, haystack@) == Some((s as int, e as int))
            &&& s <= e
            &&& is_boundary_offset(haystack@, s as int)
            &&& is_boundary_offset(haystack@, e as int)
        },
{
    let text: String = haystack.iter().collect();
    m.re.find(text.as_str()).ok().flatten().map(|x| (x.start(), x.end()))
}

/// Calls `fancy_regex::escape`. The contract claims what its source does: a
/// text without special characters comes back as it is; otherwise each special
/// character gets a backslash before it, and newline, tab and return are
/// written `\n`, `\t`, `\r` (a backslash itself becomes two).
#[verifier::external_body]
pub(crate) fn fancy_escape_text(text: &str) -> (r: String)
    ensures
        r@ == fancy_escape(text@),
{
    fancy_regex::escape(text).into_owned()
}

/// Calls `regress::Regex::with_flags` with the flags `icase`, `multiline` and
/// `dot_all` (all others off, as `regress::Flags::default` leaves them). The
/// contract claims that it succeeds exactly where `regress_compiles` says so,
/// that the regex is kept with its pattern and flags, and that on failure the
/// error's message (its `Display`, by `to_string`) is the one named for them.
#[verifier::external_body]
fn regress_new(pattern: String, icase: bool, multiline: bool, dot_all: bool) -> (r: Result<
    RegressMatcher,
    String,
>)
    ensures
        r is Ok <==> regress_compiles(pattern@, icase, multiline, dot_all),
        r matches Ok(m) ==> m@ == (pattern@, icase, multiline, dot_all),
        r matches Err(msg) ==> msg@ == regress_error_message(pattern@, icase, multiline, dot_all),
{
    let flags = regress::Flags {
        icase,
        multiline,
        dot_all,
        no_opt: false,
        unicode: false,
        unicode_sets: false,
    };
    match regress::Regex::with_flags(&pattern, flags) {
        Ok(re) => Ok(RegressMatcher { pattern, icase, multiline, dot_all, re }),
        Err(e) => Err(e.to_string()),
    }
}

/// Calls `regress::Regex::find_from` on the text of `text` from byte position
/// `start` and keeps the byte range of the first match. `find_from` panics
/// where `start` is not a character boundary, hence the `requires`. The
/// contract claims the result is `regress_find_from`, and that a match lies at
/// or after `start` on character boundaries.
#[verifier::external_body]
fn regress_find_in(m: &RegressMatcher, text: &[char], start: usize) -> (r: Option<(usize, usize)>)
    requires
        is_boundary_offset(text@, start as int),
    ensures
        r is Some <==> regress_find_from(m@.0, m@.1, m@.2, m@.3, text@, start as int) is Some,
        r matches Some((s, e)) ==> {
            &&& regress_find_from(m@.0, m@.1, m@.2, m@.3, text@, start as int) == Some(
                (s as int, e as int),
            )
            &&& start <= s <= e
            &&& is_boundary_offset(text@, s as int)
            &&& is_boundary_offset(text@, e as int)
        },
{
    let t: String = text.iter().collect();
    m.re.find_from(t.as_str(), start).next().map(|x| (x.range.start, x.range.end))
}

/// Calls `UnicodeWidthStr::width` on the text of `s`; the contract names the
/// result.
#[verifier::external_body]
pub(crate) fn display_width(s: &[char]) -> (r: usize)
    ensures
        r == str_width(s@),
{
    let t: String = s.iter().collect();
    UnicodeWidthStr::width(t.as_str())
}

/// Calls `str::to_lowercase`; the contract names the result.
#[verifier::external_body]
fn to_lowercase(s: &str) -> (r: String)
    ensures
        r@ == lowercase(s@),
{
    s.to_lowercase()
}


// ── engines and compiled regexes ───────────────────────────────────────────

/// A match found by a regex: the range of character positions it covers.
#[derive(Debug, Clone, Copy)]
pub struct RegexMatch {
    pub start: usize,
    pub end: usize,
}

/// Which regex engine to use.
#[derive(Debug, Clone, Copy, PartialEq, Eq, Structural)]
pub enum RegexEngine {
    FancyRegex,
    Regress,
}

impl RegexEngine {
    /// `"regress"` in any letter case selects `regress`; anything else selects
    /// `fancy_regex`.
    pub fn from_str(s: &str) -> (r: Self)
        ensures
            r == (if lowercase(s@) == "regress"@ {
                RegexEngine::Regress
            } else {
                RegexEngine::FancyRegex
            }),
    {
        let lower = to_lowercase(s);
        if str_eq(lower.as_str(), "regress") {
            RegexEngine::Regress
        } else {
            RegexEngine::FancyRegex
        }
    }
}

/// What a compiled regex is, mathematically: its engine and the pattern (and
/// flags) the engine compiled.
pub enum RegexModel {
    Fancy(Seq<char>),
    Regress(Seq<char>, bool, bool, bool),
}

/// A compiled regex that abstracts over the underlying engine.
pub enum CompiledRegex {
    Fancy(FancyMatcher),
    Regress(RegressMatcher),
}

impl View for CompiledRegex {
    type V = RegexModel;

    open spec fn view(&self) -> RegexModel {
        match self {
            CompiledRegex::Fancy(m) => RegexModel::Fancy(m@),
            CompiledRegex::Regress(m) => RegexModel::Regress(m@.0, m@.1, m@.2, m@.3),
        }
    }
}

/// The regex flags that `fancy_regex` takes inline (`i`, `s`, `m`, `x`), in order.
pub open spec fn inline_flags(flags: Seq<char>) -> Seq<char>
    decreases flags.len(),
{
    if flags.len() == 0 {
        Seq::empty()
    } else {
        let rest = inline_flags(flags.drop_last());
        let c = flags.last();
        if c == 'i' || c == 's' || c == 'm' || c == 'x' {
            rest.push(c)
        } else {
            rest
        }
    }
}

/// The pattern handed to `fancy_regex`: the flags it takes inline, written as
/// a `(?flags)` prefix, then the pattern.
pub open spec fn fancy_pattern(pattern: Seq<char>, flags: Seq<char>) -> Seq<char> {
    if inline_flags(flags).len() == 0 {
        pattern
    } else {
        seq!['(', '?'] + inline_flags(flags) + seq![')'] + pattern
    }
}

/// The model of the regex that compiling `pattern` with `flags` yields, if
/// the engine accepts it.
pub open spec fn compiled_model(pattern: Seq<char>, flags: Seq<char>, engine: RegexEngine) -> Option<
    RegexModel,
> {
    match engine {
        RegexEngine::FancyRegex => {
            let full = fancy_pattern(pattern, flags);
            if fancy_compiles(full) {
                Some(RegexModel::Fancy(full))
            } else {
                None
            }
        },
        RegexEngine::Regress => {
            let (i, m, s) = (flags.contains('i'), flags.contains('m'), flags.contains('s'));
            if regress_compiles(pattern, i, m, s) {
                Some(RegexModel::Regress(pattern, i, m, s))
            } else {
                None
            }
        },
    }
}

/// The message compiling `pattern` with `flags` fails with, when it fails:
/// the engine's error message for what was handed to it.
pub open spec fn compile_error_model(pattern: Seq<char>, flags: Seq<char>, engine: RegexEngine) -> Seq<
    char,
> {
    match engine {
        RegexEngine::FancyRegex => fancy_error_message(fancy_pattern(pattern, flags)),
        RegexEngine::Regress => regress_error_message(
            pattern,
            flags.contains('i'),
            flags.contains('m'),
            flags.contains('s'),
        ),
    }
}

/// The character position of byte offset `b` in `s`.
pub open spec fn char_pos(s: Seq<char>, b: int) -> int {
    choose|i: int| 0 <= i <= s.len() && byte_offset(s, i) == b
}

pub proof fn lemma_char_pos(s: Seq<char>, i: int)
    requires
        0 <= i <= s.len(),
    ensures
        char_pos(s, byte_offset(s, i) as int) == i,
{
    let b = byte_offset(s, i) as int;
    assert(0 <= i <= s.len() && byte_offset(s, i) == b);
    let j = char_pos(s, b);
    if j < i {
        lemma_byte_offset_monotone(s, j, i);
    } else if i < j {
        lemma_byte_offset_monotone(s, i, j);
    }
}

/// The first match of `re` in `text` at or after character position `start`.
pub open spec fn find_at_model(re: RegexModel, text: Seq<char>, start: int) -> Option<(int, int)> {
    match re {
        RegexModel::Fancy(p) => {
            let h = text.skip(start);
            match fancy_find(p, h) {
                Some((s, e)) => Some((start + char_pos(h, s), start + char_pos(h, e))),
                None => None,
            }
        },
        RegexModel::Regress(p, i, m, d) => {
            let sb = byte_offset(text, start);
            if sb > usize::MAX {
                None
            } else {
                match regress_find_from(p, i, m, d, text, sb as int) {
                    Some((s, e)) => Some((char_pos(text, s), char_pos(text, e))),
                    None => None,
                }
            }
        },
    }
}

/// All non-overlapping non-empty matches of `re` in `text` from position
/// `pos` on: after a match the search goes on at its end; an empty match is
/// skipped and the search goes on one character after it.
pub open spec fn find_all_from(re: RegexModel, text: Seq<char>, pos: int) -> Seq<(int, int)>
    decreases text.len() + 1 - pos,
{
    if pos < 0 || pos > text.len() {
        Seq::empty()
    } else {
        match find_at_model(re, text, pos) {
            Some((s, e)) => if pos <= s <= e <= text.len() {
                if e > s {
                    seq![(s, e)] + find_all_from(re, text, e)
                } else {
                    find_all_from(re, text, s + 1)
                }
            } else {
                Seq::empty()
            },
            None => Seq::empty(),
        }
    }
}

/// All matches `find_all` reports for `re` in `text`.
pub open spec fn find_all_model(re: RegexModel, text: Seq<char>) -> Seq<(int, int)> {
    find_all_from(re, text, 0)
}

pub open spec fn match_ranges(ms: Seq<RegexMatch>) -> Seq<(int, int)> {
    ms.map_values(|m: RegexMatch| (m.start as int, m.end as int))
}

/// The matches are non-empty, ordered, non-overlapping ranges within `[lo, hi]`.
pub open spec fn ordered_ranges(ms: Seq<(int, int)>, lo: int, hi: int) -> bool {
    &&& forall|k: int| 0 <= k < ms.len() ==> lo <= (#[trigger] ms[k]).0 < ms[k].1 <= hi
    &&& forall|k: int| 0 <= k < ms.len() - 1 ==> (#[trigger] ms[k]).1 <= ms[k + 1].0
}

pub proof fn lemma_find_all_ordered(re: RegexModel, text: Seq<char>, pos: int)
    ensures
        ordered_ranges(find_all_from(re, text, pos), pos, text.len() as int),
    decreases text.len() + 1 - pos,
{
    if pos < 0 || pos > text.len() {
    } else {
        match find_at_model(re, text, pos) {
            Some((s, e)) => if pos <= s <= e <= text.len() {
                if e > s {
                    lemma_find_all_ordered(re, text, e);
                    let rest = find_all_from(re, text, e);
                    let all = seq![(s, e)] + rest;
                    assert(all == find_all_from(re, text, pos));
                    assert forall|k: int| 0 <= k < all.len() implies pos <= (#[trigger] all[k]).0
                        < all[k].1 <= text.len() by {
                        if k > 0 {
                            assert(all[k] == rest[k - 1]);
                        }
                    }
                    assert forall|k: int| 0 <= k < all.len() - 1 implies (#[trigger] all[k]).1
                        <= all[k + 1].0 by {
                        if k > 0 {
                            assert(all[k] == rest[k - 1]);
                        }
                        assert(all[k + 1] == rest[k]);
                    }
                } else {
                    lemma_find_all_ordered(re, text, s + 1);
                }
            } else {
            },
            None => {},
        }
    }
}

/// The `(?flags)` prefix of `fancy_pattern`, collected from `flags`.
fn inline_flags_of(flags: &[char]) -> (r: Vec<char>)
    ensures
        r@ == inline_flags(flags@),
{
    let mut r: Vec<char> = Vec::new();
    let mut i: usize = 0;
    while i < flags.len()
        invariant
            i <= flags@.len(),
            r@ == inline_flags(flags@.take(i as int)),
        decreases flags@.len() - i,
    {
        let c = flags[i];
        proof {
            assert(flags@.take(i + 1).drop_last() =~= flags@.take(i as int));
        }
        if c == 'i' || c == 's' || c == 'm' || c == 'x' {
            r.push(c);
        }
        i = i + 1;
    }
    assert(flags@.take(flags@.len() as int) =~= flags@);
    r
}

/// Embeds the regex flags that `fancy_regex` understands as an inline
/// `(?flags)` group in front of the pattern; `g` and unknown flags are dropped.
fn build_fancy_pattern(pattern: &str, flags: &str) -> (r: String)
    ensures
        r@ == fancy_pattern(pattern@, flags@),
{
    let f = chars_of(flags);
    let inl = inline_flags_of(f.as_slice());
    if inl.len() == 0 {
        let p = chars_of(pattern);
        return string_of(p.as_slice());
    }
    let mut out: Vec<char> = Vec::new();
    out.push('(');
    out.push('?');
    crate::text::push_all(&mut out, inl.as_slice());
    out.push(')');
    let p = chars_of(pattern);
    crate::text::push_all(&mut out, p.as_slice());
    assert(out@ =~= seq!['(', '?'] + inline_flags(flags@) + seq![')'] + pattern@);
    string_of(out.as_slice())
}

/// The `regress` flags named in `flags`: `i` (ignore case), `m` (multiline),
/// `s` (dot matches line separators), as `(icase, multiline, dot_all)`.
fn build_regress_flags(flags: &str) -> (r: (bool, bool, bool))
    ensures
        r == (flags@.contains('i'), flags@.contains('m'), flags@.contains('s')),
{
    let f = chars_of(flags);
    let mut icase = false;
    let mut multiline = false;
    let mut dot_all = false;
    let mut i: usize = 0;
    while i < f.len()
        invariant
            i <= f@.len(),
            f@ == flags@,
            icase == f@.take(i as int).contains('i'),
            multiline == f@.take(i as int).contains('m'),
            dot_all == f@.take(i as int).contains('s'),
        decreases f@.len() - i,
    {
        let c = f[i];
        proof {
            let t = f@.take(i + 1);
            assert(t =~= f@.take(i as int).push(c));
            assert forall|x: char| t.contains(x) <==> (f@.take(i as int).contains(x) || x == c) by {
                if t.contains(x) {
                    let k = choose|k: int| 0 <= k < t.len() && t[k] == x;
                    if k < i {
                        assert(f@.take(i as int)[k] == x);
                    }
                }
                if f@.take(i as int).contains(x) {
                    let k = choose|k: int| 0 <= k < i && f@.take(i as int)[k] == x;
                    assert(t[k] == x);
                }
                if x == c {
                    assert(t[i as int] == x);
                }
            }
        }
        if c == 'i' {
            icase = true;
        } else if c == 'm' {
            multiline = true;
        } else if c == 's' {
            dot_all = true;
        }
        i = i + 1;
    }
    assert(f@.take(f@.len() as int) =~= flags@);
    (icase, multiline, dot_all)
}

impl CompiledRegex {
    /// A short description naming the engine; the compiled regex itself is
    /// not shown.
    pub fn describe(&self) -> (r: String)
        ensures
            r@ == (match self {
                CompiledRegex::Fancy(_) => "CompiledRegex::Fancy(...)"@,
                CompiledRegex::Regress(_) => "CompiledRegex::Regress(...)"@,
            }),
    {
        match self {
            CompiledRegex::Fancy(_) => crate::config::owned("CompiledRegex::Fancy(...)"),
            CompiledRegex::Regress(_) => crate::config::owned("CompiledRegex::Regress(...)"),
        }
    }

    /// Compiles `pattern` with the regex `flags` for the given engine. It
    /// fails exactly where the engine rejects the pattern.
    pub fn compile(pattern: &str, flags: &str, engine: &RegexEngine) -> (r: Result<Self, String>)
        ensures
            r is Ok <==> compiled_model(pattern@, flags@, *engine) is Some,
            r matches Ok(c) ==> Some(c@) == compiled_model(pattern@, flags@, *engine),
            r matches Err(e) ==> e@ == compile_error_model(pattern@, flags@, *engine),
    {
        match engine {
            RegexEngine::FancyRegex => {
                let full = build_fancy_pattern(pattern, flags);
                match fancy_new(full) {
                    Ok(m) => Ok(CompiledRegex::Fancy(m)),
                    Err(e) => Err(e),
                }
            },
            RegexEngine::Regress => {
                let (i, m, s) = build_regress_flags(flags);
                let p = chars_of(pattern);
                match regress_new(string_of(p.as_slice()), i, m, s) {
                    Ok(rm) => Ok(CompiledRegex::Regress(rm)),
                    Err(e) => Err(e),
                }
            },
        }
    }

    /// The first match in `text`.
    pub fn find_one(&self, text: &[char]) -> (r: Option<RegexMatch>)
        ensures
            match r {
                Some(m) => find_at_model(self@, text@, 0) == Some((m.start as int, m.end as int))
                    && m.start <= m.end <= text@.len(),
                None => find_at_model(self@, text@, 0) is None,
            },
    {
        self.find_at(text, 0)
    }

    /// The first match in `text` at or after character position `start`.
    pub fn find_at(&self, text: &[char], start: usize) -> (r: Option<RegexMatch>)
        requires
            start <= text@.len(),
        ensures
            match r {
                Some(m) => find_at_model(self@, text@, start as int) == Some(
                    (m.start as int, m.end as int),
                ) && start <= m.start <= m.end <= text@.len(),
                None => find_at_model(self@, text@, start as int) is None,
            },
    {
        match self {
            CompiledRegex::Fancy(m) => {
                let h = &text[start..text.len()];
                assert(h@ =~= text@.skip(start as int));
                match fancy_find_in(m, h) {
                    Some((bs, be)) => {
                        let cs = char_index_of(h, bs);
                        let ce = char_index_of(h, be);
                        proof {
                            lemma_char_pos(h@, cs as int);
                            lemma_char_pos(h@, ce as int);
                            if ce < cs {
                                lemma_byte_offset_monotone(h@, ce as int, cs as int);
                            }
                        }
                        Some(RegexMatch { start: start + cs, end: start + ce })
                    },
                    None => None,
                }
            },
            CompiledRegex::Regress(m) => {
                match byte_offset_of_checked(text, start) {
                    None => None,
                    Some(sb) => {
                        proof {
                            assert(is_boundary_offset(text@, sb as int));
                        }
                        match regress_find_in(m, text, sb) {
                            Some((bs, be)) => {
                                let cs = char_index_of(text, bs);
                                let ce = char_index_of(text, be);
                                proof {
                                    lemma_char_pos(text@, cs as int);
                                    lemma_char_pos(text@, ce as int);
                                    if ce < cs {
                                        lemma_byte_offset_monotone(text@, ce as int, cs as int);
                                    }
                                    if cs < start {
                                        lemma_byte_offset_monotone(text@, cs as int, start as int);
                                    }
                                }
                                Some(RegexMatch { start: cs, end: ce })
                            },
                            None => None,
                        }
                    },
                }
            },
        }
    }

    /// All non-overlapping non-empty matches in `text`, left to right. An
    /// empty match is not reported; the search resumes one character after it.
    pub fn find_all(&self, text: &[char]) -> (r: Vec<RegexMatch>)
        ensures
            match_ranges(r@) == find_all_model(self@, text@),
    {
        let mut results: Vec<RegexMatch> = Vec::new();
        let mut pos: usize = 0;
        let mut done = false;
        while !done && pos <= text.len()
            invariant
                pos <= text@.len() + 1,
                done ==> find_all_from(self@, text@, pos as int) == Seq::<(int, int)>::empty(),
                match_ranges(results@) + find_all_from(self@, text@, pos as int) == find_all_model(
                    self@,
                    text@,
                ),
            decreases (if done { 0int } else { 1int }), text@.len() + 1 - pos,
        {
            let ghost old_results = results@;
            match self.find_at(text, pos) {
                Some(m) => {
                    if m.end > m.start {
                        pos = m.end;
                        results.push(m);
                        assert(match_ranges(results@) =~= match_ranges(old_results).push(
                            (m.start as int, m.end as int),
                        ));
                        assert(match_ranges(results@) + find_all_from(self@, text@, pos as int)
                            =~= match_ranges(old_results) + (seq![(m.start as int, m.end as int)]
                            + find_all_from(self@, text@, pos as int)));
                    } else if m.start < text.len() {
                        pos = m.start + 1;
                    } else {
                        done = true;
                        assert(find_all_from(self@, text@, (m.start + 1) as int) == Seq::<
                            (int, int),
                        >::empty());
                    }
                },
                None => {
                    done = true;
                },
            }
        }
        assert(find_all_from(self@, text@, pos as int) == Seq::<(int, int)>::empty());
        assert(match_ranges(results@) =~= match_ranges(results@) + Seq::<(int, int)>::empty());
        results
    }
}

/// Compiles a literal string as a regex that matches exactly it (escaped by
/// `fancy_regex::escape`).
pub fn compile_literal(literal: &str, engine: &RegexEngine) -> (r: Result<CompiledRegex, String>)
    ensures
        r is Ok <==> compiled_model(fancy_escape(literal@), Seq::empty(), *engine) is Some,
        r matches Ok(c) ==> Some(c@) == compiled_model(fancy_escape(literal@), Seq::empty(), *engine),
        r matches Err(e) ==> e@ == compile_error_model(fancy_escape(literal@), Seq::empty(), *engine),
{
    let escaped = fancy_escape_text(literal);
    proof {
        reveal_strlit("");
    }
    CompiledRegex::compile(escaped.as_str(), "", engine)
}

/// A literal without special characters is escaped into itself, so it is its
/// own regex source.
pub proof fn law_escape_plain(text: Seq<char>)
    requires
        forall|k: int| 0 <= k < text.len() ==> !regex_special(#[trigger] text[k]),
    ensures
        fancy_escape(text) == text,
{
}

} // verus!
