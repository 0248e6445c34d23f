//! Aligns the matches of each pattern across lines by inserting or trimming
//! filler characters in front of them.
use crate::engine::{
    compile_literal, compiled_model, display_width, fancy_escape, find_all_model, find_at_model,
    lemma_find_all_ordered, match_ranges, ordered_ranges, str_width, CompiledRegex, RegexEngine,
    RegexModel,
};
use crate::parser::{AlignPattern, Command};
use crate::text::{
    chars_of, count_leading, count_trailing_fill, fills, is_alphanumeric, char_alphanumeric,
    lemma_leading_run_bound, lemma_trailing_run_bound, leading_run, push_all, push_fills,
    string_of, trailing_run,
};
use vstd::prelude::*;

verus! {

// ── arithmetic as the aligner does it ──────────────────────────────────────

pub open spec fn sat_add(a: int, b: int) -> int {
    if a + b > usize::MAX {
        usize::MAX as int
    } else {
        a + b
    }
}

pub open spec fn sat_sub(a: int, b: int) -> int {
    if a >= b {
        a - b
    } else {
        0
    }
}

pub open spec fn max_int(a: int, b: int) -> int {
    if a >= b {
        a
    } else {
        b
    }
}

pub open spec fn min_int(a: int, b: int) -> int {
    if a <= b {
        a
    } else {
        b
    }
}

// ── matches ────────────────────────────────────────────────────────────────

/// A match found in a line for a particular pattern slot (character positions).
#[derive(Debug, Clone, Copy)]
pub struct SlotMatch {
    /// Position of the match start in the (current) line.
    pub start: usize,
    /// Position of the match end in the (current) line.
    pub end: usize,
    /// For `-c` / `-C`: the position where fill characters are inserted.
    /// Inserting there pushes the match (which comes after) to the right.
    pub context_start: Option<usize>,
}

/// The slot lies within `line`, and its context start (if any) is not after it.
pub open spec fn slot_wf(line: Seq<char>, sl: SlotMatch) -> bool {
    &&& sl.start <= sl.end <= line.len()
    &&& (sl.context_start matches Some(c) ==> c <= sl.start)
}

pub open spec fn insert_point_of(sl: SlotMatch) -> int {
    match sl.context_start {
        Some(c) => c as int,
        None => sl.start as int,
    }
}

/// The position the alignment anchors on: the start of the match, or its end
/// when right-aligning.
pub open spec fn anchor_of(sl: SlotMatch, left_align: bool) -> int {
    if left_align {
        sl.start as int
    } else {
        sl.end as int
    }
}

impl SlotMatch {
    /// The position where fill is inserted or trimmed.
    pub fn insert_point(&self) -> (r: usize)
        ensures
            r == insert_point_of(*self),
    {
        match self.context_start {
            Some(c) => c,
            None => self.start,
        }
    }

    /// Display column of the anchor (match start, or end when right-aligning).
    fn match_col(&self, line: &[char], left_align: bool) -> (r: usize)
        requires
            slot_wf(line@, *self),
        ensures
            r == str_width(line@.take(anchor_of(*self, left_align))),
    {
        let a = if left_align {
            self.start
        } else {
            self.end
        };
        let pre = &line[0..a];
        assert(pre@ =~= line@.take(a as int));
        display_width(pre)
    }
}

// ── the pieces of one alignment step ───────────────────────────────────────

/// Display width of the prefix before `start`, without its trailing fill.
pub open spec fn non_fill_col(line: Seq<char>, start: int, fill: char) -> int {
    sat_sub(str_width(line.take(start)) as int, trailing_run(line.take(start), fill) as int)
}

/// The width of the match when right-aligning, else 0.
pub open spec fn anchor_width(line: Seq<char>, sl: SlotMatch, left_align: bool) -> int {
    if left_align {
        0
    } else {
        str_width(line.subrange(sl.start as int, sl.end as int)) as int
    }
}

/// The column a plain-mode anchor needs: the prefix's width without its
/// trailing fill, then `pad_left` fill, then the match's width when
/// right-aligning (each sum saturating).
pub open spec fn candidate_from(prefix_width: int, trailing_fill: int, pad_left: int, match_width: int) -> int {
    sat_add(sat_add(sat_sub(prefix_width, trailing_fill), pad_left), match_width)
}

/// How much fill goes before a plain-mode match so that its anchor lands at
/// `target`: the distance from the fill-less prefix (plus the match's width
/// when right-aligning) to the target, but never less than `pad_left`.
pub open spec fn needed_from(
    prefix_width: int,
    trailing_fill: int,
    match_width: int,
    target: int,
    pad_left: int,
) -> int {
    let base = sat_add(sat_sub(prefix_width, trailing_fill), match_width);
    if target >= base {
        max_int(target - base, pad_left)
    } else {
        pad_left
    }
}

/// The smallest column this line's anchor can be moved to.
pub open spec fn candidate_col(line: Seq<char>, sl: SlotMatch, p: AlignPattern) -> int {
    if sl.context_start is Some {
        str_width(line.take(anchor_of(sl, p.left_align))) as int
    } else {
        candidate_from(
            str_width(line.take(sl.start as int)) as int,
            trailing_run(line.take(sl.start as int), p.fill) as int,
            p.pad_left as int,
            anchor_width(line, sl, p.left_align),
        )
    }
}

/// The common target column of a slot: the largest candidate over the lines
/// `0..n` that have a match in it (0 when none has).
pub open spec fn target_model(
    working: Seq<Seq<char>>,
    per_line: Seq<Option<SlotMatch>>,
    p: AlignPattern,
    n: int,
) -> int
    decreases n,
{
    if n <= 0 {
        0
    } else {
        let rest = target_model(working, per_line, p, n - 1);
        match per_line[n - 1] {
            Some(sl) => max_int(rest, candidate_col(working[n - 1], sl, p)),
            None => rest,
        }
    }
}

/// How many fill characters go right before the match in plain mode.
pub open spec fn plain_needed(line: Seq<char>, sl: SlotMatch, target: int, p: AlignPattern) -> int {
    needed_from(
        str_width(line.take(sl.start as int)) as int,
        trailing_run(line.take(sl.start as int), p.fill) as int,
        anchor_width(line, sl, p.left_align),
        target,
        p.pad_left as int,
    )
}

/// Plain alignment: the prefix loses its trailing fill and gets exactly the
/// needed fill; after the match, the run of fill is widened to `pad_right`.
pub open spec fn plain_model(line: Seq<char>, sl: SlotMatch, target: int, p: AlignPattern) -> Seq<
    char,
> {
    let s = sl.start as int;
    let e = sl.end as int;
    let prefix = line.take(s);
    let ex = trailing_run(prefix, p.fill) as int;
    let rest = line.skip(e);
    let lead = leading_run(rest, p.fill) as int;
    prefix.take(s - ex) + fills(p.fill, plain_needed(line, sl, target, p) as nat) + line.subrange(
        s,
        e,
    ) + fills(p.fill, max_int(p.pad_right as int, lead) as nat) + rest.skip(lead)
}

/// Context alignment: the difference between the target and the anchor's
/// column is inserted as fill at the insert point, or, when negative, trimmed
/// from the fill before it (as far as there is fill).
pub open spec fn context_model(line: Seq<char>, sl: SlotMatch, target: int, p: AlignPattern) -> Seq<
    char,
> {
    let ip = insert_point_of(sl);
    let cur = str_width(line.take(anchor_of(sl, p.left_align))) as int;
    if target == cur {
        line
    } else if target > cur {
        line.take(ip) + fills(p.fill, (target - cur) as nat) + line.skip(ip)
    } else {
        let pre = line.take(ip);
        let t = min_int(cur - target, trailing_run(pre, p.fill) as int);
        pre.take(ip - t) + line.skip(ip)
    }
}

/// The line after moving the slot's match to `target`.
pub open spec fn align_model(line: Seq<char>, sl: SlotMatch, target: int, p: AlignPattern) -> Seq<
    char,
> {
    if sl.context_start is Some {
        context_model(line, sl, target, p)
    } else {
        plain_model(line, sl, target, p)
    }
}

// ── helpers ────────────────────────────────────────────────────────────────

/// The column a plain-mode anchor needs, from the display width of the text
/// before the match, the number of fill characters it ends with, the left
/// padding and (when right-aligning) the display width of the match.
pub fn candidate_column(prefix_width: usize, trailing_fill: usize, pad_left: usize, match_width: usize) -> (r: usize)
    ensures
        r == candidate_from(prefix_width as int, trailing_fill as int, pad_left as int, match_width as int),
{
    prefix_width.saturating_sub(trailing_fill).saturating_add(pad_left).saturating_add(match_width)
}

/// The number of fill characters to write before a plain-mode match so that
/// its anchor lands at `target` (never fewer than `pad_left`).
pub fn fill_needed(
    prefix_width: usize,
    trailing_fill: usize,
    match_width: usize,
    target: usize,
    pad_left: usize,
) -> (r: usize)
    ensures
        r == needed_from(
            prefix_width as int,
            trailing_fill as int,
            match_width as int,
            target as int,
            pad_left as int,
        ),
{
    let base = prefix_width.saturating_sub(trailing_fill).saturating_add(match_width);
    if target >= base {
        let d = target - base;
        if d >= pad_left {
            d
        } else {
            pad_left
        }
    } else {
        pad_left
    }
}

/// `s` without at most `n` fill characters at its end.
fn trim_end_by(s: &[char], fill: char, n: usize) -> (r: &[char])
    ensures
        r@ == s@.take(s@.len() - min_int(n as int, trailing_run(s@, fill) as int)),
{
    let t = count_trailing_fill(s, fill);
    let k = if n < t {
        n
    } else {
        t
    };
    proof {
        lemma_trailing_run_bound(s@, fill);
    }
    let r = &s[0..s.len() - k];
    assert(r@ =~= s@.take(s@.len() - min_int(n as int, trailing_run(s@, fill) as int)));
    r
}

/// Appends `rest` to `result` with at least `pad_right` fill characters at
/// its start (the run of fill it starts with is kept when longer).
fn ensure_right_padding(result: &mut Vec<char>, rest: &[char], fill: char, pad_right: usize)
    ensures
        final(result)@ == old(result)@ + fills(
            fill,
            max_int(pad_right as int, leading_run(rest@, fill) as int) as nat,
        ) + rest@.skip(leading_run(rest@, fill) as int),
{
    let existing = count_leading(rest, fill);
    proof {
        lemma_leading_run_bound(rest@, fill);
    }
    let ghost before = result@;
    if existing < pad_right {
        push_fills(result, fill, pad_right);
        let tail = &rest[existing..rest.len()];
        push_all(result, tail);
        assert(tail@ =~= rest@.skip(existing as int));
    } else {
        push_all(result, rest);
        assert(rest@ =~= fills(fill, existing as nat) + rest@.skip(existing as int));
        assert(result@ =~= before + fills(fill, existing as nat) + rest@.skip(existing as int));
    }
}

/// Rewrites `line` so that the slot's anchor lands at `target_col`.
fn align_match(line: &[char], slot: &SlotMatch, target_col: usize, pattern: &AlignPattern) -> (r:
    Vec<char>)
    requires
        slot_wf(line@, *slot),
    ensures
        r@ == align_model(line@, *slot, target_col as int, *pattern),
{
    if slot.context_start.is_some() {
        align_with_context(line, slot, target_col, pattern.fill, pattern.left_align)
    } else {
        align_plain(
            line,
            slot,
            target_col,
            pattern.fill,
            pattern.pad_left,
            pattern.pad_right,
            pattern.left_align,
            Ghost(*pattern),
        )
    }
}

/// Plain alignment: strip the fill before the match and write exactly enough
/// fill that the anchor lands at `target_col` (never fewer than `pad_left`);
/// then ensure `pad_right` fill after the match.
fn align_plain(
    line: &[char],
    slot: &SlotMatch,
    target_col: usize,
    fill: char,
    pad_left: usize,
    pad_right: usize,
    left_align: bool,
    Ghost(p): Ghost<AlignPattern>,
) -> (r: Vec<char>)
    requires
        slot_wf(line@, *slot),
        slot.context_start is None,
        p.fill == fill,
        p.pad_left == pad_left,
        p.pad_right == pad_right,
        p.left_align == left_align,
    ensures
        r@ == plain_model(line@, *slot, target_col as int, p),
{
    let s = slot.start;
    let e = slot.end;
    let prefix = &line[0..s];
    assert(prefix@ =~= line@.take(s as int));
    let existing_fill = count_trailing_fill(prefix, fill);
    proof {
        lemma_trailing_run_bound(prefix@, fill);
    }
    let w = display_width(prefix);
    let mw = if left_align {
        0
    } else {
        let m = &line[s..e];
        assert(m@ =~= line@.subrange(s as int, e as int));
        display_width(m)
    };
    let needed_fill = fill_needed(w, existing_fill, mw, target_col, pad_left);
    let kept = trim_end_by(prefix, fill, existing_fill);
    let mut result = crate::text::to_vec(kept);
    push_fills(&mut result, fill, needed_fill);
    let m = &line[s..e];
    push_all(&mut result, m);
    let rest = &line[e..line.len()];
    ensure_right_padding(&mut result, rest, fill, pad_right);
    proof {
        assert(m@ =~= line@.subrange(s as int, e as int));
        assert(rest@ =~= line@.skip(e as int));
    }
    result
}

/// Context alignment (`-c`/`-C`): the difference between `target_col` and the
/// anchor's column is added as fill at the insert point, or trimmed from the
/// fill before it.
fn align_with_context(
    line: &[char],
    slot: &SlotMatch,
    target_col: usize,
    fill: char,
    left_align: bool,
) -> (r: Vec<char>)
    requires
        slot_wf(line@, *slot),
        slot.context_start is Some,
    ensures
        forall|p: AlignPattern|
            p.fill == fill && p.left_align == left_align ==> r@ == #[trigger] context_model(
                line@,
                *slot,
                target_col as int,
                p,
            ),
{
    let insert_point = slot.insert_point();
    let current = slot.match_col(line, left_align);
    if target_col == current {
        return crate::text::to_vec(line);
    }
    let prefix = &line[0..insert_point];
    let tail = &line[insert_point..line.len()];
    assert(prefix@ =~= line@.take(insert_point as int));
    assert(tail@ =~= line@.skip(insert_point as int));
    let mut result = if target_col > current {
        let mut v = crate::text::to_vec(prefix);
        push_fills(&mut v, fill, target_col - current);
        v
    } else {
        let kept = trim_end_by(prefix, fill, current - target_col);
        crate::text::to_vec(kept)
    };
    push_all(&mut result, tail);
    proof {
        let t = min_int(current - target_col, trailing_run(prefix@, fill) as int);
        if target_col < current {
            lemma_trailing_run_bound(prefix@, fill);
            assert(prefix@.take(prefix@.len() - t) =~= line@.take(insert_point as int).take(
                insert_point - t,
            ));
        }
    }
    result
}


// ── compiling a pattern's regexes ──────────────────────────────────────────

/// `s` without a surrounding pair of `/`.
pub open spec fn strip_delims(s: Seq<char>) -> Seq<char> {
    if s.len() >= 2 && s[0] == '/' && s.last() == '/' {
        s.subrange(1, s.len() - 1)
    } else {
        s
    }
}

/// Position of the last `c` in `s`.
pub open spec fn last_index_of(s: Seq<char>, c: char) -> Option<int>
    decreases s.len(),
{
    if s.len() == 0 {
        None
    } else if s.last() == c {
        Some(s.len() - 1)
    } else {
        last_index_of(s.drop_last(), c)
    }
}

/// `/source/flags` split into source and flags; a string without a leading
/// `/` is all source.
pub open spec fn split_flags(s: Seq<char>) -> (Seq<char>, Seq<char>) {
    if s.len() > 0 && s[0] == '/' {
        let inner = s.skip(1);
        match last_index_of(inner, '/') {
            Some(end) => (inner.take(end), inner.skip(end + 1)),
            None => (inner, Seq::empty()),
        }
    } else {
        (s, Seq::empty())
    }
}

/// A pattern made only of word characters (alphanumeric or `_`), not empty.
pub open spec fn is_word_pattern(s: Seq<char>) -> bool {
    s.len() > 0 && forall|k: int| 0 <= k < s.len() ==> char_alphanumeric(#[trigger] s[k]) || s[k]
        == '_'
}

/// The class of characters that may border a word pattern by default.
pub open spec fn default_word_bound() -> Seq<char> {
    seq!['[', '^', 'A', '-', 'Z', 'a', '-', 'z', '0', '-', '9', '_', ']']
}

/// The regex a pattern compiles to: its source with its flags, or its literal
/// text escaped.
pub open spec fn pattern_model(p: AlignPattern, engine: RegexEngine) -> Option<RegexModel> {
    if p.is_regex {
        compiled_model(p.raw@, p.regex_flags@, engine)
    } else {
        compiled_model(fancy_escape(p.raw@), Seq::empty(), engine)
    }
}

/// The word-boundary regex of a pattern: none with `no_word_bound`; the
/// explicit one if given; otherwise the default class, for word patterns only.
pub open spec fn word_bound_model(p: AlignPattern, engine: RegexEngine) -> Option<RegexModel> {
    if p.no_word_bound {
        None
    } else {
        match p.word_bound {
            Some(w) => compiled_model(strip_delims(w@), Seq::empty(), engine),
            None => if is_word_pattern(p.raw@) {
                compiled_model(default_word_bound(), Seq::empty(), engine)
            } else {
                None
            },
        }
    }
}

/// The context regex of a pattern (none with `context_whole`).
pub open spec fn context_regex_model(p: AlignPattern, engine: RegexEngine) -> Option<RegexModel> {
    if p.context_whole {
        None
    } else {
        match p.context {
            Some(c) => compiled_model(split_flags(c@).0, split_flags(c@).1, engine),
            None => None,
        }
    }
}

pub open spec fn opt_model(r: Option<CompiledRegex>) -> Option<RegexModel> {
    match r {
        Some(c) => Some(c@),
        None => None,
    }
}

pub open spec fn opt_ref_model(r: Option<&CompiledRegex>) -> Option<RegexModel> {
    match r {
        Some(c) => Some(c@),
        None => None,
    }
}

fn strip_regex_delimiters(s: &[char]) -> (r: &[char])
    ensures
        r@ == strip_delims(s@),
{
    if s.len() >= 2 && s[0] == '/' && s[s.len() - 1] == '/' {
        let r = &s[1..s.len() - 1];
        assert(r@ =~= s@.subrange(1, s@.len() - 1));
        r
    } else {
        s
    }
}

proof fn lemma_last_index_bound(s: Seq<char>, c: char)
    ensures
        last_index_of(s, c) matches Some(i) ==> 0 <= i < s.len() && s[i] == c,
    decreases s.len(),
{
    if s.len() > 0 && s.last() != c {
        lemma_last_index_bound(s.drop_last(), c);
    }
}

pub(crate) fn rfind(s: &[char], c: char) -> (r: Option<usize>)
    ensures
        match r {
            Some(i) => last_index_of(s@, c) == Some(i as int) && i < s@.len(),
            None => last_index_of(s@, c) is None,
        },
{
    proof {
        lemma_take_all(s@);
    }
    let mut i = s.len();
    while i > 0
        invariant
            i <= s@.len(),
            last_index_of(s@, c) == last_index_of(s@.take(i as int), c),
        decreases i,
    {
        if s[i - 1] == c {
            return Some(i - 1);
        }
        assert(s@.take(i as int).drop_last() =~= s@.take(i - 1));
        i = i - 1;
    }
    None
}

proof fn lemma_take_all(s: Seq<char>)
    ensures
        s.take(s.len() as int) == s,
{
    assert(s.take(s.len() as int) =~= s);
}

fn split_regex_with_flags(s: &[char]) -> (r: (&[char], &[char]))
    ensures
        (r.0@, r.1@) == split_flags(s@),
{
    proof {
        lemma_take_all(s@);
    }
    if s.len() > 0 && s[0] == '/' {
        let inner = &s[1..s.len()];
        assert(inner@ =~= s@.skip(1));
        match rfind(inner, '/') {
            Some(end) => {
                let a = &inner[0..end];
                let b = &inner[end + 1..inner.len()];
                assert(a@ =~= inner@.take(end as int));
                assert(b@ =~= inner@.skip(end + 1));
                (a, b)
            },
            None => {
                let e: &[char] = &s[0..0];
                assert(e@ =~= Seq::<char>::empty());
                (inner, e)
            },
        }
    } else {
        let e: &[char] = &s[0..0];
        assert(e@ =~= Seq::<char>::empty());
        (s, e)
    }
}

fn compile_pattern(pattern: &AlignPattern, engine: &RegexEngine) -> (r: Result<
    CompiledRegex,
    String,
>)
    ensures
        opt_model(r.ok()) == pattern_model(*pattern, *engine),
{
    if pattern.is_regex {
        CompiledRegex::compile(pattern.raw.as_str(), pattern.regex_flags.as_str(), engine)
    } else {
        compile_literal(pattern.raw.as_str(), engine)
    }
}

pub(crate) fn all_word_chars(s: &[char]) -> (r: bool)
    ensures
        r == is_word_pattern(s@),
{
    if s.len() == 0 {
        return false;
    }
    let mut i: usize = 0;
    while i < s.len()
        invariant
            i <= s@.len(),
            forall|k: int| 0 <= k < i ==> char_alphanumeric(#[trigger] s@[k]) || s@[k] == '_',
        decreases s@.len() - i,
    {
        if !(is_alphanumeric(s[i]) || s[i] == '_') {
            return false;
        }
        i = i + 1;
    }
    true
}

/// Compiles the word-bound regex for this pattern: disabled by
/// `no_word_bound`; the explicit pattern if there is one; otherwise the
/// default class, only for patterns made of word characters (punctuation
/// matches anywhere).
fn compile_word_bound(pattern: &AlignPattern, engine: &RegexEngine) -> (r: Option<CompiledRegex>)
    ensures
        opt_model(r) == word_bound_model(*pattern, *engine),
{
    if pattern.no_word_bound {
        return None;
    }
    proof {
        reveal_strlit("");
    }
    match &pattern.word_bound {
        Some(wb_src) => {
            let w = chars_of(wb_src.as_str());
            let src = strip_regex_delimiters(w.as_slice());
            let s = string_of(src);
            return CompiledRegex::compile(s.as_str(), "", engine).ok();
        },
        None => {},
    }
    let text = chars_of(pattern.raw.as_str());
    if !all_word_chars(text.as_slice()) {
        return None;
    }
    proof {
        reveal_strlit("[^A-Za-z0-9_]");
        assert("[^A-Za-z0-9_]"@ =~= default_word_bound());
    }
    CompiledRegex::compile("[^A-Za-z0-9_]", "", engine).ok()
}

/// Compiles the context regex (`-c`) of this pattern.
fn compile_context(pattern: &AlignPattern, engine: &RegexEngine) -> (r: Option<CompiledRegex>)
    ensures
        opt_model(r) == context_regex_model(*pattern, *engine),
{
    if pattern.context_whole {
        return None;
    }
    match &pattern.context {
        Some(c) => {
            let cs = chars_of(c.as_str());
            let (src, flags) = split_regex_with_flags(cs.as_slice());
            let a = string_of(src);
            let b = string_of(flags);
            CompiledRegex::compile(a.as_str(), b.as_str(), engine).ok()
        },
        None => None,
    }
}


// ── finding the matches of a pattern in a line ─────────────────────────────

/// The characters next to the range `[s, e)` are accepted by the word-bound
/// regex (or the range touches the start / end of the line).
pub open spec fn word_bound_ok(line: Seq<char>, s: int, e: int, wb: RegexModel) -> bool {
    &&& (s == 0 || find_at_model(wb, line.subrange(s - 1, s), 0) is Some)
    &&& (e >= line.len() || find_at_model(wb, line.subrange(e, e + 1), 0) is Some)
}

/// Where fill is inserted for a match starting at `ms` whose previous match
/// ended at `last_end`: `-C` takes the whole slice between them; `-c` takes
/// the start of the last match of the context regex in that slice.
pub open spec fn context_start_model(
    line: Seq<char>,
    last_end: int,
    ms: int,
    ctx: Option<RegexModel>,
    whole: bool,
) -> Option<int> {
    if whole {
        Some(last_end)
    } else {
        match ctx {
            Some(c) => {
                let found = find_all_model(c, line.subrange(last_end, ms));
                if found.len() > 0 {
                    Some(last_end + found.last().0)
                } else {
                    None
                }
            },
            None => None,
        }
    }
}

pub open spec fn opt_usize(o: Option<int>) -> Option<usize> {
    match o {
        Some(x) => Some(x as usize),
        None => None,
    }
}

/// The slots a line offers, from the regex matches `raws[k..]` on: matches
/// rejected by the word bound are skipped, at most `repeat` are taken, and
/// each records its context start.
pub open spec fn collect_slots(
    line: Seq<char>,
    raws: Seq<(int, int)>,
    k: int,
    taken: int,
    last_end: int,
    wb: Option<RegexModel>,
    ctx: Option<RegexModel>,
    p: AlignPattern,
) -> Seq<SlotMatch>
    decreases raws.len() - k,
{
    if k < 0 || k >= raws.len() {
        Seq::empty()
    } else if p.repeat matches Some(l) && taken >= l {
        Seq::empty()
    } else {
        let (s, e) = raws[k];
        if wb matches Some(w) && !word_bound_ok(line, s, e, w) {
            collect_slots(line, raws, k + 1, taken, last_end, wb, ctx, p)
        } else {
            seq![
                SlotMatch {
                    start: s as usize,
                    end: e as usize,
                    context_start: opt_usize(
                        context_start_model(line, last_end, s, ctx, p.context_whole),
                    ),
                },
            ] + collect_slots(line, raws, k + 1, taken + 1, e, wb, ctx, p)
        }
    }
}

/// The slots of a pattern in a line.
pub open spec fn slots_model(
    line: Seq<char>,
    re: RegexModel,
    wb: Option<RegexModel>,
    ctx: Option<RegexModel>,
    p: AlignPattern,
) -> Seq<SlotMatch> {
    collect_slots(line, find_all_model(re, line), 0, 0, 0, wb, ctx, p)
}

fn check_word_bound(line: &[char], start: usize, end: usize, wb: &CompiledRegex) -> (r: bool)
    requires
        start <= end <= line@.len(),
    ensures
        r == word_bound_ok(line@, start as int, end as int, wb@),
{
    let before_ok = if start == 0 {
        true
    } else {
        let w = &line[start - 1..start];
        assert(w@ =~= line@.subrange(start - 1, start as int));
        wb.find_at(w, 0).is_some()
    };
    let after_ok = if end >= line.len() {
        true
    } else {
        let w = &line[end..end + 1];
        assert(w@ =~= line@.subrange(end as int, end + 1));
        wb.find_at(w, 0).is_some()
    };
    before_ok && after_ok
}

fn find_context_start(
    line: &[char],
    last_end: usize,
    match_start: usize,
    pattern: &AlignPattern,
    ctx_re: Option<&CompiledRegex>,
) -> (r: Option<usize>)
    requires
        last_end <= match_start <= line@.len(),
    ensures
        r == opt_usize(
            context_start_model(
                line@,
                last_end as int,
                match_start as int,
                opt_ref_model(ctx_re),
                pattern.context_whole,
            ),
        ),
        r matches Some(c) ==> last_end <= c <= match_start,
{
    if pattern.context_whole {
        return Some(last_end);
    }
    match ctx_re {
        Some(ctx) => {
            let slice = &line[last_end..match_start];
            assert(slice@ =~= line@.subrange(last_end as int, match_start as int));
            let ms = ctx.find_all(slice);
            if ms.len() > 0 {
                proof {
                    lemma_find_all_ordered(ctx@, slice@, 0);
                    let k = ms@.len() - 1;
                    assert(match_ranges(ms@)[k] == (ms@[k].start as int, ms@[k].end as int));
                }
                let c = ms[ms.len() - 1].start;
                Some(last_end + c)
            } else {
                None
            }
        },
        None => None,
    }
}

pub open spec fn slots_wf(line: Seq<char>, slots: Seq<SlotMatch>) -> bool {
    forall|k: int| 0 <= k < slots.len() ==> slot_wf(line, #[trigger] slots[k])
}

proof fn lemma_collect_slots_wf(
    line: Seq<char>,
    raws: Seq<(int, int)>,
    k: int,
    taken: int,
    last_end: int,
    wb: Option<RegexModel>,
    ctx: Option<RegexModel>,
    p: AlignPattern,
)
    requires
        ordered_ranges(raws, 0, line.len() as int),
        line.len() <= usize::MAX,
        0 <= k,
        k < raws.len() ==> 0 <= last_end <= raws[k].0,
    ensures
        slots_wf(line, collect_slots(line, raws, k, taken, last_end, wb, ctx, p)),
    decreases raws.len() - k,
{
    if k < 0 || k >= raws.len() {
    } else if p.repeat matches Some(l) && taken >= l {
    } else {
        let (s, e) = raws[k];
        assert(0 <= s < e <= line.len());
        if k + 1 < raws.len() {
            assert(raws[k].1 <= raws[k + 1].0);
        }
        if wb matches Some(w) && !word_bound_ok(line, s, e, w) {
            lemma_collect_slots_wf(line, raws, k + 1, taken, last_end, wb, ctx, p);
        } else {
            lemma_collect_slots_wf(line, raws, k + 1, taken + 1, e, wb, ctx, p);
            let rest = collect_slots(line, raws, k + 1, taken + 1, e, wb, ctx, p);
            let all = collect_slots(line, raws, k, taken, last_end, wb, ctx, p);
            let cs = context_start_model(line, last_end, s, ctx, p.context_whole);
            if cs is Some && !p.context_whole {
                let c = ctx.unwrap();
                let sub = line.subrange(last_end, s);
                lemma_find_all_ordered(c, sub, 0);
                let found = find_all_model(c, sub);
                assert(found[found.len() - 1].0 <= sub.len());
            }
            assert forall|j: int| 0 <= j < all.len() implies slot_wf(line, #[trigger] all[j]) by {
                if j > 0 {
                    assert(all[j] == rest[j - 1]);
                }
            }
        }
    }
}

/// The slots of a pattern in a line: the regex's matches that pass the word
/// bound, at most `repeat` of them, with their context starts.
fn find_matches_in_line(
    line: &[char],
    re: &CompiledRegex,
    word_bound: Option<&CompiledRegex>,
    pattern: &AlignPattern,
    ctx_re: Option<&CompiledRegex>,
) -> (r: Vec<SlotMatch>)
    ensures
        r@ == slots_model(line@, re@, opt_ref_model(word_bound), opt_ref_model(ctx_re), *pattern),
        slots_wf(line@, r@),
{
    let raw = re.find_all(line);
    let ghost raws = match_ranges(raw@);
    let ghost wbm = opt_ref_model(word_bound);
    let ghost ctxm = opt_ref_model(ctx_re);
    proof {
        lemma_find_all_ordered(re@, line@, 0);
    }
    let mut result: Vec<SlotMatch> = Vec::new();
    let mut last_end: usize = 0;
    let mut k: usize = 0;
    let mut done = false;
    while !done && k < raw.len()
        invariant
            raws == match_ranges(raw@),
            raws == find_all_model(re@, line@),
            wbm == opt_ref_model(word_bound),
            ctxm == opt_ref_model(ctx_re),
            ordered_ranges(raws, 0, line@.len() as int),
            k <= raw@.len(),
            k < raws.len() ==> last_end <= raws[k as int].0,
            last_end <= line@.len(),
            done ==> collect_slots(line@, raws, k as int, result@.len() as int, last_end as int, wbm, ctxm, *pattern) == Seq::<SlotMatch>::empty(),
            result@ + collect_slots(
                line@,
                raws,
                k as int,
                result@.len() as int,
                last_end as int,
                wbm,
                ctxm,
                *pattern,
            ) == slots_model(line@, re@, wbm, ctxm, *pattern),
        decreases (if done { 0int } else { 1int }), raw@.len() - k,
    {
        let limit_hit = match pattern.repeat {
            Some(l) => result.len() >= l,
            None => false,
        };
        if limit_hit {
            done = true;
        } else {
            let m = raw[k];
            assert(raws[k as int] == (m.start as int, m.end as int));
            let ok = match word_bound {
                Some(wb) => check_word_bound(line, m.start, m.end, wb),
                None => true,
            };
            if ok {
                let context_start = find_context_start(line, last_end, m.start, pattern, ctx_re);
                let ghost before = result@;
                let ghost unfolded = collect_slots(line@, raws, k as int, result@.len() as int, last_end as int, wbm, ctxm, *pattern);
                let sm = SlotMatch { start: m.start, end: m.end, context_start };
                assert(unfolded == seq![sm] + collect_slots(line@, raws, k + 1, result@.len() + 1int, m.end as int, wbm, ctxm, *pattern));
                result.push(sm);
                last_end = m.end;
                proof {
                    if k + 1 < raws.len() {
                        assert(raws[k as int].1 <= raws[k + 1].0);
                    }
                }
                k = k + 1;
                assert(result@ + collect_slots(line@, raws, k as int, result@.len() as int, last_end as int, wbm, ctxm, *pattern)
                    =~= before + (seq![result@.last()] + collect_slots(line@, raws, k as int, result@.len() as int, last_end as int, wbm, ctxm, *pattern)));
            } else {
                proof {
                    if k + 1 < raws.len() {
                        assert(raws[k as int].1 <= raws[k + 1].0);
                    }
                    assert(collect_slots(line@, raws, k as int, result@.len() as int, last_end as int, wbm, ctxm, *pattern)
                        == collect_slots(line@, raws, k + 1, result@.len() as int, last_end as int, wbm, ctxm, *pattern));
                }
                k = k + 1;
            }
        }
    }
    assert(result@ =~= result@ + Seq::<SlotMatch>::empty());
    proof {
        assert(line@.len() == line.len());
        lemma_collect_slots_wf(line@, raws, 0, 0, 0, wbm, ctxm, *pattern);
    }
    result
}

// ── the target column of a slot ────────────────────────────────────────────

pub open spec fn lines_model(v: Seq<Vec<char>>) -> Seq<Seq<char>> {
    v.map_values(|x: Vec<char>| x@)
}

/// Every line's slot (if any) lies within the line.
pub open spec fn per_line_wf(working: Seq<Seq<char>>, per_line: Seq<Option<SlotMatch>>) -> bool {
    &&& per_line.len() == working.len()
    &&& forall|li: int|
        0 <= li < per_line.len() ==> (#[trigger] per_line[li] matches Some(sl) ==> slot_wf(
            working[li],
            sl,
        ))
}

/// The column the slot's anchor should land in on every line: large enough
/// that every line's anchor can reach it and every line keeps at least
/// `pad_left` fill before its match.
fn compute_target_col(
    working: &Vec<Vec<char>>,
    per_line: &Vec<Option<SlotMatch>>,
    pattern: &AlignPattern,
) -> (r: usize)
    requires
        per_line_wf(lines_model(working@), per_line@),
    ensures
        r == target_model(lines_model(working@), per_line@, *pattern, per_line@.len() as int),
{
    let ghost wm = lines_model(working@);
    let mut best: usize = 0;
    let mut li: usize = 0;
    while li < per_line.len()
        invariant
            wm == lines_model(working@),
            per_line_wf(wm, per_line@),
            li <= per_line@.len(),
            best == target_model(wm, per_line@, *pattern, li as int),
        decreases per_line@.len() - li,
    {
        match &per_line[li] {
            Some(slot) => {
                assert(per_line@[li as int] matches Some(sl) ==> slot_wf(wm[li as int], sl));
                let line = working[li].as_slice();
                assert(line@ == wm[li as int]);
                let cand = if slot.context_start.is_some() {
                    slot.match_col(line, pattern.left_align)
                } else {
                    let prefix = &line[0..slot.start];
                    assert(prefix@ =~= line@.take(slot.start as int));
                    let w = display_width(prefix);
                    let ex = count_trailing_fill(prefix, pattern.fill);
                    let mw = if pattern.left_align {
                        0
                    } else {
                        let m = &line[slot.start..slot.end];
                        assert(m@ =~= line@.subrange(slot.start as int, slot.end as int));
                        display_width(m)
                    };
                    candidate_column(w, ex, pattern.pad_left, mw)
                };
                if cand > best {
                    best = cand;
                }
            },
            None => {},
        }
        li = li + 1;
    }
    best
}


// ── the whole run ──────────────────────────────────────────────────────────

pub open spec fn nth_slot(slots: Seq<SlotMatch>, occ: int) -> Option<SlotMatch> {
    if 0 <= occ < slots.len() {
        Some(slots[occ])
    } else {
        None
    }
}

/// Each active line's `occ`-th slot of the pattern (inactive lines have none).
pub open spec fn per_line_model(
    working: Seq<Seq<char>>,
    active: Seq<bool>,
    re: RegexModel,
    wb: Option<RegexModel>,
    ctx: Option<RegexModel>,
    p: AlignPattern,
    occ: int,
) -> Seq<Option<SlotMatch>> {
    Seq::new(
        working.len(),
        |li: int|
            if active[li] {
                nth_slot(slots_model(working[li], re, wb, ctx, p), occ)
            } else {
                None
            },
    )
}

/// One slot of one pattern: every line with an `occ`-th slot gets it moved to
/// the common target column; the other lines stay as they are.
pub open spec fn slot_step(
    working: Seq<Seq<char>>,
    active: Seq<bool>,
    re: RegexModel,
    wb: Option<RegexModel>,
    ctx: Option<RegexModel>,
    p: AlignPattern,
    occ: int,
) -> Seq<Seq<char>> {
    let pl = per_line_model(working, active, re, wb, ctx, p, occ);
    let target = target_model(working, pl, p, working.len() as int);
    Seq::new(
        working.len(),
        |li: int|
            match pl[li] {
                Some(sl) => align_model(working[li], sl, target, p),
                None => working[li],
            },
    )
}

/// Slots `0..k` of one pattern, applied in order.
pub open spec fn slot_steps(
    working: Seq<Seq<char>>,
    active: Seq<bool>,
    re: RegexModel,
    wb: Option<RegexModel>,
    ctx: Option<RegexModel>,
    p: AlignPattern,
    k: int,
) -> Seq<Seq<char>>
    decreases k,
{
    if k <= 0 {
        working
    } else {
        slot_step(slot_steps(working, active, re, wb, ctx, p, k - 1), active, re, wb, ctx, p, k - 1)
    }
}

/// The largest number of slots an active line among `0..n` offers.
pub open spec fn max_occ(
    working: Seq<Seq<char>>,
    active: Seq<bool>,
    re: RegexModel,
    wb: Option<RegexModel>,
    ctx: Option<RegexModel>,
    p: AlignPattern,
    n: int,
) -> int
    decreases n,
{
    if n <= 0 {
        0
    } else {
        let rest = max_occ(working, active, re, wb, ctx, p, n - 1);
        if active[n - 1] {
            max_int(rest, slots_model(working[n - 1], re, wb, ctx, p).len() as int)
        } else {
            rest
        }
    }
}

pub open spec fn repeat_limit(p: AlignPattern) -> int {
    match p.repeat {
        Some(l) => l as int,
        None => usize::MAX as int,
    }
}

/// How many slots a pattern aligns: the most any active line has, within the
/// repeat limit.
pub open spec fn occ_count(
    working: Seq<Seq<char>>,
    active: Seq<bool>,
    re: RegexModel,
    wb: Option<RegexModel>,
    ctx: Option<RegexModel>,
    p: AlignPattern,
) -> int {
    min_int(max_occ(working, active, re, wb, ctx, p, working.len() as int), repeat_limit(p))
}

/// One pattern's pass over the lines (none where the pattern does not compile).
pub open spec fn pattern_pass(
    working: Seq<Seq<char>>,
    active: Seq<bool>,
    re: Option<RegexModel>,
    wb: Option<RegexModel>,
    ctx: Option<RegexModel>,
    p: AlignPattern,
) -> Seq<Seq<char>> {
    match re {
        Some(r) => slot_steps(working, active, r, wb, ctx, p, occ_count(working, active, r, wb, ctx, p)),
        None => working,
    }
}

pub open spec fn pat(cmd: Command, pi: int) -> AlignPattern {
    cmd.patterns@[pi]
}

pub open spec fn re_of(cmd: Command, pi: int) -> Option<RegexModel> {
    pattern_model(pat(cmd, pi), cmd.global.engine)
}

pub open spec fn wb_of(cmd: Command, pi: int) -> Option<RegexModel> {
    word_bound_model(pat(cmd, pi), cmd.global.engine)
}

pub open spec fn ctx_of(cmd: Command, pi: int) -> Option<RegexModel> {
    context_regex_model(pat(cmd, pi), cmd.global.engine)
}

/// Whether pattern `pi` finds a slot in `line`.
pub open spec fn has_pattern(cmd: Command, pi: int, line: Seq<char>) -> bool {
    match re_of(cmd, pi) {
        Some(re) => slots_model(line, re, wb_of(cmd, pi), ctx_of(cmd, pi), pat(cmd, pi)).len() > 0,
        None => false,
    }
}

pub open spec fn has_any(cmd: Command, line: Seq<char>) -> bool {
    exists|pi: int| 0 <= pi < cmd.patterns@.len() && #[trigger] has_pattern(cmd, pi, line)
}

pub open spec fn has_all(cmd: Command, line: Seq<char>) -> bool {
    forall|pi: int| 0 <= pi < cmd.patterns@.len() ==> #[trigger] has_pattern(cmd, pi, line)
}

/// A line takes part in pattern `pi`'s pass when (the original of) it matches
/// the pattern and, under `-g`, matches every pattern.
pub open spec fn is_active(cmd: Command, pi: int, line: Seq<char>) -> bool {
    (!cmd.global.match_every || has_all(cmd, line)) && has_pattern(cmd, pi, line)
}

pub open spec fn active_model(cmd: Command, orig: Seq<Seq<char>>, pi: int) -> Seq<bool> {
    Seq::new(orig.len(), |li: int| is_active(cmd, pi, orig[li]))
}

/// The lines after the passes of patterns `0..k`, in order.
pub open spec fn passes(cmd: Command, orig: Seq<Seq<char>>, k: int) -> Seq<Seq<char>>
    decreases k,
{
    if k <= 0 {
        orig
    } else {
        pattern_pass(
            passes(cmd, orig, k - 1),
            active_model(cmd, orig, k - 1),
            re_of(cmd, k - 1),
            wb_of(cmd, k - 1),
            ctx_of(cmd, k - 1),
            pat(cmd, k - 1),
        )
    }
}

/// A line stays in the output unless `-d` deletes it for having no match or
/// `-D` for missing some pattern (both judged on the original line).
pub open spec fn is_kept(cmd: Command, line: Seq<char>) -> bool {
    &&& !(cmd.global.delete_no_match && !has_any(cmd, line))
    &&& !(cmd.global.delete_missing_match && !has_all(cmd, line))
}

/// The lines `0..n` of `working` whose originals are kept.
pub open spec fn filter_kept(cmd: Command, orig: Seq<Seq<char>>, working: Seq<Seq<char>>, n: int) -> Seq<
    Seq<char>,
>
    decreases n,
{
    if n <= 0 {
        Seq::empty()
    } else {
        filter_kept(cmd, orig, working, n - 1) + if is_kept(cmd, orig[n - 1]) {
            seq![working[n - 1]]
        } else {
            Seq::empty()
        }
    }
}

/// What a run of the command makes of the lines.
pub open spec fn process_model(cmd: Command, orig: Seq<Seq<char>>) -> Seq<Seq<char>> {
    filter_kept(cmd, orig, passes(cmd, orig, cmd.patterns@.len() as int), orig.len() as int)
}

pub open spec fn strings_model(v: Seq<String>) -> Seq<Seq<char>> {
    v.map_values(|s: String| s@)
}

fn as_ref_regex(o: &Option<CompiledRegex>) -> (r: Option<&CompiledRegex>)
    ensures
        opt_ref_model(r) == opt_model(*o),
{
    match o {
        Some(c) => Some(c),
        None => None,
    }
}

pub struct Aligner {
    cmd: Command,
}

impl View for Aligner {
    type V = Command;

    closed spec fn view(&self) -> Command {
        self.cmd
    }
}

/// Compiles the regexes of every pattern: the pattern, its word bound, its context.
fn compile_all(cmd: &Command) -> (r: (Vec<Option<CompiledRegex>>, Vec<Option<CompiledRegex>>, Vec<
    Option<CompiledRegex>,
>))
    ensures
        r.0@.len() == cmd.patterns@.len(),
        r.1@.len() == cmd.patterns@.len(),
        r.2@.len() == cmd.patterns@.len(),
        forall|pi: int|
            0 <= pi < cmd.patterns@.len() ==> opt_model(#[trigger] r.0@[pi]) == re_of(*cmd, pi)
                && opt_model(r.1@[pi]) == wb_of(*cmd, pi) && opt_model(r.2@[pi]) == ctx_of(*cmd, pi),
{
    let engine = &cmd.global.engine;
    let mut compiled: Vec<Option<CompiledRegex>> = Vec::new();
    let mut word_bounds: Vec<Option<CompiledRegex>> = Vec::new();
    let mut ctx_res: Vec<Option<CompiledRegex>> = Vec::new();
    let mut pi: usize = 0;
    while pi < cmd.patterns.len()
        invariant
            engine == &cmd.global.engine,
            pi <= cmd.patterns@.len(),
            compiled@.len() == pi,
            word_bounds@.len() == pi,
            ctx_res@.len() == pi,
            forall|j: int|
                0 <= j < pi ==> opt_model(#[trigger] compiled@[j]) == re_of(*cmd, j) && opt_model(
                    word_bounds@[j],
                ) == wb_of(*cmd, j) && opt_model(ctx_res@[j]) == ctx_of(*cmd, j),
        decreases cmd.patterns@.len() - pi,
    {
        let p = &cmd.patterns[pi];
        compiled.push(compile_pattern(p, engine).ok());
        word_bounds.push(compile_word_bound(p, engine));
        ctx_res.push(compile_context(p, engine));
        pi = pi + 1;
    }
    (compiled, word_bounds, ctx_res)
}


/// Aligns the `occ`-th slot of a pattern across the active lines.
fn apply_slot(
    working: &mut Vec<Vec<char>>,
    active: &Vec<bool>,
    re: &CompiledRegex,
    wb: Option<&CompiledRegex>,
    ctx: Option<&CompiledRegex>,
    pattern: &AlignPattern,
    occ: usize,
)
    requires
        active@.len() == old(working)@.len(),
    ensures
        final(working)@.len() == old(working)@.len(),
        lines_model(final(working)@) == slot_step(
            lines_model(old(working)@),
            active@,
            re@,
            opt_ref_model(wb),
            opt_ref_model(ctx),
            *pattern,
            occ as int,
        ),
{
    let ghost wm = lines_model(working@);
    let ghost wbm = opt_ref_model(wb);
    let ghost ctxm = opt_ref_model(ctx);
    let ghost plm = per_line_model(wm, active@, re@, wbm, ctxm, *pattern, occ as int);
    let n = working.len();
    let mut per_line: Vec<Option<SlotMatch>> = Vec::new();
    let mut li: usize = 0;
    while li < n
        invariant
            n == working@.len(),
            wm == lines_model(working@),
            active@.len() == n,
            wbm == opt_ref_model(wb),
            ctxm == opt_ref_model(ctx),
            plm == per_line_model(wm, active@, re@, wbm, ctxm, *pattern, occ as int),
            li <= n,
            per_line@ == plm.take(li as int),
            forall|j: int|
                0 <= j < li ==> (#[trigger] per_line@[j] matches Some(sl) ==> slot_wf(wm[j], sl)),
        decreases n - li,
    {
        let slot = if active[li] {
            let ms = find_matches_in_line(working[li].as_slice(), re, wb, pattern, ctx);
            if occ < ms.len() {
                proof {
                    assert(slot_wf(wm[li as int], ms@[occ as int]));
                }
                Some(ms[occ])
            } else {
                None
            }
        } else {
            None
        };
        per_line.push(slot);
        li = li + 1;
        assert(per_line@ =~= plm.take(li as int));
    }
    assert(per_line@ =~= plm);
    let target_col = compute_target_col(working, &per_line, pattern);
    let ghost target = target_model(wm, plm, *pattern, wm.len() as int);
    let mut li: usize = 0;
    while li < n
        invariant
            n == wm.len(),
            n == working@.len(),
            per_line@ == plm,
            plm.len() == n,
            target_col == target,
            forall|j: int| 0 <= j < n ==> (#[trigger] plm[j] matches Some(sl) ==> slot_wf(wm[j], sl)),
            li <= n,
            forall|j: int|
                0 <= j < n ==> #[trigger] lines_model(working@)[j] == if j < li {
                    match plm[j] {
                        Some(sl) => align_model(wm[j], sl, target, *pattern),
                        None => wm[j],
                    }
                } else {
                    wm[j]
                },
        decreases n - li,
    {
        match &per_line[li] {
            Some(slot) => {
                proof {
                    assert(lines_model(working@)[li as int] == wm[li as int]);
                }
                let new_line = align_match(working[li].as_slice(), slot, target_col, pattern);
                let ghost before = working@;
                working.set(li, new_line);
                proof {
                    assert forall|j: int| 0 <= j < n implies #[trigger] lines_model(working@)[j] == if j < li + 1 {
                        match plm[j] {
                            Some(sl) => align_model(wm[j], sl, target, *pattern),
                            None => wm[j],
                        }
                    } else {
                        wm[j]
                    } by {
                        if j != li {
                            assert(lines_model(working@)[j] == lines_model(before)[j]);
                        }
                    }
                }
            },
            None => {},
        }
        li = li + 1;
    }
    assert(lines_model(working@) =~= slot_step(wm, active@, re@, wbm, ctxm, *pattern, occ as int));
}

/// Applies one pattern's pass: as many slots as an active line offers (up to
/// the repeat limit), each aligned across the lines.
fn run_pattern(
    working: &mut Vec<Vec<char>>,
    active: &Vec<bool>,
    re: &CompiledRegex,
    wb: Option<&CompiledRegex>,
    ctx: Option<&CompiledRegex>,
    pattern: &AlignPattern,
)
    requires
        active@.len() == old(working)@.len(),
    ensures
        final(working)@.len() == old(working)@.len(),
        lines_model(final(working)@) == pattern_pass(
            lines_model(old(working)@),
            active@,
            Some(re@),
            opt_ref_model(wb),
            opt_ref_model(ctx),
            *pattern,
        ),
{
    let ghost w0 = lines_model(working@);
    let ghost wbm = opt_ref_model(wb);
    let ghost ctxm = opt_ref_model(ctx);
    let n = working.len();
    let mut max_count: usize = 0;
    let mut li: usize = 0;
    while li < n
        invariant
            n == working@.len(),
            w0 == lines_model(working@),
            active@.len() == n,
            wbm == opt_ref_model(wb),
            ctxm == opt_ref_model(ctx),
            li <= n,
            max_count == max_occ(w0, active@, re@, wbm, ctxm, *pattern, li as int),
        decreases n - li,
    {
        if active[li] {
            let ms = find_matches_in_line(working[li].as_slice(), re, wb, pattern, ctx);
            assert(working@[li as int]@ == w0[li as int]);
            if ms.len() > max_count {
                max_count = ms.len();
            }
        }
        li = li + 1;
    }
    let limit = match pattern.repeat {
        Some(l) => l,
        None => usize::MAX,
    };
    let occ_total = if max_count < limit {
        max_count
    } else {
        limit
    };
    let mut occ: usize = 0;
    while occ < occ_total
        invariant
            occ <= occ_total,
            occ_total == occ_count(w0, active@, re@, wbm, ctxm, *pattern),
            active@.len() == working@.len(),
            wbm == opt_ref_model(wb),
            ctxm == opt_ref_model(ctx),
            lines_model(working@) == slot_steps(w0, active@, re@, wbm, ctxm, *pattern, occ as int),
        decreases occ_total - occ,
    {
        apply_slot(working, active, re, wb, ctx, pattern, occ);
        occ = occ + 1;
    }
}

impl Aligner {
    pub fn new(cmd: Command) -> (r: Self)
        ensures
            r@ == cmd,
    {
        Aligner { cmd }
    }

    /// Aligns `lines` by the command's patterns, each pass seeing the result
    /// of the previous one, then drops the lines the deletion flags reject.
    /// `lines` itself is left as it was.
    pub fn process(&self, lines: &mut Vec<String>) -> (out: Vec<String>)
        ensures
            final(lines)@ == old(lines)@,
            strings_model(out@) == process_model(self@, strings_model(old(lines)@)),
    {
        let cmd = &self.cmd;
        let ghost orig_m = strings_model(lines@);
        let n = lines.len();
        // The lines as characters.
        let mut orig: Vec<Vec<char>> = Vec::new();
        let mut li: usize = 0;
        while li < n
            invariant
                n == lines@.len(),
                orig_m == strings_model(lines@),
                li <= n,
                lines_model(orig@) == orig_m.take(li as int),
            decreases n - li,
        {
            let ghost before = orig@;
            let v = chars_of(lines[li].as_str());
            assert(v@ == orig_m[li as int]);
            orig.push(v);
            assert(lines_model(orig@) =~= lines_model(before).push(v@));
            assert(orig_m.take(li + 1) =~= orig_m.take(li as int).push(orig_m[li as int]));
            li = li + 1;
        }
        assert(lines_model(orig@) =~= orig_m);
        let (compiled, word_bounds, ctx_res) = compile_all(cmd);
        let np = cmd.patterns.len();
        // Presence of each pattern on the original lines.
        let mut line_has_pat: Vec<Vec<bool>> = Vec::new();
        let mut pi: usize = 0;
        while pi < np
            invariant
                np == cmd.patterns@.len(),
                n == orig@.len(),
                lines_model(orig@) == orig_m,
                compiled@.len() == np,
                word_bounds@.len() == np,
                ctx_res@.len() == np,
                forall|j: int|
                    0 <= j < np ==> opt_model(#[trigger] compiled@[j]) == re_of(*cmd, j) && opt_model(
                        word_bounds@[j],
                    ) == wb_of(*cmd, j) && opt_model(ctx_res@[j]) == ctx_of(*cmd, j),
                pi <= np,
                line_has_pat@.len() == pi,
                forall|j: int, k: int|
                    0 <= j < pi && 0 <= k < n ==> (#[trigger] line_has_pat@[j]@[k]) == has_pattern(
                        *cmd,
                        j,
                        orig_m[k],
                    ),
                forall|j: int| 0 <= j < pi ==> (#[trigger] line_has_pat@[j]@).len() == n,
            decreases np - pi,
        {
            let mut row: Vec<bool> = Vec::new();
            let mut k: usize = 0;
            assert(opt_model(compiled@[pi as int]) == re_of(*cmd, pi as int));
            while k < n
                invariant
                    n == orig@.len(),
                    lines_model(orig@) == orig_m,
                    pi < np,
                    np == cmd.patterns@.len(),
                    compiled@.len() == np,
                    word_bounds@.len() == np,
                    ctx_res@.len() == np,
                    opt_model(compiled@[pi as int]) == re_of(*cmd, pi as int),
                    opt_model(word_bounds@[pi as int]) == wb_of(*cmd, pi as int),
                    opt_model(ctx_res@[pi as int]) == ctx_of(*cmd, pi as int),
                    k <= n,
                    row@.len() == k,
                    forall|q: int| 0 <= q < k ==> (#[trigger] row@[q]) == has_pattern(*cmd, pi as int, orig_m[q]),
                decreases n - k,
            {
                let has = match &compiled[pi] {
                    Some(re) => {
                        let wb = as_ref_regex(&word_bounds[pi]);
                        let ctx = as_ref_regex(&ctx_res[pi]);
                        let ms = find_matches_in_line(orig[k].as_slice(), re, wb, &cmd.patterns[pi], ctx);
                        assert(orig@[k as int]@ == orig_m[k as int]);
                        ms.len() > 0
                    },
                    None => false,
                };
                row.push(has);
                k = k + 1;
            }
            line_has_pat.push(row);
            pi = pi + 1;
        }
        // Whether each line matches some / every pattern.
        let mut has_any_v: Vec<bool> = Vec::new();
        let mut has_all_v: Vec<bool> = Vec::new();
        let mut k: usize = 0;
        while k < n
            invariant
                np == cmd.patterns@.len(),
                n == orig_m.len(),
                line_has_pat@.len() == np,
                forall|j: int, q: int|
                    0 <= j < np && 0 <= q < n ==> (#[trigger] line_has_pat@[j]@[q]) == has_pattern(
                        *cmd,
                        j,
                        orig_m[q],
                    ),
                forall|j: int| 0 <= j < np ==> (#[trigger] line_has_pat@[j]@).len() == n,
                k <= n,
                has_any_v@.len() == k,
                has_all_v@.len() == k,
                forall|q: int| 0 <= q < k ==> (#[trigger] has_any_v@[q]) == has_any(*cmd, orig_m[q]),
                forall|q: int| 0 <= q < k ==> (#[trigger] has_all_v@[q]) == has_all(*cmd, orig_m[q]),
            decreases n - k,
        {
            let mut any = false;
            let mut all = true;
            let mut j: usize = 0;
            while j < np
                invariant
                    np == cmd.patterns@.len(),
                    n == orig_m.len(),
                    k < n,
                    line_has_pat@.len() == np,
                    forall|jj: int, q: int|
                        0 <= jj < np && 0 <= q < n ==> (#[trigger] line_has_pat@[jj]@[q]) == has_pattern(
                            *cmd,
                            jj,
                            orig_m[q],
                        ),
                    forall|jj: int| 0 <= jj < np ==> (#[trigger] line_has_pat@[jj]@).len() == n,
                    j <= np,
                    any == exists|jj: int| 0 <= jj < j && #[trigger] has_pattern(*cmd, jj, orig_m[k as int]),
                    all == forall|jj: int| 0 <= jj < j ==> #[trigger] has_pattern(*cmd, jj, orig_m[k as int]),
                decreases np - j,
            {
                let h = line_has_pat[j][k];
                assert(h == has_pattern(*cmd, j as int, orig_m[k as int]));
                if h {
                    any = true;
                } else {
                    all = false;
                }
                j = j + 1;
            }
            has_any_v.push(any);
            has_all_v.push(all);
            k = k + 1;
        }
        // Working lines: patterns applied in order.
        let mut working: Vec<Vec<char>> = Vec::new();
        let mut li: usize = 0;
        while li < n
            invariant
                n == orig@.len(),
                lines_model(orig@) == orig_m,
                li <= n,
                lines_model(working@) == orig_m.take(li as int),
            decreases n - li,
        {
            let ghost before = working@;
            let v = crate::text::to_vec(orig[li].as_slice());
            assert(v@ == orig_m[li as int]);
            working.push(v);
            assert(lines_model(working@) =~= lines_model(before).push(v@));
            assert(orig_m.take(li + 1) =~= orig_m.take(li as int).push(orig_m[li as int]));
            li = li + 1;
        }
        assert(lines_model(working@) =~= orig_m);
        let mut pi: usize = 0;
        while pi < np
            invariant
                np == cmd.patterns@.len(),
                n == orig_m.len(),
                n == working@.len(),
                compiled@.len() == np,
                word_bounds@.len() == np,
                ctx_res@.len() == np,
                forall|j: int|
                    0 <= j < np ==> opt_model(#[trigger] compiled@[j]) == re_of(*cmd, j) && opt_model(
                        word_bounds@[j],
                    ) == wb_of(*cmd, j) && opt_model(ctx_res@[j]) == ctx_of(*cmd, j),
                line_has_pat@.len() == np,
                forall|j: int, q: int|
                    0 <= j < np && 0 <= q < n ==> (#[trigger] line_has_pat@[j]@[q]) == has_pattern(
                        *cmd,
                        j,
                        orig_m[q],
                    ),
                forall|j: int| 0 <= j < np ==> (#[trigger] line_has_pat@[j]@).len() == n,
                has_all_v@.len() == n,
                forall|q: int| 0 <= q < n ==> (#[trigger] has_all_v@[q]) == has_all(*cmd, orig_m[q]),
                pi <= np,
                lines_model(working@) == passes(*cmd, orig_m, pi as int),
            decreases np - pi,
        {
            let mut active: Vec<bool> = Vec::new();
            let mut li: usize = 0;
            while li < n
                invariant
                    np == cmd.patterns@.len(),
                    pi < np,
                    n == orig_m.len(),
                    line_has_pat@.len() == np,
                    forall|j: int, q: int|
                        0 <= j < np && 0 <= q < n ==> (#[trigger] line_has_pat@[j]@[q]) == has_pattern(
                            *cmd,
                            j,
                            orig_m[q],
                        ),
                    forall|j: int| 0 <= j < np ==> (#[trigger] line_has_pat@[j]@).len() == n,
                    has_all_v@.len() == n,
                    forall|q: int| 0 <= q < n ==> (#[trigger] has_all_v@[q]) == has_all(*cmd, orig_m[q]),
                    li <= n,
                    active@ == active_model(*cmd, orig_m, pi as int).take(li as int),
                decreases n - li,
            {
                let a = if cmd.global.match_every && !has_all_v[li] {
                    false
                } else {
                    line_has_pat[pi][li]
                };
                active.push(a);
                li = li + 1;
                assert(active@ =~= active_model(*cmd, orig_m, pi as int).take(li as int));
            }
            assert(active@ =~= active_model(*cmd, orig_m, pi as int));
            match &compiled[pi] {
                Some(re) => {
                    let wb = as_ref_regex(&word_bounds[pi]);
                    let ctx = as_ref_regex(&ctx_res[pi]);
                    run_pattern(&mut working, &active, re, wb, ctx, &cmd.patterns[pi]);
                },
                None => {},
            }
            pi = pi + 1;
        }
        // Output, applying the deletion flags.
        let ghost fin = passes(*cmd, orig_m, np as int);
        let mut output: Vec<String> = Vec::new();
        let mut li: usize = 0;
        while li < n
            invariant
                np == cmd.patterns@.len(),
                n == orig_m.len(),
                n == working@.len(),
                lines_model(working@) == fin,
                has_any_v@.len() == n,
                has_all_v@.len() == n,
                forall|q: int| 0 <= q < n ==> (#[trigger] has_any_v@[q]) == has_any(*cmd, orig_m[q]),
                forall|q: int| 0 <= q < n ==> (#[trigger] has_all_v@[q]) == has_all(*cmd, orig_m[q]),
                li <= n,
                strings_model(output@) == filter_kept(*cmd, orig_m, fin, li as int),
            decreases n - li,
        {
            let drop = (cmd.global.delete_no_match && !has_any_v[li]) || (
            cmd.global.delete_missing_match && !has_all_v[li]);
            let ghost before = output@;
            if !drop {
                output.push(string_of(working[li].as_slice()));
                assert(strings_model(output@) =~= strings_model(before) + seq![fin[li as int]]);
            } else {
                assert(strings_model(output@) =~= strings_model(before) + Seq::<Seq<char>>::empty());
            }
            li = li + 1;
        }
        output
    }
}


// ── laws ───────────────────────────────────────────────────────────────────

/// One slot step keeps the number of lines, and leaves every line without a
/// slot in it as it was.
pub proof fn lemma_slot_step_frame(
    working: Seq<Seq<char>>,
    active: Seq<bool>,
    re: RegexModel,
    wb: Option<RegexModel>,
    ctx: Option<RegexModel>,
    p: AlignPattern,
    occ: int,
)
    requires
        active.len() == working.len(),
    ensures
        slot_step(working, active, re, wb, ctx, p, occ).len() == working.len(),
        forall|li: int|
            0 <= li < working.len() && !active[li] ==> #[trigger] slot_step(
                working,
                active,
                re,
                wb,
                ctx,
                p,
                occ,
            )[li] == working[li],
{
}

/// A pattern's pass keeps the number of lines, and leaves inactive lines as
/// they were.
pub proof fn lemma_pattern_pass_frame(
    working: Seq<Seq<char>>,
    active: Seq<bool>,
    re: Option<RegexModel>,
    wb: Option<RegexModel>,
    ctx: Option<RegexModel>,
    p: AlignPattern,
)
    requires
        active.len() == working.len(),
    ensures
        pattern_pass(working, active, re, wb, ctx, p).len() == working.len(),
        forall|li: int|
            0 <= li < working.len() && !active[li] ==> #[trigger] pattern_pass(
                working,
                active,
                re,
                wb,
                ctx,
                p,
            )[li] == working[li],
{
    if let Some(r) = re {
        lemma_slot_steps_frame(working, active, r, wb, ctx, p, occ_count(working, active, r, wb, ctx, p));
    }
}

proof fn lemma_slot_steps_frame(
    working: Seq<Seq<char>>,
    active: Seq<bool>,
    re: RegexModel,
    wb: Option<RegexModel>,
    ctx: Option<RegexModel>,
    p: AlignPattern,
    k: int,
)
    requires
        active.len() == working.len(),
    ensures
        slot_steps(working, active, re, wb, ctx, p, k).len() == working.len(),
        forall|li: int|
            0 <= li < working.len() && !active[li] ==> #[trigger] slot_steps(
                working,
                active,
                re,
                wb,
                ctx,
                p,
                k,
            )[li] == working[li],
    decreases k,
{
    if k > 0 {
        lemma_slot_steps_frame(working, active, re, wb, ctx, p, k - 1);
        let prev = slot_steps(working, active, re, wb, ctx, p, k - 1);
        lemma_slot_step_frame(prev, active, re, wb, ctx, p, k - 1);
    }
}

/// Aligning keeps the number of lines; a line that takes part in none of the
/// passes `0..k` comes out of them unchanged.
pub proof fn lemma_passes_keep_line(cmd: Command, orig: Seq<Seq<char>>, k: int, li: int)
    requires
        0 <= li < orig.len(),
        forall|pi: int| 0 <= pi < k ==> !#[trigger] is_active(cmd, pi, orig[li]),
    ensures
        passes(cmd, orig, k).len() == orig.len(),
        passes(cmd, orig, k)[li] == orig[li],
    decreases k,
{
    if k > 0 {
        lemma_passes_keep_line(cmd, orig, k - 1, li);
        let prev = passes(cmd, orig, k - 1);
        let act = active_model(cmd, orig, k - 1);
        assert(!act[li]);
        lemma_pattern_pass_frame(prev, act, re_of(cmd, k - 1), wb_of(cmd, k - 1), ctx_of(cmd, k - 1), pat(cmd, k - 1));
    }
}

/// The number of lines never changes through the passes.
pub proof fn lemma_passes_len(cmd: Command, orig: Seq<Seq<char>>, k: int)
    ensures
        passes(cmd, orig, k).len() == orig.len(),
    decreases k,
{
    if k > 0 {
        lemma_passes_len(cmd, orig, k - 1);
        let prev = passes(cmd, orig, k - 1);
        lemma_pattern_pass_frame(prev, active_model(cmd, orig, k - 1), re_of(cmd, k - 1), wb_of(cmd, k - 1), ctx_of(cmd, k - 1), pat(cmd, k - 1));
    }
}

proof fn lemma_filter_all_kept(cmd: Command, orig: Seq<Seq<char>>, working: Seq<Seq<char>>, n: int)
    requires
        0 <= n <= orig.len(),
        n <= working.len(),
        forall|li: int| 0 <= li < n ==> #[trigger] is_kept(cmd, orig[li]),
    ensures
        filter_kept(cmd, orig, working, n) == working.take(n),
    decreases n,
{
    if n > 0 {
        lemma_filter_all_kept(cmd, orig, working, n - 1);
        assert(working.take(n) =~= working.take(n - 1) + seq![working[n - 1]]);
    }
}

proof fn lemma_filter_len(cmd: Command, orig: Seq<Seq<char>>, working: Seq<Seq<char>>, n: int)
    requires
        0 <= n,
    ensures
        filter_kept(cmd, orig, working, n).len() <= n,
    decreases n,
{
    if n > 0 {
        lemma_filter_len(cmd, orig, working, n - 1);
    }
}

/// Without `-d` and `-D` no line is dropped: the output has as many lines as
/// the input, in the same order, each the result of the passes on its line.
pub proof fn law_no_deletion_keeps_every_line(cmd: Command, orig: Seq<Seq<char>>)
    requires
        !cmd.global.delete_no_match,
        !cmd.global.delete_missing_match,
    ensures
        process_model(cmd, orig).len() == orig.len(),
        process_model(cmd, orig) == passes(cmd, orig, cmd.patterns@.len() as int),
{
    let fin = passes(cmd, orig, cmd.patterns@.len() as int);
    lemma_passes_len(cmd, orig, cmd.patterns@.len() as int);
    lemma_filter_all_kept(cmd, orig, fin, orig.len() as int);
    assert(fin.take(orig.len() as int) =~= fin);
}

/// The output never has more lines than the input.
pub proof fn law_output_not_longer(cmd: Command, orig: Seq<Seq<char>>)
    ensures
        process_model(cmd, orig).len() <= orig.len(),
{
    lemma_filter_len(cmd, orig, passes(cmd, orig, cmd.patterns@.len() as int), orig.len() as int);
}

/// A line on which no pattern matches passes through unchanged.
pub proof fn law_unmatched_line_unchanged(cmd: Command, orig: Seq<Seq<char>>, li: int)
    requires
        0 <= li < orig.len(),
        !has_any(cmd, orig[li]),
    ensures
        passes(cmd, orig, cmd.patterns@.len() as int)[li] == orig[li],
{
    assert forall|pi: int| 0 <= pi < cmd.patterns@.len() implies !#[trigger] is_active(cmd, pi, orig[li]) by {
        if is_active(cmd, pi, orig[li]) {
            assert(has_pattern(cmd, pi, orig[li]));
        }
    }
    lemma_passes_keep_line(cmd, orig, cmd.patterns@.len() as int, li);
}

/// Under `-g`, a line that misses some pattern is left unaligned.
pub proof fn law_match_every_leaves_partial_lines(cmd: Command, orig: Seq<Seq<char>>, li: int)
    requires
        0 <= li < orig.len(),
        cmd.global.match_every,
        !has_all(cmd, orig[li]),
    ensures
        passes(cmd, orig, cmd.patterns@.len() as int)[li] == orig[li],
{
    lemma_passes_keep_line(cmd, orig, cmd.patterns@.len() as int, li);
}

/// The deletion flags drop whole lines only: when every line is kept the
/// output is all the aligned lines, and when none is, the output is empty.
pub proof fn law_deletion(cmd: Command, orig: Seq<Seq<char>>, working: Seq<Seq<char>>, n: int)
    requires
        0 <= n <= orig.len(),
        n <= working.len(),
    ensures
        (forall|li: int| 0 <= li < n ==> !#[trigger] is_kept(cmd, orig[li])) ==> filter_kept(
            cmd,
            orig,
            working,
            n,
        ).len() == 0,
        (forall|li: int| 0 <= li < n ==> #[trigger] is_kept(cmd, orig[li])) ==> filter_kept(
            cmd,
            orig,
            working,
            n,
        ) == working.take(n),
    decreases n,
{
    if n > 0 {
        law_deletion(cmd, orig, working, n - 1);
        if forall|li: int| 0 <= li < n ==> #[trigger] is_kept(cmd, orig[li]) {
            lemma_filter_all_kept(cmd, orig, working, n);
        }
    }
}

/// The target column is at least every matched line's candidate column, and
/// equals one of them when some line has a match.
pub proof fn lemma_target_bounds(
    working: Seq<Seq<char>>,
    per_line: Seq<Option<SlotMatch>>,
    p: AlignPattern,
    n: int,
)
    requires
        0 <= n <= per_line.len(),
    ensures
        forall|li: int|
            0 <= li < n ==> (#[trigger] per_line[li] matches Some(sl) ==> candidate_col(
                working[li],
                sl,
                p,
            ) <= target_model(working, per_line, p, n)),
        target_model(working, per_line, p, n) == 0 || exists|li: int|
            0 <= li < n && (#[trigger] per_line[li] matches Some(sl) && candidate_col(working[li], sl, p) == target_model(working, per_line, p, n)),
    decreases n,
{
    if n > 0 {
        lemma_target_bounds(working, per_line, p, n - 1);
        let t = target_model(working, per_line, p, n);
        let t0 = target_model(working, per_line, p, n - 1);
        if t != 0 && t != t0 {
            assert(per_line[n - 1] matches Some(sl) && candidate_col(working[n - 1], sl, p) == t);
        }
    }
}

/// The column the aligner places a plain-mode anchor at: the width of the
/// prefix without its trailing fill, plus the fill written, plus (when
/// right-aligning) the width of the match.
pub open spec fn placed_col(line: Seq<char>, sl: SlotMatch, target: int, p: AlignPattern) -> int {
    non_fill_col(line, sl.start as int, p.fill) + plain_needed(line, sl, target, p) + anchor_width(
        line,
        sl,
        p.left_align,
    )
}

/// No column sum of this slot overflows a `usize`.
pub open spec fn no_overflow(working: Seq<Seq<char>>, per_line: Seq<Option<SlotMatch>>, p: AlignPattern) -> bool {
    forall|li: int|
        0 <= li < per_line.len() ==> (#[trigger] per_line[li] matches Some(sl) ==> non_fill_col(
            working[li],
            sl.start as int,
            p.fill,
        ) + p.pad_left + anchor_width(working[li], sl, p.left_align) <= usize::MAX)
}

/// The alignment law: in one slot, every line with a plain (no `-c`/`-C`)
/// match gets its anchor placed at the same column, the common target; every
/// line with a context match has it moved right by exactly the distance to
/// the target (fill inserted at the insert point, nothing removed).
pub proof fn law_slot_aligned(
    working: Seq<Seq<char>>,
    per_line: Seq<Option<SlotMatch>>,
    p: AlignPattern,
)
    requires
        per_line.len() == working.len(),
        no_overflow(working, per_line, p),
    ensures
        forall|li: int, lj: int|
            0 <= li < per_line.len() && 0 <= lj < per_line.len() ==> (#[trigger] per_line[li] matches Some(a)
                ==> (#[trigger] per_line[lj] matches Some(b) ==> (a.context_start is None
                && b.context_start is None ==> placed_col(
                working[li],
                a,
                target_model(working, per_line, p, working.len() as int),
                p,
            ) == placed_col(
                working[lj],
                b,
                target_model(working, per_line, p, working.len() as int),
                p,
            )))),
        forall|li: int|
            0 <= li < per_line.len() ==> (#[trigger] per_line[li] matches Some(a) ==> (a.context_start is None
                ==> placed_col(working[li], a, target_model(working, per_line, p, working.len() as int), p)
                == target_model(working, per_line, p, working.len() as int))),
        forall|li: int|
            0 <= li < per_line.len() ==> (#[trigger] per_line[li] matches Some(a) ==> (a.context_start is Some
                ==> str_width(working[li].take(anchor_of(a, p.left_align))) <= target_model(working, per_line, p, working.len() as int))),
{
    let n = working.len() as int;
    let t = target_model(working, per_line, p, n);
    lemma_target_bounds(working, per_line, p, n);
    assert forall|li: int|
        0 <= li < per_line.len() implies (#[trigger] per_line[li] matches Some(a) ==> (a.context_start is None
            ==> placed_col(working[li], a, t, p) == t)) by {
        if let Some(a) = per_line[li] {
            if a.context_start is None {
                assert(candidate_col(working[li], a, p) <= t);
            }
        }
    }
}

/// Plain alignment changes nothing but two runs of fill: the one right before
/// the match becomes exactly the needed fill (at least `pad_left`), the one
/// right after it grows to at least `pad_right`; the text of the match and
/// everything else are kept.
pub proof fn law_plain_only_fill_changes(line: Seq<char>, sl: SlotMatch, target: int, p: AlignPattern)
    requires
        slot_wf(line, sl),
    ensures
        ({
            let s = sl.start as int;
            let e = sl.end as int;
            let ex = trailing_run(line.take(s), p.fill) as int;
            let lead = leading_run(line.skip(e), p.fill) as int;
            let needed = plain_needed(line, sl, target, p);
            let kept = line.take(s - ex);
            let after = line.skip(e + lead);
            &&& line == kept + fills(p.fill, ex as nat) + line.subrange(s, e) + fills(p.fill, lead as nat) + after
            &&& plain_model(line, sl, target, p) == kept + fills(p.fill, needed as nat) + line.subrange(s, e)
                + fills(p.fill, max_int(p.pad_right as int, lead) as nat) + after
            &&& needed >= p.pad_left
            &&& max_int(p.pad_right as int, lead) >= p.pad_right
        }),
{
    let s = sl.start as int;
    let e = sl.end as int;
    let prefix = line.take(s);
    let rest = line.skip(e);
    lemma_trailing_run_bound(prefix, p.fill);
    lemma_leading_run_bound(rest, p.fill);
    let ex = trailing_run(prefix, p.fill) as int;
    let lead = leading_run(rest, p.fill) as int;
    assert(prefix.take(s - ex) =~= line.take(s - ex));
    assert(rest.skip(lead) =~= line.skip(e + lead));
    assert(prefix =~= line.take(s - ex) + fills(p.fill, ex as nat)) by {
        assert forall|k: int| s - ex <= k < s implies prefix[k] == p.fill by {}
    }
    assert(rest =~= fills(p.fill, lead as nat) + line.skip(e + lead)) by {
        assert forall|k: int| 0 <= k < lead implies rest[k] == p.fill by {}
    }
    assert(line =~= prefix + line.subrange(s, e) + rest);
    assert(line =~= line.take(s - ex) + fills(p.fill, ex as nat) + line.subrange(s, e) + fills(p.fill, lead as nat) + line.skip(e + lead));
}

/// A context alignment whose target is not left of the anchor only inserts
/// fill: exactly the distance to the target, at the insert point.
pub proof fn law_context_inserts_only(line: Seq<char>, sl: SlotMatch, target: int, p: AlignPattern)
    requires
        slot_wf(line, sl),
        sl.context_start is Some,
        target >= str_width(line.take(anchor_of(sl, p.left_align))),
    ensures
        context_model(line, sl, target, p) == line.take(insert_point_of(sl)) + fills(
            p.fill,
            (target - str_width(line.take(anchor_of(sl, p.left_align)))) as nat,
        ) + line.skip(insert_point_of(sl)),
{
    let ip = insert_point_of(sl);
    if target == str_width(line.take(anchor_of(sl, p.left_align))) {
        assert(fills(p.fill, 0) =~= Seq::<char>::empty());
        assert(line =~= line.take(ip) + fills(p.fill, 0) + line.skip(ip));
    }
}

/// A line never offers more slots than the repeat limit (`-n`).
pub proof fn law_repeat_limit(
    line: Seq<char>,
    raws: Seq<(int, int)>,
    k: int,
    taken: int,
    last_end: int,
    wb: Option<RegexModel>,
    ctx: Option<RegexModel>,
    p: AlignPattern,
)
    requires
        p.repeat is Some,
        0 <= taken,
    ensures
        taken + collect_slots(line, raws, k, taken, last_end, wb, ctx, p).len() <= max_int(taken, p.repeat.unwrap() as int),
    decreases raws.len() - k,
{
    if k < 0 || k >= raws.len() {
    } else if taken >= p.repeat.unwrap() {
    } else {
        let (s, e) = raws[k];
        if wb matches Some(w) && !word_bound_ok(line, s, e, w) {
            law_repeat_limit(line, raws, k + 1, taken, last_end, wb, ctx, p);
        } else {
            law_repeat_limit(line, raws, k + 1, taken + 1, e, wb, ctx, p);
        }
    }
}

/// `s` with every `f` removed.
pub open spec fn without_fill(s: Seq<char>, f: char) -> Seq<char>
    decreases s.len(),
{
    if s.len() == 0 {
        Seq::empty()
    } else {
        without_fill(s.drop_last(), f) + if s.last() == f {
            Seq::<char>::empty()
        } else {
            seq![s.last()]
        }
    }
}

proof fn lemma_without_fill_add(a: Seq<char>, b: Seq<char>, f: char)
    ensures
        without_fill(a + b, f) == without_fill(a, f) + without_fill(b, f),
    decreases b.len(),
{
    if b.len() == 0 {
        assert(a + b =~= a);
        assert(without_fill(a, f) + without_fill(b, f) =~= without_fill(a, f));
    } else {
        assert((a + b).drop_last() =~= a + b.drop_last());
        lemma_without_fill_add(a, b.drop_last(), f);
        assert((a + b).last() == b.last());
        let tail = if b.last() == f {
            Seq::<char>::empty()
        } else {
            seq![b.last()]
        };
        assert(without_fill(a, f) + without_fill(b.drop_last(), f) + tail =~= without_fill(a, f) + (
        without_fill(b.drop_last(), f) + tail));
    }
}

proof fn lemma_without_fill_fills(f: char, n: nat)
    ensures
        without_fill(fills(f, n), f) == Seq::<char>::empty(),
    decreases n,
{
    if n > 0 {
        assert(fills(f, n).drop_last() =~= fills(f, (n - 1) as nat));
        lemma_without_fill_fills(f, (n - 1) as nat);
        assert(without_fill(fills(f, n), f) =~= Seq::<char>::empty());
    }
}

/// A sequence that ends in `t` fill characters is its front plus that fill.
proof fn lemma_split_trailing(s: Seq<char>, f: char, t: int)
    requires
        0 <= t <= trailing_run(s, f),
    ensures
        s == s.take(s.len() - t) + fills(f, t as nat),
{
    lemma_trailing_run_bound(s, f);
    assert(s =~= s.take(s.len() - t) + fills(f, t as nat));
}

/// Aligning one match only inserts or removes fill: with every fill character
/// removed, the line is what it was.
pub proof fn law_align_keeps_text(line: Seq<char>, sl: SlotMatch, target: int, p: AlignPattern)
    requires
        slot_wf(line, sl),
    ensures
        without_fill(align_model(line, sl, target, p), p.fill) == without_fill(line, p.fill),
{
    let f = p.fill;
    if sl.context_start is Some {
        let ip = insert_point_of(sl);
        let cur = str_width(line.take(anchor_of(sl, p.left_align))) as int;
        assert(line =~= line.take(ip) + line.skip(ip));
        lemma_without_fill_add(line.take(ip), line.skip(ip), f);
        if target > cur {
            let n = (target - cur) as nat;
            lemma_without_fill_add(line.take(ip) + fills(f, n), line.skip(ip), f);
            lemma_without_fill_add(line.take(ip), fills(f, n), f);
            lemma_without_fill_fills(f, n);
            assert(without_fill(line.take(ip), f) + Seq::<char>::empty() =~= without_fill(line.take(ip), f));
        } else if target < cur {
            let pre = line.take(ip);
            lemma_trailing_run_bound(pre, f);
            let t = min_int(cur - target, trailing_run(pre, f) as int);
            lemma_split_trailing(pre, f, t);
            lemma_without_fill_add(pre.take(ip - t), fills(f, t as nat), f);
            lemma_without_fill_fills(f, t as nat);
            assert(without_fill(pre.take(ip - t), f) + Seq::<char>::empty() =~= without_fill(pre.take(ip - t), f));
            lemma_without_fill_add(pre.take(ip - t), line.skip(ip), f);
        }
    } else {
        law_plain_only_fill_changes(line, sl, target, p);
        let s = sl.start as int;
        let e = sl.end as int;
        let ex = trailing_run(line.take(s), f) as int;
        let lead = leading_run(line.skip(e), f) as int;
        let needed = plain_needed(line, sl, target, p);
        let kept = line.take(s - ex);
        let after = line.skip(e + lead);
        let m = line.subrange(s, e);
        let right = max_int(p.pad_right as int, lead);
        lemma_without_fill_fills(f, ex as nat);
        lemma_without_fill_fills(f, lead as nat);
        lemma_without_fill_fills(f, needed as nat);
        lemma_without_fill_fills(f, right as nat);
        // both sides split into the same pieces, fill runs aside
        lemma_without_fill_add(kept + fills(f, ex as nat) + m + fills(f, lead as nat), after, f);
        lemma_without_fill_add(kept + fills(f, ex as nat) + m, fills(f, lead as nat), f);
        lemma_without_fill_add(kept + fills(f, ex as nat), m, f);
        lemma_without_fill_add(kept, fills(f, ex as nat), f);
        lemma_without_fill_add(kept + fills(f, needed as nat) + m + fills(f, right as nat), after, f);
        lemma_without_fill_add(kept + fills(f, needed as nat) + m, fills(f, right as nat), f);
        lemma_without_fill_add(kept + fills(f, needed as nat), m, f);
        lemma_without_fill_add(kept, fills(f, needed as nat), f);
        assert(without_fill(kept, f) + Seq::<char>::empty() =~= without_fill(kept, f));
        assert(without_fill(kept, f) + without_fill(m, f) + Seq::<char>::empty() =~= without_fill(kept, f)
            + without_fill(m, f));
    }
}

/// Every line fits in memory: no more than `usize::MAX` characters.
pub open spec fn lines_fit(w: Seq<Seq<char>>) -> bool {
    forall|li: int| 0 <= li < w.len() ==> (#[trigger] w[li]).len() <= usize::MAX
}

/// Every line a pattern's pass works on, before each of its slots, fits in
/// memory.
pub open spec fn pass_fits(
    working: Seq<Seq<char>>,
    active: Seq<bool>,
    re: Option<RegexModel>,
    wb: Option<RegexModel>,
    ctx: Option<RegexModel>,
    p: AlignPattern,
) -> bool {
    match re {
        Some(r) => forall|j: int|
            0 <= j < occ_count(working, active, r, wb, ctx, p) ==> lines_fit(
                #[trigger] slot_steps(working, active, r, wb, ctx, p, j),
            ),
        None => true,
    }
}

/// Every line each pass of the command works on fits in memory.
pub open spec fn passes_fit(cmd: Command, orig: Seq<Seq<char>>) -> bool {
    forall|pi: int|
        0 <= pi < cmd.patterns@.len() ==> pass_fits(
            #[trigger] passes(cmd, orig, pi),
            active_model(cmd, orig, pi),
            re_of(cmd, pi),
            wb_of(cmd, pi),
            ctx_of(cmd, pi),
            pat(cmd, pi),
        )
}

proof fn lemma_slot_step_keeps_text(
    working: Seq<Seq<char>>,
    active: Seq<bool>,
    re: RegexModel,
    wb: Option<RegexModel>,
    ctx: Option<RegexModel>,
    p: AlignPattern,
    occ: int,
)
    requires
        active.len() == working.len(),
        lines_fit(working),
    ensures
        forall|li: int|
            0 <= li < working.len() ==> without_fill(
                #[trigger] slot_step(working, active, re, wb, ctx, p, occ)[li],
                p.fill,
            ) == without_fill(working[li], p.fill),
{
    let pl = per_line_model(working, active, re, wb, ctx, p, occ);
    let target = target_model(working, pl, p, working.len() as int);
    assert forall|li: int| 0 <= li < working.len() implies without_fill(
        #[trigger] slot_step(working, active, re, wb, ctx, p, occ)[li],
        p.fill,
    ) == without_fill(working[li], p.fill) by {
        if let Some(sl) = pl[li] {
            let line = working[li];
            assert(line.len() <= usize::MAX);
            lemma_find_all_ordered(re, line, 0);
            lemma_collect_slots_wf(line, find_all_model(re, line), 0, 0, 0, wb, ctx, p);
            let slots = slots_model(line, re, wb, ctx, p);
            assert(sl == slots[occ]);
            assert(slot_wf(line, sl));
            law_align_keeps_text(line, sl, target, p);
        }
    }
}

proof fn lemma_slot_steps_keeps_text(
    working: Seq<Seq<char>>,
    active: Seq<bool>,
    re: RegexModel,
    wb: Option<RegexModel>,
    ctx: Option<RegexModel>,
    p: AlignPattern,
    k: int,
)
    requires
        active.len() == working.len(),
        forall|j: int| 0 <= j < k ==> lines_fit(#[trigger] slot_steps(working, active, re, wb, ctx, p, j)),
    ensures
        forall|li: int|
            0 <= li < working.len() ==> without_fill(
                #[trigger] slot_steps(working, active, re, wb, ctx, p, k)[li],
                p.fill,
            ) == without_fill(working[li], p.fill),
    decreases k,
{
    if k > 0 {
        lemma_slot_steps_keeps_text(working, active, re, wb, ctx, p, k - 1);
        lemma_slot_steps_frame(working, active, re, wb, ctx, p, k - 1);
        let prev = slot_steps(working, active, re, wb, ctx, p, k - 1);
        assert(lines_fit(prev));
        lemma_slot_step_keeps_text(prev, active, re, wb, ctx, p, k - 1);
        assert forall|li: int| 0 <= li < working.len() implies without_fill(
            #[trigger] slot_steps(working, active, re, wb, ctx, p, k)[li],
            p.fill,
        ) == without_fill(working[li], p.fill) by {
            assert(without_fill(slot_steps(working, active, re, wb, ctx, p, k - 1)[li], p.fill)
                == without_fill(working[li], p.fill));
        }
    }
}

proof fn lemma_passes_keep_text(cmd: Command, orig: Seq<Seq<char>>, f: char, k: int)
    requires
        0 <= k <= cmd.patterns@.len(),
        forall|pi: int| 0 <= pi < cmd.patterns@.len() ==> (#[trigger] cmd.patterns@[pi]).fill == f,
        passes_fit(cmd, orig),
    ensures
        forall|li: int|
            0 <= li < orig.len() ==> without_fill(#[trigger] passes(cmd, orig, k)[li], f)
                == without_fill(orig[li], f),
    decreases k,
{
    if k > 0 {
        lemma_passes_keep_text(cmd, orig, f, k - 1);
        lemma_passes_len(cmd, orig, k - 1);
        let prev = passes(cmd, orig, k - 1);
        let act = active_model(cmd, orig, k - 1);
        let p = pat(cmd, k - 1);
        assert(p.fill == f);
        assert(pass_fits(prev, act, re_of(cmd, k - 1), wb_of(cmd, k - 1), ctx_of(cmd, k - 1), p));
        if let Some(r) = re_of(cmd, k - 1) {
            lemma_slot_steps_keeps_text(
                prev,
                act,
                r,
                wb_of(cmd, k - 1),
                ctx_of(cmd, k - 1),
                p,
                occ_count(prev, act, r, wb_of(cmd, k - 1), ctx_of(cmd, k - 1), p),
            );
        }
        assert forall|li: int| 0 <= li < orig.len() implies without_fill(
            #[trigger] passes(cmd, orig, k)[li],
            f,
        ) == without_fill(orig[li], f) by {
            assert(without_fill(passes(cmd, orig, k - 1)[li], f) == without_fill(orig[li], f));
        }
    }
}

/// The aligner only moves text by inserting and removing fill: when every
/// pattern uses the fill `f` and neither `-d` nor `-D` is given, each output
/// line with every `f` removed is its input line with every `f` removed
/// (as long as no line outgrows memory along the way).
pub proof fn law_process_keeps_text(cmd: Command, orig: Seq<Seq<char>>, f: char)
    requires
        forall|pi: int| 0 <= pi < cmd.patterns@.len() ==> (#[trigger] cmd.patterns@[pi]).fill == f,
        !cmd.global.delete_no_match,
        !cmd.global.delete_missing_match,
        passes_fit(cmd, orig),
    ensures
        process_model(cmd, orig).len() == orig.len(),
        forall|li: int|
            0 <= li < orig.len() ==> without_fill(#[trigger] process_model(cmd, orig)[li], f)
                == without_fill(orig[li], f),
{
    law_no_deletion_keeps_every_line(cmd, orig);
    lemma_passes_keep_text(cmd, orig, f, cmd.patterns@.len() as int);
}

// ── what the slots of a line are ───────────────────────────────────────────

proof fn lemma_collect_slots_bounded(
    line: Seq<char>,
    raws: Seq<(int, int)>,
    k: int,
    taken: int,
    last_end: int,
    w: RegexModel,
    ctx: Option<RegexModel>,
    p: AlignPattern,
)
    requires
        ordered_ranges(raws, 0, line.len() as int),
        line.len() <= usize::MAX,
        0 <= k,
    ensures
        forall|j: int|
            0 <= j < collect_slots(line, raws, k, taken, last_end, Some(w), ctx, p).len() ==> {
                let sl = #[trigger] collect_slots(line, raws, k, taken, last_end, Some(w), ctx, p)[j];
                &&& (sl.start == 0 || find_at_model(w, line.subrange(sl.start - 1, sl.start as int), 0) is Some)
                &&& (sl.end >= line.len() || find_at_model(w, line.subrange(sl.end as int, sl.end + 1), 0) is Some)
            },
    decreases raws.len() - k,
{
    if k < 0 || k >= raws.len() {
    } else if p.repeat matches Some(l) && taken >= l {
    } else {
        let (s, e) = raws[k];
        assert(0 <= s < e <= line.len());
        if !word_bound_ok(line, s, e, w) {
            lemma_collect_slots_bounded(line, raws, k + 1, taken, last_end, w, ctx, p);
        } else {
            lemma_collect_slots_bounded(line, raws, k + 1, taken + 1, e, w, ctx, p);
            let rest = collect_slots(line, raws, k + 1, taken + 1, e, Some(w), ctx, p);
            let all = collect_slots(line, raws, k, taken, last_end, Some(w), ctx, p);
            assert forall|j: int| 0 <= j < all.len() implies {
                let sl = #[trigger] all[j];
                &&& (sl.start == 0 || find_at_model(w, line.subrange(sl.start - 1, sl.start as int), 0) is Some)
                &&& (sl.end >= line.len() || find_at_model(w, line.subrange(sl.end as int, sl.end + 1), 0) is Some)
            } by {
                if j > 0 {
                    assert(all[j] == rest[j - 1]);
                } else {
                    assert(all[0].start == s && all[0].end == e);
                }
            }
        }
    }
}

/// Word bounds: under a word-bound regex `w`, every slot the aligner takes
/// in a line starts at the line's start or right after a character that `w`
/// accepts, and ends at the line's end or right before such a character. A
/// match glued to a character the bound rejects (a word pattern inside a
/// longer word, with the default class) is never aligned.
pub proof fn law_slots_respect_word_bound(
    line: Seq<char>,
    re: RegexModel,
    w: RegexModel,
    ctx: Option<RegexModel>,
    p: AlignPattern,
)
    requires
        line.len() <= usize::MAX,
    ensures
        forall|j: int|
            0 <= j < slots_model(line, re, Some(w), ctx, p).len() ==> {
                let sl = #[trigger] slots_model(line, re, Some(w), ctx, p)[j];
                &&& (sl.start == 0 || find_at_model(w, line.subrange(sl.start - 1, sl.start as int), 0) is Some)
                &&& (sl.end >= line.len() || find_at_model(w, line.subrange(sl.end as int, sl.end + 1), 0) is Some)
            },
{
    lemma_find_all_ordered(re, line, 0);
    lemma_collect_slots_bounded(line, find_all_model(re, line), 0, 0, 0, w, ctx, p);
}

/// In ordered ranges every start is before every later start.
proof fn lemma_ordered_starts(ms: Seq<(int, int)>, lo: int, hi: int, i: int, j: int)
    requires
        ordered_ranges(ms, lo, hi),
        0 <= i <= j < ms.len(),
    ensures
        ms[i].0 <= ms[j].0,
    decreases j - i,
{
    if i < j {
        lemma_ordered_starts(ms, lo, hi, i, j - 1);
        assert(ms[j - 1].0 < ms[j - 1].1);
        assert(ms[j - 1].1 <= ms[j].0);
    }
}

/// Context (`-c`): fill goes in front of the last match of the context regex
/// in the slice between the previous match and this one: the insert point is
/// the start of one of those matches, and none of them starts after it. With
/// no context match there is no insert point. With `-C` the insert point is
/// the start of the slice.
pub proof fn law_context_is_last_match(line: Seq<char>, last_end: int, ms: int, c: RegexModel)
    requires
        0 <= last_end <= ms <= line.len(),
    ensures
        ({
            let found = find_all_model(c, line.subrange(last_end, ms));
            match context_start_model(line, last_end, ms, Some(c), false) {
                Some(ip) => (exists|j: int| 0 <= j < found.len() && #[trigger] found[j].0 == ip - last_end)
                    && (forall|j: int| 0 <= j < found.len() ==> #[trigger] found[j].0 <= ip - last_end),
                None => found.len() == 0,
            }
        }),
        context_start_model(line, last_end, ms, Some(c), true) == Some(last_end),
{
    let sub = line.subrange(last_end, ms);
    let found = find_all_model(c, sub);
    lemma_find_all_ordered(c, sub, 0);
    if found.len() > 0 {
        let last = found.len() - 1;
        assert(found[last].0 == found.last().0);
        assert forall|j: int| 0 <= j < found.len() implies #[trigger] found[j].0 <= found.last().0 by {
            lemma_ordered_starts(found, 0, sub.len() as int, j, last);
        }
    }
}

proof fn lemma_max_occ_bound(
    working: Seq<Seq<char>>,
    active: Seq<bool>,
    re: RegexModel,
    wb: Option<RegexModel>,
    ctx: Option<RegexModel>,
    p: AlignPattern,
    n: int,
)
    requires
        0 <= n <= working.len(),
        n <= active.len(),
    ensures
        forall|li: int|
            0 <= li < n && active[li] ==> #[trigger] slots_model(working[li], re, wb, ctx, p).len()
                <= max_occ(working, active, re, wb, ctx, p, n),
        max_occ(working, active, re, wb, ctx, p, n) == 0 || exists|li: int|
            0 <= li < n && active[li] && #[trigger] slots_model(working[li], re, wb, ctx, p).len()
                == max_occ(working, active, re, wb, ctx, p, n),
    decreases n,
{
    if n > 0 {
        lemma_max_occ_bound(working, active, re, wb, ctx, p, n - 1);
        let m = max_occ(working, active, re, wb, ctx, p, n);
        let m0 = max_occ(working, active, re, wb, ctx, p, n - 1);
        if m != 0 && m != m0 {
            assert(active[n - 1] && slots_model(working[n - 1], re, wb, ctx, p).len() == m);
        }
    }
}

/// Repeats (`-n`): a pattern's pass aligns as many slots as the active line
/// with the most slots offers, within the repeat limit. Every active line gets
/// all its slots aligned up to that limit, and no more slots are taken than
/// some active line has.
pub proof fn law_pass_aligns_every_slot(
    working: Seq<Seq<char>>,
    active: Seq<bool>,
    re: RegexModel,
    wb: Option<RegexModel>,
    ctx: Option<RegexModel>,
    p: AlignPattern,
)
    requires
        active.len() == working.len(),
    ensures
        forall|li: int|
            0 <= li < working.len() && active[li] ==> min_int(
                repeat_limit(p),
                #[trigger] slots_model(working[li], re, wb, ctx, p).len() as int,
            ) <= occ_count(working, active, re, wb, ctx, p),
        occ_count(working, active, re, wb, ctx, p) <= repeat_limit(p),
        occ_count(working, active, re, wb, ctx, p) == 0 || exists|li: int|
            0 <= li < working.len() && active[li] && occ_count(working, active, re, wb, ctx, p)
                <= #[trigger] slots_model(working[li], re, wb, ctx, p).len(),
{
    lemma_max_occ_bound(working, active, re, wb, ctx, p, working.len() as int);
}

/// Deletion: with `-d` (and not `-D`) a line is dropped exactly when no
/// pattern matches it; with `-D` (and not `-d`) exactly when some pattern
/// misses it; with neither, never.
pub proof fn law_deletion_flags(cmd: Command, line: Seq<char>)
    ensures
        cmd.global.delete_no_match && !cmd.global.delete_missing_match ==> (is_kept(cmd, line) <==> exists|
            pi: int,
        | 0 <= pi < cmd.patterns@.len() && #[trigger] has_pattern(cmd, pi, line)),
        !cmd.global.delete_no_match && cmd.global.delete_missing_match ==> (is_kept(cmd, line) <==> forall|
            pi: int,
        | 0 <= pi < cmd.patterns@.len() ==> #[trigger] has_pattern(cmd, pi, line)),
        !cmd.global.delete_no_match && !cmd.global.delete_missing_match ==> is_kept(cmd, line),
{
}

/// How many of the lines `0..n` are kept.
pub open spec fn kept_count(cmd: Command, orig: Seq<Seq<char>>, n: int) -> int
    decreases n,
{
    if n <= 0 {
        0
    } else {
        kept_count(cmd, orig, n - 1) + if is_kept(cmd, orig[n - 1]) {
            1int
        } else {
            0int
        }
    }
}

/// The output is the kept lines, in order: it has one line per kept input
/// line, and the line kept at input position `li` is the aligned line `li`,
/// placed after the kept lines before it.
pub proof fn law_output_is_kept_lines(cmd: Command, orig: Seq<Seq<char>>, working: Seq<Seq<char>>, n: int)
    requires
        0 <= n <= orig.len(),
        n <= working.len(),
    ensures
        filter_kept(cmd, orig, working, n).len() == kept_count(cmd, orig, n),
        forall|li: int|
            0 <= li < n && #[trigger] is_kept(cmd, orig[li]) ==> filter_kept(cmd, orig, working, n)[kept_count(
                cmd,
                orig,
                li,
            )] == working[li],
    decreases n,
{
    if n > 0 {
        law_output_is_kept_lines(cmd, orig, working, n - 1);
        lemma_kept_count_mono(cmd, orig, n - 1);
        let prev = filter_kept(cmd, orig, working, n - 1);
        let cur = filter_kept(cmd, orig, working, n);
        assert forall|li: int| 0 <= li < n && #[trigger] is_kept(cmd, orig[li]) implies cur[kept_count(
            cmd,
            orig,
            li,
        )] == working[li] by {
            lemma_kept_count_mono(cmd, orig, li);
            let tail = if is_kept(cmd, orig[n - 1]) {
                seq![working[n - 1]]
            } else {
                Seq::<Seq<char>>::empty()
            };
            assert(cur == prev + tail);
            if li < n - 1 {
                lemma_kept_count_mono_at(cmd, orig, li, n - 1);
                assert(0 <= kept_count(cmd, orig, li) < prev.len());
                assert(cur[kept_count(cmd, orig, li)] == prev[kept_count(cmd, orig, li)]);
            } else {
                assert(kept_count(cmd, orig, li) == prev.len());
            }
        }
    }
}

proof fn lemma_kept_count_mono(cmd: Command, orig: Seq<Seq<char>>, n: int)
    ensures
        0 <= kept_count(cmd, orig, n),
    decreases n,
{
    if n > 0 {
        lemma_kept_count_mono(cmd, orig, n - 1);
    }
}

proof fn lemma_kept_count_mono_at(cmd: Command, orig: Seq<Seq<char>>, li: int, n: int)
    requires
        0 <= li < n,
        is_kept(cmd, orig[li]),
    ensures
        kept_count(cmd, orig, li) < kept_count(cmd, orig, n),
    decreases n - li,
{
    if li < n - 1 {
        lemma_kept_count_mono_at(cmd, orig, li, n - 1);
    }
}

} // verus!
