//! Parses the argument string into global options and alignment patterns.
use crate::config::{lookup_defaults, pad_left_of, pad_right_of, Config, PatternDefaults};
use crate::aligner::is_word_pattern;
use crate::engine::{fancy_escape, fancy_escape_text, lowercase, RegexEngine};
use crate::text::{chars_of, is_ascii_alpha, is_ascii_alphabetic, is_whitespace, is_ws, push_all, string_of};
use vstd::prelude::*;

verus! {

/// One pattern to align, with everything the aligner needs to apply it.
#[derive(Debug, Clone)]
pub struct AlignPattern {
    /// The literal text, or the regex source.
    pub raw: String,
    pub is_regex: bool,
    pub regex_flags: String,
    pub fill: char,
    pub pad_left: usize,
    pub pad_right: usize,
    /// Align the start of the match (`true`) or its end (`false`).
    pub left_align: bool,
    /// Explicit word-boundary pattern (possibly `/.../`-delimited).
    pub word_bound: Option<String>,
    pub no_word_bound: bool,
    /// How many occurrences per line to align (`None`: all).
    pub repeat: Option<usize>,
    /// Context pattern (possibly `/.../flags`).
    pub context: Option<String>,
    pub context_whole: bool,
}

/// Options that apply to the whole run.
#[derive(Debug, Clone)]
pub struct GlobalOptions {
    pub engine: RegexEngine,
    /// Only align lines where every pattern matches (`-g`).
    pub match_every: bool,
    /// Delete lines with no match (`-d`).
    pub delete_no_match: bool,
    /// Delete lines that miss some pattern (`-D`).
    pub delete_missing_match: bool,
}

/// A parsed command: global options and the patterns, in order.
#[derive(Debug, Clone)]
pub struct Command {
    pub global: GlobalOptions,
    pub patterns: Vec<AlignPattern>,
}


// ── patterns and tokens ────────────────────────────────────────────────────

/// A pattern as written: regex source with its flags, or literal text.
#[derive(Debug, Clone, PartialEq)]
pub enum PatternKind {
    Regex { source: String, flags: String },
    Literal(String),
}

/// What a pattern kind holds, as character sequences.
pub enum KindModel {
    Regex(Seq<char>, Seq<char>),
    Literal(Seq<char>),
}

impl View for PatternKind {
    type V = KindModel;

    open spec fn view(&self) -> KindModel {
        match self {
            PatternKind::Regex { source, flags } => KindModel::Regex(source@, flags@),
            PatternKind::Literal(s) => KindModel::Literal(s@),
        }
    }
}

/// A token of the argument string.
enum Token {
    Pattern(PatternKind),
    /// A flag without a value, e.g. `l` for `-l`.
    Flag(Vec<char>),
    /// A flag and its value, e.g. (`p`, `2`) for `-p 2`.
    FlagVal(Vec<char>, Vec<char>),
}

pub enum TokenModel {
    Pattern(KindModel),
    Flag(Seq<char>),
    FlagVal(Seq<char>, Seq<char>),
}

impl View for Token {
    type V = TokenModel;

    closed spec fn view(&self) -> TokenModel {
        match self {
            Token::Pattern(k) => TokenModel::Pattern(k@),
            Token::Flag(n) => TokenModel::Flag(n@),
            Token::FlagVal(n, v) => TokenModel::FlagVal(n@, v@),
        }
    }
}

spec fn tokens_model(ts: Seq<Token>) -> Seq<TokenModel> {
    ts.map_values(|t: Token| t@)
}

// ── scanning ───────────────────────────────────────────────────────────────

/// Position of the `/` closing a regex whose body starts at `j` (`escaped`:
/// the previous character was a backslash).
pub open spec fn regex_close(cs: Seq<char>, j: int, escaped: bool) -> Option<int>
    decreases cs.len() - j,
{
    if j < 0 || j >= cs.len() {
        None
    } else if escaped {
        regex_close(cs, j + 1, false)
    } else if cs[j] == '\\' {
        regex_close(cs, j + 1, true)
    } else if cs[j] == '/' {
        Some(j)
    } else {
        regex_close(cs, j + 1, false)
    }
}

/// Position of the quote `q` closing a quoted string whose body starts at `i`
/// (a backslash escapes the next character).
pub open spec fn quote_close(cs: Seq<char>, i: int, q: char) -> Option<int>
    decreases cs.len() + 1 - i,
{
    if i < 0 || i >= cs.len() {
        None
    } else if cs[i] == q {
        Some(i)
    } else if cs[i] == '\\' {
        quote_close(cs, i + 2, q)
    } else {
        quote_close(cs, i + 1, q)
    }
}

/// End of the run of ASCII letters starting at `i`.
pub open spec fn alpha_end(cs: Seq<char>, i: int) -> int
    decreases cs.len() - i,
{
    if 0 <= i < cs.len() && is_ascii_alpha(cs[i]) {
        alpha_end(cs, i + 1)
    } else {
        i
    }
}

/// End of the run of whitespace starting at `i`.
pub open spec fn ws_end(cs: Seq<char>, i: int) -> int
    decreases cs.len() - i,
{
    if 0 <= i < cs.len() && is_ws(cs[i]) {
        ws_end(cs, i + 1)
    } else {
        i
    }
}

/// End of the word (run of non-whitespace) starting at `i`.
pub open spec fn word_end(cs: Seq<char>, i: int) -> int
    decreases cs.len() - i,
{
    if 0 <= i < cs.len() && !is_ws(cs[i]) {
        word_end(cs, i + 1)
    } else {
        i
    }
}

pub proof fn lemma_regex_close(cs: Seq<char>, j: int, escaped: bool)
    ensures
        regex_close(cs, j, escaped) matches Some(k) ==> j <= k < cs.len() && cs[k] == '/',
    decreases cs.len() - j,
{
    if j < 0 || j >= cs.len() {
    } else if escaped {
        lemma_regex_close(cs, j + 1, false);
    } else if cs[j] == '\\' {
        lemma_regex_close(cs, j + 1, true);
    } else if cs[j] == '/' {
    } else {
        lemma_regex_close(cs, j + 1, false);
    }
}

pub proof fn lemma_quote_close(cs: Seq<char>, i: int, q: char)
    ensures
        quote_close(cs, i, q) matches Some(k) ==> i <= k < cs.len(),
    decreases cs.len() + 1 - i,
{
    if i < 0 || i >= cs.len() {
    } else if cs[i] == q {
    } else if cs[i] == '\\' {
        lemma_quote_close(cs, i + 2, q);
    } else {
        lemma_quote_close(cs, i + 1, q);
    }
}

pub proof fn lemma_alpha_end(cs: Seq<char>, i: int)
    requires
        0 <= i <= cs.len(),
    ensures
        i <= alpha_end(cs, i) <= cs.len(),
        forall|k: int| i <= k < alpha_end(cs, i) ==> is_ascii_alpha(#[trigger] cs[k]),
    decreases cs.len() - i,
{
    if i < cs.len() && is_ascii_alpha(cs[i]) {
        lemma_alpha_end(cs, i + 1);
    }
}

pub proof fn lemma_ws_end(cs: Seq<char>, i: int)
    requires
        0 <= i <= cs.len(),
    ensures
        i <= ws_end(cs, i) <= cs.len(),
        ws_end(cs, i) < cs.len() ==> !is_ws(cs[ws_end(cs, i)]),
    decreases cs.len() - i,
{
    if i < cs.len() && is_ws(cs[i]) {
        lemma_ws_end(cs, i + 1);
    }
}

pub proof fn lemma_word_end(cs: Seq<char>, i: int)
    requires
        0 <= i <= cs.len(),
    ensures
        i <= word_end(cs, i) <= cs.len(),
        i < cs.len() && !is_ws(cs[i]) ==> i < word_end(cs, i),
        forall|k: int| i <= k < word_end(cs, i) ==> !is_ws(#[trigger] cs[k]),
    decreases cs.len() - i,
{
    if i < cs.len() && !is_ws(cs[i]) {
        lemma_word_end(cs, i + 1);
    }
}

fn regex_close_exec(cs: &[char], j: usize) -> (r: Option<usize>)
    requires
        j <= cs@.len(),
    ensures
        match r {
            Some(k) => regex_close(cs@, j as int, false) == Some(k as int),
            None => regex_close(cs@, j as int, false) is None,
        },
{
    let mut k = j;
    let mut escaped = false;
    while k < cs.len()
        invariant
            j <= k <= cs@.len(),
            regex_close(cs@, j as int, false) == regex_close(cs@, k as int, escaped),
        decreases cs@.len() - k,
    {
        if escaped {
            escaped = false;
        } else if cs[k] == '\\' {
            escaped = true;
        } else if cs[k] == '/' {
            return Some(k);
        }
        k = k + 1;
    }
    None
}

fn quote_close_exec(cs: &[char], i: usize, q: char) -> (r: Option<usize>)
    requires
        i <= cs@.len(),
    ensures
        match r {
            Some(k) => quote_close(cs@, i as int, q) == Some(k as int),
            None => quote_close(cs@, i as int, q) is None,
        },
{
    let mut k = i;
    while k < cs.len()
        invariant
            i <= k <= cs@.len(),
            quote_close(cs@, i as int, q) == quote_close(cs@, k as int, q),
        decreases cs@.len() - k,
    {
        if cs[k] == q {
            return Some(k);
        }
        if cs[k] == '\\' {
            if k + 1 >= cs.len() {
                assert(quote_close(cs@, k + 2, q) is None);
                return None;
            }
            k = k + 2;
        } else {
            k = k + 1;
        }
    }
    None
}

fn alpha_end_exec(cs: &[char], i: usize) -> (r: usize)
    requires
        i <= cs@.len(),
    ensures
        r == alpha_end(cs@, i as int),
{
    let mut k = i;
    while k < cs.len() && is_ascii_alphabetic(cs[k])
        invariant
            i <= k <= cs@.len(),
            alpha_end(cs@, i as int) == alpha_end(cs@, k as int),
        decreases cs@.len() - k,
    {
        k = k + 1;
    }
    k
}

fn ws_end_exec(cs: &[char], i: usize) -> (r: usize)
    requires
        i <= cs@.len(),
    ensures
        r == ws_end(cs@, i as int),
{
    let mut k = i;
    while k < cs.len() && is_whitespace(cs[k])
        invariant
            i <= k <= cs@.len(),
            ws_end(cs@, i as int) == ws_end(cs@, k as int),
        decreases cs@.len() - k,
    {
        k = k + 1;
    }
    k
}

fn word_end_exec(cs: &[char], i: usize) -> (r: usize)
    requires
        i <= cs@.len(),
    ensures
        r == word_end(cs@, i as int),
{
    let mut k = i;
    while k < cs.len() && !is_whitespace(cs[k])
        invariant
            i <= k <= cs@.len(),
            word_end(cs@, i as int) == word_end(cs@, k as int),
        decreases cs@.len() - k,
    {
        k = k + 1;
    }
    k
}

/// The character a backslash escape stands for: `\n` and `\t` are newline
/// and tab, any other escaped character stands for itself.
pub open spec fn escaped_char(c: char) -> char {
    if c == 'n' {
        '\n'
    } else if c == 't' {
        '\t'
    } else {
        c
    }
}

/// `s` with its backslash escapes resolved; a final lone backslash is kept.
pub open spec fn unescape_model(s: Seq<char>) -> Seq<char>
    decreases s.len(),
{
    if s.len() == 0 {
        Seq::empty()
    } else if s[0] == '\\' {
        if s.len() == 1 {
            seq!['\\']
        } else {
            seq![escaped_char(s[1])] + unescape_model(s.skip(2))
        }
    } else {
        seq![s[0]] + unescape_model(s.skip(1))
    }
}

fn unescape(s: &[char]) -> (r: Vec<char>)
    ensures
        r@ == unescape_model(s@),
{
    let mut out: Vec<char> = Vec::new();
    let mut i: usize = 0;
    assert(s@.skip(0) =~= s@);
    assert(out@ + unescape_model(s@) =~= unescape_model(s@));
    while i < s.len()
        invariant
            i <= s@.len(),
            out@ + unescape_model(s@.skip(i as int)) == unescape_model(s@),
        decreases s@.len() - i,
    {
        let ghost before = out@;
        let ghost rest = s@.skip(i as int);
        let c = s[i];
        if c == '\\' {
            if i + 1 < s.len() {
                let c2 = s[i + 1];
                let e = if c2 == 'n' {
                    '\n'
                } else if c2 == 't' {
                    '\t'
                } else {
                    c2
                };
                out.push(e);
                assert(rest.skip(2) =~= s@.skip(i + 2));
                assert(unescape_model(rest) == seq![e] + unescape_model(rest.skip(2)));
                i = i + 2;
            } else {
                out.push('\\');
                assert(s@.skip(i + 1) =~= Seq::<char>::empty());
                assert(rest.len() == 1);
                assert(unescape_model(rest) == seq!['\\']);
                assert(unescape_model(s@.skip(i + 1)) =~= Seq::<char>::empty());
                i = i + 1;
            }
        } else {
            out.push(c);
            assert(rest.skip(1) =~= s@.skip(i + 1));
            assert(unescape_model(rest) == seq![c] + unescape_model(rest.skip(1)));
            i = i + 1;
        }
        assert(out@ + unescape_model(s@.skip(i as int)) =~= before + unescape_model(rest));
    }
    assert(s@.skip(s@.len() as int) =~= Seq::<char>::empty());
    assert(out@ =~= out@ + Seq::<char>::empty());
    out
}


// ── messages ───────────────────────────────────────────────────────────────

/// `a`, then `b`, then `c`, as a `String`.
fn cat(a: &str, b: &[char], c: &str) -> (r: String)
    ensures
        r@ == a@ + b@ + c@,
{
    let mut v = chars_of(a);
    push_all(&mut v, b);
    let cv = chars_of(c);
    push_all(&mut v, cv.as_slice());
    string_of(v.as_slice())
}

fn lit(a: &str) -> (r: String)
    ensures
        r@ == a@,
{
    let v = chars_of(a);
    string_of(v.as_slice())
}

pub open spec fn msg_unterminated_regex() -> Seq<char> {
    "Unterminated regex (missing closing '/')"@
}

pub open spec fn msg_unterminated_quote(q: char) -> Seq<char> {
    "Unterminated quoted literal (missing closing "@ + seq![q] + ")"@
}

pub open spec fn msg_requires_value(name: Seq<char>) -> Seq<char> {
    "Flag -"@ + name + " requires a value"@
}

pub open spec fn msg_no_value() -> Seq<char> {
    "Expected value but got end of input"@
}

pub open spec fn msg_unterminated_value() -> Seq<char> {
    "Unterminated value string"@
}

pub open spec fn msg_unterminated_value_regex() -> Seq<char> {
    "Unterminated regex in -c value"@
}

// ── tokenizing ─────────────────────────────────────────────────────────────

pub open spec fn is_quote(c: char) -> bool {
    c == '"' || c == '\'' || c == '`'
}

/// The flags that take a value: `f`, `p`, `pl`, `pr`, `n`, `c`, `E`, `w`.
pub open spec fn is_value_flag(n: Seq<char>) -> bool {
    ||| (n.len() == 1 && (n[0] == 'f' || n[0] == 'p' || n[0] == 'n' || n[0] == 'c' || n[0] == 'E'
        || n[0] == 'w'))
    ||| (n.len() == 2 && n[0] == 'p' && (n[1] == 'l' || n[1] == 'r'))
}

/// The value of a flag, read at `i`: a quoted string (unescaped), a regex
/// `/.../flags` (kept with its delimiters), or a bare word; with the position
/// after it.
pub open spec fn read_value_model(cs: Seq<char>, i: int) -> Result<(Seq<char>, int), Seq<char>> {
    if i < 0 || i >= cs.len() {
        Err(msg_no_value())
    } else {
        let c = cs[i];
        if is_quote(c) {
            match quote_close(cs, i + 1, c) {
                None => Err(msg_unterminated_value()),
                Some(k) => Ok((unescape_model(cs.subrange(i + 1, k)), k + 1)),
            }
        } else if c == '/' {
            match regex_close(cs, i + 1, false) {
                None => Err(msg_unterminated_value_regex()),
                Some(j) => {
                    let fe = alpha_end(cs, j + 1);
                    Ok((seq!['/'] + cs.subrange(i + 1, j) + seq!['/'] + cs.subrange(j + 1, fe), fe))
                },
            }
        } else {
            let we = word_end(cs, i);
            Ok((cs.subrange(i, we), we))
        }
    }
}

pub open spec fn cons(t: TokenModel, r: Result<Seq<TokenModel>, Seq<char>>) -> Result<
    Seq<TokenModel>,
    Seq<char>,
> {
    match r {
        Ok(ts) => Ok(seq![t] + ts),
        Err(e) => Err(e),
    }
}

pub open spec fn with_prefix(pre: Seq<TokenModel>, r: Result<Seq<TokenModel>, Seq<char>>) -> Result<
    Seq<TokenModel>,
    Seq<char>,
> {
    match r {
        Ok(ts) => Ok(pre + ts),
        Err(e) => Err(e),
    }
}

/// The tokens of `cs` from position `i` on, or the first error:
/// whitespace separates tokens; `/.../flags` is a regex; a quoted string is a
/// literal; `-` followed by letters is a flag (with a value for the value
/// flags); `-` alone, `--...` and `-` before a non-letter start a literal;
/// anything else is a bare-word literal.
pub open spec fn tokenize_from(cs: Seq<char>, i: int) -> Result<Seq<TokenModel>, Seq<char>>
    decreases cs.len() - i,
{
    if i < 0 || i >= cs.len() {
        Ok(Seq::empty())
    } else {
        let c = cs[i];
        if is_ws(c) {
            tokenize_from(cs, i + 1)
        } else if c == '/' {
            match regex_close(cs, i + 1, false) {
                None => Err(msg_unterminated_regex()),
                Some(j) => {
                    proof {
                        lemma_regex_close(cs, i + 1, false);
                        lemma_alpha_end(cs, j + 1);
                    }
                    let fe = alpha_end(cs, j + 1);
                    cons(
                        TokenModel::Pattern(
                            KindModel::Regex(cs.subrange(i + 1, j), cs.subrange(j + 1, fe)),
                        ),
                        tokenize_from(cs, fe),
                    )
                },
            }
        } else if is_quote(c) {
            match quote_close(cs, i + 1, c) {
                None => Err(msg_unterminated_quote(c)),
                Some(k) => {
                    proof {
                        lemma_quote_close(cs, i + 1, c);
                    }
                    cons(
                        TokenModel::Pattern(KindModel::Literal(unescape_model(cs.subrange(i + 1, k)))),
                        tokenize_from(cs, k + 1),
                    )
                },
            }
        } else if c == '-' {
            let k = i + 1;
            if k >= cs.len() || is_ws(cs[k]) {
                cons(TokenModel::Pattern(KindModel::Literal(seq!['-'])), tokenize_from(cs, k))
            } else if cs[k] == '-' {
                proof {
                    lemma_word_end(cs, k);
                }
                let we = word_end(cs, k);
                cons(
                    TokenModel::Pattern(KindModel::Literal(cs.subrange(i, we))),
                    tokenize_from(cs, we),
                )
            } else {
                proof {
                    lemma_alpha_end(cs, k);
                }
                let fe = alpha_end(cs, k);
                let name = cs.subrange(k, fe);
                if is_value_flag(name) {
                    proof {
                        lemma_ws_end(cs, fe);
                    }
                    let vi = ws_end(cs, fe);
                    if vi >= cs.len() {
                        Err(msg_requires_value(name))
                    } else {
                        match read_value_model(cs, vi) {
                            Err(e) => Err(e),
                            Ok((v, ni)) => {
                                proof {
                                    lemma_read_value(cs, vi);
                                }
                                cons(TokenModel::FlagVal(name, v), tokenize_from(cs, ni))
                            },
                        }
                    }
                } else if name.len() == 0 {
                    proof {
                        lemma_word_end(cs, fe);
                    }
                    let we = word_end(cs, fe);
                    cons(
                        TokenModel::Pattern(KindModel::Literal(cs.subrange(i, we))),
                        tokenize_from(cs, we),
                    )
                } else {
                    cons(TokenModel::Flag(name), tokenize_from(cs, fe))
                }
            }
        } else {
            proof {
                lemma_word_end(cs, i);
            }
            let we = word_end(cs, i);
            cons(TokenModel::Pattern(KindModel::Literal(cs.subrange(i, we))), tokenize_from(cs, we))
        }
    }
}

pub proof fn lemma_read_value(cs: Seq<char>, i: int)
    requires
        0 <= i < cs.len(),
        !is_ws(cs[i]),
    ensures
        read_value_model(cs, i) matches Ok((_, ni)) ==> i < ni <= cs.len(),
{
    let c = cs[i];
    if is_quote(c) {
        lemma_quote_close(cs, i + 1, c);
    } else if c == '/' {
        lemma_regex_close(cs, i + 1, false);
        if let Some(j) = regex_close(cs, i + 1, false) {
            lemma_alpha_end(cs, j + 1);
        }
    } else {
        lemma_word_end(cs, i);
    }
}

/// Reads a flag's value at `i`.
fn read_value(cs: &[char], i: usize) -> (r: Result<(Vec<char>, usize), String>)
    ensures
        match r {
            Ok((v, ni)) => read_value_model(cs@, i as int) == Ok::<(Seq<char>, int), Seq<char>>(
                (v@, ni as int),
            ),
            Err(e) => read_value_model(cs@, i as int) == Err::<(Seq<char>, int), Seq<char>>(e@),
        },
{
    if i >= cs.len() {
        return Err(lit("Expected value but got end of input"));
    }
    let c = cs[i];
    if c == '"' || c == '\'' || c == '`' {
        match quote_close_exec(cs, i + 1, c) {
            None => Err(lit("Unterminated value string")),
            Some(k) => {
                proof {
                    lemma_quote_close(cs@, i + 1, c);
                }
                let body = &cs[i + 1..k];
                assert(body@ =~= cs@.subrange(i + 1, k as int));
                Ok((unescape(body), k + 1))
            },
        }
    } else if c == '/' {
        match regex_close_exec(cs, i + 1) {
            None => Err(lit("Unterminated regex in -c value")),
            Some(j) => {
                proof {
                    lemma_regex_close(cs@, i + 1, false);
                    lemma_alpha_end(cs@, j + 1);
                }
                let fe = alpha_end_exec(cs, j + 1);
                let mut v: Vec<char> = Vec::new();
                v.push('/');
                push_all(&mut v, &cs[i + 1..j]);
                v.push('/');
                push_all(&mut v, &cs[j + 1..fe]);
                assert(v@ =~= seq!['/'] + cs@.subrange(i + 1, j as int) + seq!['/'] + cs@.subrange(
                    j + 1,
                    fe as int,
                ));
                Ok((v, fe))
            },
        }
    } else {
        let we = word_end_exec(cs, i);
        proof {
            lemma_word_end(cs@, i as int);
        }
        let w = &cs[i..we];
        assert(w@ =~= cs@.subrange(i as int, we as int));
        Ok((crate::text::to_vec(w), we))
    }
}

fn is_value_flag_exec(n: &[char]) -> (r: bool)
    ensures
        r == is_value_flag(n@),
{
    (n.len() == 1 && (n[0] == 'f' || n[0] == 'p' || n[0] == 'n' || n[0] == 'c' || n[0] == 'E'
        || n[0] == 'w')) || (n.len() == 2 && n[0] == 'p' && (n[1] == 'l' || n[1] == 'r'))
}

fn literal_token(cs: &[char], a: usize, b: usize) -> (t: Token)
    requires
        a <= b <= cs@.len(),
    ensures
        t@ == TokenModel::Pattern(KindModel::Literal(cs@.subrange(a as int, b as int))),
{
    let w = &cs[a..b];
    assert(w@ =~= cs@.subrange(a as int, b as int));
    Token::Pattern(PatternKind::Literal(string_of(w)))
}

/// Splits the argument string into tokens (quotes and regex delimiters are
/// kept track of, so a quoted literal may hold spaces).
fn tokenize(input: &str) -> (r: Result<Vec<Token>, String>)
    ensures
        match r {
            Ok(ts) => tokenize_from(input@, 0) == Ok::<Seq<TokenModel>, Seq<char>>(tokens_model(ts@)),
            Err(e) => tokenize_from(input@, 0) == Err::<Seq<TokenModel>, Seq<char>>(e@),
        },
{
    let chars = chars_of(input);
    let cs = chars.as_slice();
    let mut tokens: Vec<Token> = Vec::new();
    let mut i: usize = 0;
    while i < cs.len()
        invariant
            cs@ == input@,
            i <= cs@.len(),
            tokenize_from(cs@, 0) == with_prefix(tokens_model(tokens@), tokenize_from(cs@, i as int)),
        decreases cs@.len() - i,
    {
        let ghost i0 = i as int;
        let ghost before = tokens_model(tokens@);
        let c = cs[i];
        if is_whitespace(c) {
            i = i + 1;
            continue;
        }
        let t: Token;
        if c == '/' {
            match regex_close_exec(cs, i + 1) {
                None => {
                    return Err(lit("Unterminated regex (missing closing '/')"));
                },
                Some(j) => {
                    proof {
                        lemma_regex_close(cs@, i + 1, false);
                        lemma_alpha_end(cs@, j + 1);
                    }
                    let fe = alpha_end_exec(cs, j + 1);
                    let src = &cs[i + 1..j];
                    let fl = &cs[j + 1..fe];
                    assert(src@ =~= cs@.subrange(i + 1, j as int));
                    assert(fl@ =~= cs@.subrange(j + 1, fe as int));
                    t = Token::Pattern(PatternKind::Regex { source: string_of(src), flags: string_of(fl) });
                    i = fe;
                },
            }
        } else if c == '"' || c == '\'' || c == '`' {
            match quote_close_exec(cs, i + 1, c) {
                None => {
                    let q = [c];
                    assert(q@ =~= seq![c]);
                    return Err(cat("Unterminated quoted literal (missing closing ", &q, ")"));
                },
                Some(k) => {
                    proof {
                        lemma_quote_close(cs@, i + 1, c);
                    }
                    let body = &cs[i + 1..k];
                    assert(body@ =~= cs@.subrange(i + 1, k as int));
                    let u = unescape(body);
                    t = Token::Pattern(PatternKind::Literal(string_of(u.as_slice())));
                    i = k + 1;
                },
            }
        } else if c == '-' {
            let k = i + 1;
            if k >= cs.len() || is_whitespace(cs[k]) {
                let d = ['-'];
                assert(d@ =~= seq!['-']);
                t = Token::Pattern(PatternKind::Literal(string_of(&d)));
                i = k;
            } else if cs[k] == '-' {
                let we = word_end_exec(cs, k);
                proof {
                    lemma_word_end(cs@, k as int);
                }
                t = literal_token(cs, i, we);
                i = we;
            } else {
                let fe = alpha_end_exec(cs, k);
                proof {
                    lemma_alpha_end(cs@, k as int);
                }
                let name = &cs[k..fe];
                assert(name@ =~= cs@.subrange(k as int, fe as int));
                if is_value_flag_exec(name) {
                    let vi = ws_end_exec(cs, fe);
                    proof {
                        lemma_ws_end(cs@, fe as int);
                    }
                    if vi >= cs.len() {
                        return Err(cat("Flag -", name, " requires a value"));
                    }
                    match read_value(cs, vi) {
                        Err(e) => {
                            return Err(e);
                        },
                        Ok((v, ni)) => {
                            proof {
                                lemma_read_value(cs@, vi as int);
                            }
                            t = Token::FlagVal(crate::text::to_vec(name), v);
                            i = ni;
                        },
                    }
                } else if name.len() == 0 {
                    let we = word_end_exec(cs, fe);
                    proof {
                        lemma_word_end(cs@, fe as int);
                    }
                    t = literal_token(cs, i, we);
                    i = we;
                } else {
                    t = Token::Flag(crate::text::to_vec(name));
                    i = fe;
                }
            }
        } else {
            let we = word_end_exec(cs, i);
            proof {
                lemma_word_end(cs@, i as int);
            }
            t = literal_token(cs, i, we);
            i = we;
        }
        proof {
            assert(tokenize_from(cs@, i0) == cons(t@, tokenize_from(cs@, i as int)));
        }
        tokens.push(t);
        assert(tokens_model(tokens@) =~= before.push(t@));
        assert(with_prefix(tokens_model(tokens@), tokenize_from(cs@, i as int)) == with_prefix(
            before,
            tokenize_from(cs@, i0),
        )) by {
            match tokenize_from(cs@, i as int) {
                Ok(x) => {
                    assert(before.push(t@) + x =~= before + (seq![t@] + x));
                },
                Err(_) => {},
            }
        }
    }
    proof {
        assert(tokens_model(tokens@) =~= tokens_model(tokens@) + Seq::<TokenModel>::empty());
    }
    Ok(tokens)
}


// ── flags ──────────────────────────────────────────────────────────────────

/// How many times to repeat a pattern match per line.
#[derive(Debug, Clone, Copy)]
pub enum Repeat {
    Count(usize),
    Infinite,
}

/// Flags that modify how a single pattern is applied.
#[derive(Debug, Clone)]
pub struct PatternFlags {
    pub fill: Option<char>,
    pub pad_left: Option<usize>,
    pub pad_right: Option<usize>,
    pub left_align: bool,
    /// `None`: the default rule; `Some(false)`: no word bound (`-B`, `-W`);
    /// `Some(true)`: always bounded (`-b`).
    pub word_bound: Option<bool>,
    /// Explicit word-boundary pattern (`-w`, or the configuration's `word`).
    pub word_pattern: Option<String>,
    pub repeat: Repeat,
    /// Context sub-pattern (applied to the slice before this match).
    pub context: Option<PatternKind>,
    pub context_whole: bool,
}

#[verifier::ext_equal]
pub struct FlagsModel {
    pub fill: Option<char>,
    pub pad_left: Option<usize>,
    pub pad_right: Option<usize>,
    pub left_align: bool,
    pub word_bound: Option<bool>,
    pub word_pattern: Option<Seq<char>>,
    pub repeat: Repeat,
    pub context: Option<KindModel>,
    pub context_whole: bool,
}

pub open spec fn opt_string_model(o: Option<String>) -> Option<Seq<char>> {
    match o {
        Some(s) => Some(s@),
        None => None,
    }
}

pub open spec fn opt_kind_model(o: Option<PatternKind>) -> Option<KindModel> {
    match o {
        Some(k) => Some(k@),
        None => None,
    }
}

impl View for PatternFlags {
    type V = FlagsModel;

    open spec fn view(&self) -> FlagsModel {
        FlagsModel {
            fill: self.fill,
            pad_left: self.pad_left,
            pad_right: self.pad_right,
            left_align: self.left_align,
            word_bound: self.word_bound,
            word_pattern: opt_string_model(self.word_pattern),
            repeat: self.repeat,
            context: opt_kind_model(self.context),
            context_whole: self.context_whole,
        }
    }
}

/// A pattern plus its alignment flags.
#[derive(Debug, Clone)]
pub struct PatternSpec {
    pub kind: PatternKind,
    pub flags: PatternFlags,
}

#[verifier::ext_equal]
pub struct SpecModel {
    pub kind: KindModel,
    pub flags: FlagsModel,
}

impl View for PatternSpec {
    type V = SpecModel;

    open spec fn view(&self) -> SpecModel {
        SpecModel { kind: self.kind@, flags: self.flags@ }
    }
}

pub open spec fn specs_model(v: Seq<PatternSpec>) -> Seq<SpecModel> {
    v.map_values(|p: PatternSpec| p@)
}

/// Global flags that affect the entire run.
#[derive(Debug, Clone, Copy)]
pub struct GlobalFlags {
    /// Only align lines where every pattern matches.
    pub only_all_match: bool,
    /// Delete lines with no match.
    pub delete_no_match: bool,
    /// Delete lines where not every pattern matches.
    pub delete_not_all: bool,
    /// Global filler override (applied when set before any pattern).
    pub fill: Option<char>,
    pub pad_left: Option<usize>,
    pub pad_right: Option<usize>,
    pub left_align: Option<bool>,
    pub word_bound: Option<bool>,
    /// Regex engine chosen with `-E`.
    pub engine: Option<RegexEngine>,
}

pub open spec fn no_global_flags() -> GlobalFlags {
    GlobalFlags {
        only_all_match: false,
        delete_no_match: false,
        delete_not_all: false,
        fill: None,
        pad_left: None,
        pad_right: None,
        left_align: None,
        word_bound: None,
        engine: None,
    }
}

impl Default for GlobalFlags {
    fn default() -> (r: Self)
        ensures
            r == no_global_flags(),
    {
        GlobalFlags {
            only_all_match: false,
            delete_no_match: false,
            delete_not_all: false,
            fill: None,
            pad_left: None,
            pad_right: None,
            left_align: None,
            word_bound: None,
            engine: None,
        }
    }
}

// ── numbers ────────────────────────────────────────────────────────────────

pub open spec fn is_digit(c: char) -> bool {
    '0' <= c <= '9'
}

pub open spec fn digits_value(d: Seq<char>) -> int
    decreases d.len(),
{
    if d.len() == 0 {
        0
    } else {
        digits_value(d.drop_last()) * 10 + (d.last() as int - '0' as int)
    }
}

pub open spec fn all_digits(d: Seq<char>) -> bool {
    forall|k: int| 0 <= k < d.len() ==> is_digit(#[trigger] d[k])
}

/// What `str::parse::<usize>` accepts: an optional `+`, then one or more ASCII
/// digits, of a value that fits in a `usize`.
pub open spec fn parse_usize_model(s: Seq<char>) -> Option<usize> {
    let d = if s.len() > 0 && s[0] == '+' {
        s.skip(1)
    } else {
        s
    };
    if d.len() > 0 && all_digits(d) && digits_value(d) <= usize::MAX {
        Some(digits_value(d) as usize)
    } else {
        None
    }
}

proof fn lemma_digits_grow(d: Seq<char>, k: int)
    requires
        0 <= k <= d.len(),
        forall|j: int| 0 <= j < d.len() ==> is_digit(#[trigger] d[j]),
    ensures
        0 <= digits_value(d.take(k)) <= digits_value(d),
    decreases d.len() - k,
{
    if k < d.len() {
        lemma_digits_grow(d, k + 1);
        assert(d.take(k + 1).drop_last() =~= d.take(k));
        assert(is_digit(d[k]));
        let v = digits_value(d.take(k));
        assert(d.take(k + 1).last() == d[k]);
        lemma_digits_nonneg(d.take(k));
        assert(v * 10 >= v) by (nonlinear_arith)
            requires
                v >= 0,
        ;
    } else {
        assert(d.take(k) =~= d);
        lemma_digits_nonneg(d);
    }
}

proof fn lemma_digits_nonneg(d: Seq<char>)
    requires
        forall|j: int| 0 <= j < d.len() ==> is_digit(#[trigger] d[j]),
    ensures
        digits_value(d) >= 0,
    decreases d.len(),
{
    if d.len() > 0 {
        lemma_digits_nonneg(d.drop_last());
        assert(is_digit(d[d.len() - 1]));
        let v = digits_value(d.drop_last());
        assert(v * 10 >= 0) by (nonlinear_arith)
            requires
                v >= 0,
        ;
    }
}

/// `str::parse::<usize>`.
fn parse_usize(s: &[char]) -> (r: Option<usize>)
    ensures
        r == parse_usize_model(s@),
{
    let start: usize = if s.len() > 0 && s[0] == '+' {
        1
    } else {
        0
    };
    let d = &s[start..s.len()];
    assert(d@ =~= (if s@.len() > 0 && s@[0] == '+' {
        s@.skip(1)
    } else {
        s@
    }));
    if d.len() == 0 {
        return None;
    }
    let ghost dm = if s@.len() > 0 && s@[0] == '+' {
        s@.skip(1)
    } else {
        s@
    };
    let mut k: usize = 0;
    while k < d.len()
        invariant
            dm == d@,
            dm == (if s@.len() > 0 && s@[0] == '+' {
                s@.skip(1)
            } else {
                s@
            }),
            d@.len() > 0,
            k <= d@.len(),
            forall|j: int| 0 <= j < k ==> is_digit(#[trigger] d@[j]),
        decreases d@.len() - k,
    {
        if !('0' <= d[k] && d[k] <= '9') {
            assert(!is_digit(dm[k as int]));
            assert(!all_digits(dm));
            return None;
        }
        k = k + 1;
    }
    let mut v: usize = 0;
    let mut k: usize = 0;
    assert(d@.take(0) =~= Seq::<char>::empty());
    while k < d.len()
        invariant
            dm == d@,
            dm == (if s@.len() > 0 && s@[0] == '+' {
                s@.skip(1)
            } else {
                s@
            }),
            d@.len() > 0,
            k <= d@.len(),
            forall|j: int| 0 <= j < d@.len() ==> is_digit(#[trigger] d@[j]),
            v == digits_value(d@.take(k as int)),
        decreases d@.len() - k,
    {
        let c = d[k];
        let dig = (c as u32 - '0' as u32) as usize;
        assert(d@.take(k + 1).drop_last() =~= d@.take(k as int));
        assert(is_digit(d@[k as int]));
        assert(d@.take(k + 1).last() == c);
        assert(digits_value(d@.take(k + 1)) == v * 10 + dig);
        proof {
            lemma_digits_grow(d@, k + 1);
        }
        match v.checked_mul(10) {
            None => {
                return None;
            },
            Some(t) => match t.checked_add(dig) {
                None => {
                    return None;
                },
                Some(u) => {
                    v = u;
                },
            },
        }
        k = k + 1;
    }
    assert(d@.take(d@.len() as int) =~= d@);
    Some(v)
}

// ── applying flags ─────────────────────────────────────────────────────────

pub open spec fn is1(n: Seq<char>, a: char) -> bool {
    n.len() == 1 && n[0] == a
}

pub open spec fn is2(n: Seq<char>, a: char, b: char) -> bool {
    n.len() == 2 && n[0] == a && n[1] == b
}

fn is1_exec(n: &[char], a: char) -> (r: bool)
    ensures
        r == is1(n@, a),
{
    n.len() == 1 && n[0] == a
}

fn is2_exec(n: &[char], a: char, b: char) -> (r: bool)
    ensures
        r == is2(n@, a, b),
{
    n.len() == 2 && n[0] == a && n[1] == b
}

pub open spec fn first_char(v: Seq<char>) -> Option<char> {
    if v.len() > 0 {
        Some(v[0])
    } else {
        None
    }
}

pub open spec fn msg_integer(flag: Seq<char>, val: Seq<char>) -> Seq<char> {
    flag + " requires integer, got "@ + val
}

pub open spec fn engine_named(s: Seq<char>) -> RegexEngine {
    if lowercase(s) == "regress"@ {
        RegexEngine::Regress
    } else {
        RegexEngine::FancyRegex
    }
}

/// A flag without a value before any pattern.
pub open spec fn global_flag(g: GlobalFlags, name: Seq<char>) -> GlobalFlags {
    if is1(name, 'g') {
        GlobalFlags { only_all_match: true, ..g }
    } else if is1(name, 'd') {
        GlobalFlags { delete_no_match: true, ..g }
    } else if is1(name, 'D') {
        GlobalFlags { delete_not_all: true, ..g }
    } else if is1(name, 'l') {
        GlobalFlags { left_align: Some(true), ..g }
    } else if is1(name, 'r') {
        GlobalFlags { left_align: Some(false), ..g }
    } else if is1(name, 'b') {
        GlobalFlags { word_bound: Some(true), ..g }
    } else if is1(name, 'B') || is1(name, 'W') {
        GlobalFlags { word_bound: Some(false), ..g }
    } else {
        g
    }
}

/// A flag with a value before any pattern.
pub open spec fn global_flag_val(g: GlobalFlags, name: Seq<char>, val: Seq<char>) -> Result<
    GlobalFlags,
    Seq<char>,
> {
    if is1(name, 'f') {
        Ok(GlobalFlags { fill: first_char(val), ..g })
    } else if is1(name, 'p') || is2(name, 'p', 'l') || is2(name, 'p', 'r') {
        match parse_usize_model(val) {
            None => Err(msg_integer(seq!['-'] + name, val)),
            Some(n) => Ok(
                GlobalFlags {
                    pad_left: if is2(name, 'p', 'r') {
                        g.pad_left
                    } else {
                        Some(n)
                    },
                    pad_right: if is2(name, 'p', 'l') {
                        g.pad_right
                    } else {
                        Some(n)
                    },
                    ..g
                },
            ),
        }
    } else if is1(name, 'E') {
        Ok(GlobalFlags { engine: Some(engine_named(val)), ..g })
    } else {
        Ok(g)
    }
}

/// The global flags of the tokens `k..end`, applied in order to `g`.
pub open spec fn globals_from(ts: Seq<TokenModel>, k: int, end: int, g: GlobalFlags) -> Result<
    GlobalFlags,
    Seq<char>,
>
    decreases end - k,
{
    if k < 0 || k >= end || k >= ts.len() {
        Ok(g)
    } else {
        match ts[k] {
            TokenModel::Flag(n) => globals_from(ts, k + 1, end, global_flag(g, n)),
            TokenModel::FlagVal(n, v) => match global_flag_val(g, n, v) {
                Err(e) => Err(e),
                Ok(g2) => globals_from(ts, k + 1, end, g2),
            },
            TokenModel::Pattern(_) => globals_from(ts, k + 1, end, g),
        }
    }
}

/// A per-pattern flag without a value.
pub open spec fn flag_bool(f: FlagsModel, name: Seq<char>) -> FlagsModel {
    if is1(name, 'l') {
        FlagsModel { left_align: true, ..f }
    } else if is1(name, 'r') {
        FlagsModel { left_align: false, ..f }
    } else if is1(name, 'b') {
        FlagsModel { word_bound: Some(true), ..f }
    } else if is1(name, 'B') || is1(name, 'W') {
        FlagsModel { word_bound: Some(false), ..f }
    } else if is1(name, 'C') {
        FlagsModel { context_whole: true, ..f }
    } else {
        f
    }
}

/// A `-c` value: `/source/flags` is a regex (split at the last `/`),
/// anything else a literal.
pub open spec fn context_kind(val: Seq<char>) -> KindModel {
    if val.len() > 0 && val[0] == '/' && crate::aligner::last_index_of(val.skip(1), '/') is Some {
        let rest = val.skip(1);
        let end = crate::aligner::last_index_of(rest, '/').unwrap();
        KindModel::Regex(rest.take(end), rest.skip(end + 1))
    } else {
        KindModel::Literal(val)
    }
}

/// A per-pattern flag with a value.
pub open spec fn flag_val(f: FlagsModel, name: Seq<char>, val: Seq<char>) -> Result<
    FlagsModel,
    Seq<char>,
> {
    if is1(name, 'f') {
        Ok(FlagsModel { fill: first_char(val), ..f })
    } else if is1(name, 'p') || is2(name, 'p', 'l') || is2(name, 'p', 'r') {
        match parse_usize_model(val) {
            None => Err(msg_integer(seq!['-'] + name, val)),
            Some(n) => Ok(
                FlagsModel {
                    pad_left: if is2(name, 'p', 'r') {
                        f.pad_left
                    } else {
                        Some(n)
                    },
                    pad_right: if is2(name, 'p', 'l') {
                        f.pad_right
                    } else {
                        Some(n)
                    },
                    ..f
                },
            ),
        }
    } else if is1(name, 'n') {
        if is1(val, '*') {
            Ok(FlagsModel { repeat: Repeat::Infinite, ..f })
        } else {
            match parse_usize_model(val) {
                None => Err("-n requires integer or *, got "@ + val),
                Some(n) => Ok(FlagsModel { repeat: Repeat::Count(n), ..f }),
            }
        }
    } else if is1(name, 'c') {
        Ok(FlagsModel { context: Some(context_kind(val)), ..f })
    } else if is1(name, 'w') {
        Ok(FlagsModel { word_pattern: Some(val), ..f })
    } else {
        Ok(f)
    }
}


fn apply_global_flag(name: &[char], global: &mut GlobalFlags)
    ensures
        *final(global) == global_flag(*old(global), name@),
{
    if is1_exec(name, 'g') {
        global.only_all_match = true;
    } else if is1_exec(name, 'd') {
        global.delete_no_match = true;
    } else if is1_exec(name, 'D') {
        global.delete_not_all = true;
    } else if is1_exec(name, 'l') {
        global.left_align = Some(true);
    } else if is1_exec(name, 'r') {
        global.left_align = Some(false);
    } else if is1_exec(name, 'b') {
        global.word_bound = Some(true);
    } else if is1_exec(name, 'B') || is1_exec(name, 'W') {
        global.word_bound = Some(false);
    }
}

fn integer_error(name: &[char], val: &[char]) -> (r: String)
    ensures
        r@ == msg_integer(seq!['-'] + name@, val@),
{
    let mut v: Vec<char> = Vec::new();
    v.push('-');
    push_all(&mut v, name);
    let mid = chars_of(" requires integer, got ");
    push_all(&mut v, mid.as_slice());
    push_all(&mut v, val);
    assert(v@ =~= seq!['-'] + name@ + " requires integer, got "@ + val@);
    string_of(v.as_slice())
}

fn apply_global_flag_val(name: &[char], val: &[char], global: &mut GlobalFlags) -> (r: Result<(), String>)
    ensures
        match r {
            Ok(()) => global_flag_val(*old(global), name@, val@) == Ok::<GlobalFlags, Seq<char>>(
                *final(global),
            ),
            Err(e) => global_flag_val(*old(global), name@, val@) == Err::<GlobalFlags, Seq<char>>(
                e@,
            ) && *final(global) == *old(global),
        },
{
    if is1_exec(name, 'f') {
        global.fill = if val.len() > 0 {
            Some(val[0])
        } else {
            None
        };
    } else if is1_exec(name, 'p') || is2_exec(name, 'p', 'l') || is2_exec(name, 'p', 'r') {
        match parse_usize(val) {
            None => {
                return Err(integer_error(name, val));
            },
            Some(n) => {
                if !is2_exec(name, 'p', 'r') {
                    global.pad_left = Some(n);
                }
                if !is2_exec(name, 'p', 'l') {
                    global.pad_right = Some(n);
                }
            },
        }
    } else if is1_exec(name, 'E') {
        let v = string_of(val);
        global.engine = Some(RegexEngine::from_str(v.as_str()));
    }
    Ok(())
}

/// The global flags after the tokens `k..end` are applied in order to `g`,
/// stopping before the first token that fails.
pub open spec fn globals_state(ts: Seq<TokenModel>, k: int, end: int, g: GlobalFlags) -> GlobalFlags
    decreases end - k,
{
    if k < 0 || k >= end || k >= ts.len() {
        g
    } else {
        match ts[k] {
            TokenModel::Flag(n) => globals_state(ts, k + 1, end, global_flag(g, n)),
            TokenModel::FlagVal(n, v) => match global_flag_val(g, n, v) {
                Err(_) => g,
                Ok(g2) => globals_state(ts, k + 1, end, g2),
            },
            TokenModel::Pattern(_) => globals_state(ts, k + 1, end, g),
        }
    }
}

/// Applies the global flags among the first `end` tokens. On an error the
/// tokens before the failing one stay applied.
fn apply_global_flags(tokens: &Vec<Token>, end: usize, global: &mut GlobalFlags) -> (r: Result<
    (),
    String,
>)
    requires
        end <= tokens@.len(),
    ensures
        match r {
            Ok(()) => globals_from(tokens_model(tokens@), 0, end as int, *old(global)) == Ok::<
                GlobalFlags,
                Seq<char>,
            >(*final(global)),
            Err(e) => globals_from(tokens_model(tokens@), 0, end as int, *old(global)) == Err::<
                GlobalFlags,
                Seq<char>,
            >(e@),
        },
        *final(global) == globals_state(tokens_model(tokens@), 0, end as int, *old(global)),
{
    let ghost ts = tokens_model(tokens@);
    let ghost g0 = *global;
    let mut k: usize = 0;
    while k < end
        invariant
            end <= tokens@.len(),
            ts == tokens_model(tokens@),
            g0 == *old(global),
            k <= end,
            globals_from(ts, 0, end as int, g0) == globals_from(ts, k as int, end as int, *global),
            globals_state(ts, 0, end as int, g0) == globals_state(ts, k as int, end as int, *global),
        decreases end - k,
    {
        assert(ts[k as int] == tokens@[k as int]@);
        match &tokens[k] {
            Token::Flag(name) => {
                apply_global_flag(name.as_slice(), global);
            },
            Token::FlagVal(name, val) => {
                let ghost gk = *global;
                match apply_global_flag_val(name.as_slice(), val.as_slice(), global) {
                    Ok(()) => {},
                    Err(e) => {
                        assert(globals_from(ts, k as int, end as int, gk) == Err::<GlobalFlags, Seq<char>>(e@));
                        return Err(e);
                    },
                }
            },
            Token::Pattern(_) => {},
        }
        k = k + 1;
    }
    Ok(())
}

fn apply_per_pat_flag_bool(name: &[char], flags: &mut PatternFlags) -> (r: Result<(), String>)
    ensures
        r is Ok,
        final(flags)@ == flag_bool(old(flags)@, name@),
{
    if is1_exec(name, 'l') {
        flags.left_align = true;
    } else if is1_exec(name, 'r') {
        flags.left_align = false;
    } else if is1_exec(name, 'b') {
        flags.word_bound = Some(true);
    } else if is1_exec(name, 'B') || is1_exec(name, 'W') {
        flags.word_bound = Some(false);
    } else if is1_exec(name, 'C') {
        flags.context_whole = true;
    }
    Ok(())
}

fn context_kind_exec(val: &[char]) -> (r: PatternKind)
    ensures
        r@ == context_kind(val@),
{
    if val.len() > 0 && val[0] == '/' {
        let rest = &val[1..val.len()];
        assert(rest@ =~= val@.skip(1));
        match crate::aligner::rfind(rest, '/') {
            Some(end) => {
                let a = &rest[0..end];
                let b = &rest[end + 1..rest.len()];
                assert(a@ =~= rest@.take(end as int));
                assert(b@ =~= rest@.skip(end + 1));
                return PatternKind::Regex { source: string_of(a), flags: string_of(b) };
            },
            None => {},
        }
    }
    PatternKind::Literal(string_of(val))
}

fn apply_per_pat_flag_val(name: &[char], val: &[char], flags: &mut PatternFlags) -> (r: Result<
    (),
    String,
>)
    ensures
        match r {
            Ok(()) => flag_val(old(flags)@, name@, val@) == Ok::<FlagsModel, Seq<char>>(
                final(flags)@,
            ),
            Err(e) => flag_val(old(flags)@, name@, val@) == Err::<FlagsModel, Seq<char>>(e@)
                && *final(flags) == *old(flags),
        },
{
    proof {
        reveal_strlit("");
    }
    if is1_exec(name, 'f') {
        flags.fill = if val.len() > 0 {
            Some(val[0])
        } else {
            None
        };
    } else if is1_exec(name, 'p') || is2_exec(name, 'p', 'l') || is2_exec(name, 'p', 'r') {
        match parse_usize(val) {
            None => {
                return Err(integer_error(name, val));
            },
            Some(n) => {
                if !is2_exec(name, 'p', 'r') {
                    flags.pad_left = Some(n);
                }
                if !is2_exec(name, 'p', 'l') {
                    flags.pad_right = Some(n);
                }
            },
        }
    } else if is1_exec(name, 'n') {
        if is1_exec(val, '*') {
            flags.repeat = Repeat::Infinite;
        } else {
            match parse_usize(val) {
                None => {
                    return Err(cat("-n requires integer or *, got ", val, ""));
                },
                Some(n) => {
                    flags.repeat = Repeat::Count(n);
                },
            }
        }
    } else if is1_exec(name, 'c') {
        flags.context = Some(context_kind_exec(val));
    } else if is1_exec(name, 'w') {
        flags.word_pattern = Some(string_of(val));
    }
    Ok(())
}


// ── patterns from the configuration ────────────────────────────────────────

/// End of `s` without its trailing whitespace, looking at `s[..j]`.
pub open spec fn trim_end_at(s: Seq<char>, j: int) -> int
    decreases j,
{
    if 0 < j <= s.len() && is_ws(s[j - 1]) {
        trim_end_at(s, j - 1)
    } else {
        j
    }
}

/// `s` without leading and trailing whitespace (`str::trim`).
pub open spec fn trim_model(s: Seq<char>) -> Seq<char> {
    let a = ws_end(s, 0);
    let b = trim_end_at(s, s.len() as int);
    if a >= b {
        Seq::empty()
    } else {
        s.subrange(a, b)
    }
}

/// A pattern as written in the configuration (`context`): `/source/flags`
/// (split at the last `/`) is a regex, other non-empty text a literal; both
/// after trimming whitespace.
pub open spec fn pattern_kind_model(s: Seq<char>) -> Option<KindModel> {
    let t = trim_model(s);
    if t.len() > 0 && t[0] == '/' && crate::aligner::last_index_of(t.skip(1), '/') is Some {
        let rest = t.skip(1);
        let end = crate::aligner::last_index_of(rest, '/').unwrap();
        Some(KindModel::Regex(rest.take(end), rest.skip(end + 1)))
    } else if t.len() == 0 {
        None
    } else {
        Some(KindModel::Literal(t))
    }
}

proof fn lemma_trim_end_at(s: Seq<char>, j: int)
    requires
        0 <= j <= s.len(),
    ensures
        0 <= trim_end_at(s, j) <= j,
    decreases j,
{
    if 0 < j && is_ws(s[j - 1]) {
        lemma_trim_end_at(s, j - 1);
    }
}

fn trim(s: &[char]) -> (r: &[char])
    ensures
        r@ == trim_model(s@),
{
    let a = ws_end_exec(s, 0);
    let mut b = s.len();
    while b > 0 && is_whitespace(s[b - 1])
        invariant
            b <= s@.len(),
            trim_end_at(s@, s@.len() as int) == trim_end_at(s@, b as int),
        decreases b,
    {
        b = b - 1;
    }
    proof {
        lemma_ws_end(s@, 0);
    }
    if a >= b {
        let e = &s[0..0];
        assert(e@ =~= Seq::<char>::empty());
        e
    } else {
        let r = &s[a..b];
        assert(r@ =~= s@.subrange(a as int, b as int));
        r
    }
}

/// Parses a pattern string as used for `-c` values and configured contexts.
pub fn parse_pattern_kind(s: &str) -> (r: Option<PatternKind>)
    ensures
        match r {
            Some(k) => pattern_kind_model(s@) == Some(k@),
            None => pattern_kind_model(s@) is None,
        },
{
    let cs = chars_of(s);
    let t = trim(cs.as_slice());
    if t.len() > 0 && t[0] == '/' {
        let rest = &t[1..t.len()];
        assert(rest@ =~= t@.skip(1));
        match crate::aligner::rfind(rest, '/') {
            Some(end) => {
                let a = &rest[0..end];
                let b = &rest[end + 1..rest.len()];
                assert(a@ =~= rest@.take(end as int));
                assert(b@ =~= rest@.skip(end + 1));
                return Some(PatternKind::Regex { source: string_of(a), flags: string_of(b) });
            },
            None => {},
        }
    }
    if t.len() == 0 {
        return None;
    }
    Some(PatternKind::Literal(string_of(t)))
}

/// The flags a pattern starts with: the configuration's defaults for its
/// text (`fill`, `pad`, `align`, `word`, `context`), else the global ones;
/// one occurrence; no whole-slice context.
pub open spec fn default_flags_model(cfg: Config, key: Seq<char>) -> FlagsModel {
    let pd = lookup_defaults(cfg, key);
    FlagsModel {
        fill: Some(
            match pd {
                Some(d) => match d.fill {
                    Some(c) => c,
                    None => cfg.fill,
                },
                None => cfg.fill,
            },
        ),
        pad_left: Some(
            match pd {
                Some(d) => match d.pad {
                    Some(p) => pad_left_of(p),
                    None => cfg.pad,
                },
                None => cfg.pad,
            },
        ),
        pad_right: Some(
            match pd {
                Some(d) => match d.pad {
                    Some(p) => pad_right_of(p),
                    None => cfg.pad,
                },
                None => cfg.pad,
            },
        ),
        left_align: match pd {
            Some(d) => match d.align {
                Some(a) => a@ != "right"@,
                None => true,
            },
            None => true,
        },
        word_bound: None,
        word_pattern: match pd {
            Some(d) => opt_string_model(d.word),
            None => None,
        },
        repeat: Repeat::Count(1),
        context: match pd {
            Some(d) => match d.context {
                Some(c) => Some(
                    match pattern_kind_model(c@) {
                        Some(k) => k,
                        None => KindModel::Literal(c@),
                    },
                ),
                None => None,
            },
            None => None,
        },
        context_whole: false,
    }
}

fn clone_string(s: &String) -> (r: String)
    ensures
        r@ == s@,
{
    s.clone()
}

fn clone_opt_string(s: &Option<String>) -> (r: Option<String>)
    ensures
        opt_string_model(r) == opt_string_model(*s),
{
    match s {
        Some(x) => Some(clone_string(x)),
        None => None,
    }
}

fn clone_kind(k: &PatternKind) -> (r: PatternKind)
    ensures
        r@ == k@,
{
    match k {
        PatternKind::Regex { source, flags } => PatternKind::Regex {
            source: clone_string(source),
            flags: clone_string(flags),
        },
        PatternKind::Literal(s) => PatternKind::Literal(clone_string(s)),
    }
}

impl PatternFlags {
    /// The flags a pattern starts with, from the configuration (per-pattern
    /// entry for `pat_text` first, then the global defaults). Regex and literal
    /// patterns start alike: their word-bound defaults are chosen when the
    /// pattern is built.
    pub fn default_with_config(cfg: &Config, _is_regex: bool, pat_text: &str) -> (r: Self)
        ensures
            r@ == default_flags_model(*cfg, pat_text@),
    {
        let char_cfg = cfg.pattern_defaults(pat_text);
        let fill = match char_cfg {
            Some(d) => match d.fill {
                Some(c) => c,
                None => cfg.fill,
            },
            None => cfg.fill,
        };
        let pad_left = match char_cfg {
            Some(d) => match &d.pad {
                Some(p) => p.left(),
                None => cfg.pad,
            },
            None => cfg.pad,
        };
        let pad_right = match char_cfg {
            Some(d) => match &d.pad {
                Some(p) => p.right(),
                None => cfg.pad,
            },
            None => cfg.pad,
        };
        let left_align = match char_cfg {
            Some(d) => match &d.align {
                Some(a) => !crate::text::str_eq(a.as_str(), "right"),
                None => true,
            },
            None => true,
        };
        let word_pattern = match char_cfg {
            Some(d) => clone_opt_string(&d.word),
            None => None,
        };
        let context = match char_cfg {
            Some(d) => match &d.context {
                Some(ctx) => match parse_pattern_kind(ctx.as_str()) {
                    Some(k) => Some(k),
                    None => Some(PatternKind::Literal(clone_string(ctx))),
                },
                None => None,
            },
            None => None,
        };
        PatternFlags {
            fill: Some(fill),
            pad_left: Some(pad_left),
            pad_right: Some(pad_right),
            left_align,
            word_bound: None,
            word_pattern,
            repeat: Repeat::Count(1),
            context,
            context_whole: false,
        }
    }
}

// ── parsing the tokens ─────────────────────────────────────────────────────

/// Global overrides given before the first pattern replace the pattern's
/// starting flags.
pub open spec fn with_globals(f: FlagsModel, g: GlobalFlags) -> FlagsModel {
    FlagsModel {
        fill: match g.fill {
            Some(c) => Some(c),
            None => f.fill,
        },
        pad_left: match g.pad_left {
            Some(p) => Some(p),
            None => f.pad_left,
        },
        pad_right: match g.pad_right {
            Some(p) => Some(p),
            None => f.pad_right,
        },
        left_align: match g.left_align {
            Some(l) => l,
            None => f.left_align,
        },
        word_bound: match g.word_bound {
            Some(b) => Some(b),
            None => f.word_bound,
        },
        ..f
    }
}

/// The flags following a pattern, from token `j` up to the next pattern,
/// applied in order; with the position of that pattern (or the end).
pub open spec fn flags_from(ts: Seq<TokenModel>, j: int, f: FlagsModel) -> Result<
    (FlagsModel, int),
    Seq<char>,
>
    decreases ts.len() - j,
{
    if j < 0 || j >= ts.len() {
        Ok((f, j))
    } else {
        match ts[j] {
            TokenModel::Pattern(_) => Ok((f, j)),
            TokenModel::Flag(n) => flags_from(ts, j + 1, flag_bool(f, n)),
            TokenModel::FlagVal(n, v) => match flag_val(f, n, v) {
                Err(e) => Err(e),
                Ok(f2) => flags_from(ts, j + 1, f2),
            },
        }
    }
}

pub proof fn lemma_flags_from(ts: Seq<TokenModel>, j: int, f: FlagsModel)
    requires
        0 <= j,
    ensures
        flags_from(ts, j, f) matches Ok((_, k)) ==> j <= k && (k < ts.len() ==> ts[k] is Pattern) && (k >= ts.len() ==> k == j || k == ts.len()),
    decreases ts.len() - j,
{
    if j < 0 || j >= ts.len() {
    } else {
        match ts[j] {
            TokenModel::Pattern(_) => {},
            TokenModel::Flag(n) => {
                lemma_flags_from(ts, j + 1, flag_bool(f, n));
            },
            TokenModel::FlagVal(n, v) => match flag_val(f, n, v) {
                Err(e) => {},
                Ok(f2) => {
                    lemma_flags_from(ts, j + 1, f2);
                },
            },
        }
    }
}

pub open spec fn kind_text(k: KindModel) -> Seq<char> {
    match k {
        KindModel::Literal(s) => s,
        KindModel::Regex(src, _) => src,
    }
}

pub open spec fn cons_spec(x: SpecModel, r: Result<Seq<SpecModel>, Seq<char>>) -> Result<
    Seq<SpecModel>,
    Seq<char>,
> {
    match r {
        Ok(v) => Ok(seq![x] + v),
        Err(e) => Err(e),
    }
}

/// The patterns from token `i` on, each with its starting flags (from the
/// configuration, then the global overrides) and the flags after it.
pub open spec fn specs_from(ts: Seq<TokenModel>, i: int, cfg: Config, g: GlobalFlags) -> Result<
    Seq<SpecModel>,
    Seq<char>,
>
    decreases ts.len() - i,
{
    if i < 0 || i >= ts.len() {
        Ok(Seq::empty())
    } else {
        match ts[i] {
            TokenModel::Pattern(kind) => {
                let f0 = with_globals(default_flags_model(cfg, kind_text(kind)), g);
                match flags_from(ts, i + 1, f0) {
                    Err(e) => Err(e),
                    Ok((f, j)) => {
                        proof {
                            lemma_flags_from(ts, i + 1, f0);
                        }
                        cons_spec(SpecModel { kind, flags: f }, specs_from(ts, j, cfg, g))
                    },
                }
            },
            _ => specs_from(ts, i + 1, cfg, g),
        }
    }
}

/// Position of the first pattern token at or after `k` (the end if none).
pub open spec fn first_pattern(ts: Seq<TokenModel>, k: int) -> int
    decreases ts.len() - k,
{
    if k < 0 || k >= ts.len() {
        ts.len() as int
    } else if ts[k] is Pattern {
        k
    } else {
        first_pattern(ts, k + 1)
    }
}

/// What `parse_input` yields for the tokens: the global flags (those before
/// the first pattern) and the patterns with their flags; or the first error.
pub open spec fn parse_tokens_model(ts: Seq<TokenModel>, cfg: Config) -> Result<
    (GlobalFlags, Seq<SpecModel>),
    Seq<char>,
> {
    let fp = first_pattern(ts, 0);
    match globals_from(ts, 0, fp, no_global_flags()) {
        Err(e) => Err(e),
        Ok(g) => match specs_from(ts, fp, cfg, g) {
            Err(e) => Err(e),
            Ok(v) => Ok((g, v)),
        },
    }
}

/// What `parse_input` yields for the argument string.
pub open spec fn parse_input_model(input: Seq<char>, cfg: Config) -> Result<
    (GlobalFlags, Seq<SpecModel>),
    Seq<char>,
> {
    match tokenize_from(input, 0) {
        Err(e) => Err(e),
        Ok(ts) => parse_tokens_model(ts, cfg),
    }
}

pub open spec fn specs_then(pre: Seq<SpecModel>, r: Result<Seq<SpecModel>, Seq<char>>) -> Result<
    Seq<SpecModel>,
    Seq<char>,
> {
    match r {
        Ok(v) => Ok(pre + v),
        Err(e) => Err(e),
    }
}

proof fn lemma_first_pattern(ts: Seq<TokenModel>, k: int)
    requires
        0 <= k <= ts.len(),
    ensures
        k <= first_pattern(ts, k) <= ts.len(),
        first_pattern(ts, k) < ts.len() ==> ts[first_pattern(ts, k)] is Pattern,
        forall|j: int| k <= j < first_pattern(ts, k) ==> !(#[trigger] ts[j] is Pattern),
    decreases ts.len() - k,
{
    if k < ts.len() && !(ts[k] is Pattern) {
        lemma_first_pattern(ts, k + 1);
    }
}

fn is_pattern_token(t: &Token) -> (r: bool)
    ensures
        r == (t@ is Pattern),
{
    match t {
        Token::Pattern(_) => true,
        _ => false,
    }
}

/// Parses the argument string into the global flags and the patterns with
/// their flags. Flags before the first pattern are global: `-g`, `-d`, `-D`,
/// `-E` and overrides of the fill, padding, alignment and word bound for all
/// patterns. Each pattern takes the flags that follow it.
pub fn parse_input(input: &str, cfg: &Config) -> (r: Result<(GlobalFlags, Vec<PatternSpec>), String>)
    ensures
        match r {
            Ok((g, specs)) => parse_input_model(input@, *cfg) == Ok::<
                (GlobalFlags, Seq<SpecModel>),
                Seq<char>,
            >((g, specs_model(specs@))),
            Err(e) => parse_input_model(input@, *cfg) == Err::<
                (GlobalFlags, Seq<SpecModel>),
                Seq<char>,
            >(e@),
        },
{
    let tokens = match tokenize(input) {
        Ok(t) => t,
        Err(e) => {
            return Err(e);
        },
    };
    let ghost ts = tokens_model(tokens@);
    let n = tokens.len();
    let mut fp: usize = 0;
    while fp < n && !is_pattern_token(&tokens[fp])
        invariant
            n == tokens@.len(),
            ts == tokens_model(tokens@),
            fp <= n,
            first_pattern(ts, 0) == first_pattern(ts, fp as int),
        decreases n - fp,
    {
        assert(ts[fp as int] == tokens@[fp as int]@);
        fp = fp + 1;
    }
    proof {
        if fp < n {
            assert(ts[fp as int] == tokens@[fp as int]@);
        }
    }
    let mut global = GlobalFlags::default();
    match apply_global_flags(&tokens, fp, &mut global) {
        Ok(()) => {},
        Err(e) => {
            return Err(e);
        },
    }
    let ghost g = global;
    let mut specs: Vec<PatternSpec> = Vec::new();
    let mut i: usize = fp;
    while i < n
        invariant
            n == tokens@.len(),
            ts == tokens_model(tokens@),
            g == global,
            tokenize_from(input@, 0) == Ok::<Seq<TokenModel>, Seq<char>>(ts),
            fp == first_pattern(ts, 0),
            globals_from(ts, 0, fp as int, no_global_flags()) == Ok::<GlobalFlags, Seq<char>>(g),
            fp <= i <= n,
            specs_from(ts, fp as int, *cfg, g) == specs_then(specs_model(specs@), specs_from(ts, i as int, *cfg, g)),
        decreases n - i,
    {
        let ghost i0 = i as int;
        let ghost before = specs_model(specs@);
        assert(ts[i as int] == tokens@[i as int]@);
        match &tokens[i] {
            Token::Pattern(kind) => {
                let is_regex = match kind {
                    PatternKind::Regex { .. } => true,
                    PatternKind::Literal(_) => false,
                };
                let pat_text = match kind {
                    PatternKind::Literal(s) => s,
                    PatternKind::Regex { source, .. } => source,
                };
                assert(pat_text@ == kind_text(kind@));
                let mut flags = PatternFlags::default_with_config(cfg, is_regex, pat_text.as_str());
                if let Some(f) = global.fill {
                    flags.fill = Some(f);
                }
                if let Some(p) = global.pad_left {
                    flags.pad_left = Some(p);
                }
                if let Some(p) = global.pad_right {
                    flags.pad_right = Some(p);
                }
                if let Some(l) = global.left_align {
                    flags.left_align = l;
                }
                if let Some(b) = global.word_bound {
                    flags.word_bound = Some(b);
                }
                let ghost f0 = flags@;
                assert(f0 == with_globals(default_flags_model(*cfg, kind_text(kind@)), g));
                i = i + 1;
                while i < n && !is_pattern_token(&tokens[i])
                    invariant
                        n == tokens@.len(),
                        ts == tokens_model(tokens@),
                        0 <= i0 < i <= n,
                        ts.len() == n,
                        g == global,
                        tokenize_from(input@, 0) == Ok::<Seq<TokenModel>, Seq<char>>(ts),
                        fp == first_pattern(ts, 0),
                        globals_from(ts, 0, fp as int, no_global_flags()) == Ok::<GlobalFlags, Seq<char>>(g),
                        ts[i0] == TokenModel::Pattern(kind@),
                        f0 == with_globals(default_flags_model(*cfg, kind_text(kind@)), g),
                        before == specs_model(specs@),
                        specs_from(ts, fp as int, *cfg, g) == specs_then(before, specs_from(ts, i0, *cfg, g)),
                        flags_from(ts, i0 + 1, f0) == flags_from(ts, i as int, flags@),
                    decreases n - i,
                {
                    assert(ts[i as int] == tokens@[i as int]@);
                    match &tokens[i] {
                        Token::Flag(name) => {
                            let _ = apply_per_pat_flag_bool(name.as_slice(), &mut flags);
                        },
                        Token::FlagVal(name, val) => {
                            let ghost fk = flags@;
                            match apply_per_pat_flag_val(name.as_slice(), val.as_slice(), &mut flags) {
                                Ok(()) => {},
                                Err(e) => {
                                    assert(flags_from(ts, i as int, fk) == Err::<(FlagsModel, int), Seq<char>>(e@));
                                    assert(specs_from(ts, i0, *cfg, g) == Err::<Seq<SpecModel>, Seq<char>>(e@));
                                    return Err(e);
                                },
                            }
                        },
                        Token::Pattern(_) => {},
                    }
                    i = i + 1;
                }
                proof {
                    if i < n {
                        assert(ts[i as int] == tokens@[i as int]@);
                    }
                    assert(flags_from(ts, i as int, flags@) == Ok::<(FlagsModel, int), Seq<char>>((flags@, i as int)));
                }
                let spec = PatternSpec { kind: clone_kind(kind), flags };
                specs.push(spec);
                assert(specs_model(specs@) =~= before.push(spec@));
                assert(specs_from(ts, i0, *cfg, g) == cons_spec(spec@, specs_from(ts, i as int, *cfg, g)));
                assert(specs_then(specs_model(specs@), specs_from(ts, i as int, *cfg, g)) == specs_then(before, specs_from(ts, i0, *cfg, g))) by {
                    match specs_from(ts, i as int, *cfg, g) {
                        Ok(v) => {
                            assert(before.push(spec@) + v =~= before + (seq![spec@] + v));
                        },
                        Err(_) => {},
                    }
                }
            },
            _ => {
                i = i + 1;
            },
        }
    }
    proof {
        assert(specs_model(specs@) =~= specs_model(specs@) + Seq::<SpecModel>::empty());
    }
    Ok((global, specs))
}


// ── from parsed patterns to the command ────────────────────────────────────

/// What an alignment pattern holds, as character sequences.
#[verifier::ext_equal]
pub struct AlignModel {
    pub raw: Seq<char>,
    pub is_regex: bool,
    pub regex_flags: Seq<char>,
    pub fill: char,
    pub pad_left: usize,
    pub pad_right: usize,
    pub left_align: bool,
    pub word_bound: Option<Seq<char>>,
    pub no_word_bound: bool,
    pub repeat: Option<usize>,
    pub context: Option<Seq<char>>,
    pub context_whole: bool,
}

impl View for AlignPattern {
    type V = AlignModel;

    open spec fn view(&self) -> AlignModel {
        AlignModel {
            raw: self.raw@,
            is_regex: self.is_regex,
            regex_flags: self.regex_flags@,
            fill: self.fill,
            pad_left: self.pad_left,
            pad_right: self.pad_right,
            left_align: self.left_align,
            word_bound: opt_string_model(self.word_bound),
            no_word_bound: self.no_word_bound,
            repeat: self.repeat,
            context: opt_string_model(self.context),
            context_whole: self.context_whole,
        }
    }
}

/// The context pattern as the aligner takes it: `/source/flags`; a literal
/// is escaped into a regex that matches exactly it.
pub open spec fn context_text(k: KindModel) -> Seq<char> {
    match k {
        KindModel::Regex(src, fl) => seq!['/'] + src + seq!['/'] + fl,
        KindModel::Literal(t) => seq!['/'] + fancy_escape(t) + seq!['/'],
    }
}

/// The alignment pattern a parsed pattern becomes: unset fill and padding
/// come from the configuration; `-w` (or the configured `word`) names the
/// word bound; otherwise `-B`/`-W` disable it, `-b` forces the configured one
/// of the pattern's kind (literal or regex), and without either a pattern made
/// of word characters gets that configured one; `-n *` repeats without limit.
pub open spec fn align_pattern_model(sp: SpecModel, cfg: Config) -> AlignModel {
    let is_regex = sp.kind is Regex;
    AlignModel {
        raw: kind_text(sp.kind),
        is_regex,
        regex_flags: match sp.kind {
            KindModel::Regex(_, fl) => fl,
            KindModel::Literal(_) => Seq::empty(),
        },
        fill: match sp.flags.fill {
            Some(c) => c,
            None => cfg.fill,
        },
        pad_left: match sp.flags.pad_left {
            Some(n) => n,
            None => cfg.pad,
        },
        pad_right: match sp.flags.pad_right {
            Some(n) => n,
            None => cfg.pad,
        },
        left_align: sp.flags.left_align,
        word_bound: match sp.flags.word_pattern {
            Some(w) => Some(w),
            None => if sp.flags.word_bound == Some(true) || (sp.flags.word_bound is None
                && is_word_pattern(kind_text(sp.kind))) {
                Some(
                    if is_regex {
                        cfg.word_bound_regex@
                    } else {
                        cfg.word_bound_literal@
                    },
                )
            } else {
                None
            },
        },
        no_word_bound: sp.flags.word_bound == Some(false),
        repeat: match sp.flags.repeat {
            Repeat::Count(n) => Some(n),
            Repeat::Infinite => None,
        },
        context: match sp.flags.context {
            Some(k) => Some(context_text(k)),
            None => None,
        },
        context_whole: sp.flags.context_whole,
    }
}

pub open spec fn global_options_model(g: GlobalFlags, cfg: Config) -> GlobalOptions {
    GlobalOptions {
        engine: match g.engine {
            Some(e) => e,
            None => engine_named(cfg.engine@),
        },
        match_every: g.only_all_match,
        delete_no_match: g.delete_no_match,
        delete_missing_match: g.delete_not_all,
    }
}

/// The arguments joined by single spaces.
pub open spec fn join_args(args: Seq<Seq<char>>) -> Seq<char>
    decreases args.len(),
{
    if args.len() == 0 {
        Seq::empty()
    } else if args.len() == 1 {
        args[0]
    } else {
        join_args(args.drop_last()) + seq![' '] + args.last()
    }
}

pub open spec fn args_model(args: Seq<String>) -> Seq<Seq<char>> {
    args.map_values(|s: String| s@)
}

pub open spec fn patterns_model(v: Seq<AlignPattern>) -> Seq<AlignModel> {
    v.map_values(|p: AlignPattern| p@)
}

/// What `parse_args` yields: the command for the joined arguments, or the
/// parse error.
pub open spec fn command_matches(cmd: Command, args: Seq<Seq<char>>, cfg: Config) -> bool {
    match parse_input_model(join_args(args), cfg) {
        Ok((g, specs)) => cmd.global == global_options_model(g, cfg) && patterns_model(cmd.patterns@)
            == specs.map_values(|sp: SpecModel| align_pattern_model(sp, cfg)),
        Err(_) => false,
    }
}

fn join(args: &Vec<String>) -> (r: String)
    ensures
        r@ == join_args(args_model(args@)),
{
    let mut v: Vec<char> = Vec::new();
    let mut k: usize = 0;
    while k < args.len()
        invariant
            k <= args@.len(),
            v@ == join_args(args_model(args@).take(k as int)),
        decreases args@.len() - k,
    {
        let ghost am = args_model(args@);
        let cs = chars_of(args[k].as_str());
        if k > 0 {
            v.push(' ');
        }
        push_all(&mut v, cs.as_slice());
        proof {
            let t = am.take(k + 1);
            assert(t.drop_last() =~= am.take(k as int));
            assert(t.last() == args@[k as int]@);
            if k == 0 {
                assert(am.take(0) =~= Seq::<Seq<char>>::empty());
                assert(v@ =~= cs@);
            }
        }
        k = k + 1;
    }
    assert(args_model(args@).take(args@.len() as int) =~= args_model(args@));
    string_of(v.as_slice())
}

fn context_string(k: &PatternKind) -> (r: String)
    ensures
        r@ == context_text(k@),
{
    let mut v: Vec<char> = Vec::new();
    v.push('/');
    match k {
        PatternKind::Regex { source, flags } => {
            let a = chars_of(source.as_str());
            push_all(&mut v, a.as_slice());
            v.push('/');
            let b = chars_of(flags.as_str());
            push_all(&mut v, b.as_slice());
        },
        PatternKind::Literal(t) => {
            let e = fancy_escape_text(t.as_str());
            let a = chars_of(e.as_str());
            push_all(&mut v, a.as_slice());
            v.push('/');
        },
    }
    assert(v@ =~= context_text(k@));
    string_of(v.as_slice())
}

/// Turns a parsed pattern into the alignment pattern the aligner applies.
fn to_align_pattern(spec: &PatternSpec, cfg: &Config) -> (r: AlignPattern)
    ensures
        r@ == align_pattern_model(spec@, *cfg),
{
    let f = &spec.flags;
    let (raw, is_regex, regex_flags) = match &spec.kind {
        PatternKind::Regex { source, flags } => (clone_string(source), true, clone_string(flags)),
        PatternKind::Literal(t) => (clone_string(t), false, lit("")),
    };
    proof {
        reveal_strlit("");
    }
    let bounded = match f.word_bound {
        Some(b) => b,
        None => {
            let text = chars_of(raw.as_str());
            crate::aligner::all_word_chars(text.as_slice())
        },
    };
    let word_bound = match &f.word_pattern {
        Some(w) => Some(clone_string(w)),
        None => if bounded {
            Some(
                if is_regex {
                    clone_string(&cfg.word_bound_regex)
                } else {
                    clone_string(&cfg.word_bound_literal)
                },
            )
        } else {
            None
        },
    };
    let no_word_bound = match f.word_bound {
        Some(false) => true,
        _ => false,
    };
    let context = match &f.context {
        Some(k) => Some(context_string(k)),
        None => None,
    };
    let r = AlignPattern {
        raw,
        is_regex,
        regex_flags,
        fill: match f.fill {
            Some(c) => c,
            None => cfg.fill,
        },
        pad_left: match f.pad_left {
            Some(n) => n,
            None => cfg.pad,
        },
        pad_right: match f.pad_right {
            Some(n) => n,
            None => cfg.pad,
        },
        left_align: f.left_align,
        word_bound,
        no_word_bound,
        repeat: match f.repeat {
            Repeat::Count(n) => Some(n),
            Repeat::Infinite => None,
        },
        context,
        context_whole: f.context_whole,
    };
    let ghost m = align_pattern_model(spec@, *cfg);
    assert(r@.raw == m.raw);
    assert(r@.is_regex == m.is_regex);
    assert(r@.regex_flags == m.regex_flags);
    assert(r@.fill == m.fill);
    assert(r@.pad_left == m.pad_left);
    assert(r@.word_bound == m.word_bound);
    assert(r@.no_word_bound == m.no_word_bound);
    assert(r@.repeat == m.repeat);
    assert(r@.context == m.context);
    r
}

/// Parses the command-line arguments (joined by spaces, as one string) into
/// a command, with defaults from the configuration.
pub fn parse_args(args: &Vec<String>, cfg: &Config) -> (r: Result<Command, String>)
    ensures
        match r {
            Ok(cmd) => command_matches(cmd, args_model(args@), *cfg),
            Err(e) => parse_input_model(join_args(args_model(args@)), *cfg) == Err::<
                (GlobalFlags, Seq<SpecModel>),
                Seq<char>,
            >(e@),
        },
{
    let input = join(args);
    let (global, specs) = match parse_input(input.as_str(), cfg) {
        Ok(v) => v,
        Err(e) => {
            return Err(e);
        },
    };
    let engine = match global.engine {
        Some(e) => e,
        None => RegexEngine::from_str(cfg.engine.as_str()),
    };
    let ghost sm = specs_model(specs@);
    let mut patterns: Vec<AlignPattern> = Vec::new();
    let mut k: usize = 0;
    while k < specs.len()
        invariant
            sm == specs_model(specs@),
            k <= specs@.len(),
            patterns_model(patterns@) == sm.take(k as int).map_values(|sp: SpecModel| align_pattern_model(sp, *cfg)),
        decreases specs@.len() - k,
    {
        let p = to_align_pattern(&specs[k], cfg);
        let ghost before = patterns_model(patterns@);
        assert(sm[k as int] == specs@[k as int]@);
        patterns.push(p);
        assert(patterns_model(patterns@) =~= before.push(p@));
        assert(sm.take(k + 1) =~= sm.take(k as int).push(sm[k as int]));
        assert(patterns_model(patterns@) =~= sm.take(k + 1).map_values(|sp: SpecModel| align_pattern_model(sp, *cfg)));
        k = k + 1;
    }
    assert(sm.take(specs@.len() as int) =~= sm);
    Ok(Command {
        global: GlobalOptions {
            engine,
            match_every: global.only_all_match,
            delete_no_match: global.delete_no_match,
            delete_missing_match: global.delete_not_all,
        },
        patterns,
    })
}


// ── laws ───────────────────────────────────────────────────────────────────

/// Text without backslashes is its own unescaping.
pub proof fn lemma_unescape_plain(s: Seq<char>)
    requires
        forall|k: int| 0 <= k < s.len() ==> s[k] != '\\',
    ensures
        unescape_model(s) == s,
    decreases s.len(),
{
    if s.len() > 0 {
        assert(s[0] != '\\');
        lemma_unescape_plain(s.skip(1));
        assert(seq![s[0]] + s.skip(1) =~= s);
    }
}

/// A `-` that does not start a flag is a literal: alone (before whitespace or
/// at the end) it is the literal `-`; followed by anything but a letter or
/// whitespace (`--`, `->`, `-1`, ...) it starts a literal that runs to the
/// end of the word.
pub proof fn law_dash_literal(cs: Seq<char>, i: int)
    requires
        0 <= i < cs.len(),
        cs[i] == '-',
    ensures
        (i + 1 >= cs.len() || is_ws(cs[i + 1])) ==> tokenize_from(cs, i) == cons(
            TokenModel::Pattern(KindModel::Literal(seq!['-'])),
            tokenize_from(cs, i + 1),
        ),
        (i + 1 < cs.len() && !is_ws(cs[i + 1]) && !is_ascii_alpha(cs[i + 1])) ==> tokenize_from(
            cs,
            i,
        ) == cons(
            TokenModel::Pattern(KindModel::Literal(cs.subrange(i, word_end(cs, i + 1)))),
            tokenize_from(cs, word_end(cs, i + 1)),
        ),
{
    if i + 1 < cs.len() && !is_ws(cs[i + 1]) && !is_ascii_alpha(cs[i + 1]) {
        assert(alpha_end(cs, i + 1) == i + 1);
        assert(cs.subrange(i + 1, i + 1) =~= Seq::<char>::empty());
        assert(!is_value_flag(cs.subrange(i + 1, i + 1)));
    }
}

/// A quoted string is one literal, spaces included; without backslashes its
/// text is kept exactly.
pub proof fn law_quoted_literal(cs: Seq<char>, i: int)
    requires
        0 <= i < cs.len(),
        is_quote(cs[i]),
    ensures
        quote_close(cs, i + 1, cs[i]) matches Some(k) ==> tokenize_from(cs, i) == cons(
            TokenModel::Pattern(KindModel::Literal(unescape_model(cs.subrange(i + 1, k)))),
            tokenize_from(cs, k + 1),
        ),
        quote_close(cs, i + 1, cs[i]) matches Some(k) ==> ((forall|m: int|
            i < m < k ==> cs[m] != '\\') ==> unescape_model(cs.subrange(i + 1, k)) == cs.subrange(
            i + 1,
            k,
        )),
        quote_close(cs, i + 1, cs[i]) is None ==> tokenize_from(cs, i) == Err::<
            Seq<TokenModel>,
            Seq<char>,
        >(msg_unterminated_quote(cs[i])),
{
    assert(!is_ws(cs[i]));
    if let Some(k) = quote_close(cs, i + 1, cs[i]) {
        lemma_quote_close(cs, i + 1, cs[i]);
        let body = cs.subrange(i + 1, k);
        if forall|m: int| i < m < k ==> cs[m] != '\\' {
            assert forall|m: int| 0 <= m < body.len() implies body[m] != '\\' by {
                assert(body[m] == cs[i + 1 + m]);
            }
            lemma_unescape_plain(body);
        }
    }
}

/// `/source/flags` is one regex pattern: the source runs to the first
/// unescaped `/`, the flags are the letters right after it.
pub proof fn law_regex_token(cs: Seq<char>, i: int)
    requires
        0 <= i < cs.len(),
        cs[i] == '/',
    ensures
        regex_close(cs, i + 1, false) matches Some(j) ==> tokenize_from(cs, i) == cons(
            TokenModel::Pattern(
                KindModel::Regex(cs.subrange(i + 1, j), cs.subrange(j + 1, alpha_end(cs, j + 1))),
            ),
            tokenize_from(cs, alpha_end(cs, j + 1)),
        ),
        regex_close(cs, i + 1, false) is None ==> tokenize_from(cs, i) == Err::<
            Seq<TokenModel>,
            Seq<char>,
        >(msg_unterminated_regex()),
{
    assert(!is_ws(cs[i]));
}

/// A pattern without flags of its own gets its configured defaults,
/// overridden by the global flags given before the first pattern.
pub proof fn law_pattern_starts_from_defaults(ts: Seq<TokenModel>, i: int, cfg: Config, g: GlobalFlags)
    requires
        0 <= i < ts.len(),
        ts[i] is Pattern,
        i + 1 == ts.len() || ts[i + 1] is Pattern,
    ensures
        specs_from(ts, i, cfg, g) == cons_spec(
            SpecModel {
                kind: ts[i]->Pattern_0,
                flags: with_globals(default_flags_model(cfg, kind_text(ts[i]->Pattern_0)), g),
            },
            specs_from(ts, i + 1, cfg, g),
        ),
{
}

/// Flags given after a pattern apply to it, in order, after the defaults and
/// global overrides; they stop at the next pattern.
pub proof fn law_flags_follow_pattern(ts: Seq<TokenModel>, i: int, cfg: Config, g: GlobalFlags)
    requires
        0 <= i < ts.len(),
        ts[i] is Pattern,
    ensures
        ({
            let kind = ts[i]->Pattern_0;
            let f0 = with_globals(default_flags_model(cfg, kind_text(kind)), g);
            match flags_from(ts, i + 1, f0) {
                Ok((f, j)) => specs_from(ts, i, cfg, g) == cons_spec(
                    SpecModel { kind, flags: f },
                    specs_from(ts, j, cfg, g),
                ) && (j < ts.len() ==> ts[j] is Pattern),
                Err(e) => specs_from(ts, i, cfg, g) == Err::<Seq<SpecModel>, Seq<char>>(e),
            }
        }),
{
    let kind = ts[i]->Pattern_0;
    let f0 = with_globals(default_flags_model(cfg, kind_text(kind)), g);
    lemma_flags_from(ts, i + 1, f0);
}

/// Unescaping never makes a text longer.
pub proof fn law_unescape_not_longer(s: Seq<char>)
    ensures
        unescape_model(s).len() <= s.len(),
    decreases s.len(),
{
    if s.len() > 0 {
        if s[0] == '\\' {
            if s.len() > 1 {
                law_unescape_not_longer(s.skip(2));
            }
        } else {
            law_unescape_not_longer(s.skip(1));
        }
    }
}

proof fn lemma_last_slash_before(x: Seq<char>, tail: Seq<char>)
    requires
        forall|k: int| 0 <= k < tail.len() ==> tail[k] != '/',
    ensures
        crate::aligner::last_index_of(x + tail, '/') == crate::aligner::last_index_of(x, '/'),
    decreases tail.len(),
{
    if tail.len() > 0 {
        assert((x + tail).drop_last() =~= x + tail.drop_last());
        lemma_last_slash_before(x, tail.drop_last());
    } else {
        assert(x + tail =~= x);
    }
}

/// A `-c` regex value as the tokenizer packs it, `/source/flags` with letters
/// for flags, parses back into that source and those flags.
pub proof fn law_packed_regex_parses_back(src: Seq<char>, flags: Seq<char>)
    requires
        forall|k: int| 0 <= k < flags.len() ==> is_ascii_alpha(#[trigger] flags[k]),
    ensures
        pattern_kind_model(seq!['/'] + src + seq!['/'] + flags) == Some(KindModel::Regex(src, flags)),
{
    let s = seq!['/'] + src + seq!['/'] + flags;
    assert(!is_ws('/'));
    assert(s[0] == '/');
    assert(ws_end(s, 0) == 0);
    if flags.len() > 0 {
        assert(s[s.len() - 1] == flags[flags.len() - 1]);
        assert(is_ascii_alpha(flags[flags.len() - 1]));
    } else {
        assert(s[s.len() - 1] == '/');
    }
    assert(trim_end_at(s, s.len() as int) == s.len());
    assert(trim_model(s) =~= s);
    let rest = s.skip(1);
    let head = src + seq!['/'];
    assert(rest =~= head + flags);
    assert forall|k: int| 0 <= k < flags.len() implies flags[k] != '/' by {
        assert(is_ascii_alpha(flags[k]));
    }
    lemma_last_slash_before(head, flags);
    assert(head.drop_last() =~= src);
    assert(crate::aligner::last_index_of(head, '/') == Some(src.len() as int));
    assert(rest.take(src.len() as int) =~= src);
    assert(rest.skip(src.len() as int + 1) =~= flags);
}

/// A tokenizing error is the parse's error: it comes before anything the
/// flags could report.
pub proof fn law_tokenize_error_first(input: Seq<char>, cfg: Config)
    ensures
        tokenize_from(input, 0) matches Err(e) ==> parse_input_model(input, cfg) == Err::<
            (GlobalFlags, Seq<SpecModel>),
            Seq<char>,
        >(e),
{
}

/// A per-pattern flag with a value fails exactly when a padding flag (`-p`,
/// `-pl`, `-pr`) or `-n` (other than `*`) is given something that is not a
/// number.
pub proof fn law_flag_val_fails_only_on_numbers(f: FlagsModel, name: Seq<char>, val: Seq<char>)
    ensures
        flag_val(f, name, val) is Err <==> ((is1(name, 'p') || is2(name, 'p', 'l') || is2(
            name,
            'p',
            'r',
        )) && parse_usize_model(val) is None) || (is1(name, 'n') && !is1(val, '*')
            && parse_usize_model(val) is None),
{
}

/// A global flag with a value fails exactly when a padding flag (`-p`, `-pl`,
/// `-pr`) is given something that is not a number.
pub proof fn law_global_flag_val_fails_only_on_numbers(g: GlobalFlags, name: Seq<char>, val: Seq<char>)
    ensures
        global_flag_val(g, name, val) is Err <==> (is1(name, 'p') || is2(name, 'p', 'l') || is2(
            name,
            'p',
            'r',
        )) && parse_usize_model(val) is None,
{
}

/// Padding flags after a pattern: `-p n` sets both sides to `n`, `-pl n`
/// only the left side and `-pr n` only the right side; nothing else changes.
pub proof fn law_pattern_padding_flags(f: FlagsModel, val: Seq<char>, n: usize)
    requires
        parse_usize_model(val) == Some(n),
    ensures
        flag_val(f, seq!['p'], val) == Ok::<FlagsModel, Seq<char>>(
            FlagsModel { pad_left: Some(n), pad_right: Some(n), ..f },
        ),
        flag_val(f, seq!['p', 'l'], val) == Ok::<FlagsModel, Seq<char>>(
            FlagsModel { pad_left: Some(n), ..f },
        ),
        flag_val(f, seq!['p', 'r'], val) == Ok::<FlagsModel, Seq<char>>(
            FlagsModel { pad_right: Some(n), ..f },
        ),
{
}

/// Padding flags before any pattern: `-p n` sets both global sides to `n`,
/// `-pl n` only the left side and `-pr n` only the right side; nothing else
/// changes.
pub proof fn law_global_padding_flags(g: GlobalFlags, val: Seq<char>, n: usize)
    requires
        parse_usize_model(val) == Some(n),
    ensures
        global_flag_val(g, seq!['p'], val) == Ok::<GlobalFlags, Seq<char>>(
            GlobalFlags { pad_left: Some(n), pad_right: Some(n), ..g },
        ),
        global_flag_val(g, seq!['p', 'l'], val) == Ok::<GlobalFlags, Seq<char>>(
            GlobalFlags { pad_left: Some(n), ..g },
        ),
        global_flag_val(g, seq!['p', 'r'], val) == Ok::<GlobalFlags, Seq<char>>(
            GlobalFlags { pad_right: Some(n), ..g },
        ),
{
}

} // verus!
