use align::aligner::{candidate_column, fill_needed, Aligner};
use align::config::{Config, PadConfig, PatternDefaults, PatternTable};
use align::engine::{compile_literal, CompiledRegex, RegexEngine};
use align::parser::{
    parse_args, parse_input, parse_pattern_kind, PatternFlags, PatternKind, Repeat,
};

fn strings(v: &[&str]) -> Vec<String> {
    v.iter().map(|s| s.to_string()).collect()
}

fn align_with(cfg: &Config, args: &[&str], input: &[&str]) -> Vec<String> {
    let cmd = parse_args(&strings(args), cfg).expect("arguments should parse");
    let aligner = Aligner::new(cmd);
    let mut lines = strings(input);
    aligner.process(&mut lines)
}

fn align(args: &[&str], input: &[&str]) -> Vec<String> {
    align_with(&Config::default(), args, input)
}

fn chars(s: &str) -> Vec<char> {
    s.chars().collect()
}

// ── exact outputs ──────────────────────────────────────────────────────────

#[test]
fn exact_literal_equals() {
    let out = align(&["="], &["foo = 1", "foobar = 2", "x = 3"]);
    assert_eq!(out, strings(&["foo    = 1", "foobar = 2", "x      = 3"]));
}

#[test]
fn exact_regex_arrow() {
    let out = align(&["/=>/"], &["key => value", "longer_key => other"]);
    assert_eq!(out, strings(&["key        => value", "longer_key => other"]));
}

#[test]
fn exact_context_right_aligned_decimals() {
    let out = align(&[".", "-p", "0", "-c", "/\\d+$/"], &["3.14", "72.0", "1.618"]);
    assert_eq!(out, strings(&[" 3.14", "72.0", " 1.618"]));
}

#[test]
fn exact_delete_unmatched() {
    let out = align(&["-d", "="], &["match = yes", "no match here", "also = yes"]);
    assert_eq!(out, strings(&["match = yes", "also  = yes"]));
}

#[test]
fn exact_match_every_skips_partial_line() {
    let out = align(&["-g", "=", ":"], &["a = 1: x", "b = 2", "c = 3: z"]);
    assert_eq!(out, strings(&["a = 1 : x", "b = 2", "c = 3 : z"]));
}

#[test]
fn exact_two_patterns() {
    let out = align(&["=", ":"], &["a = 1: foo", "longer = 22: bar"]);
    assert_eq!(out, strings(&["a      = 1  : foo", "longer = 22 : bar"]));
}

#[test]
fn exact_padding_two() {
    let out = align(&["=", "-p", "2"], &["a = 1", "bb = 2"]);
    assert_eq!(out, strings(&["a   =  1", "bb  =  2"]));
}

#[test]
fn exact_word_bound_literal() {
    let out = align(&["foo"], &["foo = 1", "foobar = 2"]);
    assert_eq!(out, strings(&[" foo = 1", "foobar = 2"]));
}

#[test]
fn exact_wide_characters_count_double() {
    let out = align(&["="], &["日本 = 1", "abc = 2"]);
    assert_eq!(out, strings(&["日本 = 1", "abc  = 2"]));
}

#[test]
fn exact_right_align_match_end() {
    let out = align(&["/=+/", "-r"], &["a = 1", "a == 2"]);
    assert_eq!(out, strings(&["a  = 1", "a == 2"]));
}

#[test]
fn exact_repeat_all() {
    let out = align(&[",", "-n", "*"], &["a,b,c", "longer,x,y"]);
    assert_eq!(out, strings(&["a      , b , c", "longer , x , y"]));
}

#[test]
fn exact_context_whole_slice() {
    let out = align(&["=", "-C"], &["a = 1", "longer = 2"]);
    assert_eq!(out, strings(&["     a = 1", "longer = 2"]));
}

#[test]
fn exact_regress_engine_lookbehind() {
    let out = align(&["-E", "regress", "/(?<=:)\\s*\\w+/"], &["a: b", "long: c"]);
    assert_eq!(out, strings(&["a:     b ", "long:  c "]));
}

#[test]
fn exact_custom_fill() {
    let out = align(&["=", "-f", "."], &["a = 1", "foobar = 2"]);
    assert_eq!(out, strings(&["a ......=. 1", "foobar .=. 2"]));
}

// ── laws on concrete values ────────────────────────────────────────────────

#[test]
fn law_example_unmatched_lines_pass_through() {
    let input = ["nothing here", "nor here"];
    assert_eq!(align(&["="], &input), strings(&input));
}

#[test]
fn law_example_no_deletion_keeps_count() {
    let input = ["a = 1", "none", "bb = 2", ""];
    assert_eq!(align(&["="], &input).len(), input.len());
}

#[test]
fn law_example_output_never_longer() {
    let input = ["a = 1", "none", "bb = 2"];
    assert!(align(&["-D", "=", ":"], &input).len() <= input.len());
}

#[test]
fn law_example_input_lines_untouched() {
    let cmd = parse_args(&strings(&["="]), &Config::default()).unwrap();
    let aligner = Aligner::new(cmd);
    let mut lines = strings(&["a = 1", "bb = 2"]);
    let _ = aligner.process(&mut lines);
    assert_eq!(lines, strings(&["a = 1", "bb = 2"]));
}

#[test]
fn law_example_all_slots_share_a_column() {
    let out = align(&[":"], &["x: 1", "long_name: 2", "mid: 3"]);
    let cols: Vec<usize> = out.iter().map(|l| l.find(':').unwrap()).collect();
    assert!(cols.iter().all(|c| *c == cols[0]));
}

#[test]
fn law_example_repeat_limit_one() {
    let out = align(&[","], &["a,b,c", "longer,x,y"]);
    assert_eq!(out, strings(&["a      , b,c", "longer , x,y"]));
}

#[test]
fn law_example_context_only_inserts_fill() {
    let out = align(&[".", "-p", "0", "-c", "/\\d+$/"], &["3.14", "72.0"]);
    assert_eq!(out[0].trim_start(), "3.14");
    assert_eq!(out[1], "72.0");
}

#[test]
fn law_example_match_every_partial_line_unchanged() {
    let out = align(&["-g", "=", ":"], &["b = 2", "a = 1: x"]);
    assert_eq!(out[0], "b = 2");
}

#[test]
fn law_example_delete_missing() {
    let out = align(&["-D", "=", ":"], &["a = 1: x", "b = 2", "c: 3"]);
    assert_eq!(out.len(), 1);
}

// ── errors ─────────────────────────────────────────────────────────────────

fn parse_err(args: &[&str]) -> String {
    match parse_args(&strings(args), &Config::default()) {
        Ok(_) => panic!("expected an error"),
        Err(e) => e,
    }
}

#[test]
fn error_unterminated_regex() {
    assert_eq!(parse_err(&["/abc"]), "Unterminated regex (missing closing '/')");
}

#[test]
fn error_unterminated_quote() {
    assert_eq!(parse_err(&["'abc"]), "Unterminated quoted literal (missing closing ')");
}

#[test]
fn error_flag_without_value() {
    assert_eq!(parse_err(&["=", "-p"]), "Flag -p requires a value");
}

#[test]
fn error_pad_not_integer() {
    assert_eq!(parse_err(&["-p", "x", "="]), "-p requires integer, got x");
}

#[test]
fn error_pad_left_not_integer() {
    assert_eq!(parse_err(&["=", "-pl", "y"]), "-pl requires integer, got y");
}

#[test]
fn error_repeat_not_integer() {
    assert_eq!(parse_err(&["=", "-n", "x"]), "-n requires integer or *, got x");
}

#[test]
fn error_unterminated_context_regex() {
    assert_eq!(parse_err(&["=", "-c", "/abc"]), "Unterminated regex in -c value");
}

#[test]
fn error_unterminated_context_string() {
    assert_eq!(parse_err(&["=", "-c", "'abc"]), "Unterminated value string");
}

#[test]
fn invalid_regex_leaves_lines_unchanged() {
    let input = ["a ( b", "cc ( d"];
    assert_eq!(align(&["/(/"], &input), strings(&input));
}

// ── the parser ─────────────────────────────────────────────────────────────

#[test]
fn parse_input_literal_with_padding() {
    let (g, specs) = parse_input("= -p 2", &Config::default()).unwrap();
    assert!(!g.only_all_match && !g.delete_no_match && !g.delete_not_all);
    assert_eq!(specs.len(), 1);
    assert_eq!(specs[0].kind, PatternKind::Literal("=".to_string()));
    assert_eq!(specs[0].flags.pad_left, Some(2));
    assert_eq!(specs[0].flags.pad_right, Some(2));
    assert!(matches!(specs[0].flags.repeat, Repeat::Count(1)));
}

#[test]
fn parse_input_global_flags_and_regex() {
    let (g, specs) = parse_input("-g -d /a+/i -n *", &Config::default()).unwrap();
    assert!(g.only_all_match);
    assert!(g.delete_no_match);
    assert_eq!(specs.len(), 1);
    assert_eq!(
        specs[0].kind,
        PatternKind::Regex { source: "a+".to_string(), flags: "i".to_string() }
    );
    assert!(matches!(specs[0].flags.repeat, Repeat::Infinite));
}

#[test]
fn parse_input_global_fill_applies_to_patterns() {
    let (_, specs) = parse_input("-f . = :", &Config::default()).unwrap();
    assert_eq!(specs.len(), 2);
    assert_eq!(specs[0].flags.fill, Some('.'));
    assert_eq!(specs[1].flags.fill, Some('.'));
}

#[test]
fn parse_input_quoted_and_dashed_literals() {
    let (_, specs) = parse_input("'a b' -- -", &Config::default()).unwrap();
    assert_eq!(specs.len(), 3);
    assert_eq!(specs[0].kind, PatternKind::Literal("a b".to_string()));
    assert_eq!(specs[1].kind, PatternKind::Literal("--".to_string()));
    assert_eq!(specs[2].kind, PatternKind::Literal("-".to_string()));
}

#[test]
fn parse_input_context_flag() {
    let (_, specs) = parse_input("= -c /x+/i -C", &Config::default()).unwrap();
    assert_eq!(
        specs[0].flags.context,
        Some(PatternKind::Regex { source: "x+".to_string(), flags: "i".to_string() })
    );
    assert!(specs[0].flags.context_whole);
}

#[test]
fn parse_pattern_kind_cases() {
    assert_eq!(
        parse_pattern_kind(" /a+/im "),
        Some(PatternKind::Regex { source: "a+".to_string(), flags: "im".to_string() })
    );
    assert_eq!(parse_pattern_kind("foo"), Some(PatternKind::Literal("foo".to_string())));
    assert_eq!(parse_pattern_kind("/abc"), Some(PatternKind::Literal("/abc".to_string())));
    assert_eq!(parse_pattern_kind("   "), None);
}

#[test]
fn parse_args_joins_arguments() {
    let cmd = parse_args(&strings(&["-d", "=", "-p", "3"]), &Config::default()).unwrap();
    assert!(cmd.global.delete_no_match);
    assert_eq!(cmd.patterns.len(), 1);
    assert_eq!(cmd.patterns[0].raw, "=");
    assert!(!cmd.patterns[0].is_regex);
    assert_eq!(cmd.patterns[0].pad_left, 3);
    assert_eq!(cmd.patterns[0].pad_right, 3);
    assert_eq!(cmd.patterns[0].fill, ' ');
}

#[test]
fn parse_args_literal_context_is_escaped() {
    let cmd = parse_args(&strings(&["=", "-c", "a.b"]), &Config::default()).unwrap();
    assert_eq!(cmd.patterns[0].context, Some("/a\\.b/".to_string()));
}

#[test]
fn parse_args_engine_from_config() {
    let mut cfg = Config::default();
    cfg.engine = "ReGrEsS".to_string();
    let cmd = parse_args(&strings(&["="]), &cfg).unwrap();
    assert_eq!(cmd.global.engine, RegexEngine::Regress);
}

// ── configuration ──────────────────────────────────────────────────────────

#[test]
fn pad_config_sides() {
    assert_eq!(PadConfig::Uniform(3).left(), 3);
    assert_eq!(PadConfig::Uniform(3).right(), 3);
    let p = PadConfig::Sides { left: 1, right: 4 };
    assert_eq!(p.left(), 1);
    assert_eq!(p.right(), 4);
}

fn config_with_entry() -> Config {
    let mut cfg = Config::default();
    cfg.patterns.insert(
        "=".to_string(),
        PatternDefaults {
            fill: Some('.'),
            pad: Some(PadConfig::Sides { left: 0, right: 2 }),
            align: Some("right".to_string()),
            word: None,
            context: Some("/x/".to_string()),
        },
    );
    cfg
}

#[test]
fn config_lookup() {
    let cfg = config_with_entry();
    assert!(cfg.pattern_defaults("=").is_some());
    assert_eq!(cfg.pattern_defaults("=").unwrap().fill, Some('.'));
    assert!(cfg.pattern_defaults(":").is_none());
}

#[test]
fn default_flags_from_pattern_entry() {
    let cfg = config_with_entry();
    let f = PatternFlags::default_with_config(&cfg, false, "=");
    assert_eq!(f.fill, Some('.'));
    assert_eq!(f.pad_left, Some(0));
    assert_eq!(f.pad_right, Some(2));
    assert!(!f.left_align);
    assert_eq!(
        f.context,
        Some(PatternKind::Regex { source: "x".to_string(), flags: "".to_string() })
    );
    let g = PatternFlags::default_with_config(&cfg, false, ":");
    assert_eq!(g.fill, Some(' '));
    assert_eq!(g.pad_left, Some(1));
    assert!(g.left_align);
    assert_eq!(g.context, None);
}

#[test]
fn config_entry_changes_alignment() {
    let mut cfg = Config::default();
    cfg.patterns.insert(
        "=".to_string(),
        PatternDefaults {
            fill: Some('.'),
            pad: Some(PadConfig::Sides { left: 0, right: 2 }),
            align: None,
            word: None,
            context: None,
        },
    );
    let out = align_with(&cfg, &["="], &["a = 1", "bbb = 2"]);
    assert_eq!(out, strings(&["a ..=.. 1", "bbb =.. 2"]));
}

#[test]
fn config_defaults() {
    let cfg = Config::default();
    assert_eq!(cfg.fill, ' ');
    assert_eq!(cfg.pad, 1);
    assert_eq!(cfg.engine, "fancy_regex");
    assert_eq!(cfg.word_bound_literal, "/[^A-Za-z0-9_]/");
    assert_eq!(cfg.word_bound_regex, "/[^A-Za-z0-9_]/");
    assert!(cfg.patterns.entries().is_empty());
}

// ── the engines ────────────────────────────────────────────────────────────

#[test]
fn engine_from_str_any_case() {
    assert_eq!(RegexEngine::from_str("ReGrEsS"), RegexEngine::Regress);
    assert_eq!(RegexEngine::from_str("regress"), RegexEngine::Regress);
    assert_eq!(RegexEngine::from_str("fancy_regex"), RegexEngine::FancyRegex);
    assert_eq!(RegexEngine::from_str("other"), RegexEngine::FancyRegex);
}

#[test]
fn compile_and_find_all_in_chars() {
    let re = CompiledRegex::compile("b+", "", &RegexEngine::FancyRegex).unwrap();
    let text = chars("ébbaéb");
    let found = re.find_all(&text);
    let ranges: Vec<(usize, usize)> = found.iter().map(|m| (m.start, m.end)).collect();
    assert_eq!(ranges, vec![(1, 3), (5, 6)]);
}

#[test]
fn compile_with_flags_regress() {
    let re = CompiledRegex::compile("B", "i", &RegexEngine::Regress).unwrap();
    let m = re.find_one(&chars("aab")).unwrap();
    assert_eq!((m.start, m.end), (2, 3));
    let re2 = CompiledRegex::compile("B", "i", &RegexEngine::FancyRegex).unwrap();
    let m2 = re2.find_at(&chars("bab"), 1).unwrap();
    assert_eq!((m2.start, m2.end), (2, 3));
}

#[test]
fn compile_error_is_reported() {
    assert!(CompiledRegex::compile("(", "", &RegexEngine::FancyRegex).is_err());
    assert!(CompiledRegex::compile("(", "", &RegexEngine::Regress).is_err());
}

#[test]
fn literal_is_escaped() {
    let re = compile_literal("a.c", &RegexEngine::FancyRegex).unwrap();
    assert!(re.find_one(&chars("abc")).is_none());
    let m = re.find_one(&chars("xa.c")).unwrap();
    assert_eq!((m.start, m.end), (1, 4));
}

#[test]
fn describe_names_engine() {
    let f = CompiledRegex::compile("a", "", &RegexEngine::FancyRegex).unwrap();
    let r = CompiledRegex::compile("a", "", &RegexEngine::Regress).unwrap();
    assert_eq!(f.describe(), "CompiledRegex::Fancy(...)");
    assert_eq!(r.describe(), "CompiledRegex::Regress(...)");
}

// ── the column arithmetic ──────────────────────────────────────────────────

#[test]
fn candidate_column_values() {
    // "foobar " before the match: width 7, one trailing fill, pad 1
    assert_eq!(candidate_column(7, 1, 1, 0), 7);
    // right-aligning a match two columns wide
    assert_eq!(candidate_column(2, 1, 1, 2), 4);
    // trailing fill wider than the prefix saturates at zero
    assert_eq!(candidate_column(1, 3, 0, 0), 0);
    assert_eq!(candidate_column(usize::MAX, 0, 1, 0), usize::MAX);
}

#[test]
fn fill_needed_values() {
    // "a " before "=", target column 7: six fill characters
    assert_eq!(fill_needed(2, 1, 0, 7, 1), 6);
    // already far enough right: only the padding
    assert_eq!(fill_needed(9, 0, 0, 7, 1), 1);
    // distance smaller than the padding: the padding wins
    assert_eq!(fill_needed(6, 0, 0, 7, 2), 2);
    // right-aligning: the match width counts toward the column
    assert_eq!(fill_needed(1, 0, 2, 5, 1), 2);
}

// ── word bounds, escaping, configuration entries ───────────────────────────

#[test]
fn forced_word_bound_accepts_brackets() {
    let out = align(&["x", "-b"], &["[x] = 1", "long [x] = 2"]);
    assert_eq!(out, strings(&["[      x ] = 1", "long [ x ] = 2"]));
}

#[test]
fn literal_context_escaping() {
    let cmd = parse_args(&strings(&["=", "-c", "x+y"]), &Config::default()).unwrap();
    assert_eq!(cmd.patterns[0].context, Some("/x\\+y/".to_string()));
    let cmd = parse_args(&strings(&["=", "-c", "ab"]), &Config::default()).unwrap();
    assert_eq!(cmd.patterns[0].context, Some("/ab/".to_string()));
}

#[test]
fn packed_regex_parses_back() {
    assert_eq!(
        parse_pattern_kind("/a/b/im"),
        Some(PatternKind::Regex { source: "a/b".to_string(), flags: "im".to_string() })
    );
    assert_eq!(
        parse_pattern_kind("//"),
        Some(PatternKind::Regex { source: "".to_string(), flags: "".to_string() })
    );
}

#[test]
fn quoted_value_unescapes() {
    let (_, specs) = parse_input("= -c 'a\\'b'", &Config::default()).unwrap();
    assert_eq!(specs[0].flags.context, Some(PatternKind::Literal("a'b".to_string())));
}

fn defaults_with_fill(c: char) -> PatternDefaults {
    PatternDefaults { fill: Some(c), pad: None, align: None, word: None, context: None }
}

#[test]
fn pattern_table_adds_and_replaces() {
    let mut cfg = Config::default();
    cfg.patterns.insert("=".to_string(), defaults_with_fill('.'));
    cfg.patterns.insert(":".to_string(), defaults_with_fill('-'));
    cfg.patterns.insert("=".to_string(), defaults_with_fill('_'));
    assert_eq!(cfg.patterns.entries().len(), 2);
    assert_eq!(cfg.patterns.entries()[0].0, "=");
    assert_eq!(cfg.patterns.get("=").unwrap().fill, Some('_'));
    let copy: PatternTable = cfg.patterns.clone();
    assert_eq!(copy.get(":").unwrap().fill, Some('-'));
    assert!(PatternTable::new().get("=").is_none());
    assert_eq!(cfg.pattern_defaults("=").unwrap().fill, Some('_'));
    assert_eq!(cfg.pattern_defaults(":").unwrap().fill, Some('-'));
    assert!(cfg.pattern_defaults(",").is_none());
}

#[test]
fn law_example_only_fill_changes() {
    let input = ["a = 1: x", "longer = 22: yy", "none"];
    let out = align(&["=", ":", "-n", "*"], &input);
    for (o, i) in out.iter().zip(input.iter()) {
        let a: String = o.chars().filter(|c| *c != ' ').collect();
        let b: String = i.chars().filter(|c| *c != ' ').collect();
        assert_eq!(a, b);
    }
}

#[test]
fn configured_word_bound_applies_to_word_patterns() {
    let mut cfg = Config::default();
    cfg.word_bound_literal = "/[ ]/".to_string();
    let out = align_with(&cfg, &["foo"], &["foo = 1", "(foo) = 2"]);
    assert_eq!(out, strings(&[" foo = 1", "(foo) = 2"]));
    // the default bound accepts the parentheses
    let out = align(&["foo"], &["foo = 1", "(foo) = 2"]);
    assert_eq!(out, strings(&["  foo = 1", "( foo ) = 2"]));
}

#[test]
fn parse_input_flag_errors() {
    let cfg = Config::default();
    assert_eq!(
        parse_input("= -p x", &cfg).unwrap_err(),
        "-p requires integer, got x"
    );
    assert_eq!(
        parse_input("-pl y =", &cfg).unwrap_err(),
        "-pl requires integer, got y"
    );
    assert_eq!(
        parse_input("/ab = -p x", &cfg).unwrap_err(),
        "Unterminated regex (missing closing '/')"
    );
}

#[test]
fn compile_error_is_the_engines_message() {
    let fancy = CompiledRegex::compile("(", "", &RegexEngine::FancyRegex).err().unwrap();
    assert_eq!(fancy, fancy_regex::Regex::new("(").err().unwrap().to_string());
    let regress = CompiledRegex::compile("(", "i", &RegexEngine::Regress).err().unwrap();
    assert_eq!(regress, regress::Regex::with_flags("(", "i").err().unwrap().to_string());
}
