//! The configuration: default filler, padding, word boundaries, engine, and
//! per-pattern defaults. Reading and writing the configuration file is done
//! by the application around the library.
use crate::text::str_eq;
use vstd::prelude::*;

verus! {

/// Padding can be either a uniform amount or left/right independently.
#[derive(Debug, Clone, Copy)]
pub enum PadConfig {
    Uniform(usize),
    Sides { left: usize, right: usize },
}

pub open spec fn pad_left_of(p: PadConfig) -> usize {
    match p {
        PadConfig::Uniform(n) => n,
        PadConfig::Sides { left, .. } => left,
    }
}

pub open spec fn pad_right_of(p: PadConfig) -> usize {
    match p {
        PadConfig::Uniform(n) => n,
        PadConfig::Sides { right, .. } => right,
    }
}

impl PadConfig {
    pub fn left(&self) -> (r: usize)
        ensures
            r == pad_left_of(*self),
    {
        match self {
            PadConfig::Uniform(n) => *n,
            PadConfig::Sides { left, .. } => *left,
        }
    }

    pub fn right(&self) -> (r: usize)
        ensures
            r == pad_right_of(*self),
    {
        match self {
            PadConfig::Uniform(n) => *n,
            PadConfig::Sides { right, .. } => *right,
        }
    }
}

/// Per-literal/pattern defaults in the config file.
#[derive(Debug)]
pub struct PatternDefaults {
    pub fill: Option<char>,
    pub pad: Option<PadConfig>,
    /// `"left"` or `"right"`.
    pub align: Option<String>,
    /// Word-boundary pattern string.
    pub word: Option<String>,
    pub context: Option<String>,
}

/// Top-level configuration.
#[derive(Debug, Clone)]
pub struct Config {
    /// Default filler character.
    pub fill: char,
    /// Default padding amount.
    pub pad: usize,
    /// Word boundary for literals.
    pub word_bound_literal: String,
    /// Word boundary for regex patterns.
    pub word_bound_regex: String,
    /// Regex engine: `"fancy_regex"` or `"regress"`.
    pub engine: String,
    /// Per-pattern defaults, keyed by the pattern's text.
    pub patterns: PatternTable,
}

/// Copies a string slice into an owned `String`.
pub fn owned(s: &str) -> (r: String)
    ensures
        r@ == s@,
{
    s.to_owned()
}

pub fn default_fill() -> (r: char)
    ensures
        r == ' ',
{
    ' '
}

pub fn default_pad() -> (r: usize)
    ensures
        r == 1,
{
    1
}

pub fn default_word_bound() -> (r: String)
    ensures
        r@ == "/[^A-Za-z0-9_]/"@,
{
    owned("/[^A-Za-z0-9_]/")
}

pub fn default_engine() -> (r: String)
    ensures
        r@ == "fancy_regex"@,
{
    owned("fancy_regex")
}

impl Default for Config {
    fn default() -> (r: Self)
        ensures
            r.fill == ' ',
            r.pad == 1,
            r.word_bound_literal@ == "/[^A-Za-z0-9_]/"@,
            r.word_bound_regex@ == "/[^A-Za-z0-9_]/"@,
            r.engine@ == "fancy_regex"@,
            r.patterns@ == Map::<Seq<char>, PatternDefaults>::empty(),
    {
        Config {
            fill: default_fill(),
            pad: default_pad(),
            word_bound_literal: default_word_bound(),
            word_bound_regex: default_word_bound(),
            engine: default_engine(),
            patterns: PatternTable::new(),
        }
    }
}

/// The defaults of the first entry keyed `key`, from entry `i` on.
pub open spec fn lookup_from(entries: Seq<(String, PatternDefaults)>, key: Seq<char>, i: int) -> Option<
    PatternDefaults,
>
    decreases entries.len() - i,
{
    if i < 0 || i >= entries.len() {
        None
    } else if entries[i].0@ == key {
        Some(entries[i].1)
    } else {
        lookup_from(entries, key, i + 1)
    }
}

/// No pattern text is configured twice.
pub open spec fn keys_unique(entries: Seq<(String, PatternDefaults)>) -> bool {
    forall|i: int, j: int| 0 <= i < j < entries.len() ==> (#[trigger] entries[i]).0@ != (#[trigger] entries[j]).0@
}

/// The defaults configured for the pattern text `key`.
pub open spec fn lookup_defaults(cfg: Config, key: Seq<char>) -> Option<PatternDefaults> {
    if cfg.patterns@.contains_key(key) {
        Some(cfg.patterns@[key])
    } else {
        None
    }
}

/// The map a list of entries stands for: each key to the defaults of its
/// first entry.
pub open spec fn entries_map(entries: Seq<(String, PatternDefaults)>) -> Map<Seq<char>, PatternDefaults> {
    Map::new(
        |k: Seq<char>| lookup_from(entries, k, 0) is Some,
        |k: Seq<char>| lookup_from(entries, k, 0).unwrap(),
    )
}

/// Replacing the entry at `i`, the first one keyed `key`, by `(key, d)`: the
/// lookup of `key` gives `d`, and every other lookup is unchanged.
proof fn lemma_lookup_replace(
    entries: Seq<(String, PatternDefaults)>,
    i: int,
    key: String,
    d: PatternDefaults,
    k: Seq<char>,
    j: int,
)
    requires
        0 <= i < entries.len(),
        entries[i].0@ == key@,
        forall|m: int| 0 <= m < i ==> (#[trigger] entries[m]).0@ != key@,
        0 <= j,
    ensures
        lookup_from(entries.update(i, (key, d)), k, j) == (if k == key@ && j <= i {
            Some(d)
        } else {
            lookup_from(entries, k, j)
        }),
    decreases entries.len() - j,
{
    let upd = entries.update(i, (key, d));
    if j < entries.len() {
        if j != i {
            assert(upd[j] == entries[j]);
        }
        lemma_lookup_replace(entries, i, key, d, k, j + 1);
    }
}

/// Appending an entry keyed `key` where none is: the lookup of `key` gives
/// its defaults, and every other lookup is unchanged.
proof fn lemma_lookup_push(
    entries: Seq<(String, PatternDefaults)>,
    key: String,
    d: PatternDefaults,
    k: Seq<char>,
    j: int,
)
    requires
        forall|m: int| 0 <= m < entries.len() ==> (#[trigger] entries[m]).0@ != key@,
        0 <= j <= entries.len(),
    ensures
        lookup_from(entries.push((key, d)), k, j) == (if k == key@ {
            Some(d)
        } else {
            lookup_from(entries, k, j)
        }),
    decreases entries.len() - j,
{
    let pushed = entries.push((key, d));
    if j < entries.len() {
        assert(pushed[j] == entries[j]);
        lemma_lookup_push(entries, key, d, k, j + 1);
    } else {
        assert(pushed[j] == (key, d));
        assert(lookup_from(pushed, k, j + 1) is None);
    }
}

proof fn lemma_lookup_unique(entries: Seq<(String, PatternDefaults)>, i: int, j: int)
    requires
        keys_unique(entries),
        0 <= j <= i < entries.len(),
    ensures
        lookup_from(entries, entries[i].0@, j) == Some(entries[i].1),
    decreases i - j,
{
    if j < i {
        assert(entries[j].0@ != entries[i].0@);
        lemma_lookup_unique(entries, i, j + 1);
    }
}

/// A key that is found is the key of some entry.
proof fn lemma_lookup_found(entries: Seq<(String, PatternDefaults)>, k: Seq<char>, j: int)
    requires
        0 <= j,
        lookup_from(entries, k, j) is Some,
    ensures
        exists|m: int| j <= m < entries.len() && (#[trigger] entries[m]).0@ == k,
    decreases entries.len() - j,
{
    if j < entries.len() && entries[j].0@ != k {
        lemma_lookup_found(entries, k, j + 1);
    }
}

/// The position of the first entry keyed `key`.
fn position_of(e: &Vec<(String, PatternDefaults)>, key: &str) -> (r: Option<usize>)
    ensures
        match r {
            Some(i) => i < e@.len() && e@[i as int].0@ == key@ && forall|m: int|
                0 <= m < i ==> (#[trigger] e@[m]).0@ != key@,
            None => forall|m: int| 0 <= m < e@.len() ==> (#[trigger] e@[m]).0@ != key@,
        },
{
    let mut i: usize = 0;
    while i < e.len()
        invariant
            i <= e@.len(),
            forall|m: int| 0 <= m < i ==> (#[trigger] e@[m]).0@ != key@,
        decreases e@.len() - i,
    {
        if str_eq(e[i].0.as_str(), key) {
            return Some(i);
        }
        i = i + 1;
    }
    None
}

fn clone_opt_string(o: &Option<String>) -> (r: Option<String>)
    ensures
        r == *o,
{
    match o {
        Some(x) => Some(x.clone()),
        None => None,
    }
}

impl Clone for PatternDefaults {
    fn clone(&self) -> (r: Self)
        ensures
            r == *self,
    {
        PatternDefaults {
            fill: self.fill,
            pad: self.pad,
            align: clone_opt_string(&self.align),
            word: clone_opt_string(&self.word),
            context: clone_opt_string(&self.context),
        }
    }
}

/// The per-pattern defaults, keyed by pattern text. No key occurs twice, and
/// setting a key replaces what it had, as in a map.
#[derive(Debug)]
pub struct PatternTable {
    entries: Vec<(String, PatternDefaults)>,
}

impl PatternTable {
    #[verifier::type_invariant]
    spec fn no_key_twice(self) -> bool {
        keys_unique(self.entries@)
    }
}

impl View for PatternTable {
    type V = Map<Seq<char>, PatternDefaults>;

    closed spec fn view(&self) -> Map<Seq<char>, PatternDefaults> {
        entries_map(self.entries@)
    }
}

impl Clone for PatternTable {
    fn clone(&self) -> (r: Self)
        ensures
            r@ == self@,
    {
        proof {
            use_type_invariant(self);
        }
        let mut v: Vec<(String, PatternDefaults)> = Vec::new();
        let mut i: usize = 0;
        while i < self.entries.len()
            invariant
                i <= self.entries@.len(),
                v@ == self.entries@.take(i as int),
            decreases self.entries@.len() - i,
        {
            let (k, d) = &self.entries[i];
            v.push((k.clone(), d.clone()));
            assert(v@ =~= self.entries@.take(i + 1));
            i = i + 1;
        }
        assert(v@ =~= self.entries@);
        PatternTable { entries: v }
    }
}

impl PatternTable {
    /// A table without entries.
    pub fn new() -> (r: Self)
        ensures
            r@ == Map::<Seq<char>, PatternDefaults>::empty(),
    {
        let r = PatternTable { entries: Vec::new() };
        assert(r@ =~= Map::<Seq<char>, PatternDefaults>::empty());
        r
    }

    /// The defaults set for `key`, if any.
    pub fn get(&self, key: &str) -> (r: Option<&PatternDefaults>)
        ensures
            match r {
                Some(d) => self@.contains_key(key@) && self@[key@] == *d,
                None => !self@.contains_key(key@),
            },
    {
        let mut i: usize = 0;
        while i < self.entries.len()
            invariant
                i <= self.entries@.len(),
                lookup_from(self.entries@, key@, 0) == lookup_from(self.entries@, key@, i as int),
            decreases self.entries@.len() - i,
        {
            let entry = &self.entries[i];
            if str_eq(entry.0.as_str(), key) {
                return Some(&entry.1);
            }
            i = i + 1;
        }
        None
    }

    /// Sets the defaults for `key`, replacing those it had.
    pub fn insert(&mut self, key: String, d: PatternDefaults)
        ensures
            final(self)@ == old(self)@.insert(key@, d),
    {
        proof {
            use_type_invariant(&*self);
        }
        let ghost m0 = self@;
        let mut e: Vec<(String, PatternDefaults)> = Vec::new();
        std::mem::swap(&mut e, &mut self.entries);
        let ghost e0 = e@;
        assert(m0 == entries_map(e0));
        assert(keys_unique(e0));
        let found = position_of(&e, key.as_str());
        let ghost ki = key;
        if let Some(i) = found {
            e.set(i, (key, d));
            proof {
                assert(e@ == e0.update(i as int, (ki, d)));
                assert forall|k: Seq<char>| #[trigger] lookup_from(e@, k, 0) == (if k == ki@ {
                    Some(d)
                } else {
                    lookup_from(e0, k, 0)
                }) by {
                    lemma_lookup_replace(e0, i as int, ki, d, k, 0);
                }
                assert forall|a: int| 0 <= a < e0.len() implies (#[trigger] e@[a]).0@ == e0[a].0@ by {}
            }
        } else {
            e.push((key, d));
            proof {
                assert forall|k: Seq<char>| #[trigger] lookup_from(e@, k, 0) == (if k == ki@ {
                    Some(d)
                } else {
                    lookup_from(e0, k, 0)
                }) by {
                    lemma_lookup_push(e0, ki, d, k, 0);
                }
                assert forall|a: int, b: int| 0 <= a < b < e@.len() implies (#[trigger] e@[a]).0@
                    != (#[trigger] e@[b]).0@ by {
                    assert(e@[a] == e0[a]);
                    if b < e0.len() {
                        assert(e@[b] == e0[b]);
                    }
                }
            }
        }
        self.entries = e;
        assert(self@ =~= m0.insert(ki@, d));
    }

    /// The entries, each key once, in the order they were first set.
    pub fn entries(&self) -> (r: &Vec<(String, PatternDefaults)>)
        ensures
            keys_unique(r@),
            forall|i: int|
                0 <= i < r@.len() ==> self@.contains_key((#[trigger] r@[i]).0@) && self@[r@[i].0@]
                    == r@[i].1,
            forall|k: Seq<char>|
                #[trigger] self@.contains_key(k) ==> exists|i: int| 0 <= i < r@.len() && (#[trigger] r@[i]).0@ == k,
    {
        proof {
            use_type_invariant(self);
            assert forall|i: int| 0 <= i < self.entries@.len() implies self@.contains_key(
                (#[trigger] self.entries@[i]).0@,
            ) && self@[self.entries@[i].0@] == self.entries@[i].1 by {
                lemma_lookup_unique(self.entries@, i, 0);
            }
            assert forall|k: Seq<char>| #[trigger] self@.contains_key(k) implies exists|i: int|
                0 <= i < self.entries@.len() && (#[trigger] self.entries@[i]).0@ == k by {
                lemma_lookup_found(self.entries@, k, 0);
            }
        }
        &self.entries
    }
}

impl Config {
    /// Looks up the per-pattern defaults for a given pattern string.
    pub fn pattern_defaults(&self, key: &str) -> (r: Option<&PatternDefaults>)
        ensures
            match r {
                Some(d) => lookup_defaults(*self, key@) == Some(*d),
                None => lookup_defaults(*self, key@) is None,
            },
    {
        self.patterns.get(key)
    }
}

} // verus!
