//! Character-level helpers shared by the parser and the aligner: runs of a
//! filler character, UTF-8 byte offsets of character positions, Unicode
//! whitespace, and conversions between `String` and `Vec<char>`.
use vstd::prelude::*;
use vstd::utf8::*;

verus! {

/// `n` copies of the character `c`.
pub open spec fn fills(c: char, n: nat) -> Seq<char> {
    Seq::new(n, |_i: int| c)
}

/// Length of the run of `c` at the end of `s`.
pub open spec fn trailing_run(s: Seq<char>, c: char) -> nat
    decreases s.len(),
{
    if s.len() > 0 && s.last() == c {
        1 + trailing_run(s.drop_last(), c)
    } else {
        0
    }
}

/// Length of the run of `c` at the start of `s`.
pub open spec fn leading_run(s: Seq<char>, c: char) -> nat
    decreases s.len(),
{
    if s.len() > 0 && s[0] == c {
        1 + leading_run(s.drop_first(), c)
    } else {
        0
    }
}

pub proof fn lemma_trailing_run_bound(s: Seq<char>, c: char)
    ensures
        trailing_run(s, c) <= s.len(),
        forall|k: int| s.len() - trailing_run(s, c) <= k < s.len() ==> #[trigger] s[k] == c,
        trailing_run(s, c) < s.len() ==> s[s.len() - trailing_run(s, c) - 1] != c,
    decreases s.len(),
{
    if s.len() > 0 && s.last() == c {
        let t = s.drop_last();
        lemma_trailing_run_bound(t, c);
        assert forall|k: int| s.len() - trailing_run(s, c) <= k < s.len() implies #[trigger] s[k]
            == c by {
            if k < s.len() - 1 {
                assert(t[k] == s[k]);
            }
        }
        if trailing_run(s, c) < s.len() {
            assert(t[t.len() - trailing_run(t, c) - 1] == s[s.len() - trailing_run(s, c) - 1]);
        }
    }
}

pub proof fn lemma_leading_run_bound(s: Seq<char>, c: char)
    ensures
        leading_run(s, c) <= s.len(),
        forall|k: int| 0 <= k < leading_run(s, c) ==> #[trigger] s[k] == c,
        leading_run(s, c) < s.len() ==> s[leading_run(s, c) as int] != c,
    decreases s.len(),
{
    if s.len() > 0 && s[0] == c {
        lemma_leading_run_bound(s.drop_first(), c);
        assert forall|k: int| 0 <= k < leading_run(s, c) implies #[trigger] s[k] == c by {
            if k > 0 {
                assert(s.drop_first()[k - 1] == s[k]);
            }
        }
    }
}

/// Counts the characters equal to `c` at the end of `s`.
pub fn count_trailing_fill(s: &[char], c: char) -> (n: usize)
    ensures
        n == trailing_run(s@, c),
{
    let mut n: usize = 0;
    while n < s.len() && s[s.len() - 1 - n] == c
        invariant
            n <= s@.len(),
            forall|k: int| s@.len() - n <= k < s@.len() ==> s@[k] == c,
        decreases s@.len() - n,
    {
        n = n + 1;
    }
    proof {
        lemma_trailing_run_exact(s@, c, n as nat);
    }
    n
}

/// Characterises `trailing_run` by the run it names.
pub proof fn lemma_trailing_run_exact(s: Seq<char>, c: char, n: nat)
    requires
        n <= s.len(),
        forall|k: int| s.len() - n <= k < s.len() ==> s[k] == c,
        n == s.len() || s[s.len() - n - 1] != c,
    ensures
        trailing_run(s, c) == n,
    decreases s.len(),
{
    if n > 0 {
        assert(s.last() == c);
        let t = s.drop_last();
        assert forall|k: int| t.len() - (n - 1) <= k < t.len() implies t[k] == c by {
            assert(t[k] == s[k]);
        }
        if n - 1 < t.len() {
            assert(t[t.len() - (n - 1) - 1] == s[s.len() - n - 1]);
        }
        lemma_trailing_run_exact(t, c, (n - 1) as nat);
    } else {
        if s.len() > 0 {
            assert(s.last() == s[s.len() - 0 - 1]);
        }
    }
}

/// Characterises `leading_run` by the run it names.
pub proof fn lemma_leading_run_exact(s: Seq<char>, c: char, n: nat)
    requires
        n <= s.len(),
        forall|k: int| 0 <= k < n ==> s[k] == c,
        n == s.len() || s[n as int] != c,
    ensures
        leading_run(s, c) == n,
    decreases s.len(),
{
    if n > 0 {
        let t = s.drop_first();
        assert forall|k: int| 0 <= k < n - 1 implies t[k] == c by {
            assert(t[k] == s[k + 1]);
        }
        if n - 1 < t.len() {
            assert(t[n - 1] == s[n as int]);
        }
        lemma_leading_run_exact(t, c, (n - 1) as nat);
    } else {
        if s.len() > 0 {
            assert(s[0] != c);
        }
    }
}

/// Counts the characters equal to `c` at the start of `s`.
pub fn count_leading(s: &[char], c: char) -> (n: usize)
    ensures
        n == leading_run(s@, c),
{
    let mut n: usize = 0;
    while n < s.len() && s[n] == c
        invariant
            n <= s@.len(),
            forall|k: int| 0 <= k < n ==> s@[k] == c,
        decreases s@.len() - n,
    {
        n = n + 1;
    }
    proof {
        lemma_leading_run_exact(s@, c, n as nat);
    }
    n
}

/// Appends `n` copies of `c` to `v`.
pub fn push_fills(v: &mut Vec<char>, c: char, n: usize)
    ensures
        final(v)@ == old(v)@ + fills(c, n as nat),
{
    let ghost start = v@;
    let mut i: usize = 0;
    while i < n
        invariant
            i <= n,
            v@ == start + fills(c, i as nat),
        decreases n - i,
    {
        v.push(c);
        i = i + 1;
        assert(v@ =~= start + fills(c, i as nat));
    }
}

/// Appends the characters of `s` to `v`.
pub fn push_all(v: &mut Vec<char>, s: &[char])
    ensures
        final(v)@ == old(v)@ + s@,
{
    let ghost start = v@;
    let mut i: usize = 0;
    while i < s.len()
        invariant
            i <= s@.len(),
            v@ == start + s@.take(i as int),
        decreases s@.len() - i,
    {
        v.push(s[i]);
        i = i + 1;
        assert(v@ =~= start + s@.take(i as int));
    }
    assert(s@.take(s@.len() as int) =~= s@);
}

/// Copies a slice of characters into a new vector.
pub fn to_vec(s: &[char]) -> (v: Vec<char>)
    ensures
        v@ == s@,
{
    let mut v: Vec<char> = Vec::new();
    push_all(&mut v, s);
    assert(v@ =~= s@);
    v
}

/// The characters of a string, in order.
pub fn chars_of(s: &str) -> (v: Vec<char>)
    ensures
        v@ == s@,
{
    let mut v: Vec<char> = Vec::new();
    for c in it: s.chars()
        invariant
            v@ == it.seq().take(it.index() as int),
            it.seq() == s@,
    {
        v.push(c);
        assert(v@ =~= it.seq().take(it.index() as int + 1));
    }
    assert(v@ =~= s@);
    v
}

/// Collects characters into a `String` (`FromIterator<&char> for String`).
#[verifier::external_body]
pub(crate) fn string_of(v: &[char]) -> (s: String)
    ensures
        s@ == v@,
{
    v.iter().collect()
}

// ── UTF-8 byte offsets ─────────────────────────────────────────────────────

/// Number of bytes in the UTF-8 encoding of `c`.
pub open spec fn utf8_len(c: char) -> nat {
    encode_scalar(c as u32).len()
}

/// Byte offset, in the UTF-8 encoding of `s`, of the character at index `i`.
pub open spec fn byte_offset(s: Seq<char>, i: int) -> nat {
    encode_utf8(s.take(i)).len()
}

/// `b` is the byte offset of some character position of `s` (a char boundary).
pub open spec fn is_boundary_offset(s: Seq<char>, b: int) -> bool {
    exists|i: int| 0 <= i <= s.len() && byte_offset(s, i) == b
}

pub proof fn lemma_encode_utf8_concat(a: Seq<char>, b: Seq<char>)
    ensures
        encode_utf8(a + b) == encode_utf8(a) + encode_utf8(b),
    decreases a.len(),
{
    if a.len() == 0 {
        assert(a + b =~= b);
        assert(encode_utf8(a) =~= Seq::<u8>::empty());
        assert(encode_utf8(a) + encode_utf8(b) =~= encode_utf8(b));
    } else {
        lemma_encode_utf8_concat(a.drop_first(), b);
        assert((a + b).drop_first() =~= a.drop_first() + b);
        assert((a + b)[0] == a[0]);
        assert(encode_utf8(a + b) =~= encode_scalar(a[0] as u32) + encode_utf8(a.drop_first() + b));
    }
}

pub proof fn lemma_utf8_len_pos(c: char)
    ensures
        1 <= utf8_len(c) <= 4,
{
    broadcast use vstd::utf8::char_is_scalar;
    assert(is_scalar(c as u32));
}

pub proof fn lemma_byte_offset_step(s: Seq<char>, i: int)
    requires
        0 <= i < s.len(),
    ensures
        byte_offset(s, i + 1) == byte_offset(s, i) + utf8_len(s[i]),
{
    assert(s.take(i + 1) =~= s.take(i) + seq![s[i]]);
    lemma_encode_utf8_concat(s.take(i), seq![s[i]]);
    let one = seq![s[i]];
    assert(one.drop_first() =~= Seq::<char>::empty());
    assert(encode_utf8(one) =~= encode_scalar(s[i] as u32) + encode_utf8(Seq::<char>::empty()));
}

pub proof fn lemma_byte_offset_zero(s: Seq<char>)
    ensures
        byte_offset(s, 0) == 0,
{
    assert(s.take(0) =~= Seq::<char>::empty());
}

/// Byte offsets grow strictly with the character index.
pub proof fn lemma_byte_offset_monotone(s: Seq<char>, i: int, j: int)
    requires
        0 <= i < j <= s.len(),
    ensures
        byte_offset(s, i) < byte_offset(s, j),
    decreases j - i,
{
    lemma_byte_offset_step(s, j - 1);
    lemma_utf8_len_pos(s[j - 1]);
    if i < j - 1 {
        lemma_byte_offset_monotone(s, i, j - 1);
    }
}

/// Byte offsets in a suffix are shifted by the offset where it starts.
pub proof fn lemma_byte_offset_suffix(s: Seq<char>, k: int, i: int)
    requires
        0 <= k <= s.len(),
        0 <= i <= s.len() - k,
    ensures
        byte_offset(s, k + i) == byte_offset(s, k) + byte_offset(s.skip(k), i),
{
    assert(s.take(k + i) =~= s.take(k) + s.skip(k).take(i));
    lemma_encode_utf8_concat(s.take(k), s.skip(k).take(i));
}

/// Number of bytes in the UTF-8 encoding of `c` (`char::len_utf8`).
pub fn char_utf8_len(c: char) -> (n: usize)
    ensures
        n == utf8_len(c),
        1 <= n <= 4,
{
    proof {
        broadcast use vstd::utf8::char_is_scalar;
        assert(is_scalar(c as u32));
    }
    let v = c as u32;
    if v <= 0x7F {
        1
    } else if v <= 0x7FF {
        2
    } else if v <= 0xFFFF {
        3
    } else {
        4
    }
}

/// The byte offset of character position `i` in `s`, or `None` where it does
/// not fit in a `usize`.
pub fn byte_offset_of_checked(s: &[char], i: usize) -> (r: Option<usize>)
    requires
        i <= s@.len(),
    ensures
        match r {
            Some(b) => b == byte_offset(s@, i as int),
            None => byte_offset(s@, i as int) > usize::MAX,
        },
{
    let mut k: usize = 0;
    let mut b: usize = 0;
    proof {
        lemma_byte_offset_zero(s@);
    }
    while k < i
        invariant
            k <= i <= s@.len(),
            b == byte_offset(s@, k as int),
        decreases i - k,
    {
        proof {
            lemma_byte_offset_step(s@, k as int);
        }
        let n = char_utf8_len(s[k]);
        if b > usize::MAX - n {
            proof {
                if k + 1 < i {
                    lemma_byte_offset_monotone(s@, k + 1, i as int);
                }
            }
            return None;
        }
        b = b + n;
        k = k + 1;
    }
    Some(b)
}

/// The character position whose byte offset in `s` is `b`.
pub fn char_index_of(s: &[char], b: usize) -> (i: usize)
    requires
        is_boundary_offset(s@, b as int),
    ensures
        i <= s@.len(),
        byte_offset(s@, i as int) == b,
{
    let ghost w = choose|w: int| 0 <= w <= s@.len() && byte_offset(s@, w) == b;
    let mut k: usize = 0;
    let mut acc: usize = 0;
    proof {
        lemma_byte_offset_zero(s@);
    }
    while acc < b
        invariant
            0 <= w <= s@.len(),
            byte_offset(s@, w) == b,
            k <= w,
            acc == byte_offset(s@, k as int),
        decreases w - k,
    {
        proof {
            if k == w {
                assert(false);
            }
            lemma_byte_offset_step(s@, k as int);
            if k + 1 < w {
                lemma_byte_offset_monotone(s@, k + 1, w);
            }
        }
        let n = char_utf8_len(s[k]);
        acc = acc + n;
        k = k + 1;
    }
    proof {
        if k < w {
            lemma_byte_offset_monotone(s@, k as int, w);
        }
    }
    k
}

// ── Unicode whitespace ─────────────────────────────────────────────────────

/// The Unicode `White_Space` property, as `char::is_whitespace` documents it.
pub open spec fn is_ws(c: char) -> bool {
    let v = c as u32;
    ||| 0x09 <= v <= 0x0D
    ||| v == 0x20
    ||| v == 0x85
    ||| v == 0xA0
    ||| v == 0x1680
    ||| 0x2000 <= v <= 0x200A
    ||| v == 0x2028
    ||| v == 0x2029
    ||| v == 0x202F
    ||| v == 0x205F
    ||| v == 0x3000
}

/// `char::is_whitespace`.
pub fn is_whitespace(c: char) -> (b: bool)
    ensures
        b == is_ws(c),
{
    let v = c as u32;
    (0x09 <= v && v <= 0x0D) || v == 0x20 || v == 0x85 || v == 0xA0 || v == 0x1680 || (0x2000
        <= v && v <= 0x200A) || v == 0x2028 || v == 0x2029 || v == 0x202F || v == 0x205F || v
        == 0x3000
}

/// Whether `char::is_alphanumeric` holds of `c`.
pub uninterp spec fn char_alphanumeric(c: char) -> bool;

/// Calls `char::is_alphanumeric`; the contract names its result.
#[verifier::external_body]
pub(crate) fn is_alphanumeric(c: char) -> (b: bool)
    ensures
        b == char_alphanumeric(c),
{
    c.is_alphanumeric()
}

/// ASCII letters, as `char::is_ascii_alphabetic` documents them.
pub open spec fn is_ascii_alpha(c: char) -> bool {
    ('A' <= c <= 'Z') || ('a' <= c <= 'z')
}

/// `char::is_ascii_alphabetic`.
pub fn is_ascii_alphabetic(c: char) -> (b: bool)
    ensures
        b == is_ascii_alpha(c),
{
    ('A' <= c && c <= 'Z') || ('a' <= c && c <= 'z')
}

/// Whether two character sequences are equal.
pub fn chars_eq(a: &[char], b: &[char]) -> (r: bool)
    ensures
        r == (a@ == b@),
{
    if a.len() != b.len() {
        return false;
    }
    let mut i: usize = 0;
    while i < a.len()
        invariant
            a@.len() == b@.len(),
            i <= a@.len(),
            forall|k: int| 0 <= k < i ==> a@[k] == b@[k],
        decreases a@.len() - i,
    {
        if a[i] != b[i] {
            return false;
        }
        i = i + 1;
    }
    assert(a@ =~= b@);
    true
}

/// Whether two strings hold the same characters.
pub fn str_eq(a: &str, b: &str) -> (r: bool)
    ensures
        r == (a@ == b@),
{
    let x = chars_of(a);
    let y = chars_of(b);
    chars_eq(x.as_slice(), y.as_slice())
}

} // verus!
