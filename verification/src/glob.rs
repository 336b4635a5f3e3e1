//! Glob-style patterns, as KEYS takes them: `*` stands for any run of
//! characters, `?` for any one character, `[...]` for one character of a
//! class (ranges such as `a-z`, and `^` first to negate), and `\` makes the
//! character after it stand for itself.
use vstd::prelude::*;
use vstd::std_specs::iter::IteratorSpec;

verus! {

/// Where the `]` that closes a class stands, looking from `k` on; the length
/// of the pattern if none does.
pub open spec fn class_close(p: Seq<char>, k: int) -> int
    decreases p.len() - k,
{
    if k >= p.len() {
        p.len() as int
    } else if p[k] == ']' {
        k
    } else {
        class_close(p, k + 1)
    }
}

/// Whether the class whose `[` stands at `i` is negated with `^`.
pub open spec fn class_negated(p: Seq<char>, i: int) -> bool {
    i + 1 < p.len() && p[i + 1] == '^'
}

/// Where the body of the class whose `[` stands at `i` starts.
pub open spec fn class_start(p: Seq<char>, i: int) -> int {
    if class_negated(p, i) { i + 2 } else { i + 1 }
}

/// Whether `c` is among the characters and ranges written in `p[lo..hi]`.
pub open spec fn in_class(p: Seq<char>, lo: int, hi: int, c: char) -> bool
    decreases hi - lo,
{
    if lo >= hi {
        false
    } else if lo + 2 < hi && p[lo + 1] == '-' {
        ((p[lo] as u32) <= (c as u32) && (c as u32) <= (p[lo + 2] as u32)) || in_class(p, lo + 3, hi, c)
    } else {
        p[lo] == c || in_class(p, lo + 1, hi, c)
    }
}

/// The search for a `]` ends at or after where it starts.
pub proof fn lemma_class_close(p: Seq<char>, k: int)
    requires
        0 <= k <= p.len(),
    ensures
        class_close(p, k) >= k,
        class_close(p, k) <= p.len(),
        class_close(p, k) < p.len() ==> p[class_close(p, k)] == ']',
    decreases p.len() - k,
{
    if k < p.len() && p[k] != ']' {
        lemma_class_close(p, k + 1);
    }
}

/// Whether the pattern from its `i`-th character on matches the text from
/// its `j`-th character on.
pub open spec fn glob_from(p: Seq<char>, i: int, s: Seq<char>, j: int) -> bool
    decreases p.len() - i, s.len() - j,
{
    if i < 0 || j < 0 {
        false
    } else if i >= p.len() {
        j >= s.len()
    } else if p[i] == '*' {
        glob_from(p, i + 1, s, j) || (j < s.len() && glob_from(p, i, s, j + 1))
    } else if j >= s.len() {
        false
    } else if p[i] == '?' {
        glob_from(p, i + 1, s, j + 1)
    } else if p[i] == '[' && class_close(p, class_start(p, i)) < p.len() {
        let e = class_close(p, class_start(p, i));
        proof {
            lemma_class_close(p, class_start(p, i));
        }
        (in_class(p, class_start(p, i), e, s[j]) != class_negated(p, i)) && glob_from(p, e + 1, s, j + 1)
    } else if p[i] == '\\' && i + 1 < p.len() {
        p[i + 1] == s[j] && glob_from(p, i + 2, s, j + 1)
    } else {
        p[i] == s[j] && glob_from(p, i + 1, s, j + 1)
    }
}

/// Whether the pattern `p` matches the whole of the text `s`.
pub open spec fn glob_match(p: Seq<char>, s: Seq<char>) -> bool {
    glob_from(p, 0, s, 0)
}

/// The characters of a text, in order.
pub fn chars_of(s: &str) -> (r: Vec<char>)
    ensures
        r@ == s@,
{
    let mut it = s.chars();
    let mut out: Vec<char> = Vec::new();
    proof {
        broadcast use vstd::string::axiom_spec_iter;
    }
    loop
        invariant
            out@ + it.remaining() == s@,
            it.decrease() is Some,
        decreases it.decrease()->0,
    {
        let ghost before = it.remaining();
        match it.next() {
            Some(c) => {
                assert(it.remaining() == before.drop_first());
                out.push(c);
                assert(out@ + it.remaining() =~= s@);
            },
            None => {
                assert(out@ =~= s@);
                return out;
            },
        }
    }
}

/// Where the `]` that closes a class stands, looking from `k` on.
fn class_close_at(p: &Vec<char>, k: usize) -> (r: usize)
    requires
        k <= p@.len(),
    ensures
        r == class_close(p@, k as int),
    decreases p@.len() - k,
{
    if k >= p.len() {
        p.len()
    } else if p[k] == ']' {
        k
    } else {
        class_close_at(p, k + 1)
    }
}

/// Whether `c` is in the class written in `p[lo..hi]`.
fn in_class_at(p: &Vec<char>, lo: usize, hi: usize, c: char) -> (r: bool)
    requires
        hi <= p@.len(),
    ensures
        r == in_class(p@, lo as int, hi as int, c),
    decreases hi - lo,
{
    if lo >= hi {
        false
    } else if hi - lo > 2 && p[lo + 1] == '-' {
        ((p[lo] as u32) <= (c as u32) && (c as u32) <= (p[lo + 2] as u32)) || in_class_at(p, lo + 3, hi, c)
    } else {
        p[lo] == c || in_class_at(p, lo + 1, hi, c)
    }
}

/// Whether the pattern from `i` on matches the text from `j` on.
fn glob_at(p: &Vec<char>, i: usize, s: &Vec<char>, j: usize) -> (r: bool)
    requires
        i <= p@.len(),
        j <= s@.len(),
    ensures
        r == glob_from(p@, i as int, s@, j as int),
    decreases p@.len() - i, s@.len() - j,
{
    if i >= p.len() {
        j >= s.len()
    } else if p[i] == '*' {
        glob_at(p, i + 1, s, j) || (j < s.len() && glob_at(p, i, s, j + 1))
    } else if j >= s.len() {
        false
    } else if p[i] == '?' {
        glob_at(p, i + 1, s, j + 1)
    } else {
        let negated = i + 1 < p.len() && p[i + 1] == '^';
        let start = if negated { i + 2 } else { i + 1 };
        let close = if p[i] == '[' { class_close_at(p, start) } else { p.len() };
        if p[i] == '[' && close < p.len() {
            proof {
                lemma_class_close(p@, start as int);
            }
            (in_class_at(p, start, close, s[j]) != negated) && glob_at(p, close + 1, s, j + 1)
        } else if p[i] == '\\' && i + 1 < p.len() {
            p[i + 1] == s[j] && glob_at(p, i + 2, s, j + 1)
        } else {
            p[i] == s[j] && glob_at(p, i + 1, s, j + 1)
        }
    }
}

/// Whether the pattern `pattern` matches the whole of `text`.
pub fn glob_matches(pattern: &str, text: &str) -> (r: bool)
    ensures
        r == glob_match(pattern@, text@),
{
    let p = chars_of(pattern);
    let s = chars_of(text);
    glob_at(&p, 0, &s, 0)
}

/// A lone `*` matches every text from any point on.
pub proof fn lemma_star_matches(p: Seq<char>, s: Seq<char>, j: int)
    requires
        p == seq!['*'],
        0 <= j <= s.len(),
    ensures
        glob_from(p, 0, s, j),
    decreases s.len() - j,
{
    assert(glob_from(p, 1, s, s.len() as int));
    if j < s.len() {
        lemma_star_matches(p, s, j + 1);
    }
}

} // verus!
