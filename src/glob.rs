use vstd::prelude::*;
use crate::ast::strings_view;
use crate::text::{chars_of, string_from_chars};

verus! {

/// Whether `c` is in the bracket class `cl` from index `k` on (`a-z` ranges allowed).
pub open spec fn in_class(cl: Seq<char>, k: int, c: char) -> bool
    decreases cl.len() - k,
{
    if k < 0 || k >= cl.len() {
        false
    } else if k + 2 < cl.len() && cl[k + 1] == '-' {
        (cl[k] <= c && c <= cl[k + 2]) || in_class(cl, k + 3, c)
    } else {
        cl[k] == c || in_class(cl, k + 1, c)
    }
}

/// Whether `c` matches the bracket class `cl`; a leading `!` or `^` negates it.
pub open spec fn class_matches(cl: Seq<char>, c: char) -> bool {
    if cl.len() > 0 && (cl[0] == '!' || cl[0] == '^') {
        !in_class(cl, 1, c)
    } else {
        in_class(cl, 0, c)
    }
}

/// Index of the first `]` at or after `k`, or `p.len()` when there is none.
pub open spec fn class_end(p: Seq<char>, k: int) -> int
    decreases p.len() - k,
{
    if k < 0 || k >= p.len() {
        p.len() as int
    } else if p[k] == ']' {
        k
    } else {
        class_end(p, k + 1)
    }
}

/// Whether `s[j..]` matches the pattern `p[i..]`: `*` matches any run, `?` one character,
/// `[...]` one character of the class; any other character matches itself.
pub open spec fn glob_match_from(p: Seq<char>, i: int, s: Seq<char>, j: int) -> bool
    decreases p.len() - i, s.len() - j,
{
    if i < 0 || j < 0 || i > p.len() || j > s.len() {
        false
    } else if i == p.len() {
        j == s.len()
    } else if p[i] == '*' {
        glob_match_from(p, i + 1, s, j) || (j < s.len() && glob_match_from(p, i, s, j + 1))
    } else if j == s.len() {
        false
    } else if p[i] == '\\' && i + 1 < p.len() {
        p[i + 1] == s[j] && glob_match_from(p, i + 2, s, j + 1)
    } else if p[i] == '?' {
        glob_match_from(p, i + 1, s, j + 1)
    } else if p[i] == '[' && i + 2 <= class_end(p, i + 2) && class_end(p, i + 2) < p.len() {
        let e = class_end(p, i + 2);
        class_matches(p.subrange(i + 1, e), s[j]) && glob_match_from(p, e + 1, s, j + 1)
    } else {
        p[i] == s[j] && glob_match_from(p, i + 1, s, j + 1)
    }
}

pub open spec fn glob_match(p: Seq<char>, s: Seq<char>) -> bool {
    glob_match_from(p, 0, s, 0)
}

/// Whether `p` holds a wildcard character.
pub open spec fn has_wildcard(p: Seq<char>) -> bool {
    wild_from(p, 0)
}

pub open spec fn is_glob_char(c: char) -> bool {
    c == '*' || c == '?' || c == '['
}

/// Whether `p` holds, from index `i` on, a wildcard character not escaped by a backslash.
pub open spec fn wild_from(p: Seq<char>, i: int) -> bool
    decreases p.len() - i,
{
    if i < 0 || i >= p.len() {
        false
    } else if p[i] == '\\' && i + 1 < p.len() {
        wild_from(p, i + 2)
    } else if is_glob_char(p[i]) {
        true
    } else {
        wild_from(p, i + 1)
    }
}

/// `p` from index `i` on, each backslash that escapes a character removed.
pub open spec fn unescape_from(p: Seq<char>, i: int) -> Seq<char>
    decreases p.len() - i,
{
    if i < 0 || i >= p.len() {
        Seq::empty()
    } else if p[i] == '\\' && i + 1 < p.len() {
        seq![p[i + 1]] + unescape_from(p, i + 2)
    } else {
        seq![p[i]] + unescape_from(p, i + 1)
    }
}

/// The names of `names` that `p` matches, in order.
pub open spec fn matching(p: Seq<char>, names: Seq<Seq<char>>) -> Seq<Seq<char>>
    decreases names.len(),
{
    if names.len() == 0 {
        Seq::empty()
    } else {
        let m = matching(p, names.drop_last());
        if glob_match(p, names.last()) {
            m.push(names.last())
        } else {
            m
        }
    }
}

/// What a word expands to against `names`: the matching names, or else the word itself with
/// its escapes removed (when it has no unescaped wildcard or nothing matches). A backslash
/// makes the next character match itself only.
pub open spec fn glob_spec(p: Seq<char>, names: Seq<Seq<char>>) -> Seq<Seq<char>> {
    if has_wildcard(p) && matching(p, names).len() > 0 {
        matching(p, names)
    } else {
        seq![unescape_from(p, 0)]
    }
}

fn in_class_exec(p: &Vec<char>, a: usize, b: usize, c: char) -> (r: bool)
    requires
        a <= b <= p.len(),
    ensures
        r == in_class(p@.subrange(a as int, b as int), 0, c),
{
    let ghost cl = p@.subrange(a as int, b as int);
    let mut k = a;
    while k < b
        invariant
            a <= k <= b <= p.len(),
            cl == p@.subrange(a as int, b as int),
            in_class(cl, 0, c) == in_class(cl, k - a, c),
        decreases b - k,
    {
        if b - k > 2 && p[k + 1] == '-' {
            if p[k] <= c && c <= p[k + 2] {
                return true;
            }
            k = k + 3;
        } else {
            if p[k] == c {
                return true;
            }
            k = k + 1;
        }
    }
    false
}

fn class_end_exec(p: &Vec<char>, k: usize) -> (r: usize)
    ensures
        r as int == class_end(p@, k as int),
        k <= p.len() ==> k <= r <= p.len(),
{
    let mut i = k;
    while i < p.len() && p[i] != ']'
        invariant
            k <= i,
            k <= p.len() ==> i <= p.len(),
            class_end(p@, k as int) == class_end(p@, i as int),
        decreases p.len() - i,
    {
        i = i + 1;
    }
    if i >= p.len() {
        p.len()
    } else {
        i
    }
}

fn match_from(p: &Vec<char>, i: usize, s: &Vec<char>, j: usize) -> (r: bool)
    requires
        i <= p.len(),
        j <= s.len(),
    ensures
        r == glob_match_from(p@, i as int, s@, j as int),
    decreases p.len() - i, s.len() - j,
{
    if i == p.len() {
        return j == s.len();
    }
    if p[i] == '*' {
        if match_from(p, i + 1, s, j) {
            return true;
        }
        return j < s.len() && match_from(p, i, s, j + 1);
    }
    if j == s.len() {
        return false;
    }
    if p[i] == '\\' && p.len() - i > 1 {
        return p[i + 1] == s[j] && match_from(p, i + 2, s, j + 1);
    }
    if p[i] == '?' {
        return match_from(p, i + 1, s, j + 1);
    }
    if p[i] == '[' {
        let e = if p.len() - i >= 2 { class_end_exec(p, i + 2) } else { p.len() };
        if e < p.len() {
            let negated = i + 1 < e && (p[i + 1] == '!' || p[i + 1] == '^');
            let hit = if negated { !in_class_exec(p, i + 2, e, s[j]) } else { in_class_exec(p, i + 1, e, s[j]) };
            proof {
                let cl = p@.subrange(i + 1, e as int);
                if negated {
                    assert(p@.subrange(i + 2, e as int) =~= cl.subrange(1, cl.len() as int));
                    lemma_in_class_shift(cl, 1, s@[j as int]);
                }
            }
            return hit && match_from(p, e + 1, s, j + 1);
        }
    }
    p[i] == s[j] && match_from(p, i + 1, s, j + 1)
}

proof fn lemma_in_class_shift(cl: Seq<char>, d: int, c: char)
    requires
        0 <= d <= cl.len(),
    ensures
        in_class(cl.subrange(d, cl.len() as int), 0, c) == in_class(cl, d, c),
{
    lemma_in_class_shift_from(cl, d, 0, c);
}

proof fn lemma_in_class_shift_from(cl: Seq<char>, d: int, k: int, c: char)
    requires
        0 <= d <= cl.len(),
        0 <= k,
    ensures
        in_class(cl.subrange(d, cl.len() as int), k, c) == in_class(cl, d + k, c),
    decreases cl.len() - d - k,
{
    let t = cl.subrange(d, cl.len() as int);
    if k < t.len() {
        if k + 2 < t.len() && t[k + 1] == '-' {
            lemma_in_class_shift_from(cl, d, k + 3, c);
        } else {
            lemma_in_class_shift_from(cl, d, k + 1, c);
        }
    }
}

/// Whether `name` matches the pattern `pattern`.
pub fn glob_matches(pattern: &str, name: &str) -> (r: bool)
    ensures
        r == glob_match(pattern@, name@),
{
    let p = chars_of(pattern);
    let s = chars_of(name);
    match_from(&p, 0, &s, 0)
}

/// Expands `pattern` against `names`: the matching names in order, or the pattern itself
/// when it has no wildcard or nothing matches.
pub fn glob_expand(pattern: &str, names: &Vec<String>) -> (r: Vec<String>)
    ensures
        strings_view(r@) == glob_spec(pattern@, strings_view(names@)),
{
    let p = chars_of(pattern);
    let mut wild = false;
    let mut k: usize = 0;
    while k < p.len() && !wild
        invariant
            k <= p.len() + 1,
            p@ == pattern@,
            wild ==> wild_from(p@, 0),
            !wild ==> wild_from(p@, 0) == wild_from(p@, k as int),
        decreases p.len() + 1 - k,
    {
        if p[k] == '\\' && p.len() - k > 1 {
            k = k + 2;
        } else {
            if p[k] == '*' || p[k] == '?' || p[k] == '[' {
                wild = true;
            }
            k = k + 1;
        }
    }
    let mut out: Vec<String> = Vec::new();
    if wild {
        let mut i: usize = 0;
        assert(strings_view(names@).subrange(0, 0) =~= Seq::<Seq<char>>::empty());
        assert(strings_view(out@) =~= Seq::<Seq<char>>::empty());
        while i < names.len()
            invariant
                i <= names.len(),
                strings_view(out@) == matching(pattern@, strings_view(names@).subrange(0, i as int)),
            decreases names.len() - i,
        {
            let ghost before = strings_view(out@);
            assert(strings_view(names@).subrange(0, i + 1).drop_last() =~= strings_view(names@).subrange(0, i as int));
            if glob_matches(pattern, names[i].as_str()) {
                let n = names[i].clone();
                let ghost nv = n@;
                out.push(n);
                assert(strings_view(out@) =~= before.push(nv));
            }
            i = i + 1;
        }
        assert(strings_view(names@).subrange(0, i as int) =~= strings_view(names@));
        if out.len() > 0 {
            return out;
        }
    }
    let mut lit: Vec<String> = Vec::new();
    lit.push(string_from_chars(&unescape(&p)));
    assert(strings_view(lit@) =~= seq![unescape_from(pattern@, 0)]);
    lit
}

fn unescape(p: &Vec<char>) -> (r: Vec<char>)
    ensures
        r@ == unescape_from(p@, 0),
{
    let mut out: Vec<char> = Vec::new();
    let mut i: usize = 0;
    assert(out@ + unescape_from(p@, 0) =~= unescape_from(p@, 0));
    while i < p.len()
        invariant
            i <= p.len() + 1,
            unescape_from(p@, 0) == out@ + unescape_from(p@, i as int),
        decreases p.len() + 1 - i,
    {
        let ghost before = out@;
        if p[i] == '\\' && p.len() - i > 1 {
            out.push(p[i + 1]);
            assert(out@ + unescape_from(p@, i + 2) =~= before + unescape_from(p@, i as int));
            i = i + 2;
        } else {
            out.push(p[i]);
            assert(out@ + unescape_from(p@, i + 1) =~= before + unescape_from(p@, i as int));
            i = i + 1;
        }
    }
    assert(unescape_from(p@, i as int) =~= Seq::<char>::empty());
    assert(out@ =~= unescape_from(p@, 0));
    out
}

} // verus!
