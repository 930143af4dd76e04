use vstd::prelude::*;
use crate::text::{chars_of, string_from_chars, trimmed, is_whitespace};

verus! {

/// Which executor strategy runs command trees.
#[derive(Debug, Clone, Copy, PartialEq, Eq, Structural)]
pub enum ExecutorType {
    Flatten,
    Recursive,
}

/// Shell settings.
#[derive(Debug, Clone, PartialEq, Eq)]
pub struct Config {
    pub prompt: String,
    pub history_file: String,
    pub history_max: usize,
    pub executor_type: ExecutorType,
    /// `alias.<name>` entries, each name once; a later line for a name replaces its value.
    pub aliases: Vec<(String, String)>,
    /// `env.<NAME>` entries, each name once; a later line for a name replaces its value.
    pub env_vars: Vec<(String, String)>,
}

/// Why a configuration could not be loaded.
#[derive(Debug, Clone, PartialEq, Eq)]
pub enum ConfigError {
    Io(String),
    /// The 1-based line number and the offending line.
    Parse(usize, String),
}

pub struct ConfigLoader;

pub type Pair = (Seq<char>, Seq<char>);

/// What the lines read so far have set.
pub struct ConfigModel {
    pub prompt: Option<Seq<char>>,
    pub history_file: Option<Seq<char>>,
    pub history_max: Option<nat>,
    pub executor_type: Option<ExecutorType>,
    pub aliases: Seq<Pair>,
    pub env_vars: Seq<Pair>,
}

pub open spec fn empty_model() -> ConfigModel {
    ConfigModel {
        prompt: None,
        history_file: None,
        history_max: None,
        executor_type: None,
        aliases: Seq::empty(),
        env_vars: Seq::empty(),
    }
}

pub open spec fn default_prompt() -> Seq<char> {
    seq!['$', ' ']
}

pub open spec fn default_history_file() -> Seq<char> {
    seq!['~', '/', '.', 't', 'i', 'n', 'y', '_', 's', 'h', 'e', 'l', 'l', '_', 'h', 'i', 's', 't', 'o', 'r', 'y']
}

pub open spec fn default_history_max() -> nat {
    500
}

pub open spec fn is_digit(c: char) -> bool {
    '0' <= c <= '9'
}

/// The value of a run of decimal digits.
pub open spec fn digits_value(s: Seq<char>) -> nat
    decreases s.len(),
{
    if s.len() == 0 {
        0
    } else {
        digits_value(s.drop_last()) * 10 + (s.last() as nat - '0' as nat) as nat
    }
}

/// `s` without one leading `+`.
pub open spec fn unsigned_part(s: Seq<char>) -> Seq<char> {
    if s.len() > 0 && s[0] == '+' {
        s.drop_first()
    } else {
        s
    }
}

pub open spec fn all_digits(d: Seq<char>) -> bool {
    forall|i: int| 0 <= i < d.len() ==> is_digit(#[trigger] d[i])
}

/// A non-negative decimal integer, with an optional leading `+`, that fits in `usize`.
pub open spec fn decimal(s: Seq<char>) -> Option<nat> {
    let d = unsigned_part(s);
    if d.len() > 0 && all_digits(d) && digits_value(d) <= usize::MAX {
        Some(digits_value(d))
    } else {
        None
    }
}

/// Index of the first `c` in `s`, or `s.len()`.
pub open spec fn index_of(s: Seq<char>, c: char) -> int
    decreases s.len(),
{
    if s.len() == 0 {
        0
    } else if s[0] == c {
        0
    } else {
        1 + index_of(s.drop_first(), c)
    }
}

pub open spec fn has_prefix(s: Seq<char>, p: Seq<char>) -> bool {
    p.len() <= s.len() && s.subrange(0, p.len() as int) == p
}

pub open spec fn alias_prefix() -> Seq<char> {
    seq!['a', 'l', 'i', 'a', 's', '.']
}

pub open spec fn env_prefix() -> Seq<char> {
    seq!['e', 'n', 'v', '.']
}

/// Index of the first pair of `s` at or after `i` whose key is `k`, or `s.len()`.
pub open spec fn find_key(s: Seq<Pair>, k: Seq<char>, i: int) -> int
    decreases s.len() - i,
{
    if i < 0 || i >= s.len() {
        s.len() as int
    } else if s[i].0 == k {
        i
    } else {
        find_key(s, k, i + 1)
    }
}

/// `s` with `k` bound to `v`: an existing pair for `k` is replaced, else one is added.
pub open spec fn put_pair(s: Seq<Pair>, k: Seq<char>, v: Seq<char>) -> Seq<Pair> {
    let j = find_key(s, k, 0);
    if 0 <= j < s.len() {
        s.update(j, (k, v))
    } else {
        s.push((k, v))
    }
}

/// No key occurs twice.
pub open spec fn keys_unique(s: Seq<Pair>) -> bool {
    forall|i: int, j: int| 0 <= i < j < s.len() ==> s[i].0 != s[j].0
}

proof fn lemma_find_key(s: Seq<Pair>, k: Seq<char>, i: int)
    requires
        0 <= i <= s.len(),
    ensures
        i <= find_key(s, k, i) <= s.len(),
        find_key(s, k, i) < s.len() ==> s[find_key(s, k, i)].0 == k,
        forall|x: int| i <= x < find_key(s, k, i) ==> s[x].0 != k,
    decreases s.len() - i,
{
    if i < s.len() && s[i].0 != k {
        lemma_find_key(s, k, i + 1);
    }
}

proof fn lemma_put_pair_unique(s: Seq<Pair>, k: Seq<char>, v: Seq<char>)
    requires
        keys_unique(s),
    ensures
        keys_unique(put_pair(s, k, v)),
{
    lemma_find_key(s, k, 0);
    let t = put_pair(s, k, v);
    assert forall|i: int, j: int| 0 <= i < j < t.len() implies t[i].0 != t[j].0 by {
        if j == s.len() {
            assert(s[i].0 != k);
        }
    }
}

/// The effect of one line on `m`, or `None` when the line is rejected.
pub open spec fn apply_line(l: Seq<char>, m: ConfigModel) -> Option<ConfigModel> {
    if l.len() == 0 || l[0] == '#' {
        Some(m)
    } else {
        let e = index_of(l, '=');
        if e >= l.len() {
            None
        } else {
            let key = trimmed(l.subrange(0, e));
            let v = l.subrange(e + 1, l.len() as int);
            if key == seq!['p', 'r', 'o', 'm', 'p', 't'] {
                Some(ConfigModel { prompt: Some(v), ..m })
            } else if key == seq!['h', 'i', 's', 't', 'o', 'r', 'y', '_', 'f', 'i', 'l', 'e'] {
                Some(ConfigModel { history_file: Some(v), ..m })
            } else if key == seq!['h', 'i', 's', 't', 'o', 'r', 'y', '_', 'm', 'a', 'x'] {
                match decimal(v) {
                    Some(n) => Some(ConfigModel { history_max: Some(n), ..m }),
                    None => None,
                }
            } else if key == seq!['e', 'x', 'e', 'c', 'u', 't', 'o', 'r', '_', 't', 'y', 'p', 'e'] {
                Some(
                    ConfigModel {
                        executor_type: Some(
                            if v == seq!['r', 'e', 'c', 'u', 'r', 's', 'i', 'v', 'e'] {
                                ExecutorType::Recursive
                            } else {
                                ExecutorType::Flatten
                            },
                        ),
                        ..m
                    },
                )
            } else if has_prefix(key, alias_prefix()) {
                Some(ConfigModel { aliases: put_pair(m.aliases, key.subrange(6, key.len() as int), v), ..m })
            } else if has_prefix(key, env_prefix()) {
                Some(ConfigModel { env_vars: put_pair(m.env_vars, key.subrange(4, key.len() as int), v), ..m })
            } else {
                None
            }
        }
    }
}

/// `l` without one trailing carriage return.
pub open spec fn strip_cr(l: Seq<char>) -> Seq<char> {
    if l.len() > 0 && l.last() == '\r' {
        l.drop_last()
    } else {
        l
    }
}

/// The lines of `cs` from `i` on: split at line feeds, a final unterminated line kept if non-empty.
pub open spec fn split_from(cs: Seq<char>, i: int, cur: Seq<char>, acc: Seq<Seq<char>>) -> Seq<Seq<char>>
    decreases cs.len() - i,
{
    if i >= cs.len() {
        if cur.len() > 0 {
            acc.push(cur)
        } else {
            acc
        }
    } else if cs[i] == '\n' {
        split_from(cs, i + 1, Seq::empty(), acc.push(cur))
    } else {
        split_from(cs, i + 1, cur.push(cs[i]), acc)
    }
}

pub open spec fn lines_of(cs: Seq<char>) -> Seq<Seq<char>> {
    split_from(cs, 0, Seq::empty(), Seq::empty())
}

/// Applies lines `i..` in order; an error carries the 1-based line number and the line.
pub open spec fn apply_lines(ls: Seq<Seq<char>>, i: int, m: ConfigModel) -> Result<ConfigModel, (nat, Seq<char>)>
    decreases ls.len() - i,
{
    if i < 0 || i >= ls.len() {
        Ok(m)
    } else {
        match apply_line(strip_cr(ls[i]), m) {
            Some(m2) => apply_lines(ls, i + 1, m2),
            None => Err(((i + 1) as nat, strip_cr(ls[i]))),
        }
    }
}

pub open spec fn pairs_view(v: Seq<(String, String)>) -> Seq<Pair> {
    v.map_values(|p: (String, String)| (p.0@, p.1@))
}

impl Config {
    /// `self` holds what `m` set, with defaults for the rest.
    pub open spec fn reflects(&self, m: ConfigModel) -> bool {
        &&& self.prompt@ == (match m.prompt {
            Some(p) => p,
            None => default_prompt(),
        })
        &&& self.history_file@ == (match m.history_file {
            Some(p) => p,
            None => default_history_file(),
        })
        &&& self.history_max == (match m.history_max {
            Some(n) => n,
            None => default_history_max(),
        })
        &&& self.executor_type == (match m.executor_type {
            Some(t) => t,
            None => ExecutorType::Flatten,
        })
        &&& pairs_view(self.aliases@) == m.aliases
        &&& pairs_view(self.env_vars@) == m.env_vars
    }
}

pub open spec fn load_spec(cs: Seq<char>) -> Result<ConfigModel, (nat, Seq<char>)> {
    apply_lines(lines_of(cs), 0, empty_model())
}

fn lit(s: &str) -> (r: Vec<char>)
    ensures
        r@ == s@,
{
    chars_of(s)
}

fn chars_eq(a: &Vec<char>, b: &Vec<char>) -> (r: bool)
    ensures
        r == (a@ == b@),
{
    if a.len() != b.len() {
        return false;
    }
    let mut i: usize = 0;
    while i < a.len()
        invariant
            i <= a.len(),
            a.len() == b.len(),
            forall|j: int| 0 <= j < i ==> a@[j] == b@[j],
        decreases a.len() - i,
    {
        if a[i] != b[i] {
            return false;
        }
        i = i + 1;
    }
    assert(a@ =~= b@);
    true
}

fn starts_with(s: &Vec<char>, p: &Vec<char>) -> (r: bool)
    ensures
        r == has_prefix(s@, p@),
{
    if p.len() > s.len() {
        return false;
    }
    let mut i: usize = 0;
    while i < p.len()
        invariant
            i <= p.len() <= s.len(),
            forall|j: int| 0 <= j < i ==> s@[j] == p@[j],
        decreases p.len() - i,
    {
        if s[i] != p[i] {
            assert(s@.subrange(0, p.len() as int)[i as int] != p@[i as int]);
            return false;
        }
        i = i + 1;
    }
    assert(s@.subrange(0, p.len() as int) =~= p@);
    true
}

fn slice(s: &Vec<char>, a: usize, b: usize) -> (r: Vec<char>)
    requires
        a <= b <= s.len(),
    ensures
        r@ == s@.subrange(a as int, b as int),
{
    let mut out: Vec<char> = Vec::new();
    let mut i = a;
    while i < b
        invariant
            a <= i <= b <= s.len(),
            out@ == s@.subrange(a as int, i as int),
        decreases b - i,
    {
        out.push(s[i]);
        i = i + 1;
        assert(out@ =~= s@.subrange(a as int, i as int));
    }
    out
}

fn trim_chars(s: &Vec<char>) -> (r: Vec<char>)
    ensures
        r@ == trimmed(s@),
{
    let n = s.len();
    let mut a: usize = 0;
    while a < n && is_whitespace(s[a])
        invariant
            a <= n == s.len(),
            crate::text::lead_from(s@, 0) == crate::text::lead_from(s@, a as int),
        decreases n - a,
    {
        a = a + 1;
    }
    let mut b: usize = n;
    while b > a && is_whitespace(s[b - 1])
        invariant
            a <= b <= n == s.len(),
            crate::text::lead_from(s@, 0) == a,
            crate::text::trail_from(s@, a as int, n as int) == crate::text::trail_from(s@, a as int, b as int),
        decreases b - a,
    {
        b = b - 1;
    }
    slice(s, a, b)
}

/// Parses a decimal `usize` (see `decimal`).
pub fn parse_decimal(s: &Vec<char>) -> (r: Option<usize>)
    ensures
        match decimal(s@) {
            Some(n) => r == Some(n as usize),
            None => r is None,
        },
{
    let start: usize = if s.len() > 0 && s[0] == '+' { 1 } else { 0 };
    let ghost d = unsigned_part(s@);
    assert(d =~= s@.subrange(start as int, s.len() as int));
    if start >= s.len() {
        return None;
    }
    let mut v: usize = 0;
    let mut i = start;
    while i < s.len()
        invariant
            start <= i <= s.len(),
            d == unsigned_part(s@),
            d == s@.subrange(start as int, s.len() as int),
            forall|j: int| start <= j < i ==> is_digit(#[trigger] s@[j]),
            v == digits_value(s@.subrange(start as int, i as int)),
        decreases s.len() - i,
    {
        let c = s[i];
        if c < '0' || c > '9' {
            assert(!is_digit(d[i - start]));
            assert(!all_digits(d));
            return None;
        }
        let digit = (c as u32 - '0' as u32) as usize;
        assert(s@.subrange(start as int, i + 1).drop_last() =~= s@.subrange(start as int, i as int));
        if v > (usize::MAX - digit) / 10 {
            proof {
                assert(digits_value(s@.subrange(start as int, i + 1)) == v * 10 + digit);
                assert(v * 10 + digit > usize::MAX) by (nonlinear_arith)
                    requires v > (usize::MAX - digit) / 10, digit <= 9;
                assert(d.subrange(0, (i + 1 - start) as int) =~= s@.subrange(start as int, i + 1));
                if all_digits(d) {
                    lemma_digits_prefix_le(d, (i + 1 - start) as int);
                }
                assert(decimal(s@) is None);
            }
            return None;
        }
        proof {
            assert(v * 10 + digit <= usize::MAX) by (nonlinear_arith)
                requires v <= (usize::MAX - digit) / 10, digit <= 9;
        }
        v = v * 10 + digit;
        i = i + 1;
    }
    assert forall|j: int| 0 <= j < d.len() implies is_digit(#[trigger] d[j]) by {
        assert(d[j] == s@[j + start]);
    }
    assert(all_digits(d));
    assert(d =~= s@.subrange(start as int, i as int));
    Some(v)
}

proof fn lemma_digits_prefix_le(d: Seq<char>, k: int)
    requires
        0 <= k <= d.len(),
        all_digits(d),
    ensures
        digits_value(d.subrange(0, k)) <= digits_value(d),
    decreases d.len() - k,
{
    if k < d.len() {
        lemma_digits_prefix_le(d, k + 1);
        assert(d.subrange(0, k + 1).drop_last() =~= d.subrange(0, k));
    } else {
        assert(d.subrange(0, k) =~= d);
    }
}

fn first_index(s: &Vec<char>, c: char) -> (r: usize)
    ensures
        r == index_of(s@, c),
        r <= s.len(),
{
    let mut i: usize = 0;
    assert(s@.subrange(0, s.len() as int) =~= s@);
    while i < s.len() && s[i] != c
        invariant
            i <= s.len(),
            index_of(s@, c) == i + index_of(s@.subrange(i as int, s.len() as int), c),
        decreases s.len() - i,
    {
        assert(s@.subrange(i as int, s.len() as int).drop_first() =~= s@.subrange(i + 1, s.len() as int));
        i = i + 1;
    }
    if i >= s.len() {
        assert(s@.subrange(i as int, s.len() as int) =~= Seq::<char>::empty());
    }
    i
}

/// The lines of `cs` (see `lines_of`).
fn split_lines(cs: &Vec<char>) -> (r: Vec<Vec<char>>)
    ensures
        r@.map_values(|l: Vec<char>| l@) == lines_of(cs@),
{
    let mut out: Vec<Vec<char>> = Vec::new();
    let mut cur: Vec<char> = Vec::new();
    let mut i: usize = 0;
    assert(out@.map_values(|l: Vec<char>| l@) =~= Seq::<Seq<char>>::empty());
    while i < cs.len()
        invariant
            i <= cs.len(),
            lines_of(cs@) == split_from(cs@, i as int, cur@, out@.map_values(|l: Vec<char>| l@)),
        decreases cs.len() - i,
    {
        let ghost before = out@.map_values(|l: Vec<char>| l@);
        if cs[i] == '\n' {
            let ghost cv = cur@;
            out.push(cur);
            cur = Vec::new();
            assert(out@.map_values(|l: Vec<char>| l@) =~= before.push(cv));
            assert(cur@ =~= Seq::<char>::empty());
        } else {
            cur.push(cs[i]);
        }
        i = i + 1;
    }
    if cur.len() > 0 {
        let ghost before = out@.map_values(|l: Vec<char>| l@);
        let ghost cv = cur@;
        out.push(cur);
        assert(out@.map_values(|l: Vec<char>| l@) =~= before.push(cv));
    }
    out
}

fn put_pair_exec(v: &mut Vec<(String, String)>, k: &Vec<char>, val: &Vec<char>)
    ensures
        pairs_view(final(v)@) == put_pair(pairs_view(old(v)@), k@, val@),
{
    let ghost s = pairs_view(v@);
    let ks = string_from_chars(k);
    let mut i: usize = 0;
    while i < v.len()
        invariant
            i <= v.len(),
            s == pairs_view(v@),
            *v == *old(v),
            ks@ == k@,
            find_key(s, k@, 0) == find_key(s, k@, i as int),
        decreases v.len() - i,
    {
        if crate::text::str_eq(v[i].0.as_str(), ks.as_str()) {
            v.set(i, (ks, string_from_chars(val)));
            assert(pairs_view(v@) =~= s.update(i as int, (k@, val@)));
            return;
        }
        i = i + 1;
    }
    v.push((ks, string_from_chars(val)));
    assert(pairs_view(v@) =~= s.push((k@, val@)));
}

impl ConfigLoader {
    pub fn default_config() -> (r: Config)
        ensures
            r.reflects(empty_model()),
    {
        let r = Config {
            prompt: string_from_chars(&lit("$ ")),
            history_file: string_from_chars(&lit("~/.tiny_shell_history")),
            history_max: 500,
            executor_type: ExecutorType::Flatten,
            aliases: Vec::new(),
            env_vars: Vec::new(),
        };
        proof {
            reveal_strlit("$ ");
            reveal_strlit("~/.tiny_shell_history");
            assert(r.prompt@ =~= default_prompt());
            assert(r.history_file@ =~= default_history_file());
            assert(pairs_view(r.aliases@) =~= Seq::<Pair>::empty());
            assert(pairs_view(r.env_vars@) =~= Seq::<Pair>::empty());
        }
        r
    }

    /// Parses configuration text: `key=value` lines, `#` comments and blank lines.
    pub fn load_from_str(src: &str) -> (r: Result<Config, ConfigError>)
        ensures
            match load_spec(src@) {
                Ok(m) => r is Ok && r->Ok_0.reflects(m) && keys_unique(m.aliases) && keys_unique(m.env_vars),
                Err((n, line)) => r is Err && (r->Err_0 matches ConfigError::Parse(k, l) && k == n && l@ == line),
            },
    {
        let cs = chars_of(src);
        let lines = split_lines(&cs);
        let ghost lv = lines@.map_values(|l: Vec<char>| l@);
        let mut cfg = ConfigLoader::default_config();
        let ghost mut m = empty_model();
        let mut has_prompt = false;
        let mut has_file = false;
        let mut has_max = false;
        let mut has_type = false;
        let k_prompt = lit("prompt");
        let k_file = lit("history_file");
        let k_max = lit("history_max");
        let k_type = lit("executor_type");
        let v_rec = lit("recursive");
        let p_alias = lit("alias.");
        let p_env = lit("env.");
        proof {
            reveal_strlit("prompt");
            reveal_strlit("history_file");
            reveal_strlit("history_max");
            reveal_strlit("executor_type");
            reveal_strlit("recursive");
            reveal_strlit("alias.");
            reveal_strlit("env.");
        }
        let mut i: usize = 0;
        while i < lines.len()
            invariant
                i <= lines.len(),
                lv == lines@.map_values(|l: Vec<char>| l@),
                lv == lines_of(src@),
                load_spec(src@) == apply_lines(lv, i as int, m),
                cfg.reflects(m),
                keys_unique(m.aliases),
                keys_unique(m.env_vars),
                has_prompt == (m.prompt is Some),
                has_file == (m.history_file is Some),
                has_max == (m.history_max is Some),
                has_type == (m.executor_type is Some),
                k_prompt@ == seq!['p', 'r', 'o', 'm', 'p', 't'],
                k_file@ == seq!['h', 'i', 's', 't', 'o', 'r', 'y', '_', 'f', 'i', 'l', 'e'],
                k_max@ == seq!['h', 'i', 's', 't', 'o', 'r', 'y', '_', 'm', 'a', 'x'],
                k_type@ == seq!['e', 'x', 'e', 'c', 'u', 't', 'o', 'r', '_', 't', 'y', 'p', 'e'],
                v_rec@ == seq!['r', 'e', 'c', 'u', 'r', 's', 'i', 'v', 'e'],
                p_alias@ == alias_prefix(),
                p_env@ == env_prefix(),
            decreases lines.len() - i,
        {
            let raw = &lines[i];
            let l = if raw.len() > 0 && raw[raw.len() - 1] == '\r' {
                slice(raw, 0, raw.len() - 1)
            } else {
                slice(raw, 0, raw.len())
            };
            assert(l@ =~= strip_cr(lv[i as int]));
            if l.len() == 0 || l[0] == '#' {
                i = i + 1;
                continue;
            }
            let e = first_index(&l, '=');
            if e >= l.len() {
                return Err(ConfigError::Parse(i + 1, string_from_chars(&l)));
            }
            let key = trim_chars(&slice(&l, 0, e));
            let v = slice(&l, e + 1, l.len());
            if chars_eq(&key, &k_prompt) {
                cfg.prompt = string_from_chars(&v);
                has_prompt = true;
                proof {
                    m = ConfigModel { prompt: Some(v@), ..m };
                }
            } else if chars_eq(&key, &k_file) {
                cfg.history_file = string_from_chars(&v);
                has_file = true;
                proof {
                    m = ConfigModel { history_file: Some(v@), ..m };
                }
            } else if chars_eq(&key, &k_max) {
                match parse_decimal(&v) {
                    Some(n) => {
                        cfg.history_max = n;
                        has_max = true;
                        proof {
                            m = ConfigModel { history_max: Some(n as nat), ..m };
                        }
                    },
                    None => {
                        return Err(ConfigError::Parse(i + 1, string_from_chars(&l)));
                    },
                }
            } else if chars_eq(&key, &k_type) {
                let t = if chars_eq(&v, &v_rec) {
                    ExecutorType::Recursive
                } else {
                    ExecutorType::Flatten
                };
                cfg.executor_type = t;
                has_type = true;
                proof {
                    m = ConfigModel { executor_type: Some(t), ..m };
                }
            } else if starts_with(&key, &p_alias) {
                let name = slice(&key, 6, key.len());
                put_pair_exec(&mut cfg.aliases, &name, &v);
                proof {
                    lemma_put_pair_unique(m.aliases, name@, v@);
                    m = ConfigModel { aliases: put_pair(m.aliases, name@, v@), ..m };
                }
            } else if starts_with(&key, &p_env) {
                let name = slice(&key, 4, key.len());
                put_pair_exec(&mut cfg.env_vars, &name, &v);
                proof {
                    lemma_put_pair_unique(m.env_vars, name@, v@);
                    m = ConfigModel { env_vars: put_pair(m.env_vars, name@, v@), ..m };
                }
            } else {
                return Err(ConfigError::Parse(i + 1, string_from_chars(&l)));
            }
            i = i + 1;
        }
        Ok(cfg)
    }
}

} // verus!
