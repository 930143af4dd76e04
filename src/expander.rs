use vstd::prelude::*;
use crate::ast::{Ast, AstNode, CommandNode, models, lemma_models_of_vec, strings_view};
use crate::environment::{EnvMap, Environment};
use crate::lexer::find_close;
use crate::glob::{glob_expand, glob_spec};
use crate::text::{chars_of, string_from_chars};

verus! {

broadcast use vstd::std_specs::vec::axiom_vec_index_decreases;

/// Why a word could not be expanded.
#[derive(Debug, Clone, PartialEq, Eq)]
pub enum ExpandError {
    InvalidVariableSyntax,
    CommandSubstitutionFailed(String),
    GlobPatternError(String),
    /// `HOME` is not set; carries the word.
    TildeExpandFailed(String),
    Unsupported(String),
}

pub open spec fn is_var_start(c: char) -> bool {
    ('a' <= c <= 'z') || ('A' <= c <= 'Z') || c == '_'
}

pub open spec fn is_var_part(c: char) -> bool {
    is_var_start(c) || ('0' <= c <= '9')
}

/// End of the variable name that starts at `k`.
pub open spec fn name_end(cs: Seq<char>, k: int) -> int
    decreases cs.len() - k,
{
    if 0 <= k < cs.len() && is_var_part(cs[k]) {
        name_end(cs, k + 1)
    } else {
        k
    }
}

/// The value of variable `name` in `m`, empty when unset.
pub open spec fn lookup(m: EnvMap, name: Seq<char>) -> Seq<char> {
    if m.contains_key(name) {
        m[name].0
    } else {
        Seq::empty()
    }
}

/// An escaped character after substitution: a wildcard keeps its backslash, for globbing to
/// take it literally; any other character stands alone.
pub open spec fn kept_escape(c: char) -> Seq<char> {
    if crate::glob::is_glob_char(c) {
        seq!['\\', c]
    } else {
        seq![c]
    }
}

/// Variable substitution of `cs` from `i` on, appended to `acc`.
pub open spec fn subst(cs: Seq<char>, i: int, m: EnvMap, acc: Seq<char>) -> Seq<char>
    decreases cs.len() - i,
{
    if i < 0 || i >= cs.len() {
        acc
    } else if cs[i] == '\\' {
        if i + 1 < cs.len() {
            subst(cs, i + 2, m, acc + kept_escape(cs[i + 1]))
        } else {
            acc
        }
    } else if cs[i] == '$' && i + 1 < cs.len() && cs[i + 1] == '{' {
        let j = find_close(cs, i + 2, '}');
        if j < i + 2 || j > cs.len() {
            acc
        } else {
            subst(
                cs,
                if j < cs.len() {
                    j + 1
                } else {
                    j
                },
                m,
                acc + lookup(m, cs.subrange(i + 2, j)),
            )
        }
    } else if cs[i] == '$' && i + 1 < cs.len() && is_var_start(cs[i + 1]) {
        let j = name_end(cs, i + 1);
        if j <= i || j > cs.len() {
            acc
        } else {
            subst(cs, j, m, acc + lookup(m, cs.subrange(i + 1, j)))
        }
    } else {
        subst(cs, i + 1, m, acc.push(cs[i]))
    }
}

/// `$NAME` and `${NAME}` replaced by their values, `\c` by `c` (by `\c` for a wildcard `c`).
pub open spec fn substitute_spec(cs: Seq<char>, m: EnvMap) -> Seq<char> {
    subst(cs, 0, m, Seq::empty())
}

/// Whether a leading `~` of `cs` stands for the home directory.
pub open spec fn tilde_applies(cs: Seq<char>) -> bool {
    cs.len() > 0 && cs[0] == '~' && (cs.len() == 1 || !is_var_part(cs[1]))
}

/// Tilde expansion: `None` when it applies and `HOME` is unset.
pub open spec fn tilde_spec(cs: Seq<char>, m: EnvMap) -> Option<Seq<char>> {
    if tilde_applies(cs) {
        if m.contains_key(seq!['H', 'O', 'M', 'E']) {
            Some(m[seq!['H', 'O', 'M', 'E']].0 + cs.drop_first())
        } else {
            None
        }
    } else {
        Some(cs)
    }
}

/// A word after tilde expansion and variable substitution; `None` when `HOME` is needed and unset.
pub open spec fn expand_word_spec(cs: Seq<char>, m: EnvMap) -> Option<Seq<char>> {
    match tilde_spec(cs, m) {
        Some(t) => Some(substitute_spec(t, m)),
        None => None,
    }
}

/// The fields of the words `ws`, each expanded and then matched against `names`, in order;
/// `None` when one of them fails.
pub open spec fn expand_words_spec(ws: Seq<Seq<char>>, m: EnvMap, names: Seq<Seq<char>>) -> Option<Seq<Seq<char>>>
    decreases ws.len(),
{
    if ws.len() == 0 {
        Some(Seq::empty())
    } else {
        match (expand_words_spec(ws.drop_last(), m, names), expand_word_spec(ws.last(), m)) {
            (Some(a), Some(w)) => Some(a + glob_spec(w, names)),
            _ => None,
        }
    }
}

/// The single field a word stands for where only one fits: the first of its fields.
pub open spec fn single_field_spec(cs: Seq<char>, m: EnvMap, names: Seq<Seq<char>>) -> Option<Seq<char>> {
    match expand_word_spec(cs, m) {
        Some(w) => Some(glob_spec(w, names)[0]),
        None => None,
    }
}

/// What expansion makes of a tree; `None` when a word fails to expand.
pub open spec fn expand_spec(n: &AstNode, m: EnvMap, names: Seq<Seq<char>>) -> Option<Ast>
    decreases n,
{
    match n {
        AstNode::Command(c) => match (single_field_spec(c.name@, m, names), expand_words_spec(strings_view(c.args@), m, names)) {
            (Some(name), Some(args)) => Some(Ast::Cmd(name, args, c.kind)),
            _ => None,
        },
        AstNode::Pipeline(v) => if forall|i: int| 0 <= i < v.len() ==> expand_spec(#[trigger] &v[i], m, names) is Some {
            Some(Ast::Pipe(Seq::new(v.len() as nat, |i: int| if 0 <= i < v.len() { expand_spec(&v[i], m, names)->Some_0 } else { Ast::Pipe(Seq::empty()) })))
        } else {
            None
        },
        AstNode::Sequence(v) => if forall|i: int| 0 <= i < v.len() ==> expand_spec(#[trigger] &v[i], m, names) is Some {
            Some(Ast::Sequence(Seq::new(v.len() as nat, |i: int| if 0 <= i < v.len() { expand_spec(&v[i], m, names)->Some_0 } else { Ast::Pipe(Seq::empty()) })))
        } else {
            None
        },
        AstNode::Redirect { node, kind, file } => match (expand_spec(node, m, names), single_field_spec(file@, m, names)) {
            (Some(a), Some(f)) => Some(Ast::Redir(Box::new(a), *kind, f)),
            _ => None,
        },
        AstNode::And(l, r) => match (expand_spec(l, m, names), expand_spec(r, m, names)) {
            (Some(a), Some(b)) => Some(Ast::And(Box::new(a), Box::new(b))),
            _ => None,
        },
        AstNode::Or(l, r) => match (expand_spec(l, m, names), expand_spec(r, m, names)) {
            (Some(a), Some(b)) => Some(Ast::Or(Box::new(a), Box::new(b))),
            _ => None,
        },
        AstNode::Subshell(inner) => match expand_spec(inner, m, names) {
            Some(a) => Some(Ast::Subshell(Box::new(a))),
            None => None,
        },
    }
}

fn is_var_start_char(c: char) -> (r: bool)
    ensures
        r == is_var_start(c),
{
    ('a' <= c && c <= 'z') || ('A' <= c && c <= 'Z') || c == '_'
}

fn is_var_char(c: char) -> (r: bool)
    ensures
        r == is_var_part(c),
{
    is_var_start_char(c) || ('0' <= c && c <= '9')
}

fn append_chars(out: &mut Vec<char>, s: &str)
    ensures
        final(out)@ == old(out)@ + s@,
{
    let cs = chars_of(s);
    let mut k: usize = 0;
    while k < cs.len()
        invariant
            k <= cs.len(),
            cs@ == s@,
            out@ == old(out)@ + cs@.subrange(0, k as int),
        decreases cs.len() - k,
    {
        out.push(cs[k]);
        k = k + 1;
        assert(out@ =~= old(out)@ + cs@.subrange(0, k as int));
    }
    assert(cs@.subrange(0, k as int) =~= cs@);
}

/// Expands words against an environment and the names of the working directory.
pub struct Expander<'a> {
    env: &'a Environment,
    names: Vec<String>,
}

impl<'a> Expander<'a> {
    pub closed spec fn env_map(&self) -> EnvMap {
        self.env.view()
    }

    /// The names wildcards are matched against.
    pub closed spec fn names(&self) -> Seq<Seq<char>> {
        strings_view(self.names@)
    }

    pub closed spec fn wf(&self) -> bool {
        self.env.wf()
    }

    /// An expander with no directory names: wildcards then stay as written.
    pub fn new(env: &'a Environment) -> (r: Self)
        requires
            env.wf(),
        ensures
            r.wf(),
            r.env_map() == env.view(),
            r.names() == Seq::<Seq<char>>::empty(),
    {
        let r = Expander { env, names: Vec::new() };
        assert(r.names() =~= Seq::<Seq<char>>::empty());
        r
    }

    /// An expander matching wildcards against `names`, the entries of the working directory.
    pub fn with_names(env: &'a Environment, names: Vec<String>) -> (r: Self)
        requires
            env.wf(),
        ensures
            r.wf(),
            r.env_map() == env.view(),
            r.names() == strings_view(names@),
    {
        Expander { env, names }
    }

    fn append_var(&self, out: &mut Vec<char>, name: &Vec<char>)
        requires
            self.wf(),
        ensures
            final(out)@ == old(out)@ + lookup(self.env_map(), name@),
    {
        let key = string_from_chars(name);
        match self.env.get(key.as_str()) {
            Some(v) => append_chars(out, v),
            None => {
                assert(old(out)@ + lookup(self.env_map(), name@) =~= old(out)@);
            },
        }
    }

    /// Replaces `$NAME` and `${NAME}` by their values (empty when unset) and `\c` by `c`
    /// (a wildcard `c` keeps its backslash for globbing).
    pub fn substitute_vars(&self, input: &str) -> (r: String)
        requires
            self.wf(),
        ensures
            r@ == substitute_spec(input@, self.env_map()),
    {
        let cs = chars_of(input);
        let n = cs.len();
        let mut out: Vec<char> = Vec::new();
        let mut i: usize = 0;
        while i < n
            invariant
                n == cs.len(),
                cs@ == input@,
                i <= n,
                self.wf(),
                substitute_spec(cs@, self.env_map()) == subst(cs@, i as int, self.env_map(), out@),
            decreases n - i,
        {
            let c = cs[i];
            if c == '\\' {
                if i + 1 < n {
                    let d = cs[i + 1];
                    let ghost before = out@;
                    if d == '*' || d == '?' || d == '[' {
                        out.push('\\');
                    }
                    out.push(d);
                    assert(out@ =~= before + kept_escape(d));
                    i = i + 2;
                } else {
                    i = n;
                }
            } else if c == '$' && i + 1 < n && cs[i + 1] == '{' {
                let mut j = i + 2;
                let mut name: Vec<char> = Vec::new();
                while j < n && cs[j] != '}'
                    invariant
                        n == cs.len(),
                        i + 2 <= j <= n,
                        find_close(cs@, i + 2, '}') == find_close(cs@, j as int, '}'),
                        name@ == cs@.subrange(i + 2, j as int),
                    decreases n - j,
                {
                    name.push(cs[j]);
                    j = j + 1;
                    assert(name@ =~= cs@.subrange(i + 2, j as int));
                }
                self.append_var(&mut out, &name);
                i = if j < n { j + 1 } else { n };
            } else if c == '$' && i + 1 < n && is_var_start_char(cs[i + 1]) {
                let mut j = i + 1;
                let mut name: Vec<char> = Vec::new();
                while j < n && is_var_char(cs[j])
                    invariant
                        n == cs.len(),
                        i + 1 <= j <= n,
                        name_end(cs@, i + 1) == name_end(cs@, j as int),
                        name@ == cs@.subrange(i + 1, j as int),
                    decreases n - j,
                {
                    name.push(cs[j]);
                    j = j + 1;
                    assert(name@ =~= cs@.subrange(i + 1, j as int));
                }
                self.append_var(&mut out, &name);
                i = j;
            } else {
                out.push(c);
                i = i + 1;
            }
        }
        string_from_chars(&out)
    }

    fn expand_tilde(&self, arg: &str) -> (r: Result<String, ExpandError>)
        requires
            self.wf(),
        ensures
            match tilde_spec(arg@, self.env_map()) {
                Some(t) => r is Ok && r->Ok_0@ == t,
                None => r is Err && r->Err_0 is TildeExpandFailed,
            },
    {
        let cs = chars_of(arg);
        if cs.len() > 0 && cs[0] == '~' && (cs.len() == 1 || !is_var_char(cs[1])) {
            let home_key = chars_of("HOME");
            proof {
                reveal_strlit("HOME");
            }
            let key = string_from_chars(&home_key);
            assert(key@ =~= seq!['H', 'O', 'M', 'E']);
            match self.env.get(key.as_str()) {
                Some(h) => {
                    let mut out: Vec<char> = Vec::new();
                    append_chars(&mut out, h);
                    let mut k: usize = 1;
                    let ghost base = out@;
                    while k < cs.len()
                        invariant
                            1 <= k <= cs.len(),
                            out@ == base + cs@.subrange(1, k as int),
                        decreases cs.len() - k,
                    {
                        out.push(cs[k]);
                        k = k + 1;
                        assert(out@ =~= base + cs@.subrange(1, k as int));
                    }
                    assert(cs@.subrange(1, k as int) =~= cs@.drop_first());
                    Ok(string_from_chars(&out))
                },
                None => Err(ExpandError::TildeExpandFailed(string_from_chars(&cs))),
            }
        } else {
            Ok(string_from_chars(&cs))
        }
    }

    /// Tilde expansion then variable substitution of one word.
    pub fn expand_word(&self, arg: &str) -> (r: Result<String, ExpandError>)
        requires
            self.wf(),
        ensures
            match expand_word_spec(arg@, self.env_map()) {
                Some(w) => r is Ok && r->Ok_0@ == w,
                None => r is Err && r->Err_0 is TildeExpandFailed,
            },
    {
        match self.expand_tilde(arg) {
            Ok(t) => Ok(self.substitute_vars(t.as_str())),
            Err(e) => Err(e),
        }
    }

    /// The fields one argument expands to: the word after tilde expansion and variable
    /// substitution, replaced by the names it matches when it has wildcards.
    pub fn expand_arg(&self, arg: &str) -> (r: Result<Vec<String>, ExpandError>)
        requires
            self.wf(),
        ensures
            match expand_word_spec(arg@, self.env_map()) {
                Some(w) => r is Ok && strings_view(r->Ok_0@) == glob_spec(w, self.names()),
                None => r is Err && r->Err_0 is TildeExpandFailed,
            },
    {
        match self.expand_word(arg) {
            Ok(w) => Ok(glob_expand(w.as_str(), &self.names)),
            Err(e) => Err(e),
        }
    }

    fn single_field(&self, arg: &str) -> (r: Result<String, ExpandError>)
        requires
            self.wf(),
        ensures
            match single_field_spec(arg@, self.env_map(), self.names()) {
                Some(w) => r is Ok && r->Ok_0@ == w,
                None => r is Err && r->Err_0 is TildeExpandFailed,
            },
    {
        match self.expand_arg(arg) {
            Ok(v) => {
                proof {
                    let w = expand_word_spec(arg@, self.env_map())->Some_0;
                    assert(glob_spec(w, self.names()).len() > 0);
                }
                Ok(v[0].clone())
            },
            Err(e) => Err(e),
        }
    }

    /// Heredoc text: unchanged when `quoted`, otherwise with variables substituted.
    pub fn expand_heredoc(&self, content: &str, quoted: bool) -> (r: Result<String, ExpandError>)
        requires
            self.wf(),
        ensures
            r is Ok,
            quoted ==> r->Ok_0@ == content@,
            !quoted ==> r->Ok_0@ == substitute_spec(content@, self.env_map()),
    {
        if quoted {
            Ok(string_from_chars(&chars_of(content)))
        } else {
            Ok(self.substitute_vars(content))
        }
    }

    fn expand_args(&self, args: &Vec<String>) -> (r: Result<Vec<String>, ExpandError>)
        requires
            self.wf(),
        ensures
            match expand_words_spec(strings_view(args@), self.env_map(), self.names()) {
                Some(ws) => r is Ok && strings_view(r->Ok_0@) == ws,
                None => r is Err && r->Err_0 is TildeExpandFailed,
            },
    {
        let mut out: Vec<String> = Vec::new();
        let mut i: usize = 0;
        assert(strings_view(args@).subrange(0, 0) =~= Seq::<Seq<char>>::empty());
        assert(strings_view(out@) =~= Seq::<Seq<char>>::empty());
        while i < args.len()
            invariant
                i <= args.len(),
                self.wf(),
                expand_words_spec(strings_view(args@).subrange(0, i as int), self.env_map(), self.names()) == Some(
                    strings_view(out@),
                ),
            decreases args.len() - i,
        {
            let ghost sub = strings_view(args@).subrange(0, i + 1);
            assert(sub.drop_last() =~= strings_view(args@).subrange(0, i as int));
            match self.expand_arg(args[i].as_str()) {
                Ok(fields) => {
                    let ghost before = strings_view(out@);
                    let mut k: usize = 0;
                    while k < fields.len()
                        invariant
                            k <= fields.len(),
                            strings_view(out@) == before + strings_view(fields@).subrange(0, k as int),
                        decreases fields.len() - k,
                    {
                        let f = fields[k].clone();
                        let ghost fv = f@;
                        let ghost prev = strings_view(out@);
                        out.push(f);
                        assert(strings_view(out@) =~= prev.push(fv));
                        assert(strings_view(fields@).subrange(0, k + 1) =~= strings_view(fields@).subrange(0, k as int).push(fv));
                        k = k + 1;
                        assert(strings_view(out@) =~= before + strings_view(fields@).subrange(0, k as int));
                    }
                    assert(strings_view(fields@).subrange(0, k as int) =~= strings_view(fields@));
                },
                Err(e) => {
                    proof {
                        lemma_words_prefix_none(strings_view(args@), i + 1, self.env_map(), self.names());
                    }
                    return Err(e);
                },
            }
            i = i + 1;
        }
        assert(strings_view(args@).subrange(0, i as int) =~= strings_view(args@));
        Ok(out)
    }

    fn expand_list(&self, v: &Vec<AstNode>) -> (r: Result<Vec<AstNode>, ExpandError>)
        requires
            self.wf(),
        ensures
            match r {
                Ok(out) => out.len() == v.len() && forall|i: int|
                    0 <= i < v.len() ==> expand_spec(&v[i], self.env_map(), self.names()) == Some(#[trigger] out@[i].model()),
                Err(e) => e is TildeExpandFailed && exists|i: int| 0 <= i < v.len() && expand_spec(#[trigger] &v[i], self.env_map(), self.names()) is None,
            },
        decreases v, 0int,
    {
        let mut out: Vec<AstNode> = Vec::new();
        let mut i: usize = 0;
        while i < v.len()
            invariant
                i <= v.len(),
                self.wf(),
                out.len() == i,
                forall|k: int| 0 <= k < i ==> expand_spec(&v[k], self.env_map(), self.names()) == Some(#[trigger] out@[k].model()),
            decreases v.len() - i,
        {
            match self.expand(&v[i]) {
                Ok(a) => {
                    out.push(a);
                },
                Err(e) => {
                    return Err(e);
                },
            }
            i = i + 1;
        }
        Ok(out)
    }

    /// Expands every word of the tree: command names and arguments and redirection files.
    pub fn expand(&self, node: &AstNode) -> (r: Result<AstNode, ExpandError>)
        requires
            self.wf(),
        ensures
            match expand_spec(node, self.env_map(), self.names()) {
                Some(a) => r is Ok && r->Ok_0.model() == a,
                None => r is Err && r->Err_0 is TildeExpandFailed,
            },
        decreases node, 1int,
    {
        match node {
            AstNode::Command(c) => {
                let name = self.single_field(c.name.as_str());
                let args = self.expand_args(&c.args);
                match (name, args) {
                    (Ok(n), Ok(a)) => Ok(AstNode::Command(CommandNode { name: n, args: a, kind: c.kind })),
                    (Err(e), _) => Err(e),
                    (_, Err(e)) => Err(e),
                }
            },
            AstNode::Pipeline(v) => match self.expand_list(v) {
                Ok(out) => {
                    proof {
                        lemma_models_of_vec(out);
                        let m = self.env_map();
                        let nm = self.names();
                        assert forall|i: int| 0 <= i < v.len() implies expand_spec(#[trigger] &v[i], m, nm) is Some by {
                            assert(expand_spec(&v[i], m, nm) == Some(out@[i].model()));
                        }
                        let x = expand_spec(node, m, nm)->Some_0;
                        assert forall|i: int| 0 <= i < v.len() implies #[trigger] x->Pipe_0[i] == models(out@)[i] by {
                            assert(expand_spec(&v[i], m, nm) == Some(out@[i].model()));
                        }
                        assert(x->Pipe_0 =~= models(out@));
                    }
                    Ok(AstNode::Pipeline(out))
                },
                Err(e) => Err(e),
            },
            AstNode::Sequence(v) => match self.expand_list(v) {
                Ok(out) => {
                    proof {
                        lemma_models_of_vec(out);
                        let m = self.env_map();
                        let nm = self.names();
                        assert forall|i: int| 0 <= i < v.len() implies expand_spec(#[trigger] &v[i], m, nm) is Some by {
                            assert(expand_spec(&v[i], m, nm) == Some(out@[i].model()));
                        }
                        let x = expand_spec(node, m, nm)->Some_0;
                        assert forall|i: int| 0 <= i < v.len() implies #[trigger] x->Sequence_0[i] == models(out@)[i] by {
                            assert(expand_spec(&v[i], m, nm) == Some(out@[i].model()));
                        }
                        assert(x->Sequence_0 =~= models(out@));
                    }
                    Ok(AstNode::Sequence(out))
                },
                Err(e) => Err(e),
            },
            AstNode::Redirect { node: inner, kind, file } => {
                let a = self.expand(inner);
                let f = self.single_field(file.as_str());
                match (a, f) {
                    (Ok(a), Ok(f)) => Ok(AstNode::Redirect { node: Box::new(a), kind: *kind, file: f }),
                    (Err(e), _) => Err(e),
                    (_, Err(e)) => Err(e),
                }
            },
            AstNode::And(l, r) => {
                let a = self.expand(l);
                let b = self.expand(r);
                match (a, b) {
                    (Ok(a), Ok(b)) => Ok(AstNode::And(Box::new(a), Box::new(b))),
                    (Err(e), _) => Err(e),
                    (_, Err(e)) => Err(e),
                }
            },
            AstNode::Or(l, r) => {
                let a = self.expand(l);
                let b = self.expand(r);
                match (a, b) {
                    (Ok(a), Ok(b)) => Ok(AstNode::Or(Box::new(a), Box::new(b))),
                    (Err(e), _) => Err(e),
                    (_, Err(e)) => Err(e),
                }
            },
            AstNode::Subshell(inner) => match self.expand(inner) {
                Ok(a) => Ok(AstNode::Subshell(Box::new(a))),
                Err(e) => Err(e),
            },
        }
    }
}

proof fn lemma_words_prefix_none(ws: Seq<Seq<char>>, k: int, m: EnvMap, names: Seq<Seq<char>>)
    requires
        0 <= k <= ws.len(),
        expand_words_spec(ws.subrange(0, k), m, names) is None,
    ensures
        expand_words_spec(ws, m, names) is None,
    decreases ws.len() - k,
{
    if k < ws.len() {
        assert(ws.subrange(0, k + 1).drop_last() =~= ws.subrange(0, k));
        lemma_words_prefix_none(ws, k + 1, m, names);
    } else {
        assert(ws.subrange(0, k) =~= ws);
    }
}

} // verus!
