use vstd::prelude::*;
use crate::ast::strings_view;
use crate::config::{decimal, parse_decimal};
use crate::environment::{EnvMap, Environment, export_spec, set_spec};
use crate::executor::{ExecError, ExecOutcome};
use crate::history::HistoryManager;
use crate::text::{chars_of, str_eq, string_from_chars};

verus! {

/// What a built-in asks of the shell, besides its outcome.
#[derive(Debug, Clone, PartialEq, Eq)]
pub struct BuiltinResult {
    pub outcome: ExecOutcome,
    /// Text to write to standard output.
    pub stdout: String,
    /// Text to write to standard error.
    pub stderr: String,
    /// A directory to change to; when that fails the status becomes 1.
    pub chdir: Option<String>,
}

pub open spec fn builtin_names() -> Seq<Seq<char>> {
    seq!["cd"@, "help"@, "exit"@, "export"@, "history"@]
}

/// Whether `cmd` names a built-in.
pub fn is_builtin_command(cmd: &str) -> (r: bool)
    ensures
        r == builtin_names().contains(cmd@),
{
    let r = str_eq(cmd, "cd") || str_eq(cmd, "help") || str_eq(cmd, "exit") || str_eq(cmd, "export") || str_eq(
        cmd,
        "history",
    );
    proof {
        if r {
            if cmd@ == "cd"@ {
                assert(builtin_names()[0] == cmd@);
            } else if cmd@ == "help"@ {
                assert(builtin_names()[1] == cmd@);
            } else if cmd@ == "exit"@ {
                assert(builtin_names()[2] == cmd@);
            } else if cmd@ == "export"@ {
                assert(builtin_names()[3] == cmd@);
            } else {
                assert(builtin_names()[4] == cmd@);
            }
        } else {
            assert(!builtin_names().contains(cmd@)) by {
                if builtin_names().contains(cmd@) {
                    let i = choose|i: int| 0 <= i < builtin_names().len() && builtin_names()[i] == cmd@;
                    assert(i == 0 || i == 1 || i == 2 || i == 3 || i == 4);
                }
            }
        }
    }
    r
}

/// The built-in commands.
#[derive(Debug, Clone, Copy, PartialEq, Eq, Structural)]
pub enum Builtin {
    Cd,
    Help,
    Exit,
    Export,
    History,
}

/// The built-in a name stands for.
pub open spec fn builtin_of(name: Seq<char>) -> Option<Builtin> {
    if name == "cd"@ {
        Some(Builtin::Cd)
    } else if name == "help"@ {
        Some(Builtin::Help)
    } else if name == "exit"@ {
        Some(Builtin::Exit)
    } else if name == "export"@ {
        Some(Builtin::Export)
    } else if name == "history"@ {
        Some(Builtin::History)
    } else {
        None
    }
}

fn builtin_named(name: &str) -> (r: Option<Builtin>)
    ensures
        r == builtin_of(name@),
{
    if str_eq(name, "cd") {
        Some(Builtin::Cd)
    } else if str_eq(name, "help") {
        Some(Builtin::Help)
    } else if str_eq(name, "exit") {
        Some(Builtin::Exit)
    } else if str_eq(name, "export") {
        Some(Builtin::Export)
    } else if str_eq(name, "history") {
        Some(Builtin::History)
    } else {
        None
    }
}

/// A registry entry: a command name and the built-in it runs.
pub type Entry = (Seq<char>, Builtin);

/// Index of the first entry of `s` at or after `i` named `k`, or `s.len()`.
pub open spec fn find_name(s: Seq<Entry>, k: Seq<char>, i: int) -> int
    decreases s.len() - i,
{
    if i < 0 || i >= s.len() {
        s.len() as int
    } else if s[i].0 == k {
        i
    } else {
        find_name(s, k, i + 1)
    }
}

/// The built-in registered under `k`, if any.
pub open spec fn lookup_spec(s: Seq<Entry>, k: Seq<char>) -> Option<Builtin> {
    let j = find_name(s, k, 0);
    if 0 <= j < s.len() {
        Some(s[j].1)
    } else {
        None
    }
}

/// `s` with `k` registered to run `b`: an entry for `k` is replaced, else one is added.
pub open spec fn register_spec(s: Seq<Entry>, k: Seq<char>, b: Builtin) -> Seq<Entry> {
    let j = find_name(s, k, 0);
    if 0 <= j < s.len() {
        s.update(j, (k, b))
    } else {
        s.push((k, b))
    }
}

pub open spec fn names_unique(s: Seq<Entry>) -> bool {
    forall|i: int, j: int| 0 <= i < j < s.len() ==> s[i].0 != s[j].0
}

proof fn lemma_find_name(s: Seq<Entry>, k: Seq<char>, i: int)
    requires
        0 <= i <= s.len(),
    ensures
        i <= find_name(s, k, i) <= s.len(),
        find_name(s, k, i) < s.len() ==> s[find_name(s, k, i)].0 == k,
        forall|x: int| i <= x < find_name(s, k, i) ==> s[x].0 != k,
    decreases s.len() - i,
{
    if i < s.len() && s[i].0 != k {
        lemma_find_name(s, k, i + 1);
    }
}

/// In a registry without repeated names, the entry for a name is the one with that name.
proof fn lemma_lookup_at(s: Seq<Entry>, x: int)
    requires
        names_unique(s),
        0 <= x < s.len(),
    ensures
        lookup_spec(s, s[x].0) == Some(s[x].1),
{
    lemma_find_name(s, s[x].0, 0);
}

/// Registering `k` to run `b` makes `k` run `b` and leaves every other name as it was.
pub proof fn lemma_register(s: Seq<Entry>, k: Seq<char>, b: Builtin, k2: Seq<char>)
    requires
        names_unique(s),
    ensures
        names_unique(register_spec(s, k, b)),
        lookup_spec(register_spec(s, k, b), k2) == (if k2 == k {
            Some(b)
        } else {
            lookup_spec(s, k2)
        }),
{
    lemma_find_name(s, k, 0);
    lemma_find_name(s, k2, 0);
    let t = register_spec(s, k, b);
    assert forall|i: int, j: int| 0 <= i < j < t.len() implies t[i].0 != t[j].0 by {
        if j == s.len() {
            assert(s[i].0 != k);
        }
    }
    lemma_find_name(t, k2, 0);
    let j2 = find_name(t, k2, 0);
    if j2 < t.len() {
        lemma_lookup_at(t, j2);
        if k2 != k {
            assert(j2 < s.len());
            assert(t[j2] == s[j2]);
            lemma_lookup_at(s, j2);
        } else {
            let j = find_name(s, k, 0);
            if j < s.len() {
                assert(t[j] == (k, b));
                lemma_lookup_at(t, j);
            } else {
                assert(t[s.len() as int] == (k, b));
                lemma_lookup_at(t, s.len() as int);
            }
        }
    } else {
        if k2 == k {
            let j = find_name(s, k, 0);
            if j < s.len() {
                assert(t[j].0 == k);
            } else {
                assert(t[s.len() as int].0 == k);
            }
        } else {
            let j = find_name(s, k2, 0);
            if j < s.len() {
                assert(t[j] == s[j]);
                assert(t[j].0 == k2);
            }
        }
    }
}

/// The registry of built-in commands: each name runs one built-in.
pub struct BuiltinManager {
    entries: Vec<(String, Builtin)>,
}

pub open spec fn entries_view(v: Seq<(String, Builtin)>) -> Seq<Entry> {
    v.map_values(|e: (String, Builtin)| (e.0@, e.1))
}

impl BuiltinManager {
    /// The entries, in registration order.
    pub closed spec fn view(&self) -> Seq<Entry> {
        entries_view(self.entries@)
    }

    /// No name is registered twice.
    pub closed spec fn wf(&self) -> bool {
        names_unique(self.view())
    }

    /// A registry of `help`, `cd`, `exit` and `export`, each under its own name.
    pub fn new() -> (r: BuiltinManager)
        ensures
            r.wf(),
            r.view() == seq![
                ("help"@, Builtin::Help),
                ("cd"@, Builtin::Cd),
                ("exit"@, Builtin::Exit),
                ("export"@, Builtin::Export),
            ],
    {
        let mut m = BuiltinManager { entries: Vec::new() };
        proof {
            reveal_strlit("help");
            reveal_strlit("cd");
            reveal_strlit("exit");
            reveal_strlit("export");
        }
        assert(m.view() =~= Seq::<Entry>::empty());
        let ghost s0 = m.view();
        proof { lemma_find_name(s0, "help"@, 0); }
        m.register(text("help"), Builtin::Help);
        let ghost s1 = m.view();
        assert(s1 =~= seq![("help"@, Builtin::Help)]);
        proof {
            lemma_find_name(s1, "cd"@, 0);
            assert("help"@.len() != "cd"@.len());
            assert(s1[0].0 != "cd"@);
        }
        m.register(text("cd"), Builtin::Cd);
        let ghost s2 = m.view();
        assert(s2 =~= seq![("help"@, Builtin::Help), ("cd"@, Builtin::Cd)]);
        proof {
            lemma_find_name(s2, "exit"@, 0);
            assert("help"@[0] != "exit"@[0]);
            assert("cd"@.len() != "exit"@.len());
            assert(s2[0].0 != "exit"@);
            assert(s2[1].0 != "exit"@);
        }
        m.register(text("exit"), Builtin::Exit);
        let ghost s3 = m.view();
        assert(s3 =~= seq![("help"@, Builtin::Help), ("cd"@, Builtin::Cd), ("exit"@, Builtin::Exit)]);
        proof {
            lemma_find_name(s3, "export"@, 0);
            assert(s3[0].0 != "export"@);
            assert(s3[1].0 != "export"@);
            assert(s3[2].0 != "export"@);
        }
        m.register(text("export"), Builtin::Export);
        assert(m.view() =~= seq![
            ("help"@, Builtin::Help),
            ("cd"@, Builtin::Cd),
            ("exit"@, Builtin::Exit),
            ("export"@, Builtin::Export),
        ]);
        m
    }

    fn find(&self, name: &str) -> (r: usize)
        ensures
            r == find_name(self.view(), name@, 0),
    {
        let mut i: usize = 0;
        while i < self.entries.len()
            invariant
                i <= self.entries.len(),
                find_name(self.view(), name@, 0) == find_name(self.view(), name@, i as int),
            decreases self.entries.len() - i,
        {
            if str_eq(self.entries[i].0.as_str(), name) {
                return i;
            }
            i = i + 1;
        }
        i
    }

    /// Registers `name` to run `which`, replacing what `name` ran before.
    pub fn register(&mut self, name: String, which: Builtin)
        ensures
            final(self).view() == register_spec(old(self).view(), name@, which),
            old(self).wf() ==> final(self).wf(),
    {
        let i = self.find(name.as_str());
        let ghost s = self.view();
        let ghost nv = name@;
        if i < self.entries.len() {
            self.entries.set(i, (name, which));
            assert(self.view() =~= s.update(i as int, (nv, which)));
        } else {
            self.entries.push((name, which));
            assert(self.view() =~= s.push((nv, which)));
        }
        proof {
            if names_unique(s) {
                lemma_register(s, nv, which, nv);
            }
        }
    }

    /// The built-in `name` runs, if it is registered.
    pub fn lookup(&self, name: &str) -> (r: Option<Builtin>)
        ensures
            r == lookup_spec(self.view(), name@),
    {
        let i = self.find(name);
        if i < self.entries.len() {
            Some(self.entries[i].1)
        } else {
            None
        }
    }

    /// Whether `name` is registered.
    pub fn is_builtin(&self, name: &str) -> (r: bool)
        ensures
            r == lookup_spec(self.view(), name@) is Some,
    {
        self.lookup(name).is_some()
    }

    /// Runs the built-in registered under `name`; fails with `NoSuchBuiltin` when none is.
    pub fn execute(
        &self,
        name: &str,
        args: &Vec<String>,
        env: &mut Environment,
        history: &mut HistoryManager,
    ) -> (r: Result<BuiltinResult, ExecError>)
        requires
            old(env).wf(),
            old(history).wf(),
        ensures
            final(env).wf(),
            final(history).wf(),
            match lookup_spec(self.view(), name@) {
                None => r is Err && (r->Err_0 matches ExecError::NoSuchBuiltin(n) && n@ == name@) && *final(env)
                    == *old(env) && *final(history) == *old(history),
                Some(Builtin::Cd) => r is Ok && cd_post(args@, old(env).view(), r->Ok_0) && *final(env) == *old(env)
                    && *final(history) == *old(history),
                Some(Builtin::Help) => r is Ok && help_post(r->Ok_0) && *final(env) == *old(env) && *final(history)
                    == *old(history),
                Some(Builtin::Exit) => exit_post(args@, r) && *final(env) == *old(env) && *final(history)
                    == *old(history),
                Some(Builtin::Export) => r is Ok && export_post(args@, old(env).view(), final(env).view(), r->Ok_0)
                    && *final(history) == *old(history),
                Some(Builtin::History) => history_post(args@, old(history).view(), final(history).view(), r)
                    && *final(env) == *old(env),
            },
    {
        match self.lookup(name) {
            None => Err(ExecError::NoSuchBuiltin(text(name))),
            Some(Builtin::Cd) => Ok(cd_command(args, env)),
            Some(Builtin::Help) => Ok(help_command()),
            Some(Builtin::Exit) => exit_command(args),
            Some(Builtin::Export) => Ok(export_command(args, env)),
            Some(Builtin::History) => history_command(args, history),
        }
    }
}

fn text(s: &str) -> (r: String)
    ensures
        r@ == s@,
{
    string_from_chars(&chars_of(s))
}

fn result(outcome: ExecOutcome, stdout: String, stderr: String, chdir: Option<String>) -> (r: BuiltinResult)
    ensures
        r.outcome == outcome,
        r.stdout == stdout,
        r.stderr == stderr,
        r.chdir == chdir,
{
    BuiltinResult { outcome, stdout, stderr, chdir }
}

/// What `help` gives: status 0 and the list of built-ins.
pub open spec fn help_post(r: BuiltinResult) -> bool {
    &&& r.outcome == ExecOutcome::Code(0)
    &&& r.stdout@ == "Available built-in commands:\n  cd [DIR]          : Change directory\n  exit [N]          : Exit shell\n  export NAME[=VAL] : Export a variable\n  help              : Show this help\n  history [-c] [N]  : Show or clear history\n"@
    &&& r.chdir is None
}

/// `help`: lists the built-ins.
pub fn help_command() -> (r: BuiltinResult)
    ensures
        help_post(r),
        r.outcome == ExecOutcome::Code(0),
        r.stdout@ == "Available built-in commands:\n  cd [DIR]          : Change directory\n  exit [N]          : Exit shell\n  export NAME[=VAL] : Export a variable\n  help              : Show this help\n  history [-c] [N]  : Show or clear history\n"@,
        r.chdir is None,
{
    result(
        ExecOutcome::Code(0),
        text(
            "Available built-in commands:\n  cd [DIR]          : Change directory\n  exit [N]          : Exit shell\n  export NAME[=VAL] : Export a variable\n  help              : Show this help\n  history [-c] [N]  : Show or clear history\n",
        ),
        text(""),
        None,
    )
}

/// What `cd` gives: a change to the first argument, or else to `HOME`, with status 0;
/// status 1 and no change when neither is there.
pub open spec fn cd_post(args: Seq<String>, m: EnvMap, r: BuiltinResult) -> bool {
    &&& args.len() > 0 ==> r.chdir == Some(args[0]) && r.outcome == ExecOutcome::Code(0)
    &&& args.len() == 0 && m.contains_key(seq!['H', 'O', 'M', 'E']) ==> r.outcome == ExecOutcome::Code(0) && r.chdir is Some
        && r.chdir->Some_0@ == m[seq!['H', 'O', 'M', 'E']].0
    &&& args.len() == 0 && !m.contains_key(seq!['H', 'O', 'M', 'E']) ==> r.outcome == ExecOutcome::Code(1) && r.chdir is None
}

/// `cd [dir]`: asks to change to `dir`, or to `HOME` without an argument; fails with status 1
/// when neither is there.
pub fn cd_command(args: &Vec<String>, env: &Environment) -> (r: BuiltinResult)
    requires
        env.wf(),
    ensures
        cd_post(args@, env.view(), r),
        args.len() > 0 ==> r.chdir == Some(args[0]) && r.outcome == ExecOutcome::Code(0),
        args.len() == 0 && env.view().contains_key(seq!['H', 'O', 'M', 'E']) ==> r.outcome == ExecOutcome::Code(0)
            && r.chdir is Some && r.chdir->Some_0@ == env.view()[seq!['H', 'O', 'M', 'E']].0,
        args.len() == 0 && !env.view().contains_key(seq!['H', 'O', 'M', 'E']) ==> r.outcome == ExecOutcome::Code(1)
            && r.chdir is None,
{
    if args.len() > 0 {
        return result(ExecOutcome::Code(0), text(""), text(""), Some(args[0].clone()));
    }
    proof {
        reveal_strlit("HOME");
    }
    let key = text("HOME");
    assert(key@ =~= seq!['H', 'O', 'M', 'E']);
    match env.get(key.as_str()) {
        Some(h) => result(ExecOutcome::Code(0), text(""), text(""), Some(text(h))),
        None => result(ExecOutcome::Code(1), text(""), text("cd: HOME not set\n"), None),
    }
}

/// What `exit` gives: `Exit(n)` for a decimal `n` that fits in an `i32` (0 without an
/// argument), else `InvalidArgument`.
pub open spec fn exit_post(args: Seq<String>, r: Result<BuiltinResult, ExecError>) -> bool {
    &&& args.len() == 0 ==> r is Ok && r->Ok_0.outcome == ExecOutcome::Exit(0)
    &&& args.len() > 0 ==> match decimal(args[0]@) {
        Some(n) => if n <= i32::MAX {
            r is Ok && r->Ok_0.outcome == ExecOutcome::Exit(n as i32)
        } else {
            r is Err && r->Err_0 is InvalidArgument
        },
        None => r is Err && r->Err_0 is InvalidArgument,
    }
}

/// `exit [n]`: leave the shell with status `n` (default 0); `n` must be a decimal number
/// that fits in an `i32`.
pub fn exit_command(args: &Vec<String>) -> (r: Result<BuiltinResult, ExecError>)
    ensures
        exit_post(args@, r),
        args.len() == 0 ==> r is Ok && r->Ok_0.outcome == ExecOutcome::Exit(0),
        args.len() > 0 ==> match decimal(args[0]@) {
            Some(n) => if n <= i32::MAX {
                r is Ok && r->Ok_0.outcome == ExecOutcome::Exit(n as i32)
            } else {
                r is Err && r->Err_0 is InvalidArgument
            },
            None => r is Err && r->Err_0 is InvalidArgument,
        },
{
    if args.len() == 0 {
        return Ok(result(ExecOutcome::Exit(0), text(""), text(""), None));
    }
    let cs = chars_of(args[0].as_str());
    match parse_decimal(&cs) {
        Some(n) => {
            if n <= 2147483647 {
                Ok(result(ExecOutcome::Exit(n as i32), text(""), text(""), None))
            } else {
                Err(ExecError::InvalidArgument(args[0].clone()))
            }
        },
        None => Err(ExecError::InvalidArgument(args[0].clone())),
    }
}

/// The effect of one `export` argument: `NAME=VAL` sets and exports, `NAME` exports.
pub open spec fn export_arg_spec(m: EnvMap, arg: Seq<char>) -> EnvMap {
    let e = crate::config::index_of(arg, '=');
    if e < arg.len() {
        let k = arg.subrange(0, e);
        export_spec(set_spec(m, k, arg.subrange(e + 1, arg.len() as int)), k)
    } else {
        export_spec(m, arg)
    }
}

pub open spec fn export_args_spec(m: EnvMap, args: Seq<Seq<char>>) -> EnvMap
    decreases args.len(),
{
    if args.len() == 0 {
        m
    } else {
        export_arg_spec(export_args_spec(m, args.drop_last()), args.last())
    }
}

/// What `export` does: each argument in turn (see `export_arg_spec`), status 0.
pub open spec fn export_post(args: Seq<String>, old_env: EnvMap, new_env: EnvMap, r: BuiltinResult) -> bool {
    &&& new_env == export_args_spec(old_env, strings_view(args))
    &&& r.outcome == ExecOutcome::Code(0)
}

/// `export NAME[=VAL]...`: marks each variable exported, setting it first when a value is given.
pub fn export_command(args: &Vec<String>, env: &mut Environment) -> (r: BuiltinResult)
    requires
        old(env).wf(),
    ensures
        final(env).wf(),
        export_post(args@, old(env).view(), final(env).view(), r),
        final(env).view() == export_args_spec(old(env).view(), strings_view(args@)),
        r.outcome == ExecOutcome::Code(0),
{
    let mut i: usize = 0;
    assert(strings_view(args@).subrange(0, 0) =~= Seq::<Seq<char>>::empty());
    while i < args.len()
        invariant
            i <= args.len(),
            env.wf(),
            env.view() == export_args_spec(old(env).view(), strings_view(args@).subrange(0, i as int)),
        decreases args.len() - i,
    {
        let cs = chars_of(args[i].as_str());
        let e = index_of_eq(&cs);
        if e < cs.len() {
            let k = string_from_chars(&slice_chars(&cs, 0, e));
            let v = string_from_chars(&slice_chars(&cs, e + 1, cs.len()));
            env.set(k.as_str(), v.as_str());
            env.export(k.as_str());
        } else {
            env.export(args[i].as_str());
        }
        assert(strings_view(args@).subrange(0, i + 1).drop_last() =~= strings_view(args@).subrange(0, i as int));
        i = i + 1;
    }
    assert(strings_view(args@).subrange(0, i as int) =~= strings_view(args@));
    result(ExecOutcome::Code(0), text(""), text(""), None)
}

fn index_of_eq(s: &Vec<char>) -> (r: usize)
    ensures
        r == crate::config::index_of(s@, '='),
        r <= s.len(),
{
    let mut i: usize = 0;
    assert(s@.subrange(0, s.len() as int) =~= s@);
    while i < s.len() && s[i] != '='
        invariant
            i <= s.len(),
            crate::config::index_of(s@, '=') == i + crate::config::index_of(s@.subrange(i as int, s.len() as int), '='),
        decreases s.len() - i,
    {
        assert(s@.subrange(i as int, s.len() as int).drop_first() =~= s@.subrange(i + 1, s.len() as int));
        i = i + 1;
    }
    if i >= s.len() {
        assert(s@.subrange(i as int, s.len() as int) =~= Seq::<char>::empty());
    }
    i
}

fn slice_chars(s: &Vec<char>, a: usize, b: usize) -> (r: Vec<char>)
    requires
        a <= b <= s.len(),
    ensures
        r@ == s@.subrange(a as int, b as int),
{
    let mut out: Vec<char> = Vec::new();
    let mut i = a;
    while i < b
        invariant
            a <= i <= b <= s.len(),
            out@ == s@.subrange(a as int, i as int),
        decreases b - i,
    {
        out.push(s[i]);
        i = i + 1;
        assert(out@ =~= s@.subrange(a as int, i as int));
    }
    out
}

/// The decimal digits of `n`.
pub open spec fn digits_of(n: nat) -> Seq<char>
    decreases n,
{
    if n < 10 {
        seq![(n + '0' as nat) as char]
    } else {
        digits_of(n / 10).push(((n % 10) + '0' as nat) as char)
    }
}

/// `n` right-aligned in a field of four characters.
pub open spec fn pad4(n: nat) -> Seq<char> {
    let d = digits_of(n);
    if d.len() < 4 {
        Seq::new((4 - d.len()) as nat, |i: int| ' ') + d
    } else {
        d
    }
}

/// The listing of `entries` from index `start`: each line is the 1-based number, right-aligned
/// in four columns, two spaces and the entry.
pub open spec fn listing(entries: Seq<Seq<char>>, start: int, end: int) -> Seq<char>
    decreases end - start,
{
    if start >= end || end > entries.len() || start < 0 {
        Seq::empty()
    } else {
        listing(entries, start, end - 1) + pad4((end) as nat) + seq![' ', ' '] + entries[end - 1] + seq!['\n']
    }
}

fn digits(n: usize) -> (r: Vec<char>)
    ensures
        r@ == digits_of(n as nat),
    decreases n,
{
    if n < 10 {
        let mut v: Vec<char> = Vec::new();
        v.push(((n as u32) + ('0' as u32)) as u8 as char);
        proof {
            assert((((n as u32) + ('0' as u32)) as u8 as char) == ((n + '0' as nat) as char)) by {
                assert(n < 10);
            }
        }
        v
    } else {
        let mut v = digits(n / 10);
        v.push((((n % 10) as u32) + ('0' as u32)) as u8 as char);
        v
    }
}

fn append(out: &mut Vec<char>, s: &Vec<char>)
    ensures
        final(out)@ == old(out)@ + s@,
{
    let mut k: usize = 0;
    while k < s.len()
        invariant
            k <= s.len(),
            out@ == old(out)@ + s@.subrange(0, k as int),
        decreases s.len() - k,
    {
        out.push(s[k]);
        k = k + 1;
        assert(out@ =~= old(out)@ + s@.subrange(0, k as int));
    }
    assert(s@.subrange(0, k as int) =~= s@);
}

/// What `history` asks for: a listing of the newest entries, or clearing the history.
pub enum HistoryRequest {
    List(Option<usize>),
    Clear,
}

pub open spec fn all_digits_nonempty(s: Seq<char>) -> bool {
    s.len() > 0 && crate::config::all_digits(s)
}

pub open spec fn is_clear_flag(s: Seq<char>) -> bool {
    s == "-c"@ || s == "--clear"@
}

/// The count given to `history` by the first `k` arguments: the last all-digit one, when it
/// fits in `usize`.
pub open spec fn history_limit(args: Seq<String>, k: int) -> Option<nat>
    decreases k,
{
    if k <= 0 || k > args.len() {
        None
    } else if all_digits_nonempty(args[k - 1]@) {
        decimal(args[k - 1]@)
    } else {
        history_limit(args, k - 1)
    }
}

/// Where the listing starts: `total - n` for a count `n` up to `total`, else the beginning.
pub open spec fn listing_start(limit: Option<nat>, total: nat) -> int {
    match limit {
        Some(n) => if n > total {
            0
        } else {
            total - n
        },
        None => 0,
    }
}

pub open spec fn has_clear_flag(args: Seq<String>) -> bool {
    exists|j: int| 0 <= j < args.len() && is_clear_flag(#[trigger] args[j]@)
}

/// What `history` does: with `-c` or `--clear`, clears and says so; else lists the newest
/// entries; an argument that is neither a flag nor a number is a `Custom` error.
pub open spec fn history_post(
    args: Seq<String>,
    h: Seq<Seq<char>>,
    h2: Seq<Seq<char>>,
    r: Result<BuiltinResult, ExecError>,
) -> bool {
    &&& r is Ok ==> r->Ok_0.outcome == ExecOutcome::Code(0)
    &&& r is Ok && has_clear_flag(args) ==> h2 == Seq::<Seq<char>>::empty() && r->Ok_0.stdout@
        == "history cleared.\n"@
    &&& r is Ok && !has_clear_flag(args) ==> h2 == h && r->Ok_0.stdout@ == listing(
        h,
        listing_start(history_limit(args, args.len() as int), h.len()),
        h.len() as int,
    )
    &&& r is Err ==> h2 == h && r->Err_0 is Custom
    &&& r is Err <==> exists|i: int|
        0 <= i < args.len() && !(is_clear_flag(#[trigger] args[i]@) || all_digits_nonempty(args[i]@))
}

/// `history [-c|--clear] [N]`: lists all entries numbered from 1, or the last `N`, or
/// clears the history and says so.
pub fn history_command(args: &Vec<String>, history: &mut HistoryManager) -> (r: Result<BuiltinResult, ExecError>)
    requires
        old(history).wf(),
    ensures
        final(history).wf(),
        history_post(args@, old(history).view(), final(history).view(), r),
        r is Ok ==> r->Ok_0.outcome == ExecOutcome::Code(0),
        r is Ok && has_clear_flag(args@) ==> final(history).view() == Seq::<Seq<char>>::empty()
            && r->Ok_0.stdout@ == "history cleared.\n"@,
        r is Ok && !has_clear_flag(args@) ==> final(history).view() == old(history).view() && r->Ok_0.stdout@
            == listing(
            old(history).view(),
            listing_start(history_limit(args@, args.len() as int), old(history).view().len()),
            old(history).view().len() as int,
        ),
        r is Err ==> final(history).view() == old(history).view() && r->Err_0 is Custom,
        r is Err <==> exists|i: int|
            0 <= i < args.len() && !(is_clear_flag(#[trigger] args[i]@) || all_digits_nonempty(args[i]@)),
{
    proof {
        reveal_strlit("-c");
        reveal_strlit("--clear");
    }
    let mut clear = false;
    let mut n: Option<usize> = None;
    let mut i: usize = 0;
    while i < args.len()
        invariant
            i <= args.len(),
            *history == *old(history),
            history.wf(),
            forall|j: int| 0 <= j < i ==> (is_clear_flag(#[trigger] args[j]@) || all_digits_nonempty(args[j]@)),
            clear == exists|j: int| 0 <= j < i && is_clear_flag(#[trigger] args[j]@),
            match n {
                Some(v) => history_limit(args@, i as int) == Some(v as nat),
                None => history_limit(args@, i as int) is None,
            },
        decreases args.len() - i,
    {
        let a = args[i].as_str();
        if str_eq(a, "-c") || str_eq(a, "--clear") {
            clear = true;
            assert(is_clear_flag(args[i as int]@));
            proof {
                reveal_strlit("-c");
                reveal_strlit("--clear");
            }
            assert(!crate::config::is_digit(args[i as int]@[0]));
            assert(!all_digits_nonempty(args[i as int]@));
        } else {
            assert(!is_clear_flag(args[i as int]@));
            let cs = chars_of(a);
            let mut ok = cs.len() > 0;
            let mut k: usize = 0;
            while k < cs.len()
                invariant
                    k <= cs.len(),
                    cs@ == a@,
                    *history == *old(history),
                    history.wf(),
                    i < args.len(),
                    ok == (cs.len() > 0 && forall|j: int| 0 <= j < k ==> crate::config::is_digit(#[trigger] cs@[j])),
                decreases cs.len() - k,
            {
                if cs[k] < '0' || cs[k] > '9' {
                    ok = false;
                }
                k = k + 1;
            }
            if !ok {
                proof {
                    assert(!all_digits_nonempty(args[i as int]@));
                }
                return Err(ExecError::Custom(text("history: unknown option")));
            }
            n = parse_decimal(&cs);
            proof {
                assert(cs@ =~= args[i as int]@);
                assert(all_digits_nonempty(args[i as int]@));
            }
        }
        i = i + 1;
    }
    assert(has_clear_flag(args@) == clear);
    if clear {
        history.clear();
        return Ok(result(ExecOutcome::Code(0), text("history cleared.\n"), text(""), None));
    }
    let total = history.len();
    let start: usize = match n {
        Some(limit) => if limit > total {
            0
        } else {
            total - limit
        },
        None => 0,
    };
    let entries = history.list();
    let mut out: Vec<char> = Vec::new();
    let mut k = start;
    while k < total
        invariant
            start <= k <= total,
            total == history.view().len(),
            strings_view(entries@) == history.view(),
            out@ == listing(history.view(), start as int, k as int),
        decreases total - k,
    {
        let mut num = digits(k + 1);
        let mut line: Vec<char> = Vec::new();
        let mut pad: usize = 0;
        let dl = num.len();
        if dl < 4 {
            while pad < 4 - dl
                invariant
                    dl == num.len(),
                    dl < 4,
                    pad <= 4 - dl,
                    line@ == Seq::new(pad as nat, |x: int| ' '),
                decreases 4 - dl - pad,
            {
                line.push(' ');
                pad = pad + 1;
                assert(line@ =~= Seq::new(pad as nat, |x: int| ' '));
            }
        }
        append(&mut line, &num);
        assert(line@ =~= pad4((k + 1) as nat));
        line.push(' ');
        line.push(' ');
        let ec = chars_of(entries[k].as_str());
        append(&mut line, &ec);
        line.push('\n');
        let ghost before = out@;
        append(&mut out, &line);
        assert(out@ =~= listing(history.view(), start as int, (k + 1) as int));
        k = k + 1;
    }
    Ok(result(ExecOutcome::Code(0), string_from_chars(&out), text(""), None))
}

} // verus!
