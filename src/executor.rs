use vstd::prelude::*;
use crate::ast::{Ast, AstNode, CommandNode, RedirectKind, strings_view};
use crate::environment::Environment;

verus! {

broadcast use vstd::std_specs::vec::axiom_vec_index_decreases;

/// How running a tree ended: with a status, or with a request to leave the shell.
#[derive(Debug, Clone, Copy, PartialEq, Eq, Structural)]
pub enum ExecOutcome {
    Code(i32),
    Exit(i32),
}

/// Why running a tree failed.
#[derive(Debug, Clone, PartialEq, Eq)]
pub enum ExecError {
    CommandNotFound(String),
    Io(String),
    PermissionDenied(String),
    InvalidArgument(String),
    PipelineError(String),
    RedirectError(String),
    SubshellError(String),
    NoSuchBuiltin(String),
    NotImplemented(String),
    Custom(String),
}

pub type ExecStatus = Result<ExecOutcome, ExecError>;

/// Something that runs command trees.
pub trait Executor {
    fn exec(&mut self, node: &AstNode, env: &mut Environment) -> ExecStatus;
}

/// One step of a flattened tree. Statuses flow through a single register: the status of
/// the last `Run`, `Pipeline` or `Subshell` step.
#[derive(Debug, PartialEq)]
pub enum Step {
    /// Run one command in this process (built-in) or in a child (external).
    Run(CommandNode),
    /// Run the stages in children connected by pipes; the status is the last stage's.
    Pipeline(Vec<AstNode>),
    /// Run the tree in a child with a copy of the environment.
    Subshell(Box<AstNode>),
    /// Save the standard stream and replace it by the file.
    BeginRedirect { kind: RedirectKind, file: String },
    /// Restore the standard stream saved by the matching `BeginRedirect`.
    EndRedirect { kind: RedirectKind },
    /// Continue at the given step when the status is 0.
    JumpIfZero(usize),
    /// Continue at the given step when the status is not 0.
    JumpIfNonZero(usize),
}

/// The model of a step.
pub enum StepV {
    Run(Ast),
    Pipeline(Seq<Ast>),
    Subshell(Ast),
    BeginRedirect(RedirectKind, Seq<char>),
    EndRedirect(RedirectKind),
    JumpIfZero(int),
    JumpIfNonZero(int),
}

impl Step {
    pub open spec fn model(&self) -> StepV {
        match self {
            Step::Run(c) => StepV::Run(c.model()),
            Step::Pipeline(v) => StepV::Pipeline(crate::ast::models(v@)),
            Step::Subshell(n) => StepV::Subshell(n.model()),
            Step::BeginRedirect { kind, file } => StepV::BeginRedirect(*kind, file@),
            Step::EndRedirect { kind } => StepV::EndRedirect(*kind),
            Step::JumpIfZero(t) => StepV::JumpIfZero(*t as int),
            Step::JumpIfNonZero(t) => StepV::JumpIfNonZero(*t as int),
        }
    }
}

pub open spec fn plan_view(p: Seq<Step>) -> Seq<StepV> {
    p.map_values(|s: Step| s.model())
}

/// The steps of `n` when placed at index `base` of a plan.
pub open spec fn flatten_spec(n: &AstNode, base: int) -> Seq<StepV>
    decreases n, 1int,
{
    match n {
        AstNode::Command(c) => seq![StepV::Run(c.model())],
        AstNode::Pipeline(v) => seq![StepV::Pipeline(crate::ast::models(v@))],
        AstNode::Subshell(inner) => seq![StepV::Subshell(inner.model())],
        AstNode::Redirect { node, kind, file } => flatten_redirected(node, seq![(*kind, file@)], base),
        AstNode::And(l, r) => {
            let a = flatten_spec(l, base);
            let b = flatten_spec(r, base + a.len() + 1);
            a + seq![StepV::JumpIfNonZero(base + a.len() + 1 + b.len())] + b
        },
        AstNode::Or(l, r) => {
            let a = flatten_spec(l, base);
            let b = flatten_spec(r, base + a.len() + 1);
            a + seq![StepV::JumpIfZero(base + a.len() + 1 + b.len())] + b
        },
        AstNode::Sequence(v) => flatten_list_spec(v@, base, v.len() as int, n),
    }
}

/// A chain of redirections, innermost first.
pub type Redirs = Seq<(RedirectKind, Seq<char>)>;

/// Steps that apply the redirections `rs` in order.
pub open spec fn begins(rs: Redirs) -> Seq<StepV>
    decreases rs.len(),
{
    if rs.len() == 0 {
        Seq::empty()
    } else {
        begins(rs.drop_last()).push(StepV::BeginRedirect(rs.last().0, rs.last().1))
    }
}

/// Steps that undo the redirections `rs`, the last applied first.
pub open spec fn ends(rs: Redirs) -> Seq<StepV>
    decreases rs.len(),
{
    if rs.len() == 0 {
        Seq::empty()
    } else {
        seq![StepV::EndRedirect(rs.last().0)] + ends(rs.drop_last())
    }
}

/// The steps of `x` enclosed by the redirections `rs` (innermost first): the redirections
/// of a chain are applied innermost first and undone in the reverse order.
pub open spec fn flatten_redirected(x: &AstNode, rs: Redirs, base: int) -> Seq<StepV>
    decreases x, 2int,
{
    match x {
        AstNode::Redirect { node, kind, file } => flatten_redirected(node, seq![(*kind, file@)] + rs, base),
        _ => begins(rs) + flatten_spec(x, base + rs.len()) + ends(rs),
    }
}

/// The steps of the first `k` trees of `v` one after the other, from index `base`.
pub open spec fn flatten_list_spec(v: Seq<AstNode>, base: int, k: int, parent: &AstNode) -> Seq<StepV>
    decreases parent, 0int, k,
    when 0 <= k <= v.len() && (parent matches AstNode::Sequence(w) && w@ == v)
{
    if k <= 0 {
        Seq::empty()
    } else {
        let a = flatten_list_spec(v, base, k - 1, parent);
        a + flatten_spec(&v[k - 1], base + a.len())
    }
}

/// Where a plan continues after step `pc`, given the current status.
pub open spec fn next_spec(s: StepV, pc: int, status: i32) -> int {
    match s {
        StepV::JumpIfZero(t) => if status == 0 {
            t
        } else {
            pc + 1
        },
        StepV::JumpIfNonZero(t) => if status != 0 {
            t
        } else {
            pc + 1
        },
        _ => pc + 1,
    }
}

/// A copy of a tree.
pub fn copy_node(n: &AstNode) -> (r: AstNode)
    ensures
        r.model() == n.model(),
    decreases n,
{
    match n {
        AstNode::Command(c) => AstNode::Command(copy_command(c)),
        AstNode::Pipeline(v) => {
            let out = copy_list(v);
            proof {
                crate::ast::lemma_models_of_vec(out);
                crate::ast::lemma_models_of_vec(*v);
            }
            AstNode::Pipeline(out)
        },
        AstNode::Sequence(v) => {
            let out = copy_list(v);
            proof {
                crate::ast::lemma_models_of_vec(out);
                crate::ast::lemma_models_of_vec(*v);
            }
            AstNode::Sequence(out)
        },
        AstNode::Redirect { node, kind, file } => AstNode::Redirect {
            node: Box::new(copy_node(node)),
            kind: *kind,
            file: file.clone(),
        },
        AstNode::And(l, r) => AstNode::And(Box::new(copy_node(l)), Box::new(copy_node(r))),
        AstNode::Or(l, r) => AstNode::Or(Box::new(copy_node(l)), Box::new(copy_node(r))),
        AstNode::Subshell(inner) => AstNode::Subshell(Box::new(copy_node(inner))),
    }
}

fn copy_list(v: &Vec<AstNode>) -> (r: Vec<AstNode>)
    ensures
        crate::ast::models(r@) == crate::ast::models(v@),
    decreases v,
{
    let mut out: Vec<AstNode> = Vec::new();
    let mut i: usize = 0;
    while i < v.len()
        invariant
            i <= v.len(),
            out.len() == i,
            forall|k: int| 0 <= k < i ==> #[trigger] out@[k].model() == v@[k].model(),
        decreases v.len() - i,
    {
        out.push(copy_node(&v[i]));
        i = i + 1;
    }
    assert(crate::ast::models(out@) =~= crate::ast::models(v@));
    out
}

/// A copy of a command.
pub fn copy_command(c: &CommandNode) -> (r: CommandNode)
    ensures
        r.model() == c.model(),
{
    let mut args: Vec<String> = Vec::new();
    let mut i: usize = 0;
    while i < c.args.len()
        invariant
            i <= c.args.len(),
            strings_view(args@) == strings_view(c.args@).subrange(0, i as int),
        decreases c.args.len() - i,
    {
        let ghost before = strings_view(args@);
        let a = c.args[i].clone();
        let ghost av = a@;
        args.push(a);
        assert(strings_view(args@) =~= before.push(av));
        assert(strings_view(args@) =~= strings_view(c.args@).subrange(0, i + 1));
        i = i + 1;
    }
    assert(strings_view(c.args@).subrange(0, i as int) =~= strings_view(c.args@));
    CommandNode { name: c.name.clone(), args, kind: c.kind }
}

fn push_step(plan: &mut Vec<Step>, s: Step)
    ensures
        plan_view(final(plan)@) == plan_view(old(plan)@).push(s.model()),
{
    plan.push(s);
    assert(plan_view(plan@) =~= plan_view(old(plan)@).push(s.model()));
}

pub open spec fn redirs_of(v: Seq<(RedirectKind, String)>) -> Redirs {
    v.map_values(|r: (RedirectKind, String)| (r.0, r.1@))
}

/// Appends the steps of `x` enclosed by the redirections `rs` (innermost first).
fn flatten_redirected_into(x: &AstNode, rs: Vec<(RedirectKind, String)>, plan: &mut Vec<Step>)
    requires
        old(plan).len() + flat_size(x) + 2 * rs.len() <= usize::MAX,
    ensures
        plan_view(final(plan)@) == plan_view(old(plan)@) + flatten_redirected(x, redirs_of(rs@), old(plan).len() as int),
    decreases x, 2int,
{
    match x {
        AstNode::Redirect { node, kind, file } => {
            let mut inner: Vec<(RedirectKind, String)> = Vec::new();
            inner.push((*kind, file.clone()));
            let mut k: usize = 0;
            while k < rs.len()
                invariant
                    k <= rs.len(),
                    redirs_of(inner@) == seq![(*kind, file@)] + redirs_of(rs@).subrange(0, k as int),
                decreases rs.len() - k,
            {
                let ghost before = redirs_of(inner@);
                inner.push((rs[k].0, rs[k].1.clone()));
                assert(redirs_of(inner@) =~= before.push(redirs_of(rs@)[k as int]));
                k = k + 1;
                assert(redirs_of(inner@) =~= seq![(*kind, file@)] + redirs_of(rs@).subrange(0, k as int));
            }
            assert(redirs_of(rs@).subrange(0, k as int) =~= redirs_of(rs@));
            flatten_redirected_into(node, inner, plan);
        },
        _ => {
            let ghost start = plan_view(plan@);
            let ghost rv = redirs_of(rs@);
            let mut k: usize = 0;
            assert(begins(rv.subrange(0, 0)) =~= Seq::<StepV>::empty());
            while k < rs.len()
                invariant
                    k <= rs.len(),
                    rv == redirs_of(rs@),
                    plan_view(plan@) == start + begins(rv.subrange(0, k as int)),
                    start.len() + flat_size(x) + 2 * rs.len() <= usize::MAX,
                decreases rs.len() - k,
            {
                push_step(plan, Step::BeginRedirect { kind: rs[k].0, file: rs[k].1.clone() });
                assert(rv.subrange(0, k + 1).drop_last() =~= rv.subrange(0, k as int));
                k = k + 1;
            }
            assert(rv.subrange(0, k as int) =~= rv);
            proof {
                lemma_begins_len(rv);
                lemma_ends_len(rv);
                assert(plan_view(plan@).len() == plan@.len());
            }
            flatten_into(x, plan);
            let ghost mid = plan_view(plan@);
            let mut m: usize = rs.len();
            assert(ends(rv.subrange(0, m as int)).subrange(0, 0) =~= Seq::<StepV>::empty());
            assert(rv.subrange(0, m as int) =~= rv);
            while m > 0
                invariant
                    m <= rs.len(),
                    rv == redirs_of(rs@),
                    plan_view(plan@) == mid + ends(rv).subrange(0, (rs.len() - m) as int),
                    ends(rv).len() == rv.len(),
                decreases m,
            {
                proof {
                    lemma_ends_index(rv, (rs.len() - m) as int);
                }
                push_step(plan, Step::EndRedirect { kind: rs[m - 1].0 });
                m = m - 1;
                assert(plan_view(plan@) =~= mid + ends(rv).subrange(0, (rs.len() - m) as int));
            }
            assert(ends(rv).subrange(0, rs.len() as int) =~= ends(rv));
            assert(plan_view(plan@) =~= start + flatten_redirected(x, rv, start.len() as int));
        },
    }
}

proof fn lemma_begins_len(rs: Redirs)
    ensures
        begins(rs).len() == rs.len(),
    decreases rs.len(),
{
    if rs.len() > 0 {
        lemma_begins_len(rs.drop_last());
    }
}

proof fn lemma_ends_len(rs: Redirs)
    ensures
        ends(rs).len() == rs.len(),
    decreases rs.len(),
{
    if rs.len() > 0 {
        lemma_ends_len(rs.drop_last());
    }
}

/// Step `i` of `ends(rs)` undoes the redirection `rs.len() - 1 - i`.
proof fn lemma_ends_index(rs: Redirs, i: int)
    requires
        0 <= i < rs.len(),
    ensures
        ends(rs)[i] == StepV::EndRedirect(rs[rs.len() - 1 - i].0),
    decreases rs.len(),
{
    lemma_ends_len(rs.drop_last());
    if i > 0 {
        lemma_ends_index(rs.drop_last(), i - 1);
    }
}

/// Appends the steps of `n` to `plan`.
fn flatten_into(n: &AstNode, plan: &mut Vec<Step>)
    requires
        old(plan).len() + flat_size(n) <= usize::MAX,
    ensures
        plan_view(final(plan)@) == plan_view(old(plan)@) + flatten_spec(n, old(plan).len() as int),
    decreases n, 1int,
{
    proof {
        lemma_flat_size(n, plan.len() as int);
    }
    let ghost start = plan_view(plan@);
    match n {
        AstNode::Command(c) => {
            push_step(plan, Step::Run(copy_command(c)));
            assert(plan_view(plan@) =~= start + flatten_spec(n, start.len() as int));
        },
        AstNode::Pipeline(v) => {
            let stages = copy_list(v);
            push_step(plan, Step::Pipeline(stages));
            assert(plan_view(plan@) =~= start + flatten_spec(n, start.len() as int));
        },
        AstNode::Subshell(inner) => {
            push_step(plan, Step::Subshell(Box::new(copy_node(inner))));
            assert(plan_view(plan@) =~= start + flatten_spec(n, start.len() as int));
        },
        AstNode::Redirect { node, kind, file } => {
            let mut rs: Vec<(RedirectKind, String)> = Vec::new();
            rs.push((*kind, file.clone()));
            assert(redirs_of(rs@) =~= seq![(*kind, file@)]);
            flatten_redirected_into(node, rs, plan);
            assert(plan_view(plan@) =~= start + flatten_spec(n, start.len() as int));
        },
        AstNode::And(l, r) => {
            proof {
                lemma_flat_size(l, start.len() as int);
            }
            flatten_into(l, plan);
            assert(plan_view(plan@).len() == plan@.len());
            let jump_at = plan.len();
            push_step(plan, Step::JumpIfZero(0));
            assert(plan_view(plan@).len() == plan@.len());
            proof {
                lemma_flat_size(r, plan.len() as int);
            }
            flatten_into(r, plan);
            assert(plan_view(plan@).len() == plan@.len());
            let end = plan.len();
            let ghost mid = plan_view(plan@);
            let jump = Step::JumpIfNonZero(end);
            let ghost jm = jump.model();
            plan.set(jump_at, jump);
            assert(plan_view(plan@) =~= mid.update(jump_at as int, jm));
            assert(plan_view(plan@) =~= start + flatten_spec(n, start.len() as int));
        },
        AstNode::Or(l, r) => {
            proof {
                lemma_flat_size(l, start.len() as int);
            }
            flatten_into(l, plan);
            assert(plan_view(plan@).len() == plan@.len());
            let jump_at = plan.len();
            push_step(plan, Step::JumpIfZero(0));
            assert(plan_view(plan@).len() == plan@.len());
            proof {
                lemma_flat_size(r, plan.len() as int);
            }
            flatten_into(r, plan);
            assert(plan_view(plan@).len() == plan@.len());
            let end = plan.len();
            let ghost mid = plan_view(plan@);
            let jump = Step::JumpIfZero(end);
            let ghost jm = jump.model();
            plan.set(jump_at, jump);
            assert(plan_view(plan@) =~= mid.update(jump_at as int, jm));
            assert(plan_view(plan@) =~= start + flatten_spec(n, start.len() as int));
        },
        AstNode::Sequence(v) => {
            let mut i: usize = 0;
            assert(plan_view(plan@) =~= start + flatten_list_spec(v@, start.len() as int, 0, n));
            while i < v.len()
                invariant
                    i <= v.len(),
                    n matches AstNode::Sequence(w) && w@ == v@,
                    start.len() + flat_size(n) <= usize::MAX,
                    plan_view(plan@) == start + flatten_list_spec(v@, start.len() as int, i as int, n),
                decreases v.len() - i,
            {
                proof {
                    lemma_flat_list_size(v@, start.len() as int, i as int, n);
                    lemma_flat_list_size(v@, start.len() as int, i + 1, n);
                    assert(plan_view(plan@).len() == plan@.len());
                }
                flatten_into(&v[i], plan);
                i = i + 1;
                assert(plan_view(plan@) =~= start + flatten_list_spec(v@, start.len() as int, i as int, n));
            }
        },
    }
}

/// The number of steps of `n`.
pub open spec fn flat_size(n: &AstNode) -> nat
    decreases n, 1int,
{
    match n {
        AstNode::Command(_) | AstNode::Pipeline(_) | AstNode::Subshell(_) => 1,
        AstNode::Redirect { node, .. } => flat_size(node) + 2,
        AstNode::And(l, r) | AstNode::Or(l, r) => flat_size(l) + flat_size(r) + 1,
        AstNode::Sequence(v) => flat_list_size(v@, v.len() as int, n),
    }
}

pub open spec fn flat_list_size(v: Seq<AstNode>, k: int, parent: &AstNode) -> nat
    decreases parent, 0int, k,
    when 0 <= k <= v.len() && (parent matches AstNode::Sequence(w) && w@ == v)
{
    if k <= 0 {
        0
    } else {
        flat_list_size(v, k - 1, parent) + flat_size(&v[k - 1])
    }
}

proof fn lemma_flat_redirected_size(x: &AstNode, rs: Redirs, base: int)
    ensures
        flatten_redirected(x, rs, base).len() == flat_size(x) + 2 * rs.len(),
    decreases x, 2int,
{
    match x {
        AstNode::Redirect { node, kind, file } => lemma_flat_redirected_size(node, seq![(*kind, file@)] + rs, base),
        _ => {
            lemma_begins_len(rs);
            lemma_ends_len(rs);
            lemma_flat_size(x, base + rs.len());
        },
    }
}

proof fn lemma_flat_size(n: &AstNode, base: int)
    ensures
        flatten_spec(n, base).len() == flat_size(n),
    decreases n, 1int,
{
    match n {
        AstNode::Redirect { node, kind, file } => lemma_flat_redirected_size(node, seq![(*kind, file@)], base),
        AstNode::And(l, r) | AstNode::Or(l, r) => {
            lemma_flat_size(l, base);
            lemma_flat_size(r, base + flat_size(l) + 1);
        },
        AstNode::Sequence(v) => lemma_flat_list_size(v@, base, v.len() as int, n),
        _ => {},
    }
}

proof fn lemma_flat_list_size(v: Seq<AstNode>, base: int, k: int, parent: &AstNode)
    requires
        0 <= k <= v.len(),
        parent matches AstNode::Sequence(w) && w@ == v,
    ensures
        flatten_list_spec(v, base, k, parent).len() == flat_list_size(v, k, parent),
        flat_list_size(v, k, parent) <= flat_size(parent),
    decreases parent, 0int, k,
{
    if k > 0 {
        lemma_flat_list_size(v, base, k - 1, parent);
        let a = flatten_list_spec(v, base, k - 1, parent);
        lemma_flat_size(&v[k - 1], base + a.len());
        lemma_flat_list_mono(v, k, parent);
    } else {
        lemma_flat_list_mono(v, 0, parent);
    }
}

proof fn lemma_flat_list_mono(v: Seq<AstNode>, k: int, parent: &AstNode)
    requires
        0 <= k <= v.len(),
        parent matches AstNode::Sequence(w) && w@ == v,
    ensures
        flat_list_size(v, k, parent) <= flat_size(parent),
    decreases v.len() - k,
{
    if k < v.len() {
        lemma_flat_list_mono(v, k + 1, parent);
    }
}

/// A tree flattened into steps, run from index 0.
pub fn flatten(n: &AstNode) -> (r: Vec<Step>)
    requires
        flat_size(n) <= usize::MAX,
    ensures
        plan_view(r@) == flatten_spec(n, 0),
{
    let mut plan: Vec<Step> = Vec::new();
    assert(plan_view(plan@) =~= Seq::<StepV>::empty());
    flatten_into(n, &mut plan);
    assert(plan_view(plan@) =~= flatten_spec(n, 0));
    plan
}

/// The index of the step that follows step `pc` of `plan` when the status is `status`.
pub fn next_pc(plan: &Vec<Step>, pc: usize, status: i32) -> (r: usize)
    requires
        pc < plan.len(),
        plan.len() < usize::MAX,
    ensures
        r == next_spec(plan@[pc as int].model(), pc as int, status),
{
    match plan[pc] {
        Step::JumpIfZero(t) => if status == 0 {
            t
        } else {
            pc + 1
        },
        Step::JumpIfNonZero(t) => if status != 0 {
            t
        } else {
            pc + 1
        },
        _ => pc + 1,
    }
}

/// Which pipes stage `i` of `n` uses: pipe `k` carries stage `k`'s output to stage `k + 1`.
#[derive(Debug, Clone, Copy, PartialEq, Eq, Structural)]
pub struct StageWiring {
    /// The pipe whose read end becomes standard input.
    pub stdin_pipe: Option<usize>,
    /// The pipe whose write end becomes standard output.
    pub stdout_pipe: Option<usize>,
}

pub open spec fn stdin_pipe_spec(n: int, i: int) -> Option<usize> {
    if i == 0 {
        None
    } else {
        Some((i - 1) as usize)
    }
}

pub open spec fn stdout_pipe_spec(n: int, i: int) -> Option<usize> {
    if i + 1 < n {
        Some(i as usize)
    } else {
        None
    }
}

/// How stage `i` of an `n`-stage pipeline is wired.
pub fn stage_wiring(n: usize, i: usize) -> (w: StageWiring)
    requires
        2 <= n,
        i < n,
    ensures
        w.stdin_pipe == stdin_pipe_spec(n as int, i as int),
        w.stdout_pipe == stdout_pipe_spec(n as int, i as int),
{
    StageWiring {
        stdin_pipe: if i == 0 { None } else { Some(i - 1) },
        stdout_pipe: if i + 1 < n { Some(i) } else { None },
    }
}

/// Every stage's standard input comes from the pipe its predecessor writes to.
pub proof fn lemma_pipeline_stages_connected(n: int, i: int)
    requires
        2 <= n,
        0 < i < n,
    ensures
        stdin_pipe_spec(n, i) == stdout_pipe_spec(n, i - 1),
        stdin_pipe_spec(n, 0) is None,
        stdout_pipe_spec(n, n - 1) is None,
{
}

/// The status reported for a child: its exit code, or 128 plus the signal that ended it.
pub open spec fn wait_status_spec(exited: bool, code: i32, signal: i32) -> int {
    if exited {
        code as int
    } else {
        128 + signal
    }
}

pub fn wait_status(exited: bool, code: i32, signal: i32) -> (r: i32)
    requires
        0 <= signal <= 127,
    ensures
        r == wait_status_spec(exited, code, signal),
{
    if exited {
        code
    } else {
        128 + signal
    }
}

pub open spec fn contains_char(s: Seq<char>, c: char) -> bool {
    exists|i: int| 0 <= i < s.len() && s[i] == c
}

/// The segments of `p` between colons, empty ones left out, from `i` on.
pub open spec fn path_dirs_from(p: Seq<char>, i: int, cur: Seq<char>, acc: Seq<Seq<char>>) -> Seq<Seq<char>>
    decreases p.len() - i,
{
    if i < 0 || i >= p.len() {
        if cur.len() > 0 {
            acc.push(cur)
        } else {
            acc
        }
    } else if p[i] == ':' {
        path_dirs_from(p, i + 1, Seq::empty(), if cur.len() > 0 { acc.push(cur) } else { acc })
    } else {
        path_dirs_from(p, i + 1, cur.push(p[i]), acc)
    }
}

/// `d/name` for each directory `d` of `dirs`.
pub open spec fn full_paths(dirs: Seq<Seq<char>>, name: Seq<char>) -> Seq<Seq<char>>
    decreases dirs.len(),
{
    if dirs.len() == 0 {
        Seq::empty()
    } else {
        full_paths(dirs.drop_last(), name).push(dirs.last() + seq!['/'] + name)
    }
}

/// The paths to try, in order, for command `name` with search list `path`.
pub open spec fn candidates_spec(name: Seq<char>, path: Option<Seq<char>>) -> Seq<Seq<char>> {
    if contains_char(name, '/') {
        seq![name]
    } else {
        match path {
            None => Seq::empty(),
            Some(p) => full_paths(path_dirs_from(p, 0, Seq::empty(), Seq::empty()), name),
        }
    }
}

/// The paths to try, in order, for command `name`: `name` itself when it holds a `/`,
/// else `dir/name` for each non-empty colon-separated entry of `path`.
pub fn path_candidates(name: &str, path: Option<&str>) -> (r: Vec<String>)
    ensures
        strings_view(r@) == candidates_spec(name@, match path {
            Some(p) => Some(p@),
            None => None,
        }),
{
    let nc = crate::text::chars_of(name);
    let mut k: usize = 0;
    while k < nc.len()
        invariant
            k <= nc.len(),
            nc@ == name@,
            forall|j: int| 0 <= j < k ==> nc@[j] != '/',
        decreases nc.len() - k,
    {
        if nc[k] == '/' {
            let mut out: Vec<String> = Vec::new();
            out.push(crate::text::string_from_chars(&nc));
            assert(strings_view(out@) =~= seq![name@]);
            return out;
        }
        k = k + 1;
    }
    let mut out: Vec<String> = Vec::new();
    match path {
        None => {
            assert(strings_view(out@) =~= Seq::<Seq<char>>::empty());
            out
        },
        Some(p) => {
            let pc = crate::text::chars_of(p);
            let mut cur: Vec<char> = Vec::new();
            let mut dirs: Ghost<Seq<Seq<char>>> = Ghost(Seq::empty());
            let mut i: usize = 0;
            while i < pc.len()
                invariant
                    i <= pc.len(),
                    pc@ == p@,
                    nc@ == name@,
                    path_dirs_from(p@, 0, Seq::empty(), Seq::empty()) == path_dirs_from(p@, i as int, cur@, dirs@),
                    strings_view(out@) == full_paths(dirs@, name@),
                decreases pc.len() - i,
            {
                if pc[i] == ':' {
                    if cur.len() > 0 {
                        let ghost before = strings_view(out@);
                        let full = join_dir(&cur, &nc);
                        out.push(full);
                        proof {
                            assert(strings_view(out@) =~= before.push(cur@ + seq!['/'] + name@));
                            assert(dirs@.push(cur@).drop_last() =~= dirs@);
                        }
                        dirs = Ghost(dirs@.push(cur@));
                    }
                    cur = Vec::new();
                    assert(cur@ =~= Seq::<char>::empty());
                } else {
                    cur.push(pc[i]);
                }
                i = i + 1;
            }
            if cur.len() > 0 {
                let ghost before = strings_view(out@);
                let full = join_dir(&cur, &nc);
                out.push(full);
                proof {
                    assert(strings_view(out@) =~= before.push(cur@ + seq!['/'] + name@));
                    assert(dirs@.push(cur@).drop_last() =~= dirs@);
                }
                dirs = Ghost(dirs@.push(cur@));
            }
            out
        },
    }
}

fn join_dir(dir: &Vec<char>, name: &Vec<char>) -> (r: String)
    ensures
        r@ == dir@ + seq!['/'] + name@,
{
    let mut v: Vec<char> = Vec::new();
    let mut i: usize = 0;
    while i < dir.len()
        invariant
            i <= dir.len(),
            v@ == dir@.subrange(0, i as int),
        decreases dir.len() - i,
    {
        v.push(dir[i]);
        i = i + 1;
        assert(v@ =~= dir@.subrange(0, i as int));
    }
    v.push('/');
    let mut j: usize = 0;
    while j < name.len()
        invariant
            i == dir.len(),
            j <= name.len(),
            v@ == dir@ + seq!['/'] + name@.subrange(0, j as int),
        decreases name.len() - j,
    {
        v.push(name[j]);
        j = j + 1;
        assert(v@ =~= dir@ + seq!['/'] + name@.subrange(0, j as int));
    }
    assert(dir@.subrange(0, i as int) =~= dir@);
    assert(name@.subrange(0, j as int) =~= name@);
    crate::text::string_from_chars(&v)
}

} // verus!

verus! {

/// Statuses of the commands, pipelines and subshells run, in the order they run.
pub type Outcomes = spec_fn(nat) -> i32;

/// What running `n` yields by the dispatch rules, from status `st`, the next outcome being
/// `outs(idx)`: the final status and the index of the next unused outcome. A command,
/// pipeline or subshell takes one outcome; `And` runs its right side only after status 0,
/// `Or` only after a non-zero status (and yields 0 otherwise); a sequence yields its last
/// part's status; a redirection leaves the status to what it encloses.
pub open spec fn eval(n: &AstNode, st: i32, outs: Outcomes, idx: nat) -> (i32, nat)
    decreases n, 1int,
{
    match n {
        AstNode::Command(_) | AstNode::Pipeline(_) | AstNode::Subshell(_) => (outs(idx), idx + 1),
        AstNode::Redirect { node, .. } => eval(node, st, outs, idx),
        AstNode::And(l, r) => {
            let (s1, i1) = eval(l, st, outs, idx);
            if s1 == 0 {
                eval(r, s1, outs, i1)
            } else {
                (s1, i1)
            }
        },
        AstNode::Or(l, r) => {
            let (s1, i1) = eval(l, st, outs, idx);
            if s1 != 0 {
                eval(r, s1, outs, i1)
            } else {
                (0, i1)
            }
        },
        AstNode::Sequence(v) => eval_list(v@, v.len() as int, st, outs, idx, n),
    }
}

/// Running the first `k` parts of a sequence one after the other.
pub open spec fn eval_list(v: Seq<AstNode>, k: int, st: i32, outs: Outcomes, idx: nat, parent: &AstNode) -> (i32, nat)
    decreases parent, 0int, k,
    when 0 <= k <= v.len() && (parent matches AstNode::Sequence(w) && w@ == v)
{
    if k <= 0 {
        (st, idx)
    } else {
        let (s, i) = eval_list(v, k - 1, st, outs, idx, parent);
        eval(&v[k - 1], s, outs, i)
    }
}

/// The state while a plan runs: status, index of the next outcome, and number of
/// redirections in force.
pub type RunState = (i32, nat, int);

/// Running plan `p` from step `pc` until it reaches step `end`, from state `s`, the outcomes
/// of commands being `outs`.
pub open spec fn run(p: Seq<StepV>, pc: int, end: int, s: RunState, outs: Outcomes) -> RunState
    decreases end - pc,
{
    if pc < 0 || pc >= end || pc >= p.len() {
        s
    } else {
        match p[pc] {
            StepV::Run(_) | StepV::Pipeline(_) | StepV::Subshell(_) => run(p, pc + 1, end, (outs(s.1), s.1 + 1, s.2), outs),
            StepV::BeginRedirect(_, _) => run(p, pc + 1, end, (s.0, s.1, s.2 + 1), outs),
            StepV::EndRedirect(_) => run(p, pc + 1, end, (s.0, s.1, s.2 - 1), outs),
            _ => {
                let nx = next_spec(p[pc], pc, s.0);
                if nx <= pc || nx > end {
                    s
                } else {
                    run(p, nx, end, s, outs)
                }
            },
        }
    }
}

/// `seg` stands in `p` from index `base` on.
pub open spec fn placed(p: Seq<StepV>, base: int, seg: Seq<StepV>) -> bool {
    &&& 0 <= base
    &&& base + seg.len() <= p.len()
    &&& forall|i: int| 0 <= i < seg.len() ==> #[trigger] p[base + i] == seg[i]
}

proof fn lemma_placed_split(p: Seq<StepV>, base: int, a: Seq<StepV>, b: Seq<StepV>)
    requires
        placed(p, base, a + b),
    ensures
        placed(p, base, a),
        placed(p, base + a.len(), b),
{
    assert forall|i: int| 0 <= i < a.len() implies #[trigger] p[base + i] == a[i] by {
        assert((a + b)[i] == a[i]);
    }
    assert forall|i: int| 0 <= i < b.len() implies #[trigger] p[base + a.len() + i] == b[i] by {
        assert(p[base + (a.len() + i)] == (a + b)[a.len() + i]);
    }
}

/// Running the steps of `n`, placed at `base`, reaches the end of those steps with the status
/// and outcome index `eval` gives and with as many redirections in force as before; the rest
/// of the plan then runs from there.
pub proof fn lemma_run_flattened(n: &AstNode, p: Seq<StepV>, base: int, end: int, s: RunState, outs: Outcomes)
    requires
        placed(p, base, flatten_spec(n, base)),
        base + flatten_spec(n, base).len() <= end,
    ensures
        run(p, base, end, s, outs) == run(
            p,
            base + flatten_spec(n, base).len(),
            end,
            (eval(n, s.0, outs, s.1).0, eval(n, s.0, outs, s.1).1, s.2),
            outs,
        ),
    decreases n, 1int,
{
    let seg = flatten_spec(n, base);
    match n {
        AstNode::Command(_) | AstNode::Pipeline(_) | AstNode::Subshell(_) => {
            assert(p[base + 0] == seg[0]);
        },
        AstNode::Redirect { node, kind, file } => {
            lemma_run_redirected(node, seq![(*kind, file@)], p, base, end, s, outs);
        },
        AstNode::And(l, r) | AstNode::Or(l, r) => {
            let a = flatten_spec(l, base);
            let b = flatten_spec(r, base + a.len() + 1);
            let t = base + a.len() + 1 + b.len();
            let j = if n is And {
                StepV::JumpIfNonZero(t)
            } else {
                StepV::JumpIfZero(t)
            };
            assert(seg == a + seq![j] + b);
            lemma_placed_split(p, base, a + seq![j], b);
            lemma_placed_split(p, base, a, seq![j]);
            assert(p[base + a.len() + 0] == seq![j][0]);
            lemma_run_flattened(l, p, base, end, s, outs);
            let (s1, i1) = eval(l, s.0, outs, s.1);
            lemma_run_flattened(r, p, base + a.len() + 1, end, (s1, i1, s.2), outs);
        },
        AstNode::Sequence(v) => {
            lemma_run_list(v@, v.len() as int, p, base, end, s, outs, n);
        },
    }
}

/// Running the steps that apply `rs` adds `rs.len()` redirections in force.
proof fn lemma_run_begins(rs: Redirs, p: Seq<StepV>, base: int, end: int, s: RunState, outs: Outcomes)
    requires
        placed(p, base, begins(rs)),
        base + rs.len() <= end,
    ensures
        run(p, base, end, s, outs) == run(p, base + rs.len(), end, (s.0, s.1, s.2 + rs.len()), outs),
    decreases rs.len(),
{
    lemma_begins_len(rs);
    if rs.len() > 0 {
        let r = rs.drop_last();
        lemma_begins_len(r);
        lemma_placed_split(p, base, begins(r), seq![StepV::BeginRedirect(rs.last().0, rs.last().1)]);
        lemma_run_begins(r, p, base, end, s, outs);
        assert(p[base + r.len() + 0] == seq![StepV::BeginRedirect(rs.last().0, rs.last().1)][0]);
    }
}

/// Running the steps that undo `rs` takes away `rs.len()` redirections in force.
proof fn lemma_run_ends(rs: Redirs, p: Seq<StepV>, base: int, end: int, s: RunState, outs: Outcomes)
    requires
        placed(p, base, ends(rs)),
        base + rs.len() <= end,
    ensures
        run(p, base, end, s, outs) == run(p, base + rs.len(), end, (s.0, s.1, s.2 - rs.len()), outs),
    decreases rs.len(),
{
    lemma_ends_len(rs);
    if rs.len() > 0 {
        let r = rs.drop_last();
        lemma_ends_len(r);
        lemma_placed_split(p, base, seq![StepV::EndRedirect(rs.last().0)], ends(r));
        assert(p[base + 0] == seq![StepV::EndRedirect(rs.last().0)][0]);
        lemma_run_ends(r, p, base + 1, end, (s.0, s.1, s.2 - 1), outs);
    }
}

/// Running the steps of `x` enclosed by the redirections `rs` gives what `eval` gives for
/// `x`, with as many redirections in force as before.
proof fn lemma_run_redirected(x: &AstNode, rs: Redirs, p: Seq<StepV>, base: int, end: int, s: RunState, outs: Outcomes)
    requires
        placed(p, base, flatten_redirected(x, rs, base)),
        base + flatten_redirected(x, rs, base).len() <= end,
    ensures
        run(p, base, end, s, outs) == run(
            p,
            base + flatten_redirected(x, rs, base).len(),
            end,
            (eval(x, s.0, outs, s.1).0, eval(x, s.0, outs, s.1).1, s.2),
            outs,
        ),
    decreases x, 2int,
{
    match x {
        AstNode::Redirect { node, kind, file } => {
            lemma_run_redirected(node, seq![(*kind, file@)] + rs, p, base, end, s, outs);
        },
        _ => {
            let mid = flatten_spec(x, base + rs.len());
            lemma_begins_len(rs);
            lemma_ends_len(rs);
            lemma_placed_split(p, base, begins(rs) + mid, ends(rs));
            lemma_placed_split(p, base, begins(rs), mid);
            lemma_run_begins(rs, p, base, end, s, outs);
            lemma_run_flattened(x, p, base + rs.len(), end, (s.0, s.1, s.2 + rs.len()), outs);
            let (s1, i1) = eval(x, s.0, outs, s.1);
            lemma_run_ends(rs, p, base + rs.len() + mid.len(), end, (s1, i1, s.2 + rs.len()), outs);
        },
    }
}

proof fn lemma_run_list(
    v: Seq<AstNode>,
    k: int,
    p: Seq<StepV>,
    base: int,
    end: int,
    s: RunState,
    outs: Outcomes,
    parent: &AstNode,
)
    requires
        0 <= k <= v.len(),
        parent matches AstNode::Sequence(w) && w@ == v,
        placed(p, base, flatten_list_spec(v, base, k, parent)),
        base + flatten_list_spec(v, base, k, parent).len() <= end,
    ensures
        run(p, base, end, s, outs) == run(
            p,
            base + flatten_list_spec(v, base, k, parent).len(),
            end,
            (eval_list(v, k, s.0, outs, s.1, parent).0, eval_list(v, k, s.0, outs, s.1, parent).1, s.2),
            outs,
        ),
    decreases parent, 0int, k,
{
    if k > 0 {
        let a = flatten_list_spec(v, base, k - 1, parent);
        let b = flatten_spec(&v[k - 1], base + a.len());
        lemma_placed_split(p, base, a, b);
        lemma_run_list(v, k - 1, p, base, end, s, outs, parent);
        let (s1, i1) = eval_list(v, k - 1, s.0, outs, s.1, parent);
        lemma_run_flattened(&v[k - 1], p, base + a.len(), end, (s1, i1, s.2), outs);
    }
}

/// Running the plan `flatten` makes of `n` to its end yields the status the dispatch rules
/// give for `n`, for every sequence of command outcomes, and ends with every redirection it
/// opened closed again.
pub proof fn lemma_plan_matches_dispatch(n: &AstNode, st: i32, outs: Outcomes)
    ensures
        run(flatten_spec(n, 0), 0, flatten_spec(n, 0).len() as int, (st, 0, 0), outs) == (
            eval(n, st, outs, 0).0,
            eval(n, st, outs, 0).1,
            0int,
        ),
{
    let p = flatten_spec(n, 0);
    assert forall|i: int| 0 <= i < p.len() implies #[trigger] p[0 + i] == p[i] by {}
    lemma_run_flattened(n, p, 0, p.len() as int, (st, 0, 0), outs);
}

} // verus!

verus! {

/// One thing the shell does to run a pipeline.
#[derive(Debug, Clone, Copy, PartialEq, Eq, Structural)]
pub enum PipeAction {
    /// Start stage `stage` in a child, wired as `stage_wiring` says.
    Spawn { stage: usize, wiring: StageWiring },
    /// Close in the shell the read end (`read_end`) or the write end of pipe `pipe`.
    Close { pipe: usize, read_end: bool },
    /// Wait for the child running stage `stage`.
    Wait { stage: usize },
}

pub open spec fn closes_after(n: int, i: int) -> Seq<PipeAction> {
    (if i > 0 {
        seq![PipeAction::Close { pipe: (i - 1) as usize, read_end: true }]
    } else {
        Seq::empty()
    }) + (if i + 1 < n {
        seq![PipeAction::Close { pipe: i as usize, read_end: false }]
    } else {
        Seq::empty()
    })
}

/// Starting stages `i..n`, each followed by the closing of the pipe ends it was handed.
pub open spec fn spawn_phase(n: int, i: int) -> Seq<PipeAction>
    decreases n - i,
{
    if i >= n || i < 0 {
        Seq::empty()
    } else {
        seq![
            PipeAction::Spawn {
                stage: i as usize,
                wiring: StageWiring { stdin_pipe: stdin_pipe_spec(n, i), stdout_pipe: stdout_pipe_spec(n, i) },
            },
        ] + closes_after(n, i) + spawn_phase(n, i + 1)
    }
}

/// Waiting for stages `i..n` in start order.
pub open spec fn wait_phase(n: int, i: int) -> Seq<PipeAction>
    decreases n - i,
{
    if i >= n || i < 0 {
        Seq::empty()
    } else {
        seq![PipeAction::Wait { stage: i as usize }] + wait_phase(n, i + 1)
    }
}

pub open spec fn pipeline_actions_spec(n: int) -> Seq<PipeAction> {
    spawn_phase(n, 0) + wait_phase(n, 0)
}

/// The stages started, in order.
pub open spec fn spawned(acts: Seq<PipeAction>) -> Seq<int>
    decreases acts.len(),
{
    if acts.len() == 0 {
        Seq::empty()
    } else {
        (match acts[0] {
            PipeAction::Spawn { stage, .. } => seq![stage as int],
            _ => Seq::empty(),
        }) + spawned(acts.drop_first())
    }
}

/// The stages waited for, in order.
pub open spec fn waited(acts: Seq<PipeAction>) -> Seq<int>
    decreases acts.len(),
{
    if acts.len() == 0 {
        Seq::empty()
    } else {
        (match acts[0] {
            PipeAction::Wait { stage } => seq![stage as int],
            _ => Seq::empty(),
        }) + waited(acts.drop_first())
    }
}

/// The pipe ends closed, in order.
pub open spec fn closed(acts: Seq<PipeAction>) -> Seq<(int, bool)>
    decreases acts.len(),
{
    if acts.len() == 0 {
        Seq::empty()
    } else {
        (match acts[0] {
            PipeAction::Close { pipe, read_end } => seq![(pipe as int, read_end)],
            _ => Seq::empty(),
        }) + closed(acts.drop_first())
    }
}

proof fn lemma_proj_concat(a: Seq<PipeAction>, b: Seq<PipeAction>)
    ensures
        spawned(a + b) == spawned(a) + spawned(b),
        waited(a + b) == waited(a) + waited(b),
        closed(a + b) == closed(a) + closed(b),
    decreases a.len(),
{
    if a.len() == 0 {
        assert(a + b =~= b);
        assert(spawned(a) + spawned(b) =~= spawned(b));
        assert(waited(a) + waited(b) =~= waited(b));
        assert(closed(a) + closed(b) =~= closed(b));
    } else {
        assert((a + b).drop_first() =~= a.drop_first() + b);
        assert((a + b)[0] == a[0]);
        lemma_proj_concat(a.drop_first(), b);
        assert(spawned(a + b) =~= spawned(a) + spawned(b));
        assert(waited(a + b) =~= waited(a) + waited(b));
        assert(closed(a + b) =~= closed(a) + closed(b));
    }
}

proof fn lemma_proj_single(x: PipeAction)
    ensures
        spawned(seq![x]) == (match x {
            PipeAction::Spawn { stage, .. } => seq![stage as int],
            _ => Seq::<int>::empty(),
        }),
        waited(seq![x]) == (match x {
            PipeAction::Wait { stage } => seq![stage as int],
            _ => Seq::<int>::empty(),
        }),
        closed(seq![x]) == (match x {
            PipeAction::Close { pipe, read_end } => seq![(pipe as int, read_end)],
            _ => Seq::<(int, bool)>::empty(),
        }),
{
    assert(seq![x].drop_first() =~= Seq::<PipeAction>::empty());
    assert(seq![x][0] == x);
    assert(spawned(Seq::<PipeAction>::empty()) =~= Seq::<int>::empty());
    assert(waited(Seq::<PipeAction>::empty()) =~= Seq::<int>::empty());
    assert(closed(Seq::<PipeAction>::empty()) =~= Seq::<(int, bool)>::empty());
    assert(spawned(seq![x]) =~= (match x {
        PipeAction::Spawn { stage, .. } => seq![stage as int],
        _ => Seq::<int>::empty(),
    }));
    assert(waited(seq![x]) =~= (match x {
        PipeAction::Wait { stage } => seq![stage as int],
        _ => Seq::<int>::empty(),
    }));
    assert(closed(seq![x]) =~= (match x {
        PipeAction::Close { pipe, read_end } => seq![(pipe as int, read_end)],
        _ => Seq::<(int, bool)>::empty(),
    }));
}

/// The expected order of closing: the write end of pipe `k` after stage `k` starts, its read
/// end after stage `k + 1` starts.
pub open spec fn close_order(from: int, n: int) -> Seq<(int, bool)>
    decreases n - from,
{
    if from >= n || from < 0 {
        Seq::empty()
    } else {
        (if from > 0 {
            seq![(from - 1, true)]
        } else {
            Seq::empty()
        }) + (if from + 1 < n {
            seq![(from, false)]
        } else {
            Seq::empty()
        }) + close_order(from + 1, n)
    }
}

proof fn lemma_spawn_phase(n: int, i: int)
    requires
        2 <= n <= usize::MAX,
        0 <= i <= n,
    ensures
        spawned(spawn_phase(n, i)) == Seq::new((n - i) as nat, |j: int| i + j),
        waited(spawn_phase(n, i)) == Seq::<int>::empty(),
        closed(spawn_phase(n, i)) == close_order(i, n),
    decreases n - i,
{
    if i < n {
        let sp = PipeAction::Spawn {
            stage: i as usize,
            wiring: StageWiring { stdin_pipe: stdin_pipe_spec(n, i), stdout_pipe: stdout_pipe_spec(n, i) },
        };
        let c1 = if i > 0 { seq![PipeAction::Close { pipe: (i - 1) as usize, read_end: true }] } else { Seq::empty() };
        let c2 = if i + 1 < n { seq![PipeAction::Close { pipe: i as usize, read_end: false }] } else { Seq::empty() };
        lemma_spawn_phase(n, i + 1);
        lemma_proj_single(sp);
        if i > 0 {
            lemma_proj_single(PipeAction::Close { pipe: (i - 1) as usize, read_end: true });
        } else {
            assert(spawned(c1) =~= Seq::<int>::empty());
            assert(waited(c1) =~= Seq::<int>::empty());
            assert(closed(c1) =~= Seq::<(int, bool)>::empty());
        }
        if i + 1 < n {
            lemma_proj_single(PipeAction::Close { pipe: i as usize, read_end: false });
        } else {
            assert(spawned(c2) =~= Seq::<int>::empty());
            assert(waited(c2) =~= Seq::<int>::empty());
            assert(closed(c2) =~= Seq::<(int, bool)>::empty());
        }
        lemma_proj_concat(c1, c2);
        lemma_proj_concat(seq![sp], c1 + c2);
        lemma_proj_concat(seq![sp] + (c1 + c2), spawn_phase(n, i + 1));
        assert(closes_after(n, i) == c1 + c2);
        assert(spawn_phase(n, i) == seq![sp] + (c1 + c2) + spawn_phase(n, i + 1)) by {
            assert(seq![sp] + closes_after(n, i) + spawn_phase(n, i + 1) =~= seq![sp] + (c1 + c2) + spawn_phase(n, i + 1));
        }
        assert(spawned(spawn_phase(n, i)) =~= Seq::new((n - i) as nat, |j: int| i + j));
        assert(waited(spawn_phase(n, i)) =~= Seq::<int>::empty());
        assert(closed(spawn_phase(n, i)) =~= close_order(i, n));
    } else {
        assert(spawned(spawn_phase(n, i)) =~= Seq::new((n - i) as nat, |j: int| i + j));
    }
}

proof fn lemma_wait_phase(n: int, i: int)
    requires
        2 <= n <= usize::MAX,
        0 <= i <= n,
    ensures
        spawned(wait_phase(n, i)) == Seq::<int>::empty(),
        waited(wait_phase(n, i)) == Seq::new((n - i) as nat, |j: int| i + j),
        closed(wait_phase(n, i)) == Seq::<(int, bool)>::empty(),
    decreases n - i,
{
    if i < n {
        let w = PipeAction::Wait { stage: i as usize };
        lemma_wait_phase(n, i + 1);
        lemma_proj_single(w);
        lemma_proj_concat(seq![w], wait_phase(n, i + 1));
        assert(waited(wait_phase(n, i)) =~= Seq::new((n - i) as nat, |j: int| i + j));
        assert(spawned(wait_phase(n, i)) =~= Seq::<int>::empty());
        assert(closed(wait_phase(n, i)) =~= Seq::<(int, bool)>::empty());
    } else {
        assert(waited(wait_phase(n, i)) =~= Seq::new((n - i) as nat, |j: int| i + j));
    }
}

proof fn lemma_close_order(from: int, n: int)
    requires
        2 <= n,
        1 <= from < n,
    ensures
        close_order(from, n) == Seq::new((2 * (n - from) - 1) as nat, |j: int| (from - 1 + (j + 1) / 2, j % 2 == 0)),
    decreases n - from,
{
    assert(close_order(n, n) =~= Seq::<(int, bool)>::empty());
    if from + 1 < n {
        lemma_close_order(from + 1, n);
        assert(close_order(from, n) =~= Seq::new((2 * (n - from) - 1) as nat, |j: int| (from - 1 + (j + 1) / 2, j % 2 == 0)));
    } else {
        assert(close_order(from, n) =~= Seq::new((2 * (n - from) - 1) as nat, |j: int| (from - 1 + (j + 1) / 2, j % 2 == 0)));
    }
}

/// Running an `n`-stage pipeline starts stages `0..n` in order, then waits for stages `0..n`
/// in order, so every stage is started once and every child is waited for once; in between,
/// the shell closes the write end of pipe `k` after starting stage `k` and its read end after
/// starting stage `k + 1`, so each of the `2 (n - 1)` pipe ends is closed exactly once.
pub proof fn lemma_pipeline_actions(n: int)
    requires
        2 <= n <= usize::MAX,
    ensures
        spawned(pipeline_actions_spec(n)) == Seq::new(n as nat, |j: int| j),
        waited(pipeline_actions_spec(n)) == Seq::new(n as nat, |j: int| j),
        closed(pipeline_actions_spec(n)) == (seq![(0int, false)] + Seq::new(
            (2 * (n - 1) - 1) as nat,
            |j: int| ((j + 1) / 2, j % 2 == 0),
        )),
{
    lemma_spawn_phase(n, 0);
    lemma_wait_phase(n, 0);
    lemma_proj_concat(spawn_phase(n, 0), wait_phase(n, 0));
    assert(spawned(pipeline_actions_spec(n)) =~= Seq::new(n as nat, |j: int| j));
    assert(waited(pipeline_actions_spec(n)) =~= Seq::new(n as nat, |j: int| j));
    lemma_close_order(1, n);
    assert(close_order(0, n) == seq![(0int, false)] + close_order(1, n)) by {
        assert(close_order(0, n) =~= seq![(0int, false)] + close_order(1, n));
    }
    assert(closed(pipeline_actions_spec(n)) =~= seq![(0int, false)] + Seq::new(
        (2 * (n - 1) - 1) as nat,
        |j: int| ((j + 1) / 2, j % 2 == 0),
    )) by {
        assert(closed(pipeline_actions_spec(n)) =~= close_order(0, n) + Seq::<(int, bool)>::empty());
    }
}

} // verus!

verus! {

/// What the shell does to run an `n`-stage pipeline, in order.
pub fn pipeline_actions(n: usize) -> (r: Vec<PipeAction>)
    requires
        2 <= n,
    ensures
        r@ == pipeline_actions_spec(n as int),
{
    let mut r: Vec<PipeAction> = Vec::new();
    let mut i: usize = 0;
    assert(r@ + spawn_phase(n as int, 0) =~= spawn_phase(n as int, 0));
    while i < n
        invariant
            2 <= n <= usize::MAX,
            i <= n,
            spawn_phase(n as int, 0) == r@ + spawn_phase(n as int, i as int),
        decreases n - i,
    {
        let ghost before = r@;
        r.push(PipeAction::Spawn { stage: i, wiring: stage_wiring(n, i) });
        if i > 0 {
            r.push(PipeAction::Close { pipe: i - 1, read_end: true });
        }
        if i + 1 < n {
            r.push(PipeAction::Close { pipe: i, read_end: false });
        }
        proof {
            let sp = PipeAction::Spawn {
                stage: i as usize,
                wiring: StageWiring { stdin_pipe: stdin_pipe_spec(n as int, i as int), stdout_pipe: stdout_pipe_spec(n as int, i as int) },
            };
            assert(r@ =~= before + (seq![sp] + closes_after(n as int, i as int)));
            assert(spawn_phase(n as int, i as int) == seq![sp] + closes_after(n as int, i as int) + spawn_phase(n as int, i + 1));
            assert(before + spawn_phase(n as int, i as int) =~= r@ + spawn_phase(n as int, i + 1));
        }
        i = i + 1;
    }
    assert(spawn_phase(n as int, n as int) =~= Seq::<PipeAction>::empty());
    let ghost spawns = r@;
    let mut k: usize = 0;
    assert(r@ =~= spawns + Seq::<PipeAction>::empty());
    assert(wait_phase(n as int, 0) =~= Seq::<PipeAction>::empty() + wait_phase(n as int, 0));
    while k < n
        invariant
            k <= n,
            spawns == spawn_phase(n as int, 0),
            exists|w: Seq<PipeAction>| r@ == spawns + w && wait_phase(n as int, 0) == w + wait_phase(n as int, k as int),
        decreases n - k,
    {
        let ghost w = choose|w: Seq<PipeAction>| r@ == spawns + w && wait_phase(n as int, 0) == w + wait_phase(n as int, k as int);
        r.push(PipeAction::Wait { stage: k });
        proof {
            let x = PipeAction::Wait { stage: k };
            assert(wait_phase(n as int, k as int) == seq![x] + wait_phase(n as int, k + 1));
            assert(r@ =~= spawns + w.push(x));
            assert(wait_phase(n as int, 0) =~= w.push(x) + wait_phase(n as int, k + 1));
        }
        k = k + 1;
    }
    proof {
        let w = choose|w: Seq<PipeAction>| r@ == spawns + w && wait_phase(n as int, 0) == w + wait_phase(n as int, k as int);
        assert(wait_phase(n as int, n as int) =~= Seq::<PipeAction>::empty());
        assert(w =~= wait_phase(n as int, 0));
    }
    r
}

} // verus!

verus! {

/// The standard descriptor a redirection replaces: 0 for input, 1 for output.
pub fn target_fd(kind: RedirectKind) -> (r: i32)
    ensures
        r == (if kind == RedirectKind::In {
            0i32
        } else {
            1i32
        }),
{
    match kind {
        RedirectKind::In => 0,
        _ => 1,
    }
}

/// The status of a command that was not found.
pub open spec fn not_found_status() -> i32 {
    127
}

/// What the shell reports for a command `name` that could not be found: status 127 and
/// `tiny-shell: <name>: command not found` on standard error.
pub fn command_not_found(name: &str) -> (r: (i32, String))
    ensures
        r.0 == not_found_status(),
        r.1@ == "tiny-shell: "@ + name@ + ": command not found\n"@,
{
    let mut v = crate::text::chars_of("tiny-shell: ");
    let n = crate::text::chars_of(name);
    let tail = crate::text::chars_of(": command not found\n");
    let ghost start = v@;
    let mut i: usize = 0;
    while i < n.len()
        invariant
            i <= n.len(),
            v@ == start + n@.subrange(0, i as int),
        decreases n.len() - i,
    {
        v.push(n[i]);
        i = i + 1;
        assert(v@ =~= start + n@.subrange(0, i as int));
    }
    let ghost mid = v@;
    let mut j: usize = 0;
    while j < tail.len()
        invariant
            j <= tail.len(),
            v@ == mid + tail@.subrange(0, j as int),
        decreases tail.len() - j,
    {
        v.push(tail[j]);
        j = j + 1;
        assert(v@ =~= mid + tail@.subrange(0, j as int));
    }
    assert(n@.subrange(0, i as int) =~= n@);
    assert(tail@.subrange(0, j as int) =~= tail@);
    (127, crate::text::string_from_chars(&v))
}

/// Where the history file is: a leading `~/` stands for the home directory, when known.
pub open spec fn history_path_spec(file: Seq<char>, home: Option<Seq<char>>) -> Seq<char> {
    if file.len() >= 2 && file[0] == '~' && file[1] == '/' && home is Some {
        home->Some_0 + file.drop_first()
    } else {
        file
    }
}

pub fn history_path(file: &str, home: Option<&str>) -> (r: String)
    ensures
        r@ == history_path_spec(file@, match home {
            Some(h) => Some(h@),
            None => None,
        }),
{
    let f = crate::text::chars_of(file);
    if f.len() >= 2 && f[0] == '~' && f[1] == '/' {
        if let Some(h) = home {
            let mut v = crate::text::chars_of(h);
            let ghost start = v@;
            let mut i: usize = 1;
            while i < f.len()
                invariant
                    1 <= i <= f.len(),
                    v@ == start + f@.subrange(1, i as int),
                decreases f.len() - i,
            {
                v.push(f[i]);
                i = i + 1;
                assert(v@ =~= start + f@.subrange(1, i as int));
            }
            assert(f@.subrange(1, i as int) =~= f@.drop_first());
            return crate::text::string_from_chars(&v);
        }
    }
    crate::text::string_from_chars(&f)
}

} // verus!

verus! {

/// The status after carrying out `acts`, from status `cur`: each `Wait` for stage `k` sets it
/// to `st[k]`, the status that stage's child ended with.
pub open spec fn status_after(acts: Seq<PipeAction>, st: Seq<i32>, cur: i32) -> i32
    decreases acts.len(),
{
    if acts.len() == 0 {
        cur
    } else {
        status_after(
            acts.drop_first(),
            st,
            match acts[0] {
                PipeAction::Wait { stage } => if stage < st.len() {
                    st[stage as int]
                } else {
                    cur
                },
                _ => cur,
            },
        )
    }
}

proof fn lemma_status_concat(a: Seq<PipeAction>, b: Seq<PipeAction>, st: Seq<i32>, cur: i32)
    ensures
        status_after(a + b, st, cur) == status_after(b, st, status_after(a, st, cur)),
    decreases a.len(),
{
    if a.len() == 0 {
        assert(a + b =~= b);
    } else {
        assert((a + b).drop_first() =~= a.drop_first() + b);
        assert((a + b)[0] == a[0]);
        let next = match a[0] {
            PipeAction::Wait { stage } => if stage < st.len() {
                st[stage as int]
            } else {
                cur
            },
            _ => cur,
        };
        lemma_status_concat(a.drop_first(), b, st, next);
    }
}

proof fn lemma_spawn_status(n: int, i: int, st: Seq<i32>, cur: i32)
    requires
        0 <= i <= n,
    ensures
        status_after(spawn_phase(n, i), st, cur) == cur,
    decreases n - i,
{
    if i < n {
        let sp = PipeAction::Spawn {
            stage: i as usize,
            wiring: StageWiring { stdin_pipe: stdin_pipe_spec(n, i), stdout_pipe: stdout_pipe_spec(n, i) },
        };
        let c = closes_after(n, i);
        lemma_spawn_status(n, i + 1, st, cur);
        lemma_status_concat(seq![sp] + c, spawn_phase(n, i + 1), st, cur);
        lemma_status_concat(seq![sp], c, st, cur);
        assert(seq![sp].drop_first() =~= Seq::<PipeAction>::empty());
        assert(seq![sp][0] == sp);
        assert(status_after(Seq::<PipeAction>::empty(), st, cur) == cur);
        assert(status_after(seq![sp], st, cur) == cur);
        if i > 0 && i + 1 < n {
            assert(c.drop_first().drop_first() =~= Seq::<PipeAction>::empty());
            assert(status_after(c.drop_first(), st, cur) == cur);
        } else if i > 0 || i + 1 < n {
            assert(c.drop_first() =~= Seq::<PipeAction>::empty());
        } else {
            assert(c =~= Seq::<PipeAction>::empty());
        }
        assert(status_after(c, st, cur) == cur);
    }
}

proof fn lemma_wait_status(n: int, i: int, st: Seq<i32>, cur: i32)
    requires
        0 <= i < n <= usize::MAX,
        st.len() == n,
    ensures
        status_after(wait_phase(n, i), st, cur) == st[n - 1],
    decreases n - i,
{
    let w = PipeAction::Wait { stage: i as usize };
    lemma_status_concat(seq![w], wait_phase(n, i + 1), st, cur);
    assert(seq![w].drop_first() =~= Seq::<PipeAction>::empty());
    assert(seq![w][0] == w);
    assert(status_after(Seq::<PipeAction>::empty(), st, st[i]) == st[i]);
    assert(status_after(seq![w], st, cur) == st[i]);
    assert(wait_phase(n, i) == seq![w] + wait_phase(n, i + 1));
    if i + 1 < n {
        lemma_wait_status(n, i + 1, st, st[i]);
    } else {
        assert(wait_phase(n, i + 1) =~= Seq::<PipeAction>::empty());
    }
}

/// A pipeline's status is its last stage's: carrying out the actions of an `n`-stage pipeline
/// ends with the status of stage `n - 1`, whatever the other stages ended with (no pipefail).
pub proof fn lemma_pipeline_status(n: int, st: Seq<i32>, cur: i32)
    requires
        2 <= n <= usize::MAX,
        st.len() == n,
    ensures
        status_after(pipeline_actions_spec(n), st, cur) == st[n - 1],
{
    lemma_spawn_status(n, 0, st, cur);
    lemma_status_concat(spawn_phase(n, 0), wait_phase(n, 0), st, cur);
    lemma_wait_status(n, 0, st, cur);
}

/// The status after carrying out `acts` when the stages ended with statuses `st`.
pub fn pipeline_status(acts: &Vec<PipeAction>, st: &Vec<i32>) -> (r: i32)
    ensures
        r == status_after(acts@, st@, 0),
{
    let mut cur: i32 = 0;
    let mut i: usize = 0;
    assert(acts@.subrange(0, acts@.len() as int) =~= acts@);
    while i < acts.len()
        invariant
            i <= acts.len(),
            status_after(acts@, st@, 0) == status_after(acts@.subrange(i as int, acts@.len() as int), st@, cur),
        decreases acts.len() - i,
    {
        let ghost rest = acts@.subrange(i as int, acts@.len() as int);
        assert(rest.drop_first() =~= acts@.subrange(i + 1, acts@.len() as int));
        assert(rest[0] == acts@[i as int]);
        match acts[i] {
            PipeAction::Wait { stage } => {
                if stage < st.len() {
                    cur = st[stage];
                }
            },
            _ => {},
        }
        i = i + 1;
    }
    assert(acts@.subrange(i as int, acts@.len() as int) =~= Seq::<PipeAction>::empty());
    cur
}

} // verus!
