use vstd::prelude::*;

verus! {

broadcast use {vstd::std_specs::vec::axiom_vec_index_decreases, vstd::seq::axiom_seq_index_decreases};

/// A command tree.
#[derive(Debug, PartialEq)]
pub enum AstNode {
    Command(CommandNode),
    /// Two or more stages whose output feeds the next stage's input.
    Pipeline(Vec<AstNode>),
    Redirect { node: Box<AstNode>, kind: RedirectKind, file: String },
    /// Two or more commands run one after the other.
    Sequence(Vec<AstNode>),
    And(Box<AstNode>, Box<AstNode>),
    Or(Box<AstNode>, Box<AstNode>),
    Subshell(Box<AstNode>),
}

/// A simple command: its name and arguments.
#[derive(Debug, Clone, PartialEq)]
pub struct CommandNode {
    pub name: String,
    pub args: Vec<String>,
    pub kind: CommandKind,
}

/// How a command is dispatched; the parser always yields `Simple`.
#[derive(Debug, Clone, Copy, PartialEq, Eq, Structural)]
pub enum CommandKind {
    Simple,
    Builtin,
    External,
}

/// Which standard stream a redirection replaces, and how the file is opened.
#[derive(Debug, Clone, Copy, PartialEq, Eq, Structural)]
pub enum RedirectKind {
    In,
    Out,
    Append,
}

/// The mathematical model of a command tree.
pub enum Ast {
    Cmd(Seq<char>, Seq<Seq<char>>, CommandKind),
    Pipe(Seq<Ast>),
    Redir(Box<Ast>, RedirectKind, Seq<char>),
    Sequence(Seq<Ast>),
    And(Box<Ast>, Box<Ast>),
    Or(Box<Ast>, Box<Ast>),
    Subshell(Box<Ast>),
}

pub open spec fn strings_view(v: Seq<String>) -> Seq<Seq<char>> {
    v.map_values(|s: String| s@)
}

impl CommandNode {
    pub open spec fn model(&self) -> Ast {
        Ast::Cmd(self.name@, strings_view(self.args@), self.kind)
    }
}

impl AstNode {
    pub open spec fn model(&self) -> Ast
        decreases self,
    {
        match self {
            AstNode::Command(c) => c.model(),
            AstNode::Pipeline(v) => Ast::Pipe(
                Seq::new(
                    v.len() as nat,
                    |i: int|
                        if 0 <= i < v.len() {
                            v[i].model()
                        } else {
                            Ast::Pipe(Seq::empty())
                        },
                ),
            ),
            AstNode::Redirect { node, kind, file } => Ast::Redir(Box::new(node.model()), *kind, file@),
            AstNode::Sequence(v) => Ast::Sequence(
                Seq::new(
                    v.len() as nat,
                    |i: int|
                        if 0 <= i < v.len() {
                            v[i].model()
                        } else {
                            Ast::Pipe(Seq::empty())
                        },
                ),
            ),
            AstNode::And(l, r) => Ast::And(Box::new(l.model()), Box::new(r.model())),
            AstNode::Or(l, r) => Ast::Or(Box::new(l.model()), Box::new(r.model())),
            AstNode::Subshell(n) => Ast::Subshell(Box::new(n.model())),
        }
    }
}

/// Every command has a non-empty name, every pipeline and every sequence two parts or more.
pub open spec fn well_formed(a: Ast) -> bool
    decreases a,
{
    match a {
        Ast::Cmd(n, _args, _k) => n.len() > 0,
        Ast::Pipe(st) => st.len() >= 2 && forall|i: int| 0 <= i < st.len() ==> well_formed(#[trigger] st[i]),
        Ast::Sequence(items) => items.len() >= 2 && forall|i: int|
            0 <= i < items.len() ==> well_formed(#[trigger] items[i]),
        Ast::Redir(x, _k, _f) => well_formed(*x),
        Ast::And(l, r) => well_formed(*l) && well_formed(*r),
        Ast::Or(l, r) => well_formed(*l) && well_formed(*r),
        Ast::Subshell(x) => well_formed(*x),
    }
}

/// The models of a list of trees.
pub open spec fn models(v: Seq<AstNode>) -> Seq<Ast> {
    Seq::new(v.len(), |i: int| v[i].model())
}

pub proof fn lemma_models_of_vec(v: Vec<AstNode>)
    ensures
        AstNode::Pipeline(v).model() == Ast::Pipe(models(v@)),
        AstNode::Sequence(v).model() == Ast::Sequence(models(v@)),
{
    let x = AstNode::Pipeline(v).model();
    assert(x->Pipe_0 =~= models(v@));
    let y = AstNode::Sequence(v).model();
    assert(y->Sequence_0 =~= models(v@));
}

} // verus!
