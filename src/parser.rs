use vstd::prelude::*;
use crate::roundtrip::{lemma_parsed_well_formed, seq_toks};
use crate::ast::{well_formed, Ast, AstNode, CommandKind, CommandNode, RedirectKind, models, lemma_models_of_vec, strings_view};
use crate::lexer::{TokV, tokens_view};
use crate::token::{Token, TokenKind};

verus! {

/// Why a token stream does not parse.
#[derive(Debug, Clone, Copy, PartialEq, Eq, Structural)]
pub enum ParseError {
    UnexpectedEof,
    UnexpectedToken { found: TokenKind, expected: TokenKind, pos: usize },
    UnmatchedParen { pos: usize },
    UnclosedQuote { pos: usize, quote: char },
    EmptyInput,
    /// The word at `pos` would name a command but is empty.
    EmptyCommandName { pos: usize },
}

/// One redirection suffix: its kind and file name.
pub type RedirV = (RedirectKind, Seq<char>);

pub type PRes = Result<(Ast, int), ParseError>;

/// The kind of the token at `p`; past the end every token reads as `Eof`.
pub open spec fn kind_of(ts: Seq<TokV>, p: int) -> TokenKind {
    if 0 <= p < ts.len() {
        ts[p].0
    } else {
        TokenKind::Eof
    }
}

pub open spec fn is_redirect(k: TokenKind) -> bool {
    k == TokenKind::RedirectIn || k == TokenKind::RedirectOut || k == TokenKind::RedirectAppend
}

pub open spec fn redirect_kind(k: TokenKind) -> RedirectKind {
    if k == TokenKind::RedirectIn {
        RedirectKind::In
    } else if k == TokenKind::RedirectOut {
        RedirectKind::Out
    } else {
        RedirectKind::Append
    }
}

/// The error for finding something other than `expected` at `p`.
pub open spec fn unexpected(ts: Seq<TokV>, p: int, expected: TokenKind) -> ParseError {
    if kind_of(ts, p) == TokenKind::Eof {
        ParseError::UnexpectedEof
    } else {
        ParseError::UnexpectedToken { found: kind_of(ts, p), expected, pos: p as usize }
    }
}

/// The texts of the run of `Word` tokens starting at `p`.
pub open spec fn words(ts: Seq<TokV>, p: int) -> Seq<Seq<char>>
    decreases ts.len() - p,
{
    if 0 <= p < ts.len() && ts[p].0 == TokenKind::Word {
        seq![ts[p].1] + words(ts, p + 1)
    } else {
        Seq::empty()
    }
}

/// The run of redirection suffixes starting at `p`, appended to `acc`.
pub open spec fn redirs(ts: Seq<TokV>, p: int, acc: Seq<RedirV>) -> Result<(Seq<RedirV>, int), ParseError>
    decreases ts.len() - p,
{
    if 0 <= p < ts.len() && is_redirect(ts[p].0) {
        if kind_of(ts, p + 1) == TokenKind::Word {
            redirs(ts, p + 2, acc.push((redirect_kind(ts[p].0), ts[p + 1].1)))
        } else {
            Err(unexpected(ts, p + 1, TokenKind::Word))
        }
    } else {
        Ok((acc, p))
    }
}

/// Applies the redirections to `a`, the first one innermost.
pub open spec fn wrap(a: Ast, rs: Seq<RedirV>) -> Ast
    decreases rs.len(),
{
    if rs.len() == 0 {
        a
    } else {
        wrap(Ast::Redir(Box::new(a), rs[0].0, rs[0].1), rs.drop_first())
    }
}

/// `atom := "(" sequence ")" | WORD+`
pub open spec fn p_atom(ts: Seq<TokV>, p: int) -> PRes
    decreases ts.len() - p, 0int,
{
    let k = kind_of(ts, p);
    if k == TokenKind::LParen {
        match p_seq(ts, p + 1) {
            Ok((a, q)) => if kind_of(ts, q) == TokenKind::RParen {
                Ok((Ast::Subshell(Box::new(a)), q + 1))
            } else {
                Err(ParseError::UnmatchedParen { pos: q as usize })
            },
            Err(e) => Err(e),
        }
    } else if k == TokenKind::Word {
        if ts[p].1.len() == 0 {
            Err(ParseError::EmptyCommandName { pos: p as usize })
        } else {
            let args = words(ts, p + 1);
            Ok((Ast::Cmd(ts[p].1, args, CommandKind::Simple), p + 1 + args.len()))
        }
    } else {
        Err(unexpected(ts, p, TokenKind::Word))
    }
}

/// An atom and the redirections that follow it.
pub open spec fn p_stage(ts: Seq<TokV>, p: int) -> Result<(Ast, Seq<RedirV>, int), ParseError>
    decreases ts.len() - p, 1int,
{
    match p_atom(ts, p) {
        Ok((a, q)) => match redirs(ts, q, Seq::empty()) {
            Ok((rs, r)) => Ok((a, rs, r)),
            Err(e) => Err(e),
        },
        Err(e) => Err(e),
    }
}

/// The rest of a pipeline: `stages` are done, `last` with its redirections `rs` is pending.
/// Redirections after the final stage apply to the whole pipeline.
pub open spec fn p_pipe_rest(ts: Seq<TokV>, p: int, stages: Seq<Ast>, last: Ast, rs: Seq<RedirV>) -> PRes
    decreases ts.len() - p, 2int,
{
    if kind_of(ts, p) == TokenKind::Pipe {
        match p_stage(ts, p + 1) {
            Ok((a, rs2, q)) => if q <= p || q > ts.len() {
                Err(ParseError::EmptyInput)
            } else {
                p_pipe_rest(ts, q, stages.push(wrap(last, rs)), a, rs2)
            },
            Err(e) => Err(e),
        }
    } else if stages.len() == 0 {
        Ok((wrap(last, rs), p))
    } else {
        Ok((wrap(Ast::Pipe(stages.push(last)), rs), p))
    }
}

/// `pipeline := redirected ("|" redirected)*`
pub open spec fn p_pipeline(ts: Seq<TokV>, p: int) -> PRes
    decreases ts.len() - p, 3int,
{
    match p_stage(ts, p) {
        Ok((a, rs, q)) => if q <= p || q > ts.len() {
            Err(ParseError::EmptyInput)
        } else {
            p_pipe_rest(ts, q, Seq::empty(), a, rs)
        },
        Err(e) => Err(e),
    }
}

/// The rest of a left-associative chain of `&&` / `||` whose left part is `left`.
pub open spec fn p_andor_rest(ts: Seq<TokV>, p: int, left: Ast) -> PRes
    decreases ts.len() - p, 4int,
{
    let k = kind_of(ts, p);
    if k == TokenKind::And || k == TokenKind::Or {
        match p_pipeline(ts, p + 1) {
            Ok((r, q)) => if q <= p || q > ts.len() {
                Err(ParseError::EmptyInput)
            } else {
                p_andor_rest(
                    ts,
                    q,
                    if k == TokenKind::And {
                        Ast::And(Box::new(left), Box::new(r))
                    } else {
                        Ast::Or(Box::new(left), Box::new(r))
                    },
                )
            },
            Err(e) => Err(e),
        }
    } else {
        Ok((left, p))
    }
}

/// `and_or := pipeline (("&&" | "||") pipeline)*`
pub open spec fn p_andor(ts: Seq<TokV>, p: int) -> PRes
    decreases ts.len() - p, 5int,
{
    match p_pipeline(ts, p) {
        Ok((a, q)) => if q <= p || q > ts.len() {
            Err(ParseError::EmptyInput)
        } else {
            p_andor_rest(ts, q, a)
        },
        Err(e) => Err(e),
    }
}

/// The rest of a `;`-separated list whose parts so far are `items`.
pub open spec fn p_seq_rest(ts: Seq<TokV>, p: int, items: Seq<Ast>) -> PRes
    decreases ts.len() - p, 6int,
{
    if kind_of(ts, p) == TokenKind::Semicolon {
        match p_andor(ts, p + 1) {
            Ok((a, q)) => if q <= p || q > ts.len() {
                Err(ParseError::EmptyInput)
            } else {
                p_seq_rest(ts, q, items.push(a))
            },
            Err(e) => Err(e),
        }
    } else if items.len() == 1 {
        Ok((items[0], p))
    } else {
        Ok((Ast::Sequence(items), p))
    }
}

/// `sequence := and_or (";" and_or)*`
pub open spec fn p_seq(ts: Seq<TokV>, p: int) -> PRes
    decreases ts.len() - p, 7int,
{
    match p_andor(ts, p) {
        Ok((a, q)) => if q <= p || q > ts.len() {
            Err(ParseError::EmptyInput)
        } else {
            p_seq_rest(ts, q, seq![a])
        },
        Err(e) => Err(e),
    }
}

/// What parsing the whole token stream yields.
pub open spec fn parse_spec(ts: Seq<TokV>) -> Result<Ast, ParseError> {
    if kind_of(ts, 0) == TokenKind::Eof {
        Err(ParseError::EmptyInput)
    } else {
        match p_seq(ts, 0) {
            Ok((a, q)) => if kind_of(ts, q) == TokenKind::Eof {
                Ok(a)
            } else {
                Err(ParseError::UnexpectedToken { found: kind_of(ts, q), expected: TokenKind::Eof, pos: q as usize })
            },
            Err(e) => Err(e),
        }
    }
}

pub open spec fn parse_result_view(r: Result<AstNode, ParseError>) -> Result<Ast, ParseError> {
    match r {
        Ok(a) => Ok(a.model()),
        Err(e) => Err(e),
    }
}

/// `r` is the executable counterpart of `s`, and on success moved past `p` (strictly when `strict`).
pub open spec fn matches_res(r: Result<(AstNode, usize), ParseError>, s: PRes, p: int, n: int, strict: bool) -> bool {
    match r {
        Ok((a, q)) => s == Ok::<(Ast, int), ParseError>((a.model(), q as int)) && q <= n && (if strict {
            p < q
        } else {
            p <= q
        }),
        Err(e) => s == Err::<(Ast, int), ParseError>(e),
    }
}

pub open spec fn redirs_view(v: Seq<(RedirectKind, String)>) -> Seq<RedirV> {
    v.map_values(|x: (RedirectKind, String)| (x.0, x.1@))
}

fn kind_at(ts: &[Token], p: usize) -> (k: TokenKind)
    ensures
        k == kind_of(tokens_view(ts@), p as int),
{
    if p < ts.len() {
        ts[p].kind
    } else {
        TokenKind::Eof
    }
}

fn unexpected_at(ts: &[Token], p: usize, expected: TokenKind) -> (e: ParseError)
    ensures
        e == unexpected(tokens_view(ts@), p as int, expected),
{
    let k = kind_at(ts, p);
    if k == TokenKind::Eof {
        ParseError::UnexpectedEof
    } else {
        ParseError::UnexpectedToken { found: k, expected, pos: p }
    }
}

fn parse_atom(ts: &[Token], p: usize) -> (r: Result<(AstNode, usize), ParseError>)
    requires
        p <= ts.len(),
    ensures
        matches_res(r, p_atom(tokens_view(ts@), p as int), p as int, ts.len() as int, true),
    decreases ts.len() - p, 0int,
{
    let ghost v = tokens_view(ts@);
    let k = kind_at(ts, p);
    if k == TokenKind::LParen {
        match parse_seq(ts, p + 1) {
            Ok((a, q)) => {
                if kind_at(ts, q) == TokenKind::RParen {
                    Ok((AstNode::Subshell(Box::new(a)), q + 1))
                } else {
                    Err(ParseError::UnmatchedParen { pos: q })
                }
            },
            Err(e) => Err(e),
        }
    } else if k == TokenKind::Word {
        if ts[p].lexeme.as_str().is_empty() {
            return Err(ParseError::EmptyCommandName { pos: p });
        }
        let name = ts[p].lexeme.clone();
        let mut args: Vec<String> = Vec::new();
        let mut j = p + 1;
        assert(strings_view(args@) =~= Seq::<Seq<char>>::empty());
        while j < ts.len() && ts[j].kind == TokenKind::Word
            invariant
                p + 1 <= j <= ts.len(),
                v == tokens_view(ts@),
                words(v, p + 1) == strings_view(args@) + words(v, j as int),
                args@.len() == j - (p + 1),
            decreases ts.len() - j,
        {
            let ghost before = strings_view(args@);
            args.push(ts[j].lexeme.clone());
            assert(strings_view(args@) =~= before.push(v[j as int].1));
            assert(words(v, j as int) == seq![v[j as int].1] + words(v, j + 1));
            assert(strings_view(args@) + words(v, j + 1) =~= before + words(v, j as int));
            j = j + 1;
        }
        assert(words(v, j as int) =~= Seq::<Seq<char>>::empty());
        assert(strings_view(args@) =~= words(v, p + 1));
        Ok((AstNode::Command(CommandNode { name, args, kind: CommandKind::Simple }), j))
    } else {
        Err(unexpected_at(ts, p, TokenKind::Word))
    }
}

fn parse_redirs(ts: &[Token], p: usize) -> (r: Result<(Vec<(RedirectKind, String)>, usize), ParseError>)
    requires
        p <= ts.len(),
    ensures
        match r {
            Ok((rs, q)) => redirs(tokens_view(ts@), p as int, Seq::empty()) == Ok::<(Seq<RedirV>, int), ParseError>(
                (redirs_view(rs@), q as int),
            ) && p <= q <= ts.len(),
            Err(e) => redirs(tokens_view(ts@), p as int, Seq::empty()) == Err::<(Seq<RedirV>, int), ParseError>(e),
        },
{
    let ghost v = tokens_view(ts@);
    let mut out: Vec<(RedirectKind, String)> = Vec::new();
    let mut j = p;
    assert(redirs_view(out@) =~= Seq::<RedirV>::empty());
    while j < ts.len() && (ts[j].kind == TokenKind::RedirectIn || ts[j].kind == TokenKind::RedirectOut
        || ts[j].kind == TokenKind::RedirectAppend)
        invariant
            p <= j <= ts.len(),
            v == tokens_view(ts@),
            redirs(v, p as int, Seq::empty()) == redirs(v, j as int, redirs_view(out@)),
        decreases ts.len() - j,
    {
        if kind_at(ts, j + 1) != TokenKind::Word {
            return Err(unexpected_at(ts, j + 1, TokenKind::Word));
        }
        let k = ts[j].kind;
        let rk = if k == TokenKind::RedirectIn {
            RedirectKind::In
        } else if k == TokenKind::RedirectOut {
            RedirectKind::Out
        } else {
            RedirectKind::Append
        };
        let ghost before = redirs_view(out@);
        out.push((rk, ts[j + 1].lexeme.clone()));
        assert(redirs_view(out@) =~= before.push((redirect_kind(v[j as int].0), v[j + 1].1)));
        j = j + 2;
    }
    Ok((out, j))
}

fn apply_redirects(a: AstNode, rs: &Vec<(RedirectKind, String)>) -> (r: AstNode)
    ensures
        r.model() == wrap(a.model(), redirs_view(rs@)),
{
    let ghost all = redirs_view(rs@);
    let ghost a0 = a.model();
    let mut node = a;
    let mut i: usize = 0;
    assert(all.subrange(0, rs.len() as int) =~= all);
    while i < rs.len()
        invariant
            i <= rs.len(),
            all == redirs_view(rs@),
            wrap(a0, all) == wrap(node.model(), all.subrange(i as int, rs.len() as int)),
        decreases rs.len() - i,
    {
        let k = rs[i].0;
        let f = rs[i].1.clone();
        let ghost rest = all.subrange(i as int, rs.len() as int);
        let ghost prev = node.model();
        node = AstNode::Redirect { node: Box::new(node), kind: k, file: f };
        assert(rest.drop_first() =~= all.subrange(i + 1, rs.len() as int));
        assert(rest[0] == (k, f@));
        assert(wrap(prev, rest) == wrap(Ast::Redir(Box::new(prev), k, f@), rest.drop_first()));
        i = i + 1;
    }
    assert(all.subrange(i as int, rs.len() as int) =~= Seq::<RedirV>::empty());
    node
}

fn parse_stage(ts: &[Token], p: usize) -> (r: Result<(AstNode, Vec<(RedirectKind, String)>, usize), ParseError>)
    requires
        p <= ts.len(),
    ensures
        match r {
            Ok((a, rs, q)) => p_stage(tokens_view(ts@), p as int) == Ok::<(Ast, Seq<RedirV>, int), ParseError>(
                (a.model(), redirs_view(rs@), q as int),
            ) && p < q <= ts.len(),
            Err(e) => p_stage(tokens_view(ts@), p as int) == Err::<(Ast, Seq<RedirV>, int), ParseError>(e),
        },
    decreases ts.len() - p, 1int,
{
    match parse_atom(ts, p) {
        Ok((a, q)) => match parse_redirs(ts, q) {
            Ok((rs, r)) => Ok((a, rs, r)),
            Err(e) => Err(e),
        },
        Err(e) => Err(e),
    }
}

fn parse_pipe_rest(
    ts: &[Token],
    p: usize,
    stages: Vec<AstNode>,
    last: AstNode,
    rs: Vec<(RedirectKind, String)>,
) -> (r: Result<(AstNode, usize), ParseError>)
    requires
        p <= ts.len(),
    ensures
        matches_res(
            r,
            p_pipe_rest(tokens_view(ts@), p as int, models(stages@), last.model(), redirs_view(rs@)),
            p as int,
            ts.len() as int,
            false,
        ),
    decreases ts.len() - p, 2int,
{
    let ghost sm = models(stages@);
    let ghost lm = last.model();
    if kind_at(ts, p) == TokenKind::Pipe {
        match parse_stage(ts, p + 1) {
            Ok((a, rs2, q)) => {
                let mut stages = stages;
                let done = apply_redirects(last, &rs);
                let ghost dm = done.model();
                stages.push(done);
                assert(models(stages@) =~= sm.push(dm));
                parse_pipe_rest(ts, q, stages, a, rs2)
            },
            Err(e) => Err(e),
        }
    } else if stages.len() == 0 {
        Ok((apply_redirects(last, &rs), p))
    } else {
        let mut stages = stages;
        stages.push(last);
        assert(models(stages@) =~= sm.push(lm));
        proof {
            lemma_models_of_vec(stages);
        }
        Ok((apply_redirects(AstNode::Pipeline(stages), &rs), p))
    }
}

fn parse_pipeline(ts: &[Token], p: usize) -> (r: Result<(AstNode, usize), ParseError>)
    requires
        p <= ts.len(),
    ensures
        matches_res(r, p_pipeline(tokens_view(ts@), p as int), p as int, ts.len() as int, true),
    decreases ts.len() - p, 3int,
{
    match parse_stage(ts, p) {
        Ok((a, rs, q)) => {
            let stages: Vec<AstNode> = Vec::new();
            assert(models(stages@) =~= Seq::<Ast>::empty());
            parse_pipe_rest(ts, q, stages, a, rs)
        },
        Err(e) => Err(e),
    }
}

fn parse_andor_rest(ts: &[Token], p: usize, left: AstNode) -> (r: Result<(AstNode, usize), ParseError>)
    requires
        p <= ts.len(),
    ensures
        matches_res(r, p_andor_rest(tokens_view(ts@), p as int, left.model()), p as int, ts.len() as int, false),
    decreases ts.len() - p, 4int,
{
    let k = kind_at(ts, p);
    if k == TokenKind::And || k == TokenKind::Or {
        match parse_pipeline(ts, p + 1) {
            Ok((r, q)) => {
                let node = if k == TokenKind::And {
                    AstNode::And(Box::new(left), Box::new(r))
                } else {
                    AstNode::Or(Box::new(left), Box::new(r))
                };
                parse_andor_rest(ts, q, node)
            },
            Err(e) => Err(e),
        }
    } else {
        Ok((left, p))
    }
}

fn parse_andor(ts: &[Token], p: usize) -> (r: Result<(AstNode, usize), ParseError>)
    requires
        p <= ts.len(),
    ensures
        matches_res(r, p_andor(tokens_view(ts@), p as int), p as int, ts.len() as int, true),
    decreases ts.len() - p, 5int,
{
    match parse_pipeline(ts, p) {
        Ok((a, q)) => parse_andor_rest(ts, q, a),
        Err(e) => Err(e),
    }
}

fn parse_seq_rest(ts: &[Token], p: usize, items: Vec<AstNode>) -> (r: Result<(AstNode, usize), ParseError>)
    requires
        p <= ts.len(),
        items.len() >= 1,
    ensures
        matches_res(r, p_seq_rest(tokens_view(ts@), p as int, models(items@)), p as int, ts.len() as int, false),
    decreases ts.len() - p, 6int,
{
    let ghost im = models(items@);
    if kind_at(ts, p) == TokenKind::Semicolon {
        match parse_andor(ts, p + 1) {
            Ok((a, q)) => {
                let ghost am = a.model();
                let mut items = items;
                items.push(a);
                assert(models(items@) =~= im.push(am));
                parse_seq_rest(ts, q, items)
            },
            Err(e) => Err(e),
        }
    } else if items.len() == 1 {
        let mut items = items;
        let a = items.remove(0);
        Ok((a, p))
    } else {
        proof {
            lemma_models_of_vec(items);
        }
        Ok((AstNode::Sequence(items), p))
    }
}

fn parse_seq(ts: &[Token], p: usize) -> (r: Result<(AstNode, usize), ParseError>)
    requires
        p <= ts.len(),
    ensures
        matches_res(r, p_seq(tokens_view(ts@), p as int), p as int, ts.len() as int, true),
    decreases ts.len() - p, 7int,
{
    match parse_andor(ts, p) {
        Ok((a, q)) => {
            let ghost am = a.model();
            let mut items: Vec<AstNode> = Vec::new();
            items.push(a);
            assert(models(items@) =~= seq![am]);
            parse_seq_rest(ts, q, items)
        },
        Err(e) => Err(e),
    }
}

/// Parses a whole token stream. A tree it yields is well formed (every command has a
/// non-empty name, every pipeline and sequence has two parts or more) and can be printed.
pub fn parse_tokens(ts: &[Token]) -> (r: Result<AstNode, ParseError>)
    ensures
        parse_result_view(r) == parse_spec(tokens_view(ts@)),
        r is Ok ==> well_formed(r->Ok_0.model()) && seq_toks(r->Ok_0.model()) is Some,
{
    proof {
        if parse_spec(tokens_view(ts@)) is Ok {
            lemma_parsed_well_formed(tokens_view(ts@));
        }
    }
    if kind_at(ts, 0) == TokenKind::Eof {
        return Err(ParseError::EmptyInput);
    }
    match parse_seq(ts, 0) {
        Ok((a, q)) => {
            let k = kind_at(ts, q);
            if k == TokenKind::Eof {
                Ok(a)
            } else {
                Err(ParseError::UnexpectedToken { found: k, expected: TokenKind::Eof, pos: q })
            }
        },
        Err(e) => Err(e),
    }
}

/// Something that turns input into a command tree.
pub trait Parser {
    fn parse(&mut self) -> Result<AstNode, ParseError>;
}

/// A recursive-descent parser over a token slice.
pub struct DefaultParser<'a> {
    tokens: &'a [Token],
    pos: usize,
}

impl<'a> DefaultParser<'a> {
    pub closed spec fn tokens(&self) -> Seq<TokV> {
        tokens_view(self.tokens@)
    }

    pub fn new(tokens: &'a [Token]) -> (r: Self)
        ensures
            r.tokens() == tokens_view(tokens@),
    {
        DefaultParser { tokens, pos: 0 }
    }

    /// Parses the whole token stream.
    pub fn parse(&mut self) -> (r: Result<AstNode, ParseError>)
        ensures
            parse_result_view(r) == parse_spec(old(self).tokens()),
            r is Ok ==> well_formed(r->Ok_0.model()) && seq_toks(r->Ok_0.model()) is Some,
            final(self).tokens() == old(self).tokens(),
    {
        let r = parse_tokens(self.tokens);
        self.pos = self.tokens.len();
        r
    }
}

impl<'a> Parser for DefaultParser<'a> {
    fn parse(&mut self) -> Result<AstNode, ParseError> {
        DefaultParser::parse(self)
    }
}

} // verus!
