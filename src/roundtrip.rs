use vstd::prelude::*;
use crate::ast::{well_formed, Ast, AstNode, CommandKind, RedirectKind, strings_view};
use crate::lexer::{TokV, WordAcc, byte_offset, find_close, flush, extend, is_blank, lex_spec, op, stream, token_stream};
use crate::parser::{ParseError, RedirV, is_redirect, kind_of, redirs, words, wrap, p_atom, p_stage, p_pipe_rest, p_pipeline, p_andor_rest, p_andor, p_seq_rest, p_seq, parse_spec};
use crate::text::{chars_of, string_from_chars};
use crate::token::TokenKind;

verus! {

broadcast use {vstd::seq::axiom_seq_index_decreases, vstd::std_specs::vec::axiom_vec_index_decreases};

/// A word token.
pub open spec fn wd(w: Seq<char>) -> TokV {
    (TokenKind::Word, w, 0, 0)
}

/// An operator token.
pub open spec fn tk(k: TokenKind) -> TokV {
    (k, Seq::empty(), 0, 0)
}

/// The operator of a redirection.
pub open spec fn redir_tok(k: RedirectKind) -> TokenKind {
    match k {
        RedirectKind::In => TokenKind::RedirectIn,
        RedirectKind::Out => TokenKind::RedirectOut,
        RedirectKind::Append => TokenKind::RedirectAppend,
    }
}

pub open spec fn words_toks(ws: Seq<Seq<char>>) -> Seq<TokV>
    decreases ws.len(),
{
    if ws.len() == 0 {
        Seq::empty()
    } else {
        seq![wd(ws[0])] + words_toks(ws.drop_first())
    }
}

pub open spec fn redirs_toks(rs: Seq<RedirV>) -> Seq<TokV>
    decreases rs.len(),
{
    if rs.len() == 0 {
        Seq::empty()
    } else {
        seq![tk(redir_tok(rs[0].0)), wd(rs[0].1)] + redirs_toks(rs.drop_first())
    }
}

/// Two tokens of the same kind, and of the same text when they are words.
pub open spec fn same_tok(x: TokV, y: TokV) -> bool {
    x.0 == y.0 && (x.0 == TokenKind::Word ==> x.1 == y.1)
}

/// `t` stands in `ts` from index `p` on, spans aside.
pub open spec fn at(ts: Seq<TokV>, p: int, t: Seq<TokV>) -> bool {
    &&& 0 <= p
    &&& p + t.len() <= ts.len()
    &&& forall|i: int| 0 <= i < t.len() ==> same_tok(#[trigger] ts[p + i], t[i])
}

proof fn lemma_at_split(ts: Seq<TokV>, p: int, a: Seq<TokV>, b: Seq<TokV>)
    requires
        at(ts, p, a + b),
    ensures
        at(ts, p, a),
        at(ts, p + a.len(), b),
{
    assert forall|i: int| 0 <= i < a.len() implies same_tok(#[trigger] ts[p + i], a[i]) by {
        assert((a + b)[i] == a[i]);
    }
    assert forall|i: int| 0 <= i < b.len() implies same_tok(#[trigger] ts[p + a.len() + i], b[i]) by {
        assert(same_tok(ts[p + (a.len() + i)], (a + b)[a.len() + i]));
    }
}

proof fn lemma_words(ws: Seq<Seq<char>>, ts: Seq<TokV>, p: int)
    requires
        at(ts, p, words_toks(ws)),
        kind_of(ts, p + words_toks(ws).len()) != TokenKind::Word,
    ensures
        words(ts, p) == ws,
        words_toks(ws).len() == ws.len(),
    decreases ws.len(),
{
    if ws.len() == 0 {
        assert(words(ts, p) =~= ws);
    } else {
        let rest = ws.drop_first();
        lemma_at_split(ts, p, seq![wd(ws[0])], words_toks(rest));
        assert(same_tok(ts[p + 0], seq![wd(ws[0])][0]));
        lemma_words(rest, ts, p + 1);
        assert(words(ts, p) =~= ws);
    }
}

proof fn lemma_redirs(rs: Seq<RedirV>, ts: Seq<TokV>, p: int, acc: Seq<RedirV>)
    requires
        at(ts, p, redirs_toks(rs)),
        !is_redirect(kind_of(ts, p + redirs_toks(rs).len())),
    ensures
        redirs(ts, p, acc) == Ok::<(Seq<RedirV>, int), ParseError>((acc + rs, p + redirs_toks(rs).len())),
        redirs_toks(rs).len() == 2 * rs.len(),
    decreases rs.len(),
{
    if rs.len() == 0 {
        assert(acc + rs =~= acc);
    } else {
        let rest = rs.drop_first();
        let head = seq![tk(redir_tok(rs[0].0)), wd(rs[0].1)];
        lemma_at_split(ts, p, head, redirs_toks(rest));
        assert(same_tok(ts[p + 0], head[0]));
        assert(same_tok(ts[p + 1], head[1]));
        lemma_redirs(rest, ts, p + 2, acc.push((rs[0].0, rs[0].1)));
        assert(acc.push((rs[0].0, rs[0].1)) + rest =~= acc + rs);
    }
}


pub open spec fn redir_pair(k: RedirectKind, f: Seq<char>) -> Seq<TokV> {
    seq![tk(redir_tok(k)), wd(f)]
}

/// The tokens of an atom: a simple command's words, or a parenthesized sequence.
pub open spec fn atom_toks(a: Ast) -> Option<Seq<TokV>>
    decreases a, 0int,
{
    match a {
        Ast::Cmd(n, args, k) => if k == CommandKind::Simple && n.len() > 0 {
            Some(seq![wd(n)] + words_toks(args))
        } else {
            None
        },
        Ast::Subshell(x) => match seq_toks(*x) {
            Some(t) => Some(seq![tk(TokenKind::LParen)] + t + seq![tk(TokenKind::RParen)]),
            None => None,
        },
        _ => None,
    }
}

/// The tokens of an atom followed by its redirections.
pub open spec fn stage_toks(a: Ast) -> Option<Seq<TokV>>
    decreases a, 1int,
{
    match a {
        Ast::Redir(x, k, f) => match stage_toks(*x) {
            Some(t) => Some(t + redir_pair(k, f)),
            None => None,
        },
        _ => atom_toks(a),
    }
}

/// The tokens of the stages `st[i..]` of a pipeline: each stage but the last followed by `|`;
/// the last stage is a bare atom.
pub open spec fn stages_toks(st: Seq<Ast>, i: int, parent: Ast) -> Option<Seq<TokV>>
    decreases parent, 2int, st.len() - i,
    when 0 <= i < st.len() && (parent matches Ast::Pipe(s2) && s2 == st)
{
    if i >= st.len() - 1 {
        atom_toks(st[st.len() - 1])
    } else {
        match (stage_toks(st[i]), stages_toks(st, i + 1, parent)) {
            (Some(t), Some(u)) => Some(t + seq![tk(TokenKind::Pipe)] + u),
            _ => None,
        }
    }
}

/// The tokens of a pipeline with its redirections (a single stage being a pipeline of one).
pub open spec fn pipe_toks(a: Ast) -> Option<Seq<TokV>>
    decreases a, 3int,
{
    match a {
        Ast::Redir(x, k, f) => match pipe_toks(*x) {
            Some(t) => Some(t + redir_pair(k, f)),
            None => None,
        },
        Ast::Pipe(st) => if st.len() >= 2 {
            stages_toks(st, 0, a)
        } else {
            None
        },
        _ => atom_toks(a),
    }
}

/// The tokens of a left-associative chain of `&&` and `||`.
pub open spec fn andor_toks(a: Ast) -> Option<Seq<TokV>>
    decreases a, 4int,
{
    match a {
        Ast::And(l, r) => match (andor_toks(*l), pipe_toks(*r)) {
            (Some(t), Some(u)) => Some(t + seq![tk(TokenKind::And)] + u),
            _ => None,
        },
        Ast::Or(l, r) => match (andor_toks(*l), pipe_toks(*r)) {
            (Some(t), Some(u)) => Some(t + seq![tk(TokenKind::Or)] + u),
            _ => None,
        },
        _ => pipe_toks(a),
    }
}

/// The tokens of the parts `items[i..]` of a sequence, separated by `;`.
pub open spec fn items_toks(items: Seq<Ast>, i: int, parent: Ast) -> Option<Seq<TokV>>
    decreases parent, 5int, items.len() - i,
    when 0 <= i < items.len() && (parent matches Ast::Sequence(s2) && s2 == items)
{
    if i >= items.len() - 1 {
        andor_toks(items[items.len() - 1])
    } else {
        match (andor_toks(items[i]), items_toks(items, i + 1, parent)) {
            (Some(t), Some(u)) => Some(t + seq![tk(TokenKind::Semicolon)] + u),
            _ => None,
        }
    }
}

/// The tokens a printer emits for `a`, when `a` has a shape the parser yields.
pub open spec fn seq_toks(a: Ast) -> Option<Seq<TokV>>
    decreases a, 6int,
{
    match a {
        Ast::Sequence(items) => if items.len() >= 2 {
            items_toks(items, 0, a)
        } else {
            None
        },
        _ => andor_toks(a),
    }
}


/// The innermost tree under a chain of redirections, and the chain, innermost first.
pub open spec fn unwrap(a: Ast) -> (Ast, Seq<RedirV>)
    decreases a,
{
    match a {
        Ast::Redir(x, k, f) => (unwrap(*x).0, unwrap(*x).1.push((k, f))),
        _ => (a, Seq::empty()),
    }
}

proof fn lemma_wrap_push(c: Ast, rs: Seq<RedirV>, r: RedirV)
    ensures
        wrap(c, rs.push(r)) == Ast::Redir(Box::new(wrap(c, rs)), r.0, r.1),
    decreases rs.len(),
{
    if rs.len() > 0 {
        assert(rs.push(r).drop_first() =~= rs.drop_first().push(r));
        assert(rs.push(r)[0] == rs[0]);
        let c1 = Ast::Redir(Box::new(c), rs[0].0, rs[0].1);
        lemma_wrap_push(c1, rs.drop_first(), r);
        assert(wrap(c, rs.push(r)) == wrap(c1, rs.push(r).drop_first()));
        assert(wrap(c, rs) == wrap(c1, rs.drop_first()));
    } else {
        assert(rs.push(r).drop_first() =~= Seq::<RedirV>::empty());
        let c1 = Ast::Redir(Box::new(c), r.0, r.1);
        assert(wrap(c1, Seq::<RedirV>::empty()) == c1);
        assert(wrap(c, rs.push(r)) == wrap(c1, rs.push(r).drop_first()));
    }
}

proof fn lemma_unwrap(a: Ast)
    ensures
        wrap(unwrap(a).0, unwrap(a).1) == a,
        !(unwrap(a).0 is Redir),
    decreases a,
{
    if let Ast::Redir(x, k, f) = a {
        lemma_unwrap(*x);
        lemma_wrap_push(unwrap(*x).0, unwrap(*x).1, (k, f));
    }
}

proof fn lemma_redirs_toks_push(rs: Seq<RedirV>, r: RedirV)
    ensures
        redirs_toks(rs.push(r)) == redirs_toks(rs) + redir_pair(r.0, r.1),
    decreases rs.len(),
{
    if rs.len() == 0 {
        assert(rs.push(r).drop_first() =~= Seq::<RedirV>::empty());
        assert(redirs_toks(Seq::<RedirV>::empty()) =~= Seq::<TokV>::empty());
        assert(rs.push(r)[0] == r);
        assert(redirs_toks(rs.push(r)) =~= redirs_toks(rs) + redir_pair(r.0, r.1));
    } else {
        assert(rs.push(r).drop_first() =~= rs.drop_first().push(r));
        assert(rs.push(r)[0] == rs[0]);
        lemma_redirs_toks_push(rs.drop_first(), r);
        assert(redirs_toks(rs.push(r)) =~= redirs_toks(rs) + redir_pair(r.0, r.1));
    }
}

proof fn lemma_stage_toks(a: Ast)
    ensures
        stage_toks(a) == (match atom_toks(unwrap(a).0) {
            Some(t) => Some(t + redirs_toks(unwrap(a).1)),
            None => None,
        }),
    decreases a,
{
    match a {
        Ast::Redir(x, k, f) => {
            lemma_stage_toks(*x);
            lemma_redirs_toks_push(unwrap(*x).1, (k, f));
            if let Some(t) = atom_toks(unwrap(*x).0) {
                assert(t + redirs_toks(unwrap(*x).1) + redir_pair(k, f) =~= t + (redirs_toks(unwrap(*x).1) + redir_pair(k, f)));
            }
        },
        _ => {
            if let Some(t) = atom_toks(a) {
                assert(t + redirs_toks(Seq::empty()) =~= t);
            }
        },
    }
}

/// The tokens of the tree under a pipeline's redirections.
pub open spec fn core_toks(c: Ast) -> Option<Seq<TokV>> {
    match c {
        Ast::Pipe(st) => if st.len() >= 2 {
            stages_toks(st, 0, c)
        } else {
            None
        },
        _ => atom_toks(c),
    }
}

proof fn lemma_pipe_toks(a: Ast)
    ensures
        pipe_toks(a) == (match core_toks(unwrap(a).0) {
            Some(t) => Some(t + redirs_toks(unwrap(a).1)),
            None => None,
        }),
    decreases a,
{
    match a {
        Ast::Redir(x, k, f) => {
            lemma_pipe_toks(*x);
            lemma_redirs_toks_push(unwrap(*x).1, (k, f));
            if let Some(t) = core_toks(unwrap(*x).0) {
                assert(t + redirs_toks(unwrap(*x).1) + redir_pair(k, f) =~= t + (redirs_toks(unwrap(*x).1) + redir_pair(k, f)));
            }
        },
        _ => {
            if let Some(t) = core_toks(a) {
                assert(t + redirs_toks(Seq::empty()) =~= t);
            }
        },
    }
}

pub open spec fn stops_stage(k: TokenKind) -> bool {
    k != TokenKind::Word && !is_redirect(k)
}

pub open spec fn stops_pipe(k: TokenKind) -> bool {
    stops_stage(k) && k != TokenKind::Pipe
}

pub open spec fn stops_andor(k: TokenKind) -> bool {
    stops_pipe(k) && k != TokenKind::And && k != TokenKind::Or
}

pub open spec fn stops_seq(k: TokenKind) -> bool {
    stops_andor(k) && k != TokenKind::Semicolon
}

proof fn lemma_atom(a: Ast, ts: Seq<TokV>, p: int)
    requires
        atom_toks(a) is Some,
        at(ts, p, atom_toks(a)->Some_0),
        kind_of(ts, p + atom_toks(a)->Some_0.len()) != TokenKind::Word,
    ensures
        p_atom(ts, p) == Ok::<(Ast, int), ParseError>((a, p + atom_toks(a)->Some_0.len())),
        atom_toks(a)->Some_0.len() > 0,
        kind_of(ts, p) != TokenKind::Eof,
    decreases a, 0int,
{
    let t = atom_toks(a)->Some_0;
    match a {
        Ast::Cmd(n, args, k) => {
            lemma_at_split(ts, p, seq![wd(n)], words_toks(args));
            assert(same_tok(ts[p + 0], seq![wd(n)][0]));
            lemma_words(args, ts, p + 1);
        },
        Ast::Subshell(x) => {
            let inner = seq_toks(*x)->Some_0;
            lemma_at_split(ts, p, seq![tk(TokenKind::LParen)] + inner, seq![tk(TokenKind::RParen)]);
            lemma_at_split(ts, p, seq![tk(TokenKind::LParen)], inner);
            assert(same_tok(ts[p + 0], seq![tk(TokenKind::LParen)][0]));
            assert(same_tok(ts[p + 1 + inner.len() + 0], seq![tk(TokenKind::RParen)][0]));
            lemma_seq(*x, ts, p + 1);
        },
        _ => {},
    }
}

proof fn lemma_stage(a: Ast, ts: Seq<TokV>, p: int)
    requires
        stage_toks(a) is Some,
        at(ts, p, stage_toks(a)->Some_0),
        stops_stage(kind_of(ts, p + stage_toks(a)->Some_0.len())),
    ensures
        p_stage(ts, p) == Ok::<(Ast, Seq<RedirV>, int), ParseError>(
            (unwrap(a).0, unwrap(a).1, p + stage_toks(a)->Some_0.len()),
        ),
        stage_toks(a)->Some_0.len() > 0,
        kind_of(ts, p) != TokenKind::Eof,
    decreases a, 1int,
{
    lemma_stage_toks(a);
    lemma_unwrap(a);
    let c = unwrap(a).0;
    let rs = unwrap(a).1;
    let t = atom_toks(c)->Some_0;
    lemma_at_split(ts, p, t, redirs_toks(rs));
    lemma_redirs(rs, ts, p + t.len(), Seq::empty());
    if rs.len() > 0 {
        assert(redirs_toks(rs)[0] == tk(redir_tok(rs[0].0)));
        assert(same_tok(ts[p + t.len() + 0], redirs_toks(rs)[0]));
    }
    lemma_atom_smaller(a);
    lemma_atom(c, ts, p);
    assert(Seq::<RedirV>::empty() + rs =~= rs);
}

proof fn lemma_atom_smaller(a: Ast)
    ensures
        unwrap(a).0 == a || decreases_to!(a => unwrap(a).0),
    decreases a,
{
    if let Ast::Redir(x, k, f) = a {
        lemma_atom_smaller(*x);
    }
}


proof fn lemma_pipe(a: Ast, ts: Seq<TokV>, p: int)
    requires
        pipe_toks(a) is Some,
        at(ts, p, pipe_toks(a)->Some_0),
        stops_pipe(kind_of(ts, p + pipe_toks(a)->Some_0.len())),
    ensures
        p_pipeline(ts, p) == Ok::<(Ast, int), ParseError>((a, p + pipe_toks(a)->Some_0.len())),
        pipe_toks(a)->Some_0.len() > 0,
        kind_of(ts, p) != TokenKind::Eof,
    decreases a, 3int,
{
    lemma_pipe_toks(a);
    lemma_unwrap(a);
    lemma_atom_smaller(a);
    let c = unwrap(a).0;
    let rs = unwrap(a).1;
    let tc = core_toks(c)->Some_0;
    let end = p + pipe_toks(a)->Some_0.len();
    lemma_at_split(ts, p, tc, redirs_toks(rs));
    match c {
        Ast::Pipe(st) => {
            let t0 = stage_toks(st[0])->Some_0;
            let t1 = stages_toks(st, 1, c)->Some_0;
            assert(tc == t0 + seq![tk(TokenKind::Pipe)] + t1);
            lemma_at_split(ts, p, t0 + seq![tk(TokenKind::Pipe)] + t1, redirs_toks(rs));
            lemma_at_split(ts, p, t0 + seq![tk(TokenKind::Pipe)], t1);
            lemma_at_split(ts, p, t0, seq![tk(TokenKind::Pipe)]);
            assert(same_tok(ts[p + t0.len() + 0], seq![tk(TokenKind::Pipe)][0]));
            assert(decreases_to!(c => st[0]));
            lemma_stage(st[0], ts, p);
            let q0 = p + t0.len();
            assert(at(ts, q0, seq![tk(TokenKind::Pipe)] + t1 + redirs_toks(rs))) by {
                assert forall|i: int| 0 <= i < (seq![tk(TokenKind::Pipe)] + t1 + redirs_toks(rs)).len() implies same_tok(#[trigger] ts[q0 + i],
                    (seq![tk(TokenKind::Pipe)] + t1 + redirs_toks(rs))[i]) by {
                    assert(same_tok(ts[p + (t0.len() + i)], (t0 + seq![tk(TokenKind::Pipe)] + t1 + redirs_toks(rs))[t0.len() + i]));
                }
            }
            assert(Seq::<Ast>::empty() =~= st.subrange(0, 0));
            lemma_pipe_rest(st, 0, c, rs, ts, q0, Seq::empty());
        },
        _ => {
            lemma_stage_toks(a);
            lemma_stage(a, ts, p);
        },
    }
}

proof fn lemma_pipe_rest(st: Seq<Ast>, i: int, c: Ast, rs: Seq<RedirV>, ts: Seq<TokV>, q: int, done: Seq<Ast>)
    requires
        c == Ast::Pipe(st),
        st.len() >= 2,
        0 <= i < st.len() - 1,
        stages_toks(st, i + 1, c) is Some,
        stage_toks(st[i]) is Some,
        done == st.subrange(0, i),
        at(ts, q, seq![tk(TokenKind::Pipe)] + stages_toks(st, i + 1, c)->Some_0 + redirs_toks(rs)),
        stops_pipe(kind_of(ts, q + 1 + stages_toks(st, i + 1, c)->Some_0.len() + redirs_toks(rs).len())),
    ensures
        p_pipe_rest(ts, q, done, unwrap(st[i]).0, unwrap(st[i]).1) == Ok::<(Ast, int), ParseError>(
            (wrap(c, rs), q + 1 + stages_toks(st, i + 1, c)->Some_0.len() + redirs_toks(rs).len()),
        ),
    decreases c, 2int, st.len() - i,
{
    let rest = stages_toks(st, i + 1, c)->Some_0;
    let end = q + 1 + rest.len() + redirs_toks(rs).len();
    lemma_at_split(ts, q, seq![tk(TokenKind::Pipe)] + rest, redirs_toks(rs));
    lemma_at_split(ts, q, seq![tk(TokenKind::Pipe)], rest);
    assert(same_tok(ts[q + 0], seq![tk(TokenKind::Pipe)][0]));
    lemma_unwrap(st[i]);
    lemma_redirs(rs, ts, q + 1 + rest.len(), Seq::empty());
    if i + 1 < st.len() - 1 {
        let t = stage_toks(st[i + 1])->Some_0;
        let u = stages_toks(st, i + 2, c)->Some_0;
        assert(rest == t + seq![tk(TokenKind::Pipe)] + u);
        lemma_at_split(ts, q + 1, t + seq![tk(TokenKind::Pipe)], u);
        lemma_at_split(ts, q + 1, t, seq![tk(TokenKind::Pipe)]);
        assert(same_tok(ts[q + 1 + t.len() + 0], seq![tk(TokenKind::Pipe)][0]));
        match c {
            Ast::Pipe(s2) => {
                assert(decreases_to!(c => s2[i + 1]));
            },
            _ => {},
        }
        lemma_stage(st[i + 1], ts, q + 1);
        let q1 = q + 1 + t.len();
        assert(at(ts, q1, seq![tk(TokenKind::Pipe)] + u + redirs_toks(rs))) by {
            assert forall|j: int| 0 <= j < (seq![tk(TokenKind::Pipe)] + u + redirs_toks(rs)).len() implies same_tok(#[trigger] ts[q1 + j],
                (seq![tk(TokenKind::Pipe)] + u + redirs_toks(rs))[j]) by {
                assert(same_tok(ts[q + (1 + t.len() + j)], (seq![tk(TokenKind::Pipe)] + rest + redirs_toks(rs))[1 + t.len() + j]));
            }
        }
        assert(done.push(st[i]) =~= st.subrange(0, i + 1));
        lemma_pipe_rest(st, i + 1, c, rs, ts, q1, done.push(st[i]));
        assert(p_stage(ts, q + 1) == Ok::<(Ast, Seq<RedirV>, int), ParseError>((unwrap(st[i + 1]).0, unwrap(st[i + 1]).1, q1)));
        assert(wrap(unwrap(st[i]).0, unwrap(st[i]).1) == st[i]);
        assert(q1 <= ts.len());
        assert(p_pipe_rest(ts, q, done, unwrap(st[i]).0, unwrap(st[i]).1) == p_pipe_rest(
            ts,
            q1,
            done.push(st[i]),
            unwrap(st[i + 1]).0,
            unwrap(st[i + 1]).1,
        ));
    } else {
        let last = st[st.len() - 1];
        assert(rest == atom_toks(last)->Some_0);
        match c {
            Ast::Pipe(s2) => {
                assert(decreases_to!(c => s2[s2.len() - 1]));
            },
            _ => {},
        }
        if rs.len() > 0 {
            assert(redirs_toks(rs)[0] == tk(redir_tok(rs[0].0)));
            assert(same_tok(ts[q + 1 + rest.len() + 0], redirs_toks(rs)[0]));
        }
        lemma_atom(last, ts, q + 1);
        assert(Seq::<RedirV>::empty() + rs =~= rs);
        assert(done.push(st[i]).push(last) =~= st);
        assert(p_stage(ts, q + 1) == Ok::<(Ast, Seq<RedirV>, int), ParseError>((last, rs, end)));
        assert(wrap(unwrap(st[i]).0, unwrap(st[i]).1) == st[i]);
        assert(end <= ts.len());
        assert(p_pipe_rest(ts, end, done.push(st[i]), last, rs) == Ok::<(Ast, int), ParseError>(
            (wrap(Ast::Pipe(done.push(st[i]).push(last)), rs), end),
        ));
    }
}

proof fn lemma_andor_prefix(a: Ast, ts: Seq<TokV>, p: int)
    requires
        andor_toks(a) is Some,
        at(ts, p, andor_toks(a)->Some_0),
        stops_pipe(kind_of(ts, p + andor_toks(a)->Some_0.len())),
    ensures
        p_andor(ts, p) == p_andor_rest(ts, p + andor_toks(a)->Some_0.len(), a),
        andor_toks(a)->Some_0.len() > 0,
        kind_of(ts, p) != TokenKind::Eof,
    decreases a, 4int,
{
    match a {
        Ast::And(l, r) | Ast::Or(l, r) => {
            let tl = andor_toks(*l)->Some_0;
            let tr = pipe_toks(*r)->Some_0;
            let op = if a is And { TokenKind::And } else { TokenKind::Or };
            assert(andor_toks(a)->Some_0 == tl + seq![tk(op)] + tr);
            lemma_at_split(ts, p, tl + seq![tk(op)], tr);
            lemma_at_split(ts, p, tl, seq![tk(op)]);
            assert(same_tok(ts[p + tl.len() + 0], seq![tk(op)][0]));
            lemma_andor_prefix(*l, ts, p);
            lemma_pipe(*r, ts, p + tl.len() + 1);
        },
        _ => {
            lemma_pipe(a, ts, p);
        },
    }
}

proof fn lemma_andor(a: Ast, ts: Seq<TokV>, p: int)
    requires
        andor_toks(a) is Some,
        at(ts, p, andor_toks(a)->Some_0),
        stops_andor(kind_of(ts, p + andor_toks(a)->Some_0.len())),
    ensures
        p_andor(ts, p) == Ok::<(Ast, int), ParseError>((a, p + andor_toks(a)->Some_0.len())),
        andor_toks(a)->Some_0.len() > 0,
        kind_of(ts, p) != TokenKind::Eof,
    decreases a, 5int,
{
    lemma_andor_prefix(a, ts, p);
}

proof fn lemma_seq(a: Ast, ts: Seq<TokV>, p: int)
    requires
        seq_toks(a) is Some,
        at(ts, p, seq_toks(a)->Some_0),
        stops_seq(kind_of(ts, p + seq_toks(a)->Some_0.len())),
    ensures
        p_seq(ts, p) == Ok::<(Ast, int), ParseError>((a, p + seq_toks(a)->Some_0.len())),
        seq_toks(a)->Some_0.len() > 0,
        kind_of(ts, p) != TokenKind::Eof,
    decreases a, 7int,
{
    match a {
        Ast::Sequence(items) => {
            let t0 = andor_toks(items[0])->Some_0;
            let t1 = items_toks(items, 1, a)->Some_0;
            assert(seq_toks(a)->Some_0 == t0 + seq![tk(TokenKind::Semicolon)] + t1);
            lemma_at_split(ts, p, t0 + seq![tk(TokenKind::Semicolon)], t1);
            lemma_at_split(ts, p, t0, seq![tk(TokenKind::Semicolon)]);
            assert(same_tok(ts[p + t0.len() + 0], seq![tk(TokenKind::Semicolon)][0]));
            assert(decreases_to!(a => items[0]));
            lemma_andor(items[0], ts, p);
            let q0 = p + t0.len();
            assert(at(ts, q0, seq![tk(TokenKind::Semicolon)] + t1)) by {
                assert forall|j: int| 0 <= j < (seq![tk(TokenKind::Semicolon)] + t1).len() implies same_tok(#[trigger] ts[q0 + j],
                    (seq![tk(TokenKind::Semicolon)] + t1)[j]) by {
                    assert(same_tok(ts[p + (t0.len() + j)], (t0 + seq![tk(TokenKind::Semicolon)] + t1)[t0.len() + j]));
                }
            }
            assert(seq![items[0]] =~= items.subrange(0, 1));
            lemma_seq_rest(items, 0, a, ts, q0, seq![items[0]]);
        },
        _ => {
            lemma_andor(a, ts, p);
        },
    }
}

proof fn lemma_seq_rest(items: Seq<Ast>, i: int, a: Ast, ts: Seq<TokV>, q: int, done: Seq<Ast>)
    requires
        a == Ast::Sequence(items),
        items.len() >= 2,
        0 <= i < items.len() - 1,
        items_toks(items, i + 1, a) is Some,
        done == items.subrange(0, i + 1),
        at(ts, q, seq![tk(TokenKind::Semicolon)] + items_toks(items, i + 1, a)->Some_0),
        stops_seq(kind_of(ts, q + 1 + items_toks(items, i + 1, a)->Some_0.len())),
    ensures
        p_seq_rest(ts, q, done) == Ok::<(Ast, int), ParseError>((a, q + 1 + items_toks(items, i + 1, a)->Some_0.len())),
    decreases a, 6int, items.len() - i,
{
    let rest = items_toks(items, i + 1, a)->Some_0;
    lemma_at_split(ts, q, seq![tk(TokenKind::Semicolon)], rest);
    assert(same_tok(ts[q + 0], seq![tk(TokenKind::Semicolon)][0]));
    if i + 1 < items.len() - 1 {
        let t = andor_toks(items[i + 1])->Some_0;
        let u = items_toks(items, i + 2, a)->Some_0;
        assert(rest == t + seq![tk(TokenKind::Semicolon)] + u);
        lemma_at_split(ts, q + 1, t + seq![tk(TokenKind::Semicolon)], u);
        lemma_at_split(ts, q + 1, t, seq![tk(TokenKind::Semicolon)]);
        assert(same_tok(ts[q + 1 + t.len() + 0], seq![tk(TokenKind::Semicolon)][0]));
        match a {
            Ast::Sequence(s2) => {
                assert(decreases_to!(a => s2[i + 1]));
            },
            _ => {},
        }
        lemma_andor(items[i + 1], ts, q + 1);
        let q1 = q + 1 + t.len();
        assert(at(ts, q1, seq![tk(TokenKind::Semicolon)] + u)) by {
            assert forall|j: int| 0 <= j < (seq![tk(TokenKind::Semicolon)] + u).len() implies same_tok(#[trigger] ts[q1 + j],
                (seq![tk(TokenKind::Semicolon)] + u)[j]) by {
                assert(same_tok(ts[q + (1 + t.len() + j)], (seq![tk(TokenKind::Semicolon)] + rest)[1 + t.len() + j]));
            }
        }
        assert(done.push(items[i + 1]) =~= items.subrange(0, i + 2));
        lemma_seq_rest(items, i + 1, a, ts, q1, done.push(items[i + 1]));
    } else {
        let last = items[items.len() - 1];
        assert(rest == andor_toks(last)->Some_0);
        match a {
            Ast::Sequence(s2) => {
                assert(decreases_to!(a => s2[s2.len() - 1]));
            },
            _ => {},
        }
        lemma_andor(last, ts, q + 1);
        assert(done.push(last) =~= items);
        let end = q + 1 + rest.len();
        assert(end <= ts.len());
        assert(p_seq_rest(ts, end, done.push(last)) == Ok::<(Ast, int), ParseError>((Ast::Sequence(done.push(last)), end)));
    }
}

/// Parsing tokens whose kinds and texts are those a printer emits for a tree of the shape
/// the parser yields, followed by `Eof`, gives the tree back, whatever the spans.
pub proof fn lemma_parse_printed(a: Ast, ts: Seq<TokV>)
    requires
        seq_toks(a) is Some,
        ts.len() == seq_toks(a)->Some_0.len() + 1,
        at(ts, 0, seq_toks(a)->Some_0),
        ts.last().0 == TokenKind::Eof,
    ensures
        parse_spec(ts) == Ok::<Ast, ParseError>(a),
{
    let t = seq_toks(a)->Some_0;
    assert(kind_of(ts, t.len() as int) == TokenKind::Eof);
    lemma_seq(a, ts, 0);
}


/// Characters that a printed word escapes with a backslash.
pub open spec fn is_special(c: char) -> bool {
    is_blank(c) || c == '|' || c == '&' || c == ';' || c == '<' || c == '>' || c == '(' || c == ')'
        || c == '\'' || c == '"' || c == '\\'
}

/// One character of a word as printed: a backslash as `"\"`, another special character
/// after a backslash, any other character as it is.
pub open spec fn esc1(c: char) -> Seq<char> {
    if c == '\\' {
        seq!['"', '\\', '"']
    } else if is_special(c) {
        seq!['\\', c]
    } else {
        seq![c]
    }
}

/// A word as printed, character by character (see `esc1`).
pub open spec fn esc(w: Seq<char>) -> Seq<char>
    decreases w.len(),
{
    if w.len() == 0 {
        Seq::empty()
    } else {
        esc1(w[0]) + esc(w.drop_first())
    }
}

/// Where the lexer starts a printed word `w` found at character `j`: after the opening quote
/// when it begins with a backslash.
pub open spec fn esc_start(w: Seq<char>, cs: Seq<char>, j: int) -> nat {
    if w[0] == '\\' {
        byte_offset(cs, j + 1)
    } else {
        byte_offset(cs, j)
    }
}

/// Where the lexer ends a printed word `w` that ends at character `k`: before the closing
/// quote when it ends with a backslash.
pub open spec fn esc_end(w: Seq<char>, cs: Seq<char>, k: int) -> nat {
    if w.last() == '\\' {
        byte_offset(cs, k - 1)
    } else {
        byte_offset(cs, k)
    }
}

/// The source text of an operator.
pub open spec fn op_text(k: TokenKind) -> Seq<char> {
    match k {
        TokenKind::Pipe => seq!['|'],
        TokenKind::Or => seq!['|', '|'],
        TokenKind::And => seq!['&', '&'],
        TokenKind::Semicolon => seq![';'],
        TokenKind::LParen => seq!['('],
        TokenKind::RParen => seq![')'],
        TokenKind::RedirectIn => seq!['<'],
        TokenKind::RedirectOut => seq!['>'],
        TokenKind::RedirectAppend => seq!['>', '>'],
        _ => Seq::empty(),
    }
}

/// The source text of one token: an escaped word (`''` when empty), or an operator.
pub open spec fn chunk(t: TokV) -> Seq<char> {
    if t.0 == TokenKind::Word {
        if t.1.len() == 0 {
            seq!['\'', '\'']
        } else {
            esc(t.1)
        }
    } else {
        op_text(t.0)
    }
}

/// The source text of tokens: each followed by a space.
pub open spec fn print_toks(ts: Seq<TokV>) -> Seq<char>
    decreases ts.len(),
{
    if ts.len() == 0 {
        Seq::empty()
    } else {
        chunk(ts[0]) + seq![' '] + print_toks(ts.drop_first())
    }
}

/// The word pending after scanning `w` from a pending word `word`, the scan having started at
/// character `j` and ended at `k`.
pub open spec fn after(word: WordAcc, w: Seq<char>, cs: Seq<char>, j: int, k: int) -> WordAcc {
    if w.len() == 0 {
        word
    } else {
        match word {
            Some((s, _e, t)) => Some((s, esc_end(w, cs, k), t + w)),
            None => Some((esc_start(w, cs, j), esc_end(w, cs, k), w)),
        }
    }
}

proof fn lemma_esc(w: Seq<char>, cs: Seq<char>, j: int, word: WordAcc, acc: Seq<TokV>)
    requires
        0 <= j,
        j + esc(w).len() <= cs.len(),
        cs.subrange(j, j + esc(w).len()) == esc(w),
    ensures
        stream(cs, j, word, acc) == stream(cs, j + esc(w).len(), after(word, w, cs, j, j + esc(w).len()), acc),
    decreases w.len(),
{
    if w.len() > 0 {
        let c = w[0];
        let head = esc1(c);
        let rest = w.drop_first();
        assert(esc(w) == head + esc(rest));
        let n = head.len() as int;
        assert forall|x: int| 0 <= x < n implies cs[j + x] == head[x] by {
            assert(cs.subrange(j, j + esc(w).len())[x] == esc(w)[x]);
        }
        let s_c = if c == '\\' { byte_offset(cs, j + 1) } else { byte_offset(cs, j) };
        let e_c = if c == '\\' { byte_offset(cs, j + 2) } else { byte_offset(cs, j + n) };
        let w1 = extend(word, s_c, e_c, seq![c]);
        if c == '\\' {
            assert(cs[j] == '"');
            assert(cs[j + 1] == '\\');
            assert(cs[j + 2] == '"');
            assert(find_close(cs, j + 2, '"') == j + 2);
            assert(find_close(cs, j + 1, '"') == j + 2);
            assert(cs.subrange(j + 1, j + 2) =~= seq![c]);
            assert(crate::lexer::quoted_text('"', cs.subrange(j + 1, j + 2)) == seq![c]);
            assert(j + 2 < cs.len());
        } else if is_special(c) {
            assert(cs[j] == '\\');
            assert(cs[j + 1] == c);
            assert(!crate::lexer::is_expand_char(c));
            assert(crate::lexer::lit(cs[j + 1]) == seq![c]);
        } else {
            assert(cs[j + 0] == head[0]);
            assert(head[0] == c);
            assert(cs[j] == c);
        }
        assert(stream(cs, j, word, acc) == stream(cs, j + n, w1, acc));
        assert(cs.subrange(j + n, j + n + esc(rest).len()) =~= esc(rest)) by {
            assert forall|x: int| 0 <= x < esc(rest).len() implies cs.subrange(j + n, j + n + esc(rest).len())[x]
                == esc(rest)[x] by {
                assert(cs.subrange(j, j + esc(w).len())[n + x] == esc(w)[n + x]);
            }
        }
        lemma_esc(rest, cs, j + n, w1, acc);
        let k = j + esc(w).len();
        if rest.len() == 0 {
            assert(esc(rest) =~= Seq::<char>::empty());
            assert(w.last() == c);
        } else {
            assert(w.last() == rest.last());
        }
        match word {
            Some((s, e, t)) => {
                assert(t + seq![c] + rest =~= t + w);
            },
            None => {
                assert(seq![c] + rest =~= w);
            },
        }
    }
}


/// The token the lexer makes of `chunk(t)` printed at character `i` of `cs`.
pub open spec fn lexed_tok(t: TokV, cs: Seq<char>, i: int) -> TokV {
    if t.0 == TokenKind::Word {
        if t.1.len() == 0 {
            (TokenKind::Word, Seq::empty(), byte_offset(cs, i + 1), byte_offset(cs, i + 1))
        } else {
            (TokenKind::Word, t.1, esc_start(t.1, cs, i), esc_end(t.1, cs, i + esc(t.1).len()))
        }
    } else {
        op(cs, t.0, i, op_text(t.0).len() as int)
    }
}

proof fn lemma_chunk(t: TokV, cs: Seq<char>, i: int, acc: Seq<TokV>)
    requires
        t.0 != TokenKind::Eof,
        0 <= i,
        i + chunk(t).len() + 1 <= cs.len(),
        cs.subrange(i, i + chunk(t).len() + 1) == chunk(t) + seq![' '],
    ensures
        stream(cs, i, None, acc) == stream(cs, i + chunk(t).len() + 1, None, acc.push(lexed_tok(t, cs, i))),
        same_tok(lexed_tok(t, cs, i), t),
        chunk(t).len() > 0,
{
    let ch = chunk(t);
    let m = i + ch.len();
    assert forall|x: int| 0 <= x < ch.len() + 1 implies cs[i + x] == (ch + seq![' '])[x] by {
        assert(cs.subrange(i, i + ch.len() + 1)[x] == (ch + seq![' '])[x]);
    }
    if t.0 == TokenKind::Word {
        let w = t.1;
        if w.len() == 0 {
            assert(cs[i + 0] == (ch + seq![' '])[0]);
            assert(cs[i + 1] == (ch + seq![' '])[1]);
            assert(cs[i + 2] == (ch + seq![' '])[2]);
            assert(find_close(cs, i + 1, '\'') == i + 1);
            assert(w =~= Seq::<char>::empty());
            assert(cs.subrange(i + 1, i + 1) =~= Seq::<char>::empty());
            let w1 = extend(None, byte_offset(cs, i + 1), byte_offset(cs, i + 1), Seq::<char>::empty());
            assert(stream(cs, i, None, acc) == stream(cs, i + 2, w1, acc));
            assert(stream(cs, i + 2, w1, acc) == stream(cs, i + 3, None, flush(w1, acc)));
        } else {
            assert(esc(w).len() > 0) by {
                assert(esc(w) == esc1(w[0]) + esc(w.drop_first()));
            }
            assert(cs.subrange(i, i + esc(w).len()) =~= esc(w)) by {
                assert forall|x: int| 0 <= x < esc(w).len() implies cs.subrange(i, i + esc(w).len())[x] == esc(w)[x] by {
                    assert(cs[i + x] == (ch + seq![' '])[x]);
                }
            }
            lemma_esc(w, cs, i, None, acc);
            assert(cs[m] == (ch + seq![' '])[ch.len() as int]);
            let w1 = after(None, w, cs, i, m);
            assert(stream(cs, m, w1, acc) == stream(cs, m + 1, None, flush(w1, acc)));
        }
    } else {
        let k = t.0;
        assert(cs[i + 0] == (ch + seq![' '])[0]);
        if ch.len() == 2 {
            assert(cs[i + 1] == (ch + seq![' '])[1]);
            assert(cs[i + 2] == (ch + seq![' '])[2]);
            assert(cs.subrange(i, i + 2) =~= ch);
        } else {
            assert(cs[i + 1] == (ch + seq![' '])[1]);
            assert(cs.subrange(i, i + 1) =~= ch);
        }
        let g = flush(None, acc).push(op(cs, k, i, ch.len() as int));
        assert(stream(cs, i, None, acc) == stream(cs, m, None, g));
        assert(stream(cs, m, None, g) == stream(cs, m + 1, None, flush(None, g)));
    }
}

proof fn lemma_lex_printed(toks: Seq<TokV>, cs: Seq<char>, i: int, acc: Seq<TokV>)
    requires
        forall|k: int| 0 <= k < toks.len() ==> (#[trigger] toks[k]).0 != TokenKind::Eof,
        0 <= i,
        i + print_toks(toks).len() == cs.len(),
        cs.subrange(i, cs.len() as int) == print_toks(toks),
    ensures
        stream(cs, i, None, acc).1 is None,
        stream(cs, i, None, acc).0.len() == acc.len() + toks.len() + 1,
        forall|k: int| 0 <= k < acc.len() ==> stream(cs, i, None, acc).0[k] == acc[k],
        forall|k: int|
            0 <= k < toks.len() ==> same_tok(#[trigger] stream(cs, i, None, acc).0[acc.len() + k], toks[k]),
        stream(cs, i, None, acc).0.last().0 == TokenKind::Eof,
    decreases toks.len(),
{
    if toks.len() == 0 {
        let n = byte_offset(cs, cs.len() as int);
        assert(stream(cs, i, None, acc) == (acc.push((TokenKind::Eof, Seq::<char>::empty(), n, n)), None::<crate::lexer::LexError>));
    } else {
        let t = toks[0];
        let rest = toks.drop_first();
        let ch = chunk(t);
        assert(print_toks(toks) == ch + seq![' '] + print_toks(rest));
        assert(cs.subrange(i, i + ch.len() + 1) =~= ch + seq![' ']) by {
            assert forall|x: int| 0 <= x < ch.len() + 1 implies cs.subrange(i, i + ch.len() + 1)[x] == (ch + seq![' '])[x] by {
                assert(cs.subrange(i, cs.len() as int)[x] == print_toks(toks)[x]);
            }
        }
        lemma_chunk(t, cs, i, acc);
        let next = i + ch.len() + 1;
        let acc2 = acc.push(lexed_tok(t, cs, i));
        assert(cs.subrange(next, cs.len() as int) =~= print_toks(rest)) by {
            assert forall|x: int| 0 <= x < print_toks(rest).len() implies cs.subrange(next, cs.len() as int)[x]
                == print_toks(rest)[x] by {
                assert(cs.subrange(i, cs.len() as int)[ch.len() + 1 + x] == print_toks(toks)[ch.len() + 1 + x]);
            }
        }
        assert forall|k: int| 0 <= k < rest.len() implies (#[trigger] rest[k]).0 != TokenKind::Eof by {
            assert(rest[k] == toks[k + 1]);
        }
        lemma_lex_printed(rest, cs, next, acc2);
        let out = stream(cs, i, None, acc).0;
        assert forall|k: int| 0 <= k < acc.len() implies out[k] == acc[k] by {
            assert(acc2[k] == acc[k]);
        }
        assert forall|k: int| 0 <= k < toks.len() implies same_tok(#[trigger] out[acc.len() + k], toks[k]) by {
            if k == 0 {
                assert(out[acc2.len() - 1] == acc2[acc.len() as int]);
            } else {
                assert(rest[k - 1] == toks[k]);
                assert(out[acc2.len() + (k - 1)] == out[acc.len() + k]);
            }
        }
    }
}


pub open spec fn no_eof(t: Seq<TokV>) -> bool {
    forall|k: int| 0 <= k < t.len() ==> (#[trigger] t[k]).0 != TokenKind::Eof
}

proof fn lemma_no_eof_concat(a: Seq<TokV>, b: Seq<TokV>)
    requires
        no_eof(a),
        no_eof(b),
    ensures
        no_eof(a + b),
{
    assert forall|k: int| 0 <= k < (a + b).len() implies (#[trigger] (a + b)[k]).0 != TokenKind::Eof by {
        if k < a.len() {
            assert((a + b)[k] == a[k]);
        } else {
            assert((a + b)[k] == b[k - a.len()]);
        }
    }
}

proof fn lemma_words_no_eof(ws: Seq<Seq<char>>)
    ensures
        no_eof(words_toks(ws)),
    decreases ws.len(),
{
    if ws.len() > 0 {
        lemma_words_no_eof(ws.drop_first());
        lemma_no_eof_concat(seq![wd(ws[0])], words_toks(ws.drop_first()));
    }
}

proof fn lemma_atom_no_eof(a: Ast)
    requires
        atom_toks(a) is Some,
    ensures
        no_eof(atom_toks(a)->Some_0),
    decreases a, 0int,
{
    match a {
        Ast::Cmd(n, args, k) => {
            lemma_words_no_eof(args);
            lemma_no_eof_concat(seq![wd(n)], words_toks(args));
        },
        Ast::Subshell(x) => {
            lemma_seq_no_eof(*x);
            lemma_no_eof_concat(seq![tk(TokenKind::LParen)], seq_toks(*x)->Some_0);
            lemma_no_eof_concat(seq![tk(TokenKind::LParen)] + seq_toks(*x)->Some_0, seq![tk(TokenKind::RParen)]);
        },
        _ => {},
    }
}

proof fn lemma_redir_no_eof(k: RedirectKind, f: Seq<char>)
    ensures
        no_eof(redir_pair(k, f)),
{
    assert(redir_pair(k, f)[0].0 == redir_tok(k));
}

proof fn lemma_stage_no_eof(a: Ast)
    requires
        stage_toks(a) is Some,
    ensures
        no_eof(stage_toks(a)->Some_0),
    decreases a, 1int,
{
    match a {
        Ast::Redir(x, k, f) => {
            lemma_stage_no_eof(*x);
            lemma_redir_no_eof(k, f);
            lemma_no_eof_concat(stage_toks(*x)->Some_0, redir_pair(k, f));
        },
        _ => lemma_atom_no_eof(a),
    }
}

proof fn lemma_stages_no_eof(st: Seq<Ast>, i: int, parent: Ast)
    requires
        0 <= i < st.len(),
        parent == Ast::Pipe(st),
        stages_toks(st, i, parent) is Some,
    ensures
        no_eof(stages_toks(st, i, parent)->Some_0),
    decreases parent, 2int, st.len() - i,
{
    match parent {
        Ast::Pipe(s2) => {
            if i >= st.len() - 1 {
                assert(decreases_to!(parent => s2[s2.len() - 1]));
                lemma_atom_no_eof(st[st.len() - 1]);
            } else {
                assert(decreases_to!(parent => s2[i]));
                lemma_stage_no_eof(st[i]);
                lemma_stages_no_eof(st, i + 1, parent);
                lemma_no_eof_concat(stage_toks(st[i])->Some_0, seq![tk(TokenKind::Pipe)]);
                lemma_no_eof_concat(stage_toks(st[i])->Some_0 + seq![tk(TokenKind::Pipe)], stages_toks(st, i + 1, parent)->Some_0);
            }
        },
        _ => {},
    }
}

proof fn lemma_pipe_no_eof(a: Ast)
    requires
        pipe_toks(a) is Some,
    ensures
        no_eof(pipe_toks(a)->Some_0),
    decreases a, 3int,
{
    match a {
        Ast::Redir(x, k, f) => {
            lemma_pipe_no_eof(*x);
            lemma_redir_no_eof(k, f);
            lemma_no_eof_concat(pipe_toks(*x)->Some_0, redir_pair(k, f));
        },
        Ast::Pipe(st) => lemma_stages_no_eof(st, 0, a),
        _ => lemma_atom_no_eof(a),
    }
}

proof fn lemma_andor_no_eof(a: Ast)
    requires
        andor_toks(a) is Some,
    ensures
        no_eof(andor_toks(a)->Some_0),
    decreases a, 4int,
{
    match a {
        Ast::And(l, r) | Ast::Or(l, r) => {
            let op = if a is And { TokenKind::And } else { TokenKind::Or };
            lemma_andor_no_eof(*l);
            lemma_pipe_no_eof(*r);
            lemma_no_eof_concat(andor_toks(*l)->Some_0, seq![tk(op)]);
            lemma_no_eof_concat(andor_toks(*l)->Some_0 + seq![tk(op)], pipe_toks(*r)->Some_0);
        },
        _ => lemma_pipe_no_eof(a),
    }
}

proof fn lemma_items_no_eof(items: Seq<Ast>, i: int, parent: Ast)
    requires
        0 <= i < items.len(),
        parent == Ast::Sequence(items),
        items_toks(items, i, parent) is Some,
    ensures
        no_eof(items_toks(items, i, parent)->Some_0),
    decreases parent, 5int, items.len() - i,
{
    match parent {
        Ast::Sequence(s2) => {
            if i >= items.len() - 1 {
                assert(decreases_to!(parent => s2[s2.len() - 1]));
                lemma_andor_no_eof(items[items.len() - 1]);
            } else {
                assert(decreases_to!(parent => s2[i]));
                lemma_andor_no_eof(items[i]);
                lemma_items_no_eof(items, i + 1, parent);
                lemma_no_eof_concat(andor_toks(items[i])->Some_0, seq![tk(TokenKind::Semicolon)]);
                lemma_no_eof_concat(andor_toks(items[i])->Some_0 + seq![tk(TokenKind::Semicolon)], items_toks(items, i + 1, parent)->Some_0);
            }
        },
        _ => {},
    }
}

proof fn lemma_seq_no_eof(a: Ast)
    requires
        seq_toks(a) is Some,
    ensures
        no_eof(seq_toks(a)->Some_0),
    decreases a, 6int,
{
    match a {
        Ast::Sequence(items) => lemma_items_no_eof(items, 0, a),
        _ => lemma_andor_no_eof(a),
    }
}

/// The source text a printer emits for `a`: its tokens, each followed by a space, words
/// escaped with backslashes.
pub open spec fn print_spec(a: Ast) -> Seq<char> {
    print_toks(seq_toks(a)->Some_0)
}

/// Printing a tree of the shape the parser yields and lexing and parsing the text again gives
/// the same tree.
pub proof fn lemma_round_trip(a: Ast)
    requires
        seq_toks(a) is Some,
    ensures
        lex_spec(print_spec(a)) is Ok,
        parse_spec(lex_spec(print_spec(a))->Ok_0) == Ok::<Ast, ParseError>(a),
{
    let t = seq_toks(a)->Some_0;
    let cs = print_spec(a);
    lemma_seq_no_eof(a);
    assert(cs.subrange(0, cs.len() as int) =~= cs);
    lemma_lex_printed(t, cs, 0, Seq::empty());
    let ts = token_stream(cs).0;
    assert forall|i: int| 0 <= i < t.len() implies same_tok(#[trigger] ts[0 + i], t[i]) by {
        assert(ts[Seq::<TokV>::empty().len() + i] == ts[0 + i]);
    }
    lemma_parse_printed(a, ts);
}


proof fn lemma_stage_wrap(c: Ast, rs: Seq<RedirV>)
    requires
        atom_toks(c) is Some,
    ensures
        stage_toks(wrap(c, rs)) is Some,
        pipe_toks(wrap(c, rs)) is Some,
    decreases rs.len(),
{
    if rs.len() > 0 {
        let r = rs.last();
        let front = rs.drop_last();
        assert(front.push(r) =~= rs);
        lemma_wrap_push(c, front, r);
        lemma_stage_wrap(c, front);
    }
}

proof fn lemma_pipe_wrap(st: Seq<Ast>, rs: Seq<RedirV>)
    requires
        st.len() >= 2,
        stages_toks(st, 0, Ast::Pipe(st)) is Some,
    ensures
        pipe_toks(wrap(Ast::Pipe(st), rs)) is Some,
    decreases rs.len(),
{
    if rs.len() > 0 {
        let r = rs.last();
        let front = rs.drop_last();
        assert(front.push(r) =~= rs);
        lemma_wrap_push(Ast::Pipe(st), front, r);
        lemma_pipe_wrap(st, front);
    }
}

proof fn lemma_stages_some(st: Seq<Ast>, i: int, parent: Ast)
    requires
        0 <= i < st.len(),
        parent == Ast::Pipe(st),
        forall|k: int| 0 <= k < st.len() - 1 ==> stage_toks(#[trigger] st[k]) is Some,
        atom_toks(st[st.len() - 1]) is Some,
    ensures
        stages_toks(st, i, parent) is Some,
    decreases st.len() - i,
{
    if i < st.len() - 1 {
        lemma_stages_some(st, i + 1, parent);
    }
}

proof fn lemma_items_some(items: Seq<Ast>, i: int, parent: Ast)
    requires
        0 <= i < items.len(),
        parent == Ast::Sequence(items),
        forall|k: int| 0 <= k < items.len() ==> andor_toks(#[trigger] items[k]) is Some,
    ensures
        items_toks(items, i, parent) is Some,
    decreases items.len() - i,
{
    if i < items.len() - 1 {
        lemma_items_some(items, i + 1, parent);
    }
}

proof fn lemma_atom_shaped(ts: Seq<TokV>, p: int)
    ensures
        p_atom(ts, p) is Ok ==> atom_toks(p_atom(ts, p)->Ok_0.0) is Some,
    decreases ts.len() - p, 0int,
{
    if kind_of(ts, p) == TokenKind::LParen {
        lemma_seq_shaped(ts, p + 1);
    }
}

proof fn lemma_stage_shaped(ts: Seq<TokV>, p: int)
    ensures
        p_stage(ts, p) is Ok ==> atom_toks(p_stage(ts, p)->Ok_0.0) is Some,
    decreases ts.len() - p, 1int,
{
    lemma_atom_shaped(ts, p);
}

proof fn lemma_pipe_rest_shaped(ts: Seq<TokV>, p: int, stages: Seq<Ast>, last: Ast, rs: Seq<RedirV>)
    requires
        forall|k: int| 0 <= k < stages.len() ==> stage_toks(#[trigger] stages[k]) is Some,
        atom_toks(last) is Some,
    ensures
        p_pipe_rest(ts, p, stages, last, rs) is Ok ==> pipe_toks(p_pipe_rest(ts, p, stages, last, rs)->Ok_0.0) is Some,
    decreases ts.len() - p, 2int,
{
    if kind_of(ts, p) == TokenKind::Pipe {
        lemma_stage_shaped(ts, p + 1);
        if p_stage(ts, p + 1) is Ok {
            let (a, rs2, q) = p_stage(ts, p + 1)->Ok_0;
            if !(q <= p || q > ts.len()) {
                lemma_stage_wrap(last, rs);
                let st2 = stages.push(wrap(last, rs));
                assert forall|k: int| 0 <= k < st2.len() implies stage_toks(#[trigger] st2[k]) is Some by {
                    if k < stages.len() {
                        assert(st2[k] == stages[k]);
                    }
                }
                lemma_pipe_rest_shaped(ts, q, st2, a, rs2);
            }
        }
    } else if stages.len() == 0 {
        lemma_stage_wrap(last, rs);
    } else {
        let st = stages.push(last);
        assert forall|k: int| 0 <= k < st.len() - 1 implies stage_toks(#[trigger] st[k]) is Some by {
            assert(st[k] == stages[k]);
        }
        assert(st[st.len() - 1] == last);
        lemma_stages_some(st, 0, Ast::Pipe(st));
        lemma_pipe_wrap(st, rs);
    }
}

proof fn lemma_pipeline_shaped(ts: Seq<TokV>, p: int)
    ensures
        p_pipeline(ts, p) is Ok ==> pipe_toks(p_pipeline(ts, p)->Ok_0.0) is Some,
    decreases ts.len() - p, 3int,
{
    lemma_stage_shaped(ts, p);
    if p_stage(ts, p) is Ok {
        let (a, rs, q) = p_stage(ts, p)->Ok_0;
        if !(q <= p || q > ts.len()) {
            lemma_pipe_rest_shaped(ts, q, Seq::empty(), a, rs);
        }
    }
}

proof fn lemma_andor_rest_shaped(ts: Seq<TokV>, p: int, left: Ast)
    requires
        andor_toks(left) is Some,
    ensures
        p_andor_rest(ts, p, left) is Ok ==> andor_toks(p_andor_rest(ts, p, left)->Ok_0.0) is Some,
    decreases ts.len() - p, 4int,
{
    let k = kind_of(ts, p);
    if k == TokenKind::And || k == TokenKind::Or {
        lemma_pipeline_shaped(ts, p + 1);
        if p_pipeline(ts, p + 1) is Ok {
            let (r, q) = p_pipeline(ts, p + 1)->Ok_0;
            if !(q <= p || q > ts.len()) {
                let next = if k == TokenKind::And {
                    Ast::And(Box::new(left), Box::new(r))
                } else {
                    Ast::Or(Box::new(left), Box::new(r))
                };
                lemma_andor_rest_shaped(ts, q, next);
            }
        }
    }
}

proof fn lemma_andor_shaped(ts: Seq<TokV>, p: int)
    ensures
        p_andor(ts, p) is Ok ==> andor_toks(p_andor(ts, p)->Ok_0.0) is Some,
    decreases ts.len() - p, 5int,
{
    lemma_pipeline_shaped(ts, p);
    if p_pipeline(ts, p) is Ok {
        let (a, q) = p_pipeline(ts, p)->Ok_0;
        if !(q <= p || q > ts.len()) {
            assert(andor_toks(a) == pipe_toks(a)) by {
                if a is And || a is Or {
                    assert(atom_toks(a) is None);
                    assert(pipe_toks(a) is None);
                }
            }
            lemma_andor_rest_shaped(ts, q, a);
        }
    }
}

proof fn lemma_seq_rest_shaped(ts: Seq<TokV>, p: int, items: Seq<Ast>)
    requires
        items.len() >= 1,
        forall|k: int| 0 <= k < items.len() ==> andor_toks(#[trigger] items[k]) is Some,
    ensures
        p_seq_rest(ts, p, items) is Ok ==> seq_toks(p_seq_rest(ts, p, items)->Ok_0.0) is Some,
    decreases ts.len() - p, 6int,
{
    if kind_of(ts, p) == TokenKind::Semicolon {
        lemma_andor_shaped(ts, p + 1);
        if p_andor(ts, p + 1) is Ok {
            let (a, q) = p_andor(ts, p + 1)->Ok_0;
            if !(q <= p || q > ts.len()) {
                let it2 = items.push(a);
                assert forall|k: int| 0 <= k < it2.len() implies andor_toks(#[trigger] it2[k]) is Some by {
                    if k < items.len() {
                        assert(it2[k] == items[k]);
                    }
                }
                lemma_seq_rest_shaped(ts, q, it2);
            }
        }
    } else if items.len() == 1 {
        let a = items[0];
        assert(seq_toks(a) == andor_toks(a)) by {
            if a is Sequence {
                assert(andor_toks(a) is None);
            }
        }
    } else {
        lemma_items_some(items, 0, Ast::Sequence(items));
    }
}

proof fn lemma_seq_shaped(ts: Seq<TokV>, p: int)
    ensures
        p_seq(ts, p) is Ok ==> seq_toks(p_seq(ts, p)->Ok_0.0) is Some,
    decreases ts.len() - p, 7int,
{
    lemma_andor_shaped(ts, p);
    if p_andor(ts, p) is Ok {
        let (a, q) = p_andor(ts, p)->Ok_0;
        if !(q <= p || q > ts.len()) {
            lemma_seq_rest_shaped(ts, q, seq![a]);
        }
    }
}

/// Every tree the parser yields has the shape the printer handles, so it round-trips:
/// printing it, then lexing and parsing the text, gives the same tree.
pub proof fn lemma_parsed_round_trip(ts: Seq<TokV>)
    requires
        parse_spec(ts) is Ok,
    ensures
        lex_spec(print_spec(parse_spec(ts)->Ok_0)) is Ok,
        parse_spec(lex_spec(print_spec(parse_spec(ts)->Ok_0))->Ok_0) == parse_spec(ts),
{
    lemma_seq_shaped(ts, 0);
    lemma_round_trip(parse_spec(ts)->Ok_0);
}


proof fn lemma_print_concat(a: Seq<TokV>, b: Seq<TokV>)
    ensures
        print_toks(a + b) == print_toks(a) + print_toks(b),
    decreases a.len(),
{
    if a.len() == 0 {
        assert(a + b =~= b);
        assert(print_toks(a) + print_toks(b) =~= print_toks(b));
    } else {
        assert((a + b).drop_first() =~= a.drop_first() + b);
        assert((a + b)[0] == a[0]);
        lemma_print_concat(a.drop_first(), b);
        assert(print_toks(a + b) =~= print_toks(a) + print_toks(b));
    }
}

proof fn lemma_print_one(t: TokV)
    ensures
        print_toks(seq![t]) == chunk(t) + seq![' '],
{
    assert(seq![t].drop_first() =~= Seq::<TokV>::empty());
    assert(print_toks(Seq::<TokV>::empty()) =~= Seq::<char>::empty());
    assert(seq![t][0] == t);
    assert(print_toks(seq![t]) =~= chunk(t) + seq![' ']);
}

proof fn lemma_esc_push(w: Seq<char>, c: char)
    ensures
        esc(w.push(c)) == esc(w) + esc1(c),
    decreases w.len(),
{
    if w.len() == 0 {
        assert(w.push(c).drop_first() =~= Seq::<char>::empty());
        assert(esc(Seq::<char>::empty()) =~= Seq::<char>::empty());
        assert(w.push(c)[0] == c);
        assert(esc(w.push(c)) =~= esc(w) + esc1(c));
    } else {
        assert(w.push(c).drop_first() =~= w.drop_first().push(c));
        assert(w.push(c)[0] == w[0]);
        lemma_esc_push(w.drop_first(), c);
        assert(esc(w.push(c)) =~= esc(w) + esc1(c));
    }
}

fn special(c: char) -> (r: bool)
    ensures
        r == is_special(c),
{
    c == ' ' || c == '\t' || c == '\n' || c == '|' || c == '&' || c == ';' || c == '<' || c == '>' || c == '('
        || c == ')' || c == '\'' || c == '"' || c == '\\'
}

/// Appends a word as printed, and a space.
fn emit_word(out: &mut Vec<char>, w: &String)
    ensures
        final(out)@ == old(out)@ + print_toks(seq![wd(w@)]),
{
    proof {
        lemma_print_one(wd(w@));
    }
    let cs = chars_of(w.as_str());
    if cs.len() == 0 {
        out.push('\'');
        out.push('\'');
        out.push(' ');
        assert(out@ =~= old(out)@ + (seq!['\'', '\''] + seq![' ']));
        return;
    }
    let mut k: usize = 0;
    assert(esc(cs@.subrange(0, 0)) =~= Seq::<char>::empty()) by {
        assert(cs@.subrange(0, 0) =~= Seq::<char>::empty());
    }
    while k < cs.len()
        invariant
            k <= cs.len(),
            cs@ == w@,
            out@ == old(out)@ + esc(cs@.subrange(0, k as int)),
        decreases cs.len() - k,
    {
        let c = cs[k];
        proof {
            assert(cs@.subrange(0, k + 1) =~= cs@.subrange(0, k as int).push(c));
            lemma_esc_push(cs@.subrange(0, k as int), c);
        }
        if c == '\\' {
            out.push('"');
            out.push('\\');
            out.push('"');
        } else {
            if special(c) {
                out.push('\\');
            }
            out.push(c);
        }
        k = k + 1;
        assert(out@ =~= old(out)@ + esc(cs@.subrange(0, k as int)));
    }
    assert(cs@.subrange(0, k as int) =~= w@);
    out.push(' ');
    assert(out@ =~= old(out)@ + (esc(w@) + seq![' ']));
}

/// Appends an operator as printed, and a space.
fn emit_op(out: &mut Vec<char>, k: TokenKind)
    requires
        k != TokenKind::Word,
    ensures
        final(out)@ == old(out)@ + print_toks(seq![tk(k)]),
{
    proof {
        lemma_print_one(tk(k));
    }
    match k {
        TokenKind::Pipe => out.push('|'),
        TokenKind::Or => {
            out.push('|');
            out.push('|');
        },
        TokenKind::And => {
            out.push('&');
            out.push('&');
        },
        TokenKind::Semicolon => out.push(';'),
        TokenKind::LParen => out.push('('),
        TokenKind::RParen => out.push(')'),
        TokenKind::RedirectIn => out.push('<'),
        TokenKind::RedirectOut => out.push('>'),
        TokenKind::RedirectAppend => {
            out.push('>');
            out.push('>');
        },
        _ => {},
    }
    out.push(' ');
    assert(out@ =~= old(out)@ + (op_text(k) + seq![' ']));
}

fn emit_redirect(out: &mut Vec<char>, kind: RedirectKind, file: &String)
    ensures
        final(out)@ == old(out)@ + print_toks(redir_pair(kind, file@)),
{
    let k = match kind {
        RedirectKind::In => TokenKind::RedirectIn,
        RedirectKind::Out => TokenKind::RedirectOut,
        RedirectKind::Append => TokenKind::RedirectAppend,
    };
    emit_op(out, k);
    emit_word(out, file);
    proof {
        assert(redir_pair(kind, file@) =~= seq![tk(k)] + seq![wd(file@)]);
        lemma_print_concat(seq![tk(k)], seq![wd(file@)]);
    }
}

fn print_atom(n: &AstNode, out: &mut Vec<char>)
    requires
        atom_toks(n.model()) is Some,
    ensures
        final(out)@ == old(out)@ + print_toks(atom_toks(n.model())->Some_0),
    decreases n, 0int,
{
    match n {
        AstNode::Command(c) => {
            emit_word(out, &c.name);
            let ghost ws = strings_view(c.args@);
            let mut i: usize = 0;
            let ghost mid = out@;
            assert(ws.subrange(0, ws.len() as int) =~= ws);
            while i < c.args.len()
                invariant
                    i <= c.args.len(),
                    ws == strings_view(c.args@),
                    mid + print_toks(words_toks(ws)) == out@ + print_toks(words_toks(ws.subrange(i as int, ws.len() as int))),
                decreases c.args.len() - i,
            {
                let ghost rest = ws.subrange(i as int, ws.len() as int);
                assert(rest.drop_first() =~= ws.subrange(i + 1, ws.len() as int));
                assert(words_toks(rest) == seq![wd(rest[0])] + words_toks(rest.drop_first()));
                proof {
                    lemma_print_concat(seq![wd(rest[0])], words_toks(rest.drop_first()));
                }
                emit_word(out, &c.args[i]);
                i = i + 1;
            }
            proof {
                assert(ws.subrange(0, ws.len() as int) =~= ws);
                assert(ws.subrange(i as int, ws.len() as int) =~= Seq::<Seq<char>>::empty());
                assert(print_toks(words_toks(Seq::<Seq<char>>::empty())) =~= Seq::<char>::empty());
                lemma_print_concat(seq![wd(c.name@)], words_toks(ws));
            }
        },
        AstNode::Subshell(inner) => {
            emit_op(out, TokenKind::LParen);
            print_seq(inner, out);
            emit_op(out, TokenKind::RParen);
            proof {
                let t = seq_toks(inner.model())->Some_0;
                lemma_print_concat(seq![tk(TokenKind::LParen)], t);
                lemma_print_concat(seq![tk(TokenKind::LParen)] + t, seq![tk(TokenKind::RParen)]);
            }
        },
        _ => {},
    }
}

fn print_stage(n: &AstNode, out: &mut Vec<char>)
    requires
        stage_toks(n.model()) is Some,
    ensures
        final(out)@ == old(out)@ + print_toks(stage_toks(n.model())->Some_0),
    decreases n, 1int,
{
    match n {
        AstNode::Redirect { node, kind, file } => {
            print_stage(node, out);
            emit_redirect(out, *kind, file);
            proof {
                lemma_print_concat(stage_toks(node.model())->Some_0, redir_pair(*kind, file@));
            }
        },
        _ => print_atom(n, out),
    }
}

fn print_pipe(n: &AstNode, out: &mut Vec<char>)
    requires
        pipe_toks(n.model()) is Some,
    ensures
        final(out)@ == old(out)@ + print_toks(pipe_toks(n.model())->Some_0),
    decreases n, 3int,
{
    match n {
        AstNode::Redirect { node, kind, file } => {
            print_pipe(node, out);
            emit_redirect(out, *kind, file);
            proof {
                lemma_print_concat(pipe_toks(node.model())->Some_0, redir_pair(*kind, file@));
            }
        },
        AstNode::Pipeline(v) => {
            proof {
                crate::ast::lemma_models_of_vec(*v);
            }
            print_stages(v, out);
        },
        _ => print_atom(n, out),
    }
}

fn print_stages(v: &Vec<AstNode>, out: &mut Vec<char>)
    requires
        v.len() >= 2,
        stages_toks(crate::ast::models(v@), 0, Ast::Pipe(crate::ast::models(v@))) is Some,
    ensures
        final(out)@ == old(out)@ + print_toks(
            stages_toks(crate::ast::models(v@), 0, Ast::Pipe(crate::ast::models(v@)))->Some_0,
        ),
    decreases v, 0int,
{
    let ghost st = crate::ast::models(v@);
    let ghost m = Ast::Pipe(st);
    let mut i: usize = 0;
    let ghost start = out@;
    while i + 1 < v.len()
        invariant
            m == Ast::Pipe(st),
            st == crate::ast::models(v@),
            st.len() >= 2,
            i < v.len(),
            stages_toks(st, i as int, m) is Some,
            start + print_toks(stages_toks(st, 0, m)->Some_0) == out@ + print_toks(stages_toks(st, i as int, m)->Some_0),
        decreases v.len() - i,
    {
        let ghost t = stage_toks(st[i as int])->Some_0;
        let ghost u = stages_toks(st, i + 1, m)->Some_0;
        proof {
            lemma_print_concat(t, seq![tk(TokenKind::Pipe)]);
            lemma_print_concat(t + seq![tk(TokenKind::Pipe)], u);
        }
        assert(st[i as int] == v[i as int].model());
        print_stage(&v[i], out);
        emit_op(out, TokenKind::Pipe);
        i = i + 1;
    }
    assert(st[i as int] == v[i as int].model());
    print_atom(&v[i], out);
}

fn print_items(v: &Vec<AstNode>, out: &mut Vec<char>)
    requires
        v.len() >= 2,
        items_toks(crate::ast::models(v@), 0, Ast::Sequence(crate::ast::models(v@))) is Some,
    ensures
        final(out)@ == old(out)@ + print_toks(
            items_toks(crate::ast::models(v@), 0, Ast::Sequence(crate::ast::models(v@)))->Some_0,
        ),
    decreases v, 0int,
{
    let ghost items = crate::ast::models(v@);
    let ghost m = Ast::Sequence(items);
    let mut i: usize = 0;
    let ghost start = out@;
    while i + 1 < v.len()
        invariant
            m == Ast::Sequence(items),
            items == crate::ast::models(v@),
            items.len() >= 2,
            i < v.len(),
            items_toks(items, i as int, m) is Some,
            start + print_toks(items_toks(items, 0, m)->Some_0) == out@ + print_toks(items_toks(items, i as int, m)->Some_0),
        decreases v.len() - i,
    {
        let ghost t = andor_toks(items[i as int])->Some_0;
        let ghost u = items_toks(items, i + 1, m)->Some_0;
        proof {
            lemma_print_concat(t, seq![tk(TokenKind::Semicolon)]);
            lemma_print_concat(t + seq![tk(TokenKind::Semicolon)], u);
        }
        assert(items[i as int] == v[i as int].model());
        print_andor(&v[i], out);
        emit_op(out, TokenKind::Semicolon);
        i = i + 1;
    }
    assert(items[i as int] == v[i as int].model());
    print_andor(&v[i], out);
}

fn print_andor(n: &AstNode, out: &mut Vec<char>)
    requires
        andor_toks(n.model()) is Some,
    ensures
        final(out)@ == old(out)@ + print_toks(andor_toks(n.model())->Some_0),
    decreases n, 4int,
{
    match n {
        AstNode::And(l, r) => {
            print_andor(l, out);
            emit_op(out, TokenKind::And);
            print_pipe(r, out);
            proof {
                let a = andor_toks(l.model())->Some_0;
                lemma_print_concat(a, seq![tk(TokenKind::And)]);
                lemma_print_concat(a + seq![tk(TokenKind::And)], pipe_toks(r.model())->Some_0);
            }
        },
        AstNode::Or(l, r) => {
            print_andor(l, out);
            emit_op(out, TokenKind::Or);
            print_pipe(r, out);
            proof {
                let a = andor_toks(l.model())->Some_0;
                lemma_print_concat(a, seq![tk(TokenKind::Or)]);
                lemma_print_concat(a + seq![tk(TokenKind::Or)], pipe_toks(r.model())->Some_0);
            }
        },
        _ => print_pipe(n, out),
    }
}

fn print_seq(n: &AstNode, out: &mut Vec<char>)
    requires
        seq_toks(n.model()) is Some,
    ensures
        final(out)@ == old(out)@ + print_toks(seq_toks(n.model())->Some_0),
    decreases n, 6int,
{
    match n {
        AstNode::Sequence(v) => {
            proof {
                crate::ast::lemma_models_of_vec(*v);
            }
            print_items(v, out);
        },
        _ => print_andor(n, out),
    }
}

/// Source text for a tree of the shape the parser yields: its tokens separated by spaces,
/// special characters of words escaped with a backslash, an empty word written `''`.
pub fn to_source(n: &AstNode) -> (r: String)
    requires
        seq_toks(n.model()) is Some,
    ensures
        r@ == print_spec(n.model()),
{
    let mut out: Vec<char> = Vec::new();
    print_seq(n, &mut out);
    assert(out@ =~= print_spec(n.model()));
    string_from_chars(&out)
}


proof fn lemma_atom_wf(a: Ast)
    requires
        atom_toks(a) is Some,
    ensures
        well_formed(a),
    decreases a, 0int,
{
    if let Ast::Subshell(x) = a {
        lemma_seq_wf(*x);
    }
}

proof fn lemma_stage_wf(a: Ast)
    requires
        stage_toks(a) is Some,
    ensures
        well_formed(a),
    decreases a, 1int,
{
    match a {
        Ast::Redir(x, k, f) => lemma_stage_wf(*x),
        _ => lemma_atom_wf(a),
    }
}

proof fn lemma_stages_wf(st: Seq<Ast>, i: int, parent: Ast)
    requires
        0 <= i < st.len(),
        parent == Ast::Pipe(st),
        stages_toks(st, i, parent) is Some,
    ensures
        forall|k: int| i <= k < st.len() ==> well_formed(#[trigger] st[k]),
    decreases parent, 2int, st.len() - i,
{
    match parent {
        Ast::Pipe(s2) => {
            if i >= st.len() - 1 {
                assert(decreases_to!(parent => s2[s2.len() - 1]));
                lemma_atom_wf(st[st.len() - 1]);
            } else {
                assert(decreases_to!(parent => s2[i]));
                lemma_stage_wf(st[i]);
                lemma_stages_wf(st, i + 1, parent);
            }
        },
        _ => {},
    }
}

proof fn lemma_pipe_wf(a: Ast)
    requires
        pipe_toks(a) is Some,
    ensures
        well_formed(a),
    decreases a, 3int,
{
    match a {
        Ast::Redir(x, k, f) => lemma_pipe_wf(*x),
        Ast::Pipe(st) => lemma_stages_wf(st, 0, a),
        _ => lemma_atom_wf(a),
    }
}

proof fn lemma_andor_wf(a: Ast)
    requires
        andor_toks(a) is Some,
    ensures
        well_formed(a),
    decreases a, 4int,
{
    match a {
        Ast::And(l, r) | Ast::Or(l, r) => {
            lemma_andor_wf(*l);
            lemma_pipe_wf(*r);
        },
        _ => lemma_pipe_wf(a),
    }
}

proof fn lemma_items_wf(items: Seq<Ast>, i: int, parent: Ast)
    requires
        0 <= i < items.len(),
        parent == Ast::Sequence(items),
        items_toks(items, i, parent) is Some,
    ensures
        forall|k: int| i <= k < items.len() ==> well_formed(#[trigger] items[k]),
    decreases parent, 5int, items.len() - i,
{
    match parent {
        Ast::Sequence(s2) => {
            if i >= items.len() - 1 {
                assert(decreases_to!(parent => s2[s2.len() - 1]));
                lemma_andor_wf(items[items.len() - 1]);
            } else {
                assert(decreases_to!(parent => s2[i]));
                lemma_andor_wf(items[i]);
                lemma_items_wf(items, i + 1, parent);
            }
        },
        _ => {},
    }
}

/// A tree the printer handles is well formed.
pub proof fn lemma_seq_wf(a: Ast)
    requires
        seq_toks(a) is Some,
    ensures
        well_formed(a),
    decreases a, 6int,
{
    match a {
        Ast::Sequence(items) => lemma_items_wf(items, 0, a),
        _ => lemma_andor_wf(a),
    }
}

/// A tree the parser yields is well formed and has the shape the printer handles.
pub proof fn lemma_parsed_well_formed(ts: Seq<TokV>)
    requires
        parse_spec(ts) is Ok,
    ensures
        seq_toks(parse_spec(ts)->Ok_0) is Some,
        well_formed(parse_spec(ts)->Ok_0),
{
    lemma_seq_shaped(ts, 0);
    lemma_seq_wf(parse_spec(ts)->Ok_0);
}

} // verus!
