use vstd::prelude::*;
use vstd::utf8::*;
use crate::token::{Token, TokenKind};
use crate::text::{chars_of, string_from_chars};

verus! {

broadcast use vstd::utf8::char_is_scalar;

/// A lexer failure, with the byte offset where it was detected.
#[derive(Debug, Clone, Copy, PartialEq, Eq, Structural)]
pub enum LexError {
    UnexpectedChar(char, usize),
    UnterminatedQuote(char, usize),
}

/// The model of a token: kind, text, start byte, end byte.
pub type TokV = (TokenKind, Seq<char>, nat, nat);

/// A word being accumulated: start byte, end byte, text so far.
pub type WordAcc = Option<(nat, nat, Seq<char>)>;

impl View for Token {
    type V = TokV;

    open spec fn view(&self) -> TokV {
        (self.kind, self.lexeme@, self.span.0 as nat, self.span.1 as nat)
    }
}

pub open spec fn tokens_view(v: Seq<Token>) -> Seq<TokV> {
    v.map_values(|t: Token| t@)
}

pub open spec fn lex_result_view(r: Result<Vec<Token>, LexError>) -> Result<Seq<TokV>, LexError> {
    match r {
        Ok(v) => Ok(tokens_view(v@)),
        Err(e) => Err(e),
    }
}

/// Number of bytes in the UTF-8 encoding of `c`.
pub open spec fn char_width(c: char) -> nat {
    if (c as u32) < 0x80 {
        1
    } else if (c as u32) < 0x800 {
        2
    } else if (c as u32) < 0x10000 {
        3
    } else {
        4
    }
}

/// Byte offset of the character at index `i` of `cs`.
pub open spec fn byte_offset(cs: Seq<char>, i: int) -> nat
    decreases i,
{
    if i <= 0 || cs.len() == 0 {
        0
    } else {
        byte_offset(cs, i - 1) + char_width(cs[i - 1])
    }
}

pub open spec fn is_blank(c: char) -> bool {
    c == ' ' || c == '\t' || c == '\n'
}

/// Characters the expander acts on: `$`, `\\`, `` ` ``, `~`, `*`, `?` and `[`.
pub open spec fn is_expand_char(c: char) -> bool {
    c == '$' || c == '\\' || c == '`' || c == '~' || c == '*' || c == '?' || c == '['
}

/// A character taken literally: one the expander acts on is protected by a backslash, which
/// the expander removes without acting on the character.
pub open spec fn lit(c: char) -> Seq<char> {
    if is_expand_char(c) {
        seq!['\\', c]
    } else {
        seq![c]
    }
}

/// The characters of `s`, each taken literally.
pub open spec fn lit_text(s: Seq<char>) -> Seq<char>
    decreases s.len(),
{
    if s.len() == 0 {
        Seq::empty()
    } else {
        lit_text(s.drop_last()) + lit(s.last())
    }
}

/// The word text of a quoted run: single-quoted text is taken literally, double-quoted text
/// as written, to be expanded later.
pub open spec fn quoted_text(q: char, s: Seq<char>) -> Seq<char> {
    if q == '\'' {
        lit_text(s)
    } else {
        s
    }
}

/// Emits the pending word, if any.
pub open spec fn flush(word: WordAcc, acc: Seq<TokV>) -> Seq<TokV> {
    match word {
        None => acc,
        Some((s, e, t)) => acc.push((TokenKind::Word, t, s, e)),
    }
}

/// Adds `more` (ending at byte `end`) to the pending word, starting one at `start` if none.
pub open spec fn extend(word: WordAcc, start: nat, end: nat, more: Seq<char>) -> WordAcc {
    match word {
        None => Some((start, end, more)),
        Some((s, _e, t)) => Some((s, end, t + more)),
    }
}

/// Index of the first `q` at or after `from`, or `cs.len()` when there is none.
pub open spec fn find_close(cs: Seq<char>, from: int, q: char) -> int
    decreases cs.len() - from,
{
    if from >= cs.len() {
        cs.len() as int
    } else if cs[from] == q {
        from
    } else {
        find_close(cs, from + 1, q)
    }
}

/// An operator token at character index `i`, `n` characters long.
pub open spec fn op(cs: Seq<char>, kind: TokenKind, i: int, n: int) -> TokV {
    (kind, cs.subrange(i, i + n), byte_offset(cs, i), byte_offset(cs, i + n))
}

/// The scanner: from character `i`, with pending word `word` and tokens `acc` emitted so far.
/// It yields the tokens emitted, ending with `Eof`, or those emitted before the error and
/// the error.
pub open spec fn stream(cs: Seq<char>, i: int, word: WordAcc, acc: Seq<TokV>) -> (Seq<TokV>, Option<LexError>)
    decreases cs.len() - i,
{
    if i < 0 || i >= cs.len() {
        let n = byte_offset(cs, cs.len() as int);
        (flush(word, acc).push((TokenKind::Eof, Seq::<char>::empty(), n, n)), None)
    } else {
        let c = cs[i];
        let b = byte_offset(cs, i);
        let two = i + 1 < cs.len() && cs[i + 1] == c;
        if is_blank(c) {
            stream(cs, i + 1, None, flush(word, acc))
        } else if c == '|' {
            if two {
                stream(cs, i + 2, None, flush(word, acc).push(op(cs, TokenKind::Or, i, 2)))
            } else {
                stream(cs, i + 1, None, flush(word, acc).push(op(cs, TokenKind::Pipe, i, 1)))
            }
        } else if c == '&' {
            if two {
                stream(cs, i + 2, None, flush(word, acc).push(op(cs, TokenKind::And, i, 2)))
            } else {
                (acc, Some(LexError::UnexpectedChar('&', b as usize)))
            }
        } else if c == '>' {
            if two {
                stream(cs, i + 2, None, flush(word, acc).push(op(cs, TokenKind::RedirectAppend, i, 2)))
            } else {
                stream(cs, i + 1, None, flush(word, acc).push(op(cs, TokenKind::RedirectOut, i, 1)))
            }
        } else if c == '<' {
            stream(cs, i + 1, None, flush(word, acc).push(op(cs, TokenKind::RedirectIn, i, 1)))
        } else if c == ';' {
            stream(cs, i + 1, None, flush(word, acc).push(op(cs, TokenKind::Semicolon, i, 1)))
        } else if c == '(' {
            stream(cs, i + 1, None, flush(word, acc).push(op(cs, TokenKind::LParen, i, 1)))
        } else if c == ')' {
            stream(cs, i + 1, None, flush(word, acc).push(op(cs, TokenKind::RParen, i, 1)))
        } else if c == '\'' || c == '"' {
            let j = find_close(cs, i + 1, c);
            if j <= i || j >= cs.len() {
                (acc, Some(LexError::UnterminatedQuote(c, b as usize)))
            } else {
                stream(
                    cs,
                    j + 1,
                    extend(word, byte_offset(cs, i + 1), byte_offset(cs, j), quoted_text(c, cs.subrange(i + 1, j))),
                    acc,
                )
            }
        } else if c == '\\' && i + 1 < cs.len() {
            stream(cs, i + 2, extend(word, b, byte_offset(cs, i + 2), lit(cs[i + 1])), acc)
        } else {
            stream(cs, i + 1, extend(word, b, byte_offset(cs, i + 1), seq![c]), acc)
        }
    }
}

/// The tokens of `cs` in order, and the error that stops them, if any.
pub open spec fn token_stream(cs: Seq<char>) -> (Seq<TokV>, Option<LexError>) {
    stream(cs, 0, None, Seq::empty())
}

/// What lexing the characters `cs` yields.
pub open spec fn lex_spec(cs: Seq<char>) -> Result<Seq<TokV>, LexError> {
    match token_stream(cs).1 {
        None => Ok(token_stream(cs).0),
        Some(e) => Err(e),
    }
}

proof fn lemma_encode_concat(a: Seq<char>, b: Seq<char>)
    ensures
        encode_utf8(a + b) == encode_utf8(a) + encode_utf8(b),
    decreases a.len(),
{
    if a.len() == 0 {
        assert(a + b =~= b);
        assert(encode_utf8(a) + encode_utf8(b) =~= encode_utf8(b));
    } else {
        assert((a + b).drop_first() =~= a.drop_first() + b);
        lemma_encode_concat(a.drop_first(), b);
        assert(encode_utf8(a + b) =~= encode_utf8(a) + encode_utf8(b));
    }
}

proof fn lemma_width(c: char)
    ensures
        encode_utf8(seq![c]).len() == char_width(c),
{
    assert(seq![c].drop_first() =~= Seq::<char>::empty());
    assert(is_scalar(c as u32));
    assert(encode_utf8(Seq::<char>::empty()) =~= Seq::<u8>::empty());
    assert(encode_utf8(seq![c]) =~= encode_scalar(c as u32) + encode_utf8(seq![c].drop_first()));
}

/// The byte offset of the end of `cs` is the length of its UTF-8 encoding.
pub proof fn lemma_byte_offset_encode(cs: Seq<char>, i: int)
    requires
        0 <= i <= cs.len(),
    ensures
        byte_offset(cs, i) == encode_utf8(cs.take(i)).len(),
    decreases i,
{
    if i == 0 {
        assert(cs.take(0) =~= Seq::<char>::empty());
    } else {
        lemma_byte_offset_encode(cs, i - 1);
        assert(cs.take(i) =~= cs.take(i - 1) + seq![cs[i - 1]]);
        lemma_encode_concat(cs.take(i - 1), seq![cs[i - 1]]);
        lemma_width(cs[i - 1]);
    }
}

pub proof fn lemma_byte_offset_mono(cs: Seq<char>, i: int, j: int)
    requires
        i <= j,
    ensures
        byte_offset(cs, i) <= byte_offset(cs, j),
    decreases j - i,
{
    if i < j {
        lemma_byte_offset_mono(cs, i, j - 1);
    }
}

proof fn lemma_find_close(cs: Seq<char>, from: int, q: char)
    requires
        0 <= from,
    ensures
        from <= find_close(cs, from, q) || from > cs.len(),
        find_close(cs, from, q) <= cs.len(),
        find_close(cs, from, q) < cs.len() ==> cs[find_close(cs, from, q)] == q,
    decreases cs.len() - from,
{
    if from < cs.len() && cs[from] != q {
        lemma_find_close(cs, from + 1, q);
    }
}

/// Every emitted token lies within `[0, limit]`, and none of them is `Eof`.
pub open spec fn spans_within(acc: Seq<TokV>, limit: nat) -> bool {
    forall|k: int|
        #![trigger acc[k]]
        0 <= k < acc.len() ==> acc[k].2 <= acc[k].3 && acc[k].3 <= limit && acc[k].0
            != TokenKind::Eof
}

proof fn lemma_spans_grow(acc: Seq<TokV>, a: nat, b: nat)
    requires
        spans_within(acc, a),
        a <= b,
    ensures
        spans_within(acc, b),
{
}

proof fn lemma_spans_push(acc: Seq<TokV>, t: TokV, lim: nat)
    requires
        spans_within(acc, lim),
        t.2 <= t.3 <= lim,
        t.0 != TokenKind::Eof,
    ensures
        spans_within(acc.push(t), lim),
{
    assert forall|k: int| 0 <= k < acc.push(t).len() implies #[trigger] acc.push(t)[k].2 <= acc.push(t)[k].3
        && acc.push(t)[k].3 <= lim && acc.push(t)[k].0 != TokenKind::Eof by {
        if k < acc.len() {
            assert(acc.push(t)[k] == acc[k]);
        } else {
            assert(acc.push(t)[k] == t);
        }
    }
}

proof fn lemma_push_op(f: Seq<TokV>, cs: Seq<char>, kind: TokenKind, i: int, n: int)
    requires
        spans_within(f, byte_offset(cs, i)),
        0 <= i,
        1 <= n,
        kind != TokenKind::Eof,
    ensures
        spans_within(f.push(op(cs, kind, i, n)), byte_offset(cs, i + n)),
{
    lemma_byte_offset_mono(cs, i, i + n);
    lemma_spans_grow(f, byte_offset(cs, i), byte_offset(cs, i + n));
    lemma_spans_push(f, op(cs, kind, i, n), byte_offset(cs, i + n));
}

proof fn lemma_flush(word: WordAcc, acc: Seq<TokV>, lim: nat)
    requires
        spans_within(acc, lim),
        word_within(word, lim),
    ensures
        spans_within(flush(word, acc), lim),
{
    if let Some((s, e, t)) = word {
        lemma_spans_push(acc, (TokenKind::Word, t, s, e), lim);
    }
}

pub open spec fn word_within(word: WordAcc, limit: nat) -> bool {
    match word {
        None => true,
        Some((s, e, _t)) => s <= e <= limit,
    }
}

/// On success the result ends in exactly one `Eof` token, spanning the end of the input,
/// and every token's span is ordered and within the input.
pub open spec fn well_formed_tokens(ts: Seq<TokV>, n: nat) -> bool {
    &&& ts.len() > 0
    &&& ts.last() == (TokenKind::Eof, Seq::<char>::empty(), n, n)
    &&& spans_within(ts.drop_last(), n)
}

proof fn lemma_stream_wf(cs: Seq<char>, i: int, word: WordAcc, acc: Seq<TokV>)
    requires
        0 <= i <= cs.len(),
        spans_within(acc, byte_offset(cs, i)),
        word_within(word, byte_offset(cs, i)),
    ensures
        stream(cs, i, word, acc).1 is None ==> well_formed_tokens(
            stream(cs, i, word, acc).0,
            byte_offset(cs, cs.len() as int),
        ),

    decreases cs.len() - i,
{
    let n = byte_offset(cs, cs.len() as int);
    lemma_byte_offset_mono(cs, i, cs.len() as int);
    lemma_flush(word, acc, byte_offset(cs, i));
    if i >= cs.len() {
        let f = flush(word, acc);
        let ts = f.push((TokenKind::Eof, Seq::<char>::empty(), n, n));
        assert(ts.drop_last() =~= f);
        lemma_spans_grow(f, byte_offset(cs, i), n);
    } else {
        let c = cs[i];
        lemma_byte_offset_mono(cs, i, i + 1);
        lemma_find_close(cs, i + 1, c);
        if i + 2 <= cs.len() {
            lemma_byte_offset_mono(cs, i + 1, i + 2);
        }
        let f = flush(word, acc);
        assert(spans_within(f, byte_offset(cs, i)));
        if c == '\'' || c == '"' {
            let j = find_close(cs, i + 1, c);
            if j < cs.len() {
                lemma_byte_offset_mono(cs, i + 1, j);
                lemma_byte_offset_mono(cs, j, j + 1);
                lemma_spans_grow(acc, byte_offset(cs, i), byte_offset(cs, j + 1));
                lemma_stream_wf(
                    cs,
                    j + 1,
                    extend(word, byte_offset(cs, i + 1), byte_offset(cs, j), quoted_text(c, cs.subrange(i + 1, j))),
                    acc,
                );
            }
        } else if is_blank(c) {
            lemma_stream_wf(cs, i + 1, None, f);
        } else if c == '|' || c == '&' || c == '>' {
            if i + 1 < cs.len() && cs[i + 1] == c {
                let k = if c == '|' { TokenKind::Or } else if c == '&' { TokenKind::And } else { TokenKind::RedirectAppend };
                let g = f.push(op(cs, k, i, 2));
                lemma_push_op(f, cs, k, i, 2);
                lemma_stream_wf(cs, i + 2, None, g);
            } else if c != '&' {
                let k = if c == '|' { TokenKind::Pipe } else { TokenKind::RedirectOut };
                let g = f.push(op(cs, k, i, 1));
                lemma_push_op(f, cs, k, i, 1);
                lemma_stream_wf(cs, i + 1, None, g);
            }
        } else if c == '<' || c == ';' || c == '(' || c == ')' {
            let k = if c == '<' { TokenKind::RedirectIn } else if c == ';' { TokenKind::Semicolon } else if c == '(' { TokenKind::LParen } else { TokenKind::RParen };
            let k = k;
            let g = f.push(op(cs, k, i, 1));
            lemma_push_op(f, cs, k, i, 1);
            lemma_stream_wf(cs, i + 1, None, g);
        } else if c == '\\' && i + 1 < cs.len() {
            lemma_stream_wf(cs, i + 2, extend(word, byte_offset(cs, i), byte_offset(cs, i + 2), lit(cs[i + 1])), acc);
        } else {
            lemma_stream_wf(cs, i + 1, extend(word, byte_offset(cs, i), byte_offset(cs, i + 1), seq![c]), acc);
        }
    }
}

proof fn lemma_prefix_trans(a: Seq<TokV>, b: Seq<TokV>, c: Seq<TokV>)
    requires
        a.is_prefix_of(b),
        b.is_prefix_of(c),
    ensures
        a.is_prefix_of(c),
{
    assert(a =~= c.subrange(0, a.len() as int)) by {
        assert forall|k: int| 0 <= k < a.len() implies a[k] == c[k] by {
            assert(a[k] == b[k]);
            assert(b[k] == c[k]);
        }
    }
}

proof fn lemma_prefix_flush_push(word: WordAcc, acc: Seq<TokV>, t: TokV)
    ensures
        acc.is_prefix_of(flush(word, acc)),
        acc.is_prefix_of(flush(word, acc).push(t)),
{
    assert(acc.is_prefix_of(flush(word, acc))) by {
        assert(flush(word, acc).subrange(0, acc.len() as int) =~= acc);
    }
    assert(flush(word, acc).is_prefix_of(flush(word, acc).push(t))) by {
        assert(flush(word, acc).push(t).subrange(0, flush(word, acc).len() as int) =~= flush(word, acc));
    }
    lemma_prefix_trans(acc, flush(word, acc), flush(word, acc).push(t));
}

/// The tokens emitted so far stay at the front of what the scanner yields.
proof fn lemma_stream_prefix(cs: Seq<char>, i: int, word: WordAcc, acc: Seq<TokV>)
    ensures
        acc.is_prefix_of(stream(cs, i, word, acc).0),
    decreases cs.len() - i,
{
    let eof = (TokenKind::Eof, Seq::<char>::empty(), 0nat, 0nat);
    lemma_prefix_flush_push(word, acc, eof);
    assert(acc.is_prefix_of(acc)) by {
        assert(acc.subrange(0, acc.len() as int) =~= acc);
    }
    if i < 0 || i >= cs.len() {
        let n = byte_offset(cs, cs.len() as int);
        lemma_prefix_flush_push(word, acc, (TokenKind::Eof, Seq::<char>::empty(), n, n));
    } else {
        let c = cs[i];
        let two = i + 1 < cs.len() && cs[i + 1] == c;
        let f = flush(word, acc);
        if is_blank(c) {
            lemma_stream_prefix(cs, i + 1, None, f);
            lemma_prefix_trans(acc, f, stream(cs, i + 1, None, f).0);
        } else if c == '|' || c == '>' || (c == '&' && two) || c == '<' || c == ';' || c == '(' || c == ')' {
            let k = if c == '|' {
                if two { TokenKind::Or } else { TokenKind::Pipe }
            } else if c == '>' {
                if two { TokenKind::RedirectAppend } else { TokenKind::RedirectOut }
            } else if c == '&' {
                TokenKind::And
            } else if c == '<' {
                TokenKind::RedirectIn
            } else if c == ';' {
                TokenKind::Semicolon
            } else if c == '(' {
                TokenKind::LParen
            } else {
                TokenKind::RParen
            };
            let len = if (c == '|' || c == '>' || c == '&') && two { 2int } else { 1int };
            let g = f.push(op(cs, k, i, len));
            lemma_prefix_flush_push(word, acc, op(cs, k, i, len));
            lemma_stream_prefix(cs, i + len, None, g);
            lemma_prefix_trans(acc, g, stream(cs, i + len, None, g).0);
        } else if c == '&' {
        } else if c == '\'' || c == '"' {
            let j = find_close(cs, i + 1, c);
            if !(j <= i || j >= cs.len()) {
                lemma_stream_prefix(
                    cs,
                    j + 1,
                    extend(word, byte_offset(cs, i + 1), byte_offset(cs, j), quoted_text(c, cs.subrange(i + 1, j))),
                    acc,
                );
            }
        } else if c == '\\' && i + 1 < cs.len() {
            lemma_stream_prefix(cs, i + 2, extend(word, byte_offset(cs, i), byte_offset(cs, i + 2), lit(cs[i + 1])), acc);
        } else {
            lemma_stream_prefix(cs, i + 1, extend(word, byte_offset(cs, i), byte_offset(cs, i + 1), seq![c]), acc);
        }
    }
}

/// Lexing is total: it fails with a `LexError`, or yields tokens that end in exactly one
/// `Eof` token, with empty text and the span `(n, n)` where `n` is the input's length in bytes.
pub proof fn lemma_lex_ends_in_eof(cs: Seq<char>)
    ensures
        lex_spec(cs) is Ok ==> {
            let ts = lex_spec(cs)->Ok_0;
            let n = encode_utf8(cs).len();
            &&& ts.len() > 0
            &&& ts.last() == (TokenKind::Eof, Seq::<char>::empty(), n, n)
            &&& forall|k: int| 0 <= k < ts.len() - 1 ==> #[trigger] ts[k].0 != TokenKind::Eof
        },
{
    lemma_stream_wf(cs, 0, None, Seq::empty());
    lemma_byte_offset_encode(cs, cs.len() as int);
    assert(cs.take(cs.len() as int) =~= cs);
    if lex_spec(cs) is Ok {
        let ts = lex_spec(cs)->Ok_0;
        assert forall|k: int| 0 <= k < ts.len() - 1 implies #[trigger] ts[k].0 != TokenKind::Eof by {
            assert(ts.drop_last()[k] == ts[k]);
            assert(spans_within(ts.drop_last(), encode_utf8(cs).len()));
        }
    }
}

/// Every emitted token has `start <= end <= n`, `n` being the input's length in bytes.
pub proof fn lemma_lex_spans(cs: Seq<char>)
    ensures
        lex_spec(cs) is Ok ==> {
            let ts = lex_spec(cs)->Ok_0;
            forall|k: int|
                0 <= k < ts.len() ==> #[trigger] ts[k].2 <= ts[k].3 && ts[k].3 <= encode_utf8(
                    cs,
                ).len()
        },
{
    lemma_stream_wf(cs, 0, None, Seq::empty());
    lemma_byte_offset_encode(cs, cs.len() as int);
    assert(cs.take(cs.len() as int) =~= cs);
    if lex_spec(cs) is Ok {
        let ts = lex_spec(cs)->Ok_0;
        assert forall|k: int| 0 <= k < ts.len() implies #[trigger] ts[k].2 <= ts[k].3 && ts[k].3
            <= encode_utf8(cs).len() by {
            if k < ts.len() - 1 {
                assert(ts.drop_last()[k] == ts[k]);
            }
        }
    }
}

} // verus!

verus! {

/// Whether the expander acts on `c` (see `is_expand_char`).
fn is_expand(c: char) -> (r: bool)
    ensures
        r == is_expand_char(c),
{
    c == '$' || c == '\\' || c == '`' || c == '~' || c == '*' || c == '?' || c == '['
}

/// Number of bytes `c` takes in UTF-8.
fn utf8_width(c: char) -> (w: usize)
    ensures
        w == char_width(c),
        1 <= w <= 4,
{
    let u = c as u32;
    if u < 0x80 {
        1
    } else if u < 0x800 {
        2
    } else if u < 0x10000 {
        3
    } else {
        4
    }
}

/// The word being accumulated by the scanner.
struct WordBuf {
    active: bool,
    start: usize,
    end: usize,
    text: Vec<char>,
}

impl WordBuf {
    spec fn acc(&self) -> WordAcc {
        if self.active {
            Some((self.start as nat, self.end as nat, self.text@))
        } else {
            None
        }
    }

    spec fn clean(&self) -> bool {
        !self.active ==> self.text@.len() == 0
    }

    fn new() -> (w: WordBuf)
        ensures
            w.acc() == None::<(nat, nat, Seq<char>)>,
            w.clean(),
    {
        WordBuf { active: false, start: 0, end: 0, text: Vec::new() }
    }

    /// Emits the pending word into `out`.
    fn flush_into(&mut self, out: &mut Vec<Token>)
        requires
            old(self).clean(),
        ensures
            tokens_view(final(out)@) == flush(old(self).acc(), tokens_view(old(out)@)),
            final(self).acc() == None::<(nat, nat, Seq<char>)>,
            final(self).clean(),
    {
        if self.active {
            let t = Token {
                kind: TokenKind::Word,
                lexeme: string_from_chars(&self.text),
                span: (self.start, self.end),
            };
            push_token(out, t);
            self.active = false;
            self.text = Vec::new();
        }
    }

    /// Appends `c`, which ends at byte `end`; a new word starts at byte `start`.
    fn add(&mut self, start: usize, end: usize, c: char)
        requires
            old(self).clean(),
        ensures
            final(self).acc() == extend(old(self).acc(), start as nat, end as nat, seq![c]),
            final(self).clean(),
    {
        if !self.active {
            self.active = true;
            self.start = start;
        }
        self.end = end;
        self.text.push(c);
        proof {
            if !old(self).active {
                assert(self.text@ =~= seq![c]);
            }
        }
    }
}

fn push_token(out: &mut Vec<Token>, t: Token)
    ensures
        tokens_view(final(out)@) == tokens_view(old(out)@).push(t@),
{
    out.push(t);
    assert(tokens_view(out@) =~= tokens_view(old(out)@).push(t@));
}

/// The operator token of `n` characters at character `i`, byte `b`, ending at byte `e`.
fn op_token(cs: &Vec<char>, kind: TokenKind, i: usize, n: usize, b: usize, e: usize) -> (t: Token)
    requires
        1 <= n <= 2,
        i + n <= cs.len(),
        b == byte_offset(cs@, i as int),
        e == byte_offset(cs@, i + n),
    ensures
        t@ == op(cs@, kind, i as int, n as int),
{
    let mut text: Vec<char> = Vec::new();
    text.push(cs[i]);
    if n == 2 {
        text.push(cs[i + 1]);
    }
    assert(text@ =~= cs@.subrange(i as int, i + n));
    Token { kind, lexeme: string_from_chars(&text), span: (b, e) }
}

/// Where a scan stands.
#[derive(Clone, Copy, PartialEq, Eq, Structural)]
enum ScanState {
    Running,
    Done,
    Failed(LexError),
}

/// The scanner's state over a character sequence: a cursor, its byte offset, the pending
/// word and the tokens emitted so far.
struct Scanner {
    pos: usize,
    byte: usize,
    word: WordBuf,
    out: Vec<Token>,
    state: ScanState,
}

impl Scanner {
    /// `self` is a state the scanner reaches on `cs`, whose UTF-8 length is `len`.
    spec fn inv(&self, cs: Seq<char>, len: usize) -> bool {
        &&& byte_offset(cs, cs.len() as int) == len
        &&& self.pos <= cs.len()
        &&& self.byte == byte_offset(cs, self.pos as int)
        &&& self.word.clean()
        &&& match self.state {
            ScanState::Running => token_stream(cs) == stream(cs, self.pos as int, self.word.acc(), tokens_view(self.out@)),
            ScanState::Done => token_stream(cs) == (tokens_view(self.out@), None::<LexError>),
            ScanState::Failed(e) => token_stream(cs) == (tokens_view(self.out@), Some(e)),
        }
    }

    /// How much scanning is left.
    spec fn left(&self, cs: Seq<char>) -> nat {
        if self.state == ScanState::Running {
            (cs.len() - self.pos + 1) as nat
        } else {
            0
        }
    }

    fn start(cs: &Vec<char>, len: usize) -> (r: Scanner)
        requires
            byte_offset(cs@, cs@.len() as int) == len,
        ensures
            r.inv(cs@, len),
            r.state == ScanState::Running,
            r.out@.len() == 0,
    {
        let r = Scanner { pos: 0, byte: 0, word: WordBuf::new(), out: Vec::new(), state: ScanState::Running };
        assert(tokens_view(r.out@) =~= Seq::<TokV>::empty());
        r
    }

    /// Scans one more character (or quoted run), or finishes the scan.
    fn step(&mut self, cs: &Vec<char>, len: usize)
        requires
            old(self).inv(cs@, len),
            old(self).state == ScanState::Running,
        ensures
            final(self).inv(cs@, len),
            final(self).left(cs@) < old(self).left(cs@),
            tokens_view(old(self).out@).is_prefix_of(tokens_view(final(self).out@)),
    {
        let ghost old_out = tokens_view(self.out@);
        let n = cs.len();
        let i = self.pos;
        let b = self.byte;
        if i >= n {
            self.word.flush_into(&mut self.out);
            let eof = Token { kind: TokenKind::Eof, lexeme: string_from_chars(&Vec::new()), span: (b, b) };
            push_token(&mut self.out, eof);
            self.state = ScanState::Done;
            proof {
                lemma_stream_prefix(cs@, i as int, old(self).word.acc(), old_out);
            }
            return;
        }
        let c = cs[i];
        proof {
            lemma_byte_offset_mono(cs@, i + 1, n as int);
            if i + 2 <= n {
                lemma_byte_offset_mono(cs@, i + 2, n as int);
            }
            lemma_stream_prefix(cs@, i as int, old(self).word.acc(), old_out);
        }
        let w = utf8_width(c);
        let two = i + 1 < n && cs[i + 1] == c;
        if c == ' ' || c == '\t' || c == '\n' {
            self.word.flush_into(&mut self.out);
            self.pos = i + 1;
            self.byte = b + w;
        } else if c == '|' || c == '>' || (c == '&' && two) {
            self.word.flush_into(&mut self.out);
            let len2: usize = if two { 2 } else { 1 };
            let kind = if c == '|' {
                if two { TokenKind::Or } else { TokenKind::Pipe }
            } else if c == '&' {
                TokenKind::And
            } else {
                if two { TokenKind::RedirectAppend } else { TokenKind::RedirectOut }
            };
            let t = op_token(cs, kind, i, len2, b, b + len2);
            push_token(&mut self.out, t);
            self.pos = i + len2;
            self.byte = b + len2;
        } else if c == '&' {
            self.state = ScanState::Failed(LexError::UnexpectedChar('&', b));
        } else if c == '<' || c == ';' || c == '(' || c == ')' {
            self.word.flush_into(&mut self.out);
            let kind = if c == '<' {
                TokenKind::RedirectIn
            } else if c == ';' {
                TokenKind::Semicolon
            } else if c == '(' {
                TokenKind::LParen
            } else {
                TokenKind::RParen
            };
            let t = op_token(cs, kind, i, 1, b, b + 1);
            push_token(&mut self.out, t);
            self.pos = i + 1;
            self.byte = b + 1;
        } else if c == '\'' || c == '"' {
            let mut j = i + 1;
            let mut bj = b + 1;
            let ghost w0 = self.word.acc();
            if !self.word.active {
                self.word.start = bj;
            }
            let ghost text0 = self.word.text@;
            while j < n && cs[j] != c
                invariant
                    n == cs.len(),
                    i < n,
                    i + 1 <= j <= n,
                    bj == byte_offset(cs@, j as int),
                    byte_offset(cs@, n as int) == len,
                    find_close(cs@, i + 1, c) == find_close(cs@, j as int, c),
                    self.word.text@ == text0 + quoted_text(c, cs@.subrange(i + 1, j as int)),
                    self.word.active == (w0 is Some),
                    w0 is Some ==> self.word.start == w0->Some_0.0 && text0 == w0->Some_0.2,
                    w0 is None ==> self.word.start == byte_offset(cs@, i + 1) && text0.len() == 0,
                    self.out == old(self).out,
                    self.state == old(self).state,
                    self.pos == old(self).pos,
                    self.byte == old(self).byte,
                    i == old(self).pos,
                    b == old(self).byte,
                    c == cs@[i as int],
                decreases n - j,
            {
                proof {
                    lemma_byte_offset_mono(cs@, j + 1, n as int);
                }
                let ghost sub = cs@.subrange(i + 1, j as int);
                let ghost before = self.word.text@;
                assert(cs@.subrange(i + 1, j + 1) =~= sub.push(cs@[j as int]));
                assert(cs@.subrange(i + 1, j + 1).drop_last() =~= sub);
                if c == '\'' && is_expand(cs[j]) {
                    self.word.text.push('\\');
                }
                self.word.text.push(cs[j]);
                assert(self.word.text@ =~= before + (if c == '\'' {
                    lit(cs@[j as int])
                } else {
                    seq![cs@[j as int]]
                }));
                assert(quoted_text(c, cs@.subrange(i + 1, j + 1)) == quoted_text(c, sub) + (if c == '\'' {
                    lit(cs@[j as int])
                } else {
                    seq![cs@[j as int]]
                }));
                bj = bj + utf8_width(cs[j]);
                j = j + 1;
                assert(self.word.text@ =~= text0 + quoted_text(c, cs@.subrange(i + 1, j as int)));
            }
            if j >= n {
                self.state = ScanState::Failed(LexError::UnterminatedQuote(c, b));
                self.word.active = false;
                self.word.text = Vec::new();
                return;
            }
            proof {
                lemma_byte_offset_mono(cs@, j + 1, n as int);
                if w0 is None {
                    assert(self.word.text@ =~= quoted_text(c, cs@.subrange(i + 1, j as int)));
                }
            }
            self.word.active = true;
            self.word.end = bj;
            self.pos = j + 1;
            self.byte = bj + 1;
        } else if c == '\\' && i + 1 < n {
            let w2 = utf8_width(cs[i + 1]);
            let ghost w0 = self.word.acc();
            if is_expand(cs[i + 1]) {
                self.word.add(b, b + 1 + w2, '\\');
            }
            self.word.add(b, b + 1 + w2, cs[i + 1]);
            proof {
                if is_expand_char(cs@[i + 1]) {
                    match w0 {
                        Some((s0, e0, t0)) => {
                            assert(t0 + seq!['\\'] + seq![cs@[i + 1]] =~= t0 + lit(cs@[i + 1]));
                        },
                        None => {
                            assert(seq!['\\'] + seq![cs@[i + 1]] =~= lit(cs@[i + 1]));
                        },
                    }
                }
            }
            self.pos = i + 2;
            self.byte = b + 1 + w2;
        } else {
            self.word.add(b, b + w, c);
            self.pos = i + 1;
            self.byte = b + w;
        }
        proof {
            if self.state == ScanState::Running {
                lemma_stream_prefix(cs@, self.pos as int, self.word.acc(), tokens_view(self.out@));
            }
        }
    }
}

/// A copy of a token.
pub fn copy_token(t: &Token) -> (r: Token)
    ensures
        r@ == t@,
{
    Token { kind: t.kind, lexeme: t.lexeme.clone(), span: t.span }
}

/// A lexer over one input line. `tokenize_all` yields all its tokens at once; `next_token`
/// hands them out one at a time.
pub struct Lexer {
    chars: Vec<char>,
    input_len: usize,
    scanner: Scanner,
    handed: usize,
}

impl Lexer {
    /// The characters being lexed.
    pub closed spec fn source(&self) -> Seq<char> {
        self.chars@
    }

    /// How many tokens `next_token` has handed out.
    pub closed spec fn handed(&self) -> nat {
        self.handed as nat
    }

    pub closed spec fn wf(&self) -> bool {
        &&& self.scanner.inv(self.chars@, self.input_len)
        &&& self.handed <= self.scanner.out.len()
    }

    pub fn new(input: &str) -> (r: Lexer)
        ensures
            r.source() == input@,
            r.wf(),
            r.handed() == 0,
    {
        let chars = chars_of(input);
        proof {
            lemma_byte_offset_encode(input@, input@.len() as int);
            assert(input@.take(input@.len() as int) =~= input@);
        }
        let bytes = input.as_bytes();
        let input_len = bytes.len();
        let scanner = Scanner::start(&chars, input_len);
        Lexer { chars, input_len, scanner, handed: 0 }
    }

    /// Splits the whole input into tokens, ending with `Eof`.
    pub fn tokenize_all(&mut self) -> (r: Result<Vec<Token>, LexError>)
        requires
            old(self).wf(),
        ensures
            lex_result_view(r) == lex_spec(old(self).source()),
            *final(self) == *old(self),
    {
        self.scan_all()
    }

    /// Same as `tokenize_all`.
    pub fn tokenize(&mut self) -> (r: Result<Vec<Token>, LexError>)
        requires
            old(self).wf(),
        ensures
            lex_result_view(r) == lex_spec(old(self).source()),
            *final(self) == *old(self),
    {
        self.scan_all()
    }

    fn scan_all(&self) -> (r: Result<Vec<Token>, LexError>)
        requires
            self.wf(),
        ensures
            lex_result_view(r) == lex_spec(self.source()),
    {
        let mut sc = Scanner::start(&self.chars, self.input_len);
        while sc.state == ScanState::Running
            invariant
                sc.inv(self.chars@, self.input_len),
            decreases sc.left(self.chars@),
        {
            sc.step(&self.chars, self.input_len);
        }
        match sc.state {
            ScanState::Failed(e) => Err(e),
            _ => Ok(sc.out),
        }
    }

    /// The next token, `None` once `Eof` has been handed out, or the error that stops the scan
    /// once the tokens before it have been handed out.
    pub fn next_token(&mut self) -> (r: Result<Option<Token>, LexError>)
        requires
            old(self).wf(),
        ensures
            final(self).wf(),
            final(self).source() == old(self).source(),
            ({
                let (ts, err) = token_stream(old(self).source());
                let k = old(self).handed();
                if k < ts.len() {
                    r is Ok && r->Ok_0 is Some && r->Ok_0->Some_0@ == ts[k as int] && final(self).handed() == k + 1
                } else {
                    final(self).handed() == k && match err {
                        Some(e) => r == Err::<Option<Token>, LexError>(e),
                        None => r is Ok && r->Ok_0 is None,
                    }
                }
            }),
    {
        let ghost cs = self.chars@;
        proof {
            lemma_stream_prefix(cs, self.scanner.pos as int, self.scanner.word.acc(), tokens_view(self.scanner.out@));
        }
        loop
            invariant
                self.wf(),
                self.chars@ == cs,
                cs == old(self).chars@,
                self.chars == old(self).chars,
                self.handed == old(self).handed,
                tokens_view(old(self).scanner.out@).is_prefix_of(tokens_view(self.scanner.out@)),
                self.scanner.state == ScanState::Running ==> tokens_view(self.scanner.out@).is_prefix_of(
                    token_stream(cs).0,
                ),
                self.scanner.state != ScanState::Running ==> tokens_view(self.scanner.out@) == token_stream(cs).0,
            decreases self.scanner.left(cs),
        {
            if self.handed < self.scanner.out.len() {
                let t = copy_token(&self.scanner.out[self.handed]);
                proof {
                    assert(tokens_view(self.scanner.out@)[self.handed as int] == token_stream(cs).0[self.handed as int]);
                }
                self.handed = self.handed + 1;
                return Ok(Some(t));
            }
            match self.scanner.state {
                ScanState::Done => {
                    return Ok(None);
                },
                ScanState::Failed(e) => {
                    return Err(e);
                },
                ScanState::Running => {
                    self.scanner.step(&self.chars, self.input_len);
                    proof {
                        if self.scanner.state == ScanState::Running {
                            lemma_stream_prefix(
                                cs,
                                self.scanner.pos as int,
                                self.scanner.word.acc(),
                                tokens_view(self.scanner.out@),
                            );
                        }
                    }
                },
            }
        }
    }
}

/// Splits `input` into tokens, ending with `Eof`.
pub fn tokenize(input: &str) -> (r: Result<Vec<Token>, LexError>)
    ensures
        lex_result_view(r) == lex_spec(input@),
{
    let mut lexer = Lexer::new(input);
    lexer.tokenize_all()
}

} // verus!
