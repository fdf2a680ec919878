//! The grammar: `call := IDENT '(' args ')'`, `args := (STRING | call) (',' (STRING | call))*`.

use crate::query::value::{QueryError, QueryFault};
use crate::text;
use crate::util;
use vstd::prelude::*;

verus! {

/// An argument of a call.
#[derive(Debug)]
pub enum Arg {
    Str(String),
    Call(Call),
}

/// A call of a function by name.
#[derive(Debug)]
pub struct Call {
    pub name: String,
    pub args: Vec<Arg>,
}

/// An argument of the model.
#[verifier::ext_equal]
pub enum ArgV {
    Str(Seq<char>),
    Call(CallV),
}

/// A call of the model.
#[verifier::ext_equal]
pub struct CallV {
    pub name: Seq<char>,
    pub args: Seq<ArgV>,
}

impl Arg {
    /// The argument in the model.
    pub open spec fn value(self) -> ArgV
        decreases self,
    {
        match self {
            Arg::Str(s) => ArgV::Str(s@),
            Arg::Call(c) => ArgV::Call(c.value()),
        }
    }
}

impl Call {
    /// The call in the model.
    pub open spec fn value(self) -> CallV
        decreases self,
    {
        CallV {
            name: self.name@,
            args: Seq::new(
                self.args@.len(),
                |i: int|
                    if 0 <= i < self.args@.len() {
                        self.args@[i].value()
                    } else {
                        ArgV::Str(Seq::empty())
                    },
            ),
        }
    }
}

/// The arguments of the model, one for one.
pub open spec fn arg_values(args: Seq<Arg>) -> Seq<ArgV> {
    Seq::new(args.len(), |i: int| args[i].value())
}

pub proof fn lemma_call(c: Call)
    ensures
        c.value().args == arg_values(c.args@),
        c.value().name == c.name@,
{
    assert(c.value().args =~= arg_values(c.args@));
}

/// A call in the arguments is smaller than the whole.
pub proof fn lemma_arg_smaller(c: Call, i: int)
    requires
        0 <= i < c.args@.len(),
    ensures
        decreases_to!(c => c.args@[i]),
        c.args@[i] is Call ==> decreases_to!(c => c.args@[i]->Call_0),
{
    assert(decreases_to!(c => c.args));
    assert(decreases_to!(c.args => c.args@));
    assert(decreases_to!(c.args@ => c.args@[i]));
    if c.args@[i] is Call {
        assert(decreases_to!(c.args@[i] => c.args@[i]->Call_0));
    }
}

// ---------- tokens ----------

/// A token of the model.
pub enum TokV {
    Ident(Seq<char>),
    Str(Seq<char>),
    LParen,
    RParen,
    Comma,
}

/// What stands at a place: the end, a token and the place behind it, or nothing that
/// can be read, with the place of the fault and the reason.
pub enum Lexed {
    End(int),
    Token(TokV, int),
    Bad(int, Seq<char>),
}

pub open spec fn is_space(c: u8) -> bool {
    c == 0x20 || c == 0x09 || c == 0x0A || c == 0x0C || c == 0x0D
}

pub open spec fn is_letter(c: u8) -> bool {
    0x41 <= c <= 0x5A || 0x61 <= c <= 0x7A || c == 0x5F
}

pub open spec fn is_word(c: u8) -> bool {
    is_letter(c) || 0x30 <= c <= 0x39
}

/// The first place from `pos` on that holds no white space.
pub open spec fn space_end(src: Seq<u8>, pos: int) -> int
    decreases src.len() - pos,
{
    if 0 <= pos < src.len() && is_space(src[pos]) {
        space_end(src, pos + 1)
    } else {
        pos
    }
}

/// The first place from `pos` on that belongs to no word.
pub open spec fn word_end(src: Seq<u8>, pos: int) -> int
    decreases src.len() - pos,
{
    if 0 <= pos < src.len() && is_word(src[pos]) {
        word_end(src, pos + 1)
    } else {
        pos
    }
}

/// A text in quotes, read from behind the opening one: its bytes and the place behind
/// the closing quote, or the place of the fault and the reason.
pub enum Quoted {
    Closed(Seq<u8>, int),
    Broken(int, Seq<char>),
}

/// What a character behind a backslash stands for.
pub open spec fn escaped(c: u8) -> Option<u8> {
    if c == 0x22 || c == 0x5C {
        Some(c)
    } else if c == 0x6E {
        Some(0x0Au8)
    } else if c == 0x74 {
        Some(0x09u8)
    } else {
        None
    }
}

/// Bytes in front of what follows.
pub open spec fn put_before(b: u8, rest: Quoted) -> Quoted {
    match rest {
        Quoted::Closed(s, p) => Quoted::Closed(seq![b] + s, p),
        Quoted::Broken(p, m) => Quoted::Broken(p, m),
    }
}

pub open spec fn quoted(src: Seq<u8>, pos: int) -> Quoted
    decreases src.len() - pos,
{
    if pos < 0 || pos >= src.len() {
        Quoted::Broken(pos, "unterminated string"@)
    } else if src[pos] == 0x22 {
        Quoted::Closed(Seq::empty(), pos + 1)
    } else if src[pos] == 0x5C {
        if pos + 1 >= src.len() {
            Quoted::Broken(pos + 1, "unterminated string"@)
        } else {
            match escaped(src[pos + 1]) {
                Some(b) => put_before(b, quoted(src, pos + 2)),
                None => Quoted::Broken(pos + 2, "invalid escape \\"@ + seq![src[pos + 1] as char]),
            }
        }
    } else {
        put_before(src[pos], quoted(src, pos + 1))
    }
}

/// What stands at `pos`, after white space.
pub open spec fn lex(src: Seq<u8>, pos: int) -> Lexed {
    let p = space_end(src, pos);
    if p >= src.len() {
        Lexed::End(p)
    } else if src[p] == 0x28 {
        Lexed::Token(TokV::LParen, p + 1)
    } else if src[p] == 0x29 {
        Lexed::Token(TokV::RParen, p + 1)
    } else if src[p] == 0x2C {
        Lexed::Token(TokV::Comma, p + 1)
    } else if src[p] == 0x22 {
        match quoted(src, p + 1) {
            Quoted::Closed(s, q) => Lexed::Token(TokV::Str(text::lossy_text(s)), q),
            Quoted::Broken(q, m) => Lexed::Bad(q, m),
        }
    } else if is_letter(src[p]) {
        Lexed::Token(TokV::Ident(text::lossy_text(src.subrange(p, word_end(src, p)))), word_end(src, p))
    } else {
        Lexed::Bad(p, "unexpected character "@ + util::char_debug(src[p] as char))
    }
}

// ---------- calls ----------

/// A call and the place behind it, or the place of a fault and the reason.
pub enum Parsed {
    Done(CallV, int),
    Failed(int, Seq<char>),
}

/// A token for a message.
pub open spec fn token_text(t: TokV) -> Seq<char> {
    match t {
        TokV::Ident(s) => "Ident("@ + text::debug_text(s) + ")"@,
        TokV::Str(s) => "Str("@ + text::debug_text(s) + ")"@,
        TokV::LParen => "LParen"@,
        TokV::RParen => "RParen"@,
        TokV::Comma => "Comma"@,
    }
}

/// Why no parenthesis opened behind a name.
pub open spec fn not_open(name: Seq<char>, got: Seq<char>) -> Seq<char> {
    "expected '(' after "@ + name + ", got "@ + got
}

/// The call of `name` whose opening parenthesis is to stand at `pos`.
pub open spec fn named(src: Seq<u8>, pos: int, name: Seq<char>) -> Parsed
    decreases src.len() - pos, 1nat,
    when 0 <= pos <= src.len()
{
    match lex(src, pos) {
        Lexed::Bad(p, m) => Parsed::Failed(p, m),
        Lexed::End(p) => Parsed::Failed(p, not_open(name, "None"@)),
        Lexed::Token(t, p) => if t is LParen {
            proof {
                lemma_lex_moves(src, pos);
            }
            args_from(src, p, name, Seq::empty(), false)
        } else {
            Parsed::Failed(p, not_open(name, "Some("@ + token_text(t) + ")"@))
        },
    }
}

/// The call of `name` of which `args` have been read up to `pos`; behind a comma one
/// more is `due`. One comma stands between two arguments, and nowhere else.
pub open spec fn args_from(src: Seq<u8>, pos: int, name: Seq<char>, args: Seq<ArgV>, due: bool) -> Parsed
    decreases src.len() - pos, 0nat,
    when 0 <= pos <= src.len()
{
    proof {
        lemma_lex_moves(src, pos);
    }
    match lex(src, pos) {
        Lexed::Bad(p, m) => Parsed::Failed(p, m),
        Lexed::End(p) => Parsed::Failed(p, "unterminated call: missing ')'"@),
        Lexed::Token(t, p) => match t {
            TokV::RParen => if due {
                Parsed::Failed(p, "expected argument, got ')'"@)
            } else {
                Parsed::Done(CallV { name, args }, p)
            },
            TokV::Comma => if args.len() == 0 || due {
                Parsed::Failed(p, "unexpected ','"@)
            } else {
                args_from(src, p, name, args, true)
            },
            TokV::Str(s) => if args.len() > 0 && !due {
                Parsed::Failed(p, "expected ',' or ')' after argument"@)
            } else {
                args_from(src, p, name, args.push(ArgV::Str(s)), false)
            },
            TokV::Ident(n) => if args.len() > 0 && !due {
                Parsed::Failed(p, "expected ',' or ')' after argument"@)
            } else {
                match named(src, p, n) {
                    Parsed::Failed(q, m) => Parsed::Failed(q, m),
                    Parsed::Done(c, q) => if p < q <= src.len() {
                        args_from(src, q, name, args.push(ArgV::Call(c)), false)
                    } else {
                        Parsed::Failed(q, Seq::empty())
                    },
                }
            },
            TokV::LParen => Parsed::Failed(p, "expected argument, got '('"@),
        },
    }
}

/// The line of a place, from 1 on.
pub open spec fn line_at(src: Seq<u8>, pos: int) -> int
    decreases pos,
{
    if pos <= 0 {
        1
    } else if src[pos - 1] == 0x0A {
        line_at(src, pos - 1) + 1
    } else {
        line_at(src, pos - 1)
    }
}

/// The column of a place in bytes, from 1 on.
pub open spec fn col_at(src: Seq<u8>, pos: int) -> int
    decreases pos,
{
    if pos <= 0 || src[pos - 1] == 0x0A {
        1
    } else {
        col_at(src, pos - 1) + 1
    }
}

/// A count that stops at what a machine word holds.
pub open spec fn counted(n: int) -> usize {
    if n > usize::MAX {
        usize::MAX
    } else {
        n as usize
    }
}

/// A fault at a place of the source.
pub open spec fn fault_at(src: Seq<u8>, pos: int, msg: Seq<char>) -> QueryFault {
    QueryFault::Parse { line: counted(line_at(src, pos)), col: counted(col_at(src, pos)), msg }
}

/// The statement that a source holds: one call and nothing else.
pub open spec fn statement(src: Seq<u8>) -> Result<CallV, QueryFault> {
    match lex(src, 0) {
        Lexed::End(p) => Err(fault_at(src, p, "empty expression"@)),
        Lexed::Bad(p, m) => Err(fault_at(src, p, m)),
        Lexed::Token(t, p) => match t {
            TokV::Ident(n) => match named(src, p, n) {
                Parsed::Failed(q, m) => Err(fault_at(src, q, m)),
                Parsed::Done(c, q) => {
                    let e = space_end(src, q);
                    if e < src.len() {
                        Err(fault_at(src, e, "trailing tokens after expression"@))
                    } else {
                        Ok(c)
                    }
                },
            },
            _ => Err(fault_at(src, p, "expected function name, got "@ + token_text(t))),
        },
    }
}

// ---------- places move on ----------

proof fn lemma_space_end(src: Seq<u8>, pos: int)
    requires
        0 <= pos <= src.len(),
    ensures
        pos <= space_end(src, pos) <= src.len(),
        space_end(src, pos) < src.len() ==> !is_space(src[space_end(src, pos)]),
    decreases src.len() - pos,
{
    if pos < src.len() && is_space(src[pos]) {
        lemma_space_end(src, pos + 1);
    }
}

proof fn lemma_word_end(src: Seq<u8>, pos: int)
    requires
        0 <= pos <= src.len(),
    ensures
        pos <= word_end(src, pos) <= src.len(),
        pos < src.len() && is_word(src[pos]) ==> pos < word_end(src, pos),
    decreases src.len() - pos,
{
    if pos < src.len() && is_word(src[pos]) {
        lemma_word_end(src, pos + 1);
    }
}

proof fn lemma_quoted(src: Seq<u8>, pos: int)
    requires
        0 <= pos <= src.len(),
    ensures
        match quoted(src, pos) {
            Quoted::Closed(_, q) => pos < q <= src.len(),
            Quoted::Broken(q, _) => pos <= q <= src.len(),
        },
    decreases src.len() - pos,
{
    if pos < src.len() && src[pos] != 0x22 {
        if src[pos] == 0x5C {
            if pos + 1 < src.len() {
                lemma_quoted(src, pos + 2);
            }
        } else {
            lemma_quoted(src, pos + 1);
        }
    }
}

/// Reading a token moves on.
pub proof fn lemma_lex_moves(src: Seq<u8>, pos: int)
    requires
        0 <= pos <= src.len(),
    ensures
        match lex(src, pos) {
            Lexed::End(p) => pos <= p <= src.len(),
            Lexed::Token(_, p) => pos < p <= src.len(),
            Lexed::Bad(p, _) => pos <= p <= src.len(),
        },
{
    lemma_space_end(src, pos);
    let p = space_end(src, pos);
    if p < src.len() {
        lemma_quoted(src, p + 1);
        lemma_word_end(src, p);
    }
}

proof fn lemma_named_moves(src: Seq<u8>, pos: int, name: Seq<char>)
    requires
        0 <= pos <= src.len(),
    ensures
        match named(src, pos, name) {
            Parsed::Done(_, p) => pos < p <= src.len(),
            Parsed::Failed(p, _) => pos <= p <= src.len(),
        },
    decreases src.len() - pos, 1nat,
{
    lemma_lex_moves(src, pos);
    match lex(src, pos) {
        Lexed::Token(t, p) => {
            if t is LParen {
                lemma_args_move(src, p, name, Seq::empty(), false);
            }
        },
        _ => {},
    }
}

proof fn lemma_args_move(src: Seq<u8>, pos: int, name: Seq<char>, args: Seq<ArgV>, due: bool)
    requires
        0 <= pos <= src.len(),
    ensures
        match args_from(src, pos, name, args, due) {
            Parsed::Done(_, p) => pos < p <= src.len(),
            Parsed::Failed(p, _) => pos <= p <= src.len(),
        },
    decreases src.len() - pos, 0nat,
{
    lemma_lex_moves(src, pos);
    match lex(src, pos) {
        Lexed::Token(t, p) => match t {
            TokV::Comma => {
                if args.len() > 0 && !due {
                    lemma_args_move(src, p, name, args, true);
                }
            },
            TokV::Str(s) => {
                lemma_args_move(src, p, name, args.push(ArgV::Str(s)), false);
            },
            TokV::Ident(n) => {
                lemma_named_moves(src, p, n);
                match named(src, p, n) {
                    Parsed::Done(c, q) => {
                        lemma_args_move(src, q, name, args.push(ArgV::Call(c)), false);
                    },
                    _ => {},
                }
            },
            _ => {},
        },
        _ => {},
    }
}

// ---------- the tokenizer ----------

/// A token.
#[derive(Debug)]
enum Tok {
    Ident(String),
    Str(String),
    LParen,
    RParen,
    Comma,
}

impl View for Tok {
    type V = TokV;

    closed spec fn view(&self) -> TokV {
        match self {
            Tok::Ident(s) => TokV::Ident(s@),
            Tok::Str(s) => TokV::Str(s@),
            Tok::LParen => TokV::LParen,
            Tok::RParen => TokV::RParen,
            Tok::Comma => TokV::Comma,
        }
    }
}

/// A source and a place in it.
struct Tokenizer<'a> {
    src: &'a [u8],
    pos: usize,
}

fn space(c: u8) -> (r: bool)
    ensures
        r == is_space(c),
{
    c == 0x20 || c == 0x09 || c == 0x0A || c == 0x0C || c == 0x0D
}

fn letter(c: u8) -> (r: bool)
    ensures
        r == is_letter(c),
{
    (0x41 <= c && c <= 0x5A) || (0x61 <= c && c <= 0x7A) || c == 0x5F
}

fn word(c: u8) -> (r: bool)
    ensures
        r == is_word(c),
{
    letter(c) || (0x30 <= c && c <= 0x39)
}

/// A token for a message.
fn show_token(t: &Tok) -> (r: String)
    ensures
        r@ == token_text(t@),
{
    match t {
        Tok::Ident(s) => text::join3("Ident(", text::debug_string(s.as_str()).as_str(), ")"),
        Tok::Str(s) => text::join3("Str(", text::debug_string(s.as_str()).as_str(), ")"),
        Tok::LParen => text::copy_text("LParen"),
        Tok::RParen => text::copy_text("RParen"),
        Tok::Comma => text::copy_text("Comma"),
    }
}

/// Why no parenthesis opened behind a name.
fn show_not_open(name: &str, got: &str) -> (r: String)
    ensures
        r@ == not_open(name@, got@),
{
    let mut m = text::join3("expected '(' after ", name, ", got ");
    m.push_str(got);
    m
}

impl<'a> Tokenizer<'a> {
    spec fn wf(&self) -> bool {
        self.pos <= self.src@.len()
    }

    fn new(src: &'a str) -> (t: Tokenizer<'a>)
        ensures
            t.wf(),
            t.src@ == text::utf8(src@),
            t.pos == 0,
    {
        Tokenizer { src: src.as_bytes(), pos: 0 }
    }

    /// A fault at the present place.
    fn err(&self, msg: String) -> (e: QueryError)
        requires
            self.wf(),
        ensures
            e@ == fault_at(self.src@, self.pos as int, msg@),
    {
        let mut line: usize = 1;
        let mut col: usize = 1;
        let mut i: usize = 0;
        while i < self.pos
            invariant
                i <= self.pos <= self.src@.len(),
                line == counted(line_at(self.src@, i as int)),
                col == counted(col_at(self.src@, i as int)),
                line_at(self.src@, i as int) >= 1,
                col_at(self.src@, i as int) >= 1,
            decreases self.pos - i,
        {
            if self.src[i] == 0x0A {
                line = line.saturating_add(1);
                col = 1;
            } else {
                col = col.saturating_add(1);
            }
            i += 1;
        }
        QueryError::Parse { line, col, msg }
    }

    fn skip_ws(&mut self)
        requires
            old(self).wf(),
        ensures
            final(self).wf(),
            final(self).src@ == old(self).src@,
            final(self).pos == space_end(old(self).src@, old(self).pos as int),
    {
        while self.pos < self.src.len() && space(self.src[self.pos])
            invariant
                self.wf(),
                self.src@ == old(self).src@,
                space_end(self.src@, self.pos as int) == space_end(old(self).src@, old(self).pos as int),
            decreases self.src@.len() - self.pos,
        {
            self.pos = self.pos + 1;
        }
    }

    /// A text in quotes, from behind the opening one.
    fn quoted_text(&mut self) -> (r: Result<Vec<u8>, QueryError>)
        requires
            old(self).wf(),
        ensures
            final(self).wf(),
            final(self).src@ == old(self).src@,
            match quoted(old(self).src@, old(self).pos as int) {
                Quoted::Closed(s, p) => r matches Ok(b) && b@ == s && final(self).pos == p,
                Quoted::Broken(p, m) => r matches Err(e) && e@ == fault_at(old(self).src@, p, m),
            },
    {
        let ghost whole = quoted(self.src@, self.pos as int);
        let mut s: Vec<u8> = Vec::new();
        proof {
            lemma_prefixed_none(whole);
        }
        while self.pos < self.src.len()
            invariant
                self.wf(),
                self.src@ == old(self).src@,
                whole == quoted(old(self).src@, old(self).pos as int),
                whole == prefixed(s@, quoted(self.src@, self.pos as int)),
            decreases self.src@.len() - self.pos,
        {
            let c = self.src[self.pos];
            let ghost had = s@;
            self.pos = self.pos + 1;
            if c == 0x22 {
                assert(had + Seq::<u8>::empty() =~= had);
                return Ok(s);
            }
            if c == 0x5C {
                if self.pos == self.src.len() {
                    return Err(self.err(text::copy_text("unterminated string")));
                }
                let x = self.src[self.pos];
                self.pos = self.pos + 1;
                if x == 0x22 || x == 0x5C {
                    s.push(x);
                } else if x == 0x6E {
                    s.push(0x0A);
                } else if x == 0x74 {
                    s.push(0x09);
                } else {
                    let mut m = text::copy_text("invalid escape \\");
                    m.push(x as char);
                    assert(m@ =~= "invalid escape \\"@ + seq![x as char]);
                    return Err(self.err(m));
                }
                proof {
                    lemma_prefixed_step(had, escaped(x)->0, quoted(self.src@, self.pos as int));
                }
            } else {
                s.push(c);
                proof {
                    lemma_prefixed_step(had, c, quoted(self.src@, self.pos as int));
                }
            }
        }
        Err(self.err(text::copy_text("unterminated string")))
    }

    /// The next token; none at the end.
    fn token(&mut self) -> (r: Result<Option<Tok>, QueryError>)
        requires
            old(self).wf(),
        ensures
            final(self).wf(),
            final(self).src@ == old(self).src@,
            match lex(old(self).src@, old(self).pos as int) {
                Lexed::End(p) => r matches Ok(None) && final(self).pos == p,
                Lexed::Token(t, p) => r matches Ok(Some(k)) && k@ == t && final(self).pos == p,
                Lexed::Bad(p, m) => r matches Err(e) && e@ == fault_at(old(self).src@, p, m),
            },
    {
        self.skip_ws();
        if self.pos == self.src.len() {
            return Ok(None);
        }
        let c = self.src[self.pos];
        if c == 0x28 {
            self.pos = self.pos + 1;
            Ok(Some(Tok::LParen))
        } else if c == 0x29 {
            self.pos = self.pos + 1;
            Ok(Some(Tok::RParen))
        } else if c == 0x2C {
            self.pos = self.pos + 1;
            Ok(Some(Tok::Comma))
        } else if c == 0x22 {
            self.pos = self.pos + 1;
            match self.quoted_text() {
                Ok(s) => Ok(Some(Tok::Str(text::lossy_string(s.as_slice())))),
                Err(e) => Err(e),
            }
        } else if letter(c) {
            let start: usize = self.pos;
            let mut name: Vec<u8> = Vec::new();
            while self.pos < self.src.len() && word(self.src[self.pos])
                invariant
                    self.wf(),
                    start <= self.pos,
                    self.src@ == old(self).src@,
                    name@ == self.src@.subrange(start as int, self.pos as int),
                    word_end(self.src@, self.pos as int) == word_end(self.src@, start as int),
                decreases self.src@.len() - self.pos,
            {
                name.push(self.src[self.pos]);
                self.pos = self.pos + 1;
                assert(name@ =~= self.src@.subrange(start as int, self.pos as int));
            }
            Ok(Some(Tok::Ident(text::lossy_string(name.as_slice()))))
        } else {
            Err(self.err(text::join2("unexpected character ", util::debug_char(c as char).as_str())))
        }
    }

    /// Read `( args )` of a call whose name was read.
    fn parse_named_call(&mut self, name: String) -> (r: Result<Call, QueryError>)
        requires
            old(self).wf(),
        ensures
            final(self).wf(),
            final(self).src@ == old(self).src@,
            match named(old(self).src@, old(self).pos as int, name@) {
                Parsed::Done(c, p) => r matches Ok(k) && k.value() == c && final(self).pos == p,
                Parsed::Failed(p, m) => r matches Err(e) && e@ == fault_at(old(self).src@, p, m),
            },
        decreases old(self).src@.len() - old(self).pos,
    {
        let ghost src = self.src@;
        let ghost whole = named(src, self.pos as int, name@);
        let ghost start = self.pos as int;
        proof {
            lemma_lex_moves(src, start);
        }
        match self.token() {
            Err(e) => {
                return Err(e);
            },
            Ok(None) => {
                return Err(self.err(show_not_open(name.as_str(), "None")));
            },
            Ok(Some(Tok::LParen)) => {},
            Ok(Some(t)) => {
                let got = text::join3("Some(", show_token(&t).as_str(), ")");
                return Err(self.err(show_not_open(name.as_str(), got.as_str())));
            },
        }
        let mut args: Vec<Arg> = Vec::new();
        let mut due = false;
        assert(arg_values(args@) =~= Seq::empty());
        loop
            invariant
                self.wf(),
                self.src@ == src,
                src == old(self).src@,
                start == old(self).pos,
                start < self.pos,
                whole == named(src, start, name@),
                whole == args_from(src, self.pos as int, name@, arg_values(args@), due),
            decreases src.len() - self.pos,
        {
            proof {
                lemma_lex_moves(src, self.pos as int);
            }
            let ghost had = arg_values(args@);
            match self.token() {
                Err(e) => {
                    return Err(e);
                },
                Ok(None) => {
                    return Err(self.err(text::copy_text("unterminated call: missing ')'")));
                },
                Ok(Some(Tok::RParen)) => {
                    if due {
                        return Err(self.err(text::copy_text("expected argument, got ')'")));
                    }
                    let c = Call { name, args };
                    proof {
                        lemma_call(c);
                    }
                    return Ok(c);
                },
                Ok(Some(Tok::Comma)) => {
                    if args.len() == 0 || due {
                        return Err(self.err(text::copy_text("unexpected ','")));
                    }
                    due = true;
                },
                Ok(Some(Tok::Str(s))) => {
                    if args.len() > 0 && !due {
                        return Err(self.err(text::copy_text("expected ',' or ')' after argument")));
                    }
                    due = false;
                    args.push(Arg::Str(s));
                    assert(arg_values(args@) =~= had.push(ArgV::Str(s@)));
                },
                Ok(Some(Tok::Ident(n))) => {
                    if args.len() > 0 && !due {
                        return Err(self.err(text::copy_text("expected ',' or ')' after argument")));
                    }
                    due = false;
                    proof {
                        lemma_named_moves(src, self.pos as int, n@);
                    }
                    match self.parse_named_call(n) {
                        Err(e) => {
                            return Err(e);
                        },
                        Ok(c) => {
                            let ghost cv = c.value();
                            args.push(Arg::Call(c));
                            assert(arg_values(args@) =~= had.push(ArgV::Call(cv)));
                        },
                    }
                },
                Ok(Some(Tok::LParen)) => {
                    return Err(self.err(text::copy_text("expected argument, got '('")));
                },
            }
        }
    }
}

/// Bytes in front of what follows.
spec fn prefixed(s: Seq<u8>, rest: Quoted) -> Quoted {
    match rest {
        Quoted::Closed(t, p) => Quoted::Closed(s + t, p),
        Quoted::Broken(p, m) => Quoted::Broken(p, m),
    }
}

proof fn lemma_prefixed_none(rest: Quoted)
    ensures
        prefixed(Seq::empty(), rest) == rest,
{
    match rest {
        Quoted::Closed(t, p) => {
            assert(Seq::<u8>::empty() + t =~= t);
        },
        _ => {},
    }
}

proof fn lemma_prefixed_step(s: Seq<u8>, b: u8, rest: Quoted)
    ensures
        prefixed(s, put_before(b, rest)) == prefixed(s.push(b), rest),
{
    match rest {
        Quoted::Closed(t, p) => {
            assert(s + (seq![b] + t) =~= s.push(b) + t);
        },
        _ => {},
    }
}

/// Read a statement: one call and nothing else.
pub fn parse(src: &str) -> (r: Result<Call, QueryError>)
    ensures
        match statement(text::utf8(src@)) {
            Ok(c) => r matches Ok(k) && k.value() == c,
            Err(f) => r matches Err(e) && e@ == f,
        },
{
    let mut toks = Tokenizer::new(src);
    proof {
        lemma_lex_moves(toks.src@, 0);
    }
    let name = match toks.token() {
        Err(e) => {
            return Err(e);
        },
        Ok(None) => {
            return Err(toks.err(text::copy_text("empty expression")));
        },
        Ok(Some(Tok::Ident(n))) => n,
        Ok(Some(t)) => {
            return Err(toks.err(text::join2("expected function name, got ", show_token(&t).as_str())));
        },
    };
    proof {
        lemma_named_moves(toks.src@, toks.pos as int, name@);
    }
    match toks.parse_named_call(name) {
        Err(e) => Err(e),
        Ok(c) => {
            toks.skip_ws();
            if toks.pos < toks.src.len() {
                return Err(toks.err(text::copy_text("trailing tokens after expression")));
            }
            Ok(c)
        },
    }
}

} // verus!
