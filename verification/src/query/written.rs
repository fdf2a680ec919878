//! How statements are written, and that they are read as they were meant.

use crate::query::eval;
use crate::query::eval::CtxV;
use crate::query::syntax;
use crate::query::syntax::{ArgV, CallV, Lexed, Parsed, Quoted, TokV};
use crate::query::value::QueryFault;
use crate::text;
use vstd::prelude::*;

verus! {

/// A byte of a text in quotes: a quote, a backslash, a line feed and a tab are written
/// with a backslash.
pub open spec fn escape(b: u8) -> Seq<u8> {
    if b == 34 {
        seq![92u8, 34u8]
    } else if b == 92 {
        seq![92u8, 92u8]
    } else if b == 10 {
        seq![92u8, 110u8]
    } else if b == 9 {
        seq![92u8, 116u8]
    } else {
        seq![b]
    }
}

/// The bytes of a text in quotes, without the quotes.
pub open spec fn escapes(s: Seq<u8>) -> Seq<u8>
    decreases s.len(),
{
    if s.len() == 0 {
        Seq::empty()
    } else {
        escape(s[0]) + escapes(s.drop_first())
    }
}

/// May the name be that of a function: letters, digits and underscores, no digit first?
pub open spec fn is_name(n: Seq<char>) -> bool {
    &&& n.len() > 0
    &&& !('0' <= n[0] <= '9')
    &&& forall|i: int|
        0 <= i < n.len() ==> ('a' <= #[trigger] n[i] <= 'z') || ('A' <= n[i] <= 'Z') || n[i] == '_' || ('0' <= n[i]
            <= '9')
}

/// Have the call and all calls inside it such names?
pub open spec fn well_named(c: CallV) -> bool
    decreases c, 1nat, 0nat,
{
    is_name(c.name) && args_named(c, 0)
}

pub open spec fn args_named(c: CallV, i: int) -> bool
    decreases c, 0nat, c.args.len() - i,
{
    if i < 0 || i >= c.args.len() {
        true
    } else {
        (match c.args[i] {
            ArgV::Call(k) => well_named(k),
            ArgV::Str(_) => true,
        }) && args_named(c, i + 1)
    }
}

/// A call in writing: its name, and in parentheses its arguments with commas between
/// them, texts in quotes.
pub open spec fn written(c: CallV) -> Seq<u8>
    decreases c, 2nat, 0nat,
{
    text::utf8(c.name) + seq![40u8] + written_from(c, 0)
}

/// The arguments from place `i` on and the closing parenthesis.
pub open spec fn written_from(c: CallV, i: int) -> Seq<u8>
    decreases c, 1nat, c.args.len() - i,
{
    if i < 0 || i >= c.args.len() {
        seq![41u8]
    } else {
        (if i == 0 {
            Seq::empty()
        } else {
            seq![44u8]
        }) + (match c.args[i] {
            ArgV::Call(k) => written(k),
            ArgV::Str(s) => seq![34u8] + escapes(text::utf8(s)) + seq![34u8],
        }) + written_from(c, i + 1)
    }
}

/// Do the bytes stand in the source from a place on?
spec fn stands(src: Seq<u8>, pos: int, w: Seq<u8>) -> bool {
    0 <= pos && pos + w.len() <= src.len() && src.subrange(pos, pos + w.len()) == w
}

proof fn lemma_split(src: Seq<u8>, pos: int, a: Seq<u8>, b: Seq<u8>)
    requires
        stands(src, pos, a + b),
    ensures
        stands(src, pos, a),
        stands(src, pos + a.len(), b),
{
    let w = a + b;
    assert(src.subrange(pos, pos + a.len()) =~= a) by {
        assert forall|i: int| 0 <= i < a.len() implies src.subrange(pos, pos + a.len())[i] == a[i] by {
            assert(w[i] == a[i]);
            assert(src.subrange(pos, pos + w.len())[i] == w[i]);
        }
    }
    assert(src.subrange(pos + a.len(), pos + a.len() + b.len()) =~= b) by {
        assert forall|i: int| 0 <= i < b.len() implies src.subrange(pos + a.len(), pos + a.len() + b.len())[i] == b[i] by {
            assert(w[a.len() + i] == b[i]);
            assert(src.subrange(pos, pos + w.len())[a.len() + i] == w[a.len() + i]);
        }
    }
}

proof fn lemma_at(src: Seq<u8>, pos: int, w: Seq<u8>, i: int)
    requires
        stands(src, pos, w),
        0 <= i < w.len(),
    ensures
        src[pos + i] == w[i],
{
    assert(src.subrange(pos, pos + w.len())[i] == w[i]);
}

proof fn lemma_quoted(src: Seq<u8>, pos: int, s: Seq<u8>)
    requires
        stands(src, pos, escapes(s) + seq![34u8]),
    ensures
        syntax::quoted(src, pos) == Quoted::Closed(s, pos + escapes(s).len() + 1),
    decreases s.len(),
{
    let w = escapes(s) + seq![34u8];
    if s.len() == 0 {
        assert(w =~= seq![34u8]);
        lemma_at(src, pos, w, 0);
        assert(s =~= Seq::empty());
    } else {
        let e = escape(s[0]);
        let rest = s.drop_first();
        let more = escapes(rest) + seq![34u8];
        assert(w =~= e + more);
        lemma_split(src, pos, e, more);
        lemma_quoted(src, pos + e.len(), rest);
        lemma_at(src, pos, e, 0);
        if e.len() == 2 {
            lemma_at(src, pos, e, 1);
        }
        assert(seq![s[0]] + rest =~= s);
    }
}

proof fn lemma_name_bytes(n: Seq<char>)
    requires
        is_name(n),
    ensures
        text::utf8(n).len() == n.len(),
        syntax::is_letter(text::utf8(n)[0]),
        forall|i: int| 0 <= i < n.len() ==> syntax::is_word(#[trigger] text::utf8(n)[i]),
{
    assert forall|i: int| 0 <= i < n.len() implies (#[trigger] n[i] as u32) < 128 by {}
    assert(vstd::utf8::is_ascii_chars(n));
    text::lemma_utf8_ascii(n);
    assert forall|i: int| 0 <= i < n.len() implies syntax::is_word(#[trigger] text::utf8(n)[i]) by {
        assert(text::utf8(n)[i] == n[i] as u8);
        let c = n[i];
        assert(('a' <= c <= 'z') || ('A' <= c <= 'Z') || c == '_' || ('0' <= c <= '9'));
    }
    assert(text::utf8(n)[0] == n[0] as u8);
    let c = n[0];
    assert(('a' <= c <= 'z') || ('A' <= c <= 'Z') || c == '_');
}

proof fn lemma_word_end(src: Seq<u8>, pos: int, end: int)
    requires
        0 <= pos <= end < src.len(),
        forall|i: int| pos <= i < end ==> syntax::is_word(#[trigger] src[i]),
        !syntax::is_word(src[end]),
    ensures
        syntax::word_end(src, pos) == end,
    decreases end - pos,
{
    if pos < end {
        lemma_word_end(src, pos + 1, end);
    }
}

/// A name with a parenthesis behind it is read as a name.
proof fn lemma_name(src: Seq<u8>, pos: int, n: Seq<char>)
    requires
        is_name(n),
        stands(src, pos, text::utf8(n) + seq![40u8]),
    ensures
        syntax::lex(src, pos) == Lexed::Token(TokV::Ident(n), pos + n.len()),
{
    let b = text::utf8(n);
    let w = b + seq![40u8];
    lemma_name_bytes(n);
    text::lemma_utf8_decodes(n);
    lemma_split(src, pos, b, seq![40u8]);
    lemma_at(src, pos + b.len(), seq![40u8], 0);
    assert forall|i: int| pos <= i < pos + b.len() implies syntax::is_word(#[trigger] src[i]) by {
        lemma_at(src, pos, b, i - pos);
        assert(syntax::is_word(b[i - pos]));
    }
    lemma_at(src, pos, b, 0);
    lemma_word_end(src, pos, pos + b.len());
    assert(syntax::space_end(src, pos) == pos);
    assert(src.subrange(pos, pos + b.len()) == b);
}

proof fn lemma_read_args(src: Seq<u8>, pos: int, c: CallV, i: int)
    requires
        args_named(c, i),
        0 <= i <= c.args.len(),
        stands(src, pos, written_from(c, i)),
    ensures
        syntax::args_from(src, pos, c.name, c.args.take(i), false) == Parsed::Done(c, pos + written_from(c, i).len()),
    decreases c, 1nat, c.args.len() - i,
{
    let w = written_from(c, i);
    if i == c.args.len() {
        lemma_at(src, pos, w, 0);
        assert(c.args.take(i) =~= c.args);
        assert(syntax::space_end(src, pos) == pos);
        assert(syntax::lex(src, pos) == Lexed::Token(TokV::RParen, pos + 1));
    } else {
        let comma: Seq<u8> = if i == 0 {
            Seq::empty()
        } else {
            seq![44u8]
        };
        let arg = match c.args[i] {
            ArgV::Call(k) => written(k),
            ArgV::Str(s) => seq![34u8] + escapes(text::utf8(s)) + seq![34u8],
        };
        let rest = written_from(c, i + 1);
        assert(w == comma + arg + rest);
        lemma_split(src, pos, comma + arg, rest);
        lemma_split(src, pos, comma, arg);
        let p = pos + comma.len();
        let q = p + arg.len();
        let had = c.args.take(i);
        let due = i > 0;
        if due {
            lemma_at(src, pos, comma, 0);
            assert(syntax::space_end(src, pos) == pos);
            assert(syntax::lex(src, pos) == Lexed::Token(TokV::Comma, pos + 1));
            assert(syntax::args_from(src, pos, c.name, had, false) == syntax::args_from(src, p, c.name, had, true));
        }
        lemma_read_args(src, q, c, i + 1);
        assert(had.push(c.args[i]) =~= c.args.take(i + 1));
        match c.args[i] {
            ArgV::Str(s) => {
                let b = text::utf8(s);
                let inner = escapes(b) + seq![34u8];
                assert(arg =~= seq![34u8] + inner);
                lemma_split(src, p, seq![34u8], inner);
                lemma_at(src, p, seq![34u8], 0);
                lemma_quoted(src, p + 1, b);
                text::lemma_utf8_decodes(s);
                assert(syntax::space_end(src, p) == p);
                assert(syntax::lex(src, p) == Lexed::Token(TokV::Str(s), q));
                assert(syntax::args_from(src, p, c.name, had, due) == syntax::args_from(
                    src,
                    q,
                    c.name,
                    had.push(ArgV::Str(s)),
                    false,
                ));
            },
            ArgV::Call(k) => {
                assert(well_named(k));
                lemma_read_call(src, p, k);
                let n = p + k.name.len();
                assert(syntax::lex(src, p) == Lexed::Token(TokV::Ident(k.name), n));
                assert(syntax::named(src, n, k.name) == Parsed::Done(k, q));
                assert(syntax::args_from(src, p, c.name, had, due) == syntax::args_from(
                    src,
                    q,
                    c.name,
                    had.push(ArgV::Call(k)),
                    false,
                ));
            },
        }
    }
}

proof fn lemma_read_call(src: Seq<u8>, pos: int, c: CallV)
    requires
        well_named(c),
        stands(src, pos, written(c)),
    ensures
        syntax::lex(src, pos) == Lexed::Token(TokV::Ident(c.name), pos + c.name.len()),
        syntax::named(src, pos + c.name.len(), c.name) == Parsed::Done(c, pos + written(c).len()),
        written(c).len() > c.name.len(),
    decreases c, 2nat, 0nat,
{
    let head = text::utf8(c.name) + seq![40u8];
    lemma_name_bytes(c.name);
    lemma_split(src, pos, head, written_from(c, 0));
    lemma_name(src, pos, c.name);
    lemma_split(src, pos, text::utf8(c.name), seq![40u8]);
    let p = pos + c.name.len();
    lemma_at(src, p, seq![40u8], 0);
    assert(syntax::space_end(src, p) == p);
    assert(syntax::lex(src, p) == Lexed::Token(TokV::LParen, p + 1));
    lemma_read_args(src, p + 1, c, 0);
    assert(c.args.take(0) =~= Seq::empty());
}

/// A statement is read as it is written: the call with its name and its arguments, in
/// order and however nested, and every text as it stands, whatever it holds.
pub proof fn law_statement_is_read_as_written(c: CallV)
    requires
        well_named(c),
    ensures
        syntax::statement(written(c)) == Ok::<CallV, QueryFault>(c),
{
    let src = written(c);
    assert(src.subrange(0, src.len() as int) =~= src);
    lemma_read_call(src, 0, c);
    assert(syntax::space_end(src, src.len() as int) == src.len());
}

/// A source that is a written statement is run as that call; one that cannot be read
/// fails with the place of the fault, and nothing changes.
pub proof fn law_written_statement_is_run(src: Seq<char>, call: CallV, c: CtxV, wall_ms: u64)
    requires
        well_named(call),
        text::utf8(src) == written(call),
    ensures
        eval::outcome(src, c, wall_ms) == eval::run(call, c, wall_ms),
{
    law_statement_is_read_as_written(call);
}

/// A source that is no statement changes nothing, and says so.
pub proof fn law_unreadable_source_changes_nothing(src: Seq<char>, c: CtxV, wall_ms: u64)
    requires
        syntax::statement(text::utf8(src)) is Err,
    ensures
        eval::outcome(src, c, wall_ms).ctx == c,
        eval::outcome(src, c, wall_ms).result is Err,
{
}

} // verus!
