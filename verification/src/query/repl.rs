//! One line of an interactive session.

use crate::query::eval;
use crate::query::eval::{CtxV, QueryCtx};
use crate::query::value::{QueryError, QueryValue};
use crate::text;
use vstd::prelude::*;

verus! {

/// What becomes of a line.
#[derive(Debug)]
pub enum ReplStep {
    /// There is nothing on it.
    Skip,
    /// The session is over.
    Exit,
    /// It was run as a statement.
    Answer(Result<QueryValue, QueryError>),
}

/// What becomes of a line, in the model.
pub enum LineV {
    Skip,
    Exit,
    Run(Seq<char>),
}

/// What becomes of a line: white space around it does not count.
pub open spec fn line_of(line: Seq<char>) -> LineV {
    let t = text::trimmed(line);
    if t.len() == 0 {
        LineV::Skip
    } else if t == "exit"@ {
        LineV::Exit
    } else {
        LineV::Run(t)
    }
}

/// The context after a line.
pub open spec fn after_line(line: Seq<char>, c: CtxV, wall_ms: u64) -> CtxV {
    match line_of(line) {
        LineV::Run(src) => eval::outcome(src, c, wall_ms).ctx,
        _ => c,
    }
}

/// Take one line of a session.
pub fn repl_line(ctx: &mut QueryCtx, line: &str, wall_ms: u64) -> (r: ReplStep)
    requires
        old(ctx).wf(),
    ensures
        final(ctx).wf(),
        final(ctx).value() == after_line(line@, old(ctx).value(), wall_ms),
        match line_of(line@) {
            LineV::Skip => r is Skip,
            LineV::Exit => r is Exit,
            LineV::Run(src) => r matches ReplStep::Answer(a) && eval::answers(
                a,
                eval::outcome(src, old(ctx).value(), wall_ms).result,
            ),
        },
        old(ctx).store is Read ==> final(ctx).store == old(ctx).store,
        old(ctx).store is Write ==> final(ctx).store is Write && *final(final(ctx).store->Write_0) == *final(old(ctx).store->Write_0),
        eval::held(final(ctx).store).is_durable() == eval::held(old(ctx).store).is_durable(),
{
    let t = text::trim(line);
    if t.as_str().unicode_len() == 0 {
        return ReplStep::Skip;
    }
    if text::same_text(t.as_str(), "exit") {
        return ReplStep::Exit;
    }
    ReplStep::Answer(eval::eval_at(ctx, t.as_str(), wall_ms))
}

/// White space around a line does not count: what is left is run, `exit` ends the
/// session, and a line without anything else is passed over.
pub proof fn law_line_is_taken_without_white_space(front: Seq<char>, s: Seq<char>, back: Seq<char>)
    requires
        forall|i: int| 0 <= i < front.len() ==> text::is_white(#[trigger] front[i]),
        forall|i: int| 0 <= i < back.len() ==> text::is_white(#[trigger] back[i]),
        s.len() > 0 ==> !text::is_white(s[0]) && !text::is_white(s.last()),
    ensures
        s.len() == 0 ==> line_of(front + s + back) == LineV::Skip,
        s == seq!['e', 'x', 'i', 't'] ==> line_of(front + s + back) == LineV::Exit,
        s.len() > 0 && s != seq!['e', 'x', 'i', 't'] ==> line_of(front + s + back) == LineV::Run(s),
{
    text::law_trim_takes_off_white_space(front, s, back);
    reveal_strlit("exit");
    assert("exit"@ =~= seq!['e', 'x', 'i', 't']);
}

} // verus!
