//! What a session at the prompt keeps and what it forgets, how it counts brackets, and what a
//! reload leaves alone.

use crate::compile;
use crate::diag;
use crate::diag::{DiagnosticModel, Severity};
use crate::reload;
use crate::reload::EventModel;
use crate::repl;
use crate::repl::Session;
use crate::source::FileId;
use crate::text;
use vstd::prelude::*;
use vstd::utf8::encode_utf8;

verus! {

/// Whether an input is for the session itself.
pub open spec fn is_command(input: Seq<char>) -> bool {
    text::trim(input).len() > 0 && text::trim(input)[0] == '.'
}

/// What was declared stays declared, whatever is put in; only a program that runs nothing
/// adds to it, in front of the rest. So values and errors leave the declarations alone.
pub proof fn law_declarations_stay(was: Session, input: Seq<char>)
    ensures
        ({
            let (now, reply) = repl::answer(was, input);
            let t = text::trim(input);
            &&& is_command(input) || t.len() == 0 ==> now.declared == was.declared
            &&& reply is Value || reply is Error || reply is Builtin || reply is Exit ==> now.declared == was.declared
            &&& now.declared != was.declared ==> {
                &&& reply is Nil
                &&& now.declared.len() == t.len() + 1 + was.declared.len()
                &&& now.declared.take(t.len() as int) == t
                &&& now.declared.skip(t.len() + 1 as int) == was.declared
            }
        }),
{
    let t = text::trim(input);
    reveal_strlit("\n");
    if t.len() > 0 && t[0] != '.' {
        let (reply, declared) = repl::input_reply(t, was.declared);
        if declared != was.declared {
            assert(declared == t + "\n"@ + was.declared);
            assert(declared.take(t.len() as int) =~= t);
            assert(declared.skip(t.len() + 1 as int) =~= was.declared);
        }
    }
}

/// Every input but a command is remembered, behind those before it; commands are not, and
/// only `.clear` forgets.
pub proof fn law_inputs_are_remembered(was: Session, input: Seq<char>)
    ensures
        ({
            let now = repl::answer(was, input).0;
            let t = text::trim(input);
            &&& t.len() > 0 && !is_command(input) ==> now.history == was.history.push(input)
            &&& t.len() == 0 ==> now == was
            &&& is_command(input) && repl::command_name(t.skip(1)) != "clear"@ ==> now == was
            &&& is_command(input) && repl::command_name(t.skip(1)) == "clear"@ ==> now.history.len() == 0
        }),
{
    reveal_strlit("clear");
    reveal_strlit("help");
    reveal_strlit("exit");
    reveal_strlit("quit");
    reveal_strlit("history");
    let c = "clear"@;
    assert(c != "help"@ && c != "exit"@ && c != "quit"@ && c != "history"@) by {
        assert(c.len() == 5);
        assert("help"@.len() == 4 && "exit"@.len() == 4 && "quit"@.len() == 4 && "history"@.len() == 7);
    }
}

proof fn lemma_space(c: Seq<char>, i: int)
    requires
        0 <= i <= c.len(),
    ensures
        i <= repl::space(c, i) <= c.len(),
        forall|k: int| i <= k < repl::space(c, i) ==> #[trigger] c[k] != ' ',
        repl::space(c, i) < c.len() ==> c[repl::space(c, i)] == ' ',
    decreases c.len() - i,
{
    if i < c.len() && c[i] != ' ' {
        lemma_space(c, i + 1);
    }
}

/// A command is its name, up to the first space, and then its argument.
pub proof fn law_commands_are_split(c: Seq<char>)
    ensures
        !repl::command_name(c).contains(' '),
        c == repl::command_name(c) || c == repl::command_name(c).push(' ') + repl::argument(c),
        !c.contains(' ') ==> repl::argument(c).len() == 0,
{
    lemma_space(c, 0);
    let k = repl::space(c, 0);
    let n = repl::command_name(c);
    assert forall|i: int| 0 <= i < n.len() implies n[i] != ' ' by {
        assert(c[i] != ' ');
    }
    if k < c.len() {
        assert(c =~= n.push(' ') + repl::argument(c));
    } else {
        assert(c =~= n);
    }
}

// --- trimming -----------------------------------------------------------------------------------

proof fn lemma_lead(s: Seq<char>, i: int)
    requires
        0 <= i <= s.len(),
    ensures
        i <= text::lead(s, i) <= s.len(),
        forall|k: int| i <= k < text::lead(s, i) ==> text::white(#[trigger] s[k]),
        text::lead(s, i) < s.len() ==> !text::white(s[text::lead(s, i)]),
    decreases s.len() - i,
{
    if i < s.len() && text::white(s[i]) {
        lemma_lead(s, i + 1);
    }
}

proof fn lemma_tail(s: Seq<char>, k: int)
    requires
        0 <= k <= s.len(),
    ensures
        0 <= text::tail(s, k) <= k,
        forall|i: int| text::tail(s, k) <= i < k ==> text::white(#[trigger] s[i]),
        text::tail(s, k) > 0 ==> !text::white(s[text::tail(s, k) - 1]),
    decreases k,
{
    if k > 0 && text::white(s[k - 1]) {
        lemma_tail(s, k - 1);
    }
}

/// Trimming takes white space away from both ends, all of it and nothing else.
pub proof fn law_trimming_takes_white_ends(s: Seq<char>)
    ensures
        ({
            let t = text::trim(s);
            let a = text::lead(s, 0);
            &&& t.len() > 0 ==> !text::white(t[0]) && !text::white(t.last())
            &&& t.len() > 0 ==> t == s.subrange(a, a + t.len())
            &&& t.len() > 0 ==> forall|i: int|
                (0 <= i < a || a + t.len() <= i < s.len()) ==> text::white(#[trigger] s[i])
            &&& t.len() == 0 ==> forall|i: int| 0 <= i < s.len() ==> text::white(#[trigger] s[i])
        }),
{
    lemma_lead(s, 0);
    lemma_tail(s, s.len() as int);
    let a = text::lead(s, 0);
    let b = text::tail(s, s.len() as int);
    if a < b {
        assert(text::trim(s)[0] == s[a]);
        assert(text::trim(s).last() == s[b - 1]);
    }
}

// --- brackets -----------------------------------------------------------------------------------

/// How many of the first `k` characters open.
pub open spec fn opened(s: Seq<char>, k: int) -> int
    decreases k,
{
    if k <= 0 {
        0
    } else {
        opened(s, k - 1) + if s[k - 1] == '(' || s[k - 1] == '[' || s[k - 1] == '{' {
            1int
        } else {
            0int
        }
    }
}

/// How many of the first `k` characters close.
pub open spec fn closed(s: Seq<char>, k: int) -> int
    decreases k,
{
    if k <= 0 {
        0
    } else {
        closed(s, k - 1) + if s[k - 1] == ')' || s[k - 1] == ']' || s[k - 1] == '}' {
            1int
        } else {
            0int
        }
    }
}

proof fn lemma_counted(s: Seq<char>, i: int)
    requires
        0 <= i <= s.len(),
        !s.contains('"'),
    ensures
        repl::depth_from(s, i, false, false) == opened(s, s.len() as int) - closed(s, s.len() as int) - opened(s, i) + closed(s, i),
    decreases s.len() - i,
{
    if i < s.len() {
        assert(s.contains(s[i]));
        lemma_counted(s, i + 1);
    }
}

/// Where no text is quoted, the depth is the number of openers less that of closers.
pub proof fn law_brackets_are_counted(s: Seq<char>)
    requires
        !s.contains('"'),
    ensures
        repl::depth_from(s, 0, false, false) == opened(s, s.len() as int) - closed(s, s.len() as int),
{
    lemma_counted(s, 0);
}

proof fn lemma_quoted(s: Seq<char>, i: int, j: int)
    requires
        0 <= i <= j < s.len(),
        s[j] == '"',
        forall|k: int| i <= k < j ==> #[trigger] s[k] != '"' && s[k] != '\\',
    ensures
        repl::depth_from(s, i, true, false) == repl::depth_from(s, j + 1, false, false),
    decreases j - i,
{
    if i < j {
        lemma_quoted(s, i + 1, j);
    }
}

/// What stands in quotes is not counted.
pub proof fn law_quoted_brackets_do_not_count(s: Seq<char>, i: int, j: int)
    requires
        0 <= i < j < s.len(),
        s[i] == '"',
        s[j] == '"',
        forall|k: int| i < k < j ==> #[trigger] s[k] != '"' && s[k] != '\\',
    ensures
        repl::depth_from(s, i, false, false) == repl::depth_from(s, j + 1, false, false),
{
    lemma_quoted(s, i + 1, j);
}

/// A quote behind a backslash does not end the text.
pub proof fn law_escaped_quotes_do_not_end(s: Seq<char>, i: int)
    requires
        0 <= i < s.len() - 1,
        s[i] == '\\',
    ensures
        repl::depth_from(s, i, true, false) == repl::depth_from(s, i + 2, true, false),
{
    assert(repl::depth_from(s, i, true, false) == repl::depth_from(s, i + 1, true, true));
}

// --- reloads ------------------------------------------------------------------------------------

proof fn lemma_first_error(ds: Seq<DiagnosticModel>, i: int)
    requires
        0 <= i <= ds.len(),
    ensures
        (exists|k: int| i <= k < ds.len() && (#[trigger] ds[k]).severity == Severity::Error) ==> exists|k: int|
            is_first_error(ds, i, k) && reload::first_error(ds, i) == (#[trigger] ds[k]).message,
    decreases ds.len() - i,
{
    if i < ds.len() {
        lemma_first_error(ds, i + 1);
        if ds[i].severity == Severity::Error {
            assert(is_first_error(ds, i, i));
        } else if exists|k: int| i <= k < ds.len() && (#[trigger] ds[k]).severity == Severity::Error {
            let k = choose|k: int| i <= k < ds.len() && (#[trigger] ds[k]).severity == Severity::Error;
            assert(i + 1 <= k < ds.len() && ds[k].severity == Severity::Error);
            let j = choose|j: int| is_first_error(ds, i + 1, j) && reload::first_error(ds, i + 1) == (#[trigger] ds[j]).message;
            assert(is_first_error(ds, i, j));
        }
    }
}

/// Whether a place is that of the first error from `i` on.
pub open spec fn is_first_error(ds: Seq<DiagnosticModel>, i: int, k: int) -> bool {
    &&& i <= k < ds.len()
    &&& ds[k].severity == Severity::Error
    &&& forall|j: int| i <= j < k ==> (#[trigger] ds[j]).severity != Severity::Error
}

/// A reload replaces the module exactly where the source could be read and builds without
/// errors, by what it builds to; where it does not, the first error is told.
pub proof fn law_reloads_replace_or_tell(path: Seq<char>, contents: Result<Seq<char>, Seq<char>>)
    ensures
        ({
            let (event, module) = reload::reloaded(path, contents);
            match contents {
                Err(_) => event is ModuleFailed && module is None,
                Ok(t) => {
                    let a = compile::built(FileId(0), encode_utf8(t));
                    if diag::holds_error(a.diagnostics) {
                        &&& module is None
                        &&& exists|k: int|
                            is_first_error(a.diagnostics, 0, k) && event == EventModel::ModuleFailed(
                                path,
                                (#[trigger] a.diagnostics[k]).message,
                            )
                    } else {
                        event == EventModel::ModuleReloaded(path) && module == Some(a.bytecode)
                    }
                },
            }
        }),
{
    if let Ok(t) = contents {
        let a = compile::built(FileId(0), encode_utf8(t));
        lemma_first_error(a.diagnostics, 0);
        if diag::holds_error(a.diagnostics) {
            let i = choose|i: int| 0 <= i < a.diagnostics.len() && (#[trigger] a.diagnostics[i]).severity == Severity::Error;
            assert(0 <= i < a.diagnostics.len() && a.diagnostics[i].severity == Severity::Error);
        }
    }
}

} // verus!
