use vstd::prelude::*;
use vstd::string::StringSliceAdditionalSpecFns;
use vstd::utf8::encode_utf8;

use crate::text::{lines_bytes, spec_text_lines, text_lines};

verus! {

/// A script of shell commands, one per line.
#[derive(Clone, Debug, PartialEq)]
pub struct BashScript {
    pub code: String,
}

/// The code of a script after its parameters were substituted.
pub enum SubstitutedCode<'a> {
    /// The code referred to no value: nothing is run.
    Absent,
    /// The code became this text.
    Single(&'a str),
    /// The code became a list of texts, which a script cannot run.
    Multiple,
}

/// A command of a script: the line as written in the script, and the line to
/// run.
pub struct ScriptCommand<'a> {
    pub script_line: &'a str,
    pub command: &'a str,
}

/// What a line of the substituted code is logged as when the script has
/// fewer lines than the substituted code.
pub open spec fn expanded_line() -> Seq<u8> {
    "<expanded parameter line>".spec_bytes()
}

/// The line of the script that stands beside line `i` of the substituted code.
pub open spec fn script_line_at(script_lines: Seq<Seq<u8>>, i: int) -> Seq<u8> {
    if i < script_lines.len() {
        script_lines[i]
    } else {
        expanded_line()
    }
}

/// The commands that the substituted lines `replaced` give, as
/// `(line of the script, line to run)`: one per non-empty substituted line,
/// in order, each beside the script line of the same index.
pub open spec fn spec_command_plan(script_lines: Seq<Seq<u8>>, replaced: Seq<Seq<u8>>) -> Seq<(Seq<u8>, Seq<u8>)>
    decreases replaced.len(),
{
    if replaced.len() == 0 {
        seq![]
    } else {
        let i = replaced.len() - 1;
        spec_command_plan(script_lines, replaced.drop_last()) + (if replaced[i].len() == 0 {
            seq![]
        } else {
            seq![(script_line_at(script_lines, i), replaced[i])]
        })
    }
}

/// A script runs at most one command per substituted line, and never an
/// empty one.
pub proof fn lemma_command_plan_runs_nonempty_lines(script_lines: Seq<Seq<u8>>, replaced: Seq<Seq<u8>>)
    ensures
        spec_command_plan(script_lines, replaced).len() <= replaced.len(),
        forall|i: int|
            0 <= i < spec_command_plan(script_lines, replaced).len() ==> #[trigger] spec_command_plan(
                script_lines,
                replaced,
            )[i].1.len() > 0,
    decreases replaced.len(),
{
    if replaced.len() > 0 {
        lemma_command_plan_runs_nonempty_lines(script_lines, replaced.drop_last());
        let before = spec_command_plan(script_lines, replaced.drop_last());
        let plan = spec_command_plan(script_lines, replaced);
        assert forall|i: int| 0 <= i < plan.len() implies #[trigger] plan[i].1.len() > 0 by {
            if i < before.len() {
                assert(plan[i] == before[i]);
            }
        }
    }
}

/// The positions, below `count`, of the non-empty lines of `lines`, in order.
pub open spec fn nonempty_positions(lines: Seq<Seq<u8>>, count: int) -> Seq<int> {
    Seq::new(count as nat, |i: int| i).filter(|i: int| lines[i].len() > 0)
}

/// A script runs exactly one command per non-empty substituted line, in
/// order, and none for an empty one: the `k`-th command is the `k`-th
/// non-empty substituted line, beside the script line of the same position
/// (or the expanded-line marker past the script's end). Repeated lines run
/// once each time they occur.
pub proof fn lemma_command_plan_runs_each_nonempty_line(script_lines: Seq<Seq<u8>>, replaced: Seq<Seq<u8>>)
    ensures
        spec_command_plan(script_lines, replaced) == nonempty_positions(replaced, replaced.len() as int).map_values(
            |i: int|
                (
                    if i < script_lines.len() {
                        script_lines[i]
                    } else {
                        "<expanded parameter line>".spec_bytes()
                    },
                    replaced[i],
                ),
        ),
{
    lemma_command_plan_prefix(script_lines, replaced, replaced.len() as int);
    assert(replaced.take(replaced.len() as int) =~= replaced);
}

proof fn lemma_command_plan_prefix(script_lines: Seq<Seq<u8>>, replaced: Seq<Seq<u8>>, m: int)
    requires
        0 <= m <= replaced.len(),
    ensures
        spec_command_plan(script_lines, replaced.take(m)) == nonempty_positions(replaced, m).map_values(
            |i: int|
                (
                    if i < script_lines.len() {
                        script_lines[i]
                    } else {
                        "<expanded parameter line>".spec_bytes()
                    },
                    replaced[i],
                ),
        ),
    decreases m,
{
    let f = |i: int|
        (
            if i < script_lines.len() {
                script_lines[i]
            } else {
                "<expanded parameter line>".spec_bytes()
            },
            replaced[i],
        );
    let pred = |i: int| replaced[i].len() > 0;
    let all = Seq::new(m as nat, |i: int| i);
    reveal_with_fuel(Seq::filter, 1);
    if m == 0 {
        assert(all.filter(pred) =~= Seq::<int>::empty());
        assert(replaced.take(0) =~= Seq::<Seq<u8>>::empty());
        assert(nonempty_positions(replaced, m).map_values(f) =~= Seq::<(Seq<u8>, Seq<u8>)>::empty());
    } else {
        lemma_command_plan_prefix(script_lines, replaced, m - 1);
        let prefix = replaced.take(m);
        assert(prefix.drop_last() =~= replaced.take(m - 1));
        assert(prefix[m - 1] == replaced[m - 1]);
        assert(all.drop_last() =~= Seq::new((m - 1) as nat, |i: int| i));
        assert(all.last() == m - 1);
        let before = nonempty_positions(replaced, m - 1);
        assert(all.filter(pred) == if pred(m - 1) { before.push(m - 1) } else { before });
        if replaced[m - 1].len() > 0 {
            assert(before.push(m - 1).map_values(f) =~= before.map_values(f).push(f(m - 1)));
            assert(spec_command_plan(script_lines, prefix) =~= spec_command_plan(script_lines, replaced.take(m - 1))
                + seq![(script_line_at(script_lines, m - 1), replaced[m - 1])]);
        } else {
            assert(spec_command_plan(script_lines, prefix) =~= spec_command_plan(script_lines, replaced.take(m - 1)));
        }
    }
}

/// The commands as byte sequences.
pub open spec fn commands_bytes<'a>(commands: Seq<ScriptCommand<'a>>) -> Seq<(Seq<u8>, Seq<u8>)> {
    commands.map_values(|c: ScriptCommand<'a>| (c.script_line.spec_bytes(), c.command.spec_bytes()))
}

/// The error for substituted code that is a list.
pub open spec fn array_code_error() -> Seq<char> {
    "Code parameter cannot be an array"@
}

impl<'a> ScriptCommand<'a> {
    /// The message logged before the command runs: `command: ` and the line
    /// as written in the script.
    pub fn log_message(&self) -> (message: String)
        ensures
            message@ == "command: "@ + self.script_line@,
    {
        let mut message = String::from_str("command: ");
        message.append(self.script_line);
        message
    }
}

/// What running a script does next.
pub enum ScriptAction<'a> {
    /// Log `message`, then run `command` if `execute` holds.
    Announce { message: String, command: &'a str, execute: bool },
    /// The run is over, with this outcome.
    Finish(Result<(), String>),
}

/// The next step of running the commands `commands`: after the commands
/// before `next` were announced and, outside a dry run, run, the last one
/// with outcome `previous`.
///
/// An error ends the run with that error; otherwise the next command is
/// logged and, outside a dry run, run; after the last command the run ends
/// with `Ok`. A dry run runs nothing.
pub fn script_step<'a>(
    commands: &Vec<ScriptCommand<'a>>,
    next: usize,
    dry_run: bool,
    previous: Result<(), String>,
) -> (action: ScriptAction<'a>)
    ensures
        match previous {
            Err(e) => action matches ScriptAction::Finish(Err(e2)) && e2 == e,
            Ok(()) => if next < commands@.len() {
                action matches ScriptAction::Announce { message, command, execute } && message@ == "command: "@
                    + commands@[next as int].script_line@ && command == commands@[next as int].command && execute
                    == !dry_run
            } else {
                action matches ScriptAction::Finish(Ok(()))
            },
        },
{
    match previous {
        Err(e) => ScriptAction::Finish(Err(e)),
        Ok(()) => if next < commands.len() {
            let command = &commands[next];
            ScriptAction::Announce { message: command.log_message(), command: command.command, execute: !dry_run }
        } else {
            ScriptAction::Finish(Ok(()))
        },
    }
}

impl BashScript {
    /// The commands that running the script with its code substituted into
    /// `replaced` runs, in order.
    pub fn command_lines<'a>(&'a self, replaced: &'a str) -> (commands: Vec<ScriptCommand<'a>>)
        ensures
            commands_bytes(commands@) == spec_command_plan(
                spec_text_lines(encode_utf8(self.code@)),
                spec_text_lines(replaced.spec_bytes()),
            ),
            commands_bytes(commands@) == nonempty_positions(
                spec_text_lines(replaced.spec_bytes()),
                spec_text_lines(replaced.spec_bytes()).len() as int,
            ).map_values(
                |i: int|
                    (
                        if i < spec_text_lines(encode_utf8(self.code@)).len() {
                            spec_text_lines(encode_utf8(self.code@))[i]
                        } else {
                            "<expanded parameter line>".spec_bytes()
                        },
                        spec_text_lines(replaced.spec_bytes())[i],
                    ),
            ),
    {
        proof {
            lemma_command_plan_runs_each_nonempty_line(
                spec_text_lines(encode_utf8(self.code@)),
                spec_text_lines(replaced.spec_bytes()),
            );
        }
        let script_lines = text_lines(self.code.as_str());
        let lines = text_lines(replaced);
        let ghost written = spec_text_lines(encode_utf8(self.code@));
        let ghost repl = spec_text_lines(replaced.spec_bytes());
        let mut commands: Vec<ScriptCommand<'a>> = Vec::new();
        let n = lines.len();
        let m = script_lines.len();
        let mut i: usize = 0;
        while i < n
            invariant
                n == lines@.len(),
                m == script_lines@.len(),
                lines_bytes(lines@) == repl,
                lines_bytes(script_lines@) == written,
                i <= n,
                commands_bytes(commands@) == spec_command_plan(written, repl.take(i as int)),
            decreases n - i,
        {
            let script_line: &'a str = if i < m {
                script_lines[i]
            } else {
                "<expanded parameter line>"
            };
            assert(repl.take(i + 1).drop_last() =~= repl.take(i as int));
            assert(repl.take(i + 1)[i as int] == lines@[i as int].spec_bytes());
            assert(script_line.spec_bytes() == script_line_at(written, i as int));
            let ghost before = commands@;
            let line: &'a str = lines[i];
            let nonempty = line.as_bytes().len() > 0;
            if nonempty {
                commands.push(ScriptCommand { script_line, command: lines[i] });
                assert(commands_bytes(commands@) =~= commands_bytes(before).push(
                    (script_line.spec_bytes(), lines@[i as int].spec_bytes()),
                ));
            }
            assert(commands_bytes(commands@) =~= spec_command_plan(written, repl.take(i + 1)));
            i = i + 1;
        }
        assert(repl.take(n as int) =~= repl);
        commands
    }

    /// The commands that running the script runs, given what substituting its
    /// parameters into its code gave: none when the code referred to no
    /// value, an error when it became a list.
    pub fn plan<'a>(&'a self, substituted: SubstitutedCode<'a>) -> (plan: Result<Vec<ScriptCommand<'a>>, String>)
        ensures
            match substituted {
                SubstitutedCode::Absent => plan matches Ok(c) && c@.len() == 0,
                SubstitutedCode::Multiple => plan matches Err(e) && e@ == array_code_error(),
                SubstitutedCode::Single(replaced) => plan matches Ok(c) && commands_bytes(c@)
                    == spec_command_plan(
                    spec_text_lines(encode_utf8(self.code@)),
                    spec_text_lines(replaced.spec_bytes()),
                ),
            },
    {
        match substituted {
            SubstitutedCode::Absent => Ok(Vec::new()),
            SubstitutedCode::Multiple => Err(String::from_str("Code parameter cannot be an array")),
            SubstitutedCode::Single(replaced) => Ok(self.command_lines(replaced)),
        }
    }
}

} // verus!
