//! The execution engine: turns a stored script plus trailing user-supplied
//! arguments into the single command text handed to one child shell, and maps
//! the spawn outcome back to the engine's result.
//!
//! The command body is split into its non-empty lines and the lines are
//! re-joined with a newline into one text for one shell invocation, so state
//! set by an earlier line is visible to later lines. The trailing arguments
//! are appended to the end of that text, each preceded by a space; nothing is
//! spliced into placeholders. The spawn itself (a child process with
//! inherited standard streams, waited on without any timeout) is the
//! caller's, outside this crate; `run_outcome` interprets what came back.

use vstd::prelude::*;

use crate::error::PierError;
use crate::store::{has_alias, Store};

verus! {

/// The position of the first newline in `s`, or `s.len()` if there is none.
pub open spec fn first_nl(s: Seq<char>) -> int
    decreases s.len(),
{
    if s.len() == 0 {
        0
    } else if s[0] == '\n' {
        0
    } else {
        1 + first_nl(s.subrange(1, s.len() as int))
    }
}

/// `first_nl` is pinned by its characteristic facts: no newline before `m`,
/// and a newline at `m` unless `m` is the length.
pub proof fn lemma_first_nl_is(s: Seq<char>, m: int)
    requires
        0 <= m <= s.len(),
        forall|j: int| 0 <= j < m ==> s[j] != '\n',
        m < s.len() ==> s[m] == '\n',
    ensures
        first_nl(s) == m,
    decreases s.len(),
{
    if s.len() == 0 {
    } else if s[0] == '\n' {
        assert(m == 0);
    } else {
        assert(m >= 1);
        let t = s.subrange(1, s.len() as int);
        assert(forall|j: int| 0 <= j < t.len() ==> t[j] == s[j + 1]);
        lemma_first_nl_is(t, m - 1);
    }
}

/// The non-empty lines of a command body, in order.
pub open spec fn lines_of(s: Seq<char>) -> Seq<Seq<char>>
    decreases s.len(),
{
    if s.len() == 0 {
        Seq::empty()
    } else {
        let k = first_nl(s);
        if 0 <= k < s.len() {
            let head = s.subrange(0, k);
            let rest = lines_of(s.subrange(k + 1, s.len() as int));
            if head.len() == 0 {
                rest
            } else {
                seq![head] + rest
            }
        } else {
            seq![s]
        }
    }
}

/// Lines re-joined with a newline between consecutive lines: one command
/// text for one shell context.
pub open spec fn join_lines(ls: Seq<Seq<char>>) -> Seq<char>
    decreases ls.len(),
{
    if ls.len() == 0 {
        Seq::empty()
    } else if ls.len() == 1 {
        ls[0]
    } else {
        join_lines(ls.drop_last()) + seq!['\n'] + ls.last()
    }
}

/// The trailing user arguments, each appended after a single space.
pub open spec fn args_suffix(args: Seq<Seq<char>>) -> Seq<char>
    decreases args.len(),
{
    if args.len() == 0 {
        Seq::empty()
    } else {
        args_suffix(args.drop_last()) + seq![' '] + args.last()
    }
}

/// The full command text handed to the child shell for a body `cmd` and
/// trailing arguments `args`.
pub open spec fn assembled(cmd: Seq<char>, args: Seq<Seq<char>>) -> Seq<char> {
    join_lines(lines_of(cmd)) + args_suffix(args)
}

/// Splits a command body into its non-empty lines, in order.
pub fn split_lines(command: &str) -> (r: Vec<String>)
    ensures
        r.deep_view() == lines_of(command@),
{
    let n = command.unicode_len();
    let mut out: Vec<String> = Vec::new();
    let mut i: usize = 0;
    proof {
        assert(command@.subrange(0, n as int) =~= command@);
        assert(out.deep_view() + lines_of(command@) =~= lines_of(command@));
    }
    while i < n
        invariant
            i <= n,
            n == command@.len(),
            lines_of(command@) == out.deep_view() + lines_of(
                command@.subrange(i as int, n as int),
            ),
        decreases n - i,
    {
        let mut j: usize = i;
        while j < n && command.get_char(j) != '\n'
            invariant
                i <= j <= n,
                n == command@.len(),
                forall|p: int| i as int <= p < j as int ==> command@[p] != '\n',
            decreases n - j,
        {
            j = j + 1;
        }
        proof {
            let suf = command@.subrange(i as int, n as int);
            assert(forall|p: int| 0 <= p < j as int - i as int ==> suf[p] != '\n');
            if (j as int) < n as int {
                assert(suf[j as int - i as int] == command@[j as int]);
            }
            lemma_first_nl_is(suf, j as int - i as int);
        }
        let ghost prev = out.deep_view();
        if j > i {
            let line = String::from_str(command.substring_char(i, j));
            out.push(line);
            assert(out.deep_view() =~= prev.push(command@.subrange(i as int, j as int)));
        }
        proof {
            let suf = command@.subrange(i as int, n as int);
            let k = first_nl(suf);
            assert(k == j as int - i as int);
            if (j as int) < n as int {
                assert(suf.subrange(0, k) =~= command@.subrange(i as int, j as int));
                assert(suf.subrange(k + 1, suf.len() as int) =~= command@.subrange(
                    j as int + 1,
                    n as int,
                ));
                if j > i {
                    assert(lines_of(suf) =~= seq![command@.subrange(i as int, j as int)]
                        + lines_of(command@.subrange(j as int + 1, n as int)));
                } else {
                    assert(lines_of(suf) == lines_of(
                        command@.subrange(j as int + 1, n as int),
                    ));
                }
            } else {
                assert(k == suf.len());
                assert(lines_of(suf) =~= seq![suf]);
                assert(suf == command@.subrange(i as int, j as int));
                assert(lines_of(command@.subrange(j as int, n as int)) =~= Seq::<
                    Seq<char>,
                >::empty());
            }
            assert(lines_of(command@) =~= out.deep_view() + lines_of(
                command@.subrange(if (j as int) < n as int { j as int + 1 } else { j as int },
                n as int),
            ));
        }
        if j < n {
            i = j + 1;
        } else {
            i = j;
        }
    }
    proof {
        assert(command@.subrange(n as int, n as int) =~= Seq::<char>::empty());
        assert(out.deep_view() + Seq::<Seq<char>>::empty() =~= out.deep_view());
    }
    out
}

/// Materializes the one command text for a body and trailing arguments:
/// the non-empty lines joined by newlines, then each argument appended after
/// a space.
pub fn assemble(command: &str, args: &Vec<String>) -> (r: String)
    ensures
        r@ == assembled(command@, args.deep_view()),
{
    proof {
        reveal_strlit("\n");
        reveal_strlit(" ");
    }
    let lines = split_lines(command);
    let mut text = String::new();
    let mut i: usize = 0;
    while i < lines.len()
        invariant
            i <= lines@.len(),
            lines.deep_view() == lines_of(command@),
            text@ == join_lines(lines.deep_view().subrange(0, i as int)),
        decreases lines@.len() - i,
    {
        proof {
            reveal_strlit("\n");
            assert(("\n")@ =~= seq!['\n']);
            assert(lines.deep_view()[i as int] == lines@[i as int]@);
            assert(lines.deep_view().subrange(0, i as int + 1).drop_last() =~= lines
                .deep_view()
                .subrange(0, i as int));
            assert(lines.deep_view().subrange(0, i as int + 1).last() == lines.deep_view()[
                i as int
            ]);
        }
        if i > 0 {
            text.append("\n");
        }
        text.append(lines[i].as_str());
        i = i + 1;
    }
    proof {
        assert(lines.deep_view().subrange(0, lines@.len() as int) =~= lines.deep_view());
        assert(args.deep_view().subrange(0, 0) =~= Seq::<Seq<char>>::empty());
        assert(text@ + Seq::<char>::empty() =~= text@);
    }
    let mut k: usize = 0;
    while k < args.len()
        invariant
            k <= args@.len(),
            text@ == join_lines(lines_of(command@)) + args_suffix(
                args.deep_view().subrange(0, k as int),
            ),
        decreases args@.len() - k,
    {
        proof {
            reveal_strlit(" ");
            assert((" ")@ =~= seq![' ']);
            assert(args.deep_view()[k as int] == args@[k as int]@);
            assert(args.deep_view().subrange(0, k as int + 1).drop_last() =~= args
                .deep_view()
                .subrange(0, k as int));
            assert(args.deep_view().subrange(0, k as int + 1).last() == args.deep_view()[
                k as int
            ]);
        }
        text.append(" ");
        text.append(args[k].as_str());
        k = k + 1;
    }
    proof {
        assert(args.deep_view().subrange(0, args@.len() as int) =~= args.deep_view());
    }
    text
}

/// Resolves `alias` in the store and materializes the command text to hand to
/// the child shell. On a missing alias the result is `AliasNotFound` and no
/// text is produced — nothing is ever spawned for it.
pub fn prepare_run(store: &Store, alias: &str, args: &Vec<String>) -> (r: Result<
    String,
    PierError,
>)
    ensures
        !has_alias(store@, alias@) ==> r == Err::<String, PierError>(PierError::AliasNotFound),
        has_alias(store@, alias@) ==> (r matches Ok(text) && exists|i: int|
            0 <= i < store@.len() && store@[i].alias == alias@ && text@ == assembled(
                store@[i].command,
                args.deep_view(),
            )),
{
    match store.get(alias) {
        Ok(script) => Ok(assemble(script.command.as_str(), args)),
        Err(_) => Err(PierError::AliasNotFound),
    }
}

/// What the operating environment reported for one attempted spawn of the
/// child shell: the process could not be started at all, or it terminated
/// with an exit code (`None` when it was ended by a signal).
#[derive(Debug, Clone, Copy, PartialEq, Eq)]
pub enum SpawnOutcome {
    NotStarted,
    Finished(Option<i32>),
}

/// The caller-visible exit code for a terminated child: its own code,
/// unchanged, or zero when the child was ended by a signal.
pub open spec fn propagated_code(c: Option<i32>) -> i32 {
    match c {
        Some(k) => k,
        None => 0,
    }
}

/// Maps the spawn outcome to the engine's result: a spawn that never started
/// is `ExecutionFailed`; a terminated child's status is propagated unchanged,
/// never treated as an engine error.
pub fn run_outcome(o: SpawnOutcome) -> (r: Result<i32, PierError>)
    ensures
        match o {
            SpawnOutcome::NotStarted => r == Err::<i32, PierError>(PierError::ExecutionFailed),
            SpawnOutcome::Finished(c) => r == Ok::<i32, PierError>(propagated_code(c)),
        },
{
    match o {
        SpawnOutcome::NotStarted => Err(PierError::ExecutionFailed),
        SpawnOutcome::Finished(c) => match c {
            Some(k) => Ok(k),
            None => Ok(0),
        },
    }
}

} // verus!
