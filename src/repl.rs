//! The interactive loop as a state machine. The caller performs each
//! `Action` (reading a line, running it, writing the history) and hands
//! back what came of it; the decisions are made here.
use vstd::prelude::*;

use crate::error::DriverError;
use crate::history::{lemma_history_kept, non_empty, parse, serialize, texts};

verus! {

/// Where the loop stands.
#[derive(PartialEq, Eq, Structural, Clone, Copy, Debug)]
pub enum Phase {
    /// Waiting for the line editor.
    Reading,
    /// Waiting for the interpreter to run the last line.
    Dispatching,
    /// The loop is over.
    Terminated,
}

/// What the line editor returned.
pub enum ReadOutcome {
    Line(String),
    Interrupted,
    EndOfInput,
    Failed(String),
}

/// What the caller does next.
pub enum Action {
    /// Reset the cancellation flag, render the prompt and read a line.
    Read,
    /// Run this line through the interpreter, with no file name.
    Execute(String),
    /// Write these entries to the history file, replacing it, and stop.
    Persist(Vec<String>),
}

/// A notice to print first, if any, and the action after it.
pub struct Step {
    pub notice: Option<String>,
    pub action: Action,
}

/// `c` is white space in Unicode's sense, as `str::trim` takes it.
pub open spec fn is_space(c: char) -> bool {
    let u = c as u32;
    (9 <= u <= 13) || u == 32 || u == 0x85 || u == 0xa0 || u == 0x1680 || (0x2000 <= u <= 0x200a)
        || u == 0x2028 || u == 0x2029 || u == 0x202f || u == 0x205f || u == 0x3000
}

pub open spec fn trim_start(s: Seq<char>) -> Seq<char>
    decreases s.len(),
{
    if s.len() > 0 && is_space(s[0]) {
        trim_start(s.subrange(1, s.len() as int))
    } else {
        s
    }
}

pub open spec fn trim_end(s: Seq<char>) -> Seq<char>
    decreases s.len(),
{
    if s.len() > 0 && is_space(s.last()) {
        trim_end(s.drop_last())
    } else {
        s
    }
}

/// `s` without the white space at either end.
pub open spec fn trim(s: Seq<char>) -> Seq<char> {
    trim_end(trim_start(s))
}

/// `t` is the word `exit`, letters in either case.
pub open spec fn is_exit_word(t: Seq<char>) -> bool {
    &&& t.len() == 4
    &&& (t[0] == 'e' || t[0] == 'E')
    &&& (t[1] == 'x' || t[1] == 'X')
    &&& (t[2] == 'i' || t[2] == 'I')
    &&& (t[3] == 't' || t[3] == 'T')
}

/// The line asks to leave the shell.
pub open spec fn is_exit_line(line: Seq<char>) -> bool {
    is_exit_word(trim(line))
}

fn is_space_exec(c: char) -> (r: bool)
    ensures
        r == is_space(c),
{
    let u = c as u32;
    (9 <= u && u <= 13) || u == 32 || u == 0x85 || u == 0xa0 || u == 0x1680 || (0x2000 <= u && u
        <= 0x200a) || u == 0x2028 || u == 0x2029 || u == 0x202f || u == 0x205f || u == 0x3000
}

/// Whether the line, trimmed, is `exit` in any case.
pub fn is_exit_command(line: &str) -> (r: bool)
    ensures
        r == is_exit_line(line@),
{
    let n = line.unicode_len();
    let ghost s = line@;
    let mut a: usize = 0;
    assert(s.subrange(0, n as int) =~= s);
    while a < n && is_space_exec(line.get_char(a))
        invariant
            s == line@,
            n == s.len(),
            a <= n,
            trim_start(s.subrange(a as int, n as int)) == trim_start(s),
        decreases n - a,
    {
        assert(s.subrange(a as int, n as int).subrange(1, (n - a) as int) =~= s.subrange(
            a + 1,
            n as int,
        ));
        a = a + 1;
    }
    assert(trim_start(s) == s.subrange(a as int, n as int));
    let mut b: usize = n;
    while b > a && is_space_exec(line.get_char(b - 1))
        invariant
            s == line@,
            n == s.len(),
            a <= b <= n,
            trim_end(s.subrange(a as int, b as int)) == trim(s),
        decreases b - a,
    {
        assert(s.subrange(a as int, b as int).drop_last() =~= s.subrange(a as int, b - 1));
        b = b - 1;
    }
    let ghost t = s.subrange(a as int, b as int);
    assert(trim(s) == t);
    if b - a != 4 {
        return false;
    }
    let c0 = line.get_char(a);
    let c1 = line.get_char(a + 1);
    let c2 = line.get_char(a + 2);
    let c3 = line.get_char(a + 3);
    assert(t[0] == c0 && t[1] == c1 && t[2] == c2 && t[3] == c3);
    (c0 == 'e' || c0 == 'E') && (c1 == 'x' || c1 == 'X') && (c2 == 'i' || c2 == 'I') && (c3 == 't'
        || c3 == 'T')
}

/// The first word of `line` is `cd`: a directory change, after which the
/// cached git branch is kept.
pub open spec fn is_cd_line(line: Seq<char>) -> bool {
    let t = trim_start(line);
    t.len() >= 2 && t[0] == 'c' && t[1] == 'd' && (t.len() == 2 || is_space(t[2]))
}

/// Whether the first word of the line is `cd`.
pub fn is_cd_command(line: &str) -> (r: bool)
    ensures
        r == is_cd_line(line@),
{
    let n = line.unicode_len();
    let ghost s = line@;
    let mut a: usize = 0;
    assert(s.subrange(0, n as int) =~= s);
    while a < n && is_space_exec(line.get_char(a))
        invariant
            s == line@,
            n == s.len(),
            a <= n,
            trim_start(s.subrange(a as int, n as int)) == trim_start(s),
        decreases n - a,
    {
        assert(s.subrange(a as int, n as int).subrange(1, (n - a) as int) =~= s.subrange(
            a + 1,
            n as int,
        ));
        a = a + 1;
    }
    let ghost t = s.subrange(a as int, n as int);
    assert(trim_start(s) == t);
    if n - a < 2 {
        return false;
    }
    let c0 = line.get_char(a);
    let c1 = line.get_char(a + 1);
    assert(t[0] == c0 && t[1] == c1);
    if c0 != 'c' || c1 != 'd' {
        return false;
    }
    if n - a == 2 {
        return true;
    }
    let c2 = line.get_char(a + 2);
    assert(t[2] == c2);
    is_space_exec(c2)
}

/// The loop as the laws below see it: phase, history texts, pending line
/// and last exit code.
pub struct LoopModel {
    pub phase: Phase,
    pub history: Seq<Seq<char>>,
    pub pending: Seq<char>,
    pub last_exit_code: i32,
}

/// One thing that happens to the loop: a line-editor outcome, or the
/// interpreter's exit code for the pending line.
pub enum Input {
    Line(Seq<char>),
    Interrupted,
    EndOfInput,
    Failed(Seq<char>),
    Ran(i32),
}

/// The action that a step asks for; `Halt` where the input does not fit
/// the phase.
pub enum Todo {
    Read,
    Execute(Seq<char>),
    Persist(Seq<Seq<char>>),
    Halt,
}

/// One step of the loop.
pub open spec fn next(m: LoopModel, i: Input) -> (LoopModel, Todo) {
    match i {
        Input::Line(l) => if m.phase == Phase::Reading {
            (
                LoopModel { phase: Phase::Dispatching, history: m.history.push(l), pending: l, ..m },
                Todo::Execute(l),
            )
        } else {
            (m, Todo::Halt)
        },
        Input::Interrupted => if m.phase == Phase::Reading {
            (m, Todo::Read)
        } else {
            (m, Todo::Halt)
        },
        Input::EndOfInput | Input::Failed(_) => if m.phase == Phase::Reading {
            (LoopModel { phase: Phase::Terminated, ..m }, Todo::Persist(m.history))
        } else {
            (m, Todo::Halt)
        },
        Input::Ran(code) => if m.phase == Phase::Dispatching {
            if is_exit_line(m.pending) {
                (
                    LoopModel { phase: Phase::Terminated, last_exit_code: code, ..m },
                    Todo::Persist(m.history),
                )
            } else {
                (LoopModel { phase: Phase::Reading, last_exit_code: code, ..m }, Todo::Read)
            }
        } else {
            (m, Todo::Halt)
        },
    }
}

/// What a run of inputs comes to: the final state, how many reads and
/// how many executions were asked for, and the entries handed over to be
/// written, if any were.
pub open spec fn run(m: LoopModel, inputs: Seq<Input>) -> (LoopModel, nat, nat, Option<
    Seq<Seq<char>>,
>)
    decreases inputs.len(),
{
    if inputs.len() == 0 {
        (m, 0, 0, None)
    } else {
        let (m1, t) = next(m, inputs[0]);
        let (mf, reads, runs, saved) = run(m1, inputs.subrange(1, inputs.len() as int));
        (
            mf,
            reads + if t is Read {
                1nat
            } else {
                0nat
            },
            runs + if t is Execute {
                1nat
            } else {
                0nat
            },
            match t {
                Todo::Persist(h) => Some(h),
                _ => saved,
            },
        )
    }
}

/// `k` interrupts in a row.
pub open spec fn interrupts(k: nat) -> Seq<Input>
    decreases k,
{
    if k == 0 {
        Seq::empty()
    } else {
        seq![Input::Interrupted] + interrupts((k - 1) as nat)
    }
}

/// Each line submitted, then its exit code.
pub open spec fn submissions(lines: Seq<Seq<char>>, codes: Seq<i32>) -> Seq<Input>
    decreases lines.len(),
{
    if lines.len() == 0 || codes.len() == 0 {
        Seq::empty()
    } else {
        seq![Input::Line(lines[0]), Input::Ran(codes[0])] + submissions(
            lines.subrange(1, lines.len() as int),
            codes.subrange(1, codes.len() as int),
        )
    }
}

proof fn lemma_run_interrupts(m: LoopModel, k: nat, tail: Seq<Input>)
    requires
        m.phase == Phase::Reading,
    ensures
        run(m, interrupts(k) + tail).0 == run(m, tail).0,
        run(m, interrupts(k) + tail).1 == run(m, tail).1 + k,
        run(m, interrupts(k) + tail).2 == run(m, tail).2,
        run(m, interrupts(k) + tail).3 == run(m, tail).3,
    decreases k,
{
    if k == 0 {
        assert(interrupts(k) + tail =~= tail);
    } else {
        let rest = interrupts((k - 1) as nat) + tail;
        let all = interrupts(k) + tail;
        assert(all[0] == Input::Interrupted);
        assert(all.subrange(1, all.len() as int) =~= rest);
        lemma_run_interrupts(m, (k - 1) as nat, tail);
    }
}

/// Interrupts never end the loop: after any number of them, each answered
/// by a fresh read, end of input ends it, with no line run and the history
/// handed over unchanged.
pub proof fn lemma_interrupts_then_end(m: LoopModel, k: nat)
    requires
        m.phase == Phase::Reading,
    ensures
        ({
            let (mf, reads, runs, saved) = run(m, interrupts(k) + seq![Input::EndOfInput]);
            &&& mf.phase == Phase::Terminated
            &&& mf.history == m.history
            &&& reads == k
            &&& runs == 0
            &&& saved == Some(m.history)
        }),
{
    let tail = seq![Input::EndOfInput];
    lemma_run_interrupts(m, k, tail);
    assert(tail.subrange(1, 1) =~= Seq::<Input>::empty());
    let m1 = next(m, Input::EndOfInput).0;
    assert(run(m1, Seq::empty()) == (m1, 0nat, 0nat, None::<Seq<Seq<char>>>));
}

proof fn lemma_run_submissions(
    m: LoopModel,
    lines: Seq<Seq<char>>,
    codes: Seq<i32>,
    tail: Seq<Input>,
)
    requires
        m.phase == Phase::Reading,
        lines.len() == codes.len(),
        forall|i: int| 0 <= i < lines.len() ==> !is_exit_line(#[trigger] lines[i]),
    ensures
        ({
            let (mf, reads, runs, saved) = run(m, submissions(lines, codes) + tail);
            let m2 = LoopModel {
                phase: Phase::Reading,
                history: m.history + lines,
                pending: if lines.len() > 0 {
                    lines.last()
                } else {
                    m.pending
                },
                last_exit_code: if codes.len() > 0 {
                    codes.last()
                } else {
                    m.last_exit_code
                },
            };
            let (nf, nreads, nruns, nsaved) = run(m2, tail);
            &&& mf == nf
            &&& reads == nreads + lines.len()
            &&& runs == nruns + lines.len()
            &&& saved == nsaved
        }),
    decreases lines.len(),
{
    if lines.len() == 0 {
        assert(submissions(lines, codes) + tail =~= tail);
        assert(m.history + lines =~= m.history);
    } else {
        let l = lines[0];
        let c = codes[0];
        let lr = lines.subrange(1, lines.len() as int);
        let cr = codes.subrange(1, codes.len() as int);
        assert forall|i: int| 0 <= i < lr.len() implies !is_exit_line(#[trigger] lr[i]) by {
            assert(lr[i] == lines[i + 1]);
        }
        let m1 = LoopModel {
            phase: Phase::Reading,
            history: m.history.push(l),
            pending: l,
            last_exit_code: c,
        };
        lemma_run_submissions(m1, lr, cr, tail);
        let all = submissions(lines, codes) + tail;
        let after = submissions(lr, cr) + tail;
        assert(all[0] == Input::Line(l));
        assert(all.subrange(1, all.len() as int)[0] == Input::Ran(c));
        assert(all.subrange(1, all.len() as int).subrange(1, all.len() - 1) =~= after);
        assert(!is_exit_line(lines[0]));
        assert(m.history.push(l) + lr =~= m.history + lines);
        if lr.len() > 0 {
            assert(lr.last() == lines.last());
            assert(cr.last() == codes.last());
        } else {
            assert(lines.last() == l);
            assert(codes.last() == c);
        }
        let ma = next(m, Input::Line(l)).0;
        let s1 = all.subrange(1, all.len() as int);
        assert(next(ma, Input::Ran(c)).0 == m1);
        assert(next(ma, Input::Ran(c)).1 is Read);
        assert(run(ma, s1).0 == run(m1, after).0);
        assert(run(ma, s1).1 == run(m1, after).1 + 1);
        assert(run(ma, s1).2 == run(m1, after).2);
        assert(run(ma, s1).3 == run(m1, after).3);
        assert(run(m, all).0 == run(ma, s1).0);
        assert(run(m, all).1 == run(ma, s1).1);
        assert(run(m, all).2 == run(ma, s1).2 + 1);
        assert(run(m, all).3 == run(ma, s1).3);
    }
}

/// Over a whole session that starts from the history file's text `file`,
/// submits the non-empty `lines` (none of them `exit`, each run with some exit code) and
/// ends with end of input, the loop asks for one read and one run per
/// line, and hands over entries that, once written, read back as the old
/// entries followed by the new lines in submission order.
pub proof fn lemma_session_history(
    file: Seq<char>,
    lines: Seq<Seq<char>>,
    codes: Seq<i32>,
    start_code: i32,
)
    requires
        lines.len() == codes.len(),
        forall|i: int| 0 <= i < lines.len() ==> !is_exit_line(#[trigger] lines[i]),
        non_empty(lines),
    ensures
        ({
            let m = LoopModel {
                phase: Phase::Reading,
                history: parse(file),
                pending: Seq::empty(),
                last_exit_code: start_code,
            };
            let (mf, reads, runs, saved) = run(
                m,
                submissions(lines, codes) + seq![Input::EndOfInput],
            );
            &&& mf.phase == Phase::Terminated
            &&& reads == lines.len()
            &&& runs == lines.len()
            &&& saved == Some(parse(file) + lines)
            &&& parse(serialize(parse(file) + lines)) == parse(file) + lines
        }),
{
    let m = LoopModel {
        phase: Phase::Reading,
        history: parse(file),
        pending: Seq::empty(),
        last_exit_code: start_code,
    };
    let tail = seq![Input::EndOfInput];
    lemma_run_submissions(m, lines, codes, tail);
    assert(tail.subrange(1, 1) =~= Seq::<Input>::empty());
    let m2 = LoopModel {
        phase: Phase::Reading,
        history: parse(file) + lines,
        pending: if lines.len() > 0 {
            lines.last()
        } else {
            m.pending
        },
        last_exit_code: if codes.len() > 0 {
            codes.last()
        } else {
            start_code
        },
    };
    let m3 = next(m2, Input::EndOfInput).0;
    assert(run(m3, Seq::empty()) == (m3, 0nat, 0nat, None::<Seq<Seq<char>>>));
    lemma_history_kept(file, lines);
}

/// The model of a line-editor outcome.
pub open spec fn read_input(o: ReadOutcome) -> Input {
    match o {
        ReadOutcome::Line(l) => Input::Line(l@),
        ReadOutcome::Interrupted => Input::Interrupted,
        ReadOutcome::EndOfInput => Input::EndOfInput,
        ReadOutcome::Failed(e) => Input::Failed(e@),
    }
}

/// The model of an action.
pub open spec fn todo_of(a: Action) -> Todo {
    match a {
        Action::Read => Todo::Read,
        Action::Execute(l) => Todo::Execute(l@),
        Action::Persist(h) => Todo::Persist(texts(h@)),
    }
}

/// The interactive loop: its phase, the history kept in memory, the last
/// exit code, and the line being run.
pub struct InteractiveLoop {
    pub phase: Phase,
    pub history: Vec<String>,
    pub last_exit_code: i32,
    pub pending: String,
}

impl InteractiveLoop {
    pub open spec fn model(&self) -> LoopModel {
        LoopModel {
            phase: self.phase,
            history: texts(self.history@),
            pending: self.pending@,
            last_exit_code: self.last_exit_code,
        }
    }

    /// While a line runs, it is the last entry of the history.
    pub open spec fn wf(&self) -> bool {
        self.phase == Phase::Dispatching ==> self.history@.len() > 0
            && self.history@.last()@ == self.pending@
    }

    /// A loop about to read its first line, with the history loaded from the
    /// file and the exit code left by start-up.
    pub fn new(history: Vec<String>, last_exit_code: i32) -> (r: Self)
        ensures
            r.wf(),
            r.phase == Phase::Reading,
            r.history@ == history@,
            r.last_exit_code == last_exit_code,
    {
        InteractiveLoop { phase: Phase::Reading, history, last_exit_code, pending: String::new() }
    }

    /// The first action: read a line.
    pub fn start(&self) -> (r: Action)
        ensures
            r is Read,
    {
        Action::Read
    }

    /// What follows a read. A line is kept in the history and run; an
    /// interrupt reads again; the end of input or an editor failure ends the
    /// loop and hands over the history to be written.
    pub fn on_read(&mut self, outcome: ReadOutcome) -> (r: Step)
        requires
            old(self).wf(),
            old(self).phase == Phase::Reading,
        ensures
            final(self).wf(),
            (final(self).model(), todo_of(r.action)) == next(old(self).model(), read_input(outcome)),
            final(self).last_exit_code == old(self).last_exit_code,
            match outcome {
                ReadOutcome::Line(l) => {
                    &&& final(self).phase == Phase::Dispatching
                    &&& texts(final(self).history@) == texts(old(self).history@).push(l@)
                    &&& final(self).pending@ == l@
                    &&& r.notice is None
                    &&& r.action matches Action::Execute(x) && x@ == l@
                },
                ReadOutcome::Interrupted => {
                    &&& final(self).phase == Phase::Reading
                    &&& final(self).history@ == old(self).history@
                    &&& r.notice matches Some(m) && m@ == "CTRL-C"@
                    &&& r.action is Read
                },
                ReadOutcome::EndOfInput => {
                    &&& final(self).phase == Phase::Terminated
                    &&& final(self).history@ == old(self).history@
                    &&& r.notice matches Some(m) && m@ == "CTRL-D"@
                    &&& r.action matches Action::Persist(h) && texts(h@) == texts(
                        old(self).history@,
                    )
                },
                ReadOutcome::Failed(e) => {
                    &&& final(self).phase == Phase::Terminated
                    &&& final(self).history@ == old(self).history@
                    &&& r.notice matches Some(m) && m@ == "Error: "@ + e@
                    &&& r.action matches Action::Persist(h) && texts(h@) == texts(
                        old(self).history@,
                    )
                },
            },
    {
        match outcome {
            ReadOutcome::Line(line) => {
                let ghost before = texts(self.history@);
                self.history.push(line.clone());
                assert(texts(self.history@) =~= before.push(line@));
                self.pending = line.clone();
                self.phase = Phase::Dispatching;
                Step { notice: None, action: Action::Execute(line) }
            },
            ReadOutcome::Interrupted => {
                Step { notice: Some(String::from_str("CTRL-C")), action: Action::Read }
            },
            ReadOutcome::EndOfInput => {
                self.phase = Phase::Terminated;
                Step {
                    notice: Some(String::from_str("CTRL-D")),
                    action: Action::Persist(self.history_copy()),
                }
            },
            ReadOutcome::Failed(e) => {
                self.phase = Phase::Terminated;
                let mut m = String::from_str("Error: ");
                m.append(e.as_str());
                Step { notice: Some(m), action: Action::Persist(self.history_copy()) }
            },
        }
    }

    /// What follows running the pending line. Its exit code is kept; an
    /// `exit` line ends the loop whatever the code, any other reads again. An
    /// interpreter failure ends the loop with an error and writes nothing.
    pub fn on_executed(&mut self, result: Result<i32, String>) -> (r: Result<Step, DriverError>)
        requires
            old(self).wf(),
            old(self).phase == Phase::Dispatching,
        ensures
            final(self).wf(),
            final(self).history@ == old(self).history@,
            result matches Ok(code) ==> (r matches Ok(step) && (final(self).model(), todo_of(
                step.action,
            )) == next(old(self).model(), Input::Ran(code))),
            match result {
                Ok(code) => {
                    &&& final(self).last_exit_code == code
                    &&& r matches Ok(step) && if is_exit_line(old(self).pending@) {
                        &&& final(self).phase == Phase::Terminated
                        &&& step.notice matches Some(m) && m@ == "Exiting..."@
                        &&& step.action matches Action::Persist(h) && texts(h@) == texts(
                            old(self).history@,
                        )
                    } else {
                        &&& final(self).phase == Phase::Reading
                        &&& step.notice is None
                        &&& step.action is Read
                    }
                },
                Err(e) => {
                    &&& final(self).phase == Phase::Terminated
                    &&& final(self).last_exit_code == old(self).last_exit_code
                    &&& r == Err::<Step, DriverError>(DriverError::ExecuteFailed(e))
                },
            },
    {
        match result {
            Ok(code) => {
                self.last_exit_code = code;
                if is_exit_command(self.pending.as_str()) {
                    self.phase = Phase::Terminated;
                    Ok(
                        Step {
                            notice: Some(String::from_str("Exiting...")),
                            action: Action::Persist(self.history_copy()),
                        },
                    )
                } else {
                    self.phase = Phase::Reading;
                    Ok(Step { notice: None, action: Action::Read })
                }
            },
            Err(e) => {
                self.phase = Phase::Terminated;
                Err(DriverError::ExecuteFailed(e))
            },
        }
    }

    fn history_copy(&self) -> (r: Vec<String>)
        ensures
            texts(r@) == texts(self.history@),
    {
        let mut r: Vec<String> = Vec::new();
        let mut i: usize = 0;
        while i < self.history.len()
            invariant
                i <= self.history@.len(),
                texts(r@) == texts(self.history@).subrange(0, i as int),
            decreases self.history@.len() - i,
        {
            let ghost before = texts(r@);
            let e = String::from_str(self.history[i].as_str());
            assert(e@ == self.history@[i as int]@);
            r.push(e);
            assert(texts(r@) =~= before.push(e@));
            assert(texts(r@) =~= texts(self.history@).subrange(0, i + 1));
            i = i + 1;
        }
        assert(texts(self.history@).subrange(0, i as int) =~= texts(self.history@));
        r
    }
}

} // verus!
