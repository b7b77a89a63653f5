//! Running a machine for many steps, and the whole way from tokens to
//! printed lines.

use vstd::prelude::*;
use crate::ast::ASTNode;
use crate::grammar::{program, ParseError};
use crate::machine::{start, step, Action, ActionView, Event, Machine, MachineView};
use crate::parser::parser;
use crate::token::{token_views, Token};

verus! {

/// The texts of a sequence of strings, one by one.
pub open spec fn lines_of(lines: Seq<String>) -> Seq<Seq<char>> {
    Seq::new(lines.len(), |i: int| lines[i]@)
}

/// Where a run of at most `budget` steps from the state `m` stops, the
/// lines it prints on the way, and the action it stops with. The run stops
/// with the first action that is neither silent nor a line to print; if the
/// steps are used up before, it stops with `Continue`. The first step is given
/// `event`, the others `Resume`.
pub open spec fn executed(m: MachineView, event: Event, budget: nat) -> (
    MachineView,
    Seq<Seq<char>>,
    ActionView,
)
    decreases budget,
{
    if budget == 0 {
        (m, Seq::empty(), ActionView::Continue)
    } else {
        let (next, action) = step(m, event);
        match action {
            ActionView::Continue => executed(next, Event::Resume, (budget - 1) as nat),
            ActionView::Print(line) => {
                let (end, lines, last) = executed(next, Event::Resume, (budget - 1) as nat);
                (end, seq![line] + lines, last)
            },
            _ => (next, Seq::empty(), action),
        }
    }
}

impl<'a> Machine<'a> {
    /// Runs at most `budget` steps and appends the lines printed to `out`.
    /// Returns the action that the run stopped with: `Finished` or `Failed`
    /// at the end of the run, `PrintFloat` or `Ask` where the driver has work
    /// to do, and `Continue` where the steps were used up. `event` goes to
    /// the first step.
    pub fn run(&mut self, event: Event, budget: u64, out: &mut Vec<String>) -> (action: Action)
        ensures
            final(self)@ == executed(old(self)@, event, budget as nat).0,
            lines_of(final(out)@) == lines_of(old(out)@) + executed(
                old(self)@,
                event,
                budget as nat,
            ).1,
            action@ == executed(old(self)@, event, budget as nat).2,
    {
        let mut left = budget;
        let mut next = event;
        let ghost goal = executed(old(self)@, event, budget as nat);
        let ghost mut printed: Seq<Seq<char>> = Seq::empty();
        assert(lines_of(out@) =~= lines_of(old(out)@) + printed);
        assert(printed + goal.1 =~= goal.1);
        while left > 0
            invariant
                goal == executed(old(self)@, event, budget as nat),
                lines_of(out@) == lines_of(old(out)@) + printed,
                goal.0 == executed(self@, next, left as nat).0,
                goal.1 == printed + executed(self@, next, left as nat).1,
                goal.2 == executed(self@, next, left as nat).2,
            decreases left,
        {
            let action = self.step(next);
            left = left - 1;
            match action {
                Action::Continue => {},
                Action::Print(line) => {
                    let ghost shown = lines_of(out@);
                    let ghost text = line@;
                    out.push(line);
                    proof {
                        let rest = executed(self@, Event::Resume, left as nat).1;
                        assert(lines_of(out@) =~= shown.push(text));
                        assert(shown.push(text) =~= lines_of(old(out)@) + (printed + seq![text]));
                        assert(printed + (seq![text] + rest) =~= (printed + seq![text]) + rest);
                        printed = printed + seq![text];
                    }
                },
                _ => {
                    assert(printed + Seq::<Seq<char>>::empty() =~= printed);
                    return action;
                },
            }
            next = Event::Resume;
        }
        assert(printed + Seq::<Seq<char>>::empty() =~= printed);
        Action::Continue
    }
}

/// Runs `program` for at most `budget` steps, appending the lines it prints
/// to `out`. Returns the action that the run stopped with, as
/// [`Machine::run`] does.
pub fn run(program: &ASTNode, budget: u64, out: &mut Vec<String>) -> (action: Action)
    ensures
        action@ == executed(start(program@), Event::Resume, budget as nat).2,
        lines_of(final(out)@) == lines_of(old(out)@) + executed(
            start(program@),
            Event::Resume,
            budget as nat,
        ).1,
{
    let mut machine = Machine::new(program);
    machine.run(Event::Resume, budget, out)
}

/// Parses `tokens` and runs the program for at most `budget` steps,
/// appending the lines it prints to `out`. Returns the action that the run
/// stopped with, as [`Machine::run`] does, or the violation of the grammar,
/// in which case nothing is run.
pub fn interpret(tokens: Vec<Token>, budget: u64, out: &mut Vec<String>) -> (r: Result<
    Action,
    ParseError,
>)
    ensures
        match program(token_views(tokens@)) {
            Ok(tree) => r matches Ok(action) && action@ == executed(
                start(tree),
                Event::Resume,
                budget as nat,
            ).2 && lines_of(final(out)@) == lines_of(old(out)@) + executed(
                start(tree),
                Event::Resume,
                budget as nat,
            ).1,
            Err(e) => r matches Err(x) && x@ == e && final(out)@ == old(out)@,
        },
{
    match parser(&tokens) {
        Ok(tree) => Ok(run(&tree, budget, out)),
        Err(e) => Err(e),
    }
}

} // verus!
