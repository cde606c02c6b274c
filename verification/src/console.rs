//! The console pair: a printer and an input taker that share a count, and
//! a console held as data for them to work on.

use crate::decimal::{decimal, parse_decimal, parse_u32, push_decimal};
use crate::event_loop::{
    is_run_trace, lemma_written_value_is_found, step_index, EventLoop, Runnable,
};
use std::collections::VecDeque;
use vstd::prelude::*;
use vstd::string::StringExecFns;

verus! {

/// What `str::trim` makes of `text`: `text` without the white space at its
/// two ends.
pub uninterp spec fn trimmed(text: Seq<char>) -> Seq<char>;

/// `str::trim` of the standard library. The result is taken on trust and
/// only named: it is `trimmed` of the argument.
#[verifier::external_body]
fn trim(text: &str) -> (inner: &str)
    ensures
        inner@ == trimmed(text@),
{
    text.trim()
}

/// The count that `text` stands for: the number it spells, and 0 where it
/// spells none.
pub open spec fn times_of(text: Seq<char>) -> u32 {
    match parse_decimal(text) {
        Some(times) => times,
        None => 0,
    }
}

/// The count that `text` stands for, read as it is: white space in it
/// makes it spell no number.
pub fn times_from_text(text: &str) -> (times: u32)
    ensures
        times == times_of(text@),
{
    match parse_u32(text) {
        Some(times) => times,
        None => 0,
    }
}

/// The count that a line of input stands for: that of the line without the
/// white space at its ends, so without the line break.
pub fn times_from_line(line: &str) -> (times: u32)
    ensures
        times == times_of(trimmed(line@)),
{
    times_from_text(trim(line))
}

/// The line that is printed for `time`.
pub open spec fn printer_text(time: u32) -> Seq<char> {
    seq!['P', 'r', 'i', 'n', 't', 'i', 'n', 'g', ' ', 'f', 'o', 'r', ' '] + decimal(time as nat)
        + seq!['.']
}

/// The lines that are printed for a count of `times`: one for each number
/// from 1 to `times`, in rising order.
pub open spec fn printer_texts(times: u32) -> Seq<Seq<char>> {
    Seq::new(times as nat, |i: int| printer_text((i + 1) as u32))
}

/// The text of each of `lines`.
pub open spec fn texts(lines: Seq<String>) -> Seq<Seq<char>> {
    Seq::new(lines.len(), |i: int| lines[i]@)
}

/// The line that is printed for `time`.
pub fn printer_line(time: u32) -> (line: String)
    ensures
        line@ == printer_text(time),
{
    proof {
        reveal_strlit("Printing for ");
        reveal_strlit(".");
    }
    let mut line = String::new();
    line.append("Printing for ");
    push_decimal(&mut line, time);
    line.append(".");
    line
}

/// The lines that are printed for a count of `times`.
pub fn printer_lines(times: u32) -> (lines: Vec<String>)
    ensures
        texts(lines@) == printer_texts(times),
{
    let mut lines: Vec<String> = Vec::new();
    let mut time: u32 = 0;
    while time < times
        invariant
            time <= times,
            texts(lines@) == printer_texts(time),
        decreases times - time,
    {
        let ghost before = lines@;
        time += 1;
        lines.push(printer_line(time));
        assert(texts(lines@) =~= texts(before).push(printer_text(time)));
        assert(printer_texts(time) =~= printer_texts((time - 1) as u32).push(printer_text(time)));
    }
    lines
}

/// A console held as data: the lines that wait to be read, and the lines
/// printed so far.
pub struct Console {
    typed: VecDeque<String>,
    printed: Vec<String>,
}

impl Console {
    /// The lines typed and not read yet, the oldest first.
    pub closed spec fn input(&self) -> Seq<Seq<char>> {
        texts(self.typed@)
    }

    /// The lines printed so far, the oldest first.
    pub closed spec fn output(&self) -> Seq<Seq<char>> {
        texts(self.printed@)
    }

    /// What the next read gives: the oldest line that waits, if one does.
    pub open spec fn next_line(&self) -> Option<Seq<char>> {
        if self.input().len() > 0 {
            Some(self.input()[0])
        } else {
            None
        }
    }

    /// The lines that still wait after the next read.
    pub open spec fn input_after_read(&self) -> Seq<Seq<char>> {
        if self.input().len() > 0 {
            self.input().drop_first()
        } else {
            self.input()
        }
    }

    /// A console on which nothing was typed or printed.
    pub fn new() -> (console: Console)
        ensures
            console.input() == Seq::<Seq<char>>::empty(),
            console.output() == Seq::<Seq<char>>::empty(),
    {
        Console { typed: VecDeque::new(), printed: Vec::new() }
    }

    /// Types `line`: it waits behind the lines typed before it.
    pub fn type_line(&mut self, line: String)
        ensures
            final(self).input() == old(self).input().push(line@),
            final(self).output() == old(self).output(),
    {
        self.typed.push_back(line);
    }

    /// Reads a line: the oldest that waits, which then waits no more. Where
    /// none waits there is nothing to read, and nothing changes.
    pub fn read_line(&mut self) -> (line: Option<String>)
        ensures
            match line {
                Some(line) => old(self).next_line() == Some(line@),
                None => old(self).next_line().is_none(),
            },
            final(self).input() == old(self).input_after_read(),
            final(self).output() == old(self).output(),
    {
        self.typed.pop_front()
    }

    /// Prints `lines`, in their order, behind what was printed before.
    pub fn print_lines(&mut self, lines: Vec<String>)
        ensures
            final(self).output() == old(self).output() + texts(lines@),
            final(self).input() == old(self).input(),
    {
        let mut lines = lines;
        self.printed.append(&mut lines);
    }

    /// The lines printed so far, the oldest first.
    pub fn printed(&self) -> (lines: &Vec<String>)
        ensures
            texts(lines@) == self.output(),
    {
        &self.printed
    }
}

/// What the units of the console pair share: the count, a cell that one of
/// them writes and the other reads, and the console they work on.
pub struct Session {
    pub times: u32,
    pub console: Console,
}

impl Session {
    /// A session that starts with the count 0 and with a console on which
    /// nothing was typed or printed.
    pub fn new() -> (session: Session)
        ensures
            session.times == 0,
            session.console.input() == Seq::<Seq<char>>::empty(),
            session.console.output() == Seq::<Seq<char>>::empty(),
    {
        Session { times: 0, console: Console::new() }
    }
}

/// The consumer of the pair. A step reads the count and prints one line
/// for each number from 1 to it.
pub struct Printer;

/// The producer of the pair. A step reads one line of input and writes the
/// count that the line stands for; a line that spells no number gives 0.
/// Where no line waits, the step leaves the count as it is.
pub struct InputTaker;

impl Runnable<Session> for Printer {
    open spec fn may_step(&self, before: Session, after: Session) -> bool {
        &&& after.times == before.times
        &&& after.console.input() == before.console.input()
        &&& after.console.output() == before.console.output() + printer_texts(before.times)
    }

    fn do_work(&mut self, shared: &mut Session) {
        let lines = printer_lines(shared.times);
        shared.console.print_lines(lines);
    }
}

impl Runnable<Session> for InputTaker {
    open spec fn may_step(&self, before: Session, after: Session) -> bool {
        &&& after.times == match before.console.next_line() {
            Some(line) => times_of(trimmed(line)),
            None => before.times,
        }
        &&& after.console.input() == before.console.input_after_read()
        &&& after.console.output() == before.console.output()
    }

    fn do_work(&mut self, shared: &mut Session) {
        if let Some(line) = shared.console.read_line() {
            shared.times = times_from_line(line.as_str());
        }
    }
}

/// A line that spells no number sets the count to 0, whatever the count was
/// before, and the input moves on to the next line.
pub proof fn lemma_line_without_number_gives_zero(
    before: Session,
    after: Session,
    line: Seq<char>,
)
    requires
        InputTaker.may_step(before, after),
        before.console.next_line() == Some(line),
        parse_decimal(trimmed(line)).is_none(),
    ensures
        after.times == 0,
        after.console.input() == before.console.input().drop_first(),
        after.console.output() == before.console.output(),
{
}

/// Whether `units` are the console pair: a printer registered first and an
/// input taker registered behind it, going by what their steps do.
pub open spec fn is_console_pair(units: Seq<Box<dyn Runnable<Session>>>) -> bool {
    &&& units.len() == 2
    &&& forall|before: Session, after: Session| #[trigger]
        units[0].may_step(before, after) == Printer.may_step(before, after)
    &&& forall|before: Session, after: Session| #[trigger]
        units[1].may_step(before, after) == InputTaker.may_step(before, after)
}

/// The loop of the console pair: the printer registered first, the input
/// taker behind it.
pub fn console_pair() -> (pair: EventLoop<dyn Runnable<Session>>)
    ensures
        is_console_pair(pair@),
{
    let mut pair: EventLoop<dyn Runnable<Session>> = EventLoop::new();
    pair.add_runnable(Box::new(Printer));
    pair.add_runnable(Box::new(InputTaker));
    pair
}

/// In the console pair the printer is one round behind the input taker.
///
/// In the first round the printer prints the lines for the count that the
/// run started with. In every later round it prints the lines for the count
/// that the input taker wrote the round before: that of the line read then,
/// or, where no line waited, the count that was there already.
pub proof fn lemma_printer_is_one_round_behind(
    units: Seq<Box<dyn Runnable<Session>>>,
    rounds: nat,
    trace: Seq<Session>,
    round: nat,
)
    requires
        is_console_pair(units),
        is_run_trace(units, rounds, trace),
        round < rounds,
    ensures
        ({
            let printing = step_index(2, round, 0);
            let count = if round == 0 {
                trace[0].times
            } else {
                let taking = step_index(2, (round - 1) as nat, 1);
                match trace[taking].console.next_line() {
                    Some(line) => times_of(trimmed(line)),
                    None => trace[taking].times,
                }
            };
            trace[printing + 1].console.output() == trace[printing].console.output()
                + printer_texts(count)
        }),
{
    let times = |session: Session| session.times;
    let printing = step_index(2, round, 0);
    assert(units[0].may_step(trace[printing], trace[printing + 1]));
    lemma_written_value_is_found(units, rounds, trace, times, 1, 0, round);
    if round > 0 {
        let taking = step_index(2, (round - 1) as nat, 1);
        assert(units[1].may_step(trace[taking], trace[taking + 1]));
    }
}

} // verus!
