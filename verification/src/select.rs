//! The numbered menu: which text to show, and what a typed line selects.
//!
//! The selector never touches a stream. `select_file` and `Awaiting::respond`
//! return a `Step`: either the finished selection, or a text to write and the
//! state that waits for the line read after it. Whoever owns the streams
//! writes, reads and hands the line, or the failure, back.

use vstd::prelude::*;
use crate::numeral::{decimal, lemma_decimal_reads_back, number, parse_number, push_decimal};

verus! {

/// The selector after the menu has been shown: it waits for a line that
/// chooses among its options, numbered from zero. There are always at least
/// two of them: fewer are never asked about.
pub struct Awaiting {
    count: usize,
}

impl Awaiting {
    #[verifier::type_invariant]
    spec fn at_least_two(&self) -> bool {
        self.count >= 2
    }

    /// The number of options that a line chooses among.
    pub closed spec fn count(&self) -> nat {
        self.count as nat
    }
}

/// What the selector asks of its caller.
pub enum Step<E> {
    /// Write `text`, flush the output if `flush` is set, read one line and
    /// give it to `next`.
    Ask { text: String, flush: bool, next: Awaiting },
    /// The selection is over: an index into the options, `None` where there
    /// was nothing to choose or the user cancelled, or the failure of a stream.
    Done(Result<Option<usize>, E>),
}

/// A `Step` as plain values.
pub enum StepView<E> {
    Ask { text: Seq<char>, flush: bool, count: nat },
    Done(Result<Option<nat>, E>),
}

impl<E> View for Step<E> {
    type V = StepView<E>;

    open spec fn view(&self) -> StepView<E> {
        match *self {
            Step::Ask { text, flush, next } => StepView::Ask {
                text: text@,
                flush,
                count: next.count(),
            },
            Step::Done(Ok(Some(index))) => StepView::Done(Ok(Some(index as nat))),
            Step::Done(Ok(None)) => StepView::Done(Ok(None)),
            Step::Done(Err(failure)) => StepView::Done(Err(failure)),
        }
    }
}

/// The display texts of the options, in order.
pub open spec fn texts(options: Seq<String>) -> Seq<Seq<char>> {
    Seq::new(options.len(), |i: int| options[i]@)
}

/// One line of the menu: the index, a colon and a space, the option's text.
pub open spec fn option_line(index: nat, text: Seq<char>) -> Seq<char> {
    decimal(index) + ": "@ + text + "\n"@
}

/// The lines of the first `upto` options, in order.
pub open spec fn option_lines(options: Seq<Seq<char>>, upto: nat) -> Seq<char>
    decreases upto,
{
    if upto == 0 {
        Seq::empty()
    } else {
        option_lines(options, (upto - 1) as nat) + option_line(
            (upto - 1) as nat,
            options[upto - 1],
        )
    }
}

/// The prompt that follows the options and names the valid indices.
pub open spec fn prompt(count: nat) -> Seq<char> {
    "Please select an option (0 - "@ + decimal((count - 1) as nat) + "): "@
}

/// All that is written before the first line is read.
pub open spec fn menu(options: Seq<Seq<char>>) -> Seq<char> {
    option_lines(options, options.len()) + prompt(options.len())
}

/// What is written after a line that selects nothing.
pub open spec fn retry_text(count: nat) -> Seq<char> {
    "Please enter only a number from 0 to "@ + decimal((count - 1) as nat)
}

/// A line without the newline that ends it, if one does.
pub open spec fn strip_newline(line: Seq<char>) -> Seq<char> {
    if line.len() > 0 && line.last() == '\n' {
        line.drop_last()
    } else {
        line
    }
}

/// What a line means to a selector of `count` options.
pub enum Reply {
    /// The line starts with the letter `q`.
    Cancel,
    /// The line is a number below `count`.
    Pick(nat),
    /// Anything else.
    Retry,
}

/// Reads a line: cancellation first, then a valid index, else a retry.
pub open spec fn reply(count: nat, line: Seq<char>) -> Reply {
    let text = strip_newline(line);
    if text.len() > 0 && text[0] == 'q' {
        Reply::Cancel
    } else {
        match number(text) {
            Some(index) => if index < count {
                Reply::Pick(index)
            } else {
                Reply::Retry
            },
            None => Reply::Retry,
        }
    }
}

/// The first step of a selection among `options`.
pub open spec fn begin<E>(options: Seq<Seq<char>>) -> StepView<E> {
    if options.len() == 0 {
        StepView::Done(Ok(None))
    } else if options.len() == 1 {
        StepView::Done(Ok(Some(0)))
    } else {
        StepView::Ask { text: menu(options), flush: true, count: options.len() }
    }
}

/// The step that follows the reading of a line, or the failure to read or
/// write, for a selector of `count` options.
pub open spec fn after<E>(count: nat, line: Result<Seq<char>, E>) -> StepView<E> {
    match line {
        Err(failure) => StepView::Done(Err(failure)),
        Ok(text) => match reply(count, text) {
            Reply::Cancel => StepView::Done(Ok(None)),
            Reply::Pick(index) => StepView::Done(Ok(Some(index))),
            Reply::Retry => StepView::Ask { text: retry_text(count), flush: false, count },
        },
    }
}

/// A read line, or the failure that took its place, as plain values.
pub open spec fn line_view<E>(line: Result<String, E>) -> Result<Seq<char>, E> {
    match line {
        Ok(text) => Ok(text@),
        Err(failure) => Err(failure),
    }
}

fn menu_text(options: &Vec<String>) -> (text: String)
    requires
        options.len() >= 1,
    ensures
        text@ == menu(texts(options@)),
{
    let ghost shown = texts(options@);
    let mut text = String::new();
    let mut i: usize = 0;
    while i < options.len()
        invariant
            i <= options.len(),
            shown == texts(options@),
            text@ == option_lines(shown, i as nat),
        decreases options.len() - i,
    {
        let ghost before = text@;
        push_decimal(&mut text, i);
        text.append(": ");
        text.append(options[i].as_str());
        text.append("\n");
        proof {
            assert(shown[i as int] == options[i as int]@);
            assert(text@ =~= before + option_line(i as nat, shown[i as int]));
        }
        i = i + 1;
    }
    let ghost lines = text@;
    text.append("Please select an option (0 - ");
    push_decimal(&mut text, options.len() - 1);
    text.append("): ");
    proof {
        assert(text@ =~= lines + prompt(options.len() as nat));
    }
    text
}

fn retry_message(count: usize) -> (text: String)
    requires
        count >= 1,
    ensures
        text@ == retry_text(count as nat),
{
    let mut text = String::new();
    text.append("Please enter only a number from 0 to ");
    push_decimal(&mut text, count - 1);
    proof {
        assert(text@ =~= retry_text(count as nat));
    }
    text
}

/// Starts a selection among `options`, each given by its display text.
///
/// With no option there is nothing to choose, and with one there is nothing
/// to ask: both end at once, and no line is ever read. With two or more the
/// step asks for the menu to be shown: one line per option, then the prompt.
pub fn select_file<E>(options: &Vec<String>) -> (step: Step<E>)
    ensures
        step@ == begin::<E>(texts(options@)),
        options.len() == 0 ==> step@ == StepView::<E>::Done(Ok(None)),
        options.len() == 1 ==> step@ == StepView::<E>::Done(Ok(Some(0))),
        options.len() >= 2 ==> step is Ask,
        step matches Step::Done(Ok(Some(index))) ==> index < options.len(),
{
    if options.len() == 0 {
        Step::Done(Ok(None))
    } else if options.len() == 1 {
        Step::Done(Ok(Some(0)))
    } else {
        Step::Ask { text: menu_text(options), flush: true, next: Awaiting { count: options.len() } }
    }
}

impl Awaiting {
    /// Takes the line that was read, newline and all, or the failure of the
    /// stream that was written to or read from.
    ///
    /// A failure ends the selection with that failure. A line that starts with
    /// `q` cancels; a number below the count selects; any other line asks for
    /// the retry message to be written and another line to be read. The menu
    /// is never asked for again.
    pub fn respond<E>(self, line: Result<String, E>) -> (step: Step<E>)
        ensures
            step@ == after(self.count(), line_view(line)),
            step matches Step::Done(Ok(Some(index))) ==> index < self.count(),
    {
        proof {
            use_type_invariant(&self);
        }
        match line {
            Err(failure) => Step::Done(Err(failure)),
            Ok(raw) => {
                let whole: &str = raw.as_str();
                let len: usize = whole.unicode_len();
                let text: &str = if len > 0 && whole.get_char(len - 1) == '\n' {
                    whole.substring_char(0, len - 1)
                } else {
                    whole
                };
                assert(text@ =~= strip_newline(raw@));
                if text.unicode_len() > 0 && text.get_char(0) == 'q' {
                    return Step::Done(Ok(None));
                }
                match parse_number(text) {
                    Some(index) => {
                        if index < self.count {
                            return Step::Done(Ok(Some(index)));
                        }
                    },
                    None => {},
                }
                Step::Ask { text: retry_message(self.count), flush: false, next: self }
            },
        }
    }
}

/// Carries a selection on from `step`, answering each request for a line
/// with the next of `lines`. `None` where the lines run out while the
/// selector still asks.
pub open spec fn run<E>(step: StepView<E>, lines: Seq<Result<Seq<char>, E>>) -> Option<
    Result<Option<nat>, E>,
>
    decreases lines.len(),
{
    match step {
        StepView::Done(result) => Some(result),
        StepView::Ask { count, .. } => if lines.len() == 0 {
            None
        } else {
            run(after(count, lines[0]), lines.drop_first())
        },
    }
}

/// All that a selection asks to have written from `step` on, while it is
/// answered with `lines`.
pub open spec fn written<E>(step: StepView<E>, lines: Seq<Result<Seq<char>, E>>) -> Seq<char>
    decreases lines.len(),
{
    match step {
        StepView::Done(_) => Seq::empty(),
        StepView::Ask { text, count, .. } => if lines.len() == 0 {
            text
        } else {
            text + written(after(count, lines[0]), lines.drop_first())
        },
    }
}

/// The retry message, `times` times over.
pub open spec fn retries(count: nat, times: nat) -> Seq<char>
    decreases times,
{
    if times == 0 {
        Seq::empty()
    } else {
        retry_text(count) + retries(count, (times - 1) as nat)
    }
}

/// An index typed as the menu shows it selects its option, with the newline
/// that ends the line or without.
pub proof fn lemma_shown_index_selects(count: nat, index: nat)
    requires
        index < count,
    ensures
        reply(count, decimal(index)) == Reply::Pick(index),
        reply(count, decimal(index).push('\n')) == Reply::Pick(index),
{
    let text = decimal(index);
    lemma_decimal_reads_back(index);
    assert(text[0] != 'q' && text[0] != '+' && text.last() != '\n') by {
        assert(crate::numeral::is_digit(text[0]));
        assert(crate::numeral::is_digit(text[text.len() - 1]));
    }
    assert(text.push('\n').drop_last() =~= text);
}

/// Lines that were all read without a failure.
pub open spec fn read<E>(lines: Seq<Seq<char>>) -> Seq<Result<Seq<char>, E>> {
    Seq::new(lines.len(), |i: int| Ok::<Seq<char>, E>(lines[i]))
}

/// What a line that is no retry ends the selection with.
pub open spec fn decision(count: nat, line: Seq<char>) -> Option<nat> {
    match reply(count, line) {
        Reply::Pick(index) => Some(index),
        _ => None,
    }
}

/// With fewer than two options nothing is written and no line is read: the
/// result is the same whatever the input holds.
pub proof fn lemma_nothing_to_ask<E>(options: Seq<Seq<char>>, lines: Seq<Result<Seq<char>, E>>)
    requires
        options.len() < 2,
    ensures
        written(begin::<E>(options), lines) == Seq::<char>::empty(),
        run(begin::<E>(options), lines) == Some(
            Ok::<Option<nat>, E>(
                if options.len() == 0 {
                    None
                } else {
                    Some(0)
                },
            ),
        ),
{
}

/// The first line that cancels or names an option decides, however many
/// lines before it did neither. Each of those is answered with the retry
/// message and nothing else: the menu is written once, at the start.
pub proof fn lemma_first_valid_line_decides<E>(
    options: Seq<Seq<char>>,
    rejected: Seq<Seq<char>>,
    decisive: Seq<char>,
)
    requires
        options.len() >= 2,
        forall|i: int|
            0 <= i < rejected.len() ==> reply(options.len(), #[trigger] rejected[i])
                == Reply::Retry,
        reply(options.len(), decisive) != Reply::Retry,
    ensures
        run(begin::<E>(options), read::<E>(rejected.push(decisive))) == Some(
            Ok::<Option<nat>, E>(decision(options.len(), decisive)),
        ),
        written(begin::<E>(options), read::<E>(rejected.push(decisive))) == menu(options)
            + retries(options.len(), rejected.len()),
{
    lemma_retried(options.len(), rejected, decisive, begin::<E>(options));
}

proof fn lemma_retried<E>(
    count: nat,
    rejected: Seq<Seq<char>>,
    decisive: Seq<char>,
    step: StepView<E>,
)
    requires
        step matches StepView::Ask { count: asked, .. } && asked == count,
        forall|i: int|
            0 <= i < rejected.len() ==> reply(count, #[trigger] rejected[i]) == Reply::Retry,
        reply(count, decisive) != Reply::Retry,
    ensures
        run(step, read::<E>(rejected.push(decisive))) == Some(
            Ok::<Option<nat>, E>(decision(count, decisive)),
        ),
        written(step, read::<E>(rejected.push(decisive))) == step->text + retries(
            count,
            rejected.len(),
        ),
    decreases rejected.len(),
{
    let lines = read::<E>(rejected.push(decisive));
    if rejected.len() == 0 {
        assert(lines.drop_first() =~= Seq::empty());
        reveal_with_fuel(run, 2);
        reveal_with_fuel(written, 2);
        assert(written(step, lines) =~= step->text + retries(count, 0));
    } else {
        let later = rejected.drop_first();
        let asking = StepView::<E>::Ask { text: retry_text(count), flush: false, count };
        assert(lines.drop_first() =~= read::<E>(later.push(decisive)));
        assert(after(count, lines[0]) == asking);
        assert forall|i: int| 0 <= i < later.len() implies reply(count, #[trigger] later[i])
            == Reply::Retry by {
            assert(later[i] == rejected[i + 1]);
        }
        lemma_retried(count, later, decisive, asking);
        assert(written(step, lines) =~= step->text + retries(count, rejected.len()));
    }
}

} // verus!
