//! Scripts: parsing a text into command blocks, and evaluating the
//! blocks in order against the outcomes their commands produce.
//!
//! A script is line oriented.  A line starting with `$` opens a block
//! whose command is the rest of the line; the lines after it annotate
//! the block's expected outcome (`?` the exit code, `!` a piece of
//! standard error, `>` a piece of standard output) until the next `$`
//! line or the end of the text; every other line is ignored.

use vstd::prelude::*;
use vstd::string::*;

use crate::command::Command;
use crate::command::CommandModel;
use crate::command::Outcome;
use crate::command::OutcomeModel;
use crate::command::default_outcome;
use crate::command::parse_command;
use crate::error::Error;
use crate::text::int_val;
use crate::text::lemma_lines_of_count;
use crate::text::lines_of;
use crate::text::parse_i32;
use crate::text::split_lines;
use crate::text::starts_with;
use crate::text::starts_with_char;
use crate::text::trim;
use crate::text::trim_start;
use crate::text::trimmed;
use crate::text::trimmed_start;
use crate::text::valid_int_str;

verus! {

/// A half-open range of source lines, 1-indexed: a block's `$` line
/// and every annotation line after it.
#[derive(Debug, Clone, Copy, PartialEq, Eq, Structural)]
pub struct SourceRange {
    pub start: usize,
    pub end: usize,
}

/// The mathematical content of a script block.
#[verifier::ext_equal]
pub struct BlockModel {
    pub command: CommandModel,
    pub expected: OutcomeModel,
    pub start: int,
    pub end: int,
}

/// One entry of a script: a command, the outcome it is expected to
/// produce, and the source lines it came from.
#[derive(Debug)]
pub struct CommandAndExpectedOutcome {
    pub command: Command,
    pub expected_outcome: Outcome,
    pub range: SourceRange,
}

impl View for CommandAndExpectedOutcome {
    type V = BlockModel;

    open spec fn view(&self) -> BlockModel {
        BlockModel {
            command: self.command@,
            expected: self.expected_outcome@,
            start: self.range.start as int,
            end: self.range.end as int,
        }
    }
}

/// One annotation line folded into a block's expected outcome so far:
/// `?` sets the expected exit code (empty means killed by a signal,
/// and the last `?` line wins), `!` and `>` append their left-trimmed
/// remainder to the expected standard error and standard output, and
/// any other line changes nothing.
pub open spec fn annotate(acc: OutcomeModel, line: Seq<char>) -> Result<OutcomeModel, Error> {
    if starts_with(line, '?') {
        let t = trimmed(line.drop_first());
        if t.len() == 0 {
            Ok(OutcomeModel { e_code: None, std_out: acc.std_out, std_err: acc.std_err })
        } else if valid_int_str(t) && i32::MIN <= int_val(t) <= i32::MAX {
            Ok(
                OutcomeModel {
                    e_code: Some(int_val(t)),
                    std_out: acc.std_out,
                    std_err: acc.std_err,
                },
            )
        } else {
            Err(Error::MalformedErrorCode)
        }
    } else if starts_with(line, '!') {
        Ok(
            OutcomeModel {
                e_code: acc.e_code,
                std_out: acc.std_out,
                std_err: acc.std_err + trimmed_start(line.drop_first()),
            },
        )
    } else if starts_with(line, '>') {
        Ok(
            OutcomeModel {
                e_code: acc.e_code,
                std_out: acc.std_out + trimmed_start(line.drop_first()),
                std_err: acc.std_err,
            },
        )
    } else {
        Ok(acc)
    }
}

/// The expected outcome a block accumulates from the annotation lines
/// at `j` and after, up to the next `$` line or the end of the text.
pub open spec fn fold_expect(lines: Seq<Seq<char>>, j: int, acc: OutcomeModel) -> Result<
    OutcomeModel,
    Error,
>
    decreases lines.len() - j,
    when 0 <= j
{
    if j >= lines.len() || starts_with(lines[j], '$') {
        Ok(acc)
    } else {
        match annotate(acc, lines[j]) {
            Err(e) => Err(e),
            Ok(acc2) => fold_expect(lines, j + 1, acc2),
        }
    }
}

/// The index of the first line at or after `j` that opens a block, or
/// the number of lines if none does.
pub open spec fn block_end(lines: Seq<Seq<char>>, j: int) -> int
    decreases lines.len() - j,
    when 0 <= j
{
    if j >= lines.len() {
        lines.len() as int
    } else if starts_with(lines[j], '$') {
        j
    } else {
        block_end(lines, j + 1)
    }
}

/// `block_end` stays between its argument and the number of lines.
pub proof fn lemma_block_end_bounds(lines: Seq<Seq<char>>, j: int)
    requires
        0 <= j <= lines.len(),
    ensures
        j <= block_end(lines, j) <= lines.len(),
    decreases lines.len() - j,
{
    if j < lines.len() && !starts_with(lines[j], '$') {
        lemma_block_end_bounds(lines, j + 1);
    }
}

/// An index at or after `j` with no `$` line in between, and itself a
/// `$` line or the end, is `block_end`.
pub proof fn lemma_block_end_is(lines: Seq<Seq<char>>, j: int, k: int)
    requires
        0 <= j <= k <= lines.len(),
        forall|t: int| j <= t < k ==> !starts_with(#[trigger] lines[t], '$'),
        k < lines.len() ==> starts_with(lines[k], '$'),
    ensures
        block_end(lines, j) == k,
    decreases k - j,
{
    if j < k {
        lemma_block_end_is(lines, j + 1, k);
    }
}

/// The blocks of the script from line `i` on: a `$` line opens a
/// block — its remainder is the command, the lines after it accumulate
/// the expected outcome, and the block's source range runs from the
/// `$` line to the line before the next block, both 1-indexed — and
/// every line outside a block is ignored.
pub open spec fn parse_from(lines: Seq<Seq<char>>, i: int) -> Result<Seq<BlockModel>, Error>
    decreases lines.len() - i,
    when 0 <= i
    via parse_from_dec
{
    if i >= lines.len() {
        Ok(Seq::empty())
    } else if starts_with(lines[i], '$') {
        match parse_command(lines[i].drop_first()) {
            Err(e) => Err(e),
            Ok(c) => {
                let end = block_end(lines, i + 1);
                match fold_expect(lines, i + 1, default_outcome()) {
                    Err(e) => Err(e),
                    Ok(expected) => match parse_from(lines, end) {
                        Err(e) => Err(e),
                        Ok(rest) => Ok(
                            seq![
                                BlockModel { command: c, expected, start: i + 1, end: end + 1 },
                            ] + rest,
                        ),
                    },
                }
            },
        }
    } else {
        parse_from(lines, i + 1)
    }
}

#[via_fn]
proof fn parse_from_dec(lines: Seq<Seq<char>>, i: int) {
    if 0 <= i < lines.len() && starts_with(lines[i], '$') {
        lemma_block_end_bounds(lines, i + 1);
    }
}

/// What parsing a whole script text yields.
pub open spec fn parse_script(text: Seq<char>) -> Result<Seq<BlockModel>, Error> {
    parse_from(lines_of(text), 0)
}

/// A parsed script: its command blocks, in source order.
#[derive(Debug)]
pub struct Script {
    commands: Vec<CommandAndExpectedOutcome>,
}

impl View for Script {
    type V = Seq<BlockModel>;

    closed spec fn view(&self) -> Seq<BlockModel> {
        self.commands@.map_values(|b: CommandAndExpectedOutcome| b@)
    }
}

/// Folds one annotation line into the expected outcome built so far,
/// as `annotate` describes.
fn apply_annotation(acc: Outcome, line: &str) -> (r: Result<Outcome, Error>)
    ensures
        match r {
            Ok(a) => annotate(acc@, line@) == Ok::<OutcomeModel, Error>(a@),
            Err(e) => annotate(acc@, line@) == Err::<OutcomeModel, Error>(e),
        },
{
    let ghost a0 = acc@;
    let n = line.unicode_len();
    if n == 0 {
        return Ok(acc);
    }
    let c0 = line.get_char(0);
    let rest = line.substring_char(1, n);
    proof {
        assert(rest@ =~= line@.drop_first());
    }
    if c0 == '?' {
        let t = trim(rest);
        if t.unicode_len() == 0 {
            let a = Outcome { e_code: None, std_out: acc.std_out, std_err: acc.std_err };
            proof {
                assert(a@ =~= OutcomeModel { e_code: None, std_out: a0.std_out, std_err: a0.std_err });
            }
            Ok(a)
        } else {
            match parse_i32(t) {
                Ok(v) => {
                    let a = Outcome { e_code: Some(v), std_out: acc.std_out, std_err: acc.std_err };
                    proof {
                        assert(a@ =~= OutcomeModel {
                            e_code: Some(int_val(t@)),
                            std_out: a0.std_out,
                            std_err: a0.std_err,
                        });
                    }
                    Ok(a)
                },
                Err(e) => Err(e),
            }
        }
    } else if c0 == '!' {
        let mut acc = acc;
        acc.std_err.append(trim_start(rest));
        proof {
            assert(acc@ =~= OutcomeModel {
                e_code: a0.e_code,
                std_out: a0.std_out,
                std_err: a0.std_err + trimmed_start(line@.drop_first()),
            });
        }
        Ok(acc)
    } else if c0 == '>' {
        let mut acc = acc;
        acc.std_out.append(trim_start(rest));
        proof {
            assert(acc@ =~= OutcomeModel {
                e_code: a0.e_code,
                std_out: a0.std_out + trimmed_start(line@.drop_first()),
                std_err: a0.std_err,
            });
        }
        Ok(acc)
    } else {
        Ok(acc)
    }
}

impl Script {
    /// Parses a script text, exactly as `parse_script` describes: the
    /// blocks in source order, each with its command, its accumulated
    /// expected outcome, and its 1-indexed source line range.
    #[verifier::loop_isolation(false)]
    pub fn read(text: &str) -> (r: Result<Script, Error>)
        requires
            text@.len() < usize::MAX,
        ensures
            match r {
                Ok(s) => parse_script(text@) == Ok::<Seq<BlockModel>, Error>(s@),
                Err(e) => parse_script(text@) == Err::<Seq<BlockModel>, Error>(e),
            },
    {
        let lines = split_lines(text);
        let ghost lv = lines@.map_values(|l: String| l@);
        proof {
            lemma_lines_of_count(text@);
        }
        let mut commands: Vec<CommandAndExpectedOutcome> = Vec::new();
        let mut i: usize = 0;
        proof {
            assert(commands@.map_values(|b: CommandAndExpectedOutcome| b@)
                =~= Seq::<BlockModel>::empty());
        }
        while i < lines.len()
            invariant
                0 <= i <= lines.len(),
                match parse_from(lv, i as int) {
                    Ok(rest) => parse_from(lv, 0) == Ok::<Seq<BlockModel>, Error>(
                        commands@.map_values(|b: CommandAndExpectedOutcome| b@) + rest,
                    ),
                    Err(e) => parse_from(lv, 0) == Err::<Seq<BlockModel>, Error>(e),
                },
            decreases lines.len() - i,
        {
            let first = lines[i].as_str();
            if starts_with_char(first, '$') {
                let stripped = first.substring_char(1, first.unicode_len());
                proof {
                    assert(stripped@ =~= lv[i as int].drop_first());
                }
                let command = match Command::new(stripped) {
                    Ok(c) => c,
                    Err(e) => {
                        return Err(e);
                    },
                };
                let mut expected = Outcome::default();
                let start = i + 1;
                let mut j = i + 1;
                while j < lines.len() && !starts_with_char(lines[j].as_str(), '$')
                    invariant
                        i + 1 <= j <= lines.len(),
                        forall|t: int| i + 1 <= t < j ==> !starts_with(#[trigger] lv[t], '$'),
                        fold_expect(lv, i + 1, default_outcome()) == fold_expect(
                            lv,
                            j as int,
                            expected@,
                        ),
                    decreases lines.len() - j,
                {
                    expected = match apply_annotation(expected, lines[j].as_str()) {
                        Ok(a) => a,
                        Err(e) => {
                            return Err(e);
                        },
                    };
                    j = j + 1;
                }
                proof {
                    lemma_block_end_is(lv, i + 1, j as int);
                    assert(fold_expect(lv, j as int, expected@) == Ok::<OutcomeModel, Error>(
                        expected@,
                    ));
                }
                let range = SourceRange { start, end: j + 1 };
                let ghost old_cmds = commands@;
                let block = CommandAndExpectedOutcome { command, expected_outcome: expected, range };
                let ghost bm = block@;
                commands.push(block);
                proof {
                    let f = |b: CommandAndExpectedOutcome| b@;
                    assert(commands@.map_values(f) =~= old_cmds.map_values(f).push(bm));
                    match parse_from(lv, j as int) {
                        Ok(rest) => {
                            assert(parse_from(lv, i as int) == Ok::<Seq<BlockModel>, Error>(
                                seq![bm] + rest,
                            ));
                            assert(old_cmds.map_values(f) + (seq![bm] + rest) =~= commands@
                                .map_values(f) + rest);
                        },
                        Err(_) => {},
                    }
                }
                i = j;
            } else {
                i = i + 1;
            }
        }
        proof {
            assert(commands@.map_values(|b: CommandAndExpectedOutcome| b@)
                + Seq::<BlockModel>::empty() =~= commands@.map_values(
                |b: CommandAndExpectedOutcome| b@,
            ));
        }
        Ok(Script { commands })
    }
}

/// The verdict of evaluating a script: every block's command produced
/// the outcome the script expected, or the first block that did not,
/// with its source range, its original command line, the expected
/// outcome and the actual one.
#[derive(Debug)]
pub enum Evaluation {
    Pass,
    Fail(SourceRange, String, Outcome, Outcome),
}

impl Evaluation {
    /// Did the evaluation find a mismatch?
    pub fn failed(&self) -> (r: bool)
        ensures
            r == !(self matches Evaluation::Pass),
    {
        match self {
            Evaluation::Pass => false,
            Evaluation::Fail(_, _, _, _) => true,
        }
    }
}

impl CommandAndExpectedOutcome {
    /// Compares the actual outcome of running this block's command
    /// with the expected one: `Pass` on an exact match, otherwise a
    /// `Fail` carrying the block's source range, its original command
    /// line, the expected outcome and the actual one.
    pub fn evaluate(&self, actual: &Outcome) -> (r: Evaluation)
        ensures
            actual@ == self@.expected ==> r matches Evaluation::Pass,
            actual@ != self@.expected ==> (r matches Evaluation::Fail(range, raw, expected, got)
                && range == self.range && raw@ == self@.command.raw && expected@ == self@.expected
                && got@ == actual@),
    {
        if *actual == self.expected_outcome {
            Evaluation::Pass
        } else {
            Evaluation::Fail(
                self.range,
                self.command.raw_line(),
                self.expected_outcome.duplicate(),
                actual.duplicate(),
            )
        }
    }
}

/// The views of a sequence of outcomes.
pub open spec fn outcome_views(os: Seq<Outcome>) -> Seq<OutcomeModel> {
    os.map_values(|o: Outcome| o@)
}

/// The index of the first block whose expected outcome the actual one
/// at the same position misses; the length of the shorter sequence
/// when every pair agrees.
pub open spec fn first_mismatch(blocks: Seq<BlockModel>, actuals: Seq<OutcomeModel>) -> int
    decreases blocks.len(),
{
    if blocks.len() == 0 || actuals.len() == 0 {
        0
    } else if blocks[0].expected != actuals[0] {
        0
    } else {
        1 + first_mismatch(blocks.drop_first(), actuals.drop_first())
    }
}

/// An index below which every pair agrees, and at which (if both
/// sequences reach it) they do not, is `first_mismatch`.
pub proof fn lemma_first_mismatch_is(blocks: Seq<BlockModel>, actuals: Seq<OutcomeModel>, k: int)
    requires
        0 <= k <= blocks.len(),
        0 <= k <= actuals.len(),
        forall|j: int| 0 <= j < k ==> #[trigger] blocks[j].expected == actuals[j],
        k < blocks.len() && k < actuals.len() ==> blocks[k].expected != actuals[k],
        k == blocks.len() || k == actuals.len() || blocks[k].expected != actuals[k],
    ensures
        first_mismatch(blocks, actuals) == k,
    decreases k,
{
    if k > 0 {
        assert(blocks[0].expected == actuals[0]);
        let bt = blocks.drop_first();
        let at = actuals.drop_first();
        assert(forall|j: int| 0 <= j < k - 1 ==> #[trigger] bt[j].expected == at[j]);
        lemma_first_mismatch_is(bt, at, k - 1);
    }
}

/// Fail-fast: when the block at `k` is the first whose expected
/// outcome the actual one misses, the evaluation settles there,
/// whatever stands after it — `Script::evaluate` then returns the
/// `Fail` verdict for block `k` and never asks for a later block.
pub proof fn lemma_fail_fast(blocks: Seq<BlockModel>, actuals: Seq<OutcomeModel>, k: int)
    requires
        0 <= k < blocks.len(),
        k < actuals.len(),
        forall|j: int| 0 <= j < k ==> #[trigger] blocks[j].expected == actuals[j],
        blocks[k].expected != actuals[k],
    ensures
        first_mismatch(blocks, actuals) == k,
        first_mismatch(blocks, actuals) < blocks.len(),
        first_mismatch(blocks, actuals) < actuals.len(),
{
    lemma_first_mismatch_is(blocks, actuals, k);
}

/// Parsing is a function of the text alone: two parses of the same
/// script text yield the same blocks, with the same commands, the
/// same expected outcomes and the same source ranges.
pub proof fn lemma_parse_deterministic(text: Seq<char>, a: Seq<BlockModel>, b: Seq<BlockModel>)
    requires
        parse_script(text) == Ok::<Seq<BlockModel>, Error>(a),
        parse_script(text) == Ok::<Seq<BlockModel>, Error>(b),
    ensures
        a == b,
{
}

/// A killed-by-signal expectation (a `?` line with nothing after it)
/// is distinct from any exit code, zero included: the two outcomes
/// never compare equal.
pub proof fn lemma_signal_not_exit(expected: OutcomeModel, actual: OutcomeModel)
    requires
        expected.e_code is None,
        actual.e_code is Some,
    ensures
        expected != actual,
{
}

/// What the evaluation needs next: run one more block's command, or
/// the verdict is settled.
#[derive(Debug)]
pub enum EvalStep {
    /// Run the command of the block with this index, and come back
    /// with its actual outcome appended.
    Run(usize),
    /// The verdict is settled; no further block is ever run.
    Finished(Evaluation),
}

impl Script {
    /// The number of blocks.
    pub fn len(&self) -> (r: usize)
        ensures
            r == self@.len(),
    {
        self.commands.len()
    }

    /// The block at index `i`.
    pub fn block(&self, i: usize) -> (r: &CommandAndExpectedOutcome)
        requires
            i < self@.len(),
        ensures
            r@ == self@[i as int],
    {
        &self.commands[i]
    }

    /// Drives the evaluation.  `actuals` holds, in block order, the
    /// outcomes of the commands run so far.  The result either names
    /// the next block whose command must be run, or carries the
    /// settled verdict — `Fail` for the first block whose actual
    /// outcome mismatches (later blocks are never requested), and
    /// `Pass` when every block matched.
    #[verifier::loop_isolation(false)]
    pub fn evaluate(&self, actuals: &Vec<Outcome>) -> (r: EvalStep)
        ensures
            ({
                let blocks = self@;
                let outs = outcome_views(actuals@);
                let m = first_mismatch(blocks, outs);
                if m < blocks.len() && m < outs.len() {
                    r matches EvalStep::Finished(ev) && (ev matches Evaluation::Fail(
                        range,
                        raw,
                        expected,
                        got,
                    ) && range.start == blocks[m].start && range.end == blocks[m].end && raw@
                        == blocks[m].command.raw && expected@ == blocks[m].expected && got@
                        == outs[m])
                } else if blocks.len() <= outs.len() {
                    r matches EvalStep::Finished(ev) && ev matches Evaluation::Pass
                } else {
                    r matches EvalStep::Run(i) && i == outs.len()
                }
            }),
    {
        let ghost blocks = self@;
        let ghost outs = outcome_views(actuals@);
        let mut k: usize = 0;
        while k < self.commands.len() && k < actuals.len()
            invariant
                0 <= k <= self.commands.len(),
                k <= actuals.len(),
                forall|j: int| 0 <= j < k ==> #[trigger] blocks[j].expected == outs[j],
            decreases self.commands.len() - k,
        {
            let v = self.commands[k].evaluate(&actuals[k]);
            proof {
                assert(blocks[k as int] == self.commands@[k as int]@);
                assert(outs[k as int] == actuals@[k as int]@);
            }
            if v.failed() {
                proof {
                    lemma_first_mismatch_is(blocks, outs, k as int);
                }
                return EvalStep::Finished(v);
            }
            k = k + 1;
        }
        proof {
            lemma_first_mismatch_is(blocks, outs, k as int);
        }
        if actuals.len() >= self.commands.len() {
            EvalStep::Finished(Evaluation::Pass)
        } else {
            EvalStep::Run(actuals.len())
        }
    }
}

} // verus!
