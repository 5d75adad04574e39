//! The lines that show progress.

use vstd::prelude::*;
use vstd::string::*;

use crate::display_width::{columns_of, cut_text, display_width, text_columns, truncate_display_text};
use crate::text::{append_decimal, concat, decimal, digit_char};

verus! {

/// The width of the bar of a single file.
pub const SINGLE_PROGRESS_BAR_WIDTH: usize = 24;

/// The width of the bars of a batch.
pub const BATCH_PROGRESS_BAR_WIDTH: usize = 10;

/// The columns of a line where the terminal does not tell its own.
pub const DEFAULT_PROGRESS_LINE_BUDGET: usize = 120;

/// Nanoseconds of a second.
pub const NANOS_PER_SECOND: u64 = 1_000_000_000;

/// Samples done and samples in all.
#[derive(Debug, Clone, Copy, PartialEq, Eq, Structural)]
pub struct SampleProgress {
    pub processed_samples: u64,
    pub total_samples: u64,
}

/// What is shown of a moment.
#[derive(Debug, Clone)]
pub struct ProgressDisplay {
    pub filename: String,
    pub overall: SampleProgress,
    pub file: Option<SampleProgress>,
    pub phase_label: Option<&'static str>,
}

/// The contents of a [`ProgressDisplay`].
pub struct DisplayView {
    pub filename: Seq<char>,
    pub overall: SampleProgress,
    pub file: Option<SampleProgress>,
    pub phase_label: Option<Seq<char>>,
}

impl View for ProgressDisplay {
    type V = DisplayView;

    open spec fn view(&self) -> DisplayView {
        DisplayView {
            filename: self.filename@,
            overall: self.overall,
            file: self.file,
            phase_label: match self.phase_label {
                Some(label) => Some(label@),
                None => None,
            },
        }
    }
}

/// The measured part of a progress line: how much of the bar is filled, the share in per
/// cent, the time left and the rates.
#[derive(Debug, Clone)]
pub struct ProgressTexts {
    pub filled: usize,
    pub percent: String,
    pub eta_seconds: Option<u64>,
    pub input_rate: String,
    pub output_rate: String,
    pub total_rate: String,
}

/// The contents of [`ProgressTexts`].
pub struct TextsView {
    pub filled: nat,
    pub percent: Seq<char>,
    pub eta_seconds: Option<u64>,
    pub input_rate: Seq<char>,
    pub output_rate: Seq<char>,
    pub total_rate: Seq<char>,
}

impl View for ProgressTexts {
    type V = TextsView;

    open spec fn view(&self) -> TextsView {
        TextsView {
            filled: self.filled as nat,
            percent: self.percent@,
            eta_seconds: self.eta_seconds,
            input_rate: self.input_rate@,
            output_rate: self.output_rate@,
            total_rate: self.total_rate@,
        }
    }
}

/// A number below 100 with two digits.
pub open spec fn two_digits(value: nat) -> Seq<char> {
    seq![digit_char(value / 10), digit_char(value % 10)]
}

/// A duration as hours, minutes and seconds; hours only where there are any.
pub open spec fn clock_text(seconds: nat) -> Seq<char> {
    let tail = two_digits((seconds % 3600) / 60) + ":"@ + two_digits(seconds % 60);
    if seconds >= 3600 {
        decimal(seconds / 3600) + ":"@ + tail
    } else {
        tail
    }
}

fn append_two_digits(text: &mut String, value: u64)
    requires
        value < 100,
    ensures
        final(text)@ == old(text)@ + two_digits(value as nat),
{
    if value < 10 {
        text.push('0');
    }
    append_decimal(text, value);
    proof {
        reveal_with_fuel(decimal, 3);
        assert(digit_char(0) == '0');
        assert(text@ == old(text)@ + two_digits(value as nat));
    }
}

/// A duration as hours, minutes and seconds.
pub fn format_clock(total_seconds: u64) -> (text: String)
    ensures
        text@ == clock_text(total_seconds as nat),
{
    let hours: u64 = total_seconds / 3_600;
    let mut text = String::new();
    if hours > 0 {
        append_decimal(&mut text, hours);
        text.append(":");
    }
    append_two_digits(&mut text, (total_seconds % 3_600) / 60);
    text.append(":");
    append_two_digits(&mut text, total_seconds % 60);
    assert(text@ == clock_text(total_seconds as nat));
    text
}

/// A character a number of times.
pub open spec fn repeated(c: char, count: nat) -> Seq<char> {
    Seq::new(count, |i: int| c)
}

fn push_repeated(text: &mut String, c: char, count: usize)
    ensures
        final(text)@ == old(text)@ + repeated(c, count as nat),
{
    let ghost before = text@;
    let mut index: usize = 0;
    assert(text@ == before + repeated(c, 0));
    while index < count
        invariant
            index <= count,
            text@ == before + repeated(c, index as nat),
        decreases count - index,
    {
        text.push(c);
        index = index + 1;
        assert(text@ == before + repeated(c, index as nat));
    }
}

/// A bar of which a part is filled.
pub open spec fn bar_text(filled: nat, width: nat) -> Seq<char> {
    if filled >= width {
        "["@ + repeated('=', width) + "]"@
    } else {
        "["@ + repeated('=', filled) + ">"@ + repeated('-', (width - filled - 1) as nat) + "]"@
    }
}

/// A bar of which a part is filled.
pub fn format_progress_bar(filled: usize, width: usize) -> (text: String)
    ensures
        text@ == bar_text(filled as nat, width as nat),
{
    let mut text = "[".to_owned();
    if filled >= width {
        push_repeated(&mut text, '=', width);
    } else {
        push_repeated(&mut text, '=', filled);
        text.append(">");
        push_repeated(&mut text, '-', width - filled - 1);
    }
    text.append("]");
    text
}

/// A bar keeps its width.
pub proof fn law_bars_keep_their_width(filled: nat, width: nat)
    ensures
        bar_text(filled, width).len() == width + 2,
{
    reveal_strlit("[");
    reveal_strlit("]");
    reveal_strlit(">");
}

/// What stands behind the name in a progress line.
pub open spec fn suffix_text(texts: TextsView, elapsed_seconds: nat, bar_width: nat) -> Seq<char> {
    " | "@ + bar_text(texts.filled, bar_width) + " "@ + texts.percent + "% | Elapsed "@ + clock_text(
        elapsed_seconds,
    ) + " | ETA "@ + match texts.eta_seconds {
        Some(eta) => clock_text(eta as nat),
        None => "--:--"@,
    } + " | Rate In "@ + texts.input_rate + " | Out "@ + texts.output_rate + " | Total "@
        + texts.total_rate
}

/// What stands behind the name in a progress line.
pub fn format_progress_suffix(texts: &ProgressTexts, elapsed_seconds: u64, bar_width: usize)
    -> (suffix: String)
    ensures
        suffix@ == suffix_text(texts@, elapsed_seconds as nat, bar_width as nat),
{
    let bar = format_progress_bar(texts.filled, bar_width);
    let mut suffix = concat(" | ", bar.as_str());
    suffix.append(" ");
    suffix.append(texts.percent.as_str());
    suffix.append("% | Elapsed ");
    let elapsed = format_clock(elapsed_seconds);
    suffix.append(elapsed.as_str());
    suffix.append(" | ETA ");
    let eta = match texts.eta_seconds {
        Some(eta) => format_clock(eta),
        None => "--:--".to_owned(),
    };
    suffix.append(eta.as_str());
    suffix.append(" | Rate In ");
    suffix.append(texts.input_rate.as_str());
    suffix.append(" | Out ");
    suffix.append(texts.output_rate.as_str());
    suffix.append(" | Total ");
    suffix.append(texts.total_rate.as_str());
    suffix
}

/// The columns left for a name in front of a suffix, if there are any.
pub open spec fn name_columns(suffix_width: nat, max_width: nat) -> Option<nat> {
    if suffix_width >= max_width {
        None
    } else {
        Some((max_width - suffix_width) as nat)
    }
}

/// The columns left for a name in front of a suffix, if there are any.
pub fn columns_for_name(suffix_width: usize, max_width: usize) -> (columns: Option<usize>)
    ensures
        match columns {
            Some(found) => name_columns(suffix_width as nat, max_width as nat) == Some(
                found as nat,
            ),
            None => name_columns(suffix_width as nat, max_width as nat) is None,
        },
{
    if suffix_width >= max_width {
        None
    } else {
        Some(max_width - suffix_width)
    }
}

/// A text that was cut to a number of columns.
pub open spec fn fitted(text: Seq<char>, max_width: nat) -> Seq<char> {
    cut_text(text, text_columns(text), columns_of(text), max_width)
}

/// A name with a suffix, in a line of so many columns.
pub open spec fn line_text(name: Seq<char>, suffix: Seq<char>, line_budget: Option<usize>) -> Seq<
    char,
> {
    match line_budget {
        None => name + suffix,
        Some(max_width) => match name_columns(text_columns(suffix), max_width as nat) {
            None => fitted(name + suffix, max_width as nat),
            Some(columns) => fitted(name, columns) + suffix,
        },
    }
}

/// A name with a suffix, in a line of so many columns.
pub fn format_label_with_progress_suffix(label: &str, suffix: &str, line_budget: Option<usize>)
    -> (line: String)
    ensures
        line@ == line_text(label@, suffix@, line_budget),
{
    match line_budget {
        None => concat(label, suffix),
        Some(max_width) => match columns_for_name(display_width(suffix), max_width) {
            None => {
                let whole = concat(label, suffix);
                truncate_display_text(whole.as_str(), max_width)
            },
            Some(columns) => {
                let name = truncate_display_text(label, columns);
                concat(name.as_str(), suffix)
            },
        },
    }
}

/// The lines of a moment.
#[derive(Debug, Clone)]
pub struct ProgressFrame {
    pub lines: Vec<String>,
}

/// The contents of lines.
pub open spec fn line_views(lines: Seq<String>) -> Seq<Seq<char>> {
    lines.map_values(|line: String| line@)
}

/// A label with a bar in front of a suffix.
pub open spec fn labelled_suffix(label: Seq<char>, suffix: Seq<char>) -> Seq<char> {
    " | "@ + label + suffix
}

/// The lines of a moment: one for a single file, two for a batch.
pub open spec fn frame_lines(
    display: DisplayView,
    overall: TextsView,
    file: TextsView,
    batch_seconds: nat,
    file_seconds: nat,
    line_budget: Option<usize>,
) -> Seq<Seq<char>> {
    match display.file {
        Some(_) => seq![
            line_text(
                "Batch"@,
                suffix_text(overall, batch_seconds, BATCH_PROGRESS_BAR_WIDTH as nat),
                line_budget,
            ),
            line_text(
                display.filename,
                labelled_suffix(
                    match display.phase_label {
                        Some(label) => label,
                        None => "File"@,
                    },
                    suffix_text(file, file_seconds, BATCH_PROGRESS_BAR_WIDTH as nat),
                ),
                line_budget,
            ),
        ],
        None => {
            let suffix = suffix_text(overall, batch_seconds, SINGLE_PROGRESS_BAR_WIDTH as nat);
            seq![
                line_text(
                    display.filename,
                    match display.phase_label {
                        Some(label) => labelled_suffix(label, suffix),
                        None => suffix,
                    },
                    line_budget,
                ),
            ]
        },
    }
}

/// A label with a bar in front of a suffix.
fn label_suffix(label: &str, suffix: &str) -> (text: String)
    ensures
        text@ == labelled_suffix(label@, suffix@),
{
    let opening = concat(" | ", label);
    concat(opening.as_str(), suffix)
}

/// The lines of a moment: one for a single file, two for a batch.
pub fn format_progress_frame_with_budget(
    display: &ProgressDisplay,
    overall: &ProgressTexts,
    file: &ProgressTexts,
    batch_seconds: u64,
    file_seconds: u64,
    line_budget: Option<usize>,
) -> (frame: ProgressFrame)
    ensures
        line_views(frame.lines@) == frame_lines(
            display@,
            overall@,
            file@,
            batch_seconds as nat,
            file_seconds as nat,
            line_budget,
        ),
{
    let mut lines: Vec<String> = Vec::new();
    if display.file.is_some() {
        let overall_suffix = format_progress_suffix(
            overall,
            batch_seconds,
            BATCH_PROGRESS_BAR_WIDTH,
        );
        let file_suffix = format_progress_suffix(file, file_seconds, BATCH_PROGRESS_BAR_WIDTH);
        let label = match display.phase_label {
            Some(label) => label,
            None => "File",
        };
        let suffix = label_suffix(label, file_suffix.as_str());
        lines.push(
            format_label_with_progress_suffix("Batch", overall_suffix.as_str(), line_budget),
        );
        lines.push(
            format_label_with_progress_suffix(
                display.filename.as_str(),
                suffix.as_str(),
                line_budget,
            ),
        );
    } else {
        let plain = format_progress_suffix(overall, batch_seconds, SINGLE_PROGRESS_BAR_WIDTH);
        let suffix = match display.phase_label {
            Some(label) => label_suffix(label, plain.as_str()),
            None => plain,
        };
        lines.push(
            format_label_with_progress_suffix(
                display.filename.as_str(),
                suffix.as_str(),
                line_budget,
            ),
        );
    }
    assert(line_views(lines@) == frame_lines(
        display@,
        overall@,
        file@,
        batch_seconds as nat,
        file_seconds as nat,
        line_budget,
    ));
    ProgressFrame { lines }
}

/// The nanoseconds until a clock shows the next second.
pub fn time_until_next_second(elapsed: u64) -> (delay: u64)
    ensures
        delay == NANOS_PER_SECOND - elapsed % NANOS_PER_SECOND,
        1 <= delay <= NANOS_PER_SECOND,
        (elapsed + delay) % NANOS_PER_SECOND as int == 0,
{
    NANOS_PER_SECOND - elapsed % NANOS_PER_SECOND
}

} // verus!
