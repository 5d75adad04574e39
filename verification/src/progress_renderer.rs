//! Drawing progress lines over one another.

use vstd::prelude::*;
use vstd::string::*;
use vstd::utf8::encode_utf8;

use crate::bytes::append_bytes;
use crate::display_width::{display_width, rendered_row_count, row_count, text_columns};
use crate::progress_lines::{line_views, ProgressFrame};
use crate::text::{append_decimal, decimal};

verus! {

/// Draws the lines of a moment over those of the moment before.
#[derive(Debug, Clone)]
pub struct ProgressRenderer {
    writer: Vec<u8>,
    interactive: bool,
    has_drawn: bool,
    last_line_widths: Vec<usize>,
    last_frame_rows: usize,
    line_budget: Option<usize>,
}

/// What a renderer has drawn.
pub struct RendererView {
    pub output: Seq<u8>,
    pub interactive: bool,
    pub has_drawn: bool,
    pub widths: Seq<usize>,
    pub rows: nat,
    pub line_budget: Option<usize>,
}

/// Moves the cursor to the first row of what was drawn.
pub open spec fn rewind_bytes(view: RendererView) -> Seq<u8> {
    if view.has_drawn && view.rows > 1 {
        encode_utf8("\x1b["@ + decimal((view.rows - 1) as nat) + "A"@)
    } else {
        Seq::empty()
    }
}

/// The width of a line, 0 where there is none.
pub open spec fn width_at(widths: Seq<usize>, index: int) -> nat {
    if 0 <= index < widths.len() {
        widths[index] as nat
    } else {
        0
    }
}

/// A line, empty where there is none.
pub open spec fn line_at(lines: Seq<Seq<char>>, index: int) -> Seq<char> {
    if 0 <= index < lines.len() {
        lines[index]
    } else {
        Seq::empty()
    }
}

/// The spaces that cover the rest of an earlier line.
pub open spec fn cover(width: nat, earlier: nat) -> nat {
    if earlier > width {
        (earlier - width) as nat
    } else {
        0
    }
}

/// A line over an earlier one.
pub open spec fn drawn_line(
    lines: Seq<Seq<char>>,
    widths: Seq<usize>,
    earlier: Seq<usize>,
    index: int,
) -> Seq<u8> {
    line_bytes(
        line_at(lines, index),
        index,
        width_at(widths, index),
        width_at(earlier, index),
    )
}

/// The first lines of a moment over those of the moment before.
pub open spec fn drawn_lines(
    lines: Seq<Seq<char>>,
    widths: Seq<usize>,
    earlier: Seq<usize>,
    count: nat,
) -> Seq<u8>
    decreases count,
{
    if count == 0 {
        Seq::empty()
    } else {
        drawn_lines(lines, widths, earlier, (count - 1) as nat) + drawn_line(
            lines,
            widths,
            earlier,
            count - 1,
        )
    }
}

/// The rows of the first lines, as far as they can be counted.
pub open spec fn drawn_rows(widths: Seq<usize>, line_budget: Option<usize>, count: nat) -> nat
    decreases count,
{
    if count == 0 {
        0
    } else {
        let rows = drawn_rows(widths, line_budget, (count - 1) as nat) + row_count(
            width_at(widths, count - 1),
            line_budget,
        );
        if rows > usize::MAX {
            usize::MAX as nat
        } else {
            rows
        }
    }
}

/// The larger of two numbers of lines.
pub open spec fn line_total(lines: nat, earlier: nat) -> nat {
    if lines >= earlier {
        lines
    } else {
        earlier
    }
}

/// A renderer after it has drawn lines of the given widths.
pub open spec fn after_drawing(view: RendererView, lines: Seq<Seq<char>>, widths: Seq<usize>)
    -> RendererView {
    let count = line_total(lines.len(), view.widths.len());
    RendererView {
        output: view.output + rewind_bytes(view) + drawn_lines(lines, widths, view.widths, count),
        has_drawn: true,
        widths,
        rows: drawn_rows(widths, view.line_budget, count),
        ..view
    }
}

/// The widths of lines.
pub open spec fn line_widths(lines: Seq<Seq<char>>) -> Seq<nat> {
    lines.map_values(|line: Seq<char>| text_columns(line))
}

impl View for ProgressRenderer {
    type V = RendererView;

    closed spec fn view(&self) -> RendererView {
        RendererView {
            output: self.writer@,
            interactive: self.interactive,
            has_drawn: self.has_drawn,
            widths: self.last_line_widths@,
            rows: self.last_frame_rows as nat,
            line_budget: self.line_budget,
        }
    }
}

/// Appends spaces.
fn push_spaces(output: &mut Vec<u8>, count: usize)
    ensures
        final(output)@ == old(output)@ + Seq::new(count as nat, |i: int| 0x20u8),
{
    let ghost before = output@;
    let mut index: usize = 0;
    assert(output@ == before + Seq::new(0, |i: int| 0x20u8));
    while index < count
        invariant
            index <= count,
            output@ == before + Seq::new(index as nat, |i: int| 0x20u8),
        decreases count - index,
    {
        output.push(0x20);
        index = index + 1;
        assert(output@ == before + Seq::new(index as nat, |i: int| 0x20u8));
    }
}

/// A line with the bytes around it.
pub open spec fn line_bytes(line: Seq<char>, index: int, width: nat, previous: nat) -> Seq<u8> {
    (if index > 0 {
        seq![0x0au8]
    } else {
        Seq::empty()
    }) + seq![0x0du8] + encode_utf8(line) + Seq::new(cover(width, previous), |i: int| 0x20u8)
}

/// Appends a line that covers an earlier one.
fn draw_line(output: &mut Vec<u8>, frame: &ProgressFrame, index: usize, width: usize, previous: usize)
    ensures
        final(output)@ == old(output)@ + line_bytes(
            line_at(line_views(frame.lines@), index as int),
            index as int,
            width as nat,
            previous as nat,
        ),
{
    let ghost lines = line_views(frame.lines@);
    if index > 0 {
        output.push(0x0a);
    }
    output.push(0x0d);
    if index < frame.lines.len() {
        assert(lines[index as int] == frame.lines@[index as int]@);
        append_bytes(output, frame.lines[index].as_str().as_bytes());
    } else {
        assert(encode_utf8(Seq::<char>::empty()) == Seq::<u8>::empty()) by {
            reveal_with_fuel(encode_utf8, 2);
        }
    }
    if previous > width {
        push_spaces(output, previous - width);
    }
    assert(output@ == old(output)@ + line_bytes(
        line_at(lines, index as int),
        index as int,
        width as nat,
        previous as nat,
    ));
}

impl ProgressRenderer {
    /// A renderer that has drawn nothing.
    pub fn with_line_budget(writer: Vec<u8>, interactive: bool, line_budget: Option<usize>) -> (renderer:
        Self)
        ensures
            renderer@ == (RendererView {
                output: writer@,
                interactive,
                has_drawn: false,
                widths: Seq::empty(),
                rows: 0,
                line_budget,
            }),
    {
        let renderer = ProgressRenderer {
            writer,
            interactive,
            has_drawn: false,
            last_line_widths: Vec::new(),
            last_frame_rows: 0,
            line_budget,
        };
        assert(renderer.last_line_widths@ == Seq::<usize>::empty());
        renderer
    }

    /// The columns of a line.
    pub fn line_budget(&self) -> (budget: Option<usize>)
        ensures
            budget == self@.line_budget,
    {
        self.line_budget
    }

    /// What was drawn so far.
    pub fn output(&self) -> (output: &[u8])
        ensures
            output@ == self@.output,
    {
        self.writer.as_slice()
    }

    /// Hands out what was drawn since the last time.
    pub fn take_output(&mut self) -> (output: Vec<u8>)
        ensures
            output@ == old(self)@.output,
            final(self)@ == (RendererView { output: Seq::empty(), ..old(self)@ }),
    {
        let mut output: Vec<u8> = Vec::new();
        output.append(&mut self.writer);
        proof {
            assert(output@ == old(self)@.output);
            assert(self.writer@ == Seq::<u8>::empty());
        }
        output
    }

    /// Draws the lines of a moment, if anyone watches.
    pub fn render(&mut self, frame: &ProgressFrame)
        ensures
            if old(self)@.interactive {
                exists|widths: Seq<usize>|
                    #![trigger after_drawing(old(self)@, line_views(frame.lines@), widths)]
                    final(self)@ == after_drawing(old(self)@, line_views(frame.lines@), widths)
                        && widths.map_values(|width: usize| width as nat) == line_widths(
                        line_views(frame.lines@),
                    )
            } else {
                final(self)@ == old(self)@
            },
    {
        if !self.interactive {
            return;
        }
        let ghost lines = line_views(frame.lines@);
        let mut widths: Vec<usize> = Vec::new();
        let mut index: usize = 0;
        while index < frame.lines.len()
            invariant
                index <= frame.lines@.len(),
                lines == line_views(frame.lines@),
                widths@.len() == index,
                forall|i: int| 0 <= i < index ==> #[trigger] widths@[i] == text_columns(lines[i]),
            decreases frame.lines.len() - index,
        {
            assert(lines[index as int] == frame.lines@[index as int]@);
            widths.push(display_width(frame.lines[index].as_str()));
            index = index + 1;
        }
        let ghost found = widths@;
        assert(found.map_values(|width: usize| width as nat) == line_widths(lines));
        self.draw_frame(frame, widths);
        assert(self@ == after_drawing(old(self)@, lines, found));
    }

    /// Draws lines of the given widths over those of the moment before.
    pub fn draw_frame(&mut self, frame: &ProgressFrame, widths: Vec<usize>)
        requires
            widths@.len() == frame.lines@.len(),
        ensures
            final(self)@ == after_drawing(old(self)@, line_views(frame.lines@), widths@),
    {
        let ghost lines = line_views(frame.lines@);
        let ghost start = self@;
        let ghost earlier = self.last_line_widths@;
        if self.has_drawn && self.last_frame_rows > 1 {
            let mut rewind = "\x1b[".to_owned();
            append_decimal(&mut rewind, self.last_frame_rows as u64 - 1);
            rewind.append("A");
            append_bytes(&mut self.writer, rewind.as_str().as_bytes());
        }
        let ghost opening = self.writer@;
        assert(opening == start.output + rewind_bytes(start));
        let earlier_lines: usize = self.last_line_widths.len();
        let total_lines: usize = if frame.lines.len() >= earlier_lines {
            frame.lines.len()
        } else {
            earlier_lines
        };
        let mut rows: usize = 0;
        let mut index: usize = 0;
        assert(self.writer@ == opening + drawn_lines(lines, widths@, earlier, 0));
        while index < total_lines
            invariant
                index <= total_lines,
                total_lines == line_total(lines.len(), earlier.len()),
                lines == line_views(frame.lines@),
                widths@.len() == frame.lines@.len(),
                earlier == self.last_line_widths@,
                self.interactive == start.interactive,
                self.line_budget == start.line_budget,
                self.writer@ == opening + drawn_lines(lines, widths@, earlier, index as nat),
                rows == drawn_rows(widths@, start.line_budget, index as nat),
            decreases total_lines - index,
        {
            let width: usize = if index < widths.len() {
                widths[index]
            } else {
                0
            };
            let previous: usize = if index < self.last_line_widths.len() {
                self.last_line_widths[index]
            } else {
                0
            };
            draw_line(&mut self.writer, frame, index, width, previous);
            proof {
                let line = drawn_line(lines, widths@, earlier, index as int);
                let drawn = drawn_lines(lines, widths@, earlier, index as nat);
                assert(opening + drawn + line == opening + (drawn + line));
            }
            let line_rows: usize = rendered_row_count(width, self.line_budget);
            rows = match rows.checked_add(line_rows) {
                Some(rows) => rows,
                None => usize::MAX,
            };
            index = index + 1;
        }
        self.has_drawn = true;
        self.last_line_widths = widths;
        self.last_frame_rows = rows;
    }

    /// Ends the last line, if any was drawn.
    pub fn end(&mut self)
        ensures
            final(self)@ == (RendererView {
                output: if old(self)@.has_drawn {
                    old(self)@.output.push(0x0a)
                } else {
                    old(self)@.output
                },
                ..old(self)@
            }),
    {
        if self.has_drawn {
            self.writer.push(0x0a);
        }
    }
}

/// A line with its spaces covers all of an earlier one.
pub proof fn law_earlier_lines_are_covered(width: nat, earlier: nat)
    ensures
        width + cover(width, earlier) >= earlier,
        earlier <= width ==> cover(width, earlier) == 0,
{
}

} // verus!
