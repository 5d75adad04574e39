//! What progress shows, and the numbers in its texts.

use vstd::prelude::*;

use crate::cli_plan::precedes;
use crate::cli_text::{trace_char, trace_field};
use crate::display_width::{cut_text, fitting_count, law_kept_characters_fit, row_count, summed};
use crate::hex::{digit_value, digits_value, hex_char, hex_digits};
use crate::names::lower_char;
use crate::progress::ProgressSnapshot;
use crate::progress_batch::{batch_bytes, begun, blank_recompress, blank_snapshot, bytes_of, completed_snapshot, estimate_after, file_of, first_samples, fresh_state, has_file, lemma_place_for, lemma_place_of, place_for, place_of, processed_of, processed_sum, read_sum, repaint_delay, since, started, state_after, with_file, with_recompress_snapshot, with_snapshot, without_file, written_sum, BatchView, ByteProgress, FileView, ProgressState};
use crate::progress_lines::{bar_text, clock_text, frame_lines, suffix_text, two_digits, DisplayView, TextsView};
use crate::progress_renderer::{line_bytes, rewind_bytes, RendererView};
use crate::recompress::{RecompressPhase, RecompressProgress};
use crate::text::{decimal, digit_char};

verus! {

/// The number that a decimal digit stands for.
pub open spec fn digit_of(c: char) -> int {
    c as int - '0' as int
}

/// The number that decimal digits stand for, the most significant first.
pub open spec fn numeral_value(text: Seq<char>) -> int
    decreases text.len(),
{
    if text.len() == 0 {
        0
    } else {
        10 * numeral_value(text.drop_last()) + digit_of(text.last())
    }
}

/// The numeral of a number is made of digits, starts with a zero only for the number zero, and
/// stands for the number.
pub proof fn law_numerals_stand_for_their_numbers(value: nat)
    ensures
        ({
            let text = decimal(value);
            &&& numeral_value(text) == value
            &&& text.len() >= 1
            &&& forall|i: int| 0 <= i < text.len() ==> '0' <= #[trigger] text[i] <= '9'
            &&& text[0] == '0' <==> value == 0
        }),
    decreases value,
{
    reveal_with_fuel(numeral_value, 2);
    if value < 10 {
        assert(decimal(value).drop_last() == Seq::<char>::empty());
    } else {
        law_numerals_stand_for_their_numbers(value / 10);
        let text = decimal(value);
        assert(text.drop_last() == decimal(value / 10));
        assert forall|i: int| 0 <= i < text.len() implies '0' <= #[trigger] text[i] <= '9' by {
            if i < text.len() - 1 {
                assert(text[i] == decimal(value / 10)[i]);
            }
        }
        assert(text[0] == decimal(value / 10)[0]);
    }
}

/// A clock shows hours where there are any, and minutes and seconds with two digits each,
/// between colons: they add up to the time, and there are less than sixty of each.
pub proof fn law_clocks_show_the_time(seconds: nat)
    ensures
        ({
            let text = clock_text(seconds);
            let end = text.len() as int;
            let minutes = 10 * digit_of(text[end - 5]) + digit_of(text[end - 4]);
            let rest = 10 * digit_of(text[end - 2]) + digit_of(text[end - 1]);
            let hours = if end > 5 {
                numeral_value(text.take(end - 6))
            } else {
                0
            };
            &&& end >= 5
            &&& text[end - 3] == ':'
            &&& 0 <= minutes < 60 && 0 <= rest < 60
            &&& hours * 3600 + minutes * 60 + rest == seconds
            &&& end > 5 ==> hours >= 1 && text[end - 6] == ':'
            &&& 0 <= digit_of(text[end - 5]) <= 5 && 0 <= digit_of(text[end - 4]) <= 9
            &&& 0 <= digit_of(text[end - 2]) <= 5 && 0 <= digit_of(text[end - 1]) <= 9
        }),
{
    reveal_strlit(":");
    let text = clock_text(seconds);
    let end = text.len() as int;
    let minutes = (seconds % 3600) / 60;
    let rest = seconds % 60;
    let tail = two_digits(minutes) + ":"@ + two_digits(rest);
    assert(tail.len() == 5);
    assert(tail[0] == digit_char(minutes / 10) && tail[1] == digit_char(minutes % 10));
    assert(tail[2] == ':');
    assert(tail[3] == digit_char(rest / 10) && tail[4] == digit_char(rest % 10));
    if seconds >= 3600 {
        let hours = decimal(seconds / 3600);
        law_numerals_stand_for_their_numbers(seconds / 3600);
        assert(text == hours + ":"@ + tail);
        assert(text.take(end - 6) == hours);
        assert(text[end - 6] == ':');
        assert(text[end - 5] == tail[0] && text[end - 4] == tail[1] && text[end - 3] == tail[2]);
        assert(text[end - 2] == tail[3] && text[end - 1] == tail[4]);
    }
}

/// A bar is filled from the left: a place in it is filled, is the tip, or is still open, as it
/// stands before, at or behind the part that is done.
pub proof fn law_bars_are_filled_from_the_left(filled: nat, width: nat, place: int)
    requires
        0 <= place < width,
    ensures
        ({
            let bar = bar_text(filled, width);
            &&& bar.first() == '[' && bar.last() == ']'
            &&& bar[place + 1] == '=' <==> place < filled
            &&& bar[place + 1] == '>' <==> place == filled
            &&& bar[place + 1] == '-' <==> place > filled
        }),
{
    reveal_strlit("[");
    reveal_strlit("]");
    reveal_strlit(">");
}

/// A line takes as many rows as its columns need, and one at least.
pub proof fn law_lines_take_the_rows_that_they_need(columns: nat, budget: usize)
    requires
        budget > 0,
    ensures
        ({
            let rows = row_count(columns, Some(budget));
            &&& rows >= 1
            &&& rows * budget >= columns
            &&& rows > 1 ==> (rows - 1) * budget < columns
        }),
        row_count(columns, None) == 1,
        row_count(columns, Some(0)) == 1,
{
    let width = if columns == 0 {
        1
    } else {
        columns as int
    };
    let each = budget as int;
    let rows = (width + each - 1) / each;
    vstd::arithmetic::div_mod::lemma_fundamental_div_mod(width + each - 1, each);
    let rest = (width + each - 1) % each;
    assert(rows >= 1 && rows * each >= width && (rows - 1) * each < width) by (nonlinear_arith)
        requires
            each > 0,
            width >= 1,
            width + each - 1 == each * rows + rest,
            0 <= rest < each,
    ;
    if columns == 0 {
        assert(rows == 1) by (nonlinear_arith)
            requires
                each > 0,
                rows >= 1,
                (rows - 1) * each < 1,
        ;
    }
    assert(rows * each == row_count(columns, Some(budget)) * budget);
}

/// A text that does not fit is cut: as many characters as leave a column stand in front of an
/// ellipsis, and a text that fits stays.
pub proof fn law_texts_are_cut_before_an_ellipsis(
    text: Seq<char>,
    width: nat,
    columns: Seq<usize>,
    max_width: nat,
)
    requires
        columns.len() == text.len(),
    ensures
        ({
            let cut = cut_text(text, width, columns, max_width);
            &&& max_width == 0 ==> cut.len() == 0
            &&& 0 < max_width && width <= max_width ==> cut == text
            &&& 1 < max_width && max_width < width ==> {
                let kept = cut.len() - 1;
                &&& 0 <= kept <= text.len()
                &&& cut.last() == '\u{2026}'
                &&& cut.drop_last() == text.take(kept)
                &&& summed(columns.take(kept)) < max_width
                &&& kept < text.len() ==> summed(columns.take(kept + 1)) >= max_width
            }
            &&& max_width == 1 && width > 1 ==> cut == seq!['\u{2026}']
        }),
{
    if 1 < max_width && max_width < width {
        let target = (max_width - 1) as nat;
        assert(columns.take(0) == Seq::<usize>::empty());
        law_kept_characters_fit(columns, target, 0);
        let kept = fitting_count(columns, target, 0) as int;
        let cut = cut_text(text, width, columns, max_width);
        assert(cut.drop_last() == text.take(kept));
    }
}

/// Hexadecimal digits are the sixteen characters that stand for the numbers below sixteen, in
/// either case of the letters, and are written in lower case.
pub proof fn law_hexadecimal_digits_are_sixteen(digit: u8, value: nat)
    requires
        digit < 128,
    ensures
        digit_value(digit) == Some(value) <==> value < 16 && lower_char(digit as char)
            == "0123456789abcdef"@[value as int],
        value < 16 ==> hex_char(value) == "0123456789abcdef"@[value as int],
{
    reveal_strlit("0123456789abcdef");
}

/// Each hexadecimal digit weighs sixteen times as much as the one behind it, where they are
/// read and where they are written.
pub proof fn law_hexadecimal_digits_weigh_sixteen(digits: Seq<u8>, digit: u8, value: nat, width: nat)
    requires
        digits_value(digits) is Some,
        digit_value(digit) is Some,
    ensures
        digits_value(digits.push(digit)) == Some(
            16 * digits_value(digits).unwrap() + digit_value(digit).unwrap(),
        ),
        hex_digits(value, width).len() == width,
        hex_digits(value, width + 1).drop_last() == hex_digits(value / 16, width),
        hex_digits(value, width + 1).last() == hex_char(value % 16),
    decreases width,
{
    assert(digits.push(digit).drop_last() == digits);
    assert(hex_digits(value, width + 1).drop_last() == hex_digits(value / 16, width));
    if width > 0 {
        law_hexadecimal_digits_weigh_sixteen(digits, digit, value / 16, (width - 1) as nat);
    }
}

/// The line of a single file opens with its name, and those of a batch with the word for it and
/// the name of the file, where the lines have room. A bar of a batch is shorter.
pub proof fn law_lines_open_with_names(
    display: DisplayView,
    overall: TextsView,
    file: TextsView,
    batch_seconds: nat,
    file_seconds: nat,
)
    ensures
        ({
            let lines = frame_lines(display, overall, file, batch_seconds, file_seconds, None);
            &&& lines.len() == if display.file is Some {
                2int
            } else {
                1
            }
            &&& lines.last().take(display.filename.len() as int) == display.filename
            &&& display.file is None && display.phase_label is None ==> lines[0]
                == display.filename + suffix_text(overall, batch_seconds, 24)
            &&& display.file is Some ==> lines[0] == "Batch"@ + suffix_text(
                overall,
                batch_seconds,
                10,
            )
            &&& display.file is Some && display.phase_label is None ==> lines[1]
                == display.filename + (" | "@ + "File"@ + suffix_text(file, file_seconds, 10))
        }),
{
    let lines = frame_lines(display, overall, file, batch_seconds, file_seconds, None);
    assert(lines.last().take(display.filename.len() as int) == display.filename);
}

/// A line is drawn from the left margin of its row, over what was there: it starts with a
/// carriage return, behind a line feed from the second line on, and spaces cover the rest of a
/// longer line from before. Drawing starts in the first row of what was drawn before.
pub proof fn law_lines_are_drawn_over_earlier_ones(
    line: Seq<char>,
    index: int,
    width: nat,
    previous: nat,
    view: RendererView,
)
    requires
        index >= 0,
    ensures
        ({
            let drawn = line_bytes(line, index, width, previous);
            let letters = vstd::utf8::encode_utf8(line);
            let opening = if index == 0 {
                seq![13u8]
            } else {
                seq![10u8, 13u8]
            };
            let spaces = drawn.skip((opening.len() + letters.len()) as int);
            &&& drawn.take(opening.len() as int) == opening
            &&& drawn.subrange(opening.len() as int, (opening.len() + letters.len()) as int)
                == letters
            &&& forall|i: int| 0 <= i < spaces.len() ==> #[trigger] spaces[i] == 32
            &&& width + spaces.len() >= previous
            &&& spaces.len() > 0 ==> width + spaces.len() == previous
        }),
        !view.has_drawn || view.rows <= 1 ==> rewind_bytes(view).len() == 0,
        view.has_drawn && view.rows > 1 ==> rewind_bytes(view) == vstd::utf8::encode_utf8(
            "\x1b["@ + decimal((view.rows - 1) as nat) + "A"@,
        ),
{
    let drawn = line_bytes(line, index, width, previous);
    let letters = vstd::utf8::encode_utf8(line);
    let opening = if index == 0 {
        seq![13u8]
    } else {
        seq![10u8, 13u8]
    };
    assert(drawn.take(opening.len() as int) == opening);
    assert(drawn.subrange(opening.len() as int, (opening.len() + letters.len()) as int)
        == letters);
}

/// An estimate is made once two updates went ahead and a quarter of a second has passed since
/// the first of them. It tells of no more samples than there are.
pub proof fn law_estimates_wait(
    state: ProgressState,
    processed: u64,
    total: u64,
    bytes: ByteProgress,
    elapsed: u64,
)
    ensures
        ({
            let after = state_after(
                state,
                if processed <= total {
                    processed
                } else {
                    total
                },
                elapsed,
            );
            &&& estimate_after(state, processed, total, bytes, elapsed) matches Some(input) ==> {
                &&& after.advancing_updates >= 2
                &&& elapsed >= after.first_advancing_elapsed.unwrap() + 250 * 1_000_000
                &&& input.processed_samples <= input.total_samples && input.total_samples == total
                &&& processed <= total ==> input.processed_samples == processed
                &&& processed > total ==> input.processed_samples == total
                &&& input.input_bytes_read == bytes.input_bytes_read
                &&& input.output_bytes_written == bytes.output_bytes_written
                &&& input.elapsed == elapsed
            }
            &&& after.advancing_updates >= 2 && after.first_advancing_elapsed is Some && elapsed
                >= after.first_advancing_elapsed.unwrap() + 250 * 1_000_000 && processed > 0
                && total > 0 ==> estimate_after(state, processed, total, bytes, elapsed) is Some
        }),
{
}

/// An update goes ahead if it tells of more samples than the one before, or of any if there was
/// none. Updates that go ahead are counted, and the time of the first of them is kept.
pub proof fn law_updates_that_go_ahead_are_counted(
    state: ProgressState,
    processed: u64,
    elapsed: u64,
)
    requires
        state.advancing_updates < u8::MAX,
    ensures
        ({
            let before: int = match state.last_processed_samples {
                Some(previous) => previous as int,
                None => 0,
            };
            let after = state_after(state, processed, elapsed);
            &&& after.last_processed_samples == Some(processed)
            &&& processed > before ==> after.advancing_updates == state.advancing_updates + 1
            &&& processed <= before ==> after.advancing_updates == state.advancing_updates
            &&& state.first_advancing_elapsed is Some ==> after.first_advancing_elapsed
                == state.first_advancing_elapsed
            &&& state.first_advancing_elapsed is None && processed > before
                ==> after.first_advancing_elapsed == Some(elapsed)
            &&& fresh_state().advancing_updates == 0
            &&& fresh_state().first_advancing_elapsed is None
        }),
{
}

/// The files of a batch stand in the order of their numbers, each once.
pub open spec fn files_are_ordered(files: Seq<FileView>) -> bool {
    forall|i: int, j: int|
        0 <= i < j < files.len() ==> (#[trigger] files[i]).file_id < (#[trigger] files[j]).file_id
}

/// The files of a batch stay in the order of their numbers: a file that is put in is the only
/// one of its number, and the others stay as they are.
pub proof fn law_files_stay_in_order(files: Seq<FileView>, file: FileView)
    requires
        files_are_ordered(files),
    ensures
        files_are_ordered(with_file(files, file)),
        with_file(files, file).contains(file),
        forall|other: FileView|
            other.file_id != file.file_id ==> (#[trigger] with_file(files, file).contains(other)
                <==> files.contains(other)),
{
    let after = with_file(files, file);
    lemma_place_of(files, file.file_id);
    match place_of(files, file.file_id) {
        Some(place) => {
            assert(after[place] == file);
            assert forall|other: FileView| other.file_id != file.file_id implies (
            #[trigger] after.contains(other) <==> files.contains(other)) by {
                if after.contains(other) {
                    let at = after.index_of(other);
                    assert(files[at] == other);
                }
                if files.contains(other) {
                    let at = files.index_of(other);
                    assert(after[at] == other);
                }
            }
        },
        None => {
            let place = place_for(files, file.file_id);
            lemma_place_between(files, file.file_id);
            assert(after[place] == file);
            assert forall|i: int, j: int| 0 <= i < j < after.len() implies (
            #[trigger] after[i]).file_id < (#[trigger] after[j]).file_id by {
                if i < place {
                    assert(after[i] == files[i]);
                }
                if j < place {
                    assert(after[j] == files[j]);
                }
                if i > place {
                    assert(after[i] == files[i - 1]);
                }
                if j > place {
                    assert(after[j] == files[j - 1]);
                }
            }
            assert forall|other: FileView| other.file_id != file.file_id implies (
            #[trigger] after.contains(other) <==> files.contains(other)) by {
                if after.contains(other) {
                    let at = after.index_of(other);
                    if at < place {
                        assert(files[at] == other);
                    } else {
                        assert(files[at - 1] == other);
                    }
                }
                if files.contains(other) {
                    let at = files.index_of(other);
                    if at < place {
                        assert(after[at] == other);
                    } else {
                        assert(after[at + 1] == other);
                    }
                }
            }
        },
    }
}

proof fn lemma_place_between(files: Seq<FileView>, file_id: usize)
    requires
        files_are_ordered(files),
    ensures
        0 <= place_for(files, file_id) <= files.len(),
        forall|i: int|
            0 <= i < place_for(files, file_id) ==> (#[trigger] files[i]).file_id <= file_id,
        forall|i: int|
            place_for(files, file_id) <= i < files.len() ==> (#[trigger] files[i]).file_id
                > file_id,
    decreases files.len(),
{
    lemma_place_for(files, file_id);
    if files.len() > 0 && files[0].file_id <= file_id {
        let rest = files.skip(1);
        lemma_place_between(rest, file_id);
        let place = place_for(files, file_id);
        assert forall|i: int| 0 <= i < place implies (#[trigger] files[i]).file_id <= file_id by {
            if i > 0 {
                assert(rest[i - 1] == files[i]);
            }
        }
        assert forall|i: int| place <= i < files.len() implies (#[trigger] files[i]).file_id
            > file_id by {
            assert(rest[i - 1] == files[i]);
        }
    }
}

/// A file that is done stays counted: its samples as done, all of them, and its bytes as they
/// were. Nothing else changes of what a batch counts. If it was shown, the first of those that
/// are left is shown.
pub proof fn law_files_that_are_done_stay_counted(batch: BatchView, file_id: usize)
    requires
        has_file(batch, file_id),
        batch.completed_samples + file_of(batch, file_id).overall_total_samples <= u64::MAX,
        batch.completed_input_bytes + read_sum(batch.files) <= u64::MAX,
        batch.completed_output_bytes + written_sum(batch.files) <= u64::MAX,
    ensures
        ({
            let file = file_of(batch, file_id);
            let after = without_file(batch, file_id);
            &&& after.files.len() == batch.files.len() - 1
            &&& after.completed_samples == batch.completed_samples + file.overall_total_samples
            &&& processed_sum(after.files) == processed_sum(batch.files) - processed_of(file)
            &&& batch_bytes(after) == batch_bytes(batch)
            &&& after.total_samples == batch.total_samples
            &&& after.batch_started_at == batch.batch_started_at
            &&& batch.display_file_id == Some(file_id) && after.files.len() > 0
                ==> after.display_file_id == Some(after.files[0].file_id)
            &&& batch.display_file_id == Some(file_id) && after.files.len() == 0
                ==> after.display_file_id is None
            &&& batch.display_file_id != Some(file_id) ==> after.display_file_id
                == batch.display_file_id
        }),
{
    let place = place_of(batch.files, file_id).unwrap();
    lemma_place_of(batch.files, file_id);
    lemma_sums_without(batch.files, place);
}

proof fn lemma_sums_without(files: Seq<FileView>, place: int)
    requires
        0 <= place < files.len(),
    ensures
        processed_sum(files.remove(place)) == processed_sum(files) - processed_of(files[place]),
        read_sum(files.remove(place)) == read_sum(files) - bytes_of(files[place]).input_bytes_read,
        written_sum(files.remove(place)) == written_sum(files) - bytes_of(
            files[place],
        ).output_bytes_written,
    decreases files.len(),
{
    if place == files.len() - 1 {
        assert(files.remove(place) == files.drop_last());
    } else {
        lemma_sums_without(files.drop_last(), place);
        assert(files.remove(place).drop_last() == files.drop_last().remove(place));
        assert(files.remove(place).last() == files.last());
    }
}

/// A display is drawn again when the clock of the batch shows another second, or, in a batch
/// of several files, when that of the file does, whichever comes first.
pub proof fn law_displays_are_drawn_again_each_second(batch: BatchView, now: u64)
    ensures
        repaint_delay(batch, now) matches Some(delay) ==> {
            let file = file_of(batch, batch.display_file_id.unwrap());
            let batch_time = since(started(batch.batch_started_at, now), now);
            let file_time = since(file.started_at, now);
            &&& batch.interactive
            &&& 0 < delay <= 1_000_000_000
            &&& !batch.batch_mode ==> (batch_time + delay) % 1_000_000_000 == 0
            &&& batch.batch_mode ==> (batch_time + delay) % 1_000_000_000 == 0 || (file_time
                + delay) % 1_000_000_000 == 0
            &&& batch.batch_mode ==> (batch_time + delay) / 1_000_000_000 <= batch_time
                / 1_000_000_000 + 1
            &&& batch.batch_mode ==> (file_time + delay) / 1_000_000_000 <= file_time
                / 1_000_000_000 + 1
        },
        !batch.interactive ==> repaint_delay(batch, now) is None,
{
}

/// The time since a moment is what is between them, and nothing before it.
pub proof fn law_times_are_counted_from_their_start(start: u64, now: u64)
    ensures
        now >= start ==> start + since(start, now) == now,
        now < start ==> since(start, now) == 0,
        started(Some(start), now) == start,
        started(None, now) == now,
{
}

/// What is shown of a file are its samples, and of a batch those of all files together. A
/// recompression shows its phase.
pub proof fn law_displays_show_files_and_batches(
    batch: BatchView,
    file: FileView,
    progress: ProgressSnapshot,
    recompress: RecompressProgress,
    batch_elapsed: u64,
    phase_elapsed: u64,
    file_elapsed: u64,
)
    ensures
        ({
            let plain = with_snapshot(batch, file, progress, batch_elapsed, file_elapsed).1;
            let twice = with_recompress_snapshot(
                batch,
                file,
                recompress,
                batch_elapsed,
                phase_elapsed,
                file_elapsed,
            ).1;
            &&& plain.display.filename == file.filename && twice.display.filename == file.filename
            &&& plain.display.phase_label is None
            &&& recompress.phase == RecompressPhase::Decode ==> twice.display.phase_label == Some(
                "Decode"@,
            )
            &&& recompress.phase == RecompressPhase::Encode ==> twice.display.phase_label == Some(
                "Encode"@,
            )
            &&& plain.display.file is Some <==> batch.batch_mode
            &&& twice.display.file is Some <==> batch.batch_mode
            &&& batch.batch_mode ==> plain.display.overall.total_samples == batch.total_samples
            &&& !batch.batch_mode ==> plain.display.overall.total_samples
                == file.phase_total_samples
            &&& !batch.batch_mode && progress.processed_samples <= file.phase_total_samples
                ==> plain.display.overall.processed_samples == progress.processed_samples
            &&& batch.batch_mode && progress.processed_samples <= file.phase_total_samples
                ==> plain.display.file.unwrap().processed_samples == progress.processed_samples
            &&& !batch.batch_mode ==> twice.display.overall.processed_samples
                == recompress.overall_processed_samples
            &&& batch.batch_mode ==> twice.display.file.unwrap().processed_samples
                == recompress.phase_processed_samples
            &&& batch.batch_mode ==> twice.display.file.unwrap().total_samples
                == recompress.phase_total_samples
            &&& plain.batch_elapsed == batch_elapsed && plain.file_elapsed == file_elapsed
            &&& twice.batch_elapsed == batch_elapsed && twice.file_elapsed == file_elapsed
        }),
{
}

/// A file that is begun is shown with nothing done, and as a recompression exactly if it is
/// worked through more than once.
pub proof fn law_files_begin_with_nothing_done(batch: BatchView, file: FileView, now: u64)
    requires
        file.current_progress is None,
        file.current_recompress_progress is None,
    ensures
        ({
            let (after, request) = begun(batch, file, now);
            &&& request.display.phase_label is Some <==> file.phase_total_samples
                != file.overall_total_samples
            &&& request.display.phase_label is Some ==> request.display.phase_label == Some(
                "Decode"@,
            )
            &&& after.display_file_id == Some(file.file_id)
            &&& after.batch_started_at == Some(started(batch.batch_started_at, now))
            &&& !batch.batch_mode ==> request.display.overall.processed_samples == 0
            &&& batch.batch_mode ==> request.display.file.unwrap().processed_samples == 0
            &&& batch.batch_mode ==> request.display.file.unwrap().total_samples
                == file.phase_total_samples
            &&& !batch.batch_mode ==> request.display.overall.total_samples
                == file.overall_total_samples
        }),
{
}

/// A first update is told once, when there are samples in it, and tells of no more than all.
pub proof fn law_first_updates_are_told_once(saw_update: bool, processed: u64, total: u64)
    ensures
        first_samples(saw_update, processed, total) is Some <==> !saw_update && processed > 0,
        first_samples(saw_update, processed, total) matches Some(samples) ==> samples <= total
            && samples <= processed && (samples == total || samples == processed),
{
}

/// A name comes before another exactly if it has the smaller character where they first
/// differ, or ends there.
pub proof fn law_names_come_in_the_order_of_characters(left: Seq<char>, right: Seq<char>)
    ensures
        precedes(left, right) <==> exists|place: int| #[trigger]
            differs_at(left, right, place),
    decreases left.len(),
{
    if right.len() == 0 {
    } else if left.len() == 0 {
        assert(differs_at(left, right, 0));
    } else if left[0] != right[0] {
        if left[0] < right[0] {
            assert(differs_at(left, right, 0));
        }
        assert forall|place: int| #[trigger] differs_at(left, right, place) implies left[0]
            < right[0] by {
            if place > 0 {
                assert(left[0] == right[0]);
            }
        }
    } else {
        let front = left.skip(1);
        let back = right.skip(1);
        law_names_come_in_the_order_of_characters(front, back);
        if precedes(front, back) {
            let place = choose|place: int| #[trigger] differs_at(front, back, place);
            assert forall|i: int| 0 <= i < place + 1 implies #[trigger] left[i] == right[i] by {
                if i > 0 {
                    assert(front[i - 1] == back[i - 1]);
                }
            }
            assert(differs_at(left, right, place + 1));
        }
        if exists|place: int| #[trigger] differs_at(left, right, place) {
            let place = choose|place: int| #[trigger] differs_at(left, right, place);
            assert(place > 0);
            assert forall|i: int| 0 <= i < place - 1 implies #[trigger] front[i] == back[i] by {
                assert(left[i + 1] == right[i + 1]);
            }
            assert(differs_at(front, back, place - 1));
        }
    }
}

/// Two names agree up to a place, where the first one ends or has the smaller character.
pub open spec fn differs_at(left: Seq<char>, right: Seq<char>, place: int) -> bool {
    &&& 0 <= place <= left.len() && place < right.len()
    &&& forall|i: int| 0 <= i < place ==> #[trigger] left[i] == right[i]
    &&& place < left.len() ==> left[place] < right[place]
}

/// No character of a trace field ends the field or the line, and a field that holds no such
/// character and no backslash stays as it is.
pub proof fn law_trace_fields_hold_no_separators(text: Seq<char>)
    ensures
        forall|i: int|
            0 <= i < trace_field(text).len() ==> {
                let c = #[trigger] trace_field(text)[i];
                c != '\t' && c != '\n' && c != '\r'
            },
        (forall|i: int|
            0 <= i < text.len() ==> {
                let c = #[trigger] text[i];
                c != '\t' && c != '\n' && c != '\r' && c != '\\'
            }) ==> trace_field(text) == text,
    decreases text.len(),
{
    if text.len() > 0 {
        let earlier = text.drop_last();
        law_trace_fields_hold_no_separators(earlier);
        let field = trace_field(text);
        let last = trace_char(text.last());
        assert forall|i: int| 0 <= i < field.len() implies {
            let c = #[trigger] field[i];
            c != '\t' && c != '\n' && c != '\r'
        } by {
            if i < trace_field(earlier).len() {
                assert(field[i] == trace_field(earlier)[i]);
            } else {
                assert(field[i] == last[i - trace_field(earlier).len()]);
            }
        }
        if forall|i: int|
            0 <= i < text.len() ==> {
                let c = #[trigger] text[i];
                c != '\t' && c != '\n' && c != '\r' && c != '\\'
            } {
            assert forall|i: int| 0 <= i < earlier.len() implies {
                let c = #[trigger] earlier[i];
                c != '\t' && c != '\n' && c != '\r' && c != '\\'
            } by {
                assert(text[i] == earlier[i]);
            }
            assert(text[text.len() - 1] == text.last());
            assert(earlier + seq![text.last()] == text);
        }
    }
}

/// A file of which nothing was told counts for nothing, and one of which something was told
/// for that, but for no more than its samples.
pub proof fn law_files_count_for_what_was_told(file: FileView)
    ensures
        file.current_progress is None && file.current_recompress_progress is None ==> processed_of(
            file,
        ) == 0 && bytes_of(file).input_bytes_read == 0 && bytes_of(file).output_bytes_written == 0,
        file.current_recompress_progress is None ==> {
            &&& file.current_progress matches Some(progress) ==> {
                &&& progress.processed_samples <= file.phase_total_samples ==> processed_of(file)
                    == progress.processed_samples
                &&& bytes_of(file).input_bytes_read == progress.input_bytes_read
                &&& bytes_of(file).output_bytes_written == progress.output_bytes_written
            }
            &&& processed_of(file) <= file.phase_total_samples
        },
        file.current_recompress_progress matches Some(progress) ==> {
            &&& processed_of(file) <= file.overall_total_samples
            &&& progress.overall_processed_samples <= file.overall_total_samples ==> processed_of(
                file,
            ) == progress.overall_processed_samples
            &&& bytes_of(file).input_bytes_read == progress.overall_input_bytes_read
            &&& bytes_of(file).output_bytes_written == progress.overall_output_bytes_written
        },
{
}

/// A report on nothing tells of nothing but the samples that there are, and a report on a file
/// that was done without one tells of all its samples and all its bytes.
pub proof fn law_first_and_last_reports_tell_of_nothing_or_all(total: u64, both: u64, file: FileView)
    ensures
        ({
            let blank = blank_snapshot(total);
            let twice = blank_recompress(total, both);
            let done = completed_snapshot(file);
            &&& blank.processed_samples == 0 && blank.completed_frames == 0 && blank.total_frames
                == 0
            &&& blank.input_bytes_read == 0 && blank.output_bytes_written == 0
            &&& blank.total_samples == total
            &&& twice.phase_processed_samples == 0 && twice.overall_processed_samples == 0
            &&& twice.phase_input_bytes_read == 0 && twice.phase_output_bytes_written == 0
            &&& twice.overall_input_bytes_read == 0 && twice.overall_output_bytes_written == 0
            &&& twice.phase_total_samples == total && twice.overall_total_samples == both
            &&& twice.phase == RecompressPhase::Decode
            &&& twice.completed_frames == 0 && twice.total_frames == 0
            &&& done.processed_samples == file.phase_total_samples && done.total_samples
                == file.phase_total_samples
            &&& done.input_bytes_read == file.input_bytes
            &&& done.output_bytes_written == 0 && done.completed_frames == 0 && done.total_frames
                == 0
        }),
{
}

} // verus!
