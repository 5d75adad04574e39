//! Lines of progress and the terminal that they are drawn on.

use flacx::display_width::{
    display_width, progress_line_budget_from_columns, rendered_row_count, truncate_display_text,
    truncate_measured_text,
};
use flacx::progress_batch::ProgressState;
use flacx::progress_lines::{
    format_clock, format_progress_bar, format_progress_frame_with_budget, time_until_next_second,
    ProgressDisplay, ProgressFrame, ProgressTexts, SampleProgress,
};
use flacx::progress_renderer::ProgressRenderer;

const MILLISECOND: u64 = 1_000_000;
const SECOND: u64 = 1_000_000_000;

struct Estimate {
    eta_seconds: Option<u64>,
    input: Option<f64>,
    output: Option<f64>,
    total: Option<f64>,
}

fn warming_up() -> Estimate {
    Estimate {
        eta_seconds: None,
        input: None,
        output: None,
        total: None,
    }
}

fn rate_text(bytes_per_second: Option<f64>) -> String {
    match bytes_per_second {
        None => String::from("warmup"),
        Some(rate) if rate >= 1024.0 * 1024.0 => format!("{:.1} MiB/s", rate / (1024.0 * 1024.0)),
        Some(rate) if rate >= 1024.0 => format!("{:.1} KiB/s", rate / 1024.0),
        Some(rate) => format!("{rate:.0} B/s"),
    }
}

fn texts(progress: SampleProgress, estimate: &Estimate, width: usize) -> ProgressTexts {
    let ratio = progress.processed_samples as f64 / progress.total_samples as f64;
    ProgressTexts {
        filled: (ratio * width as f64).floor() as usize,
        percent: format!("{:>5.1}", ratio * 100.0),
        eta_seconds: estimate.eta_seconds,
        input_rate: rate_text(estimate.input),
        output_rate: rate_text(estimate.output),
        total_rate: rate_text(estimate.total),
    }
}

fn frame_of(
    display: &ProgressDisplay,
    overall: &Estimate,
    file: &Estimate,
    batch_seconds: u64,
    file_seconds: u64,
    budget: Option<usize>,
) -> ProgressFrame {
    let overall_texts = match display.file {
        Some(_) => texts(display.overall, overall, 10),
        None => texts(display.overall, overall, 24),
    };
    let file_texts = match display.file {
        Some(file_progress) => texts(file_progress, file, 10),
        None => texts(display.overall, file, 10),
    };
    format_progress_frame_with_budget(
        display,
        &overall_texts,
        &file_texts,
        batch_seconds,
        file_seconds,
        budget,
    )
}

fn lines(texts: &[&str]) -> ProgressFrame {
    ProgressFrame {
        lines: texts.iter().map(|text| String::from(*text)).collect(),
    }
}

fn drawn(renderer: &ProgressRenderer) -> String {
    String::from_utf8(renderer.output().to_vec()).unwrap()
}

fn final_frame_lines(output: &str) -> Vec<&str> {
    let bytes = output.as_bytes();
    let mut last_escape_end = None;
    let mut index = 0usize;
    while index + 2 < bytes.len() {
        if bytes[index] == 0x1b && bytes[index + 1] == b'[' {
            let mut cursor = index + 2;
            while cursor < bytes.len() && bytes[cursor].is_ascii_digit() {
                cursor += 1;
            }
            if cursor > index + 2 && cursor < bytes.len() && bytes[cursor] == b'A' {
                last_escape_end = Some(cursor + 1);
            }
        }
        index += 1;
    }
    let final_frame = last_escape_end
        .map(|offset| &output[offset..])
        .unwrap_or(output);

    final_frame
        .trim_end_matches('\n')
        .split('\n')
        .map(|line| line.split('\r').next_back().unwrap_or(line))
        .collect()
}

fn single_file(filename: &str) -> ProgressDisplay {
    ProgressDisplay {
        filename: String::from(filename),
        overall: SampleProgress {
            processed_samples: 100,
            total_samples: 100,
        },
        file: None,
        phase_label: None,
    }
}

#[test]
fn progress_renderer_is_silent_when_not_interactive() {
    let mut renderer = ProgressRenderer::with_line_budget(Vec::new(), false, Some(120));
    renderer.render(&lines(&["input.wav | [============] 100.0%"]));
    renderer.end();

    assert!(renderer.output().is_empty());
}

#[test]
fn progress_renderer_writes_elapsed_filename_eta_and_rate() {
    let mut renderer = ProgressRenderer::with_line_budget(Vec::new(), true, Some(120));
    let estimate = Estimate {
        eta_seconds: Some(0),
        input: Some(333.0),
        output: Some(666.0),
        total: Some(999.0),
    };
    renderer.render(&frame_of(
        &single_file("mixdown.wav"),
        &estimate,
        &warming_up(),
        0,
        0,
        None,
    ));
    renderer.end();

    let output = drawn(&renderer);
    assert!(output.contains('\r'));
    assert!(output.contains("mixdown.wav"));
    assert!(output.contains("100.0%"));
    assert!(output.contains("Elapsed 00:00"));
    assert!(output.contains("ETA 00:00"));
    assert!(output.contains("In 333 B/s"));
    assert!(output.contains("Out 666 B/s"));
    assert!(output.contains("Total 999 B/s"));
    assert!(output.ends_with('\n'));
    assert!(!output.ends_with("\n\n"));
}

#[test]
fn progress_renderer_writes_input_output_and_total_byte_rates() {
    let mut renderer = ProgressRenderer::with_line_budget(Vec::new(), true, Some(120));
    let estimate = Estimate {
        eta_seconds: Some(0),
        input: Some(3.0 * 1024.0 * 1024.0),
        output: Some(5.0 * 1024.0 * 1024.0),
        total: Some(8.0 * 1024.0 * 1024.0),
    };
    renderer.render(&frame_of(
        &single_file("mixdown.wav"),
        &estimate,
        &warming_up(),
        0,
        0,
        None,
    ));
    renderer.end();

    let output = drawn(&renderer);
    assert!(output.contains("In 3.0 MiB/s"));
    assert!(output.contains("Out 5.0 MiB/s"));
    assert!(output.contains("Total 8.0 MiB/s"));
}

#[test]
fn progress_renderer_waits_for_two_advancing_updates_and_elapsed_time() {
    let mut state = ProgressState::default();

    assert!(state.observe(50, 200, 100, 200, 0).is_none());
    assert!(state.observe(50, 200, 100, 200, 400 * MILLISECOND).is_none());
    assert!(state.observe(100, 200, 200, 400, 200 * MILLISECOND).is_none());

    let stabilized = state
        .observe(150, 200, 300, 600, 300 * MILLISECOND)
        .expect("an estimate");
    assert_eq!(stabilized.processed_samples, 150);
    assert_eq!(stabilized.total_samples, 200);
    assert_eq!(stabilized.input_bytes_read, 300);
    assert_eq!(stabilized.output_bytes_written, 600);
    assert_eq!(stabilized.elapsed, 300 * MILLISECOND);
}

#[test]
fn progress_renderer_ignores_zero_progress_before_warmup_starts() {
    let mut state = ProgressState::default();

    assert!(state.observe(0, 200, 0, 0, 500 * MILLISECOND).is_none());
    assert!(state.observe(50, 200, 100, 200, 600 * MILLISECOND).is_none());
    assert!(state.observe(100, 200, 200, 400, 700 * MILLISECOND).is_none());
    assert!(state.observe(150, 200, 300, 600, 900 * MILLISECOND).is_some());
}

#[test]
fn progress_renderer_overwrites_stale_characters_when_line_shrinks() {
    let mut renderer = ProgressRenderer::with_line_budget(Vec::new(), true, Some(120));
    renderer.render(&lines(&["wide-name.wav | [==>---------------------]  10.0% | Elapsed 00:00 | ETA --:-- | In warmup | Out warmup | Total warmup"]));
    renderer.render(&lines(&["x.wav | [========================] 100.0% | Elapsed 00:00 | ETA 00:00 | In 333 B/s | Out 666 B/s | Total 999 B/s"]));
    renderer.end();

    let output = drawn(&renderer);
    let frames: Vec<&str> = output.trim_end_matches('\n').split('\r').collect();
    let warmup = frames
        .iter()
        .find(|frame| frame.contains("Total warmup"))
        .unwrap();
    let final_frame = frames
        .iter()
        .rev()
        .find(|frame| frame.contains("ETA 00:00"))
        .unwrap();
    assert!(warmup.len() >= final_frame.trim_end().len());
    assert!(final_frame.ends_with(' '));
}

#[test]
fn unicode_display_width_treats_full_width_characters_as_wide() {
    assert_eq!(display_width("テ"), 2);
    assert_eq!(display_width("【】"), 4);
    assert!(
        display_width("『世界の果て』　【テスト】.wav")
            > "『世界の果て』　【テスト】.wav".chars().count()
    );
}

#[test]
fn truncate_display_text_preserves_unicode_boundaries_with_ellipsis() {
    let truncated = truncate_display_text("『世界の果て』　【テスト】.wav", 12);
    assert!(display_width(&truncated) <= 12);
    assert!(truncated.ends_with('…'));
    assert!(std::str::from_utf8(truncated.as_bytes()).is_ok());
    assert_eq!(truncated, "『世界の果…");
}

#[test]
fn progress_frame_truncates_unicode_filename_to_budget() {
    let estimate = Estimate {
        eta_seconds: Some(0),
        input: Some(333.0),
        output: Some(666.0),
        total: Some(999.0),
    };
    let frame = frame_of(
        &single_file("『世界の果て』　【テスト】.wav"),
        &estimate,
        &warming_up(),
        1,
        1,
        Some(120),
    );

    assert_eq!(frame.lines.len(), 1);
    assert!(display_width(&frame.lines[0]) <= 120);
    assert!(frame.lines[0].contains("Elapsed 00:01"));
    assert!(frame.lines[0].contains("100.0%"));
    assert!(frame.lines[0].contains('…') || frame.lines[0].contains("テスト"));
}

#[test]
fn progress_renderer_rewinds_wrapped_rows_when_budget_is_small() {
    let mut renderer = ProgressRenderer::with_line_budget(Vec::new(), true, Some(16));
    let long_line = "『世界の果て』　【テスト】.wav | File | [==========] 100.0% | Elapsed 00:01 | ETA 00:00 | In 333 B/s | Out 666 B/s | Total 999 B/s";
    let expected_rows_up = rendered_row_count(display_width(long_line), Some(16)) - 1;

    renderer.render(&lines(&[long_line]));
    renderer.render(&lines(&["x.wav | File | [==========] 100.0% | Elapsed 00:01 | ETA 00:00 | In 333 B/s | Out 666 B/s | Total 999 B/s"]));

    let output = drawn(&renderer);
    assert!(output.contains(&format!("\x1b[{expected_rows_up}A")));
}

#[test]
fn progress_frame_contains_two_batch_lines_with_independent_progress_bundles() {
    let frame = frame_of(
        &ProgressDisplay {
            filename: String::from("album/disc1/song.wav"),
            overall: SampleProgress {
                processed_samples: 150,
                total_samples: 300,
            },
            file: Some(SampleProgress {
                processed_samples: 50,
                total_samples: 100,
            }),
            phase_label: None,
        },
        &Estimate {
            eta_seconds: Some(3),
            input: Some(12_345.0),
            output: Some(24_690.0),
            total: Some(37_035.0),
        },
        &Estimate {
            eta_seconds: Some(1),
            input: Some(4_096.0),
            output: Some(8_192.0),
            total: Some(12_288.0),
        },
        4,
        2,
        None,
    );
    assert_eq!(frame.lines.len(), 2);
    assert!(frame.lines[0].starts_with("Batch | "));
    assert!(frame.lines[0].contains("50.0%"));
    assert!(frame.lines[0].contains("Elapsed 00:04"));
    assert!(frame.lines[0].contains("ETA 00:03"));
    assert!(frame.lines[0].contains("In 12.1 KiB/s"));
    assert!(frame.lines[0].contains("Out 24.1 KiB/s"));
    assert!(frame.lines[0].contains("Total 36.2 KiB/s"));
    assert!(frame.lines[1].starts_with("album/disc1/song.wav | File | "));
    assert!(frame.lines[1].contains("50.0%"));
    assert!(frame.lines[1].contains("Elapsed 00:02"));
    assert!(frame.lines[1].contains("ETA 00:01"));
    assert!(frame.lines[1].contains("In 4.0 KiB/s"));
    assert!(frame.lines[1].contains("Out 8.0 KiB/s"));
    assert!(frame.lines[1].contains("Total 12.0 KiB/s"));
    assert!(frame.lines[0].contains("Rate"));
    assert!(frame.lines[1].contains("Rate"));
}

#[test]
fn batch_progress_frame_stays_two_lines_while_file_estimate_is_warming_up() {
    let frame = frame_of(
        &ProgressDisplay {
            filename: String::from("album/disc1/song.wav"),
            overall: SampleProgress {
                processed_samples: 10,
                total_samples: 100,
            },
            file: Some(SampleProgress {
                processed_samples: 5,
                total_samples: 50,
            }),
            phase_label: None,
        },
        &warming_up(),
        &warming_up(),
        1,
        0,
        None,
    );
    assert_eq!(frame.lines.len(), 2);
    assert!(frame.lines[0].starts_with("Batch | "));
    assert!(frame.lines[1].starts_with("album/disc1/song.wav | File | "));
    assert!(frame.lines[1].contains("Total warmup"));
}

#[test]
fn batch_renderer_clears_stale_characters_on_both_lines_when_frame_shrinks() {
    let mut renderer = ProgressRenderer::with_line_budget(Vec::new(), true, Some(120));
    let line_budget = renderer.line_budget();
    let long_batch_line =
        "Batch overall progress | [=====>----]  55.0% | Elapsed 00:15 | ETA 00:12 | In 12.1 KiB/s | Out 24.1 KiB/s | Total 36.2 KiB/s";
    let long_file_line =
        "disc-one-with-a-very-long-name.wav | File | [=====>----]  55.0% | Elapsed 00:09 | ETA 00:07 | In 6.0 KiB/s | Out 12.0 KiB/s | Total 18.0 KiB/s";
    let expected_rows_up = rendered_row_count(display_width(long_batch_line), line_budget)
        + rendered_row_count(display_width(long_file_line), line_budget)
        - 1;
    renderer.render(&lines(&[long_batch_line, long_file_line]));
    renderer.render(&lines(&[
        "Batch | [==========] 100.0% | Elapsed 00:16 | ETA 00:00 | In 12.1 KiB/s | Out 24.1 KiB/s | Total 36.2 KiB/s",
        "x.wav | File | [==========] 100.0% | Elapsed 00:01 | ETA 00:00 | In 333 B/s | Out 666 B/s | Total 999 B/s",
    ]));
    renderer.end();

    let output = drawn(&renderer);
    assert!(output.contains(&format!("\x1b[{expected_rows_up}A")));
    let final_lines = final_frame_lines(&output);
    assert_eq!(final_lines.len(), 2);
    assert!(final_lines[0].contains("Batch | "));
    assert!(final_lines[1].contains("x.wav | File | "));
    assert!(final_lines[0].ends_with(' '));
    assert!(final_lines[1].ends_with(' '));
}

#[test]
fn time_until_next_second_aligns_to_the_next_visible_clock_tick() {
    assert_eq!(
        time_until_next_second(1_250 * MILLISECOND),
        750 * MILLISECOND
    );
    assert_eq!(time_until_next_second(3 * SECOND), SECOND);
}

#[test]
fn clocks_show_hours_only_where_there_are_any() {
    assert_eq!(format_clock(0), "00:00");
    assert_eq!(format_clock(3_599), "59:59");
    assert_eq!(format_clock(3_600), "1:00:00");
    assert_eq!(format_clock(36_061), "10:01:01");
}

#[test]
fn bars_keep_their_width_whatever_is_filled() {
    assert_eq!(format_progress_bar(0, 4), "[>---]");
    assert_eq!(format_progress_bar(3, 4), "[===>]");
    assert_eq!(format_progress_bar(4, 4), "[====]");
    assert_eq!(format_progress_bar(9, 4), "[====]");
    assert_eq!(format_progress_bar(0, 0), "[]");
}

#[test]
fn short_texts_are_cut_by_their_measures() {
    assert_eq!(truncate_display_text("abc", 0), "");
    assert_eq!(truncate_display_text("abc", 3), "abc");
    assert_eq!(truncate_display_text("abcd", 1), "…");
    assert_eq!(truncate_display_text("abcd", 3), "ab…");
    assert_eq!(truncate_display_text("テスト", 4), "テ…");
    assert_eq!(truncate_measured_text("abcd", 8, &[2, 2, 2, 2], 5), "ab…");
    assert_eq!(truncate_measured_text("abcd", 8, &[2, 2, 2, 2], 4), "a…");
}

#[test]
fn budgets_and_rows_follow_the_columns() {
    assert_eq!(progress_line_budget_from_columns(0), None);
    assert_eq!(progress_line_budget_from_columns(1), Some(1));
    assert_eq!(progress_line_budget_from_columns(80), Some(79));
    assert_eq!(rendered_row_count(0, Some(10)), 1);
    assert_eq!(rendered_row_count(10, Some(10)), 1);
    assert_eq!(rendered_row_count(11, Some(10)), 2);
    assert_eq!(rendered_row_count(500, None), 1);
    assert_eq!(rendered_row_count(500, Some(0)), 1);
}

#[test]
fn drawn_output_can_be_taken_away_between_frames() {
    let mut renderer = ProgressRenderer::with_line_budget(Vec::new(), true, None);
    renderer.render(&lines(&["abcdef"]));
    assert_eq!(renderer.take_output(), b"\rabcdef".to_vec());
    renderer.render(&lines(&["xy"]));
    assert_eq!(renderer.take_output(), b"\rxy    ".to_vec());
    renderer.end();
    assert_eq!(renderer.take_output(), b"\n".to_vec());
    let mut unused = ProgressRenderer::with_line_budget(Vec::new(), true, None);
    unused.end();
    assert!(unused.take_output().is_empty());
}
