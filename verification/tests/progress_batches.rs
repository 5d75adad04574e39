//! Progress of single files and of batches.

use flacx::progress_batch::{BatchProgressCoordinator, EstimateInput, RenderRequest};
use flacx::progress_lines::{format_progress_frame_with_budget, ProgressTexts, SampleProgress};
use flacx::progress_renderer::ProgressRenderer;
use flacx::{ProgressSnapshot, RecompressPhase, RecompressProgress};

const MILLISECOND: u64 = 1_000_000;
const SECOND: u64 = 1_000_000_000;

struct Screen {
    progress: BatchProgressCoordinator,
    renderer: ProgressRenderer,
}

fn rate_text(bytes: Option<u64>, elapsed: u64) -> String {
    match bytes {
        None => String::from("warmup"),
        Some(bytes) => format!("{:.0} B/s", bytes as f64 / (elapsed as f64 / 1e9)),
    }
}

fn texts(progress: SampleProgress, estimate: Option<&EstimateInput>) -> ProgressTexts {
    let ratio = if progress.total_samples == 0 {
        1.0
    } else {
        progress.processed_samples.min(progress.total_samples) as f64
            / progress.total_samples as f64
    };
    let elapsed = estimate.map_or(1, |known| known.elapsed);
    ProgressTexts {
        filled: (ratio * 10.0).floor() as usize,
        percent: format!("{:>5.1}", ratio * 100.0),
        eta_seconds: estimate.map(|_| 0),
        input_rate: rate_text(estimate.map(|known| known.input_bytes_read), elapsed),
        output_rate: rate_text(estimate.map(|known| known.output_bytes_written), elapsed),
        total_rate: rate_text(
            estimate.map(|known| known.input_bytes_read + known.output_bytes_written),
            elapsed,
        ),
    }
}

impl Screen {
    fn new(total_samples: u64) -> Self {
        Screen {
            progress: BatchProgressCoordinator::new(true, total_samples, true),
            renderer: ProgressRenderer::with_line_budget(Vec::new(), true, Some(120)),
        }
    }

    fn draw(&mut self, request: &RenderRequest) {
        let file = request.display.file.unwrap_or(request.display.overall);
        let frame = format_progress_frame_with_budget(
            &request.display,
            &texts(request.display.overall, request.overall.as_ref()),
            &texts(file, request.file.as_ref()),
            request.batch_elapsed / SECOND,
            request.file_elapsed / SECOND,
            self.renderer.line_budget(),
        );
        self.renderer.render(&frame);
    }

    fn begin(&mut self, id: usize, name: &str, phase_total: u64, overall_total: u64, now: u64) {
        let request =
            self.progress
                .begin_file_for(id, name, 1_024, phase_total, overall_total, now);
        self.draw(&request);
    }

    fn observe(&mut self, id: usize, progress: ProgressSnapshot, batch: u64, file: u64) {
        let (request, _) = self
            .progress
            .observe_with_elapsed_for(id, progress, batch, file);
        self.draw(&request);
    }

    fn heartbeat(&mut self, now: u64) {
        let request = self.progress.heartbeat(now).expect("cached progress");
        self.draw(&request);
    }

    fn end(mut self) -> String {
        self.renderer.end();
        String::from_utf8(self.renderer.output().to_vec()).unwrap()
    }
}

fn final_frame_lines(output: &str) -> Vec<&str> {
    let last_frame = output
        .rfind("\x1b[")
        .map(|start| &output[start + 4..])
        .unwrap_or(output);
    last_frame
        .trim_end_matches('\n')
        .split('\n')
        .map(|line| line.split('\r').next_back().unwrap_or(line))
        .collect()
}

fn snapshot(processed: u64, frames: (usize, usize), bytes: (u64, u64)) -> ProgressSnapshot {
    ProgressSnapshot {
        processed_samples: processed,
        total_samples: 100,
        completed_frames: frames.0,
        total_frames: frames.1,
        input_bytes_read: bytes.0,
        output_bytes_written: bytes.1,
    }
}

fn recompress_snapshot(
    phase: RecompressPhase,
    processed: (u64, u64),
    completed_frames: usize,
    phase_bytes: (u64, u64),
    overall_bytes: (u64, u64),
) -> RecompressProgress {
    RecompressProgress {
        phase,
        phase_processed_samples: processed.0,
        phase_total_samples: 100,
        overall_processed_samples: processed.1,
        overall_total_samples: 200,
        completed_frames,
        total_frames: 2,
        phase_input_bytes_read: phase_bytes.0,
        phase_output_bytes_written: phase_bytes.1,
        overall_input_bytes_read: overall_bytes.0,
        overall_output_bytes_written: overall_bytes.1,
    }
}

#[test]
fn batch_progress_uses_exact_total_samples_before_completion() {
    let mut screen = Screen::new(300);
    screen.begin(0, "disc1/first.wav", 100, 100, 0);
    screen.observe(
        0,
        snapshot(50, (1, 2), (100, 200)),
        300 * MILLISECOND,
        300 * MILLISECOND,
    );

    let output = screen.end();
    let final_lines = final_frame_lines(&output);
    assert_eq!(final_lines.len(), 2);
    assert!(final_lines[0].contains("Batch | "));
    assert!(final_lines[0].contains("16.7%"));
    assert!(final_lines[1].contains("disc1/first.wav | File | "));
    assert!(final_lines[1].contains("50.0%"));
}

#[test]
fn begin_file_renders_an_initial_zero_progress_frame_for_encode_decode() {
    let mut screen = Screen::new(300);
    screen.begin(0, "disc1/first.wav", 100, 100, 0);

    let output = screen.end();
    let final_lines = final_frame_lines(&output);
    assert_eq!(final_lines.len(), 2);
    assert!(final_lines[0].contains("Batch | "));
    assert!(final_lines[0].contains("0.0%"));
    assert!(final_lines[1].contains("disc1/first.wav | File | "));
    assert!(final_lines[1].contains("0.0%"));
    assert!(final_lines[1].contains("Total warmup"));
}

#[test]
fn initial_frame_preserves_batch_elapsed_across_file_boundaries() {
    let mut screen = Screen::new(200);
    screen.begin(0, "disc1/first.wav", 100, 100, 0);
    let finished = screen.progress.finish_file(0, 3 * SECOND).expect("a file");
    assert_eq!(finished.filename, "disc1/first.wav");
    screen.begin(0, "disc1/second.wav", 100, 100, 3 * SECOND);
    screen.heartbeat(5 * SECOND);

    let output = screen.end();
    let final_lines = final_frame_lines(&output);
    assert_eq!(final_lines.len(), 2);
    assert!(final_lines[0].contains("Batch | "));
    assert!(final_lines[0].contains("50.0%"));
    assert!(final_lines[0].contains("Elapsed 00:05"));
    assert!(final_lines[1].contains("disc1/second.wav | File | "));
    assert!(final_lines[1].contains("Elapsed 00:02"));
}

#[test]
fn progress_updates_render_immediately_without_waiting_for_a_heartbeat() {
    let mut screen = Screen::new(100);
    screen.begin(0, "disc1/first.wav", 100, 100, 0);
    screen.observe(
        0,
        snapshot(25, (1, 4), (100, 200)),
        300 * MILLISECOND,
        300 * MILLISECOND,
    );
    screen.observe(
        0,
        snapshot(50, (2, 4), (200, 400)),
        350 * MILLISECOND,
        350 * MILLISECOND,
    );

    let output = screen.end();
    let final_lines = final_frame_lines(&output);
    assert!(final_lines[0].contains("50.0%"));
    assert!(final_lines[1].contains("50.0%"));
}

#[test]
fn heartbeat_repaints_cached_progress_when_callbacks_are_sparse() {
    let mut screen = Screen::new(100);
    screen.begin(0, "disc1/first.wav", 100, 100, 0);
    screen.observe(
        0,
        snapshot(25, (1, 4), (100, 200)),
        400 * MILLISECOND,
        400 * MILLISECOND,
    );
    screen.heartbeat(1_400 * MILLISECOND);

    let output = screen.end();
    let final_lines = final_frame_lines(&output);
    assert!(final_lines[0].contains("25.0%"));
    assert!(final_lines[0].contains("Elapsed 00:01"));
    assert!(final_lines[1].contains("25.0%"));
    assert!(final_lines[1].contains("Elapsed 00:01"));
}

#[test]
fn progress_update_after_heartbeat_uses_the_newer_snapshot() {
    let mut screen = Screen::new(100);
    screen.begin(0, "disc1/first.wav", 100, 100, 0);
    screen.observe(
        0,
        snapshot(25, (1, 4), (100, 200)),
        400 * MILLISECOND,
        400 * MILLISECOND,
    );
    screen.heartbeat(1_400 * MILLISECOND);
    screen.observe(
        0,
        snapshot(50, (2, 4), (200, 400)),
        1_450 * MILLISECOND,
        1_450 * MILLISECOND,
    );

    let output = screen.end();
    let final_lines = final_frame_lines(&output);
    assert!(final_lines[0].contains("50.0%"));
    assert!(final_lines[1].contains("50.0%"));
}

#[test]
fn recompress_begin_file_primes_heartbeat_before_the_first_progress_callback() {
    let mut screen = Screen::new(200);
    screen.begin(0, "disc1/first.flac", 100, 200, 0);
    assert!(screen.progress.next_heartbeat_delay(0).is_some());
    screen.heartbeat(2 * SECOND);

    let output = screen.end();
    let final_lines = final_frame_lines(&output);
    assert_eq!(final_lines.len(), 2);
    assert!(final_lines[0].contains("Batch | "));
    assert!(final_lines[0].contains("Elapsed 00:02"));
    assert!(final_lines[1].contains("disc1/first.flac | Decode | "));
    assert!(final_lines[1].contains("Elapsed 00:02"));
    assert!(final_lines[1].contains("Total warmup"));
}

#[test]
fn recompress_batch_phase_switch_resets_file_estimate_state() {
    let mut screen = Screen::new(200);
    screen.begin(0, "disc1/first.flac", 100, 200, 0);
    screen.progress.observe_recompress_for(
        0,
        recompress_snapshot(RecompressPhase::Decode, (50, 50), 1, (100, 200), (100, 200)),
        MILLISECOND,
    );
    screen.progress.observe_recompress_for(
        0,
        recompress_snapshot(RecompressPhase::Decode, (100, 100), 2, (200, 400), (200, 400)),
        2 * MILLISECOND,
    );
    assert_eq!(
        screen.progress.file_phase(0),
        Some((2, Some(RecompressPhase::Decode)))
    );

    screen.progress.observe_recompress_for(
        0,
        recompress_snapshot(RecompressPhase::Encode, (10, 110), 1, (50, 75), (250, 475)),
        3 * MILLISECOND,
    );
    assert_eq!(
        screen.progress.file_phase(0),
        Some((1, Some(RecompressPhase::Encode)))
    );
}

#[test]
fn recompress_phase_switch_keeps_file_elapsed_continuous() {
    let mut screen = Screen::new(200);
    screen.begin(0, "disc1/first.flac", 100, 200, 0);
    let (first, _) = screen.progress.observe_recompress_with_elapsed_for(
        0,
        recompress_snapshot(RecompressPhase::Decode, (50, 50), 1, (100, 200), (100, 200)),
        9 * SECOND,
        9 * SECOND,
    );
    screen.draw(&first);
    let (second, _) = screen.progress.observe_recompress_with_elapsed_for(
        0,
        recompress_snapshot(RecompressPhase::Encode, (10, 110), 1, (50, 75), (250, 475)),
        9 * SECOND,
        9 * SECOND,
    );
    screen.draw(&second);

    let output = screen.end();
    let final_lines = final_frame_lines(&output);
    assert_eq!(final_lines.len(), 2);
    assert!(final_lines[1].contains("disc1/first.flac | Encode | "));
    assert!(final_lines[1].contains("Elapsed 00:09"));
}

#[test]
fn batch_progress_accumulates_interleaved_file_ids() {
    let mut screen = Screen::new(200);
    screen.begin(0, "disc1/first.wav", 100, 100, 0);
    screen.begin(1, "disc1/second.wav", 100, 100, 0);
    screen.observe(
        0,
        snapshot(25, (1, 4), (100, 200)),
        300 * MILLISECOND,
        300 * MILLISECOND,
    );
    screen.observe(
        1,
        snapshot(50, (2, 4), (200, 400)),
        400 * MILLISECOND,
        250 * MILLISECOND,
    );

    let output = screen.end();
    let final_lines = final_frame_lines(&output);
    assert!(final_lines[0].contains("37.5%"));
    assert!(final_lines[1].contains("disc1/second.wav | File | "));
    assert!(final_lines[1].contains("50.0%"));
}

#[test]
fn a_finished_file_counts_whole_and_the_next_one_is_shown() {
    let mut screen = Screen::new(200);
    screen.begin(3, "a.wav", 100, 100, 0);
    screen.begin(5, "b.wav", 100, 100, SECOND);
    assert_eq!(screen.progress.displayed_file(), Some(5));
    let done = screen.progress.finish_file(5, 2 * SECOND).unwrap();
    assert_eq!(done.filename, "b.wav");
    assert_eq!(done.input_bytes, 1_024);
    assert_eq!(done.elapsed, SECOND);
    let (last, first_update) = done.last.expect("a closing report");
    assert_eq!(last.display.overall.processed_samples, 100);
    assert_eq!(first_update, Some(100));
    assert_eq!(screen.progress.displayed_file(), Some(3));
    assert!(screen.progress.finish_file(5, 2 * SECOND).is_none());
    assert_eq!(screen.progress.active_overall_processed_samples(), 100);
}

#[test]
fn heartbeats_wait_for_the_next_second_of_either_clock() {
    let mut batch = BatchProgressCoordinator::new(true, 200, true);
    assert!(batch.next_heartbeat_delay(0).is_none());
    assert!(batch.heartbeat(0).is_none());
    batch.begin_file_for(0, "a.wav", 10, 100, 100, 0);
    batch.finish_file(0, 700 * MILLISECOND);
    batch.begin_file_for(1, "b.wav", 10, 100, 100, 700 * MILLISECOND);
    assert_eq!(
        batch.next_heartbeat_delay(1_000 * MILLISECOND),
        Some(700 * MILLISECOND)
    );
    let mut silent = BatchProgressCoordinator::new(false, 200, true);
    silent.begin_file_for(0, "a.wav", 10, 100, 100, 0);
    assert!(silent.next_heartbeat_delay(0).is_none());
}
