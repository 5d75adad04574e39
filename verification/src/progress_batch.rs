//! What a batch of conversions has done, file by file.

use vstd::prelude::*;
use vstd::string::*;

use crate::progress::ProgressSnapshot;
use crate::progress_lines::{time_until_next_second, DisplayView, ProgressDisplay, SampleProgress, NANOS_PER_SECOND};
use crate::recompress::{phase_name, RecompressPhase, RecompressProgress};

verus! {

/// The nanoseconds before a first estimate.
pub const ESTIMATE_WARMUP: u64 = 250_000_000;

/// What decides whether an estimate can be made.
#[derive(Debug, Clone, Copy, PartialEq, Eq, Structural)]
pub struct ProgressState {
    pub first_advancing_elapsed: Option<u64>,
    pub last_processed_samples: Option<u64>,
    pub advancing_updates: u8,
}

/// The smaller of two numbers.
pub open spec fn smaller_of(left: u64, right: u64) -> u64 {
    if left <= right {
        left
    } else {
        right
    }
}

fn smaller(left: u64, right: u64) -> (least: u64)
    ensures
        least == smaller_of(left, right),
{
    if left <= right {
        left
    } else {
        right
    }
}

/// A state before any update.
pub open spec fn fresh_state() -> ProgressState {
    ProgressState {
        first_advancing_elapsed: None,
        last_processed_samples: None,
        advancing_updates: 0,
    }
}

/// An update tells of more samples than the one before.
pub open spec fn has_advanced(state: ProgressState, processed: u64) -> bool {
    match state.last_processed_samples {
        Some(previous) => processed > previous,
        None => processed > 0,
    }
}

/// A state after an update.
pub open spec fn state_after(state: ProgressState, processed: u64, elapsed: u64) -> ProgressState {
    if has_advanced(state, processed) {
        ProgressState {
            first_advancing_elapsed: match state.first_advancing_elapsed {
                Some(first) => Some(first),
                None => Some(elapsed),
            },
            last_processed_samples: Some(processed),
            advancing_updates: if state.advancing_updates == u8::MAX {
                u8::MAX
            } else {
                (state.advancing_updates + 1) as u8
            },
        }
    } else {
        ProgressState { last_processed_samples: Some(processed), ..state }
    }
}

/// An estimate can be made: two updates went ahead, and enough time has passed since the
/// first of them.
pub open spec fn can_estimate(state: ProgressState, processed: u64, elapsed: u64) -> bool {
    match state.first_advancing_elapsed {
        None => false,
        Some(first) => {
            &&& state.advancing_updates >= 2
            &&& elapsed >= first + ESTIMATE_WARMUP
            &&& elapsed > 0
            &&& processed > 0
        },
    }
}

/// What an estimate is made from.
#[derive(Debug, Clone, Copy, PartialEq, Eq, Structural)]
pub struct EstimateInput {
    pub processed_samples: u64,
    pub total_samples: u64,
    pub input_bytes_read: u64,
    pub output_bytes_written: u64,
    pub elapsed: u64,
}

/// What an estimate is made from after an update, if one can be made.
pub open spec fn estimate_after(
    state: ProgressState,
    processed_samples: u64,
    total_samples: u64,
    bytes: ByteProgress,
    elapsed: u64,
) -> Option<EstimateInput> {
    let processed = smaller_of(processed_samples, total_samples);
    if can_estimate(state_after(state, processed, elapsed), processed, elapsed) {
        Some(
            EstimateInput {
                processed_samples: processed,
                total_samples,
                input_bytes_read: bytes.input_bytes_read,
                output_bytes_written: bytes.output_bytes_written,
                elapsed,
            },
        )
    } else {
        None
    }
}

impl Default for ProgressState {
    fn default() -> (state: Self)
        ensures
            state == fresh_state(),
    {
        ProgressState {
            first_advancing_elapsed: None,
            last_processed_samples: None,
            advancing_updates: 0,
        }
    }
}

impl ProgressState {
    /// Takes in an update, and returns what an estimate is made from if one can be made.
    pub fn observe(
        &mut self,
        processed_samples: u64,
        total_samples: u64,
        input_bytes_read: u64,
        output_bytes_written: u64,
        elapsed: u64,
    ) -> (estimate: Option<EstimateInput>)
        ensures
            *final(self) == state_after(
                *old(self),
                smaller_of(processed_samples, total_samples),
                elapsed,
            ),
            estimate == estimate_after(
                *old(self),
                processed_samples,
                total_samples,
                (ByteProgress { input_bytes_read, output_bytes_written }),
                elapsed,
            ),
    {
        let processed: u64 = smaller(processed_samples, total_samples);
        let advanced = match self.last_processed_samples {
            Some(previous) => processed > previous,
            None => processed > 0,
        };
        if advanced {
            if self.advancing_updates < 255 {
                self.advancing_updates = self.advancing_updates + 1;
            }
            if self.first_advancing_elapsed.is_none() {
                self.first_advancing_elapsed = Some(elapsed);
            }
        }
        self.last_processed_samples = Some(processed);
        match self.first_advancing_elapsed {
            None => None,
            Some(first) => {
                if self.advancing_updates >= 2 && elapsed >= first && elapsed - first
                    >= ESTIMATE_WARMUP && elapsed > 0 && processed > 0 {
                    Some(
                        EstimateInput {
                            processed_samples: processed,
                            total_samples,
                            input_bytes_read,
                            output_bytes_written,
                            elapsed,
                        },
                    )
                } else {
                    None
                }
            },
        }
    }
}

/// No estimate is made before two updates went ahead.
pub proof fn law_estimates_need_two_advances(
    processed: u64,
    total: u64,
    bytes: ByteProgress,
    elapsed: u64,
)
    ensures
        estimate_after(fresh_state(), processed, total, bytes, elapsed) is None,
{
}

/// Bytes read and written.
#[derive(Debug, Clone, Copy, PartialEq, Eq, Structural)]
pub struct ByteProgress {
    pub input_bytes_read: u64,
    pub output_bytes_written: u64,
}

/// A file that is being converted.
#[derive(Debug, Clone)]
pub struct CurrentFileProgress {
    pub file_id: usize,
    pub filename: String,
    pub input_bytes: u64,
    pub phase_total_samples: u64,
    pub overall_total_samples: u64,
    pub phase: Option<RecompressPhase>,
    pub saw_update: bool,
    pub started_at: u64,
    pub phase_started_at: Option<u64>,
    pub current_progress: Option<ProgressSnapshot>,
    pub current_recompress_progress: Option<RecompressProgress>,
    pub file_state: ProgressState,
}

/// The contents of a [`CurrentFileProgress`].
pub struct FileView {
    pub file_id: usize,
    pub filename: Seq<char>,
    pub input_bytes: u64,
    pub phase_total_samples: u64,
    pub overall_total_samples: u64,
    pub phase: Option<RecompressPhase>,
    pub saw_update: bool,
    pub started_at: u64,
    pub phase_started_at: Option<u64>,
    pub current_progress: Option<ProgressSnapshot>,
    pub current_recompress_progress: Option<RecompressProgress>,
    pub file_state: ProgressState,
}

impl View for CurrentFileProgress {
    type V = FileView;

    open spec fn view(&self) -> FileView {
        FileView {
            file_id: self.file_id,
            filename: self.filename@,
            input_bytes: self.input_bytes,
            phase_total_samples: self.phase_total_samples,
            overall_total_samples: self.overall_total_samples,
            phase: self.phase,
            saw_update: self.saw_update,
            started_at: self.started_at,
            phase_started_at: self.phase_started_at,
            current_progress: self.current_progress,
            current_recompress_progress: self.current_recompress_progress,
            file_state: self.file_state,
        }
    }
}

/// The contents of files.
pub open spec fn file_views(files: Seq<CurrentFileProgress>) -> Seq<FileView> {
    files.map_values(|file: CurrentFileProgress| file@)
}

/// The samples of a file that count as done.
pub open spec fn processed_of(file: FileView) -> u64 {
    match file.current_recompress_progress {
        Some(progress) => smaller_of(
            progress.overall_processed_samples,
            file.overall_total_samples,
        ),
        None => smaller_of(
            match file.current_progress {
                Some(progress) => progress.processed_samples,
                None => 0,
            },
            file.phase_total_samples,
        ),
    }
}

/// The bytes of a file that were read and written.
pub open spec fn bytes_of(file: FileView) -> ByteProgress {
    match file.current_recompress_progress {
        Some(progress) => ByteProgress {
            input_bytes_read: progress.overall_input_bytes_read,
            output_bytes_written: progress.overall_output_bytes_written,
        },
        None => match file.current_progress {
            Some(progress) => ByteProgress {
                input_bytes_read: progress.input_bytes_read,
                output_bytes_written: progress.output_bytes_written,
            },
            None => ByteProgress { input_bytes_read: 0, output_bytes_written: 0 },
        },
    }
}

impl CurrentFileProgress {
    /// The samples of the file that count as done.
    pub fn overall_processed_samples(&self) -> (samples: u64)
        ensures
            samples == processed_of(self@),
    {
        match self.current_recompress_progress {
            Some(progress) => smaller(
                progress.overall_processed_samples,
                self.overall_total_samples,
            ),
            None => match self.current_progress {
                Some(progress) => smaller(progress.processed_samples, self.phase_total_samples),
                None => smaller(0, self.phase_total_samples),
            },
        }
    }

    /// The bytes of the file that were read and written.
    pub fn overall_processed_bytes(&self) -> (bytes: ByteProgress)
        ensures
            bytes == bytes_of(self@),
    {
        match self.current_recompress_progress {
            Some(progress) => ByteProgress {
                input_bytes_read: progress.overall_input_bytes_read,
                output_bytes_written: progress.overall_output_bytes_written,
            },
            None => match self.current_progress {
                Some(progress) => ByteProgress {
                    input_bytes_read: progress.input_bytes_read,
                    output_bytes_written: progress.output_bytes_written,
                },
                None => ByteProgress { input_bytes_read: 0, output_bytes_written: 0 },
            },
        }
    }
}

/// A sum as far as 64 bits hold it.
pub open spec fn saturated(value: nat) -> u64 {
    if value > u64::MAX {
        u64::MAX
    } else {
        value as u64
    }
}

/// The samples of files that count as done.
pub open spec fn processed_sum(files: Seq<FileView>) -> nat
    decreases files.len(),
{
    if files.len() == 0 {
        0
    } else {
        processed_sum(files.drop_last()) + processed_of(files.last()) as nat
    }
}

/// The bytes of files that were read.
pub open spec fn read_sum(files: Seq<FileView>) -> nat
    decreases files.len(),
{
    if files.len() == 0 {
        0
    } else {
        read_sum(files.drop_last()) + bytes_of(files.last()).input_bytes_read as nat
    }
}

/// The bytes of files that were written.
pub open spec fn written_sum(files: Seq<FileView>) -> nat
    decreases files.len(),
{
    if files.len() == 0 {
        0
    } else {
        written_sum(files.drop_last()) + bytes_of(files.last()).output_bytes_written as nat
    }
}

/// The place of a file.
pub open spec fn place_of(files: Seq<FileView>, file_id: usize) -> Option<int>
    decreases files.len(),
{
    if files.len() == 0 {
        None
    } else if files[0].file_id == file_id {
        Some(0)
    } else {
        match place_of(files.skip(1), file_id) {
            Some(place) => Some(place + 1),
            None => None,
        }
    }
}

/// The place of the first file with a larger number.
pub open spec fn place_for(files: Seq<FileView>, file_id: usize) -> int
    decreases files.len(),
{
    if files.len() == 0 || files[0].file_id > file_id {
        0
    } else {
        1 + place_for(files.skip(1), file_id)
    }
}

/// Files after one was put in: in the place of an earlier one with its number, or in
/// front of those with larger numbers.
pub open spec fn with_file(files: Seq<FileView>, file: FileView) -> Seq<FileView> {
    match place_of(files, file.file_id) {
        Some(place) => files.update(place, file),
        None => files.insert(place_for(files, file.file_id), file),
    }
}

/// A batch of conversions.
#[derive(Debug, Clone)]
pub struct BatchProgressCoordinator {
    interactive: bool,
    total_samples: u64,
    batch_mode: bool,
    completed_samples: u64,
    completed_input_bytes: u64,
    completed_output_bytes: u64,
    active_files: Vec<CurrentFileProgress>,
    display_file_id: Option<usize>,
    batch_started_at: Option<u64>,
    overall_state: ProgressState,
}

/// The contents of a [`BatchProgressCoordinator`].
pub struct BatchView {
    pub interactive: bool,
    pub total_samples: u64,
    pub batch_mode: bool,
    pub completed_samples: u64,
    pub completed_input_bytes: u64,
    pub completed_output_bytes: u64,
    pub files: Seq<FileView>,
    pub display_file_id: Option<usize>,
    pub batch_started_at: Option<u64>,
    pub overall_state: ProgressState,
}

impl View for BatchProgressCoordinator {
    type V = BatchView;

    closed spec fn view(&self) -> BatchView {
        BatchView {
            interactive: self.interactive,
            total_samples: self.total_samples,
            batch_mode: self.batch_mode,
            completed_samples: self.completed_samples,
            completed_input_bytes: self.completed_input_bytes,
            completed_output_bytes: self.completed_output_bytes,
            files: file_views(self.active_files@),
            display_file_id: self.display_file_id,
            batch_started_at: self.batch_started_at,
            overall_state: self.overall_state,
        }
    }
}

/// What is to be drawn: the display, what the estimates are made from, and the times in
/// nanoseconds.
#[derive(Debug, Clone)]
pub struct RenderRequest {
    pub display: ProgressDisplay,
    pub overall: Option<EstimateInput>,
    pub file: Option<EstimateInput>,
    pub batch_elapsed: u64,
    pub file_elapsed: u64,
}

/// The contents of a [`RenderRequest`].
pub struct RequestView {
    pub display: DisplayView,
    pub overall: Option<EstimateInput>,
    pub file: Option<EstimateInput>,
    pub batch_elapsed: u64,
    pub file_elapsed: u64,
}

impl View for RenderRequest {
    type V = RequestView;

    open spec fn view(&self) -> RequestView {
        RequestView {
            display: self.display@,
            overall: self.overall,
            file: self.file,
            batch_elapsed: self.batch_elapsed,
            file_elapsed: self.file_elapsed,
        }
    }
}

/// The samples of a batch that count as done.
pub open spec fn batch_processed(batch: BatchView) -> u64 {
    saturated(batch.completed_samples as nat + processed_sum(batch.files))
}

/// The bytes of a batch that were read and written.
pub open spec fn batch_bytes(batch: BatchView) -> ByteProgress {
    ByteProgress {
        input_bytes_read: saturated(batch.completed_input_bytes as nat + read_sum(batch.files)),
        output_bytes_written: saturated(
            batch.completed_output_bytes as nat + written_sum(batch.files),
        ),
    }
}

/// What is shown of a file and its batch.
pub open spec fn display_of(
    batch: BatchView,
    filename: Seq<char>,
    single: SampleProgress,
    file: SampleProgress,
    phase_label: Option<Seq<char>>,
) -> DisplayView {
    DisplayView {
        filename,
        overall: if batch.batch_mode {
            SampleProgress {
                processed_samples: smaller_of(batch_processed(batch), batch.total_samples),
                total_samples: batch.total_samples,
            }
        } else {
            single
        },
        file: if batch.batch_mode {
            Some(file)
        } else {
            None
        },
        phase_label,
    }
}

/// A batch and what is to be drawn, once a display was estimated.
pub open spec fn estimated(
    batch: BatchView,
    file: FileView,
    display: DisplayView,
    overall_bytes: ByteProgress,
    file_bytes: ByteProgress,
    batch_elapsed: u64,
    estimate_elapsed: u64,
    file_elapsed: u64,
) -> (BatchView, RequestView) {
    let overall = display.overall;
    let overall_state = state_after(
        batch.overall_state,
        smaller_of(overall.processed_samples, overall.total_samples),
        batch_elapsed,
    );
    let request = RequestView {
        display,
        overall: estimate_after(
            batch.overall_state,
            overall.processed_samples,
            overall.total_samples,
            overall_bytes,
            batch_elapsed,
        ),
        file: match display.file {
            Some(samples) => estimate_after(
                file.file_state,
                samples.processed_samples,
                samples.total_samples,
                file_bytes,
                estimate_elapsed,
            ),
            None => None,
        },
        batch_elapsed,
        file_elapsed,
    };
    let estimated_file = match display.file {
        Some(samples) => FileView {
            file_state: state_after(
                file.file_state,
                smaller_of(samples.processed_samples, samples.total_samples),
                estimate_elapsed,
            ),
            ..file
        },
        None => file,
    };
    (
        BatchView { overall_state, files: with_file(batch.files, estimated_file), ..batch },
        request,
    )
}

/// A batch and what is to be drawn, once it was told of a file.
pub open spec fn with_snapshot(
    batch: BatchView,
    file: FileView,
    progress: ProgressSnapshot,
    batch_elapsed: u64,
    file_elapsed: u64,
) -> (BatchView, RequestView) {
    let told = FileView {
        current_progress: Some(progress),
        current_recompress_progress: None,
        ..file
    };
    let known = BatchView {
        files: with_file(batch.files, told),
        display_file_id: Some(file.file_id),
        ..batch
    };
    let done = SampleProgress {
        processed_samples: smaller_of(progress.processed_samples, file.phase_total_samples),
        total_samples: file.phase_total_samples,
    };
    estimated(
        known,
        told,
        display_of(known, file.filename, done, done, None),
        batch_bytes(known),
        ByteProgress {
            input_bytes_read: progress.input_bytes_read,
            output_bytes_written: progress.output_bytes_written,
        },
        batch_elapsed,
        file_elapsed,
        file_elapsed,
    )
}

/// A batch and what is to be drawn, once it was told of a recompression.
pub open spec fn with_recompress_snapshot(
    batch: BatchView,
    file: FileView,
    progress: RecompressProgress,
    batch_elapsed: u64,
    phase_elapsed: u64,
    file_elapsed: u64,
) -> (BatchView, RequestView) {
    let told = FileView {
        current_progress: None,
        current_recompress_progress: Some(progress),
        ..file
    };
    let known = BatchView {
        files: with_file(batch.files, told),
        display_file_id: Some(file.file_id),
        ..batch
    };
    estimated(
        known,
        told,
        display_of(
            known,
            file.filename,
            SampleProgress {
                processed_samples: progress.overall_processed_samples,
                total_samples: progress.overall_total_samples,
            },
            SampleProgress {
                processed_samples: progress.phase_processed_samples,
                total_samples: progress.phase_total_samples,
            },
            Some(phase_name(progress.phase)),
        ),
        if batch.batch_mode {
            batch_bytes(known)
        } else {
            ByteProgress {
                input_bytes_read: progress.overall_input_bytes_read,
                output_bytes_written: progress.overall_output_bytes_written,
            }
        },
        ByteProgress {
            input_bytes_read: progress.phase_input_bytes_read,
            output_bytes_written: progress.phase_output_bytes_written,
        },
        batch_elapsed,
        phase_elapsed,
        file_elapsed,
    )
}

/// The file with a number.
pub open spec fn file_of(batch: BatchView, file_id: usize) -> FileView {
    batch.files[place_of(batch.files, file_id).unwrap()]
}

/// A file with a number is being converted.
pub open spec fn has_file(batch: BatchView, file_id: usize) -> bool {
    place_of(batch.files, file_id) is Some
}

/// The nanoseconds since a moment.
pub open spec fn since(start: u64, now: u64) -> u64 {
    if now >= start {
        (now - start) as u64
    } else {
        0
    }
}

/// The moment when a batch or a phase was started: now, if it was not.
pub open spec fn started(start: Option<u64>, now: u64) -> u64 {
    match start {
        Some(start) => start,
        None => now,
    }
}

fn elapsed_since(start: u64, now: u64) -> (elapsed: u64)
    ensures
        elapsed == since(start, now),
{
    if now >= start {
        now - start
    } else {
        0
    }
}

fn started_at(start: Option<u64>, now: u64) -> (moment: u64)
    ensures
        moment == started(start, now),
{
    match start {
        Some(start) => start,
        None => now,
    }
}

/// The samples of a first update, if this is the first that tells of any.
pub open spec fn first_samples(saw_update: bool, processed: u64, total: u64) -> Option<u64> {
    if !saw_update && processed > 0 {
        Some(smaller_of(processed, total))
    } else {
        None
    }
}

/// A batch, what is to be drawn and the samples of a first update, once it was told of a
/// file.
pub open spec fn observed(
    batch: BatchView,
    file_id: usize,
    progress: ProgressSnapshot,
    batch_elapsed: u64,
    file_elapsed: u64,
) -> (BatchView, RequestView, Option<u64>) {
    let file = file_of(batch, file_id);
    let (after, request) = with_snapshot(
        batch,
        FileView { saw_update: true, ..file },
        progress,
        batch_elapsed,
        file_elapsed,
    );
    (
        after,
        request,
        first_samples(file.saw_update, progress.processed_samples, file.phase_total_samples),
    )
}

/// A file in a phase that starts now, unless it was in it already.
pub open spec fn in_phase(file: FileView, phase: RecompressPhase, now: u64) -> FileView {
    if file.phase == Some(phase) {
        FileView { phase_started_at: Some(started(file.phase_started_at, now)), ..file }
    } else {
        FileView {
            phase: Some(phase),
            phase_started_at: Some(now),
            file_state: fresh_state(),
            ..file
        }
    }
}

/// A batch, what is to be drawn and the samples of a first update, once it was told of a
/// recompression.
pub open spec fn observed_recompress(
    batch: BatchView,
    file_id: usize,
    progress: RecompressProgress,
    batch_elapsed: u64,
    now: u64,
) -> (BatchView, RequestView, Option<u64>) {
    let file = file_of(batch, file_id);
    let current = in_phase(FileView { saw_update: true, ..file }, progress.phase, now);
    let (after, request) = with_recompress_snapshot(
        batch,
        current,
        progress,
        batch_elapsed,
        since(current.phase_started_at.unwrap(), now),
        since(file.started_at, now),
    );
    (
        after,
        request,
        first_samples(
            file.saw_update,
            progress.overall_processed_samples,
            file.overall_total_samples,
        ),
    )
}

/// A report on a file of which nothing was done.
pub open spec fn blank_snapshot(total_samples: u64) -> ProgressSnapshot {
    ProgressSnapshot {
        processed_samples: 0,
        total_samples,
        completed_frames: 0,
        total_frames: 0,
        input_bytes_read: 0,
        output_bytes_written: 0,
    }
}

/// A report on a recompression of which nothing was done.
pub open spec fn blank_recompress(phase_total_samples: u64, overall_total_samples: u64)
    -> RecompressProgress {
    RecompressProgress {
        phase: RecompressPhase::Decode,
        phase_processed_samples: 0,
        phase_total_samples,
        overall_processed_samples: 0,
        overall_total_samples,
        completed_frames: 0,
        total_frames: 0,
        phase_input_bytes_read: 0,
        phase_output_bytes_written: 0,
        overall_input_bytes_read: 0,
        overall_output_bytes_written: 0,
    }
}

/// A file whose conversion starts now.
pub open spec fn new_file(
    file_id: usize,
    filename: Seq<char>,
    input_bytes: u64,
    phase_total_samples: u64,
    overall_total_samples: u64,
    now: u64,
) -> FileView {
    FileView {
        file_id,
        filename,
        input_bytes,
        phase_total_samples,
        overall_total_samples,
        phase: None,
        saw_update: false,
        started_at: now,
        phase_started_at: None,
        current_progress: None,
        current_recompress_progress: None,
        file_state: fresh_state(),
    }
}

/// A batch and what is to be drawn, once a file was begun. A file that is worked through
/// twice is recompressed.
pub open spec fn begun(batch: BatchView, file: FileView, now: u64) -> (BatchView, RequestView) {
    let start = started(batch.batch_started_at, now);
    let opened = BatchView {
        files: with_file(batch.files, file),
        display_file_id: Some(file.file_id),
        batch_started_at: Some(start),
        ..batch
    };
    if file.phase_total_samples == file.overall_total_samples {
        with_snapshot(
            opened,
            file,
            blank_snapshot(file.phase_total_samples),
            since(start, now),
            since(file.started_at, now),
        )
    } else {
        let current = FileView {
            phase: Some(RecompressPhase::Decode),
            phase_started_at: Some(now),
            ..file
        };
        with_recompress_snapshot(
            opened,
            current,
            blank_recompress(file.phase_total_samples, file.overall_total_samples),
            since(start, now),
            since(now, now),
            since(file.started_at, now),
        )
    }
}

/// A report on a file that was done without one.
pub open spec fn completed_snapshot(file: FileView) -> ProgressSnapshot {
    ProgressSnapshot {
        processed_samples: file.phase_total_samples,
        total_samples: file.phase_total_samples,
        completed_frames: 0,
        total_frames: 0,
        input_bytes_read: file.input_bytes,
        output_bytes_written: 0,
    }
}

/// A batch without a file that is done.
pub open spec fn without_file(batch: BatchView, file_id: usize) -> BatchView {
    let file = file_of(batch, file_id);
    let files = batch.files.remove(place_of(batch.files, file_id).unwrap());
    BatchView {
        files,
        completed_samples: saturated(
            batch.completed_samples as nat + file.overall_total_samples as nat,
        ),
        completed_input_bytes: saturated(
            batch.completed_input_bytes as nat + bytes_of(file).input_bytes_read as nat,
        ),
        completed_output_bytes: saturated(
            batch.completed_output_bytes as nat + bytes_of(file).output_bytes_written as nat,
        ),
        display_file_id: if batch.display_file_id == Some(file_id) {
            if files.len() > 0 {
                Some(files[0].file_id)
            } else {
                None
            }
        } else {
            batch.display_file_id
        },
        ..batch
    }
}

/// A batch after a file is done. A file without any report is reported as a whole first.
pub open spec fn finished(batch: BatchView, file_id: usize, now: u64) -> BatchView {
    let file = file_of(batch, file_id);
    if file.saw_update {
        without_file(batch, file_id)
    } else {
        let start = started(batch.batch_started_at, now);
        without_file(
            observed(
                BatchView { batch_started_at: Some(start), ..batch },
                file_id,
                completed_snapshot(file),
                since(start, now),
                since(file.started_at, now),
            ).0,
            file_id,
        )
    }
}

/// A file is found in its first place.
pub proof fn lemma_place_of(files: Seq<FileView>, file_id: usize)
    ensures
        match place_of(files, file_id) {
            Some(place) => 0 <= place < files.len() && files[place].file_id == file_id
                && forall|i: int| 0 <= i < place ==> (#[trigger] files[i]).file_id != file_id,
            None => forall|i: int|
                0 <= i < files.len() ==> (#[trigger] files[i]).file_id != file_id,
        },
    decreases files.len(),
{
    if files.len() > 0 && files[0].file_id != file_id {
        lemma_place_of(files.skip(1), file_id);
        assert forall|i: int| 1 <= i < files.len() implies #[trigger] files[i] == files.skip(
            1,
        )[i - 1] by {}
    }
}

proof fn lemma_place_is(files: Seq<FileView>, file_id: usize, place: int)
    requires
        0 <= place < files.len(),
        files[place].file_id == file_id,
        forall|i: int| 0 <= i < place ==> (#[trigger] files[i]).file_id != file_id,
    ensures
        place_of(files, file_id) == Some(place),
    decreases files.len(),
{
    if place > 0 {
        let rest = files.skip(1);
        assert forall|i: int| 0 <= i < place - 1 implies (#[trigger] rest[i]).file_id
            != file_id by {
            assert(rest[i] == files[i + 1]);
        }
        lemma_place_is(rest, file_id, place - 1);
    }
}

/// A file that was put in is found.
proof fn lemma_with_file(files: Seq<FileView>, file: FileView)
    ensures
        place_of(with_file(files, file), file.file_id) is Some,
        with_file(files, file)[place_of(with_file(files, file), file.file_id).unwrap()] == file,
{
    let longer = with_file(files, file);
    lemma_place_of(files, file.file_id);
    match place_of(files, file.file_id) {
        Some(place) => {
            assert forall|i: int| 0 <= i < place implies (#[trigger] longer[i]).file_id
                != file.file_id by {
                assert(longer[i] == files[i]);
            }
            lemma_place_is(longer, file.file_id, place);
        },
        None => {
            let place = place_for(files, file.file_id);
            lemma_place_for(files, file.file_id);
            assert forall|i: int| 0 <= i < place implies (#[trigger] longer[i]).file_id
                != file.file_id by {
                assert(longer[i] == files[i]);
            }
            lemma_place_is(longer, file.file_id, place);
        },
    }
}

/// A file has a place among others.
pub proof fn lemma_place_for(files: Seq<FileView>, file_id: usize)
    ensures
        0 <= place_for(files, file_id) <= files.len(),
    decreases files.len(),
{
    if files.len() > 0 && files[0].file_id <= file_id {
        lemma_place_for(files.skip(1), file_id);
    }
}

impl CurrentFileProgress {
    /// A file with the same contents.
    fn copied(&self) -> (file: Self)
        ensures
            file@ == self@,
    {
        CurrentFileProgress {
            file_id: self.file_id,
            filename: self.filename.as_str().to_owned(),
            input_bytes: self.input_bytes,
            phase_total_samples: self.phase_total_samples,
            overall_total_samples: self.overall_total_samples,
            phase: self.phase,
            saw_update: self.saw_update,
            started_at: self.started_at,
            phase_started_at: self.phase_started_at,
            current_progress: self.current_progress,
            current_recompress_progress: self.current_recompress_progress,
            file_state: self.file_state,
        }
    }
}

impl BatchProgressCoordinator {
    /// A batch of which nothing was done.
    pub fn new(interactive: bool, total_samples: u64, batch_mode: bool) -> (batch: Self)
        ensures
            batch@ == (BatchView {
                interactive,
                total_samples,
                batch_mode,
                completed_samples: 0,
                completed_input_bytes: 0,
                completed_output_bytes: 0,
                files: Seq::empty(),
                display_file_id: None,
                batch_started_at: None,
                overall_state: fresh_state(),
            }),
    {
        let batch = BatchProgressCoordinator {
            interactive,
            total_samples,
            batch_mode,
            completed_samples: 0,
            completed_input_bytes: 0,
            completed_output_bytes: 0,
            active_files: Vec::new(),
            display_file_id: None,
            batch_started_at: None,
            overall_state: ProgressState::default(),
        };
        assert(file_views(batch.active_files@) == Seq::<FileView>::empty());
        batch
    }

    /// The place of a file.
    fn find(&self, file_id: usize) -> (place: Option<usize>)
        ensures
            match place {
                Some(found) => place_of(self@.files, file_id) == Some(found as int) && found
                    < self.active_files@.len(),
                None => place_of(self@.files, file_id) is None,
            },
    {
        let ghost files = file_views(self.active_files@);
        let mut index: usize = 0;
        while index < self.active_files.len()
            invariant
                index <= self.active_files@.len(),
                files == file_views(self.active_files@),
                forall|i: int| 0 <= i < index ==> (#[trigger] files[i]).file_id != file_id,
            decreases self.active_files.len() - index,
        {
            assert(files[index as int] == self.active_files@[index as int]@);
            if self.active_files[index].file_id == file_id {
                proof {
                    lemma_place_is(files, file_id, index as int);
                }
                return Some(index);
            }
            index = index + 1;
        }
        proof {
            lemma_place_of(files, file_id);
        }
        None
    }

    /// A file that is being converted.
    fn file(&self, file_id: usize) -> (file: CurrentFileProgress)
        requires
            has_file(self@, file_id),
        ensures
            file@ == file_of(self@, file_id),
    {
        match self.find(file_id) {
            Some(place) => {
                assert(self@.files[place as int] == self.active_files@[place as int]@);
                self.active_files[place].copied()
            },
            None => vstd::pervasive::unreached(),
        }
    }

    /// Puts a file in.
    fn put_file(&mut self, file: CurrentFileProgress)
        ensures
            final(self)@ == (BatchView { files: with_file(old(self)@.files, file@), ..old(self)@ }),
    {
        let ghost files = file_views(self.active_files@);
        let ghost view = file@;
        match self.find(file.file_id) {
            Some(place) => {
                self.active_files.set(place, file);
                assert(file_views(self.active_files@) == files.update(place as int, view));
            },
            None => {
                let mut place: usize = 0;
                assert(files.skip(0) == files);
                while place < self.active_files.len() && self.active_files[place].file_id
                    <= file.file_id
                    invariant
                        place <= self.active_files@.len(),
                        files == file_views(self.active_files@),
                        *self == *old(self),
                        view == file@,
                        place_for(files, view.file_id) == place + place_for(
                            files.skip(place as int),
                            view.file_id,
                        ),
                    ensures
                        place_for(files, view.file_id) == place,
                    decreases self.active_files.len() - place,
                {
                    proof {
                        assert(files[place as int] == self.active_files@[place as int]@);
                        assert(files.skip(place as int).skip(1) == files.skip(place + 1));
                    }
                    place = place + 1;
                }
                self.active_files.insert(place, file);
                assert(file_views(self.active_files@) == files.insert(place as int, view));
            },
        }
    }

    /// The samples of the batch that count as done.
    pub fn active_overall_processed_samples(&self) -> (samples: u64)
        ensures
            samples == batch_processed(self@),
    {
        let ghost files = self@.files;
        let mut samples: u64 = self.completed_samples;
        let mut index: usize = 0;
        assert(files.take(0) == Seq::<FileView>::empty());
        while index < self.active_files.len()
            invariant
                index <= self.active_files@.len(),
                files == file_views(self.active_files@),
                samples == saturated(
                    self.completed_samples as nat + processed_sum(files.take(index as int)),
                ),
            decreases self.active_files.len() - index,
        {
            proof {
                let next = files.take(index + 1);
                assert(next.drop_last() == files.take(index as int));
                assert(next.last() == self.active_files@[index as int]@);
            }
            let more: u64 = self.active_files[index].overall_processed_samples();
            samples = samples.saturating_add(more);
            index = index + 1;
        }
        assert(files.take(index as int) == files);
        samples
    }

    /// The bytes of the batch that were read and written.
    pub fn active_overall_processed_bytes(&self) -> (bytes: ByteProgress)
        ensures
            bytes == batch_bytes(self@),
    {
        let ghost files = self@.files;
        let mut read: u64 = self.completed_input_bytes;
        let mut written: u64 = self.completed_output_bytes;
        let mut index: usize = 0;
        assert(files.take(0) == Seq::<FileView>::empty());
        while index < self.active_files.len()
            invariant
                index <= self.active_files@.len(),
                files == file_views(self.active_files@),
                read == saturated(
                    self.completed_input_bytes as nat + read_sum(files.take(index as int)),
                ),
                written == saturated(
                    self.completed_output_bytes as nat + written_sum(files.take(index as int)),
                ),
            decreases self.active_files.len() - index,
        {
            proof {
                let next = files.take(index + 1);
                assert(next.drop_last() == files.take(index as int));
                assert(next.last() == self.active_files@[index as int]@);
            }
            let bytes = self.active_files[index].overall_processed_bytes();
            read = read.saturating_add(bytes.input_bytes_read);
            written = written.saturating_add(bytes.output_bytes_written);
            index = index + 1;
        }
        assert(files.take(index as int) == files);
        ByteProgress { input_bytes_read: read, output_bytes_written: written }
    }

    /// What is shown of a file and the batch.
    fn display(
        &self,
        filename: &str,
        single: SampleProgress,
        file: SampleProgress,
        phase_label: Option<&'static str>,
    ) -> (display: ProgressDisplay)
        ensures
            display@ == display_of(
                self@,
                filename@,
                single,
                file,
                match phase_label {
                    Some(label) => Some(label@),
                    None => None,
                },
            ),
    {
        let overall = if self.batch_mode {
            SampleProgress {
                processed_samples: smaller(
                    self.active_overall_processed_samples(),
                    self.total_samples,
                ),
                total_samples: self.total_samples,
            }
        } else {
            single
        };
        ProgressDisplay {
            filename: filename.to_owned(),
            overall,
            file: if self.batch_mode {
                Some(file)
            } else {
                None
            },
            phase_label,
        }
    }

    /// Estimates a display.
    fn estimate(
        &mut self,
        file: CurrentFileProgress,
        display: ProgressDisplay,
        overall_bytes: ByteProgress,
        file_bytes: ByteProgress,
        batch_elapsed: u64,
        estimate_elapsed: u64,
        file_elapsed: u64,
    ) -> (request: RenderRequest)
        ensures
            (final(self)@, request@) == estimated(
                old(self)@,
                file@,
                display@,
                overall_bytes,
                file_bytes,
                batch_elapsed,
                estimate_elapsed,
                file_elapsed,
            ),
    {
        let mut file = file;
        let overall = self.overall_state.observe(
            display.overall.processed_samples,
            display.overall.total_samples,
            overall_bytes.input_bytes_read,
            overall_bytes.output_bytes_written,
            batch_elapsed,
        );
        let file_estimate = match display.file {
            Some(samples) => file.file_state.observe(
                samples.processed_samples,
                samples.total_samples,
                file_bytes.input_bytes_read,
                file_bytes.output_bytes_written,
                estimate_elapsed,
            ),
            None => None,
        };
        self.put_file(file);
        RenderRequest { display, overall, file: file_estimate, batch_elapsed, file_elapsed }
    }

    /// Takes in a report on a file.
    fn take_snapshot(
        &mut self,
        file: CurrentFileProgress,
        progress: ProgressSnapshot,
        batch_elapsed: u64,
        file_elapsed: u64,
    ) -> (request: RenderRequest)
        ensures
            (final(self)@, request@) == with_snapshot(
                old(self)@,
                file@,
                progress,
                batch_elapsed,
                file_elapsed,
            ),
    {
        let mut told = file;
        told.current_progress = Some(progress);
        told.current_recompress_progress = None;
        self.display_file_id = Some(told.file_id);
        self.put_file(told.copied());
        let done = SampleProgress {
            processed_samples: smaller(progress.processed_samples, told.phase_total_samples),
            total_samples: told.phase_total_samples,
        };
        let display = self.display(told.filename.as_str(), done, done, None);
        let overall_bytes = self.active_overall_processed_bytes();
        let file_bytes = ByteProgress {
            input_bytes_read: progress.input_bytes_read,
            output_bytes_written: progress.output_bytes_written,
        };
        self.estimate(
            told,
            display,
            overall_bytes,
            file_bytes,
            batch_elapsed,
            file_elapsed,
            file_elapsed,
        )
    }

    /// Takes in a report on a recompression.
    fn take_recompress_snapshot(
        &mut self,
        file: CurrentFileProgress,
        progress: RecompressProgress,
        batch_elapsed: u64,
        phase_elapsed: u64,
        file_elapsed: u64,
    ) -> (request: RenderRequest)
        ensures
            (final(self)@, request@) == with_recompress_snapshot(
                old(self)@,
                file@,
                progress,
                batch_elapsed,
                phase_elapsed,
                file_elapsed,
            ),
    {
        let mut told = file;
        told.current_progress = None;
        told.current_recompress_progress = Some(progress);
        self.display_file_id = Some(told.file_id);
        self.put_file(told.copied());
        let display = self.display(
            told.filename.as_str(),
            SampleProgress {
                processed_samples: progress.overall_processed_samples,
                total_samples: progress.overall_total_samples,
            },
            SampleProgress {
                processed_samples: progress.phase_processed_samples,
                total_samples: progress.phase_total_samples,
            },
            Some(progress.phase.as_str()),
        );
        let overall_bytes = if self.batch_mode {
            self.active_overall_processed_bytes()
        } else {
            ByteProgress {
                input_bytes_read: progress.overall_input_bytes_read,
                output_bytes_written: progress.overall_output_bytes_written,
            }
        };
        let file_bytes = ByteProgress {
            input_bytes_read: progress.phase_input_bytes_read,
            output_bytes_written: progress.phase_output_bytes_written,
        };
        self.estimate(
            told,
            display,
            overall_bytes,
            file_bytes,
            batch_elapsed,
            phase_elapsed,
            file_elapsed,
        )
    }

    /// Begins a file. Times are in nanoseconds.
    pub fn begin_file_for(
        &mut self,
        file_id: usize,
        filename: &str,
        input_bytes: u64,
        phase_total_samples: u64,
        overall_total_samples: u64,
        now: u64,
    ) -> (request: RenderRequest)
        ensures
            (final(self)@, request@) == begun(
                old(self)@,
                new_file(
                    file_id,
                    filename@,
                    input_bytes,
                    phase_total_samples,
                    overall_total_samples,
                    now,
                ),
                now,
            ),
    {
        let file = CurrentFileProgress {
            file_id,
            filename: filename.to_owned(),
            input_bytes,
            phase_total_samples,
            overall_total_samples,
            phase: None,
            saw_update: false,
            started_at: now,
            phase_started_at: None,
            current_progress: None,
            current_recompress_progress: None,
            file_state: ProgressState::default(),
        };
        let start: u64 = started_at(self.batch_started_at, now);
        self.batch_started_at = Some(start);
        self.display_file_id = Some(file_id);
        self.put_file(file.copied());
        let batch_elapsed: u64 = elapsed_since(start, now);
        if phase_total_samples == overall_total_samples {
            let progress = ProgressSnapshot {
                processed_samples: 0,
                total_samples: phase_total_samples,
                completed_frames: 0,
                total_frames: 0,
                input_bytes_read: 0,
                output_bytes_written: 0,
            };
            self.take_snapshot(file, progress, batch_elapsed, 0)
        } else {
            let mut current = file;
            current.phase = Some(RecompressPhase::Decode);
            current.phase_started_at = Some(now);
            let progress = RecompressProgress {
                phase: RecompressPhase::Decode,
                phase_processed_samples: 0,
                phase_total_samples,
                overall_processed_samples: 0,
                overall_total_samples,
                completed_frames: 0,
                total_frames: 0,
                phase_input_bytes_read: 0,
                phase_output_bytes_written: 0,
                overall_input_bytes_read: 0,
                overall_output_bytes_written: 0,
            };
            self.take_recompress_snapshot(current, progress, batch_elapsed, 0, 0)
        }
    }

    /// The nanoseconds since the batch was started.
    pub fn batch_elapsed(&mut self, now: u64) -> (elapsed: u64)
        ensures
            final(self)@ == (BatchView {
                batch_started_at: Some(started(old(self)@.batch_started_at, now)),
                ..old(self)@
            }),
            elapsed == since(started(old(self)@.batch_started_at, now), now),
    {
        let start: u64 = started_at(self.batch_started_at, now);
        self.batch_started_at = Some(start);
        elapsed_since(start, now)
    }

    /// Takes in a report on a file, after the given times. It returns the samples of a
    /// first report too.
    pub fn observe_with_elapsed_for(
        &mut self,
        file_id: usize,
        progress: ProgressSnapshot,
        batch_elapsed: u64,
        file_elapsed: u64,
    ) -> (told: (RenderRequest, Option<u64>))
        requires
            has_file(old(self)@, file_id),
        ensures
            ({
                let (after, request, first) = observed(
                    old(self)@,
                    file_id,
                    progress,
                    batch_elapsed,
                    file_elapsed,
                );
                final(self)@ == after && told.0@ == request && told.1 == first
            }),
    {
        let mut file = self.file(file_id);
        let first: Option<u64> = if !file.saw_update && progress.processed_samples > 0 {
            Some(smaller(progress.processed_samples, file.phase_total_samples))
        } else {
            None
        };
        file.saw_update = true;
        let request = self.take_snapshot(file, progress, batch_elapsed, file_elapsed);
        (request, first)
    }

    /// Takes in a report on a file.
    pub fn observe_for(&mut self, file_id: usize, progress: ProgressSnapshot, now: u64) -> (told: (
        RenderRequest,
        Option<u64>,
    ))
        requires
            has_file(old(self)@, file_id),
        ensures
            ({
                let start = started(old(self)@.batch_started_at, now);
                let (after, request, first) = observed(
                    (BatchView { batch_started_at: Some(start), ..old(self)@ }),
                    file_id,
                    progress,
                    since(start, now),
                    since(file_of(old(self)@, file_id).started_at, now),
                );
                final(self)@ == after && told.0@ == request && told.1 == first
            }),
    {
        let file_elapsed: u64 = elapsed_since(self.file(file_id).started_at, now);
        let batch_elapsed: u64 = self.batch_elapsed(now);
        self.observe_with_elapsed_for(file_id, progress, batch_elapsed, file_elapsed)
    }

    /// Takes in a report on a recompression, after the given time. It returns the samples
    /// of a first report too.
    pub fn observe_recompress_with_elapsed_for(
        &mut self,
        file_id: usize,
        progress: RecompressProgress,
        batch_elapsed: u64,
        now: u64,
    ) -> (told: (RenderRequest, Option<u64>))
        requires
            has_file(old(self)@, file_id),
        ensures
            ({
                let (after, request, first) = observed_recompress(
                    old(self)@,
                    file_id,
                    progress,
                    batch_elapsed,
                    now,
                );
                final(self)@ == after && told.0@ == request && told.1 == first
            }),
    {
        let mut file = self.file(file_id);
        let first: Option<u64> = if !file.saw_update && progress.overall_processed_samples > 0 {
            Some(smaller(progress.overall_processed_samples, file.overall_total_samples))
        } else {
            None
        };
        file.saw_update = true;
        let file_elapsed: u64 = elapsed_since(file.started_at, now);
        let same_phase = match file.phase {
            Some(phase) => phase == progress.phase,
            None => false,
        };
        let phase_start: u64 = if same_phase {
            started_at(file.phase_started_at, now)
        } else {
            file.phase = Some(progress.phase);
            file.file_state = ProgressState::default();
            now
        };
        file.phase_started_at = Some(phase_start);
        let phase_elapsed: u64 = elapsed_since(phase_start, now);
        let request = self.take_recompress_snapshot(
            file,
            progress,
            batch_elapsed,
            phase_elapsed,
            file_elapsed,
        );
        (request, first)
    }

    /// Takes in a report on a recompression.
    pub fn observe_recompress_for(&mut self, file_id: usize, progress: RecompressProgress, now: u64)
        -> (told: (RenderRequest, Option<u64>))
        requires
            has_file(old(self)@, file_id),
        ensures
            ({
                let start = started(old(self)@.batch_started_at, now);
                let (after, request, first) = observed_recompress(
                    (BatchView { batch_started_at: Some(start), ..old(self)@ }),
                    file_id,
                    progress,
                    since(start, now),
                    now,
                );
                final(self)@ == after && told.0@ == request && told.1 == first
            }),
    {
        let batch_elapsed: u64 = self.batch_elapsed(now);
        self.observe_recompress_with_elapsed_for(file_id, progress, batch_elapsed, now)
    }
}

/// A file that was converted.
#[derive(Debug, Clone)]
pub struct FinishedFile {
    pub filename: String,
    pub input_bytes: u64,
    pub elapsed: u64,
    /// What is to be drawn for a file without any report, and the samples of that report.
    pub last: Option<(RenderRequest, Option<u64>)>,
}

/// What is drawn again while no reports come, if there is anything.
pub open spec fn repainted(batch: BatchView, now: u64) -> Option<(BatchView, RequestView)> {
    match batch.display_file_id {
        None => None,
        Some(file_id) => if !has_file(batch, file_id) {
            None
        } else {
            let file = file_of(batch, file_id);
            let start = started(batch.batch_started_at, now);
            let timed = BatchView { batch_started_at: Some(start), ..batch };
            match (file.current_progress, file.current_recompress_progress) {
                (Some(progress), _) => Some(
                    with_snapshot(
                        timed,
                        file,
                        progress,
                        since(start, now),
                        since(file.started_at, now),
                    ),
                ),
                (None, Some(progress)) => {
                    let phase_start = started(file.phase_started_at, now);
                    Some(
                        with_recompress_snapshot(
                            timed,
                            FileView { phase_started_at: Some(phase_start), ..file },
                            progress,
                            since(start, now),
                            since(phase_start, now),
                            since(file.started_at, now),
                        ),
                    )
                },
                (None, None) => None,
            }
        },
    }
}

/// When to draw again, if there is anything to draw: when a clock shows the next second.
pub open spec fn repaint_delay(batch: BatchView, now: u64) -> Option<u64> {
    match batch.display_file_id {
        None => None,
        Some(file_id) => if !batch.interactive || !has_file(batch, file_id) {
            None
        } else {
            let file = file_of(batch, file_id);
            let batch_delay = (NANOS_PER_SECOND - since(
                started(batch.batch_started_at, now),
                now,
            ) % NANOS_PER_SECOND) as u64;
            let file_delay = (NANOS_PER_SECOND - since(file.started_at, now)
                % NANOS_PER_SECOND) as u64;
            if file.current_progress is None && file.current_recompress_progress is None {
                None
            } else if batch.batch_mode {
                Some(smaller_of(batch_delay, file_delay))
            } else {
                Some(batch_delay)
            }
        },
    }
}

/// A file that was reported on is still there.
proof fn lemma_observed_file(
    batch: BatchView,
    file_id: usize,
    progress: ProgressSnapshot,
    batch_elapsed: u64,
    file_elapsed: u64,
)
    requires
        has_file(batch, file_id),
    ensures
        has_file(observed(batch, file_id, progress, batch_elapsed, file_elapsed).0, file_id),
{
    lemma_place_of(batch.files, file_id);
    let file = FileView { saw_update: true, ..file_of(batch, file_id) };
    let told = FileView {
        current_progress: Some(progress),
        current_recompress_progress: None,
        ..file
    };
    let known = with_file(batch.files, told);
    let done = SampleProgress {
        processed_samples: smaller_of(progress.processed_samples, file.phase_total_samples),
        total_samples: file.phase_total_samples,
    };
    let last = if batch.batch_mode {
        FileView {
            file_state: state_after(
                told.file_state,
                smaller_of(done.processed_samples, done.total_samples),
                file_elapsed,
            ),
            ..told
        }
    } else {
        told
    };
    lemma_with_file(known, last);
}

impl BatchProgressCoordinator {
    /// Takes a file out that is done.
    fn remove_file(&mut self, file_id: usize) -> (file: CurrentFileProgress)
        requires
            has_file(old(self)@, file_id),
        ensures
            file@ == file_of(old(self)@, file_id),
            final(self)@ == without_file(old(self)@, file_id),
    {
        let ghost files = self@.files;
        let place: usize = match self.find(file_id) {
            Some(place) => place,
            None => vstd::pervasive::unreached(),
        };
        assert(files[place as int] == self.active_files@[place as int]@);
        let file = self.active_files.remove(place);
        assert(file_views(self.active_files@) == files.remove(place as int));
        self.completed_samples = self.completed_samples.saturating_add(file.overall_total_samples);
        let bytes = file.overall_processed_bytes();
        self.completed_input_bytes = self.completed_input_bytes.saturating_add(
            bytes.input_bytes_read,
        );
        self.completed_output_bytes = self.completed_output_bytes.saturating_add(
            bytes.output_bytes_written,
        );
        let shown = match self.display_file_id {
            Some(shown) => shown == file_id,
            None => false,
        };
        if shown {
            self.display_file_id = if self.active_files.len() > 0 {
                Some(self.active_files[0].file_id)
            } else {
                None
            };
        }
        file
    }

    /// Ends a file, if it is being converted.
    pub fn finish_file(&mut self, file_id: usize, now: u64) -> (done: Option<FinishedFile>)
        ensures
            match done {
                None => !has_file(old(self)@, file_id) && final(self)@ == old(self)@,
                Some(found) => {
                    let file = file_of(old(self)@, file_id);
                    let start = started(old(self)@.batch_started_at, now);
                    let last = observed(
                        (BatchView { batch_started_at: Some(start), ..old(self)@ }),
                        file_id,
                        completed_snapshot(file),
                        since(start, now),
                        since(file.started_at, now),
                    );
                    &&& has_file(old(self)@, file_id)
                    &&& final(self)@ == finished(old(self)@, file_id, now)
                    &&& found.filename@ == file.filename
                    &&& found.input_bytes == file.input_bytes
                    &&& found.elapsed == since(file.started_at, now)
                    &&& match found.last {
                        Some((request, first)) => !file.saw_update && request@ == last.1 && first
                            == last.2,
                        None => file.saw_update,
                    }
                },
            },
    {
        if self.find(file_id).is_none() {
            return None;
        }
        let file = self.file(file_id);
        let elapsed: u64 = elapsed_since(file.started_at, now);
        let mut last: Option<(RenderRequest, Option<u64>)> = None;
        if !file.saw_update {
            let completed = ProgressSnapshot {
                processed_samples: file.phase_total_samples,
                total_samples: file.phase_total_samples,
                completed_frames: 0,
                total_frames: 0,
                input_bytes_read: file.input_bytes,
                output_bytes_written: 0,
            };
            let batch_elapsed: u64 = self.batch_elapsed(now);
            proof {
                lemma_observed_file(self@, file_id, completed, batch_elapsed, elapsed);
            }
            last =
            Some(self.observe_with_elapsed_for(file_id, completed, batch_elapsed, elapsed));
        }
        let _removed = self.remove_file(file_id);
        Some(
            FinishedFile {
                filename: file.filename,
                input_bytes: file.input_bytes,
                elapsed,
                last,
            },
        )
    }

    /// Draws again what was drawn last.
    pub fn heartbeat(&mut self, now: u64) -> (request: Option<RenderRequest>)
        ensures
            match request {
                Some(found) => repainted(old(self)@, now) == Some((final(self)@, found@)),
                None => repainted(old(self)@, now) is None && final(self)@ == old(self)@,
            },
    {
        let file_id: usize = match self.display_file_id {
            Some(file_id) => file_id,
            None => return None,
        };
        if self.find(file_id).is_none() {
            return None;
        }
        let file = self.file(file_id);
        let file_elapsed: u64 = elapsed_since(file.started_at, now);
        match file.current_progress {
            Some(progress) => {
                let batch_elapsed: u64 = self.batch_elapsed(now);
                Some(self.take_snapshot(file, progress, batch_elapsed, file_elapsed))
            },
            None => match file.current_recompress_progress {
                Some(progress) => {
                    let batch_elapsed: u64 = self.batch_elapsed(now);
                    let mut file = file;
                    let phase_start: u64 = started_at(file.phase_started_at, now);
                    file.phase_started_at = Some(phase_start);
                    let phase_elapsed: u64 = elapsed_since(phase_start, now);
                    Some(
                        self.take_recompress_snapshot(
                            file,
                            progress,
                            batch_elapsed,
                            phase_elapsed,
                            file_elapsed,
                        ),
                    )
                },
                None => None,
            },
        }
    }

    /// When to draw again, in nanoseconds.
    pub fn next_heartbeat_delay(&self, now: u64) -> (delay: Option<u64>)
        ensures
            delay == repaint_delay(self@, now),
    {
        if !self.interactive {
            return None;
        }
        let file_id: usize = match self.display_file_id {
            Some(file_id) => file_id,
            None => return None,
        };
        if self.find(file_id).is_none() {
            return None;
        }
        let file = self.file(file_id);
        if file.current_progress.is_none() && file.current_recompress_progress.is_none() {
            return None;
        }
        let batch_start: u64 = started_at(self.batch_started_at, now);
        let batch_delay: u64 = time_until_next_second(elapsed_since(batch_start, now));
        if self.batch_mode {
            let file_delay: u64 = time_until_next_second(elapsed_since(file.started_at, now));
            return Some(smaller(batch_delay, file_delay));
        }
        Some(batch_delay)
    }

    /// The file that is shown.
    pub fn displayed_file(&self) -> (file_id: Option<usize>)
        ensures
            file_id == self@.display_file_id,
    {
        self.display_file_id
    }

    /// The reports that went ahead in the current phase of a file, and the phase.
    pub fn file_phase(&self, file_id: usize) -> (phase: Option<(u8, Option<RecompressPhase>)>)
        ensures
            phase == if has_file(self@, file_id) {
                let file = file_of(self@, file_id);
                Some((file.file_state.advancing_updates, file.phase))
            } else {
                None
            },
    {
        if self.find(file_id).is_none() {
            return None;
        }
        let file = self.file(file_id);
        Some((file.file_state.advancing_updates, file.phase))
    }
}

/// A new phase of a file is estimated anew, and the file's own time goes on.
pub proof fn law_phases_are_estimated_anew(file: FileView, phase: RecompressPhase, now: u64)
    requires
        file.phase != Some(phase),
    ensures
        in_phase(file, phase, now).file_state == fresh_state(),
        in_phase(file, phase, now).phase == Some(phase),
        in_phase(file, phase, now).started_at == file.started_at,
{
}

/// What counts as done of a batch never exceeds its samples in what is shown.
pub proof fn law_shown_progress_is_bounded(
    batch: BatchView,
    file: FileView,
    progress: ProgressSnapshot,
    batch_elapsed: u64,
    file_elapsed: u64,
)
    ensures
        ({
            let shown = with_snapshot(batch, file, progress, batch_elapsed, file_elapsed).1.display;
            &&& shown.overall.processed_samples <= shown.overall.total_samples
            &&& shown.file matches Some(samples) ==> samples.processed_samples
                <= samples.total_samples
        }),
{
}

} // verus!
