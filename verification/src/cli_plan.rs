//! Planning the work of a command.

use vstd::prelude::*;
use vstd::seq_lib::to_multiset_insert;
use vstd::string::*;

use crate::cli_text::{empty_directory_text, command_name, is_source_extension, planning_failure, CommandKind};
use crate::config::{DecodeConfig, EncoderConfig};
use crate::error::{Error, ErrorView, Result};
use crate::raw::RawPcmDescriptor;
use crate::recompress::RecompressConfig;

verus! {

/// A request to encode.
#[derive(Debug, Clone, PartialEq, Eq)]
pub struct EncodeCommand {
    pub input: String,
    pub output: Option<String>,
    pub depth: usize,
    pub config: EncoderConfig,
    pub raw_descriptor: Option<RawPcmDescriptor>,
}

/// A request to decode.
#[derive(Debug, Clone, PartialEq, Eq)]
pub struct DecodeCommand {
    pub input: String,
    pub output: Option<String>,
    pub depth: usize,
    pub config: DecodeConfig,
}

/// A request to recompress.
#[derive(Debug, Clone, PartialEq, Eq)]
pub struct RecompressCommand {
    pub input: String,
    pub output: Option<String>,
    pub in_place: bool,
    pub depth: usize,
    pub config: RecompressConfig,
}

/// A file to convert.
#[derive(Debug, Clone, PartialEq, Eq)]
pub struct ConversionWorkItem {
    pub input: String,
    pub output: String,
    pub display_name: String,
    pub ensure_parent_dirs: bool,
    pub input_bytes: u64,
    pub phase_total_samples: u64,
    pub overall_total_samples: u64,
}

/// The contents of a [`ConversionWorkItem`].
pub struct ItemView {
    pub input: Seq<char>,
    pub output: Seq<char>,
    pub display_name: Seq<char>,
    pub ensure_parent_dirs: bool,
    pub input_bytes: u64,
    pub phase_total_samples: u64,
    pub overall_total_samples: u64,
}

impl View for ConversionWorkItem {
    type V = ItemView;

    open spec fn view(&self) -> ItemView {
        ItemView {
            input: self.input@,
            output: self.output@,
            display_name: self.display_name@,
            ensure_parent_dirs: self.ensure_parent_dirs,
            input_bytes: self.input_bytes,
            phase_total_samples: self.phase_total_samples,
            overall_total_samples: self.overall_total_samples,
        }
    }
}

/// The contents of items.
pub open spec fn item_views(items: Seq<ConversionWorkItem>) -> Seq<ItemView> {
    items.map_values(|item: ConversionWorkItem| item@)
}

/// The files that a command converts.
#[derive(Debug, Clone, PartialEq, Eq)]
pub struct PlannedWorklist {
    pub items: Vec<ConversionWorkItem>,
    pub total_samples: u64,
    pub is_directory: bool,
}

/// The samples that are worked through for a file: a recompression decodes and encodes
/// each.
pub open spec fn overall_samples(kind: CommandKind, samples: u64) -> u64 {
    if kind == CommandKind::Recompress {
        if samples > u64::MAX / 2 {
            u64::MAX
        } else {
            (samples * 2) as u64
        }
    } else {
        samples
    }
}

/// The samples that are worked through for a file.
pub fn overall_total_samples(kind: CommandKind, samples: u64) -> (overall: u64)
    ensures
        overall == overall_samples(kind, samples),
{
    if kind == CommandKind::Recompress {
        match samples.checked_mul(2) {
            Some(overall) => overall,
            None => u64::MAX,
        }
    } else {
        samples
    }
}

/// Where the output of a file goes.
#[derive(Debug, Clone, Copy, PartialEq, Eq)]
pub enum OutputRule {
    /// Over the input.
    InPlace,
    /// Beside the input, with another extension.
    Beside(&'static str),
    /// Beside the input, with `.recompressed.flac` behind its stem.
    BesideRecompressed,
    /// At the same place under an output root, with another extension.
    UnderRoot(&'static str),
}

/// Where the outputs of a command go when none is named, or when a root is.
pub open spec fn rule_for(
    kind: CommandKind,
    extension: &'static str,
    in_place: bool,
    has_root: bool,
) -> OutputRule {
    if kind == CommandKind::Recompress && in_place {
        OutputRule::InPlace
    } else if has_root {
        OutputRule::UnderRoot(extension)
    } else if kind == CommandKind::Recompress {
        OutputRule::BesideRecompressed
    } else {
        OutputRule::Beside(extension)
    }
}

/// Where the outputs of a command go when none is named, or when a root is.
pub fn output_rule(kind: CommandKind, extension: &'static str, in_place: bool, has_root: bool) -> (rule:
    OutputRule)
    ensures
        rule == rule_for(kind, extension, in_place, has_root),
{
    if kind == CommandKind::Recompress && in_place {
        OutputRule::InPlace
    } else if has_root {
        OutputRule::UnderRoot(extension)
    } else if kind == CommandKind::Recompress {
        OutputRule::BesideRecompressed
    } else {
        OutputRule::Beside(extension)
    }
}

/// An output that was asked for.
#[derive(Debug, Clone)]
pub struct RequestedOutput {
    pub path: String,
    pub is_dir: bool,
    pub exists: bool,
    pub is_input: bool,
}

/// Why an output cannot take a single file, if it cannot.
pub open spec fn single_output_failure(kind: CommandKind, output: RequestedOutput) -> Option<
    ErrorView,
> {
    if output.is_dir {
        Some(
            planning_failure(
                kind,
                "output path '"@ + output.path@
                    + "' is a directory; use a file path for single-file "@ + command_name(kind),
            ),
        )
    } else if kind == CommandKind::Recompress && output.is_input {
        Some(
            planning_failure(
                kind,
                "single-file recompress output must differ from the input path unless --in-place is used"@,
            ),
        )
    } else {
        None
    }
}

/// Tests an output for a single file.
pub fn check_single_output(kind: CommandKind, output: &RequestedOutput) -> (result: Result<()>)
    ensures
        match single_output_failure(kind, *output) {
            Some(expected) => result matches Err(error) && error@ == expected,
            None => result is Ok,
        },
{
    if output.is_dir {
        return Err(kind.planning_error(kind.single_file_output_error(output.path.as_str())));
    }
    if kind == CommandKind::Recompress && output.is_input {
        return Err(
            kind.planning_error(
                "single-file recompress output must differ from the input path unless --in-place is used".to_owned(),
            ),
        );
    }
    Ok(())
}

/// Why an output root cannot take a directory, if it cannot.
pub open spec fn root_failure(kind: CommandKind, root: RequestedOutput) -> Option<ErrorView> {
    if kind == CommandKind::Recompress && root.is_input {
        Some(
            planning_failure(
                kind,
                "folder recompress output root must differ from the input directory unless --in-place is used"@,
            ),
        )
    } else if root.exists && !root.is_dir {
        Some(
            planning_failure(
                kind,
                "output path '"@ + root.path@ + "' is not a directory for folder "@ + command_name(
                    kind,
                ),
            ),
        )
    } else {
        None
    }
}

/// Tests an output root.
pub fn validate_output_root(kind: CommandKind, root: &RequestedOutput) -> (result: Result<()>)
    ensures
        match root_failure(kind, *root) {
            Some(expected) => result matches Err(error) && error@ == expected,
            None => result is Ok,
        },
{
    if kind == CommandKind::Recompress && root.is_input {
        return Err(
            kind.planning_error(
                "folder recompress output root must differ from the input directory unless --in-place is used".to_owned(),
            ),
        );
    }
    if root.exists && !root.is_dir {
        return Err(kind.planning_error(kind.directory_output_error(root.path.as_str())));
    }
    Ok(())
}

/// The error of raw samples in a directory.
pub fn raw_directory_error() -> (error: Error)
    ensures
        error@ == ErrorView::Encode(
            "raw PCM encode does not support directory input in Stage 3"@,
        ),
{
    CommandKind::Encode.planning_error(
        "raw PCM encode does not support directory input in Stage 3".to_owned(),
    )
}

/// The work on a single file.
pub fn plan_single_file(
    kind: CommandKind,
    input: String,
    output: String,
    display_name: String,
    input_bytes: u64,
    total_samples: u64,
) -> (planned: PlannedWorklist)
    ensures
        !planned.is_directory,
        planned.total_samples == overall_samples(kind, total_samples),
        item_views(planned.items@) == seq![
            ItemView {
                input: input@,
                output: output@,
                display_name: display_name@,
                ensure_parent_dirs: false,
                input_bytes,
                phase_total_samples: total_samples,
                overall_total_samples: overall_samples(kind, total_samples),
            },
        ],
{
    let overall: u64 = overall_total_samples(kind, total_samples);
    let item = ConversionWorkItem {
        input,
        output,
        display_name,
        ensure_parent_dirs: false,
        input_bytes,
        phase_total_samples: total_samples,
        overall_total_samples: overall,
    };
    let ghost view = item@;
    let mut items: Vec<ConversionWorkItem> = Vec::new();
    items.push(item);
    assert(item_views(items@) == seq![view]);
    PlannedWorklist { items, total_samples: overall, is_directory: false }
}

/// A text comes before another: at the first place where they differ it has the smaller
/// character, or it ends.
pub open spec fn precedes(left: Seq<char>, right: Seq<char>) -> bool
    decreases left.len(),
{
    if right.len() == 0 {
        false
    } else if left.len() == 0 {
        true
    } else if left[0] != right[0] {
        left[0] < right[0]
    } else {
        precedes(left.skip(1), right.skip(1))
    }
}

/// Whether a text comes before another.
fn comes_before(left: &str, right: &str) -> (before: bool)
    ensures
        before == precedes(left@, right@),
{
    let left_len: usize = left.unicode_len();
    let right_len: usize = right.unicode_len();
    let mut index: usize = 0;
    assert(left@.skip(0) == left@);
    assert(right@.skip(0) == right@);
    loop
        invariant
            index <= left_len,
            index <= right_len,
            left_len == left@.len(),
            right_len == right@.len(),
            precedes(left@, right@) == precedes(left@.skip(index as int), right@.skip(index as int)),
        decreases left_len - index,
    {
        if index >= right_len {
            return false;
        }
        if index >= left_len {
            return true;
        }
        let first = left.get_char(index);
        let second = right.get_char(index);
        if first != second {
            return first < second;
        }
        proof {
            assert(left@.skip(index as int).skip(1) == left@.skip(index + 1));
            assert(right@.skip(index as int).skip(1) == right@.skip(index + 1));
        }
        index = index + 1;
    }
}

/// The place of the first item with a later name.
pub open spec fn later_place(items: Seq<ItemView>, name: Seq<char>) -> int
    decreases items.len(),
{
    if items.len() == 0 {
        0
    } else if precedes(name, items[0].display_name) {
        0
    } else {
        1 + later_place(items.skip(1), name)
    }
}

/// Items after one more was put in its place.
pub open spec fn with_item(items: Seq<ItemView>, item: ItemView) -> Seq<ItemView> {
    items.insert(later_place(items, item.display_name), item)
}

/// Items in the order of their names; items of the same name stay in order.
pub open spec fn sorted_items(items: Seq<ItemView>) -> Seq<ItemView>
    decreases items.len(),
{
    if items.len() == 0 {
        Seq::empty()
    } else {
        with_item(sorted_items(items.drop_last()), items.last())
    }
}

proof fn lemma_later_place(items: Seq<ItemView>, name: Seq<char>)
    ensures
        0 <= later_place(items, name) <= items.len(),
        forall|i: int|
            0 <= i < later_place(items, name) ==> !precedes(
                name,
                (#[trigger] items[i]).display_name,
            ),
        later_place(items, name) < items.len() ==> precedes(
            name,
            items[later_place(items, name)].display_name,
        ),
    decreases items.len(),
{
    if items.len() > 0 && !precedes(name, items[0].display_name) {
        lemma_later_place(items.skip(1), name);
        assert forall|i: int| 0 <= i < later_place(items, name) implies !precedes(
            name,
            (#[trigger] items[i]).display_name,
        ) by {
            if i > 0 {
                assert(items[i] == items.skip(1)[i - 1]);
            }
        }
    }
}

/// The order of texts is strict.
proof fn lemma_order_is_strict(left: Seq<char>, right: Seq<char>)
    ensures
        !(precedes(left, right) && precedes(right, left)),
    decreases left.len(),
{
    if left.len() > 0 && right.len() > 0 && left[0] == right[0] {
        lemma_order_is_strict(left.skip(1), right.skip(1));
    }
}

/// What does not come before a text does not come before a later one.
proof fn lemma_order_carries_on(first: Seq<char>, second: Seq<char>, third: Seq<char>)
    requires
        !precedes(second, first),
        precedes(second, third) || !precedes(third, second),
    ensures
        !precedes(third, first),
    decreases first.len(),
{
    if first.len() > 0 && third.len() > 0 && second.len() > 0 {
        if first[0] == second[0] && second[0] == third[0] {
            lemma_order_carries_on(first.skip(1), second.skip(1), third.skip(1));
        }
    }
}

/// Items in order stay in order, and each item is there once.
proof fn lemma_with_item(items: Seq<ItemView>, item: ItemView)
    requires
        in_order(items),
    ensures
        in_order(with_item(items, item)),
        with_item(items, item).to_multiset() == items.to_multiset().insert(item),
        with_item(items, item).len() == items.len() + 1,
{
    let place = later_place(items, item.display_name);
    let longer = with_item(items, item);
    lemma_later_place(items, item.display_name);
    to_multiset_insert(items, place, item);
    assert forall|i: int, j: int| 0 <= i < j < longer.len() implies !precedes(
        #[trigger] longer[j].display_name,
        #[trigger] longer[i].display_name,
    ) by {
        if i < place && j < place {
            assert(longer[i] == items[i] && longer[j] == items[j]);
        } else if i < place && j == place {
            assert(longer[i] == items[i]);
            assert(!precedes(item.display_name, items[i].display_name));
        } else if i < place {
            assert(longer[i] == items[i] && longer[j] == items[j - 1]);
        } else if i == place {
            assert(longer[j] == items[j - 1]);
            lemma_order_is_strict(item.display_name, items[place].display_name);
            if j - 1 > place {
                assert(!precedes(items[j - 1].display_name, items[place].display_name));
            }
            lemma_order_carries_on(
                item.display_name,
                items[place].display_name,
                items[j - 1].display_name,
            );
        } else {
            assert(longer[i] == items[i - 1] && longer[j] == items[j - 1]);
        }
    }
}

/// No item comes before one in front of it.
pub open spec fn in_order(items: Seq<ItemView>) -> bool {
    forall|i: int, j: int|
        0 <= i < j < items.len() ==> !precedes(
            #[trigger] items[j].display_name,
            #[trigger] items[i].display_name,
        )
}

/// Sorting puts items in order and keeps each.
pub proof fn law_sorted_items_are_in_order(items: Seq<ItemView>)
    ensures
        in_order(sorted_items(items)),
        sorted_items(items).to_multiset() == items.to_multiset(),
        sorted_items(items).len() == items.len(),
    decreases items.len(),
{
    if items.len() > 0 {
        law_sorted_items_are_in_order(items.drop_last());
        lemma_with_item(sorted_items(items.drop_last()), items.last());
        to_multiset_insert(items.drop_last(), items.len() - 1, items.last());
        assert(items.drop_last().insert(items.len() - 1, items.last()) == items);
    } else {
        assert(items == Seq::<ItemView>::empty());
    }
}

/// The files found in a directory so far.
#[derive(Debug, Clone)]
pub struct DirectoryPlan {
    kind: CommandKind,
    items: Vec<ConversionWorkItem>,
    total_samples: u64,
}

impl DirectoryPlan {
    /// The command.
    pub closed spec fn command(&self) -> CommandKind {
        self.kind
    }

    /// The files found so far, in the order of their names.
    pub closed spec fn found(&self) -> Seq<ItemView> {
        item_views(self.items@)
    }

    /// The samples of the files found so far.
    pub closed spec fn samples(&self) -> u64 {
        self.total_samples
    }

    /// No files yet.
    pub fn new(kind: CommandKind) -> (plan: Self)
        ensures
            plan.command() == kind,
            plan.found() == Seq::<ItemView>::empty(),
            plan.samples() == 0,
    {
        let plan = DirectoryPlan { kind, items: Vec::new(), total_samples: 0 };
        assert(plan.found() == Seq::<ItemView>::empty());
        plan
    }

    /// Whether an entry of the directory is an input of the command.
    pub fn wants(&self, is_file: bool, extension: Option<&str>) -> (wanted: bool)
        ensures
            wanted == (is_file && match extension {
                Some(text) => is_source_extension(self.command(), text@),
                None => false,
            }),
    {
        is_file && match extension {
            Some(text) => self.kind.has_source_extension(text),
            None => false,
        }
    }

    /// Takes in a file.
    pub fn add(
        &mut self,
        input: String,
        output: String,
        display_name: String,
        ensure_parent_dirs: bool,
        input_bytes: u64,
        total_for_file: u64,
    ) -> (result: Result<()>)
        ensures
            final(self).command() == old(self).command(),
            ({
                let overall = overall_samples(old(self).command(), total_for_file);
                let item = ItemView {
                    input: input@,
                    output: output@,
                    display_name: display_name@,
                    ensure_parent_dirs,
                    input_bytes,
                    phase_total_samples: total_for_file,
                    overall_total_samples: overall,
                };
                if old(self).samples() + overall > u64::MAX {
                    &&& result matches Err(error) && error@ == planning_failure(
                        old(self).command(),
                        "total sample count overflowed batch progress accounting"@,
                    )
                    &&& final(self).found() == old(self).found()
                    &&& final(self).samples() == old(self).samples()
                } else {
                    &&& result is Ok
                    &&& final(self).found() == with_item(old(self).found(), item)
                    &&& final(self).samples() == old(self).samples() + overall
                }
            }),
    {
        let overall: u64 = overall_total_samples(self.kind, total_for_file);
        let total: u64 = match self.total_samples.checked_add(overall) {
            Some(total) => total,
            None => {
                return Err(
                    self.kind.planning_error(
                        "total sample count overflowed batch progress accounting".to_owned(),
                    ),
                );
            },
        };
        let item = ConversionWorkItem {
            input,
            output,
            display_name,
            ensure_parent_dirs,
            input_bytes,
            phase_total_samples: total_for_file,
            overall_total_samples: overall,
        };
        let ghost views = item_views(self.items@);
        let ghost view = item@;
        let mut place: usize = 0;
        assert(views.skip(0) == views);
        while place < self.items.len() && !comes_before(
            item.display_name.as_str(),
            self.items[place].display_name.as_str(),
        )
            invariant
                place <= self.items@.len(),
                views == item_views(self.items@),
                *self == *old(self),
                view == item@,
                later_place(views, view.display_name) == place + later_place(
                    views.skip(place as int),
                    view.display_name,
                ),
            ensures
                later_place(views, view.display_name) == place,
            decreases self.items.len() - place,
        {
            proof {
                assert(views[place as int] == self.items@[place as int]@);
                assert(views.skip(place as int).skip(1) == views.skip(place + 1));
            }
            place = place + 1;
        }
        proof {
            lemma_later_place(views, view.display_name);
        }
        self.items.insert(place, item);
        self.total_samples = total;
        assert(self.found() == with_item(views, view));
        Ok(())
    }

    /// The work on all files found.
    pub fn finish(self, input_root: &str, depth: usize) -> (planned: Result<PlannedWorklist>)
        ensures
            if self.found().len() == 0 {
                planned matches Err(error) && error@ == planning_failure(
                    self.command(),
                    empty_directory_text(self.command(), input_root@, depth as nat),
                )
            } else {
                planned matches Ok(worklist) && {
                    &&& worklist.is_directory
                    &&& worklist.total_samples == self.samples()
                    &&& item_views(worklist.items@) == self.found()
                }
            },
    {
        if self.items.len() == 0 {
            return Err(
                self.kind.planning_error(
                    self.kind.empty_directory_worklist_error(input_root, depth),
                ),
            );
        }
        Ok(
            PlannedWorklist {
                items: self.items,
                total_samples: self.total_samples,
                is_directory: true,
            },
        )
    }
}

} // verus!
