//! The words and file name rules of the command line.

use vstd::prelude::*;
use vstd::string::*;

use crate::error::{Error, ErrorView, Result};
use crate::names::{lower, lower_char, same_name};
use crate::pcm::PcmContainer;
use crate::text::{append_decimal, concat, decimal};

verus! {

/// What a command does.
#[derive(Debug, Clone, Copy, PartialEq, Eq, Structural)]
pub enum CommandKind {
    Encode,
    Decode,
    Recompress,
}

/// The name of a command.
pub open spec fn command_name(kind: CommandKind) -> Seq<char> {
    match kind {
        CommandKind::Encode => "encode"@,
        CommandKind::Decode => "decode"@,
        CommandKind::Recompress => "recompress"@,
    }
}

/// The error of a command whose work cannot be planned.
pub open spec fn planning_failure(kind: CommandKind, message: Seq<char>) -> ErrorView {
    match kind {
        CommandKind::Decode => ErrorView::Decode(message),
        _ => ErrorView::Encode(message),
    }
}

/// Whether a file with an extension is an input of a command.
pub open spec fn is_source_extension(kind: CommandKind, extension: Seq<char>) -> bool {
    match kind {
        CommandKind::Encode => {
            ||| same_name(extension, "wav"@)
            ||| same_name(extension, "rf64"@)
            ||| same_name(extension, "w64"@)
            ||| same_name(extension, "aif"@)
            ||| same_name(extension, "aiff"@)
            ||| same_name(extension, "aifc"@)
            ||| same_name(extension, "caf"@)
        },
        _ => same_name(extension, "flac"@),
    }
}

/// The extension of the files that a command writes.
pub open spec fn target_name(kind: CommandKind) -> Seq<char> {
    match kind {
        CommandKind::Decode => "wav"@,
        _ => "flac"@,
    }
}

/// The text between two others around a quoted path.
fn quoted(before: &str, path: &str, after: &str) -> (text: String)
    ensures
        text@ == before@ + path@ + after@,
{
    let opening = concat(before, path);
    concat(opening.as_str(), after)
}

impl CommandKind {
    /// The name of the command.
    pub fn as_str(self) -> (name: &'static str)
        ensures
            name@ == command_name(self),
    {
        match self {
            CommandKind::Encode => "encode",
            CommandKind::Decode => "decode",
            CommandKind::Recompress => "recompress",
        }
    }

    /// Whether a file with an extension is an input of the command.
    pub fn has_source_extension(self, extension: &str) -> (source: bool)
        ensures
            source == is_source_extension(self, extension@),
    {
        match self {
            CommandKind::Encode => {
                extension.eq_ignore_ascii_case("wav") || extension.eq_ignore_ascii_case("rf64")
                    || extension.eq_ignore_ascii_case("w64") || extension.eq_ignore_ascii_case(
                    "aif",
                ) || extension.eq_ignore_ascii_case("aiff") || extension.eq_ignore_ascii_case(
                    "aifc",
                ) || extension.eq_ignore_ascii_case("caf")
            },
            _ => extension.eq_ignore_ascii_case("flac"),
        }
    }

    /// The extension of the files that the command writes.
    pub fn target_extension(self) -> (extension: &'static str)
        ensures
            extension@ == target_name(self),
    {
        match self {
            CommandKind::Encode => "flac",
            CommandKind::Decode => "wav",
            CommandKind::Recompress => "flac",
        }
    }

    /// Tells that a directory cannot take the output of a single file.
    pub fn single_file_output_error(self, output: &str) -> (text: String)
        ensures
            text@ == "output path '"@ + output@
                + "' is a directory; use a file path for single-file "@ + command_name(self),
    {
        let opening = quoted(
            "output path '",
            output,
            "' is a directory; use a file path for single-file ",
        );
        concat(opening.as_str(), self.as_str())
    }

    /// Tells that a file cannot take the output of a directory.
    pub fn directory_output_error(self, output_root: &str) -> (text: String)
        ensures
            text@ == "output path '"@ + output_root@ + "' is not a directory for folder "@
                + command_name(self),
    {
        let opening = quoted("output path '", output_root, "' is not a directory for folder ");
        concat(opening.as_str(), self.as_str())
    }

    /// Tells that a directory could not be searched.
    pub fn traversal_error(self, input_root: &str, error: &str) -> (text: String)
        ensures
            text@ == "failed to traverse "@ + command_name(self) + " input directory '"@
                + input_root@ + "': "@ + error@,
    {
        let opening = quoted("failed to traverse ", self.as_str(), " input directory '");
        let place = quoted(opening.as_str(), input_root, "': ");
        concat(place.as_str(), error)
    }

    /// Tells that a directory holds no inputs.
    pub fn empty_directory_worklist_error(self, input_root: &str, depth: usize) -> (text: String)
        ensures
            text@ == empty_directory_text(self, input_root@, depth as nat),
    {
        let noun = match self {
            CommandKind::Encode => "supported PCM input files",
            _ => "FLAC input files",
        };
        let opening = quoted("no ", noun, " found under '");
        let mut text = quoted(opening.as_str(), input_root, "' ");
        if depth == 0 {
            text.append("at any depth");
        } else {
            text.append("within depth ");
            append_decimal(&mut text, depth as u64);
        }
        text.append("; check the directory contents or adjust --depth");
        assert(text@ == empty_directory_text(self, input_root@, depth as nat));
        text
    }

    /// The error of a command whose work cannot be planned.
    pub fn planning_error(self, message: String) -> (error: Error)
        ensures
            error@ == planning_failure(self, message@),
    {
        match self {
            CommandKind::Decode => Error::Decode(message),
            _ => Error::Encode(message),
        }
    }
}

/// Tells that a directory holds no inputs.
pub open spec fn empty_directory_text(kind: CommandKind, input_root: Seq<char>, depth: nat) -> Seq<
    char,
> {
    let noun = match kind {
        CommandKind::Encode => "supported PCM input files"@,
        _ => "FLAC input files"@,
    };
    let place = if depth == 0 {
        "at any depth"@
    } else {
        "within depth "@ + decimal(depth)
    };
    "no "@ + noun + " found under '"@ + input_root + "' "@ + place
        + "; check the directory contents or adjust --depth"@
}

/// The family of an encode input.
#[derive(Debug, Clone, Copy, PartialEq, Eq, Structural)]
pub enum EncodeInputFamily {
    WavLike,
    AiffLike,
    Caf,
    Dynamic,
}

/// The family that an extension stands for.
pub open spec fn family_for_extension(extension: Option<Seq<char>>) -> EncodeInputFamily {
    match extension {
        None => EncodeInputFamily::Dynamic,
        Some(text) => if same_name(text, "wav"@) || same_name(text, "rf64"@) || same_name(
            text,
            "w64"@,
        ) {
            EncodeInputFamily::WavLike
        } else if same_name(text, "aif"@) || same_name(text, "aiff"@) || same_name(text, "aifc"@) {
            EncodeInputFamily::AiffLike
        } else if same_name(text, "caf"@) {
            EncodeInputFamily::Caf
        } else {
            EncodeInputFamily::Dynamic
        },
    }
}

/// The characters of an optional text.
pub open spec fn text_view(text: Option<&str>) -> Option<Seq<char>> {
    match text {
        Some(text) => Some(text@),
        None => None,
    }
}

/// The family that an extension stands for.
pub fn encode_input_family(extension: Option<&str>) -> (family: EncodeInputFamily)
    ensures
        family == family_for_extension(text_view(extension)),
{
    let text = match extension {
        Some(text) => text,
        None => return EncodeInputFamily::Dynamic,
    };
    if text.eq_ignore_ascii_case("wav") || text.eq_ignore_ascii_case("rf64")
        || text.eq_ignore_ascii_case("w64") {
        EncodeInputFamily::WavLike
    } else if text.eq_ignore_ascii_case("aif") || text.eq_ignore_ascii_case("aiff")
        || text.eq_ignore_ascii_case("aifc") {
        EncodeInputFamily::AiffLike
    } else if text.eq_ignore_ascii_case("caf") {
        EncodeInputFamily::Caf
    } else {
        EncodeInputFamily::Dynamic
    }
}

/// The container that the extension of an output stands for, or why there is none.
pub open spec fn named_container(extension: Option<Seq<char>>) -> std::result::Result<
    Option<PcmContainer>,
    ErrorView,
> {
    match extension {
        None => Ok(None),
        Some(text) => if same_name(text, "rf64"@) {
            Ok(Some(PcmContainer::Rf64))
        } else if same_name(text, "w64"@) {
            Ok(Some(PcmContainer::Wave64))
        } else if same_name(text, "aif"@) || same_name(text, "aiff"@) {
            Ok(Some(PcmContainer::Aiff))
        } else if same_name(text, "aifc"@) {
            Ok(Some(PcmContainer::Aifc))
        } else if same_name(text, "caf"@) {
            Ok(Some(PcmContainer::Caf))
        } else if same_name(text, "wav"@) {
            Ok(Some(PcmContainer::Wave))
        } else {
            Err(ErrorView::Decode("unsupported decode output extension '."@ + text + "'"@))
        },
    }
}

/// The container that the extension of an output stands for, or why there is none.
pub fn decode_output_container_from_path(extension: Option<&str>) -> (container: Result<
    Option<PcmContainer>,
>)
    ensures
        match named_container(text_view(extension)) {
            Ok(expected) => container == Ok::<Option<PcmContainer>, Error>(expected),
            Err(expected) => container matches Err(error) && error@ == expected,
        },
{
    let text = match extension {
        Some(text) => text,
        None => return Ok(None),
    };
    if text.eq_ignore_ascii_case("rf64") {
        Ok(Some(PcmContainer::Rf64))
    } else if text.eq_ignore_ascii_case("w64") {
        Ok(Some(PcmContainer::Wave64))
    } else if text.eq_ignore_ascii_case("aif") || text.eq_ignore_ascii_case("aiff") {
        Ok(Some(PcmContainer::Aiff))
    } else if text.eq_ignore_ascii_case("aifc") {
        Ok(Some(PcmContainer::Aifc))
    } else if text.eq_ignore_ascii_case("caf") {
        Ok(Some(PcmContainer::Caf))
    } else if text.eq_ignore_ascii_case("wav") {
        Ok(Some(PcmContainer::Wave))
    } else {
        Err(Error::Decode(quoted("unsupported decode output extension '.", text, "'")))
    }
}

/// The extension of a container.
pub open spec fn container_extension(container: PcmContainer) -> Seq<char> {
    match container {
        PcmContainer::Rf64 => "rf64"@,
        PcmContainer::Wave64 => "w64"@,
        PcmContainer::Aiff => "aiff"@,
        PcmContainer::Aifc => "aifc"@,
        PcmContainer::Caf => "caf"@,
        PcmContainer::Auto => "wav"@,
        PcmContainer::Wave => "wav"@,
    }
}

/// The extension of a container.
pub fn decode_target_extension(container: PcmContainer) -> (extension: &'static str)
    ensures
        extension@ == container_extension(container),
{
    match container {
        PcmContainer::Rf64 => "rf64",
        PcmContainer::Wave64 => "w64",
        PcmContainer::Aiff => "aiff",
        PcmContainer::Aifc => "aifc",
        PcmContainer::Caf => "caf",
        PcmContainer::Auto => "wav",
        PcmContainer::Wave => "wav",
    }
}

/// A container is found again by its own extension; the default one is a wave file.
pub proof fn law_extensions_name_containers(container: PcmContainer)
    ensures
        named_container(Some(container_extension(container))) == Ok::<
            Option<PcmContainer>,
            ErrorView,
        >(
            Some(
                if container == PcmContainer::Auto {
                    PcmContainer::Wave
                } else {
                    container
                },
            ),
        ),
{
    reveal_strlit("rf64");
    reveal_strlit("w64");
    reveal_strlit("aif");
    reveal_strlit("aiff");
    reveal_strlit("aifc");
    reveal_strlit("caf");
    reveal_strlit("wav");
    lemma_names_differ("rf64"@, "w64"@, 0);
    lemma_names_differ("rf64"@, "aif"@, 0);
    lemma_names_differ("rf64"@, "aiff"@, 0);
    lemma_names_differ("rf64"@, "aifc"@, 0);
    lemma_names_differ("rf64"@, "caf"@, 0);
    lemma_names_differ("rf64"@, "wav"@, 0);
    lemma_names_differ("w64"@, "aif"@, 0);
    lemma_names_differ("w64"@, "aiff"@, 0);
    lemma_names_differ("w64"@, "aifc"@, 0);
    lemma_names_differ("w64"@, "caf"@, 0);
    lemma_names_differ("w64"@, "wav"@, 1);
    lemma_names_differ("aif"@, "aiff"@, 0);
    lemma_names_differ("aif"@, "aifc"@, 0);
    lemma_names_differ("aif"@, "caf"@, 0);
    lemma_names_differ("aif"@, "wav"@, 0);
    lemma_names_differ("aiff"@, "aifc"@, 3);
    lemma_names_differ("aiff"@, "caf"@, 0);
    lemma_names_differ("aiff"@, "wav"@, 0);
    lemma_names_differ("aifc"@, "caf"@, 0);
    lemma_names_differ("aifc"@, "wav"@, 0);
    lemma_names_differ("caf"@, "wav"@, 0);
}

/// Texts that differ in length or in a letter are not the same.
pub proof fn lemma_names_differ(left: Seq<char>, right: Seq<char>, place: int)
    requires
        left.len() != right.len() || (0 <= place < left.len() && lower_char(left[place])
            != lower_char(right[place])),
    ensures
        !same_name(left, right),
        !same_name(right, left),
{
    if same_name(left, right) {
        assert(lower(left).len() == lower(right).len());
        assert(lower(left)[place] == lower(right)[place]);
    }
    if same_name(right, left) {
        assert(lower(left).len() == lower(right).len());
        assert(lower(left)[place] == lower(right)[place]);
    }
}

/// A character of a trace field: those that would end the field are written out.
pub open spec fn trace_char(c: char) -> Seq<char> {
    if c == '\\' {
        seq!['\\', '\\']
    } else if c == '\t' {
        seq!['\\', 't']
    } else if c == '\r' {
        seq!['\\', 'r']
    } else if c == '\n' {
        seq!['\\', 'n']
    } else {
        seq![c]
    }
}

/// A trace field.
pub open spec fn trace_field(text: Seq<char>) -> Seq<char>
    decreases text.len(),
{
    if text.len() == 0 {
        Seq::empty()
    } else {
        trace_field(text.drop_last()) + trace_char(text.last())
    }
}

/// A trace field.
pub fn sanitize_trace_field(field: &str) -> (text: String)
    ensures
        text@ == trace_field(field@),
{
    let length: usize = field.unicode_len();
    let mut text = String::new();
    let mut index: usize = 0;
    assert(text@ == trace_field(field@.take(0)));
    while index < length
        invariant
            index <= length,
            length == field@.len(),
            text@ == trace_field(field@.take(index as int)),
        decreases length - index,
    {
        let c = field.get_char(index);
        let ghost before = text@;
        if c == '\\' {
            text.push('\\');
            text.push('\\');
        } else if c == '\t' {
            text.push('\\');
            text.push('t');
        } else if c == '\r' {
            text.push('\\');
            text.push('r');
        } else if c == '\n' {
            text.push('\\');
            text.push('n');
        } else {
            text.push(c);
        }
        proof {
            let next = field@.take(index + 1);
            assert(next.drop_last() == field@.take(index as int));
            assert(text@ == before + trace_char(c));
        }
        index = index + 1;
    }
    assert(field@.take(index as int) == field@);
    text
}

/// No character of a trace field ends a field or a line.
pub proof fn law_trace_fields_are_plain(text: Seq<char>)
    ensures
        forall|i: int|
            0 <= i < trace_field(text).len() ==> {
                &&& #[trigger] trace_field(text)[i] != '\t'
                &&& trace_field(text)[i] != '\r'
                &&& trace_field(text)[i] != '\n'
            },
    decreases text.len(),
{
    if text.len() > 0 {
        law_trace_fields_are_plain(text.drop_last());
        let earlier = trace_field(text.drop_last());
        let last = trace_char(text.last());
        assert forall|i: int| 0 <= i < trace_field(text).len() implies {
            &&& #[trigger] trace_field(text)[i] != '\t'
            &&& trace_field(text)[i] != '\r'
            &&& trace_field(text)[i] != '\n'
        } by {
            if i < earlier.len() {
                assert(trace_field(text)[i] == earlier[i]);
            } else {
                assert(trace_field(text)[i] == last[i - earlier.len()]);
            }
        }
    }
}

/// Names joined by slashes.
pub open spec fn joined_names(names: Seq<Seq<char>>) -> Seq<char>
    decreases names.len(),
{
    if names.len() == 0 {
        Seq::empty()
    } else if names.len() == 1 {
        names[0]
    } else {
        joined_names(names.drop_last()) + "/"@ + names.last()
    }
}

/// The contents of texts.
pub open spec fn text_views(texts: Seq<&str>) -> Seq<Seq<char>> {
    texts.map_values(|text: &str| text@)
}

/// The name that is shown for a file below a directory.
pub fn relative_display_name(components: &[&str]) -> (name: String)
    ensures
        name@ == joined_names(text_views(components@)),
{
    let ghost names = text_views(components@);
    let mut name = String::new();
    let mut index: usize = 0;
    assert(name@ == joined_names(names.take(0)));
    while index < components.len()
        invariant
            index <= components@.len(),
            names == text_views(components@),
            name@ == joined_names(names.take(index as int)),
        decreases components.len() - index,
    {
        proof {
            let next = names.take(index + 1);
            assert(next.drop_last() == names.take(index as int));
            assert(next.last() == components@[index as int]@);
            if index == 0 {
                assert(Seq::<char>::empty() + next[0] == next[0]);
            }
        }
        if index > 0 {
            name.append("/");
        }
        name.append(components[index]);
        index = index + 1;
    }
    assert(names.take(index as int) == names);
    name
}

} // verus!
