//! Vorbis comments: `KEY=value` entries and their block layout.

use vstd::prelude::*;
use vstd::slice::{slice_subrange, slice_to_vec};
use vstd::string::*;
use vstd::utf8::{decode_utf8, encode_utf8, valid_utf8};

use crate::byte_reader::{available, bytes_at};
use crate::bytes::{append_bytes, law_le_bytes_read_back, le_bytes, le_value, lemma_byte_ranges, push_le_bytes, read_le};
use crate::text::concat;

verus! {

/// The error type of a failed UTF-8 conversion.
#[verifier::external_type_specification]
#[verifier::external_body]
pub struct ExFromUtf8Error(std::string::FromUtf8Error);

/// `String::from_utf8`: the text of the bytes if they are well-formed UTF-8, and
/// an error otherwise.
#[verifier::external_body]
pub(crate) fn utf8_string(bytes: Vec<u8>) -> (text: Result<String, std::string::FromUtf8Error>)
    ensures
        text is Ok <==> valid_utf8(bytes@),
        text matches Ok(found) ==> found@ == decode_utf8(bytes@),
{
    String::from_utf8(bytes)
}

/// The place of the first equals sign.
pub open spec fn first_equals(text: Seq<char>) -> Option<int>
    decreases text.len(),
{
    if text.len() == 0 {
        None
    } else if text[0] == '=' {
        Some(0)
    } else {
        match first_equals(text.skip(1)) {
            Some(place) => Some(place + 1),
            None => None,
        }
    }
}

/// The key and the value of an entry: what is before and after the first equals
/// sign.
pub open spec fn entry_parts(entry: Seq<char>) -> Option<(Seq<char>, Seq<char>)> {
    match first_equals(entry) {
        Some(place) => Some((entry.take(place), entry.skip(place + 1))),
        None => None,
    }
}

/// `str::split_once` at an equals sign: the parts before and after the first one.
#[verifier::external_body]
fn split_at_equals<'a>(text: &'a str) -> (parts: Option<(&'a str, &'a str)>)
    ensures
        parts is Some <==> entry_parts(text@) is Some,
        parts matches Some((key, value)) ==> entry_parts(text@) == Some((key@, value@)),
{
    text.split_once('=')
}

/// The key and the value of an entry.
pub fn split_vorbis_comment_entry<'a>(entry: &'a str) -> (parts: Option<(&'a str, &'a str)>)
    ensures
        parts is Some <==> entry_parts(entry@) is Some,
        parts matches Some((key, value)) ==> entry_parts(entry@) == Some((key@, value@)),
{
    split_at_equals(entry)
}

/// An entry for a key and a value.
pub open spec fn raw_entry(key: Seq<char>, value: Seq<char>) -> Seq<char> {
    key + "="@ + value
}

/// An entry for a key and a value.
pub fn raw_vorbis_comment_entry(key: &str, value: &str) -> (entry: String)
    ensures
        entry@ == raw_entry(key@, value@),
{
    let mut entry = concat(key, "=");
    entry.append(value);
    entry
}

proof fn lemma_first_equals(text: Seq<char>, place: int)
    requires
        0 <= place < text.len(),
        text[place] == '=',
        forall|i: int| 0 <= i < place ==> text[i] != '=',
    ensures
        first_equals(text) == Some(place),
    decreases text.len(),
{
    if place > 0 {
        let rest = text.skip(1);
        assert(rest[place - 1] == '=');
        assert forall|i: int| 0 <= i < place - 1 implies rest[i] != '=' by {
            assert(rest[i] == text[i + 1]);
        }
        lemma_first_equals(rest, place - 1);
    }
}

/// The key of an entry holds no equals sign.
pub proof fn lemma_key_has_no_equals(text: Seq<char>)
    ensures
        first_equals(text) matches Some(place) ==> 0 <= place < text.len() && forall|i: int|
            0 <= i < place ==> text[i] != '=',
    decreases text.len(),
{
    if text.len() > 0 && text[0] != '=' {
        let rest = text.skip(1);
        lemma_key_has_no_equals(rest);
        if let Some(place) = first_equals(rest) {
            assert forall|i: int| 0 <= i < place + 1 implies text[i] != '=' by {
                if i > 0 {
                    assert(text[i] == rest[i - 1]);
                }
            }
        }
    }
}

/// An entry splits into the key and value that it was made of, as long as the key
/// holds no equals sign.
pub proof fn law_entry_splits_back(key: Seq<char>, value: Seq<char>)
    requires
        forall|i: int| 0 <= i < key.len() ==> key[i] != '=',
    ensures
        entry_parts(raw_entry(key, value)) == Some((key, value)),
{
    reveal_strlit("=");
    let entry = raw_entry(key, value);
    lemma_first_equals(entry, key.len() as int);
    assert(entry.take(key.len() as int) == key);
    assert(entry.skip((key.len() + 1) as int) == value);
}

/// A block of comment entries.
#[derive(Debug, Clone, PartialEq, Eq)]
pub struct VorbisCommentBlock {
    pub vendor: String,
    pub entries: Vec<String>,
}

/// A [`VorbisCommentBlock`] over mathematical sequences.
pub struct VorbisView {
    pub vendor: Seq<char>,
    pub entries: Seq<Seq<char>>,
}

impl View for VorbisCommentBlock {
    type V = VorbisView;

    open spec fn view(&self) -> VorbisView {
        VorbisView {
            vendor: self.vendor@,
            entries: self.entries@.map_values(|entry: String| entry@),
        }
    }
}

/// A length and the bytes of a text.
pub open spec fn counted_text(text: Seq<char>) -> Seq<u8> {
    le_bytes(encode_utf8(text).len(), 4) + encode_utf8(text)
}

/// The entries of a block, one after the other.
pub open spec fn counted_entries(entries: Seq<Seq<char>>) -> Seq<u8>
    decreases entries.len(),
{
    if entries.len() == 0 {
        Seq::empty()
    } else {
        counted_entries(entries.drop_last()) + counted_text(entries.last())
    }
}

/// The payload of a comment block.
pub open spec fn vorbis_payload(block: VorbisView) -> Seq<u8> {
    counted_text(block.vendor) + le_bytes(block.entries.len(), 4) + counted_entries(block.entries)
}

/// A text with its length in front at a position, and the position behind it.
pub open spec fn text_at(payload: Seq<u8>, position: nat) -> Option<(Seq<char>, nat)> {
    if !available(payload, position, 4) {
        None
    } else {
        let length = le_value(bytes_at(payload, position, 4));
        let bytes = bytes_at(payload, position + 4, length);
        if !available(payload, position + 4, length) || !valid_utf8(bytes) {
            None
        } else {
            Some((decode_utf8(bytes), position + 4 + length))
        }
    }
}

/// The first `count` entries from a position on, and the position behind them.
pub open spec fn entries_at(payload: Seq<u8>, position: nat, count: nat) -> Option<
    (Seq<Seq<char>>, nat),
>
    decreases count,
{
    if count == 0 {
        Some((Seq::empty(), position))
    } else {
        match entries_at(payload, position, (count - 1) as nat) {
            None => None,
            Some((earlier, next)) => match text_at(payload, next) {
                None => None,
                Some((entry, end)) => Some((earlier.push(entry), end)),
            },
        }
    }
}

/// The comment block that a payload holds, if it is well formed.
pub open spec fn vorbis_block(payload: Seq<u8>) -> Option<VorbisView> {
    match text_at(payload, 0) {
        None => None,
        Some((vendor, position)) => if !available(payload, position, 4) {
            None
        } else {
            match entries_at(
                payload,
                position + 4,
                le_value(bytes_at(payload, position, 4)),
            ) {
                None => None,
                Some((entries, _)) => Some(VorbisView { vendor, entries }),
            }
        },
    }
}

/// Reads a text with its length in front.
fn read_text(payload: &[u8], position: usize) -> (read: Option<(String, usize)>)
    ensures
        match read {
            Some((text, end)) => text_at(payload@, position as nat) == Some((text@, end as nat))
                && end <= payload@.len() && end >= position + 4,
            None => text_at(payload@, position as nat) is None,
        },
{
    if position > payload.len() || payload.len() - position < 4 {
        return None;
    }
    let length: u64 = read_le(payload, position, 4);
    proof {
        lemma_byte_ranges();
    }
    let start: usize = position + 4;
    if length > (payload.len() - start) as u64 {
        return None;
    }
    let end: usize = start + length as usize;
    let bytes = slice_to_vec(slice_subrange(payload, start, end));
    assert(bytes@ == bytes_at(payload@, position as nat + 4, length as nat));
    match utf8_string(bytes) {
        Ok(text) => Some((text, end)),
        Err(_) => None,
    }
}

/// Once an entry cannot be read, no longer run can.
proof fn lemma_entries_fail(payload: Seq<u8>, position: nat, some: nat, all: nat)
    requires
        some <= all,
        entries_at(payload, position, some) is None,
    ensures
        entries_at(payload, position, all) is None,
    decreases all,
{
    if some < all {
        lemma_entries_fail(payload, position, some, (all - 1) as nat);
    }
}

/// The views of texts.
pub open spec fn texts(strings: Seq<String>) -> Seq<Seq<char>> {
    strings.map_values(|text: String| text@)
}

impl VorbisCommentBlock {
    /// A block of entries.
    pub fn new(vendor: String, entries: Vec<String>) -> (block: Self)
        ensures
            block@ == (VorbisView { vendor: vendor@, entries: texts(entries@) }),
    {
        VorbisCommentBlock { vendor, entries }
    }

    /// The entries of the block.
    pub fn entries(&self) -> (entries: &Vec<String>)
        ensures
            texts(entries@) == self@.entries,
            entries@ == self.entries@,
    {
        &self.entries
    }

    /// Adds an entry at the end.
    pub fn push_entry(&mut self, entry: String)
        ensures
            final(self)@ == (VorbisView {
                vendor: old(self)@.vendor,
                entries: old(self)@.entries.push(entry@),
            }),
    {
        self.entries.push(entry);
        assert(self@.entries == old(self)@.entries.push(entry@));
    }

    /// Reads the payload of a comment block. There is none where the payload is not
    /// well formed or a text is not UTF-8.
    pub fn from_flac_payload(payload: &[u8]) -> (block: Option<Self>)
        ensures
            match block {
                Some(found) => vorbis_block(payload@) == Some(found@),
                None => vorbis_block(payload@) is None,
            },
    {
        let (vendor, position) = match read_text(payload, 0) {
            Some(read) => read,
            None => return None,
        };
        if payload.len() - position < 4 {
            return None;
        }
        let count: u64 = read_le(payload, position, 4);
        let start: usize = position + 4;
        let mut entries: Vec<String> = Vec::new();
        let mut place: usize = start;
        let mut index: u64 = 0;
        while index < count
            invariant
                index <= count,
                position + 4 == start,
                entries_at(payload@, start as nat, index as nat) == Some(
                    (texts(entries@), place as nat),
                ),
                text_at(payload@, 0) == Some((vendor@, position as nat)),
                available(payload@, position as nat, 4),
                count == le_value(bytes_at(payload@, position as nat, 4)),
            decreases count - index,
        {
            match read_text(payload, place) {
                Some((entry, end)) => {
                    let ghost before = entries@;
                    entries.push(entry);
                    assert(texts(entries@) == texts(before).push(entry@));
                    place = end;
                },
                None => {
                    proof {
                        lemma_entries_fail(
                            payload@,
                            start as nat,
                            (index + 1) as nat,
                            count as nat,
                        );
                    }
                    return None;
                },
            }
            index = index + 1;
        }
        Some(VorbisCommentBlock { vendor, entries })
    }

    /// The payload of the block.
    pub fn payload(&self) -> (payload: Vec<u8>)
        ensures
            payload@ == vorbis_payload(self@),
    {
        let mut payload: Vec<u8> = Vec::new();
        push_text(&mut payload, self.vendor.as_str());
        push_le_bytes(&mut payload, self.entries.len() as u64, 4);
        let ghost head = counted_text(self@.vendor) + le_bytes(self@.entries.len(), 4);
        assert(payload@ == head + counted_entries(self@.entries.take(0)));
        let mut index: usize = 0;
        while index < self.entries.len()
            invariant
                index <= self.entries@.len(),
                payload@ == head + counted_entries(self@.entries.take(index as int)),
            decreases self.entries.len() - index,
        {
            assert(self@.entries[index as int] == self.entries@[index as int]@);
            let ghost before = payload@;
            push_text(&mut payload, self.entries[index].as_str());
            proof {
                let next = self@.entries.take(index + 1);
                assert(next.drop_last() == self@.entries.take(index as int));
                assert(payload@ == head + counted_entries(next));
            }
            index = index + 1;
        }
        assert(self@.entries.take(index as int) == self@.entries);
        payload
    }
}

/// Appends a text with its length in front.
fn push_text(payload: &mut Vec<u8>, text: &str)
    ensures
        final(payload)@ == old(payload)@ + counted_text(text@),
{
    let bytes = text.as_bytes();
    push_le_bytes(payload, bytes.len() as u64, 4);
    append_bytes(payload, bytes);
    assert(payload@ == old(payload)@ + counted_text(text@));
}

/// The lengths of a block fit in the fields that hold them.
pub open spec fn block_is_representable(block: VorbisView) -> bool {
    &&& encode_utf8(block.vendor).len() <= u32::MAX
    &&& block.entries.len() <= u32::MAX
    &&& forall|i: int|
        0 <= i < block.entries.len() ==> encode_utf8(#[trigger] block.entries[i]).len()
            <= u32::MAX
}

proof fn lemma_read_text(prefix: Seq<u8>, text: Seq<char>, rest: Seq<u8>)
    requires
        encode_utf8(text).len() <= u32::MAX,
    ensures
        text_at(prefix + counted_text(text) + rest, prefix.len()) == Some(
            (text, prefix.len() + counted_text(text).len()),
        ),
{
    lemma_byte_ranges();
    let bytes = encode_utf8(text);
    law_le_bytes_read_back(bytes.len(), 4);
    vstd::utf8::encode_utf8_valid_utf8(text);
    vstd::utf8::encode_utf8_decode_utf8(text);
    let payload = prefix + counted_text(text) + rest;
    assert(bytes_at(payload, prefix.len(), 4) == le_bytes(bytes.len(), 4));
    assert(bytes_at(payload, prefix.len() + 4, bytes.len()) == bytes);
}

proof fn lemma_read_entries(
    prefix: Seq<u8>,
    entries: Seq<Seq<char>>,
    count: nat,
    payload: Seq<u8>,
)
    requires
        count <= entries.len(),
        payload == prefix + counted_entries(entries),
        forall|i: int|
            0 <= i < entries.len() ==> encode_utf8(#[trigger] entries[i]).len() <= u32::MAX,
    ensures
        entries_at(payload, prefix.len(), count) == Some(
            (
                entries.take(count as int),
                prefix.len() + counted_entries(entries.take(count as int)).len(),
            ),
        ),
    decreases count,
{
    if count == 0 {
        assert(entries.take(0) == Seq::<Seq<char>>::empty());
    } else {
        lemma_read_entries(prefix, entries, (count - 1) as nat, payload);
        let taken = entries.take(count as int);
        let earlier = entries.take(count - 1);
        assert(taken.drop_last() == earlier);
        assert(taken.last() == entries[count - 1]);
        lemma_counted_split(entries, count as int);
        let rest = choose|rest: Seq<u8>|
            counted_entries(entries) == #[trigger] (counted_entries(taken) + rest);
        assert(payload == (prefix + counted_entries(earlier)) + counted_text(entries[count - 1])
            + rest);
        lemma_read_text(prefix + counted_entries(earlier), entries[count - 1], rest);
        assert(earlier.push(entries[count - 1]) == taken);
    }
}

proof fn lemma_counted_split(entries: Seq<Seq<char>>, count: int)
    requires
        0 <= count <= entries.len(),
    ensures
        exists|rest: Seq<u8>|
            counted_entries(entries) == #[trigger] (counted_entries(entries.take(count)) + rest),
    decreases entries.len() - count,
{
    if count == entries.len() {
        assert(entries.take(count) == entries);
        assert(counted_entries(entries) == counted_entries(entries.take(count)) + Seq::<
            u8,
        >::empty());
    } else {
        lemma_counted_split(entries, count + 1);
        let next = entries.take(count + 1);
        assert(next.drop_last() == entries.take(count));
        let rest = choose|rest: Seq<u8>|
            counted_entries(entries) == #[trigger] (counted_entries(next) + rest);
        assert(counted_entries(entries) == counted_entries(entries.take(count)) + (counted_text(
            next.last(),
        ) + rest));
    }
}

/// A comment block is read back from its payload.
pub proof fn law_comment_block_reads_back(block: VorbisView)
    requires
        block_is_representable(block),
    ensures
        vorbis_block(vorbis_payload(block)) == Some(block),
{
    lemma_byte_ranges();
    let payload = vorbis_payload(block);
    let vendor = counted_text(block.vendor);
    let count = le_bytes(block.entries.len(), 4);
    let entries = counted_entries(block.entries);
    law_le_bytes_read_back(block.entries.len(), 4);
    assert(payload == Seq::<u8>::empty() + vendor + (count + entries));
    lemma_read_text(Seq::empty(), block.vendor, count + entries);
    assert(bytes_at(payload, vendor.len(), 4) == count);
    lemma_read_entries(vendor + count, block.entries, block.entries.len(), payload);
    assert(block.entries.take(block.entries.len() as int) == block.entries);
}

} // verus!
