//! Seek tables.

use vstd::prelude::*;

use crate::bytes::{be_bytes, be_value, law_be_bytes_read_back, lemma_byte_ranges, push_be_bytes, read_be};
use crate::error::{Error, ErrorView, Result};

verus! {

pub const SEEKTABLE_BLOCK_TYPE: u8 = 3;

/// The bytes of a seek point.
pub const SEEKTABLE_POINT_LEN: usize = 18;

/// The sample number of a point that holds a place only.
pub const SEEKTABLE_PLACEHOLDER_SAMPLE_NUMBER: u64 = 0xffff_ffff_ffff_ffff;

/// A frame that can be found without reading the frames before it.
#[derive(Debug, Clone, Copy, PartialEq, Eq, Structural)]
pub struct SeekPoint {
    pub sample_number: u64,
    pub frame_offset: u64,
    pub sample_count: u16,
}

/// The bytes of a seek point.
pub open spec fn point_bytes(point: SeekPoint) -> Seq<u8> {
    be_bytes(point.sample_number as nat, 8) + be_bytes(point.frame_offset as nat, 8) + be_bytes(
        point.sample_count as nat,
        2,
    )
}

/// The bytes of seek points, one after the other.
pub open spec fn points_bytes(points: Seq<SeekPoint>) -> Seq<u8>
    decreases points.len(),
{
    if points.len() == 0 {
        Seq::empty()
    } else {
        points_bytes(points.drop_last()) + point_bytes(points.last())
    }
}

impl SeekPoint {
    /// The payload of a seek table.
    pub fn payload(points: &[SeekPoint]) -> (payload: Vec<u8>)
        ensures
            payload@ == points_bytes(points@),
    {
        let mut payload: Vec<u8> = Vec::new();
        let mut index: usize = 0;
        while index < points.len()
            invariant
                index <= points@.len(),
                payload@ == points_bytes(points@.take(index as int)),
            decreases points.len() - index,
        {
            let ghost before = payload@;
            push_be_bytes(&mut payload, points[index].sample_number, 8);
            push_be_bytes(&mut payload, points[index].frame_offset, 8);
            push_be_bytes(&mut payload, points[index].sample_count as u64, 2);
            proof {
                let next = points@.take(index + 1);
                assert(next.drop_last() == points@.take(index as int));
                assert(payload@ == before + point_bytes(points@[index as int]));
            }
            index = index + 1;
        }
        assert(points@.take(index as int) == points@);
        payload
    }
}

/// The sample numbers of the points of a payload.
pub open spec fn sample_numbers(payload: Seq<u8>) -> Seq<u64> {
    Seq::new(
        payload.len() / 18,
        |i: int| be_value(payload.subrange(18 * i, 18 * i + 8)) as u64,
    )
}

/// What a scan has seen: the last number that is no placeholder, and whether a
/// placeholder came.
pub struct SeekScan {
    pub previous: Option<u64>,
    pub saw_placeholder: bool,
}

/// The scan after one more number, or what is wrong with it.
pub open spec fn scan_number(scan: SeekScan, number: u64) -> std::result::Result<
    SeekScan,
    ErrorView,
> {
    if number == SEEKTABLE_PLACEHOLDER_SAMPLE_NUMBER {
        Ok(SeekScan { previous: scan.previous, saw_placeholder: true })
    } else if scan.saw_placeholder {
        Err(
            ErrorView::InvalidFlac(
                "seektable placeholder points must appear at the end of the table"@,
            ),
        )
    } else if scan.previous matches Some(previous) && number < previous {
        Err(ErrorView::InvalidFlac("seektable sample numbers must be in ascending order"@))
    } else if scan.previous == Some(number) {
        Err(ErrorView::InvalidFlac("seektable sample numbers must be unique"@))
    } else {
        Ok(SeekScan { previous: Some(number), saw_placeholder: false })
    }
}

/// The scan of numbers, or the first thing that is wrong with them.
pub open spec fn scan_numbers(numbers: Seq<u64>) -> std::result::Result<SeekScan, ErrorView>
    decreases numbers.len(),
{
    if numbers.len() == 0 {
        Ok(SeekScan { previous: None, saw_placeholder: false })
    } else {
        match scan_numbers(numbers.drop_last()) {
            Err(error) => Err(error),
            Ok(scan) => scan_number(scan, numbers.last()),
        }
    }
}

/// What is wrong with a seek table, if anything.
pub open spec fn seektable_check(payload: Seq<u8>) -> std::result::Result<(), ErrorView> {
    if payload.len() % 18 != 0 {
        Err(ErrorView::InvalidFlac("seektable payload length must be a multiple of 18 bytes"@))
    } else {
        match scan_numbers(sample_numbers(payload)) {
            Err(error) => Err(error),
            Ok(_) => Ok(()),
        }
    }
}

/// The numbers ascend up to a place from which on there are placeholders only.
pub open spec fn are_ordered(numbers: Seq<u64>, end: int) -> bool {
    &&& 0 <= end <= numbers.len()
    &&& forall|i: int, j: int| 0 <= i < j < end ==> numbers[i] < numbers[j]
    &&& forall|i: int|
        0 <= i < end ==> #[trigger] numbers[i] != SEEKTABLE_PLACEHOLDER_SAMPLE_NUMBER
    &&& forall|i: int|
        end <= i < numbers.len() ==> #[trigger] numbers[i] == SEEKTABLE_PLACEHOLDER_SAMPLE_NUMBER
}

proof fn lemma_scan_is_exact(numbers: Seq<u64>)
    ensures
        scan_numbers(numbers) is Ok <==> exists|end: int| #[trigger] are_ordered(numbers, end),
        scan_numbers(numbers) matches Ok(scan) ==> exists|end: int|
            {
                &&& #[trigger] are_ordered(numbers, end)
                &&& scan.saw_placeholder <==> end < numbers.len()
                &&& scan.previous == if end == 0 {
                    None
                } else {
                    Some(numbers[end - 1])
                }
            },
    decreases numbers.len(),
{
    if numbers.len() == 0 {
        assert(are_ordered(numbers, 0));
    } else {
        let earlier = numbers.drop_last();
        lemma_scan_is_exact(earlier);
        if scan_numbers(numbers) is Ok {
            let scan = scan_numbers(earlier)->Ok_0;
            let end = choose|end: int|
                {
                    &&& #[trigger] are_ordered(earlier, end)
                    &&& scan.saw_placeholder <==> end < earlier.len()
                    &&& scan.previous == if end == 0 {
                        None
                    } else {
                        Some(earlier[end - 1])
                    }
                };
            if numbers.last() == SEEKTABLE_PLACEHOLDER_SAMPLE_NUMBER {
                assert(are_ordered(numbers, end)) by {
                    assert forall|i: int, j: int| 0 <= i < j < end implies numbers[i]
                        < numbers[j] by {
                        assert(earlier[i] < earlier[j]);
                    }
                    assert forall|i: int| end <= i < numbers.len() implies #[trigger] numbers[i]
                        == SEEKTABLE_PLACEHOLDER_SAMPLE_NUMBER by {
                        if i < earlier.len() {
                            assert(earlier[i] == numbers[i]);
                        }
                    }
                    assert forall|i: int| 0 <= i < end implies #[trigger] numbers[i]
                        != SEEKTABLE_PLACEHOLDER_SAMPLE_NUMBER by {
                        assert(earlier[i] == numbers[i]);
                    }
                }
            } else {
                let whole = numbers.len() as int;
                assert(are_ordered(numbers, whole)) by {
                    assert forall|i: int, j: int| 0 <= i < j < whole implies numbers[i]
                        < numbers[j] by {
                        if j < whole - 1 {
                            assert(earlier[i] < earlier[j]);
                        } else if i < whole - 2 {
                            assert(earlier[i] < earlier[whole - 2]);
                        } else {
                            assert(earlier[i] == numbers[i]);
                        }
                    }
                    assert forall|i: int| 0 <= i < whole implies #[trigger] numbers[i]
                        != SEEKTABLE_PLACEHOLDER_SAMPLE_NUMBER by {
                        if i < whole - 1 {
                            assert(earlier[i] == numbers[i]);
                        }
                    }
                }
            }
        }
        if exists|end: int| #[trigger] are_ordered(numbers, end) {
            let end = choose|end: int| #[trigger] are_ordered(numbers, end);
            let place = if end == numbers.len() { end - 1 } else { end };
            assert(are_ordered(earlier, place)) by {
                assert forall|i: int, j: int| 0 <= i < j < place implies earlier[i]
                    < earlier[j] by {
                    assert(numbers[i] < numbers[j]);
                }
                assert forall|i: int| 0 <= i < place implies #[trigger] earlier[i]
                    != SEEKTABLE_PLACEHOLDER_SAMPLE_NUMBER by {
                    assert(numbers[i] == earlier[i]);
                }
                assert forall|i: int| place <= i < earlier.len() implies #[trigger] earlier[i]
                    == SEEKTABLE_PLACEHOLDER_SAMPLE_NUMBER by {
                    assert(numbers[i] == earlier[i]);
                }
            }
            let scan = scan_numbers(earlier)->Ok_0;
            let found = choose|end: int|
                {
                    &&& #[trigger] are_ordered(earlier, end)
                    &&& scan.saw_placeholder <==> end < earlier.len()
                    &&& scan.previous == if end == 0 {
                        None
                    } else {
                        Some(earlier[end - 1])
                    }
                };
            if found < place {
                assert(earlier[found] != SEEKTABLE_PLACEHOLDER_SAMPLE_NUMBER);
            }
            if place < found {
                assert(earlier[place] == SEEKTABLE_PLACEHOLDER_SAMPLE_NUMBER);
            }
            assert(found == place);
            if end == numbers.len() {
                assert(numbers[end - 1] != SEEKTABLE_PLACEHOLDER_SAMPLE_NUMBER);
                if place > 0 {
                    assert(numbers[place - 1] < numbers[end - 1]);
                }
            } else {
                assert(numbers[numbers.len() - 1] == SEEKTABLE_PLACEHOLDER_SAMPLE_NUMBER);
            }
        }
    }
}

/// A seek table is valid exactly when it is made of whole points whose sample
/// numbers ascend up to placeholders at its end.
pub proof fn law_valid_seektables_are_ordered(payload: Seq<u8>)
    ensures
        seektable_check(payload) is Ok <==> payload.len() % 18 == 0 && exists|end: int|
            #[trigger] are_ordered(sample_numbers(payload), end),
{
    lemma_scan_is_exact(sample_numbers(payload));
}

/// The sample numbers of written points are read back.
pub proof fn law_sample_numbers_read_back(points: Seq<SeekPoint>)
    ensures
        points_bytes(points).len() == 18 * points.len(),
        sample_numbers(points_bytes(points)) == points.map_values(
            |point: SeekPoint| point.sample_number,
        ),
    decreases points.len(),
{
    let payload = points_bytes(points);
    if points.len() > 0 {
        let earlier = points.drop_last();
        law_sample_numbers_read_back(earlier);
        let last = points.last();
        lemma_byte_ranges();
        law_be_bytes_read_back(last.sample_number as nat, 8);
        law_be_bytes_read_back(last.frame_offset as nat, 8);
        law_be_bytes_read_back(last.sample_count as nat, 2);
        let head = points_bytes(earlier);
        assert forall|i: int| 0 <= i < points.len() implies sample_numbers(payload)[i]
            == points[i].sample_number by {
            if i < earlier.len() {
                assert(payload.subrange(18 * i, 18 * i + 8) == head.subrange(18 * i, 18 * i + 8));
                assert(sample_numbers(head)[i] == earlier[i].sample_number);
            } else {
                assert(payload.subrange(18 * i, 18 * i + 8) == be_bytes(
                    last.sample_number as nat,
                    8,
                ));
            }
        }
        assert(sample_numbers(payload) == points.map_values(
            |point: SeekPoint| point.sample_number,
        ));
    } else {
        assert(sample_numbers(payload) == points.map_values(
            |point: SeekPoint| point.sample_number,
        ));
    }
}

proof fn lemma_scan_fails(numbers: Seq<u64>, count: int)
    requires
        0 <= count <= numbers.len(),
        scan_numbers(numbers.take(count)) is Err,
    ensures
        scan_numbers(numbers) == scan_numbers(numbers.take(count)),
    decreases numbers.len(),
{
    if count < numbers.len() {
        assert(numbers.drop_last().take(count) == numbers.take(count));
        lemma_scan_fails(numbers.drop_last(), count);
    } else {
        assert(numbers.take(count) == numbers);
    }
}

/// Checks the payload of a seek table.
pub fn validate_seektable_payload(payload: &[u8]) -> (result: Result<()>)
    ensures
        match seektable_check(payload@) {
            Ok(_) => result is Ok,
            Err(expected) => result matches Err(error) && error@ == expected,
        },
{
    if payload.len() % SEEKTABLE_POINT_LEN != 0 {
        return Err(
            Error::InvalidFlac("seektable payload length must be a multiple of 18 bytes"),
        );
    }
    let count: usize = payload.len() / SEEKTABLE_POINT_LEN;
    let ghost numbers = sample_numbers(payload@);
    let mut previous: Option<u64> = None;
    let mut saw_placeholder = false;
    let mut index: usize = 0;
    while index < count
        invariant
            index <= count,
            count == payload@.len() / 18,
            payload@.len() <= usize::MAX,
            payload@.len() % 18 == 0,
            numbers == sample_numbers(payload@),
            scan_numbers(numbers.take(index as int)) == Ok::<SeekScan, ErrorView>(
                SeekScan { previous, saw_placeholder },
            ),
        decreases count - index,
    {
        let ghost next = numbers.take(index + 1);
        proof {
            lemma_byte_ranges();
            assert(next.drop_last() == numbers.take(index as int));
            assert(next.last() == numbers[index as int]);
            if scan_numbers(next) is Err {
                lemma_scan_fails(numbers, index + 1);
            }
        }
        let number: u64 = read_be(payload, SEEKTABLE_POINT_LEN * index, 8);
        index = index + 1;
        if number == SEEKTABLE_PLACEHOLDER_SAMPLE_NUMBER {
            saw_placeholder = true;
        } else {
            if saw_placeholder {
                return Err(
                    Error::InvalidFlac(
                        "seektable placeholder points must appear at the end of the table",
                    ),
                );
            }
            match previous {
                Some(last) => {
                    if number < last {
                        return Err(
                            Error::InvalidFlac(
                                "seektable sample numbers must be in ascending order",
                            ),
                        );
                    }
                    if number == last {
                        return Err(
                            Error::InvalidFlac("seektable sample numbers must be unique"),
                        );
                    }
                },
                None => {},
            }
            previous = Some(number);
        }
    }
    assert(numbers.take(index as int) == numbers);
    Ok(())
}

} // verus!
