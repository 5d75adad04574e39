//! Texts in terminal columns.

use unicode_width::{UnicodeWidthChar, UnicodeWidthStr};
use vstd::prelude::*;
use vstd::string::*;

verus! {

/// The columns that a text takes.
pub uninterp spec fn text_columns(text: Seq<char>) -> nat;

/// The columns that a character takes by itself, if it is no control character.
pub uninterp spec fn char_columns(c: char) -> Option<usize>;

/// A character that is written in one column.
pub open spec fn is_plain(c: char) -> bool {
    ' ' <= c <= '~'
}

/// `UnicodeWidthStr::width`: the columns that a text takes. Each character of a text of
/// visible ASCII characters and spaces takes one.
#[verifier::external_body]
pub(crate) fn text_width(text: &str) -> (columns: usize)
    ensures
        columns == text_columns(text@),
        (forall|i: int| 0 <= i < text@.len() ==> is_plain(#[trigger] text@[i])) ==> columns
            == text@.len(),
{
    UnicodeWidthStr::width(text)
}

/// `UnicodeWidthChar::width`: the columns that a character takes, and nothing for a
/// control character. A visible ASCII character or a space takes one.
#[verifier::external_body]
pub(crate) fn char_width(c: char) -> (columns: Option<usize>)
    ensures
        columns == char_columns(c),
        is_plain(c) ==> columns == Some(1usize),
        (c < ' ' || ('\u{7f}' <= c && c < '\u{a0}')) ==> columns is None,
{
    UnicodeWidthChar::width(c)
}

/// The columns that a text takes.
pub fn display_width(text: &str) -> (columns: usize)
    ensures
        columns == text_columns(text@),
{
    text_width(text)
}

/// The columns that a character adds, 0 for a control character.
pub open spec fn added_columns(c: char) -> usize {
    match char_columns(c) {
        Some(columns) => columns,
        None => 0,
    }
}

/// The columns of the characters of a text, one by one.
pub open spec fn columns_of(text: Seq<char>) -> Seq<usize> {
    text.map_values(|c: char| added_columns(c))
}

/// A sum of columns.
pub open spec fn summed(columns: Seq<usize>) -> nat
    decreases columns.len(),
{
    if columns.len() == 0 {
        0
    } else {
        summed(columns.drop_last()) + columns.last() as nat
    }
}

/// How many characters, of which `taken` were taken already, fit a number of columns.
pub open spec fn fitting_count(columns: Seq<usize>, target: nat, taken: nat) -> nat
    decreases columns.len() - taken,
{
    if taken >= columns.len() || summed(columns.take(taken as int + 1)) > target {
        taken
    } else {
        fitting_count(columns, target, taken + 1)
    }
}

/// How many characters fit a number of columns.
pub fn fitting_characters(columns: &[usize], target: usize) -> (count: usize)
    ensures
        count == fitting_count(columns@, target as nat, 0),
        count <= columns@.len(),
{
    let mut width: usize = 0;
    let mut count: usize = 0;
    assert(columns@.take(0) == Seq::<usize>::empty());
    while count < columns.len()
        invariant
            count <= columns@.len(),
            width == summed(columns@.take(count as int)),
            width <= target,
            fitting_count(columns@, target as nat, 0) == fitting_count(
                columns@,
                target as nat,
                count as nat,
            ),
        decreases columns.len() - count,
    {
        proof {
            assert(columns@.take(count + 1).drop_last() == columns@.take(count as int));
        }
        if columns[count] > target - width {
            return count;
        }
        width = width + columns[count];
        count = count + 1;
    }
    count
}

/// A text of `width` columns that was cut to fewer: it stays as it is if it fits, and ends
/// in an ellipsis otherwise.
pub open spec fn cut_text(text: Seq<char>, width: nat, columns: Seq<usize>, max_width: nat) -> Seq<
    char,
> {
    if max_width == 0 {
        Seq::empty()
    } else if width <= max_width {
        text
    } else if max_width == 1 {
        seq!['\u{2026}']
    } else {
        text.take(fitting_count(columns, (max_width - 1) as nat, 0) as int).push('\u{2026}')
    }
}

/// A text of `width` columns that was cut to fewer. `columns` holds those of its
/// characters.
pub fn truncate_measured_text(text: &str, width: usize, columns: &[usize], max_width: usize) -> (cut:
    String)
    requires
        columns@.len() == text@.len(),
    ensures
        cut@ == cut_text(text@, width as nat, columns@, max_width as nat),
{
    let mut cut = String::new();
    if max_width == 0 {
        return cut;
    }
    if width <= max_width {
        return text.to_owned();
    }
    if max_width == 1 {
        cut.push('\u{2026}');
        assert(cut@ == seq!['\u{2026}']);
        return cut;
    }
    let count: usize = fitting_characters(columns, max_width - 1);
    let mut index: usize = 0;
    assert(text@.take(0) == Seq::<char>::empty());
    while index < count
        invariant
            index <= count,
            count <= text@.len(),
            cut@ == text@.take(index as int),
        decreases count - index,
    {
        cut.push(text.get_char(index));
        index = index + 1;
        assert(cut@ == text@.take(index as int));
    }
    cut.push('\u{2026}');
    cut
}

/// A text that was cut to a number of columns.
pub fn truncate_display_text(text: &str, max_width: usize) -> (cut: String)
    ensures
        cut@ == cut_text(text@, text_columns(text@), columns_of(text@), max_width as nat),
{
    let length: usize = text.unicode_len();
    let mut columns: Vec<usize> = Vec::new();
    let mut index: usize = 0;
    while index < length
        invariant
            index <= length,
            length == text@.len(),
            columns@ == columns_of(text@).take(index as int),
        decreases length - index,
    {
        let added: usize = match char_width(text.get_char(index)) {
            Some(added) => added,
            None => 0,
        };
        columns.push(added);
        index = index + 1;
        assert(columns@ == columns_of(text@).take(index as int));
    }
    assert(columns@ == columns_of(text@));
    truncate_measured_text(text, text_width(text), columns.as_slice(), max_width)
}

/// The characters that are kept of a text fit, one by one, in front of the ellipsis, and
/// the next one does not.
pub proof fn law_kept_characters_fit(columns: Seq<usize>, target: nat, taken: nat)
    requires
        taken <= columns.len(),
        summed(columns.take(taken as int)) <= target,
    ensures
        ({
            let kept = fitting_count(columns, target, taken);
            &&& taken <= kept <= columns.len()
            &&& summed(columns.take(kept as int)) <= target
            &&& kept < columns.len() ==> summed(columns.take(kept as int + 1)) > target
        }),
    decreases columns.len() - taken,
{
    if taken < columns.len() && summed(columns.take(taken as int + 1)) <= target {
        law_kept_characters_fit(columns, target, taken + 1);
    }
}

/// The rows that a line takes on a terminal.
pub open spec fn row_count(columns: nat, line_budget: Option<usize>) -> nat {
    match line_budget {
        Some(budget) => if budget == 0 {
            1
        } else {
            let width = if columns == 0 {
                1
            } else {
                columns
            };
            ((width + budget - 1) / (budget as int)) as nat
        },
        None => 1,
    }
}

/// The rows that a line takes on a terminal.
pub fn rendered_row_count(display_width: usize, line_budget: Option<usize>) -> (rows: usize)
    ensures
        rows == row_count(display_width as nat, line_budget),
        rows >= 1,
{
    match line_budget {
        Some(budget) => {
            if budget == 0 {
                return 1;
            }
            let width: usize = if display_width == 0 {
                1
            } else {
                display_width
            };
            let whole: usize = width / budget;
            proof {
                vstd::arithmetic::div_mod::lemma_fundamental_div_mod(width as int, budget as int);
                let rest = width as int % budget as int;
                assert(budget * whole == whole * budget) by (nonlinear_arith);
                assert(width == whole * budget + rest);
                if rest == 0 {
                    vstd::arithmetic::div_mod::lemma_fundamental_div_mod_converse(
                        width + budget - 1,
                        budget as int,
                        whole as int,
                        budget - 1,
                    );
                    if whole == 0 {
                        assert(budget * 0 == 0);
                    }
                } else {
                    assert((whole + 1) * budget == whole * budget + budget) by (nonlinear_arith);
                    vstd::arithmetic::div_mod::lemma_fundamental_div_mod_converse(
                        width + budget - 1,
                        budget as int,
                        whole + 1,
                        rest - 1,
                    );
                    assert(whole < width) by (nonlinear_arith)
                        requires
                            width == whole * budget + rest,
                            rest >= 1,
                            budget >= 1,
                            whole >= 0,
                    ;
                }
            }
            if width % budget == 0 {
                whole
            } else {
                whole + 1
            }
        },
        None => 1,
    }
}

/// The columns that a line may take on a terminal of some columns: one is left free.
pub fn progress_line_budget_from_columns(columns: usize) -> (budget: Option<usize>)
    ensures
        budget == if columns == 0 {
            None::<usize>
        } else if columns == 1 {
            Some(1usize)
        } else {
            Some((columns - 1) as usize)
        },
{
    if columns == 0 {
        None
    } else if columns == 1 {
        Some(1)
    } else {
        Some(columns - 1)
    }
}

} // verus!
