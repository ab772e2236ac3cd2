//! Showing a list of commands: as a grid where the width of the terminal
//! is known, else one command per line.

use vstd::prelude::*;

verus! {

/// What a list of strings holds.
pub open spec fn texts(list: Seq<String>) -> Seq<Seq<char>> {
    Seq::new(list.len(), |i: int| list[i]@)
}

/// The grid that shows `cells` from left to right, row by row, in columns
/// that are `spaces` spaces apart, within `width` terminal columns where
/// they fit.
pub uninterp spec fn grid_text(cells: Seq<Seq<char>>, spaces: int, width: int) -> Seq<char>;

/// `term_grid::Grid::new` for cells written from left to right with a
/// filling of spaces, and the text that the grid's `Display` writes. The
/// text is the layout that the crate computes from the cells, the filling
/// and the width; nothing else is claimed of it. The bounds keep the crate's
/// arithmetic on the filling within `usize`.
#[verifier::external_body]
fn format_grid(cells: &Vec<String>, spaces: usize, width: usize) -> (text: String)
    requires
        0 < spaces <= 0xffff,
        cells@.len() * spaces <= usize::MAX,
    ensures
        text@ == grid_text(texts(cells@), spaces as int, width as int),
{
    let options = term_grid::GridOptions {
        direction: term_grid::Direction::LeftToRight,
        filling: term_grid::Filling::Spaces(spaces),
        width,
    };
    format!("{}", term_grid::Grid::new(cells.iter().collect(), options))
}

/// `String::push_str`: appends `tail` to `text`.
#[verifier::external_body]
fn push_str(text: &mut String, tail: &str)
    ensures
        final(text)@ == old(text)@ + tail@,
{
    text.push_str(tail);
}

/// The strings of a list, one per line.
pub open spec fn lines_text(list: Seq<Seq<char>>) -> Seq<char>
    decreases list.len(),
{
    if list.len() == 0 {
        Seq::empty()
    } else {
        lines_text(list.drop_last()) + list.last() + "\n"@
    }
}

/// The number of spaces between the columns of the grid.
pub const GRID_SPACING: usize = 2;

/// The text that shows a list of commands on a terminal. With the number
/// of columns of the terminal, it is a grid; without it, or for a list too
/// long to lay out, it has one command per line.
pub open spec fn spec_print_as_grid(strings: Seq<Seq<char>>, width: Option<usize>) -> Seq<char> {
    match width {
        Some(columns) if strings.len() * GRID_SPACING <= usize::MAX => grid_text(
            strings,
            GRID_SPACING as int,
            columns as int,
        ),
        _ => lines_text(strings),
    }
}

/// Lays out a list of commands for the terminal. `width` is the number of
/// columns of the terminal, where it is known.
pub fn print_as_grid(strings: &Vec<String>, width: Option<usize>) -> (text: String)
    ensures
        text@ == spec_print_as_grid(texts(strings@), width),
{
    match width {
        Some(columns) if strings.len() <= usize::MAX / GRID_SPACING => {
            return format_grid(strings, GRID_SPACING, columns);
        },
        _ => {},
    }
    let mut text = String::new();
    let mut i: usize = 0;
    assert(texts(strings@).take(0) =~= Seq::<Seq<char>>::empty());
    while i < strings.len()
        invariant
            i <= strings@.len(),
            text@ == lines_text(texts(strings@).take(i as int)),
        decreases strings@.len() - i,
    {
        proof {
            let all = texts(strings@);
            assert(all.take(i + 1).drop_last() =~= all.take(i as int));
            assert(all.take(i + 1).last() == strings@[i as int]@);
        }
        push_str(&mut text, strings[i].as_str());
        push_str(&mut text, "\n");
        i += 1;
    }
    assert(texts(strings@).take(i as int) =~= texts(strings@));
    text
}

} // verus!
