use vstd::prelude::*;

verus! {

/// `String::push` appends the given character to the end of the string; nothing else
/// about the string changes.
pub assume_specification[ String::push ](string: &mut String, ch: char)
    ensures
        final(string)@ == old(string)@.push(ch),
;

/// The ASCII digit that stands for `d` (for `d` in `0..10`).
pub open spec fn digit_char(d: int) -> char {
    if d == 0 {
        '0'
    } else if d == 1 {
        '1'
    } else if d == 2 {
        '2'
    } else if d == 3 {
        '3'
    } else if d == 4 {
        '4'
    } else if d == 5 {
        '5'
    } else if d == 6 {
        '6'
    } else if d == 7 {
        '7'
    } else if d == 8 {
        '8'
    } else {
        '9'
    }
}

/// The base-ten spelling of `n`, without leading zeros.
pub open spec fn decimal(n: nat) -> Seq<char>
    decreases n,
{
    if n < 10 {
        seq![digit_char(n as int)]
    } else {
        decimal(n / 10).push(digit_char((n % 10) as int))
    }
}

fn digit(d: u8) -> (c: char)
    requires
        d < 10,
    ensures
        c == digit_char(d as int),
{
    if d == 0 {
        '0'
    } else if d == 1 {
        '1'
    } else if d == 2 {
        '2'
    } else if d == 3 {
        '3'
    } else if d == 4 {
        '4'
    } else if d == 5 {
        '5'
    } else if d == 6 {
        '6'
    } else if d == 7 {
        '7'
    } else if d == 8 {
        '8'
    } else {
        '9'
    }
}

/// Appends the decimal spelling of `n` to `out`.
pub fn push_decimal(out: &mut String, n: u8)
    ensures
        final(out)@ == old(out)@ + decimal(n as nat),
{
    proof {
        reveal_with_fuel(decimal, 3);
    }
    if n >= 100 {
        out.push(digit(n / 100));
        out.push(digit((n / 10) % 10));
        out.push(digit(n % 10));
        assert(decimal(n as nat) =~= seq![
            digit_char((n / 100) as int),
            digit_char(((n / 10) % 10) as int),
            digit_char((n % 10) as int),
        ]);
    } else if n >= 10 {
        out.push(digit(n / 10));
        out.push(digit(n % 10));
        assert(decimal(n as nat) =~= seq![digit_char((n / 10) as int), digit_char((n % 10) as int)]);
    } else {
        out.push(digit(n));
        assert(decimal(n as nat) =~= seq![digit_char(n as int)]);
    }
}

/// `line` without one carriage return at its end, if it has one.
pub open spec fn strip_carriage_return(line: Seq<char>) -> Seq<char> {
    if line.len() > 0 && line.last() == '\r' {
        line.drop_last()
    } else {
        line
    }
}

/// Reading `text` from the left: the lines that a newline has closed so far (each without
/// its line ending), and the characters of the line still open.
pub open spec fn scan_lines(text: Seq<char>) -> (Seq<Seq<char>>, Seq<char>)
    decreases text.len(),
{
    if text.len() == 0 {
        (seq![], seq![])
    } else {
        let (closed, open) = scan_lines(text.drop_last());
        if text.last() == '\n' {
            (closed.push(strip_carriage_return(open)), seq![])
        } else {
            (closed, open.push(text.last()))
        }
    }
}

/// The lines of `text`, split at `\n` and `\r\n`; a final line ending adds no empty line
/// and the empty text has no lines.
pub open spec fn text_lines(text: Seq<char>) -> Seq<Seq<char>> {
    let (closed, open) = scan_lines(text);
    if open.len() == 0 {
        closed
    } else {
        closed.push(open)
    }
}

/// The rows that the text is laid out in: its lines, and a single empty row for the empty
/// text.
pub open spec fn text_rows(text: Seq<char>) -> Seq<Seq<char>> {
    if text.len() == 0 {
        seq![seq![]]
    } else {
        text_lines(text)
    }
}

/// The lines, each followed by a newline.
pub open spec fn terminated_lines(lines: Seq<Seq<char>>) -> Seq<char>
    decreases lines.len(),
{
    if lines.len() == 0 {
        Seq::empty()
    } else {
        terminated_lines(lines.drop_last()) + lines.last() + seq!['\n']
    }
}

/// The lines with a newline between each two.
pub open spec fn joined_lines(lines: Seq<Seq<char>>) -> Seq<char> {
    if lines.len() == 0 {
        Seq::empty()
    } else {
        terminated_lines(lines.drop_last()) + lines.last()
    }
}

proof fn lemma_scan_rebuilds(text: Seq<char>)
    requires
        !text.contains('\r'),
    ensures
        terminated_lines(scan_lines(text).0) + scan_lines(text).1 == text,
        scan_lines(text).1.len() > 0 ==> scan_lines(text).1.last() == text.last(),
        text.len() > 0 && text.last() != '\n' ==> scan_lines(text).1.len() > 0,
    decreases text.len(),
{
    if text.len() > 0 {
        let before = text.drop_last();
        assert forall|i: int| 0 <= i < before.len() implies before[i] != '\r' by {
            assert(text[i] == before[i]);
        }
        lemma_scan_rebuilds(before);
        let (closed, open) = scan_lines(before);
        if text.last() == '\n' {
            if open.len() > 0 {
                assert(open.last() == before.last());
                assert(before.last() == text[before.len() - 1]);
            }
            assert(strip_carriage_return(open) == open);
            let lines = closed.push(open);
            assert(lines.drop_last() =~= closed);
            assert(terminated_lines(lines) + Seq::<char>::empty() =~= before + seq!['\n']);
        } else {
            assert(terminated_lines(closed) + open.push(text.last()) =~= before.push(text.last()));
        }
        assert(before.push(text.last()) =~= text);
    }
}

/// A text with no carriage return that does not end in a newline is its rows joined with
/// newlines: splitting loses nothing but the line breaks.
pub proof fn lemma_rows_rejoin(text: Seq<char>)
    requires
        !text.contains('\r'),
        text.len() == 0 || text.last() != '\n',
    ensures
        joined_lines(text_rows(text)) == text,
{
    if text.len() > 0 {
        lemma_scan_rebuilds(text);
        let (closed, open) = scan_lines(text);
        assert(closed.push(open).drop_last() =~= closed);
    } else {
        assert(joined_lines(text_rows(text)) =~= text);
    }
}

proof fn lemma_scan_has_no_newline(text: Seq<char>)
    ensures
        forall|i: int|
            0 <= i < scan_lines(text).0.len() ==> !(#[trigger] scan_lines(text).0[i]).contains(
                '\n',
            ),
        !scan_lines(text).1.contains('\n'),
    decreases text.len(),
{
    if text.len() > 0 {
        lemma_scan_has_no_newline(text.drop_last());
        let (closed, open) = scan_lines(text.drop_last());
        if text.last() == '\n' {
            let line = strip_carriage_return(open);
            assert forall|j: int| 0 <= j < line.len() implies line[j] != '\n' by {
                assert(line[j] == open[j]);
            }
        } else {
            let grown = open.push(text.last());
            assert forall|j: int| 0 <= j < grown.len() implies grown[j] != '\n' by {
                if j < open.len() {
                    assert(grown[j] == open[j]);
                }
            }
        }
    }
}

/// No row of a text contains a newline.
pub proof fn lemma_rows_have_no_newline(text: Seq<char>)
    ensures
        forall|i: int| 0 <= i < text_rows(text).len() ==> !(#[trigger] text_rows(text)[i]).contains('\n'),
{
    lemma_scan_has_no_newline(text);
    if text.len() == 0 {
        assert forall|i: int| 0 <= i < text_rows(text).len() implies !(
        #[trigger] text_rows(text)[i]).contains('\n') by {
            assert(text_rows(text)[i] =~= Seq::<char>::empty());
        }
    }
}

/// Every text has at least one row.
pub proof fn lemma_rows_nonempty(text: Seq<char>)
    ensures
        text_rows(text).len() >= 1,
{
}

/// The characters of each row of the input, as `text_rows` lays them out.
pub fn split_rows(input: &str) -> (rows: Vec<Vec<char>>)
    ensures
        rows.deep_view() == text_rows(input@),
{
    let mut rows: Vec<Vec<char>> = Vec::new();
    if input.is_empty() {
        rows.push(Vec::new());
        assert(rows.deep_view() =~~= text_rows(input@));
        return rows;
    }
    let mut open: Vec<char> = Vec::new();
    for symbol in it: input.chars()
        invariant
            it.seq() == input@,
            (rows.deep_view(), open@) == scan_lines(input@.take(it.index() as int)),
    {
        let ghost closed = rows.deep_view();
        assert(input@.take(it.index() + 1).drop_last() =~= input@.take(it.index() as int));
        if symbol == '\n' {
            let length = open.len();
            if length > 0 && open[length - 1] == '\r' {
                open.pop();
            }
            let line = open;
            rows.push(line);
            open = Vec::new();
            assert(rows.deep_view() =~~= closed.push(line@));
        } else {
            open.push(symbol);
        }
    }
    assert(input@.take(input@.len() as int) =~= input@);
    let ghost closed = rows.deep_view();
    if open.len() > 0 {
        let ghost line = open@;
        rows.push(open);
        assert(rows.deep_view() =~~= closed.push(line));
    }
    rows
}

/// The length of the longest row (zero when there are none).
pub open spec fn longest_row(rows: Seq<Seq<char>>) -> nat
    decreases rows.len(),
{
    if rows.len() == 0 {
        0
    } else {
        let rest = longest_row(rows.drop_last());
        if rows.last().len() > rest {
            rows.last().len()
        } else {
            rest
        }
    }
}

/// The size of the canvas that holds the rows: as wide as the longest row and as tall as
/// the number of rows, each at least one.
pub fn grid_size(rows: &Vec<Vec<char>>) -> (size: (usize, usize))
    ensures
        size.0 == (if longest_row(rows.deep_view()) > 0 {
            longest_row(rows.deep_view())
        } else {
            1
        }),
        size.1 == (if rows.len() > 0 {
            rows.len()
        } else {
            1
        }),
{
    let mut width: usize = 0;
    let mut index: usize = 0;
    while index < rows.len()
        invariant
            index <= rows.len(),
            width == longest_row(rows.deep_view().take(index as int)),
        decreases rows.len() - index,
    {
        assert(rows.deep_view().take(index + 1).drop_last() =~= rows.deep_view().take(
            index as int,
        ));
        if rows[index].len() > width {
            width = rows[index].len();
        }
        index += 1;
    }
    assert(rows.deep_view().take(rows.len() as int) =~= rows.deep_view());
    let height = if rows.len() > 0 {
        rows.len()
    } else {
        1
    };
    (if width > 0 {
        width
    } else {
        1
    }, height)
}

/// The canvas size that holds the text, as `grid_size` computes it.
pub open spec fn text_grid(text: Seq<char>) -> (nat, nat) {
    let rows = text_rows(text);
    (
        if longest_row(rows) > 0 {
            longest_row(rows)
        } else {
            1
        },
        if rows.len() > 0 {
            rows.len()
        } else {
            1
        },
    )
}

/// The number of characters in the first `count` rows.
pub open spec fn characters_before(rows: Seq<Seq<char>>, count: int) -> int
    decreases count,
{
    if count <= 0 {
        0
    } else {
        characters_before(rows, count - 1) + rows[count - 1].len()
    }
}

/// Whether `c` has Unicode's White_Space property.
pub open spec fn white_space(c: char) -> bool {
    let v = c as u32;
    ||| 0x09 <= v <= 0x0d
    ||| v == 0x20
    ||| v == 0x85
    ||| v == 0xa0
    ||| v == 0x1680
    ||| 0x2000 <= v <= 0x200a
    ||| v == 0x2028
    ||| v == 0x2029
    ||| v == 0x202f
    ||| v == 0x205f
    ||| v == 0x3000
}

/// Whether `c` is white space, as `char::is_whitespace` decides it.
pub fn is_white_space(c: char) -> (white: bool)
    ensures
        white == white_space(c),
{
    let v = c as u32;
    (0x09 <= v && v <= 0x0d) || v == 0x20 || v == 0x85 || v == 0xa0 || v == 0x1680 || (0x2000 <= v
        && v <= 0x200a) || v == 0x2028 || v == 0x2029 || v == 0x202f || v == 0x205f || v == 0x3000
}

} // verus!
