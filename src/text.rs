//! The textual form of an alive set: 1-indexed cells written `row-column`
//! and separated by commas, as in `2-3,3-3,4-3`, and the dimensions written
//! as plain decimal numbers.
use vstd::prelude::*;

verus! {

/// The byte `,`, which separates cells.
pub const COMMA: u8 = 44;

/// The byte `-`, which separates a cell's row from its column.
pub const DASH: u8 = 45;

/// The pieces of `s` between occurrences of `sep`; a text with no `sep` is
/// one piece, and two adjacent separators enclose an empty piece.
pub open spec fn split(s: Seq<u8>, sep: u8) -> Seq<Seq<u8>>
    decreases s.len(),
{
    if s.len() == 0 {
        seq![Seq::<u8>::empty()]
    } else {
        let rest = split(s.drop_last(), sep);
        if s.last() == sep {
            rest.push(Seq::<u8>::empty())
        } else {
            rest.update(rest.len() - 1, rest[rest.len() - 1].push(s.last()))
        }
    }
}

/// Every byte of `s` is an ASCII decimal digit.
pub open spec fn all_digits(s: Seq<u8>) -> bool {
    forall|i: int| 0 <= i < s.len() ==> 48 <= #[trigger] s[i] <= 57
}

/// The value of the decimal digits `s`, most significant first.
pub open spec fn decimal(s: Seq<u8>) -> int
    decreases s.len(),
{
    if s.len() == 0 {
        0
    } else {
        decimal(s.drop_last()) * 10 + (s.last() - 48)
    }
}

/// The number that `s` writes: one or more digits whose value fits a `usize`.
pub open spec fn number(s: Seq<u8>) -> Option<usize> {
    if s.len() > 0 && all_digits(s) && decimal(s) <= usize::MAX {
        Some(decimal(s) as usize)
    } else {
        None
    }
}

/// The cell that `piece` writes: exactly two numbers joined by a dash.
pub open spec fn cell_of(piece: Seq<u8>) -> Option<(usize, usize)> {
    let parts = split(piece, DASH);
    if parts.len() == 2 && number(parts[0]) is Some && number(parts[1]) is Some {
        Some((number(parts[0])->Some_0, number(parts[1])->Some_0))
    } else {
        None
    }
}

/// The cells that `text` lists, when every comma-separated piece is a cell.
pub open spec fn cells_of(text: Seq<u8>) -> Option<Seq<(usize, usize)>> {
    let pieces = split(text, COMMA);
    if forall|j: int| 0 <= j < pieces.len() ==> (#[trigger] cell_of(pieces[j])) is Some {
        Some(Seq::new(pieces.len(), |j: int| cell_of(pieces[j])->Some_0))
    } else {
        None
    }
}

proof fn lemma_split_step(s: Seq<u8>, b: u8, sep: u8)
    ensures
        split(s, sep).len() >= 1,
        split(s.push(b), sep) == if b == sep {
            split(s, sep).push(Seq::<u8>::empty())
        } else {
            split(s, sep).update(
                split(s, sep).len() - 1,
                split(s, sep)[split(s, sep).len() - 1].push(b),
            )
        },
{
    lemma_split_nonempty(s, sep);
    assert(s.push(b).drop_last() =~= s);
}

proof fn lemma_split_nonempty(s: Seq<u8>, sep: u8)
    ensures
        split(s, sep).len() >= 1,
    decreases s.len(),
{
    if s.len() > 0 {
        lemma_split_nonempty(s.drop_last(), sep);
    }
}

/// Extending a text keeps every piece of the shorter text but its last, and
/// never lowers the number of pieces.
proof fn lemma_split_prefix(s: Seq<u8>, k: int, sep: u8)
    requires
        0 <= k <= s.len(),
    ensures
        split(s.subrange(0, k), sep).len() <= split(s, sep).len(),
        forall|j: int|
            0 <= j < split(s.subrange(0, k), sep).len() - 1 ==> split(s, sep)[j] == #[trigger] split(
                s.subrange(0, k),
                sep,
            )[j],
    decreases s.len(),
{
    if k == s.len() {
        assert(s.subrange(0, k) =~= s);
    } else {
        let d = s.drop_last();
        assert(d.subrange(0, k) =~= s.subrange(0, k));
        lemma_split_prefix(d, k, sep);
        lemma_split_step(d, s.last(), sep);
        assert(d.push(s.last()) =~= s);
    }
}

proof fn lemma_decimal_grows(s: Seq<u8>, k: int)
    requires
        0 <= k <= s.len(),
        all_digits(s),
    ensures
        0 <= decimal(s.subrange(0, k)) <= decimal(s),
    decreases s.len(),
{
    if k == s.len() {
        assert(s.subrange(0, k) =~= s);
        if s.len() > 0 {
            lemma_decimal_grows(s.drop_last(), 0);
            assert(s.drop_last().subrange(0, 0) =~= Seq::<u8>::empty());
            lemma_decimal_grows(s.drop_last(), s.len() - 1);
            assert(s.drop_last().subrange(0, s.len() - 1) =~= s.drop_last());
        }
    } else {
        let d = s.drop_last();
        assert(d.subrange(0, k) =~= s.subrange(0, k));
        lemma_decimal_grows(d, k);
        assert(48 <= s[s.len() - 1]);
    }
}

/// Reads the number written by `text[a..b]`.
fn parse_number(text: &[u8], a: usize, b: usize) -> (r: Option<usize>)
    requires
        a <= b <= text@.len(),
    ensures
        r == number(text@.subrange(a as int, b as int)),
{
    let ghost s = text@.subrange(a as int, b as int);
    if a == b {
        return None;
    }
    let mut acc: usize = 0;
    let mut i: usize = a;
    while i < b
        invariant
            a <= i <= b <= text@.len(),
            s == text@.subrange(a as int, b as int),
            all_digits(text@.subrange(a as int, i as int)),
            acc == decimal(text@.subrange(a as int, i as int)),
        decreases b - i,
    {
        let ghost done = text@.subrange(a as int, i as int);
        let ghost next = text@.subrange(a as int, i + 1);
        assert(next.drop_last() =~= done);
        assert(s.subrange(0, i + 1 - a) =~= next);
        let c = text[i];
        if c < 48 || c > 57 {
            assert(!(48 <= s[i - a] <= 57));
            return None;
        }
        let d = (c - 48) as usize;
        let grown = match acc.checked_mul(10) {
            Some(t) => t.checked_add(d),
            None => None,
        };
        match grown {
            Some(v) => {
                acc = v;
            },
            None => {
                proof {
                    if all_digits(s) {
                        lemma_decimal_grows(s, i + 1 - a);
                    }
                }
                return None;
            },
        }
        i = i + 1;
    }
    assert(text@.subrange(a as int, i as int) =~= s);
    Some(acc)
}

/// Reads a dimension or coordinate written in decimal digits, such as `12`.
pub fn parse_size(text: &[u8]) -> (r: Option<usize>)
    ensures
        r == number(text@),
{
    assert(text@.subrange(0, text@.len() as int) =~= text@);
    parse_number(text, 0, text.len())
}

/// Reads the cell written by `text[start..end]`.
fn parse_cell(text: &[u8], start: usize, end: usize) -> (r: Option<(usize, usize)>)
    requires
        start <= end <= text@.len(),
    ensures
        r == cell_of(text@.subrange(start as int, end as int)),
{
    let ghost piece = text@.subrange(start as int, end as int);
    let mut dashes: usize = 0;
    let mut dash_at: usize = start;
    let mut i: usize = start;
    assert(text@.subrange(start as int, start as int) =~= Seq::<u8>::empty());
    assert(split(Seq::<u8>::empty(), DASH) == seq![Seq::<u8>::empty()]);
    while i < end
        invariant
            start <= i <= end <= text@.len(),
            piece == text@.subrange(start as int, end as int),
            dashes <= 1,
            dashes == 0 ==> split(text@.subrange(start as int, i as int), DASH) == seq![
                text@.subrange(start as int, i as int),
            ],
            dashes == 1 ==> start <= dash_at < i && split(text@.subrange(start as int, i as int), DASH)
                == seq![
                text@.subrange(start as int, dash_at as int),
                text@.subrange(dash_at + 1, i as int),
            ],
        decreases end - i,
    {
        let ghost p = text@.subrange(start as int, i as int);
        proof {
            lemma_split_step(p, text@[i as int], DASH);
            assert(p.push(text@[i as int]) =~= text@.subrange(start as int, i + 1));
            assert(piece.subrange(0, i + 1 - start) =~= text@.subrange(start as int, i + 1));
            if dashes == 1 {
                assert(text@.subrange(dash_at + 1, i as int).push(text@[i as int]) =~= text@.subrange(
                    dash_at + 1,
                    i + 1,
                ));
            }
        }
        if text[i] == DASH {
            if dashes == 1 {
                proof {
                    lemma_split_prefix(piece, i + 1 - start, DASH);
                }
                return None;
            }
            dashes = 1;
            dash_at = i;
            proof {
                assert(text@.subrange(dash_at + 1, i + 1) =~= Seq::<u8>::empty());
            }
        }
        i = i + 1;
    }
    assert(text@.subrange(start as int, i as int) =~= piece);
    if dashes == 0 {
        return None;
    }
    let row = parse_number(text, start, dash_at);
    let column = parse_number(text, dash_at + 1, end);
    match (row, column) {
        (Some(r), Some(c)) => Some((r, c)),
        _ => None,
    }
}

/// Reads a list of cells such as `2-3,3-3,4-3`: `None` unless every
/// comma-separated piece is a row and a column, written in decimal digits and
/// joined by a dash. Each cell is listed as written; nothing is checked
/// against a grid.
pub fn parse_cells(text: &[u8]) -> (r: Option<Vec<(usize, usize)>>)
    ensures
        r is None <==> cells_of(text@) is None,
        r matches Some(cells) ==> cells_of(text@) == Some(cells@),
{
    let mut cells: Vec<(usize, usize)> = Vec::new();
    let mut start: usize = 0;
    let mut i: usize = 0;
    assert(text@.subrange(0, 0) =~= Seq::<u8>::empty());
    assert(split(Seq::<u8>::empty(), COMMA) == seq![Seq::<u8>::empty()]);
    while i < text.len()
        invariant
            start <= i <= text@.len(),
            split(text@.subrange(0, i as int), COMMA).len() == cells@.len() + 1,
            split(text@.subrange(0, i as int), COMMA)[cells@.len() as int] == text@.subrange(
                start as int,
                i as int,
            ),
            forall|j: int|
                0 <= j < cells@.len() ==> cell_of(#[trigger] split(text@.subrange(0, i as int), COMMA)[j])
                    == Some(cells@[j]),
        decreases text@.len() - i,
    {
        let ghost before = split(text@.subrange(0, i as int), COMMA);
        proof {
            lemma_split_step(text@.subrange(0, i as int), text@[i as int], COMMA);
            assert(text@.subrange(0, i as int).push(text@[i as int]) =~= text@.subrange(0, i + 1));
            assert(text@.subrange(start as int, i as int).push(text@[i as int]) =~= text@.subrange(
                start as int,
                i + 1,
            ));
        }
        if text[i] == COMMA {
            match parse_cell(text, start, i) {
                Some(cell) => {
                    cells.push(cell);
                    start = i + 1;
                    proof {
                        assert(text@.subrange(start as int, i + 1) =~= Seq::<u8>::empty());
                        let after = split(text@.subrange(0, i + 1), COMMA);
                        assert forall|j: int| 0 <= j < cells@.len() implies cell_of(
                            #[trigger] after[j],
                        ) == Some(cells@[j]) by {
                            assert(after[j] == before[j]);
                        }
                    }
                },
                None => {
                    proof {
                        lemma_split_prefix(text@, i + 1, COMMA);
                        let all = split(text@, COMMA);
                        let after = split(text@.subrange(0, i + 1), COMMA);
                        assert(after[cells@.len() as int] == before[cells@.len() as int]);
                        assert(all[cells@.len() as int] == before[cells@.len() as int]);
                        assert(cell_of(all[cells@.len() as int]) is None);
                    }
                    return None;
                },
            }
        } else {
            proof {
                let after = split(text@.subrange(0, i + 1), COMMA);
                assert forall|j: int| 0 <= j < cells@.len() implies cell_of(#[trigger] after[j])
                    == Some(cells@[j]) by {
                    assert(after[j] == before[j]);
                }
            }
        }
        i = i + 1;
    }
    assert(text@.subrange(0, i as int) =~= text@);
    let ghost all = split(text@, COMMA);
    match parse_cell(text, start, i) {
        Some(cell) => {
            cells.push(cell);
            assert(forall|j: int| 0 <= j < all.len() ==> cell_of(#[trigger] all[j]) == Some(cells@[j]));
            assert(Seq::new(all.len(), |j: int| cell_of(all[j])->Some_0) =~= cells@);
            Some(cells)
        },
        None => {
            assert(cell_of(all[cells@.len() as int]) is None);
            None
        },
    }
}

} // verus!
