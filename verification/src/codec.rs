//! The table codec: serializes a table to comma-delimited text and parses
//! such text back. Writing quotes every cell that is not purely numeric
//! (doubling any quote inside it) and leaves purely numeric cells bare;
//! records are joined with single commas and terminated by newlines. Reading
//! treats the first record as the header and every further record as a data
//! row; ragged rows and unterminated quotes are format errors, and empty
//! input is the empty table.

use vstd::prelude::*;
use crate::errors::TableFormatError;
use crate::table::{CsvProcessor, CsvTable};

verus! {

pub open spec fn is_digit(c: char) -> bool {
    '0' <= c && c <= '9'
}

pub open spec fn count_char(s: Seq<char>, c: char) -> int
    decreases s.len(),
{
    if s.len() == 0 {
        0
    } else {
        count_char(s.drop_last(), c) + if s.last() == c {
            1int
        } else {
            0int
        }
    }
}

/// An unsigned decimal number: digits with at most one point and at least
/// one digit.
pub open spec fn numeric_body(t: Seq<char>) -> bool {
    &&& t.len() > 0
    &&& forall|i: int| 0 <= i < t.len() ==> is_digit(t[i]) || t[i] == '.'
    &&& count_char(t, '.') <= 1
    &&& count_char(t, '.') < t.len()
}

/// A purely numeric cell: an optionally signed decimal number. Only such
/// cells are written without quotes.
pub open spec fn is_numeric_cell(s: Seq<char>) -> bool {
    if s.len() > 0 && (s[0] == '-' || s[0] == '+') {
        numeric_body(s.drop_first())
    } else {
        numeric_body(s)
    }
}

/// A cell's content with every quote doubled.
pub open spec fn esc(c: Seq<char>) -> Seq<char>
    decreases c.len(),
{
    if c.len() == 0 {
        Seq::empty()
    } else {
        esc(c.drop_last()) + if c.last() == '"' {
            seq!['"', '"']
        } else {
            seq![c.last()]
        }
    }
}

/// One encoded cell: bare when purely numeric, quoted (with doubling)
/// otherwise.
pub open spec fn enc_cell(c: Seq<char>) -> Seq<char> {
    if is_numeric_cell(c) {
        c
    } else {
        seq!['"'] + esc(c) + seq!['"']
    }
}

/// The encoded cells `cells[i..]`, comma-separated and newline-terminated.
pub open spec fn enc_cells_from(cells: Seq<Seq<char>>, i: int) -> Seq<char>
    decreases cells.len() - i,
{
    if i < 0 || i >= cells.len() {
        seq!['\n']
    } else if i == cells.len() - 1 {
        enc_cell(cells[i]) + seq!['\n']
    } else {
        enc_cell(cells[i]) + seq![','] + enc_cells_from(cells, i + 1)
    }
}

/// One encoded record, newline-terminated.
pub open spec fn enc_record(cells: Seq<Seq<char>>) -> Seq<char> {
    enc_cells_from(cells, 0)
}

/// The encoded records `rows[i..]`, concatenated.
pub open spec fn enc_rows_from(rows: Seq<Seq<Seq<char>>>, i: int) -> Seq<char>
    decreases rows.len() - i,
{
    if i < 0 || i >= rows.len() {
        Seq::empty()
    } else {
        enc_record(rows[i]) + enc_rows_from(rows, i + 1)
    }
}

/// The whole serialized table: header record first, then each data row in
/// order. A table with no columns and no rows serializes to nothing.
pub open spec fn write_spec(header: Seq<Seq<char>>, rows: Seq<Seq<Seq<char>>>) -> Seq<char> {
    if header.len() == 0 && rows.len() == 0 {
        Seq::empty()
    } else {
        enc_record(header) + enc_rows_from(rows, 0)
    }
}

/// Scans a quoted cell body from `i` (just past the opening quote),
/// undoubling quotes; `None` marks an unterminated quote.
pub open spec fn parse_quoted(s: Seq<char>, i: int, acc: Seq<char>) -> Option<(Seq<char>, int)>
    decreases s.len() - i,
{
    if i < 0 || i >= s.len() {
        None
    } else if s[i] == '"' {
        if i + 1 < s.len() && s[i + 1] == '"' {
            parse_quoted(s, i + 2, acc.push('"'))
        } else {
            Some((acc, i + 1))
        }
    } else {
        parse_quoted(s, i + 1, acc.push(s[i]))
    }
}

/// Scans a bare cell from `i`: everything up to the next comma, newline or
/// the end; a stray quote inside it is malformed.
pub open spec fn parse_raw(s: Seq<char>, i: int, acc: Seq<char>) -> Option<(Seq<char>, int)>
    decreases s.len() - i,
{
    if i < 0 || i >= s.len() {
        Some((acc, i))
    } else if s[i] == ',' || s[i] == '\n' {
        Some((acc, i))
    } else if s[i] == '"' {
        None
    } else {
        parse_raw(s, i + 1, acc.push(s[i]))
    }
}

/// Scans one cell starting at `i`.
pub open spec fn parse_cell(s: Seq<char>, i: int) -> Option<(Seq<char>, int)> {
    if 0 <= i < s.len() && s[i] == '"' {
        parse_quoted(s, i + 1, Seq::empty())
    } else {
        parse_raw(s, i, Seq::empty())
    }
}

pub proof fn lemma_parse_quoted_bounds(s: Seq<char>, i: int, acc: Seq<char>)
    requires
        0 <= i,
    ensures
        match parse_quoted(s, i, acc) {
            Some((c, j)) => i < j <= s.len(),
            None => true,
        },
    decreases s.len() - i,
{
    if i >= s.len() {
    } else if s[i] == '"' {
        if i + 1 < s.len() && s[i + 1] == '"' {
            lemma_parse_quoted_bounds(s, i + 2, acc.push('"'));
        }
    } else {
        lemma_parse_quoted_bounds(s, i + 1, acc.push(s[i]));
    }
}

pub proof fn lemma_parse_raw_bounds(s: Seq<char>, i: int, acc: Seq<char>)
    requires
        0 <= i,
    ensures
        match parse_raw(s, i, acc) {
            Some((c, j)) => i <= j <= s.len() || (i > s.len() && j == i),
            None => true,
        },
    decreases s.len() - i,
{
    if i >= s.len() {
    } else if s[i] == ',' || s[i] == '\n' {
    } else if s[i] == '"' {
    } else {
        lemma_parse_raw_bounds(s, i + 1, acc.push(s[i]));
    }
}

pub proof fn lemma_parse_cell_bounds(s: Seq<char>, i: int)
    requires
        0 <= i <= s.len(),
    ensures
        match parse_cell(s, i) {
            Some((c, j)) => i <= j <= s.len(),
            None => true,
        },
{
    if i < s.len() && s[i] == '"' {
        lemma_parse_quoted_bounds(s, i + 1, Seq::empty());
    } else {
        lemma_parse_raw_bounds(s, i, Seq::empty());
    }
}

/// Scans one record starting at `i`: cells separated by commas, ended by a
/// newline or the end of input.
pub open spec fn parse_record(s: Seq<char>, i: int, acc: Seq<Seq<char>>) -> Option<
    (Seq<Seq<char>>, int),
>
    decreases s.len() - i,
    when 0 <= i <= s.len()
    via parse_record_decreases
{
    match parse_cell(s, i) {
        None => None,
        Some((c, j)) => {
            if j >= s.len() {
                Some((acc.push(c), j))
            } else if s[j] == '\n' {
                Some((acc.push(c), j + 1))
            } else if s[j] == ',' {
                parse_record(s, j + 1, acc.push(c))
            } else {
                None
            }
        },
    }
}

#[via_fn]
proof fn parse_record_decreases(s: Seq<char>, i: int, acc: Seq<Seq<char>>) {
    lemma_parse_cell_bounds(s, i);
}

pub proof fn lemma_parse_record_bounds(s: Seq<char>, i: int, acc: Seq<Seq<char>>)
    requires
        0 <= i <= s.len(),
    ensures
        match parse_record(s, i, acc) {
            Some((r, j)) => i <= j <= s.len() && (i < s.len() ==> i < j),
            None => true,
        },
    decreases s.len() - i,
{
    lemma_parse_cell_bounds(s, i);
    match parse_cell(s, i) {
        None => {},
        Some((c, j)) => {
            if j >= s.len() {
            } else if s[j] == '\n' {
            } else if s[j] == ',' {
                lemma_parse_record_bounds(s, j + 1, acc.push(c));
            }
        },
    }
}

/// Scans all records of the input.
pub open spec fn parse_rows(s: Seq<char>, i: int, acc: Seq<Seq<Seq<char>>>) -> Option<
    Seq<Seq<Seq<char>>>,
>
    decreases s.len() - i,
    when 0 <= i <= s.len()
    via parse_rows_decreases
{
    if i >= s.len() {
        Some(acc)
    } else {
        match parse_record(s, i, Seq::empty()) {
            None => None,
            Some((r, j)) => parse_rows(s, j, acc.push(r)),
        }
    }
}

#[via_fn]
proof fn parse_rows_decreases(s: Seq<char>, i: int, acc: Seq<Seq<Seq<char>>>) {
    lemma_parse_record_bounds(s, i, Seq::empty());
}

/// What reading yields: empty input is the empty table; otherwise the first
/// record is the header and the rest are the data rows, which must all be as
/// long as the header.
pub open spec fn read_spec(s: Seq<char>) -> Result<
    (Seq<Seq<char>>, Seq<Seq<Seq<char>>>),
    TableFormatError,
> {
    if s.len() == 0 {
        Ok((Seq::empty(), Seq::empty()))
    } else {
        match parse_rows(s, 0, Seq::empty()) {
            None => Err(TableFormatError),
            Some(records) => if records.len() == 0 {
                Ok((Seq::empty(), Seq::empty()))
            } else if forall|i: int|
                1 <= i < records.len() ==> #[trigger] records[i].len() == records[0].len() {
                Ok((records[0], records.drop_first()))
            } else {
                Err(TableFormatError)
            },
        }
    }
}

/// A cell free of the delimiter edge cases: no quote and no newline.
pub open spec fn clean_cell(c: Seq<char>) -> bool {
    !c.contains('"') && !c.contains('\n')
}

pub open spec fn clean_cells(cells: Seq<Seq<char>>) -> bool {
    forall|i: int| 0 <= i < cells.len() ==> clean_cell(#[trigger] cells[i])
}

/// Escaping changes nothing in a cell without quotes.
pub proof fn lemma_esc_clean(c: Seq<char>)
    requires
        !c.contains('"'),
    ensures
        esc(c) == c,
    decreases c.len(),
{
    if c.len() == 0 {
        assert(esc(c) =~= c);
    } else {
        assert(c.last() != '"') by {
            if c.last() == '"' {
                assert(c.contains('"'));
            }
        }
        assert(!c.drop_last().contains('"')) by {
            if c.drop_last().contains('"') {
                let k = choose|k: int| 0 <= k < c.drop_last().len() && c.drop_last()[k] == '"';
                assert(c[k] == '"');
                assert(c.contains('"'));
            }
        }
        lemma_esc_clean(c.drop_last());
        assert(esc(c) =~= c);
    }
}

/// A purely numeric cell is nonempty, does not open with a quote, and holds
/// no comma, quote or newline.
pub proof fn lemma_numeric_chars(c: Seq<char>)
    requires
        is_numeric_cell(c),
    ensures
        c.len() > 0,
        c[0] != '"',
        forall|k: int| 0 <= k < c.len() ==> c[k] != ',' && c[k] != '\n' && c[k] != '"',
{
    let t = if c.len() > 0 && (c[0] == '-' || c[0] == '+') {
        c.drop_first()
    } else {
        c
    };
    assert forall|k: int| 0 <= k < c.len() implies c[k] != ',' && c[k] != '\n' && c[k] != '"' by {
        if c[0] == '-' || c[0] == '+' {
            if k > 0 {
                assert(t[k - 1] == c[k]);
                assert(is_digit(t[k - 1]) || t[k - 1] == '.');
            }
        } else {
            assert(t[k] == c[k]);
            assert(is_digit(t[k]) || t[k] == '.');
        }
    }
}

/// Parsing a bare cell reads back exactly the encoded content.
pub proof fn lemma_parse_raw_rt(s: Seq<char>, j: int, c: Seq<char>, acc: Seq<char>)
    requires
        0 <= j,
        j + c.len() <= s.len(),
        s.subrange(j, j + c.len() as int) == c,
        forall|k: int| 0 <= k < c.len() ==> c[k] != ',' && c[k] != '\n' && c[k] != '"',
        j + c.len() == s.len() || s[j + c.len()] == ',' || s[j + c.len()] == '\n',
    ensures
        parse_raw(s, j, acc) == Some((acc + c, j + c.len() as int)),
    decreases c.len(),
{
    if c.len() == 0 {
        assert(acc + c =~= acc);
    } else {
        assert(c[0] == s.subrange(j, j + c.len() as int)[0]);
        assert(s[j] == c[0]);
        assert(s.subrange(j + 1, j + c.len() as int) =~= c.drop_first()) by {
            assert forall|k: int|
                0 <= k < c.len() - 1 implies s.subrange(j + 1, j + c.len() as int)[k] == c.drop_first()[k] by {
                assert(s.subrange(j, j + c.len() as int)[k + 1] == s[j + k + 1]);
            }
        }
        lemma_parse_raw_rt(s, j + 1, c.drop_first(), acc.push(c[0]));
        assert(acc.push(c[0]) + c.drop_first() =~= acc + c);
    }
}

/// Parsing a quoted cell body reads back exactly the quote-free content.
pub proof fn lemma_parse_quoted_rt(s: Seq<char>, j: int, c: Seq<char>, acc: Seq<char>)
    requires
        0 <= j,
        j + c.len() + 1 <= s.len(),
        s.subrange(j, j + c.len() as int) == c,
        forall|k: int| 0 <= k < c.len() ==> c[k] != '"',
        s[j + c.len()] == '"',
        j + c.len() + 1 == s.len() || s[j + c.len() + 1] != '"',
    ensures
        parse_quoted(s, j, acc) == Some((acc + c, j + c.len() + 1)),
    decreases c.len(),
{
    if c.len() == 0 {
        assert(acc + c =~= acc);
    } else {
        assert(c[0] == s.subrange(j, j + c.len() as int)[0]);
        assert(s[j] == c[0]);
        assert(s.subrange(j + 1, j + c.len() as int) =~= c.drop_first()) by {
            assert forall|k: int|
                0 <= k < c.len() - 1 implies s.subrange(j + 1, j + c.len() as int)[k] == c.drop_first()[k] by {
                assert(s.subrange(j, j + c.len() as int)[k + 1] == s[j + k + 1]);
            }
        }
        lemma_parse_quoted_rt(s, j + 1, c.drop_first(), acc.push(c[0]));
        assert(acc.push(c[0]) + c.drop_first() =~= acc + c);
    }
}

/// Parsing one encoded cell reads back exactly the cell.
pub proof fn lemma_parse_cell_rt(s: Seq<char>, j: int, c: Seq<char>)
    requires
        0 <= j,
        j + enc_cell(c).len() <= s.len(),
        s.subrange(j, j + enc_cell(c).len() as int) == enc_cell(c),
        clean_cell(c),
        j + enc_cell(c).len() == s.len() || s[j + enc_cell(c).len()] == ',' || s[j
            + enc_cell(c).len()] == '\n',
    ensures
        parse_cell(s, j) == Some((c, j + enc_cell(c).len() as int)),
{
    let e = enc_cell(c);
    assert forall|k: int| 0 <= k < e.len() implies s[j + k] == e[k] by {
        assert(s.subrange(j, j + e.len() as int)[k] == s[j + k]);
    }
    if is_numeric_cell(c) {
        lemma_numeric_chars(c);
        assert(s[j] == c[0]);
        lemma_parse_raw_rt(s, j, c, Seq::empty());
        assert(Seq::empty() + c =~= c);
    } else {
        assert(!c.contains('"'));
        lemma_esc_clean(c);
        assert(e =~= seq!['"'] + c + seq!['"']);
        assert(e.len() == c.len() + 2);
        assert(e[0] == '"');
        assert(s[j] == '"');
        assert(s.subrange(j + 1, j + 1 + c.len() as int) =~= c) by {
            assert forall|k: int|
                0 <= k < c.len() implies s.subrange(j + 1, j + 1 + c.len() as int)[k] == c[k] by {
                assert(s[j + 1 + k] == e[k + 1]);
            }
        }
        assert(s[j + 1 + c.len()] == e[c.len() + 1int]);
        assert(s[j + 1 + c.len()] == '"');
        assert forall|k: int| 0 <= k < c.len() implies c[k] != '"' by {
            if c[k] == '"' {
                assert(c.contains('"'));
            }
        }
        lemma_parse_quoted_rt(s, j + 1, c, Seq::empty());
        assert(Seq::empty() + c =~= c);
    }
}

pub proof fn lemma_enc_cells_from_len(cells: Seq<Seq<char>>, i: int)
    ensures
        enc_cells_from(cells, i).len() >= 1,
        enc_cells_from(cells, i).last() == '\n',
    decreases cells.len() - i,
{
    if i < 0 || i >= cells.len() {
    } else if i == cells.len() - 1 {
    } else {
        lemma_enc_cells_from_len(cells, i + 1);
    }
}

/// Parsing one encoded record reads back exactly its remaining cells.
pub proof fn lemma_parse_record_rt(s: Seq<char>, j: int, cells: Seq<Seq<char>>, acc: Seq<Seq<char>>, i: int)
    requires
        0 <= i < cells.len(),
        0 <= j,
        j + enc_cells_from(cells, i).len() <= s.len(),
        s.subrange(j, j + enc_cells_from(cells, i).len() as int) == enc_cells_from(cells, i),
        clean_cells(cells),
    ensures
        parse_record(s, j, acc) == Some(
            (acc + cells.subrange(i, cells.len() as int), j + enc_cells_from(cells, i).len() as int),
        ),
    decreases cells.len() - i,
{
    let e = enc_cells_from(cells, i);
    let ec = enc_cell(cells[i]);
    assert forall|k: int| 0 <= k < e.len() implies s[j + k] == e[k] by {
        assert(s.subrange(j, j + e.len() as int)[k] == s[j + k]);
    }
    if i == cells.len() - 1 {
        assert(e =~= ec + seq!['\n']);
        assert(s.subrange(j, j + ec.len() as int) =~= ec) by {
            assert forall|k: int|
                0 <= k < ec.len() implies s.subrange(j, j + ec.len() as int)[k] == ec[k] by {
                assert(s[j + k] == e[k]);
            }
        }
        assert(s[j + ec.len()] == e[ec.len() as int]);
        assert(s[j + ec.len()] == '\n');
        lemma_parse_cell_rt(s, j, cells[i]);
        assert(acc.push(cells[i]) =~= acc + cells.subrange(i, cells.len() as int));
        assert(parse_record(s, j, acc) == Some(
            (acc.push(cells[i]), j + ec.len() + 1),
        ));
    } else {
        assert(e =~= ec + seq![','] + enc_cells_from(cells, i + 1));
        assert(s.subrange(j, j + ec.len() as int) =~= ec) by {
            assert forall|k: int|
                0 <= k < ec.len() implies s.subrange(j, j + ec.len() as int)[k] == ec[k] by {
                assert(s[j + k] == e[k]);
            }
        }
        assert(s[j + ec.len()] == e[ec.len() as int]);
        assert(s[j + ec.len()] == ',');
        lemma_parse_cell_rt(s, j, cells[i]);
        let j2 = j + ec.len() + 1;
        let e2 = enc_cells_from(cells, i + 1);
        assert(s.subrange(j2, j2 + e2.len() as int) =~= e2) by {
            assert forall|k: int|
                0 <= k < e2.len() implies s.subrange(j2, j2 + e2.len() as int)[k] == e2[k] by {
                assert(s[j2 + k] == e[ec.len() + 1int + k]);
            }
        }
        lemma_parse_record_rt(s, j2, cells, acc.push(cells[i]), i + 1);
        assert(acc.push(cells[i]) + cells.subrange(i + 1, cells.len() as int) =~= acc
            + cells.subrange(i, cells.len() as int));
    }
}

pub proof fn lemma_enc_rows_shift(h: Seq<Seq<char>>, rows: Seq<Seq<Seq<char>>>, m: int)
    requires
        0 <= m,
    ensures
        enc_rows_from(seq![h] + rows, m + 1) == enc_rows_from(rows, m),
    decreases rows.len() - m,
{
    let all = seq![h] + rows;
    if m >= rows.len() {
    } else {
        assert(all[m + 1] == rows[m]);
        lemma_enc_rows_shift(h, rows, m + 1);
    }
}

/// Parsing all encoded records reads back exactly the remaining rows.
pub proof fn lemma_parse_rows_rt(s: Seq<char>, j: int, rows: Seq<Seq<Seq<char>>>, acc: Seq<Seq<Seq<char>>>, i: int)
    requires
        0 <= i <= rows.len(),
        0 <= j,
        j + enc_rows_from(rows, i).len() == s.len(),
        s.subrange(j, s.len() as int) == enc_rows_from(rows, i),
        forall|k: int| i <= k < rows.len() ==> (#[trigger] rows[k]).len() > 0 && clean_cells(rows[k]),
    ensures
        parse_rows(s, j, acc) == Some(acc + rows.subrange(i, rows.len() as int)),
    decreases rows.len() - i,
{
    if i == rows.len() {
        assert(j == s.len());
        assert(acc + rows.subrange(i, rows.len() as int) =~= acc);
    } else {
        let e = enc_rows_from(rows, i);
        let er = enc_record(rows[i]);
        lemma_enc_cells_from_len(rows[i], 0);
        assert(e =~= er + enc_rows_from(rows, i + 1));
        assert forall|k: int| 0 <= k < e.len() implies s[j + k] == e[k] by {
            assert(s.subrange(j, s.len() as int)[j + k - j] == s[j + k]);
        }
        assert(j < s.len());
        assert(s.subrange(j, j + er.len() as int) =~= er) by {
            assert forall|k: int|
                0 <= k < er.len() implies s.subrange(j, j + er.len() as int)[k] == er[k] by {
                assert(s[j + k] == e[k]);
            }
        }
        lemma_parse_record_rt(s, j, rows[i], Seq::empty(), 0);
        assert(Seq::empty() + rows[i].subrange(0, rows[i].len() as int) =~= rows[i]);
        let j2 = j + er.len();
        let e2 = enc_rows_from(rows, i + 1);
        assert(s.subrange(j2, s.len() as int) =~= e2) by {
            assert forall|k: int|
                0 <= k < e2.len() implies s.subrange(j2, s.len() as int)[k] == e2[k] by {
                assert(s[j2 + k] == e[er.len() + k]);
            }
        }
        lemma_parse_rows_rt(s, j2, rows, acc.push(rows[i]), i + 1);
        assert(acc.push(rows[i]) + rows.subrange(i + 1, rows.len() as int) =~= acc + rows.subrange(
            i,
            rows.len() as int,
        ));
    }
}

/// Round trip: reading a written table yields the table unchanged, for any
/// table whose cells hold no quote and no newline, whose rows are all as
/// long as the header, and whose header is nonempty unless the whole table
/// is empty.
pub proof fn lemma_read_write_round_trip(header: Seq<Seq<char>>, rows: Seq<Seq<Seq<char>>>)
    requires
        header.len() > 0 || rows.len() == 0,
        clean_cells(header),
        forall|i: int| 0 <= i < rows.len() ==> (#[trigger] rows[i]).len() == header.len(),
        forall|i: int| 0 <= i < rows.len() ==> clean_cells(#[trigger] rows[i]),
    ensures
        read_spec(write_spec(header, rows)) == Ok::<(Seq<Seq<char>>, Seq<Seq<Seq<char>>>), TableFormatError>((header, rows)),
{
    if header.len() == 0 && rows.len() == 0 {
        assert(header =~= Seq::<Seq<char>>::empty());
        assert(rows =~= Seq::<Seq<Seq<char>>>::empty());
    } else {
        let s = write_spec(header, rows);
        let all = seq![header] + rows;
        lemma_enc_rows_shift(header, rows, 0);
        assert(all[0] == header);
        assert(enc_rows_from(all, 0) == enc_record(header) + enc_rows_from(rows, 0));
        assert(s == enc_rows_from(all, 0));
        assert(s.subrange(0, s.len() as int) =~= s);
        assert forall|k: int| 0 <= k < all.len() implies (#[trigger] all[k]).len() > 0 && clean_cells(
            all[k],
        ) by {
            if k > 0 {
                assert(all[k] == rows[k - 1]);
            }
        }
        lemma_parse_rows_rt(s, 0, all, Seq::empty(), 0);
        assert(Seq::empty() + all.subrange(0, all.len() as int) =~= all);
        lemma_enc_cells_from_len(header, 0);
        assert(s.len() > 0);
        assert(all.len() >= 1);
        assert forall|k: int| 1 <= k < all.len() implies (#[trigger] all[k]).len() == all[0].len() by {
            assert(all[k] == rows[k - 1]);
        }
        assert(all.drop_first() =~= rows);
        assert(read_spec(s) == Ok::<(Seq<Seq<char>>, Seq<Seq<Seq<char>>>), TableFormatError>(
            (header, rows),
        ));
    }
}

/// Decides whether a cell is purely numeric.
fn is_numeric_exec(cell: &str) -> (r: bool)
    ensures
        r == is_numeric_cell(cell@),
{
    let len = cell.unicode_len();
    if len == 0 {
        return false;
    }
    let first = cell.get_char(0);
    let start: usize = if first == '-' || first == '+' {
        1
    } else {
        0
    };
    let ghost t = if start == 1 {
        cell@.drop_first()
    } else {
        cell@
    };
    proof {
        assert(t.len() == len - start);
        assert(forall|k: int| 0 <= k < t.len() ==> t[k] == cell@[k + start]);
    }
    if start == 1 && len == 1 {
        return false;
    }
    proof {
        assert(is_numeric_cell(cell@) == numeric_body(t));
    }
    let mut dots: usize = 0;
    let mut j: usize = start;
    while j < len
        invariant
            len == cell@.len(),
            start <= 1,
            start <= j <= len,
            t.len() == len - start,
            is_numeric_cell(cell@) == numeric_body(t),
            forall|k: int| 0 <= k < t.len() ==> t[k] == cell@[k + start],
            forall|k: int| 0 <= k < j - start ==> is_digit(t[k]) || t[k] == '.',
            dots == count_char(t.take(j - start), '.'),
            dots <= j,
        decreases len - j,
    {
        let c = cell.get_char(j);
        proof {
            assert(t[j - start] == cell@[j as int]);
            assert(t.take(j - start + 1).drop_last() =~= t.take(j - start));
            assert(t.take(j - start + 1).last() == t[j - start]);
        }
        if c == '.' {
            dots = dots + 1;
        } else if c < '0' || c > '9' {
            proof {
                assert(!(is_digit(t[j - start]) || t[j - start] == '.'));
            }
            return false;
        }
        j = j + 1;
    }
    proof {
        assert(t.take(len - start) =~= t);
    }
    dots <= 1 && dots < len - start
}

/// Encodes one cell.
fn enc_cell_exec(cell: &String) -> (r: String)
    ensures
        r@ == enc_cell(cell@),
{
    if is_numeric_exec(cell.as_str()) {
        return cell.clone();
    }
    let mut out = String::from_str("\"");
    proof {
        reveal_strlit("\"");
        assert(out@ =~= seq!['"'] + esc(cell@.take(0)));
    }
    let len = cell.as_str().unicode_len();
    let mut j: usize = 0;
    while j < len
        invariant
            len == cell@.len(),
            j <= len,
            out@ == seq!['"'] + esc(cell@.take(j as int)),
        decreases len - j,
    {
        let c = cell.as_str().get_char(j);
        proof {
            assert(cell@.take(j as int + 1).drop_last() =~= cell@.take(j as int));
            assert(cell@.take(j as int + 1).last() == cell@[j as int]);
        }
        if c == '"' {
            out.append("\"\"");
            proof {
                reveal_strlit("\"\"");
                assert("\"\""@ =~= seq!['"', '"']);
                assert(out@ =~= seq!['"'] + esc(cell@.take(j as int + 1)));
            }
        } else {
            let piece = cell.as_str().substring_char(j, j + 1);
            out.append(piece);
            proof {
                assert(piece@ =~= seq![cell@[j as int]]);
                assert(out@ =~= seq!['"'] + esc(cell@.take(j as int + 1)));
            }
        }
        j = j + 1;
    }
    proof {
        assert(cell@.take(len as int) =~= cell@);
    }
    out.append("\"");
    proof {
        reveal_strlit("\"");
        assert("\""@ =~= seq!['"']);
        assert(out@ =~= seq!['"'] + esc(cell@) + seq!['"']);
    }
    out
}

/// Encodes one record.
fn enc_record_exec(cells: &Vec<String>) -> (r: String)
    ensures
        r@ == enc_record(cells.deep_view()),
{
    let ghost dv = cells.deep_view();
    let mut out = String::new();
    let n = cells.len();
    let mut j: usize = 0;
    while j < n
        invariant
            n == cells@.len(),
            dv == cells.deep_view(),
            dv.len() == n,
            j <= n,
            out@ + enc_cells_from(dv, j as int) == enc_cells_from(dv, 0),
        decreases n - j,
    {
        proof {
            assert(dv[j as int] == cells@[j as int]@);
        }
        let piece = enc_cell_exec(&cells[j]);
        proof {
            if j + 1 < n {
                assert((out@ + piece@ + ","@) + enc_cells_from(dv, j as int + 1) == out@
                    + enc_cells_from(dv, j as int)) by {
                    reveal_strlit(",");
                    assert(","@ =~= seq![',']);
                    assert((out@ + piece@ + ","@) + enc_cells_from(dv, j as int + 1) =~= out@ + (
                    enc_cell(dv[j as int]) + seq![','] + enc_cells_from(dv, j as int + 1)));
                }
            } else {
                assert((out@ + piece@) + seq!['\n'] == out@ + enc_cells_from(dv, j as int)) by {
                    assert((out@ + piece@) + seq!['\n'] =~= out@ + (enc_cell(dv[j as int]) + seq![
                        '\n',
                    ]));
                }
            }
        }
        out.append(piece.as_str());
        if j + 1 < n {
            out.append(",");
        }
        j = j + 1;
    }
    out.append("\n");
    proof {
        reveal_strlit("\n");
        assert("\n"@ =~= seq!['\n']);
        if n == 0 {
            assert(enc_cells_from(dv, 0) =~= seq!['\n']);
            assert(out@ =~= enc_cells_from(dv, 0));
        } else {
            assert(enc_cells_from(dv, n as int) =~= seq!['\n']);
            assert(out@ =~= enc_cells_from(dv, 0));
        }
    }
    out
}

impl CsvProcessor {
    /// Serializes a table: the header record first, then each data row in
    /// the order supplied; purely numeric cells bare, all others quoted.
    pub fn write(header: &Vec<String>, body: &Vec<Vec<String>>) -> (r: String)
        ensures
            r@ == write_spec(header.deep_view(), body.deep_view()),
    {
        if header.len() == 0 && body.len() == 0 {
            return String::new();
        }
        let ghost bv = body.deep_view();
        let mut out = enc_record_exec(header);
        let n = body.len();
        let mut i: usize = 0;
        while i < n
            invariant
                n == body@.len(),
                bv == body.deep_view(),
                bv.len() == n,
                i <= n,
                out@ + enc_rows_from(bv, i as int) == enc_record(header.deep_view())
                    + enc_rows_from(bv, 0),
            decreases n - i,
        {
            proof {
                assert(bv[i as int] == body@[i as int].deep_view());
            }
            let piece = enc_record_exec(&body[i]);
            proof {
                assert((out@ + piece@) + enc_rows_from(bv, i as int + 1) =~= out@ + (enc_record(
                    bv[i as int],
                ) + enc_rows_from(bv, i as int + 1)));
            }
            out.append(piece.as_str());
            i = i + 1;
        }
        proof {
            assert(enc_rows_from(bv, n as int) =~= Seq::<char>::empty());
            assert(out@ + Seq::<char>::empty() =~= out@);
        }
        out
    }

    /// Parses serialized table text: the first record is the header, every
    /// further record a data row. Fails on a ragged row or an unterminated
    /// quote; empty input yields the empty table.
    pub fn read(text: &str) -> (r: Result<CsvTable, TableFormatError>)
        ensures
            match r {
                Ok(t) => read_spec(text@) == Ok::<(Seq<Seq<char>>, Seq<Seq<Seq<char>>>), TableFormatError>((t@.0, t@.1)),
                Err(e) => read_spec(text@) is Err,
            },
    {
        let len = text.unicode_len();
        if len == 0 {
            let t = CsvTable { header: Vec::new(), rows: Vec::new() };
            proof {
                assert(t@.0 =~= Seq::<Seq<char>>::empty());
                assert(t@.1 =~= Seq::<Seq<Seq<char>>>::empty());
            }
            return Ok(t);
        }
        let mut records: Vec<Vec<String>> = Vec::new();
        proof {
            assert(records.deep_view() =~= Seq::<Seq<Seq<char>>>::empty());
        }
        let mut pos: usize = 0;
        while pos < len
            invariant
                len == text@.len(),
                pos <= len,
                parse_rows(text@, 0, Seq::empty()) == parse_rows(
                    text@,
                    pos as int,
                    records.deep_view(),
                ),
            decreases len - pos,
        {
            proof {
                lemma_parse_record_bounds(text@, pos as int, Seq::empty());
            }
            match parse_record_exec(text, pos) {
                None => {
                    return Err(TableFormatError);
                },
                Some((rec, j)) => {
                    let ghost prevrecs = records.deep_view();
                    let ghost recv = rec.deep_view();
                    records.push(rec);
                    proof {
                        assert(records.deep_view() =~= prevrecs.push(recv));
                    }
                    pos = j;
                },
            }
        }
        let ghost all = parse_rows(text@, 0, Seq::empty());
        proof {
            assert(all == Some(records.deep_view()));
        }
        if records.len() == 0 {
            let t = CsvTable { header: Vec::new(), rows: Vec::new() };
            proof {
                assert(t@.0 =~= Seq::<Seq<char>>::empty());
                assert(t@.1 =~= Seq::<Seq<Seq<char>>>::empty());
            }
            return Ok(t);
        }
        let width = records[0].len();
        let nr = records.len();
        let mut i: usize = 1;
        while i < nr
            invariant
                nr == records@.len(),
                nr >= 1,
                1 <= i <= nr,
                len == text@.len(),
                len > 0,
                parse_rows(text@, 0, Seq::empty()) == Some(records.deep_view()),
                width == records.deep_view()[0].len(),
                forall|k: int|
                    1 <= k < i ==> #[trigger] records.deep_view()[k].len()
                        == records.deep_view()[0].len(),
            decreases nr - i,
        {
            proof {
                assert(records.deep_view()[i as int] == records@[i as int].deep_view());
                assert(records@[i as int].deep_view().len() == records@[i as int]@.len());
            }
            if records[i].len() != width {
                proof {
                    assert(records.deep_view()[i as int].len() != records.deep_view()[0].len());
                }
                return Err(TableFormatError);
            }
            proof {
                assert(records.deep_view()[i as int].len() == records.deep_view()[0].len());
            }
            i = i + 1;
        }
        let ghost rdv = records.deep_view();
        let mut rest = records;
        let header = rest.remove(0);
        let t = CsvTable { header, rows: rest };
        proof {
            assert(t@.0 == rdv[0]);
            assert(t@.1 =~= rdv.drop_first());
        }
        Ok(t)
    }
}

/// Scans one record of the input, starting at `pos`.
fn parse_record_exec(text: &str, pos: usize) -> (r: Option<(Vec<String>, usize)>)
    requires
        pos as int <= text@.len(),
    ensures
        match r {
            Some((rec, j)) => parse_record(text@, pos as int, Seq::empty()) == Some(
                (rec.deep_view(), j as int),
            ) && pos <= j <= text@.len(),
            None => parse_record(text@, pos as int, Seq::empty()) is None,
        },
{
    let len = text.unicode_len();
    let mut cells: Vec<String> = Vec::new();
    proof {
        assert(cells.deep_view() =~= Seq::<Seq<char>>::empty());
    }
    let mut cur = pos;
    loop
        invariant
            len == text@.len(),
            pos <= cur <= len,
            parse_record(text@, pos as int, Seq::empty()) == parse_record(
                text@,
                cur as int,
                cells.deep_view(),
            ),
        decreases len - cur,
    {
        proof {
            lemma_parse_cell_bounds(text@, cur as int);
        }
        match parse_cell_exec(text, cur) {
            None => {
                return None;
            },
            Some((c, j)) => {
                let ghost prevcells = cells.deep_view();
                let ghost cv = c@;
                cells.push(c);
                proof {
                    assert(cells.deep_view() =~= prevcells.push(cv));
                }
                if j >= len {
                    return Some((cells, j));
                }
                let ch = text.get_char(j);
                if ch == '\n' {
                    return Some((cells, j + 1));
                }
                if ch != ',' {
                    return None;
                }
                cur = j + 1;
            },
        }
    }
}

/// Scans one cell of the input, starting at `i`.
fn parse_cell_exec(text: &str, i: usize) -> (r: Option<(String, usize)>)
    requires
        i as int <= text@.len(),
    ensures
        match r {
            Some((c, j)) => parse_cell(text@, i as int) == Some((c@, j as int)) && i <= j
                <= text@.len(),
            None => parse_cell(text@, i as int) is None,
        },
{
    let len = text.unicode_len();
    if i < len && text.get_char(i) == '"' {
        let mut out = String::new();
        let mut j = i + 1;
        loop
            invariant
                len == text@.len(),
                i + 1 <= j,
                j <= len + 1,
                i < len && text@[i as int] == '"',
                parse_cell(text@, i as int) == parse_quoted(text@, j as int, out@),
            decreases len - j,
        {
            if j >= len {
                return None;
            }
            let ch = text.get_char(j);
            if ch == '"' {
                if j + 1 < len && text.get_char(j + 1) == '"' {
                    let ghost prevout = out@;
                    out.append("\"");
                    proof {
                        reveal_strlit("\"");
                        assert("\""@ =~= seq!['"']);
                        assert(out@ =~= prevout.push('"'));
                    }
                    j = j + 2;
                } else {
                    return Some((out, j + 1));
                }
            } else {
                let piece = text.substring_char(j, j + 1);
                let ghost prevout = out@;
                out.append(piece);
                proof {
                    assert(piece@ =~= seq![text@[j as int]]);
                    assert(out@ =~= prevout.push(text@[j as int]));
                }
                j = j + 1;
            }
        }
    } else {
        let mut out = String::new();
        let mut j = i;
        loop
            invariant
                len == text@.len(),
                i <= j <= len,
                !(i < len && text@[i as int] == '"'),
                parse_cell(text@, i as int) == parse_raw(text@, j as int, out@),
            decreases len - j,
        {
            if j >= len {
                return Some((out, j));
            }
            let ch = text.get_char(j);
            if ch == ',' || ch == '\n' {
                return Some((out, j));
            }
            if ch == '"' {
                return None;
            }
            let piece = text.substring_char(j, j + 1);
            let ghost prevout = out@;
            out.append(piece);
            proof {
                assert(piece@ =~= seq![text@[j as int]]);
                assert(out@ =~= prevout.push(text@[j as int]));
            }
            j = j + 1;
        }
    }
}

} // verus!
