//! Rows of delimited text as a rectangular matrix of byte values, and back.
use vstd::prelude::*;
use vstd::utf8::{
    char_u32_cast, decode_utf8, encode_scalar, encode_utf8, encode_utf8_decode_utf8,
    encode_utf8_valid_utf8, valid_utf8,
};
use crate::error::LatticeError;
use crate::text::{chars_of, string_of};

verus! {

/// The byte written between two adjacent fields of a row (`,`).
pub const DELIMITER: u8 = 44;

/// The byte that fills a row on the right up to the table's width (`|`).
pub const PAD_BYTE: u8 = 124;

/// The bytes of one row: its fields, with one delimiter between adjacent fields.
pub open spec fn joined_row(fields: Seq<Seq<u8>>) -> Seq<u8>
    decreases fields.len(),
{
    if fields.len() == 0 {
        Seq::empty()
    } else if fields.len() == 1 {
        fields[0]
    } else {
        joined_row(fields.drop_last()) + seq![DELIMITER] + fields.last()
    }
}

/// The length of the longest joined row of a table, 0 for no rows.
pub open spec fn max_row_len(rows: Seq<Seq<Seq<u8>>>) -> nat
    decreases rows.len(),
{
    if rows.len() == 0 {
        0
    } else {
        let m = max_row_len(rows.drop_last());
        let l = joined_row(rows.last()).len();
        if l > m {
            l
        } else {
            m
        }
    }
}

/// `row` filled on the right with pad bytes up to length `width`.
pub open spec fn padded(row: Seq<u8>, width: nat) -> Seq<u8> {
    if row.len() < width {
        row + Seq::new((width - row.len()) as nat, |_i: int| PAD_BYTE)
    } else {
        row
    }
}

/// A byte row as matrix cells.
pub open spec fn cells_of(bytes: Seq<u8>) -> Seq<u64> {
    bytes.map_values(|b: u8| b as u64)
}

/// Each row joined and padded to `width`, as matrix cells.
pub open spec fn padded_matrix(rows: Seq<Seq<Seq<u8>>>, width: nat) -> Seq<Seq<u64>> {
    Seq::new(rows.len(), |i: int| cells_of(padded(joined_row(rows[i]), width)))
}

/// The plaintext matrix of a table: every row padded to the longest row.
pub open spec fn encoded(rows: Seq<Seq<Seq<u8>>>) -> Seq<Seq<u64>> {
    padded_matrix(rows, max_row_len(rows))
}

proof fn lemma_max_row_len_bound(rows: Seq<Seq<Seq<u8>>>)
    ensures
        forall|i: int| 0 <= i < rows.len() ==> joined_row(#[trigger] rows[i]).len() <= max_row_len(rows),
    decreases rows.len(),
{
    if rows.len() > 0 {
        lemma_max_row_len_bound(rows.drop_last());
        assert forall|i: int| 0 <= i < rows.len() implies joined_row(#[trigger] rows[i]).len()
            <= max_row_len(rows) by {
            if i < rows.len() - 1 {
                assert(rows[i] == rows.drop_last()[i]);
            }
        }
    }
}

/// The bytes of one row of fields, with a delimiter between adjacent fields.
pub fn row_bytes(fields: &Vec<Vec<u8>>) -> (r: Vec<u8>)
    ensures
        r@ == joined_row(fields.deep_view()),
{
    let ghost fs = fields.deep_view();
    let mut r: Vec<u8> = Vec::new();
    let mut i: usize = 0;
    while i < fields.len()
        invariant
            0 <= i <= fields.len(),
            fs == fields.deep_view(),
            r@ == joined_row(fs.take(i as int)),
        decreases fields.len() - i,
    {
        let ghost before = r@;
        if i > 0 {
            r.push(DELIMITER);
        }
        let field = &fields[i];
        assert(field@ == fs[i as int]);
        let mut j: usize = 0;
        while j < field.len()
            invariant
                0 <= j <= field.len(),
                field@ == fs[i as int],
                r@ == (if i > 0 { before + seq![DELIMITER] } else { before }) + field@.take(j as int),
            decreases field.len() - j,
        {
            r.push(field[j]);
            assert(field@.take(j + 1) == field@.take(j as int).push(field@[j as int]));
            j += 1;
        }
        assert(field@.take(j as int) == field@);
        assert(fs.take(i + 1).drop_last() == fs.take(i as int));
        if i == 0 {
            assert(before == Seq::<u8>::empty());
            assert(r@ == fs.take(1)[0]);
        }
        i += 1;
    }
    assert(fs.take(i as int) == fs);
    r
}

/// The length of the longest row of a table once its fields are joined.
pub fn find_max_row_length(rows: &Vec<Vec<Vec<u8>>>) -> (r: usize)
    ensures
        r == max_row_len(rows.deep_view()),
{
    let ghost rs = rows.deep_view();
    let mut m: usize = 0;
    let mut i: usize = 0;
    while i < rows.len()
        invariant
            0 <= i <= rows.len(),
            rs == rows.deep_view(),
            m == max_row_len(rs.take(i as int)),
        decreases rows.len() - i,
    {
        let bytes = row_bytes(&rows[i]);
        assert(rs.take(i + 1).drop_last() == rs.take(i as int));
        if bytes.len() > m {
            m = bytes.len();
        }
        i += 1;
    }
    assert(rs.take(i as int) == rs);
    m
}

/// One row of fields as matrix cells, padded with pad bytes up to `max_length`.
pub fn utf8_array_pad_to_max_length(fields: &Vec<Vec<u8>>, max_length: usize) -> (r: Vec<u64>)
    ensures
        r@ == cells_of(padded(joined_row(fields.deep_view()), max_length as nat)),
{
    let bytes = row_bytes(fields);
    let ghost target = padded(bytes@, max_length as nat);
    let mut r: Vec<u64> = Vec::new();
    let mut i: usize = 0;
    while i < bytes.len()
        invariant
            0 <= i <= bytes.len(),
            r@ == cells_of(bytes@.take(i as int)),
        decreases bytes.len() - i,
    {
        r.push(bytes[i] as u64);
        assert(cells_of(bytes@.take(i + 1)) == cells_of(bytes@.take(i as int)).push(bytes[i as int] as u64));
        i += 1;
    }
    assert(bytes@.take(i as int) == bytes@);
    while r.len() < max_length
        invariant
            bytes@.len() <= r@.len(),
            r@.len() <= max_length || r@.len() == bytes@.len(),
            r@ == cells_of(bytes@ + Seq::new((r@.len() - bytes@.len()) as nat, |_i: int| PAD_BYTE)),
        decreases max_length - r.len(),
    {
        let ghost k = (r@.len() - bytes@.len()) as nat;
        r.push(PAD_BYTE as u64);
        assert(bytes@ + Seq::new(k + 1, |_i: int| PAD_BYTE) == (bytes@ + Seq::new(k, |_i: int| PAD_BYTE)).push(PAD_BYTE));
        assert(cells_of(bytes@ + Seq::new(k + 1, |_i: int| PAD_BYTE)) == r@);
    }
    if bytes.len() >= max_length {
        assert(bytes@ + Seq::new(0, |_i: int| PAD_BYTE) == bytes@);
    }
    r
}

/// The plaintext matrix of a table of rows of field bytes, header row first:
/// each row joined and padded with pad bytes to the length of the longest row.
pub fn encode_rows(rows: &Vec<Vec<Vec<u8>>>) -> (r: Vec<Vec<u64>>)
    ensures
        r.deep_view() == encoded(rows.deep_view()),
        r.len() == rows.len(),
        forall|i: int|
            0 <= i < rows.len() ==> (#[trigger] r.deep_view()[i]).len() == max_row_len(rows.deep_view()),
        forall|i: int, j: int|
            0 <= i < rows.len() && joined_row(rows.deep_view()[i]).len() <= j < max_row_len(rows.deep_view())
                ==> r.deep_view()[i][j] == PAD_BYTE as u64,
{
    let ghost rs = rows.deep_view();
    let width = find_max_row_length(rows);
    proof {
        lemma_max_row_len_bound(rs);
    }
    let mut r: Vec<Vec<u64>> = Vec::new();
    let mut i: usize = 0;
    while i < rows.len()
        invariant
            0 <= i <= rows.len(),
            rs == rows.deep_view(),
            width == max_row_len(rs),
            r.deep_view() == padded_matrix(rs.take(i as int), width as nat),
        decreases rows.len() - i,
    {
        let row = utf8_array_pad_to_max_length(&rows[i], width);
        let ghost prev = r.deep_view();
        assert(row.deep_view() =~= row@);
        r.push(row);
        assert(r.deep_view() =~= prev.push(row.deep_view()));
        assert(padded_matrix(rs.take(i + 1), width as nat) == padded_matrix(rs.take(i as int), width as nat).push(row@));
        i += 1;
    }
    assert(rs.take(i as int) == rs);
    assert forall|i: int, j: int|
        0 <= i < rs.len() && joined_row(rs[i]).len() <= j < max_row_len(rs) implies r.deep_view()[i][j]
        == PAD_BYTE as u64 by {
        assert(joined_row(rs[i]).len() <= max_row_len(rs));
    }
    r
}

/// `bytes` without its trailing pad bytes.
pub open spec fn strip_pad(bytes: Seq<u8>) -> Seq<u8>
    decreases bytes.len(),
{
    if bytes.len() > 0 && bytes.last() == PAD_BYTE {
        strip_pad(bytes.drop_last())
    } else {
        bytes
    }
}

/// Whether every cell of a row holds a byte value.
pub open spec fn fits_byte(cells: Seq<u64>) -> bool {
    forall|j: int| 0 <= j < cells.len() ==> cells[j] <= 255
}

/// The text line of one matrix row: its cells as bytes, trailing pad bytes
/// removed, decoded as UTF-8.
pub open spec fn decoded_line(cells: Seq<u64>) -> Result<Seq<char>, LatticeError> {
    if !fits_byte(cells) {
        Err(LatticeError::Range)
    } else {
        let bytes = strip_pad(cells.map_values(|c: u64| c as u8));
        if valid_utf8(bytes) {
            Ok(decode_utf8(bytes))
        } else {
            Err(LatticeError::Decode)
        }
    }
}

/// The text lines of a matrix, or the error of its first row that has none.
pub open spec fn decoded_lines(m: Seq<Seq<u64>>) -> Result<Seq<Seq<char>>, LatticeError>
    decreases m.len(),
{
    if m.len() == 0 {
        Ok(Seq::empty())
    } else {
        match decoded_lines(m.drop_last()) {
            Err(e) => Err(e),
            Ok(lines) => match decoded_line(m.last()) {
                Err(e) => Err(e),
                Ok(line) => Ok(lines.push(line)),
            },
        }
    }
}

/// The model of a result that holds text lines.
pub open spec fn lines_view(r: Result<Vec<String>, LatticeError>) -> Result<Seq<Seq<char>>, LatticeError> {
    match r {
        Ok(v) => Ok(v.deep_view()),
        Err(e) => Err(e),
    }
}

/// Relies on `String::from_utf8`: it succeeds exactly on valid UTF-8, and the
/// string then holds the characters that the bytes encode.
#[verifier::external_body]
fn string_from_utf8(bytes: Vec<u8>) -> (r: Option<String>)
    ensures
        r is Some <==> valid_utf8(bytes@),
        r is Some ==> r->0@ == decode_utf8(bytes@),
{
    String::from_utf8(bytes).ok()
}

/// The byte row of a matrix row with its trailing pad bytes removed, or the
/// range error where a cell does not fit in one byte.
pub fn recover_row_bytes(cells: &Vec<u64>) -> (r: Result<Vec<u8>, LatticeError>)
    ensures
        match r {
            Ok(b) => fits_byte(cells@) && b@ == strip_pad(cells@.map_values(|c: u64| c as u8)),
            Err(e) => !fits_byte(cells@) && e == LatticeError::Range,
        },
{
    let ghost all = cells@.map_values(|c: u64| c as u8);
    let mut bytes: Vec<u8> = Vec::new();
    let mut j: usize = 0;
    while j < cells.len()
        invariant
            0 <= j <= cells.len(),
            all == cells@.map_values(|c: u64| c as u8),
            bytes@ == all.take(j as int),
            forall|k: int| 0 <= k < j ==> cells@[k] <= 255,
        decreases cells.len() - j,
    {
        if cells[j] > 255 {
            return Err(LatticeError::Range);
        }
        bytes.push(cells[j] as u8);
        assert(all.take(j + 1) == all.take(j as int).push(all[j as int]));
        j += 1;
    }
    assert(all.take(j as int) == all);
    let mut k: usize = bytes.len();
    while k > 0 && bytes[k - 1] == PAD_BYTE
        invariant
            0 <= k <= bytes.len(),
            bytes@ == all,
            strip_pad(all) == strip_pad(all.take(k as int)),
        decreases k,
    {
        assert(all.take(k as int).drop_last() == all.take(k - 1));
        k -= 1;
    }
    bytes.truncate(k);
    assert(bytes@ == all.take(k as int));
    Ok(bytes)
}

/// Decodes a plaintext-shaped matrix into its text lines, one per row: each
/// cell must hold a byte value, trailing pad bytes are removed, and the rest
/// must be valid UTF-8. The first row that fails gives the error.
pub fn utf8_to_string(strings: Vec<Vec<u64>>) -> (r: Result<Vec<String>, LatticeError>)
    ensures
        lines_view(r) == decoded_lines(strings.deep_view()),
{
    let ghost m = strings.deep_view();
    let mut lines: Vec<String> = Vec::new();
    let mut i: usize = 0;
    assert(m.take(0) =~= Seq::<Seq<u64>>::empty());
    assert(lines.deep_view() =~= Seq::<Seq<char>>::empty());
    while i < strings.len()
        invariant
            0 <= i <= strings.len(),
            m == strings.deep_view(),
            decoded_lines(m.take(i as int)) == Ok::<Seq<Seq<char>>, LatticeError>(lines.deep_view()),
        decreases strings.len() - i,
    {
        assert(m.take(i + 1).drop_last() == m.take(i as int));
        assert(m.take(i + 1).last() == strings[i as int]@);
        let bytes = match recover_row_bytes(&strings[i]) {
            Ok(b) => b,
            Err(e) => {
                proof {
                    lemma_decoded_lines_error(m, i as int + 1);
                }
                return Err(e);
            },
        };
        match string_from_utf8(bytes) {
            Some(line) => {
                let ghost prev = lines.deep_view();
                lines.push(line);
                assert(lines.deep_view() =~= prev.push(line@));
            },
            None => {
                proof {
                    lemma_decoded_lines_error(m, i as int + 1);
                }
                return Err(LatticeError::Decode);
            },
        }
        i += 1;
    }
    assert(m.take(i as int) == m);
    Ok(lines)
}

/// An error in the first `n` rows is the error of the whole matrix.
proof fn lemma_decoded_lines_error(m: Seq<Seq<u64>>, n: int)
    requires
        0 <= n <= m.len(),
        decoded_lines(m.take(n)) is Err,
    ensures
        decoded_lines(m) == decoded_lines(m.take(n)),
    decreases m.len() - n,
{
    if n < m.len() {
        assert(m.take(n + 1).drop_last() == m.take(n));
        lemma_decoded_lines_error(m, n + 1);
    } else {
        assert(m.take(n) == m);
    }
}

/// Whether a byte row ends in a pad byte, which decoding cannot tell from padding.
pub open spec fn ends_in_pad(bytes: Seq<u8>) -> bool {
    bytes.len() > 0 && bytes.last() == PAD_BYTE
}

proof fn lemma_strip_pads(row: Seq<u8>, n: nat)
    ensures
        strip_pad(row + Seq::new(n, |_i: int| PAD_BYTE)) == strip_pad(row),
    decreases n,
{
    let s = row + Seq::new(n, |_i: int| PAD_BYTE);
    if n == 0 {
        assert(s =~= row);
    } else {
        assert(s.drop_last() =~= row + Seq::new((n - 1) as nat, |_i: int| PAD_BYTE));
        lemma_strip_pads(row, (n - 1) as nat);
    }
}

proof fn lemma_decode_padded_row(row: Seq<u8>, width: nat)
    requires
        !ends_in_pad(row),
    ensures
        decoded_line(cells_of(padded(row, width))) == (if valid_utf8(row) {
            Ok::<Seq<char>, LatticeError>(decode_utf8(row))
        } else {
            Err(LatticeError::Decode)
        }),
{
    let p = padded(row, width);
    let cells = cells_of(p);
    assert(fits_byte(cells));
    assert(cells.map_values(|c: u64| c as u8) =~= p);
    if row.len() < width {
        lemma_strip_pads(row, (width - row.len()) as nat);
    }
}

proof fn lemma_decode_padded_matrix(rows: Seq<Seq<Seq<u8>>>, width: nat)
    requires
        forall|i: int|
            0 <= i < rows.len() ==> valid_utf8(#[trigger] joined_row(rows[i])) && !ends_in_pad(
                joined_row(rows[i]),
            ),
    ensures
        decoded_lines(padded_matrix(rows, width)) == Ok::<Seq<Seq<char>>, LatticeError>(
            Seq::new(rows.len(), |i: int| decode_utf8(joined_row(rows[i]))),
        ),
    decreases rows.len(),
{
    let m = padded_matrix(rows, width);
    if rows.len() == 0 {
        assert(Seq::new(rows.len(), |i: int| decode_utf8(joined_row(rows[i]))) =~= Seq::empty());
    } else {
        let front = rows.drop_last();
        assert forall|i: int| 0 <= i < front.len() implies valid_utf8(#[trigger] joined_row(front[i]))
            && !ends_in_pad(joined_row(front[i])) by {
            assert(front[i] == rows[i]);
            assert(valid_utf8(joined_row(rows[i])));
        }
        lemma_decode_padded_matrix(front, width);
        assert(m.drop_last() =~= padded_matrix(front, width));
        let last = joined_row(rows[rows.len() - 1]);
        assert(valid_utf8(last));
        lemma_decode_padded_row(last, width);
        assert(Seq::new(front.len(), |i: int| decode_utf8(joined_row(front[i]))).push(decode_utf8(last))
            =~= Seq::new(rows.len(), |i: int| decode_utf8(joined_row(rows[i]))));
    }
}

/// Round trip: decoding the plaintext matrix of a table gives back the text
/// of each row, its fields joined by the delimiter, in order. This holds for
/// every table whose joined rows are valid UTF-8 and do not end in a pad byte;
/// a row that ends in one loses those bytes with the padding.
pub proof fn lemma_round_trip(rows: Seq<Seq<Seq<u8>>>)
    requires
        forall|i: int|
            0 <= i < rows.len() ==> valid_utf8(#[trigger] joined_row(rows[i])) && !ends_in_pad(
                joined_row(rows[i]),
            ),
    ensures
        decoded_lines(encoded(rows)) == Ok::<Seq<Seq<char>>, LatticeError>(
            Seq::new(rows.len(), |i: int| decode_utf8(joined_row(rows[i]))),
        ),
{
    lemma_decode_padded_matrix(rows, max_row_len(rows));
}

/// Padding: every row of the plaintext matrix of a table is as long as the
/// longest joined row, starts with its own joined bytes, and holds only pad
/// bytes after them.
pub proof fn lemma_padding(rows: Seq<Seq<Seq<u8>>>)
    ensures
        encoded(rows).len() == rows.len(),
        forall|i: int| 0 <= i < rows.len() ==> (#[trigger] encoded(rows)[i]).len() == max_row_len(rows),
        forall|i: int, j: int|
            0 <= i < rows.len() && 0 <= j < joined_row(rows[i]).len() ==> encoded(rows)[i][j]
                == joined_row(rows[i])[j] as u64,
        forall|i: int, j: int|
            0 <= i < rows.len() && joined_row(rows[i]).len() <= j < max_row_len(rows) ==> encoded(
                rows,
            )[i][j] == PAD_BYTE as u64,
{
    lemma_max_row_len_bound(rows);
}

/// What csv's reader makes of CSV text at the byte level, with no row taken
/// apart as a header: the fields of every record in order, or nothing where a
/// record is malformed (a field count that differs from the first record's).
pub uninterp spec fn csv_byte_records_of(data: Seq<u8>) -> Option<Seq<Seq<Seq<u8>>>>;

/// Whether every field of every record is valid UTF-8.
pub open spec fn all_fields_utf8(rows: Seq<Seq<Seq<u8>>>) -> bool {
    forall|i: int, j: int|
        0 <= i < rows.len() && 0 <= j < rows[i].len() ==> valid_utf8(#[trigger] rows[i][j])
}

/// Whether csv's reader reads `data` as text records: it parses at the byte
/// level and every field is valid UTF-8.
pub open spec fn csv_readable(data: Seq<u8>) -> bool {
    &&& csv_byte_records_of(data) is Some
    &&& all_fields_utf8(csv_byte_records_of(data)->0)
}

#[verifier::external_type_specification]
#[verifier::external_body]
pub struct ExCsvError(csv::Error);

/// Relies on csv's `Reader::records`, over the bytes in memory with no row
/// taken apart as a header. Each record is read as a byte record and then
/// checked field by field for UTF-8 (`ByteRecord::validate`); the first
/// record that fails either step ends the loop with its error.
#[verifier::external_body]
fn read_csv_fields(data: &[u8]) -> (r: Result<Vec<Vec<Vec<u8>>>, csv::Error>)
    ensures
        r is Ok <==> csv_readable(data@),
        r is Ok ==> r->Ok_0.deep_view() == csv_byte_records_of(data@)->0,
{
    let mut reader = csv::ReaderBuilder::new().has_headers(false).from_reader(data);
    let mut rows = Vec::new();
    for record in reader.records() {
        let record = record?;
        rows.push(record.iter().map(|f| f.as_bytes().to_vec()).collect());
    }
    Ok(rows)
}

/// The plaintext matrix of CSV text, header row first. It succeeds exactly
/// where the CSV reader reads the text as records whose fields are all valid
/// UTF-8; a malformed record or a field that is not UTF-8 is a format error.
pub fn encode_csv(data: &[u8]) -> (r: Result<Vec<Vec<u64>>, LatticeError>)
    ensures
        r is Ok <==> csv_readable(data@),
        match r {
            Ok(m) => m.deep_view() == encoded(csv_byte_records_of(data@)->0),
            Err(e) => e == LatticeError::Format,
        },
        csv_byte_records_of(data@) is Some && !all_fields_utf8(csv_byte_records_of(data@)->0)
            ==> r == Err::<Vec<Vec<u64>>, LatticeError>(LatticeError::Format),
{
    match read_csv_fields(data) {
        Ok(rows) => Ok(encode_rows(&rows)),
        Err(_) => Err(LatticeError::Format),
    }
}

/// The fields of a line, split at every delimiter character.
pub open spec fn split_fields(line: Seq<char>) -> Seq<Seq<char>>
    decreases line.len(),
{
    if line.len() == 0 {
        seq![Seq::empty()]
    } else {
        let fields = split_fields(line.drop_last());
        if line.last() == ',' {
            fields.push(Seq::empty())
        } else {
            fields.update(fields.len() - 1, fields.last().push(line.last()))
        }
    }
}

proof fn lemma_split_fields_nonempty(line: Seq<char>)
    ensures
        split_fields(line).len() >= 1,
    decreases line.len(),
{
    if line.len() > 0 {
        lemma_split_fields_nonempty(line.drop_last());
    }
}

/// The fields of a decoded line, split at every delimiter; a line without one
/// is a single field.
pub fn line_fields(line: &str) -> (r: Vec<String>)
    ensures
        r.deep_view() == split_fields(line@),
{
    let cs = chars_of(line);
    let mut done: Vec<String> = Vec::new();
    let mut field: Vec<char> = Vec::new();
    let mut i: usize = 0;
    while i < cs.len()
        invariant
            0 <= i <= cs.len(),
            cs@ == line@,
            done.deep_view().push(field@) == split_fields(cs@.take(i as int)),
        decreases cs.len() - i,
    {
        let c = cs[i];
        assert(cs@.take(i + 1).drop_last() == cs@.take(i as int));
        proof {
            lemma_split_fields_nonempty(cs@.take(i as int));
        }
        if c == ',' {
            let ghost prev = done.deep_view();
            let s = string_of(&field);
            done.push(s);
            assert(done.deep_view() =~= prev.push(s@));
            field = Vec::new();
            assert(done.deep_view().push(field@) =~= prev.push(s@).push(Seq::empty()));
        } else {
            let ghost prev = field@;
            field.push(c);
            assert(done.deep_view().push(field@) =~= done.deep_view().push(prev).update(
                done.deep_view().len() as int,
                prev.push(c),
            ));
        }
        i += 1;
    }
    assert(cs@.take(i as int) == cs@);
    let ghost prev = done.deep_view();
    let s = string_of(&field);
    done.push(s);
    assert(done.deep_view() =~= prev.push(s@));
    done
}

/// The text of one row: its fields, with one `,` between adjacent fields.
pub open spec fn joined_text(fields: Seq<Seq<char>>) -> Seq<char>
    decreases fields.len(),
{
    if fields.len() == 0 {
        Seq::empty()
    } else if fields.len() == 1 {
        fields[0]
    } else {
        joined_text(fields.drop_last()) + seq![','] + fields.last()
    }
}

/// A table of text fields as the UTF-8 bytes of each field.
pub open spec fn table_bytes(table: Seq<Seq<Seq<char>>>) -> Seq<Seq<Seq<u8>>> {
    table.map_values(|row: Seq<Seq<char>>| row.map_values(|f: Seq<char>| encode_utf8(f)))
}

proof fn lemma_encode_concat(a: Seq<char>, b: Seq<char>)
    ensures
        encode_utf8(a + b) == encode_utf8(a) + encode_utf8(b),
    decreases a.len(),
{
    if a.len() == 0 {
        assert(a + b =~= b);
        assert(encode_utf8(a) + encode_utf8(b) =~= encode_utf8(b));
    } else {
        assert((a + b).drop_first() =~= a.drop_first() + b);
        lemma_encode_concat(a.drop_first(), b);
        assert(encode_utf8(a + b) =~= encode_utf8(a) + encode_utf8(b));
    }
}

proof fn lemma_encode_one(c: char)
    ensures
        encode_utf8(seq![c]) == encode_scalar(c as u32),
{
    assert(seq![c].drop_first() =~= Seq::<char>::empty());
    assert(seq![c][0] == c);
    assert(encode_utf8(Seq::<char>::empty()) =~= Seq::<u8>::empty());
    assert(encode_utf8(seq![c]) == encode_scalar(c as u32) + encode_utf8(seq![c].drop_first()));
    assert(encode_scalar(c as u32) + Seq::<u8>::empty() =~= encode_scalar(c as u32));
}

proof fn lemma_encode_comma()
    ensures
        encode_utf8(seq![',']) == seq![DELIMITER],
{
    lemma_encode_one(',');
    assert((44u32 & 0x7Fu32) as u8 == 44u8) by (bit_vector);
    assert(encode_scalar(',' as u32) =~= seq![DELIMITER]);
}

proof fn lemma_last_byte(c: char)
    requires
        c != '|',
    ensures
        encode_scalar(c as u32).len() > 0,
        encode_scalar(c as u32).last() != PAD_BYTE,
{
    let v = c as u32;
    if v <= 0x7F {
        assert(v <= 0x7F ==> (v & 0x7Fu32) as u8 == v as u8 && v as u8 as u32 == v) by (bit_vector);
        if v == 124 {
            char_u32_cast(c, v);
            assert(v as char == '|');
        }
    } else {
        assert((0x80u8 | ((v & 0x3Fu32) as u8)) != 124u8) by (bit_vector);
    }
}

proof fn lemma_text_end(t: Seq<char>)
    requires
        !(t.len() > 0 && t.last() == '|'),
    ensures
        !ends_in_pad(encode_utf8(t)),
{
    if t.len() > 0 {
        assert(t =~= t.drop_last() + seq![t.last()]);
        lemma_encode_concat(t.drop_last(), seq![t.last()]);
        lemma_encode_one(t.last());
        lemma_last_byte(t.last());
    }
}

proof fn lemma_joined_bytes(fields: Seq<Seq<char>>)
    ensures
        joined_row(fields.map_values(|f: Seq<char>| encode_utf8(f))) == encode_utf8(joined_text(fields)),
    decreases fields.len(),
{
    let bytes = fields.map_values(|f: Seq<char>| encode_utf8(f));
    if fields.len() == 1 {
        assert(bytes[0] == encode_utf8(fields[0]));
    } else if fields.len() > 1 {
        let front = fields.drop_last();
        assert(bytes.drop_last() =~= front.map_values(|f: Seq<char>| encode_utf8(f)));
        lemma_joined_bytes(front);
        lemma_encode_concat(joined_text(front) + seq![','], fields.last());
        lemma_encode_concat(joined_text(front), seq![',']);
        lemma_encode_comma();
    }
}

proof fn lemma_split_append(s: Seq<char>, t: Seq<char>)
    requires
        !t.contains(','),
    ensures
        split_fields(s + t) == split_fields(s).update(
            split_fields(s).len() - 1,
            split_fields(s).last() + t,
        ),
    decreases t.len(),
{
    lemma_split_fields_nonempty(s);
    if t.len() == 0 {
        assert(s + t =~= s);
        assert(split_fields(s).last() + t =~= split_fields(s).last());
        assert(split_fields(s).update(split_fields(s).len() - 1, split_fields(s).last())
            =~= split_fields(s));
    } else {
        let u = t.drop_last();
        assert(!u.contains(',')) by {
            if u.contains(',') {
                let k = choose|k: int| 0 <= k < u.len() && u[k] == ',';
                assert(t[k] == ',');
            }
        }
        assert(t.last() != ',') by {
            assert(t[t.len() - 1] == t.last());
        }
        lemma_split_append(s, u);
        assert((s + t).drop_last() =~= s + u);
        assert((split_fields(s).last() + u).push(t.last()) =~= split_fields(s).last() + t);
        assert(split_fields(s + t) =~= split_fields(s).update(
            split_fields(s).len() - 1,
            split_fields(s).last() + t,
        ));
    }
}

proof fn lemma_split_joined(fields: Seq<Seq<char>>)
    requires
        fields.len() >= 1,
        forall|j: int| 0 <= j < fields.len() ==> !(#[trigger] fields[j]).contains(','),
    ensures
        split_fields(joined_text(fields)) == fields,
    decreases fields.len(),
{
    if fields.len() == 1 {
        lemma_split_append(Seq::empty(), fields[0]);
        assert(Seq::<char>::empty() + fields[0] =~= fields[0]);
        assert(split_fields(Seq::empty()).update(0, Seq::<char>::empty() + fields[0]) =~= fields);
    } else {
        let front = fields.drop_last();
        assert forall|j: int| 0 <= j < front.len() implies !(#[trigger] front[j]).contains(',') by {
            assert(front[j] == fields[j]);
        }
        lemma_split_joined(front);
        let s = joined_text(front) + seq![','];
        assert(s.drop_last() =~= joined_text(front));
        assert(fields.last() == fields[fields.len() - 1]);
        lemma_split_append(s, fields.last());
        assert(Seq::<char>::empty() + fields.last() =~= fields.last());
        assert(front.push(Seq::empty()).update(front.len() as int, fields.last()) =~= fields);
    }
}

/// Round trip on text: take a table of text fields in which every row has a
/// field, no field holds `,`, and no row's text ends in `|`. Encoding the
/// UTF-8 bytes of its fields and decoding the matrix gives back each row's
/// text, and splitting that text at `,` gives back the row's fields.
pub proof fn lemma_text_round_trip(table: Seq<Seq<Seq<char>>>)
    requires
        forall|i: int| 0 <= i < table.len() ==> (#[trigger] table[i]).len() >= 1,
        forall|i: int, j: int|
            0 <= i < table.len() && 0 <= j < table[i].len() ==> !(#[trigger] table[i][j]).contains(','),
        forall|i: int|
            0 <= i < table.len() ==> !(#[trigger] joined_text(table[i]).len() > 0 && joined_text(
                table[i],
            ).last() == '|'),
    ensures
        decoded_lines(encoded(table_bytes(table))) == Ok::<Seq<Seq<char>>, LatticeError>(
            Seq::new(table.len(), |i: int| joined_text(table[i])),
        ),
        forall|i: int| 0 <= i < table.len() ==> split_fields(#[trigger] joined_text(table[i])) == table[i],
{
    let rows = table_bytes(table);
    assert forall|i: int| 0 <= i < rows.len() implies valid_utf8(#[trigger] joined_row(rows[i]))
        && !ends_in_pad(joined_row(rows[i])) by {
        lemma_joined_bytes(table[i]);
        encode_utf8_valid_utf8(joined_text(table[i]));
        lemma_text_end(joined_text(table[i]));
    }
    lemma_round_trip(rows);
    assert forall|i: int| 0 <= i < table.len() implies decode_utf8(joined_row(rows[i])) == joined_text(
        table[i],
    ) by {
        lemma_joined_bytes(table[i]);
        encode_utf8_decode_utf8(joined_text(table[i]));
    }
    assert(Seq::new(rows.len(), |i: int| decode_utf8(joined_row(rows[i]))) =~= Seq::new(
        table.len(),
        |i: int| joined_text(table[i]),
    ));
    assert forall|i: int| 0 <= i < table.len() implies split_fields(#[trigger] joined_text(table[i]))
        == table[i] by {
        lemma_split_joined(table[i]);
    }
}

/// Pad bytes are never data: appending any number of them to a matrix row
/// changes neither the row's decoded line nor the decoding of a matrix made of
/// that row.
pub proof fn lemma_pad_ignored(cells: Seq<u64>, k: nat)
    ensures
        decoded_line(cells + Seq::new(k, |_i: int| PAD_BYTE as u64)) == decoded_line(cells),
        decoded_lines(seq![cells + Seq::new(k, |_i: int| PAD_BYTE as u64)]) == decoded_lines(
            seq![cells],
        ),
{
    let longer = cells + Seq::new(k, |_i: int| PAD_BYTE as u64);
    let bytes = cells.map_values(|c: u64| c as u8);
    assert(fits_byte(longer) == fits_byte(cells)) by {
        if fits_byte(cells) {
            assert forall|j: int| 0 <= j < longer.len() implies longer[j] <= 255 by {
                if j >= cells.len() {
                    assert(longer[j] == PAD_BYTE as u64);
                }
            }
        } else {
            let j = choose|j: int| 0 <= j < cells.len() && !(cells[j] <= 255);
            assert(longer[j] == cells[j]);
        }
    }
    assert(longer.map_values(|c: u64| c as u8) =~= bytes + Seq::new(k, |_i: int| PAD_BYTE));
    lemma_strip_pads(bytes, k);
    let one = seq![longer];
    let base = seq![cells];
    assert(one.drop_last() =~= Seq::<Seq<u64>>::empty());
    assert(base.drop_last() =~= Seq::<Seq<u64>>::empty());
    assert(one.last() == longer);
    assert(base.last() == cells);
}

/// The CSV text that csv's writer makes of these records, with its default
/// settings.
pub uninterp spec fn csv_text_of(records: Seq<Seq<Seq<char>>>) -> Seq<u8>;

/// Whether every record has as many fields as the first.
pub open spec fn same_field_counts(records: Seq<Seq<Seq<char>>>) -> bool {
    forall|i: int| 0 <= i < records.len() ==> (#[trigger] records[i]).len() == records[0].len()
}

/// Relies on csv's `Writer::write_record` and `Writer::into_inner` over a
/// `Vec<u8>`: writing into memory cannot fail, and a record fails only where
/// its field count differs from the first record's (`check_field_count`).
#[verifier::external_body]
fn write_csv_records(records: &Vec<Vec<String>>) -> (r: Option<Vec<u8>>)
    ensures
        r is Some <==> same_field_counts(records.deep_view()),
        r is Some ==> r->0@ == csv_text_of(records.deep_view()),
{
    let mut writer = csv::Writer::from_writer(Vec::new());
    for record in records {
        if writer.write_record(record).is_err() {
            return None;
        }
    }
    writer.into_inner().ok()
}

/// The fields of each decoded line, split at every delimiter.
pub open spec fn lines_fields(lines: Seq<Seq<char>>) -> Seq<Seq<Seq<char>>> {
    Seq::new(lines.len(), |i: int| split_fields(lines[i]))
}

/// The CSV text of decoded lines: each line split at its delimiters into one
/// record. Lines that split into different numbers of fields are a format
/// error.
pub fn lines_to_csv(lines: &Vec<String>) -> (r: Result<Vec<u8>, LatticeError>)
    ensures
        r is Ok <==> same_field_counts(lines_fields(lines.deep_view())),
        match r {
            Ok(bytes) => bytes@ == csv_text_of(lines_fields(lines.deep_view())),
            Err(e) => e == LatticeError::Format,
        },
{
    let ghost ls = lines.deep_view();
    let mut records: Vec<Vec<String>> = Vec::new();
    let mut i: usize = 0;
    while i < lines.len()
        invariant
            0 <= i <= lines.len(),
            ls == lines.deep_view(),
            records.deep_view() == lines_fields(ls.take(i as int)),
        decreases lines.len() - i,
    {
        let fields = line_fields(lines[i].as_str());
        let ghost prev = records.deep_view();
        let ghost fv = fields.deep_view();
        records.push(fields);
        assert(records.deep_view() =~= prev.push(fv));
        assert(lines_fields(ls.take(i + 1)) =~= lines_fields(ls.take(i as int)).push(fv));
        i += 1;
    }
    assert(ls.take(i as int) =~= ls);
    match write_csv_records(&records) {
        Some(bytes) => Ok(bytes),
        None => Err(LatticeError::Format),
    }
}

} // verus!
