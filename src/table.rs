use vstd::prelude::*;

use crate::formats::ConvertError;

verus! {

/// The pieces of `s` between occurrences of `d`; there is always at least one.
pub open spec fn split(s: Seq<char>, d: char) -> Seq<Seq<char>>
    decreases s.len(),
{
    if s.len() == 0 {
        seq![Seq::empty()]
    } else {
        let r = split(s.drop_last(), d);
        if s.last() == d {
            r.push(Seq::empty())
        } else {
            r.update(r.len() - 1, r.last().push(s.last()))
        }
    }
}

/// The non-empty lines among `ls`, in order.
pub open spec fn non_empty(ls: Seq<Seq<char>>) -> Seq<Seq<char>>
    decreases ls.len(),
{
    if ls.len() == 0 {
        ls
    } else if ls.last().len() > 0 {
        non_empty(ls.drop_last()).push(ls.last())
    } else {
        non_empty(ls.drop_last())
    }
}

/// The rows of a table: its non-empty lines, in order.
pub open spec fn rows(s: Seq<char>) -> Seq<Seq<char>> {
    non_empty(split(s, '\n'))
}

/// The decimal digit of `n` (below 10).
pub open spec fn digit(n: nat) -> char {
    if n == 0 { '0' } else if n == 1 { '1' } else if n == 2 { '2' } else if n == 3 { '3' }
    else if n == 4 { '4' } else if n == 5 { '5' } else if n == 6 { '6' } else if n == 7 { '7' }
    else if n == 8 { '8' } else { '9' }
}

/// The decimal text of `n`.
pub open spec fn decimal(n: nat) -> Seq<char>
    decreases n,
{
    if n < 10 {
        seq![digit(n)]
    } else {
        decimal(n / 10).push(digit(n % 10))
    }
}

/// The positional field names `"0"`, `"1"`, ... for `n` columns.
pub open spec fn index_names(n: nat) -> Seq<Seq<char>> {
    Seq::new(n, |i: int| decimal(i as nat))
}

/// The field names of a table whose first row is `first`.
pub open spec fn field_names(first: Seq<char>, d: char, header: bool) -> Seq<Seq<char>> {
    if header {
        split(first, d)
    } else {
        index_names(split(first, d).len())
    }
}

/// The rows that hold records.
pub open spec fn data_rows(s: Seq<char>, header: bool) -> Seq<Seq<char>> {
    if header && rows(s).len() > 0 {
        rows(s).drop_first()
    } else {
        rows(s)
    }
}

/// The field names of the table `s`; none when it has no rows.
pub open spec fn table_fields(s: Seq<char>, d: char, header: bool) -> Seq<Seq<char>> {
    if rows(s).len() == 0 {
        Seq::empty()
    } else {
        field_names(rows(s)[0], d, header)
    }
}

/// Whether the `j`-th data row has one cell per field name.
pub open spec fn row_fits(s: Seq<char>, d: char, header: bool, j: int) -> bool {
    split(data_rows(s, header)[j], d).len() == table_fields(s, d, header).len()
}

/// Whether every data row has one cell per field name.
pub open spec fn rectangular(s: Seq<char>, d: char, header: bool) -> bool {
    forall|j: int| 0 <= j < data_rows(s, header).len() ==> row_fits(s, d, header, j)
}

/// The cell values of each record, one record per data row.
pub open spec fn table_records(s: Seq<char>, d: char, header: bool) -> Seq<Seq<Seq<char>>> {
    Seq::new(data_rows(s, header).len(), |j: int| split(data_rows(s, header)[j], d))
}

/// The error for the first data row `j` of the wrong shape; `row` counts the
/// rows from zero, header included.
pub open spec fn shape_error(s: Seq<char>, d: char, header: bool, j: int) -> ConvertError {
    ConvertError::RowShape {
        row: (if header { j + 1 } else { j }) as usize,
        expected: table_fields(s, d, header).len() as usize,
        found: split(data_rows(s, header)[j], d).len() as usize,
    }
}

/// `e` reports the first data row of the wrong shape.
pub open spec fn first_shape_error(s: Seq<char>, d: char, header: bool, e: ConvertError) -> bool {
    exists|j: int|
        0 <= j < data_rows(s, header).len() && !row_fits(s, d, header, j) && (forall|k: int|
            0 <= k < j ==> row_fits(s, d, header, k)) && e == shape_error(s, d, header, j)
}

/// The text of a sequence of vectors of characters.
pub open spec fn texts(v: Seq<Vec<char>>) -> Seq<Seq<char>> {
    Seq::new(v.len(), |i: int| v[i]@)
}

/// Named records parsed out of a delimited table: the field names, and for
/// each record the value of each field, in field order.
pub struct RecordSet {
    pub fields: Vec<Vec<char>>,
    pub records: Vec<Vec<Vec<char>>>,
}

impl View for RecordSet {
    type V = (Seq<Seq<char>>, Seq<Seq<Seq<char>>>);

    open spec fn view(&self) -> Self::V {
        (texts(self.fields@), Seq::new(self.records@.len(), |j: int| texts(self.records@[j]@)))
    }
}

impl RecordSet {
    /// Every record has one value per field name.
    pub open spec fn well_formed(&self) -> bool {
        forall|j: int| 0 <= j < self.records@.len() ==> #[trigger] self.records@[j]@.len()
            == self.fields@.len()
    }
}

proof fn lemma_split_nonempty(s: Seq<char>, d: char)
    ensures
        split(s, d).len() >= 1,
    decreases s.len(),
{
    if s.len() > 0 {
        lemma_split_nonempty(s.drop_last(), d);
    }
}

/// Splits `s` at every occurrence of `d`.
pub fn split_at_char(s: &[char], d: char) -> (r: Vec<Vec<char>>)
    ensures
        texts(r@) == split(s@, d),
{
    let mut done: Vec<Vec<char>> = Vec::new();
    let mut cur: Vec<char> = Vec::new();
    let mut i: usize = 0;
    assert(s@.subrange(0, 0) =~= Seq::<char>::empty());
    assert(texts(done@).push(cur@) =~= split(s@.subrange(0, 0), d));
    while i < s.len()
        invariant
            i <= s@.len(),
            texts(done@).push(cur@) == split(s@.subrange(0, i as int), d),
        decreases s@.len() - i,
    {
        let c = s[i];
        let ghost pre = s@.subrange(0, i as int);
        let ghost next = s@.subrange(0, i + 1);
        assert(next.drop_last() =~= pre);
        proof {
            lemma_split_nonempty(pre, d);
        }
        if c == d {
            done.push(cur);
            cur = Vec::new();
            assert(texts(done@).push(cur@) =~= split(next, d));
        } else {
            cur.push(c);
            assert(texts(done@).push(cur@) =~= split(next, d));
        }
        i = i + 1;
    }
    assert(s@.subrange(0, s@.len() as int) =~= s@);
    done.push(cur);
    assert(texts(done@) =~= split(s@, d));
    done
}

fn copy_text(v: &Vec<char>) -> (r: Vec<char>)
    ensures
        r@ == v@,
{
    let mut r: Vec<char> = Vec::new();
    let mut i: usize = 0;
    while i < v.len()
        invariant
            i <= v@.len(),
            r@ == v@.subrange(0, i as int),
        decreases v@.len() - i,
    {
        r.push(v[i]);
        i = i + 1;
        assert(r@ =~= v@.subrange(0, i as int));
    }
    assert(v@.subrange(0, v@.len() as int) =~= v@);
    r
}

/// The non-empty lines of `input`.
pub fn table_rows(input: &[char]) -> (r: Vec<Vec<char>>)
    ensures
        texts(r@) == rows(input@),
{
    let lines = split_at_char(input, '\n');
    let ghost ls = split(input@, '\n');
    let mut out: Vec<Vec<char>> = Vec::new();
    let mut j: usize = 0;
    assert(texts(out@) =~= non_empty(ls.subrange(0, 0)));
    while j < lines.len()
        invariant
            texts(lines@) == ls,
            j <= ls.len(),
            texts(out@) == non_empty(ls.subrange(0, j as int)),
        decreases ls.len() - j,
    {
        let ghost next = ls.subrange(0, j + 1);
        let ghost prev = out@;
        assert(next.drop_last() =~= ls.subrange(0, j as int));
        assert(next.last() == lines@[j as int]@);
        if lines[j].len() > 0 {
            let line = copy_text(&lines[j]);
            out.push(line);
            assert(texts(out@) =~= texts(prev).push(line@));
        }
        j = j + 1;
    }
    assert(ls.subrange(0, ls.len() as int) =~= ls);
    out
}

fn digit_of(n: usize) -> (c: char)
    requires
        n < 10,
    ensures
        c == digit(n as nat),
{
    if n == 0 { '0' } else if n == 1 { '1' } else if n == 2 { '2' } else if n == 3 { '3' }
    else if n == 4 { '4' } else if n == 5 { '5' } else if n == 6 { '6' } else if n == 7 { '7' }
    else if n == 8 { '8' } else { '9' }
}

/// Appends the decimal text of `n`.
fn push_decimal(out: &mut Vec<char>, n: usize)
    ensures
        final(out)@ == old(out)@ + decimal(n as nat),
    decreases n,
{
    if n >= 10 {
        push_decimal(out, n / 10);
    }
    out.push(digit_of(n % 10));
    assert(out@ =~= old(out)@ + decimal(n as nat));
}

/// The positional field names of a table with `n` columns.
fn index_name_list(n: usize) -> (r: Vec<Vec<char>>)
    ensures
        texts(r@) == index_names(n as nat),
{
    let mut r: Vec<Vec<char>> = Vec::new();
    let mut i: usize = 0;
    while i < n
        invariant
            i <= n,
            texts(r@) == index_names(i as nat),
        decreases n - i,
    {
        let mut name: Vec<char> = Vec::new();
        push_decimal(&mut name, i);
        assert(name@ =~= decimal(i as nat));
        let ghost prev = r@;
        r.push(name);
        assert(texts(r@) =~= texts(prev).push(decimal(i as nat)));
        i = i + 1;
        assert(texts(r@) =~= index_names(i as nat));
    }
    r
}

/// Parses a delimited table into named records. Rows are the non-empty lines;
/// cells are the literal text between delimiters. With `header`, the first row
/// names the fields, else they are named by position (`"0"`, `"1"`, ...), as
/// many as the first row has cells. Fails on the first data row whose number of
/// cells differs from the number of field names.
pub fn parse_table(input: &[char], delimiter: char, header: bool) -> (r: Result<
    RecordSet,
    ConvertError,
>)
    ensures
        r is Ok <==> rectangular(input@, delimiter, header),
        r matches Ok(t) ==> t.well_formed() && t@ == (
            table_fields(input@, delimiter, header),
            table_records(input@, delimiter, header),
        ),
        r matches Err(e) ==> first_shape_error(input@, delimiter, header, e),
{
    let ghost s = input@;
    let ghost d = delimiter;
    let rs = table_rows(input);
    if rs.len() == 0 {
        let t = RecordSet { fields: Vec::new(), records: Vec::new() };
        assert(t@.0 =~= table_fields(s, d, header));
        assert(t@.1 =~= table_records(s, d, header));
        return Ok(t);
    }
    let first = split_at_char(rs[0].as_slice(), delimiter);
    let fields = if header {
        first
    } else {
        index_name_list(first.len())
    };
    assert(texts(fields@) == table_fields(s, d, header));
    let start: usize = if header { 1 } else { 0 };
    let ghost data = data_rows(s, header);
    assert(data.len() == rs@.len() - start);
    assert(forall|k: int| 0 <= k < data.len() ==> #[trigger] data[k] == rs@[k + start]@);
    let mut records: Vec<Vec<Vec<char>>> = Vec::new();
    let mut j: usize = start;
    while j < rs.len()
        invariant
            start <= j <= rs@.len(),
            start == (if header { 1usize } else { 0usize }),
            data.len() == rs@.len() - start,
            forall|k: int| 0 <= k < data.len() ==> #[trigger] data[k] == rs@[k + start]@,
            data == data_rows(s, header),
            s == input@,
            d == delimiter,
            forall|k: int| 0 <= k < j - start ==> row_fits(s, d, header, k),
            texts(fields@) == table_fields(s, d, header),
            records@.len() == j - start,
            forall|k: int|
                0 <= k < j - start ==> texts(#[trigger] records@[k]@) == split(data[k], d)
                    && records@[k]@.len() == fields@.len(),
        decreases rs@.len() - j,
    {
        let row = rs[j].as_slice();
        assert(data[j - start] == rs@[j as int]@);
        assert(row@ == rs@[j as int]@);
        let cells = split_at_char(row, delimiter);
        assert(texts(cells@) == split(data[j - start], d));
        if cells.len() != fields.len() {
            let e = ConvertError::RowShape { row: j, expected: fields.len(), found: cells.len() };
            assert(!row_fits(s, d, header, j - start));
            assert(e == shape_error(s, d, header, j - start));
            assert(!rectangular(s, d, header));
            return Err(e);
        }
        assert(row_fits(s, d, header, j - start));
        records.push(cells);
        j = j + 1;
    }
    let t = RecordSet { fields, records };
    assert(t@.1 =~= table_records(s, d, header));
    assert(rectangular(s, d, header));
    Ok(t)
}

/// With a header, the field names are the cells of the first row in order,
/// whatever the data rows hold: two tables with the same first row have the
/// same field names.
pub proof fn lemma_header_names(s1: Seq<char>, s2: Seq<char>, d: char)
    requires
        rows(s1).len() > 0,
        rows(s2).len() > 0,
        rows(s1)[0] == rows(s2)[0],
    ensures
        table_fields(s1, d, true) == split(rows(s1)[0], d),
        table_fields(s1, d, true) == table_fields(s2, d, true),
{
}

/// A rectangular table has one record per row, the header row aside, and every
/// record has one value per field name.
pub proof fn lemma_record_shape(s: Seq<char>, d: char, header: bool)
    requires
        rectangular(s, d, header),
    ensures
        table_records(s, d, header).len() == if header && rows(s).len() > 0 {
            rows(s).len() - 1
        } else {
            rows(s).len() as int
        },
        forall|j: int|
            0 <= j < table_records(s, d, header).len() ==> (#[trigger] table_records(
                s,
                d,
                header,
            )[j]).len() == table_fields(s, d, header).len(),
{
    assert forall|j: int| 0 <= j < table_records(s, d, header).len() implies (
    #[trigger] table_records(s, d, header)[j]).len() == table_fields(s, d, header).len() by {
        assert(row_fits(s, d, header, j));
    }
}

} // verus!
