use vstd::prelude::*;

use crate::formats::OutputFormat;
use crate::table::texts;
use crate::table::RecordSet;

verus! {

/// The lowercase hexadecimal digit of `n` (below 16).
pub open spec fn hex_digit(n: u32) -> char {
    if n == 0 { '0' } else if n == 1 { '1' } else if n == 2 { '2' } else if n == 3 { '3' }
    else if n == 4 { '4' } else if n == 5 { '5' } else if n == 6 { '6' } else if n == 7 { '7' }
    else if n == 8 { '8' } else if n == 9 { '9' } else if n == 10 { 'a' } else if n == 11 { 'b' }
    else if n == 12 { 'c' } else if n == 13 { 'd' } else if n == 14 { 'e' } else { 'f' }
}

/// A control character, which a quoted string holds only as an escape.
pub open spec fn is_control(c: char) -> bool {
    (c as u32) < 0x20 || (0x7f <= (c as u32) && (c as u32) <= 0x9f)
}

/// How one character stands inside a double-quoted string (JSON, and YAML's
/// double-quoted style, read these escapes alike).
pub open spec fn escape_char(c: char) -> Seq<char> {
    if c == '"' {
        seq!['\\', '"']
    } else if c == '\\' {
        seq!['\\', '\\']
    } else if c == '\n' {
        seq!['\\', 'n']
    } else if c == '\r' {
        seq!['\\', 'r']
    } else if c == '\t' {
        seq!['\\', 't']
    } else if is_control(c) {
        seq!['\\', 'u', '0', '0', hex_digit((c as u32) / 16), hex_digit((c as u32) % 16)]
    } else {
        seq![c]
    }
}

/// The characters of `s`, each escaped.
pub open spec fn escaped(s: Seq<char>) -> Seq<char>
    decreases s.len(),
{
    if s.len() == 0 {
        Seq::empty()
    } else {
        escaped(s.drop_last()) + escape_char(s.last())
    }
}

/// `s` as a double-quoted string.
pub open spec fn quoted(s: Seq<char>) -> Seq<char> {
    seq!['"'] + escaped(s) + seq!['"']
}

/// One `"name": "value"` line of a JSON object, indented by four spaces.
pub open spec fn json_member(name: Seq<char>, value: Seq<char>) -> Seq<char> {
    seq![' ', ' ', ' ', ' '] + quoted(name) + seq![':', ' '] + quoted(value)
}

/// The first `k` members of an object, separated by `,` and a line break.
pub open spec fn json_members(fields: Seq<Seq<char>>, values: Seq<Seq<char>>, k: int) -> Seq<
    char,
>
    decreases k,
{
    if k <= 0 {
        Seq::empty()
    } else {
        json_members(fields, values, k - 1) + (if k > 1 {
            seq![',', '\n']
        } else {
            Seq::empty()
        }) + json_member(fields[k - 1], values[k - 1])
    }
}

/// One record as a JSON object, indented by two spaces.
pub open spec fn json_object(fields: Seq<Seq<char>>, values: Seq<Seq<char>>) -> Seq<char> {
    seq![' ', ' ', '{', '\n'] + json_members(fields, values, fields.len() as int) + seq![
        '\n',
        ' ',
        ' ',
        '}',
    ]
}

/// The first `m` records as JSON objects, separated by `,` and a line break.
pub open spec fn json_objects(fields: Seq<Seq<char>>, records: Seq<Seq<Seq<char>>>, m: int) -> Seq<
    char,
>
    decreases m,
{
    if m <= 0 {
        Seq::empty()
    } else {
        json_objects(fields, records, m - 1) + (if m > 1 {
            seq![',', '\n']
        } else {
            Seq::empty()
        }) + json_object(fields, records[m - 1])
    }
}

/// The records as a pretty-printed JSON array of objects whose values are strings.
pub open spec fn json_text(fields: Seq<Seq<char>>, records: Seq<Seq<Seq<char>>>) -> Seq<char> {
    if records.len() == 0 {
        seq!['[', ']']
    } else {
        seq!['[', '\n'] + json_objects(fields, records, records.len() as int) + seq!['\n', ']']
    }
}

/// One `"name": "value"` line of a YAML mapping; the first of a record opens a
/// sequence item with `- `.
pub open spec fn yaml_entry(name: Seq<char>, value: Seq<char>, first: bool) -> Seq<char> {
    (if first {
        seq!['-', ' ']
    } else {
        seq![' ', ' ']
    }) + quoted(name) + seq![':', ' '] + quoted(value) + seq!['\n']
}

/// The first `k` lines of one record's YAML mapping.
pub open spec fn yaml_entries(fields: Seq<Seq<char>>, values: Seq<Seq<char>>, k: int) -> Seq<char>
    decreases k,
{
    if k <= 0 {
        Seq::empty()
    } else {
        yaml_entries(fields, values, k - 1) + yaml_entry(fields[k - 1], values[k - 1], k == 1)
    }
}

/// The first `m` records as YAML sequence items.
pub open spec fn yaml_items(fields: Seq<Seq<char>>, records: Seq<Seq<Seq<char>>>, m: int) -> Seq<
    char,
>
    decreases m,
{
    if m <= 0 {
        Seq::empty()
    } else {
        yaml_items(fields, records, m - 1) + yaml_entries(
            fields,
            records[m - 1],
            fields.len() as int,
        )
    }
}

/// The records as a YAML sequence of mappings whose keys and values are
/// double-quoted strings.
pub open spec fn yaml_text(fields: Seq<Seq<char>>, records: Seq<Seq<Seq<char>>>) -> Seq<char> {
    if records.len() == 0 {
        seq!['[', ']', '\n']
    } else {
        yaml_items(fields, records, records.len() as int)
    }
}

/// The text of the records in `format`.
pub open spec fn rendered(
    format: OutputFormat,
    fields: Seq<Seq<char>>,
    records: Seq<Seq<Seq<char>>>,
) -> Seq<char> {
    match format {
        OutputFormat::Json => json_text(fields, records),
        OutputFormat::Yaml => yaml_text(fields, records),
    }
}

fn hex_char(n: u32) -> (c: char)
    requires
        n < 16,
    ensures
        c == hex_digit(n),
{
    if n == 0 { '0' } else if n == 1 { '1' } else if n == 2 { '2' } else if n == 3 { '3' }
    else if n == 4 { '4' } else if n == 5 { '5' } else if n == 6 { '6' } else if n == 7 { '7' }
    else if n == 8 { '8' } else if n == 9 { '9' } else if n == 10 { 'a' } else if n == 11 { 'b' }
    else if n == 12 { 'c' } else if n == 13 { 'd' } else if n == 14 { 'e' } else { 'f' }
}

fn push_all(out: &mut Vec<char>, s: &[char])
    ensures
        final(out)@ == old(out)@ + s@,
{
    let mut i: usize = 0;
    while i < s.len()
        invariant
            i <= s@.len(),
            out@ == old(out)@ + s@.subrange(0, i as int),
        decreases s@.len() - i,
    {
        out.push(s[i]);
        i = i + 1;
        assert(out@ =~= old(out)@ + s@.subrange(0, i as int));
    }
    assert(s@.subrange(0, s@.len() as int) =~= s@);
}

fn push_escaped_char(out: &mut Vec<char>, c: char)
    ensures
        final(out)@ == old(out)@ + escape_char(c),
{
    let code = c as u32;
    if c == '"' {
        push_all(out, &['\\', '"']);
    } else if c == '\\' {
        push_all(out, &['\\', '\\']);
    } else if c == '\n' {
        push_all(out, &['\\', 'n']);
    } else if c == '\r' {
        push_all(out, &['\\', 'r']);
    } else if c == '\t' {
        push_all(out, &['\\', 't']);
    } else if code < 0x20 || (0x7f <= code && code <= 0x9f) {
        push_all(out, &['\\', 'u', '0', '0', hex_char(code / 16), hex_char(code % 16)]);
    } else {
        push_all(out, &[c]);
    }
}

/// Appends `s` as a double-quoted string.
fn push_quoted(out: &mut Vec<char>, s: &Vec<char>)
    ensures
        final(out)@ == old(out)@ + quoted(s@),
{
    out.push('"');
    let mut i: usize = 0;
    assert(s@.subrange(0, 0) =~= Seq::<char>::empty());
    assert(out@ =~= old(out)@ + seq!['"'] + escaped(s@.subrange(0, 0)));
    while i < s.len()
        invariant
            i <= s@.len(),
            out@ == old(out)@ + seq!['"'] + escaped(s@.subrange(0, i as int)),
        decreases s@.len() - i,
    {
        push_escaped_char(out, s[i]);
        assert(s@.subrange(0, i + 1).drop_last() =~= s@.subrange(0, i as int));
        i = i + 1;
        assert(out@ =~= old(out)@ + seq!['"'] + escaped(s@.subrange(0, i as int)));
    }
    assert(s@.subrange(0, s@.len() as int) =~= s@);
    out.push('"');
    assert(out@ =~= old(out)@ + quoted(s@));
}

fn push_json_object(out: &mut Vec<char>, fields: &Vec<Vec<char>>, values: &Vec<Vec<char>>)
    requires
        values@.len() == fields@.len(),
    ensures
        final(out)@ == old(out)@ + json_object(texts(fields@), texts(values@)),
{
    let ghost f = texts(fields@);
    let ghost v = texts(values@);
    push_all(out, &[' ', ' ', '{', '\n']);
    let ghost start = out@;
    let mut k: usize = 0;
    assert(start =~= start + json_members(f, v, 0));
    while k < fields.len()
        invariant
            k <= fields@.len(),
            values@.len() == fields@.len(),
            f == texts(fields@),
            v == texts(values@),
            out@ == start + json_members(f, v, k as int),
        decreases fields@.len() - k,
    {
        if k > 0 {
            push_all(out, &[',', '\n']);
        }
        push_all(out, &[' ', ' ', ' ', ' ']);
        push_quoted(out, &fields[k]);
        push_all(out, &[':', ' ']);
        push_quoted(out, &values[k]);
        k = k + 1;
        assert(out@ =~= start + json_members(f, v, k as int));
    }
    push_all(out, &['\n', ' ', ' ', '}']);
    assert(out@ =~= old(out)@ + json_object(f, v));
}

fn push_yaml_entries(out: &mut Vec<char>, fields: &Vec<Vec<char>>, values: &Vec<Vec<char>>)
    requires
        values@.len() == fields@.len(),
    ensures
        final(out)@ == old(out)@ + yaml_entries(
            texts(fields@),
            texts(values@),
            fields@.len() as int,
        ),
{
    let ghost f = texts(fields@);
    let ghost v = texts(values@);
    let mut k: usize = 0;
    assert(old(out)@ =~= old(out)@ + yaml_entries(f, v, 0));
    while k < fields.len()
        invariant
            k <= fields@.len(),
            values@.len() == fields@.len(),
            f == texts(fields@),
            v == texts(values@),
            out@ == old(out)@ + yaml_entries(f, v, k as int),
        decreases fields@.len() - k,
    {
        if k == 0 {
            push_all(out, &['-', ' ']);
        } else {
            push_all(out, &[' ', ' ']);
        }
        push_quoted(out, &fields[k]);
        push_all(out, &[':', ' ']);
        push_quoted(out, &values[k]);
        push_all(out, &['\n']);
        k = k + 1;
        assert(out@ =~= old(out)@ + yaml_entries(f, v, k as int));
    }
}

/// Serializes the records as a pretty-printed JSON array of objects, or as a
/// YAML sequence of mappings; keys keep the field order and every value is a
/// string.
pub fn render(set: &RecordSet, format: OutputFormat) -> (r: Vec<char>)
    requires
        set.well_formed(),
    ensures
        r@ == rendered(format, set@.0, set@.1),
{
    let ghost f = set@.0;
    let ghost rs = set@.1;
    let mut out: Vec<char> = Vec::new();
    let n = set.records.len();
    if n == 0 {
        match format {
            OutputFormat::Json => push_all(&mut out, &['[', ']']),
            OutputFormat::Yaml => push_all(&mut out, &['[', ']', '\n']),
        }
        assert(out@ =~= rendered(format, f, rs));
        return out;
    }
    match format {
        OutputFormat::Json => push_all(&mut out, &['[', '\n']),
        OutputFormat::Yaml => {},
    }
    let ghost start = out@;
    let mut j: usize = 0;
    assert(start =~= start + json_objects(f, rs, 0));
    assert(start =~= start + yaml_items(f, rs, 0));
    while j < n
        invariant
            j <= n,
            n == set.records@.len(),
            set.well_formed(),
            f == set@.0,
            rs == set@.1,
            format == OutputFormat::Json ==> out@ == start + json_objects(f, rs, j as int),
            format == OutputFormat::Yaml ==> out@ == start + yaml_items(f, rs, j as int),
        decreases n - j,
    {
        let values = &set.records[j];
        assert(texts(values@) == rs[j as int]);
        assert(values@.len() == set.fields@.len());
        match format {
            OutputFormat::Json => {
                if j > 0 {
                    push_all(&mut out, &[',', '\n']);
                }
                push_json_object(&mut out, &set.fields, values);
            },
            OutputFormat::Yaml => {
                push_yaml_entries(&mut out, &set.fields, values);
            },
        }
        j = j + 1;
        assert(format == OutputFormat::Json ==> out@ =~= start + json_objects(f, rs, j as int));
        assert(format == OutputFormat::Yaml ==> out@ =~= start + yaml_items(f, rs, j as int));
    }
    match format {
        OutputFormat::Json => push_all(&mut out, &['\n', ']']),
        OutputFormat::Yaml => {},
    }
    assert(out@ =~= rendered(format, f, rs));
    out
}

} // verus!
