//! Joining CSV records that span several lines into one line each.
//!
//! A line starts a new record when its first field is an unsigned 32-bit
//! number; other lines continue the record before them.
use vstd::prelude::*;
use crate::number::{
    decimal, is_digit, lemma_parse_u32_decimal, lemma_parse_unsigned_refuses, parse_u32,
    parse_u32_chars,
};
use crate::text::{
    chars_of, join, join_chars, lemma_split_on_absent, lemma_split_on_concat, lemma_split_on_nonempty,
    split_chars, split_on, string_of, texts,
};
use crate::validation::string_views;

verus! {

/// The first comma-separated field of a line.
pub open spec fn first_field(line: Seq<char>) -> Seq<char> {
    split_on(line, ',')[0]
}

/// Whether a line starts a new record.
pub open spec fn starts_record(line: Seq<char>) -> bool {
    parse_u32(first_field(line)) is Ok
}

/// The state of the cleaner: lines written so far and the lines of the
/// record being collected.
pub struct CsvState {
    pub written: Seq<Seq<char>>,
    pub current: Seq<Seq<char>>,
}

/// One input line of the cleaner.  A line that starts a record completes
/// the record before it, which is written as its lines joined by spaces;
/// a continuation line joins the record being collected, and is dropped
/// when no record has started yet.
pub open spec fn csv_step(st: CsvState, line: Seq<char>) -> CsvState {
    if starts_record(line) {
        if st.current.len() > 0 {
            CsvState { written: st.written.push(join(st.current, " "@)), current: seq![line] }
        } else {
            CsvState { written: st.written, current: seq![line] }
        }
    } else if st.current.len() > 0 {
        CsvState { written: st.written, current: st.current.push(line) }
    } else {
        st
    }
}

/// The cleaner after the given lines.
pub open spec fn csv_scan(lines: Seq<Seq<char>>) -> CsvState
    decreases lines.len(),
{
    if lines.len() == 0 {
        CsvState { written: Seq::<Seq<char>>::empty(), current: Seq::<Seq<char>>::empty() }
    } else {
        csv_step(csv_scan(lines.drop_last()), lines.last())
    }
}

/// The lines of the cleaned file: the header unchanged, then the records.
pub open spec fn cleaned_csv(lines: Seq<Seq<char>>) -> Seq<Seq<char>> {
    if lines.len() == 0 {
        Seq::<Seq<char>>::empty()
    } else {
        let st = csv_scan(lines.drop_first());
        seq![lines[0]] + st.written + if st.current.len() > 0 {
            seq![join(st.current, " "@)]
        } else {
            Seq::<Seq<char>>::empty()
        }
    }
}

/// How many of the lines start a record.
pub open spec fn record_count(lines: Seq<Seq<char>>) -> nat
    decreases lines.len(),
{
    if lines.len() == 0 {
        0
    } else {
        record_count(lines.drop_last()) + if starts_record(lines.last()) {
            1nat
        } else {
            0nat
        }
    }
}

proof fn lemma_scan_counts(lines: Seq<Seq<char>>)
    ensures
        csv_scan(lines).written.len() + (if csv_scan(lines).current.len() > 0 {
            1nat
        } else {
            0nat
        }) == record_count(lines),
        csv_scan(lines).current.len() > 0 ==> starts_record(csv_scan(lines).current[0]),
    decreases lines.len(),
{
    if lines.len() > 0 {
        lemma_scan_counts(lines.drop_last());
    }
}

/// The header is kept as it is, and every record becomes one line.
pub proof fn lemma_one_line_per_record(lines: Seq<Seq<char>>)
    requires
        lines.len() > 0,
    ensures
        cleaned_csv(lines)[0] == lines[0],
        cleaned_csv(lines).len() == 1 + record_count(lines.drop_first()),
{
    lemma_scan_counts(lines.drop_first());
}

/// A line starts a record exactly as its first field, the text before its
/// first comma, says: the decimal text of a `u32` starts one, and a field
/// that is empty or holds a character other than a digit (but for a
/// leading `+`) does not, so such a line continues the record before it.
pub proof fn lemma_record_start(field: Seq<char>, rest: Seq<char>, n: u32)
    requires
        !field.contains(','),
    ensures
        first_field(field) == field,
        first_field(field + seq![','] + rest) == field,
        field == decimal(n as int) ==> starts_record(field) && starts_record(
            field + seq![','] + rest,
        ),
        (field.len() == 0 || exists|j: int|
            0 <= j < field.len() && !is_digit(#[trigger] field[j]) && !(j == 0 && field[j] == '+'))
            ==> !starts_record(field) && !starts_record(field + seq![','] + rest),
{
    lemma_split_on_absent(field, ',');
    lemma_split_on_concat(field, rest, ',');
    lemma_split_on_nonempty(rest, ',');
    assert((split_on(field, ',') + split_on(rest, ','))[0] == field);
    lemma_parse_u32_decimal(n);
    if field.len() == 0 || exists|j: int|
        0 <= j < field.len() && !is_digit(#[trigger] field[j]) && !(j == 0 && field[j] == '+') {
        lemma_parse_unsigned_refuses(field, u32::MAX as int);
    }
}

/// After the header, a line that continues a record is appended to it
/// with one space between, and a line that starts a record stands on its
/// own.
pub proof fn lemma_record_lines_joined(header: Seq<char>, first: Seq<char>, next: Seq<char>)
    requires
        starts_record(first),
    ensures
        !starts_record(next) ==> cleaned_csv(seq![header, first, next]) == seq![
            header,
            first + seq![' '] + next,
        ],
        starts_record(next) ==> cleaned_csv(seq![header, first, next]) == seq![header, first, next],
{
    reveal_strlit(" ");
    let lines = seq![header, first, next];
    let body = lines.drop_first();
    assert(body =~= seq![first, next]);
    assert(body.drop_last() =~= seq![first]);
    assert(seq![first].drop_last() =~= Seq::<Seq<char>>::empty());
    let s0 = csv_scan(Seq::<Seq<char>>::empty());
    assert(s0.current.len() == 0);
    let s1 = csv_scan(seq![first]);
    assert(s1 == CsvState { written: Seq::<Seq<char>>::empty(), current: seq![first] });
    let c2 = seq![first, next];
    if starts_record(next) {
        assert(join(seq![first], " "@) == first);
        assert(csv_scan(body) == CsvState { written: seq![first], current: seq![next] });
        assert(join(seq![next], " "@) == next);
        assert(cleaned_csv(lines) =~= seq![header, first, next]);
    } else {
        assert(seq![first].push(next) =~= c2);
        assert(csv_scan(body) == CsvState { written: Seq::<Seq<char>>::empty(), current: c2 });
        assert(c2.drop_last() =~= seq![first]);
        assert(join(c2, " "@) =~= first + seq![' '] + next);
        assert(cleaned_csv(lines) =~= seq![header, first + seq![' '] + next]);
    }
}

fn line_starts_record(line: &[char]) -> (b: bool)
    ensures
        b == starts_record(line@),
{
    let fields = split_chars(line, ',');
    proof {
        crate::text::lemma_split_on_nonempty(line@, ',');
    }
    assert(texts(fields@)[0] == fields@[0]@);
    parse_u32_chars(fields[0].as_slice()).is_ok()
}

/// The lines of a cleaned CSV file, from the lines of the file read.
pub fn clean_csv_lines(lines: &[String]) -> (out: Vec<String>)
    ensures
        string_views(out@) == cleaned_csv(string_views(lines@)),
{
    let ghost ls = string_views(lines@);
    if lines.len() == 0 {
        let out: Vec<String> = Vec::new();
        assert(string_views(out@) =~= cleaned_csv(ls));
        return out;
    }
    let mut out: Vec<String> = Vec::new();
    out.push(lines[0].clone());
    let ghost body = ls.drop_first();
    let space = chars_of(" ");
    let mut current: Vec<Vec<char>> = Vec::new();
    let mut i: usize = 1;
    assert(body.take(0) =~= Seq::<Seq<char>>::empty());
    assert(string_views(out@) =~= seq![ls[0]]);
    assert(texts(current@) =~= Seq::<Seq<char>>::empty());
    while i < lines.len()
        invariant
            ls == string_views(lines@),
            body == ls.drop_first(),
            space@ == " "@,
            1 <= i <= lines@.len(),
            string_views(out@) == seq![ls[0]] + csv_scan(body.take(i - 1)).written,
            texts(current@) == csv_scan(body.take(i - 1)).current,
        decreases lines@.len() - i,
    {
        assert(body.take(i as int).drop_last() =~= body.take(i - 1));
        assert(body.take(i as int).last() == lines@[i as int]@);
        let line = chars_of(lines[i].as_str());
        let ghost prev_out = string_views(out@);
        if line_starts_record(line.as_slice()) {
            if current.len() > 0 {
                let combined = join_chars(&current, space.as_slice());
                out.push(string_of(combined.as_slice()));
                assert(string_views(out@) =~= prev_out.push(combined@));
                current = Vec::new();
            }
            let ghost lv = line@;
            current.push(line);
            assert(texts(current@) =~= seq![lv]);
        } else if current.len() > 0 {
            let ghost prev_cur = texts(current@);
            let ghost lv = line@;
            current.push(line);
            assert(texts(current@) =~= prev_cur.push(lv));
        }
        i = i + 1;
    }
    assert(body.take(lines@.len() - 1) =~= body);
    if current.len() > 0 {
        let ghost prev_out = string_views(out@);
        let combined = join_chars(&current, space.as_slice());
        out.push(string_of(combined.as_slice()));
        assert(string_views(out@) =~= prev_out.push(combined@));
    }
    assert(string_views(out@) =~= cleaned_csv(ls));
    out
}

} // verus!
