//! A tab-separated dataset: on each line a label followed by its features,
//! each a decimal literal, and the lines in the order of the rows.

use crate::decimal::{decimal_raw, parse_decimal};
use crate::fixed::Fixed;
use vstd::prelude::*;
use vstd::slice::slice_subrange;

verus! {

/// The byte that separates the fields of a record.
pub const TAB: u8 = 9;

/// Why a line is not a record.
#[derive(Clone, Copy, Debug, PartialEq, Eq, Structural)]
pub enum RecordError {
    /// The line does not have one label and the expected number of features.
    FieldCount,
    /// Some field is not a decimal literal of a representable number.
    Number,
}

/// The fields of a line, read byte by byte: a tab opens a new, empty field,
/// and any other byte is appended to the field that is open.
pub open spec fn split_fields(line: Seq<u8>) -> Seq<Seq<u8>>
    decreases line.len(),
{
    if line.len() == 0 {
        seq![Seq::<u8>::empty()]
    } else {
        let before = split_fields(line.drop_last());
        if line.last() == TAB {
            before.push(Seq::<u8>::empty())
        } else {
            before.drop_last().push(before.last().push(line.last()))
        }
    }
}

/// Whether every field is a decimal literal of a representable number.
pub open spec fn all_numbers(fields: Seq<Seq<u8>>) -> bool {
    forall|i: int| 0 <= i < fields.len() ==> decimal_raw(#[trigger] fields[i]) is Some
}

/// The features and the label that a line with `d` features stands for, or
/// the reason for which it stands for none. The field count is judged
/// before the fields themselves.
pub open spec fn record_model(line: Seq<u8>, d: nat) -> Result<(Seq<int>, int), RecordError> {
    let fields = split_fields(line);
    if fields.len() != d + 1 {
        Err(RecordError::FieldCount)
    } else if !all_numbers(fields) {
        Err(RecordError::Number)
    } else {
        Ok(
            (
                Seq::new(d, |j: int| decimal_raw(fields[j + 1]).unwrap()),
                decimal_raw(fields[0]).unwrap(),
            ),
        )
    }
}

/// Where field `j` ends, given where each field starts and where the text
/// read so far ends: just before the tab that opens the next field.
spec fn field_end(starts: Seq<usize>, end: int, j: int) -> int {
    if j + 1 < starts.len() {
        starts[j + 1] - 1
    } else {
        end
    }
}

/// `starts` marks the fields of the first `end` bytes of `line`.
spec fn marks_fields(line: Seq<u8>, starts: Seq<usize>, end: int) -> bool {
    let fields = split_fields(line.subrange(0, end));
    &&& starts.len() == fields.len()
    &&& forall|j: int|
        0 <= j < starts.len() ==> 0 <= #[trigger] starts[j] <= field_end(starts, end, j) <= end
    &&& forall|j: int|
        0 <= j < starts.len() ==> #[trigger] fields[j] == line.subrange(
            starts[j] as int,
            field_end(starts, end, j),
        )
}

fn field_starts(line: &[u8]) -> (starts: Vec<usize>)
    ensures
        marks_fields(line@, starts@, line@.len() as int),
        starts@.len() >= 1,
{
    let n: usize = line.len();
    let mut starts: Vec<usize> = Vec::new();
    starts.push(0);
    assert(line@.subrange(0, 0) =~= Seq::<u8>::empty());
    assert(split_fields(line@.subrange(0, 0))[0] =~= line@.subrange(0, 0));
    let mut i: usize = 0;
    while i < n
        invariant
            n == line@.len(),
            i <= n,
            starts@.len() >= 1,
            marks_fields(line@, starts@, i as int),
        decreases n - i,
    {
        let ghost seen = line@.subrange(0, i as int);
        let ghost next = line@.subrange(0, i + 1);
        let ghost before = split_fields(seen);
        let ghost old_starts = starts@;
        proof {
            assert(next.drop_last() =~= seen);
            assert(next.last() == line@[i as int]);
        }
        if line[i] == TAB {
            starts.push(i + 1);
            proof {
                let after = split_fields(next);
                assert(after == before.push(Seq::<u8>::empty()));
                assert forall|j: int| 0 <= j < starts@.len() implies 0 <= #[trigger] starts@[j]
                    <= field_end(starts@, i + 1, j) <= i + 1 by {
                    if j < old_starts.len() {
                        assert(starts@[j] == old_starts[j]);
                        assert(old_starts[j] <= field_end(old_starts, i as int, j));
                    }
                }
                assert forall|j: int| 0 <= j < starts@.len() implies #[trigger] after[j]
                    == line@.subrange(starts@[j] as int, field_end(starts@, i + 1, j)) by {
                    if j < old_starts.len() {
                        assert(starts@[j] == old_starts[j]);
                        assert(before[j] == line@.subrange(
                            old_starts[j] as int,
                            field_end(old_starts, i as int, j),
                        ));
                        assert(field_end(starts@, i + 1, j) == field_end(old_starts, i as int, j));
                    } else {
                        assert(line@.subrange(i + 1, i + 1) =~= Seq::<u8>::empty());
                    }
                }
            }
        } else {
            proof {
                let after = split_fields(next);
                let last = before.len() - 1;
                assert(after == before.drop_last().push(before.last().push(line@[i as int])));
                assert forall|j: int| 0 <= j < starts@.len() implies 0 <= #[trigger] starts@[j]
                    <= field_end(starts@, i + 1, j) <= i + 1 by {
                    assert(old_starts[j] <= field_end(old_starts, i as int, j));
                }
                assert forall|j: int| 0 <= j < starts@.len() implies #[trigger] after[j]
                    == line@.subrange(starts@[j] as int, field_end(starts@, i + 1, j)) by {
                    assert(before[j] == line@.subrange(
                        old_starts[j] as int,
                        field_end(old_starts, i as int, j),
                    ));
                    if j == last {
                        assert(line@.subrange(starts@[j] as int, i as int).push(line@[i as int])
                            =~= line@.subrange(starts@[j] as int, i + 1));
                    }
                }
            }
        }
        i = i + 1;
    }
    assert(line@.subrange(0, n as int) =~= line@);
    starts
}

/// Reads one line as a record of a label and `d` features. The line carries
/// no line terminator.
///
/// Fails with `FieldCount` when the line does not have `d + 1` fields, and
/// otherwise with `Number` when some field is not a decimal literal of a
/// representable number.
pub fn parse_record(line: &[u8], d: usize) -> (r: Result<(Vec<Fixed>, Fixed), RecordError>)
    ensures
        match r {
            Ok(record) => record_model(line@, d as nat) == Ok::<(Seq<int>, int), RecordError>(
                record.deep_view(),
            ),
            Err(e) => record_model(line@, d as nat) == Err::<(Seq<int>, int), RecordError>(e),
        },
{
    let n: usize = line.len();
    let starts: Vec<usize> = field_starts(line);
    let count: usize = starts.len();
    let ghost fields = split_fields(line@);
    assert(line@.subrange(0, n as int) =~= line@);
    if count - 1 != d {
        return Err(RecordError::FieldCount);
    }
    let mut label: Fixed = Fixed::zero();
    let mut features: Vec<Fixed> = Vec::with_capacity(d);
    let mut j: usize = 0;
    while j < count
        invariant
            n == line@.len(),
            count == starts@.len(),
            count == d + 1,
            fields == split_fields(line@),
            fields.len() == count,
            marks_fields(line@, starts@, n as int),
            j <= count,
            forall|m: int| 0 <= m < j ==> decimal_raw(#[trigger] fields[m]) is Some,
            j >= 1 ==> label@ == decimal_raw(fields[0]).unwrap(),
            j >= 1 ==> features@.len() == j - 1,
            j == 0 ==> features@.len() == 0,
            forall|m: int|
                0 <= m < features@.len() ==> (#[trigger] features@[m])@ == decimal_raw(
                    fields[m + 1],
                ).unwrap(),
        decreases count - j,
    {
        assert(line@.subrange(0, n as int) =~= line@);
        assert(starts@[j as int] <= field_end(starts@, n as int, j as int) <= n);
        let lo: usize = starts[j];
        let hi: usize = if j + 1 < count {
            starts[j + 1] - 1
        } else {
            n
        };
        let token: &[u8] = slice_subrange(line, lo, hi);
        assert(token@ == fields[j as int]);
        match parse_decimal(token) {
            None => {
                return Err(RecordError::Number);
            },
            Some(v) => {
                if j == 0 {
                    label = v;
                } else {
                    features.push(v);
                }
            },
        }
        j = j + 1;
    }
    assert(features.deep_view() =~= Seq::new(
        d as nat,
        |m: int| decimal_raw(fields[m + 1]).unwrap(),
    ));
    Ok((features, label))
}

/// Line `i` is the first that is no record, and `e` is why.
pub open spec fn fails_first_at(lines: Seq<Vec<u8>>, d: nat, i: int, e: RecordError) -> bool {
    &&& 0 <= i < lines.len()
    &&& record_model(lines[i]@, d) == Err::<(Seq<int>, int), RecordError>(e)
    &&& forall|j: int| 0 <= j < i ==> record_model(#[trigger] lines[j]@, d) is Ok
}

/// Reads the lines of a dataset, each a record of a label and `d` features,
/// into its rows and its labels, in the order of the lines. No lines give an
/// empty dataset.
///
/// Fails with the error of the first line that is no record.
pub fn parse_dataset(lines: &Vec<Vec<u8>>, d: usize) -> (r: Result<
    (Vec<Vec<Fixed>>, Vec<Fixed>),
    RecordError,
>)
    ensures
        match r {
            Ok(ds) => {
                &&& ds.0@.len() == lines@.len()
                &&& ds.1@.len() == lines@.len()
                &&& forall|i: int|
                    0 <= i < lines@.len() ==> record_model(#[trigger] lines@[i]@, d as nat) == Ok::<
                        (Seq<int>, int),
                        RecordError,
                    >((ds.0.deep_view()[i], ds.1.deep_view()[i]))
            },
            Err(e) => exists|i: int| fails_first_at(lines@, d as nat, i, e),
        },
{
    let n: usize = lines.len();
    let mut features: Vec<Vec<Fixed>> = Vec::new();
    let mut labels: Vec<Fixed> = Vec::new();
    let mut i: usize = 0;
    while i < n
        invariant
            n == lines@.len(),
            i <= n,
            features@.len() == i,
            labels@.len() == i,
            forall|j: int|
                0 <= j < i ==> record_model(#[trigger] lines@[j]@, d as nat) == Ok::<
                    (Seq<int>, int),
                    RecordError,
                >((features@[j].deep_view(), labels@[j]@)),
        decreases n - i,
    {
        match parse_record(lines[i].as_slice(), d) {
            Err(e) => {
                assert(fails_first_at(lines@, d as nat, i as int, e));
                return Err(e);
            },
            Ok(record) => {
                features.push(record.0);
                labels.push(record.1);
            },
        }
        i = i + 1;
    }
    assert forall|j: int| 0 <= j < lines@.len() implies record_model(
        #[trigger] lines@[j]@,
        d as nat,
    ) == Ok::<(Seq<int>, int), RecordError>(
        (features.deep_view()[j], labels.deep_view()[j]),
    ) by {
        assert(features.deep_view()[j] == features@[j].deep_view());
        assert(labels.deep_view()[j] == labels@[j]@);
    }
    Ok((features, labels))
}

} // verus!
