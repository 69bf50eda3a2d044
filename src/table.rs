//! The metadata table: one row per indexed file, directories in path
//! order and files in their stored order, each row holding the file's full
//! path, size, and change and modification times.

use crate::paths::{join, join_path};
use crate::state::{FileInfo, Record, ScanState};
use crate::text::{decimal, format_i64, format_u64, signed_decimal};
use vstd::prelude::*;

verus! {

/// One row of the table, as text.
#[derive(Debug)]
pub struct CsvRow {
    pub path: String,
    pub size: String,
    pub ctime: String,
    pub mtime: String,
}

/// A row as plain values.
pub struct RowText {
    pub path: Seq<char>,
    pub size: Seq<char>,
    pub ctime: Seq<char>,
    pub mtime: Seq<char>,
}

impl View for CsvRow {
    type V = RowText;

    open spec fn view(&self) -> RowText {
        RowText { path: self.path@, size: self.size@, ctime: self.ctime@, mtime: self.mtime@ }
    }
}

/// The row of file `f` of directory `dir`.
pub open spec fn file_row(dir: Seq<char>, f: FileInfo) -> RowText {
    RowText {
        path: join_path(dir, f.filename),
        size: decimal(f.size as nat),
        ctime: signed_decimal(f.ctime as int),
        mtime: signed_decimal(f.mtime as int),
    }
}

/// The rows of the index: directory after directory, in path order.
pub open spec fn table_rows(records: Seq<Record>) -> Seq<RowText>
    decreases records.len(),
{
    if records.len() == 0 {
        Seq::empty()
    } else {
        table_rows(records.drop_last()) + records.last().1.files.map_values(
            |f: FileInfo| file_row(records.last().0, f),
        )
    }
}

/// The plain values of each row.
pub open spec fn row_texts(rows: Seq<CsvRow>) -> Seq<RowText> {
    rows.map_values(|r: CsvRow| r@)
}

/// The table's rows, as `table_rows` says.
pub fn csv_rows(state: &ScanState) -> (r: Vec<CsvRow>)
    ensures
        row_texts(r@) == table_rows(state@),
{
    let mut rows: Vec<CsvRow> = Vec::new();
    let n = state.len();
    let mut i: usize = 0;
    while i < n
        invariant
            i <= n == state@.len(),
            row_texts(rows@) == table_rows(state@.take(i as int)),
        decreases n - i,
    {
        let (dir, entry) = state.entry_at(i);
        let ghost before = row_texts(rows@);
        let ghost files = state@[i as int].1.files;
        let ghost key = state@[i as int].0;
        let mut j: usize = 0;
        while j < entry.files.len()
            invariant
                i < n == state@.len(),
                j <= entry.files@.len() == files.len(),
                entry@ == state@[i as int].1,
                files == state@[i as int].1.files,
                dir@ == key,
                row_texts(rows@) == before + files.take(j as int).map_values(
                    |f: FileInfo| file_row(key, f),
                ),
            decreases entry.files@.len() - j,
        {
            let f = &entry.files[j];
            assert(files[j as int] == entry.files@[j as int]@);
            assert(f@ == files[j as int]);
            let row = CsvRow {
                path: join(dir.as_str(), f.filename.as_str()),
                size: format_u64(f.size),
                ctime: format_i64(f.ctime),
                mtime: format_i64(f.mtime),
            };
            let ghost prev = row_texts(rows@);
            rows.push(row);
            assert(row_texts(rows@) =~= prev.push(file_row(key, files[j as int])));
            assert(files.take(j + 1) =~= files.take(j as int).push(files[j as int]));
            assert(files.take(j + 1).map_values(|f: FileInfo| file_row(key, f)) =~= files.take(
                j as int,
            ).map_values(|f: FileInfo| file_row(key, f)).push(file_row(key, files[j as int])));
            j = j + 1;
        }
        assert(files.take(j as int) =~= files);
        assert(state@.take(i + 1).drop_last() =~= state@.take(i as int));
        assert(state@.take(i + 1).last() == state@[i as int]);
        i = i + 1;
    }
    assert(state@.take(n as int) =~= state@);
    rows
}

} // verus!
