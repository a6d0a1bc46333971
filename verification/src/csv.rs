//! CSV line rendering for evaluation data. Rendering a header or a row is
//! pure string work and is done here; opening files and writing bytes is the
//! surrounding program's concern.

use vstd::prelude::*;

verus! {

/// The columns joined by single commas, in order.
pub open spec fn spec_join_commas(cols: Seq<String>) -> Seq<char>
    decreases cols.len(),
{
    if cols.len() == 0 {
        Seq::empty()
    } else if cols.len() == 1 {
        cols[0]@
    } else {
        spec_join_commas(cols.drop_last()) + seq![','] + cols.last()@
    }
}

/// One CSV line: the columns joined by commas, ended by a newline.
pub open spec fn spec_csv_line(cols: Seq<String>) -> Seq<char> {
    spec_join_commas(cols).push('\n')
}

/// Renders CSV lines for one output file and remembers the column count the
/// header fixed, so every data row is held to it.
pub struct CSVDataWriter {
    base_path: String,
    columns: u8,
}

impl CSVDataWriter {
    /// The directory the caller writes the per-test files into.
    pub closed spec fn spec_base_path(self) -> Seq<char> {
        self.base_path@
    }

    /// The column count the header fixed; zero until a header was rendered.
    pub closed spec fn spec_columns(self) -> u8 {
        self.columns
    }

    pub fn new(base_path: &str) -> (r: CSVDataWriter)
        ensures
            r.spec_base_path() == base_path@,
            r.spec_columns() == 0,
    {
        CSVDataWriter { base_path: base_path.to_owned(), columns: 0 }
    }

    /// The directory the caller writes the per-test files into.
    pub fn get_base_path(&self) -> (r: &str)
        ensures
            r@ == self.spec_base_path(),
    {
        self.base_path.as_str()
    }

    /// Render the header line and fix the column count for the rows to come.
    pub fn write_header(&mut self, columns: &Vec<String>) -> (line: String)
        requires
            0 < columns@.len() < 256,
        ensures
            line@ == spec_csv_line(columns@),
            final(self).spec_columns() == columns@.len(),
            final(self).spec_base_path() == old(self).spec_base_path(),
    {
        self.columns = columns.len() as u8;
        join_commas_line(columns)
    }

    /// Render one data row; a row with a column count other than the
    /// header's is refused.
    pub fn write_columns(&self, data: &Vec<String>) -> (r: Result<String, String>)
        requires
            0 < data@.len() < 256,
        ensures
            data@.len() == self.spec_columns() ==> (r matches Ok(line) && line@ == spec_csv_line(
                data@,
            )),
            data@.len() != self.spec_columns() ==> r is Err,
    {
        if data.len() != self.columns as usize {
            Err(String::from_str("inconsistent column count"))
        } else {
            Ok(join_commas_line(data))
        }
    }
}

/// The columns joined by commas, ended by a newline.
fn join_commas_line(cols: &Vec<String>) -> (line: String)
    ensures
        line@ == spec_csv_line(cols@),
{
    let mut line = String::new();
    let mut k: usize = 0;
    while k < cols.len()
        invariant
            k <= cols@.len(),
            line@ == spec_join_commas(cols@.subrange(0, k as int)),
        decreases cols@.len() - k,
    {
        if k > 0 {
            line.append(",");
            proof {
                reveal_strlit(",");
            }
        }
        line.append(cols[k].as_str());
        k = k + 1;
        proof {
            let next = cols@.subrange(0, k as int);
            assert(next.drop_last() =~= cols@.subrange(0, k - 1 as int));
            assert(next.last() == cols@[k - 1]);
            assert(line@ =~= spec_join_commas(next));
        }
    }
    assert(cols@.subrange(0, cols@.len() as int) =~= cols@);
    line.append("\n");
    proof {
        reveal_strlit("\n");
        assert(line@ =~= spec_csv_line(cols@));
    }
    line
}

} // verus!
