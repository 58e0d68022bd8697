use vstd::prelude::*;
use crate::error::Error;

verus! {

/// How the report is rendered.
#[derive(Debug, Clone, Copy, PartialEq, Eq, Structural)]
pub enum Format {
    Table,
    CSV,
}

pub open spec fn table_name() -> Seq<char> {
    seq!['t', 'a', 'b', 'l', 'e']
}

pub open spec fn csv_name() -> Seq<char> {
    seq!['c', 's', 'v']
}

/// Whether `s` spells out `word`.
pub(crate) fn spells(s: &str, word: &[char]) -> (r: bool)
    ensures
        r == (s@ == word@),
{
    let n = s.unicode_len();
    if n != word.len() {
        return false;
    }
    let mut i: usize = 0;
    while i < n
        invariant
            n == s@.len(),
            n == word@.len(),
            i <= n,
            forall|k: int| 0 <= k < i ==> s@[k] == word@[k],
        decreases n - i,
    {
        if s.get_char(i) != word[i] {
            return false;
        }
        i = i + 1;
    }
    assert(s@ =~= word@);
    true
}

/// Reads an output format name: `table` or `csv`; any other name is an
/// error that carries it.
pub fn parse_format(src: &str) -> (r: Result<Format, Error>)
    ensures
        r == Ok::<Format, Error>(Format::Table) <==> src@ == table_name(),
        r == Ok::<Format, Error>(Format::CSV) <==> src@ == csv_name(),
        r is Err <==> src@ != table_name() && src@ != csv_name(),
        r matches Err(e) ==> e matches Error::PARSEFORMAT(name) && name@ == src@,
{
    let table = ['t', 'a', 'b', 'l', 'e'];
    let csv = ['c', 's', 'v'];
    assert(table@ =~= table_name());
    assert(csv@ =~= csv_name());
    if spells(src, &table) {
        Ok(Format::Table)
    } else if spells(src, &csv) {
        Ok(Format::CSV)
    } else {
        Err(Error::PARSEFORMAT(src.to_owned()))
    }
}

} // verus!
