//! Two-column tables of labels and values, rendered as text.

use crate::text::alphanumeric;
use vstd::prelude::*;
use vstd::string::StrSliceExecFns;

verus! {

/// Whether `c` is neither the escape character nor a line feed nor a
/// carriage return.
pub open spec fn plain_char(c: char) -> bool {
    c != '\u{1b}' && c != '\n' && c != '\r'
}

/// Whether `s` is text of one line without escape sequences: text that a
/// cell of a table holds as it is.
pub open spec fn plain_text(s: Seq<char>) -> bool {
    forall|i: int| 0 <= i < s.len() ==> plain_char(#[trigger] s[i])
}

/// Whether `s` is text that a cell of a table holds as it is.
pub fn is_plain_text(s: &str) -> (r: bool)
    ensures
        r == plain_text(s@),
{
    let n = s.unicode_len();
    let mut i: usize = 0;
    while i < n
        invariant
            i <= n,
            n == s@.len(),
            forall|j: int| 0 <= j < i ==> plain_char(#[trigger] s@[j]),
        decreases n - i,
    {
        let c = s.get_char(i);
        if c == '\u{1b}' || c == '\n' || c == '\r' {
            return false;
        }
        i += 1;
    }
    true
}

/// Text of digits and letters is plain text.
pub proof fn lemma_alphanumeric_plain(s: Seq<char>)
    requires
        alphanumeric(s),
    ensures
        plain_text(s),
{
    assert forall|i: int| 0 <= i < s.len() implies plain_char(#[trigger] s[i]) by {}
}

/// Plain text after plain text is plain text.
pub proof fn lemma_plain_concat(a: Seq<char>, b: Seq<char>)
    requires
        plain_text(a),
        plain_text(b),
    ensures
        plain_text(a + b),
{
    assert forall|i: int| 0 <= i < (a + b).len() implies plain_char(#[trigger] (a + b)[i]) by {
        if i < a.len() {
            assert((a + b)[i] == a[i]);
        } else {
            assert((a + b)[i] == b[i - a.len()]);
        }
    }
}

/// `prettytable::Table`: a table of rows of cells. What it holds is known
/// only through `table_rows`.
#[verifier::external_type_specification]
#[verifier::external_body]
pub struct ExTable(prettytable::Table);

/// The rows of the table `t`, in order: the text of the first cell and that
/// of the second, for a table whose cells were made of plain text.
pub uninterp spec fn table_rows(t: prettytable::Table) -> Seq<(Seq<char>, Seq<char>)>;

/// The text that a table with the rows `rows` is rendered as.
pub uninterp spec fn table_text(rows: Seq<(Seq<char>, Seq<char>)>) -> Seq<char>;

/// `prettytable::Table::new`: a table without rows or titles, in the
/// default format.
#[verifier::external_body]
pub(crate) fn new_table() -> (t: prettytable::Table)
    ensures
        table_rows(t) == Seq::<(Seq<char>, Seq<char>)>::empty(),
{
    prettytable::Table::new()
}

/// `prettytable::Table::add_row`: appends one row, here of two cells that
/// `prettytable::Cell::new` makes of `label` and `value`. A cell keeps the
/// lines of its text and measures each; the measuring gives up on some text
/// with escape sequences. So both are to be plain text: then each cell
/// holds its text as one line, or no line where the text is empty.
#[verifier::external_body]
pub(crate) fn add_row(t: &mut prettytable::Table, label: &str, value: &str)
    requires
        plain_text(label@),
        plain_text(value@),
    ensures
        table_rows(*final(t)) == table_rows(*old(t)).push((label@, value@)),
{
    let cells = vec![prettytable::Cell::new(label), prettytable::Cell::new(value)];
    t.add_row(prettytable::Row::new(cells));
}

/// `<prettytable::Table as Display>::fmt`, by way of `to_string`: the table
/// as text. For a table in the default format, with line ends of one byte,
/// the text depends on the cells alone; the contract names it and says
/// nothing of its contents.
#[verifier::external_body]
pub(crate) fn table_string(t: &prettytable::Table) -> (r: String)
    ensures
        r@ == table_text(table_rows(*t)),
{
    t.to_string()
}

} // verus!
