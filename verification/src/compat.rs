//! A directory entry in the shape that tools for ext-family file systems use.

use crate::text::{dec_string, dec_text, hex_string, hex_text};
use vstd::prelude::*;
use vstd::string::StringExecFns;
use vstd::utf8::encode_utf8;

verus! {

/// Record length that every entry reports.
pub const COMPAT_REC_LEN: u16 = 32;

/// File type of a regular file.
pub const FT_REGULAR: u8 = 1;

/// File type of a directory.
pub const FT_DIRECTORY: u8 = 2;

/// A directory entry as tools for ext-family file systems know it: an
/// inode number, a record length, a file type and a name.
#[derive(Debug)]
pub struct CompatDirEntry {
    pub inode: u64,
    pub rec_len: u16,
    pub file_type: u8,
    pub name: String,
}

/// A directory entry as plain values.
pub struct CompatView {
    pub inode: u64,
    pub rec_len: u16,
    pub file_type: u8,
    pub name: Seq<char>,
}

/// The entry for the name `name` with identifier `inode`.
pub open spec fn compat_of(name: Seq<char>, inode: u64, is_dir: bool) -> CompatView {
    CompatView {
        inode,
        rec_len: COMPAT_REC_LEN,
        file_type: if is_dir {
            FT_DIRECTORY
        } else {
            FT_REGULAR
        },
        name,
    }
}

impl CompatView {
    /// One line for the entry: identifier, name, file type in hexadecimal.
    /// An entry without a name shows a question mark.
    pub open spec fn text(self) -> Seq<char> {
        if self.name.len() != 0 {
            dec_text(self.inode as nat) + " :  "@ + self.name + " : 0x"@ + hex_text(
                self.file_type as nat,
                false,
            )
        } else {
            dec_text(self.inode as nat) + " :  ? : 0x"@ + hex_text(self.file_type as nat, false)
        }
    }
}

impl View for CompatDirEntry {
    type V = CompatView;

    open spec fn view(&self) -> CompatView {
        CompatView {
            inode: self.inode,
            rec_len: self.rec_len,
            file_type: self.file_type,
            name: self.name@,
        }
    }
}

impl Clone for CompatDirEntry {
    fn clone(&self) -> (r: Self)
        ensures
            r == *self,
    {
        CompatDirEntry {
            inode: self.inode,
            rec_len: self.rec_len,
            file_type: self.file_type,
            name: self.name.clone(),
        }
    }
}

impl CompatDirEntry {
    /// The entry for `name` with identifier `inode`: file type 2 for a
    /// directory, 1 for anything else.
    pub fn from_name_inode(name: &str, inode: u64, is_dir: bool) -> (r: Self)
        ensures
            r@ == compat_of(name@, inode, is_dir),
    {
        let file_type = if is_dir {
            FT_DIRECTORY
        } else {
            FT_REGULAR
        };
        Self { inode, rec_len: COMPAT_REC_LEN, file_type, name: String::from_str(name) }
    }

    /// One line for the entry.
    pub fn to_string(&self) -> (r: String)
        ensures
            r@ == self@.text(),
    {
        let mut s = dec_string(self.inode);
        if !self.name.as_str().is_empty() {
            s.append(" :  ");
            s.append(self.name.as_str());
            s.append(" : 0x");
        } else {
            s.append(" :  ? : 0x");
        }
        s.append(hex_string(self.file_type as u64, false).as_str());
        s
    }
}

/// The directory entries of `s` as plain values.
pub open spec fn compat_views(s: Seq<CompatDirEntry>) -> Seq<CompatView> {
    s.map_values(|e: CompatDirEntry| e@)
}

/// Whether the bytes `a` come before the bytes `b` in lexicographic order,
/// given that the two agree before position `i`.
pub open spec fn bytes_before(a: Seq<u8>, b: Seq<u8>, i: int) -> bool
    decreases b.len() - i,
{
    if i < 0 || i >= b.len() {
        false
    } else if i >= a.len() {
        true
    } else if a[i] != b[i] {
        a[i] < b[i]
    } else {
        bytes_before(a, b, i + 1)
    }
}

/// Whether the name `a` comes before the name `b`: by the bytes of their
/// UTF-8 encodings, in lexicographic order.
pub open spec fn name_before(a: Seq<char>, b: Seq<char>) -> bool {
    bytes_before(encode_utf8(a), encode_utf8(b), 0)
}

/// Whether the name `a` comes before the name `b`.
pub fn comes_before(a: &str, b: &str) -> (r: bool)
    ensures
        r == name_before(a@, b@),
{
    let x = a.as_bytes();
    let y = b.as_bytes();
    let mut i: usize = 0;
    while i < x.len() && i < y.len()
        invariant
            i <= x.len(),
            i <= y.len(),
            x@ == encode_utf8(a@),
            y@ == encode_utf8(b@),
            bytes_before(x@, y@, 0) == bytes_before(x@, y@, i as int),
        decreases x.len() - i,
    {
        if x[i] != y[i] {
            return x[i] < y[i];
        }
        i += 1;
    }
    i < y.len()
}

/// Whether no entry of `s` comes before one that stands earlier.
pub open spec fn sorted_by_name(s: Seq<CompatView>) -> bool {
    forall|i: int, j: int| 0 <= i < j < s.len() ==> !name_before(s[j].name, s[i].name)
}

/// The entries of `s` whose name is `n`, in their order.
pub open spec fn of_name(s: Seq<CompatView>, n: Seq<char>) -> Seq<CompatView> {
    s.filter(|e: CompatView| e.name == n)
}

/// Whether the entries of one name stand in `b` as they stand in `a`,
/// whatever the name.
pub open spec fn same_order_within_names(a: Seq<CompatView>, b: Seq<CompatView>) -> bool {
    forall|n: Seq<char>| #[trigger] of_name(a, n) == of_name(b, n)
}

/// Whether `output` is `input` sorted by name, with entries of one name
/// left in their order.
pub open spec fn is_stable_sort(input: Seq<CompatView>, output: Seq<CompatView>) -> bool {
    &&& output.len() == input.len()
    &&& output.to_multiset() == input.to_multiset()
    &&& sorted_by_name(output)
    &&& same_order_within_names(input, output)
}

} // verus!
