//! An inode-shaped view of a file record, for tools that expect one.

use crate::direntry::{FileRecord, RecordView, ATTR_DIRECTORY};
use crate::table::{
    add_row, lemma_alphanumeric_plain, lemma_plain_concat, new_table, plain_text, table_rows,
    table_string, table_text,
};
use crate::text::{
    dec_string, dec_text, hex4_string, hex4_text, hex_string, hex_text, join2, lemma_hex4_text,
    lemma_number_text,
};
use vstd::prelude::*;

verus! {

/// A file record with its identifier, in the shape of an inode.
#[derive(Debug)]
pub struct ExInode {
    pub i_num: u64,
    pub attributes: u16,
    pub first_cluster: u32,
    pub size: u64,
    pub name: String,
}

/// An inode as plain values.
pub struct InodeView {
    pub i_num: u64,
    pub attributes: u16,
    pub first_cluster: u32,
    pub size: u64,
    pub name: Seq<char>,
}

/// The inode with identifier `i_num` that stands for the record `fr`.
pub open spec fn inode_of(i_num: u64, fr: RecordView) -> InodeView {
    InodeView {
        i_num,
        attributes: fr.attributes,
        first_cluster: fr.first_cluster,
        size: fr.size,
        name: fr.name,
    }
}

impl InodeView {
    /// Whether the directory bit is set among the attributes.
    pub open spec fn is_dir(self) -> bool {
        self.attributes & ATTR_DIRECTORY != 0
    }

    /// The rows of the summary: identifier and attributes in hexadecimal,
    /// first cluster and size in decimal, whether it is a directory, and
    /// the name.
    pub open spec fn summary_rows(self) -> Seq<(Seq<char>, Seq<char>)> {
        seq![
            ("Identifier"@, "0x"@ + hex_text(self.i_num as nat, false)),
            ("Attributes"@, "0x"@ + hex4_text(self.attributes, false)),
            ("First cluster"@, dec_text(self.first_cluster as nat)),
            ("Size"@, dec_text(self.size as nat)),
            ("Dir?"@, if self.is_dir() {
                "true"@
            } else {
                "false"@
            }),
            ("Name"@, self.name),
        ]
    }
}

impl View for ExInode {
    type V = InodeView;

    open spec fn view(&self) -> InodeView {
        InodeView {
            i_num: self.i_num,
            attributes: self.attributes,
            first_cluster: self.first_cluster,
            size: self.size,
            name: self.name@,
        }
    }
}

impl Clone for ExInode {
    fn clone(&self) -> (r: Self)
        ensures
            r == *self,
    {
        ExInode {
            i_num: self.i_num,
            attributes: self.attributes,
            first_cluster: self.first_cluster,
            size: self.size,
            name: self.name.clone(),
        }
    }
}

impl ExInode {
    /// The inode with identifier `i_num` for the record `fr`.
    pub fn from_record(i_num: u64, fr: &FileRecord) -> (r: Self)
        ensures
            r@ == inode_of(i_num, fr@),
    {
        Self {
            i_num,
            attributes: fr.attributes,
            first_cluster: fr.first_cluster,
            size: fr.size,
            name: fr.name.clone(),
        }
    }

    /// Size of the contents in bytes.
    pub fn size(&self) -> (r: u64)
        ensures
            r == self.size,
    {
        self.size
    }

    /// Whether the inode stands for a directory.
    pub fn is_dir(&self) -> (r: bool)
        ensures
            r == self@.is_dir(),
    {
        (self.attributes & ATTR_DIRECTORY) != 0
    }

    /// A table that sums the inode up. The name is to be plain text: one
    /// line, without escape sequences. `is_plain_text` tells.
    pub fn to_string(&self) -> (r: String)
        requires
            plain_text(self.name@),
        ensures
            r@ == table_text(self@.summary_rows()),
    {
        let ident = join2("0x", hex_string(self.i_num, false).as_str());
        let attrs = join2("0x", hex4_string(self.attributes, false).as_str());
        let dir: &str = if self.is_dir() {
            "true"
        } else {
            "false"
        };
        proof {
            reveal_strlit("Identifier");
            reveal_strlit("Attributes");
            reveal_strlit("First cluster");
            reveal_strlit("Size");
            reveal_strlit("Dir?");
            reveal_strlit("Name");
            reveal_strlit("0x");
            reveal_strlit("true");
            reveal_strlit("false");
            lemma_number_text(self.i_num as nat, false);
            lemma_number_text(self.first_cluster as nat, false);
            lemma_number_text(self.size as nat, false);
            lemma_hex4_text(self.attributes, false);
            lemma_alphanumeric_plain(hex_text(self.i_num as nat, false));
            lemma_alphanumeric_plain(hex4_text(self.attributes, false));
            lemma_alphanumeric_plain(dec_text(self.first_cluster as nat));
            lemma_alphanumeric_plain(dec_text(self.size as nat));
            assert(plain_text("0x"@));
            lemma_plain_concat("0x"@, hex_text(self.i_num as nat, false));
            lemma_plain_concat("0x"@, hex4_text(self.attributes, false));
        }
        let mut t = new_table();
        add_row(&mut t, "Identifier", ident.as_str());
        add_row(&mut t, "Attributes", attrs.as_str());
        add_row(&mut t, "First cluster", dec_string(self.first_cluster as u64).as_str());
        add_row(&mut t, "Size", dec_string(self.size).as_str());
        add_row(&mut t, "Dir?", dir);
        add_row(&mut t, "Name", self.name.as_str());
        assert(table_rows(t) =~= self@.summary_rows());
        table_string(&t)
    }

    /// Whether the inode stands for anything but a directory.
    pub fn is_regular_file(&self) -> (r: bool)
        ensures
            r == !self@.is_dir(),
    {
        !self.is_dir()
    }
}

} // verus!
