//! Table bootstrap: the checks and decoding that open a table file, and
//! the handle that serves lookups once open. The file reads themselves
//! are the caller's: this layer works on the bytes they produce.

use vstd::prelude::*;
use crate::errors::{RubbleError, RubbleResult};
use crate::status::Status;
use crate::table::format::{footer_parse, BlockContents, Footer, ENCODED_LENGTH};

verus! {

/// An open table: the decoded footer and the index block that locates
/// every data block. Immutable once constructed; the underlying file
/// stays with the caller.
pub struct Table {
    pub footer: Footer,
    pub index_block: BlockContents,
    /// Raw filter metadata, empty when no filter block was loaded.
    pub filter_data: Vec<u8>,
}

impl Table {
    /// Assembles a table handle from its decoded parts.
    pub fn new(footer: Footer, index_block: BlockContents, filter_data: Vec<u8>) -> (r: Table)
        ensures
            r.footer == footer,
            r.index_block.data@ == index_block.data@,
            r.index_block.cachable == index_block.cachable,
            r.filter_data@ == filter_data@,
    {
        Table { footer, index_block, filter_data }
    }

    /// The decoded footer.
    pub fn footer(&self) -> (r: &Footer)
        ensures
            r == &self.footer,
    {
        &self.footer
    }

    /// The decoded index block contents.
    pub fn index_block(&self) -> (r: &BlockContents)
        ensures
            r == &self.index_block,
    {
        &self.index_block
    }
}

/// The first steps of opening a table: reject a file too short to end in
/// a footer, then decode the footer from the file's last bytes. The
/// caller reads those bytes and resolves the returned handles.
pub fn decode_table_footer(footer_input: &[u8], file_size: u64) -> (r: RubbleResult<Footer>)
    requires
        footer_input@.len() >= ENCODED_LENGTH,
    ensures
        file_size < ENCODED_LENGTH ==> r is Err && r->Err_0.is_corruption(),
        file_size >= ENCODED_LENGTH ==> {
            &&& (r is Ok <==> footer_parse(footer_input@) is Some)
            &&& r is Ok ==> {
                let (mh, ih) = footer_parse(footer_input@)->0;
                r->Ok_0.metaindex_handle == mh && r->Ok_0.index_handle == ih
            }
        },
{
    if file_size < ENCODED_LENGTH as u64 {
        return Err(
            RubbleError::Status(
                Status::Corruption(String::from_str("file is too short to be an sstable")),
            ),
        );
    }
    let mut footer = Footer::new();
    match footer.decode_from(footer_input) {
        Ok(_) => Ok(footer),
        Err(e) => Err(e),
    }
}

/// The metaindex key under which a filter policy's block handle is
/// stored: `filter.` followed by the policy's name.
pub fn filter_block_key(policy_name: &str) -> (r: String)
    ensures
        r@ == "filter."@ + policy_name@,
{
    let mut r = String::from_str("filter.");
    r.append(policy_name);
    r
}

} // verus!
