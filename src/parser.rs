use vstd::prelude::*;

use crate::ast::{Document, DocumentContent, DocumentV};
use crate::body::blocks_at;
use crate::checkpoint_iterator::CheckpointIterator;
use crate::header::header_at;

verus! {

/// A failure to parse, located by stream positions.
#[derive(Debug, Clone, PartialEq, Eq)]
pub struct ParseError {
    pub start: usize,
    pub end: usize,
    pub message: String,
}

/// Where the parse of a document that starts at `i` goes to: past the header,
/// if there is one, then past the blocks.
pub open spec fn document_end(s: Seq<char>, i: int) -> int {
    let a = match header_at(s, i) {
        Some((h, e)) => e,
        None => i,
    };
    blocks_at(s, a).1
}

/// A document at `i`: an optional header, then blocks up to the end of the
/// input.
pub open spec fn document_at(s: Seq<char>, i: int) -> Option<DocumentV> {
    let (header, a) = match header_at(s, i) {
        Some((h, e)) => (Some(h), e),
        None => (None, i),
    };
    let (blocks, e) = blocks_at(s, a);
    if e == s.len() {
        Some(DocumentV { header, blocks })
    } else {
        None
    }
}

impl CheckpointIterator<char> {
    /// Reads a whole document (see `document_at`). Fails where some text
    /// after the last block is no block; the error is located there.
    pub fn parse_document(&mut self) -> (r: Result<Document, ParseError>)
        requires
            old(self).wf(),
        ensures
            final(self).wf(),
            match r {
                Ok(d) => document_at(old(self)@.items, old(self)@.pos as int) == Some(d@)
                    && final(self)@ == old(self)@.at(old(self)@.items.len()),
                Err(e) => document_at(old(self)@.items, old(self)@.pos as int) is None
                    && e.start == document_end(old(self)@.items, old(self)@.pos as int)
                    && e.end == e.start,
            },
    {
        let header = match self.parse_document_header() {
            Ok(h) => Some(h),
            Err(_) => None,
        };
        let content = match self.parse_document_content() {
            Ok(c) => c,
            Err(_) => DocumentContent { blocks: Vec::new() },
        };
        if self.at_end() {
            Ok(Document { header, content })
        } else {
            Err(self.error(String::from_str("expected a block")))
        }
    }

    /// Whether every item has been read.
    pub fn at_end(&mut self) -> (r: bool)
        requires
            old(self).wf(),
        ensures
            final(self).wf(),
            final(self)@ == old(self)@,
            r == (old(self)@.pos == old(self)@.items.len()),
    {
        proof {
            self.lemma_wf_model();
        }
        self.peek_item().is_none()
    }
}

} // verus!
