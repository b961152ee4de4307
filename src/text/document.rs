use std::path::PathBuf;

use lazy_init::Lazy;

use vstd::prelude::*;
use vstd::string::StringSliceAdditionalSpecFns;

use crate::text::{line_breaks_of, LineMap};

verus! {

#[verifier::external_type_specification]
#[verifier::external_body]
#[verifier::reject_recursive_types(T)]
pub struct ExLazy<T>(Lazy<T>);

/// Relies on lazy_init's `Lazy::new`: an empty cell, filled on first use.
pub assume_specification<T>[ Lazy::<T>::new ]() -> Lazy<T>;

#[verifier::external_type_specification]
#[verifier::external_body]
pub struct ExPathBuf(PathBuf);

/// Represents a Document, which is a wrapper around a source code
/// file loaded into memory for compilation.
///
/// A `Document` owns the text it contains, so cloning it means copying
/// all the text contained within it.
pub struct Document {
    path: PathBuf,
    content: String,
    line_map: Lazy<LineMap>,
}

impl Document {
    pub closed spec fn spec_path(&self) -> PathBuf {
        self.path
    }

    pub closed spec fn spec_content(&self) -> Seq<char> {
        self.content@
    }

    /// Construct a new `Document`
    pub fn new(path: PathBuf, content: String) -> (r: Document)
        ensures
            r.spec_path() == path,
            r.spec_content() == content@,
    {
        Document { path, content, line_map: Lazy::new() }
    }

    pub fn path(&self) -> (r: &PathBuf)
        ensures
            *r == self.spec_path(),
    {
        &self.path
    }

    pub fn content(&self) -> (r: &str)
        ensures
            r@ == self.spec_content(),
    {
        self.content.as_str()
    }

    /// Get a `LineMap` representing the lines in the document
    ///
    /// The first call to this will cause the document to be parsed
    /// to find the line endings
    pub fn line_map(&self) -> (r: &LineMap)
        ensures
            r.wf(),
            r@ == line_breaks_of(vstd::utf8::encode_utf8(self.spec_content())),
    {
        cached_line_map(self)
    }
}

/// Relies on lazy_init's `Lazy::get_or_create`: the first call stores what the
/// closure returns, and every call returns the stored value. A document's cell
/// is filled only here, from the document's own content, which never changes.
#[verifier::external_body]
fn cached_line_map(doc: &Document) -> (r: &LineMap)
    ensures
        r.wf(),
        r@ == line_breaks_of(vstd::utf8::encode_utf8(doc.spec_content())),
{
    doc.line_map.get_or_create(|| LineMap::parse(&doc.content))
}

} // verus!
