//! Layout of the canonical segment store kept by the origin.
//!
//! Segments live at `{root}/{channel}/{rendition}/{sequence}.{ext}`; the
//! file operations themselves are done by the caller.
use vstd::prelude::*;

use std::path::PathBuf;

use crate::domain::segment::{
    SegmentPath, filename_message, filename_text, parse_filename, parse_filename_spec,
    render_filename,
};
use crate::error::EdamameError;
use crate::text::owned_text;

verus! {

#[verifier::external_type_specification]
#[verifier::external_body]
pub struct ExPathBuf(std::path::PathBuf);

/// The canonical store rooted at a local directory.
#[derive(Debug)]
pub struct CanonicalStore {
    root: PathBuf,
}

impl CanonicalStore {
    pub closed spec fn root_spec(&self) -> PathBuf {
        self.root
    }

    /// A store rooted at `root` (created lazily on first write).
    pub fn new(root: PathBuf) -> (s: CanonicalStore)
        ensures
            s.root_spec() == root,
    {
        CanonicalStore { root }
    }

    /// The directory the store is rooted at.
    pub fn root(&self) -> (r: &PathBuf)
        ensures
            *r == self.root_spec(),
    {
        &self.root
    }

    /// Where the canonical bytes of a segment are written.
    pub fn segment_path(&self, channel: &str, rendition: &str, sequence: u64, ext: &str) -> (p:
        SegmentPath)
        ensures
            p.channel@ == channel@,
            p.rendition@ == rendition@,
            p.file_name@ == filename_text(sequence, ext@),
    {
        SegmentPath {
            channel: owned_text(channel),
            rendition: owned_text(rendition),
            file_name: render_filename(sequence, ext),
        }
    }

    /// Where the segment a URL filename names is read from: the filename is
    /// parsed and rendered back canonically.
    pub fn locate_segment(&self, channel: &str, rendition: &str, filename: &str) -> (r: Result<
        SegmentPath,
        EdamameError,
    >)
        ensures
            match parse_filename_spec(filename@) {
                Ok((n, e)) => r matches Ok(p) && p.channel@ == channel@ && p.rendition@ == rendition@
                    && p.file_name@ == filename_text(n, e),
                Err(fault) => r matches Err(EdamameError::BadRequest(m)) && m@ == filename_message(
                    fault,
                    filename@,
                ),
            },
    {
        let (sequence, ext) = parse_filename(filename)?;
        Ok(self.segment_path(channel, rendition, sequence, ext.as_str()))
    }
}

} // verus!
