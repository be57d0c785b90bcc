//! Prewarm: which segment a prewarm instruction targets.
use vstd::prelude::*;

use crate::domain::segment::{
    FilenameFault, SegmentId, filename_message, identifier_message, parse_filename,
    parse_filename_spec, valid_identifier,
};
use crate::error::EdamameError;

verus! {

/// Body of a prewarm instruction: the URL to pull the segment from.
#[derive(Debug, Clone, PartialEq, Eq)]
pub struct PrewarmRequest {
    pub origin_url: String,
}

/// The identity and extension a segment request names: the segment a
/// prewarm instruction retains, or the one a node is asked to serve.
///
/// The filename is checked first, then the channel and rendition.
pub fn prewarm_target(channel: &str, rendition: &str, filename: &str) -> (r: Result<
    (SegmentId, String),
    EdamameError,
>)
    ensures
        match parse_filename_spec(filename@) {
            Err(fault) => r matches Err(EdamameError::BadRequest(m)) && m@ == filename_message(
                fault,
                filename@,
            ),
            Ok((n, e)) => {
                &&& !valid_identifier(channel@) ==> (r matches Err(EdamameError::BadRequest(m))
                    && m@ == identifier_message("channel"@, channel@))
                &&& valid_identifier(channel@) && !valid_identifier(rendition@) ==> (r matches Err(
                    EdamameError::BadRequest(m),
                ) && m@ == identifier_message("rendition"@, rendition@))
                &&& valid_identifier(channel@) && valid_identifier(rendition@) ==> (r matches Ok(
                    (id, x),
                ) && id@ == (channel@, rendition@, n) && x@ == e)
            },
        },
{
    let (sequence, ext) = parse_filename(filename)?;
    let id = SegmentId::new(channel, rendition, sequence)?;
    Ok((id, ext))
}

} // verus!
