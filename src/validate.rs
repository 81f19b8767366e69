//! The WGSL parser and validator of `naga`, as the composition calls them.
use vstd::prelude::*;

verus! {

/// What the validator reported: its message and, where it gave one, the byte
/// offset in the text where the error starts.
#[derive(Debug)]
pub struct GrammarFault {
    pub message: String,
    pub offset: Option<usize>,
}

/// Whether naga's WGSL front end parses `text`.
pub uninterp spec fn wgsl_parses(text: Seq<char>) -> bool;

/// naga's verdict on `text`, parsed and then validated: nothing where both
/// pass, else the message of the first error and the start of its first span.
pub uninterp spec fn wgsl_verdict(text: Seq<char>) -> Option<(Seq<char>, Option<usize>)>;

/// Relies on `naga::front::wgsl::parse_str` and then on
/// `naga::valid::Validator::validate` (every validation flag and
/// capability): `None` where both accept `text`; otherwise the first
/// error's message and the start of its first labelled span. Both depend on
/// the text alone; text that does not parse is refused.
#[verifier::external_body]
pub(crate) fn check_wgsl(text: &String) -> (r: Option<GrammarFault>)
    ensures
        r is None <==> wgsl_verdict(text@) is None,
        r matches Some(f) ==> wgsl_verdict(text@) == Some((f.message@, f.offset)),
        !wgsl_parses(text@) ==> r is Some,
{
    let (message, span) = match naga::front::wgsl::parse_str(text) {
        Err(e) => (e.message().to_string(), e.labels().next().map(|(span, _)| span)),
        Ok(module) => {
            let caps = naga::valid::Capabilities::all();
            let mut validator = naga::valid::Validator::new(naga::valid::ValidationFlags::all(), caps);
            match validator.validate(&module) {
                Ok(_) => return None,
                Err(e) => (e.as_inner().to_string(), e.spans().next().map(|(span, _)| *span)),
            }
        },
    };
    Some(GrammarFault { message, offset: span.and_then(|s| s.to_range()).map(|range| range.start) })
}

} // verus!
