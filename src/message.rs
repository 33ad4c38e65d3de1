use vstd::prelude::*;

verus! {

/// A transcription delivered by the transport layer: one UTF-8 text to type.
pub struct TranscriptionMessage {
    pub text: String,
}

impl TranscriptionMessage {
    /// Wraps a text.
    pub fn new(text: String) -> (r: TranscriptionMessage)
        ensures
            r.text@ == text@,
    {
        TranscriptionMessage { text }
    }
}

} // verus!
