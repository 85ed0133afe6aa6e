//! What can go wrong for one wallpaper or one command.

use vstd::prelude::*;
use vstd::string::*;

verus! {

/// A failure that the engine itself detects. Failures of the network and of
/// the file system belong to whoever performs those steps.
#[derive(Debug)]
pub enum PaperError {
    /// None of the given tokens is a wallpaper id.
    NoValidIds,
    /// The token is not a wallpaper id.
    InvalidId(String),
    /// The metadata reply is not JSON; holds the parser's message.
    InvalidJson(String),
    /// The metadata reply has an `error` member; holds it in JSON notation.
    Api(String),
    /// The metadata reply names no image.
    MissingImageLink,
    /// The metadata reply has no `data` member.
    MissingData,
}

impl PaperError {
    /// The text of the failure.
    pub open spec fn message_spec(self) -> Seq<char> {
        match self {
            PaperError::NoValidIds => "No valid wallpaper IDs provided"@,
            PaperError::InvalidId(id) => "Invalid wallpaper ID format: '"@ + id@ + "'"@,
            PaperError::InvalidJson(text) => text@,
            PaperError::Api(text) => "API error: "@ + text@,
            PaperError::MissingImageLink => "   Failed to get image link from API response"@,
            PaperError::MissingData => "Invalid API response: no data field"@,
        }
    }

    /// The text of the failure, for display.
    pub fn message(&self) -> (text: String)
        ensures
            text@ == self.message_spec(),
    {
        match self {
            PaperError::NoValidIds => String::from_str("No valid wallpaper IDs provided"),
            PaperError::InvalidId(id) => {
                let mut text = String::from_str("Invalid wallpaper ID format: '");
                text.append(id.as_str());
                text.append("'");
                text
            },
            PaperError::InvalidJson(detail) => detail.clone(),
            PaperError::Api(detail) => {
                let mut text = String::from_str("API error: ");
                text.append(detail.as_str());
                text
            },
            PaperError::MissingImageLink => String::from_str(
                "   Failed to get image link from API response",
            ),
            PaperError::MissingData => String::from_str("Invalid API response: no data field"),
        }
    }
}

} // verus!
