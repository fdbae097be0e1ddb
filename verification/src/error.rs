use vstd::prelude::*;

verus! {

/// Errors produced while capturing or processing an image.
#[derive(Debug)]
pub enum CaptureError {
    /// The capture itself failed; the text says why.
    Capture(String),
    /// The captured pixels could not be decoded or encoded; the text says why.
    ImageProcessing(String),
    /// Neither a Wayland nor an X11 display is available.
    NoDisplay,
}

/// A capture error with its text as a sequence of characters.
pub enum CaptureFailure {
    Capture(Seq<char>),
    ImageProcessing(Seq<char>),
    NoDisplay,
}

impl View for CaptureError {
    type V = CaptureFailure;

    open spec fn view(&self) -> CaptureFailure {
        match self {
            CaptureError::Capture(s) => CaptureFailure::Capture(s@),
            CaptureError::ImageProcessing(s) => CaptureFailure::ImageProcessing(s@),
            CaptureError::NoDisplay => CaptureFailure::NoDisplay,
        }
    }
}

/// `"<prefix><detail>"`, as `format!` writes it.
pub fn prefixed(prefix: &str, detail: &str) -> (r: String)
    ensures
        r@ == prefix@ + detail@,
{
    let mut r = String::from_str(prefix);
    r.append(detail);
    r
}

} // verus!
