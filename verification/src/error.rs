//! The errors that the pipeline reports to the user, and their texts.

use vstd::prelude::*;

verus! {

/// `std::io::Error`, carried through unchanged by `AppError::Io`.
#[verifier::external_type_specification]
#[verifier::external_body]
pub struct ExIoError(std::io::Error);

/// What can go wrong while removing a background or exporting the result.
#[derive(Debug)]
pub enum AppError {
    UnsupportedOrCorruptImage,
    ImageTooLarge(String),
    ModelUnavailable(String),
    InferenceFailure(String),
    ExportFailure(String),
    OutOfMemory,
    Io(std::io::Error),
}

/// The result type of the pipeline.
pub type AppResult<T> = Result<T, AppError>;

/// The text shown for an error, for every kind but `Io` (whose text
/// embeds what the operating system says).
pub open spec fn error_text(e: AppError) -> Seq<char> {
    match e {
        AppError::UnsupportedOrCorruptImage =>
            "Couldn't read that file. It may be corrupted or in an unsupported format."@,
        AppError::ImageTooLarge(s) => "The image is too large to process on this system ("@ + s@
            + ")."@,
        AppError::ModelUnavailable(_) =>
            "The AI model could not be loaded. Try reinstalling the application."@,
        AppError::InferenceFailure(s) => "Background removal failed while running the AI model: "@
            + s@,
        AppError::ExportFailure(s) => "Couldn't save the exported image: "@ + s@,
        AppError::OutOfMemory => "Not enough memory available to process this image."@,
        AppError::Io(_) => "I/O error: "@,
    }
}

impl AppError {
    /// The text shown to the user for this error.
    ///
    /// For `Io` it is `I/O error: ` followed by the error's own text.
    pub fn message(&self) -> (r: String)
        ensures
            !(self is Io) ==> r@ == error_text(*self),
            self matches AppError::Io(e) ==> exists|d: String|
                vstd::string::to_string_from_display_ensures::<std::io::Error>(&e, d) && r@ == error_text(*self)
                    + d@,
    {
        match self {
            AppError::UnsupportedOrCorruptImage => String::from_str(
                "Couldn't read that file. It may be corrupted or in an unsupported format.",
            ),
            AppError::ImageTooLarge(s) => {
                let mut r = String::from_str("The image is too large to process on this system (");
                r.append(s.as_str());
                r.append(").");
                r
            },
            AppError::ModelUnavailable(_) => String::from_str(
                "The AI model could not be loaded. Try reinstalling the application.",
            ),
            AppError::InferenceFailure(s) => {
                let mut r = String::from_str(
                    "Background removal failed while running the AI model: ",
                );
                r.append(s.as_str());
                r
            },
            AppError::ExportFailure(s) => {
                let mut r = String::from_str("Couldn't save the exported image: ");
                r.append(s.as_str());
                r
            },
            AppError::OutOfMemory => String::from_str(
                "Not enough memory available to process this image.",
            ),
            AppError::Io(e) => {
                let d = e.to_string();
                let mut r = String::from_str("I/O error: ");
                r.append(d.as_str());
                r
            },
        }
    }
}

} // verus!
