//! The error kinds every fallible atlas operation surfaces.

use vstd::prelude::*;

use crate::serialize::{dec_nat, push_usize};

verus! {

/// Why an atlas operation failed. The build aborts on the first error; no
/// operation recovers on its own, since packing and decoding are
/// deterministic and retrying an unchanged input cannot succeed.
#[derive(Clone, Copy, Debug, PartialEq, Eq, Structural)]
pub enum AtlasError {
    /// A file could not be opened, read, or written.
    Io,
    /// Malformed or unsupported image data; in particular indexed-palette
    /// images are refused rather than silently mis-decoded.
    DecodeError,
    /// The packer could not place a tile of nonzero area; the canvas of the
    /// recorded dimensions must be enlarged.
    AtlasOverflow { width: usize, height: usize },
    /// Malformed size or configuration input from the surrounding command
    /// line, kept distinguishable from the core errors.
    ArgumentError,
}

impl AtlasError {
    /// The human-readable description of the error; an overflow names the
    /// canvas dimensions and asks for a larger canvas.
    pub open spec fn message_chars(self) -> Seq<char> {
        match self {
            AtlasError::Io => "I/O error"@,
            AtlasError::DecodeError => "unsupported or malformed image data"@,
            AtlasError::AtlasOverflow { width, height } => "Bitmap size of "@ + dec_nat(
                width as nat,
            ) + "x"@ + dec_nat(height as nat)
                + " is not enough to hold the atlas, please resize"@,
            AtlasError::ArgumentError => "malformed size or configuration argument"@,
        }
    }

    /// Render the message.
    pub fn message(&self) -> (s: String)
        ensures
            s@ == self.message_chars(),
    {
        match self {
            AtlasError::Io => "I/O error".to_owned(),
            AtlasError::DecodeError => "unsupported or malformed image data".to_owned(),
            AtlasError::AtlasOverflow { width, height } => {
                let mut s = String::new();
                s.append("Bitmap size of ");
                push_usize(&mut s, *width);
                s.append("x");
                push_usize(&mut s, *height);
                s.append(" is not enough to hold the atlas, please resize");
                proof {
                    assert(s@ =~= self.message_chars());
                }
                s
            },
            AtlasError::ArgumentError => "malformed size or configuration argument".to_owned(),
        }
    }
}

} // verus!
