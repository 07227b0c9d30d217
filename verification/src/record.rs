//! The movie record: the one entity the parser produces.

use vstd::prelude::*;

verus! {

/// One catalog entry: the disc it sits on, its four-digit year, its title,
/// and the optional children's-content remark.
#[derive(Debug)]
pub struct Movie {
    /// The value of the disc-separator line most recently seen before this
    /// record's source line, or 0 when none has been seen yet.
    pub disc: u32,
    /// The four digits the line starts with, stored as text.
    pub year: String,
    /// The line's remaining text, trimmed, with any trailing marker removed.
    pub title: String,
    /// The fixed children's-content marker, when the line ends with it.
    pub remark: Option<String>,
}

/// The mathematical image of a [`Movie`]: the same fields over `Seq<char>`.
pub struct MovieModel {
    pub disc: u32,
    pub year: Seq<char>,
    pub title: Seq<char>,
    pub remark: Option<Seq<char>>,
}

impl View for Movie {
    type V = MovieModel;

    open spec fn view(&self) -> MovieModel {
        MovieModel {
            disc: self.disc,
            year: self.year@,
            title: self.title@,
            remark: match self.remark {
                Some(s) => Some(s@),
                None => None,
            },
        }
    }
}

} // verus!
