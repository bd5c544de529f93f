use vstd::prelude::*;

verus! {

/// Why consuming or writing a log failed.
#[derive(Debug)]
pub enum Error {
    /// The template engine could not render a log.
    RenderError(String),
    /// A file or directory could not be read, created or written.
    IOError(String),
}

} // verus!
