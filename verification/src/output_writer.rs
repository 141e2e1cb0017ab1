//! Assembly of the rendered output.
//!
//! The writer accumulates the rendered text and remembers which sink it is
//! destined for; the unverified binary performs the actual write, handing
//! `write`'s result to the chosen stream or file.

use vstd::prelude::*;

verus! {

/// Where the assembled output is to go.
#[derive(Debug, Clone)]
pub enum OutputTarget {
    Stdout,
    File(String),
}

/// Accumulates the rendered output before it is written out.
#[derive(Debug)]
pub struct OutputWriter {
    pub output: OutputTarget,
    pub content: String,
}

impl OutputWriter {
    /// A fresh writer: no content yet, destined for standard output.
    pub fn new() -> (r: Self)
        ensures
            r.output is Stdout,
            r.content@ == Seq::<char>::empty(),
    {
        OutputWriter { output: OutputTarget::Stdout, content: String::new() }
    }

    /// The same content, redirected to another sink.
    pub fn set_output(self, output: OutputTarget) -> (r: Self)
        ensures
            r.output == output,
            r.content == self.content,
    {
        OutputWriter { output, content: self.content }
    }

    /// Finish the writer: hand the sink and the assembled content to the
    /// I/O layer, exactly as accumulated.
    pub fn write(self) -> (r: (OutputTarget, String))
        ensures
            r.0 == self.output,
            r.1 == self.content,
    {
        (self.output, self.content)
    }
}

} // verus!
