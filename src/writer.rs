//! A line-oriented text builder for ION output.

use vstd::prelude::*;
use vstd::string::StringExecFns;
use crate::render::quoted_text;
use crate::value::Value;

verus! {

/// Builds ION text piece by piece: section headers and `key = value` lines.
pub struct Writer {
    out: String,
}

impl Writer {
    /// The text written so far.
    pub closed spec fn written(&self) -> Seq<char> {
        self.out@
    }

    pub fn new() -> (r: Writer)
        ensures
            r.written() == Seq::<char>::empty(),
    {
        Writer { out: String::new() }
    }

    /// Appends `text` as it is.
    pub fn write(&mut self, text: &str)
        ensures
            final(self).written() == old(self).written() + text@,
    {
        self.out.append(text);
    }

    /// Appends the header line `[name]`.
    pub fn section(&mut self, name: &str)
        ensures
            final(self).written() == old(self).written() + "["@ + name@ + "]\n"@,
    {
        self.write("[");
        self.write(name);
        self.write("]\n");
    }

    /// Appends the line `name = value`, the value quoted when it is a string.
    pub fn key_value(&mut self, name: &str, value: &Value)
        ensures
            final(self).written() == old(self).written() + name@ + " = "@ + quoted_text(value.node())
                + "\n"@,
    {
        self.write(name);
        self.write(" = ");
        let v = value.to_quoted_string();
        self.write(v.as_str());
        self.write("\n");
    }

    /// The text written so far.
    pub fn as_str(&self) -> (r: &str)
        ensures
            r@ == self.written(),
    {
        self.out.as_str()
    }

    /// Gives up the writer for the text it holds.
    pub fn into_string(self) -> (r: String)
        ensures
            r@ == self.written(),
    {
        self.out
    }
}

} // verus!
