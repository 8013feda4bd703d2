//! Full compiler pipeline orchestration.
use vstd::prelude::*;
use crate::text::{append_chars, chars_of, lit, string_of};

verus! {

/// The text `{:?}` gives for the path named by `s`: quoted, with escapes.
pub uninterp spec fn debug_text(s: Seq<char>) -> Seq<char>;

/// `<Path as Debug>::fmt` on the path named by `s`, through `format!("{:?}", ..)`: the
/// quoted, escaped text. The contract names the answer; its escaping rules are not written
/// out.
#[verifier::external_body]
pub(crate) fn debug_quoted(s: &str) -> (r: String)
    ensures
        r@ == debug_text(s@),
{
    format!("{:?}", std::path::Path::new(s))
}

pub struct FullCompiler {
    output_dir: String,
}

impl FullCompiler {
    pub closed spec fn dir(&self) -> Seq<char> {
        self.output_dir@
    }

    pub fn new(output_dir: &str) -> (r: Self)
        ensures
            r.dir() == output_dir@,
    {
        FullCompiler { output_dir: lit(output_dir) }
    }

    pub fn output_dir(&self) -> (r: &str)
        ensures
            r@ == self.dir(),
    {
        self.output_dir.as_str()
    }

    /// Reports where the executable goes: `Compiled to ` and the quoted path.
    pub fn compile_to_executable(&self, source_code: &str, output_exe: &str) -> (r: Result<
        String,
        String,
    >)
        ensures
            r matches Ok(s) && s@ == "Compiled to "@ + debug_text(output_exe@),
    {
        let mut v = chars_of("Compiled to ");
        let q = debug_quoted(output_exe);
        let qc = chars_of(q.as_str());
        append_chars(&mut v, qc.as_slice());
        Ok(string_of(v.as_slice()))
    }
}

} // verus!
