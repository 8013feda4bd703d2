//! Assembler and linker integration: the command lines handed to the system tools.
use vstd::prelude::*;
use crate::text::{cat_str, lit, texts};

verus! {

pub struct Assembler {
    output_dir: String,
}

/// The arguments of the `ld` invocation that links `objects` into `output`: the dynamic
/// linker, the objects, the C runtime start files that exist, `-l` for each library, the
/// library search paths, libc and libm, the terminator file that exists, and `-o output`.
pub open spec fn link_args_spec(
    objects: Seq<Seq<char>>,
    output: Seq<char>,
    libraries: Seq<Seq<char>>,
    crt1: Option<Seq<char>>,
    crti: Option<Seq<char>>,
    crtn: Option<Seq<char>>,
) -> Seq<Seq<char>> {
    seq!["-dynamic-linker"@, "/lib64/ld-linux-x86-64.so.2"@] + objects + opt_seq(crt1) + opt_seq(
        crti,
    ) + libraries.map_values(|l: Seq<char>| "-l"@ + l) + seq![
        "-L/lib"@,
        "-L/usr/lib"@,
        "-L/lib/x86_64-linux-gnu"@,
        "-L/usr/lib/x86_64-linux-gnu"@,
        "-L/usr/lib64"@,
        "-lc"@,
        "-lm"@,
    ] + opt_seq(crtn) + seq!["-o"@, output]
}

pub open spec fn opt_seq(o: Option<Seq<char>>) -> Seq<Seq<char>> {
    match o {
        Some(x) => seq![x],
        None => seq![],
    }
}

fn push_opt(v: &mut Vec<String>, o: Option<&str>)
    ensures
        texts(final(v)@) == texts(old(v)@) + opt_seq(
            match o {
                Some(x) => Some(x@),
                None => None,
            },
        ),
{
    match o {
        Some(x) => {
            let ghost b = texts(v@);
            v.push(lit(x));
            assert(texts(v@) =~= b + seq![x@]);
        },
        None => {
            assert(texts(v@) =~= texts(v@) + Seq::<Seq<char>>::empty());
        },
    }
}

fn push_lit(v: &mut Vec<String>, s: &str)
    ensures
        texts(final(v)@) == texts(old(v)@).push(s@),
{
    let ghost b = texts(v@);
    v.push(lit(s));
    assert(texts(v@) =~= b.push(s@));
}

impl Assembler {
    pub closed spec fn dir(&self) -> Seq<char> {
        self.output_dir@
    }

    pub fn new(output_dir: &str) -> (r: Self)
        ensures
            r.dir() == output_dir@,
    {
        Assembler { output_dir: lit(output_dir) }
    }

    pub fn output_dir(&self) -> (r: &str)
        ensures
            r@ == self.dir(),
    {
        self.output_dir.as_str()
    }

    /// The arguments for `ld`; `crt1`, `crti` and `crtn` are the start and terminator files
    /// that were found on the system, if any.
    pub fn link_arguments(
        objects: &Vec<String>,
        output: &str,
        libraries: &Vec<String>,
        crt1: Option<&str>,
        crti: Option<&str>,
        crtn: Option<&str>,
    ) -> (r: Vec<String>)
        ensures
            texts(r@) == link_args_spec(
                texts(objects@),
                output@,
                texts(libraries@),
                match crt1 {
                    Some(x) => Some(x@),
                    None => None,
                },
                match crti {
                    Some(x) => Some(x@),
                    None => None,
                },
                match crtn {
                    Some(x) => Some(x@),
                    None => None,
                },
            ),
    {
        let mut v: Vec<String> = Vec::new();
        push_lit(&mut v, "-dynamic-linker");
        push_lit(&mut v, "/lib64/ld-linux-x86-64.so.2");
        let ghost head = texts(v@);
        let mut i: usize = 0;
        while i < objects.len()
            invariant
                i <= objects@.len(),
                texts(v@) == head + texts(objects@).take(i as int),
            decreases objects.len() - i,
        {
            let ghost b = texts(v@);
            v.push(lit(objects[i].as_str()));
            assert(texts(v@) =~= b.push(objects@[i as int]@));
            assert(texts(objects@).take(i + 1) =~= texts(objects@).take(i as int).push(objects@[i as int]@));
            i += 1;
        }
        assert(texts(objects@).take(objects@.len() as int) =~= texts(objects@));
        push_opt(&mut v, crt1);
        push_opt(&mut v, crti);
        let ghost mid = texts(v@);
        let ghost libs = texts(libraries@).map_values(|l: Seq<char>| "-l"@ + l);
        let mut j: usize = 0;
        while j < libraries.len()
            invariant
                j <= libraries@.len(),
                libs == texts(libraries@).map_values(|l: Seq<char>| "-l"@ + l),
                texts(v@) == mid + libs.take(j as int),
            decreases libraries.len() - j,
        {
            let ghost b = texts(v@);
            v.push(cat_str("-l", libraries[j].as_str(), ""));
            proof {
                crate::text::lemma_empty_str();
                assert(texts(v@) =~= b.push("-l"@ + libraries@[j as int]@));
                assert(libs.take(j + 1) =~= libs.take(j as int).push(libs[j as int]));
            }
            j += 1;
        }
        assert(libs.take(libraries@.len() as int) =~= libs);
        push_lit(&mut v, "-L/lib");
        push_lit(&mut v, "-L/usr/lib");
        push_lit(&mut v, "-L/lib/x86_64-linux-gnu");
        push_lit(&mut v, "-L/usr/lib/x86_64-linux-gnu");
        push_lit(&mut v, "-L/usr/lib64");
        push_lit(&mut v, "-lc");
        push_lit(&mut v, "-lm");
        push_opt(&mut v, crtn);
        push_lit(&mut v, "-o");
        push_lit(&mut v, output);
        assert(texts(v@) =~= link_args_spec(
            texts(objects@),
            output@,
            texts(libraries@),
            match crt1 {
                Some(x) => Some(x@),
                None => None,
            },
            match crti {
                Some(x) => Some(x@),
                None => None,
            },
            match crtn {
                Some(x) => Some(x@),
                None => None,
            },
        ));
        v
    }
}

} // verus!
