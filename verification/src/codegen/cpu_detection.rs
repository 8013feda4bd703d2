//! CPU capability detection for SIMD code generation: the decisions taken from the
//! text of `/proc/cpuinfo` or `lscpu`.
use vstd::prelude::*;
use crate::text::{
    chars_of, contains, lines, lines_of, second_piece, second_piece_exec, seqs_of, starts_with,
    str_contains, str_starts_with,
};

verus! {

/// CPU feature set.
#[derive(Debug, Clone, Copy, PartialEq, Eq, Structural)]
pub struct CPUFeatures {
    pub sse2: bool,
    pub sse41: bool,
    pub sse42: bool,
    pub avx: bool,
    pub avx2: bool,
    pub fma: bool,
    pub bmi1: bool,
    pub bmi2: bool,
}

/// SIMD capability levels, in increasing order of capability.
#[derive(Debug, Clone, Copy, PartialEq, Eq, PartialOrd, Ord, Structural)]
pub enum SIMDLevel {
    /// 128-bit vectors (SSE2/SSE4.x)
    SSE2,
    /// 128-bit with SSE4.2
    SSE42,
    /// 256-bit vectors
    AVX,
    /// 256-bit with FMA and other improvements
    AVX2,
}

/// The conservative x86-64 baseline.
pub open spec fn default_spec() -> CPUFeatures {
    CPUFeatures {
        sse2: true,
        sse41: true,
        sse42: true,
        avx: false,
        avx2: false,
        fma: false,
        bmi1: false,
        bmi2: false,
    }
}

/// Features read from a list of flag names: each is present when its name occurs in the text.
pub open spec fn features_from_flags(flags: Seq<char>) -> CPUFeatures {
    CPUFeatures {
        sse2: true,
        sse41: contains(flags, "sse4_1"@),
        sse42: contains(flags, "sse4_2"@),
        avx: contains(flags, "avx"@),
        avx2: contains(flags, "avx2"@),
        fma: contains(flags, "fma"@),
        bmi1: contains(flags, "bmi1"@),
        bmi2: contains(flags, "bmi2"@),
    }
}

/// `/proc/cpuinfo`: the first line that starts with `flags` decides, through the text
/// after its first `:`.
pub open spec fn cpuinfo_features(ls: Seq<Seq<char>>) -> CPUFeatures
    decreases ls.len(),
{
    if ls.len() == 0 {
        default_spec()
    } else if starts_with(ls[0], "flags"@) {
        features_from_flags(second_piece(ls[0], ':'))
    } else {
        cpuinfo_features(ls.drop_first())
    }
}

/// `lscpu`: the first line that mentions `Flags` or `flags` decides, through the whole line.
pub open spec fn lscpu_features(ls: Seq<Seq<char>>) -> CPUFeatures
    decreases ls.len(),
{
    if ls.len() == 0 {
        default_spec()
    } else if contains(ls[0], "Flags"@) || contains(ls[0], "flags"@) {
        features_from_flags(ls[0])
    } else {
        lscpu_features(ls.drop_first())
    }
}

pub open spec fn best_level_spec(f: CPUFeatures) -> SIMDLevel {
    if f.avx2 {
        SIMDLevel::AVX2
    } else if f.avx {
        SIMDLevel::AVX
    } else if f.sse42 {
        SIMDLevel::SSE42
    } else {
        SIMDLevel::SSE2
    }
}

impl CPUFeatures {
    /// Default features (conservative, x86-64 baseline).
    pub fn default_features() -> (r: CPUFeatures)
        ensures
            r == default_spec(),
    {
        CPUFeatures {
            sse2: true,
            sse41: true,
            sse42: true,
            avx: false,
            avx2: false,
            fma: false,
            bmi1: false,
            bmi2: false,
        }
    }

    /// Features named in a flag list.
    pub fn from_flags(flags: &[char]) -> (r: CPUFeatures)
        ensures
            r == features_from_flags(flags@),
    {
        CPUFeatures {
            sse2: true,
            sse41: str_contains(flags, "sse4_1"),
            sse42: str_contains(flags, "sse4_2"),
            avx: str_contains(flags, "avx"),
            avx2: str_contains(flags, "avx2"),
            fma: str_contains(flags, "fma"),
            bmi1: str_contains(flags, "bmi1"),
            bmi2: str_contains(flags, "bmi2"),
        }
    }

    /// Features from the text of `/proc/cpuinfo`.
    pub fn detect_from_cpuinfo(text: &str) -> (r: CPUFeatures)
        ensures
            r == cpuinfo_features(lines(text@)),
    {
        let cs = chars_of(text);
        let ls = lines_of(cs.as_slice());
        let mut i: usize = 0;
        assert(seqs_of(ls@).skip(0) =~= seqs_of(ls@));
        while i < ls.len()
            invariant
                i <= ls@.len(),
                seqs_of(ls@) == lines(text@),
                cpuinfo_features(seqs_of(ls@)) == cpuinfo_features(seqs_of(ls@).skip(i as int)),
            decreases ls.len() - i,
        {
            let ghost rest = seqs_of(ls@).skip(i as int);
            assert(rest.len() > 0);
            assert(rest[0] == ls@[i as int]@);
            assert(rest.drop_first() == seqs_of(ls@).skip(i + 1));
            if str_starts_with(ls[i].as_slice(), "flags") {
                let flags = second_piece_exec(ls[i].as_slice(), ':');
                return CPUFeatures::from_flags(flags.as_slice());
            }
            i += 1;
        }
        assert(seqs_of(ls@).skip(i as int) =~= Seq::<Seq<char>>::empty());
        CPUFeatures::default_features()
    }

    /// Features from the output of `lscpu`.
    pub fn detect_from_cpuid(text: &str) -> (r: CPUFeatures)
        ensures
            r == lscpu_features(lines(text@)),
    {
        let cs = chars_of(text);
        let ls = lines_of(cs.as_slice());
        let mut i: usize = 0;
        assert(seqs_of(ls@).skip(0) =~= seqs_of(ls@));
        while i < ls.len()
            invariant
                i <= ls@.len(),
                seqs_of(ls@) == lines(text@),
                lscpu_features(seqs_of(ls@)) == lscpu_features(seqs_of(ls@).skip(i as int)),
            decreases ls.len() - i,
        {
            let ghost rest = seqs_of(ls@).skip(i as int);
            assert(rest.len() > 0);
            assert(rest[0] == ls@[i as int]@);
            assert(rest.drop_first() == seqs_of(ls@).skip(i + 1));
            if str_contains(ls[i].as_slice(), "Flags") || str_contains(ls[i].as_slice(), "flags") {
                return CPUFeatures::from_flags(ls[i].as_slice());
            }
            i += 1;
        }
        assert(seqs_of(ls@).skip(i as int) =~= Seq::<Seq<char>>::empty());
        CPUFeatures::default_features()
    }

    /// Features from whichever source could be read: `/proc/cpuinfo` first, then `lscpu`,
    /// then the baseline.
    pub fn detect_from_sources(cpuinfo: Option<&str>, lscpu: Option<&str>) -> (r: CPUFeatures)
        ensures
            r == (match cpuinfo {
                Some(t) => cpuinfo_features(lines(t@)),
                None => match lscpu {
                    Some(t) => lscpu_features(lines(t@)),
                    None => default_spec(),
                },
            }),
    {
        match cpuinfo {
            Some(t) => CPUFeatures::detect_from_cpuinfo(t),
            None => match lscpu {
                Some(t) => CPUFeatures::detect_from_cpuid(t),
                None => CPUFeatures::default_features(),
            },
        }
    }

    /// Best available SIMD level.
    pub fn best_simd_level(&self) -> (r: SIMDLevel)
        ensures
            r == best_level_spec(*self),
    {
        if self.avx2 {
            SIMDLevel::AVX2
        } else if self.avx {
            SIMDLevel::AVX
        } else if self.sse42 {
            SIMDLevel::SSE42
        } else {
            SIMDLevel::SSE2
        }
    }

    pub fn has_avx2(&self) -> (r: bool)
        ensures
            r == self.avx2,
    {
        self.avx2
    }

    pub fn has_avx(&self) -> (r: bool)
        ensures
            r == self.avx,
    {
        self.avx
    }

    pub fn has_sse42(&self) -> (r: bool)
        ensures
            r == self.sse42,
    {
        self.sse42
    }

    pub fn has_fma(&self) -> (r: bool)
        ensures
            r == self.fma,
    {
        self.fma
    }
}

/// Vector width in bytes.
pub open spec fn width_spec(l: SIMDLevel) -> usize {
    match l {
        SIMDLevel::SSE2 | SIMDLevel::SSE42 => 16,
        SIMDLevel::AVX | SIMDLevel::AVX2 => 32,
    }
}

/// Rank of a level in the capability order.
pub open spec fn rank(l: SIMDLevel) -> int {
    match l {
        SIMDLevel::SSE2 => 0,
        SIMDLevel::SSE42 => 1,
        SIMDLevel::AVX => 2,
        SIMDLevel::AVX2 => 3,
    }
}

impl SIMDLevel {
    /// Position in the capability order (SSE2 lowest).
    pub fn rank(&self) -> (r: u8)
        ensures
            r as int == rank(*self),
    {
        match self {
            SIMDLevel::SSE2 => 0,
            SIMDLevel::SSE42 => 1,
            SIMDLevel::AVX => 2,
            SIMDLevel::AVX2 => 3,
        }
    }

    /// Vector width in bytes.
    pub fn vector_width(&self) -> (r: usize)
        ensures
            r == width_spec(*self),
    {
        match self {
            SIMDLevel::SSE2 | SIMDLevel::SSE42 => 16,
            SIMDLevel::AVX | SIMDLevel::AVX2 => 32,
        }
    }

    /// Number of i64 elements per vector.
    pub fn i64_lanes(&self) -> (r: usize)
        ensures
            r == width_spec(*self) / 8,
    {
        self.vector_width() / 8
    }

    /// Number of i32 elements per vector.
    pub fn i32_lanes(&self) -> (r: usize)
        ensures
            r == width_spec(*self) / 4,
    {
        self.vector_width() / 4
    }

    /// Number of f64 elements per vector.
    pub fn f64_lanes(&self) -> (r: usize)
        ensures
            r == width_spec(*self) / 8,
    {
        self.vector_width() / 8
    }

    /// Number of f32 elements per vector.
    pub fn f32_lanes(&self) -> (r: usize)
        ensures
            r == width_spec(*self) / 4,
    {
        self.vector_width() / 4
    }

    /// Name used in generated code.
    pub fn as_str(&self) -> (r: &'static str)
        ensures
            r@ == (match *self {
                SIMDLevel::SSE2 => "sse2"@,
                SIMDLevel::SSE42 => "sse42"@,
                SIMDLevel::AVX => "avx"@,
                SIMDLevel::AVX2 => "avx2"@,
            }),
    {
        match self {
            SIMDLevel::SSE2 => "sse2",
            SIMDLevel::SSE42 => "sse42",
            SIMDLevel::AVX => "avx",
            SIMDLevel::AVX2 => "avx2",
        }
    }
}

/// A more capable level never has narrower vectors.
pub proof fn law_width_monotone(a: SIMDLevel, b: SIMDLevel)
    requires
        rank(a) <= rank(b),
    ensures
        width_spec(a) <= width_spec(b),
{
}

/// The detected level is always backed by the features it needs: AVX2 needs `avx2`,
/// AVX needs `avx`, SSE4.2 needs `sse42`.
pub proof fn law_best_level_supported(f: CPUFeatures)
    ensures
        best_level_spec(f) == SIMDLevel::AVX2 ==> f.avx2,
        best_level_spec(f) == SIMDLevel::AVX ==> f.avx,
        best_level_spec(f) == SIMDLevel::SSE42 ==> f.sse42,
        f.avx2 ==> best_level_spec(f) == SIMDLevel::AVX2,
{
}

/// Every detection keeps the SSE2 baseline.
pub proof fn law_sse2_baseline(ls: Seq<Seq<char>>)
    ensures
        cpuinfo_features(ls).sse2,
        lscpu_features(ls).sse2,
    decreases ls.len(),
{
    if ls.len() > 0 {
        law_sse2_baseline(ls.drop_first());
    }
}


/// A feature is detected from a flags text exactly when its Linux flag name occurs in it:
/// `sse4_1`, `sse4_2`, `avx`, `avx2`, `fma`, `bmi1`, `bmi2`; SSE2 is always there.
pub proof fn law_features_follow_flag_names(flags: Seq<char>)
    ensures
        features_from_flags(flags).sse2,
        features_from_flags(flags).sse41 <==> contains(flags, "sse4_1"@),
        features_from_flags(flags).sse42 <==> contains(flags, "sse4_2"@),
        features_from_flags(flags).avx <==> contains(flags, "avx"@),
        features_from_flags(flags).avx2 <==> contains(flags, "avx2"@),
        features_from_flags(flags).fma <==> contains(flags, "fma"@),
        features_from_flags(flags).bmi1 <==> contains(flags, "bmi1"@),
        features_from_flags(flags).bmi2 <==> contains(flags, "bmi2"@),
{
}

/// From `/proc/cpuinfo` text, the features are those named after the first `:` of the first
/// line that starts with `flags`: every line before it is passed over.
pub proof fn law_cpuinfo_reads_the_first_flags_line(ls: Seq<Seq<char>>, k: int)
    requires
        0 <= k < ls.len(),
        starts_with(ls[k], "flags"@),
        forall|j: int| 0 <= j < k ==> !starts_with(#[trigger] ls[j], "flags"@),
    ensures
        cpuinfo_features(ls) == features_from_flags(second_piece(ls[k], ':')),
        contains(second_piece(ls[k], ':'), "fma"@) ==> cpuinfo_features(ls).fma,
    decreases k,
{
    if k > 0 {
        assert(!starts_with(ls[0], "flags"@));
        let t = ls.drop_first();
        assert forall|j: int| 0 <= j < k - 1 implies !starts_with(#[trigger] t[j], "flags"@) by {
            assert(t[j] == ls[j + 1]);
        }
        assert(t[k - 1] == ls[k]);
        law_cpuinfo_reads_the_first_flags_line(t, k - 1);
    }
}

} // verus!
