use vstd::prelude::*;
use vstd::string::StrSliceExecFns;

verus! {

/// Suffix of a stored sample sketch.
pub const SAMPLE_FILE_SUFFIX: &'static str = ".bcsp";

/// Suffix of a stored bundle of contig sketches.
pub const QUERY_FILE_SUFFIX: &'static str = ".bcdb";

pub open spec fn has_suffix(s: Seq<char>, suf: Seq<char>) -> bool {
    suf.len() <= s.len() && s.subrange(s.len() - suf.len(), s.len() as int) == suf
}

/// Whether `s` ends with `suf`.
pub fn ends_with(s: &str, suf: &str) -> (r: bool)
    ensures
        r == has_suffix(s@, suf@),
{
    let n = s.unicode_len();
    let m = suf.unicode_len();
    if m > n {
        return false;
    }
    let mut i: usize = 0;
    while i < m
        invariant
            n == s@.len(),
            m == suf@.len(),
            m <= n,
            i <= m,
            forall|j: int| 0 <= j < i ==> s@[n - m + j] == suf@[j],
        decreases m - i,
    {
        if s.get_char(n - m + i) != suf.get_char(i) {
            assert(s@.subrange(n - m, n as int)[i as int] != suf@[i as int]);
            return false;
        }
        i = i + 1;
    }
    assert(s@.subrange(n - m, n as int) =~= suf@);
    true
}

/// A read file, by its name: `.fq`, `.fnq` or `.fastq`, optionally followed by `.gz`.
pub open spec fn fastq_name(f: Seq<char>) -> bool {
    has_suffix(f, ".fq"@) || has_suffix(f, ".fnq"@) || has_suffix(f, ".fastq"@) || has_suffix(
        f,
        ".fq.gz"@,
    ) || has_suffix(f, ".fnq.gz"@) || has_suffix(f, ".fastq.gz"@)
}

/// A contig file, by its name: `.fa`, `.fna` or `.fasta`, optionally followed by `.gz`.
pub open spec fn fasta_name(f: Seq<char>) -> bool {
    has_suffix(f, ".fa"@) || has_suffix(f, ".fna"@) || has_suffix(f, ".fasta"@) || has_suffix(
        f,
        ".fa.gz"@,
    ) || has_suffix(f, ".fna.gz"@) || has_suffix(f, ".fasta.gz"@)
}

pub fn is_fastq(file: &str) -> (r: bool)
    ensures
        r == fastq_name(file@),
{
    ends_with(file, ".fq") || ends_with(file, ".fnq") || ends_with(file, ".fastq") || ends_with(
        file,
        ".fq.gz",
    ) || ends_with(file, ".fnq.gz") || ends_with(file, ".fastq.gz")
}

pub fn is_fasta(file: &str) -> (r: bool)
    ensures
        r == fasta_name(file@),
{
    ends_with(file, ".fa") || ends_with(file, ".fna") || ends_with(file, ".fasta") || ends_with(
        file,
        ".fa.gz",
    ) || ends_with(file, ".fna.gz") || ends_with(file, ".fasta.gz")
}

/// What an input file of the coverage command holds, by its name.
#[derive(Debug, PartialEq, Eq, Structural, Clone, Copy)]
pub enum InputKind {
    ContigSketches,
    SampleSketch,
    Contigs,
    Reads,
    Unknown,
}

/// The kind of an input file, by the first of these rules that its name matches: contig sketch
/// bundle, sample sketch, contig file, read file.
pub open spec fn input_kind(f: Seq<char>) -> InputKind {
    if has_suffix(f, QUERY_FILE_SUFFIX@) {
        InputKind::ContigSketches
    } else if has_suffix(f, SAMPLE_FILE_SUFFIX@) {
        InputKind::SampleSketch
    } else if fasta_name(f) {
        InputKind::Contigs
    } else if fastq_name(f) {
        InputKind::Reads
    } else {
        InputKind::Unknown
    }
}

pub fn classify_input(file: &str) -> (r: InputKind)
    ensures
        r == input_kind(file@),
{
    if ends_with(file, QUERY_FILE_SUFFIX) {
        InputKind::ContigSketches
    } else if ends_with(file, SAMPLE_FILE_SUFFIX) {
        InputKind::SampleSketch
    } else if is_fasta(file) {
        InputKind::Contigs
    } else if is_fastq(file) {
        InputKind::Reads
    } else {
        InputKind::Unknown
    }
}

} // verus!
