use vstd::prelude::*;

verus! {

/// The smallest RAM barrier, in GB, that sketching accepts.
pub const MIN_RAM_BARRIER_GB: usize = 7;

/// Chunk `c` of the indices `0..n` cut in steps of `steps`.
pub open spec fn chunk_spec(n: nat, steps: nat, c: int) -> Seq<usize> {
    let start = c * steps;
    let end = if start + steps > n {
        n as int
    } else {
        start + steps
    };
    Seq::new((end - start) as nat, |i: int| (start + i) as usize)
}

/// Cuts the indices `0..indices.len()` into consecutive chunks of `steps` (the last may be
/// shorter).
pub fn get_chunks(indices: &Vec<usize>, steps: usize) -> (chunks: Vec<Vec<usize>>)
    requires
        steps > 0,
    ensures
        chunks@.len() * steps >= indices@.len(),
        chunks@.len() == 0 || (chunks@.len() - 1) * steps < indices@.len(),
        forall|c: int|
            0 <= c < chunks@.len() ==> (#[trigger] chunks@[c])@ == chunk_spec(
                indices@.len() as nat,
                steps as nat,
                c,
            ),
{
    let len = indices.len();
    let mut start: usize = 0;
    let mut chunks: Vec<Vec<usize>> = Vec::new();
    while start < len
        invariant
            len == indices@.len(),
            steps > 0,
            start == chunks@.len() * steps || (start == len && chunks@.len() > 0 && (chunks@.len()
                - 1) * steps < len),
            start <= len,
            chunks@.len() == 0 || (chunks@.len() - 1) * steps < len,
            start < len ==> start == chunks@.len() * steps,
            start == len ==> chunks@.len() * steps >= len,
            forall|c: int|
                0 <= c < chunks@.len() ==> (#[trigger] chunks@[c])@ == chunk_spec(
                    len as nat,
                    steps as nat,
                    c,
                ),
        decreases len - start,
    {
        let end = if steps > len - start {
            len
        } else {
            start + steps
        };
        let mut chunk: Vec<usize> = Vec::new();
        let mut x = start;
        while x < end
            invariant
                start <= x <= end,
                chunk@ == Seq::new((x - start) as nat, |i: int| (start + i) as usize),
            decreases end - x,
        {
            chunk.push(x);
            x = x + 1;
            assert(chunk@ =~= Seq::new((x - start) as nat, |i: int| (start + i) as usize));
        }
        proof {
            let c = chunks@.len() as int;
            assert(c * steps == start);
            assert(chunk@ =~= chunk_spec(len as nat, steps as nat, c));
            assert((c + 1) * steps == c * steps + steps) by (nonlinear_arith);
        }
        chunks.push(chunk);
        start = end;
    }
    chunks
}

/// How many samples are processed at once: the requested number (at least 1); by default half
/// the threads plus one when shared k-mers are reassigned, else 1.
pub fn sample_step(sample_threads: Option<usize>, threads: usize, pseudotax: bool) -> (step: usize)
    ensures
        step >= 1,
        sample_threads is Some && sample_threads->0 > 0 ==> step == sample_threads->0,
        sample_threads is Some && sample_threads->0 == 0 ==> step == 1,
        sample_threads is None && pseudotax ==> step == threads / 2 + 1,
        sample_threads is None && !pseudotax ==> step == 1,
{
    match sample_threads {
        Some(s) => if s > 0 {
            s
        } else {
            1
        },
        None => if pseudotax {
            threads / 2 + 1
        } else {
            1
        },
    }
}

/// Whether sketching must keep waiting at the RAM barrier: the process's virtual memory, when it
/// can be read, exceeds `max_ram_gb` gigabytes (10^9 bytes).
pub fn ram_barrier_wait(max_ram_gb: usize, virtual_mem: Option<usize>) -> (wait: bool)
    ensures
        wait == (virtual_mem is Some && virtual_mem->0 as int > max_ram_gb as int * 1_000_000_000),
{
    match virtual_mem {
        None => false,
        Some(used) => match max_ram_gb.checked_mul(1_000_000_000) {
            Some(limit) => used > limit,
            None => false,
        },
    }
}

/// Why a set of sketching inputs is refused.
#[derive(Debug, PartialEq, Eq, Structural, Clone, Copy)]
pub enum SketchInputError {
    /// No read file was given.
    NoInputs,
    /// The first and second files of the pairs differ in number.
    PairCountMismatch,
    /// The sample names differ in number from the samples (pairs plus single files).
    NameCountMismatch,
    /// The RAM barrier is below `MIN_RAM_BARRIER_GB`.
    RamTooLow,
}

/// Checks the inputs of the sketch command, given the numbers of first-mate files, second-mate
/// files and single-end files, of sample names (if any), and the RAM barrier (if any); the first
/// failed check, in this order, is reported.
pub fn validate_sketch_inputs(
    n_first: usize,
    n_second: usize,
    n_single: usize,
    n_names: Option<usize>,
    max_ram: Option<usize>,
) -> (r: Result<(), SketchInputError>)
    ensures
        r == (if n_first == 0 && n_second == 0 && n_single == 0 {
            Err(SketchInputError::NoInputs)
        } else if n_first != n_second {
            Err(SketchInputError::PairCountMismatch)
        } else if n_names is Some && n_names->0 as int != n_first + n_single {
            Err(SketchInputError::NameCountMismatch)
        } else if max_ram is Some && max_ram->0 < MIN_RAM_BARRIER_GB {
            Err(SketchInputError::RamTooLow)
        } else {
            Ok(())
        }),
{
    if n_first == 0 && n_second == 0 && n_single == 0 {
        return Err(SketchInputError::NoInputs);
    }
    if n_first != n_second {
        return Err(SketchInputError::PairCountMismatch);
    }
    if let Some(names) = n_names {
        if n_first.checked_add(n_single) != Some(names) {
            return Err(SketchInputError::NameCountMismatch);
        }
    }
    if let Some(ram) = max_ram {
        if ram < MIN_RAM_BARRIER_GB {
            return Err(SketchInputError::RamTooLow);
        }
    }
    Ok(())
}

/// Why a set of sketch parameters is refused.
#[derive(Debug, PartialEq, Eq, Structural, Clone, Copy)]
pub enum ParamsError {
    /// Two stored contig sketch bundles use different k.
    InconsistentK,
    /// The requested rate `c` is larger than the smallest `c` of the stored contig sketches.
    CTooLarge,
    /// The requested k differs from the k of the stored contig sketches.
    KMismatch,
}

/// Takes in the parameters `(c, k)` of one more stored contig sketch bundle: the smallest `c` so
/// far and the common `k`; the bundle is refused when its `k` differs from the common one.
pub fn merge_bundle_params(
    lowest_c: Option<usize>,
    current_k: Option<usize>,
    c: usize,
    k: usize,
) -> (r: Result<(Option<usize>, Option<usize>), ParamsError>)
    ensures
        current_k is Some && current_k->0 != k ==> r == Err::<(Option<usize>, Option<usize>), _>(
            ParamsError::InconsistentK,
        ),
        !(current_k is Some && current_k->0 != k) ==> r is Ok && r->Ok_0 == (
            Some(
                match lowest_c {
                    Some(l) => if l < c {
                        l
                    } else {
                        c
                    },
                    None => c,
                },
            ),
            Some(k),
        ),
{
    if let Some(ck) = current_k {
        if ck != k {
            return Err(ParamsError::InconsistentK);
        }
    }
    let low = match lowest_c {
        Some(l) => if l < c {
            l
        } else {
            c
        },
        None => c,
    };
    Ok((Some(low), Some(k)))
}

/// Whether raw files can be sketched with `(c, k)` next to stored contig sketches whose smallest
/// rate is `lowest_c` and whose k is `current_k`: `c` may not exceed `lowest_c`, and `k` must
/// equal `current_k`.
pub fn check_sketch_params(lowest_c: Option<usize>, current_k: Option<usize>, c: usize, k: usize) -> (r:
    Result<(), ParamsError>)
    ensures
        r == (if lowest_c is Some && lowest_c->0 < c {
            Err(ParamsError::CTooLarge)
        } else if current_k is Some && current_k->0 != k {
            Err(ParamsError::KMismatch)
        } else {
            Ok(())
        }),
{
    if let Some(l) = lowest_c {
        if l < c {
            return Err(ParamsError::CTooLarge);
        }
    }
    if let Some(ck) = current_k {
        if ck != k {
            return Err(ParamsError::KMismatch);
        }
    }
    Ok(())
}

} // verus!
