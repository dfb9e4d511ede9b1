use vstd::prelude::*;
use std::cmp::Ordering;
use vstd::string::{StrSliceExecFns, StringExecFns};

verus! {

/// The characters a contig name is cut at.
pub open spec fn is_space(c: char) -> bool {
    c == ' ' || c == '\t' || c == '\n' || c == '\r' || c == '\x0C'
}

/// The part of a contig name before its first white space: the name shown in the matrix.
pub fn contig_display_name(name: &str) -> (r: String)
    ensures
        r@ == name@.take(r@.len() as int),
        forall|j: int| 0 <= j < r@.len() ==> !is_space(#[trigger] r@[j]),
        r@.len() == name@.len() || is_space(name@[r@.len() as int]),
{
    let n = name.unicode_len();
    let mut i: usize = 0;
    while i < n
        invariant
            n == name@.len(),
            i <= n,
            forall|j: int| 0 <= j < i ==> !is_space(#[trigger] name@[j]),
        ensures
            i <= n,
            forall|j: int| 0 <= j < i ==> !is_space(#[trigger] name@[j]),
            i == n || is_space(name@[i as int]),
        decreases n - i,
    {
        let ch = name.get_char(i);
        if ch == ' ' || ch == '\t' || ch == '\n' || ch == '\r' || ch == '\x0C' {
            break;
        }
        i = i + 1;
    }
    let r = String::from_str(name.substring_char(0, i));
    assert(r@ =~= name@.take(i as int));
    r
}

pub open spec fn is_ascii_digit(c: char) -> bool {
    '0' <= c <= '9'
}

/// Some character among `s[a..a+10]` is not an ASCII digit.
pub open spec fn breaks_run(s: Seq<char>, a: int) -> bool {
    exists|j: int| a <= j < a + 10 && !is_ascii_digit(#[trigger] s[j])
}

/// No ten ASCII digits in a row.
pub open spec fn short_digit_runs(s: Seq<char>) -> bool {
    forall|a: int| 0 <= a && a + 10 <= s.len() ==> #[trigger] breaks_run(s, a)
}

/// How `human_sort::compare` orders two names: digit runs compare as numbers.
pub uninterp spec fn human_cmp(a: Seq<char>, b: Seq<char>) -> Ordering;

pub open spec fn names_view(v: Seq<String>) -> Seq<Seq<char>> {
    v.map_values(|s: String| s@)
}

/// Relies on `human_sort::compare`: the result depends on the two names alone. A run of ten or
/// more digits can overflow its `u32` digit accumulator, so such names are left out.
#[verifier::external_body]
fn human_compare(a: &String, b: &String) -> (r: Ordering)
    requires
        short_digit_runs(a@),
        short_digit_runs(b@),
    ensures
        r == human_cmp(a@, b@),
{
    human_sort::compare(a, b)
}

/// Inserts `x` into `s` before the first name that it compares below, else at the end.
pub open spec fn human_insert(s: Seq<Seq<char>>, x: Seq<char>) -> Seq<Seq<char>>
    decreases s.len(),
{
    if s.len() == 0 {
        seq![x]
    } else if human_cmp(x, s[0]) == Ordering::Less {
        seq![x] + s
    } else {
        seq![s[0]] + human_insert(s.drop_first(), x)
    }
}

/// Insertion sort of the names under `human_cmp`, taking them in order: a stable sort whenever
/// `human_cmp` orders the names totally.
pub open spec fn human_sorted(s: Seq<Seq<char>>) -> Seq<Seq<char>>
    decreases s.len(),
{
    if s.len() == 0 {
        s
    } else {
        human_insert(human_sorted(s.drop_last()), s.last())
    }
}

proof fn lemma_human_insert_at(s: Seq<Seq<char>>, x: Seq<char>, p: int)
    requires
        0 <= p <= s.len(),
        forall|j: int| 0 <= j < p ==> human_cmp(x, #[trigger] s[j]) != Ordering::Less,
        p < s.len() ==> human_cmp(x, s[p]) == Ordering::Less,
    ensures
        human_insert(s, x) == s.take(p) + seq![x] + s.skip(p),
    decreases s.len(),
{
    if s.len() == 0 {
        assert(s.take(p) + seq![x] + s.skip(p) =~= seq![x]);
    } else if p == 0 {
        assert(s.take(p) + seq![x] + s.skip(p) =~= seq![x] + s);
    } else {
        let r = s.drop_first();
        assert forall|j: int| 0 <= j < p - 1 implies human_cmp(x, #[trigger] r[j]) != Ordering::Less by {
            assert(r[j] == s[j + 1]);
        }
        if p - 1 < r.len() {
            assert(r[p - 1] == s[p]);
        }
        lemma_human_insert_at(r, x, p - 1);
        assert(human_cmp(x, s[0]) != Ordering::Less);
        assert(s.take(p) + seq![x] + s.skip(p) =~= seq![s[0]] + (r.take(p - 1) + seq![x] + r.skip(p - 1)));
    }
}

/// Sorts the names by `human_sorted`.
fn human_sort_names(names: &Vec<String>) -> (r: Vec<String>)
    requires
        forall|i: int| 0 <= i < names@.len() ==> short_digit_runs(#[trigger] names@[i]@),
    ensures
        names_view(r@) == human_sorted(names_view(names@)),
{
    let ghost nv = names_view(names@);
    let mut out: Vec<String> = Vec::new();
    let n = names.len();
    let mut i: usize = 0;
    assert(nv.take(0) =~= Seq::<Seq<char>>::empty());
    assert(names_view(out@) =~= Seq::<Seq<char>>::empty());
    while i < n
        invariant
            n == names@.len(),
            nv == names_view(names@),
            i <= n,
            forall|j: int| 0 <= j < names@.len() ==> short_digit_runs(#[trigger] names@[j]@),
            forall|j: int| 0 <= j < out@.len() ==> short_digit_runs(#[trigger] out@[j]@),
            names_view(out@) == human_sorted(nv.take(i as int)),
        decreases n - i,
    {
        let x = &names[i];
        assert(short_digit_runs(names@[i as int]@));
        let m = out.len();
        let mut p: usize = 0;
        while p < m
            invariant
                m == out@.len(),
                p <= m,
                short_digit_runs(x@),
                forall|j: int| 0 <= j < out@.len() ==> short_digit_runs(#[trigger] out@[j]@),
                forall|j: int| 0 <= j < p ==> human_cmp(x@, #[trigger] out@[j]@) != Ordering::Less,
            ensures
                p <= m,
                forall|j: int| 0 <= j < p ==> human_cmp(x@, #[trigger] out@[j]@) != Ordering::Less,
                p < m ==> human_cmp(x@, out@[p as int]@) == Ordering::Less,
            decreases m - p,
        {
            assert(short_digit_runs(out@[p as int]@));
            let below = match human_compare(x, &out[p]) {
                Ordering::Less => true,
                _ => false,
            };
            if below {
                break;
            }
            p = p + 1;
        }
        let ghost ov = names_view(out@);
        let mut next: Vec<String> = Vec::new();
        let mut q: usize = 0;
        while q < p
            invariant
                p <= m,
                m == out@.len(),
                q <= p,
                ov == names_view(out@),
                next@.len() == q,
                forall|j: int| 0 <= j < q ==> next@[j] == out@[j],
            decreases p - q,
        {
            next.push(out[q].clone());
            q = q + 1;
        }
        next.push(x.clone());
        let mut q2: usize = p;
        while q2 < m
            invariant
                p <= q2 <= m,
                m == out@.len(),
                next@.len() == q2 + 1,
                forall|j: int| 0 <= j < p ==> next@[j] == out@[j],
                next@[p as int] == *x,
                forall|j: int| p < j <= q2 ==> next@[j] == out@[j - 1],
            decreases m - q2,
        {
            next.push(out[q2].clone());
            q2 = q2 + 1;
        }
        proof {
            let s = ov;
            assert forall|j: int| 0 <= j < p implies human_cmp(x@, #[trigger] s[j]) != Ordering::Less by {
                assert(s[j] == out@[j]@);
            }
            if p < m {
                assert(s[p as int] == out@[p as int]@);
            }
            lemma_human_insert_at(s, x@, p as int);
            assert(names_view(next@) =~= s.take(p as int) + seq![x@] + s.skip(p as int));
            assert(nv.take(i + 1).drop_last() =~= nv.take(i as int));
            assert(nv.take(i + 1).last() == x@);
            assert forall|j: int| 0 <= j < next@.len() implies short_digit_runs(#[trigger] next@[j]@) by {
                if j < p {
                    assert(next@[j] == out@[j]);
                } else if j > p {
                    assert(next@[j] == out@[j - 1]);
                }
            }
        }
        out = next;
        i = i + 1;
    }
    assert(nv.take(n as int) =~= nv);
    out
}

fn has_short_digit_runs(s: &str) -> (r: bool)
    ensures
        r == short_digit_runs(s@),
{
    let n = s.unicode_len();
    let mut run: usize = 0;
    let mut i: usize = 0;
    while i < n
        invariant
            n == s@.len(),
            i <= n,
            run <= i,
            run < 10,
            forall|j: int| i - run <= j < i ==> is_ascii_digit(#[trigger] s@[j]),
            i > run ==> !is_ascii_digit(s@[i - run - 1]),
            forall|a: int| 0 <= a && a + 10 <= i ==> #[trigger] breaks_run(s@, a),
        decreases n - i,
    {
        let ch = s.get_char(i);
        if '0' <= ch && ch <= '9' {
            if run == 9 {
                assert forall|j: int| i - 9 <= j < i + 1 implies is_ascii_digit(#[trigger] s@[j]) by {}
                proof {
                    let a = i - 9;
                    assert(a + 10 <= s@.len());
                    if breaks_run(s@, a) {
                        let j = choose|j: int| a <= j < a + 10 && !is_ascii_digit(#[trigger] s@[j]);
                        assert(is_ascii_digit(s@[j]));
                    }
                }
                return false;
            }
            run = run + 1;
        } else {
            run = 0;
        }
        proof {
            assert forall|a: int| 0 <= a && a + 10 <= i + 1 implies #[trigger] breaks_run(s@, a) by {
                if a + 10 == i + 1 {
                    if run == 0 {
                        assert(!is_ascii_digit(s@[i as int]));
                    } else {
                        assert(!is_ascii_digit(s@[i - run]));
                    }
                }
            }
        }
        i = i + 1;
    }
    true
}

/// The distinct names among the first `n`, in order of first occurrence.
pub open spec fn distinct_upto(s: Seq<Seq<char>>, n: int) -> Seq<Seq<char>>
    decreases n,
{
    if n <= 0 {
        Seq::empty()
    } else if distinct_upto(s, n - 1).contains(s[n - 1]) {
        distinct_upto(s, n - 1)
    } else {
        distinct_upto(s, n - 1).push(s[n - 1])
    }
}

fn contains_name(v: &Vec<String>, x: &String) -> (r: bool)
    ensures
        r == names_view(v@).contains(x@),
{
    let n = v.len();
    let mut i: usize = 0;
    while i < n
        invariant
            n == v@.len(),
            i <= n,
            forall|j: int| 0 <= j < i ==> v@[j]@ != x@,
        decreases n - i,
    {
        if v[i] == *x {
            assert(names_view(v@)[i as int] == x@);
            return true;
        }
        i = i + 1;
    }
    false
}

/// The sample columns of the matrix: the distinct sample names, in human order (digit runs
/// compared as numbers). When a name holds ten or more digits in a row, the names stay in order
/// of first occurrence.
pub fn sample_columns(names: &Vec<String>) -> (r: Vec<String>)
    ensures
        ({
            let d = distinct_upto(names_view(names@), names@.len() as int);
            if forall|i: int| 0 <= i < d.len() ==> short_digit_runs(#[trigger] d[i]) {
                names_view(r@) == human_sorted(d)
            } else {
                names_view(r@) == d
            }
        }),
{
    let ghost s = names_view(names@);
    let mut out: Vec<String> = Vec::new();
    let mut all_short = true;
    let n = names.len();
    let mut i: usize = 0;
    while i < n
        invariant
            n == names@.len(),
            s == names_view(names@),
            i <= n,
            names_view(out@) == distinct_upto(s, i as int),
            all_short <==> forall|j: int| 0 <= j < out@.len() ==> short_digit_runs(#[trigger] out@[j]@),
        decreases n - i,
    {
        if !contains_name(&out, &names[i]) {
            let ok = has_short_digit_runs(names[i].as_str());
            let ghost before = out@;
            out.push(names[i].clone());
            assert(names_view(out@) =~= names_view(before).push(s[i as int]));
            all_short = all_short && ok;
            proof {
                if all_short {
                    assert forall|j: int| 0 <= j < out@.len() implies short_digit_runs(#[trigger] out@[j]@) by {
                        if j < before.len() {
                            assert(out@[j] == before[j]);
                        }
                    }
                } else {
                    if !ok {
                        assert(!short_digit_runs(out@[before.len() as int]@));
                    } else {
                        let j = choose|j: int| 0 <= j < before.len() && !short_digit_runs(#[trigger] before[j]@);
                        assert(out@[j] == before[j]);
                    }
                }
            }
        }
        i = i + 1;
    }
    proof {
        let d = distinct_upto(s, n as int);
        assert forall|j: int| 0 <= j < out@.len() implies (#[trigger] out@[j])@ == d[j] by {
            assert(names_view(out@)[j] == d[j]);
        }
    }
    if all_short {
        human_sort_names(&out)
    } else {
        out
    }
}

/// The matrix cell of contig `i` and sample `name` after the first `n` results
/// `(contig index, sample name)`: the last such result, if any.
pub open spec fn cell_upto(results: Seq<(usize, Seq<char>)>, i: usize, name: Seq<char>, n: int) -> Option<
    usize,
>
    decreases n,
{
    if n <= 0 {
        None
    } else if results[n - 1].0 == i && results[n - 1].1 == name {
        Some((n - 1) as usize)
    } else {
        cell_upto(results, i, name, n - 1)
    }
}

/// When no (contig, sample) pair occurs twice among the results, the cell of a pair is the
/// index of its one result, wherever it stands in the list: the matrix shows the same values
/// whatever order the results come in.
pub proof fn lemma_cell_of_unique_result(
    results: Seq<(usize, Seq<char>)>,
    i: usize,
    name: Seq<char>,
    r: int,
    n: int,
)
    requires
        0 <= r < n <= results.len(),
        results[r] == (i, name),
        forall|a: int, b: int| 0 <= a < b < results.len() ==> results[a] != results[b],
    ensures
        cell_upto(results, i, name, n) == Some(r as usize),
    decreases n,
{
    if n - 1 > r {
        assert(results[r] != results[n - 1]);
        lemma_cell_of_unique_result(results, i, name, r, n - 1);
    }
}

/// A pair without any result has an empty cell.
pub proof fn lemma_cell_without_result(results: Seq<(usize, Seq<char>)>, i: usize, name: Seq<char>, n: int)
    requires
        n <= results.len(),
        forall|a: int| 0 <= a < n ==> results[a] != (i, name),
    ensures
        cell_upto(results, i, name, n) is None,
    decreases n,
{
    if n > 0 {
        lemma_cell_without_result(results, i, name, n - 1);
    }
}

pub open spec fn results_view(v: Seq<(usize, String)>) -> Seq<(usize, Seq<char>)> {
    v.map_values(|r: (usize, String)| (r.0, r.1@))
}

/// The contig-by-sample grid of result indices: row `i`, column `j` holds the index of the last
/// result for contig `i` and sample `samples[j]`, or `None`.
pub fn matrix_cells(n_contigs: usize, samples: &Vec<String>, results: &Vec<(usize, String)>) -> (grid:
    Vec<Vec<Option<usize>>>)
    ensures
        grid@.len() == n_contigs,
        forall|i: int| 0 <= i < n_contigs ==> (#[trigger] grid@[i])@.len() == samples@.len(),
        forall|i: int, j: int|
            0 <= i < n_contigs && 0 <= j < samples@.len() ==> #[trigger] grid@[i]@[j] == cell_upto(
                results_view(results@),
                i as usize,
                samples@[j]@,
                results@.len() as int,
            ),
{
    let ghost rv = results_view(results@);
    let m = samples.len();
    let mut grid: Vec<Vec<Option<usize>>> = Vec::new();
    let mut a: usize = 0;
    while a < n_contigs
        invariant
            a <= n_contigs,
            m == samples@.len(),
            grid@.len() == a,
            forall|i: int| 0 <= i < a ==> (#[trigger] grid@[i])@ == Seq::new(m as nat, |j: int| None::<usize>),
        decreases n_contigs - a,
    {
        let mut row: Vec<Option<usize>> = Vec::new();
        let mut b: usize = 0;
        while b < m
            invariant
                b <= m,
                row@ == Seq::new(b as nat, |j: int| None::<usize>),
            decreases m - b,
        {
            row.push(None);
            b = b + 1;
            assert(row@ =~= Seq::new(b as nat, |j: int| None::<usize>));
        }
        grid.push(row);
        a = a + 1;
    }
    let n = results.len();
    let mut r: usize = 0;
    while r < n
        invariant
            n == results@.len(),
            rv == results_view(results@),
            m == samples@.len(),
            r <= n,
            grid@.len() == n_contigs,
            forall|i: int| 0 <= i < n_contigs ==> (#[trigger] grid@[i])@.len() == m,
            forall|i: int, j: int|
                0 <= i < n_contigs && 0 <= j < m ==> #[trigger] grid@[i]@[j] == cell_upto(
                    rv,
                    i as usize,
                    samples@[j]@,
                    r as int,
                ),
        decreases n - r,
    {
        let ci = results[r].0;
        if ci < n_contigs {
            let mut j: usize = 0;
            while j < m
                invariant
                    n == results@.len(),
                    rv == results_view(results@),
                    m == samples@.len(),
                    r < n,
                    ci == results@[r as int].0,
                    ci < n_contigs,
                    j <= m,
                    grid@.len() == n_contigs,
                    forall|i: int| 0 <= i < n_contigs ==> (#[trigger] grid@[i])@.len() == m,
                    forall|i: int, jj: int|
                        0 <= i < n_contigs && 0 <= jj < m ==> #[trigger] grid@[i]@[jj] == if i == ci
                            && jj < j {
                            cell_upto(rv, i as usize, samples@[jj]@, r + 1)
                        } else {
                            cell_upto(rv, i as usize, samples@[jj]@, r as int)
                        },
                decreases m - j,
            {
                let ghost g0 = grid@;
                if samples[j] == results[r].1 {
                    let mut row = grid[ci].clone();
                    row.set(j, Some(r));
                    grid.set(ci, row);
                }
                proof {
                    assert forall|i: int, jj: int|
                        0 <= i < n_contigs && 0 <= jj < m implies #[trigger] grid@[i]@[jj] == if i
                        == ci && jj < j + 1 {
                        cell_upto(rv, i as usize, samples@[jj]@, r + 1)
                    } else {
                        cell_upto(rv, i as usize, samples@[jj]@, r as int)
                    } by {
                        assert(rv[r as int] == (results@[r as int].0, results@[r as int].1@));
                        if i == ci && jj == j {
                            if samples@[j as int]@ == results@[r as int].1@ {
                            } else {
                                assert(grid@[i] == g0[i]);
                            }
                        } else if i == ci {
                            if samples@[j as int]@ == results@[r as int].1@ {
                                assert(grid@[i]@[jj] == g0[i]@[jj]);
                            } else {
                                assert(grid@[i] == g0[i]);
                            }
                        } else {
                            assert(grid@[i] == g0[i]);
                        }
                    }
                }
                j = j + 1;
            }
        } else {
            proof {
                assert forall|i: int, j: int|
                    0 <= i < n_contigs && 0 <= j < m implies #[trigger] grid@[i]@[j] == cell_upto(
                    rv,
                    i as usize,
                    samples@[j]@,
                    r + 1,
                ) by {
                    assert(rv[r as int].0 == ci);
                }
            }
        }
        r = r + 1;
    }
    grid
}

/// The header row of the matrix over the first `n` sample columns: with `concoct`, the contig
/// name column then one column per sample; else contig name, length and mean depth, then a depth
/// and a variance column per sample.
pub open spec fn header_upto(samples: Seq<Seq<char>>, concoct: bool, n: int) -> Seq<char>
    decreases n,
{
    if n <= 0 {
        if concoct {
            "contigName"@
        } else {
            "contigName\tcontigLen\ttotalAvgDepth"@
        }
    } else if concoct {
        header_upto(samples, concoct, n - 1) + "\t"@ + samples[n - 1]
    } else {
        header_upto(samples, concoct, n - 1) + "\t"@ + samples[n - 1] + "\t"@ + samples[n - 1]
            + "-var"@
    }
}

/// The header row of the matrix (without the line break).
pub fn header_line(samples: &Vec<String>, concoct: bool) -> (h: String)
    ensures
        h@ == header_upto(names_view(samples@), concoct, samples@.len() as int),
{
    let ghost sv = names_view(samples@);
    let mut h = if concoct {
        String::from_str("contigName")
    } else {
        String::from_str("contigName\tcontigLen\ttotalAvgDepth")
    };
    let n = samples.len();
    let mut i: usize = 0;
    while i < n
        invariant
            n == samples@.len(),
            sv == names_view(samples@),
            i <= n,
            h@ == header_upto(sv, concoct, i as int),
        decreases n - i,
    {
        assert(sv[i as int] == samples@[i as int]@);
        h.append("\t");
        h.append(samples[i].as_str());
        if !concoct {
            h.append("\t");
            h.append(samples[i].as_str());
            h.append("-var");
        }
        i = i + 1;
    }
    h
}

} // verus!
