use vstd::prelude::*;

verus! {

/// 2-bit code of a nucleotide byte (A/a = 0, C/c = 1, G/g = 2, T/t = 3); `None` for any other byte.
pub open spec fn base_code(b: u8) -> Option<u64> {
    if b == 65 || b == 97 {
        Some(0)
    } else if b == 67 || b == 99 {
        Some(1)
    } else if b == 71 || b == 103 {
        Some(2)
    } else if b == 84 || b == 116 {
        Some(3)
    } else {
        None
    }
}

pub open spec fn is_base(b: u8) -> bool {
    base_code(b) is Some
}

/// The 2-bit code of a byte, with every non-nucleotide byte read as A.
pub open spec fn code(b: u8) -> nat {
    match base_code(b) {
        Some(x) => x as nat,
        None => 0,
    }
}

pub open spec fn pow4(n: nat) -> nat
    decreases n,
{
    if n == 0 {
        1
    } else {
        4 * pow4((n - 1) as nat)
    }
}

/// The forward packing of `s[a..a+n]`: the first base is the most significant digit in base 4.
pub open spec fn fwd(s: Seq<u8>, a: int, n: nat) -> nat
    decreases n,
{
    if n == 0 {
        0
    } else {
        fwd(s, a, (n - 1) as nat) * 4 + code(s[a + n - 1])
    }
}

/// The packing of the reverse complement of `s[a..a+n]`.
pub open spec fn rev(s: Seq<u8>, a: int, n: nat) -> nat
    decreases n,
{
    if n == 0 {
        0
    } else {
        rev(s, a, (n - 1) as nat) + (3 - code(s[a + n - 1])) as nat * pow4((n - 1) as nat)
    }
}

/// Every byte of the window `s[a..a+k]` is a nucleotide, and the window lies inside `s`.
pub open spec fn window_valid(s: Seq<u8>, a: int, k: nat) -> bool {
    &&& 0 <= a
    &&& a + k <= s.len()
    &&& forall|j: int| a <= j < a + k ==> is_base(#[trigger] s[j])
}

/// The canonical packing of a window: the smaller of the forward and reverse-complement packings.
pub open spec fn canonical(s: Seq<u8>, a: int, k: nat) -> nat {
    if fwd(s, a, k) < rev(s, a, k) {
        fwd(s, a, k)
    } else {
        rev(s, a, k)
    }
}

/// Invertible 64-bit integer mixing of a packed k-mer.
pub open spec fn mix64(x: u64) -> u64 {
    let k1 = !x.wrapping_add(x << 21u64);
    let k2 = k1 ^ (k1 >> 24u64);
    let k3 = k2.wrapping_add(k2 << 3u64).wrapping_add(k2 << 8u64);
    let k4 = k3 ^ (k3 >> 14u64);
    let k5 = k4.wrapping_add(k4 << 2u64).wrapping_add(k4 << 4u64);
    let k6 = k5 ^ (k5 >> 28u64);
    k6.wrapping_add(k6 << 31u64)
}

/// The hash of the canonical k-mer of the window starting at `a`.
pub open spec fn seed_at(s: Seq<u8>, a: int, k: nat) -> u64 {
    mix64(canonical(s, a, k) as u64)
}

/// The window starting at `a` is kept by FracMinHash sub-sampling at rate `1/c`.
pub open spec fn selected(s: Seq<u8>, a: int, c: nat, k: nat) -> bool {
    window_valid(s, a, k) && seed_at(s, a, k) as nat % c == 0
}

/// Start positions, in increasing order, of the kept windows that start before `n`.
pub open spec fn starts_upto(s: Seq<u8>, c: nat, k: nat, n: int) -> Seq<int>
    decreases n,
{
    if n <= 0 {
        Seq::empty()
    } else if selected(s, n - 1, c, k) {
        starts_upto(s, c, k, n - 1).push(n - 1)
    } else {
        starts_upto(s, c, k, n - 1)
    }
}

/// Start positions of all kept windows of `s`.
pub open spec fn seed_starts(s: Seq<u8>, c: nat, k: nat) -> Seq<int> {
    starts_upto(s, c, k, s.len() as int)
}

/// The seeds of `s`: the hashes of the kept windows, in the order of their positions.
pub open spec fn seeds_of(s: Seq<u8>, c: nat, k: nat) -> Seq<u64> {
    seed_starts(s, c, k).map_values(|a: int| seed_at(s, a, k))
}

/// The seeds of `s` with their start positions, each tagged with `contig`.
pub open spec fn positioned_seeds_of(s: Seq<u8>, c: nat, k: nat, contig: usize) -> Seq<
    (usize, usize, u64),
> {
    seed_starts(s, c, k).map_values(|a: int| (contig, a as usize, seed_at(s, a, k)))
}

/// Number of consecutive nucleotide bytes that end just before index `n`.
pub open spec fn run_len(s: Seq<u8>, n: int) -> nat
    decreases n,
{
    if n <= 0 {
        0
    } else if is_base(s[n - 1]) {
        run_len(s, n - 1) + 1
    } else {
        0
    }
}

proof fn lemma_run_len_le(s: Seq<u8>, n: int)
    requires
        0 <= n,
    ensures
        run_len(s, n) <= n,
    decreases n,
{
    if n > 0 {
        lemma_run_len_le(s, n - 1);
    }
}

proof fn lemma_code_bound(b: u8)
    ensures
        code(b) <= 3,
{
}

pub(crate) proof fn lemma_pow4_pos(n: nat)
    ensures
        pow4(n) >= 1,
    decreases n,
{
    if n > 0 {
        lemma_pow4_pos((n - 1) as nat);
    }
}

pub(crate) proof fn lemma_pow4_mono(a: nat, b: nat)
    requires
        a <= b,
    ensures
        pow4(a) <= pow4(b),
    decreases b,
{
    if a < b {
        lemma_pow4_mono(a, (b - 1) as nat);
        lemma_pow4_pos((b - 1) as nat);
    }
}

proof fn lemma_pow4_31()
    ensures
        pow4(31) == 0x4000_0000_0000_0000,
{
    reveal_with_fuel(pow4, 32);
}

proof fn lemma_fwd_bound(s: Seq<u8>, a: int, n: nat)
    ensures
        fwd(s, a, n) < pow4(n),
    decreases n,
{
    if n > 0 {
        lemma_fwd_bound(s, a, (n - 1) as nat);
        lemma_code_bound(s[a + n - 1]);
    }
}

proof fn lemma_rev_bound(s: Seq<u8>, a: int, n: nat)
    ensures
        rev(s, a, n) < pow4(n),
    decreases n,
{
    if n > 0 {
        let m = (n - 1) as nat;
        lemma_rev_bound(s, a, m);
        lemma_code_bound(s[a + n - 1]);
        let d = (3 - code(s[a + n - 1])) as nat;
        let p = pow4(m);
        let r = rev(s, a, m);
        assert(r + d * p < 4 * p) by (nonlinear_arith)
            requires
                r < p,
                d <= 3,
        ;
    }
}

/// Dropping the first base of a window of the forward packing.
proof fn lemma_fwd_split_first(s: Seq<u8>, a: int, n: nat)
    requires
        n >= 1,
    ensures
        fwd(s, a, n) == code(s[a]) * pow4((n - 1) as nat) + fwd(s, a + 1, (n - 1) as nat),
    decreases n,
{
    if n > 1 {
        let m = (n - 1) as nat;
        let m2 = (n - 2) as nat;
        lemma_fwd_split_first(s, a, m);
        assert(a + 1 + m - 1 == a + n - 1);
        let x = code(s[a]);
        let p = pow4(m2);
        let y = fwd(s, a + 1, m2);
        let z = code(s[a + n - 1]);
        assert((x * p + y) * 4 + z == x * (4 * p) + (y * 4 + z)) by (nonlinear_arith);
        assert(fwd(s, a, n) == fwd(s, a, m) * 4 + z);
        assert(fwd(s, a + 1, m) == y * 4 + z);
        assert(pow4(m) == 4 * p);
        assert(x * pow4(m) == x * (4 * p));
        assert(fwd(s, a, m) == x * p + y);
    } else {
        assert(fwd(s, a, 1) == fwd(s, a, 0) * 4 + code(s[a]));
        assert(pow4(0) == 1);
        assert(code(s[a]) * 1 == code(s[a]));
        assert(fwd(s, a + 1, 0) == 0);
    }
}

/// Dropping the first base of a window of the reverse-complement packing.
proof fn lemma_rev_split_first(s: Seq<u8>, a: int, n: nat)
    requires
        n >= 1,
    ensures
        rev(s, a, n) == (3 - code(s[a])) as nat + 4 * rev(s, a + 1, (n - 1) as nat),
    decreases n,
{
    if n > 1 {
        let m = (n - 1) as nat;
        let m2 = (n - 2) as nat;
        lemma_rev_split_first(s, a, m);
        assert(a + 1 + m - 1 == a + n - 1);
        let d = (3 - code(s[a + n - 1])) as nat;
        let p = pow4(m2);
        let r = rev(s, a + 1, m2);
        assert(4 * (r + d * p) == 4 * r + d * (4 * p)) by (nonlinear_arith);
        let d0 = (3 - code(s[a])) as nat;
        assert(rev(s, a, n) == rev(s, a, m) + d * pow4(m));
        assert(rev(s, a + 1, m) == r + d * p);
        assert(pow4(m) == 4 * p);
        assert(rev(s, a, m) == d0 + 4 * rev(s, a + 1, m2));
        assert(d0 + 4 * r + d * (4 * p) == d0 + 4 * (r + d * p));
        assert(d * pow4(m) == d * (4 * p));
        assert(rev(s, a, n) == d0 + 4 * rev(s, a + 1, m));
    } else {
        let d0 = (3 - code(s[a])) as nat;
        assert(rev(s, a, 1) == rev(s, a, 0) + d0 * pow4(0));
        assert(pow4(0) == 1);
        assert(d0 * 1 == d0);
        assert(rev(s, a + 1, 0) == 0);
    }
}

/// A run of at least `m` nucleotides ends before `n` exactly when the last `m` bytes are nucleotides.
proof fn lemma_run_len_window(s: Seq<u8>, n: int, m: nat)
    requires
        m <= n <= s.len(),
    ensures
        run_len(s, n) >= m <==> (forall|j: int| n - m <= j < n ==> is_base(#[trigger] s[j])),
    decreases n,
{
    if m > 0 {
        lemma_run_len_window(s, n - 1, (m - 1) as nat);
        if run_len(s, n) >= m {
            assert forall|j: int| n - m <= j < n implies is_base(#[trigger] s[j]) by {
                if j < n - 1 {
                    assert(n - 1 - (m - 1) <= j < n - 1);
                }
            }
        }
        if forall|j: int| n - m <= j < n ==> is_base(#[trigger] s[j]) {
            assert(is_base(s[n - 1]));
            assert forall|j: int| n - 1 - (m - 1) <= j < n - 1 implies is_base(#[trigger] s[j]) by {
                assert(n - m <= j < n);
            }
        }
    }
}

/// Invertible 64-bit integer mixing of a packed k-mer.
pub fn mix64_exec(x: u64) -> (r: u64)
    ensures
        r == mix64(x),
{
    let k1 = !x.wrapping_add(x << 21u64);
    let k2 = k1 ^ (k1 >> 24u64);
    let k3 = k2.wrapping_add(k2 << 3u64).wrapping_add(k2 << 8u64);
    let k4 = k3 ^ (k3 >> 14u64);
    let k5 = k4.wrapping_add(k4 << 2u64).wrapping_add(k4 << 4u64);
    let k6 = k5 ^ (k5 >> 28u64);
    k6.wrapping_add(k6 << 31u64)
}

/// 2-bit code of a nucleotide byte, or `None` for any other byte.
pub fn byte_code(b: u8) -> (r: Option<u64>)
    ensures
        r == base_code(b),
{
    if b == 65 || b == 97 {
        Some(0)
    } else if b == 67 || b == 99 {
        Some(1)
    } else if b == 71 || b == 103 {
        Some(2)
    } else if b == 84 || b == 116 {
        Some(3)
    } else {
        None
    }
}

/// Rolling state over the last `len` nucleotides (at most `k - 1`) before the current index.
struct Roller {
    f: u64,
    r: u64,
    len: usize,
    pw: u64,
    top: u64,
}

impl Roller {
    spec fn inv(&self, s: Seq<u8>, i: int, k: nat) -> bool {
        &&& 1 <= k <= 31
        &&& 0 <= i <= s.len()
        &&& self.len as nat == if run_len(s, i) < k - 1 {
            run_len(s, i)
        } else {
            (k - 1) as nat
        }
        &&& self.f as nat == fwd(s, i - self.len, self.len as nat)
        &&& self.r as nat == rev(s, i - self.len, self.len as nat)
        &&& self.pw as nat == pow4(self.len as nat)
        &&& self.top as nat == pow4((k - 1) as nat)
    }

    fn new(k: usize) -> (ro: Roller)
        requires
            1 <= k <= 31,
        ensures
            ro.inv(Seq::empty(), 0, k as nat),
            forall|s: Seq<u8>| ro.inv(s, 0, k as nat),
    {
        let mut top: u64 = 1;
        let mut j: usize = 1;
        while j < k
            invariant
                1 <= j <= k <= 31,
                top as nat == pow4((j - 1) as nat),
            decreases k - j,
        {
            proof {
                lemma_pow4_mono(j as nat, 31);
                lemma_pow4_31();
            }
            top = top * 4;
            j = j + 1;
        }
        Roller { f: 0, r: 0, len: 0, pw: 1, top }
    }

    /// Feeds byte `s[i]`; returns the canonical packing of the window that ends at `i` when that
    /// window is made only of nucleotides.
    fn step(&mut self, b: u8, k: usize, Ghost(s): Ghost<Seq<u8>>, Ghost(i): Ghost<int>) -> (out:
        Option<u64>)
        requires
            old(self).inv(s, i, k as nat),
            0 <= i < s.len(),
            s[i] == b,
        ensures
            final(self).inv(s, i + 1, k as nat),
            out is Some <==> (i + 1 >= k && window_valid(s, i + 1 - k, k as nat)),
            out is Some ==> out->0 as nat == canonical(s, i + 1 - k, k as nat),
    {
        let ghost kk = k as nat;
        let ghost m = self.len as nat;
        let ghost a = i - m;
        proof {
            lemma_run_len_le(s, i);
        }
        match byte_code(b) {
            None => {
                self.f = 0;
                self.r = 0;
                self.len = 0;
                self.pw = 1;
                proof {
                    if i + 1 >= k {
                        assert(!is_base(s[i]));
                    }
                }
                None
            },
            Some(x) => {
                proof {
                    lemma_fwd_bound(s, a, m);
                    lemma_rev_bound(s, a, m);
                    lemma_pow4_mono(m + 1, 31);
                    lemma_pow4_31();
                    assert(a + (m + 1) - 1 == i);
                    assert(code(s[i]) == x);
                    let f0 = self.f as nat;
                    let p = pow4(m);
                    assert(f0 * 4 + x < 4 * p) by (nonlinear_arith)
                        requires
                            f0 < p,
                            x <= 3,
                    ;
                    let r0 = self.r as nat;
                    assert(r0 + (3 - x) * p < 4 * p) by (nonlinear_arith)
                        requires
                            r0 < p,
                            x <= 3,
                    ;
                }
                let nf = self.f * 4 + x;
                let nr = self.r + (3 - x) * self.pw;
                assert(nf as nat == fwd(s, a, m + 1));
                assert(nr as nat == rev(s, a, m + 1));
                proof {
                    lemma_run_len_window(s, i + 1, m + 1);
                    assert forall|j: int| i + 1 - (m + 1) <= j < i + 1 implies is_base(
                        #[trigger] s[j],
                    ) by {
                        if j < i {
                            lemma_run_len_window(s, i, m);
                            assert(i - m <= j < i);
                        }
                    }
                }
                if self.len + 1 == k {
                    let canon = if nf < nr {
                        nf
                    } else {
                        nr
                    };
                    proof {
                        lemma_fwd_split_first(s, a, kk);
                        lemma_rev_split_first(s, a, kk);
                        lemma_fwd_bound(s, a + 1, (kk - 1) as nat);
                        let hi = code(s[a]);
                        let t = pow4((kk - 1) as nat);
                        let lo = fwd(s, a + 1, (kk - 1) as nat);
                        assert((hi * t + lo) % t == lo) by (nonlinear_arith)
                            requires
                                lo < t,
                        ;
                        let d = (3 - code(s[a])) as nat;
                        let rr = rev(s, a + 1, (kk - 1) as nat);
                        lemma_code_bound(s[a]);
                        assert((d + 4 * rr) / 4 == rr) by (nonlinear_arith)
                            requires
                                d <= 3,
                        ;
                        assert(a + 1 == i + 1 - (kk - 1));
                    }
                    self.f = nf % self.top;
                    self.r = nr / 4;
                    self.len = k - 1;
                    self.pw = self.top;
                    Some(canon)
                } else {
                    self.f = nf;
                    self.r = nr;
                    self.len = self.len + 1;
                    self.pw = self.pw * 4;
                    proof {
                        if i + 1 >= k {
                            lemma_run_len_window(s, i + 1, kk);
                        }
                    }
                    None
                }
            },
        }
    }
}

/// Appends to `kmer_vec` the FracMinHash seeds of `string`: for each window of `k` nucleotides,
/// in order of position, the mixed hash of its canonical packing when that hash is a multiple
/// of `c`. A byte that is not a nucleotide breaks every window that contains it.
pub fn fmh_seeds(string: &[u8], kmer_vec: &mut Vec<u64>, c: usize, k: usize)
    requires
        1 <= c,
        1 <= k <= 31,
    ensures
        final(kmer_vec)@ == old(kmer_vec)@ + seeds_of(string@, c as nat, k as nat),
{
    let ghost s = string@;
    let ghost base = kmer_vec@;
    let mut ro = Roller::new(k);
    let n = string.len();
    let mut i: usize = 0;
    while i < n
        invariant
            n == s.len(),
            s == string@,
            1 <= c,
            1 <= k <= 31,
            0 <= i <= n,
            ro.inv(s, i as int, k as nat),
            kmer_vec@ == base + starts_upto(s, c as nat, k as nat, i + 1 - k).map_values(
                |a: int| seed_at(s, a, k as nat),
            ),
        decreases n - i,
    {
        let ghost prev = starts_upto(s, c as nat, k as nat, i + 1 - k);
        let out = ro.step(string[i], k, Ghost(s), Ghost(i as int));
        proof {
            if i + 1 < k {
                assert(starts_upto(s, c as nat, k as nat, i + 2 - k) == prev);
            }
        }
        match out {
            Some(canon) => {
                let h = mix64_exec(canon);
                if h % (c as u64) == 0 {
                    kmer_vec.push(h);
                    proof {
                        let f = |a: int| seed_at(s, a, k as nat);
                        assert(prev.push(i + 1 - k).map_values(f) =~= prev.map_values(f).push(
                            f(i + 1 - k),
                        ));
                    }
                }
            },
            None => {},
        }
        i = i + 1;
    }
    proof {
        if n + 1 - k < n {
            assert forall|m: int| n + 1 - k <= m < n implies starts_upto(
                s,
                c as nat,
                k as nat,
                m + 1,
            ) == #[trigger] starts_upto(s, c as nat, k as nat, m) by {
                assert(!window_valid(s, m, k as nat));
            }
            lemma_starts_stable(s, c as nat, k as nat, n + 1 - k, n as int);
        }
    }
}

/// Appends to `kmer_vec` the FracMinHash seeds of `string` as `(contig_number, start, hash)`,
/// where `start` is the index in `string` of the first base of the window.
pub fn fmh_seeds_positions(
    string: &[u8],
    kmer_vec: &mut Vec<(usize, usize, u64)>,
    c: usize,
    k: usize,
    contig_number: usize,
)
    requires
        1 <= c,
        1 <= k <= 31,
    ensures
        final(kmer_vec)@ == old(kmer_vec)@ + positioned_seeds_of(
            string@,
            c as nat,
            k as nat,
            contig_number,
        ),
{
    let ghost s = string@;
    let ghost base = kmer_vec@;
    let ghost f = |a: int| (contig_number, a as usize, seed_at(s, a, k as nat));
    let mut ro = Roller::new(k);
    let n = string.len();
    let mut i: usize = 0;
    while i < n
        invariant
            n == s.len(),
            s == string@,
            1 <= c,
            1 <= k <= 31,
            0 <= i <= n,
            f == (|a: int| (contig_number, a as usize, seed_at(s, a, k as nat))),
            ro.inv(s, i as int, k as nat),
            kmer_vec@ == base + starts_upto(s, c as nat, k as nat, i + 1 - k).map_values(f),
        decreases n - i,
    {
        let ghost prev = starts_upto(s, c as nat, k as nat, i + 1 - k);
        let out = ro.step(string[i], k, Ghost(s), Ghost(i as int));
        proof {
            if i + 1 < k {
                assert(starts_upto(s, c as nat, k as nat, i + 2 - k) == prev);
            }
        }
        match out {
            Some(canon) => {
                let h = mix64_exec(canon);
                if h % (c as u64) == 0 {
                    kmer_vec.push((contig_number, i + 1 - k, h));
                    proof {
                        assert(prev.push(i + 1 - k).map_values(f) =~= prev.map_values(f).push(
                            f(i + 1 - k),
                        ));
                    }
                }
            },
            None => {},
        }
        i = i + 1;
    }
    proof {
        if n + 1 - k < n {
            assert forall|m: int| n + 1 - k <= m < n implies starts_upto(
                s,
                c as nat,
                k as nat,
                m + 1,
            ) == #[trigger] starts_upto(s, c as nat, k as nat, m) by {
                assert(!window_valid(s, m, k as nat));
            }
            lemma_starts_stable(s, c as nat, k as nat, n + 1 - k, n as int);
        }
    }
}

/// Appends the FracMinHash seeds of `string` to `kmer_vec` (see `fmh_seeds`).
pub fn extract_markers(string: &[u8], kmer_vec: &mut Vec<u64>, c: usize, k: usize)
    requires
        1 <= c,
        1 <= k <= 31,
    ensures
        final(kmer_vec)@ == old(kmer_vec)@ + seeds_of(string@, c as nat, k as nat),
{
    fmh_seeds(string, kmer_vec, c, k)
}

/// Appends the positioned FracMinHash seeds of `string` to `kmer_vec` (see `fmh_seeds_positions`).
pub fn extract_markers_positions(
    string: &[u8],
    kmer_vec: &mut Vec<(usize, usize, u64)>,
    c: usize,
    k: usize,
    contig_number: usize,
)
    requires
        1 <= c,
        1 <= k <= 31,
    ensures
        final(kmer_vec)@ == old(kmer_vec)@ + positioned_seeds_of(
            string@,
            c as nat,
            k as nat,
            contig_number,
        ),
{
    fmh_seeds_positions(string, kmer_vec, c, k, contig_number)
}

/// Start positions of the kept windows are increasing and each window lies inside the sequence.
pub proof fn lemma_seed_starts_increasing(s: Seq<u8>, c: nat, k: nat, n: int)
    ensures
        forall|x: int, y: int|
            0 <= x < y < starts_upto(s, c, k, n).len() ==> starts_upto(s, c, k, n)[x]
                < starts_upto(s, c, k, n)[y],
        forall|x: int|
            0 <= x < starts_upto(s, c, k, n).len() ==> 0 <= #[trigger] starts_upto(s, c, k, n)[x]
                < n && selected(s, starts_upto(s, c, k, n)[x], c, k),
    decreases n,
{
    if n > 0 {
        lemma_seed_starts_increasing(s, c, k, n - 1);
        let prev = starts_upto(s, c, k, n - 1);
        let cur = starts_upto(s, c, k, n);
        if selected(s, n - 1, c, k) {
            assert(cur == prev.push(n - 1));
            assert forall|x: int| 0 <= x < cur.len() implies 0 <= #[trigger] cur[x] < n && selected(
                s,
                cur[x],
                c,
                k,
            ) by {
                if x < prev.len() {
                    assert(cur[x] == prev[x]);
                }
            }
            assert forall|x: int, y: int| 0 <= x < y < cur.len() implies cur[x] < cur[y] by {
                assert(cur[x] == prev[x]);
                if y < prev.len() {
                    assert(cur[y] == prev[y]);
                }
            }
        }
    }
}

proof fn lemma_starts_stable(s: Seq<u8>, c: nat, k: nat, lo: int, hi: int)
    requires
        lo <= hi,
        forall|m: int| lo <= m < hi ==> starts_upto(s, c, k, m + 1) == #[trigger] starts_upto(s, c, k, m),
    ensures
        starts_upto(s, c, k, hi) == starts_upto(s, c, k, lo),
    decreases hi - lo,
{
    if lo < hi {
        lemma_starts_stable(s, c, k, lo, hi - 1);
    }
}

} // verus!
