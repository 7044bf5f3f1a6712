use vstd::prelude::*;

verus! {

/// A permutation flow-shop instance: every job visits machines `0..n_machines`
/// in order, and `processing_times[job][machine]` is the time it spends there.
#[derive(Debug, Clone)]
pub struct FSSPInstance {
    pub n_jobs: usize,
    pub n_machines: usize,
    pub processing_times: Vec<Vec<u32>>,
}

/// `s` lists `n` job indices, each below `n`.
pub open spec fn is_job_order(s: Seq<usize>, n: nat) -> bool {
    &&& s.len() == n
    &&& forall|k: int| 0 <= k < s.len() ==> (#[trigger] s[k]) < n
}

/// `s` is a permutation of `0..n`.
pub open spec fn is_permutation(s: Seq<usize>, n: nat) -> bool {
    &&& is_job_order(s, n)
    &&& s.no_duplicates()
}

/// Completion time of the job at position `j` of `s` on machine `i`.
pub open spec fn completion(pt: Seq<Seq<u32>>, s: Seq<usize>, i: nat, j: nat) -> int
    decreases i + j,
{
    let p = pt[s[j as int] as int][i as int] as int;
    if i == 0 && j == 0 {
        p
    } else if i == 0 {
        completion(pt, s, 0, (j - 1) as nat) + p
    } else if j == 0 {
        completion(pt, s, (i - 1) as nat, 0) + p
    } else {
        let a = completion(pt, s, (i - 1) as nat, j);
        let b = completion(pt, s, i, (j - 1) as nat);
        (if a >= b { a } else { b }) + p
    }
}

/// Sum of the first `k` entries of a row.
pub open spec fn row_prefix(row: Seq<u32>, k: nat) -> int
    decreases k,
{
    if k == 0 {
        0
    } else {
        row_prefix(row, (k - 1) as nat) + row[k - 1] as int
    }
}

/// Total processing time of a job over all machines.
pub open spec fn row_total(row: Seq<u32>) -> int {
    row_prefix(row, row.len())
}

/// Total processing time of the jobs listed in `s`.
pub open spec fn order_total(pt: Seq<Seq<u32>>, s: Seq<usize>) -> int
    decreases s.len(),
{
    if s.len() == 0 {
        0
    } else {
        order_total(pt, s.drop_last()) + row_total(pt[s.last() as int])
    }
}

/// Total processing time of the first `k` jobs of the instance.
pub open spec fn jobs_total(pt: Seq<Seq<u32>>, k: nat) -> int
    decreases k,
{
    if k == 0 {
        0
    } else {
        jobs_total(pt, (k - 1) as nat) + row_total(pt[k - 1])
    }
}

/// Why a table cannot be a flow-shop instance.
#[derive(Debug, Clone, Copy, PartialEq, Eq, Structural)]
pub enum InstanceError {
    /// No input at all.
    Empty,
    /// The header does not hold two positive integers.
    BadHeader,
    /// A job row does not hold one time per machine.
    ColumnCount,
    /// The number of job rows differs from the header's.
    RowCount,
    /// A field is not a number that fits in 32 bits.
    InvalidNumber,
    /// The processing times add up to more than `u32::MAX`.
    TooLarge,
}

/// What is wrong with a table of `n_jobs` rows of `n_machines` times, if anything.
pub open spec fn table_error(n_jobs: nat, n_machines: nat, pt: Seq<Seq<u32>>) -> Option<InstanceError> {
    if n_jobs == 0 || n_machines == 0 {
        Some(InstanceError::BadHeader)
    } else if exists|j: int| 0 <= j < pt.len() && (#[trigger] pt[j]).len() != n_machines {
        Some(InstanceError::ColumnCount)
    } else if pt.len() != n_jobs {
        Some(InstanceError::RowCount)
    } else if jobs_total(pt, n_jobs) > u32::MAX {
        Some(InstanceError::TooLarge)
    } else {
        None
    }
}

impl FSSPInstance {
    /// Builds an instance after checking its shape and that all of its work
    /// fits in 32 bits.
    pub fn new(n_jobs: usize, n_machines: usize, processing_times: Vec<Vec<u32>>) -> (r: Result<
        FSSPInstance,
        InstanceError,
    >)
        ensures
            match table_error(n_jobs as nat, n_machines as nat, processing_times.deep_view()) {
                Some(e) => r == Err::<FSSPInstance, InstanceError>(e),
                None => r matches Ok(inst) && inst.wf() && inst.total_time() <= u32::MAX
                    && inst.n_jobs == n_jobs && inst.n_machines == n_machines && inst.times()
                    == processing_times.deep_view(),
            },
    {
        if n_jobs == 0 || n_machines == 0 {
            return Err(InstanceError::BadHeader);
        }
        let mut j: usize = 0;
        while j < processing_times.len()
            invariant
                0 <= j <= processing_times@.len(),
                n_jobs > 0,
                n_machines > 0,
                forall|x: int| 0 <= x < j ==> #[trigger] processing_times@[x]@.len() == n_machines,
            decreases processing_times@.len() - j,
        {
            assert(processing_times.deep_view()[j as int] =~= processing_times@[j as int]@);
            if processing_times[j].len() != n_machines {
                return Err(InstanceError::ColumnCount);
            }
            j = j + 1;
        }
        assert(forall|x: int|
            0 <= x < processing_times@.len() ==> #[trigger] processing_times.deep_view()[x].len()
                == n_machines) by {
            assert forall|x: int| 0 <= x < processing_times@.len() implies #[trigger] processing_times.deep_view()[x].len()
                == n_machines by {
                assert(processing_times.deep_view()[x] =~= processing_times@[x]@);
            }
        }
        if processing_times.len() != n_jobs {
            return Err(InstanceError::RowCount);
        }
        let inst = FSSPInstance { n_jobs, n_machines, processing_times };
        assert forall|x: int| 0 <= x < inst.n_jobs implies (#[trigger] inst.times()[x]).len()
            == inst.n_machines by {
            assert(inst.times()[x] == inst.processing_times@[x]@);
        }
        if inst.total_fits() {
            Ok(inst)
        } else {
            Err(InstanceError::TooLarge)
        }
    }

    /// Whether all of the work adds up to at most `u32::MAX`.
    pub fn total_fits(&self) -> (r: bool)
        requires
            self.wf(),
        ensures
            r == (self.total_time() <= u32::MAX),
    {
        let ghost pt = self.times();
        let n = self.n_jobs;
        let m = self.n_machines;
        let mut acc: u64 = 0;
        let mut j: usize = 0;
        while j < n
            invariant
                self.wf(),
                pt == self.times(),
                n == self.n_jobs,
                m == self.n_machines,
                0 <= j <= n,
                acc == jobs_total(pt, j as nat),
                acc <= u32::MAX,
            decreases n - j,
        {
            let row = &self.processing_times[j];
            assert(row@ == pt[j as int]);
            let mut i: usize = 0;
            while i < m
                invariant
                    self.wf(),
                    pt == self.times(),
                    n == self.n_jobs,
                    m == self.n_machines,
                    0 <= j < n,
                    row@ == pt[j as int],
                    row@.len() == m,
                    0 <= i <= m,
                    acc == jobs_total(pt, j as nat) + row_prefix(row@, i as nat),
                    acc <= u32::MAX,
                decreases m - i,
            {
                acc = acc + row[i] as u64;
                if acc > u32::MAX as u64 {
                    proof {
                        lemma_row_prefix_bounds(row@, (i + 1) as nat, m as nat);
                        lemma_jobs_total_monotone(pt, (j + 1) as nat, n as nat);
                    }
                    return false;
                }
                i = i + 1;
            }
            j = j + 1;
        }
        true
    }

    /// The processing-time table as a sequence of rows.
    pub open spec fn times(&self) -> Seq<Seq<u32>> {
        self.processing_times.deep_view()
    }

    /// One row per job, one entry per machine, at least one of each.
    pub open spec fn wf(&self) -> bool {
        &&& self.n_jobs >= 1
        &&& self.n_machines >= 1
        &&& self.times().len() == self.n_jobs
        &&& forall|j: int| 0 <= j < self.n_jobs ==> (#[trigger] self.times()[j]).len() == self.n_machines
    }

    /// Sum of every processing time in the table.
    pub open spec fn total_time(&self) -> int {
        jobs_total(self.times(), self.n_jobs as nat)
    }

    /// The makespan of `s`: completion of its last job on the last machine.
    pub open spec fn makespan_of(&self, s: Seq<usize>) -> int {
        completion(self.times(), s, (self.n_machines - 1) as nat, (self.n_jobs - 1) as nat)
    }

    /// Computes the makespan of `sequence`, keeping one completion time per machine.
    pub fn calculate_makespan(&self, sequence: &[usize]) -> (r: u32)
        requires
            self.wf(),
            is_job_order(sequence@, self.n_jobs as nat),
            self.makespan_of(sequence@) <= u32::MAX,
        ensures
            r == self.makespan_of(sequence@),
    {
        let n = self.n_jobs;
        let m = self.n_machines;
        let ghost pt = self.times();
        let ghost s = sequence@;
        let mut c: Vec<u32> = vec![0; m];
        let mut j: usize = 0;
        while j < n
            invariant
                self.wf(),
                n == self.n_jobs,
                m == self.n_machines,
                pt == self.times(),
                s == sequence@,
                is_job_order(s, n as nat),
                self.makespan_of(s) <= u32::MAX,
                0 <= j <= n,
                c@.len() == m,
                forall|k: int|
                    0 <= k < m ==> #[trigger] c@[k] == (if j == 0 {
                        0
                    } else {
                        completion(pt, s, k as nat, (j - 1) as nat)
                    }),
            decreases n - j,
        {
            let job = sequence[j];
            let row = &self.processing_times[job];
            assert(row@ == pt[job as int]);
            let mut i: usize = 0;
            while i < m
                invariant
                    self.wf(),
                    n == self.n_jobs,
                    m == self.n_machines,
                    pt == self.times(),
                    s == sequence@,
                    is_job_order(s, n as nat),
                    self.makespan_of(s) <= u32::MAX,
                    0 <= j < n,
                    0 <= i <= m,
                    job == s[j as int],
                    row@ == pt[job as int],
                    row@.len() == m,
                    c@.len() == m,
                    forall|k: int| 0 <= k < i ==> #[trigger] c@[k] == completion(pt, s, k as nat, j as nat),
                    forall|k: int|
                        i <= k < m ==> #[trigger] c@[k] == (if j == 0 {
                            0
                        } else {
                            completion(pt, s, k as nat, (j - 1) as nat)
                        }),
                decreases m - i,
            {
                let p = row[i];
                let before = if i == 0 { 0 } else { c[i - 1] };
                let earlier = c[i];
                let start = if before >= earlier { before } else { earlier };
                proof {
                    lemma_completion_nonneg(pt, s, i as nat, j as nat);
                    lemma_completion_monotone(pt, s, i as nat, j as nat, (m - 1) as nat, (n - 1) as nat);
                    if j > 0 {
                        lemma_completion_nonneg(pt, s, i as nat, (j - 1) as nat);
                    }
                    if i > 0 {
                        lemma_completion_nonneg(pt, s, (i - 1) as nat, j as nat);
                    }
                }
                c.set(i, start + p);
                i = i + 1;
            }
            j = j + 1;
        }
        c[m - 1]
    }
}

/// Every completion time is non-negative.
pub proof fn lemma_completion_nonneg(pt: Seq<Seq<u32>>, s: Seq<usize>, i: nat, j: nat)
    ensures
        completion(pt, s, i, j) >= 0,
    decreases i + j,
{
    if i > 0 {
        lemma_completion_nonneg(pt, s, (i - 1) as nat, j);
    }
    if j > 0 {
        lemma_completion_nonneg(pt, s, i, (j - 1) as nat);
    }
}

/// Completion times grow along machines and along positions.
pub proof fn lemma_completion_monotone(
    pt: Seq<Seq<u32>>,
    s: Seq<usize>,
    i: nat,
    j: nat,
    i2: nat,
    j2: nat,
)
    requires
        i <= i2,
        j <= j2,
    ensures
        completion(pt, s, i, j) <= completion(pt, s, i2, j2),
    decreases i2 + j2,
{
    if i < i2 {
        lemma_completion_monotone(pt, s, i, j, (i2 - 1) as nat, j2);
    } else if j < j2 {
        lemma_completion_monotone(pt, s, i, j, i2, (j2 - 1) as nat);
    }
}

/// Row prefixes are non-negative and grow up to the row's total.
pub proof fn lemma_row_prefix_bounds(row: Seq<u32>, k: nat, k2: nat)
    requires
        k <= k2,
    ensures
        0 <= row_prefix(row, k) <= row_prefix(row, k2),
    decreases k2,
{
    if k < k2 {
        lemma_row_prefix_bounds(row, k, (k2 - 1) as nat);
    } else if k > 0 {
        lemma_row_prefix_bounds(row, (k - 1) as nat, (k - 1) as nat);
    }
}

/// The first `k` jobs never take longer in total than the first `k2 >= k`.
pub proof fn lemma_jobs_total_monotone(pt: Seq<Seq<u32>>, k: nat, k2: nat)
    requires
        k <= k2,
    ensures
        0 <= jobs_total(pt, k) <= jobs_total(pt, k2),
    decreases k2,
{
    if k < k2 {
        lemma_jobs_total_monotone(pt, k, (k2 - 1) as nat);
        lemma_row_prefix_bounds(pt[k2 - 1], 0, pt[k2 - 1].len());
    } else if k > 0 {
        lemma_jobs_total_monotone(pt, (k - 1) as nat, (k - 1) as nat);
        lemma_row_prefix_bounds(pt[k - 1], 0, pt[k - 1].len());
    }
}

/// A completion time is at most the work of the earlier jobs plus the work of
/// the current job up to that machine.
proof fn lemma_completion_bound(pt: Seq<Seq<u32>>, s: Seq<usize>, m: nat, i: nat, j: nat)
    requires
        i < m,
        j < s.len(),
        forall|k: int| 0 <= k < s.len() ==> 0 <= #[trigger] s[k] < pt.len(),
        forall|r: int| 0 <= r < pt.len() ==> (#[trigger] pt[r]).len() == m,
    ensures
        completion(pt, s, i, j) <= order_total(pt, s.take(j as int)) + row_prefix(
            pt[s[j as int] as int],
            i + 1,
        ),
    decreases i + j,
{
    let row = pt[s[j as int] as int];
    lemma_row_prefix_bounds(row, i, i);
    if j > 0 {
        let prev = pt[s[j - 1] as int];
        lemma_completion_bound(pt, s, m, i, (j - 1) as nat);
        lemma_row_prefix_bounds(prev, i + 1, m);
        assert(s.take(j as int).drop_last() =~= s.take(j - 1));
    }
    if i > 0 {
        lemma_completion_bound(pt, s, m, (i - 1) as nat, j);
    }
    if j > 0 {
        lemma_order_total_nonneg(pt, s.take(j - 1));
    }
    lemma_order_total_nonneg(pt, s.take(j as int));
}

proof fn lemma_order_total_nonneg(pt: Seq<Seq<u32>>, s: Seq<usize>)
    ensures
        order_total(pt, s) >= 0,
    decreases s.len(),
{
    if s.len() > 0 {
        lemma_order_total_nonneg(pt, s.drop_last());
        let row = pt[s.last() as int];
        lemma_row_prefix_bounds(row, 0, row.len());
    }
}

/// Taking the job at position `x` out of `s` removes exactly its row total.
proof fn lemma_order_total_remove(pt: Seq<Seq<u32>>, s: Seq<usize>, x: int)
    requires
        0 <= x < s.len(),
    ensures
        order_total(pt, s) == order_total(pt, s.remove(x)) + row_total(pt[s[x] as int]),
    decreases s.len(),
{
    if x == s.len() - 1 {
        assert(s.remove(x) =~= s.drop_last());
    } else {
        lemma_order_total_remove(pt, s.drop_last(), x);
        assert(s.remove(x).drop_last() =~= s.drop_last().remove(x));
    }
}

/// Jobs listed without repetition, all below `k`, take at most the first `k` jobs' work.
proof fn lemma_order_total_distinct(pt: Seq<Seq<u32>>, s: Seq<usize>, k: nat)
    requires
        k <= pt.len(),
        s.no_duplicates(),
        forall|x: int| 0 <= x < s.len() ==> #[trigger] s[x] < k,
    ensures
        order_total(pt, s) <= jobs_total(pt, k),
    decreases k,
{
    if k == 0 {
        if s.len() > 0 {
            assert(s[0] < 0);
        }
    } else {
        let row = pt[k - 1];
        lemma_row_prefix_bounds(row, 0, row.len());
        if exists|x: int| 0 <= x < s.len() && s[x] == k - 1 {
            let x = choose|x: int| 0 <= x < s.len() && s[x] == k - 1;
            let t = s.remove(x);
            assert forall|y: int| 0 <= y < t.len() implies #[trigger] t[y] < k - 1 by {
                if y < x {
                    assert(t[y] == s[y]);
                } else {
                    assert(t[y] == s[y + 1]);
                }
            }
            assert(t.no_duplicates()) by {
                assert forall|a: int, b: int| 0 <= a < t.len() && 0 <= b < t.len() && a != b
                    implies t[a] != t[b] by {
                    let sa = if a < x { a } else { a + 1 };
                    let sb = if b < x { b } else { b + 1 };
                    assert(t[a] == s[sa] && t[b] == s[sb]);
                }
            }
            lemma_order_total_distinct(pt, t, (k - 1) as nat);
            lemma_order_total_remove(pt, s, x);
            assert(jobs_total(pt, k) == jobs_total(pt, (k - 1) as nat) + row_total(row));
        } else {
            lemma_order_total_distinct(pt, s, (k - 1) as nat);
            assert(jobs_total(pt, k) == jobs_total(pt, (k - 1) as nat) + row_total(row));
        }
    }
}

/// No permutation of a well-formed instance takes longer than all of its work.
pub proof fn lemma_makespan_at_most_total(inst: &FSSPInstance, s: Seq<usize>)
    requires
        inst.wf(),
        is_permutation(s, inst.n_jobs as nat),
    ensures
        0 <= inst.makespan_of(s) <= inst.total_time(),
{
    let pt = inst.times();
    let n = inst.n_jobs as nat;
    let m = inst.n_machines as nat;
    assert forall|r: int| 0 <= r < pt.len() implies (#[trigger] pt[r]).len() == m by {
        assert(inst.times()[r].len() == m);
    }
    lemma_completion_bound(pt, s, m, (m - 1) as nat, (n - 1) as nat);
    lemma_completion_nonneg(pt, s, (m - 1) as nat, (n - 1) as nat);
    let row = pt[s[n - 1] as int];
    assert(row.len() == m);
    assert(s.take(n as int) =~= s);
    assert(s.take(n as int).drop_last() =~= s.take(n - 1));
    lemma_order_total_distinct(pt, s, n);
}

/// With a single job, the makespan is that job's total processing time.
pub proof fn lemma_single_job_makespan(inst: &FSSPInstance, s: Seq<usize>)
    requires
        inst.wf(),
        inst.n_jobs == 1,
        is_job_order(s, 1),
    ensures
        inst.makespan_of(s) == row_total(inst.times()[0]),
{
    let pt = inst.times();
    assert(s[0] < 1);
    lemma_single_job_completion(pt, s, (inst.n_machines - 1) as nat);
    assert(pt[0].len() == inst.n_machines);
}

proof fn lemma_single_job_completion(pt: Seq<Seq<u32>>, s: Seq<usize>, i: nat)
    requires
        s.len() > 0,
        s[0] == 0,
    ensures
        completion(pt, s, i, 0) == row_prefix(pt[0], (i + 1) as nat),
    decreases i,
{
    assert(row_prefix(pt[0], (i + 1) as nat) == row_prefix(pt[0], i) + pt[0][i as int] as int);
    if i > 0 {
        lemma_single_job_completion(pt, s, (i - 1) as nat);
    } else {
        assert(row_prefix(pt[0], 0) == 0);
    }
}

/// The makespan depends on the instance and the sequence alone: equal inputs
/// give equal makespans.
pub proof fn lemma_makespan_deterministic(a: &FSSPInstance, b: &FSSPInstance, s: Seq<usize>, t: Seq<usize>)
    requires
        a.times() == b.times(),
        a.n_jobs == b.n_jobs,
        a.n_machines == b.n_machines,
        s == t,
    ensures
        a.makespan_of(s) == b.makespan_of(t),
{
}
} // verus!
