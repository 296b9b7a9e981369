//! A batch of files: work is handed out in order, results are reported in
//! order whenever they arrive, and the outcome is counted.

use vstd::arithmetic::div_mod::lemma_add_mod_noop;
use vstd::prelude::*;

verus! {

/// Hands out the numbers of the files, each once and in order.
pub struct WorkQueue {
    next: usize,
    total: usize,
}

impl WorkQueue {
    /// How many files there are.
    pub closed spec fn total(&self) -> nat {
        self.total as nat
    }

    /// How many files were handed out.
    pub closed spec fn handed_out(&self) -> nat {
        self.next as nat
    }

    pub closed spec fn wf(&self) -> bool {
        self.next <= self.total
    }

    pub fn new(total: usize) -> (r: Self)
        ensures
            r.wf(),
            r.total() == total,
            r.handed_out() == 0,
    {
        WorkQueue { next: 0, total }
    }

    /// The next file, if one is left.
    pub fn claim(&mut self) -> (r: Option<usize>)
        requires
            old(self).wf(),
        ensures
            final(self).wf(),
            final(self).total() == old(self).total(),
            match r {
                Some(i) => {
                    &&& i == old(self).handed_out()
                    &&& i < old(self).total()
                    &&& final(self).handed_out() == old(self).handed_out() + 1
                },
                None => {
                    &&& old(self).handed_out() == old(self).total()
                    &&& final(self).handed_out() == old(self).handed_out()
                },
            },
    {
        if self.next >= self.total {
            return None;
        }
        let i = self.next;
        self.next = self.next + 1;
        Some(i)
    }
}

/// The first place from `p` on without a result, or the number of places.
pub open spec fn ready_end<T>(waiting: Seq<Option<T>>, p: nat) -> nat
    decreases waiting.len() - p,
{
    if p < waiting.len() && waiting[p as int] is Some {
        ready_end(waiting, p + 1)
    } else {
        p
    }
}

/// The results that wait once those from `p` up to `q` have left.
pub open spec fn without<T>(waiting: Seq<Option<T>>, p: nat, q: nat) -> Seq<Option<T>> {
    Seq::new(
        waiting.len(),
        |i: int|
            if p <= i < q {
                None
            } else {
                waiting[i]
            },
    )
}

/// All places in front of the first without a result have one.
pub proof fn lemma_ready_end<T>(waiting: Seq<Option<T>>, p: nat)
    requires
        p <= waiting.len(),
    ensures
        p <= ready_end(waiting, p) <= waiting.len(),
        ready_end(waiting, p) < waiting.len() ==> waiting[ready_end(waiting, p) as int] is None,
        forall|i: int| p <= i < ready_end(waiting, p) ==> #[trigger] waiting[i] is Some,
    decreases waiting.len() - p,
{
    if p < waiting.len() && waiting[p as int] is Some {
        lemma_ready_end(waiting, p + 1);
    }
}

/// Results that arrive in any order and leave in the order of their files.
pub struct OrderedResults<T> {
    slots: Vec<Option<T>>,
    next: usize,
}

impl<T> OrderedResults<T> {
    /// The results that have arrived and not left, by file.
    pub closed spec fn waiting(&self) -> Seq<Option<T>> {
        self.slots@
    }

    /// How many results have left.
    pub closed spec fn reported(&self) -> nat {
        self.next as nat
    }

    pub closed spec fn wf(&self) -> bool {
        self.next <= self.slots@.len()
    }

    pub fn new(n: usize) -> (r: Self)
        ensures
            r.wf(),
            r.waiting() == Seq::new(n as nat, |i: int| None::<T>),
            r.reported() == 0,
    {
        let mut slots: Vec<Option<T>> = Vec::new();
        let mut i: usize = 0;
        while i < n
            invariant
                0 <= i <= n,
                slots@ == Seq::new(i as nat, |i: int| None::<T>),
            decreases n - i,
        {
            slots.push(None);
            i = i + 1;
            assert(slots@ =~= Seq::new(i as nat, |i: int| None::<T>));
        }
        OrderedResults { slots, next: 0 }
    }

    /// The result of file `idx` has arrived.
    pub fn publish(&mut self, idx: usize, result: T)
        requires
            old(self).wf(),
            idx < old(self).waiting().len(),
        ensures
            final(self).wf(),
            final(self).waiting() == old(self).waiting().update(idx as int, Some(result)),
            final(self).reported() == old(self).reported(),
    {
        self.slots.set(idx, Some(result));
    }

    /// The result that is to be reported next, if it has arrived, and its file.
    /// It leaves.
    pub fn take_next(&mut self) -> (r: Option<(usize, T)>)
        requires
            old(self).wf(),
        ensures
            final(self).wf(),
            match r {
                Some((i, t)) => {
                    &&& i == old(self).reported()
                    &&& i < old(self).waiting().len()
                    &&& old(self).waiting()[i as int] == Some(t)
                    &&& final(self).waiting() == old(self).waiting().update(i as int, None)
                    &&& final(self).reported() == old(self).reported() + 1
                },
                None => {
                    &&& old(self).reported() < old(self).waiting().len() ==> old(self).waiting()[old(
                        self,
                    ).reported() as int] is None
                    &&& *final(self) == *old(self)
                },
            },
    {
        if self.next >= self.slots.len() {
            return None;
        }
        let i = self.next;
        if self.slots[i].is_none() {
            return None;
        }
        let mut slot: Option<T> = None;
        std::mem::swap(&mut slot, &mut self.slots[i]);
        self.next = i + 1;
        match slot {
            Some(t) => Some((i, t)),
            None => None,
        }
    }

    /// All results that can be reported now, in the order of their files: those
    /// up to the first that has not arrived. They leave.
    pub fn take_ready(&mut self) -> (r: Vec<(usize, T)>)
        requires
            old(self).wf(),
        ensures
            final(self).wf(),
            ({
                let (p, q) = (
                    old(self).reported(),
                    ready_end(old(self).waiting(), old(self).reported()),
                );
                &&& final(self).reported() == q
                &&& r@.len() == q - p
                &&& forall|k: int|
                    0 <= k < q - p ==> (#[trigger] r@[k]).0 == p + k && old(self).waiting()[p + k]
                        == Some(r@[k].1)
                &&& final(self).waiting() == without(old(self).waiting(), p, q)
            }),
    {
        let ghost before = self.waiting();
        let ghost p = self.reported();
        let ghost q = ready_end(before, p);
        let mut ready: Vec<(usize, T)> = Vec::new();
        proof {
            lemma_ready_end(before, p);
            assert(without(before, p, p) =~= before);
        }
        loop
            invariant
                self.wf(),
                q == ready_end(before, p),
                p <= q <= before.len(),
                q < before.len() ==> before[q as int] is None,
                forall|i: int| p <= i < q ==> #[trigger] before[i] is Some,
                p <= self.reported() <= q,
                ready@.len() == self.reported() - p,
                self.waiting() == without(before, p, self.reported()),
                forall|k: int|
                    0 <= k < ready@.len() ==> (#[trigger] ready@[k]).0 == p + k && before[p + k]
                        == Some(ready@[k].1),
            ensures
                self.wf(),
                self.reported() == q,
                ready@.len() == q - p,
                self.waiting() == without(before, p, q),
                forall|k: int|
                    0 <= k < ready@.len() ==> (#[trigger] ready@[k]).0 == p + k && before[p + k]
                        == Some(ready@[k].1),
            decreases q - self.reported(),
        {
            let ghost at = self.reported();
            let ghost now = self.waiting();
            match self.take_next() {
                Some(next) => {
                    proof {
                        assert(now[at as int] == before[at as int]);
                        assert(self.waiting() =~= without(before, p, (at + 1) as nat));
                    }
                    ready.push(next);
                },
                None => {
                    proof {
                        if at < q {
                            assert(before[at as int] is Some);
                            assert(now[at as int] == before[at as int]);
                        }
                    }
                    break;
                },
            }
        }
        ready
    }

    /// All results have left.
    pub fn is_finished(&self) -> (r: bool)
        requires
            self.wf(),
        ensures
            r == (self.reported() == self.waiting().len()),
    {
        self.next >= self.slots.len()
    }
}

/// Counts what became of the files. Sizes wrap around at 64 bits.
#[derive(Debug, Clone, Copy)]
pub struct Tally {
    pub succeeded: u64,
    pub failed: u64,
    pub total_original: u64,
    pub total_output: u64,
}

impl Tally {
    pub fn new() -> (r: Self)
        ensures
            r.succeeded == 0 && r.failed == 0 && r.total_original == 0 && r.total_output == 0,
    {
        Tally { succeeded: 0, failed: 0, total_original: 0, total_output: 0 }
    }

    /// The tally after one more success.
    pub open spec fn with_success(self, original: u64, output: u64) -> Tally {
        Tally {
            succeeded: ((self.succeeded + 1) % 0x1_0000_0000_0000_0000) as u64,
            failed: self.failed,
            total_original: ((self.total_original + original) % 0x1_0000_0000_0000_0000) as u64,
            total_output: ((self.total_output + output) % 0x1_0000_0000_0000_0000) as u64,
        }
    }

    /// The tally after one more failure.
    pub open spec fn with_failure(self) -> Tally {
        Tally { failed: ((self.failed + 1) % 0x1_0000_0000_0000_0000) as u64, ..self }
    }

    /// A file was written, or would have been.
    pub fn succeed(&mut self, original: u64, output: u64)
        ensures
            *final(self) == old(self).with_success(original, output),
    {
        self.succeeded = self.succeeded.wrapping_add(1);
        self.total_original = self.total_original.wrapping_add(original);
        self.total_output = self.total_output.wrapping_add(output);
    }

    /// A file was skipped or could not be written.
    pub fn fail(&mut self)
        ensures
            *final(self) == old(self).with_failure(),
    {
        self.failed = self.failed.wrapping_add(1);
    }
}

/// What is to be done with the result for a file.
#[derive(Debug, Clone, Copy, PartialEq, Eq, Structural)]
pub enum Step {
    /// Its data is to be written.
    Write,
    /// It is only reported, and counts as a success.
    Report,
    /// There is nothing to write; it counts as a failure.
    Skip,
}

/// What is to be done with a result. Nothing is written on a dry run.
pub open spec fn step_of(ok: bool, dry_run: bool) -> Step {
    if !ok {
        Step::Skip
    } else if dry_run {
        Step::Report
    } else {
        Step::Write
    }
}

/// What is to be done with the result for a file. Nothing is written on a dry run.
pub fn next_step<T>(result: &Result<T, String>, dry_run: bool) -> (r: Step)
    ensures
        r == step_of(result is Ok, dry_run),
{
    match result {
        Ok(_) => {
            if dry_run {
                Step::Report
            } else {
                Step::Write
            }
        },
        Err(_) => Step::Skip,
    }
}

/// Counts a file whose data was to be written, and decides whether its original
/// is to be removed: only if that was asked for, and only after the write.
pub fn after_write(
    tally: &mut Tally,
    written: bool,
    remove_originals: bool,
    original: u64,
    output: u64,
) -> (remove: bool)
    ensures
        remove <==> written && remove_originals,
        *final(tally) == if written {
            old(tally).with_success(original, output)
        } else {
            old(tally).with_failure()
        },
{
    if written {
        tally.succeed(original, output);
        remove_originals
    } else {
        tally.fail();
        false
    }
}

/// What became of a file: whether there was a result, whether writing it
/// succeeded where it was tried, and its sizes.
pub struct Report {
    pub ok: bool,
    pub written: bool,
    pub original: u64,
    pub output: u64,
}

impl Report {
    /// The file counts as a success.
    pub open spec fn succeeds(self, dry_run: bool) -> bool {
        self.ok && (dry_run || self.written)
    }

    /// The original of the file is removed.
    pub open spec fn removes(self, dry_run: bool, remove_originals: bool) -> bool {
        step_of(self.ok, dry_run) is Write && self.written && remove_originals
    }
}

impl Tally {
    /// The tally with one more file.
    pub open spec fn with_report(self, report: Report, dry_run: bool) -> Tally {
        if report.succeeds(dry_run) {
            self.with_success(report.original, report.output)
        } else {
            self.with_failure()
        }
    }
}

/// Counts a file, and decides whether its original is to be removed. Where it was
/// to be written, `report` says whether that succeeded.
pub fn settle(tally: &mut Tally, report: &Report, dry_run: bool, remove_originals: bool) -> (remove:
    bool)
    ensures
        *final(tally) == old(tally).with_report(*report, dry_run),
        remove == report.removes(dry_run, remove_originals),
{
    if !report.ok {
        tally.fail();
        false
    } else if dry_run {
        tally.succeed(report.original, report.output);
        false
    } else {
        after_write(tally, report.written, remove_originals, report.original, report.output)
    }
}

/// The tally with the first `n` of the files.
pub open spec fn tally_of(tally: Tally, reports: Seq<Report>, dry_run: bool, n: nat) -> Tally
    decreases n,
{
    if n == 0 {
        tally
    } else {
        tally_of(tally, reports, dry_run, (n - 1) as nat).with_report(reports[n - 1], dry_run)
    }
}

/// How many of the first `n` files count as successes.
pub open spec fn successes(reports: Seq<Report>, dry_run: bool, n: nat) -> nat
    decreases n,
{
    if n == 0 {
        0
    } else {
        successes(reports, dry_run, (n - 1) as nat) + if reports[n - 1].succeeds(dry_run) {
            1nat
        } else {
            0
        }
    }
}

/// The original sizes of those of the first `n` files that count as successes.
pub open spec fn original_sizes(reports: Seq<Report>, dry_run: bool, n: nat) -> nat
    decreases n,
{
    if n == 0 {
        0
    } else {
        original_sizes(reports, dry_run, (n - 1) as nat) + if reports[n - 1].succeeds(dry_run) {
            reports[n - 1].original as nat
        } else {
            0
        }
    }
}

/// The output sizes of those of the first `n` files that count as successes.
pub open spec fn output_sizes(reports: Seq<Report>, dry_run: bool, n: nat) -> nat
    decreases n,
{
    if n == 0 {
        0
    } else {
        output_sizes(reports, dry_run, (n - 1) as nat) + if reports[n - 1].succeeds(dry_run) {
            reports[n - 1].output as nat
        } else {
            0
        }
    }
}

/// Every file counts once, as a success or as a failure; only successes count
/// in the sizes. Numbers wrap around at 64 bits.
#[verifier::spinoff_prover]
proof fn lemma_tally(tally: Tally, reports: Seq<Report>, dry_run: bool, n: nat)
    ensures
        ({
            let t = tally_of(tally, reports, dry_run, n);
            let good = successes(reports, dry_run, n);
            &&& good <= n
            &&& t.succeeded == (tally.succeeded + good) % 0x1_0000_0000_0000_0000
            &&& t.failed == (tally.failed + (n - good)) % 0x1_0000_0000_0000_0000
            &&& t.total_original == (tally.total_original + original_sizes(reports, dry_run, n))
                % 0x1_0000_0000_0000_0000
            &&& t.total_output == (tally.total_output + output_sizes(reports, dry_run, n))
                % 0x1_0000_0000_0000_0000
        }),
    decreases n,
{
    if n > 0 {
        let m = (n - 1) as nat;
        lemma_tally(tally, reports, dry_run, m);
        let good = successes(reports, dry_run, m);
        let r = reports[n - 1];
        if r.succeeds(dry_run) {
            lemma_wrapped(tally.succeeded + good, 1);
            lemma_wrapped(
                tally.total_original + original_sizes(reports, dry_run, m),
                r.original as int,
            );
            lemma_wrapped(tally.total_output + output_sizes(reports, dry_run, m), r.output as int);
        } else {
            lemma_wrapped(tally.failed + (m - good), 1);
        }
    }
}

/// A number may wrap around before more is added.
proof fn lemma_wrapped(a: int, b: int)
    requires
        0 <= a,
        0 <= b,
    ensures
        0 <= (a % 0x1_0000_0000_0000_0000 + b) % 0x1_0000_0000_0000_0000 <= u64::MAX,
        (a % 0x1_0000_0000_0000_0000 + b) % 0x1_0000_0000_0000_0000 == (a + b)
            % 0x1_0000_0000_0000_0000,
{
    lemma_add_mod_noop(a, b, 0x1_0000_0000_0000_0000);
    lemma_add_mod_noop(a % 0x1_0000_0000_0000_0000, b, 0x1_0000_0000_0000_0000);
}

/// What is done with the results that wait from place `p` on, given the reports
/// on their files. They are those up to the first place without a result. Every
/// file counts once: as a failure if it has no result or could not be written,
/// and then nothing else changes, as a success otherwise. On a dry run nothing is
/// written and nothing removed. An original is removed only if that was asked
/// for, there was a result, and it was written.
pub proof fn lemma_drain<T>(
    waiting: Seq<Option<Result<T, String>>>,
    p: nat,
    reports: Seq<Report>,
    tally: Tally,
    dry_run: bool,
    remove_originals: bool,
)
    requires
        p <= waiting.len(),
        reports.len() == ready_end(waiting, p) - p,
        forall|k: int|
            0 <= k < reports.len() ==> (#[trigger] reports[k]).ok == (waiting[p + k]->Some_0 is Ok),
    ensures
        ({
            let q = ready_end(waiting, p);
            let n = reports.len();
            let t = tally_of(tally, reports, dry_run, n);
            let good = successes(reports, dry_run, n);
            &&& p <= q <= waiting.len()
            &&& forall|i: int| p <= i < q ==> #[trigger] waiting[i] is Some
            &&& q < waiting.len() ==> waiting[q as int] is None
            &&& good <= q - p
            &&& t.succeeded == (tally.succeeded + good) % 0x1_0000_0000_0000_0000
            &&& t.failed == (tally.failed + (q - p - good)) % 0x1_0000_0000_0000_0000
            &&& tally.succeeded + tally.failed + (q - p) <= u64::MAX ==> t.succeeded + t.failed
                == tally.succeeded + tally.failed + (q - p)
            &&& t.total_original == (tally.total_original + original_sizes(reports, dry_run, n))
                % 0x1_0000_0000_0000_0000
            &&& t.total_output == (tally.total_output + output_sizes(reports, dry_run, n))
                % 0x1_0000_0000_0000_0000
        }),
        forall|k: int|
            0 <= k < reports.len() ==> {
                let r = #[trigger] reports[k];
                let result = waiting[p + k]->Some_0;
                &&& dry_run ==> !(step_of(result is Ok, dry_run) is Write) && !r.removes(
                    dry_run,
                    remove_originals,
                )
                &&& r.removes(dry_run, remove_originals) <==> remove_originals && !dry_run
                    && result is Ok && r.written
                &&& r.succeeds(dry_run) <==> result is Ok && (dry_run || r.written)
            },
{
    lemma_ready_end(waiting, p);
    lemma_tally(tally, reports, dry_run, reports.len());
}

/// How a file counts, in numbers that wrap around at 64 bits: as a success if there was
/// a result and it was written, or would have been on a dry run; only then its sizes
/// count. Otherwise it counts as a failure and nothing else changes. The original is
/// removed exactly if that was asked for, there was a result, and it was written and
/// not only reported.
pub proof fn lemma_report(tally: Tally, report: Report, dry_run: bool, remove_originals: bool)
    ensures
        ({
            let t = tally.with_report(report, dry_run);
            let wrap = 0x1_0000_0000_0000_0000;
            if report.ok && (dry_run || report.written) {
                &&& (t.succeeded - tally.succeeded - 1) % wrap == 0
                &&& t.failed == tally.failed
                &&& (t.total_original - tally.total_original - report.original) % wrap == 0
                &&& (t.total_output - tally.total_output - report.output) % wrap == 0
            } else {
                &&& t.succeeded == tally.succeeded
                &&& (t.failed - tally.failed - 1) % wrap == 0
                &&& t.total_original == tally.total_original
                &&& t.total_output == tally.total_output
            }
        }),
        report.removes(dry_run, remove_originals) <==> report.ok && !dry_run && report.written
            && remove_originals,
        step_of(report.ok, dry_run) is Skip <==> !report.ok,
        step_of(report.ok, dry_run) is Report <==> report.ok && dry_run,
        step_of(report.ok, dry_run) is Write <==> report.ok && !dry_run,
{
}

/// Each file is counted in its turn, one by one.
pub proof fn lemma_tally_step(tally: Tally, reports: Seq<Report>, dry_run: bool, n: nat)
    requires
        n < reports.len(),
    ensures
        tally_of(tally, reports, dry_run, 0) == tally,
        tally_of(tally, reports, dry_run, n + 1) == tally_of(
            tally,
            reports,
            dry_run,
            n,
        ).with_report(reports[n as int], dry_run),
{
}

} // verus!
