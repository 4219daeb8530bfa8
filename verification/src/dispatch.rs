//! Worker-pool bookkeeping: how many workers to spawn, the lifecycle of one
//! worker, the short identifier each worker exposes to its script, and the
//! tally of per-worker results. The embedding owns the threads and channels;
//! every decision they act on is taken here.

use vstd::prelude::*;

verus! {

/// How many workers the dispatcher spawns: the reported parallelism of the
/// machine, but never more than the fixed cap.
pub fn worker_count(parallelism: usize, cap: usize) -> (n: usize)
    ensures
        n == vstd::math::min(parallelism as int, cap as int),
{
    if parallelism < cap {
        parallelism
    } else {
        cap
    }
}

/// Where one worker stands in its life.
pub enum WorkerPhase {
    /// Thread spawned, no execution context yet.
    Created,
    /// Context constructed and bound to its main module.
    Bootstrapped,
    /// The start command arrived; the module is being evaluated and the
    /// event loop drained.
    Running,
    /// Evaluation and drain finished cleanly.
    FinishedOk,
    /// The first unrecovered failure ended the run; its text is kept.
    FinishedFailed(String),
}

/// What can happen to a worker.
pub enum WorkerEvent {
    /// The execution context came up.
    ContextReady,
    /// The single start command was received.
    Start,
    /// Evaluating the module and draining the event loop ended, cleanly or
    /// with the first uncaught failure.
    Completed(Result<(), String>),
}

/// The lifecycle: Created, then Bootstrapped, then Running, then one of the
/// two finished phases. An event that does not belong to the current phase
/// changes nothing.
pub open spec fn spec_step(phase: WorkerPhase, event: WorkerEvent) -> WorkerPhase {
    match (phase, event) {
        (WorkerPhase::Created, WorkerEvent::ContextReady) => WorkerPhase::Bootstrapped,
        (WorkerPhase::Bootstrapped, WorkerEvent::Start) => WorkerPhase::Running,
        (WorkerPhase::Running, WorkerEvent::Completed(res)) => match res {
            Ok(_) => WorkerPhase::FinishedOk,
            Err(e) => WorkerPhase::FinishedFailed(e),
        },
        (p, _) => p,
    }
}

/// Advances one worker's phase by one event.
pub fn worker_step(phase: WorkerPhase, event: WorkerEvent) -> (next: WorkerPhase)
    ensures
        next == spec_step(phase, event),
{
    match (phase, event) {
        (WorkerPhase::Created, WorkerEvent::ContextReady) => WorkerPhase::Bootstrapped,
        (WorkerPhase::Bootstrapped, WorkerEvent::Start) => WorkerPhase::Running,
        (WorkerPhase::Running, WorkerEvent::Completed(res)) => match res {
            Ok(_) => WorkerPhase::FinishedOk,
            Err(e) => WorkerPhase::FinishedFailed(e),
        },
        (p, _) => p,
    }
}

/// A command to one worker. The embedding pairs each command with the
/// worker's channels; the one variant used in steady state starts the run.
#[derive(PartialEq, Eq, Structural, Clone, Copy, Debug)]
pub enum WorkerCommand {
    Start,
}

/// The dispatcher's command plan: exactly one start command for each
/// spawned worker, and nothing else.
pub fn start_plan(fleet: usize) -> (cmds: Vec<WorkerCommand>)
    ensures
        cmds@.len() == fleet,
        forall|i: int| 0 <= i < fleet ==> cmds@[i] is Start,
{
    let mut cmds: Vec<WorkerCommand> = Vec::new();
    let mut k: usize = 0;
    while k < fleet
        invariant
            k <= fleet,
            cmds@.len() == k,
            forall|i: int| 0 <= i < k ==> cmds@[i] is Start,
        decreases fleet - k,
    {
        cmds.push(WorkerCommand::Start);
        k = k + 1;
    }
    cmds
}

/// The digits of `s` in base 36, least significant first, padded with
/// zeros to length `k`.
pub open spec fn digits36(s: nat, k: nat) -> Seq<int>
    decreases k,
{
    if k == 0 {
        Seq::empty()
    } else {
        seq![(s % 36) as int] + digits36(s / 36, (k - 1) as nat)
    }
}

/// There are `k` such digits.
pub proof fn lemma_digits36_len(s: nat, k: nat)
    ensures
        digits36(s, k).len() == k,
    decreases k,
{
    if k > 0 {
        lemma_digits36_len(s / 36, (k - 1) as nat);
    }
}

/// `c` writes the base-36 digit `d`: `0` to `9`, then `a` to `z`.
pub open spec fn encodes_digit(c: char, d: int) -> bool {
    if 0 <= d < 10 {
        c as u32 == d + 48
    } else if 10 <= d < 36 {
        c as u32 == d + 87
    } else {
        false
    }
}

/// Relies on String's FromIterator<char> (collect): the returned string is
/// made of exactly the given characters, in order.
#[verifier::external_body]
fn string_of_chars(v: Vec<char>) -> (s: String)
    ensures
        s@ == v@,
{
    v.into_iter().collect()
}

/// The identifier a worker exposes to its script as a global: eight
/// characters over `0`-`9` and `a`-`z` that spell the seed in base 36,
/// least significant digit first. The embedding draws the seed at random;
/// equal seeds give equal names, and distinct seeds below 36^8 give
/// distinct names.
pub fn worker_global_name(seed: u64) -> (r: String)
    ensures
        r@.len() == 8,
        forall|i: int| 0 <= i < 8 ==> encodes_digit(r@[i], digits36(seed as nat, 8)[i]),
{
    proof {
        lemma_digits36_len(seed as nat, 8);
    }
    let mut v: Vec<char> = Vec::new();
    let mut s = seed;
    let mut k: usize = 0;
    while k < 8
        invariant
            k <= 8,
            v@.len() == k,
            digits36(seed as nat, 8).subrange(k as int, 8) =~= digits36(
                s as nat,
                (8 - k) as nat,
            ),
            digits36(seed as nat, 8).len() == 8,
            forall|i: int| 0 <= i < k ==> encodes_digit(v@[i], digits36(seed as nat, 8)[i]),
        decreases 8 - k,
    {
        let ghost full = digits36(seed as nat, 8);
        let ghost rest = digits36(s as nat, (8 - k) as nat);
        let d = (s % 36) as u8;
        let c = if d < 10 {
            (48 + d) as char
        } else {
            (87 + d) as char
        };
        proof {
            lemma_digits36_len(s as nat / 36, (8 - k - 1) as nat);
            assert(rest =~= seq![(s as nat % 36) as int] + digits36(
                s as nat / 36,
                (8 - k - 1) as nat,
            ));
            assert(full[k as int] == rest[0]);
            assert(encodes_digit(c, full[k as int]));
            assert forall|j: int| 0 <= j < 8 - k - 1 implies #[trigger] full.subrange(k + 1, 8)[j]
                == digits36(s as nat / 36, (8 - k - 1) as nat)[j] by {
                assert(full.subrange(k + 1, 8)[j] == full[k + 1 + j]);
                assert(full[k + 1 + j] == rest[1 + j]);
            }
            assert(full.subrange(k + 1, 8) =~= digits36(s as nat / 36, (8 - k - 1) as nat));
        }
        v.push(c);
        s = s / 36;
        k = k + 1;
    }
    string_of_chars(v)
}

/// One worker's terminal result as the dispatcher collects it.
pub enum WorkerOutcome {
    Success,
    /// The text of the first unrecovered failure.
    Failure(String),
}

/// How many of the outcomes are successes.
pub open spec fn count_successes(s: Seq<WorkerOutcome>) -> nat
    decreases s.len(),
{
    if s.len() == 0 {
        0
    } else {
        (if s[0] is Success {
            1nat
        } else {
            0nat
        }) + count_successes(s.drop_first())
    }
}

/// How many of the outcomes are failures.
pub open spec fn count_failures(s: Seq<WorkerOutcome>) -> nat
    decreases s.len(),
{
    if s.len() == 0 {
        0
    } else {
        (if s[0] is Failure {
            1nat
        } else {
            0nat
        }) + count_failures(s.drop_first())
    }
}

/// Appending one outcome raises exactly one of the two tallies.
pub proof fn lemma_counts_push(s: Seq<WorkerOutcome>, x: WorkerOutcome)
    ensures
        count_successes(s.push(x)) == count_successes(s) + (if x is Success {
            1nat
        } else {
            0nat
        }),
        count_failures(s.push(x)) == count_failures(s) + (if x is Failure {
            1nat
        } else {
            0nat
        }),
    decreases s.len(),
{
    if s.len() == 0 {
        assert(s.push(x).drop_first() =~= s);
    } else {
        assert(s.push(x).drop_first() =~= s.drop_first().push(x));
        lemma_counts_push(s.drop_first(), x);
    }
}

/// Independent failure: every worker's result is counted, a failure here
/// and a success there each on its own, so the tallies always cover the
/// whole fleet.
pub proof fn lemma_counts_total(s: Seq<WorkerOutcome>)
    ensures
        count_successes(s) + count_failures(s) == s.len(),
    decreases s.len(),
{
    if s.len() > 0 {
        lemma_counts_total(s.drop_first());
    }
}

/// Tallies the collected outcomes: how many workers succeeded and how many
/// failed. One worker's failure moves only its own count; the two always
/// sum to the number of workers.
pub fn summarize(outcomes: &Vec<WorkerOutcome>) -> (counts: (usize, usize))
    ensures
        counts.0 == count_successes(outcomes@),
        counts.1 == count_failures(outcomes@),
        counts.0 + counts.1 == outcomes@.len(),
{
    let ghost all = outcomes@;
    let mut ok: usize = 0;
    let mut failed: usize = 0;
    let mut k: usize = 0;
    while k < outcomes.len()
        invariant
            k <= all.len(),
            all == outcomes@,
            ok == count_successes(all.subrange(0, k as int)),
            failed == count_failures(all.subrange(0, k as int)),
            ok + failed == k,
        decreases all.len() - k,
    {
        proof {
            assert(all.subrange(0, (k + 1) as int) =~= all.subrange(0, k as int).push(
                all[k as int],
            ));
            lemma_counts_push(all.subrange(0, k as int), all[k as int]);
            lemma_counts_total(all.subrange(0, k as int));
        }
        match &outcomes[k] {
            WorkerOutcome::Success => {
                ok = ok + 1;
            },
            WorkerOutcome::Failure(_) => {
                failed = failed + 1;
            },
        }
        k = k + 1;
    }
    proof {
        assert(all.subrange(0, all.len() as int) =~= all);
    }
    (ok, failed)
}

} // verus!
