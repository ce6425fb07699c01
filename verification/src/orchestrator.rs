use vstd::prelude::*;
use crate::text::{contains_text, lowercase, to_lowercase, str_contains, string_from_chars, push_str};

verus! {

broadcast use vstd::seq_lib::group_seq_properties;

/// A unit of work handed to a worker: a question and one context to answer it from.
#[derive(Debug, Clone)]
pub struct Task {
    pub id: u32,
    pub query: String,
    pub context: String,
}

/// What a worker answered for a task.
#[derive(Debug, Clone)]
pub struct TaskResult {
    pub task_id: u32,
    pub output: String,
}

/// The kind of question asked.
#[derive(Debug, PartialEq, Eq, Structural)]
pub enum QueryType {
    Local,
    PathTrace,
    GlobalSummary,
}

/// The kind of a question, from its lowercase form: tracing words first,
/// then summary words, else local.
pub open spec fn query_type_of(lower: Seq<char>) -> QueryType {
    if contains_text(lower, "trace"@) || contains_text(lower, "flow"@) {
        QueryType::PathTrace
    } else if contains_text(lower, "summarize"@) || contains_text(lower, "architecture"@) {
        QueryType::GlobalSummary
    } else {
        QueryType::Local
    }
}

/// Classifies a question already in lowercase by the words it contains.
pub fn classify_lowercase(q: &str) -> (t: QueryType)
    ensures
        t == query_type_of(q@),
{
    if str_contains(q, "trace") || str_contains(q, "flow") {
        QueryType::PathTrace
    } else if str_contains(q, "summarize") || str_contains(q, "architecture") {
        QueryType::GlobalSummary
    } else {
        QueryType::Local
    }
}

/// Classifies a question by the words in its lowercase form.
pub fn classify(query: &str) -> (t: QueryType)
    ensures
        t == query_type_of(lowercase(query@)),
{
    let q = to_lowercase(query);
    classify_lowercase(q.as_str())
}

/// The parts joined with `sep` between each two neighbors.
pub open spec fn joined(parts: Seq<Seq<char>>, sep: Seq<char>) -> Seq<char>
    decreases parts.len(),
{
    if parts.len() == 0 {
        Seq::empty()
    } else if parts.len() == 1 {
        parts[0]
    } else {
        joined(parts.drop_last(), sep) + sep + parts.last()
    }
}

/// The separator between merged results.
pub open spec fn result_separator() -> Seq<char> {
    "\n---\n"@
}

/// Joins worker outputs, separated by a line of three dashes.
pub fn merge_results(results: Vec<String>) -> (merged: String)
    ensures
        merged@ == joined(results@.map_values(|s: String| s@), result_separator()),
{
    let ghost parts = results@.map_values(|s: String| s@);
    let mut out: Vec<char> = Vec::new();
    let mut i: usize = 0;
    while i < results.len()
        invariant
            i <= results@.len(),
            parts == results@.map_values(|s: String| s@),
            out@ == joined(parts.take(i as int), result_separator()),
        decreases results.len() - i,
    {
        proof {
            assert(parts.take(i + 1).drop_last() == parts.take(i as int));
            assert(parts.take(i + 1).last() == results@[i as int]@);
        }
        if i > 0 {
            push_str(&mut out, "\n---\n");
        } else {
            assert(parts.take(0) == Seq::<Seq<char>>::empty());
        }
        push_str(&mut out, results[i].as_str());
        i += 1;
    }
    assert(parts.take(results@.len() as int) == parts);
    string_from_chars(&out)
}

/// The character of a decimal digit.
pub open spec fn digit_char(d: nat) -> char {
    (48 + d) as char
}

/// The decimal numeral of a natural number, without leading zeros.
pub open spec fn decimal(n: nat) -> Seq<char>
    decreases n,
{
    if n < 10 {
        seq![digit_char(n)]
    } else {
        decimal(n / 10).push(digit_char(n % 10))
    }
}

/// Appends the decimal numeral of `n`.
pub fn push_decimal(v: &mut Vec<char>, n: u32)
    ensures
        final(v)@ == old(v)@ + decimal(n as nat),
    decreases n,
{
    if n >= 10 {
        push_decimal(v, n / 10);
    }
    let d = (n % 10) as u8;
    let c = (d + 48) as char;
    assert(c == digit_char((n % 10) as nat));
    v.push(c);
    proof {
        if n >= 10 {
            assert(old(v)@ + decimal(n as nat) == old(v)@ + decimal((n / 10) as nat) + seq![c]);
        }
    }
}

/// The text a worker answers a task with.
pub open spec fn inference_text(id: u32, query: Seq<char>) -> Seq<char> {
    "[Task "@ + decimal(id as nat) + " Result]: Analyzed path for '"@ + query + "'"@
}

/// The result a worker produces for a task once its work is done.
pub fn inference_result(task: &Task) -> (r: TaskResult)
    ensures
        r.task_id == task.id,
        r.output@ == inference_text(task.id, task.query@),
{
    let mut out: Vec<char> = Vec::new();
    push_str(&mut out, "[Task ");
    push_decimal(&mut out, task.id);
    push_str(&mut out, " Result]: Analyzed path for '");
    push_str(&mut out, task.query.as_str());
    push_str(&mut out, "'");
    proof {
        assert(out@ =~= inference_text(task.id, task.query@));
    }
    TaskResult { task_id: task.id, output: string_from_chars(&out) }
}

/// Most tasks whose results a reasoning loop takes before it stops.
pub open spec fn max_reasoning_steps() -> nat {
    5
}

/// How a distributed task ended.
pub enum TaskOutcome {
    Completed(String),
    Failed,
    TimedOut,
}

/// The decisions of a bounded reasoning loop: it counts completed tasks,
/// keeps their outputs, and stops after five.
pub struct ReasoningLoop {
    pub steps: u8,
    pub results: Vec<String>,
}

impl ReasoningLoop {
    /// At most five steps, and one kept output per step.
    pub open spec fn wf(&self) -> bool {
        self.steps <= max_reasoning_steps() && self.results@.len() == self.steps
    }

    pub fn new() -> (l: Self)
        ensures
            l.wf(),
            l.steps == 0,
            l.results@ == Seq::<String>::empty(),
    {
        ReasoningLoop { steps: 0, results: Vec::new() }
    }

    /// Whether the loop may run another task.
    pub fn may_continue(&self) -> (go: bool)
        ensures
            go == (self.steps < max_reasoning_steps()),
    {
        self.steps < 5
    }

    /// Takes the outcome of one task: a completed task's output is kept and
    /// counted; failures and timeouts are neither.
    pub fn record(&mut self, outcome: TaskOutcome)
        requires
            old(self).wf(),
            old(self).steps < max_reasoning_steps(),
        ensures
            final(self).wf(),
            match outcome {
                TaskOutcome::Completed(o) => final(self).steps == old(self).steps + 1
                    && final(self).results@ == old(self).results@.push(o),
                _ => final(self).steps == old(self).steps && final(self).results@ == old(self).results@,
            },
    {
        match outcome {
            TaskOutcome::Completed(o) => {
                self.results.push(o);
                self.steps = self.steps + 1;
            },
            TaskOutcome::Failed => {},
            TaskOutcome::TimedOut => {},
        }
    }

    /// The merged outputs of the completed tasks.
    pub fn finish(self) -> (merged: String)
        ensures
            merged@ == joined(self.results@.map_values(|s: String| s@), result_separator()),
    {
        merge_results(self.results)
    }
}

/// The bookkeeping of a worker pool: how many tasks run, how many may run
/// at once, and the outputs of the tasks that finished, in order.
pub struct PoolState {
    pub running: usize,
    pub limit: usize,
    pub results: Vec<String>,
}

impl PoolState {
    /// Never more tasks running than the limit allows.
    pub open spec fn wf(&self) -> bool {
        self.running <= self.limit
    }

    /// A pool with nothing running and nothing finished.
    pub fn new(limit: usize) -> (p: Self)
        ensures
            p.wf(),
            p.running == 0,
            p.limit == limit,
            p.results@ == Seq::<String>::empty(),
    {
        PoolState { running: 0, limit, results: Vec::new() }
    }

    /// Whether the pool takes another task now: only while fewer than
    /// `limit` tasks run.
    pub fn accepts_task(&self) -> (go: bool)
        ensures
            go == (self.running < self.limit),
            go ==> pool_step(self.running as nat, self.limit as nat, PoolStep::Offer) == self.running + 1,
            !go ==> pool_step(self.running as nat, self.limit as nat, PoolStep::Offer) == self.running,
    {
        self.running < self.limit
    }

    /// A task was started.
    pub fn task_started(&mut self)
        requires
            old(self).running < old(self).limit,
        ensures
            final(self).wf(),
            final(self).running == old(self).running + 1,
            final(self).limit == old(self).limit,
            final(self).results@ == old(self).results@,
    {
        self.running = self.running + 1;
    }

    /// A task ended: its output is kept when it produced one (`None` for a
    /// task that failed).
    pub fn task_finished(&mut self, output: Option<String>)
        requires
            old(self).wf(),
            old(self).running > 0,
        ensures
            final(self).wf(),
            final(self).running == old(self).running - 1,
            final(self).running == pool_step(old(self).running as nat, old(self).limit as nat, PoolStep::Finish),
            final(self).limit == old(self).limit,
            final(self).results@ == match output {
                Some(o) => old(self).results@.push(o),
                None => old(self).results@,
            },
    {
        self.running = self.running - 1;
        match output {
            Some(o) => self.results.push(o),
            None => {},
        }
    }

    /// The merged outputs of the finished tasks.
    pub fn finish(self) -> (merged: String)
        ensures
            merged@ == joined(self.results@.map_values(|s: String| s@), result_separator()),
    {
        merge_results(self.results)
    }
}

/// What happens to a worker pool at one turn of its loop: a queued task is
/// offered (and started only if the pool accepts it), or a running task ends.
pub enum PoolStep {
    Offer,
    Finish,
}

/// The number of running tasks after one step, as `accepts_task`,
/// `task_started` and `task_finished` count them.
pub open spec fn pool_step(running: nat, limit: nat, step: PoolStep) -> nat {
    match step {
        PoolStep::Offer => if running < limit { running + 1 } else { running },
        PoolStep::Finish => if running > 0 { (running - 1) as nat } else { running },
    }
}

/// The number of running tasks after a run of steps from an idle pool.
pub open spec fn pool_running(limit: nat, steps: Seq<PoolStep>) -> nat
    decreases steps.len(),
{
    if steps.len() == 0 {
        0
    } else {
        pool_step(pool_running(limit, steps.drop_last()), limit, steps.last())
    }
}

/// Over a whole run, a pool never has more tasks running than its limit,
/// and a pool with limit 0 never starts a task.
pub proof fn lemma_pool_bound(limit: nat, steps: Seq<PoolStep>)
    ensures
        forall|i: int| 0 <= i <= steps.len() ==> #[trigger] pool_running(limit, steps.take(i)) <= limit,
        limit == 0 ==> forall|i: int| 0 <= i <= steps.len() ==> #[trigger] pool_running(limit, steps.take(i)) == 0,
    decreases steps.len(),
{
    if steps.len() > 0 {
        let prev = steps.drop_last();
        lemma_pool_bound(limit, prev);
        assert forall|i: int| 0 <= i <= steps.len() implies #[trigger] pool_running(limit, steps.take(i)) <= limit
            && (limit == 0 ==> pool_running(limit, steps.take(i)) == 0) by {
            if i < steps.len() {
                assert(steps.take(i) == prev.take(i));
            } else {
                assert(steps.take(i) == steps);
                assert(prev.take(prev.len() as int) == prev);
                assert(pool_running(limit, prev.take(prev.len() as int)) <= limit);
            }
        }
    } else {
        assert forall|i: int| 0 <= i <= steps.len() implies #[trigger] pool_running(limit, steps.take(i)) == 0 by {
            assert(steps.take(i).len() == 0);
        }
    }
}

} // verus!
