//! In-memory aggregate counters: calls per (tool, outcome) and a latency histogram per
//! tool. No query text and no client identifiers are kept.

use std::time::{Duration, Instant};

use vstd::prelude::*;

use crate::json::{
    decimal, decimal_text, duplicate_members, find_member, get, get_opt, insert_member, jv_members,
    lemma_members_insert_get, lemma_members_insert_get_other, members_get, members_insert, str_eq,
    Json, JsonV, Members,
};
use crate::text::string_of;

verus! {

#[verifier::external_type_specification]
#[verifier::external_body]
pub struct ExInstant(Instant);

/// Number of latency buckets: one per bound, and one for slower calls.
pub const LATENCY_BUCKETS: usize = 10;

/// The latency bucket of a call that took `ms` milliseconds: the first of the bounds
/// 5, 10, 25, 50, 100, 250, 500, 1000 and 2500 ms that `ms` does not exceed, or the last
/// bucket for slower calls.
pub open spec fn bucket_of(ms: u64) -> int {
    if ms <= 5 {
        0
    } else if ms <= 10 {
        1
    } else if ms <= 25 {
        2
    } else if ms <= 50 {
        3
    } else if ms <= 100 {
        4
    } else if ms <= 250 {
        5
    } else if ms <= 500 {
        6
    } else if ms <= 1000 {
        7
    } else if ms <= 2500 {
        8
    } else {
        9
    }
}

/// The latency bucket of a call that took `ms` milliseconds (see `bucket_of`).
pub fn bucket_index(ms: u64) -> (r: usize)
    ensures
        r == bucket_of(ms),
        r < LATENCY_BUCKETS,
{
    if ms <= 5 {
        0
    } else if ms <= 10 {
        1
    } else if ms <= 25 {
        2
    } else if ms <= 50 {
        3
    } else if ms <= 100 {
        4
    } else if ms <= 250 {
        5
    } else if ms <= 500 {
        6
    } else if ms <= 1000 {
        7
    } else if ms <= 2500 {
        8
    } else {
        9
    }
}

/// Calls of one tool that ended with one outcome.
#[derive(Debug)]
pub struct CallCount {
    pub tool: String,
    pub outcome: String,
    pub count: u64,
}

/// The latency histogram of one tool.
#[derive(Debug)]
pub struct ToolLatency {
    pub tool: String,
    pub buckets: Vec<u64>,
}

/// Aggregate call counters since start-up.
pub struct Metrics {
    calls: Vec<CallCount>,
    latency: Vec<ToolLatency>,
    started: Instant,
}

/// Position of the first counter of (`tool`, `outcome`).
pub open spec fn find_call(s: Seq<CallCount>, tool: Seq<char>, outcome: Seq<char>) -> Option<int>
    decreases s.len(),
{
    if s.len() == 0 {
        None
    } else {
        match find_call(s.drop_last(), tool, outcome) {
            Some(i) => Some(i),
            None => if s.last().tool@ == tool && s.last().outcome@ == outcome {
                Some(s.len() - 1)
            } else {
                None
            },
        }
    }
}

/// Position of the first histogram of `tool`.
pub open spec fn find_tool(s: Seq<ToolLatency>, tool: Seq<char>) -> Option<int>
    decreases s.len(),
{
    if s.len() == 0 {
        None
    } else {
        match find_tool(s.drop_last(), tool) {
            Some(i) => Some(i),
            None => if s.last().tool@ == tool {
                Some(s.len() - 1)
            } else {
                None
            },
        }
    }
}

proof fn lemma_find_call_bounds(s: Seq<CallCount>, tool: Seq<char>, outcome: Seq<char>)
    ensures
        find_call(s, tool, outcome) matches Some(i) ==> 0 <= i < s.len() && s[i].tool@ == tool
            && s[i].outcome@ == outcome,
    decreases s.len(),
{
    if s.len() > 0 {
        lemma_find_call_bounds(s.drop_last(), tool, outcome);
    }
}

proof fn lemma_find_tool_bounds(s: Seq<ToolLatency>, tool: Seq<char>)
    ensures
        find_tool(s, tool) matches Some(i) ==> 0 <= i < s.len() && s[i].tool@ == tool,
    decreases s.len(),
{
    if s.len() > 0 {
        lemma_find_tool_bounds(s.drop_last(), tool);
    }
}

/// Replacing an entry by one with the same key moves no key's first entry.
proof fn lemma_find_call_update(s: Seq<CallCount>, i: int, x: CallCount, tool: Seq<char>, outcome: Seq<char>)
    requires
        0 <= i < s.len(),
        x.tool@ == s[i].tool@,
        x.outcome@ == s[i].outcome@,
    ensures
        find_call(s.update(i, x), tool, outcome) == find_call(s, tool, outcome),
    decreases s.len(),
{
    let u = s.update(i, x);
    if i == s.len() - 1 {
        assert(u.drop_last() =~= s.drop_last());
    } else {
        assert(u.drop_last() =~= s.drop_last().update(i, x));
        lemma_find_call_update(s.drop_last(), i, x, tool, outcome);
    }
}

proof fn lemma_find_tool_update(s: Seq<ToolLatency>, i: int, x: ToolLatency, tool: Seq<char>)
    requires
        0 <= i < s.len(),
        x.tool@ == s[i].tool@,
    ensures
        find_tool(s.update(i, x), tool) == find_tool(s, tool),
    decreases s.len(),
{
    let u = s.update(i, x);
    if i == s.len() - 1 {
        assert(u.drop_last() =~= s.drop_last());
    } else {
        assert(u.drop_last() =~= s.drop_last().update(i, x));
        lemma_find_tool_update(s.drop_last(), i, x, tool);
    }
}

/// All calls of `tool` counted, over every outcome.
pub open spec fn tool_calls(s: Seq<CallCount>, tool: Seq<char>) -> nat
    decreases s.len(),
{
    if s.len() == 0 {
        0
    } else {
        tool_calls(s.drop_last(), tool) + if s.last().tool@ == tool {
            s.last().count as nat
        } else {
            0nat
        }
    }
}

/// The sum of a histogram's buckets.
pub open spec fn bucket_sum(b: Seq<u64>) -> nat
    decreases b.len(),
{
    if b.len() == 0 {
        0
    } else {
        bucket_sum(b.drop_last()) + b.last() as nat
    }
}

/// All calls of `tool` counted in its latency histogram.
pub open spec fn tool_latency_total(s: Seq<ToolLatency>, tool: Seq<char>) -> nat {
    match find_tool(s, tool) {
        Some(i) => bucket_sum(s[i].buckets@),
        None => 0,
    }
}

/// Replacing a counter by one of the same tool changes that tool's total by the difference.
proof fn lemma_tool_calls_update(s: Seq<CallCount>, i: int, x: CallCount, t: Seq<char>)
    requires
        0 <= i < s.len(),
        x.tool@ == s[i].tool@,
    ensures
        tool_calls(s.update(i, x), t) + (if s[i].tool@ == t { s[i].count as nat } else { 0nat })
            == tool_calls(s, t) + (if x.tool@ == t { x.count as nat } else { 0nat }),
    decreases s.len(),
{
    let u = s.update(i, x);
    if i == s.len() - 1 {
        assert(u.drop_last() =~= s.drop_last());
    } else {
        assert(u.drop_last() =~= s.drop_last().update(i, x));
        lemma_tool_calls_update(s.drop_last(), i, x, t);
    }
}

/// Setting one bucket changes the sum by the difference.
proof fn lemma_bucket_sum_update(b: Seq<u64>, k: int, v: u64)
    requires
        0 <= k < b.len(),
    ensures
        bucket_sum(b.update(k, v)) + b[k] as nat == bucket_sum(b) + v as nat,
    decreases b.len(),
{
    let u = b.update(k, v);
    if k == b.len() - 1 {
        assert(u.drop_last() =~= b.drop_last());
    } else {
        assert(u.drop_last() =~= b.drop_last().update(k, v));
        lemma_bucket_sum_update(b.drop_last(), k, v);
    }
}

proof fn lemma_bucket_sum_zero(b: Seq<u64>)
    requires
        forall|j: int| 0 <= j < b.len() ==> b[j] == 0,
    ensures
        bucket_sum(b) == 0,
    decreases b.len(),
{
    if b.len() > 0 {
        lemma_bucket_sum_zero(b.drop_last());
    }
}

/// No (tool, outcome) has two counters.
pub open spec fn calls_distinct(s: Seq<CallCount>) -> bool {
    forall|i: int, j: int|
        0 <= i < j < s.len() ==> !((#[trigger] s[i]).tool@ == (#[trigger] s[j]).tool@ && s[i].outcome@
            == s[j].outcome@)
}

/// No tool has two histograms.
pub open spec fn tools_distinct(s: Seq<ToolLatency>) -> bool {
    forall|i: int, j: int| 0 <= i < j < s.len() ==> (#[trigger] s[i]).tool@ != (#[trigger] s[j]).tool@
}

proof fn lemma_find_call_none(s: Seq<CallCount>, tool: Seq<char>, outcome: Seq<char>)
    requires
        find_call(s, tool, outcome) is None,
    ensures
        forall|i: int| 0 <= i < s.len() ==> !((#[trigger] s[i]).tool@ == tool && s[i].outcome@ == outcome),
    decreases s.len(),
{
    if s.len() > 0 {
        lemma_find_call_none(s.drop_last(), tool, outcome);
        assert forall|i: int| 0 <= i < s.len() - 1 implies (#[trigger] s[i]) == s.drop_last()[i] by {}
    }
}

proof fn lemma_find_tool_none(s: Seq<ToolLatency>, tool: Seq<char>)
    requires
        find_tool(s, tool) is None,
    ensures
        forall|i: int| 0 <= i < s.len() ==> (#[trigger] s[i]).tool@ != tool,
    decreases s.len(),
{
    if s.len() > 0 {
        lemma_find_tool_none(s.drop_last(), tool);
        assert forall|i: int| 0 <= i < s.len() - 1 implies (#[trigger] s[i]) == s.drop_last()[i] by {}
    }
}

/// Calls counted for (`tool`, `outcome`).
pub open spec fn call_count(s: Seq<CallCount>, tool: Seq<char>, outcome: Seq<char>) -> nat {
    match find_call(s, tool, outcome) {
        Some(i) => s[i].count as nat,
        None => 0,
    }
}

/// Calls of `tool` counted in latency bucket `b`.
pub open spec fn bucket_count(s: Seq<ToolLatency>, tool: Seq<char>, b: int) -> nat {
    match find_tool(s, tool) {
        Some(i) => s[i].buckets@[b] as nat,
        None => 0,
    }
}

/// The result of recording a call: one more for its (tool, outcome) and one more in
/// its tool's bucket, nothing else changed.
pub open spec fn recorded(
    before: (Seq<CallCount>, Seq<ToolLatency>),
    after: (Seq<CallCount>, Seq<ToolLatency>),
    tool: Seq<char>,
    outcome: Seq<char>,
    ms: u64,
) -> bool {
    &&& forall|t: Seq<char>, o: Seq<char>| #[trigger]
        call_count(after.0, t, o) == call_count(before.0, t, o) + if t == tool && o == outcome {
            1nat
        } else {
            0nat
        }
    &&& forall|t: Seq<char>, b: int|
        0 <= b < LATENCY_BUCKETS ==> #[trigger] bucket_count(after.1, t, b) == bucket_count(
            before.1,
            t,
            b,
        ) + if t == tool && b == bucket_of(ms) {
            1nat
        } else {
            0nat
        }
}

/// Some bucket of a histogram has counted a call.
pub open spec fn histogram_used(b: Seq<u64>) -> bool {
    exists|k: int| 0 <= k < b.len() && b[k] >= 1
}

impl Metrics {
    /// Every histogram has one counter per bucket; no (tool, outcome) has two counters and
    /// no tool two histograms; only calls that happened are kept (every counter is at least
    /// one, and every histogram has counted a call).
    pub closed spec fn wf(&self) -> bool {
        &&& forall|i: int|
            0 <= i < self.latency@.len() ==> #[trigger] self.latency@[i].buckets@.len()
                == LATENCY_BUCKETS
        &&& calls_distinct(self.calls@)
        &&& tools_distinct(self.latency@)
        &&& forall|i: int| 0 <= i < self.calls@.len() ==> #[trigger] self.calls@[i].count >= 1
        &&& forall|i: int|
            0 <= i < self.latency@.len() ==> #[trigger] histogram_used(self.latency@[i].buckets@)
        &&& forall|t: Seq<char>| #[trigger] tool_calls(self.calls@, t) == tool_latency_total(self.latency@, t)
    }

    pub closed spec fn call_counts(&self) -> Seq<CallCount> {
        self.calls@
    }

    pub closed spec fn histograms(&self) -> Seq<ToolLatency> {
        self.latency@
    }

    /// Counters starting now, all zero.
    pub fn new() -> (r: Metrics)
        ensures
            r.wf(),
            r.call_counts().len() == 0,
            r.histograms().len() == 0,
    {
        Metrics { calls: Vec::new(), latency: Vec::new(), started: now() }
    }

    /// Calls counted for (`tool`, `outcome`).
    pub fn count(&self, tool: &str, outcome: &str) -> (r: u64)
        ensures
            r == call_count(self.call_counts(), tool@, outcome@),
    {
        match self.find_call_exec(tool, outcome) {
            Some(i) => {
                proof { lemma_find_call_bounds(self.calls@, tool@, outcome@); }
                self.calls[i].count
            },
            None => 0,
        }
    }

    /// Calls of `tool` counted in latency bucket `b`.
    pub fn bucket(&self, tool: &str, b: usize) -> (r: u64)
        requires
            self.wf(),
            b < LATENCY_BUCKETS,
        ensures
            r == bucket_count(self.histograms(), tool@, b as int),
    {
        match self.find_tool_exec(tool) {
            Some(i) => {
                proof { lemma_find_tool_bounds(self.latency@, tool@); }
                self.latency[i].buckets[b]
            },
            None => 0,
        }
    }

    fn find_call_exec(&self, tool: &str, outcome: &str) -> (r: Option<usize>)
        ensures
            r matches Some(i) ==> find_call(self.calls@, tool@, outcome@) == Some(i as int),
            r is None ==> find_call(self.calls@, tool@, outcome@) is None,
    {
        let mut i: usize = 0;
        while i < self.calls.len()
            invariant
                i <= self.calls.len(),
                find_call(self.calls@.take(i as int), tool@, outcome@) is None,
            decreases self.calls.len() - i,
        {
            let ghost t = self.calls@.take(i + 1);
            assert(t.drop_last() =~= self.calls@.take(i as int));
            if str_eq(self.calls[i].tool.as_str(), tool) && str_eq(self.calls[i].outcome.as_str(), outcome) {
                proof { lemma_find_call_prefix(self.calls@, i as int + 1, tool@, outcome@); }
                return Some(i);
            }
            i = i + 1;
        }
        assert(self.calls@.take(i as int) =~= self.calls@);
        None
    }

    fn find_tool_exec(&self, tool: &str) -> (r: Option<usize>)
        ensures
            r matches Some(i) ==> find_tool(self.latency@, tool@) == Some(i as int),
            r is None ==> find_tool(self.latency@, tool@) is None,
    {
        let mut i: usize = 0;
        while i < self.latency.len()
            invariant
                i <= self.latency.len(),
                find_tool(self.latency@.take(i as int), tool@) is None,
            decreases self.latency.len() - i,
        {
            let ghost t = self.latency@.take(i + 1);
            assert(t.drop_last() =~= self.latency@.take(i as int));
            if str_eq(self.latency[i].tool.as_str(), tool) {
                proof { lemma_find_tool_prefix(self.latency@, i as int + 1, tool@); }
                return Some(i);
            }
            i = i + 1;
        }
        assert(self.latency@.take(i as int) =~= self.latency@);
        None
    }

    /// Records one call of `tool` that ended with `outcome` and took `ms` milliseconds.
    pub fn record_millis(&mut self, tool: &str, outcome: &str, ms: u64)
        requires
            old(self).wf(),
            call_count(old(self).call_counts(), tool@, outcome@) < u64::MAX,
            bucket_count(old(self).histograms(), tool@, bucket_of(ms)) < u64::MAX,
        ensures
            final(self).wf(),
            recorded(
                (old(self).call_counts(), old(self).histograms()),
                (final(self).call_counts(), final(self).histograms()),
                tool@,
                outcome@,
                ms,
            ),
    {
        let ghost calls0 = self.calls@;
        let ghost lat0 = self.latency@;
        match self.find_call_exec(tool, outcome) {
            Some(i) => {
                proof { lemma_find_call_bounds(calls0, tool@, outcome@); }
                let c = self.calls[i].count;
                let entry = CallCount { tool: tool.to_owned(), outcome: outcome.to_owned(), count: c + 1 };
                self.calls.set(i, entry);
                proof {
                    assert forall|t: Seq<char>, o: Seq<char>| #[trigger] find_call(self.calls@, t, o) == find_call(calls0, t, o) by {
                        lemma_find_call_update(calls0, i as int, self.calls@[i as int], t, o);
                        assert(self.calls@ =~= calls0.update(i as int, self.calls@[i as int]));
                    }
                    assert forall|t: Seq<char>, o: Seq<char>| #[trigger]
                        call_count(self.calls@, t, o) == call_count(calls0, t, o) + if t == tool@ && o == outcome@ { 1nat } else { 0nat } by {
                        assert(find_call(self.calls@, t, o) == find_call(calls0, t, o));
                        lemma_find_call_bounds(calls0, t, o);
                    }
                    assert forall|a: int, b: int| 0 <= a < b < self.calls@.len() implies !((#[trigger] self.calls@[a]).tool@
                        == (#[trigger] self.calls@[b]).tool@ && self.calls@[a].outcome@ == self.calls@[b].outcome@) by {
                        assert(self.calls@[a].tool@ == calls0[a].tool@ && self.calls@[a].outcome@ == calls0[a].outcome@);
                        assert(self.calls@[b].tool@ == calls0[b].tool@ && self.calls@[b].outcome@ == calls0[b].outcome@);
                    }
                    assert forall|a: int| 0 <= a < self.calls@.len() implies #[trigger] self.calls@[a].count >= 1 by {
                        if a != i {
                            assert(self.calls@[a] == calls0[a]);
                        }
                    }
                    assert(self.calls@ =~= calls0.update(i as int, self.calls@[i as int]));
                    assert forall|t: Seq<char>| #[trigger] tool_calls(self.calls@, t) == tool_calls(calls0, t) + if t == tool@ { 1nat } else { 0nat } by {
                        lemma_tool_calls_update(calls0, i as int, self.calls@[i as int], t);
                    }
                }
            },
            None => {
                let entry = CallCount { tool: tool.to_owned(), outcome: outcome.to_owned(), count: 1 };
                self.calls.push(entry);
                proof {
                    assert(self.calls@.drop_last() =~= calls0);
                    assert forall|t: Seq<char>, o: Seq<char>| #[trigger]
                        call_count(self.calls@, t, o) == call_count(calls0, t, o) + if t == tool@ && o == outcome@ { 1nat } else { 0nat } by {
                        lemma_find_call_bounds(calls0, t, o);
                        if find_call(calls0, t, o) is Some {
                            assert(self.calls@[find_call(calls0, t, o)->0] == calls0[find_call(calls0, t, o)->0]);
                        }
                    }
                    lemma_find_call_none(calls0, tool@, outcome@);
                    assert forall|a: int, b: int| 0 <= a < b < self.calls@.len() implies !((#[trigger] self.calls@[a]).tool@
                        == (#[trigger] self.calls@[b]).tool@ && self.calls@[a].outcome@ == self.calls@[b].outcome@) by {
                        assert(self.calls@[a] == calls0[a]);
                        if b < calls0.len() {
                            assert(self.calls@[b] == calls0[b]);
                        }
                    }
                    assert forall|a: int| 0 <= a < self.calls@.len() implies #[trigger] self.calls@[a].count >= 1 by {
                        if a < calls0.len() {
                            assert(self.calls@[a] == calls0[a]);
                        }
                    }
                    assert forall|t: Seq<char>| #[trigger] tool_calls(self.calls@, t) == tool_calls(calls0, t) + if t == tool@ { 1nat } else { 0nat } by {
                        assert(self.calls@.last().tool@ == tool@ && self.calls@.last().count == 1);
                    }
                }
            },
        }
        let b = bucket_index(ms);
        match self.find_tool_exec(tool) {
            Some(i) => {
                proof { lemma_find_tool_bounds(lat0, tool@); }
                let mut buckets = self.latency[i].buckets.clone();
                assert(buckets@ == lat0[i as int].buckets@);
                let n = buckets[b];
                buckets.set(b, n + 1);
                let entry = ToolLatency { tool: tool.to_owned(), buckets };
                self.latency.set(i, entry);
                proof {
                    assert forall|t: Seq<char>| #[trigger] find_tool(self.latency@, t) == find_tool(lat0, t) by {
                        lemma_find_tool_update(lat0, i as int, self.latency@[i as int], t);
                        assert(self.latency@ =~= lat0.update(i as int, self.latency@[i as int]));
                    }
                    assert forall|t: Seq<char>, k: int| 0 <= k < LATENCY_BUCKETS implies #[trigger]
                        bucket_count(self.latency@, t, k) == bucket_count(lat0, t, k) + if t == tool@ && k == bucket_of(ms) { 1nat } else { 0nat } by {
                        assert(find_tool(self.latency@, t) == find_tool(lat0, t));
                        lemma_find_tool_bounds(lat0, t);
                    }
                    assert forall|a: int, b: int| 0 <= a < b < self.latency@.len() implies (#[trigger] self.latency@[a]).tool@
                        != (#[trigger] self.latency@[b]).tool@ by {
                        assert(self.latency@[a].tool@ == lat0[a].tool@);
                        assert(self.latency@[b].tool@ == lat0[b].tool@);
                    }
                    assert forall|a: int| 0 <= a < self.latency@.len() implies #[trigger] histogram_used(self.latency@[a].buckets@) by {
                        if a != i {
                            assert(self.latency@[a] == lat0[a]);
                        } else {
                            assert(self.latency@[a].buckets@[b as int] >= 1);
                        }
                    }
                    assert forall|t: Seq<char>| #[trigger] tool_latency_total(self.latency@, t) == tool_latency_total(lat0, t) + if t == tool@ { 1nat } else { 0nat } by {
                        assert(find_tool(self.latency@, t) == find_tool(lat0, t));
                        lemma_find_tool_bounds(lat0, t);
                        if t == tool@ {
                            lemma_bucket_sum_update(lat0[i as int].buckets@, b as int, (n + 1) as u64);
                            assert(self.latency@[i as int].buckets@ =~= lat0[i as int].buckets@.update(b as int, (n + 1) as u64));
                        } else if let Some(j) = find_tool(lat0, t) {
                            assert(j != i);
                            assert(self.latency@[j] == lat0[j]);
                        }
                    }
                }
            },
            None => {
                let mut buckets: Vec<u64> = Vec::new();
                let mut k: usize = 0;
                while k < LATENCY_BUCKETS
                    invariant
                        k <= LATENCY_BUCKETS,
                        buckets@.len() == k,
                        forall|j: int| 0 <= j < k ==> buckets@[j] == 0,
                    decreases LATENCY_BUCKETS - k,
                {
                    buckets.push(0);
                    k = k + 1;
                }
                let ghost zeros = buckets@;
                buckets.set(b, 1);
                let entry = ToolLatency { tool: tool.to_owned(), buckets };
                self.latency.push(entry);
                proof {
                    assert(self.latency@.drop_last() =~= lat0);
                    assert forall|t: Seq<char>, k: int| 0 <= k < LATENCY_BUCKETS implies #[trigger]
                        bucket_count(self.latency@, t, k) == bucket_count(lat0, t, k) + if t == tool@ && k == bucket_of(ms) { 1nat } else { 0nat } by {
                        lemma_find_tool_bounds(lat0, t);
                        if find_tool(lat0, t) is Some {
                            assert(self.latency@[find_tool(lat0, t)->0] == lat0[find_tool(lat0, t)->0]);
                        }
                    }
                    lemma_find_tool_none(lat0, tool@);
                    assert forall|a: int, b: int| 0 <= a < b < self.latency@.len() implies (#[trigger] self.latency@[a]).tool@
                        != (#[trigger] self.latency@[b]).tool@ by {
                        assert(self.latency@[a] == lat0[a]);
                        if b < lat0.len() {
                            assert(self.latency@[b] == lat0[b]);
                        }
                    }
                    assert forall|a: int| 0 <= a < self.latency@.len() implies #[trigger] histogram_used(self.latency@[a].buckets@) by {
                        if a < lat0.len() {
                            assert(self.latency@[a] == lat0[a]);
                        } else {
                            assert(self.latency@[a].buckets@[b as int] >= 1);
                        }
                    }
                    assert forall|t: Seq<char>| #[trigger] tool_latency_total(self.latency@, t) == tool_latency_total(lat0, t) + if t == tool@ { 1nat } else { 0nat } by {
                        assert(self.latency@.last().tool@ == tool@);
                        lemma_find_tool_bounds(lat0, t);
                        if t == tool@ {
                            assert(find_tool(self.latency@, t) == Some(lat0.len() as int));
                            lemma_bucket_sum_update(zeros, b as int, 1);
                            lemma_bucket_sum_zero(zeros);
                            assert(self.latency@.last().buckets@ =~= zeros.update(b as int, 1));
                        } else if let Some(j) = find_tool(lat0, t) {
                            assert(find_tool(self.latency@, t) == Some(j));
                            assert(self.latency@[j] == lat0[j]);
                        }
                    }
                }
            },
        }
        assert forall|i: int| 0 <= i < self.latency@.len() implies #[trigger] self.latency@[i].buckets@.len() == LATENCY_BUCKETS by {
            if i < lat0.len() && self.latency@[i] == lat0[i] {
            }
        }
        assert forall|t: Seq<char>| #[trigger] tool_calls(self.calls@, t) == tool_latency_total(self.latency@, t) by {
            assert(tool_calls(calls0, t) == tool_latency_total(lat0, t));
            assert(tool_calls(self.calls@, t) == tool_calls(calls0, t) + if t == tool@ { 1nat } else { 0nat });
            assert(tool_latency_total(self.latency@, t) == tool_latency_total(lat0, t) + if t == tool@ { 1nat } else { 0nat });
        }
    }

    /// Records one call of `tool` that ended with `outcome` and took `took`, counted in
    /// whole milliseconds (`Duration::as_millis`, cut to 64 bits).
    pub fn record(&mut self, tool: &str, outcome: &str, took: Duration)
        requires
            old(self).wf(),
            call_count(old(self).call_counts(), tool@, outcome@) < u64::MAX,
            forall|b: int| 0 <= b < LATENCY_BUCKETS ==> #[trigger] bucket_count(old(self).histograms(), tool@, b) < u64::MAX,
        ensures
            final(self).wf(),
            recorded(
                (old(self).call_counts(), old(self).histograms()),
                (final(self).call_counts(), final(self).histograms()),
                tool@,
                outcome@,
                duration_millis(took) as u64,
            ),
    {
        let raw = millis(&took);
        let ms: u64 = #[verifier::truncate] (raw as u64);
        assert(0 <= bucket_of(ms) < LATENCY_BUCKETS);
        assert(bucket_count(self.histograms(), tool@, bucket_of(ms)) < u64::MAX);
        self.record_millis(tool, outcome, ms);
    }

    /// Whole seconds since the counters started: the whole seconds of the time the clock
    /// says has passed (what the clock says is not stated).
    pub fn uptime_secs(&self) -> (r: u64)
        ensures
            exists|d: Duration| r == duration_secs(d),
    {
        let d = elapsed(&self.started);
        let r = whole_secs(&d);
        assert(r == duration_secs(d));
        r
    }
}

/// Each recorded call is counted once under its outcome and once in its tool's latency
/// histogram: for every tool, the calls counted over all outcomes equal the calls in its
/// latency buckets.
pub proof fn lemma_latency_totals_match_calls(m: &Metrics, tool: Seq<char>)
    requires
        m.wf(),
    ensures
        tool_calls(m.call_counts(), tool) == tool_latency_total(m.histograms(), tool),
{
}

proof fn lemma_find_call_prefix(s: Seq<CallCount>, n: int, tool: Seq<char>, outcome: Seq<char>)
    requires
        0 <= n <= s.len(),
        find_call(s.take(n), tool, outcome) is Some,
    ensures
        find_call(s, tool, outcome) == find_call(s.take(n), tool, outcome),
    decreases s.len() - n,
{
    if n < s.len() {
        assert(s.take(n + 1).drop_last() =~= s.take(n));
        lemma_find_call_prefix(s, n + 1, tool, outcome);
    } else {
        assert(s.take(n) =~= s);
    }
}

proof fn lemma_find_tool_prefix(s: Seq<ToolLatency>, n: int, tool: Seq<char>)
    requires
        0 <= n <= s.len(),
        find_tool(s.take(n), tool) is Some,
    ensures
        find_tool(s, tool) == find_tool(s.take(n), tool),
    decreases s.len() - n,
{
    if n < s.len() {
        assert(s.take(n + 1).drop_last() =~= s.take(n));
        lemma_find_tool_prefix(s, n + 1, tool);
    } else {
        assert(s.take(n) =~= s);
    }
}

/// `Instant::now`: the current time; nothing is claimed of it.
#[verifier::external_body]
fn now() -> Instant {
    Instant::now()
}

/// `Instant::elapsed`: the time since `t`; it depends on the clock, so nothing is claimed
/// of it.
#[verifier::external_body]
fn elapsed(t: &Instant) -> Duration {
    t.elapsed()
}

/// The whole seconds of a duration (`Duration::as_secs`), a function of the duration
/// alone.
pub uninterp spec fn duration_secs(d: Duration) -> u64;

/// `Duration::as_secs`: the whole seconds of a duration.
#[verifier::external_body]
fn whole_secs(d: &Duration) -> (r: u64)
    ensures
        r == duration_secs(*d),
{
    d.as_secs()
}

/// The whole milliseconds of a duration (`Duration::as_millis`), a function of the
/// duration alone.
pub uninterp spec fn duration_millis(d: Duration) -> u128;

/// `Duration::as_millis`: the whole milliseconds of a duration.
#[verifier::external_body]
fn millis(d: &Duration) -> (r: u128)
    ensures
        r == duration_millis(*d),
{
    d.as_millis()
}

// ---------------------------------------------------------------- snapshot

/// A counter as a JSON number.
pub open spec fn count_json(n: u64) -> JsonV {
    JsonV::Number(decimal(n as nat))
}

/// The members of the object stored under `key`, or none.
pub open spec fn inner_members(m: Members, key: Seq<char>) -> Members {
    match members_get(m, key) {
        Some(JsonV::Object(im)) => im,
        _ => Seq::empty(),
    }
}

/// Call counters grouped by tool, then by outcome.
pub open spec fn calls_json(s: Seq<CallCount>) -> Members
    decreases s.len(),
{
    if s.len() == 0 {
        Seq::empty()
    } else {
        let m = calls_json(s.drop_last());
        let e = s.last();
        members_insert(
            m,
            e.tool@,
            JsonV::Object(members_insert(inner_members(m, e.tool@), e.outcome@, count_json(e.count))),
        )
    }
}

/// The name of latency bucket `b`.
pub open spec fn bucket_label(b: int) -> Seq<char> {
    if b == 0 {
        "le_5ms"@
    } else if b == 1 {
        "le_10ms"@
    } else if b == 2 {
        "le_25ms"@
    } else if b == 3 {
        "le_50ms"@
    } else if b == 4 {
        "le_100ms"@
    } else if b == 5 {
        "le_250ms"@
    } else if b == 6 {
        "le_500ms"@
    } else if b == 7 {
        "le_1000ms"@
    } else if b == 8 {
        "le_2500ms"@
    } else {
        "gt_2500ms"@
    }
}

/// The first `n` buckets of a histogram as an object from bucket name to count.
pub open spec fn histogram_json(buckets: Seq<u64>, n: nat) -> Members
    decreases n,
{
    if n == 0 {
        Seq::empty()
    } else {
        members_insert(
            histogram_json(buckets, (n - 1) as nat),
            bucket_label(n - 1),
            count_json(buckets[n - 1]),
        )
    }
}

/// Histograms by tool.
pub open spec fn latency_json(s: Seq<ToolLatency>) -> Members
    decreases s.len(),
{
    if s.len() == 0 {
        Seq::empty()
    } else {
        members_insert(
            latency_json(s.drop_last()),
            s.last().tool@,
            JsonV::Object(histogram_json(s.last().buckets@, LATENCY_BUCKETS as nat)),
        )
    }
}

/// The report: `{"calls": {tool: {outcome: n}}, "latency_ms": {tool: {bucket: n}}}`.
pub open spec fn snapshot_of(calls: Seq<CallCount>, latency: Seq<ToolLatency>) -> JsonV {
    JsonV::Object(
        seq![
            ("calls"@, JsonV::Object(calls_json(calls))),
            ("latency_ms"@, JsonV::Object(latency_json(latency))),
        ],
    )
}

fn count_value(n: u64) -> (r: Json)
    ensures
        r@ == count_json(n),
{
    Json::Number(string_of(&decimal_text(n as u128)))
}

fn bucket_label_text(b: usize) -> (r: String)
    ensures
        r@ == bucket_label(b as int),
{
    if b == 0 {
        "le_5ms".to_owned()
    } else if b == 1 {
        "le_10ms".to_owned()
    } else if b == 2 {
        "le_25ms".to_owned()
    } else if b == 3 {
        "le_50ms".to_owned()
    } else if b == 4 {
        "le_100ms".to_owned()
    } else if b == 5 {
        "le_250ms".to_owned()
    } else if b == 6 {
        "le_500ms".to_owned()
    } else if b == 7 {
        "le_1000ms".to_owned()
    } else if b == 8 {
        "le_2500ms".to_owned()
    } else {
        "gt_2500ms".to_owned()
    }
}

impl Metrics {
    /// The counters as JSON (see `snapshot_of`).
    pub fn snapshot(&self) -> (r: Json)
        requires
            self.wf(),
        ensures
            r@ == snapshot_of(self.call_counts(), self.histograms()),
    {
        let mut calls: Vec<(String, Json)> = Vec::new();
        let mut i: usize = 0;
        while i < self.calls.len()
            invariant
                i <= self.calls.len(),
                jv_members(calls@) == calls_json(self.calls@.take(i as int)),
            decreases self.calls.len() - i,
        {
            let e = &self.calls[i];
            let ghost m = jv_members(calls@);
            proof {
                let t = self.calls@.take(i + 1);
                assert(t.drop_last() =~= self.calls@.take(i as int));
                assert(t.last() == *e);
            }
            let mut inner: Vec<(String, Json)> = match find_member(&calls, e.tool.as_str()) {
                Some(j) => match &calls[j].1 {
                    Json::Object(im) => duplicate_members(im),
                    _ => Vec::new(),
                },
                None => Vec::new(),
            };
            assert(jv_members(inner@) == inner_members(m, e.tool@));
            insert_member(&mut inner, e.outcome.clone(), count_value(e.count));
            insert_member(&mut calls, e.tool.clone(), Json::Object(inner));
            i = i + 1;
        }
        assert(self.calls@.take(i as int) =~= self.calls@);
        let mut latency: Vec<(String, Json)> = Vec::new();
        let mut i: usize = 0;
        while i < self.latency.len()
            invariant
                i <= self.latency.len(),
                self.wf(),
                jv_members(latency@) == latency_json(self.latency@.take(i as int)),
            decreases self.latency.len() - i,
        {
            let e = &self.latency[i];
            proof {
                let t = self.latency@.take(i + 1);
                assert(t.drop_last() =~= self.latency@.take(i as int));
                assert(t.last() == *e);
            }
            let mut hist: Vec<(String, Json)> = Vec::new();
            let mut b: usize = 0;
            while b < LATENCY_BUCKETS
                invariant
                    b <= LATENCY_BUCKETS,
                    e.buckets@.len() == LATENCY_BUCKETS,
                    jv_members(hist@) == histogram_json(e.buckets@, b as nat),
                decreases LATENCY_BUCKETS - b,
            {
                insert_member(&mut hist, bucket_label_text(b), count_value(e.buckets[b]));
                b = b + 1;
            }
            insert_member(&mut latency, e.tool.clone(), Json::Object(hist));
            i = i + 1;
        }
        assert(self.latency@.take(i as int) =~= self.latency@);
        let r = Json::Object(vec![("calls".to_owned(), Json::Object(calls)), ("latency_ms".to_owned(), Json::Object(latency))]);
        proof {
            let top = r->Object_0@;
            crate::json::lemma_jv_members_index_all(top);
            assert(top.len() == 2);
            assert(jv_members(top) =~= snapshot_of(self.calls@, self.latency@)->Object_0);
        }
        r
    }
}

impl Default for Metrics {
    fn default() -> (r: Metrics)
        ensures
            r.wf(),
            r.call_counts().len() == 0,
            r.histograms().len() == 0,
    {
        Metrics::new()
    }
}

impl Metrics {
    /// Whether a call of `tool` ending with `outcome` can be recorded without a counter
    /// passing its maximum.
    pub fn can_record(&self, tool: &str, outcome: &str) -> (r: bool)
        requires
            self.wf(),
        ensures
            r == (call_count(self.call_counts(), tool@, outcome@) < u64::MAX && forall|b: int|
                0 <= b < LATENCY_BUCKETS ==> #[trigger] bucket_count(self.histograms(), tool@, b)
                    < u64::MAX),
    {
        if self.count(tool, outcome) == u64::MAX {
            return false;
        }
        let mut b: usize = 0;
        while b < LATENCY_BUCKETS
            invariant
                b <= LATENCY_BUCKETS,
                self.wf(),
                forall|k: int| 0 <= k < b ==> #[trigger] bucket_count(self.histograms(), tool@, k) < u64::MAX,
            decreases LATENCY_BUCKETS - b,
        {
            if self.bucket(tool, b) == u64::MAX {
                return false;
            }
            b = b + 1;
        }
        true
    }
}

// ---------------------------------------------------------------- laws

proof fn lemma_calls_json_objects(s: Seq<CallCount>, t: Seq<char>)
    ensures
        members_get(calls_json(s), t) is None || members_get(calls_json(s), t) is Some && members_get(
            calls_json(s),
            t,
        )->0 is Object,
    decreases s.len(),
{
    if s.len() > 0 {
        let p = s.drop_last();
        let e = s.last();
        lemma_calls_json_objects(p, t);
        let inner = JsonV::Object(members_insert(inner_members(calls_json(p), e.tool@), e.outcome@, count_json(e.count)));
        if t == e.tool@ {
            lemma_members_insert_get(calls_json(p), e.tool@, inner);
        } else {
            lemma_members_insert_get_other(calls_json(p), e.tool@, inner, t);
        }
    }
}

proof fn lemma_calls_json_counts(s: Seq<CallCount>, t: Seq<char>, o: Seq<char>)
    requires
        calls_distinct(s),
    ensures
        members_get(inner_members(calls_json(s), t), o) == match find_call(s, t, o) {
            Some(i) => Some(count_json(s[i].count)),
            None => None,
        },
    decreases s.len(),
{
    if s.len() > 0 {
        let p = s.drop_last();
        let e = s.last();
        assert(calls_distinct(p)) by {
            assert forall|a: int, b: int| 0 <= a < b < p.len() implies !((#[trigger] p[a]).tool@
                == (#[trigger] p[b]).tool@ && p[a].outcome@ == p[b].outcome@) by {
                assert(p[a] == s[a] && p[b] == s[b]);
            }
        }
        lemma_calls_json_counts(p, t, o);
        lemma_find_call_bounds(p, t, o);
        let m = calls_json(p);
        let newin = members_insert(inner_members(m, e.tool@), e.outcome@, count_json(e.count));
        let inner = JsonV::Object(newin);
        if t == e.tool@ {
            lemma_members_insert_get(m, e.tool@, inner);
            assert(inner_members(calls_json(s), t) == newin);
            if o == e.outcome@ {
                lemma_members_insert_get(inner_members(m, e.tool@), e.outcome@, count_json(e.count));
                if find_call(p, t, o) is Some {
                    let i = find_call(p, t, o)->0;
                    assert(s[i] == p[i]);
                    assert(false);
                }
            } else {
                lemma_members_insert_get_other(inner_members(m, e.tool@), e.outcome@, count_json(e.count), o);
                if find_call(p, t, o) is Some {
                    let i = find_call(p, t, o)->0;
                    assert(s[i] == p[i]);
                }
            }
        } else {
            lemma_members_insert_get_other(m, e.tool@, inner, t);
            assert(inner_members(calls_json(s), t) == inner_members(m, t));
            if find_call(p, t, o) is Some {
                let i = find_call(p, t, o)->0;
                assert(s[i] == p[i]);
            }
        }
    }
}

/// The report shows exactly the recorded calls: under `calls`, the object of a tool
/// maps each outcome counted for it to its count, and a (tool, outcome) never counted
/// does not appear.
pub proof fn lemma_snapshot_reports_calls(m: &Metrics, tool: Seq<char>, outcome: Seq<char>)
    requires
        m.wf(),
    ensures
        get_opt(get_opt(get(snapshot_of(m.call_counts(), m.histograms()), "calls"@), tool), outcome)
            == if find_call(m.call_counts(), tool, outcome) is Some {
            Some(count_json(call_count(m.call_counts(), tool, outcome) as u64))
        } else {
            None
        },
{
    let s = m.call_counts();
    lemma_calls_json_counts(s, tool, outcome);
    lemma_calls_json_objects(s, tool);
    lemma_find_call_bounds(s, tool, outcome);
    let top = snapshot_of(s, m.histograms());
    assert(get(top, "calls"@) == Some(JsonV::Object(calls_json(s))));
}

proof fn lemma_bucket_labels_distinct(a: int, b: int)
    requires
        0 <= a < b < LATENCY_BUCKETS,
    ensures
        bucket_label(a) != bucket_label(b),
{
    reveal_strlit("le_5ms");
    reveal_strlit("le_10ms");
    reveal_strlit("le_25ms");
    reveal_strlit("le_50ms");
    reveal_strlit("le_100ms");
    reveal_strlit("le_250ms");
    reveal_strlit("le_500ms");
    reveal_strlit("le_1000ms");
    reveal_strlit("le_2500ms");
    reveal_strlit("gt_2500ms");
    let x = bucket_label(a);
    let y = bucket_label(b);
    assert(x.len() != y.len() || x[0] != y[0] || x[3] != y[3]);
}

proof fn lemma_histogram_json(buckets: Seq<u64>, n: nat, k: int)
    requires
        n <= LATENCY_BUCKETS,
        buckets.len() == LATENCY_BUCKETS,
        0 <= k < LATENCY_BUCKETS,
    ensures
        members_get(histogram_json(buckets, n), bucket_label(k)) == if k < n {
            Some(count_json(buckets[k]))
        } else {
            None
        },
    decreases n,
{
    if n > 0 {
        lemma_histogram_json(buckets, (n - 1) as nat, k);
        let prev = histogram_json(buckets, (n - 1) as nat);
        if k == n - 1 {
            lemma_members_insert_get(prev, bucket_label(k), count_json(buckets[k]));
        } else {
            if k < n - 1 {
                lemma_bucket_labels_distinct(k, n - 1);
            } else {
                lemma_bucket_labels_distinct(n - 1, k);
            }
            lemma_members_insert_get_other(prev, bucket_label(n - 1), count_json(buckets[n - 1]), bucket_label(k));
        }
    }
}

proof fn lemma_latency_json(s: Seq<ToolLatency>, t: Seq<char>)
    requires
        tools_distinct(s),
    ensures
        members_get(latency_json(s), t) == match find_tool(s, t) {
            Some(i) => Some(JsonV::Object(histogram_json(s[i].buckets@, LATENCY_BUCKETS as nat))),
            None => None,
        },
    decreases s.len(),
{
    if s.len() > 0 {
        let p = s.drop_last();
        let e = s.last();
        assert(tools_distinct(p)) by {
            assert forall|a: int, b: int| 0 <= a < b < p.len() implies (#[trigger] p[a]).tool@ != (
            #[trigger] p[b]).tool@ by {
                assert(p[a] == s[a] && p[b] == s[b]);
            }
        }
        lemma_latency_json(p, t);
        lemma_find_tool_bounds(p, t);
        let v = JsonV::Object(histogram_json(e.buckets@, LATENCY_BUCKETS as nat));
        if t == e.tool@ {
            lemma_members_insert_get(latency_json(p), t, v);
            if find_tool(p, t) is Some {
                let i = find_tool(p, t)->0;
                assert(s[i] == p[i]);
                assert(false);
            }
        } else {
            lemma_members_insert_get_other(latency_json(p), e.tool@, v, t);
            if find_tool(p, t) is Some {
                let i = find_tool(p, t)->0;
                assert(s[i] == p[i]);
            }
        }
    }
}

/// The report shows the recorded latencies: under `latency_ms`, the object of a tool
/// maps each bucket's name to the calls counted in it, and a tool never recorded does
/// not appear.
pub proof fn lemma_snapshot_reports_latency(m: &Metrics, tool: Seq<char>, b: int)
    requires
        m.wf(),
        0 <= b < LATENCY_BUCKETS,
    ensures
        get_opt(get_opt(get(snapshot_of(m.call_counts(), m.histograms()), "latency_ms"@), tool), bucket_label(b))
            == if find_tool(m.histograms(), tool) is Some {
            Some(count_json(bucket_count(m.histograms(), tool, b) as u64))
        } else {
            None
        },
{
    let s = m.histograms();
    lemma_latency_json(s, tool);
    lemma_find_tool_bounds(s, tool);
    reveal_strlit("calls");
    reveal_strlit("latency_ms");
    let top = snapshot_of(m.call_counts(), s);
    assert("calls"@ != "latency_ms"@) by {
        assert("calls"@.len() != "latency_ms"@.len());
    }
    let ms = top->Object_0;
    assert(ms.drop_first() =~= seq![("latency_ms"@, JsonV::Object(latency_json(s)))]);
    assert(members_get(ms.drop_first(), "latency_ms"@) == Some(JsonV::Object(latency_json(s))));
    assert(get(top, "latency_ms"@) == Some(JsonV::Object(latency_json(s))));
    if find_tool(s, tool) is Some {
        let i = find_tool(s, tool)->0;
        assert(s[i].buckets@.len() == LATENCY_BUCKETS);
        lemma_histogram_json(s[i].buckets@, LATENCY_BUCKETS as nat, b);
    }
}


/// The count a snapshot shows for (`tool`, `outcome`) under `calls`.
pub open spec fn shown_call(m: &Metrics, tool: Seq<char>, outcome: Seq<char>) -> Option<JsonV> {
    get_opt(get_opt(get(snapshot_of(m.call_counts(), m.histograms()), "calls"@), tool), outcome)
}

/// The count a snapshot shows for `tool` in latency bucket `b`.
pub open spec fn shown_latency(m: &Metrics, tool: Seq<char>, b: int) -> Option<JsonV> {
    get_opt(get_opt(get(snapshot_of(m.call_counts(), m.histograms()), "latency_ms"@), tool), bucket_label(b))
}

proof fn lemma_counted_iff_found(m: &Metrics, tool: Seq<char>, outcome: Seq<char>)
    requires
        m.wf(),
    ensures
        (find_call(m.call_counts(), tool, outcome) is Some) == (call_count(m.call_counts(), tool, outcome) >= 1),
{
    lemma_find_call_bounds(m.calls@, tool, outcome);
}

proof fn lemma_histogram_iff_used(m: &Metrics, tool: Seq<char>)
    requires
        m.wf(),
    ensures
        (find_tool(m.histograms(), tool) is Some) == (exists|b: int|
            0 <= b < LATENCY_BUCKETS && #[trigger] bucket_count(m.histograms(), tool, b) >= 1),
{
    lemma_find_tool_bounds(m.latency@, tool);
    if let Some(i) = find_tool(m.latency@, tool) {
        assert(histogram_used(m.latency@[i].buckets@));
        let k = choose|k: int| 0 <= k < m.latency@[i].buckets@.len() && m.latency@[i].buckets@[k] >= 1;
        assert(bucket_count(m.latency@, tool, k) >= 1);
    }
}

/// Recording a call shows in the report: under `calls`, the count of its (tool,
/// outcome) rises by one (from absent to 1 for a first call) and every other pair's entry
/// stays as it was; under `latency_ms`, the call's tool shows its old bucket counts with
/// one more in the call's bucket, and every other tool's entries stay as they were.
pub proof fn lemma_record_shows_in_snapshot(
    m0: &Metrics,
    m1: &Metrics,
    tool: Seq<char>,
    outcome: Seq<char>,
    ms: u64,
    t: Seq<char>,
    o: Seq<char>,
    b: int,
)
    requires
        m0.wf(),
        m1.wf(),
        recorded((m0.call_counts(), m0.histograms()), (m1.call_counts(), m1.histograms()), tool, outcome, ms),
        0 <= b < LATENCY_BUCKETS,
    ensures
        (t == tool && o == outcome) ==> shown_call(m1, t, o) == Some(
            count_json((call_count(m0.call_counts(), t, o) + 1) as u64),
        ),
        !(t == tool && o == outcome) ==> shown_call(m1, t, o) == shown_call(m0, t, o),
        t == tool ==> shown_latency(m1, t, b) == Some(
            count_json((bucket_count(m0.histograms(), t, b) + if b == bucket_of(ms) { 1nat } else { 0nat }) as u64),
        ),
        t != tool ==> shown_latency(m1, t, b) == shown_latency(m0, t, b),
{
    lemma_snapshot_reports_calls(m0, t, o);
    lemma_snapshot_reports_calls(m1, t, o);
    lemma_snapshot_reports_latency(m0, t, b);
    lemma_snapshot_reports_latency(m1, t, b);
    lemma_counted_iff_found(m0, t, o);
    lemma_counted_iff_found(m1, t, o);
    let before = (m0.call_counts(), m0.histograms());
    let after = (m1.call_counts(), m1.histograms());
    assert(call_count(after.0, t, o) == call_count(before.0, t, o) + if t == tool && o == outcome {
        1nat
    } else {
        0nat
    });
    lemma_histogram_iff_used(m0, t);
    lemma_histogram_iff_used(m1, t);
    assert forall|k: int| 0 <= k < LATENCY_BUCKETS implies #[trigger] bucket_count(m1.histograms(), t, k)
        == bucket_count(m0.histograms(), t, k) + if t == tool && k == bucket_of(ms) { 1nat } else { 0nat } by {
        assert(bucket_count(after.1, t, k) == bucket_count(before.1, t, k) + if t == tool && k == bucket_of(ms) {
            1nat
        } else {
            0nat
        });
    }
    assert(bucket_count(m1.histograms(), t, b) == bucket_count(m0.histograms(), t, b) + if t == tool && b == bucket_of(ms) {
        1nat
    } else {
        0nat
    });
    if t == tool {
        assert(0 <= bucket_of(ms) < LATENCY_BUCKETS);
        assert(bucket_count(m1.histograms(), t, bucket_of(ms)) >= 1);
    } else {
        if find_tool(m0.histograms(), t) is Some {
            let k = choose|k: int| 0 <= k < LATENCY_BUCKETS && #[trigger] bucket_count(m0.histograms(), t, k) >= 1;
            assert(bucket_count(m1.histograms(), t, k) >= 1);
        }
        if find_tool(m1.histograms(), t) is Some {
            let k = choose|k: int| 0 <= k < LATENCY_BUCKETS && #[trigger] bucket_count(m1.histograms(), t, k) >= 1;
            assert(bucket_count(m0.histograms(), t, k) >= 1);
        }
    }
}

} // verus!
