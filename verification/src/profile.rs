//! Profile creation and handling utilities

use crate::stack::{next_calls, step_of, step_outcome, insn_fits, Call, Error, Frame, Insn, State};
use crate::stat::{count_in, lemma_count_concat, lemma_count_single, Tally};
use std::sync::Arc;
use vstd::prelude::*;

pub mod callgrind;

verus! {

/// Cost associated with a profiled item (e.g. an instruction)
#[derive(Copy, Clone, Default, Debug, PartialEq, Eq, Structural)]
pub struct Cost {
    /// Ticks
    ///
    /// Ticks are effectively instruction counts.
    pub ticks: u64,
}

/// `a + b`, capped at the largest `u64`.
pub open spec fn sat_add(a: u64, b: u64) -> u64 {
    if a + b > u64::MAX {
        u64::MAX
    } else {
        (a + b) as u64
    }
}

/// `a - b`, floored at zero.
pub open spec fn sat_sub(a: u64, b: u64) -> u64 {
    if a < b {
        0
    } else {
        (a - b) as u64
    }
}

impl Cost {
    /// A cost of zero ticks
    pub fn zero() -> (r: Cost)
        ensures
            r.ticks == 0,
    {
        Cost { ticks: 0 }
    }

    /// Increase this cost by a single tick
    pub fn tick(&mut self)
        ensures
            final(self).ticks == sat_add(old(self).ticks, 1),
    {
        self.ticks = self.ticks.saturating_add(1);
    }

    /// Check whether this cost is zero
    pub fn is_zero(&self) -> (r: bool)
        ensures
            r == (self.ticks == 0),
    {
        self.ticks == 0
    }
}

impl std::ops::Add for Cost {
    type Output = Cost;

    fn add(self, other: Cost) -> (r: Cost)
        ensures
            r.ticks == sat_add(self.ticks, other.ticks),
    {
        let ticks = self.ticks.saturating_add(other.ticks);
        Cost { ticks }
    }
}

impl vstd::std_specs::ops::AddSpecImpl for Cost {
    open spec fn obeys_add_spec() -> bool {
        true
    }

    open spec fn add_req(self, rhs: Cost) -> bool {
        true
    }

    open spec fn add_spec(self, rhs: Cost) -> Cost {
        Cost { ticks: sat_add(self.ticks, rhs.ticks) }
    }
}

impl std::ops::Sub for Cost {
    type Output = Cost;

    fn sub(self, other: Cost) -> (r: Cost)
        ensures
            r.ticks == sat_sub(self.ticks, other.ticks),
    {
        let ticks = self.ticks.saturating_sub(other.ticks);
        Cost { ticks }
    }
}

impl vstd::std_specs::ops::SubSpecImpl for Cost {
    open spec fn obeys_sub_spec() -> bool {
        true
    }

    open spec fn sub_req(self, rhs: Cost) -> bool {
        true
    }

    open spec fn sub_spec(self, rhs: Cost) -> Cost {
        Cost { ticks: sat_sub(self.ticks, rhs.ticks) }
    }
}

impl std::ops::AddAssign for Cost {
    fn add_assign(&mut self, other: Cost)
        ensures
            final(self).ticks == sat_add(old(self).ticks, other.ticks),
    {
        self.ticks = self.ticks.saturating_add(other.ticks);
    }
}

impl std::ops::SubAssign for Cost {
    fn sub_assign(&mut self, other: Cost)
        ensures
            final(self).ticks == sat_sub(old(self).ticks, other.ticks),
    {
        self.ticks = self.ticks.saturating_sub(other.ticks);
    }
}

/// Subtracting a cost undoes adding it, unless the sum was capped; adding
/// never lowers a cost and subtracting never raises it.
pub proof fn sub_undoes_add(a: Cost, b: Cost)
    ensures
        a.ticks + b.ticks <= u64::MAX ==> sat_sub(sat_add(a.ticks, b.ticks), b.ticks) == a.ticks,
        sat_add(a.ticks, b.ticks) >= a.ticks,
        sat_sub(a.ticks, b.ticks) <= a.ticks,
{
}

/// `n`, capped at the largest `u64`.
pub open spec fn satn(n: int) -> u64 {
    if n > u64::MAX {
        u64::MAX
    } else {
        n as u64
    }
}

/// Capping twice is capping once.
pub proof fn lemma_satn_assoc(a: int, b: int)
    requires
        a >= 0,
        b >= 0,
    ensures
        satn(satn(a) + b) == satn(a + b),
        sat_add(satn(a), b as u64) == satn(a + b) || b > u64::MAX,
{
}

/// Costs of a profiled fn, per address
#[derive(Debug)]
pub struct Metrics {
    costs: Tally<u64>,
}

impl Metrics {
    /// The ticks recorded at `addr`.
    pub open spec fn cost(self, addr: u64) -> nat {
        self.spec_tally().count(addr)
    }

    /// Whether a cost was recorded at `addr`, be it zero.
    pub open spec fn has(self, addr: u64) -> bool {
        self.spec_tally().has(addr)
    }

    /// The tally of ticks per address.
    pub closed spec fn spec_tally(self) -> Tally<u64> {
        self.costs
    }

    /// The addresses with their ticks, in ascending order.
    pub open spec fn spec_costs(self) -> Seq<(u64, u64)> {
        self.spec_tally().spec_entries()
    }

    /// Addresses ascend strictly.
    pub open spec fn wf(self) -> bool {
        self.spec_tally().wf()
    }

    /// Create empty metrics
    pub fn new() -> (r: Metrics)
        ensures
            r.wf(),
            r.spec_costs() == Seq::<(u64, u64)>::empty(),
            forall|a: u64| r.cost(a) == 0,
            forall|a: u64| !r.has(a),
    {
        Metrics { costs: Tally::new() }
    }

    /// Add a cost at an address, up to the largest `u64`
    pub fn add(&mut self, addr: u64, cost: Cost)
        requires
            old(self).wf(),
        ensures
            final(self).wf(),
            final(self).cost(addr) == satn(old(self).cost(addr) + cost.ticks),
            forall|a: u64| a != addr ==> final(self).cost(a) == old(self).cost(a),
            final(self).has(addr),
            forall|a: u64| a != addr ==> final(self).has(a) == old(self).has(a),
    {
        self.costs.add_amount(addr, cost.ticks);
    }

    /// Add all costs of `other`, address by address, up to the largest `u64`
    pub fn merge(&mut self, other: &Metrics)
        requires
            old(self).wf(),
            other.wf(),
        ensures
            final(self).wf(),
            forall|a: u64| #[trigger] final(self).cost(a) == satn((old(self).cost(a) + other.cost(a)) as int),
            forall|a: u64| #[trigger] final(self).has(a) == (old(self).has(a) || other.has(a)),
    {
        let entries = other.costs.entries();
        let ghost os = other.spec_costs();
        let mut i: usize = 0;
        assert(os.take(0) =~= Seq::<(u64, u64)>::empty());
        assert forall|a: u64| #[trigger] self.cost(a) == satn((old(self).cost(a) + count_in(os.take(0), a)) as int) by {
            self.spec_tally().lemma_count_bounded(a);
        }
        while i < entries.len()
            invariant
                i <= os.len(),
                entries@ == os,
                self.wf(),
                forall|a: u64| #[trigger] self.cost(a) == satn((old(self).cost(a) + count_in(os.take(i as int), a)) as int),
                forall|a: u64| #[trigger] self.has(a) == (old(self).has(a) || exists|j: int| 0 <= j < i && (#[trigger] os[j]).0 == a),
            decreases entries.len() - i,
        {
            let (addr, ticks) = entries[i];
            let ghost before = *self;
            self.add(addr, Cost { ticks });
            proof {
                let t = os.take(i + 1);
                assert(t =~= os.take(i as int) + seq![os[i as int]]);
                assert forall|a: u64| #[trigger] self.cost(a) == satn((old(self).cost(a) + count_in(t, a)) as int) by {
                    lemma_count_concat(os.take(i as int), seq![os[i as int]], a);
                    lemma_count_single(os[i as int], a);
                    lemma_satn_assoc((old(self).cost(a) + count_in(os.take(i as int), a)) as int, if a == addr { ticks as int } else { 0 });
                    if a != addr {
                        assert(self.cost(a) == before.cost(a));
                    }
                }
                assert forall|a: u64| #[trigger] self.has(a) == (old(self).has(a) || exists|j: int| 0 <= j < i + 1 && (#[trigger] os[j]).0 == a) by {
                    if a == addr {
                        assert(os[i as int].0 == a);
                    } else {
                        if exists|j: int| 0 <= j < i + 1 && (#[trigger] os[j]).0 == a {
                            let j = choose|j: int| 0 <= j < i + 1 && (#[trigger] os[j]).0 == a;
                            assert(j < i);
                        }
                    }
                }
            }
            i = i + 1;
        }
        assert(os.take(os.len() as int) =~= os);
        assert forall|a: u64| #[trigger] self.has(a) == (old(self).has(a) || other.has(a)) by {
            if other.has(a) {
                let j = choose|j: int| 0 <= j < other.spec_tally().spec_entries().len() && (#[trigger] other.spec_tally().spec_entries()[j]).0 == a;
                assert(os[j].0 == a);
            }
        }
    }

    /// The addresses with their costs, in ascending order
    pub fn as_map(&self) -> (r: &[(u64, u64)])
        ensures
            r@ == self.spec_costs(),
    {
        self.costs.entries()
    }

    /// The sum of all costs, up to the largest `u64`
    pub fn total(&self) -> (r: Cost)
        ensures
            r.ticks == satn(total_of(self.spec_costs()) as int),
    {
        let entries = self.costs.entries();
        let mut acc = Cost::zero();
        let mut i: usize = 0;
        while i < entries.len()
            invariant
                i <= entries@.len(),
                acc.ticks == satn(total_of(entries@.take(i as int)) as int),
            decreases entries.len() - i,
        {
            let ghost before = acc.ticks;
            acc = acc + Cost { ticks: entries[i].1 };
            proof {
                let t = entries@.take(i + 1);
                assert(t.drop_last() =~= entries@.take(i as int));
                lemma_satn_assoc(total_of(entries@.take(i as int)) as int, entries@[i as int].1 as int);
            }
            i = i + 1;
        }
        assert(entries@.take(entries@.len() as int) =~= entries@);
        acc
    }
}

/// The sum of the costs in `s`.
pub open spec fn total_of(s: Seq<(u64, u64)>) -> nat
    decreases s.len(),
{
    if s.len() == 0 {
        0
    } else {
        (total_of(s.drop_last()) + s.last().1) as nat
    }
}

/// `m2` is `m` with `cost` added at `addr`.
pub open spec fn cost_added(m: Metrics, m2: Metrics, addr: u64, cost: Cost) -> bool {
    &&& m2.wf()
    &&& m2.cost(addr) == satn(m.cost(addr) + cost.ticks)
    &&& forall|a: u64| a != addr ==> #[trigger] m2.cost(a) == m.cost(a)
}

/// A profile: the costs recorded for each call stack
#[derive(Debug)]
pub struct Profile {
    frames: Vec<Arc<Frame>>,
    metrics: Vec<Metrics>,
}

impl Profile {
    /// The call stacks recorded, in the order of their first record.
    pub closed spec fn spec_frames(self) -> Seq<Frame> {
        self.frames@.map_values(|f: Arc<Frame>| *f)
    }

    /// The metrics of each call stack.
    pub closed spec fn spec_metrics(self) -> Seq<Metrics> {
        self.metrics@
    }

    /// Each call stack occurs once and has well-formed metrics.
    pub open spec fn wf(self) -> bool {
        &&& self.spec_frames().len() == self.spec_metrics().len()
        &&& forall|i: int, j: int|
            0 <= i < j < self.spec_frames().len() ==> #[trigger] self.spec_frames()[i]
                != #[trigger] self.spec_frames()[j]
        &&& forall|i: int| 0 <= i < self.spec_metrics().len() ==> (#[trigger] self.spec_metrics()[i]).wf()
    }

    /// Create an empty profile
    pub fn new() -> (r: Profile)
        ensures
            r.wf(),
            r.spec_frames() == Seq::<Frame>::empty(),
    {
        let r = Profile { frames: Vec::new(), metrics: Vec::new() };
        assert(r.spec_frames() =~= Seq::<Frame>::empty());
        r
    }

    /// Number of call stacks recorded
    pub fn len(&self) -> (r: usize)
        requires
            self.wf(),
        ensures
            r == self.spec_frames().len(),
    {
        self.frames.len()
    }

    /// The call stack at position `i`
    pub fn frame(&self, i: usize) -> (r: &Arc<Frame>)
        requires
            self.wf(),
            i < self.spec_frames().len(),
        ensures
            **r == self.spec_frames()[i as int],
    {
        &self.frames[i]
    }

    /// The metrics of the call stack at position `i`
    pub fn metrics(&self, i: usize) -> (r: &Metrics)
        requires
            self.wf(),
            i < self.spec_frames().len(),
        ensures
            *r == self.spec_metrics()[i as int],
    {
        &self.metrics[i]
    }

    /// The position of `stack` among the call stacks, if recorded.
    pub fn find(&self, stack: &Frame) -> (r: Option<usize>)
        requires
            self.wf(),
        ensures
            r matches Some(i) ==> i < self.spec_frames().len() && self.spec_frames()[i as int] == *stack,
            r is None ==> !self.spec_frames().contains(*stack),
    {
        let mut i: usize = 0;
        while i < self.frames.len()
            invariant
                i <= self.frames@.len(),
                forall|j: int| 0 <= j < i ==> self.spec_frames()[j] != *stack,
            decreases self.frames.len() - i,
        {
            if self.frames[i].same(stack) {
                return Some(i);
            }
            i = i + 1;
        }
        None
    }

    /// Record a cost at an address, executed with the given call stack
    pub fn add(&mut self, stack: &Arc<Frame>, addr: u64, cost: Cost)
        requires
            old(self).wf(),
        ensures
            final(self).wf(),
            old(self).spec_frames().contains(**stack) ==> {
                &&& final(self).spec_frames() == old(self).spec_frames()
                &&& forall|i: int|
                    0 <= i < old(self).spec_frames().len() ==> if old(self).spec_frames()[i] == **stack {
                        cost_added(old(self).spec_metrics()[i], #[trigger] final(self).spec_metrics()[i], addr, cost)
                    } else {
                        final(self).spec_metrics()[i] == old(self).spec_metrics()[i]
                    }
            },
            !old(self).spec_frames().contains(**stack) ==> {
                &&& final(self).spec_frames() == old(self).spec_frames().push(**stack)
                &&& final(self).spec_metrics().drop_last() == old(self).spec_metrics()
                &&& final(self).spec_metrics().last().cost(addr) == cost.ticks
                &&& forall|a: u64| a != addr ==> #[trigger] final(self).spec_metrics().last().cost(a) == 0
            },
    {
        match self.find(&**stack) {
            Some(i) => {
                let mut m = self.metrics.remove(i);
                m.add(addr, cost);
                self.metrics.insert(i, m);
                proof {
                    assert forall|k: int| 0 <= k < self.spec_metrics().len() implies (#[trigger] self.spec_metrics()[k]).wf() by {
                        if k != i {
                            assert(self.spec_metrics()[k] == old(self).spec_metrics()[k]);
                        }
                    }
                    assert forall|k: int|
                        0 <= k < old(self).spec_frames().len() implies if old(self).spec_frames()[k] == **stack {
                            cost_added(old(self).spec_metrics()[k], #[trigger] self.spec_metrics()[k], addr, cost)
                        } else {
                            self.spec_metrics()[k] == old(self).spec_metrics()[k]
                        } by {
                        if k != i && old(self).spec_frames()[k] == **stack {
                            assert(old(self).spec_frames()[i as int] == **stack);
                        }
                    }
                }
            },
            None => {
                let mut m = Metrics::new();
                m.add(addr, cost);
                self.frames.push(Arc::clone(stack));
                self.metrics.push(m);
                proof {
                    assert(self.spec_frames() =~= old(self).spec_frames().push(**stack));
                    assert(self.spec_metrics().drop_last() =~= old(self).spec_metrics());
                    assert forall|a: int, b: int|
                        0 <= a < b < self.spec_frames().len() implies #[trigger] self.spec_frames()[a]
                            != #[trigger] self.spec_frames()[b] by {
                        if b == old(self).spec_frames().len() {
                            assert(old(self).spec_frames()[a] == self.spec_frames()[a]);
                        }
                    }
                    assert forall|k: int| 0 <= k < self.spec_metrics().len() implies (#[trigger] self.spec_metrics()[k]).wf() by {
                        if k < old(self).spec_metrics().len() {
                            assert(self.spec_metrics()[k] == old(self).spec_metrics()[k]);
                        }
                    }
                }
            },
        }
    }
}


/// `q` is `p` with `cost` recorded at `addr` under the call stack `stack`, as
/// [`Profile::add`] does.
pub open spec fn cost_recorded(p: Profile, q: Profile, stack: Frame, addr: u64, cost: Cost) -> bool {
    &&& q.wf()
    &&& p.spec_frames().contains(stack) ==> {
        &&& q.spec_frames() == p.spec_frames()
        &&& forall|i: int|
            0 <= i < p.spec_frames().len() ==> if p.spec_frames()[i] == stack {
                cost_added(p.spec_metrics()[i], #[trigger] q.spec_metrics()[i], addr, cost)
            } else {
                q.spec_metrics()[i] == p.spec_metrics()[i]
            }
    }
    &&& !p.spec_frames().contains(stack) ==> {
        &&& q.spec_frames() == p.spec_frames().push(stack)
        &&& q.spec_metrics().drop_last() == p.spec_metrics()
        &&& q.spec_metrics().last().cost(addr) == cost.ticks
        &&& forall|a: u64| a != addr ==> #[trigger] q.spec_metrics().last().cost(a) == 0
    }
}

/// Profiling of a trace, reconstructing the call stack as it goes
#[derive(Debug)]
pub struct Profiler {
    state: Option<State>,
    profile: Profile,
}

impl Profiler {
    /// The call stack reconstruction, once an instruction was recorded.
    pub closed spec fn spec_state(self) -> Option<State> {
        self.state
    }

    /// The profile recorded so far.
    pub closed spec fn spec_profile(self) -> Profile {
        self.profile
    }

    /// The profile and the call stack reconstruction are well-formed.
    pub open spec fn wf(self) -> bool {
        &&& self.spec_profile().wf()
        &&& self.spec_state() matches Some(s) ==> s.wf()
    }

    /// Create a profiler that has recorded nothing
    pub fn new() -> (r: Profiler)
        ensures
            r.wf(),
            r.spec_state() is None,
            r.spec_profile().spec_frames() == Seq::<Frame>::empty(),
    {
        Profiler { state: None, profile: Profile::new() }
    }

    /// Record the retirement of the instruction at `pc`
    ///
    /// The first instruction recorded starts the call stack at its address.
    /// The call stack is driven with the instruction, and a single tick is
    /// recorded at `pc` under the call stack that results. An error of the
    /// stack reconstruction is returned after the tick is recorded.
    pub fn record(&mut self, pc: u64, insn: &Insn) -> (r: Result<(), Error>)
        requires
            old(self).wf(),
            insn_fits(pc, *insn),
        ensures
            final(self).wf(),
            final(self).spec_state() matches Some(s) && {
                &&& s.spec_last() == step_of(pc, *insn)
                &&& cost_recorded(
                    old(self).spec_profile(),
                    final(self).spec_profile(),
                    s.frame(),
                    pc,
                    Cost { ticks: 1 },
                )
                &&& match old(self).spec_state() {
                    Some(o) => {
                        &&& s.frame().calls() == next_calls(o.frame().calls(), o.spec_last(), pc)
                        &&& s.frame().base_entry() == o.frame().base_entry()
                        &&& r == step_outcome(o.frame().calls(), o.spec_last(), pc)
                    },
                    None => {
                        &&& s.frame().calls() == Seq::<Call>::empty()
                        &&& s.frame().base_entry() == pc
                        &&& r is Ok
                    },
                }
            },
    {
        let mut state = match self.state.take() {
            Some(s) => s,
            None => State::new(pc),
        };
        let r = state.process_item(pc, insn);
        self.profile.add(state.stack(), pc, Cost { ticks: 1 });
        self.state = Some(state);
        r
    }

    /// Retrieve the profile recorded so far
    pub fn profile(&self) -> (r: &Profile)
        ensures
            *r == self.spec_profile(),
    {
        &self.profile
    }

    /// Finish profiling, yielding the profile recorded
    pub fn into_profile(self) -> (r: Profile)
        ensures
            r == self.spec_profile(),
    {
        self.profile
    }
}

} // verus!
