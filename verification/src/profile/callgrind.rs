//! Callgrind format export utilities

use super::{lemma_satn_assoc, sat_sub, satn, Cost, Metrics, Profile};
use crate::stack::{Frame, Kind};
use crate::stat::{lemma_entries_unique, Keyed, Tally};
use crate::symbols::{fn_name, fn_name_text, names_of, symbol_names, Provider};
use crate::text::{ascii, dec, dec_represents, hex, hex_represents, push_all, push_ascii, push_dec, push_hex, represents};
use vstd::prelude::*;
use vstd::set_lib::{lemma_int_range, lemma_subset_equality, set_int_range};

verus! {

/// Depth of the call stack at position `i`.
pub open spec fn depth_of(frames: Seq<Frame>, i: int) -> nat {
    frames[i].calls().len()
}

/// The entry at position `c` was called from the one at position `p`.
pub open spec fn is_child(frames: Seq<Frame>, c: int, p: int) -> bool {
    frames[c].spec_caller() == Some(frames[p])
}

/// `order` lists each position below `n` at most once, by ascending depth.
pub open spec fn depth_order(frames: Seq<Frame>, order: Seq<usize>) -> bool {
    &&& order.no_duplicates()
    &&& forall|j: int| 0 <= j < order.len() ==> #[trigger] order[j] < frames.len()
    &&& forall|a: int, b: int|
        0 <= a < b < order.len() ==> depth_of(frames, #[trigger] order[a] as int) <= depth_of(
            frames,
            #[trigger] order[b] as int,
        )
}

/// Positions of equal depth keep their relative order in `order`.
pub open spec fn stable_order(frames: Seq<Frame>, order: Seq<usize>) -> bool {
    forall|a: int, b: int|
        0 <= a < b < order.len() && depth_of(frames, #[trigger] order[a] as int) == depth_of(
            frames,
            #[trigger] order[b] as int,
        ) ==> order[a] < order[b]
}

/// Order the positions of a profile by ascending depth of their call stacks
///
/// Positions of equal depth keep their relative order.
pub fn order_by_depth(profile: &Profile) -> (r: Vec<usize>)
    requires
        profile.wf(),
        forall|i: int| 0 <= i < profile.spec_frames().len() ==> #[trigger] profile.spec_frames()[i].calls().len() <= usize::MAX,
    ensures
        r@.len() == profile.spec_frames().len(),
        depth_order(profile.spec_frames(), r@),
        stable_order(profile.spec_frames(), r@),
{
    let ghost frames = profile.spec_frames();
    let n = profile.len();
    let mut depths: Vec<usize> = Vec::new();
    let mut i: usize = 0;
    while i < n
        invariant
            i <= n,
            n == frames.len(),
            frames == profile.spec_frames(),
            profile.wf(),
            forall|k: int| 0 <= k < frames.len() ==> #[trigger] frames[k].calls().len() <= usize::MAX,
            depths@.len() == i,
            forall|k: int| 0 <= k < i ==> #[trigger] depths@[k] == depth_of(frames, k),
        decreases n - i,
    {
        let d = profile.frame(i).depth();
        depths.push(d);
        i = i + 1;
    }
    let mut order: Vec<usize> = Vec::new();
    let mut i: usize = 0;
    while i < n
        invariant
            i <= n,
            n == frames.len(),
            depths@.len() == n,
            forall|k: int| 0 <= k < n ==> #[trigger] depths@[k] == depth_of(frames, k),
            order@.len() == i,
            order@.no_duplicates(),
            forall|j: int| 0 <= j < order@.len() ==> #[trigger] order@[j] < i,
            forall|a: int, b: int|
                0 <= a < b < order@.len() ==> depth_of(frames, #[trigger] order@[a] as int) <= depth_of(
                    frames,
                    #[trigger] order@[b] as int,
                ),
            stable_order(frames, order@),
        decreases n - i,
    {
        let d = depths[i];
        let mut pos: usize = order.len();
        while pos > 0 && depths[order[pos - 1]] > d
            invariant
                pos <= order@.len(),
                depths@.len() == n,
                forall|j: int| 0 <= j < order@.len() ==> #[trigger] order@[j] < i,
                i < n,
                forall|j: int| pos <= j < order@.len() ==> depth_of(frames, #[trigger] order@[j] as int) > d,
                forall|k: int| 0 <= k < n ==> #[trigger] depths@[k] == depth_of(frames, k),
                d == depth_of(frames, i as int),
            decreases pos,
        {
            pos = pos - 1;
        }
        let ghost old_order = order@;
        order.insert(pos, i);
        proof {
            let o = order@;
            assert(o == old_order.insert(pos as int, i));
            assert forall|j: int| 0 <= j < o.len() implies #[trigger] o[j] < i + 1 by {
                if j < pos {
                    assert(o[j] == old_order[j]);
                } else if j > pos {
                    assert(o[j] == old_order[j - 1]);
                }
            }
            assert forall|a: int, b: int| 0 <= a < o.len() && 0 <= b < o.len() && a != b implies o[a] != o[b] by {
                if a != pos && b != pos {
                    let a2 = if a < pos { a } else { a - 1 };
                    let b2 = if b < pos { b } else { b - 1 };
                    assert(o[a] == old_order[a2]);
                    assert(o[b] == old_order[b2]);
                } else if a == pos {
                    let b2 = if b < pos { b } else { b - 1 };
                    assert(o[b] == old_order[b2]);
                } else {
                    let a2 = if a < pos { a } else { a - 1 };
                    assert(o[a] == old_order[a2]);
                }
            }
            assert forall|a: int, b: int|
                0 <= a < b < o.len() implies depth_of(frames, #[trigger] o[a] as int) <= depth_of(
                    frames,
                    #[trigger] o[b] as int,
                ) by {
                if a < pos && b < pos {
                    assert(o[a] == old_order[a]);
                    assert(o[b] == old_order[b]);
                } else if a < pos && b == pos {
                    assert(o[a] == old_order[a]);
                    if pos > 0 {
                        assert(depth_of(frames, old_order[pos - 1] as int) <= d);
                        assert(depth_of(frames, old_order[a] as int) <= depth_of(frames, old_order[pos - 1] as int));
                    }
                } else if a < pos {
                    assert(o[a] == old_order[a]);
                    assert(o[b] == old_order[b - 1]);
                } else if a == pos {
                    assert(o[b] == old_order[b - 1]);
                } else {
                    assert(o[a] == old_order[a - 1]);
                    assert(o[b] == old_order[b - 1]);
                }
            }
            assert forall|a: int, b: int|
                0 <= a < b < o.len() && depth_of(frames, #[trigger] o[a] as int) == depth_of(
                    frames,
                    #[trigger] o[b] as int,
                ) implies o[a] < o[b] by {
                if a < pos && b < pos {
                    assert(o[a] == old_order[a]);
                    assert(o[b] == old_order[b]);
                } else if a < pos && b == pos {
                    assert(o[a] == old_order[a]);
                } else if a < pos {
                    assert(o[a] == old_order[a]);
                    assert(o[b] == old_order[b - 1]);
                } else if a == pos {
                    assert(o[b] == old_order[b - 1]);
                    assert(depth_of(frames, old_order[b - 1] as int) > d);
                } else {
                    assert(o[a] == old_order[a - 1]);
                    assert(o[b] == old_order[b - 1]);
                }
            }
        }
        i = i + 1;
    }
    order
}

/// The caller's call stack of the entry at position `i` is recorded at
/// position `p`; `None` if it has no caller or the caller is not recorded.
pub open spec fn parent_ok(frames: Seq<Frame>, i: int, p: Option<usize>) -> bool {
    match p {
        Some(q) => q < frames.len() && is_child(frames, i, q as int),
        None => forall|q: int| 0 <= q < frames.len() ==> !is_child(frames, i, q),
    }
}

/// Find, for each position, the position of the caller's call stack
pub fn parents(profile: &Profile) -> (r: Vec<Option<usize>>)
    requires
        profile.wf(),
    ensures
        r@.len() == profile.spec_frames().len(),
        forall|i: int| 0 <= i < r@.len() ==> parent_ok(profile.spec_frames(), i, #[trigger] r@[i]),
{
    let ghost frames = profile.spec_frames();
    let n = profile.len();
    let mut r: Vec<Option<usize>> = Vec::new();
    let mut i: usize = 0;
    while i < n
        invariant
            i <= n,
            n == frames.len(),
            frames == profile.spec_frames(),
            profile.wf(),
            r@.len() == i,
            forall|k: int| 0 <= k < i ==> parent_ok(frames, k, #[trigger] r@[k]),
        decreases n - i,
    {
        let p = match profile.frame(i).caller() {
            Some(c) => profile.find(&**c),
            None => None,
        };
        proof {
            if p is None {
                assert forall|q: int| 0 <= q < frames.len() implies !is_child(frames, i as int, q) by {
                    if frames[i as int].spec_caller() is Some {
                        assert(!frames.contains(frames[i as int].spec_caller().unwrap()));
                        if is_child(frames, i as int, q) {
                            assert(frames[q] == frames[i as int].spec_caller().unwrap());
                        }
                    }
                }
            }
        }
        r.push(p);
        i = i + 1;
    }
    r
}

/// Sum of the costs in `acc` of the entries at the positions `order[lo..]`
/// that were called from the entry at position `p`.
pub open spec fn child_sum(frames: Seq<Frame>, order: Seq<usize>, acc: Seq<u64>, p: int, lo: int) -> nat
    decreases order.len() - lo,
{
    if lo >= order.len() || lo < 0 {
        0
    } else {
        (if is_child(frames, order[lo] as int, p) {
            acc[order[lo] as int] as nat
        } else {
            0
        }) + child_sum(frames, order, acc, p, lo + 1)
    }
}

/// The own cost of the entry at position `x` plus the costs in `acc` of the
/// entries it called at the positions `order[lo..]`, up to the largest `u64`.
pub open spec fn with_children(
    frames: Seq<Frame>,
    metrics: Seq<Metrics>,
    order: Seq<usize>,
    acc: Seq<u64>,
    x: int,
    lo: int,
) -> u64 {
    satn((super::total_of(metrics[x].spec_costs()) + child_sum(frames, order, acc, x, lo)) as int)
}

/// The sum only depends on the costs of the positions it covers.
proof fn lemma_child_sum_frame(frames: Seq<Frame>, order: Seq<usize>, acc: Seq<u64>, acc2: Seq<u64>, p: int, lo: int)
    requires
        0 <= lo,
        forall|j: int| lo <= j < order.len() ==> acc[#[trigger] order[j] as int] == acc2[order[j] as int],
    ensures
        child_sum(frames, order, acc, p, lo) == child_sum(frames, order, acc2, p, lo),
    decreases order.len() - lo,
{
    if lo < order.len() {
        lemma_child_sum_frame(frames, order, acc, acc2, p, lo + 1);
    }
}

/// A call stack is one deeper than its caller's.
proof fn lemma_child_depth(frames: Seq<Frame>, c: int, p: int)
    requires
        0 <= c < frames.len(),
        0 <= p < frames.len(),
        is_child(frames, c, p),
    ensures
        depth_of(frames, c) == depth_of(frames, p) + 1,
{
    frames[c].lemma_calls();
}

/// Compute the inclusive cost of each entry of a profile: its own cost plus
/// the inclusive costs of the entries it called, up to the largest `u64`
///
/// The own cost of an entry is the sum of its metrics.
pub fn inclusive_costs(profile: &Profile, order: &Vec<usize>) -> (r: Vec<u64>)
    requires
        profile.wf(),
        order@.len() == profile.spec_frames().len(),
        depth_order(profile.spec_frames(), order@),
    ensures
        r@.len() == profile.spec_frames().len(),
        forall|x: int|
            0 <= x < r@.len() ==> #[trigger] r@[x] == with_children(profile.spec_frames(), profile.spec_metrics(), order@, r@, x, 0),
{
    let ghost frames = profile.spec_frames();
    let n = profile.len();
    let par = parents(profile);
    let mut acc: Vec<u64> = Vec::new();
    let mut i: usize = 0;
    while i < n
        invariant
            i <= n,
            n == frames.len(),
            frames == profile.spec_frames(),
            profile.wf(),
            acc@.len() == i,
            forall|x: int| 0 <= x < i ==> #[trigger] acc@[x] == satn(super::total_of(profile.spec_metrics()[x].spec_costs()) as int),
        decreases n - i,
    {
        let c = profile.metrics(i).total();
        acc.push(c.ticks);
        i = i + 1;
    }
    let mut k: usize = n;
    while k > 0
        invariant
            k <= n,
            n == frames.len(),
            frames == profile.spec_frames(),
            profile.wf(),
            order@.len() == n,
            depth_order(frames, order@),
            par@.len() == n,
            forall|i: int| 0 <= i < n ==> parent_ok(frames, i, #[trigger] par@[i]),
            acc@.len() == n,
            forall|x: int|
                0 <= x < n ==> #[trigger] acc@[x] == with_children(frames, profile.spec_metrics(), order@, acc@, x, k as int),
        decreases k,
    {
        let idx = order[k - 1];
        let ghost old_acc = acc@;
        assert(parent_ok(frames, idx as int, par@[idx as int]));
        match par[idx] {
            Some(q) => {
                proof {
                    lemma_child_depth(frames, idx as int, q as int);
                }
                let v = acc[q].saturating_add(acc[idx]);
                acc.set(q, v);
                proof {
                    let a2 = acc@;
                    assert forall|j: int| k - 1 <= j < order@.len() implies a2[#[trigger] order@[j] as int] == old_acc[order@[j] as int] by {
                        if j > k - 1 {
                            assert(depth_of(frames, order@[k - 1] as int) <= depth_of(frames, order@[j] as int));
                        }
                    }
                    assert forall|x: int|
                        0 <= x < n implies #[trigger] a2[x] == with_children(frames, profile.spec_metrics(), order@, a2, x, k - 1) by {
                        lemma_child_sum_frame(frames, order@, old_acc, a2, x, k - 1);
                        lemma_child_sum_frame(frames, order@, old_acc, a2, x, k as int);
                        let own = super::total_of(profile.spec_metrics()[x].spec_costs());
                        if x == q {
                            lemma_satn_assoc((own + child_sum(frames, order@, old_acc, x, k as int)) as int, old_acc[idx as int] as int);
                        } else {
                            if is_child(frames, idx as int, x) {
                                assert(frames[x] == frames[q as int]);
                            }
                        }
                    }
                }
            },
            None => {
                proof {
                    assert forall|x: int|
                        0 <= x < n implies #[trigger] acc@[x] == with_children(frames, profile.spec_metrics(), order@, acc@, x, k - 1) by {
                        assert(!is_child(frames, idx as int, x));
                    }
                }
            },
        }
        k = k - 1;
    }
    acc
}

/// A call from one fn to another: the entry of the calling fn, the address
/// of the calling instruction and the entry of the called fn
#[derive(Copy, Clone, Debug, PartialEq, Eq, Structural)]
pub struct CallKey {
    pub caller: u64,
    pub origin: u64,
    pub callee: u64,
}

impl Keyed for CallKey {
    open spec fn spec_key(self) -> (u64, u64, u64) {
        (self.caller, self.origin, self.callee)
    }

    proof fn lemma_key_injective(a: Self, b: Self) {
    }

    fn key(&self) -> (r: (u64, u64, u64)) {
        (self.caller, self.origin, self.callee)
    }
}

/// The call that created the frame, keyed by the caller's entry, the calling
/// instruction and the frame's entry.
pub open spec fn call_key_of(f: Frame) -> Option<CallKey> {
    match (f.spec_call(), f.spec_caller()) {
        (Some(c), Some(p)) => Some(CallKey { caller: p.spec_entry(), origin: c.origin, callee: f.spec_entry() }),
        _ => None,
    }
}

/// Sum of the costs in `incl` of the first `m` entries made by the call `key`.
pub open spec fn call_sum(frames: Seq<Frame>, incl: Seq<u64>, key: CallKey, m: int) -> nat
    decreases m,
{
    if m <= 0 {
        0
    } else {
        call_sum(frames, incl, key, m - 1) + if call_key_of(frames[m - 1]) == Some(key) {
            incl[m - 1] as nat
        } else {
            0
        }
    }
}

/// Sum up the given costs of the entries of a profile by the call that
/// created them, up to the largest `u64`
pub fn call_costs(profile: &Profile, incl: &Vec<u64>) -> (r: Tally<CallKey>)
    requires
        profile.wf(),
        incl@.len() == profile.spec_frames().len(),
    ensures
        r.wf(),
        forall|key: CallKey| #[trigger] r.count(key) == satn(call_sum(profile.spec_frames(), incl@, key, incl@.len() as int) as int),
        forall|key: CallKey| #[trigger] r.has(key) == exists|i: int| 0 <= i < incl@.len() && call_key_of(#[trigger] profile.spec_frames()[i]) == Some(key),
{
    let ghost frames = profile.spec_frames();
    let n = profile.len();
    let mut r: Tally<CallKey> = Tally::new();
    let mut i: usize = 0;
    while i < n
        invariant
            i <= n,
            n == frames.len(),
            frames == profile.spec_frames(),
            profile.wf(),
            incl@.len() == n,
            r.wf(),
            forall|key: CallKey| #[trigger] r.count(key) == satn(call_sum(frames, incl@, key, i as int) as int),
            forall|key: CallKey| #[trigger] r.has(key) == exists|j: int| 0 <= j < i && call_key_of(#[trigger] frames[j]) == Some(key),
        decreases n - i,
    {
        let f = profile.frame(i);
        let ghost before = r;
        match f.kind() {
            Kind::FnCall { origin, ctx, .. } => {
                let key = CallKey { caller: ctx.entry(), origin: *origin, callee: f.entry() };
                assert(call_key_of(frames[i as int]) == Some(key));
                r.add_amount(key, incl[i]);
                proof {
                    assert forall|k2: CallKey| #[trigger] r.count(k2) == satn(call_sum(frames, incl@, k2, i + 1) as int) by {
                        before.lemma_count_bounded(k2);
                        if k2 == key {
                            lemma_satn_assoc(call_sum(frames, incl@, k2, i as int) as int, incl@[i as int] as int);
                        }
                    }
                    assert forall|k2: CallKey| #[trigger] r.has(k2) == exists|j: int| 0 <= j < i + 1 && call_key_of(#[trigger] frames[j]) == Some(k2) by {
                        if exists|j: int| 0 <= j < i + 1 && call_key_of(#[trigger] frames[j]) == Some(k2) {
                            let j = choose|j: int| 0 <= j < i + 1 && call_key_of(#[trigger] frames[j]) == Some(k2);
                            if j < i {
                            }
                        }
                    }
                }
            },
            Kind::Base => {
                proof {
                    assert(call_key_of(frames[i as int]) is None);
                    assert forall|k2: CallKey| #[trigger] r.has(k2) == exists|j: int| 0 <= j < i + 1 && call_key_of(#[trigger] frames[j]) == Some(k2) by {
                        if exists|j: int| 0 <= j < i + 1 && call_key_of(#[trigger] frames[j]) == Some(k2) {
                            let j = choose|j: int| 0 <= j < i + 1 && call_key_of(#[trigger] frames[j]) == Some(k2);
                            if j < i {
                            }
                        }
                    }
                }
            },
        }
        i = i + 1;
    }
    r
}

/// A line of cost for a fn in callgrind terms
#[derive(Copy, Clone, Debug, PartialEq, Eq, Structural)]
pub enum CostLine {
    /// Calls from the instruction at `origin` to the fn at `target`, with
    /// their inclusive cost
    Call { origin: u64, target: u64, ticks: u64 },
    /// The cost of the instruction at `addr` itself
    Own { addr: u64, ticks: u64 },
}

/// The calls made by the fn at `entry` from the instruction at `addr`.
pub open spec fn call_lines(calls: Seq<(CallKey, u64)>, entry: u64, addr: u64) -> Seq<CostLine>
    decreases calls.len(),
{
    if calls.len() == 0 {
        Seq::empty()
    } else {
        let c = calls.last();
        call_lines(calls.drop_last(), entry, addr) + if c.0.caller == entry && c.0.origin == addr {
            seq![CostLine::Call { origin: addr, target: c.0.callee, ticks: c.1 }]
        } else {
            Seq::empty()
        }
    }
}

/// The cost `v` at `addr` less the costs of the calls made from there, one
/// after the other, each floored at zero.
pub open spec fn remaining(v: u64, calls: Seq<(CallKey, u64)>, entry: u64, addr: u64) -> u64
    decreases calls.len(),
{
    if calls.len() == 0 {
        v
    } else {
        let c = calls.last();
        let r = remaining(v, calls.drop_last(), entry, addr);
        if c.0.caller == entry && c.0.origin == addr {
            sat_sub(r, c.1)
        } else {
            r
        }
    }
}

/// The lines for the address `addr` with cost `v` of the fn at `entry`: its
/// calls, then its own cost if any is left.
pub open spec fn addr_lines(addr: u64, v: u64, calls: Seq<(CallKey, u64)>, entry: u64) -> Seq<CostLine> {
    call_lines(calls, entry, addr) + if remaining(v, calls, entry, addr) != 0 {
        seq![CostLine::Own { addr, ticks: remaining(v, calls, entry, addr) }]
    } else {
        Seq::empty()
    }
}

/// The lines for all addresses of the fn at `entry`, in the order given.
pub open spec fn metric_lines(costs: Seq<(u64, u64)>, calls: Seq<(CallKey, u64)>, entry: u64) -> Seq<CostLine>
    decreases costs.len(),
{
    if costs.len() == 0 {
        Seq::empty()
    } else {
        metric_lines(costs.drop_last(), calls, entry) + addr_lines(costs.last().0, costs.last().1, calls, entry)
    }
}

/// Compute the lines for the address `addr` with cost `v` of the fn at `entry`
fn push_addr_lines(out: &mut Vec<CostLine>, addr: u64, v: u64, calls: &[(CallKey, u64)], entry: u64)
    ensures
        final(out)@ == old(out)@ + addr_lines(addr, v, calls@, entry),
{
    let ghost start = out@;
    let mut cost = Cost { ticks: v };
    let mut i: usize = 0;
    while i < calls.len()
        invariant
            i <= calls@.len(),
            out@ == start + call_lines(calls@.take(i as int), entry, addr),
            cost.ticks == remaining(v, calls@.take(i as int), entry, addr),
        decreases calls.len() - i,
    {
        let (key, ticks) = calls[i];
        proof {
            let t = calls@.take(i + 1);
            assert(t.drop_last() =~= calls@.take(i as int));
            assert(t.last() == calls@[i as int]);
        }
        if key.caller == entry && key.origin == addr {
            cost = cost - Cost { ticks };
            out.push(CostLine::Call { origin: addr, target: key.callee, ticks });
        }
        proof {
            let t = calls@.take(i + 1);
            assert(out@ =~= start + call_lines(t, entry, addr));
        }
        i = i + 1;
    }
    assert(calls@.take(calls@.len() as int) =~= calls@);
    if cost.ticks != 0 {
        out.push(CostLine::Own { addr, ticks: cost.ticks });
    }
    assert(out@ =~= start + addr_lines(addr, v, calls@, entry));
}

/// Compute the lines of the fn at `entry` with the given metrics: for each
/// address in ascending order, the calls made from there, then the cost left
pub fn lines_for(metrics: &Metrics, calls: &Tally<CallKey>, entry: u64) -> (r: Vec<CostLine>)
    requires
        calls.wf(),
    ensures
        r@ == metric_lines(metrics.spec_costs(), calls.spec_entries(), entry),
{
    let costs = metrics.as_map();
    let cs = calls.entries();
    let mut out: Vec<CostLine> = Vec::new();
    let mut i: usize = 0;
    while i < costs.len()
        invariant
            i <= costs@.len(),
            costs@ == metrics.spec_costs(),
            cs@ == calls.spec_entries(),
            out@ == metric_lines(costs@.take(i as int), cs@, entry),
        decreases costs.len() - i,
    {
        let (addr, v) = costs[i];
        push_addr_lines(&mut out, addr, v, cs, entry);
        proof {
            let t = costs@.take(i + 1);
            assert(t.drop_last() =~= costs@.take(i as int));
            assert(t.last() == costs@[i as int]);
        }
        i = i + 1;
    }
    assert(costs@.take(costs@.len() as int) =~= costs@);
    out
}

/// The callgrind text of a line of cost, `callee` naming the fn a call goes to.
pub open spec fn cost_line_text(line: CostLine, callee: Seq<u8>) -> Seq<u8> {
    match line {
        CostLine::Call { origin, target, ticks } => ascii("cfn="@) + callee + seq![10u8] + ascii(
            "calls="@,
        ) + dec(ticks as nat) + ascii(" 0x"@) + hex(target as nat) + seq![10u8] + ascii("0x"@)
            + hex(origin as nat) + ascii(" "@) + dec(ticks as nat) + seq![10u8],
        CostLine::Own { addr, ticks } => ascii("0x"@) + hex(addr as nat) + ascii(" "@) + dec(
            ticks as nat,
        ) + seq![10u8],
    }
}

/// A line of cost shows addresses as `0x` and a lower-case hexadecimal
/// number and tick counts as decimal numbers: a call names the callee, then
/// gives the calls' ticks and the callee's address, then the calling
/// instruction's address and the ticks again; an instruction's own cost gives
/// its address and ticks.
pub proof fn cost_line_numbers(line: CostLine, callee: Seq<u8>)
    ensures
        match line {
            CostLine::Call { origin, target, ticks } => exists|o: Seq<u8>, t: Seq<u8>, n: Seq<u8>|
                #![trigger represents(o, 16, origin as nat), represents(t, 16, target as nat), represents(n, 10, ticks as nat)]
                represents(o, 16, origin as nat) && represents(t, 16, target as nat) && represents(
                    n,
                    10,
                    ticks as nat,
                ) && cost_line_text(line, callee) == ascii("cfn="@) + callee + seq![10u8] + ascii(
                    "calls="@,
                ) + n + ascii(" 0x"@) + t + seq![10u8] + ascii("0x"@) + o + ascii(" "@) + n + seq![10u8],
            CostLine::Own { addr, ticks } => exists|a: Seq<u8>, n: Seq<u8>|
                #![trigger represents(a, 16, addr as nat), represents(n, 10, ticks as nat)]
                represents(a, 16, addr as nat) && represents(n, 10, ticks as nat) && cost_line_text(line, callee)
                    == ascii("0x"@) + a + ascii(" "@) + n + seq![10u8],
        },
{
    match line {
        CostLine::Call { origin, target, ticks } => {
            hex_represents(origin as nat);
            hex_represents(target as nat);
            dec_represents(ticks as nat);
            assert(represents(hex(origin as nat), 16, origin as nat) && represents(hex(target as nat), 16, target as nat)
                && represents(dec(ticks as nat), 10, ticks as nat));
        },
        CostLine::Own { addr, ticks } => {
            hex_represents(addr as nat);
            dec_represents(ticks as nat);
            assert(represents(hex(addr as nat), 16, addr as nat) && represents(dec(ticks as nat), 10, ticks as nat));
        },
    }
}

/// The callgrind text of the given lines of cost, each with the name of its callee.
pub open spec fn cost_lines_text(lines: Seq<CostLine>, callees: Seq<Seq<u8>>) -> Seq<u8>
    decreases lines.len(),
{
    if lines.len() == 0 {
        Seq::empty()
    } else {
        cost_lines_text(lines.drop_last(), callees) + cost_line_text(
            lines.last(),
            callees[lines.len() - 1],
        )
    }
}

/// The callgrind text of a fn: a blank line, its name, then its lines of cost.
pub open spec fn fn_text(name: Seq<u8>, lines: Seq<CostLine>, callees: Seq<Seq<u8>>) -> Seq<u8> {
    seq![10u8] + ascii("fn="@) + name + seq![10u8] + cost_lines_text(lines, callees)
}

/// Append the callgrind text of a line of cost
fn push_cost_line(out: &mut Vec<u8>, line: CostLine, callee: &[u8])
    ensures
        final(out)@ == old(out)@ + cost_line_text(line, callee@),
{
    let ghost start = out@;
    match line {
        CostLine::Call { origin, target, ticks } => {
            proof {
                reveal_strlit("cfn=");
                reveal_strlit("calls=");
                reveal_strlit(" 0x");
                reveal_strlit("0x");
                reveal_strlit(" ");
            }
            push_ascii(out, "cfn=");
            push_all(out, callee);
            out.push(10);
            push_ascii(out, "calls=");
            push_dec(out, ticks);
            push_ascii(out, " 0x");
            push_hex(out, target);
            out.push(10);
            push_ascii(out, "0x");
            push_hex(out, origin);
            push_ascii(out, " ");
            push_dec(out, ticks);
            out.push(10);
        },
        CostLine::Own { addr, ticks } => {
            proof {
                reveal_strlit("0x");
                reveal_strlit(" ");
            }
            push_ascii(out, "0x");
            push_hex(out, addr);
            push_ascii(out, " ");
            push_dec(out, ticks);
            out.push(10);
        },
    }
    assert(out@ =~= start + cost_line_text(line, callee@));
}

/// Append the callgrind text of the fn named `name` with the given lines of
/// cost
///
/// `callees` holds, for each line, the name of the fn that a call goes to; it
/// is not used for lines of the fn's own cost.
pub fn push_fn_text(out: &mut Vec<u8>, name: &[u8], lines: &Vec<CostLine>, callees: &Vec<Vec<u8>>)
    requires
        callees@.len() == lines@.len(),
    ensures
        final(out)@ == old(out)@ + fn_text(name@, lines@, callees@.map_values(|c: Vec<u8>| c@)),
{
    let ghost start = out@;
    let ghost names = callees@.map_values(|c: Vec<u8>| c@);
    proof {
        reveal_strlit("fn=");
    }
    out.push(10);
    push_ascii(out, "fn=");
    push_all(out, name);
    out.push(10);
    let ghost head = out@;
    assert(head =~= start + seq![10u8] + ascii("fn="@) + name@ + seq![10u8]);
    let mut i: usize = 0;
    while i < lines.len()
        invariant
            i <= lines@.len(),
            callees@.len() == lines@.len(),
            names == callees@.map_values(|c: Vec<u8>| c@),
            out@ == head + cost_lines_text(lines@.take(i as int), names),
        decreases lines.len() - i,
    {
        push_cost_line(out, lines[i], callees[i].as_slice());
        proof {
            let t = lines@.take(i + 1);
            assert(t.drop_last() =~= lines@.take(i as int));
            assert(t.last() == lines@[i as int]);
            assert(names[i as int] == callees@[i as int]@);
        }
        i = i + 1;
    }
    assert(lines@.take(lines@.len() as int) =~= lines@);
    assert(out@ =~= start + fn_text(name@, lines@, names));
}

/// The costs of a single fn, over all call stacks in which it was entered
#[derive(Debug)]
pub struct FnCosts {
    /// Entry address of the fn
    pub entry: u64,
    /// Costs per address, merged over all call stacks of the fn
    pub metrics: Metrics,
    /// The lines of cost in callgrind terms
    pub lines: Vec<CostLine>,
}

/// The fn entry of the call stack at position `j` of `order`.
pub open spec fn entry_at(frames: Seq<Frame>, order: Seq<usize>, j: int) -> u64 {
    frames[order[j] as int].spec_entry()
}

/// No earlier position of `order` holds a call stack of the same fn.
pub open spec fn is_first(frames: Seq<Frame>, order: Seq<usize>, k: int) -> bool {
    forall|j: int| 0 <= j < k ==> entry_at(frames, order, j) != entry_at(frames, order, k)
}

/// The positions of `order` below `m` that are the first of their fn.
pub open spec fn first_positions(frames: Seq<Frame>, order: Seq<usize>, m: int) -> Seq<int>
    decreases m,
{
    if m <= 0 {
        Seq::empty()
    } else {
        first_positions(frames, order, m - 1) + if is_first(frames, order, m - 1) {
            seq![m - 1]
        } else {
            Seq::empty()
        }
    }
}

/// Sum of the costs at `a` of the call stacks of the fn at `e`, over the
/// positions `order[lo..]`.
pub open spec fn entry_cost(
    frames: Seq<Frame>,
    metrics: Seq<Metrics>,
    order: Seq<usize>,
    e: u64,
    a: u64,
    lo: int,
) -> nat
    decreases order.len() - lo,
{
    if lo >= order.len() || lo < 0 {
        0
    } else {
        (if entry_at(frames, order, lo) == e {
            metrics[order[lo] as int].cost(a)
        } else {
            0
        }) + entry_cost(frames, metrics, order, e, a, lo + 1)
    }
}

/// Some call stack of the fn at `e`, at the positions `order[lo..]`, has a
/// cost recorded at `a`.
pub open spec fn entry_has(frames: Seq<Frame>, metrics: Seq<Metrics>, order: Seq<usize>, e: u64, a: u64, lo: int) -> bool {
    exists|j: int|
        lo <= j < order.len() && entry_at(frames, order, j) == e && (#[trigger] metrics[order[j] as int]).has(a)
}

/// Positions before the first of a fn add nothing to its cost.
proof fn lemma_entry_cost_prefix(frames: Seq<Frame>, metrics: Seq<Metrics>, order: Seq<usize>, e: u64, a: u64, lo: int, k: int)
    requires
        0 <= lo <= k <= order.len(),
        forall|j: int| lo <= j < k ==> entry_at(frames, order, j) != e,
    ensures
        entry_cost(frames, metrics, order, e, a, lo) == entry_cost(frames, metrics, order, e, a, k),
    decreases k - lo,
{
    if lo < k {
        lemma_entry_cost_prefix(frames, metrics, order, e, a, lo + 1, k);
    }
}

/// The costs of a fn: the merged metrics of all its call stacks and its lines.
pub open spec fn fn_costs_ok(
    f: FnCosts,
    frames: Seq<Frame>,
    metrics: Seq<Metrics>,
    order: Seq<usize>,
    calls: Seq<(CallKey, u64)>,
    k: int,
) -> bool {
    let e = entry_at(frames, order, k);
    &&& f.entry == e
    &&& f.metrics.wf()
    &&& forall|a: u64| #[trigger] f.metrics.cost(a) == satn(entry_cost(frames, metrics, order, e, a, 0) as int)
    &&& forall|a: u64| #[trigger] f.metrics.has(a) == entry_has(frames, metrics, order, e, a, 0)
    &&& f.lines@ == metric_lines(f.metrics.spec_costs(), calls, e)
}

/// Group the call stacks of a profile by fn, in the order of the first call
/// stack of each fn in `order`, and compute each fn's costs
pub fn group_fns(profile: &Profile, order: &Vec<usize>, calls: &Tally<CallKey>) -> (r: Vec<FnCosts>)
    requires
        profile.wf(),
        calls.wf(),
        order@.len() == profile.spec_frames().len(),
        forall|j: int| 0 <= j < order@.len() ==> #[trigger] order@[j] < profile.spec_frames().len(),
    ensures
        r@.len() == first_positions(profile.spec_frames(), order@, order@.len() as int).len(),
        forall|b: int|
            0 <= b < r@.len() ==> fn_costs_ok(
                #[trigger] r@[b],
                profile.spec_frames(),
                profile.spec_metrics(),
                order@,
                calls.spec_entries(),
                first_positions(profile.spec_frames(), order@, order@.len() as int)[b],
            ),
{
    let ghost frames = profile.spec_frames();
    let ghost metrics = profile.spec_metrics();
    let n = order.len();
    let mut out: Vec<FnCosts> = Vec::new();
    let mut k: usize = 0;
    while k < n
        invariant
            k <= n,
            n == order@.len(),
            n == frames.len(),
            frames == profile.spec_frames(),
            metrics == profile.spec_metrics(),
            profile.wf(),
            calls.wf(),
            forall|j: int| 0 <= j < order@.len() ==> #[trigger] order@[j] < frames.len(),
            out@.len() == first_positions(frames, order@, k as int).len(),
            forall|b: int|
                0 <= b < out@.len() ==> fn_costs_ok(
                    #[trigger] out@[b],
                    frames,
                    metrics,
                    order@,
                    calls.spec_entries(),
                    first_positions(frames, order@, k as int)[b],
                ),
        decreases n - k,
    {
        let e = profile.frame(order[k]).entry();
        let mut first = true;
        let mut j: usize = 0;
        while j < k
            invariant
                j <= k,
                k < n,
                n == order@.len(),
                n == frames.len(),
                frames == profile.spec_frames(),
                profile.wf(),
                forall|i: int| 0 <= i < order@.len() ==> #[trigger] order@[i] < frames.len(),
                e == entry_at(frames, order@, k as int),
                first == forall|i: int| 0 <= i < j ==> entry_at(frames, order@, i) != e,
            decreases k - j,
        {
            let ghost before_first = first;
            if profile.frame(order[j]).entry() == e {
                first = false;
            }
            proof {
                let ej = entry_at(frames, order@, j as int);
                if first {
                    assert forall|i: int| 0 <= i < j + 1 implies entry_at(frames, order@, i) != e by {
                        if i < j {
                            assert(before_first);
                        }
                    }
                } else {
                    if before_first {
                        assert(ej == e);
                    } else {
                        let w = choose|i: int| !(0 <= i < j ==> entry_at(frames, order@, i) != e);
                        assert(0 <= w < j + 1 && entry_at(frames, order@, w) == e);
                    }
                }
            }
            j = j + 1;
        }
        let ghost before = out@;
        if first {
            let mut merged = Metrics::new();
            let mut j: usize = k;
            while j < n
                invariant
                    k <= j <= n,
                    n == order@.len(),
                    n == frames.len(),
                    frames == profile.spec_frames(),
                    metrics == profile.spec_metrics(),
                    profile.wf(),
                    forall|i: int| 0 <= i < order@.len() ==> #[trigger] order@[i] < frames.len(),
                    e == entry_at(frames, order@, k as int),
                    merged.wf(),
                    forall|a: u64| #[trigger] entry_cost(frames, metrics, order@, e, a, k as int) >= entry_cost(frames, metrics, order@, e, a, j as int),
                    forall|a: u64| #[trigger] merged.cost(a) == satn(
                        (entry_cost(frames, metrics, order@, e, a, k as int) - entry_cost(frames, metrics, order@, e, a, j as int)) as int,
                    ),
                    forall|a: u64| #[trigger] merged.has(a) == exists|i: int|
                        k <= i < j && entry_at(frames, order@, i) == e && (#[trigger] metrics[order@[i] as int]).has(a),
                decreases n - j,
            {
                proof {
                    assert forall|a: u64| #[trigger] entry_cost(frames, metrics, order@, e, a, k as int) >= entry_cost(frames, metrics, order@, e, a, j + 1) by {
                        assert(entry_cost(frames, metrics, order@, e, a, k as int) >= entry_cost(frames, metrics, order@, e, a, j as int));
                    }
                }
                if profile.frame(order[j]).entry() == e {
                    let ghost mb = merged;
                    merged.merge(profile.metrics(order[j]));
                    proof {
                        assert forall|a: u64| #[trigger] merged.cost(a) == satn(
                            (entry_cost(frames, metrics, order@, e, a, k as int) - entry_cost(frames, metrics, order@, e, a, j + 1)) as int,
                        ) by {
                            assert(entry_cost(frames, metrics, order@, e, a, k as int) >= entry_cost(frames, metrics, order@, e, a, j as int));
                            lemma_satn_assoc(
                                (entry_cost(frames, metrics, order@, e, a, k as int) - entry_cost(frames, metrics, order@, e, a, j as int)) as int,
                                metrics[order@[j as int] as int].cost(a) as int,
                            );
                        }
                        assert forall|a: u64| #[trigger] merged.has(a) == exists|i: int|
                            k <= i < j + 1 && entry_at(frames, order@, i) == e && (#[trigger] metrics[order@[i] as int]).has(a) by {
                            if exists|i: int| k <= i < j + 1 && entry_at(frames, order@, i) == e && (#[trigger] metrics[order@[i] as int]).has(a) {
                                let i = choose|i: int| k <= i < j + 1 && entry_at(frames, order@, i) == e && (#[trigger] metrics[order@[i] as int]).has(a);
                                if i < j {
                                }
                            }
                        }
                    }
                } else {
                    proof {
                        assert forall|a: u64| #[trigger] merged.has(a) == exists|i: int|
                            k <= i < j + 1 && entry_at(frames, order@, i) == e && (#[trigger] metrics[order@[i] as int]).has(a) by {
                            if exists|i: int| k <= i < j + 1 && entry_at(frames, order@, i) == e && (#[trigger] metrics[order@[i] as int]).has(a) {
                                let i = choose|i: int| k <= i < j + 1 && entry_at(frames, order@, i) == e && (#[trigger] metrics[order@[i] as int]).has(a);
                                if i < j {
                                }
                            }
                        }
                    }
                }
                j = j + 1;
            }
            let lines = lines_for(&merged, calls, e);
            let f = FnCosts { entry: e, metrics: merged, lines };
            proof {
                assert forall|a: u64| #[trigger] f.metrics.cost(a) == satn(entry_cost(frames, metrics, order@, e, a, 0) as int) by {
                    lemma_entry_cost_prefix(frames, metrics, order@, e, a, 0, k as int);
                }
                assert forall|a: u64| #[trigger] f.metrics.has(a) == entry_has(frames, metrics, order@, e, a, 0) by {
                    if entry_has(frames, metrics, order@, e, a, 0) {
                        let i = choose|i: int|
                            0 <= i < order@.len() && entry_at(frames, order@, i) == e && (#[trigger] metrics[order@[i] as int]).has(a);
                        assert(i >= k);
                    }
                }
                assert(fn_costs_ok(f, frames, metrics, order@, calls.spec_entries(), k as int));
            }
            out.push(f);
        }
        proof {
            let fp = first_positions(frames, order@, k + 1);
            assert(is_first(frames, order@, k as int) == first);
            if first {
                assert(fp == first_positions(frames, order@, k as int).push(k as int));
            } else {
                assert(fp == first_positions(frames, order@, k as int));
            }
            assert forall|b: int| 0 <= b < out@.len() implies fn_costs_ok(
                #[trigger] out@[b],
                frames,
                metrics,
                order@,
                calls.spec_entries(),
                fp[b],
            ) by {
                if b < before.len() {
                    assert(out@[b] == before[b]);
                    assert(fp[b] == first_positions(frames, order@, k as int)[b]);
                }
            }
        }
        k = k + 1;
    }
    out
}

/// Everything the callgrind output of a profile is made of
#[derive(Debug)]
pub struct Callgraph {
    /// Positions of the profile's call stacks by ascending depth
    pub order: Vec<usize>,
    /// Inclusive cost of each call stack, by position in the profile
    pub inclusive: Vec<u64>,
    /// Inclusive costs summed up by call
    pub calls: Tally<CallKey>,
    /// Costs of each fn, lowest call stacks first
    pub fns: Vec<FnCosts>,
}

/// `cg` is the callgraph of `profile`: its call stacks ordered stably by
/// depth, their inclusive costs, the costs summed up by call, and the costs
/// of each fn.
pub open spec fn callgraph_of(profile: Profile, cg: Callgraph) -> bool {
    let frames = profile.spec_frames();
    &&& cg.order@.len() == frames.len()
    &&& depth_order(frames, cg.order@)
    &&& stable_order(frames, cg.order@)
    &&& cg.inclusive@.len() == frames.len()
    &&& forall|x: int|
        0 <= x < cg.inclusive@.len() ==> #[trigger] cg.inclusive@[x] == with_children(
            frames,
            profile.spec_metrics(),
            cg.order@,
            cg.inclusive@,
            x,
            0,
        )
    &&& cg.calls.wf()
    &&& forall|key: CallKey|
        #[trigger] cg.calls.count(key) == satn(
            call_sum(frames, cg.inclusive@, key, cg.inclusive@.len() as int) as int,
        )
    &&& forall|key: CallKey|
        #[trigger] cg.calls.has(key) == exists|i: int|
            0 <= i < cg.inclusive@.len() && call_key_of(#[trigger] frames[i]) == Some(key)
    &&& cg.fns@.len() == first_positions(frames, cg.order@, cg.order@.len() as int).len()
    &&& forall|b: int|
        0 <= b < cg.fns@.len() ==> fn_costs_ok(
            #[trigger] cg.fns@[b],
            frames,
            profile.spec_metrics(),
            cg.order@,
            cg.calls.spec_entries(),
            first_positions(frames, cg.order@, cg.order@.len() as int)[b],
        )
}

/// Analyse a profile for callgrind output
///
/// Call stacks are ordered by depth. Each one's inclusive cost is its own
/// cost plus the inclusive costs of the call stacks it called. Inclusive
/// costs are summed up by call. Finally, call stacks are grouped by fn, and
/// each fn gets its merged metrics and its lines of cost: for each address,
/// the calls made from there and the cost left.
pub fn callgraph(profile: &Profile) -> (r: Callgraph)
    requires
        profile.wf(),
        forall|i: int| 0 <= i < profile.spec_frames().len() ==> #[trigger] profile.spec_frames()[i].calls().len() <= usize::MAX,
    ensures
        callgraph_of(*profile, r),
{
    let order = order_by_depth(profile);
    let inclusive = inclusive_costs(profile, &order);
    let calls = call_costs(profile, &inclusive);
    let fns = group_fns(profile, &order, &calls);
    Callgraph { order, inclusive, calls, fns }
}


/// The names of the fns that the lines of cost call; empty for lines of
/// own cost.
pub open spec fn callee_names<P: Provider>(lines: Seq<CostLine>, symbols: P) -> Seq<Seq<u8>> {
    Seq::new(
        lines.len(),
        |i: int|
            match lines[i] {
                CostLine::Call { target, .. } => fn_name_text(names_of(symbols.symbols_at(target)), target),
                CostLine::Own { .. } => Seq::empty(),
            },
    )
}

/// The callgrind text of the given fns, in order, named after the symbols
/// that `symbols` provides.
pub open spec fn fns_text<P: Provider>(fns: Seq<FnCosts>, symbols: P) -> Seq<u8>
    decreases fns.len(),
{
    if fns.len() == 0 {
        Seq::empty()
    } else {
        let f = fns.last();
        fns_text(fns.drop_last(), symbols) + fn_text(
            fn_name_text(names_of(symbols.symbols_at(f.entry)), f.entry),
            f.lines@,
            callee_names(f.lines@, symbols),
        )
    }
}

/// Name the fns that the lines of cost call
fn callees_of<P: Provider>(lines: &Vec<CostLine>, symbols: &P) -> (r: Vec<Vec<u8>>)
    ensures
        r@.len() == lines@.len(),
        r@.map_values(|c: Vec<u8>| c@) == callee_names(lines@, *symbols),
{
    let ghost want = callee_names(lines@, *symbols);
    let mut r: Vec<Vec<u8>> = Vec::new();
    let mut i: usize = 0;
    while i < lines.len()
        invariant
            i <= lines@.len(),
            want == callee_names(lines@, *symbols),
            r@.len() == i,
            r@.map_values(|c: Vec<u8>| c@) == want.take(i as int),
        decreases lines.len() - i,
    {
        let ghost before = r@;
        let name = match lines[i] {
            CostLine::Call { target, .. } => fn_name(&symbol_names(&symbols.get_symbols(target)), target),
            CostLine::Own { .. } => Vec::new(),
        };
        assert(name@ == want[i as int]);
        r.push(name);
        assert(r@.map_values(|c: Vec<u8>| c@) =~= want.take(i + 1));
        i = i + 1;
    }
    assert(want.take(want.len() as int) =~= want);
    r
}

/// Render a callgraph in the callgrind format
///
/// Each fn comes with its lines of cost, in order. Fns are named after the
/// first symbol at their entry that has a name, or after their entry address.
/// A callgraph without fns renders as nothing.
pub fn render<P: Provider>(cg: &Callgraph, symbols: &P) -> (r: Vec<u8>)
    ensures
        r@ == fns_text(cg.fns@, *symbols),
{
    let mut out: Vec<u8> = Vec::new();
    let mut b: usize = 0;
    assert(cg.fns@.take(0) =~= Seq::<FnCosts>::empty());
    while b < cg.fns.len()
        invariant
            b <= cg.fns@.len(),
            out@ == fns_text(cg.fns@.take(b as int), *symbols),
        decreases cg.fns.len() - b,
    {
        let f = &cg.fns[b];
        let name = fn_name(&symbol_names(&symbols.get_symbols(f.entry)), f.entry);
        let callees = callees_of(&f.lines, symbols);
        push_fn_text(&mut out, name.as_slice(), &f.lines, &callees);
        proof {
            let t = cg.fns@.take(b + 1);
            assert(t.drop_last() =~= cg.fns@.take(b as int));
            assert(t.last() == cg.fns@[b as int]);
        }
        b = b + 1;
    }
    assert(cg.fns@.take(cg.fns@.len() as int) =~= cg.fns@);
    out
}


/// Writer for profiles in the callgrind format, naming fns after the
/// symbols of a [`Provider`]
///
/// The text written is handed out for writing to a file.
#[derive(Debug)]
pub struct Writer<P: Provider> {
    symbols: P,
}

impl<P: Provider> Writer<P> {
    /// The provider of symbols for naming fns.
    pub closed spec fn spec_symbols(self) -> P {
        self.symbols
    }

    /// Create a new writer
    pub fn new(symbols: P) -> (r: Writer<P>)
        ensures
            r.spec_symbols() == symbols,
    {
        Writer { symbols }
    }

    /// Write a [`Profile`]: its callgraph, rendered in the callgrind format
    ///
    /// A profile has one callgraph, see [`callgraph_determined`].
    pub fn write_profile(&self, profile: &Profile) -> (r: Vec<u8>)
        requires
            profile.wf(),
            forall|i: int|
                0 <= i < profile.spec_frames().len() ==> #[trigger] profile.spec_frames()[i].calls().len()
                    <= usize::MAX,
        ensures
            exists|cg: Callgraph| callgraph_of(*profile, cg),
            forall|cg: Callgraph|
                callgraph_of(*profile, cg) ==> r@ == fns_text(cg.fns@, self.spec_symbols()),
    {
        let cg = callgraph(profile);
        let r = render(&cg, &self.symbols);
        proof {
            assert forall|cg2: Callgraph| callgraph_of(*profile, cg2) implies r@ == fns_text(
                cg2.fns@,
                self.spec_symbols(),
            ) by {
                callgraph_determined(*profile, cg, cg2, self.symbols);
            }
        }
        r
    }
}


/// Position `x` comes before position `y` when ordering stably by depth.
pub open spec fn before(frames: Seq<Frame>, x: int, y: int) -> bool {
    depth_of(frames, x) < depth_of(frames, y) || (depth_of(frames, x) == depth_of(frames, y) && x < y)
}

/// The positions in `s` come one strictly before the other.
pub open spec fn increasing(frames: Seq<Frame>, s: Seq<usize>) -> bool {
    forall|a: int, b: int| 0 <= a < b < s.len() ==> before(frames, #[trigger] s[a] as int, #[trigger] s[b] as int)
}

/// A sequence of `n` distinct positions below `n` holds each of them.
proof fn lemma_covers(o: Seq<usize>, n: nat)
    requires
        o.len() == n,
        o.no_duplicates(),
        forall|j: int| 0 <= j < o.len() ==> #[trigger] o[j] < n,
    ensures
        forall|x: usize| x < n ==> o.contains(x),
{
    let si = o.map_values(|v: usize| v as int);
    assert forall|a: int, b: int| 0 <= a < si.len() && 0 <= b < si.len() && a != b implies si[a] != si[b] by {
        assert(o[a] != o[b]);
    }
    assert(si.no_duplicates());
    si.unique_seq_to_set();
    lemma_int_range(0, n as int);
    assert(si.to_set().subset_of(set_int_range(0, n as int))) by {
        assert forall|v: int| si.to_set().contains(v) implies set_int_range(0, n as int).contains(v) by {
            let j = choose|j: int| 0 <= j < si.len() && si[j] == v;
            assert(o[j] < n);
        }
    }
    vstd::seq_lib::seq_to_set_is_finite(si);
    lemma_subset_equality(si.to_set(), set_int_range(0, n as int));
    assert forall|x: usize| x < n implies o.contains(x) by {
        assert(set_int_range(0, n as int).contains(x as int));
        assert(si.to_set().contains(x as int));
        let j = choose|j: int| 0 <= j < si.len() && si[j] == x as int;
        assert(o[j] == x);
    }
}

/// Sequences whose positions come strictly one before the other are
/// determined by the positions they hold.
proof fn lemma_increasing_unique(frames: Seq<Frame>, s: Seq<usize>, t: Seq<usize>)
    requires
        increasing(frames, s),
        increasing(frames, t),
        forall|x: usize| s.contains(x) == t.contains(x),
    ensures
        s == t,
    decreases s.len() + t.len(),
{
    if s.len() == 0 && t.len() == 0 {
        assert(s =~= t);
    } else if s.len() == 0 {
        assert(t.contains(t[0]));
    } else if t.len() == 0 {
        assert(s.contains(s[0]));
    } else {
        let n = s.len() - 1;
        let m = t.len() - 1;
        let a = s[n];
        let b = t[m];
        assert(s.contains(a));
        assert(t.contains(b));
        let j = choose|j: int| 0 <= j < t.len() && t[j] == a;
        let i = choose|i: int| 0 <= i < s.len() && s[i] == b;
        if j < m {
            assert(before(frames, t[j] as int, t[m] as int));
        }
        if i < n {
            assert(before(frames, s[i] as int, s[n] as int));
        }
        assert(a == b);
        let s0 = s.drop_last();
        let t0 = t.drop_last();
        assert forall|x: usize| s0.contains(x) == t0.contains(x) by {
            if s0.contains(x) {
                let q = choose|q: int| 0 <= q < s0.len() && s0[q] == x;
                assert(before(frames, s[q] as int, s[n] as int));
                assert(s.contains(x)) by {
                    assert(s[q] == x);
                }
                let r = choose|r: int| 0 <= r < t.len() && t[r] == x;
                if r == m {
                    assert(x == a);
                } else {
                    assert(t0[r] == x);
                }
            }
            if t0.contains(x) {
                let q = choose|q: int| 0 <= q < t0.len() && t0[q] == x;
                assert(before(frames, t[q] as int, t[m] as int));
                assert(t.contains(x)) by {
                    assert(t[q] == x);
                }
                let r = choose|r: int| 0 <= r < s.len() && s[r] == x;
                if r == n {
                    assert(x == a);
                } else {
                    assert(s0[r] == x);
                }
            }
        }
        assert forall|x: int, y: int| 0 <= x < y < s0.len() implies before(
            frames,
            #[trigger] s0[x] as int,
            #[trigger] s0[y] as int,
        ) by {
            assert(before(frames, s[x] as int, s[y] as int));
        }
        assert forall|x: int, y: int| 0 <= x < y < t0.len() implies before(
            frames,
            #[trigger] t0[x] as int,
            #[trigger] t0[y] as int,
        ) by {
            assert(before(frames, t[x] as int, t[y] as int));
        }
        lemma_increasing_unique(frames, s0, t0);
        assert(s =~= s0.push(a));
        assert(t =~= t0.push(b));
    }
}

/// The order of the positions of `frames` stably by depth is unique.
proof fn lemma_order_unique(frames: Seq<Frame>, o1: Seq<usize>, o2: Seq<usize>)
    requires
        o1.len() == frames.len(),
        o2.len() == frames.len(),
        depth_order(frames, o1),
        depth_order(frames, o2),
        stable_order(frames, o1),
        stable_order(frames, o2),
    ensures
        o1 == o2,
{
    lemma_covers(o1, frames.len());
    lemma_covers(o2, frames.len());
    assert forall|a: int, b: int| 0 <= a < b < o1.len() implies before(
        frames,
        #[trigger] o1[a] as int,
        #[trigger] o1[b] as int,
    ) by {
        assert(o1[a] != o1[b]);
    }
    assert forall|a: int, b: int| 0 <= a < b < o2.len() implies before(
        frames,
        #[trigger] o2[a] as int,
        #[trigger] o2[b] as int,
    ) by {
        assert(o2[a] != o2[b]);
    }
    assert forall|x: usize| o1.contains(x) == o2.contains(x) by {
        if o1.contains(x) {
            let j = choose|j: int| 0 <= j < o1.len() && o1[j] == x;
            assert(o1[j] < frames.len());
        }
        if o2.contains(x) {
            let j = choose|j: int| 0 <= j < o2.len() && o2[j] == x;
            assert(o2[j] < frames.len());
        }
    }
    lemma_increasing_unique(frames, o1, o2);
}


/// The sum only depends on the costs of the entries called from `p`.
proof fn lemma_child_sum_children(
    frames: Seq<Frame>,
    order: Seq<usize>,
    acc: Seq<u64>,
    acc2: Seq<u64>,
    p: int,
    lo: int,
)
    requires
        0 <= lo,
        forall|j: int|
            lo <= j < order.len() && is_child(frames, #[trigger] order[j] as int, p) ==> acc[order[j] as int]
                == acc2[order[j] as int],
    ensures
        child_sum(frames, order, acc, p, lo) == child_sum(frames, order, acc2, p, lo),
    decreases order.len() - lo,
{
    if lo < order.len() {
        lemma_child_sum_children(frames, order, acc, acc2, p, lo + 1);
    }
}

/// The largest depth among the first `n` positions.
pub open spec fn max_depth(frames: Seq<Frame>, n: int) -> nat
    decreases n,
{
    if n <= 0 {
        0
    } else {
        let m = max_depth(frames, n - 1);
        let d = depth_of(frames, n - 1);
        if d > m {
            d
        } else {
            m
        }
    }
}

/// No position is deeper than [`max_depth`].
proof fn lemma_max_depth(frames: Seq<Frame>, n: int, x: int)
    requires
        0 <= x < n,
    ensures
        depth_of(frames, x) <= max_depth(frames, n),
    decreases n,
{
    if x < n - 1 {
        lemma_max_depth(frames, n - 1, x);
    }
}

/// Costs that are each their own cost plus those of the entries called are
/// equal from depth `d` on.
proof fn lemma_inclusive_from(
    frames: Seq<Frame>,
    metrics: Seq<Metrics>,
    order: Seq<usize>,
    acc1: Seq<u64>,
    acc2: Seq<u64>,
    d: nat,
)
    requires
        acc1.len() == frames.len(),
        acc2.len() == frames.len(),
        forall|j: int| 0 <= j < order.len() ==> #[trigger] order[j] < frames.len(),
        forall|x: int| 0 <= x < acc1.len() ==> #[trigger] acc1[x] == with_children(frames, metrics, order, acc1, x, 0),
        forall|x: int| 0 <= x < acc2.len() ==> #[trigger] acc2[x] == with_children(frames, metrics, order, acc2, x, 0),
    ensures
        forall|x: int| 0 <= x < frames.len() && depth_of(frames, x) >= d ==> #[trigger] acc1[x] == acc2[x],
    decreases max_depth(frames, frames.len() as int) + 1 - d,
{
    if d <= max_depth(frames, frames.len() as int) {
        lemma_inclusive_from(frames, metrics, order, acc1, acc2, d + 1);
        assert forall|x: int| 0 <= x < frames.len() && depth_of(frames, x) >= d implies #[trigger] acc1[x]
            == acc2[x] by {
            if depth_of(frames, x) == d {
                assert forall|j: int|
                    0 <= j < order.len() && is_child(frames, #[trigger] order[j] as int, x) implies acc1[order[j] as int]
                        == acc2[order[j] as int] by {
                    lemma_child_depth(frames, order[j] as int, x);
                }
                lemma_child_sum_children(frames, order, acc1, acc2, x, 0);
                assert(acc1[x] == with_children(frames, metrics, order, acc1, x, 0));
                assert(acc2[x] == with_children(frames, metrics, order, acc2, x, 0));
            }
        }
    } else {
        assert forall|x: int| 0 <= x < frames.len() && depth_of(frames, x) >= d implies #[trigger] acc1[x]
            == acc2[x] by {
            lemma_max_depth(frames, frames.len() as int, x);
        }
    }
}

/// Costs that are each their own cost plus those of the entries called are
/// unique.
proof fn lemma_inclusive_unique(
    frames: Seq<Frame>,
    metrics: Seq<Metrics>,
    order: Seq<usize>,
    acc1: Seq<u64>,
    acc2: Seq<u64>,
)
    requires
        acc1.len() == frames.len(),
        acc2.len() == frames.len(),
        forall|j: int| 0 <= j < order.len() ==> #[trigger] order[j] < frames.len(),
        forall|x: int| 0 <= x < acc1.len() ==> #[trigger] acc1[x] == with_children(frames, metrics, order, acc1, x, 0),
        forall|x: int| 0 <= x < acc2.len() ==> #[trigger] acc2[x] == with_children(frames, metrics, order, acc2, x, 0),
    ensures
        acc1 == acc2,
{
    lemma_inclusive_from(frames, metrics, order, acc1, acc2, 0);
    assert(acc1 =~= acc2);
}


/// The callgrind text only depends on the entries and lines of the fns.
proof fn lemma_fns_text_same<P: Provider>(f1: Seq<FnCosts>, f2: Seq<FnCosts>, symbols: P)
    requires
        f1.len() == f2.len(),
        forall|b: int|
            0 <= b < f1.len() ==> (#[trigger] f1[b]).entry == f2[b].entry && f1[b].lines@ == f2[b].lines@,
    ensures
        fns_text(f1, symbols) == fns_text(f2, symbols),
    decreases f1.len(),
{
    if f1.len() > 0 {
        let n = f1.len() - 1;
        assert forall|b: int| 0 <= b < f1.drop_last().len() implies (#[trigger] f1.drop_last()[b]).entry
            == f2.drop_last()[b].entry && f1.drop_last()[b].lines@ == f2.drop_last()[b].lines@ by {
            assert(f1[b].entry == f2[b].entry);
        }
        lemma_fns_text_same(f1.drop_last(), f2.drop_last(), symbols);
        assert(f1[n].entry == f2[n].entry);
    }
}

/// The callgraph of a profile is determined by the profile: any two agree on
/// the order of the call stacks, their inclusive costs, the costs by call and
/// the costs of each fn, and so on their callgrind text.
pub proof fn callgraph_determined<P: Provider>(profile: Profile, cg1: Callgraph, cg2: Callgraph, symbols: P)
    requires
        callgraph_of(profile, cg1),
        callgraph_of(profile, cg2),
    ensures
        cg1.order@ == cg2.order@,
        cg1.inclusive@ == cg2.inclusive@,
        cg1.calls.spec_entries() == cg2.calls.spec_entries(),
        cg1.fns@.len() == cg2.fns@.len(),
        forall|b: int|
            0 <= b < cg1.fns@.len() ==> {
                &&& (#[trigger] cg1.fns@[b]).entry == cg2.fns@[b].entry
                &&& cg1.fns@[b].metrics.spec_costs() == cg2.fns@[b].metrics.spec_costs()
                &&& cg1.fns@[b].lines@ == cg2.fns@[b].lines@
            },
        fns_text(cg1.fns@, symbols) == fns_text(cg2.fns@, symbols),
{
    let frames = profile.spec_frames();
    let metrics = profile.spec_metrics();
    lemma_order_unique(frames, cg1.order@, cg2.order@);
    let order = cg1.order@;
    lemma_inclusive_unique(frames, metrics, order, cg1.inclusive@, cg2.inclusive@);
    let incl = cg1.inclusive@;
    assert forall|key: CallKey|
        crate::stat::has_entry(cg1.calls.spec_entries(), key) == crate::stat::has_entry(
            cg2.calls.spec_entries(),
            key,
        ) by {
        assert(cg1.calls.has(key) == cg2.calls.has(key));
    }
    assert forall|key: CallKey|
        crate::stat::count_in(cg1.calls.spec_entries(), key) == crate::stat::count_in(
            cg2.calls.spec_entries(),
            key,
        ) by {
        assert(cg1.calls.count(key) == cg2.calls.count(key));
    }
    lemma_entries_unique(cg1.calls.spec_entries(), cg2.calls.spec_entries());
    let firsts = first_positions(frames, order, order.len() as int);
    assert forall|b: int| 0 <= b < cg1.fns@.len() implies {
        &&& (#[trigger] cg1.fns@[b]).entry == cg2.fns@[b].entry
        &&& cg1.fns@[b].metrics.spec_costs() == cg2.fns@[b].metrics.spec_costs()
        &&& cg1.fns@[b].lines@ == cg2.fns@[b].lines@
    } by {
        let f1 = cg1.fns@[b];
        let f2 = cg2.fns@[b];
        assert(fn_costs_ok(f1, frames, metrics, order, cg1.calls.spec_entries(), firsts[b]));
        assert(fn_costs_ok(f2, frames, metrics, order, cg2.calls.spec_entries(), firsts[b]));
        assert forall|a: u64| crate::stat::has_entry(f1.metrics.spec_costs(), a) == crate::stat::has_entry(
            f2.metrics.spec_costs(),
            a,
        ) by {
            assert(f1.metrics.has(a) == f2.metrics.has(a));
        }
        assert forall|a: u64| crate::stat::count_in(f1.metrics.spec_costs(), a) == crate::stat::count_in(
            f2.metrics.spec_costs(),
            a,
        ) by {
            assert(f1.metrics.cost(a) == f2.metrics.cost(a));
        }
        lemma_entries_unique(f1.metrics.spec_costs(), f2.metrics.spec_costs());
    }
    lemma_fns_text_same(cg1.fns@, cg2.fns@, symbols);
}

} // verus!
