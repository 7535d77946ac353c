//! Stack handling and reconstruction

use crate::text::{ascii, dec, dec_represents, push_ascii, push_dec, represents};
use std::sync::Arc;
use vstd::prelude::*;

verus! {

/// Length of a single RISC-V instruction
#[derive(Copy, Clone, Debug, PartialEq, Eq, Structural, Hash)]
pub enum Size {
    Compressed,
    Normal,
    Wide,
    ExtraWide,
}

impl Size {
    /// Number of bytes an instruction of this size occupies.
    pub open spec fn spec_bytes(self) -> nat {
        match self {
            Size::Compressed => 2,
            Size::Normal => 4,
            Size::Wide => 6,
            Size::ExtraWide => 8,
        }
    }

    /// Number of bytes an instruction of this size occupies.
    pub fn bytes(self) -> (r: u64)
        ensures
            r == self.spec_bytes(),
    {
        match self {
            Size::Compressed => 2,
            Size::Normal => 4,
            Size::Wide => 6,
            Size::ExtraWide => 8,
        }
    }
}

/// What stack reconstruction needs to know of a retired instruction
#[derive(Copy, Clone, Debug, PartialEq, Eq, Structural)]
pub struct Insn {
    /// Size of the instruction
    pub size: Size,
    /// The instruction is a function call
    pub is_call: bool,
    /// The instruction is a return from a function
    pub is_return: bool,
}

/// A function call: the calling instruction and the address called
#[derive(Copy, Clone, Debug, PartialEq, Eq, Structural)]
pub struct Call {
    /// Address of the calling instruction
    pub origin: u64,
    /// Size of the calling instruction
    pub origin_size: Size,
    /// Address the call jumped to
    pub entry: u64,
}

/// The address right after the calling instruction of `c`.
pub open spec fn return_addr_of(c: Call) -> int {
    c.origin + c.origin_size.spec_bytes()
}

/// The return address of `c` fits in 64 bits.
pub open spec fn call_wf(c: Call) -> bool {
    return_addr_of(c) <= u64::MAX
}

/// A step in the stack reconstruction
#[derive(Copy, Clone, Debug, PartialEq, Eq, Structural)]
pub enum Step {
    Regular,
    Call { origin: u64, origin_size: Size },
    Return,
}

/// The step that the retirement of `insn` at `pc` stands for.
pub open spec fn step_of(pc: u64, insn: Insn) -> Step {
    if insn.is_call {
        Step::Call { origin: pc, origin_size: insn.size }
    } else if insn.is_return {
        Step::Return
    } else {
        Step::Regular
    }
}

/// Calls on the stack after an instruction at `pc` retired, given the calls
/// before and the step of the previous instruction.
pub open spec fn next_calls(calls: Seq<Call>, last: Step, pc: u64) -> Seq<Call> {
    match last {
        Step::Regular => calls,
        Step::Call { origin, origin_size } => calls.push(
            Call { origin, origin_size, entry: pc },
        ),
        Step::Return => if calls.len() == 0 {
            calls
        } else {
            calls.drop_last()
        },
    }
}

/// Whether an instruction retiring at `pc` is consistent with the calls
/// before and the step of the previous instruction.
pub open spec fn step_outcome(calls: Seq<Call>, last: Step, pc: u64) -> Result<(), Error> {
    match last {
        Step::Return => if calls.len() == 0 {
            Err(Error::NoFrame)
        } else if return_addr_of(calls.last()) != pc {
            Err(Error::OriginMismatch { have: pc, expected: return_addr_of(calls.last()) as u64 })
        } else {
            Ok(())
        },
        _ => Ok(()),
    }
}

/// The instruction may be retired by a state whose calls all have return
/// addresses within the address space.
pub open spec fn insn_fits(pc: u64, insn: Insn) -> bool {
    insn.is_call ==> pc + insn.size.spec_bytes() <= u64::MAX
}

/// The previous step leaves a call whose return address fits in 64 bits.
pub open spec fn step_wf(last: Step) -> bool {
    match last {
        Step::Call { origin, origin_size } => origin + origin_size.spec_bytes() <= u64::MAX,
        _ => true,
    }
}

impl Step {
    /// Create a step from this instruction retirement
    pub fn from_insn(pc: u64, insn: &Insn) -> (r: Step)
        ensures
            r == step_of(pc, *insn),
    {
        if insn.is_call {
            Step::Call { origin: pc, origin_size: insn.size }
        } else if insn.is_return {
            Step::Return
        } else {
            Step::Regular
        }
    }
}

/// Errors occuring during stack reconstruction
#[derive(Copy, Clone, Debug, PartialEq, Eq, Structural)]
pub enum Error {
    /// Encountered a fn return on an empty stack
    NoFrame,
    /// The address after a fn return does not match the call site
    OriginMismatch { have: u64, expected: u64 },
}

impl Error {
    /// The message describing this error.
    pub open spec fn spec_text(self) -> Seq<u8> {
        match self {
            Error::NoFrame => ascii("Function return with no call site to return to"@),
            Error::OriginMismatch { have, expected } => ascii("Mismtach of return address: have "@)
                + dec(have as nat) + ascii(", expected "@) + dec(expected as nat),
        }
    }

    /// Render the message describing this error
    pub fn text(&self) -> (r: Vec<u8>)
        ensures
            r@ == self.spec_text(),
    {
        let mut out: Vec<u8> = Vec::new();
        match *self {
            Error::NoFrame => {
                proof {
                    reveal_strlit("Function return with no call site to return to");
                }
                push_ascii(&mut out, "Function return with no call site to return to");
            },
            Error::OriginMismatch { have, expected } => {
                proof {
                    reveal_strlit("Mismtach of return address: have ");
                    reveal_strlit(", expected ");
                }
                push_ascii(&mut out, "Mismtach of return address: have ");
                push_dec(&mut out, have);
                push_ascii(&mut out, ", expected ");
                push_dec(&mut out, expected);
            },
        }
        assert(out@ =~= self.spec_text());
        out
    }
}

/// A single stack frame
#[derive(Debug)]
pub struct Frame {
    entry: u64,
    kind: Kind,
}

/// [`Frame`] kind
#[derive(Debug)]
pub enum Kind {
    /// Base/entry frame
    Base,
    /// Function call
    FnCall {
        /// Address of the calling instruction
        origin: u64,
        /// Size of the calling instruction
        origin_size: Size,
        /// Context of this call
        ctx: Arc<Frame>,
    },
}

impl Clone for Kind {
    fn clone(&self) -> (r: Self)
        ensures
            r == *self,
    {
        match self {
            Kind::Base => Kind::Base,
            Kind::FnCall { origin, origin_size, ctx } => Kind::FnCall {
                origin: *origin,
                origin_size: *origin_size,
                ctx: Arc::clone(ctx),
            },
        }
    }
}

impl Clone for Frame {
    fn clone(&self) -> (r: Self)
        ensures
            r == *self,
    {
        Frame { entry: self.entry, kind: self.kind.clone() }
    }
}

impl Frame {
    /// The fn's entry address.
    pub closed spec fn spec_entry(self) -> u64 {
        self.entry
    }

    /// The call that created this frame, if it is not a base frame.
    pub closed spec fn spec_call(self) -> Option<Call> {
        match self.kind {
            Kind::Base => None,
            Kind::FnCall { origin, origin_size, .. } => Some(
                Call { origin, origin_size, entry: self.entry },
            ),
        }
    }

    /// The frame of the caller, if this is not a base frame.
    pub closed spec fn spec_caller(self) -> Option<Frame> {
        match self.kind {
            Kind::Base => None,
            Kind::FnCall { ctx, .. } => Some(*ctx),
        }
    }

    /// The calls of this frame's call stack, the outermost first.
    pub closed spec fn calls(self) -> Seq<Call>
        decreases self,
    {
        match self.kind {
            Kind::Base => Seq::empty(),
            Kind::FnCall { origin, origin_size, ctx } => (*ctx).calls().push(
                Call { origin, origin_size, entry: self.entry },
            ),
        }
    }

    /// The entry address of the base frame of this frame's call stack.
    pub closed spec fn base_entry(self) -> u64
        decreases self,
    {
        match self.kind {
            Kind::Base => self.entry,
            Kind::FnCall { ctx, .. } => (*ctx).base_entry(),
        }
    }

    /// The frame `n` levels up this frame's call stack.
    pub closed spec fn ancestor(self, n: nat) -> Frame
        decreases n,
    {
        if n == 0 {
            self
        } else {
            match self.spec_caller() {
                Some(c) => c.ancestor((n - 1) as nat),
                None => self,
            }
        }
    }

    /// All calls of this frame's call stack have return addresses within the
    /// address space.
    pub open spec fn wf(self) -> bool {
        forall|i: int| 0 <= i < self.calls().len() ==> call_wf(#[trigger] self.calls()[i])
    }

    /// Facts tying the parts of a frame to its call stack.
    pub proof fn lemma_calls(self)
        ensures
            self.spec_call() is None <==> self.spec_caller() is None,
            self.spec_caller() is None ==> self.calls() == Seq::<Call>::empty()
                && self.base_entry() == self.spec_entry(),
            self.spec_caller() matches Some(c) ==> {
                &&& self.calls() == c.calls().push(self.spec_call().unwrap())
                &&& self.base_entry() == c.base_entry()
            },
            self.spec_call() matches Some(c) ==> c.entry == self.spec_entry(),
    {
    }

    /// One step further up the call stack is the caller of the frame reached.
    pub proof fn lemma_ancestor_step(self, n: nat)
        requires
            self.ancestor(n).spec_caller() is Some,
        ensures
            self.ancestor(n + 1) == self.ancestor(n).spec_caller().unwrap(),
        decreases n,
    {
        assert(self.ancestor(0) == self);
        if n > 0 {
            if self.spec_caller() is None {
                assert(self.ancestor(n) == self);
            }
            let c = self.spec_caller().unwrap();
            assert(self.ancestor(n) == c.ancestor((n - 1) as nat));
            assert(self.ancestor(n + 1) == c.ancestor(n));
            c.lemma_ancestor_step((n - 1) as nat);
        } else {
            assert(self.ancestor(1) == self.spec_caller().unwrap().ancestor(0));
        }
    }

    /// Create a new frame
    fn new(entry: u64, kind: Kind) -> (r: Frame)
        ensures
            r.entry == entry,
            r.kind == kind,
    {
        Frame { entry, kind }
    }

    /// Retrieve the address of the call
    pub fn origin(&self) -> (r: Option<u64>)
        ensures
            r == match self.spec_call() {
                Some(c) => Some(c.origin),
                None => None::<u64>,
            },
    {
        match &self.kind {
            Kind::FnCall { origin, .. } => Some(*origin),
            _ => None,
        }
    }

    /// Retrieve the address this call returns to
    pub fn return_addr(&self) -> (r: Option<u64>)
        requires
            self.wf(),
        ensures
            r == match self.spec_call() {
                Some(c) => Some(return_addr_of(c) as u64),
                None => None::<u64>,
            },
    {
        match &self.kind {
            Kind::FnCall { origin, origin_size, ctx } => {
                proof {
                    let n = self.calls().len() - 1;
                    assert(self.calls()[n] == self.spec_call().unwrap());
                }
                Some(*origin + origin_size.bytes())
            },
            _ => None,
        }
    }

    /// Retrieve the fn's entry address
    ///
    /// Returns the address the call jumped to.
    pub fn entry(&self) -> (r: u64)
        ensures
            r == self.spec_entry(),
    {
        self.entry
    }

    /// Retrieve the frame's kind
    pub fn kind(&self) -> (r: &Kind)
        ensures
            match *r {
                Kind::Base => self.spec_call() is None,
                Kind::FnCall { origin, origin_size, ctx } => {
                    &&& self.spec_call() == Some(Call { origin, origin_size, entry: self.spec_entry() })
                    &&& self.spec_caller() == Some(*ctx)
                },
            },
    {
        &self.kind
    }

    /// Retrieve this frame's caller
    pub fn caller(&self) -> (r: Option<&Arc<Frame>>)
        ensures
            r is Some <==> self.spec_caller() is Some,
            r matches Some(c) ==> **c == self.spec_caller().unwrap(),
    {
        match &self.kind {
            Kind::FnCall { ctx, .. } => Some(ctx),
            _ => None,
        }
    }

    /// Determine the depth of this frame's call stack
    ///
    /// The depth is the number of callers above this frame, i.e. the number of
    /// calls on its call stack.
    pub fn depth(&self) -> (r: usize)
        requires
            self.calls().len() <= usize::MAX,
        ensures
            r == self.calls().len(),
    {
        let mut count: usize = 0;
        let mut cur: &Frame = self;
        loop
            invariant
                count + cur.calls().len() == self.calls().len(),
                self.calls().len() <= usize::MAX,
            decreases cur.calls().len(),
        {
            proof {
                cur.lemma_calls();
            }
            match cur.caller() {
                Some(c) => {
                    cur = &**c;
                    count = count + 1;
                },
                None => {
                    return count;
                },
            }
        }
    }

    /// Collect this frame's call stack, starting with this frame and ending
    /// with the base frame
    pub fn iter(&self) -> (r: Vec<Frame>)
        ensures
            r.len() == self.calls().len() + 1,
            forall|i: int| 0 <= i < r.len() ==> #[trigger] r[i] == self.ancestor(i as nat),
    {
        let mut res: Vec<Frame> = Vec::new();
        let mut cur: Frame = self.clone();
        loop
            invariant
                res.len() + cur.calls().len() == self.calls().len(),
                cur == self.ancestor(res.len() as nat),
                forall|i: int| 0 <= i < res.len() ==> #[trigger] res[i] == self.ancestor(i as nat),
            decreases cur.calls().len(),
        {
            proof {
                cur.lemma_calls();
            }
            res.push(cur.clone());
            match cur.caller() {
                Some(c) => {
                    proof {
                        self.lemma_ancestor_step((res.len() - 1) as nat);
                    }
                    cur = (**c).clone();
                },
                None => {
                    return res;
                },
            }
        }
    }
}

impl Frame {
    /// Remove the topmost frame from this stack
    ///
    /// On success, `self` becomes the caller and the removed frame is returned.
    pub fn pop(self: &mut Arc<Self>) -> (r: Result<Arc<Frame>, Error>)
        ensures
            old(self).spec_caller() is None ==> r == Err::<Arc<Frame>, Error>(Error::NoFrame)
                && **final(self) == **old(self),
            old(self).spec_caller() matches Some(c) ==> r is Ok && *r->Ok_0 == **old(self)
                && **final(self) == c,
    {
        let mut caller = match self.caller() {
            Some(c) => Arc::clone(c),
            None => {
                return Err(Error::NoFrame);
            },
        };
        std::mem::swap(self, &mut caller);
        Ok(caller)
    }
}

impl Frame {
    /// Check whether two frames, and their call stacks, are the same
    pub fn same(&self, other: &Frame) -> (r: bool)
        ensures
            r == (*self == *other),
        decreases self,
    {
        if self.entry != other.entry {
            return false;
        }
        match (&self.kind, &other.kind) {
            (Kind::Base, Kind::Base) => true,
            (
                Kind::FnCall { origin: o1, origin_size: s1, ctx: c1 },
                Kind::FnCall { origin: o2, origin_size: s2, ctx: c2 },
            ) => {
                if *o1 != *o2 || *s1 != *s2 {
                    return false;
                }
                let r = (**c1).same(&**c2);
                proof {
                    if r {
                        assert(self.kind == other.kind);
                    }
                }
                r
            },
            _ => false,
        }
    }
}

/// Call stack with reconstruction state
#[derive(Debug)]
pub struct State {
    top: Arc<Frame>,
    last: Step,
}

impl State {
    /// The current (topmost) frame.
    pub closed spec fn frame(self) -> Frame {
        *self.top
    }

    /// The step of the last instruction processed.
    pub closed spec fn spec_last(self) -> Step {
        self.last
    }

    /// All return addresses, current and pending, fit in 64 bits.
    pub open spec fn wf(self) -> bool {
        self.frame().wf() && step_wf(self.spec_last())
    }

    /// Create a new reconstruction state
    pub fn new(entry: u64) -> (r: State)
        ensures
            r.wf(),
            r.frame().calls() == Seq::<Call>::empty(),
            r.frame().base_entry() == entry,
            r.frame().spec_entry() == entry,
            r.spec_last() == Step::Regular,
    {
        State { top: Arc::new(Frame::new(entry, Kind::Base)), last: Step::Regular }
    }

    /// Drive stack reconstruction with the given instruction retirement
    pub fn process_item(&mut self, pc: u64, insn: &Insn) -> (r: Result<(), Error>)
        requires
            old(self).wf(),
            insn_fits(pc, *insn),
        ensures
            final(self).wf(),
            final(self).frame().calls() == next_calls(
                old(self).frame().calls(),
                old(self).spec_last(),
                pc,
            ),
            final(self).frame().base_entry() == old(self).frame().base_entry(),
            final(self).spec_last() == step_of(pc, *insn),
            r == step_outcome(old(self).frame().calls(), old(self).spec_last(), pc),
            frame_stepped(old(self).frame(), old(self).spec_last(), pc, final(self).frame()),
    {
        let mut last = Step::from_insn(pc, insn);
        std::mem::swap(&mut self.last, &mut last);
        proof {
            self.frame().lemma_calls();
        }
        match last {
            Step::Regular => (),
            Step::Call { origin, origin_size } => {
                let frame = Frame::new(
                    pc,
                    Kind::FnCall { origin, origin_size, ctx: Arc::clone(&self.top) },
                );
                proof {
                    frame.lemma_calls();
                    assert(frame.calls() == self.top.calls().push(
                        Call { origin, origin_size, entry: pc },
                    ));
                    assert forall|i: int| 0 <= i < frame.calls().len() implies call_wf(
                        #[trigger] frame.calls()[i],
                    ) by {
                        if i < self.top.calls().len() {
                            assert(frame.calls()[i] == self.top.calls()[i]);
                        }
                    }
                }
                self.top = Arc::new(frame);
            },
            Step::Return => {
                let popped = self.top.pop()?;
                proof {
                    let old_top = *old(self).top;
                    let n = old_top.calls().len() - 1;
                    assert(old_top.calls()[n] == old_top.spec_call().unwrap());
                    assert(old_top.calls().drop_last() == self.top.calls());
                    assert forall|i: int| 0 <= i < self.top.calls().len() implies call_wf(
                        #[trigger] self.top.calls()[i],
                    ) by {
                        assert(self.top.calls()[i] == old_top.calls()[i]);
                    }
                }
                if let Some(expected) = popped.return_addr() {
                    if expected != pc {
                        return Err(Error::OriginMismatch { have: pc, expected });
                    }
                }
            },
        }
        Ok(())
    }

    /// Retrieve the current stack
    pub fn stack(&self) -> (r: &Arc<Frame>)
        ensures
            **r == self.frame(),
    {
        &self.top
    }

    /// Check whether the current state indicates a fn entry
    ///
    /// This fn will return true after a call but before the first instruction
    /// in the called fn is processed via [`process_item`][Self::process_item].
    pub fn at_fn_entry(&self) -> (r: bool)
        ensures
            r == self.spec_last() is Call,
    {
        matches!(self.last, Step::Call { .. })
    }
}

impl Default for State {
    fn default() -> (r: Self)
        ensures
            r.wf(),
            r.frame().calls() == Seq::<Call>::empty(),
            r.frame().base_entry() == 0,
            r.spec_last() == Step::Regular,
    {
        State::new(0)
    }
}

impl Clone for State {
    fn clone(&self) -> (r: Self)
        ensures
            r == *self,
    {
        State { top: Arc::clone(&self.top), last: self.last }
    }
}

/// Call stack with reconstruction state
#[derive(Debug)]
pub struct Stack {
    frames: Vec<Frame>,
    last: Step,
}

impl Stack {
    /// The calls on this stack, the outermost first.
    pub closed spec fn calls(self) -> Seq<Call> {
        self.frames@.map_values(|f: Frame| f.spec_call().unwrap())
    }

    /// The step of the last instruction processed.
    pub closed spec fn spec_last(self) -> Step {
        self.last
    }

    /// The frames on this stack, the outermost first.
    pub closed spec fn spec_frames(self) -> Seq<Frame> {
        self.frames@
    }

    /// Each frame's caller is a base frame at entry 0: a frame on this stack
    /// holds its own call, not the frames below it.
    pub open spec fn detached(self) -> bool {
        forall|i: int|
            0 <= i < self.spec_frames().len() ==> ((#[trigger] self.spec_frames()[i]).spec_caller() matches Some(
                c,
            ) && c.spec_call() is None && c.spec_entry() == 0)
    }

    /// Every frame stems from a call, and all return addresses fit in 64 bits.
    pub closed spec fn wf(self) -> bool {
        &&& forall|i: int|
            0 <= i < self.frames@.len() ==> (#[trigger] self.frames@[i]).spec_call() is Some
                && self.frames@[i].wf()
        &&& step_wf(self.last)
        &&& self.detached()
    }

    /// Create an empty stack
    pub fn new() -> (r: Stack)
        ensures
            r.wf(),
            r.detached(),
            r.calls() == Seq::<Call>::empty(),
            r.spec_last() == Step::Regular,
    {
        let r = Stack { frames: Vec::new(), last: Step::Regular };
        assert(r.calls() =~= Seq::<Call>::empty());
        r
    }

    /// Drive stack reconstruction with the given instruction retirement
    pub fn process_item(&mut self, pc: u64, insn: &Insn) -> (r: Result<(), Error>)
        requires
            old(self).wf(),
            insn_fits(pc, *insn),
        ensures
            final(self).wf(),
            final(self).detached(),
            final(self).calls() == next_calls(old(self).calls(), old(self).spec_last(), pc),
            r == step_outcome(old(self).calls(), old(self).spec_last(), pc),
            final(self).spec_last() == if r is Ok {
                step_of(pc, *insn)
            } else {
                old(self).spec_last()
            },
    {
        match self.last {
            Step::Regular => (),
            Step::Call { origin, origin_size } => {
                let frame = Frame {
                    entry: pc,
                    kind: Kind::FnCall {
                        origin,
                        origin_size,
                        ctx: Arc::new(Frame::new(0, Kind::Base)),
                    },
                };
                proof {
                    frame.lemma_calls();
                    frame.spec_caller().unwrap().lemma_calls();
                    assert(frame.calls() =~= seq![Call { origin, origin_size, entry: pc }]);
                }
                self.frames.push(frame);
                proof {
                    assert(self.calls() =~= old(self).calls().push(
                        Call { origin, origin_size, entry: pc },
                    ));
                }
            },
            Step::Return => {
                let frame = match self.frames.pop() {
                    Some(f) => f,
                    None => {
                        return Err(Error::NoFrame);
                    },
                };
                proof {
                    assert(self.calls() =~= old(self).calls().drop_last());
                    let n = old(self).frames@.len() - 1;
                    assert(old(self).frames@[n] == frame);
                    frame.lemma_calls();
                    let c = frame.spec_call().unwrap();
                    assert(frame.calls() == frame.spec_caller().unwrap().calls().push(c));
                    assert(frame.calls()[frame.calls().len() - 1] == c);
                }
                if let Some(expected) = frame.return_addr() {
                    if expected != pc {
                        return Err(Error::OriginMismatch { have: pc, expected });
                    }
                }
            },
        }
        self.last = Step::from_insn(pc, insn);
        Ok(())
    }

    /// Drive stack reconstruction with the given instruction retirement,
    /// starting anew if it cannot be reconstructed
    ///
    /// On an error, which is returned, the stack is reset, so that
    /// reconstruction goes on with the next retirement.
    pub fn process_item_or_reset(&mut self, pc: u64, insn: &Insn) -> (r: Result<(), Error>)
        requires
            old(self).wf(),
            insn_fits(pc, *insn),
        ensures
            final(self).wf(),
            final(self).detached(),
            r == step_outcome(old(self).calls(), old(self).spec_last(), pc),
            r is Ok ==> final(self).calls() == next_calls(old(self).calls(), old(self).spec_last(), pc)
                && final(self).spec_last() == step_of(pc, *insn),
            r is Err ==> final(self).calls() == Seq::<Call>::empty() && final(self).spec_last()
                == Step::Regular,
    {
        let r = self.process_item(pc, insn);
        if r.is_err() {
            self.reset();
        }
        r
    }

    /// Retrieve the current stack depth
    ///
    /// Depth increases after the first instruction in a call is processed via
    /// [`process_item`][Self::process_item] and decreases after a return is
    /// processed.
    pub fn depth(&self) -> (r: usize)
        ensures
            r == self.calls().len(),
    {
        self.frames.len()
    }

    /// Check whether the current state indicates a fn entry
    ///
    /// This fn will return true after a call but before the first instruction
    /// in the called fn is processed via [`process_item`][Self::process_item].
    pub fn at_fn_entry(&self) -> (r: bool)
        ensures
            r == self.spec_last() is Call,
    {
        matches!(self.last, Step::Call { .. })
    }

    /// Reset this stack
    pub fn reset(&mut self)
        ensures
            final(self).wf(),
            final(self).detached(),
            final(self).calls() == Seq::<Call>::empty(),
            final(self).spec_last() == Step::Regular,
    {
        *self = Stack::new();
    }

    /// The frames on this stack, the outermost first
    pub fn frames(&self) -> (r: &[Frame])
        ensures
            r@ == self.spec_frames(),
            r@.map_values(|f: Frame| f.spec_call().unwrap()) == self.calls(),
            self.wf() ==> forall|i: int| 0 <= i < r@.len() ==> (#[trigger] r@[i]).spec_call() is Some,
    {
        self.frames.as_slice()
    }
}

impl Default for Stack {
    fn default() -> (r: Self)
        ensures
            r.wf(),
            r.detached(),
            r.calls() == Seq::<Call>::empty(),
            r.spec_last() == Step::Regular,
    {
        Stack::new()
    }
}

/// The stack depth rises by one once the first instruction of a called fn
/// retires, falls by one once the instruction after a return retires, and
/// stays the same otherwise.
pub proof fn depth_follows_steps(calls: Seq<Call>, last: Step, pc: u64)
    ensures
        last is Call ==> next_calls(calls, last, pc).len() == calls.len() + 1,
        last is Return && calls.len() > 0 ==> next_calls(calls, last, pc).len() == calls.len() - 1,
        last is Regular || (last is Return && calls.len() == 0) ==> next_calls(calls, last, pc)
            == calls,
{
}

/// `next` is the frame after an instruction at `pc` retired, given the frame
/// `frame` before and the step of the previous instruction: a call pushes a
/// frame for the called fn, whose caller is `frame`; a return pops `frame`,
/// leaving its caller, unless it is a base frame; other steps keep `frame`.
pub open spec fn frame_stepped(frame: Frame, last: Step, pc: u64, next: Frame) -> bool {
    match last {
        Step::Regular => next == frame,
        Step::Call { origin, origin_size } => {
            &&& next.spec_caller() == Some(frame)
            &&& next.spec_call() == Some(Call { origin, origin_size, entry: pc })
            &&& next.spec_entry() == pc
        },
        Step::Return => next == match frame.spec_caller() {
            Some(c) => c,
            None => frame,
        },
    }
}

/// Returning to the call site restores exactly the stack from before the
/// call: `before` is the frame when the call was the last instruction
/// retired, `entered` the frame once the called fn's first instruction
/// retired. Where, back at that frame, a return retires and then the
/// instruction at the call's return address, that instruction is accepted
/// and the frame is `before` again.
pub proof fn return_restores_frame(
    before: Frame,
    origin: u64,
    origin_size: Size,
    entry: u64,
    entered: Frame,
    after: Frame,
)
    requires
        frame_stepped(before, Step::Call { origin, origin_size }, entry, entered),
        frame_stepped(entered, Step::Return, (origin + origin_size.spec_bytes()) as u64, after),
        origin + origin_size.spec_bytes() <= u64::MAX,
    ensures
        after == before,
        step_outcome(entered.calls(), Step::Return, (origin + origin_size.spec_bytes()) as u64) == Ok::<
            (),
            Error,
        >(()),
        next_calls(entered.calls(), Step::Return, (origin + origin_size.spec_bytes()) as u64)
            == before.calls(),
{
    entered.lemma_calls();
    let c = Call { origin, origin_size, entry };
    assert(entered.calls() == before.calls().push(c));
    assert(entered.calls().drop_last() =~= before.calls());
}

/// A call, followed by a return to the address right after the calling
/// instruction, leaves the stack as it was before the call; a return to any
/// other address reports that address and the expected one.
pub proof fn return_undoes_call(calls: Seq<Call>, origin: u64, origin_size: Size, entry: u64, pc: u64)
    requires
        origin + origin_size.spec_bytes() <= u64::MAX,
    ensures
        ({
            let called = next_calls(calls, Step::Call { origin, origin_size }, entry);
            &&& step_outcome(calls, Step::Call { origin, origin_size }, entry) == Ok::<(), Error>(())
            &&& called.last() == (Call { origin, origin_size, entry })
            &&& pc == origin + origin_size.spec_bytes() ==> {
                &&& step_outcome(called, Step::Return, pc) == Ok::<(), Error>(())
                &&& next_calls(called, Step::Return, pc) == calls
            }
            &&& pc != origin + origin_size.spec_bytes() ==> {
                &&& step_outcome(called, Step::Return, pc) == Err::<(), Error>(
                    Error::OriginMismatch {
                        have: pc,
                        expected: (origin + origin_size.spec_bytes()) as u64,
                    },
                )
                &&& next_calls(called, Step::Return, pc) == calls
            }
        }),
{
    let called = calls.push(Call { origin, origin_size, entry });
    assert(called.drop_last() =~= calls);
}

/// A return on a stack without calls is refused and leaves the stack empty.
pub proof fn return_without_call_refused(last_pc: u64)
    ensures
        step_outcome(Seq::<Call>::empty(), Step::Return, last_pc) == Err::<(), Error>(Error::NoFrame),
        next_calls(Seq::<Call>::empty(), Step::Return, last_pc) == Seq::<Call>::empty(),
{
}

/// Calls and last step after a [`State`] processed the retirements in `trace`.
pub open spec fn state_replay(calls: Seq<Call>, last: Step, trace: Seq<(u64, Insn)>) -> (Seq<Call>, Step)
    decreases trace.len(),
{
    if trace.len() == 0 {
        (calls, last)
    } else {
        let prev = state_replay(calls, last, trace.drop_last());
        let pc = trace.last().0;
        (next_calls(prev.0, prev.1, pc), step_of(pc, trace.last().1))
    }
}

/// Calls and last step after a [`Stack`] processed the retirements in `trace`.
pub open spec fn stack_replay(calls: Seq<Call>, last: Step, trace: Seq<(u64, Insn)>) -> (Seq<Call>, Step)
    decreases trace.len(),
{
    if trace.len() == 0 {
        (calls, last)
    } else {
        let prev = stack_replay(calls, last, trace.drop_last());
        let pc = trace.last().0;
        (
            next_calls(prev.0, prev.1, pc),
            if step_outcome(prev.0, prev.1, pc) is Ok {
                step_of(pc, trace.last().1)
            } else {
                prev.1
            },
        )
    }
}

/// Every retirement in `trace` is accepted by a [`State`] that starts with
/// `calls` and `last`.
pub open spec fn replay_ok(calls: Seq<Call>, last: Step, trace: Seq<(u64, Insn)>) -> bool
    decreases trace.len(),
{
    if trace.len() == 0 {
        true
    } else {
        let prev = state_replay(calls, last, trace.drop_last());
        replay_ok(calls, last, trace.drop_last()) && step_outcome(prev.0, prev.1, trace.last().0) is Ok
    }
}

/// A [`State`] and a [`Stack`] that start alike reconstruct the same calls
/// from any trace whose every retirement is accepted.
pub proof fn state_and_stack_agree(calls: Seq<Call>, last: Step, trace: Seq<(u64, Insn)>)
    requires
        replay_ok(calls, last, trace),
    ensures
        state_replay(calls, last, trace) == stack_replay(calls, last, trace),
    decreases trace.len(),
{
    if trace.len() > 0 {
        state_and_stack_agree(calls, last, trace.drop_last());
    }
}


/// A fn entry is indicated exactly after a call: the step recorded for a
/// retirement is a call if and only if the instruction is one, and the
/// instruction after it is the first one of the called fn.
pub proof fn fn_entry_after_call(calls: Seq<Call>, pc: u64, insn: Insn, next_pc: u64)
    ensures
        step_of(pc, insn) is Call <==> insn.is_call,
        insn.is_call ==> next_calls(calls, step_of(pc, insn), next_pc) == calls.push(
            Call { origin: pc, origin_size: insn.size, entry: next_pc },
        ),
{
}

/// The message of a return to an address other than the call's return
/// address shows both addresses as decimal numbers.
pub proof fn mismatch_text_shows_addresses(have: u64, expected: u64)
    ensures
        exists|h: Seq<u8>, e: Seq<u8>|
            #![trigger represents(h, 10, have as nat), represents(e, 10, expected as nat)]
            represents(h, 10, have as nat) && represents(e, 10, expected as nat) && (Error::OriginMismatch {
                have,
                expected,
            }).spec_text() == ascii("Mismtach of return address: have "@) + h + ascii(", expected "@) + e,
{
    dec_represents(have as nat);
    dec_represents(expected as nat);
    assert(represents(dec(have as nat), 10, have as nat) && represents(dec(expected as nat), 10, expected as nat));
}

} // verus!
