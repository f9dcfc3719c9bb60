//! The capture buffer for native-value movements inside one transaction.
//!
//! Frames are kept only if their movement was committed: when a call or create
//! frame fails, everything captured since it was entered is dropped with it.

use vstd::prelude::*;
use crate::primitives::{Address, U256};
use crate::text;

verus! {

/// What moved the value.
#[derive(Clone, Copy, Debug, PartialEq, Eq, Structural)]
pub enum FrameKind {
    Call,
    CallCode,
    Create,
    Create2,
    SelfDestruct,
}

/// A movement of native value.
#[derive(Clone, Copy, Debug)]
pub struct FrameMove {
    pub from: Address,
    pub to: Address,
    pub value: U256,
    pub kind: FrameKind,
}

/// A movement of native value with its place in the transaction.
#[derive(Clone, Debug)]
pub struct CapturedFrame {
    pub from: Address,
    pub to: Address,
    pub value: U256,
    pub kind: FrameKind,
    pub trace_path: String,
}

/// What a [`CapturedFrame`] says.
pub struct Frame {
    pub from: Address,
    pub to: Address,
    pub value: nat,
    pub kind: FrameKind,
    pub trace_path: Seq<char>,
}

impl View for CapturedFrame {
    type V = Frame;

    open spec fn view(&self) -> Frame {
        Frame {
            from: self.from,
            to: self.to,
            value: self.value@,
            kind: self.kind,
            trace_path: self.trace_path@,
        }
    }
}

/// What captured frames say, in order.
pub open spec fn frames_view(frames: Seq<CapturedFrame>) -> Seq<Frame> {
    Seq::new(frames.len(), |i: int| frames[i]@)
}

/// The value that a call carries: moved to the callee, or only shown to it.
#[derive(Clone, Copy, Debug, PartialEq, Eq, Structural)]
pub enum CallValue {
    Transfer(U256),
    Apparent(U256),
}

/// How a call was made.
#[derive(Clone, Copy, Debug, PartialEq, Eq, Structural)]
pub enum CallScheme {
    Call,
    CallCode,
    DelegateCall,
    StaticCall,
}

/// How a contract was created.
#[derive(Clone, Copy, Debug, PartialEq, Eq, Structural)]
pub enum CreateScheme {
    Create,
    Create2,
    Custom,
}

/// The kind of a value call.
pub open spec fn call_kind(scheme: CallScheme) -> FrameKind {
    if scheme == CallScheme::CallCode {
        FrameKind::CallCode
    } else {
        FrameKind::Call
    }
}

/// The kind of a value-bearing creation.
pub open spec fn create_kind(scheme: CreateScheme) -> FrameKind {
    if scheme == CreateScheme::Create2 {
        FrameKind::Create2
    } else {
        FrameKind::Create
    }
}

/// The state of a capture: the number of the next frame, the frames kept so
/// far, and for each open call or create frame how many were kept when it was
/// entered.
pub struct Capture {
    pub next: nat,
    pub frames: Seq<Frame>,
    pub marks: Seq<nat>,
}

impl Capture {
    /// Nothing captured, nothing open.
    pub open spec fn empty() -> Capture {
        Capture { next: 0, frames: Seq::empty(), marks: Seq::empty() }
    }

    /// A movement was seen. One of no value leaves no frame.
    pub open spec fn pushed(self, m: FrameMove) -> Capture {
        if m.value@ == 0 {
            self
        } else {
            Capture {
                next: self.next + 1,
                frames: self.frames.push(
                    Frame {
                        from: m.from,
                        to: m.to,
                        value: m.value@,
                        kind: m.kind,
                        trace_path: text::decimal(self.next),
                    },
                ),
                marks: self.marks,
            }
        }
    }

    /// A call or create frame was entered.
    pub open spec fn entered(self) -> Capture {
        Capture { next: self.next, frames: self.frames, marks: self.marks.push(self.frames.len()) }
    }

    /// The innermost open frame ended. If it failed, what was captured since it
    /// was entered is dropped.
    pub open spec fn exited(self, reverted: bool) -> Capture {
        if self.marks.len() == 0 {
            self
        } else {
            let mark = self.marks.last();
            Capture {
                next: self.next,
                frames: if reverted && self.frames.len() > mark {
                    self.frames.take(mark as int)
                } else {
                    self.frames
                },
                marks: self.marks.drop_last(),
            }
        }
    }

    /// A call was entered.
    pub open spec fn called(
        self,
        value: CallValue,
        scheme: CallScheme,
        caller: Address,
        target: Address,
    ) -> Capture {
        match value {
            CallValue::Transfer(v) => self.entered().pushed(
                FrameMove { from: caller, to: target, value: v, kind: call_kind(scheme) },
            ),
            CallValue::Apparent(_) => self.entered(),
        }
    }

    /// A creation ended, with the address of the contract where there is one.
    pub open spec fn created(
        self,
        value: U256,
        scheme: CreateScheme,
        caller: Address,
        address: Option<Address>,
        ok: bool,
    ) -> Capture {
        let recorded = match address {
            Some(a) => self.pushed(
                FrameMove { from: caller, to: a, value, kind: create_kind(scheme) },
            ),
            None => self,
        };
        recorded.exited(!ok)
    }

    /// A contract destroyed itself.
    pub open spec fn destroyed(self, contract: Address, target: Address, value: U256) -> Capture {
        self.pushed(FrameMove { from: contract, to: target, value, kind: FrameKind::SelfDestruct })
    }

    /// Every frame carries value and is named by a number below the next one,
    /// and no two frames have the same name.
    pub open spec fn wf(self) -> bool {
        &&& forall|i: int| #![trigger self.frames[i]]
            0 <= i < self.frames.len() ==> self.frames[i].value > 0 && names_below(
                self.frames[i].trace_path,
                self.next,
            )
        &&& forall|i: int, j: int|
            0 <= i < j < self.frames.len() ==> #[trigger] self.frames[i].trace_path
                != #[trigger] self.frames[j].trace_path
    }
}

/// Whether a name is the decimal text of a number below `next`.
pub open spec fn names_below(name: Seq<char>, next: nat) -> bool {
    exists|n: nat| n < next && name == #[trigger] text::decimal(n)
}

/// A movement keeps a capture well-formed.
pub proof fn lemma_pushed_wf(c: Capture, m: FrameMove)
    requires
        c.wf(),
    ensures
        c.pushed(m).wf(),
{
    let d = c.pushed(m);
    if m.value@ != 0 {
        assert forall|i: int| #![trigger d.frames[i]] 0 <= i < d.frames.len() implies d.frames[i].value
            > 0 && names_below(d.frames[i].trace_path, d.next) by {
            if i < c.frames.len() {
                assert(d.frames[i] == c.frames[i]);
                let n = choose|n: nat|
                    n < c.next && c.frames[i].trace_path == #[trigger] text::decimal(n);
                assert(n < d.next && d.frames[i].trace_path == text::decimal(n));
            } else {
                assert(d.frames[i].trace_path == text::decimal(c.next));
            }
        }
        assert forall|i: int, j: int| 0 <= i < j < d.frames.len() implies #[trigger] d.frames[i].trace_path
            != #[trigger] d.frames[j].trace_path by {
            assert(d.frames[i] == c.frames[i]);
            if j == c.frames.len() {
                let n = choose|n: nat|
                    n < c.next && c.frames[i].trace_path == #[trigger] text::decimal(n);
                if text::decimal(n) == text::decimal(c.next) {
                    text::lemma_decimal_injective(n, c.next);
                }
            } else {
                assert(d.frames[j] == c.frames[j]);
            }
        }
    }
}

/// The end of a frame keeps a capture well-formed.
pub proof fn lemma_exited_wf(c: Capture, reverted: bool)
    requires
        c.wf(),
    ensures
        c.exited(reverted).wf(),
{
    let d = c.exited(reverted);
    assert(forall|i: int| 0 <= i < d.frames.len() ==> d.frames[i] == c.frames[i]);
}

/// Collects the native-value movements of one transaction.
#[derive(Clone, Debug)]
pub struct ValueInspector {
    seq: u64,
    frames: Vec<CapturedFrame>,
    revert_marks: Vec<usize>,
}

impl View for ValueInspector {
    type V = Capture;

    closed spec fn view(&self) -> Capture {
        Capture {
            next: self.seq as nat,
            frames: frames_view(self.frames@),
            marks: Seq::new(self.revert_marks@.len(), |i: int| self.revert_marks@[i] as nat),
        }
    }
}

impl ValueInspector {
    pub fn new() -> (r: ValueInspector)
        ensures
            r@ == Capture::empty(),
            r@.wf(),
    {
        let r = ValueInspector { seq: 0, frames: Vec::new(), revert_marks: Vec::new() };
        proof {
            assert(r@.frames =~= Seq::<Frame>::empty());
            assert(r@.marks =~= Seq::<nat>::empty());
        }
        r
    }

    /// The number of the next frame.
    pub fn next_sequence(&self) -> (r: u64)
        ensures
            r == self@.next,
    {
        self.seq
    }

    /// Records a movement; one of no value is ignored.
    pub fn push_frame(&mut self, m: FrameMove)
        requires
            old(self)@.wf(),
            old(self)@.next < u64::MAX,
        ensures
            final(self)@ == old(self)@.pushed(m),
            final(self)@.wf(),
    {
        proof {
            lemma_pushed_wf(self@, m);
        }
        if m.value.is_zero() {
            return;
        }
        let ghost before = self@;
        let trace_path = text::decimal_text(self.seq as u128);
        self.seq = self.seq + 1;
        self.frames.push(
            CapturedFrame { from: m.from, to: m.to, value: m.value, kind: m.kind, trace_path },
        );
        proof {
            assert(self@.frames =~= before.pushed(m).frames);
            assert(self@.marks =~= before.marks);
        }
    }

    /// The frames that were kept.
    pub fn into_frames(self) -> (r: Vec<CapturedFrame>)
        ensures
            frames_view(r@) == self@.frames,
    {
        self.frames
    }

    /// Notes the entry of a call or create frame.
    pub fn enter_frame(&mut self)
        requires
            old(self)@.wf(),
        ensures
            final(self)@ == old(self)@.entered(),
            final(self)@.wf(),
    {
        let ghost before = self@;
        self.revert_marks.push(self.frames.len());
        proof {
            assert(self@.frames =~= before.frames);
            assert(self@.marks =~= before.entered().marks);
        }
    }

    /// Notes the end of the innermost open frame.
    pub fn exit_frame(&mut self, reverted: bool)
        requires
            old(self)@.wf(),
        ensures
            final(self)@ == old(self)@.exited(reverted),
            final(self)@.wf(),
    {
        let ghost before = self@;
        proof {
            lemma_exited_wf(self@, reverted);
        }
        match self.revert_marks.pop() {
            Some(mark) => {
                if reverted && self.frames.len() > mark {
                    self.frames.truncate(mark);
                }
            },
            None => {},
        }
        proof {
            assert(self@.frames =~= before.exited(reverted).frames);
            assert(self@.marks =~= before.exited(reverted).marks);
        }
    }

    /// How many frames are kept so far.
    pub fn frame_count(&self) -> (r: usize)
        ensures
            r == self@.frames.len(),
    {
        self.frames.len()
    }

    /// A call is entered. Its own value counts as inside it, so a failed call
    /// loses it too. Only value that moves is recorded.
    pub fn call(&mut self, value: CallValue, scheme: CallScheme, caller: Address, target: Address)
        requires
            old(self)@.wf(),
            old(self)@.next < u64::MAX,
        ensures
            final(self)@ == old(self)@.called(value, scheme, caller, target),
            final(self)@.wf(),
    {
        self.enter_frame();
        if let CallValue::Transfer(v) = value {
            let kind = match scheme {
                CallScheme::CallCode => FrameKind::CallCode,
                _ => FrameKind::Call,
            };
            self.push_frame(FrameMove { from: caller, to: target, value: v, kind });
        }
    }

    /// A call ended.
    pub fn call_end(&mut self, ok: bool)
        requires
            old(self)@.wf(),
        ensures
            final(self)@ == old(self)@.exited(!ok),
            final(self)@.wf(),
    {
        self.exit_frame(!ok);
    }

    /// A creation is entered.
    pub fn create(&mut self)
        requires
            old(self)@.wf(),
        ensures
            final(self)@ == old(self)@.entered(),
            final(self)@.wf(),
    {
        self.enter_frame();
    }

    /// A creation ended.
    pub fn create_end(
        &mut self,
        value: U256,
        scheme: CreateScheme,
        caller: Address,
        address: Option<Address>,
        ok: bool,
    )
        requires
            old(self)@.wf(),
            old(self)@.next < u64::MAX,
        ensures
            final(self)@ == old(self)@.created(value, scheme, caller, address, ok),
            final(self)@.wf(),
    {
        if let Some(to) = address {
            let kind = match scheme {
                CreateScheme::Create2 => FrameKind::Create2,
                _ => FrameKind::Create,
            };
            self.push_frame(FrameMove { from: caller, to, value, kind });
        }
        self.exit_frame(!ok);
    }

    /// A contract destroyed itself, sending its balance away.
    pub fn selfdestruct(&mut self, contract: Address, target: Address, value: U256)
        requires
            old(self)@.wf(),
            old(self)@.next < u64::MAX,
        ensures
            final(self)@ == old(self)@.destroyed(contract, target, value),
            final(self)@.wf(),
    {
        self.push_frame(
            FrameMove { from: contract, to: target, value, kind: FrameKind::SelfDestruct },
        );
    }
}

impl Default for ValueInspector {
    fn default() -> (r: ValueInspector)
        ensures
            r@ == Capture::empty(),
            r@.wf(),
    {
        ValueInspector::new()
    }
}

/// One step of a capture.
pub enum Step {
    Push(FrameMove),
    Enter,
    Exit { reverted: bool },
}

impl Capture {
    pub open spec fn step(self, s: Step) -> Capture {
        match s {
            Step::Push(m) => self.pushed(m),
            Step::Enter => self.entered(),
            Step::Exit { reverted } => self.exited(reverted),
        }
    }

    /// The state after a run of steps.
    pub open spec fn run(self, steps: Seq<Step>) -> Capture
        decreases steps.len(),
    {
        if steps.len() == 0 {
            self
        } else {
            self.run(steps.drop_last()).step(steps.last())
        }
    }
}

/// How many frames a run of steps leaves open; entries less ends.
pub open spec fn open_after(steps: Seq<Step>) -> int
    decreases steps.len(),
{
    if steps.len() == 0 {
        0
    } else {
        open_after(steps.drop_last()) + match steps.last() {
            Step::Push(_) => 0int,
            Step::Enter => 1,
            Step::Exit { .. } => -1,
        }
    }
}

/// A run that ends every frame it enters, and no frame entered before it.
pub open spec fn nested(steps: Seq<Step>) -> bool {
    &&& open_after(steps) == 0
    &&& forall|n: int| 0 <= n <= steps.len() ==> open_after(#[trigger] steps.take(n)) >= 0
}

/// Inside a frame entered at state `c`, a run leaves the marks of the frames
/// around it and the frames captured before it as they were.
proof fn lemma_run_inside(c: Capture, steps: Seq<Step>)
    requires
        forall|n: int| 0 <= n <= steps.len() ==> open_after(#[trigger] steps.take(n)) >= 0,
    ensures
        ({
            let d = c.entered().run(steps);
            let base = c.marks.len() as int;
            let m = c.frames.len();
            &&& d.marks.len() == base + 1 + open_after(steps)
            &&& d.marks.take(base + 1) == c.entered().marks
            &&& d.frames.len() >= m
            &&& d.frames.take(m as int) == c.frames
            &&& forall|k: int| base <= k < d.marks.len() ==> #[trigger] d.marks[k] >= m
        }),
    decreases steps.len(),
{
    let base = c.marks.len() as int;
    let m = c.frames.len();
    if steps.len() == 0 {
        let d = c.entered();
        assert(d.marks.take(base + 1) =~= d.marks);
        assert(d.frames.take(m as int) =~= c.frames);
    } else {
        let init = steps.drop_last();
        assert forall|n: int| 0 <= n <= init.len() implies open_after(#[trigger] init.take(n))
            >= 0 by {
            assert(init.take(n) == steps.take(n));
        }
        lemma_run_inside(c, init);
        assert(steps.take(steps.len() as int) == steps);
        assert(open_after(steps.take(steps.len() as int)) >= 0);
        let b = c.entered().run(init);
        let d = c.entered().run(steps);
        assert(d == b.step(steps.last()));
        match steps.last() {
            Step::Push(mv) => {
                assert(d.frames.take(m as int) =~= b.frames.take(m as int));
            },
            Step::Enter => {
                assert(d.marks.take(base + 1) =~= b.marks.take(base + 1));
                assert forall|k: int| base <= k < d.marks.len() implies #[trigger] d.marks[k]
                    >= m by {
                    if k < b.marks.len() {
                        assert(d.marks[k] == b.marks[k]);
                    }
                }
            },
            Step::Exit { reverted } => {
                assert(b.marks.len() >= base + 2);
                assert(b.marks.last() == b.marks[b.marks.len() - 1]);
                assert(d.marks.take(base + 1) =~= b.marks.take(base + 1));
                assert(d.frames.take(m as int) =~= b.frames.take(m as int));
                assert forall|k: int| base <= k < d.marks.len() implies #[trigger] d.marks[k]
                    >= m by {
                    assert(d.marks[k] == b.marks[k]);
                }
            },
        }
    }
}

/// A failed frame leaves no trace: whatever happened inside it, once it has
/// ended the kept frames and the open frames are those from before it was
/// entered.
pub proof fn failed_frame_drops_its_subtree(c: Capture, inside: Seq<Step>)
    requires
        nested(inside),
    ensures
        c.entered().run(inside).exited(true).frames == c.frames,
        c.entered().run(inside).exited(true).marks == c.marks,
{
    lemma_run_inside(c, inside);
    let d = c.entered().run(inside);
    let base = c.marks.len() as int;
    assert(d.marks.take(base + 1) =~= d.marks);
    assert(d.marks.last() == c.frames.len());
    assert(d.frames.take(c.frames.len() as int) == c.frames);
    assert(d.exited(true).marks =~= c.marks);
    assert(d.exited(true).frames =~= c.frames);
}

/// A frame that succeeds keeps what was captured inside it, and what was
/// captured before it.
pub proof fn successful_frame_keeps_its_subtree(c: Capture, inside: Seq<Step>)
    requires
        nested(inside),
    ensures
        c.entered().run(inside).exited(false).frames == c.entered().run(inside).frames,
        c.entered().run(inside).exited(false).marks == c.marks,
        c.frames.is_prefix_of(c.entered().run(inside).exited(false).frames),
{
    lemma_run_inside(c, inside);
    let d = c.entered().run(inside);
    let base = c.marks.len() as int;
    assert(d.marks.take(base + 1) =~= d.marks);
    assert(d.exited(false).marks =~= c.marks);
    assert(d.frames.take(c.frames.len() as int) =~= c.frames);
    assert(c.frames.is_prefix_of(d.frames));
}

/// The names that a run of steps gives to frames, in order; those of frames that
/// are dropped later count too.
pub open spec fn names_given(c: Capture, steps: Seq<Step>) -> Seq<Seq<char>>
    decreases steps.len(),
{
    if steps.len() == 0 {
        Seq::empty()
    } else {
        let before = names_given(c, steps.drop_last());
        match steps.last() {
            Step::Push(m) => if m.value@ == 0 {
                before
            } else {
                before.push(c.run(steps.drop_last()).pushed(m).frames.last().trace_path)
            },
            _ => before,
        }
    }
}

proof fn lemma_names_given(steps: Seq<Step>)
    ensures
        names_given(Capture::empty(), steps) == Seq::new(
            Capture::empty().run(steps).next,
            |k: int| text::decimal(k as nat),
        ),
        forall|i: int|
            0 <= i < Capture::empty().run(steps).frames.len() ==> names_below(
                (#[trigger] Capture::empty().run(steps).frames[i]).trace_path,
                Capture::empty().run(steps).next,
            ),
    decreases steps.len(),
{
    let c = Capture::empty();
    if steps.len() == 0 {
        assert(names_given(c, steps) =~= Seq::new(0, |k: int| text::decimal(k as nat)));
    } else {
        let before = steps.drop_last();
        lemma_names_given(before);
        let (s, t) = (c.run(before), c.run(steps));
        assert(names_given(c, steps) =~= Seq::new(t.next, |k: int| text::decimal(k as nat)));
        assert forall|i: int| 0 <= i < t.frames.len() implies names_below(
            (#[trigger] t.frames[i]).trace_path,
            t.next,
        ) by {
            if i < s.frames.len() {
                assert(t.frames[i] == s.frames[i]);
                let n = choose|n: nat|
                    n < s.next && s.frames[i].trace_path == #[trigger] text::decimal(n);
                assert(n < t.next);
            } else {
                assert(t.frames[i].trace_path == text::decimal(s.next));
            }
        }
    }
}

/// No name is given twice, not even after the frame that had it was dropped. The
/// first one is `0`, and every kept frame has one of the names.
pub proof fn names_are_never_reused(steps: Seq<Step>)
    ensures
        ({
            let names = names_given(Capture::empty(), steps);
            &&& names.no_duplicates()
            &&& names.len() > 0 ==> names[0] == text::decimal(0)
            &&& forall|i: int|
                0 <= i < Capture::empty().run(steps).frames.len() ==> names.contains(
                    (#[trigger] Capture::empty().run(steps).frames[i]).trace_path,
                )
        }),
{
    lemma_names_given(steps);
    let names = names_given(Capture::empty(), steps);
    let c = Capture::empty().run(steps);
    assert forall|i: int, j: int|
        0 <= i < names.len() && 0 <= j < names.len() && i != j implies names[i] != names[j] by {
        if names[i] == names[j] {
            text::lemma_decimal_injective(i as nat, j as nat);
        }
    }
    assert forall|i: int| 0 <= i < c.frames.len() implies names.contains(
        (#[trigger] c.frames[i]).trace_path,
    ) by {
        let n = choose|n: nat|
            n < c.next && c.frames[i].trace_path == #[trigger] text::decimal(n);
        assert(names[n as int] == c.frames[i].trace_path);
    }
}

/// A movement of value adds exactly one frame, with its parties, its value and its
/// kind, under a name that no frame had before; a movement of none changes nothing.
pub proof fn a_movement_is_one_new_frame(steps: Seq<Step>, m: FrameMove)
    ensures
        ({
            let c = Capture::empty().run(steps);
            let d = Capture::empty().run(steps.push(Step::Push(m)));
            if m.value@ == 0 {
                d == c
            } else {
                &&& d.frames.len() == c.frames.len() + 1
                &&& d.frames.drop_last() == c.frames
                &&& d.frames.last().from == m.from && d.frames.last().to == m.to
                &&& d.frames.last().value == m.value@ && d.frames.last().kind == m.kind
                &&& !names_given(Capture::empty(), steps).contains(d.frames.last().trace_path)
            }
        }),
{
    let c = Capture::empty().run(steps);
    let next = steps.push(Step::Push(m));
    assert(next.drop_last() =~= steps);
    let d = Capture::empty().run(next);
    assert(d == c.pushed(m));
    if m.value@ != 0 {
        assert(d.frames.drop_last() =~= c.frames);
        lemma_names_given(steps);
        let names = names_given(Capture::empty(), steps);
        if names.contains(d.frames.last().trace_path) {
            let k = choose|k: int| 0 <= k < names.len() && names[k] == d.frames.last().trace_path;
            text::lemma_decimal_injective(k as nat, c.next);
        }
    }
}

/// A call that carries value takes it from its caller and gives it to its target:
/// that is the one new frame, and it belongs to the call. A call that only shows a
/// value, or carries none, leaves no frame.
pub proof fn a_call_pays_its_target(
    c: Capture,
    value: U256,
    scheme: CallScheme,
    caller: Address,
    target: Address,
)
    ensures
        ({
            let d = c.called(CallValue::Transfer(value), scheme, caller, target);
            &&& value@ > 0 ==> {
                &&& d.frames.len() == c.frames.len() + 1
                &&& d.frames.drop_last() == c.frames
                &&& d.frames.last().from == caller
                &&& d.frames.last().to == target
                &&& d.frames.last().value == value@
                &&& d.frames.last().kind == match scheme {
                    CallScheme::CallCode => FrameKind::CallCode,
                    _ => FrameKind::Call,
                }
            }
            &&& value@ == 0 ==> d.frames == c.frames
            &&& d.marks.len() == c.marks.len() + 1 && d.marks.drop_last() == c.marks
            &&& d.marks.last() == c.frames.len()
        }),
        c.called(CallValue::Apparent(value), scheme, caller, target).frames == c.frames,
        c.called(CallValue::Apparent(value), scheme, caller, target).marks == c.marks.push(
            c.frames.len(),
        ),
{
    let d = c.called(CallValue::Transfer(value), scheme, caller, target);
    assert(d.marks.drop_last() =~= c.marks);
    if value@ > 0 {
        assert(d.frames.drop_last() =~= c.frames);
    }
}

/// A creation that succeeds takes its value from the creator and gives it to the new
/// contract: that is the one new frame, and what was captured while it ran stays. A
/// creation without a contract or without value leaves no frame of its own.
pub proof fn a_creation_pays_the_new_contract(
    c: Capture,
    value: U256,
    scheme: CreateScheme,
    caller: Address,
    address: Option<Address>,
)
    requires
        c.marks.len() > 0,
    ensures
        ({
            let d = c.created(value, scheme, caller, address, true);
            &&& address is Some && value@ > 0 ==> {
                &&& d.frames.len() == c.frames.len() + 1
                &&& d.frames.drop_last() == c.frames
                &&& d.frames.last().from == caller
                &&& d.frames.last().to == address->0
                &&& d.frames.last().value == value@
                &&& d.frames.last().kind == match scheme {
                    CreateScheme::Create2 => FrameKind::Create2,
                    _ => FrameKind::Create,
                }
            }
            &&& address is None || value@ == 0 ==> d.frames == c.frames
            &&& d.marks == c.marks.drop_last()
        }),
{
    let d = c.created(value, scheme, caller, address, true);
    if address is Some && value@ > 0 {
        assert(d.frames.drop_last() =~= c.frames);
    }
}

/// A self-destruct takes the balance from the contract and gives it to the target.
pub proof fn a_self_destruct_pays_its_target(
    c: Capture,
    contract: Address,
    target: Address,
    value: U256,
)
    ensures
        ({
            let d = c.destroyed(contract, target, value);
            &&& value@ > 0 ==> {
                &&& d.frames.len() == c.frames.len() + 1
                &&& d.frames.drop_last() == c.frames
                &&& d.frames.last().from == contract
                &&& d.frames.last().to == target
                &&& d.frames.last().value == value@
                &&& d.frames.last().kind == FrameKind::SelfDestruct
            }
            &&& value@ == 0 ==> d.frames == c.frames
            &&& d.marks == c.marks
        }),
{
    if value@ > 0 {
        assert(c.destroyed(contract, target, value).frames.drop_last() =~= c.frames);
    }
}

/// The end of a call closes the innermost open frame. What was captured before it
/// was entered stays; what was captured since stays exactly if it succeeded. An end
/// without a beginning changes nothing.
pub proof fn the_end_of_a_call_keeps_or_drops_what_it_captured(c: Capture, ok: bool)
    ensures
        ({
            let d = c.exited(!ok);
            &&& c.marks.len() == 0 ==> d == c
            &&& c.marks.len() > 0 ==> d.marks == c.marks.drop_last()
            &&& ok ==> d.frames == c.frames
            &&& !ok && c.marks.len() > 0 && c.marks.last() <= c.frames.len() ==> d.frames
                == c.frames.take(c.marks.last() as int)
        }),
{
    if !ok && c.marks.len() > 0 && c.marks.last() == c.frames.len() {
        assert(c.frames.take(c.marks.last() as int) =~= c.frames);
    }
}

} // verus!
