//! What re-execution of a block hands to bookkeeping: value frames tagged with
//! their transaction and their level, and the writes that put a chain's own
//! earlier blocks on top of its parent state.

use vstd::prelude::*;
use crate::inspector;
use crate::inspector::{
    CallScheme, CallValue, Capture, CapturedFrame, CreateScheme, Frame, FrameKind, FrameMove,
    ValueInspector,
};
use crate::primitives::{Address, B256, U256};

verus! {

/// A captured frame with the transaction it comes from and whether it is that
/// transaction's own call or creation.
#[derive(Clone, Debug)]
pub struct TaggedFrame {
    pub frame: CapturedFrame,
    pub tx_index: usize,
    pub top_level: bool,
}

/// What a [`TaggedFrame`] says.
pub struct Tagged {
    pub frame: Frame,
    pub tx_index: nat,
    pub top_level: bool,
}

impl View for TaggedFrame {
    type V = Tagged;

    open spec fn view(&self) -> Tagged {
        Tagged { frame: self.frame@, tx_index: self.tx_index as nat, top_level: self.top_level }
    }
}

/// The frames of a block, and per transaction its hash and whether it failed.
#[derive(Clone, Debug)]
pub struct Captured {
    pub frames: Vec<TaggedFrame>,
    pub tx_hashes: Vec<Option<B256>>,
    pub tx_reverted: Vec<bool>,
}

/// What a [`Captured`] says.
pub struct BlockCapture {
    pub frames: Seq<Tagged>,
    pub tx_hashes: Seq<Option<B256>>,
    pub tx_reverted: Seq<bool>,
}

/// What tagged frames say, in order.
pub open spec fn tagged_view(frames: Seq<TaggedFrame>) -> Seq<Tagged> {
    Seq::new(frames.len(), |i: int| frames[i]@)
}

impl View for Captured {
    type V = BlockCapture;

    open spec fn view(&self) -> BlockCapture {
        BlockCapture {
            frames: tagged_view(self.frames@),
            tx_hashes: self.tx_hashes@,
            tx_reverted: self.tx_reverted@,
        }
    }
}

/// The state of a tagged capture: the capture, one tag per kept frame, and the
/// call depth.
pub struct TaggedCapture {
    pub inner: Capture,
    pub tags: Seq<bool>,
    pub depth: int,
}

impl TaggedCapture {
    pub open spec fn empty() -> TaggedCapture {
        TaggedCapture { inner: Capture::empty(), tags: Seq::empty(), depth: 0 }
    }

    pub open spec fn wf(self) -> bool {
        &&& self.inner.wf()
        &&& self.tags.len() == self.inner.frames.len()
    }

    /// The tags after the capture has become `inner`: a frame that was added is
    /// tagged, and the tags of dropped frames are dropped.
    pub open spec fn tags_for(self, inner: Capture, top_level: bool) -> Seq<bool> {
        if inner.frames.len() > self.inner.frames.len() {
            self.tags.push(top_level)
        } else {
            self.tags.take(inner.frames.len() as int)
        }
    }

    pub open spec fn called(
        self,
        value: CallValue,
        scheme: CallScheme,
        caller: Address,
        target: Address,
    ) -> TaggedCapture {
        let inner = self.inner.called(value, scheme, caller, target);
        TaggedCapture {
            inner,
            tags: self.tags_for(inner, self.depth == 0),
            depth: self.depth + 1,
        }
    }

    pub open spec fn call_ended(self, ok: bool) -> TaggedCapture {
        let inner = self.inner.exited(!ok);
        TaggedCapture { inner, tags: self.tags_for(inner, false), depth: self.depth - 1 }
    }

    pub open spec fn creating(self) -> TaggedCapture {
        TaggedCapture { inner: self.inner.entered(), tags: self.tags, depth: self.depth + 1 }
    }

    pub open spec fn created(
        self,
        value: U256,
        scheme: CreateScheme,
        caller: Address,
        address: Option<Address>,
        ok: bool,
    ) -> TaggedCapture {
        let inner = self.inner.created(value, scheme, caller, address, ok);
        TaggedCapture {
            inner,
            tags: self.tags_for(inner, self.depth == 1),
            depth: self.depth - 1,
        }
    }

    pub open spec fn destroyed(self, contract: Address, target: Address, value: U256) -> TaggedCapture {
        let inner = self.inner.destroyed(contract, target, value);
        TaggedCapture { inner, tags: self.tags_for(inner, false), depth: self.depth }
    }

    /// The kept frames with their tags, for transaction `tx_index`.
    pub open spec fn tagged(self, tx_index: nat) -> Seq<Tagged> {
        Seq::new(
            self.inner.frames.len(),
            |i: int| Tagged { frame: self.inner.frames[i], tx_index, top_level: self.tags[i] },
        )
    }
}

/// A [`ValueInspector`] that also notes which kept frames are the transaction's
/// own.
#[derive(Clone, Debug)]
pub struct TaggingInspector {
    pub inner: ValueInspector,
    /// One tag per frame that `inner` keeps.
    pub tags: Vec<bool>,
    depth: i64,
}

impl View for TaggingInspector {
    type V = TaggedCapture;

    closed spec fn view(&self) -> TaggedCapture {
        TaggedCapture { inner: self.inner@, tags: self.tags@, depth: self.depth as int }
    }
}

impl TaggingInspector {
    pub fn new() -> (r: TaggingInspector)
        ensures
            r@ == TaggedCapture::empty(),
            r@.wf(),
    {
        let r = TaggingInspector { inner: ValueInspector::new(), tags: Vec::new(), depth: 0 };
        assert(r@.tags =~= Seq::<bool>::empty());
        r
    }

    /// The call depth, and the number of the next frame: what the hooks need
    /// room for.
    pub fn has_room(&self) -> (r: bool)
        ensures
            r == (i64::MIN < self@.depth < i64::MAX && self@.inner.next < u64::MAX),
    {
        i64::MIN < self.depth && self.depth < i64::MAX && self.inner.next_sequence() < u64::MAX
    }

    /// One level down; whether it is the transaction's own.
    pub fn enter(&mut self) -> (r: bool)
        requires
            old(self)@.depth < i64::MAX,
        ensures
            r == (old(self)@.depth == 0),
            final(self)@ == (TaggedCapture { depth: old(self)@.depth + 1, ..old(self)@ }),
    {
        let top_level = self.depth == 0;
        self.depth = self.depth + 1;
        top_level
    }

    /// Tags the frame that was added since there were `before`, if one was.
    pub fn record(&mut self, before: usize, top_level: bool)
        ensures
            final(self)@ == (TaggedCapture {
                tags: if old(self)@.inner.frames.len() > before {
                    old(self)@.tags.push(top_level)
                } else {
                    old(self)@.tags
                },
                ..old(self)@
            }),
    {
        if self.inner.frame_count() > before {
            self.tags.push(top_level);
        }
    }

    /// A call is entered.
    pub fn call(&mut self, value: CallValue, scheme: CallScheme, caller: Address, target: Address)
        requires
            old(self)@.wf(),
            old(self)@.depth < i64::MAX,
            old(self)@.inner.next < u64::MAX,
        ensures
            final(self)@ == old(self)@.called(value, scheme, caller, target),
            final(self)@.wf(),
    {
        let ghost start = self@;
        let before: usize = self.inner.frame_count();
        let top_level = self.enter();
        self.inner.call(value, scheme, caller, target);
        self.record(before, top_level);
        proof {
            let end = start.called(value, scheme, caller, target);
            assert(self@.tags =~= end.tags);
        }
    }

    /// A call ended.
    pub fn call_end(&mut self, ok: bool)
        requires
            old(self)@.wf(),
            old(self)@.depth > i64::MIN,
        ensures
            final(self)@ == old(self)@.call_ended(ok),
            final(self)@.wf(),
    {
        let ghost start = self@;
        self.inner.call_end(ok);
        self.tags.truncate(self.inner.frame_count());
        self.depth = self.depth - 1;
        proof {
            assert(self@.tags =~= start.call_ended(ok).tags);
        }
    }

    /// A creation is entered.
    pub fn create(&mut self)
        requires
            old(self)@.wf(),
            old(self)@.depth < i64::MAX,
        ensures
            final(self)@ == old(self)@.creating(),
            final(self)@.wf(),
    {
        self.enter();
        self.inner.create();
    }

    /// A creation ended.
    pub fn create_end(
        &mut self,
        value: U256,
        scheme: CreateScheme,
        caller: Address,
        address: Option<Address>,
        ok: bool,
    )
        requires
            old(self)@.wf(),
            old(self)@.depth > i64::MIN,
            old(self)@.inner.next < u64::MAX,
        ensures
            final(self)@ == old(self)@.created(value, scheme, caller, address, ok),
            final(self)@.wf(),
    {
        let ghost start = self@;
        let before: usize = self.inner.frame_count();
        let top_level = self.depth == 1;
        self.inner.create_end(value, scheme, caller, address, ok);
        self.record(before, top_level);
        self.tags.truncate(self.inner.frame_count());
        self.depth = self.depth - 1;
        proof {
            assert(self@.tags =~= start.created(value, scheme, caller, address, ok).tags);
        }
    }

    /// A contract destroyed itself. Such a movement is never the transaction's
    /// own.
    pub fn selfdestruct(&mut self, contract: Address, target: Address, value: U256)
        requires
            old(self)@.wf(),
            old(self)@.inner.next < u64::MAX,
        ensures
            final(self)@ == old(self)@.destroyed(contract, target, value),
            final(self)@.wf(),
    {
        let ghost start = self@;
        let before: usize = self.inner.frame_count();
        self.inner.selfdestruct(contract, target, value);
        self.record(before, false);
        proof {
            assert(self@.tags =~= start.destroyed(contract, target, value).tags);
        }
    }

    /// The kept frames with their tags, for transaction `tx_index`.
    pub fn into_tagged(self, tx_index: usize) -> (r: Vec<TaggedFrame>)
        requires
            self@.wf(),
        ensures
            tagged_view(r@) == self@.tagged(tx_index as nat),
    {
        let ghost whole = self@;
        let tags = self.tags;
        let frames = self.inner.into_frames();
        let mut r: Vec<TaggedFrame> = Vec::new();
        let mut k: usize = 0;
        assert(tagged_view(r@) =~= whole.tagged(tx_index as nat).take(0));
        while k < frames.len()
            invariant
                k <= frames@.len(),
                inspector::frames_view(frames@) == whole.inner.frames,
                tags@ == whole.tags,
                whole.wf(),
                tagged_view(r@) == whole.tagged(tx_index as nat).take(k as int),
            decreases frames@.len() - k,
        {
            let f = &frames[k];
            let frame = CapturedFrame {
                from: f.from,
                to: f.to,
                value: f.value,
                kind: f.kind,
                trace_path: f.trace_path.clone(),
            };
            proof {
                assert(frames@.len() == whole.inner.frames.len());
                assert(frame@ == whole.inner.frames[k as int]);
            }
            let ghost before = r@;
            r.push(TaggedFrame { frame, tx_index, top_level: tags[k] });
            proof {
                assert(tagged_view(r@) =~= tagged_view(before).push(r@[k as int]@));
                assert(whole.tagged(tx_index as nat).take(k + 1) =~= whole.tagged(
                    tx_index as nat,
                ).take(k as int).push(whole.tagged(tx_index as nat)[k as int]));
            }
            k += 1;
        }
        assert(whole.tagged(tx_index as nat).take(k as int) =~= whole.tagged(tx_index as nat));
        r
    }
}

impl Default for TaggingInspector {
    fn default() -> (r: TaggingInspector)
        ensures
            r@ == TaggedCapture::empty(),
            r@.wf(),
    {
        TaggingInspector::new()
    }
}

/// What the EVM reports while it runs a transaction.
pub enum Hook {
    Call { value: CallValue, scheme: CallScheme, caller: Address, target: Address },
    CallEnd { ok: bool },
    Create,
    CreateEnd {
        value: U256,
        scheme: CreateScheme,
        caller: Address,
        address: Option<Address>,
        ok: bool,
    },
    SelfDestruct { contract: Address, target: Address, value: U256 },
}

impl TaggedCapture {
    pub open spec fn hooked(self, h: Hook) -> TaggedCapture {
        match h {
            Hook::Call { value, scheme, caller, target } => self.called(
                value,
                scheme,
                caller,
                target,
            ),
            Hook::CallEnd { ok } => self.call_ended(ok),
            Hook::Create => self.creating(),
            Hook::CreateEnd { value, scheme, caller, address, ok } => self.created(
                value,
                scheme,
                caller,
                address,
                ok,
            ),
            Hook::SelfDestruct { contract, target, value } => self.destroyed(
                contract,
                target,
                value,
            ),
        }
    }

    /// The state after a run of hooks.
    pub open spec fn run(self, hooks: Seq<Hook>) -> TaggedCapture
        decreases hooks.len(),
    {
        if hooks.len() == 0 {
            self
        } else {
            self.run(hooks.drop_last()).hooked(hooks.last())
        }
    }
}

/// The call depth after a run of hooks.
pub open spec fn depth_after(hooks: Seq<Hook>) -> int
    decreases hooks.len(),
{
    if hooks.len() == 0 {
        0
    } else {
        depth_after(hooks.drop_last()) + match hooks.last() {
            Hook::Call { .. } | Hook::Create => 1int,
            Hook::CallEnd { .. } | Hook::CreateEnd { .. } => -1,
            Hook::SelfDestruct { .. } => 0,
        }
    }
}

/// What the EVM reports of one transaction: its own call or creation, and
/// everything else between the two ends of that.
pub open spec fn is_transaction(hooks: Seq<Hook>) -> bool {
    &&& hooks.len() > 0 ==> hooks[0] is Call || hooks[0] is Create
    &&& forall|n: int| 0 < n < hooks.len() ==> depth_after(#[trigger] hooks.take(n)) >= 1
    &&& hooks.len() > 0 && hooks[0] is Call ==> !(hooks.last() is CreateEnd && depth_after(hooks)
        == 0)
}

/// At most one tag is set.
pub open spec fn one_top_level(tags: Seq<bool>) -> bool {
    forall|a: int, b: int| 0 <= a < b < tags.len() ==> !(#[trigger] tags[a] && #[trigger] tags[b])
}

/// A hook keeps a capture well-formed.
pub proof fn lemma_hooked_wf(c: TaggedCapture, h: Hook)
    requires
        c.wf(),
    ensures
        c.hooked(h).wf(),
{
    match h {
        Hook::Call { value, scheme, caller, target } => {
            if let CallValue::Transfer(v) = value {
                inspector::lemma_pushed_wf(
                    c.inner.entered(),
                    FrameMove {
                        from: caller,
                        to: target,
                        value: v,
                        kind: inspector::call_kind(scheme),
                    },
                );
            }
        },
        Hook::CallEnd { ok } => {
            inspector::lemma_exited_wf(c.inner, !ok);
        },
        Hook::Create => {},
        Hook::CreateEnd { value, scheme, caller, address, ok } => {
            let recorded = match address {
                Some(a) => c.inner.pushed(
                    FrameMove {
                        from: caller,
                        to: a,
                        value,
                        kind: inspector::create_kind(scheme),
                    },
                ),
                None => c.inner,
            };
            if let Some(a) = address {
                inspector::lemma_pushed_wf(
                    c.inner,
                    FrameMove {
                        from: caller,
                        to: a,
                        value,
                        kind: inspector::create_kind(scheme),
                    },
                );
            }
            inspector::lemma_exited_wf(recorded, !ok);
        },
        Hook::SelfDestruct { contract, target, value } => {
            inspector::lemma_pushed_wf(
                c.inner,
                FrameMove { from: contract, to: target, value, kind: FrameKind::SelfDestruct },
            );
        },
    }
}

/// While a transaction runs, only its own call is tagged, and stands first.
proof fn lemma_own_call_first(hooks: Seq<Hook>)
    requires
        is_transaction(hooks),
        hooks.len() > 0,
        depth_after(hooks) >= 1 || !(hooks.last() is CreateEnd),
    ensures
        ({
            let c = TaggedCapture::empty().run(hooks);
            &&& c.wf()
            &&& c.depth == depth_after(hooks)
            &&& forall|k: int| 0 <= k < c.tags.len() && #[trigger] c.tags[k] ==> k == 0 && hooks[0] is Call
        }),
    decreases hooks.len(),
{
    let init = hooks.drop_last();
    let b = TaggedCapture::empty().run(init);
    if init.len() == 0 {
        assert(b == TaggedCapture::empty());
        assert(hooks[0] == hooks.last());
    } else {
        assert(init =~= hooks.take(hooks.len() - 1));
        assert(depth_after(hooks.take(hooks.len() - 1)) >= 1);
        assert forall|n: int| 0 < n < init.len() implies depth_after(#[trigger] init.take(n))
            >= 1 by {
            assert(init.take(n) == hooks.take(n));
        }
        assert(init[0] == hooks[0]);
        lemma_own_call_first(init);
    }
    lemma_hooked_wf(b, hooks.last());
}

/// A transaction has at most one frame of its own, also if it was not run to its
/// end, and its capture is well-formed.
pub proof fn a_transaction_has_one_own_frame(hooks: Seq<Hook>)
    requires
        is_transaction(hooks),
    ensures
        TaggedCapture::empty().run(hooks).wf(),
        one_top_level(TaggedCapture::empty().run(hooks).tags),
{
    if hooks.len() > 0 {
        let c = TaggedCapture::empty().run(hooks);
        if depth_after(hooks) >= 1 || !(hooks.last() is CreateEnd) {
            lemma_own_call_first(hooks);
        } else {
            let init = hooks.drop_last();
            let b = TaggedCapture::empty().run(init);
            if init.len() > 0 {
                assert(init =~= hooks.take(hooks.len() - 1));
                assert(depth_after(hooks.take(hooks.len() - 1)) >= 1);
                assert forall|n: int| 0 < n < init.len() implies depth_after(
                    #[trigger] init.take(n),
                ) >= 1 by {
                    assert(init.take(n) == hooks.take(n));
                }
                assert(init[0] == hooks[0]);
                lemma_own_call_first(init);
            }
            lemma_hooked_wf(b, hooks.last());
            assert forall|x: int, y: int| 0 <= x < y < c.tags.len() implies !(
            #[trigger] c.tags[x] && #[trigger] c.tags[y]) by {
                if x < b.tags.len() {
                    assert(c.tags[x] == b.tags[x]);
                }
                if y < b.tags.len() {
                    assert(c.tags[y] == b.tags[y]);
                }
            }
        }
    }
}

/// A run of hooks that ends every call and creation that it enters, and none that
/// was entered before it.
pub open spec fn nested(hooks: Seq<Hook>) -> bool {
    &&& depth_after(hooks) == 0
    &&& forall|n: int| 0 <= n <= hooks.len() ==> depth_after(#[trigger] hooks.take(n)) >= 0
}

/// Whether a hook enters a call or a creation.
pub open spec fn enters(h: Hook) -> bool {
    h is Call || h is Create
}

/// Whether a hook is the end of a call or a creation that failed.
pub open spec fn fails(h: Hook) -> bool {
    match h {
        Hook::CallEnd { ok } => !ok,
        Hook::CreateEnd { ok, .. } => !ok,
        _ => false,
    }
}

/// Inside a call or a creation that was entered at state `c`, a run of hooks leaves
/// what was kept before it, its tags and the frames open around it as they were.
proof fn lemma_hooks_inside(c: TaggedCapture, enter: Hook, hooks: Seq<Hook>)
    requires
        c.wf(),
        enters(enter),
        forall|n: int| 0 <= n <= hooks.len() ==> depth_after(#[trigger] hooks.take(n)) >= 0,
    ensures
        ({
            let d = c.hooked(enter).run(hooks);
            let base = c.inner.marks.len() as int;
            let m = c.inner.frames.len();
            &&& d.wf()
            &&& d.depth == c.depth + 1 + depth_after(hooks)
            &&& d.inner.marks.len() == base + 1 + depth_after(hooks)
            &&& d.inner.marks.take(base + 1) == c.inner.marks.push(m)
            &&& d.inner.frames.len() >= m
            &&& d.inner.frames.take(m as int) == c.inner.frames
            &&& d.tags.take(m as int) == c.tags
            &&& forall|k: int| base <= k < d.inner.marks.len() ==> #[trigger] d.inner.marks[k] >= m
        }),
    decreases hooks.len(),
{
    let base = c.inner.marks.len() as int;
    let m = c.inner.frames.len();
    if hooks.len() == 0 {
        let d = c.hooked(enter);
        lemma_hooked_wf(c, enter);
        assert(d.inner.marks.take(base + 1) =~= c.inner.marks.push(m));
        assert(d.inner.frames.take(m as int) =~= c.inner.frames);
        assert(d.tags.take(m as int) =~= c.tags);
    } else {
        let init = hooks.drop_last();
        assert forall|n: int| 0 <= n <= init.len() implies depth_after(#[trigger] init.take(n))
            >= 0 by {
            assert(init.take(n) == hooks.take(n));
        }
        lemma_hooks_inside(c, enter, init);
        assert(hooks.take(hooks.len() as int) == hooks);
        let b = c.hooked(enter).run(init);
        let d = c.hooked(enter).run(hooks);
        assert(d == b.hooked(hooks.last()));
        lemma_hooked_wf(b, hooks.last());
        if hooks.last() is CallEnd || hooks.last() is CreateEnd {
            assert(b.inner.marks.len() >= base + 2);
            assert(b.inner.marks.last() == b.inner.marks[b.inner.marks.len() - 1]);
        }
        assert(d.inner.marks.take(base + 1) =~= b.inner.marks.take(base + 1));
        assert(d.inner.frames.take(m as int) =~= b.inner.frames.take(m as int));
        assert(d.tags.take(m as int) =~= b.tags.take(m as int));
        assert forall|k: int| base <= k < d.inner.marks.len() implies #[trigger] d.inner.marks[k]
            >= m by {
            if k < b.inner.marks.len() {
                assert(d.inner.marks[k] == b.inner.marks[k]);
            }
        }
    }
}

/// A call or a creation that fails leaves no trace: whatever ran inside it, once it
/// has ended, the kept frames with their tags, the open frames and the depth are
/// those from before it was entered.
pub proof fn a_failure_puts_everything_back(
    c: TaggedCapture,
    enter: Hook,
    inside: Seq<Hook>,
    end: Hook,
)
    requires
        c.wf(),
        enters(enter),
        nested(inside),
        fails(end),
    ensures
        ({
            let d = c.run(seq![enter] + inside + seq![end]);
            &&& d.inner.frames == c.inner.frames
            &&& d.inner.marks == c.inner.marks
            &&& d.tags == c.tags
            &&& d.depth == c.depth
        }),
{
    let b = c.hooked(enter).run(inside);
    let d = b.hooked(end);
    let base = c.inner.marks.len() as int;
    let m = c.inner.frames.len() as int;
    lemma_hooks_inside(c, enter, inside);
    lemma_run_around(c, enter, inside, end);
    assert(b.inner.marks.take(base + 1) =~= b.inner.marks);
    assert(b.inner.marks.last() == m);
    assert(d.inner.marks =~= c.inner.marks);
    assert(d.inner.frames =~= b.inner.frames.take(m));
    assert(d.tags =~= b.tags.take(m));
}

/// A call that succeeds keeps what ran inside it, with its tags, and closes itself.
pub proof fn a_successful_call_keeps_what_ran_inside(
    c: TaggedCapture,
    enter: Hook,
    inside: Seq<Hook>,
)
    requires
        c.wf(),
        enters(enter),
        nested(inside),
    ensures
        ({
            let b = c.run(seq![enter] + inside);
            let d = c.run(seq![enter] + inside + seq![Hook::CallEnd { ok: true }]);
            &&& d.inner.frames == b.inner.frames
            &&& d.tags == b.tags
            &&& d.inner.marks == c.inner.marks
            &&& d.depth == c.depth
            &&& d.inner.frames.take(c.inner.frames.len() as int) == c.inner.frames
            &&& d.tags.take(c.tags.len() as int) == c.tags
        }),
{
    let end = Hook::CallEnd { ok: true };
    let b = c.hooked(enter).run(inside);
    let base = c.inner.marks.len() as int;
    lemma_hooks_inside(c, enter, inside);
    lemma_run_around(c, enter, inside, end);
    assert(b.inner.marks.take(base + 1) =~= b.inner.marks);
    assert(b.hooked(end).inner.marks =~= c.inner.marks);
    assert(b.hooked(end).tags =~= b.tags);
}

/// A run that is entered and ended, step by step.
proof fn lemma_run_around(c: TaggedCapture, enter: Hook, inside: Seq<Hook>, end: Hook)
    ensures
        c.run(seq![enter] + inside) == c.hooked(enter).run(inside),
        c.run(seq![enter] + inside + seq![end]) == c.hooked(enter).run(inside).hooked(end),
    decreases inside.len(),
{
    let start = seq![enter] + inside;
    let whole = start + seq![end];
    assert(whole.drop_last() =~= start);
    assert(whole.last() == end);
    if inside.len() == 0 {
        assert(start =~= seq![enter]);
        assert(start.drop_last() =~= Seq::<Hook>::empty());
        assert(c.run(start.drop_last()) == c);
        assert(start.last() == enter);
    } else {
        lemma_run_around(c, enter, inside.drop_last(), end);
        assert(start.drop_last() =~= seq![enter] + inside.drop_last());
        assert(start.last() == inside.last());
    }
    assert(c.run(whole) == c.run(start).hooked(end));
}

/// The tagged frames of the first `n` transactions, one after the other.
pub open spec fn frames_of(captures: Seq<TaggedCapture>, n: nat) -> Seq<Tagged>
    decreases n,
{
    if n == 0 {
        Seq::empty()
    } else {
        frames_of(captures, (n - 1) as nat) + captures[n - 1].tagged((n - 1) as nat)
    }
}

/// The capture of a block from its transactions' hashes, their receipts'
/// outcomes and their captures. A transaction without a receipt counts as not
/// failed.
pub open spec fn block_capture(
    tx_hashes: Seq<B256>,
    succeeded: Seq<bool>,
    captures: Seq<TaggedCapture>,
) -> BlockCapture {
    BlockCapture {
        frames: frames_of(captures, captures.len()),
        tx_hashes: Seq::new(tx_hashes.len(), |i: int| Some(tx_hashes[i])),
        tx_reverted: Seq::new(tx_hashes.len(), |i: int| i < succeeded.len() && !succeeded[i]),
    }
}

/// The states of inspectors, in order.
pub open spec fn inspectors_view(inspectors: Seq<TaggingInspector>) -> Seq<TaggedCapture> {
    Seq::new(inspectors.len(), |i: int| inspectors[i]@)
}

/// Puts together the capture of a block that was re-executed transaction by
/// transaction.
pub fn assemble_capture(
    tx_hashes: &[B256],
    succeeded: &[bool],
    inspectors: Vec<TaggingInspector>,
) -> (r: Captured)
    requires
        forall|i: int| 0 <= i < inspectors@.len() ==> (#[trigger] inspectors@[i])@.wf(),
    ensures
        r@ == block_capture(tx_hashes@, succeeded@, inspectors_view(inspectors@)),
{
    let ghost captures = inspectors_view(inspectors@);
    let mut hashes: Vec<Option<B256>> = Vec::new();
    let mut reverted: Vec<bool> = Vec::new();
    let mut i: usize = 0;
    while i < tx_hashes.len()
        invariant
            i <= tx_hashes@.len(),
            hashes@ == Seq::new(i as nat, |k: int| Some(tx_hashes@[k])),
            reverted@ == Seq::new(i as nat, |k: int| k < succeeded@.len() && !succeeded@[k]),
        decreases tx_hashes@.len() - i,
    {
        hashes.push(Some(tx_hashes[i]));
        reverted.push(i < succeeded.len() && !succeeded[i]);
        i += 1;
    }
    let mut frames: Vec<TaggedFrame> = Vec::new();
    let mut tx: usize = 0;
    let total: usize = inspectors.len();
    let mut rest = inspectors;
    assert(tagged_view(frames@) =~= frames_of(captures, 0));
    while rest.len() > 0
        invariant
            rest@ == inspectors@.skip(tx as int),
            tx <= total == inspectors@.len(),
            captures == inspectors_view(inspectors@),
            tagged_view(frames@) == frames_of(captures, tx as nat),
            forall|i: int| 0 <= i < inspectors@.len() ==> (#[trigger] inspectors@[i])@.wf(),
        decreases rest@.len(),
    {
        let insp = rest.remove(0);
        assert(insp == inspectors@[tx as int]);
        assert(insp@ == captures[tx as int]);
        let mut tagged = insp.into_tagged(tx);
        let ghost a = frames@;
        let ghost b = tagged@;
        frames.append(&mut tagged);
        proof {
            assert(tagged_view(frames@) =~= tagged_view(a) + tagged_view(b));
            assert(rest@ =~= inspectors@.skip(tx + 1));
        }
        tx += 1;
    }
    let r = Captured { frames, tx_hashes: hashes, tx_reverted: reverted };
    proof {
        let c = block_capture(tx_hashes@, succeeded@, captures);
        assert(r@.tx_hashes =~= c.tx_hashes);
        assert(r@.tx_reverted =~= c.tx_reverted);
    }
    r
}

/// An account as the blocks before this one left it: whether it still exists
/// and, if so, the hash of its code and whether the code came along; whether they
/// destroyed it, though it may have come back since; and how many of its storage
/// slots they wrote.
#[derive(Clone, Copy, Debug)]
pub struct PriorAccount {
    pub info: Option<PriorCode>,
    pub destroyed: bool,
    pub slots: usize,
}

#[derive(Clone, Copy, Debug)]
pub struct PriorCode {
    pub code_hash: B256,
    pub has_code: bool,
}

/// A write that puts an earlier block's effect on top of the parent state.
/// Accounts, slots and contracts are named by their place.
#[derive(Clone, Copy, Debug, PartialEq, Eq, Structural)]
pub enum PrestateWrite {
    /// Write an account's state, with the code of a contract where its own code
    /// did not come along.
    Account { account: usize, code_from: Option<usize> },
    /// Make an account absent, with all of its slots.
    Gone { account: usize },
    /// Make every slot of an account zero.
    Cleared { account: usize },
    /// Write a storage slot's present value.
    Storage { account: usize, slot: usize },
}

/// The hash of no code.
pub open spec fn empty_code_hash() -> B256 {
    B256 {
        word: U256 {
            l3: 0xc5d2_4601_86f7_233c,
            l2: 0x927e_7db2_dcc7_03c0,
            l1: 0xe500_b653_ca82_273b,
            l0: 0x7bfa_d804_5d85_a470,
        },
    }
}

pub fn keccak_empty() -> (r: B256)
    ensures
        r == empty_code_hash(),
{
    B256 {
        word: U256 {
            l3: 0xc5d2_4601_86f7_233c,
            l2: 0x927e_7db2_dcc7_03c0,
            l1: 0xe500_b653_ca82_273b,
            l0: 0x7bfa_d804_5d85_a470,
        },
    }
}

/// The first place of a hash among the contracts, from `from` on.
pub open spec fn place_of(contracts: Seq<B256>, hash: B256, from: nat) -> Option<usize>
    decreases contracts.len() - from,
{
    if from >= contracts.len() {
        None
    } else if contracts[from as int] == hash {
        Some(from as usize)
    } else {
        place_of(contracts, hash, from + 1)
    }
}

/// Where the code of an account comes from: it needs none if it came along or
/// there is no code.
pub open spec fn code_source(info: PriorCode, contracts: Seq<B256>) -> Option<usize> {
    if !info.has_code && info.code_hash != empty_code_hash() {
        place_of(contracts, info.code_hash, 0)
    } else {
        None
    }
}

/// The writes for the first `n` slots of an account.
pub open spec fn slot_writes(account: usize, n: nat) -> Seq<PrestateWrite> {
    Seq::new(n, |s: int| PrestateWrite::Storage { account, slot: s as usize })
}

/// The writes for one account: that it is gone, if it no longer exists; otherwise
/// its state and each slot, after the slots of an account that was destroyed in
/// its place are cleared.
pub open spec fn account_writes(
    account: usize,
    prior: PriorAccount,
    contracts: Seq<B256>,
) -> Seq<PrestateWrite> {
    match prior.info {
        Some(info) => {
            let state = seq![
                PrestateWrite::Account { account, code_from: code_source(info, contracts) },
            ];
            let cleared = if prior.destroyed {
                seq![PrestateWrite::Cleared { account }]
            } else {
                Seq::empty()
            };
            state + cleared + slot_writes(account, prior.slots as nat)
        },
        None => seq![PrestateWrite::Gone { account }],
    }
}

/// The writes for the first `n` accounts.
pub open spec fn overlay_writes(
    accounts: Seq<PriorAccount>,
    contracts: Seq<B256>,
    n: nat,
) -> Seq<PrestateWrite>
    decreases n,
{
    if n == 0 {
        Seq::empty()
    } else {
        overlay_writes(accounts, contracts, (n - 1) as nat) + account_writes(
            (n - 1) as usize,
            accounts[n - 1],
            contracts,
        )
    }
}

/// The block whose state lies under a block's own, if there is one.
pub fn prior_block(block_number: u64) -> (r: Option<u64>)
    ensures
        r == (if block_number > 0 { Some((block_number - 1) as u64) } else { None::<u64> }),
{
    if block_number > 0 {
        Some(block_number - 1)
    } else {
        None
    }
}

fn find_code(contracts: &[B256], hash: B256) -> (r: Option<usize>)
    ensures
        r == place_of(contracts@, hash, 0),
{
    let mut i: usize = 0;
    while i < contracts.len()
        invariant
            i <= contracts@.len(),
            place_of(contracts@, hash, 0) == place_of(contracts@, hash, i as nat),
        decreases contracts@.len() - i,
    {
        if contracts[i] == hash {
            return Some(i);
        }
        i += 1;
    }
    None
}

/// The writes that put the effect of a chain's blocks before this one on top of
/// the state of the chain's parent, given what those blocks left behind.
pub fn build_prestate_cache(accounts: &[PriorAccount], contracts: &[B256]) -> (r: Vec<
    PrestateWrite,
>)
    ensures
        r@ == overlay_writes(accounts@, contracts@, accounts@.len()),
{
    let mut r: Vec<PrestateWrite> = Vec::new();
    let mut i: usize = 0;
    while i < accounts.len()
        invariant
            i <= accounts@.len(),
            r@ == overlay_writes(accounts@, contracts@, i as nat),
        decreases accounts@.len() - i,
    {
        let ghost done = r@;
        let prior = accounts[i];
        match prior.info {
            None => {
                r.push(PrestateWrite::Gone { account: i });
            },
            Some(info) => {
                let code_from = if !info.has_code && info.code_hash != keccak_empty() {
                    find_code(contracts, info.code_hash)
                } else {
                    None
                };
                r.push(PrestateWrite::Account { account: i, code_from });
                if prior.destroyed {
                    r.push(PrestateWrite::Cleared { account: i });
                }
                let ghost state = r@;
                let mut s: usize = 0;
                while s < prior.slots
                    invariant
                        s <= prior.slots,
                        r@ == state + slot_writes(i, s as nat),
                    decreases prior.slots - s,
                {
                    r.push(PrestateWrite::Storage { account: i, slot: s });
                    proof {
                        assert(slot_writes(i, (s + 1) as nat) =~= slot_writes(i, s as nat).push(
                            PrestateWrite::Storage { account: i, slot: s },
                        ));
                    }
                    s += 1;
                }
            },
        }
        proof {
            assert(r@ =~= done + account_writes(i, prior, contracts@));
        }
        i += 1;
    }
    r
}

/// What an account reads as once writes are done: as in the parent state where
/// none concerns it.
pub enum AccountReading {
    Parent,
    Absent,
    Written { code_from: Option<usize> },
}

/// What a slot reads as once writes are done.
pub enum SlotReading {
    Parent,
    Zero,
    Written,
}

/// What an account reads as after these writes.
pub open spec fn account_reading(writes: Seq<PrestateWrite>, account: usize) -> AccountReading
    decreases writes.len(),
{
    if writes.len() == 0 {
        AccountReading::Parent
    } else {
        match writes.last() {
            PrestateWrite::Account { account: a, code_from } if a == account => {
                AccountReading::Written { code_from }
            },
            PrestateWrite::Gone { account: a } if a == account => AccountReading::Absent,
            _ => account_reading(writes.drop_last(), account),
        }
    }
}

/// What a slot of an account reads as after these writes.
pub open spec fn slot_reading(writes: Seq<PrestateWrite>, account: usize, slot: usize) -> SlotReading
    decreases writes.len(),
{
    if writes.len() == 0 {
        SlotReading::Parent
    } else {
        match writes.last() {
            PrestateWrite::Storage { account: a, slot: s } if a == account && s == slot => {
                SlotReading::Written
            },
            PrestateWrite::Gone { account: a } if a == account => SlotReading::Zero,
            PrestateWrite::Cleared { account: a } if a == account => SlotReading::Zero,
            _ => slot_reading(writes.drop_last(), account, slot),
        }
    }
}

/// Later writes count.
proof fn lemma_readings_concat(
    a: Seq<PrestateWrite>,
    b: Seq<PrestateWrite>,
    account: usize,
    slot: usize,
)
    ensures
        account_reading(a + b, account) == (if account_reading(b, account) is Parent {
            account_reading(a, account)
        } else {
            account_reading(b, account)
        }),
        slot_reading(a + b, account, slot) == (if slot_reading(b, account, slot) is Parent {
            slot_reading(a, account, slot)
        } else {
            slot_reading(b, account, slot)
        }),
    decreases b.len(),
{
    if b.len() == 0 {
        assert(a + b =~= a);
    } else {
        assert((a + b).drop_last() =~= a + b.drop_last());
        lemma_readings_concat(a, b.drop_last(), account, slot);
    }
}

proof fn lemma_slot_readings(writer: usize, n: nat, account: usize, slot: usize)
    requires
        n <= usize::MAX,
    ensures
        account_reading(slot_writes(writer, n), account) is Parent,
        slot_reading(slot_writes(writer, n), account, slot) == (if account == writer && slot < n {
            SlotReading::Written
        } else {
            SlotReading::Parent
        }),
    decreases n,
{
    if n > 0 {
        let m = (n - 1) as nat;
        assert(slot_writes(writer, n).drop_last() =~= slot_writes(writer, m));
        lemma_slot_readings(writer, m, account, slot);
    }
}

/// What the earlier blocks left of an account.
pub open spec fn account_left(prior: PriorAccount, contracts: Seq<B256>) -> AccountReading {
    match prior.info {
        Some(info) => AccountReading::Written { code_from: code_source(info, contracts) },
        None => AccountReading::Absent,
    }
}

/// What the earlier blocks left of a slot of an account.
pub open spec fn slot_left(prior: PriorAccount, slot: usize) -> SlotReading {
    if prior.info is None {
        SlotReading::Zero
    } else if slot < prior.slots {
        SlotReading::Written
    } else if prior.destroyed {
        SlotReading::Zero
    } else {
        SlotReading::Parent
    }
}

proof fn lemma_account_readings(
    writer: usize,
    prior: PriorAccount,
    contracts: Seq<B256>,
    account: usize,
    slot: usize,
)
    ensures
        account_reading(account_writes(writer, prior, contracts), account) == (if account == writer {
            account_left(prior, contracts)
        } else {
            AccountReading::Parent
        }),
        slot_reading(account_writes(writer, prior, contracts), account, slot) == (if account
            == writer {
            slot_left(prior, slot)
        } else {
            SlotReading::Parent
        }),
{
    let writes = account_writes(writer, prior, contracts);
    match prior.info {
        Some(info) => {
            let state = seq![
                PrestateWrite::Account { account: writer, code_from: code_source(info, contracts) },
            ];
            let cleared = if prior.destroyed {
                seq![PrestateWrite::Cleared { account: writer }]
            } else {
                Seq::empty()
            };
            let slots = slot_writes(writer, prior.slots as nat);
            assert(state.drop_last() =~= Seq::empty());
            assert(cleared.len() > 0 ==> cleared.drop_last() =~= Seq::empty());
            lemma_slot_readings(writer, prior.slots as nat, account, slot);
            lemma_readings_concat(state, cleared, account, slot);
            lemma_readings_concat(state + cleared, slots, account, slot);
            reveal_with_fuel(account_reading, 2);
            reveal_with_fuel(slot_reading, 2);
        },
        None => {
            assert(writes.drop_last() =~= Seq::empty());
            reveal_with_fuel(account_reading, 2);
            reveal_with_fuel(slot_reading, 2);
        },
    }
}

proof fn lemma_overlay_readings(
    accounts: Seq<PriorAccount>,
    contracts: Seq<B256>,
    n: nat,
    account: usize,
    slot: usize,
)
    requires
        n <= accounts.len() <= usize::MAX,
    ensures
        account_reading(overlay_writes(accounts, contracts, n), account) == (if account < n {
            account_left(accounts[account as int], contracts)
        } else {
            AccountReading::Parent
        }),
        slot_reading(overlay_writes(accounts, contracts, n), account, slot) == (if account < n {
            slot_left(accounts[account as int], slot)
        } else {
            SlotReading::Parent
        }),
    decreases n,
{
    if n > 0 {
        let m = (n - 1) as nat;
        lemma_overlay_readings(accounts, contracts, m, account, slot);
        lemma_account_readings(m as usize, accounts[m as int], contracts, account, slot);
        lemma_readings_concat(
            overlay_writes(accounts, contracts, m),
            account_writes(m as usize, accounts[m as int], contracts),
            account,
            slot,
        );
    }
}

/// The state before a block reads as the chain's earlier blocks left it: an
/// account that they destroyed is absent, and so are its slots; one that they
/// wrote, and each slot that they wrote, is as they wrote it last; the slots of an
/// account that replaced a destroyed one are otherwise zero. Everything else is as
/// in the parent state.
pub proof fn the_state_before_a_block_is_as_it_was_left(
    accounts: Seq<PriorAccount>,
    contracts: Seq<B256>,
    account: usize,
    slot: usize,
)
    requires
        accounts.len() <= usize::MAX,
    ensures
        ({
            let writes = overlay_writes(accounts, contracts, accounts.len());
            &&& account_reading(writes, account) == if account < accounts.len() {
                account_left(accounts[account as int], contracts)
            } else {
                AccountReading::Parent
            }
            &&& slot_reading(writes, account, slot) == if account < accounts.len() {
                slot_left(accounts[account as int], slot)
            } else {
                SlotReading::Parent
            }
        }),
{
    lemma_overlay_readings(accounts, contracts, accounts.len(), account, slot);
}

/// The frame of a call is the transaction's own exactly at depth zero, and the frame
/// of a creation exactly if the creation was entered at depth zero; a self-destruct
/// is never the transaction's own. Frames that were there before keep their tags.
pub proof fn only_the_outermost_movement_is_the_transactions_own(
    c: TaggedCapture,
    value: U256,
    a: Address,
    b: Address,
    call: CallScheme,
    create: CreateScheme,
)
    requires
        c.wf(),
        value@ > 0,
        c.inner.marks.len() > 0,
    ensures
        ({
            let d = c.called(CallValue::Transfer(value), call, a, b);
            &&& d.tags == c.tags.push(c.depth == 0)
            &&& d.depth == c.depth + 1
            &&& d.inner == c.inner.called(CallValue::Transfer(value), call, a, b)
        }),
        ({
            let d = c.created(value, create, a, Some(b), true);
            &&& d.tags == c.tags.push(c.depth == 1)
            &&& d.depth == c.depth - 1
            &&& d.inner == c.inner.created(value, create, a, Some(b), true)
        }),
        ({
            let d = c.destroyed(a, b, value);
            &&& d.tags == c.tags.push(false)
            &&& d.depth == c.depth
            &&& d.inner == c.inner.destroyed(a, b, value)
        }),
        c.creating().depth == c.depth + 1,
        c.creating().tags == c.tags,
        c.creating().inner.frames == c.inner.frames,
        c.call_ended(true).depth == c.depth - 1,
        c.call_ended(true).tags == c.tags,
        c.call_ended(true).inner.frames == c.inner.frames,
{
    assert(c.call_ended(true).tags =~= c.tags);
}

/// Where the frames of a transaction begin among those of a block.
pub open spec fn frames_before(captures: Seq<TaggedCapture>, n: nat) -> nat
    decreases n,
{
    if n == 0 {
        0
    } else {
        frames_before(captures, (n - 1) as nat) + captures[n - 1].inner.frames.len()
    }
}

pub(crate) proof fn lemma_frames_of(captures: Seq<TaggedCapture>, n: nat, t: int, k: int)
    requires
        n <= captures.len(),
        0 <= t < n,
        0 <= k < captures[t].inner.frames.len(),
    ensures
        frames_of(captures, n).len() == frames_before(captures, n),
        frames_before(captures, t as nat) + k < frames_before(captures, n),
        frames_of(captures, n)[frames_before(captures, t as nat) + k] == (Tagged {
            frame: captures[t].inner.frames[k],
            tx_index: t as nat,
            top_level: captures[t].tags[k],
        }),
    decreases n,
{
    let m = (n - 1) as nat;
    lemma_frames_len(captures, n);
    lemma_frames_len(captures, m);
    if t < m {
        lemma_frames_of(captures, m, t, k);
    }
}

proof fn lemma_frames_len(captures: Seq<TaggedCapture>, n: nat)
    requires
        n <= captures.len(),
    ensures
        frames_of(captures, n).len() == frames_before(captures, n),
    decreases n,
{
    if n > 0 {
        lemma_frames_len(captures, (n - 1) as nat);
    }
}

/// The capture of a block holds every frame that its transactions kept and no other,
/// transaction by transaction and in their order, each with its own transaction and
/// tag; each transaction has its own hash, and counts as failed exactly if its
/// receipt says so.
pub proof fn a_block_capture_holds_every_kept_frame(
    tx_hashes: Seq<B256>,
    succeeded: Seq<bool>,
    captures: Seq<TaggedCapture>,
)
    ensures
        ({
            let c = block_capture(tx_hashes, succeeded, captures);
            &&& c.frames.len() == frames_before(captures, captures.len())
            &&& forall|t: int, k: int|
                0 <= t < captures.len() && 0 <= k < captures[t].inner.frames.len() ==> {
                    let f = c.frames[frames_before(captures, t as nat) + k];
                    &&& f.frame == #[trigger] captures[t].inner.frames[k]
                    &&& f.tx_index == t
                    &&& f.top_level == captures[t].tags[k]
                }
            &&& c.tx_hashes.len() == tx_hashes.len()
            &&& c.tx_reverted.len() == tx_hashes.len()
            &&& forall|t: int|
                0 <= t < tx_hashes.len() ==> #[trigger] c.tx_hashes[t] == Some(tx_hashes[t])
            &&& forall|t: int|
                0 <= t < tx_hashes.len() && t < succeeded.len() ==> #[trigger] c.tx_reverted[t]
                    == !succeeded[t]
            &&& forall|t: int|
                succeeded.len() <= t < tx_hashes.len() ==> !(#[trigger] c.tx_reverted[t])
        }),
{
    let c = block_capture(tx_hashes, succeeded, captures);
    lemma_frames_len(captures, captures.len());
    assert forall|t: int, k: int|
        0 <= t < captures.len() && 0 <= k < captures[t].inner.frames.len() implies {
            let f = c.frames[frames_before(captures, t as nat) + k];
            &&& f.frame == #[trigger] captures[t].inner.frames[k]
            &&& f.tx_index == t
            &&& f.top_level == captures[t].tags[k]
        } by {
        lemma_frames_of(captures, captures.len(), t, k);
    }
}

/// The code that is laid under an account is the code of its hash; it is left out
/// only where the account brings its code, has none, or no contract has its hash.
pub proof fn the_code_of_an_account_is_the_one_of_its_hash(info: PriorCode, contracts: Seq<B256>)
    requires
        contracts.len() <= usize::MAX,
    ensures
        match code_source(info, contracts) {
            Some(place) => place < contracts.len() && contracts[place as int] == info.code_hash
                && !info.has_code && info.code_hash != empty_code_hash(),
            None => info.has_code || info.code_hash == empty_code_hash() || !contracts.contains(
                info.code_hash,
            ),
        },
{
    lemma_place_of(contracts, info.code_hash, 0);
}

proof fn lemma_place_of(contracts: Seq<B256>, hash: B256, from: nat)
    requires
        from <= contracts.len() <= usize::MAX,
    ensures
        match place_of(contracts, hash, from) {
            Some(place) => from <= place < contracts.len() && contracts[place as int] == hash,
            None => forall|k: int| from <= k < contracts.len() ==> #[trigger] contracts[k] != hash,
        },
    decreases contracts.len() - from,
{
    if from < contracts.len() && contracts[from as int] != hash {
        lemma_place_of(contracts, hash, from + 1);
    }
}

/// What the writes leave to be read: an account that is gone reads as absent and all
/// its slots as zero; one that is there reads as written, each written slot too, and
/// its other slots as in the parent state unless it replaced a destroyed one, when
/// they are zero. What no earlier block touched is as in the parent state.
pub proof fn earlier_blocks_are_read_back(
    accounts: Seq<PriorAccount>,
    contracts: Seq<B256>,
    account: usize,
    slot: usize,
)
    requires
        accounts.len() <= usize::MAX,
    ensures
        ({
            let writes = overlay_writes(accounts, contracts, accounts.len());
            let known = account < accounts.len();
            let a = accounts[account as int];
            &&& known && a.info is None ==> account_reading(writes, account)
                == AccountReading::Absent && slot_reading(writes, account, slot)
                == SlotReading::Zero
            &&& known && a.info is Some ==> account_reading(writes, account) is Written
            &&& known && a.info is Some && slot < a.slots ==> slot_reading(writes, account, slot)
                == SlotReading::Written
            &&& known && a.info is Some && slot >= a.slots && a.destroyed ==> slot_reading(
                writes,
                account,
                slot,
            ) == SlotReading::Zero
            &&& known && a.info is Some && slot >= a.slots && !a.destroyed ==> slot_reading(
                writes,
                account,
                slot,
            ) == SlotReading::Parent
            &&& !known ==> account_reading(writes, account) == AccountReading::Parent
                && slot_reading(writes, account, slot) == SlotReading::Parent
        }),
{
    lemma_overlay_readings(accounts, contracts, accounts.len(), account, slot);
}

} // verus!
