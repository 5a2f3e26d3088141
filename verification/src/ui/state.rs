//! Render-time dependency tracking. A component's signal is invalidated when a
//! value it read changes; readers are held weakly, so a reader that unmounted
//! or rendered again since it subscribed is skipped and dropped.
//!
//! Signals live in a table indexed by key. An entry is `None` once the signal
//! itself is gone, which is what a failed weak upgrade observes.
use vstd::prelude::*;
use crate::editing::buffer::vec_capacity;

verus! {

/// What a signal invalidates.
#[derive(Debug, Clone, Copy, PartialEq, Eq, Structural)]
pub enum SignalTarget {
    /// A component, rerun from the update queue.
    Component(u64),
    /// A retained widget, repainted through its invalidator.
    Widget,
}

/// One reader's invalidation channel.
#[derive(Debug, Clone, Copy, PartialEq, Eq, Structural)]
pub struct Signal {
    pub target: SignalTarget,
    pub mounted: bool,
    /// Already queued for the next flush.
    pub dirty: bool,
    /// Bumped on every render; older subscriptions no longer count.
    pub epoch: u64,
}

/// What the caller does after an invalidation.
#[derive(Debug, Clone, Copy, PartialEq, Eq, Structural)]
pub enum Invalidated {
    Ignored,
    /// Repaint the widget.
    Repaint,
    /// Put the component on the queue, if the queue still exists.
    Enqueue { id: u64, context: bool },
}

/// The signal after an invalidation, and what the caller does.
pub open spec fn invalidated(s: Signal, context: bool) -> (Signal, Invalidated) {
    if !s.mounted {
        (s, Invalidated::Ignored)
    } else {
        match s.target {
            SignalTarget::Widget => (s, Invalidated::Repaint),
            SignalTarget::Component(id) => {
                let next = Signal { dirty: true, ..s };
                // A context update must reach this flush even when the reader
                // was already queued as ordinary next-batch work.
                if s.dirty && !context {
                    (next, Invalidated::Ignored)
                } else {
                    (next, Invalidated::Enqueue { id, context })
                }
            },
        }
    }
}

impl Signal {
    /// A mounted component signal that has not rendered yet.
    pub fn component(id: u64) -> (s: Signal)
        ensures
            s == (Signal { target: SignalTarget::Component(id), mounted: true, dirty: false, epoch: 0 }),
    {
        Signal { target: SignalTarget::Component(id), mounted: true, dirty: false, epoch: 0 }
    }

    /// A mounted widget signal.
    pub fn widget() -> (s: Signal)
        ensures
            s == (Signal { target: SignalTarget::Widget, mounted: true, dirty: false, epoch: 0 }),
    {
        Signal { target: SignalTarget::Widget, mounted: true, dirty: false, epoch: 0 }
    }

    /// Starts a render: the reader is no longer queued, and subscriptions
    /// taken before now stop counting.
    pub fn begin_render(&mut self)
        requires
            old(self).epoch < u64::MAX,
        ensures
            *final(self) == (Signal { dirty: false, epoch: (old(self).epoch + 1) as u64, ..*old(self) }),
    {
        self.dirty = false;
        self.epoch = self.epoch + 1;
    }

    /// Marks the reader changed; says whether to repaint or to queue it.
    pub fn invalidate(&mut self, context: bool) -> (r: Invalidated)
        ensures
            (*final(self), r) == invalidated(*old(self), context),
    {
        if !self.mounted {
            return Invalidated::Ignored;
        }
        match self.target {
            SignalTarget::Widget => Invalidated::Repaint,
            SignalTarget::Component(id) => {
                let was_dirty = self.dirty;
                self.dirty = true;
                if was_dirty && !context {
                    Invalidated::Ignored
                } else {
                    Invalidated::Enqueue { id, context }
                }
            },
        }
    }
}

/// Components to rerun: the ordinary batch and the context wave.
#[derive(Debug)]
pub struct UpdateQueue {
    pub pending: Vec<u64>,
    pub contexts: Vec<u64>,
}

impl UpdateQueue {
    pub fn new() -> (q: UpdateQueue)
        ensures
            q.pending@.len() == 0,
            q.contexts@.len() == 0,
    {
        UpdateQueue { pending: Vec::new(), contexts: Vec::new() }
    }

    /// Queues a component; true when the queue was empty, so the event loop
    /// must be woken.
    pub fn enqueue(&mut self, id: u64, context: bool) -> (wake: bool)
        ensures
            wake == (old(self).pending@.len() == 0 && old(self).contexts@.len() == 0),
            final(self).pending@ == if context { old(self).pending@ } else { old(self).pending@.push(id) },
            final(self).contexts@ == if context { old(self).contexts@.push(id) } else { old(self).contexts@ },
    {
        let wake = self.pending.len() == 0 && self.contexts.len() == 0;
        if context {
            self.contexts.push(id);
        } else {
            self.pending.push(id);
        }
        wake
    }
}

/// A weak subscription: the signal's key and the epoch it was taken in.
#[derive(Debug, Clone, Copy, PartialEq, Eq, Structural)]
pub struct Subscription {
    pub signal: usize,
    pub epoch: u64,
}

/// Whether the subscribed signal still exists, is mounted, and has not
/// rendered since.
pub open spec fn sub_active(s: Subscription, signals: Seq<Option<Signal>>) -> bool {
    &&& s.signal < signals.len()
    &&& signals[s.signal as int] matches Some(sig)
    &&& sig.mounted
    &&& sig.epoch == s.epoch
}

impl Subscription {
    pub fn active(&self, signals: &Vec<Option<Signal>>) -> (r: bool)
        ensures
            r == sub_active(*self, signals@),
    {
        if self.signal >= signals.len() {
            return false;
        }
        match signals[self.signal] {
            Some(sig) => sig.mounted && sig.epoch == self.epoch,
            None => false,
        }
    }
}

/// The readers of one value. One reader needs no table.
#[derive(Debug)]
pub enum Subscribers {
    Empty,
    One(Subscription),
    Many(Vec<Subscription>),
}

/// Whether `s` holds a subscription to signal `key`.
pub open spec fn has_signal(s: Seq<Subscription>, key: usize) -> bool {
    exists|i: int| 0 <= i < s.len() && #[trigger] s[i].signal == key
}

/// `s` with `n` in place of the entry for its signal, or appended.
pub open spec fn insert_sub(s: Seq<Subscription>, n: Subscription) -> Seq<Subscription> {
    if has_signal(s, n.signal) {
        s.update(choose|i: int| 0 <= i < s.len() && #[trigger] s[i].signal == n.signal, n)
    } else {
        s.push(n)
    }
}

/// The active subscriptions of `s`.
pub open spec fn prune(s: Seq<Subscription>, signals: Seq<Option<Signal>>) -> Seq<Subscription>
    decreases s.len(),
{
    if s.len() == 0 {
        s
    } else if sub_active(s.last(), signals) {
        prune(s.drop_last(), signals).push(s.last())
    } else {
        prune(s.drop_last(), signals)
    }
}

/// Subscriptions, signals and effects after notifying `subs` in order.
pub open spec fn notify_all(subs: Seq<Subscription>, signals: Seq<Option<Signal>>, context: bool) -> (
    Seq<Subscription>,
    Seq<Option<Signal>>,
    Seq<Invalidated>,
)
    decreases subs.len(),
{
    if subs.len() == 0 {
        (subs, signals, Seq::empty())
    } else {
        let (kept, sigs, effects) = notify_all(subs.drop_last(), signals, context);
        let s = subs.last();
        if sub_active(s, sigs) {
            let (next, effect) = invalidated(sigs[s.signal as int]->Some_0, context);
            (kept.push(s), sigs.update(s.signal as int, Some(next)), effects.push(effect))
        } else {
            (kept, sigs, effects)
        }
    }
}

/// A mounted component is queued once for ordinary changes until it renders
/// again, while a context change still reaches it after that.
pub proof fn lemma_queued_once_until_render(s: Signal, id: u64)
    requires
        s.mounted,
        s.target == SignalTarget::Component(id),
    ensures
        invalidated(invalidated(s, false).0, false).1 == Invalidated::Ignored,
        invalidated(invalidated(s, false).0, true).1 == (Invalidated::Enqueue { id, context: true }),
{
}

/// A render makes every subscription taken before it inactive.
pub proof fn lemma_render_ends_old_subscriptions(signals: Seq<Option<Signal>>, sub: Subscription)
    requires
        sub.signal < signals.len(),
        signals[sub.signal as int] matches Some(s) && s.epoch == sub.epoch && s.epoch < u64::MAX,
    ensures
        !sub_active(
            sub,
            signals.update(
                sub.signal as int,
                Some(Signal { dirty: false, epoch: (sub.epoch + 1) as u64, ..signals[sub.signal as int]->Some_0 }),
            ),
        ),
{
}

/// No signal occurs twice.
pub open spec fn distinct_signals(s: Seq<Subscription>) -> bool {
    forall|i: int, j: int| 0 <= i < j < s.len() ==> #[trigger] s[i].signal != #[trigger] s[j].signal
}

proof fn lemma_insert_sub_distinct(s: Seq<Subscription>, n: Subscription)
    requires
        distinct_signals(s),
    ensures
        distinct_signals(insert_sub(s, n)),
        has_signal(insert_sub(s, n), n.signal),
        forall|k: usize| #[trigger] has_signal(insert_sub(s, n), k) ==> has_signal(s, k) || k == n.signal,
{
    let r = insert_sub(s, n);
    if has_signal(s, n.signal) {
        let i = choose|i: int| 0 <= i < s.len() && #[trigger] s[i].signal == n.signal;
        assert(r[i] == n);
        assert forall|k: usize| #[trigger] has_signal(r, k) implies has_signal(s, k) || k == n.signal by {
            let j = choose|j: int| 0 <= j < r.len() && #[trigger] r[j].signal == k;
            if j != i {
                assert(s[j].signal == k);
            }
        }
    } else {
        assert(r[s.len() as int] == n);
        assert forall|k: usize| #[trigger] has_signal(r, k) implies has_signal(s, k) || k == n.signal by {
            let j = choose|j: int| 0 <= j < r.len() && #[trigger] r[j].signal == k;
            if j < s.len() {
                assert(s[j].signal == k);
            }
        }
    }
}

proof fn lemma_prune_distinct(s: Seq<Subscription>, signals: Seq<Option<Signal>>)
    requires
        distinct_signals(s),
    ensures
        distinct_signals(prune(s, signals)),
        forall|k: usize| #[trigger] has_signal(prune(s, signals), k) ==> has_signal(s, k),
    decreases s.len(),
{
    if s.len() > 0 {
        let d = s.drop_last();
        lemma_prune_distinct(d, signals);
        let p = prune(d, signals);
        assert forall|k: usize| #[trigger] has_signal(d, k) implies has_signal(s, k) by {
            let j = choose|j: int| 0 <= j < d.len() && #[trigger] d[j].signal == k;
            assert(s[j].signal == k);
        }
        if sub_active(s.last(), signals) {
            let r = p.push(s.last());
            assert(!has_signal(d, s.last().signal));
            assert(!has_signal(p, s.last().signal));
            assert forall|i: int, j: int| 0 <= i < j < r.len() implies #[trigger] r[i].signal != #[trigger] r[j].signal by {
                if j == p.len() {
                    if r[i].signal == r[j].signal {
                        assert(p[i].signal == s.last().signal);
                    }
                }
            }
            assert forall|k: usize| #[trigger] has_signal(r, k) implies has_signal(s, k) by {
                let j = choose|j: int| 0 <= j < r.len() && #[trigger] r[j].signal == k;
                if j < p.len() {
                    assert(p[j].signal == k);
                    assert(has_signal(p, k));
                    assert(has_signal(d, k));
                } else {
                    assert(s[s.len() - 1].signal == k);
                }
            }
        }
    }
}

proof fn lemma_notify_kept(subs: Seq<Subscription>, signals: Seq<Option<Signal>>, context: bool)
    requires
        distinct_signals(subs),
    ensures
        distinct_signals(notify_all(subs, signals, context).0),
        forall|k: usize| #[trigger] has_signal(notify_all(subs, signals, context).0, k) ==> has_signal(subs, k),
        notify_all(subs, signals, context).1.len() == signals.len(),
        notify_all(subs, signals, context).0.len() <= subs.len(),
    decreases subs.len(),
{
    if subs.len() > 0 {
        let d = subs.drop_last();
        lemma_notify_kept(d, signals, context);
        let (kept, sigs, effects) = notify_all(d, signals, context);
        assert forall|k: usize| #[trigger] has_signal(d, k) implies has_signal(subs, k) by {
            let j = choose|j: int| 0 <= j < d.len() && #[trigger] d[j].signal == k;
            assert(subs[j].signal == k);
        }
        let last = subs.last();
        if sub_active(last, sigs) {
            let r = kept.push(last);
            assert(!has_signal(d, last.signal));
            assert(!has_signal(kept, last.signal));
            assert forall|i: int, j: int| 0 <= i < j < r.len() implies #[trigger] r[i].signal != #[trigger] r[j].signal by {
                if j == kept.len() {
                    if r[i].signal == r[j].signal {
                        assert(kept[i].signal == last.signal);
                    }
                }
            }
            assert forall|k: usize| #[trigger] has_signal(r, k) implies has_signal(subs, k) by {
                let j = choose|j: int| 0 <= j < r.len() && #[trigger] r[j].signal == k;
                if j < kept.len() {
                    assert(kept[j].signal == k);
                    assert(has_signal(kept, k));
                    assert(has_signal(d, k));
                } else {
                    assert(subs[subs.len() - 1].signal == k);
                }
            }
        }
    }
}

proof fn lemma_notify_active(subs: Seq<Subscription>, signals: Seq<Option<Signal>>, context: bool)
    ensures
        forall|i: int|
            0 <= i < notify_all(subs, signals, context).0.len() ==> sub_active(
                #[trigger] notify_all(subs, signals, context).0[i],
                notify_all(subs, signals, context).1,
            ),
    decreases subs.len(),
{
    if subs.len() > 0 {
        let d = subs.drop_last();
        lemma_notify_active(d, signals, context);
        let (kept, sigs, effects) = notify_all(d, signals, context);
        let last = subs.last();
        if sub_active(last, sigs) {
            let (next, effect) = invalidated(sigs[last.signal as int]->Some_0, context);
            let sigs2 = sigs.update(last.signal as int, Some(next));
            let r = kept.push(last);
            assert forall|i: int| 0 <= i < r.len() implies sub_active(#[trigger] r[i], sigs2) by {
                if i < kept.len() {
                    assert(sub_active(kept[i], sigs));
                }
            }
        }
    }
}

/// Replaces the entry for `n`'s signal, or appends `n`.
fn insert_into(v: &mut Vec<Subscription>, n: Subscription)
    requires
        distinct_signals(old(v)@),
    ensures
        final(v)@ == insert_sub(old(v)@, n),
{
    let mut i: usize = 0;
    while i < v.len()
        invariant
            i <= v.len(),
            v@ == old(v)@,
            distinct_signals(v@),
            forall|j: int| 0 <= j < i ==> #[trigger] v@[j].signal != n.signal,
        decreases v.len() - i,
    {
        if v[i].signal == n.signal {
            proof {
                let c = choose|c: int| 0 <= c < v@.len() && #[trigger] v@[c].signal == n.signal;
                assert(v@[c].signal == v@[i as int].signal);
                assert(c == i);
            }
            v.set(i, n);
            return;
        }
        i = i + 1;
    }
    assert(!has_signal(v@, n.signal));
    v.push(n);
}

/// `after` is `before` with the reader of signal `key` subscribed at that
/// signal's current epoch: a single reader is replaced when it reads the same
/// signal or is no longer active; in a table the reader is inserted in order,
/// the inactive readers pruned first where the table had to grow.
pub open spec fn subscribed(before: Subscribers, after: Subscribers, key: usize, signals: Seq<Option<Signal>>) -> bool {
    let next = Subscription { signal: key, epoch: signals[key as int]->Some_0.epoch };
    match before {
        Subscribers::Empty => after == Subscribers::One(next),
        Subscribers::One(o) => if o.signal == key || !sub_active(o, signals) {
            after == Subscribers::One(next)
        } else {
            after is Many && after.subs() == seq![o, next]
        },
        Subscribers::Many(v) => after is Many && (after.subs() == insert_sub(v@, next) || (!has_signal(v@, key)
            && after.subs() == insert_sub(prune(v@, signals), next))),
    }
}

impl Subscribers {
    /// The subscriptions, in the order they are notified.
    pub open spec fn subs(&self) -> Seq<Subscription> {
        match self {
            Subscribers::Empty => Seq::empty(),
            Subscribers::One(s) => seq![*s],
            Subscribers::Many(v) => v@,
        }
    }

    pub open spec fn wf(&self) -> bool {
        distinct_signals(self.subs())
    }

    pub fn new() -> (r: Subscribers)
        ensures
            r is Empty,
            r.wf(),
    {
        Subscribers::Empty
    }

    /// Whether any reader is still active.
    pub fn is_active(&self, signals: &Vec<Option<Signal>>) -> (r: bool)
        ensures
            r == exists|i: int| 0 <= i < self.subs().len() && sub_active(#[trigger] self.subs()[i], signals@),
    {
        match self {
            Subscribers::Empty => false,
            Subscribers::One(s) => {
                let r = s.active(signals);
                assert(self.subs()[0] == *s);
                r
            },
            Subscribers::Many(v) => {
                let mut i: usize = 0;
                while i < v.len()
                    invariant
                        i <= v.len(),
                        v@ == self.subs(),
                        forall|j: int| 0 <= j < i ==> !sub_active(#[trigger] v@[j], signals@),
                    decreases v.len() - i,
                {
                    if v[i].active(signals) {
                        return true;
                    }
                    i = i + 1;
                }
                false
            },
        }
    }

    /// Subscribes the reader with signal `key` at its current epoch. Inactive
    /// entries may be dropped before the table grows.
    pub fn subscribe(&mut self, key: usize, signals: &Vec<Option<Signal>>)
        requires
            old(self).wf(),
            key < signals.len(),
            signals@[key as int] is Some,
        ensures
            final(self).wf(),
            has_signal(final(self).subs(), key),
            subscribed(*old(self), *final(self), key, signals@),
    {
        let epoch = match signals[key] {
            Some(sig) => sig.epoch,
            None => 0,
        };
        let next = Subscription { signal: key, epoch };
        let mut cur = Subscribers::Empty;
        std::mem::swap(self, &mut cur);
        match cur {
            Subscribers::Empty => {
                *self = Subscribers::One(next);
                assert(self.subs()[0].signal == key);
            },
            Subscribers::One(o) => {
                if o.signal == key || !o.active(signals) {
                    *self = Subscribers::One(next);
                    assert(self.subs()[0].signal == key);
                } else {
                    let mut v: Vec<Subscription> = Vec::new();
                    v.push(o);
                    v.push(next);
                    assert(v@ =~= seq![o, next]);
                    assert(v@[1].signal == key);
                    *self = Subscribers::Many(v);
                }
            },
            Subscribers::Many(v) => {
                let mut v = v;
                let mut present = false;
                let mut i: usize = 0;
                while i < v.len()
                    invariant
                        i <= v.len(),
                        present <==> exists|j: int| 0 <= j < i && #[trigger] v@[j].signal == key,
                    decreases v.len() - i,
                {
                    if v[i].signal == key {
                        present = true;
                    }
                    i = i + 1;
                }
                let ghost before = v@;
                if v.len() == vec_capacity(&v) && !present {
                    // Prune before growth, so inactive readers cannot pile up.
                    let mut kept: Vec<Subscription> = Vec::new();
                    let mut k: usize = 0;
                    while k < v.len()
                        invariant
                            k <= v.len(),
                            v@ == before,
                            kept@ == prune(before.take(k as int), signals@),
                        decreases v.len() - k,
                    {
                        proof {
                            assert(before.take(k + 1).drop_last() =~= before.take(k as int));
                        }
                        if v[k].active(signals) {
                            kept.push(v[k]);
                        }
                        k = k + 1;
                    }
                    assert(before.take(v.len() as int) =~= before);
                    v = kept;
                    proof {
                        lemma_prune_distinct(before, signals@);
                    }
                }
                let ghost pre = v@;
                insert_into(&mut v, next);
                proof {
                    lemma_insert_sub_distinct(pre, next);
                }
                *self = Subscribers::Many(v);
            },
        }
    }

    /// Subscribes the component being rendered, if any.
    pub fn track(&mut self, reader: Option<usize>, signals: &Vec<Option<Signal>>)
        requires
            old(self).wf(),
            reader matches Some(k) ==> k < signals.len() && signals@[k as int] is Some,
        ensures
            final(self).wf(),
            reader is None ==> *final(self) == *old(self),
            reader matches Some(k) ==> has_signal(final(self).subs(), k) && subscribed(
                *old(self),
                *final(self),
                k,
                signals@,
            ),
    {
        if let Some(k) = reader {
            self.subscribe(k, signals);
        }
    }
    /// Invalidates every active reader in order and drops the others. Returns
    /// what each invalidation asks of the caller.
    pub fn notify_change(&mut self, context: bool, signals: &mut Vec<Option<Signal>>) -> (effects: Vec<Invalidated>)
        requires
            old(self).wf(),
        ensures
            final(self).wf(),
            (final(self).subs(), final(signals)@, effects@) == notify_all(old(self).subs(), old(signals)@, context),
            (*final(self)) is Many <==> ((*old(self)) is Many && final(self).subs().len() >= 2),
            forall|i: int|
                0 <= i < final(self).subs().len() ==> sub_active(#[trigger] final(self).subs()[i], final(signals)@),
    {
        let ghost subs0 = self.subs();
        let ghost sig0 = signals@;
        proof {
            lemma_notify_kept(subs0, sig0, context);
            lemma_notify_active(subs0, sig0, context);
        }
        let mut cur = Subscribers::Empty;
        std::mem::swap(self, &mut cur);
        let was_many = match cur {
            Subscribers::Many(_) => true,
            _ => false,
        };
        let v: Vec<Subscription> = match cur {
            Subscribers::Empty => Vec::new(),
            Subscribers::One(o) => {
                let mut v: Vec<Subscription> = Vec::new();
                v.push(o);
                v
            },
            Subscribers::Many(v) => v,
        };
        assert(v@ =~= subs0);
        assert(was_many || subs0.len() <= 1);
        let mut kept: Vec<Subscription> = Vec::new();
        let mut effects: Vec<Invalidated> = Vec::new();
        let mut k: usize = 0;
        while k < v.len()
            invariant
                k <= v.len(),
                v@ == subs0,
                (kept@, signals@, effects@) == notify_all(subs0.take(k as int), sig0, context),
            decreases v.len() - k,
        {
            let sub = v[k];
            proof {
                assert(subs0.take(k + 1).drop_last() =~= subs0.take(k as int));
            }
            if sub.active(signals) {
                let mut sig = match signals[sub.signal] {
                    Some(sig) => sig,
                    None => Signal::widget(),
                };
                let effect = sig.invalidate(context);
                signals.set(sub.signal, Some(sig));
                effects.push(effect);
                kept.push(sub);
            }
            k = k + 1;
        }
        assert(subs0.take(v.len() as int) =~= subs0);
        assert(kept.len() <= subs0.len());
        if kept.len() >= 2 && was_many {
            *self = Subscribers::Many(kept);
        } else if kept.len() == 1 {
            let only = kept[0];
            assert(kept@ =~= seq![only]);
            *self = Subscribers::One(only);
        } else if kept.len() == 0 {
            assert(kept@ =~= Seq::<Subscription>::empty());
        } else {
            // One reader cannot turn into several.
            assert(false);
        }
        effects
    }

    /// Notifies the readers of an ordinary change.
    pub fn notify(&mut self, signals: &mut Vec<Option<Signal>>) -> (effects: Vec<Invalidated>)
        requires
            old(self).wf(),
        ensures
            final(self).wf(),
            (final(self).subs(), final(signals)@, effects@) == notify_all(old(self).subs(), old(signals)@, false),
            (*final(self)) is Many <==> ((*old(self)) is Many && final(self).subs().len() >= 2),
    {
        self.notify_change(false, signals)
    }

    /// Notifies the readers of a context change, which reaches readers that
    /// are already queued too.
    pub fn notify_context(&mut self, signals: &mut Vec<Option<Signal>>) -> (effects: Vec<Invalidated>)
        requires
            old(self).wf(),
        ensures
            final(self).wf(),
            (final(self).subs(), final(signals)@, effects@) == notify_all(old(self).subs(), old(signals)@, true),
            (*final(self)) is Many <==> ((*old(self)) is Many && final(self).subs().len() >= 2),
    {
        self.notify_change(true, signals)
    }
}

} // verus!
