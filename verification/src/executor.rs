use vstd::prelude::*;
use unicycle::pin_slab::PinSlab;
use crate::bits::{set_bits, ascending_listing, bits_of};
use crate::waker_page::{WakerPage, WAKER_PAGE_SIZE};

verus! {

/// Priority of a task spawned without one.
pub const DEFAULT_PRIORITY: usize = 4;

/// Number of priority levels of an executor; valid priorities are below it.
pub const MAX_PRIORITY: usize = 32;

// ---------------------------------------------------------------------------
// The slab of task handles
// ---------------------------------------------------------------------------

#[verifier::external_type_specification]
#[verifier::external_body]
#[verifier::reject_recursive_types(T)]
pub struct ExPinSlab<T>(PinSlab<T>);

/// What a slab holds: the occupied keys and the value stored at each.
pub uninterp spec fn slab_tasks(slab: PinSlab<u64>) -> Map<usize, u64>;

/// The keys a slab hands out next, in order: its free list, from its next
/// key through the removed (vacant) keys linked from it, ending with the
/// first key never handed out.
pub uninterp spec fn slab_free_keys(slab: PinSlab<u64>) -> Seq<usize>;

/// Trusted: `unicycle::pin_slab::PinSlab::new`, which creates a slab with
/// no occupied key, whose next key is 0.
#[verifier::external_body]
fn slab_new() -> (slab: PinSlab<u64>)
    ensures
        slab_tasks(slab) =~= Map::empty(),
        slab_free_keys(slab) == seq![0usize],
{
    PinSlab::new()
}

/// Trusted: `unicycle::pin_slab::PinSlab::insert`, which stores `val` under
/// its next key, which is not occupied, and returns that key; no other key
/// changes. The next key becomes the following key of the free list, or,
/// when the key was never handed out before, the key after it. That last
/// case is left unsaid for the key `usize::MAX`, where the increment
/// overflows.
#[verifier::external_body]
fn slab_insert(s: &mut PinSlab<u64>, val: u64) -> (key: usize)
    ensures
        slab_free_keys(*old(s)).len() > 0 ==> key == slab_free_keys(*old(s))[0],
        !slab_tasks(*old(s)).contains_key(key),
        slab_tasks(*final(s)) == slab_tasks(*old(s)).insert(key, val),
        slab_free_keys(*final(s)).len() > 0,
        slab_free_keys(*old(s)).len() > 1 ==> slab_free_keys(*final(s)) == slab_free_keys(
            *old(s),
        ).drop_first(),
        slab_free_keys(*old(s)).len() == 1 && key < usize::MAX ==> slab_free_keys(*final(s))
            == seq![(key + 1) as usize],
{
    s.insert(val)
}

/// Trusted: `unicycle::pin_slab::PinSlab::get`, which returns the value at
/// `key` if the key is occupied and changes nothing.
#[verifier::external_body]
fn slab_get(s: &mut PinSlab<u64>, key: usize) -> (r: Option<u64>)
    ensures
        slab_tasks(*final(s)) == slab_tasks(*old(s)),
        slab_free_keys(*final(s)) == slab_free_keys(*old(s)),
        r == (if slab_tasks(*old(s)).contains_key(key) {
            Some(slab_tasks(*old(s))[key])
        } else {
            None
        }),
{
    s.get(key).copied()
}

// ---------------------------------------------------------------------------
// Tasks
// ---------------------------------------------------------------------------

/// Scheduling state of a task.
#[derive(Clone, Copy, PartialEq, Eq, Structural, Debug)]
pub enum TaskState {
    Blocked,
    Runnable,
    Running,
}

/// The bookkeeping of a spawned task: its state and its priority.
#[derive(Clone, Copy, Debug)]
pub struct Task {
    pub state: TaskState,
    pub priority: u8,
}

impl Task {
    /// A freshly spawned task of the given priority: it is runnable. The
    /// priority is kept in a byte, truncated as `priority as u8`.
    pub fn new(priority: usize) -> (t: Task)
        ensures
            t.state == TaskState::Runnable,
            t.priority == priority as u8,
    {
        Task { state: TaskState::Runnable, priority: priority as u8 }
    }

    /// A wake-up makes the task runnable.
    pub fn wake_by_ref(&mut self)
        ensures
            final(self).state == TaskState::Runnable,
            final(self).priority == old(self).priority,
    {
        self.state = TaskState::Runnable;
    }

    /// Whether the task is runnable.
    pub fn _is_runnable(&self) -> (r: bool)
        ensures
            r == (self.state == TaskState::Runnable),
    {
        match self.state {
            TaskState::Runnable => true,
            _ => false,
        }
    }

    /// Marks the task as blocked.
    pub fn _block(&mut self)
        ensures
            final(self).state == TaskState::Blocked,
            final(self).priority == old(self).priority,
    {
        self.state = TaskState::Blocked;
    }
}

// ---------------------------------------------------------------------------
// One priority level
// ---------------------------------------------------------------------------

/// The page that holds the wake-up state of the task with key `key`.
pub open spec fn page_of(key: int) -> int {
    key / WAKER_PAGE_SIZE as int
}

/// The slot of the task with key `key` in its page.
pub open spec fn slot_of(key: int) -> int {
    key % WAKER_PAGE_SIZE as int
}

/// Abstract state of one priority level: which keys hold which task handle,
/// and the wake-up pages.
pub struct InnerView {
    pub tasks: Map<usize, u64>,
    pub pages: Seq<WakerPage>,
    /// The keys new tasks get, in order (see `slab_free_keys`).
    pub free: Seq<usize>,
}

impl InnerView {
    /// Whether the task with this key is notified (its page exists and holds
    /// its slot as notified).
    pub open spec fn notified(self, key: int) -> bool {
        &&& 0 <= key
        &&& page_of(key) < self.pages.len()
        &&& self.pages[page_of(key)].notified().contains(slot_of(key))
    }

    /// Whether the task with this key is marked as finished.
    pub open spec fn dropped(self, key: int) -> bool {
        &&& 0 <= key
        &&& page_of(key) < self.pages.len()
        &&& self.pages[page_of(key)].dropped().contains(slot_of(key))
    }

    /// Whether every task other than `key` is notified and dropped in `self`
    /// exactly when it is in `other`.
    pub open spec fn same_wakeups_except(self, other: InnerView, key: int) -> bool {
        forall|k: int|
            k != key ==> (#[trigger] self.notified(k) == other.notified(k) && self.dropped(k)
                == other.dropped(k))
    }

    /// A level with no task and no page, whose first key is 0.
    pub open spec fn is_fresh(self) -> bool {
        &&& self.tasks == Map::<usize, u64>::empty()
        &&& self.pages == Seq::<WakerPage>::empty()
        &&& self.free == seq![0usize]
    }

    /// Whether `self` is `old` after storing `task` under the key `key`,
    /// the first of its free keys: the free keys move on, pages are added up
    /// to the one of `key`, the task is notified and not dropped, and no
    /// other task's wake-up state changes.
    pub open spec fn inserted(self, old: InnerView, key: usize, task: u64) -> bool {
        &&& old.free.len() > 0 ==> key == old.free[0]
        &&& self.free.len() > 0
        &&& old.free.len() > 1 ==> self.free == old.free.drop_first()
        &&& old.free.len() == 1 && key < usize::MAX ==> self.free == seq![(key + 1) as usize]
        &&& !old.tasks.contains_key(key)
        &&& self.tasks == old.tasks.insert(key, task)
        &&& self.pages.len() == if old.pages.len() <= page_of(key as int) {
            page_of(key as int) + 1
        } else {
            old.pages.len() as int
        }
        &&& self.notified(key as int)
        &&& !self.dropped(key as int)
        &&& self.same_wakeups_except(old, key as int)
    }

    /// Whether `self` is `old` with the slot of `key` notified.
    pub open spec fn notified_one(self, old: InnerView, key: usize) -> bool {
        &&& self.tasks == old.tasks
        &&& self.free == old.free
        &&& self.pages.len() == old.pages.len()
        &&& self.notified(key as int)
        &&& self.dropped(key as int) == old.dropped(key as int)
        &&& self.same_wakeups_except(old, key as int)
    }

    /// Whether `self` is `old` with the slot of `key` marked as dropped.
    pub open spec fn dropped_one(self, old: InnerView, key: usize) -> bool {
        &&& self.tasks == old.tasks
        &&& self.free == old.free
        &&& self.pages.len() == old.pages.len()
        &&& self.dropped(key as int)
        &&& self.notified(key as int) == old.notified(key as int)
        &&& self.same_wakeups_except(old, key as int)
    }

    /// Whether `self` is `old` with page `pi` drained: no slot of it is
    /// notified or dropped; nothing else changes.
    pub open spec fn drained(self, old: InnerView, pi: int) -> bool {
        &&& self.tasks == old.tasks
        &&& self.free == old.free
        &&& self.pages.len() == old.pages.len()
        &&& self.pages[pi].notified() == Set::<int>::empty()
        &&& self.pages[pi].dropped() == Set::<int>::empty()
        &&& forall|i: int| 0 <= i < self.pages.len() && i != pi ==> #[trigger] self.pages[i] == old.pages[i]
    }

    /// Every task has a page, every notified slot belongs to a task, and the
    /// keys of all slots fit in a `usize`.
    pub open spec fn wf(self) -> bool {
        &&& self.free.len() > 0
        &&& self.pages.len() <= page_of(usize::MAX as int) + 1
        &&& forall|k: usize| #[trigger]
            self.tasks.contains_key(k) ==> page_of(k as int) < self.pages.len()
        &&& forall|pi: int, s: int|
            0 <= pi < self.pages.len() && #[trigger] self.pages[pi].notified().contains(s)
                ==> self.tasks.contains_key((pi * WAKER_PAGE_SIZE as int + s) as usize)
    }
}

/// The tasks of one priority level and their wake-up pages: the task with key
/// `k` has slot `k % WAKER_PAGE_SIZE` of page `k / WAKER_PAGE_SIZE`.
pub struct Inner {
    slab: PinSlab<u64>,
    pages: Vec<WakerPage>,
}

impl View for Inner {
    type V = InnerView;

    closed spec fn view(&self) -> InnerView {
        InnerView {
            tasks: slab_tasks(self.slab),
            pages: self.pages@,
            free: slab_free_keys(self.slab),
        }
    }
}

/// The page of `key` and its slot in that page.
pub fn page_index(key: usize) -> (r: (usize, usize))
    ensures
        r.0 == key / WAKER_PAGE_SIZE,
        r.1 == key % WAKER_PAGE_SIZE,
        r.0 * WAKER_PAGE_SIZE + r.1 == key,
        r.1 < WAKER_PAGE_SIZE,
{
    (key / WAKER_PAGE_SIZE, key % WAKER_PAGE_SIZE)
}

impl Inner {
    /// An empty priority level.
    pub fn new() -> (r: Inner)
        ensures
            r@.is_fresh(),
            r@.wf(),
    {
        Inner { slab: slab_new(), pages: Vec::new() }
    }

    /// The page that holds the wake-up state of `key`, and the slot of `key`
    /// in it.
    pub fn page(&self, key: usize) -> (r: (&WakerPage, usize))
        requires
            page_of(key as int) < self@.pages.len(),
        ensures
            *r.0 == self@.pages[page_of(key as int)],
            r.1 == key % WAKER_PAGE_SIZE,
    {
        let (page_ix, subpage_ix) = page_index(key);
        (&self.pages[page_ix], subpage_ix)
    }

    /// Stores the task handle `task` under a fresh key, adds pages until one
    /// holds that key, and marks the task as notified (and not dropped) so
    /// that it is polled. Returns the key.
    pub fn insert(&mut self, task: u64) -> (key: u64)
        requires
            old(self)@.wf(),
        ensures
            final(self)@.wf(),
            key <= usize::MAX,
            final(self)@.inserted(old(self)@, key as usize, task),
    {
        let key = slab_insert(&mut self.slab, task);
        let ghost old_pages = self.pages@;
        let ghost tasks_after = slab_tasks(self.slab);
        let ghost free_after = slab_free_keys(self.slab);
        while self.pages.len() <= key / WAKER_PAGE_SIZE
            invariant
                slab_tasks(self.slab) == tasks_after,
                slab_free_keys(self.slab) == free_after,
                old_pages.len() <= self.pages@.len(),
                self.pages@.len() <= if old_pages.len() <= key / WAKER_PAGE_SIZE {
                    key / WAKER_PAGE_SIZE + 1
                } else {
                    old_pages.len() as int
                },
                forall|i: int| 0 <= i < old_pages.len() ==> self.pages@[i] == old_pages[i],
                forall|i: int|
                    old_pages.len() <= i < self.pages@.len() ==> #[trigger] self.pages@[i].notified()
                        == Set::<int>::empty() && self.pages@[i].dropped() == Set::<int>::empty(),
            decreases key / WAKER_PAGE_SIZE + 1 - self.pages.len(),
        {
            self.pages.push(WakerPage::new());
        }
        let (page_ix, subpage_ix) = page_index(key);
        let ghost mid_pages = self.pages@;
        self.pages[page_ix].initialize(subpage_ix);
        proof {
            let o = old(self)@;
            let n = self@;
            assert(n.pages.len() <= page_of(usize::MAX as int) + 1) by {
                assert(page_of(key as int) <= page_of(usize::MAX as int));
            }
            assert forall|k: usize| #[trigger] n.tasks.contains_key(k) implies page_of(k as int)
                < n.pages.len() by {
                if k != key {
                    assert(o.tasks.contains_key(k));
                }
            }
            assert forall|k: int| k != key implies #[trigger] n.notified(k) == o.notified(k)
                && n.dropped(k) == o.dropped(k) by {
                if 0 <= k {
                    let pk = page_of(k);
                    if pk < n.pages.len() {
                        if pk != page_of(key as int) {
                            assert(n.pages[pk] == mid_pages[pk]);
                        } else {
                            assert(slot_of(k) != slot_of(key as int));
                            assert(n.pages[pk].notified() == mid_pages[pk].notified().insert(
                                slot_of(key as int),
                            ));
                            assert(n.pages[pk].dropped() == mid_pages[pk].dropped().remove(
                                slot_of(key as int),
                            ));
                        }
                        if pk < o.pages.len() {
                            assert(mid_pages[pk] == o.pages[pk]);
                        } else {
                            assert(mid_pages[pk].notified() == Set::<int>::empty());
                            assert(mid_pages[pk].dropped() == Set::<int>::empty());
                        }
                    }
                }
            }
            assert forall|pi: int, s: int|
                0 <= pi < n.pages.len() && #[trigger] n.pages[pi].notified().contains(s)
                    implies n.tasks.contains_key((pi * 64 + s) as usize) by {
                if pi == key / 64 && s == key % 64 {
                    assert(pi * 64 + s == key as int);
                    assert(n.tasks.contains_key(key));
                } else {
                    n.pages[pi].lemma_slots_in_range();
                    if pi == key / 64 {
                        assert(n.pages[pi].notified() == mid_pages[pi].notified().insert(
                            slot_of(key as int),
                        ));
                    } else {
                        assert(n.pages[pi] == mid_pages[pi]);
                    }
                    assert(mid_pages[pi].notified().contains(s));
                    if pi >= o.pages.len() {
                        assert(mid_pages[pi].notified() == Set::<int>::empty());
                        assert(false);
                    }
                    assert(o.pages[pi] == mid_pages[pi]);
                    assert(o.pages[pi].notified().contains(s));
                    assert(o.tasks.contains_key((pi * 64 + s) as usize));
                }
            }
        }
        let r = key as u64;
        assert(self@.inserted(old(self)@, r as usize, task));
        r
    }

    /// Marks the task with key `key` as notified.
    pub fn notify(&mut self, key: usize)
        requires
            old(self)@.wf(),
            old(self)@.tasks.contains_key(key),
        ensures
            final(self)@.wf(),
            final(self)@.notified_one(old(self)@, key),
    {
        let (page_ix, subpage_ix) = page_index(key);
        let ghost o = self@;
        self.pages[page_ix].notify(subpage_ix);
        proof {
            let n = self@;
            assert forall|k: int| k != key implies #[trigger] n.notified(k) == o.notified(k)
                && n.dropped(k) == o.dropped(k) by {
                if 0 <= k && k / 64 != key / 64 && k / 64 < n.pages.len() {
                    assert(n.pages[k / 64] == o.pages[k / 64]);
                }
            }
            assert forall|pi: int, s: int|
                0 <= pi < n.pages.len() && #[trigger] n.pages[pi].notified().contains(s)
                    implies n.tasks.contains_key((pi * 64 + s) as usize) by {
                if pi == key / 64 && s == key % 64 {
                    assert(pi * 64 + s == key as int);
                } else {
                    if pi != key / 64 {
                        assert(n.pages[pi] == o.pages[pi]);
                    }
                    assert(o.pages[pi].notified().contains(s));
                }
            }
            assert(n.same_wakeups_except(o, key as int));
        }
    }

    /// Marks the task with key `key` as finished.
    pub fn mark_dropped(&mut self, key: usize)
        requires
            old(self)@.wf(),
            page_of(key as int) < old(self)@.pages.len(),
        ensures
            final(self)@.wf(),
            final(self)@.dropped_one(old(self)@, key),
    {
        let (page_ix, subpage_ix) = page_index(key);
        let ghost o = self@;
        self.pages[page_ix].mark_dropped(subpage_ix);
        proof {
            let n = self@;
            assert forall|k: usize| #[trigger] n.tasks.contains_key(k) implies page_of(k as int)
                < n.pages.len() by {
                assert(o.tasks.contains_key(k));
            }
            assert forall|k: int| k != key implies #[trigger] n.notified(k) == o.notified(k)
                && n.dropped(k) == o.dropped(k) by {
                if 0 <= k && k / 64 != key / 64 && k / 64 < n.pages.len() {
                    assert(n.pages[k / 64] == o.pages[k / 64]);
                }
            }
            assert forall|pi: int, s: int|
                0 <= pi < n.pages.len() && #[trigger] n.pages[pi].notified().contains(s)
                    implies n.tasks.contains_key((pi * 64 + s) as usize) by {
                if pi != key / 64 {
                    assert(n.pages[pi] == o.pages[pi]);
                }
                assert(o.pages[pi].notified().contains(s));
            }
            assert(n.same_wakeups_except(o, key as int));
        }
    }

    /// Takes the words of notified and of dropped slots of page `pi`,
    /// leaving the page empty.
    pub fn take_page(&mut self, pi: usize) -> (r: (u64, u64))
        requires
            old(self)@.wf(),
            pi < old(self)@.pages.len(),
        ensures
            final(self)@.wf(),
            final(self)@.drained(old(self)@, pi as int),
            bits_of(r.0) == old(self)@.pages[pi as int].notified(),
            bits_of(r.1) == old(self)@.pages[pi as int].dropped(),
    {
        let ghost o = self@;
        let notified = self.pages[pi].take_notified();
        let dropped = self.pages[pi].take_dropped();
        proof {
            let n = self@;
            assert forall|k: usize| #[trigger] n.tasks.contains_key(k) implies page_of(k as int)
                < n.pages.len() by {
                assert(o.tasks.contains_key(k));
            }
            assert forall|pi2: int, s: int|
                0 <= pi2 < n.pages.len() && #[trigger] n.pages[pi2].notified().contains(s)
                    implies n.tasks.contains_key((pi2 * 64 + s) as usize) by {
                if pi2 != pi {
                    assert(n.pages[pi2] == o.pages[pi2]);
                    assert(o.pages[pi2].notified().contains(s));
                }
            }
        }
        (notified, dropped)
    }

    /// The task handle stored under `key`.
    pub fn task(&mut self, key: usize) -> (t: u64)
        requires
            old(self)@.tasks.contains_key(key),
        ensures
            final(self)@ == old(self)@,
            t == old(self)@.tasks[key],
    {
        slab_get(&mut self.slab, key).unwrap()
    }

    /// Whether a task is stored under `key`.
    pub fn contains(&mut self, key: usize) -> (b: bool)
        ensures
            final(self)@ == old(self)@,
            b == old(self)@.tasks.contains_key(key),
    {
        slab_get(&mut self.slab, key).is_some()
    }
}

/// One transition of the run loop, from levels `lv` and sweep position `o`
/// to levels `nl` and position `n`, with action `r`. The loop sweeps
/// priorities `0..MAX_PRIORITY` in order; at each it reads how many pages
/// the level has, then drains those pages in order, and hands out each
/// notified slot of a drained page, in ascending order, as a task to poll.
/// After the last priority it starts over.
pub open spec fn run_step_relation(
    lv: Seq<InnerView>,
    o: SweepView,
    nl: Seq<InnerView>,
    n: SweepView,
    r: RunAction,
) -> bool {
    if o.next < o.pending.len() {
        let key = o.key_at(o.next as int);
        &&& r == RunAction::Poll {
            priority: o.priority as usize,
            key: key as usize,
            task: lv[o.priority as int].tasks[key as usize],
        }
        &&& n == SweepView { next: o.next + 1, ..o }
        &&& nl == lv
    } else if o.priority >= MAX_PRIORITY {
        &&& r == RunAction::SweepDone
        &&& n == SweepView::start()
        &&& nl == lv
    } else if !o.started {
        &&& r == RunAction::Advance
        &&& n == SweepView {
            priority: o.priority,
            started: true,
            page: 0,
            end: lv[o.priority as int].pages.len(),
            current: o.current,
            pending: Seq::empty(),
            next: 0,
        }
        &&& nl == lv
    } else if o.page < o.end {
        &&& r == RunAction::Advance
        &&& n.priority == o.priority
        &&& n.started
        &&& n.end == o.end
        &&& n.page == o.page + 1
        &&& n.current == o.page
        &&& n.next == 0
        &&& ascending_listing(n.pending, lv[o.priority as int].pages[o.page as int].notified())
        &&& nl == lv.update(o.priority as int, nl[o.priority as int])
        &&& nl[o.priority as int].drained(lv[o.priority as int], o.page as int)
    } else {
        &&& r == RunAction::Advance
        &&& n == SweepView {
            priority: o.priority + 1,
            started: false,
            page: o.page,
            end: o.end,
            current: o.current,
            pending: Seq::empty(),
            next: 0,
        }
        &&& nl == lv
    }
}

/// One call on an executor: a step of the run loop, or one of the calls
/// that the loop's driver and the wakers make between steps.
pub enum ExecStep {
    /// `run_step`, with the action it returned.
    Run(RunAction),
    /// `add_task`: the priority, the key it returned, and the task handle.
    Added(usize, usize, u64),
    /// `notify`: the priority and the key.
    Woken(usize, usize),
    /// `finish_poll`: the priority, the key, and whether the poll completed.
    Finished(usize, usize, bool),
}

/// The change that the call `st` makes, from levels `lv` and sweep `o` to
/// levels `nl` and sweep `n`: the one its contract states.
pub open spec fn exec_step_relation(
    lv: Seq<InnerView>,
    o: SweepView,
    nl: Seq<InnerView>,
    n: SweepView,
    st: ExecStep,
) -> bool {
    match st {
        ExecStep::Run(r) => run_step_relation(lv, o, nl, n, r),
        ExecStep::Added(p, key, task) => {
            &&& p < MAX_PRIORITY
            &&& n == o
            &&& nl == lv.update(p as int, nl[p as int])
            &&& nl[p as int].inserted(lv[p as int], key, task)
        },
        ExecStep::Woken(p, key) => {
            &&& p < MAX_PRIORITY
            &&& lv[p as int].tasks.contains_key(key)
            &&& n == o
            &&& nl == lv.update(p as int, nl[p as int])
            &&& nl[p as int].notified_one(lv[p as int], key)
        },
        ExecStep::Finished(p, key, ready) => {
            &&& p < MAX_PRIORITY
            &&& n == o
            &&& if ready {
                &&& nl == lv.update(p as int, nl[p as int])
                &&& nl[p as int].dropped_one(lv[p as int], key)
            } else {
                nl == lv
            }
        },
    }
}

// ---------------------------------------------------------------------------
// The executor
// ---------------------------------------------------------------------------

/// Where the run loop stands in its sweep over priority levels and pages.
pub struct SweepView {
    /// The priority level being swept.
    pub priority: nat,
    /// Whether the number of pages to visit at this level has been read.
    pub started: bool,
    /// The next page to drain at this level.
    pub page: nat,
    /// The number of pages the level had when its sweep started.
    pub end: nat,
    /// The page whose notified slots are being polled.
    pub current: nat,
    /// The notified slots of page `current`, in ascending order.
    pub pending: Seq<usize>,
    /// How many of `pending` have been handed out.
    pub next: nat,
}

impl SweepView {
    /// The start of a sweep: priority 0, nothing read yet.
    pub open spec fn start() -> SweepView {
        SweepView {
            priority: 0,
            started: false,
            page: 0,
            end: 0,
            current: 0,
            pending: Seq::empty(),
            next: 0,
        }
    }

    /// The key of the `k`-th pending slot.
    pub open spec fn key_at(self, k: int) -> int {
        self.current * WAKER_PAGE_SIZE as int + self.pending[k]
    }

    /// The sweep is consistent with the levels it runs over: the page range
    /// lies within the level's pages, and every slot still pending belongs
    /// to a task of the level.
    pub open spec fn wf(self, levels: Seq<InnerView>) -> bool {
        &&& self.priority <= MAX_PRIORITY
        &&& self.page <= self.end
        &&& self.started ==> self.priority < MAX_PRIORITY && self.page <= self.end
            <= levels[self.priority as int].pages.len()
        &&& self.next <= self.pending.len()
        &&& forall|a: int, b: int|
            self.next <= a < b < self.pending.len() ==> #[trigger] self.pending[a]
                < #[trigger] self.pending[b]
        &&& self.next < self.pending.len() ==> {
            &&& self.priority < MAX_PRIORITY
            &&& self.current < levels[self.priority as int].pages.len()
            &&& forall|k: int|
                self.next <= k < self.pending.len() ==> #[trigger] self.pending[k] < 64
                    && levels[self.priority as int].tasks.contains_key(self.key_at(k) as usize)
        }
    }
}

struct Sweep {
    priority: usize,
    started: bool,
    page: usize,
    end: usize,
    current: usize,
    pending: Vec<usize>,
    next: usize,
}

impl View for Sweep {
    type V = SweepView;

    closed spec fn view(&self) -> SweepView {
        SweepView {
            priority: self.priority as nat,
            started: self.started,
            page: self.page as nat,
            end: self.end as nat,
            current: self.current as nat,
            pending: self.pending@,
            next: self.next as nat,
        }
    }
}

impl Sweep {
    fn start() -> (s: Sweep)
        ensures
            s@ == SweepView::start(),
    {
        Sweep { priority: 0, started: false, page: 0, end: 0, current: 0, pending: Vec::new(), next: 0 }
    }
}

/// The consistency of an executor's state: `MAX_PRIORITY` consistent levels
/// and a sweep consistent with them.
pub open spec fn exec_wf(levels: Seq<InnerView>, sweep: SweepView) -> bool {
    &&& levels.len() == MAX_PRIORITY
    &&& forall|p: int| 0 <= p < MAX_PRIORITY ==> #[trigger] levels[p].wf()
    &&& sweep.wf(levels)
}

/// What the run loop does next.
#[derive(PartialEq, Eq, Structural, Debug)]
pub enum RunAction {
    /// Poll the task handle `task`, stored under `key` at priority
    /// `priority`, with a waker for that key.
    Poll { priority: usize, key: usize, task: u64 },
    /// Nothing to poll yet: step again.
    Advance,
    /// A sweep over all priorities has ended; the next one starts.
    SweepDone,
}

/// An executor with `MAX_PRIORITY` priority levels, each holding its tasks
/// and their wake-up pages, and the state of its run loop.
pub struct Executor {
    inners: Vec<Inner>,
    sweep: Sweep,
}

impl Executor {
    /// The priority levels.
    pub closed spec fn levels(self) -> Seq<InnerView> {
        self.inners@.map_values(|i: Inner| i@)
    }

    /// The run loop's position.
    pub closed spec fn sweep(self) -> SweepView {
        self.sweep@
    }

    /// All levels are consistent and the sweep is consistent with them.
    pub open spec fn wf(self) -> bool {
        exec_wf(self.levels(), self.sweep())
    }

    /// An executor with `MAX_PRIORITY` empty levels, whose run loop is at
    /// the start of a sweep.
    pub fn new() -> (e: Executor)
        ensures
            e.wf(),
            e.sweep() == SweepView::start(),
            forall|p: int| 0 <= p < MAX_PRIORITY ==> (#[trigger] e.levels()[p]).is_fresh(),
    {
        let mut inners: Vec<Inner> = Vec::new();
        let mut i: usize = 0;
        while i < MAX_PRIORITY
            invariant
                i <= MAX_PRIORITY,
                inners@.len() == i,
                forall|p: int| 0 <= p < i ==> (#[trigger] inners@[p])@.is_fresh(),
            decreases MAX_PRIORITY - i,
        {
            inners.push(Inner::new());
            i = i + 1;
        }
        let e = Executor { inners, sweep: Sweep::start() };
        proof {
            assert forall|p: int| 0 <= p < MAX_PRIORITY implies #[trigger] e.levels()[p].wf() by {
                assert(e.levels()[p] == inners@[p]@);
            }
        }
        e
    }

    /// Adds the task handle `task` at priority `priority`: it is stored under
    /// a fresh key of that level, which gets a page and is notified so that
    /// the run loop polls it. Returns the key. Nothing else changes.
    pub fn add_task(&mut self, priority: usize, task: u64) -> (key: u64)
        requires
            old(self).wf(),
            priority < MAX_PRIORITY,
        ensures
            final(self).wf(),
            key <= usize::MAX,
            final(self).sweep() == old(self).sweep(),
            final(self).levels() == old(self).levels().update(
                priority as int,
                final(self).levels()[priority as int],
            ),
            final(self).levels()[priority as int].inserted(
                old(self).levels()[priority as int],
                key as usize,
                task,
            ),
            exec_step_relation(
                old(self).levels(),
                old(self).sweep(),
                final(self).levels(),
                final(self).sweep(),
                ExecStep::Added(priority, key as usize, task),
            ),
    {
        let ghost o = self.levels();
        assert(self.inners@[priority as int]@.wf()) by {
            assert(o[priority as int] == self.inners@[priority as int]@);
        }
        let key = self.inners[priority].insert(task);
        proof {
            let n = self.levels();
            assert(n =~= o.update(priority as int, n[priority as int]));
            assert forall|p: int| 0 <= p < MAX_PRIORITY implies #[trigger] n[p].wf() by {
                if p != priority {
                    assert(n[p] == o[p]);
                }
            }
            self.lemma_sweep_kept(o, priority as int);
        }
        let (_page, _) = self.inners[priority].page(key as usize);
        key
    }

    /// The sweep stays consistent when one level only gains tasks and pages.
    proof fn lemma_sweep_kept(self, o: Seq<InnerView>, priority: int)
        requires
            self.sweep().wf(o),
            o.len() == MAX_PRIORITY,
            self.levels() == o.update(priority, self.levels()[priority]),
            0 <= priority < MAX_PRIORITY,
            o[priority].tasks.submap_of(self.levels()[priority].tasks),
            o[priority].pages.len() <= self.levels()[priority].pages.len(),
        ensures
            self.sweep().wf(self.levels()),
    {
        let sw = self.sweep();
        let n = self.levels();
        if sw.next < sw.pending.len() {
            assert forall|k: int| sw.next <= k < sw.pending.len() implies #[trigger] sw.pending[k]
                < 64 && n[sw.priority as int].tasks.contains_key(sw.key_at(k) as usize) by {
                assert(o[sw.priority as int].tasks.contains_key(sw.key_at(k) as usize));
            }
        }
    }

    /// Whether a task is stored under `key` at priority `priority`.
    pub fn contains_task(&mut self, priority: usize, key: usize) -> (b: bool)
        requires
            old(self).wf(),
        ensures
            final(self).wf(),
            final(self).levels() == old(self).levels(),
            final(self).sweep() == old(self).sweep(),
            b == (priority < MAX_PRIORITY && old(self).levels()[priority as int].tasks.contains_key(
                key,
            )),
    {
        if priority >= MAX_PRIORITY {
            return false;
        }
        let ghost o = self.levels();
        let b = self.inners[priority].contains(key);
        proof {
            assert(self.levels() =~= o);
        }
        b
    }

    /// A wake-up of the task stored under `key` at priority `priority`: the
    /// task becomes notified, so that the run loop polls it again.
    pub fn notify(&mut self, priority: usize, key: usize)
        requires
            old(self).wf(),
            priority < MAX_PRIORITY,
            old(self).levels()[priority as int].tasks.contains_key(key),
        ensures
            final(self).wf(),
            final(self).sweep() == old(self).sweep(),
            final(self).levels() == old(self).levels().update(
                priority as int,
                final(self).levels()[priority as int],
            ),
            final(self).levels()[priority as int].notified_one(
                old(self).levels()[priority as int],
                key,
            ),
            exec_step_relation(
                old(self).levels(),
                old(self).sweep(),
                final(self).levels(),
                final(self).sweep(),
                ExecStep::Woken(priority, key),
            ),
    {
        let ghost o = self.levels();
        self.inners[priority].notify(key);
        proof {
            let n = self.levels();
            assert(n =~= o.update(priority as int, n[priority as int]));
            assert forall|p: int| 0 <= p < MAX_PRIORITY implies #[trigger] n[p].wf() by {
                if p != priority {
                    assert(n[p] == o[p]);
                }
            }
            self.lemma_sweep_kept(o, priority as int);
        }
    }

    /// Records the outcome of polling the task stored under `key` at
    /// priority `priority`: a task that completed is marked as dropped; one
    /// that is still pending leaves everything as it was.
    pub fn finish_poll(&mut self, priority: usize, key: usize, ready: bool)
        requires
            old(self).wf(),
            priority < MAX_PRIORITY,
            page_of(key as int) < old(self).levels()[priority as int].pages.len(),
        ensures
            final(self).wf(),
            final(self).sweep() == old(self).sweep(),
            !ready ==> final(self).levels() == old(self).levels(),
            ready ==> final(self).levels() == old(self).levels().update(
                priority as int,
                final(self).levels()[priority as int],
            ),
            ready ==> final(self).levels()[priority as int].dropped_one(
                old(self).levels()[priority as int],
                key,
            ),
            exec_step_relation(
                old(self).levels(),
                old(self).sweep(),
                final(self).levels(),
                final(self).sweep(),
                ExecStep::Finished(priority, key, ready),
            ),
    {
        if ready {
            let ghost o = self.levels();
            self.inners[priority].mark_dropped(key);
            proof {
                let n = self.levels();
                assert(n =~= o.update(priority as int, n[priority as int]));
                assert forall|p: int| 0 <= p < MAX_PRIORITY implies #[trigger] n[p].wf() by {
                    if p != priority {
                        assert(n[p] == o[p]);
                    }
                }
                self.lemma_sweep_kept(o, priority as int);
            }
        }
    }

    /// One transition of the run loop. The loop sweeps priorities
    /// `0..MAX_PRIORITY` in order; at each it reads how many pages the
    /// level has, then drains those pages in order, and hands out each
    /// notified slot of a drained page, in ascending order, as a task to
    /// poll. After the last priority it starts over.
    pub fn run_step(&mut self) -> (r: RunAction)
        requires
            old(self).wf(),
        ensures
            final(self).wf(),
            match r {
                RunAction::Poll { priority, key, task } => {
                    &&& priority < MAX_PRIORITY
                    &&& old(self).levels()[priority as int].tasks.contains_key(key)
                    &&& old(self).levels()[priority as int].tasks[key] == task
                },
                _ => true,
            },
            run_step_relation(
                old(self).levels(),
                old(self).sweep(),
                final(self).levels(),
                final(self).sweep(),
                r,
            ),
            exec_step_relation(
                old(self).levels(),
                old(self).sweep(),
                final(self).levels(),
                final(self).sweep(),
                ExecStep::Run(r),
            ),
    {
        let ghost o = self.levels();
        if self.sweep.next < self.sweep.pending.len() {
            let priority = self.sweep.priority;
            let slot = self.sweep.pending[self.sweep.next];
            proof {
                assert(self.sweep().key_at(self.sweep.next as int) <= usize::MAX) by {
                    assert(o[priority as int].wf());
                    assert(self.sweep.current <= page_of(usize::MAX as int));
                }
                assert(self.inners@[priority as int]@ == o[priority as int]);
            }
            let key = self.sweep.current * WAKER_PAGE_SIZE + slot;
            self.sweep.next = self.sweep.next + 1;
            let task = self.inners[priority].task(key);
            proof {
                assert(self.levels() =~= o);
            }
            RunAction::Poll { priority, key, task }
        } else if self.sweep.priority >= MAX_PRIORITY {
            self.sweep = Sweep::start();
            RunAction::SweepDone
        } else if !self.sweep.started {
            let end = self.inners[self.sweep.priority].pages.len();
            self.sweep.started = true;
            self.sweep.page = 0;
            self.sweep.end = end;
            self.sweep.pending = Vec::new();
            self.sweep.next = 0;
            RunAction::Advance
        } else if self.sweep.page < self.sweep.end {
            let priority = self.sweep.priority;
            let page = self.sweep.page;
            assert(self.inners@[priority as int]@ == o[priority as int]);
            let (notified, _dropped) = self.inners[priority].take_page(page);
            let pending = set_bits(notified);
            self.sweep.pending = pending;
            self.sweep.current = page;
            self.sweep.page = page + 1;
            self.sweep.next = 0;
            proof {
                let n = self.levels();
                assert(n =~= o.update(priority as int, n[priority as int]));
                assert forall|p: int| 0 <= p < MAX_PRIORITY implies #[trigger] n[p].wf() by {
                    if p != priority {
                        assert(n[p] == o[p]);
                    }
                }
                let sw = self.sweep();
                assert(o[priority as int].wf());
                assert(n[priority as int].tasks == o[priority as int].tasks);
                assert(bits_of(notified) == o[priority as int].pages[page as int].notified());
                assert forall|k: int| sw.next <= k < sw.pending.len() implies #[trigger] sw.pending[k]
                    < 64 && n[priority as int].tasks.contains_key(sw.key_at(k) as usize) by {
                    let s = sw.pending[k] as int;
                    assert(sw.pending.contains(s as usize));
                    assert(sw.pending[k] < 64);
                    assert(bits_of(notified).contains(s));
                    assert(o[priority as int].pages[page as int].notified().contains(s));
                    assert(o[priority as int].tasks.contains_key((page * 64 + s) as usize));
                }
            }
            RunAction::Advance
        } else {
            self.sweep.priority = self.sweep.priority + 1;
            self.sweep.started = false;
            self.sweep.pending = Vec::new();
            self.sweep.next = 0;
            RunAction::Advance
        }
    }
}

/// A key is its page times the page size plus its slot, and the slot is
/// below the page size.
pub proof fn law_key_decomposition(key: usize)
    ensures
        page_of(key as int) * WAKER_PAGE_SIZE as int + slot_of(key as int) == key as int,
        0 <= slot_of(key as int) < WAKER_PAGE_SIZE as int,
        0 <= page_of(key as int),
{
}

/// When a page of a consistent level is drained, every slot it lists
/// belongs to a task of the level: polling what a drain hands out never
/// misses a task.
pub proof fn law_drained_slots_are_tasks(l: InnerView, pi: int, pending: Seq<usize>, k: int)
    requires
        l.wf(),
        0 <= pi < l.pages.len(),
        ascending_listing(pending, l.pages[pi].notified()),
        0 <= k < pending.len(),
    ensures
        l.tasks.contains_key((pi * WAKER_PAGE_SIZE as int + pending[k]) as usize),
{
    assert(pending.contains(pending[k]));
    assert(l.pages[pi].notified().contains(pending[k] as int));
}

/// A notified task is handed out when its page is drained: the listing of
/// the page's notified slots holds its slot.
pub proof fn law_notified_task_is_listed(l: InnerView, key: int, pending: Seq<usize>)
    requires
        l.notified(key),
        ascending_listing(pending, l.pages[page_of(key)].notified()),
    ensures
        pending.contains(slot_of(key) as usize),
        pending.len() > 0,
{
}

/// Whether `levels`, `sweeps` and `steps` record consecutive calls on an
/// executor: `steps[i]` takes levels `levels[i]` and sweep `sweeps[i]` to
/// `levels[i + 1]` and `sweeps[i + 1]`.
pub open spec fn is_exec_trace(
    levels: Seq<Seq<InnerView>>,
    sweeps: Seq<SweepView>,
    steps: Seq<ExecStep>,
) -> bool {
    &&& levels.len() == steps.len() + 1
    &&& sweeps.len() == steps.len() + 1
    &&& forall|i: int|
        0 <= i < steps.len() ==> #[trigger] exec_step_relation(
            levels[i],
            sweeps[i],
            levels[i + 1],
            sweeps[i + 1],
            steps[i],
        )
}

/// Whether the call `st` hands out the task `key` of priority `p` for
/// polling.
pub open spec fn polls(st: ExecStep, p: int, key: int) -> bool {
    match st {
        ExecStep::Run(RunAction::Poll { priority, key: k, .. }) => priority == p && k == key,
        _ => false,
    }
}

/// Whether the call `st` wakes the task `key` of priority `p`, or stores a
/// new task under that key.
pub open spec fn wakes(st: ExecStep, p: int, key: int) -> bool {
    match st {
        ExecStep::Added(q, k, _) => q == p && k == key,
        ExecStep::Woken(q, k) => q == p && k == key,
        _ => false,
    }
}

/// Whether one of the first `i` calls hands out the task `key` of priority
/// `p`, with handle `task`, for polling.
pub open spec fn polled_before(steps: Seq<ExecStep>, i: int, p: int, key: usize, task: u64) -> bool {
    polled_between(steps, 0, i, p, key, task)
}

/// Whether one of the calls `a..b` hands out the task `key` of priority
/// `p`, with handle `task`, for polling.
pub open spec fn polled_between(
    steps: Seq<ExecStep>,
    a: int,
    b: int,
    p: int,
    key: usize,
    task: u64,
) -> bool {
    exists|j: int|
        a <= j < b && #[trigger] steps[j] == ExecStep::Run(
            (RunAction::Poll { priority: p as usize, key, task }),
        )
}

/// Whether the slot of task `key` of priority `p` is among the slots that
/// the sweep `s` still has to hand out.
pub open spec fn pending_key(s: SweepView, p: int, key: int) -> bool {
    &&& s.priority == p
    &&& exists|m: int| s.next <= m < s.pending.len() && #[trigger] s.key_at(m) == key
}

/// The run loop, at levels `lv` and position `s`, still has to hand out
/// the notified task `key` of priority `p` in the current sweep, and is
/// bound to: either it has not reached the task's page yet and the task is
/// notified, or the page was drained and the task's slot is still pending.
pub open spec fn awaiting(lv: Seq<InnerView>, s: SweepView, p: int, key: usize) -> bool {
    let kp = page_of(key as int);
    let ks = slot_of(key as int);
    ||| s.priority < p && lv[p].notified(key as int)
    ||| s.priority == p && !s.started && s.next >= s.pending.len() && lv[p].notified(key as int)
    ||| s.priority == p && s.started && s.page <= kp < s.end && lv[p].notified(key as int)
    ||| s.priority == p && s.started && s.current == kp && exists|k: int|
        s.next <= k < s.pending.len() && #[trigger] s.pending[k] == ks
}

/// The calls other than `run_step` keep the sweep, change one level only,
/// and keep the notified state of every task they do not wake, and the
/// handle of every task already stored.
proof fn lemma_side_call(
    lv: Seq<InnerView>,
    o: SweepView,
    nl: Seq<InnerView>,
    n: SweepView,
    st: ExecStep,
    p: int,
    key: usize,
)
    requires
        exec_step_relation(lv, o, nl, n, st),
        !(st is Run),
        lv.len() == MAX_PRIORITY,
        0 <= p < MAX_PRIORITY,
        lv[p].tasks.contains_key(key) || !wakes(st, p, key as int),
    ensures
        n == o,
        nl.len() == MAX_PRIORITY,
        forall|q: int| 0 <= q < MAX_PRIORITY ==> #[trigger] nl[q].pages.len() >= lv[q].pages.len(),
        lv[p].tasks.contains_key(key) ==> nl[p].tasks.contains_key(key) && nl[p].tasks[key]
            == lv[p].tasks[key],
        !wakes(st, p, key as int) ==> nl[p].notified(key as int) == lv[p].notified(key as int),
        wakes(st, p, key as int) ==> nl[p].notified(key as int),
{
    match st {
        ExecStep::Added(q, k, t) => {
            assert(nl[q as int].notified(key as int) == lv[q as int].notified(key as int) || k == key);
            if q as int != p {
                assert(nl[p] == lv[p]);
            }
            assert forall|q2: int| 0 <= q2 < MAX_PRIORITY implies #[trigger] nl[q2].pages.len()
                >= lv[q2].pages.len() by {
                if q2 != q as int {
                    assert(nl[q2] == lv[q2]);
                }
            }
        },
        ExecStep::Woken(q, k) => {
            assert(nl[q as int].notified(key as int) == lv[q as int].notified(key as int) || k == key);
            if q as int != p {
                assert(nl[p] == lv[p]);
            }
            assert forall|q2: int| 0 <= q2 < MAX_PRIORITY implies #[trigger] nl[q2].pages.len()
                >= lv[q2].pages.len() by {
                if q2 != q as int {
                    assert(nl[q2] == lv[q2]);
                }
            }
        },
        ExecStep::Finished(q, k, ready) => {
            if ready {
                assert(nl[q as int].notified(key as int) == lv[q as int].notified(key as int));
                if q as int != p {
                    assert(nl[p] == lv[p]);
                }
                assert forall|q2: int| 0 <= q2 < MAX_PRIORITY implies #[trigger] nl[q2].pages.len()
                    >= lv[q2].pages.len() by {
                    if q2 != q as int {
                        assert(nl[q2] == lv[q2]);
                    }
                }
            }
        },
        ExecStep::Run(_) => {},
    }
}

proof fn lemma_awaiting_step(
    lv: Seq<InnerView>,
    o: SweepView,
    nl: Seq<InnerView>,
    n: SweepView,
    st: ExecStep,
    p: int,
    key: usize,
    t: u64,
)
    requires
        exec_step_relation(lv, o, nl, n, st),
        lv.len() == MAX_PRIORITY,
        0 <= p < MAX_PRIORITY,
        awaiting(lv, o, p, key),
        lv[p].tasks.contains_key(key),
        lv[p].tasks[key] == t,
    ensures
        nl.len() == MAX_PRIORITY,
        nl[p].tasks.contains_key(key),
        nl[p].tasks[key] == t,
        st != ExecStep::Run(RunAction::SweepDone),
        st == ExecStep::Run((RunAction::Poll { priority: p as usize, key, task: t })) || awaiting(
            nl,
            n,
            p,
            key,
        ),
{
    let kp = page_of(key as int);
    let ks = slot_of(key as int);
    law_key_decomposition(key);
    match st {
        ExecStep::Run(r) => {
            if o.next < o.pending.len() {
                if o.priority == p && o.started && o.current == kp && o.pending[o.next as int] == ks {
                    assert(o.key_at(o.next as int) == key as int);
                } else if o.priority == p && o.started && o.current == kp && !(o.page <= kp < o.end
                    && lv[p].notified(key as int)) {
                    let k = choose|k: int| o.next <= k < o.pending.len() && #[trigger] o.pending[k] == ks;
                    assert(k != o.next);
                    assert(n.pending[k] == ks);
                }
            } else if o.priority >= MAX_PRIORITY {
            } else if !o.started {
            } else if o.page < o.end {
                let q = o.priority as int;
                if q == p {
                    if o.page == kp {
                        assert(lv[p].pages[kp].notified().contains(ks));
                        assert(n.pending.contains(ks as usize));
                        let k = choose|k: int| 0 <= k < n.pending.len() && n.pending[k] == ks as usize;
                        assert(n.pending[k] == ks);
                    } else {
                        assert(nl[p].pages[kp] == lv[p].pages[kp]);
                    }
                } else {
                    assert(nl[p] == lv[p]);
                }
            } else {
            }
        },
        _ => {
            lemma_side_call(lv, o, nl, n, st, p, key);
            if lv[p].notified(key as int) {
                assert(nl[p].notified(key as int));
            }
        },
    }
}

proof fn lemma_awaiting_along_trace(
    levels: Seq<Seq<InnerView>>,
    sweeps: Seq<SweepView>,
    steps: Seq<ExecStep>,
    p: int,
    key: usize,
    t: u64,
    i0: int,
    i: int,
)
    requires
        is_exec_trace(levels, sweeps, steps),
        0 <= i0 <= i <= steps.len(),
        levels[i0].len() == MAX_PRIORITY,
        0 <= p < MAX_PRIORITY,
        awaiting(levels[i0], sweeps[i0], p, key),
        levels[i0][p].tasks.contains_key(key),
        levels[i0][p].tasks[key] == t,
    ensures
        levels[i].len() == MAX_PRIORITY,
        levels[i][p].tasks.contains_key(key),
        levels[i][p].tasks[key] == t,
        polled_between(steps, i0, i, p, key, t) || (awaiting(levels[i], sweeps[i], p, key) && forall|
            j: int,
        | i0 <= j < i ==> #[trigger] steps[j] != ExecStep::Run(RunAction::SweepDone)),
    decreases i - i0,
{
    if i > i0 {
        lemma_awaiting_along_trace(levels, sweeps, steps, p, key, t, i0, i - 1);
        let k = i - 1;
        assert(exec_step_relation(levels[k], sweeps[k], levels[k + 1], sweeps[k + 1], steps[k]));
        assert(k + 1 == i);
        if polled_between(steps, i0, k, p, key, t) {
            let j = choose|j: int|
                i0 <= j < k && #[trigger] steps[j] == ExecStep::Run(
                    (RunAction::Poll { priority: p as usize, key, task: t }),
                );
            assert(steps[j] == ExecStep::Run((RunAction::Poll { priority: p as usize, key, task: t })));
            lemma_tasks_kept(levels[k], sweeps[k], levels[i], sweeps[i], steps[k], p, key);
        } else {
            lemma_awaiting_step(levels[k], sweeps[k], levels[i], sweeps[i], steps[k], p, key, t);
            if steps[k] == ExecStep::Run((RunAction::Poll { priority: p as usize, key, task: t })) {
                assert(polled_between(steps, i0, i, p, key, t));
            }
        }
    }
}

/// Every call keeps the handle of a task already stored.
proof fn lemma_tasks_kept(
    lv: Seq<InnerView>,
    o: SweepView,
    nl: Seq<InnerView>,
    n: SweepView,
    st: ExecStep,
    p: int,
    key: usize,
)
    requires
        exec_step_relation(lv, o, nl, n, st),
        lv.len() == MAX_PRIORITY,
        0 <= p < MAX_PRIORITY,
        lv[p].tasks.contains_key(key),
    ensures
        nl.len() == MAX_PRIORITY,
        nl[p].tasks.contains_key(key),
        nl[p].tasks[key] == lv[p].tasks[key],
{
    match st {
        ExecStep::Run(r) => {
            if o.next >= o.pending.len() && o.priority < MAX_PRIORITY && o.started && o.page
                < o.end {
                if o.priority != p {
                    assert(nl[p] == lv[p]);
                }
            }
        },
        _ => {
            lemma_side_call(lv, o, nl, n, st, p, key);
        },
    }
}

/// The run loop polls every notified task in the sweep that follows, even
/// with tasks added, woken and finished between its steps: along any run of
/// calls that starts a sweep and ends it, a task that is notified when the
/// sweep starts is handed out for polling, with its handle.
pub proof fn law_notified_task_polled_in_sweep(
    levels: Seq<Seq<InnerView>>,
    sweeps: Seq<SweepView>,
    steps: Seq<ExecStep>,
    p: usize,
    key: usize,
)
    requires
        is_exec_trace(levels, sweeps, steps),
        sweeps[0] == SweepView::start(),
        levels[0].len() == MAX_PRIORITY,
        p < MAX_PRIORITY,
        levels[0][p as int].wf(),
        levels[0][p as int].notified(key as int),
        steps.len() > 0,
        steps[steps.len() - 1] == ExecStep::Run(RunAction::SweepDone),
    ensures
        polled_before(steps, steps.len() as int, p as int, key, levels[0][p as int].tasks[key]),
{
    let l = levels[0][p as int];
    law_key_decomposition(key);
    let kp = page_of(key as int);
    let ks = slot_of(key as int);
    assert(l.pages[kp].notified().contains(ks));
    assert(l.tasks.contains_key((kp * 64 + ks) as usize));
    let t = l.tasks[key];
    lemma_awaiting_along_trace(levels, sweeps, steps, p as int, key, t, 0, steps.len() as int);
    if !polled_before(steps, steps.len() as int, p as int, key, t) {
        let last = steps.len() - 1;
        assert(steps[last] != ExecStep::Run(RunAction::SweepDone));
    }
}

/// A task added at any priority is polled, with its handle, in the next
/// full sweep, whatever else is added, woken or finished meanwhile: if
/// level `p` of the levels a sweep starts from is some consistent level
/// `before` after `add_task` stored `task` under `key`, the sweep hands
/// that task out.
pub proof fn law_added_task_polled_in_next_sweep(
    levels: Seq<Seq<InnerView>>,
    sweeps: Seq<SweepView>,
    steps: Seq<ExecStep>,
    before: InnerView,
    p: usize,
    key: usize,
    task: u64,
)
    requires
        is_exec_trace(levels, sweeps, steps),
        sweeps[0] == SweepView::start(),
        levels[0].len() == MAX_PRIORITY,
        p < MAX_PRIORITY,
        levels[0][p as int].wf(),
        levels[0][p as int].inserted(before, key, task),
        steps.len() > 0,
        steps[steps.len() - 1] == ExecStep::Run(RunAction::SweepDone),
    ensures
        polled_before(steps, steps.len() as int, p as int, key, task),
{
    law_notified_task_polled_in_sweep(levels, sweeps, steps, p, key);
}

/// How much of the current sweep is left, compared lexicographically:
/// priority levels to visit, whether the level's page count is still to be
/// read, pages to drain, slots to hand out.
pub open spec fn sweep_left(s: SweepView) -> (int, int, int, int) {
    (
        MAX_PRIORITY as int - s.priority,
        if s.started {
            0
        } else {
            1
        },
        s.end - s.page,
        s.pending.len() - s.next,
    )
}

/// Lexicographic order on what is left of a sweep, over non-negative
/// components.
pub open spec fn left_less(a: (int, int, int, int), b: (int, int, int, int)) -> bool {
    &&& 0 <= a.0 && 0 <= a.1 && 0 <= a.2 && 0 <= a.3
    &&& 0 <= b.0 && 0 <= b.1 && 0 <= b.2 && 0 <= b.3
    &&& {
        ||| a.0 < b.0
        ||| a.0 == b.0 && a.1 < b.1
        ||| a.0 == b.0 && a.1 == b.1 && a.2 < b.2
        ||| a.0 == b.0 && a.1 == b.1 && a.2 == b.2 && a.3 < b.3
    }
}

/// Every transition of the run loop other than the one that ends a sweep
/// makes progress: what is left of the sweep strictly decreases in a
/// well-founded order, so every sweep ends. The other calls leave the sweep
/// as it is.
pub proof fn law_run_step_progresses(
    lv: Seq<InnerView>,
    o: SweepView,
    nl: Seq<InnerView>,
    n: SweepView,
    r: RunAction,
)
    requires
        o.wf(lv),
        run_step_relation(lv, o, nl, n, r),
    ensures
        r != RunAction::SweepDone ==> left_less(sweep_left(n), sweep_left(o)),
        r == RunAction::SweepDone ==> n == SweepView::start(),
{
}

/// Bounds that every executor state keeps: levels and pages fit in their
/// index types, a started level's page range lies within its pages, and
/// pending slots and their page fit in a key.
spec fn ranges_ok(lv: Seq<InnerView>, s: SweepView) -> bool {
    &&& lv.len() == MAX_PRIORITY
    &&& forall|q: int|
        0 <= q < MAX_PRIORITY ==> #[trigger] lv[q].pages.len() <= page_of(usize::MAX as int) + 1
    &&& s.started ==> s.priority < MAX_PRIORITY && s.end <= lv[s.priority as int].pages.len()
    &&& s.next < s.pending.len() ==> s.current <= page_of(usize::MAX as int) && s.priority
        < MAX_PRIORITY
    &&& forall|m: int| s.next <= m < s.pending.len() ==> #[trigger] s.pending[m] < 64
    &&& s.next <= s.pending.len()
    &&& s.priority <= MAX_PRIORITY
}

proof fn lemma_ranges_from_wf(lv: Seq<InnerView>, s: SweepView)
    requires
        exec_wf(lv, s),
    ensures
        ranges_ok(lv, s),
{
    if s.next < s.pending.len() {
        assert(lv[s.priority as int].wf());
    }
    assert forall|q: int| 0 <= q < MAX_PRIORITY implies #[trigger] lv[q].pages.len() <= page_of(
        usize::MAX as int,
    ) + 1 by {
        assert(lv[q].wf());
    }
}

proof fn lemma_ranges_step(
    lv: Seq<InnerView>,
    o: SweepView,
    nl: Seq<InnerView>,
    n: SweepView,
    st: ExecStep,
)
    requires
        exec_step_relation(lv, o, nl, n, st),
        ranges_ok(lv, o),
    ensures
        ranges_ok(nl, n),
{
    match st {
        ExecStep::Run(r) => {
            if o.next >= o.pending.len() && o.priority < MAX_PRIORITY && o.started && o.page
                < o.end {
                let q = o.priority as int;
                assert forall|q2: int| 0 <= q2 < MAX_PRIORITY implies #[trigger] nl[q2].pages.len()
                    <= page_of(usize::MAX as int) + 1 by {
                    if q2 != q {
                        assert(nl[q2] == lv[q2]);
                    }
                }
            }
        },
        ExecStep::Added(q, k, t) => {
            assert forall|q2: int| 0 <= q2 < MAX_PRIORITY implies #[trigger] nl[q2].pages.len()
                <= page_of(usize::MAX as int) + 1 && nl[q2].pages.len() >= lv[q2].pages.len() by {
                if q2 != q as int {
                    assert(nl[q2] == lv[q2]);
                } else {
                    assert(page_of(k as int) <= page_of(usize::MAX as int));
                }
            }
        },
        ExecStep::Woken(q, k) => {
            assert forall|q2: int| 0 <= q2 < MAX_PRIORITY implies #[trigger] nl[q2].pages.len()
                == lv[q2].pages.len() by {
                if q2 != q as int {
                    assert(nl[q2] == lv[q2]);
                }
            }
        },
        ExecStep::Finished(q, k, ready) => {
            assert forall|q2: int| 0 <= q2 < MAX_PRIORITY implies #[trigger] nl[q2].pages.len()
                == lv[q2].pages.len() by {
                if q2 != q as int && ready {
                    assert(nl[q2] == lv[q2]);
                }
            }
        },
    }
}

proof fn lemma_unwoken_step(
    lv: Seq<InnerView>,
    o: SweepView,
    nl: Seq<InnerView>,
    n: SweepView,
    st: ExecStep,
    p: int,
    key: usize,
)
    requires
        exec_step_relation(lv, o, nl, n, st),
        ranges_ok(lv, o),
        0 <= p < MAX_PRIORITY,
        !lv[p].notified(key as int),
        !pending_key(o, p, key as int),
        !wakes(st, p, key as int),
    ensures
        ranges_ok(nl, n),
        !nl[p].notified(key as int),
        !pending_key(n, p, key as int),
        !polls(st, p, key as int),
{
    lemma_ranges_step(lv, o, nl, n, st);
    law_key_decomposition(key);
    match st {
        ExecStep::Run(r) => {
            if o.next < o.pending.len() {
                assert(0 <= o.key_at(o.next as int) <= usize::MAX);
                if polls(st, p, key as int) {
                    assert(o.key_at(o.next as int) == key as int);
                    assert(o.priority == p);
                    assert(pending_key(o, p, key as int));
                }
                if pending_key(n, p, key as int) {
                    let m = choose|m: int| n.next <= m < n.pending.len() && #[trigger] n.key_at(m)
                        == key as int;
                    assert(o.key_at(m) == key as int);
                }
            } else if o.priority >= MAX_PRIORITY {
            } else if !o.started {
            } else if o.page < o.end {
                let q = o.priority as int;
                if q == p {
                    if pending_key(n, p, key as int) {
                        let m = choose|m: int| n.next <= m < n.pending.len() && #[trigger] n.key_at(m)
                            == key as int;
                        let slot = n.pending[m] as int;
                        assert(n.pending.contains(n.pending[m]));
                        assert(lv[p].pages[o.page as int].notified().contains(slot));
                        assert(page_of(key as int) == o.page && slot_of(key as int) == slot);
                        assert(lv[p].notified(key as int));
                    }
                    if page_of(key as int) != o.page && page_of(key as int) < nl[p].pages.len() {
                        assert(nl[p].pages[page_of(key as int)] == lv[p].pages[page_of(key as int)]);
                    }
                } else {
                    assert(nl[p] == lv[p]);
                }
            } else {
            }
        },
        _ => {
            lemma_side_call(lv, o, nl, n, st, p, key);
        },
    }
}

proof fn lemma_unwoken_along_trace(
    levels: Seq<Seq<InnerView>>,
    sweeps: Seq<SweepView>,
    steps: Seq<ExecStep>,
    i: int,
    p: int,
    key: usize,
    j: int,
)
    requires
        is_exec_trace(levels, sweeps, steps),
        0 <= i <= j <= steps.len(),
        ranges_ok(levels[i], sweeps[i]),
        0 <= p < MAX_PRIORITY,
        !levels[i][p].notified(key as int),
        !pending_key(sweeps[i], p, key as int),
        forall|m: int| i <= m < steps.len() ==> !wakes(#[trigger] steps[m], p, key as int),
    ensures
        ranges_ok(levels[j], sweeps[j]),
        !levels[j][p].notified(key as int),
        !pending_key(sweeps[j], p, key as int),
        forall|m: int| i <= m < j ==> !polls(#[trigger] steps[m], p, key as int),
    decreases j - i,
{
    if j > i {
        lemma_unwoken_along_trace(levels, sweeps, steps, i, p, key, j - 1);
        let k = j - 1;
        assert(exec_step_relation(levels[k], sweeps[k], levels[k + 1], sweeps[k + 1], steps[k]));
        assert(k + 1 == j);
        assert(!wakes(steps[k], p, key as int));
        lemma_unwoken_step(levels[k], sweeps[k], levels[j], sweeps[j], steps[k], p, key);
    }
}

/// From any point of a run of calls on a consistent executor, a task that
/// is neither notified nor still pending in the current sweep is never
/// handed out for polling, unless a later call wakes it.
pub proof fn law_unwoken_task_not_polled(
    levels: Seq<Seq<InnerView>>,
    sweeps: Seq<SweepView>,
    steps: Seq<ExecStep>,
    i: int,
    p: usize,
    key: usize,
)
    requires
        is_exec_trace(levels, sweeps, steps),
        0 <= i <= steps.len(),
        exec_wf(levels[i], sweeps[i]),
        p < MAX_PRIORITY,
        !levels[i][p as int].notified(key as int),
        !pending_key(sweeps[i], p as int, key as int),
        forall|m: int| i <= m < steps.len() ==> !wakes(#[trigger] steps[m], p as int, key as int),
    ensures
        forall|m: int| i <= m < steps.len() ==> !polls(#[trigger] steps[m], p as int, key as int),
{
    lemma_ranges_from_wf(levels[i], sweeps[i]);
    lemma_unwoken_along_trace(levels, sweeps, steps, i, p as int, key, steps.len() as int);
}

/// A task handed out for polling while it was not notified again since its
/// page was drained is not handed out again unless a later call wakes it: a
/// task whose poll completed, and that nobody wakes, is never polled again.
/// This holds from any point of a sweep, whatever else is added, woken or
/// finished meanwhile.
pub proof fn law_polled_task_not_polled_again(
    levels: Seq<Seq<InnerView>>,
    sweeps: Seq<SweepView>,
    steps: Seq<ExecStep>,
    j: int,
    p: usize,
    key: usize,
)
    requires
        is_exec_trace(levels, sweeps, steps),
        0 <= j < steps.len(),
        exec_wf(levels[j], sweeps[j]),
        polls(steps[j], p as int, key as int),
        !levels[j][p as int].notified(key as int),
        forall|m: int| j < m < steps.len() ==> !wakes(#[trigger] steps[m], p as int, key as int),
    ensures
        forall|m: int| j < m < steps.len() ==> !polls(#[trigger] steps[m], p as int, key as int),
{
    let o = sweeps[j];
    let n = sweeps[j + 1];
    assert(exec_step_relation(levels[j], o, levels[j + 1], n, steps[j]));
    lemma_ranges_from_wf(levels[j], o);
    lemma_ranges_step(levels[j], o, levels[j + 1], n, steps[j]);
    assert(o.next < o.pending.len());
    assert(0 <= o.key_at(o.next as int) <= usize::MAX);
    assert(o.key_at(o.next as int) == key as int);
    if pending_key(n, p as int, key as int) {
        let m = choose|m: int| n.next <= m < n.pending.len() && #[trigger] n.key_at(m) == key as int;
        assert(o.pending[o.next as int] < o.pending[m]);
    }
    assert(levels[j + 1] == levels[j]);
    lemma_unwoken_along_trace(levels, sweeps, steps, j + 1, p as int, key, steps.len() as int);
}

/// The tasks handed out for polling by the calls `a..b`, in order, as
/// (priority, key).
pub open spec fn polls_in(steps: Seq<ExecStep>, a: int, b: int) -> Seq<(usize, usize)>
    decreases b - a,
{
    if b <= a {
        Seq::empty()
    } else {
        polls_in(steps, a, b - 1) + match steps[b - 1] {
            ExecStep::Run(RunAction::Poll { priority, key, .. }) => seq![(priority, key)],
            _ => Seq::empty(),
        }
    }
}

/// Whether the call `st` is a step of the run loop that hands out nothing.
pub open spec fn is_quiet_run_step(st: ExecStep) -> bool {
    match st {
        ExecStep::Run(r) => !(r is Poll),
        _ => false,
    }
}

/// Whether the next step of the run loop from `s` drains a page.
pub open spec fn drains_next(s: SweepView) -> bool {
    &&& s.next >= s.pending.len()
    &&& s.priority < MAX_PRIORITY
    &&& s.started
    &&& s.page < s.end
}

/// The keys of the slots listed in `pending`, on page `current` of
/// priority `priority`.
pub open spec fn keys_of(priority: nat, current: nat, pending: Seq<usize>) -> Seq<(usize, usize)> {
    pending.map_values(
        |slot: usize| (priority as usize, (current * WAKER_PAGE_SIZE as int + slot) as usize),
    )
}

proof fn lemma_drain_polls(
    levels: Seq<Seq<InnerView>>,
    sweeps: Seq<SweepView>,
    steps: Seq<ExecStep>,
    d: int,
    i: int,
)
    requires
        is_exec_trace(levels, sweeps, steps),
        0 <= d < i < steps.len() + 1,
        steps[d] is Run,
        drains_next(sweeps[d]),
        forall|j: int| d < j < i ==> !is_quiet_run_step(#[trigger] steps[j]),
    ensures
        sweeps[i].priority == sweeps[d + 1].priority,
        sweeps[i].current == sweeps[d + 1].current,
        sweeps[i].pending == sweeps[d + 1].pending,
        sweeps[i].next <= sweeps[i].pending.len(),
        polls_in(steps, d + 1, i) == keys_of(
            sweeps[d + 1].priority,
            sweeps[d + 1].current,
            sweeps[d + 1].pending,
        ).take(sweeps[i].next as int),
    decreases i - d,
{
    let s1 = sweeps[d + 1];
    let keys = keys_of(s1.priority, s1.current, s1.pending);
    if i == d + 1 {
        assert(exec_step_relation(levels[d], sweeps[d], levels[d + 1], sweeps[d + 1], steps[d]));
        assert(polls_in(steps, d + 1, i) =~= keys.take(0));
    } else {
        lemma_drain_polls(levels, sweeps, steps, d, i - 1);
        let k = i - 1;
        assert(exec_step_relation(levels[k], sweeps[k], levels[k + 1], sweeps[k + 1], steps[k]));
        assert(k + 1 == i);
        assert(!is_quiet_run_step(steps[k]));
        let o = sweeps[k];
        match steps[k] {
            ExecStep::Run(r) => {
                assert(r is Poll);
                assert(o.next < o.pending.len());
                assert(polls_in(steps, d + 1, i) =~= keys.take(o.next as int).push(
                    keys[o.next as int],
                ));
                assert(keys.take(o.next as int).push(keys[o.next as int]) =~= keys.take(
                    o.next + 1 as int,
                ));
            },
            _ => {
                assert(polls_in(steps, d + 1, i) =~= polls_in(steps, d + 1, k));
            },
        }
    }
}

/// Each task of a drained page is polled exactly once, in ascending order
/// of key, and nothing else is polled meanwhile: when the run loop drains
/// page `page` of priority `priority`, the polls that follow, up to its
/// next step that hands nothing out, are exactly the notified slots of that
/// page in ascending order, whatever else is added, woken or finished
/// between the steps.
pub proof fn law_drained_page_polled_in_order(
    levels: Seq<Seq<InnerView>>,
    sweeps: Seq<SweepView>,
    steps: Seq<ExecStep>,
    d: int,
    e: int,
)
    requires
        is_exec_trace(levels, sweeps, steps),
        0 <= d < e < steps.len(),
        steps[d] is Run,
        drains_next(sweeps[d]),
        forall|j: int| d < j < e ==> !is_quiet_run_step(#[trigger] steps[j]),
        is_quiet_run_step(steps[e]),
    ensures
        ascending_listing(
            sweeps[d + 1].pending,
            levels[d][sweeps[d].priority as int].pages[sweeps[d].page as int].notified(),
        ),
        polls_in(steps, d + 1, e) == keys_of(
            sweeps[d].priority,
            sweeps[d].page,
            sweeps[d + 1].pending,
        ),
{
    assert(exec_step_relation(levels[d], sweeps[d], levels[d + 1], sweeps[d + 1], steps[d]));
    lemma_drain_polls(levels, sweeps, steps, d, e);
    assert(exec_step_relation(levels[e], sweeps[e], levels[e + 1], sweeps[e + 1], steps[e]));
    let s1 = sweeps[d + 1];
    let keys = keys_of(s1.priority, s1.current, s1.pending);
    assert(keys.take(s1.pending.len() as int) =~= keys);
}

proof fn lemma_seen_step(
    lv: Seq<InnerView>,
    o: SweepView,
    nl: Seq<InnerView>,
    n: SweepView,
    st: ExecStep,
    p: int,
    key: usize,
    t: u64,
)
    requires
        exec_step_relation(lv, o, nl, n, st),
        ranges_ok(lv, o),
        0 <= p < MAX_PRIORITY,
        lv[p].tasks.contains_key(key),
        lv[p].tasks[key] == t,
        lv[p].notified(key as int) || pending_key(o, p, key as int),
    ensures
        ranges_ok(nl, n),
        nl[p].tasks.contains_key(key),
        nl[p].tasks[key] == t,
        st == ExecStep::Run((RunAction::Poll { priority: p as usize, key, task: t })) || nl[p].notified(
            key as int,
        ) || pending_key(n, p, key as int),
{
    lemma_ranges_step(lv, o, nl, n, st);
    lemma_tasks_kept(lv, o, nl, n, st, p, key);
    law_key_decomposition(key);
    match st {
        ExecStep::Run(r) => {
            if o.next < o.pending.len() {
                if pending_key(o, p, key as int) {
                    let m = choose|m: int| o.next <= m < o.pending.len() && #[trigger] o.key_at(m)
                        == key as int;
                    if m == o.next {
                        assert(0 <= o.key_at(o.next as int) <= usize::MAX);
                    } else {
                        assert(n.key_at(m) == key as int);
                    }
                }
            } else if o.priority >= MAX_PRIORITY {
            } else if !o.started {
            } else if o.page < o.end {
                let q = o.priority as int;
                let kp = page_of(key as int);
                let ks = slot_of(key as int);
                if q == p {
                    if o.page == kp {
                        assert(lv[p].pages[kp].notified().contains(ks));
                        assert(n.pending.contains(ks as usize));
                        let m = choose|m: int| 0 <= m < n.pending.len() && n.pending[m] == ks as usize;
                        assert(n.key_at(m) == key as int);
                    } else {
                        assert(nl[p].pages[kp] == lv[p].pages[kp]);
                    }
                } else {
                    assert(nl[p] == lv[p]);
                }
            } else {
            }
        },
        _ => {
            lemma_side_call(lv, o, nl, n, st, p, key);
        },
    }
}

proof fn lemma_seen_along_trace(
    levels: Seq<Seq<InnerView>>,
    sweeps: Seq<SweepView>,
    steps: Seq<ExecStep>,
    p: int,
    key: usize,
    t: u64,
    i0: int,
    i: int,
)
    requires
        is_exec_trace(levels, sweeps, steps),
        0 <= i0 <= i <= steps.len(),
        ranges_ok(levels[i0], sweeps[i0]),
        0 <= p < MAX_PRIORITY,
        levels[i0][p].tasks.contains_key(key),
        levels[i0][p].tasks[key] == t,
        levels[i0][p].notified(key as int) || pending_key(sweeps[i0], p, key as int),
    ensures
        ranges_ok(levels[i], sweeps[i]),
        levels[i][p].tasks.contains_key(key),
        levels[i][p].tasks[key] == t,
        polled_between(steps, i0, i, p, key, t) || levels[i][p].notified(key as int) || pending_key(
            sweeps[i],
            p,
            key as int,
        ),
    decreases i - i0,
{
    if i > i0 {
        lemma_seen_along_trace(levels, sweeps, steps, p, key, t, i0, i - 1);
        let k = i - 1;
        assert(exec_step_relation(levels[k], sweeps[k], levels[k + 1], sweeps[k + 1], steps[k]));
        assert(k + 1 == i);
        if polled_between(steps, i0, k, p, key, t) {
            let j = choose|j: int|
                i0 <= j < k && #[trigger] steps[j] == ExecStep::Run(
                    (RunAction::Poll { priority: p as usize, key, task: t }),
                );
            assert(steps[j] == ExecStep::Run((RunAction::Poll { priority: p as usize, key, task: t })));
            lemma_ranges_step(levels[k], sweeps[k], levels[i], sweeps[i], steps[k]);
            lemma_tasks_kept(levels[k], sweeps[k], levels[i], sweeps[i], steps[k], p, key);
        } else {
            lemma_seen_step(levels[k], sweeps[k], levels[i], sweeps[i], steps[k], p, key, t);
            if steps[k] == ExecStep::Run((RunAction::Poll { priority: p as usize, key, task: t })) {
                assert(polled_between(steps, i0, i, p, key, t));
            }
        }
    }
}

proof fn lemma_polled_by_next_sweep(
    levels: Seq<Seq<InnerView>>,
    sweeps: Seq<SweepView>,
    steps: Seq<ExecStep>,
    i: int,
    p: int,
    key: usize,
    t: u64,
    d: int,
)
    requires
        is_exec_trace(levels, sweeps, steps),
        0 <= i <= d < steps.len() - 1,
        ranges_ok(levels[i], sweeps[i]),
        0 <= p < MAX_PRIORITY,
        levels[i][p].tasks.contains_key(key),
        levels[i][p].tasks[key] == t,
        levels[i][p].notified(key as int) || pending_key(sweeps[i], p, key as int),
        steps[d] == ExecStep::Run(RunAction::SweepDone),
        steps[steps.len() - 1] == ExecStep::Run(RunAction::SweepDone),
    ensures
        polled_between(steps, i, steps.len() as int, p, key, t),
{
    lemma_seen_along_trace(levels, sweeps, steps, p, key, t, i, d);
    if polled_between(steps, i, d, p, key, t) {
        let j = choose|j: int|
            i <= j < d && #[trigger] steps[j] == ExecStep::Run(
                (RunAction::Poll { priority: p as usize, key, task: t }),
            );
        assert(steps[j] == ExecStep::Run((RunAction::Poll { priority: p as usize, key, task: t })));
    } else {
        assert(exec_step_relation(levels[d], sweeps[d], levels[d + 1], sweeps[d + 1], steps[d]));
        let o = sweeps[d];
        assert(o.next >= o.pending.len());
        assert(!pending_key(o, p, key as int));
        assert(levels[d + 1] == levels[d]);
        assert(sweeps[d + 1] == SweepView::start());
        assert(awaiting(levels[d + 1], sweeps[d + 1], p, key));
        let last = steps.len() - 1;
        lemma_awaiting_along_trace(levels, sweeps, steps, p, key, t, d + 1, steps.len() as int);
        if !polled_between(steps, d + 1, steps.len() as int, p, key, t) {
            assert(steps[last] != ExecStep::Run(RunAction::SweepDone));
        }
        let j = choose|j: int|
            d + 1 <= j < steps.len() && #[trigger] steps[j] == ExecStep::Run(
                (RunAction::Poll { priority: p as usize, key, task: t }),
            );
        assert(steps[j] == ExecStep::Run((RunAction::Poll { priority: p as usize, key, task: t })));
    }
}

/// From any point of a run of calls on a consistent executor, a task that
/// is notified, or whose slot is still to be handed out in the current
/// sweep, is polled, with its handle, by the end of the following sweep:
/// along any run that goes on through two ends of sweeps (at `d` and at
/// its last call), whatever is added, woken or finished meanwhile.
pub proof fn law_notified_task_polled_by_next_sweep(
    levels: Seq<Seq<InnerView>>,
    sweeps: Seq<SweepView>,
    steps: Seq<ExecStep>,
    i: int,
    p: usize,
    key: usize,
    d: int,
)
    requires
        is_exec_trace(levels, sweeps, steps),
        0 <= i <= d < steps.len() - 1,
        exec_wf(levels[i], sweeps[i]),
        p < MAX_PRIORITY,
        levels[i][p as int].notified(key as int) || pending_key(sweeps[i], p as int, key as int),
        steps[d] == ExecStep::Run(RunAction::SweepDone),
        steps[steps.len() - 1] == ExecStep::Run(RunAction::SweepDone),
    ensures
        levels[i][p as int].tasks.contains_key(key),
        polled_between(
            steps,
            i,
            steps.len() as int,
            p as int,
            key,
            levels[i][p as int].tasks[key],
        ),
{
    let l = levels[i][p as int];
    let s = sweeps[i];
    lemma_ranges_from_wf(levels[i], s);
    law_key_decomposition(key);
    assert(l.wf());
    if l.notified(key as int) {
        let kp = page_of(key as int);
        let ks = slot_of(key as int);
        assert(l.pages[kp].notified().contains(ks));
        assert(l.tasks.contains_key((kp * 64 + ks) as usize));
    } else {
        let m = choose|m: int| s.next <= m < s.pending.len() && #[trigger] s.key_at(m) == key as int;
        assert(s.pending[m] < 64 && levels[i][s.priority as int].tasks.contains_key(
            s.key_at(m) as usize,
        ));
    }
    lemma_polled_by_next_sweep(levels, sweeps, steps, i, p as int, key, l.tasks[key], d);
}

/// A task added or woken at any point of a run, at any priority, is polled,
/// with its handle, by the end of the following sweep, whatever else is
/// added, woken or finished meanwhile: along any run on a consistent
/// executor in which call `j` adds or wakes the task and the run goes on
/// through two ends of sweeps (at `d` and at its last call).
pub proof fn law_woken_task_polled_by_next_sweep(
    levels: Seq<Seq<InnerView>>,
    sweeps: Seq<SweepView>,
    steps: Seq<ExecStep>,
    j: int,
    p: usize,
    key: usize,
    d: int,
)
    requires
        is_exec_trace(levels, sweeps, steps),
        0 <= j < d < steps.len() - 1,
        exec_wf(levels[j], sweeps[j]),
        wakes(steps[j], p as int, key as int),
        steps[d] == ExecStep::Run(RunAction::SweepDone),
        steps[steps.len() - 1] == ExecStep::Run(RunAction::SweepDone),
    ensures
        levels[j + 1][p as int].tasks.contains_key(key),
        polled_between(
            steps,
            j + 1,
            steps.len() as int,
            p as int,
            key,
            levels[j + 1][p as int].tasks[key],
        ),
{
    assert(exec_step_relation(levels[j], sweeps[j], levels[j + 1], sweeps[j + 1], steps[j]));
    lemma_ranges_from_wf(levels[j], sweeps[j]);
    lemma_ranges_step(levels[j], sweeps[j], levels[j + 1], sweeps[j + 1], steps[j]);
    let l = levels[j + 1][p as int];
    match steps[j] {
        ExecStep::Added(q, k, t) => {
            assert(l.notified(key as int));
            assert(l.tasks.contains_key(key));
        },
        ExecStep::Woken(q, k) => {
            assert(l.notified(key as int));
            assert(l.tasks.contains_key(key));
        },
        _ => {},
    }
    lemma_polled_by_next_sweep(levels, sweeps, steps, j + 1, p as int, key, l.tasks[key], d);
}

/// The keys listed by the page drains among the calls `a..b`, in order, as
/// (priority, key).
pub open spec fn drained_in(steps: Seq<ExecStep>, sweeps: Seq<SweepView>, a: int, b: int) -> Seq<
    (usize, usize),
>
    decreases b - a,
{
    if b <= a {
        Seq::empty()
    } else {
        drained_in(steps, sweeps, a, b - 1) + if steps[b - 1] is Run && drains_next(sweeps[b - 1]) {
            keys_of(sweeps[b - 1].priority, sweeps[b - 1].page, sweeps[b].pending)
        } else {
            Seq::empty()
        }
    }
}

/// The keys that the sweep `s` still has to hand out, in order.
pub open spec fn remaining_keys(s: SweepView) -> Seq<(usize, usize)> {
    keys_of(s.priority, s.current, s.pending).skip(s.next as int)
}

/// Order by priority, then key.
pub open spec fn priority_key_less(x: (usize, usize), y: (usize, usize)) -> bool {
    x.0 < y.0 || (x.0 == y.0 && x.1 < y.1)
}

/// Whether `s` is strictly ascending by priority, then key.
pub open spec fn ascending_by_priority_key(s: Seq<(usize, usize)>) -> bool {
    forall|i: int, j: int| 0 <= i < j < s.len() ==> priority_key_less(#[trigger] s[i], #[trigger] s[j])
}

/// Whether the task `x` comes before where the sweep `s` stands.
spec fn before_position(x: (usize, usize), s: SweepView) -> bool {
    x.0 < s.priority || (s.started && x.0 == s.priority && x.1 < s.page * WAKER_PAGE_SIZE as int)
}

proof fn lemma_sweep_polls(
    levels: Seq<Seq<InnerView>>,
    sweeps: Seq<SweepView>,
    steps: Seq<ExecStep>,
    a: int,
    i: int,
)
    requires
        is_exec_trace(levels, sweeps, steps),
        0 <= a <= i <= steps.len(),
        ranges_ok(levels[a], sweeps[a]),
        sweeps[a] == SweepView::start(),
    ensures
        ranges_ok(levels[i], sweeps[i]),
        polls_in(steps, a, i) + remaining_keys(sweeps[i]) == drained_in(steps, sweeps, a, i),
        (forall|j: int| a <= j < i ==> #[trigger] steps[j] != ExecStep::Run(RunAction::SweepDone))
            ==> {
            &&& ascending_by_priority_key(drained_in(steps, sweeps, a, i))
            &&& forall|x: int|
                0 <= x < drained_in(steps, sweeps, a, i).len() ==> before_position(
                    #[trigger] drained_in(steps, sweeps, a, i)[x],
                    sweeps[i],
                )
        },
    decreases i - a,
{
    if i == a {
        assert(remaining_keys(sweeps[a]) =~= Seq::<(usize, usize)>::empty());
        assert(polls_in(steps, a, a) + remaining_keys(sweeps[a]) =~= drained_in(steps, sweeps, a, a));
    } else {
        lemma_sweep_polls(levels, sweeps, steps, a, i - 1);
        let k = i - 1;
        assert(exec_step_relation(levels[k], sweeps[k], levels[k + 1], sweeps[k + 1], steps[k]));
        assert(k + 1 == i);
        let o = sweeps[k];
        let n = sweeps[i];
        lemma_ranges_step(levels[k], o, levels[i], n, steps[k]);
        let pk = polls_in(steps, a, k);
        let dk = drained_in(steps, sweeps, a, k);
        let ro = remaining_keys(o);
        let rn = remaining_keys(n);
        let di = drained_in(steps, sweeps, a, i);
        let one_sweep = forall|j: int|
            a <= j < i ==> #[trigger] steps[j] != ExecStep::Run(RunAction::SweepDone);
        if one_sweep {
            assert forall|j: int| a <= j < k implies #[trigger] steps[j] != ExecStep::Run(
                RunAction::SweepDone,
            ) by {
                assert(a <= j < i);
            }
        }
        match steps[k] {
            ExecStep::Run(r) => {
                if o.next < o.pending.len() {
                    let ko = keys_of(o.priority, o.current, o.pending);
                    assert(ro =~= seq![ko[o.next as int]] + rn);
                    assert(polls_in(steps, a, i) =~= pk.push(ko[o.next as int]));
                    assert(di =~= dk);
                    assert(polls_in(steps, a, i) + rn =~= pk + ro);
                    if one_sweep {
                        assert forall|x: int| 0 <= x < di.len() implies before_position(
                            #[trigger] di[x],
                            n,
                        ) by {
                            assert(before_position(dk[x], o));
                        }
                    }
                } else if o.priority >= MAX_PRIORITY {
                    assert(ro =~= Seq::<(usize, usize)>::empty());
                    assert(rn =~= Seq::<(usize, usize)>::empty());
                    assert(polls_in(steps, a, i) =~= pk);
                    assert(di =~= dk);
                } else if !o.started {
                    assert(ro =~= Seq::<(usize, usize)>::empty());
                    assert(rn =~= Seq::<(usize, usize)>::empty());
                    assert(polls_in(steps, a, i) =~= pk);
                    assert(di =~= dk);
                    if one_sweep {
                        assert forall|x: int| 0 <= x < di.len() implies before_position(
                            #[trigger] di[x],
                            n,
                        ) by {
                            assert(before_position(dk[x], o));
                        }
                    }
                } else if o.page < o.end {
                    assert(ro =~= Seq::<(usize, usize)>::empty());
                    let newk = keys_of(o.priority, o.page, n.pending);
                    assert(rn =~= newk);
                    assert(polls_in(steps, a, i) =~= pk);
                    assert(di =~= dk + newk);
                    if one_sweep {
                        lemma_drain_order(levels[k], o, n, dk);
                    }
                } else {
                    assert(ro =~= Seq::<(usize, usize)>::empty());
                    assert(rn =~= Seq::<(usize, usize)>::empty());
                    assert(polls_in(steps, a, i) =~= pk);
                    assert(di =~= dk);
                    if one_sweep {
                        assert forall|x: int| 0 <= x < di.len() implies before_position(
                            #[trigger] di[x],
                            n,
                        ) by {
                            assert(before_position(dk[x], o));
                        }
                    }
                }
            },
            _ => {
                assert(n == o);
                assert(polls_in(steps, a, i) =~= pk);
                assert(di =~= dk);
            },
        }
    }
}

/// A drain appends the drained page's keys, which come after every key
/// drained before in the sweep and before the sweep's new position.
proof fn lemma_drain_order(lv: Seq<InnerView>, o: SweepView, n: SweepView, dk: Seq<(usize, usize)>)
    requires
        ranges_ok(lv, o),
        drains_next(o),
        n.priority == o.priority,
        n.started,
        n.page == o.page + 1,
        ascending_listing(n.pending, lv[o.priority as int].pages[o.page as int].notified()),
        ascending_by_priority_key(dk),
        forall|x: int| 0 <= x < dk.len() ==> before_position(#[trigger] dk[x], o),
    ensures
        ascending_by_priority_key(dk + keys_of(o.priority, o.page, n.pending)),
        forall|x: int|
            0 <= x < (dk + keys_of(o.priority, o.page, n.pending)).len() ==> before_position(
                #[trigger] (dk + keys_of(o.priority, o.page, n.pending))[x],
                n,
            ),
{
    let newk = keys_of(o.priority, o.page, n.pending);
    let all = dk + newk;
    assert(o.page <= page_of(usize::MAX as int));
    assert forall|m: int| 0 <= m < newk.len() implies #[trigger] newk[m] == (
        o.priority as usize,
        (o.page * 64 + n.pending[m]) as usize,
    ) && 0 <= o.page * 64 + n.pending[m] <= usize::MAX && o.page * 64 <= newk[m].1 < (o.page + 1)
        * 64 by {
        assert(n.pending[m] < 64);
    }
    assert forall|x: int, y: int| 0 <= x < y < all.len() implies priority_key_less(
        #[trigger] all[x],
        #[trigger] all[y],
    ) by {
        if y < dk.len() {
            assert(all[x] == dk[x] && all[y] == dk[y]);
        } else if x < dk.len() {
            assert(all[x] == dk[x]);
            assert(before_position(dk[x], o));
            assert(all[y] == newk[y - dk.len()]);
        } else {
            assert(all[x] == newk[x - dk.len()]);
            assert(all[y] == newk[y - dk.len()]);
            assert(n.pending[x - dk.len()] < n.pending[y - dk.len()]);
        }
    }
    assert forall|x: int| 0 <= x < all.len() implies before_position(#[trigger] all[x], n) by {
        if x < dk.len() {
            assert(all[x] == dk[x]);
            assert(before_position(dk[x], o));
        } else {
            assert(all[x] == newk[x - dk.len()]);
        }
    }
}

/// Over a whole sweep, the tasks polled are exactly the notified slots
/// taken at each page drain, each once, in the order of the drains, and
/// that order is ascending by priority, then page, then slot: along any run
/// of calls on a consistent executor from the start of a sweep to its end,
/// whatever is added, woken or finished between the steps, the polls are
/// the drained keys, strictly ascending by priority, then key.
pub proof fn law_sweep_polls_drained_keys_in_order(
    levels: Seq<Seq<InnerView>>,
    sweeps: Seq<SweepView>,
    steps: Seq<ExecStep>,
    a: int,
    e: int,
)
    requires
        is_exec_trace(levels, sweeps, steps),
        0 <= a <= e < steps.len(),
        exec_wf(levels[a], sweeps[a]),
        sweeps[a] == SweepView::start(),
        steps[e] == ExecStep::Run(RunAction::SweepDone),
        forall|j: int| a <= j < e ==> #[trigger] steps[j] != ExecStep::Run(RunAction::SweepDone),
    ensures
        polls_in(steps, a, e) == drained_in(steps, sweeps, a, e),
        ascending_by_priority_key(polls_in(steps, a, e)),
{
    lemma_ranges_from_wf(levels[a], sweeps[a]);
    lemma_sweep_polls(levels, sweeps, steps, a, e);
    assert(exec_step_relation(levels[e], sweeps[e], levels[e + 1], sweeps[e + 1], steps[e]));
    assert(remaining_keys(sweeps[e]) =~= Seq::<(usize, usize)>::empty());
    assert(polls_in(steps, a, e) =~= polls_in(steps, a, e) + remaining_keys(sweeps[e]));
}

} // verus!
