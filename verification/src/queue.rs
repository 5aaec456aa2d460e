//! The queues of waiting tasks, one for each model.

use vstd::hash_map::StringHashMap;
use vstd::prelude::*;

verus! {

/// How many tasks a queue takes before a worker has looked at it.
pub const QUEUE_CAPACITY: usize = 1000;

/// Both ends of a bounded channel of `tokio::sync::mpsc`. The sending end is
/// never cloned, so that what the channel holds changes only through this value.
#[verifier::external_body]
pub struct Mailbox {
    tx: tokio::sync::mpsc::Sender<u128>,
    rx: tokio::sync::mpsc::Receiver<u128>,
}

/// What a mailbox holds, the oldest first.
pub uninterp spec fn mailbox_ids(m: Mailbox) -> Seq<u128>;

/// How much a mailbox can hold.
pub uninterp spec fn mailbox_capacity(m: Mailbox) -> nat;

impl Mailbox {
    /// Opens a channel with `tokio::sync::mpsc::channel`: it is empty and holds
    /// at most `capacity` messages. The outside function panics on a capacity of
    /// zero or of more than its semaphore can count.
    #[verifier::external_body]
    fn open(capacity: usize) -> (r: Mailbox)
        requires
            0 < capacity <= 1_000_000,
        ensures
            mailbox_ids(r) == Seq::<u128>::empty(),
            mailbox_capacity(r) == capacity,
    {
        let (tx, rx) = tokio::sync::mpsc::channel(capacity);
        Mailbox { tx, rx }
    }

    /// Sends with `Sender::try_send`: where there is room, the message goes
    /// behind all others and the answer is `true`; else nothing changes.
    #[verifier::external_body]
    fn try_send(&mut self, id: u128) -> (r: bool)
        ensures
            r == (mailbox_ids(*old(self)).len() < mailbox_capacity(*old(self))),
            mailbox_ids(*final(self)) == (if r {
                mailbox_ids(*old(self)).push(id)
            } else {
                mailbox_ids(*old(self))
            }),
            mailbox_capacity(*final(self)) == mailbox_capacity(*old(self)),
    {
        self.tx.try_send(id).is_ok()
    }

    /// Receives with `Receiver::try_recv`: the oldest message leaves the
    /// channel, if there is one.
    #[verifier::external_body]
    fn try_recv(&mut self) -> (r: Option<u128>)
        ensures
            r == (if mailbox_ids(*old(self)).len() > 0 {
                Some(mailbox_ids(*old(self))[0])
            } else {
                None
            }),
            mailbox_ids(*final(self)) == (if mailbox_ids(*old(self)).len() > 0 {
                mailbox_ids(*old(self)).skip(1)
            } else {
                mailbox_ids(*old(self))
            }),
            mailbox_capacity(*final(self)) == mailbox_capacity(*old(self)),
    {
        self.rx.try_recv().ok()
    }
}

/// What a queue stands for: the tasks sent to it that no worker has looked at,
/// and those that were looked at and put off, in their order.
#[verifier::ext_equal]
pub struct QueueView {
    pub sent: Seq<u128>,
    pub deferred: Seq<u128>,
}

impl QueueView {
    /// The queue in which nothing waits.
    pub open spec fn empty() -> QueueView {
        QueueView { sent: Seq::empty(), deferred: Seq::empty() }
    }

    /// All that waits, in the order in which a worker looks at it before
    /// priorities are taken into account.
    pub open spec fn waiting(self) -> Seq<u128> {
        self.deferred + self.sent
    }

    /// Whether the queue takes another task.
    pub open spec fn has_room(self) -> bool {
        self.sent.len() < QUEUE_CAPACITY
    }
}

/// The tasks that wait for one model.
pub struct ModelQueue {
    mailbox: Mailbox,
    deferred: Vec<u128>,
}

impl View for ModelQueue {
    type V = QueueView;

    closed spec fn view(&self) -> QueueView {
        QueueView { sent: mailbox_ids(self.mailbox), deferred: self.deferred@ }
    }
}

impl ModelQueue {
    /// The mailbox of a queue has the capacity that all queues have.
    pub closed spec fn wf(&self) -> bool {
        mailbox_capacity(self.mailbox) == QUEUE_CAPACITY
    }

    /// A queue in which nothing waits.
    pub fn new() -> (r: ModelQueue)
        ensures
            r.wf(),
            r@ == QueueView::empty(),
    {
        ModelQueue { mailbox: Mailbox::open(QUEUE_CAPACITY), deferred: Vec::new() }
    }

    /// Sends a task to the queue, if it has room, and says whether it had.
    pub fn send(&mut self, task_id: u128) -> (r: bool)
        requires
            old(self).wf(),
        ensures
            final(self).wf(),
            r == old(self)@.has_room(),
            final(self)@ == (if r {
                QueueView { sent: old(self)@.sent.push(task_id), ..old(self)@ }
            } else {
                old(self)@
            }),
    {
        self.mailbox.try_send(task_id)
    }

    /// Takes everything out of the queue: what was put off, and behind it what
    /// was sent.
    pub fn drain(&mut self) -> (r: Vec<u128>)
        requires
            old(self).wf(),
        ensures
            final(self).wf(),
            r@ == old(self)@.waiting(),
            final(self)@ == QueueView::empty(),
    {
        let mut all: Vec<u128> = Vec::new();
        std::mem::swap(&mut all, &mut self.deferred);
        let ghost sent = mailbox_ids(self.mailbox);
        let ghost deferred = all@;
        let mut taken: Ghost<int> = Ghost(0);
        loop
            invariant
                mailbox_capacity(self.mailbox) == QUEUE_CAPACITY,
                self.deferred@ == Seq::<u128>::empty(),
                0 <= taken@ <= sent.len(),
                mailbox_ids(self.mailbox) == sent.skip(taken@),
                all@ == deferred + sent.take(taken@),
            ensures
                mailbox_capacity(self.mailbox) == QUEUE_CAPACITY,
                self.deferred@ == Seq::<u128>::empty(),
                mailbox_ids(self.mailbox) =~= Seq::<u128>::empty(),
                all@ =~= deferred + sent,
            decreases sent.len() - taken@,
        {
            match self.mailbox.try_recv() {
                Some(task_id) => {
                    all.push(task_id);
                    proof {
                        assert(all@ =~= deferred + sent.take(taken@ + 1));
                        assert(mailbox_ids(self.mailbox) =~= sent.skip(taken@ + 1));
                        taken@ = taken@ + 1;
                    }
                },
                None => {
                    assert(sent.take(taken@) =~= sent);
                    break;
                },
            }
        }
        all
    }

    /// Puts tasks off, in their order. What was put off before is forgotten.
    pub fn defer(&mut self, task_ids: Vec<u128>)
        requires
            old(self).wf(),
        ensures
            final(self).wf(),
            final(self)@ == (QueueView { deferred: task_ids@, ..old(self)@ }),
    {
        self.deferred = task_ids;
    }
}

/// The queues of all models that ever had a task.
pub struct QueueTable {
    slots: StringHashMap<usize>,
    queues: Vec<ModelQueue>,
}

impl View for QueueTable {
    type V = Map<Seq<char>, QueueView>;

    closed spec fn view(&self) -> Map<Seq<char>, QueueView> {
        self.slots@.map_values(|slot: usize| self.queues@[slot as int]@)
    }
}

impl QueueTable {
    /// Each model has a queue of its own.
    pub closed spec fn wf(&self) -> bool {
        &&& forall|m: Seq<char>| #[trigger]
            self.slots@.contains_key(m) ==> self.slots@[m] < self.queues@.len()
        &&& forall|m: Seq<char>, n: Seq<char>|
            self.slots@.contains_key(m) && self.slots@.contains_key(n) && #[trigger] self.slots@[m]
                == #[trigger] self.slots@[n] ==> m == n
        &&& forall|i: int| 0 <= i < self.queues@.len() ==> (#[trigger] self.queues@[i]).wf()
    }

    /// No queues.
    pub fn new() -> (r: QueueTable)
        ensures
            r.wf(),
            r@ == Map::<Seq<char>, QueueView>::empty(),
    {
        let r = QueueTable { slots: StringHashMap::new(), queues: Vec::new() };
        assert(r@ =~= Map::<Seq<char>, QueueView>::empty());
        r
    }

    /// The place of the queue of a model, made where there is none.
    fn get_or_create(&mut self, model: &str) -> (slot: usize)
        requires
            old(self).wf(),
        ensures
            final(self).wf(),
            final(self).slots@.contains_key(model@),
            final(self).slots@[model@] == slot,
            slot < final(self).queues@.len(),
            final(self)@ == (if old(self)@.contains_key(model@) {
                old(self)@
            } else {
                old(self)@.insert(model@, QueueView::empty())
            }),
    {
        if let Some(slot) = self.slots.get(model) {
            return *slot;
        }
        let slot: usize = self.queues.len();
        self.queues.push(ModelQueue::new());
        self.slots.insert(model.to_owned(), slot);
        assert(self@ =~= old(self)@.insert(model@, QueueView::empty()));
        slot
    }

    /// Sends a task to the queue of a model, which is made where there is none,
    /// and says whether the queue had room.
    pub fn send(&mut self, model: &str, task_id: u128) -> (r: bool)
        requires
            old(self).wf(),
        ensures
            final(self).wf(),
            r == queue_of(old(self)@, model@).has_room(),
            final(self)@ == sent_to(old(self)@, model@, task_id),
    {
        let slot: usize = self.get_or_create(model);
        assert(self@[model@] == self.queues@[slot as int]@);
        assert(self@[model@] == queue_of(old(self)@, model@));
        let ghost before = self@;
        let r = self.queues[slot].send(task_id);
        assert(self@ =~= before.insert(model@, self.queues@[slot as int]@));
        assert(self@ =~= sent_to(old(self)@, model@, task_id));
        r
    }

    /// Takes everything out of the queue of a model, if it has one.
    pub fn drain(&mut self, model: &str) -> (r: Option<Vec<u128>>)
        requires
            old(self).wf(),
        ensures
            final(self).wf(),
            r is Some <==> old(self)@.contains_key(model@),
            r matches Some(ids) ==> ids@ == old(self)@[model@].waiting() && final(self)@ == old(
                self,
            )@.insert(model@, QueueView::empty()),
            r is None ==> final(self)@ == old(self)@,
    {
        let slot: usize = match self.slots.get(model) {
            Some(slot) => *slot,
            None => {
                return None;
            },
        };
        let ids = self.queues[slot].drain();
        assert(self@ =~= old(self)@.insert(model@, QueueView::empty()));
        Some(ids)
    }

    /// Puts tasks off in the queue of a model that has one.
    pub fn defer(&mut self, model: &str, task_ids: Vec<u128>)
        requires
            old(self).wf(),
            old(self)@.contains_key(model@),
        ensures
            final(self).wf(),
            final(self)@ == old(self)@.insert(
                model@,
                QueueView { deferred: task_ids@, ..old(self)@[model@] },
            ),
    {
        if let Some(slot) = self.slots.get(model) {
            let slot: usize = *slot;
            self.queues[slot].defer(task_ids);
            assert(self@ =~= old(self)@.insert(
                model@,
                QueueView { deferred: task_ids@, ..old(self)@[model@] },
            ));
        }
    }
}

/// The queue of a model, empty where it has none.
pub open spec fn queue_of(queues: Map<Seq<char>, QueueView>, model: Seq<char>) -> QueueView {
    if queues.contains_key(model) {
        queues[model]
    } else {
        QueueView::empty()
    }
}

/// The queues after a task was sent to the queue of a model: behind all others
/// if the queue had room.
pub open spec fn sent_to(
    queues: Map<Seq<char>, QueueView>,
    model: Seq<char>,
    task_id: u128,
) -> Map<Seq<char>, QueueView> {
    let queue = queue_of(queues, model);
    if queue.has_room() {
        queues.insert(model, QueueView { sent: queue.sent.push(task_id), ..queue })
    } else {
        queues
    }
}

} // verus!
