//! The bookkeeping of the device's lock: many readers or one writer, and
//! a writer that announces itself so that the readers give way.

use vstd::prelude::*;

verus! {

/// Who holds the lock, and whether a writer has announced itself.
#[derive(Clone, Copy, Debug, PartialEq, Eq)]
pub struct LockState {
    readers: usize,
    writer: bool,
    wanted: bool,
}

/// The lock as contracts see it.
pub struct LockView {
    /// The number of readers that hold the lock.
    pub readers: nat,
    /// Whether a writer holds the lock.
    pub writer: bool,
    /// Whether a writer has announced itself: no reader is let in until it is done.
    pub wanted: bool,
}

/// Why a reader cannot become the writer.
#[derive(Clone, Copy, Debug, PartialEq, Eq)]
pub enum UpgradeError {
    /// The thread is inside such a change already, and would wait for itself.
    WouldDeadlock,
}

impl View for LockState {
    type V = LockView;

    closed spec fn view(&self) -> LockView {
        LockView { readers: self.readers as nat, writer: self.writer, wanted: self.wanted }
    }
}

impl LockView {
    /// No reader holds the lock while a writer does, and a writer holds it
    /// only after it has announced itself.
    pub open spec fn exclusive(self) -> bool {
        (self.writer ==> self.readers == 0) && (self.writer ==> self.wanted)
    }

    /// The lock after one reader has left; where none held it, nothing changes.
    pub open spec fn reader_left(self) -> LockView {
        if self.readers > 0 {
            LockView { readers: (self.readers - 1) as nat, ..self }
        } else {
            self
        }
    }

    /// The lock after `k` readers have left.
    pub open spec fn readers_left(self, k: nat) -> LockView
        decreases k,
    {
        if k == 0 {
            self
        } else {
            self.reader_left().readers_left((k - 1) as nat)
        }
    }

    /// Whether a reader is let in: no writer holds the lock, and none has announced itself.
    pub open spec fn admits_reader(self) -> bool {
        !self.writer && !self.wanted && self.readers < usize::MAX
    }

    /// Whether the writer that has announced itself gets the lock: no
    /// reader holds it any more.
    pub open spec fn admits_writer(self) -> bool {
        self.wanted && !self.writer && self.readers == 0
    }
}

impl LockState {
    /// The lock's invariant.
    pub open spec fn wf(self) -> bool {
        self@.exclusive()
    }

    /// A lock that nobody holds.
    pub fn new() -> (lock: LockState)
        ensures
            lock.wf(),
            lock@ == (LockView { readers: 0, writer: false, wanted: false }),
    {
        LockState { readers: 0, writer: false, wanted: false }
    }

    /// Lets a reader in, or tells it to wait.
    pub fn acquire_read(&mut self) -> (granted: bool)
        requires
            old(self).wf(),
        ensures
            final(self).wf(),
            granted == old(self)@.admits_reader(),
            final(self)@ == if granted {
                LockView { readers: old(self)@.readers + 1, ..old(self)@ }
            } else {
                old(self)@
            },
    {
        if self.writer || self.wanted || self.readers == usize::MAX {
            false
        } else {
            self.readers += 1;
            true
        }
    }

    /// Notes that a reader has left. Nothing changes where no reader held the lock.
    pub fn release_read(&mut self)
        requires
            old(self).wf(),
        ensures
            final(self).wf(),
            final(self)@ == old(self)@.reader_left(),
    {
        if self.readers > 0 {
            self.readers -= 1;
        }
    }

    /// Announces a writer, or tells it to wait for the writer that was announced before.
    pub fn announce(&mut self) -> (announced: bool)
        requires
            old(self).wf(),
        ensures
            final(self).wf(),
            announced == !old(self)@.wanted,
            final(self)@ == (LockView { wanted: true, ..old(self)@ }),
    {
        if self.wanted {
            false
        } else {
            self.wanted = true;
            true
        }
    }

    /// Gives the lock to the writer that has announced itself, or tells it
    /// that readers still hold it: the readers are to be told, and the
    /// writer is to try again.
    pub fn acquire_write(&mut self) -> (granted: bool)
        requires
            old(self).wf(),
        ensures
            final(self).wf(),
            granted == old(self)@.admits_writer(),
            final(self)@ == if granted {
                LockView { writer: true, ..old(self)@ }
            } else {
                old(self)@
            },
    {
        if self.wanted && !self.writer && self.readers == 0 {
            self.writer = true;
            true
        } else {
            false
        }
    }

    /// Notes that the writer is done: readers are let in again.
    pub fn release_write(&mut self)
        requires
            old(self).wf(),
        ensures
            final(self).wf(),
            final(self)@ == (LockView { writer: false, wanted: false, ..old(self)@ }),
    {
        self.writer = false;
        self.wanted = false;
    }

    /// The first step of a reader that wants to write: it gives up its hold
    /// as a reader. A thread that is inside such a change already is refused.
    pub fn begin_upgrade(&mut self, nested: bool) -> (begun: Result<(), UpgradeError>)
        requires
            old(self).wf(),
        ensures
            final(self).wf(),
            begun is Err <==> nested,
            final(self)@ == if nested {
                old(self)@
            } else {
                old(self)@.reader_left()
            },
    {
        if nested {
            Err(UpgradeError::WouldDeadlock)
        } else {
            self.release_read();
            Ok(())
        }
    }

    /// Whether the readers are asked to give way: a writer has announced
    /// itself and does not hold the lock yet.
    pub fn readers_must_yield(&self) -> (asked: bool)
        ensures
            asked == (self@.wanted && !self@.writer),
    {
        self.wanted && !self.writer
    }

    /// The number of readers that hold the lock.
    pub fn readers(&self) -> (n: usize)
        ensures
            n == self@.readers,
    {
        self.readers
    }
}

/// Exclusion: in a lock that is in order no reader holds the lock while a
/// writer does, and no reader is let in from the moment a writer announces
/// itself until that writer is done.
pub proof fn lemma_writer_excludes_readers(s: LockView)
    requires
        s.exclusive(),
    ensures
        s.writer ==> s.readers == 0 && !s.admits_reader(),
        s.wanted ==> !s.admits_reader(),
{
}

/// The readers give way: once a writer has announced itself while `k`
/// readers hold the lock, no reader comes in, and after these `k` readers
/// have left the writer gets the lock.
pub proof fn lemma_writer_gets_its_turn(s: LockView, k: nat)
    requires
        s.exclusive(),
        s.wanted,
        !s.writer,
        s.readers == k,
    ensures
        forall|j: nat| j <= k ==> !(#[trigger] s.readers_left(j)).admits_reader(),
        forall|j: nat| j < k ==> !(#[trigger] s.readers_left(j)).admits_writer(),
        s.readers_left(k).admits_writer(),
{
    assert forall|j: nat| j <= k implies {
        let t = #[trigger] s.readers_left(j);
        t.readers == k - j && t.wanted && !t.writer
    } by {
        lemma_readers_left(s, j);
    }
}

proof fn lemma_readers_left(s: LockView, j: nat)
    requires
        j <= s.readers,
    ensures
        s.readers_left(j) == (LockView { readers: (s.readers - j) as nat, ..s }),
    decreases j,
{
    if j > 0 {
        lemma_readers_left(s.reader_left(), (j - 1) as nat);
    }
}

} // verus!
