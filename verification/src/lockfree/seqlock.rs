//! A sequence lock: readers never hold up the writer, and never see half of what it wrote.
//!
//! A counter is even while the data is whole and odd while the one writer is at work. A reader
//! reads the counter, copies the data and reads the counter again; the copy counts only if the
//! counter was even and has not moved.

use vstd::prelude::*;

verus! {

/// A value under a sequence lock.
pub struct SeqLock<T> {
    seq: usize,
    data: T,
}

impl<T> View for SeqLock<T> {
    type V = T;

    /// The value.
    closed spec fn view(&self) -> T {
        self.data
    }
}

impl<T: Copy> SeqLock<T> {
    /// The counter.
    pub closed spec fn seq(self) -> usize {
        self.seq
    }

    /// That no write is going on.
    pub open spec fn settled(self) -> bool {
        self.seq() % 2 == 0
    }

    /// A lock over `value`.
    pub fn new(value: T) -> (l: SeqLock<T>)
        ensures
            l@ == value,
            l.seq() == 0,
            l.settled(),
    {
        SeqLock { seq: 0, data: value }
    }

    /// Starts a write: the counter moves on by one, to an odd number if it was even.
    pub fn write(&mut self) -> (g: WriteGuard<'_, T>)
        ensures
            g.lock@ == old(self)@,
            g.lock.seq() == old(self).seq().wrapping_add(1),
            *final(g.lock) == *final(self),
    {
        self.seq = self.seq.wrapping_add(1);
        WriteGuard { lock: self }
    }

    /// A copy of the value. A single thread can only read when no write is going on.
    pub fn read(&self) -> (v: T)
        requires
            self.settled(),
        ensures
            v == self@,
    {
        let mut op = SeqReadOp::start();
        op.on_event(SeqEvent::Counter(self.seq));
        let v = self.data;
        op.on_event(SeqEvent::Copied);
        op.on_event(SeqEvent::Counter(self.seq));
        assert(op.pc is Done);
        v
    }
}

/// A write that is going on. It ends with [`WriteGuard::release`].
pub struct WriteGuard<'a, T> {
    pub lock: &'a mut SeqLock<T>,
}

impl<'a, T: Copy> WriteGuard<'a, T> {
    /// The value as written so far.
    pub fn get(&self) -> (v: T)
        ensures
            v == old(self.lock)@,
    {
        self.lock.data
    }

    /// Overwrites the value.
    pub fn set(&mut self, value: T)
        ensures
            final(self).lock@ == value,
            final(self).lock.seq() == old(self).lock.seq(),
            *final(final(self).lock) == *final(old(self).lock),
    {
        self.lock.data = value;
    }

    /// Ends the write: the counter moves on by one.
    pub fn release(self)
        ensures
            final(self.lock)@ == old(self.lock)@,
            final(self.lock).seq() == old(self.lock).seq().wrapping_add(1),
    {
        self.lock.seq = self.lock.seq.wrapping_add(1);
    }
}

/// What a reader wants done.
#[derive(Clone, Copy, Debug, PartialEq, Eq, Structural)]
pub enum SeqAction {
    /// Read the counter.
    ReadCounter,
    /// Copy the data.
    CopyData,
}

/// What a reader is answered.
#[derive(Clone, Copy, Debug, PartialEq, Eq, Structural)]
pub enum SeqEvent {
    /// What the counter holds.
    Counter(usize),
    /// The data has been copied.
    Copied,
}

/// Where a read stands.
#[derive(Clone, Copy, Debug, PartialEq, Eq, Structural)]
pub enum SeqReadPc {
    /// About to read the counter.
    Load,
    /// Copying the data after the counter was read.
    Copy(usize),
    /// About to look whether the counter has moved.
    Check(usize),
    /// The copy counts.
    Done,
}

/// One read under a sequence lock.
#[derive(Clone, Copy, Debug, PartialEq, Eq, Structural)]
pub struct SeqReadOp {
    pub pc: SeqReadPc,
}

impl SeqReadOp {
    /// What an unfinished read wants done next.
    pub open spec fn action(self) -> SeqAction {
        match self.pc {
            SeqReadPc::Copy(_) => SeqAction::CopyData,
            _ => SeqAction::ReadCounter,
        }
    }

    /// Where a read stands after an answer. An answer of the wrong kind changes nothing.
    pub open spec fn after(self, e: SeqEvent) -> SeqReadOp {
        let pc = match (self.pc, e) {
            (SeqReadPc::Load, SeqEvent::Counter(s)) => if s % 2 == 1 {
                SeqReadPc::Load
            } else {
                SeqReadPc::Copy(s)
            },
            (SeqReadPc::Copy(s), SeqEvent::Copied) => SeqReadPc::Check(s),
            (SeqReadPc::Check(s1), SeqEvent::Counter(s2)) => if s1 == s2 {
                SeqReadPc::Done
            } else {
                SeqReadPc::Load
            },
            (pc, _) => pc,
        };
        SeqReadOp { pc }
    }

    /// A read that has done nothing yet.
    pub fn start() -> (op: SeqReadOp)
        ensures
            op == (SeqReadOp { pc: SeqReadPc::Load }),
    {
        SeqReadOp { pc: SeqReadPc::Load }
    }

    /// What to do next, or `None` when the copy counts.
    pub fn next_action(&self) -> (a: Option<SeqAction>)
        ensures
            a == (if self.pc is Done { None } else { Some(self.action()) }),
    {
        match self.pc {
            SeqReadPc::Load => Some(SeqAction::ReadCounter),
            SeqReadPc::Copy(_) => Some(SeqAction::CopyData),
            SeqReadPc::Check(_) => Some(SeqAction::ReadCounter),
            SeqReadPc::Done => None,
        }
    }

    /// Takes the answer to what was done.
    pub fn on_event(&mut self, e: SeqEvent)
        ensures
            *final(self) == old(self).after(e),
    {
        let pc = match (self.pc, e) {
            (SeqReadPc::Load, SeqEvent::Counter(s)) => {
                if s % 2 == 1 {
                    SeqReadPc::Load
                } else {
                    SeqReadPc::Copy(s)
                }
            },
            (SeqReadPc::Copy(s), SeqEvent::Copied) => SeqReadPc::Check(s),
            (SeqReadPc::Check(s1), SeqEvent::Counter(s2)) => {
                if s1 == s2 {
                    SeqReadPc::Done
                } else {
                    SeqReadPc::Load
                }
            },
            (pc, _) => pc,
        };
        self.pc = pc;
    }
}

/// A reader, with the part of the data that it has copied.
pub struct SeqReader {
    pub op: SeqReadOp,
    pub copied: Seq<u64>,
}

/// Data that is read and written one word at a time, its counter, every version of it that was
/// ever whole, and the readers.
pub struct SeqLockSystem {
    pub seq: usize,
    pub words: Seq<u64>,
    pub versions: Seq<Seq<u64>>,
    pub readers: Seq<SeqReader>,
}

impl SeqLockSystem {
    /// What holds of a reader: while the counter has not moved, what it has copied is the
    /// beginning of the version that was current when it began; a copy that counts is a
    /// version.
    pub open spec fn reader_inv(self, r: SeqReader) -> bool {
        match r.op.pc {
            SeqReadPc::Load => true,
            SeqReadPc::Copy(s) => {
                &&& s % 2 == 0
                &&& s <= self.seq
                &&& r.copied.len() <= self.words.len()
                &&& s == self.seq ==> r.copied == self.words.take(r.copied.len() as int)
            },
            SeqReadPc::Check(s) => {
                &&& s % 2 == 0
                &&& s <= self.seq
                &&& s == self.seq ==> r.copied == self.words
            },
            SeqReadPc::Done => self.versions.contains(r.copied),
        }
    }

    /// What holds at any moment.
    pub open spec fn inv(self) -> bool {
        &&& self.versions.len() > 0
        &&& self.seq % 2 == 0 ==> self.versions.last() == self.words
        &&& forall|i: int| 0 <= i < self.readers.len() ==> self.reader_inv(#[trigger] self.readers[i])
    }

    /// The system after the writer has begun a write.
    pub open spec fn begin_write(self) -> SeqLockSystem {
        SeqLockSystem { seq: (self.seq + 1) as usize, ..self }
    }

    /// The system after the writer has written one word.
    pub open spec fn write_word(self, k: int, v: u64) -> SeqLockSystem {
        SeqLockSystem { words: self.words.update(k, v), ..self }
    }

    /// The system after the writer has ended its write.
    pub open spec fn end_write(self) -> SeqLockSystem {
        SeqLockSystem {
            seq: (self.seq + 1) as usize,
            versions: self.versions.push(self.words),
            ..self
        }
    }

    /// The reader `i` after its next move: it copies one word at a time.
    pub open spec fn moved(self, i: int) -> SeqReader {
        let r = self.readers[i];
        match r.op.pc {
            SeqReadPc::Copy(_) => if r.copied.len() < self.words.len() {
                SeqReader {
                    op: r.op,
                    copied: r.copied.push(self.words[r.copied.len() as int]),
                }
            } else {
                SeqReader { op: r.op.after(SeqEvent::Copied), copied: r.copied }
            },
            SeqReadPc::Load => SeqReader {
                op: r.op.after(SeqEvent::Counter(self.seq)),
                copied: Seq::empty(),
            },
            _ => SeqReader { op: r.op.after(SeqEvent::Counter(self.seq)), copied: r.copied },
        }
    }

    /// The system after another reader has come.
    pub open spec fn join(self) -> SeqLockSystem {
        let r = SeqReader { op: SeqReadOp { pc: SeqReadPc::Load }, copied: Seq::empty() };
        SeqLockSystem { readers: self.readers.push(r), ..self }
    }

    /// The system after the next move of reader `i`.
    pub open spec fn step_reader(self, i: int) -> SeqLockSystem {
        SeqLockSystem { readers: self.readers.update(i, self.moved(i)), ..self }
    }
}

/// Data that was never written since it was made satisfies the invariant, and so does the system
/// with another reader.
pub proof fn law_seqlock_start(s: SeqLockSystem)
    requires
        s.inv() || (s.seq == 0 && s.versions == seq![s.words] && s.readers.len() == 0),
    ensures
        s.inv(),
        s.join().inv(),
{
    let s2 = s.join();
    assert forall|i: int| 0 <= i < s2.readers.len() implies s2.reader_inv(#[trigger] s2.readers[i]) by {
        if i < s.readers.len() {
            assert(s.reader_inv(s.readers[i]));
        }
    }
}

/// Whatever the writer does, in whatever order it writes the words, the invariant stays, as
/// long as the counter does not run over.
pub proof fn law_seqlock_write(s: SeqLockSystem, k: int, v: u64)
    requires
        s.inv(),
        s.seq < usize::MAX,
        0 <= k < s.words.len(),
    ensures
        s.seq % 2 == 0 ==> s.begin_write().inv(),
        s.seq % 2 == 1 ==> s.write_word(k, v).inv(),
        s.seq % 2 == 1 ==> s.end_write().inv(),
{
    if s.seq % 2 == 0 {
        let s2 = s.begin_write();
        assert forall|i: int| 0 <= i < s2.readers.len() implies s2.reader_inv(#[trigger] s2.readers[i]) by {
            assert(s.reader_inv(s.readers[i]));
        }
    } else {
        let s2 = s.write_word(k, v);
        assert forall|i: int| 0 <= i < s2.readers.len() implies s2.reader_inv(#[trigger] s2.readers[i]) by {
            assert(s.reader_inv(s.readers[i]));
        }
        let s3 = s.end_write();
        assert forall|i: int| 0 <= i < s3.readers.len() implies s3.reader_inv(#[trigger] s3.readers[i]) by {
            assert(s.reader_inv(s.readers[i]));
            if s.readers[i].op.pc is Done {
                let n = choose|n: int| 0 <= n < s.versions.len() && s.versions[n] == s.readers[i].copied;
                assert(s3.versions[n] == s.readers[i].copied);
            }
        }
    }
}

/// Whatever a reader does, the invariant stays.
pub proof fn law_seqlock_read(s: SeqLockSystem, i: int)
    requires
        s.inv(),
        0 <= i < s.readers.len(),
        !(s.readers[i].op.pc is Done),
    ensures
        s.step_reader(i).inv(),
{
    let s2 = s.step_reader(i);
    assert forall|k: int| 0 <= k < s2.readers.len() implies s2.reader_inv(#[trigger] s2.readers[k]) by {
        assert(s.reader_inv(s.readers[k]));
        if k == i {
            let r = s.readers[i];
            if r.op.pc is Copy && r.copied.len() < s.words.len() {
                let c = r.copied.push(s.words[r.copied.len() as int]);
                if r.op.pc->Copy_0 == s.seq {
                    assert(c =~= s.words.take(c.len() as int));
                }
            }
            if r.op.pc is Copy && r.copied.len() == s.words.len() {
                assert(s.words.take(s.words.len() as int) =~= s.words);
            }
            if r.op.pc is Check && r.op.pc->Check_0 == s.seq {
                assert(s.versions[s.versions.len() - 1] == r.copied);
            }
            if r.op.pc is Load {
                assert(s.words.take(0) =~= Seq::<u64>::empty());
            }
        }
    }
}

/// No read is torn: what a finished read has copied is a version that was whole.
pub proof fn law_seqlock_no_torn_reads(s: SeqLockSystem, i: int)
    requires
        s.inv(),
        0 <= i < s.readers.len(),
        s.readers[i].op.pc is Done,
    ensures
        s.versions.contains(s.readers[i].copied),
{
    assert(s.reader_inv(s.readers[i]));
}

/// A read copies the data only after an even counter, and ends if and only if the counter is
/// then the same as before; otherwise it starts over. While the counter is odd it copies
/// nothing.
pub proof fn law_read_keeps_what_did_not_change(op: SeqReadOp, s1: usize, s2: usize)
    requires
        op.pc is Load,
    ensures
        op.action() == SeqAction::ReadCounter,
        s1 % 2 == 1 ==> op.after(SeqEvent::Counter(s1)) == op,
        s1 % 2 == 0 ==> {
            let even = op.after(SeqEvent::Counter(s1));
            let copied = even.after(SeqEvent::Copied);
            &&& even.action() == SeqAction::CopyData
            &&& copied.action() == SeqAction::ReadCounter
            &&& copied.after(SeqEvent::Counter(s2)).pc is Done <==> s1 == s2
            &&& s1 != s2 ==> copied.after(SeqEvent::Counter(s2)) == op
        },
{
}

} // verus!
