//! Limb buffers that live in memory or, from a threshold on, in scratch files.
//!
//! The book-keeping is here: which buffers go to a file, what the file is
//! called, how much is live, and how the logical length of a buffer changes.  The
//! elements of a file are held as a vector.
use crate::limbs::copy_limbs;
use crate::magnitude::same_limbs;
use crate::text;
use crate::text::push_decimal;
use vstd::prelude::*;
use vstd::slice::slice_subrange;
use vstd::string::*;

verus! {

/// What a process knows of its scratch files.
#[derive(Debug)]
pub struct Scratch {
    /// Where scratch files go, unless to the temporary directory.
    pub dir: Option<String>,
    /// Buffers of at least this many limbs go to a file.
    pub disk_limb_threshold: usize,
    /// Number of the next file.
    pub next_id: u64,
    pub bytes_live: u64,
    pub count_live: usize,
    pub bytes_total: u64,
    pub count_total: usize,
}

impl Scratch {
    /// What is live was allocated.
    pub open spec fn wf(self) -> bool {
        self.bytes_live <= self.bytes_total && self.count_live <= self.count_total
    }

    /// The counters have room for a file of `n` limbs.
    pub open spec fn room_for(self, n: nat) -> bool {
        &&& self.wf()
        &&& self.bytes_total + 8 * n <= u64::MAX
        &&& self.count_total < usize::MAX
        &&& self.next_id < u64::MAX
    }

    /// The counters after a file of `n` limbs was allocated.
    pub open spec fn allocated(self, n: nat) -> Scratch {
        Scratch {
            next_id: (self.next_id + 1) as u64,
            bytes_live: (self.bytes_live + 8 * n) as u64,
            count_live: (self.count_live + 1) as usize,
            bytes_total: (self.bytes_total + 8 * n) as u64,
            count_total: (self.count_total + 1) as usize,
            ..self
        }
    }

    /// The counters after a file of `n` limbs was given up.
    pub open spec fn released(self, n: nat) -> Scratch {
        Scratch {
            bytes_live: (self.bytes_live - 8 * n) as u64,
            count_live: (self.count_live - 1) as usize,
            ..self
        }
    }

    /// The live counters are those of files with the given numbers of limbs.
    pub open spec fn counts(self, files: Seq<nat>) -> bool {
        &&& self.wf()
        &&& self.bytes_live == 8 * total(files)
        &&& self.count_live == files.len()
    }

    /// No files yet, and none to come until the threshold is lowered.
    pub fn new(disk_limb_threshold: usize) -> (s: Scratch)
        ensures
            s.wf(),
            s.dir is None,
            s.disk_limb_threshold == disk_limb_threshold,
            s.next_id == 1,
            s.bytes_live == 0 && s.count_live == 0 && s.bytes_total == 0 && s.count_total == 0,
            s.counts(Seq::<nat>::empty()),
    {
        Scratch {
            dir: None,
            disk_limb_threshold,
            next_id: 1,
            bytes_live: 0,
            count_live: 0,
            bytes_total: 0,
            count_total: 0,
        }
    }

    /// Account for a new file of `n` limbs; the result is its name.
    fn open_file(&mut self, pid: u32, n: usize) -> (name: String)
        requires
            old(self).room_for(n as nat),
        ensures
            *final(self) == old(self).allocated(n as nat),
            final(self).wf(),
            name@ == file_name(pid, old(self).next_id),
    {
        let id: u64 = self.next_id;
        let bytes: u64 = n as u64 * 8;
        self.next_id = id + 1;
        self.bytes_live = self.bytes_live + bytes;
        self.count_live = self.count_live + 1;
        self.bytes_total = self.bytes_total + bytes;
        self.count_total = self.count_total + 1;
        let mut name: String = "bignum-".to_owned();
        push_decimal(&mut name, pid as u64);
        name.append("-");
        push_decimal(&mut name, id);
        name.append(".dat");
        name
    }
}

/// The name of a scratch file.
pub open spec fn file_name(pid: u32, id: u64) -> Seq<char> {
    "bignum-"@ + text::numeral(pid as int, 10) + "-"@ + text::numeral(id as int, 10) + ".dat"@
}

/// Put scratch files into a directory.
pub fn set_scratch_dir(scratch: &mut Scratch, path: String)
    ensures
        *final(scratch) == (Scratch { dir: Some(path), ..*old(scratch) }),
{
    scratch.dir = Some(path);
}

/// Where scratch files go.
pub fn current_scratch_dir(scratch: &Scratch, temp_dir: &str) -> (r: String)
    ensures
        r@ == match scratch.dir {
            Some(d) => d@,
            None => temp_dir@,
        },
{
    match &scratch.dir {
        Some(d) => d.as_str().to_owned(),
        None => temp_dir.to_owned(),
    }
}

/// Bytes of the files that are live.
pub fn mmap_bytes_live(scratch: &Scratch) -> (r: u64)
    ensures
        r == scratch.bytes_live,
{
    scratch.bytes_live
}

/// Number of the files that are live.
pub fn mmap_count_live(scratch: &Scratch) -> (r: usize)
    ensures
        r == scratch.count_live,
{
    scratch.count_live
}

/// Bytes of all files that were allocated.
pub fn mmap_bytes_total_allocated(scratch: &Scratch) -> (r: u64)
    ensures
        r == scratch.bytes_total,
{
    scratch.bytes_total
}

/// Number of all files that were allocated.
pub fn mmap_count_total_allocated(scratch: &Scratch) -> (r: usize)
    ensures
        r == scratch.count_total,
{
    scratch.count_total
}

/// A limb buffer.
#[derive(Debug)]
pub enum LimbStorage {
    /// In memory.
    Memory(Vec<u64>),
    /// In a file of the given name: its elements, and how many of them count.
    Mapped { elems: Vec<u64>, name: String, len: usize },
}

impl View for LimbStorage {
    type V = Seq<u64>;

    /// The limbs.
    open spec fn view(&self) -> Seq<u64> {
        match self {
            LimbStorage::Memory(v) => v@,
            LimbStorage::Mapped { elems, len, .. } => elems@.take(*len as int),
        }
    }
}

impl LimbStorage {
    /// No more elements count than the file has.
    pub open spec fn wf(self) -> bool {
        match self {
            LimbStorage::Memory(_) => true,
            LimbStorage::Mapped { elems, len, .. } => len <= elems@.len(),
        }
    }

    /// Whether the buffer is in a file.
    pub open spec fn mapped(self) -> bool {
        self is Mapped
    }

    /// Limbs of the file, whatever counts of them.
    pub open spec fn file_limbs(self) -> nat {
        match self {
            LimbStorage::Memory(_) => 0,
            LimbStorage::Mapped { elems, .. } => elems@.len(),
        }
    }

    /// An empty buffer, in memory.
    pub fn new() -> (s: LimbStorage)
        ensures
            s.wf(),
            s@ == Seq::<u64>::empty(),
            !s.mapped(),
    {
        LimbStorage::Memory(Vec::new())
    }

    /// A buffer of `n` zeros.
    pub fn allocate_zeroed(scratch: &mut Scratch, pid: u32, n: usize) -> (s: LimbStorage)
        requires
            old(scratch).room_for(n as nat),
        ensures
            s.wf(),
            s@ == Seq::new(n as nat, |i: int| 0u64),
            s.mapped() <==> n > 0 && n >= old(scratch).disk_limb_threshold,
            s.mapped() ==> s.file_limbs() == n && *final(scratch) == old(scratch).allocated(
                n as nat,
            ),
            s.mapped() ==> s->name@ == file_name(pid, old(scratch).next_id),
            !s.mapped() ==> *final(scratch) == *old(scratch),
            final(scratch).wf(),
    {
        let mut v: Vec<u64> = Vec::new();
        if n == 0 {
            assert(v@ =~= Seq::new(0, |i: int| 0u64));
            return LimbStorage::Memory(v);
        }
        v.resize(n, 0);
        assert(v@ =~= Seq::new(n as nat, |i: int| 0u64));
        if n >= scratch.disk_limb_threshold {
            let name: String = scratch.open_file(pid, n);
            assert(v@.take(n as int) =~= v@);
            LimbStorage::Mapped { elems: v, name, len: n }
        } else {
            LimbStorage::Memory(v)
        }
    }

    /// A buffer with the given limbs.
    pub fn from_vec(scratch: &mut Scratch, pid: u32, v: Vec<u64>) -> (s: LimbStorage)
        requires
            old(scratch).room_for(v@.len()),
        ensures
            s.wf(),
            s@ == v@,
            s.mapped() <==> v@.len() >= old(scratch).disk_limb_threshold,
            s.mapped() ==> s.file_limbs() == v@.len() && *final(scratch) == old(
                scratch,
            ).allocated(v@.len()),
            s.mapped() ==> s->name@ == file_name(pid, old(scratch).next_id),
            !s.mapped() ==> *final(scratch) == *old(scratch),
            final(scratch).wf(),
    {
        let n: usize = v.len();
        if n >= scratch.disk_limb_threshold {
            let name: String = scratch.open_file(pid, n);
            assert(v@.take(n as int) =~= v@);
            LimbStorage::Mapped { elems: v, name, len: n }
        } else {
            LimbStorage::Memory(v)
        }
    }

    /// Number of limbs.
    pub fn len(&self) -> (n: usize)
        requires
            self.wf(),
        ensures
            n == self@.len(),
    {
        match self {
            LimbStorage::Memory(v) => v.len(),
            LimbStorage::Mapped { len, .. } => *len,
        }
    }

    /// Whether there are no limbs.
    pub fn is_empty(&self) -> (r: bool)
        requires
            self.wf(),
        ensures
            r == (self@.len() == 0),
    {
        self.len() == 0
    }

    /// Whether the buffer is in a file.
    pub fn is_mapped(&self) -> (r: bool)
        ensures
            r == self.mapped(),
    {
        match self {
            LimbStorage::Memory(_) => false,
            LimbStorage::Mapped { .. } => true,
        }
    }

    /// Keep the first `new_len` limbs.  A file keeps its size.
    pub fn truncate(&mut self, new_len: usize)
        requires
            old(self).wf(),
        ensures
            final(self).wf(),
            final(self)@ == if new_len < old(self)@.len() {
                old(self)@.take(new_len as int)
            } else {
                old(self)@
            },
            final(self).mapped() == old(self).mapped(),
            final(self).file_limbs() == old(self).file_limbs(),
            old(self).mapped() ==> final(self)->name == old(self)->name,
    {
        let ghost before = self@;
        match self {
            LimbStorage::Memory(v) => {
                if new_len < v.len() {
                    v.truncate(new_len);
                    assert(v@ =~= before.take(new_len as int));
                }
            },
            LimbStorage::Mapped { elems, len, .. } => {
                if new_len < *len {
                    assert(elems@.take(new_len as int) =~= before.take(new_len as int));
                    *len = new_len;
                }
            },
        }
    }

    /// Take the last limb off.
    pub fn pop(&mut self) -> (r: Option<u64>)
        requires
            old(self).wf(),
        ensures
            final(self).wf(),
            old(self)@.len() == 0 ==> r is None && final(self)@ == old(self)@,
            old(self)@.len() > 0 ==> r == Some(old(self)@.last()) && final(self)@ == old(
                self,
            )@.drop_last(),
            final(self).mapped() == old(self).mapped(),
            final(self).file_limbs() == old(self).file_limbs(),
            old(self).mapped() ==> final(self)->name == old(self)->name,
    {
        let ghost before = self@;
        match self {
            LimbStorage::Memory(v) => v.pop(),
            LimbStorage::Mapped { elems, len, .. } => {
                if *len == 0 {
                    return None;
                }
                let x: u64 = elems[*len - 1];
                assert(elems@.take(*len - 1) =~= before.drop_last());
                *len = *len - 1;
                Some(x)
            },
        }
    }

    /// Append a limb, in memory.
    pub fn push(&mut self, x: u64)
        requires
            !old(self).mapped(),
        ensures
            final(self).wf(),
            final(self)@ == old(self)@.push(x),
            !final(self).mapped(),
    {
        match self {
            LimbStorage::Memory(v) => {
                v.push(x);
            },
            LimbStorage::Mapped { .. } => {},
        }
    }

    /// Drop all limbs.  A file keeps its size.
    pub fn clear(&mut self)
        requires
            old(self).wf(),
        ensures
            final(self).wf(),
            final(self)@ == Seq::<u64>::empty(),
            final(self).mapped() == old(self).mapped(),
            final(self).file_limbs() == old(self).file_limbs(),
            old(self).mapped() ==> final(self)->name == old(self)->name,
    {
        match self {
            LimbStorage::Memory(v) => {
                v.clear();
            },
            LimbStorage::Mapped { elems, len, .. } => {
                assert(elems@.take(0) =~= Seq::<u64>::empty());
                *len = 0;
            },
        }
    }

    /// The limbs.
    pub fn as_slice(&self) -> (r: &[u64])
        requires
            self.wf(),
        ensures
            r@ == self@,
    {
        match self {
            LimbStorage::Memory(v) => v.as_slice(),
            LimbStorage::Mapped { elems, len, .. } => {
                let r: &[u64] = slice_subrange(elems.as_slice(), 0, *len);
                assert(r@ =~= elems@.take(*len as int));
                r
            },
        }
    }

    /// The limbs, to be changed in place.  A slice keeps its length.
    pub fn as_mut_slice(&mut self) -> (r: &mut [u64])
        requires
            old(self).wf(),
        ensures
            r@ == old(self)@,
            final(r)@.len() == r@.len() ==> final(self).wf() && final(self)@ == final(r)@,
            final(self).mapped() == old(self).mapped(),
            final(r)@.len() == r@.len() ==> final(self).file_limbs() == old(self).file_limbs(),
            old(self).mapped() ==> final(self)->name == old(self)->name,
    {
        match self {
            LimbStorage::Memory(v) => v.as_mut_slice(),
            LimbStorage::Mapped { elems, len, .. } => {
                let n: usize = *len;
                let (front, _back) = elems.as_mut_slice().split_at_mut(n);
                front
            },
        }
    }

    /// Whether two buffers hold the same limbs, wherever they are.
    pub fn same(&self, other: &LimbStorage) -> (r: bool)
        requires
            self.wf(),
            other.wf(),
        ensures
            r == (self@ == other@),
    {
        same_limbs(self.as_slice(), other.as_slice())
    }

    /// A copy of the limbs that counts; whether it goes to a file is decided anew.
    pub fn duplicate(&self, scratch: &mut Scratch, pid: u32) -> (s: LimbStorage)
        requires
            self.wf(),
            old(scratch).room_for(self@.len()),
        ensures
            s.wf(),
            s@ == self@,
            s.mapped() <==> self@.len() >= old(scratch).disk_limb_threshold,
            s.mapped() ==> s.file_limbs() == self@.len() && *final(scratch) == old(
                scratch,
            ).allocated(self@.len()),
            s.mapped() ==> s->name@ == file_name(pid, old(scratch).next_id),
            !s.mapped() ==> *final(scratch) == *old(scratch),
            final(scratch).wf(),
    {
        LimbStorage::from_vec(scratch, pid, copy_limbs(self.as_slice()))
    }

    /// Give the buffer up.  The result is the name of the file to remove.
    pub fn release(self, scratch: &mut Scratch) -> (name: Option<String>)
        requires
            old(scratch).wf(),
            self.mapped() ==> old(scratch).count_live >= 1 && old(scratch).bytes_live >= 8
                * self.file_limbs(),
        ensures
            final(scratch).wf(),
            name is Some <==> self.mapped(),
            self.mapped() ==> name == Some(self->name) && *final(scratch) == old(
                scratch,
            ).released(self.file_limbs()),
            !self.mapped() ==> *final(scratch) == *old(scratch),
    {
        match self {
            LimbStorage::Memory(_) => None,
            LimbStorage::Mapped { elems, name, .. } => {
                scratch.bytes_live = scratch.bytes_live - elems.len() as u64 * 8;
                scratch.count_live = scratch.count_live - 1;
                Some(name)
            },
        }
    }
}

/// The sum of numbers of limbs.
pub open spec fn total(files: Seq<nat>) -> nat
    decreases files.len(),
{
    if files.len() == 0 {
        0
    } else {
        total(files.drop_last()) + files.last()
    }
}

/// What happens to the buffers of a process.
pub enum Step {
    /// A buffer of this many limbs is allocated in a file.
    Allocate(nat),
    /// The file at this place in the order of those alive is given up.
    Release(int),
    /// A buffer is allocated or given up in memory, or any buffer is truncated,
    /// popped, cleared or written.
    Other,
}

/// The counters, and the limbs of the files that are alive, after a step.
pub open spec fn stepped(state: (Scratch, Seq<nat>), step: Step) -> (Scratch, Seq<nat>) {
    match step {
        Step::Allocate(n) => (state.0.allocated(n), state.1.push(n)),
        Step::Release(i) => (state.0.released(state.1[i]), state.1.remove(i)),
        Step::Other => state,
    }
}

/// Whether a step can be taken: a file fits the counters, or is alive.
pub open spec fn can_step(state: (Scratch, Seq<nat>), step: Step) -> bool {
    match step {
        Step::Allocate(n) => state.0.room_for(n),
        Step::Release(i) => 0 <= i < state.1.len(),
        Step::Other => true,
    }
}

/// The state after a sequence of steps.
pub open spec fn after(state: (Scratch, Seq<nat>), steps: Seq<Step>) -> (Scratch, Seq<nat>)
    decreases steps.len(),
{
    if steps.len() == 0 {
        state
    } else {
        stepped(after(state, steps.drop_last()), steps.last())
    }
}

/// Whether a sequence of steps can be taken.
pub open spec fn can_run(state: (Scratch, Seq<nat>), steps: Seq<Step>) -> bool
    decreases steps.len(),
{
    steps.len() == 0 || can_run(state, steps.drop_last()) && can_step(
        after(state, steps.drop_last()),
        steps.last(),
    )
}

/// Taking one number out of a sum.
proof fn lemma_total_remove(files: Seq<nat>, i: int)
    requires
        0 <= i < files.len(),
    ensures
        total(files) == total(files.remove(i)) + files[i],
    decreases files.len(),
{
    if i == files.len() - 1 {
        assert(files.remove(i) =~= files.drop_last());
    } else {
        lemma_total_remove(files.drop_last(), i);
        assert(files.remove(i).drop_last() =~= files.drop_last().remove(i));
    }
}

/// Over any sequence of allocations, changes and releases, the live bytes are
/// eight times the limbs with which the files still alive were allocated, and the
/// totals never fall.
pub proof fn law_live_bytes(start: Scratch, files: Seq<nat>, steps: Seq<Step>)
    requires
        start.counts(files),
        can_run((start, files), steps),
    ensures
        ({
            let (end, alive) = after((start, files), steps);
            &&& end.counts(alive)
            &&& end.bytes_total >= start.bytes_total
            &&& end.count_total >= start.count_total
            &&& end.dir == start.dir
            &&& end.disk_limb_threshold == start.disk_limb_threshold
        }),
    decreases steps.len(),
{
    if steps.len() > 0 {
        law_live_bytes(start, files, steps.drop_last());
        let (s, alive) = after((start, files), steps.drop_last());
        match steps.last() {
            Step::Allocate(n) => {
                assert(alive.push(n).drop_last() =~= alive);
            },
            Step::Release(i) => {
                lemma_total_remove(alive, i);
            },
            Step::Other => {},
        }
    }
}

/// Allocating a file and giving it up again leaves the live counters as they
/// were, and the totals raised.
pub proof fn law_live_counters(s: Scratch, n: nat)
    requires
        s.room_for(n),
    ensures
        ({
            let a = s.allocated(n);
            &&& a.bytes_live - 8 * n == s.bytes_live
            &&& a.count_live - 1 == s.count_live
            &&& a.bytes_total == s.bytes_total + 8 * n
            &&& a.count_total == s.count_total + 1
            &&& a.next_id == s.next_id + 1
        }),
{
}

/// The name of a scratch file tells the process and the number of the file: names
/// are the same only where both are.
pub proof fn law_file_name(pid: u32, id: u64, other_pid: u32, other: u64)
    ensures
        file_name(pid, id) == "bignum-"@ + text::numeral(pid as int, 10) + "-"@ + text::numeral(
            id as int,
            10,
        ) + ".dat"@,
        file_name(pid, id) == file_name(other_pid, other) ==> pid == other_pid && id == other,
{
    if file_name(pid, id) == file_name(other_pid, other) {
        reveal_strlit("bignum-");
        reveal_strlit("-");
        reveal_strlit(".dat");
        let (p, q) = (text::numeral(pid as int, 10), text::numeral(other_pid as int, 10));
        let (i, j) = (text::numeral(id as int, 10), text::numeral(other as int, 10));
        let s = file_name(pid, id);
        text::lemma_numeral_form(pid as int, 10);
        text::lemma_numeral_form(other_pid as int, 10);
        assert(s[7 + p.len() as int] == '-');
        assert(s[7 + q.len() as int] == '-');
        if p.len() < q.len() {
            assert(s[7 + p.len() as int] == q[p.len() as int]);
        }
        if q.len() < p.len() {
            assert(s[7 + q.len() as int] == p[q.len() as int]);
        }
        assert(p =~= q) by {
            assert forall|k: int| 0 <= k < p.len() implies p[k] == q[k] by {
                assert(s[7 + k] == p[k]);
                assert(s[7 + k] == q[k]);
            }
        }
        assert(i =~= j) by {
            assert(s.len() == p.len() + i.len() + 12);
            assert forall|k: int| 0 <= k < i.len() implies i[k] == j[k] by {
                assert(s[8 + p.len() + k] == i[k]);
                assert(s[8 + p.len() + k] == j[k]);
            }
        }
        text::lemma_numeral_value(pid as int, 10);
        text::lemma_numeral_value(other_pid as int, 10);
        text::lemma_numeral_value(id as int, 10);
        text::lemma_numeral_value(other as int, 10);
    }
}

/// A file that is released gives back what its allocation took, and leaves the
/// totals.
pub proof fn law_released(s: Scratch, n: nat)
    requires
        s.room_for(n),
    ensures
        s.allocated(n).released(n).bytes_live == s.bytes_live,
        s.allocated(n).released(n).count_live == s.count_live,
        s.allocated(n).released(n).bytes_total == s.bytes_total + 8 * n,
        s.allocated(n).released(n).count_total == s.count_total + 1,
        s.allocated(n).released(n).next_id == s.next_id + 1,
        s.allocated(n).released(n).dir == s.dir,
        s.allocated(n).released(n).disk_limb_threshold == s.disk_limb_threshold,
{
}

/// The sizes of files add up, in whatever order they were opened.
pub proof fn law_total(files: Seq<nat>, n: nat)
    ensures
        total(Seq::<nat>::empty()) == 0,
        total(files.push(n)) == total(files) + n,
{
    assert(files.push(n).drop_last() =~= files);
}

/// The counters are right where they give the bytes and the number of the live
/// files, and neither is over its total.
pub proof fn law_counts(s: Scratch, files: Seq<nat>)
    ensures
        s.counts(files) <==> {
            &&& s.bytes_live == 8 * total(files)
            &&& s.count_live == files.len()
            &&& s.bytes_live <= s.bytes_total
            &&& s.count_live <= s.count_total
        },
{
}

} // verus!
