//! The state container: three pegs, each an ordered stack of disk sizes.
//!
//! A peg is a `Vec<usize>` read from the bottom (index 0) to the top (last
//! index). A well-formed peg is strictly decreasing bottom-to-top, so the
//! top disk is always the smallest on its peg.

use crate::errors::HanoiError;
use vstd::multiset::Multiset;
use vstd::prelude::*;

verus! {

/// Identifier of one of the three pegs.
#[derive(Clone, Copy, Debug, PartialEq, Eq, Structural)]
pub enum PegId {
    A,
    B,
    C,
}

/// The three disk stacks. Each vector lists disk sizes from the bottom of
/// the peg (index 0) to its top (last index).
#[derive(Debug)]
pub struct Towers {
    pub a: Vec<usize>,
    pub b: Vec<usize>,
    pub c: Vec<usize>,
}

/// Disk sizes strictly decrease from bottom to top: the disk above is
/// always smaller than the disk below.
pub open spec fn descending(s: Seq<usize>) -> bool {
    forall|i: int, j: int| 0 <= i < j < s.len() ==> s[i] > s[j]
}

/// The stack holding all `n` disks in their starting order: size `n` at the
/// bottom, down to size 1 on top.
pub open spec fn full_tower(n: usize) -> Seq<usize> {
    Seq::new(n as nat, |i: int| (n - i) as usize)
}

/// The two states hold the same disks in the same places on every peg.
pub open spec fn towers_eq(t1: Towers, t2: Towers) -> bool {
    &&& t1.peg(PegId::A) == t2.peg(PegId::A)
    &&& t1.peg(PegId::B) == t2.peg(PegId::B)
    &&& t1.peg(PegId::C) == t2.peg(PegId::C)
}

/// The value shown at height `h` of a peg: the disk size there, or 0 where
/// no disk reaches that height.
pub open spec fn render_cell(s: Seq<usize>, h: int) -> usize {
    if 0 <= h < s.len() {
        s[h]
    } else {
        0
    }
}

impl Towers {
    /// The stack on peg `p`, bottom to top.
    pub open spec fn peg(self, p: PegId) -> Seq<usize> {
        match p {
            PegId::A => self.a@,
            PegId::B => self.b@,
            PegId::C => self.c@,
        }
    }

    /// All disks currently on the board, regardless of which peg holds them.
    pub open spec fn all_disks(self) -> Multiset<usize> {
        self.a@.to_multiset().add(self.b@.to_multiset()).add(self.c@.to_multiset())
    }

    /// The starting position: peg A carries all `size` disks, largest at the
    /// bottom and size 1 on top; pegs B and C are empty.
    pub fn new(size: usize) -> (t: Towers)
        ensures
            t.peg(PegId::A) == full_tower(size),
            t.peg(PegId::B) == Seq::<usize>::empty(),
            t.peg(PegId::C) == Seq::<usize>::empty(),
    {
        let mut a: Vec<usize> = Vec::new();
        let mut i: usize = 0;
        while i < size
            invariant
                i <= size,
                a@.len() == i,
                forall|k: int| 0 <= k < i ==> a@[k] == size - k,
            decreases size - i,
        {
            a.push(size - i);
            i = i + 1;
        }
        proof {
            assert(a@ =~= full_tower(size));
        }
        Towers { a, b: Vec::new(), c: Vec::new() }
    }

    /// The top disk of peg `p`, or `None` when the peg is empty. Reads only.
    pub fn peek_top(&self, p: PegId) -> (r: Option<usize>)
        ensures
            r == if self.peg(p).len() == 0 {
                Option::<usize>::None
            } else {
                Option::Some(self.peg(p).last())
            },
    {
        let v = self.peg_vec(p);
        if v.len() == 0 {
            None
        } else {
            Some(v[v.len() - 1])
        }
    }

    /// Removes and returns the top disk of peg `p`; fails when the peg is
    /// empty, leaving every peg untouched. This is the only operation that
    /// takes a disk off a peg.
    pub fn pop_top(&mut self, p: PegId) -> (r: Result<usize, HanoiError>)
        ensures
            old(self).peg(p).len() == 0 ==> {
                &&& r == Result::<usize, HanoiError>::Err(HanoiError::EmptyPegError)
                &&& towers_eq(*final(self), *old(self))
            },
            old(self).peg(p).len() > 0 ==> {
                &&& r == Result::<usize, HanoiError>::Ok(old(self).peg(p).last())
                &&& final(self).peg(p) == old(self).peg(p).drop_last()
                &&& forall|q: PegId| q != p ==> final(self).peg(q) == old(self).peg(q)
            },
    {
        let popped = match p {
            PegId::A => self.a.pop(),
            PegId::B => self.b.pop(),
            PegId::C => self.c.pop(),
        };
        match popped {
            Some(d) => Ok(d),
            None => Err(HanoiError::EmptyPegError),
        }
    }

    /// Appends `disk` on top of peg `p`. The caller decides legality; this
    /// operation records the placement and nothing else.
    pub fn push(&mut self, p: PegId, disk: usize)
        ensures
            final(self).peg(p) == old(self).peg(p).push(disk),
            forall|q: PegId| q != p ==> final(self).peg(q) == old(self).peg(q),
    {
        match p {
            PegId::A => self.a.push(disk),
            PegId::B => self.b.push(disk),
            PegId::C => self.c.push(disk),
        }
    }

    /// Borrows the stack of peg `p`.
    pub fn peg_vec(&self, p: PegId) -> (v: &Vec<usize>)
        ensures
            v@ == self.peg(p),
    {
        match p {
            PegId::A => &self.a,
            PegId::B => &self.b,
            PegId::C => &self.c,
        }
    }

    /// One display row per possible disk height, tallest first. Each row
    /// gives the value at that height on pegs A, B and C: the disk size, or
    /// 0 where the peg has no disk that high.
    pub fn render_rows(&self, disk_count: usize) -> (rows: Vec<(usize, usize, usize)>)
        ensures
            rows@.len() == disk_count,
            forall|r: int|
                0 <= r < disk_count ==> rows@[r] == (
                    render_cell(self.a@, disk_count - 1 - r),
                    render_cell(self.b@, disk_count - 1 - r),
                    render_cell(self.c@, disk_count - 1 - r),
                ),
    {
        let mut rows: Vec<(usize, usize, usize)> = Vec::new();
        let mut r: usize = 0;
        while r < disk_count
            invariant
                r <= disk_count,
                rows@.len() == r,
                forall|k: int|
                    0 <= k < r ==> rows@[k] == (
                        render_cell(self.a@, disk_count - 1 - k),
                        render_cell(self.b@, disk_count - 1 - k),
                        render_cell(self.c@, disk_count - 1 - k),
                    ),
            decreases disk_count - r,
        {
            let h = disk_count - 1 - r;
            rows.push((cell_at(&self.a, h), cell_at(&self.b, h), cell_at(&self.c, h)));
            r = r + 1;
        }
        rows
    }
}

/// The displayed value of one peg at height `h`: its disk size there, or 0.
fn cell_at(v: &Vec<usize>, h: usize) -> (r: usize)
    ensures
        r == render_cell(v@, h as int),
{
    if h < v.len() {
        v[h]
    } else {
        0
    }
}

} // verus!
