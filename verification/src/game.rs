//! The game controller: parsing one command line into a move, enforcing the
//! legality rule, and applying or rejecting the move.

use crate::errors::HanoiError;
use crate::pegs::PegId;
use crate::pegs::Towers;
use crate::pegs::descending;
use crate::pegs::full_tower;
use crate::pegs::towers_eq;
use vstd::prelude::*;

verus! {

/// What one input line means, before any look at the board.
#[derive(Clone, Copy, Debug, PartialEq, Eq)]
pub enum ParsedCommand {
    /// The quit sentinel: a line that is exactly `X` or `x`.
    Quit,
    /// The line does not split into a source and a destination token.
    Malformed,
    /// A move request. Each token resolved to a peg, or `None` where the
    /// token names no peg.
    Move { src: Option<PegId>, dst: Option<PegId> },
}

/// The delimiter between the source and the destination token.
pub open spec fn delimiter() -> char {
    '>'
}

/// Index of the first delimiter in `s`, if any.
pub open spec fn find_delim(s: Seq<char>) -> Option<int>
    decreases s.len(),
{
    if s.len() == 0 {
        None
    } else if s[0] == delimiter() {
        Some(0)
    } else {
        match find_delim(s.drop_first()) {
            None => None,
            Some(i) => Some(i + 1),
        }
    }
}

/// A token names a peg when it is the peg's single-letter label, in either
/// case.
pub open spec fn resolve_peg(tok: Seq<char>) -> Option<PegId> {
    if tok.len() != 1 {
        None
    } else if tok[0] == 'A' || tok[0] == 'a' {
        Some(PegId::A)
    } else if tok[0] == 'B' || tok[0] == 'b' {
        Some(PegId::B)
    } else if tok[0] == 'C' || tok[0] == 'c' {
        Some(PegId::C)
    } else {
        None
    }
}

/// A line consisting solely of the quit sentinel, in either case.
pub open spec fn is_quit(s: Seq<char>) -> bool {
    s.len() == 1 && (s[0] == 'X' || s[0] == 'x')
}

/// The meaning of one trimmed input line: the quit sentinel; or malformed
/// when no delimiter is present; or a move whose source token is everything
/// before the first delimiter and whose destination token runs to the next
/// delimiter or to the end of the line.
pub open spec fn line_command(s: Seq<char>) -> ParsedCommand {
    if is_quit(s) {
        ParsedCommand::Quit
    } else {
        match find_delim(s) {
            None => ParsedCommand::Malformed,
            Some(i) => {
                let rest = s.subrange(i + 1, s.len() as int);
                let dst_tok = match find_delim(rest) {
                    None => rest,
                    Some(j) => rest.subrange(0, j),
                };
                ParsedCommand::Move {
                    src: resolve_peg(s.subrange(0, i)),
                    dst: resolve_peg(dst_tok),
                }
            },
        }
    }
}

/// Where no position before `i` holds the delimiter, the first delimiter is
/// at `i` if `i` holds one, and there is none if `i` is the end.
proof fn lemma_find_delim_prefix(s: Seq<char>, i: int)
    requires
        0 <= i <= s.len(),
        forall|k: int| 0 <= k < i ==> s[k] != delimiter(),
    ensures
        i < s.len() && s[i] == delimiter() ==> find_delim(s) == Some(i),
        i == s.len() ==> find_delim(s) == None::<int>,
    decreases i,
{
    if i == 0 {
        if s.len() == 0 {
        } else if s[0] != delimiter() {
            // first delimiter, if any, lies strictly after 0
        }
    } else {
        assert(s[0] != delimiter());
        let rest = s.drop_first();
        assert(forall|k: int| 0 <= k < i - 1 ==> rest[k] == s[k + 1] && rest[k] != delimiter());
        lemma_find_delim_prefix(rest, i - 1);
        if i < s.len() {
            assert(rest[i - 1] == s[i]);
        }
    }
}

/// Scans `line` from `start` to the first delimiter; returns its index, or
/// the length of the line when no delimiter follows `start`.
fn find_delim_from(line: &str, start: usize, n: usize) -> (r: usize)
    requires
        n == line@.len(),
        start <= n,
    ensures
        start <= r <= n,
        forall|k: int| start <= k < r ==> line@[k] != delimiter(),
        r < n ==> line@[r as int] == delimiter(),
{
    let mut i: usize = start;
    while i < n
        invariant
            n == line@.len(),
            start <= i <= n,
            forall|k: int| start <= k < i ==> line@[k] != delimiter(),
        decreases n - i,
    {
        let c = line.get_char(i);
        if c == '>' {
            return i;
        }
        i = i + 1;
    }
    n
}

/// Resolves the token `line[start..end]` to a peg, or to `None` where it
/// names no peg.
fn resolve_token(line: &str, start: usize, end: usize) -> (r: Option<PegId>)
    requires
        start <= end <= line@.len(),
    ensures
        r == resolve_peg(line@.subrange(start as int, end as int)),
{
    let ghost tok = line@.subrange(start as int, end as int);
    if end - start != 1 {
        None
    } else {
        let c = line.get_char(start);
        proof {
            assert(tok[0] == line@[start as int]);
        }
        if c == 'A' || c == 'a' {
            Some(PegId::A)
        } else if c == 'B' || c == 'b' {
            Some(PegId::B)
        } else if c == 'C' || c == 'c' {
            Some(PegId::C)
        } else {
            None
        }
    }
}

/// Parses one trimmed input line: the quit sentinel, a malformed line, or a
/// move with each token resolved to a peg where possible.
pub fn parse_line(line: &str) -> (r: ParsedCommand)
    ensures
        r == line_command(line@),
{
    let n = line.unicode_len();
    if n == 1 {
        let c = line.get_char(0);
        if c == 'X' || c == 'x' {
            return ParsedCommand::Quit;
        }
    }
    let i = find_delim_from(line, 0, n);
    proof {
        lemma_find_delim_prefix(line@, i as int);
    }
    if i == n {
        return ParsedCommand::Malformed;
    }
    let src = resolve_token(line, 0, i);
    let j = find_delim_from(line, i + 1, n);
    let dst = resolve_token(line, i + 1, j);
    proof {
        let rest = line@.subrange(i + 1, n as int);
        assert(forall|k: int|
            0 <= k < j - (i + 1) ==> rest[k] == line@[k + i + 1] && rest[k] != delimiter());
        lemma_find_delim_prefix(rest, j - (i + 1));
        if j < n {
            assert(rest[j - (i + 1)] == line@[j as int]);
            assert(find_delim(rest) == Some(j - (i + 1)));
            assert(rest.subrange(0, j - (i + 1)) =~= line@.subrange(i + 1, j as int));
        } else {
            assert(find_delim(rest) == None::<int>);
            assert(rest =~= line@.subrange(i + 1, j as int));
        }
    }
    ParsedCommand::Move { src, dst }
}

/// What processing one input line did.
#[derive(Clone, Copy, Debug, PartialEq, Eq)]
pub enum LineOutcome {
    /// The quit sentinel was read; the session is over.
    Quit,
    /// A legal move was applied to the board.
    Applied,
    /// The command was rejected; the board is unchanged.
    Rejected(HanoiError),
}

/// A whole game: the three pegs plus the configured disk count.
#[derive(Debug)]
pub struct TowerOfHanoi {
    pub towers: Towers,
    pub size: usize,
}

impl TowerOfHanoi {
    /// The puzzle-state invariant: every peg is strictly decreasing bottom
    /// to top, and the disks on the board are exactly the sizes 1 through
    /// `size`, each present once. Established at construction and preserved
    /// by every command, accepted or rejected.
    pub open spec fn wf(self) -> bool {
        &&& descending(self.towers.peg(PegId::A))
        &&& descending(self.towers.peg(PegId::B))
        &&& descending(self.towers.peg(PegId::C))
        &&& self.towers.all_disks() == full_tower(self.size).to_multiset()
    }

    /// A fresh game with `size` disks, all stacked on peg A.
    pub fn new(size: usize) -> (game: TowerOfHanoi)
        ensures
            game.wf(),
            game.size == size,
            game.towers.peg(PegId::A) == full_tower(size),
            game.towers.peg(PegId::B) == Seq::<usize>::empty(),
            game.towers.peg(PegId::C) == Seq::<usize>::empty(),
    {
        let towers = Towers::new(size);
        proof {
            lemma_full_tower_descending(size);
            broadcast use vstd::seq_lib::group_to_multiset_ensures;

            assert forall|x: usize|
                towers.all_disks().count(x) == full_tower(size).to_multiset().count(x) by {
                assert(!Seq::<usize>::empty().contains(x));
            }
            assert(towers.all_disks() =~= full_tower(size).to_multiset());
        }
        TowerOfHanoi { towers, size }
    }
}

/// In the starting stack the disk below is always the larger one.
proof fn lemma_full_tower_descending(n: usize)
    ensures
        descending(full_tower(n)),
{
}

/// What a move request answers, mirroring the order in which the controller
/// checks it: the source token must name a peg; the source peg must hold a
/// disk; the destination token must name a peg; and the moving disk must
/// land on an empty peg or on a strictly larger disk. The destination is
/// inspected after the source disk has been lifted, so moving a disk back
/// onto its own peg is always accepted.
pub open spec fn move_outcome(t: Towers, src: Option<PegId>, dst: Option<PegId>) -> Result<
    (),
    HanoiError,
> {
    match src {
        None => Err(HanoiError::InvalidPegIdentifier),
        Some(s) => {
            if t.peg(s).len() == 0 {
                Err(HanoiError::EmptyPegError)
            } else {
                match dst {
                    None => Err(HanoiError::InvalidPegIdentifier),
                    Some(d) => {
                        let moving = t.peg(s).last();
                        let dest = if s == d {
                            t.peg(d).drop_last()
                        } else {
                            t.peg(d)
                        };
                        if dest.len() == 0 || moving < dest.last() {
                            Ok(())
                        } else {
                            Err(
                                HanoiError::IllegalMoveError {
                                    moving,
                                    blocking: dest.last(),
                                },
                            )
                        }
                    },
                }
            }
        },
    }
}

/// The stack that peg `p` holds after the top disk of `s` moves to `d`.
pub open spec fn peg_after_move(t: Towers, s: PegId, d: PegId, p: PegId) -> Seq<usize> {
    if s == d {
        t.peg(p)
    } else if p == s {
        t.peg(s).drop_last()
    } else if p == d {
        t.peg(d).push(t.peg(s).last())
    } else {
        t.peg(p)
    }
}

/// `t1` is `t0` with the top disk of `s` moved onto `d`: the disk left the
/// source, sits on top of the destination, and no other peg changed.
pub open spec fn move_applied(t0: Towers, t1: Towers, s: PegId, d: PegId) -> bool {
    forall|p: PegId| #[trigger] t1.peg(p) == peg_after_move(t0, s, d, p)
}

/// Holds when the accepted move relocated the parsed source top onto the
/// parsed destination, and every rejected or non-move line left the board
/// exactly as it was.
pub open spec fn line_effect(t0: Towers, t1: Towers, s: Seq<char>) -> bool {
    match line_command(s) {
        ParsedCommand::Move { src, dst } => {
            if move_outcome(t0, src, dst) is Ok {
                match (src, dst) {
                    (Some(sp), Some(dp)) => move_applied(t0, t1, sp, dp),
                    _ => false,
                }
            } else {
                towers_eq(t0, t1)
            }
        },
        _ => towers_eq(t0, t1),
    }
}

/// The outcome of one line against the board `t`: quit, a rejection with
/// its reason, or an applied move.
pub open spec fn line_outcome(t: Towers, s: Seq<char>) -> LineOutcome {
    match line_command(s) {
        ParsedCommand::Quit => LineOutcome::Quit,
        ParsedCommand::Malformed => LineOutcome::Rejected(HanoiError::MalformedCommandError),
        ParsedCommand::Move { src, dst } => match move_outcome(t, src, dst) {
            Ok(()) => LineOutcome::Applied,
            Err(e) => LineOutcome::Rejected(e),
        },
    }
}

/// A stack stays strictly decreasing when a disk smaller than its top is
/// placed on it.
proof fn lemma_descending_push(s: Seq<usize>, m: usize)
    requires
        descending(s),
        s.len() == 0 || m < s.last(),
    ensures
        descending(s.push(m)),
{
    let e = s.push(m);
    assert forall|i: int, j: int| 0 <= i < j < e.len() implies e[i] > e[j] by {
        if j == s.len() {
            if i < s.len() - 1 {
                assert(s[i] > s[s.len() - 1]);
            }
        }
    }
}

/// A stack stays strictly decreasing when its top disk is lifted off.
proof fn lemma_descending_drop_last(s: Seq<usize>)
    requires
        descending(s),
        s.len() > 0,
    ensures
        descending(s.drop_last()),
{
}

/// Moving one disk from peg `s` to a different peg `d` neither creates nor
/// destroys a disk: the board's multiset is untouched.
proof fn lemma_move_conserves(t0: Towers, t1: Towers, s: PegId, d: PegId, m: usize)
    requires
        s != d,
        t0.peg(s).len() > 0,
        m == t0.peg(s).last(),
        t1.peg(s) == t0.peg(s).drop_last(),
        t1.peg(d) == t0.peg(d).push(m),
        forall|q: PegId| q != s && q != d ==> t1.peg(q) == t0.peg(q),
    ensures
        t1.all_disks() == t0.all_disks(),
{
    broadcast use vstd::seq_lib::group_to_multiset_ensures;

    assert(t0.peg(s) =~= t0.peg(s).drop_last().push(m));
    assert(t0.peg(s).to_multiset() =~= t1.peg(s).to_multiset().insert(m));
    assert(t1.peg(d).to_multiset() =~= t0.peg(d).to_multiset().insert(m));
    match (s, d) {
        (PegId::A, PegId::B) => {
            assert(t1.peg(PegId::C) == t0.peg(PegId::C));
        },
        (PegId::A, PegId::C) => {
            assert(t1.peg(PegId::B) == t0.peg(PegId::B));
        },
        (PegId::B, PegId::A) => {
            assert(t1.peg(PegId::C) == t0.peg(PegId::C));
        },
        (PegId::B, PegId::C) => {
            assert(t1.peg(PegId::A) == t0.peg(PegId::A));
        },
        (PegId::C, PegId::A) => {
            assert(t1.peg(PegId::B) == t0.peg(PegId::B));
        },
        (PegId::C, PegId::B) => {
            assert(t1.peg(PegId::A) == t0.peg(PegId::A));
        },
        _ => {},
    }
    assert(t1.all_disks() =~= t0.all_disks());
}

impl TowerOfHanoi {
    /// Carries out one move request in the order the rules prescribe:
    /// resolve the source, lift its top disk, resolve the destination, test
    /// legality, and either place the disk there or put it back where it
    /// came from. A rejected move reports its reason and leaves the board
    /// exactly as it was; an accepted move relocates exactly one disk.
    pub fn apply_move(&mut self, src: Option<PegId>, dst: Option<PegId>) -> (r: Result<
        (),
        HanoiError,
    >)
        requires
            old(self).wf(),
        ensures
            final(self).wf(),
            final(self).size == old(self).size,
            r == move_outcome(old(self).towers, src, dst),
            final(self).towers.all_disks() == old(self).towers.all_disks(),
            r is Err ==> towers_eq(final(self).towers, old(self).towers),
            r is Ok ==> (match (src, dst) {
                (Some(s), Some(d)) => move_applied(old(self).towers, final(self).towers, s, d),
                _ => false,
            }),
    {
        let s = match src {
            Some(p) => p,
            None => {
                return Err(HanoiError::InvalidPegIdentifier);
            },
        };
        let moving = match self.towers.pop_top(s) {
            Ok(d) => d,
            Err(e) => {
                return Err(e);
            },
        };
        let d = match dst {
            Some(p) => p,
            None => {
                self.towers.push(s, moving);
                proof {
                    lemma_restore(old(self).towers, self.towers, s);
                }
                return Err(HanoiError::InvalidPegIdentifier);
            },
        };
        match self.towers.peek_top(d) {
            Some(t) if t <= moving => {
                self.towers.push(s, moving);
                proof {
                    lemma_restore(old(self).towers, self.towers, s);
                }
                Err(HanoiError::IllegalMoveError { moving, blocking: t })
            },
            _ => {
                self.towers.push(d, moving);
                proof {
                    let t0 = old(self).towers;
                    let t1 = self.towers;
                    if s == d {
                        lemma_restore(t0, t1, s);
                        assert(move_applied(t0, t1, s, d));
                    } else {
                        lemma_move_conserves(t0, t1, s, d, moving);
                        lemma_descending_drop_last(t0.peg(s));
                        lemma_descending_push(t0.peg(d), moving);
                        assert(move_applied(t0, t1, s, d));
                    }
                }
                Ok(())
            },
        }
    }

    /// Processes one trimmed input line from start to finish: parse it,
    /// reject a malformed line or an illegal request, apply a legal move,
    /// or report that the quit sentinel was read. Every path preserves the
    /// puzzle invariant and the set of disks on the board.
    pub fn process_line(&mut self, line: &str) -> (r: LineOutcome)
        requires
            old(self).wf(),
        ensures
            final(self).wf(),
            final(self).size == old(self).size,
            r == line_outcome(old(self).towers, line@),
            final(self).towers.all_disks() == old(self).towers.all_disks(),
            line_effect(old(self).towers, final(self).towers, line@),
    {
        let cmd = parse_line(line);
        match cmd {
            ParsedCommand::Quit => LineOutcome::Quit,
            ParsedCommand::Malformed => LineOutcome::Rejected(HanoiError::MalformedCommandError),
            ParsedCommand::Move { src, dst } => match self.apply_move(src, dst) {
                Ok(()) => LineOutcome::Applied,
                Err(e) => LineOutcome::Rejected(e),
            },
        }
    }
}

/// The starting stack holds each of the sizes 1 through `n` exactly once.
proof fn lemma_full_tower_count(n: usize, d: usize)
    ensures
        full_tower(n).to_multiset().count(d) == if 1 <= d <= n {
            1nat
        } else {
            0nat
        },
    decreases n,
{
    broadcast use vstd::seq_lib::group_to_multiset_ensures;

    if n == 0 {
        assert(!full_tower(0).contains(d));
    } else {
        let prev = (n - 1) as usize;
        lemma_full_tower_count(prev, d);
        assert(full_tower(n) =~= full_tower(prev).insert(0, n));
    }
}

/// Conservation law: in a well-formed game the disks on the board are
/// exactly the sizes 1 through `size`, each appearing once — no command
/// ever creates, duplicates or destroys a disk.
pub proof fn lemma_conservation(game: TowerOfHanoi, d: usize)
    requires
        game.wf(),
    ensures
        game.towers.all_disks().count(d) == if 1 <= d <= game.size {
            1nat
        } else {
            0nat
        },
{
    lemma_full_tower_count(game.size, d);
}

/// Lifting a peg's top disk and putting it straight back restores the peg,
/// and with it the whole board and its invariant.
proof fn lemma_restore(t0: Towers, t1: Towers, s: PegId)
    requires
        t0.peg(s).len() > 0,
        t1.peg(s) == t0.peg(s).drop_last().push(t0.peg(s).last()),
        forall|q: PegId| q != s ==> t1.peg(q) == t0.peg(q),
    ensures
        towers_eq(t1, t0),
        t1.all_disks() == t0.all_disks(),
{
    assert(t1.peg(s) =~= t0.peg(s));
    match s {
        PegId::A => {
            assert(t1.peg(PegId::B) == t0.peg(PegId::B));
            assert(t1.peg(PegId::C) == t0.peg(PegId::C));
        },
        PegId::B => {
            assert(t1.peg(PegId::A) == t0.peg(PegId::A));
            assert(t1.peg(PegId::C) == t0.peg(PegId::C));
        },
        PegId::C => {
            assert(t1.peg(PegId::A) == t0.peg(PegId::A));
            assert(t1.peg(PegId::B) == t0.peg(PegId::B));
        },
    }
}

} // verus!
