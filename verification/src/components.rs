use vstd::prelude::*;

use crate::BoardPlacementError;
use crate::PlacementErrorKind;

verus! {

/// A cell's content: a mark by one of the two contestants, or an empty
/// cell carrying its 1-based index as a display label.
#[derive(Clone, Copy, Debug, PartialEq, Eq, Structural)]
pub enum Player {
    Human,
    Computer,
    Empty(u8),
}

/// The cell is unoccupied (the label does not matter).
pub open spec fn cell_is_empty(p: Player) -> bool {
    match p {
        Player::Empty(_) => true,
        _ => false,
    }
}

/// `p` is one of the two contestants, so it may appear as a mark or move.
pub open spec fn is_mover(p: Player) -> bool {
    p == Player::Human || p == Player::Computer
}

/// Cell `j` (1-based, in 1..=9) of the cell sequence `b` is unoccupied.
pub open spec fn empty_at(b: Seq<Player>, j: int) -> bool {
    cell_is_empty(b[j - 1])
}

/// Cell `j` (1-based) is admissible: an empty cell carries its own index
/// as label, so that two empty cells never compare equal.
pub open spec fn cell_wf(b: Seq<Player>, j: int) -> bool {
    match b[j - 1] {
        Player::Empty(l) => l as int == j,
        _ => true,
    }
}

/// The `k`-th winning line (k in 0..8) as a triple of 1-based cell
/// indices: three columns, three rows, two diagonals, in the order in
/// which `evaluate` scans them.
pub open spec fn spec_line(k: int) -> (int, int, int) {
    if k == 0 {
        (1, 4, 7)
    } else if k == 1 {
        (2, 5, 8)
    } else if k == 2 {
        (3, 6, 9)
    } else if k == 3 {
        (1, 2, 3)
    } else if k == 4 {
        (4, 5, 6)
    } else if k == 5 {
        (7, 8, 9)
    } else if k == 6 {
        (1, 5, 9)
    } else {
        (3, 5, 7)
    }
}

/// All three cells of line `k` hold exactly the value `p`.
pub open spec fn line_won_by(b: Seq<Player>, k: int, p: Player) -> bool {
    &&& b[spec_line(k).0 - 1] == p
    &&& b[spec_line(k).1 - 1] == p
    &&& b[spec_line(k).2 - 1] == p
}

/// The winner found by scanning lines `k..8` in order; `Empty(0)` stands
/// for "no decided line", i.e. the game is still undecided or drawn.
pub open spec fn spec_winner_from(b: Seq<Player>, k: int) -> Player
    decreases 8 - k,
{
    if k < 0 || k >= 8 {
        Player::Empty(0)
    } else if line_won_by(b, k, Player::Computer) {
        Player::Computer
    } else if line_won_by(b, k, Player::Human) {
        Player::Human
    } else {
        spec_winner_from(b, k + 1)
    }
}

/// What `Board::evaluate` returns on a board with cells `b`.
pub open spec fn spec_evaluate(b: Seq<Player>) -> Player {
    spec_winner_from(b, 0)
}

/// The 3x3 game state: nine cells addressed by 1-based index, plus a
/// cache of the indices that are still empty, kept sorted ascending.
pub struct Board {
    pub positions: Vec<Player>,
    pub available_positions: Vec<u8>,
}

impl Board {
    /// The nine cells, with cell `j` (1-based) at sequence index `j - 1`.
    pub open spec fn cells(&self) -> Seq<Player> {
        self.positions@
    }

    /// The cached list of empty cell indices.
    pub open spec fn avail(&self) -> Seq<u8> {
        self.available_positions@
    }

    /// The board invariant: nine admissible cells, and the cache holds
    /// exactly the empty indices, strictly ascending.
    pub open spec fn well_formed(&self) -> bool {
        &&& self.positions@.len() == 9
        &&& forall|j: int| 1 <= j <= 9 ==> #[trigger] cell_wf(self.positions@, j)
        &&& forall|n: int|
            0 <= n < self.available_positions@.len() ==> 1 <= #[trigger] self.available_positions@[n] <= 9
                && empty_at(self.positions@, self.available_positions@[n] as int)
        &&& forall|n: int, m: int|
            0 <= n < m < self.available_positions@.len() ==> #[trigger] self.available_positions@[n]
                < #[trigger] self.available_positions@[m]
        &&& forall|j: int|
            1 <= j <= 9 && #[trigger] empty_at(self.positions@, j) ==> self.available_positions@.contains(
                j as u8,
            )
    }

    /// A fresh board: nine empty cells labeled 1..=9, all indices available.
    pub fn new() -> (r: Board)
        ensures
            r.well_formed(),
            forall|j: int| 1 <= j <= 9 ==> #[trigger] empty_at(r.cells(), j),
            r.avail().len() == 9,
    {
        let mut positions: Vec<Player> = Vec::new();
        let mut available_positions: Vec<u8> = Vec::new();
        let mut i: u8 = 1;
        while i <= 9
            invariant
                1 <= i <= 10,
                positions@.len() == i - 1,
                available_positions@.len() == i - 1,
                forall|n: int| 0 <= n < i - 1 ==> #[trigger] positions@[n] == Player::Empty((n + 1) as u8),
                forall|n: int| 0 <= n < i - 1 ==> #[trigger] available_positions@[n] == (n + 1) as u8,
            decreases 10 - i,
        {
            positions.push(Player::Empty(i));
            available_positions.push(i);
            i = i + 1;
        }
        let r = Board { positions, available_positions };
        proof {
            assert forall|j: int| 1 <= j <= 9 implies #[trigger] cell_wf(r.positions@, j) by {
                assert(r.positions@[j - 1] == Player::Empty(j as u8));
            }
            assert forall|j: int| 1 <= j <= 9 && #[trigger] empty_at(r.positions@, j) implies r
                .available_positions@.contains(j as u8) by {
                assert(r.available_positions@[j - 1] == j as u8);
            }
            assert forall|j: int| 1 <= j <= 9 implies #[trigger] empty_at(r.cells(), j) by {
                assert(r.positions@[j - 1] == Player::Empty(j as u8));
            }
        }
        r
    }

    /// Marks cell `at` for `player`. Rejects an index outside 1..=9 and a
    /// cell that already carries a mark; a rejected move leaves the board
    /// untouched. A successful move fills exactly that one cell and
    /// shrinks the empty-set by exactly one.
    pub fn place_move(&mut self, at: u8, player: Player) -> (r: Result<(), BoardPlacementError>)
        requires
            old(self).well_formed(),
            is_mover(player),
        ensures
            final(self).well_formed(),
            r is Ok <==> (1 <= at <= 9 && empty_at(old(self).cells(), at as int)),
            r is Ok ==> final(self).cells() == old(self).cells().update(at as int - 1, player),
            r is Ok ==> final(self).avail().len() == old(self).avail().len() - 1,
            r is Err ==> *final(self) == *old(self),
            !(1 <= at <= 9) ==> r == Err::<(), BoardPlacementError>(
                (BoardPlacementError { kind: PlacementErrorKind::InvalidPosition }),
            ),
            (1 <= at <= 9 && !empty_at(old(self).cells(), at as int)) ==> r == Err::<
                (),
                BoardPlacementError,
            >((BoardPlacementError { kind: PlacementErrorKind::CellOccupied })),
    {
        if at < 1 || at > 9 {
            return Err(BoardPlacementError { kind: PlacementErrorKind::InvalidPosition });
        }
        let idx: usize = (at - 1) as usize;
        let occupied = match self.positions[idx] {
            Player::Empty(_) => false,
            _ => true,
        };
        if occupied {
            return Err(BoardPlacementError { kind: PlacementErrorKind::CellOccupied });
        }
        self.positions[idx] = player;

        let ghost old_avail = self.available_positions@;
        let mut n: usize = 0;
        while n < self.available_positions.len() && self.available_positions[n] != at
            invariant
                self.available_positions@ == old_avail,
                old_avail == old(self).avail(),
                n <= old_avail.len(),
                forall|m: int| 0 <= m < n ==> #[trigger] old_avail[m] != at,
            decreases old_avail.len() - n,
        {
            n = n + 1;
        }
        proof {
            // `at` is empty on the old board, so the cache holds it; the scan
            // cannot have run past it.
            assert(empty_at(old(self).cells(), at as int));
            assert(old(self).avail().contains(at));
            let w = choose|w: int| 0 <= w < old_avail.len() && old_avail[w] == at;
            assert(n < old_avail.len() && old_avail[n as int] == at) by {
                if n >= old_avail.len() {
                    assert(old_avail[w] != at);
                }
            }
        }
        self.available_positions.remove(n);

        proof {
            let oldc = old(self).cells();
            let newc = self.positions@;
            let olda = old_avail;
            let newa = self.available_positions@;
            assert(newc == oldc.update(at as int - 1, player));
            assert(newa =~= olda.subrange(0, n as int) + olda.subrange(
                n as int + 1,
                olda.len() as int,
            ));
            assert forall|j: int| 1 <= j <= 9 implies #[trigger] cell_wf(newc, j) by {
                assert(cell_wf(oldc, j));
            }
            assert forall|m: int|
                0 <= m < newa.len() implies 1 <= #[trigger] newa[m] <= 9 && empty_at(
                newc,
                newa[m] as int,
            ) by {
                let mo = if m < n as int { m } else { m + 1 };
                assert(newa[m] == olda[mo]);
                assert(olda[mo] != at) by {
                    if mo != n as int {
                        if mo < n as int {
                            assert(olda[mo] < olda[n as int]);
                        } else {
                            assert(olda[n as int] < olda[mo]);
                        }
                    }
                }
                assert(empty_at(oldc, olda[mo] as int));
            }
            assert forall|m1: int, m2: int| 0 <= m1 < m2 < newa.len() implies #[trigger] newa[m1]
                < #[trigger] newa[m2] by {
                let o1 = if m1 < n as int { m1 } else { m1 + 1 };
                let o2 = if m2 < n as int { m2 } else { m2 + 1 };
                assert(newa[m1] == olda[o1] && newa[m2] == olda[o2]);
            }
            assert forall|j: int| 1 <= j <= 9 && #[trigger] empty_at(newc, j) implies newa.contains(
                j as u8,
            ) by {
                assert(j != at as int);
                assert(empty_at(oldc, j));
                assert(olda.contains(j as u8));
                let w = choose|w: int| 0 <= w < olda.len() && olda[w] == j as u8;
                assert(w != n as int);
                if w < n as int {
                    assert(newa[w] == j as u8);
                } else {
                    assert(newa[w - 1] == j as u8);
                }
            }
        }
        Ok(())
    }

    /// The current empty-set as a list of cell indices, ascending: the
    /// deterministic enumeration order the search candidates come in.
    pub fn empty_cells(&self) -> (r: Vec<u8>)
        requires
            self.well_formed(),
        ensures
            r@ == self.avail(),
    {
        let mut r: Vec<u8> = Vec::new();
        let mut n: usize = 0;
        while n < self.available_positions.len()
            invariant
                n <= self.available_positions@.len(),
                r@ == self.available_positions@.take(n as int),
            decreases self.available_positions@.len() - n,
        {
            r.push(self.available_positions[n]);
            proof {
                assert(r@ =~= self.available_positions@.take(n as int + 1));
            }
            n = n + 1;
        }
        proof {
            assert(r@ =~= self.available_positions@);
        }
        r
    }

    /// Scans the eight winning lines in a fixed order and returns the
    /// owner of the first fully marked line, or `Empty(0)` if no line is
    /// fully marked by one contestant.
    pub fn evaluate(&self) -> (r: Player)
        requires
            self.well_formed(),
        ensures
            r == spec_evaluate(self.cells()),
    {
        let mut k: usize = 0;
        while k < 8
            invariant
                self.well_formed(),
                k <= 8,
                spec_winner_from(self.cells(), k as int) == spec_evaluate(self.cells()),
            decreases 8 - k,
        {
            let (a, b, c) = line_cells(k);
            let va = self.positions[(a - 1) as usize];
            let vb = self.positions[(b - 1) as usize];
            let vc = self.positions[(c - 1) as usize];
            if va == vb && vb == vc {
                proof {
                    // Three distinct empty cells carry distinct labels, so a
                    // fully equal line is a fully marked one.
                    assert(cell_wf(self.cells(), a as int) && cell_wf(self.cells(), b as int));
                    assert(is_mover(va));
                    assert(line_won_by(self.cells(), k as int, va));
                }
                return va;
            }
            proof {
                assert(!line_won_by(self.cells(), k as int, Player::Computer));
                assert(!line_won_by(self.cells(), k as int, Player::Human));
            }
            k = k + 1;
        }
        Player::Empty(0)
    }
}

impl Clone for Board {
    /// A value copy: the search duplicates the board for each hypothetical
    /// continuation, so the copy must carry the exact same state.
    fn clone(&self) -> (r: Self)
        ensures
            r.positions@ == self.positions@,
            r.available_positions@ == self.available_positions@,
    {
        let mut positions: Vec<Player> = Vec::new();
        let mut i: usize = 0;
        while i < self.positions.len()
            invariant
                i <= self.positions@.len(),
                positions@ == self.positions@.take(i as int),
            decreases self.positions@.len() - i,
        {
            positions.push(self.positions[i]);
            proof {
                assert(positions@ =~= self.positions@.take(i as int + 1));
            }
            i = i + 1;
        }
        let mut available_positions: Vec<u8> = Vec::new();
        let mut n: usize = 0;
        while n < self.available_positions.len()
            invariant
                n <= self.available_positions@.len(),
                available_positions@ == self.available_positions@.take(n as int),
            decreases self.available_positions@.len() - n,
        {
            available_positions.push(self.available_positions[n]);
            proof {
                assert(available_positions@ =~= self.available_positions@.take(n as int + 1));
            }
            n = n + 1;
        }
        proof {
            assert(positions@ =~= self.positions@);
            assert(available_positions@ =~= self.available_positions@);
        }
        Board { positions, available_positions }
    }
}

/// The `k`-th winning line as concrete cell indices, ascending within
/// the triple; mirrors `spec_line`.
fn line_cells(k: usize) -> (r: (u8, u8, u8))
    requires
        k < 8,
    ensures
        r.0 as int == spec_line(k as int).0,
        r.1 as int == spec_line(k as int).1,
        r.2 as int == spec_line(k as int).2,
        1 <= r.0 < r.1 < r.2 <= 9,
{
    match k {
        0 => (1, 4, 7),
        1 => (2, 5, 8),
        2 => (3, 6, 9),
        3 => (1, 2, 3),
        4 => (4, 5, 6),
        5 => (7, 8, 9),
        6 => (1, 5, 9),
        _ => (3, 5, 7),
    }
}

/// The code `snapshot` writes for a cell: 0 empty, 1 human, 2 computer.
pub open spec fn spec_code_of(p: Player) -> u8 {
    match p {
        Player::Human => 1,
        Player::Computer => 2,
        Player::Empty(_) => 0,
    }
}

/// The cell a code rebuilds at 1-based index `j`: an empty cell gets its
/// canonical label back.
pub open spec fn spec_cell_of(code: u8, j: int) -> Player {
    if code == 1 {
        Player::Human
    } else if code == 2 {
        Player::Computer
    } else {
        Player::Empty(j as u8)
    }
}

impl Board {
    /// Serializes the board to nine cell codes (0 empty, 1 human mark,
    /// 2 computer mark), one per cell in index order.
    pub fn snapshot(&self) -> (r: Vec<u8>)
        requires
            self.well_formed(),
        ensures
            r@.len() == 9,
            forall|i: int| 0 <= i < 9 ==> #[trigger] r@[i] == spec_code_of(self.cells()[i]),
    {
        let mut r: Vec<u8> = Vec::new();
        let mut i: usize = 0;
        while i < 9
            invariant
                self.well_formed(),
                i <= 9,
                r@.len() == i,
                forall|n: int| 0 <= n < i ==> #[trigger] r@[n] == spec_code_of(self.cells()[n]),
            decreases 9 - i,
        {
            let code: u8 = match self.positions[i] {
                Player::Human => 1,
                Player::Computer => 2,
                Player::Empty(_) => 0,
            };
            r.push(code);
            i = i + 1;
        }
        r
    }

    /// Rebuilds a board from nine cell codes, restoring empty-cell labels
    /// and the empty-set cache; rejects anything that is not exactly nine
    /// codes in 0..=2.
    pub fn restore(codes: &Vec<u8>) -> (r: Option<Board>)
        ensures
            r is Some <==> (codes@.len() == 9 && forall|i: int| 0 <= i < 9 ==> #[trigger] codes@[i] <= 2),
            r is Some ==> r->0.well_formed(),
            r is Some ==> forall|i: int|
                0 <= i < 9 ==> #[trigger] r->0.cells()[i] == spec_cell_of(codes@[i], i + 1),
    {
        if codes.len() != 9 {
            return None;
        }
        let mut positions: Vec<Player> = Vec::new();
        let mut available_positions: Vec<u8> = Vec::new();
        let mut i: usize = 0;
        while i < 9
            invariant
                codes@.len() == 9,
                i <= 9,
                positions@.len() == i,
                forall|n: int| 0 <= n < i ==> #[trigger] codes@[n] <= 2,
                forall|n: int|
                    0 <= n < i ==> #[trigger] positions@[n] == spec_cell_of(codes@[n], n + 1),
                forall|m: int|
                    0 <= m < available_positions@.len() ==> 1 <= #[trigger] available_positions@[m]
                        <= i && empty_at(positions@, available_positions@[m] as int),
                forall|m1: int, m2: int|
                    0 <= m1 < m2 < available_positions@.len()
                        ==> #[trigger] available_positions@[m1]
                        < #[trigger] available_positions@[m2],
                forall|j: int|
                    1 <= j <= i && #[trigger] empty_at(positions@, j) ==> available_positions@.contains(
                        j as u8,
                    ),
            decreases 9 - i,
        {
            let code = codes[i];
            if code > 2 {
                return None;
            }
            let ghost old_avail = available_positions@;
            let ghost old_positions = positions@;
            let cell: Player = if code == 1 {
                Player::Human
            } else if code == 2 {
                Player::Computer
            } else {
                available_positions.push((i + 1) as u8);
                Player::Empty((i + 1) as u8)
            };
            positions.push(cell);
            proof {
                assert forall|j: int|
                    1 <= j <= i + 1 && #[trigger] empty_at(positions@, j) implies available_positions@.contains(
                    j as u8,
                ) by {
                    if j <= i {
                        assert(positions@[j - 1] == old_positions[j - 1]);
                        assert(empty_at(old_positions, j));
                        assert(old_avail.contains(j as u8));
                        let w = choose|w: int| 0 <= w < old_avail.len() && old_avail[w] == j as u8;
                        assert(available_positions@[w] == j as u8);
                    } else {
                        assert(!cell_is_empty(cell) ==> !empty_at(positions@, j));
                        if cell_is_empty(cell) {
                            assert(available_positions@.last() == j as u8);
                        }
                    }
                }
                assert forall|m: int|
                    0 <= m < available_positions@.len() implies 1
                        <= #[trigger] available_positions@[m] <= i + 1 && empty_at(
                    positions@,
                    available_positions@[m] as int,
                ) by {
                    if m < old_avail.len() {
                        assert(available_positions@[m] == old_avail[m]);
                        assert(empty_at(positions@.take(i as int), old_avail[m] as int));
                    }
                }
            }
            i = i + 1;
        }
        let r = Board { positions, available_positions };
        proof {
            assert forall|j: int| 1 <= j <= 9 implies #[trigger] cell_wf(r.positions@, j) by {
                assert(r.positions@[j - 1] == spec_cell_of(codes@[j - 1], j));
            }
        }
        Some(r)
    }
}

/// Two strictly ascending sequences with the same members are the same
/// sequence.
proof fn lemma_sorted_same_members(a: Seq<u8>, c: Seq<u8>)
    requires
        forall|n: int, m: int| 0 <= n < m < a.len() ==> #[trigger] a[n] < #[trigger] a[m],
        forall|n: int, m: int| 0 <= n < m < c.len() ==> #[trigger] c[n] < #[trigger] c[m],
        forall|x: u8| a.contains(x) <==> c.contains(x),
    ensures
        a == c,
    decreases a.len(),
{
    if a.len() == 0 {
        if c.len() > 0 {
            assert(c.contains(c[0]));
            assert(a.contains(c[0]));
        }
        assert(a =~= c);
    } else {
        assert(a.contains(a[0]));
        assert(c.contains(a[0]));
        assert(c.len() > 0);
        assert(c.contains(c[0]));
        assert(a.contains(c[0]));
        let w = choose|w: int| 0 <= w < c.len() && c[w] == a[0];
        let u = choose|u: int| 0 <= u < a.len() && a[u] == c[0];
        assert(a[0] == c[0]) by {
            if w > 0 {
                assert(c[0] < c[w]);
            }
            if u > 0 {
                assert(a[0] < a[u]);
            }
        }
        let at = a.drop_first();
        let ct = c.drop_first();
        assert forall|x: u8| at.contains(x) <==> ct.contains(x) by {
            assert(at.contains(x) <==> (a.contains(x) && x != a[0])) by {
                if at.contains(x) {
                    let m = choose|m: int| 0 <= m < at.len() && at[m] == x;
                    assert(a[m + 1] == x);
                    assert(a[0] < a[m + 1]);
                }
                if a.contains(x) && x != a[0] {
                    let m = choose|m: int| 0 <= m < a.len() && a[m] == x;
                    assert(at[m - 1] == x);
                }
            }
            assert(ct.contains(x) <==> (c.contains(x) && x != c[0])) by {
                if ct.contains(x) {
                    let m = choose|m: int| 0 <= m < ct.len() && ct[m] == x;
                    assert(c[m + 1] == x);
                    assert(c[0] < c[m + 1]);
                }
                if c.contains(x) && x != c[0] {
                    let m = choose|m: int| 0 <= m < c.len() && c[m] == x;
                    assert(ct[m - 1] == x);
                }
            }
        }
        lemma_sorted_same_members(at, ct);
        assert(a.len() == c.len());
        assert forall|i: int| 0 <= i < a.len() implies a[i] == c[i] by {
            if i > 0 {
                assert(at[i - 1] == a[i]);
                assert(ct[i - 1] == c[i]);
            }
        }
        assert(a =~= c);
    }
}

/// Round trip: a board rebuilt from a snapshot carries the exact same
/// cells, and with it the same evaluation and the same empty-set, cache
/// included.
pub proof fn lemma_snapshot_roundtrip(b: &Board, r: &Board)
    requires
        b.well_formed(),
        r.well_formed(),
        forall|i: int|
            0 <= i < 9 ==> #[trigger] r.cells()[i] == spec_cell_of(spec_code_of(b.cells()[i]), i + 1),
    ensures
        r.cells() == b.cells(),
        spec_evaluate(r.cells()) == spec_evaluate(b.cells()),
        r.avail() == b.avail(),
{
    assert forall|i: int| 0 <= i < 9 implies #[trigger] r.cells()[i] == b.cells()[i] by {
        assert(cell_wf(b.cells(), i + 1));
    }
    assert(r.cells() =~= b.cells());
    assert forall|x: u8| r.avail().contains(x) <==> b.avail().contains(x) by {
        if r.avail().contains(x) {
            let w = choose|w: int| 0 <= w < r.avail().len() && r.avail()[w] == x;
            assert(1 <= r.avail()[w] <= 9 && empty_at(r.cells(), r.avail()[w] as int));
            assert(empty_at(b.cells(), x as int));
        }
        if b.avail().contains(x) {
            let w = choose|w: int| 0 <= w < b.avail().len() && b.avail()[w] == x;
            assert(1 <= b.avail()[w] <= 9 && empty_at(b.cells(), b.avail()[w] as int));
            assert(empty_at(r.cells(), x as int));
        }
    }
    lemma_sorted_same_members(r.avail(), b.avail());
}

/// A decided line is exactly what makes `evaluate` name a winner: the
/// result is a contestant if and only if that contestant owns a fully
/// marked line, and it is the first such line in scan order; with no
/// fully marked line the result is undecided.
pub proof fn lemma_evaluate_characterization(b: Seq<Player>)
    ensures
        spec_evaluate(b) == Player::Computer ==> exists|k: int|
            0 <= k < 8 && line_won_by(b, k, Player::Computer),
        spec_evaluate(b) == Player::Human ==> exists|k: int|
            0 <= k < 8 && line_won_by(b, k, Player::Human),
        !is_mover(spec_evaluate(b)) <==> (forall|k: int|
            0 <= k < 8 ==> !line_won_by(b, k, Player::Computer) && !line_won_by(
                b,
                k,
                Player::Human,
            )),
        is_mover(spec_evaluate(b)) || spec_evaluate(b) == Player::Empty(0),
{
    lemma_winner_from_characterization(b, 0);
}

proof fn lemma_winner_from_characterization(b: Seq<Player>, k: int)
    requires
        0 <= k <= 8,
    ensures
        spec_winner_from(b, k) == Player::Computer ==> exists|m: int|
            k <= m < 8 && line_won_by(b, m, Player::Computer),
        spec_winner_from(b, k) == Player::Human ==> exists|m: int|
            k <= m < 8 && line_won_by(b, m, Player::Human),
        !is_mover(spec_winner_from(b, k)) <==> (forall|m: int|
            k <= m < 8 ==> !line_won_by(b, m, Player::Computer) && !line_won_by(
                b,
                m,
                Player::Human,
            )),
        is_mover(spec_winner_from(b, k)) || spec_winner_from(b, k) == Player::Empty(0),
    decreases 8 - k,
{
    if k < 8 {
        lemma_winner_from_characterization(b, k + 1);
    }
}

} // verus!
