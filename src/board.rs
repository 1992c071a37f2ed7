use vstd::prelude::*;

verus! {

/// The mark a player puts in a slot; an empty slot is `None` at board level.
#[derive(Clone, Copy, Debug, PartialEq, Eq, Structural)]
pub enum Cell {
    X,
    O,
}

/// Nine slots, indexed 0 to 8 row by row.
#[derive(Clone, Copy, Debug)]
pub struct TicTacToe(pub [Option<Cell>; 9]);

/// The three slots of win line `k`: three rows, three columns, two diagonals.
pub open spec fn line_of(k: int) -> (int, int, int) {
    if k == 0 {
        (0, 1, 2)
    } else if k == 1 {
        (3, 4, 5)
    } else if k == 2 {
        (6, 7, 8)
    } else if k == 3 {
        (0, 3, 6)
    } else if k == 4 {
        (1, 4, 7)
    } else if k == 5 {
        (2, 5, 8)
    } else if k == 6 {
        (0, 4, 8)
    } else {
        (2, 4, 6)
    }
}

/// The mark that fills all three slots of line `k`, if one does.
pub open spec fn line_mark(b: Seq<Option<Cell>>, k: int) -> Option<Cell> {
    let (p, q, r) = line_of(k);
    if b[p] is Some && b[q] == b[p] && b[r] == b[p] {
        b[p]
    } else {
        None
    }
}

/// The mark of the first uniform line among lines `k..8`, in table order.
pub open spec fn winner_from(b: Seq<Option<Cell>>, k: int) -> Option<Cell>
    decreases 8 - k,
{
    if k >= 8 {
        None
    } else if line_mark(b, k) is Some {
        line_mark(b, k)
    } else {
        winner_from(b, k + 1)
    }
}

pub open spec fn winner_of(b: Seq<Option<Cell>>) -> Option<Cell> {
    winner_from(b, 0)
}

proof fn lemma_winner_from_lines(b: Seq<Option<Cell>>, k: int)
    requires
        0 <= k <= 8,
    ensures
        winner_from(b, k) is None <==> forall|j: int| k <= j < 8 ==> line_mark(b, j) is None,
        winner_from(b, k) is Some ==> exists|j: int|
            k <= j < 8 && line_mark(b, j) == winner_from(b, k),
    decreases 8 - k,
{
    if k < 8 {
        lemma_winner_from_lines(b, k + 1);
        if winner_from(b, k + 1) is Some && line_mark(b, k) is None {
            let j = choose|j: int| k + 1 <= j < 8 && line_mark(b, j) == winner_from(b, k + 1);
            assert(k <= j < 8 && line_mark(b, j) == winner_from(b, k));
        }
    }
}

/// The winner is the mark that fills some line, and there is none exactly when
/// no line is filled by one mark. On a board where no two filled lines hold
/// different marks (every board reachable in play), the winner is the mark of
/// each filled line.
pub proof fn lemma_winner_is_a_filled_line(b: Seq<Option<Cell>>)
    ensures
        winner_of(b) is Some ==> exists|k: int| 0 <= k < 8 && line_mark(b, k) == winner_of(b),
        winner_of(b) is None <==> forall|k: int| 0 <= k < 8 ==> line_mark(b, k) is None,
        (forall|k1: int, k2: int|
            0 <= k1 < 8 && 0 <= k2 < 8 && line_mark(b, k1) is Some && line_mark(b, k2) is Some
                ==> line_mark(b, k1) == line_mark(b, k2)) ==> forall|k: int|
            0 <= k < 8 && line_mark(b, k) is Some ==> winner_of(b) == line_mark(b, k),
{
    lemma_winner_from_lines(b, 0);
}

/// Number of marks among the first `n` slots.
pub open spec fn marks_in(b: Seq<Option<Cell>>, n: int) -> int
    decreases n,
{
    if n <= 0 {
        0
    } else {
        marks_in(b, n - 1) + if b[n - 1] is Some { 1int } else { 0int }
    }
}

pub open spec fn count_marks(b: Seq<Option<Cell>>) -> int {
    marks_in(b, b.len() as int)
}

/// At most `n` marks among the first `n` slots, and `n` exactly when they are all filled.
pub proof fn lemma_marks_bounds(b: Seq<Option<Cell>>, n: int)
    requires
        0 <= n <= b.len(),
    ensures
        0 <= marks_in(b, n) <= n,
        marks_in(b, n) == n <==> forall|j: int| 0 <= j < n ==> b[j] is Some,
    decreases n,
{
    if n > 0 {
        lemma_marks_bounds(b, n - 1);
    }
}

/// Filling an empty slot adds one mark to every prefix that holds it.
pub proof fn lemma_marks_update(b: Seq<Option<Cell>>, n: int, i: int, c: Cell)
    requires
        0 <= n <= b.len(),
        0 <= i < b.len(),
        b[i] is None,
    ensures
        marks_in(b.update(i, Some(c)), n) == marks_in(b, n) + if i < n { 1int } else { 0int },
    decreases n,
{
    if n > 0 {
        lemma_marks_update(b, n - 1, i, c);
    }
}

/// Two distinct empty slots leave room for at most `n - 2` marks among the first `n`.
pub proof fn lemma_two_empty_slots(b: Seq<Option<Cell>>, n: int, i: int, j: int)
    requires
        0 <= n <= b.len(),
        0 <= i < b.len(),
        0 <= j < b.len(),
        i != j,
        b[i] is None,
        b[j] is None,
    ensures
        marks_in(b, n) <= n - (if i < n { 1int } else { 0int }) - (if j < n { 1int } else { 0int }),
    decreases n,
{
    if n > 0 {
        lemma_two_empty_slots(b, n - 1, i, j);
    }
}

/// Slot indices of line `k`, read from the fixed table.
fn line_at(k: usize) -> (r: (usize, usize, usize))
    requires
        k < 8,
    ensures
        (r.0 as int, r.1 as int, r.2 as int) == line_of(k as int),
{
    match k {
        0 => (0, 1, 2),
        1 => (3, 4, 5),
        2 => (6, 7, 8),
        3 => (0, 3, 6),
        4 => (1, 4, 7),
        5 => (2, 5, 8),
        6 => (0, 4, 8),
        _ => (2, 4, 6),
    }
}

impl TicTacToe {
    pub open spec fn view(&self) -> Seq<Option<Cell>> {
        self.0@
    }

    /// An empty board.
    pub fn new() -> (r: Self)
        ensures
            r@.len() == 9,
            forall|i: int| 0 <= i < 9 ==> r@[i] is None,
    {
        TicTacToe([None; 9])
    }

    /// Sets slot `pos` to `cell`, whatever it held.
    pub fn make_move(&mut self, pos: usize, cell: Option<Cell>)
        requires
            pos < 9,
        ensures
            final(self)@ == old(self)@.update(pos as int, cell),
    {
        self.0[pos] = cell;
    }

    /// Number of marks on the board, which is the number of moves made.
    pub fn marks(&self) -> (r: i8)
        ensures
            r == count_marks(self@),
            0 <= r <= 9,
    {
        let mut n: i8 = 0;
        let mut i: usize = 0;
        while i < 9
            invariant
                i <= 9,
                self@.len() == 9,
                n == marks_in(self@, i as int),
                0 <= n <= i,
            decreases 9 - i,
        {
            if self.0[i].is_some() {
                n += 1;
            }
            i += 1;
        }
        n
    }

    /// The mark of the first line in table order whose three slots hold it.
    pub fn check_win(&self) -> (r: Option<Cell>)
        ensures
            r == winner_of(self@),
    {
        let mut k: usize = 0;
        while k < 8
            invariant
                k <= 8,
                self@.len() == 9,
                winner_of(self@) == winner_from(self@, k as int),
            decreases 8 - k,
        {
            let (p, q, s) = line_at(k);
            let a = self.0[p];
            if let Some(m) = a {
                if self.0[q] == a && self.0[s] == a {
                    return Some(m);
                }
            }
            k += 1;
        }
        None
    }
}

} // verus!
