//! What the smoothing of a matrix by the nearest cells decides: which
//! cells are the nearest to a cell, and how the distances that workers
//! send in are put together to one matrix.
//!
//! A distance is the 32-bit pattern of an IEEE-754 single-precision
//! number. Distances are sums of absolute values, so they are not below
//! zero, and such numbers ascend as their patterns do. The arithmetic on
//! the numbers is not done here.

use crate::error::FormatError;
use vstd::prelude::*;

verus! {

/// The number of nearest cells that a cell is smoothed by.
pub const K_NEAREST: usize = 10;

/// The number of workers that compute distances.
pub const NUM_THREADS: usize = 20;

/// Whether cell `i` comes before cell `j` when cells are put in ascending
/// order of distance, and cells at the same distance in ascending order
/// of their index.
pub open spec fn before(dists: Seq<u32>, i: int, j: int) -> bool {
    dists[i] < dists[j] || (dists[i] == dists[j] && i < j)
}

/// Whether `cells` are the first cells of that order among the first `n`
/// cells: they are in order, and every other of the first `n` cells comes
/// after the last of them.
pub open spec fn is_nearest(cells: Seq<usize>, dists: Seq<u32>, n: int) -> bool {
    &&& forall|a: int| 0 <= a < cells.len() ==> #[trigger] cells[a] < n
    &&& forall|a: int, b: int|
        0 <= a < b < cells.len() ==> before(dists, cells[a] as int, cells[b] as int)
    &&& forall|j: usize|
        j < n && cells.len() > 0 ==> #[trigger] cells.contains(j) || before(
            dists,
            cells[cells.len() - 1] as int,
            j as int,
        )
}

/// The lesser of two numbers.
pub open spec fn least(a: int, b: int) -> int {
    if a <= b {
        a
    } else {
        b
    }
}

/// The first `m` cells in ascending order of distance, or all cells where
/// there are fewer; cells at the same distance stay in the order of their index.
pub fn nearest(cell_dists: &Vec<u32>, m: usize) -> (cells: Vec<usize>)
    ensures
        cells@.len() == least(m as int, cell_dists@.len() as int),
        is_nearest(cells@, cell_dists@, cell_dists@.len() as int),
{
    let mut cells: Vec<usize> = Vec::new();
    if m == 0 {
        return cells;
    }
    let ghost dists = cell_dists@;
    let mut n: usize = 0;
    while n < cell_dists.len()
        invariant
            n <= cell_dists.len(),
            m > 0,
            dists == cell_dists@,
            cells@.len() == least(m as int, n as int),
            is_nearest(cells@, dists, n as int),
            cells@.len() < m ==> forall|j: usize| j < n ==> #[trigger] cells@.contains(j),
        decreases cell_dists.len() - n,
    {
        let ghost old_cells = cells@;
        let dist = cell_dists[n];
        let mut pos: usize = cells.len();
        while pos > 0 && cell_dists[cells[pos - 1]] > dist
            invariant
                pos <= cells.len(),
                n < cell_dists.len(),
                dists == cell_dists@,
                dist == dists[n as int],
                cells@ == old_cells,
                forall|a: int| 0 <= a < cells@.len() ==> #[trigger] cells@[a] < n,
                forall|a: int| pos <= a < cells@.len() ==> before(dists, n as int, cells@[a] as int),
            decreases pos,
        {
            pos = pos - 1;
        }
        proof {
            assert forall|a: int| 0 <= a < pos implies before(
                dists,
                old_cells[a] as int,
                n as int,
            ) by {
                if a < pos - 1 {
                    assert(before(dists, old_cells[a] as int, old_cells[pos - 1] as int));
                }
            }
        }
        if pos < m {
            cells.insert(pos, n);
            let ghost grown = cells@;
            if cells.len() > m {
                let _ = cells.pop();
            }
            proof {
                assert(cells@[pos as int] == n);
                assert forall|j: usize| j < n + 1 && cells@.len() > 0 implies #[trigger] cells@.contains(
                    j,
                ) || before(dists, cells@[cells@.len() - 1] as int, j as int) by {
                    let last = cells@[cells@.len() - 1] as int;
                    if j == n {
                        assert(cells@[pos as int] == j);
                    } else if old_cells.contains(j) {
                        let a = choose|a: int| 0 <= a < old_cells.len() && old_cells[a] == j;
                        if a < pos {
                            assert(cells@[a] == j);
                        } else {
                            assert(grown[a + 1] == j);
                            if a + 1 < cells@.len() {
                                assert(cells@[a + 1] == j);
                            } else {
                                // the cell that fell off the end comes after the new last one
                                assert(grown[a] == cells@[cells@.len() - 1]);
                                if a == pos {
                                    assert(before(dists, n as int, old_cells[a] as int));
                                } else {
                                    assert(before(
                                        dists,
                                        old_cells[a - 1] as int,
                                        old_cells[a] as int,
                                    ));
                                }
                            }
                        }
                    } else {
                        // the cells were full before, and stay so: one fell off the end
                        assert(old_cells.len() == m);
                        let old_last = old_cells[old_cells.len() - 1] as int;
                        assert(before(dists, old_last, j as int));
                        assert(grown[grown.len() - 1] == old_last);
                        assert(last == grown[grown.len() - 2]);
                        if pos == grown.len() - 2 {
                            assert(before(dists, n as int, old_last));
                        } else {
                            assert(last == old_cells[old_cells.len() - 2]);
                            assert(before(dists, old_cells[old_cells.len() - 2] as int, old_last));
                        }
                    }
                }
                if cells@.len() < m {
                    assert forall|j: usize| j < n + 1 implies #[trigger] cells@.contains(j) by {
                        if j < n {
                            assert(old_cells.contains(j));
                            let a = choose|a: int| 0 <= a < old_cells.len() && old_cells[a] == j;
                            if a < pos {
                                assert(cells@[a] == j);
                            } else {
                                assert(cells@[a + 1] == j);
                            }
                        }
                    }
                }
                assert forall|a: int, b: int| 0 <= a < b < cells@.len() implies before(
                    dists,
                    cells@[a] as int,
                    cells@[b] as int,
                ) by {
                    assert(cells@[a] == grown[a] && cells@[b] == grown[b]);
                    if a < pos && b > pos {
                        assert(before(dists, old_cells[a] as int, old_cells[b - 1] as int));
                    } else if a > pos {
                        assert(before(dists, old_cells[a - 1] as int, old_cells[b - 1] as int));
                    } else if b < pos {
                        assert(before(dists, old_cells[a] as int, old_cells[b] as int));
                    }
                }
            }
        } else {
            proof {
                assert forall|j: usize| j < n + 1 && cells@.len() > 0 implies #[trigger] cells@.contains(
                    j,
                ) || before(dists, cells@[cells@.len() - 1] as int, j as int) by {
                    if j < n && !cells@.contains(j) {
                        assert(before(dists, cells@[cells@.len() - 1] as int, j as int));
                    }
                }
            }
        }
        n = n + 1;
    }
    cells
}

/// The cells by which a cell is smoothed: after the first cell in
/// ascending order of distance, which is taken to be the cell itself, the
/// next `k` cells, or all that are left where there are fewer.
pub fn neighbors(cell_dists: &Vec<u32>, k: usize) -> (cells: Vec<usize>)
    ensures
        cell_dists@.len() == 0 ==> cells@.len() == 0,
        cell_dists@.len() > 0 ==> cells@.len() == least(k as int, cell_dists@.len() - 1),
        exists|first: Seq<usize>|
            #![auto]
            first.len() <= 1 && (first.len() == 1 <==> cell_dists@.len() > 0) && is_nearest(
                first + cells@,
                cell_dists@,
                cell_dists@.len() as int,
            ),
{
    let m = if k < cell_dists.len() {
        k + 1
    } else {
        cell_dists.len()
    };
    let mut cells = nearest(cell_dists, m);
    let ghost all = cells@;
    if cells.len() > 0 {
        let _ = cells.remove(0);
        assert(all =~= seq![all[0]] + cells@);
    } else {
        assert(all =~= Seq::<usize>::empty() + cells@);
    }
    cells
}

/// What a worker sends to the one place that puts the distances together.
#[derive(Debug, Clone, Copy, PartialEq, Eq, Structural)]
pub enum Message {
    /// The distance from the cell `row` to the cell `column`.
    Distance { row: usize, column: usize, dist: u32 },
    /// All distances from one cell have been sent.
    RowDone,
}

/// The distances between all cells while they come in, and the number
/// of cells whose distances have all come in.
pub struct DistanceMatrix {
    pub dists: Vec<Vec<u32>>,
    pub processed: usize,
}

/// What has come in so far: the distance for every pair of cells, and the
/// number of cells whose distances have all come in.
pub struct Progress {
    pub dists: Seq<Seq<u32>>,
    pub processed: nat,
}

/// Whether a message is a distance between two of `size` cells.
pub open spec fn in_range(message: Message, size: int) -> bool {
    match message {
        Message::Distance { row, column, dist } => row < size && column < size,
        Message::RowDone => false,
    }
}

/// What is there after a message has been taken in: a distance between
/// two cells that are there stands in its place, the end of a row is
/// counted as far as the machine counts, and any other message changes
/// nothing.
pub open spec fn step(p: Progress, message: Message) -> Progress {
    match message {
        Message::Distance { row, column, dist } => if in_range(message, p.dists.len() as int) {
            Progress {
                dists: p.dists.update(row as int, p.dists[row as int].update(column as int, dist)),
                processed: p.processed,
            }
        } else {
            p
        },
        Message::RowDone => Progress {
            dists: p.dists,
            processed: if p.processed < usize::MAX {
                p.processed + 1
            } else {
                p.processed
            },
        },
    }
}

/// Why a message is turned down: it is a distance between cells of which
/// one is not there, the first such.
pub open spec fn turned_down(message: Message, size: int) -> Option<FormatError> {
    match message {
        Message::Distance { row, column, dist } => if row >= size {
            Some(FormatError::CellRange { cell: row, limit: size as usize })
        } else if column >= size {
            Some(FormatError::CellRange { cell: column, limit: size as usize })
        } else {
            None
        },
        Message::RowDone => None,
    }
}

/// What is there after the first `n` of `messages` have been taken in, one
/// after the other.
pub open spec fn run(start: Progress, messages: Seq<Message>, n: int) -> Progress
    decreases n,
{
    if n <= 0 {
        start
    } else {
        step(run(start, messages, n - 1), messages[n - 1])
    }
}

/// Whether there is a distance for every pair of cells.
pub open spec fn square(dists: Seq<Seq<u32>>) -> bool {
    forall|i: int| 0 <= i < dists.len() ==> (#[trigger] dists[i]).len() == dists.len()
}

/// The last of the first `n` messages that is the distance from the cell
/// `i` to the cell `j`, where there is one.
pub open spec fn last_sent(messages: Seq<Message>, i: int, j: int, n: int) -> Option<int>
    decreases n,
{
    if n <= 0 {
        None
    } else {
        match messages[n - 1] {
            Message::Distance { row, column, dist } => if row == i && column == j {
                Some(n - 1)
            } else {
                last_sent(messages, i, j, n - 1)
            },
            Message::RowDone => last_sent(messages, i, j, n - 1),
        }
    }
}

/// In whatever order the messages come in, the distance that stands for
/// a pair of cells in the end is the one that was sent last for this
/// pair, and the one from the start where none was sent.
pub proof fn lemma_last_sent_stands(
    start: Progress,
    messages: Seq<Message>,
    n: int,
    i: int,
    j: int,
)
    requires
        square(start.dists),
        0 <= i < start.dists.len(),
        0 <= j < start.dists.len(),
        0 <= n <= messages.len(),
    ensures
        square(run(start, messages, n).dists),
        run(start, messages, n).dists.len() == start.dists.len(),
        run(start, messages, n).dists[i][j] == match last_sent(messages, i, j, n) {
            Some(at) => messages[at]->dist,
            None => start.dists[i][j],
        },
    decreases n,
{
    if n > 0 {
        lemma_last_sent_stands(start, messages, n - 1, i, j);
        let before = run(start, messages, n - 1);
        assert forall|x: int| 0 <= x < before.dists.len() implies (#[trigger] step(
            before,
            messages[n - 1],
        ).dists[x]).len() == before.dists.len() by {
            assert(before.dists[x].len() == before.dists.len());
        }
    }
}

/// Where every pair of cells has its distance sent, in whatever order
/// and between whatever other messages, the matrix in the end holds for
/// each pair the distance that was sent last for it.
pub proof fn lemma_any_order(
    size: int,
    messages: Seq<Message>,
    wanted: spec_fn(int, int) -> u32,
    start: Progress,
)
    requires
        square(start.dists),
        start.dists.len() == size,
        forall|i: int, j: int|
            0 <= i < size && 0 <= j < size ==> (#[trigger] last_sent(
                messages,
                i,
                j,
                messages.len() as int,
            )) is Some && messages[last_sent(messages, i, j, messages.len() as int)->0]->dist
                == wanted(i, j),
    ensures
        forall|i: int, j: int|
            0 <= i < size && 0 <= j < size ==> #[trigger] run(
                start,
                messages,
                messages.len() as int,
            ).dists[i][j] == wanted(i, j),
{
    assert forall|i: int, j: int| 0 <= i < size && 0 <= j < size implies #[trigger] run(
        start,
        messages,
        messages.len() as int,
    ).dists[i][j] == wanted(i, j) by {
        lemma_last_sent_stands(start, messages, messages.len() as int, i, j);
        assert(last_sent(messages, i, j, messages.len() as int) is Some);
    }
}

impl View for DistanceMatrix {
    type V = Progress;

    open spec fn view(&self) -> Progress {
        Progress {
            dists: Seq::new(self.dists@.len(), |i: int| self.dists@[i]@),
            processed: self.processed as nat,
        }
    }
}

impl DistanceMatrix {
    /// The number of cells.
    pub open spec fn size(&self) -> int {
        self.dists@.len() as int
    }

    /// Whether there is a distance for every pair of cells.
    pub open spec fn wf(&self) -> bool {
        square(self@.dists)
    }

    /// The matrix of `num_cells` cells before any distance has come in:
    /// all distances are zero.
    pub fn new(num_cells: usize) -> (m: Self)
        ensures
            m.wf(),
            m.size() == num_cells,
            m@.processed == 0,
            forall|i: int, j: int|
                0 <= i < num_cells && 0 <= j < num_cells ==> #[trigger] m@.dists[i][j] == 0,
    {
        let mut dists: Vec<Vec<u32>> = Vec::new();
        let mut i: usize = 0;
        while i < num_cells
            invariant
                i <= num_cells,
                dists@.len() == i,
                forall|x: int| 0 <= x < i ==> (#[trigger] dists@[x])@.len() == num_cells,
                forall|x: int, y: int| 0 <= x < i && 0 <= y < num_cells ==> dists@[x]@[y] == 0,
            decreases num_cells - i,
        {
            let mut row: Vec<u32> = Vec::new();
            let mut j: usize = 0;
            while j < num_cells
                invariant
                    j <= num_cells,
                    row@.len() == j,
                    forall|y: int| 0 <= y < j ==> row@[y] == 0,
                decreases num_cells - j,
            {
                row.push(0);
                j = j + 1;
            }
            dists.push(row);
            i = i + 1;
        }
        DistanceMatrix { dists, processed: 0 }
    }

    /// Takes in what a worker sent: a distance is put in its place, and
    /// the end of a row is counted. A distance between cells that are not
    /// there is turned down, and nothing changes.
    pub fn absorb(&mut self, message: Message) -> (r: Result<(), FormatError>)
        requires
            old(self).wf(),
        ensures
            final(self).wf(),
            final(self).size() == old(self).size(),
            final(self)@ == step(old(self)@, message),
            r == match turned_down(message, old(self).size()) {
                Some(e) => Err::<(), FormatError>(e),
                None => Ok(()),
            },
    {
        let size = self.dists.len();
        match message {
            Message::Distance { row, column, dist } => {
                if row >= size {
                    return Err(FormatError::CellRange { cell: row, limit: size });
                }
                if column >= size {
                    return Err(FormatError::CellRange { cell: column, limit: size });
                }
                assert(self@.dists[row as int].len() == size);
                self.dists[row][column] = dist;
                proof {
                    let after = step(old(self)@, message);
                    assert(self@.dists.len() == after.dists.len());
                    assert forall|x: int| 0 <= x < size implies #[trigger] self@.dists[x]
                        =~= after.dists[x] by {
                        assert(old(self)@.dists[x] == old(self).dists@[x]@);
                    }
                    assert(self@.dists =~= after.dists);
                }
                Ok(())
            },
            Message::RowDone => {
                if self.processed < usize::MAX {
                    self.processed = self.processed + 1;
                }
                assert(self@.dists =~= old(self)@.dists);
                Ok(())
            },
        }
    }

    /// The matrix, once the distances of all cells have come in; where
    /// those of some cell are missing there is no matrix.
    pub fn finish(self) -> (r: Result<Vec<Vec<u32>>, FormatError>)
        ensures
            r == if self.processed == self.size() {
                Ok::<Vec<Vec<u32>>, FormatError>(self.dists)
            } else {
                Err::<Vec<Vec<u32>>, FormatError>(
                    FormatError::CellCount {
                        expected: self.size() as usize,
                        found: self.processed,
                    },
                )
            },
    {
        if self.processed == self.dists.len() {
            Ok(self.dists)
        } else {
            Err(FormatError::CellCount { expected: self.dists.len(), found: self.processed })
        }
    }
}

} // verus!
