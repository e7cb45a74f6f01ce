//! The cells of a stack whose popped cells are freed and used again.
//!
//! A cell that is freed may come back as another node at the same address. Who reads a cell's
//! link, or exchanges the head on the strength of one, must therefore know that the cell was not
//! freed in between. This file says what each operation does to the cells; how that knowledge is
//! had is the concern of the reclamation schemes.

use vstd::prelude::*;

verus! {

/// What a cell is used for. The number is that of the thread it belongs to.
pub enum CellState {
    /// Not allocated.
    Free,
    /// Allocated and seen by nobody but its thread.
    Private(int),
    /// On the stack.
    Stacked,
    /// Taken off the stack by a thread that still uses it.
    Popped(int),
    /// Given up by its thread, to be freed when nobody can be using it.
    Bagged(int),
}

/// A cell: its link and what it is used for.
pub struct Cell {
    pub next: Option<usize>,
    pub state: CellState,
}

/// The cells, the head, and the addresses on the stack from the top down.
pub struct Heap {
    pub head: Option<usize>,
    pub chain: Seq<usize>,
    pub cells: Seq<Cell>,
}

impl Heap {
    /// The address on top of what is left of the chain from `k` on.
    pub open spec fn link(self, k: int) -> Option<usize> {
        if k < self.chain.len() {
            Some(self.chain[k])
        } else {
            None
        }
    }

    /// What holds of the cells at any moment.
    pub open spec fn inv(self) -> bool {
        &&& self.head == self.link(0)
        &&& self.chain.no_duplicates()
        &&& forall|k: int|
            0 <= k < self.chain.len() ==> {
                &&& (#[trigger] self.chain[k]) < self.cells.len()
                &&& self.cells[self.chain[k] as int].state is Stacked
                &&& self.cells[self.chain[k] as int].next == self.link(k + 1)
            }
        &&& forall|a: usize|
            a < self.cells.len() && (#[trigger] self.cells[a as int]).state is Stacked
                ==> self.chain.contains(a)
    }

    /// Whether the cell at `a` has been on the stack and has not been freed since.
    pub open spec fn held(self, a: usize) -> bool {
        &&& a < self.cells.len()
        &&& match self.cells[a as int].state {
            CellState::Stacked => true,
            CellState::Popped(_) => true,
            CellState::Bagged(_) => true,
            _ => false,
        }
    }

    /// The cells with another state for the one at `a`.
    pub open spec fn with_state(self, a: usize, state: CellState) -> Heap {
        Heap {
            cells: self.cells.update(a as int, Cell { state, ..self.cells[a as int] }),
            ..self
        }
    }

    /// The cells after the private cell at `a` got a link.
    pub open spec fn with_next(self, a: usize, next: Option<usize>) -> Heap {
        Heap {
            cells: self.cells.update(a as int, Cell { next, ..self.cells[a as int] }),
            ..self
        }
    }

    /// The cells after the private cell at `a` was put on the stack.
    pub open spec fn pushed(self, a: usize) -> Heap {
        Heap {
            head: Some(a),
            chain: seq![a] + self.chain,
            cells: self.with_state(a, CellState::Stacked).cells,
        }
    }

    /// The cells after thread `i` took the cell at `a` off the stack and set the head to `next`.
    pub open spec fn popped(self, a: usize, next: Option<usize>, i: int) -> Heap {
        Heap {
            head: next,
            chain: self.chain.drop_first(),
            cells: self.with_state(a, CellState::Popped(i)).cells,
        }
    }
}

/// Changing a cell that is not on the stack, to something that is not either, keeps the stack.
pub proof fn lemma_off_stack(h: Heap, a: usize, c: Cell)
    requires
        h.inv(),
        a < h.cells.len(),
        !(h.cells[a as int].state is Stacked),
        !(c.state is Stacked),
    ensures
        (Heap { cells: h.cells.update(a as int, c), ..h }).inv(),
{
    let h2 = Heap { cells: h.cells.update(a as int, c), ..h };
    assert forall|k: int| 0 <= k < h2.chain.len() implies {
        &&& (#[trigger] h2.chain[k]) < h2.cells.len()
        &&& h2.cells[h2.chain[k] as int].state is Stacked
        &&& h2.cells[h2.chain[k] as int].next == h2.link(k + 1)
    } by {
        assert(h.chain[k] != a);
    }
    assert forall|b: usize|
        b < h2.cells.len() && (#[trigger] h2.cells[b as int]).state is Stacked implies h2.chain.contains(
        b,
    ) by {
        assert(h.cells[b as int].state is Stacked);
    }
}

/// Putting a private cell that links to the head on the stack makes it the new top.
pub proof fn lemma_pushed(h: Heap, a: usize)
    requires
        h.inv(),
        a < h.cells.len(),
        !(h.cells[a as int].state is Stacked),
        h.cells[a as int].next == h.head,
    ensures
        h.pushed(a).inv(),
{
    let h2 = h.pushed(a);
    assert(!h.chain.contains(a)) by {
        if h.chain.contains(a) {
            let k = choose|k: int| 0 <= k < h.chain.len() && h.chain[k] == a;
            assert(h.cells[h.chain[k] as int].state is Stacked);
        }
    }
    assert forall|k: int| 0 <= k < h2.chain.len() implies {
        &&& (#[trigger] h2.chain[k]) < h2.cells.len()
        &&& h2.cells[h2.chain[k] as int].state is Stacked
        &&& h2.cells[h2.chain[k] as int].next == h2.link(k + 1)
    } by {
        if k > 0 {
            assert(h2.chain[k] == h.chain[k - 1]);
        }
        if k < h.chain.len() {
            assert(h2.chain[k + 1] == h.chain[k]);
        }
    }
    assert forall|x: int, y: int| 0 <= x < h2.chain.len() && 0 <= y < h2.chain.len() && x != y implies h2.chain[x]
        != h2.chain[y] by {
        if x > 0 {
            assert(h2.chain[x] == h.chain[x - 1]);
        }
        if y > 0 {
            assert(h2.chain[y] == h.chain[y - 1]);
        }
    }
    assert forall|b: usize|
        b < h2.cells.len() && (#[trigger] h2.cells[b as int]).state is Stacked implies h2.chain.contains(
        b,
    ) by {
        if b == a {
            assert(h2.chain[0] == a);
        } else {
            assert(h.cells[b as int].state is Stacked);
            let k = choose|k: int| 0 <= k < h.chain.len() && h.chain[k] == b;
            assert(h2.chain[k + 1] == b);
        }
    }
}

/// Setting the head from a cell to that cell's own link takes the top off the stack.
pub proof fn lemma_popped(h: Heap, a: usize, next: Option<usize>, i: int)
    requires
        h.inv(),
        h.head == Some(a),
        h.cells[a as int].next == next,
    ensures
        h.chain.len() > 0,
        h.chain[0] == a,
        h.popped(a, next, i).inv(),
{
    let h2 = h.popped(a, next, i);
    assert(h.chain[0] == a);
    assert forall|k: int| 0 <= k < h2.chain.len() implies {
        &&& (#[trigger] h2.chain[k]) < h2.cells.len()
        &&& h2.cells[h2.chain[k] as int].state is Stacked
        &&& h2.cells[h2.chain[k] as int].next == h2.link(k + 1)
    } by {
        assert(h2.chain[k] == h.chain[k + 1]);
        assert(h.chain[k + 1] != h.chain[0]);
    }
    assert forall|b: usize|
        b < h2.cells.len() && (#[trigger] h2.cells[b as int]).state is Stacked implies h2.chain.contains(
        b,
    ) by {
        assert(h.cells[b as int].state is Stacked);
        let k = choose|k: int| 0 <= k < h.chain.len() && h.chain[k] == b;
        assert(h2.chain[k - 1] == b);
    }
}

} // verus!
