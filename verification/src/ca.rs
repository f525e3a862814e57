use vstd::prelude::*;
use itertools::Itertools;
use std::collections::VecDeque;

verus! {

/// Index of the left neighbour of cell `j` in a ring of `m` cells.
pub open spec fn left_of(m: int, j: int) -> int {
    if j == 0 { m - 1 } else { j - 1 }
}

/// Index of the right neighbour of cell `j` in a ring of `m` cells.
pub open spec fn right_of(m: int, j: int) -> int {
    if j + 1 >= m { 0 } else { j + 1 }
}

/// Sum of the states of cell `j` and of its two neighbours, the row wrapping
/// around at both ends.
pub open spec fn neighbourhood_sum(row: Seq<u8>, j: int) -> int {
    row[left_of(row.len() as int, j)] + row[j] + row[right_of(row.len() as int, j)]
}

/// The row that follows `row`: each cell takes the rule for the sum of its
/// neighbourhood.
pub open spec fn next_row(rule: Seq<u8>, row: Seq<u8>) -> Seq<u8> {
    Seq::new(row.len(), |j: int| rule[neighbourhood_sum(row, j)])
}

/// Every neighbourhood of `row` sums to a position of the rule table, so
/// that the row can be advanced.
pub open spec fn step_fits(rule: Seq<u8>, row: Seq<u8>) -> bool {
    forall|j: int| 0 <= j < row.len() ==> #[trigger] neighbourhood_sum(row, j) < rule.len()
}

/// A history of rows of `size` cells under `rule` can advance one
/// generation: it has at least two rows, the rows have cells, and the newest
/// row's neighbourhoods fit the rule table.
pub open spec fn ready_for_step(rule: Seq<u8>, rows: Seq<Seq<u8>>, size: nat) -> bool {
    &&& rows.len() >= 2
    &&& size >= 1
    &&& step_fits(rule, rows.last())
}

/// Every state in `row` can take part in a neighbourhood whose sum indexes
/// into a rule table of length `rule_len`.
pub open spec fn row_fits(rule_len: int, row: Seq<u8>) -> bool {
    forall|j: int| 0 <= j < row.len() ==> 3 * (#[trigger] row[j]) < rule_len
}

/// The triples that `circular_tuple_windows` yields for `row`: one for each
/// cell, made of that cell and the two that follow it, wrapping around.
pub open spec fn circular_triples_of(row: Seq<u8>) -> Seq<(u8, u8, u8)> {
    Seq::new(
        row.len(),
        |i: int|
            (
                row[i % (row.len() as int)],
                row[(i + 1) % (row.len() as int)],
                row[(i + 2) % (row.len() as int)],
            ),
    )
}

/// Calls `Itertools::circular_tuple_windows` on the cells of `row`, taking
/// triples. Its documentation and source show one window for each element,
/// the `i`th made of the elements at `i`, `i + 1` and `i + 2`, counted around
/// the row; that is what the contract claims.
#[verifier::external_body]
fn circular_triples(row: &Vec<u8>) -> (res: Vec<(u8, u8, u8)>)
    ensures
        res@ == circular_triples_of(row@),
{
    row.iter().copied().circular_tuple_windows::<(u8, u8, u8)>().collect()
}

proof fn lemma_wrap(x: int, m: int)
    requires
        0 < m,
        0 <= x < 3 * m,
    ensures
        x % m == if x < m { x } else if x < 2 * m { x - m } else { x - 2 * m },
{
    if x < m {
        vstd::arithmetic::div_mod::lemma_fundamental_div_mod_converse_mod(x, m, 0, x);
    } else if x < 2 * m {
        vstd::arithmetic::div_mod::lemma_fundamental_div_mod_converse_mod(x, m, 1, x - m);
    } else {
        vstd::arithmetic::div_mod::lemma_fundamental_div_mod_converse_mod(x, m, 2, x - 2 * m);
    }
}

/// The row that follows `row` under `rule_table`.
fn apply_rule(rule_table: &Vec<u8>, row: &Vec<u8>) -> (res: Vec<u8>)
    requires
        row@.len() >= 1,
        step_fits(rule_table@, row@),
    ensures
        res@ == next_row(rule_table@, row@),
{
    let windows = circular_triples(row);
    let ghost m = row@.len() as int;
    let mut out: Vec<u8> = Vec::new();
    let mut i: usize = 0;
    while i < windows.len()
        invariant
            windows@ == circular_triples_of(row@),
            m == row@.len(),
            m >= 1,
            step_fits(rule_table@, row@),
            i <= windows@.len(),
            out@.len() == i,
            forall|k: int|
                0 <= k < i ==> #[trigger] out@[k] == rule_table@[row@[k % m] + row@[(k + 1) % m]
                    + row@[(k + 2) % m]],
        decreases windows@.len() - i,
    {
        let (x, y, z) = windows[i];
        proof {
            lemma_wrap(i as int, m);
            lemma_wrap(i + 1, m);
            lemma_wrap(i + 2, m);
            if m == 1 {
                lemma_wrap(0, 1);
            }
            let j = if i + 1 < m { i + 1 } else { 0 };
            assert(x + y + z == neighbourhood_sum(row@, j));
        }
        let s: usize = x as usize + y as usize + z as usize;
        out.push(rule_table[s]);
        i = i + 1;
    }
    let ghost before = out@;
    let last = out.pop().unwrap();
    out.insert(0, last);
    assert forall|j: int| 0 <= j < m implies #[trigger] out@[j] == rule_table@[neighbourhood_sum(
        row@,
        j,
    )] by {
        if j == 0 {
            lemma_wrap(m - 1, m);
            lemma_wrap(m, m);
            lemma_wrap(m + 1, m);
            if m == 1 {
                lemma_wrap(0, 1);
            } else {
                lemma_wrap(1, m);
            }
            assert(out@[0] == before[m - 1]);
        } else {
            lemma_wrap(j - 1, m);
            lemma_wrap(j, m);
            lemma_wrap(j + 1, m);
            assert(out@[j] == before[j - 1]);
        }
    }
    assert(out@ =~= next_row(rule_table@, row@));
    out
}


/// One generation of the whole history: the oldest row leaves, and the row
/// that follows the newest one is appended.
pub open spec fn next_universe(rule: Seq<u8>, rows: Seq<Seq<u8>>) -> Seq<Seq<u8>> {
    rows.drop_first().push(next_row(rule, rows.last()))
}

/// The row reached from `row` after `t` generations.
pub open spec fn evolve_row(rule: Seq<u8>, row: Seq<u8>, t: nat) -> Seq<u8>
    decreases t,
{
    if t == 0 {
        row
    } else {
        next_row(rule, evolve_row(rule, row, (t - 1) as nat))
    }
}

/// The history reached from `rows` after `t` generations.
pub open spec fn evolve_universe(rule: Seq<u8>, rows: Seq<Seq<u8>>, t: nat) -> Seq<Seq<u8>>
    decreases t,
{
    if t == 0 {
        rows
    } else {
        next_universe(rule, evolve_universe(rule, rows, (t - 1) as nat))
    }
}

/// The colour entries of one row: each cell gives its state six times, one
/// for each vertex of the two triangles that draw it.
pub open spec fn color_block(row: Seq<u8>) -> Seq<u32> {
    Seq::new(row.len() * 6, |i: int| row[i / 6] as u32)
}

/// The colour entries of a whole history, oldest row first.
pub open spec fn colors(rows: Seq<Seq<u8>>) -> Seq<u32>
    decreases rows.len(),
{
    if rows.len() == 0 {
        Seq::empty()
    } else {
        color_block(rows[0]) + colors(rows.drop_first())
    }
}

/// The colour entries after scrolling by one row: those of the oldest row
/// (the first `size * 6`) leave and those of the newest row are appended.
pub open spec fn scroll_colors(entries: Seq<u32>, rows: Seq<Seq<u8>>, size: nat) -> Seq<u32> {
    entries.skip(size * 6 as int) + color_block(rows.last())
}

/// Grid coordinate of corner `k` of the cell in column `col` of row `step`:
/// even `k` give the horizontal coordinate and odd `k` the vertical one, the
/// twelve values making the two triangles of the cell.
pub open spec fn corner_coord(k: int, col: int, step: int) -> int {
    if k == 0 || k == 2 || k == 6 {
        col
    } else if k == 4 || k == 8 || k == 10 {
        col + 1
    } else if k == 3 || k == 5 || k == 9 {
        step
    } else if k == 1 || k == 7 || k == 11 {
        step + 1
    } else {
        0
    }
}

proof fn lemma_colors_push(rows: Seq<Seq<u8>>, row: Seq<u8>)
    ensures
        colors(rows.push(row)) == colors(rows) + color_block(row),
    decreases rows.len(),
{
    if rows.len() == 0 {
        assert(rows.push(row).drop_first() =~= Seq::<Seq<u8>>::empty());
        assert(colors(rows.push(row).drop_first()) == Seq::<u32>::empty());
        assert(rows.push(row)[0] == row);
        assert(colors(rows.push(row)) =~= colors(rows) + color_block(row));
    } else {
        lemma_colors_push(rows.drop_first(), row);
        assert(rows.push(row).drop_first() =~= rows.drop_first().push(row));
        assert(rows.push(row)[0] == rows[0]);
        assert(colors(rows.push(row)) == color_block(rows[0]) + (colors(rows.drop_first())
            + color_block(row)));
        assert(colors(rows.push(row)) =~= colors(rows) + color_block(row));
    }
}

proof fn lemma_colors_len(rows: Seq<Seq<u8>>, size: nat)
    requires
        forall|r: int| 0 <= r < rows.len() ==> (#[trigger] rows[r]).len() == size,
    ensures
        colors(rows).len() == rows.len() * size * 6,
    decreases rows.len(),
{
    if rows.len() > 0 {
        lemma_colors_len(rows.drop_first(), size);
        assert(colors(rows).len() == size * 6 + (rows.len() - 1) * size * 6);
        assert(size * 6 + (rows.len() - 1) * size * 6 == rows.len() * size * 6)
            by (nonlinear_arith);
    }
}

proof fn lemma_block_step(row: Seq<u8>, c: int)
    requires
        0 <= c < row.len(),
    ensures
        color_block(row.take(c + 1)) == color_block(row.take(c)) + seq![row[c] as u32, row[c] as u32, row[c] as u32, row[c] as u32, row[c] as u32, row[c] as u32],
{
    let lhs = color_block(row.take(c + 1));
    let rhs = color_block(row.take(c)) + seq![row[c] as u32, row[c] as u32, row[c] as u32, row[c] as u32, row[c] as u32, row[c] as u32];
    assert forall|i: int| 0 <= i < lhs.len() implies lhs[i] == rhs[i] by {
        if i < c * 6 {
            assert(i / 6 < c);
        } else {
            assert(i / 6 == c);
        }
    }
    assert(lhs =~= rhs);
}

/// Appends the colour entries of `row` to `out`.
fn push_color_block(out: &mut Vec<u32>, row: &Vec<u8>)
    requires
        old(out)@.len() + row@.len() * 6 <= usize::MAX,
    ensures
        final(out)@ == old(out)@ + color_block(row@),
{
    let ghost start = out@;
    let mut c: usize = 0;
    while c < row.len()
        invariant
            c <= row@.len(),
            start.len() + row@.len() * 6 <= usize::MAX,
            out@ == start + color_block(row@.take(c as int)),
        decreases row@.len() - c,
    {
        let v = row[c] as u32;
        proof {
            lemma_block_step(row@, c as int);
        }
        out.push(v);
        out.push(v);
        out.push(v);
        out.push(v);
        out.push(v);
        out.push(v);
        c = c + 1;
        assert(out@ =~= start + color_block(row@.take(c as int)));
    }
    assert(row@.take(row@.len() as int) =~= row@);
}

/// Writes `value` at `index` through `VecDeque`'s `IndexMut`, which std
/// documents to give the element at that position; the `requires` keeps the
/// index in bounds, where std would panic.
#[verifier::external_body]
fn deque_set(deque: &mut VecDeque<u32>, index: usize, value: u32)
    requires
        index < old(deque)@.len(),
    ensures
        final(deque)@ == old(deque)@.update(index as int, value),
{
    deque[index] = value;
}

/// Calls `VecDeque::rotate_left`, which std documents to move the item at
/// `n` to the front, the first `n` items going to the back in their order;
/// it panics when `n` exceeds the length, which the `requires` rules out.
#[verifier::external_body]
fn deque_rotate_left(deque: &mut VecDeque<u32>, n: usize)
    requires
        n <= old(deque)@.len(),
    ensures
        final(deque)@ == old(deque)@.skip(n as int) + old(deque)@.take(n as int),
{
    deque.rotate_left(n);
}

/// Calls `VecDeque::make_contiguous`, which std documents to rearrange the
/// storage into one contiguous slice without changing the order of the
/// elements, and to return that slice: the contract states both.
#[verifier::external_body]
fn deque_make_contiguous(deque: &mut VecDeque<u32>) -> (slice: &[u32])
    ensures
        final(deque)@ == old(deque)@,
        slice@ == old(deque)@,
{
    deque.make_contiguous()
}

/// A one-dimensional cellular automaton together with the history of its
/// last `num_steps` generations and the colour entries that draw them.
pub struct CA {
    size: usize,
    pub num_steps: usize,
    rule_table: Vec<u8>,
    universe: Vec<Vec<u8>>,
    cell_types: VecDeque<u32>,
}

impl CA {
    /// Number of generations kept in the history (the field `num_steps`).
    pub closed spec fn steps(&self) -> nat {
        self.num_steps as nat
    }

    /// Number of cells in each row.
    pub closed spec fn cells_per_row(&self) -> nat {
        self.size as nat
    }

    /// The rule table: entry `s` is the state of a cell whose neighbourhood
    /// sums to `s`.
    pub closed spec fn rules(&self) -> Seq<u8> {
        self.rule_table@
    }

    /// The rows of the history, oldest first.
    pub closed spec fn rows(&self) -> Seq<Seq<u8>> {
        Seq::new(self.universe@.len(), |r: int| self.universe@[r]@)
    }

    /// The colour entries handed to the renderer, six for each cell.
    pub closed spec fn colors_shown(&self) -> Seq<u32> {
        self.cell_types@
    }

    /// Well-formedness: `num_steps` rows of `size` cells, and colour entries
    /// for each of them.
    pub open spec fn wf(&self) -> bool {
        &&& self.steps() >= 1
        &&& self.rows().len() == self.steps()
        &&& forall|r: int|
            0 <= r < self.rows().len() ==> (#[trigger] self.rows()[r]).len()
                == self.cells_per_row()
        &&& self.colors_shown().len() == self.steps() * self.cells_per_row() * 6
    }

    /// The automaton can advance one generation: the history has room for a
    /// step, the rows have cells, and every neighbourhood of the newest row
    /// sums to a position of the rule table.
    pub open spec fn step_ready(&self) -> bool {
        ready_for_step(self.rules(), self.rows(), self.cells_per_row())
    }

    /// The history a new automaton starts from: `num_steps - 1` rows of dead
    /// cells, then the initial row.
    pub open spec fn initial_rows(size: nat, num_steps: nat, init: Seq<u8>) -> Seq<Seq<u8>> {
        Seq::new(
            num_steps,
            |r: int|
                if r + 1 == num_steps {
                    init
                } else {
                    Seq::new(size, |c: int| 0u8)
                },
        )
    }

    /// What `new` needs of its arguments.
    pub open spec fn parts_fit(
        size: usize,
        num_steps: usize,
        rule_table: Seq<u8>,
        init_cells: Seq<u8>,
    ) -> bool {
        &&& num_steps >= 1
        &&& init_cells.len() == size
        &&& size * num_steps * 6 <= usize::MAX
    }

    fn gen_init_universe(size: usize, num_steps: usize, init_cells: Vec<u8>) -> (u: Vec<Vec<u8>>)
        requires
            num_steps >= 1,
            init_cells@.len() == size,
        ensures
            u@.len() == num_steps,
            forall|r: int|
                0 <= r < num_steps ==> (#[trigger] u@[r])@ == Self::initial_rows(
                    size as nat,
                    num_steps as nat,
                    init_cells@,
                )[r],
    {
        let mut u: Vec<Vec<u8>> = Vec::new();
        let mut r: usize = 0;
        while r + 1 < num_steps
            invariant
                r + 1 <= num_steps,
                u@.len() == r,
                forall|q: int| 0 <= q < r ==> (#[trigger] u@[q])@ == Seq::new(size as nat, |c: int| 0u8),
            decreases num_steps - r,
        {
            let row: Vec<u8> = vec![0u8; size];
            assert(row@ =~= Seq::new(size as nat, |c: int| 0u8));
            u.push(row);
            r = r + 1;
        }
        u.push(init_cells);
        u
    }

    /// Says whether `new` accepts these parts.
    pub fn can_build(size: usize, num_steps: usize, rule_table: &Vec<u8>, init_cells: &Vec<u8>) -> (ok: bool)
        ensures
            ok == Self::parts_fit(size, num_steps, rule_table@, init_cells@),
    {
        if num_steps < 1 || init_cells.len() != size {
            return false;
        }
        match size.checked_mul(num_steps) {
            Some(a) => match a.checked_mul(6) {
                Some(_) => true,
                None => false,
            },
            None => false,
        }
    }

    /// A new automaton with the given rule table, whose newest row is
    /// `init_cells` and whose older rows are dead; all colour entries are 0.
    pub fn new(size: usize, num_steps: usize, rule_table: Vec<u8>, init_cells: Vec<u8>) -> (ca: CA)
        requires
            Self::parts_fit(size, num_steps, rule_table@, init_cells@),
        ensures
            ca.wf(),
            ca.steps() == num_steps,
            ca.cells_per_row() == size,
            ca.rules() == rule_table@,
            ca.rows() == Self::initial_rows(size as nat, num_steps as nat, init_cells@),
            ca.colors_shown() == Seq::new((size * num_steps * 6) as nat, |i: int| 0u32),
    {
        let ghost init = init_cells@;
        let ghost rules = rule_table@;
        proof {
            assert(size * num_steps <= size * num_steps * 6) by (nonlinear_arith);
        }
        let len: usize = size * num_steps * 6;
        let mut cell_types: VecDeque<u32> = VecDeque::with_capacity(len);
        let mut i: usize = 0;
        while i < len
            invariant
                i <= len,
                cell_types@ == Seq::new(i as nat, |k: int| 0u32),
            decreases len - i,
        {
            cell_types.push_back(0);
            i = i + 1;
            assert(cell_types@ =~= Seq::new(i as nat, |k: int| 0u32));
        }
        let universe = Self::gen_init_universe(size, num_steps, init_cells);
        let ca = CA { size, num_steps, rule_table, universe, cell_types };
        assert(ca.rows() =~= Self::initial_rows(size as nat, num_steps as nat, init));
        assert(size * num_steps * 6 == num_steps * size * 6) by (nonlinear_arith);
        ca
    }
}

impl CA {
    /// Advances the automaton one generation: the oldest row is dropped and
    /// the row that follows the newest one is appended.
    pub fn next_generation(&mut self)
        requires
            old(self).wf(),
            old(self).step_ready(),
        ensures
            final(self).wf(),
            final(self).rows() == next_universe(old(self).rules(), old(self).rows()),
            forall|r: int|
                0 <= r < old(self).steps() - 1 ==> #[trigger] final(self).rows()[r] == old(
                    self,
                ).rows()[r + 1],
            forall|j: int|
                0 <= j < old(self).cells_per_row() ==> #[trigger] final(self).rows().last()[j]
                    == old(self).rules()[old(self).rows().last()[(j + old(self).cells_per_row()
                    - 1) % (old(self).cells_per_row() as int)] + old(self).rows().last()[j] + old(
                    self,
                ).rows().last()[(j + 1) % (old(self).cells_per_row() as int)]],
            final(self).rules() == old(self).rules(),
            final(self).steps() == old(self).steps(),
            final(self).cells_per_row() == old(self).cells_per_row(),
            final(self).colors_shown() == old(self).colors_shown(),
    {
        proof {
            law_step_shifts_history(self.rules(), self.rows());
        }
        let ghost old_rows = self.rows();
        let ghost rules = self.rules();
        let last = self.num_steps - 1;
        assert(self.universe@[last as int]@ == old_rows[last as int]);
        let new_state = apply_rule(&self.rule_table, &self.universe[last]);
        self.universe.remove(0);
        self.universe.push(new_state);
        assert(self.rows() =~= next_universe(rules, old_rows));
    }

    /// Says whether the automaton can advance one generation.
    pub fn can_step(&self) -> (ok: bool)
        requires
            self.wf(),
        ensures
            ok == self.step_ready(),
            ok == ({
                let last = self.rows().last();
                let m = self.cells_per_row() as int;
                &&& self.steps() >= 2
                &&& m >= 1
                &&& forall|j: int|
                    0 <= j < m ==> last[(j + m - 1) % m] + #[trigger] last[j] + last[(j + 1) % m]
                        < self.rules().len()
            }),
    {
        proof {
            law_ready_for_step_exactly(self.rules(), self.rows(), self.cells_per_row());
        }
        if self.num_steps < 2 || self.size == 0 {
            return false;
        }
        let last = self.num_steps - 1;
        assert(self.universe@[last as int]@ == self.rows().last());
        neighbourhoods_fit(&self.rule_table, &self.universe[last])
    }

    /// Runs up to `count` generations, stopping before the first one the
    /// automaton cannot take; returns how many were run.
    pub fn run_generations(&mut self, count: usize) -> (done: usize)
        requires
            old(self).wf(),
        ensures
            final(self).wf(),
            done <= count,
            final(self).rows() == evolve_universe(old(self).rules(), old(self).rows(), done as nat),
            forall|t: nat| t < done ==> #[trigger] ready_for_step(
                old(self).rules(),
                evolve_universe(old(self).rules(), old(self).rows(), t),
                old(self).cells_per_row(),
            ),
            done < count ==> !ready_for_step(
                old(self).rules(),
                evolve_universe(old(self).rules(), old(self).rows(), done as nat),
                old(self).cells_per_row(),
            ),
            final(self).rules() == old(self).rules(),
            final(self).steps() == old(self).steps(),
            final(self).cells_per_row() == old(self).cells_per_row(),
            final(self).colors_shown() == old(self).colors_shown(),
    {
        let ghost start = *self;
        let mut i: usize = 0;
        while i < count
            invariant
                i <= count,
                start == *old(self),
                self.wf(),
                self.rows() == evolve_universe(start.rules(), start.rows(), i as nat),
                forall|t: nat| t < i ==> #[trigger] ready_for_step(
                    start.rules(),
                    evolve_universe(start.rules(), start.rows(), t),
                    start.cells_per_row(),
                ),
                self.rules() == start.rules(),
                self.steps() == start.steps(),
                self.cells_per_row() == start.cells_per_row(),
                self.colors_shown() == start.colors_shown(),
            decreases count - i,
        {
            if !self.can_step() {
                return i;
            }
            self.next_generation();
            i = i + 1;
        }
        i
    }
}

impl CA {
    /// Colour entries of the whole history, oldest row first.
    fn history_colors(&self) -> (buf: Vec<u32>)
        requires
            self.wf(),
        ensures
            buf@ == colors(self.rows()),
    {
        let ghost rows = self.rows();
        let total = self.cell_types.len();
        let mut buf: Vec<u32> = Vec::new();
        let mut r: usize = 0;
        while r < self.universe.len()
            invariant
                self.wf(),
                rows == self.rows(),
                total == self.colors_shown().len(),
                r <= rows.len(),
                buf@ == colors(rows.take(r as int)),
            decreases rows.len() - r,
        {
            proof {
                lemma_colors_len(rows.take(r as int), self.cells_per_row());
                assert((r + 1) * self.cells_per_row() * 6 <= self.steps() * self.cells_per_row() * 6)
                    by (nonlinear_arith)
                    requires
                        r + 1 <= self.steps(),
                ;
                assert(r * self.cells_per_row() * 6 + self.cells_per_row() * 6 == (r + 1)
                    * self.cells_per_row() * 6) by (nonlinear_arith);
                assert(self.universe@[r as int]@ == rows[r as int]);
            }
            push_color_block(&mut buf, &self.universe[r]);
            proof {
                lemma_colors_push(rows.take(r as int), rows[r as int]);
                assert(rows.take(r + 1) =~= rows.take(r as int).push(rows[r as int]));
            }
            r = r + 1;
        }
        assert(rows.take(rows.len() as int) =~= rows);
        buf
    }

    /// Copies `buf` over the first entries of the colour buffer.
    fn overwrite_colors(&mut self, buf: &Vec<u32>)
        requires
            buf@.len() <= old(self).colors_shown().len(),
        ensures
            final(self).colors_shown() == buf@ + old(self).colors_shown().skip(buf@.len() as int),
            final(self).rows() == old(self).rows(),
            final(self).rules() == old(self).rules(),
            final(self).steps() == old(self).steps(),
            final(self).cells_per_row() == old(self).cells_per_row(),
    {
        let ghost start = self.colors_shown();
        let mut i: usize = 0;
        while i < buf.len()
            invariant
                buf@.len() <= start.len(),
                i <= buf@.len(),
                self.colors_shown() == buf@.take(i as int) + start.skip(i as int),
                self.rows() == old(self).rows(),
                self.rules() == old(self).rules(),
                self.steps() == old(self).steps(),
                self.cells_per_row() == old(self).cells_per_row(),
            decreases buf@.len() - i,
        {
            deque_set(&mut self.cell_types, i, buf[i]);
            i = i + 1;
            assert(self.colors_shown() =~= buf@.take(i as int) + start.skip(i as int));
        }
        assert(buf@.take(buf@.len() as int) =~= buf@);
    }

    /// Sets the colour entries to show the whole history, oldest row first,
    /// and returns them as one contiguous slice.
    pub fn update_all_cell_colors(&mut self) -> (entries: &[u32])
        requires
            old(self).wf(),
        ensures
            final(self).wf(),
            final(self).colors_shown() == colors(old(self).rows()),
            entries@ == final(self).colors_shown(),
            final(self).rows() == old(self).rows(),
            final(self).rules() == old(self).rules(),
            final(self).steps() == old(self).steps(),
            final(self).cells_per_row() == old(self).cells_per_row(),
    {
        let buf = self.history_colors();
        proof {
            lemma_colors_len(self.rows(), self.cells_per_row());
        }
        self.overwrite_colors(&buf);
        assert(self.colors_shown() =~= colors(old(self).rows()));
        deque_make_contiguous(&mut self.cell_types)
    }

    /// Scrolls the colour entries by one row: the entries of the oldest row
    /// leave at the front and those of the newest row of the history are
    /// appended; returns the entries as one contiguous slice.
    pub fn update_cell_colors(&mut self) -> (entries: &[u32])
        requires
            old(self).wf(),
        ensures
            final(self).wf(),
            final(self).colors_shown() == scroll_colors(
                old(self).colors_shown(),
                old(self).rows(),
                old(self).cells_per_row(),
            ),
            entries@ == final(self).colors_shown(),
            final(self).rows() == old(self).rows(),
            final(self).rules() == old(self).rules(),
            final(self).steps() == old(self).steps(),
            final(self).cells_per_row() == old(self).cells_per_row(),
    {
        let ghost start = self.colors_shown();
        let ghost newest = self.rows().last();
        proof {
            assert(self.cells_per_row() * 6 <= self.steps() * self.cells_per_row() * 6)
                by (nonlinear_arith)
                requires
                    self.steps() >= 1,
            ;
        }
        proof {
            vstd::std_specs::vecdeque::axiom_spec_len(&self.cell_types);
        }
        let last = self.universe.len() - 1;
        assert(self.universe@[last as int]@ == newest);
        assert(newest.len() == self.cells_per_row());
        let mut block: Vec<u32> = Vec::new();
        push_color_block(&mut block, &self.universe[last]);
        self.overwrite_colors(&block);
        deque_rotate_left(&mut self.cell_types, self.size * 6);
        assert(self.colors_shown() =~= start.skip(old(self).cells_per_row() * 6 as int) + color_block(
            newest,
        ));
        deque_make_contiguous(&mut self.cell_types)
    }
}

/// Position in the vertex buffer of value `k` of the cell in column `col`
/// of the `r`th row drawn (rows are drawn newest generation first).
pub open spec fn vertex_index(size: int, r: int, col: int, k: int) -> int {
    (r * size + col) * 12 + k
}

spec fn vertex_entry(steps: int, size: int, p: int) -> int {
    corner_coord(p % 12, (p / 12) % size, steps - 1 - (p / 12) / size)
}

proof fn lemma_vertex_position(steps: int, size: int, r: int, col: int, k: int)
    requires
        0 <= r < steps,
        0 <= col < size,
        0 <= k < 12,
    ensures
        vertex_entry(steps, size, vertex_index(size, r, col, k)) == corner_coord(k, col, steps - 1 - r),
        0 <= vertex_index(size, r, col, k) < steps * size * 12,
{
    let cell = r * size + col;
    let p = cell * 12 + k;
    vstd::arithmetic::div_mod::lemma_fundamental_div_mod_converse_div(p, 12, cell, k);
    vstd::arithmetic::div_mod::lemma_fundamental_div_mod_converse_mod(p, 12, cell, k);
    vstd::arithmetic::div_mod::lemma_fundamental_div_mod_converse_div(cell, size, r, col);
    vstd::arithmetic::div_mod::lemma_fundamental_div_mod_converse_mod(cell, size, r, col);
    assert(0 <= cell < steps * size) by (nonlinear_arith)
        requires
            cell == r * size + col,
            0 <= r < steps,
            0 <= col < size,
    ;
    assert(0 <= p < steps * size * 12) by (nonlinear_arith)
        requires
            p == cell * 12 + k,
            0 <= cell < steps * size,
            0 <= k < 12,
    ;
}

fn corner(k: usize, col: usize, step: usize) -> (v: usize)
    requires
        col < usize::MAX,
        step < usize::MAX,
    ensures
        v == corner_coord(k as int, col as int, step as int),
{
    if k == 0 || k == 2 || k == 6 {
        col
    } else if k == 4 || k == 8 || k == 10 {
        col + 1
    } else if k == 3 || k == 5 || k == 9 {
        step
    } else if k == 1 || k == 7 || k == 11 {
        step + 1
    } else {
        0
    }
}

impl CA {
    /// Number of vertices drawn: six for each cell of the history (the
    /// product is truncated to `i32` as by `as`).
    pub fn num_verts(&self) -> (n: i32)
        requires
            self.steps() * self.cells_per_row() * 6 <= usize::MAX,
        ensures
            n == (self.steps() * self.cells_per_row() * 6) as i32,
            self.wf() ==> n == self.colors_shown().len() as i32,
    {
        proof {
            assert(self.steps() * self.cells_per_row() <= self.steps() * self.cells_per_row() * 6)
                by (nonlinear_arith);
        }
        (self.num_steps * self.size * 6) as i32
    }

    /// Grid coordinates of the two triangles of every cell, twelve values a
    /// cell, newest row first and left to right within a row. A renderer
    /// scales horizontal values by the cell width and vertical ones by the
    /// cell height.
    pub fn cell_verts(&self) -> (v: Vec<usize>)
        requires
            self.steps() * self.cells_per_row() * 12 <= usize::MAX,
        ensures
            v@.len() == self.steps() * self.cells_per_row() * 12,
            self.wf() ==> v@.len() == 2 * self.colors_shown().len(),
            forall|r: int, col: int, k: int|
                0 <= r < self.steps() && 0 <= col < self.cells_per_row() && 0 <= k < 12
                    ==> #[trigger] v@[vertex_index(self.cells_per_row() as int, r, col, k)]
                    == corner_coord(k, col, self.steps() - 1 - r),
    {
        let ghost steps = self.steps() as int;
        let ghost size = self.cells_per_row() as int;
        let mut v: Vec<usize> = Vec::new();
        let mut r: usize = 0;
        while r < self.num_steps
            invariant
                steps == self.num_steps,
                size == self.size,
                steps * size * 12 <= usize::MAX,
                r <= steps,
                v@.len() == r * size * 12,
                forall|p: int| 0 <= p < v@.len() ==> #[trigger] v@[p] == vertex_entry(steps, size, p),
            decreases steps - r,
        {
            let step = self.num_steps - 1 - r;
            let mut col: usize = 0;
            while col < self.size
                invariant
                    steps == self.num_steps,
                    size == self.size,
                    steps * size * 12 <= usize::MAX,
                    r < steps,
                    step == steps - 1 - r,
                    col <= size,
                    v@.len() == (r * size + col) * 12,
                    forall|p: int| 0 <= p < v@.len() ==> #[trigger] v@[p] == vertex_entry(steps, size, p),
                decreases size - col,
            {
                let mut k: usize = 0;
                while k < 12
                    invariant
                        steps == self.num_steps,
                        size == self.size,
                        steps * size * 12 <= usize::MAX,
                        r < steps,
                        step == steps - 1 - r,
                        col < size,
                        k <= 12,
                        v@.len() == (r * size + col) * 12 + k,
                        forall|p: int| 0 <= p < v@.len() ==> #[trigger] v@[p] == vertex_entry(steps, size, p),
                    decreases 12 - k,
                {
                    proof {
                        lemma_vertex_position(steps, size, r as int, col as int, k as int);
                    }
                    let value = corner(k, col, step);
                    v.push(value);
                    k = k + 1;
                }
                proof {
                    assert((r * size + col) * 12 + 12 == (r * size + (col + 1)) * 12) by (nonlinear_arith);
                }
                col = col + 1;
            }
            proof {
                assert((r * size + size) * 12 == (r + 1) * size * 12) by (nonlinear_arith);
            }
            r = r + 1;
        }
        assert forall|r: int, col: int, k: int|
            0 <= r < steps && 0 <= col < size && 0 <= k < 12 implies #[trigger] v@[vertex_index(
            size,
            r,
            col,
            k,
        )] == corner_coord(k, col, steps - 1 - r) by {
            lemma_vertex_position(steps, size, r, col, k);
        }
        proof {
            assert(r * size * 12 == steps * size * 12);
            assert(steps * size * 12 == 2 * (steps * size * 6)) by (nonlinear_arith);
        }
        v
    }

    /// Cells in each row.
    pub fn size(&self) -> (n: usize)
        ensures
            n == self.cells_per_row(),
    {
        self.size
    }

    /// The rule table.
    pub fn rule_table(&self) -> (t: &Vec<u8>)
        ensures
            t@ == self.rules(),
    {
        &self.rule_table
    }

    /// The rows of the history, oldest first.
    pub fn universe(&self) -> (u: &Vec<Vec<u8>>)
        ensures
            u@.len() == self.rows().len(),
            forall|r: int| 0 <= r < u@.len() ==> (#[trigger] u@[r])@ == self.rows()[r],
    {
        &self.universe
    }

    /// The colour entries, six for each cell drawn.
    pub fn cell_types(&self) -> (c: &VecDeque<u32>)
        ensures
            c@ == self.colors_shown(),
    {
        &self.cell_types
    }
}

/// Scrolling the colour entries by one row after a generation keeps them in
/// step with the history: the entries of the new history are those of the
/// old one without its oldest row, followed by those of the new row.
pub proof fn law_scrolling_follows_generations(rule: Seq<u8>, rows: Seq<Seq<u8>>, size: nat)
    requires
        rows.len() >= 1,
        forall|r: int| 0 <= r < rows.len() ==> (#[trigger] rows[r]).len() == size,
    ensures
        colors(next_universe(rule, rows)) == scroll_colors(
            colors(rows),
            next_universe(rule, rows),
            size,
        ),
{
    assert(next_universe(rule, rows).last() == next_row(rule, rows.last()));
    let n = next_row(rule, rows.last());
    assert(color_block(rows[0]).len() == size * 6);
    assert(colors(rows).skip(size * 6 as int) =~= colors(rows.drop_first()));
    lemma_colors_push(rows.drop_first(), n);
}

/// After `t` generations, row `r` of a history of `k` rows is the old row
/// `r + t` while that exists, and otherwise the newest old row advanced by
/// the generations that came after it.
pub proof fn law_history_after_generations(rule: Seq<u8>, rows: Seq<Seq<u8>>, t: nat)
    requires
        rows.len() >= 1,
    ensures
        evolve_universe(rule, rows, t).len() == rows.len(),
        forall|r: int|
            0 <= r < rows.len() ==> #[trigger] evolve_universe(rule, rows, t)[r] == if r + t
                <= rows.len() - 1 {
                rows[r + t]
            } else {
                evolve_row(rule, rows.last(), (r + t - (rows.len() - 1)) as nat)
            },
    decreases t,
{
    let k = rows.len() as int;
    if t > 0 {
        law_history_after_generations(rule, rows, (t - 1) as nat);
        let prev = evolve_universe(rule, rows, (t - 1) as nat);
        let cur = evolve_universe(rule, rows, t);
        assert(cur == next_universe(rule, prev));
        assert forall|r: int| 0 <= r < k implies #[trigger] cur[r] == if r + t <= k - 1 {
            rows[r + t]
        } else {
            evolve_row(rule, rows.last(), (r + t - (k - 1)) as nat)
        } by {
            if r < k - 1 {
                assert(cur[r] == prev[r + 1]);
            } else {
                assert(cur[r] == next_row(rule, prev[k - 1]));
                if t == 1 {
                    assert(prev[k - 1] == rows[k - 1]);
                    assert(evolve_row(rule, rows.last(), 0) == rows.last());
                } else {
                    assert(prev[k - 1] == evolve_row(rule, rows.last(), (t - 1) as nat));
                }
            }
        }
    }
}

/// Running one generation fewer than there are rows, starting from any
/// history, leaves the space-time diagram of its newest row: row `r` is that
/// row after `r` generations.
pub proof fn law_full_run_draws_each_generation(rule: Seq<u8>, rows: Seq<Seq<u8>>)
    requires
        rows.len() >= 1,
    ensures
        forall|r: int|
            0 <= r < rows.len() ==> #[trigger] evolve_universe(rule, rows, (rows.len() - 1) as nat)[r]
                == evolve_row(rule, rows.last(), r as nat),
{
    law_history_after_generations(rule, rows, (rows.len() - 1) as nat);
}

/// The history and colour entries after `k` animation frames, each of which
/// scrolls the colour entries by one row and then advances one generation.
pub open spec fn frames(
    rule: Seq<u8>,
    rows: Seq<Seq<u8>>,
    entries: Seq<u32>,
    size: nat,
    k: nat,
) -> (Seq<Seq<u8>>, Seq<u32>)
    decreases k,
{
    if k == 0 {
        (rows, entries)
    } else {
        let prev = frames(rule, rows, entries, size, (k - 1) as nat);
        (next_universe(rule, prev.0), scroll_colors(prev.1, prev.0, size))
    }
}

proof fn lemma_dead_rows_colors(rows: Seq<Seq<u8>>, size: nat)
    requires
        forall|r: int| 0 <= r < rows.len() ==> #[trigger] rows[r] == Seq::new(size, |c: int| 0u8),
    ensures
        colors(rows) == Seq::new(rows.len() * size * 6, |i: int| 0u32),
    decreases rows.len(),
{
    if rows.len() == 0 {
        assert(colors(rows) =~= Seq::new(rows.len() * size * 6, |i: int| 0u32));
    } else {
        lemma_dead_rows_colors(rows.drop_first(), size);
        assert(size * 6 + (rows.len() - 1) * size * 6 == rows.len() * size * 6) by (nonlinear_arith);
        assert(rows[0] == Seq::new(size, |c: int| 0u8));
        assert(colors(rows) =~= Seq::new(rows.len() * size * 6, |i: int| 0u32));
    }
}

/// A new automaton's colour entries, all 0, show its whole history after
/// one scroll: the dead rows are 0 already, and the scroll brings in the
/// initial row.
pub proof fn law_first_scroll_shows_new_history(size: nat, num_steps: nat, init: Seq<u8>)
    requires
        num_steps >= 1,
        init.len() == size,
    ensures
        scroll_colors(
            Seq::new(num_steps * size * 6, |i: int| 0u32),
            CA::initial_rows(size, num_steps, init),
            size,
        ) == colors(CA::initial_rows(size, num_steps, init)),
{
    let rows = CA::initial_rows(size, num_steps, init);
    let dead = rows.take(num_steps - 1);
    assert(rows =~= dead.push(init));
    lemma_colors_push(dead, init);
    lemma_dead_rows_colors(dead, size);
    assert(num_steps * size * 6 - size * 6 == (num_steps - 1) * size * 6) by (nonlinear_arith);
    assert(size * 6 <= num_steps * size * 6) by (nonlinear_arith)
        requires
            num_steps >= 1,
    ;
    assert(Seq::new(num_steps * size * 6, |i: int| 0u32).skip(size * 6 as int) =~= Seq::new(
        dead.len() * size * 6,
        |i: int| 0u32,
    ));
}

/// From a new automaton, through any number of animation frames (scroll,
/// then step), the history keeps its shape and one more scroll makes the
/// colour entries show the whole current history.
pub proof fn law_frames_show_history(
    rule: Seq<u8>,
    size: nat,
    num_steps: nat,
    init: Seq<u8>,
    k: nat,
)
    requires
        num_steps >= 1,
        init.len() == size,
    ensures
        ({
            let f = frames(
                rule,
                CA::initial_rows(size, num_steps, init),
                Seq::new(num_steps * size * 6, |i: int| 0u32),
                size,
                k,
            );
            &&& f.0.len() == num_steps
            &&& forall|r: int| 0 <= r < num_steps ==> (#[trigger] f.0[r]).len() == size
            &&& scroll_colors(f.1, f.0, size) == colors(f.0)
        }),
    decreases k,
{
    let rows = CA::initial_rows(size, num_steps, init);
    let zeros = Seq::new(num_steps * size * 6, |i: int| 0u32);
    if k == 0 {
        law_first_scroll_shows_new_history(size, num_steps, init);
    } else {
        law_frames_show_history(rule, size, num_steps, init, (k - 1) as nat);
        let prev = frames(rule, rows, zeros, size, (k - 1) as nat);
        let cur = frames(rule, rows, zeros, size, k);
        assert(cur.1 == colors(prev.0));
        law_scrolling_follows_generations(rule, prev.0, size);
        assert forall|r: int| 0 <= r < num_steps implies (#[trigger] cur.0[r]).len() == size by {
            if r < num_steps - 1 {
                assert(cur.0[r] == prev.0[r + 1]);
            }
        }
    }
}

/// A row rotated left by `c` places.
pub open spec fn rotate_row(row: Seq<u8>, c: int) -> Seq<u8> {
    row.skip(c) + row.take(c)
}

/// Advancing a rotated row gives the advanced row rotated the same way: the
/// rule sees only neighbourhoods, which rotation keeps.
pub proof fn law_step_commutes_with_rotation(rule: Seq<u8>, row: Seq<u8>, c: int)
    requires
        0 <= c <= row.len(),
    ensures
        next_row(rule, rotate_row(row, c)) == rotate_row(next_row(rule, row), c),
        step_fits(rule, rotate_row(row, c)) == step_fits(rule, row),
{
    let m = row.len() as int;
    let rot = rotate_row(row, c);
    let n = next_row(rule, row);
    assert forall|j: int| 0 <= j < m implies #[trigger] neighbourhood_sum(rot, j)
        == neighbourhood_sum(row, if j + c < m { j + c } else { j + c - m }) by {
        let l = left_of(m, j);
        let r = right_of(m, j);
        assert(rot[l] == row[if l + c < m { l + c } else { l + c - m }]);
        assert(rot[j] == row[if j + c < m { j + c } else { j + c - m }]);
        assert(rot[r] == row[if r + c < m { r + c } else { r + c - m }]);
    }
    assert forall|j: int| 0 <= j < m implies #[trigger] next_row(rule, rot)[j] == rotate_row(
        n,
        c,
    )[j] by {
        let i = if j + c < m { j + c } else { j + c - m };
        assert(neighbourhood_sum(rot, j) == neighbourhood_sum(row, i));
    }
    assert(next_row(rule, rot) =~= rotate_row(n, c));
    if step_fits(rule, row) {
        assert forall|j: int| 0 <= j < m implies #[trigger] neighbourhood_sum(rot, j)
            < rule.len() by {
            let i = if j + c < m { j + c } else { j + c - m };
            assert(neighbourhood_sum(rot, j) == neighbourhood_sum(row, i));
        }
    }
    if step_fits(rule, rot) {
        assert forall|i: int| 0 <= i < m implies #[trigger] neighbourhood_sum(row, i)
            < rule.len() by {
            let j = if i >= c { i - c } else { i - c + m };
            assert(neighbourhood_sum(rot, j) == neighbourhood_sum(row, i));
        }
    }
}

/// Advancing a mirrored row gives the advanced row mirrored: a
/// neighbourhood's sum does not depend on its direction.
pub proof fn law_step_commutes_with_reflection(rule: Seq<u8>, row: Seq<u8>)
    ensures
        next_row(rule, row.reverse()) == next_row(rule, row).reverse(),
        step_fits(rule, row.reverse()) == step_fits(rule, row),
{
    let m = row.len() as int;
    let rev = row.reverse();
    assert forall|j: int| 0 <= j < m implies #[trigger] neighbourhood_sum(rev, j)
        == neighbourhood_sum(row, m - 1 - j) by {
        let l = left_of(m, j);
        let r = right_of(m, j);
        assert(rev[l] == row[m - 1 - l]);
        assert(rev[j] == row[m - 1 - j]);
        assert(rev[r] == row[m - 1 - r]);
    }
    assert(next_row(rule, rev) =~= next_row(rule, row).reverse());
    if step_fits(rule, row) {
        assert forall|j: int| 0 <= j < m implies #[trigger] neighbourhood_sum(rev, j)
            < rule.len() by {
            assert(neighbourhood_sum(rev, j) == neighbourhood_sum(row, m - 1 - j));
        }
    }
    if step_fits(rule, rev) {
        assert forall|i: int| 0 <= i < m implies #[trigger] neighbourhood_sum(row, i)
            < rule.len() by {
            assert(neighbourhood_sum(rev, m - 1 - i) == neighbourhood_sum(row, i));
        }
    }
}

/// Rotating the newest row of a history before a step changes the step's
/// result only by the same rotation of the two newest rows.
pub proof fn law_history_step_commutes_with_rotation(rule: Seq<u8>, rows: Seq<Seq<u8>>, c: int)
    requires
        rows.len() >= 2,
        0 <= c <= rows.last().len(),
    ensures
        next_universe(rule, rows.update(rows.len() - 1, rotate_row(rows.last(), c)))
            == next_universe(rule, rows).update(rows.len() - 2, rotate_row(rows.last(), c)).update(
            rows.len() - 1,
            rotate_row(next_row(rule, rows.last()), c),
        ),
{
    law_step_commutes_with_rotation(rule, rows.last(), c);
    assert(next_universe(rule, rows.update(rows.len() - 1, rotate_row(rows.last(), c)))
        =~= next_universe(rule, rows).update(rows.len() - 2, rotate_row(rows.last(), c)).update(
        rows.len() - 1,
        rotate_row(next_row(rule, rows.last()), c),
    ));
}

/// Mirroring the newest row of a history before a step changes the step's
/// result only by mirroring the two newest rows.
pub proof fn law_history_step_commutes_with_reflection(rule: Seq<u8>, rows: Seq<Seq<u8>>)
    requires
        rows.len() >= 2,
    ensures
        next_universe(rule, rows.update(rows.len() - 1, rows.last().reverse()))
            == next_universe(rule, rows).update(rows.len() - 2, rows.last().reverse()).update(
            rows.len() - 1,
            next_row(rule, rows.last()).reverse(),
        ),
{
    law_step_commutes_with_reflection(rule, rows.last());
    assert(next_universe(rule, rows.update(rows.len() - 1, rows.last().reverse()))
        =~= next_universe(rule, rows).update(rows.len() - 2, rows.last().reverse()).update(
        rows.len() - 1,
        next_row(rule, rows.last()).reverse(),
    ));
}

/// When every rule-table entry and every state of a row is small enough
/// that three of them stay below the table's length, the row can be
/// advanced any number of generations, and its states stay that small.
pub proof fn law_fitting_states_always_step(rule: Seq<u8>, row: Seq<u8>, t: nat)
    requires
        row_fits(rule.len() as int, rule),
        row_fits(rule.len() as int, row),
    ensures
        evolve_row(rule, row, t).len() == row.len(),
        row_fits(rule.len() as int, evolve_row(rule, row, t)),
        step_fits(rule, evolve_row(rule, row, t)),
    decreases t,
{
    if t > 0 {
        law_fitting_states_always_step(rule, row, (t - 1) as nat);
        let prev = evolve_row(rule, row, (t - 1) as nat);
        assert forall|j: int| 0 <= j < prev.len() implies 3 * (#[trigger] next_row(rule, prev)[j])
            < rule.len() by {
            assert(neighbourhood_sum(prev, j) < rule.len());
        }
    }
    let cur = evolve_row(rule, row, t);
    assert forall|j: int| 0 <= j < cur.len() implies #[trigger] neighbourhood_sum(cur, j)
        < rule.len() by {
        assert(3 * cur[left_of(cur.len() as int, j)] < rule.len());
        assert(3 * cur[j] < rule.len());
        assert(3 * cur[right_of(cur.len() as int, j)] < rule.len());
    }
}

/// Each cell of the next row is the rule-table entry for the sum of the
/// cell's own state and those of its immediate left and right neighbours,
/// the row wrapping around at both ends.
pub proof fn law_next_row_cells(rule: Seq<u8>, row: Seq<u8>)
    requires
        row.len() >= 1,
    ensures
        next_row(rule, row).len() == row.len(),
        forall|j: int|
            0 <= j < row.len() ==> #[trigger] next_row(rule, row)[j] == rule[row[(j + row.len()
                - 1) % (row.len() as int)] + row[j] + row[(j + 1) % (row.len() as int)]],
{
    let m = row.len() as int;
    assert forall|j: int| 0 <= j < m implies #[trigger] next_row(rule, row)[j] == rule[row[(j + m
        - 1) % m] + row[j] + row[(j + 1) % m]] by {
        lemma_wrap(j + m - 1, m);
        lemma_wrap(j + 1, m);
    }
}

/// One generation of a history drops its oldest row, moves every other row
/// one place towards the front, and appends as newest row the row whose
/// cells are the rule-table entries for the neighbourhood sums of the old
/// newest row.
pub proof fn law_step_shifts_history(rule: Seq<u8>, rows: Seq<Seq<u8>>)
    requires
        rows.len() >= 1,
        rows.last().len() >= 1,
    ensures
        next_universe(rule, rows).len() == rows.len(),
        forall|r: int|
            0 <= r < rows.len() - 1 ==> #[trigger] next_universe(rule, rows)[r] == rows[r + 1],
        next_universe(rule, rows).last().len() == rows.last().len(),
        forall|j: int|
            0 <= j < rows.last().len() ==> #[trigger] next_universe(rule, rows).last()[j]
                == rule[rows.last()[(j + rows.last().len() - 1) % (rows.last().len() as int)]
                + rows.last()[j] + rows.last()[(j + 1) % (rows.last().len() as int)]],
{
    law_next_row_cells(rule, rows.last());
    assert(next_universe(rule, rows).last() == next_row(rule, rows.last()));
}

/// A history can take a step exactly when it has at least two rows, its
/// rows have cells, and for every cell of the newest row the sum of that
/// cell and its two immediate neighbours is a position of the rule table;
/// nothing else (such as whether the step would change the row) matters.
pub proof fn law_ready_for_step_exactly(rule: Seq<u8>, rows: Seq<Seq<u8>>, size: nat)
    ensures
        ready_for_step(rule, rows, size) <==> ({
            let last = rows.last();
            let m = last.len() as int;
            &&& rows.len() >= 2
            &&& size >= 1
            &&& forall|j: int|
                0 <= j < m ==> last[(j + m - 1) % m] + #[trigger] last[j] + last[(j + 1) % m]
                    < rule.len()
        }),
{
    let last = rows.last();
    let m = last.len() as int;
    assert forall|j: int| 0 <= j < m implies #[trigger] neighbourhood_sum(last, j) == last[(j + m
        - 1) % m] + last[j] + last[(j + 1) % m] by {
        lemma_wrap(j + m - 1, m);
        lemma_wrap(j + 1, m);
    }
    if step_fits(rule, last) {
        assert forall|j: int| 0 <= j < m implies last[(j + m - 1) % m] + #[trigger] last[j] + last[(
        j + 1) % m] < rule.len() by {
            assert(neighbourhood_sum(last, j) < rule.len());
        }
    }
    if forall|j: int|
        0 <= j < m ==> last[(j + m - 1) % m] + #[trigger] last[j] + last[(j + 1) % m] < rule.len() {
        assert forall|j: int| 0 <= j < m implies #[trigger] neighbourhood_sum(last, j)
            < rule.len() by {
            assert(last[(j + m - 1) % m] + last[j] + last[(j + 1) % m] < rule.len());
        }
    }
}

/// The corners of the cell in column `col` of row `step` are those of the
/// cell at the origin moved `col` places right and `step` places up: every
/// cell covers its own unit square with the same two triangles, with
/// corners (0, 1), (0, 0), (1, 0) and (0, 1), (1, 0), (1, 1) at the origin.
pub proof fn law_cell_corners(col: int, step: int)
    ensures
        forall|k: int|
            0 <= k < 12 ==> #[trigger] corner_coord(k, col, step) == corner_coord(k, 0, 0) + if k
                % 2 == 0 {
                col
            } else {
                step
            },
        corner_coord(0, 0, 0) == 0 && corner_coord(1, 0, 0) == 1,
        corner_coord(2, 0, 0) == 0 && corner_coord(3, 0, 0) == 0,
        corner_coord(4, 0, 0) == 1 && corner_coord(5, 0, 0) == 0,
        corner_coord(6, 0, 0) == 0 && corner_coord(7, 0, 0) == 1,
        corner_coord(8, 0, 0) == 1 && corner_coord(9, 0, 0) == 0,
        corner_coord(10, 0, 0) == 1 && corner_coord(11, 0, 0) == 1,
{
    assert forall|k: int| 0 <= k < 12 implies #[trigger] corner_coord(k, col, step) == corner_coord(
        k,
        0,
        0,
    ) + if k % 2 == 0 {
        col
    } else {
        step
    } by {
        if k == 0 {
        } else if k == 1 {
        } else if k == 2 {
        } else if k == 3 {
        } else if k == 4 {
        } else if k == 5 {
        } else if k == 6 {
        } else if k == 7 {
        } else if k == 8 {
        } else if k == 9 {
        } else if k == 10 {
        } else {
        }
    }
}

/// Says whether every neighbourhood of `row` sums to a position of the
/// rule table.
fn neighbourhoods_fit(rule_table: &Vec<u8>, row: &Vec<u8>) -> (ok: bool)
    ensures
        ok == step_fits(rule_table@, row@),
{
    let m = row.len();
    let mut j: usize = 0;
    while j < m
        invariant
            m == row@.len(),
            j <= m,
            forall|q: int| 0 <= q < j ==> #[trigger] neighbourhood_sum(row@, q) < rule_table@.len(),
        decreases m - j,
    {
        let left = if j == 0 { m - 1 } else { j - 1 };
        let right = if j + 1 >= m { 0 } else { j + 1 };
        let sum: usize = row[left] as usize + row[j] as usize + row[right] as usize;
        assert(sum == neighbourhood_sum(row@, j as int));
        if sum >= rule_table.len() {
            return false;
        }
        j = j + 1;
    }
    true
}

} // verus!
