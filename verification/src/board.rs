//! The board: a grid of cells with mine mask, per-cell adjacency counts,
//! flood-fill opening, flag changes, progress counters and a dirty mask.
//!
//! The grid is stored flat in column-major order: cell `(x, y)` lives at
//! index `x * height + y`, `x` being the column.  A well-formed board keeps
//! its counters in step with the grid: `mine_count` counts the mined cells,
//! `open_fields` the open non-mined cells, and every cell's `value` is the
//! number of mined cells among its eight Moore neighbors (mined cells
//! themselves keep value 0).  Opening and flagging preserve mines and
//! values; only cell states, the dirty mask and the counters move.

use vstd::prelude::*;

use crate::parser::Metadata;

verus! {

/// The visible state of one cell.
#[derive(Clone, Copy, Debug, PartialEq, Eq, Structural)]
pub enum FieldState {
    Closed,
    Open,
    Flagged,
}

/// One cell: its adjacency count, state, and whether it holds a mine.
#[derive(Clone, Copy, Debug, PartialEq, Eq, Structural)]
pub struct Field {
    pub value: u8,
    pub field_state: FieldState,
    pub mine: bool,
}

/// The number of cells of `s` satisfying `p`.
pub open spec fn count_matching(s: Seq<Field>, p: spec_fn(Field) -> bool) -> int
    decreases s.len(),
{
    if s.len() == 0 {
        0int
    } else {
        count_matching(s.drop_last(), p) + if p(s.last()) {
            1int
        } else {
            0int
        }
    }
}

/// Whether a cell holds a mine.
pub open spec fn is_mine_cell(f: Field) -> bool {
    f.mine
}

/// Whether a cell counts towards progress: open and not mined.
pub open spec fn is_counted_open(f: Field) -> bool {
    f.field_state == FieldState::Open && !f.mine
}

/// A count never exceeds the length.
pub proof fn lemma_count_bounds(s: Seq<Field>, p: spec_fn(Field) -> bool)
    ensures
        0 <= count_matching(s, p) <= s.len(),
    decreases s.len(),
{
    if s.len() > 0 {
        lemma_count_bounds(s.drop_last(), p);
    }
}

/// How a count moves when one element is replaced.
pub proof fn lemma_count_update(s: Seq<Field>, i: int, v: Field, p: spec_fn(Field) -> bool)
    requires
        0 <= i < s.len(),
    ensures
        count_matching(s.update(i, v), p) == count_matching(s, p) + (if p(v) {
            1int
        } else {
            0int
        }) - (if p(s[i]) {
            1int
        } else {
            0int
        }),
    decreases s.len(),
{
    let t = s.update(i, v);
    if i == s.len() - 1 {
        assert(t.drop_last() =~= s.drop_last());
        assert(t.last() == v);
    } else {
        assert(t.drop_last() =~= s.drop_last().update(i, v));
        assert(t.last() == s.last());
        lemma_count_update(s.drop_last(), i, v, p);
    }
}

/// Counts of mutually exclusive predicates share the length.
pub proof fn lemma_count_disjoint(s: Seq<Field>, p: spec_fn(Field) -> bool, q: spec_fn(
    Field,
) -> bool)
    requires
        forall|f: Field| !(#[trigger] p(f) && #[trigger] q(f)),
    ensures
        count_matching(s, p) + count_matching(s, q) <= s.len(),
    decreases s.len(),
{
    if s.len() > 0 {
        lemma_count_disjoint(s.drop_last(), p, q);
    }
}

/// A zero count means no element satisfies the predicate.
pub proof fn lemma_count_zero(s: Seq<Field>, p: spec_fn(Field) -> bool)
    requires
        count_matching(s, p) == 0,
    ensures
        forall|i: int| 0 <= i < s.len() ==> !p(#[trigger] s[i]),
    decreases s.len(),
{
    if s.len() > 0 {
        lemma_count_bounds(s.drop_last(), p);
        lemma_count_zero(s.drop_last(), p);
        assert forall|i: int| 0 <= i < s.len() implies !p(#[trigger] s[i]) by {
            if i < s.len() - 1 {
                assert(s.drop_last()[i] == s[i]);
            } else {
                assert(s.last() == s[i]);
            }
        }
    }
}

/// 1 for true, 0 for false; used to sum neighbor indicators.
pub open spec fn b2i(b: bool) -> int {
    if b {
        1int
    } else {
        0int
    }
}

/// A predicate no element satisfies counts to zero.
pub proof fn lemma_count_none(s: Seq<Field>, p: spec_fn(Field) -> bool)
    requires
        forall|i: int| 0 <= i < s.len() ==> !p(#[trigger] s[i]),
    ensures
        count_matching(s, p) == 0,
    decreases s.len(),
{
    if s.len() > 0 {
        assert(forall|i: int| 0 <= i < s.len() - 1 ==> s.drop_last()[i] == s[i]);
        lemma_count_none(s.drop_last(), p);
        assert(!p(s.last()));
    }
}

/// Column-major flat indices collide only for the same cell.
pub proof fn lemma_flat_idx_inj(h: int, x1: int, y1: int, x2: int, y2: int)
    requires
        h > 0,
        0 <= y1 < h,
        0 <= y2 < h,
    ensures
        (x1 * h + y1 == x2 * h + y2) <==> (x1 == x2 && y1 == y2),
{
    assert((x1 * h + y1 == x2 * h + y2) <==> (x1 == x2 && y1 == y2)) by (nonlinear_arith)
        requires
            h > 0,
            0 <= y1 < h,
            0 <= y2 < h,
    ;
}

/// Boards with the same dimensions and the same mine mask agree on every
/// mine indicator and every adjacency count.
pub proof fn lemma_mine_mask_adj(b1: Board, b2: Board)
    requires
        b1.metadata == b2.metadata,
        b1.metadata.wf(),
        b1.fields@.len() == b1.width() * b1.height(),
        b2.fields@.len() == b1.fields@.len(),
        forall|n: int|
            0 <= n < b1.fields@.len() ==> (#[trigger] b2.fields@[n]).mine == b1.fields@[n].mine,
    ensures
        forall|i: int, j: int| #[trigger] b2.mine_at(i, j) == b1.mine_at(i, j),
        forall|i: int, j: int| #[trigger] b2.adj_mines(i, j) == b1.adj_mines(i, j),
{
    assert forall|i: int, j: int| #[trigger] b2.mine_at(i, j) == b1.mine_at(i, j) by {
        if b1.in_bounds(i, j) {
            assert(0 <= b1.idx(i, j) < b1.fields@.len()) by (nonlinear_arith)
                requires
                    0 <= i < b1.width(),
                    0 <= j < b1.height(),
                    b1.idx(i, j) == i * b1.height() + j,
                    b1.fields@.len() == b1.width() * b1.height(),
            ;
        }
    }
}

/// Whether `(x2, y2)` is one of the eight Moore neighbors of `(x1, y1)`.
pub open spec fn is_neighbor(x1: int, y1: int, x2: int, y2: int) -> bool {
    &&& -1 <= x2 - x1 <= 1
    &&& -1 <= y2 - y1 <= 1
    &&& !(x1 == x2 && y1 == y2)
}

/// Whether the cell `(i, j)` differs between the two boards.
pub open spec fn cell_changed(pre: Board, post: Board, i: int, j: int) -> bool {
    post.cell(i, j) != pre.cell(i, j)
}

/// Whether `s` is closed under cascade expansion on `pre`'s grid: with
/// every zero-adjacency open-cascading cell it also holds each of that
/// cell's closed in-bounds neighbors.
pub open spec fn expansion_closed(pre: Board, s: Set<(int, int)>) -> bool {
    forall|i: int, j: int, ni: int, nj: int|
        #![trigger s.contains((i, j)), s.contains((ni, nj))]
        s.contains((i, j)) && pre.in_bounds(i, j) && !pre.cell(i, j).mine && pre.cell(i, j).value
            == 0 && is_neighbor(i, j, ni, nj) && pre.in_bounds(ni, nj) && pre.cell(
            ni,
            nj,
        ).field_state == FieldState::Closed ==> s.contains((ni, nj))
}

/// The board.  The grid and mask are exposed for reading; all mutation
/// goes through the methods, which keep [`Board::wf`].
pub struct Board {
    pub fields: Vec<Field>,
    pub changed_fields: Vec<bool>,
    pub metadata: Metadata,
    pub mine_count: u64,
    pub open_fields: u64,
    pub total_fields: u64,
}

impl Board {
    /// Number of columns.
    pub open spec fn width(self) -> int {
        self.metadata.x_size as int
    }

    /// Number of rows.
    pub open spec fn height(self) -> int {
        self.metadata.y_size as int
    }

    /// Whether `(x, y)` lies on the board.
    pub open spec fn in_bounds(self, x: int, y: int) -> bool {
        0 <= x < self.width() && 0 <= y < self.height()
    }

    /// Flat index of column `x`, row `y`.
    pub open spec fn idx(self, x: int, y: int) -> int {
        x * self.height() + y
    }

    /// The cell at `(x, y)`.
    pub open spec fn cell(self, x: int, y: int) -> Field {
        self.fields@[self.idx(x, y)]
    }

    /// The dirty bit at `(x, y)`.
    pub open spec fn changed_at(self, x: int, y: int) -> bool {
        self.changed_fields@[self.idx(x, y)]
    }

    /// Whether `(x, y)` is on the board and mined.
    pub open spec fn mine_at(self, x: int, y: int) -> bool {
        self.in_bounds(x, y) && self.cell(x, y).mine
    }

    /// The number of mined cells among the eight Moore neighbors.
    pub open spec fn adj_mines(self, x: int, y: int) -> int {
        b2i(self.mine_at(x - 1, y - 1)) + b2i(self.mine_at(x - 1, y)) + b2i(
            self.mine_at(x - 1, y + 1),
        ) + b2i(self.mine_at(x, y - 1)) + b2i(self.mine_at(x, y + 1)) + b2i(
            self.mine_at(x + 1, y - 1),
        ) + b2i(self.mine_at(x + 1, y)) + b2i(self.mine_at(x + 1, y + 1))
    }

    /// Well-formedness: grid and mask sized to the dimensions, counters
    /// derived from the grid, and every adjacency count correct.
    pub open spec fn wf(self) -> bool {
        &&& self.metadata.wf()
        &&& self.fields@.len() == self.width() * self.height()
        &&& self.changed_fields@.len() == self.fields@.len()
        &&& self.total_fields == self.fields@.len()
        &&& self.mine_count == count_matching(self.fields@, |f: Field| is_mine_cell(f))
        &&& self.open_fields == count_matching(self.fields@, |f: Field| is_counted_open(f))
        &&& forall|x: int, y: int|
            self.in_bounds(x, y) ==> (#[trigger] self.cell(x, y)).value == (if self.cell(
                x,
                y,
            ).mine {
                0int
            } else {
                self.adj_mines(x, y)
            })
    }

    /// Progress of the replay: the floor of
    /// `opened / (total - mines) * 100`, and 0 when every cell is mined
    /// or the board is empty.
    pub open spec fn spec_percentage(self) -> int {
        let denom = self.total_fields - self.mine_count;
        if denom == 0 {
            0int
        } else {
            self.open_fields * 100 / denom
        }
    }

    /// Flat index within range, and distinct cells get distinct indices.
    proof fn lemma_idx(self, x: int, y: int)
        requires
            self.wf(),
            self.in_bounds(x, y),
        ensures
            0 <= self.idx(x, y) < self.fields@.len(),
            forall|i: int, j: int|
                self.in_bounds(i, j) && #[trigger] self.idx(i, j) == self.idx(x, y) ==> i == x
                    && j == y,
    {
        let w = self.width();
        let h = self.height();
        assert(0 <= x * h + y < w * h) by (nonlinear_arith)
            requires 0 <= x < w && 0 <= y < h;
        assert forall|i: int, j: int|
            self.in_bounds(i, j) && #[trigger] self.idx(i, j) == self.idx(x, y) implies i == x
            && j == y by {
            assert(i * h + j == x * h + y);
            assert(i == x && j == y) by (nonlinear_arith)
                requires
                    i * h + j == x * h + y,
                    0 <= j < h,
                    0 <= y < h,
            ;
        }
    }

    /// The two derived counts never exceed the grid, mines and open
    /// non-mined cells being disjoint.
    pub(crate) proof fn lemma_counters(self)
        requires
            self.wf(),
        ensures
            0 <= self.mine_count <= self.total_fields,
            0 <= self.open_fields,
            self.open_fields + self.mine_count <= self.total_fields,
    {
        lemma_count_bounds(self.fields@, |f: Field| is_mine_cell(f));
        lemma_count_bounds(self.fields@, |f: Field| is_counted_open(f));
        lemma_count_disjoint(
            self.fields@,
            |f: Field| is_counted_open(f),
            |f: Field| is_mine_cell(f),
        );
    }

    /// Reads one cell.
    pub fn field_at(&self, x: usize, y: usize) -> (f: Field)
        requires
            self.wf(),
            self.in_bounds(x as int, y as int),
        ensures
            f == self.cell(x as int, y as int),
    {
        proof {
            self.lemma_idx(x as int, y as int);
        }
        let h = self.metadata.y_size as usize;
        let n = self.fields.len();
        assert(x * h + y < n);
        self.fields[x * h + y]
    }

    /// Reads one dirty bit.
    pub fn was_changed(&self, x: usize, y: usize) -> (c: bool)
        requires
            self.wf(),
            self.in_bounds(x as int, y as int),
        ensures
            c == self.changed_at(x as int, y as int),
    {
        proof {
            self.lemma_idx(x as int, y as int);
        }
        let h = self.metadata.y_size as usize;
        let n = self.changed_fields.len();
        assert(x * h + y < n);
        self.changed_fields[x * h + y]
    }

    /// The size and counter part of well-formedness, everything but the
    /// adjacency values; what holds of a board while it is being built.
    pub open spec fn shape_wf(self) -> bool {
        &&& self.metadata.wf()
        &&& self.fields@.len() == self.width() * self.height()
        &&& self.changed_fields@.len() == self.fields@.len()
        &&& self.total_fields == self.fields@.len()
        &&& self.mine_count == count_matching(self.fields@, |f: Field| is_mine_cell(f))
        &&& self.open_fields == count_matching(self.fields@, |f: Field| is_counted_open(f))
    }

    /// Whether the cell at `(nx, ny)` is on the board and mined; false
    /// for any coordinate off the board.
    pub(crate) fn is_mine_at(&self, nx: i64, ny: i64) -> (b: bool)
        requires
            self.metadata.wf(),
            self.fields@.len() == self.width() * self.height(),
        ensures
            b == self.mine_at(nx as int, ny as int),
    {
        if nx >= 0 && ny >= 0 && nx < self.metadata.x_size as i64 && ny < self.metadata.y_size
            as i64 {
            let ux = nx as usize;
            let uy = ny as usize;
            let h = self.metadata.y_size as usize;
            let n = self.fields.len();
            proof {
                assert(0 <= (ux as int) * (h as int) + (uy as int) < self.fields@.len())
                    by (nonlinear_arith)
                    requires
                        0 <= (ux as int) < self.width(),
                        0 <= (uy as int) < (h as int),
                        h as int == self.height(),
                        self.fields@.len() == self.width() * self.height(),
                ;
            }
            self.fields[ux * h + uy].mine
        } else {
            false
        }
    }

    /// Fills in every adjacency count on a freshly built board whose
    /// values are still all zero; mines, states, the dirty mask and the
    /// counters stay as they are.
    pub(crate) fn compute_adjacency(&mut self)
        requires
            old(self).shape_wf(),
            forall|n: int|
                0 <= n < old(self).fields@.len() ==> (#[trigger] old(self).fields@[n]).value == 0,
        ensures
            final(self).wf(),
            final(self).metadata == old(self).metadata,
            final(self).mine_count == old(self).mine_count,
            final(self).open_fields == old(self).open_fields,
            final(self).total_fields == old(self).total_fields,
            final(self).changed_fields@ == old(self).changed_fields@,
            final(self).fields@.len() == old(self).fields@.len(),
            forall|n: int|
                0 <= n < old(self).fields@.len() ==> (#[trigger] final(self).fields@[n]).mine
                    == old(self).fields@[n].mine && final(self).fields@[n].field_state == old(
                    self,
                ).fields@[n].field_state,
    {
        let ghost pre = *self;
        let h = self.metadata.y_size as usize;
        let len = self.fields.len();
        let mut n: usize = 0;
        while n < len
            invariant
                n <= len,
                pre.shape_wf(),
                h == pre.height(),
                len == pre.fields@.len(),
                self.metadata == pre.metadata,
                self.mine_count == pre.mine_count,
                self.open_fields == pre.open_fields,
                self.total_fields == pre.total_fields,
                self.changed_fields@ == pre.changed_fields@,
                self.fields@.len() == len,
                forall|m: int|
                    0 <= m < len ==> (#[trigger] self.fields@[m]).mine == pre.fields@[m].mine
                        && self.fields@[m].field_state == pre.fields@[m].field_state,
                forall|m: int| n <= m < len ==> (#[trigger] self.fields@[m]).value == 0,
                self.mine_count == count_matching(self.fields@, |f: Field| is_mine_cell(f)),
                self.open_fields == count_matching(self.fields@, |f: Field| is_counted_open(f)),
                forall|a: int, b: int|
                    self.in_bounds(a, b) && self.idx(a, b) < n ==> (#[trigger] self.cell(
                        a,
                        b,
                    )).value == (if self.cell(a, b).mine {
                        0int
                    } else {
                        self.adj_mines(a, b)
                    }),
            decreases len - n,
        {
            assert(h > 0) by {
                if h == 0 {
                    assert(pre.width() * pre.height() == 0) by (nonlinear_arith)
                        requires pre.height() == 0;
                }
            }
            let x = n / h;
            let y = n % h;
            proof {
                vstd::arithmetic::div_mod::lemma_fundamental_div_mod(n as int, h as int);
                vstd::arithmetic::div_mod::lemma_mod_bound(n as int, h as int);
                assert(self.idx(x as int, y as int) == n) by {
                    assert((x as int) * (h as int) == (h as int) * (x as int))
                        by (nonlinear_arith);
                }
                assert((x as int) < self.width()) by (nonlinear_arith)
                    requires
                        (x as int) * (h as int) + (y as int) == n as int,
                        0 <= (y as int) && (y as int) < (h as int),
                        (n as int) < self.width() * (h as int),
                        h as int == self.height(),
                        0 <= (x as int),
                ;
            }
            let f = self.fields[n];
            if !f.mine {
                let ix = x as i64;
                let iy = y as i64;
                let mut cnt: u8 = 0;
                if self.is_mine_at(ix - 1, iy - 1) {
                    cnt = cnt + 1;
                }
                if self.is_mine_at(ix - 1, iy) {
                    cnt = cnt + 1;
                }
                if self.is_mine_at(ix - 1, iy + 1) {
                    cnt = cnt + 1;
                }
                if self.is_mine_at(ix, iy - 1) {
                    cnt = cnt + 1;
                }
                if self.is_mine_at(ix, iy + 1) {
                    cnt = cnt + 1;
                }
                if self.is_mine_at(ix + 1, iy - 1) {
                    cnt = cnt + 1;
                }
                if self.is_mine_at(ix + 1, iy) {
                    cnt = cnt + 1;
                }
                if self.is_mine_at(ix + 1, iy + 1) {
                    cnt = cnt + 1;
                }
                assert(cnt == self.adj_mines(x as int, y as int));
                let ghost before = *self;
                let g = Field { value: cnt, field_state: f.field_state, mine: f.mine };
                self.fields[n] = g;
                proof {
                    lemma_count_update(before.fields@, n as int, g, |c: Field| is_mine_cell(c));
                    lemma_count_update(before.fields@, n as int, g, |c: Field| is_counted_open(c));
                    lemma_mine_mask_adj(before, *self);
                    assert forall|a: int, b: int|
                        self.in_bounds(a, b) && self.idx(a, b) < n + 1 implies (
                    #[trigger] self.cell(a, b)).value == (if self.cell(a, b).mine {
                        0int
                    } else {
                        self.adj_mines(a, b)
                    }) by {
                        assert(0 <= self.idx(a, b) < len) by (nonlinear_arith)
                            requires
                                0 <= a < self.width(),
                                0 <= b < self.height(),
                                self.idx(a, b) == a * self.height() + b,
                                len == self.width() * self.height(),
                        ;
                        if self.idx(a, b) == n {
                            lemma_flat_idx_inj(h as int, a, b, x as int, y as int);
                            assert(a == x as int && b == y as int);
                        } else {
                            assert(self.fields@[self.idx(a, b)] == before.fields@[self.idx(a, b)]);
                            assert(before.cell(a, b).value == (if before.cell(a, b).mine {
                                0int
                            } else {
                                before.adj_mines(a, b)
                            }));
                        }
                    }
                }
            } else {
                proof {
                    assert forall|a: int, b: int|
                        self.in_bounds(a, b) && self.idx(a, b) < n + 1 implies (
                    #[trigger] self.cell(a, b)).value == (if self.cell(a, b).mine {
                        0int
                    } else {
                        self.adj_mines(a, b)
                    }) by {
                        assert(0 <= self.idx(a, b) < len) by (nonlinear_arith)
                            requires
                                0 <= a < self.width(),
                                0 <= b < self.height(),
                                self.idx(a, b) == a * self.height() + b,
                                len == self.width() * self.height(),
                        ;
                        if self.idx(a, b) == n {
                            lemma_flat_idx_inj(h as int, a, b, x as int, y as int);
                            assert(self.cell(a, b).mine);
                        }
                    }
                }
            }
            n = n + 1;
        }
        proof {
            assert forall|a: int, b: int| self.in_bounds(a, b) implies (#[trigger] self.cell(
                a,
                b,
            )).value == (if self.cell(a, b).mine {
                0int
            } else {
                self.adj_mines(a, b)
            }) by {
                assert(0 <= self.idx(a, b) < len) by (nonlinear_arith)
                    requires
                        0 <= a < self.width(),
                        0 <= b < self.height(),
                        self.idx(a, b) == a * self.height() + b,
                        len == self.width() * self.height(),
                ;
            }
        }
    }

    /// The dimensions, mines, adjacency values and total of `post` are
    /// those of `pre`; only cell states, the dirty mask and the derived
    /// counters may move.
    pub open spec fn same_structure(pre: Board, post: Board) -> bool {
        &&& post.metadata == pre.metadata
        &&& post.total_fields == pre.total_fields
        &&& post.fields@.len() == pre.fields@.len()
        &&& post.changed_fields@.len() == pre.changed_fields@.len()
        &&& forall|n: int|
            0 <= n < pre.fields@.len() ==> (#[trigger] post.fields@[n]).mine == pre.fields@[n].mine
                && post.fields@[n].value == pre.fields@[n].value
    }

    /// A structure-preserving change keeps every mine indicator and every
    /// adjacency count, so adjacency-correctness carries over.
    proof fn lemma_same_structure_wf(pre: Board, post: Board)
        requires
            pre.wf(),
            Board::same_structure(pre, post),
        ensures
            forall|i: int, j: int| #[trigger] post.mine_at(i, j) == pre.mine_at(i, j),
            forall|a: int, b: int|
                post.in_bounds(a, b) ==> (#[trigger] post.cell(a, b)).value == (if post.cell(
                    a,
                    b,
                ).mine {
                    0int
                } else {
                    post.adj_mines(a, b)
                }),
    {
        assert forall|i: int, j: int| #[trigger] post.mine_at(i, j) == pre.mine_at(i, j) by {
            if pre.in_bounds(i, j) {
                pre.lemma_idx(i, j);
            }
        }
        assert forall|a: int, b: int| post.in_bounds(a, b) implies (#[trigger] post.cell(
            a,
            b,
        )).value == (if post.cell(a, b).mine {
            0int
        } else {
            post.adj_mines(a, b)
        }) by {
            pre.lemma_idx(a, b);
            assert(post.cell(a, b).value == pre.cell(a, b).value && post.cell(a, b).mine
                == pre.cell(a, b).mine);
            assert(post.adj_mines(a, b) == pre.adj_mines(a, b));
        }
    }

    /// What one flag action does: the cell's state becomes Flagged on
    /// Place and Closed on Remove, its dirty bit is set, and nothing else
    /// moves.
    pub open spec fn flag_post(pre: Board, post: Board, x: int, y: int, kind: crate::parser::Action) -> bool {
        &&& Board::same_structure(pre, post)
        &&& post.cell(x, y).field_state == (if kind is Place {
            FieldState::Flagged
        } else {
            FieldState::Closed
        })
        &&& post.changed_at(x, y)
        &&& forall|n: int|
            0 <= n < pre.fields@.len() && n != pre.idx(x, y) ==> #[trigger] post.fields@[n]
                == pre.fields@[n]
        &&& forall|n: int|
            0 <= n < pre.changed_fields@.len() && n != pre.idx(x, y)
                ==> #[trigger] post.changed_fields@[n] == pre.changed_fields@[n]
    }

    /// Applies one flag action to `(x, y)`: Place flags the cell, Remove
    /// closes it, whatever state it was in; repeated or contradictory flag
    /// events are legal and the last write wins.
    pub fn set_flag(&mut self, x: usize, y: usize, action: crate::parser::Action)
        requires
            old(self).wf(),
            old(self).in_bounds(x as int, y as int),
        ensures
            final(self).wf(),
            Board::flag_post(*old(self), *final(self), x as int, y as int, action),
    {
        proof {
            self.lemma_idx(x as int, y as int);
        }
        let h = self.metadata.y_size as usize;
        let n = self.fields.len();
        assert(x * h + y < n);
        let i = x * h + y;
        let f = self.fields[i];
        let new_state = match action {
            crate::parser::Action::Place => FieldState::Flagged,
            crate::parser::Action::Remove => FieldState::Closed,
        };
        let g = Field { value: f.value, field_state: new_state, mine: f.mine };
        let ghost pre = *self;
        self.fields[i] = g;
        self.changed_fields[i] = true;
        if f.field_state == FieldState::Open && !f.mine {
            proof {
                pre.lemma_counters();
                lemma_count_update(pre.fields@, i as int, g, |c: Field| is_counted_open(c));
                lemma_count_update(pre.fields@, i as int, g, |c: Field| is_mine_cell(c));
                lemma_count_bounds(self.fields@, |c: Field| is_counted_open(c));
            }
            self.open_fields = self.open_fields - 1;
        } else {
            proof {
                lemma_count_update(pre.fields@, i as int, g, |c: Field| is_counted_open(c));
                lemma_count_update(pre.fields@, i as int, g, |c: Field| is_mine_cell(c));
            }
        }
        proof {
            let post = *self;
            assert(post.fields@ == pre.fields@.update(i as int, g));
            assert(Board::same_structure(pre, post));
            Board::lemma_same_structure_wf(pre, post);
        }
    }

    /// Returns every dirty cell with its current contents, ordered by
    /// flat grid index, then clears the whole dirty mask.
    pub fn snapshot_and_clear_dirty(&mut self) -> (diff: Vec<(usize, usize, Field)>)
        requires
            old(self).wf(),
        ensures
            final(self).wf(),
            final(self).fields@ == old(self).fields@,
            final(self).metadata == old(self).metadata,
            final(self).mine_count == old(self).mine_count,
            final(self).open_fields == old(self).open_fields,
            final(self).total_fields == old(self).total_fields,
            final(self).changed_fields@.len() == old(self).changed_fields@.len(),
            forall|n: int|
                0 <= n < final(self).changed_fields@.len()
                    ==> !(#[trigger] final(self).changed_fields@[n]),
            forall|k: int|
                0 <= k < diff@.len() ==> {
                    let e = #[trigger] diff@[k];
                    &&& old(self).in_bounds(e.0 as int, e.1 as int)
                    &&& old(self).changed_at(e.0 as int, e.1 as int)
                    &&& e.2 == old(self).cell(e.0 as int, e.1 as int)
                },
            forall|a: int, b: int|
                old(self).in_bounds(a, b) && old(self).changed_at(a, b) ==> exists|k: int|
                    0 <= k < diff@.len() && #[trigger] diff@[k] == (
                    a as usize,
                    b as usize,
                    old(self).cell(a, b),
                ),
            forall|k1: int, k2: int|
                0 <= k1 < k2 < diff@.len() ==> old(self).idx(diff@[k1].0 as int, diff@[k1].1 as int)
                    < old(self).idx(diff@[k2].0 as int, diff@[k2].1 as int),
    {
        let ghost pre = *self;
        let h = self.metadata.y_size as usize;
        let len = self.changed_fields.len();
        let mut diff: Vec<(usize, usize, Field)> = Vec::new();
        let mut n: usize = 0;
        while n < len
            invariant
                n <= len,
                *self == (Board { changed_fields: self.changed_fields, ..pre }),
                pre.wf(),
                h == pre.height(),
                len == pre.changed_fields@.len(),
                self.changed_fields@.len() == len,
                forall|m: int| 0 <= m < n ==> !(#[trigger] self.changed_fields@[m]),
                forall|m: int|
                    n <= m < len ==> #[trigger] self.changed_fields@[m] == pre.changed_fields@[m],
                forall|k: int|
                    0 <= k < diff@.len() ==> {
                        let e = #[trigger] diff@[k];
                        &&& pre.in_bounds(e.0 as int, e.1 as int)
                        &&& pre.changed_at(e.0 as int, e.1 as int)
                        &&& e.2 == pre.cell(e.0 as int, e.1 as int)
                        &&& pre.idx(e.0 as int, e.1 as int) < n
                    },
                forall|m: int|
                    0 <= m < n && pre.changed_fields@[m] ==> exists|k: int|
                        0 <= k < diff@.len() && pre.idx(
                            (#[trigger] diff@[k]).0 as int,
                            diff@[k].1 as int,
                        ) == m,
                forall|k1: int, k2: int|
                    0 <= k1 < k2 < diff@.len() ==> pre.idx(diff@[k1].0 as int, diff@[k1].1 as int)
                        < pre.idx(diff@[k2].0 as int, diff@[k2].1 as int),
            decreases len - n,
        {
            if self.changed_fields[n] {
                assert(h > 0) by {
                    if h == 0 {
                        assert(pre.width() * pre.height() == 0) by (nonlinear_arith)
                            requires pre.height() == 0;
                    }
                }
                let x = n / h;
                let y = n % h;
                proof {
                    vstd::arithmetic::div_mod::lemma_fundamental_div_mod(n as int, h as int);
                    vstd::arithmetic::div_mod::lemma_mod_bound(n as int, h as int);
                    assert(pre.idx(x as int, y as int) == n) by {
                        assert((n as int) == (h as int) * ((n as int) / (h as int)) + (n as int) % (
                        h as int));
                        assert((x as int) * (h as int) == (h as int) * (x as int)) by (nonlinear_arith);
                    }
                    assert((x as int) < pre.width()) by (nonlinear_arith)
                        requires
                            (x as int) * (h as int) + (y as int) == n as int,
                            0 <= (y as int) && (y as int) < (h as int),
                            (n as int) < pre.width() * (h as int),
                            h as int == pre.height(),
                            0 <= (x as int),
                    ;
                }
                let ghost prevd = diff@;
                diff.push((x, y, self.fields[n]));
                proof {
                    assert(diff@ == prevd.push((x, y, pre.cell(x as int, y as int))));
                    assert forall|m: int|
                        0 <= m < n + 1 && pre.changed_fields@[m] implies exists|k: int|
                            0 <= k < diff@.len() && pre.idx(
                                (#[trigger] diff@[k]).0 as int,
                                diff@[k].1 as int,
                            ) == m by {
                        if m < n {
                            let k0 = choose|k: int|
                                0 <= k < prevd.len() && pre.idx(
                                    (#[trigger] prevd[k]).0 as int,
                                    prevd[k].1 as int,
                                ) == m;
                            assert(diff@[k0] == prevd[k0]);
                        } else {
                            assert(diff@[diff@.len() - 1] == (x, y, pre.cell(x as int, y as int)));
                        }
                    }
                }
            }
            self.changed_fields[n] = false;
            n = n + 1;
        }
        proof {
            assert forall|a: int, b: int|
                pre.in_bounds(a, b) && pre.changed_at(a, b) implies exists|k: int|
                    0 <= k < diff@.len() && #[trigger] diff@[k] == (
                    a as usize,
                    b as usize,
                    pre.cell(a, b),
                ) by {
                pre.lemma_idx(a, b);
                let m = pre.idx(a, b);
                assert(pre.changed_fields@[m]);
                let k0 = choose|k: int|
                    0 <= k < diff@.len() && pre.idx(
                        (#[trigger] diff@[k]).0 as int,
                        diff@[k].1 as int,
                    ) == m;
                let e = diff@[k0];
                assert(pre.in_bounds(e.0 as int, e.1 as int));
                assert(e.0 as int == a && e.1 as int == b);
                assert(e == (a as usize, b as usize, pre.cell(a, b)));
            }
            assert(Board::same_structure(pre, *self));
            Board::lemma_same_structure_wf(pre, *self);
        }
        diff
    }

    /// The completion percentage, between 0 and 100.
    pub fn calculate_done_percentage(&self) -> (r: u32)
        requires
            self.wf(),
        ensures
            r == self.spec_percentage(),
            r <= 100,
    {
        proof {
            self.lemma_counters();
        }
        let denom = self.total_fields - self.mine_count;
        if denom == 0 {
            0
        } else {
            let p = ((self.open_fields as u128) * 100) / (denom as u128);
            proof {
                let o = self.open_fields as int;
                let d = denom as int;
                assert(o <= d);
                assert(o * 100 <= d * 100) by (nonlinear_arith)
                    requires o <= d;
                vstd::arithmetic::div_mod::lemma_div_is_ordered(o * 100, d * 100, d);
                vstd::arithmetic::div_mod::lemma_div_by_multiple(100, d);
            }
            p as u32
        }
    }

    /// What one open does.  Exactly the closed cells reachable from
    /// `(x, y)` through zero-adjacency non-mined cells become Open and
    /// dirty: they change monotonically (clauses 2 and 3), everything
    /// reached is opened and cascades are saturated (clauses 4 to 6), and
    /// nothing beyond the reachable set is touched (clauses 5 and 7, the
    /// changed set being contained in every expansion-closed set around
    /// the clicked cell).
    pub open spec fn open_post(pre: Board, post: Board, x: int, y: int) -> bool {
        &&& Board::same_structure(pre, post)
        &&& forall|i: int, j: int|
            pre.in_bounds(i, j) && #[trigger] cell_changed(pre, post, i, j) ==> pre.cell(
                i,
                j,
            ).field_state == FieldState::Closed && post.cell(i, j).field_state
                == FieldState::Open
        &&& forall|n: int|
            0 <= n < pre.changed_fields@.len() ==> #[trigger] post.changed_fields@[n] == (
            pre.changed_fields@[n] || post.fields@[n] != pre.fields@[n])
        &&& (pre.cell(x, y).field_state == FieldState::Closed ==> post.cell(x, y).field_state
            == FieldState::Open)
        &&& (pre.cell(x, y).field_state != FieldState::Closed ==> post == pre)
        &&& ((pre.cell(x, y).mine || pre.cell(x, y).value != 0) ==> forall|i: int, j: int|
            pre.in_bounds(i, j) && !(i == x && j == y) ==> #[trigger] post.cell(i, j) == pre.cell(
                i,
                j,
            ))
        &&& forall|i: int, j: int, ni: int, nj: int|
            #![trigger cell_changed(pre, post, i, j), post.cell(ni, nj)]
            pre.in_bounds(i, j) && cell_changed(pre, post, i, j) && !pre.cell(i, j).mine
                && pre.cell(i, j).value == 0 && is_neighbor(i, j, ni, nj) && pre.in_bounds(ni, nj)
                ==> post.cell(ni, nj).field_state != FieldState::Closed
        &&& forall|s: Set<(int, int)>|
            #![trigger expansion_closed(pre, s)]
            expansion_closed(pre, s) && s.contains((x, y)) ==> forall|i: int, j: int|
                pre.in_bounds(i, j) && #[trigger] cell_changed(pre, post, i, j) ==> s.contains(
                    (i, j),
                )
    }

    /// Opens `(x, y)` and all its dirty bookkeeping in one step: the cell
    /// becomes Open, its dirty bit is set, and the progress counter moves
    /// if it is not mined.
    fn mark_open(&mut self, x: usize, y: usize)
        requires
            old(self).wf(),
            old(self).in_bounds(x as int, y as int),
            old(self).cell(x as int, y as int).field_state == FieldState::Closed,
        ensures
            final(self).wf(),
            Board::same_structure(*old(self), *final(self)),
            final(self).cell(x as int, y as int).field_state == FieldState::Open,
            final(self).changed_at(x as int, y as int),
            forall|n: int|
                0 <= n < old(self).fields@.len() && n != old(self).idx(x as int, y as int)
                    ==> #[trigger] final(self).fields@[n] == old(self).fields@[n],
            forall|n: int|
                0 <= n < old(self).changed_fields@.len() && n != old(self).idx(x as int, y as int)
                    ==> #[trigger] final(self).changed_fields@[n] == old(self).changed_fields@[n],
    {
        proof {
            self.lemma_idx(x as int, y as int);
        }
        let h = self.metadata.y_size as usize;
        let n = self.fields.len();
        assert(x * h + y < n);
        let i = x * h + y;
        let f = self.fields[i];
        let g = Field { value: f.value, field_state: FieldState::Open, mine: f.mine };
        let ghost pre = *self;
        self.fields[i] = g;
        self.changed_fields[i] = true;
        proof {
            lemma_count_update(pre.fields@, i as int, g, |c: Field| is_counted_open(c));
            lemma_count_update(pre.fields@, i as int, g, |c: Field| is_mine_cell(c));
            lemma_count_bounds(self.fields@, |c: Field| is_counted_open(c));
        }
        if !f.mine {
            self.open_fields = self.open_fields + 1;
        }
        proof {
            let post = *self;
            assert(post.fields@ == pre.fields@.update(i as int, g));
            assert(Board::same_structure(pre, post));
            Board::lemma_same_structure_wf(pre, post);
        }
    }

    /// Pushes `(nx, ny)` onto the worklist if it is an in-bounds, still
    /// closed cell; leaves the worklist alone otherwise.  The entries
    /// already queued stay at their positions.
    fn push_if_closed(&self, work: &mut Vec<(usize, usize)>, nx: i64, ny: i64)
        requires
            self.wf(),
        ensures
            old(work)@.len() <= final(work)@.len() <= old(work)@.len() + 1,
            forall|k: int| 0 <= k < old(work)@.len() ==> #[trigger] final(work)@[k] == old(work)@[k],
            forall|k: int|
                old(work)@.len() <= k < final(work)@.len() ==> #[trigger] final(work)@[k] == (
                nx as usize,
                ny as usize,
                ) && self.in_bounds(nx as int, ny as int) && self.cell(
                    nx as int,
                    ny as int,
                ).field_state == FieldState::Closed,
            self.in_bounds(nx as int, ny as int) && self.cell(nx as int, ny as int).field_state
                == FieldState::Closed ==> final(work)@.len() == old(work)@.len() + 1,
    {
        if nx >= 0 && ny >= 0 && nx < self.metadata.x_size as i64 && ny < self.metadata.y_size
            as i64 {
            let ux = nx as usize;
            let uy = ny as usize;
            if self.field_at(ux, uy).field_state == FieldState::Closed {
                work.push((ux, uy));
            }
        }
    }

    /// Queues every in-bounds, still closed Moore neighbor of `(cx, cy)`,
    /// and nothing else; existing entries stay put.
    #[verifier::rlimit(100)]
    fn push_closed_neighbors(&self, work: &mut Vec<(usize, usize)>, cx: usize, cy: usize)
        requires
            self.wf(),
            self.in_bounds(cx as int, cy as int),
        ensures
            old(work)@.len() <= final(work)@.len(),
            forall|k: int| 0 <= k < old(work)@.len() ==> #[trigger] final(work)@[k] == old(work)@[k],
            forall|k: int|
                old(work)@.len() <= k < final(work)@.len() ==> {
                    let e = #[trigger] final(work)@[k];
                    &&& self.in_bounds(e.0 as int, e.1 as int)
                    &&& is_neighbor(cx as int, cy as int, e.0 as int, e.1 as int)
                    &&& self.cell(e.0 as int, e.1 as int).field_state == FieldState::Closed
                },
            forall|ni: int, nj: int|
                is_neighbor(cx as int, cy as int, ni, nj) && self.in_bounds(ni, nj) && self.cell(
                    ni,
                    nj,
                ).field_state == FieldState::Closed ==> exists|k: int|
                    0 <= k < final(work)@.len() && #[trigger] final(work)@[k] == (
                    ni as usize,
                    nj as usize,
                ),
    {
        let ix = cx as i64;
        let iy = cy as i64;
        let ghost w0 = work@;
        self.push_if_closed(work, ix - 1, iy - 1);
        let ghost w1 = work@;
        self.push_if_closed(work, ix - 1, iy);
        let ghost w2 = work@;
        self.push_if_closed(work, ix - 1, iy + 1);
        let ghost w3 = work@;
        self.push_if_closed(work, ix, iy - 1);
        let ghost w4 = work@;
        self.push_if_closed(work, ix, iy + 1);
        let ghost w5 = work@;
        self.push_if_closed(work, ix + 1, iy - 1);
        let ghost w6 = work@;
        self.push_if_closed(work, ix + 1, iy);
        let ghost w7 = work@;
        self.push_if_closed(work, ix + 1, iy + 1);
        proof {
            let wend = work@;
            assert(w0.len() <= w1.len() <= w2.len() <= w3.len() <= w4.len() <= w5.len() <= w6.len()
                <= w7.len() <= wend.len());
            assert(forall|k: int| 0 <= k < w1.len() ==> #[trigger] w2[k] == w1[k]);
            assert(forall|k: int| 0 <= k < w2.len() ==> #[trigger] w3[k] == w2[k]);
            assert(forall|k: int| 0 <= k < w3.len() ==> #[trigger] w4[k] == w3[k]);
            assert(forall|k: int| 0 <= k < w4.len() ==> #[trigger] w5[k] == w4[k]);
            assert(forall|k: int| 0 <= k < w5.len() ==> #[trigger] w6[k] == w5[k]);
            assert(forall|k: int| 0 <= k < w6.len() ==> #[trigger] w7[k] == w6[k]);
            assert(forall|k: int| 0 <= k < w7.len() ==> #[trigger] wend[k] == w7[k]);
            assert(forall|k: int| 0 <= k < w1.len() ==> #[trigger] wend[k] == w1[k]);
            assert(forall|k: int| 0 <= k < w2.len() ==> #[trigger] wend[k] == w2[k]);
            assert(forall|k: int| 0 <= k < w3.len() ==> #[trigger] wend[k] == w3[k]);
            assert(forall|k: int| 0 <= k < w4.len() ==> #[trigger] wend[k] == w4[k]);
            assert(forall|k: int| 0 <= k < w5.len() ==> #[trigger] wend[k] == w5[k]);
            assert(forall|k: int| 0 <= k < w6.len() ==> #[trigger] wend[k] == w6[k]);
            assert forall|ni: int, nj: int|
                is_neighbor(cx as int, cy as int, ni, nj) && self.in_bounds(ni, nj) && self.cell(
                    ni,
                    nj,
                ).field_state == FieldState::Closed implies exists|k: int|
                    0 <= k < wend.len() && #[trigger] wend[k] == (ni as usize, nj as usize) by {
                let e = (ni as usize, nj as usize);
                if ni == cx - 1 && nj == cy - 1 {
                    assert(w1[w1.len() - 1] == e);
                    assert(wend[w1.len() - 1] == e);
                } else if ni == cx - 1 && nj == cy {
                    assert(w2[w2.len() - 1] == e);
                    assert(wend[w2.len() - 1] == e);
                } else if ni == cx - 1 && nj == cy + 1 {
                    assert(w3[w3.len() - 1] == e);
                    assert(wend[w3.len() - 1] == e);
                } else if ni == cx && nj == cy - 1 {
                    assert(w4[w4.len() - 1] == e);
                    assert(wend[w4.len() - 1] == e);
                } else if ni == cx && nj == cy + 1 {
                    assert(w5[w5.len() - 1] == e);
                    assert(wend[w5.len() - 1] == e);
                } else if ni == cx + 1 && nj == cy - 1 {
                    assert(w6[w6.len() - 1] == e);
                    assert(wend[w6.len() - 1] == e);
                } else if ni == cx + 1 && nj == cy {
                    assert(w7[w7.len() - 1] == e);
                    assert(wend[w7.len() - 1] == e);
                } else {
                    assert(ni == cx + 1 && nj == cy + 1);
                    assert(wend[wend.len() - 1] == e);
                }
            }
        }
    }

    /// Opens the cell at `(x, y)`, with the reveal semantics of a replay:
    /// a no-op unless the cell is Closed; a mine or a numbered cell opens
    /// alone; a zero-adjacency cell cascades over a worklist until every
    /// reachable closed cell is open.  See [`Board::open_post`].
    #[verifier::rlimit(100)]
    #[verifier::spinoff_prover]
    pub fn open_field(&mut self, x: usize, y: usize)
        requires
            old(self).wf(),
            old(self).in_bounds(x as int, y as int),
        ensures
            final(self).wf(),
            Board::open_post(*old(self), *final(self), x as int, y as int),
    {
        let ghost pre = *self;
        proof {
            self.lemma_idx(x as int, y as int);
        }
        let f = self.field_at(x, y);
        if f.field_state != FieldState::Closed {
            proof {
                assert(Board::open_post(pre, *self, x as int, y as int)) by {
                    assert(forall|i: int, j: int| !cell_changed(pre, pre, i, j));
                }
            }
            return ;
        }
        self.mark_open(x, y);
        if f.mine || f.value > 0 {
            proof {
                lemma_open_single(pre, *self, x as int, y as int);
            }
            return ;
        }
        let mut work: Vec<(usize, usize)> = Vec::new();
        self.push_closed_neighbors(&mut work, x, y);
        proof {
            pre.lemma_idx(x as int, y as int);
            assert forall|i: int, j: int|
                pre.in_bounds(i, j) && #[trigger] cell_changed(pre, *self, i, j) implies pre.cell(
                i,
                j,
            ).field_state == FieldState::Closed && self.cell(i, j).field_state
                == FieldState::Open by {
                pre.lemma_idx(i, j);
            }
            assert forall|k: int|
                0 <= k < work@.len() implies {
                    let e = #[trigger] work@[k];
                    &&& pre.in_bounds(e.0 as int, e.1 as int)
                    &&& pre.cell(e.0 as int, e.1 as int).field_state == FieldState::Closed
                } by {
                let e = work@[k];
                pre.lemma_idx(e.0 as int, e.1 as int);
                assert(self.cell(e.0 as int, e.1 as int).field_state == FieldState::Closed);
                assert(!(e.0 as int == x as int && e.1 as int == y as int));
                assert(self.fields@[pre.idx(e.0 as int, e.1 as int)] == pre.fields@[pre.idx(
                    e.0 as int,
                    e.1 as int,
                )]);
            }
            assert forall|i: int, j: int, ni: int, nj: int|
                #![trigger cell_changed(pre, *self, i, j), is_neighbor(i, j, ni, nj)]
                pre.in_bounds(i, j) && cell_changed(pre, *self, i, j) && !pre.cell(i, j).mine
                    && pre.cell(i, j).value == 0 && is_neighbor(i, j, ni, nj) && pre.in_bounds(
                    ni,
                    nj,
                ) && self.cell(ni, nj).field_state == FieldState::Closed implies exists|k: int|
                    0 <= k < work@.len() && #[trigger] work@[k] == (ni as usize, nj as usize) by {
                pre.lemma_idx(i, j);
                assert(i == x as int && j == y as int);
                assert(self.in_bounds(ni, nj));
            }
            assert forall|s: Set<(int, int)>|
                expansion_closed(pre, s) && s.contains((x as int, y as int)) implies (forall|
                i: int,
                j: int,
            |
                pre.in_bounds(i, j) && #[trigger] cell_changed(pre, *self, i, j) ==> s.contains(
                    (i, j),
                )) && (forall|k: int|
                0 <= k < work@.len() ==> s.contains(
                    ((#[trigger] work@[k]).0 as int, work@[k].1 as int),
                )) by {
                assert forall|i: int, j: int|
                    pre.in_bounds(i, j) && #[trigger] cell_changed(pre, *self, i, j) implies s.contains(
                    (i, j),
                ) by {
                    pre.lemma_idx(i, j);
                    assert(i == x as int && j == y as int);
                }
                assert forall|k: int|
                    0 <= k < work@.len() implies s.contains(
                    ((#[trigger] work@[k]).0 as int, work@[k].1 as int),
                ) by {
                    let e = work@[k];
                    assert(is_neighbor(x as int, y as int, e.0 as int, e.1 as int));
                    assert(pre.in_bounds(e.0 as int, e.1 as int));
                    assert(pre.cell(e.0 as int, e.1 as int).field_state == FieldState::Closed);
                    assert(s.contains((x as int, y as int)));
                }
            }
        }
        while work.len() > 0
            invariant
                pre.wf(),
                self.wf(),
                pre.in_bounds(x as int, y as int),
                pre.cell(x as int, y as int).field_state == FieldState::Closed,
                !pre.cell(x as int, y as int).mine,
                pre.cell(x as int, y as int).value == 0,
                Board::same_structure(pre, *self),
                self.cell(x as int, y as int).field_state == FieldState::Open,
                forall|i: int, j: int|
                    pre.in_bounds(i, j) && #[trigger] cell_changed(pre, *self, i, j) ==> pre.cell(
                        i,
                        j,
                    ).field_state == FieldState::Closed && self.cell(i, j).field_state
                        == FieldState::Open,
                forall|n: int|
                    0 <= n < pre.changed_fields@.len() ==> #[trigger] self.changed_fields@[n] == (
                    pre.changed_fields@[n] || self.fields@[n] != pre.fields@[n]),
                forall|k: int|
                    0 <= k < work@.len() ==> {
                        let e = #[trigger] work@[k];
                        &&& pre.in_bounds(e.0 as int, e.1 as int)
                        &&& pre.cell(e.0 as int, e.1 as int).field_state == FieldState::Closed
                    },
                forall|i: int, j: int, ni: int, nj: int|
                    #![trigger cell_changed(pre, *self, i, j), is_neighbor(i, j, ni, nj)]
                    pre.in_bounds(i, j) && cell_changed(pre, *self, i, j) && !pre.cell(i, j).mine
                        && pre.cell(i, j).value == 0 && is_neighbor(i, j, ni, nj) && pre.in_bounds(
                        ni,
                        nj,
                    ) && self.cell(ni, nj).field_state == FieldState::Closed ==> exists|k: int|
                        0 <= k < work@.len() && #[trigger] work@[k] == (ni as usize, nj as usize),
                forall|s: Set<(int, int)>|
                    #![trigger expansion_closed(pre, s)]
                    expansion_closed(pre, s) && s.contains((x as int, y as int)) ==> (forall|
                        i: int,
                        j: int,
                    |
                        pre.in_bounds(i, j) && #[trigger] cell_changed(pre, *self, i, j)
                            ==> s.contains((i, j))) && (forall|k: int|
                        0 <= k < work@.len() ==> s.contains(
                            ((#[trigger] work@[k]).0 as int, work@[k].1 as int),
                        )),
            decreases
                    count_matching(self.fields@, |c: Field| c.field_state == FieldState::Closed),
                    work@.len(),
        {
            let ghost w_in = work@;
            let ghost b_in = *self;
            let c = work.pop().unwrap();
            let cx = c.0;
            let cy = c.1;
            proof {
                assert(c == w_in.last());
                assert(work@ == w_in.drop_last());
            }
            let f2 = self.field_at(cx, cy);
            if f2.field_state == FieldState::Closed {
                proof {
                    // A still closed cell is untouched so far, and so
                    // carries its original contents.
                    assert(!cell_changed(pre, b_in, cx as int, cy as int));
                    assert(pre.cell(cx as int, cy as int) == f2);
                }
                self.mark_open(cx, cy);
                proof {
                    pre.lemma_idx(cx as int, cy as int);
                    // For the termination measure: one closed cell fewer.
                    assert(self.fields@ =~= b_in.fields@.update(
                        pre.idx(cx as int, cy as int),
                        self.cell(cx as int, cy as int),
                    ));
                    lemma_count_update(
                        b_in.fields@,
                        pre.idx(cx as int, cy as int),
                        self.cell(cx as int, cy as int),
                        |cc: Field| cc.field_state == FieldState::Closed,
                    );
                    lemma_count_bounds(
                        self.fields@,
                        |cc: Field| cc.field_state == FieldState::Closed,
                    );
                    assert(count_matching(
                        self.fields@,
                        |cc: Field| cc.field_state == FieldState::Closed,
                    ) < count_matching(
                        b_in.fields@,
                        |cc: Field| cc.field_state == FieldState::Closed,
                    ));
                }
                if !f2.mine && f2.value == 0 {
                    self.push_closed_neighbors(&mut work, cx, cy);
                    proof {
                        open_field_cascade_invariants(
                            pre,
                            b_in,
                            *self,
                            w_in,
                            work@,
                            x as int,
                            y as int,
                            cx as int,
                            cy as int,
                        );
                    }
                } else {
                    proof {
                        open_field_no_cascade_invariants(
                            pre,
                            b_in,
                            *self,
                            w_in,
                            work@,
                            x as int,
                            y as int,
                            cx as int,
                            cy as int,
                        );
                    }
                }
            } else {
                proof {
                    open_field_skip_invariants(
                        pre,
                        b_in,
                        *self,
                        w_in,
                        work@,
                        x as int,
                        y as int,
                        cx as int,
                        cy as int,
                    );
                    lemma_count_bounds(
                        self.fields@,
                        |cc: Field| cc.field_state == FieldState::Closed,
                    );
                }
            }
        }
        proof {
            assert forall|i: int, j: int, ni: int, nj: int|
                #![trigger cell_changed(pre, *self, i, j), is_neighbor(i, j, ni, nj)]
                pre.in_bounds(i, j) && cell_changed(pre, *self, i, j) && !pre.cell(i, j).mine
                    && pre.cell(i, j).value == 0 && is_neighbor(i, j, ni, nj) && pre.in_bounds(
                    ni,
                    nj,
                ) implies self.cell(ni, nj).field_state != FieldState::Closed by {
                if self.cell(ni, nj).field_state == FieldState::Closed {
                    let k = choose|k: int|
                        0 <= k < work@.len() && #[trigger] work@[k] == (ni as usize, nj as usize);
                    assert(false);
                }
            }
        }
    }
}

/// A closed cell that is mined or has a positive adjacency count opens
/// alone: marking it open realises the whole opening contract.
proof fn lemma_open_single(pre: Board, post: Board, x: int, y: int)
    requires
        pre.wf(),
        post.wf(),
        pre.in_bounds(x, y),
        pre.cell(x, y).field_state == FieldState::Closed,
        pre.cell(x, y).mine || pre.cell(x, y).value != 0,
        Board::same_structure(pre, post),
        post.cell(x, y).field_state == FieldState::Open,
        post.changed_at(x, y),
        forall|n: int|
            0 <= n < pre.fields@.len() && n != pre.idx(x, y) ==> #[trigger] post.fields@[n]
                == pre.fields@[n],
        forall|n: int|
            0 <= n < pre.changed_fields@.len() && n != pre.idx(x, y)
                ==> #[trigger] post.changed_fields@[n] == pre.changed_fields@[n],
    ensures
        Board::open_post(pre, post, x, y),
{
    pre.lemma_idx(x, y);
    assert forall|i: int, j: int|
        pre.in_bounds(i, j) && #[trigger] cell_changed(pre, post, i, j) implies i == x && j
        == y by {
        pre.lemma_idx(i, j);
    }
    assert forall|n: int|
        0 <= n < pre.changed_fields@.len() implies #[trigger] post.changed_fields@[n] == (
    pre.changed_fields@[n] || post.fields@[n] != pre.fields@[n]) by {
        if n == pre.idx(x, y) {
            assert(post.fields@[n] == post.cell(x, y));
            assert(pre.fields@[n] == pre.cell(x, y));
            assert(post.fields@[n] != pre.fields@[n]);
        }
    }
    assert forall|i: int, j: int|
        pre.in_bounds(i, j) && !(i == x && j == y) implies #[trigger] post.cell(i, j) == pre.cell(
        i,
        j,
    ) by {
        if cell_changed(pre, post, i, j) {
        }
    }
}

/// Counting respects pointwise implication.
pub proof fn lemma_count_pointwise(s1: Seq<Field>, s2: Seq<Field>, p: spec_fn(Field) -> bool)
    requires
        s1.len() == s2.len(),
        forall|i: int| 0 <= i < s1.len() ==> p(#[trigger] s1[i]) ==> p(#[trigger] s2[i]),
    ensures
        count_matching(s1, p) <= count_matching(s2, p),
    decreases s1.len(),
{
    if s1.len() > 0 {
        assert(forall|i: int| 0 <= i < s1.len() - 1 ==> s1.drop_last()[i] == s1[i]);
        assert(forall|i: int| 0 <= i < s2.len() - 1 ==> s2.drop_last()[i] == s2[i]);
        lemma_count_pointwise(s1.drop_last(), s2.drop_last(), p);
        assert(s1.last() == s1[s1.len() - 1] && s2.last() == s2[s2.len() - 1]);
    }
}

/// On a board without mines every adjacency count is zero, and opening
/// any cell of the fully closed board opens the whole board in one call:
/// the cascade reaches every cell.
pub proof fn lemma_zero_mine_board_opens_fully(pre: Board, post: Board, x: int, y: int)
    requires
        pre.wf(),
        pre.mine_count == 0,
        forall|i: int, j: int|
            pre.in_bounds(i, j) ==> (#[trigger] pre.cell(i, j)).field_state == FieldState::Closed,
        pre.in_bounds(x, y),
        Board::open_post(pre, post, x, y),
    ensures
        forall|i: int, j: int|
            pre.in_bounds(i, j) ==> (#[trigger] pre.cell(i, j)).value == 0 && !pre.cell(
                i,
                j,
            ).mine,
        forall|i: int, j: int|
            pre.in_bounds(i, j) ==> (#[trigger] post.cell(i, j)).field_state == FieldState::Open,
{
    lemma_count_zero(pre.fields@, |f: Field| is_mine_cell(f));
    assert forall|i: int, j: int| pre.in_bounds(i, j) implies (#[trigger] pre.cell(
        i,
        j,
    )).value == 0 && !pre.cell(i, j).mine by {
        pre.lemma_idx(i, j);
        assert(!pre.fields@[pre.idx(i, j)].mine);
        assert forall|ni: int, nj: int| !(#[trigger] pre.mine_at(ni, nj)) by {
            if pre.in_bounds(ni, nj) {
                pre.lemma_idx(ni, nj);
                assert(!pre.fields@[pre.idx(ni, nj)].mine);
            }
        }
        assert(pre.adj_mines(i, j) == 0);
    }
    let w = pre.width();
    let h = pre.height();
    let dmax = if w > h {
        w
    } else {
        h
    };
    lemma_zero_spread(pre, post, x, y, dmax);
    assert forall|i: int, j: int| pre.in_bounds(i, j) implies (#[trigger] post.cell(
        i,
        j,
    )).field_state == FieldState::Open by {
        assert(-dmax <= i - x <= dmax && -dmax <= j - y <= dmax);
    }
}

/// On a mine-free, all-zero, all-closed board, every cell within
/// distance `d` of the opened cell ends up open.
proof fn lemma_zero_spread(pre: Board, post: Board, x: int, y: int, d: int)
    requires
        pre.wf(),
        forall|i: int, j: int|
            pre.in_bounds(i, j) ==> (#[trigger] pre.cell(i, j)).field_state == FieldState::Closed,
        forall|i: int, j: int|
            pre.in_bounds(i, j) ==> (#[trigger] pre.cell(i, j)).value == 0 && !pre.cell(
                i,
                j,
            ).mine,
        pre.in_bounds(x, y),
        Board::open_post(pre, post, x, y),
        d >= 0,
    ensures
        forall|i: int, j: int|
            pre.in_bounds(i, j) && -d <= i - x <= d && -d <= j - y <= d ==> (#[trigger] post.cell(
                i,
                j,
            )).field_state == FieldState::Open,
    decreases d,
{
    if d == 0 {
        assert(post.cell(x, y).field_state == FieldState::Open);
    } else {
        lemma_zero_spread(pre, post, x, y, d - 1);
        assert forall|i: int, j: int|
            pre.in_bounds(i, j) && -d <= i - x <= d && -d <= j - y <= d implies (
        #[trigger] post.cell(i, j)).field_state == FieldState::Open by {
            if -(d - 1) <= i - x <= d - 1 && -(d - 1) <= j - y <= d - 1 {
            } else {
                // A step towards the opened cell lands within d - 1.
                let ni = if i > x {
                    i - 1
                } else if i < x {
                    i + 1
                } else {
                    i
                };
                let nj = if j > y {
                    j - 1
                } else if j < y {
                    j + 1
                } else {
                    j
                };
                assert(pre.in_bounds(ni, nj));
                assert(-(d - 1) <= ni - x <= d - 1 && -(d - 1) <= nj - y <= d - 1);
                assert(post.cell(ni, nj).field_state == FieldState::Open);
                assert(cell_changed(pre, post, ni, nj));
                assert(is_neighbor(ni, nj, i, j));
                assert(post.cell(i, j).field_state != FieldState::Closed);
                assert(cell_changed(pre, post, i, j) || post.cell(i, j) == pre.cell(i, j));
            }
        }
    }
}

/// Opening never lowers the completion percentage: cells only move from
/// Closed to Open, so the opened count can only grow against a fixed
/// denominator.
pub proof fn lemma_percentage_monotone_open(pre: Board, post: Board, x: int, y: int)
    requires
        pre.wf(),
        post.wf(),
        Board::open_post(pre, post, x, y),
    ensures
        post.spec_percentage() >= pre.spec_percentage(),
{
    pre.lemma_counters();
    post.lemma_counters();
    let p = |f: Field| is_counted_open(f);
    assert(pre.fields@.len() == post.fields@.len());
    let h = pre.height();
    assert forall|n: int|
        0 <= n < pre.fields@.len() implies p(#[trigger] pre.fields@[n]) ==> p(
        #[trigger] post.fields@[n]) by {
        if p(pre.fields@[n]) && pre.fields@.len() > 0 {
            assert(h > 0) by {
                if h <= 0 {
                    assert(pre.width() * pre.height() <= 0) by (nonlinear_arith)
                        requires pre.height() <= 0 && pre.width() >= 0;
                }
            }
            let i = n / h;
            let j = n % h;
            vstd::arithmetic::div_mod::lemma_fundamental_div_mod(n, h);
            vstd::arithmetic::div_mod::lemma_mod_bound(n, h);
            assert(pre.idx(i, j) == n) by {
                assert(i * h == h * i) by (nonlinear_arith);
            }
            assert(pre.in_bounds(i, j)) by {
                assert(i < pre.width()) by (nonlinear_arith)
                    requires
                        i * h + j == n,
                        0 <= j < h,
                        n < pre.width() * h,
                        0 <= i,
                ;
            }
            if cell_changed(pre, post, i, j) {
                assert(pre.cell(i, j).field_state == FieldState::Closed);
            }
            assert(post.cell(i, j) == pre.cell(i, j));
        }
    }
    lemma_count_pointwise(pre.fields@, post.fields@, p);
    let q = |f: Field| is_mine_cell(f);
    assert forall|n: int|
        0 <= n < pre.fields@.len() implies (q(#[trigger] pre.fields@[n]) == q(
        #[trigger] post.fields@[n])) by {}
    lemma_count_pointwise(pre.fields@, post.fields@, q);
    lemma_count_pointwise(post.fields@, pre.fields@, q);
    assert(post.mine_count == pre.mine_count);
    assert(post.total_fields == pre.total_fields);
    let denom = pre.total_fields - pre.mine_count;
    if denom != 0 {
        assert(pre.open_fields * 100 <= post.open_fields * 100) by (nonlinear_arith)
            requires pre.open_fields <= post.open_fields;
        vstd::arithmetic::div_mod::lemma_div_is_ordered(
            pre.open_fields * 100,
            post.open_fields * 100,
            denom,
        );
    }
}

/// Shared step facts after one closed cell `(cx, cy)` was opened:
/// structure is preserved from the original board, the clicked cell is
/// still open, changes stay monotone, and the dirty mask tracks exactly
/// the cells that differ.
#[verifier::spinoff_prover]
#[verifier::rlimit(100)]
proof fn open_field_common_step(
    pre: Board,
    b_in: Board,
    b_out: Board,
    x: int,
    y: int,
    cx: int,
    cy: int,
)
    requires
        pre.wf(),
        b_in.wf(),
        b_out.wf(),
        pre.in_bounds(cx, cy),
        pre.in_bounds(x, y),
        pre.cell(cx, cy) == b_in.cell(cx, cy),
        pre.cell(cx, cy).field_state == FieldState::Closed,
        b_in.cell(x, y).field_state == FieldState::Open,
        Board::same_structure(pre, b_in),
        Board::same_structure(b_in, b_out),
        b_out.cell(cx, cy).field_state == FieldState::Open,
        b_out.changed_at(cx, cy),
        forall|n: int|
            0 <= n < b_in.fields@.len() && n != b_in.idx(cx, cy) ==> #[trigger] b_out.fields@[n]
                == b_in.fields@[n],
        forall|n: int|
            0 <= n < b_in.changed_fields@.len() && n != b_in.idx(cx, cy)
                ==> #[trigger] b_out.changed_fields@[n] == b_in.changed_fields@[n],
        forall|i: int, j: int|
            pre.in_bounds(i, j) && #[trigger] cell_changed(pre, b_in, i, j) ==> pre.cell(
                i,
                j,
            ).field_state == FieldState::Closed && b_in.cell(i, j).field_state
                == FieldState::Open,
        forall|n: int|
            0 <= n < pre.changed_fields@.len() ==> #[trigger] b_in.changed_fields@[n] == (
            pre.changed_fields@[n] || b_in.fields@[n] != pre.fields@[n]),
    ensures
        Board::same_structure(pre, b_out),
        b_out.cell(x, y).field_state == FieldState::Open,
        forall|i: int, j: int|
            pre.in_bounds(i, j) && !(i == cx && j == cy) ==> #[trigger] b_out.cell(i, j)
                == b_in.cell(i, j),
        forall|i: int, j: int|
            pre.in_bounds(i, j) && #[trigger] cell_changed(pre, b_out, i, j) ==> pre.cell(
                i,
                j,
            ).field_state == FieldState::Closed && b_out.cell(i, j).field_state
                == FieldState::Open,
        forall|n: int|
            0 <= n < pre.changed_fields@.len() ==> #[trigger] b_out.changed_fields@[n] == (
            pre.changed_fields@[n] || b_out.fields@[n] != pre.fields@[n]),
{
    pre.lemma_idx(cx, cy);
    pre.lemma_idx(x, y);
    assert(!(x == cx && y == cy));
    assert(b_out.fields@[pre.idx(x, y)] == b_in.fields@[pre.idx(x, y)]);
    assert forall|i: int, j: int|
        pre.in_bounds(i, j) && !(i == cx && j == cy) implies #[trigger] b_out.cell(i, j)
        == b_in.cell(i, j) by {
        pre.lemma_idx(i, j);
        assert(b_out.fields@[pre.idx(i, j)] == b_in.fields@[pre.idx(i, j)]);
    }
    assert forall|i: int, j: int|
        pre.in_bounds(i, j) && #[trigger] cell_changed(pre, b_out, i, j) implies pre.cell(
        i,
        j,
    ).field_state == FieldState::Closed && b_out.cell(i, j).field_state == FieldState::Open by {
        if !(i == cx && j == cy) {
            assert(b_out.cell(i, j) == b_in.cell(i, j));
            assert(cell_changed(pre, b_in, i, j));
        }
    }
    assert forall|n: int|
        0 <= n < pre.changed_fields@.len() implies #[trigger] b_out.changed_fields@[n] == (
    pre.changed_fields@[n] || b_out.fields@[n] != pre.fields@[n]) by {
        if n == pre.idx(cx, cy) {
            assert(b_out.changed_fields@[n]);
            assert(b_out.fields@[n] == b_out.cell(cx, cy));
            assert(pre.fields@[n] == pre.cell(cx, cy));
            assert(b_out.fields@[n] != pre.fields@[n]);
        } else {
            assert(b_out.changed_fields@[n] == b_in.changed_fields@[n]);
            assert(b_out.fields@[n] == b_in.fields@[n]);
        }
    }
}

/// Re-establishes the cascade loop's invariants after a popped closed
/// cell was opened without cascading: a mine, or a positive adjacency
/// count.
#[verifier::spinoff_prover]
#[verifier::rlimit(100)]
proof fn open_field_no_cascade_invariants(
    pre: Board,
    b_in: Board,
    b_out: Board,
    w_in: Seq<(usize, usize)>,
    w_out: Seq<(usize, usize)>,
    x: int,
    y: int,
    cx: int,
    cy: int,
)
    requires
        w_in.len() > 0,
        w_out == w_in.drop_last(),
        w_in.last() == ((cx as usize, cy as usize)),
        0 <= cx && 0 <= cy,
        pre.wf(),
        b_in.wf(),
        b_out.wf(),
        pre.in_bounds(cx, cy),
        pre.cell(cx, cy) == b_in.cell(cx, cy),
        pre.cell(cx, cy).field_state == FieldState::Closed,
        pre.cell(cx, cy).mine || pre.cell(cx, cy).value != 0,
        pre.in_bounds(x, y),
        b_in.cell(x, y).field_state == FieldState::Open,
        Board::same_structure(pre, b_in),
        Board::same_structure(b_in, b_out),
        b_out.cell(cx, cy).field_state == FieldState::Open,
        b_out.changed_at(cx, cy),
        forall|n: int|
            0 <= n < b_in.fields@.len() && n != b_in.idx(cx, cy) ==> #[trigger] b_out.fields@[n]
                == b_in.fields@[n],
        forall|n: int|
            0 <= n < b_in.changed_fields@.len() && n != b_in.idx(cx, cy)
                ==> #[trigger] b_out.changed_fields@[n] == b_in.changed_fields@[n],
        forall|n: int|
            0 <= n < pre.changed_fields@.len() ==> #[trigger] b_in.changed_fields@[n] == (
            pre.changed_fields@[n] || b_in.fields@[n] != pre.fields@[n]),
        forall|k: int|
            0 <= k < w_in.len() ==> {
                let e = #[trigger] w_in[k];
                &&& pre.in_bounds(e.0 as int, e.1 as int)
                &&& pre.cell(e.0 as int, e.1 as int).field_state == FieldState::Closed
            },
        forall|i: int, j: int|
            pre.in_bounds(i, j) && #[trigger] cell_changed(pre, b_in, i, j) ==> pre.cell(
                i,
                j,
            ).field_state == FieldState::Closed && b_in.cell(i, j).field_state
                == FieldState::Open,
        forall|i: int, j: int, ni: int, nj: int|
            #![trigger cell_changed(pre, b_in, i, j), is_neighbor(i, j, ni, nj)]
            pre.in_bounds(i, j) && cell_changed(pre, b_in, i, j) && !pre.cell(i, j).mine
                && pre.cell(i, j).value == 0 && is_neighbor(i, j, ni, nj) && pre.in_bounds(ni, nj)
                && b_in.cell(ni, nj).field_state == FieldState::Closed ==> exists|k: int|
                0 <= k < w_in.len() && #[trigger] w_in[k] == (ni as usize, nj as usize),
        forall|s: Set<(int, int)>|
            #![trigger expansion_closed(pre, s)]
            expansion_closed(pre, s) && s.contains((x, y)) ==> (forall|i: int, j: int|
                pre.in_bounds(i, j) && #[trigger] cell_changed(pre, b_in, i, j) ==> s.contains(
                    (i, j),
                )) && (forall|k: int|
                0 <= k < w_in.len() ==> s.contains(
                    ((#[trigger] w_in[k]).0 as int, w_in[k].1 as int),
                )),
    ensures
        Board::same_structure(pre, b_out),
        b_out.cell(x, y).field_state == FieldState::Open,
        forall|i: int, j: int|
            pre.in_bounds(i, j) && #[trigger] cell_changed(pre, b_out, i, j) ==> pre.cell(
                i,
                j,
            ).field_state == FieldState::Closed && b_out.cell(i, j).field_state
                == FieldState::Open,
        forall|n: int|
            0 <= n < pre.changed_fields@.len() ==> #[trigger] b_out.changed_fields@[n] == (
            pre.changed_fields@[n] || b_out.fields@[n] != pre.fields@[n]),
        forall|k: int|
            0 <= k < w_out.len() ==> {
                let e = #[trigger] w_out[k];
                &&& pre.in_bounds(e.0 as int, e.1 as int)
                &&& pre.cell(e.0 as int, e.1 as int).field_state == FieldState::Closed
            },
        forall|i: int, j: int, ni: int, nj: int|
            #![trigger cell_changed(pre, b_out, i, j), is_neighbor(i, j, ni, nj)]
            pre.in_bounds(i, j) && cell_changed(pre, b_out, i, j) && !pre.cell(i, j).mine
                && pre.cell(i, j).value == 0 && is_neighbor(i, j, ni, nj) && pre.in_bounds(ni, nj)
                && b_out.cell(ni, nj).field_state == FieldState::Closed ==> exists|k: int|
                0 <= k < w_out.len() && #[trigger] w_out[k] == (ni as usize, nj as usize),
        forall|s: Set<(int, int)>|
            #![trigger expansion_closed(pre, s)]
            expansion_closed(pre, s) && s.contains((x, y)) ==> (forall|i: int, j: int|
                pre.in_bounds(i, j) && #[trigger] cell_changed(pre, b_out, i, j) ==> s.contains(
                    (i, j),
                )) && (forall|k: int|
                0 <= k < w_out.len() ==> s.contains(
                    ((#[trigger] w_out[k]).0 as int, w_out[k].1 as int),
                )),
{
    open_field_common_step(pre, b_in, b_out, x, y, cx, cy);
    assert forall|k: int|
        0 <= k < w_out.len() implies {
            let e = #[trigger] w_out[k];
            &&& pre.in_bounds(e.0 as int, e.1 as int)
            &&& pre.cell(e.0 as int, e.1 as int).field_state == FieldState::Closed
        } by {
        assert(w_out[k] == w_in[k]);
    }
    assert forall|i: int, j: int, ni: int, nj: int|
        #![trigger cell_changed(pre, b_out, i, j), is_neighbor(i, j, ni, nj)]
        pre.in_bounds(i, j) && cell_changed(pre, b_out, i, j) && !pre.cell(i, j).mine && pre.cell(
            i,
            j,
        ).value == 0 && is_neighbor(i, j, ni, nj) && pre.in_bounds(ni, nj) && b_out.cell(
            ni,
            nj,
        ).field_state == FieldState::Closed implies exists|k: int|
            0 <= k < w_out.len() && #[trigger] w_out[k] == (ni as usize, nj as usize) by {
        assert(!(i == cx && j == cy));
        assert(b_out.cell(i, j) == b_in.cell(i, j));
        assert(cell_changed(pre, b_in, i, j));
        assert(!(ni == cx && nj == cy));
        assert(b_in.cell(ni, nj).field_state == FieldState::Closed);
        let k0 = choose|k: int|
            0 <= k < w_in.len() && #[trigger] w_in[k] == (ni as usize, nj as usize);
        if k0 == w_in.len() - 1 {
            assert(ni == cx && nj == cy);
            assert(false);
        } else {
            assert(w_out[k0] == (ni as usize, nj as usize));
        }
    }
    assert forall|s: Set<(int, int)>|
        expansion_closed(pre, s) && s.contains((x, y)) implies (forall|i: int, j: int|
            pre.in_bounds(i, j) && #[trigger] cell_changed(pre, b_out, i, j) ==> s.contains(
                (i, j),
            )) && (forall|k: int|
            0 <= k < w_out.len() ==> s.contains(
                ((#[trigger] w_out[k]).0 as int, w_out[k].1 as int),
            )) by {
        assert(s.contains((cx, cy))) by {
            assert(w_in[w_in.len() - 1] == ((cx as usize, cy as usize)));
        }
        assert forall|i: int, j: int|
            pre.in_bounds(i, j) && #[trigger] cell_changed(pre, b_out, i, j) implies s.contains(
            (i, j),
        ) by {
            if !(i == cx && j == cy) {
                assert(b_out.cell(i, j) == b_in.cell(i, j));
                assert(cell_changed(pre, b_in, i, j));
            }
        }
        assert(forall|k: int| 0 <= k < w_out.len() ==> w_out[k] == w_in[k]);
    }
}

/// Re-establishes the cascade loop's invariants after a popped closed
/// zero-adjacency cell was opened and its still closed neighbors were
/// queued.
#[verifier::spinoff_prover]
#[verifier::rlimit(100)]
proof fn open_field_cascade_invariants(
    pre: Board,
    b_in: Board,
    b_out: Board,
    w_in: Seq<(usize, usize)>,
    w_out: Seq<(usize, usize)>,
    x: int,
    y: int,
    cx: int,
    cy: int,
)
    requires
        w_in.len() > 0,
        w_in.last() == ((cx as usize, cy as usize)),
        0 <= cx && 0 <= cy,
        pre.wf(),
        b_in.wf(),
        b_out.wf(),
        pre.in_bounds(cx, cy),
        pre.cell(cx, cy) == b_in.cell(cx, cy),
        pre.cell(cx, cy).field_state == FieldState::Closed,
        !pre.cell(cx, cy).mine,
        pre.cell(cx, cy).value == 0,
        pre.in_bounds(x, y),
        b_in.cell(x, y).field_state == FieldState::Open,
        Board::same_structure(pre, b_in),
        Board::same_structure(b_in, b_out),
        b_out.cell(cx, cy).field_state == FieldState::Open,
        b_out.changed_at(cx, cy),
        forall|n: int|
            0 <= n < b_in.fields@.len() && n != b_in.idx(cx, cy) ==> #[trigger] b_out.fields@[n]
                == b_in.fields@[n],
        forall|n: int|
            0 <= n < b_in.changed_fields@.len() && n != b_in.idx(cx, cy)
                ==> #[trigger] b_out.changed_fields@[n] == b_in.changed_fields@[n],
        forall|n: int|
            0 <= n < pre.changed_fields@.len() ==> #[trigger] b_in.changed_fields@[n] == (
            pre.changed_fields@[n] || b_in.fields@[n] != pre.fields@[n]),
        // The worklist: the popped entry went, the rest stayed, and the
        // still closed neighbors of the opened cell came in.
        w_in.len() - 1 <= w_out.len(),
        forall|k: int| 0 <= k < w_in.len() - 1 ==> #[trigger] w_out[k] == w_in[k],
        forall|k: int|
            w_in.len() - 1 <= k < w_out.len() ==> {
                let e = #[trigger] w_out[k];
                &&& b_out.in_bounds(e.0 as int, e.1 as int)
                &&& is_neighbor(cx, cy, e.0 as int, e.1 as int)
                &&& b_out.cell(e.0 as int, e.1 as int).field_state == FieldState::Closed
            },
        forall|ni: int, nj: int|
            is_neighbor(cx, cy, ni, nj) && b_out.in_bounds(ni, nj) && b_out.cell(
                ni,
                nj,
            ).field_state == FieldState::Closed ==> exists|k: int|
                0 <= k < w_out.len() && #[trigger] w_out[k] == (ni as usize, nj as usize),
        forall|i: int, j: int|
            pre.in_bounds(i, j) && #[trigger] cell_changed(pre, b_in, i, j) ==> pre.cell(
                i,
                j,
            ).field_state == FieldState::Closed && b_in.cell(i, j).field_state
                == FieldState::Open,
        forall|k: int|
            0 <= k < w_in.len() ==> {
                let e = #[trigger] w_in[k];
                &&& pre.in_bounds(e.0 as int, e.1 as int)
                &&& pre.cell(e.0 as int, e.1 as int).field_state == FieldState::Closed
            },
        forall|i: int, j: int, ni: int, nj: int|
            #![trigger cell_changed(pre, b_in, i, j), is_neighbor(i, j, ni, nj)]
            pre.in_bounds(i, j) && cell_changed(pre, b_in, i, j) && !pre.cell(i, j).mine
                && pre.cell(i, j).value == 0 && is_neighbor(i, j, ni, nj) && pre.in_bounds(ni, nj)
                && b_in.cell(ni, nj).field_state == FieldState::Closed ==> exists|k: int|
                0 <= k < w_in.len() && #[trigger] w_in[k] == (ni as usize, nj as usize),
        forall|s: Set<(int, int)>|
            #![trigger expansion_closed(pre, s)]
            expansion_closed(pre, s) && s.contains((x, y)) ==> (forall|i: int, j: int|
                pre.in_bounds(i, j) && #[trigger] cell_changed(pre, b_in, i, j) ==> s.contains(
                    (i, j),
                )) && (forall|k: int|
                0 <= k < w_in.len() ==> s.contains(
                    ((#[trigger] w_in[k]).0 as int, w_in[k].1 as int),
                )),
    ensures
        Board::same_structure(pre, b_out),
        b_out.cell(x, y).field_state == FieldState::Open,
        forall|i: int, j: int|
            pre.in_bounds(i, j) && #[trigger] cell_changed(pre, b_out, i, j) ==> pre.cell(
                i,
                j,
            ).field_state == FieldState::Closed && b_out.cell(i, j).field_state
                == FieldState::Open,
        forall|n: int|
            0 <= n < pre.changed_fields@.len() ==> #[trigger] b_out.changed_fields@[n] == (
            pre.changed_fields@[n] || b_out.fields@[n] != pre.fields@[n]),
        forall|k: int|
            0 <= k < w_out.len() ==> {
                let e = #[trigger] w_out[k];
                &&& pre.in_bounds(e.0 as int, e.1 as int)
                &&& pre.cell(e.0 as int, e.1 as int).field_state == FieldState::Closed
            },
        forall|i: int, j: int, ni: int, nj: int|
            #![trigger cell_changed(pre, b_out, i, j), is_neighbor(i, j, ni, nj)]
            pre.in_bounds(i, j) && cell_changed(pre, b_out, i, j) && !pre.cell(i, j).mine
                && pre.cell(i, j).value == 0 && is_neighbor(i, j, ni, nj) && pre.in_bounds(ni, nj)
                && b_out.cell(ni, nj).field_state == FieldState::Closed ==> exists|k: int|
                0 <= k < w_out.len() && #[trigger] w_out[k] == (ni as usize, nj as usize),
        forall|s: Set<(int, int)>|
            #![trigger expansion_closed(pre, s)]
            expansion_closed(pre, s) && s.contains((x, y)) ==> (forall|i: int, j: int|
                pre.in_bounds(i, j) && #[trigger] cell_changed(pre, b_out, i, j) ==> s.contains(
                    (i, j),
                )) && (forall|k: int|
                0 <= k < w_out.len() ==> s.contains(
                    ((#[trigger] w_out[k]).0 as int, w_out[k].1 as int),
                )),
{
    open_field_common_step(pre, b_in, b_out, x, y, cx, cy);
    // New worklist entries were closed before this call began.
    assert forall|k: int|
        0 <= k < w_out.len() implies {
            let e = #[trigger] w_out[k];
            &&& pre.in_bounds(e.0 as int, e.1 as int)
            &&& pre.cell(e.0 as int, e.1 as int).field_state == FieldState::Closed
        } by {
        let e = w_out[k];
        if k < w_in.len() - 1 {
            assert(w_out[k] == w_in[k]);
        } else {
            let ei = e.0 as int;
            let ej = e.1 as int;
            assert(!(ei == cx && ej == cy));
            assert(b_out.cell(ei, ej) == b_in.cell(ei, ej));
            assert(b_in.cell(ei, ej).field_state == FieldState::Closed);
            if cell_changed(pre, b_in, ei, ej) {
                assert(b_in.cell(ei, ej).field_state == FieldState::Open);
            }
        }
    }
    assert forall|i: int, j: int, ni: int, nj: int|
        #![trigger cell_changed(pre, b_out, i, j), is_neighbor(i, j, ni, nj)]
        pre.in_bounds(i, j) && cell_changed(pre, b_out, i, j) && !pre.cell(i, j).mine && pre.cell(
            i,
            j,
        ).value == 0 && is_neighbor(i, j, ni, nj) && pre.in_bounds(ni, nj) && b_out.cell(
            ni,
            nj,
        ).field_state == FieldState::Closed implies exists|k: int|
            0 <= k < w_out.len() && #[trigger] w_out[k] == (ni as usize, nj as usize) by {
        assert(!(ni == cx && nj == cy));
        if i == cx && j == cy {
            assert(b_out.in_bounds(ni, nj));
        } else {
            assert(b_out.cell(i, j) == b_in.cell(i, j));
            assert(cell_changed(pre, b_in, i, j));
            assert(b_out.cell(ni, nj) == b_in.cell(ni, nj));
            assert(b_in.cell(ni, nj).field_state == FieldState::Closed);
            let k0 = choose|k: int|
                0 <= k < w_in.len() && #[trigger] w_in[k] == (ni as usize, nj as usize);
            if k0 == w_in.len() - 1 {
                assert(ni == cx && nj == cy);
                assert(false);
            } else {
                assert(w_out[k0] == (ni as usize, nj as usize));
            }
        }
    }
    assert forall|s: Set<(int, int)>|
        expansion_closed(pre, s) && s.contains((x, y)) implies (forall|i: int, j: int|
            pre.in_bounds(i, j) && #[trigger] cell_changed(pre, b_out, i, j) ==> s.contains(
                (i, j),
            )) && (forall|k: int|
            0 <= k < w_out.len() ==> s.contains(
                ((#[trigger] w_out[k]).0 as int, w_out[k].1 as int),
            )) by {
        assert(s.contains((cx, cy))) by {
            assert(w_in[w_in.len() - 1] == ((cx as usize, cy as usize)));
        }
        assert forall|i: int, j: int|
            pre.in_bounds(i, j) && #[trigger] cell_changed(pre, b_out, i, j) implies s.contains(
            (i, j),
        ) by {
            if !(i == cx && j == cy) {
                assert(b_out.cell(i, j) == b_in.cell(i, j));
                assert(cell_changed(pre, b_in, i, j));
            }
        }
        assert forall|k: int|
            0 <= k < w_out.len() implies s.contains(
            ((#[trigger] w_out[k]).0 as int, w_out[k].1 as int),
        ) by {
            let e = w_out[k];
            let ei = e.0 as int;
            let ej = e.1 as int;
            if k < w_in.len() - 1 {
                assert(w_out[k] == w_in[k]);
            } else {
                assert(is_neighbor(cx, cy, ei, ej));
                assert(!(ei == cx && ej == cy));
                assert(b_out.cell(ei, ej) == b_in.cell(ei, ej));
                if cell_changed(pre, b_in, ei, ej) {
                    assert(b_in.cell(ei, ej).field_state == FieldState::Open);
                }
                assert(pre.cell(ei, ej).field_state == FieldState::Closed);
                assert(s.contains((ei, ej)));
            }
        }
    }
}

/// Re-establishes the cascade loop's invariants after a popped cell was
/// found already non-closed and simply dropped.
#[verifier::spinoff_prover]
#[verifier::rlimit(100)]
proof fn open_field_skip_invariants(
    pre: Board,
    b_in: Board,
    b_out: Board,
    w_in: Seq<(usize, usize)>,
    w_out: Seq<(usize, usize)>,
    x: int,
    y: int,
    cx: int,
    cy: int,
)
    requires
        b_out == b_in,
        w_in.len() > 0,
        w_out == w_in.drop_last(),
        w_in.last() == ((cx as usize, cy as usize)),
        0 <= cx && 0 <= cy,
        b_in.wf(),
        pre.wf(),
        pre.in_bounds(cx, cy),
        b_in.cell(cx, cy).field_state != FieldState::Closed,
        Board::same_structure(pre, b_in),
        forall|k: int|
            0 <= k < w_in.len() ==> {
                let e = #[trigger] w_in[k];
                &&& pre.in_bounds(e.0 as int, e.1 as int)
                &&& pre.cell(e.0 as int, e.1 as int).field_state == FieldState::Closed
            },
        forall|i: int, j: int, ni: int, nj: int|
            #![trigger cell_changed(pre, b_in, i, j), is_neighbor(i, j, ni, nj)]
            pre.in_bounds(i, j) && cell_changed(pre, b_in, i, j) && !pre.cell(i, j).mine
                && pre.cell(i, j).value == 0 && is_neighbor(i, j, ni, nj) && pre.in_bounds(ni, nj)
                && b_in.cell(ni, nj).field_state == FieldState::Closed ==> exists|k: int|
                0 <= k < w_in.len() && #[trigger] w_in[k] == (ni as usize, nj as usize),
        forall|s: Set<(int, int)>|
            #![trigger expansion_closed(pre, s)]
            expansion_closed(pre, s) && s.contains((x, y)) ==> (forall|i: int, j: int|
                pre.in_bounds(i, j) && #[trigger] cell_changed(pre, b_in, i, j) ==> s.contains(
                    (i, j),
                )) && (forall|k: int|
                0 <= k < w_in.len() ==> s.contains(
                    ((#[trigger] w_in[k]).0 as int, w_in[k].1 as int),
                )),
    ensures
        forall|k: int|
            0 <= k < w_out.len() ==> {
                let e = #[trigger] w_out[k];
                &&& pre.in_bounds(e.0 as int, e.1 as int)
                &&& pre.cell(e.0 as int, e.1 as int).field_state == FieldState::Closed
            },
        forall|i: int, j: int, ni: int, nj: int|
            #![trigger cell_changed(pre, b_out, i, j), is_neighbor(i, j, ni, nj)]
            pre.in_bounds(i, j) && cell_changed(pre, b_out, i, j) && !pre.cell(i, j).mine
                && pre.cell(i, j).value == 0 && is_neighbor(i, j, ni, nj) && pre.in_bounds(ni, nj)
                && b_out.cell(ni, nj).field_state == FieldState::Closed ==> exists|k: int|
                0 <= k < w_out.len() && #[trigger] w_out[k] == (ni as usize, nj as usize),
        forall|s: Set<(int, int)>|
            #![trigger expansion_closed(pre, s)]
            expansion_closed(pre, s) && s.contains((x, y)) ==> (forall|i: int, j: int|
                pre.in_bounds(i, j) && #[trigger] cell_changed(pre, b_out, i, j) ==> s.contains(
                    (i, j),
                )) && (forall|k: int|
                0 <= k < w_out.len() ==> s.contains(
                    ((#[trigger] w_out[k]).0 as int, w_out[k].1 as int),
                )),
{
    assert forall|k: int|
        0 <= k < w_out.len() implies {
            let e = #[trigger] w_out[k];
            &&& pre.in_bounds(e.0 as int, e.1 as int)
            &&& pre.cell(e.0 as int, e.1 as int).field_state == FieldState::Closed
        } by {
        assert(w_out[k] == w_in[k]);
    }
    assert forall|i: int, j: int, ni: int, nj: int|
        #![trigger cell_changed(pre, b_out, i, j), is_neighbor(i, j, ni, nj)]
        pre.in_bounds(i, j) && cell_changed(pre, b_out, i, j) && !pre.cell(i, j).mine && pre.cell(
            i,
            j,
        ).value == 0 && is_neighbor(i, j, ni, nj) && pre.in_bounds(ni, nj) && b_out.cell(
            ni,
            nj,
        ).field_state == FieldState::Closed implies exists|k: int|
            0 <= k < w_out.len() && #[trigger] w_out[k] == (ni as usize, nj as usize) by {
        let k0 = choose|k: int|
            0 <= k < w_in.len() && #[trigger] w_in[k] == (ni as usize, nj as usize);
        if k0 == w_in.len() - 1 {
            assert(ni == cx && nj == cy);
            assert(false);
        } else {
            assert(w_out[k0] == (ni as usize, nj as usize));
        }
    }
    assert forall|s: Set<(int, int)>|
        expansion_closed(pre, s) && s.contains((x, y)) implies (forall|i: int, j: int|
            pre.in_bounds(i, j) && #[trigger] cell_changed(pre, b_out, i, j) ==> s.contains(
                (i, j),
            )) && (forall|k: int|
            0 <= k < w_out.len() ==> s.contains(
                ((#[trigger] w_out[k]).0 as int, w_out[k].1 as int),
            )) by {
        assert(expansion_closed(pre, s));
        assert(forall|k: int|
            0 <= k < w_out.len() ==> s.contains(((#[trigger] w_out[k]).0 as int, w_out[k].1 as int))) by {
            assert(forall|k: int| 0 <= k < w_out.len() ==> w_out[k] == w_in[k]);
        }
    }
}

} // verus!
