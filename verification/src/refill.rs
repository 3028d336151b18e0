//! Refilling the board: putting the circles of the preview on it and drawing
//! the next preview at random from the free cells.

use rand::rngs::ThreadRng;
use rand::Rng;
use vstd::prelude::*;
use crate::common::{grid_set, grid_wf, is_free, Grid, CELL_COUNT, CIRCLE_KINDS, EMPTY, FIELD_SIZE};
use crate::game_state::{
    free_count, is_nth_free, lemma_free_before_fill, preview_wf, CellState, FutureCircle,
    GameState,
};

verus! {

/// Why no preview could be drawn.
#[derive(Clone, Copy, Debug, PartialEq, Eq, Structural)]
pub enum SpawnError {
    /// The board has fewer free cells than the preview needs.
    InsufficientFreeCells,
}

/// The handle of `rand` to the random number generator of the running thread.
#[verifier::external_type_specification]
#[verifier::external_body]
pub struct ExThreadRng(ThreadRng);

/// Calls `rand::thread_rng`, which hands out the generator of the running thread.  Nothing is
/// claimed of the handle.  The call panics only if the operating system cannot seed the
/// generator, which no argument decides.
#[verifier::external_body]
fn thread_rng() -> (rng: ThreadRng) {
    rand::thread_rng()
}

/// Calls `rand::Rng::gen_range` on the half-open range from 0 to `bound`.  The method panics
/// on an empty range, which `requires` leaves out; all that is claimed of the value is that it
/// lies in the range.
#[verifier::external_body]
fn random_below(rng: &mut ThreadRng, bound: usize) -> (value: usize)
    requires
        bound > 0,
    ensures
        value < bound,
{
    rng.gen_range(0..bound)
}

/// The board after the first `k` circles of `batch` were put on it one after another, each
/// only if its cell was free when its turn came.
pub open spec fn committed(g: Grid, batch: Seq<FutureCircle>, k: int) -> Grid
    decreases k,
{
    if k <= 0 {
        g
    } else {
        let h = committed(g, batch, k - 1);
        let circle = batch[k - 1];
        if is_free(h, circle.pos()) {
            grid_set(h, circle.pos(), circle.kind as int)
        } else {
            h
        }
    }
}

/// Those of the first `k` circles of `batch` that were put on the board, in their order.
pub open spec fn written(g: Grid, batch: Seq<FutureCircle>, k: int) -> Seq<FutureCircle>
    decreases k,
{
    if k <= 0 {
        Seq::empty()
    } else {
        let rest = written(g, batch, k - 1);
        let circle = batch[k - 1];
        if is_free(committed(g, batch, k - 1), circle.pos()) {
            rest.push(circle)
        } else {
            rest
        }
    }
}

/// Putting circles on the board keeps it well formed, and every circle that was put takes one
/// free cell.
pub proof fn lemma_committed(g: Grid, batch: Seq<FutureCircle>, k: int)
    requires
        grid_wf(g),
        preview_wf(batch),
        0 <= k <= batch.len(),
    ensures
        grid_wf(committed(g, batch, k)),
        written(g, batch, k).len() <= k,
        free_count(committed(g, batch, k)) + written(g, batch, k).len() == free_count(g),
    decreases k,
{
    if k > 0 {
        lemma_committed(g, batch, k - 1);
        let h = committed(g, batch, k - 1);
        let circle = batch[k - 1];
        assert(circle.valid());
        if is_free(h, circle.pos()) {
            lemma_free_before_fill(h, circle.pos(), circle.kind as int, CELL_COUNT as int);
            let h1 = grid_set(h, circle.pos(), circle.kind as int);
            assert(h[circle.row as int].len() == FIELD_SIZE);
            assert forall|r: int, c: int|
                0 <= r < FIELD_SIZE && 0 <= c < FIELD_SIZE implies EMPTY <= #[trigger] h1[r][c]
                < CIRCLE_KINDS by {
                assert(EMPTY <= h[r][c] < CIRCLE_KINDS);
            }
            assert forall|r: int| 0 <= r < FIELD_SIZE implies (#[trigger] h1[r]).len()
                == FIELD_SIZE by {
                assert(h[r].len() == FIELD_SIZE);
            }
        }
    }
}

/// The list of the cell indices `0..n` after the first `k` steps of the shuffle that `draws`
/// steers: step `i` swaps the entries at `i` and at `i + draws[i]`.
pub open spec fn shuffled(n: nat, draws: Seq<usize>, k: int) -> Seq<usize>
    decreases k,
{
    if k <= 0 {
        Seq::new(n, |i: int| i as usize)
    } else {
        let prev = shuffled(n, draws, k - 1);
        let i = k - 1;
        let j = i + draws[i];
        prev.update(i, prev[j]).update(j, prev[i])
    }
}

/// Whether `draws` can steer a shuffle of `n` entries: step `i` picks among the entries from
/// `i` on.
pub open spec fn draws_fit(n: nat, draws: Seq<usize>) -> bool {
    forall|i: int| 0 <= i < draws.len() ==> i + #[trigger] draws[i] < n
}

/// Whether `batch` is the preview that `draws` and `kinds` give on the board `g`: circle `i`
/// has the colour `kinds[i]` and lies in the free cell whose number among the free cells is
/// entry `i` of the shuffled list.
pub open spec fn is_batch(
    g: Grid,
    draws: Seq<usize>,
    kinds: Seq<i32>,
    batch: Seq<FutureCircle>,
) -> bool {
    &&& batch.len() == draws.len()
    &&& forall|i: int|
        0 <= i < batch.len() ==> {
            let circle = #[trigger] batch[i];
            &&& circle.kind == kinds[i]
            &&& is_nth_free(
                g,
                shuffled(free_count(g), draws, draws.len() as int)[i] as int,
                circle.pos(),
            )
        }
}

/// Whether the entries of `s` are pairwise distinct numbers below `n`.
spec fn distinct_below(s: Seq<usize>, n: nat) -> bool {
    &&& s.len() == n
    &&& forall|i: int| 0 <= i < s.len() ==> #[trigger] s[i] < n
    &&& forall|i: int, j: int| 0 <= i < j < s.len() ==> #[trigger] s[i] != #[trigger] s[j]
}

/// A shuffle keeps the entries pairwise distinct and below `n`, and step `k` leaves the
/// entries before `k` alone.
proof fn lemma_shuffled(n: nat, draws: Seq<usize>, k: int)
    requires
        n <= CELL_COUNT,
        draws_fit(n, draws),
        0 <= k <= draws.len(),
    ensures
        distinct_below(shuffled(n, draws, k), n),
        forall|m: int, i: int|
            0 <= m <= k && 0 <= i < m ==> #[trigger] shuffled(n, draws, k)[i] == #[trigger] shuffled(
                n,
                draws,
                m,
            )[i],
    decreases k,
{
    if k > 0 {
        lemma_shuffled(n, draws, k - 1);
        let prev = shuffled(n, draws, k - 1);
        let now = shuffled(n, draws, k);
        let a = k - 1;
        let b = a + draws[a];
        assert(b < n);
        assert forall|i: int| 0 <= i < now.len() implies #[trigger] now[i] < n by {
            assert(prev[i] < n && prev[a] < n && prev[b] < n);
        }
        assert forall|i: int, j: int| 0 <= i < j < now.len() implies #[trigger] now[i]
            != #[trigger] now[j] by {
            let i0 = if i == a {
                b
            } else if i == b {
                a
            } else {
                i
            };
            let j0 = if j == a {
                b
            } else if j == b {
                a
            } else {
                j
            };
            assert(now[i] == prev[i0] && now[j] == prev[j0]);
            if i0 < j0 {
                assert(prev[i0] != prev[j0]);
            } else {
                assert(prev[j0] != prev[i0]);
            }
        }
        assert forall|m: int, i: int| 0 <= m <= k && 0 <= i < m implies #[trigger] now[i]
            == #[trigger] shuffled(n, draws, m)[i] by {
            if m < k {
                assert(now[i] == prev[i]);
                assert(prev[i] == shuffled(n, draws, m)[i]);
            }
        }
    }
}

impl GameState {
    /// Puts the circles of the preview on the board, one after another, each only if its cell
    /// is free when its turn comes; a circle whose cell is taken is passed over.  The result
    /// lists the circles that were put.  The preview itself stays as it is.
    pub fn commit_future_circles(&mut self) -> (put: Vec<FutureCircle>)
        requires
            old(self).wf(),
        ensures
            final(self).wf(),
            final(self).future_circles == old(self).future_circles,
            final(self)@ == committed(
                old(self)@,
                old(self).future_circles@,
                old(self).future_circles@.len() as int,
            ),
            put@ == written(
                old(self)@,
                old(self).future_circles@,
                old(self).future_circles@.len() as int,
            ),
    {
        let mut put: Vec<FutureCircle> = Vec::new();
        let mut i: usize = 0;
        while i < self.future_circles.len()
            invariant
                self.wf(),
                self.future_circles == old(self).future_circles,
                i <= self.future_circles@.len(),
                self@ == committed(old(self)@, old(self).future_circles@, i as int),
                put@ == written(old(self)@, old(self).future_circles@, i as int),
            decreases self.future_circles@.len() - i,
        {
            let circle = self.future_circles[i];
            assert(circle.valid());
            if self.get((circle.row, circle.col)).is_empty() {
                self.set((circle.row, circle.col), CellState(circle.kind));
                put.push(circle);
            }
            i = i + 1;
        }
        put
    }

    /// Makes the preview that `draws` and `kinds` give: a shuffle of the numbers of the free
    /// cells that `draws` steers picks the cells, and `kinds` gives the colours.  The board is
    /// left as it is.  If the board has fewer free cells than `draws` has entries, the preview
    /// is left empty and the call fails.
    pub fn future_circles_from_draws(&mut self, draws: &Vec<usize>, kinds: &Vec<i32>) -> (result:
        Result<(), SpawnError>)
        requires
            old(self).wf(),
            draws@.len() == kinds@.len(),
            draws@.len() <= free_count(old(self)@) ==> draws_fit(free_count(old(self)@), draws@),
            forall|i: int| 0 <= i < kinds@.len() ==> 0 <= #[trigger] kinds@[i] < CIRCLE_KINDS,
        ensures
            final(self).wf(),
            final(self)@ == old(self)@,
            result is Err <==> draws@.len() > free_count(old(self)@),
            result is Err ==> final(self).future_circles@.len() == 0,
            result is Ok ==> is_batch(old(self)@, draws@, kinds@, final(self).future_circles@),
            result is Ok ==> forall|i: int|
                0 <= i < final(self).future_circles@.len() ==> is_free(
                    old(self)@,
                    (#[trigger] final(self).future_circles@[i]).pos(),
                ),
    {
        self.future_circles.clear();
        let free_cnt = self.get_free_count();
        let count = draws.len();
        if free_cnt < count {
            return Err(SpawnError::InsufficientFreeCells);
        }
        let ghost n = free_cnt as nat;
        let mut indices: Vec<usize> = Vec::new();
        let mut k: usize = 0;
        while k < free_cnt
            invariant
                k <= free_cnt,
                indices@.len() == k,
                forall|i: int| 0 <= i < k ==> #[trigger] indices@[i] == i,
            decreases free_cnt - k,
        {
            indices.push(k);
            k = k + 1;
        }
        proof {
            assert(indices@ =~= shuffled(n, draws@, 0));
        }
        let mut i: usize = 0;
        while i < count
            invariant
                n == free_cnt,
                count == draws@.len(),
                count <= free_cnt,
                draws_fit(n, draws@),
                i <= count,
                indices@ == shuffled(n, draws@, i as int),
                indices@.len() == n,
            decreases count - i,
        {
            let j = i + draws[i];
            let a = indices[i];
            let b = indices[j];
            indices.set(i, b);
            indices.set(j, a);
            i = i + 1;
        }
        proof {
            lemma_shuffled(n, draws@, count as int);
        }
        let mut batch: Vec<FutureCircle> = Vec::new();
        let mut i: usize = 0;
        while i < count
            invariant
                self.wf(),
                n == free_cnt,
                free_cnt == free_count(self@),
                count == draws@.len(),
                count == kinds@.len(),
                count <= free_cnt,
                i <= count,
                indices@ == shuffled(n, draws@, count as int),
                distinct_below(indices@, n),
                forall|m: int| 0 <= m < kinds@.len() ==> 0 <= #[trigger] kinds@[m] < CIRCLE_KINDS,
                batch@.len() == i,
                forall|m: int|
                    0 <= m < i ==> {
                        let circle = #[trigger] batch@[m];
                        &&& circle.kind == kinds@[m]
                        &&& is_nth_free(self@, indices@[m] as int, circle.pos())
                    },
            decreases count - i,
        {
            let (row, col) = self.get_nth_free(indices[i]);
            batch.push(FutureCircle { kind: kinds[i], row, col });
            i = i + 1;
        }
        proof {
            assert forall|a: int, b: int| 0 <= a < b < batch@.len() implies (#[trigger] batch@[a]).pos()
                != (#[trigger] batch@[b]).pos() by {
                assert(indices@[a] != indices@[b]);
            }
            assert forall|m: int| 0 <= m < batch@.len() implies (#[trigger] batch@[m]).valid() by {
                assert(0 <= kinds@[m] < CIRCLE_KINDS);
            }
        }
        self.future_circles = batch;
        Ok(())
    }

    /// Draws the next preview: `count` circles of random colours in pairwise distinct free
    /// cells that are picked at random.  The board is left as it is.  If the board has fewer
    /// than `count` free cells, the preview is left empty and the call fails.
    pub fn random_future_circles(&mut self, count: usize) -> (result: Result<(), SpawnError>)
        requires
            old(self).wf(),
        ensures
            final(self).wf(),
            final(self)@ == old(self)@,
            result is Err <==> count > free_count(old(self)@),
            result is Err ==> final(self).future_circles@.len() == 0,
            result is Ok ==> final(self).future_circles@.len() == count,
            result is Ok ==> forall|i: int|
                0 <= i < final(self).future_circles@.len() ==> is_free(
                    old(self)@,
                    (#[trigger] final(self).future_circles@[i]).pos(),
                ),
            forall|i: int, j: int|
                0 <= i < j < final(self).future_circles@.len() ==> (
                #[trigger] final(self).future_circles@[i]).pos()
                    != (#[trigger] final(self).future_circles@[j]).pos(),
    {
        self.future_circles.clear();
        let free_cnt = self.get_free_count();
        if free_cnt < count {
            return Err(SpawnError::InsufficientFreeCells);
        }
        let mut rng = thread_rng();
        let mut draws: Vec<usize> = Vec::new();
        let mut kinds: Vec<i32> = Vec::new();
        let mut i: usize = 0;
        while i < count
            invariant
                count <= free_cnt,
                i <= count,
                draws@.len() == i,
                kinds@.len() == i,
                forall|m: int| 0 <= m < i ==> m + #[trigger] draws@[m] < free_cnt,
                forall|m: int| 0 <= m < i ==> 0 <= #[trigger] kinds@[m] < CIRCLE_KINDS,
            decreases count - i,
        {
            let draw = random_below(&mut rng, free_cnt - i);
            let kind = random_below(&mut rng, CIRCLE_KINDS as usize);
            draws.push(draw);
            kinds.push(kind as i32);
            i = i + 1;
        }
        self.future_circles_from_draws(&draws, &kinds)
    }
}

} // verus!
