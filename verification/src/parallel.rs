use vstd::prelude::*;
use vstd::arithmetic::div_mod::{
    lemma_fundamental_div_mod,
    lemma_fundamental_div_mod_converse,
    lemma_mod_bound,
};
use vstd::arithmetic::mul::{lemma_mul_inequality, lemma_mul_is_distributive_sub};

verus! {

/// `a / b` rounded up.
pub open spec fn div_ceil(a: int, b: int) -> int {
    (a + b - 1) / b
}

pub proof fn lemma_div_ceil(a: int, b: int)
    requires
        0 <= a,
        0 < b,
    ensures
        0 <= div_ceil(a, b),
        div_ceil(a, b) * b >= a,
        a > 0 ==> (div_ceil(a, b) - 1) * b < a && div_ceil(a, b) >= 1,
        a == 0 ==> div_ceil(a, b) == 0,
{
    let q = div_ceil(a, b);
    let r = (a + b - 1) % b;
    lemma_fundamental_div_mod(a + b - 1, b);
    lemma_mod_bound(a + b - 1, b);
    assert(a + b - 1 == b * q + r);
    assert(q * b == b * q) by (nonlinear_arith);
    assert((q - 1) * b == q * b - b) by (nonlinear_arith);
    if a == 0 {
        assert(0 * b == 0) by (nonlinear_arith);
        lemma_fundamental_div_mod_converse(a + b - 1, b, 0, b - 1);
    }
    if q < 0 {
        assert(q * b <= -b) by (nonlinear_arith)
            requires
                q <= -1,
                b > 0,
        ;
    }
}

/// `a / b` rounded up, computed without overflow.
pub fn div_ceil_usize(a: usize, b: usize) -> (q: usize)
    requires
        b > 0,
    ensures
        q == div_ceil(a as int, b as int),
{
    let d = a / b;
    let r = a % b;
    proof {
        lemma_fundamental_div_mod(a as int, b as int);
        lemma_mod_bound(a as int, b as int);
        if r == 0 {
            lemma_fundamental_div_mod_converse(a + b - 1, b as int, d as int, b - 1);
        } else {
            assert(a + b - 1 == b * (d + 1) + (r - 1)) by (nonlinear_arith)
                requires
                    a == b * d + r,
            ;
            lemma_fundamental_div_mod_converse(a + b - 1, b as int, d + 1, r - 1);
        }
        assert(d * b <= a) by (nonlinear_arith)
            requires
                a == b * d + r,
                r >= 0,
        ;
        if b >= 2 {
            assert(d < a || a == 0) by (nonlinear_arith)
                requires
                    a == b * d + r,
                    r >= 0,
                    b >= 2,
                    d >= 0,
            ;
        }
    }
    if r == 0 {
        d
    } else {
        d + 1
    }
}


/// How a one-dimensional buffer of `len` elements is cut into contiguous chunks, one task
/// per chunk: chunk `c` holds the elements `c * chunk_size ..` up to the next chunk or the end.
#[derive(Clone, Copy)]
pub struct ChunkPlan {
    pub chunk_size: usize,
    pub task_count: usize,
}

/// The plan for `len` elements on `workers` threads with `tasks_per_worker` tasks each.
pub open spec fn chunk_plan_spec(len: int, workers: int, tasks_per_worker: int) -> ChunkPlan {
    let size = div_ceil(len, workers * tasks_per_worker);
    let chunk_size = if size >= 1 {
        size
    } else {
        1
    };
    ChunkPlan { chunk_size: chunk_size as usize, task_count: div_ceil(len, chunk_size) as usize }
}

impl ChunkPlan {
    /// The plan cuts a buffer of `len` elements: chunks are non-empty and there are
    /// exactly enough of them to reach the end.
    pub open spec fn valid_for(self, len: int) -> bool {
        &&& self.chunk_size >= 1
        &&& self.task_count == div_ceil(len, self.chunk_size as int)
    }

    /// Chunk that holds element `x`.
    pub open spec fn chunk_of(self, x: int) -> int {
        x / (self.chunk_size as int)
    }

    /// First element of chunk `c`.
    pub open spec fn chunk_start(self, c: int) -> int {
        c * self.chunk_size
    }

    /// One past the last element of chunk `c` in a buffer of `len` elements.
    pub open spec fn chunk_end(self, c: int, len: int) -> int {
        if (c + 1) * self.chunk_size <= len {
            (c + 1) * self.chunk_size
        } else {
            len
        }
    }

    /// Number of elements of chunk `c`.
    pub fn chunk_len(&self, len: usize, chunk: usize) -> (n: usize)
        requires
            self.valid_for(len as int),
            chunk < self.task_count,
        ensures
            n == self.chunk_end(chunk as int, len as int) - self.chunk_start(chunk as int),
            n >= 1,
    {
        proof {
            lemma_plan_chunk_bounds(*self, len as int, chunk as int);
        }
        let start = chunk * self.chunk_size;
        assert((chunk + 1) * self.chunk_size == chunk * self.chunk_size + self.chunk_size)
            by (nonlinear_arith);
        if len - start >= self.chunk_size {
            self.chunk_size
        } else {
            len - start
        }
    }

    /// Position in the whole buffer of element `local` of chunk `chunk`.
    pub fn element_index(&self, len: usize, chunk: usize, local: usize) -> (x: usize)
        requires
            self.valid_for(len as int),
            chunk < self.task_count,
            local < self.chunk_end(chunk as int, len as int) - self.chunk_start(chunk as int),
        ensures
            x == chunk * self.chunk_size + local,
            x < len,
    {
        proof {
            lemma_plan_chunk_bounds(*self, len as int, chunk as int);
        }
        chunk * self.chunk_size + local
    }
}

/// Chunk `c` of a plan is a non-empty run inside the buffer.
proof fn lemma_plan_chunk_bounds(p: ChunkPlan, len: int, c: int)
    requires
        p.valid_for(len),
        0 <= len,
        0 <= c < p.task_count,
    ensures
        0 <= p.chunk_start(c) < p.chunk_end(c, len) <= len,
        p.chunk_size >= 1,
{
    assert(p.chunk_size >= 1);
    let cs = p.chunk_size as int;
    lemma_div_ceil(len, cs);
    assert(p.task_count == div_ceil(len, cs));
    assert(len > 0);
    lemma_mul_inequality(c, p.task_count - 1, cs);
    assert(0 <= c * cs) by (nonlinear_arith)
        requires
            0 <= c,
            0 <= cs,
    ;
    assert((c + 1) * cs == c * cs + cs) by (nonlinear_arith);
}

/// Cuts `len` elements into chunks for `workers` threads running `tasks_per_worker`
/// tasks each: chunks hold `len / (workers * tasks_per_worker)` elements rounded up
/// (at least one), and there is one task per chunk.
pub fn chunk_plan(len: usize, workers: usize, tasks_per_worker: usize) -> (p: ChunkPlan)
    requires
        workers >= 1,
        tasks_per_worker >= 1,
        workers * tasks_per_worker <= usize::MAX,
    ensures
        p == chunk_plan_spec(len as int, workers as int, tasks_per_worker as int),
{
    proof {
        assert(workers * tasks_per_worker >= 1) by (nonlinear_arith)
            requires
                workers >= 1,
                tasks_per_worker >= 1,
        ;
    }
    let size = div_ceil_usize(len, workers * tasks_per_worker);
    let chunk_size = if size >= 1 {
        size
    } else {
        1
    };
    let task_count = div_ceil_usize(len, chunk_size);
    ChunkPlan { chunk_size, task_count }
}

/// Chunks are as small as the task budget allows: `workers * tasks_per_worker` chunks of
/// the chosen size reach the end of the buffer, and chunks one element smaller would not.
pub proof fn lemma_chunk_plan_smallest(len: int, workers: int, tasks_per_worker: int)
    requires
        1 <= len <= usize::MAX,
        1 <= workers,
        1 <= tasks_per_worker,
    ensures
        ({
            let p = chunk_plan_spec(len, workers, tasks_per_worker);
            &&& p.chunk_size as int * (workers * tasks_per_worker) >= len
            &&& (p.chunk_size as int - 1) * (workers * tasks_per_worker) < len
        }),
{
    let n = workers * tasks_per_worker;
    assert(n >= 1) by (nonlinear_arith)
        requires
            n == workers * tasks_per_worker,
            workers >= 1,
            tasks_per_worker >= 1,
    ;
    lemma_div_ceil(len, n);
    let q = div_ceil(len, n);
    assert(q <= len) by (nonlinear_arith)
        requires
            (q - 1) * n < len,
            n >= 1,
            q >= 1,
    ;
}

/// The chunks of a plan split the buffer exactly: each is a non-empty run, each starts
/// where the previous one ends, the first starts at 0, the last ends at `len`, every
/// element lies in chunk `x / chunk_size`, and there are never more tasks than
/// `workers * tasks_per_worker`.
pub proof fn lemma_chunk_plan_partitions(len: int, workers: int, tasks_per_worker: int)
    requires
        0 <= len,
        1 <= workers,
        1 <= tasks_per_worker,
        workers * tasks_per_worker <= usize::MAX,
        len <= usize::MAX,
    ensures
        ({
            let p = chunk_plan_spec(len, workers, tasks_per_worker);
            &&& p.chunk_size >= 1
            &&& p.task_count <= workers * tasks_per_worker
            &&& len == 0 <==> p.task_count == 0
            &&& forall|c: int|
                0 <= c < p.task_count ==> 0 <= #[trigger] p.chunk_start(c) < p.chunk_end(c, len)
                    <= len
            &&& forall|c: int|
                0 <= c < p.task_count - 1 ==> #[trigger] p.chunk_end(c, len) == p.chunk_start(
                    c + 1,
                )
            &&& len > 0 ==> p.chunk_start(0) == 0 && p.chunk_end(p.task_count - 1, len) == len
            &&& p.valid_for(len)
            &&& forall|x: int|
                0 <= x < len ==> 0 <= #[trigger] p.chunk_of(x) < p.task_count && p.chunk_start(
                    p.chunk_of(x),
                ) <= x < p.chunk_end(p.chunk_of(x), len)
        }),
{
    let n = workers * tasks_per_worker;
    assert(workers * tasks_per_worker >= 1) by (nonlinear_arith)
        requires
            workers >= 1,
            tasks_per_worker >= 1,
    ;
    let p = chunk_plan_spec(len, workers, tasks_per_worker);
    lemma_div_ceil(len, n);
    let csi = if div_ceil(len, n) >= 1 {
        div_ceil(len, n)
    } else {
        1
    };
    assert(1 <= csi <= usize::MAX) by {
        if len > 0 {
            assert(div_ceil(len, n) * 1 <= div_ceil(len, n) * n) by (nonlinear_arith)
                requires
                    n >= 1,
                    div_ceil(len, n) >= 0,
            ;
            assert((div_ceil(len, n) - 1) * n < len);
            assert(div_ceil(len, n) <= len) by (nonlinear_arith)
                requires
                    (div_ceil(len, n) - 1) * n < len,
                    n >= 1,
                    div_ceil(len, n) >= 1,
            ;
        }
    }
    let cs = csi;
    assert(p.chunk_size == cs);
    lemma_div_ceil(len, cs);
    let tc = div_ceil(len, cs);
    assert(tc <= usize::MAX) by {
        if len > 0 {
            assert(tc <= len) by (nonlinear_arith)
                requires
                    (tc - 1) * cs < len,
                    cs >= 1,
                    tc >= 1,
            ;
        }
    }
    assert(p.task_count == tc);
    // fewer tasks than worker slots
    if len > 0 {
        let s = div_ceil(len, n);
        assert(s >= 1);
        assert(cs == s);
        assert(s * n >= len);
        assert(tc <= n) by (nonlinear_arith)
            requires
                (tc - 1) * cs < len,
                cs * n >= len,
                cs >= 1,
                tc >= 1,
                n >= 1,
        ;
    }
    assert forall|c: int| 0 <= c < p.task_count implies 0 <= #[trigger] p.chunk_start(c)
        < p.chunk_end(c, len) <= len by {
        lemma_plan_chunk_bounds(p, len, c);
    }
    assert forall|c: int| 0 <= c < p.task_count - 1 implies #[trigger] p.chunk_end(c, len)
        == p.chunk_start(c + 1) by {
        assert((c + 1) * cs <= (tc - 1) * cs) by (nonlinear_arith)
            requires
                c + 1 <= tc - 1,
                cs >= 1,
        ;
    }
    if len > 0 {
        assert(0 * cs == 0) by (nonlinear_arith);
        assert((tc - 1 + 1) * cs == tc * cs);
    }
    assert forall|x: int| 0 <= x < len implies 0 <= #[trigger] p.chunk_of(x) < p.task_count
        && p.chunk_start(p.chunk_of(x)) <= x < p.chunk_end(p.chunk_of(x), len) by {
        let c = x / cs;
        lemma_fundamental_div_mod(x, cs);
        lemma_mod_bound(x, cs);
        assert(c >= 0) by (nonlinear_arith)
            requires
                x == cs * c + x % cs,
                x % cs < cs,
                x >= 0,
                cs >= 1,
        ;
        assert(c * cs <= x && x < (c + 1) * cs) by (nonlinear_arith)
            requires
                x == cs * c + x % cs,
                0 <= x % cs < cs,
        ;
        assert(c < tc) by (nonlinear_arith)
            requires
                c * cs <= x,
                x < len,
                len <= tc * cs,
                cs >= 1,
        ;
    }
}


/// A rectangular block of a grid, handed to one task.
#[derive(Clone, Copy)]
pub struct Tile {
    pub x: usize,
    pub y: usize,
    pub width: usize,
    pub height: usize,
}

pub open spec fn min_int(a: int, b: int) -> int {
    if a <= b {
        a
    } else {
        b
    }
}

/// Tile `i` of the row-major tiling of a `width × height` grid by squares of side `side`;
/// tiles on the right and bottom edges are cut to the grid.
pub open spec fn tile_spec(width: int, height: int, side: int, i: int) -> Tile {
    let cols = div_ceil(width, side);
    let x = (i % cols) * side;
    let y = (i / cols) * side;
    Tile {
        x: x as usize,
        y: y as usize,
        width: min_int(side, width - x) as usize,
        height: min_int(side, height - y) as usize,
    }
}

/// Number of tiles of the tiling.
pub open spec fn tile_count(width: int, height: int, side: int) -> int {
    div_ceil(width, side) * div_ceil(height, side)
}

/// Index of the tile that holds cell `(x, y)`.
pub open spec fn tile_of(width: int, side: int, x: int, y: int) -> int {
    (y / side) * div_ceil(width, side) + x / side
}

pub open spec fn tile_contains(t: Tile, x: int, y: int) -> bool {
    t.x <= x < t.x + t.width && t.y <= y < t.y + t.height
}

/// Cells each task should cover: `width * height` split over `workers * tasks_per_worker`
/// tasks, rounded up.
pub fn tile_area(width: usize, height: usize, workers: usize, tasks_per_worker: usize) -> (a: usize)
    requires
        width * height <= usize::MAX,
        workers >= 1,
        tasks_per_worker >= 1,
        workers * tasks_per_worker <= usize::MAX,
    ensures
        a == div_ceil(width * height, workers * tasks_per_worker),
{
    proof {
        assert(workers * tasks_per_worker >= 1) by (nonlinear_arith)
            requires
                workers >= 1,
                tasks_per_worker >= 1,
        ;
    }
    div_ceil_usize(width * height, workers * tasks_per_worker)
}

proof fn lemma_div_mod_unique(i: int, cols: int, r: int, c: int)
    requires
        cols >= 1,
        0 <= c < cols,
        i == r * cols + c,
    ensures
        i / cols == r,
        i % cols == c,
{
    lemma_fundamental_div_mod_converse(i, cols, r, c);
}

/// Lists the tiles of a `width × height` grid cut into squares of side `side`, row by row.
pub fn tiles(width: usize, height: usize, side: usize) -> (v: Vec<Tile>)
    requires
        side >= 1,
        width * height <= usize::MAX,
    ensures
        v@.len() == tile_count(width as int, height as int, side as int),
        forall|i: int|
            0 <= i < v@.len() ==> #[trigger] v@[i] == tile_spec(
                width as int,
                height as int,
                side as int,
                i,
            ),
{
    let ghost cols = div_ceil(width as int, side as int);
    let ghost rows = div_ceil(height as int, side as int);
    proof {
        lemma_div_ceil(width as int, side as int);
        lemma_div_ceil(height as int, side as int);
    }
    let mut v: Vec<Tile> = Vec::new();
    if width == 0 || height == 0 {
        proof {
            assert(cols * rows == 0) by (nonlinear_arith)
                requires
                    cols == 0 || rows == 0,
            ;
        }
        return v;
    }
    let mut ty: usize = 0;
    let ghost mut row: int = 0;
    loop
        invariant_except_break
            v@.len() == row * cols,
        invariant
            side >= 1,
            width >= 1,
            height >= 1,
            width * height <= usize::MAX,
            cols == div_ceil(width as int, side as int),
            rows == div_ceil(height as int, side as int),
            cols >= 1,
            rows >= 1,
            (cols - 1) * side < width <= cols * side,
            (rows - 1) * side < height <= rows * side,
            0 <= row < rows,
            ty == row * side,
            ty < height,
            forall|i: int|
                0 <= i < v@.len() ==> #[trigger] v@[i] == tile_spec(
                    width as int,
                    height as int,
                    side as int,
                    i,
                ),
        ensures
            v@.len() == rows * cols,
            forall|i: int|
                0 <= i < v@.len() ==> #[trigger] v@[i] == tile_spec(
                    width as int,
                    height as int,
                    side as int,
                    i,
                ),
        decreases rows - row,
    {
        let h = if side <= height - ty {
            side
        } else {
            height - ty
        };
        let mut tx: usize = 0;
        let ghost mut col: int = 0;
        loop
            invariant_except_break
                v@.len() == row * cols + col,
            invariant
                side >= 1,
                width >= 1,
                cols == div_ceil(width as int, side as int),
                cols >= 1,
                (cols - 1) * side < width <= cols * side,
                0 <= col < cols,
                tx == col * side,
                tx < width,
                0 <= row < rows,
                ty == row * side,
                ty < height,
                h == min_int(side as int, height - ty),
                forall|i: int|
                    0 <= i < v@.len() ==> #[trigger] v@[i] == tile_spec(
                        width as int,
                        height as int,
                        side as int,
                        i,
                    ),
            ensures
                v@.len() == row * cols + cols,
                forall|i: int|
                    0 <= i < v@.len() ==> #[trigger] v@[i] == tile_spec(
                        width as int,
                        height as int,
                        side as int,
                        i,
                    ),
            decreases cols - col,
        {
            let w = if side <= width - tx {
                side
            } else {
                width - tx
            };
            proof {
                lemma_div_mod_unique(row * cols + col, cols, row, col);
            }
            v.push(Tile { x: tx, y: ty, width: w, height: h });
            if side >= width - tx {
                proof {
                    if col + 1 < cols {
                        assert((col + 1) * side <= (cols - 1) * side) by (nonlinear_arith)
                            requires
                                col + 1 <= cols - 1,
                                side >= 1,
                        ;
                        assert((col + 1) * side == col * side + side) by (nonlinear_arith);
                    }
                }
                break ;
            }
            proof {
                assert((col + 1) * side == col * side + side) by (nonlinear_arith);
                assert(col + 1 < cols) by (nonlinear_arith)
                    requires
                        (col + 1) * side < width,
                        width <= cols * side,
                        side >= 1,
                ;
            }
            tx = tx + side;
            proof {
                col = col + 1;
            }
        }
        if side >= height - ty {
            proof {
                if row + 1 < rows {
                    assert((row + 1) * side <= (rows - 1) * side) by (nonlinear_arith)
                        requires
                            row + 1 <= rows - 1,
                            side >= 1,
                    ;
                    assert((row + 1) * side == row * side + side) by (nonlinear_arith);
                }
                assert(row * cols + cols == (row + 1) * cols) by (nonlinear_arith);
            }
            break ;
        }
        proof {
            assert((row + 1) * side == row * side + side) by (nonlinear_arith);
            assert(row + 1 < rows) by (nonlinear_arith)
                requires
                    (row + 1) * side < height,
                    height <= rows * side,
                    side >= 1,
            ;
            assert(row * cols + cols == (row + 1) * cols) by (nonlinear_arith);
        }
        ty = ty + side;
        proof {
            row = row + 1;
        }
    }
    proof {
        assert(rows * cols == cols * rows) by (nonlinear_arith);
    }
    v
}


proof fn lemma_tile_index_parts(width: int, height: int, side: int, i: int)
    requires
        side >= 1,
        0 <= width,
        0 <= height,
        0 <= i < tile_count(width, height, side),
    ensures
        ({
            let cols = div_ceil(width, side);
            let rows = div_ceil(height, side);
            &&& cols >= 1 && rows >= 1
            &&& 0 <= i % cols < cols
            &&& 0 <= i / cols < rows
            &&& (i % cols) * side < width
            &&& (i / cols) * side < height
            &&& (i % cols) * side >= 0
            &&& (i / cols) * side >= 0
        }),
{
    let cols = div_ceil(width, side);
    let rows = div_ceil(height, side);
    lemma_div_ceil(width, side);
    lemma_div_ceil(height, side);
    if cols <= 0 || rows <= 0 {
        assert(cols * rows <= 0) by (nonlinear_arith)
            requires
                cols >= 0,
                rows >= 0,
                cols <= 0 || rows <= 0,
        ;
    }
    let c = i % cols;
    let r = i / cols;
    lemma_fundamental_div_mod(i, cols);
    lemma_mod_bound(i, cols);
    assert(r >= 0 && r < rows) by (nonlinear_arith)
        requires
            i == cols * r + c,
            0 <= c < cols,
            0 <= i < cols * rows,
    ;
    assert(c * side <= (cols - 1) * side && r * side <= (rows - 1) * side && c * side >= 0 && r
        * side >= 0) by (nonlinear_arith)
        requires
            0 <= c <= cols - 1,
            0 <= r <= rows - 1,
            side >= 1,
    ;
}

proof fn lemma_in_block(v: int, side: int, k: int)
    requires
        side >= 1,
        k * side <= v < k * side + side,
    ensures
        v / side == k,
{
    lemma_fundamental_div_mod_converse(v, side, k, v - k * side);
}

/// The tiling covers the grid exactly: every tile is a non-empty rectangle inside the
/// grid, every cell lies in tile `tile_of(x, y)`, and in no other tile.
pub proof fn lemma_tiling_partitions(width: int, height: int, side: int)
    requires
        side >= 1,
        0 <= width <= usize::MAX,
        0 <= height <= usize::MAX,
    ensures
        forall|i: int|
            0 <= i < tile_count(width, height, side) ==> {
                let t = #[trigger] tile_spec(width, height, side, i);
                &&& t.width >= 1 && t.height >= 1
                &&& t.x + t.width <= width && t.y + t.height <= height
            },
        forall|x: int, y: int|
            0 <= x < width && 0 <= y < height ==> 0 <= #[trigger] tile_of(width, side, x, y)
                < tile_count(width, height, side) && tile_contains(
                tile_spec(width, height, side, tile_of(width, side, x, y)),
                x,
                y,
            ),
        forall|i: int, x: int, y: int|
            0 <= i < tile_count(width, height, side) && #[trigger] tile_contains(
                tile_spec(width, height, side, i),
                x,
                y,
            ) ==> i == tile_of(width, side, x, y),
{
    let cols = div_ceil(width, side);
    let rows = div_ceil(height, side);
    lemma_div_ceil(width, side);
    lemma_div_ceil(height, side);
    assert forall|i: int| 0 <= i < tile_count(width, height, side) implies {
        let t = #[trigger] tile_spec(width, height, side, i);
        &&& t.width >= 1 && t.height >= 1
        &&& t.x + t.width <= width && t.y + t.height <= height
    } by {
        lemma_tile_index_parts(width, height, side, i);
    }
    assert forall|x: int, y: int| 0 <= x < width && 0 <= y < height implies 0
        <= #[trigger] tile_of(width, side, x, y) < tile_count(width, height, side)
        && tile_contains(tile_spec(width, height, side, tile_of(width, side, x, y)), x, y) by {
        let c = x / side;
        let r = y / side;
        lemma_fundamental_div_mod(x, side);
        lemma_mod_bound(x, side);
        lemma_fundamental_div_mod(y, side);
        lemma_mod_bound(y, side);
        assert(0 <= c < cols && c * side <= x < c * side + side) by (nonlinear_arith)
            requires
                x == side * c + x % side,
                0 <= x % side < side,
                0 <= x < width,
                width <= cols * side,
        ;
        assert(0 <= r < rows && r * side <= y < r * side + side) by (nonlinear_arith)
            requires
                y == side * r + y % side,
                0 <= y % side < side,
                0 <= y < height,
                height <= rows * side,
        ;
        let i = r * cols + c;
        assert(0 <= i < cols * rows) by (nonlinear_arith)
            requires
                0 <= c < cols,
                0 <= r < rows,
                i == r * cols + c,
        ;
        lemma_div_mod_unique(i, cols, r, c);
    }
    assert forall|i: int, x: int, y: int|
        0 <= i < tile_count(width, height, side) && #[trigger] tile_contains(
            tile_spec(width, height, side, i),
            x,
            y,
        ) implies i == tile_of(width, side, x, y) by {
        lemma_tile_index_parts(width, height, side, i);
        let c = i % cols;
        let r = i / cols;
        lemma_fundamental_div_mod(i, cols);
        lemma_in_block(x, side, c);
        lemma_in_block(y, side, r);
        assert(i == r * cols + c) by (nonlinear_arith)
            requires
                i == cols * r + c,
        ;
    }
}

/// Start, in the row-major buffer of a `grid_width × grid_height` grid, of row `local_y`
/// of `tile`.
pub fn tile_row_offset(grid_width: usize, grid_height: usize, tile: Tile, local_y: usize) -> (o:
    usize)
    requires
        tile.x + tile.width <= grid_width,
        tile.y + tile.height <= grid_height,
        local_y < tile.height,
        grid_width * grid_height <= usize::MAX,
    ensures
        o == (tile.y + local_y) * grid_width + tile.x,
        o + tile.width <= grid_width * grid_height,
{
    proof {
        assert((tile.y + local_y) * grid_width + tile.x + tile.width <= grid_width * grid_height)
            by (nonlinear_arith)
            requires
                tile.x + tile.width <= grid_width,
                tile.y + local_y + 1 <= grid_height,
        ;
    }
    (tile.y + local_y) * grid_width + tile.x
}

/// Rows of tiles never share an element of the buffer: if element `e` lies in row `ly1`
/// of tile `i` and in row `ly2` of tile `j`, these are the same row of the same tile.
pub proof fn lemma_tile_rows_disjoint(
    width: int,
    height: int,
    side: int,
    i: int,
    ly1: int,
    j: int,
    ly2: int,
    e: int,
)
    requires
        side >= 1,
        0 <= width <= usize::MAX,
        0 <= height <= usize::MAX,
        0 <= i < tile_count(width, height, side),
        0 <= j < tile_count(width, height, side),
        0 <= ly1 < tile_spec(width, height, side, i).height,
        0 <= ly2 < tile_spec(width, height, side, j).height,
        ({
            let t = tile_spec(width, height, side, i);
            let o = (t.y + ly1) * width + t.x;
            o <= e < o + t.width
        }),
        ({
            let t = tile_spec(width, height, side, j);
            let o = (t.y + ly2) * width + t.x;
            o <= e < o + t.width
        }),
    ensures
        i == j,
        ly1 == ly2,
{
    lemma_tiling_partitions(width, height, side);
    let ti = tile_spec(width, height, side, i);
    let tj = tile_spec(width, height, side, j);
    let _ = tile_spec(width, height, side, i);
    let _ = tile_spec(width, height, side, j);
    let y1 = ti.y + ly1;
    let x1 = e - y1 * width;
    let y2 = tj.y + ly2;
    let x2 = e - y2 * width;
    assert(ti.x + ti.width <= width && tj.x + tj.width <= width);
    lemma_fundamental_div_mod_converse(e, width, y1, x1);
    lemma_fundamental_div_mod_converse(e, width, y2, x2);
    assert(tile_contains(ti, x1, y1));
    assert(tile_contains(tj, x2, y2));
}


/// Number of worker threads to start: the requested count, or when it is zero the
/// parallelism the system reports (one if it reports nothing).
pub fn resolve_thread_count(requested: usize, available: Option<usize>) -> (n: usize)
    requires
        available matches Some(a) ==> a >= 1,
    ensures
        requested != 0 ==> n == requested,
        requested == 0 ==> n == (match available {
            Some(a) => a,
            None => 1,
        }),
        requested == 0 ==> n >= 1,
{
    if requested == 0 {
        match available {
            Some(a) => a,
            None => 1,
        }
    } else {
        requested
    }
}

} // verus!
