use vstd::arithmetic::div_mod::{lemma_div_nonincreasing, lemma_div_pos_is_pos};
use vstd::prelude::*;

verus! {

/// The mathematical model of a matrix: a sequence of rows, each row a
/// sequence of unbounded integers. A grid is meaningful only when
/// [`wf_grid`] holds of it.
pub type Grid = Seq<Seq<int>>;

/// Whether `x` fits in the machine scalar type `i64`.
pub open spec fn in_i64(x: int) -> bool {
    i64::MIN <= x <= i64::MAX
}

/// Well-formedness: at least one row and one column, and all rows of
/// equal length.
pub open spec fn wf_grid(g: Grid) -> bool {
    &&& g.len() >= 1
    &&& g[0].len() >= 1
    &&& forall|i: int| 0 <= i < g.len() ==> (#[trigger] g[i]).len() == g[0].len()
}

/// A square grid.
pub open spec fn square_grid(g: Grid) -> bool {
    wf_grid(g) && g.len() == g[0].len()
}

/// The sum of a sequence of integers, accumulated left to right.
pub open spec fn sum_int(s: Seq<int>) -> int
    decreases s.len(),
{
    if s.len() == 0 {
        0
    } else {
        sum_int(s.drop_last()) + s.last()
    }
}

/// Whether every prefix sum of `s` fits in `i64`: exactly the condition
/// under which a left-to-right checked accumulation of `s` succeeds.
pub open spec fn prefix_fits(s: Seq<int>) -> bool {
    forall|k: int| 0 <= k <= s.len() ==> in_i64(sum_int(#[trigger] s.take(k)))
}

/// Two grids of the same dimensions.
pub open spec fn same_shape(a: Grid, b: Grid) -> bool {
    a.len() == b.len() && a[0].len() == b[0].len()
}

/// The sum of a sequence is the sum of the full prefix.
pub proof fn lemma_sum_take_all(s: Seq<int>)
    ensures
        sum_int(s.take(s.len() as int)) == sum_int(s),
{
    assert(s.take(s.len() as int) =~= s);
}

/// Extending a prefix sum by one element adds that element.
pub proof fn lemma_sum_take_step(s: Seq<int>, k: int)
    requires
        0 <= k < s.len(),
    ensures
        sum_int(s.take(k + 1)) == sum_int(s.take(k)) + s[k],
{
    assert(s.take(k + 1).drop_last() =~= s.take(k));
    assert(s.take(k + 1).last() == s[k]);
}

/// The grid of dimensions `rows` by `cols` holding `v` everywhere.
pub open spec fn grid_filled(rows: nat, cols: nat, v: int) -> Grid {
    Seq::new(rows, |i: int| Seq::new(cols, |j: int| v))
}

/// The identity grid of dimension `n`.
pub open spec fn grid_eye(n: nat) -> Grid {
    Seq::new(n, |i: int| Seq::new(n, |j: int| if i == j { 1int } else { 0int }))
}

/// The elementwise sum of two grids of equal shape.
pub open spec fn grid_add(a: Grid, b: Grid) -> Grid {
    Seq::new(a.len(), |i: int| Seq::new(a[0].len(), |j: int| a[i][j] + b[i][j]))
}

/// Whether every elementwise sum fits in `i64`.
pub open spec fn add_fits(a: Grid, b: Grid) -> bool {
    forall|i: int, j: int|
        0 <= i < a.len() && 0 <= j < a[0].len() ==> in_i64((#[trigger] a[i][j]) + b[i][j])
}

/// The elementwise difference of two grids of equal shape.
pub open spec fn grid_sub(a: Grid, b: Grid) -> Grid {
    Seq::new(a.len(), |i: int| Seq::new(a[0].len(), |j: int| a[i][j] - b[i][j]))
}

/// Whether every elementwise difference fits in `i64`.
pub open spec fn sub_fits(a: Grid, b: Grid) -> bool {
    forall|i: int, j: int|
        0 <= i < a.len() && 0 <= j < a[0].len() ==> in_i64((#[trigger] a[i][j]) - b[i][j])
}

/// The elementwise negation of a grid.
pub open spec fn grid_neg(a: Grid) -> Grid {
    Seq::new(a.len(), |i: int| Seq::new(a[0].len(), |j: int| -a[i][j]))
}

/// Whether every negated element fits in `i64`.
pub open spec fn neg_fits(a: Grid) -> bool {
    forall|i: int, j: int|
        0 <= i < a.len() && 0 <= j < a[0].len() ==> in_i64(-(#[trigger] a[i][j]))
}

/// The grid scaled elementwise by `k`.
pub open spec fn grid_scale(a: Grid, k: int) -> Grid {
    Seq::new(a.len(), |i: int| Seq::new(a[0].len(), |j: int| a[i][j] * k))
}

/// Whether every scaled element fits in `i64`.
pub open spec fn scale_fits(a: Grid, k: int) -> bool {
    forall|i: int, j: int|
        0 <= i < a.len() && 0 <= j < a[0].len() ==> in_i64((#[trigger] a[i][j]) * k)
}

/// Integer division truncating toward zero, the semantics of the machine
/// division on `i64` scalars. Meaningful only for `d != 0`.
pub open spec fn div_trunc(x: int, d: int) -> int {
    if x == 0 {
        0
    } else if x > 0 && d > 0 {
        x / d
    } else if x < 0 && d < 0 {
        (-x) / (-d)
    } else if x < 0 {
        -((-x) / d)
    } else {
        -(x / (-d))
    }
}

/// The grid divided elementwise by `k`, truncating toward zero.
pub open spec fn grid_div(a: Grid, k: int) -> Grid {
    Seq::new(a.len(), |i: int| Seq::new(a[0].len(), |j: int| div_trunc(a[i][j], k)))
}

/// Whether every quotient fits in `i64` (only `i64::MIN / -1` does not).
pub open spec fn div_fits(a: Grid, k: int) -> bool {
    forall|i: int, j: int|
        0 <= i < a.len() && 0 <= j < a[0].len() ==> in_i64(div_trunc(#[trigger] a[i][j], k))
}

/// Dividing an `i64`-range value by a positive divisor, truncating
/// toward zero, stays in the `i64` range.
pub proof fn lemma_div_trunc_in_range(x: int, d: int)
    requires
        in_i64(x),
        d >= 1,
    ensures
        in_i64(div_trunc(x, d)),
{
    if x == 0 {
    } else if x > 0 {
        lemma_div_pos_is_pos(x, d);
        lemma_div_nonincreasing(x, d);
    } else {
        lemma_div_pos_is_pos(-x, d);
        lemma_div_nonincreasing(-x, d);
    }
}

/// The transpose of a grid.
pub open spec fn grid_transpose(a: Grid) -> Grid {
    Seq::new(a[0].len(), |i: int| Seq::new(a.len(), |j: int| a[j][i]))
}

/// Column `j` of a grid, as a sequence.
pub open spec fn col_seq(b: Grid, j: int) -> Seq<int> {
    Seq::new(b.len(), |k: int| b[k][j])
}

/// The sequence of pairwise products of two equal-length sequences.
pub open spec fn prod_seq(r: Seq<int>, c: Seq<int>) -> Seq<int> {
    Seq::new(r.len(), |k: int| r[k] * c[k])
}

/// The inner product of two equal-length sequences.
pub open spec fn dot_int(r: Seq<int>, c: Seq<int>) -> int {
    sum_int(prod_seq(r, c))
}

/// Whether a left-to-right checked evaluation of the inner product of
/// `r` and `c` stays within `i64`.
pub open spec fn dot_fits(r: Seq<int>, c: Seq<int>) -> bool {
    &&& forall|k: int| 0 <= k < r.len() ==> in_i64((#[trigger] r[k]) * c[k])
    &&& prefix_fits(prod_seq(r, c))
}

/// The matrix product of compatible grids: entry `(i, j)` is the inner
/// product of row `i` of `a` and column `j` of `b`.
pub open spec fn grid_mul(a: Grid, b: Grid) -> Grid {
    Seq::new(a.len(), |i: int| Seq::new(b[0].len(), |j: int| dot_int(a[i], col_seq(b, j))))
}

/// Whether every entry of the product can be computed in `i64`.
pub open spec fn mul_fits(a: Grid, b: Grid) -> bool {
    forall|i: int, j: int|
        0 <= i < a.len() && 0 <= j < b[0].len() ==> #[trigger] dot_fits(a[i], col_seq(b, j))
}

/// The diagonal of a grid, as a sequence.
pub open spec fn diag_seq(g: Grid) -> Seq<int> {
    Seq::new(g.len(), |i: int| g[i][i])
}

/// The trace: the sum of the diagonal.
pub open spec fn grid_trace(g: Grid) -> int {
    sum_int(diag_seq(g))
}

/// Whether a left-to-right checked evaluation of the trace stays in `i64`.
pub open spec fn trace_fits(g: Grid) -> bool {
    prefix_fits(diag_seq(g))
}

/// The minor: the grid with row `r` and column `c` deleted, the relative
/// order of the remaining rows and columns preserved.
pub open spec fn grid_minor(g: Grid, r: int, c: int) -> Grid {
    Seq::new(
        (g.len() - 1) as nat,
        |i: int|
            Seq::new(
                (g[0].len() - 1) as nat,
                |j: int| g[if i < r { i } else { i + 1 }][if j < c { j } else { j + 1 }],
            ),
    )
}

/// The sign of column `i` in the Laplace expansion along row 0: `+1` for
/// even `i`, `-1` for odd `i`.
pub open spec fn det_sign(i: int) -> int {
    if i % 2 == 0 {
        1int
    } else {
        -1int
    }
}

/// The determinant of a square grid: the single element for dimension 1,
/// the closed form for dimension 2, and for larger dimensions the Laplace
/// expansion along row 0 with alternating signs starting at `+1`.
pub open spec fn grid_det(g: Grid) -> int
    decreases g.len(), g[0].len() + 1,
{
    if g.len() <= 1 {
        g[0][0]
    } else if g.len() == 2 {
        g[0][0] * g[1][1] - g[0][1] * g[1][0]
    } else {
        det_expand(g, g[0].len())
    }
}

/// The partial Laplace expansion of `g` along row 0, over columns `0..i`.
pub open spec fn det_expand(g: Grid, i: nat) -> int
    decreases g.len(), i,
{
    if i == 0 || g.len() == 0 {
        0
    } else {
        det_expand(g, (i - 1) as nat) + det_sign(i - 1) * g[0][i - 1] * grid_det(
            grid_minor(g, 0, i - 1),
        )
    }
}

/// Whether the recursive determinant computation of `g` stays in `i64`
/// throughout: every minor's determinant, every signed product and every
/// partial sum of the expansion.
pub open spec fn det_fits(g: Grid) -> bool
    decreases g.len(), g[0].len() + 1,
{
    if g.len() <= 1 {
        true
    } else if g.len() == 2 {
        &&& in_i64(g[0][0] * g[1][1])
        &&& in_i64(g[0][1] * g[1][0])
        &&& in_i64(g[0][0] * g[1][1] - g[0][1] * g[1][0])
    } else {
        expand_fits(g, g[0].len())
    }
}

/// Whether the Laplace expansion of `g` over columns `0..i` stays in `i64`.
pub open spec fn expand_fits(g: Grid, i: nat) -> bool
    decreases g.len(), i,
{
    if i == 0 || g.len() == 0 {
        true
    } else {
        &&& expand_fits(g, (i - 1) as nat)
        &&& det_fits(grid_minor(g, 0, i - 1))
        &&& in_i64(g[0][i - 1] * grid_det(grid_minor(g, 0, i - 1)))
        &&& in_i64(det_sign(i - 1) * g[0][i - 1] * grid_det(grid_minor(g, 0, i - 1)))
        &&& in_i64(det_expand(g, i))
    }
}

/// A feasible Laplace expansion stays feasible on a shorter prefix of
/// columns.
pub proof fn lemma_expand_fits_mono(g: Grid, a: nat, b: nat)
    requires
        a <= b,
        expand_fits(g, b),
    ensures
        expand_fits(g, a),
    decreases b,
{
    if a < b {
        lemma_expand_fits_mono(g, a, (b - 1) as nat);
    }
}

/// The cofactor sign of position `(i, j)`: `+1` when `i + j` is even.
pub open spec fn cof_sign(i: int, j: int) -> int {
    if (i + j) % 2 == 0 {
        1int
    } else {
        -1int
    }
}

/// The cofactor grid: entry `(i, j)` is the signed determinant of the
/// minor with row `i` and column `j` deleted.
pub open spec fn grid_cofactor(g: Grid) -> Grid {
    Seq::new(
        g.len(),
        |i: int| Seq::new(g.len(), |j: int| cof_sign(i, j) * grid_det(grid_minor(g, i, j))),
    )
}

/// Whether every cofactor can be computed in `i64`.
pub open spec fn cofactor_fits(g: Grid) -> bool {
    forall|i: int, j: int|
        0 <= i < g.len() && 0 <= j < g.len() ==> {
            &&& det_fits(#[trigger] grid_minor(g, i, j))
            &&& in_i64(cof_sign(i, j) * grid_det(grid_minor(g, i, j)))
        }
}

/// The adjugate: the transpose of the cofactor grid.
pub open spec fn grid_adjugate(g: Grid) -> Grid {
    grid_transpose(grid_cofactor(g))
}

/// The `n`-th power of a square grid: `n` successive multiplications by
/// `g` starting from the identity.
pub open spec fn grid_pow(g: Grid, n: nat) -> Grid
    decreases n,
{
    if n == 0 {
        grid_eye(g.len())
    } else {
        grid_mul(grid_pow(g, (n - 1) as nat), g)
    }
}

/// Whether the binary-exponentiation computation of `g` to the `n` stays
/// in `i64`: the recursive half, the squaring, and for odd exponents the
/// final multiplication by `g`.
pub open spec fn pow_fits(g: Grid, n: nat) -> bool
    decreases n,
{
    if n <= 1 {
        true
    } else {
        &&& pow_fits(g, n / 2)
        &&& mul_fits(grid_pow(g, n / 2), grid_pow(g, n / 2))
        &&& (n % 2 == 1 ==> mul_fits(grid_mul(grid_pow(g, n / 2), grid_pow(g, n / 2)), g))
    }
}

} // verus!
