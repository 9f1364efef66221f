use vstd::arithmetic::mul::{
    lemma_mul_basics, lemma_mul_is_associative, lemma_mul_is_commutative,
    lemma_mul_is_distributive_add, lemma_mul_is_distributive_add_other_way,
    lemma_mul_is_distributive_sub, lemma_mul_unary_negation,
};
use vstd::prelude::*;

use crate::model::{
    cof_sign, col_seq, det_expand, det_sign, dot_int, grid_adjugate, grid_cofactor, grid_det,
    grid_eye, grid_minor, grid_mul, grid_pow, grid_scale, grid_transpose, prod_seq, square_grid,
    sum_int, wf_grid, Grid,
};

verus! {

/// The pointwise sum of two equal-length sequences.
pub open spec fn seq_add(s: Seq<int>, t: Seq<int>) -> Seq<int> {
    Seq::new(s.len(), |k: int| s[k] + t[k])
}

/// The sums of the rows of a grid.
pub open spec fn row_sums(h: Grid) -> Seq<int> {
    Seq::new(h.len(), |k: int| sum_int(h[k]))
}

/// The sum of all entries of a grid, row by row.
pub open spec fn grid_total(h: Grid) -> int {
    sum_int(row_sums(h))
}

/// The columns of a grid with `c` columns, as a grid of its own.
pub open spec fn cols_grid(h: Grid, c: nat) -> Grid {
    Seq::new(c, |i: int| Seq::new(h.len(), |k: int| h[k][i]))
}

/// A sequence of zeros sums to zero.
pub proof fn lemma_sum_zero(s: Seq<int>)
    requires
        forall|k: int| 0 <= k < s.len() ==> s[k] == 0,
    ensures
        sum_int(s) == 0,
    decreases s.len(),
{
    if s.len() > 0 {
        lemma_sum_zero(s.drop_last());
    }
}

/// A sequence that is zero everywhere but at `j` sums to its element
/// at `j`.
pub proof fn lemma_sum_unit(s: Seq<int>, j: int)
    requires
        0 <= j < s.len(),
        forall|k: int| 0 <= k < s.len() && k != j ==> s[k] == 0,
    ensures
        sum_int(s) == s[j],
    decreases s.len(),
{
    if j == s.len() - 1 {
        lemma_sum_zero(s.drop_last());
    } else {
        lemma_sum_unit(s.drop_last(), j);
    }
}

/// Summation distributes over pointwise addition.
pub proof fn lemma_sum_add(s: Seq<int>, t: Seq<int>)
    requires
        s.len() == t.len(),
    ensures
        sum_int(seq_add(s, t)) == sum_int(s) + sum_int(t),
    decreases s.len(),
{
    if s.len() == 0 {
        assert(seq_add(s, t) =~= Seq::<int>::empty());
    } else {
        assert(seq_add(s, t).drop_last() =~= seq_add(s.drop_last(), t.drop_last()));
        lemma_sum_add(s.drop_last(), t.drop_last());
    }
}

/// A common right factor scales a sum.
pub proof fn lemma_sum_mul_right(s: Seq<int>, x: int)
    ensures
        sum_int(Seq::new(s.len(), |k: int| s[k] * x)) == sum_int(s) * x,
    decreases s.len(),
{
    let m = Seq::new(s.len(), |k: int| s[k] * x);
    if s.len() == 0 {
        assert(sum_int(m) == 0);
    } else {
        let s1 = s.drop_last();
        lemma_sum_mul_right(s1, x);
        assert(m.drop_last() =~= Seq::new(s1.len(), |k: int| s1[k] * x));
        lemma_mul_is_distributive_add_other_way(x, sum_int(s1), s.last());
    }
}

/// A common left factor scales a sum.
pub proof fn lemma_sum_mul_left(s: Seq<int>, x: int)
    ensures
        sum_int(Seq::new(s.len(), |k: int| x * s[k])) == x * sum_int(s),
    decreases s.len(),
{
    let m = Seq::new(s.len(), |k: int| x * s[k]);
    if s.len() == 0 {
        assert(sum_int(m) == 0);
    } else {
        let s1 = s.drop_last();
        lemma_sum_mul_left(s1, x);
        assert(m.drop_last() =~= Seq::new(s1.len(), |k: int| x * s1[k]));
        lemma_mul_is_distributive_add(x, sum_int(s1), s.last());
    }
}

/// Exchanging the summation order of a rectangular grid of integers
/// leaves the total unchanged.
pub proof fn lemma_fubini(h: Grid, c: nat)
    requires
        forall|k: int| 0 <= k < h.len() ==> (#[trigger] h[k]).len() == c,
    ensures
        grid_total(cols_grid(h, c)) == grid_total(h),
    decreases h.len(),
{
    if h.len() == 0 {
        assert forall|i: int| 0 <= i < c implies #[trigger] row_sums(cols_grid(h, c))[i] == 0 by {
            assert(cols_grid(h, c)[i].len() == 0);
        }
        lemma_sum_zero(row_sums(cols_grid(h, c)));
    } else {
        let h1 = h.drop_last();
        lemma_fubini(h1, c);
        assert(row_sums(h).drop_last() =~= row_sums(h1));
        assert forall|i: int| 0 <= i < c implies #[trigger] row_sums(cols_grid(h, c))[i]
            == row_sums(cols_grid(h1, c))[i] + h.last()[i] by {
            let colh = cols_grid(h, c)[i];
            assert(colh.drop_last() =~= cols_grid(h1, c)[i]);
            assert(colh.last() == h.last()[i]);
        }
        assert(row_sums(cols_grid(h, c)) =~= seq_add(row_sums(cols_grid(h1, c)), h.last()));
        lemma_sum_add(row_sums(cols_grid(h1, c)), h.last());
    }
}

/// The inner product is symmetric.
pub proof fn lemma_dot_sym(r: Seq<int>, c: Seq<int>)
    requires
        r.len() == c.len(),
    ensures
        dot_int(r, c) == dot_int(c, r),
{
    assert forall|k: int| 0 <= k < r.len() implies #[trigger] prod_seq(r, c)[k] == prod_seq(
        c,
        r,
    )[k] by {
        lemma_mul_is_commutative(r[k], c[k]);
    }
    assert(prod_seq(r, c) =~= prod_seq(c, r));
}

/// The product of two well-formed compatible grids is well-formed, with
/// the rows of the left operand and the columns of the right.
pub proof fn lemma_mul_dims(a: Grid, b: Grid)
    requires
        wf_grid(a),
        wf_grid(b),
    ensures
        wf_grid(grid_mul(a, b)),
        grid_mul(a, b).len() == a.len(),
        grid_mul(a, b)[0].len() == b[0].len(),
{
}

/// Multiplying by the identity on the right returns the grid itself.
pub proof fn lemma_mul_eye_right(a: Grid)
    requires
        wf_grid(a),
    ensures
        grid_mul(a, grid_eye(a[0].len())) == a,
{
    let n = a[0].len();
    let e = grid_eye(n);
    assert forall|i: int| 0 <= i < a.len() implies #[trigger] grid_mul(a, e)[i] =~= a[i] by {
        assert forall|j: int| 0 <= j < n implies #[trigger] grid_mul(a, e)[i][j] == a[i][j] by {
            let ps = prod_seq(a[i], col_seq(e, j));
            assert(ps.len() == n);
            assert forall|k: int| 0 <= k < n && k != j implies #[trigger] ps[k] == 0 by {
                assert(col_seq(e, j)[k] == 0);
            }
            assert(ps[j] == a[i][j]);
            lemma_sum_unit(ps, j);
        }
    }
    assert(grid_mul(a, e) =~= a);
}

/// Multiplying by the identity on the left returns the grid itself.
pub proof fn lemma_mul_eye_left(a: Grid)
    requires
        wf_grid(a),
    ensures
        grid_mul(grid_eye(a.len()), a) == a,
{
    let n = a.len();
    let e = grid_eye(n);
    assert forall|i: int| 0 <= i < n implies #[trigger] grid_mul(e, a)[i] =~= a[i] by {
        assert forall|j: int| 0 <= j < a[0].len() implies #[trigger] grid_mul(e, a)[i][j]
            == a[i][j] by {
            let ps = prod_seq(e[i], col_seq(a, j));
            assert(ps.len() == n);
            assert forall|k: int| 0 <= k < n && k != i implies #[trigger] ps[k] == 0 by {
                assert(e[i][k] == 0);
            }
            assert(ps[i] == a[i][j]);
            lemma_sum_unit(ps, i);
        }
    }
    assert(grid_mul(e, a) =~= a);
}

/// For every square grid, multiplying by the identity of its dimension
/// on either side returns the grid itself.
pub proof fn lemma_multiply_identity(a: Grid)
    requires
        square_grid(a),
    ensures
        grid_mul(a, grid_eye(a.len())) == a,
        grid_mul(grid_eye(a.len()), a) == a,
{
    lemma_mul_eye_right(a);
    lemma_mul_eye_left(a);
}

/// Matrix multiplication is associative on well-formed compatible grids.
pub proof fn lemma_mul_assoc(a: Grid, b: Grid, c: Grid)
    requires
        wf_grid(a),
        wf_grid(b),
        wf_grid(c),
        a[0].len() == b.len(),
        b[0].len() == c.len(),
    ensures
        grid_mul(grid_mul(a, b), c) == grid_mul(a, grid_mul(b, c)),
{
    let q = b.len();
    let p = c.len();
    let s = c[0].len();
    let ab = grid_mul(a, b);
    let bc = grid_mul(b, c);
    lemma_mul_dims(a, b);
    lemma_mul_dims(b, c);
    assert forall|i: int| 0 <= i < a.len() implies #[trigger] grid_mul(ab, c)[i] =~= grid_mul(
        a,
        bc,
    )[i] by {
        assert forall|j: int| 0 <= j < s implies #[trigger] grid_mul(ab, c)[i][j] == grid_mul(
            a,
            bc,
        )[i][j] by {
            let t = Seq::new(p, |l: int| Seq::new(q, |k: int| (a[i][k] * b[k][l]) * c[l][j]));
            let lps = prod_seq(ab[i], col_seq(c, j));
            assert forall|l: int| 0 <= l < p implies #[trigger] lps[l] == row_sums(t)[l] by {
                let bs = prod_seq(a[i], col_seq(b, l));
                lemma_sum_mul_right(bs, c[l][j]);
                assert(Seq::new(bs.len(), |k: int| bs[k] * c[l][j]) =~= t[l]);
            }
            assert(lps =~= row_sums(t));
            assert(grid_mul(ab, c)[i][j] == grid_total(t));
            let u = cols_grid(t, q);
            let rps = prod_seq(a[i], col_seq(bc, j));
            assert forall|k: int| 0 <= k < q implies #[trigger] rps[k] == row_sums(u)[k] by {
                let cs = prod_seq(b[k], col_seq(c, j));
                lemma_sum_mul_left(cs, a[i][k]);
                assert forall|l: int| 0 <= l < p implies #[trigger] u[k][l] == a[i][k] * cs[l] by {
                    lemma_mul_is_associative(a[i][k], b[k][l], c[l][j]);
                }
                assert(u[k] =~= Seq::new(cs.len(), |l: int| a[i][k] * cs[l]));
            }
            assert(rps =~= row_sums(u));
            assert(grid_mul(a, bc)[i][j] == grid_total(u));
            lemma_fubini(t, q);
        }
    }
    assert(grid_mul(grid_mul(a, b), c) =~= grid_mul(a, grid_mul(b, c)));
}

/// Every power of a square grid is a square grid of the same dimension.
pub proof fn lemma_pow_dims(g: Grid, n: nat)
    requires
        square_grid(g),
    ensures
        square_grid(grid_pow(g, n)),
        grid_pow(g, n).len() == g.len(),
    decreases n,
{
    if n == 0 {
        assert(grid_eye(g.len()).len() == g.len());
    } else {
        lemma_pow_dims(g, (n - 1) as nat);
        lemma_mul_dims(grid_pow(g, (n - 1) as nat), g);
    }
}

/// The transpose of a product is the product of the transposes in the
/// reverse order.
pub proof fn lemma_transpose_multiply(a: Grid, b: Grid)
    requires
        wf_grid(a),
        wf_grid(b),
        a[0].len() == b.len(),
    ensures
        grid_transpose(grid_mul(a, b)) == grid_mul(grid_transpose(b), grid_transpose(a)),
{
    let ab = grid_mul(a, b);
    let tb = grid_transpose(b);
    let ta = grid_transpose(a);
    lemma_mul_dims(a, b);
    assert forall|i: int| 0 <= i < b[0].len() implies #[trigger] grid_transpose(ab)[i]
        =~= grid_mul(tb, ta)[i] by {
        assert forall|j: int| 0 <= j < a.len() implies #[trigger] grid_transpose(ab)[i][j]
            == grid_mul(tb, ta)[i][j] by {
            assert(tb[i] =~= col_seq(b, i));
            assert(col_seq(ta, j) =~= a[j]);
            assert(grid_transpose(ab)[i][j] == dot_int(a[j], col_seq(b, i)));
            assert(grid_mul(tb, ta)[i][j] == dot_int(col_seq(b, i), a[j]));
            lemma_dot_sym(col_seq(b, i), a[j]);
        }
    }
    assert(grid_transpose(ab) =~= grid_mul(tb, ta));
}

/// Powers of a square grid compose additively: the power to `m + n` is
/// the product of the powers to `m` and to `n`.
pub proof fn lemma_pow_add(g: Grid, m: nat, n: nat)
    requires
        square_grid(g),
    ensures
        grid_pow(g, m + n) == grid_mul(grid_pow(g, m), grid_pow(g, n)),
    decreases n,
{
    lemma_pow_dims(g, m);
    if n == 0 {
        lemma_mul_eye_right(grid_pow(g, m));
        assert(grid_pow(g, m)[0].len() == g.len());
    } else {
        let n1 = (n - 1) as nat;
        lemma_pow_add(g, m, n1);
        lemma_pow_dims(g, n1);
        lemma_mul_assoc(grid_pow(g, m), grid_pow(g, n1), g);
        assert(grid_pow(g, (m + n1 + 1) as nat) == grid_mul(grid_pow(g, m + n1), g));
    }
}

/// The zeroth power of a square grid is the identity and the first
/// power is the grid itself.
pub proof fn lemma_pow_basics(g: Grid)
    requires
        square_grid(g),
    ensures
        grid_pow(g, 0) == grid_eye(g.len()),
        grid_pow(g, 1) == g,
{
    lemma_mul_eye_left(g);
    assert(grid_pow(g, 1) == grid_mul(grid_pow(g, 0), g));
}

/// The determinant of the identity is `1`, in every dimension.
pub proof fn lemma_det_eye(n: nat)
    requires
        n >= 1,
    ensures
        grid_det(grid_eye(n)) == 1,
    decreases n,
{
    let e = grid_eye(n);
    lemma_mul_basics(0);
    lemma_mul_basics(1);
    if n == 1 {
        assert(grid_det(e) == e[0][0]);
        assert(e[0][0] == 1);
    } else if n == 2 {
        assert(grid_det(e) == e[0][0] * e[1][1] - e[0][1] * e[1][0]);
        assert(e[0][0] == 1 && e[1][1] == 1 && e[0][1] == 0 && e[1][0] == 0);
        assert(e[0][0] * e[1][1] == 1);
        assert(e[0][1] * e[1][0] == 0);
    } else {
        let n1 = (n - 1) as nat;
        lemma_det_eye(n1);
        assert forall|i: int| 0 <= i < n1 implies #[trigger] grid_minor(e, 0, 0)[i] =~= grid_eye(
            n1,
        )[i] by {
            assert forall|j: int| 0 <= j < n1 implies #[trigger] grid_minor(e, 0, 0)[i][j]
                == grid_eye(n1)[i][j] by {
                assert(grid_minor(e, 0, 0)[i][j] == e[i + 1][j + 1]);
            }
        }
        assert(grid_minor(e, 0, 0) =~= grid_eye(n1));
        lemma_det_expand_eye(n, n);
        assert(e[0].len() == n);
        assert(grid_det(grid_minor(e, 0, 0)) == 1);
        assert(grid_det(e) == det_expand(e, e[0].len()));
    }
}

/// In the Laplace expansion of the identity along row 0, only the first
/// column contributes: the partial expansion over any nonempty prefix of
/// columns equals the determinant of the leading minor.
proof fn lemma_det_expand_eye(n: nat, i: nat)
    requires
        n >= 3,
        1 <= i <= n,
    ensures
        det_expand(grid_eye(n), i) == grid_det(grid_minor(grid_eye(n), 0, 0)),
    decreases i,
{
    let e = grid_eye(n);
    if i == 1 {
        let d = grid_det(grid_minor(e, 0, 0));
        assert(det_expand(e, 1) == det_expand(e, 0) + det_sign(0) * e[0][0] * d);
        assert(det_expand(e, 0) == 0);
        assert(det_sign(0) * e[0][0] == 1);
        lemma_mul_basics(d);
        assert(det_sign(0) * e[0][0] * d == d);
    } else {
        lemma_det_expand_eye(n, (i - 1) as nat);
        let d = grid_det(grid_minor(e, 0, i - 1));
        assert(e[0][i - 1] == 0);
        assert(det_sign(i - 1) * e[0][i - 1] == 0);
        lemma_mul_basics(d);
        assert(det_sign(i - 1) * e[0][i - 1] * d == 0);
        assert(det_expand(e, i) == det_expand(e, (i - 1) as nat) + det_sign(i - 1) * e[0][i - 1]
            * d);
    }
}

/// A two-element sequence sums to the sum of its elements.
pub proof fn lemma_sum_two(s: Seq<int>)
    requires
        s.len() == 2,
    ensures
        sum_int(s) == s[0] + s[1],
{
    let s1 = s.drop_last();
    assert(s1.drop_last().len() == 0);
    assert(sum_int(s1.drop_last()) == 0);
    assert(sum_int(s1) == s1[0]);
    assert(s1.last() == s[0] && s.last() == s[1]);
}

/// A minor of the transpose is the transpose of the mirrored minor.
proof fn lemma_minor_transpose(g: Grid, r: int, c: int)
    requires
        square_grid(g),
        g.len() >= 2,
        0 <= r < g.len(),
        0 <= c < g.len(),
    ensures
        grid_minor(grid_transpose(g), c, r) == grid_transpose(grid_minor(g, r, c)),
{
    let t = grid_transpose(g);
    let n = g.len();
    assert forall|i: int| 0 <= i < n - 1 implies #[trigger] grid_minor(t, c, r)[i]
        =~= grid_transpose(grid_minor(g, r, c))[i] by {
        assert forall|j: int| 0 <= j < n - 1 implies #[trigger] grid_minor(t, c, r)[i][j]
            == grid_transpose(grid_minor(g, r, c))[i][j] by {
            let si: int = if i < c {
                i
            } else {
                i + 1
            };
            let sj: int = if j < r {
                j
            } else {
                j + 1
            };
            assert(grid_minor(t, c, r)[i][j] == t[si][sj]);
            assert(t[si][sj] == g[sj][si]);
            assert(grid_transpose(grid_minor(g, r, c))[i][j] == grid_minor(g, r, c)[j][i]);
            assert(grid_minor(g, r, c)[j][i] == g[sj][si]);
        }
    }
    assert(grid_minor(t, c, r) =~= grid_transpose(grid_minor(g, r, c)));
}

/// The determinant is invariant under transposition in dimensions 1
/// and 2.
proof fn lemma_det_transpose_small(m: Grid)
    requires
        square_grid(m),
        m.len() <= 2,
    ensures
        grid_det(grid_transpose(m)) == grid_det(m),
{
    let t = grid_transpose(m);
    if m.len() == 1 {
        assert(t[0][0] == m[0][0]);
    } else {
        assert(t[0][0] == m[0][0] && t[1][1] == m[1][1]);
        assert(t[0][1] == m[1][0] && t[1][0] == m[0][1]);
        lemma_mul_is_commutative(m[1][0], m[0][1]);
    }
}

/// Cofactor formation commutes with transposition: the adjugate of the
/// transpose is the transpose of the adjugate, in dimensions 2 and 3.
pub proof fn lemma_adjugate_transpose(g: Grid)
    requires
        square_grid(g),
        2 <= g.len() <= 3,
    ensures
        grid_adjugate(grid_transpose(g)) == grid_transpose(grid_adjugate(g)),
{
    let n = g.len();
    let t = grid_transpose(g);
    assert(square_grid(t));
    assert forall|i: int| 0 <= i < n implies #[trigger] grid_adjugate(t)[i] =~= grid_transpose(
        grid_adjugate(g),
    )[i] by {
        assert forall|j: int| 0 <= j < n implies #[trigger] grid_adjugate(t)[i][j]
            == grid_transpose(grid_adjugate(g))[i][j] by {
            let gm = grid_minor(g, i, j);
            assert(square_grid(gm) && gm.len() == n - 1);
            lemma_minor_transpose(g, i, j);
            lemma_det_transpose_small(gm);
            assert(grid_adjugate(t)[i][j] == grid_cofactor(t)[j][i]);
            assert(grid_cofactor(t)[j][i] == cof_sign(j, i) * grid_det(grid_minor(t, j, i)));
            assert(grid_det(grid_minor(t, j, i)) == grid_det(gm));
            assert(grid_transpose(grid_adjugate(g))[i][j] == grid_adjugate(g)[j][i]);
            assert(grid_adjugate(g)[j][i] == grid_cofactor(g)[i][j]);
            assert(grid_cofactor(g)[i][j] == cof_sign(i, j) * grid_det(gm));
            assert(cof_sign(j, i) == cof_sign(i, j));
        }
    }
    assert(grid_adjugate(t) =~= grid_transpose(grid_adjugate(g)));
}

/// In dimension 2 the adjugate identity holds exactly: the product of a
/// grid with its adjugate is the identity scaled by the determinant.
pub proof fn lemma_mul_adjugate_dim2(g: Grid)
    requires
        square_grid(g),
        g.len() == 2,
    ensures
        grid_mul(g, grid_adjugate(g)) == grid_scale(grid_eye(2), grid_det(g)),
{
    let a = g[0][0];
    let b = g[0][1];
    let c = g[1][0];
    let d = g[1][1];
    let adj = grid_adjugate(g);
    lemma_mul_basics(d);
    lemma_mul_basics(a);
    lemma_mul_basics(b);
    lemma_mul_basics(c);
    lemma_mul_basics(grid_det(g));
    assert(grid_minor(g, 0, 0)[0][0] == d);
    assert(grid_minor(g, 0, 1)[0][0] == c);
    assert(grid_minor(g, 1, 0)[0][0] == b);
    assert(grid_minor(g, 1, 1)[0][0] == a);
    assert(grid_minor(g, 0, 0).len() == 1);
    assert(grid_det(grid_minor(g, 0, 0)) == d);
    assert(grid_det(grid_minor(g, 0, 1)) == c);
    assert(grid_det(grid_minor(g, 1, 0)) == b);
    assert(grid_det(grid_minor(g, 1, 1)) == a);
    assert(cof_sign(0, 0) == 1 && cof_sign(0, 1) == -1);
    assert(cof_sign(1, 0) == -1 && cof_sign(1, 1) == 1);
    assert(adj[0][0] == grid_cofactor(g)[0][0]);
    assert(adj[0][0] == d);
    assert(adj[0][1] == grid_cofactor(g)[1][0]);
    assert(adj[0][1] == -b);
    assert(adj[1][0] == grid_cofactor(g)[0][1]);
    assert(adj[1][0] == -c);
    assert(adj[1][1] == grid_cofactor(g)[1][1]);
    assert(adj[1][1] == a);
    let m = grid_mul(g, adj);
    lemma_mul_unary_negation(a, b);
    lemma_mul_unary_negation(b, c);
    lemma_mul_unary_negation(c, b);
    lemma_mul_unary_negation(d, c);
    lemma_mul_is_commutative(a, b);
    lemma_mul_is_commutative(b, a);
    lemma_mul_is_commutative(c, d);
    lemma_mul_is_commutative(b, c);
    lemma_mul_is_commutative(a, d);
    let e = grid_scale(grid_eye(2), grid_det(g));
    assert forall|i: int| 0 <= i < 2 implies #[trigger] m[i] =~= e[i] by {
        let ps0 = prod_seq(g[i], col_seq(adj, 0));
        lemma_sum_two(ps0);
        let ps1 = prod_seq(g[i], col_seq(adj, 1));
        lemma_sum_two(ps1);
        if i == 0 {
            assert(ps0[0] == a * d && ps0[1] == b * (-c));
            assert(m[0][0] == a * d - b * c);
            assert(ps1[0] == a * (-b) && ps1[1] == b * a);
            assert(m[0][1] == 0);
        } else {
            assert(ps0[0] == c * d && ps0[1] == d * (-c));
            assert(m[1][0] == c * d - d * c);
            assert(m[1][0] == 0);
            assert(ps1[0] == c * (-b) && ps1[1] == d * a);
            assert(m[1][1] == a * d - b * c);
        }
        assert(e[i][0] == grid_eye(2)[i][0] * grid_det(g));
        assert(e[i][1] == grid_eye(2)[i][1] * grid_det(g));
    }
    assert(m =~= e);
}

/// The product of three factors may be rotated: the last factor can be
/// brought to the front.
proof fn lemma_mul_rotate(a: int, b: int, c: int)
    ensures
        a * (b * c) == b * (c * a),
{
    lemma_mul_is_commutative(a, b * c);
    lemma_mul_is_associative(b, c, a);
}

/// Expanding a 3 by 3 determinant along its middle row agrees with the
/// Laplace expansion along the first row.
proof fn lemma_row_expansion_middle(p: int, q: int, r: int, s: int, t: int, u: int, v: int, w: int, x: int)
    ensures
        s * (-(q * x - r * w)) + t * (p * x - r * v) + u * (-(p * w - q * v)) == p * (t * x - u
            * w) - q * (s * x - u * v) + r * (s * w - t * v),
{
    lemma_mul_is_distributive_sub(s, r * w, q * x);
    lemma_mul_is_distributive_sub(t, p * x, r * v);
    lemma_mul_is_distributive_sub(u, q * v, p * w);
    lemma_mul_is_distributive_sub(p, t * x, u * w);
    lemma_mul_is_distributive_sub(q, s * x, u * v);
    lemma_mul_is_distributive_sub(r, s * w, t * v);
    assert(s * (-(q * x - r * w)) == s * (r * w) - s * (q * x));
    assert(u * (-(p * w - q * v)) == u * (q * v) - u * (p * w));
    lemma_mul_rotate(s, r, w);
    lemma_mul_rotate(r, w, s);
    lemma_mul_is_commutative(w, s);
    lemma_mul_rotate(s, q, x);
    lemma_mul_rotate(q, x, s);
    lemma_mul_is_commutative(x, s);
    lemma_mul_rotate(t, p, x);
    lemma_mul_rotate(p, x, t);
    lemma_mul_is_commutative(x, t);
    lemma_mul_rotate(t, r, v);
    lemma_mul_rotate(r, v, t);
    lemma_mul_is_commutative(v, t);
    lemma_mul_rotate(u, q, v);
    lemma_mul_rotate(q, v, u);
    lemma_mul_is_commutative(v, u);
    lemma_mul_rotate(u, p, w);
    lemma_mul_rotate(p, w, u);
    lemma_mul_is_commutative(w, u);
}

/// Expanding a 3 by 3 determinant along its last row agrees with the
/// Laplace expansion along the first row.
proof fn lemma_row_expansion_last(p: int, q: int, r: int, s: int, t: int, u: int, v: int, w: int, x: int)
    ensures
        v * (q * u - r * t) + w * (-(p * u - r * s)) + x * (p * t - q * s) == p * (t * x - u * w)
            - q * (s * x - u * v) + r * (s * w - t * v),
{
    lemma_mul_is_distributive_sub(v, q * u, r * t);
    lemma_mul_is_distributive_sub(w, r * s, p * u);
    lemma_mul_is_distributive_sub(x, p * t, q * s);
    lemma_mul_is_distributive_sub(p, t * x, u * w);
    lemma_mul_is_distributive_sub(q, s * x, u * v);
    lemma_mul_is_distributive_sub(r, s * w, t * v);
    assert(w * (-(p * u - r * s)) == w * (r * s) - w * (p * u));
    lemma_mul_rotate(v, q, u);
    lemma_mul_rotate(q, u, v);
    lemma_mul_is_commutative(u, v);
    lemma_mul_rotate(v, r, t);
    lemma_mul_rotate(r, t, v);
    lemma_mul_is_commutative(t, v);
    lemma_mul_rotate(w, r, s);
    lemma_mul_rotate(r, s, w);
    lemma_mul_is_commutative(s, w);
    lemma_mul_rotate(w, p, u);
    lemma_mul_rotate(p, u, w);
    lemma_mul_is_commutative(u, w);
    lemma_mul_rotate(x, p, t);
    lemma_mul_rotate(p, t, x);
    lemma_mul_is_commutative(t, x);
    lemma_mul_rotate(x, q, s);
    lemma_mul_rotate(q, s, x);
    lemma_mul_is_commutative(s, x);
}

/// A three-element sequence sums to the sum of its elements.
pub proof fn lemma_sum_three(s: Seq<int>)
    requires
        s.len() == 3,
    ensures
        sum_int(s) == s[0] + s[1] + s[2],
{
    lemma_sum_two(s.drop_last());
    assert(s.drop_last()[0] == s[0] && s.drop_last()[1] == s[1]);
    assert(s.last() == s[2]);
}

/// In dimension 3 the adjugate identity holds exactly as well: the
/// product of a grid with its adjugate is the identity scaled by the
/// determinant.
pub proof fn lemma_mul_adjugate_dim3(g: Grid)
    requires
        square_grid(g),
        g.len() == 3,
    ensures
        grid_mul(g, grid_adjugate(g)) == grid_scale(grid_eye(3), grid_det(g)),
{
    let p = g[0][0];
    let q = g[0][1];
    let r = g[0][2];
    let s = g[1][0];
    let t = g[1][1];
    let u = g[1][2];
    let v = g[2][0];
    let w = g[2][1];
    let x = g[2][2];
    let m00 = t * x - u * w;
    let m01 = s * x - u * v;
    let m02 = s * w - t * v;
    let m10 = q * x - r * w;
    let m11 = p * x - r * v;
    let m12 = p * w - q * v;
    let m20 = q * u - r * t;
    let m21 = p * u - r * s;
    let m22 = p * t - q * s;
    assert(grid_det(grid_minor(g, 0, 0)) == m00);
    assert(grid_det(grid_minor(g, 0, 1)) == m01);
    assert(grid_det(grid_minor(g, 0, 2)) == m02);
    assert(grid_det(grid_minor(g, 1, 0)) == m10);
    assert(grid_det(grid_minor(g, 1, 1)) == m11);
    assert(grid_det(grid_minor(g, 1, 2)) == m12);
    assert(grid_det(grid_minor(g, 2, 0)) == m20);
    assert(grid_det(grid_minor(g, 2, 1)) == m21);
    assert(grid_det(grid_minor(g, 2, 2)) == m22);
    let cof = grid_cofactor(g);
    assert(cof_sign(0, 0) == 1 && cof_sign(0, 1) == -1 && cof_sign(0, 2) == 1);
    assert(cof_sign(1, 0) == -1 && cof_sign(1, 1) == 1 && cof_sign(1, 2) == -1);
    assert(cof_sign(2, 0) == 1 && cof_sign(2, 1) == -1 && cof_sign(2, 2) == 1);
    assert(cof[0][0] == cof_sign(0, 0) * grid_det(grid_minor(g, 0, 0)));
    assert(cof[0][1] == cof_sign(0, 1) * grid_det(grid_minor(g, 0, 1)));
    assert(cof[0][2] == cof_sign(0, 2) * grid_det(grid_minor(g, 0, 2)));
    assert(cof[1][0] == cof_sign(1, 0) * grid_det(grid_minor(g, 1, 0)));
    assert(cof[1][1] == cof_sign(1, 1) * grid_det(grid_minor(g, 1, 1)));
    assert(cof[1][2] == cof_sign(1, 2) * grid_det(grid_minor(g, 1, 2)));
    assert(cof[2][0] == cof_sign(2, 0) * grid_det(grid_minor(g, 2, 0)));
    assert(cof[2][1] == cof_sign(2, 1) * grid_det(grid_minor(g, 2, 1)));
    assert(cof[2][2] == cof_sign(2, 2) * grid_det(grid_minor(g, 2, 2)));
    assert(cof[0][0] == m00 && cof[0][1] == -m01 && cof[0][2] == m02);
    assert(cof[1][0] == -m10 && cof[1][1] == m11 && cof[1][2] == -m12);
    assert(cof[2][0] == m20 && cof[2][1] == -m21 && cof[2][2] == m22);
    let adj = grid_adjugate(g);
    assert(adj[0][0] == cof[0][0] && adj[0][1] == cof[1][0] && adj[0][2] == cof[2][0]);
    assert(adj[1][0] == cof[0][1] && adj[1][1] == cof[1][1] && adj[1][2] == cof[2][1]);
    assert(adj[2][0] == cof[0][2] && adj[2][1] == cof[1][2] && adj[2][2] == cof[2][2]);
    lemma_mul_unary_negation(q, m01);
    assert(det_expand(g, 0) == 0);
    assert(det_expand(g, 1) == det_expand(g, 0) + det_sign(0) * p * grid_det(grid_minor(g, 0, 0)));
    assert(det_expand(g, 1) == det_sign(0) * p * m00);
    assert(det_expand(g, 2) == det_expand(g, 1) + det_sign(1) * q * m01);
    assert(det_expand(g, 3) == det_expand(g, 2) + det_sign(2) * r * m02);
    let dd = grid_det(g);
    assert(dd == det_expand(g, 3));
    assert(dd == p * m00 - q * m01 + r * m02);
    lemma_mul_basics(dd);
    let e = grid_scale(grid_eye(3), dd);
    let prod = grid_mul(g, adj);
    assert forall|i: int| 0 <= i < 3 implies #[trigger] prod[i] =~= e[i] by {
        assert forall|j: int| 0 <= j < 3 implies #[trigger] prod[i][j] == e[i][j] by {
            let ps = prod_seq(g[i], col_seq(adj, j));
            lemma_sum_three(ps);
            assert(ps[0] == g[i][0] * adj[0][j]);
            assert(ps[1] == g[i][1] * adj[1][j]);
            assert(ps[2] == g[i][2] * adj[2][j]);
            assert(e[i][j] == grid_eye(3)[i][j] * dd);
            if i == 0 {
                if j == 0 {
                    assert(p * m00 + q * (-m01) + r * m02 == dd) by {
                        lemma_mul_unary_negation(q, m01);
                    }
                } else if j == 1 {
                    assert(p * (-(q * x - r * w)) + q * (p * x - r * v) + r * (-(p * w - q * v))
                        == 0) by (nonlinear_arith);
                } else {
                    assert(p * (q * u - r * t) + q * (-(p * u - r * s)) + r * (p * t - q * s)
                        == 0) by (nonlinear_arith);
                }
            } else if i == 1 {
                if j == 0 {
                    assert(s * (t * x - u * w) + t * (-(s * x - u * v)) + u * (s * w - t * v)
                        == 0) by (nonlinear_arith);
                } else if j == 1 {
                    lemma_row_expansion_middle(p, q, r, s, t, u, v, w, x);
                } else {
                    assert(s * (q * u - r * t) + t * (-(p * u - r * s)) + u * (p * t - q * s)
                        == 0) by (nonlinear_arith);
                }
            } else {
                if j == 0 {
                    assert(v * (t * x - u * w) + w * (-(s * x - u * v)) + x * (s * w - t * v)
                        == 0) by (nonlinear_arith);
                } else if j == 1 {
                    assert(v * (-(q * x - r * w)) + w * (p * x - r * v) + x * (-(p * w - q * v))
                        == 0) by (nonlinear_arith);
                } else {
                    lemma_row_expansion_last(p, q, r, s, t, u, v, w, x);
                }
            }
        }
    }
    assert(prod =~= e);
}

} // verus!
