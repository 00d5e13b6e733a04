use vstd::prelude::*;
use vstd::arithmetic::div_mod::lemma_fundamental_div_mod_converse;

verus! {

/// Head `h` of a row-major `[rows, d_model]` matrix: the `d_head` columns starting at
/// column `h * d_head`, as a row-major `[rows, d_head]` matrix.
pub open spec fn head_columns<T>(x: Seq<T>, d_model: nat, d_head: nat, h: int) -> Seq<T> {
    let rows: nat = x.len() / d_model;
    Seq::new(
        rows * d_head,
        |k: int| x[(k / (d_head as int)) * d_model + h * d_head + k % (d_head as int)],
    )
}

/// Every head of `x`, in order.
pub open spec fn split_heads<T>(x: Seq<T>, d_model: nat, d_head: nat, n_heads: nat) -> Seq<Seq<T>> {
    Seq::new(n_heads, |h: int| head_columns(x, d_model, d_head, h))
}

/// The row-major `[rows, d_model]` matrix whose column `c` of row `i` is column
/// `c % d_head` of row `i` of head `c / d_head`, and `fill` where no head reaches.
pub open spec fn join_heads<T>(
    parts: Seq<Seq<T>>,
    rows: nat,
    d_model: nat,
    d_head: nat,
    n_heads: nat,
    fill: T,
) -> Seq<T> {
    Seq::new(
        rows * d_model,
        |q: int|
            {
                let c: int = q % (d_model as int);
                if c < n_heads * d_head {
                    parts[c / (d_head as int)][(q / (d_model as int)) * d_head + c % (d_head as int)]
                } else {
                    fill
                }
            },
    )
}

/// When `split_columns` can slice every head out of `x`.
pub open spec fn can_split(len: nat, d_model: nat, d_head: nat, n_heads: nat) -> bool {
    &&& d_model > 0
    &&& n_heads > 0
    &&& len % d_model == 0
    &&& d_model % n_heads == 0
    &&& len > 0 ==> n_heads * d_head <= d_model
}

/// When `concat_columns_into` can copy every head into its columns.
pub open spec fn can_join<T>(parts: Seq<Seq<T>>, rows: nat, d_model: nat, d_head: nat, n_heads: nat) -> bool {
    &&& n_heads > 0
    &&& parts.len() == n_heads
    &&& parts[0].len() == rows * d_head
    &&& rows > 0 ==> n_heads * d_head <= d_model
    &&& rows > 0 ==> forall|h: int| 0 <= h < n_heads ==> #[trigger] parts[h].len() >= rows * d_head
}

proof fn lemma_row_col(i: int, w: int, c: int, rows: int)
    requires
        0 <= i < rows,
        0 <= c < w,
    ensures
        0 <= i * w + c < rows * w,
        (i * w + c) / w == i,
        (i * w + c) % w == c,
{
    assert(0 <= i * w) by (nonlinear_arith)
        requires
            0 <= i,
            0 <= w,
    ;
    assert(i * w + c < rows * w) by (nonlinear_arith)
        requires
            0 <= i < rows,
            0 <= c < w,
    ;
    lemma_fundamental_div_mod_converse(i * w + c, w, i, c);
}

proof fn lemma_split_cell(k: int, d_head: int, d_model: int, h: int, n_heads: int, rows: int)
    requires
        0 <= k < rows * d_head,
        d_head > 0,
        0 <= h < n_heads,
        n_heads * d_head <= d_model,
    ensures
        0 <= k / d_head < rows,
        0 <= k % d_head < d_head,
        0 <= (k / d_head) * d_model,
        0 <= h * d_head,
        0 <= (k / d_head) * d_model + h * d_head + k % d_head < rows * d_model,
{
    let i: int = k / d_head;
    let j: int = k % d_head;
    vstd::arithmetic::div_mod::lemma_fundamental_div_mod(k, d_head);
    assert(0 <= j < d_head);
    assert(0 <= i < rows) by (nonlinear_arith)
        requires
            k == d_head * i + j,
            0 <= j < d_head,
            0 <= k < rows * d_head,
            d_head > 0,
    ;
    assert(h * d_head + d_head <= n_heads * d_head) by (nonlinear_arith)
        requires
            0 <= h < n_heads,
            d_head > 0,
    ;
    assert(0 <= h * d_head) by (nonlinear_arith)
        requires
            0 <= h,
            d_head > 0,
    ;
    lemma_row_col(i, d_model, h * d_head + j, rows);
}

/// Splits a row-major `[rows, d_model]` matrix into `n_heads` matrices of `d_head` columns.
pub fn split_columns<T: Copy>(x: &[T], d_model: usize, d_head: usize, n_heads: usize) -> (r: Vec<Vec<T>>)
    requires
        can_split(x@.len(), d_model as nat, d_head as nat, n_heads as nat),
    ensures
        r@.len() == n_heads,
        forall|h: int| 0 <= h < n_heads ==> (#[trigger] r@[h])@ == split_heads(x@, d_model as nat, d_head as nat, n_heads as nat)[h],
{
    let rows: usize = x.len() / d_model;
    let ghost spec_rows = x@.len() / (d_model as nat);
    assert(rows == spec_rows);
    let width: usize = if rows == 0 { 0 } else { d_head };
    proof {
        if rows > 0 {
            assert(n_heads * d_head <= d_model);
            assert(rows * d_head <= rows * d_model) by (nonlinear_arith)
                requires
                    n_heads * d_head <= d_model,
                    n_heads > 0,
                    rows > 0,
            ;
            vstd::arithmetic::div_mod::lemma_fundamental_div_mod(x@.len() as int, d_model as int);
            assert(rows * d_model == x@.len()) by (nonlinear_arith)
                requires
                    x@.len() as int == d_model * rows + (x@.len() as int) % (d_model as int),
                    (x@.len() as int) % (d_model as int) == 0,
            ;
        }
    }
    let total: usize = rows * width;
    assert(total == rows * d_head) by (nonlinear_arith)
        requires
            total == rows * width,
            width == d_head || rows == 0,
    ;
    let mut out: Vec<Vec<T>> = Vec::new();
    for h in 0..n_heads
        invariant
            can_split(x@.len(), d_model as nat, d_head as nat, n_heads as nat),
            rows == x@.len() / (d_model as nat),
            total == rows * d_head,
            rows > 0 ==> rows * d_model == x@.len(),
            out@.len() == h,
            forall|g: int| 0 <= g < h ==> (#[trigger] out@[g])@ == split_heads(x@, d_model as nat, d_head as nat, n_heads as nat)[g],
    {
        let mut data: Vec<T> = Vec::new();
        for k in 0..total
            invariant
                can_split(x@.len(), d_model as nat, d_head as nat, n_heads as nat),
                rows == x@.len() / (d_model as nat),
                total == rows * d_head,
                rows > 0 ==> rows * d_model == x@.len(),
                0 <= h < n_heads,
                data@.len() == k,
                forall|m: int| 0 <= m < k ==> #[trigger] data@[m] == head_columns(x@, d_model as nat, d_head as nat, h as int)[m],
        {
            proof {
                assert(rows > 0 && d_head > 0) by (nonlinear_arith)
                    requires
                        k < total,
                        total == rows * d_head,
                ;
                lemma_split_cell(k as int, d_head as int, d_model as int, h as int, n_heads as int, rows as int);
            }
            let i: usize = k / d_head;
            let j: usize = k % d_head;
            assert(i * d_model + h * d_head + j < x.len());
            data.push(x[i * d_model + h * d_head + j]);
        }
        assert(data@ =~= head_columns(x@, d_model as nat, d_head as nat, h as int));
        out.push(data);
    }
    out
}

proof fn lemma_join_cell(q: int, rows: int, d_model: int, d_head: int, n_heads: int)
    requires
        0 <= q < rows * d_model,
        d_model > 0,
        n_heads >= 0,
        q % d_model < n_heads * d_head,
    ensures
        d_head > 0,
        0 <= q / d_model < rows,
        0 <= (q % d_model) / d_head < n_heads,
        0 <= (q % d_model) % d_head < d_head,
        0 <= (q / d_model) * d_head,
        0 <= (q / d_model) * d_head + (q % d_model) % d_head < rows * d_head,
{
    let i: int = q / d_model;
    let c: int = q % d_model;
    vstd::arithmetic::div_mod::lemma_fundamental_div_mod(q, d_model);
    assert(0 <= c < d_model);
    assert(d_head > 0) by (nonlinear_arith)
        requires
            0 <= c < n_heads * d_head,
            n_heads >= 0,
    ;
    assert(0 <= i < rows) by (nonlinear_arith)
        requires
            q == d_model * i + c,
            0 <= c < d_model,
            0 <= q < rows * d_model,
            d_model > 0,
    ;
    let h: int = c / d_head;
    let j: int = c % d_head;
    vstd::arithmetic::div_mod::lemma_fundamental_div_mod(c, d_head);
    assert(0 <= h < n_heads) by (nonlinear_arith)
        requires
            c == d_head * h + j,
            0 <= j < d_head,
            0 <= c < n_heads * d_head,
            d_head > 0,
    ;
    lemma_row_col(i, d_head, j, rows);
}

/// Joins `n_heads` row-major `[rows, d_head]` matrices side by side into one
/// `[rows, d_model]` matrix; columns that no head covers hold `T::default()`.
pub fn concat_columns_into<T: Copy + Default>(
    parts: &[Vec<T>],
    seq: usize,
    d_model: usize,
    d_head: usize,
    n_heads: usize,
) -> (r: Vec<T>)
    requires
        can_join(parts@.map_values(|p: Vec<T>| p@), seq as nat, d_model as nat, d_head as nat, n_heads as nat),
        seq * d_model <= usize::MAX,
    ensures
        exists|fill: T|
            call_ensures(T::default, (), fill)
            && r@ == join_heads(parts@.map_values(|p: Vec<T>| p@), seq as nat, d_model as nat, d_head as nat, n_heads as nat, fill),
{
    let fill: T = T::default();
    let total: usize = seq * d_model;
    let covered: usize = if seq == 0 { 0 } else { n_heads * d_head };
    let ghost ps: Seq<Seq<T>> = parts@.map_values(|p: Vec<T>| p@);
    let mut out: Vec<T> = Vec::new();
    for q in 0..total
        invariant
            can_join(ps, seq as nat, d_model as nat, d_head as nat, n_heads as nat),
            ps == parts@.map_values(|p: Vec<T>| p@),
            total == seq * d_model,
            seq > 0 ==> covered == n_heads * d_head,
            out@.len() == q,
            forall|m: int| 0 <= m < q ==> #[trigger] out@[m] == join_heads(ps, seq as nat, d_model as nat, d_head as nat, n_heads as nat, fill)[m],
    {
        proof {
            assert(seq > 0 && d_model > 0) by (nonlinear_arith)
                requires
                    q < total,
                    total == seq * d_model,
            ;
        }
        let c: usize = q % d_model;
        if c < covered {
            proof {
                lemma_join_cell(q as int, seq as int, d_model as int, d_head as int, n_heads as int);
            }
            let h: usize = c / d_head;
            let i: usize = q / d_model;
            let j: usize = c % d_head;
            assert(ps[h as int] == parts@[h as int]@);
            assert(parts@[h as int]@.len() >= seq * d_head);
            assert(i * d_head + j < parts@[h as int].len());
            out.push(parts[h][i * d_head + j]);
        } else {
            out.push(fill);
        }
    }
    assert(out@ =~= join_heads(ps, seq as nat, d_model as nat, d_head as nat, n_heads as nat, fill));
    out
}

/// Splitting a matrix whose columns the heads exactly cover, then joining the
/// heads again, gives the matrix back.
pub proof fn lemma_join_split<T>(x: Seq<T>, d_model: nat, d_head: nat, n_heads: nat, fill: T)
    requires
        can_split(x.len(), d_model, d_head, n_heads),
        d_model == n_heads * d_head,
    ensures
        join_heads(split_heads(x, d_model, d_head, n_heads), x.len() / d_model, d_model, d_head, n_heads, fill) == x,
{
    let rows: nat = x.len() / d_model;
    let y = join_heads(split_heads(x, d_model, d_head, n_heads), rows, d_model, d_head, n_heads, fill);
    vstd::arithmetic::div_mod::lemma_fundamental_div_mod(x.len() as int, d_model as int);
    assert(rows * d_model == x.len()) by (nonlinear_arith)
        requires
            x.len() as int == d_model * rows + (x.len() as int) % (d_model as int),
            (x.len() as int) % (d_model as int) == 0,
    ;
    assert forall|q: int| 0 <= q < x.len() implies #[trigger] y[q] == x[q] by {
        lemma_join_cell(q, rows as int, d_model as int, d_head as int, n_heads as int);
        let i: int = q / (d_model as int);
        let c: int = q % (d_model as int);
        let h: int = c / (d_head as int);
        let j: int = c % (d_head as int);
        vstd::arithmetic::div_mod::lemma_fundamental_div_mod(q, d_model as int);
        vstd::arithmetic::div_mod::lemma_fundamental_div_mod(c, d_head as int);
        lemma_row_col(i, d_head as int, j, rows as int);
        assert(d_model * i == i * d_model) by (nonlinear_arith);
        assert(d_head * h == h * d_head) by (nonlinear_arith);
    }
    assert(y =~= x);
}

/// Joining heads that each hold exactly `rows * d_head` values, then splitting
/// the result, gives the heads back.
pub proof fn lemma_split_join<T>(parts: Seq<Seq<T>>, rows: nat, d_model: nat, d_head: nat, n_heads: nat, fill: T)
    requires
        d_model > 0,
        parts.len() == n_heads,
        n_heads * d_head <= d_model,
        forall|h: int| 0 <= h < n_heads ==> #[trigger] parts[h].len() == rows * d_head,
    ensures
        split_heads(join_heads(parts, rows, d_model, d_head, n_heads, fill), d_model, d_head, n_heads) == parts,
{
    let y = join_heads(parts, rows, d_model, d_head, n_heads, fill);
    lemma_fundamental_div_mod_converse((rows * d_model) as int, d_model as int, rows as int, 0);
    assert(y.len() / d_model == rows);
    assert forall|h: int| 0 <= h < n_heads implies #[trigger] split_heads(y, d_model, d_head, n_heads)[h] == parts[h] by {
        let col = head_columns(y, d_model, d_head, h);
        assert forall|k: int| 0 <= k < rows * d_head implies #[trigger] col[k] == parts[h][k] by {
            assert(d_head > 0) by (nonlinear_arith)
                requires
                    0 <= k < rows * d_head,
            ;
            lemma_split_cell(k, d_head as int, d_model as int, h, n_heads as int, rows as int);
            let i: int = k / (d_head as int);
            let j: int = k % (d_head as int);
            vstd::arithmetic::div_mod::lemma_fundamental_div_mod(k, d_head as int);
            assert(0 <= h * d_head + j < d_model) by (nonlinear_arith)
                requires
                    0 <= h < n_heads,
                    0 <= j < d_head,
                    n_heads * d_head <= d_model,
            ;
            lemma_row_col(i, d_model as int, h * d_head + j, rows as int);
            lemma_row_col(h, d_head as int, j, n_heads as int);
            assert(d_head * i == i * d_head) by (nonlinear_arith);
        }
        assert(col =~= parts[h]);
    }
    assert(split_heads(y, d_model, d_head, n_heads) =~= parts);
}

} // verus!
