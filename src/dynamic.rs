//! Dynamic-programming solvers: the cheapest order of a chain of matrix
//! products, and a longest common subsequence of two strings.

use vstd::prelude::*;
use crate::list::reversed;
use crate::text::{chars_of, push_char, push_reversed};

verus! {

/// Position of cell `(x, y)` in a table stored row after row, `n` cells to a
/// row.
pub fn idx(x: usize, y: usize, n: usize) -> (r: usize)
    requires
        x + y * n <= usize::MAX,
    ensures
        r == x + y * n,
{
    x + y * n
}

/// The shape of one matrix.
pub struct MatrixSize {
    pub rows: usize,
    pub cols: usize,
}

/// The cheapest way to multiply a chain of matrices: its cost in scalar
/// multiplications, the length of the chain, and for each sub-chain
/// `[left, right]` the position after which it is best split, at
/// `order[idx(left, right, matrices_count)]`.
pub struct MultiplicationOrder {
    pub multiplications: usize,
    pub matrices_count: usize,
    pub order: Vec<usize>,
}

/// Scalar multiplications for the product of the chain `[i, k]` by the
/// chain `[k + 1, j]`, once both are computed.
pub open spec fn join_cost(m: Seq<MatrixSize>, i: int, k: int, j: int) -> nat {
    (m[i].rows as nat) * (m[k].cols as nat) * (m[j].cols as nat)
}

/// The least number of scalar multiplications that computes the product of
/// the chain `[i, j]`.
pub open spec fn chain_cost(m: Seq<MatrixSize>, i: int, j: int) -> nat
    decreases j - i, 1int, 0int,
{
    if i >= j {
        0
    } else {
        best_split_upto(m, i, j, j)
    }
}

/// The cost of the chain `[i, j]` when split after `k`.
pub open spec fn split_cost(m: Seq<MatrixSize>, i: int, k: int, j: int) -> nat
    decreases j - i, 0int, 0int,
{
    if i <= k < j {
        chain_cost(m, i, k) + chain_cost(m, k + 1, j) + join_cost(m, i, k, j)
    } else {
        0
    }
}

/// The least cost of the chain `[i, j]` over the splits after `i` to `e - 1`.
pub open spec fn best_split_upto(m: Seq<MatrixSize>, i: int, j: int, e: int) -> nat
    decreases j - i, 0int, e - i,
{
    if i < e <= j {
        if e == i + 1 {
            split_cost(m, i, i, j)
        } else {
            let rest = best_split_upto(m, i, j, e - 1);
            let here = split_cost(m, i, e - 1, j);
            if here < rest {
                here
            } else {
                rest
            }
        }
    } else {
        0
    }
}

/// `x`, or `usize::MAX` if it is larger.
pub open spec fn capped(x: nat) -> nat {
    if x < usize::MAX {
        x
    } else {
        usize::MAX as nat
    }
}

/// `k` is the first split of the chain `[x, y]` that attains its least cost,
/// whenever that cost is below `usize::MAX`.
pub open spec fn is_best_split(m: Seq<MatrixSize>, x: int, y: int, k: int) -> bool {
    &&& x <= k < y
    &&& chain_cost(m, x, y) < usize::MAX ==> {
        &&& split_cost(m, x, k, y) == chain_cost(m, x, y)
        &&& forall|k2: int| x <= k2 < k ==> chain_cost(m, x, y) < #[trigger] split_cost(m, x, k2, y)
    }
}

/// No split among the first ones is cheaper than their least cost.
proof fn lemma_best_split_upto_le(m: Seq<MatrixSize>, i: int, j: int, e: int, k: int)
    requires
        i <= k < e <= j,
    ensures
        best_split_upto(m, i, j, e) <= split_cost(m, i, k, j),
    decreases e - i,
{
    if e > i + 1 && k < e - 1 {
        lemma_best_split_upto_le(m, i, j, e - 1, k);
    }
}

/// Cells of an `n`-wide table are distinct for distinct coordinates.
proof fn lemma_cells_distinct(x1: int, y1: int, x2: int, y2: int, n: int)
    requires
        0 <= x1 < n,
        0 <= x2 < n,
        0 <= y1,
        0 <= y2,
        x1 != x2 || y1 != y2,
    ensures
        x1 + y1 * n != x2 + y2 * n,
{
    if y1 == y2 {
    } else if y1 < y2 {
        assert(y1 * n + n <= y2 * n) by (nonlinear_arith)
            requires
                y1 < y2,
                0 <= n,
        ;
    } else {
        assert(y2 * n + n <= y1 * n) by (nonlinear_arith)
            requires
                y2 < y1,
                0 <= n,
        ;
    }
}

/// A cell of a table `w` cells wide and `h` rows high lies within it.
proof fn lemma_cell_in_table(x: int, y: int, w: int, h: int)
    requires
        0 <= x < w,
        0 <= y < h,
    ensures
        0 <= x + y * w < w * h,
{
    assert(0 <= y * w) by (nonlinear_arith)
        requires
            0 <= y,
            0 <= w,
    ;
    assert(y * w + w <= w * h) by (nonlinear_arith)
        requires
            y < h,
            0 <= w,
    ;
}

/// `a * b * c`, or `usize::MAX` where that is larger.
fn capped_product(a: usize, b: usize, c: usize) -> (r: usize)
    ensures
        r == capped((a as nat) * (b as nat) * (c as nat)),
{
    match a.checked_mul(b) {
        Some(ab) => match ab.checked_mul(c) {
            Some(abc) => abc,
            None => usize::MAX,
        },
        None => {
            if c == 0 {
                assert((a as nat) * (b as nat) * 0 == 0) by (nonlinear_arith);
                0
            } else {
                assert((a as nat) * (b as nat) * (c as nat) >= (a as nat) * (b as nat))
                    by (nonlinear_arith)
                    requires
                        c >= 1,
                ;
                usize::MAX
            }
        },
    }
}

/// Finds the cheapest order in which to multiply a chain of matrices: for
/// every sub-chain, by increasing length, the split with the least cost.
/// Costs that do not fit in a `usize` are held as `usize::MAX`.
pub fn matrix_mul(matrices: &Vec<MatrixSize>) -> (r: MultiplicationOrder)
    requires
        matrices@.len() > 0,
        matrices@.len() * matrices@.len() <= usize::MAX,
    ensures
        r.well_formed(),
        r.matrices_count == matrices@.len(),
        r.multiplications == capped(chain_cost(matrices@, 0, matrices@.len() - 1)),
        r.order@.len() == matrices@.len() * matrices@.len(),
        forall|x: int, y: int|
            0 <= x < y < matrices@.len() ==> is_best_split(
                matrices@,
                x,
                y,
                #[trigger] r.order@[x + y * matrices@.len()] as int,
            ),
{
    let n = matrices.len();
    let ghost m = matrices@;
    let mut multiplications: Vec<usize> = vec![0; n * n];
    let mut order: Vec<usize> = vec![0; n * n];
    assert(forall|c: int| 0 <= c < n * n ==> multiplications@[c] == 0);
    assert forall|x: int, y: int| 0 <= x <= y < n && y - x < 1 implies #[trigger] multiplications@[x
        + y * n] == capped(chain_cost(m, x, y)) by {
        lemma_cell_in_table(x, y, n as int, n as int);
    }
    let mut i: usize = 1;
    while i < n
        invariant
            1 <= i <= n,
            n == m.len(),
            m == matrices@,
            n * n <= usize::MAX,
            multiplications@.len() == n * n,
            order@.len() == n * n,
            forall|x: int, y: int|
                0 <= x <= y < n && y - x < i ==> #[trigger] multiplications@[x + y * n]
                    == capped(chain_cost(m, x, y)),
            forall|x: int, y: int|
                0 <= x < y < n && y - x < i ==> is_best_split(
                    m,
                    x,
                    y,
                    #[trigger] order@[x + y * n] as int,
                ),
        decreases n - i,
    {
        let mut j: usize = 0;
        while j < n - i
            invariant
                1 <= i < n,
                j <= n - i,
                n == m.len(),
                m == matrices@,
                n * n <= usize::MAX,
                multiplications@.len() == n * n,
                order@.len() == n * n,
                forall|x: int, y: int|
                    0 <= x <= y < n && (y - x < i || (y - x == i && x < j))
                        ==> #[trigger] multiplications@[x + y * n] == capped(chain_cost(m, x, y)),
                forall|x: int, y: int|
                    0 <= x < y < n && (y - x < i || (y - x == i && x < j)) ==> is_best_split(
                        m,
                        x,
                        y,
                        #[trigger] order@[x + y * n] as int,
                    ),
            decreases n - i - j,
        {
            let last = j + i;
            proof {
                assert((j as int) + (last as int) * (n as int) < n * n) by (nonlinear_arith)
                    requires
                        j < n,
                        last < n,
                ;
            }
            let index = idx(j, last, n);
            let ghost mult_before = multiplications@;
            let ghost order_before = order@;
            multiplications.set(index, usize::MAX);
            order.set(index, j);
            proof {
                assert forall|x: int, y: int|
                    0 <= x <= y < n && (y - x < i || (y - x == i && x < j)) implies #[trigger] multiplications@[x
                    + y * n] == capped(chain_cost(m, x, y)) by {
                    lemma_cells_distinct(x, y, j as int, last as int, n as int);
                    lemma_cell_in_table(x, y, n as int, n as int);
                    assert(mult_before[x + y * n] == capped(chain_cost(m, x, y)));
                }
                assert forall|x: int, y: int|
                    0 <= x < y < n && (y - x < i || (y - x == i && x < j)) implies is_best_split(
                    m,
                    x,
                    y,
                    #[trigger] order@[x + y * n] as int,
                ) by {
                    lemma_cells_distinct(x, y, j as int, last as int, n as int);
                    lemma_cell_in_table(x, y, n as int, n as int);
                    assert(is_best_split(m, x, y, order_before[x + y * n] as int));
                }
            }
            let mut k: usize = j;
            while k < last
                invariant
                    1 <= i < n,
                    j < n - i,
                    last == j + i,
                    j <= k <= last,
                    n == m.len(),
                    m == matrices@,
                    n * n <= usize::MAX,
                    index == j + last * n,
                    multiplications@.len() == n * n,
                    order@.len() == n * n,
                    forall|x: int, y: int|
                        0 <= x <= y < n && (y - x < i || (y - x == i && x < j))
                            ==> #[trigger] multiplications@[x + y * n] == capped(
                            chain_cost(m, x, y),
                        ),
                    forall|x: int, y: int|
                        0 <= x < y < n && (y - x < i || (y - x == i && x < j)) ==> is_best_split(
                            m,
                            x,
                            y,
                            #[trigger] order@[x + y * n] as int,
                        ),
                    k == j ==> multiplications@[index as int] == usize::MAX,
                    k > j ==> multiplications@[index as int] == capped(
                        best_split_upto(m, j as int, last as int, k as int),
                    ),
                    j <= order@[index as int] < last,
                    k > j && multiplications@[index as int] < usize::MAX ==> {
                        &&& order@[index as int] < k
                        &&& split_cost(m, j as int, order@[index as int] as int, last as int)
                            == best_split_upto(m, j as int, last as int, k as int)
                        &&& forall|k2: int|
                            j <= k2 < order@[index as int] ==> best_split_upto(
                                m,
                                j as int,
                                last as int,
                                k as int,
                            ) < #[trigger] split_cost(m, j as int, k2, last as int)
                    },
                decreases last - k,
            {
                proof {
                    assert((j as int) + (k as int) * (n as int) < n * n) by (nonlinear_arith)
                        requires
                            j < n,
                            k < n,
                    ;
                    assert((k as int) + 1 + (last as int) * (n as int) < n * n)
                        by (nonlinear_arith)
                        requires
                            k + 1 < n + 1,
                            k + 1 <= last,
                            last < n,
                    ;
                }
                let left_cost = multiplications[idx(j, k, n)];
                let right_cost = multiplications[idx(k + 1, last, n)];
                let join = capped_product(matrices[j].rows, matrices[k].cols, matrices[last].cols);
                let this_split_cost = left_cost.saturating_add(right_cost).saturating_add(join);
                proof {
                    assert(this_split_cost == capped(split_cost(m, j as int, k as int, last as int)));
                    if k > j {
                        lemma_best_split_upto_le(m, j as int, last as int, k as int, k as int - 1);
                    }
                }
                let ghost mult_before = multiplications@;
                let ghost order_before = order@;
                if this_split_cost < multiplications[index] {
                    multiplications.set(index, this_split_cost);
                    order.set(index, k);
                    proof {
                        assert forall|k2: int| j <= k2 < k implies best_split_upto(
                            m,
                            j as int,
                            last as int,
                            k + 1,
                        ) < #[trigger] split_cost(m, j as int, k2, last as int) by {
                            lemma_best_split_upto_le(m, j as int, last as int, k as int, k2);
                        }
                    }
                }
                proof {
                    assert forall|x: int, y: int|
                        0 <= x <= y < n && (y - x < i || (y - x == i && x < j)) implies #[trigger] multiplications@[x
                        + y * n] == capped(chain_cost(m, x, y)) by {
                        lemma_cells_distinct(x, y, j as int, last as int, n as int);
                        lemma_cell_in_table(x, y, n as int, n as int);
                        assert(mult_before[x + y * n] == capped(chain_cost(m, x, y)));
                    }
                    assert forall|x: int, y: int|
                        0 <= x < y < n && (y - x < i || (y - x == i && x < j)) implies is_best_split(
                        m,
                        x,
                        y,
                        #[trigger] order@[x + y * n] as int,
                    ) by {
                        lemma_cells_distinct(x, y, j as int, last as int, n as int);
                        lemma_cell_in_table(x, y, n as int, n as int);
                        assert(is_best_split(m, x, y, order_before[x + y * n] as int));
                    }
                }
                k += 1;
            }
            j += 1;
        }
        i += 1;
    }
    proof {
        assert(((n - 1) as int) * (n as int) < n * n) by (nonlinear_arith)
            requires
                n >= 1,
        ;
    }
    let total = multiplications[idx(0, n - 1, n)];
    let r = MultiplicationOrder { multiplications: total, matrices_count: n, order: order };
    assert forall|x: int, y: int| 0 <= x < y < n implies x <= #[trigger] r.order@[x + y * n] < y by {
        assert(is_best_split(m, x, y, r.order@[x + y * n] as int));
    }
    r
}

/// The decimal digit for `d < 10`.
pub open spec fn digit(d: nat) -> char {
    if d == 0 {
        '0'
    } else if d == 1 {
        '1'
    } else if d == 2 {
        '2'
    } else if d == 3 {
        '3'
    } else if d == 4 {
        '4'
    } else if d == 5 {
        '5'
    } else if d == 6 {
        '6'
    } else if d == 7 {
        '7'
    } else if d == 8 {
        '8'
    } else {
        '9'
    }
}

/// `k` written in decimal, without leading zeros.
pub open spec fn decimal(k: nat) -> Seq<char>
    decreases k,
{
    if k < 10 {
        seq![digit(k)]
    } else {
        decimal(k / 10).push(digit(k % 10))
    }
}

/// The product of the chain `[l, r]` written out with the splits of `order`
/// (a table `n` cells wide): `A<l>` for a single matrix, otherwise
/// `(<left part>*<right part>)`.
pub open spec fn parenthesization(order: Seq<usize>, n: int, l: int, r: int) -> Seq<char>
    decreases r - l,
{
    if l >= r {
        seq!['A'] + decimal(l as nat)
    } else {
        let split = order[l + r * n] as int;
        if l <= split < r {
            seq!['('] + parenthesization(order, n, l, split) + seq!['*'] + parenthesization(
                order,
                n,
                split + 1,
                r,
            ) + seq![')']
        } else {
            Seq::empty()
        }
    }
}

/// The character of the decimal digit `d`.
fn digit_char(d: usize) -> (c: char)
    requires
        d < 10,
    ensures
        c == digit(d as nat),
{
    if d == 0 {
        '0'
    } else if d == 1 {
        '1'
    } else if d == 2 {
        '2'
    } else if d == 3 {
        '3'
    } else if d == 4 {
        '4'
    } else if d == 5 {
        '5'
    } else if d == 6 {
        '6'
    } else if d == 7 {
        '7'
    } else if d == 8 {
        '8'
    } else {
        '9'
    }
}

/// Appends `k` written in decimal.
fn push_decimal(s: &mut String, k: usize)
    ensures
        final(s)@ == old(s)@ + decimal(k as nat),
{
    let mut digits: Vec<char> = Vec::new();
    let mut v: usize = k;
    while v >= 10
        invariant
            decimal(k as nat) == decimal(v as nat) + reversed(digits@),
        decreases v,
    {
        let ghost before = digits@;
        digits.push(digit_char(v % 10));
        assert(reversed(digits@) =~= seq![digit((v % 10) as nat)]
            + reversed(before));
        v = v / 10;
    }
    digits.push(digit_char(v));
    assert(decimal(k as nat) =~= reversed(digits@));
    push_reversed(s, &digits);
}

/// One step of writing out a multiplication order: a character, or a whole
/// sub-chain still to be written.
enum StackOperation {
    WriteCharacter(char),
    WriteMultiplication(usize, usize),
}

/// What a step writes.
spec fn operation_text(order: Seq<usize>, n: int, op: StackOperation) -> Seq<char> {
    match op {
        StackOperation::WriteCharacter(c) => seq![c],
        StackOperation::WriteMultiplication(l, r) => parenthesization(order, n, l as int, r as int),
    }
}

/// What the steps on a stack write, the top one first.
spec fn stack_text(order: Seq<usize>, n: int, stack: Seq<StackOperation>) -> Seq<char>
    decreases stack.len(),
{
    if stack.len() == 0 {
        Seq::empty()
    } else {
        operation_text(order, n, stack.last()) + stack_text(order, n, stack.drop_last())
    }
}

/// A bound on the steps that a stack still takes.
spec fn operation_weight(op: StackOperation) -> nat {
    match op {
        StackOperation::WriteCharacter(_) => 1,
        StackOperation::WriteMultiplication(l, r) => (5 * (r - l) + 1) as nat,
    }
}

spec fn stack_weight(stack: Seq<StackOperation>) -> nat
    decreases stack.len(),
{
    if stack.len() == 0 {
        0
    } else {
        operation_weight(stack.last()) + stack_weight(stack.drop_last())
    }
}

impl MultiplicationOrder {
    /// The order table is complete, and each sub-chain of two or more
    /// matrices is split after one of its own positions.
    pub open spec fn well_formed(&self) -> bool {
        let n = self.matrices_count as int;
        &&& n > 0
        &&& n * n <= usize::MAX
        &&& self.order@.len() == n * n
        &&& forall|x: int, y: int|
            0 <= x < y < n ==> x <= #[trigger] self.order@[x + y * n] < y
    }

    /// The whole chain written out with its splits, such as
    /// `((A0*(A1*A2))*A3)`. Sub-chains wait on an explicit stack.
    #[verifier::rlimit(40)]
    #[verifier::spinoff_prover]
    pub fn to_string(&self) -> (r: String)
        requires
            self.well_formed(),
        ensures
            r@ == parenthesization(
                self.order@,
                self.matrices_count as int,
                0,
                self.matrices_count - 1,
            ),
    {
        let n = self.matrices_count;
        let ghost order = self.order@;
        let ghost whole = parenthesization(order, n as int, 0, n - 1);
        let mut stack: Vec<StackOperation> = Vec::new();
        let mut result = String::new();
        stack.push(StackOperation::WriteMultiplication(0, n - 1));
        assert(stack@.drop_last() =~= Seq::<StackOperation>::empty());
        assert(stack_text(order, n as int, stack@.drop_last()) == Seq::<char>::empty());
        assert(stack@.last() == StackOperation::WriteMultiplication(0, (n - 1) as usize));
        assert(stack_text(order, n as int, stack@) =~= whole);
        loop
            invariant
                self.well_formed(),
                n == self.matrices_count,
                order == self.order@,
                whole == parenthesization(order, n as int, 0, n - 1),
                result@ + stack_text(order, n as int, stack@) == whole,
                forall|p: int|
                    0 <= p < stack@.len() ==> match #[trigger] stack@[p] {
                        StackOperation::WriteMultiplication(l, r) => l <= r < n,
                        StackOperation::WriteCharacter(_) => true,
                    },
            decreases stack_weight(stack@),
        {
            let ghost before = stack@;
            match stack.pop() {
                None => {
                    assert(result@ =~= whole);
                    return result;
                },
                Some(operation) => {
                    let ghost rest = stack@;
                    assert(rest == before.drop_last());
                    assert(operation == before.last());
                    assert(stack_text(order, n as int, before) == operation_text(
                        order,
                        n as int,
                        operation,
                    ) + stack_text(order, n as int, rest));
                    assert(stack_weight(before) == operation_weight(operation) + stack_weight(
                        rest,
                    ));
                    match operation {
                        StackOperation::WriteCharacter(c) => {
                            push_char(&mut result, c);
                            assert(result@ + stack_text(order, n as int, stack@) =~= whole);
                        },
                        StackOperation::WriteMultiplication(left, right) => {
                            assert(left <= right < n) by {
                                assert(before[before.len() - 1] == operation);
                            }
                            if left == right {
                                push_char(&mut result, 'A');
                                push_decimal(&mut result, left);
                                assert(result@ + stack_text(order, n as int, stack@) =~= whole);
                            } else {
                                proof {
                                    lemma_cell_in_table(
                                        left as int,
                                        right as int,
                                        n as int,
                                        n as int,
                                    );
                                }
                                let split = self.order[idx(left, right, n)];
                                let ghost s0 = stack@;
                                stack.push(StackOperation::WriteCharacter(')'));
                                let ghost s1 = stack@;
                                stack.push(StackOperation::WriteMultiplication(split + 1, right));
                                let ghost s2 = stack@;
                                stack.push(StackOperation::WriteCharacter('*'));
                                let ghost s3 = stack@;
                                stack.push(StackOperation::WriteMultiplication(left, split));
                                let ghost s4 = stack@;
                                stack.push(StackOperation::WriteCharacter('('));
                                proof {
                                    assert(s1.drop_last() == s0);
                                    assert(s2.drop_last() == s1);
                                    assert(s3.drop_last() == s2);
                                    assert(s4.drop_last() == s3);
                                    assert(stack@.drop_last() == s4);
                                    let sp = split as int;
                                    assert(left <= sp < right) by {
                                        assert(left <= self.order@[left + right * n] < right);
                                    }
                                    assert(stack_text(order, n as int, s0) == stack_text(
                                        order,
                                        n as int,
                                        rest,
                                    ));
                                    assert(stack_text(order, n as int, s1) == seq![')']
                                        + stack_text(order, n as int, s0));
                                    assert(stack_text(order, n as int, s2) == parenthesization(
                                        order,
                                        n as int,
                                        sp + 1,
                                        right as int,
                                    ) + stack_text(order, n as int, s1));
                                    assert(stack_text(order, n as int, s3) == seq!['*']
                                        + stack_text(order, n as int, s2));
                                    assert(stack_text(order, n as int, s4) == parenthesization(
                                        order,
                                        n as int,
                                        left as int,
                                        sp,
                                    ) + stack_text(order, n as int, s3));
                                    assert(stack_text(order, n as int, stack@) == seq!['(']
                                        + stack_text(order, n as int, s4));
                                    assert(parenthesization(order, n as int, left as int, right as int)
                                        == seq!['('] + parenthesization(
                                        order,
                                        n as int,
                                        left as int,
                                        sp,
                                    ) + seq!['*'] + parenthesization(
                                        order,
                                        n as int,
                                        sp + 1,
                                        right as int,
                                    ) + seq![')']);
                                    assert(stack_weight(s1) == 1 + stack_weight(s0));
                                    assert(stack_weight(s2) == operation_weight(
                                        StackOperation::WriteMultiplication((split + 1) as usize, right),
                                    ) + stack_weight(s1));
                                    assert(stack_weight(s3) == 1 + stack_weight(s2));
                                    assert(stack_weight(s4) == operation_weight(
                                        StackOperation::WriteMultiplication(left, split),
                                    ) + stack_weight(s3));
                                    assert(stack_weight(stack@) == 1 + stack_weight(s4));
                                    assert(stack_text(order, n as int, stack@) =~= seq!['(']
                                        + parenthesization(order, n as int, left as int, split as int)
                                        + seq!['*'] + parenthesization(
                                        order,
                                        n as int,
                                        split + 1,
                                        right as int,
                                    ) + seq![')'] + stack_text(order, n as int, rest));
                                    assert(result@ + stack_text(order, n as int, stack@) =~= whole);
                                    assert(stack_weight(stack@) < stack_weight(before));
                                    assert forall|p: int| 0 <= p < stack@.len() implies match #[trigger] stack@[p] {
                                        StackOperation::WriteMultiplication(l, r) => l <= r < n,
                                        StackOperation::WriteCharacter(_) => true,
                                    } by {
                                        if p < rest.len() {
                                            assert(stack@[p] == before[p]);
                                        }
                                    }
                                }
                            }
                        },
                    }
                },
            }
        }
    }
}

/// Which way the longest common subsequence of two prefixes continues: by
/// their common last character, or by dropping the last character of `x`,
/// or of `y`.
#[derive(Clone, Copy)]
enum LcsBestSubstring {
    Both,
    X,
    Y,
}

/// One cell of the table: the length of the longest common subsequence of
/// two prefixes, and which way it continues.
#[derive(Clone, Copy)]
struct LcsData {
    length: usize,
    longest_substring: LcsBestSubstring,
}

/// The length of a longest common subsequence of `x[..i]` and `y[..j]`.
pub open spec fn lcs_len(x: Seq<char>, y: Seq<char>, i: int, j: int) -> nat
    decreases i, j,
{
    if i <= 0 || j <= 0 {
        0
    } else if x[i - 1] == y[j - 1] {
        lcs_len(x, y, i - 1, j - 1) + 1
    } else {
        let drop_x = lcs_len(x, y, i - 1, j);
        let drop_y = lcs_len(x, y, i, j - 1);
        if drop_x > drop_y {
            drop_x
        } else {
            drop_y
        }
    }
}

/// The longest common subsequence of `x[..i]` and `y[..j]` that the table
/// leads to: a common last character is kept; otherwise the last character
/// of `x` is dropped when that leaves a strictly longer one, else the last
/// character of `y`.
pub open spec fn lcs_of(x: Seq<char>, y: Seq<char>, i: int, j: int) -> Seq<char>
    decreases i, j,
{
    if i <= 0 || j <= 0 {
        Seq::empty()
    } else if x[i - 1] == y[j - 1] {
        lcs_of(x, y, i - 1, j - 1).push(x[i - 1])
    } else if lcs_len(x, y, i - 1, j) > lcs_len(x, y, i, j - 1) {
        lcs_of(x, y, i - 1, j)
    } else {
        lcs_of(x, y, i, j - 1)
    }
}

/// A common subsequence of `x[..i]` and `y[..j]` is no longer than `x[..i]`.
proof fn lemma_lcs_len_bound(x: Seq<char>, y: Seq<char>, i: int, j: int)
    requires
        0 <= i,
        0 <= j,
    ensures
        lcs_len(x, y, i, j) <= i,
    decreases i, j,
{
    if i > 0 && j > 0 {
        lemma_lcs_len_bound(x, y, i - 1, j - 1);
        lemma_lcs_len_bound(x, y, i - 1, j);
        lemma_lcs_len_bound(x, y, i, j - 1);
    }
}

/// The cell for prefixes of lengths `i` and `j` holds what it should.
spec fn cell_ok(x: Seq<char>, y: Seq<char>, table: Seq<LcsData>, i: int, j: int) -> bool {
    let d = table[(i - 1) + (j - 1) * x.len()];
    &&& d.length == lcs_len(x, y, i, j)
    &&& d.longest_substring == (if x[i - 1] == y[j - 1] {
        LcsBestSubstring::Both
    } else if lcs_len(x, y, i - 1, j) > lcs_len(x, y, i, j - 1) {
        LcsBestSubstring::X
    } else {
        LcsBestSubstring::Y
    })
}

/// The length stored for prefixes of lengths `i` and `j`; 0 where either is
/// empty.
fn lc_length(x: &Vec<char>, y: &Vec<char>, data: &Vec<LcsData>, i: usize, j: usize) -> (r: usize)
    requires
        i <= x@.len(),
        j <= y@.len(),
        data@.len() == x@.len() * y@.len(),
        x@.len() * y@.len() <= usize::MAX,
        i > 0 && j > 0 ==> cell_ok(x@, y@, data@, i as int, j as int),
    ensures
        r == lcs_len(x@, y@, i as int, j as int),
{
    if i == 0 || j == 0 {
        0
    } else {
        proof {
            lemma_cell_in_table((i - 1) as int, (j - 1) as int, x@.len() as int, y@.len() as int);
        }
        data[idx(i - 1, j - 1, x.len())].length
    }
}

/// A longest common subsequence of the two strings (not necessarily
/// contiguous), found by filling a table of the lengths for all pairs of
/// prefixes and walking it back from the full strings.
pub fn longest_common_substring(x: &String, y: &String) -> (r: String)
    requires
        x@.len() * y@.len() <= usize::MAX,
    ensures
        r@ == lcs_of(x@, y@, x@.len() as int, y@.len() as int),
{
    let x_chars = chars_of(x);
    let y_chars = chars_of(y);
    let xn = x_chars.len();
    let yn = y_chars.len();
    let ghost xs = x_chars@;
    let ghost ys = y_chars@;
    let mut lcs_table = vec![LcsData { length: 0, longest_substring: LcsBestSubstring::Both }; xn * yn];
    let mut i: usize = 0;
    while i < xn
        invariant
            0 <= i <= xn,
            xn == xs.len(),
            yn == ys.len(),
            xs == x_chars@,
            ys == y_chars@,
            xn * yn <= usize::MAX,
            lcs_table@.len() == xn * yn,
            forall|a: int, b: int|
                1 <= a <= i && 1 <= b <= yn ==> cell_ok(xs, ys, lcs_table@, a, b),
        decreases xn - i,
    {
        let mut j: usize = 0;
        while j < yn
            invariant
                0 <= i < xn,
                0 <= j <= yn,
                xn == xs.len(),
                yn == ys.len(),
                xs == x_chars@,
                ys == y_chars@,
                xn * yn <= usize::MAX,
                lcs_table@.len() == xn * yn,
                forall|a: int, b: int|
                    1 <= b <= yn && (1 <= a <= i || (a == i + 1 && 1 <= b <= j)) ==> cell_ok(
                        xs,
                        ys,
                        lcs_table@,
                        a,
                        b,
                    ),
            decreases yn - j,
        {
            let mut best = LcsData { length: 0, longest_substring: LcsBestSubstring::Both };
            if x_chars[i] == y_chars[j] {
                let before = lc_length(&x_chars, &y_chars, &lcs_table, i, j);
                proof {
                    lemma_lcs_len_bound(xs, ys, i as int, j as int);
                }
                best.length = before + 1;
                best.longest_substring = LcsBestSubstring::Both;
            } else {
                let best_i = lc_length(&x_chars, &y_chars, &lcs_table, i, j + 1);
                let best_j = lc_length(&x_chars, &y_chars, &lcs_table, i + 1, j);
                if best_i > best_j {
                    best.length = best_i;
                    best.longest_substring = LcsBestSubstring::X;
                } else {
                    best.length = best_j;
                    best.longest_substring = LcsBestSubstring::Y;
                }
            }
            proof {
                lemma_cell_in_table(i as int, j as int, xn as int, yn as int);
            }
            let ghost table_before = lcs_table@;
            let at = idx(i, j, xn);
            lcs_table.set(at, best);
            proof {
                assert forall|a: int, b: int|
                    1 <= b <= yn && (1 <= a <= i || (a == i + 1 && 1 <= b <= j + 1)) implies cell_ok(
                    xs,
                    ys,
                    lcs_table@,
                    a,
                    b,
                ) by {
                    lemma_cell_in_table(a - 1, b - 1, xn as int, yn as int);
                    if a != i + 1 || b != j + 1 {
                        lemma_cells_distinct(a - 1, b - 1, i as int, j as int, xn as int);
                        assert(cell_ok(xs, ys, table_before, a, b));
                    }
                }
            }
            j += 1;
        }
        i += 1;
    }
    let mut result: Vec<char> = Vec::new();
    let mut i: usize = xn;
    let mut j: usize = yn;
    while i > 0 && j > 0
        invariant
            i <= xn,
            j <= yn,
            xn == xs.len(),
            yn == ys.len(),
            xs == x_chars@,
            xn * yn <= usize::MAX,
            lcs_table@.len() == xn * yn,
            forall|a: int, b: int| 1 <= a <= xn && 1 <= b <= yn ==> cell_ok(xs, ys, lcs_table@, a, b),
            lcs_of(xs, ys, xn as int, yn as int) == lcs_of(xs, ys, i as int, j as int) + reversed(
                result@,
            ),
        decreases i + j,
    {
        proof {
            lemma_cell_in_table((i - 1) as int, (j - 1) as int, xn as int, yn as int);
            assert(cell_ok(xs, ys, lcs_table@, i as int, j as int));
        }
        let current = lcs_table[idx(i - 1, j - 1, xn)];
        match current.longest_substring {
            LcsBestSubstring::Both => {
                let ghost before = result@;
                result.push(x_chars[i - 1]);
                assert(reversed(result@) =~= seq![xs[i - 1]] + reversed(before));
                i -= 1;
                j -= 1;
            },
            LcsBestSubstring::X => {
                i -= 1;
            },
            LcsBestSubstring::Y => {
                j -= 1;
            },
        }
    }
    assert(lcs_of(xs, ys, i as int, j as int) =~= Seq::<char>::empty());
    let mut out = String::new();
    push_reversed(&mut out, &result);
    assert(out@ =~= lcs_of(xs, ys, xn as int, yn as int));
    out
}

} // verus!
