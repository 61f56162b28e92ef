//! A number puzzle: put operations between given numbers, evaluate from
//! left to right, and find the ways that reach a target.

use itertools::Itertools;
use vstd::arithmetic::power::pow;
use vstd::prelude::*;
use vstd::string::StringExecFns;

verus! {

/// One of the four operations.
#[derive(Debug, Clone, Copy, PartialEq, Eq, Structural)]
pub enum Operation {
    Sum,
    Sub,
    Div,
    Mul,
}

/// The quotient of `x` by `d`, rounded towards zero.
pub open spec fn quotient(x: int, d: int) -> int {
    if x == 0 {
        0
    } else if x > 0 && d > 0 {
        x / d
    } else if x < 0 && d < 0 {
        ((x * -1) / (d * -1))
    } else if x < 0 {
        ((x * -1) / d) * -1
    } else {
        (x / (d * -1)) * -1
    }
}

impl Operation {
    /// The sign that stands for the operation.
    pub open spec fn sign(self) -> Seq<char> {
        match self {
            Operation::Sum => seq!['+'],
            Operation::Sub => seq!['-'],
            Operation::Div => seq!['/'],
            Operation::Mul => seq!['*'],
        }
    }

    /// The result of the operation on `a` and `b`; a division by zero
    /// has none.
    pub open spec fn apply(self, a: int, b: int) -> Option<int> {
        match self {
            Operation::Sum => Some(a + b),
            Operation::Sub => Some(a - b),
            Operation::Mul => Some(a * b),
            Operation::Div => if b == 0 {
                None
            } else {
                Some(quotient(a, b))
            },
        }
    }

    /// The sign that stands for the operation.
    pub fn to_string(&self) -> (r: String)
        ensures
            r@ == self.sign(),
    {
        proof {
            reveal_strlit("+");
            reveal_strlit("-");
            reveal_strlit("/");
            reveal_strlit("*");
        }
        let r = match self {
            Operation::Sum => String::from_str("+"),
            Operation::Sub => String::from_str("-"),
            Operation::Div => String::from_str("/"),
            Operation::Mul => String::from_str("*"),
        };
        assert(r@ =~= self.sign());
        r
    }
}

/// The operations that a list of references names.
pub open spec fn named_ops(ops: Seq<&Operation>) -> Seq<Operation> {
    Seq::new(ops.len(), |i: int| *ops[i])
}

/// How many operations are applied: one for each number after the
/// first, as far as there are operations.
pub open spec fn steps(nums: Seq<i32>, ops: Seq<Operation>) -> int {
    if nums.len() - 1 <= ops.len() {
        nums.len() - 1
    } else {
        ops.len() as int
    }
}

/// The value after the first `k` operations, taken from left to right;
/// none once a division by zero has occurred, or if there is no number.
pub open spec fn evaluate(nums: Seq<i32>, ops: Seq<Operation>, k: int) -> Option<int>
    decreases k,
{
    if nums.len() == 0 {
        None
    } else if k <= 0 {
        Some(nums[0] as int)
    } else {
        match evaluate(nums, ops, k - 1) {
            Some(partial) => ops[k - 1].apply(partial, nums[k] as int),
            None => None,
        }
    }
}

/// Every value on the way through the first `k` operations fits in an
/// `i32`.
pub open spec fn in_range(nums: Seq<i32>, ops: Seq<Operation>, k: int) -> bool {
    forall|j: int|
        0 <= j <= k ==> (#[trigger] evaluate(nums, ops, j) matches Some(v) ==> i32::MIN <= v
            <= i32::MAX)
}

/// The digit `d` as a character.
pub open spec fn digit(d: int) -> char {
    (48 + d) as char
}

/// The decimal digits of `n`.
pub open spec fn digits(n: nat) -> Seq<char>
    decreases n,
{
    if n < 10 {
        seq![digit(n as int)]
    } else {
        digits(n / 10).push(digit(n as int % 10))
    }
}

/// The number `n` written in decimal, with a minus sign if negative.
pub open spec fn shown(n: int) -> Seq<char> {
    if n < 0 {
        seq!['-'] + digits((-n) as nat)
    } else {
        digits(n as nat)
    }
}

/// The numbers with the first `k` operations written between them, each
/// sign with a space on either side.
pub open spec fn expression(nums: Seq<i32>, ops: Seq<Operation>, k: int) -> Seq<char>
    decreases k,
{
    if k <= 0 {
        shown(nums[0] as int)
    } else {
        expression(nums, ops, k - 1) + seq![' '] + ops[k - 1].sign() + seq![' '] + shown(
            nums[k] as int,
        )
    }
}

/// Appends the decimal digits of `n`.
fn push_digits(s: &mut String, n: u32)
    ensures
        final(s)@ == old(s)@ + digits(n as nat),
    decreases n,
{
    if n >= 10 {
        push_digits(s, n / 10);
    }
    let d = (n % 10) as u8;
    s.push((48u8 + d) as char);
    proof {
        if n >= 10 {
            assert(old(s)@ + digits(n as nat / 10).push(digit(n as int % 10)) =~= (old(s)@ + digits(
                n as nat / 10,
            )).push(digit(n as int % 10)));
        } else {
            assert(old(s)@ + seq![digit(n as int)] =~= old(s)@.push(digit(n as int)));
        }
    }
}

/// Appends `n` written in decimal.
pub fn push_number(s: &mut String, n: i32)
    ensures
        final(s)@ == old(s)@ + shown(n as int),
{
    if n < 0 {
        s.push('-');
        let magnitude: u32 = if n == i32::MIN {
            0x8000_0000u32
        } else {
            (-n) as u32
        };
        push_digits(s, magnitude);
        assert(old(s)@.push('-') + digits(magnitude as nat) =~= old(s)@ + (seq!['-'] + digits(
            magnitude as nat,
        )));
    } else {
        push_digits(s, n as u32);
    }
}

/// Evaluates the numbers with the operations between them, from left to
/// right. Returns `None` if there is no number or a division by zero
/// occurs.
pub fn calculate(nums: &Vec<i32>, ops: &Vec<&Operation>) -> (r: Option<i32>)
    requires
        in_range(nums@, named_ops(ops@), steps(nums@, named_ops(ops@))),
    ensures
        r == match evaluate(nums@, named_ops(ops@), steps(nums@, named_ops(ops@))) {
            Some(v) => Some(v as i32),
            None => None,
        },
{
    if nums.len() == 0 {
        return None;
    }
    let ghost os = named_ops(ops@);
    let ghost total = steps(nums@, os);
    let mut partial: i32 = nums[0];
    let mut k: usize = 0;
    while k < nums.len() - 1 && k < ops.len()
        invariant
            nums@.len() > 0,
            os == named_ops(ops@),
            total == steps(nums@, os),
            0 <= k <= total,
            in_range(nums@, os, total),
            evaluate(nums@, os, k as int) == Some(partial as int),
        decreases total - k,
    {
        let num = nums[k + 1];
        let op = *ops[k];
        assert(os[k as int] == op);
        assert(evaluate(nums@, os, k + 1) == op.apply(partial as int, num as int));
        match op {
            Operation::Div => {
                if num == 0 {
                    proof {
                        lemma_stays_none(nums@, os, k + 1, total);
                    }
                    return None;
                }
                partial = match partial.checked_div(num) {
                    Some(q) => q,
                    None => partial,
                };
            },
            Operation::Mul => {
                assert(i32::MIN <= partial * num <= i32::MAX);
                partial = partial * num;
            },
            Operation::Sub => {
                partial = partial - num;
            },
            Operation::Sum => {
                partial = partial + num;
            },
        }
        k += 1;
    }
    Some(partial)
}

/// Once a division by zero has occurred the evaluation has no value.
pub proof fn lemma_stays_none(nums: Seq<i32>, ops: Seq<Operation>, j: int, k: int)
    requires
        0 <= j <= k,
        evaluate(nums, ops, j) is None,
    ensures
        evaluate(nums, ops, k) is None,
    decreases k - j,
{
    if j < k {
        lemma_stays_none(nums, ops, j, k - 1);
    }
}

/// Whether every value on the way fits in an `i32`, so that
/// [`calculate`] may be called.
pub fn fits(nums: &Vec<i32>, ops: &Vec<&Operation>) -> (r: bool)
    ensures
        r == in_range(nums@, named_ops(ops@), steps(nums@, named_ops(ops@))),
{
    let ghost os = named_ops(ops@);
    let ghost total = steps(nums@, os);
    if nums.len() == 0 {
        return true;
    }
    let mut partial: i32 = nums[0];
    let mut k: usize = 0;
    while k < nums.len() - 1 && k < ops.len()
        invariant
            nums@.len() > 0,
            os == named_ops(ops@),
            total == steps(nums@, os),
            0 <= k <= total,
            in_range(nums@, os, k as int),
            evaluate(nums@, os, k as int) == Some(partial as int),
        decreases total - k,
    {
        let num = nums[k + 1];
        let op = *ops[k];
        assert(os[k as int] == op);
        assert(evaluate(nums@, os, k + 1) == op.apply(partial as int, num as int));
        let next = match op {
            Operation::Div => {
                if num == 0 {
                    proof {
                        assert forall|j: int| 0 <= j <= total implies (#[trigger] evaluate(nums@,
                            os, j)
                            matches Some(v) ==> i32::MIN <= v <= i32::MAX) by {
                            if j > k {
                                lemma_stays_none(nums@, os, k + 1, j);
                            }
                        }
                    }
                    return true;
                }
                partial.checked_div(num)
            },
            Operation::Mul => partial.checked_mul(num),
            Operation::Sub => partial.checked_sub(num),
            Operation::Sum => partial.checked_add(num),
        };
        match next {
            Some(v) => {
                partial = v;
            },
            None => {
                assert(!in_range(nums@, os, total)) by {
                    assert(evaluate(nums@, os, k + 1) is Some);
                }
                return false;
            },
        }
        proof {
            assert forall|j: int| 0 <= j <= k + 1 implies (#[trigger] evaluate(nums@, os,
                j) matches Some(
                v,
            ) ==> i32::MIN <= v <= i32::MAX) by {}
        }
        k += 1;
    }
    true
}

/// Writes the numbers with the operations between them.
pub fn convert_combination(nums: &Vec<i32>, ops: &Vec<&Operation>) -> (r: String)
    requires
        nums@.len() > 0,
    ensures
        r@ == expression(nums@, named_ops(ops@), steps(nums@, named_ops(ops@))),
{
    let ghost os = named_ops(ops@);
    let mut result = String::new();
    push_number(&mut result, nums[0]);
    assert(result@ =~= shown(nums@[0] as int));
    let mut k: usize = 0;
    while k < nums.len() - 1 && k < ops.len()
        invariant
            nums@.len() > 0,
            os == named_ops(ops@),
            0 <= k <= steps(nums@, os),
            result@ == expression(nums@, os, k as int),
        decreases steps(nums@, os) - k,
    {
        let ghost before = result@;
        let sign = ops[k].to_string();
        assert(os[k as int] == *ops@[k as int]);
        result.push(' ');
        result.append(sign.as_str());
        result.push(' ');
        push_number(&mut result, nums[k + 1]);
        assert(result@ =~= before + seq![' '] + os[k as int].sign() + seq![' '] + shown(
            nums@[k + 1] as int,
        ));
        k += 1;
    }
    result
}

/// The expression for these numbers and operations, if it evaluates to
/// `target`.
pub fn expression_if(nums: &Vec<i32>, ops: &Vec<&Operation>, target: i32) -> (r: Option<String>)
    requires
        nums@.len() > 0,
        in_range(nums@, named_ops(ops@), steps(nums@, named_ops(ops@))),
    ensures
        match r {
            Some(s) => evaluate(nums@, named_ops(ops@), steps(nums@, named_ops(ops@))) == Some(
                target as int,
            ) && s@ == expression(nums@, named_ops(ops@), steps(nums@, named_ops(ops@))),
            None => evaluate(nums@, named_ops(ops@), steps(nums@, named_ops(ops@))) != Some(
                target as int,
            ),
        },
{
    match calculate(nums, ops) {
        Some(v) => if v == target {
            Some(convert_combination(nums, ops))
        } else {
            None
        },
        None => None,
    }
}

/// The `j`-th way of choosing `k` items out of `items`, with repetition:
/// the ways are counted like numbers with `k` digits, the last digit
/// running fastest.
pub open spec fn choice<T>(items: Seq<T>, k: nat, j: int) -> Seq<T> {
    Seq::new(k, |i: int| items[(j / pow(items.len() as int,
        (k - 1 - i) as nat)) % (items.len() as int)])
}

/// `multi_cartesian_product` of itertools over `k` copies of the items:
/// every way of choosing `k` of them, with repetition, as
/// [`choice`] counts them.
#[verifier::external_body]
pub(crate) fn permutations_with_replacement<'a, T: Copy>(items: &'a Vec<T>, k: usize) -> (r: Vec<
    Vec<&'a T>,
>)
    requires
        pow(items@.len() as int, k as nat) <= usize::MAX,
    ensures
        r@.len() == pow(items@.len() as int, k as nat),
        forall|j: int| 0 <= j < r@.len() ==> (#[trigger] r@[j])@.len() == k,
        forall|j: int, i: int|
            0 <= j < r@.len() && 0 <= i < k ==> *(#[trigger] r@[j]@[i]) == choice(items@, k as nat,
                j)[i],
{
    std::iter::repeat(items.iter()).take(k).multi_cartesian_product().collect()
}

/// The four operations, in the order in which they are tried.
pub fn all_operations() -> (r: Vec<Operation>)
    ensures
        r@ == seq![Operation::Sum, Operation::Sub, Operation::Div, Operation::Mul],
{
    let mut r = Vec::new();
    r.push(Operation::Sum);
    r.push(Operation::Sub);
    r.push(Operation::Div);
    r.push(Operation::Mul);
    assert(r@ =~= seq![Operation::Sum, Operation::Sub, Operation::Div, Operation::Mul]);
    r
}

/// Of the first `m` ways of choosing the operations, the expressions of
/// those that evaluate to `target`, in order.
pub open spec fn found(nums: Seq<i32>, ops: Seq<Operation>, target: int, m: int) -> Seq<Seq<char>>
    decreases m,
{
    if m <= 0 {
        Seq::empty()
    } else {
        let k = (nums.len() - 1) as nat;
        let chosen = choice(ops, k, m - 1);
        if evaluate(nums, chosen, k as int) == Some(target) {
            found(nums, ops, target, m - 1).push(expression(nums, chosen, k as int))
        } else {
            found(nums, ops, target, m - 1)
        }
    }
}

/// The texts of a list of strings.
pub open spec fn string_views(v: Seq<String>) -> Seq<Seq<char>> {
    Seq::new(v.len(), |i: int| v[i]@)
}

/// Tries every way of putting operations out of `ops` between the
/// numbers and returns the expressions that evaluate to `target`, in the
/// order in which the ways are counted. Returns `None` if a value on
/// some way does not fit in an `i32`.
pub fn expressions(nums: &Vec<i32>, ops: &Vec<Operation>, target: i32) -> (r: Option<Vec<String>>)
    requires
        nums@.len() > 0,
        pow(ops@.len() as int, (nums@.len() - 1) as nat) <= usize::MAX,
    ensures
        r is Some <==> forall|j: int|
            0 <= j < pow(ops@.len() as int, (nums@.len() - 1) as nat) ==> in_range(
                nums@,
                #[trigger] choice(ops@, (nums@.len() - 1) as nat, j),
                nums@.len() - 1,
            ),
        r matches Some(v) ==> string_views(v@) == found(
            nums@,
            ops@,
            target as int,
            pow(ops@.len() as int, (nums@.len() - 1) as nat),
        ),
{
    let k = nums.len() - 1;
    let choices = permutations_with_replacement(ops, k);
    let mut out: Vec<String> = Vec::new();
    let mut j: usize = 0;
    while j < choices.len()
        invariant
            j <= choices@.len(),
            nums@.len() > 0,
            k == nums@.len() - 1,
            choices@.len() == pow(ops@.len() as int, k as nat),
            forall|a: int| 0 <= a < choices@.len() ==> (#[trigger] choices@[a])@.len() == k,
            forall|a: int, i: int|
                0 <= a < choices@.len() && 0 <= i < k ==> *(#[trigger] choices@[a]@[i]) == choice(
                    ops@,
                    k as nat,
                    a,
                )[i],
            forall|a: int|
                0 <= a < j ==> in_range(nums@, #[trigger] choice(ops@, k as nat, a), k as int),
            string_views(out@) == found(nums@, ops@, target as int, j as int),
        decreases choices@.len() - j,
    {
        let chosen = &choices[j];
        proof {
            assert(named_ops(chosen@) =~= choice(ops@, k as nat, j as int));
            assert(steps(nums@, named_ops(chosen@)) == k);
        }
        if !fits(nums, chosen) {
            return None;
        }
        let ghost before = out@;
        match expression_if(nums, chosen, target) {
            Some(s) => {
                out.push(s);
                assert(string_views(out@) =~= string_views(before).push(s@));
            },
            None => {},
        }
        j += 1;
    }
    Some(out)
}

/// The orderings of the numbers, in the order in which they are tried.
pub uninterp spec fn orderings_of(nums: Seq<i32>) -> Seq<Seq<i32>>;

/// The lists as values.
pub open spec fn list_views(v: Seq<Vec<i32>>) -> Seq<Seq<i32>> {
    Seq::new(v.len(), |i: int| v[i]@)
}

/// `permutations` of itertools over all the numbers: the result is named
/// [`orderings_of`], a function of the numbers alone; each ordering
/// holds as many numbers as were given.
#[verifier::external_body]
pub(crate) fn orderings(nums: &Vec<i32>) -> (r: Vec<Vec<i32>>)
    ensures
        list_views(r@) == orderings_of(nums@),
        forall|j: int| 0 <= j < r@.len() ==> (#[trigger] r@[j])@.len() == nums@.len(),
{
    nums.iter().copied().permutations(nums.len()).collect()
}

/// How many ways there are of putting operations out of `ops` between
/// `n` numbers.
pub open spec fn ways(ops: Seq<Operation>, n: nat) -> int {
    pow(ops.len() as int, (n - 1) as nat)
}

/// Every value on every way of putting operations between these numbers
/// fits in an `i32`.
pub open spec fn all_in_range(nums: Seq<i32>, ops: Seq<Operation>) -> bool {
    forall|j: int|
        0 <= j < ways(ops, nums.len()) ==> in_range(
            nums,
            #[trigger] choice(ops, (nums.len() - 1) as nat, j),
            nums.len() - 1,
        )
}

/// The expressions found for the first `m` orderings, ordering by
/// ordering.
pub open spec fn gathered(
    orders: Seq<Seq<i32>>,
    ops: Seq<Operation>,
    target: int,
    m: int,
) -> Seq<Seq<char>>
    decreases m,
{
    if m <= 0 {
        Seq::empty()
    } else {
        gathered(orders, ops, target, m - 1) + found(
            orders[m - 1],
            ops,
            target,
            ways(ops, orders[m - 1].len()),
        )
    }
}

/// Tries every ordering of the numbers with every way of putting
/// operations between them, and returns the expressions that evaluate
/// to `target`. Returns `None` if a value on some way does not fit in an
/// `i32`.
pub fn solutions(nums: &Vec<i32>, ops: &Vec<Operation>, target: i32) -> (r: Option<Vec<String>>)
    requires
        nums@.len() > 0,
        ways(ops@, nums@.len()) <= usize::MAX,
    ensures
        r is Some <==> forall|a: int|
            0 <= a < orderings_of(nums@).len() ==> all_in_range(#[trigger] orderings_of(nums@)[a],
                ops@),
        r matches Some(v) ==> string_views(v@) == gathered(
            orderings_of(nums@),
            ops@,
            target as int,
            orderings_of(nums@).len() as int,
        ),
{
    let orders = orderings(nums);
    let mut out: Vec<String> = Vec::new();
    let mut a: usize = 0;
    while a < orders.len()
        invariant
            a <= orders@.len(),
            nums@.len() > 0,
            ways(ops@, nums@.len()) <= usize::MAX,
            list_views(orders@) == orderings_of(nums@),
            forall|j: int| 0 <= j < orders@.len() ==> (#[trigger] orders@[j])@.len() == nums@.len(),
            forall|b: int| 0 <= b < a ==> all_in_range(#[trigger] orderings_of(nums@)[b], ops@),
            string_views(out@) == gathered(orderings_of(nums@), ops@, target as int, a as int),
        decreases orders@.len() - a,
    {
        let order = &orders[a];
        assert(list_views(orders@)[a as int] == order@);
        let ghost before = out@;
        match expressions(order, ops, target) {
            Some(mut more) => {
                let ghost extra = more@;
                out.append(&mut more);
                assert(string_views(out@) =~= string_views(before) + string_views(extra));
            },
            None => {
                return None;
            },
        }
        a += 1;
    }
    Some(out)
}

/// Where the block of work of one thread begins, when `total` items
/// are shared out among `nthread` threads in blocks of equal size.
pub open spec fn block_start(total: int, nthread: int, thread: int) -> int {
    (total / nthread) * thread
}

/// Where the block of one thread ends: where the next block begins, and
/// at the last item for the last thread, which takes what is left over.
pub open spec fn block_end(total: int, nthread: int, thread: int) -> int {
    if thread + 1 == nthread {
        total
    } else {
        (total / nthread) * (thread + 1)
    }
}

/// The block of items that thread `thread` out of `nthread` works on:
/// the items from the first bound up to, but without, the second.
pub fn block_range(total: usize, nthread: usize, thread: usize) -> (r: (usize, usize))
    requires
        thread < nthread,
    ensures
        r.0 == block_start(total as int, nthread as int, thread as int),
        r.1 == block_end(total as int, nthread as int, thread as int),
        r.0 <= r.1 <= total,
{
    let range = total / nthread;
    proof {
        law_blocks_cover(total as int, nthread as int, thread as int);
        assert(range * (thread + 1) <= total) by (nonlinear_arith)
            requires
                range == total as int / nthread as int,
                0 <= thread < nthread,
                nthread > 0,
                total >= 0,
        {
            assert(range * nthread <= total);
            assert(range * (thread + 1) <= range * nthread);
        }
        assert(range * thread <= range * (thread + 1)) by (nonlinear_arith)
            requires
                range >= 0,
                thread >= 0,
        ;
    }
    let start = range * thread;
    let end = if thread + 1 == nthread {
        total
    } else {
        range * (thread + 1)
    };
    (start, end)
}

/// The blocks follow one another without gap or overlap, from the first
/// item to the last.
pub proof fn law_blocks_cover(total: int, nthread: int, thread: int)
    requires
        0 <= total,
        0 <= thread < nthread,
    ensures
        block_start(total, nthread, 0) == 0,
        block_end(total, nthread, nthread - 1) == total,
        0 <= block_start(total, nthread, thread) <= block_end(total, nthread, thread) <= total,
        thread + 1 < nthread ==> block_end(total, nthread, thread) == block_start(
            total,
            nthread,
            thread + 1,
        ),
{
    let range = total / nthread;
    assert(range * nthread <= total && range >= 0) by (nonlinear_arith)
        requires
            range == total / nthread,
            nthread > 0,
            total >= 0,
    ;
    assert(range * thread <= range * (thread + 1) <= range * nthread) by (nonlinear_arith)
        requires
            range >= 0,
            0 <= thread < nthread,
    ;
    assert(range * thread >= 0) by (nonlinear_arith)
        requires
            range >= 0,
            thread >= 0,
    ;
}

} // verus!
