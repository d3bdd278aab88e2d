//! Column arithmetic worksheets: each problem is a column of decimal operands
//! with an operator, evaluated as their sum or product. The text handling
//! picks the first whitespace-separated decimal token out of a string; rows
//! of the worksheet are consumed column by column from the right.

use vstd::prelude::*;

verus! {

/// An ASCII whitespace character: space, tab, line feed or carriage return.
pub open spec fn is_ws(c: char) -> bool {
    c == ' ' || c == '\t' || c == '\n' || c == '\r'
}

/// An ASCII decimal digit.
pub open spec fn is_digit(c: char) -> bool {
    48 <= c as u32 <= 57
}

/// The numeric value of an ASCII decimal digit.
pub open spec fn digit_val(c: char) -> int {
    c as u32 - 48
}

/// The index just past the whitespace-free run that starts at `i`.
pub open spec fn token_end(s: Seq<char>, i: int) -> int
    decreases s.len() - i,
        when 0 <= i <= s.len()
{
    if i >= s.len() || is_ws(s[i]) {
        i
    } else {
        token_end(s, i + 1)
    }
}

/// The run starting at `i` ends between `i` and the end of the string, runs
/// over no whitespace, and stops at the end or at a whitespace character.
pub proof fn lemma_token_end(s: Seq<char>, i: int)
    requires
        0 <= i <= s.len(),
    ensures
        i <= token_end(s, i) <= s.len(),
        forall|k: int| i <= k < token_end(s, i) ==> !is_ws(s[k]),
        token_end(s, i) < s.len() ==> is_ws(s[token_end(s, i)]),
    decreases s.len() - i,
{
    if i < s.len() && !is_ws(s[i]) {
        lemma_token_end(s, i + 1);
    }
}

/// All characters of `s` in `[a, b)` are decimal digits.
pub open spec fn all_digits(s: Seq<char>, a: int, b: int) -> bool {
    forall|k: int| a <= k < b ==> is_digit(#[trigger] s[k])
}

/// The decimal value of the digits of `s` in `[a, b)`.
pub open spec fn digits_val(s: Seq<char>, a: int, b: int) -> int
    decreases b - a,
        when a <= b
{
    if b <= a {
        0
    } else {
        digits_val(s, a, b - 1) * 10 + digit_val(s[b - 1])
    }
}

/// Where the digits of a numeral starting at `a` begin: one past a single
/// leading plus sign, which `u64` parsing accepts, else at `a` itself.
pub open spec fn digits_start(s: Seq<char>, a: int) -> int {
    if 0 <= a < s.len() && s[a] == '+' {
        a + 1
    } else {
        a
    }
}

/// The token of `s` in `[a, b)` reads as a decimal `u64`: after an optional
/// single leading plus sign, at least one digit, nothing but digits, and a
/// value in range.
pub open spec fn parses(s: Seq<char>, a: int, b: int) -> bool {
    let d = digits_start(s, a);
    b > d && all_digits(s, d, b) && digits_val(s, d, b) <= u64::MAX
}

/// A decimal value read from digits is never negative.
pub proof fn lemma_digits_val_nonneg(s: Seq<char>, a: int, b: int)
    requires
        a <= b,
        all_digits(s, a, b),
    ensures
        digits_val(s, a, b) >= 0,
    decreases b - a,
{
    if b > a {
        lemma_digits_val_nonneg(s, a, b - 1);
    }
}

/// Reading more digits never shrinks the value.
pub proof fn lemma_digits_val_mono(s: Seq<char>, a: int, b: int, e: int)
    requires
        a <= b <= e,
        all_digits(s, a, e),
    ensures
        digits_val(s, a, b) <= digits_val(s, a, e),
    decreases e - b,
{
    if b < e {
        lemma_digits_val_mono(s, a, b, e - 1);
        lemma_digits_val_nonneg(s, a, e - 1);
    }
}

/// The first whitespace-separated token of `s` at or after `i` that reads as
/// a decimal `u64`; `None` when no token from there on does.
pub open spec fn first_operand_from(s: Seq<char>, i: int) -> Option<u64>
    decreases s.len() - i,
        when 0 <= i <= s.len()
{
    if i >= s.len() {
        None
    } else if is_ws(s[i]) {
        first_operand_from(s, i + 1)
    } else {
        let b = token_end(s, i);
        if parses(s, i, b) {
            Some(digits_val(s, digits_start(s, i), b) as u64)
        } else {
            proof {
                lemma_token_end(s, i);
            }
            first_operand_from(s, b)
        }
    }
}

/// Whether `c` is ASCII whitespace.
fn is_ws_exec(c: char) -> (r: bool)
    ensures
        r == is_ws(c),
{
    c == ' ' || c == '\t' || c == '\n' || c == '\r'
}

/// The first whitespace-separated decimal token of `cs`, if any token is one.
pub fn first_operand(cs: &Vec<char>) -> (r: Option<u64>)
    ensures
        r == first_operand_from(cs@, 0),
{
    let ghost s = cs@;
    let n = cs.len();
    let mut i: usize = 0;
    while i < n
        invariant
            s == cs@,
            n == s.len(),
            i <= n,
            first_operand_from(s, 0) == first_operand_from(s, i as int),
        decreases n - i,
    {
        let c = cs[i];
        if is_ws_exec(c) {
            i = i + 1;
        } else {
            proof {
                lemma_token_end(s, i as int);
            }
            let start = if cs[i] == '+' {
                i + 1
            } else {
                i
            };
            proof {
                assert(start as int == digits_start(s, i as int));
            }
            let mut b = i;
            let mut val: u64 = 0;
            let mut ok = true;
            while b < n && !is_ws_exec(cs[b])
                invariant
                    s == cs@,
                    n == s.len(),
                    i <= b <= n,
                    i < n,
                    !is_ws(s[i as int]),
                    i <= start <= i + 1,
                    start as int == digits_start(s, i as int),
                    forall|k: int| i <= k < b ==> !is_ws(s[k]),
                    ok && b >= start ==> all_digits(s, start as int, b as int) && val == digits_val(
                        s,
                        start as int,
                        b as int,
                    ),
                    ok && b < start ==> val == 0,
                    !ok ==> forall|e: int| b <= e <= n ==> !parses(s, i as int, e),
                decreases n - b,
            {
                let c2 = cs[b];
                if b < start {
                    // The leading plus sign; the digits begin after it.
                } else if ok {
                    if (c2 as u32) >= 48 && (c2 as u32) <= 57 {
                        let d = ((c2 as u32) - 48) as u64;
                        match val.checked_mul(10) {
                            Some(v10) => {
                                match v10.checked_add(d) {
                                    Some(v) => {
                                        val = v;
                                        proof {
                                            assert(all_digits(s, start as int, b as int + 1));
                                            assert(digits_val(s, start as int, b as int + 1)
                                                == digits_val(s, start as int, b as int) * 10
                                                + digit_val(s[b as int]));
                                        }
                                    },
                                    None => {
                                        ok = false;
                                        proof {
                                            lemma_overflow_kills(
                                                s,
                                                i as int,
                                                start as int,
                                                b as int + 1,
                                                n as int,
                                            );
                                        }
                                    },
                                }
                            },
                            None => {
                                ok = false;
                                proof {
                                    lemma_overflow_kills(
                                        s,
                                        i as int,
                                        start as int,
                                        b as int + 1,
                                        n as int,
                                    );
                                }
                            },
                        }
                    } else {
                        ok = false;
                        proof {
                            assert(!is_digit(s[b as int]));
                            assert forall|e: int| b + 1 <= e <= n implies !parses(s, i as int, e) by {
                                assert(!is_digit(s[b as int]));
                                assert(digits_start(s, i as int) <= b as int);
                            }
                        }
                    }
                }
                b = b + 1;
            }
            proof {
                lemma_token_end_at(s, i as int, b as int);
            }
            if ok && b > start {
                proof {
                    assert(parses(s, i as int, b as int));
                    assert(first_operand_from(s, i as int) == Some(
                        digits_val(s, start as int, b as int) as u64,
                    ));
                    lemma_digits_val_nonneg(s, start as int, b as int);
                }
                return Some(val);
            }
            proof {
                assert(!parses(s, i as int, b as int));
                assert(first_operand_from(s, i as int) == first_operand_from(s, b as int));
            }
            i = b;
        }
    }
    None
}

/// When a digit prefix already exceeds the `u64` range, no longer stretch of
/// the same token reads as a `u64` either.
proof fn lemma_overflow_kills(s: Seq<char>, a: int, d: int, b: int, n: int)
    requires
        d == digits_start(s, a),
        d < b <= n <= s.len(),
        all_digits(s, d, b),
        digits_val(s, d, b) > u64::MAX,
    ensures
        forall|e: int| b <= e <= n ==> !parses(s, a, e),
{
    assert forall|e: int| b <= e <= n implies !parses(s, a, e) by {
        if all_digits(s, d, e) {
            lemma_digits_val_mono(s, d, b, e);
        } else {
            let k = choose|k: int| d <= k < e && !is_digit(s[k]);
            assert(!all_digits(s, d, e));
        }
    }
}

/// A whitespace-free run that reaches the end of the string or a whitespace
/// character is exactly the token that starts it.
proof fn lemma_token_end_at(s: Seq<char>, i: int, b: int)
    requires
        0 <= i <= b <= s.len(),
        forall|k: int| i <= k < b ==> !is_ws(s[k]),
        b == s.len() || is_ws(s[b]),
    ensures
        token_end(s, i) == b,
    decreases b - i,
{
    if i < b {
        lemma_token_end_at(s, i + 1, b);
    }
}

/// The first whitespace-separated decimal token of `str_chars`, if any token
/// is one. The characters of the string are taken one by one.
pub fn get_operand(s: &str) -> (r: Option<u64>)
    ensures
        r == first_operand_from(s@, 0),
{
    let n = s.unicode_len();
    let mut cs: Vec<char> = Vec::new();
    let mut k: usize = 0;
    while k < n
        invariant
            n == s@.len(),
            k <= n,
            cs@ == s@.take(k as int),
        decreases n - k,
    {
        cs.push(s.get_char(k));
        proof {
            assert(cs@ =~= s@.take(k + 1 as int));
        }
        k = k + 1;
    }
    proof {
        assert(cs@ =~= s@);
    }
    first_operand(&cs)
}

/// An arithmetic operator of the worksheet.
#[derive(Clone, Copy, PartialEq, Eq, Structural, Debug)]
pub enum Op {
    Add,
    Mul,
}

/// The operator denoted by `c`, if any: `+` adds, `*` multiplies.
pub open spec fn op_from_char(c: char) -> Option<Op> {
    if c == '*' {
        Some(Op::Mul)
    } else if c == '+' {
        Some(Op::Add)
    } else {
        None
    }
}

impl Op {
    /// Reads an operator character: `+` or `*`.
    pub fn from_char(c: char) -> (r: Option<Op>)
        ensures
            r == op_from_char(c),
    {
        if c == '*' {
            Some(Op::Mul)
        } else if c == '+' {
            Some(Op::Add)
        } else {
            None
        }
    }
}

/// The sum of the elements of `s`.
pub open spec fn sum_spec(s: Seq<u64>) -> int
    decreases s.len(),
{
    if s.len() == 0 {
        0
    } else {
        sum_spec(s.drop_last()) + s.last()
    }
}

/// The product of the elements of `s`; one for an empty sequence.
pub open spec fn prod_spec(s: Seq<u64>) -> int
    decreases s.len(),
{
    if s.len() == 0 {
        1
    } else {
        prod_spec(s.drop_last()) * s.last()
    }
}

/// One worksheet problem: an operator applied to a column of operands.
pub struct Problem {
    op: Op,
    operands: Vec<u64>,
}

impl Problem {
    /// The problem's operator.
    pub closed spec fn spec_op(self) -> Op {
        self.op
    }

    /// The problem's operands, in the order they were pushed.
    pub closed spec fn spec_operands(self) -> Seq<u64> {
        self.operands@
    }

    /// The sum or product of the operands, by the problem's operator.
    pub fn eval(&self) -> (r: u64)
        requires
            self.spec_op() == Op::Add ==> sum_spec(self.spec_operands()) <= u64::MAX,
            self.spec_op() == Op::Mul ==> forall|k: int|
                0 <= k <= self.spec_operands().len() ==> prod_spec(
                    #[trigger] self.spec_operands().take(k),
                ) <= u64::MAX,
        ensures
            self.spec_op() == Op::Add ==> r == sum_spec(self.spec_operands()),
            self.spec_op() == Op::Mul ==> r == prod_spec(self.spec_operands()),
    {
        let ghost s = self.operands@;
        let n = self.operands.len();
        match self.op {
            Op::Add => {
                let mut acc: u64 = 0;
                let mut k: usize = 0;
                while k < n
                    invariant
                        s == self.operands@,
                        n == s.len(),
                        k <= n,
                        acc == sum_spec(s.take(k as int)),
                        sum_spec(s) <= u64::MAX,
                    decreases n - k,
                {
                    proof {
                        lemma_sum_take_bound(s, k as int + 1);
                        assert(s.take(k + 1 as int).drop_last() =~= s.take(k as int));
                        assert(s.take(k + 1 as int).last() == s[k as int]);
                    }
                    acc = acc + self.operands[k];
                    k = k + 1;
                }
                proof {
                    assert(s.take(n as int) =~= s);
                }
                acc
            },
            Op::Mul => {
                let mut acc: u64 = 1;
                proof {
                    assert forall|t: int| 0 <= t <= n implies prod_spec(#[trigger] s.take(t))
                        <= u64::MAX by {
                        assert(prod_spec(self.spec_operands().take(t)) <= u64::MAX);
                    }
                }
                let mut k: usize = 0;
                while k < n
                    invariant
                        s == self.operands@,
                        n == s.len(),
                        k <= n,
                        acc == prod_spec(s.take(k as int)),
                        forall|t: int| 0 <= t <= n ==> prod_spec(#[trigger] s.take(t)) <= u64::MAX,
                    decreases n - k,
                {
                    proof {
                        assert(s.take(k + 1 as int).drop_last() =~= s.take(k as int));
                        assert(s.take(k + 1 as int).last() == s[k as int]);
                        assert(prod_spec(s.take(k + 1 as int)) == prod_spec(s.take(k as int))
                            * s[k as int]);
                        lemma_prod_nonneg(s.take(k as int));
                        assert(prod_spec(s.take(k + 1 as int)) <= u64::MAX);
                    }
                    acc = acc * self.operands[k];
                    k = k + 1;
                }
                proof {
                    assert(s.take(n as int) =~= s);
                }
                acc
            },
        }
    }
}

impl Problem {
    /// The sum or product of the operands, or `None` when it cannot be
    /// formed within `u64`: for a sum, when the total overflows; for a
    /// product, when some prefix product overflows.
    pub fn try_eval(&self) -> (r: Option<u64>)
        ensures
            self.spec_op() == Op::Add ==> ((r is Some <==> sum_spec(self.spec_operands())
                <= u64::MAX) && (r is Some ==> r->0 == sum_spec(self.spec_operands()))),
            self.spec_op() == Op::Mul ==> ((r is Some <==> forall|k: int|
                0 <= k <= self.spec_operands().len() ==> prod_spec(
                    #[trigger] self.spec_operands().take(k),
                ) <= u64::MAX) && (r is Some ==> r->0 == prod_spec(self.spec_operands()))),
    {
        let ghost s = self.operands@;
        let n = self.operands.len();
        proof {
            assert(s == self.spec_operands());
        }
        match self.op {
            Op::Add => {
                proof {
                    assert(self.spec_op() == Op::Add);
                }
                let mut acc: u64 = 0;
                let mut k: usize = 0;
                while k < n
                    invariant
                        s == self.operands@,
                        n == s.len(),
                        k <= n,
                        acc == sum_spec(s.take(k as int)),
                        self.spec_op() == Op::Add,
                        s == self.spec_operands(),
                    decreases n - k,
                {
                    proof {
                        assert(s.take(k + 1 as int).drop_last() =~= s.take(k as int));
                        assert(s.take(k + 1 as int).last() == s[k as int]);
                    }
                    match acc.checked_add(self.operands[k]) {
                        Some(v) => {
                            acc = v;
                        },
                        None => {
                            proof {
                                assert(sum_spec(s.take(k as int + 1)) > u64::MAX);
                                lemma_sum_take_bound(s, k as int + 1);
                                assert(sum_spec(self.spec_operands()) > u64::MAX);
                            }
                            return None;
                        },
                    }
                    k = k + 1;
                }
                proof {
                    assert(s.take(n as int) =~= s);
                    assert(acc == sum_spec(self.spec_operands()));
                }
                Some(acc)
            },
            Op::Mul => {
                proof {
                    assert(self.spec_op() == Op::Mul);
                }
                let mut acc: u64 = 1;
                let mut k: usize = 0;
                while k < n
                    invariant
                        s == self.operands@,
                        n == s.len(),
                        k <= n,
                        acc == prod_spec(s.take(k as int)),
                        forall|t: int| 0 <= t <= k ==> prod_spec(#[trigger] s.take(t)) <= u64::MAX,
                        self.spec_op() == Op::Mul,
                        s == self.spec_operands(),
                    decreases n - k,
                {
                    proof {
                        assert(s.take(k + 1 as int).drop_last() =~= s.take(k as int));
                        assert(s.take(k + 1 as int).last() == s[k as int]);
                        assert(prod_spec(s.take(k + 1 as int)) == prod_spec(s.take(k as int))
                            * s[k as int]);
                    }
                    match acc.checked_mul(self.operands[k]) {
                        Some(v) => {
                            acc = v;
                        },
                        None => {
                            proof {
                                assert(prod_spec(self.spec_operands().take(k as int + 1))
                                    > u64::MAX);
                                assert(0 <= k as int + 1 <= self.spec_operands().len());
                            }
                            return None;
                        },
                    }
                    k = k + 1;
                }
                proof {
                    assert(s.take(n as int) =~= s);
                    assert(acc == prod_spec(self.spec_operands()));
                    assert forall|t: int|
                        0 <= t <= self.spec_operands().len() implies prod_spec(
                        #[trigger] self.spec_operands().take(t)) <= u64::MAX by {
                        assert(prod_spec(s.take(t)) <= u64::MAX);
                    }
                }
                Some(acc)
            },
        }
    }
}

/// Partial sums of non-negative operands never exceed the full sum.
proof fn lemma_sum_take_bound(s: Seq<u64>, k: int)
    requires
        0 <= k <= s.len(),
    ensures
        sum_spec(s.take(k)) <= sum_spec(s),
        sum_spec(s.take(k)) >= 0,
    decreases s.len(),
{
    if s.len() == 0 {
        assert(s.take(k) =~= s);
    } else if k == s.len() {
        assert(s.take(k) =~= s);
        lemma_sum_take_bound(s.drop_last(), k - 1);
        assert(s.drop_last().take(k - 1) =~= s.drop_last());
    } else {
        assert(s.take(k) =~= s.drop_last().take(k));
        lemma_sum_take_bound(s.drop_last(), k);
    }
}

/// A product of machine integers is never negative.
proof fn lemma_prod_nonneg(s: Seq<u64>)
    ensures
        prod_spec(s) >= 0,
    decreases s.len(),
{
    if s.len() > 0 {
        lemma_prod_nonneg(s.drop_last());
        let p = prod_spec(s.drop_last());
        let x = s.last();
        assert(p * x >= 0) by (nonlinear_arith)
            requires
                p >= 0,
                x >= 0,
        ;
    }
}

/// Accumulates a problem before its operator is known.
pub struct ProblemBuilder {
    op: Option<Op>,
    operands: Vec<u64>,
}

impl ProblemBuilder {
    /// The operator seen so far, if any.
    pub closed spec fn spec_op(self) -> Option<Op> {
        self.op
    }

    /// The operands pushed so far, in order.
    pub closed spec fn spec_operands(self) -> Seq<u64> {
        self.operands@
    }

    pub fn new() -> (b: ProblemBuilder)
        ensures
            b.spec_op() is None,
            b.spec_operands() == Seq::<u64>::empty(),
    {
        let b = ProblemBuilder { op: None, operands: Vec::new() };
        proof {
            assert(b.spec_operands() =~= Seq::<u64>::empty());
        }
        b
    }

    /// Appends one operand.
    pub fn push_operand(&mut self, operand: u64)
        ensures
            final(self).spec_op() == old(self).spec_op(),
            final(self).spec_operands() == old(self).spec_operands().push(operand),
    {
        self.operands.push(operand);
    }

    /// Whether an operator has been recorded yet.
    pub fn has_op(&self) -> (r: bool)
        ensures
            r == (self.spec_op() is Some),
    {
        self.op.is_some()
    }

    /// Records the operator, replacing any previous one.
    pub fn set_op(&mut self, op: Op)
        ensures
            final(self).spec_op() == Some(op),
            final(self).spec_operands() == old(self).spec_operands(),
    {
        self.op = Some(op);
    }

    /// Finishes the problem. An operator must have been recorded.
    pub fn build(self) -> (p: Problem)
        requires
            self.spec_op() is Some,
        ensures
            p.spec_op() == self.spec_op().unwrap(),
            p.spec_operands() == self.spec_operands(),
    {
        let op = match self.op {
            Some(op) => op,
            None => Op::Add,
        };
        Problem { op, operands: self.operands }
    }
}

/// The last characters of the rows, in row order.
pub open spec fn popped_column(rows: Seq<Vec<char>>) -> Seq<char> {
    Seq::new(rows.len(), |r: int| rows[r]@.last())
}

/// Takes the rightmost column off the worksheet rows: pops the last character
/// of every row, reads the column above the last row as an operand, and reads
/// the last row's character as an operator. Fails, with the characters
/// already taken, when any row has run empty.
pub fn step(rows: &mut Vec<Vec<char>>) -> (r: Result<(Option<u64>, Option<Op>), ()>)
    requires
        old(rows)@.len() > 0,
    ensures
        final(rows)@.len() == old(rows)@.len(),
        forall|t: int|
            0 <= t < old(rows)@.len() ==> final(rows)@[t]@ == (if old(rows)@[t]@.len() > 0 {
                old(rows)@[t]@.drop_last()
            } else {
                old(rows)@[t]@
            }),
        r is Err <==> exists|t: int| 0 <= t < old(rows)@.len() && old(rows)@[t]@.len() == 0,
        r is Ok ==> r->Ok_0 == (
            first_operand_from(popped_column(old(rows)@).drop_last(), 0),
            op_from_char(old(rows)@[old(rows)@.len() - 1]@.last()),
        ),
{
    let ghost pre = rows@;
    let n = rows.len();
    let mut col: Vec<char> = Vec::new();
    let mut all_full = true;
    let mut t: usize = 0;
    while t < n
        invariant
            n == pre.len(),
            rows@.len() == n,
            t <= n,
            forall|u: int|
                0 <= u < t ==> rows@[u]@ == (if pre[u]@.len() > 0 {
                    pre[u]@.drop_last()
                } else {
                    pre[u]@
                }),
            forall|u: int| t <= u < n ==> rows@[u]@ == pre[u]@,
            all_full <==> (forall|u: int| 0 <= u < t ==> pre[u]@.len() > 0),
            all_full ==> col@ == popped_column(pre).take(t as int),
        decreases n - t,
    {
        let ghost col_pre = col@;
        let ghost rows_pre = rows@;
        let popped = rows[t].pop();
        proof {
            assert(rows@[t as int]@ == (if pre[t as int]@.len() > 0 {
                pre[t as int]@.drop_last()
            } else {
                pre[t as int]@
            }));
            assert forall|u: int| 0 <= u < n && u != t implies rows@[u] == rows_pre[u] by {}
        }
        match popped {
            Some(c) => {
                if all_full {
                    col.push(c);
                    proof {
                        assert(c == pre[t as int]@.last());
                        assert(col@ =~= popped_column(pre).take(t + 1 as int));
                    }
                }
            },
            None => {
                all_full = false;
            },
        }
        t = t + 1;
    }
    if !all_full {
        return Err(());
    }
    proof {
        assert(col@ =~= popped_column(pre));
    }
    let op_char = match col.pop() {
        Some(c) => c,
        None => ' ',
    };
    proof {
        assert(op_char == popped_column(pre).last());
        assert(op_char == pre[pre.len() - 1]@.last());
        assert(col@ == popped_column(pre).drop_last());
    }
    let operand = first_operand(&col);
    let op = Op::from_char(op_char);
    Ok((operand, op))
}

/// The whitespace-separated tokens of `s` at or after `i`, in order.
pub open spec fn tokens_from(s: Seq<char>, i: int) -> Seq<Seq<char>>
    decreases s.len() - i,
        when 0 <= i <= s.len()
{
    if i >= s.len() {
        Seq::empty()
    } else if is_ws(s[i]) {
        tokens_from(s, i + 1)
    } else {
        proof {
            lemma_token_end(s, i);
        }
        seq![s.subrange(i, token_end(s, i))] + tokens_from(s, token_end(s, i))
    }
}

/// The whitespace-separated tokens of the line, in order.
pub fn line_tokens(cs: &Vec<char>) -> (r: Vec<Vec<char>>)
    ensures
        rows_view(r@) == tokens_from(cs@, 0),
{
    let ghost s = cs@;
    let n = cs.len();
    let mut out: Vec<Vec<char>> = Vec::new();
    let mut i: usize = 0;
    proof {
        assert(rows_view(out@) + tokens_from(s, 0) =~= tokens_from(s, 0));
    }
    while i < n
        invariant
            s == cs@,
            n == s.len(),
            i <= n,
            rows_view(out@) + tokens_from(s, i as int) =~= tokens_from(s, 0),
        decreases n - i,
    {
        let c = cs[i];
        if is_ws_exec(c) {
            i = i + 1;
        } else {
            proof {
                lemma_token_end(s, i as int);
            }
            let mut tok: Vec<char> = Vec::new();
            let mut b = i;
            while b < n && !is_ws_exec(cs[b])
                invariant
                    s == cs@,
                    n == s.len(),
                    i <= b <= n,
                    forall|k: int| i <= k < b ==> !is_ws(s[k]),
                    tok@ == s.subrange(i as int, b as int),
                decreases n - b,
            {
                tok.push(cs[b]);
                proof {
                    assert(tok@ =~= s.subrange(i as int, b + 1 as int));
                }
                b = b + 1;
            }
            proof {
                lemma_token_end_at(s, i as int, b as int);
                assert(tokens_from(s, i as int) == seq![s.subrange(i as int, b as int)]
                    + tokens_from(s, b as int));
            }
            let ghost out_pre = out@;
            out.push(tok);
            proof {
                assert(rows_view(out@) =~= rows_view(out_pre) + seq![tok@]);
                assert(rows_view(out@) + tokens_from(s, b as int) =~= tokens_from(s, 0));
            }
            i = b;
        }
    }
    proof {
        assert(tokens_from(s, n as int) =~= Seq::<Seq<char>>::empty());
        assert(rows_view(out@) =~= tokens_from(s, 0));
    }
    out
}

/// The rows as plain character sequences.
pub open spec fn rows_view(rows: Seq<Vec<char>>) -> Seq<Seq<char>> {
    Seq::new(rows.len(), |r: int| rows[r]@)
}

/// The rightmost column of the rows: the last character of each.
pub open spec fn column_of(rows: Seq<Seq<char>>) -> Seq<char> {
    Seq::new(rows.len(), |r: int| rows[r].last())
}

/// The rows with their rightmost column taken off.
pub open spec fn popped_rows(rows: Seq<Seq<char>>) -> Seq<Seq<char>> {
    Seq::new(rows.len(), |r: int| rows[r].drop_last())
}

/// Some row has run out of characters.
pub open spec fn some_row_empty(rows: Seq<Seq<char>>) -> bool {
    exists|t: int| 0 <= t < rows.len() && rows[t].len() == 0
}

/// The value of a problem: the sum or product of its operands.
pub open spec fn eval_spec(o: Op, s: Seq<u64>) -> int {
    if o == Op::Add {
        sum_spec(s)
    } else {
        prod_spec(s)
    }
}

/// Whether a problem's value fits `u64` the way the checked evaluation
/// demands: the whole sum, or every prefix product.
pub open spec fn eval_fits(o: Op, s: Seq<u64>) -> bool {
    if o == Op::Add {
        sum_spec(s) <= u64::MAX
    } else {
        forall|k: int| 0 <= k <= s.len() ==> prod_spec(#[trigger] s.take(k)) <= u64::MAX
    }
}

/// The worksheet total, consuming columns from the right until a row runs
/// out: a column whose upper part reads as an operand extends the pending
/// operands; one whose last row also carries an operator adds the pending
/// problem's value; a column with no operand clears the pending operands.
pub open spec fn worksheet_total(rows: Seq<Seq<char>>, operands: Seq<u64>, acc: int) -> int
    decreases (if rows.len() > 0 {
        rows[0].len()
    } else {
        0
    }),
{
    if rows.len() == 0 || some_row_empty(rows) {
        acc
    } else {
        let operand = first_operand_from(column_of(rows).drop_last(), 0);
        let op = op_from_char(column_of(rows).last());
        if operand is Some {
            let ops2 = operands.push(operand->0);
            if op is Some {
                worksheet_total(popped_rows(rows), ops2, acc + eval_spec(op->0, ops2))
            } else {
                worksheet_total(popped_rows(rows), ops2, acc)
            }
        } else {
            worksheet_total(popped_rows(rows), Seq::empty(), acc)
        }
    }
}

/// Whether every problem value and the running total along the worksheet
/// walk fit their machine integers.
pub open spec fn worksheet_fits(rows: Seq<Seq<char>>, operands: Seq<u64>, acc: int) -> bool
    decreases (if rows.len() > 0 {
        rows[0].len()
    } else {
        0
    }),
{
    if rows.len() == 0 || some_row_empty(rows) {
        true
    } else {
        let operand = first_operand_from(column_of(rows).drop_last(), 0);
        let op = op_from_char(column_of(rows).last());
        if operand is Some {
            let ops2 = operands.push(operand->0);
            if op is Some {
                &&& eval_fits(op->0, ops2)
                &&& acc + eval_spec(op->0, ops2) <= i64::MAX
                &&& worksheet_fits(popped_rows(rows), ops2, acc + eval_spec(op->0, ops2))
            } else {
                worksheet_fits(popped_rows(rows), ops2, acc)
            }
        } else {
            worksheet_fits(popped_rows(rows), Seq::empty(), acc)
        }
    }
}

/// The worksheet total of the given rows, consuming columns from the right
/// until a row runs out: `None` exactly when some problem value or the
/// running total leaves its machine range along the way.
pub fn part2(rows: &mut Vec<Vec<char>>) -> (r: Option<i64>)
    requires
        old(rows)@.len() > 0,
    ensures
        r is Some <==> worksheet_fits(rows_view(old(rows)@), Seq::empty(), 0),
        r is Some ==> r->0 == worksheet_total(rows_view(old(rows)@), Seq::empty(), 0),
{
    let ghost orig = rows_view(old(rows)@);
    let mut operands: Vec<u64> = Vec::new();
    let mut acc: i64 = 0;
    loop
        invariant
            orig == rows_view(old(rows)@),
            rows@.len() == orig.len(),
            orig.len() > 0,
            acc >= 0,
            worksheet_total(orig, Seq::empty(), 0) == worksheet_total(
                rows_view(rows@),
                operands@,
                acc as int,
            ),
            worksheet_fits(orig, Seq::empty(), 0) == worksheet_fits(
                rows_view(rows@),
                operands@,
                acc as int,
            ),
        decreases rows@[0]@.len(),
    {
        let ghost vecs_pre = rows@;
        let ghost rows_pre = rows_view(rows@);
        let ghost ops_pre = operands@;
        let ghost acc_pre = acc as int;
        match step(rows) {
            Err(_) => {
                proof {
                    assert(some_row_empty(rows_pre)) by {
                        let t = choose|t: int|
                            0 <= t < vecs_pre.len() && vecs_pre[t]@.len() == 0;
                        assert(rows_pre[t].len() == 0);
                    }
                    assert(worksheet_total(rows_pre, ops_pre, acc_pre) == acc_pre);
                    assert(worksheet_fits(rows_pre, ops_pre, acc_pre));
                }
                return Some(acc);
            },
            Ok((operand, op)) => {
                proof {
                    assert(!some_row_empty(rows_pre)) by {
                        if some_row_empty(rows_pre) {
                            let t = choose|t: int|
                                0 <= t < rows_pre.len() && rows_pre[t].len() == 0;
                            assert(vecs_pre[t]@.len() == 0);
                        }
                    }
                    assert forall|t: int|
                        0 <= t < rows_pre.len() implies #[trigger] rows_pre[t].len() > 0 by {
                        if rows_pre[t].len() == 0 {
                            assert(some_row_empty(rows_pre));
                        }
                    }
                    assert(column_of(rows_pre) =~= popped_column(vecs_pre));
                    assert(column_of(rows_pre).drop_last() =~= popped_column(vecs_pre).drop_last());
                    assert(operand == first_operand_from(column_of(rows_pre).drop_last(), 0));
                    assert(column_of(rows_pre).last() == vecs_pre[vecs_pre.len() - 1]@.last());
                    assert(op == op_from_char(column_of(rows_pre).last()));
                    assert(rows_view(rows@) =~= popped_rows(rows_pre));
                    assert(rows@[0]@.len() == rows_pre[0].len() - 1);
                }
                match (operand, op) {
                    (Some(v), None) => {
                        operands.push(v);
                    },
                    (Some(v), Some(o)) => {
                        operands.push(v);
                        let ghost ops2 = operands@;
                        let mut builder = ProblemBuilder::new();
                        let m = operands.len();
                        let mut k: usize = 0;
                        while k < m
                            invariant
                                m == operands@.len(),
                                k <= m,
                                builder.spec_op() is None,
                                builder.spec_operands() == operands@.take(k as int),
                            decreases m - k,
                        {
                            builder.push_operand(operands[k]);
                            proof {
                                assert(operands@.take(k as int).push(operands@[k as int])
                                    =~= operands@.take(k + 1 as int));
                            }
                            k = k + 1;
                        }
                        proof {
                            assert(operands@.take(m as int) =~= operands@);
                        }
                        builder.set_op(o);
                        let problem = builder.build();
                        proof {
                            assert(problem.spec_operands() == ops2);
                            assert(problem.spec_op() == o);
                            assert(eval_fits(o, ops2) <==> (if o == Op::Add {
                                sum_spec(problem.spec_operands()) <= u64::MAX
                            } else {
                                forall|k2: int|
                                    0 <= k2 <= problem.spec_operands().len() ==> prod_spec(
                                        #[trigger] problem.spec_operands().take(k2),
                                    ) <= u64::MAX
                            }));
                        }
                        match problem.try_eval() {
                            Some(value) => {
                                proof {
                                    assert(value as int == eval_spec(o, ops2));
                                }
                                if value > (i64::MAX as u64) {
                                    proof {
                                        assert(acc_pre + eval_spec(o, ops2) > i64::MAX);
                                        assert(!worksheet_fits(rows_pre, ops_pre, acc_pre));
                                    }
                                    return None;
                                }
                                match acc.checked_add(value as i64) {
                                    Some(a2) => {
                                        acc = a2;
                                        proof {
                                            assert(acc as int == acc_pre + eval_spec(o, ops2));
                                        }
                                    },
                                    None => {
                                        proof {
                                            assert(acc_pre + eval_spec(o, ops2) > i64::MAX);
                                            assert(!worksheet_fits(rows_pre, ops_pre, acc_pre));
                                        }
                                        return None;
                                    },
                                }
                            },
                            None => {
                                proof {
                                    assert(!eval_fits(o, ops2));
                                    assert(!worksheet_fits(rows_pre, ops_pre, acc_pre));
                                }
                                return None;
                            },
                        }
                    },
                    (None, _) => {
                        operands.clear();
                        proof {
                            assert(operands@ =~= Seq::<u64>::empty());
                        }
                    },
                }
            },
        }
    }
}

} // verus!
