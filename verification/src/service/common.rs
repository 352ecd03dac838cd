//! Identifiers, and the evaluation of conditions.
use crate::proto::job::{Condition, Expr};
use vstd::prelude::*;

verus! {

broadcast use vstd::slice::group_slice_axioms;

/// Hands out the identifiers of datasets and of jobs: each kind counts up
/// from 1 on its own.
#[derive(Debug, Clone)]
pub struct IdGenerator {
    dataset_id: u64,
    job_id: u64,
}

impl IdGenerator {
    /// The identifier of the dataset made last; 0 before the first.
    pub closed spec fn last_dataset_id(&self) -> u64 {
        self.dataset_id
    }

    /// The identifier of the job made last; 0 before the first.
    pub closed spec fn last_job_id(&self) -> u64 {
        self.job_id
    }

    /// The identifier of a new dataset: one more than the last, and again 0
    /// after the largest.
    pub fn get_dataset_id(&mut self) -> (r: u64)
        ensures
            r == final(self).last_dataset_id(),
            final(self).last_job_id() == old(self).last_job_id(),
            r == if old(self).last_dataset_id() == u64::MAX {
                0
            } else {
                old(self).last_dataset_id() + 1
            },
    {
        self.dataset_id = self.dataset_id.wrapping_add(1);
        self.dataset_id
    }

    /// The identifier of a new job: one more than the last, and again 0
    /// after the largest.
    pub fn get_job_id(&mut self) -> (r: u64)
        ensures
            r == final(self).last_job_id(),
            final(self).last_dataset_id() == old(self).last_dataset_id(),
            r == if old(self).last_job_id() == u64::MAX {
                0
            } else {
                old(self).last_job_id() + 1
            },
    {
        self.job_id = self.job_id.wrapping_add(1);
        self.job_id
    }

    /// A generator that has made nothing yet.
    pub fn new() -> (r: Self)
        ensures
            r.last_dataset_id() == 0,
            r.last_job_id() == 0,
    {
        Self { dataset_id: 0, job_id: 0 }
    }
}

/// Why a condition cannot be evaluated.
#[derive(Clone, Copy, Debug, PartialEq, Eq, Structural)]
pub enum CondError {
    /// A key or a right-hand side is not a number of 32 bits in decimal
    /// digits.
    NotNumeric,
    /// The number of an operation is none of the five.
    UnknownOp,
}

/// The number that some decimal digits stand for.
pub open spec fn digits_value(s: Seq<u8>) -> int
    decreases s.len(),
{
    if s.len() == 0 {
        0
    } else {
        digits_value(s.drop_last()) * 10 + (s.last() - 48)
    }
}

/// Whether all the bytes are decimal digits.
pub open spec fn all_digits(s: Seq<u8>) -> bool {
    forall|i: int| 0 <= i < s.len() ==> 48 <= #[trigger] s[i] <= 57
}

/// The bytes without a plus sign in front.
pub open spec fn unsigned(s: Seq<u8>) -> Seq<u8> {
    if s.len() > 0 && s[0] == 43 {
        s.skip(1)
    } else {
        s
    }
}

/// The number of 32 bits that the bytes stand for: decimal digits, at least
/// one, with or without a plus sign in front.
pub open spec fn numeric(s: Seq<u8>) -> Option<int> {
    let d = unsigned(s);
    if d.len() > 0 && all_digits(d) && digits_value(d) <= u32::MAX {
        Some(digits_value(d))
    } else {
        None
    }
}

/// Whether the comparison with the number `op` holds of `lhs` and `rhs`.
pub open spec fn holds(op: i32, lhs: int, rhs: int) -> bool {
    if op == 0 {
        lhs < rhs
    } else if op == 1 {
        lhs <= rhs
    } else if op == 2 {
        lhs > rhs
    } else if op == 3 {
        lhs >= rhs
    } else {
        lhs == rhs
    }
}

/// The bytes of a text.
pub open spec fn text_bytes(text: Seq<char>) -> Seq<u8> {
    vstd::utf8::encode_utf8(text)
}

/// Whether a comparison can be evaluated: its operation is one of the five,
/// and its right-hand side is a number.
pub open spec fn expr_ok(e: Expr) -> bool {
    0 <= e.op <= 4 && numeric(text_bytes(e.rhs@)) is Some
}

/// Whether all of the first `n` comparisons hold of `lhs`.
pub open spec fn all_hold(exprs: Seq<Expr>, n: int, lhs: int) -> bool {
    forall|i: int|
        0 <= i < n ==> holds((#[trigger] exprs[i]).op, lhs, numeric(text_bytes(exprs[i].rhs@)).unwrap())
}

/// What a prefix of some digits stands for is no more than what they all
/// stand for.
proof fn lemma_digits_grow(s: Seq<u8>, k: int)
    requires
        all_digits(s),
        0 <= k <= s.len(),
    ensures
        0 <= digits_value(s.take(k)) <= digits_value(s),
    decreases s.len() - k,
{
    if k == s.len() {
        assert(s.take(k) =~= s);
        lemma_digits_nonneg(s);
    } else {
        lemma_digits_grow(s, k + 1);
        assert(s.take(k + 1).drop_last() =~= s.take(k));
        lemma_digits_nonneg(s.take(k));
        assert(s.take(k + 1).last() == s[k]);
    }
}

/// Digits stand for a number that is not below zero.
proof fn lemma_digits_nonneg(s: Seq<u8>)
    requires
        all_digits(s),
    ensures
        0 <= digits_value(s),
    decreases s.len(),
{
    if s.len() > 0 {
        lemma_digits_nonneg(s.drop_last());
    }
}

/// The number that the bytes stand for.
pub fn parse_u32(s: &[u8]) -> (r: Option<u32>)
    ensures
        match r {
            Some(v) => numeric(s@) == Some(v as int),
            None => numeric(s@) is None,
        },
{
    let total = s.len();
    let start: usize = if total > 0 && s[0] == 43 { 1 } else { 0 };
    let ghost d = unsigned(s@);
    if start == total {
        return None;
    }
    let mut acc: u64 = 0;
    let mut i: usize = start;
    proof {
        assert(d.take(0) =~= Seq::<u8>::empty());
    }
    while i < total
        invariant
            start <= i <= total,
            total == s@.len(),
            d == unsigned(s@),
            d == s@.skip(start as int),
            all_digits(d.take(i - start)),
            acc == digits_value(d.take(i - start)),
            acc <= u32::MAX,
        decreases total - i,
    {
        let b = s[i];
        if b < 48 || b > 57 {
            proof {
                assert(d[i - start] == b);
            }
            return None;
        }
        proof {
            assert(d.take(i - start + 1).drop_last() =~= d.take(i - start));
            assert(d.take(i - start + 1).last() == b);
        }
        acc = acc * 10 + (b - 48) as u64;
        if acc > 0xffff_ffff {
            proof {
                if all_digits(d) {
                    lemma_digits_grow(d, i - start + 1);
                }
            }
            return None;
        }
        i += 1;
    }
    proof {
        assert(d.take(i - start) =~= d);
    }
    Some(acc as u32)
}

/// What is wrong with a comparison: its operation is unknown, or else its
/// right-hand side is no number.
pub open spec fn expr_fault(e: Expr) -> Option<CondError> {
    if !(0 <= e.op <= 4) {
        Some(CondError::UnknownOp)
    } else if numeric(text_bytes(e.rhs@)) is None {
        Some(CondError::NotNumeric)
    } else {
        None
    }
}

impl Condition {
    /// Whether all the comparisons hold of the key `lhs`; the error where
    /// the key or a right-hand side is no number, or an operation is
    /// unknown. The key is looked at first, then the comparisons in their
    /// order: the error is that of the key, or else that of the first
    /// comparison with which something is wrong.
    pub fn eval(&self, lhs: &str) -> (r: Result<bool, CondError>)
        ensures
            match r {
                Ok(b) => {
                    &&& numeric(text_bytes(lhs@)) is Some
                    &&& forall|i: int| 0 <= i < self.exprs@.len() ==> expr_ok(#[trigger] self.exprs@[i])
                    &&& b == all_hold(
                        self.exprs@,
                        self.exprs@.len() as int,
                        numeric(text_bytes(lhs@)).unwrap(),
                    )
                },
                Err(e) => if numeric(text_bytes(lhs@)) is None {
                    e == CondError::NotNumeric
                } else {
                    exists|i: int|
                        0 <= i < self.exprs@.len() && expr_fault(#[trigger] self.exprs@[i]) == Some(
                            e,
                        ) && forall|j: int| 0 <= j < i ==> expr_ok(#[trigger] self.exprs@[j])
                },
            },
    {
        let key = match parse_u32(lhs.as_bytes()) {
            Some(v) => v,
            None => {
                return Err(CondError::NotNumeric);
            },
        };
        let mut res = true;
        let mut i: usize = 0;
        while i < self.exprs.len()
            invariant
                0 <= i <= self.exprs@.len(),
                numeric(text_bytes(lhs@)) == Some(key as int),
                forall|j: int| 0 <= j < i ==> expr_ok(#[trigger] self.exprs@[j]),
                res == all_hold(self.exprs@, i as int, key as int),
            decreases self.exprs@.len() - i,
        {
            let expr = &self.exprs[i];
            let op = expr.op;
            if op < 0 || op > 4 {
                proof {
                    assert(expr_fault(self.exprs@[i as int]) == Some(CondError::UnknownOp));
                }
                return Err(CondError::UnknownOp);
            }
            let rhs = match parse_u32(expr.rhs.as_str().as_bytes()) {
                Some(v) => v,
                None => {
                    proof {
                        assert(expr_fault(self.exprs@[i as int]) == Some(CondError::NotNumeric));
                    }
                    return Err(CondError::NotNumeric);
                },
            };
            let this = if op == 0 {
                key < rhs
            } else if op == 1 {
                key <= rhs
            } else if op == 2 {
                key > rhs
            } else if op == 3 {
                key >= rhs
            } else {
                key == rhs
            };
            proof {
                assert(this == holds(op, key as int, rhs as int));
                assert(all_hold(self.exprs@, i + 1, key as int) == (all_hold(
                    self.exprs@,
                    i as int,
                    key as int,
                ) && this)) by {
                    if all_hold(self.exprs@, i as int, key as int) && this {
                        assert forall|j: int| 0 <= j < i + 1 implies holds(
                            (#[trigger] self.exprs@[j]).op,
                            key as int,
                            numeric(text_bytes(self.exprs@[j].rhs@)).unwrap(),
                        ) by {}
                    }
                    if all_hold(self.exprs@, i + 1, key as int) {
                        assert(holds(
                            self.exprs@[i as int].op,
                            key as int,
                            numeric(text_bytes(self.exprs@[i as int].rhs@)).unwrap(),
                        ));
                    }
                }
            }
            res = res && this;
            i += 1;
        }
        Ok(res)
    }
}

} // verus!
