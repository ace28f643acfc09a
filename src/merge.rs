use vstd::prelude::*;

use crate::state::{decode_i64, encode_i64, i64_bytes, i64_of};

verus! {

/// Marks an operand that holds an accumulator.
pub const ACCUMULATOR_MARKER: u8 = 0xAC;

/// Marks an operand that holds one input value.
pub const VALUE_MARKER: u8 = 0x00;

/// An associative function that folds the values of a reducer state into one.
pub trait Reducer {
    spec fn reduce_spec(&self, a: i64, b: i64) -> i64;

    fn reduce(&self, a: i64, b: i64) -> (r: i64)
        ensures
            r == self.reduce_spec(a, b),
    ;
}

/// Keeps the largest value.
pub struct MaxReducer;

impl Reducer for MaxReducer {
    open spec fn reduce_spec(&self, a: i64, b: i64) -> i64 {
        if a >= b {
            a
        } else {
            b
        }
    }

    fn reduce(&self, a: i64, b: i64) -> (r: i64) {
        if a >= b {
            a
        } else {
            b
        }
    }
}

/// Every operand is the bytes of one integer value.
pub open spec fn all_values(ops: Seq<Vec<u8>>) -> bool {
    forall|i: int| 0 <= i < ops.len() ==> (#[trigger] ops[i])@.len() == 8
}

/// Folds the operands into the existing value with `f`; the first operand starts the value
/// when there is none.
pub open spec fn reduce_fold<F: Reducer>(f: F, acc: Option<i64>, ops: Seq<Vec<u8>>) -> Option<i64>
    decreases ops.len(),
{
    if ops.len() == 0 {
        acc
    } else {
        let x = i64_of(ops.last()@);
        match reduce_fold(f, acc, ops.drop_last()) {
            None => Some(x),
            Some(a) => Some(f.reduce_spec(a, x)),
        }
    }
}

/// The storage-level merge of a reducer state.
pub struct ReducerMerge<F: Reducer> {
    pub reduce_fn: F,
}

/// The merge operator that folds a reducer's operands with `reduce_fn`.
pub fn make_reducer_merge<F: Reducer>(reduce_fn: F) -> (r: ReducerMerge<F>)
    ensures
        r.reduce_fn == reduce_fn,
{
    ReducerMerge { reduce_fn }
}

impl<F: Reducer> ReducerMerge<F> {
    /// The merged value: the existing value, if any, with every operand folded in. Bytes that
    /// are not an integer value make the merge fail (`None`).
    pub fn merge(&self, first: Option<&[u8]>, operands: &Vec<Vec<u8>>) -> (r: Option<Vec<u8>>)
        ensures
            r is Some <==> (match first {
                Some(b) => b@.len() == 8,
                None => true,
            }) && all_values(operands@) && (first is Some || operands@.len() > 0),
            r matches Some(out) ==> {
                let start = match first {
                    Some(b) => Some(i64_of(b@)),
                    None => None,
                };
                out@ == i64_bytes(reduce_fold(self.reduce_fn, start, operands@)->Some_0)
            },
    {
        let mut acc: Option<i64> = match first {
            Some(b) => match decode_i64(b) {
                Ok(x) => Some(x),
                Err(_) => {
                    return None;
                },
            },
            None => None,
        };
        let ghost start = acc;
        let mut i: usize = 0;
        while i < operands.len()
            invariant
                i <= operands@.len(),
                all_values(operands@.subrange(0, i as int)),
                acc == reduce_fold(self.reduce_fn, start, operands@.subrange(0, i as int)),
                acc is Some <==> (start is Some || i > 0),
            decreases operands@.len() - i,
        {
            assert(operands@.subrange(0, i + 1).drop_last() =~= operands@.subrange(0, i as int));
            let x = match decode_i64(operands[i].as_slice()) {
                Ok(x) => x,
                Err(_) => {
                    assert(!all_values(operands@));
                    return None;
                },
            };
            acc = match acc {
                None => Some(x),
                Some(a) => Some(self.reduce_fn.reduce(a, x)),
            };
            i = i + 1;
            assert(all_values(operands@.subrange(0, i as int))) by {
                assert forall|j: int| 0 <= j < i implies (#[trigger] operands@.subrange(
                    0,
                    i as int,
                )[j])@.len() == 8 by {
                    if j < i - 1 {
                        assert(operands@.subrange(0, i as int)[j] == operands@.subrange(
                            0,
                            i - 1,
                        )[j]);
                    }
                }
            }
        }
        assert(operands@.subrange(0, i as int) =~= operands@);
        match acc {
            None => None,
            Some(a) => Some(encode_i64(a)),
        }
    }
}

/// A function that folds input values into an accumulator and turns it into a result.
pub trait Aggregator {
    spec fn create_spec(&self) -> i64;

    spec fn add_spec(&self, acc: i64, x: i64) -> i64;

    spec fn merge_spec(&self, a: i64, b: i64) -> i64;

    fn create_accumulator(&self) -> (r: i64)
        ensures
            r == self.create_spec(),
    ;

    fn add(&self, acc: i64, x: i64) -> (r: i64)
        ensures
            r == self.add_spec(acc, x),
    ;

    fn merge_accumulators(&self, a: i64, b: i64) -> (r: i64)
        ensures
            r == self.merge_spec(a, b),
    ;
}

/// Counts the inputs.
pub struct CountAggregator;

impl Aggregator for CountAggregator {
    open spec fn create_spec(&self) -> i64 {
        0
    }

    open spec fn add_spec(&self, acc: i64, x: i64) -> i64 {
        if acc < i64::MAX {
            (acc + 1) as i64
        } else {
            acc
        }
    }

    open spec fn merge_spec(&self, a: i64, b: i64) -> i64 {
        if a >= 0 && b >= 0 && a + b <= i64::MAX {
            (a + b) as i64
        } else {
            i64::MAX
        }
    }

    fn create_accumulator(&self) -> (r: i64) {
        0
    }

    fn add(&self, acc: i64, x: i64) -> (r: i64) {
        if acc < i64::MAX {
            acc + 1
        } else {
            acc
        }
    }

    fn merge_accumulators(&self, a: i64, b: i64) -> (r: i64) {
        if a >= 0 && b >= 0 && a <= i64::MAX - b {
            a + b
        } else {
            i64::MAX
        }
    }
}

/// A marker byte followed by the bytes of one integer.
pub open spec fn tagged(op: Seq<u8>) -> bool {
    op.len() == 9 && (op[0] == ACCUMULATOR_MARKER || op[0] == VALUE_MARKER)
}

/// The integer that a tagged operand carries.
pub open spec fn payload(op: Seq<u8>) -> i64 {
    i64_of(op.subrange(1, 9))
}

/// Folds tagged operands into an accumulator: an accumulator operand is merged, a value
/// operand is added.
pub open spec fn aggregate_fold<A: Aggregator>(a: A, acc: i64, ops: Seq<Vec<u8>>) -> i64
    decreases ops.len(),
{
    if ops.len() == 0 {
        acc
    } else {
        let prev = aggregate_fold(a, acc, ops.drop_last());
        let op = ops.last()@;
        if op[0] == ACCUMULATOR_MARKER {
            a.merge_spec(prev, payload(op))
        } else {
            a.add_spec(prev, payload(op))
        }
    }
}

/// The storage-level merge of an aggregator state.
pub struct AggregatorMerge<A: Aggregator> {
    pub aggregator: A,
}

/// The merge operator that folds an aggregator's tagged operands.
pub fn make_aggregator_merge<A: Aggregator>(aggregator: A) -> (r: AggregatorMerge<A>)
    ensures
        r.aggregator == aggregator,
{
    AggregatorMerge { aggregator }
}

/// The tagged bytes of an accumulator.
pub open spec fn accumulator_bytes(acc: i64) -> Seq<u8> {
    seq![ACCUMULATOR_MARKER] + i64_bytes(acc)
}

/// The integer that a tagged operand carries.
fn read_payload(op: &[u8]) -> (r: i64)
    requires
        op@.len() == 9,
    ensures
        r == payload(op@),
{
    let mut body: Vec<u8> = Vec::with_capacity(8);
    let mut i: usize = 1;
    while i < 9
        invariant
            1 <= i <= 9,
            op@.len() == 9,
            body@ == op@.subrange(1, i as int),
        decreases 9 - i,
    {
        body.push(op[i]);
        i = i + 1;
        assert(body@ =~= op@.subrange(1, i as int));
    }
    match decode_i64(body.as_slice()) {
        Ok(x) => x,
        Err(_) => 0,
    }
}

impl<A: Aggregator> AggregatorMerge<A> {
    /// The merged accumulator, tagged: the existing accumulator (or a fresh one) with every
    /// operand folded in. An operand or existing value that is not tagged makes the merge
    /// fail (`None`).
    pub fn merge(&self, first: Option<&[u8]>, operands: &Vec<Vec<u8>>) -> (r: Option<Vec<u8>>)
        ensures
            r is Some <==> (match first {
                Some(b) => tagged(b@) && b@[0] == ACCUMULATOR_MARKER,
                None => true,
            }) && forall|i: int| 0 <= i < operands@.len() ==> tagged(#[trigger] operands@[i]@),
            r matches Some(out) ==> {
                let start = match first {
                    Some(b) => payload(b@),
                    None => self.aggregator.create_spec(),
                };
                out@ == accumulator_bytes(aggregate_fold(self.aggregator, start, operands@))
            },
    {
        let mut acc: i64 = match first {
            Some(b) => {
                if b.len() != 9 || b[0] != ACCUMULATOR_MARKER {
                    return None;
                }
                read_payload(b)
            },
            None => self.aggregator.create_accumulator(),
        };
        let ghost start = acc;
        let mut i: usize = 0;
        while i < operands.len()
            invariant
                i <= operands@.len(),
                forall|j: int| 0 <= j < i ==> tagged(#[trigger] operands@[j]@),
                acc == aggregate_fold(self.aggregator, start, operands@.subrange(0, i as int)),
            decreases operands@.len() - i,
        {
            assert(operands@.subrange(0, i + 1).drop_last() =~= operands@.subrange(0, i as int));
            let op = operands[i].as_slice();
            if op.len() != 9 || (op[0] != ACCUMULATOR_MARKER && op[0] != VALUE_MARKER) {
                return None;
            }
            let x = read_payload(op);
            if op[0] == ACCUMULATOR_MARKER {
                acc = self.aggregator.merge_accumulators(acc, x);
            } else {
                acc = self.aggregator.add(acc, x);
            }
            i = i + 1;
        }
        assert(operands@.subrange(0, i as int) =~= operands@);
        let mut out: Vec<u8> = Vec::with_capacity(9);
        out.push(ACCUMULATOR_MARKER);
        let mut body = encode_i64(acc);
        out.append(&mut body);
        assert(out@ =~= accumulator_bytes(acc));
        Some(out)
    }
}

} // verus!
