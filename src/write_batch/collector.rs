use vstd::prelude::*;
use super::{BatchOp, WriteBatchHandler};

verus! {

/// An operation as values.
#[derive(Clone, Debug, PartialEq, Eq)]
pub enum Op {
    Put(Vec<u8>, Vec<u8>),
    Delete(Vec<u8>),
}

impl Op {
    pub open spec fn spec_op(&self) -> BatchOp {
        match self {
            Op::Put(k, v) => BatchOp::Put(k@, v@),
            Op::Delete(k) => BatchOp::Delete(k@),
        }
    }
}

/// A handler that keeps every operation it receives, in order.
pub struct OpCollector {
    pub ops: Vec<Op>,
}

impl OpCollector {
    pub fn new() -> (r: Self)
        ensures
            r.received() == Seq::<BatchOp>::empty(),
    {
        let r = OpCollector { ops: Vec::new() };
        assert(r.received() =~= Seq::<BatchOp>::empty());
        r
    }
}

impl WriteBatchHandler for OpCollector {
    open spec fn received(&self) -> Seq<BatchOp> {
        self.ops@.map_values(|o: Op| o.spec_op())
    }

    fn put(&mut self, key: &[u8], value: &[u8]) {
        self.ops.push(Op::Put(vstd::slice::slice_to_vec(key), vstd::slice::slice_to_vec(value)));
        assert(self.received() =~= old(self).received().push(BatchOp::Put(key@, value@)));
    }

    fn delete(&mut self, key: &[u8]) {
        self.ops.push(Op::Delete(vstd::slice::slice_to_vec(key)));
        assert(self.received() =~= old(self).received().push(BatchOp::Delete(key@)));
    }
}

} // verus!
