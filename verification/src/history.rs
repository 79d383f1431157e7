//! The operation history a test client records: one entry per protocol
//! call, for an external consistency checker to consume.

use vstd::prelude::*;

verus! {

/// One recorded operation: which transaction, what kind of call, the path
/// it touched, the LSN the response carried, and when it happened.
#[derive(Debug)]
pub struct ElleOp {
    pub tx_id: u64,
    pub op_type: String,
    pub path: Option<String>,
    pub lsn: Option<u64>,
    pub timestamp: u64,
}

/// The mathematical model of a recorded operation.
#[verifier::ext_equal]
pub struct ElleOpModel {
    pub tx_id: u64,
    pub op_type: Seq<char>,
    pub path: Option<Seq<char>>,
    pub lsn: Option<u64>,
    pub timestamp: u64,
}

impl View for ElleOp {
    type V = ElleOpModel;

    open spec fn view(&self) -> ElleOpModel {
        ElleOpModel {
            tx_id: self.tx_id,
            op_type: self.op_type@,
            path: match &self.path {
                Some(p) => Some(p@),
                None => None,
            },
            lsn: self.lsn,
            timestamp: self.timestamp,
        }
    }
}

/// An append-only operation history.
pub struct ElleHistory {
    ops: Vec<ElleOp>,
}

impl View for ElleHistory {
    type V = Seq<ElleOpModel>;

    closed spec fn view(&self) -> Seq<ElleOpModel> {
        Seq::new(self.ops@.len(), |i: int| self.ops@[i]@)
    }
}

impl ElleHistory {
    /// An empty history.
    pub fn new() -> (r: Self)
        ensures
            r@ == Seq::<ElleOpModel>::empty(),
    {
        let r = ElleHistory { ops: Vec::new() };
        proof {
            assert(r@ =~= Seq::<ElleOpModel>::empty());
        }
        r
    }

    /// Appends one operation.
    pub fn record(&mut self, op: ElleOp)
        ensures
            final(self)@ == old(self)@.push(op@),
    {
        let ghost v = op@;
        self.ops.push(op);
        proof {
            assert(self@ =~= old(self)@.push(v));
        }
    }

    /// The recorded operations, in order.
    pub fn ops(&self) -> (r: &Vec<ElleOp>)
        ensures
            r@.len() == self@.len(),
            forall|i: int| 0 <= i < r@.len() ==> (#[trigger] r@[i])@ == self@[i],
    {
        &self.ops
    }

    /// How many operations the history holds.
    pub fn len(&self) -> (r: usize)
        ensures
            r == self@.len(),
    {
        self.ops.len()
    }
}

} // verus!
