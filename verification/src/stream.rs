use vstd::prelude::*;

use crate::error::Error;
use crate::value::Value;

verus! {

/// A lazy, finite, single-pass sequence of decoded rows.
///
/// Rows are buffered by the orchestrator before being exposed, but the
/// consumer contract is purely incremental: `next` until `None`. A stream
/// is owned by one consumer and cannot be restarted once exhausted.
pub struct ValueStream {
    items: Vec<Result<Value, Error>>,
}

impl View for ValueStream {
    type V = Seq<Result<Value, Error>>;

    /// The items the stream has yet to yield, in order.
    closed spec fn view(&self) -> Seq<Result<Value, Error>> {
        self.items@
    }
}

impl ValueStream {
    /// The empty stream: the result of every write-only execution.
    pub fn new() -> (r: ValueStream)
        ensures
            r@ =~= Seq::<Result<Value, Error>>::empty(),
    {
        ValueStream { items: Vec::new() }
    }

    /// Wraps a buffered vector of decoded rows as a stream; the stream
    /// yields them in order.
    pub fn from_vec(items: Vec<Value>) -> (r: ValueStream)
        ensures
            r@.len() == items@.len(),
            forall|k: int| 0 <= k < items@.len() ==> r@[k] == Result::<Value, Error>::Ok(
                items@[k],
            ),
    {
        let ghost orig = items@;
        let mut items = items;
        let mut out: Vec<Result<Value, Error>> = Vec::new();
        while items.len() > 0
            invariant
                out@.len() + items@.len() == orig.len(),
                items@ =~= orig.subrange(out@.len() as int, orig.len() as int),
                forall|k: int| 0 <= k < out@.len() ==> out@[k] == Result::<Value, Error>::Ok(
                    orig[k],
                ),
            decreases items@.len(),
        {
            let v = items.remove(0);
            out.push(Ok(v));
            proof {
                assert(items@ =~= orig.subrange(out@.len() as int, orig.len() as int));
            }
        }
        ValueStream { items: out }
    }

    /// Pulls the next item: `None` exactly at end of stream, otherwise the
    /// first remaining item, which is consumed.
    pub fn next(&mut self) -> (r: Option<Result<Value, Error>>)
        ensures
            old(self)@.len() == 0 ==> r is None && final(self)@ == old(self)@,
            old(self)@.len() > 0 ==> r == Some(old(self)@[0]) && final(self)@ == old(
                self,
            )@.drop_first(),
    {
        if self.items.len() == 0 {
            None
        } else {
            let v = self.items.remove(0);
            proof {
                assert(self.items@ =~= old(self)@.drop_first());
            }
            Some(v)
        }
    }
}

} // verus!
