//! The laws the store obeys, stated over its mathematical model. The
//! contracts of `set`, `remove` and `get` say that each mutation applies
//! one operation to the store's mapping and that a lookup reads it; the
//! lemmas here pin down what any history of operations leaves behind.
use crate::txlog::SpecOp;
use crate::KvStore;
use vstd::prelude::*;

verus! {

/// How one operation changes the key-value mapping: exactly what the
/// contracts of `set` and `remove` say of the store's view.
pub open spec fn spec_apply_op(m: Map<Seq<char>, Seq<char>>, op: SpecOp) -> Map<
    Seq<char>,
    Seq<char>,
> {
    match op {
        SpecOp::Put { key, value } => m.insert(key, value),
        SpecOp::Rm { key } => m.remove(key),
    }
}

/// A sequence of operations applied in order.
pub open spec fn spec_apply_ops(m: Map<Seq<char>, Seq<char>>, ops: Seq<SpecOp>) -> Map<
    Seq<char>,
    Seq<char>,
>
    decreases ops.len(),
{
    if ops.len() == 0 {
        m
    } else {
        spec_apply_op(spec_apply_ops(m, ops.drop_last()), ops.last())
    }
}

/// The value of the last put of a key that no later remove of that key
/// follows, if there is one.
pub open spec fn spec_last_put(ops: Seq<SpecOp>, k: Seq<char>) -> Option<Seq<char>>
    decreases ops.len(),
{
    if ops.len() == 0 {
        None
    } else {
        match ops.last() {
            SpecOp::Put { key, value } => if key == k {
                Some(value)
            } else {
                spec_last_put(ops.drop_last(), k)
            },
            SpecOp::Rm { key } => if key == k {
                None
            } else {
                spec_last_put(ops.drop_last(), k)
            },
        }
    }
}

/// After any sequence of operations on an initially empty mapping, a key
/// maps to the value of its last put that is not followed by a remove of
/// it, and to nothing when no such put exists.
pub proof fn lemma_history(ops: Seq<SpecOp>, k: Seq<char>)
    ensures
        spec_apply_ops(Map::empty(), ops).contains_key(k) <==> spec_last_put(ops, k) is Some,
        spec_last_put(ops, k) matches Some(v) ==> spec_apply_ops(Map::empty(), ops)[k] == v,
    decreases ops.len(),
{
    if ops.len() > 0 {
        lemma_history(ops.drop_last(), k);
    }
}

/// Setting a key and then looking it up yields the value just set,
/// whether or not the key was bound before.
pub proof fn lemma_set_then_get(pre: KvStore, post: KvStore, k: Seq<char>, v: Seq<char>)
    requires
        post@ == pre@.insert(k, v),
    ensures
        post@.contains_key(k),
        post@[k] == v,
{
}

/// Setting a key, then removing it, leaves it unbound: a lookup yields
/// nothing.
pub proof fn lemma_set_remove_get(
    pre: KvStore,
    mid: KvStore,
    post: KvStore,
    k: Seq<char>,
    v: Seq<char>,
)
    requires
        mid@ == pre@.insert(k, v),
        post@ == mid@.remove(k),
    ensures
        !post@.contains_key(k),
{
}

} // verus!
