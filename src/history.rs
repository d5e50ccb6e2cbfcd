//! The meaning of a sequence of mutations, independent of the log.
use vstd::prelude::*;

verus! {

/// One mutation of the store.
pub enum Op {
    Put { key: Seq<char>, value: Seq<char> },
    Remove { key: Seq<char> },
}

/// What the keys hold after `op`: `put` stores its value, `remove` drops
/// the key.
pub open spec fn step(contents: Map<Seq<char>, Seq<char>>, op: Op) -> Map<Seq<char>, Seq<char>> {
    match op {
        Op::Put { key, value } => contents.insert(key, value),
        Op::Remove { key } => contents.remove(key),
    }
}

/// What the keys hold after `ops`, on a fresh store.
pub open spec fn run(ops: Seq<Op>) -> Map<Seq<char>, Seq<char>>
    decreases ops.len(),
{
    if ops.len() == 0 {
        Map::empty()
    } else {
        step(run(ops.drop_last()), ops.last())
    }
}

/// The value of the last `put` of `key` in `ops` that no `remove` of `key`
/// follows.
pub open spec fn last_write(ops: Seq<Op>, key: Seq<char>) -> Option<Seq<char>>
    decreases ops.len(),
{
    if ops.len() == 0 {
        None
    } else {
        match ops.last() {
            Op::Put { key: k, value } => if k == key {
                Some(value)
            } else {
                last_write(ops.drop_last(), key)
            },
            Op::Remove { key: k } => if k == key {
                None
            } else {
                last_write(ops.drop_last(), key)
            },
        }
    }
}

/// Last write wins: after any sequence of mutations, a key holds the value
/// of its last `put` that no `remove` of it follows, and no value when
/// there is none.
pub proof fn lemma_last_write_wins(ops: Seq<Op>, key: Seq<char>)
    ensures
        match last_write(ops, key) {
            Some(v) => run(ops).contains_key(key) && run(ops)[key] == v,
            None => !run(ops).contains_key(key),
        },
    decreases ops.len(),
{
    if ops.len() > 0 {
        lemma_last_write_wins(ops.drop_last(), key);
    }
}

} // verus!
