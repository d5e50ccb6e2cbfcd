//! The in-memory index: for each key that holds a value, where its current
//! record sits in the log. Keys are found through buckets keyed by the
//! 64-bit `DefaultHasher` digest of their bytes.
use std::collections::hash_map::DefaultHasher;
use std::collections::HashMap;
use std::hash::Hasher;
use vstd::prelude::*;
use vstd::std_specs::hash::DefaultHasherAdditionalSpecFns;
use vstd::utf8::encode_utf8;

verus! {

broadcast use vstd::std_specs::hash::group_hash_axioms;

/// Location of a record in the log: the offset of its first byte and its
/// size on disk.
#[derive(Clone, Copy, Debug, PartialEq, Eq, Structural)]
pub struct CommandPos {
    pub pos: u64,
    pub len: u64,
}

impl CommandPos {
    pub fn new(pos: u64, len: u64) -> (r: Self)
        ensures
            r.pos == pos,
            r.len == len,
    {
        CommandPos { pos, len }
    }
}

/// Sum of the sizes of the records at `locs`.
pub open spec fn total_len(locs: Seq<CommandPos>) -> nat
    decreases locs.len(),
{
    if locs.len() == 0 {
        0
    } else {
        total_len(locs.drop_last()) + locs.last().len as nat
    }
}

/// Replacing one location changes the total by the difference of sizes.
pub proof fn lemma_total_len_update(locs: Seq<CommandPos>, i: int, loc: CommandPos)
    requires
        0 <= i < locs.len(),
    ensures
        total_len(locs.update(i, loc)) == total_len(locs) - locs[i].len + loc.len,
    decreases locs.len(),
{
    let u = locs.update(i, loc);
    if i == locs.len() - 1 {
        assert(u.drop_last() =~= locs.drop_last());
    } else {
        assert(u.drop_last() =~= locs.drop_last().update(i, loc));
        lemma_total_len_update(locs.drop_last(), i, loc);
    }
}

/// Appending a location adds its size.
pub proof fn lemma_total_len_push(locs: Seq<CommandPos>, loc: CommandPos)
    ensures
        total_len(locs.push(loc)) == total_len(locs) + loc.len,
{
    assert(locs.push(loc).drop_last() =~= locs);
}

/// A prefix of the locations takes no more than all of them.
pub proof fn lemma_total_len_prefix_le(locs: Seq<CommandPos>, i: int)
    requires
        0 <= i <= locs.len(),
    ensures
        total_len(locs.subrange(0, i)) <= total_len(locs),
    decreases locs.len() - i,
{
    if i == locs.len() {
        assert(locs.subrange(0, i) =~= locs);
    } else {
        assert(locs.subrange(0, i + 1).drop_last() =~= locs.subrange(0, i));
        lemma_total_len_prefix_le(locs, i + 1);
    }
}

/// The bucket of a key: the `DefaultHasher` digest of its UTF-8 bytes.
pub open spec fn digest_of(key: Seq<char>) -> u64 {
    DefaultHasher::spec_finish(seq![encode_utf8(key)])
}

fn digest(key: &String) -> (d: u64)
    ensures
        d == digest_of(key@),
{
    let mut h = DefaultHasher::new();
    h.write(key.as_str().as_bytes());
    proof {
        assert(h@ =~= seq![encode_utf8(key@)]);
    }
    h.finish()
}

proof fn lemma_push_contains(s: Seq<usize>, z: usize, y: usize)
    ensures
        s.push(z).contains(y) <==> s.contains(y) || y == z,
{
    if s.contains(y) {
        let k = s.index_of(y);
        assert(s.push(z)[k] == y);
    }
    if s.push(z).contains(y) && y != z {
        let k = s.push(z).index_of(y);
        assert(s[k] == y);
    }
    assert(s.push(z)[s.len() as int] == z);
}

/// `bucket` with each `from` replaced by `to`, or dropped when `to` is
/// `None`.
fn retarget(bucket: &Vec<usize>, from: usize, to: Option<usize>) -> (r: Vec<usize>)
    ensures
        forall|x: usize| #[trigger]
            r@.contains(x) <==> (bucket@.contains(x) && x != from) || (to == Some(x)
                && bucket@.contains(from)),
{
    let mut r: Vec<usize> = Vec::new();
    let mut j: usize = 0;
    while j < bucket.len()
        invariant
            j <= bucket@.len(),
            forall|x: usize| #[trigger]
                r@.contains(x) <==> (bucket@.subrange(0, j as int).contains(x) && x != from) || (to
                    == Some(x) && bucket@.subrange(0, j as int).contains(from)),
        decreases bucket@.len() - j,
    {
        let x = bucket[j];
        let ghost old_r = r@;
        let ghost pre = bucket@.subrange(0, j as int);
        let ghost post = bucket@.subrange(0, j as int + 1);
        proof {
            assert(post =~= pre.push(x));
        }
        if x != from {
            r.push(x);
            proof {
                assert forall|y: usize| #[trigger] r@.contains(y) <==> (post.contains(y) && y != from)
                    || (to == Some(y) && post.contains(from)) by {
                    lemma_push_contains(old_r, x, y);
                    lemma_push_contains(pre, x, y);
                    lemma_push_contains(pre, x, from);
                }
            }
        } else if let Some(t) = to {
            r.push(t);
            proof {
                assert forall|y: usize| #[trigger] r@.contains(y) <==> (post.contains(y) && y != from)
                    || (to == Some(y) && post.contains(from)) by {
                    lemma_push_contains(old_r, t, y);
                    lemma_push_contains(pre, x, y);
                    lemma_push_contains(pre, x, from);
                }
            }
        } else {
            proof {
                assert forall|y: usize| #[trigger] r@.contains(y) <==> (post.contains(y) && y != from)
                    || (to == Some(y) && post.contains(from)) by {
                    lemma_push_contains(pre, x, y);
                }
            }
        }
        j = j + 1;
    }
    proof {
        assert(bucket@.subrange(0, bucket@.len() as int) =~= bucket@);
    }
    r
}

/// Bucket `digest_of(keys[i])` holds `i`.
pub open spec fn bucket_holds(buckets: Map<u64, Vec<usize>>, keys: Seq<Seq<char>>, i: int) -> bool {
    buckets.contains_key(digest_of(keys[i])) && buckets[digest_of(keys[i])]@.contains(i as usize)
}

/// Each key's position is in its digest's bucket, and a bucket holds only
/// positions of keys with its digest.
pub open spec fn buckets_ok(buckets: Map<u64, Vec<usize>>, keys: Seq<Seq<char>>) -> bool {
    &&& forall|i: int| 0 <= i < keys.len() ==> #[trigger] bucket_holds(buckets, keys, i)
    &&& forall|d: u64, x: usize|
        buckets.contains_key(d) && #[trigger] buckets[d]@.contains(x) ==> x < keys.len()
            && digest_of(keys[x as int]) == d
}

proof fn lemma_buckets_push(
    b: Map<u64, Vec<usize>>,
    keys: Seq<Seq<char>>,
    key: Seq<char>,
    bucket: Vec<usize>,
)
    requires
        buckets_ok(b, keys),
        keys.len() <= usize::MAX,
        bucket@ == (if b.contains_key(digest_of(key)) {
            b[digest_of(key)]@
        } else {
            Seq::empty()
        }).push(keys.len() as usize),
    ensures
        buckets_ok(b.insert(digest_of(key), bucket), keys.push(key)),
{
    let d = digest_of(key);
    let b2 = b.insert(d, bucket);
    let k2 = keys.push(key);
    let old_b = if b.contains_key(d) {
        b[d]@
    } else {
        Seq::empty()
    };
    assert forall|i: int| 0 <= i < k2.len() implies #[trigger] bucket_holds(b2, k2, i) by {
        if i < keys.len() {
            assert(bucket_holds(b, keys, i));
            assert(k2[i] == keys[i]);
            if digest_of(keys[i]) == d {
                let j = old_b.index_of(i as usize);
                assert(bucket@[j] == i as usize);
            }
        } else {
            assert(bucket@[old_b.len() as int] == i as usize);
        }
    }
    assert forall|dd: u64, x: usize| b2.contains_key(dd) && #[trigger] b2[dd]@.contains(x) implies x
        < k2.len() && digest_of(k2[x as int]) == dd by {
        if dd == d {
            let j = bucket@.index_of(x);
            if j < old_b.len() {
                assert(old_b[j] == x);
                assert(b[d]@.contains(x));
                assert(k2[x as int] == keys[x as int]);
            } else {
                assert(x == keys.len());
                assert(k2[x as int] == key);
            }
        } else {
            assert(b[dd]@.contains(x));
            assert(k2[x as int] == keys[x as int]);
        }
    }
}

proof fn lemma_buckets_swap_remove(
    b0: Map<u64, Vec<usize>>,
    keys: Seq<Seq<char>>,
    i: int,
    r1: Vec<usize>,
    r2: Vec<usize>,
)
    requires
        buckets_ok(b0, keys),
        0 <= i < keys.len(),
        keys.len() <= usize::MAX,
        forall|x: usize| #[trigger]
            r1@.contains(x) <==> b0[digest_of(keys[i])]@.contains(x) && x != i as usize,
        i != keys.len() - 1 ==> forall|x: usize| #[trigger]
            r2@.contains(x) <==> (b0.insert(digest_of(keys[i]), r1)[digest_of(keys.last())]@.contains(
                x,
            ) && x != (keys.len() - 1) as usize) || (x == i as usize && b0.insert(
                digest_of(keys[i]),
                r1,
            )[digest_of(keys.last())]@.contains((keys.len() - 1) as usize)),
    ensures
        buckets_ok(
            if i != keys.len() - 1 {
                b0.insert(digest_of(keys[i]), r1).insert(digest_of(keys.last()), r2)
            } else {
                b0.insert(digest_of(keys[i]), r1)
            },
            keys.update(i, keys.last()).drop_last(),
        ),
{
    let last = keys.len() - 1;
    let di = digest_of(keys[i]);
    let dl = digest_of(keys.last());
    let b1 = b0.insert(di, r1);
    let b2 = if i != last {
        b1.insert(dl, r2)
    } else {
        b1
    };
    let k2 = keys.update(i, keys.last()).drop_last();
    assert(bucket_holds(b0, keys, i));
    assert(bucket_holds(b0, keys, last));
    assert forall|j: int| 0 <= j < k2.len() implies #[trigger] bucket_holds(b2, k2, j) by {
        if j == i {
            assert(b1[dl]@.contains(last as usize)) by {
                if dl == di {
                    assert(r1@.contains(last as usize));
                }
            }
            assert(r2@.contains(i as usize));
        } else {
            assert(bucket_holds(b0, keys, j));
            assert(k2[j] == keys[j]);
            let d = digest_of(keys[j]);
            assert(b1[d]@.contains(j as usize)) by {
                if d == di {
                    assert(r1@.contains(j as usize));
                }
            }
            if i != last && d == dl {
                assert(r2@.contains(j as usize));
            }
        }
    }
    assert forall|d: u64, x: usize| b2.contains_key(d) && #[trigger] b2[d]@.contains(x) implies x
        < k2.len() && digest_of(k2[x as int]) == d by {
        if i != last && d == dl {
            if x == i as usize && b1[dl]@.contains(last as usize) {
                assert(k2[i] == keys[last]);
            } else {
                assert(b1[dl]@.contains(x) && x != last as usize);
                if dl == di {
                    assert(b0[di]@.contains(x));
                } else {
                    assert(b0[dl]@.contains(x));
                }
                assert(x != i as usize);
                assert(k2[x as int] == keys[x as int]);
            }
        } else if d == di {
            assert(b0[di]@.contains(x) && x != i as usize);
            assert(x != last as usize);
            assert(k2[x as int] == keys[x as int]);
        } else {
            assert(b0[d]@.contains(x));
            assert(x != i as usize);
            assert(x != last as usize);
            assert(k2[x as int] == keys[x as int]);
        }
    }
}

/// The index. Keys are unique; `keys[i]` is stored at `locs[i]`, and the
/// bucket of its digest holds `i`.
pub struct KeyDir {
    keys: Vec<String>,
    locs: Vec<CommandPos>,
    buckets: HashMap<u64, Vec<usize>>,
    map: Ghost<Map<Seq<char>, CommandPos>>,
}

impl View for KeyDir {
    type V = Map<Seq<char>, CommandPos>;

    closed spec fn view(&self) -> Map<Seq<char>, CommandPos> {
        self.map@
    }
}

impl KeyDir {
    /// The keys, in the index's internal order.
    pub closed spec fn key_seq(&self) -> Seq<Seq<char>> {
        Seq::new(self.keys@.len(), |i: int| self.keys@[i]@)
    }

    /// The locations, in the same order as the keys.
    pub closed spec fn loc_seq(&self) -> Seq<CommandPos> {
        self.locs@
    }

    /// Sum of the sizes of the records the index points to.
    pub open spec fn live_size(&self) -> nat {
        total_len(self.loc_seq())
    }

    pub open spec fn wf(&self) -> bool {
        &&& self.key_seq().len() == self.loc_seq().len()
        &&& self.key_seq().no_duplicates()
        &&& forall|i: int|
            0 <= i < self.key_seq().len() ==> self@.contains_key(#[trigger] self.key_seq()[i])
                && self@[self.key_seq()[i]] == self.loc_seq()[i]
        &&& forall|k: Seq<char>| #[trigger]
            self@.contains_key(k) ==> self.key_seq().contains(k)
        &&& self.buckets_wf()
    }

    /// The buckets locate every key.
    pub closed spec fn buckets_wf(&self) -> bool {
        buckets_ok(self.buckets@, self.key_seq())
    }

    pub fn new() -> (r: Self)
        ensures
            r.wf(),
            r@ == Map::<Seq<char>, CommandPos>::empty(),
            r.key_seq().len() == 0,
    {
        let r = KeyDir {
            keys: Vec::new(),
            locs: Vec::new(),
            buckets: HashMap::new(),
            map: Ghost(Map::empty()),
        };
        assert(r.key_seq() =~= Seq::<Seq<char>>::empty());
        r
    }

    /// Number of keys.
    pub fn len(&self) -> (r: usize)
        requires
            self.wf(),
        ensures
            r == self.key_seq().len(),
    {
        self.keys.len()
    }

    /// Position of `key` in the internal order.
    fn find(&self, key: &String) -> (r: Option<usize>)
        requires
            self.wf(),
        ensures
            match r {
                Some(i) => i < self.key_seq().len() && self.key_seq()[i as int] == key@,
                None => !self@.contains_key(key@),
            },
    {
        let n = self.keys.len();
        let d = digest(key);
        match self.buckets.get(&d) {
            None => {
                proof {
                    if self@.contains_key(key@) {
                        let i = self.key_seq().index_of(key@);
                        assert(bucket_holds(self.buckets@, self.key_seq(), i));
                    }
                }
                None
            },
            Some(bucket) => {
                let mut j: usize = 0;
                while j < bucket.len()
                    invariant
                        self.wf(),
                        self.buckets@.contains_key(d),
                        bucket == self.buckets@[d],
                        d == digest_of(key@),
                        j <= bucket@.len(),
                        n == self.keys@.len(),
                        forall|jj: int| 0 <= jj < j ==> self.key_seq()[#[trigger] bucket@[jj] as int] != key@,
                    decreases bucket@.len() - j,
                {
                    let i = bucket[j];
                    assert(bucket@.contains(i));
                    if self.keys[i] == *key {
                        return Some(i);
                    }
                    j = j + 1;
                }
                proof {
                    if self@.contains_key(key@) {
                        let i = self.key_seq().index_of(key@);
                        assert(bucket_holds(self.buckets@, self.key_seq(), i));
                        let jj = bucket@.index_of(i as usize);
                        assert(bucket@.contains(bucket@[jj]));
                        assert(self.key_seq()[bucket@[jj] as int] == key@);
                    }
                }
                None
            },
        }
    }

    /// Location of the record of `key`, if the key holds a value.
    pub fn get(&self, key: &String) -> (r: Option<CommandPos>)
        requires
            self.wf(),
        ensures
            match r {
                Some(loc) => self@.contains_key(key@) && self@[key@] == loc,
                None => !self@.contains_key(key@),
            },
    {
        match self.find(key) {
            Some(i) => Some(self.locs[i]),
            None => None,
        }
    }

    /// Points `key` at `loc`, returning its previous location.
    pub fn insert(&mut self, key: String, loc: CommandPos) -> (r: Option<CommandPos>)
        requires
            old(self).wf(),
        ensures
            final(self).wf(),
            final(self)@ == old(self)@.insert(key@, loc),
            match r {
                Some(prev) => old(self)@.contains_key(key@) && old(self)@[key@] == prev,
                None => !old(self)@.contains_key(key@),
            },
            final(self).live_size() == old(self).live_size() - (if r is Some {
                r->0.len as int
            } else {
                0
            }) + loc.len,
    {
        match self.find(&key) {
            Some(i) => {
                let prev = self.locs[i];
                proof {
                    lemma_total_len_update(self.locs@, i as int, loc);
                    self.map@ = self.map@.insert(key@, loc);
                }
                self.locs.set(i, loc);
                proof {
                    assert forall|k: Seq<char>| #[trigger] self@.contains_key(k) implies self.key_seq().contains(k) by {
                        if k != key@ {
                            assert(old(self)@.contains_key(k));
                        }
                    }
                }
                Some(prev)
            },
            None => {
                proof {
                    lemma_total_len_push(self.locs@, loc);
                    self.map@ = self.map@.insert(key@, loc);
                }
                let ghost old_keys = self.key_seq();
                let ghost old_buckets = self.buckets@;
                let d = digest(&key);
                let n = self.keys.len();
                let mut bucket = match self.buckets.remove(&d) {
                    Some(b) => b,
                    None => Vec::new(),
                };
                bucket.push(n);
                proof {
                    lemma_buckets_push(old_buckets, old_keys, key@, bucket);
                }
                self.buckets.insert(d, bucket);
                self.keys.push(key);
                self.locs.push(loc);
                proof {
                    assert(self.key_seq() =~= old_keys.push(key@));
                    assert(self.buckets@ =~= old_buckets.insert(d, bucket));
                    assert forall|k: Seq<char>| #[trigger] self@.contains_key(k) implies self.key_seq().contains(k) by {
                        if k != key@ {
                            assert(old(self)@.contains_key(k));
                            let j = old_keys.index_of(k);
                            assert(self.key_seq()[j] == k);
                        } else {
                            assert(self.key_seq()[old_keys.len() as int] == k);
                        }
                    }
                }
                None
            },
        }
    }

    /// Drops `key`, returning its location.
    pub fn remove(&mut self, key: &String) -> (r: Option<CommandPos>)
        requires
            old(self).wf(),
        ensures
            final(self).wf(),
            final(self)@ == old(self)@.remove(key@),
            match r {
                Some(prev) => old(self)@.contains_key(key@) && old(self)@[key@] == prev,
                None => !old(self)@.contains_key(key@) && *final(self) == *old(self),
            },
            final(self).live_size() == old(self).live_size() - (if r is Some {
                r->0.len as int
            } else {
                0
            }),
    {
        match self.find(key) {
            Some(i) => {
                let ghost old_keys = self.key_seq();
                let ghost old_locs = self.locs@;
                let ghost last = (self.locs@.len() - 1) as int;
                proof {
                    lemma_total_len_update(old_locs, i as int, old_locs.last());
                    assert(old_locs.update(i as int, old_locs.last()).drop_last().push(
                        old_locs.last(),
                    ) =~= old_locs.update(i as int, old_locs.last()));
                    lemma_total_len_push(
                        old_locs.update(i as int, old_locs.last()).drop_last(),
                        old_locs.last(),
                    );
                    self.map@ = self.map@.remove(key@);
                }
                let ghost b0 = self.buckets@;
                let last_pos = self.keys.len() - 1;
                let di = digest(&self.keys[i]);
                let dl = digest(&self.keys[last_pos]);
                proof {
                    assert(bucket_holds(b0, old_keys, i as int));
                }
                let b = match self.buckets.remove(&di) {
                    Some(b) => b,
                    None => Vec::new(),
                };
                let r1 = retarget(&b, i, None);
                self.buckets.insert(di, r1);
                proof {
                    assert(self.buckets@ =~= b0.insert(di, r1));
                }
                let ghost r2v: Vec<usize> = r1;
                if i != last_pos {
                    let b2 = match self.buckets.remove(&dl) {
                        Some(b) => b,
                        None => Vec::new(),
                    };
                    let r2 = retarget(&b2, last_pos, Some(i));
                    proof {
                        r2v = r2;
                        assert(bucket_holds(b0, old_keys, last as int));
                    }
                    self.buckets.insert(dl, r2);
                    proof {
                        assert(self.buckets@ =~= b0.insert(di, r1).insert(dl, r2));
                    }
                }
                proof {
                    assert(old_keys.last() == old_keys[last]);
                    assert(di == digest_of(old_keys[i as int]));
                    assert(dl == digest_of(old_keys.last()));
                    assert(self.buckets@ == (if i != last_pos {
                        b0.insert(di, r1).insert(dl, r2v)
                    } else {
                        b0.insert(di, r1)
                    }));
                    lemma_buckets_swap_remove(b0, old_keys, i as int, r1, r2v);
                }
                self.keys.swap_remove(i);
                let prev = self.locs.swap_remove(i);
                proof {
                    assert(self.key_seq() =~= old_keys.update(i as int, old_keys[last]).drop_last());
                    assert(self.buckets_wf());
                    assert forall|a: int, b: int|
                        0 <= a < b < self.key_seq().len() implies self.key_seq()[a]
                        != self.key_seq()[b] by {
                        let oa = if a == i { last } else { a };
                        let ob = if b == i { last } else { b };
                        assert(old_keys[oa] != old_keys[ob]);
                    }
                    assert forall|j: int| 0 <= j < self.key_seq().len() implies self@.contains_key(
                        #[trigger] self.key_seq()[j],
                    ) && self@[self.key_seq()[j]] == self.loc_seq()[j] by {
                        let oj = if j == i { last } else { j };
                        assert(old_keys[oj] != key@);
                        assert(old(self)@.contains_key(old_keys[oj]));
                    }
                    assert forall|k: Seq<char>| #[trigger] self@.contains_key(k) implies self.key_seq().contains(k) by {
                        assert(old(self)@.contains_key(k));
                        let j = old_keys.index_of(k);
                        if j == last {
                            assert(self.key_seq()[i as int] == k);
                        } else {
                            assert(j != i);
                            assert(self.key_seq()[j] == k);
                        }
                    }
                }
                Some(prev)
            },
            None => {
                proof {
                    assert(self.map@.remove(key@) =~= self.map@);
                }
                None
            },
        }
    }

    /// Location at position `i` of the internal order.
    pub fn loc_at(&self, i: usize) -> (r: CommandPos)
        requires
            self.wf(),
            i < self.key_seq().len(),
        ensures
            r == self.loc_seq()[i as int],
    {
        self.locs[i]
    }

    /// Moves the record at position `i` of the internal order to offset `pos`.
    pub fn set_pos(&mut self, i: usize, pos: u64)
        requires
            old(self).wf(),
            i < old(self).key_seq().len(),
        ensures
            final(self).wf(),
            final(self).key_seq() == old(self).key_seq(),
            final(self).loc_seq() == old(self).loc_seq().update(
                i as int,
                CommandPos { pos, len: old(self).loc_seq()[i as int].len },
            ),
            final(self)@ == old(self)@.insert(
                old(self).key_seq()[i as int],
                CommandPos { pos, len: old(self).loc_seq()[i as int].len },
            ),
    {
        let loc = CommandPos { pos, len: self.locs[i].len };
        proof {
            self.map@ = self.map@.insert(self.key_seq()[i as int], loc);
        }
        self.locs.set(i, loc);
        proof {
            assert forall|j: int| 0 <= j < self.key_seq().len() implies self@.contains_key(
                #[trigger] self.key_seq()[j],
            ) && self@[self.key_seq()[j]] == self.loc_seq()[j] by {
                if j != i {
                    assert(self.key_seq()[j] != self.key_seq()[i as int]);
                }
            }
            assert forall|k: Seq<char>| #[trigger] self@.contains_key(k) implies self.key_seq().contains(k) by {
                if k != self.key_seq()[i as int] {
                    assert(old(self)@.contains_key(k));
                }
            }
        }
    }
}

} // verus!
