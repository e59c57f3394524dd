use vstd::prelude::*;

use crate::domain::world::BlockChunk;

verus! {

/// A set of chunk coordinates, kept sorted.
#[derive(Debug)]
pub struct ChunkSet {
    keys: Vec<i64>,
}

impl ChunkSet {
    /// The coordinates, in increasing order.
    pub closed spec fn spec_keys(&self) -> Seq<i64> {
        self.keys@
    }

    /// The coordinates as a set.
    pub open spec fn view_set(&self) -> Set<i64> {
        self.spec_keys().to_set()
    }

    /// The coordinates are strictly increasing.
    pub closed spec fn wf(&self) -> bool {
        forall|i: int, j: int| 0 <= i < j < self.keys@.len() ==> #[trigger] self.keys@[i] < #[trigger] self.keys@[j]
    }

    pub proof fn lemma_sorted(&self)
        requires
            self.wf(),
        ensures
            forall|i: int, j: int| 0 <= i < j < self.spec_keys().len() ==> #[trigger] self.spec_keys()[i] < #[trigger] self.spec_keys()[j],
    {
    }

    pub fn new() -> (result: ChunkSet)
        ensures
            result.wf(),
            result.spec_keys() == Seq::<i64>::empty(),
    {
        ChunkSet { keys: Vec::new() }
    }

    /// Where `x` stands, or where it would be inserted.
    fn locate(&self, x: i64) -> (result: (usize, bool))
        requires
            self.wf(),
        ensures
            result.0 <= self.keys@.len(),
            result.1 <==> result.0 < self.keys@.len() && self.keys@[result.0 as int] == x,
            forall|i: int| 0 <= i < result.0 ==> #[trigger] self.keys@[i] < x,
            forall|i: int| result.0 <= i < self.keys@.len() ==> #[trigger] self.keys@[i] >= x,
    {
        let mut i: usize = 0;
        while i < self.keys.len() && self.keys[i] < x
            invariant
                self.wf(),
                i <= self.keys@.len(),
                forall|j: int| 0 <= j < i ==> #[trigger] self.keys@[j] < x,
            decreases self.keys@.len() - i,
        {
            i += 1;
        }
        proof {
            assert forall|j: int| i <= j < self.keys@.len() implies #[trigger] self.keys@[j] >= x by {
                if j > i {
                    assert(self.keys@[i as int] < self.keys@[j]);
                }
            }
        }
        (i, i < self.keys.len() && self.keys[i] == x)
    }

    pub fn contains(&self, x: i64) -> (result: bool)
        requires
            self.wf(),
        ensures
            result == self.view_set().contains(x),
    {
        let (i, found) = self.locate(x);
        proof {
            if self.view_set().contains(x) {
                let k = choose|k: int| 0 <= k < self.keys@.len() && self.keys@[k] == x;
                assert(k >= i);
                if k > i {
                    assert(self.keys@[i as int] < self.keys@[k]);
                }
            }
            if found {
                assert(self.keys@.to_set().contains(self.keys@[i as int]));
            }
        }
        found
    }

    pub fn insert(&mut self, x: i64)
        requires
            old(self).wf(),
        ensures
            final(self).wf(),
            final(self).view_set() == old(self).view_set().insert(x),
    {
        let (i, found) = self.locate(x);
        let ghost before = self.keys@;
        if !found {
            self.keys.insert(i, x);
            proof {
                let s = self.keys@;
                assert forall|a: int, b: int| 0 <= a < b < s.len() implies #[trigger] s[a] < #[trigger] s[b] by {
                    if b < i {
                    } else if b == i {
                    } else if a < i {
                        assert(s[b] == before[b - 1]);
                        assert(before[b - 1] >= x);
                        assert(before[b - 1] != x) by {
                            if b - 1 == i {
                            } else {
                                assert(before[i as int] < before[b - 1]);
                                assert(before[i as int] >= x);
                            }
                        }
                    } else if a == i {
                        assert(s[b] == before[b - 1]);
                        if b - 1 > i {
                            assert(before[i as int] < before[b - 1]);
                        }
                        assert(before[i as int] != x);
                    } else {
                        assert(s[a] == before[a - 1] && s[b] == before[b - 1]);
                    }
                }
                assert(s.to_set() =~= before.to_set().insert(x)) by {
                    assert forall|y: i64| s.to_set().contains(y) implies before.to_set().insert(x).contains(y) by {
                        let k = choose|k: int| 0 <= k < s.len() && s[k] == y;
                        if k < i {
                            assert(before[k] == y);
                        } else if k > i {
                            assert(before[k - 1] == y);
                        }
                    }
                    assert forall|y: i64| before.to_set().insert(x).contains(y) implies s.to_set().contains(y) by {
                        if y == x {
                            assert(s[i as int] == x);
                        } else {
                            let k = choose|k: int| 0 <= k < before.len() && before[k] == y;
                            if k < i {
                                assert(s[k] == y);
                            } else {
                                assert(s[k + 1] == y);
                            }
                        }
                    }
                }
            }
        } else {
            proof {
                assert(before.to_set().contains(x));
                assert(before.to_set().insert(x) =~= before.to_set());
            }
        }
    }

    /// Removes `x`; says whether it was there.
    pub fn remove(&mut self, x: i64) -> (was_present: bool)
        requires
            old(self).wf(),
        ensures
            final(self).wf(),
            final(self).view_set() == old(self).view_set().remove(x),
            was_present == old(self).view_set().contains(x),
    {
        let ghost before = self.keys@;
        let (i, found) = self.locate(x);
        if found {
            self.keys.remove(i);
            proof {
                let s = self.keys@;
                assert forall|a: int, b: int| 0 <= a < b < s.len() implies #[trigger] s[a] < #[trigger] s[b] by {
                    if a < i && b >= i {
                        assert(s[b] == before[b + 1]);
                        assert(before[a] < before[b + 1]);
                    } else if a >= i {
                        assert(s[a] == before[a + 1] && s[b] == before[b + 1]);
                    } else {
                        assert(s[a] == before[a] && s[b] == before[b]);
                    }
                }
                assert(s.to_set() =~= before.to_set().remove(x)) by {
                    assert forall|y: i64| s.to_set().contains(y) implies before.to_set().remove(x).contains(y) by {
                        let k = choose|k: int| 0 <= k < s.len() && s[k] == y;
                        if k < i {
                            assert(before[k] == y);
                            assert(before[k] < before[i as int]);
                        } else {
                            assert(before[k + 1] == y);
                            assert(before[i as int] < before[k + 1]);
                        }
                    }
                    assert forall|y: i64| before.to_set().remove(x).contains(y) implies s.to_set().contains(y) by {
                        let k = choose|k: int| 0 <= k < before.len() && before[k] == y;
                        if k < i {
                            assert(s[k] == y);
                        } else {
                            assert(k != i);
                            assert(s[k - 1] == y);
                        }
                    }
                }
                assert(before.to_set().contains(x)) by {
                    assert(before[i as int] == x);
                }
            }
            true
        } else {
            proof {
                assert(!before.to_set().contains(x)) by {
                    if before.to_set().contains(x) {
                        let k = choose|k: int| 0 <= k < before.len() && before[k] == x;
                        if k < i {
                        } else if k > i {
                            assert(before[i as int] < before[k]);
                        }
                    }
                }
                assert(before.to_set().remove(x) =~= before.to_set());
            }
            false
        }
    }

    /// The coordinates, in increasing order.
    pub fn keys(&self) -> (result: &Vec<i64>)
        ensures
            result@ == self.spec_keys(),
    {
        &self.keys
    }
}

/// Chunks filed by coordinate, kept sorted.
#[derive(Debug)]
pub struct ChunkStore {
    chunks: Vec<BlockChunk>,
}

impl ChunkStore {
    /// The stored chunks, by increasing coordinate.
    pub closed spec fn spec_chunks(&self) -> Seq<BlockChunk> {
        self.chunks@
    }

    /// Coordinates strictly increase and every chunk is well formed.
    pub closed spec fn wf(&self) -> bool {
        &&& forall|i: int, j: int| 0 <= i < j < self.chunks@.len() ==> #[trigger] self.chunks@[i].spec_x() < #[trigger] self.chunks@[j].spec_x()
        &&& forall|i: int| 0 <= i < self.chunks@.len() ==> (#[trigger] self.chunks@[i]).wf()
    }

    pub proof fn lemma_sorted(&self)
        requires
            self.wf(),
        ensures
            forall|i: int, j: int| 0 <= i < j < self.spec_chunks().len() ==> #[trigger] self.spec_chunks()[i].spec_x() < #[trigger] self.spec_chunks()[j].spec_x(),
            forall|i: int| 0 <= i < self.spec_chunks().len() ==> (#[trigger] self.spec_chunks()[i]).wf(),
    {
    }

    /// Whether a chunk is filed under `x`.
    pub open spec fn has(&self, x: i64) -> bool {
        exists|i: int| 0 <= i < self.spec_chunks().len() && #[trigger] self.spec_chunks()[i].spec_x() == x
    }

    /// The chunk filed under `x`.
    pub open spec fn at(&self, x: i64) -> BlockChunk {
        self.spec_chunks()[choose|i: int| 0 <= i < self.spec_chunks().len() && #[trigger] self.spec_chunks()[i].spec_x() == x]
    }

    pub fn new() -> (result: ChunkStore)
        ensures
            result.wf(),
            result.spec_chunks() == Seq::<BlockChunk>::empty(),
    {
        ChunkStore { chunks: Vec::new() }
    }

    pub proof fn lemma_at(&self, i: int)
        requires
            self.wf(),
            0 <= i < self.spec_chunks().len(),
        ensures
            self.has(self.spec_chunks()[i].spec_x()),
            self.at(self.spec_chunks()[i].spec_x()) == self.spec_chunks()[i],
    {
        let x = self.spec_chunks()[i].spec_x();
        let j = choose|j: int| 0 <= j < self.spec_chunks().len() && #[trigger] self.spec_chunks()[j].spec_x() == x;
        if j < i {
            assert(self.spec_chunks()[j].spec_x() < self.spec_chunks()[i].spec_x());
        } else if j > i {
            assert(self.spec_chunks()[i].spec_x() < self.spec_chunks()[j].spec_x());
        }
    }

    fn locate(&self, x: i64) -> (result: (usize, bool))
        requires
            self.wf(),
        ensures
            result.0 <= self.chunks@.len(),
            result.1 <==> result.0 < self.chunks@.len() && self.chunks@[result.0 as int].spec_x() == x,
            forall|i: int| 0 <= i < result.0 ==> #[trigger] self.chunks@[i].spec_x() < x,
            forall|i: int| result.0 <= i < self.chunks@.len() ==> #[trigger] self.chunks@[i].spec_x() >= x,
            result.1 <==> self.has(x),
    {
        let mut i: usize = 0;
        while i < self.chunks.len() && self.chunks[i].x() < x
            invariant
                self.wf(),
                i <= self.chunks@.len(),
                forall|j: int| 0 <= j < i ==> #[trigger] self.chunks@[j].spec_x() < x,
            decreases self.chunks@.len() - i,
        {
            i += 1;
        }
        proof {
            assert forall|j: int| i <= j < self.chunks@.len() implies #[trigger] self.chunks@[j].spec_x() >= x by {
                if j > i {
                    assert(self.chunks@[i as int].spec_x() < self.chunks@[j].spec_x());
                }
            }
        }
        let found = i < self.chunks.len() && self.chunks[i].x() == x;
        proof {
            if found {
                assert(self.spec_chunks()[i as int].spec_x() == x);
            }
            if self.has(x) {
                let k = choose|k: int| 0 <= k < self.spec_chunks().len() && #[trigger] self.spec_chunks()[k].spec_x() == x;
                if k > i {
                    assert(self.chunks@[i as int].spec_x() < self.chunks@[k].spec_x());
                }
            }
        }
        (i, found)
    }

    /// The chunk filed under `x`, if any.
    pub fn get(&self, x: i64) -> (result: Option<&BlockChunk>)
        requires
            self.wf(),
        ensures
            result is Some <==> self.has(x),
            result matches Some(chunk) ==> *chunk == self.at(x),
    {
        let (i, found) = self.locate(x);
        if found {
            proof {
                self.lemma_at(i as int);
            }
            Some(&self.chunks[i])
        } else {
            None
        }
    }

    /// Files a chunk under its coordinate, replacing any chunk there.
    pub fn insert(&mut self, chunk: BlockChunk)
        requires
            old(self).wf(),
            chunk.wf(),
        ensures
            final(self).wf(),
            final(self).has(chunk.spec_x()),
            final(self).at(chunk.spec_x()) == chunk,
            forall|x: i64| x != chunk.spec_x() ==> (#[trigger] final(self).has(x) <==> old(self).has(x)),
            forall|x: i64| x != chunk.spec_x() && old(self).has(x) ==> #[trigger] final(self).at(x) == old(self).at(x),
    {
        let ghost before = *self;
        let x = chunk.x();
        let (i, found) = self.locate(x);
        let ghost b = before.chunks@;
        if found {
            self.chunks.set(i, chunk);
            proof {
                let s = self.chunks@;
                assert(s =~= b.update(i as int, chunk));
                assert forall|a: int, c: int| 0 <= a < c < s.len() implies #[trigger] s[a].spec_x() < #[trigger] s[c].spec_x() by {
                    assert(b[a].spec_x() < b[c].spec_x());
                }
                self.lemma_at(i as int);
                assert forall|y: i64| y != x implies (#[trigger] self.has(y) <==> before.has(y)) by {
                    if self.has(y) {
                        let k = choose|k: int| 0 <= k < self.spec_chunks().len() && #[trigger] self.spec_chunks()[k].spec_x() == y;
                        assert(before.spec_chunks()[k].spec_x() == y);
                    }
                    if before.has(y) {
                        let k = choose|k: int| 0 <= k < before.spec_chunks().len() && #[trigger] before.spec_chunks()[k].spec_x() == y;
                        assert(self.spec_chunks()[k].spec_x() == y);
                    }
                }
                assert forall|y: i64| y != x && before.has(y) implies #[trigger] self.at(y) == before.at(y) by {
                    let k = choose|k: int| 0 <= k < before.spec_chunks().len() && #[trigger] before.spec_chunks()[k].spec_x() == y;
                    before.lemma_at(k);
                    assert(s[k] == b[k]);
                    self.lemma_at(k);
                }
            }
        } else {
            self.chunks.insert(i, chunk);
            proof {
                let s = self.chunks@;
                assert(s =~= b.insert(i as int, chunk));
                assert forall|a: int, c: int| 0 <= a < c < s.len() implies #[trigger] s[a].spec_x() < #[trigger] s[c].spec_x() by {
                    if c < i {
                    } else if c == i {
                    } else if a < i {
                        assert(s[c] == b[c - 1]);
                        assert(b[c - 1].spec_x() >= x);
                        if c - 1 == i {
                            assert(b[c - 1].spec_x() != x);
                        } else {
                            assert(b[i as int].spec_x() < b[c - 1].spec_x());
                        }
                    } else if a == i {
                        assert(s[c] == b[c - 1]);
                        if c - 1 > i {
                            assert(b[i as int].spec_x() < b[c - 1].spec_x());
                        }
                        assert(b[i as int].spec_x() != x);
                    } else {
                        assert(s[a] == b[a - 1] && s[c] == b[c - 1]);
                    }
                }
                assert forall|k: int| 0 <= k < s.len() implies (#[trigger] s[k]).wf() by {
                    if k < i {
                        assert(s[k] == b[k]);
                    } else if k > i {
                        assert(s[k] == b[k - 1]);
                    }
                }
                self.lemma_at(i as int);
                assert forall|y: i64| y != x implies (#[trigger] self.has(y) <==> before.has(y)) by {
                    if self.has(y) {
                        let k = choose|k: int| 0 <= k < self.spec_chunks().len() && #[trigger] self.spec_chunks()[k].spec_x() == y;
                        if k < i {
                            assert(before.spec_chunks()[k].spec_x() == y);
                        } else {
                            assert(before.spec_chunks()[k - 1].spec_x() == y);
                        }
                    }
                    if before.has(y) {
                        let k = choose|k: int| 0 <= k < before.spec_chunks().len() && #[trigger] before.spec_chunks()[k].spec_x() == y;
                        if k < i {
                            assert(self.spec_chunks()[k].spec_x() == y);
                        } else {
                            assert(self.spec_chunks()[k + 1].spec_x() == y);
                        }
                    }
                }
                assert forall|y: i64| y != x && before.has(y) implies #[trigger] self.at(y) == before.at(y) by {
                    let k = choose|k: int| 0 <= k < before.spec_chunks().len() && #[trigger] before.spec_chunks()[k].spec_x() == y;
                    before.lemma_at(k);
                    if k < i {
                        assert(s[k] == b[k]);
                        self.lemma_at(k);
                    } else {
                        assert(s[k + 1] == b[k]);
                        self.lemma_at(k + 1);
                    }
                }
            }
        }
    }

    /// The stored chunks, by increasing coordinate.
    pub fn chunks(&self) -> (result: &Vec<BlockChunk>)
        ensures
            result@ == self.spec_chunks(),
    {
        &self.chunks
    }
}

} // verus!
