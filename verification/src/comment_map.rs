//! The comments of a source text, by the position of the token behind them.
use vstd::prelude::*;
use crate::comment::{self, Comment, CommentView};
use crate::location::{self, HashLineColumn};

verus! {

/// A map from positions to comments, kept in the order of the positions.
#[derive(PartialEq, Eq, Debug)]
pub struct CommentMap {
    pub entries: Vec<(HashLineColumn, Vec<Comment>)>,
}

impl View for CommentMap {
    type V = Map<HashLineColumn, Seq<CommentView>>;

    open spec fn view(&self) -> Map<HashLineColumn, Seq<CommentView>> {
        Map::new(
            |key: HashLineColumn| self.holds(key),
            |key: HashLineColumn| comment::views(self.entries@[self.index(key)].1@),
        )
    }
}

impl CommentMap {
    /// No position occurs twice, and they are in order.
    pub open spec fn wf(self) -> bool {
        forall|i: int, j: int|
            0 <= i < j < self.entries@.len() ==> location::precedes(
                (#[trigger] self.entries@[i]).0.0,
                (#[trigger] self.entries@[j]).0.0,
            )
    }

    /// There is an entry at `key`.
    pub open spec fn holds(self, key: HashLineColumn) -> bool {
        exists|i: int| 0 <= i < self.entries@.len() && (#[trigger] self.entries@[i]).0 == key
    }

    /// Where the entry at `key` stands.
    pub open spec fn index(self, key: HashLineColumn) -> int {
        choose|i: int| 0 <= i < self.entries@.len() && (#[trigger] self.entries@[i]).0 == key
    }

    /// What stands at `i` is what the map holds for its position.
    pub proof fn lemma_entry(self, i: int)
        requires
            self.wf(),
            0 <= i < self.entries@.len(),
        ensures
            self@.contains_key(self.entries@[i].0),
            self@[self.entries@[i].0] == comment::views(self.entries@[i].1@),
    {
        let key = self.entries@[i].0;
        assert(self.holds(key));
        let k = self.index(key);
        if k < i {
            assert(location::precedes(self.entries@[k].0.0, self.entries@[i].0.0));
        } else if i < k {
            assert(location::precedes(self.entries@[i].0.0, self.entries@[k].0.0));
        }
    }

    /// An empty map.
    pub fn new() -> (r: CommentMap)
        ensures
            r.wf(),
            r@ == Map::<HashLineColumn, Seq<CommentView>>::empty(),
    {
        let r = CommentMap { entries: Vec::new() };
        assert(r@ =~= Map::<HashLineColumn, Seq<CommentView>>::empty());
        r
    }

    /// The number of entries that come before `key` or stand at it.
    fn rank(&self, key: HashLineColumn) -> (r: usize)
        requires
            self.wf(),
        ensures
            r <= self.entries@.len(),
            forall|i: int|
                0 <= i < r ==> !location::precedes(key.0, (#[trigger] self.entries@[i]).0.0),
            forall|i: int|
                r <= i < self.entries@.len() ==> location::precedes(
                    key.0,
                    (#[trigger] self.entries@[i]).0.0,
                ),
    {
        let mut lo: usize = 0;
        let mut hi: usize = self.entries.len();
        while lo < hi
            invariant
                self.wf(),
                lo <= hi <= self.entries@.len(),
                forall|i: int|
                    0 <= i < lo ==> !location::precedes(key.0, (#[trigger] self.entries@[i]).0.0),
                forall|i: int|
                    hi <= i < self.entries@.len() ==> location::precedes(
                        key.0,
                        (#[trigger] self.entries@[i]).0.0,
                    ),
            decreases hi - lo,
        {
            let mid: usize = lo + (hi - lo) / 2;
            if key.0.before(&self.entries[mid].0.0) {
                hi = mid;
            } else {
                lo = mid + 1;
            }
        }
        lo
    }

    /// Puts `comments` at `key`, in place of what was there.
    pub fn insert(&mut self, key: HashLineColumn, comments: Vec<Comment>)
        requires
            old(self).wf(),
        ensures
            final(self).wf(),
            final(self)@ == old(self)@.insert(key, comment::views(comments@)),
    {
        let at: usize = self.rank(key);
        let ghost before = *self;
        if at > 0 && self.entries[at - 1].0 == key {
            self.entries.set(at - 1, (key, comments));
        } else {
            self.entries.insert(at, (key, comments));
        }
        proof {
            let added = before@.insert(key, comment::views(comments@));
            let replaced = at > 0 && before.entries@[at - 1].0 == key;
            let from = |i: int| if replaced || i < at { i } else { i + 1 };
            let spot = if replaced { at - 1 } else { at as int };
            assert forall|i: int| 0 <= i < before.entries@.len() && !(replaced && i == spot) implies
                #[trigger] before.entries@[i] == self.entries@[from(i)] by {}
            assert forall|i: int, j: int| 0 <= i < j < self.entries@.len() implies location::precedes(
                (#[trigger] self.entries@[i]).0.0,
                (#[trigger] self.entries@[j]).0.0,
            ) by {
                if !replaced {
                    if i < at && j == at {
                        assert(before.entries@[i] == self.entries@[i]);
                        assert(before.entries@[at - 1].0 != key);
                        if i < at - 1 {
                            assert(location::precedes(before.entries@[i].0.0, before.entries@[at - 1].0.0));
                        }
                    } else if i == at {
                        assert(before.entries@[j - 1] == self.entries@[j]);
                    } else {
                        let a = if i < at { i } else { i - 1 };
                        let b = if j < at { j } else { j - 1 };
                        assert(before.entries@[a] == self.entries@[i]);
                        assert(before.entries@[b] == self.entries@[j]);
                    }
                } else {
                    assert(self.entries@[i].0 == before.entries@[i].0);
                    assert(self.entries@[j].0 == before.entries@[j].0);
                }
            }
            assert forall|k: HashLineColumn| self.holds(k) == added.contains_key(k) by {
                if before.holds(k) && k != key {
                    let i = before.index(k);
                    assert(self.entries@[from(i)].0 == k);
                }
                if self.holds(k) && k != key {
                    let i = self.index(k);
                    let a = if replaced || i < at { i } else { i - 1 };
                    assert(before.entries@[a].0 == k);
                }
                if k == key {
                    assert(self.entries@[spot].0 == k);
                }
            }
            assert forall|k: HashLineColumn| #[trigger] added.contains_key(k) implies self@[k]
                == added[k] by {
                if k == key {
                    self.lemma_entry(spot);
                } else {
                    let i = before.index(k);
                    assert(before.holds(k));
                    before.lemma_entry(i);
                    self.lemma_entry(from(i));
                }
            }
            assert(self@ =~= added);
        }
    }

    /// The comments at `key`.
    pub fn get(&self, key: HashLineColumn) -> (r: Option<&Vec<Comment>>)
        requires
            self.wf(),
        ensures
            match r {
                Some(comments) => self@.contains_key(key) && self@[key] == comment::views(comments@),
                None => !self@.contains_key(key),
            },
    {
        let at: usize = self.rank(key);
        if at > 0 && self.entries[at - 1].0 == key {
            proof {
                self.lemma_entry(at - 1);
            }
            Some(&self.entries[at - 1].1)
        } else {
            proof {
                if self.holds(key) {
                    let i = self.index(key);
                    if i < at - 1 {
                        assert(location::precedes(self.entries@[i].0.0, self.entries@[at - 1].0.0));
                    }
                }
            }
            None
        }
    }
}

} // verus!
