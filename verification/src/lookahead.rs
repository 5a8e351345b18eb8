//! The lookahead index: for every tag, the queue of the positions at which
//! it stands among the tokens that are still to be processed.

use std::collections::{HashMap, VecDeque};
use vstd::prelude::*;

verus! {

broadcast use vstd::std_specs::hash::group_hash_axioms;

/// The least position from `from` on at which `tag` stands in `tags`; the
/// length of `tags` where it stands at none.
pub open spec fn next_pos(tags: Seq<i32>, from: int, tag: i32) -> int
    decreases tags.len() - from,
{
    if from < 0 || from >= tags.len() {
        tags.len() as int
    } else if tags[from] == tag {
        from
    } else {
        next_pos(tags, from + 1, tag)
    }
}

/// The positions from `lo` up to `hi` at which `tag` stands in `tags`, in
/// rising order.
pub open spec fn positions(tags: Seq<i32>, lo: int, hi: int, tag: i32) -> Seq<usize>
    decreases hi - lo,
{
    if lo < 0 || hi <= lo || hi > tags.len() {
        Seq::empty()
    } else if tags[hi - 1] == tag {
        positions(tags, lo, hi - 1, tag).push((hi - 1) as usize)
    } else {
        positions(tags, lo, hi - 1, tag)
    }
}

/// `next_pos` gives a position that holds the tag, not before `from`, and the
/// tag stands at no position between.
pub proof fn lemma_next_pos(tags: Seq<i32>, from: int, tag: i32)
    requires
        0 <= from,
    ensures
        from <= next_pos(tags, from, tag) || from > tags.len(),
        next_pos(tags, from, tag) <= tags.len(),
        next_pos(tags, from, tag) < tags.len() ==> tags[next_pos(tags, from, tag)] == tag,
        forall|j: int| from <= j < next_pos(tags, from, tag) ==> #[trigger] tags[j] != tag,
    decreases tags.len() - from,
{
    if from < tags.len() && tags[from] != tag {
        lemma_next_pos(tags, from + 1, tag);
    }
}

/// The positions of a tag from `lo` on begin with `lo` where the tag stands
/// there, and go on with the positions from `lo + 1` on.
proof fn lemma_positions_front(tags: Seq<i32>, lo: int, hi: int, tag: i32)
    requires
        0 <= lo < hi <= tags.len(),
    ensures
        positions(tags, lo, hi, tag) == if tags[lo] == tag {
            seq![lo as usize] + positions(tags, lo + 1, hi, tag)
        } else {
            positions(tags, lo + 1, hi, tag)
        },
    decreases hi - lo,
{
    if hi - 1 > lo {
        lemma_positions_front(tags, lo, hi - 1, tag);
        if tags[hi - 1] == tag {
            let rest = positions(tags, lo + 1, hi - 1, tag);
            assert((seq![lo as usize] + rest).push((hi - 1) as usize) =~= seq![lo as usize]
                + rest.push((hi - 1) as usize));
        }
    } else {
        assert(positions(tags, lo, lo, tag) =~= Seq::<usize>::empty());
    }
}

/// The queue of a tag begins with the position at which the tag comes next,
/// and is empty where it comes no more.
proof fn lemma_positions_first(tags: Seq<i32>, from: int, tag: i32)
    requires
        0 <= from <= tags.len() <= usize::MAX,
    ensures
        positions(tags, from, tags.len() as int, tag).len() > 0 <==> next_pos(tags, from, tag)
            < tags.len(),
        positions(tags, from, tags.len() as int, tag).len() > 0 ==> positions(
            tags,
            from,
            tags.len() as int,
            tag,
        )[0] == next_pos(tags, from, tag),
    decreases tags.len() - from,
{
    if from < tags.len() {
        lemma_positions_front(tags, from, tags.len() as int, tag);
        if tags[from] != tag {
            lemma_positions_first(tags, from + 1, tag);
        } else {
            let rest = positions(tags, from + 1, tags.len() as int, tag);
            assert((seq![from as usize] + rest)[0] == from as usize);
        }
    }
}

/// For every tag of a token sequence, the queue of the positions at which it
/// stands behind the tokens that were consumed.
pub struct LookaheadIndex {
    queues: HashMap<i32, VecDeque<usize>>,
    consumed: usize,
    tags: Ghost<Seq<i32>>,
}

impl LookaheadIndex {
    /// The tags of all tokens, in order.
    pub closed spec fn tags(&self) -> Seq<i32> {
        self.tags@
    }

    /// The number of tokens that were consumed.
    pub closed spec fn position(&self) -> int {
        self.consumed as int
    }

    /// The queue of `tag`; empty where the index holds none for it.
    pub closed spec fn queue(&self, tag: i32) -> Seq<usize> {
        if self.queues@.contains_key(tag) {
            self.queues@[tag]@
        } else {
            Seq::empty()
        }
    }

    /// Every queue holds the positions of its tag that are not consumed, in
    /// rising order.
    pub closed spec fn wf(&self) -> bool {
        &&& self.consumed <= self.tags@.len() <= usize::MAX
        &&& forall|tag: i32| #[trigger]
            self.queue(tag) == positions(
                self.tags@,
                self.consumed as int,
                self.tags@.len() as int,
                tag,
            )
    }

    /// The tokens consumed are among the tokens.
    pub proof fn lemma_position(&self)
        requires
            self.wf(),
        ensures
            0 <= self.position() <= self.tags().len(),
    {
    }

    /// Builds the index of `tags`: each position goes to the back of the
    /// queue of its tag.
    pub fn new(tags: &Vec<i32>) -> (r: Self)
        ensures
            r.wf(),
            r.tags() == tags@,
            r.position() == 0,
    {
        let n = tags.len();
        let mut queues: HashMap<i32, VecDeque<usize>> = HashMap::new();
        let mut index: usize = 0;
        while index < n
            invariant
                n == tags.len(),
                index <= n,
                forall|tag: i32|
                    (if queues@.contains_key(tag) {
                        queues@[tag]@
                    } else {
                        Seq::empty()
                    }) == #[trigger] positions(tags@, 0, index as int, tag),
            decreases n - index,
        {
            let tag = tags[index];
            let ghost before = queues@;
            let queue = queues.entry(tag).or_insert(VecDeque::new());
            queue.push_back(index);
            proof {
                assert forall|t: i32|
                    (if queues@.contains_key(t) {
                        queues@[t]@
                    } else {
                        Seq::empty()
                    }) == #[trigger] positions(tags@, 0, index + 1, t) by {
                    assert((if before.contains_key(t) {
                        before[t]@
                    } else {
                        Seq::empty()
                    }) == positions(tags@, 0, index as int, t));
                }
            }
            index += 1;
        }
        LookaheadIndex { queues, consumed: 0, tags: Ghost(tags@) }
    }

    /// The next position at which `tag` comes among the tokens that are not
    /// consumed yet: the front of its queue, which stays as it is.
    pub fn peek(&self, tag: i32) -> (r: Option<usize>)
        requires
            self.wf(),
        ensures
            match r {
                Some(p) => p == next_pos(self.tags(), self.position(), tag) && p < self.tags().len(),
                None => next_pos(self.tags(), self.position(), tag) == self.tags().len(),
            },
    {
        proof {
            lemma_positions_first(self.tags@, self.consumed as int, tag);
            lemma_next_pos(self.tags@, self.consumed as int, tag);
            assert(self.queue(tag) == positions(
                self.tags@,
                self.consumed as int,
                self.tags@.len() as int,
                tag,
            ));
        }
        match self.queues.get(&tag) {
            Some(queue) => {
                if queue.len() > 0 {
                    Some(queue[0])
                } else {
                    None
                }
            },
            None => None,
        }
    }

    /// Consumes the next token, whose tag is `tag`: its position leaves the
    /// front of the queue of the tag.
    pub fn consume(&mut self, tag: i32)
        requires
            old(self).wf(),
            old(self).position() < old(self).tags().len(),
            old(self).tags()[old(self).position()] == tag,
        ensures
            final(self).wf(),
            final(self).tags() == old(self).tags(),
            final(self).position() == old(self).position() + 1,
            old(self).queue(tag).len() > 0,
            final(self).queue(tag) == old(self).queue(tag).drop_first(),
            forall|other: i32| other != tag ==> final(self).queue(other) == old(self).queue(other),
    {
        let ghost tags = self.tags@;
        let ghost here = self.consumed as int;
        proof {
            lemma_positions_front(tags, here, tags.len() as int, tag);
        }
        let queue = self.queues.entry(tag).or_insert(VecDeque::new());
        queue.pop_front();
        self.consumed = self.consumed + 1;
        proof {
            assert forall|t: i32| #[trigger]
                self.queue(t) == positions(tags, here + 1, tags.len() as int, t) by {
                assert(old(self).queue(t) == positions(tags, here, tags.len() as int, t));
                lemma_positions_front(tags, here, tags.len() as int, t);
            }
        }
    }
}

} // verus!
