//! The rules by which groups are inferred, as a state machine over
//! mathematical values.
//!
//! The machine reads the tokens of a message one by one. Its state is the
//! root of the tree built so far, the stack of the groups that are open, and
//! for each level the candidates: for a tag, the index at which it was last
//! placed in the component that is being filled at that level. A tag that
//! comes a second time at its level opens a group; the field before its first
//! occurrence declared how often the group repeats.

use crate::lookahead::next_pos;
use crate::tokenizer::{tokenize, DecodeError, END_TAG};
use crate::tree::{declared_count, entity_tag, new_group, Entity, Group};
use vstd::prelude::*;

verus! {

/// The state of the machine.
pub struct Engine {
    /// The component of the whole message.
    pub root: Seq<Entity>,
    /// The groups that are open, the outermost first.
    pub groups: Seq<Group>,
    /// The candidates of each level: first those of the root, then those of
    /// each open group.
    pub trackers: Seq<Map<i32, usize>>,
}

/// The tags of a token sequence.
pub open spec fn tags_of(tokens: Seq<(i32, Seq<char>)>) -> Seq<i32> {
    tokens.map_values(|t: (i32, Seq<char>)| t.0)
}

/// Whether a tag that the group does not know is taken in all the same: the
/// tag itself, or a tag that the group knows, is still to come at a position
/// from `after` on, and comes before the delimiter does, or the delimiter
/// does not come again.
pub open spec fn rescued(group: Group, tag: i32, tags: Seq<i32>, after: int) -> bool {
    exists|k: i32|
        group.known.insert(tag).contains(k) && #[trigger] next_pos(tags, after, k) < next_pos(
            tags,
            after,
            group.delimiter,
        )
}

/// Whether `tag` belongs to the group while the tokens from `after` on are
/// still to come. Any tag belongs to a group that has not reached the
/// repetition that it declared as its last; in the last one, a tag belongs
/// that the group knows, or that the tokens ahead rescue.
pub open spec fn belongs(group: Group, tag: i32, tags: Seq<i32>, after: int) -> bool {
    group.instances.len() < group.repetitions || group.known.contains(tag) || rescued(
        group,
        tag,
        tags,
        after,
    )
}

impl Engine {
    /// Every level has its candidates, and every open group an instance.
    pub open spec fn wf(self) -> bool {
        &&& self.trackers.len() == self.groups.len() + 1
        &&& forall|i: int| 0 <= i < self.groups.len() ==> (#[trigger] self.groups[i]).instances.len() >= 1
    }

    /// The state before the first token.
    pub open spec fn initial() -> Engine {
        Engine { root: Seq::empty(), groups: Seq::empty(), trackers: seq![Map::empty()] }
    }

    /// Whether a group is open.
    pub open spec fn parsing_group(self) -> bool {
        self.groups.len() > 0
    }

    /// The component that is being filled: the last instance of the
    /// innermost open group, or the root.
    pub open spec fn current(self) -> Seq<Entity> {
        if self.parsing_group() {
            self.groups.last().instances.last()
        } else {
            self.root
        }
    }

    /// The state with `group` in place of the innermost open group.
    pub open spec fn with_group(self, group: Group) -> Engine {
        Engine { groups: self.groups.update(self.groups.len() - 1, group), ..self }
    }

    /// The state with `c` in place of the component that is being filled.
    pub open spec fn with_current(self, c: Seq<Entity>) -> Engine {
        if self.parsing_group() {
            let group = self.groups.last();
            self.with_group(
                Group { instances: group.instances.update(group.instances.len() - 1, c), ..group },
            )
        } else {
            Engine { root: c, ..self }
        }
    }

    /// The candidates of the level that is being filled.
    pub open spec fn candidates(self) -> Map<i32, usize> {
        self.trackers.last()
    }

    /// The state with `m` as the candidates of the level that is being
    /// filled.
    pub open spec fn with_candidates(self, m: Map<i32, usize>) -> Engine {
        Engine { trackers: self.trackers.update(self.trackers.len() - 1, m), ..self }
    }

    /// The state with one more node at the end of the component that is
    /// being filled.
    pub open spec fn push(self, e: Entity) -> Engine {
        self.with_current(self.current().push(e))
    }

    /// The innermost open group is closed: it leaves the stack with its
    /// candidates and becomes the last node of the component one level up.
    pub open spec fn close(self) -> Engine {
        Engine {
            root: self.root,
            groups: self.groups.drop_last(),
            trackers: self.trackers.drop_last(),
        }.push(Entity::Group(self.groups.last()))
    }

    /// Every open group is closed, the innermost first.
    pub open spec fn close_all(self) -> Engine
        decreases self.groups.len(),
    {
        if self.parsing_group() {
            self.close().close_all()
        } else {
            self
        }
    }

    /// The open groups that `tag` does not belong to are closed, from the
    /// innermost outwards, up to the first that it belongs to. The
    /// end-of-message tag closes every open group, whatever it belongs to: it
    /// ends the message, so that a group that declared more repetitions than
    /// came is finished all the same.
    pub open spec fn close_foreign(self, tag: i32, tags: Seq<i32>, after: int) -> Engine
        decreases self.groups.len(),
    {
        if self.parsing_group() && (tag == END_TAG || !belongs(
            self.groups.last(),
            tag,
            tags,
            after,
        )) {
            self.close().close_foreign(tag, tags, after)
        } else {
            self
        }
    }

    /// Where a group begins that `tag` opens. `tag` opens a group where it
    /// has a candidate in the component that is being filled, the node at the
    /// candidate's index is known under that tag, and the node before it is a
    /// field whose value writes a 32-bit integer, the count field. The
    /// end-of-message tag opens none.
    pub open spec fn group_start(self, tag: i32) -> Option<usize> {
        let c = self.current();
        if tag != END_TAG && self.candidates().contains_key(tag) {
            let first = self.candidates()[tag];
            if 1 <= first < c.len() && entity_tag(c[first as int]) == tag && declared_count(
                c[first - 1],
            ) is Some {
                Some(first)
            } else {
                None
            }
        } else {
            None
        }
    }

    /// `delimiter` opens a group: the nodes from `first` on leave the
    /// component that is being filled and become the first instance, the
    /// count field before them leaves it too, and the group goes on the stack
    /// with no candidates.
    pub open spec fn open(self, delimiter: i32, first: usize) -> Engine {
        let c = self.current();
        let shortened = self.with_current(c.subrange(0, first - 1));
        Engine {
            root: shortened.root,
            groups: shortened.groups.push(new_group(c, first as int, delimiter)),
            trackers: shortened.trackers.push(Map::empty()),
        }
    }

    /// `tag` opens a group where it can.
    pub open spec fn open_if_repeated(self, tag: i32) -> Engine {
        match self.group_start(tag) {
            Some(first) => self.open(tag, first),
            None => self,
        }
    }

    /// The innermost open group takes `tag` among the tags that it knows.
    pub open spec fn learn(self, tag: i32) -> Engine {
        let group = self.groups.last();
        self.with_group(Group { known: group.known.insert(tag), ..group })
    }

    /// Whether `tag` begins a new instance of the innermost open group.
    pub open spec fn new_iteration(self, tag: i32) -> bool {
        self.parsing_group() && tag == self.groups.last().delimiter
    }

    /// The innermost open group begins a new, empty instance, and its level
    /// forgets its candidates.
    pub open spec fn next_instance(self) -> Engine {
        let group = self.groups.last();
        self.with_candidates(Map::empty()).with_group(
            Group { instances: group.instances.push(Seq::empty()), ..group },
        )
    }

    /// `tag` becomes a candidate at the index where the next node will stand.
    pub open spec fn register(self, tag: i32) -> Engine {
        self.with_candidates(self.candidates().insert(tag, self.current().len() as usize))
    }

    /// The field finds its place: the innermost open group learns its tag,
    /// the delimiter begins a new instance and any other tag becomes a
    /// candidate, and the field is the next node of the component that is
    /// being filled.
    pub open spec fn place(self, tag: i32, value: Seq<char>) -> Engine {
        let learned = if self.parsing_group() {
            self.learn(tag)
        } else {
            self
        };
        let ready = if learned.new_iteration(tag) {
            learned.next_instance()
        } else {
            learned.register(tag)
        };
        ready.push(Entity::Field(tag, value))
    }

    /// One token is processed: the one at position `pos` of a message whose
    /// tags are `tags`, with the value `value`.
    pub open spec fn step(self, tags: Seq<i32>, pos: int, value: Seq<char>) -> Engine {
        let tag = tags[pos];
        self.close_foreign(tag, tags, pos + 1).open_if_repeated(tag).place(tag, value)
    }
}

/// The state after the first `n` tokens.
pub open spec fn run(tokens: Seq<(i32, Seq<char>)>, n: nat) -> Engine
    decreases n,
{
    if n == 0 {
        Engine::initial()
    } else {
        run(tokens, (n - 1) as nat).step(tags_of(tokens), n - 1, tokens[n - 1].1)
    }
}

/// The tree that a token sequence decodes to: the root after the last token.
pub open spec fn decode_tokens(tokens: Seq<(i32, Seq<char>)>) -> Seq<Entity> {
    run(tokens, tokens.len()).root
}

/// The tree that a text decodes to, or why it decodes to none.
pub open spec fn decode_text(input: Seq<char>) -> Result<Seq<Entity>, DecodeError> {
    match tokenize(input) {
        Ok(tokens) => Ok(decode_tokens(tokens)),
        Err(e) => Err(e),
    }
}

/// What putting a component in place of the one that is being filled does
/// to the state: that component is replaced, and nothing else.
pub proof fn lemma_with_current(e: Engine, c: Seq<Entity>)
    requires
        e.wf(),
    ensures
        e.with_current(c).wf(),
        e.with_current(c).groups.len() == e.groups.len(),
        e.with_current(c).current() == c,
        forall|k: int|
            0 <= k < e.groups.len() - 1 ==> #[trigger] e.with_current(c).groups[k] == e.groups[k],
        e.parsing_group() ==> e.with_current(c).root == e.root && e.with_current(c).groups.last()
            == (Group {
            instances: e.groups.last().instances.update(e.groups.last().instances.len() - 1, c),
            ..e.groups.last()
        }),
        !e.parsing_group() ==> e.with_current(c).root == c,
{
    if e.parsing_group() {
        // the innermost group takes the component, the groups around it stay
    }
}

/// Closing the innermost open group leaves one level less.
proof fn lemma_close_wf(e: Engine)
    requires
        e.wf(),
        e.parsing_group(),
    ensures
        e.close().wf(),
        e.close().groups.len() == e.groups.len() - 1,
{
    let popped = Engine {
        root: e.root,
        groups: e.groups.drop_last(),
        trackers: e.trackers.drop_last(),
    };
    lemma_with_current(popped, popped.current().push(Entity::Group(e.groups.last())));
}

/// Closing the groups that a tag does not belong to keeps the levels in
/// order, and the end-of-message tag closes them all.
proof fn lemma_close_foreign_wf(e: Engine, tag: i32, tags: Seq<i32>, after: int)
    requires
        e.wf(),
    ensures
        e.close_foreign(tag, tags, after).wf(),
        tag == END_TAG ==> e.close_foreign(tag, tags, after).groups.len() == 0,
    decreases e.groups.len(),
{
    if e.parsing_group() && (tag == END_TAG || !belongs(e.groups.last(), tag, tags, after)) {
        lemma_close_wf(e);
        lemma_close_foreign_wf(e.close(), tag, tags, after);
    }
}

/// Opening a group where one can be opened adds a level.
proof fn lemma_open_wf(e: Engine, tag: i32)
    requires
        e.wf(),
    ensures
        e.open_if_repeated(tag).wf(),
        tag == END_TAG ==> e.open_if_repeated(tag) == e,
{
    match e.group_start(tag) {
        Some(first) => {
            let c = e.current();
            lemma_with_current(e, c.subrange(0, first - 1));
        },
        None => {},
    }
}

/// Placing a field keeps the levels as they are.
proof fn lemma_place_wf(e: Engine, tag: i32, value: Seq<char>)
    requires
        e.wf(),
    ensures
        e.place(tag, value).wf(),
        e.place(tag, value).groups.len() == e.groups.len(),
{
    let learned = if e.parsing_group() {
        e.learn(tag)
    } else {
        e
    };
    assert(learned.wf()) by {
        if e.parsing_group() {
            // the innermost group keeps its instances
        }
    }
    let ready = if learned.new_iteration(tag) {
        learned.next_instance()
    } else {
        learned.register(tag)
    };
    assert(ready.wf() && ready.groups.len() == e.groups.len()) by {
        if learned.new_iteration(tag) {
            // the innermost group gets one instance more
        }
    }
    lemma_with_current(ready, ready.current().push(Entity::Field(tag, value)));
}

/// Every step keeps the levels in order, and after the end-of-message tag no
/// group is open.
proof fn lemma_step_wf(e: Engine, tags: Seq<i32>, pos: int, value: Seq<char>)
    requires
        e.wf(),
    ensures
        e.step(tags, pos, value).wf(),
        tags[pos] == END_TAG ==> e.step(tags, pos, value).groups.len() == 0 && e.step(
            tags,
            pos,
            value,
        ).root.len() > 0 && e.step(tags, pos, value).root.last() == Entity::Field(END_TAG, value),
{
    let tag = tags[pos];
    let closed = e.close_foreign(tag, tags, pos + 1);
    lemma_close_foreign_wf(e, tag, tags, pos + 1);
    lemma_open_wf(closed, tag);
    lemma_place_wf(closed.open_if_repeated(tag), tag, value);
}

/// After any number of tokens the levels are in order.
pub proof fn lemma_run_wf(tokens: Seq<(i32, Seq<char>)>, n: nat)
    requires
        n <= tokens.len(),
    ensures
        run(tokens, n).wf(),
        n > 0 && tokens[n - 1].0 == END_TAG ==> run(tokens, n).groups.len() == 0 && run(
            tokens,
            n,
        ).root.len() > 0 && run(tokens, n).root.last() == Entity::Field(END_TAG, tokens[n - 1].1),
    decreases n,
{
    if n > 0 {
        lemma_run_wf(tokens, (n - 1) as nat);
        lemma_step_wf(run(tokens, (n - 1) as nat), tags_of(tokens), n - 1, tokens[n - 1].1);
    }
}

} // verus!
