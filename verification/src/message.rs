//! The decoder: a message under construction, token by token, and the tree
//! it ends as.

use crate::engine::{belongs, decode_text, decode_tokens, rescued, run, tags_of, Engine};
use crate::lookahead::{lemma_next_pos, next_pos, LookaheadIndex};
use crate::tokenizer::{
    complete, dropped_tag, end_index, lemma_end_index, pre_process_message, token_seq,
    DecodeError, TagValue, TokenStream, END_TAG,
};
use crate::tree::{Entity, FixComponent, FixEntity, FixGroup, Group};
use std::collections::HashMap;
use vstd::prelude::*;

verus! {

broadcast use vstd::std_specs::hash::group_hash_axioms;

/// A decoded message.
///
/// The tree is laid out as follows:
///
/// ```text
/// FixMessage    := FixComponent
/// FixComponent  := FixEntity*
///
/// FixEntity     := Field | Group
///
/// Field         := (tag: i32, value: String)
/// Group         := FixComponent*
/// ```
///
/// While it is being decoded it also holds the lookahead index, the stack of
/// the groups that are open and the candidates of each level.
pub struct FixMessage {
    root_component: FixComponent,
    pending_tag_indices: LookaheadIndex,
    candidate_indices: Vec<HashMap<i32, usize>>,
    active_groups: Vec<FixGroup>,
    trailing: Option<i32>,
}

impl View for FixMessage {
    type V = Seq<Entity>;

    /// The root of the tree.
    closed spec fn view(&self) -> Seq<Entity> {
        self.root_component@
    }
}

impl FixMessage {
    /// The state of the inference as a mathematical value.
    spec fn engine(&self) -> Engine {
        Engine {
            root: self.root_component@,
            groups: Seq::new(self.active_groups.len() as nat, |i: int| self.active_groups[i]@),
            trackers: Seq::new(
                self.candidate_indices.len() as nat,
                |i: int| self.candidate_indices[i]@,
            ),
        }
    }

    /// The tags of the tokens that the message is decoded from.
    spec fn tags(&self) -> Seq<i32> {
        self.pending_tag_indices.tags()
    }

    /// The number of tokens that were taken from the lookahead index.
    spec fn position(&self) -> int {
        self.pending_tag_indices.position()
    }

    /// The tag of the first token that was dropped behind the end-of-message
    /// tag.
    pub closed spec fn dropped(&self) -> Option<i32> {
        self.trailing
    }

    /// The parts of the message under construction fit together.
    spec fn wf(&self) -> bool {
        &&& self.pending_tag_indices.wf()
        &&& self.candidate_indices.len() == self.active_groups.len() + 1
        &&& forall|i: int|
            0 <= i < self.active_groups.len() ==> (#[trigger] self.active_groups[i]).wf()
    }

    fn new() -> (r: Self)
        ensures
            r.wf(),
            r.engine() == Engine::initial(),
            r.tags() == Seq::<i32>::empty(),
            r.position() == 0,
            r.dropped() is None,
    {
        let mut candidate_indices: Vec<HashMap<i32, usize>> = Vec::new();
        candidate_indices.push(HashMap::new());
        let r = Self {
            root_component: FixComponent::new(Vec::new()),
            pending_tag_indices: LookaheadIndex::new(&Vec::new()),
            candidate_indices,
            active_groups: Vec::new(),
            trailing: None,
        };
        proof {
            assert(r.engine().root =~= Seq::<Entity>::empty());
            assert(r.engine().groups =~= Seq::<Group>::empty());
            assert(r.engine().trackers =~= seq![Map::<i32, usize>::empty()]);
        }
        r
    }

    fn is_parsing_group(&self) -> (r: bool)
        ensures
            r == self.engine().parsing_group(),
    {
        !self.active_groups.is_empty()
    }

    fn active_group(&self) -> (r: &FixGroup)
        requires
            self.wf(),
            self.engine().parsing_group(),
        ensures
            r@ == self.engine().groups.last(),
            r.wf(),
    {
        &self.active_groups[self.active_groups.len() - 1]
    }

    /// The component that is being filled.
    spec fn current_component(&self) -> FixComponent {
        if self.active_groups.len() > 0 {
            let group = self.active_groups[self.active_groups.len() - 1];
            group.instances[group.instances.len() - 1]
        } else {
            self.root_component
        }
    }

    /// `self` is `before` with `c` in place of the component that is being
    /// filled.
    spec fn component_replaced(&self, before: &FixMessage, c: FixComponent) -> bool {
        let n = before.active_groups.len();
        &&& self.pending_tag_indices == before.pending_tag_indices
        &&& self.candidate_indices == before.candidate_indices
        &&& self.trailing == before.trailing
        &&& self.active_groups.len() == n
        &&& forall|i: int| 0 <= i < n - 1 ==> self.active_groups[i] == before.active_groups[i]
        &&& if n > 0 {
            let old_group = before.active_groups[n - 1];
            let new_group = self.active_groups[n - 1];
            &&& self.root_component == before.root_component
            &&& new_group.delimiter == old_group.delimiter
            &&& new_group.no_tag == old_group.no_tag
            &&& new_group.repetitions == old_group.repetitions
            &&& new_group.known_tags == old_group.known_tags
            &&& new_group.instances@ == old_group.instances@.update(
                old_group.instances.len() - 1,
                c,
            )
        } else {
            self.root_component == c
        }
    }

    /// Replacing the component that is being filled changes just that in the
    /// state of the inference.
    proof fn lemma_component_replaced(&self, before: &FixMessage, c: FixComponent)
        requires
            before.wf(),
            self.component_replaced(before, c),
        ensures
            self.wf(),
            self.engine() == before.engine().with_current(c@),
            self.tags() == before.tags(),
            self.position() == before.position(),
            self.dropped() == before.dropped(),
    {
        let n = before.active_groups.len() as int;
        let expected = before.engine().with_current(c@);
        if n > 0 {
            assert(self.active_groups[n - 1]@.instances =~= expected.groups[n - 1].instances);
            assert(self.engine().groups =~= expected.groups);
        } else {
            assert(self.engine().groups =~= expected.groups);
        }
    }

    fn get_component(&mut self) -> (c: &mut FixComponent)
        requires
            old(self).wf(),
        ensures
            *c == old(self).current_component(),
            c@ == old(self).engine().current(),
            final(self).component_replaced(old(self), *final(c)),
    {
        if self.is_parsing_group() {
            let n = self.active_groups.len();
            let group = &mut self.active_groups[n - 1];
            let m = group.instances.len();
            &mut group.instances[m - 1]
        } else {
            &mut self.root_component
        }
    }

    fn get_entities(&mut self) -> (entities: &mut Vec<FixEntity>)
        requires
            old(self).wf(),
        ensures
            *entities == old(self).current_component().entities,
            final(self).component_replaced(
                old(self),
                FixComponent { entities: *final(entities) },
            ),
    {
        &mut self.get_component().entities
    }

    /// Puts `entity` at the end of the component that is being filled.
    fn push_entity(&mut self, entity: FixEntity)
        requires
            old(self).wf(),
        ensures
            final(self).wf(),
            final(self).engine() == old(self).engine().push(entity@),
            final(self).tags() == old(self).tags(),
            final(self).position() == old(self).position(),
            final(self).dropped() == old(self).dropped(),
    {
        self.get_entities().push(entity);
        proof {
            let c = self.current_component();
            self.lemma_component_replaced(old(self), c);
            assert(c@ =~= old(self).engine().current().push(entity@));
        }
    }

    /// The component that is being filled, to read.
    fn component(&self) -> (c: &FixComponent)
        requires
            self.wf(),
        ensures
            *c == self.current_component(),
            c@ == self.engine().current(),
    {
        if self.is_parsing_group() {
            let group = &self.active_groups[self.active_groups.len() - 1];
            &group.instances[group.instances.len() - 1]
        } else {
            &self.root_component
        }
    }

    /// `self` is `before` with `group` in place of the innermost open group.
    spec fn group_replaced(&self, before: &FixMessage, group: FixGroup) -> bool {
        &&& self.pending_tag_indices == before.pending_tag_indices
        &&& self.candidate_indices == before.candidate_indices
        &&& self.trailing == before.trailing
        &&& self.root_component == before.root_component
        &&& before.active_groups.len() > 0
        &&& self.active_groups@ == before.active_groups@.update(
            before.active_groups.len() - 1,
            group,
        )
    }

    /// Replacing the innermost open group changes just that in the state of
    /// the inference.
    proof fn lemma_group_replaced(&self, before: &FixMessage, group: FixGroup)
        requires
            before.wf(),
            self.group_replaced(before, group),
            group.wf(),
        ensures
            self.wf(),
            self.engine() == before.engine().with_group(group@),
            self.tags() == before.tags(),
            self.position() == before.position(),
            self.dropped() == before.dropped(),
    {
        let expected = before.engine().with_group(group@);
        assert(self.engine().groups =~= expected.groups);
    }

    fn active_group_mut(&mut self) -> (group: &mut FixGroup)
        requires
            old(self).wf(),
            old(self).engine().parsing_group(),
        ensures
            *group == old(self).active_groups[old(self).active_groups.len() - 1],
            group@ == old(self).engine().groups.last(),
            group.wf(),
            final(self).group_replaced(old(self), *final(group)),
    {
        let n = self.active_groups.len();
        &mut self.active_groups[n - 1]
    }

    /// `self` is `before` with `m` as the candidates of the level that is
    /// being filled.
    spec fn candidates_replaced(
        &self,
        before: &FixMessage,
        m: HashMap<i32, usize>,
    ) -> bool {
        &&& self.pending_tag_indices == before.pending_tag_indices
        &&& self.active_groups == before.active_groups
        &&& self.trailing == before.trailing
        &&& self.root_component == before.root_component
        &&& self.candidate_indices@ == before.candidate_indices@.update(
            before.candidate_indices.len() - 1,
            m,
        )
    }

    /// Replacing the candidates of the level that is being filled changes
    /// just that in the state of the inference.
    proof fn lemma_candidates_replaced(&self, before: &FixMessage, m: HashMap<i32, usize>)
        requires
            before.wf(),
            self.candidates_replaced(before, m),
        ensures
            self.wf(),
            self.engine() == before.engine().with_candidates(m@),
            self.tags() == before.tags(),
            self.position() == before.position(),
            self.dropped() == before.dropped(),
    {
        let expected = before.engine().with_candidates(m@);
        assert(self.engine().trackers =~= expected.trackers);
    }

    fn get_candidates(&self) -> (m: &HashMap<i32, usize>)
        requires
            self.wf(),
        ensures
            m@ == self.engine().candidates(),
    {
        &self.candidate_indices[self.candidate_indices.len() - 1]
    }

    fn get_candidates_mut(&mut self) -> (m: &mut HashMap<i32, usize>)
        requires
            old(self).wf(),
        ensures
            m@ == old(self).engine().candidates(),
            final(self).candidates_replaced(old(self), *final(m)),
    {
        let n = self.candidate_indices.len();
        &mut self.candidate_indices[n - 1]
    }

    fn get_index_of_candidate(&self, tag: i32) -> (r: usize)
        requires
            self.wf(),
            self.engine().candidates().contains_key(tag),
        ensures
            r == self.engine().candidates()[tag],
    {
        *self.get_candidates().get(&tag).unwrap()
    }

    /// Makes `tag` a candidate at the index where the next node will stand.
    /// Must be called before that node is put in.
    fn register_candidate(&mut self, tag: i32)
        requires
            old(self).wf(),
        ensures
            final(self).wf(),
            final(self).engine() == old(self).engine().register(tag),
            final(self).tags() == old(self).tags(),
            final(self).position() == old(self).position(),
            final(self).dropped() == old(self).dropped(),
    {
        let candidate_index = self.component().entities.len();
        let candidates = self.get_candidates_mut();
        candidates.insert(tag, candidate_index);
        proof {
            let m = self.candidate_indices[self.candidate_indices.len() - 1];
            self.lemma_candidates_replaced(old(self), m);
        }
    }

    /// Tells whether `tag` comes again at its level and opens a group: it
    /// has a candidate that still stands in the component that is being
    /// filled, with a count field before it.
    fn repeated_candidate(&self, tag: i32) -> (r: bool)
        requires
            self.wf(),
        ensures
            r == self.engine().group_start(tag) is Some,
            r ==> self.engine().candidates().contains_key(tag),
    {
        if tag == END_TAG || !self.get_candidates().contains_key(&tag) {
            return false;
        }
        let first = self.get_index_of_candidate(tag);
        let component = self.component();
        1 <= first && first < component.entities.len() && component.entities[first].get_tag() == tag
            && component.entities[first - 1].get_field_value_i32().is_some()
    }

    fn get_next_index_of_pending_tag(&self, tag: i32) -> (r: Option<usize>)
        requires
            self.wf(),
        ensures
            match r {
                Some(p) => p == next_pos(self.tags(), self.position(), tag) && p < self.tags().len(),
                None => next_pos(self.tags(), self.position(), tag) == self.tags().len(),
            },
    {
        self.pending_tag_indices.peek(tag)
    }

    fn remove_pending_tag(&mut self, tag: i32)
        requires
            old(self).wf(),
            old(self).position() < old(self).tags().len(),
            old(self).tags()[old(self).position()] == tag,
        ensures
            final(self).wf(),
            final(self).engine() == old(self).engine(),
            final(self).tags() == old(self).tags(),
            final(self).position() == old(self).position() + 1,
            final(self).dropped() == old(self).dropped(),
    {
        self.pending_tag_indices.consume(tag);
    }

    fn is_last_iteration(&self) -> (r: bool)
        requires
            self.wf(),
            self.engine().parsing_group(),
        ensures
            r == !(self.engine().groups.last().instances.len()
                < self.engine().groups.last().repetitions),
    {
        let group = self.active_group();
        group.repetitions <= 0 || group.current_iteration() >= group.repetitions as usize
    }

    fn is_known_group_tag(&self, tag: i32) -> (r: bool)
        requires
            self.wf(),
            self.engine().parsing_group(),
        ensures
            r == self.engine().groups.last().known.contains(tag),
    {
        self.active_group().known_tags.contains(&tag)
    }

    /// Tells whether the position `tag_index` comes before the delimiter of
    /// the innermost open group comes again.
    fn index_belongs_to_current_group(&self, tag_index: usize) -> (r: bool)
        requires
            self.wf(),
            self.engine().parsing_group(),
            tag_index < self.tags().len(),
        ensures
            r == (tag_index < next_pos(
                self.tags(),
                self.position(),
                self.engine().groups.last().delimiter,
            )),
    {
        match self.get_next_index_of_pending_tag(self.active_group().delimiter) {
            Some(delimiter_index) => tag_index < delimiter_index,
            None => true,
        }
    }

    /// Tells whether `tag` is still to come before the delimiter of the
    /// innermost open group comes again.
    fn pending_before_delimiter(&self, tag: i32) -> (r: bool)
        requires
            self.wf(),
            self.engine().parsing_group(),
        ensures
            r == (next_pos(self.tags(), self.position(), tag) < next_pos(
                self.tags(),
                self.position(),
                self.engine().groups.last().delimiter,
            )),
    {
        proof {
            self.pending_tag_indices.lemma_position();
            lemma_next_pos(self.tags(), self.position(), self.engine().groups.last().delimiter);
        }
        match self.get_next_index_of_pending_tag(tag) {
            Some(tag_index) => self.index_belongs_to_current_group(tag_index),
            None => false,
        }
    }

    /// Tells whether the tokens ahead rescue `tag` for the innermost open
    /// group.
    fn pending_tag_in_last_instance(&self, tag: i32) -> (r: bool)
        requires
            self.wf(),
            self.engine().parsing_group(),
        ensures
            r == rescued(self.engine().groups.last(), tag, self.tags(), self.position()),
    {
        let group = self.active_group();
        let ghost tags = self.tags();
        let ghost after = self.position();
        let ghost delimiter = group.delimiter;
        if self.pending_before_delimiter(tag) {
            return true;
        }
        for known_tag in it: group.known_tags.iter()
            invariant
                self.wf(),
                self.engine().parsing_group(),
                group@ == self.engine().groups.last(),
                tags == self.tags(),
                after == self.position(),
                delimiter == group.delimiter,
                it.seq().unref().to_set() == group.known_tags@,
                !(next_pos(tags, after, tag) < next_pos(tags, after, delimiter)),
                forall|j: int|
                    0 <= j < it.index() ==> !(next_pos(tags, after, *(#[trigger] it.seq()[j]))
                        < next_pos(tags, after, delimiter)),
        {
            if self.pending_before_delimiter(*known_tag) {
                return true;
            }
        }
        false
    }

    /// Tells whether `tag` belongs to the innermost open group.
    fn tag_in_group(&self, tag: i32) -> (r: bool)
        requires
            self.wf(),
            self.engine().parsing_group(),
        ensures
            r == belongs(self.engine().groups.last(), tag, self.tags(), self.position()),
    {
        // from cheaper to more expensive check
        !self.is_last_iteration() || self.is_known_group_tag(tag)
            || self.pending_tag_in_last_instance(tag)
    }

    fn is_new_iteration(&self, tag: i32) -> (r: bool)
        requires
            self.wf(),
        ensures
            r == self.engine().new_iteration(tag),
    {
        self.is_parsing_group() && tag == self.active_group().delimiter
    }

    /// Closes the innermost open group: it becomes the last node of the
    /// component one level up.
    fn close_group(&mut self)
        requires
            old(self).wf(),
            old(self).engine().parsing_group(),
        ensures
            final(self).wf(),
            final(self).engine() == old(self).engine().close(),
            final(self).tags() == old(self).tags(),
            final(self).position() == old(self).position(),
            final(self).dropped() == old(self).dropped(),
    {
        let ghost before = self.engine();
        let closed_group = self.active_groups.pop().unwrap();
        self.candidate_indices.pop();
        proof {
            let popped = Engine {
                root: before.root,
                groups: before.groups.drop_last(),
                trackers: before.trackers.drop_last(),
            };
            assert(self.engine().groups =~= popped.groups);
            assert(self.engine().trackers =~= popped.trackers);
        }
        self.push_entity(FixEntity::Group(closed_group));
    }

    /// Opens the group that `group_delimiter` begins where its candidate
    /// stands in the component that is being filled.
    fn open_group(&mut self, group_delimiter: i32)
        requires
            old(self).wf(),
            old(self).engine().group_start(group_delimiter) is Some,
        ensures
            final(self).wf(),
            final(self).engine() == old(self).engine().open_if_repeated(group_delimiter),
            final(self).tags() == old(self).tags(),
            final(self).position() == old(self).position(),
            final(self).dropped() == old(self).dropped(),
    {
        let ghost before = self.engine();
        let first = self.get_index_of_candidate(group_delimiter);
        let group = FixGroup::new(group_delimiter, first, self.get_component());
        proof {
            let c = self.current_component();
            self.lemma_component_replaced(old(self), c);
        }
        self.active_groups.push(group);
        self.candidate_indices.push(HashMap::new());
        proof {
            let expected = before.open(group_delimiter, first);
            assert(self.engine().groups =~= expected.groups);
            assert(self.engine().trackers =~= expected.trackers);
        }
    }

    fn set_known_tag_in_group(&mut self, tag: i32)
        requires
            old(self).wf(),
            old(self).engine().parsing_group(),
        ensures
            final(self).wf(),
            final(self).engine() == old(self).engine().learn(tag),
            final(self).tags() == old(self).tags(),
            final(self).position() == old(self).position(),
            final(self).dropped() == old(self).dropped(),
    {
        let group = self.active_group_mut();
        group.insert_known_tag(tag);
        proof {
            let g = self.active_groups[self.active_groups.len() - 1];
            self.lemma_group_replaced(old(self), g);
        }
    }

    /// Begins a new instance of the innermost open group: its level forgets
    /// its candidates, and the group is in its next iteration.
    fn create_new_group_instance(&mut self)
        requires
            old(self).wf(),
            old(self).engine().parsing_group(),
        ensures
            final(self).wf(),
            final(self).engine() == old(self).engine().next_instance(),
            final(self).tags() == old(self).tags(),
            final(self).position() == old(self).position(),
            final(self).dropped() == old(self).dropped(),
    {
        let candidates = self.get_candidates_mut();
        candidates.clear();
        proof {
            let m = self.candidate_indices[self.candidate_indices.len() - 1];
            self.lemma_candidates_replaced(old(self), m);
        }
        let ghost cleared = *self;
        let group = self.active_group_mut();
        group.create_new_instance();
        proof {
            let g = self.active_groups[self.active_groups.len() - 1];
            self.lemma_group_replaced(&cleared, g);
        }
    }

    /// Takes the next token into the tree: `tag` and `value`, which stand at
    /// position `index` of the message.
    fn add_tag_value(&mut self, tag: i32, value: String, index: usize)
        requires
            old(self).wf(),
            old(self).position() == index,
            index < old(self).tags().len(),
            old(self).tags()[index as int] == tag,
        ensures
            final(self).wf(),
            final(self).engine() == old(self).engine().step(old(self).tags(), index as int, value@),
            final(self).tags() == old(self).tags(),
            final(self).position() == index + 1,
            final(self).dropped() == old(self).dropped(),
    {
        let ghost tags = self.tags();
        let ghost start = self.engine();
        self.remove_pending_tag(tag);

        while self.is_parsing_group() && (tag == END_TAG || !self.tag_in_group(tag))
            invariant
                self.wf(),
                self.tags() == tags,
                self.position() == index + 1,
                self.dropped() == old(self).dropped(),
                self.engine().close_foreign(tag, tags, index + 1) == start.close_foreign(
                    tag,
                    tags,
                    index + 1,
                ),
            decreases self.engine().groups.len(),
        {
            self.close_group();
        }

        if self.repeated_candidate(tag) {
            self.open_group(tag);
        }

        if self.is_parsing_group() {
            self.set_known_tag_in_group(tag);
        }

        if self.is_new_iteration(tag) {
            self.create_new_group_instance();
        } else {
            self.register_candidate(tag);
        }

        self.push_entity(FixEntity::Field(tag, value));
    }

    /// Whether the message holds nothing but its tree: the lookahead index is
    /// without tokens, no level keeps candidates and no group is open. That is
    /// how decoding leaves a message.
    pub closed spec fn settled(&self) -> bool {
        &&& self.engine().groups.len() == 0
        &&& self.engine().trackers.len() == 0
        &&& self.tags().len() == 0
        &&& self.position() == 0
    }

    /// Drops what only the decoding needed: the lookahead index is left
    /// without tokens, no level keeps its candidates and no group stays open.
    /// The tree under the root is kept as it is.
    fn clean(&mut self)
        ensures
            final(self)@ == old(self)@,
            final(self).dropped() == old(self).dropped(),
            final(self).engine() == (Engine {
                root: old(self).engine().root,
                groups: Seq::empty(),
                trackers: Seq::empty(),
            }),
            final(self).tags() == Seq::<i32>::empty(),
            final(self).position() == 0,
            final(self).settled(),
    {
        self.pending_tag_indices = LookaheadIndex::new(&Vec::new());
        self.candidate_indices.clear();
        self.active_groups.clear();
        proof {
            assert(self.engine().groups =~= Seq::<Group>::empty());
            assert(self.engine().trackers =~= Seq::<Map<i32, usize>>::empty());
        }
    }

    /// Tells whether the end-of-message tag is among the tokens that are
    /// still to come.
    fn check_message_is_valid(&self) -> (r: bool)
        requires
            self.wf(),
        ensures
            r == (next_pos(self.tags(), self.position(), END_TAG) < self.tags().len()),
    {
        self.get_next_index_of_pending_tag(END_TAG).is_some()
    }

    /// Builds the tree of the message whose tokens `stream` holds.
    ///
    /// The tokens are those of a complete message where the end-of-message
    /// tag stands last and nowhere else. Then they decode, whatever groups
    /// they declare, and the message holds their tree and nothing else. Any
    /// other token sequence fails with `IncompleteMessage`.
    pub fn from_tokens(stream: TokenStream) -> (r: Result<FixMessage, DecodeError>)
        ensures
            match r {
                Ok(message) => complete(token_seq(stream.tokens@)) && message@ == decode_tokens(
                    token_seq(stream.tokens@),
                ) && message.dropped() == stream.trailing && message.settled(),
                Err(e) => !complete(token_seq(stream.tokens@)) && e
                    == DecodeError::IncompleteMessage,
            },
    {
        let tag_values = stream.tokens;
        let ghost tokens = token_seq(tag_values@);
        let tags = tags_of_tokens(&tag_values);
        let n = tag_values.len();
        let mut message = FixMessage::new();
        message.trailing = stream.trailing;
        message.pending_tag_indices = LookaheadIndex::new(&tags);
        proof {
            lemma_end_index_is_next_pos(tokens, 0);
            assert(tokens.skip(0) =~= tokens);
            lemma_end_index(tokens);
        }
        if !message.check_message_is_valid() {
            return Err(DecodeError::IncompleteMessage);
        }
        if message.get_next_index_of_pending_tag(END_TAG).unwrap() + 1 != n {
            return Err(DecodeError::IncompleteMessage);
        }
        let mut index: usize = 0;
        while index < n
            invariant
                n == tag_values.len(),
                index <= n,
                tokens == token_seq(tag_values@),
                message.wf(),
                message.tags() == tags_of(tokens),
                message.position() == index,
                message.engine() == run(tokens, index as nat),
                message.dropped() == stream.trailing,
            decreases n - index,
        {
            let tag_value = &tag_values[index];
            message.add_tag_value(tag_value.tag, tag_value.value.clone(), index);
            index += 1;
        }
        message.clean();
        Ok(message)
    }

    /// Decodes the message that `input_message` holds in tag=value encoding.
    ///
    /// Fails with `MalformedHeader` where no version field or no separator
    /// behind it is found, and with `IncompleteMessage` where the
    /// end-of-message tag does not come. Every other text decodes, and the
    /// message holds its tree and nothing else.
    pub fn decode(input_message: &str) -> (r: Result<FixMessage, DecodeError>)
        ensures
            match r {
                Ok(message) => decode_text(input_message@) == Ok::<_, DecodeError>(message@)
                    && message.dropped() == dropped_tag(input_message@) && message.settled(),
                Err(e) => decode_text(input_message@) == Err::<Seq<Entity>, _>(e),
            },
    {
        match pre_process_message(input_message) {
            Some(stream) => Self::from_tokens(stream),
            None => Err(DecodeError::MalformedHeader),
        }
    }

    /// Creates a `FixMessage` from a text in tag=value encoding, the classic
    /// encoding of FIX. There is no message where `decode` fails.
    pub fn from_tag_value(input_message: &str) -> (r: Option<FixMessage>)
        ensures
            match r {
                Some(message) => decode_text(input_message@) == Ok::<_, DecodeError>(message@)
                    && message.dropped() == dropped_tag(input_message@) && message.settled(),
                None => decode_text(input_message@) is Err,
            },
    {
        match Self::decode(input_message) {
            Ok(message) => Some(message),
            Err(_) => None,
        }
    }

    /// The tag of the first token that stood behind the end-of-message tag
    /// and was dropped, if there was one.
    pub fn trailing_tag(&self) -> (r: Option<i32>)
        ensures
            r == self.dropped(),
    {
        self.trailing
    }

    /// The root of the tree.
    pub fn root(&self) -> (r: &FixComponent)
        ensures
            r@ == self@,
    {
        &self.root_component
    }
}

/// The tags of `tag_values`, in order.
fn tags_of_tokens(tag_values: &Vec<TagValue>) -> (tags: Vec<i32>)
    ensures
        tags@ == tags_of(token_seq(tag_values@)),
{
    let mut tags: Vec<i32> = Vec::new();
    let n = tag_values.len();
    let mut i: usize = 0;
    while i < n
        invariant
            i <= n,
            n == tag_values.len(),
            tags@ == tags_of(token_seq(tag_values@)).take(i as int),
        decreases n - i,
    {
        tags.push(tag_values[i].tag);
        i += 1;
    }
    tags
}

/// The end-of-message tag first stands where the lookahead finds it.
proof fn lemma_end_index_is_next_pos(tokens: Seq<(i32, Seq<char>)>, from: int)
    requires
        0 <= from <= tokens.len(),
    ensures
        next_pos(tags_of(tokens), from, END_TAG) == from + end_index(tokens.skip(from)),
    decreases tokens.len() - from,
{
    let rest = tokens.skip(from);
    if from < tokens.len() {
        if tokens[from].0 != END_TAG {
            lemma_end_index_is_next_pos(tokens, from + 1);
            assert(rest.drop_first() =~= tokens.skip(from + 1));
        }
    }
}

} // verus!
