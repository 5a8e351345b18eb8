//! The leaves of a tree in the order of the message, and the proof that
//! decoding keeps them: every token stands in the tree once, where it stood
//! in the message.

use crate::engine::{belongs, lemma_with_current, run, tags_of, Engine};
use crate::text::parse_int;
use crate::tokenizer::END_TAG;
use crate::tree::{declared_count, entity_tag, new_group, Entity, Group};
use vstd::prelude::*;

verus! {

/// What a token ends as in the tree.
pub enum Leaf {
    /// A field, with its tag and its text.
    Field(i32, Seq<char>),
    /// The count field of a group, with its tag and the number of
    /// repetitions that its text declared.
    Count(i32, i32),
}

/// The leaves of a node: a field is its own leaf; a group has its count
/// field first, then the leaves of its instances.
pub open spec fn entity_leaves(e: Entity) -> Seq<Leaf>
    decreases e, 0nat,
{
    match e {
        Entity::Field(tag, value) => seq![Leaf::Field(tag, value)],
        Entity::Group(group) => seq![Leaf::Count(group.count_tag, group.repetitions)]
            + instances_leaves(group.instances, group.instances.len()),
    }
}

/// The leaves of the first `n` of the instances.
pub open spec fn instances_leaves(instances: Seq<Seq<Entity>>, n: nat) -> Seq<Leaf>
    decreases instances, n,
{
    if n == 0 || n > instances.len() {
        Seq::empty()
    } else {
        instances_leaves(instances, (n - 1) as nat) + component_leaves(
            instances[n - 1],
            instances[n - 1].len(),
        )
    }
}

/// The leaves of the first `n` nodes of `c`.
pub open spec fn component_leaves(c: Seq<Entity>, n: nat) -> Seq<Leaf>
    decreases c, n,
{
    if n == 0 || n > c.len() {
        Seq::empty()
    } else {
        component_leaves(c, (n - 1) as nat) + entity_leaves(c[n - 1])
    }
}

/// The leaves of a component.
pub open spec fn all_leaves(c: Seq<Entity>) -> Seq<Leaf> {
    component_leaves(c, c.len())
}

/// The leaves of a group.
pub open spec fn group_leaves(group: Group) -> Seq<Leaf> {
    entity_leaves(Entity::Group(group))
}

/// The leaves of the first `n` of the open groups.
pub open spec fn stack_leaves(groups: Seq<Group>, n: nat) -> Seq<Leaf>
    decreases n,
{
    if n == 0 || n > groups.len() {
        Seq::empty()
    } else {
        stack_leaves(groups, (n - 1) as nat) + group_leaves(groups[n - 1])
    }
}

/// The leaves of a state of the inference: those of the root, then those of
/// the open groups from the outermost in. A group that is open stands behind
/// everything that its parent holds so far.
pub open spec fn state_leaves(e: Engine) -> Seq<Leaf> {
    all_leaves(e.root) + stack_leaves(e.groups, e.groups.len())
}

/// Whether a leaf is what the token ended as: a field keeps tag and text, a
/// count field keeps the tag and holds the number that the text writes.
pub open spec fn leaf_agrees(leaf: Leaf, token: (i32, Seq<char>)) -> bool {
    match leaf {
        Leaf::Field(tag, value) => token == (tag, value),
        Leaf::Count(tag, repetitions) => token.0 == tag && parse_int(token.1) == Some(
            repetitions as int,
        ),
    }
}

/// Whether the leaves are what the tokens ended as, one for one and in
/// order.
pub open spec fn agrees(leaves: Seq<Leaf>, tokens: Seq<(i32, Seq<char>)>) -> bool {
    &&& leaves.len() == tokens.len()
    &&& forall|i: int| 0 <= i < leaves.len() ==> leaf_agrees(#[trigger] leaves[i], tokens[i])
}

/// Components that begin alike have the same first leaves.
proof fn lemma_component_leaves_same(c: Seq<Entity>, d: Seq<Entity>, n: nat)
    requires
        n <= c.len(),
        n <= d.len(),
        forall|i: int| 0 <= i < n ==> c[i] == d[i],
    ensures
        component_leaves(c, n) == component_leaves(d, n),
    decreases n,
{
    if n > 0 {
        lemma_component_leaves_same(c, d, (n - 1) as nat);
    }
}

/// One more node brings its leaves to the end.
proof fn lemma_component_leaves_push(c: Seq<Entity>, x: Entity)
    ensures
        all_leaves(c.push(x)) == all_leaves(c) + entity_leaves(x),
{
    lemma_component_leaves_same(c.push(x), c, c.len());
}

/// The leaves of two components put together are the leaves of the first,
/// then those of the second.
proof fn lemma_component_leaves_concat(a: Seq<Entity>, b: Seq<Entity>)
    ensures
        all_leaves(a + b) == all_leaves(a) + all_leaves(b),
    decreases b.len(),
{
    if b.len() > 0 {
        let shorter = b.drop_last();
        let x = b.last();
        assert(b =~= shorter.push(x));
        lemma_component_leaves_concat(a, shorter);
        lemma_component_leaves_push(a + shorter, x);
        lemma_component_leaves_push(shorter, x);
    }
}

/// Instances that begin alike have the same first leaves.
proof fn lemma_instances_leaves_same(a: Seq<Seq<Entity>>, b: Seq<Seq<Entity>>, n: nat)
    requires
        n <= a.len(),
        n <= b.len(),
        forall|i: int| 0 <= i < n ==> a[i] == b[i],
    ensures
        instances_leaves(a, n) == instances_leaves(b, n),
    decreases n,
{
    if n > 0 {
        lemma_instances_leaves_same(a, b, (n - 1) as nat);
    }
}

/// Stacks whose first groups have the same leaves have the same first
/// leaves.
proof fn lemma_stack_leaves_same(a: Seq<Group>, b: Seq<Group>, n: nat)
    requires
        n <= a.len(),
        n <= b.len(),
        forall|i: int| 0 <= i < n ==> group_leaves(a[i]) == group_leaves(b[i]),
    ensures
        stack_leaves(a, n) == stack_leaves(b, n),
    decreases n,
{
    if n > 0 {
        lemma_stack_leaves_same(a, b, (n - 1) as nat);
    }
}

/// The leaves that stand before those of the component that is being filled.
pub open spec fn before_current(e: Engine) -> Seq<Leaf> {
    if e.parsing_group() {
        let group = e.groups.last();
        all_leaves(e.root) + stack_leaves(e.groups, (e.groups.len() - 1) as nat)
            + seq![Leaf::Count(group.count_tag, group.repetitions)] + instances_leaves(
            group.instances,
            (group.instances.len() - 1) as nat,
        )
    } else {
        Seq::empty()
    }
}

/// The component that is being filled holds the last leaves of the state.
proof fn lemma_state_split(e: Engine)
    requires
        e.wf(),
    ensures
        state_leaves(e) == before_current(e) + all_leaves(e.current()),
{
    if e.parsing_group() {
        let group = e.groups.last();
        let m = group.instances.len();
        assert(instances_leaves(group.instances, m) == instances_leaves(
            group.instances,
            (m - 1) as nat,
        ) + all_leaves(group.instances[m - 1]));
    }
}

/// Putting another component in place of the one that is being filled
/// changes the last leaves only.
proof fn lemma_with_current_leaves(e: Engine, c: Seq<Entity>)
    requires
        e.wf(),
    ensures
        e.with_current(c).wf(),
        state_leaves(e.with_current(c)) == before_current(e) + all_leaves(c),
{
    let after = e.with_current(c);
    lemma_with_current(e, c);
    if e.parsing_group() {
        let n = e.groups.len();
        let group = e.groups.last();
        let m = group.instances.len();
        lemma_stack_leaves_same(after.groups, e.groups, (n - 1) as nat);
        lemma_instances_leaves_same(after.groups.last().instances, group.instances, (m - 1) as nat);
    }
    lemma_state_split(after);
}

/// A node put at the end of the component that is being filled brings its
/// leaves to the end of the state's.
proof fn lemma_push_leaves(e: Engine, x: Entity)
    requires
        e.wf(),
    ensures
        e.push(x).wf(),
        state_leaves(e.push(x)) == state_leaves(e) + entity_leaves(x),
{
    lemma_state_split(e);
    lemma_with_current_leaves(e, e.current().push(x));
    lemma_component_leaves_push(e.current(), x);
}

/// Closing a group moves no leaf.
proof fn lemma_close_leaves(e: Engine)
    requires
        e.wf(),
        e.parsing_group(),
    ensures
        e.close().wf(),
        state_leaves(e.close()) == state_leaves(e),
{
    let n = e.groups.len();
    let popped = Engine {
        root: e.root,
        groups: e.groups.drop_last(),
        trackers: e.trackers.drop_last(),
    };
    lemma_push_leaves(popped, Entity::Group(e.groups.last()));
    lemma_stack_leaves_same(popped.groups, e.groups, (n - 1) as nat);
}

/// Closing the groups that a tag does not belong to moves no leaf.
proof fn lemma_close_foreign_leaves(e: Engine, tag: i32, tags: Seq<i32>, after: int)
    requires
        e.wf(),
    ensures
        e.close_foreign(tag, tags, after).wf(),
        state_leaves(e.close_foreign(tag, tags, after)) == state_leaves(e),
    decreases e.groups.len(),
{
    if e.parsing_group() && (tag == END_TAG || !belongs(e.groups.last(), tag, tags, after)) {
        lemma_close_leaves(e);
        lemma_close_foreign_leaves(e.close(), tag, tags, after);
    }
}

/// A group with the same leaves in place of the innermost open group
/// changes no leaf of the state.
proof fn lemma_with_group_leaves(e: Engine, group: Group)
    requires
        e.wf(),
        e.parsing_group(),
        group.instances.len() >= 1,
        group_leaves(group) == group_leaves(e.groups.last()),
    ensures
        e.with_group(group).wf(),
        state_leaves(e.with_group(group)) == state_leaves(e),
{
    let after = e.with_group(group);
    let n = e.groups.len();
    lemma_stack_leaves_same(after.groups, e.groups, n);
}

/// Placing a field brings one leaf to the end of the state's: the field.
proof fn lemma_place_leaves(e: Engine, tag: i32, value: Seq<char>)
    requires
        e.wf(),
    ensures
        e.place(tag, value).wf(),
        state_leaves(e.place(tag, value)) == state_leaves(e).push(Leaf::Field(tag, value)),
{
    let learned = if e.parsing_group() {
        e.learn(tag)
    } else {
        e
    };
    if e.parsing_group() {
        let group = e.groups.last();
        lemma_with_group_leaves(e, Group { known: group.known.insert(tag), ..group });
    }
    let ready = if learned.new_iteration(tag) {
        learned.next_instance()
    } else {
        learned.register(tag)
    };
    if learned.new_iteration(tag) {
        let cleared = learned.with_candidates(Map::empty());
        let group = cleared.groups.last();
        let more = Group { instances: group.instances.push(Seq::empty()), ..group };
        let m = group.instances.len();
        lemma_instances_leaves_same(more.instances, group.instances, m);
        assert(all_leaves(more.instances[m as int]) =~= Seq::<Leaf>::empty());
        lemma_with_group_leaves(cleared, more);
    }
    lemma_push_leaves(ready, Entity::Field(tag, value));
}

/// The leaves before the count field of the group that opens at `first`.
pub open spec fn before_count(e: Engine, first: int) -> Seq<Leaf> {
    before_current(e) + all_leaves(e.current().subrange(0, first - 1))
}

/// Opening a group moves no leaf: the count field, a field so far, now
/// stands as the count of the group, with the number that its text writes.
proof fn lemma_open_leaves(e: Engine, tag: i32, first: usize, repetitions: i32)
    requires
        e.wf(),
        e.group_start(tag) == Some(first),
        declared_count(e.current()[first - 1]) == Some(repetitions),
    ensures
        e.open(tag, first).wf(),
        e.current()[first - 1] is Field,
        parse_int(e.current()[first - 1]->Field_1) == Some(repetitions as int),
        state_leaves(e) == before_count(e, first as int) + seq![
            Leaf::Field(entity_tag(e.current()[first - 1]), e.current()[first - 1]->Field_1),
        ] + all_leaves(e.current().subrange(first as int, e.current().len() as int)),
        state_leaves(e.open(tag, first)) == before_count(e, first as int) + seq![
            Leaf::Count(entity_tag(e.current()[first - 1]), repetitions),
        ] + all_leaves(e.current().subrange(first as int, e.current().len() as int)),
{
    let c = e.current();
    let j = first as int;
    let head = c.subrange(0, j - 1);
    let span = c.subrange(j, c.len() as int);
    let count_field = c[j - 1];
    let shortened = e.with_current(head);
    let group = new_group(c, j, tag);
    let after = e.open(tag, first);
    let n = shortened.groups.len();
    lemma_with_current_leaves(e, head);
    // the state before
    lemma_state_split(e);
    assert(c =~= head + seq![count_field] + span);
    lemma_component_leaves_concat(head + seq![count_field], span);
    lemma_component_leaves_push(head, count_field);
    assert(head.push(count_field) =~= head + seq![count_field]);
    // the state after
    lemma_stack_leaves_same(after.groups, shortened.groups, n);
    assert(instances_leaves(group.instances, 0) =~= Seq::<Leaf>::empty());
}

/// The leaves still agree with the tokens when a field among them becomes
/// the count that its text writes.
proof fn lemma_agrees_count(
    before: Seq<Leaf>,
    behind: Seq<Leaf>,
    tag: i32,
    value: Seq<char>,
    repetitions: i32,
    tokens: Seq<(i32, Seq<char>)>,
)
    requires
        agrees(before + seq![Leaf::Field(tag, value)] + behind, tokens),
        parse_int(value) == Some(repetitions as int),
    ensures
        agrees(before + seq![Leaf::Count(tag, repetitions)] + behind, tokens),
{
    let old_leaves = before + seq![Leaf::Field(tag, value)] + behind;
    let new_leaves = before + seq![Leaf::Count(tag, repetitions)] + behind;
    assert forall|i: int| 0 <= i < new_leaves.len() implies leaf_agrees(
        #[trigger] new_leaves[i],
        tokens[i],
    ) by {
        assert(leaf_agrees(old_leaves[i], tokens[i]));
    }
}

/// One step keeps the leaves in agreement with the tokens.
proof fn lemma_step_leaves(
    e: Engine,
    tokens: Seq<(i32, Seq<char>)>,
    pos: int,
)
    requires
        e.wf(),
        0 <= pos < tokens.len(),
        agrees(state_leaves(e), tokens.take(pos)),
    ensures
        e.step(tags_of(tokens), pos, tokens[pos].1).wf(),
        agrees(state_leaves(e.step(tags_of(tokens), pos, tokens[pos].1)), tokens.take(pos + 1)),
{
    let tags = tags_of(tokens);
    let tag = tags[pos];
    let value = tokens[pos].1;
    let seen = tokens.take(pos);
    let closed = e.close_foreign(tag, tags, pos + 1);
    lemma_close_foreign_leaves(e, tag, tags, pos + 1);
    let opened = closed.open_if_repeated(tag);
    match closed.group_start(tag) {
        Some(first) => {
            let count_field = closed.current()[first - 1];
            let repetitions = declared_count(count_field)->0;
            lemma_open_leaves(closed, tag, first, repetitions);
            lemma_agrees_count(
                before_count(closed, first as int),
                all_leaves(closed.current().subrange(first as int, closed.current().len() as int)),
                entity_tag(count_field),
                count_field->Field_1,
                repetitions,
                seen,
            );
        },
        None => {},
    }
    lemma_place_leaves(opened, tag, value);
    assert(agrees(state_leaves(opened.place(tag, value)), tokens.take(pos + 1)));
}

/// After any number of tokens, the leaves of the state are what these tokens
/// ended as.
pub proof fn lemma_run_leaves(tokens: Seq<(i32, Seq<char>)>, n: nat)
    requires
        n <= tokens.len(),
    ensures
        run(tokens, n).wf(),
        agrees(state_leaves(run(tokens, n)), tokens.take(n as int)),
    decreases n,
{
    if n > 0 {
        lemma_run_leaves(tokens, (n - 1) as nat);
        lemma_step_leaves(run(tokens, (n - 1) as nat), tokens, n - 1);
    }
}

} // verus!
