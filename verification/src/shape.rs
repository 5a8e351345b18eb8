//! The shape of every group that decoding builds, and the proof that it has
//! it: a group has an instance, every instance begins with the node known
//! under the group's delimiter, and the group knows the tag of every node of
//! its instances.

use crate::engine::{belongs, lemma_with_current, run, tags_of, Engine};
use crate::tokenizer::END_TAG;
use crate::tree::{component_tags, entity_tag, entity_tags, new_group, Entity, Group};
use vstd::prelude::*;

verus! {

/// Whether the component begins with the node known under `delimiter`.
pub open spec fn begun(c: Seq<Entity>, delimiter: i32) -> bool {
    c.len() >= 1 && entity_tag(c[0]) == delimiter
}

/// Whether a node is well formed: a field is; a group is where it has an
/// instance, every instance begins with the node known under the group's
/// delimiter, the group knows the tag of every node of its instances, and
/// these nodes are well formed.
pub open spec fn shaped(e: Entity) -> bool
    decreases e,
{
    match e {
        Entity::Field(_, _) => true,
        Entity::Group(group) => {
            &&& group.instances.len() >= 1
            &&& forall|k: int|
                0 <= k < group.instances.len() ==> begun(
                    #[trigger] group.instances[k],
                    group.delimiter,
                )
            &&& forall|k: int, i: int|
                0 <= k < group.instances.len() && 0 <= i < group.instances[k].len()
                    ==> group.known.contains(entity_tag(#[trigger] group.instances[k][i]))
                    && shaped(group.instances[k][i])
        },
    }
}

/// Whether every node of the component is well formed.
pub open spec fn all_shaped(c: Seq<Entity>) -> bool {
    forall|i: int| 0 <= i < c.len() ==> shaped(#[trigger] c[i])
}

/// Whether every node of the component is well formed and known by its tag.
pub open spec fn filled(c: Seq<Entity>, known: Set<i32>) -> bool {
    forall|i: int| 0 <= i < c.len() ==> known.contains(entity_tag(#[trigger] c[i])) && shaped(c[i])
}

/// Whether a group that is open is well formed so far: all is as in a
/// finished group, but for the beginning of its last instance.
pub open spec fn open_shaped(group: Group) -> bool {
    &&& group.instances.len() >= 1
    &&& forall|k: int|
        0 <= k < group.instances.len() - 1 ==> begun(#[trigger] group.instances[k], group.delimiter)
    &&& forall|k: int|
        0 <= k < group.instances.len() ==> filled(#[trigger] group.instances[k], group.known)
}

/// Whether the open group at level `k` and the one inside it fit: the outer
/// one knows the count tag of the inner one, and its last instance has
/// begun, or is empty and will begin with the inner group.
pub open spec fn linked(outer: Group, inner: Group) -> bool {
    &&& outer.known.contains(inner.count_tag)
    &&& begun(outer.instances.last(), outer.delimiter) || (outer.instances.last().len() == 0
        && inner.count_tag == outer.delimiter)
}

/// What holds of the state of the inference after every token.
pub open spec fn state_shaped(e: Engine) -> bool {
    &&& e.wf()
    &&& all_shaped(e.root)
    &&& forall|k: int| 0 <= k < e.groups.len() ==> open_shaped(#[trigger] e.groups[k])
    &&& forall|k: int| 0 <= k < e.groups.len() - 1 ==> linked(#[trigger] e.groups[k], e.groups[k + 1])
    &&& e.parsing_group() ==> begun(e.groups.last().instances.last(), e.groups.last().delimiter)
}

/// An open group whose last instance has begun is well formed as a node.
proof fn lemma_finished(group: Group)
    requires
        open_shaped(group),
        begun(group.instances.last(), group.delimiter),
    ensures
        shaped(Entity::Group(group)),
{
    assert forall|k: int| 0 <= k < group.instances.len() implies begun(
        #[trigger] group.instances[k],
        group.delimiter,
    ) by {
        if k == group.instances.len() - 1 {
            assert(group.instances[k] == group.instances.last());
        }
    }
    assert forall|k: int, i: int|
        0 <= k < group.instances.len() && 0 <= i < group.instances[k].len()
            implies group.known.contains(entity_tag(#[trigger] group.instances[k][i])) && shaped(
        group.instances[k][i],
    ) by {
        assert(filled(group.instances[k], group.known));
    }
}

/// Closing the innermost open group keeps the state well formed.
proof fn lemma_close_shaped(e: Engine)
    requires
        state_shaped(e),
        e.parsing_group(),
    ensures
        state_shaped(e.close()),
{
    let n = e.groups.len() as int;
    let group = e.groups.last();
    let node = Entity::Group(group);
    assert(open_shaped(e.groups[n - 1]));
    lemma_finished(group);
    let popped = Engine {
        root: e.root,
        groups: e.groups.drop_last(),
        trackers: e.trackers.drop_last(),
    };
    assert forall|i: int| 0 <= i < popped.groups.len() implies (
    #[trigger] popped.groups[i]).instances.len() >= 1 by {
        assert(popped.groups[i] == e.groups[i]);
    }
    let c = popped.current().push(node);
    let after = e.close();
    lemma_with_current(popped, c);
    if n == 1 {
        assert forall|i: int| 0 <= i < after.root.len() implies shaped(#[trigger] after.root[i]) by {
            if i < e.root.len() {
                assert(after.root[i] == e.root[i]);
            }
        }
    } else {
        let parent = e.groups[n - 2];
        let m = parent.instances.len() as int;
        assert(open_shaped(parent));
        assert(linked(e.groups[n - 2], e.groups[n - 2 + 1]));
        let grown = after.groups[n - 2];
        assert(grown == after.groups.last());
        assert(popped.groups.last() == parent);
        assert(c == parent.instances[m - 1].push(node));
        assert(filled(parent.instances[m - 1], parent.known));
        assert forall|k: int| 0 <= k < grown.instances.len() implies filled(
            #[trigger] grown.instances[k],
            grown.known,
        ) by {
            if k < m - 1 {
                assert(grown.instances[k] == parent.instances[k]);
                assert(filled(parent.instances[k], parent.known));
            } else {
                assert forall|i: int| 0 <= i < c.len() implies grown.known.contains(
                    entity_tag(#[trigger] c[i]),
                ) && shaped(c[i]) by {
                    if i < c.len() - 1 {
                        assert(c[i] == parent.instances[m - 1][i]);
                    }
                }
            }
        }
        assert forall|k: int| 0 <= k < grown.instances.len() - 1 implies begun(
            #[trigger] grown.instances[k],
            grown.delimiter,
        ) by {
            assert(grown.instances[k] == parent.instances[k]);
        }
        assert(begun(c, grown.delimiter)) by {
            if parent.instances[m - 1].len() > 0 {
                assert(c[0] == parent.instances[m - 1][0]);
            }
        }
        assert forall|k: int| 0 <= k < after.groups.len() implies open_shaped(
            #[trigger] after.groups[k],
        ) by {
            if k < n - 2 {
                assert(after.groups[k] == e.groups[k]);
            }
        }
        assert forall|k: int| 0 <= k < after.groups.len() - 1 implies linked(
            #[trigger] after.groups[k],
            after.groups[k + 1],
        ) by {
            assert(after.groups[k] == e.groups[k]);
            assert(linked(e.groups[k], e.groups[k + 1]));
            if k + 1 < n - 2 {
                assert(after.groups[k + 1] == e.groups[k + 1]);
            }
        }
    }
}

/// Closing the groups that a tag does not belong to keeps the state well
/// formed.
proof fn lemma_close_foreign_shaped(e: Engine, tag: i32, tags: Seq<i32>, after: int)
    requires
        state_shaped(e),
    ensures
        state_shaped(e.close_foreign(tag, tags, after)),
    decreases e.groups.len(),
{
    if e.parsing_group() && (tag == END_TAG || !belongs(e.groups.last(), tag, tags, after)) {
        lemma_close_shaped(e);
        lemma_close_foreign_shaped(e.close(), tag, tags, after);
    }
}

/// A group knows the tag of every node of the instance that it formed from.
proof fn lemma_component_tags(c: Seq<Entity>)
    ensures
        forall|i: int| 0 <= i < c.len() ==> component_tags(c).contains(entity_tag(#[trigger] c[i])),
{
    assert forall|i: int| 0 <= i < c.len() implies component_tags(c).contains(
        entity_tag(#[trigger] c[i]),
    ) by {
        assert(entity_tags(c[i]).contains(entity_tag(c[i])));
    }
}

/// Opening a group keeps the state well formed.
proof fn lemma_open_shaped(e: Engine, tag: i32, first: usize)
    requires
        state_shaped(e),
        e.group_start(tag) == Some(first),
    ensures
        state_shaped(e.open(tag, first)),
{
    let n = e.groups.len() as int;
    let c = e.current();
    let j = first as int;
    let head = c.subrange(0, j - 1);
    let span = c.subrange(j, c.len() as int);
    let shortened = e.with_current(head);
    let group = new_group(c, j, tag);
    let after = e.open(tag, first);
    lemma_with_current(e, head);
    lemma_component_tags(span);
    assert(after.groups.len() == n + 1);
    assert(after.groups[n] == group);
    assert(after.groups.last() == group);
    assert forall|k: int| 0 <= k < n implies #[trigger] after.groups[k] == shortened.groups[k] by {}
    // the nodes of the component that is being filled are well formed
    assert(forall|i: int| 0 <= i < c.len() ==> shaped(#[trigger] c[i])) by {
        if e.parsing_group() {
            assert(open_shaped(e.groups[n - 1]));
            assert(filled(e.groups[n - 1].instances[e.groups[n - 1].instances.len() - 1], e.groups[n - 1].known));
        }
    }
    // the new group
    assert(group.instances[0] == span);
    assert(span[0] == c[j]);
    assert(begun(group.instances.last(), group.delimiter));
    assert(filled(span, group.known)) by {
        assert forall|i: int| 0 <= i < span.len() implies group.known.contains(
            entity_tag(#[trigger] span[i]),
        ) && shaped(span[i]) by {
            assert(span[i] == c[j + i]);
        }
    }
    assert(open_shaped(group)) by {
        assert forall|k: int| 0 <= k < group.instances.len() implies filled(
            #[trigger] group.instances[k],
            group.known,
        ) by {
            assert(group.instances[k] == span);
        }
    }
    if e.parsing_group() {
        let parent = e.groups[n - 1];
        let m = parent.instances.len() as int;
        let cut = shortened.groups[n - 1];
        assert(open_shaped(parent));
        assert(c == parent.instances[m - 1]);
        assert(filled(parent.instances[m - 1], parent.known));
        assert(cut == shortened.groups.last());
        assert(cut.instances[m - 1] == head);
        assert forall|k: int| 0 <= k < cut.instances.len() implies filled(
            #[trigger] cut.instances[k],
            cut.known,
        ) by {
            if k < m - 1 {
                assert(cut.instances[k] == parent.instances[k]);
                assert(filled(parent.instances[k], parent.known));
            } else {
                assert forall|i: int| 0 <= i < head.len() implies cut.known.contains(
                    entity_tag(#[trigger] head[i]),
                ) && shaped(head[i]) by {
                    assert(head[i] == c[i]);
                }
            }
        }
        assert forall|k: int| 0 <= k < cut.instances.len() - 1 implies begun(
            #[trigger] cut.instances[k],
            cut.delimiter,
        ) by {
            assert(cut.instances[k] == parent.instances[k]);
        }
        assert(open_shaped(cut));
        assert(linked(cut, group)) by {
            assert(group.count_tag == entity_tag(c[j - 1]));
            assert(parent.known.contains(entity_tag(c[j - 1])));
            if head.len() > 0 {
                assert(head[0] == c[0]);
            }
        }
        assert forall|k: int| 0 <= k < after.groups.len() implies open_shaped(
            #[trigger] after.groups[k],
        ) by {
            if k < n - 1 {
                assert(after.groups[k] == e.groups[k]);
            }
        }
        assert forall|k: int| 0 <= k < after.groups.len() - 1 implies linked(
            #[trigger] after.groups[k],
            after.groups[k + 1],
        ) by {
            if k < n - 1 {
                assert(after.groups[k] == e.groups[k]);
                assert(linked(e.groups[k], e.groups[k + 1]));
                if k + 1 < n - 1 {
                    assert(after.groups[k + 1] == e.groups[k + 1]);
                }
            }
        }
    } else {
        assert forall|i: int| 0 <= i < after.root.len() implies shaped(#[trigger] after.root[i]) by {
            assert(after.root[i] == c[i]);
        }
    }
}

/// Placing a field keeps the state well formed.
proof fn lemma_place_shaped(e: Engine, tag: i32, value: Seq<char>)
    requires
        state_shaped(e),
    ensures
        state_shaped(e.place(tag, value)),
{
    let n = e.groups.len() as int;
    let field = Entity::Field(tag, value);
    let after = e.place(tag, value);
    if e.parsing_group() {
        let group = e.groups[n - 1];
        let m = group.instances.len() as int;
        let known = group.known.insert(tag);
        let learned = e.learn(tag);
        assert(open_shaped(group));
        let ready = if learned.new_iteration(tag) {
            learned.next_instance()
        } else {
            learned.register(tag)
        };
        assert(ready.wf()) by {
            assert forall|i: int| 0 <= i < ready.groups.len() implies (
            #[trigger] ready.groups[i]).instances.len() >= 1 by {
                if i != n - 1 {
                    assert(ready.groups[i] == e.groups[i]);
                }
            }
        }
        let c = ready.current().push(field);
        lemma_with_current(ready, c);
        let grown = after.groups[n - 1];
        assert(grown == after.groups.last());
        assert(grown.known == known);
        assert(grown.delimiter == group.delimiter);
        assert(grown.count_tag == group.count_tag);
        assert forall|k: int| 0 <= k < grown.instances.len() implies filled(
            #[trigger] grown.instances[k],
            grown.known,
        ) by {
            if k < m {
                assert(filled(group.instances[k], group.known));
            }
            if k == grown.instances.len() - 1 {
                assert(grown.instances[k] == c);
                assert forall|i: int| 0 <= i < c.len() implies grown.known.contains(
                    entity_tag(#[trigger] c[i]),
                ) && shaped(c[i]) by {
                    if i < c.len() - 1 {
                        assert(c[i] == group.instances[m - 1][i]);
                    }
                }
            } else {
                assert(grown.instances[k] == group.instances[k]);
            }
        }
        assert forall|k: int| 0 <= k < grown.instances.len() - 1 implies begun(
            #[trigger] grown.instances[k],
            grown.delimiter,
        ) by {
            assert(grown.instances[k] == group.instances[k]);
            if k == m - 1 {
                assert(group.instances[k] == group.instances.last());
            }
        }
        assert(begun(grown.instances.last(), grown.delimiter)) by {
            if !learned.new_iteration(tag) {
                assert(c[0] == group.instances[m - 1][0]);
            }
        }
        assert forall|k: int| 0 <= k < after.groups.len() implies open_shaped(
            #[trigger] after.groups[k],
        ) by {
            if k < n - 1 {
                assert(after.groups[k] == e.groups[k]);
            }
        }
        assert forall|k: int| 0 <= k < after.groups.len() - 1 implies linked(
            #[trigger] after.groups[k],
            after.groups[k + 1],
        ) by {
            assert(after.groups[k] == e.groups[k]);
            assert(linked(e.groups[k], e.groups[k + 1]));
            if k + 1 < n - 1 {
                assert(after.groups[k + 1] == e.groups[k + 1]);
            }
        }
        assert(after.root == e.root);
    } else {
        let ready = e.register(tag);
        lemma_with_current(ready, ready.current().push(field));
        assert forall|i: int| 0 <= i < after.root.len() implies shaped(#[trigger] after.root[i]) by {
            if i < e.root.len() {
                assert(after.root[i] == e.root[i]);
            }
        }
    }
}

/// After any number of tokens the state is well formed.
pub proof fn lemma_run_shaped(tokens: Seq<(i32, Seq<char>)>, n: nat)
    requires
        n <= tokens.len(),
    ensures
        state_shaped(run(tokens, n)),
    decreases n,
{
    if n > 0 {
        let before = run(tokens, (n - 1) as nat);
        let tags = tags_of(tokens);
        let tag = tags[n - 1];
        lemma_run_shaped(tokens, (n - 1) as nat);
        lemma_close_foreign_shaped(before, tag, tags, n as int);
        let closed = before.close_foreign(tag, tags, n as int);
        match closed.group_start(tag) {
            Some(first) => {
                lemma_open_shaped(closed, tag, first);
            },
            None => {},
        }
        lemma_place_shaped(closed.open_if_repeated(tag), tag, tokens[n - 1].1);
    }
}

} // verus!
