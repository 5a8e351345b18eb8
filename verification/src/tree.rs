//! The ordered tree that a message decodes to: fields, and repeating groups
//! whose instances are trees of their own.

use crate::text::{parse_i32, parse_int, to_chars};
use std::collections::HashSet;
use vstd::prelude::*;

verus! {

broadcast use vstd::std_specs::hash::group_hash_axioms;

/// A node of the tree as a mathematical value.
pub enum Entity {
    /// A leaf: a tag and its raw text.
    Field(i32, Seq<char>),
    /// A repeating group.
    Group(Group),
}

/// A repeating group as a mathematical value.
///
/// The iteration that the group is in is not stored: it is always the number
/// of its instances.
pub struct Group {
    /// The tag of the field that declared how often the group repeats.
    pub count_tag: i32,
    /// The tag with which every instance begins.
    pub delimiter: i32,
    /// The number of repetitions that the count field declared.
    pub repetitions: i32,
    /// Every tag known to belong to the group.
    pub known: Set<i32>,
    /// The instances, oldest first.
    pub instances: Seq<Seq<Entity>>,
}

/// The tag under which a node is known: a field's own tag, a group's count
/// tag.
pub open spec fn entity_tag(e: Entity) -> i32 {
    match e {
        Entity::Field(tag, _) => tag,
        Entity::Group(group) => group.count_tag,
    }
}

/// The number of repetitions that a node declares when it is taken as a count
/// field: the integer that a field's value writes. A group declares none.
pub open spec fn declared_count(e: Entity) -> Option<i32> {
    match e {
        Entity::Field(_, value) => match parse_int(value) {
            Some(count) => Some(count as i32),
            None => None,
        },
        Entity::Group(_) => None,
    }
}

/// The tags that a node brings into a group that takes it in: a field its
/// tag, a group its count tag and every tag that it knows.
pub open spec fn entity_tags(e: Entity) -> Set<i32> {
    match e {
        Entity::Field(tag, _) => set![tag],
        Entity::Group(group) => group.known.insert(group.count_tag),
    }
}

/// Every tag that the nodes of `c` bring.
pub open spec fn component_tags(c: Seq<Entity>) -> Set<i32> {
    Set::new(
        |tag: i32| exists|i: int| 0 <= i < c.len() && #[trigger] entity_tags(c[i]).contains(tag),
    )
}

/// The group that forms when the nodes of `c` from index `first` on become
/// its first instance: the node before them is its count field, which gives
/// the count tag and declares the repetitions, `delimiter` is its delimiter,
/// and it knows the tags of that instance.
pub open spec fn new_group(c: Seq<Entity>, first: int, delimiter: i32) -> Group {
    Group {
        count_tag: entity_tag(c[first - 1]),
        delimiter,
        repetitions: match declared_count(c[first - 1]) {
            Some(repetitions) => repetitions,
            None => 0,
        },
        known: component_tags(c.subrange(first, c.len() as int)),
        instances: seq![c.subrange(first, c.len() as int)],
    }
}

/// The tags of `c` with one more node are those of `c` and those of the node.
proof fn lemma_component_tags_push(c: Seq<Entity>, e: Entity)
    ensures
        component_tags(c.push(e)) == component_tags(c).union(entity_tags(e)),
{
    let longer = c.push(e);
    assert forall|tag: i32| component_tags(longer).contains(tag) <==> component_tags(c).union(
        entity_tags(e),
    ).contains(tag) by {
        if component_tags(longer).contains(tag) {
            let i = choose|i: int|
                0 <= i < longer.len() && #[trigger] entity_tags(longer[i]).contains(tag);
        }
        if component_tags(c).contains(tag) {
            let i = choose|i: int| 0 <= i < c.len() && #[trigger] entity_tags(c[i]).contains(tag);
            assert(entity_tags(longer[i]).contains(tag));
        }
        if entity_tags(e).contains(tag) {
            assert(entity_tags(longer[c.len() as int]).contains(tag));
        }
    }
}

/// One node of a decoded message.
pub enum FixEntity {
    /// A field: its tag and its text.
    Field(i32, String),
    /// A repeating group.
    Group(FixGroup),
}

/// One scope of a decoded message: the whole message, or one instance of a
/// repeating group.
pub struct FixComponent {
    /// The nodes, in the order of the message.
    pub entities: Vec<FixEntity>,
}

/// A repeating group.
pub struct FixGroup {
    /// The first tag of each instance.
    pub delimiter: i32,
    /// The tag of the field that holds the number of repetitions.
    pub no_tag: i32,
    /// The number of repetitions that this field declared.
    pub repetitions: i32,
    /// The tags that are known to belong to the group.
    pub known_tags: HashSet<i32>,
    /// The instances, oldest first; never empty.
    pub instances: Vec<FixComponent>,
}

impl FixEntity {
    /// The node as a mathematical value.
    pub open spec fn view(&self) -> Entity
        decreases self,
    {
        match self {
            FixEntity::Field(tag, value) => Entity::Field(*tag, value@),
            FixEntity::Group(group) => Entity::Group(group.view()),
        }
    }
}

impl FixComponent {
    /// The nodes as mathematical values, in order.
    pub open spec fn view(&self) -> Seq<Entity>
        decreases self,
    {
        Seq::new(
            self.entities.len() as nat,
            |i: int|
                if 0 <= i < self.entities.len() {
                    self.entities[i].view()
                } else {
                    arbitrary()
                },
        )
    }
}

impl FixGroup {
    /// The group as a mathematical value: the tags that it knows as a set,
    /// its instances as sequences of nodes.
    pub open spec fn view(&self) -> Group
        decreases self,
    {
        Group {
            count_tag: self.no_tag,
            delimiter: self.delimiter,
            repetitions: self.repetitions,
            known: self.known_tags@,
            instances: Seq::new(
                self.instances.len() as nat,
                |i: int|
                    if 0 <= i < self.instances.len() {
                        self.instances[i].view()
                    } else {
                        arbitrary()
                    },
            ),
        }
    }
}

impl FixEntity {
    /// The tag under which this node is known.
    pub fn get_tag(&self) -> (r: i32)
        ensures
            r == entity_tag(self@),
    {
        match self {
            FixEntity::Field(tag, _dummy) => *tag,
            FixEntity::Group(group) => group.no_tag,
        }
    }

    /// The number of repetitions that this node declares as a count field,
    /// if it declares one.
    pub fn get_field_value_i32(&self) -> (r: Option<i32>)
        ensures
            r == declared_count(self@),
    {
        match self {
            FixEntity::Field(_dummy, value) => {
                let chars = to_chars(value.as_str());
                assert(chars@.subrange(0, chars.len() as int) =~= value@);
                parse_i32(&chars, 0, chars.len())
            },
            FixEntity::Group(_) => None,
        }
    }
}

impl FixComponent {
    /// The component with the given nodes.
    pub fn new(entities: Vec<FixEntity>) -> (r: Self)
        ensures
            r.entities == entities,
    {
        Self { entities }
    }
}

impl FixGroup {
    /// The group holds an instance.
    pub open spec fn wf(&self) -> bool {
        self.instances.len() >= 1
    }

    /// The iteration that the group is in: the number of its instances, which
    /// is 1 when the group forms and grows by one with every instance.
    pub fn current_iteration(&self) -> (r: usize)
        ensures
            r == self@.instances.len(),
    {
        self.instances.len()
    }

    /// Forms a group out of the nodes of `component` from
    /// `index_first_delimiter` on, which become its first instance. The node
    /// before them, the count field, leaves the component too.
    pub fn new(delimiter: i32, index_first_delimiter: usize, component: &mut FixComponent) -> (r:
        Self)
        requires
            1 <= index_first_delimiter <= old(component).entities.len(),
            declared_count(old(component)@[index_first_delimiter - 1]) is Some,
        ensures
            r.wf(),
            r@ == new_group(old(component)@, index_first_delimiter as int, delimiter),
            final(component)@ == old(component)@.subrange(0, index_first_delimiter - 1),
    {
        let no_tag_field = &component.entities[index_first_delimiter - 1];
        let no_tag = no_tag_field.get_tag();
        let repetitions = no_tag_field.get_field_value_i32().unwrap();
        let group_instance = FixComponent::new(component.entities.split_off(index_first_delimiter));
        component.entities.truncate(index_first_delimiter - 1);
        let known_tags = Self::get_known_tags(&group_instance);
        let mut instances: Vec<FixComponent> = Vec::new();
        instances.push(group_instance);
        let group = Self {
            no_tag,
            delimiter,
            repetitions,
            known_tags,
            instances,
        };
        proof {
            let before = old(component)@;
            let first = index_first_delimiter as int;
            assert(group_instance@ =~= before.subrange(first, before.len() as int));
            assert(group@.instances =~= seq![before.subrange(first, before.len() as int)]);
        }
        group
    }

    /// Collects the tags that the nodes of a first instance bring.
    pub fn get_known_tags(group_instance: &FixComponent) -> (r: HashSet<i32>)
        ensures
            r@ == component_tags(group_instance@),
    {
        let mut known_tags = HashSet::<i32>::new();
        let n = group_instance.entities.len();
        let mut i: usize = 0;
        while i < n
            invariant
                i <= n,
                n == group_instance.entities.len(),
                known_tags@ == component_tags(group_instance@.take(i as int)),
            decreases n - i,
        {
            let ghost before = known_tags@;
            let ghost entity = group_instance@[i as int];
            match &group_instance.entities[i] {
                FixEntity::Field(tag, _value) => {
                    known_tags.insert(*tag);
                },
                FixEntity::Group(group) => {
                    for known_tag in it: group.known_tags.iter()
                        invariant
                            it.seq().unref().to_set() == group.known_tags@,
                            before.subset_of(known_tags@),
                            known_tags@.subset_of(before.union(group.known_tags@)),
                            forall|j: int|
                                0 <= j < it.index() ==> known_tags@.contains(
                                    *(#[trigger] it.seq()[j]),
                                ),
                    {
                        known_tags.insert(*known_tag);
                    }
                    known_tags.insert(group.no_tag);
                },
            }
            proof {
                lemma_component_tags_push(group_instance@.take(i as int), entity);
                assert(group_instance@.take(i + 1) =~= group_instance@.take(i as int).push(entity));
            }
            i += 1;
        }
        assert(group_instance@.take(n as int) =~= group_instance@);
        known_tags
    }

    /// Begins a new, empty instance: the group is in its next iteration.
    pub fn create_new_instance(&mut self)
        requires
            old(self).wf(),
        ensures
            final(self).wf(),
            final(self)@ == (Group {
                instances: old(self)@.instances.push(Seq::empty()),
                ..old(self)@
            }),
    {
        self.instances.push(FixComponent::new(Vec::new()));
        proof {
            let last = old(self).instances.len() as int;
            assert(self.instances[last]@ =~= Seq::<Entity>::empty());
            assert(self@.instances =~= old(self)@.instances.push(Seq::empty()));
        }
    }

    /// Takes `tag` among the tags that the group knows.
    pub fn insert_known_tag(&mut self, tag: i32)
        ensures
            final(self)@ == (Group { known: old(self)@.known.insert(tag), ..old(self)@ }),
            final(self).wf() == old(self).wf(),
    {
        self.known_tags.insert(tag);
    }
}

} // verus!
