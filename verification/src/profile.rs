//! A profile of nested spans: which ran within which, for how long, with what fields.
//!
//! The collector is told what happens to spans, with the time in nanoseconds where it matters,
//! and gives their trees.
use crate::text::{number, parse_number};
use std::collections::HashMap;
use vstd::prelude::*;

verus! {

/// Named values, at most one of a name.
pub type Fields = Vec<(String, String)>;

/// A span with the spans that ran within it.
#[derive(Debug)]
pub struct ProfileSpan {
    pub name: String,
    pub dur_ns: u64,
    pub device: String,
    pub count: usize,
    pub meta: Fields,
    pub children: Vec<ProfileSpan>,
}

struct SpanNode {
    name: String,
    dur_ns: u64,
    start: Option<u128>,
    device: String,
    count: usize,
    meta: Fields,
    children: Vec<u64>,
    /// How many spans were told of before this one.
    age: Ghost<nat>,
}

/// What is known of a span.
pub struct NodeView {
    pub name: Seq<char>,
    pub dur_ns: u64,
    /// When it was entered, while it is.
    pub start: Option<u128>,
    pub device: Seq<char>,
    pub count: usize,
    pub meta: Map<Seq<char>, Seq<char>>,
    /// The spans within it, in the order of their start.
    pub children: Seq<u64>,
}

/// The collector.
pub struct CollectorState {
    spans: HashMap<u64, SpanNode>,
    roots: Vec<u64>,
    told: Ghost<nat>,
}

// ---------------------------------------------------------------------------
// Fields
// ---------------------------------------------------------------------------

/// The values by name; where a name occurs twice, the last one counts.
pub open spec fn fields_map(fields: Seq<(String, String)>) -> Map<Seq<char>, Seq<char>>
    decreases fields.len(),
{
    if fields.len() == 0 {
        Map::empty()
    } else {
        fields_map(fields.drop_last()).insert(fields.last().0@, fields.last().1@)
    }
}

/// No name occurs twice.
pub open spec fn unique_names(fields: Seq<(String, String)>) -> bool {
    forall|i: int, j: int|
        0 <= i < j < fields.len() ==> (#[trigger] fields[i]).0@ != (#[trigger] fields[j]).0@
}

/// A name that occurs has the value beside it, if it occurs once.
proof fn lemma_field_value(fields: Seq<(String, String)>, i: int)
    requires
        unique_names(fields),
        0 <= i < fields.len(),
    ensures
        fields_map(fields).contains_key(fields[i].0@),
        fields_map(fields)[fields[i].0@] == fields[i].1@,
    decreases fields.len(),
{
    let front = fields.drop_last();
    if i < fields.len() - 1 {
        lemma_field_value(front, i);
        assert(fields[i].0@ != fields.last().0@);
    }
}

/// A name that does not occur has no value.
proof fn lemma_field_absent(fields: Seq<(String, String)>, name: Seq<char>)
    requires
        forall|i: int| 0 <= i < fields.len() ==> (#[trigger] fields[i]).0@ != name,
    ensures
        !fields_map(fields).contains_key(name),
    decreases fields.len(),
{
    if fields.len() > 0 {
        lemma_field_absent(fields.drop_last(), name);
    }
}

/// Two lists with the same names and values hold the same.
proof fn lemma_same_fields(a: Seq<(String, String)>, b: Seq<(String, String)>)
    requires
        a.len() == b.len(),
        forall|i: int|
            0 <= i < a.len() ==> (#[trigger] a[i]).0@ == (#[trigger] b[i]).0@ && a[i].1@ == b[i].1@,
    ensures
        fields_map(a) == fields_map(b),
    decreases a.len(),
{
    if a.len() > 0 {
        lemma_same_fields(a.drop_last(), b.drop_last());
        assert(a.last().0@ == b.last().0@ && a.last().1@ == b.last().1@);
    }
}

/// The same fields once more.
fn copy_fields(fields: &Fields) -> (copy: Fields)
    requires
        unique_names(fields@),
    ensures
        fields_map(copy@) == fields_map(fields@),
        unique_names(copy@),
{
    let mut copy: Fields = Vec::with_capacity(fields.len());
    let mut i: usize = 0;
    while i < fields.len()
        invariant
            i <= fields@.len(),
            copy@.len() == i,
            forall|j: int|
                0 <= j < i ==> (#[trigger] copy@[j]).0@ == fields@[j].0@ && copy@[j].1@
                    == fields@[j].1@,
        decreases fields@.len() - i,
    {
        let name: String = fields[i].0.clone();
        let value: String = fields[i].1.clone();
        copy.push((name, value));
        i += 1;
    }
    proof {
        lemma_same_fields(copy@, fields@);
        assert forall|a: int, b: int| 0 <= a < b < copy@.len() implies (#[trigger] copy@[a]).0@ != (
        #[trigger] copy@[b]).0@ by {
            assert(fields@[a].0@ != fields@[b].0@);
        }
    }
    copy
}

/// All but entry `at`, with the value of that entry.
fn take_entry(fields: Fields, at: usize) -> (r: (Fields, String))
    requires
        unique_names(fields@),
        at < fields@.len(),
    ensures
        unique_names(r.0@),
        fields_map(r.0@) == fields_map(fields@).remove(fields@[at as int].0@),
        r.1@ == fields_map(fields@)[fields@[at as int].0@],
{
    let mut rest: Fields = Vec::with_capacity(fields.len());
    let value: String = fields[at].1.clone();
    let ghost gone = fields@[at as int].0@;
    let mut i: usize = 0;
    while i < fields.len()
        invariant
            i <= fields@.len(),
            at < fields@.len(),
            gone == fields@[at as int].0@,
            unique_names(fields@),
            unique_names(rest@),
            fields_map(rest@) == fields_map(fields@.take(i as int)).remove(gone),
            forall|j: int|
                0 <= j < rest@.len() ==> exists|k: int|
                    0 <= k < i && (#[trigger] rest@[j]).0@ == (#[trigger] fields@[k]).0@,
        decreases fields@.len() - i,
    {
        let ghost before = rest@;
        let ghost front = fields@.take(i as int);
        let ghost (name, val) = (fields@[i as int].0@, fields@[i as int].1@);
        assert(fields@.take(i + 1).drop_last() =~= front);
        assert(fields@.take(i + 1).last() == fields@[i as int]);
        if i != at {
            let n: String = fields[i].0.clone();
            let v: String = fields[i].1.clone();
            rest.push((n, v));
            proof {
                assert(rest@.drop_last() =~= before);
                assert(name != gone);
                assert(fields_map(rest@) =~= fields_map(fields@.take(i + 1)).remove(gone));
                assert forall|a: int, b: int| 0 <= a < b < rest@.len() implies (
                #[trigger] rest@[a]).0@ != (#[trigger] rest@[b]).0@ by {
                    if b == before.len() {
                        assert(before[a] == rest@[a]);
                        let k = choose|k: int|
                            0 <= k < i && before[a].0@ == (#[trigger] fields@[k]).0@;
                        assert(fields@[k].0@ != fields@[i as int].0@);
                    } else {
                        assert(before[a].0@ != before[b].0@);
                    }
                }
            }
        } else {
            proof {
                assert(fields_map(fields@.take(i + 1)).remove(gone) =~= fields_map(front).remove(
                    gone,
                ));
            }
        }
        assert forall|j: int| 0 <= j < rest@.len() implies exists|k: int|
            0 <= k < i + 1 && (#[trigger] rest@[j]).0@ == (#[trigger] fields@[k]).0@ by {
            if j < before.len() {
                assert(before[j] == rest@[j]);
                let k = choose|k: int| 0 <= k < i && before[j].0@ == (#[trigger] fields@[k]).0@;
                assert(fields@[k].0@ == rest@[j].0@);
            } else {
                assert(fields@[i as int].0@ == rest@[j].0@);
            }
        }
        i += 1;
    }
    assert(fields@.take(i as int) =~= fields@);
    proof {
        lemma_field_value(fields@, at as int);
    }
    (rest, value)
}

/// Where `name` stands.
fn place_of(fields: &Fields, name: &String) -> (place: Option<usize>)
    ensures
        match place {
            Some(i) => i < fields@.len() && fields@[i as int].0@ == name@,
            None => forall|i: int| 0 <= i < fields@.len() ==> (#[trigger] fields@[i]).0@ != name@,
        },
{
    let mut i: usize = 0;
    while i < fields.len()
        invariant
            i <= fields@.len(),
            forall|j: int| 0 <= j < i ==> (#[trigger] fields@[j]).0@ != name@,
        decreases fields@.len() - i,
    {
        if fields[i].0 == *name {
            return Some(i);
        }
        i += 1;
    }
    None
}

/// Takes the value of `name` out of the fields, where it has one.
fn take_field(fields: Fields, name: &String) -> (r: (Fields, Option<String>))
    requires
        unique_names(fields@),
    ensures
        unique_names(r.0@),
        fields_map(r.0@) == fields_map(fields@).remove(name@),
        match r.1 {
            Some(value) => fields_map(fields@).contains_key(name@) && value@ == fields_map(
                fields@,
            )[name@],
            None => !fields_map(fields@).contains_key(name@),
        },
{
    match place_of(&fields, name) {
        Some(at) => {
            proof {
                lemma_field_value(fields@, at as int);
            }
            let (rest, value): (Fields, String) = take_entry(fields, at);
            (rest, Some(value))
        },
        None => {
            proof {
                lemma_field_absent(fields@, name@);
                assert(fields_map(fields@).remove(name@) =~= fields_map(fields@));
            }
            (fields, None)
        },
    }
}

/// The fields with `more` put over them.
fn put_fields(fields: Fields, more: Fields) -> (r: Fields)
    requires
        unique_names(fields@),
    ensures
        unique_names(r@),
        fields_map(r@) == fields_map(fields@).union_prefer_right(fields_map(more@)),
{
    let mut r: Fields = fields;
    let ghost first = fields_map(fields@);
    let mut i: usize = 0;
    assert(first.union_prefer_right(fields_map(more@.take(0))) =~= first);
    while i < more.len()
        invariant
            i <= more@.len(),
            unique_names(r@),
            fields_map(r@) == first.union_prefer_right(fields_map(more@.take(i as int))),
        decreases more@.len() - i,
    {
        let name: String = more[i].0.clone();
        let value: String = more[i].1.clone();
        let ghost before = fields_map(r@);
        let (mut rest, _): (Fields, Option<String>) = take_field(r, &name);
        let ghost kept = rest@;
        rest.push((name, value));
        proof {
            assert(rest@.drop_last() =~= kept);
            assert(fields_map(rest@) =~= before.insert(name@, value@));
            assert forall|a: int, b: int| 0 <= a < b < rest@.len() implies (
            #[trigger] rest@[a]).0@ != (#[trigger] rest@[b]).0@ by {
                assert(kept[a] == rest@[a]);
                if b == kept.len() {
                    lemma_field_value(kept, a);
                } else {
                    assert(kept[a].0@ != kept[b].0@);
                }
            }
            assert(more@.take(i + 1).drop_last() =~= more@.take(i as int));
            assert(first.union_prefer_right(fields_map(more@.take(i + 1))) =~= before.insert(
                name@,
                value@,
            ));
        }
        r = rest;
        i += 1;
    }
    assert(more@.take(i as int) =~= more@);
    r
}

// ---------------------------------------------------------------------------
// Spans
// ---------------------------------------------------------------------------

impl SpanNode {
    spec fn seen(self) -> NodeView {
        NodeView {
            name: self.name@,
            dur_ns: self.dur_ns,
            start: self.start,
            device: self.device@,
            count: self.count,
            meta: fields_map(self.meta@),
            children: self.children@,
        }
    }
}

/// The device that the fields name; the processor where they name none.
pub open spec fn device_of(fields: Map<Seq<char>, Seq<char>>) -> Seq<char> {
    if fields.contains_key("device"@) {
        fields["device"@]
    } else {
        "cpu"@
    }
}

/// The count that the fields give; 1 where they give none, or something else than a number.
pub open spec fn count_of(fields: Map<Seq<char>, Seq<char>>) -> usize {
    if fields.contains_key("count"@) {
        match number(vstd::utf8::encode_utf8(fields["count"@])) {
            Some(n) => n,
            None => 1,
        }
    } else {
        1
    }
}

/// A span that has just started.
pub open spec fn fresh_node(name: Seq<char>, fields: Map<Seq<char>, Seq<char>>) -> NodeView {
    NodeView {
        name,
        dur_ns: 0,
        start: None,
        device: device_of(fields),
        count: count_of(fields),
        meta: fields.remove("device"@).remove("count"@),
        children: Seq::empty(),
    }
}

/// The tree of span `id`: what is known of it, with the trees of the spans within it, in order.
pub open spec fn is_tree(tree: ProfileSpan, nodes: Map<u64, NodeView>, id: u64) -> bool
    decreases tree,
{
    &&& nodes.contains_key(id)
    &&& tree.name@ == nodes[id].name
    &&& tree.dur_ns == nodes[id].dur_ns
    &&& tree.device@ == nodes[id].device
    &&& tree.count == nodes[id].count
    &&& fields_map(tree.meta@) == nodes[id].meta
    &&& unique_names(tree.meta@)
    &&& tree.children@.len() == nodes[id].children.len()
    &&& forall|i: int|
        0 <= i < tree.children@.len() ==> is_tree(
            #[trigger] tree.children@[i],
            nodes,
            nodes[id].children[i],
        )
}

/// The spans within a span are known, and were told of after it.
spec fn is_acyclic(spans: Map<u64, SpanNode>, told: nat) -> bool {
    &&& forall|id: u64| #[trigger]
        spans.contains_key(id) ==> spans[id].age@ < told && unique_names(spans[id].meta@)
    &&& forall|id: u64, i: int|
        spans.contains_key(id) && 0 <= i < spans[id].children@.len() ==> spans.contains_key(
            #[trigger] spans[id].children@[i],
        ) && spans[id].age@ < spans[spans[id].children@[i]].age@
}

spec fn nodes_of(spans: Map<u64, SpanNode>) -> Map<u64, NodeView> {
    spans.map_values(|node: SpanNode| node.seen())
}

/// The tree of span `id`.
fn build_tree(id: u64, spans: &HashMap<u64, SpanNode>, Ghost(told): Ghost<nat>) -> (tree: Option<
    ProfileSpan,
>)
    requires
        is_acyclic(spans@, told),
    ensures
        match tree {
            Some(t) => is_tree(t, nodes_of(spans@), id),
            None => !spans@.contains_key(id),
        },
    decreases
            (if spans@.contains_key(id) {
                told - spans@[id].age@
            } else {
                0
            }),
{
    broadcast use vstd::std_specs::hash::group_hash_axioms;

    let node: &SpanNode = match spans.get(&id) {
        Some(node) => node,
        None => {
            return None;
        },
    };
    let ghost nodes = nodes_of(spans@);
    assert(spans@[id].age@ < told);
    let mut children: Vec<ProfileSpan> = Vec::with_capacity(node.children.len());
    let mut i: usize = 0;
    while i < node.children.len()
        invariant
            i <= node.children@.len(),
            is_acyclic(spans@, told),
            spans@.contains_key(id),
            *node == spans@[id],
            nodes == nodes_of(spans@),
            children@.len() == i,
            forall|j: int|
                0 <= j < i ==> is_tree(#[trigger] children@[j], nodes, node.children@[j]),
        decreases node.children@.len() - i,
    {
        let child: u64 = node.children[i];
        assert(spans@[id].children@[i as int] == child);
        assert(spans@.contains_key(child));
        match build_tree(child, spans, Ghost(told)) {
            Some(tree) => {
                children.push(tree);
            },
            None => {},
        }
        i += 1;
    }
    let meta: Fields = copy_fields(&node.meta);
    let tree: ProfileSpan = ProfileSpan {
        name: node.name.clone(),
        dur_ns: node.dur_ns,
        device: node.device.clone(),
        count: node.count,
        meta,
        children,
    };
    assert(nodes[id] == node.seen());
    assert(is_tree(tree, nodes, id));
    Some(tree)
}

impl CollectorState {
    /// What is known of each span.
    pub closed spec fn nodes(&self) -> Map<u64, NodeView> {
        nodes_of(self.spans@)
    }

    /// The spans that ran within none that is known, in the order of their start.
    pub closed spec fn outermost(&self) -> Seq<u64> {
        self.roots@
    }

    pub closed spec fn wf(&self) -> bool {
        &&& is_acyclic(self.spans@, self.told@)
        &&& forall|i: int|
            0 <= i < self.roots@.len() ==> self.spans@.contains_key(#[trigger] self.roots@[i])
    }

    /// A collector that knows nothing.
    pub fn new() -> (state: CollectorState)
        ensures
            state.wf(),
            state.nodes() == Map::<u64, NodeView>::empty(),
            state.outermost() == Seq::<u64>::empty(),
    {
        let state: CollectorState = CollectorState {
            spans: HashMap::new(),
            roots: Vec::new(),
            told: Ghost(0),
        };
        assert(state.nodes() =~= Map::<u64, NodeView>::empty());
        state
    }

    /// A span has started, within `parent` where that is known.
    pub fn on_new_span(&mut self, id: u64, parent: Option<u64>, name: String, fields: Fields)
        requires
            old(self).wf(),
            parent != Some(id),
        ensures
            final(self).wf(),
            ({
                let node = fresh_node(name@, fields_map(fields@));
                let known = old(self).nodes().insert(id, node);
                match parent {
                    Some(p) if old(self).nodes().contains_key(p) => final(self).nodes()
                        == known.insert(
                        p,
                        NodeView { children: known[p].children.push(id), ..known[p] },
                    ) && final(self).outermost() == old(self).outermost(),
                    _ => final(self).nodes() == known && final(self).outermost() == old(
                        self,
                    ).outermost().push(id),
                }
            }),
    {
        broadcast use vstd::std_specs::hash::group_hash_axioms;

        let ghost given = fields_map(fields@);
        let nothing: Fields = Vec::new();
        let all: Fields = put_fields(nothing, fields);
        assert(Map::<Seq<char>, Seq<char>>::empty().union_prefer_right(given) =~= given);
        let device_name: String = "device".to_owned();
        let count_name: String = "count".to_owned();
        let (rest, device): (Fields, Option<String>) = take_field(all, &device_name);
        let (meta, count): (Fields, Option<String>) = take_field(rest, &count_name);
        proof {
            reveal_strlit("device");
            reveal_strlit("count");
            assert("device"@.len() == 6 && "count"@.len() == 5);
        }
        let device: String = match device {
            Some(value) => value,
            None => "cpu".to_owned(),
        };
        let count: usize = match count {
            Some(value) => match parse_number(value.as_str().as_bytes()) {
                Some(n) => n,
                None => 1,
            },
            None => 1,
        };
        let ghost before = self.spans@;
        let node: SpanNode = SpanNode {
            name,
            dur_ns: 0,
            start: None,
            device,
            count,
            meta,
            children: Vec::new(),
            age: Ghost(self.told@),
        };
        assert(node.seen() == fresh_node(name@, given));
        self.spans.insert(id, node);
        let ghost told = self.told@;
        proof {
            self.told@ = told + 1;
            lemma_inserted(before, told, id, node);
            assert(nodes_of(before.insert(id, node)) =~= nodes_of(before).insert(id, node.seen()));
        }
        if let Some(p) = parent {
            if let Some(mut above) = self.spans.remove(&p) {
                let ghost was = above;
                above.children.push(id);
                self.spans.insert(p, above);
                proof {
                    let known = before.insert(id, node);
                    assert(self.spans@ =~= known.insert(p, above));
                    assert(above.seen() == (NodeView {
                        children: was.seen().children.push(id),
                        ..was.seen()
                    }));
                    assert(nodes_of(self.spans@) =~= nodes_of(known).insert(p, above.seen()));
                    lemma_adopted(known, told + 1, p, was, above, id);
                }
                return ;
            }
            assert(self.spans@ =~= before.insert(id, node));
        }
        self.roots.push(id);
    }

    /// A span has got more fields.
    pub fn on_record(&mut self, id: u64, fields: Fields)
        requires
            old(self).wf(),
        ensures
            final(self).wf(),
            final(self).outermost() == old(self).outermost(),
            final(self).nodes() == (if old(self).nodes().contains_key(id) {
                let node = old(self).nodes()[id];
                old(self).nodes().insert(
                    id,
                    NodeView {
                        meta: node.meta.union_prefer_right(fields_map(fields@)),
                        ..node
                    },
                )
            } else {
                old(self).nodes()
            }),
    {
        broadcast use vstd::std_specs::hash::group_hash_axioms;

        let ghost before = self.spans@;
        match self.spans.remove(&id) {
            Some(node) => {
                assert(before[id].age@ < self.told@);
                let SpanNode { name, dur_ns, start, device, count, meta, children, age } = node;
                let meta: Fields = put_fields(meta, fields);
                let node: SpanNode = SpanNode {
                    name,
                    dur_ns,
                    start,
                    device,
                    count,
                    meta,
                    children,
                    age,
                };
                self.spans.insert(id, node);
                proof {
                    assert(self.spans@ =~= before.insert(id, node));
                    lemma_changed(before, self.told@, id, node);
                    assert(nodes_of(self.spans@) =~= nodes_of(before).insert(id, node.seen()));
                }
            },
            None => {
                assert(self.spans@ =~= before);
            },
        }
    }

    /// A span is entered, at `now`.
    pub fn on_enter(&mut self, id: u64, now: u128)
        requires
            old(self).wf(),
        ensures
            final(self).wf(),
            final(self).outermost() == old(self).outermost(),
            final(self).nodes() == (if old(self).nodes().contains_key(id) {
                let node = old(self).nodes()[id];
                old(self).nodes().insert(id, NodeView { start: Some(now), ..node })
            } else {
                old(self).nodes()
            }),
    {
        broadcast use vstd::std_specs::hash::group_hash_axioms;

        let ghost before = self.spans@;
        match self.spans.remove(&id) {
            Some(mut node) => {
                assert(before[id].age@ < self.told@);
                node.start = Some(now);
                self.spans.insert(id, node);
                proof {
                    assert(self.spans@ =~= before.insert(id, node));
                    lemma_changed(before, self.told@, id, node);
                    assert(nodes_of(self.spans@) =~= nodes_of(before).insert(id, node.seen()));
                }
            },
            None => {
                assert(self.spans@ =~= before);
            },
        }
    }

    /// A span is left, at `now`: the time since it was entered is added to its own.
    pub fn on_exit(&mut self, id: u64, now: u128)
        requires
            old(self).wf(),
        ensures
            final(self).wf(),
            final(self).outermost() == old(self).outermost(),
            final(self).nodes() == (if old(self).nodes().contains_key(id) {
                old(self).nodes().insert(id, left(old(self).nodes()[id], now))
            } else {
                old(self).nodes()
            }),
    {
        broadcast use vstd::std_specs::hash::group_hash_axioms;

        let ghost before = self.spans@;
        match self.spans.remove(&id) {
            Some(mut node) => {
                assert(before[id].age@ < self.told@);
                match node.start {
                    Some(start) => {
                        let spent: u128 = if now < start {
                            0
                        } else {
                            now - start
                        };
                        let spent: u64 = if spent > u64::MAX as u128 {
                            u64::MAX
                        } else {
                            spent as u64
                        };
                        node.dur_ns =
                        if spent > u64::MAX - node.dur_ns {
                            u64::MAX
                        } else {
                            node.dur_ns + spent
                        };
                        node.start = None;
                    },
                    None => {},
                }
                self.spans.insert(id, node);
                proof {
                    assert(self.spans@ =~= before.insert(id, node));
                    lemma_changed(before, self.told@, id, node);
                    assert(nodes_of(self.spans@) =~= nodes_of(before).insert(id, node.seen()));
                }
            },
            None => {
                assert(self.spans@ =~= before);
            },
        }
    }
}

/// A span once it is left: longer by the time since it was entered, if it was, and no longer than
/// can be told.
pub open spec fn left(node: NodeView, now: u128) -> NodeView {
    match node.start {
        Some(start) => {
            let spent = if now < start {
                0
            } else {
                now - start
            };
            NodeView {
                dur_ns: if node.dur_ns + spent > u64::MAX {
                    u64::MAX
                } else {
                    (node.dur_ns + spent) as u64
                },
                start: None,
                ..node
            }
        },
        None => node,
    }
}

proof fn lemma_inserted(spans: Map<u64, SpanNode>, told: nat, id: u64, node: SpanNode)
    requires
        is_acyclic(spans, told),
        node.age@ == told,
        node.children@.len() == 0,
        unique_names(node.meta@),
    ensures
        is_acyclic(spans.insert(id, node), told + 1),
{
    let now = spans.insert(id, node);
    assert forall|a: u64, i: int|
        now.contains_key(a) && 0 <= i < now[a].children@.len() implies now.contains_key(
        #[trigger] now[a].children@[i],
    ) && now[a].age@ < now[now[a].children@[i]].age@ by {
        assert(a != id);
        assert(spans.contains_key(spans[a].children@[i]));
        assert(spans[a].age@ < told);
    }
}

proof fn lemma_adopted(
    spans: Map<u64, SpanNode>,
    told: nat,
    parent: u64,
    was: SpanNode,
    now_node: SpanNode,
    id: u64,
)
    requires
        is_acyclic(spans, told),
        spans.contains_key(parent),
        spans.contains_key(id),
        parent != id,
        was == spans[parent],
        now_node == (SpanNode { children: now_node.children, ..was }),
        now_node.children@ == was.children@.push(id),
        was.age@ < spans[id].age@,
    ensures
        is_acyclic(spans.insert(parent, now_node), told),
{
    let now = spans.insert(parent, now_node);
    assert forall|a: u64, i: int|
        now.contains_key(a) && 0 <= i < now[a].children@.len() implies now.contains_key(
        #[trigger] now[a].children@[i],
    ) && now[a].age@ < now[now[a].children@[i]].age@ by {
        if a == parent && i == was.children@.len() {
        } else {
            assert(spans[a].children@[i] == now[a].children@[i]);
        }
    }
}

proof fn lemma_changed(spans: Map<u64, SpanNode>, told: nat, id: u64, node: SpanNode)
    requires
        is_acyclic(spans, told),
        spans.contains_key(id),
        node.age == spans[id].age,
        node.children == spans[id].children,
        unique_names(node.meta@),
    ensures
        is_acyclic(spans.insert(id, node), told),
{
    let now = spans.insert(id, node);
    assert forall|a: u64, i: int|
        now.contains_key(a) && 0 <= i < now[a].children@.len() implies now.contains_key(
        #[trigger] now[a].children@[i],
    ) && now[a].age@ < now[now[a].children@[i]].age@ by {
        assert(spans[a].children@[i] == now[a].children@[i]);
    }
}

/// Starts a profile, and forgets one that was under way.
pub fn begin(active: &mut Option<CollectorState>)
    ensures
        match *final(active) {
            Some(state) => state.wf() && state.nodes() == Map::<u64, NodeView>::empty()
                && state.outermost() == Seq::<u64>::empty(),
            None => false,
        },
{
    *active = Some(CollectorState::new());
}

/// Ends the profile and gives its trees; none where none was under way.
pub fn take(active: &mut Option<CollectorState>) -> (trees: Vec<ProfileSpan>)
    requires
        *old(active) matches Some(state) ==> state.wf(),
    ensures
        *final(active) is None,
        match *old(active) {
            Some(state) => trees@.len() == state.outermost().len() && forall|i: int|
                0 <= i < trees@.len() ==> is_tree(
                    #[trigger] trees@[i],
                    state.nodes(),
                    state.outermost()[i],
                ),
            None => trees@ == Seq::<ProfileSpan>::empty(),
        },
{
    let mut trees: Vec<ProfileSpan> = Vec::new();
    match active.take() {
        Some(state) => {
            let mut i: usize = 0;
            while i < state.roots.len()
                invariant
                    i <= state.roots@.len(),
                    state.wf(),
                    trees@.len() == i,
                    forall|j: int|
                        0 <= j < i ==> is_tree(
                            #[trigger] trees@[j],
                            state.nodes(),
                            state.roots@[j],
                        ),
                decreases state.roots@.len() - i,
            {
                assert(state.spans@.contains_key(state.roots@[i as int]));
                match build_tree(state.roots[i], &state.spans, state.told) {
                    Some(tree) => {
                        trees.push(tree);
                    },
                    None => {},
                }
                i += 1;
            }
        },
        None => {},
    }
    trees
}

/// A name has a value exactly if it occurs, and it is the one that stands beside its last
/// occurrence.
pub proof fn the_last_value_of_a_name_counts(fields: Seq<(String, String)>, name: Seq<char>, i: int)
    requires
        0 <= i < fields.len() ==> forall|j: int|
            i < j < fields.len() ==> (#[trigger] fields[j]).0@ != name,
    ensures
        fields_map(fields).contains_key(name) <==> exists|j: int|
            0 <= j < fields.len() && (#[trigger] fields[j]).0@ == name,
        0 <= i < fields.len() && fields[i].0@ == name ==> fields_map(fields)[name] == fields[i].1@,
    decreases fields.len(),
{
    if fields.len() > 0 {
        let front = fields.drop_last();
        let n = front.len() as int;
        if 0 <= i < n {
            assert forall|j: int| i < j < n implies (#[trigger] front[j]).0@ != name by {
                assert(fields[j] == front[j]);
            }
            assert(fields[n].0@ != name);
        }
        if i < n {
            the_last_value_of_a_name_counts(front, name, i);
        } else {
            the_last_value_of_a_name_counts(front, name, -1);
        }
        if exists|j: int| 0 <= j < n && (#[trigger] front[j]).0@ == name {
            let j = choose|j: int| 0 <= j < n && (#[trigger] front[j]).0@ == name;
            assert(fields[j].0@ == name);
        }
        if exists|j: int| 0 <= j < fields.len() && (#[trigger] fields[j]).0@ == name {
            let j = choose|j: int| 0 <= j < fields.len() && (#[trigger] fields[j]).0@ == name;
            if j < n {
                assert(front[j].0@ == name);
            }
        }
        assert(fields[n] == fields.last());
    }
}

/// A new span has run for no time, is not entered, and has no spans within it. Its device is the
/// value of `device`, or `cpu`; its count is the number that the value of `count` writes, or 1; and
/// it keeps all other fields.
pub proof fn new_spans_take_device_and_count(
    name: Seq<char>,
    fields: Map<Seq<char>, Seq<char>>,
    key: Seq<char>,
)
    ensures
        ({
            let node = fresh_node(name, fields);
            let device = seq!['d', 'e', 'v', 'i', 'c', 'e'];
            let count = seq!['c', 'o', 'u', 'n', 't'];
            &&& node.name == name && node.dur_ns == 0 && node.start is None && node.children.len()
                == 0
            &&& node.device == if fields.contains_key(device) {
                fields[device]
            } else {
                seq!['c', 'p', 'u']
            }
            &&& !fields.contains_key(count) ==> node.count == 1
            &&& fields.contains_key(count) ==> match number(
                vstd::utf8::encode_utf8(fields[count]),
            ) {
                Some(n) => node.count == n,
                None => node.count == 1,
            }
            &&& node.meta.contains_key(key) <==> fields.contains_key(key) && key != device && key
                != count
            &&& node.meta.contains_key(key) ==> node.meta[key] == fields[key]
        }),
{
    reveal_strlit("device");
    reveal_strlit("count");
    reveal_strlit("cpu");
    assert("device"@ =~= seq!['d', 'e', 'v', 'i', 'c', 'e']);
    assert("count"@ =~= seq!['c', 'o', 'u', 'n', 't']);
    assert("cpu"@ =~= seq!['c', 'p', 'u']);
}

/// Leaving a span that was entered adds the time since then, up to the largest duration, and none
/// where the clock went back; nothing else of it changes, and nothing at all if it was not entered.
pub proof fn leaving_adds_the_time_since_entering(node: NodeView, now: u128)
    ensures
        ({
            let after = left(node, now);
            &&& after.start is None
            &&& after.name == node.name && after.device == node.device && after.count == node.count
                && after.meta == node.meta && after.children == node.children
            &&& node.start is None ==> after.dur_ns == node.dur_ns
            &&& node.start matches Some(entered) ==> (if now <= entered {
                after.dur_ns == node.dur_ns
            } else if node.dur_ns + (now - entered) <= u64::MAX {
                after.dur_ns == node.dur_ns + (now - entered)
            } else {
                after.dur_ns == u64::MAX
            })
        }),
{
}

/// A tree shows of its span what is known of it, and has below it a tree for each span within it, in
/// their order.
pub proof fn trees_show_their_spans(
    tree: ProfileSpan,
    nodes: Map<u64, NodeView>,
    id: u64,
    key: Seq<char>,
    i: int,
)
    requires
        is_tree(tree, nodes, id),
    ensures
        nodes.contains_key(id),
        tree.name@ == nodes[id].name,
        tree.dur_ns == nodes[id].dur_ns,
        tree.device@ == nodes[id].device,
        tree.count == nodes[id].count,
        nodes[id].meta.contains_key(key) <==> exists|f: int|
            0 <= f < tree.meta@.len() && (#[trigger] tree.meta@[f]).0@ == key,
        forall|f: int|
            0 <= f < tree.meta@.len() && (#[trigger] tree.meta@[f]).0@ == key
                ==> nodes[id].meta[key] == tree.meta@[f].1@,
        tree.children@.len() == nodes[id].children.len(),
        0 <= i < tree.children@.len() ==> is_tree(
            tree.children@[i],
            nodes,
            nodes[id].children[i],
        ) && tree.children@[i].name@ == nodes[nodes[id].children[i]].name
            && tree.children@[i].dur_ns == nodes[nodes[id].children[i]].dur_ns,
{
    the_last_value_of_a_name_counts(tree.meta@, key, -1);
    assert forall|f: int|
        0 <= f < tree.meta@.len() && (#[trigger] tree.meta@[f]).0@ == key implies nodes[id].meta[key]
        == tree.meta@[f].1@ by {
        lemma_field_value(tree.meta@, f);
    }
    if 0 <= i < tree.children@.len() {
        let child = tree.children@[i];
        assert(is_tree(child, nodes, nodes[id].children[i]));
    }
}

} // verus!
