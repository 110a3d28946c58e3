use vstd::prelude::*;

verus! {

broadcast use vstd::std_specs::vec::group_vec_axioms;

/// serde_yaml's dynamic document value. It is opaque here: values of it are
/// only carried through for the parts of a document this library does not
/// interpret.
#[verifier::external_type_specification]
#[verifier::external_body]
pub struct ExYamlValue(serde_yaml::Value);

/// Relies on serde_yaml::Value's derived Clone: a deep copy, equal to the
/// original value.
pub assume_specification[ <serde_yaml::Value as Clone>::clone ](v: &serde_yaml::Value) -> (r:
    serde_yaml::Value)
    ensures
        r == *v,
;

/// A structured document tree: the parts of a YAML document that this library
/// interprets (strings, sequences, mappings), with every other kind of value
/// carried through opaquely.
pub enum Node {
    Str(String),
    List(Vec<Node>),
    Mapping(Vec<(Node, Node)>),
    Other(serde_yaml::Value),
}

/// The mathematical shape of a Node: strings as character sequences.
pub enum NodeV {
    Str(Seq<char>),
    List(Seq<NodeV>),
    Mapping(Seq<(NodeV, NodeV)>),
    Other(serde_yaml::Value),
}

pub open spec fn node_view(n: Node) -> NodeV
    decreases n, 1int,
    via node_view_decreases
{
    match n {
        Node::Str(s) => NodeV::Str(s@),
        Node::List(xs) => NodeV::List(nodes_view(xs@)),
        Node::Mapping(es) => NodeV::Mapping(entries_view(es@)),
        Node::Other(v) => NodeV::Other(v),
    }
}

pub open spec fn nodes_view(xs: Seq<Node>) -> Seq<NodeV>
    decreases xs, 0int,
{
    if xs.len() == 0 {
        Seq::empty()
    } else {
        seq![node_view(xs[0])] + nodes_view(xs.drop_first())
    }
}

pub open spec fn entries_view(es: Seq<(Node, Node)>) -> Seq<(NodeV, NodeV)>
    decreases es, 0int,
{
    if es.len() == 0 {
        Seq::empty()
    } else {
        seq![(node_view(es[0].0), node_view(es[0].1))] + entries_view(es.drop_first())
    }
}

#[via_fn]
proof fn node_view_decreases(n: Node) {
    broadcast use vstd::std_specs::vec::group_vec_axioms;

    match n {
        Node::List(xs) => {
            assert(decreases_to!(n => xs));
        },
        Node::Mapping(es) => {
            assert(decreases_to!(n => es));
        },
        _ => {},
    }
}

/// nodes_view maps node_view over the elements, index by index.
pub proof fn lemma_nodes_view_index(xs: Seq<Node>)
    ensures
        nodes_view(xs).len() == xs.len(),
        forall|i: int| 0 <= i < xs.len() ==> nodes_view(xs)[i] == node_view(xs[i]),
    decreases xs.len(),
{
    if xs.len() > 0 {
        lemma_nodes_view_index(xs.drop_first());
    }
}

/// entries_view maps node_view over both components, index by index.
pub proof fn lemma_entries_view_index(es: Seq<(Node, Node)>)
    ensures
        entries_view(es).len() == es.len(),
        forall|i: int|
            0 <= i < es.len() ==> entries_view(es)[i] == (node_view(es[i].0), node_view(es[i].1)),
    decreases es.len(),
{
    if es.len() > 0 {
        lemma_entries_view_index(es.drop_first());
    }
}

impl View for Node {
    type V = NodeV;

    open spec fn view(&self) -> NodeV {
        node_view(*self)
    }
}

impl DeepView for Node {
    type V = NodeV;

    open spec fn deep_view(&self) -> NodeV {
        node_view(*self)
    }
}

impl Clone for Node {
    fn clone(&self) -> (r: Self)
        ensures
            r@ == self@,
        decreases *self,
    {
        match self {
            Node::Str(s) => Node::Str(s.clone()),
            Node::List(xs) => {
                proof {
                    assert(decreases_to!(*self => *xs));
                }
                let mut out: Vec<Node> = Vec::new();
                let mut i: usize = 0;
                while i < xs.len()
                    invariant
                        *self == Node::List(*xs),
                        decreases_to!(*self => *xs),
                        i <= xs@.len(),
                        out@.len() == i,
                        forall|k: int| 0 <= k < i ==> #[trigger] node_view(out@[k]) == node_view(
                            xs@[k],
                        ),
                    decreases xs@.len() - i,
                {
                    proof {
                        assert(decreases_to!(*xs => xs[i as int]));
                    }
                    out.push(xs[i].clone());
                    i += 1;
                }
                let r = Node::List(out);
                proof {
                    lemma_nodes_view_index(out@);
                    lemma_nodes_view_index(xs@);
                    assert(nodes_view(out@) =~= nodes_view(xs@));
                }
                r
            },
            Node::Mapping(es) => {
                proof {
                    assert(decreases_to!(*self => *es));
                }
                let mut out: Vec<(Node, Node)> = Vec::new();
                let mut i: usize = 0;
                while i < es.len()
                    invariant
                        *self == Node::Mapping(*es),
                        decreases_to!(*self => *es),
                        i <= es@.len(),
                        out@.len() == i,
                        forall|k: int|
                            0 <= k < i ==> #[trigger] node_view(out@[k].0) == node_view(es@[k].0)
                                && node_view(out@[k].1) == node_view(es@[k].1),
                    decreases es@.len() - i,
                {
                    proof {
                        assert(decreases_to!(*es => es[i as int]));
                        assert(decreases_to!(es[i as int] => es[i as int].0));
                        assert(decreases_to!(es[i as int] => es[i as int].1));
                    }
                    let k = es[i].0.clone();
                    let v = es[i].1.clone();
                    out.push((k, v));
                    i += 1;
                }
                let r = Node::Mapping(out);
                proof {
                    lemma_entries_view_index(out@);
                    lemma_entries_view_index(es@);
                    assert(entries_view(out@) =~= entries_view(es@));
                }
                r
            },
            Node::Other(v) => Node::Other(v.clone()),
        }
    }
}

/// The outcome of running the strict YAML parser on a text and translating
/// its document value into a Node tree; a fixed function of the text alone.
pub uninterp spec fn yaml_parse_of(s: Seq<char>) -> Result<NodeV, Seq<char>>;

/// The text that the YAML renderer produces for a Node tree; a fixed function
/// of the tree alone.
pub uninterp spec fn yaml_render_of(n: NodeV) -> Result<Seq<char>, Seq<char>>;

/// Translates a serde_yaml::Value into a Node, variant by variant.
///
/// Relies only on matching serde_yaml::Value's variants and moving their
/// fields; every scalar other than a string is carried through opaquely.
#[verifier::external_body]
fn value_to_node(v: serde_yaml::Value) -> Node {
    match v {
        serde_yaml::Value::String(s) => Node::Str(s),
        serde_yaml::Value::Sequence(xs) => Node::List(xs.into_iter().map(value_to_node).collect()),
        serde_yaml::Value::Mapping(m) => Node::Mapping(
            m.into_iter().map(|(k, w)| (value_to_node(k), value_to_node(w))).collect(),
        ),
        other => Node::Other(other),
    }
}

/// Translates a Node back into a serde_yaml::Value, variant by variant.
#[verifier::external_body]
fn node_to_value(n: Node) -> serde_yaml::Value {
    match n {
        Node::Str(s) => serde_yaml::Value::String(s),
        Node::List(xs) => serde_yaml::Value::Sequence(xs.into_iter().map(node_to_value).collect()),
        Node::Mapping(es) => serde_yaml::Value::Mapping(
            es.into_iter().map(|(k, v)| (node_to_value(k), node_to_value(v))).collect(),
        ),
        Node::Other(v) => v,
    }
}

/// Parses a text as one YAML document and hands back its value as a Node.
///
/// Relies on serde_yaml::from_str deserializing any well-formed YAML document
/// into serde_yaml::Value, deterministically in the text, and reporting a
/// syntax error otherwise.
#[verifier::external_body]
pub fn parse_yaml_node(s: &str) -> (r: Result<Node, String>)
    ensures
        match r {
            Ok(n) => yaml_parse_of(s@) == Ok::<NodeV, Seq<char>>(n@),
            Err(e) => yaml_parse_of(s@) == Err::<NodeV, Seq<char>>(e@),
        },
{
    match serde_yaml::from_str::<serde_yaml::Value>(s) {
        Ok(v) => Ok(value_to_node(v)),
        Err(e) => Err(format!("{}", e)),
    }
}

/// Renders a Node as YAML text.
///
/// Relies on serde_yaml::to_string serializing a serde_yaml::Value,
/// deterministically in the value.
#[verifier::external_body]
pub fn render_yaml_node(n: &Node) -> (r: Result<String, String>)
    ensures
        match r {
            Ok(s) => yaml_render_of(n@) == Ok::<Seq<char>, Seq<char>>(s@),
            Err(e) => yaml_render_of(n@) == Err::<Seq<char>, Seq<char>>(e@),
        },
{
    match serde_yaml::to_string(&node_to_value(n.clone())) {
        Ok(s) => Ok(s),
        Err(e) => Err(format!("{}", e)),
    }
}

} // verus!
