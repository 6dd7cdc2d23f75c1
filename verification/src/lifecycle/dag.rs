//! The dependency graph drawn by `ascii_dag`.

use vstd::prelude::*;
use vstd::string::*;
use ascii_dag::graph::Graph;
use crate::domain::{Application, ApplicationView};
use crate::text::{push_str, str_eq};

verus! {

#[verifier::external_type_specification]
#[verifier::external_body]
pub struct ExGraph<'a>(Graph<'a>);

/// What an `ascii_dag` graph holds: its nodes (id and label) in the order
/// they were added, its edges (from id, to id, none labelled) in the order
/// they were added, and whether it is plain: built by `Graph::new`, with
/// default settings and no placeholder node that an edge created.
pub uninterp spec fn dag_contents(g: Graph) -> (Seq<(usize, Seq<char>)>, Seq<(usize, usize)>, bool);

/// What `Graph::render` draws for a plain graph with these nodes and edges.
pub uninterp spec fn dag_render(nodes: Seq<(usize, Seq<char>)>, edges: Seq<(usize, usize)>) -> Seq<char>;

/// Some node of `nodes` has the id `id`.
pub open spec fn has_node(nodes: Seq<(usize, Seq<char>)>, id: usize) -> bool {
    exists|k: int| 0 <= k < nodes.len() && (#[trigger] nodes[k]).0 == id
}

/// `Graph::new`: an empty plain graph.
#[verifier::external_body]
fn dag_new<'a>() -> (g: Graph<'a>)
    ensures
        dag_contents(g) == (Seq::<(usize, Seq<char>)>::empty(), Seq::<(usize, usize)>::empty(), true),
{
    Graph::new()
}

/// `Graph::add_node` with an id the graph does not hold yet: the node is
/// appended (an existing id would be relabelled instead, which no caller
/// here asks for).
#[verifier::external_body]
fn dag_add_node<'a>(g: &mut Graph<'a>, id: usize, label: &'a str)
    requires
        !has_node(dag_contents(*old(g)).0, id),
    ensures
        dag_contents(*final(g)) == (
            dag_contents(*old(g)).0.push((id, label@)),
            dag_contents(*old(g)).1,
            dag_contents(*old(g)).2,
        ),
{
    let _ = g.add_node(id, label);
}

/// `Graph::add_edge` without a label between two ids the graph holds: the
/// edge is appended (a missing id would get a placeholder node, which no
/// caller here asks for).
#[verifier::external_body]
fn dag_add_edge<'a>(g: &mut Graph<'a>, from: usize, to: usize)
    requires
        has_node(dag_contents(*old(g)).0, from),
        has_node(dag_contents(*old(g)).0, to),
    ensures
        dag_contents(*final(g)) == (
            dag_contents(*old(g)).0,
            dag_contents(*old(g)).1.push((from, to)),
            dag_contents(*old(g)).2,
        ),
{
    let _ = g.add_edge(from, to, None);
}

/// `Graph::render` of a plain graph, named by `dag_render`.
#[verifier::external_body]
fn dag_render_text(g: &Graph) -> (s: String)
    requires
        dag_contents(*g).2,
    ensures
        s@ == dag_render(dag_contents(*g).0, dag_contents(*g).1),
{
    g.render()
}

/// The index of the last application named `name`.
pub open spec fn last_index(apps: Seq<ApplicationView>, name: Seq<char>) -> Option<int>
    decreases apps.len(),
{
    if apps.len() == 0 {
        None
    } else if apps.last().name == name {
        Some(apps.len() - 1)
    } else {
        last_index(apps.drop_last(), name)
    }
}

/// The node id of the application named `name`: one more than the index of
/// the last application of that name.
pub open spec fn node_id(apps: Seq<ApplicationView>, name: Seq<char>) -> Option<usize> {
    match last_index(apps, name) {
        Some(k) => Some((k + 1) as usize),
        None => None,
    }
}

/// The nodes of the drawing: application `i` as node `i + 1`, labelled with
/// its name between two spaces.
pub open spec fn dag_nodes(apps: Seq<ApplicationView>) -> Seq<(usize, Seq<char>)> {
    Seq::new(apps.len(), |i: int| (((i + 1) as usize), " "@ + apps[i].name + " "@))
}

/// The edges that the dependencies `deps` of application `i` contribute:
/// one per dependency that names an application.
pub open spec fn app_edges(apps: Seq<ApplicationView>, i: int, deps: Seq<Seq<char>>) -> Seq<(usize, usize)>
    decreases deps.len(),
{
    if deps.len() == 0 {
        Seq::empty()
    } else {
        let rest = app_edges(apps, i, deps.drop_last());
        match (node_id(apps, apps[i].name), node_id(apps, deps.last())) {
            (Some(a), Some(b)) => rest.push((a, b)),
            _ => rest,
        }
    }
}

/// The edges of the drawing, application by application.
pub open spec fn dag_edges_upto(apps: Seq<ApplicationView>, k: int) -> Seq<(usize, usize)>
    decreases k,
{
    if k <= 0 {
        Seq::empty()
    } else {
        dag_edges_upto(apps, k - 1) + app_edges(apps, k - 1, apps[k - 1].deps())
    }
}

pub open spec fn dag_edges(apps: Seq<ApplicationView>) -> Seq<(usize, usize)> {
    dag_edges_upto(apps, apps.len() as int)
}

proof fn lemma_last_index(apps: Seq<ApplicationView>, name: Seq<char>)
    ensures
        last_index(apps, name) matches Some(k) ==> 0 <= k < apps.len() && apps[k].name == name,
    decreases apps.len(),
{
    if apps.len() > 0 {
        lemma_last_index(apps.drop_last(), name);
    }
}

/// The node id of the application named `name` (see `node_id`).
fn node_id_of(apps: &[Application], name: &str) -> (r: Option<usize>)
    ensures
        r == node_id(apps@.map_values(|a: Application| a@), name@),
{
    let ghost av = apps@.map_values(|a: Application| a@);
    let mut found: Option<usize> = None;
    let n = apps.len();
    for i in 0..n
        invariant
            n == apps@.len(),
            av == apps@.map_values(|a: Application| a@),
            found == node_id(av.take(i as int), name@),
    {
        assert(av.take(i + 1).drop_last() =~= av.take(i as int));
        assert(av.take(i + 1).last() == apps@[i as int]@);
        if str_eq(apps[i].name.as_str(), name) {
            found = Some(i + 1);
        }
    }
    assert(av.take(n as int) =~= av);
    found
}

/// The dependency graph as `ascii_dag` draws it: a node per application,
/// and an edge from each application to each of its dependencies that names
/// an application (an application's node is that of the last one sharing
/// its name).
pub fn dependency_dag(apps: &[Application]) -> (s: String)
    ensures
        s@ == dag_render(
            dag_nodes(apps@.map_values(|a: Application| a@)),
            dag_edges(apps@.map_values(|a: Application| a@)),
        ),
{
    let ghost av = apps@.map_values(|a: Application| a@);
    let n = apps.len();
    let mut labels: Vec<String> = Vec::new();
    for i in 0..n
        invariant
            n == apps@.len(),
            av == apps@.map_values(|a: Application| a@),
            labels@.len() == i,
            forall|k: int| 0 <= k < i ==> (#[trigger] labels@[k])@ == " "@ + av[k].name + " "@,
    {
        let mut l = String::from_str(" ");
        push_str(&mut l, apps[i].name.as_str());
        push_str(&mut l, " ");
        labels.push(l);
    }
    let mut g = dag_new();
    for i in 0..n
        invariant
            n == apps@.len(),
            av == apps@.map_values(|a: Application| a@),
            labels@.len() == n,
            forall|k: int| 0 <= k < n ==> (#[trigger] labels@[k])@ == " "@ + av[k].name + " "@,
            dag_contents(g) == (dag_nodes(av).take(i as int), Seq::<(usize, usize)>::empty(), true),
    {
        proof {
            let nodes = dag_nodes(av).take(i as int);
            if has_node(nodes, (i + 1) as usize) {
                let k = choose|k: int| 0 <= k < nodes.len() && (#[trigger] nodes[k]).0 == (i + 1) as usize;
                assert(nodes[k].0 == (k + 1) as usize);
            }
        }
        dag_add_node(&mut g, i + 1, labels[i].as_str());
        assert(dag_nodes(av).take(i + 1) =~= dag_nodes(av).take(i as int).push(((i + 1) as usize, labels@[i as int]@)));
    }
    assert(dag_nodes(av).take(n as int) =~= dag_nodes(av));
    for i in 0..n
        invariant
            n == apps@.len(),
            av == apps@.map_values(|a: Application| a@),
            dag_contents(g) == (dag_nodes(av), dag_edges_upto(av, i as int), true),
    {
        let ghost before = dag_contents(g).1;
        let empty: Vec<String> = Vec::new();
        let deps: &Vec<String> = match &apps[i].dependencies {
            Some(v) => v,
            None => &empty,
        };
        assert(av[i as int] == apps@[i as int]@);
        assert(deps@.map_values(|d: String| d@) =~= av[i as int].deps());
        let from = node_id_of(apps, apps[i].name.as_str());
        let m = deps.len();
        for j in 0..m
            invariant
                n == apps@.len(),
                i < n,
                av == apps@.map_values(|a: Application| a@),
                m == deps@.len(),
                deps@.map_values(|d: String| d@) == av[i as int].deps(),
                from == node_id(av, av[i as int].name),
                dag_contents(g) == (dag_nodes(av), before + app_edges(av, i as int, av[i as int].deps().take(j as int)), true),
        {
            let ghost ds = av[i as int].deps();
            assert(ds.take(j + 1).drop_last() =~= ds.take(j as int));
            assert(ds.take(j + 1).last() == deps@[j as int]@);
            let to = node_id_of(apps, deps[j].as_str());
            match (from, to) {
                (Some(a), Some(b)) => {
                    proof {
                        lemma_last_index(av, av[i as int].name);
                        lemma_last_index(av, deps@[j as int]@);
                        let ka = last_index(av, av[i as int].name)->0;
                        let kb = last_index(av, deps@[j as int]@)->0;
                        assert(dag_nodes(av)[ka].0 == a);
                        assert(dag_nodes(av)[kb].0 == b);
                    }
                    dag_add_edge(&mut g, a, b);
                    assert(before + app_edges(av, i as int, ds.take(j + 1)) =~= (before + app_edges(
                        av,
                        i as int,
                        ds.take(j as int),
                    )).push((a, b)));
                },
                _ => {},
            }
        }
        assert(av[i as int].deps().take(m as int) =~= av[i as int].deps());
    }
    dag_render_text(&g)
}

} // verus!
