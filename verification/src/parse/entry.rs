//! Top-level entry points for parsing a complete Neo4j CSV input.

use vstd::prelude::*;

use crate::error::{ErrorView, Neo4jCsvError};
use crate::parse::record::{Neo4jCsvRecord, RecordView};
use crate::parse::stream::{fresh_stream, stream_step, strip_cr, Neo4jCsvStreamParser, StreamView};
use crate::text::{chars_of, string_of_range};
use crate::types::{
    nodes_view, relationships_view, strings_view, Node, NodeView, Relationship, RelationshipView,
};

verus! {

/// Splitting `s` into lines from position `i` on, with `cur` the line being
/// read and `acc` the lines complete so far.
///
/// A line ends at `\n`, and a `\r` just before that `\n` belongs to the line
/// ending; the text after the last `\n` is a line only if it is not empty.
pub open spec fn lines_scan(s: Seq<char>, i: int, cur: Seq<char>, acc: Seq<Seq<char>>) -> Seq<
    Seq<char>,
>
    decreases s.len() - i,
{
    if i < 0 || i >= s.len() {
        if cur.len() > 0 {
            acc.push(cur)
        } else {
            acc
        }
    } else if s[i] == '\n' {
        lines_scan(s, i + 1, Seq::empty(), acc.push(strip_cr(cur)))
    } else {
        lines_scan(s, i + 1, cur.push(s[i]), acc)
    }
}

/// The lines of a text, as `str::lines` yields them.
pub open spec fn lines_of(s: Seq<char>) -> Seq<Seq<char>> {
    lines_scan(s, 0, Seq::empty(), Seq::empty())
}

/// Feeding the first `n` of `lines` to a fresh stream parser, stopping at
/// the first error: the parser's state, and the nodes and relationships
/// collected, or the error.
pub open spec fn run_lines(lines: Seq<Seq<char>>, n: int) -> (
    StreamView,
    Result<(Seq<NodeView>, Seq<RelationshipView>), ErrorView>,
)
    decreases n,
{
    if n <= 0 {
        (fresh_stream(), Ok((Seq::empty(), Seq::empty())))
    } else {
        let (st, acc) = run_lines(lines, n - 1);
        match acc {
            Err(e) => (st, Err(e)),
            Ok((ns, es)) => {
                let (next, r) = stream_step(st, lines[n - 1]);
                match r {
                    Err(e) => (next, Err(e)),
                    Ok(None) => (next, Ok((ns, es))),
                    Ok(Some(RecordView::Node(x))) => (next, Ok((ns.push(x), es))),
                    Ok(Some(RecordView::Edge(y))) => (next, Ok((ns, es.push(y)))),
                }
            },
        }
    }
}

/// The outcome of parsing a whole input: its first line is the header,
/// the others data rows.
pub open spec fn parse_input(input: Seq<char>) -> Result<
    (Seq<NodeView>, Seq<RelationshipView>),
    ErrorView,
> {
    let ls = lines_of(input);
    if ls.len() == 0 {
        Err(ErrorView::EmptyHeader)
    } else {
        run_lines(ls, ls.len() as int).1
    }
}

/// Once a run has failed, feeding it more lines keeps the same error.
proof fn lemma_run_error_persists(lines: Seq<Seq<char>>, n: int, m: int)
    requires
        0 <= n <= m,
        run_lines(lines, n).1 is Err,
    ensures
        run_lines(lines, m).1 == run_lines(lines, n).1,
    decreases m - n,
{
    if m > n {
        lemma_run_error_persists(lines, n, m - 1);
    }
}

/// A run over `n` lines has counted at most `n` rows.
proof fn lemma_run_row_bound(lines: Seq<Seq<char>>, n: int)
    requires
        0 <= n,
    ensures
        run_lines(lines, n).0.row <= n,
    decreases n,
{
    if n > 0 {
        lemma_run_row_bound(lines, n - 1);
    }
}

/// The lines of `input`, as `str::lines` yields them.
fn lines_of_str(input: &str) -> (res: Vec<String>)
    ensures
        strings_view(res@) == lines_of(input@),
{
    let v = chars_of(input);
    let ghost s = v@;
    let mut res: Vec<String> = Vec::new();
    let mut start: usize = 0;
    let mut i: usize = 0;
    assert(strings_view(res@) =~= Seq::<Seq<char>>::empty());
    assert(s.subrange(0, 0) =~= Seq::<char>::empty());
    while i < v.len()
        invariant
            s == v@,
            s == input@,
            start <= i <= v@.len(),
            lines_of(s) == lines_scan(
                s,
                i as int,
                s.subrange(start as int, i as int),
                strings_view(res@),
            ),
        decreases v@.len() - i,
    {
        if v[i] == '\n' {
            let mut end = i;
            if end > start && v[end - 1] == '\r' {
                end = end - 1;
            }
            assert(s.subrange(start as int, end as int) =~= strip_cr(
                s.subrange(start as int, i as int),
            ));
            let line = string_of_range(&v, start, end);
            let ghost before = strings_view(res@);
            res.push(line);
            assert(strings_view(res@) =~= before.push(line@));
            i = i + 1;
            start = i;
            assert(s.subrange(start as int, i as int) =~= Seq::<char>::empty());
        } else {
            assert(s.subrange(start as int, i + 1) =~= s.subrange(start as int, i as int).push(
                s[i as int],
            ));
            i = i + 1;
        }
    }
    if start < v.len() {
        let line = string_of_range(&v, start, v.len());
        let ghost before = strings_view(res@);
        res.push(line);
        assert(strings_view(res@) =~= before.push(line@));
    }
    res
}

/// Parse a Neo4j CSV input into nodes and edges.
///
/// The first line is the header; subsequent lines are data rows.
/// Returns all parsed nodes and edges.
pub fn parse_neo4j_csv(input: &str) -> (res: Result<(Vec<Node>, Vec<Relationship>), Neo4jCsvError>)
    ensures
        match res {
            Ok((nodes, edges)) => parse_input(input@) == Ok::<
                (Seq<NodeView>, Seq<RelationshipView>),
                ErrorView,
            >((nodes_view(nodes@), relationships_view(edges@))),
            Err(e) => parse_input(input@) == Err::<
                (Seq<NodeView>, Seq<RelationshipView>),
                ErrorView,
            >(e@),
        },
{
    let lines = lines_of_str(input);
    let ghost ls = strings_view(lines@);
    if lines.len() == 0 {
        return Err(Neo4jCsvError::EmptyHeader);
    }
    let mut parser = Neo4jCsvStreamParser::new();
    let mut nodes: Vec<Node> = Vec::new();
    let mut edges: Vec<Relationship> = Vec::new();
    let mut i: usize = 0;
    assert(nodes_view(nodes@) =~= Seq::<NodeView>::empty());
    assert(relationships_view(edges@) =~= Seq::<RelationshipView>::empty());
    while i < lines.len()
        invariant
            ls == strings_view(lines@),
            ls == lines_of(input@),
            i <= lines@.len(),
            run_lines(ls, i as int) == (
                parser@,
                Ok::<(Seq<NodeView>, Seq<RelationshipView>), ErrorView>(
                    (nodes_view(nodes@), relationships_view(edges@)),
                ),
            ),
        decreases lines@.len() - i,
    {
        proof {
            lemma_run_row_bound(ls, i as int);
        }
        assert(ls[i as int] == lines@[i as int]@);
        let ghost before_nodes = nodes_view(nodes@);
        let ghost before_edges = relationships_view(edges@);
        match parser.parse_line(lines[i].as_str()) {
            Err(e) => {
                proof {
                    lemma_run_error_persists(ls, i + 1, ls.len() as int);
                }
                return Err(e);
            },
            Ok(None) => {},
            Ok(Some(Neo4jCsvRecord::Node(node))) => {
                nodes.push(node);
                assert(nodes_view(nodes@) =~= before_nodes.push(node@));
            },
            Ok(Some(Neo4jCsvRecord::Edge(edge))) => {
                edges.push(edge);
                assert(relationships_view(edges@) =~= before_edges.push(edge@));
            },
        }
        i = i + 1;
    }
    Ok((nodes, edges))
}

/// Every node in `ns` has been handed to `on_node` by some call.
pub open spec fn all_handed_nodes<F: FnMut(Node)>(on_node: F, ns: Seq<NodeView>) -> bool {
    forall|k: int|
        0 <= k < ns.len() ==> exists|n: Node|
            #![trigger call_ensures(on_node, (n,), ())]
            call_ensures(on_node, (n,), ()) && n@ == #[trigger] ns[k]
}

/// Every relationship in `es` has been handed to `on_edge` by some call.
pub open spec fn all_handed_edges<G: FnMut(Relationship)>(
    on_edge: G,
    es: Seq<RelationshipView>,
) -> bool {
    forall|k: int|
        0 <= k < es.len() ==> exists|r: Relationship|
            #![trigger call_ensures(on_edge, (r,), ())]
            call_ensures(on_edge, (r,), ()) && r@ == #[trigger] es[k]
}

/// Every record of a successful run has been handed to its callback.
pub open spec fn all_handed<F: FnMut(Node), G: FnMut(Relationship)>(
    on_node: F,
    on_edge: G,
    outcome: Result<(Seq<NodeView>, Seq<RelationshipView>), ErrorView>,
) -> bool {
    match outcome {
        Ok((ns, es)) => all_handed_nodes(on_node, ns) && all_handed_edges(on_edge, es),
        Err(_) => true,
    }
}

/// Parse a Neo4j CSV input with callbacks for each node and edge.
///
/// This is the streaming variant: each parsed entity is handed to
/// the appropriate callback immediately.
pub fn parse_neo4j_csv_with<F, G>(input: &str, mut on_node: F, mut on_edge: G) -> (res: Result<
    (),
    Neo4jCsvError,
>) where F: FnMut(Node), G: FnMut(Relationship)
    requires
        forall|n: Node| call_requires(on_node, (n,)),
        forall|r: Relationship| call_requires(on_edge, (r,)),
    ensures
        match res {
            Ok(()) => parse_input(input@) is Ok,
            Err(e) => parse_input(input@) == Err::<
                (Seq<NodeView>, Seq<RelationshipView>),
                ErrorView,
            >(e@),
        },
        all_handed(on_node, on_edge, parse_input(input@)),
        forall|m: int|
            0 <= m <= lines_of(input@).len() ==> all_handed(
                on_node,
                on_edge,
                (#[trigger] run_lines(lines_of(input@), m)).1,
            ),
{
    broadcast use vstd::function::group_function_axioms;

    let lines = lines_of_str(input);
    let ghost ls = strings_view(lines@);
    if lines.len() == 0 {
        assert(run_lines(ls, 0).1 == Ok::<(Seq<NodeView>, Seq<RelationshipView>), ErrorView>(
            (Seq::empty(), Seq::empty()),
        ));
        return Err(Neo4jCsvError::EmptyHeader);
    }
    let ghost node_callback = on_node;
    let ghost edge_callback = on_edge;
    let mut parser = Neo4jCsvStreamParser::new();
    let ghost mut ns: Seq<NodeView> = Seq::empty();
    let ghost mut es: Seq<RelationshipView> = Seq::empty();
    let mut i: usize = 0;
    #[verifier::loop_isolation(false)]
    while i < lines.len()
        invariant
            ls == strings_view(lines@),
            ls == lines_of(input@),
            i <= lines@.len(),
            run_lines(ls, i as int) == (
                parser@,
                Ok::<(Seq<NodeView>, Seq<RelationshipView>), ErrorView>((ns, es)),
            ),
            on_node == node_callback,
            on_edge == edge_callback,
            all_handed_nodes(on_node, ns),
            all_handed_edges(on_edge, es),
            forall|m: int|
                0 <= m <= i ==> all_handed(on_node, on_edge, (#[trigger] run_lines(ls, m)).1),
            forall|n: Node| call_requires(on_node, (n,)),
            forall|r: Relationship| call_requires(on_edge, (r,)),
        decreases lines@.len() - i,
    {
        proof {
            lemma_run_row_bound(ls, i as int);
        }
        assert(ls[i as int] == lines@[i as int]@);
        match parser.parse_line(lines[i].as_str()) {
            Err(e) => {
                proof {
                    lemma_run_error_persists(ls, i + 1, ls.len() as int);
                    assert forall|m: int| 0 <= m <= ls.len() implies all_handed(
                        on_node,
                        on_edge,
                        (#[trigger] run_lines(ls, m)).1,
                    ) by {
                        if m > i {
                            lemma_run_error_persists(ls, i + 1, m);
                        }
                    }
                }
                return Err(e);
            },
            Ok(None) => {},
            Ok(Some(Neo4jCsvRecord::Node(node))) => {
                let ghost handed = node;
                on_node(node);
                proof {
                    let old_ns = ns;
                    ns = ns.push(handed@);
                    assert forall|k: int| 0 <= k < ns.len() implies exists|n: Node|
                        #![trigger call_ensures(on_node, (n,), ())]
                        call_ensures(on_node, (n,), ()) && n@ == #[trigger] ns[k] by {
                        if k < old_ns.len() {
                            assert(ns[k] == old_ns[k]);
                        } else {
                            assert(call_ensures(on_node, (handed,), ()));
                        }
                    }
                }
            },
            Ok(Some(Neo4jCsvRecord::Edge(edge))) => {
                let ghost handed = edge;
                on_edge(edge);
                proof {
                    let old_es = es;
                    es = es.push(handed@);
                    assert forall|k: int| 0 <= k < es.len() implies exists|r: Relationship|
                        #![trigger call_ensures(on_edge, (r,), ())]
                        call_ensures(on_edge, (r,), ()) && r@ == #[trigger] es[k] by {
                        if k < old_es.len() {
                            assert(es[k] == old_es[k]);
                        } else {
                            assert(call_ensures(on_edge, (handed,), ()));
                        }
                    }
                }
            },
        }
        i = i + 1;
    }
    Ok(())
}

} // verus!
