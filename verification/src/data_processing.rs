//! From text lines to the co-purchase graph and the table of node
//! information, and the pair of them cut down to their common identifiers.

use crate::category::{
    categories, every_node, in_category, lemma_members_finite, lemma_no_nodes, lemma_one_more_node,
    lemma_prefix_step, members,
};
use crate::record::{initial, records, run, Record, RecordModel, RecordParser};
use crate::table::Table;
use crate::text::copy_strings;
use vstd::prelude::*;

verus! {

/// The adjacency lists: identifier to the identifiers of its neighbours.
/// A neighbour may occur more than once in a list.
pub type Graph = Table<Vec<String>>;

/// The node information: identifier to `(title, category)`.
pub type NodeInfo = Table<(String, String)>;

/// The mathematical content of a [`Graph`].
pub type GraphModel = Map<Seq<char>, Seq<Seq<char>>>;

/// The mathematical content of a [`NodeInfo`].
pub type NodeInfoModel = Map<Seq<char>, (Seq<char>, Seq<char>)>;

/// `g` after `neighbour` is added at the end of the list of `node`, which is
/// created if `node` has none.
pub open spec fn with_neighbour(
    g: GraphModel,
    node: Seq<char>,
    neighbour: Seq<char>,
) -> GraphModel {
    g.insert(
        node,
        if g.contains_key(node) {
            g[node].push(neighbour)
        } else {
            seq![neighbour]
        },
    )
}

/// `g` after `identifier` is added to the list of each member of `related`,
/// in order, once for every time the member occurs.
pub open spec fn linked_back(
    g: GraphModel,
    identifier: Seq<char>,
    related: Seq<Seq<char>>,
) -> GraphModel
    decreases related.len(),
{
    if related.len() == 0 {
        g
    } else {
        with_neighbour(linked_back(g, identifier, related.drop_last()), related.last(), identifier)
    }
}

/// `g` after one record. First `identifier` is added to the list of each
/// member of `related`. Then the list of `identifier` itself, which starts
/// as `related` if it has none by then, has all of `related` added at its end.
pub open spec fn with_record(
    g: GraphModel,
    identifier: Seq<char>,
    related: Seq<Seq<char>>,
) -> GraphModel {
    let back = linked_back(g, identifier, related);
    let own = if back.contains_key(identifier) {
        back[identifier]
    } else {
        related
    };
    back.insert(identifier, own + related)
}

/// The graph of a sequence of records, taken in order.
pub open spec fn graph_of(records: Seq<RecordModel>) -> GraphModel
    decreases records.len(),
{
    if records.len() == 0 {
        Map::empty()
    } else {
        with_record(
            graph_of(records.drop_last()),
            records.last().identifier,
            records.last().related,
        )
    }
}

/// The node information of a sequence of records, taken in order: each
/// record overwrites what its identifier had.
pub open spec fn node_info_of(records: Seq<RecordModel>) -> NodeInfoModel
    decreases records.len(),
{
    if records.len() == 0 {
        Map::empty()
    } else {
        node_info_of(records.drop_last()).insert(
            records.last().identifier,
            (records.last().title, records.last().category),
        )
    }
}

/// Whoever is listed as a neighbour lists in turn the one who lists it.
pub open spec fn symmetric(g: GraphModel) -> bool {
    forall|a: Seq<char>, b: Seq<char>|
        g.contains_key(a) && #[trigger] g[a].contains(b) ==> g.contains_key(b) && g[b].contains(a)
}

/// What `linked_back` holds: the nodes of `g` and the members of `related`,
/// and in each list what it held before, and `identifier` where the node is
/// a member of `related`.
pub proof fn lemma_linked_back(g: GraphModel, identifier: Seq<char>, related: Seq<Seq<char>>)
    ensures
        forall|n: Seq<char>| #[trigger]
            linked_back(g, identifier, related).contains_key(n) <==> g.contains_key(n)
                || related.contains(n),
        forall|n: Seq<char>, x: Seq<char>|
            linked_back(g, identifier, related).contains_key(n) ==> (#[trigger] linked_back(
                g,
                identifier,
                related,
            )[n].contains(x) <==> (g.contains_key(n) && g[n].contains(x)) || (x == identifier
                && related.contains(n))),
    decreases related.len(),
{
    let out = linked_back(g, identifier, related);
    if related.len() > 0 {
        let front = related.drop_last();
        let last = related.last();
        let before = linked_back(g, identifier, front);
        lemma_linked_back(g, identifier, front);
        assert forall|n: Seq<char>| #[trigger]
            out.contains_key(n) <==> g.contains_key(n) || related.contains(n) by {
            if related.contains(n) {
                let j = choose|j: int| 0 <= j < related.len() && related[j] == n;
                if j < front.len() {
                    assert(front[j] == n);
                }
            }
            if front.contains(n) {
                let j = choose|j: int| 0 <= j < front.len() && front[j] == n;
                assert(related[j] == n);
            }
            assert(related[related.len() - 1] == last);
        }
        assert forall|n: Seq<char>, x: Seq<char>| out.contains_key(n) implies (
        #[trigger] out[n].contains(x) <==> (g.contains_key(n) && g[n].contains(x)) || (x
            == identifier && related.contains(n))) by {
            assert(related[related.len() - 1] == last);
            if front.contains(n) {
                let j = choose|j: int| 0 <= j < front.len() && front[j] == n;
                assert(related[j] == n);
            }
            if related.contains(n) && n != last {
                let j = choose|j: int| 0 <= j < related.len() && related[j] == n;
                assert(front[j] == n);
            }
            if n == last {
                if before.contains_key(n) {
                    let list = before[n];
                    assert(out[n] == list.push(identifier));
                    if out[n].contains(x) {
                        let j = choose|j: int| 0 <= j < out[n].len() && out[n][j] == x;
                        if j < list.len() {
                            assert(list[j] == x);
                        }
                    }
                    if list.contains(x) {
                        let j = choose|j: int| 0 <= j < list.len() && list[j] == x;
                        assert(out[n][j] == x);
                    }
                    assert(out[n][list.len() as int] == identifier);
                } else {
                    assert(out[n] == seq![identifier]);
                    assert(out[n][0] == identifier);
                }
            }
        }
    }
}

/// A record removes nothing: every node stays, and every list keeps what
/// it held, in order, at its front.
pub proof fn lemma_with_record_only_adds(
    g: GraphModel,
    identifier: Seq<char>,
    related: Seq<Seq<char>>,
)
    ensures
        with_record(g, identifier, related).contains_key(identifier),
        forall|n: Seq<char>| #[trigger]
            g.contains_key(n) ==> with_record(g, identifier, related).contains_key(n)
                && g[n].is_prefix_of(with_record(g, identifier, related)[n]),
{
    lemma_linked_back_only_adds(g, identifier, related);
    let back = linked_back(g, identifier, related);
    let out = with_record(g, identifier, related);
    assert forall|n: Seq<char>| #[trigger] g.contains_key(n) implies out.contains_key(n)
        && g[n].is_prefix_of(out[n]) by {
        assert(back.contains_key(n) && g[n].is_prefix_of(back[n]));
        if n == identifier {
            assert(out[n] == back[n] + related);
            assert(g[n] =~= out[n].subrange(0, g[n].len() as int));
        }
    }
}

/// Linking back removes nothing.
proof fn lemma_linked_back_only_adds(
    g: GraphModel,
    identifier: Seq<char>,
    related: Seq<Seq<char>>,
)
    ensures
        forall|n: Seq<char>| #[trigger]
            g.contains_key(n) ==> linked_back(g, identifier, related).contains_key(n)
                && g[n].is_prefix_of(linked_back(g, identifier, related)[n]),
    decreases related.len(),
{
    let out = linked_back(g, identifier, related);
    if related.len() == 0 {
        assert forall|n: Seq<char>| #[trigger] g.contains_key(n) implies g[n].is_prefix_of(
            out[n],
        ) by {
            assert(g[n] =~= g[n].subrange(0, g[n].len() as int));
        }
    } else {
        let before = linked_back(g, identifier, related.drop_last());
        lemma_linked_back_only_adds(g, identifier, related.drop_last());
        assert forall|n: Seq<char>| #[trigger] g.contains_key(n) implies out.contains_key(n)
            && g[n].is_prefix_of(out[n]) by {
            assert(before.contains_key(n) && g[n].is_prefix_of(before[n]));
            if n == related.last() {
                assert(out[n] == before[n].push(identifier));
                assert(g[n] =~= out[n].subrange(0, g[n].len() as int));
            }
        }
    }
}

/// One record leaves a symmetric graph symmetric.
pub proof fn lemma_with_record_symmetric(
    g: GraphModel,
    identifier: Seq<char>,
    related: Seq<Seq<char>>,
)
    requires
        symmetric(g),
    ensures
        symmetric(with_record(g, identifier, related)),
{
    let back = linked_back(g, identifier, related);
    let own = if back.contains_key(identifier) {
        back[identifier]
    } else {
        related
    };
    let out = with_record(g, identifier, related);
    lemma_linked_back(g, identifier, related);
    assert(out[identifier] == own + related);
    assert forall|x: Seq<char>| #[trigger]
        out[identifier].contains(x) <==> own.contains(x) || related.contains(x) by {
        let list = own + related;
        if list.contains(x) {
            let j = choose|j: int| 0 <= j < list.len() && list[j] == x;
            if j < own.len() {
                assert(own[j] == x);
            } else {
                assert(related[j - own.len()] == x);
            }
        }
        if own.contains(x) {
            let j = choose|j: int| 0 <= j < own.len() && own[j] == x;
            assert(list[j] == x);
        }
        if related.contains(x) {
            let j = choose|j: int| 0 <= j < related.len() && related[j] == x;
            assert(list[own.len() + j] == x);
        }
    }
    assert forall|a: Seq<char>, b: Seq<char>|
        out.contains_key(a) && #[trigger] out[a].contains(b) implies out.contains_key(b)
        && out[b].contains(a) by {
        if a == identifier {
            if related.contains(b) {
                assert(back.contains_key(b));
                assert(back[b].contains(a));
                if b != identifier {
                    assert(out[b] == back[b]);
                }
            } else {
                assert(own.contains(b));
                assert(back.contains_key(a) && back[a].contains(b));
                assert(g.contains_key(a) && g[a].contains(b));
                assert(g.contains_key(b) && g[b].contains(a));
                assert(back.contains_key(b) && back[b].contains(a));
                if b != identifier {
                    assert(out[b] == back[b]);
                }
            }
        } else {
            assert(out[a] == back[a]);
            assert(back.contains_key(a) && back[a].contains(b));
            if g.contains_key(a) && g[a].contains(b) {
                assert(g.contains_key(b) && g[b].contains(a));
                assert(back.contains_key(b) && back[b].contains(a));
                if b != identifier {
                    assert(out[b] == back[b]);
                } else {
                    assert(own.contains(a));
                }
            } else {
                assert(b == identifier && related.contains(a));
            }
        }
    }
}

/// The graph of any sequence of records is symmetric: if `a` lists `b` as a
/// neighbour, then `b` is a node and lists `a`.
pub proof fn lemma_graph_of_symmetric(records: Seq<RecordModel>)
    ensures
        symmetric(graph_of(records)),
    decreases records.len(),
{
    if records.len() > 0 {
        lemma_graph_of_symmetric(records.drop_last());
        lemma_with_record_symmetric(
            graph_of(records.drop_last()),
            records.last().identifier,
            records.last().related,
        );
    }
}

/// Adds `neighbour` at the end of the list of `node`, creating the list if
/// `node` has none.
pub fn push_neighbour(graph: &mut Graph, node: &String, neighbour: String)
    requires
        old(graph).wf(),
    ensures
        final(graph).wf(),
        final(graph)@ == with_neighbour(old(graph)@, node@, neighbour@),
{
    proof {
        graph.lemma_wf();
    }
    match graph.position(node.as_str()) {
        Some(i) => {
            let ghost before = *graph;
            let list = graph.value_at_mut(i);
            list.push(neighbour);
            proof {
                graph.lemma_value_replaced(&before, i as int);
                let list_before = before.values()[i as int].deep_view();
                assert(graph.values()[i as int].deep_view() =~= list_before.push(neighbour@));
            }
        },
        None => {
            let mut list: Vec<String> = Vec::new();
            list.push(neighbour);
            assert(list.deep_view() =~= seq![neighbour@]);
            graph.insert(node.clone(), list);
        },
    }
}

/// Takes one record into the graph: the identifier is added to the list of
/// each related identifier; the identifier's own list is set to the related
/// identifiers if it has none by then; and each related identifier is added
/// to the identifier's own list.
pub fn add_record(graph: &mut Graph, identifier: &String, related: &Vec<String>)
    requires
        old(graph).wf(),
    ensures
        final(graph).wf(),
        final(graph)@ == with_record(old(graph)@, identifier@, related.deep_view()),
        symmetric(old(graph)@) ==> symmetric(final(graph)@),
{
    let ghost ids = related.deep_view();
    let mut j: usize = 0;
    while j < related.len()
        invariant
            j <= related.len(),
            ids == related.deep_view(),
            graph.wf(),
            graph@ == linked_back(old(graph)@, identifier@, ids.take(j as int)),
        decreases related.len() - j,
    {
        assert(ids.take(j + 1).drop_last() =~= ids.take(j as int));
        push_neighbour(graph, &related[j], identifier.clone());
        j += 1;
    }
    assert(ids.take(related.len() as int) =~= ids);
    if !graph.contains_key(identifier.as_str()) {
        let list = copy_strings(related);
        graph.insert(identifier.clone(), list);
    }
    let ghost claimed = graph@;
    let ghost own = claimed[identifier@];
    let mut j: usize = 0;
    assert(own + ids.take(0) =~= own);
    assert(claimed =~= claimed.insert(identifier@, own));
    while j < related.len()
        invariant
            j <= related.len(),
            ids == related.deep_view(),
            graph.wf(),
            claimed.contains_key(identifier@),
            own == claimed[identifier@],
            graph@ == claimed.insert(identifier@, own + ids.take(j as int)),
        decreases related.len() - j,
    {
        assert(ids.take(j + 1) =~= ids.take(j as int).push(ids[j as int]));
        assert((own + ids.take(j as int)).push(ids[j as int]) =~= own + ids.take(j + 1));
        push_neighbour(graph, identifier, related[j].clone());
        assert(graph@ =~= claimed.insert(identifier@, own + ids.take(j + 1)));
        j += 1;
    }
    proof {
        assert(ids.take(related.len() as int) =~= ids);
        assert(graph@ =~= with_record(old(graph)@, identifier@, ids));
        if symmetric(old(graph)@) {
            lemma_with_record_symmetric(old(graph)@, identifier@, ids);
        }
    }
}

/// The graph of `records`.
pub fn build_graph(records: &Vec<Record>) -> (graph: Graph)
    ensures
        graph.wf(),
        graph@ == graph_of(records.deep_view()),
        symmetric(graph@),
{
    let mut graph: Graph = Table::new();
    let mut i: usize = 0;
    while i < records.len()
        invariant
            i <= records.len(),
            graph.wf(),
            graph@ == graph_of(records.deep_view().take(i as int)),
        decreases records.len() - i,
    {
        let ghost taken = records.deep_view().take(i + 1);
        assert(taken.drop_last() =~= records.deep_view().take(i as int));
        add_record(&mut graph, &records[i].identifier, &records[i].related);
        i += 1;
    }
    proof {
        assert(records.deep_view().take(records.len() as int) =~= records.deep_view());
        lemma_graph_of_symmetric(records.deep_view());
    }
    graph
}

/// The node information of `records`.
pub fn build_node_info(records: &Vec<Record>) -> (node_info: NodeInfo)
    ensures
        node_info.wf(),
        node_info@ == node_info_of(records.deep_view()),
{
    let mut node_info: NodeInfo = Table::new();
    let mut i: usize = 0;
    while i < records.len()
        invariant
            i <= records.len(),
            node_info.wf(),
            node_info@ == node_info_of(records.deep_view().take(i as int)),
        decreases records.len() - i,
    {
        let ghost taken = records.deep_view().take(i + 1);
        assert(taken.drop_last() =~= records.deep_view().take(i as int));
        let record = &records[i];
        node_info.insert(record.identifier.clone(), (record.title.clone(), record.category.clone()));
        i += 1;
    }
    assert(records.deep_view().take(records.len() as int) =~= records.deep_view());
    node_info
}

/// The graph of the records that `lines` hold.
pub fn data_to_graph(lines: &Vec<String>) -> (graph: Graph)
    ensures
        graph.wf(),
        graph@ == graph_of(records(lines.deep_view())),
        symmetric(graph@),
{
    let mut parser = RecordParser::new();
    let mut graph: Graph = Table::new();
    let mut i: usize = 0;
    while i < lines.len()
        invariant
            i <= lines.len(),
            parser.wf(),
            parser@ == run(initial(), lines.deep_view().take(i as int)),
            graph.wf(),
            graph@ == graph_of(records(lines.deep_view().take(i as int))),
        decreases lines.len() - i,
    {
        let ghost next = lines.deep_view().take(i + 1);
        assert(next.drop_last() =~= lines.deep_view().take(i as int));
        assert(next.last() == lines[i as int]@);
        match parser.feed(lines[i].as_str()) {
            Some(record) => {
                assert(records(next).drop_last() =~= records(next.drop_last()));
                add_record(&mut graph, &record.identifier, &record.related);
            },
            None => {},
        }
        i += 1;
    }
    proof {
        assert(lines.deep_view().take(lines.len() as int) =~= lines.deep_view());
        lemma_graph_of_symmetric(records(lines.deep_view()));
    }
    graph
}

/// The node information of the records that `lines` hold.
pub fn node_information(lines: &Vec<String>) -> (node_info: NodeInfo)
    ensures
        node_info.wf(),
        node_info@ == node_info_of(records(lines.deep_view())),
{
    let mut parser = RecordParser::new();
    let mut node_info: NodeInfo = Table::new();
    let mut i: usize = 0;
    while i < lines.len()
        invariant
            i <= lines.len(),
            parser.wf(),
            parser@ == run(initial(), lines.deep_view().take(i as int)),
            node_info.wf(),
            node_info@ == node_info_of(records(lines.deep_view().take(i as int))),
        decreases lines.len() - i,
    {
        let ghost next = lines.deep_view().take(i + 1);
        assert(next.drop_last() =~= lines.deep_view().take(i as int));
        assert(next.last() == lines[i as int]@);
        match parser.feed(lines[i].as_str()) {
            Some(record) => {
                assert(records(next).drop_last() =~= records(next.drop_last()));
                let Record { identifier, title, category, related: _ } = record;
                node_info.insert(identifier, (title, category));
            },
            None => {},
        }
        i += 1;
    }
    assert(lines.deep_view().take(lines.len() as int) =~= lines.deep_view());
    node_info
}

/// In the node information of a sequence of records, each identifier has the
/// title and category of the last record that bears it.
pub proof fn lemma_last_record_wins(records: Seq<RecordModel>, i: int)
    requires
        0 <= i < records.len(),
        forall|j: int| i < j < records.len() ==> records[j].identifier != records[i].identifier,
    ensures
        node_info_of(records).contains_key(records[i].identifier),
        node_info_of(records)[records[i].identifier] == (records[i].title, records[i].category),
    decreases records.len(),
{
    if i < records.len() - 1 {
        let front = records.drop_last();
        assert forall|j: int| i < j < front.len() implies front[j].identifier
            != front[i].identifier by {
            assert(front[j] == records[j]);
        }
        lemma_last_record_wins(front, i);
    }
}

/// The node information of a sequence of records holds the identifiers of
/// the records and no others.
pub proof fn lemma_node_info_identifiers(records: Seq<RecordModel>)
    ensures
        forall|k: Seq<char>| #[trigger]
            node_info_of(records).contains_key(k) <==> exists|i: int|
                0 <= i < records.len() && (#[trigger] records[i]).identifier == k,
    decreases records.len(),
{
    if records.len() > 0 {
        let front = records.drop_last();
        lemma_node_info_identifiers(front);
        assert forall|k: Seq<char>| #[trigger]
            node_info_of(records).contains_key(k) <==> exists|i: int|
                0 <= i < records.len() && (#[trigger] records[i]).identifier == k by {
            if node_info_of(records).contains_key(k) {
                if k == records.last().identifier {
                    assert(records[records.len() - 1].identifier == k);
                } else {
                    assert(node_info_of(front).contains_key(k));
                    let i = choose|i: int|
                        0 <= i < front.len() && (#[trigger] front[i]).identifier == k;
                    assert(records[i].identifier == k);
                }
            }
            if exists|i: int| 0 <= i < records.len() && (#[trigger] records[i]).identifier == k {
                let i = choose|i: int|
                    0 <= i < records.len() && (#[trigger] records[i]).identifier == k;
                if i < front.len() {
                    assert(front[i].identifier == k);
                    assert(node_info_of(front).contains_key(k));
                }
            }
        }
    }
}

/// For each category of the node information, the number of identifiers that have it.
pub fn count_items_by_category(node_dictionary: &NodeInfo) -> (out: Table<usize>)
    requires
        node_dictionary.wf(),
    ensures
        out.wf(),
        out@.dom() == categories(node_dictionary@),
        forall|c: Seq<char>| #[trigger]
            out@.contains_key(c) ==> out@[c] == members(
                node_dictionary@.dom(),
                node_dictionary@,
                c,
                every_node(),
            ).len(),
{
    let ghost m = node_dictionary@;
    let ghost keys = node_dictionary.keys();
    let mut out: Table<usize> = Table::new();
    let n = node_dictionary.len();
    let mut i: usize = 0;
    proof {
        node_dictionary.lemma_wf();
        assert(keys.take(0).to_set() =~= Set::<Seq<char>>::empty());
        assert forall|c: Seq<char>| members(keys.take(0).to_set(), m, c, every_node()).len()
            == 0 by {
            lemma_no_nodes(m, c, every_node(), |k: Seq<char>| 0nat);
        }
    }
    while i < n
        invariant
            i <= n,
            n == keys.len(),
            m == node_dictionary@,
            keys == node_dictionary.keys(),
            keys.no_duplicates(),
            node_dictionary.wf(),
            out.wf(),
            forall|c: Seq<char>| #[trigger]
                out@.contains_key(c) <==> members(
                    keys.take(i as int).to_set(),
                    m,
                    c,
                    every_node(),
                ).len() > 0,
            forall|c: Seq<char>| #[trigger]
                out@.contains_key(c) ==> out@[c] == members(
                    keys.take(i as int).to_set(),
                    m,
                    c,
                    every_node(),
                ).len() && out@[c] <= i,
        decreases n - i,
    {
        let info = node_dictionary.value_at(i);
        let ghost node = keys[i as int];
        let ghost own = info.1@;
        let ghost seen = keys.take(i as int).to_set();
        let ghost before = out@;
        proof {
            node_dictionary.lemma_wf();
            lemma_prefix_step(keys, i as int);
            assert(in_category(m, node, own));
            assert forall|c: Seq<char>| !in_category(m, node, c) implies #[trigger] members(
                seen.insert(node),
                m,
                c,
                every_node(),
            ) == members(seen, m, c, every_node()) by {
                lemma_one_more_node(seen, node, m, c, every_node(), |k: Seq<char>| 0nat);
            }
            lemma_one_more_node(seen, node, m, own, every_node(), |k: Seq<char>| 0nat);
            if !before.contains_key(own) {
                assert(members(seen, m, own, every_node()) =~= Set::<Seq<char>>::empty());
            }
        }
        match out.position(info.1.as_str()) {
            Some(at) => {
                let count = *out.value_at(at);
                out.set_value_at(at, count + 1);
            },
            None => {
                out.insert(info.1.clone(), 1);
            },
        }
        proof {
            assert forall|c: Seq<char>| c != own implies out@.contains_key(c)
                == before.contains_key(c) && (before.contains_key(c) ==> out@[c]
                == before[c]) by {}
        }
        i += 1;
    }
    proof {
        assert(keys.take(n as int) =~= keys);
        assert forall|c: Seq<char>| out@.contains_key(c) <==> categories(m).contains(c) by {
            let all = members(m.dom(), m, c, every_node());
            lemma_members_finite(m.dom(), m, c, every_node());
            if out@.contains_key(c) {
                let k = all.choose();
                assert(all.contains(k));
                assert(in_category(m, k, c));
            }
            if categories(m).contains(c) {
                let k = choose|k: Seq<char>| in_category(m, k, c);
                assert(all.contains(k));
            }
        }
        assert(out@.dom() =~= categories(m));
    }
    out
}

/// The pair cut down to the identifiers that both hold. Neighbour lists and
/// node information are kept as they are: a list may still name identifiers
/// that the pair no longer holds.
pub open spec fn reconciled(g: GraphModel, m: NodeInfoModel) -> (GraphModel, NodeInfoModel) {
    (g.restrict(m.dom()), m.restrict(g.dom()))
}

/// Both halves of a reconciled pair hold the same identifiers, and
/// reconciling the pair again leaves it as it is.
pub proof fn lemma_reconciled_idempotent(g: GraphModel, m: NodeInfoModel)
    ensures
        reconciled(g, m).0.dom() == g.dom().intersect(m.dom()),
        reconciled(g, m).1.dom() == g.dom().intersect(m.dom()),
        reconciled(reconciled(g, m).0, reconciled(g, m).1) == reconciled(g, m),
{
    let (g1, m1) = reconciled(g, m);
    assert(g1.dom() =~= g.dom().intersect(m.dom()));
    assert(m1.dom() =~= g.dom().intersect(m.dom()));
    assert(g1.restrict(m1.dom()) =~= g1);
    assert(m1.restrict(g1.dom()) =~= m1);
}

/// A pair whose halves hold the same identifiers is its own reconciled pair.
pub proof fn lemma_reconciled_fixed(g: GraphModel, m: NodeInfoModel)
    requires
        g.dom() == m.dom(),
    ensures
        reconciled(g, m) == (g, m),
{
    assert(g.restrict(m.dom()) =~= g);
    assert(m.restrict(g.dom()) =~= m);
}

/// The graph and the node information cut down to the identifiers that both hold.
pub fn reconcile(graph: &Graph, node_info: &NodeInfo) -> (out: (Graph, NodeInfo))
    requires
        graph.wf(),
        node_info.wf(),
    ensures
        out.0.wf(),
        out.1.wf(),
        (out.0@, out.1@) == reconciled(graph@, node_info@),
{
    let ghost g = graph@;
    let ghost m = node_info@;
    let ghost keys = graph.keys();
    let mut new_graph: Graph = Table::new();
    let mut new_node_info: NodeInfo = Table::new();
    let n = graph.len();
    let mut i: usize = 0;
    proof {
        graph.lemma_wf();
        node_info.lemma_wf();
        assert(new_graph@ =~= g.restrict(Set::new(|k: Seq<char>| false)));
        assert(new_node_info@ =~= m.restrict(Set::new(|k: Seq<char>| false)));
    }
    while i < n
        invariant
            i <= n,
            n == keys.len(),
            g == graph@,
            m == node_info@,
            keys == graph.keys(),
            graph.wf(),
            node_info.wf(),
            new_graph.wf(),
            new_node_info.wf(),
            new_graph@ == g.restrict(
                Set::new(|k: Seq<char>| m.contains_key(k) && keys.take(i as int).contains(k)),
            ),
            new_node_info@ == m.restrict(Set::new(|k: Seq<char>| keys.take(i as int).contains(k))),
        decreases n - i,
    {
        let node = graph.key_at(i);
        let ghost seen = keys.take(i as int);
        let ghost next = keys.take(i + 1);
        proof {
            graph.lemma_wf();
            assert(next =~= seen.push(node@));
            assert forall|k: Seq<char>| next.contains(k) <==> seen.contains(k) || k == node@ by {
                if seen.contains(k) {
                    let j = choose|j: int| 0 <= j < seen.len() && seen[j] == k;
                    assert(next[j] == k);
                }
                if next.contains(k) {
                    let j = choose|j: int| 0 <= j < next.len() && next[j] == k;
                    if j < seen.len() {
                        assert(seen[j] == k);
                    }
                }
                assert(next[i as int] == node@);
            }
        }
        match node_info.get(node.as_str()) {
            Some(info) => {
                let neighbours = copy_strings(graph.value_at(i));
                new_graph.insert(node.clone(), neighbours);
                new_node_info.insert(node.clone(), (info.0.clone(), info.1.clone()));
                proof {
                    assert(new_graph@ =~= g.restrict(
                        Set::new(|k: Seq<char>| m.contains_key(k) && next.contains(k)),
                    ));
                    assert(new_node_info@ =~= m.restrict(
                        Set::new(|k: Seq<char>| next.contains(k)),
                    ));
                }
            },
            None => {
                proof {
                    assert(new_graph@ =~= g.restrict(
                        Set::new(|k: Seq<char>| m.contains_key(k) && next.contains(k)),
                    ));
                    assert(new_node_info@ =~= m.restrict(
                        Set::new(|k: Seq<char>| next.contains(k)),
                    ));
                }
            },
        }
        i += 1;
    }
    proof {
        assert(keys.take(n as int) =~= keys);
        graph.lemma_wf();
        assert(new_graph@ =~= g.restrict(m.dom()));
        assert(new_node_info@ =~= m.restrict(g.dom()));
    }
    (new_graph, new_node_info)
}

} // verus!
