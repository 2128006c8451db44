//! Statistics by category over the graph and the node information.
//!
//! Each statistic maps a category to a [`Ratio`] of two tallies; forming the
//! quotient is left to the caller. A node counts for a category only if it
//! is a node of the graph and has node information; the length of its list
//! of neighbours is its degree, duplicates and strangers included.
//!
//! Every statistic takes any pair of graph and node information, reconciled
//! or as it was read. Reconciling changes no average degree
//! ([`lemma_average_degree_of_reconciled`]). It can change the likelihoods
//! and the cross-category averages: a neighbour counts for a category only
//! if the node information that is passed holds it.

use crate::category::{
    categories, count_in_category, degree, every_node, in_category, lemma_members_finite,
    lemma_no_nodes, lemma_one_more_node, lemma_prefix_step, lemma_total_agrees, links_into, members,
    total, with_neighbour_in, with_neighbours, Ratio,
};
use crate::data_processing::{reconciled, Graph, GraphModel, NodeInfo, NodeInfoModel};
use crate::table::Table;
use vstd::prelude::*;

verus! {

/// The largest length that a list of neighbours can have on any machine.
const MAX_DEGREE: u128 = 0xFFFF_FFFF_FFFF_FFFF;

/// The tallies of `category` in `tallies`, or two zeros where it has none.
spec fn tallies_of(tallies: Map<Seq<char>, Ratio>, category: Seq<char>) -> Ratio {
    if tallies.contains_key(category) {
        tallies[category]
    } else {
        Ratio { numerator: 0, denominator: 0 }
    }
}

/// Adds to the two tallies of `category`, which start at zero.
fn add_to(tallies: &mut Table<Ratio>, category: &String, numerator: u128, denominator: u128)
    requires
        old(tallies).wf(),
        tallies_of(old(tallies)@, category@).numerator + numerator <= u128::MAX,
        tallies_of(old(tallies)@, category@).denominator + denominator <= u128::MAX,
    ensures
        final(tallies).wf(),
        final(tallies)@ == old(tallies)@.insert(
            category@,
            Ratio {
                numerator: (tallies_of(old(tallies)@, category@).numerator + numerator) as u128,
                denominator: (tallies_of(old(tallies)@, category@).denominator
                    + denominator) as u128,
            },
        ),
{
    match tallies.position(category.as_str()) {
        Some(i) => {
            let before = *tallies.value_at(i);
            tallies.set_value_at(
                i,
                Ratio {
                    numerator: before.numerator + numerator,
                    denominator: before.denominator + denominator,
                },
            );
        },
        None => {
            tallies.insert(category.clone(), Ratio { numerator, denominator });
        },
    }
}

/// The sum of the degrees of the nodes of `category` that `keep` lets
/// through, and the number of those nodes.
pub open spec fn degree_tallies(
    g: GraphModel,
    m: NodeInfoModel,
    category: Seq<char>,
    keep: spec_fn(Seq<char>) -> bool,
) -> (nat, nat) {
    (
        total(members(g.dom(), m, category, keep), degree(g)),
        members(g.dom(), m, category, keep).len(),
    )
}

/// The nodes that an average degree counts: all of them, or only those with neighbours.
pub open spec fn counted(g: GraphModel, only_connected: bool) -> spec_fn(Seq<char>) -> bool {
    if only_connected {
        with_neighbours(g)
    } else {
        every_node()
    }
}

/// Reconciling the pair changes no average degree: a node is counted only
/// if both halves hold it, and its list of neighbours is kept whole.
pub proof fn lemma_average_degree_of_reconciled(
    g: GraphModel,
    m: NodeInfoModel,
    category: Seq<char>,
    only_connected: bool,
)
    requires
        g.dom().finite(),
    ensures
        degree_tallies(
            reconciled(g, m).0,
            reconciled(g, m).1,
            category,
            counted(reconciled(g, m).0, only_connected),
        ) == degree_tallies(g, m, category, counted(g, only_connected)),
{
    let (g1, m1) = reconciled(g, m);
    let before = members(g.dom(), m, category, counted(g, only_connected));
    let after = members(g1.dom(), m1, category, counted(g1, only_connected));
    assert(after =~= before);
    lemma_members_finite(g.dom(), m, category, counted(g, only_connected));
    lemma_total_agrees(before, degree(g1), degree(g));
}

/// For each category that has a counted node: the sum of the degrees of its
/// counted nodes, over their number.
fn average_degree(graph: &Graph, node_info: &NodeInfo, only_connected: bool) -> (out: Table<Ratio>)
    requires
        graph.wf(),
        node_info.wf(),
    ensures
        out.wf(),
        forall|c: Seq<char>| #[trigger]
            out@.contains_key(c) <==> degree_tallies(
                graph@,
                node_info@,
                c,
                counted(graph@, only_connected),
            ).1 > 0,
        forall|c: Seq<char>| #[trigger]
            out@.contains_key(c) ==> {
                &&& out@[c].numerator == degree_tallies(
                    graph@,
                    node_info@,
                    c,
                    counted(graph@, only_connected),
                ).0
                &&& out@[c].denominator == degree_tallies(
                    graph@,
                    node_info@,
                    c,
                    counted(graph@, only_connected),
                ).1
            },
{
    let mut out: Table<Ratio> = Table::new();
    let n = graph.len();
    let mut i: usize = 0;
    let ghost g = graph@;
    let ghost m = node_info@;
    let ghost keys = graph.keys();
    let ghost keep = counted(g, only_connected);
    proof {
        graph.lemma_wf();
        assert(keys.take(0).to_set() =~= Set::<Seq<char>>::empty());
        assert forall|c: Seq<char>| members(keys.take(0).to_set(), m, c, keep).len() == 0 by {
            lemma_no_nodes(m, c, keep, degree(g));
        }
    }
    while i < n
        invariant
            i <= n,
            n == keys.len(),
            g == graph@,
            m == node_info@,
            keys == graph.keys(),
            keep == counted(g, only_connected),
            keys.no_duplicates(),
            graph.wf(),
            node_info.wf(),
            out.wf(),
            forall|c: Seq<char>| #[trigger]
                out@.contains_key(c) <==> members(keys.take(i as int).to_set(), m, c, keep).len()
                    > 0,
            forall|c: Seq<char>| #[trigger]
                out@.contains_key(c) ==> {
                    &&& out@[c].numerator == total(
                        members(keys.take(i as int).to_set(), m, c, keep),
                        degree(g),
                    )
                    &&& out@[c].denominator == members(keys.take(i as int).to_set(), m, c, keep).len()
                    &&& out@[c].numerator <= i * MAX_DEGREE
                    &&& out@[c].denominator <= i
                },
        decreases n - i,
    {
        let node = graph.key_at(i);
        let neighbours = graph.value_at(i);
        let ghost seen = keys.take(i as int).to_set();
        let ghost before = out@;
        proof {
            lemma_prefix_step(keys, i as int);
            assert(degree(g)(node@) == neighbours.len());
            assert(keep(node@) == (!only_connected || neighbours.len() > 0));
            assert forall|c: Seq<char>|
                !in_category(m, node@, c) || !keep(node@) implies #[trigger] members(
                seen.insert(node@),
                m,
                c,
                keep,
            ) == members(seen, m, c, keep) by {
                lemma_one_more_node(seen, node@, m, c, keep, degree(g));
            }
        }
        if !only_connected || neighbours.len() > 0 {
            match node_info.get(node.as_str()) {
                Some(info) => {
                    let ghost own = info.1@;
                    assert(in_category(m, node@, own));
                    assert(tallies_of(before, own).numerator <= i * MAX_DEGREE);
                    assert(tallies_of(before, own).denominator <= i);
                    add_to(&mut out, &info.1, neighbours.len() as u128, 1);
                    proof {
                        lemma_one_more_node(seen, node@, m, own, keep, degree(g));
                        if !before.contains_key(own) {
                            assert(members(seen, m, own, keep) =~= Set::<Seq<char>>::empty());
                            lemma_no_nodes(m, own, keep, degree(g));
                        }
                        assert forall|c: Seq<char>| c != own implies out@.contains_key(c)
                            == before.contains_key(c) && (before.contains_key(c) ==> out@[c]
                            == before[c]) by {}
                    }
                },
                None => {},
            }
        }
        i += 1;
    }
    proof {
        assert(keys.take(n as int) =~= keys);
    }
    out
}

/// For each category that has a node: the sum of the degrees of its nodes,
/// over the number of its nodes. The quotient is the category's average degree.
pub fn compute_average_degree_centrality_all_nodes(graph: &Graph, node_info: &NodeInfo) -> (out:
    Table<Ratio>)
    requires
        graph.wf(),
        node_info.wf(),
    ensures
        out.wf(),
        forall|c: Seq<char>| #[trigger]
            out@.contains_key(c) <==> members(graph@.dom(), node_info@, c, every_node()).len() > 0,
        forall|c: Seq<char>| #[trigger]
            out@.contains_key(c) ==> {
                &&& out@[c].numerator == total(
                    members(graph@.dom(), node_info@, c, every_node()),
                    degree(graph@),
                )
                &&& out@[c].denominator == members(graph@.dom(), node_info@, c, every_node()).len()
                &&& out@[c].denominator > 0
            },
{
    average_degree(graph, node_info, false)
}

/// For each category that has a node with neighbours: the sum of the degrees
/// of its nodes with neighbours, over the number of those nodes.
pub fn compute_average_degree_centrality_for_nodes_with_neighbours(
    graph: &Graph,
    node_info: &NodeInfo,
) -> (out: Table<Ratio>)
    requires
        graph.wf(),
        node_info.wf(),
    ensures
        out.wf(),
        forall|c: Seq<char>| #[trigger]
            out@.contains_key(c) <==> members(
                graph@.dom(),
                node_info@,
                c,
                with_neighbours(graph@),
            ).len() > 0,
        forall|c: Seq<char>| #[trigger]
            out@.contains_key(c) ==> {
                &&& out@[c].numerator == total(
                    members(graph@.dom(), node_info@, c, with_neighbours(graph@)),
                    degree(graph@),
                )
                &&& out@[c].denominator == members(
                    graph@.dom(),
                    node_info@,
                    c,
                    with_neighbours(graph@),
                ).len()
                &&& out@[c].denominator > 0
            },
{
    average_degree(graph, node_info, true)
}

/// How many of `neighbours` have the category `category`.
fn count_neighbours_in(neighbours: &Vec<String>, node_info: &NodeInfo, category: &String) -> (count:
    usize)
    requires
        node_info.wf(),
    ensures
        count == count_in_category(neighbours.deep_view(), node_info@, category@),
        count <= neighbours.len(),
{
    let ghost list = neighbours.deep_view();
    let mut count: usize = 0;
    let mut j: usize = 0;
    while j < neighbours.len()
        invariant
            j <= neighbours.len(),
            node_info.wf(),
            list == neighbours.deep_view(),
            count == count_in_category(list.take(j as int), node_info@, category@),
            count <= j,
        decreases neighbours.len() - j,
    {
        assert(list.take(j + 1).drop_last() =~= list.take(j as int));
        match node_info.get(neighbours[j].as_str()) {
            Some(info) => {
                if info.1 == *category {
                    count += 1;
                }
            },
            None => {},
        }
        j += 1;
    }
    assert(list.take(neighbours.len() as int) =~= list);
    count
}

/// The entries of `tallies` whose numerator is not zero.
fn with_numerator(tallies: &Table<Ratio>) -> (out: Table<Ratio>)
    requires
        tallies.wf(),
    ensures
        out.wf(),
        forall|c: Seq<char>| #[trigger]
            out@.contains_key(c) <==> tallies@.contains_key(c) && tallies@[c].numerator > 0,
        forall|c: Seq<char>| #[trigger] out@.contains_key(c) ==> out@[c] == tallies@[c],
{
    let mut out: Table<Ratio> = Table::new();
    let n = tallies.len();
    let mut i: usize = 0;
    proof {
        tallies.lemma_wf();
    }
    while i < n
        invariant
            i <= n,
            n == tallies.keys().len(),
            tallies.wf(),
            out.wf(),
            forall|c: Seq<char>| #[trigger]
                out@.contains_key(c) <==> tallies@.contains_key(c) && tallies@[c].numerator > 0
                    && tallies.position_of(c) < i,
            forall|c: Seq<char>| #[trigger] out@.contains_key(c) ==> out@[c] == tallies@[c],
        decreases n - i,
    {
        let ratio = *tallies.value_at(i);
        proof {
            tallies.lemma_wf();
        }
        if ratio.numerator > 0 {
            out.insert(tallies.key_at(i).clone(), ratio);
        }
        i += 1;
    }
    proof {
        tallies.lemma_wf();
    }
    out
}

/// For each category that has a node with a neighbour of its own category:
/// the number of such nodes, over the number of all nodes of the category.
/// A node counts once, however many of its neighbours share its category.
pub fn category_recommendation_likelihood(graph: &Graph, node_info: &NodeInfo) -> (out: Table<
    Ratio,
>)
    requires
        graph.wf(),
        node_info.wf(),
    ensures
        out.wf(),
        forall|c: Seq<char>| #[trigger]
            out@.contains_key(c) <==> members(
                graph@.dom(),
                node_info@,
                c,
                with_neighbour_in(graph@, node_info@, c),
            ).len() > 0,
        forall|c: Seq<char>| #[trigger]
            out@.contains_key(c) ==> {
                &&& out@[c].numerator == members(
                    graph@.dom(),
                    node_info@,
                    c,
                    with_neighbour_in(graph@, node_info@, c),
                ).len()
                &&& out@[c].denominator == members(graph@.dom(), node_info@, c, every_node()).len()
                &&& 0 < out@[c].numerator <= out@[c].denominator
            },
{
    let mut tallies: Table<Ratio> = Table::new();
    let n = graph.len();
    let mut i: usize = 0;
    let ghost g = graph@;
    let ghost m = node_info@;
    let ghost keys = graph.keys();
    proof {
        graph.lemma_wf();
        assert(keys.take(0).to_set() =~= Set::<Seq<char>>::empty());
        assert forall|c: Seq<char>| members(keys.take(0).to_set(), m, c, every_node()).len()
            == 0 by {
            lemma_no_nodes(m, c, every_node(), degree(g));
        }
    }
    while i < n
        invariant
            i <= n,
            n == keys.len(),
            g == graph@,
            m == node_info@,
            keys == graph.keys(),
            keys.no_duplicates(),
            graph.wf(),
            node_info.wf(),
            tallies.wf(),
            forall|c: Seq<char>| #[trigger]
                tallies@.contains_key(c) <==> members(
                    keys.take(i as int).to_set(),
                    m,
                    c,
                    every_node(),
                ).len() > 0,
            forall|c: Seq<char>| #[trigger]
                tallies@.contains_key(c) ==> {
                    &&& tallies@[c].numerator == members(
                        keys.take(i as int).to_set(),
                        m,
                        c,
                        with_neighbour_in(g, m, c),
                    ).len()
                    &&& tallies@[c].denominator == members(
                        keys.take(i as int).to_set(),
                        m,
                        c,
                        every_node(),
                    ).len()
                    &&& tallies@[c].numerator <= tallies@[c].denominator
                    &&& tallies@[c].denominator <= i
                },
        decreases n - i,
    {
        let node = graph.key_at(i);
        let neighbours = graph.value_at(i);
        let ghost seen = keys.take(i as int).to_set();
        let ghost before = tallies@;
        proof {
            lemma_prefix_step(keys, i as int);
            assert forall|c: Seq<char>| !in_category(m, node@, c) implies #[trigger] members(
                seen.insert(node@),
                m,
                c,
                every_node(),
            ) == members(seen, m, c, every_node()) by {
                lemma_one_more_node(seen, node@, m, c, every_node(), degree(g));
            }
            assert forall|c: Seq<char>| !in_category(m, node@, c) implies #[trigger] members(
                seen.insert(node@),
                m,
                c,
                with_neighbour_in(g, m, c),
            ) == members(seen, m, c, with_neighbour_in(g, m, c)) by {
                lemma_one_more_node(seen, node@, m, c, with_neighbour_in(g, m, c), degree(g));
            }
        }
        match node_info.get(node.as_str()) {
            Some(info) => {
                let ghost own = info.1@;
                let links = count_neighbours_in(neighbours, node_info, &info.1);
                let hit: u128 = if links > 0 {
                    1
                } else {
                    0
                };
                assert(in_category(m, node@, own));
                assert(with_neighbour_in(g, m, own)(node@) == (links > 0));
                assert(tallies_of(before, own).numerator <= tallies_of(before, own).denominator);
                assert(tallies_of(before, own).denominator <= i);
                add_to(&mut tallies, &info.1, hit, 1);
                proof {
                    lemma_one_more_node(seen, node@, m, own, every_node(), degree(g));
                    lemma_one_more_node(
                        seen,
                        node@,
                        m,
                        own,
                        with_neighbour_in(g, m, own),
                        degree(g),
                    );
                    if !before.contains_key(own) {
                        assert(members(seen, m, own, every_node()) =~= Set::<Seq<char>>::empty());
                        assert(members(seen, m, own, with_neighbour_in(g, m, own)) =~= Set::<
                            Seq<char>,
                        >::empty());
                    }
                    assert forall|c: Seq<char>| c != own implies tallies@.contains_key(c)
                        == before.contains_key(c) && (before.contains_key(c) ==> tallies@[c]
                        == before[c]) by {}
                }
            },
            None => {},
        }
        i += 1;
    }
    proof {
        assert(keys.take(n as int) =~= keys);
        assert forall|c: Seq<char>|
            members(g.dom(), m, c, with_neighbour_in(g, m, c)).len() > 0 implies members(
                g.dom(),
                m,
                c,
                every_node(),
            ).len() > 0 by {
            let some = members(g.dom(), m, c, with_neighbour_in(g, m, c));
            let all = members(g.dom(), m, c, every_node());
            lemma_members_finite(g.dom(), m, c, every_node());
            lemma_members_finite(g.dom(), m, c, with_neighbour_in(g, m, c));
            vstd::set_lib::lemma_len_subset(some, all);
        }
    }
    with_numerator(&tallies)
}

/// For every category of the node information: the number of neighbours
/// that nodes of the category have in their own category, over the number of
/// all neighbours that they have. A category without nodes in the graph, or
/// whose nodes have no neighbours, has two zeros.
pub fn category_purchasing_likelihood(graph: &Graph, node_info: &NodeInfo) -> (out: Table<Ratio>)
    requires
        graph.wf(),
        node_info.wf(),
    ensures
        out.wf(),
        out@.dom() == categories(node_info@),
        forall|c: Seq<char>| #[trigger]
            out@.contains_key(c) ==> {
                &&& out@[c].numerator == total(
                    members(graph@.dom(), node_info@, c, every_node()),
                    links_into(graph@, node_info@, c),
                )
                &&& out@[c].denominator == total(
                    members(graph@.dom(), node_info@, c, every_node()),
                    degree(graph@),
                )
                &&& out@[c].numerator <= out@[c].denominator
            },
{
    let ghost g = graph@;
    let ghost m = node_info@;
    let ghost keys = graph.keys();
    let mut out = zero_for_each_category(node_info);
    let n = graph.len();
    let mut i: usize = 0;
    proof {
        graph.lemma_wf();
        assert(keys.take(0).to_set() =~= Set::<Seq<char>>::empty());
        assert forall|c: Seq<char>|
            total(members(keys.take(0).to_set(), m, c, every_node()), links_into(g, m, c)) == 0
            && total(members(keys.take(0).to_set(), m, c, every_node()), degree(g)) == 0 by {
            lemma_no_nodes(m, c, every_node(), degree(g));
            lemma_no_nodes(m, c, every_node(), links_into(g, m, c));
        }
    }
    while i < n
        invariant
            i <= n,
            n == keys.len(),
            g == graph@,
            m == node_info@,
            keys == graph.keys(),
            keys.no_duplicates(),
            graph.wf(),
            node_info.wf(),
            out.wf(),
            out@.dom() == categories(m),
            forall|c: Seq<char>| #[trigger]
                out@.contains_key(c) ==> {
                    &&& out@[c].numerator == total(
                        members(keys.take(i as int).to_set(), m, c, every_node()),
                        links_into(g, m, c),
                    )
                    &&& out@[c].denominator == total(
                        members(keys.take(i as int).to_set(), m, c, every_node()),
                        degree(g),
                    )
                    &&& out@[c].numerator <= out@[c].denominator
                    &&& out@[c].denominator <= i * MAX_DEGREE
                },
        decreases n - i,
    {
        let node = graph.key_at(i);
        let neighbours = graph.value_at(i);
        let ghost seen = keys.take(i as int).to_set();
        let ghost before = out@;
        proof {
            lemma_prefix_step(keys, i as int);
            assert(degree(g)(node@) == neighbours.len());
            assert forall|c: Seq<char>| !in_category(m, node@, c) implies #[trigger] members(
                seen.insert(node@),
                m,
                c,
                every_node(),
            ) == members(seen, m, c, every_node()) by {
                lemma_one_more_node(seen, node@, m, c, every_node(), degree(g));
            }
        }
        match node_info.get(node.as_str()) {
            Some(info) => {
                let ghost own = info.1@;
                let links = count_neighbours_in(neighbours, node_info, &info.1);
                assert(in_category(m, node@, own));
                assert(categories(m).contains(own));
                assert(links_into(g, m, own)(node@) == links);
                add_to(&mut out, &info.1, links as u128, neighbours.len() as u128);
                proof {
                    lemma_one_more_node(seen, node@, m, own, every_node(), degree(g));
                    lemma_one_more_node(seen, node@, m, own, every_node(), links_into(g, m, own));
                    assert(out@.dom() =~= categories(m));
                    assert forall|c: Seq<char>| c != own && before.contains_key(c) implies out@[c]
                        == before[c] by {}
                }
            },
            None => {},
        }
        i += 1;
    }
    proof {
        assert(keys.take(n as int) =~= keys);
    }
    out
}

/// Two zeros for every category of the node information.
fn zero_for_each_category(node_info: &NodeInfo) -> (out: Table<Ratio>)
    requires
        node_info.wf(),
    ensures
        out.wf(),
        out@.dom() == categories(node_info@),
        forall|c: Seq<char>| #[trigger]
            out@.contains_key(c) ==> out@[c] == (Ratio { numerator: 0, denominator: 0 }),
{
    let ghost m = node_info@;
    let ghost keys = node_info.keys();
    let mut out: Table<Ratio> = Table::new();
    let n = node_info.len();
    let mut i: usize = 0;
    proof {
        node_info.lemma_wf();
    }
    while i < n
        invariant
            i <= n,
            n == keys.len(),
            m == node_info@,
            keys == node_info.keys(),
            node_info.wf(),
            out.wf(),
            forall|c: Seq<char>| #[trigger]
                out@.contains_key(c) <==> exists|j: int|
                    0 <= j < i && in_category(m, #[trigger] keys[j], c),
            forall|c: Seq<char>| #[trigger]
                out@.contains_key(c) ==> out@[c] == (Ratio { numerator: 0, denominator: 0 }),
        decreases n - i,
    {
        let info = node_info.value_at(i);
        let ghost before = out@;
        proof {
            node_info.lemma_wf();
            assert(in_category(m, keys[i as int], info.1@));
        }
        add_to(&mut out, &info.1, 0, 0);
        proof {
            assert forall|c: Seq<char>| #[trigger]
                out@.contains_key(c) <==> exists|j: int|
                    0 <= j < i + 1 && in_category(m, #[trigger] keys[j], c) by {
                if before.contains_key(c) {
                    let j = choose|j: int| 0 <= j < i && in_category(m, #[trigger] keys[j], c);
                    assert(0 <= j < i + 1 && in_category(m, keys[j], c));
                }
                if exists|j: int| 0 <= j < i + 1 && in_category(m, #[trigger] keys[j], c) {
                    let j = choose|j: int| 0 <= j < i + 1 && in_category(m, #[trigger] keys[j], c);
                    if j < i {
                        assert(before.contains_key(c));
                    }
                }
            }
        }
        i += 1;
    }
    proof {
        node_info.lemma_wf();
        assert forall|c: Seq<char>| out@.contains_key(c) <==> categories(m).contains(c) by {
            if out@.contains_key(c) {
                let j = choose|j: int| 0 <= j < n && in_category(m, #[trigger] keys[j], c);
                assert(in_category(m, keys[j], c));
            }
            if categories(m).contains(c) {
                let k = choose|k: Seq<char>| in_category(m, k, c);
                let j = node_info.position_of(k);
                assert(keys[j] == k);
            }
        }
        assert(out@.dom() =~= categories(m));
    }
    out
}

/// No more entries of a list have a category than the list has entries.
proof fn lemma_count_bound(list: Seq<Seq<char>>, m: NodeInfoModel, category: Seq<char>)
    ensures
        count_in_category(list, m, category) <= list.len(),
    decreases list.len(),
{
    if list.len() > 0 {
        lemma_count_bound(list.drop_last(), m, category);
    }
}

/// The tally of `category` in `tallies`, or zero where it has none.
spec fn tally_of(tallies: Map<Seq<char>, u128>, category: Seq<char>) -> u128 {
    if tallies.contains_key(category) {
        tallies[category]
    } else {
        0
    }
}

/// Adds one to the tally of `category`, which starts at zero.
fn add_one(tallies: &mut Table<u128>, category: &String)
    requires
        old(tallies).wf(),
        tally_of(old(tallies)@, category@) < u128::MAX,
    ensures
        final(tallies).wf(),
        final(tallies)@ == old(tallies)@.insert(
            category@,
            (tally_of(old(tallies)@, category@) + 1) as u128,
        ),
{
    match tallies.position(category.as_str()) {
        Some(i) => {
            let before = *tallies.value_at(i);
            tallies.set_value_at(i, before + 1);
        },
        None => {
            tallies.insert(category.clone(), 1);
        },
    }
}

/// Adds to the tallies, for each category, the number of `neighbours` that have it.
fn tally_neighbours(tallies: &mut Table<u128>, neighbours: &Vec<String>, node_info: &NodeInfo)
    requires
        old(tallies).wf(),
        node_info.wf(),
        forall|b: Seq<char>| #[trigger]
            old(tallies)@.contains_key(b) ==> old(tallies)@[b] + neighbours.len() <= u128::MAX,
    ensures
        final(tallies).wf(),
        forall|b: Seq<char>| #[trigger]
            final(tallies)@.contains_key(b) <==> old(tallies)@.contains_key(b) || count_in_category(
                neighbours.deep_view(),
                node_info@,
                b,
            ) > 0,
        forall|b: Seq<char>|
            tally_of(final(tallies)@, b) == #[trigger] tally_of(old(tallies)@, b)
                + count_in_category(neighbours.deep_view(), node_info@, b),
{
    let ghost list = neighbours.deep_view();
    let ghost m = node_info@;
    let ghost start = tallies@;
    let mut j: usize = 0;
    while j < neighbours.len()
        invariant
            j <= neighbours.len(),
            node_info.wf(),
            tallies.wf(),
            list == neighbours.deep_view(),
            m == node_info@,
            start == old(tallies)@,
            forall|b: Seq<char>| #[trigger]
                start.contains_key(b) ==> start[b] + neighbours.len() <= u128::MAX,
            forall|b: Seq<char>| #[trigger]
                tallies@.contains_key(b) <==> start.contains_key(b) || count_in_category(
                    list.take(j as int),
                    m,
                    b,
                ) > 0,
            forall|b: Seq<char>|
                tally_of(tallies@, b) == #[trigger] tally_of(start, b) + count_in_category(
                    list.take(j as int),
                    m,
                    b,
                ),
            forall|b: Seq<char>| #[trigger] count_in_category(list.take(j as int), m, b) <= j,
        decreases neighbours.len() - j,
    {
        let ghost before = tallies@;
        proof {
            assert(list.take(j + 1).drop_last() =~= list.take(j as int));
            assert(list.take(j + 1).last() == neighbours[j as int]@);
        }
        match node_info.get(neighbours[j].as_str()) {
            Some(info) => {
                let ghost own = info.1@;
                assert(in_category(m, neighbours[j as int]@, own));
                assert(tally_of(before, own) == tally_of(start, own) + count_in_category(
                    list.take(j as int),
                    m,
                    own,
                ));
                add_one(tallies, &info.1);
                proof {
                    assert forall|b: Seq<char>|
                        tally_of(tallies@, b) == #[trigger] tally_of(start, b) + count_in_category(
                            list.take(j + 1),
                            m,
                            b,
                        ) by {
                        assert(tally_of(before, b) == tally_of(start, b) + count_in_category(
                            list.take(j as int),
                            m,
                            b,
                        ));
                    }
                }
            },
            None => {},
        }
        proof {
            assert forall|b: Seq<char>| #[trigger]
                count_in_category(list.take(j + 1), m, b) <= j + 1 by {
                assert(count_in_category(list.take(j as int), m, b) <= j);
            }
        }
        j += 1;
    }
    assert(list.take(neighbours.len() as int) =~= list);
}

/// For each category `a` that has a node, and each category `b` in which
/// the nodes of `a` have a neighbour: the number of neighbours of category
/// `b` that the nodes of `a` have, over the number of nodes of `a`.
pub fn average_recommendation_per_category(graph: &Graph, node_info: &NodeInfo) -> (out: Table<
    Table<Ratio>,
>)
    requires
        graph.wf(),
        node_info.wf(),
    ensures
        out.wf(),
        forall|p: int| 0 <= p < out.values().len() ==> (#[trigger] out.values()[p]).wf(),
        forall|a: Seq<char>| #[trigger]
            out@.contains_key(a) <==> members(graph@.dom(), node_info@, a, every_node()).len() > 0,
        forall|a: Seq<char>, b: Seq<char>|
            out@.contains_key(a) ==> (#[trigger] out@[a].contains_key(b) <==> total(
                members(graph@.dom(), node_info@, a, every_node()),
                links_into(graph@, node_info@, b),
            ) > 0),
        forall|a: Seq<char>, b: Seq<char>|
            out@.contains_key(a) && #[trigger] out@[a].contains_key(b) ==> {
                &&& out@[a][b].numerator == total(
                    members(graph@.dom(), node_info@, a, every_node()),
                    links_into(graph@, node_info@, b),
                )
                &&& out@[a][b].denominator == members(
                    graph@.dom(),
                    node_info@,
                    a,
                    every_node(),
                ).len()
                &&& out@[a][b].numerator > 0
                &&& out@[a][b].denominator > 0
            },
{
    let rows = tally_rows(graph, node_info);
    let ghost g = graph@;
    let ghost m = node_info@;
    let mut out: Table<Table<Ratio>> = Table::new();
    let n = rows.len();
    let mut p: usize = 0;
    proof {
        rows.lemma_wf();
    }
    while p < n
        invariant
            p <= n,
            n == rows.keys().len(),
            rows.wf(),
            out.wf(),
            forall|q: int| 0 <= q < rows.values().len() ==> (#[trigger] rows.values()[q]).1.wf(),
            forall|q: int| 0 <= q < out.values().len() ==> (#[trigger] out.values()[q]).wf(),
            forall|a: Seq<char>| #[trigger]
                out@.contains_key(a) <==> rows@.contains_key(a) && rows.position_of(a) < p,
            forall|a: Seq<char>, b: Seq<char>|
                out@.contains_key(a) ==> (#[trigger] out@[a].contains_key(b)
                    <==> rows@[a].1.contains_key(b)),
            forall|a: Seq<char>, b: Seq<char>|
                out@.contains_key(a) && #[trigger] out@[a].contains_key(b) ==> out@[a][b] == (Ratio {
                    numerator: rows@[a].1[b],
                    denominator: rows@[a].0,
                }),
        decreases n - p,
    {
        let row = rows.value_at(p);
        let ghost before = out@;
        let ghost outer = rows.keys()[p as int];
        proof {
            rows.lemma_wf();
            assert(row.1.wf());
            row.1.lemma_wf();
        }
        let mut inner: Table<Ratio> = Table::new();
        let width = row.1.len();
        let mut q: usize = 0;
        while q < width
            invariant
                q <= width,
                width == row.1.keys().len(),
                row.1.wf(),
                inner.wf(),
                forall|b: Seq<char>| #[trigger]
                    inner@.contains_key(b) <==> row.1@.contains_key(b) && row.1.position_of(b) < q,
                forall|b: Seq<char>| #[trigger]
                    inner@.contains_key(b) ==> inner@[b] == (Ratio {
                        numerator: row.1@[b],
                        denominator: row.0,
                    }),
            decreases width - q,
        {
            let links = *row.1.value_at(q);
            proof {
                row.1.lemma_wf();
            }
            inner.insert(row.1.key_at(q).clone(), Ratio { numerator: links, denominator: row.0 });
            q += 1;
        }
        proof {
            row.1.lemma_wf();
            assert(inner@.dom() =~= row.1@.dom());
        }
        let ghost held = out.values();
        out.insert(rows.key_at(p).clone(), inner);
        proof {
            assert(!before.contains_key(outer));
            assert(out.values() == held.push(inner));
            assert forall|a: Seq<char>, b: Seq<char>| out@.contains_key(a) implies (
            #[trigger] out@[a].contains_key(b) <==> rows@[a].1.contains_key(b)) by {
                if a != outer {
                    assert(before.contains_key(a));
                    assert(out@[a] == before[a]);
                }
            }
            assert forall|a: Seq<char>, b: Seq<char>|
                out@.contains_key(a) && #[trigger] out@[a].contains_key(b) implies out@[a][b] == (
                Ratio { numerator: rows@[a].1[b], denominator: rows@[a].0 }) by {
                if a != outer {
                    assert(before.contains_key(a));
                    assert(out@[a] == before[a]);
                }
            }
        }
        p += 1;
    }
    proof {
        rows.lemma_wf();
        assert forall|a: Seq<char>, b: Seq<char>|
            out@.contains_key(a) && #[trigger] out@[a].contains_key(b) implies out@[a][b].numerator
            == total(members(g.dom(), m, a, every_node()), links_into(g, m, b))
            && out@[a][b].numerator > 0 by {
            assert(tally_of(rows@[a].1, b) == rows@[a].1[b]);
        }
    }
    out
}

/// For each category that has a node: the number of its nodes, and for each
/// category in which they have a neighbour the number of such neighbours.
fn tally_rows(graph: &Graph, node_info: &NodeInfo) -> (rows: Table<(u128, Table<u128>)>)
    requires
        graph.wf(),
        node_info.wf(),
    ensures
        rows.wf(),
        forall|q: int| 0 <= q < rows.values().len() ==> (#[trigger] rows.values()[q]).1.wf(),
        forall|a: Seq<char>| #[trigger]
            rows@.contains_key(a) <==> members(graph@.dom(), node_info@, a, every_node()).len() > 0,
        forall|a: Seq<char>| #[trigger]
            rows@.contains_key(a) ==> rows@[a].0 == members(
                graph@.dom(),
                node_info@,
                a,
                every_node(),
            ).len(),
        forall|a: Seq<char>, b: Seq<char>|
            rows@.contains_key(a) ==> #[trigger] tally_of(rows@[a].1, b) == total(
                members(graph@.dom(), node_info@, a, every_node()),
                links_into(graph@, node_info@, b),
            ),
        forall|a: Seq<char>, b: Seq<char>|
            rows@.contains_key(a) ==> (#[trigger] rows@[a].1.contains_key(b) <==> total(
                members(graph@.dom(), node_info@, a, every_node()),
                links_into(graph@, node_info@, b),
            ) > 0),
{
    let mut rows: Table<(u128, Table<u128>)> = Table::new();
    let n = graph.len();
    let mut i: usize = 0;
    let ghost g = graph@;
    let ghost m = node_info@;
    let ghost keys = graph.keys();
    proof {
        graph.lemma_wf();
        assert(keys.take(0).to_set() =~= Set::<Seq<char>>::empty());
        assert forall|c: Seq<char>| members(keys.take(0).to_set(), m, c, every_node()).len()
            == 0 by {
            lemma_no_nodes(m, c, every_node(), degree(g));
        }
    }
    while i < n
        invariant
            i <= n,
            n == keys.len(),
            g == graph@,
            m == node_info@,
            keys == graph.keys(),
            keys.no_duplicates(),
            graph.wf(),
            node_info.wf(),
            rows.wf(),
            forall|q: int| 0 <= q < rows.values().len() ==> (#[trigger] rows.values()[q]).1.wf(),
            forall|a: Seq<char>| #[trigger]
                rows@.contains_key(a) <==> members(
                    keys.take(i as int).to_set(),
                    m,
                    a,
                    every_node(),
                ).len() > 0,
            forall|a: Seq<char>| #[trigger]
                rows@.contains_key(a) ==> rows@[a].0 == members(
                    keys.take(i as int).to_set(),
                    m,
                    a,
                    every_node(),
                ).len() && rows@[a].0 <= i,
            forall|a: Seq<char>, b: Seq<char>|
                rows@.contains_key(a) ==> #[trigger] tally_of(rows@[a].1, b) == total(
                    members(keys.take(i as int).to_set(), m, a, every_node()),
                    links_into(g, m, b),
                ) && tally_of(rows@[a].1, b) <= i * MAX_DEGREE,
            forall|a: Seq<char>, b: Seq<char>|
                rows@.contains_key(a) ==> (#[trigger] rows@[a].1.contains_key(b) <==> total(
                    members(keys.take(i as int).to_set(), m, a, every_node()),
                    links_into(g, m, b),
                ) > 0),
        decreases n - i,
    {
        let node = graph.key_at(i);
        let neighbours = graph.value_at(i);
        let ghost seen = keys.take(i as int).to_set();
        let ghost before = rows@;
        let ghost held = rows;
        proof {
            lemma_prefix_step(keys, i as int);
            rows.lemma_wf();
            assert forall|c: Seq<char>| !in_category(m, node@, c) implies #[trigger] members(
                seen.insert(node@),
                m,
                c,
                every_node(),
            ) == members(seen, m, c, every_node()) by {
                lemma_one_more_node(seen, node@, m, c, every_node(), degree(g));
            }
        }
        match node_info.get(node.as_str()) {
            Some(info) => {
                let ghost own = info.1@;
                assert(in_category(m, node@, own));
                let at = match rows.position(info.1.as_str()) {
                    Some(at) => at,
                    None => {
                        let at = rows.len();
                        rows.insert(info.1.clone(), (0, Table::new()));
                        proof {
                            assert(!before.contains_key(own));
                            lemma_members_finite(seen, m, own, every_node());
                            assert(members(seen, m, own, every_node()) =~= Set::<Seq<char>>::empty());
                            assert forall|b: Seq<char>|
                                total(
                                    members(seen, m, own, every_node()),
                                    links_into(g, m, b),
                                ) == 0 by {
                                lemma_no_nodes(m, own, every_node(), links_into(g, m, b));
                            }
                        }
                        at
                    },
                };
                let ghost made = rows;
                proof {
                    rows.lemma_wf();
                    assert(rows.keys()[at as int] == own);
                    assert(rows.values()[at as int].1.wf());
                    assert(rows@[own] == rows.values()[at as int].deep_view());
                    assert forall|b: Seq<char>| #[trigger]
                        rows@[own].1.contains_key(b) implies rows@[own].1[b] + neighbours.len()
                        <= u128::MAX by {
                        assert(tally_of(rows@[own].1, b) <= i * MAX_DEGREE);
                    }
                }
                let row = rows.value_at_mut(at);
                row.0 = row.0 + 1;
                tally_neighbours(&mut row.1, neighbours, node_info);
                proof {
                    rows.lemma_wf();
                    rows.lemma_value_replaced(&made, at as int);
                    let next = seen.insert(node@);
                    let old_row = made.values()[at as int];
                    let new_row = rows.values()[at as int];
                    assert(made@[own] == old_row.deep_view());
                    assert(rows@[own] == new_row.deep_view());
                    assert(old_row.deep_view().1 == old_row.1@);
                    assert(new_row.deep_view().1 == new_row.1@);
                    assert(new_row.0 == old_row.0 + 1);
                    assert forall|b: Seq<char>|
                        tally_of(new_row.1@, b) == tally_of(old_row.1@, b) + count_in_category(
                            neighbours.deep_view(),
                            m,
                            b,
                        ) by {}
                    assert forall|b: Seq<char>|
                        new_row.1@.contains_key(b) <==> old_row.1@.contains_key(b)
                            || count_in_category(neighbours.deep_view(), m, b) > 0 by {}
                    assert forall|b: Seq<char>|
                        tally_of(old_row.1@, b) == total(
                            members(seen, m, own, every_node()),
                            links_into(g, m, b),
                        ) && tally_of(old_row.1@, b) <= i * MAX_DEGREE && (old_row.1@.contains_key(b)
                            <==> tally_of(old_row.1@, b) > 0) by {
                        if before.contains_key(own) {
                            assert(made@[own] == before[own]);
                            assert(tally_of(before[own].1, b) == total(
                                members(seen, m, own, every_node()),
                                links_into(g, m, b),
                            ));
                            assert(before[own].1.contains_key(b) <==> total(
                                members(seen, m, own, every_node()),
                                links_into(g, m, b),
                            ) > 0);
                        } else {
                            assert(old_row.1@ =~= Map::<Seq<char>, u128>::empty());
                        }
                    }
                    assert forall|b: Seq<char>|
                        count_in_category(neighbours.deep_view(), m, b) <= neighbours.len() by {
                        lemma_count_bound(neighbours.deep_view(), m, b);
                    }
                    lemma_one_more_node(seen, node@, m, own, every_node(), degree(g));
                    assert forall|b: Seq<char>|
                        total(members(next, m, own, every_node()), links_into(g, m, b)) == total(
                            members(seen, m, own, every_node()),
                            links_into(g, m, b),
                        ) + count_in_category(neighbours.deep_view(), m, b) by {
                        lemma_one_more_node(seen, node@, m, own, every_node(), links_into(g, m, b));
                    }
                    assert forall|a: Seq<char>| a != own implies rows@.contains_key(a)
                        == before.contains_key(a) && (before.contains_key(a) ==> rows@[a]
                        == before[a]) by {}
                    assert forall|q: int| 0 <= q < rows.values().len() implies (
                    #[trigger] rows.values()[q]).1.wf() by {
                        if q != at {
                            assert(rows.values()[q] == made.values()[q]);
                        }
                    }
                }
            },
            None => {},
        }
        i += 1;
    }
    proof {
        assert(keys.take(n as int) =~= keys);
    }
    rows
}

} // verus!
