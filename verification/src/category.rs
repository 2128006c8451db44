//! The mathematics of statistics by category: which nodes a category
//! counts, and sums over them.
//!
//! A statistic picks, for a category, a set of nodes ([`members`]) and adds
//! up a weight over that set ([`total`]) or takes its size. Nothing here
//! depends on the order in which nodes are met.

use crate::data_processing::{GraphModel, NodeInfoModel};
use vstd::prelude::*;
use vstd::set::fold::{is_fun_commutative, lemma_fold_empty, lemma_fold_insert};

verus! {

/// Two tallies that stand for the quotient `numerator / denominator`. Where
/// the denominator is zero the quotient is taken to be zero.
#[derive(Clone, Copy, Debug, PartialEq, Eq, Structural)]
pub struct Ratio {
    pub numerator: u128,
    pub denominator: u128,
}

impl DeepView for Ratio {
    type V = Ratio;

    open spec fn deep_view(&self) -> Ratio {
        *self
    }
}

impl Ratio {
    /// Whether the quotient can be formed by division.
    pub fn has_quotient(&self) -> (b: bool)
        ensures
            b == (self.denominator != 0),
    {
        self.denominator != 0
    }
}

/// `node` has node information, and its category is `category`.
pub open spec fn in_category(m: NodeInfoModel, node: Seq<char>, category: Seq<char>) -> bool {
    m.contains_key(node) && m[node].1 == category
}

/// The categories that occur in the node information.
pub open spec fn categories(m: NodeInfoModel) -> Set<Seq<char>> {
    Set::new(|c: Seq<char>| exists|k: Seq<char>| in_category(m, k, c))
}

/// The nodes among `nodes` whose category is `category` and which `keep` lets through.
pub open spec fn members(
    nodes: Set<Seq<char>>,
    m: NodeInfoModel,
    category: Seq<char>,
    keep: spec_fn(Seq<char>) -> bool,
) -> Set<Seq<char>> {
    Set::new(|k: Seq<char>| nodes.contains(k) && in_category(m, k, category) && keep(k))
}

/// The step of a sum: what was summed so far, and the weight of one more node.
pub open spec fn adder(weight: spec_fn(Seq<char>) -> nat) -> spec_fn(nat, Seq<char>) -> nat {
    |sum: nat, k: Seq<char>| sum + weight(k)
}

/// The sum of `weight` over the finite set `nodes`.
pub open spec fn total(nodes: Set<Seq<char>>, weight: spec_fn(Seq<char>) -> nat) -> nat {
    nodes.fold(0nat, adder(weight))
}

/// Lets every node through.
pub open spec fn every_node() -> spec_fn(Seq<char>) -> bool {
    |k: Seq<char>| true
}

/// Lets through the nodes whose list of neighbours is not empty.
pub open spec fn with_neighbours(g: GraphModel) -> spec_fn(Seq<char>) -> bool {
    |k: Seq<char>| g[k].len() > 0
}

/// How many entries of `list` have the category `category`. An identifier
/// that occurs twice counts twice; one without node information counts for
/// no category.
pub open spec fn count_in_category(
    list: Seq<Seq<char>>,
    m: NodeInfoModel,
    category: Seq<char>,
) -> nat
    decreases list.len(),
{
    if list.len() == 0 {
        0
    } else {
        count_in_category(list.drop_last(), m, category) + if in_category(
            m,
            list.last(),
            category,
        ) {
            1nat
        } else {
            0nat
        }
    }
}

/// Lets through the nodes that have a neighbour of the category `category`.
pub open spec fn with_neighbour_in(
    g: GraphModel,
    m: NodeInfoModel,
    category: Seq<char>,
) -> spec_fn(Seq<char>) -> bool {
    |k: Seq<char>| count_in_category(g[k], m, category) > 0
}

/// The weight of a node that is the length of its list of neighbours.
pub open spec fn degree(g: GraphModel) -> spec_fn(Seq<char>) -> nat {
    |k: Seq<char>| g[k].len()
}

/// The weight of a node that is the number of its neighbours of the category `category`.
pub open spec fn links_into(
    g: GraphModel,
    m: NodeInfoModel,
    category: Seq<char>,
) -> spec_fn(Seq<char>) -> nat {
    |k: Seq<char>| count_in_category(g[k], m, category)
}

/// The members of a finite set of nodes are finitely many, and no more than the nodes.
pub proof fn lemma_members_finite(
    nodes: Set<Seq<char>>,
    m: NodeInfoModel,
    category: Seq<char>,
    keep: spec_fn(Seq<char>) -> bool,
)
    requires
        nodes.finite(),
    ensures
        members(nodes, m, category, keep).finite(),
        members(nodes, m, category, keep).len() <= nodes.len(),
        members(nodes, m, category, keep).subset_of(nodes),
{
    vstd::set_lib::lemma_len_subset(members(nodes, m, category, keep), nodes);
}

/// The sum over no nodes is zero.
pub proof fn lemma_total_empty(weight: spec_fn(Seq<char>) -> nat)
    ensures
        total(Set::empty(), weight) == 0,
{
    lemma_fold_empty::<Seq<char>, nat>(0nat, adder(weight));
}

/// One more node adds its weight to the sum.
pub proof fn lemma_total_insert(
    nodes: Set<Seq<char>>,
    node: Seq<char>,
    weight: spec_fn(Seq<char>) -> nat,
)
    requires
        nodes.finite(),
        !nodes.contains(node),
    ensures
        total(nodes.insert(node), weight) == total(nodes, weight) + weight(node),
{
    let f = adder(weight);
    assert(is_fun_commutative(f)) by {
        assert forall|a1: Seq<char>, a2: Seq<char>, b: nat| #[trigger]
            f(f(b, a2), a1) == f(f(b, a1), a2) by {}
    }
    lemma_fold_insert(nodes, 0nat, f, node);
}

/// Two weights that agree on every node of a set have the same sum over it.
pub proof fn lemma_total_agrees(
    nodes: Set<Seq<char>>,
    first: spec_fn(Seq<char>) -> nat,
    second: spec_fn(Seq<char>) -> nat,
)
    requires
        nodes.finite(),
        forall|k: Seq<char>| nodes.contains(k) ==> #[trigger] first(k) == second(k),
    ensures
        total(nodes, first) == total(nodes, second),
    decreases nodes.len(),
{
    if nodes.len() == 0 {
        assert(nodes =~= Set::empty());
        lemma_total_empty(first);
        lemma_total_empty(second);
    } else {
        let k = nodes.choose();
        let rest = nodes.remove(k);
        lemma_total_agrees(rest, first, second);
        lemma_total_insert(rest, k, first);
        lemma_total_insert(rest, k, second);
        assert(rest.insert(k) =~= nodes);
        assert(first(k) == second(k));
    }
}

/// What one more node does to the members of a category, to their number
/// and to a sum over them: the node joins them if it has the category and
/// `keep` lets it through, and nothing changes otherwise.
pub proof fn lemma_one_more_node(
    nodes: Set<Seq<char>>,
    node: Seq<char>,
    m: NodeInfoModel,
    category: Seq<char>,
    keep: spec_fn(Seq<char>) -> bool,
    weight: spec_fn(Seq<char>) -> nat,
)
    requires
        nodes.finite(),
        !nodes.contains(node),
    ensures
        members(nodes, m, category, keep).finite(),
        members(nodes.insert(node), m, category, keep).finite(),
        in_category(m, node, category) && keep(node) ==> {
            &&& members(nodes.insert(node), m, category, keep) == members(
                nodes,
                m,
                category,
                keep,
            ).insert(node)
            &&& members(nodes.insert(node), m, category, keep).len() == members(
                nodes,
                m,
                category,
                keep,
            ).len() + 1
            &&& total(members(nodes.insert(node), m, category, keep), weight) == total(
                members(nodes, m, category, keep),
                weight,
            ) + weight(node)
        },
        !(in_category(m, node, category) && keep(node)) ==> members(
            nodes.insert(node),
            m,
            category,
            keep,
        ) == members(nodes, m, category, keep),
{
    let before = members(nodes, m, category, keep);
    let after = members(nodes.insert(node), m, category, keep);
    lemma_members_finite(nodes, m, category, keep);
    lemma_members_finite(nodes.insert(node), m, category, keep);
    if in_category(m, node, category) && keep(node) {
        assert(after =~= before.insert(node));
        lemma_total_insert(before, node, weight);
    } else {
        assert(after =~= before);
    }
}

/// No node has members.
pub proof fn lemma_no_nodes(
    m: NodeInfoModel,
    category: Seq<char>,
    keep: spec_fn(Seq<char>) -> bool,
    weight: spec_fn(Seq<char>) -> nat,
)
    ensures
        members(Set::empty(), m, category, keep) == Set::<Seq<char>>::empty(),
        members(Set::empty(), m, category, keep).len() == 0,
        total(members(Set::empty(), m, category, keep), weight) == 0,
{
    assert(members(Set::empty(), m, category, keep) =~= Set::<Seq<char>>::empty());
    lemma_total_empty(weight);
}

/// The first `i + 1` of a sequence without duplicates are the first `i` and
/// one that is not among them.
pub proof fn lemma_prefix_step(keys: Seq<Seq<char>>, i: int)
    requires
        keys.no_duplicates(),
        0 <= i < keys.len(),
    ensures
        keys.take(i).to_set().finite(),
        keys.take(i).to_set().len() == i,
        !keys.take(i).to_set().contains(keys[i]),
        keys.take(i + 1).to_set() == keys.take(i).to_set().insert(keys[i]),
{
    let before = keys.take(i);
    let after = keys.take(i + 1);
    vstd::seq_lib::seq_to_set_is_finite(before);
    before.unique_seq_to_set();
    if before.to_set().contains(keys[i]) {
        let j = choose|j: int| 0 <= j < before.len() && before[j] == keys[i];
        assert(keys[j] == keys[i]);
    }
    assert forall|k: Seq<char>| after.to_set().contains(k) <==> before.to_set().insert(
        keys[i],
    ).contains(k) by {
        if after.to_set().contains(k) {
            let j = choose|j: int| 0 <= j < after.len() && after[j] == k;
            if j < i {
                assert(before[j] == k);
            }
        }
        if before.to_set().contains(k) {
            let j = choose|j: int| 0 <= j < before.len() && before[j] == k;
            assert(after[j] == k);
        }
        assert(after[i] == keys[i]);
    }
    assert(after.to_set() =~= before.to_set().insert(keys[i]));
}

} // verus!
