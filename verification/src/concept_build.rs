//! Building the concept interval index and the browsing tree from SKOS
//! collections in one depth-first walk, so that both number concepts alike.

use vstd::prelude::*;
use crate::concept_intervals::{spec_forward_index, spec_reverse_index, ConceptInterval, ConceptIntervalIndex};
use crate::concept_tree::{
    coll_view, entry_view, ranges_ok, CollView, CollectionHeader, ConceptEntry, ConceptTree,
    EntryView,
};
use crate::dictionary::{distinct_terms, Dictionary};
use crate::page_assignment::{page_order_ok, plan_pages};
use crate::sort::{leq, merge_sort, Key4};

verus! {

broadcast use vstd::seq_lib::group_to_multiset_ensures;

/// A SKOS concept as the walk reads it: the value id and label text of
/// each preferred label, and its narrower concepts.
pub struct SkosConceptNode {
    pub labels: Vec<(String, String)>,
    pub children: Vec<SkosConceptNode>,
}

/// A SKOS collection: its id and top concepts.
pub struct SkosCollectionNode {
    pub id: String,
    pub concepts: Vec<SkosConceptNode>,
}

/// Number of concepts in a subtree.
pub open spec fn node_size(n: SkosConceptNode) -> nat
    decreases n,
{
    1 + nodes_size(n.children@)
}

/// Number of concepts in a list of subtrees.
pub open spec fn nodes_size(cs: Seq<SkosConceptNode>) -> nat
    decreases cs,
{
    if cs.len() == 0 {
        0
    } else {
        nodes_size(cs.drop_last()) + node_size(cs.last())
    }
}

/// Height of a subtree: 0 for a concept without narrower concepts.
pub open spec fn node_height(n: SkosConceptNode) -> nat
    decreases n,
{
    if n.children@.len() == 0 {
        0
    } else {
        1 + nodes_height(n.children@)
    }
}

/// Greatest height in a list of subtrees.
pub open spec fn nodes_height(cs: Seq<SkosConceptNode>) -> nat
    decreases cs,
{
    if cs.len() == 0 {
        0
    } else {
        let a = nodes_height(cs.drop_last());
        let b = node_height(cs.last());
        if a >= b {
            a
        } else {
            b
        }
    }
}

/// The position of a term in a dictionary's terms.
pub open spec fn term_id(terms: Seq<Seq<char>>, t: Seq<char>) -> u32 {
    (choose|i: int| 0 <= i < terms.len() && terms[i] == t) as u32
}

/// The tree entries of a concept numbered `enter..=leave` at `depth`: one
/// per preferred label with a non-empty value id.
pub open spec fn label_entries(
    labels: Seq<(String, String)>,
    enter: int,
    leave: int,
    depth: int,
) -> Seq<EntryView>
    decreases labels.len(),
{
    if labels.len() == 0 {
        Seq::empty()
    } else {
        let (vid, label) = labels.last();
        label_entries(labels.drop_last(), enter, leave, depth) + if vid@.len() > 0 {
            seq![(enter as u32, leave as u32, depth as u16, vid@, label@)]
        } else {
            Seq::empty()
        }
    }
}

/// The intervals of a concept: one per preferred label whose concept URI
/// is in the dictionary.
pub open spec fn label_intervals(
    labels: Seq<(String, String)>,
    enter: int,
    leave: int,
    terms: Seq<Seq<char>>,
    prefix: Seq<char>,
) -> Seq<ConceptInterval>
    decreases labels.len(),
{
    if labels.len() == 0 {
        Seq::empty()
    } else {
        let vid = labels.last().0@;
        label_intervals(labels.drop_last(), enter, leave, terms, prefix) + if vid.len() > 0
            && terms.contains(prefix + vid) {
            seq![
                ConceptInterval {
                    dict_id: term_id(terms, prefix + vid),
                    dfs_enter: enter as u32,
                    dfs_leave: leave as u32,
                },
            ]
        } else {
            Seq::empty()
        }
    }
}

/// The entries of a subtree whose root is numbered `start` (its descendants
/// first, then its own).
pub open spec fn walk_entries(n: SkosConceptNode, depth: int, start: int) -> Seq<EntryView>
    decreases n,
{
    children_entries(n.children@, depth + 1, start + 1) + label_entries(
        n.labels@,
        start,
        start + node_size(n) - 1,
        depth,
    )
}

/// The entries of a list of subtrees numbered from `start`.
pub open spec fn children_entries(cs: Seq<SkosConceptNode>, depth: int, start: int) -> Seq<
    EntryView,
>
    decreases cs,
{
    if cs.len() == 0 {
        Seq::empty()
    } else {
        children_entries(cs.drop_last(), depth, start) + walk_entries(
            cs.last(),
            depth,
            start + nodes_size(cs.drop_last()),
        )
    }
}

/// The intervals of a subtree whose root is numbered `start`.
pub open spec fn walk_intervals(
    n: SkosConceptNode,
    start: int,
    terms: Seq<Seq<char>>,
    prefix: Seq<char>,
) -> Seq<ConceptInterval>
    decreases n,
{
    children_intervals(n.children@, start + 1, terms, prefix) + label_intervals(
        n.labels@,
        start,
        start + node_size(n) - 1,
        terms,
        prefix,
    )
}

/// The intervals of a list of subtrees numbered from `start`.
pub open spec fn children_intervals(
    cs: Seq<SkosConceptNode>,
    start: int,
    terms: Seq<Seq<char>>,
    prefix: Seq<char>,
) -> Seq<ConceptInterval>
    decreases cs,
{
    if cs.len() == 0 {
        Seq::empty()
    } else {
        children_intervals(cs.drop_last(), start, terms, prefix) + walk_intervals(
            cs.last(),
            start + nodes_size(cs.drop_last()),
            terms,
            prefix,
        )
    }
}

/// Every preferred label of a concept that has a value id, in any language,
/// gets a tree entry carrying that value id and label text, numbered with the
/// concept's interval and depth; and every entry comes from such a label.
pub proof fn lemma_every_label_entered(
    labels: Seq<(String, String)>,
    enter: int,
    leave: int,
    depth: int,
)
    ensures
        forall|k: int|
            0 <= k < labels.len() && (#[trigger] labels[k]).0@.len() > 0 ==> label_entries(
                labels,
                enter,
                leave,
                depth,
            ).contains((enter as u32, leave as u32, depth as u16, labels[k].0@, labels[k].1@)),
        forall|i: int|
            0 <= i < label_entries(labels, enter, leave, depth).len() ==> exists|k: int|
                0 <= k < labels.len() && labels[k].0@.len() > 0 && #[trigger] label_entries(
                    labels,
                    enter,
                    leave,
                    depth,
                )[i] == (enter as u32, leave as u32, depth as u16, labels[k].0@, labels[k].1@),
    decreases labels.len(),
{
    if labels.len() > 0 {
        let front = labels.drop_last();
        let pre = label_entries(front, enter, leave, depth);
        let all = label_entries(labels, enter, leave, depth);
        lemma_every_label_entered(front, enter, leave, depth);
        let (vid, label) = labels.last();
        let e = (enter as u32, leave as u32, depth as u16, vid@, label@);
        assert forall|k: int|
            0 <= k < labels.len() && (#[trigger] labels[k]).0@.len() > 0 implies all.contains(
            (enter as u32, leave as u32, depth as u16, labels[k].0@, labels[k].1@),
        ) by {
            if k < labels.len() - 1 {
                assert(front[k] == labels[k]);
                let x = (enter as u32, leave as u32, depth as u16, labels[k].0@, labels[k].1@);
                let j = choose|j: int| 0 <= j < pre.len() && pre[j] == x;
                assert(all[j] == x);
            } else {
                assert(all[pre.len() as int] == e);
            }
        }
        assert forall|i: int| 0 <= i < all.len() implies exists|k: int|
            0 <= k < labels.len() && labels[k].0@.len() > 0 && #[trigger] all[i] == (
                enter as u32,
                leave as u32,
                depth as u16,
                labels[k].0@,
                labels[k].1@,
            ) by {
            if i < pre.len() {
                assert(all[i] == pre[i]);
                let k = choose|k: int|
                    0 <= k < front.len() && front[k].0@.len() > 0 && pre[i] == (
                        enter as u32,
                        leave as u32,
                        depth as u16,
                        front[k].0@,
                        front[k].1@,
                    );
                assert(labels[k] == front[k]);
            } else {
                assert(all[i] == e);
                assert(labels[labels.len() - 1] == labels.last());
            }
        }
    }
}

/// The walk over a concept's subtree gives a tree entry for every preferred
/// label of the concept that has a value id, with the concept's interval
/// `[start, start + node_size(n) - 1]` and depth.
pub proof fn lemma_walk_enters_labels(n: SkosConceptNode, depth: int, start: int)
    ensures
        forall|k: int|
            0 <= k < n.labels@.len() && (#[trigger] n.labels@[k]).0@.len() > 0 ==> walk_entries(
                n,
                depth,
                start,
            ).contains(
                (
                    start as u32,
                    (start + node_size(n) - 1) as u32,
                    depth as u16,
                    n.labels@[k].0@,
                    n.labels@[k].1@,
                ),
            ),
{
    let kids = children_entries(n.children@, depth + 1, start + 1);
    let own = label_entries(n.labels@, start, start + node_size(n) - 1, depth);
    lemma_every_label_entered(n.labels@, start, start + node_size(n) - 1, depth);
    assert forall|k: int|
        0 <= k < n.labels@.len() && (#[trigger] n.labels@[k]).0@.len() > 0 implies walk_entries(
        n,
        depth,
        start,
    ).contains(
        (
            start as u32,
            (start + node_size(n) - 1) as u32,
            depth as u16,
            n.labels@[k].0@,
            n.labels@[k].1@,
        ),
    ) by {
        let x = (
            start as u32,
            (start + node_size(n) - 1) as u32,
            depth as u16,
            n.labels@[k].0@,
            n.labels@[k].1@,
        );
        assert(own.contains(x));
        let j = choose|j: int| 0 <= j < own.len() && own[j] == x;
        assert(walk_entries(n, depth, start) == kids + own);
        assert(walk_entries(n, depth, start)[kids.len() + j] == x);
    }
}

/// The DFS numbers the walk gives to a subtree whose root is numbered `start`:
/// the root's own and those of its narrower concepts.
pub open spec fn subtree_numbers(n: SkosConceptNode, start: int) -> Set<int>
    decreases n,
{
    children_numbers(n.children@, start + 1).insert(start)
}

/// The DFS numbers the walk gives to a list of subtrees numbered from `start`.
pub open spec fn children_numbers(cs: Seq<SkosConceptNode>, start: int) -> Set<int>
    decreases cs,
{
    if cs.len() == 0 {
        Set::empty()
    } else {
        children_numbers(cs.drop_last(), start).union(
            subtree_numbers(cs.last(), start + nodes_size(cs.drop_last())),
        )
    }
}

/// The interval `[start, start + node_size(n) - 1]` that a concept numbered
/// `start` receives holds exactly the DFS numbers of the concept and its
/// narrower concepts, at any depth: a range scan over a concept's interval
/// finds the concept and its descendants, and nothing else.
pub proof fn lemma_interval_is_subtree(n: SkosConceptNode, start: int)
    ensures
        subtree_numbers(n, start) == Set::new(|x: int| start <= x <= start + node_size(n) - 1),
    decreases n,
{
    lemma_children_numbers(n.children@, start + 1);
    assert(subtree_numbers(n, start) =~= Set::new(
        |x: int| start <= x <= start + node_size(n) - 1,
    ));
}

/// Subtrees numbered one after another from `start` cover
/// `[start, start + nodes_size(cs) - 1]` exactly.
pub proof fn lemma_children_numbers(cs: Seq<SkosConceptNode>, start: int)
    ensures
        children_numbers(cs, start) == Set::new(|x: int| start <= x < start + nodes_size(cs)),
    decreases cs,
{
    if cs.len() > 0 {
        let front = cs.drop_last();
        lemma_children_numbers(front, start);
        lemma_interval_is_subtree(cs.last(), start + nodes_size(front));
        assert(children_numbers(cs, start) =~= Set::new(
            |x: int| start <= x < start + nodes_size(cs),
        ));
    }
}

/// Every interval the labels of a concept give is `[enter, leave]`.
proof fn lemma_label_intervals_are(
    labels: Seq<(String, String)>,
    enter: int,
    leave: int,
    terms: Seq<Seq<char>>,
    prefix: Seq<char>,
)
    ensures
        forall|i: int|
            0 <= i < label_intervals(labels, enter, leave, terms, prefix).len() ==> {
                let iv = #[trigger] label_intervals(labels, enter, leave, terms, prefix)[i];
                iv.dfs_enter == enter as u32 && iv.dfs_leave == leave as u32
            },
    decreases labels.len(),
{
    if labels.len() > 0 {
        let front = label_intervals(labels.drop_last(), enter, leave, terms, prefix);
        let all = label_intervals(labels, enter, leave, terms, prefix);
        lemma_label_intervals_are(labels.drop_last(), enter, leave, terms, prefix);
        assert forall|i: int| 0 <= i < all.len() implies {
            let iv = #[trigger] all[i];
            iv.dfs_enter == enter as u32 && iv.dfs_leave == leave as u32
        } by {
            if i < front.len() {
                assert(all[i] == front[i]);
            }
        }
    }
}

/// Every interval of the walk over a subtree numbered from `start` lies
/// inside the subtree's own interval `[start, start + node_size(n) - 1]`.
pub proof fn lemma_walk_intervals_inside(
    n: SkosConceptNode,
    start: int,
    terms: Seq<Seq<char>>,
    prefix: Seq<char>,
)
    requires
        0 <= start,
        start + node_size(n) - 1 <= u32::MAX,
    ensures
        forall|i: int|
            0 <= i < walk_intervals(n, start, terms, prefix).len() ==> {
                let iv = #[trigger] walk_intervals(n, start, terms, prefix)[i];
                start <= iv.dfs_enter <= iv.dfs_leave <= start + node_size(n) - 1
            },
    decreases n,
{
    let cs = n.children@;
    let kids = children_intervals(cs, start + 1, terms, prefix);
    let own = label_intervals(n.labels@, start, start + node_size(n) - 1, terms, prefix);
    lemma_children_intervals_inside(cs, start + 1, terms, prefix);
    lemma_label_intervals_are(n.labels@, start, start + node_size(n) - 1, terms, prefix);
    assert forall|i: int| 0 <= i < walk_intervals(n, start, terms, prefix).len() implies {
        let iv = #[trigger] walk_intervals(n, start, terms, prefix)[i];
        start <= iv.dfs_enter <= iv.dfs_leave <= start + node_size(n) - 1
    } by {
        if i < kids.len() {
            assert(walk_intervals(n, start, terms, prefix)[i] == kids[i]);
        } else {
            assert(walk_intervals(n, start, terms, prefix)[i] == own[i - kids.len()]);
        }
    }
}

/// Every interval of the walk over subtrees numbered from `start` lies inside
/// `[start, start + nodes_size(cs) - 1]`.
pub proof fn lemma_children_intervals_inside(
    cs: Seq<SkosConceptNode>,
    start: int,
    terms: Seq<Seq<char>>,
    prefix: Seq<char>,
)
    requires
        0 <= start,
        start + nodes_size(cs) - 1 <= u32::MAX,
    ensures
        forall|i: int|
            0 <= i < children_intervals(cs, start, terms, prefix).len() ==> {
                let iv = #[trigger] children_intervals(cs, start, terms, prefix)[i];
                start <= iv.dfs_enter <= iv.dfs_leave <= start + nodes_size(cs) - 1
            },
    decreases cs,
{
    if cs.len() > 0 {
        let front = cs.drop_last();
        let s2 = start + nodes_size(front);
        let a = children_intervals(front, start, terms, prefix);
        let b = walk_intervals(cs.last(), s2, terms, prefix);
        lemma_children_intervals_inside(front, start, terms, prefix);
        lemma_walk_intervals_inside(cs.last(), s2, terms, prefix);
        assert forall|i: int| 0 <= i < children_intervals(cs, start, terms, prefix).len() implies {
            let iv = #[trigger] children_intervals(cs, start, terms, prefix)[i];
            start <= iv.dfs_enter <= iv.dfs_leave <= start + nodes_size(cs) - 1
        } by {
            if i < a.len() {
                assert(children_intervals(cs, start, terms, prefix)[i] == a[i]);
            } else {
                assert(children_intervals(cs, start, terms, prefix)[i] == b[i - a.len()]);
            }
        }
    }
}

pub open spec fn entries_view(es: Seq<ConceptEntry>) -> Seq<EntryView> {
    es.map_values(|e: ConceptEntry| entry_view(e))
}

fn push_labels(
    labels: &Vec<(String, String)>,
    prefix: &str,
    dict: &Dictionary,
    enter: u32,
    leave: u32,
    depth: u16,
    intervals: &mut Vec<ConceptInterval>,
    entries: &mut Vec<ConceptEntry>,
)
    requires
        distinct_terms(dict@),
    ensures
        final(intervals)@ == old(intervals)@ + label_intervals(
            labels@,
            enter as int,
            leave as int,
            dict@,
            prefix@,
        ),
        entries_view(final(entries)@) == entries_view(old(entries)@) + label_entries(
            labels@,
            enter as int,
            leave as int,
            depth as int,
        ),
{
    let ghost i0 = intervals@;
    let ghost e0 = entries_view(entries@);
    let mut i: usize = 0;
    assert(labels@.take(0) =~= Seq::<(String, String)>::empty());
    assert(i0 + Seq::<ConceptInterval>::empty() =~= i0);
    assert(e0 + Seq::<EntryView>::empty() =~= e0);
    while i < labels.len()
        invariant
            i <= labels@.len(),
            distinct_terms(dict@),
            intervals@ == i0 + label_intervals(
                labels@.take(i as int),
                enter as int,
                leave as int,
                dict@,
                prefix@,
            ),
            entries_view(entries@) == e0 + label_entries(
                labels@.take(i as int),
                enter as int,
                leave as int,
                depth as int,
            ),
        decreases labels@.len() - i,
    {
        let ghost ib = intervals@;
        let ghost eb = entries@;
        let vid = &labels[i].0;
        let label = &labels[i].1;
        proof {
            assert(labels@.take(i + 1).drop_last() =~= labels@.take(i as int));
            assert(labels@.take(i + 1).last() == labels@[i as int]);
        }
        if !vid.as_str().is_empty() {
            let uri = crate::text::concat(prefix, vid.as_str());
            match dict.lookup(uri.as_str()) {
                Some(dict_id) => {
                    intervals.push(ConceptInterval { dict_id, dfs_enter: enter, dfs_leave: leave });
                    proof {
                        let t = prefix@ + vid@;
                        let c = choose|c: int| 0 <= c < dict@.len() && dict@[c] == t;
                        if c != dict_id as int {
                            if c < dict_id as int {
                                assert(dict@[c] != dict@[dict_id as int]);
                            } else {
                                assert(dict@[dict_id as int] != dict@[c]);
                            }
                        }
                        assert(term_id(dict@, t) == dict_id);
                    }
                },
                None => {},
            }
            entries.push(
                ConceptEntry {
                    dfs_enter: enter,
                    dfs_leave: leave,
                    depth,
                    value_id: vid.clone(),
                    label: label.clone(),
                },
            );
            proof {
                assert(entries_view(entries@) =~= entries_view(eb).push(
                    (enter, leave, depth, vid@, label@),
                ));
            }
        }
        proof {
            assert(intervals@ =~= i0 + label_intervals(
                labels@.take(i + 1),
                enter as int,
                leave as int,
                dict@,
                prefix@,
            ));
            assert(entries_view(entries@) =~= e0 + label_entries(
                labels@.take(i + 1),
                enter as int,
                leave as int,
                depth as int,
            ));
        }
        i = i + 1;
    }
    assert(labels@.take(labels@.len() as int) =~= labels@);
}

proof fn lemma_children_size_step(cs: Seq<SkosConceptNode>, i: int)
    requires
        0 <= i < cs.len(),
    ensures
        nodes_size(cs.take(i + 1)) == nodes_size(cs.take(i)) + node_size(cs[i]),
        nodes_height(cs.take(i + 1)) >= node_height(cs[i]),
        nodes_height(cs.take(i + 1)) >= nodes_height(cs.take(i)),
{
    assert(cs.take(i + 1).drop_last() =~= cs.take(i));
    assert(cs.take(i + 1).last() == cs[i]);
}

proof fn lemma_nodes_size_prefix(cs: Seq<SkosConceptNode>, i: int)
    requires
        0 <= i <= cs.len(),
    ensures
        nodes_size(cs.take(i)) <= nodes_size(cs),
        nodes_height(cs.take(i)) <= nodes_height(cs),
    decreases cs.len() - i,
{
    if i < cs.len() {
        lemma_nodes_size_prefix(cs, i + 1);
        lemma_children_size_step(cs, i);
    } else {
        assert(cs.take(i) =~= cs);
    }
}

/// Walk a concept depth-first, numbering it `*counter` on entry: its
/// narrower concepts are walked first, then each of its labels gives a tree
/// entry and, where its concept URI is in the dictionary, an interval.
#[verifier::rlimit(50)]
#[verifier::spinoff_prover]
fn dfs_walk(
    concept: &SkosConceptNode,
    prefix: &str,
    dict: &Dictionary,
    depth: u16,
    counter: &mut u32,
    intervals: &mut Vec<ConceptInterval>,
    entries: &mut Vec<ConceptEntry>,
)
    requires
        distinct_terms(dict@),
        *old(counter) + node_size(*concept) <= u32::MAX,
        depth + node_height(*concept) <= u16::MAX,
    ensures
        *final(counter) == *old(counter) + node_size(*concept),
        final(intervals)@ == old(intervals)@ + walk_intervals(
            *concept,
            *old(counter) as int,
            dict@,
            prefix@,
        ),
        entries_view(final(entries)@) == entries_view(old(entries)@) + walk_entries(
            *concept,
            depth as int,
            *old(counter) as int,
        ),
    decreases concept,
{
    let enter = *counter;
    *counter = *counter + 1;
    let ghost i0 = intervals@;
    let ghost e0 = entries_view(entries@);
    let ghost cs = concept.children@;
    let mut i: usize = 0;
    assert(cs.take(0) =~= Seq::<SkosConceptNode>::empty());
    assert(i0 + Seq::<ConceptInterval>::empty() =~= i0);
    assert(e0 + Seq::<EntryView>::empty() =~= e0);
    proof {
        lemma_nodes_size_prefix(cs, cs.len() as int);
        assert(cs.take(cs.len() as int) =~= cs);
    }
    while i < concept.children.len()
        invariant
            cs == concept.children@,
            i <= cs.len(),
            distinct_terms(dict@),
            enter + node_size(*concept) <= u32::MAX,
            depth + node_height(*concept) <= u16::MAX,
            *counter == enter + 1 + nodes_size(cs.take(i as int)),
            intervals@ == i0 + children_intervals(cs.take(i as int), enter + 1, dict@, prefix@),
            entries_view(entries@) == e0 + children_entries(
                cs.take(i as int),
                depth + 1,
                enter + 1,
            ),
        decreases cs.len() - i,
    {
        proof {
            lemma_children_size_step(cs, i as int);
            lemma_nodes_size_prefix(cs, i + 1);
            assert(node_height(*concept) == 1 + nodes_height(cs));
        }
        let ghost ib = intervals@;
        let ghost eb = entries_view(entries@);
        let ghost cb = *counter;
        dfs_walk(&concept.children[i], prefix, dict, depth + 1, counter, intervals, entries);
        proof {
            assert(cs.take(i + 1).drop_last() =~= cs.take(i as int));
            assert(cs.take(i + 1).last() == cs[i as int]);
            assert(intervals@ =~= i0 + children_intervals(
                cs.take(i + 1),
                enter + 1,
                dict@,
                prefix@,
            ));
            assert(entries_view(entries@) =~= e0 + children_entries(
                cs.take(i + 1),
                depth + 1,
                enter + 1,
            ));
        }
        i = i + 1;
    }
    proof {
        assert(cs.take(cs.len() as int) =~= cs);
    }
    let leave = *counter - 1;
    let ghost ib = intervals@;
    let ghost eb = entries_view(entries@);
    push_labels(&concept.labels, prefix, dict, enter, leave, depth, intervals, entries);
    proof {
        assert(intervals@ =~= i0 + walk_intervals(*concept, enter as int, dict@, prefix@));
        assert(entries_view(entries@) =~= e0 + walk_entries(*concept, depth as int, enter as int));
    }
}


/// The sort key of entry `i`: depth, then DFS entry number, then position.
pub open spec fn entry_key(es: Seq<EntryView>, i: int) -> Key4 {
    Key4 { a: es[i].2 as i64, b: es[i].0 as i64, c: i as i64, d: 0 }
}

/// A collection's entries ordered by depth, then DFS entry number, equal
/// ones keeping their order.
pub open spec fn sorted_entries(es: Seq<EntryView>) -> Seq<EntryView> {
    Seq::new(es.len(), |i: int| entry_key(es, i)).sort_by(leq::<Key4>()).map_values(
        |k: Key4| es[k.c as int],
    )
}

/// Number of concepts in a list of collections.
pub open spec fn colls_size(cs: Seq<SkosCollectionNode>) -> nat
    decreases cs.len(),
{
    if cs.len() == 0 {
        0
    } else {
        colls_size(cs.drop_last()) + nodes_size(cs.last().concepts@)
    }
}

/// The walk's entries of the last collection, numbered after the earlier
/// ones.
pub open spec fn coll_walk(cs: Seq<SkosCollectionNode>) -> Seq<EntryView> {
    children_entries(cs.last().concepts@, 0, colls_size(cs.drop_last()) as int)
}

/// The tree entries of a list of collections: each collection's entries,
/// sorted, one collection after the other.
pub open spec fn colls_entries(cs: Seq<SkosCollectionNode>) -> Seq<EntryView>
    decreases cs.len(),
{
    if cs.len() == 0 {
        Seq::empty()
    } else {
        colls_entries(cs.drop_last()) + sorted_entries(coll_walk(cs))
    }
}

/// The headers of a list of collections, in collection order.
pub open spec fn colls_headers(cs: Seq<SkosCollectionNode>) -> Seq<CollView>
    decreases cs.len(),
{
    if cs.len() == 0 {
        Seq::empty()
    } else {
        colls_headers(cs.drop_last()).push(
            (
                cs.last().id@,
                colls_entries(cs.drop_last()).len() as u32,
                coll_walk(cs).len() as u32,
            ),
        )
    }
}

/// The intervals of a list of collections, in walk order.
pub open spec fn colls_intervals(
    cs: Seq<SkosCollectionNode>,
    terms: Seq<Seq<char>>,
    prefix: Seq<char>,
) -> Seq<ConceptInterval>
    decreases cs.len(),
{
    if cs.len() == 0 {
        Seq::empty()
    } else {
        colls_intervals(cs.drop_last(), terms, prefix) + children_intervals(
            cs.last().concepts@,
            colls_size(cs.drop_last()) as int,
            terms,
            prefix,
        )
    }
}

/// The collections can be walked: concept numbers fit 32 bits, depths 16
/// bits, and entry counts and positions 32 bits.
pub open spec fn walkable(cs: Seq<SkosCollectionNode>) -> bool {
    &&& colls_size(cs) <= u32::MAX
    &&& forall|k: int|
        0 <= k < cs.len() ==> nodes_height((#[trigger] cs[k]).concepts@) <= u16::MAX
    &&& colls_entries(cs).len() <= u32::MAX
    &&& cs.len() <= u32::MAX
}

/// `order` lists the collections by id, equal ids in collection order.
pub open spec fn headers_order_ok(cs: Seq<SkosCollectionNode>, order: Seq<usize>) -> bool {
    page_order_ok(
        cs.map_values(|c: SkosCollectionNode| c.id),
        Seq::new(cs.len(), |i: int| 0u64),
        order,
    )
}

/// Sort a collection's entries by depth, then DFS entry number, keeping the
/// order of equal ones.
#[verifier::rlimit(50)]
#[verifier::spinoff_prover]
fn sort_entries(es: Vec<ConceptEntry>) -> (r: Vec<ConceptEntry>)
    requires
        es@.len() <= u32::MAX,
    ensures
        entries_view(r@) == sorted_entries(entries_view(es@)),
{
    let ghost ev = entries_view(es@);
    let mut keys: Vec<Key4> = Vec::new();
    let mut i: usize = 0;
    while i < es.len()
        invariant
            i <= es@.len(),
            es@.len() <= u32::MAX,
            ev == entries_view(es@),
            keys@ == Seq::new(i as nat, |j: int| entry_key(ev, j)),
        decreases es@.len() - i,
    {
        keys.push(Key4 { a: es[i].depth as i64, b: es[i].dfs_enter as i64, c: i as i64, d: 0 });
        i = i + 1;
        proof {
            assert(keys@ =~= Seq::new(i as nat, |j: int| entry_key(ev, j)));
        }
    }
    let sorted = merge_sort(&keys);
    proof {
        assert forall|k: int| 0 <= k < sorted@.len() implies 0 <= (#[trigger] sorted@[k]).c < es@.len() by {
            assert(sorted@.to_multiset().count(sorted@[k]) > 0);
            assert(keys@.to_multiset().count(sorted@[k]) > 0);
            assert(keys@.contains(sorted@[k]));
            let w = choose|w: int| 0 <= w < keys@.len() && keys@[w] == sorted@[k];
            assert(keys@[w].c == w);
        }
    }
    let mut out: Vec<ConceptEntry> = Vec::new();
    let mut j: usize = 0;
    while j < sorted.len()
        invariant
            j <= sorted@.len(),
            ev == entries_view(es@),
            forall|k: int| 0 <= k < sorted@.len() ==> 0 <= (#[trigger] sorted@[k]).c < es@.len(),
            entries_view(out@) == sorted@.take(j as int).map_values(|k: Key4| ev[k.c as int]),
        decreases sorted@.len() - j,
    {
        let ghost before = entries_view(out@);
        let p = sorted[j].c as usize;
        let e = &es[p];
        out.push(
            ConceptEntry {
                dfs_enter: e.dfs_enter,
                dfs_leave: e.dfs_leave,
                depth: e.depth,
                value_id: e.value_id.clone(),
                label: e.label.clone(),
            },
        );
        proof {
            assert(ev[p as int] == entry_view(es@[p as int]));
            assert(entries_view(out@) =~= before.push(ev[p as int]));
            assert(sorted@.take(j + 1).map_values(|k: Key4| ev[k.c as int]) =~= sorted@.take(
                j as int,
            ).map_values(|k: Key4| ev[k.c as int]).push(ev[sorted@[j as int].c as int]));
        }
        j = j + 1;
    }
    proof {
        assert(sorted@.take(sorted@.len() as int) =~= sorted@);
        assert(keys@ =~= Seq::new(ev.len(), |j: int| entry_key(ev, j)));
    }
    out
}


proof fn lemma_sorted_entries_len(es: Seq<EntryView>)
    ensures
        sorted_entries(es).len() == es.len(),
{
    let keys = Seq::new(es.len(), |i: int| entry_key(es, i));
    <Key4 as crate::sort::SortKey>::lemma_total();
    keys.lemma_sort_by_ensures(leq::<Key4>());
    assert(keys.sort_by(leq::<Key4>()).to_multiset().len() == keys.to_multiset().len());
}

proof fn lemma_colls_prefix(cs: Seq<SkosCollectionNode>, i: int)
    requires
        0 <= i <= cs.len(),
    ensures
        colls_size(cs.take(i)) <= colls_size(cs),
        colls_entries(cs.take(i)).len() <= colls_entries(cs).len(),
    decreases cs.len() - i,
{
    if i < cs.len() {
        lemma_colls_prefix(cs, i + 1);
        assert(cs.take(i + 1).drop_last() =~= cs.take(i));
    } else {
        assert(cs.take(i) =~= cs);
    }
}

proof fn lemma_node_height_in(cs: Seq<SkosConceptNode>, k: int)
    requires
        0 <= k < cs.len(),
    ensures
        node_height(cs[k]) <= nodes_height(cs),
        nodes_size(cs.take(k)) + node_size(cs[k]) <= nodes_size(cs),
{
    lemma_children_size_step(cs, k);
    lemma_nodes_size_prefix(cs, k + 1);
}

proof fn lemma_headers_in_range(cs: Seq<SkosCollectionNode>)
    ensures
        colls_headers(cs).len() == cs.len(),
        forall|k: int|
            0 <= k < cs.len() ==> (#[trigger] colls_headers(cs)[k]).1 + colls_headers(cs)[k].2
                <= colls_entries(cs).len() || colls_entries(cs).len() > u32::MAX,
    decreases cs.len(),
{
    if cs.len() > 0 {
        let init = cs.drop_last();
        lemma_headers_in_range(init);
        lemma_sorted_entries_len(coll_walk(cs));
    }
}

/// Build the concept interval index and the concept tree in one walk.
///
/// Collections are walked in order and their top concepts in order, each
/// concept numbered depth-first (narrower concepts first); each preferred
/// label with a value id gives a tree entry, and, when its concept URI is
/// in the dictionary, an interval. Each collection's entries are ordered by
/// depth, then DFS number; the headers are ordered by collection id.
#[verifier::rlimit(50)]
#[verifier::spinoff_prover]
pub fn build_concept_indexes(
    collections: &[SkosCollectionNode],
    dict: &Dictionary,
    base_uri: &str,
) -> (r: (ConceptIntervalIndex, ConceptTree))
    requires
        walkable(collections@),
    ensures
        r.0@.0 == spec_forward_index(
            colls_intervals(collections@, dict@, base_uri@ + "concept/"@),
        ),
        r.0@.1 == spec_reverse_index(r.0@.0),
        r.1@.1 == colls_entries(collections@),
        exists|order: Seq<usize>|
            #[trigger] headers_order_ok(collections@, order) && r.1@.0 == Seq::new(
                collections@.len(),
                |j: int| colls_headers(collections@)[order[j] as int],
            ),
{
    let prefix = crate::uri::concept_prefix(base_uri);
    let _ = dict.len();
    let ghost cs = collections@;
    let mut counter: u32 = 0;
    let mut intervals: Vec<ConceptInterval> = Vec::new();
    let mut entries: Vec<ConceptEntry> = Vec::new();
    let mut headers: Vec<CollectionHeader> = Vec::new();
    let mut ci: usize = 0;
    proof {
        assert(cs.take(0) =~= Seq::<SkosCollectionNode>::empty());
        assert(entries_view(entries@) =~= Seq::<EntryView>::empty());
        assert(headers@.map_values(|h: CollectionHeader| coll_view(h)) =~= Seq::<CollView>::empty());
    }
    while ci < collections.len()
        invariant
            cs == collections@,
            walkable(cs),
            distinct_terms(dict@),
            ci <= cs.len(),
            prefix@ == base_uri@ + "concept/"@,
            counter == colls_size(cs.take(ci as int)),
            intervals@ == colls_intervals(cs.take(ci as int), dict@, prefix@),
            entries_view(entries@) == colls_entries(cs.take(ci as int)),
            headers@.map_values(|h: CollectionHeader| coll_view(h)) == colls_headers(
                cs.take(ci as int),
            ),
        decreases cs.len() - ci,
    {
        let ghost pre = cs.take(ci as int);
        let ghost cur = cs.take(ci + 1);
        proof {
            assert(cur.drop_last() =~= pre);
            assert(cur.last() == cs[ci as int]);
            lemma_colls_prefix(cs, ci + 1);
        }
        let concepts = &collections[ci].concepts;
        let ghost cc = concepts@;
        let ghost start = colls_size(pre) as int;
        let ghost i_pre = intervals@;
        let mut coll_entries: Vec<ConceptEntry> = Vec::new();
        let mut k: usize = 0;
        proof {
            assert(cc.take(0) =~= Seq::<SkosConceptNode>::empty());
            assert(entries_view(coll_entries@) =~= Seq::<EntryView>::empty());
            assert(i_pre + Seq::<ConceptInterval>::empty() =~= i_pre);
            lemma_nodes_size_prefix(cc, cc.len() as int);
            assert(cc.take(cc.len() as int) =~= cc);
            assert(colls_size(cur) == start + nodes_size(cc));
            assert(nodes_height(cs[ci as int].concepts@) <= u16::MAX);
        }
        while k < concepts.len()
            invariant
                cc == concepts@,
                k <= cc.len(),
                distinct_terms(dict@),
                start + nodes_size(cc) <= u32::MAX,
                nodes_height(cc) <= u16::MAX,
                counter == start + nodes_size(cc.take(k as int)),
                intervals@ == i_pre + children_intervals(cc.take(k as int), start, dict@, prefix@),
                entries_view(coll_entries@) == children_entries(cc.take(k as int), 0, start),
            decreases cc.len() - k,
        {
            proof {
                lemma_node_height_in(cc, k as int);
                lemma_children_size_step(cc, k as int);
            }
            dfs_walk(&concepts[k], prefix.as_str(), dict, 0, &mut counter, &mut intervals, &mut coll_entries);
            proof {
                assert(cc.take(k + 1).drop_last() =~= cc.take(k as int));
                assert(cc.take(k + 1).last() == cc[k as int]);
                assert(intervals@ =~= i_pre + children_intervals(cc.take(k + 1), start, dict@, prefix@));
                assert(entries_view(coll_entries@) =~= children_entries(cc.take(k + 1), 0, start));
            }
            k = k + 1;
        }
        proof {
            assert(cc.take(cc.len() as int) =~= cc);
            lemma_sorted_entries_len(coll_walk(cur));
            assert(colls_entries(cur).len() <= u32::MAX);
        }
        let n_before = entries.len();
        let count = coll_entries.len();
        let mut sorted = sort_entries(coll_entries);
        let ghost hv = headers@.map_values(|h: CollectionHeader| coll_view(h));
        headers.push(
            CollectionHeader {
                collection_id: collections[ci].id.clone(),
                first_entry: n_before as u32,
                entry_count: count as u32,
            },
        );
        let ghost ev = entries_view(entries@);
        entries.append(&mut sorted);
        proof {
            assert(headers@.map_values(|h: CollectionHeader| coll_view(h)) =~= colls_headers(cur));
            assert(entries_view(entries@) =~= colls_entries(cur));
            assert(intervals@ =~= colls_intervals(cur, dict@, prefix@));
        }
        ci = ci + 1;
    }
    proof {
        assert(cs.take(cs.len() as int) =~= cs);
        lemma_headers_in_range(cs);
    }
    // Order the headers by collection id.
    let mut ids: Vec<String> = Vec::new();
    let mut zeros: Vec<u64> = Vec::new();
    let mut j: usize = 0;
    while j < collections.len()
        invariant
            cs == collections@,
            j <= cs.len(),
            ids@ == cs.take(j as int).map_values(|c: SkosCollectionNode| c.id),
            zeros@ == Seq::new(j as nat, |i: int| 0u64),
        decreases cs.len() - j,
    {
        ids.push(collections[j].id.clone());
        zeros.push(0);
        j = j + 1;
        proof {
            assert(ids@ =~= cs.take(j as int).map_values(|c: SkosCollectionNode| c.id));
            assert(zeros@ =~= Seq::new(j as nat, |i: int| 0u64));
        }
    }
    proof {
        assert(cs.take(cs.len() as int) =~= cs);
    }
    let plan = plan_pages(&ids, &zeros, 1);
    let ghost hv = headers@.map_values(|h: CollectionHeader| coll_view(h));
    let mut sorted_headers: Vec<CollectionHeader> = Vec::new();
    let mut q: usize = 0;
    while q < plan.order.len()
        invariant
            plan.order@.len() == hv.len(),
            hv.len() == cs.len(),
            hv == headers@.map_values(|h: CollectionHeader| coll_view(h)),
            forall|k: int| 0 <= k < plan.order@.len() ==> (#[trigger] plan.order@[k] as int) < hv.len(),
            q <= plan.order@.len(),
            sorted_headers@.map_values(|h: CollectionHeader| coll_view(h)) == Seq::new(
                q as nat,
                |x: int| hv[plan.order@[x] as int],
            ),
        decreases plan.order@.len() - q,
    {
        let ghost before = sorted_headers@.map_values(|h: CollectionHeader| coll_view(h));
        let h = &headers[plan.order[q]];
        sorted_headers.push(
            CollectionHeader {
                collection_id: h.collection_id.clone(),
                first_entry: h.first_entry,
                entry_count: h.entry_count,
            },
        );
        proof {
            assert(hv[plan.order@[q as int] as int] == coll_view(headers@[plan.order@[q as int] as int]));
            assert(sorted_headers@.map_values(|h: CollectionHeader| coll_view(h)) =~= before.push(
                hv[plan.order@[q as int] as int],
            ));
        }
        q = q + 1;
        proof {
            assert(sorted_headers@.map_values(|h: CollectionHeader| coll_view(h)) =~= Seq::new(
                q as nat,
                |x: int| hv[plan.order@[x] as int],
            ));
        }
    }
    proof {
        let sv = sorted_headers@.map_values(|h: CollectionHeader| coll_view(h));
        assert forall|k: int| 0 <= k < sv.len() implies #[trigger] sv[k].1 + sv[k].2 <= entries@.len() by {
            assert(sv[k] == hv[plan.order@[k] as int]);
        }
    }
    let index = ConceptIntervalIndex::from_intervals(intervals);
    let tree = ConceptTree::from_parts(sorted_headers, entries);
    proof {
        assert(ids@ =~= cs.map_values(|c: SkosCollectionNode| c.id));
        assert(zeros@ =~= Seq::new(cs.len(), |i: int| 0u64));
        assert(page_order_ok(
            cs.map_values(|c: SkosCollectionNode| c.id),
            Seq::new(cs.len(), |i: int| 0u64),
            plan.order@,
        ));
        assert(headers_order_ok(cs, plan.order@));
        assert(tree@.0 =~= Seq::new(cs.len(), |x: int| colls_headers(cs)[plan.order@[x] as int]));
    }
    (index, tree)
}

} // verus!
