//! What holds of the operations of the tree taken together.

use vstd::prelude::*;
use crate::delete::collapsed;
use crate::delete::erased;
use crate::iter::carries;
use crate::iter::lemma_filter_head;
use crate::order::lemma_order_live;
use crate::order::lemma_pos;
use crate::order::lemma_walk_distinct;
use crate::order::lemma_walk_same;
use crate::order::order;
use crate::prefix::Prefix;
use crate::prefix::covers;
use crate::prefix::key;
use crate::lookup::is_match;
use crate::prefix::lemma_covers_is_prefix;
use crate::prefix::lemma_key_eq;
use crate::shape::has_key;
use crate::shape::holds;
use crate::shape::lemma_routes_at;
use crate::shape::lemma_unique;
use crate::shape::routes;
use crate::tree::Ptree;

verus! {

/// Filtering keeps a sequence free of repetitions.
pub proof fn lemma_filter_distinct(s: Seq<usize>, p: spec_fn(usize) -> bool)
    requires
        s.no_duplicates(),
    ensures
        s.filter(p).no_duplicates(),
        forall|x: usize| #[trigger] s.filter(p).contains(x) <==> s.contains(x) && p(x),
    decreases s.len(),
{
    if s.len() > 0 {
        let t = s.skip(1);
        lemma_filter_head(s, p);
        lemma_filter_distinct(t, p);
        let ft = t.filter(p);
        let fs = s.filter(p);
        assert forall|x: usize| #[trigger] fs.contains(x) <==> s.contains(x) && p(x) by {
            if fs.contains(x) && !(p(s[0]) && x == s[0]) {
                assert(ft.contains(x));
            }
        }
        assert forall|i: int, j: int| 0 <= i < fs.len() && 0 <= j < fs.len() && i != j implies fs[i]
            != fs[j] by {
            if p(s[0]) && i == 0 {
                assert(ft.contains(ft[j - 1]));
            }
            if p(s[0]) && j == 0 {
                assert(ft.contains(ft[i - 1]));
            }
        }
    }
}

impl<P: Prefix + Copy, D> Ptree<P, D> {
    /// The walk over all nodes gives every node of the tree, each once.
    pub proof fn law_walk_gives_each_node_once(&self)
        requires
            self.wf(),
        ensures
            self.in_order().no_duplicates(),
            forall|x: usize| #[trigger] self.in_order().contains(x) <==> self.nodes().dom().contains(x),
    {
        P::width_fits();
        let m = self.nodes();
        let top = self.root();
        let o = self.in_order();
        assert forall|i: int, j: int| 0 <= i < o.len() && 0 <= j < o.len() && i != j implies o[i]
            != o[j] by {
            if i < j {
                lemma_walk_distinct(m, top, top->0, i, j);
            } else {
                lemma_walk_distinct(m, top, top->0, j, i);
            }
        }
        assert forall|x: usize| #[trigger] o.contains(x) <==> m.dom().contains(x) by {
            if o.contains(x) {
                let i = choose|i: int| 0 <= i < o.len() && o[i] == x;
                lemma_order_live(m, top, i);
            }
            if m.dom().contains(x) {
                lemma_pos(m, top, x);
            }
        }
    }

    /// The walk over the data gives the node of every route, each once: as many nodes
    /// as there are routes, whatever other nodes the tree holds.
    pub proof fn law_data_walk_gives_each_route_once(&self)
        requires
            self.wf(),
        ensures
            self.data_in_order().no_duplicates(),
            forall|x: usize| #[trigger]
                self.data_in_order().contains(x) <==> self.nodes().dom().contains(x)
                    && self.nodes()[x].data is Some,
            self@.dom().finite(),
            self.data_in_order().len() == self@.dom().len(),
    {
        let m = self.nodes();
        let top = self.root();
        self.law_walk_gives_each_node_once();
        lemma_filter_distinct(self.in_order(), carries(m));
        let d = self.data_in_order();
        let keys = d.map_values(|x: usize| key(m[x].prefix));
        assert forall|i: int, j: int|
            0 <= i < keys.len() && 0 <= j < keys.len() && i != j implies keys[i] != keys[j] by {
            assert(d.contains(d[i]));
            assert(d.contains(d[j]));
            if keys[i] == keys[j] {
                lemma_unique(m, top, d[i], d[j]);
            }
        }
        assert forall|k: Seq<bool>| #[trigger] keys.to_set().contains(k) <==> self@.dom().contains(
            k,
        ) by {
            if keys.to_set().contains(k) {
                let i = choose|i: int| 0 <= i < keys.len() && keys[i] == k;
                assert(d.contains(d[i]));
                assert(holds(m, d[i], k));
            }
            if self@.dom().contains(k) {
                let x = choose|x: usize| holds(m, x, k);
                assert(d.contains(x));
                let i = choose|i: int| 0 <= i < d.len() && d[i] == x;
                assert(keys[i] == k);
            }
        }
        assert(keys.to_set() =~= self@.dom());
        keys.unique_seq_to_set();
        vstd::seq_lib::seq_to_set_is_finite(keys);
    }

    /// A route that was added is found: on the tree that `add` makes for a prefix `p`
    /// and data `d`, the node that `lookup_exact` gives for `p` exists and carries `d`.
    pub proof fn law_added_is_found(before: Self, after: Self, p: P, d: D, found: Option<usize>)
        requires
            after.wf(),
            after@ == before@.insert(key(p), d),
            found is Some <==> after@.dom().contains(key(p)),
            found matches Some(id) ==> after.nodes()[id].data == Some(after@[key(p)]),
        ensures
            found matches Some(id) && after.nodes()[id].data == Some(d),
    {
    }

    /// The longest match is the longest stored key: where `found` is what `lookup`
    /// gives for `p`, the key of the node it names is the longest key with a route
    /// that is a prefix of the key of `p`, and it names none only where no such key
    /// has a route.
    pub proof fn law_lookup_is_longest_match(&self, p: P, found: Option<usize>)
        requires
            self.wf(),
            match found {
                Some(id) => is_match(self.nodes(), id, p) && forall|o: usize|
                    is_match(self.nodes(), o, p) ==> self.nodes()[o].prefix.spec_len()
                        <= self.nodes()[id].prefix.spec_len(),
                None => forall|o: usize| !is_match(self.nodes(), o, p),
            },
        ensures
            found matches Some(id) ==> self@.dom().contains(key(self.nodes()[id].prefix)) && key(
                self.nodes()[id].prefix,
            ).is_prefix_of(key(p)),
            forall|k: Seq<bool>|
                #![trigger self@.dom().contains(k)]
                self@.dom().contains(k) && k.is_prefix_of(key(p)) ==> found is Some && k.len()
                    <= key(self.nodes()[found->0].prefix).len(),
    {
        let m = self.nodes();
        if found is Some {
            lemma_routes_at(m, self.root(), found->0);
        }
        assert forall|k: Seq<bool>|
            #![trigger self@.dom().contains(k)]
            self@.dom().contains(k) && k.is_prefix_of(key(p)) implies found is Some && k.len()
            <= key(m[found->0].prefix).len() by {
            let x = choose|x: usize| holds(m, x, k);
            lemma_covers_is_prefix(m[x].prefix, p);
            assert(is_match(m, x, p));
        }
    }

    /// Inserting a prefix again gives the same node and changes nothing: where
    /// `first` is the node that `insert` gave for `p` on the tree `once`, and `again`
    /// and `twice` are the node and the tree of a second `insert` of `p`, the two
    /// nodes are one and the tree has the same nodes in the same order.
    pub proof fn law_insert_is_idempotent(once: Self, twice: Self, p: P, first: usize, again: usize)
        requires
            once.wf(),
            twice.wf(),
            has_key(once.nodes(), first, key(p)),
            has_key(twice.nodes(), again, key(p)),
            (exists|id: usize| has_key(once.nodes(), id, key(p))) ==> twice.nodes() == once.nodes()
                && twice.root() == once.root(),
        ensures
            again == first,
            twice.nodes() == once.nodes(),
            twice.in_order() == once.in_order(),
    {
        lemma_unique(once.nodes(), once.root(), first, again);
    }

    /// A route that was deleted is gone: where node `id` held the route of `p` in the
    /// tree `before` and `after` is the tree that `delete` makes of it, `p` has no route
    /// in `after` and every other route is as it was. Unless `id` had two children, the
    /// walk over all nodes no longer gives it; what else the walk no longer gives are
    /// nodes above `id` that the deletion left with neither data nor child, and every
    /// node that it still gives and that had data or a child has one.
    pub proof fn law_deleted_is_gone(before: Self, after: Self, p: P, id: usize)
        requires
            before.wf(),
            after.wf(),
            holds(before.nodes(), id, key(p)),
            after@ == before@.remove(key(p)),
            forall|x: usize|
                holds(before.nodes(), x, key(p)) ==> erased(before.nodes(), after.nodes(), x),
        ensures
            !after@.dom().contains(key(p)),
            forall|x: usize| !holds(after.nodes(), x, key(p)),
            forall|k: Seq<bool>|
                k != key(p) ==> after@.dom().contains(k) == before@.dom().contains(k) && (
                before@.dom().contains(k) ==> after@[k] == before@[k]),
            !(before.nodes()[id].kid(0) is Some && before.nodes()[id].kid(1) is Some)
                ==> !after.in_order().contains(id),
            forall|x: usize|
                before.in_order().contains(x) && !(#[trigger] after.in_order().contains(x)) && x
                    != id ==> collapsed(before.nodes(), after.nodes(), id, x),
            forall|x: usize| #[trigger]
                after.in_order().contains(x) ==> before.in_order().contains(x) && (
                before.nodes()[x].occupied() ==> after.nodes()[x].occupied()),
    {
        before.law_walk_gives_each_node_once();
        after.law_walk_gives_each_node_once();
        assert forall|x: usize| #[trigger] after.in_order().contains(x) implies before.in_order().contains(
            x,
        ) && (before.nodes()[x].occupied() ==> after.nodes()[x].occupied()) by {
            assert(after.nodes().dom().contains(x));
        }
        assert forall|x: usize|
            before.in_order().contains(x) && !(#[trigger] after.in_order().contains(x)) && x
                != id implies collapsed(before.nodes(), after.nodes(), id, x) by {
            assert(!after.nodes().dom().contains(x));
        }
        assert forall|x: usize| !holds(after.nodes(), x, key(p)) by {
            if holds(after.nodes(), x, key(p)) {
                lemma_routes_at(after.nodes(), after.root(), x);
            }
        }
    }

    /// Deleting the route of a node with two children leaves every node in place:
    /// where node `id` held a route in the tree `before` and had two children, and
    /// `after` has the nodes that erasing `id` leaves, the same nodes stand in the same
    /// order with the same links, and only the data of `id` is gone.
    pub proof fn law_branch_is_kept(before: Self, after: Self, id: usize)
        requires
            before.wf(),
            after.wf(),
            before.nodes().dom().contains(id),
            before.nodes()[id].kid(0) is Some,
            before.nodes()[id].kid(1) is Some,
            erased(before.nodes(), after.nodes(), id),
            after.root() == before.root(),
        ensures
            after.nodes().dom() == before.nodes().dom(),
            after.in_order() == before.in_order(),
            after.nodes()[id].data is None,
            forall|x: usize|
                before.nodes().dom().contains(x) ==> (#[trigger] after.nodes()[x]).same_place(
                    before.nodes()[x],
                ),
    {
        P::width_fits();
        if before.root() is Some {
            lemma_walk_same(before.nodes(), after.nodes(), before.root(), before.root()->0);
        }
    }
}

/// The routes that a tree holds after the pairs of `ps` were added to an empty tree,
/// one after the other.
pub open spec fn routes_after<P: Prefix, D>(ps: Seq<(P, D)>) -> Map<Seq<bool>, D>
    decreases ps.len(),
{
    if ps.len() == 0 {
        Map::empty()
    } else {
        routes_after(ps.drop_last()).insert(key(ps.last().0), ps.last().1)
    }
}

/// Adding prefixes with different keys gives one route for each.
pub proof fn lemma_routes_after_count<P: Prefix, D>(ps: Seq<(P, D)>)
    requires
        forall|i: int, j: int| 0 <= i < j < ps.len() ==> key(ps[i].0) != key(ps[j].0),
    ensures
        routes_after(ps).dom().finite(),
        routes_after(ps).dom().len() == ps.len(),
        forall|k: Seq<bool>| #[trigger]
            routes_after(ps).dom().contains(k) ==> exists|i: int|
                0 <= i < ps.len() && key(ps[i].0) == k,
    decreases ps.len(),
{
    if ps.len() > 0 {
        let rest = ps.drop_last();
        lemma_routes_after_count(rest);
    }
}

impl<P: Prefix + Copy, D> Ptree<P, D> {
    /// Prefixes of which none contains another count once each: where the tree holds
    /// the routes that adding the pairs of `ps` to an empty tree gives, and no prefix
    /// of `ps` contains another, the walk over the data gives as many nodes as `ps`
    /// has pairs.
    pub proof fn law_diverging_prefixes_count_once(&self, ps: Seq<(P, D)>)
        requires
            self.wf(),
            self@ == routes_after(ps),
            forall|i: int, j: int|
                0 <= i < ps.len() && 0 <= j < ps.len() && i != j ==> !covers(ps[i].0, ps[j].0),
        ensures
            self.data_in_order().len() == ps.len(),
    {
        assert forall|i: int, j: int| 0 <= i < j < ps.len() implies key(ps[i].0) != key(
            ps[j].0,
        ) by {
            lemma_key_eq(ps[i].0, ps[j].0);
        }
        lemma_routes_after_count(ps);
        self.law_data_walk_gives_each_route_once();
    }
}

} // verus!
