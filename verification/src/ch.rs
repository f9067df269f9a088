//! Contraction hierarchies: the state of a hierarchy and the steps that
//! change its working adjacency.

use crate::adjacency::{adj_of, all_grouped, grouped, in_range, links_view, targets_within};
use crate::contraction::{
    lemma_first_aim_is, lemma_part_point_is, merged, paired_but, swept, unmated, with_arc,
};
use crate::graph::Graph;
use crate::network::{IdxLink, IdxLinkDir, IdxNodeKey, LinkView, COST_SPAN};
use crate::ordered::upper_bound_dir;
use crate::pairing::{aims, none_before, repriced};
use crate::shortcut::CHContraction;
use vstd::prelude::*;

verus! {

/// data structure for contraction hierarchies
pub struct CH<'a> {
    pub graph: &'a Graph,
    /// order of each node, starting from 1. `u32::MAX` if given node is not ordered yet
    pub order: Vec<u32>,
    /// contractions
    pub contractions: Vec<Vec<IdxLink>>,
    pub all_contractions: Vec<CHContraction>,
    /// Of the links of each node, those that lead to a node of higher rank:
    /// what queries follow. Empty until the hierarchy is finished.
    pub upward: Vec<Vec<IdxLink>>,
}

/// The links of `list` that have direction `dir`, in order.
pub open spec fn only_dir(list: Seq<IdxLink>, dir: IdxLinkDir) -> Seq<IdxLink> {
    list.filter(|l: IdxLink| l@.dir == dir)
}

/// The shortcut names nodes among the first `n`.
pub open spec fn shortcut_within(c: CHContraction, n: int) -> bool {
    c.snode_idx.0 < n && c.enode_idx.0 < n && c.mnode_idx.0 < n
}

impl<'a> CH<'a> {
    /// The graph that the hierarchy was made for.
    pub open spec fn graph(&self) -> &'a Graph {
        self.graph
    }

    /// What the links of the hierarchy say, node by node.
    pub open spec fn adj(&self) -> Seq<Seq<LinkView>> {
        adj_of(self.contractions@)
    }

    /// What the links that queries follow say, node by node.
    pub open spec fn up(&self) -> Seq<Seq<LinkView>> {
        adj_of(self.upward@)
    }

    /// The rank of each node: `u32::MAX` while it is not contracted, else the
    /// number of the contraction that took it, from 1.
    pub open spec fn ranks(&self) -> Seq<u32> {
        self.order@
    }

    /// The shortcuts that the contractions have added.
    pub open spec fn shortcuts(&self) -> Seq<CHContraction> {
        self.all_contractions@
    }

    /// The hierarchy has a rank and a list of links for each node of a
    /// well-formed graph; links and shortcuts name nodes of the graph.
    pub open spec fn wf(&self) -> bool {
        &&& self.graph().wf()
        &&& self.graph().node_len < u32::MAX
        &&& self.ranks().len() == self.graph().node_len
        &&& self.adj().len() == self.graph().node_len
        &&& in_range(self.adj())
        &&& forall|i: int|
            0 <= i < self.shortcuts().len() ==> shortcut_within(
                #[trigger] self.shortcuts()[i],
                self.graph().node_len as int,
            )
    }

    /// The hierarchy as `new` makes it: the links of the graph, no node
    /// contracted, no shortcut.
    pub open spec fn fresh(&self) -> bool {
        &&& self.wf()
        &&& self.adj() == self.graph().adj()
        &&& self.shortcuts().len() == 0
        &&& forall|u: int| 0 <= u < self.ranks().len() ==> #[trigger] self.ranks()[u] == u32::MAX
    }

    /// A hierarchy over `graph` with nothing contracted yet.
    pub fn new(graph: &'a Graph) -> (ch: Self)
        requires
            graph.wf(),
            graph.node_len < u32::MAX,
        ensures
            ch.fresh(),
            ch.graph() == graph,
    {
        let node_len = graph.node_len;
        let mut order: Vec<u32> = Vec::with_capacity(node_len);
        let mut contractions: Vec<Vec<IdxLink>> = Vec::with_capacity(node_len);
        let mut u: usize = 0;
        while u < node_len
            invariant
                node_len == graph.idx_links@.len(),
                u <= node_len,
                order@.len() == u,
                contractions@.len() == u,
                forall|w: int| 0 <= w < u ==> #[trigger] order@[w] == u32::MAX,
                forall|w: int| 0 <= w < u ==> (#[trigger] contractions@[w])@ == graph.idx_links@[w]@,
            decreases node_len - u,
        {
            order.push(u32::MAX);
            let row = &graph.idx_links[u];
            let mut copy: Vec<IdxLink> = Vec::with_capacity(row.len());
            let mut i: usize = 0;
            while i < row.len()
                invariant
                    i <= row.len(),
                    copy@ == row@.take(i as int),
                decreases row.len() - i,
            {
                copy.push(row[i]);
                assert(row@.take(i + 1) =~= row@.take(i as int).push(row@[i as int]));
                i += 1;
            }
            assert(row@.take(row.len() as int) =~= row@);
            contractions.push(copy);
            u += 1;
        }
        let ch = Self {
            graph,
            order,
            contractions,
            all_contractions: Vec::new(),
            upward: Vec::new(),
        };
        proof {
            assert(ch.adj() =~= graph.adj()) by {
                assert forall|w: int| 0 <= w < node_len implies #[trigger] ch.adj()[w]
                    == graph.adj()[w] by {
                    assert(links_view(ch.contractions@[w]@) == links_view(graph.idx_links@[w]@));
                }
            }
        }
        ch
    }

    /// The rank of each node.
    pub fn order(&self) -> (order: &Vec<u32>)
        ensures
            order@ == self.ranks(),
    {
        &self.order
    }

    /// The shortcuts of the hierarchy.
    pub fn contractions(&self) -> (list: &Vec<CHContraction>)
        ensures
            list@ == self.shortcuts(),
    {
        &self.all_contractions
    }

    /// The links of node `key` in the hierarchy.
    pub fn links(&self, key: IdxNodeKey) -> (links: &Vec<IdxLink>)
        requires
            key.0 < self.adj().len(),
        ensures
            links_view(links@) == self.adj()[key.0 as int],
    {
        &self.contractions[key.index()]
    }

    /// Merges a link from `snode_idx` to `enode_idx` into the list of
    /// `snode_idx`: a link to the same node in the same direction takes the
    /// lower cost, else the link is put behind the others of its direction.
    pub fn add_contraction_dir(
        &mut self,
        snode_idx: IdxNodeKey,
        enode_idx: IdxNodeKey,
        length: u32,
        dir: IdxLinkDir,
    )
        requires
            old(self).wf(),
            snode_idx.0 < old(self).adj().len(),
            enode_idx.0 < old(self).adj().len(),
            length < COST_SPAN,
            grouped(old(self).adj()[snode_idx.0 as int]),
        ensures
            final(self).graph() == old(self).graph(),
            final(self).ranks() == old(self).ranks(),
            final(self).shortcuts() == old(self).shortcuts(),
            final(self).adj() == old(self).adj().update(
                snode_idx.0 as int,
                merged(
                    old(self).adj()[snode_idx.0 as int],
                    LinkView { to: enode_idx.0 as int, cost: length as int, dir: dir },
                ),
            ),
    {
        let s = snode_idx.index();
        let ghost adj0 = self.adj();
        let ghost list = adj0[s as int];
        let ghost link = LinkView { to: enode_idx.0 as int, cost: length as int, dir: dir };
        let len = self.contractions[s].len();
        let mut j: usize = 0;
        while j < len
            invariant
                self.contractions@ == old(self).contractions@,
                s < self.contractions@.len(),
                len == self.contractions@[s as int]@.len(),
                list == links_view(self.contractions@[s as int]@),
                link == (LinkView { to: enode_idx.0 as int, cost: length as int, dir: dir }),
                j <= len,
                none_before(list, j as int, link.to, link.dir),
            ensures
                j <= len,
                none_before(list, j as int, link.to, link.dir),
                j < len ==> aims(list[j as int], link.to, link.dir),
            decreases len - j,
        {
            let l = self.contractions[s][j];
            assert(l@ == list[j as int]);
            if l.enode_idx().0 == enode_idx.0 && l.dir() == dir {
                break ;
            }
            j += 1;
        }
        proof {
            lemma_first_aim_is(list, j as int, link.to, link.dir);
        }
        if j < len {
            let prev_link = self.contractions[s][j];
            assert(prev_link@ == list[j as int]);
            if prev_link.cost() > length {
                let ghost rows0 = self.contractions@;
                self.contractions[s][j].set_cost(length);
                proof {
                    let rows1 = self.contractions@;
                    assert(rows1[s as int]@[j as int]@ == repriced(list[j as int], length as int));
                    assert(links_view(rows1[s as int]@) =~= list.update(
                        j as int,
                        repriced(list[j as int], length as int),
                    ));
                    assert(self.adj() =~= adj0.update(s as int, merged(list, link))) by {
                        assert forall|u: int| 0 <= u < adj0.len() && u != s implies self.adj()[u]
                            == adj0[u] by {
                            assert(rows1[u] == rows0[u]);
                        }
                    }
                }
            } else {
                proof {
                    assert(self.adj() =~= adj0.update(s as int, merged(list, link)));
                }
            }
        } else {
            let new_link = IdxLink::new(enode_idx, length, dir);
            let idx = upper_bound_dir(&self.contractions[s], dir.to_u32());
            let ghost rows0 = self.contractions@;
            self.contractions[s].insert(idx, new_link);
            proof {
                let rows1 = self.contractions@;
                lemma_part_point_is(list, dir.code(), idx as int);
                assert(new_link@ == link);
                assert(links_view(rows1[s as int]@) =~= list.insert(idx as int, link));
                assert(self.adj() =~= adj0.update(s as int, merged(list, link))) by {
                    assert forall|u: int| 0 <= u < adj0.len() && u != s implies self.adj()[u]
                        == adj0[u] by {
                        assert(rows1[u] == rows0[u]);
                    }
                }
            }
        }
    }

    /// Adds the shortcut `c`: its arc is merged in at both its ends, and the
    /// shortcut is put on the list.
    pub fn add_contraction(&mut self, c: CHContraction)
        requires
            old(self).wf(),
            all_grouped(old(self).adj()),
            shortcut_within(c, old(self).adj().len() as int),
            c.snode_idx != c.enode_idx,
            c.length < COST_SPAN,
        ensures
            final(self).graph() == old(self).graph(),
            final(self).ranks() == old(self).ranks(),
            final(self).shortcuts() == old(self).shortcuts().push(c),
            final(self).adj() == with_arc(
                old(self).adj(),
                c.snode_idx.0 as int,
                c.enode_idx.0 as int,
                c.length as int,
            ),
            final(self).wf(),
            all_grouped(final(self).adj()),
    {
        let ghost adj0 = self.adj();
        let ghost n = adj0.len() as int;
        let ghost s = c.snode_idx.0 as int;
        let ghost e = c.enode_idx.0 as int;
        proof {
            assert(grouped(adj0[s]));
            assert(grouped(adj0[e]));
            assert(targets_within(adj0[s], n));
            assert(targets_within(adj0[e], n));
            crate::contraction::lemma_merged_shape(
                adj0[s],
                LinkView { to: e, cost: c.length as int, dir: IdxLinkDir::Forward },
                n,
            );
        }
        self.add_contraction_dir(c.snode_idx, c.enode_idx, c.length, IdxLinkDir::Forward);
        let ghost adj1 = self.adj();
        proof {
            assert forall|u: int| 0 <= u < n implies targets_within(#[trigger] adj1[u], n)
                && grouped(adj1[u]) by {
                if u != s {
                    assert(adj1[u] == adj0[u]);
                    assert(targets_within(adj0[u], n));
                    assert(grouped(adj0[u]));
                }
            }
            crate::contraction::lemma_merged_shape(
                adj1[e],
                LinkView { to: s, cost: c.length as int, dir: IdxLinkDir::Backward },
                n,
            );
        }
        self.add_contraction_dir(c.enode_idx, c.snode_idx, c.length, IdxLinkDir::Backward);
        proof {
            let adj2 = self.adj();
            assert forall|u: int| 0 <= u < n implies targets_within(#[trigger] adj2[u], n)
                && grouped(adj2[u]) by {
                if u != e {
                    assert(adj2[u] == adj1[u]);
                }
            }
        }
        let ghost before = self.all_contractions@;
        self.all_contractions.push(c);
        proof {
            assert forall|i: int| 0 <= i < self.shortcuts().len() implies shortcut_within(
                #[trigger] self.shortcuts()[i],
                self.graph().node_len as int,
            ) by {
                if i < before.len() {
                    assert(self.shortcuts()[i] == before[i]);
                }
            }
        }
    }

    /// Takes the mates of the links `contractions` of node `key`, which were
    /// taken out of the links of the hierarchy, out of the lists of the nodes
    /// they lead to: for each link the first link back to `key` in the other
    /// direction. Every link must have its mate.
    pub fn gc_contraction(&mut self, key: IdxNodeKey, contractions: &Vec<IdxLink>)
        requires
            old(self).wf(),
            key.0 < old(self).adj().len(),
            targets_within(links_view(contractions@), old(self).adj().len() as int),
            paired_but(old(self).adj(), key.0 as int, links_view(contractions@)),
        ensures
            final(self).graph() == old(self).graph(),
            final(self).ranks() == old(self).ranks(),
            final(self).shortcuts() == old(self).shortcuts(),
            final(self).adj() == swept(old(self).adj(), key.0 as int, links_view(contractions@)),
            final(self).adj().len() == old(self).adj().len(),
    {
        let ghost adj0 = self.adj();
        let ghost nb = links_view(contractions@);
        let ghost n = adj0.len() as int;
        let mut i: usize = 0;
        assert(nb.skip(0) =~= nb);
        while i < contractions.len()
            invariant
                nb == links_view(contractions@),
                targets_within(nb, n),
                n == self.contractions@.len(),
                self.graph == old(self).graph,
                self.order == old(self).order,
                self.all_contractions == old(self).all_contractions,
                key.0 < n,
                i <= contractions.len(),
                swept(self.adj(), key.0 as int, nb.skip(i as int)) == swept(
                    adj0,
                    key.0 as int,
                    nb,
                ),
            decreases contractions.len() - i,
        {
            let link = contractions[i];
            let ghost cur = self.adj();
            let ghost x = nb[i as int];
            assert(link@ == x);
            let v = link.enode_idx().index();
            proof {
                assert(nb.skip(i as int)[0] == x);
                assert(nb.skip(i as int).skip(1) =~= nb.skip(i + 1));
            }
            if v != key.index() {
                let ghost list = cur[v as int];
                let other_len = self.contractions[v].len();
                let mut j: usize = 0;
                while j < other_len
                    invariant
                        cur == self.adj(),
                        v < self.contractions@.len(),
                        other_len == self.contractions@[v as int]@.len(),
                        list == links_view(self.contractions@[v as int]@),
                        link@ == x,
                        j <= other_len,
                        none_before(list, j as int, key.0 as int, x.dir.flipped()),
                    ensures
                        j <= other_len,
                        none_before(list, j as int, key.0 as int, x.dir.flipped()),
                        j < other_len ==> aims(list[j as int], key.0 as int, x.dir.flipped()),
                    decreases other_len - j,
                {
                    let c = self.contractions[v][j];
                    assert(c@ == list[j as int]);
                    if c.enode_idx().0 == key.0 && c.dir() != link.dir() {
                        break ;
                    }
                    j += 1;
                }
                proof {
                    lemma_first_aim_is(list, j as int, key.0 as int, x.dir.flipped());
                }
                if j < other_len {
                    let ghost rows0 = self.contractions@;
                    self.contractions[v].remove(j);
                    proof {
                        let rows1 = self.contractions@;
                        assert(links_view(rows1[v as int]@) =~= list.remove(j as int));
                        assert(self.adj() =~= unmated(cur, key.0 as int, x)) by {
                            assert forall|u: int| 0 <= u < n && u != v implies self.adj()[u]
                                == cur[u] by {
                                assert(rows1[u] == rows0[u]);
                            }
                        }
                    }
                } else {
                    proof {
                        assert(self.adj() =~= unmated(cur, key.0 as int, x));
                    }
                }
            }
            i += 1;
        }
        proof {
            assert(nb.skip(contractions.len() as int) =~= Seq::<LinkView>::empty());
        }
    }

    /// The links of node `key` that have direction `dir`.
    pub fn nearby_nodes(&self, key: IdxNodeKey, dir: IdxLinkDir) -> (links: Vec<IdxLink>)
        requires
            key.0 < self.adj().len(),
        ensures
            links@ == only_dir(self.links_of(key), dir),
    {
        let idx = key.index();
        let raw_links = &self.contractions[idx];
        let mut links: Vec<IdxLink> = Vec::with_capacity(raw_links.len());
        let mut i: usize = 0;
        assert(raw_links@.take(0) =~= Seq::<IdxLink>::empty());
        while i < raw_links.len()
            invariant
                i <= raw_links.len(),
                links@ == only_dir(raw_links@.take(i as int), dir),
            decreases raw_links.len() - i,
        {
            let link = raw_links[i];
            proof {
                assert(raw_links@.take(i + 1) =~= raw_links@.take(i as int).push(link));
                raw_links@.take(i as int).lemma_filter_push(link, |l: IdxLink| l@.dir == dir);
            }
            if link.dir() == dir {
                links.push(link);
            }
            i += 1;
        }
        assert(raw_links@.take(raw_links.len() as int) =~= raw_links@);
        links
    }

    /// The links of node `key`.
    pub open spec fn links_of(&self, key: IdxNodeKey) -> Seq<IdxLink> {
        self.contractions@[key.0 as int]@
    }
}

} // verus!
