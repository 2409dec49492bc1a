//! A concrete data source for the traversal protocol: an owned forest of
//! scene nodes, walked through an explicit path of sibling indices.
//!
//! This is the worked adapter for one domain (a 3-D scene document's
//! scene/node graph): the document's scenes are the roots, their nodes the
//! subtrees.  The payload handed out per node is a `NodeInfo`.

use vstd::prelude::*;

use crate::spec_tree::{
    flat_forest, has_uncle_at, inc_last, lemma_rank_inc_last, lemma_valid_last_in_range,
    lemma_valid_push, lemma_valid_take, node_at, sibling_count, uncle_search, valid_path, SpecTree,
};
use crate::tree::{flatten, Flattened, TreeTraverser};

verus! {

/// What kind of row a record stands for: a scene header or a node.
#[derive(Clone, Copy, Debug, PartialEq, Eq)]
pub enum NodeKind {
    Scene { is_default: bool },
    Node,
}

/// The renderable payload of one row: an index into the document, a display
/// name if the document carries one, and the row's kind.
#[derive(Clone, Copy, Debug, PartialEq, Eq)]
pub struct NodeInfo<'a> {
    pub index: usize,
    pub name: Option<&'a str>,
    pub kind_info: NodeKind,
}

impl<'a> NodeInfo<'a> {
    /// The payload of a scene header row; `is_default` marks the document's
    /// default scene.
    pub fn from_scene(index: usize, name: Option<&'a str>, is_default: bool) -> (r: NodeInfo<'a>)
        ensures
            r == (NodeInfo { index, name, kind_info: NodeKind::Scene { is_default } }),
    {
        NodeInfo { index, name, kind_info: NodeKind::Scene { is_default } }
    }

    /// The payload of a node row.
    pub fn from_node(index: usize, name: Option<&'a str>) -> (r: NodeInfo<'a>)
        ensures
            r == (NodeInfo { index, name, kind_info: NodeKind::Node }),
    {
        NodeInfo { index, name, kind_info: NodeKind::Node }
    }
}

/// One owned node of a concrete forest: a payload and its children.
pub struct TreeNode<A> {
    pub item: A,
    pub children: Vec<TreeNode<A>>,
}

/// The abstract tree that an owned node stands for.
pub open spec fn tree_view<A>(t: TreeNode<A>) -> SpecTree<A>
    decreases t,
{
    SpecTree { item: t.item, children: forest_view(t.children@) }
}

/// The abstract forest that a row of owned nodes stands for.
pub open spec fn forest_view<A>(nodes: Seq<TreeNode<A>>) -> Seq<SpecTree<A>>
    decreases nodes,
{
    Seq::new(
        nodes.len(),
        |i: int|
            if 0 <= i < nodes.len() {
                tree_view(nodes[i])
            } else {
                arbitrary()
            },
    )
}

/// The node of the owned forest that the path prefix `path[..upto]`
/// denotes.
fn node_ref<'x, A>(roots: &'x Vec<TreeNode<A>>, path: &Vec<usize>, upto: usize) -> (r: &'x TreeNode<
    A,
>)
    requires
        1 <= upto <= path@.len(),
        valid_path(
            forest_view(roots@),
            path@.map_values(|u: usize| u as int).take(upto as int),
        ),
    ensures
        tree_view(*r) == node_at(
            forest_view(roots@),
            path@.map_values(|u: usize| u as int).take(upto as int),
        ),
{
    let ghost fv = forest_view(roots@);
    let ghost mp = path@.map_values(|u: usize| u as int);
    proof {
        lemma_valid_take(fv, mp.take(upto as int), 1);
        assert(mp.take(upto as int).take(1) =~= mp.take(1));
        assert(mp.take(1) =~= seq![mp[0]]);
        assert(node_at(fv, mp.take(1)) == fv[mp[0]]);
    }
    let mut cur: &TreeNode<A> = &roots[path[0]];
    let mut k: usize = 1;
    while k < upto
        invariant
            1 <= k <= upto <= path@.len(),
            fv == forest_view(roots@),
            mp == path@.map_values(|u: usize| u as int),
            valid_path(fv, mp.take(upto as int)),
            tree_view(*cur) == node_at(fv, mp.take(k as int)),
        decreases upto - k,
    {
        proof {
            lemma_valid_take(fv, mp.take(upto as int), k as int);
            assert(mp.take(upto as int).take(k as int) =~= mp.take(k as int));
            assert(mp.take(upto as int)[k as int] == mp[k as int]);
            assert(forest_view(cur.children@).len() == cur.children@.len());
            assert(mp.take(k as int).push(mp[k as int]) =~= mp.take(k + 1));
            lemma_valid_push(fv, mp.take(k as int), mp[k as int]);
        }
        cur = &cur.children[path[k]];
        k = k + 1;
    }
    proof {
        assert(k == upto);
    }
    cur
}

/// A traverser over an owned forest: the cursor is a path of sibling
/// indices, empty before the first step.
pub struct SceneTraverser<'t, A> {
    roots: &'t Vec<TreeNode<A>>,
    path: Vec<usize>,
}

impl<'t, A: Copy> SceneTraverser<'t, A> {
    /// A traverser standing before the first root of `roots`.
    pub fn new(roots: &'t Vec<TreeNode<A>>) -> (r: SceneTraverser<'t, A>)
        ensures
            r.wf(),
            r.forest() == forest_view(roots@),
            r.cursor() == Seq::<int>::empty(),
    {
        let r = SceneTraverser { roots, path: Vec::new() };
        proof {
            assert(r.cursor() =~= Seq::<int>::empty());
        }
        r
    }
}

impl<'t, A: Copy> TreeTraverser for SceneTraverser<'t, A> {
    type Item = A;

    closed spec fn wf(&self) -> bool {
        self.path@.len() == 0 || valid_path(self.forest(), self.cursor())
    }

    closed spec fn forest(&self) -> Seq<SpecTree<A>> {
        forest_view(self.roots@)
    }

    closed spec fn cursor(&self) -> Seq<int> {
        self.path@.map_values(|u: usize| u as int)
    }

    fn first_child(&mut self) -> (r: Option<A>) {
        let ghost fv = self.forest();
        let ghost mp = self.cursor();
        if self.path.len() == 0 {
            if self.roots.len() > 0 {
                let it = self.roots[0].item;
                self.path.push(0);
                proof {
                    assert(self.cursor() =~= seq![0int]);
                    assert(fv[0] == tree_view(self.roots@[0]));
                }
                Some(it)
            } else {
                proof {
                    assert(self.cursor() =~= mp);
                }
                None
            }
        } else {
            proof {
                assert(mp.take(mp.len() as int) =~= mp);
            }
            let node = node_ref(self.roots, &self.path, self.path.len());
            proof {
                assert(forest_view(node.children@).len() == node.children@.len());
            }
            if node.children.len() > 0 {
                let it = node.children[0].item;
                self.path.push(0);
                proof {
                    assert(self.cursor() =~= mp.push(0));
                    lemma_valid_push(fv, mp, 0);
                    assert(node_at(fv, mp).children[0] == tree_view(node.children@[0]));
                }
                Some(it)
            } else {
                proof {
                    assert(self.cursor() =~= mp);
                    assert(node_at(fv, mp).children.len() == 0);
                }
                None
            }
        }
    }

    fn next_sibling(&mut self) -> (r: Option<A>) {
        let ghost fv = self.forest();
        let ghost mp = self.cursor();
        let plen = self.path.len();
        if plen == 0 {
            return None;
        }
        proof {
            assert(mp.take(mp.len() as int) =~= mp);
            lemma_valid_last_in_range(fv, mp);
        }
        if plen == 1 {
            let last = self.path[0];
            let rl = self.roots.len();
            if last + 1 < rl {
                let it = self.roots[last + 1].item;
                self.path[0] = last + 1;
                proof {
                    assert(self.cursor() =~= inc_last(mp));
                    lemma_rank_inc_last(fv, mp);
                    assert(node_at(fv, inc_last(mp)) == fv[last + 1]);
                    assert(fv[last + 1] == tree_view(self.roots@[last as int + 1]));
                }
                Some(it)
            } else {
                proof {
                    assert(sibling_count(fv, mp) == fv.len());
                }
                None
            }
        } else {
            proof {
                lemma_valid_take(fv, mp, plen - 1);
            }
            let parent = node_ref(self.roots, &self.path, plen - 1);
            let last = self.path[plen - 1];
            let pc = parent.children.len();
            proof {
                assert(mp.drop_last() =~= mp.take(plen - 1));
                assert(sibling_count(fv, mp) == node_at(fv, mp.take(plen - 1)).children.len());
                assert(forest_view(parent.children@).len() == parent.children@.len());
            }
            if last + 1 < pc {
                let it = parent.children[last + 1].item;
                self.path[plen - 1] = last + 1;
                proof {
                    assert(self.cursor() =~= inc_last(mp));
                    lemma_rank_inc_last(fv, mp);
                    lemma_valid_take(fv, mp, plen - 1);
                    assert(inc_last(mp) =~= mp.take(plen - 1).push(last as int + 1));
                    lemma_valid_push(fv, mp.take(plen - 1), last as int + 1);
                    assert(node_at(fv, mp.take(plen - 1)).children[last as int + 1] == tree_view(
                        parent.children@[last as int + 1],
                    ));
                }
                Some(it)
            } else {
                None
            }
        }
    }

    fn next_uncle(&mut self) -> (r: Option<(A, usize)>) {
        let ghost fv = self.forest();
        let ghost mp = self.cursor();
        let plen = self.path.len();
        if plen == 0 {
            return None;
        }
        proof {
            assert(mp.take(mp.len() as int) =~= mp);
        }
        let mut dist: usize = 1;
        loop
            invariant
                1 <= dist,
                plen == self.path@.len(),
                plen >= 1,
                fv == self.forest(),
                mp == self.cursor(),
                fv == old(self).forest(),
                mp == old(self).cursor(),
                self.wf(),
                valid_path(fv, mp),
                uncle_search(fv, mp, 1) == uncle_search(fv, mp, dist as int),
            decreases plen - dist,
        {
            if dist >= plen {
                return None;
            }
            let m = plen - dist;
            let ghost q = mp.take(m as int);
            proof {
                lemma_valid_take(fv, mp, m as int);
                lemma_valid_last_in_range(fv, q);
                if m > 1 {
                    lemma_valid_take(fv, mp, m - 1);
                    assert(q.drop_last() =~= mp.take(m - 1));
                    assert(q.take(m - 1) =~= mp.take(m - 1));
                }
            }
            let sibs: usize;
            let lastidx: usize;
            if m == 1 {
                sibs = self.roots.len();
                lastidx = self.path[0];
                proof {
                    assert(sibling_count(fv, q) == fv.len());
                }
            } else {
                let parent = node_ref(self.roots, &self.path, m - 1);
                sibs = parent.children.len();
                lastidx = self.path[m - 1];
                proof {
                    assert(sibling_count(fv, q) == node_at(fv, mp.take(m - 1)).children.len());
                    assert(forest_view(parent.children@).len() == parent.children@.len());
                }
            }
            proof {
                assert(q[q.len() - 1] == lastidx as int);
                assert(sibling_count(fv, q) == sibs as int);
            }
            if lastidx + 1 < sibs {
                proof {
                    assert(has_uncle_at(fv, mp, dist as int));
                }
                self.path.truncate(m);
                self.path[m - 1] = lastidx + 1;
                proof {
                    assert(self.cursor() =~= inc_last(q));
                    lemma_rank_inc_last(fv, q);
                    assert(self.cursor().take(m as int) =~= self.cursor());
                }
                let node = node_ref(self.roots, &self.path, m);
                let it = node.item;
                return Some((it, dist));
            } else {
                proof {
                    assert(!has_uncle_at(fv, mp, dist as int));
                }
                dist = dist + 1;
            }
        }
    }
}

/// Flatten an owned forest: the records of `flat_forest` of its view.
pub fn tree<A: Copy>(roots: &Vec<TreeNode<A>>) -> (out: Flattened<A>)
    ensures
        out.wf(),
        out.records() == flat_forest(forest_view(roots@), 0),
{
    let mut t = SceneTraverser::new(roots);
    flatten(&mut t)
}

} // verus!
