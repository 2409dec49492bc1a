//! The traversal protocol and the flattening engine.
//!
//! A traverser exposes a hierarchical data source through three pull
//! operations; the engine drives them to exhaustion and produces the
//! pre-order list of records specified by `flat_forest`, correcting
//! provisional connectors in place as later siblings are discovered.

use vstd::prelude::*;

use crate::spec_tree::{
    count_from, count_upto, dec_last, flat_forest, forest_count, has_uncle_at, inc_last,
    lemma_count_split,
    lemma_flat_at_rank, lemma_flat_len, lemma_rank_chain, lemma_rank_inc_last,
    lemma_rank_take_mono, lemma_uncle_search_props, lemma_valid_last_in_range, lemma_valid_push,
    lemma_valid_take, node_at, rank, sibling_count, uncle_search, valid_path, FlatRecord, SpecTree,
};

verus! {

/// The position of a node among its siblings, together with its depth.
///
/// A node's classification is provisional while the walk that produced it is
/// still open at that depth: `OnlyChild` is promoted to `FirstChild`, and
/// `LastChild` to `Sibling`, the first time a later sibling at the same depth
/// is discovered.
#[derive(Clone, Copy, Debug, PartialEq, Eq, Structural)]
pub enum LevelInfo {
    FirstChild(usize),
    Sibling(usize),
    LastChild(usize),
    OnlyChild(usize),
}

impl LevelInfo {
    /// The depth of the row: 0 for roots, one more for each descent.
    pub fn level(self) -> (l: usize)
        ensures
            l == self.spec_level(),
    {
        match self {
            Self::FirstChild(level) => level,
            Self::Sibling(level) => level,
            Self::LastChild(level) => level,
            Self::OnlyChild(level) => level,
        }
    }

    /// The depth carried by any of the four variants.
    pub open spec fn spec_level(self) -> usize {
        match self {
            Self::FirstChild(level) => level,
            Self::Sibling(level) => level,
            Self::LastChild(level) => level,
            Self::OnlyChild(level) => level,
        }
    }
}

/// An interface for traversing trees without exposing their representation.
///
/// The abstract forest being walked is `forest()`; the walker's position is
/// `cursor()`, a path of sibling indices into that forest, empty before the
/// first step.  Each operation either advances the cursor and returns the
/// item it reached, or returns nothing and leaves the cursor where it was.
/// A traverser whose three operations all return nothing is exhausted.
pub trait TreeTraverser: Sized {
    /// The renderable payload handed out for each node reached.
    type Item;

    /// The internal invariant of the traverser.
    spec fn wf(&self) -> bool;

    /// The abstract forest this traverser walks.
    spec fn forest(&self) -> Seq<SpecTree<Self::Item>>;

    /// The current position: a path of sibling indices, empty initially.
    spec fn cursor(&self) -> Seq<int>;

    /// Move to the first child of the current node, if any, and return its
    /// item.  From the initial position, the first root counts as the first
    /// child.
    fn first_child(&mut self) -> (r: Option<Self::Item>)
        requires
            old(self).wf(),
        ensures
            final(self).wf(),
            final(self).forest() == old(self).forest(),
            ({
                let f = old(self).forest();
                let p = old(self).cursor();
                if p.len() == 0 {
                    if f.len() > 0 {
                        r == Some(f[0].item) && final(self).cursor() == seq![0int]
                    } else {
                        r is None && final(self).cursor() == p
                    }
                } else {
                    if node_at(f, p).children.len() > 0 {
                        r == Some(node_at(f, p).children[0].item) && final(self).cursor()
                            == p.push(0)
                    } else {
                        r is None && final(self).cursor() == p
                    }
                }
            }),
    ;

    /// Move to the next sibling of the current node, if any, and return its
    /// item.
    fn next_sibling(&mut self) -> (r: Option<Self::Item>)
        requires
            old(self).wf(),
        ensures
            final(self).wf(),
            final(self).forest() == old(self).forest(),
            ({
                let f = old(self).forest();
                let p = old(self).cursor();
                if p.len() > 0 && p[p.len() - 1] + 1 < sibling_count(f, p) {
                    r == Some(node_at(f, inc_last(p)).item) && final(self).cursor() == inc_last(p)
                } else {
                    r is None && final(self).cursor() == p
                }
            }),
    ;

    /// Move to the nearest uncle of the current node, if any, and return
    /// its item together with how many levels up the walk climbed (1 for
    /// the parent's sibling, 2 for the grandparent's, and so on).
    fn next_uncle(&mut self) -> (r: Option<(Self::Item, usize)>)
        requires
            old(self).wf(),
        ensures
            final(self).wf(),
            final(self).forest() == old(self).forest(),
            ({
                let f = old(self).forest();
                let p = old(self).cursor();
                let d = uncle_search(f, p, 1);
                if p.len() > 0 && d != 0 {
                    r == Some((node_at(f, inc_last(p.take(p.len() - d))).item, d as usize))
                        && final(self).cursor() == inc_last(p.take(p.len() - d))
                } else {
                    r is None && final(self).cursor() == p
                }
            }),
    ;
}

/// The flattened output: one item and one level per node, in pre-order.
///
/// The two columns are parallel: record `i` is `(items[i], levels[i])`.
pub struct Flattened<Item> {
    pub items: Vec<Item>,
    pub levels: Vec<LevelInfo>,
}

impl<Item> Flattened<Item> {
    /// The two columns have one entry per record.
    pub open spec fn wf(self) -> bool {
        self.items@.len() == self.levels@.len()
    }

    /// The records as one sequence, for contracts.
    pub open spec fn records(self) -> Seq<FlatRecord<Item>> {
        Seq::new(
            self.items@.len(),
            |i: int| FlatRecord { item: self.items@[i], level: self.levels@[i] },
        )
    }

    /// The number of records.
    pub fn len(&self) -> (n: usize)
        ensures
            n == self.records().len(),
    {
        self.items.len()
    }
}

/// The connector first given to a node discovered at sibling position
/// `idx`: `OnlyChild` for a first child, `LastChild` for a later sibling,
/// in either case corrected once a further sibling appears.
pub open spec fn provisional(idx: int, depth: int) -> LevelInfo {
    if idx == 0 {
        LevelInfo::OnlyChild(depth as usize)
    } else {
        LevelInfo::LastChild(depth as usize)
    }
}

/// Whether output position `i` is held by some frame of the frontier stack.
pub open spec fn frontier_has(stack: Seq<(usize, Option<usize>)>, i: int) -> bool {
    exists|j: int| 0 <= j < stack.len() && (#[trigger] stack[j]).0 == i
}

/// The engine's loop invariant: the emitted records are the pre-order
/// prefix up to the cursor; records no frame points at carry their final
/// connector; each frame points at the most recent record of its depth,
/// whose connector is still the provisional one, and back at that record's
/// previous sibling, when it has one.
pub open spec fn engine_inv<A>(
    f: Seq<SpecTree<A>>,
    p: Seq<int>,
    items: Seq<A>,
    levels: Seq<LevelInfo>,
    stack: Seq<(usize, Option<usize>)>,
) -> bool {
    let cur = flat_forest(f, 0);
    if p.len() == 0 {
        items.len() == 0 && levels.len() == 0 && stack.len() == 0
    } else {
        &&& valid_path(f, p)
        &&& stack.len() == p.len()
        &&& items.len() == rank(f, p) + 1
        &&& levels.len() == items.len()
        &&& items.len() <= forest_count(f)
        &&& forall|i: int| 0 <= i < items.len() ==> #[trigger] items[i] == cur[i].item
        &&& forall|i: int|
            0 <= i < levels.len() && !frontier_has(stack, i) ==> #[trigger] levels[i]
                == cur[i].level
        &&& forall|j: int|
            0 <= j < stack.len() ==> {
                &&& (#[trigger] stack[j]).0 as int == rank(f, p.take(j + 1))
                &&& levels[stack[j].0 as int] == provisional(p[j], j)
                &&& match stack[j].1 {
                    None => p[j] == 0,
                    Some(i) => p[j] > 0 && i as int == rank(f, dec_last(p.take(j + 1))),
                }
            }
    }
}

/// Law: flattening is deterministic — two flattened outputs of the same
/// immutable forest are identical record for record.
pub proof fn lemma_flatten_deterministic<A>(f: Seq<SpecTree<A>>, a: Flattened<A>, b: Flattened<A>)
    requires
        a.records() == flat_forest(f, 0),
        b.records() == flat_forest(f, 0),
    ensures
        a.records() == b.records(),
{
}

/// Drive the traverser to exhaustion and return the flattened output.
///
/// The result is exactly `flat_forest` of the traverser's forest: one
/// record per node, in pre-order, each with its depth and its final
/// connector.
#[verifier::rlimit(100)]
pub fn flatten<T: TreeTraverser>(traverser: &mut T) -> (out: Flattened<T::Item>)
    requires
        old(traverser).wf(),
        old(traverser).cursor() == Seq::<int>::empty(),
    ensures
        out.wf(),
        out.records() == flat_forest(old(traverser).forest(), 0),
{
    let ghost f = old(traverser).forest();
    let mut items: Vec<T::Item> = Vec::new();
    let mut levels: Vec<LevelInfo> = Vec::new();
    let mut stack: Vec<(usize, Option<usize>)> = Vec::new();

    loop
        invariant_except_break
            traverser.wf(),
            traverser.forest() == f,
            engine_inv(f, traverser.cursor(), items@, levels@, stack@),
        ensures
            items@.len() == levels@.len(),
            Seq::new(items@.len(), |i: int| FlatRecord { item: items@[i], level: levels@[i] })
                == flat_forest(f, 0),
        decreases forest_count(f) - items@.len(),
    {
        let ghost p = traverser.cursor();
        let ghost cur = flat_forest(f, 0);
        proof {
            lemma_flat_len(f, 0, 0);
            if p.len() > 0 {
                lemma_flat_at_rank(f, 0, p);
                assert(p.take(p.len() as int) =~= p);
            }
        }
        let sl = stack.len();
        let r1 = traverser.first_child();
        if let Some(item) = r1 {
            let ghost np = traverser.cursor();
            let ghost st0 = stack@;
            let ghost lv0 = levels@;
            let ghost n: int = items@.len() as int;
            let depth: usize = sl;
            proof {
                if p.len() == 0 {
                    assert(valid_path(f, np));
                    assert(count_upto(f, 0) == 0);
                    assert(rank(f, np) == 0);
                    lemma_flat_at_rank(f, 0, np);
                    assert(node_at(f, np) == f[0]);
                } else {
                    lemma_valid_push(f, p, 0);
                    assert(count_upto(node_at(f, p).children, 0) == 0);
                    assert(rank(f, np) == rank(f, p) + 1);
                    lemma_flat_at_rank(f, 0, np);
                }
            }
            stack.push((items.len(), None));
            items.push(item);
            levels.push(LevelInfo::OnlyChild(depth));
            proof {
                assert(items@[n] == cur[rank(f, np)].item);
                assert forall|j: int| 0 <= j < stack@.len() implies {
                    &&& (#[trigger] stack@[j]).0 as int == rank(f, np.take(j + 1))
                    &&& levels@[stack@[j].0 as int] == provisional(np[j], j)
                    &&& match stack@[j].1 {
                        None => np[j] == 0,
                        Some(i) => np[j] > 0 && i as int == rank(f, dec_last(np.take(j + 1))),
                    }
                } by {
                    if j < stack@.len() - 1 {
                        assert(stack@[j] == st0[j]);
                        assert(np.take(j + 1) =~= p.take(j + 1));
                        assert(np[j] == p[j]);
                        if j + 1 < p.len() {
                            lemma_rank_take_mono(f, p, j + 1, p.len() as int);
                        }
                        assert((st0[j].0 as int) <= n - 1);
                        assert(levels@[st0[j].0 as int] == lv0[st0[j].0 as int]);
                    } else {
                        assert(np.take(j + 1) =~= np);
                        assert(np[j] == 0);
                        assert(stack@[j].0 as int == n);
                        assert(levels@[n] == LevelInfo::OnlyChild(depth));
                    }
                }
                assert forall|i: int|
                    0 <= i < levels@.len() && !frontier_has(stack@, i)
                    implies #[trigger] levels@[i] == cur[i].level by {
                    assert(stack@[stack@.len() - 1].0 as int == n);
                    assert(i < n);
                    if frontier_has(st0, i) {
                        let j = choose|j: int|
                            0 <= j < st0.len() && (#[trigger] st0[j]).0 == i;
                        assert(stack@[j].0 == i);
                        assert(false);
                    }
                    assert(levels@[i] == lv0[i]);
                }
                assert(engine_inv(f, np, items@, levels@, stack@));
            }
        } else {
            let r2 = traverser.next_sibling();
            if let Some(item) = r2 {
                let ghost np = traverser.cursor();
                let ghost st0 = stack@;
                let ghost lv0 = levels@;
                let ghost n: int = items@.len() as int;
                proof {
                    assert(p.len() > 0);
                    lemma_valid_last_in_range(f, p);
                    lemma_rank_inc_last(f, p);
                    assert(rank(f, np) == rank(f, p) + 1);
                    lemma_flat_at_rank(f, 0, np);
                    assert(st0[p.len() - 1].0 as int == rank(f, p));
                }
                let depth: usize = sl - 1;
                let prev: usize = stack[sl - 1].0;
                proof {
                    assert(prev as int == rank(f, p));
                    assert(prev as int == n - 1);
                }
                let lv = levels[prev];
                let corrected = match lv {
                    LevelInfo::LastChild(l) => LevelInfo::Sibling(l),
                    LevelInfo::OnlyChild(l) => LevelInfo::FirstChild(l),
                    l => l,
                };
                levels[prev] = corrected;
                stack.pop();
                stack.push((items.len(), Some(prev)));
                items.push(item);
                levels.push(LevelInfo::LastChild(depth));
                proof {
                    assert(lv == provisional(p[p.len() - 1], p.len() - 1));
                    assert(corrected == cur[prev as int].level);
                    assert(items@[n] == cur[rank(f, np)].item);
                    assert forall|j: int| 0 <= j < stack@.len() implies {
                        &&& (#[trigger] stack@[j]).0 as int == rank(f, np.take(j + 1))
                        &&& levels@[stack@[j].0 as int] == provisional(np[j], j)
                        &&& match stack@[j].1 {
                            None => np[j] == 0,
                            Some(i) => np[j] > 0 && i as int == rank(
                                f,
                                dec_last(np.take(j + 1)),
                            ),
                        }
                    } by {
                        if j < stack@.len() - 1 {
                            assert(stack@[j] == st0[j]);
                            assert(np.take(j + 1) =~= p.take(j + 1));
                            assert(np[j] == p[j]);
                            lemma_rank_take_mono(f, p, j + 1, p.len() as int);
                            assert((st0[j].0 as int) < n - 1);
                            assert(levels@[st0[j].0 as int] == lv0[st0[j].0 as int]);
                        } else {
                            assert(np.take(j + 1) =~= np);
                            assert(rank(f, np) == n);
                            assert(np[j] == p[p.len() - 1] + 1);
                            assert(np[j] >= 1);
                            assert(stack@[j].0 as int == n);
                            assert(levels@[n] == LevelInfo::LastChild(depth));
                            assert(depth == j as usize);
                            assert(dec_last(np) =~= p);
                        }
                    }
                    assert forall|i: int|
                        0 <= i < levels@.len() && !frontier_has(stack@, i)
                        implies #[trigger] levels@[i] == cur[i].level by {
                        assert(stack@[stack@.len() - 1].0 as int == n);
                        assert(i < n);
                        if i != prev as int {
                            if frontier_has(st0, i) {
                                let j = choose|j: int|
                                    0 <= j < st0.len() && (#[trigger] st0[j]).0 == i;
                                assert(j < st0.len() - 1);
                                assert(stack@[j] == st0[j]);
                                assert(false);
                            }
                            assert(lv0[i] == cur[i].level);
                            assert(levels@[i] == lv0[i]);
                        }
                    }
                    assert(engine_inv(f, np, items@, levels@, stack@));
                }
            } else {
                let r3 = traverser.next_uncle();
                if let Some((item, levels_up)) = r3 {
                    let ghost d = uncle_search(f, p, 1);
                    let ghost m: int = p.len() - d;
                    let ghost q = p.take(m);
                    let ghost np = traverser.cursor();
                    let ghost st0 = stack@;
                    let ghost lv0 = levels@;
                    let ghost n: int = items@.len() as int;
                    proof {
                        assert(p.len() > 0);
                        lemma_uncle_search_props(f, p, 1);
                        assert(levels_up as int == d);
                        lemma_valid_last_in_range(f, p);
                        assert forall|j: int| m <= j < p.len() implies p[j] == sibling_count(
                            f,
                            #[trigger] p.take(j + 1),
                        ) - 1 by {
                            if j == p.len() - 1 {
                                assert(p.take(j + 1) =~= p);
                            } else {
                                let dd = p.len() - 1 - j;
                                assert(!has_uncle_at(f, p, dd));
                                lemma_valid_take(f, p, j + 1);
                                lemma_valid_last_in_range(f, p.take(j + 1));
                            }
                        }
                        lemma_rank_chain(f, p, m);
                        lemma_valid_take(f, p, m);
                        lemma_valid_last_in_range(f, q);
                        lemma_rank_inc_last(f, q);
                        assert(rank(f, np) == rank(f, p) + 1);
                        lemma_flat_at_rank(f, 0, np);
                        lemma_flat_at_rank(f, 0, q);
                        lemma_rank_take_mono(f, p, m, p.len() as int);
                        // The popped frames point at last siblings, whose
                        // provisional connectors were already final.
                        assert forall|j: int| m <= j < p.len() implies lv0[rank(
                            f,
                            #[trigger] p.take(j + 1),
                        )] == cur[rank(f, p.take(j + 1))].level by {
                            lemma_valid_take(f, p, j + 1);
                            lemma_flat_at_rank(f, 0, p.take(j + 1));
                            if j + 1 < p.len() {
                                lemma_rank_take_mono(f, p, j + 1, p.len() as int);
                            }
                            assert(st0[j].0 as int == rank(f, p.take(j + 1)));
                            assert(lv0[rank(f, p.take(j + 1))] == provisional(p[j], j));
                        }
                    }
                    let depth: usize = sl - 1 - levels_up;
                    stack.truncate(sl - levels_up);
                    let prev: usize = stack[sl - levels_up - 1].0;
                    proof {
                        assert(stack@[m - 1] == st0[m - 1]);
                        assert(prev as int == rank(f, q));
                        assert((prev as int) < n);
                    }
                    let lv = levels[prev];
                    let corrected = match lv {
                        LevelInfo::LastChild(l) => LevelInfo::Sibling(l),
                        LevelInfo::OnlyChild(l) => LevelInfo::FirstChild(l),
                        l => l,
                    };
                    levels[prev] = corrected;
                    stack.pop();
                    stack.push((items.len(), Some(prev)));
                    items.push(item);
                    levels.push(LevelInfo::LastChild(depth));
                    proof {
                        assert(lv == lv0[prev as int]);
                        assert(lv == provisional(q[m - 1], m - 1));
                        assert(q[m - 1] + 1 < sibling_count(f, q));
                        assert(corrected == cur[prev as int].level);
                        assert(items@[n] == cur[rank(f, np)].item);
                        assert forall|j: int| 0 <= j < stack@.len() implies {
                            &&& (#[trigger] stack@[j]).0 as int == rank(f, np.take(j + 1))
                            &&& levels@[stack@[j].0 as int] == provisional(np[j], j)
                            &&& match stack@[j].1 {
                                None => np[j] == 0,
                                Some(i) => np[j] > 0 && i as int == rank(
                                    f,
                                    dec_last(np.take(j + 1)),
                                ),
                            }
                        } by {
                            if j < stack@.len() - 1 {
                                assert(stack@[j] == st0[j]);
                                assert(np.take(j + 1) =~= p.take(j + 1));
                                assert(np[j] == p[j]);
                                lemma_rank_take_mono(f, p, j + 1, m);
                                assert((st0[j].0 as int) < (prev as int));
                                assert(levels@[st0[j].0 as int] == lv0[st0[j].0 as int]);
                            } else {
                                assert(np.take(j + 1) =~= np);
                                assert(rank(f, np) == n);
                                assert(np[j] == q[q.len() - 1] + 1);
                                assert(np[j] >= 1);
                                assert(stack@[j].0 as int == n);
                                assert(levels@[n] == LevelInfo::LastChild(depth));
                                assert(depth == j as usize);
                                assert(dec_last(np) =~= q);
                            }
                        }
                        assert forall|i: int|
                            0 <= i < levels@.len() && !frontier_has(stack@, i)
                            implies #[trigger] levels@[i] == cur[i].level by {
                            assert(stack@[stack@.len() - 1].0 as int == n);
                            assert(i < n);
                            if i != prev as int {
                                if frontier_has(st0, i) {
                                    let j = choose|j: int|
                                        0 <= j < st0.len() && (#[trigger] st0[j]).0 == i;
                                    if j < m - 1 {
                                        assert(stack@[j] == st0[j]);
                                        assert(false);
                                    } else if j == m - 1 {
                                        assert(i == prev as int);
                                        assert(false);
                                    } else {
                                        assert(i == rank(f, p.take(j + 1)));
                                        assert(lv0[i] == cur[i].level);
                                        lemma_rank_take_mono(f, p, m, j + 1);
                                        assert(i != prev as int);
                                        assert(levels@[i] == lv0[i]);
                                    }
                                } else {
                                    assert(lv0[i] == cur[i].level);
                                    assert(levels@[i] == lv0[i]);
                                }
                            }
                        }
                        assert(engine_inv(f, np, items@, levels@, stack@));
                    }
                } else {
                    proof {
                        if p.len() == 0 {
                            assert(f.len() == 0);
                            assert(Seq::new(
                                items@.len(),
                                |i: int| FlatRecord { item: items@[i], level: levels@[i] },
                            ) =~= flat_forest(f, 0));
                        } else {
                            lemma_uncle_search_props(f, p, 1);
                            lemma_valid_last_in_range(f, p);
                            assert forall|j: int| 0 <= j < p.len() implies p[j] == sibling_count(
                                f,
                                #[trigger] p.take(j + 1),
                            ) - 1 by {
                                if j == p.len() - 1 {
                                    assert(p.take(j + 1) =~= p);
                                } else {
                                    let dd = p.len() - 1 - j;
                                    assert(!has_uncle_at(f, p, dd));
                                    lemma_valid_take(f, p, j + 1);
                                    lemma_valid_last_in_range(f, p.take(j + 1));
                                }
                            }
                            lemma_rank_chain(f, p, 1);
                            assert(p.take(1) =~= seq![p[0]]);
                            assert(node_at(f, p.take(1)) == f[p[0]]);
                            assert(rank(f, p.take(1)) == count_upto(f, p[0]));
                            assert(p[0] == f.len() - 1);
                            lemma_count_split(f, 0, f.len() as int);
                            assert(count_upto(f, f.len() as int) == count_upto(f, f.len() - 1)
                                + 1 + count_from(f[f.len() - 1].children, 0));
                            assert(items@.len() == forest_count(f));
                            assert forall|i: int|
                                0 <= i < levels@.len() implies #[trigger] levels@[i]
                                == cur[i].level by {
                                if frontier_has(stack@, i) {
                                    let j = choose|j: int|
                                        0 <= j < stack@.len() && (#[trigger] stack@[j]).0 == i;
                                    assert(i == rank(f, p.take(j + 1)));
                                    lemma_valid_take(f, p, j + 1);
                                    lemma_flat_at_rank(f, 0, p.take(j + 1));
                                    assert(p[j] == sibling_count(f, p.take(j + 1)) - 1);
                                    assert(levels@[i] == provisional(p[j], j));
                                }
                            }
                            assert(Seq::new(
                                items@.len(),
                                |i: int| FlatRecord { item: items@[i], level: levels@[i] },
                            ) =~= flat_forest(f, 0));
                        }
                    }
                    break;
                }
            }
        }
    }
    let out = Flattened { items, levels };
    proof {
        assert(out.records() =~= flat_forest(f, 0));
    }
    out
}

} // verus!
