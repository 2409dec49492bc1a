//! The mathematical model of a forest and of its flattened form.
//!
//! A traverser walks an abstract forest of rose trees; positions inside the
//! forest are paths of sibling indices.  `flat_from` states, once and for
//! all, what the flattening engine must produce: the pre-order listing of
//! the forest, each record carrying its depth and its final connector.

use vstd::prelude::*;

use crate::tree::LevelInfo;

verus! {

/// One node of the abstract forest: a payload and the subtrees below it.
pub struct SpecTree<A> {
    pub item: A,
    pub children: Seq<SpecTree<A>>,
}

/// The number of nodes in the trees `f[k..]`, each counted with its whole
/// subtree.
pub open spec fn count_from<A>(f: Seq<SpecTree<A>>, k: int) -> nat
    decreases f, f.len() - k,
{
    if k < 0 || k >= f.len() {
        0
    } else {
        1 + count_from(f[k].children, 0) + count_from(f, k + 1)
    }
}

/// The number of nodes in the whole forest.
pub open spec fn forest_count<A>(f: Seq<SpecTree<A>>) -> nat {
    count_from(f, 0)
}

/// The number of nodes in the trees `f[..k]`: the pre-order records that
/// stand before the root of `f[k]`.
pub open spec fn count_upto<A>(f: Seq<SpecTree<A>>, k: int) -> nat
    decreases k,
{
    if k <= 0 || k > f.len() {
        0
    } else {
        count_upto(f, k - 1) + 1 + count_from(f[k - 1].children, 0)
    }
}

/// Whether `p` denotes a node of `f`: a non-empty path of sibling indices,
/// each in range at its level.
pub open spec fn valid_path<A>(f: Seq<SpecTree<A>>, p: Seq<int>) -> bool
    decreases p.len(),
{
    &&& p.len() > 0
    &&& 0 <= p[0] < f.len()
    &&& (p.len() == 1 || valid_path(f[p[0]].children, p.drop_first()))
}

/// The node that `p` denotes.
pub open spec fn node_at<A>(f: Seq<SpecTree<A>>, p: Seq<int>) -> SpecTree<A>
    recommends
        valid_path(f, p),
    decreases p.len(),
{
    if p.len() <= 1 {
        f[p[0]]
    } else {
        node_at(f[p[0]].children, p.drop_first())
    }
}

/// How many siblings the node at `p` has, itself included.
pub open spec fn sibling_count<A>(f: Seq<SpecTree<A>>, p: Seq<int>) -> int
    recommends
        valid_path(f, p),
{
    if p.len() <= 1 {
        f.len() as int
    } else {
        node_at(f, p.drop_last()).children.len() as int
    }
}

/// The path beside `p`: its last index moved one to the right.
pub open spec fn inc_last(p: Seq<int>) -> Seq<int> {
    p.update(p.len() - 1, p[p.len() - 1] + 1)
}

/// The path of `p`'s previous sibling: its last index moved one to the
/// left.
pub open spec fn dec_last(p: Seq<int>) -> Seq<int> {
    p.update(p.len() - 1, p[p.len() - 1] - 1)
}

/// The final connector of a node with sibling index `idx` among `n`
/// siblings, at the given depth.
pub open spec fn kind_of(idx: int, n: int, depth: int) -> LevelInfo {
    if idx == 0 {
        if n == 1 {
            LevelInfo::OnlyChild(depth as usize)
        } else {
            LevelInfo::FirstChild(depth as usize)
        }
    } else if idx == n - 1 {
        LevelInfo::LastChild(depth as usize)
    } else {
        LevelInfo::Sibling(depth as usize)
    }
}

/// One record of the flattened output.
pub struct FlatRecord<A> {
    pub item: A,
    pub level: LevelInfo,
}

/// The pre-order records of the trees `f[k..]`, whose roots stand at the
/// given depth: for each tree, the record of its root followed by the
/// records of its children one level deeper.
pub open spec fn flat_from<A>(f: Seq<SpecTree<A>>, k: int, depth: int) -> Seq<FlatRecord<A>>
    decreases f, f.len() - k,
{
    if k < 0 || k >= f.len() {
        Seq::empty()
    } else {
        seq![FlatRecord { item: f[k].item, level: kind_of(k, f.len() as int, depth) }]
            + flat_from(f[k].children, 0, depth + 1)
            + flat_from(f, k + 1, depth)
    }
}

/// The whole forest, flattened: what the engine must produce.
pub open spec fn flat_forest<A>(f: Seq<SpecTree<A>>, depth: int) -> Seq<FlatRecord<A>> {
    flat_from(f, 0, depth)
}

/// The pre-order position of the node at `p`: how many records stand before
/// it in `flat_forest`.
pub open spec fn rank<A>(f: Seq<SpecTree<A>>, p: Seq<int>) -> int
    recommends
        valid_path(f, p),
    decreases p.len(),
{
    count_upto(f, p[0]) + if p.len() <= 1 {
        0
    } else {
        1 + rank(f[p[0]].children, p.drop_first())
    }
}

/// Whether the ancestor `d` levels above the node at `p` has a next
/// sibling: the target of an uncle transition of ascent distance `d`.
pub open spec fn has_uncle_at<A>(f: Seq<SpecTree<A>>, p: Seq<int>, d: int) -> bool {
    &&& 1 <= d < p.len()
    &&& {
        let q = p.take(p.len() - d);
        q[q.len() - 1] + 1 < sibling_count(f, q)
    }
}

/// The smallest ascent distance `>= d` at which an uncle exists, or 0 when
/// none does.
pub open spec fn uncle_search<A>(f: Seq<SpecTree<A>>, p: Seq<int>, d: int) -> int
    decreases p.len() - d,
{
    if d < 1 || d >= p.len() {
        0
    } else if has_uncle_at(f, p, d) {
        d
    } else {
        uncle_search(f, p, d + 1)
    }
}

/// The flattened form has one record per node.
pub proof fn lemma_flat_len<A>(f: Seq<SpecTree<A>>, k: int, depth: int)
    ensures
        flat_from(f, k, depth).len() == count_from(f, k),
    decreases f, f.len() - k,
{
    if 0 <= k < f.len() {
        lemma_flat_len(f[k].children, 0, depth + 1);
        lemma_flat_len(f, k + 1, depth);
    }
}

/// The nodes of `f[j..]` are those of `f[j..k]` and those of `f[k..]`.
pub proof fn lemma_count_split<A>(f: Seq<SpecTree<A>>, j: int, k: int)
    requires
        0 <= j <= k <= f.len(),
    ensures
        count_from(f, j) == count_upto(f, k) - count_upto(f, j) + count_from(f, k),
        count_upto(f, j) <= count_upto(f, k),
    decreases k - j,
{
    if j < k {
        lemma_count_split(f, j + 1, k);
    }
}

/// A valid path's last index lies within its sibling row.
pub proof fn lemma_valid_last_in_range<A>(f: Seq<SpecTree<A>>, p: Seq<int>)
    requires
        valid_path(f, p),
    ensures
        0 <= p[p.len() - 1] < sibling_count(f, p),
    decreases p.len(),
{
    if p.len() > 1 {
        lemma_valid_last_in_range(f[p[0]].children, p.drop_first());
        lemma_sibling_count_drop(f, p);
    }
}

/// Below the first level, sibling rows are unchanged by dropping the
/// leading path index.
pub proof fn lemma_sibling_count_drop<A>(f: Seq<SpecTree<A>>, p: Seq<int>)
    requires
        p.len() >= 2,
    ensures
        sibling_count(f, p) == sibling_count(f[p[0]].children, p.drop_first()),
        p[p.len() - 1] == p.drop_first()[p.drop_first().len() - 1],
{
    let p1 = p.drop_first();
    if p.len() == 2 {
        assert(p.drop_last() =~= seq![p[0]]);
    } else {
        assert(p.drop_last()[0] == p[0]);
        assert(p.drop_last().drop_first() =~= p1.drop_last());
    }
}

/// Inside the records of `f[j..]`, the root record of `f[k]` stands at
/// offset `count_upto(f, k) - count_upto(f, j)`, followed by the records of
/// its children.
pub proof fn lemma_flat_skip<A>(f: Seq<SpecTree<A>>, depth: int, j: int, k: int)
    requires
        0 <= j <= k < f.len(),
    ensures
        flat_from(f, j, depth).len() == count_from(f, j),
        count_upto(f, j) <= count_upto(f, k),
        count_upto(f, k) - count_upto(f, j) + count_from(f, k) == count_from(f, j),
        flat_from(f, j, depth)[count_upto(f, k) - count_upto(f, j)] == (FlatRecord {
            item: f[k].item,
            level: kind_of(k, f.len() as int, depth),
        }),
        forall|i: int|
            0 <= i < count_from(f[k].children, 0) ==> flat_from(f, j, depth)[count_upto(f, k)
                - count_upto(f, j) + 1 + i] == #[trigger] flat_from(f[k].children, 0, depth + 1)[i],
    decreases k - j,
{
    lemma_flat_len(f, j, depth);
    lemma_flat_len(f[j].children, 0, depth + 1);
    lemma_flat_len(f, j + 1, depth);
    lemma_count_split(f, j, k);
    let s = flat_from(f, j, depth);
    let mid = flat_from(f[j].children, 0, depth + 1);
    let rest = flat_from(f, j + 1, depth);
    let off = count_upto(f, k) - count_upto(f, j);
    if j == k {
        assert(count_from(f, k) >= 1 + count_from(f[k].children, 0));
        assert(s[0] == (FlatRecord { item: f[k].item, level: kind_of(k, f.len() as int, depth) }));
        assert forall|i: int| 0 <= i < count_from(f[k].children, 0) implies s[1 + i]
            == #[trigger] flat_from(f[k].children, 0, depth + 1)[i] by {
            assert(s[1 + i] == mid[i]);
        }
    } else {
        lemma_flat_skip(f, depth, j + 1, k);
        lemma_count_split(f, j + 1, k);
        let off1 = count_upto(f, k) - count_upto(f, j + 1);
        assert(count_upto(f, j + 1) == count_upto(f, j) + 1 + count_from(f[j].children, 0));
        assert(off == off1 + 1 + mid.len());
        assert(s[off] == rest[off1]);
        assert forall|i: int| 0 <= i < count_from(f[k].children, 0) implies s[off + 1 + i]
            == #[trigger] flat_from(f[k].children, 0, depth + 1)[i] by {
            assert(s[off + 1 + i] == rest[off1 + 1 + i]);
        }
    }
}

/// The record of the node at `p` stands at position `rank(f, p)` in the
/// flattened forest, with its depth and its final connector.
pub proof fn lemma_flat_at_rank<A>(f: Seq<SpecTree<A>>, depth: int, p: Seq<int>)
    requires
        valid_path(f, p),
    ensures
        0 <= rank(f, p) < count_from(f, 0),
        flat_from(f, 0, depth)[rank(f, p)] == (FlatRecord {
            item: node_at(f, p).item,
            level: kind_of(p[p.len() - 1], sibling_count(f, p), depth + p.len() - 1),
        }),
    decreases p.len(),
{
    let p0 = p[0];
    lemma_flat_skip(f, depth, 0, p0);
    lemma_count_split(f, 0, p0);
    if p.len() == 1 {
        assert(rank(f, p) == count_upto(f, p0));
    } else {
        let ch = f[p0].children;
        let p1 = p.drop_first();
        lemma_flat_at_rank(ch, depth + 1, p1);
        lemma_sibling_count_drop(f, p);
        assert(flat_from(f, 0, depth)[count_upto(f, p0) + 1 + rank(ch, p1)] == flat_from(
            ch,
            0,
            depth + 1,
        )[rank(ch, p1)]);
    }
}

/// Descending to child `c` of the node at `p`: the new path is valid, and
/// its rank skips the elder children's subtrees.
pub proof fn lemma_valid_push<A>(f: Seq<SpecTree<A>>, p: Seq<int>, c: int)
    requires
        valid_path(f, p),
        0 <= c < node_at(f, p).children.len(),
    ensures
        valid_path(f, p.push(c)),
        node_at(f, p.push(c)) == node_at(f, p).children[c],
        sibling_count(f, p.push(c)) == node_at(f, p).children.len(),
        rank(f, p.push(c)) == rank(f, p) + 1 + count_upto(node_at(f, p).children, c),
    decreases p.len(),
{
    let q = p.push(c);
    assert(q.drop_last() =~= p);
    assert(q[0] == p[0]);
    if p.len() == 1 {
        let ch = f[p[0]].children;
        assert(q.drop_first() =~= seq![c]);
        assert(node_at(f, p) == f[p[0]]);
        assert(valid_path(ch, seq![c]));
        assert(valid_path(f, q));
        assert(node_at(f, q) == node_at(ch, seq![c]));
        assert(rank(f, q) == count_upto(f, p[0]) + 1 + rank(ch, seq![c]));
        assert(seq![c][0] == c);
        assert(rank(ch, seq![c]) == count_upto(ch, c));
    } else {
        let ch = f[p[0]].children;
        let p1 = p.drop_first();
        assert(q.drop_first() =~= p1.push(c));
        lemma_valid_push(ch, p1, c);
        assert(node_at(f, q) == node_at(ch, p1.push(c)));
        assert(rank(f, q) == count_upto(f, p[0]) + 1 + rank(ch, p1.push(c)));
        assert(rank(f, p) == count_upto(f, p[0]) + 1 + rank(ch, p1));
    }
}

/// Moving to the next sibling of the node at `p`: the new path is valid,
/// keeps the sibling row, and its rank skips the subtree left behind.
pub proof fn lemma_rank_inc_last<A>(f: Seq<SpecTree<A>>, p: Seq<int>)
    requires
        valid_path(f, p),
        p[p.len() - 1] + 1 < sibling_count(f, p),
    ensures
        valid_path(f, inc_last(p)),
        inc_last(p).len() == p.len(),
        sibling_count(f, inc_last(p)) == sibling_count(f, p),
        rank(f, inc_last(p)) == rank(f, p) + 1 + count_from(node_at(f, p).children, 0),
    decreases p.len(),
{
    let q = inc_last(p);
    if p.len() == 1 {
        assert(count_upto(f, p[0] + 1) == count_upto(f, p[0]) + 1 + count_from(
            f[p[0]].children,
            0,
        ));
    } else {
        let ch = f[p[0]].children;
        let p1 = p.drop_first();
        lemma_sibling_count_drop(f, p);
        lemma_rank_inc_last(ch, p1);
        assert(q.drop_first() =~= inc_last(p1));
        lemma_sibling_count_drop(f, q);
    }
}

/// Every non-empty prefix of a valid path is valid, and the next path
/// index lies within the children of the prefix's node.
pub proof fn lemma_valid_take<A>(f: Seq<SpecTree<A>>, p: Seq<int>, m: int)
    requires
        valid_path(f, p),
        1 <= m <= p.len(),
    ensures
        valid_path(f, p.take(m)),
        m < p.len() ==> 0 <= p[m] < node_at(f, p.take(m)).children.len(),
    decreases p.len(),
{
    if p.len() == 1 {
        assert(p.take(m) =~= p);
    } else {
        let ch = f[p[0]].children;
        let p1 = p.drop_first();
        if m == 1 {
            assert(p.take(1) =~= seq![p[0]]);
            assert(node_at(f, p.take(1)) == f[p[0]]);
            assert(valid_path(ch, p1));
            assert(p[1] == p1[0]);
            assert(0 <= p1[0] < ch.len());
        } else {
            lemma_valid_take(ch, p1, m - 1);
            assert(p.take(m).drop_first() =~= p1.take(m - 1));
            assert(p.take(m)[0] == p[0]);
            assert(node_at(f, p.take(m)) == node_at(ch, p1.take(m - 1)));
            if m < p.len() {
                assert(p[m] == p1[m - 1]);
            }
        }
    }
}

/// Ranks grow strictly along a path: a prefix's node stands strictly
/// before the nodes below it.
pub proof fn lemma_rank_take_mono<A>(f: Seq<SpecTree<A>>, p: Seq<int>, m1: int, m2: int)
    requires
        valid_path(f, p),
        1 <= m1 < m2 <= p.len(),
    ensures
        rank(f, p.take(m1)) < rank(f, p.take(m2)),
    decreases m2 - m1,
{
    let m = m2 - 1;
    lemma_valid_take(f, p, m);
    assert(p.take(m2) =~= p.take(m).push(p[m]));
    lemma_valid_push(f, p.take(m), p[m]);
    if m1 < m {
        lemma_rank_take_mono(f, p, m1, m);
    }
}

/// When the walk stands on a childless node that is the last sibling at
/// every level below `m`, it stands on the last record of the subtree of
/// the prefix `p.take(m)`.
pub proof fn lemma_rank_chain<A>(f: Seq<SpecTree<A>>, p: Seq<int>, m: int)
    requires
        valid_path(f, p),
        1 <= m <= p.len(),
        node_at(f, p).children.len() == 0,
        forall|j: int|
            m <= j < p.len() ==> p[j] == sibling_count(f, #[trigger] p.take(j + 1)) - 1,
    ensures
        rank(f, p) == rank(f, p.take(m)) + count_from(node_at(f, p.take(m)).children, 0),
    decreases p.len() - m,
{
    if m == p.len() {
        assert(p.take(m) =~= p);
    } else {
        lemma_rank_chain(f, p, m + 1);
        let q = p.take(m);
        let qq = p.take(m + 1);
        lemma_valid_take(f, p, m);
        assert(qq =~= q.push(p[m]));
        lemma_valid_push(f, q, p[m]);
        let ch = node_at(f, q).children;
        let n = ch.len() as int;
        assert(p[m] == n - 1);
        lemma_count_split(ch, 0, n);
        assert(count_upto(ch, n) == count_upto(ch, n - 1) + 1 + count_from(ch[n - 1].children, 0));
    }
}

/// What `uncle_search` finds: the nearest ascent distance with an uncle,
/// and none nearer.
pub proof fn lemma_uncle_search_props<A>(f: Seq<SpecTree<A>>, p: Seq<int>, d: int)
    requires
        1 <= d,
    ensures
        ({
            let u = uncle_search(f, p, d);
            if u == 0 {
                forall|j: int| d <= j < p.len() ==> !(#[trigger] has_uncle_at(f, p, j))
            } else {
                &&& d <= u < p.len()
                &&& has_uncle_at(f, p, u)
                &&& forall|j: int| d <= j < u ==> !(#[trigger] has_uncle_at(f, p, j))
            }
        }),
    decreases p.len() - d,
{
    if d >= p.len() {
    } else if has_uncle_at(f, p, d) {
    } else {
        lemma_uncle_search_props(f, p, d + 1);
    }
}

/// Law: the flattened forest holds exactly one record per node, in
/// pre-order: the record of the node at `p` stands at its pre-order
/// position `rank(f, p)` and carries that node's item.
pub proof fn lemma_flat_count_preorder<A>(f: Seq<SpecTree<A>>, p: Seq<int>)
    requires
        valid_path(f, p),
    ensures
        flat_forest(f, 0).len() == forest_count(f),
        0 <= rank(f, p) < forest_count(f),
        flat_forest(f, 0)[rank(f, p)].item == node_at(f, p).item,
{
    lemma_flat_len(f, 0, 0);
    lemma_flat_at_rank(f, 0, p);
}

/// Law: the final connector of every node classifies its position among
/// its siblings — `OnlyChild` for a node without siblings, `FirstChild`
/// and `LastChild` for the outer siblings of a row of two or more, and
/// `Sibling` for those between.
pub proof fn lemma_connectors_final<A>(f: Seq<SpecTree<A>>, p: Seq<int>)
    requires
        valid_path(f, p),
    ensures
        ({
            let idx = p[p.len() - 1];
            let n = sibling_count(f, p);
            let d = (p.len() - 1) as usize;
            let lv = flat_forest(f, 0)[rank(f, p)].level;
            &&& (idx == 0 && n == 1 ==> lv == LevelInfo::OnlyChild(d))
            &&& (idx == 0 && n > 1 ==> lv == LevelInfo::FirstChild(d))
            &&& (0 < idx && idx == n - 1 ==> lv == LevelInfo::LastChild(d))
            &&& (0 < idx < n - 1 ==> lv == LevelInfo::Sibling(d))
        }),
{
    lemma_flat_at_rank(f, 0, p);
}

/// Law: the depth recorded for a node equals the number of its strict
/// ancestors, the proper non-empty prefixes of its path.
pub proof fn lemma_depth_is_ancestor_count<A>(f: Seq<SpecTree<A>>, p: Seq<int>)
    requires
        valid_path(f, p),
        p.len() <= usize::MAX,
    ensures
        flat_forest(f, 0)[rank(f, p)].level.spec_level() == p.len() - 1,
{
    lemma_flat_at_rank(f, 0, p);
}

/// Law: an uncle transition whose ascent distance is the full depth of the
/// walk lands on a root: a path of length one, whose record has depth 0.
pub proof fn lemma_full_ascent_reaches_roots<A>(f: Seq<SpecTree<A>>, p: Seq<int>)
    requires
        valid_path(f, p),
        p.len() >= 2,
        has_uncle_at(f, p, p.len() - 1),
    ensures
        ({
            let u = inc_last(p.take(1));
            &&& valid_path(f, u)
            &&& u.len() == 1
            &&& flat_forest(f, 0)[rank(f, u)].level.spec_level() == 0
        }),
{
    lemma_valid_take(f, p, 1);
    lemma_rank_inc_last(f, p.take(1));
    lemma_flat_at_rank(f, 0, inc_last(p.take(1)));
}

} // verus!
