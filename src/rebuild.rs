use vstd::prelude::*;
use crate::codec::{is_ancestor, is_direct_parent, segments};
use crate::graph::{
    NodeView, with_children, attach_spec, first_ancestor, lemma_first_ancestor, fold_tree, build_tree,
    node_wire, children_wire, fragment_nodes, members_nodes, array_nodes, graph_part,
    graph_fragments, at_path, single_path, keyed_nodes, graph_wire, post_from_wire,
    lemma_post_round_trip,
};
use crate::json::{JsonModel, member_pos};

verus! {

/// A node without its children.
pub open spec fn childless(v: NodeView) -> NodeView {
    with_children(v, Seq::empty())
}

/// The nodes of a tree in document order (pre-order), each without children.
pub open spec fn flat(v: NodeView) -> Seq<NodeView>
    decreases v, 1int,
{
    seq![childless(v)] + flat_seq(v.children)
}

/// The nodes of a forest in document order, each without children.
pub open spec fn flat_seq(cs: Seq<NodeView>) -> Seq<NodeView>
    decreases cs, 0int,
{
    if cs.len() == 0 {
        Seq::empty()
    } else {
        flat_seq(cs.subrange(0, cs.len() - 1)) + flat(cs[cs.len() - 1])
    }
}

/// The tree made of the first `k` nodes of `v` in document order.
pub open spec fn partial(v: NodeView, k: int) -> NodeView
    decreases v, 1int,
{
    with_children(v, partial_seq(v.children, k - 1))
}

/// The forest made of the first `m` nodes of `cs` in document order.
pub open spec fn partial_seq(cs: Seq<NodeView>, m: int) -> Seq<NodeView>
    decreases cs, 0int,
{
    if cs.len() == 0 || m <= 0 {
        Seq::empty()
    } else if m <= flat(cs[0]).len() {
        seq![partial(cs[0], m)]
    } else {
        seq![cs[0]] + partial_seq(cs.subrange(1, cs.len() as int), m - flat(cs[0]).len())
    }
}

proof fn lemma_flat_seq_cons(c: NodeView, rest: Seq<NodeView>)
    ensures
        flat_seq(seq![c] + rest) == flat(c) + flat_seq(rest),
    decreases rest.len(),
{
    let s = seq![c] + rest;
    if rest.len() == 0 {
        assert(s.subrange(0, s.len() - 1) =~= Seq::<NodeView>::empty());
        assert(flat_seq(Seq::<NodeView>::empty()) == Seq::<NodeView>::empty());
        assert(flat(c) + Seq::<NodeView>::empty() =~= flat(c));
        assert(s =~= seq![c]);
    } else {
        let rl = rest.subrange(0, rest.len() - 1);
        lemma_flat_seq_cons(c, rl);
        assert(s.subrange(0, s.len() - 1) =~= seq![c] + rl);
        assert(s[s.len() - 1] == rest[rest.len() - 1]);
        assert(flat(c) + flat_seq(rl) + flat(rest[rest.len() - 1]) =~= flat(c) + (flat_seq(rl)
            + flat(rest[rest.len() - 1])));
    }
}

proof fn lemma_flat_len(v: NodeView)
    ensures
        flat(v).len() >= 1,
        flat(v)[0] == childless(v),
{
    assert(flat(v)[0] == childless(v));
}

/// All of a tree's nodes make the tree.
pub proof fn lemma_partial_full(v: NodeView)
    ensures
        partial(v, flat(v).len() as int) == v,
    decreases v, 1int,
{
    lemma_partial_seq_full(v.children);
    assert(flat(v).len() - 1 == flat_seq(v.children).len());
}

pub proof fn lemma_partial_seq_full(cs: Seq<NodeView>)
    ensures
        partial_seq(cs, flat_seq(cs).len() as int) == cs,
    decreases cs, 0int,
{
    if cs.len() > 0 {
        let c = cs[0];
        let rest = cs.subrange(1, cs.len() as int);
        assert(cs =~= seq![c] + rest);
        lemma_flat_seq_cons(c, rest);
        lemma_flat_len(c);
        lemma_partial_full(c);
        if rest.len() == 0 {
            assert(flat_seq(rest) == Seq::<NodeView>::empty());
            assert(cs =~= seq![c]);
        } else {
            assert(decreases_to!(cs => rest));
            lemma_partial_seq_full(rest);
            lemma_flat_seq_nonempty(rest);
        }
    }
}

proof fn lemma_flat_seq_nonempty(cs: Seq<NodeView>)
    requires
        cs.len() > 0,
    ensures
        flat_seq(cs).len() > 0,
{
    lemma_flat_len(cs[cs.len() - 1]);
}

/// Where position `m` of a forest's document order falls: in child `i`, at
/// position `j` of that child's own order.
pub proof fn lemma_flat_seq_locate(cs: Seq<NodeView>, m: int) -> (ij: (int, int))
    requires
        0 <= m < flat_seq(cs).len(),
    ensures
        0 <= ij.0 < cs.len(),
        0 <= ij.1 < flat(cs[ij.0]).len(),
        flat_seq(cs)[m] == flat(cs[ij.0])[ij.1],
        partial_seq(cs, m) == cs.subrange(0, ij.0) + (if ij.1 == 0 {
            Seq::<NodeView>::empty()
        } else {
            seq![partial(cs[ij.0], ij.1)]
        }),
        partial_seq(cs, m + 1) == cs.subrange(0, ij.0) + seq![partial(cs[ij.0], ij.1 + 1)],
    decreases cs.len(),
{
    let c = cs[0];
    let rest = cs.subrange(1, cs.len() as int);
    assert(cs =~= seq![c] + rest);
    lemma_flat_seq_cons(c, rest);
    lemma_flat_len(c);
    if m < flat(c).len() {
        assert(cs.subrange(0, 0) =~= Seq::<NodeView>::empty());
        assert(flat_seq(cs)[m] == flat(c)[m]);
        if m == 0 {
            assert(partial_seq(cs, m) =~= cs.subrange(0, 0) + Seq::<NodeView>::empty());
        } else {
            assert(partial_seq(cs, m) =~= cs.subrange(0, 0) + seq![partial(c, m)]);
        }
        assert(partial_seq(cs, m + 1) =~= cs.subrange(0, 0) + seq![partial(c, m + 1)]);
        (0, m)
    } else {
        let m2 = m - flat(c).len();
        assert(flat_seq(cs)[m] == flat_seq(rest)[m2]);
        let (i2, j2) = lemma_flat_seq_locate(rest, m2);
        assert(rest[i2] == cs[i2 + 1]);
        assert(cs.subrange(0, i2 + 1) =~= seq![c] + rest.subrange(0, i2));
        if m2 == 0 {
            lemma_partial_full(c);
            assert(partial_seq(cs, m) =~= seq![c] + partial_seq(rest, m2));
        } else {
            assert(partial_seq(cs, m) == seq![c] + partial_seq(rest, m2));
        }
        assert(partial_seq(cs, m) =~= cs.subrange(0, i2 + 1) + (if j2 == 0 {
            Seq::<NodeView>::empty()
        } else {
            seq![partial(cs[i2 + 1], j2)]
        }));
        assert(partial_seq(cs, m + 1) =~= cs.subrange(0, i2 + 1) + seq![partial(cs[i2 + 1], j2 + 1)]);
        (i2 + 1, j2)
    }
}

/// The shape that the builder gives a tree: each child is a direct child of
/// its parent, and a child whose index repeats an earlier sibling's has no
/// children of its own.
pub open spec fn canonical(v: NodeView) -> bool
    decreases v, 1int,
{
    &&& forall|i: int|
        0 <= i < v.children.len() ==> is_direct_parent(v.index, #[trigger] v.children[i].index)
    &&& forall|l: int, i: int|
        0 <= l < i < v.children.len() && segments(#[trigger] v.children[l].index) == segments(
            #[trigger] v.children[i].index,
        ) ==> v.children[i].children.len() == 0
    &&& canonical_seq(v.children)
}

/// Every tree of the forest is canonical.
pub open spec fn canonical_seq(cs: Seq<NodeView>) -> bool
    decreases cs, 0int,
{
    cs.len() == 0 || (canonical_seq(cs.subrange(0, cs.len() - 1)) && canonical(cs[cs.len() - 1]))
}

proof fn lemma_canonical_seq(cs: Seq<NodeView>, i: int)
    requires
        canonical_seq(cs),
        0 <= i < cs.len(),
    ensures
        canonical(cs[i]),
    decreases cs.len(),
{
    if i < cs.len() - 1 {
        let p = cs.subrange(0, cs.len() - 1);
        assert(p[i] == cs[i]);
        lemma_canonical_seq(p, i);
    }
}

proof fn lemma_canonical_seq_intro(cs: Seq<NodeView>)
    requires
        forall|i: int| 0 <= i < cs.len() ==> canonical(#[trigger] cs[i]),
    ensures
        canonical_seq(cs),
    decreases cs.len(),
{
    if cs.len() > 0 {
        let p = cs.subrange(0, cs.len() - 1);
        assert forall|i: int| 0 <= i < p.len() implies canonical(#[trigger] p[i]) by {
            assert(p[i] == cs[i]);
        }
        lemma_canonical_seq_intro(p);
    }
}

/// Segment prefixes compose.
proof fn lemma_ancestor_trans(a: Seq<char>, b: Seq<char>, c: Seq<char>)
    requires
        is_ancestor(a, b),
        is_ancestor(b, c),
    ensures
        is_ancestor(a, c),
{
    let sa = segments(a);
    let sb = segments(b);
    let sc = segments(c);
    assert(sc.subrange(0, sa.len() as int) =~= sc.subrange(0, sb.len() as int).subrange(
        0,
        sa.len() as int,
    ));
}

/// The nodes after the first in a canonical tree's document order are its
/// descendants.
proof fn lemma_flat_desc(v: NodeView, k: int)
    requires
        canonical(v),
        1 <= k < flat(v).len(),
    ensures
        is_ancestor(v.index, flat(v)[k].index),
    decreases v,
{
    let cs = v.children;
    assert(flat(v)[k] == flat_seq(cs)[k - 1]);
    let (i, j) = lemma_flat_seq_locate(cs, k - 1);
    let c = cs[i];
    assert(is_direct_parent(v.index, c.index));
    if j == 0 {
        lemma_flat_len(c);
    } else {
        lemma_canonical_seq(cs, i);
        lemma_flat_desc(c, j);
        lemma_ancestor_trans(v.index, c.index, flat(c)[j].index);
    }
}

/// The trees of a partial forest keep the indices of the forest's trees.
proof fn lemma_partial_seq_indices(cs: Seq<NodeView>, m: int)
    ensures
        partial_seq(cs, m).len() <= cs.len(),
        forall|t: int| 0 <= t < partial_seq(cs, m).len() ==> (#[trigger] partial_seq(cs, m)[t]).index
            == cs[t].index,
    decreases cs.len(),
{
    if cs.len() > 0 && m > flat(cs[0]).len() {
        let rest = cs.subrange(1, cs.len() as int);
        lemma_partial_seq_indices(rest, m - flat(cs[0]).len());
        assert forall|t: int| 0 <= t < partial_seq(cs, m).len() implies (#[trigger] partial_seq(
            cs,
            m,
        )[t]).index == cs[t].index by {
            if t > 0 {
                assert(partial_seq(cs, m)[t] == partial_seq(rest, m - flat(cs[0]).len())[t - 1]);
            }
        }
    } else if cs.len() > 0 && m > 0 {
        assert(partial_seq(cs, m) == seq![partial(cs[0], m)]);
        assert(partial(cs[0], m).index == cs[0].index);
    }
}

/// In a canonical tree, `attach` puts the next node of the document order
/// exactly where it stands in the tree.
pub proof fn lemma_attach_next(v: NodeView, k: int)
    requires
        canonical(v),
        1 <= k < flat(v).len(),
    ensures
        attach_spec(partial(v, k), flat(v)[k]) == Some(partial(v, k + 1)),
    decreases v,
{
    let cs = v.children;
    let x = flat(v)[k];
    assert(x == flat_seq(cs)[k - 1]);
    let (i, j) = lemma_flat_seq_locate(cs, k - 1);
    let c = cs[i];
    let pv = partial(v, k);
    let p = partial_seq(cs, k - 1);
    assert(pv.children == p);
    assert(pv.index == v.index);
    lemma_canonical_seq(cs, i);
    lemma_first_ancestor(p, x.index);
    assert(is_direct_parent(v.index, c.index));
    if j == 0 {
        lemma_flat_len(c);
        assert(x.index == c.index);
        assert forall|l: int| 0 <= l < p.len() implies !is_ancestor(#[trigger] p[l].index, x.index) by {
            assert(p[l] == cs[l]);
            assert(is_direct_parent(v.index, cs[l].index));
        }
        assert(first_ancestor(p, x.index) == -1);
        assert(partial(c, 1) == childless(c));
        assert(p.push(x) =~= cs.subrange(0, i) + seq![partial(c, 1)]);
    } else {
        lemma_flat_desc(c, j);
        let lc = segments(c.index).len();
        assert forall|l: int| 0 <= l < i implies !is_ancestor(#[trigger] p[l].index, x.index) by {
            assert(p[l] == cs[l]);
            assert(is_direct_parent(v.index, cs[l].index));
            if is_ancestor(cs[l].index, x.index) {
                assert(segments(cs[l].index) =~= segments(c.index));
                assert(c.children.len() == 0);
                assert(flat_seq(c.children) =~= Seq::<NodeView>::empty());
            }
        }
        let cc = partial(c, j);
        assert(p[i] == cc);
        assert(cc.index == c.index);
        assert(first_ancestor(p, x.index) == i);
        lemma_attach_next(c, j);
        if is_direct_parent(c.index, x.index) {
            let ccs = cc.children;
            lemma_partial_seq_indices(c.children, j - 1);
            lemma_first_ancestor(ccs, x.index);
            assert forall|t: int| 0 <= t < ccs.len() implies !is_ancestor(#[trigger] ccs[t].index, x.index) by {
                assert(ccs[t].index == c.children[t].index);
                assert(is_direct_parent(c.index, c.children[t].index));
            }
            assert(first_ancestor(ccs, x.index) == -1);
        }
        assert(p.update(i, partial(c, j + 1)) =~= cs.subrange(0, i) + seq![partial(c, j + 1)]);
    }
}

/// One step of the builder's fold.
pub open spec fn fold_step(st: (Seq<NodeView>, NodeView), f: NodeView) -> (Seq<NodeView>, NodeView) {
    if is_ancestor(st.1.index, f.index) && attach_spec(st.1, f) is Some {
        (st.0, attach_spec(st.1, f)->0)
    } else {
        (st.0.push(st.1), f)
    }
}

/// The builder's fold continued from state `st` over `fs`.
pub open spec fn fold_from(st: (Seq<NodeView>, NodeView), fs: Seq<NodeView>) -> (Seq<NodeView>, NodeView)
    decreases fs.len(),
{
    if fs.len() == 0 {
        st
    } else {
        fold_step(fold_from(st, fs.drop_last()), fs.last())
    }
}

proof fn lemma_fold_from_append(st: (Seq<NodeView>, NodeView), a: Seq<NodeView>, b: Seq<NodeView>)
    ensures
        fold_from(st, a + b) == fold_from(fold_from(st, a), b),
    decreases b.len(),
{
    if b.len() == 0 {
        assert(a + b =~= a);
    } else {
        lemma_fold_from_append(st, a, b.drop_last());
        assert((a + b).drop_last() =~= a + b.drop_last());
        assert((a + b).last() == b.last());
    }
}

proof fn lemma_fold_tree_split(a: Seq<NodeView>, b: Seq<NodeView>)
    requires
        a.len() >= 1,
    ensures
        fold_tree(a + b) == fold_from(fold_tree(a), b),
    decreases b.len(),
{
    if b.len() == 0 {
        assert(a + b =~= a);
    } else {
        lemma_fold_tree_split(a, b.drop_last());
        assert((a + b).drop_last() =~= a + b.drop_last());
        assert((a + b).last() == b.last());
    }
}

/// Folding the nodes after the first of a canonical tree, from the tree's
/// root, rebuilds the first `k` nodes of the tree.
proof fn lemma_fold_partial(d: Seq<NodeView>, v: NodeView, k: int)
    requires
        canonical(v),
        1 <= k <= flat(v).len(),
    ensures
        fold_from((d, childless(v)), flat(v).subrange(1, k)) == (d, partial(v, k)),
    decreases k,
{
    if k == 1 {
        assert(flat(v).subrange(1, 1) =~= Seq::<NodeView>::empty());
        assert(partial_seq(v.children, 0) == Seq::<NodeView>::empty());
    } else {
        lemma_fold_partial(d, v, k - 1);
        let fs = flat(v).subrange(1, k);
        assert(fs.drop_last() =~= flat(v).subrange(1, k - 1));
        assert(fs.last() == flat(v)[k - 1]);
        lemma_flat_desc(v, k - 1);
        lemma_attach_next(v, k - 1);
        assert(partial(v, k - 1).index == v.index);
    }
}

/// Consecutive trees of a built forest: the fold did not place the second
/// below the first.
pub open spec fn separated(a: NodeView, t: NodeView) -> bool {
    !(is_ancestor(a.index, t.index) && attach_spec(a, childless(t)) is Some)
}

/// The shape of the forests that the builder makes.
pub open spec fn well_built(ts: Seq<NodeView>) -> bool {
    &&& canonical_seq(ts)
    &&& forall|i: int| 1 <= i < ts.len() ==> separated(ts[i - 1], #[trigger] ts[i])
}

/// Folding the document order of a built forest gives the forest back.
proof fn lemma_fold_forest(ts: Seq<NodeView>)
    requires
        ts.len() >= 1,
        well_built(ts),
    ensures
        fold_tree(flat_seq(ts)) == (ts.drop_last(), ts.last()),
    decreases ts.len(),
{
    let t = ts.last();
    let pre = ts.drop_last();
    lemma_canonical_seq(ts, ts.len() - 1);
    let ft = flat(t);
    lemma_flat_len(t);
    assert(ft =~= seq![childless(t)] + ft.subrange(1, ft.len() as int));
    lemma_fold_partial(pre, t, ft.len() as int);
    lemma_partial_full(t);
    assert(ts.subrange(0, ts.len() - 1) == pre);
    assert(flat_seq(ts) == flat_seq(pre) + ft);
    if pre.len() == 0 {
        assert(flat_seq(pre) =~= Seq::<NodeView>::empty());
        assert(flat_seq(ts) =~= seq![childless(t)] + ft.subrange(1, ft.len() as int));
        lemma_fold_tree_split(seq![childless(t)], ft.subrange(1, ft.len() as int));
        assert(fold_tree(seq![childless(t)]) == (Seq::<NodeView>::empty(), childless(t)));
        assert(pre =~= Seq::<NodeView>::empty());
        assert(fold_tree(flat_seq(ts)) == fold_from(
            (Seq::<NodeView>::empty(), childless(t)),
            ft.subrange(1, ft.len() as int),
        ));
        assert(ts.drop_last() == pre);
    } else {
        assert forall|i: int| 0 <= i < pre.len() implies canonical(#[trigger] pre[i]) by {
            lemma_canonical_seq(ts, i);
        }
        lemma_canonical_seq_intro(pre);
        assert forall|i: int| 1 <= i < pre.len() implies separated(pre[i - 1], #[trigger] pre[i]) by {
            assert(separated(ts[i - 1], ts[i]));
        }
        lemma_fold_forest(pre);
        lemma_flat_seq_nonempty(pre);
        let rest = ft.subrange(1, ft.len() as int);
        assert(flat_seq(ts) =~= flat_seq(pre) + (seq![childless(t)] + rest));
        lemma_fold_tree_split(flat_seq(pre), seq![childless(t)] + rest);
        lemma_fold_from_append(fold_tree(flat_seq(pre)), seq![childless(t)], rest);
        assert(seq![childless(t)].drop_last() =~= Seq::<NodeView>::empty());
        assert(separated(ts[ts.len() - 2], ts[ts.len() - 1]));
        assert(pre.last() == ts[ts.len() - 2]);
        assert(childless(t).index == t.index);
        assert(childless(childless(t)) == childless(t));
        assert(pre.drop_last().push(pre.last()) =~= pre);
        let st = fold_tree(flat_seq(pre));
        assert(st == (pre.drop_last(), pre.last()));
        assert(fold_from(st, seq![childless(t)]) == fold_step(fold_from(st, Seq::<NodeView>::empty()), childless(t)));
        assert(fold_from(st, Seq::<NodeView>::empty()) == st);
        assert(fold_step(st, childless(t)) == (pre, childless(t)));
        assert(fold_tree(flat_seq(ts)) == fold_from((pre, childless(t)), rest));
        assert(ts.drop_last() == pre);
    }
}

/// Attaching a childless node keeps a tree canonical and its root as it was.
pub proof fn lemma_attach_canonical(n: NodeView, new: NodeView)
    requires
        canonical(n),
        new.children.len() == 0,
        attach_spec(n, new) is Some,
    ensures
        canonical(attach_spec(n, new)->0),
        childless(attach_spec(n, new)->0) == childless(n),
        attach_spec(n, new)->0.index == n.index,
    decreases n,
{
    let cs = n.children;
    let r = attach_spec(n, new)->0;
    lemma_first_ancestor(cs, new.index);
    let k = first_ancestor(cs, new.index);
    assert(canonical(new)) by {
        assert(canonical_seq(new.children));
    }
    assert forall|i: int| 0 <= i < cs.len() implies canonical(#[trigger] cs[i]) by {
        lemma_canonical_seq(cs, i);
    }
    if 0 <= k < cs.len() {
        let c = cs[k];
        // no earlier sibling repeats the index of the child that grows
        assert forall|l: int| 0 <= l < k implies segments(#[trigger] cs[l].index) != segments(c.index) by {
            if segments(cs[l].index) == segments(c.index) {
                assert(is_ancestor(cs[l].index, new.index));
            }
        }
        let c2 = if is_direct_parent(c.index, new.index) {
            let c2 = with_children(c, c.children.push(new));
            let ccs = c.children.push(new);
            assert forall|i: int| 0 <= i < ccs.len() implies canonical(#[trigger] ccs[i]) by {
                if i < c.children.len() {
                    lemma_canonical_seq(c.children, i);
                }
            }
            lemma_canonical_seq_intro(ccs);
            assert forall|i: int| 0 <= i < ccs.len() implies is_direct_parent(c.index, #[trigger] ccs[i].index) by {
                if i < c.children.len() {
                    assert(ccs[i] == c.children[i]);
                }
            }
            assert forall|l: int, i: int|
                0 <= l < i < ccs.len() && segments(#[trigger] ccs[l].index) == segments(
                    #[trigger] ccs[i].index,
                ) implies ccs[i].children.len() == 0 by {
                if i < c.children.len() {
                    assert(ccs[l] == c.children[l]);
                    assert(ccs[i] == c.children[i]);
                }
            }
            assert(canonical(c2));
            c2
        } else {
            lemma_attach_canonical(c, new);
            attach_spec(c, new)->0
        };
        assert(r == with_children(n, cs.update(k, c2)));
        let rcs = cs.update(k, c2);
        assert(c2.index == c.index);
        assert forall|i: int| 0 <= i < rcs.len() implies canonical(#[trigger] rcs[i]) by {}
        lemma_canonical_seq_intro(rcs);
        assert forall|i: int| 0 <= i < rcs.len() implies is_direct_parent(n.index, #[trigger] rcs[i].index) by {
            assert(rcs[i].index == cs[i].index);
        }
        assert forall|l: int, i: int|
            0 <= l < i < rcs.len() && segments(#[trigger] rcs[l].index) == segments(
                #[trigger] rcs[i].index,
            ) implies rcs[i].children.len() == 0 by {
            assert(rcs[l].index == cs[l].index);
            assert(rcs[i].index == cs[i].index);
            if i != k {
                assert(rcs[i] == cs[i]);
            }
        }
    } else {
        let rcs = cs.push(new);
        assert(r == with_children(n, rcs));
        assert forall|i: int| 0 <= i < rcs.len() implies canonical(#[trigger] rcs[i]) by {}
        lemma_canonical_seq_intro(rcs);
        assert forall|i: int| 0 <= i < rcs.len() implies is_direct_parent(n.index, #[trigger] rcs[i].index) by {
            if i < cs.len() {
                assert(rcs[i] == cs[i]);
            }
        }
        assert forall|l: int, i: int|
            0 <= l < i < rcs.len() && segments(#[trigger] rcs[l].index) == segments(
                #[trigger] rcs[i].index,
            ) implies rcs[i].children.len() == 0 by {
            assert(rcs[l] == cs[l]);
            if i < cs.len() {
                assert(rcs[i] == cs[i]);
            }
        }
    }
}

/// The state of the fold is the shape of a built forest, and its finished
/// part is separated from the tree being built.
proof fn lemma_fold_well_built(frags: Seq<NodeView>)
    requires
        frags.len() >= 1,
        forall|i: int| 0 <= i < frags.len() ==> (#[trigger] frags[i]).children.len() == 0,
    ensures
        well_built(fold_tree(frags).0.push(fold_tree(frags).1)),
    decreases frags.len(),
{
    let st = fold_tree(frags);
    if frags.len() == 1 {
        assert(canonical_seq(frags[0].children));
        assert(canonical(frags[0]));
        let ts = st.0.push(st.1);
        assert(ts =~= seq![frags[0]]);
        assert forall|i: int| 0 <= i < ts.len() implies canonical(#[trigger] ts[i]) by {}
        lemma_canonical_seq_intro(ts);
    } else {
        let pf = frags.drop_last();
        assert forall|i: int| 0 <= i < pf.len() implies (#[trigger] pf[i]).children.len() == 0 by {
            assert(pf[i] == frags[i]);
        }
        lemma_fold_well_built(pf);
        let prev = fold_tree(pf);
        let pts = prev.0.push(prev.1);
        let f = frags.last();
        assert(f.children.len() == 0);
        assert(f.children =~= Seq::<NodeView>::empty());
        assert(f == childless(f));
        assert(st == fold_step(prev, f));
        assert forall|i: int| 0 <= i < pts.len() implies canonical(#[trigger] pts[i]) by {
            lemma_canonical_seq(pts, i);
        }
        assert(canonical(f)) by {
            assert(canonical_seq(f.children));
        }
        let ts = st.0.push(st.1);
        if is_ancestor(prev.1.index, f.index) && attach_spec(prev.1, f) is Some {
            lemma_attach_canonical(prev.1, f);
            assert(ts == pts.update(pts.len() - 1, st.1));
            assert forall|i: int| 0 <= i < ts.len() implies canonical(#[trigger] ts[i]) by {}
            lemma_canonical_seq_intro(ts);
            assert forall|i: int| 1 <= i < ts.len() implies separated(ts[i - 1], #[trigger] ts[i]) by {
                assert(separated(pts[i - 1], pts[i]));
                if i == ts.len() - 1 {
                    assert(childless(ts[i]) == childless(pts[i]));
                }
            }
        } else {
            assert(ts == pts.push(f));
            assert forall|i: int| 0 <= i < ts.len() implies canonical(#[trigger] ts[i]) by {}
            lemma_canonical_seq_intro(ts);
            assert forall|i: int| 1 <= i < ts.len() implies separated(ts[i - 1], #[trigger] ts[i]) by {
                if i < pts.len() {
                    assert(separated(pts[i - 1], pts[i]));
                }
            }
        }
    }
}

/// The builder is idempotent: folding the document order of the forest that
/// it built from childless fragments gives that forest again.
pub proof fn lemma_build_idempotent(frags: Seq<NodeView>)
    requires
        frags.len() >= 1,
        forall|i: int| 0 <= i < frags.len() ==> (#[trigger] frags[i]).children.len() == 0,
    ensures
        build_tree(flat_seq(build_tree(frags))) == build_tree(frags),
{
    lemma_fold_well_built(frags);
    let ts = build_tree(frags);
    assert(ts.drop_last() == fold_tree(frags).0);
    lemma_fold_forest(ts);
    lemma_flat_seq_nonempty(ts);
    assert(ts.drop_last().push(ts.last()) =~= ts);
}

/// The fragments that a node's wire form holds are its document order.
proof fn lemma_fragment_nodes_wire(v: NodeView)
    ensures
        fragment_nodes(node_wire(v)) == Some(flat(v)),
    decreases v, 1int,
{
    reveal_strlit("post");
    reveal_strlit("children");
    reveal_with_fuel(member_pos, 3);
    assert("post"@[0] == 'p' && "children"@[0] == 'c');
    let m = node_wire(v)->Object_0;
    assert(m.drop_last().drop_last() =~= Seq::<(Seq<char>, JsonModel)>::empty());
    lemma_post_round_trip(v);
    lemma_members_nodes_wire(v.children);
}

proof fn lemma_members_nodes_wire(cs: Seq<NodeView>)
    ensures
        members_nodes(children_wire(cs)) == Some(flat_seq(cs)),
    decreases cs, 0int,
{
    let m = children_wire(cs);
    if cs.len() > 0 {
        let p = cs.subrange(0, cs.len() - 1);
        assert(m.subrange(0, m.len() - 1) =~= children_wire(p));
        lemma_members_nodes_wire(p);
        lemma_fragment_nodes_wire(cs[cs.len() - 1]);
        assert(m[m.len() - 1].1 == node_wire(cs[cs.len() - 1]));
    } else {
        assert(m =~= Seq::<(Seq<char>, JsonModel)>::empty());
    }
}

proof fn lemma_array_nodes_wire(g: Seq<NodeView>)
    ensures
        array_nodes(keyed_nodes(g)) == Some(flat_seq(g)),
    decreases g.len(),
{
    let a = keyed_nodes(g);
    if g.len() > 0 {
        let p = g.subrange(0, g.len() - 1);
        assert(a.drop_last() =~= keyed_nodes(p));
        lemma_array_nodes_wire(p);
        let n = g[g.len() - 1];
        let one = seq![(n.index, node_wire(n))];
        assert(a.last() == JsonModel::Object(one));
        assert(one.subrange(0, 0) =~= Seq::<(Seq<char>, JsonModel)>::empty());
        lemma_fragment_nodes_wire(n);
        assert(members_nodes(one) == Some(flat(n))) by {
            assert(members_nodes(one.subrange(0, 0)) == Some(Seq::<NodeView>::empty()));
            assert(Seq::<NodeView>::empty() + flat(n) =~= flat(n));
        }
    } else {
        assert(a =~= Seq::<JsonModel>::empty());
    }
}

/// The fragments of the payload that `Graph::to_json` writes are the
/// document order of the graph.
proof fn lemma_graph_fragments_wire(g: Seq<NodeView>)
    ensures
        graph_fragments(graph_wire(g)) == Some(flat_seq(g)),
{
    let keys = seq!["graph-update"@, "add-graph"@, "graph"@];
    let arr = JsonModel::Array(keyed_nodes(g));
    reveal_with_fuel(at_path, 4);
    reveal_with_fuel(single_path, 4);
    reveal_with_fuel(member_pos, 2);
    assert(keys.drop_first() =~= seq!["add-graph"@, "graph"@]);
    assert(keys.drop_first().drop_first() =~= seq!["graph"@]);
    assert(keys.drop_first().drop_first().drop_first() =~= Seq::<Seq<char>>::empty());
    assert(keys.drop_last() =~= seq!["graph-update"@, "add-graph"@]);
    assert(keys.drop_last().drop_last() =~= seq!["graph-update"@]);
    assert(keys.drop_last().drop_last().drop_last() =~= Seq::<Seq<char>>::empty());
    let inner = JsonModel::Object(seq![("graph"@, arr)]);
    let mid = JsonModel::Object(seq![("add-graph"@, inner)]);
    let top = JsonModel::Object(seq![("graph-update"@, mid)]);
    assert(graph_wire(g) == top);
    assert(seq![("graph"@, arr)].drop_last() =~= Seq::<(Seq<char>, JsonModel)>::empty());
    assert(seq![("add-graph"@, inner)].drop_last() =~= Seq::<(Seq<char>, JsonModel)>::empty());
    assert(seq![("graph-update"@, mid)].drop_last() =~= Seq::<(Seq<char>, JsonModel)>::empty());
    assert(at_path(top, keys) == Some(arr));
    lemma_array_nodes_wire(g);
}

/// The fragments that the builder reads are childless.
proof fn lemma_fragment_nodes_childless(f: JsonModel)
    requires
        fragment_nodes(f) is Some,
    ensures
        forall|i: int|
            0 <= i < fragment_nodes(f)->0.len() ==> (#[trigger] fragment_nodes(f)->0[i]).children.len()
                == 0,
    decreases f, 1int,
{
    match f {
        JsonModel::Object(fm) => {
            let pp = member_pos(fm, "post"@);
            let cp = member_pos(fm, "children"@);
            let n = post_from_wire(fm[pp].1)->0;
            if 0 <= cp < fm.len() {
                match fm[cp].1 {
                    JsonModel::Object(cm) => {
                        lemma_members_nodes_childless(cm);
                        let r = members_nodes(cm)->0;
                        assert forall|i: int| 0 <= i < fragment_nodes(f)->0.len() implies (#[trigger] fragment_nodes(f)->0[i]).children.len() == 0 by {
                            if i > 0 {
                                assert(fragment_nodes(f)->0[i] == r[i - 1]);
                            }
                        }
                    },
                    _ => {},
                }
            }
        },
        _ => {},
    }
}

proof fn lemma_members_nodes_childless(m: Seq<(Seq<char>, JsonModel)>)
    requires
        members_nodes(m) is Some,
    ensures
        forall|i: int|
            0 <= i < members_nodes(m)->0.len() ==> (#[trigger] members_nodes(m)->0[i]).children.len()
                == 0,
    decreases m, 0int,
{
    if m.len() > 0 {
        let p = m.subrange(0, m.len() - 1);
        lemma_members_nodes_childless(p);
        lemma_fragment_nodes_childless(m[m.len() - 1].1);
        let a = members_nodes(p)->0;
        let b = fragment_nodes(m[m.len() - 1].1)->0;
        assert forall|i: int| 0 <= i < members_nodes(m)->0.len() implies (#[trigger] members_nodes(m)->0[i]).children.len() == 0 by {
            if i < a.len() {
                assert(members_nodes(m)->0[i] == a[i]);
            } else {
                assert(members_nodes(m)->0[i] == b[i - a.len()]);
            }
        }
    }
}

proof fn lemma_array_nodes_childless(a: Seq<JsonModel>)
    requires
        array_nodes(a) is Some,
    ensures
        forall|i: int|
            0 <= i < array_nodes(a)->0.len() ==> (#[trigger] array_nodes(a)->0[i]).children.len()
                == 0,
    decreases a.len(),
{
    if a.len() > 0 {
        lemma_array_nodes_childless(a.drop_last());
        let x = array_nodes(a.drop_last())->0;
        let y = match a.last() {
            JsonModel::Object(m) => {
                lemma_members_nodes_childless(m);
                members_nodes(m)->0
            },
            _ => Seq::<NodeView>::empty(),
        };
        assert forall|i: int| 0 <= i < array_nodes(a)->0.len() implies (#[trigger] array_nodes(a)->0[i]).children.len() == 0 by {
            if i < x.len() {
                assert(array_nodes(a)->0[i] == x[i]);
            } else {
                assert(array_nodes(a)->0[i] == y[i - x.len()]);
            }
        }
    }
}

/// Every tree that `Graph::from_json` builds keeps the index invariant of a
/// graph: each child is a direct child of its parent by index, and a child
/// that repeats an earlier sibling's index holds no children.
pub proof fn lemma_built_forest_shape(payload: JsonModel)
    requires
        graph_fragments(payload) is Some,
        graph_fragments(payload)->0.len() > 0,
    ensures
        well_built(build_tree(graph_fragments(payload)->0)),
{
    let fs = graph_fragments(payload)->0;
    match graph_part(payload) {
        Some(p) => match p {
            JsonModel::Object(m) => lemma_members_nodes_childless(m),
            JsonModel::Array(a) => lemma_array_nodes_childless(a),
            _ => {},
        },
        None => {},
    }
    lemma_fold_well_built(fs);
}

/// Rebuilding a graph from the payload that `Graph::to_json` writes for a
/// graph that `Graph::from_json` built gives that graph again.
pub proof fn lemma_rebuild_from_payload(payload: JsonModel)
    requires
        graph_fragments(payload) is Some,
        graph_fragments(payload)->0.len() > 0,
    ensures
        ({
            let g = build_tree(graph_fragments(payload)->0);
            &&& graph_fragments(graph_wire(g)) is Some
            &&& graph_fragments(graph_wire(g))->0.len() > 0
            &&& build_tree(graph_fragments(graph_wire(g))->0) == g
        }),
{
    let fs = graph_fragments(payload)->0;
    match graph_part(payload) {
        Some(p) => match p {
            JsonModel::Object(m) => lemma_members_nodes_childless(m),
            JsonModel::Array(a) => lemma_array_nodes_childless(a),
            _ => {},
        },
        None => {},
    }
    lemma_build_idempotent(fs);
    let g = build_tree(fs);
    lemma_graph_fragments_wire(g);
    lemma_flat_seq_nonempty(g);
}

} // verus!
