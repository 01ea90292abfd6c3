//! A randomized ternary search trie. Words with shared prefixes share nodes;
//! randomized priorities and rotations keep the left/right axis of every trie
//! level (typically) balanced. See: Randomized Ternary Search Tries, Nicolai
//! Diethelm, <https://arxiv.org/abs/1606.04042>.

use rand::rngs::StdRng;
use vstd::prelude::*;
use crate::text::{chars_of, push_char};
use crate::trie::{Trie, TrieContains, TrieInsert, TriePrefixIter};

verus! {

#[verifier::external_type_specification]
#[verifier::external_body]
pub struct ExStdRng(StdRng);

/// Relies on `rand::Rng::gen_range` over the inclusive range `lo..=hi`: the
/// drawn value lies in that range, which is not empty.
#[verifier::external_body]
fn draw_in_range(rng: &mut StdRng, lo: u32, hi: u32) -> (r: u32)
    requires
        lo <= hi,
    ensures
        lo <= r <= hi,
{
    rand::Rng::gen_range(rng, lo..=hi)
}

/// Strict order on characters (by code point).
pub open spec fn char_lt(a: char, b: char) -> bool {
    a < b
}

/// A node of the trie. `left` and `right` hold the nodes of the same level
/// with smaller and larger characters; `mid` continues with the next
/// character.
pub struct TreeNode {
    pub ch: char,
    /// Balance priority: never smaller than that of the left and right child.
    pub prio: u32,
    /// Word priority: 0 if no word ends at this node, non-zero otherwise.
    pub str_prio: u32,
    pub left: Option<Box<TreeNode>>,
    pub mid: Option<Box<TreeNode>>,
    pub right: Option<Box<TreeNode>>,
}

/// Balance priority of a node slot; an empty slot counts as 0.
pub open spec fn prio_of(t: Option<Box<TreeNode>>) -> u32 {
    match t {
        Some(n) => n.prio,
        None => 0,
    }
}

pub open spec fn max_u32(a: u32, b: u32) -> u32 {
    if a >= b {
        a
    } else {
        b
    }
}

/// `w` is a word stored in the subtree at slot `t`.
pub open spec fn has_word(t: Option<Box<TreeNode>>, w: Seq<char>) -> bool
    decreases t,
{
    match t {
        None => false,
        Some(n) => {
            ||| has_word(n.left, w)
            ||| has_word(n.right, w)
            ||| (w.len() == 1 && w[0] == n.ch && n.str_prio != 0)
            ||| (w.len() > 1 && w[0] == n.ch && has_word(n.mid, w.drop_first()))
        },
    }
}

/// The word priority of the node where `w` ends in the subtree at `t`: the
/// largest word priority among the nodes that spell out `w` (a well-formed
/// subtree has at most one), 0 if none does.
pub open spec fn word_prio(t: Option<Box<TreeNode>>, w: Seq<char>) -> u32
    decreases t,
{
    match t {
        None => 0,
        Some(n) => max_u32(
            max_u32(word_prio(n.left, w), word_prio(n.right, w)),
            max_u32(
                if w.len() == 1 && w[0] == n.ch {
                    n.str_prio
                } else {
                    0
                },
                if w.len() > 1 && w[0] == n.ch {
                    word_prio(n.mid, w.drop_first())
                } else {
                    0
                },
            ),
        ),
    }
}

/// A word is stored exactly when its word priority is non-zero.
pub proof fn lemma_word_prio_nonzero(t: Option<Box<TreeNode>>, w: Seq<char>)
    ensures
        has_word(t, w) <==> word_prio(t, w) != 0,
    decreases t,
{
    reveal(word_prio);
    match t {
        None => {},
        Some(n) => {
            lemma_word_prio_nonzero(n.left, w);
            lemma_word_prio_nonzero(n.right, w);
            if w.len() > 1 {
                lemma_word_prio_nonzero(n.mid, w.drop_first());
            }
        },
    }
}

/// `c` is the character of a node on the left/right axis of the level at `t`.
pub open spec fn level_has(t: Option<Box<TreeNode>>, c: char) -> bool
    decreases t,
{
    match t {
        None => false,
        Some(n) => n.ch == c || level_has(n.left, c) || level_has(n.right, c),
    }
}

/// The structural invariants of a subtree: search order on the left/right
/// axis, heap order of the balance priorities on that axis, and each balance
/// priority equal to the larger of the node's word priority and its mid
/// child's balance priority.
pub open spec fn wf(t: Option<Box<TreeNode>>) -> bool
    decreases t,
{
    match t {
        None => true,
        Some(n) => {
            &&& wf(n.left)
            &&& wf(n.mid)
            &&& wf(n.right)
            &&& forall|c: char| level_has(n.left, c) ==> char_lt(c, n.ch)
            &&& forall|c: char| level_has(n.right, c) ==> char_lt(n.ch, c)
            &&& prio_of(n.left) <= n.prio
            &&& prio_of(n.right) <= n.prio
            &&& n.prio == max_u32(n.str_prio, prio_of(n.mid))
        },
    }
}

/// Every stored word is non-empty and starts with a character of its level.
proof fn lemma_word_first_char(t: Option<Box<TreeNode>>, w: Seq<char>)
    requires
        has_word(t, w),
    ensures
        w.len() > 0,
        level_has(t, w[0]),
    decreases t,
{
    match t {
        None => {},
        Some(n) => {
            if has_word(n.left, w) {
                lemma_word_first_char(n.left, w);
            } else if has_word(n.right, w) {
                lemma_word_first_char(n.right, w);
            }
        },
    }
}

/// The node obtained by rotating `node` with its left child.
spec fn rotated_with_left(node: TreeNode) -> TreeNode
    recommends
        node.left is Some,
{
    let y = *node.left->0;
    TreeNode {
        ch: y.ch,
        prio: y.prio,
        str_prio: y.str_prio,
        left: y.left,
        mid: y.mid,
        right: Some(
            Box::new(
                TreeNode {
                    ch: node.ch,
                    prio: node.prio,
                    str_prio: node.str_prio,
                    left: y.right,
                    mid: node.mid,
                    right: node.right,
                },
            ),
        ),
    }
}

/// The node obtained by rotating `node` with its right child.
spec fn rotated_with_right(node: TreeNode) -> TreeNode
    recommends
        node.right is Some,
{
    let y = *node.right->0;
    TreeNode {
        ch: y.ch,
        prio: y.prio,
        str_prio: y.str_prio,
        left: Some(
            Box::new(
                TreeNode {
                    ch: node.ch,
                    prio: node.prio,
                    str_prio: node.str_prio,
                    left: node.left,
                    mid: node.mid,
                    right: y.left,
                },
            ),
        ),
        mid: y.mid,
        right: y.right,
    }
}

/// Rotate node with its left child.
fn rotate_with_left(node: TreeNode) -> (r: TreeNode)
    requires
        node.left is Some,
    ensures
        r == rotated_with_left(node),
{
    let TreeNode { ch, prio, str_prio, left, mid, right } = node;
    let y = *left.unwrap();
    let TreeNode { ch: ych, prio: yprio, str_prio: ystr, left: yleft, mid: ymid, right: yright } = y;
    let lowered = TreeNode { ch, prio, str_prio, left: yright, mid, right };
    TreeNode {
        ch: ych,
        prio: yprio,
        str_prio: ystr,
        left: yleft,
        mid: ymid,
        right: Some(Box::new(lowered)),
    }
}

/// Rotate node with its right child.
fn rotate_with_right(node: TreeNode) -> (r: TreeNode)
    requires
        node.right is Some,
    ensures
        r == rotated_with_right(node),
{
    let TreeNode { ch, prio, str_prio, left, mid, right } = node;
    let y = *right.unwrap();
    let TreeNode { ch: ych, prio: yprio, str_prio: ystr, left: yleft, mid: ymid, right: yright } = y;
    let lowered = TreeNode { ch, prio, str_prio, left, mid, right: yleft };
    TreeNode {
        ch: ych,
        prio: yprio,
        str_prio: ystr,
        left: Some(Box::new(lowered)),
        mid: ymid,
        right: yright,
    }
}

impl TreeNode {
    fn new(ch: char) -> (r: TreeNode)
        ensures
            r.ch == ch,
            r.prio == 0,
            r.str_prio == 0,
            r.left is None,
            r.mid is None,
            r.right is None,
    {
        TreeNode { ch, prio: 0, str_prio: 0, left: None, mid: None, right: None }
    }
}

/// Rotations keep the stored words and the characters of the level.
proof fn lemma_rotate_left(node: TreeNode)
    requires
        node.left is Some,
    ensures
        forall|x: Seq<char>|
            has_word(Some(Box::new(rotated_with_left(node))), x) == has_word(
                Some(Box::new(node)),
                x,
            ),
        forall|c: char|
            level_has(Some(Box::new(rotated_with_left(node))), c) == level_has(
                Some(Box::new(node)),
                c,
            ),
        forall|x: Seq<char>|
            word_prio(Some(Box::new(rotated_with_left(node))), x) == word_prio(
                Some(Box::new(node)),
                x,
            ),
{
    reveal_with_fuel(has_word, 2);
    reveal_with_fuel(level_has, 2);
    reveal_with_fuel(word_prio, 3);
}

/// Rotations keep the stored words and the characters of the level.
proof fn lemma_rotate_right(node: TreeNode)
    requires
        node.right is Some,
    ensures
        forall|x: Seq<char>|
            has_word(Some(Box::new(rotated_with_right(node))), x) == has_word(
                Some(Box::new(node)),
                x,
            ),
        forall|c: char|
            level_has(Some(Box::new(rotated_with_right(node))), c) == level_has(
                Some(Box::new(node)),
                c,
            ),
        forall|x: Seq<char>|
            word_prio(Some(Box::new(rotated_with_right(node))), x) == word_prio(
                Some(Box::new(node)),
                x,
            ),
{
    reveal_with_fuel(has_word, 2);
    reveal_with_fuel(level_has, 2);
    reveal_with_fuel(word_prio, 3);
}

/// Rotating a node with a left child of higher priority keeps the invariant.
proof fn lemma_rotate_left_wf(node: TreeNode)
    requires
        node.left is Some,
        wf(node.left),
        wf(node.mid),
        wf(node.right),
        forall|d: char| level_has(node.left, d) ==> char_lt(d, node.ch),
        forall|d: char| level_has(node.right, d) ==> char_lt(node.ch, d),
        prio_of(node.right) <= node.prio,
        node.prio == max_u32(node.str_prio, prio_of(node.mid)),
        prio_of(node.left->0.right) <= node.prio,
        node.prio < prio_of(node.left),
    ensures
        wf(Some(Box::new(rotated_with_left(node)))),
{
    let y = *node.left->0;
    let r = rotated_with_left(node);
    assert(level_has(node.left, y.ch));
    assert(forall|d: char| level_has(y.right, d) ==> level_has(node.left, d));
    assert(wf(r.right));
    assert forall|d: char| level_has(r.right, d) implies char_lt(y.ch, d) by {
        assert(level_has(r.right, d) == (d == node.ch || level_has(y.right, d) || level_has(
            node.right,
            d,
        )));
    }
}

/// Rotating a node with a right child of higher priority keeps the invariant.
proof fn lemma_rotate_right_wf(node: TreeNode)
    requires
        node.right is Some,
        wf(node.left),
        wf(node.mid),
        wf(node.right),
        forall|d: char| level_has(node.left, d) ==> char_lt(d, node.ch),
        forall|d: char| level_has(node.right, d) ==> char_lt(node.ch, d),
        prio_of(node.left) <= node.prio,
        node.prio == max_u32(node.str_prio, prio_of(node.mid)),
        prio_of(node.right->0.left) <= node.prio,
        node.prio < prio_of(node.right),
    ensures
        wf(Some(Box::new(rotated_with_right(node)))),
{
    let y = *node.right->0;
    let r = rotated_with_right(node);
    assert(level_has(node.right, y.ch));
    assert(forall|d: char| level_has(y.left, d) ==> level_has(node.right, d));
    assert(wf(r.left));
    assert forall|d: char| level_has(r.left, d) implies char_lt(d, y.ch) by {
        assert(level_has(r.left, d) == (d == node.ch || level_has(node.left, d) || level_has(
            y.left,
            d,
        )));
    }
}

/// What inserting the word `wi` into the subtree at `t` must give: a
/// well-formed subtree rooted at `r` whose words are those of `t` plus `wi`,
/// whose level gains the first character of `wi`, where only `wi` can have a
/// new word priority, whose balance priorities stay within the bounds that
/// the caller's heap order needs, and which is `t` itself when `wi` was
/// stored. The old root stays the root unless the rebuilt left or right child
/// outranks it strictly, in which case that child (whose character differs)
/// becomes the root.
pub open spec fn insert_post(t: Option<Box<TreeNode>>, r: TreeNode, wi: Seq<char>) -> bool {
    let rs = Some(Box::new(r));
    &&& wi.len() > 0
    &&& wf(rs)
    &&& forall|x: Seq<char>| has_word(rs, x) <==> (has_word(t, x) || x == wi)
    &&& forall|d: char| level_has(rs, d) <==> (level_has(t, d) || d == wi[0])
    &&& forall|x: Seq<char>| x != wi ==> word_prio(rs, x) == word_prio(t, x)
    &&& r.prio >= prio_of(t)
    &&& prio_of(r.left) <= prio_of(t)
    &&& prio_of(r.right) <= prio_of(t)
    &&& (has_word(t, wi) ==> rs == t)
    &&& (t is None ==> r.ch == wi[0])
    &&& (t is Some && wi[0] == t->0.ch ==> r.ch == t->0.ch)
    &&& (t is Some && wi[0] != t->0.ch && r.ch == t->0.ch ==> r.prio == t->0.prio)
    &&& (t is Some && r.ch != t->0.ch ==> r.prio > t->0.prio)
}

/// The node to insert at: the root of `t`, or a fresh node for `c`.
pub open spec fn start_node(t: Option<Box<TreeNode>>, g: TreeNode, c: char) -> bool {
    match t {
        Some(b) => *b == g,
        None => g == TreeNode { ch: c, prio: 0, str_prio: 0, left: None, mid: None, right: None },
    }
}

/// The node `g` with a new left child.
spec fn with_left(g: TreeNode, l: TreeNode) -> TreeNode {
    TreeNode {
        ch: g.ch,
        prio: g.prio,
        str_prio: g.str_prio,
        left: Some(Box::new(l)),
        mid: g.mid,
        right: g.right,
    }
}

/// The node `g` with a new right child.
spec fn with_right(g: TreeNode, rt: TreeNode) -> TreeNode {
    TreeNode {
        ch: g.ch,
        prio: g.prio,
        str_prio: g.str_prio,
        left: g.left,
        mid: g.mid,
        right: Some(Box::new(rt)),
    }
}

/// The node `g` with a new word priority and mid child, and the balance
/// priority recomputed from them.
spec fn with_mid(g: TreeNode, sp: u32, m: Option<Box<TreeNode>>) -> TreeNode {
    TreeNode {
        ch: g.ch,
        prio: max_u32(sp, prio_of(m)),
        str_prio: sp,
        left: g.left,
        mid: m,
        right: g.right,
    }
}

/// Inserting into the left subtree, then rotating when the rebuilt child
/// outranks the node strictly.
proof fn lemma_left_case(t: Option<Box<TreeNode>>, g: TreeNode, nl: TreeNode, wi: Seq<char>)
    requires
        t == Some(Box::new(g)),
        wf(t),
        wi.len() > 0,
        wi[0] < g.ch,
        insert_post(g.left, nl, wi),
    ensures
        has_word(t, wi) ==> has_word(g.left, wi),
        nl.prio > g.prio ==> insert_post(t, rotated_with_left(with_left(g, nl)), wi),
        nl.prio <= g.prio ==> insert_post(t, with_left(g, nl), wi),
{
    reveal(word_prio);
    let b = with_left(g, nl);
    let bb = Some(Box::new(b));
    let nls = Some(Box::new(nl));
    assert forall|x: Seq<char>| has_word(bb, x) <==> (has_word(t, x) || x == wi) by {
        assert(has_word(nls, x) <==> (has_word(g.left, x) || x == wi));
    }
    assert forall|d: char| level_has(bb, d) <==> (level_has(t, d) || d == wi[0]) by {
        assert(level_has(nls, d) <==> (level_has(g.left, d) || d == wi[0]));
    }
    assert forall|x: Seq<char>| x != wi implies word_prio(bb, x) == word_prio(t, x) by {
        assert(word_prio(nls, x) == word_prio(g.left, x));
    }
    if has_word(t, wi) {
        lemma_word_first_char(t, wi);
        if has_word(g.right, wi) {
            lemma_word_first_char(g.right, wi);
        }
        assert(has_word(g.left, wi));
    }
    assert(forall|d: char| level_has(nls, d) ==> char_lt(d, g.ch));
    if nl.prio > g.prio {
        lemma_rotate_left(b);
        lemma_rotate_left_wf(b);
        let r = rotated_with_left(b);
        let rs = Some(Box::new(r));
        assert forall|x: Seq<char>| has_word(rs, x) <==> (has_word(t, x) || x == wi) by {
            assert(has_word(rs, x) == has_word(bb, x));
        }
        assert forall|d: char| level_has(rs, d) <==> (level_has(t, d) || d == wi[0]) by {
            assert(level_has(rs, d) == level_has(bb, d));
        }
        assert forall|x: Seq<char>| x != wi implies word_prio(rs, x) == word_prio(t, x) by {
            assert(word_prio(rs, x) == word_prio(bb, x));
        }
        assert(level_has(nls, nl.ch));
    } else {
        assert(wf(bb));
    }
}

/// Inserting into the right subtree, then rotating when the rebuilt child
/// outranks the node strictly.
proof fn lemma_right_case(t: Option<Box<TreeNode>>, g: TreeNode, nr: TreeNode, wi: Seq<char>)
    requires
        t == Some(Box::new(g)),
        wf(t),
        wi.len() > 0,
        g.ch < wi[0],
        insert_post(g.right, nr, wi),
    ensures
        has_word(t, wi) ==> has_word(g.right, wi),
        nr.prio > g.prio ==> insert_post(t, rotated_with_right(with_right(g, nr)), wi),
        nr.prio <= g.prio ==> insert_post(t, with_right(g, nr), wi),
{
    reveal(word_prio);
    let b = with_right(g, nr);
    let bb = Some(Box::new(b));
    let nrs = Some(Box::new(nr));
    assert forall|x: Seq<char>| has_word(bb, x) <==> (has_word(t, x) || x == wi) by {
        assert(has_word(nrs, x) <==> (has_word(g.right, x) || x == wi));
    }
    assert forall|d: char| level_has(bb, d) <==> (level_has(t, d) || d == wi[0]) by {
        assert(level_has(nrs, d) <==> (level_has(g.right, d) || d == wi[0]));
    }
    assert forall|x: Seq<char>| x != wi implies word_prio(bb, x) == word_prio(t, x) by {
        assert(word_prio(nrs, x) == word_prio(g.right, x));
    }
    if has_word(t, wi) {
        lemma_word_first_char(t, wi);
        if has_word(g.left, wi) {
            lemma_word_first_char(g.left, wi);
        }
        assert(has_word(g.right, wi));
    }
    assert(forall|d: char| level_has(nrs, d) ==> char_lt(g.ch, d));
    if nr.prio > g.prio {
        lemma_rotate_right(b);
        lemma_rotate_right_wf(b);
        let r = rotated_with_right(b);
        let rs = Some(Box::new(r));
        assert forall|x: Seq<char>| has_word(rs, x) <==> (has_word(t, x) || x == wi) by {
            assert(has_word(rs, x) == has_word(bb, x));
        }
        assert forall|d: char| level_has(rs, d) <==> (level_has(t, d) || d == wi[0]) by {
            assert(level_has(rs, d) == level_has(bb, d));
        }
        assert forall|x: Seq<char>| x != wi implies word_prio(rs, x) == word_prio(t, x) by {
            assert(word_prio(rs, x) == word_prio(bb, x));
        }
        assert(level_has(nrs, nr.ch));
    } else {
        assert(wf(bb));
    }
}

/// The facts about the start node that the equal-character cases use.
proof fn lemma_start_node(t: Option<Box<TreeNode>>, g: TreeNode, c: char)
    requires
        wf(t),
        start_node(t, g, c),
    ensures
        wf(Some(Box::new(g))),
        prio_of(t) == g.prio,
        t is Some ==> t == Some(Box::new(g)),
        forall|x: Seq<char>| has_word(Some(Box::new(g)), x) == has_word(t, x),
        forall|x: Seq<char>| word_prio(Some(Box::new(g)), x) == word_prio(t, x),
        forall|d: char| level_has(t, d) ==> level_has(Some(Box::new(g)), d),
        forall|d: char| level_has(Some(Box::new(g)), d) ==> (level_has(t, d) || d == c),
        t is None ==> g.ch == c,
{
    reveal(word_prio);
    assert forall|x: Seq<char>| has_word(Some(Box::new(g)), x) == has_word(t, x) by {
        if t is None {
            assert(!has_word(g.left, x) && !has_word(g.right, x) && !has_word(g.mid, x.drop_first()));
        }
    }
    assert forall|x: Seq<char>| word_prio(Some(Box::new(g)), x) == word_prio(t, x) by {
        if t is None {
            assert(word_prio(g.left, x) == 0 && word_prio(g.right, x) == 0 && word_prio(
                g.mid,
                x.drop_first(),
            ) == 0);
        }
    }
}

/// The equal-character case with characters left: insert into the mid
/// child and recompute the balance priority.
proof fn lemma_mid_case(
    t: Option<Box<TreeNode>>,
    g: TreeNode,
    nm: TreeNode,
    wi: Seq<char>,
)
    requires
        wf(t),
        start_node(t, g, wi[0]),
        wi.len() > 1,
        wi[0] == g.ch,
        insert_post(g.mid, nm, wi.drop_first()),
    ensures
        has_word(t, wi) ==> has_word(g.mid, wi.drop_first()),
        insert_post(t, with_mid(g, g.str_prio, Some(Box::new(nm))), wi),
{
    reveal(word_prio);
    lemma_start_node(t, g, wi[0]);
    let gs = Some(Box::new(g));
    let ms = Some(Box::new(nm));
    let r = with_mid(g, g.str_prio, ms);
    let rs = Some(Box::new(r));
    assert forall|x: Seq<char>|
        x.len() > 1 && x[0] == g.ch && x.drop_first() == wi.drop_first() implies x == wi by {
        assert forall|k: int| 0 <= k < x.len() implies x[k] == wi[k] by {
            if k > 0 {
                assert(x[k] == x.drop_first()[k - 1]);
                assert(wi[k] == wi.drop_first()[k - 1]);
            }
        }
        assert(x =~= wi);
    }
    assert forall|x: Seq<char>| has_word(rs, x) <==> (has_word(t, x) || x == wi) by {
        assert(has_word(gs, x) == has_word(t, x));
        assert(has_word(ms, x.drop_first()) <==> (has_word(g.mid, x.drop_first())
            || x.drop_first() == wi.drop_first()));
    }
    assert forall|x: Seq<char>| x != wi implies word_prio(rs, x) == word_prio(t, x) by {
        assert(word_prio(gs, x) == word_prio(t, x));
        if x.len() > 1 && x[0] == g.ch {
            assert(x.drop_first() != wi.drop_first());
            assert(word_prio(ms, x.drop_first()) == word_prio(g.mid, x.drop_first()));
        }
    }
    assert forall|d: char| level_has(rs, d) <==> (level_has(t, d) || d == wi[0]) by {
        assert(level_has(rs, d) == level_has(gs, d));
    }
    if has_word(t, wi) {
        assert(has_word(gs, wi));
        if has_word(g.left, wi) {
            lemma_word_first_char(g.left, wi);
        }
        if has_word(g.right, wi) {
            lemma_word_first_char(g.right, wi);
        }
        assert(has_word(g.mid, wi.drop_first()));
        assert(ms == g.mid);
        assert(r == g);
    }
    assert(wf(rs));
}

/// The equal-character case at the last character: the node ends the word,
/// keeping its word priority if it has one and taking `sp` otherwise.
proof fn lemma_end_case(t: Option<Box<TreeNode>>, g: TreeNode, sp: u32, wi: Seq<char>)
    requires
        wf(t),
        start_node(t, g, wi[0]),
        wi.len() == 1,
        wi[0] == g.ch,
        sp != 0,
        g.str_prio != 0 ==> sp == g.str_prio,
    ensures
        has_word(t, wi) ==> g.str_prio != 0,
        insert_post(t, with_mid(g, sp, g.mid), wi),
{
    reveal(word_prio);
    lemma_start_node(t, g, wi[0]);
    let gs = Some(Box::new(g));
    let r = with_mid(g, sp, g.mid);
    let rs = Some(Box::new(r));
    assert forall|x: Seq<char>| x.len() == 1 && x[0] == g.ch implies x == wi by {
        assert(x =~= wi);
    }
    assert forall|x: Seq<char>| has_word(rs, x) <==> (has_word(t, x) || x == wi) by {
        assert(has_word(gs, x) == has_word(t, x));
    }
    assert forall|x: Seq<char>| x != wi implies word_prio(rs, x) == word_prio(t, x) by {
        assert(word_prio(gs, x) == word_prio(t, x));
    }
    assert forall|d: char| level_has(rs, d) <==> (level_has(t, d) || d == wi[0]) by {
        assert(level_has(rs, d) == level_has(gs, d));
    }
    if has_word(t, wi) {
        assert(has_word(gs, wi));
        if has_word(g.left, wi) {
            lemma_word_first_char(g.left, wi);
        }
        if has_word(g.right, wi) {
            lemma_word_first_char(g.right, wi);
        }
        assert(g.str_prio != 0);
        assert(r == g);
    }
    assert(wf(rs));
}

/// Insert the characters `w[i..]` into the subtree at `t`, handing back the
/// rebuilt (possibly rotated) subtree. A priority is drawn only when the
/// word was not stored.
fn insert_node(t: Option<Box<TreeNode>>, w: &Vec<char>, i: usize, rng: &mut StdRng) -> (r: Box<
    TreeNode,
>)
    requires
        wf(t),
        i < w@.len(),
    ensures
        insert_post(t, *r, w@.skip(i as int)),
        has_word(t, w@.skip(i as int)) ==> *final(rng) == *old(rng),
    decreases w@.len() - i, t,
{
    let ghost wi = w@.skip(i as int);
    let c = w[i];
    assert(wi[0] == c);
    let node = match t {
        Some(b) => *b,
        None => TreeNode::new(c),
    };
    let ghost g = node;
    assert(start_node(t, g, c));
    let TreeNode { ch, prio, str_prio, left, mid, right } = node;
    if c < ch {
        proof {
            lemma_start_node(t, g, c);
        }
        let new_left = insert_node(left, w, i, rng);
        let left_prio = new_left.prio;
        let ghost nl = *new_left;
        proof {
            lemma_left_case(t, g, nl, wi);
        }
        let built = TreeNode { ch, prio, str_prio, left: Some(new_left), mid, right };
        assert(built == with_left(g, nl));
        if left_prio > prio {
            Box::new(rotate_with_left(built))
        } else {
            Box::new(built)
        }
    } else if ch < c {
        proof {
            lemma_start_node(t, g, c);
        }
        let new_right = insert_node(right, w, i, rng);
        let right_prio = new_right.prio;
        let ghost nr = *new_right;
        proof {
            lemma_right_case(t, g, nr, wi);
        }
        let built = TreeNode { ch, prio, str_prio, left, mid, right: Some(new_right) };
        assert(built == with_right(g, nr));
        if right_prio > prio {
            Box::new(rotate_with_right(built))
        } else {
            Box::new(built)
        }
    } else if i < w.len() - 1 {
        assert(wi.drop_first() =~= w@.skip(i + 1));
        let new_mid = insert_node(mid, w, i + 1, rng);
        let ghost nm = *new_mid;
        proof {
            lemma_mid_case(t, g, nm, wi);
        }
        let mid_prio = new_mid.prio;
        let prio = if str_prio >= mid_prio {
            str_prio
        } else {
            mid_prio
        };
        let r = TreeNode { ch, prio, str_prio, left, mid: Some(new_mid), right };
        assert(r == with_mid(g, g.str_prio, Some(Box::new(nm))));
        Box::new(r)
    } else {
        let mut str_prio = str_prio;
        if str_prio == 0 {
            str_prio = draw_in_range(rng, 1, u32::MAX);
        }
        proof {
            lemma_end_case(t, g, str_prio, wi);
        }
        let mid_prio: u32 = match &mid {
            Some(m) => m.prio,
            None => 0,
        };
        let prio = if str_prio >= mid_prio {
            str_prio
        } else {
            mid_prio
        };
        let r = TreeNode { ch, prio, str_prio, left, mid, right };
        assert(r == with_mid(g, str_prio, g.mid));
        Box::new(r)
    }
}

/// The node reached by consuming the characters of `p`, descending as
/// insertion does; `None` when `p` is empty or cannot be matched.
spec fn locate(t: Option<Box<TreeNode>>, p: Seq<char>) -> Option<TreeNode>
    decreases t,
{
    match t {
        None => None,
        Some(n) => {
            if p.len() == 0 {
                None
            } else if p[0] < n.ch {
                locate(n.left, p)
            } else if n.ch < p[0] {
                locate(n.right, p)
            } else if p.len() == 1 {
                Some(*n)
            } else {
                locate(n.mid, p.drop_first())
            }
        },
    }
}

/// A located node lies within a well-formed tree, and is well-formed.
proof fn lemma_locate_wf(t: Option<Box<TreeNode>>, p: Seq<char>)
    requires
        wf(t),
        locate(t, p) is Some,
    ensures
        wf(Some(Box::new(locate(t, p)->0))),
    decreases t,
{
    let n = t->0;
    if p[0] < n.ch {
        lemma_locate_wf(n.left, p);
    } else if n.ch < p[0] {
        lemma_locate_wf(n.right, p);
    } else if p.len() > 1 {
        lemma_locate_wf(n.mid, p.drop_first());
    }
}

/// `p` is a stored word exactly when its located node ends a word.
proof fn lemma_locate_word(t: Option<Box<TreeNode>>, p: Seq<char>)
    requires
        wf(t),
        p.len() > 0,
    ensures
        has_word(t, p) <==> (locate(t, p) is Some && locate(t, p)->0.str_prio != 0),
    decreases t,
{
    match t {
        None => {},
        Some(n) => {
            if has_word(n.left, p) {
                lemma_word_first_char(n.left, p);
            }
            if has_word(n.right, p) {
                lemma_word_first_char(n.right, p);
            }
            if p[0] < n.ch {
                lemma_locate_word(n.left, p);
            } else if n.ch < p[0] {
                lemma_locate_word(n.right, p);
            } else if p.len() > 1 {
                lemma_locate_word(n.mid, p.drop_first());
            }
        },
    }
}

/// Find the node that represents `w[i..]`. The node itself is returned (not
/// its mid child), so that a caller can check whether the prefix is a word.
/// No node represents the empty sequence.
fn prefix_node<'a>(t: &'a Option<Box<TreeNode>>, w: &Vec<char>, i: usize) -> (r: Option<
    &'a TreeNode,
>)
    requires
        i <= w@.len(),
    ensures
        match r {
            Some(n) => locate(*t, w@.skip(i as int)) == Some(*n),
            None => locate(*t, w@.skip(i as int)) is None,
        },
    decreases *t,
{
    if i == w.len() {
        return None;
    }
    match t {
        None => None,
        Some(node) => {
            let ghost p = w@.skip(i as int);
            let c = w[i];
            if c < node.ch {
                prefix_node(&node.left, w, i)
            } else if node.ch < c {
                prefix_node(&node.right, w, i)
            } else if i == w.len() - 1 {
                Some(node)
            } else {
                assert(p.drop_first() =~= w@.skip(i + 1));
                prefix_node(&node.mid, w, i + 1)
            }
        },
    }
}


/// Strict lexicographic order on character sequences (a proper prefix comes
/// first). On strings it agrees with the order of `str`.
pub open spec fn seq_lt(a: Seq<char>, b: Seq<char>) -> bool
    decreases a.len(),
{
    if b.len() == 0 {
        false
    } else if a.len() == 0 {
        true
    } else if a[0] != b[0] {
        a[0] < b[0]
    } else {
        seq_lt(a.drop_first(), b.drop_first())
    }
}

/// Every element is smaller than each later one: sorted, without duplicates.
pub open spec fn strictly_ascending(s: Seq<Seq<char>>) -> bool {
    forall|i: int, j: int| 0 <= i < j < s.len() ==> seq_lt(s[i], s[j])
}

/// `w` starts with `p`.
pub open spec fn is_prefix(p: Seq<char>, w: Seq<char>) -> bool {
    p.len() <= w.len() && w.subrange(0, p.len() as int) == p
}

/// `p` followed by each word of `s`.
spec fn prepend_all(p: Seq<char>, s: Seq<Seq<char>>) -> Seq<Seq<char>> {
    s.map_values(|x: Seq<char>| p + x)
}

/// The word that ends at `n`, if any, as a sequence of zero or one words.
spec fn own_word(n: TreeNode) -> Seq<Seq<char>> {
    if n.str_prio != 0 {
        seq![seq![n.ch]]
    } else {
        Seq::empty()
    }
}

/// The words of a subtree in traversal order: left subtree, the word ending
/// here, the continuations through the mid child, right subtree.
spec fn enumerate(t: Option<Box<TreeNode>>) -> Seq<Seq<char>>
    decreases t,
{
    match t {
        None => Seq::empty(),
        Some(n) => enumerate(n.left) + own_word(*n) + prepend_all(seq![n.ch], enumerate(n.mid))
            + enumerate(n.right),
    }
}

proof fn lemma_concat_contains(a: Seq<Seq<char>>, b: Seq<Seq<char>>, x: Seq<char>)
    ensures
        (a + b).contains(x) <==> (a.contains(x) || b.contains(x)),
{
    if a.contains(x) {
        let i = choose|i: int| 0 <= i < a.len() && a[i] == x;
        assert((a + b)[i] == x);
    }
    if b.contains(x) {
        let i = choose|i: int| 0 <= i < b.len() && b[i] == x;
        assert((a + b)[a.len() + i] == x);
    }
    if (a + b).contains(x) {
        let i = choose|i: int| 0 <= i < (a + b).len() && (a + b)[i] == x;
        if i < a.len() {
            assert(a[i] == x);
        } else {
            assert(b[i - a.len()] == x);
        }
    }
}

proof fn lemma_prepend_contains(p: Seq<char>, s: Seq<Seq<char>>, x: Seq<char>)
    ensures
        prepend_all(p, s).contains(x) <==> (is_prefix(p, x) && s.contains(
            x.subrange(p.len() as int, x.len() as int),
        )),
{
    let y = x.subrange(p.len() as int, x.len() as int);
    if prepend_all(p, s).contains(x) {
        let i = choose|i: int| 0 <= i < prepend_all(p, s).len() && prepend_all(p, s)[i] == x;
        assert(x == p + s[i]);
        assert(x.subrange(0, p.len() as int) =~= p);
        assert(y =~= s[i]);
    }
    if is_prefix(p, x) && s.contains(y) {
        let i = choose|i: int| 0 <= i < s.len() && s[i] == y;
        assert(p + y =~= x);
        assert(prepend_all(p, s)[i] == x);
    }
}

/// The traversal holds exactly the stored words.
proof fn lemma_enumerate_words(t: Option<Box<TreeNode>>)
    ensures
        forall|x: Seq<char>| enumerate(t).contains(x) <==> has_word(t, x),
    decreases t,
{
    match t {
        None => {},
        Some(n) => {
            lemma_enumerate_words(n.left);
            lemma_enumerate_words(n.mid);
            lemma_enumerate_words(n.right);
            let a = enumerate(n.left);
            let b = own_word(*n);
            let c = prepend_all(seq![n.ch], enumerate(n.mid));
            let d = enumerate(n.right);
            assert forall|x: Seq<char>| enumerate(t).contains(x) <==> has_word(t, x) by {
                assert(enumerate(t) == a + b + c + d);
                lemma_concat_contains(a + b + c, d, x);
                lemma_concat_contains(a + b, c, x);
                lemma_concat_contains(a, b, x);
                lemma_prepend_contains(seq![n.ch], enumerate(n.mid), x);
                let own = x.len() == 1 && x[0] == n.ch && n.str_prio != 0;
                let via_mid = x.len() > 1 && x[0] == n.ch && has_word(n.mid, x.drop_first());
                assert(has_word(t, x) == (has_word(n.left, x) || has_word(n.right, x) || own
                    || via_mid));
                if b.contains(x) {
                    assert(x == seq![n.ch]);
                }
                if own {
                    assert(x =~= seq![n.ch]);
                    assert(b[0] == x);
                }
                assert(b.contains(x) == own);
                if x.len() > 0 {
                    let y = x.subrange(1, x.len() as int);
                    assert(y =~= x.drop_first());
                    if x[0] == n.ch {
                        assert(x.subrange(0, 1) =~= seq![n.ch]);
                    }
                    if c.contains(x) {
                        lemma_word_first_char(n.mid, y);
                    }
                }
                assert(c.contains(x) == via_mid);
            }
        },
    }
}

/// A sequence whose first element is smaller comes first.
proof fn lemma_first_lt(u: Seq<char>, v: Seq<char>)
    requires
        u.len() > 0,
        v.len() > 0,
        u[0] < v[0],
    ensures
        seq_lt(u, v),
{
}

/// Sequences with a common first element compare as their tails do.
proof fn lemma_prepend_lt(p: Seq<char>, x: Seq<char>, y: Seq<char>)
    ensures
        seq_lt(p + x, p + y) == seq_lt(x, y),
        y.len() > 0 ==> seq_lt(p, p + y),
    decreases p.len(),
{
    if p.len() > 0 {
        assert((p + x).drop_first() =~= p.drop_first() + x);
        assert((p + y).drop_first() =~= p.drop_first() + y);
        lemma_prepend_lt(p.drop_first(), x, y);
    }
}

proof fn lemma_prepend_ascending(p: Seq<char>, s: Seq<Seq<char>>)
    requires
        strictly_ascending(s),
    ensures
        strictly_ascending(prepend_all(p, s)),
{
    assert forall|i: int, j: int| 0 <= i < j < prepend_all(p, s).len() implies seq_lt(
        prepend_all(p, s)[i],
        prepend_all(p, s)[j],
    ) by {
        lemma_prepend_lt(p, s[i], s[j]);
    }
}

proof fn lemma_concat_ascending(a: Seq<Seq<char>>, b: Seq<Seq<char>>)
    requires
        strictly_ascending(a),
        strictly_ascending(b),
        forall|i: int, j: int| 0 <= i < a.len() && 0 <= j < b.len() ==> seq_lt(a[i], b[j]),
    ensures
        strictly_ascending(a + b),
{
    assert forall|i: int, j: int| 0 <= i < j < (a + b).len() implies seq_lt((a + b)[i], (a + b)[j]) by {
        if j < a.len() {
        } else if i >= a.len() {
            assert((a + b)[i] == b[i - a.len()]);
            assert((a + b)[j] == b[j - a.len()]);
        } else {
            assert((a + b)[j] == b[j - a.len()]);
        }
    }
}

/// Every word of the traversal is non-empty and starts with a character of
/// its level.
proof fn lemma_enumerate_first(t: Option<Box<TreeNode>>)
    ensures
        forall|i: int|
            0 <= i < enumerate(t).len() ==> (#[trigger] enumerate(t)[i]).len() > 0 && level_has(
                t,
                enumerate(t)[i][0],
            ),
{
    lemma_enumerate_words(t);
    assert forall|i: int| 0 <= i < enumerate(t).len() implies (#[trigger] enumerate(t)[i]).len()
        > 0 && level_has(t, enumerate(t)[i][0]) by {
        assert(enumerate(t).contains(enumerate(t)[i]));
        lemma_word_first_char(t, enumerate(t)[i]);
    }
}

/// The traversal of a well-formed subtree is strictly ascending.
proof fn lemma_enumerate_ascending(t: Option<Box<TreeNode>>)
    requires
        wf(t),
    ensures
        strictly_ascending(enumerate(t)),
    decreases t,
{
    match t {
        None => {},
        Some(n) => {
            lemma_enumerate_ascending(n.left);
            lemma_enumerate_ascending(n.mid);
            lemma_enumerate_ascending(n.right);
            lemma_enumerate_first(n.left);
            lemma_enumerate_first(n.mid);
            lemma_enumerate_first(n.right);
            let a = enumerate(n.left);
            let b = own_word(*n);
            let c = prepend_all(seq![n.ch], enumerate(n.mid));
            let d = enumerate(n.right);
            lemma_prepend_ascending(seq![n.ch], enumerate(n.mid));
            assert forall|i: int| 0 <= i < c.len() implies c[i].len() > 1 && c[i][0] == n.ch by {
                assert(c[i] == seq![n.ch] + enumerate(n.mid)[i]);
                assert(enumerate(n.mid)[i].len() > 0);
            }
            assert forall|i: int, j: int| 0 <= i < b.len() && 0 <= j < c.len() implies seq_lt(
                b[i],
                c[j],
            ) by {
                lemma_prepend_lt(seq![n.ch], Seq::empty(), enumerate(n.mid)[j]);
                assert(seq![n.ch] + Seq::<char>::empty() =~= seq![n.ch]);
            }
            lemma_concat_ascending(a, b);
            assert forall|i: int, j: int|
                0 <= i < (a + b).len() && 0 <= j < c.len() implies seq_lt((a + b)[i], c[j]) by {
                if i >= a.len() {
                    assert((a + b)[i] == b[i - a.len()]);
                } else {
                    assert((a + b)[i] == a[i]);
                    assert(a[i].len() > 0 && level_has(n.left, a[i][0]));
                    lemma_first_lt(a[i], c[j]);
                }
            }
            lemma_concat_ascending(a + b, c);
            assert forall|i: int, j: int|
                0 <= i < (a + b + c).len() && 0 <= j < d.len() implies seq_lt(
                (a + b + c)[i],
                d[j],
            ) by {
                assert(d[j].len() > 0 && level_has(n.right, d[j][0]));
                if i < a.len() {
                    assert((a + b + c)[i] == a[i]);
                    assert(a[i].len() > 0 && level_has(n.left, a[i][0]));
                } else if i < a.len() + b.len() {
                    assert((a + b + c)[i] == b[i - a.len()]);
                } else {
                    assert((a + b + c)[i] == c[i - a.len() - b.len()]);
                }
                lemma_first_lt((a + b + c)[i], d[j]);
            }
            lemma_concat_ascending(a + b + c, d);
        },
    }
}

/// The words below a located node `m` that start with `p`, where `m`
/// represents `p`: `p` itself when a word ends at `m`, and `p` followed by
/// each word of the mid child.
spec fn below(m: Option<TreeNode>, p: Seq<char>, x: Seq<char>) -> bool {
    match m {
        None => false,
        Some(n) => (x == p && n.str_prio != 0) || (is_prefix(p, x) && has_word(
            n.mid,
            x.subrange(p.len() as int, x.len() as int),
        )),
    }
}

/// The stored words that start with a non-empty `p` are exactly the words
/// below the node located for `p`.
proof fn lemma_locate_prefix(t: Option<Box<TreeNode>>, p: Seq<char>)
    requires
        wf(t),
        p.len() > 0,
    ensures
        forall|x: Seq<char>| (has_word(t, x) && is_prefix(p, x)) <==> below(locate(t, p), p, x),
    decreases t,
{
    match t {
        None => {},
        Some(n) => {
            if p[0] < n.ch {
                lemma_locate_prefix(n.left, p);
            } else if n.ch < p[0] {
                lemma_locate_prefix(n.right, p);
            } else if p.len() > 1 {
                lemma_locate_prefix(n.mid, p.drop_first());
            }
            assert forall|x: Seq<char>|
                (has_word(t, x) && is_prefix(p, x)) <==> below(locate(t, p), p, x) by {
                if is_prefix(p, x) {
                    assert(x[0] == x.subrange(0, p.len() as int)[0]);
                }
                if has_word(n.left, x) {
                    lemma_word_first_char(n.left, x);
                }
                if has_word(n.right, x) {
                    lemma_word_first_char(n.right, x);
                }
                let q = x.subrange(p.len() as int, x.len() as int);
                if locate(t, p) is Some && has_word(locate(t, p)->0.mid, q) {
                    lemma_word_first_char(locate(t, p)->0.mid, q);
                }
                if p[0] == n.ch && p.len() == 1 {
                    if x.len() > 0 {
                        assert(q =~= x.drop_first());
                    }
                    if x.len() == 1 && x[0] == n.ch {
                        assert(x =~= p);
                    }
                    if x == p {
                        assert(x.subrange(0, 1) =~= p);
                    }
                    if x.len() > 1 && x[0] == n.ch {
                        assert(x.subrange(0, 1) =~= p);
                    }
                    assert(locate(t, p) == Some(*n));
                    if is_prefix(p, x) {
                        assert(x[0] == n.ch);
                        assert(has_word(t, x) == ((x.len() == 1 && n.str_prio != 0) || (x.len() > 1
                            && has_word(n.mid, x.drop_first()))));
                    }
                    let m = Some(*n);
                    assert(below(m, p, x) == ((x == p && n.str_prio != 0) || (is_prefix(p, x)
                        && has_word(n.mid, q))));
                    if has_word(t, x) && is_prefix(p, x) {
                        if x.len() == 1 {
                            assert(x == p);
                        } else {
                            assert(has_word(n.mid, q));
                        }
                        assert(below(m, p, x));
                    }
                    if below(m, p, x) {
                        if x == p && n.str_prio != 0 {
                            assert(is_prefix(p, x));
                            assert(has_word(t, x));
                        } else {
                            assert(q.len() > 0);
                            assert(has_word(t, x));
                        }
                    }
                    assert((has_word(t, x) && is_prefix(p, x)) <==> below(locate(t, p), p, x));
                } else if p[0] == n.ch && p.len() > 1 && x.len() > 0 && x[0] == p[0] {
                    lemma_prefix_tail(p, x);
                    let xx = x.drop_first();
                    let pp = p.drop_first();
                    assert((has_word(n.mid, xx) && is_prefix(pp, xx)) == below(
                        locate(n.mid, pp),
                        pp,
                        xx,
                    ));
                    assert(locate(t, p) == locate(n.mid, pp));
                    if is_prefix(p, x) {
                        assert(x.len() > 1);
                        assert(has_word(t, x) == has_word(n.mid, xx));
                    }
                    assert(below(locate(t, p), p, x) == below(locate(n.mid, pp), pp, xx));
                } else if p[0] < n.ch {
                    assert(locate(t, p) == locate(n.left, p));
                    assert((has_word(n.left, x) && is_prefix(p, x)) == below(locate(n.left, p), p, x));
                    if is_prefix(p, x) {
                        assert(has_word(t, x) == has_word(n.left, x));
                    }
                } else if n.ch < p[0] {
                    assert(locate(t, p) == locate(n.right, p));
                    assert((has_word(n.right, x) && is_prefix(p, x)) == below(locate(n.right, p), p, x));
                    if is_prefix(p, x) {
                        assert(has_word(t, x) == has_word(n.right, x));
                    }
                } else {
                    assert(!is_prefix(p, x));
                    assert(!below(locate(t, p), p, x));
                }
            }
        },
    }
}

/// Prefix facts carry over to the tails of sequences with equal heads.
proof fn lemma_prefix_tail(p: Seq<char>, x: Seq<char>)
    requires
        p.len() > 0,
        x.len() > 0,
        x[0] == p[0],
    ensures
        is_prefix(p.drop_first(), x.drop_first()) == is_prefix(p, x),
        (x.drop_first() == p.drop_first()) == (x == p),
        x.len() >= p.len() ==> x.drop_first().subrange(p.len() - 1, x.len() - 1) == x.subrange(
            p.len() as int,
            x.len() as int,
        ),
{
    let pp = p.drop_first();
    let xx = x.drop_first();
    if x.len() >= p.len() {
        assert(xx.subrange(p.len() - 1, x.len() - 1) =~= x.subrange(p.len() as int, x.len() as int));
    }
    if is_prefix(pp, xx) {
        assert forall|i: int| 0 <= i < p.len() implies x.subrange(0, p.len() as int)[i] == p[i] by {
            if i > 0 {
                assert(xx.subrange(0, pp.len() as int)[i - 1] == pp[i - 1]);
            }
        }
        assert(x.subrange(0, p.len() as int) =~= p);
    }
    if is_prefix(p, x) {
        assert forall|i: int| 0 <= i < pp.len() implies xx.subrange(0, pp.len() as int)[i]
            == pp[i] by {
            assert(x.subrange(0, p.len() as int)[i + 1] == p[i + 1]);
        }
        assert(xx.subrange(0, pp.len() as int) =~= pp);
    }
    if xx == pp {
        assert forall|i: int| 0 <= i < p.len() implies x[i] == p[i] by {
            if i > 0 {
                assert(x[i] == xx[i - 1]);
                assert(p[i] == pp[i - 1]);
            }
        }
        assert(x =~= p);
    }
}

/// A unit of pending work of the traversal.
enum IterItem<'a> {
    /// A subtree slot, and the characters that lead to it.
    Node(&'a Option<Box<TreeNode>>, String),
    /// A word accepted by the trie.
    Value(String),
}

/// The words a work item stands for, in order.
spec fn item_words(item: IterItem) -> Seq<Seq<char>> {
    match item {
        IterItem::Node(slot, p) => prepend_all(p@, enumerate(*slot)),
        IterItem::Value(v) => seq![v@],
    }
}

/// The words a work stack stands for: the top of the stack (the end of the
/// sequence) comes first.
spec fn stack_words(work: Seq<IterItem>) -> Seq<Seq<char>>
    decreases work.len(),
{
    if work.len() == 0 {
        Seq::empty()
    } else {
        item_words(work.last()) + stack_words(work.drop_last())
    }
}

spec fn size(t: Option<Box<TreeNode>>) -> nat
    decreases t,
{
    match t {
        None => 0,
        Some(n) => 1 + size(n.left) + size(n.mid) + size(n.right),
    }
}

spec fn item_measure(item: IterItem) -> nat {
    match item {
        IterItem::Node(slot, _) => 3 * size(*slot) + 1,
        IterItem::Value(_) => 0,
    }
}

spec fn stack_measure(work: Seq<IterItem>) -> nat
    decreases work.len(),
{
    if work.len() == 0 {
        0
    } else {
        item_measure(work.last()) + stack_measure(work.drop_last())
    }
}

proof fn lemma_stack_push<'a>(work: Seq<IterItem<'a>>, item: IterItem<'a>)
    ensures
        stack_words(work.push(item)) == item_words(item) + stack_words(work),
        stack_measure(work.push(item)) == item_measure(item) + stack_measure(work),
{
    assert(work.push(item).drop_last() =~= work);
}


/// A lazy, single-pass walk over the words of a trie that start with a
/// prefix, in ascending lexicographic order. The walk keeps an explicit
/// stack of pending work.
pub struct Iter<'a> {
    work: Vec<IterItem<'a>>,
}

impl<'a> View for Iter<'a> {
    type V = Seq<Seq<char>>;

    /// The words that are still to come, in order.
    closed spec fn view(&self) -> Seq<Seq<char>> {
        stack_words(self.work@)
    }
}

impl<'a> Iter<'a> {
    /// Walk the whole subtree at `root`.
    fn new(root: &'a Option<Box<TreeNode>>) -> (r: Iter<'a>)
        ensures
            r@ == enumerate(*root),
    {
        let mut work: Vec<IterItem<'a>> = Vec::new();
        let empty = String::new();
        let ghost item = IterItem::Node(root, empty);
        work.push(IterItem::Node(root, empty));
        proof {
            lemma_stack_push(Seq::empty(), item);
            assert(prepend_all(Seq::empty(), enumerate(*root)) =~= enumerate(*root)) by {
                assert forall|i: int| 0 <= i < enumerate(*root).len() implies prepend_all(
                    Seq::empty(),
                    enumerate(*root),
                )[i] == enumerate(*root)[i] by {
                    assert(Seq::<char>::empty() + enumerate(*root)[i] =~= enumerate(*root)[i]);
                }
            }
            assert(Seq::<IterItem<'a>>::empty().push(item) =~= work@);
        }
        Iter { work }
    }

    /// Walk the words below `root`, the node that represents the non-empty
    /// `prefix`: the prefix itself first, if it is a word.
    fn with_prefix(root: Option<&'a TreeNode>, prefix: String) -> (r: Iter<'a>)
        ensures
            r@ == match root {
                None => Seq::empty(),
                Some(n) => own_prefix(*n, prefix@) + prepend_all(prefix@, enumerate(n.mid)),
            },
    {
        let mut items: Vec<IterItem<'a>> = Vec::new();
        if let Some(root) = root {
            items.push(IterItem::Node(&root.mid, prefix.clone()));
            proof {
                lemma_stack_push(Seq::empty(), IterItem::Node(&root.mid, prefix));
                assert(Seq::<IterItem<'a>>::empty().push(IterItem::Node(&root.mid, prefix))
                    =~= items@);
            }
            if root.str_prio != 0 {
                let ghost before = items@;
                items.push(IterItem::Value(prefix));
                proof {
                    lemma_stack_push(before, IterItem::Value(prefix));
                }
            }
            assert(stack_words(items@) =~= own_prefix(*root, prefix@) + prepend_all(
                prefix@,
                enumerate(root.mid),
            ));
        }
        Iter { work: items }
    }

    /// The next word, or `None` when the walk is done.
    pub fn next(&mut self) -> (r: Option<String>)
        ensures
            old(self)@.len() > 0 ==> r is Some && r->0@ == old(self)@[0] && final(self)@ == old(
                self,
            )@.drop_first(),
            old(self)@.len() == 0 ==> r is None && final(self)@ == old(self)@,
    {
        loop
            invariant
                self@ == old(self)@,
            decreases stack_measure(self.work@),
        {
            let ghost before = self.work@;
            match self.work.pop() {
                None => {
                    return None;
                },
                Some(IterItem::Value(v)) => {
                    proof {
                        lemma_stack_push(self.work@, IterItem::Value(v));
                        assert(before =~= self.work@.push(IterItem::Value(v)));
                        assert(seq![v@] + self@ =~= old(self)@);
                        assert(old(self)@.drop_first() =~= self@);
                    }
                    return Some(v);
                },
                Some(IterItem::Node(slot, prefix)) => {
                    let ghost rest = self.work@;
                    proof {
                        lemma_stack_push(rest, IterItem::Node(slot, prefix));
                        assert(before =~= rest.push(IterItem::Node(slot, prefix)));
                    }
                    match slot {
                        None => {},
                        Some(node) => {
                            let mut longer = prefix.clone();
                            push_char(&mut longer, node.ch);
                            self.work.push(IterItem::Node(&node.right, prefix.clone()));
                            self.work.push(IterItem::Node(&node.mid, longer.clone()));
                            if node.str_prio != 0 {
                                self.work.push(IterItem::Value(longer));
                            }
                            self.work.push(IterItem::Node(&node.left, prefix));
                            proof {
                                assert(self.work@.subrange(0, rest.len() as int) =~= rest);
                                lemma_node_words(**node, prefix@, rest, self.work@);
                            }
                        },
                    }
                },
            }
        }
    }
}

/// The prefix itself, when a word ends at the node that represents it.
spec fn own_prefix(n: TreeNode, p: Seq<char>) -> Seq<Seq<char>> {
    if n.str_prio != 0 {
        seq![p]
    } else {
        Seq::empty()
    }
}

/// Expanding a node on the stack into its left subtree, its own word, its
/// mid subtree and its right subtree keeps the words and shrinks the measure.
proof fn lemma_node_words<'a>(
    n: TreeNode,
    p: Seq<char>,
    rest: Seq<IterItem<'a>>,
    work: Seq<IterItem<'a>>,
)
    requires
        work.len() >= rest.len() + 3,
        work.subrange(0, rest.len() as int) == rest,
        ({
            let k = rest.len() as int;
            &&& work[k] matches IterItem::Node(s, q) && *s == n.right && q@ == p
            &&& work[k + 1] matches IterItem::Node(s, q) && *s == n.mid && q@ == p.push(n.ch)
            &&& if n.str_prio != 0 {
                &&& work.len() == rest.len() + 4
                &&& work[k + 2] matches IterItem::Value(v) && v@ == p.push(n.ch)
                &&& work[k + 3] matches IterItem::Node(s, q) && *s == n.left && q@ == p
            } else {
                &&& work.len() == rest.len() + 3
                &&& work[k + 2] matches IterItem::Node(s, q) && *s == n.left && q@ == p
            }
        }),
    ensures
        stack_words(work) == prepend_all(p, enumerate(Some(Box::new(n)))) + stack_words(rest),
        stack_measure(work) < 3 * size(Some(Box::new(n))) + 1 + stack_measure(rest),
{
    let k = rest.len() as int;
    let ch = n.ch;
    let a = enumerate(n.left);
    let b = own_word(n);
    let c = prepend_all(seq![ch], enumerate(n.mid));
    let d = enumerate(n.right);
    let w1 = rest.push(work[k]);
    let w2 = w1.push(work[k + 1]);
    lemma_stack_push(rest, work[k]);
    lemma_stack_push(w1, work[k + 1]);
    let pl = prepend_all(p, a);
    let pb = prepend_all(p, b);
    let pc = prepend_all(p, c);
    let pd = prepend_all(p, d);
    assert(pb =~= own_prefix(n, p.push(ch))) by {
        if n.str_prio != 0 {
            assert(p + seq![ch] =~= p.push(ch));
        }
    }
    assert(pc =~= prepend_all(p.push(ch), enumerate(n.mid))) by {
        assert forall|i: int| 0 <= i < pc.len() implies pc[i] == prepend_all(
            p.push(ch),
            enumerate(n.mid),
        )[i] by {
            assert(p + (seq![ch] + enumerate(n.mid)[i]) =~= p.push(ch) + enumerate(n.mid)[i]);
        }
    }
    assert(prepend_all(p, a + b + c + d) =~= pl + pb + pc + pd);
    assert(enumerate(Some(Box::new(n))) == a + b + c + d);
    if n.str_prio != 0 {
        let w3 = w2.push(work[k + 2]);
        lemma_stack_push(w2, work[k + 2]);
        lemma_stack_push(w3, work[k + 3]);
        assert(work =~= w3.push(work[k + 3]));
        assert(stack_words(work) =~= pl + pb + pc + pd + stack_words(rest));
    } else {
        lemma_stack_push(w2, work[k + 2]);
        assert(work =~= w2.push(work[k + 2]));
        assert(pb =~= Seq::<Seq<char>>::empty());
        assert(stack_words(work) =~= pl + pb + pc + pd + stack_words(rest));
    }
}

/// What the walk below a located node yields is strictly ascending and holds
/// exactly the words below that node.
proof fn lemma_below_listing(n: TreeNode, p: Seq<char>)
    requires
        wf(Some(Box::new(n))),
        p.len() > 0,
    ensures
        strictly_ascending(own_prefix(n, p) + prepend_all(p, enumerate(n.mid))),
        forall|x: Seq<char>|
            (own_prefix(n, p) + prepend_all(p, enumerate(n.mid))).contains(x) <==> below(
                Some(n),
                p,
                x,
            ),
{
    let a = own_prefix(n, p);
    let b = prepend_all(p, enumerate(n.mid));
    lemma_enumerate_ascending(n.mid);
    lemma_enumerate_first(n.mid);
    lemma_enumerate_words(n.mid);
    lemma_prepend_ascending(p, enumerate(n.mid));
    assert forall|i: int, j: int| 0 <= i < a.len() && 0 <= j < b.len() implies seq_lt(
        a[i],
        b[j],
    ) by {
        lemma_prepend_lt(p, Seq::empty(), enumerate(n.mid)[j]);
    }
    lemma_concat_ascending(a, b);
    assert forall|x: Seq<char>| (a + b).contains(x) <==> below(Some(n), p, x) by {
        lemma_concat_contains(a, b, x);
        lemma_prepend_contains(p, enumerate(n.mid), x);
        if a.contains(x) {
            assert(a[0] == x);
        }
        if x == p && n.str_prio != 0 {
            assert(a[0] == x);
        }
    }
}

/// A randomized ternary search trie over non-empty words.
pub struct TernaryTree {
    root: Option<Box<TreeNode>>,
    rng: StdRng,
}

impl View for TernaryTree {
    type V = Set<Seq<char>>;

    /// The set of stored words.
    open spec fn view(&self) -> Set<Seq<char>> {
        Set::new(|w: Seq<char>| has_word(self.root(), w))
    }
}

impl TernaryTree {
    /// The trie's invariant: search order and priority heap order on the
    /// left/right axis of every level, and every balance priority equal to
    /// the larger of the node's word priority and its mid child's balance
    /// priority.
    pub open spec fn wf(&self) -> bool {
        wf(self.root())
    }

    /// The root slot of the trie.
    pub closed spec fn root(&self) -> Option<Box<TreeNode>> {
        self.root
    }

    /// The state of the random number generator.
    pub closed spec fn rng_state(&self) -> StdRng {
        self.rng
    }

    /// The word priority of `w`: non-zero exactly for the stored words.
    pub open spec fn word_priority(&self, w: Seq<char>) -> u32 {
        word_prio(self.root(), w)
    }

    /// Construct an empty trie. The random number generator will be used to
    /// generate word priorities.
    pub fn new(rng: StdRng) -> (r: TernaryTree)
        ensures
            r.wf(),
            r@ == Set::<Seq<char>>::empty(),
            forall|x: Seq<char>| r.word_priority(x) == 0,
    {
        let r = TernaryTree { root: None, rng };
        assert(r@ =~= Set::<Seq<char>>::empty());
        proof {
            reveal(word_prio);
        }
        r
    }

    /// Construct an empty trie whose word priorities are `u32` values drawn
    /// from `rng`.
    pub fn new_with_prio(rng: StdRng) -> (r: TernaryTree)
        ensures
            r.wf(),
            r@ == Set::<Seq<char>>::empty(),
            forall|x: Seq<char>| r.word_priority(x) == 0,
    {
        TernaryTree::new(rng)
    }

    /// Insert a non-empty word. A new word gets a non-zero word priority
    /// and every other word keeps its own. Inserting a stored word again
    /// leaves every node and every priority as it was, and draws no
    /// priority.
    pub fn insert(&mut self, word: &str)
        requires
            old(self).wf(),
            word@.len() > 0,
        ensures
            final(self).wf(),
            final(self)@ == old(self)@.insert(word@),
            final(self).word_priority(word@) != 0,
            forall|x: Seq<char>|
                x != word@ ==> final(self).word_priority(x) == old(self).word_priority(x),
            old(self)@.contains(word@) ==> final(self).root() == old(self).root()
                && final(self).rng_state() == old(self).rng_state(),
    {
        let w = chars_of(word);
        assert(w@.skip(0) =~= w@);
        let root = self.root.take();
        self.root = Some(insert_node(root, &w, 0, &mut self.rng));
        assert(self@ =~= old(self)@.insert(word@));
        proof {
            lemma_word_prio_nonzero(self.root, word@);
        }
    }

    /// Iterate over the words that start with `prefix` (every word, for an
    /// empty prefix): each exactly once, in ascending lexicographic order.
    pub fn prefix_iter<'a>(&'a self, prefix: &str) -> (r: Iter<'a>)
        requires
            self.wf(),
        ensures
            strictly_ascending(r@),
            forall|x: Seq<char>| r@.contains(x) <==> (self@.contains(x) && is_prefix(prefix@, x)),
    {
        if prefix.is_empty() {
            proof {
                lemma_enumerate_ascending(self.root);
                lemma_enumerate_words(self.root);
                assert forall|x: Seq<char>| is_prefix(prefix@, x) by {
                    assert(x.subrange(0, 0) =~= prefix@);
                }
            }
            return Iter::new(&self.root);
        }
        let w = chars_of(prefix);
        assert(w@.skip(0) =~= w@);
        let node = prefix_node(&self.root, &w, 0);
        proof {
            lemma_locate_prefix(self.root, w@);
            if let Some(n) = node {
                lemma_locate_wf(self.root, w@);
                lemma_below_listing(*n, w@);
            }
        }
        Iter::with_prefix(node, prefix.to_owned())
    }

    /// Returns `true` when a non-empty word is in the trie.
    pub fn contains(&self, word: &str) -> (r: bool)
        requires
            self.wf(),
            word@.len() > 0,
        ensures
            r == self@.contains(word@),
    {
        let w = chars_of(word);
        assert(w@.skip(0) =~= w@);
        proof {
            lemma_locate_word(self.root, w@);
        }
        match prefix_node(&self.root, &w, 0) {
            Some(node) => node.str_prio != 0,
            None => false,
        }
    }
}

/// A word is stored in a trie exactly when its word priority is non-zero.
pub proof fn lemma_stored_words_have_priorities(t: &TernaryTree)
    ensures
        forall|w: Seq<char>| t@.contains(w) <==> t.word_priority(w) != 0,
{
    assert forall|w: Seq<char>| t@.contains(w) <==> t.word_priority(w) != 0 by {
        lemma_word_prio_nonzero(t.root(), w);
    }
}

/// No sequence comes before itself.
pub proof fn lemma_seq_lt_irreflexive(a: Seq<char>)
    ensures
        !seq_lt(a, a),
    decreases a.len(),
{
    if a.len() > 0 {
        lemma_seq_lt_irreflexive(a.drop_first());
    }
}

/// Of two sequences, at most one comes before the other.
pub proof fn lemma_seq_lt_asymmetric(a: Seq<char>, b: Seq<char>)
    ensures
        seq_lt(a, b) ==> !seq_lt(b, a),
    decreases a.len(),
{
    if a.len() > 0 && b.len() > 0 && a[0] == b[0] {
        lemma_seq_lt_asymmetric(a.drop_first(), b.drop_first());
    }
}

/// A strictly ascending listing holds no word twice.
pub proof fn lemma_ascending_no_duplicates(s: Seq<Seq<char>>)
    requires
        strictly_ascending(s),
    ensures
        s.no_duplicates(),
{
    assert forall|i: int, j: int| 0 <= i < s.len() && 0 <= j < s.len() && i != j implies s[i]
        != s[j] by {
        lemma_seq_lt_irreflexive(s[i]);
    }
}

/// Two strictly ascending listings of the same words are equal: a listing
/// is determined by the set of words it lists.
pub proof fn lemma_listing_unique(a: Seq<Seq<char>>, b: Seq<Seq<char>>)
    requires
        strictly_ascending(a),
        strictly_ascending(b),
        forall|x: Seq<char>| a.contains(x) <==> b.contains(x),
    ensures
        a == b,
    decreases a.len(),
{
    if a.len() == 0 {
        if b.len() > 0 {
            assert(b.contains(b[0]));
        }
        assert(a =~= b);
    } else {
        assert(a.contains(a[0]));
        let j = choose|j: int| 0 <= j < b.len() && b[j] == a[0];
        assert(a.contains(b[0]));
        let i = choose|i: int| 0 <= i < a.len() && a[i] == b[0];
        if j > 0 {
            lemma_seq_lt_asymmetric(a[0], b[0]);
            lemma_seq_lt_irreflexive(a[0]);
            assert(seq_lt(b[0], a[0]));
            if i > 0 {
                assert(seq_lt(a[0], b[0]));
            }
            assert(false);
        }
        let a1 = a.drop_first();
        let b1 = b.drop_first();
        assert forall|x: Seq<char>| a1.contains(x) <==> b1.contains(x) by {
            if a1.contains(x) {
                let k = choose|k: int| 0 <= k < a1.len() && a1[k] == x;
                assert(a[k + 1] == x);
                assert(seq_lt(a[0], a[k + 1]));
                lemma_seq_lt_irreflexive(x);
                assert(a.contains(x));
                assert(b[0] == a[0]);
                let m = choose|m: int| 0 <= m < b.len() && b[m] == x;
                assert(m != 0);
                assert(b1[m - 1] == x);
            }
            if b1.contains(x) {
                let k = choose|k: int| 0 <= k < b1.len() && b1[k] == x;
                assert(b[k + 1] == x);
                assert(seq_lt(b[0], b[k + 1]));
                lemma_seq_lt_irreflexive(x);
                assert(b.contains(x));
                assert(a.contains(x));
                assert(b[0] == a[0]);
                let m = choose|m: int| 0 <= m < a.len() && a[m] == x;
                assert(m != 0);
                assert(a1[m - 1] == x);
            }
        }
        assert(strictly_ascending(a1));
        assert(strictly_ascending(b1)) by {
            assert forall|p: int, q: int| 0 <= p < q < b1.len() implies seq_lt(b1[p], b1[q]) by {
                assert(b1[p] == b[p + 1] && b1[q] == b[q + 1]);
            }
        }
        lemma_listing_unique(a1, b1);
        assert(a =~= b) by {
            assert forall|k: int| 0 <= k < a.len() implies a[k] == b[k] by {
                if k > 0 {
                    assert(a[k] == a1[k - 1]);
                    assert(b[k] == b1[k - 1]);
                }
            }
        }
    }
}

/// The words stored after inserting the words of `ws`, one after another,
/// into an empty trie, as the contracts of `TernaryTree::new` and
/// `TernaryTree::insert` describe them.
pub open spec fn words_after_inserts(ws: Seq<Seq<char>>) -> Set<Seq<char>>
    decreases ws.len(),
{
    if ws.len() == 0 {
        Set::empty()
    } else {
        words_after_inserts(ws.drop_last()).insert(ws.last())
    }
}

/// After inserting a sequence of words into an empty trie, a word is a
/// member exactly when it was inserted.
pub proof fn lemma_inserted_words_are_members(ws: Seq<Seq<char>>)
    ensures
        forall|w: Seq<char>| words_after_inserts(ws).contains(w) <==> ws.contains(w),
    decreases ws.len(),
{
    if ws.len() > 0 {
        lemma_inserted_words_are_members(ws.drop_last());
        assert forall|w: Seq<char>| words_after_inserts(ws).contains(w) <==> ws.contains(w) by {
            if ws.drop_last().contains(w) {
                let k = choose|k: int| 0 <= k < ws.drop_last().len() && ws.drop_last()[k] == w;
                assert(ws[k] == w);
            }
            if ws.contains(w) && w != ws.last() {
                let k = choose|k: int| 0 <= k < ws.len() && ws[k] == w;
                assert(ws.drop_last()[k] == w);
            }
        }
    }
}

/// The empty prefix lists every stored word, each once, in ascending order.
pub proof fn lemma_empty_prefix_lists_all(words: Set<Seq<char>>, listed: Seq<Seq<char>>)
    requires
        strictly_ascending(listed),
        forall|x: Seq<char>|
            listed.contains(x) <==> (words.contains(x) && is_prefix(Seq::empty(), x)),
    ensures
        listed.to_set() == words,
        listed.no_duplicates(),
{
    lemma_ascending_no_duplicates(listed);
    assert forall|x: Seq<char>| listed.to_set().contains(x) <==> words.contains(x) by {
        assert(x.subrange(0, 0) =~= Seq::<char>::empty());
    }
    assert(listed.to_set() =~= words);
}

/// Inserting a word a second time changes neither the stored words nor any
/// prefix listing: listings of the words after one insertion and after two
/// are the same.
pub proof fn lemma_insert_idempotent(
    words: Set<Seq<char>>,
    w: Seq<char>,
    p: Seq<char>,
    once: Seq<Seq<char>>,
    twice: Seq<Seq<char>>,
)
    requires
        strictly_ascending(once),
        strictly_ascending(twice),
        forall|x: Seq<char>| once.contains(x) <==> (words.insert(w).contains(x) && is_prefix(p, x)),
        forall|x: Seq<char>|
            twice.contains(x) <==> (words.insert(w).insert(w).contains(x) && is_prefix(p, x)),
    ensures
        words.insert(w).insert(w) == words.insert(w),
        once == twice,
{
    assert(words.insert(w).insert(w) =~= words.insert(w));
    lemma_listing_unique(once, twice);
}

impl TrieContains for TernaryTree {
    open spec fn well_formed(&self) -> bool {
        self.wf()
    }

    open spec fn words(&self) -> Set<Seq<char>> {
        self@
    }

    fn contains(&self, word: &str) -> (r: bool) {
        TernaryTree::contains(self, word)
    }
}

impl TriePrefixIter for TernaryTree {
    open spec fn well_formed(&self) -> bool {
        self.wf()
    }

    open spec fn words(&self) -> Set<Seq<char>> {
        self@
    }

    fn prefix_iter<'a>(&'a self, prefix: &str) -> (r: Iter<'a>) {
        TernaryTree::prefix_iter(self, prefix)
    }
}

impl TrieInsert for TernaryTree {
    open spec fn well_formed(&self) -> bool {
        self.wf()
    }

    open spec fn words(&self) -> Set<Seq<char>> {
        self@
    }

    fn insert(&mut self, word: &str) {
        TernaryTree::insert(self, word)
    }
}

impl Trie for TernaryTree {

}

} // verus!
