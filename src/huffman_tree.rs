//! Huffman code builder over byte symbols: normalizes the weighted symbols,
//! merges them pairwise in a flat node array, and reads codes off the tree.
use std::collections::HashMap;

use vstd::prelude::*;

verus! {

broadcast use vstd::std_specs::hash::group_hash_axioms;

/// `x` orders before `y`: by symbol, then by weight.
pub open spec fn entry_lt(x: (u8, usize), y: (u8, usize)) -> bool {
    x.0 < y.0 || (x.0 == y.0 && x.1 < y.1)
}

/// Entries in strictly increasing order, hence without repeats.
pub open spec fn strictly_sorted(s: Seq<(u8, usize)>) -> bool {
    forall|i: int, j: int| 0 <= i < j < s.len() ==> entry_lt(s[i], s[j])
}

/// `a` and `b` hold the same entries, counted without multiplicity.
pub open spec fn same_entries(a: Seq<(u8, usize)>, b: Seq<(u8, usize)>) -> bool {
    forall|x: (u8, usize)| a.contains(x) <==> b.contains(x)
}

/// `out` is `input` sorted by symbol then weight, with repeated entries dropped.
pub open spec fn normalizes(input: Seq<(u8, usize)>, out: Seq<(u8, usize)>) -> bool {
    strictly_sorted(out) && same_entries(input, out)
}

proof fn lemma_contains_push<A>(s: Seq<A>, x: A, y: A)
    ensures
        s.push(x).contains(y) <==> (s.contains(y) || y == x),
{
    if s.contains(y) {
        let i = choose|i: int| 0 <= i < s.len() && s[i] == y;
        assert(s.push(x)[i] == y);
    }
    if y == x {
        assert(s.push(x)[s.len() as int] == y);
    }
}

proof fn lemma_contains_insert(s: Seq<(u8, usize)>, p: int, x: (u8, usize), y: (u8, usize))
    requires
        0 <= p <= s.len(),
    ensures
        s.insert(p, x).contains(y) <==> (s.contains(y) || y == x),
{
    let t = s.insert(p, x);
    if s.contains(y) {
        let i = choose|i: int| 0 <= i < s.len() && s[i] == y;
        if i < p {
            assert(t[i] == y);
        } else {
            assert(t[i + 1] == y);
        }
    }
    if y == x {
        assert(t[p] == y);
    }
    if t.contains(y) {
        let i = choose|i: int| 0 <= i < t.len() && t[i] == y;
        if i < p {
            assert(s[i] == y);
        } else if i > p {
            assert(s[i - 1] == y);
        }
    }
}

proof fn lemma_total_weight_insert(s: Seq<(u8, usize)>, p: int, x: (u8, usize))
    requires
        0 <= p <= s.len(),
    ensures
        total_weight(s.insert(p, x)) == total_weight(s) + x.1,
    decreases s.len(),
{
    if p == s.len() {
        assert(s.insert(p, x).drop_last() =~= s);
    } else {
        lemma_total_weight_insert(s.drop_last(), p, x);
        assert(s.insert(p, x).drop_last() =~= s.drop_last().insert(p, x));
    }
}

/// Two strictly sorted sequences with the same entries are equal.
pub proof fn lemma_normal_form_unique(a: Seq<(u8, usize)>, b: Seq<(u8, usize)>)
    requires
        strictly_sorted(a),
        strictly_sorted(b),
        same_entries(a, b),
    ensures
        a == b,
    decreases a.len(),
{
    if a.len() == 0 {
        if b.len() > 0 {
            assert(b.contains(b[0]));
        }
        assert(a =~= b);
    } else {
        assert(a.contains(a[0]));
        assert(b.len() > 0);
        assert(b.contains(b[0]));
        let j = choose|j: int| 0 <= j < b.len() && b[j] == a[0];
        let i = choose|i: int| 0 <= i < a.len() && a[i] == b[0];
        if j > 0 {
            assert(entry_lt(b[0], b[j]));
            if i > 0 {
                assert(entry_lt(a[0], a[i]));
            }
        }
        assert(a[0] == b[0]);
        let a1 = a.drop_first();
        let b1 = b.drop_first();
        assert forall|x: (u8, usize)| a1.contains(x) <==> b1.contains(x) by {
            if a1.contains(x) {
                let k = choose|k: int| 0 <= k < a1.len() && a1[k] == x;
                assert(a[k + 1] == x);
                assert(entry_lt(a[0], a[k + 1]));
                assert(b.contains(x));
                let m = choose|m: int| 0 <= m < b.len() && b[m] == x;
                assert(m != 0);
                assert(b1[m - 1] == x);
            }
            if b1.contains(x) {
                let k = choose|k: int| 0 <= k < b1.len() && b1[k] == x;
                assert(b[k + 1] == x);
                assert(entry_lt(b[0], b[k + 1]));
                assert(a.contains(x));
                let m = choose|m: int| 0 <= m < a.len() && a[m] == x;
                assert(m != 0);
                assert(a1[m - 1] == x);
            }
        }
        lemma_normal_form_unique(a1, b1);
        assert(a =~= seq![a[0]] + a1);
        assert(b =~= seq![b[0]] + b1);
    }
}

fn entry_less(x: (u8, usize), y: (u8, usize)) -> (r: bool)
    ensures
        r == entry_lt(x, y),
{
    x.0 < y.0 || (x.0 == y.0 && x.1 < y.1)
}

/// Sorts the entries by symbol, then weight, and drops repeated entries; two
/// entries with one symbol and different weights both stay.
fn sort_then_unique(init_list: &mut Vec<(u8, usize)>)
    ensures
        normalizes(old(init_list)@, final(init_list)@),
        final(init_list)@.len() <= old(init_list)@.len(),
        total_weight(final(init_list)@) <= total_weight(old(init_list)@),
{
    let mut out: Vec<(u8, usize)> = Vec::new();
    let mut k: usize = 0;
    while k < init_list.len()
        invariant
            k <= init_list@.len(),
            out@.len() <= k,
            strictly_sorted(out@),
            same_entries(init_list@.take(k as int), out@),
            total_weight(out@) <= total_weight(init_list@.take(k as int)),
        decreases init_list@.len() - k,
    {
        let x = init_list[k];
        let mut p: usize = 0;
        while p < out.len() && entry_less(out[p], x)
            invariant
                p <= out@.len(),
                forall|q: int| 0 <= q < p ==> entry_lt(out@[q], x),
            decreases out@.len() - p,
        {
            p = p + 1;
        }
        let ghost before = out@;
        assert(init_list@.take(k + 1) =~= init_list@.take(k as int).push(x));
        assert(init_list@.take(k + 1).drop_last() =~= init_list@.take(k as int));
        if p < out.len() && out[p].0 == x.0 && out[p].1 == x.1 {
            proof {
                assert forall|y: (u8, usize)| init_list@.take(k + 1).contains(y) <==> out@.contains(y) by {
                    lemma_contains_push(init_list@.take(k as int), x, y);
                    assert(out@[p as int] == x);
                }
            }
        } else {
            out.insert(p, x);
            proof {
                lemma_total_weight_insert(before, p as int, x);
                assert forall|i: int, j: int| 0 <= i < j < out@.len() implies entry_lt(out@[i], out@[j]) by {
                    if p < before.len() {
                        assert(entry_lt(x, before[p as int]));
                    }
                    if i < p && j > p {
                        assert(entry_lt(before[i], x));
                    }
                    if i == p && j > p + 1 {
                        assert(entry_lt(before[p as int], before[j - 1]));
                    }
                }
                assert forall|y: (u8, usize)| init_list@.take(k + 1).contains(y) <==> out@.contains(y) by {
                    lemma_contains_push(init_list@.take(k as int), x, y);
                    lemma_contains_insert(before, p as int, x, y);
                }
            }
        }
        k = k + 1;
    }
    proof {
        assert(init_list@.take(k as int) =~= init_list@);
    }
    *init_list = out;
}

/// One node of the merge, as numbers: its weight and its links.
pub struct Slot {
    pub weight: nat,
    pub parent: Option<usize>,
    pub left: Option<usize>,
    pub right: Option<usize>,
}

/// Sum of the weights of the entries.
pub open spec fn total_weight(s: Seq<(u8, usize)>) -> nat
    decreases s.len(),
{
    if s.len() == 0 {
        0
    } else {
        total_weight(s.drop_last()) + s.last().1 as nat
    }
}

/// The `2n - 1` slots before any merge: the entries' weights in `0..n`, the
/// rest empty, no links.
pub open spec fn initial_slots(s: Seq<(u8, usize)>) -> Seq<Slot> {
    Seq::new((2 * s.len() - 1) as nat, |k: int| Slot {
        weight: if k < s.len() { s[k].1 as nat } else { 0 },
        parent: None,
        left: None,
        right: None,
    })
}

/// Among slots `0..i` without a parent, leaving out `skip`, the first index of
/// the smallest weight; -1 when there is none.
pub open spec fn pick(m: Seq<Slot>, i: int, skip: int) -> int
    decreases i,
{
    if i <= 0 {
        -1
    } else {
        let r = pick(m, i - 1, skip);
        let k = i - 1;
        if k == skip || m[k].parent is Some {
            r
        } else if r < 0 || m[k].weight < m[r].weight {
            k
        } else {
            r
        }
    }
}

/// Merge into slot `i` the two lightest slots below it that have no parent:
/// the first found becomes the left child, the second the right child.
pub open spec fn merge_step(m: Seq<Slot>, i: int) -> Seq<Slot> {
    let a = pick(m, i, -1);
    let b = pick(m, i, a);
    m.update(i, Slot { weight: m[a].weight + m[b].weight, parent: None, left: Some(a as usize), right: Some(b as usize) })
        .update(a, Slot { parent: Some(i as usize), ..m[a] })
        .update(b, Slot { parent: Some(i as usize), ..m[b] })
}

/// The slots once internal slots `n..i` are merged.
pub open spec fn merged(s: Seq<(u8, usize)>, i: nat) -> Seq<Slot>
    decreases i,
{
    if i <= s.len() {
        initial_slots(s)
    } else {
        merge_step(merged(s, (i - 1) as nat), i - 1)
    }
}

/// The finished tree; its root is the last slot.
pub open spec fn final_slots(s: Seq<(u8, usize)>) -> Seq<Slot> {
    merged(s, (2 * s.len() - 1) as nat)
}

/// The path from the root to slot `k`: `0` for each left edge, `1` for each right edge.
pub open spec fn tree_code(m: Seq<Slot>, k: int) -> Seq<char>
    decreases m.len() - k,
{
    if 0 <= k < m.len() {
        match m[k].parent {
            Some(p) => if k < p < m.len() {
                tree_code(m, p as int).push(if m[p as int].left == Some(k as usize) { '0' } else { '1' })
            } else {
                Seq::empty()
            },
            None => Seq::empty(),
        }
    } else {
        Seq::empty()
    }
}

/// Total weight of the slots `0..i` that have no parent.
pub open spec fn open_weight(m: Seq<Slot>, i: int) -> nat
    decreases i,
{
    if i <= 0 {
        0
    } else {
        open_weight(m, i - 1) + if m[i - 1].parent is None { m[i - 1].weight } else { 0 }
    }
}

/// Number of the slots `0..i` that have no parent.
pub open spec fn open_count(m: Seq<Slot>, i: int) -> nat
    decreases i,
{
    if i <= 0 {
        0
    } else {
        open_count(m, i - 1) + if m[i - 1].parent is None { 1nat } else { 0 }
    }
}

proof fn lemma_pick_range(m: Seq<Slot>, i: int, skip: int)
    requires
        0 <= i <= m.len(),
    ensures
        -1 <= pick(m, i, skip) < i,
        pick(m, i, skip) >= 0 ==> pick(m, i, skip) != skip && m[pick(m, i, skip)].parent is None,
        open_count(m, i) >= (if 0 <= skip < i && m[skip].parent is None { 2nat } else { 1nat }) ==> pick(m, i, skip) >= 0,
    decreases i,
{
    if i > 0 {
        lemma_pick_range(m, i - 1, skip);
    }
}

proof fn lemma_pick_skip_past(m: Seq<Slot>, i: int, skip: int)
    requires
        skip >= i,
    ensures
        pick(m, i, skip) == pick(m, i, -1),
    decreases i,
{
    if i > 0 {
        lemma_pick_skip_past(m, i - 1, skip);
    }
}

/// Two open slots weigh together at most all open slots, and make at least two.
proof fn lemma_open_pair(m: Seq<Slot>, i: int, x: int, y: int)
    requires
        i <= m.len(),
        0 <= x < i,
        0 <= y < i,
        x != y,
        m[x].parent is None,
        m[y].parent is None,
    ensures
        m[x].weight + m[y].weight <= open_weight(m, i),
        open_count(m, i) >= 2,
    decreases i,
{
    if x != i - 1 && y != i - 1 {
        lemma_open_pair(m, i - 1, x, y);
    } else {
        let z = if x == i - 1 { y } else { x };
        lemma_open_one(m, i - 1, z);
    }
}

proof fn lemma_open_one(m: Seq<Slot>, i: int, x: int)
    requires
        i <= m.len(),
        0 <= x < i,
        m[x].parent is None,
    ensures
        m[x].weight <= open_weight(m, i),
        open_count(m, i) >= 1,
    decreases i,
{
    if x != i - 1 {
        lemma_open_one(m, i - 1, x);
    }
}

/// Slots that agree below `i` but for `a` gaining a parent: `a`'s weight and one
/// slot leave the open totals.
proof fn lemma_close(m: Seq<Slot>, m2: Seq<Slot>, i: int, a: int)
    requires
        i <= m.len(),
        m2.len() == m.len(),
        0 <= a,
        forall|k: int| 0 <= k < i && k != a ==> (#[trigger] m2[k]).weight == m[k].weight && (m2[k].parent is None <==> m[k].parent is None),
        a < i ==> m[a].parent is None && m2[a].parent is Some,
    ensures
        a < i ==> open_weight(m2, i) + m[a].weight == open_weight(m, i),
        a < i ==> open_count(m2, i) + 1 == open_count(m, i),
        a >= i ==> open_weight(m2, i) == open_weight(m, i),
        a >= i ==> open_count(m2, i) == open_count(m, i),
    decreases i,
{
    if i > 0 {
        lemma_close(m, m2, i - 1, a);
    }
}

proof fn lemma_total_weight_initial(s: Seq<(u8, usize)>, i: int)
    requires
        s.len() >= 1,
        0 <= i <= s.len(),
    ensures
        open_weight(initial_slots(s), i) == total_weight(s.take(i)),
        open_count(initial_slots(s), i) == i,
    decreases i,
{
    if i > 0 {
        lemma_total_weight_initial(s, i - 1);
        assert(s.take(i).drop_last() =~= s.take(i - 1));
    }
}

/// The shape of the slots once internal slots `n..i` are merged: open totals,
/// untouched slots past `i`, and parent and child links that agree.
pub open spec fn merged_inv(s: Seq<(u8, usize)>, m: Seq<Slot>, i: int) -> bool {
    let n = s.len() as int;
    &&& m.len() == 2 * n - 1
    &&& m.len() <= usize::MAX
    &&& n <= i <= 2 * n - 1
    &&& open_weight(m, i) == total_weight(s)
    &&& open_count(m, i) == 2 * n - i
    &&& forall|k: int| i <= k < m.len() ==> (#[trigger] m[k]) == initial_slots(s)[k]
    &&& forall|k: int| 0 <= k < n ==> (#[trigger] m[k]).weight == s[k].1 && m[k].left is None && m[k].right is None
    &&& forall|k: int| 0 <= k < i && (#[trigger] m[k]).parent is Some ==> {
        let p = m[k].parent->0 as int;
        &&& k < p < i
        &&& (m[p].left == Some(k as usize) || m[p].right == Some(k as usize))
    }
    &&& forall|p: int| n <= p < i ==> {
        &&& (#[trigger] m[p]).left is Some
        &&& m[p].right is Some
        &&& m[p].left->0 != m[p].right->0
        &&& m[p].left->0 < p
        &&& m[p].right->0 < p
        &&& m[m[p].left->0 as int].parent == Some(p as usize)
        &&& m[m[p].right->0 as int].parent == Some(p as usize)
    }
}

proof fn lemma_merged_inv(s: Seq<(u8, usize)>, i: nat)
    requires
        s.len() >= 1,
        s.len() <= i <= 2 * s.len() - 1,
        2 * s.len() - 1 <= usize::MAX,
    ensures
        merged_inv(s, merged(s, i), i as int),
    decreases i,
{
    let n = s.len() as int;
    if i == n {
        lemma_total_weight_initial(s, n);
        assert(s.take(n) =~= s);
    } else {
        lemma_merged_inv(s, (i - 1) as nat);
        lemma_merge_step_inv(s, merged(s, (i - 1) as nat), i - 1);
    }
}

/// One merge keeps the shape of the slots.
#[verifier::rlimit(80)]
proof fn lemma_merge_step_inv(s: Seq<(u8, usize)>, m: Seq<Slot>, j: int)
    requires
        merged_inv(s, m, j),
        j < 2 * s.len() - 1,
    ensures
        merged_inv(s, merge_step(m, j), j + 1),
{
    let n = s.len() as int;
    let i = j + 1;
    let a = pick(m, j, -1);
    let b = pick(m, j, a);
    lemma_pick_range(m, j, -1);
    lemma_pick_range(m, j, a);
    let mi = m.update(j, Slot { weight: m[a].weight + m[b].weight, parent: None, left: Some(a as usize), right: Some(b as usize) });
    let ma = mi.update(a, Slot { parent: Some(j as usize), ..m[a] });
    let m2 = ma.update(b, Slot { parent: Some(j as usize), ..m[b] });
    assert(merge_step(m, j) == m2);
    assert(m[j] == initial_slots(s)[j]);
    assert(0 <= a < j && 0 <= b < j && a != b);
    assert forall|k: int| 0 <= k < m.len() implies {
        &&& (#[trigger] m2[k]).left == (if k == j { Some(a as usize) } else { m[k].left })
        &&& m2[k].right == (if k == j { Some(b as usize) } else { m[k].right })
        &&& m2[k].parent == (if k == a || k == b { Some(j as usize) } else { m[k].parent })
        &&& m2[k].weight == (if k == j { m[a].weight + m[b].weight } else { m[k].weight })
    } by {}
    lemma_close(m, ma, j, a);
    lemma_close(ma, m2, j, b);
    assert(open_weight(m2, i) == open_weight(m2, j) + m2[j].weight);
    assert(open_count(m2, i) == open_count(m2, j) + 1);
    assert forall|k: int| i <= k < m2.len() implies (#[trigger] m2[k]) == initial_slots(s)[k] by {
        assert(m2[k] == m[k]);
    }
    assert forall|k: int| 0 <= k < n implies (#[trigger] m2[k]).weight == s[k].1 && m2[k].left is None && m2[k].right is None by {
        assert(m2[k].weight == m[k].weight && m2[k].left == m[k].left && m2[k].right == m[k].right);
    }
    assert forall|k: int| 0 <= k < i && (#[trigger] m2[k]).parent is Some implies ({
        let p = m2[k].parent->0 as int;
        &&& k < p < i
        &&& (m2[p].left == Some(k as usize) || m2[p].right == Some(k as usize))
    }) by {
        if k != a && k != b {
            let p = m[k].parent->0 as int;
            assert(m[k].parent is Some);
            assert(k < p < j);
            assert(m2[p].left == m[p].left && m2[p].right == m[p].right);
        } else {
            assert(m2[k].parent == Some(j as usize));
            assert(m2[j].left == Some(a as usize) && m2[j].right == Some(b as usize));
        }
    }
    assert forall|p: int| n <= p < i implies {
        &&& (#[trigger] m2[p]).left is Some
        &&& m2[p].right is Some
        &&& m2[p].left->0 != m2[p].right->0
        &&& m2[p].left->0 < p
        &&& m2[p].right->0 < p
        &&& m2[m2[p].left->0 as int].parent == Some(p as usize)
        &&& m2[m2[p].right->0 as int].parent == Some(p as usize)
    } by {
        if p < j {
            assert(m2[p].left == m[p].left && m2[p].right == m[p].right);
            let l = m[p].left->0 as int;
            let r = m[p].right->0 as int;
            assert(m[l].parent is Some && m[r].parent is Some);
            assert(l != a && l != b && r != a && r != b);
            assert(m2[l] == m[l] && m2[r] == m[r]);
        }
    }
}

/// One node of the flat tree.
struct Node {
    value: Option<u8>,
    index: usize,
    weight: usize,
    bits_string: String,
    i_parent: Option<usize>,
    i_left: Option<usize>,
    i_right: Option<usize>,
}

/// A node with no symbol, weight, code or links.
spec fn is_blank(nd: Node) -> bool {
    &&& nd.value is None
    &&& nd.index == 0
    &&& nd.weight == 0
    &&& nd.bits_string@ == Seq::<char>::empty()
    &&& nd.i_parent is None
    &&& nd.i_left is None
    &&& nd.i_right is None
}

impl Node {
    /// A node with no symbol, weight, code or links.
    fn blank() -> (r: Self)
        ensures
            is_blank(r),
    {
        Node {
            value: None,
            index: 0,
            weight: 0,
            bits_string: String::new(),
            i_parent: None,
            i_left: None,
            i_right: None,
        }
    }
}

impl Node {
    /// This node with another weight and other children.
    fn with_links(&self, weight: usize, left: Option<usize>, right: Option<usize>) -> (r: Node)
        ensures
            r == (Node { weight, i_left: left, i_right: right, ..*self }),
    {
        Node {
            value: self.value,
            index: self.index,
            weight,
            bits_string: self.bits_string.clone(),
            i_parent: self.i_parent,
            i_left: left,
            i_right: right,
        }
    }

    /// This node with another parent.
    fn with_parent(&self, parent: Option<usize>) -> (r: Node)
        ensures
            r == (Node { i_parent: parent, ..*self }),
    {
        Node {
            value: self.value,
            index: self.index,
            weight: self.weight,
            bits_string: self.bits_string.clone(),
            i_parent: parent,
            i_left: self.i_left,
            i_right: self.i_right,
        }
    }

    /// This node with another code.
    fn with_code(&self, code: String) -> (r: Node)
        ensures
            r == (Node { bits_string: code, ..*self }),
    {
        Node {
            value: self.value,
            index: self.index,
            weight: self.weight,
            bits_string: code,
            i_parent: self.i_parent,
            i_left: self.i_left,
            i_right: self.i_right,
        }
    }
}

/// Node `nd` holds the weight and links of slot `sl`.
spec fn slot_of(nd: Node, sl: Slot) -> bool {
    &&& nd.weight == sl.weight
    &&& nd.i_parent == sl.parent
    &&& nd.i_left == sl.left
    &&& nd.i_right == sl.right
}

/// Node `k` for the normalized entries `s` in the merge state `m`, with no code yet.
spec fn built_node(nd: Node, s: Seq<(u8, usize)>, m: Seq<Slot>, k: int) -> bool {
    &&& slot_of(nd, m[k])
    &&& nd.index == k
    &&& nd.bits_string@ == Seq::<char>::empty()
    &&& if k < s.len() {
        nd.value == Some(s[k].0)
    } else {
        nd.value is None
    }
}

/// The code of leaf `k` of the finished tree for the normalized entries `s`.
pub open spec fn leaf_code(s: Seq<(u8, usize)>, k: int) -> Seq<char> {
    tree_code(final_slots(s), k)
}

/// The map from symbol to code over leaves `0..k`, a later leaf of a symbol
/// replacing an earlier one.
pub open spec fn code_map(s: Seq<(u8, usize)>, k: nat) -> Map<u8, Seq<char>>
    decreases k,
{
    if k == 0 {
        Map::empty()
    } else {
        code_map(s, (k - 1) as nat).insert(s[k - 1].0, leaf_code(s, k - 1))
    }
}

/// The symbol-to-code map that a build over the normalized entries `s` yields.
pub open spec fn huffman_codes(s: Seq<(u8, usize)>) -> Map<u8, Seq<char>> {
    code_map(s, s.len())
}

/// `m` with each of the first `k` nodes' code inserted under its symbol, in
/// order, so that a later node of a symbol replaces an earlier one.
spec fn leaf_inserts(m: Map<u8, String>, nodes: Seq<Node>, k: nat) -> Map<u8, String>
    decreases k,
{
    if k == 0 {
        m
    } else {
        leaf_inserts(m, nodes, (k - 1) as nat).insert(nodes[k - 1].value.unwrap(), nodes[k - 1].bits_string)
    }
}

/// Over leaves whose symbols and codes follow `s`, the inserted codes are `code_map`.
proof fn lemma_leaf_inserts_codes(nodes: Seq<Node>, s: Seq<(u8, usize)>, k: nat)
    requires
        k <= s.len(),
        s.len() <= nodes.len(),
        forall|j: int| 0 <= j < s.len() ==> (#[trigger] nodes[j]).value == Some(s[j].0),
        forall|j: int| 0 <= j < s.len() ==> (#[trigger] nodes[j]).bits_string@ == leaf_code(s, j),
    ensures
        leaf_inserts(Map::empty(), nodes, k).map_values(|v: String| v@) == code_map(s, k),
    decreases k,
{
    if k == 0 {
        assert(Map::<u8, String>::empty().map_values(|v: String| v@) =~= code_map(s, 0));
    } else {
        lemma_leaf_inserts_codes(nodes, s, (k - 1) as nat);
        let prev = leaf_inserts(Map::empty(), nodes, (k - 1) as nat);
        let nd = nodes[k - 1];
        assert(leaf_inserts(Map::empty(), nodes, k) == prev.insert(s[k - 1].0, nd.bits_string));
        assert(prev.insert(s[k - 1].0, nd.bits_string).map_values(|v: String| v@) =~= prev.map_values(|v: String| v@).insert(s[k - 1].0, nd.bits_string@));
    }
}


/// Node `nd` links to `c` through its right child slot (`right`) or its left one.
spec fn links_to(nd: Node, right: bool, c: int) -> bool {
    match if right { nd.i_right } else { nd.i_left } {
        Some(x) => x as int == c,
        None => false,
    }
}

/// `c` is a child of `nd`.
spec fn child_of(nd: Node, c: int) -> bool {
    links_to(nd, false, c) || links_to(nd, true, c)
}

/// Every link points to a lower index.
spec fn links_down(nodes: Seq<Node>) -> bool {
    forall|k: int, r: bool, c: int| 0 <= k < nodes.len() && #[trigger] links_to(nodes[k], r, c) ==> 0 <= c < k
}

/// Some child slot links to `c`.
spec fn has_parent(nodes: Seq<Node>, c: int) -> bool {
    exists|k: int, r: bool| 0 <= k < nodes.len() && #[trigger] links_to(nodes[k], r, c)
}

/// The links form one tree rooted at the last node: every other node is
/// linked from exactly one child slot.
spec fn tree_shaped(nodes: Seq<Node>) -> bool {
    &&& forall|c: int| 0 <= c < nodes.len() - 1 ==> #[trigger] has_parent(nodes, c)
    &&& forall|c: int, k1: int, r1: bool, k2: int, r2: bool|
        0 <= k1 < nodes.len() && 0 <= k2 < nodes.len() && #[trigger] links_to(nodes[k1], r1, c) && #[trigger] links_to(nodes[k2], r2, c)
            ==> k1 == k2 && r1 == r2
}

/// The code character of a right (`'1'`) or left (`'0'`) edge.
spec fn bit_char(right: bool) -> char {
    if right {
        '1'
    } else {
        '0'
    }
}

/// `a` and `b` agree on everything but the code.
spec fn same_but_code(a: Node, b: Node) -> bool {
    a == (Node { bits_string: a.bits_string, ..b })
}

spec fn pow3(k: nat) -> nat
    decreases k,
{
    if k == 0 {
        1
    } else {
        3 * pow3((k - 1) as nat)
    }
}

/// Work left in a queue of node indices: a node stands for itself and all
/// that lies below it.
spec fn pot(q: Seq<usize>) -> nat
    decreases q.len(),
{
    if q.len() == 0 {
        0
    } else {
        pot(q.drop_last()) + pow3(q.last() as nat)
    }
}

proof fn lemma_pot_concat(a: Seq<usize>, b: Seq<usize>)
    ensures
        pot(a + b) == pot(a) + pot(b),
    decreases b.len(),
{
    if b.len() == 0 {
        assert(a + b =~= a);
    } else {
        lemma_pot_concat(a, b.drop_last());
        assert((a + b).drop_last() =~= a + b.drop_last());
    }
}

proof fn lemma_pow3_mono(j: nat, k: nat)
    requires
        j <= k,
    ensures
        1 <= pow3(j) <= pow3(k),
    decreases k,
{
    if k > 0 {
        if j < k {
            lemma_pow3_mono(j, (k - 1) as nat);
        } else {
            lemma_pow3_mono(0, (k - 1) as nat);
        }
    }
}

proof fn lemma_pot_kids(kids: Seq<usize>, p: int)
    requires
        kids.len() <= 2,
        forall|i: int| 0 <= i < kids.len() ==> kids[i] < p,
    ensures
        pot(kids) < pow3(p as nat),
{
    assert(pot(Seq::<usize>::empty()) == 0);
    if kids.len() == 0 {
        lemma_pow3_mono(0, p as nat);
    } else {
        assert(kids[0] < p);
        let q = (p - 1) as nat;
        assert(pow3(p as nat) == 3 * pow3(q));
        lemma_pow3_mono(kids[0] as nat, q);
        lemma_pow3_mono(kids.last() as nat, q);
        if kids.len() == 2 {
            let d = kids.drop_last();
            assert(d.drop_last() =~= Seq::<usize>::empty());
            assert(pot(d) == pow3(kids[0] as nat));
            assert(pot(kids) == pot(d) + pow3(kids[1] as nat));
        } else {
            assert(kids.drop_last() =~= Seq::<usize>::empty());
            assert(pot(kids) == pow3(kids[0] as nat));
        }
    }
}

/// One step of the walk over a tree-shaped array keeps its invariant: the
/// queue has no repeats, a node is queued once its parent is taken off, a
/// queued node's code extends its parent's, and other codes are empty.
proof fn lemma_bits_gen_tree_step(
    nodes0: Seq<Node>,
    nodes1: Seq<Node>,
    nodes2: Seq<Node>,
    q1: Seq<usize>,
    q2: Seq<usize>,
    head: int,
    kids: Seq<usize>,
)
    requires
        tree_shaped(nodes0),
        links_down(nodes0),
        nodes0.len() <= usize::MAX,
        nodes1.len() == nodes0.len(),
        nodes2.len() == nodes0.len(),
        0 <= head < q1.len(),
        forall|i: int| 0 <= i < q1.len() ==> #[trigger] q1[i] < nodes0.len(),
        forall|i: int, j: int| 0 <= i < j < q1.len() ==> q1[i] != q1[j],
        forall|k: int, r: bool, c: int| 0 <= k < nodes0.len() && #[trigger] links_to(nodes0[k], r, c)
            ==> (q1.contains(c as usize) <==> q1.take(head).contains(k as usize)),
        forall|k: int, r: bool, c: int| 0 <= k < nodes0.len() && #[trigger] links_to(nodes0[k], r, c) && q1.contains(c as usize)
            ==> nodes1[c].bits_string@ == nodes1[k].bits_string@.push(bit_char(r)),
        forall|c: int| 0 <= c < nodes0.len() && !q1.contains(c as usize) ==> (#[trigger] nodes1[c]).bits_string@ == Seq::<char>::empty(),
        q2 == q1 + kids,
        forall|x: usize| kids.contains(x) <==> child_of(nodes0[q1[head] as int], x as int),
        kids.len() <= 2,
        kids.len() == 2 ==> kids[0] != kids[1],
        forall|c: int| 0 <= c < nodes0.len() && !child_of(nodes0[q1[head] as int], c) ==> nodes2[c] == nodes1[c],
        forall|r: bool, c: int| #[trigger] links_to(nodes0[q1[head] as int], r, c)
            ==> nodes2[c].bits_string@ == nodes1[q1[head] as int].bits_string@.push(bit_char(r)),
    ensures
        forall|i: int, j: int| 0 <= i < j < q2.len() ==> q2[i] != q2[j],
        forall|k: int, r: bool, c: int| 0 <= k < nodes0.len() && #[trigger] links_to(nodes0[k], r, c)
            ==> (q2.contains(c as usize) <==> q2.take(head + 1).contains(k as usize)),
        forall|k: int, r: bool, c: int| 0 <= k < nodes0.len() && #[trigger] links_to(nodes0[k], r, c) && q2.contains(c as usize)
            ==> nodes2[c].bits_string@ == nodes2[k].bits_string@.push(bit_char(r)),
        forall|c: int| 0 <= c < nodes0.len() && !q2.contains(c as usize) ==> (#[trigger] nodes2[c]).bits_string@ == Seq::<char>::empty(),
{
    let p = q1[head] as int;
    let nn = nodes0.len();
    assert(!q1.take(head).contains(p as usize)) by {
        if q1.take(head).contains(p as usize) {
            let i = choose|i: int| 0 <= i < head && q1.take(head)[i] == p as usize;
            assert(q1[i] == q1[head]);
        }
    }
    assert(q2.take(head + 1) =~= q1.take(head).push(p as usize));
    // kids are new to the queue
    assert forall|x: usize| kids.contains(x) implies !q1.contains(x) by {
        let r = if links_to(nodes0[p], false, x as int) { false } else { true };
        assert(links_to(nodes0[p], r, x as int));
    }
    assert forall|x: usize| q2.contains(x) <==> (q1.contains(x) || kids.contains(x)) by {
        if q2.contains(x) {
            let i = choose|i: int| 0 <= i < q2.len() && q2[i] == x;
            if i >= q1.len() {
                assert(kids[i - q1.len()] == x);
            }
        }
        if q1.contains(x) {
            let i = choose|i: int| 0 <= i < q1.len() && q1[i] == x;
            assert(q2[i] == x);
        }
        if kids.contains(x) {
            let i = choose|i: int| 0 <= i < kids.len() && kids[i] == x;
            assert(q2[q1.len() + i] == x);
        }
    }
    assert forall|i: int, j: int| 0 <= i < j < q2.len() implies q2[i] != q2[j] by {
        if j >= q1.len() {
            assert(kids.contains(q2[j]));
            if i < q1.len() {
                assert(q1.contains(q2[i]));
            }
        }
    }
    assert forall|k: int, r: bool, c: int| 0 <= k < nn && #[trigger] links_to(nodes0[k], r, c)
        implies (q2.contains(c as usize) <==> q2.take(head + 1).contains(k as usize)) by {
        assert(0 <= c < k);
        lemma_contains_push(q1.take(head), p as usize, k as usize);
        assert(q2.contains(c as usize) <==> (q1.contains(c as usize) || kids.contains(c as usize)));
        if k != p {
            if kids.contains(c as usize) {
                let r2 = if links_to(nodes0[p], false, c) { false } else { true };
                assert(links_to(nodes0[p], r2, c));
            }
        } else {
            assert(child_of(nodes0[p], c));
            assert(kids.contains(c as usize));
        }
    }
    assert forall|k: int, r: bool, c: int| 0 <= k < nn && #[trigger] links_to(nodes0[k], r, c) && q2.contains(c as usize)
        implies nodes2[c].bits_string@ == nodes2[k].bits_string@.push(bit_char(r)) by {
        assert(0 <= c < k);
        assert(!child_of(nodes0[p], p)) by {
            if links_to(nodes0[p], false, p) {}
            if links_to(nodes0[p], true, p) {}
        }
        if k == p {
            assert(nodes2[p] == nodes1[p]);
        } else {
            if child_of(nodes0[p], c) {
                let r2 = if links_to(nodes0[p], false, c) { false } else { true };
                assert(links_to(nodes0[p], r2, c));
            }
            assert(!kids.contains(c as usize));
            assert(q1.contains(c as usize));
            if child_of(nodes0[p], k) {
                assert(kids.contains(k as usize));
                assert(!q1.contains(k as usize));
                assert(!q1.take(head).contains(k as usize)) by {
                    if q1.take(head).contains(k as usize) {
                        let i = choose|i: int| 0 <= i < head && q1.take(head)[i] == k as usize;
                        assert(q1[i] == k as usize);
                    }
                }
            }
            assert(nodes2[c] == nodes1[c]);
            assert(nodes2[k] == nodes1[k]);
        }
    }
    assert forall|c: int| 0 <= c < nn && !q2.contains(c as usize) implies (#[trigger] nodes2[c]).bits_string@ == Seq::<char>::empty() by {
        assert(!kids.contains(c as usize));
        assert(nodes2[c] == nodes1[c]);
    }
}

/// When the walk over a tree-shaped array ends, every node has been queued.
proof fn lemma_all_queued(nodes0: Seq<Node>, q: Seq<usize>, c: int)
    requires
        tree_shaped(nodes0),
        links_down(nodes0),
        nodes0.len() <= usize::MAX,
        q.len() >= 1,
        q[0] == nodes0.len() - 1,
        forall|k: int, r: bool, c: int| 0 <= k < nodes0.len() && #[trigger] links_to(nodes0[k], r, c)
            ==> (q.contains(c as usize) <==> q.take(q.len() as int).contains(k as usize)),
        q.take(q.len() as int) == q,
        0 <= c < nodes0.len(),
    ensures
        q.contains(c as usize),
    decreases nodes0.len() - c,
{
    if c == nodes0.len() - 1 {
        assert(q[0] == c as usize);
    } else {
        assert(has_parent(nodes0, c));
        let (k, r) = choose|k: int, r: bool| 0 <= k < nodes0.len() && #[trigger] links_to(nodes0[k], r, c);
        assert(c < k);
        lemma_all_queued(nodes0, q, k);
    }
}

/// A Huffman code built once from weighted byte symbols.
pub struct HuffmanTree {
    nodes: Vec<Node>,
    bits_map: HashMap<u8, String>,
    sizeof_table: usize,
    n_init: usize,
    n_input: usize,
}

impl HuffmanTree {
    /// Room for `2n - 1` nodes, all blank.
    fn alloc_nodes(&mut self, init_list: &Vec<(u8, usize)>)
        requires
            1 <= init_list@.len() <= usize::MAX / 2,
        ensures
            final(self).sizeof_table == 2 * init_list@.len() - 1,
            final(self).nodes@.len() == final(self).sizeof_table,
            forall|k: int| 0 <= k < final(self).nodes@.len() ==> is_blank(#[trigger] final(self).nodes@[k]),
            final(self).bits_map == old(self).bits_map,
            final(self).n_init == old(self).n_init,
            final(self).n_input == old(self).n_input,
    {
        self.sizeof_table = 2 * init_list.len() - 1;
        let mut nodes: Vec<Node> = Vec::new();
        let mut k: usize = 0;
        while k < self.sizeof_table
            invariant
                k <= self.sizeof_table,
                nodes@.len() == k,
                forall|j: int| 0 <= j < k ==> is_blank(#[trigger] nodes@[j]),
            decreases self.sizeof_table - k,
        {
            nodes.push(Node::blank());
            k = k + 1;
        }
        self.nodes = nodes;
    }

    /// Puts the entries into the leaves `0..n` in order and numbers every node.
    fn pre_build(&mut self, init_list: &Vec<(u8, usize)>)
        requires
            1 <= init_list@.len(),
            old(self).sizeof_table == 2 * init_list@.len() - 1,
            old(self).nodes@.len() == old(self).sizeof_table,
            forall|k: int| 0 <= k < old(self).nodes@.len() ==> is_blank(#[trigger] old(self).nodes@[k]),
        ensures
            final(self).sizeof_table == old(self).sizeof_table,
            final(self).nodes@.len() == old(self).nodes@.len(),
            forall|k: int| 0 <= k < final(self).nodes@.len() ==> built_node(#[trigger] final(self).nodes@[k], init_list@, initial_slots(init_list@), k),
            final(self).bits_map == old(self).bits_map,
            final(self).n_init == old(self).n_init,
            final(self).n_input == old(self).n_input,
    {
        let n = init_list.len();
        let mut i: usize = 0;
        while i < n
            invariant
                n == init_list@.len(),
                i <= n,
                self.sizeof_table == 2 * n - 1,
                self.nodes@.len() == self.sizeof_table,
                forall|k: int| 0 <= k < i ==> built_node(#[trigger] self.nodes@[k], init_list@, initial_slots(init_list@), k),
                forall|k: int| i <= k < self.nodes@.len() ==> (#[trigger] self.nodes@[k]).bits_string@ == Seq::<char>::empty(),
                self.bits_map == old(self).bits_map,
                self.n_init == old(self).n_init,
                self.n_input == old(self).n_input,
            decreases n - i,
        {
            let (value, weight) = init_list[i];
            let nd = Node {
                value: Some(value),
                index: i,
                weight,
                bits_string: String::new(),
                i_parent: None,
                i_left: None,
                i_right: None,
            };
            self.nodes.set(i, nd);
            i = i + 1;
        }
        while i < self.sizeof_table
            invariant
                n == init_list@.len(),
                n <= i <= self.sizeof_table,
                self.sizeof_table == 2 * n - 1,
                self.nodes@.len() == self.sizeof_table,
                forall|k: int| 0 <= k < i ==> built_node(#[trigger] self.nodes@[k], init_list@, initial_slots(init_list@), k),
                forall|k: int| i <= k < self.nodes@.len() ==> (#[trigger] self.nodes@[k]).bits_string@ == Seq::<char>::empty(),
                self.bits_map == old(self).bits_map,
                self.n_init == old(self).n_init,
                self.n_input == old(self).n_input,
            decreases self.sizeof_table - i,
        {
            let nd = Node {
                value: None,
                index: i,
                weight: 0,
                bits_string: String::new(),
                i_parent: None,
                i_left: None,
                i_right: None,
            };
            self.nodes.set(i, nd);
            i = i + 1;
        }
    }

    /// Among nodes `0..right` that have no parent yet, the first index of the
    /// smallest weight, and the first index of the smallest weight among the
    /// others; ties go to the lower index.
    fn find_min2(&self, right: usize, Ghost(m): Ghost<Seq<Slot>>) -> (r: (usize, usize))
        requires
            right <= self.nodes@.len(),
            m.len() == self.nodes@.len(),
            forall|k: int| 0 <= k < m.len() ==> slot_of(#[trigger] self.nodes@[k], m[k]),
            pick(m, right as int, -1) >= 0,
            pick(m, right as int, pick(m, right as int, -1)) >= 0,
        ensures
            r.0 as int == pick(m, right as int, -1),
            r.1 as int == pick(m, right as int, r.0 as int),
    {
        let mut have_min = false;
        let mut i_min: usize = 0;
        let mut have_second = false;
        let mut i_second_min: usize = 0;
        let mut i: usize = 0;
        while i < right
            invariant
                i <= right,
                right <= self.nodes@.len(),
                m.len() == self.nodes@.len(),
                forall|k: int| 0 <= k < m.len() ==> slot_of(#[trigger] self.nodes@[k], m[k]),
                have_min ==> i_min < i,
                have_second ==> i_second_min < i,
                have_second ==> have_min,
                pick(m, i as int, -1) == if have_min { i_min as int } else { -1 },
                pick(m, i as int, pick(m, i as int, -1)) == if have_second { i_second_min as int } else { -1 },
            decreases right - i,
        {
            proof {
                lemma_pick_skip_past(m, i as int, i as int);
                assert(slot_of(self.nodes@[i as int], m[i as int]));
            }
            if self.nodes[i].i_parent.is_none() {
                let x = self.nodes[i].weight;
                if !have_min {
                    i_min = i;
                    have_min = true;
                } else if x < self.nodes[i_min].weight {
                    i_second_min = i_min;
                    have_second = true;
                    i_min = i;
                } else if !have_second || x < self.nodes[i_second_min].weight {
                    i_second_min = i;
                    have_second = true;
                }
            }
            i = i + 1;
        }
        (i_min, i_second_min)
    }

    /// Fills internal nodes `n..2n-1` in order: each takes the two lightest
    /// nodes before it that have no parent yet, adds their weights, links them
    /// as its left and right child and becomes their parent.
    fn build(&mut self, Ghost(s): Ghost<Seq<(u8, usize)>>)
        requires
            s.len() == old(self).n_init,
            1 <= s.len(),
            total_weight(s) <= usize::MAX,
            old(self).sizeof_table == 2 * s.len() - 1,
            old(self).nodes@.len() == old(self).sizeof_table,
            forall|k: int| 0 <= k < old(self).nodes@.len() ==> built_node(#[trigger] old(self).nodes@[k], s, initial_slots(s), k),
        ensures
            final(self).sizeof_table == old(self).sizeof_table,
            final(self).nodes@.len() == old(self).nodes@.len(),
            forall|k: int| 0 <= k < final(self).nodes@.len() ==> built_node(#[trigger] final(self).nodes@[k], s, final_slots(s), k),
            final(self).bits_map == old(self).bits_map,
            final(self).n_init == old(self).n_init,
            final(self).n_input == old(self).n_input,
    {
        let n = self.n_init;
        let mut i: usize = n;
        while i < self.sizeof_table
            invariant
                n == s.len(),
                1 <= n,
                total_weight(s) <= usize::MAX,
                n <= i <= self.sizeof_table,
                self.sizeof_table == 2 * n - 1,
                self.nodes@.len() == self.sizeof_table,
                forall|k: int| 0 <= k < self.nodes@.len() ==> built_node(#[trigger] self.nodes@[k], s, merged(s, i as nat), k),
                self.bits_map == old(self).bits_map,
                self.n_init == old(self).n_init,
                self.n_input == old(self).n_input,
            decreases self.sizeof_table - i,
        {
            let ghost m = merged(s, i as nat);
            let ghost a = pick(m, i as int, -1);
            let ghost b = pick(m, i as int, a);
            proof {
                lemma_merged_inv(s, i as nat);
                lemma_pick_range(m, i as int, -1);
                lemma_pick_range(m, i as int, a);
                lemma_open_pair(m, i as int, a, b);
                assert forall|k: int| 0 <= k < m.len() implies slot_of(#[trigger] self.nodes@[k], m[k]) by {
                    assert(built_node(self.nodes@[k], s, m, k));
                }
            }
            let ghost nodes0 = self.nodes@;
            let (min, second_min) = self.find_min2(i, Ghost(m));
            let sum = self.nodes[min].weight + self.nodes[second_min].weight;
            let nd = self.nodes[i].with_links(sum, Some(min), Some(second_min));
            self.nodes.set(i, nd);
            let nd = self.nodes[min].with_parent(Some(i));
            self.nodes.set(min, nd);
            let nd = self.nodes[second_min].with_parent(Some(i));
            self.nodes.set(second_min, nd);
            proof {
                let m2 = merged(s, (i + 1) as nat);
                assert(m2 == merge_step(m, i as int));
                assert forall|k: int| 0 <= k < self.nodes@.len() implies built_node(#[trigger] self.nodes@[k], s, m2, k) by {
                    assert(built_node(nodes0[k], s, m, k));
                }
            }
            i = i + 1;
        }
    }
}

impl HuffmanTree {
    /// Breadth-first walk from the root (the last node): a left child's code is
    /// its parent's code and `0`, a right child's its parent's code and `1`.
    fn bits_gen(&mut self)
        requires
            old(self).nodes@.len() >= 1,
            links_down(old(self).nodes@),
            forall|k: int| 0 <= k < old(self).nodes@.len() ==> (#[trigger] old(self).nodes@[k]).bits_string@ == Seq::<char>::empty(),
        ensures
            final(self).nodes@.len() == old(self).nodes@.len(),
            forall|k: int| 0 <= k < final(self).nodes@.len() ==> same_but_code(#[trigger] final(self).nodes@[k], old(self).nodes@[k]),
            final(self).nodes@[final(self).nodes@.len() - 1].bits_string@ == Seq::<char>::empty(),
            tree_shaped(old(self).nodes@) ==> forall|k: int, r: bool, c: int|
                0 <= k < final(self).nodes@.len() && #[trigger] links_to(final(self).nodes@[k], r, c)
                    ==> final(self).nodes@[c].bits_string@ == final(self).nodes@[k].bits_string@.push(bit_char(r)),
            final(self).bits_map == old(self).bits_map,
            final(self).sizeof_table == old(self).sizeof_table,
            final(self).n_init == old(self).n_init,
            final(self).n_input == old(self).n_input,
    {
        let ghost nodes0 = self.nodes@;
        let ghost nn = nodes0.len() as int;
        let ghost root = nn - 1;
        let ghost tree = tree_shaped(nodes0);
        let last = self.nodes.len() - 1;
        assert(nn <= usize::MAX);
        let mut queue: Vec<usize> = Vec::new();
        queue.push(last);
        let mut head: usize = 0;
        while head < queue.len()
            invariant
                nn == nodes0.len(),
                nn >= 1,
                nn <= usize::MAX,
                root == nn - 1,
                links_down(nodes0),
                self.nodes@.len() == nn,
                forall|k: int| 0 <= k < nn ==> same_but_code(#[trigger] self.nodes@[k], nodes0[k]),
                head <= queue@.len(),
                queue@.len() >= 1,
                queue@[0] == root,
                forall|i: int| 0 <= i < queue@.len() ==> #[trigger] queue@[i] < nn,
                self.nodes@[root].bits_string@ == Seq::<char>::empty(),
                tree == tree_shaped(nodes0),
                tree ==> forall|i: int, j: int| 0 <= i < j < queue@.len() ==> queue@[i] != queue@[j],
                tree ==> forall|k: int, r: bool, c: int| 0 <= k < nn && #[trigger] links_to(nodes0[k], r, c)
                    ==> (queue@.contains(c as usize) <==> queue@.take(head as int).contains(k as usize)),
                tree ==> forall|k: int, r: bool, c: int| 0 <= k < nn && #[trigger] links_to(nodes0[k], r, c) && queue@.contains(c as usize)
                    ==> self.nodes@[c].bits_string@ == self.nodes@[k].bits_string@.push(bit_char(r)),
                tree ==> forall|c: int| 0 <= c < nn && !queue@.contains(c as usize) ==> (#[trigger] self.nodes@[c]).bits_string@ == Seq::<char>::empty(),
                self.bits_map == old(self).bits_map,
                self.sizeof_table == old(self).sizeof_table,
                self.n_init == old(self).n_init,
                self.n_input == old(self).n_input,
            decreases pot(queue@.skip(head as int)),
        {
            let ghost nodes1 = self.nodes@;
            let ghost queue1 = queue@;
            let ghost mut kids: Seq<usize> = Seq::empty();
            let i_curr = queue[head];
            let ghost p = i_curr as int;
            proof {
                assert(queue1[head as int] < nn);
                assert(same_but_code(nodes1[p], nodes0[p]));
            }
            let i_left = self.nodes[i_curr].i_left;
            let i_right = self.nodes[i_curr].i_right;
            if let Some(i_left) = i_left {
                proof {
                    assert(links_to(nodes0[p], false, i_left as int));
                }
                let mut code = self.nodes[i_curr].bits_string.clone();
                code.append("0");
                let nd = self.nodes[i_left].with_code(code);
                self.nodes.set(i_left, nd);
                queue.push(i_left);
                proof {
                    kids = kids.push(i_left);
                    assert(i_left < p);
                }
            }
            if let Some(i_right) = i_right {
                proof {
                    assert(links_to(nodes0[p], true, i_right as int));
                }
                let mut code = self.nodes[i_curr].bits_string.clone();
                code.append("1");
                let nd = self.nodes[i_right].with_code(code);
                self.nodes.set(i_right, nd);
                queue.push(i_right);
                proof {
                    kids = kids.push(i_right);
                    assert(i_right < p);
                }
            }
            proof {
                reveal_strlit("0");
                reveal_strlit("1");
                assert(queue@ =~= queue1 + kids);
                assert(queue1.skip(head as int) =~= seq![i_curr] + queue1.skip(head + 1));
                assert(queue@.skip(head + 1) =~= queue1.skip(head + 1) + kids);
                lemma_pot_concat(seq![i_curr], queue1.skip(head + 1));
                lemma_pot_concat(queue1.skip(head + 1), kids);
                assert(seq![i_curr].drop_last() =~= Seq::<usize>::empty());
                lemma_pot_kids(kids, p);
                assert(forall|i: int| 0 <= i < queue@.len() ==> #[trigger] queue@[i] < nn);
                assert forall|c: int| 0 <= c < nn && !child_of(nodes0[p], c) implies self.nodes@[c] == nodes1[c] by {}
                assert forall|x: usize| kids.contains(x) <==> child_of(nodes0[p], x as int) by {
                    if kids.contains(x) {
                        let i = choose|i: int| 0 <= i < kids.len() && kids[i] == x;
                    }
                    if links_to(nodes0[p], false, x as int) {
                        assert(kids[0] == x);
                    }
                    if links_to(nodes0[p], true, x as int) {
                        assert(kids[kids.len() - 1] == x);
                    }
                }
                if tree {
                    if i_left is Some && i_right is Some {
                        assert(i_left->0 != i_right->0);
                    }
                    assert forall|r: bool, c: int| #[trigger] links_to(nodes0[p], r, c)
                        implies self.nodes@[c].bits_string@ == nodes1[p].bits_string@.push(bit_char(r)) by {
                        if r {
                            assert(self.nodes@[c].bits_string@ =~= nodes1[p].bits_string@.push('1'));
                        } else {
                            assert(self.nodes@[c].bits_string@ =~= nodes1[p].bits_string@.push('0'));
                        }
                    }
                    lemma_bits_gen_tree_step(nodes0, nodes1, self.nodes@, queue1, queue@, head as int, kids);
                }
            }
            head = head + 1;
        }
        proof {
            if tree {
                assert(queue@.take(head as int) =~= queue@);
                assert forall|k: int, r: bool, c: int| 0 <= k < nn && #[trigger] links_to(self.nodes@[k], r, c)
                    implies self.nodes@[c].bits_string@ == self.nodes@[k].bits_string@.push(bit_char(r)) by {
                    assert(same_but_code(self.nodes@[k], nodes0[k]));
                    assert(links_to(nodes0[k], r, c));
                    assert(0 <= c < k);
                    lemma_all_queued(nodes0, queue@, c);
                }
            }
        }
    }

    /// Records the code of each leaf under its symbol, in leaf order.
    fn bits_map_gen(&mut self)
        requires
            old(self).n_input <= old(self).nodes@.len(),
            forall|k: int| 0 <= k < old(self).n_input ==> (#[trigger] old(self).nodes@[k]).value is Some,
        ensures
            final(self).bits_map@ == leaf_inserts(old(self).bits_map@, old(self).nodes@, old(self).n_input as nat),
            final(self).nodes == old(self).nodes,
            final(self).sizeof_table == old(self).sizeof_table,
            final(self).n_init == old(self).n_init,
            final(self).n_input == old(self).n_input,
    {
        let ghost m0 = self.bits_map@;
        let mut k: usize = 0;
        while k < self.n_input
            invariant
                k <= self.n_input,
                self.n_input == old(self).n_input,
                self.nodes == old(self).nodes,
                self.sizeof_table == old(self).sizeof_table,
                self.n_init == old(self).n_init,
                self.n_input <= self.nodes@.len(),
                forall|j: int| 0 <= j < self.n_input ==> (#[trigger] self.nodes@[j]).value is Some,
                self.bits_map@ == leaf_inserts(m0, self.nodes@, k as nat),
            decreases self.n_input - k,
        {
            let symbol = self.nodes[k].value.unwrap();
            let code = self.nodes[k].bits_string.clone();
            self.bits_map.insert(symbol, code);
            k = k + 1;
        }
    }

    /// The symbol-to-code map, as text codes.
    pub closed spec fn codes(&self) -> Map<u8, Seq<char>> {
        self.bits_map@.map_values(|v: String| v@)
    }

    /// No nodes and no codes yet.
    pub closed spec fn fresh(&self) -> bool {
        &&& self.bits_map@ == Map::<u8, String>::empty()
        &&& self.nodes@.len() == 0
    }

    /// Normalizes the entries in place, then builds the tree and its codes.
    fn generate(&mut self, init_list: &mut Vec<(u8, usize)>)
        requires
            old(self).fresh(),
            old(init_list)@.len() <= usize::MAX / 2,
            total_weight(old(init_list)@) <= usize::MAX,
        ensures
            normalizes(old(init_list)@, final(init_list)@),
            final(self).codes() == huffman_codes(final(init_list)@),
            old(init_list)@.len() == 0 ==> *final(self) == *old(self),
            old(init_list)@.len() > 0 ==> final(self).n_init == final(init_list)@.len(),
            old(init_list)@.len() > 0 ==> final(self).n_input == final(init_list)@.len(),
            old(init_list)@.len() > 0 ==> final(self).nodes@.len() == 2 * final(init_list)@.len() - 1,
    {
        if init_list.len() == 0 {
            proof {
                assert(normalizes(old(init_list)@, init_list@));
                assert(self.codes() =~= huffman_codes(init_list@));
            }
            return;
        }
        let ghost input = init_list@;
        sort_then_unique(init_list);
        let ghost s = init_list@;
        proof {
            assert(input.contains(input[0]));
            assert(s.len() >= 1);
        }
        self.n_init = init_list.len();
        self.n_input = init_list.len();
        self.alloc_nodes(init_list);
        self.pre_build(init_list);
        self.build(Ghost(s));
        let ghost m = final_slots(s);
        let ghost built = self.nodes@;
        proof {
            lemma_merged_inv(s, (2 * s.len() - 1) as nat);
            lemma_built_tree(s, built);
        }
        self.bits_gen();
        proof {
            assert forall|k: int| 0 <= k < self.nodes@.len() implies (#[trigger] self.nodes@[k]).i_left == m[k].left && self.nodes@[k].i_right == m[k].right by {
                assert(same_but_code(self.nodes@[k], built[k]));
                assert(built_node(built[k], s, m, k));
            }
            assert forall|j: int| 0 <= j < s.len() implies (#[trigger] self.nodes@[j]).value == Some(s[j].0) by {
                assert(same_but_code(self.nodes@[j], built[j]));
                assert(built_node(built[j], s, m, j));
            }
            assert forall|j: int| 0 <= j < s.len() implies (#[trigger] self.nodes@[j]).bits_string@ == leaf_code(s, j) by {
                lemma_codes_are_paths(s, self.nodes@, m, j);
            }
        }
        self.bits_map_gen();
        proof {
            lemma_leaf_inserts_codes(self.nodes@, s, s.len());
        }
    }

    /// Builds the code for the weighted symbols in `init_list`, which is left
    /// sorted by symbol then weight and without repeated entries. Two entries
    /// with one symbol and different weights both become leaves; the later
    /// (heavier) one's code is the one recorded for the symbol.
    pub fn new(init_list: &mut Vec<(u8, usize)>) -> (r: Self)
        requires
            old(init_list)@.len() <= usize::MAX / 2,
            total_weight(old(init_list)@) <= usize::MAX,
        ensures
            normalizes(old(init_list)@, final(init_list)@),
            r.codes() == huffman_codes(final(init_list)@),
    {
        let mut res = HuffmanTree::default();
        res.generate(init_list);
        res
    }

    /// The symbol-to-code map.
    pub fn bits_map(&self) -> (r: &HashMap<u8, String>)
        ensures
            r@.map_values(|v: String| v@) == self.codes(),
    {
        &self.bits_map
    }
}

impl Default for HuffmanTree {
    fn default() -> (r: Self)
        ensures
            r.fresh(),
            r.codes() == Map::<u8, Seq<char>>::empty(),
    {
        let r = HuffmanTree {
            nodes: Vec::new(),
            bits_map: HashMap::new(),
            sizeof_table: 0,
            n_init: 0,
            n_input: 0,
        };
        proof {
            assert(r.codes() =~= Map::<u8, Seq<char>>::empty());
        }
        r
    }
}

/// `p` is a prefix of `q`.
pub open spec fn is_prefix(p: Seq<char>, q: Seq<char>) -> bool {
    p.len() <= q.len() && q.subrange(0, p.len() as int) == p
}

/// Building twice from the same input gives the same normalized entries and
/// hence the same codes.
pub proof fn lemma_build_deterministic(input: Seq<(u8, usize)>, first: Seq<(u8, usize)>, second: Seq<(u8, usize)>)
    requires
        normalizes(input, first),
        normalizes(input, second),
    ensures
        first == second,
        huffman_codes(first) == huffman_codes(second),
{
    lemma_normal_form_unique(first, second);
}

/// A symbol has a code over leaves `0..k` exactly when one of those leaves
/// holds it, and its code is the code of such a leaf.
proof fn lemma_code_map_entry(s: Seq<(u8, usize)>, k: nat, x: u8)
    requires
        k <= s.len(),
    ensures
        code_map(s, k).contains_key(x) <==> exists|j: int| 0 <= j < k && s[j].0 == x,
        code_map(s, k).contains_key(x) ==> exists|j: int| 0 <= j < k && s[j].0 == x && code_map(s, k)[x] == leaf_code(s, j),
    decreases k,
{
    if k > 0 {
        lemma_code_map_entry(s, (k - 1) as nat, x);
        if s[k - 1].0 == x {
            assert(code_map(s, k)[x] == leaf_code(s, k - 1));
        }
    }
}

/// The finished nodes form one tree rooted at the last node, with links
/// pointing down and no codes yet.
proof fn lemma_built_tree(s: Seq<(u8, usize)>, nodes: Seq<Node>)
    requires
        s.len() >= 1,
        nodes.len() == 2 * s.len() - 1,
        forall|k: int| 0 <= k < nodes.len() ==> built_node(#[trigger] nodes[k], s, final_slots(s), k),
        merged_inv(s, final_slots(s), 2 * s.len() - 1),
    ensures
        links_down(nodes),
        tree_shaped(nodes),
        forall|k: int| 0 <= k < nodes.len() ==> (#[trigger] nodes[k]).bits_string@ == Seq::<char>::empty(),
{
    let m = final_slots(s);
    let n = s.len() as int;
    let root = 2 * n - 2;
    assert forall|k: int, r: bool, c: int| 0 <= k < nodes.len() && #[trigger] links_to(nodes[k], r, c) implies 0 <= c < k by {
        assert(built_node(nodes[k], s, m, k));
    }
    assert forall|k: int, r: bool, c: int| 0 <= k < nodes.len() && #[trigger] links_to(nodes[k], r, c) implies m[c].parent == Some(k as usize) by {
        assert(built_node(nodes[k], s, m, k));
    }
    assert(m[root].parent is None);
    assert forall|c: int| 0 <= c < nodes.len() - 1 implies #[trigger] has_parent(nodes, c) by {
        if m[c].parent is None {
            lemma_open_pair(m, 2 * n - 1, c, root);
        }
        let p = m[c].parent->0 as int;
        assert(built_node(nodes[p], s, m, p));
        if m[p].left == Some(c as usize) {
            assert(links_to(nodes[p], false, c));
        } else {
            assert(links_to(nodes[p], true, c));
        }
    }
    assert forall|c: int, k1: int, r1: bool, k2: int, r2: bool|
        0 <= k1 < nodes.len() && 0 <= k2 < nodes.len() && #[trigger] links_to(nodes[k1], r1, c) && #[trigger] links_to(nodes[k2], r2, c)
        implies k1 == k2 && r1 == r2 by {
        assert(built_node(nodes[k1], s, m, k1));
        assert(m[c].parent == Some(k1 as usize));
        assert(m[c].parent == Some(k2 as usize));
    }
    assert forall|k: int| 0 <= k < nodes.len() implies (#[trigger] nodes[k]).bits_string@ == Seq::<char>::empty() by {
        assert(built_node(nodes[k], s, m, k));
    }
}

/// Where each child's code is its parent's code and the edge's bit, and the
/// root's code is empty, every node's code is its path from the root.
proof fn lemma_codes_are_paths(s: Seq<(u8, usize)>, nodes: Seq<Node>, m: Seq<Slot>, k: int)
    requires
        m == final_slots(s),
        merged_inv(s, m, m.len() as int),
        nodes.len() == m.len(),
        0 <= k < m.len(),
        forall|j: int| 0 <= j < nodes.len() ==> (#[trigger] nodes[j]).i_left == m[j].left && nodes[j].i_right == m[j].right,
        nodes[nodes.len() - 1].bits_string@ == Seq::<char>::empty(),
        forall|j: int, r: bool, c: int| 0 <= j < nodes.len() && #[trigger] links_to(nodes[j], r, c)
            ==> nodes[c].bits_string@ == nodes[j].bits_string@.push(bit_char(r)),
    ensures
        nodes[k].bits_string@ == tree_code(m, k),
    decreases m.len() - k,
{
    let root = m.len() - 1;
    if k == root {
        assert(m[root].parent is None);
    } else {
        if m[k].parent is None {
            lemma_open_pair(m, m.len() as int, k, root);
        }
        let p = m[k].parent->0 as int;
        lemma_codes_are_paths(s, nodes, m, p);
        assert(nodes[p].i_left == m[p].left);
        if m[p].left == Some(k as usize) {
            assert(links_to(nodes[p], false, k));
        } else {
            assert(links_to(nodes[p], true, k));
        }
    }
}


/// In the finished tree every node but the root has a parent above it that
/// links to it, and that parent is an internal node.
proof fn lemma_final_parent(s: Seq<(u8, usize)>, m: Seq<Slot>, k: int)
    requires
        m == final_slots(s),
        merged_inv(s, m, m.len() as int),
        0 <= k < m.len() - 1,
    ensures
        m[k].parent is Some,
        k < m[k].parent->0 < m.len(),
        m[m[k].parent->0 as int].left == Some(k as usize) || m[m[k].parent->0 as int].right == Some(k as usize),
        m[k].parent->0 >= s.len(),
{
    let root = m.len() - 1;
    assert(m[root].parent is None);
    if m[k].parent is None {
        lemma_open_pair(m, m.len() as int, k, root);
    }
    let p = m[k].parent->0 as int;
    if p < s.len() {
        assert(m[p].left is None && m[p].right is None);
    }
}

/// Two nodes of the finished tree with the same path are the same node.
proof fn lemma_path_injective(s: Seq<(u8, usize)>, m: Seq<Slot>, j: int, k: int)
    requires
        m == final_slots(s),
        merged_inv(s, m, m.len() as int),
        0 <= j < m.len(),
        0 <= k < m.len(),
        tree_code(m, j) == tree_code(m, k),
    ensures
        j == k,
    decreases tree_code(m, j).len(),
{
    let root = m.len() - 1;
    if j != root {
        lemma_final_parent(s, m, j);
    }
    if k != root {
        lemma_final_parent(s, m, k);
    }
    if j != root && k != root {
        let pj = m[j].parent->0 as int;
        let pk = m[k].parent->0 as int;
        assert(tree_code(m, pj) == tree_code(m, j).drop_last());
        assert(tree_code(m, pk) == tree_code(m, k).drop_last());
        lemma_path_injective(s, m, pj, pk);
        let cj = tree_code(m, j).last();
        let ck = tree_code(m, k).last();
        assert(cj == ck);
        if m[pj].left == Some(j as usize) {
            assert(cj == '0');
            assert(m[pj].left == Some(k as usize));
        } else {
            assert(cj == '1');
            assert(m[pj].left != Some(k as usize));
        }
    }
}

/// A node whose path is a prefix of another node's path is an internal node.
proof fn lemma_prefix_path_internal(s: Seq<(u8, usize)>, m: Seq<Slot>, j: int, k: int)
    requires
        m == final_slots(s),
        merged_inv(s, m, m.len() as int),
        0 <= j < m.len(),
        0 <= k < m.len(),
        j != k,
        is_prefix(tree_code(m, j), tree_code(m, k)),
    ensures
        j >= s.len(),
    decreases m.len() - k,
{
    let cj = tree_code(m, j);
    let ck = tree_code(m, k);
    if cj.len() == ck.len() {
        assert(ck.subrange(0, cj.len() as int) =~= ck);
        lemma_path_injective(s, m, j, k);
    } else {
        let root = m.len() - 1;
        if k == root {
            assert(m[root].parent is None);
        }
        lemma_final_parent(s, m, k);
        let p = m[k].parent->0 as int;
        let cp = tree_code(m, p);
        assert(ck == cp.push(ck.last()));
        assert(cp.subrange(0, cj.len() as int) =~= ck.subrange(0, cj.len() as int));
        if j != p {
            lemma_prefix_path_internal(s, m, j, p);
        }
    }
}

/// With at least one entry, no symbol's code is a prefix of another symbol's code.
pub proof fn lemma_codes_prefix_free(s: Seq<(u8, usize)>)
    requires
        s.len() >= 1,
        2 * s.len() - 1 <= usize::MAX,
    ensures
        forall|x: u8, y: u8| #![trigger huffman_codes(s)[x], huffman_codes(s)[y]]
            huffman_codes(s).contains_key(x) && huffman_codes(s).contains_key(y) && x != y
                ==> !is_prefix(huffman_codes(s)[x], huffman_codes(s)[y]),
{
    let m = final_slots(s);
    lemma_merged_inv(s, (2 * s.len() - 1) as nat);
    let c = huffman_codes(s);
    assert forall|x: u8, y: u8| c.contains_key(x) && c.contains_key(y) && x != y implies !is_prefix(#[trigger] c[x], #[trigger] c[y]) by {
        lemma_code_map_entry(s, s.len(), x);
        lemma_code_map_entry(s, s.len(), y);
        let jx = choose|j: int| 0 <= j < s.len() && s[j].0 == x && c[x] == leaf_code(s, j);
        let jy = choose|j: int| 0 <= j < s.len() && s[j].0 == y && c[y] == leaf_code(s, j);
        if is_prefix(c[x], c[y]) {
            lemma_prefix_path_internal(s, m, jx, jy);
        }
    }
}


/// The merges over `n` entries form one full binary tree rooted at the last
/// slot: the root has no parent; every other slot has a parent above it that
/// links to it; each internal slot has two different children, each of which
/// names it as parent; leaves have no children.
pub proof fn lemma_merge_forms_tree(s: Seq<(u8, usize)>)
    requires
        s.len() >= 1,
        2 * s.len() - 1 <= usize::MAX,
    ensures
        ({
            let m = final_slots(s);
            let n = s.len() as int;
            &&& m.len() == 2 * n - 1
            &&& m[2 * n - 2].parent is None
            &&& forall|k: int| 0 <= k < 2 * n - 2 ==> {
                &&& (#[trigger] m[k]).parent is Some
                &&& k < m[k].parent->0 < 2 * n - 1
                &&& (m[m[k].parent->0 as int].left == Some(k as usize) || m[m[k].parent->0 as int].right == Some(k as usize))
            }
            &&& forall|p: int| n <= p < 2 * n - 1 ==> {
                &&& (#[trigger] m[p]).left is Some
                &&& m[p].right is Some
                &&& m[p].left->0 != m[p].right->0
                &&& m[m[p].left->0 as int].parent == Some(p as usize)
                &&& m[m[p].right->0 as int].parent == Some(p as usize)
            }
            &&& forall|k: int| 0 <= k < n ==> (#[trigger] m[k]).left is None && m[k].right is None
        }),
{
    let m = final_slots(s);
    lemma_merged_inv(s, (2 * s.len() - 1) as nat);
    assert forall|k: int| 0 <= k < 2 * s.len() - 2 implies {
        &&& (#[trigger] m[k]).parent is Some
        &&& k < m[k].parent->0 < 2 * s.len() - 1
        &&& (m[m[k].parent->0 as int].left == Some(k as usize) || m[m[k].parent->0 as int].right == Some(k as usize))
    } by {
        lemma_final_parent(s, m, k);
    }
}

} // verus!
