use vstd::prelude::*;
use crate::program::{CodeModel, EffectOps, effect_of};
use crate::cfg::{
    CFG, block_label, block_successors, blocks_spec, decimal, digit_char, distinct_labels,
    edges_spec, edges_upto, elements_model, fall_through, has_leading_label, is_terminator_spec,
    label_map_spec, labels_spec, map_model, partition_state, synth_label,
};

verus! {

/// The number of labels in `s`.
pub open spec fn count_labels(s: Seq<CodeModel>) -> nat
    decreases s.len(),
{
    if s.len() == 0 {
        0
    } else {
        count_labels(s.drop_last()) + if s.last() is Label { 1nat } else { 0nat }
    }
}

/// The number of terminating effect instructions in `s`.
pub open spec fn count_terminators(s: Seq<CodeModel>) -> nat
    decreases s.len(),
{
    if s.len() == 0 {
        0
    } else {
        count_terminators(s.drop_last()) + if is_terminator_spec(s.last()) { 1nat } else { 0nat }
    }
}

/// Every label and every terminator closes one block, and the block left
/// open at the end is emitted too: a stream with `m` labels and `n`
/// terminators has `m + n + 1` blocks.
pub proof fn lemma_block_count(s: Seq<CodeModel>)
    ensures
        blocks_spec(s).len() == count_labels(s) + count_terminators(s) + 1,
    decreases s.len(),
{
    if s.len() > 0 {
        lemma_block_count(s.drop_last());
    }
}

/// Whether a label stands only first in each block of `bs`.
pub open spec fn labels_first(bs: Seq<Seq<CodeModel>>) -> bool {
    forall|i: int, j: int| 0 <= i < bs.len() && 0 < j < bs[i].len() ==> !(#[trigger] bs[i][j] is Label)
}

/// Whether a terminator stands only last in each block of `bs`.
pub open spec fn terminators_last(bs: Seq<Seq<CodeModel>>) -> bool {
    forall|i: int, j: int| 0 <= i < bs.len() && 0 <= j < bs[i].len() - 1
        ==> !is_terminator_spec(#[trigger] bs[i][j])
}

/// Whether each block of `bs` but the last ends in a terminator or is
/// followed by a block that begins with a label.
pub open spec fn boundaries_justified(bs: Seq<Seq<CodeModel>>) -> bool {
    forall|i: int| 0 <= i < bs.len() - 1 ==> {
        ||| (#[trigger] bs[i]).len() > 0 && is_terminator_spec(bs[i].last())
        ||| bs[i + 1].len() > 0 && bs[i + 1][0] is Label
    }
}

/// Whether `bs` is shaped as basic blocks: a label stands only first in a
/// block, a terminator only last, and a block ends only where it ends in a
/// terminator or where the next block begins with a label.
pub open spec fn basic_block_shape(bs: Seq<Seq<CodeModel>>) -> bool {
    labels_first(bs) && terminators_last(bs) && boundaries_justified(bs)
}

/// The block list with `c` added to its last block.
pub open spec fn extend_last(all: Seq<Seq<CodeModel>>, c: CodeModel) -> Seq<Seq<CodeModel>> {
    all.drop_last().push(all.last().push(c))
}

proof fn lemma_shape_push_label(all: Seq<Seq<CodeModel>>, c: CodeModel)
    requires
        basic_block_shape(all),
        all.len() > 0,
        c is Label,
    ensures
        basic_block_shape(all.push(seq![c])),
{
    let n = all.push(seq![c]);
    assert forall|i: int, j: int| 0 <= i < n.len() && 0 < j < n[i].len() implies !(#[trigger] n[i][j] is Label) by {
        assert(i < all.len());
        assert(n[i] == all[i]);
    }
    assert forall|i: int, j: int| 0 <= i < n.len() && 0 <= j < n[i].len() - 1
        implies !is_terminator_spec(#[trigger] n[i][j]) by {
        assert(i < all.len());
        assert(n[i] == all[i]);
    }
    assert forall|i: int| 0 <= i < n.len() - 1 implies {
        ||| (#[trigger] n[i]).len() > 0 && is_terminator_spec(n[i].last())
        ||| n[i + 1].len() > 0 && n[i + 1][0] is Label
    } by {
        assert(n[i] == all[i]);
        if i + 1 < all.len() {
            assert(n[i + 1] == all[i + 1]);
        }
    }
}

proof fn lemma_shape_extend_last(all: Seq<Seq<CodeModel>>, c: CodeModel)
    requires
        basic_block_shape(all),
        all.len() > 0,
        forall|j: int| 0 <= j < all.last().len() ==> !is_terminator_spec(#[trigger] all.last()[j]),
        !(c is Label),
    ensures
        basic_block_shape(extend_last(all, c)),
{
    let n = extend_last(all, c);
    let k = all.len() - 1;
    assert forall|i: int, j: int| 0 <= i < n.len() && 0 < j < n[i].len() implies !(#[trigger] n[i][j] is Label) by {
        if i < k {
            assert(n[i] == all[i]);
        } else if j < all[k].len() {
            assert(n[i][j] == all[k][j]);
        }
    }
    assert forall|i: int, j: int| 0 <= i < n.len() && 0 <= j < n[i].len() - 1
        implies !is_terminator_spec(#[trigger] n[i][j]) by {
        if i < k {
            assert(n[i] == all[i]);
        } else {
            assert(n[i][j] == all.last()[j]);
        }
    }
    assert forall|i: int| 0 <= i < n.len() - 1 implies {
        ||| (#[trigger] n[i]).len() > 0 && is_terminator_spec(n[i].last())
        ||| n[i + 1].len() > 0 && n[i + 1][0] is Label
    } by {
        assert(n[i] == all[i]);
        if i + 1 < k {
            assert(n[i + 1] == all[i + 1]);
        } else if all[k].len() > 0 {
            assert(n[i + 1][0] == all[k][0]);
        }
    }
}

proof fn lemma_shape_push_empty(all: Seq<Seq<CodeModel>>)
    requires
        basic_block_shape(all),
        all.len() > 0,
        all.last().len() > 0,
        is_terminator_spec(all.last().last()),
    ensures
        basic_block_shape(all.push(Seq::empty())),
{
    let n = all.push(Seq::empty());
    assert forall|i: int, j: int| 0 <= i < n.len() && 0 < j < n[i].len() implies !(#[trigger] n[i][j] is Label) by {
        assert(n[i] == all[i]);
    }
    assert forall|i: int, j: int| 0 <= i < n.len() && 0 <= j < n[i].len() - 1
        implies !is_terminator_spec(#[trigger] n[i][j]) by {
        assert(n[i] == all[i]);
    }
    assert forall|i: int| 0 <= i < n.len() - 1 implies {
        ||| (#[trigger] n[i]).len() > 0 && is_terminator_spec(n[i].last())
        ||| n[i + 1].len() > 0 && n[i + 1][0] is Label
    } by {
        assert(n[i] == all[i]);
        if i + 1 < all.len() {
            assert(n[i + 1] == all[i + 1]);
        }
    }
}

/// Reading the closed blocks and then the open block gives the stream back.
proof fn lemma_partition_state_flatten(s: Seq<CodeModel>)
    ensures
        partition_state(s).0.flatten() + partition_state(s).1 == s,
    decreases s.len(),
{
    if s.len() == 0 {
        assert(partition_state(s).0.flatten() + partition_state(s).1 =~= s);
    } else {
        let p = s.drop_last();
        lemma_partition_state_flatten(p);
        let (bs, acc) = partition_state(p);
        let c = s.last();
        let (bs2, acc2) = partition_state(s);
        assert(p.push(c) =~= s);
        if c is Label {
            bs.lemma_flatten_push(acc);
            assert(bs2.flatten() + acc2 =~= s);
        } else if is_terminator_spec(c) {
            bs.lemma_flatten_push(acc.push(c));
            assert(bs2.flatten() + acc2 =~= s);
        } else {
            assert(bs2.flatten() + acc2 =~= s);
        }
    }
}

/// The closed blocks and the open block have the shape of basic blocks at
/// each step of the left-to-right pass, and the open block holds no terminator.
proof fn lemma_partition_state_shape(s: Seq<CodeModel>)
    ensures
        basic_block_shape(partition_state(s).0.push(partition_state(s).1)),
        forall|j: int| 0 <= j < partition_state(s).1.len()
            ==> !is_terminator_spec(#[trigger] partition_state(s).1[j]),
    decreases s.len(),
{
    if s.len() > 0 {
        let p = s.drop_last();
        lemma_partition_state_shape(p);
        let (bs, acc) = partition_state(p);
        let c = s.last();
        let old_all = bs.push(acc);
        let (bs2, acc2) = partition_state(s);
        let all = bs2.push(acc2);
        assert(old_all.last() == acc);
        assert(old_all.drop_last() =~= bs);
        if c is Label {
            assert(all =~= old_all.push(seq![c]));
            lemma_shape_push_label(old_all, c);
        } else if is_terminator_spec(c) {
            assert(all =~= extend_last(old_all, c).push(Seq::empty()));
            lemma_shape_extend_last(old_all, c);
            lemma_shape_push_empty(extend_last(old_all, c));
        } else {
            assert(all =~= extend_last(old_all, c));
            lemma_shape_extend_last(old_all, c);
        }
    }
}

/// The blocks partition the stream: read one after another they give the
/// stream back, and each has the shape of a basic block.
pub proof fn lemma_blocks_partition(s: Seq<CodeModel>)
    ensures
        blocks_spec(s).flatten() == s,
        basic_block_shape(blocks_spec(s)),
{
    let (bs, acc) = partition_state(s);
    lemma_partition_state_flatten(s);
    lemma_partition_state_shape(s);
    bs.lemma_flatten_push(acc);
}

/// Different numbers are written differently in decimal.
pub proof fn lemma_decimal_injective(a: nat, b: nat)
    requires
        decimal(a) == decimal(b),
    ensures
        a == b,
    decreases a,
{
    if a >= 10 {
        assert(decimal(a / 10).len() >= 1) by { reveal_with_fuel(decimal, 2); }
    }
    if b >= 10 {
        assert(decimal(b / 10).len() >= 1) by { reveal_with_fuel(decimal, 2); }
    }
    if a >= 10 && b >= 10 {
        assert(decimal(a).last() == digit_char(a % 10));
        assert(decimal(b).last() == digit_char(b % 10));
        assert(decimal(a / 10) == decimal(a).drop_last());
        assert(decimal(b / 10) == decimal(b).drop_last());
        lemma_digit_injective(a % 10, b % 10);
        lemma_decimal_injective(a / 10, b / 10);
    } else if a < 10 && b < 10 {
        assert(decimal(a)[0] == digit_char(a));
        assert(decimal(b)[0] == digit_char(b));
        lemma_digit_injective(a, b);
    } else if a < 10 {
        assert(decimal(a).len() == 1);
        assert(decimal(b).len() == decimal(b / 10).len() + 1);
    } else {
        assert(decimal(b).len() == 1);
        assert(decimal(a).len() == decimal(a / 10).len() + 1);
    }
}

/// Different digits are different characters.
proof fn lemma_digit_injective(a: nat, b: nat)
    requires
        a < 10,
        b < 10,
        digit_char(a) == digit_char(b),
    ensures
        a == b,
{
}

/// A list without repetitions is its own list of distinct labels.
proof fn lemma_distinct_of_unique(s: Seq<Seq<char>>)
    requires
        s.no_duplicates(),
    ensures
        distinct_labels(s) == s,
    decreases s.len(),
{
    if s.len() > 0 {
        let p = s.drop_last();
        assert(p.no_duplicates());
        lemma_distinct_of_unique(p);
        assert(!p.contains(s.last()));
        assert(p.push(s.last()) =~= s);
    }
}

/// Where the leading labels of the blocks are pairwise different and none
/// has the shape of a synthesized label, every block's label is unique, and
/// block `j` without a leading label is labelled `b<j>`.
pub proof fn lemma_labels_unique(bs: Seq<Seq<CodeModel>>)
    requires
        forall|i: int, j: int| #![trigger bs[i], bs[j]]
            0 <= i < j < bs.len() && has_leading_label(bs[i]) && has_leading_label(bs[j])
                ==> bs[i][0]->Label_0 != bs[j][0]->Label_0,
        forall|i: int, n: nat| #![trigger bs[i], synth_label(n)]
            0 <= i < bs.len() && has_leading_label(bs[i]) ==> bs[i][0]->Label_0 != synth_label(n),
    ensures
        labels_spec(bs).no_duplicates(),
        labels_spec(bs).len() == bs.len(),
        forall|j: int| 0 <= j < bs.len() ==> #[trigger] labels_spec(bs)[j] == block_label(bs[j], j as nat),
    decreases bs.len(),
{
    if bs.len() > 0 {
        let p = bs.drop_last();
        let n = bs.len() - 1;
        assert forall|i: int, j: int| #![trigger p[i], p[j]]
            0 <= i < j < p.len() && has_leading_label(p[i]) && has_leading_label(p[j])
                implies p[i][0]->Label_0 != p[j][0]->Label_0 by {
            assert(bs[i] == p[i] && bs[j] == p[j]);
        }
        assert forall|i: int, m: nat| #![trigger p[i], synth_label(m)]
            0 <= i < p.len() && has_leading_label(p[i]) implies p[i][0]->Label_0 != synth_label(m) by {
            assert(bs[i] == p[i]);
        }
        lemma_labels_unique(p);
        let prev = labels_spec(p);
        lemma_distinct_of_unique(prev);
        let l = block_label(bs[n], n as nat);
        assert(labels_spec(bs) == prev.push(l));
        assert forall|j: int| 0 <= j < prev.len() implies prev[j] != l by {
            assert(prev[j] == block_label(p[j], j as nat));
            assert(p[j] == bs[j]);
            if !has_leading_label(bs[j]) && !has_leading_label(bs[n]) {
                if decimal(j as nat) == decimal(n as nat) {
                    lemma_decimal_injective(j as nat, n as nat);
                }
                assert(synth_label(j as nat)[0] == 'b');
                assert(synth_label(j as nat).drop_first() =~= decimal(j as nat));
                assert(synth_label(n as nat).drop_first() =~= decimal(n as nat));
            }
        }
        assert(labels_spec(bs).no_duplicates());
    }
}

/// Whether the labels of the stream `s` are pairwise different.
pub open spec fn stream_labels_distinct(s: Seq<CodeModel>) -> bool {
    forall|a: int, b: int| #![trigger s[a], s[b]]
        0 <= a < b < s.len() && s[a] is Label && s[b] is Label ==> s[a]->Label_0 != s[b]->Label_0
}

/// Whether each block of `all` that begins with a label begins with a label
/// of `s`, and no two blocks begin with the same label.
pub open spec fn leading_labels_from(all: Seq<Seq<CodeModel>>, s: Seq<CodeModel>) -> bool {
    &&& forall|i: int| 0 <= i < all.len() && has_leading_label(#[trigger] all[i])
        ==> exists|k: int| 0 <= k < s.len() && s[k] == all[i][0]
    &&& forall|i: int, j: int| #![trigger all[i], all[j]]
        0 <= i < j < all.len() && has_leading_label(all[i]) && has_leading_label(all[j])
            ==> all[i][0]->Label_0 != all[j][0]->Label_0
}

proof fn lemma_leading_labels(s: Seq<CodeModel>)
    requires
        stream_labels_distinct(s),
    ensures
        leading_labels_from(partition_state(s).0.push(partition_state(s).1), s),
    decreases s.len(),
{
    if s.len() > 0 {
        let p = s.drop_last();
        assert forall|a: int, b: int| #![trigger p[a], p[b]]
            0 <= a < b < p.len() && p[a] is Label && p[b] is Label implies p[a]->Label_0 != p[b]->Label_0 by {
            assert(p[a] == s[a] && p[b] == s[b]);
        }
        lemma_leading_labels(p);
        let (bs, acc) = partition_state(p);
        let old_all = bs.push(acc);
        let (bs2, acc2) = partition_state(s);
        let all = bs2.push(acc2);
        let c = s.last();
        let n = old_all.len();
        assert forall|i: int| 0 <= i < n && has_leading_label(#[trigger] old_all[i])
            implies exists|k: int| 0 <= k < s.len() - 1 && s[k] == old_all[i][0] by {
            let k = choose|k: int| 0 <= k < p.len() && p[k] == old_all[i][0];
            assert(s[k] == p[k]);
        }
        if c is Label {
            assert(all =~= old_all.push(seq![c]));
            assert forall|i: int| 0 <= i < all.len() && has_leading_label(#[trigger] all[i])
                implies exists|k: int| 0 <= k < s.len() && s[k] == all[i][0] by {
                if i < n {
                    assert(all[i] == old_all[i]);
                } else {
                    assert(s[s.len() - 1] == all[i][0]);
                }
            }
            assert forall|i: int, j: int| #![trigger all[i], all[j]]
                0 <= i < j < all.len() && has_leading_label(all[i]) && has_leading_label(all[j])
                    implies all[i][0]->Label_0 != all[j][0]->Label_0 by {
                assert(all[i] == old_all[i]);
                if j < n {
                    assert(all[j] == old_all[j]);
                } else {
                    let k = choose|k: int| 0 <= k < s.len() - 1 && s[k] == old_all[i][0];
                    assert(all[j][0] == s[s.len() - 1]);
                    assert(s[k]->Label_0 != s[s.len() - 1]->Label_0);
                }
            }
        } else {
            let ext = old_all.drop_last().push(old_all.last().push(c));
            if is_terminator_spec(c) {
                assert(all =~= ext.push(Seq::empty()));
            } else {
                assert(all =~= ext);
            }
            assert(old_all.last() == old_all[n - 1]);
            assert forall|i: int| 0 <= i < all.len() && has_leading_label(#[trigger] all[i])
                implies i < n && all[i][0] == old_all[i][0] && has_leading_label(old_all[i]) by {
                if i < n - 1 {
                    assert(all[i] == old_all[i]);
                } else if i == n - 1 {
                    assert(all[i] == old_all[n - 1].push(c));
                    if old_all[n - 1].len() == 0 {
                        assert(all[i][0] == c);
                    }
                }
            }
            assert forall|i: int| 0 <= i < all.len() && has_leading_label(#[trigger] all[i])
                implies exists|k: int| 0 <= k < s.len() && s[k] == all[i][0] by {
                assert(has_leading_label(old_all[i]));
            }
            assert forall|i: int, j: int| #![trigger all[i], all[j]]
                0 <= i < j < all.len() && has_leading_label(all[i]) && has_leading_label(all[j])
                    implies all[i][0]->Label_0 != all[j][0]->Label_0 by {
                assert(has_leading_label(old_all[i]) && has_leading_label(old_all[j]));
            }
        }
    }
}

/// Where the labels of the stream are pairwise different and none has the
/// shape of a synthesized label, every block gets a label of its own, and
/// the label map has one entry for each block.
pub proof fn lemma_stream_labels_unique(s: Seq<CodeModel>)
    requires
        stream_labels_distinct(s),
        forall|k: int, n: nat| #![trigger s[k], synth_label(n)]
            0 <= k < s.len() && s[k] is Label ==> s[k]->Label_0 != synth_label(n),
    ensures
        labels_spec(blocks_spec(s)).no_duplicates(),
        label_map_spec(labels_spec(blocks_spec(s))).len() == blocks_spec(s).len(),
{
    let bs = blocks_spec(s);
    lemma_leading_labels(s);
    assert forall|i: int, n: nat| #![trigger bs[i], synth_label(n)]
        0 <= i < bs.len() && has_leading_label(bs[i]) implies bs[i][0]->Label_0 != synth_label(n) by {
        let k = choose|k: int| 0 <= k < s.len() && s[k] == bs[i][0];
        assert(s[k] is Label);
    }
    lemma_labels_unique(bs);
    lemma_distinct_of_unique(labels_spec(bs));
}

/// The edge list of fewer blocks is a prefix of the edge list of more.
proof fn lemma_edges_prefix(bs: Seq<Seq<CodeModel>>, labels: Seq<Seq<char>>, m: int, n: int)
    requires
        0 <= m <= n,
    ensures
        edges_upto(bs, labels, m).len() <= edges_upto(bs, labels, n).len(),
        forall|k: int| 0 <= k < edges_upto(bs, labels, m).len()
            ==> #[trigger] edges_upto(bs, labels, n)[k] == edges_upto(bs, labels, m)[k],
    decreases n - m,
{
    if m < n {
        lemma_edges_prefix(bs, labels, m, n - 1);
    }
}

/// The edge of a non-empty block `i` stands in the edge list after the edges
/// of the non-empty blocks before it.
proof fn lemma_edge_of_block(bs: Seq<Seq<CodeModel>>, labels: Seq<Seq<char>>, i: int)
    requires
        0 <= i < bs.len(),
        bs[i].len() > 0,
    ensures
        edges_upto(bs, labels, i).len() < edges_spec(bs, labels).len(),
        edges_spec(bs, labels)[edges_upto(bs, labels, i).len() as int]
            == (labels[i], block_successors(bs, i, labels)),
{
    lemma_edges_prefix(bs, labels, i + 1, bs.len() as int);
    let k = edges_upto(bs, labels, i).len() as int;
    assert(edges_upto(bs, labels, i + 1)[k] == (labels[i], block_successors(bs, i, labels)));
}

/// A block that ends in a jump or a branch has exactly that instruction's
/// targets as successors, in their order.
pub proof fn lemma_jump_successors(bs: Seq<Seq<CodeModel>>, labels: Seq<Seq<char>>, i: int, op: EffectOps, targets: Seq<Seq<char>>)
    requires
        0 <= i < bs.len(),
        bs[i].len() > 0,
        effect_of(bs[i].last()) == Some((op, targets)),
        op == EffectOps::Jump || op == EffectOps::Branch,
    ensures
        edges_spec(bs, labels)[edges_upto(bs, labels, i).len() as int] == (labels[i], targets),
{
    lemma_edge_of_block(bs, labels, i);
}

/// A block that ends in a return has no successors, wherever it stands.
pub proof fn lemma_return_successors(bs: Seq<Seq<CodeModel>>, labels: Seq<Seq<char>>, i: int, targets: Seq<Seq<char>>)
    requires
        0 <= i < bs.len(),
        bs[i].len() > 0,
        effect_of(bs[i].last()) == Some((EffectOps::Return, targets)),
    ensures
        edges_spec(bs, labels)[edges_upto(bs, labels, i).len() as int] == (labels[i], Seq::<Seq<char>>::empty()),
{
    lemma_edge_of_block(bs, labels, i);
}

/// A non-empty block whose last element is no terminator falls through: its
/// only successor is the label of the next block, or it has none if it is
/// the last block.
pub proof fn lemma_fall_through_successors(bs: Seq<Seq<CodeModel>>, labels: Seq<Seq<char>>, i: int)
    requires
        0 <= i < bs.len(),
        bs.len() <= labels.len(),
        bs[i].len() > 0,
        !is_terminator_spec(bs[i].last()),
    ensures
        edges_spec(bs, labels)[edges_upto(bs, labels, i).len() as int].1
            == (if i + 1 < labels.len() { seq![labels[i + 1]] } else { Seq::<Seq<char>>::empty() }),
{
    lemma_edge_of_block(bs, labels, i);
    assert(block_successors(bs, i, labels) == fall_through(i, labels));
}

/// Two graphs built from the same instruction stream have the same blocks,
/// labels, label map and edges.
pub proof fn lemma_build_deterministic(s: Seq<CodeModel>, a: CFG, b: CFG)
    requires
        a.built_from(s),
        b.built_from(s),
    ensures
        a.blocks.deep_view() == b.blocks.deep_view(),
        a.labels.deep_view() == b.labels.deep_view(),
        map_model(a.map@) == map_model(b.map@),
        elements_model(a.elements@) == elements_model(b.elements@),
{
}

} // verus!
