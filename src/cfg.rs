use vstd::prelude::*;
use crate::program::{Code, CodeModel, EffectOps, Function, Instruction, effect_of};

verus! {

/// Whether an operation ends a basic block: a jump, a branch or a return.
pub open spec fn is_terminator_op(op: EffectOps) -> bool {
    op == EffectOps::Jump || op == EffectOps::Branch || op == EffectOps::Return
}

/// Whether an element is a terminating effect instruction.
pub open spec fn is_terminator_spec(c: CodeModel) -> bool {
    match effect_of(c) {
        Some((op, _)) => is_terminator_op(op),
        None => false,
    }
}

/// The successor of a block that falls through: the label of the next block,
/// if there is one.
pub open spec fn fall_through(idx: int, labels: Seq<Seq<char>>) -> Seq<Seq<char>> {
    if 0 <= idx + 1 < labels.len() {
        seq![labels[idx + 1]]
    } else {
        Seq::empty()
    }
}

/// The successors of the block at position `idx` whose last element is `last`.
pub open spec fn successors_spec(last: CodeModel, idx: int, labels: Seq<Seq<char>>) -> Seq<Seq<char>> {
    match effect_of(last) {
        Some((op, targets)) => {
            if op == EffectOps::Jump || op == EffectOps::Branch {
                targets
            } else if op == EffectOps::Return {
                Seq::empty()
            } else {
                fall_through(idx, labels)
            }
        },
        _ => fall_through(idx, labels),
    }
}

/// Whether `instruction` ends a basic block.
pub fn is_terminator(instruction: &Instruction) -> (r: bool)
    ensures
        r == is_terminator_spec(CodeModel::Instr(instruction.deep_view())),
{
    if let Instruction::Effect { op, .. } = instruction {
        return match op {
            EffectOps::Jump | EffectOps::Branch | EffectOps::Return => true,
            _ => false,
        };
    }
    false
}

/// The label of the block after position `idx`, as a list of at most one label.
pub fn next_block_as_successor(idx: &usize, pos_to_label: &Vec<String>) -> (r: Vec<String>)
    ensures
        r.deep_view() == fall_through(*idx as int, pos_to_label.deep_view()),
{
    let mut r: Vec<String> = Vec::new();
    if pos_to_label.len() > 0 && *idx < pos_to_label.len() - 1 {
        r.push(pos_to_label[*idx + 1].clone());
    }
    assert(r.deep_view() =~= fall_through(*idx as int, pos_to_label.deep_view()));
    r
}

/// The successors of the block at position `idx` that ends in `inst`.
pub fn successors(inst: &Instruction, idx: &usize, pos_to_label: &Vec<String>) -> (r: Vec<String>)
    ensures
        r.deep_view() == successors_spec(CodeModel::Instr(inst.deep_view()), *idx as int, pos_to_label.deep_view()),
{
    if let Instruction::Effect { op, labels, .. } = inst {
        match op {
            EffectOps::Jump | EffectOps::Branch => {
                let r = labels.clone();
                assert(r.deep_view() =~= labels.deep_view());
                r
            },
            EffectOps::Return => {
                let r: Vec<String> = Vec::new();
                assert(r.deep_view() =~= Seq::<Seq<char>>::empty());
                r
            },
            _ => next_block_as_successor(idx, pos_to_label),
        }
    } else {
        next_block_as_successor(idx, pos_to_label)
    }
}


/// The decimal digit for `d < 10`.
pub open spec fn digit_char(d: nat) -> char {
    if d == 0 { '0' } else if d == 1 { '1' } else if d == 2 { '2' } else if d == 3 { '3' }
    else if d == 4 { '4' } else if d == 5 { '5' } else if d == 6 { '6' } else if d == 7 { '7' }
    else if d == 8 { '8' } else { '9' }
}

/// `n` written in decimal, without sign or leading zeros.
pub open spec fn decimal(n: nat) -> Seq<char>
    decreases n,
{
    if n < 10 {
        seq![digit_char(n)]
    } else {
        decimal(n / 10).push(digit_char(n % 10))
    }
}

/// The label given to a block without a leading label when `n` labels have
/// been assigned before it: `b` followed by `n` in decimal.
pub open spec fn synth_label(n: nat) -> Seq<char> {
    seq!['b'] + decimal(n)
}

/// The labels of `s` without repetitions, in order of first occurrence.
pub open spec fn distinct_labels(s: Seq<Seq<char>>) -> Seq<Seq<char>>
    decreases s.len(),
{
    if s.len() == 0 {
        Seq::empty()
    } else {
        let d = distinct_labels(s.drop_last());
        if d.contains(s.last()) {
            d
        } else {
            d.push(s.last())
        }
    }
}

/// Whether block `b` begins with a label.
pub open spec fn has_leading_label(b: Seq<CodeModel>) -> bool {
    b.len() > 0 && b[0] is Label
}

/// The label of block `b` when `n` distinct labels have been assigned before it.
pub open spec fn block_label(b: Seq<CodeModel>, n: nat) -> Seq<char> {
    if has_leading_label(b) {
        b[0]->Label_0
    } else {
        synth_label(n)
    }
}

/// The label of each block, assigned in block order.
pub open spec fn labels_spec(bs: Seq<Seq<CodeModel>>) -> Seq<Seq<char>>
    decreases bs.len(),
{
    if bs.len() == 0 {
        Seq::empty()
    } else {
        let prev = labels_spec(bs.drop_last());
        prev.push(block_label(bs.last(), distinct_labels(prev).len()))
    }
}

/// The position of each label: the last block that carries it.
pub open spec fn label_positions(labels: Seq<Seq<char>>) -> Map<Seq<char>, int>
    decreases labels.len(),
{
    if labels.len() == 0 {
        Map::empty()
    } else {
        label_positions(labels.drop_last()).insert(labels.last(), labels.len() - 1)
    }
}

/// The label to position map as a list of entries, one per distinct label,
/// in order of first assignment.
pub open spec fn label_map_spec(labels: Seq<Seq<char>>) -> Seq<(Seq<char>, int)> {
    distinct_labels(labels).map_values(|k: Seq<char>| (k, label_positions(labels)[k]))
}

/// The model of a label to position map.
pub open spec fn map_model(entries: Seq<(String, usize)>) -> Seq<(Seq<char>, int)> {
    entries.map_values(|e: (String, usize)| (e.0@, e.1 as int))
}

/// Whether `x` occurs in `distinct_labels(s)` exactly when it occurs in `s`;
/// no label occurs in it twice.
pub proof fn lemma_distinct_labels(s: Seq<Seq<char>>)
    ensures
        forall|x: Seq<char>| distinct_labels(s).contains(x) <==> s.contains(x),
        distinct_labels(s).no_duplicates(),
    decreases s.len(),
{
    if s.len() > 0 {
        lemma_distinct_labels(s.drop_last());
        assert forall|x: Seq<char>| distinct_labels(s).contains(x) <==> s.contains(x) by {
            if s.contains(x) && x != s.last() {
                let j = choose|j: int| 0 <= j < s.len() && s[j] == x;
                assert(s.drop_last()[j] == x);
            }
            if s.drop_last().contains(x) {
                let j = choose|j: int| 0 <= j < s.len() - 1 && s.drop_last()[j] == x;
                assert(s[j] == x);
            }
            if x == s.last() {
                assert(s[s.len() - 1] == x);
            }
            let d = distinct_labels(s.drop_last());
            if !d.contains(s.last()) {
                assert(d.push(s.last())[d.len() as int] == s.last());
                if d.contains(x) {
                    let j = choose|j: int| 0 <= j < d.len() && d[j] == x;
                    assert(d.push(s.last())[j] == x);
                }
            }
        }
    }
}

/// Each block gets exactly one label.
pub proof fn lemma_labels_len(bs: Seq<Seq<CodeModel>>)
    ensures
        labels_spec(bs).len() == bs.len(),
    decreases bs.len(),
{
    if bs.len() > 0 {
        lemma_labels_len(bs.drop_last());
    }
}

/// Relies on `<usize as ToString>::to_string`, which goes through `Display`:
/// an unsigned integer is written in decimal, without sign, padding or
/// leading zeros.
#[verifier::external_body]
fn decimal_string(n: usize) -> (r: String)
    ensures
        r@ == decimal(n as nat),
{
    n.to_string()
}

/// The label of a block without a leading label when `n` labels have been
/// assigned before it.
fn synthesized_label(n: usize) -> (r: String)
    ensures
        r@ == synth_label(n as nat),
{
    let digits = decimal_string(n);
    proof {
        reveal_strlit("b");
    }
    let r = String::from_str("b").concat(digits.as_str());
    assert(r@ =~= synth_label(n as nat));
    r
}

/// Assigns a label to each block and builds the label to position map.
///
/// A block that begins with a label gets that label; any other block, an
/// empty one included, gets `b<n>`, where `n` is the number of distinct
/// labels assigned before it. The map holds one entry per distinct label, in
/// order of first assignment, with the last position that carries it.
pub fn blocks_to_labels_map(blocks: &Vec<Vec<Code>>) -> (r: (Vec<String>, Vec<(String, usize)>))
    ensures
        r.0.deep_view() == labels_spec(blocks.deep_view()),
        map_model(r.1@) == label_map_spec(labels_spec(blocks.deep_view())),
{
    let ghost bs = blocks.deep_view();
    let mut pos_to_label: Vec<String> = Vec::new();
    let mut block_map: Vec<(String, usize)> = Vec::new();
    let mut i: usize = 0;
    while i < blocks.len()
        invariant
            i <= blocks.len(),
            bs == blocks.deep_view(),
            pos_to_label.deep_view() == labels_spec(bs.take(i as int)),
            map_model(block_map@) == label_map_spec(pos_to_label.deep_view()),
        decreases blocks.len() - i,
    {
        let ghost prev = pos_to_label.deep_view();
        proof {
            lemma_distinct_labels(prev);
        }
        let block = &blocks[i];
        assert(block.deep_view() == bs[i as int]);
        let label = if block.len() > 0 {
            match &block[0] {
                Code::Label { label } => label.clone(),
                _ => synthesized_label(block_map.len()),
            }
        } else {
            synthesized_label(block_map.len())
        };
        assert(bs.take(i + 1).drop_last() =~= bs.take(i as int));
        assert(map_model(block_map@).len() == block_map@.len());
        assert(block.len() > 0 ==> bs[i as int][0] == block@[0].deep_view());
        assert(label@ == block_label(bs[i as int], distinct_labels(prev).len()));
        pos_to_label.push(label.clone());
        let ghost cur = pos_to_label.deep_view();
        assert(cur =~= prev.push(label@));
        assert(cur.drop_last() =~= prev);
        let mut j: usize = 0;
        let mut found = false;
        while j < block_map.len() && !found
            invariant
                j <= block_map.len(),
                map_model(block_map@) == label_map_spec(prev),
                found ==> j < block_map.len() && block_map@[j as int].0@ == label@,
                !found ==> forall|k: int| 0 <= k < j ==> block_map@[k].0@ != label@,
            decreases block_map.len() - j + (if found { 0int } else { 1int }),
        {
            if block_map[j].0 == label {
                found = true;
            } else {
                j = j + 1;
            }
        }
        let ghost old_map = block_map@;
        proof {
            lemma_labels_len(bs.take(i as int));
            assert(cur.last() == label@);
            assert(label_positions(cur) == label_positions(prev).insert(label@, i as int));
            assert(forall|k: int| 0 <= k < old_map.len() ==>
                map_model(old_map)[k] == label_map_spec(prev)[k]);
            if found {
                assert(map_model(old_map)[j as int].0 == label@);
                assert(distinct_labels(prev).contains(label@));
                assert(distinct_labels(cur) == distinct_labels(prev));
            } else {
                assert forall|k: int| 0 <= k < distinct_labels(prev).len()
                    implies distinct_labels(prev)[k] != label@ by {
                    assert(map_model(old_map)[k].0 == old_map[k].0@);
                }
                assert(!distinct_labels(prev).contains(label@));
                assert(distinct_labels(cur) == distinct_labels(prev).push(label@));
            }
        }
        if found {
            block_map.set(j, (label, i));
        } else {
            block_map.push((label, i));
        }
        proof {
            let d = distinct_labels(prev);
            assert(map_model(block_map@).len() == label_map_spec(cur).len());
            assert forall|k: int| 0 <= k < block_map@.len()
                implies map_model(block_map@)[k] == label_map_spec(cur)[k] by {
                if k < old_map.len() && !(found && k == j) {
                    assert(block_map@[k] == old_map[k]);
                    assert(map_model(old_map)[k] == label_map_spec(prev)[k]);
                    assert(d[k] != label@) by {
                        if found {
                            assert(d[j as int] == label@);
                        } else {
                            assert(map_model(old_map)[k].0 == old_map[k].0@);
                        }
                    }
                    assert(distinct_labels(cur)[k] == d[k]);
                }
            }
            assert(map_model(block_map@) =~= label_map_spec(cur));
        }
        i = i + 1;
    }
    assert(bs.take(i as int) =~= bs);
    (pos_to_label, block_map)
}

/// One node of the control-flow graph: a block's label and the labels of
/// its successors, in order.
#[derive(Debug)]
pub struct CFGElement {
    pub label: String,
    pub successors: Vec<String>,
}

impl CFGElement {
    /// The element as a label and a list of successor labels.
    pub open spec fn model(&self) -> (Seq<char>, Seq<Seq<char>>) {
        (self.label@, self.successors.deep_view())
    }
}

/// The models of a list of graph elements.
pub open spec fn elements_model(es: Seq<CFGElement>) -> Seq<(Seq<char>, Seq<Seq<char>>)> {
    es.map_values(|e: CFGElement| e.model())
}

/// The successors of block `i` of `bs`, given the labels of all blocks.
pub open spec fn block_successors(bs: Seq<Seq<CodeModel>>, i: int, labels: Seq<Seq<char>>) -> Seq<Seq<char>> {
    successors_spec(bs[i].last(), i, labels)
}

/// The edge list of the first `n` blocks: for each non-empty block, in block
/// order, its label and its successors.
pub open spec fn edges_upto(bs: Seq<Seq<CodeModel>>, labels: Seq<Seq<char>>, n: int) -> Seq<(Seq<char>, Seq<Seq<char>>)>
    decreases n,
{
    if n <= 0 {
        Seq::empty()
    } else {
        let prev = edges_upto(bs, labels, n - 1);
        if bs[n - 1].len() == 0 {
            prev
        } else {
            prev.push((labels[n - 1], block_successors(bs, n - 1, labels)))
        }
    }
}

/// The edge list of all blocks.
pub open spec fn edges_spec(bs: Seq<Seq<CodeModel>>, labels: Seq<Seq<char>>) -> Seq<(Seq<char>, Seq<Seq<char>>)> {
    edges_upto(bs, labels, bs.len() as int)
}

/// Builds the edge list: every non-empty block, in order, with its label and
/// its successors; empty blocks are left out.
pub fn create_cfg_as_list(pos_to_label: &Vec<String>, blocks: &Vec<Vec<Code>>) -> (r: Vec<CFGElement>)
    requires
        blocks.len() <= pos_to_label.len(),
    ensures
        elements_model(r@) == edges_spec(blocks.deep_view(), pos_to_label.deep_view()),
{
    let ghost bs = blocks.deep_view();
    let ghost labels = pos_to_label.deep_view();
    let mut elements: Vec<CFGElement> = Vec::new();
    let mut idx: usize = 0;
    while idx < blocks.len()
        invariant
            idx <= blocks.len() <= pos_to_label.len(),
            bs == blocks.deep_view(),
            labels == pos_to_label.deep_view(),
            elements_model(elements@) == edges_upto(bs, labels, idx as int),
        decreases blocks.len() - idx,
    {
        let block = &blocks[idx];
        assert(block.deep_view() == bs[idx as int]);
        if block.len() > 0 {
            let last = &block[block.len() - 1];
            assert(last.deep_view() == bs[idx as int].last());
            let succ = match last {
                Code::Instruction(inst) => successors(inst, &idx, pos_to_label),
                _ => next_block_as_successor(&idx, pos_to_label),
            };
            let element = CFGElement { label: pos_to_label[idx].clone(), successors: succ };
            let ghost before = elements@;
            elements.push(element);
            assert(elements_model(elements@) =~= elements_model(before).push(element.model()));
        }
        idx = idx + 1;
    }
    elements
}

/// The closed blocks and the open block after reading `s` from left to right.
///
/// A label closes the open block and opens a new one that begins with it; a
/// terminator is added to the open block and closes it; any other element is
/// added to the open block.
pub open spec fn partition_state(s: Seq<CodeModel>) -> (Seq<Seq<CodeModel>>, Seq<CodeModel>)
    decreases s.len(),
{
    if s.len() == 0 {
        (Seq::empty(), Seq::empty())
    } else {
        let (bs, acc) = partition_state(s.drop_last());
        let c = s.last();
        if c is Label {
            (bs.push(acc), seq![c])
        } else if is_terminator_spec(c) {
            (bs.push(acc.push(c)), Seq::empty())
        } else {
            (bs, acc.push(c))
        }
    }
}

/// The basic blocks of `s`: the closed blocks followed by the block left open
/// at the end.
pub open spec fn blocks_spec(s: Seq<CodeModel>) -> Seq<Seq<CodeModel>> {
    partition_state(s).0.push(partition_state(s).1)
}

/// Whether every element of `s` is a label or an instruction.
pub open spec fn all_supported(s: Seq<CodeModel>) -> bool {
    forall|i: int| 0 <= i < s.len() ==> !(#[trigger] s[i] is Unsupported)
}

/// Why a control-flow graph could not be built.
#[derive(Debug)]
pub enum CfgError {
    /// The element at `index` of the instruction stream is not supported.
    UnsupportedElement { index: usize, element: Code },
}

/// The control-flow graph of one function.
#[derive(Debug)]
pub struct CFG {
    /// For each non-empty block, its label and its successors.
    pub elements: Vec<CFGElement>,
    /// The basic blocks, in order.
    pub blocks: Vec<Vec<Code>>,
    /// The label of each block, by position.
    pub labels: Vec<String>,
    /// Each distinct label with the position of the last block that carries it.
    pub map: Vec<(String, usize)>,
}

impl CFG {
    /// Whether this graph is the one built from the instruction stream `s`.
    pub open spec fn built_from(&self, s: Seq<CodeModel>) -> bool {
        let bs = blocks_spec(s);
        let labels = labels_spec(bs);
        &&& self.blocks.deep_view() == bs
        &&& self.labels.deep_view() == labels
        &&& map_model(self.map@) == label_map_spec(labels)
        &&& elements_model(self.elements@) == edges_spec(bs, labels)
    }
}

/// Builds the control-flow graph of `func`.
///
/// Fails with `UnsupportedElement` at the first element of the stream that is
/// neither a label nor an instruction; otherwise returns the graph built from
/// the whole stream.
pub fn form_blocks(func: &Function) -> (r: Result<CFG, CfgError>)
    ensures
        match r {
            Ok(cfg) => {
                &&& all_supported(func.instrs.deep_view())
                &&& cfg.built_from(func.instrs.deep_view())
                &&& cfg.blocks.deep_view().flatten() == func.instrs.deep_view()
            },
            Err(CfgError::UnsupportedElement { index, element }) => {
                &&& index < func.instrs.len()
                &&& func.instrs.deep_view()[index as int] is Unsupported
                &&& all_supported(func.instrs.deep_view().take(index as int))
                &&& element.deep_view() == func.instrs.deep_view()[index as int]
            },
        },
        r is Err <==> !all_supported(func.instrs.deep_view()),
{
    let ghost s = func.instrs.deep_view();
    let mut blocks: Vec<Vec<Code>> = Vec::new();
    let mut curr_block: Vec<Code> = Vec::new();
    let mut i: usize = 0;
    while i < func.instrs.len()
        invariant
            i <= func.instrs.len(),
            s == func.instrs.deep_view(),
            all_supported(s.take(i as int)),
            blocks.deep_view() == partition_state(s.take(i as int)).0,
            curr_block.deep_view() == partition_state(s.take(i as int)).1,
        decreases func.instrs.len() - i,
    {
        let instruction = &func.instrs[i];
        assert(instruction.deep_view() == s[i as int]);
        assert(s.take(i + 1).drop_last() =~= s.take(i as int));
        let ghost bs0 = blocks.deep_view();
        let ghost acc0 = curr_block.deep_view();
        match instruction {
            Code::Instruction(inst) => {
                curr_block.push(instruction.clone());
                assert(curr_block.deep_view() =~= acc0.push(s[i as int]));
                if is_terminator(inst) {
                    blocks.push(curr_block);
                    assert(blocks.deep_view() =~= bs0.push(acc0.push(s[i as int])));
                    curr_block = Vec::new();
                    assert(curr_block.deep_view() =~= Seq::<CodeModel>::empty());
                }
            },
            Code::Label { .. } => {
                blocks.push(curr_block);
                assert(blocks.deep_view() =~= bs0.push(acc0));
                curr_block = Vec::new();
                curr_block.push(instruction.clone());
                assert(curr_block.deep_view() =~= seq![s[i as int]]);
            },
            Code::Unsupported { .. } => {
                return Err(CfgError::UnsupportedElement { index: i, element: instruction.clone() });
            },
        }
        assert(all_supported(s.take(i + 1)));
        i = i + 1;
    }
    assert(s.take(i as int) =~= s);
    let ghost bs0 = blocks.deep_view();
    let ghost acc0 = curr_block.deep_view();
    blocks.push(curr_block);
    assert(blocks.deep_view() =~= bs0.push(acc0));
    let (labels, map) = blocks_to_labels_map(&blocks);
    proof {
        lemma_labels_len(blocks.deep_view());
    }
    let elements = create_cfg_as_list(&labels, &blocks);
    proof {
        crate::laws::lemma_blocks_partition(s);
    }
    Ok(CFG { elements, blocks, labels, map })
}

} // verus!
