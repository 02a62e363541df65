use bril_el::cfg::{
    create_cfg_as_list, form_blocks, is_terminator, next_block_as_successor, successors,
    blocks_to_labels_map, CfgError, CFG,
};
use bril_el::program::{Code, EffectOps, Function, Instruction};

fn label(name: &str) -> Code {
    Code::Label { label: name.to_string() }
}

fn instr() -> Code {
    Code::Instruction(Instruction::Constant { dest: "v".to_string(), value: 1 })
}

fn value_instr() -> Code {
    Code::Instruction(Instruction::Value {
        op: "add".to_string(),
        dest: "x".to_string(),
        args: vec!["a".to_string(), "b".to_string()],
        funcs: vec![],
    })
}

fn effect(op: EffectOps, targets: &[&str]) -> Instruction {
    Instruction::Effect {
        op,
        args: vec![],
        funcs: vec![],
        labels: targets.iter().map(|t| t.to_string()).collect(),
    }
}

fn code(op: EffectOps, targets: &[&str]) -> Code {
    Code::Instruction(effect(op, targets))
}

fn func(instrs: Vec<Code>) -> Function {
    Function { name: "main".to_string(), instrs }
}

fn build(instrs: Vec<Code>) -> CFG {
    match form_blocks(&func(instrs)) {
        Ok(cfg) => cfg,
        Err(e) => panic!("unexpected error: {:?}", e),
    }
}

fn edges(cfg: &CFG) -> Vec<(String, Vec<String>)> {
    cfg.elements.iter().map(|e| (e.label.clone(), e.successors.clone())).collect()
}

fn strings(items: &[&str]) -> Vec<String> {
    items.iter().map(|s| s.to_string()).collect()
}

#[test]
fn branch_jump_fall_through_and_return() {
    let cfg = build(vec![
        label("entry"),
        instr(),
        code(EffectOps::Branch, &["then", "else"]),
        label("then"),
        instr(),
        code(EffectOps::Jump, &["end"]),
        label("else"),
        instr(),
        label("end"),
        code(EffectOps::Return, &[]),
    ]);
    let expected = vec![
        ("entry".to_string(), strings(&["then", "else"])),
        ("then".to_string(), strings(&["end"])),
        ("else".to_string(), strings(&["end"])),
        ("end".to_string(), vec![]),
    ];
    assert_eq!(edges(&cfg), expected);
    let non_empty: Vec<usize> = cfg.blocks.iter().map(|b| b.len()).filter(|n| *n > 0).collect();
    assert_eq!(non_empty, vec![3, 3, 2, 2]);
}

#[test]
fn straight_line_code_is_one_block_b0() {
    let stream = vec![instr(), value_instr(), code(EffectOps::Print, &[])];
    let cfg = build(stream.clone());
    assert_eq!(cfg.blocks.len(), 1);
    assert_eq!(format!("{:?}", cfg.blocks[0]), format!("{:?}", stream));
    assert_eq!(cfg.map, vec![("b0".to_string(), 0)]);
    assert_eq!(cfg.labels, strings(&["b0"]));
    assert_eq!(edges(&cfg), vec![("b0".to_string(), vec![])]);
}

#[test]
fn unsupported_element_fails_whole_build() {
    let f = func(vec![
        label("entry"),
        instr(),
        Code::Unsupported { content: "{\"weird\":1}".to_string() },
        code(EffectOps::Return, &[]),
        Code::Unsupported { content: "second".to_string() },
    ]);
    match form_blocks(&f) {
        Err(CfgError::UnsupportedElement { index, element }) => {
            assert_eq!(index, 2);
            match element {
                Code::Unsupported { content } => assert_eq!(content, "{\"weird\":1}"),
                other => panic!("wrong element {:?}", other),
            }
        }
        Ok(_) => panic!("expected an error"),
    }
}

#[test]
fn unsupported_first_element() {
    let f = func(vec![Code::Unsupported { content: "x".to_string() }]);
    assert!(matches!(form_blocks(&f), Err(CfgError::UnsupportedElement { index: 0, .. })));
}

#[test]
fn empty_stream_gives_one_empty_block_and_no_edges() {
    let cfg = build(vec![]);
    assert_eq!(cfg.blocks.len(), 1);
    assert_eq!(cfg.labels, strings(&["b0"]));
    assert!(cfg.elements.is_empty());
}

#[test]
fn block_count_is_labels_plus_terminators_plus_one() {
    // two labels, three terminators
    let cfg = build(vec![
        instr(),
        code(EffectOps::Jump, &["a"]),
        label("a"),
        code(EffectOps::Branch, &["a", "b"]),
        label("b"),
        instr(),
        code(EffectOps::Return, &[]),
    ]);
    assert_eq!(cfg.blocks.len(), 6);
    assert_eq!(cfg.labels, strings(&["b0", "b1", "a", "b3", "b", "b5"]));
}

#[test]
fn leading_label_gives_empty_first_block() {
    let cfg = build(vec![label("start"), instr()]);
    assert_eq!(cfg.blocks.len(), 2);
    assert!(cfg.blocks[0].is_empty());
    assert_eq!(cfg.labels, strings(&["b0", "start"]));
    assert_eq!(edges(&cfg), vec![("start".to_string(), vec![])]);
}

#[test]
fn lone_label_falls_through() {
    let cfg = build(vec![label("a"), label("b"), instr()]);
    assert_eq!(cfg.labels, strings(&["b0", "a", "b"]));
    assert_eq!(
        edges(&cfg),
        vec![("a".to_string(), strings(&["b"])), ("b".to_string(), vec![])]
    );
}

#[test]
fn return_in_middle_has_no_successors() {
    let cfg = build(vec![instr(), code(EffectOps::Return, &[]), label("dead"), instr()]);
    assert_eq!(
        edges(&cfg),
        vec![("b0".to_string(), vec![]), ("dead".to_string(), vec![])]
    );
}

#[test]
fn branch_keeps_target_order_and_duplicates() {
    let cfg = build(vec![code(EffectOps::Branch, &["y", "x", "y"]), label("x"), label("y")]);
    assert_eq!(edges(&cfg)[0], ("b0".to_string(), strings(&["y", "x", "y"])));
}

#[test]
fn dangling_jump_target_is_kept() {
    let cfg = build(vec![code(EffectOps::Jump, &["nowhere"])]);
    assert_eq!(edges(&cfg), vec![("b0".to_string(), strings(&["nowhere"]))]);
}

#[test]
fn call_does_not_end_block() {
    let cfg = build(vec![code(EffectOps::Call, &[]), code(EffectOps::Nop, &[]), label("next")]);
    assert_eq!(cfg.blocks[0].len(), 2);
    assert_eq!(edges(&cfg)[0], ("b0".to_string(), strings(&["next"])));
}

#[test]
fn synthesized_labels_count_distinct_labels() {
    // a repeated label is one entry of the map, so the last block is b3, not b4
    let cfg = build(vec![
        label("a"),
        code(EffectOps::Return, &[]),
        label("a"),
        code(EffectOps::Return, &[]),
        instr(),
    ]);
    assert_eq!(cfg.labels, strings(&["b0", "a", "b2", "a", "b3"]));
    assert_eq!(
        cfg.map,
        vec![
            ("b0".to_string(), 0),
            ("a".to_string(), 3),
            ("b2".to_string(), 2),
            ("b3".to_string(), 4),
        ]
    );
}

#[test]
fn synthesized_labels_reach_two_digits() {
    let mut instrs = Vec::new();
    for _ in 0..12 {
        instrs.push(code(EffectOps::Return, &[]));
    }
    let cfg = build(instrs);
    assert_eq!(cfg.labels.len(), 13);
    assert_eq!(cfg.labels[10], "b10");
    assert_eq!(cfg.labels[12], "b12");
    assert_eq!(cfg.elements.len(), 12);
}

#[test]
fn labels_are_unique_without_collisions() {
    let cfg = build(vec![
        instr(),
        label("loop"),
        code(EffectOps::Branch, &["loop", "exit"]),
        instr(),
        label("exit"),
        code(EffectOps::Return, &[]),
    ]);
    let mut sorted = cfg.labels.clone();
    sorted.sort();
    sorted.dedup();
    assert_eq!(sorted.len(), cfg.labels.len());
    assert_eq!(cfg.map.len(), cfg.labels.len());
}

#[test]
fn building_twice_gives_the_same_graph() {
    let f = func(vec![
        label("entry"),
        code(EffectOps::Branch, &["entry", "out"]),
        instr(),
        label("out"),
        code(EffectOps::Return, &[]),
    ]);
    let a = form_blocks(&f).unwrap();
    let b = form_blocks(&f).unwrap();
    assert_eq!(format!("{:?}", a), format!("{:?}", b));
    assert_eq!(a.labels, b.labels);
    assert_eq!(a.map, b.map);
}

#[test]
fn is_terminator_by_operation() {
    assert!(is_terminator(&effect(EffectOps::Jump, &["a"])));
    assert!(is_terminator(&effect(EffectOps::Branch, &["a", "b"])));
    assert!(is_terminator(&effect(EffectOps::Return, &[])));
    assert!(!is_terminator(&effect(EffectOps::Print, &[])));
    assert!(!is_terminator(&effect(EffectOps::Call, &[])));
    assert!(!is_terminator(&Instruction::Constant { dest: "c".to_string(), value: 0 }));
}

#[test]
fn next_block_successor_at_end_and_middle() {
    let labels = strings(&["b0", "x", "y"]);
    assert_eq!(next_block_as_successor(&0, &labels), strings(&["x"]));
    assert_eq!(next_block_as_successor(&1, &labels), strings(&["y"]));
    assert!(next_block_as_successor(&2, &labels).is_empty());
    assert!(next_block_as_successor(&usize::MAX, &labels).is_empty());
    assert!(next_block_as_successor(&0, &vec![]).is_empty());
}

#[test]
fn successors_by_instruction_kind() {
    let labels = strings(&["b0", "x"]);
    assert_eq!(successors(&effect(EffectOps::Jump, &["z"]), &0, &labels), strings(&["z"]));
    assert!(successors(&effect(EffectOps::Return, &[]), &0, &labels).is_empty());
    assert_eq!(successors(&effect(EffectOps::Print, &[]), &0, &labels), strings(&["x"]));
    let c = Instruction::Constant { dest: "c".to_string(), value: 3 };
    assert_eq!(successors(&c, &0, &labels), strings(&["x"]));
    assert!(successors(&c, &1, &labels).is_empty());
}

#[test]
fn labels_map_and_edge_list_directly() {
    let blocks = vec![
        vec![],
        vec![label("top"), code(EffectOps::Jump, &["top"])],
        vec![instr()],
    ];
    let (labels, map) = blocks_to_labels_map(&blocks);
    assert_eq!(labels, strings(&["b0", "top", "b2"]));
    assert_eq!(map, vec![("b0".to_string(), 0), ("top".to_string(), 1), ("b2".to_string(), 2)]);
    let elements = create_cfg_as_list(&labels, &blocks);
    assert_eq!(elements.len(), 2);
    assert_eq!(elements[0].label, "top");
    assert_eq!(elements[0].successors, strings(&["top"]));
    assert_eq!(elements[1].label, "b2");
    assert!(elements[1].successors.is_empty());
}

#[test]
fn blocks_read_in_order_give_the_stream_back() {
    let stream = vec![
        label("a"),
        instr(),
        code(EffectOps::Jump, &["b"]),
        value_instr(),
        label("b"),
        label("c"),
        code(EffectOps::Return, &[]),
    ];
    let cfg = build(stream.clone());
    let flat: Vec<String> = cfg.blocks.iter().flatten().map(|c| format!("{:?}", c)).collect();
    let original: Vec<String> = stream.iter().map(|c| format!("{:?}", c)).collect();
    assert_eq!(flat, original);
    let sizes: Vec<usize> = cfg.blocks.iter().map(|b| b.len()).collect();
    assert_eq!(sizes, vec![0, 3, 1, 1, 2, 0]);
}
