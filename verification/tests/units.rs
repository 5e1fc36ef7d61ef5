use bf_search::ast::{find_by_id, replace_hole, ProgramNode};
use bf_search::instr::Instr;
use bf_search::interp::{exec_known_step, step_once, AdvancePolicy};
use bf_search::node::SearchNode;
use bf_search::runner::run_concrete_to_limit;
use bf_search::textio::{parse_hex_bytes, to_dec};

#[test]
fn instr_all_and_chars() {
    let all = Instr::all();
    assert_eq!(all.len(), 6);
    let chars: Vec<char> = all.iter().map(|i| i.to_char()).collect();
    assert_eq!(chars, vec!['>', '<', '+', '-', '.', ',']);
}

#[test]
fn constructors_compute_min_len() {
    let h = ProgramNode::hole_with_id(0);
    assert_eq!(h.min_len, 0);
    let e = ProgramNode::empty_with_id(1);
    assert_eq!(e.min_len, 0);
    let i = ProgramNode::instr_with_id(2, Instr::Inc, e);
    assert_eq!(i.min_len, 1);
    let l = ProgramNode::loop_with_id(3, i, h);
    assert_eq!(l.min_len, 3);
}

#[test]
fn text_of_small_program() {
    // +[.] : Inc, then a loop whose body is Output.
    let end1 = ProgramNode::empty_with_id(4);
    let out = ProgramNode::instr_with_id(3, Instr::Output, end1);
    let end2 = ProgramNode::empty_with_id(2);
    let lp = ProgramNode::loop_with_id(1, out, end2);
    let root = ProgramNode::instr_with_id(0, Instr::Inc, lp);
    assert_eq!(ProgramNode::to_bf_string(&root), "+[.]");
    assert_eq!(root.min_len, 4);
}

#[test]
fn concretize_replaces_holes_and_keeps_length() {
    let hole = ProgramNode::hole_with_id(7);
    let root = ProgramNode::instr_with_id(0, Instr::IncPtr, hole);
    assert_eq!(root.min_len, 1);
    let conc = root.concretize_min();
    assert_eq!(conc.min_len, 1);
    let code = ProgramNode::to_bf_string(&conc);
    assert_eq!(code, ">");
    assert_eq!(code.chars().count() as u32, root.min_len);
}

#[test]
fn replace_hole_preserves_other_ids() {
    let hole = ProgramNode::hole_with_id(5);
    let root = ProgramNode::instr_with_id(0, Instr::Inc, hole);
    let rep = ProgramNode::instr_with_id(5, Instr::Output, ProgramNode::hole_with_id(6));
    let new_root = replace_hole(&root, 5, rep);
    assert_eq!(new_root.nid, 0);
    assert!(find_by_id(&new_root, 5).is_some());
    assert!(find_by_id(&new_root, 6).is_some());
    assert!(find_by_id(&new_root, 9).is_none());
    assert_eq!(ProgramNode::to_bf_string(&new_root.concretize_min()), "+.");
}

#[test]
fn tape_updates_are_persistent() {
    let n = SearchNode::initial();
    let t1 = SearchNode::set_cell(n.tape.clone(), 3, 7);
    let t2 = SearchNode::set_cell(t1.clone(), 3, 0);
    let mut m = SearchNode::initial();
    m.tape = t1;
    assert_eq!(m.get_cell(3), 7);
    assert_eq!(n.get_cell(3), 0);
    let mut z = SearchNode::initial();
    z.tape = t2;
    assert_eq!(z.get_cell(3), 0);
    assert_eq!(m.get_cell(3), 7);
}

#[test]
fn known_step_executes_instructions() {
    // A one-instruction program: '+' then end.
    let end = ProgramNode::empty_with_id(1);
    let root = ProgramNode::instr_with_id(0, Instr::Inc, end);
    let mut n = SearchNode::initial();
    n.pc = root.clone();
    n.root = root;
    let children = exec_known_step(n, &[]);
    assert_eq!(children.len(), 1);
    let c = &children[0];
    assert_eq!(c.get_cell(0), 1);
    assert_eq!(c.steps, 1);
}

#[test]
fn output_mismatch_prunes_branch() {
    let end = ProgramNode::empty_with_id(1);
    let root = ProgramNode::instr_with_id(0, Instr::Output, end);
    let mut n = SearchNode::initial();
    n.pc = root.clone();
    n.root = root;
    // Cell under the pointer reads 0, target wants 9: pruned.
    let children = exec_known_step(n, &[9]);
    assert_eq!(children.len(), 0);
}

#[test]
fn input_instruction_prunes_branch() {
    let end = ProgramNode::empty_with_id(1);
    let root = ProgramNode::instr_with_id(0, Instr::Input, end);
    let mut n = SearchNode::initial();
    n.pc = root.clone();
    n.root = root;
    let children = exec_known_step(n, &[1, 2]);
    assert_eq!(children.len(), 0);
}

#[test]
fn hole_expansion_yields_all_branches() {
    let n = SearchNode::initial();
    // Target starts with 0, the cell reads 0: the output branch survives,
    // so all seven branches come back.
    let children = step_once(&n, &[0], AdvancePolicy::Search);
    assert_eq!(children.len(), 7);
    // Target starts with 9: the output branch is pruned.
    let children2 = step_once(&n, &[9], AdvancePolicy::Search);
    assert_eq!(children2.len(), 6);
    // Without expansion a hole is a dead end.
    let children3 = step_once(&n, &[0], AdvancePolicy::NoExpand);
    assert_eq!(children3.len(), 0);
}

#[test]
fn runner_respects_output_limit_and_never_halts_on_loop() {
    // +[.] emits 1 forever.
    let end1 = ProgramNode::empty_with_id(4);
    let out = ProgramNode::instr_with_id(3, Instr::Output, end1);
    let end2 = ProgramNode::empty_with_id(2);
    let lp = ProgramNode::loop_with_id(1, out, end2);
    let root = ProgramNode::instr_with_id(0, Instr::Inc, lp);
    let (outputs, steps, halted) = run_concrete_to_limit(root, 5, 10_000);
    assert_eq!(outputs, vec![1, 1, 1, 1, 1]);
    assert!(!halted);
    assert!(steps <= 10_000);
}

#[test]
fn runner_respects_step_cap() {
    // +[] spins forever without output.
    let end1 = ProgramNode::empty_with_id(3);
    let end2 = ProgramNode::empty_with_id(2);
    let lp = ProgramNode::loop_with_id(1, end1, end2);
    let root = ProgramNode::instr_with_id(0, Instr::Inc, lp);
    let (outputs, steps, halted) = run_concrete_to_limit(root, 5, 1000);
    assert_eq!(outputs.len(), 0);
    assert_eq!(steps, 1000);
    assert!(!halted);
}

#[test]
fn runner_reports_halt() {
    // "+-" halts after two steps.
    let end = ProgramNode::empty_with_id(2);
    let dec = ProgramNode::instr_with_id(1, Instr::Dec, end);
    let root = ProgramNode::instr_with_id(0, Instr::Inc, dec);
    let (outputs, steps, halted) = run_concrete_to_limit(root, 5, 1000);
    assert_eq!(outputs.len(), 0);
    assert_eq!(steps, 2);
    assert!(halted);
}

#[test]
fn parse_hex_accepts_pairs_and_ignores_whitespace() {
    assert_eq!(parse_hex_bytes("00010a"), Ok(vec![0, 1, 10]));
    assert_eq!(parse_hex_bytes("00 01 0A fF"), Ok(vec![0, 1, 10, 255]));
    assert_eq!(parse_hex_bytes("\t0a\n0b \r"), Ok(vec![10, 11]));
    assert_eq!(parse_hex_bytes(""), Ok(vec![]));
}

#[test]
fn parse_hex_rejects_non_hex_characters() {
    assert_eq!(parse_hex_bytes("zz"), Err("Invalid hex digit".to_string()));
    assert_eq!(parse_hex_bytes("00,11"), Err("Invalid hex digit".to_string()));
    assert!(parse_hex_bytes("0x00").is_err());
}

#[test]
fn parse_hex_rejects_odd_digit_count() {
    assert_eq!(
        parse_hex_bytes("0"),
        Err("Hex string must have an even number of hex digits".to_string())
    );
    assert!(parse_hex_bytes("abc").is_err());
    assert!(parse_hex_bytes("0 0 0").is_err());
}

#[test]
fn to_dec_renders_spaced_decimals() {
    assert_eq!(to_dec(&[]), "");
    assert_eq!(to_dec(&[0]), "0");
    assert_eq!(to_dec(&[0, 65, 255, 7, 10]), "0 65 255 7 10");
}
