use oblioplib::context::{Context, ExprType, Expression, JoinKeyInfo, ObliData, NOT_IN_USE};
use oblioplib::getter::{DataIterator, Record};
use oblioplib::manager::DataManager;
use oblioplib::operator::ctx::{ContinuousCompute, Ctx, CtxManager, StashMap};
use oblioplib::operator::executor::{
    execute, tree_ids_registered, obli_op_ctx_exec, prepare_data, INPUT_NOT_PREPARED, MISSING_INPUT, UNSUPPORTED,
};
use oblioplib::operator::hasher::hash_exec;
use oblioplib::operator::joiner::{JoinManager, KEY, OUTPUT_MISSING, RIGHT_BLOCK_NEEDED, STASH_NOTE};
use oblioplib::operator::sorter::sort_exec;
use oblioplib::strmap::StrMap;

fn data(id: &str, prepared: bool, in_use: i32) -> ObliData {
    ObliData { name: id.to_string(), id: id.to_string(), addr: 0, length: 0, prepared, in_use }
}

fn expr(typ: ExprType, input: &str, output: &str, children: Vec<Expression>) -> Expression {
    Expression {
        id: format!("{}->{}", input, output),
        typ,
        input: data(input, false, 0),
        output: data(output, false, 0),
        children,
    }
}

fn rec(items: &[i64]) -> Record {
    Record { items: items.to_vec() }
}

#[test]
fn prepare_registers_readers_and_outputs() {
    let mut dm = DataManager::new();
    dm.insert("src", &data("src", false, 0), &[1]).unwrap();
    let e = expr(ExprType::HASH, "mid", "out", vec![expr(ExprType::HASH, "src", "mid", vec![])]);
    assert_eq!(prepare_data(&mut dm, &e), Ok(()));
    assert_eq!(dm.get_data("src").unwrap().description.in_use, 1);
    let mid = dm.get_data("mid").unwrap();
    assert!(!mid.description.prepared);
    assert_eq!(mid.description.in_use, 1);
    assert!(mid.buffer.is_empty());
    let out = dm.get_data("out").unwrap();
    assert!(!out.description.prepared);
    assert_eq!(out.description.in_use, 0);
}

#[test]
fn prepare_fails_on_missing_input() {
    let mut dm = DataManager::new();
    let e = expr(ExprType::HASH, "nothing", "out", vec![]);
    assert_eq!(prepare_data(&mut dm, &e), Err(MISSING_INPUT));
    assert!(!dm.contains("out"));
}

#[test]
fn prepare_then_execute_runs_the_tree_and_restores_counts() {
    let mut dm = DataManager::new();
    dm.insert("src", &data("src", false, 3), &[1]).unwrap();
    let e = expr(ExprType::SORT, "mid", "out", vec![expr(ExprType::HASH, "src", "mid", vec![])]);
    assert_eq!(prepare_data(&mut dm, &e), Ok(()));
    assert_eq!(dm.get_data("src").unwrap().description.in_use, 4);
    assert_eq!(execute(&mut dm, &e), Ok(()));
    assert_eq!(dm.get_data("src").unwrap().description.in_use, 3);
    assert!(dm.get_data("mid").unwrap().description.prepared);
    assert!(dm.get_data("out").unwrap().description.prepared);
    assert_eq!(dm.get_data("mid").unwrap().description.in_use, 0);
}

#[test]
fn execute_refuses_unprepared_input() {
    let mut dm = DataManager::new();
    dm.insert_with_status("a", &data("a", false, 1), &[], false).unwrap();
    dm.insert_with_status("b", &data("b", false, 0), &[], false).unwrap();
    let e = expr(ExprType::HASH, "a", "b", vec![]);
    assert_eq!(execute(&mut dm, &e), Err(INPUT_NOT_PREPARED));
    assert_eq!(dm.get_data("a").unwrap().description.in_use, 1);
}

#[test]
fn execute_refuses_input_without_readers() {
    let mut dm = DataManager::new();
    dm.insert("a", &data("a", true, 0), &[]).unwrap();
    dm.insert_with_status("b", &data("b", false, 0), &[], false).unwrap();
    let e = expr(ExprType::HASH, "a", "b", vec![]);
    assert_eq!(execute(&mut dm, &e), Err(NOT_IN_USE));
    assert!(!dm.get_data("b").unwrap().description.prepared);
}

#[test]
fn execute_skips_ready_output() {
    let mut dm = DataManager::new();
    dm.insert("a", &data("a", true, 1), &[]).unwrap();
    dm.insert("b", &data("b", true, 0), &[]).unwrap();
    let e = expr(ExprType::MOD, "a", "b", vec![]);
    assert_eq!(execute(&mut dm, &e), Ok(()));
    assert_eq!(dm.get_data("a").unwrap().description.in_use, 0);
}

#[test]
fn execute_refuses_mod_operator() {
    let mut dm = DataManager::new();
    dm.insert("a", &data("a", true, 1), &[]).unwrap();
    dm.insert_with_status("b", &data("b", false, 0), &[], false).unwrap();
    let e = expr(ExprType::MOD, "a", "b", vec![]);
    assert_eq!(execute(&mut dm, &e), Err(UNSUPPORTED));
    assert_eq!(dm.get_data("a").unwrap().description.in_use, 0);
    assert!(!dm.get_data("b").unwrap().description.prepared);
}

#[test]
fn context_runs_each_tree_in_turn() {
    let mut dm = DataManager::new();
    dm.insert("src", &data("src", false, 0), &[1, 2]).unwrap();
    let mut ctx = Context {
        expressions: vec![
            expr(ExprType::HASH, "src", "x", vec![]),
            expr(ExprType::SORT, "x", "y", vec![]),
        ],
    };
    assert_eq!(obli_op_ctx_exec(&mut dm, &mut ctx), Ok(()));
    assert!(dm.get_data("x").unwrap().description.prepared);
    assert!(dm.get_data("y").unwrap().description.prepared);
    assert_eq!(dm.get_data("src").unwrap().description.in_use, 0);
    assert_eq!(dm.get_data("x").unwrap().description.in_use, 0);
    assert_eq!(ctx.expressions.len(), 2);
}

#[test]
fn context_stops_at_first_error() {
    let mut dm = DataManager::new();
    let mut ctx = Context {
        expressions: vec![expr(ExprType::HASH, "none", "x", vec![]), expr(ExprType::HASH, "none", "y", vec![])],
    };
    assert_eq!(obli_op_ctx_exec(&mut dm, &mut ctx), Err(MISSING_INPUT));
    assert!(!dm.contains("x"));
    assert!(!dm.contains("y"));
}

#[test]
fn sort_and_hash_operators_succeed_on_ready_input() {
    let mut dm = DataManager::new();
    let a = data("a", true, 0);
    dm.insert("a", &a, &[3, 1, 2]).unwrap();
    assert_eq!(sort_exec(&dm, &a, &data("b", false, 0)), Ok(()));
    hash_exec(&a, &data("b", false, 0));
}

#[test]
fn record_union_and_dummy() {
    let r = rec(&[1, 2]).union(&rec(&[3]));
    assert_eq!(r.items, vec![1, 2, 3]);
    assert_eq!(r.gen_dummy_with_same_schema().items, vec![0, 0, 0]);
    assert_eq!(r.clone().items, vec![1, 2, 3]);
}

#[test]
fn data_iterator_reads_in_order() {
    let mut it = DataIterator::new(vec![rec(&[1]), rec(&[2])]);
    assert_eq!(it.cursor(), 0);
    assert_eq!(it.next().unwrap().items, vec![1]);
    let copy = it.duplicate();
    assert_eq!(it.next().unwrap().items, vec![2]);
    assert!(it.next().is_none());
    assert_eq!(copy.cursor(), 1);
    it.set_cursor(0);
    assert_eq!(it.next().unwrap().items, vec![1]);
}

fn join_manager() -> JoinManager {
    JoinManager::new(vec![JoinKeyInfo { lpos: 1, rpos: 0 }], StrMap::new())
}

fn output_registry() -> DataManager {
    let mut dm = DataManager::new();
    dm.insert("out", &data("out", false, 0), &[200]).unwrap();
    dm
}

/// Encodes a block as, per record, its width and then its columns.
fn encode(block: &Vec<Record>) -> Vec<u8> {
    let mut bytes = Vec::new();
    for r in block {
        bytes.push(r.items.len() as u8);
        for x in &r.items {
            bytes.push(*x as u8);
        }
    }
    bytes
}

/// Runs a join call and gives back the records it appended to `out`.
fn join_block(jm: &mut JoinManager, dm: &mut DataManager, left: Vec<Record>) -> Result<Vec<Vec<i64>>, &'static str> {
    let before = dm.get_data("out").map(|d| d.buffer.len()).unwrap_or(0);
    jm.join_exec(left, dm, &data("out", false, 0), encode)?;
    let buf = &dm.get_data("out").unwrap().buffer;
    let mut rows = Vec::new();
    let mut i = before;
    while i < buf.len() {
        let n = buf[i] as usize;
        rows.push(buf[i + 1..i + 1 + n].iter().map(|b| *b as i64).collect());
        i += 1 + n;
    }
    Ok(rows)
}

#[test]
fn join_pads_a_partial_block() {
    let mut jm = join_manager();
    jm.registry_right_block(vec![rec(&[0]), rec(&[5]), rec(&[5]), rec(&[6])]).unwrap();
    let mut dm = output_registry();
    let block = join_block(&mut jm, &mut dm, vec![rec(&[1, 5])]).unwrap();
    assert_eq!(block, vec![vec![1, 5, 5], vec![1, 5, 5], vec![0, 0, 0], vec![0, 0, 0], vec![0, 0, 0]]);
    assert_eq!(dm.get_data("out").unwrap().buffer[0], 200);
}

#[test]
fn join_without_matches_appends_a_full_block_of_zero_records() {
    let mut jm = join_manager();
    jm.registry_right_block(vec![rec(&[9])]).unwrap();
    let mut dm = output_registry();
    let block = join_block(&mut jm, &mut dm, vec![rec(&[1, 5])]).unwrap();
    assert_eq!(block, vec![vec![0, 0, 0]; 5]);
    assert_eq!(dm.get_data("out").unwrap().buffer[0], 200);
}

#[test]
fn join_without_right_table_appends_zero_records_as_wide_as_left() {
    let mut jm = join_manager();
    let mut dm = output_registry();
    let block = join_block(&mut jm, &mut dm, vec![rec(&[1, 5])]).unwrap();
    assert_eq!(block, vec![vec![0, 0]; 5]);
}

#[test]
fn join_with_nothing_at_all_appends_empty_records() {
    let mut jm = join_manager();
    let mut dm = output_registry();
    let block = join_block(&mut jm, &mut dm, vec![]).unwrap();
    assert_eq!(block, vec![Vec::<i64>::new(); 5]);
}

#[test]
fn join_overflow_waits_in_the_buffer() {
    let mut jm = join_manager();
    let mut right: Vec<Record> = (0..7).map(|i| rec(&[5, i])).collect();
    right.push(rec(&[6, 0]));
    jm.registry_right_block(right).unwrap();
    let mut dm = output_registry();
    let block = join_block(&mut jm, &mut dm, vec![rec(&[1, 5])]).unwrap();
    assert_eq!(
        block,
        vec![vec![1, 5, 5, 6], vec![1, 5, 5, 5], vec![1, 5, 5, 4], vec![1, 5, 5, 3], vec![1, 5, 5, 2]]
    );
    let block2 = join_block(&mut jm, &mut dm, vec![]).unwrap();
    assert_eq!(
        block2,
        vec![vec![1, 5, 5, 0], vec![1, 5, 5, 1], vec![0, 0, 0, 0], vec![0, 0, 0, 0], vec![0, 0, 0, 0]]
    );
}

#[test]
fn join_moves_right_cursor_to_first_greater_record() {
    let mut jm = join_manager();
    jm.registry_right_block(vec![rec(&[2]), rec(&[4]), rec(&[7])]).unwrap();
    let mut dm = output_registry();
    let block = join_block(&mut jm, &mut dm, vec![rec(&[0, 3]), rec(&[0, 4])]).unwrap();
    assert_eq!(block, vec![vec![0, 4, 4], vec![0, 0, 0], vec![0, 0, 0], vec![0, 0, 0], vec![0, 0, 0]]);
}

#[test]
fn join_asks_for_next_right_block_when_right_runs_out() {
    let mut jm = join_manager();
    jm.registry_right_block(vec![rec(&[1])]).unwrap();
    let mut dm = output_registry();
    assert_eq!(join_block(&mut jm, &mut dm, vec![rec(&[0, 3])]), Err(RIGHT_BLOCK_NEEDED));
    assert_eq!(dm.get_data("out").unwrap().buffer, vec![200]);
    let mut vals: StashMap = StrMap::new();
    vals.insert(KEY.to_string(), STASH_NOTE);
    jm.contine_compute(&mut vals);
    assert_eq!(vals.get(KEY), Some(&STASH_NOTE));
}

#[test]
fn join_asks_for_next_right_block_after_matching_the_last_record() {
    let mut jm = join_manager();
    jm.registry_right_block(vec![rec(&[5])]).unwrap();
    let mut dm = output_registry();
    assert_eq!(join_block(&mut jm, &mut dm, vec![rec(&[0, 5])]), Err(RIGHT_BLOCK_NEEDED));
    assert_eq!(dm.get_data("out").unwrap().buffer, vec![200]);
}

#[test]
fn join_refuses_missing_output() {
    let mut jm = join_manager();
    jm.registry_right_block(vec![rec(&[5]), rec(&[6])]).unwrap();
    let mut dm = DataManager::new();
    assert_eq!(
        jm.join_exec(vec![rec(&[0, 5])], &mut dm, &data("out", false, 0), encode),
        Err(OUTPUT_MISSING)
    );
}

#[test]
fn ctx_resumes_its_member() {
    let member: Box<dyn ContinuousCompute> = Box::new(join_manager());
    let mut ctx = Ctx::new(Context { expressions: vec![] }, member);
    assert_eq!(ctx.id, "1");
    ctx.stash_values.insert(KEY.to_string(), STASH_NOTE);
    ctx.contine_computing();
    assert_eq!(ctx.stash_values.get(KEY), Some(&STASH_NOTE));
    let _manager = CtxManager::new();
}


#[test]
fn join_leaves_unread_right_rows_alone() {
    let mut jm = join_manager();
    jm.registry_right_block(vec![rec(&[9]), rec(&[])]).unwrap();
    let mut dm = output_registry();
    let block = join_block(&mut jm, &mut dm, vec![rec(&[0, 5])]).unwrap();
    assert_eq!(block, vec![vec![0, 0, 0]; 5]);
}

#[test]
fn join_keeps_every_joined_record_across_calls() {
    let mut jm = join_manager();
    let mut right: Vec<Record> = (0..12).map(|i| rec(&[5, i])).collect();
    right.push(rec(&[9, 0]));
    jm.registry_right_block(right).unwrap();
    let mut dm = output_registry();
    let mut seen: Vec<i64> = Vec::new();
    for call in 0..3 {
        let lefts = if call == 0 { vec![rec(&[1, 5])] } else { vec![] };
        let block = join_block(&mut jm, &mut dm, lefts).unwrap();
        assert_eq!(block.len(), 5);
        for r in block.iter().filter(|r| r[0] == 1) {
            seen.push(r[3]);
        }
    }
    seen.sort();
    assert_eq!(seen, (0..12).collect::<Vec<i64>>());
}

#[test]
fn tree_ids_registered_checks_every_expression() {
    let mut dm = DataManager::new();
    dm.insert("a", &data("a", true, 1), &[]).unwrap();
    dm.insert("b", &data("b", true, 0), &[]).unwrap();
    let good = expr(ExprType::HASH, "b", "a", vec![expr(ExprType::HASH, "a", "b", vec![])]);
    assert!(tree_ids_registered(&dm, &good));
    let bad = expr(ExprType::HASH, "b", "a", vec![expr(ExprType::HASH, "a", "zzz", vec![])]);
    assert!(!tree_ids_registered(&dm, &bad));
}
