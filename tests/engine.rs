use std::rc::Rc;

use colvm::bitindex::BitIndex;
use colvm::column::{
    BoolColumn, Column, EntityColumn, InlineStrColumn, NumColumn, Scalar, StrColumn,
};
use colvm::error::VMError;
use colvm::number::Number;
use colvm::opcode::Op;
use colvm::vm::{Value, VM};

fn index_of(len: usize, members: &[usize]) -> BitIndex {
    let mut b = BitIndex::for_col_len(len);
    for &m in members {
        b.set(m).unwrap();
    }
    b
}

fn mask_of(len: usize, members: &[usize]) -> BoolColumn {
    BoolColumn::new(index_of(len, members))
}

fn members_of(b: &BitIndex) -> Vec<usize> {
    let mut out = Vec::new();
    b.for_each(&mut out);
    out
}

fn num(x: f64) -> Number {
    Number::from_bits(x.to_bits())
}

fn strings(v: &[&str]) -> Vec<String> {
    v.iter().map(|s| s.to_string()).collect()
}

fn column_strings(v: &Value) -> Vec<String> {
    match v {
        Value::ColumnRef(c) => match &**c {
            Column::Str(s) => s.values().clone(),
            other => panic!("expected a text column, got {:?}", other),
        },
        other => panic!("expected a column, got {:?}", other),
    }
}

#[test]
fn index_is_sized_exactly() {
    assert_eq!(BitIndex::for_col_len(0).as_words().len(), 0);
    assert_eq!(BitIndex::for_col_len(1).as_words().len(), 1);
    assert_eq!(BitIndex::for_col_len(64).as_words().len(), 1);
    assert_eq!(BitIndex::for_col_len(65).as_words().len(), 2);
    assert_eq!(BitIndex::for_col_len(128).as_words().len(), 2);
}

#[test]
fn set_then_gather_yields_members_in_order() {
    let b = index_of(70, &[69, 3, 64, 0, 3]);
    let col: Vec<u64> = (0..70).map(|i| i * 10).collect();
    assert_eq!(members_of(&b), vec![0, 3, 64, 69]);
    assert_eq!(b.select(&col).unwrap(), vec![0, 30, 640, 690]);
}

#[test]
fn set_out_of_range_is_index_error() {
    let mut b = BitIndex::for_col_len(5);
    assert_eq!(b.set(5), Err(VMError::IndexError));
    assert_eq!(b.set(4), Ok(()));
    assert_eq!(members_of(&b), vec![4]);
}

#[test]
fn gather_past_sequence_is_index_error() {
    let b = index_of(10, &[2, 7]);
    let col: Vec<u64> = vec![1, 2, 3, 4, 5];
    assert_eq!(b.select(&col), Err(VMError::IndexError));
}

#[test]
fn complement_masks_padding() {
    let b = index_of(5, &[1, 3]);
    let c = b.inverted();
    assert_eq!(c.as_words()[0], 0b10101);
    assert_eq!(members_of(&c), vec![0, 2, 4]);
}

#[test]
fn complement_twice_is_identity() {
    for len in [0usize, 1, 5, 63, 64, 65, 130] {
        let positions: Vec<usize> = (0..len).filter(|i| i % 3 == 1).collect();
        let b = index_of(len, &positions);
        let cc = b.inverted().inverted();
        assert_eq!(cc.as_words(), b.as_words());
        assert_eq!(cc.len(), b.len());
    }
}

#[test]
fn gather_composition() {
    let col = EntityColumn::new(vec![10, 11, 12, 13, 14, 15]);
    let mask1 = mask_of(6, &[1, 2, 4, 5]);
    let mask2 = mask_of(4, &[0, 2, 3]);
    let once = col.select(&mask1).unwrap();
    let twice = once.select(&mask2).unwrap();
    // mask2's members 0, 2, 3 taken through mask1's positions 1, 2, 4, 5
    let composed = mask_of(6, &[1, 4, 5]);
    let direct = col.select(&composed).unwrap();
    assert_eq!(twice.values(), direct.values());
    assert_eq!(direct.values(), &vec![11, 14, 15]);
}

#[test]
fn inline_text_offsets_filter_select() {
    let col = InlineStrColumn::from_strs(vec!["a", "bb", "c"]);
    assert_eq!(col.offsets(), &vec![0, 1, 3, 4]);
    assert_eq!(col.bytes(), &b"abbc".to_vec());
    let mask = col.filter(Scalar::Str("bb".to_string())).unwrap();
    assert_eq!(members_of(mask.index()), vec![1]);
    assert_eq!(mask.index().len(), 3);
    let picked = col.select(&mask).unwrap();
    let alone = InlineStrColumn::from_strs(vec!["bb"]);
    assert_eq!(picked.offsets(), alone.offsets());
    assert_eq!(picked.bytes(), alone.bytes());
}

#[test]
fn inline_text_select_uses_running_offsets() {
    let col = InlineStrColumn::from_strs(vec!["xyz", "", "pq", "r", "long"]);
    let mask = mask_of(5, &[2, 4]);
    let picked = col.select(&mask).unwrap();
    assert_eq!(picked.offsets(), &vec![0, 2, 6]);
    assert_eq!(picked.bytes(), &b"pqlong".to_vec());
}

#[test]
fn nan_filter_is_empty() {
    let col = NumColumn::new(vec![num(f64::NAN), num(1.0), num(0.0), num(f64::NAN)]);
    let mask = col.filter(Scalar::Num(num(f64::NAN))).unwrap();
    assert_eq!(members_of(mask.index()), Vec::<usize>::new());
    assert_eq!(mask.index().len(), 4);
}

#[test]
fn number_filter_uses_ieee_equality() {
    let col = NumColumn::new(vec![num(-0.0), num(1.5), num(f64::NAN), num(0.0), num(1.5)]);
    let zeros = col.filter(Scalar::Num(num(0.0))).unwrap();
    assert_eq!(members_of(zeros.index()), vec![0, 3]);
    let halves = col.filter(Scalar::Num(num(1.5))).unwrap();
    assert_eq!(members_of(halves.index()), vec![1, 4]);
    assert!(num(-0.0).equals(&num(0.0)));
    assert!(!num(f64::NAN).equals(&num(f64::NAN)));
    assert!(num(f64::NAN).is_nan());
}

#[test]
fn filter_with_wrong_scalar_is_type_error() {
    let col = NumColumn::new(vec![num(1.0)]);
    assert_eq!(col.filter(Scalar::Str("1".to_string())).err(), Some(VMError::TypeError));
    let col = StrColumn::new(strings(&["a"]));
    assert_eq!(col.filter(Scalar::Entity(1)).err(), Some(VMError::TypeError));
    let col = EntityColumn::new(vec![1]);
    assert_eq!(col.filter(Scalar::Bool(true)).err(), Some(VMError::TypeError));
    let col = InlineStrColumn::from_strs(vec!["a"]);
    assert_eq!(col.filter(Scalar::Num(num(1.0))).err(), Some(VMError::TypeError));
    let col = mask_of(3, &[1]);
    assert_eq!(col.filter(Scalar::Record(vec![])).err(), Some(VMError::TypeError));
}

#[test]
fn bool_filter_true_and_false() {
    let col = mask_of(70, &[0, 65]);
    let same = col.filter(Scalar::Bool(true)).unwrap();
    assert_eq!(members_of(same.index()), vec![0, 65]);
    let flipped = col.filter(Scalar::Bool(false)).unwrap();
    let expected: Vec<usize> = (0..70).filter(|i| *i != 0 && *i != 65).collect();
    assert_eq!(members_of(flipped.index()), expected);
}

#[test]
fn bool_select_gathers_flags() {
    let col = mask_of(6, &[1, 4, 5]);
    let mask = mask_of(6, &[0, 1, 4]);
    let picked = col.select(&mask).unwrap();
    assert_eq!(picked.index().len(), 3);
    assert_eq!(members_of(picked.index()), vec![1, 2]);
}

#[test]
fn select_past_length_is_index_error_everywhere() {
    let mask = mask_of(4, &[0, 3]);
    assert_eq!(mask_of(3, &[]).select(&mask).err(), Some(VMError::IndexError));
    assert_eq!(
        NumColumn::new(vec![num(1.0), num(2.0), num(3.0)]).select(&mask).err(),
        Some(VMError::IndexError)
    );
    assert_eq!(
        StrColumn::new(strings(&["a", "b", "c"])).select(&mask).err(),
        Some(VMError::IndexError)
    );
    assert_eq!(EntityColumn::new(vec![1, 2, 3]).select(&mask).err(), Some(VMError::IndexError));
    assert_eq!(
        InlineStrColumn::from_strs(vec!["a", "b", "c"]).select(&mask).err(),
        Some(VMError::IndexError)
    );
    let col = Column::from_entities(vec![1, 2, 3]);
    assert_eq!(col.select(&mask).err(), Some(VMError::IndexError));
}

#[test]
fn num_and_str_select() {
    let mask = mask_of(3, &[0, 2]);
    let nums = NumColumn::new(vec![num(1.0), num(2.0), num(3.0)]).select(&mask).unwrap();
    let bits: Vec<u64> = nums.values().iter().map(|n| n.to_bits()).collect();
    assert_eq!(bits, vec![1.0f64.to_bits(), 3.0f64.to_bits()]);
    let strs = StrColumn::new(strings(&["x", "y", "z"])).select(&mask).unwrap();
    assert_eq!(strs.values(), &strings(&["x", "z"]));
}

fn persons() -> Vec<Column> {
    vec![
        Column::from_strings(strings(&["alice", "bob", "carol", "dave"])),
        Column::from_nums(vec![num(18.0), num(42.0), num(34.0), num(20.0)]),
        Column::InlineStr(InlineStrColumn::from_strs(vec!["f", "m", "f", "m"])),
    ]
}

#[test]
fn end_to_end_filter_and_select() {
    let mut vm = VM::new(persons());
    let code = vec![
        Op::Col(2),
        Op::Lit(Scalar::Str("f".to_string())),
        Op::FilterEq,
        Op::Col(0),
        Op::Select(1),
    ];
    assert_eq!(vm.run(code), Ok(()));
    let stack = vm.stack();
    assert_eq!(stack.len(), 1);
    assert_eq!(column_strings(&stack[0]), strings(&["alice", "carol"]));
}

#[test]
fn numeric_filter_in_vm() {
    let mut vm = VM::new(persons());
    let code = vec![
        Op::Col(1),
        Op::Lit(Scalar::Num(num(42.0))),
        Op::FilterEq,
        Op::Col(0),
        Op::Select(1),
    ];
    assert_eq!(vm.run(code), Ok(()));
    assert_eq!(column_strings(&vm.stack()[0]), strings(&["bob"]));
}

#[test]
fn select_without_mask_is_type_error() {
    let mut vm = VM::new(persons());
    let code = vec![Op::Col(1), Op::Col(0), Op::Select(1)];
    assert_eq!(vm.run(code), Err(VMError::TypeError));
}

#[test]
fn select_with_scalar_beneath_is_type_error() {
    let mut vm = VM::new(persons());
    let code = vec![Op::Lit(Scalar::Bool(true)), Op::Col(0), Op::Select(1)];
    assert_eq!(vm.run(code), Err(VMError::TypeError));
}

#[test]
fn column_out_of_range_is_index_error() {
    let mut vm = VM::new(persons());
    assert_eq!(vm.run(vec![Op::Col(99)]), Err(VMError::IndexError));
}

#[test]
fn declared_opcodes_are_illegal() {
    let mut vm = VM::new(persons());
    assert_eq!(vm.run(vec![Op::AddVs]), Err(VMError::IllegalOpcode));
    let mut vm = VM::new(persons());
    assert_eq!(vm.run(vec![Op::DivVs]), Err(VMError::IllegalOpcode));
}

#[test]
fn filter_operand_errors() {
    let mut vm = VM::new(persons());
    assert_eq!(vm.run(vec![Op::FilterEq]), Err(VMError::TypeError));
    let mut vm = VM::new(persons());
    assert_eq!(vm.run(vec![Op::Col(0), Op::Col(1), Op::FilterEq]), Err(VMError::TypeError));
    let mut vm = VM::new(persons());
    let code = vec![Op::Lit(Scalar::Bool(true)), Op::Lit(Scalar::Bool(true)), Op::FilterEq];
    assert_eq!(vm.run(code), Err(VMError::TypeError));
    let mut vm = VM::new(persons());
    let code = vec![Op::Col(1), Op::Lit(Scalar::Str("x".to_string())), Op::FilterEq];
    assert_eq!(vm.run(code), Err(VMError::TypeError));
}

#[test]
fn select_with_short_mask_is_index_error_in_vm() {
    let mut vm = VM::new(vec![
        Column::from_entities(vec![7, 8]),
        Column::from_entities(vec![1, 2, 3]),
    ]);
    let code = vec![
        Op::Col(1),
        Op::Lit(Scalar::Entity(3)),
        Op::FilterEq,
        Op::Col(0),
        Op::Select(1),
    ];
    assert_eq!(vm.run(code), Err(VMError::IndexError));
}

#[test]
fn shared_column_can_be_mask_and_data() {
    let mut vm = VM::new(vec![Column::Bool(mask_of(3, &[0, 2]))]);
    let code = vec![Op::Col(0), Op::Col(0), Op::Select(1)];
    assert_eq!(vm.run(code), Ok(()));
    match &vm.stack()[0] {
        Value::ColumnRef(c) => match &**c {
            Column::Bool(b) => {
                assert_eq!(b.index().len(), 2);
                assert_eq!(members_of(b.index()), vec![0, 1]);
            }
            other => panic!("expected a mask, got {:?}", other),
        },
        other => panic!("expected a column, got {:?}", other),
    }
    let _shared: Rc<Column> = match &vm.stack()[0] {
        Value::ColumnRef(c) => c.clone(),
        Value::Scalar(_) => unreachable!(),
    };
}

#[test]
fn failed_instruction_leaves_stack_unchanged() {
    let mut vm = VM::new(persons());
    assert_eq!(vm.run(vec![Op::Col(99)]), Err(VMError::IndexError));
    assert_eq!(vm.stack().len(), 0);

    let mut vm = VM::new(persons());
    let code = vec![Op::Col(1), Op::Lit(Scalar::Str("x".to_string())), Op::FilterEq];
    assert_eq!(vm.run(code), Err(VMError::TypeError));
    assert_eq!(vm.stack().len(), 2);
    assert!(matches!(vm.stack()[1], Value::Scalar(Scalar::Str(_))));

    let mut vm = VM::new(persons());
    let code = vec![Op::Col(1), Op::Col(0), Op::Select(1)];
    assert_eq!(vm.run(code), Err(VMError::TypeError));
    assert_eq!(vm.stack().len(), 2);

    let mut vm = VM::new(vec![
        Column::from_entities(vec![7, 8]),
        Column::from_entities(vec![1, 2, 3]),
    ]);
    let code = vec![
        Op::Col(1),
        Op::Lit(Scalar::Entity(3)),
        Op::FilterEq,
        Op::Col(0),
        Op::Select(1),
        Op::Col(0),
    ];
    assert_eq!(vm.run(code), Err(VMError::IndexError));
    assert_eq!(vm.stack().len(), 2);
}

#[test]
fn instructions_before_an_error_keep_their_effect() {
    let mut vm = VM::new(persons());
    let code = vec![Op::Col(0), Op::Lit(Scalar::Entity(5)), Op::AddVs, Op::Col(1)];
    assert_eq!(vm.run(code), Err(VMError::IllegalOpcode));
    assert_eq!(vm.stack().len(), 2);
    assert_eq!(column_strings(&vm.stack()[0]), strings(&["alice", "bob", "carol", "dave"]));
}

#[test]
fn text_column_from_str_slices() {
    let col = Column::from_strs(vec!["x", "yy"]);
    let mask = col.filter(Scalar::Str("yy".to_string())).unwrap();
    assert_eq!(members_of(mask.index()), vec![1]);
    match col {
        Column::Str(c) => assert_eq!(c.values(), &strings(&["x", "yy"])),
        other => panic!("expected a text column, got {:?}", other),
    }
}

#[test]
fn filter_masks_are_exactly_sized_with_clear_padding() {
    let col = EntityColumn::new((0..70).map(|i| i % 2).collect());
    let mask = col.filter(Scalar::Entity(1)).unwrap();
    assert_eq!(mask.index().as_words().len(), 2);
    assert_eq!(mask.index().as_words()[1] >> 6, 0);
    let flipped = mask_of(70, &[]).filter(Scalar::Bool(false)).unwrap();
    assert_eq!(flipped.index().as_words()[1], 0b111111);
}
