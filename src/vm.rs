use std::rc::Rc;

use vstd::prelude::*;

use crate::bitindex::{all_below, members};
use crate::column::{filter_view, select_view, view_len, BoolColumn, ColView, Column, Scalar};
use crate::error::VMError;
use crate::opcode::Op;

verus! {

/// A value on the operand stack.
#[derive(Debug)]
pub enum Value {
    Scalar(Scalar),
    ColumnRef(Rc<Column>),
}

/// What a stack value holds.
pub enum ValView {
    Scalar(Scalar),
    Col(ColView),
}

impl Value {
    pub open spec fn view(&self) -> ValView {
        match self {
            Value::Scalar(s) => ValView::Scalar(*s),
            Value::ColumnRef(c) => ValView::Col((**c)@),
        }
    }

    pub open spec fn wf(&self) -> bool {
        match self {
            Value::Scalar(_) => true,
            Value::ColumnRef(c) => (**c).wf(),
        }
    }
}

/// The stack after one instruction, or the error it stops with.
pub open spec fn step(stack: Seq<ValView>, table: Seq<ColView>, op: Op) -> Result<
    Seq<ValView>,
    VMError,
> {
    match op {
        Op::Lit(s) => Ok(stack.push(ValView::Scalar(s))),
        Op::Col(i) => if i < table.len() {
            Ok(stack.push(ValView::Col(table[i as int])))
        } else {
            Err(VMError::IndexError)
        },
        Op::FilterEq => if stack.len() == 0 {
            Err(VMError::TypeError)
        } else {
            match stack.last() {
                ValView::Scalar(s) => {
                    let rest = stack.drop_last();
                    if rest.len() == 0 {
                        Err(VMError::TypeError)
                    } else {
                        match rest.last() {
                            ValView::Col(c) => match filter_view(c, s) {
                                Ok(v) => Ok(rest.drop_last().push(ValView::Col(ColView::Bool(v)))),
                                Err(e) => Err(e),
                            },
                            ValView::Scalar(_) => Err(VMError::TypeError),
                        }
                    }
                },
                ValView::Col(_) => Err(VMError::TypeError),
            }
        },
        Op::Select(_) => if stack.len() < 2 {
            Err(VMError::TypeError)
        } else {
            let rest = stack.drop_last().drop_last();
            match (stack.last(), stack.drop_last().last()) {
                (ValView::Col(d), ValView::Col(ColView::Bool(m))) => if all_below(
                    members(m),
                    view_len(d),
                ) {
                    Ok(rest.push(ValView::Col(select_view(d, members(m)))))
                } else {
                    Err(VMError::IndexError)
                },
                _ => Err(VMError::TypeError),
            }
        },
        _ => Err(VMError::IllegalOpcode),
    }
}

/// The stack after running `ops` from `stack`, or the first error.
pub open spec fn run_spec(stack: Seq<ValView>, table: Seq<ColView>, ops: Seq<Op>) -> Result<
    Seq<ValView>,
    VMError,
>
    decreases ops.len(),
{
    if ops.len() == 0 {
        Ok(stack)
    } else {
        match step(stack, table, ops[0]) {
            Ok(next) => run_spec(next, table, ops.drop_first()),
            Err(e) => Err(e),
        }
    }
}

/// The stack after running `ops` from `stack`, up to the first error: an
/// instruction that fails leaves the stack as it found it.
pub open spec fn run_stack(stack: Seq<ValView>, table: Seq<ColView>, ops: Seq<Op>) -> Seq<ValView>
    decreases ops.len(),
{
    if ops.len() == 0 {
        stack
    } else {
        match step(stack, table, ops[0]) {
            Ok(next) => run_stack(next, table, ops.drop_first()),
            Err(_) => stack,
        }
    }
}

/// Executes instruction sequences against a fixed table of columns.
pub struct VM {
    stack: Vec<Value>,
    columns: Vec<Rc<Column>>,
}

impl VM {
    /// What each column of the table holds.
    pub closed spec fn table(&self) -> Seq<ColView> {
        Seq::new(self.columns@.len(), |i: int| (*self.columns@[i])@)
    }

    /// What each stack value holds, bottom first.
    pub closed spec fn stack_view(&self) -> Seq<ValView> {
        Seq::new(self.stack@.len(), |i: int| self.stack@[i]@)
    }

    /// Every column of the table and of the stack is well formed.
    pub closed spec fn wf(&self) -> bool {
        &&& forall|i: int| 0 <= i < self.columns@.len() ==> (*self.columns@[i]).wf()
        &&& forall|i: int| 0 <= i < self.stack@.len() ==> self.stack@[i].wf()
    }

    /// A machine over the table `columns`, with an empty stack.
    pub fn new(columns: Vec<Column>) -> (r: VM)
        requires
            forall|i: int| 0 <= i < columns@.len() ==> columns@[i].wf(),
        ensures
            r.wf(),
            r.table() == Seq::new(columns@.len(), |i: int| columns@[i]@),
            r.stack_view() == Seq::<ValView>::empty(),
    {
        let ghost cols = columns@;
        let mut columns = columns;
        let mut rev: Vec<Rc<Column>> = Vec::new();
        while columns.len() > 0
            invariant
                columns@.len() + rev@.len() == cols.len(),
                forall|i: int| 0 <= i < cols.len() ==> cols[i].wf(),
                columns@ == cols.subrange(0, columns@.len() as int),
                forall|j: int| 0 <= j < rev@.len() ==> *rev@[j] == cols[cols.len() - 1 - j],
            decreases columns@.len(),
        {
            let c = columns.pop().unwrap();
            rev.push(Rc::new(c));
            assert(columns@ =~= cols.subrange(0, columns@.len() as int));
        }
        let mut rcs: Vec<Rc<Column>> = Vec::new();
        while rev.len() > 0
            invariant
                rcs@.len() + rev@.len() == cols.len(),
                forall|i: int| 0 <= i < cols.len() ==> cols[i].wf(),
                forall|j: int| 0 <= j < rev@.len() ==> *rev@[j] == cols[cols.len() - 1 - j],
                forall|j: int| 0 <= j < rcs@.len() ==> *rcs@[j] == cols[j],
            decreases rev@.len(),
        {
            let c = rev.pop().unwrap();
            rcs.push(c);
        }
        let r = VM { stack: Vec::new(), columns: rcs };
        assert forall|i: int| 0 <= i < r.columns@.len() implies (*r.columns@[i]).wf() by {
            assert(*r.columns@[i] == cols[i]);
        }
        assert(r.table() =~= Seq::new(cols.len(), |i: int| cols[i]@));
        assert(r.stack_view() =~= Seq::<ValView>::empty());
        r
    }

    /// The column as a mask, by a shared borrow; a type error if it is not one.
    fn expect_col_bool(v: &Column) -> (r: Result<&BoolColumn, VMError>)
        ensures
            v is Bool ==> r is Ok && *r->Ok_0 == v->Bool_0,
            !(v is Bool) ==> r is Err && r->Err_0 == VMError::TypeError,
    {
        match v {
            Column::Bool(inner) => Ok(inner),
            _ => Err(VMError::TypeError),
        }
    }

    /// Executes one instruction. Operands are checked before anything is popped, so
    /// on an error the stack is as it was.
    fn exec_op(&mut self, op: Op) -> (r: Result<(), VMError>)
        requires
            old(self).wf(),
        ensures
            final(self).wf(),
            final(self).columns == old(self).columns,
            match step(old(self).stack_view(), old(self).table(), op) {
                Ok(s) => r is Ok && final(self).stack_view() == s,
                Err(e) => r == Err::<(), VMError>(e) && final(self).stack == old(self).stack,
            },
    {
        let ghost sv = self.stack_view();
        let ghost st = self.stack@;
        match op {
            Op::Lit(s) => {
                self.stack.push(Value::Scalar(s));
                assert(self.stack_view() =~= sv.push(ValView::Scalar(s)));
                Ok(())
            },
            Op::Col(idx) => {
                if idx >= self.columns.len() {
                    return Err(VMError::IndexError);
                }
                let c = self.columns[idx].clone();
                assert(*c == *self.columns@[idx as int]);
                self.stack.push(Value::ColumnRef(c));
                assert(self.stack_view() =~= sv.push(ValView::Col(self.table()[idx as int])));
                Ok(())
            },
            Op::FilterEq => {
                let n = self.stack.len();
                if n < 2 {
                    return Err(VMError::TypeError);
                }
                assert(st.last()@ == sv.last());
                assert(st.drop_last().last()@ == sv.drop_last().last());
                let fits = match (&self.stack[n - 1], &self.stack[n - 2]) {
                    (Value::Scalar(s), Value::ColumnRef(c)) => c.accepts(s),
                    _ => false,
                };
                if !fits {
                    return Err(VMError::TypeError);
                }
                assert(st[n - 2].wf());
                let s = match self.stack.pop() {
                    Some(Value::Scalar(s)) => s,
                    _ => return Err(VMError::TypeError),
                };
                let col = match self.stack.pop() {
                    Some(Value::ColumnRef(c)) => c,
                    _ => return Err(VMError::TypeError),
                };
                let mask = match col.filter(s) {
                    Ok(m) => m,
                    Err(e) => return Err(e),
                };
                self.stack.push(Value::ColumnRef(Rc::new(Column::Bool(mask))));
                proof {
                    let v = filter_view((*col)@, s)->Ok_0;
                    assert(self.stack_view() =~= sv.drop_last().drop_last().push(
                        ValView::Col(ColView::Bool(v)),
                    ));
                }
                Ok(())
            },
            Op::Select(_) => {
                let n = self.stack.len();
                if n < 2 {
                    return Err(VMError::TypeError);
                }
                assert(st.last()@ == sv.last());
                assert(st.drop_last().last()@ == sv.drop_last().last());
                assert(st[n - 1].wf() && st[n - 2].wf());
                let res = match (&self.stack[n - 1], &self.stack[n - 2]) {
                    (Value::ColumnRef(d), Value::ColumnRef(m)) => match VM::expect_col_bool(&**m) {
                        Ok(mask) => d.select(mask),
                        Err(e) => Err(e),
                    },
                    _ => Err(VMError::TypeError),
                };
                let new_col = match res {
                    Ok(c) => c,
                    Err(e) => return Err(e),
                };
                let _ = self.stack.pop();
                let _ = self.stack.pop();
                self.stack.push(Value::ColumnRef(Rc::new(new_col)));
                proof {
                    assert(self.stack_view() =~= sv.drop_last().drop_last().push(ValView::Col(new_col@)));
                }
                Ok(())
            },
            _ => Err(VMError::IllegalOpcode),
        }
    }

    /// Runs `code` in order on the current stack, stopping at the first error.
    pub fn run(&mut self, code: Vec<Op>) -> (r: Result<(), VMError>)
        requires
            old(self).wf(),
        ensures
            final(self).wf(),
            final(self).table() == old(self).table(),
            final(self).stack_view() == run_stack(old(self).stack_view(), old(self).table(), code@),
            match run_spec(old(self).stack_view(), old(self).table(), code@) {
                Ok(s) => r is Ok && final(self).stack_view() == s,
                Err(e) => r == Err::<(), VMError>(e),
            },
    {
        let ghost ops = code@;
        let ghost start = self.stack_view();
        let ghost cols = self.columns;
        let ghost tbl = self.table();
        let mut left = code;
        let mut pending: Vec<Op> = Vec::new();
        while left.len() > 0
            invariant
                left@.len() + pending@.len() == ops.len(),
                left@ == ops.subrange(0, left@.len() as int),
                forall|j: int| 0 <= j < pending@.len() ==> pending@[j] == ops[ops.len() - 1 - j],
            decreases left@.len(),
        {
            let op = left.pop().unwrap();
            pending.push(op);
            assert(left@ =~= ops.subrange(0, left@.len() as int));
        }
        let ghost mut rest = ops;
        assert(pending@.len() == ops.len());
        while pending.len() > 0
            invariant
                self.wf(),
                self.columns == cols,
                self.table() == tbl,
                tbl == old(self).table(),
                start == old(self).stack_view(),
                ops == code@,
                pending@.len() == rest.len(),
                forall|j: int| 0 <= j < pending@.len() ==> pending@[j] == rest[rest.len() - 1 - j],
                run_spec(self.stack_view(), tbl, rest) == run_spec(start, tbl, ops),
                run_stack(self.stack_view(), tbl, rest) == run_stack(start, tbl, ops),
            decreases pending@.len(),
        {
            let op = pending.pop().unwrap();
            assert(op == rest[0]);
            let ghost sv = self.stack_view();
            let res = self.exec_op(op);
            proof {
                assert(self.table() =~= tbl);
                assert(run_spec(sv, tbl, rest) == match step(sv, tbl, rest[0]) {
                    Ok(next) => run_spec(next, tbl, rest.drop_first()),
                    Err(e) => Err(e),
                });
                assert(run_stack(sv, tbl, rest) == match step(sv, tbl, rest[0]) {
                    Ok(next) => run_stack(next, tbl, rest.drop_first()),
                    Err(_) => sv,
                });
                rest = rest.drop_first();
            }
            if res.is_err() {
                return res;
            }
        }
        Ok(())
    }

    /// The operand stack, bottom first.
    pub fn stack(&self) -> (r: &Vec<Value>)
        ensures
            Seq::new(r@.len(), |i: int| r@[i]@) == self.stack_view(),
    {
        &self.stack
    }
}

/// `Select` with a column on top and anything but a mask column beneath it stops
/// with a type error.
pub proof fn lemma_select_needs_mask(stack: Seq<ValView>, table: Seq<ColView>, n: usize)
    requires
        stack.len() >= 2,
        stack.last() is Col,
        !(stack.drop_last().last() is Col && stack.drop_last().last()->Col_0 is Bool),
    ensures
        step(stack, table, Op::Select(n)) == Err::<Seq<ValView>, VMError>(VMError::TypeError),
        run_spec(stack, table, seq![Op::Select(n)]) == Err::<Seq<ValView>, VMError>(
            VMError::TypeError,
        ),
{
    assert(seq![Op::Select(n)][0] == Op::Select(n));
}

} // verus!
