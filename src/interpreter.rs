//! Interpreter: runs a program line by line, jumping between line numbers.
use vstd::prelude::*;
use crate::ast::{BinaryOp, Expr, ItemView, Line, LineView, PrintItem, Stmt, StmtView, lines_view};
use crate::text::{int_text, push_char, push_int};

verus! {

/// An error that stops a run.
#[derive(Debug, Clone, Copy, PartialEq, Eq, Structural)]
pub enum RuntimeError {
    DivisionByZero,
    UndefinedVariable(char),
    UndefinedArray(char),
    ArrayNotDimensioned(char),
    InvalidLineNumber(i32),
    IndexOutOfBounds { array: char, index: i32, size: i32 },
}

/// The human-readable text of a runtime error.
pub open spec fn runtime_message(e: RuntimeError) -> Seq<char> {
    match e {
        RuntimeError::DivisionByZero => "Division by zero"@,
        RuntimeError::UndefinedVariable(c) => "Undefined variable: "@ + seq![c],
        RuntimeError::UndefinedArray(c) => "Undefined array: "@ + seq![c],
        RuntimeError::ArrayNotDimensioned(c) => "Array "@ + seq![c] + " not dimensioned"@,
        RuntimeError::InvalidLineNumber(n) => "Invalid line number: "@ + int_text(n as int),
        RuntimeError::IndexOutOfBounds { array, index, size } => "Index "@ + int_text(
            index as int,
        ) + " out of bounds for array "@ + seq![array] + " (size "@ + int_text(size as int)
            + ")"@,
    }
}

impl RuntimeError {
    /// The human-readable text of this error.
    pub fn message(&self) -> (r: String)
        ensures
            r@ == runtime_message(*self),
    {
        let mut s = String::new();
        match *self {
            RuntimeError::DivisionByZero => s.append("Division by zero"),
            RuntimeError::UndefinedVariable(c) => {
                s.append("Undefined variable: ");
                push_char(&mut s, c);
            },
            RuntimeError::UndefinedArray(c) => {
                s.append("Undefined array: ");
                push_char(&mut s, c);
            },
            RuntimeError::ArrayNotDimensioned(c) => {
                s.append("Array ");
                push_char(&mut s, c);
                s.append(" not dimensioned");
            },
            RuntimeError::InvalidLineNumber(n) => {
                s.append("Invalid line number: ");
                push_int(&mut s, n);
            },
            RuntimeError::IndexOutOfBounds { array, index, size } => {
                s.append("Index ");
                push_int(&mut s, index);
                s.append(" out of bounds for array ");
                push_char(&mut s, array);
                s.append(" (size ");
                push_int(&mut s, size);
                s.append(")");
            },
        }
        assert(s@ =~= runtime_message(*self));
        s
    }
}

/// Number of variable and array names: the letters `A` to `Z`.
pub const NAMES: usize = 26;

/// Whether `c` names a variable or an array.
pub open spec fn is_name(c: char) -> bool {
    'A' <= c && c <= 'Z'
}

/// The storage slot of a name.
pub open spec fn slot(c: char) -> int {
    (c as u32) as int - 65
}

/// The execution state of a run.
pub struct Machine {
    /// The value of each of the 26 variables, by slot.
    pub vars: Seq<i32>,
    /// The elements of each of the 26 arrays, by slot; `None` before DIM.
    pub arrays: Seq<Option<Seq<i32>>>,
    /// The index of the next line to execute.
    pub cursor: int,
    /// Whether END has executed.
    pub done: bool,
}

/// The state at the start of every run: all variables 0, no arrays.
pub open spec fn fresh() -> Machine {
    Machine {
        vars: Seq::new(NAMES as nat, |i: int| 0i32),
        arrays: Seq::new(NAMES as nat, |i: int| None),
        cursor: 0,
        done: false,
    }
}

/// At the start of every run each of the 26 variables holds 0.
pub proof fn lemma_fresh_variables(c: char)
    requires
        is_name(c),
    ensures
        var_value(fresh().vars, c) == Some(0i32),
{
}

/// The value of variable `c`, if `c` is a variable name.
pub open spec fn var_value(vars: Seq<i32>, c: char) -> Option<i32> {
    if is_name(c) {
        Some(vars[slot(c)])
    } else {
        None
    }
}

/// The array named `c`, if it has been dimensioned.
pub open spec fn array_of(arrays: Seq<Option<Seq<i32>>>, c: char) -> Option<Seq<i32>> {
    if is_name(c) {
        arrays[slot(c)]
    } else {
        None
    }
}

/// A comparison result as an integer.
pub open spec fn truth(b: bool) -> i32 {
    if b {
        1
    } else {
        0
    }
}

/// A binary operator on two values: wrapping arithmetic, truncating division.
pub open spec fn apply(op: BinaryOp, l: i32, r: i32) -> Result<i32, RuntimeError> {
    match op {
        BinaryOp::Add => Ok(l.wrapping_add(r)),
        BinaryOp::Sub => Ok(l.wrapping_sub(r)),
        BinaryOp::Mul => Ok(l.wrapping_mul(r)),
        BinaryOp::Div => if r == 0 {
            Err(RuntimeError::DivisionByZero)
        } else {
            match l.checked_div(r) {
                Some(q) => Ok(q),
                None => Ok(i32::MIN),
            }
        },
        BinaryOp::Eq => Ok(truth(l == r)),
        BinaryOp::Ne => Ok(truth(l != r)),
        BinaryOp::Lt => Ok(truth(l < r)),
        BinaryOp::Le => Ok(truth(l <= r)),
        BinaryOp::Gt => Ok(truth(l > r)),
        BinaryOp::Ge => Ok(truth(l >= r)),
    }
}

/// The element `i` of array `name`, or why it cannot be read.
pub open spec fn element(arrays: Seq<Option<Seq<i32>>>, name: char, i: i32) -> Result<
    i32,
    RuntimeError,
> {
    match array_of(arrays, name) {
        None => Err(RuntimeError::ArrayNotDimensioned(name)),
        Some(a) => if i < 0 || i >= a.len() {
            Err(RuntimeError::IndexOutOfBounds { array: name, index: i, size: a.len() as i32 })
        } else {
            Ok(a[i as int])
        },
    }
}

/// The value of an expression; operands are evaluated left first.
pub open spec fn eval(e: Expr, vars: Seq<i32>, arrays: Seq<Option<Seq<i32>>>) -> Result<
    i32,
    RuntimeError,
>
    decreases e,
{
    match e {
        Expr::Number(n) => Ok(n),
        Expr::Variable(c) => match var_value(vars, c) {
            Some(v) => Ok(v),
            None => Err(RuntimeError::UndefinedVariable(c)),
        },
        Expr::ArrayAccess(name, index) => match eval(*index, vars, arrays) {
            Err(x) => Err(x),
            Ok(i) => element(arrays, name, i),
        },
        Expr::Binary { left, op, right } => match eval(*left, vars, arrays) {
            Err(x) => Err(x),
            Ok(l) => match eval(*right, vars, arrays) {
                Err(x) => Err(x),
                Ok(r) => apply(op, l, r),
            },
        },
    }
}

/// The text of one PRINT item.
pub open spec fn item_text(item: ItemView, vars: Seq<i32>, arrays: Seq<Option<Seq<i32>>>) -> Result<
    Seq<char>,
    RuntimeError,
> {
    match item {
        ItemView::Text(s) => Ok(s),
        ItemView::Value(e) => match eval(e, vars, arrays) {
            Ok(v) => Ok(int_text(v as int)),
            Err(x) => Err(x),
        },
    }
}

/// The texts of PRINT items, evaluated left to right; the first error wins.
pub open spec fn item_texts(
    items: Seq<ItemView>,
    vars: Seq<i32>,
    arrays: Seq<Option<Seq<i32>>>,
) -> Result<Seq<Seq<char>>, RuntimeError>
    decreases items.len(),
{
    if items.len() == 0 {
        Ok(seq![])
    } else {
        match item_texts(items.drop_last(), vars, arrays) {
            Err(x) => Err(x),
            Ok(ts) => match item_text(items.last(), vars, arrays) {
                Err(x) => Err(x),
                Ok(t) => Ok(ts.push(t)),
            },
        }
    }
}

/// Texts joined with single spaces.
pub open spec fn join_words(ts: Seq<Seq<char>>) -> Seq<char>
    decreases ts.len(),
{
    if ts.len() == 0 {
        seq![]
    } else if ts.len() == 1 {
        ts[0]
    } else {
        join_words(ts.drop_last()) + seq![' '] + ts.last()
    }
}

/// What executing one statement does.
pub struct Effect {
    pub vars: Seq<i32>,
    pub arrays: Seq<Option<Seq<i32>>>,
    /// The line to jump to, if any.
    pub jump: Option<i32>,
    /// Whether the statement ends the run.
    pub halt: bool,
    /// The line of output, if any.
    pub output: Option<Seq<char>>,
}

/// The effect of a statement that changes no storage.
pub open spec fn plain_effect(
    vars: Seq<i32>,
    arrays: Seq<Option<Seq<i32>>>,
    jump: Option<i32>,
    halt: bool,
    output: Option<Seq<char>>,
) -> Effect {
    Effect { vars, arrays, jump, halt, output }
}

/// The effect of executing a statement, or the error it stops with. Names are
/// the letters `A` to `Z`: assigning to any other name fails as an undefined
/// variable, and dimensioning one fails as an undefined array.
pub open spec fn exec_stmt(s: StmtView, vars: Seq<i32>, arrays: Seq<Option<Seq<i32>>>) -> Result<
    Effect,
    RuntimeError,
> {
    match s {
        StmtView::Print(items) => match item_texts(items, vars, arrays) {
            Err(x) => Err(x),
            Ok(ts) => Ok(plain_effect(vars, arrays, None, false, Some(join_words(ts)))),
        },
        StmtView::Plain(stmt) => match stmt {
            Stmt::Let(c, value) => match eval(*value, vars, arrays) {
                Err(x) => Err(x),
                Ok(v) => if is_name(c) {
                    Ok(plain_effect(vars.update(slot(c), v), arrays, None, false, None))
                } else {
                    Err(RuntimeError::UndefinedVariable(c))
                },
            },
            Stmt::LetArray(name, index, value) => match eval(*index, vars, arrays) {
                Err(x) => Err(x),
                Ok(i) => match eval(*value, vars, arrays) {
                    Err(x) => Err(x),
                    Ok(v) => match element(arrays, name, i) {
                        Err(x) => Err(x),
                        Ok(_) => Ok(
                            plain_effect(
                                vars,
                                arrays.update(
                                    slot(name),
                                    Some(arrays[slot(name)]->0.update(i as int, v)),
                                ),
                                None,
                                false,
                                None,
                            ),
                        ),
                    },
                },
            },
            Stmt::Goto(t) => Ok(plain_effect(vars, arrays, Some(t), false, None)),
            Stmt::If { condition, then_line } => match eval(*condition, vars, arrays) {
                Err(x) => Err(x),
                Ok(c) => Ok(
                    plain_effect(
                        vars,
                        arrays,
                        if c != 0 {
                            Some(then_line)
                        } else {
                            None
                        },
                        false,
                        None,
                    ),
                ),
            },
            Stmt::End => Ok(plain_effect(vars, arrays, None, true, None)),
            Stmt::Dim(name, size) => if size < 0 {
                Err(RuntimeError::IndexOutOfBounds { array: name, index: size, size: 0 })
            } else if !is_name(name) {
                Err(RuntimeError::UndefinedArray(name))
            } else {
                Ok(
                    plain_effect(
                        vars,
                        arrays.update(slot(name), Some(Seq::new(size as nat, |k: int| 0i32))),
                        None,
                        false,
                        None,
                    ),
                )
            },
            Stmt::Print(_) => Ok(plain_effect(vars, arrays, None, false, None)),
        },
    }
}

/// The first index at or after `k` of a line numbered `t`.
pub open spec fn find_line(prog: Seq<LineView>, t: i32, k: int) -> Option<int>
    decreases prog.len() - k,
{
    if k < 0 || k >= prog.len() {
        None
    } else if prog[k].number == t {
        Some(k)
    } else {
        find_line(prog, t, k + 1)
    }
}

/// Whether a run in state `m` has stopped normally.
pub open spec fn halted(prog: Seq<LineView>, m: Machine) -> bool {
    m.done || m.cursor < 0 || m.cursor >= prog.len()
}

/// One transition of a running program: the next state and the line printed.
pub open spec fn step(prog: Seq<LineView>, m: Machine) -> Result<
    (Machine, Option<Seq<char>>),
    RuntimeError,
> {
    match exec_stmt(prog[m.cursor].stmt, m.vars, m.arrays) {
        Err(x) => Err(x),
        Ok(eff) => {
            let next = Machine {
                vars: eff.vars,
                arrays: eff.arrays,
                cursor: m.cursor + 1,
                done: m.done || eff.halt,
            };
            match eff.jump {
                None => Ok((next, eff.output)),
                Some(t) => match find_line(prog, t, 0) {
                    None => Err(RuntimeError::InvalidLineNumber(t)),
                    Some(k) => Ok((Machine { cursor: k, ..next }, eff.output)),
                },
            }
        },
    }
}

/// A line of output as a sequence of lines.
pub open spec fn lines_of(o: Option<Seq<char>>) -> Seq<Seq<char>> {
    match o {
        Some(t) => seq![t],
        None => seq![],
    }
}

/// The state in which at most `fuel` transitions from `m` stop: where the
/// program halted, where the bound was reached, or the state at the line
/// whose execution failed.
pub open spec fn run_state(prog: Seq<LineView>, m: Machine, fuel: nat) -> Machine
    decreases fuel,
{
    if halted(prog, m) || fuel == 0 {
        m
    } else {
        match step(prog, m) {
            Err(_) => m,
            Ok((next, _)) => run_state(prog, next, (fuel - 1) as nat),
        }
    }
}

/// At most `fuel` transitions from `m`: the lines printed, and the final
/// state or the error that stopped the run.
pub open spec fn run_steps(prog: Seq<LineView>, m: Machine, fuel: nat) -> (
    Seq<Seq<char>>,
    Result<Machine, RuntimeError>,
)
    decreases fuel,
{
    if halted(prog, m) || fuel == 0 {
        (seq![], Ok(m))
    } else {
        match step(prog, m) {
            Err(x) => (seq![], Err(x)),
            Ok((next, o)) => {
                let (rest, r) = run_steps(prog, next, (fuel - 1) as nat);
                (lines_of(o) + rest, r)
            },
        }
    }
}

/// The texts of a list of output lines.
pub open spec fn texts(out: Seq<String>) -> Seq<Seq<char>> {
    out.map_values(|s: String| s@)
}

proof fn lemma_texts_error(items: Seq<ItemView>, j: int, vars: Seq<i32>, arrays: Seq<Option<Seq<i32>>>)
    requires
        0 <= j <= items.len(),
        item_texts(items.take(j), vars, arrays) is Err,
    ensures
        item_texts(items, vars, arrays) == item_texts(items.take(j), vars, arrays),
    decreases items.len() - j,
{
    if j < items.len() {
        assert(items.take(j + 1).drop_last() =~= items.take(j));
        lemma_texts_error(items, j + 1, vars, arrays);
    } else {
        assert(items.take(j) =~= items);
    }
}

proof fn lemma_find_line_range(prog: Seq<LineView>, t: i32, k: int)
    requires
        0 <= k,
    ensures
        find_line(prog, t, k) matches Some(j) ==> k <= j < prog.len() && prog[j].number == t,
    decreases prog.len() - k,
{
    if k < prog.len() {
        lemma_find_line_range(prog, t, k + 1);
    }
}

/// Runs one program. Variables and arrays are indexed by letter slot.
pub struct Interpreter {
    variables: Vec<i32>,
    arrays: Vec<Option<Vec<i32>>>,
    program: Vec<Line>,
    line_index: usize,
    done: bool,
}

/// The value of a name's slot, for a letter.
fn slot_of(c: char) -> (r: Option<usize>)
    ensures
        is_name(c) ==> r == Some(slot(c) as usize) && 0 <= slot(c) < NAMES,
        !is_name(c) ==> r is None,
{
    if 'A' <= c && c <= 'Z' {
        Some((c as u32 - 65) as usize)
    } else {
        None
    }
}

impl Interpreter {
    /// The program being run.
    pub closed spec fn lines(&self) -> Seq<LineView> {
        lines_view(self.program@)
    }

    /// The execution state.
    pub closed spec fn machine(&self) -> Machine {
        Machine {
            vars: self.variables@,
            arrays: self.arrays@.map_values(
                |a: Option<Vec<i32>>|
                    match a {
                        Some(v) => Some(v@),
                        None => None,
                    },
            ),
            cursor: self.line_index as int,
            done: self.done,
        }
    }

    pub closed spec fn wf(&self) -> bool {
        &&& self.variables.len() == NAMES
        &&& self.arrays.len() == NAMES
        &&& forall|k: int|
            0 <= k < NAMES ==> (#[trigger] self.arrays@[k] matches Some(a) ==> a.len()
                <= i32::MAX)
    }

    /// A fresh interpreter for `program`: every variable is 0, no array exists.
    pub fn new(program: Vec<Line>) -> (r: Interpreter)
        ensures
            r.wf(),
            r.lines() == lines_view(program@),
            r.machine() == fresh(),
    {
        let mut interp = Interpreter {
            variables: Vec::new(),
            arrays: Vec::new(),
            program,
            line_index: 0,
            done: false,
        };
        interp.reset();
        interp
    }

    /// Returns to the state at the start of a run.
    pub fn reset(&mut self)
        ensures
            final(self).wf(),
            final(self).lines() == old(self).lines(),
            final(self).machine() == fresh(),
    {
        let mut variables: Vec<i32> = Vec::new();
        let mut arrays: Vec<Option<Vec<i32>>> = Vec::new();
        for k in 0..NAMES
            invariant
                variables.len() == k,
                arrays.len() == k,
                forall|j: int| 0 <= j < k ==> variables@[j] == 0i32,
                forall|j: int| 0 <= j < k ==> arrays@[j] is None,
        {
            variables.push(0);
            arrays.push(None);
        }
        self.variables = variables;
        self.arrays = arrays;
        self.line_index = 0;
        self.done = false;
        assert(self.machine().vars =~= fresh().vars);
        assert(self.machine().arrays =~= fresh().arrays);
    }

    /// The value of variable `c`, if `c` is a variable name.
    pub fn variable(&self, c: char) -> (r: Option<i32>)
        requires
            self.wf(),
        ensures
            r == var_value(self.machine().vars, c),
    {
        match slot_of(c) {
            Some(k) => Some(self.variables[k]),
            None => None,
        }
    }

    /// Whether the run has stopped normally: END ran or the last line was passed.
    pub fn finished(&self) -> (r: bool)
        ensures
            r == halted(self.lines(), self.machine()),
    {
        self.done || self.line_index >= self.program.len()
    }

    /// The index of the first line numbered `line_num`.
    fn get_line_index(&self, line_num: i32) -> (r: Result<usize, RuntimeError>)
        ensures
            match r {
                Ok(k) => find_line(self.lines(), line_num, 0) == Some(k as int),
                Err(x) => find_line(self.lines(), line_num, 0) is None && x
                    == RuntimeError::InvalidLineNumber(line_num),
            },
    {
        proof {
            lemma_find_line_range(self.lines(), line_num, 0);
        }
        let mut k: usize = 0;
        while k < self.program.len()
            invariant
                k <= self.program.len(),
                find_line(self.lines(), line_num, 0) == find_line(self.lines(), line_num, k as int),
            decreases self.program.len() - k,
        {
            if self.program[k].number == line_num {
                return Ok(k);
            }
            k += 1;
        }
        Err(RuntimeError::InvalidLineNumber(line_num))
    }

    /// Element `index` of array `name`.
    fn read_element(&self, name: char, index: i32) -> (r: Result<i32, RuntimeError>)
        requires
            self.wf(),
        ensures
            r == element(self.machine().arrays, name, index),
    {
        let k = match slot_of(name) {
            Some(k) => k,
            None => return Err(RuntimeError::ArrayNotDimensioned(name)),
        };
        match &self.arrays[k] {
            None => Err(RuntimeError::ArrayNotDimensioned(name)),
            Some(arr) => {
                if index < 0 || index as usize >= arr.len() {
                    Err(RuntimeError::IndexOutOfBounds { array: name, index, size: arr.len() as i32 })
                } else {
                    Ok(arr[index as usize])
                }
            },
        }
    }

    /// The value of an expression in the current state.
    fn eval_expr(&self, expr: &Expr) -> (r: Result<i32, RuntimeError>)
        requires
            self.wf(),
        ensures
            r == eval(*expr, self.machine().vars, self.machine().arrays),
        decreases expr,
    {
        match expr {
            Expr::Number(n) => Ok(*n),
            Expr::Variable(c) => match self.variable(*c) {
                Some(v) => Ok(v),
                None => Err(RuntimeError::UndefinedVariable(*c)),
            },
            Expr::ArrayAccess(name, index_expr) => {
                let index = self.eval_expr(index_expr)?;
                self.read_element(*name, index)
            },
            Expr::Binary { left, op, right } => {
                let l = self.eval_expr(left)?;
                let r = self.eval_expr(right)?;
                match op {
                    BinaryOp::Add => Ok(l.wrapping_add(r)),
                    BinaryOp::Sub => Ok(l.wrapping_sub(r)),
                    BinaryOp::Mul => Ok(l.wrapping_mul(r)),
                    BinaryOp::Div => {
                        if r == 0 {
                            Err(RuntimeError::DivisionByZero)
                        } else {
                            match l.checked_div(r) {
                                Some(q) => Ok(q),
                                None => Ok(i32::MIN),
                            }
                        }
                    },
                    BinaryOp::Eq => Ok(if l == r { 1 } else { 0 }),
                    BinaryOp::Ne => Ok(if l != r { 1 } else { 0 }),
                    BinaryOp::Lt => Ok(if l < r { 1 } else { 0 }),
                    BinaryOp::Le => Ok(if l <= r { 1 } else { 0 }),
                    BinaryOp::Gt => Ok(if l > r { 1 } else { 0 }),
                    BinaryOp::Ge => Ok(if l >= r { 1 } else { 0 }),
                }
            },
        }
    }

    /// Executes line `index`: changes storage, prints to `out`, and returns the
    /// line to jump to, if any.
    fn execute_statement(&mut self, index: usize, out: &mut Vec<String>) -> (r: Result<
        Option<i32>,
        RuntimeError,
    >)
        requires
            old(self).wf(),
            index < old(self).lines().len(),
        ensures
            final(self).wf(),
            final(self).lines() == old(self).lines(),
            final(self).machine().cursor == old(self).machine().cursor,
            match exec_stmt(
                old(self).lines()[index as int].stmt,
                old(self).machine().vars,
                old(self).machine().arrays,
            ) {
                Ok(eff) => {
                    &&& r == Ok::<Option<i32>, RuntimeError>(eff.jump)
                    &&& final(self).machine().vars == eff.vars
                    &&& final(self).machine().arrays == eff.arrays
                    &&& final(self).machine().done == (old(self).machine().done || eff.halt)
                    &&& texts(final(out)@) == texts(old(out)@) + lines_of(eff.output)
                },
                Err(x) => {
                    &&& r == Err::<Option<i32>, RuntimeError>(x)
                    &&& texts(final(out)@) == texts(old(out)@)
                    &&& final(self).machine() == old(self).machine()
                },
            },
    {
        let ghost vars = self.machine().vars;
        let ghost arrays = self.machine().arrays;
        assert(self.lines()[index as int] == self.program@[index as int]@);
        match &self.program[index].stmt {
            Stmt::Print(items) => {
                let ghost iv = crate::ast::items_view(items@);
                let mut line = String::new();
                let ghost mut ts: Seq<Seq<char>> = seq![];
                let mut k: usize = 0;
                while k < items.len()
                    invariant
                        self.wf(),
                        *self == *old(self),
                        out@ == old(out)@,
                        vars == old(self).machine().vars,
                        arrays == old(self).machine().arrays,
                        vars == self.machine().vars,
                        arrays == self.machine().arrays,
                        old(self).lines()[index as int].stmt == StmtView::Print(iv),
                        iv == crate::ast::items_view(items@),
                        k <= items.len(),
                        ts.len() == k,
                        item_texts(iv.take(k as int), vars, arrays) == Ok::<
                            Seq<Seq<char>>,
                            RuntimeError,
                        >(ts),
                        line@ == join_words(ts),
                    decreases items.len() - k,
                {
                    let ghost prev_ts = ts;
                    assert(iv.take(k + 1).drop_last() =~= iv.take(k as int));
                    if k > 0 {
                        push_char(&mut line, ' ');
                    }
                    match &items[k] {
                        PrintItem::String(text) => {
                            line.append(text.as_str());
                            proof {
                                ts = ts.push(text@);
                            }
                        },
                        PrintItem::Expr(e) => {
                            let v = match self.eval_expr(e) {
                                Ok(v) => v,
                                Err(x) => {
                                    proof {
                                        assert(iv[k as int] == ItemView::Value(*e));
                                        assert(iv.take(k + 1).last() == iv[k as int]);
                                        lemma_texts_error(iv, k + 1, vars, arrays);
                                    }
                                    return Err(x);
                                },
                            };
                            push_int(&mut line, v);
                            proof {
                                ts = ts.push(int_text(v as int));
                            }
                        },
                    }
                    assert(ts.drop_last() =~= prev_ts);
                    k += 1;
                }
                assert(iv.take(k as int) =~= iv);
                out.push(line);
                assert(texts(out@) =~= texts(old(out)@) + seq![join_words(ts)]);
                Ok(None)
            },
            Stmt::Let(var, value) => {
                let val = self.eval_expr(value)?;
                match slot_of(*var) {
                    Some(k) => {
                        self.variables.set(k, val);
                        Ok(None)
                    },
                    None => Err(RuntimeError::UndefinedVariable(*var)),
                }
            },
            Stmt::LetArray(name, index_expr, value) => {
                let i = self.eval_expr(index_expr)?;
                let val = self.eval_expr(value)?;
                self.read_element(*name, i)?;
                let k = match slot_of(*name) {
                    Some(k) => k,
                    None => return Err(RuntimeError::ArrayNotDimensioned(*name)),
                };
                match self.arrays.remove(k) {
                    Some(mut arr) => {
                        arr.set(i as usize, val);
                        self.arrays.insert(k, Some(arr));
                    },
                    None => {
                        self.arrays.insert(k, None);
                    },
                }
                assert(self.machine().arrays =~= arrays.update(
                    slot(*name),
                    Some(arrays[slot(*name)]->0.update(i as int, val)),
                ));
                Ok(None)
            },
            Stmt::Goto(line_num) => Ok(Some(*line_num)),
            Stmt::If { condition, then_line } => {
                let result = self.eval_expr(condition)?;
                if result != 0 {
                    Ok(Some(*then_line))
                } else {
                    Ok(None)
                }
            },
            Stmt::End => {
                self.done = true;
                Ok(None)
            },
            Stmt::Dim(name, size) => {
                if *size < 0 {
                    return Err(RuntimeError::IndexOutOfBounds { array: *name, index: *size, size: 0 });
                }
                let k = match slot_of(*name) {
                    Some(k) => k,
                    None => return Err(RuntimeError::UndefinedArray(*name)),
                };
                let n = *size as usize;
                let mut arr: Vec<i32> = Vec::new();
                while arr.len() < n
                    invariant
                        arr.len() <= n,
                        forall|j: int| 0 <= j < arr.len() ==> arr@[j] == 0i32,
                    decreases n - arr.len(),
                {
                    arr.push(0);
                }
                assert(arr@ =~= Seq::new(n as nat, |j: int| 0i32));
                self.arrays.set(k, Some(arr));
                assert(self.machine().arrays =~= arrays.update(
                    slot(*name),
                    Some(Seq::new(*size as nat, |j: int| 0i32)),
                ));
                Ok(None)
            },
        }
    }

    /// Executes the current line and moves to the next one: the following
    /// line, or the target of a jump.
    pub fn step(&mut self, out: &mut Vec<String>) -> (r: Result<(), RuntimeError>)
        requires
            old(self).wf(),
            !halted(old(self).lines(), old(self).machine()),
        ensures
            final(self).wf(),
            final(self).lines() == old(self).lines(),
            match step(old(self).lines(), old(self).machine()) {
                Ok((m, o)) => {
                    &&& r is Ok
                    &&& final(self).machine() == m
                    &&& texts(final(out)@) == texts(old(out)@) + lines_of(o)
                },
                Err(x) => {
                    &&& r == Err::<(), RuntimeError>(x)
                    &&& texts(final(out)@) == texts(old(out)@)
                    &&& final(self).machine() == old(self).machine()
                },
            },
    {
        let ghost m = self.machine();
        assert(self.lines().len() == self.program@.len());
        let jump = match self.execute_statement(self.line_index, out) {
            Ok(j) => j,
            Err(x) => return Err(x),
        };
        assert(texts(old(out)@) + seq![] =~= texts(old(out)@));
        match jump {
            Some(goto_line) => {
                self.line_index = self.get_line_index(goto_line)?;
            },
            None => {
                assert(self.lines().len() == self.program@.len());
                assert(self.line_index < self.program.len());
                self.line_index += 1;
            },
        }
        Ok(())
    }

    /// Runs the program from a fresh state for at most `max_steps` lines,
    /// printing to `out`. Returns whether it stopped normally within that
    /// many lines; a program may loop for ever, and the caller picks the bound.
    pub fn run(&mut self, out: &mut Vec<String>, max_steps: u64) -> (r: Result<bool, RuntimeError>)
        requires
            old(self).wf(),
        ensures
            final(self).wf(),
            final(self).lines() == old(self).lines(),
            texts(final(out)@) == texts(old(out)@) + run_steps(
                old(self).lines(),
                fresh(),
                max_steps as nat,
            ).0,
            final(self).machine() == run_state(old(self).lines(), fresh(), max_steps as nat),
            match run_steps(old(self).lines(), fresh(), max_steps as nat).1 {
                Ok(m) => r == Ok::<bool, RuntimeError>(halted(old(self).lines(), m))
                    && final(self).machine() == m,
                Err(x) => r == Err::<bool, RuntimeError>(x),
            },
    {
        self.reset();
        let ghost prog = self.lines();
        let ghost start = texts(out@);
        let ghost mut produced: Seq<Seq<char>> = seq![];
        let mut steps: u64 = 0;
        while steps < max_steps && !self.finished()
            invariant
                self.wf(),
                self.lines() == prog,
                prog == old(self).lines(),
                start == texts(old(out)@),
                steps <= max_steps,
                texts(out@) == start + produced,
                run_state(prog, fresh(), max_steps as nat) == run_state(
                    prog,
                    self.machine(),
                    (max_steps - steps) as nat,
                ),
                run_steps(prog, fresh(), max_steps as nat) == (
                    produced + run_steps(prog, self.machine(), (max_steps - steps) as nat).0,
                    run_steps(prog, self.machine(), (max_steps - steps) as nat).1,
                ),
            decreases max_steps - steps,
        {
            let ghost m = self.machine();
            let ghost fuel = (max_steps - steps) as nat;
            match self.step(out) {
                Ok(()) => {
                    let ghost o = step(prog, m)->Ok_0.1;
                    proof {
                        assert(produced + (lines_of(o) + run_steps(prog, self.machine(), (fuel - 1) as nat).0)
                            =~= (produced + lines_of(o)) + run_steps(prog, self.machine(), (fuel - 1) as nat).0);
                        produced = produced + lines_of(o);
                    }
                },
                Err(x) => {
                    assert(produced + seq![] =~= produced);
                    return Err(x);
                },
            }
            steps += 1;
        }
        assert(produced + seq![] =~= produced);
        Ok(self.finished())
    }

}

} // verus!
