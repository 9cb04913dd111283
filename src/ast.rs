//! Syntax tree of a program: expressions, statements and numbered lines.
use vstd::prelude::*;

verus! {

/// An integer expression.
#[derive(Debug, PartialEq)]
pub enum Expr {
    Number(i32),
    Variable(char),
    ArrayAccess(char, Box<Expr>),
    Binary { left: Box<Expr>, op: BinaryOp, right: Box<Expr> },
}

/// A copy of an expression, node by node.
fn copy_expr(e: &Expr) -> (r: Expr)
    ensures
        r == *e,
    decreases e,
{
    match e {
        Expr::Number(n) => Expr::Number(*n),
        Expr::Variable(c) => Expr::Variable(*c),
        Expr::ArrayAccess(name, index) => Expr::ArrayAccess(*name, Box::new(copy_expr(index))),
        Expr::Binary { left, op, right } => Expr::Binary {
            left: Box::new(copy_expr(left)),
            op: *op,
            right: Box::new(copy_expr(right)),
        },
    }
}

impl Clone for Expr {
    fn clone(&self) -> (r: Expr)
        ensures
            r == *self,
    {
        copy_expr(self)
    }
}

/// The operators of a binary expression.
#[derive(Debug, Clone, Copy, PartialEq, Eq, Structural)]
pub enum BinaryOp {
    Add,
    Sub,
    Mul,
    Div,
    Eq,
    Ne,
    Lt,
    Le,
    Gt,
    Ge,
}

/// A statement: the body of one program line.
#[derive(Debug, Clone, PartialEq)]
pub enum Stmt {
    Print(Vec<PrintItem>),
    Let(char, Box<Expr>),
    LetArray(char, Box<Expr>, Box<Expr>),
    Goto(i32),
    If { condition: Box<Expr>, then_line: i32 },
    End,
    Dim(char, i32),
}

/// One item of a PRINT statement.
#[derive(Debug, Clone, PartialEq)]
pub enum PrintItem {
    Expr(Expr),
    String(String),
}

/// A numbered program line.
#[derive(Debug, Clone, PartialEq)]
pub struct Line {
    pub number: i32,
    pub stmt: Stmt,
}

/// Mathematical value of a PRINT item: literal text or an expression.
pub enum ItemView {
    Text(Seq<char>),
    Value(Expr),
}

/// Mathematical value of a statement. `Plain` holds every statement but PRINT,
/// which holds no text and so is its own value.
pub enum StmtView {
    Print(Seq<ItemView>),
    Plain(Stmt),
}

/// Mathematical value of a program line.
pub struct LineView {
    pub number: i32,
    pub stmt: StmtView,
}

impl View for PrintItem {
    type V = ItemView;

    open spec fn view(&self) -> ItemView {
        match self {
            PrintItem::Expr(e) => ItemView::Value(*e),
            PrintItem::String(s) => ItemView::Text(s@),
        }
    }
}

impl View for Stmt {
    type V = StmtView;

    open spec fn view(&self) -> StmtView {
        match self {
            Stmt::Print(items) => StmtView::Print(items_view(items@)),
            _ => StmtView::Plain(*self),
        }
    }
}

impl View for Line {
    type V = LineView;

    open spec fn view(&self) -> LineView {
        LineView { number: self.number, stmt: self.stmt@ }
    }
}

/// The values of a sequence of PRINT items.
pub open spec fn items_view(items: Seq<PrintItem>) -> Seq<ItemView> {
    items.map_values(|p: PrintItem| p@)
}

/// The values of a sequence of lines.
pub open spec fn lines_view(lines: Seq<Line>) -> Seq<LineView> {
    lines.map_values(|l: Line| l@)
}

} // verus!
