//! Renders parsed lines back to source text, and re-reads such text.
use vstd::prelude::*;
use crate::ast::{BinaryOp, Expr, ItemView, Line, LineView, PrintItem, Stmt, StmtView, lines_view};
use crate::parser::{ParseError, parse, parse_text, program_outcome};
use crate::text::{int_text, push_char, push_int};

verus! {

/// The source text of an operator.
pub open spec fn op_text(op: BinaryOp) -> Seq<char> {
    match op {
        BinaryOp::Add => "+"@,
        BinaryOp::Sub => "-"@,
        BinaryOp::Mul => "*"@,
        BinaryOp::Div => "/"@,
        BinaryOp::Eq => "="@,
        BinaryOp::Ne => "<>"@,
        BinaryOp::Lt => "<"@,
        BinaryOp::Le => "<="@,
        BinaryOp::Gt => ">"@,
        BinaryOp::Ge => ">="@,
    }
}

/// The source text of an expression; every binary expression is parenthesised.
pub open spec fn expr_text(e: Expr) -> Seq<char>
    decreases e,
{
    match e {
        Expr::Number(n) => int_text(n as int),
        Expr::Variable(c) => seq![c],
        Expr::ArrayAccess(name, index) => seq![name] + "("@ + expr_text(*index) + ")"@,
        Expr::Binary { left, op, right } => "("@ + expr_text(*left) + " "@ + op_text(op) + " "@
            + expr_text(*right) + ")"@,
    }
}

/// The source text of a PRINT item: a string in double quotes, or an expression.
pub open spec fn item_src(item: ItemView) -> Seq<char> {
    match item {
        ItemView::Text(s) => "\""@ + s + "\""@,
        ItemView::Value(e) => expr_text(e),
    }
}

/// PRINT items separated by `, `.
pub open spec fn items_src(items: Seq<ItemView>) -> Seq<char>
    decreases items.len(),
{
    if items.len() == 0 {
        seq![]
    } else if items.len() == 1 {
        item_src(items[0])
    } else {
        items_src(items.drop_last()) + ", "@ + item_src(items.last())
    }
}

/// The source text of a statement. A PRINT without items is written with one
/// empty string, which prints the same empty line, so that the text that
/// follows it cannot be read back as one of its items.
pub open spec fn stmt_text(s: StmtView) -> Seq<char> {
    match s {
        StmtView::Print(items) => "PRINT "@ + if items.len() == 0 {
            "\"\""@
        } else {
            items_src(items)
        },
        StmtView::Plain(stmt) => match stmt {
            Stmt::Let(v, e) => "LET "@ + seq![v] + " = "@ + expr_text(*e),
            Stmt::LetArray(v, i, e) => "LET "@ + seq![v] + "("@ + expr_text(*i) + ") = "@
                + expr_text(*e),
            Stmt::Goto(n) => "GOTO "@ + int_text(n as int),
            Stmt::If { condition, then_line } => "IF "@ + expr_text(*condition) + " THEN "@
                + int_text(then_line as int),
            Stmt::End => "END"@,
            Stmt::Dim(v, n) => "DIM "@ + seq![v] + "("@ + int_text(n as int) + ")"@,
            Stmt::Print(_) => "PRINT "@,
        },
    }
}

/// The source text of a line: its number, a space, its statement.
pub open spec fn line_text(l: LineView) -> Seq<char> {
    int_text(l.number as int) + " "@ + stmt_text(l.stmt)
}

/// The source text of a program: each line followed by a newline.
pub open spec fn program_text(ls: Seq<LineView>) -> Seq<char>
    decreases ls.len(),
{
    if ls.len() == 0 {
        seq![]
    } else {
        program_text(ls.drop_last()) + line_text(ls.last()) + "\n"@
    }
}

fn push_op(s: &mut String, op: BinaryOp)
    ensures
        final(s)@ == old(s)@ + op_text(op),
{
    match op {
        BinaryOp::Add => s.append("+"),
        BinaryOp::Sub => s.append("-"),
        BinaryOp::Mul => s.append("*"),
        BinaryOp::Div => s.append("/"),
        BinaryOp::Eq => s.append("="),
        BinaryOp::Ne => s.append("<>"),
        BinaryOp::Lt => s.append("<"),
        BinaryOp::Le => s.append("<="),
        BinaryOp::Gt => s.append(">"),
        BinaryOp::Ge => s.append(">="),
    }
}

/// Appends the source text of `e` to `s`.
fn push_expr(s: &mut String, e: &Expr)
    ensures
        final(s)@ == old(s)@ + expr_text(*e),
    decreases e,
{
    let ghost start = s@;
    match e {
        Expr::Number(n) => push_int(s, *n),
        Expr::Variable(c) => {
            push_char(s, *c);
            assert(s@ =~= start + expr_text(*e));
        },
        Expr::ArrayAccess(name, index) => {
            push_char(s, *name);
            s.append("(");
            push_expr(s, index);
            s.append(")");
            assert(s@ =~= start + expr_text(*e));
        },
        Expr::Binary { left, op, right } => {
            s.append("(");
            push_expr(s, left);
            s.append(" ");
            push_op(s, *op);
            s.append(" ");
            push_expr(s, right);
            s.append(")");
            assert(s@ =~= start + expr_text(*e));
        },
    }
}

/// The source text of an expression.
pub fn format_expr(expr: &Expr) -> (r: String)
    ensures
        r@ == expr_text(*expr),
{
    let mut s = String::new();
    push_expr(&mut s, expr);
    assert(s@ =~= expr_text(*expr));
    s
}

/// Appends the source text of a statement to `s`.
fn push_stmt(s: &mut String, stmt: &Stmt)
    ensures
        final(s)@ == old(s)@ + stmt_text(stmt@),
{
    let ghost start = s@;
    match stmt {
        Stmt::Print(items) => {
            s.append("PRINT ");
            let ghost iv = crate::ast::items_view(items@);
            let ghost mid = s@;
            let mut k: usize = 0;
            while k < items.len()
                invariant
                    k <= items.len(),
                    iv == crate::ast::items_view(items@),
                    s@ == mid + items_src(iv.take(k as int)),
                decreases items.len() - k,
            {
                assert(iv.take(k + 1).drop_last() =~= iv.take(k as int));
                assert(iv.take(k + 1).last() == items@[k as int]@);
                if k > 0 {
                    s.append(", ");
                } else {
                    assert(iv.take(k as int) =~= Seq::<ItemView>::empty());
                }
                match &items[k] {
                    PrintItem::String(text) => {
                        s.append("\"");
                        s.append(text.as_str());
                        s.append("\"");
                    },
                    PrintItem::Expr(e) => push_expr(s, e),
                }
                assert(s@ =~= mid + items_src(iv.take(k + 1)));
                k += 1;
            }
            assert(iv.take(k as int) =~= iv);
            if items.len() == 0 {
                s.append("\"\"");
            }
            assert(s@ =~= start + stmt_text(stmt@));
        },
        Stmt::Let(v, e) => {
            s.append("LET ");
            push_char(s, *v);
            s.append(" = ");
            push_expr(s, e);
            assert(s@ =~= start + stmt_text(stmt@));
        },
        Stmt::LetArray(v, i, e) => {
            s.append("LET ");
            push_char(s, *v);
            s.append("(");
            push_expr(s, i);
            s.append(") = ");
            push_expr(s, e);
            assert(s@ =~= start + stmt_text(stmt@));
        },
        Stmt::Goto(n) => {
            s.append("GOTO ");
            push_int(s, *n);
            assert(s@ =~= start + stmt_text(stmt@));
        },
        Stmt::If { condition, then_line } => {
            s.append("IF ");
            push_expr(s, condition);
            s.append(" THEN ");
            push_int(s, *then_line);
            assert(s@ =~= start + stmt_text(stmt@));
        },
        Stmt::End => {
            s.append("END");
        },
        Stmt::Dim(v, n) => {
            s.append("DIM ");
            push_char(s, *v);
            s.append("(");
            push_int(s, *n);
            s.append(")");
            assert(s@ =~= start + stmt_text(stmt@));
        },
    }
}

/// Appends the source text of a line to `s`.
fn push_line(s: &mut String, line: &Line)
    ensures
        final(s)@ == old(s)@ + line_text(line@),
{
    let ghost start = s@;
    push_int(s, line.number);
    s.append(" ");
    push_stmt(s, &line.stmt);
    assert(s@ =~= start + line_text(line@));
}

/// The source text of a line, as a listing shows it.
pub fn format_line(line: &Line) -> (r: String)
    ensures
        r@ == line_text(line@),
{
    let mut s = String::new();
    push_line(&mut s, line);
    assert(s@ =~= line_text(line@));
    s
}

/// Writes lines out as source text and parses that text again.
pub fn parse_program(lines: &[Line]) -> (r: Result<Vec<Line>, ParseError>)
    ensures
        program_outcome(r) == parse_text(program_text(lines_view(lines@))),
{
    let ghost lv = lines_view(lines@);
    let mut buf = String::new();
    let mut k: usize = 0;
    while k < lines.len()
        invariant
            k <= lines.len(),
            lv == lines_view(lines@),
            buf@ == program_text(lv.take(k as int)),
        decreases lines.len() - k,
    {
        assert(lv.take(k + 1).drop_last() =~= lv.take(k as int));
        assert(lv.take(k + 1).last() == lines@[k as int]@);
        push_line(&mut buf, &lines[k]);
        buf.append("\n");
        assert(buf@ =~= program_text(lv.take(k + 1)));
        k += 1;
    }
    assert(lv.take(k as int) =~= lv);
    parse(buf.as_str())
}

} // verus!
