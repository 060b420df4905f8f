//! The syntax tree of a query statement, and the recursive-descent parser
//! that builds it from tokens.

use vstd::prelude::*;
use vstd::utf8::*;
use vstd::string::StringSliceAdditionalSpecFns;
use crate::errors::{QueryErr, QueryErrV};
use crate::query::lexer::{Token, TokenV};

verus! {

broadcast use vstd::seq::group_seq_axioms;

/// A statement of the query language.
#[derive(Debug, PartialEq)]
pub enum Statement {
    Select(SelectStmt),
    Insert(InsertStmt),
    Create(CreateStmt),
    Update(UpdateStmt),
    Copy(CopyStmt),
}

#[derive(Debug, PartialEq)]
pub struct SelectStmt {
    pub table: TableRef,
    pub columns: Vec<ColumnRef>,
    pub where_clause: Option<Expr>,
}

#[derive(Debug, PartialEq)]
pub struct InsertStmt {
    pub table: TableRef,
    pub columns: Vec<ColumnRef>,
    pub values: Vec<Vec<Expr>>,
}

#[derive(Debug, PartialEq)]
pub struct CreateStmt {
    pub table: TableRef,
    pub columns: Vec<ColumnDef>,
}

#[derive(Debug, PartialEq)]
pub struct UpdateStmt {
    pub table: TableRef,
    pub assignments: Vec<Assignment>,
    pub where_clause: Option<Expr>,
}

#[derive(Debug, PartialEq)]
pub struct CopyStmt {
    pub table: TableRef,
    pub target: Target,
    pub format: Format,
    pub header: bool,
}

#[derive(Debug, PartialEq)]
pub enum Expr {
    Literal(Literal),
    ColumnRef(ColumnRef),
    BinaryExpr { left: Box<Expr>, operator: BOp, right: Box<Expr> },
    UnaryExpr { operator: UOp, expr: Box<Expr> },
}

#[derive(Debug, PartialEq)]
pub enum Literal {
    Str(String),
    Int(i64),
    Bool(bool),
    Null,
}

#[derive(Debug, PartialEq)]
pub enum TableRef {
    Table(String),
    Alias { alias: String, table: Box<TableRef> },
}

#[derive(Debug, PartialEq)]
pub enum ColumnRef {
    AllColumns,
    Column { table: Option<TableRef>, column: String },
    Alias { alias: String, column: Box<ColumnRef> },
}

/// A binary operator.
#[derive(Debug, PartialEq, Eq, Clone, Copy)]
pub enum BOp {
    Eq,
    NotEq,
    Lt,
    Gt,
    LtEq,
    GtEq,
    And,
    Or,
}

/// A unary operator.
#[derive(Debug, PartialEq, Eq, Clone, Copy)]
pub enum UOp {
    Not,
}

#[derive(Debug, PartialEq)]
pub struct Assignment {
    pub column: ColumnRef,
    pub val: Box<Expr>,
}

#[derive(Debug, PartialEq)]
pub enum Target {
    Stdin,
    Stdout,
    To(String),
    From(String),
}

/// A data format of `COPY`.
#[derive(Debug, PartialEq, Eq, Clone, Copy)]
pub enum Format {
    Csv,
}

#[derive(Debug, PartialEq)]
pub struct ColumnDef {
    pub name: String,
}

// The syntax tree with its text taken as characters.

pub enum LiteralV {
    Str(Seq<char>),
    Int(i64),
    Bool(bool),
    Null,
}

pub enum TableRefV {
    Table(Seq<char>),
    Alias { alias: Seq<char>, table: Box<TableRefV> },
}

pub enum ColumnRefV {
    AllColumns,
    Column { table: Option<TableRefV>, column: Seq<char> },
    Alias { alias: Seq<char>, column: Box<ColumnRefV> },
}

pub enum ExprV {
    Literal(LiteralV),
    ColumnRef(ColumnRefV),
    BinaryExpr { left: Box<ExprV>, operator: BOp, right: Box<ExprV> },
    UnaryExpr { operator: UOp, expr: Box<ExprV> },
}

pub struct AssignmentV {
    pub column: ColumnRefV,
    pub val: ExprV,
}

pub enum TargetV {
    Stdin,
    Stdout,
    To(Seq<char>),
    From(Seq<char>),
}

pub struct SelectV {
    pub table: TableRefV,
    pub columns: Seq<ColumnRefV>,
    pub where_clause: Option<ExprV>,
}

pub struct InsertV {
    pub table: TableRefV,
    pub columns: Seq<ColumnRefV>,
    pub values: Seq<Seq<ExprV>>,
}

pub struct CreateV {
    pub table: TableRefV,
    pub columns: Seq<Seq<char>>,
}

pub struct UpdateV {
    pub table: TableRefV,
    pub assignments: Seq<AssignmentV>,
    pub where_clause: Option<ExprV>,
}

pub struct CopyV {
    pub table: TableRefV,
    pub target: TargetV,
    pub format: Format,
    pub header: bool,
}

pub enum StatementV {
    Select(SelectV),
    Insert(InsertV),
    Create(CreateV),
    Update(UpdateV),
    Copy(CopyV),
}

pub open spec fn table_ref_view(t: TableRef) -> TableRefV
    decreases t,
{
    match t {
        TableRef::Table(s) => TableRefV::Table(s@),
        TableRef::Alias { alias, table } => TableRefV::Alias { alias: alias@, table: Box::new(table_ref_view(*table)) },
    }
}

pub open spec fn column_ref_view(c: ColumnRef) -> ColumnRefV
    decreases c,
{
    match c {
        ColumnRef::AllColumns => ColumnRefV::AllColumns,
        ColumnRef::Column { table, column } => ColumnRefV::Column {
            table: match table {
                Some(t) => Some(table_ref_view(t)),
                None => None,
            },
            column: column@,
        },
        ColumnRef::Alias { alias, column } => ColumnRefV::Alias { alias: alias@, column: Box::new(column_ref_view(*column)) },
    }
}

pub open spec fn literal_view(l: Literal) -> LiteralV {
    match l {
        Literal::Str(s) => LiteralV::Str(s@),
        Literal::Int(i) => LiteralV::Int(i),
        Literal::Bool(b) => LiteralV::Bool(b),
        Literal::Null => LiteralV::Null,
    }
}

pub open spec fn expr_view(e: Expr) -> ExprV
    decreases e,
{
    match e {
        Expr::Literal(l) => ExprV::Literal(literal_view(l)),
        Expr::ColumnRef(c) => ExprV::ColumnRef(column_ref_view(c)),
        Expr::BinaryExpr { left, operator, right } => ExprV::BinaryExpr {
            left: Box::new(expr_view(*left)),
            operator,
            right: Box::new(expr_view(*right)),
        },
        Expr::UnaryExpr { operator, expr } => ExprV::UnaryExpr { operator, expr: Box::new(expr_view(*expr)) },
    }
}

impl View for TableRef {
    type V = TableRefV;

    open spec fn view(&self) -> TableRefV {
        table_ref_view(*self)
    }
}

impl View for ColumnRef {
    type V = ColumnRefV;

    open spec fn view(&self) -> ColumnRefV {
        column_ref_view(*self)
    }
}

impl View for Expr {
    type V = ExprV;

    open spec fn view(&self) -> ExprV {
        expr_view(*self)
    }
}

impl View for Assignment {
    type V = AssignmentV;

    open spec fn view(&self) -> AssignmentV {
        AssignmentV { column: self.column@, val: (*self.val)@ }
    }
}

impl View for Target {
    type V = TargetV;

    open spec fn view(&self) -> TargetV {
        match self {
            Target::Stdin => TargetV::Stdin,
            Target::Stdout => TargetV::Stdout,
            Target::To(s) => TargetV::To(s@),
            Target::From(s) => TargetV::From(s@),
        }
    }
}

impl View for ColumnDef {
    type V = Seq<char>;

    open spec fn view(&self) -> Seq<char> {
        self.name@
    }
}

pub open spec fn option_expr_view(e: Option<Expr>) -> Option<ExprV> {
    match e {
        Some(x) => Some(x@),
        None => None,
    }
}

impl View for SelectStmt {
    type V = SelectV;

    open spec fn view(&self) -> SelectV {
        SelectV {
            table: self.table@,
            columns: self.columns@.map_values(|c: ColumnRef| c@),
            where_clause: option_expr_view(self.where_clause),
        }
    }
}

impl View for InsertStmt {
    type V = InsertV;

    open spec fn view(&self) -> InsertV {
        InsertV {
            table: self.table@,
            columns: self.columns@.map_values(|c: ColumnRef| c@),
            values: self.values@.map_values(|r: Vec<Expr>| r@.map_values(|e: Expr| e@)),
        }
    }
}

impl View for CreateStmt {
    type V = CreateV;

    open spec fn view(&self) -> CreateV {
        CreateV { table: self.table@, columns: self.columns@.map_values(|c: ColumnDef| c@) }
    }
}

impl View for UpdateStmt {
    type V = UpdateV;

    open spec fn view(&self) -> UpdateV {
        UpdateV {
            table: self.table@,
            assignments: self.assignments@.map_values(|a: Assignment| a@),
            where_clause: option_expr_view(self.where_clause),
        }
    }
}

impl View for CopyStmt {
    type V = CopyV;

    open spec fn view(&self) -> CopyV {
        CopyV { table: self.table@, target: self.target@, format: self.format, header: self.header }
    }
}

impl View for Statement {
    type V = StatementV;

    open spec fn view(&self) -> StatementV {
        match self {
            Statement::Select(s) => StatementV::Select(s@),
            Statement::Insert(s) => StatementV::Insert(s@),
            Statement::Create(s) => StatementV::Create(s@),
            Statement::Update(s) => StatementV::Update(s@),
            Statement::Copy(s) => StatementV::Copy(s@),
        }
    }
}


// The grammar, as parsing functions on the views of the tokens. Each takes
// the position to start at and gives the parsed value with the position after
// it, or the error that stops the parse. The guards `i < j < ts.len()` on
// positions that a sub-parse returns always hold: a parse that succeeds
// consumes a token and stops before the final `Eof`.

/// The text by which an error names a token that was expected.
pub open spec fn token_text(t: TokenV) -> Seq<char> {
    match t {
        TokenV::Select => "SELECT"@,
        TokenV::From => "FROM"@,
        TokenV::Where => "WHERE"@,
        TokenV::Insert => "INSERT"@,
        TokenV::Into => "INTO"@,
        TokenV::Values => "VALUES"@,
        TokenV::Create => "CREATE"@,
        TokenV::Table => "TABLE"@,
        TokenV::Copy => "COPY"@,
        TokenV::Stdin => "STDIN"@,
        TokenV::Stdout => "STDOUT"@,
        TokenV::Update => "UPDATE"@,
        TokenV::And => "AND"@,
        TokenV::Or => "OR"@,
        TokenV::Not => "NOT"@,
        TokenV::Null => "NULL"@,
        TokenV::As => "AS"@,
        TokenV::SetKw => "SET"@,
        TokenV::To => "TO"@,
        TokenV::With => "WITH"@,
        TokenV::Format => "FORMAT"@,
        TokenV::Header => "HEADER"@,
        TokenV::Eq => "="@,
        TokenV::NotEq => "!="@,
        TokenV::Lt => "<"@,
        TokenV::Gt => ">"@,
        TokenV::LtEq => "<="@,
        TokenV::GtEq => ">="@,
        TokenV::Comma => ","@,
        TokenV::Semicolon => ";"@,
        TokenV::LParen => "("@,
        TokenV::RParen => ")"@,
        TokenV::Dot => "."@,
        TokenV::Star => "*"@,
        TokenV::Eof => "end of input"@,
        _ => "token"@,
    }
}

pub open spec fn unexpected(found: TokenV, expected: Seq<char>) -> QueryErrV {
    QueryErrV::UnexpectedToken { found, expected }
}

/// The token at `i` must be `k`.
pub open spec fn s_expect(ts: Seq<TokenV>, i: int, k: TokenV) -> Result<int, QueryErrV> {
    if ts[i] == k { Ok(i + 1) } else { Err(unexpected(ts[i], token_text(k))) }
}

/// The comparison operator that a token stands for.
pub open spec fn binop(t: TokenV) -> Option<BOp> {
    match t {
        TokenV::Eq => Some(BOp::Eq),
        TokenV::NotEq => Some(BOp::NotEq),
        TokenV::Lt => Some(BOp::Lt),
        TokenV::Gt => Some(BOp::Gt),
        TokenV::LtEq => Some(BOp::LtEq),
        TokenV::GtEq => Some(BOp::GtEq),
        _ => None,
    }
}

pub open spec fn bin(l: ExprV, op: BOp, r: ExprV) -> ExprV {
    ExprV::BinaryExpr { left: Box::new(l), operator: op, right: Box::new(r) }
}

/// A literal, a column name, or an expression in parentheses.
pub open spec fn s_primary(ts: Seq<TokenV>, i: int) -> Result<(ExprV, int), QueryErrV>
    decreases ts.len() - i, 0int,
{
    if i < 0 || i >= ts.len() {
        Err(unexpected(TokenV::Eof, "literal, column reference, or '('"@))
    } else {
        match ts[i] {
            TokenV::IntLiteral(n) => Ok((ExprV::Literal(LiteralV::Int(n)), i + 1)),
            TokenV::StringLiteral(s) => Ok((ExprV::Literal(LiteralV::Str(s)), i + 1)),
            TokenV::BoolLiteral(b) => Ok((ExprV::Literal(LiteralV::Bool(b)), i + 1)),
            TokenV::Null => Ok((ExprV::Literal(LiteralV::Null), i + 1)),
            TokenV::Ident(n) => Ok((ExprV::ColumnRef(ColumnRefV::Column { table: None, column: n }), i + 1)),
            TokenV::LParen => match s_expr(ts, i + 1) {
                Ok((inner, j)) => match s_expect(ts, j, TokenV::RParen) {
                    Ok(k) => Ok((inner, k)),
                    Err(e) => Err(e),
                },
                Err(e) => Err(e),
            },
            other => Err(unexpected(other, "literal, column reference, or '('"@)),
        }
    }
}

/// A primary, or two primaries around a comparison operator.
pub open spec fn s_comparison(ts: Seq<TokenV>, i: int) -> Result<(ExprV, int), QueryErrV>
    decreases ts.len() - i, 1int,
{
    match s_primary(ts, i) {
        Err(e) => Err(e),
        Ok((left, j)) => match binop(ts[j]) {
            Some(op) => if i < j < ts.len() {
                match s_primary(ts, j + 1) {
                    Ok((right, k)) => Ok((bin(left, op, right), k)),
                    Err(e) => Err(e),
                }
            } else {
                Ok((left, j))
            },
            None => Ok((left, j)),
        },
    }
}

/// `NOT`s before a comparison.
pub open spec fn s_not(ts: Seq<TokenV>, i: int) -> Result<(ExprV, int), QueryErrV>
    decreases ts.len() - i, 2int,
{
    if 0 <= i < ts.len() && ts[i] == TokenV::Not {
        match s_not(ts, i + 1) {
            Ok((e, j)) => Ok((ExprV::UnaryExpr { operator: UOp::Not, expr: Box::new(e) }, j)),
            Err(e) => Err(e),
        }
    } else {
        s_comparison(ts, i)
    }
}

/// More `AND` operands after `left`, which ends at `j`; the operator groups to the left.
pub open spec fn s_conj_tail(ts: Seq<TokenV>, j: int, left: ExprV) -> Result<(ExprV, int), QueryErrV>
    decreases ts.len() - j, 4int,
{
    if 0 <= j < ts.len() && ts[j] == TokenV::And {
        match s_not(ts, j + 1) {
            Ok((right, k)) => if j < k < ts.len() {
                s_conj_tail(ts, k, bin(left, BOp::And, right))
            } else {
                Ok((bin(left, BOp::And, right), k))
            },
            Err(e) => Err(e),
        }
    } else {
        Ok((left, j))
    }
}

/// Operands joined by `AND`.
pub open spec fn s_conj(ts: Seq<TokenV>, i: int) -> Result<(ExprV, int), QueryErrV>
    decreases ts.len() - i, 3int,
{
    match s_not(ts, i) {
        Ok((left, j)) => if i < j < ts.len() { s_conj_tail(ts, j, left) } else { Ok((left, j)) },
        Err(e) => Err(e),
    }
}

/// More `OR` operands after `left`, which ends at `j`; the operator groups to the left.
pub open spec fn s_expr_tail(ts: Seq<TokenV>, j: int, left: ExprV) -> Result<(ExprV, int), QueryErrV>
    decreases ts.len() - j, 6int,
{
    if 0 <= j < ts.len() && ts[j] == TokenV::Or {
        match s_conj(ts, j + 1) {
            Ok((right, k)) => if j < k < ts.len() {
                s_expr_tail(ts, k, bin(left, BOp::Or, right))
            } else {
                Ok((bin(left, BOp::Or, right), k))
            },
            Err(e) => Err(e),
        }
    } else {
        Ok((left, j))
    }
}

/// An expression: operands joined by `OR`, `AND` binding tighter, `NOT`
/// tighter still, and comparisons tightest.
pub open spec fn s_expr(ts: Seq<TokenV>, i: int) -> Result<(ExprV, int), QueryErrV>
    decreases ts.len() - i, 5int,
{
    match s_conj(ts, i) {
        Ok((left, j)) => if i < j < ts.len() { s_expr_tail(ts, j, left) } else { Ok((left, j)) },
        Err(e) => Err(e),
    }
}

/// A table name, with an alias after `AS`.
pub open spec fn s_table_ref(ts: Seq<TokenV>, i: int) -> Result<(TableRefV, int), QueryErrV> {
    match ts[i] {
        TokenV::Ident(name) => if ts[i + 1] == TokenV::As {
            match ts[i + 2] {
                TokenV::Ident(a) => Ok((TableRefV::Alias { alias: a, table: Box::new(TableRefV::Table(name)) }, i + 3)),
                other => Err(unexpected(other, "ident<alias>"@)),
            }
        } else {
            Ok((TableRefV::Table(name), i + 1))
        },
        other => Err(unexpected(other, "identity<table>"@)),
    }
}

/// A column name, after a table name and a dot or not, with an alias after
/// `AS`; or `*`.
pub open spec fn s_column_ref(ts: Seq<TokenV>, i: int) -> Result<(ColumnRefV, int), QueryErrV> {
    if ts[i] == TokenV::Star {
        Ok((ColumnRefV::AllColumns, i + 1))
    } else {
        match ts[i] {
            TokenV::Ident(first) => {
                let named: Result<(ColumnRefV, int), QueryErrV> = if ts[i + 1] == TokenV::Dot {
                    match ts[i + 2] {
                        TokenV::Ident(c) => Ok((ColumnRefV::Column { table: Some(TableRefV::Table(first)), column: c }, i + 3)),
                        other => Err(unexpected(other, "column identifier"@)),
                    }
                } else {
                    Ok((ColumnRefV::Column { table: None, column: first }, i + 1))
                };
                match named {
                    Ok((column, j)) => if ts[j] == TokenV::As {
                        match ts[j + 1] {
                            TokenV::Ident(a) => Ok((ColumnRefV::Alias { alias: a, column: Box::new(column) }, j + 2)),
                            other => Err(unexpected(other, "an alias"@)),
                        }
                    } else {
                        Ok((column, j))
                    },
                    Err(e) => Err(e),
                }
            },
            other => Err(unexpected(other, "column name or *"@)),
        }
    }
}

/// More column references after a comma, appended to `acc`.
pub open spec fn s_columns_tail(ts: Seq<TokenV>, j: int, acc: Seq<ColumnRefV>) -> Result<(Seq<ColumnRefV>, int), QueryErrV>
    decreases ts.len() - j,
{
    if 0 <= j < ts.len() && ts[j] == TokenV::Comma {
        match s_column_ref(ts, j + 1) {
            Ok((c, k)) => if j < k < ts.len() { s_columns_tail(ts, k, acc.push(c)) } else { Ok((acc.push(c), k)) },
            Err(e) => Err(e),
        }
    } else {
        Ok((acc, j))
    }
}

/// Column references separated by commas.
pub open spec fn s_column_list(ts: Seq<TokenV>, i: int) -> Result<(Seq<ColumnRefV>, int), QueryErrV> {
    match s_column_ref(ts, i) {
        Ok((c, j)) => s_columns_tail(ts, j, seq![c]),
        Err(e) => Err(e),
    }
}

/// More expressions of a row after a comma, appended to `acc`.
pub open spec fn s_row_tail(ts: Seq<TokenV>, j: int, acc: Seq<ExprV>) -> Result<(Seq<ExprV>, int), QueryErrV>
    decreases ts.len() - j,
{
    if 0 <= j < ts.len() && ts[j] == TokenV::Comma {
        match s_expr(ts, j + 1) {
            Ok((e, k)) => if j < k < ts.len() { s_row_tail(ts, k, acc.push(e)) } else { Ok((acc.push(e), k)) },
            Err(e) => Err(e),
        }
    } else {
        Ok((acc, j))
    }
}

/// A parenthesized list of expressions.
pub open spec fn s_row(ts: Seq<TokenV>, i: int) -> Result<(Seq<ExprV>, int), QueryErrV> {
    match s_expect(ts, i, TokenV::LParen) {
        Ok(i1) => match s_expr(ts, i1) {
            Ok((e, j)) => match s_row_tail(ts, j, seq![e]) {
                Ok((row, k)) => match s_expect(ts, k, TokenV::RParen) {
                    Ok(m) => Ok((row, m)),
                    Err(err) => Err(err),
                },
                Err(err) => Err(err),
            },
            Err(err) => Err(err),
        },
        Err(err) => Err(err),
    }
}

/// More rows after a comma, appended to `acc`.
pub open spec fn s_values_tail(ts: Seq<TokenV>, j: int, acc: Seq<Seq<ExprV>>) -> Result<(Seq<Seq<ExprV>>, int), QueryErrV>
    decreases ts.len() - j,
{
    if 0 <= j < ts.len() && ts[j] == TokenV::Comma {
        match s_row(ts, j + 1) {
            Ok((r, k)) => if j < k < ts.len() { s_values_tail(ts, k, acc.push(r)) } else { Ok((acc.push(r), k)) },
            Err(e) => Err(e),
        }
    } else {
        Ok((acc, j))
    }
}

/// Rows separated by commas.
pub open spec fn s_values(ts: Seq<TokenV>, i: int) -> Result<(Seq<Seq<ExprV>>, int), QueryErrV> {
    match s_row(ts, i) {
        Ok((r, j)) => s_values_tail(ts, j, seq![r]),
        Err(e) => Err(e),
    }
}

/// A new column's name.
pub open spec fn s_column_def(ts: Seq<TokenV>, i: int) -> Result<(Seq<char>, int), QueryErrV> {
    match ts[i] {
        TokenV::Ident(n) => Ok((n, i + 1)),
        other => Err(unexpected(other, "new column identifier"@)),
    }
}

/// More new columns after a comma, appended to `acc`.
pub open spec fn s_defs_tail(ts: Seq<TokenV>, j: int, acc: Seq<Seq<char>>) -> Result<(Seq<Seq<char>>, int), QueryErrV>
    decreases ts.len() - j,
{
    if 0 <= j < ts.len() && ts[j] == TokenV::Comma {
        match s_column_def(ts, j + 1) {
            Ok((c, k)) => if j < k < ts.len() { s_defs_tail(ts, k, acc.push(c)) } else { Ok((acc.push(c), k)) },
            Err(e) => Err(e),
        }
    } else {
        Ok((acc, j))
    }
}

/// New column names separated by commas.
pub open spec fn s_column_list_def(ts: Seq<TokenV>, i: int) -> Result<(Seq<Seq<char>>, int), QueryErrV> {
    match s_column_def(ts, i) {
        Ok((c, j)) => s_defs_tail(ts, j, seq![c]),
        Err(e) => Err(e),
    }
}

/// A column reference, `=`, and an expression.
pub open spec fn s_assignment(ts: Seq<TokenV>, i: int) -> Result<(AssignmentV, int), QueryErrV> {
    match s_column_ref(ts, i) {
        Ok((c, j)) => match s_expect(ts, j, TokenV::Eq) {
            Ok(j1) => match s_expr(ts, j1) {
                Ok((e, k)) => Ok((AssignmentV { column: c, val: e }, k)),
                Err(err) => Err(err),
            },
            Err(err) => Err(err),
        },
        Err(err) => Err(err),
    }
}

/// More assignments after a comma, appended to `acc`.
pub open spec fn s_assign_tail(ts: Seq<TokenV>, j: int, acc: Seq<AssignmentV>) -> Result<(Seq<AssignmentV>, int), QueryErrV>
    decreases ts.len() - j,
{
    if 0 <= j < ts.len() && ts[j] == TokenV::Comma {
        match s_assignment(ts, j + 1) {
            Ok((a, k)) => if j < k < ts.len() { s_assign_tail(ts, k, acc.push(a)) } else { Ok((acc.push(a), k)) },
            Err(e) => Err(e),
        }
    } else {
        Ok((acc, j))
    }
}

/// Assignments separated by commas.
pub open spec fn s_assignments(ts: Seq<TokenV>, i: int) -> Result<(Seq<AssignmentV>, int), QueryErrV> {
    match s_assignment(ts, i) {
        Ok((a, j)) => s_assign_tail(ts, j, seq![a]),
        Err(e) => Err(e),
    }
}

/// The bytes of a format name, compared without regard to ASCII case, spell `csv`.
pub open spec fn is_csv(b: Seq<u8>) -> bool {
    &&& b.len() == 3
    &&& ascii_lower(b[0]) == 99
    &&& ascii_lower(b[1]) == 115
    &&& ascii_lower(b[2]) == 118
}

/// A byte with ASCII upper case letters turned to lower case.
pub open spec fn ascii_lower(b: u8) -> u8 {
    if 65 <= b <= 90 { (b + 32) as u8 } else { b }
}

/// `(FORMAT name [, HEADER bool])`: the format and whether there is a header line.
pub open spec fn s_with(ts: Seq<TokenV>, i: int) -> Result<((Format, bool), int), QueryErrV> {
    match s_expect(ts, i, TokenV::LParen) {
        Err(e) => Err(e),
        Ok(i1) => match s_expect(ts, i1, TokenV::Format) {
            Err(e) => Err(e),
            Ok(i2) => match ts[i2] {
                TokenV::Ident(name) => if !is_csv(encode_utf8(name)) {
                    Err(QueryErrV::UnknownFormat(name))
                } else {
                    let i3 = i2 + 1;
                    let header: Result<(bool, int), QueryErrV> = if ts[i3] == TokenV::Comma {
                        match s_expect(ts, i3 + 1, TokenV::Header) {
                            Err(e) => Err(e),
                            Ok(i4) => match ts[i4] {
                                TokenV::BoolLiteral(b) => Ok((b, i4 + 1)),
                                other => Err(unexpected(other, "bool"@)),
                            },
                        }
                    } else {
                        Ok((false, i3))
                    };
                    match header {
                        Err(e) => Err(e),
                        Ok((h, i5)) => match s_expect(ts, i5, TokenV::RParen) {
                            Ok(i6) => Ok(((Format::Csv, h), i6)),
                            Err(e) => Err(e),
                        },
                    }
                },
                other => Err(unexpected(other, "format identifier"@)),
            },
        },
    }
}

/// `WHERE` and an expression, if the token at `j` is `WHERE`.
pub open spec fn s_where(ts: Seq<TokenV>, j: int) -> Result<(Option<ExprV>, int), QueryErrV> {
    if ts[j] == TokenV::Where {
        match s_expr(ts, j + 1) {
            Ok((e, k)) => Ok((Some(e), k)),
            Err(err) => Err(err),
        }
    } else {
        Ok((None, j))
    }
}

/// `SELECT columns FROM table [WHERE expr]`.
pub open spec fn s_select(ts: Seq<TokenV>, i: int) -> Result<(SelectV, int), QueryErrV> {
    match s_expect(ts, i, TokenV::Select) {
        Err(e) => Err(e),
        Ok(i1) => match s_column_list(ts, i1) {
            Err(e) => Err(e),
            Ok((columns, i2)) => match s_expect(ts, i2, TokenV::From) {
                Err(e) => Err(e),
                Ok(i3) => match s_table_ref(ts, i3) {
                    Err(e) => Err(e),
                    Ok((table, i4)) => match s_where(ts, i4) {
                        Err(e) => Err(e),
                        Ok((where_clause, i5)) => Ok((SelectV { table, columns, where_clause }, i5)),
                    },
                },
            },
        },
    }
}

/// `INSERT INTO table columns VALUES rows`.
pub open spec fn s_insert(ts: Seq<TokenV>, i: int) -> Result<(InsertV, int), QueryErrV> {
    match s_expect(ts, i, TokenV::Insert) {
        Err(e) => Err(e),
        Ok(i1) => match s_expect(ts, i1, TokenV::Into) {
            Err(e) => Err(e),
            Ok(i2) => match s_table_ref(ts, i2) {
                Err(e) => Err(e),
                Ok((table, i3)) => match s_column_list(ts, i3) {
                    Err(e) => Err(e),
                    Ok((columns, i4)) => match s_expect(ts, i4, TokenV::Values) {
                        Err(e) => Err(e),
                        Ok(i5) => match s_values(ts, i5) {
                            Err(e) => Err(e),
                            Ok((values, i6)) => Ok((InsertV { table, columns, values }, i6)),
                        },
                    },
                },
            },
        },
    }
}

/// `CREATE TABLE table columns`.
pub open spec fn s_create(ts: Seq<TokenV>, i: int) -> Result<(CreateV, int), QueryErrV> {
    match s_expect(ts, i, TokenV::Create) {
        Err(e) => Err(e),
        Ok(i1) => match s_expect(ts, i1, TokenV::Table) {
            Err(e) => Err(e),
            Ok(i2) => match s_table_ref(ts, i2) {
                Err(e) => Err(e),
                Ok((table, i3)) => match s_column_list_def(ts, i3) {
                    Err(e) => Err(e),
                    Ok((columns, i4)) => Ok((CreateV { table, columns }, i4)),
                },
            },
        },
    }
}

/// `UPDATE table SET assignments [WHERE expr]`.
pub open spec fn s_update(ts: Seq<TokenV>, i: int) -> Result<(UpdateV, int), QueryErrV> {
    match s_expect(ts, i, TokenV::Update) {
        Err(e) => Err(e),
        Ok(i1) => match s_table_ref(ts, i1) {
            Err(e) => Err(e),
            Ok((table, i2)) => match s_expect(ts, i2, TokenV::SetKw) {
                Err(e) => Err(e),
                Ok(i3) => match s_assignments(ts, i3) {
                    Err(e) => Err(e),
                    Ok((assignments, i4)) => match s_where(ts, i4) {
                        Err(e) => Err(e),
                        Ok((where_clause, i5)) => Ok((UpdateV { table, assignments, where_clause }, i5)),
                    },
                },
            },
        },
    }
}

/// Where `COPY` moves rows: `TO STDOUT` or a path, `FROM STDIN` or a path.
pub open spec fn s_target(ts: Seq<TokenV>, j: int) -> Result<(TargetV, int), QueryErrV> {
    match ts[j] {
        TokenV::To => match ts[j + 1] {
            TokenV::Stdout => Ok((TargetV::Stdout, j + 2)),
            TokenV::StringLiteral(p) => Ok((TargetV::To(p), j + 2)),
            other => Err(unexpected(other, "STDOUT or string<path>"@)),
        },
        TokenV::From => match ts[j + 1] {
            TokenV::Stdin => Ok((TargetV::Stdin, j + 2)),
            TokenV::StringLiteral(p) => Ok((TargetV::From(p), j + 2)),
            other => Err(unexpected(other, "STDIN or string<path>"@)),
        },
        other => Err(unexpected(other, "TO or FROM"@)),
    }
}

/// `COPY table target WITH (options)`.
pub open spec fn s_copy(ts: Seq<TokenV>, i: int) -> Result<(CopyV, int), QueryErrV> {
    match s_expect(ts, i, TokenV::Copy) {
        Err(e) => Err(e),
        Ok(i1) => match s_table_ref(ts, i1) {
            Err(e) => Err(e),
            Ok((table, i2)) => match s_target(ts, i2) {
                Err(e) => Err(e),
                Ok((target, i3)) => match s_expect(ts, i3, TokenV::With) {
                    Err(e) => Err(e),
                    Ok(i4) => match s_with(ts, i4) {
                        Err(e) => Err(e),
                        Ok(((format, header), i5)) => Ok((CopyV { table, target, format, header }, i5)),
                    },
                },
            },
        },
    }
}

/// A statement, chosen by its first token.
pub open spec fn s_statement(ts: Seq<TokenV>, i: int) -> Result<(StatementV, int), QueryErrV> {
    match ts[i] {
        TokenV::Select => match s_select(ts, i) {
            Ok((s, j)) => Ok((StatementV::Select(s), j)),
            Err(e) => Err(e),
        },
        TokenV::Insert => match s_insert(ts, i) {
            Ok((s, j)) => Ok((StatementV::Insert(s), j)),
            Err(e) => Err(e),
        },
        TokenV::Create => match s_create(ts, i) {
            Ok((s, j)) => Ok((StatementV::Create(s), j)),
            Err(e) => Err(e),
        },
        TokenV::Update => match s_update(ts, i) {
            Ok((s, j)) => Ok((StatementV::Update(s), j)),
            Err(e) => Err(e),
        },
        TokenV::Copy => match s_copy(ts, i) {
            Ok((s, j)) => Ok((StatementV::Copy(s), j)),
            Err(e) => Err(e),
        },
        other => Err(unexpected(other, "command token"@)),
    }
}

/// A statement followed by `;`.
pub open spec fn s_make_ast(ts: Seq<TokenV>) -> Result<StatementV, QueryErrV> {
    match s_statement(ts, 0) {
        Ok((st, j)) => match s_expect(ts, j, TokenV::Semicolon) {
            Ok(_) => Ok(st),
            Err(e) => Err(e),
        },
        Err(e) => Err(e),
    }
}


/// The position of a token kind among all kinds.
pub open spec fn kind(t: TokenV) -> u8 {
    match t {
        TokenV::Select => 0,
        TokenV::From => 1,
        TokenV::Where => 2,
        TokenV::Insert => 3,
        TokenV::Into => 4,
        TokenV::Values => 5,
        TokenV::Create => 6,
        TokenV::Table => 7,
        TokenV::Copy => 8,
        TokenV::Stdin => 9,
        TokenV::Stdout => 10,
        TokenV::Update => 11,
        TokenV::And => 12,
        TokenV::Or => 13,
        TokenV::Not => 14,
        TokenV::Null => 15,
        TokenV::As => 16,
        TokenV::SetKw => 17,
        TokenV::To => 18,
        TokenV::With => 19,
        TokenV::Format => 20,
        TokenV::Header => 21,
        TokenV::Ident(_) => 22,
        TokenV::IntLiteral(_) => 23,
        TokenV::StringLiteral(_) => 24,
        TokenV::BoolLiteral(_) => 25,
        TokenV::Eq => 26,
        TokenV::NotEq => 27,
        TokenV::Lt => 28,
        TokenV::Gt => 29,
        TokenV::LtEq => 30,
        TokenV::GtEq => 31,
        TokenV::Comma => 32,
        TokenV::Semicolon => 33,
        TokenV::LParen => 34,
        TokenV::RParen => 35,
        TokenV::Dot => 36,
        TokenV::Star => 37,
        TokenV::Eof => 38,
    }
}

/// A token that carries no text or number.
pub open spec fn is_unit(t: TokenV) -> bool {
    !(t is Ident || t is IntLiteral || t is StringLiteral || t is BoolLiteral)
}

/// The kind of a token.
pub fn token_kind(t: &Token) -> (r: u8)
    ensures
        r == kind(t@),
{
    match t {
        Token::Select => 0,
        Token::From => 1,
        Token::Where => 2,
        Token::Insert => 3,
        Token::Into => 4,
        Token::Values => 5,
        Token::Create => 6,
        Token::Table => 7,
        Token::Copy => 8,
        Token::Stdin => 9,
        Token::Stdout => 10,
        Token::Update => 11,
        Token::And => 12,
        Token::Or => 13,
        Token::Not => 14,
        Token::Null => 15,
        Token::As => 16,
        Token::SetKw => 17,
        Token::To => 18,
        Token::With => 19,
        Token::Format => 20,
        Token::Header => 21,
        Token::Ident(_) => 22,
        Token::IntLiteral(_) => 23,
        Token::StringLiteral(_) => 24,
        Token::BoolLiteral(_) => 25,
        Token::Eq => 26,
        Token::NotEq => 27,
        Token::Lt => 28,
        Token::Gt => 29,
        Token::LtEq => 30,
        Token::GtEq => 31,
        Token::Comma => 32,
        Token::Semicolon => 33,
        Token::LParen => 34,
        Token::RParen => 35,
        Token::Dot => 36,
        Token::Star => 37,
        Token::Eof => 38,
    }
}

/// Whether `t` is the token `k`, which carries nothing.
pub fn is_token(t: &Token, k: &Token) -> (r: bool)
    requires
        is_unit(k@),
    ensures
        r == (t@ == k@),
{
    token_kind(t) == token_kind(k)
}

/// A copy of a token.
pub fn copy_token(t: &Token) -> (r: Token)
    ensures
        r@ == t@,
{
    match t {
        Token::Ident(s) => Token::Ident(s.clone()),
        Token::IntLiteral(i) => Token::IntLiteral(*i),
        Token::StringLiteral(s) => Token::StringLiteral(s.clone()),
        Token::BoolLiteral(b) => Token::BoolLiteral(*b),
        Token::Select => Token::Select,
        Token::From => Token::From,
        Token::Where => Token::Where,
        Token::Insert => Token::Insert,
        Token::Into => Token::Into,
        Token::Values => Token::Values,
        Token::Create => Token::Create,
        Token::Table => Token::Table,
        Token::Copy => Token::Copy,
        Token::Stdin => Token::Stdin,
        Token::Stdout => Token::Stdout,
        Token::Update => Token::Update,
        Token::And => Token::And,
        Token::Or => Token::Or,
        Token::Not => Token::Not,
        Token::Null => Token::Null,
        Token::As => Token::As,
        Token::SetKw => Token::SetKw,
        Token::To => Token::To,
        Token::With => Token::With,
        Token::Format => Token::Format,
        Token::Header => Token::Header,
        Token::Eq => Token::Eq,
        Token::NotEq => Token::NotEq,
        Token::Lt => Token::Lt,
        Token::Gt => Token::Gt,
        Token::LtEq => Token::LtEq,
        Token::GtEq => Token::GtEq,
        Token::Comma => Token::Comma,
        Token::Semicolon => Token::Semicolon,
        Token::LParen => Token::LParen,
        Token::RParen => Token::RParen,
        Token::Dot => Token::Dot,
        Token::Star => Token::Star,
        Token::Eof => Token::Eof,
    }
}

/// The text by which an error names an expected token.
pub fn token_name(t: &Token) -> (r: String)
    ensures
        r@ == token_text(t@),
{
    match t {
        Token::Select => "SELECT".to_owned(),
        Token::From => "FROM".to_owned(),
        Token::Where => "WHERE".to_owned(),
        Token::Insert => "INSERT".to_owned(),
        Token::Into => "INTO".to_owned(),
        Token::Values => "VALUES".to_owned(),
        Token::Create => "CREATE".to_owned(),
        Token::Table => "TABLE".to_owned(),
        Token::Copy => "COPY".to_owned(),
        Token::Stdin => "STDIN".to_owned(),
        Token::Stdout => "STDOUT".to_owned(),
        Token::Update => "UPDATE".to_owned(),
        Token::And => "AND".to_owned(),
        Token::Or => "OR".to_owned(),
        Token::Not => "NOT".to_owned(),
        Token::Null => "NULL".to_owned(),
        Token::As => "AS".to_owned(),
        Token::SetKw => "SET".to_owned(),
        Token::To => "TO".to_owned(),
        Token::With => "WITH".to_owned(),
        Token::Format => "FORMAT".to_owned(),
        Token::Header => "HEADER".to_owned(),
        Token::Eq => "=".to_owned(),
        Token::NotEq => "!=".to_owned(),
        Token::Lt => "<".to_owned(),
        Token::Gt => ">".to_owned(),
        Token::LtEq => "<=".to_owned(),
        Token::GtEq => ">=".to_owned(),
        Token::Comma => ",".to_owned(),
        Token::Semicolon => ";".to_owned(),
        Token::LParen => "(".to_owned(),
        Token::RParen => ")".to_owned(),
        Token::Dot => ".".to_owned(),
        Token::Star => "*".to_owned(),
        Token::Eof => "end of input".to_owned(),
        _ => "token".to_owned(),
    }
}

/// Whether a format name is `csv`, in any ASCII case.
pub fn is_csv_name(s: &String) -> (r: bool)
    ensures
        r == is_csv(encode_utf8(s@)),
{
    let b = s.as_str().as_bytes();
    if b.len() != 3 {
        return false;
    }
    let c0 = if 65 <= b[0] && b[0] <= 90 { b[0] + 32 } else { b[0] };
    let c1 = if 65 <= b[1] && b[1] <= 90 { b[1] + 32 } else { b[1] };
    let c2 = if 65 <= b[2] && b[2] <= 90 { b[2] + 32 } else { b[2] };
    c0 == 99 && c1 == 115 && c2 == 118
}

/// The state of a parse: the tokens, and the position of the next one.
pub struct Parser<'a> {
    pub tokens: &'a [Token],
    pub pos: usize,
}

/// The views of tokens.
pub open spec fn views(ts: Seq<Token>) -> Seq<TokenV> {
    ts.map_values(|t: Token| t@)
}

impl<'a> Parser<'a> {
    /// The tokens, as views.
    pub open spec fn toks(&self) -> Seq<TokenV> {
        views(self.tokens@)
    }

    /// The parser stands at a token, and the tokens end with `Eof`.
    pub open spec fn ok(&self) -> bool {
        &&& self.pos < self.tokens@.len()
        &&& self.toks().last() == TokenV::Eof
    }

    /// A parser at the first of `tokens`.
    pub fn new(tokens: &'a [Token]) -> (r: Self)
        ensures
            r.tokens@ == tokens@,
            r.pos == 0,
    {
        Parser { tokens, pos: 0 }
    }

    /// The token at the current position.
    pub fn peek(&self) -> (r: &Token)
        requires
            self.pos < self.tokens@.len(),
        ensures
            r@ == self.toks()[self.pos as int],
    {
        &self.tokens[self.pos]
    }

    /// Takes the token at the current position and moves past it.
    pub fn advance(&mut self) -> (r: Token)
        requires
            old(self).pos < old(self).tokens@.len(),
        ensures
            final(self).tokens@ == old(self).tokens@,
            final(self).pos == old(self).pos + 1,
            r@ == old(self).toks()[old(self).pos as int],
            old(self).ok() && r@ != TokenV::Eof ==> final(self).ok(),
    {
        let t = copy_token(&self.tokens[self.pos]);
        self.pos = self.pos + 1;
        t
    }

    /// Moves past the token at the current position if it is `expected`.
    pub fn expect(&mut self, expected: &Token) -> (r: Result<(), QueryErr>)
        requires
            old(self).ok(),
            is_unit(expected@),
            expected@ != TokenV::Eof,
        ensures
            final(self).tokens@ == old(self).tokens@,
            match s_expect(old(self).toks(), old(self).pos as int, expected@) {
                Ok(j) => r is Ok && final(self).pos == j && final(self).ok(),
                Err(e) => r matches Err(x) && x@ == e,
            },
    {
        if is_token(self.peek(), expected) {
            assert(self.pos < self.tokens.len());
            self.pos = self.pos + 1;
            Ok(())
        } else {
            Err(QueryErr::UnexpectedToken { found: copy_token(self.peek()), expected: token_name(expected) })
        }
    }

    /// The comparison operator at the current position, if any.
    pub fn peek_binop(&self) -> (r: Option<BOp>)
        requires
            self.pos < self.tokens@.len(),
        ensures
            r == binop(self.toks()[self.pos as int]),
    {
        match self.peek() {
            Token::Eq => Some(BOp::Eq),
            Token::NotEq => Some(BOp::NotEq),
            Token::Lt => Some(BOp::Lt),
            Token::Gt => Some(BOp::Gt),
            Token::LtEq => Some(BOp::LtEq),
            Token::GtEq => Some(BOp::GtEq),
            _ => None,
        }
    }

    pub fn parse_primary(&mut self) -> (r: Result<Expr, QueryErr>)
        requires
            old(self).ok(),
        ensures
            final(self).tokens@ == old(self).tokens@,
            match s_primary(old(self).toks(), old(self).pos as int) {
                Ok((e, j)) => r matches Ok(x) && x@ == e && final(self).pos == j && old(self).pos < j && final(self).ok(),
                Err(err) => r matches Err(x) && x@ == err,
            },
        decreases old(self).tokens@.len() - old(self).pos, 0int,
    {
        let t = self.advance();
        match t {
            Token::IntLiteral(i) => Ok(Expr::Literal(Literal::Int(i))),
            Token::StringLiteral(s) => Ok(Expr::Literal(Literal::Str(s))),
            Token::BoolLiteral(b) => Ok(Expr::Literal(Literal::Bool(b))),
            Token::Null => Ok(Expr::Literal(Literal::Null)),
            Token::Ident(n) => Ok(Expr::ColumnRef(ColumnRef::Column { table: None, column: n })),
            Token::LParen => {
                let inner = match self.parse_expr() {
                    Ok(e) => e,
                    Err(e) => return Err(e),
                };
                match self.expect(&Token::RParen) {
                    Ok(()) => Ok(inner),
                    Err(e) => Err(e),
                }
            },
            other => Err(QueryErr::UnexpectedToken { found: other, expected: "literal, column reference, or '('".to_owned() }),
        }
    }

    pub fn parse_comparison(&mut self) -> (r: Result<Expr, QueryErr>)
        requires
            old(self).ok(),
        ensures
            final(self).tokens@ == old(self).tokens@,
            match s_comparison(old(self).toks(), old(self).pos as int) {
                Ok((e, j)) => r matches Ok(x) && x@ == e && final(self).pos == j && old(self).pos < j && final(self).ok(),
                Err(err) => r matches Err(x) && x@ == err,
            },
        decreases old(self).tokens@.len() - old(self).pos, 1int,
    {
        let left = match self.parse_primary() {
            Ok(e) => e,
            Err(e) => return Err(e),
        };
        if let Some(op) = self.peek_binop() {
            self.advance();
            let right = match self.parse_primary() {
                Ok(e) => e,
                Err(e) => return Err(e),
            };
            return Ok(Expr::BinaryExpr { left: Box::new(left), operator: op, right: Box::new(right) });
        }
        Ok(left)
    }

    pub fn parse_not(&mut self) -> (r: Result<Expr, QueryErr>)
        requires
            old(self).ok(),
        ensures
            final(self).tokens@ == old(self).tokens@,
            match s_not(old(self).toks(), old(self).pos as int) {
                Ok((e, j)) => r matches Ok(x) && x@ == e && final(self).pos == j && old(self).pos < j && final(self).ok(),
                Err(err) => r matches Err(x) && x@ == err,
            },
        decreases old(self).tokens@.len() - old(self).pos, 2int,
    {
        if is_token(self.peek(), &Token::Not) {
            self.advance();
            let expr = match self.parse_not() {
                Ok(e) => e,
                Err(e) => return Err(e),
            };
            return Ok(Expr::UnaryExpr { operator: UOp::Not, expr: Box::new(expr) });
        }
        self.parse_comparison()
    }

    pub fn parse_conjunction(&mut self) -> (r: Result<Expr, QueryErr>)
        requires
            old(self).ok(),
        ensures
            final(self).tokens@ == old(self).tokens@,
            match s_conj(old(self).toks(), old(self).pos as int) {
                Ok((e, j)) => r matches Ok(x) && x@ == e && final(self).pos == j && old(self).pos < j && final(self).ok(),
                Err(err) => r matches Err(x) && x@ == err,
            },
        decreases old(self).tokens@.len() - old(self).pos, 3int,
    {
        let ghost ts = self.toks();
        let ghost toks0 = self.tokens@;
        let ghost start = self.pos as int;
        let mut left = match self.parse_not() {
            Ok(e) => e,
            Err(e) => return Err(e),
        };
        while is_token(self.peek(), &Token::And)
            invariant
                self.ok(),
                self.tokens@ == toks0,
                toks0 == old(self).tokens@,
                start == old(self).pos,
                ts == views(toks0),
                start < self.pos,
                s_conj(ts, start) == s_conj_tail(ts, self.pos as int, left@),
            decreases self.tokens@.len() - self.pos,
        {
            self.advance();
            let right = match self.parse_not() {
                Ok(e) => e,
                Err(e) => return Err(e),
            };
            left = Expr::BinaryExpr { left: Box::new(left), operator: BOp::And, right: Box::new(right) };
        }
        Ok(left)
    }

    pub fn parse_expr(&mut self) -> (r: Result<Expr, QueryErr>)
        requires
            old(self).ok(),
        ensures
            final(self).tokens@ == old(self).tokens@,
            match s_expr(old(self).toks(), old(self).pos as int) {
                Ok((e, j)) => r matches Ok(x) && x@ == e && final(self).pos == j && old(self).pos < j && final(self).ok(),
                Err(err) => r matches Err(x) && x@ == err,
            },
        decreases old(self).tokens@.len() - old(self).pos, 5int,
    {
        let ghost ts = self.toks();
        let ghost toks0 = self.tokens@;
        let ghost start = self.pos as int;
        let mut left = match self.parse_conjunction() {
            Ok(e) => e,
            Err(e) => return Err(e),
        };
        while is_token(self.peek(), &Token::Or)
            invariant
                self.ok(),
                self.tokens@ == toks0,
                toks0 == old(self).tokens@,
                start == old(self).pos,
                ts == views(toks0),
                start < self.pos,
                s_expr(ts, start) == s_expr_tail(ts, self.pos as int, left@),
            decreases self.tokens@.len() - self.pos,
        {
            self.advance();
            let right = match self.parse_conjunction() {
                Ok(e) => e,
                Err(e) => return Err(e),
            };
            left = Expr::BinaryExpr { left: Box::new(left), operator: BOp::Or, right: Box::new(right) };
        }
        Ok(left)
    }
}


/// The views of column references.
pub open spec fn col_views(v: Seq<ColumnRef>) -> Seq<ColumnRefV> {
    v.map_values(|c: ColumnRef| c@)
}

/// The views of expressions.
pub open spec fn expr_views(v: Seq<Expr>) -> Seq<ExprV> {
    v.map_values(|e: Expr| e@)
}

/// The views of rows of expressions.
pub open spec fn row_views(v: Seq<Vec<Expr>>) -> Seq<Seq<ExprV>> {
    v.map_values(|r: Vec<Expr>| r@.map_values(|e: Expr| e@))
}

/// The views of new columns.
pub open spec fn def_views(v: Seq<ColumnDef>) -> Seq<Seq<char>> {
    v.map_values(|c: ColumnDef| c@)
}

/// The views of assignments.
pub open spec fn assign_views(v: Seq<Assignment>) -> Seq<AssignmentV> {
    v.map_values(|a: Assignment| a@)
}

impl<'a> Parser<'a> {
    pub fn parse_table_ref(&mut self) -> (r: Result<TableRef, QueryErr>)
        requires
            old(self).ok(),
        ensures
            final(self).tokens@ == old(self).tokens@,
            match s_table_ref(old(self).toks(), old(self).pos as int) {
                Ok((e, j)) => r matches Ok(x) && x@ == e && final(self).pos == j && old(self).pos < j && final(self).ok(),
                Err(err) => r matches Err(x) && x@ == err,
            },
    {
        match self.advance() {
            Token::Ident(ident) => {
                if is_token(self.peek(), &Token::As) {
                    self.advance();
                    let table = Box::new(TableRef::Table(ident));
                    let alias = match self.advance() {
                        Token::Ident(a) => a,
                        other => return Err(QueryErr::UnexpectedToken { found: other, expected: "ident<alias>".to_owned() }),
                    };
                    proof {
                        assert(table_ref_view(*table) == TableRefV::Table(ident@));
                    }
                    Ok(TableRef::Alias { alias, table })
                } else {
                    Ok(TableRef::Table(ident))
                }
            },
            other => Err(QueryErr::UnexpectedToken { found: other, expected: "identity<table>".to_owned() }),
        }
    }

    pub fn parse_column_ref(&mut self) -> (r: Result<ColumnRef, QueryErr>)
        requires
            old(self).ok(),
        ensures
            final(self).tokens@ == old(self).tokens@,
            match s_column_ref(old(self).toks(), old(self).pos as int) {
                Ok((e, j)) => r matches Ok(x) && x@ == e && final(self).pos == j && old(self).pos < j && final(self).ok(),
                Err(err) => r matches Err(x) && x@ == err,
            },
    {
        if is_token(self.peek(), &Token::Star) {
            self.advance();
            return Ok(ColumnRef::AllColumns);
        }
        let first = match self.advance() {
            Token::Ident(name) => name,
            other => return Err(QueryErr::UnexpectedToken { found: other, expected: "column name or *".to_owned() }),
        };
        let column = if is_token(self.peek(), &Token::Dot) {
            self.advance();
            let col_name = match self.advance() {
                Token::Ident(i) => i,
                other => return Err(QueryErr::UnexpectedToken { found: other, expected: "column identifier".to_owned() }),
            };
            proof {
                assert(table_ref_view(TableRef::Table(first)) == TableRefV::Table(first@));
            }
            ColumnRef::Column { table: Some(TableRef::Table(first)), column: col_name }
        } else {
            ColumnRef::Column { table: None, column: first }
        };
        if is_token(self.peek(), &Token::As) {
            self.advance();
            let alias = match self.advance() {
                Token::Ident(i) => i,
                other => return Err(QueryErr::UnexpectedToken { found: other, expected: "an alias".to_owned() }),
            };
            let boxed = Box::new(column);
            proof {
                assert(column_ref_view(*boxed) == column@);
            }
            Ok(ColumnRef::Alias { alias, column: boxed })
        } else {
            Ok(column)
        }
    }

    pub fn parse_column_list(&mut self) -> (r: Result<Vec<ColumnRef>, QueryErr>)
        requires
            old(self).ok(),
        ensures
            final(self).tokens@ == old(self).tokens@,
            match s_column_list(old(self).toks(), old(self).pos as int) {
                Ok((e, j)) => r matches Ok(x) && col_views(x@) == e && final(self).pos == j && old(self).pos < j && final(self).ok(),
                Err(err) => r matches Err(x) && x@ == err,
            },
    {
        let ghost ts = self.toks();
        let ghost toks0 = self.tokens@;
        let ghost start = self.pos as int;
        let first = match self.parse_column_ref() {
            Ok(c) => c,
            Err(e) => return Err(e),
        };
        let mut columns = Vec::new();
        columns.push(first);
        proof {
            assert(col_views(columns@) =~= seq![first@]);
        }
        while is_token(self.peek(), &Token::Comma)
            invariant
                self.ok(),
                self.tokens@ == toks0,
                toks0 == old(self).tokens@,
                start == old(self).pos,
                ts == views(toks0),
                start < self.pos,
                s_column_list(ts, start) == s_columns_tail(ts, self.pos as int, col_views(columns@)),
            decreases self.tokens@.len() - self.pos,
        {
            self.advance();
            let c = match self.parse_column_ref() {
                Ok(c) => c,
                Err(e) => return Err(e),
            };
            let ghost before = columns@;
            columns.push(c);
            proof {
                assert(col_views(columns@) =~= col_views(before).push(c@));
            }
        }
        Ok(columns)
    }

    pub fn parse_row(&mut self) -> (r: Result<Vec<Expr>, QueryErr>)
        requires
            old(self).ok(),
        ensures
            final(self).tokens@ == old(self).tokens@,
            match s_row(old(self).toks(), old(self).pos as int) {
                Ok((e, j)) => r matches Ok(x) && expr_views(x@) == e && final(self).pos == j && old(self).pos < j && final(self).ok(),
                Err(err) => r matches Err(x) && x@ == err,
            },
    {
        let ghost ts = self.toks();
        let ghost toks0 = self.tokens@;
        let ghost start = self.pos as int;
        match self.expect(&Token::LParen) {
            Ok(()) => {},
            Err(e) => return Err(e),
        }
        let first = match self.parse_expr() {
            Ok(e) => e,
            Err(e) => return Err(e),
        };
        let mut row = Vec::new();
        row.push(first);
        proof {
            assert(expr_views(row@) =~= seq![first@]);
        }
        while is_token(self.peek(), &Token::Comma)
            invariant
                self.ok(),
                self.tokens@ == toks0,
                toks0 == old(self).tokens@,
                start == old(self).pos,
                ts == views(toks0),
                start < self.pos,
                s_row(ts, start) == (match s_row_tail(ts, self.pos as int, expr_views(row@)) {
                    Ok((rr, k)) => match s_expect(ts, k, TokenV::RParen) {
                        Ok(m) => Ok((rr, m)),
                        Err(err) => Err(err),
                    },
                    Err(err) => Err(err),
                }),
            decreases self.tokens@.len() - self.pos,
        {
            self.advance();
            let e = match self.parse_expr() {
                Ok(e) => e,
                Err(e) => return Err(e),
            };
            let ghost before = row@;
            row.push(e);
            proof {
                assert(expr_views(row@) =~= expr_views(before).push(e@));
            }
        }
        match self.expect(&Token::RParen) {
            Ok(()) => Ok(row),
            Err(e) => Err(e),
        }
    }

    pub fn parse_values(&mut self) -> (r: Result<Vec<Vec<Expr>>, QueryErr>)
        requires
            old(self).ok(),
        ensures
            final(self).tokens@ == old(self).tokens@,
            match s_values(old(self).toks(), old(self).pos as int) {
                Ok((e, j)) => r matches Ok(x) && row_views(x@) == e && final(self).pos == j && old(self).pos < j && final(self).ok(),
                Err(err) => r matches Err(x) && x@ == err,
            },
    {
        let ghost ts = self.toks();
        let ghost toks0 = self.tokens@;
        let ghost start = self.pos as int;
        let first = match self.parse_row() {
            Ok(r) => r,
            Err(e) => return Err(e),
        };
        let mut rows = Vec::new();
        rows.push(first);
        proof {
            assert(row_views(rows@) =~= seq![expr_views(first@)]);
        }
        while is_token(self.peek(), &Token::Comma)
            invariant
                self.ok(),
                self.tokens@ == toks0,
                toks0 == old(self).tokens@,
                start == old(self).pos,
                ts == views(toks0),
                start < self.pos,
                s_values(ts, start) == s_values_tail(ts, self.pos as int, row_views(rows@)),
            decreases self.tokens@.len() - self.pos,
        {
            self.advance();
            let r = match self.parse_row() {
                Ok(r) => r,
                Err(e) => return Err(e),
            };
            let ghost before = rows@;
            rows.push(r);
            proof {
                assert(row_views(rows@) =~= row_views(before).push(expr_views(r@)));
            }
        }
        Ok(rows)
    }

    pub fn parse_column_def(&mut self) -> (r: Result<ColumnDef, QueryErr>)
        requires
            old(self).ok(),
        ensures
            final(self).tokens@ == old(self).tokens@,
            match s_column_def(old(self).toks(), old(self).pos as int) {
                Ok((e, j)) => r matches Ok(x) && x@ == e && final(self).pos == j && old(self).pos < j && final(self).ok(),
                Err(err) => r matches Err(x) && x@ == err,
            },
    {
        match self.advance() {
            Token::Ident(i) => Ok(ColumnDef { name: i }),
            other => Err(QueryErr::UnexpectedToken { found: other, expected: "new column identifier".to_owned() }),
        }
    }

    pub fn parse_column_list_def(&mut self) -> (r: Result<Vec<ColumnDef>, QueryErr>)
        requires
            old(self).ok(),
        ensures
            final(self).tokens@ == old(self).tokens@,
            match s_column_list_def(old(self).toks(), old(self).pos as int) {
                Ok((e, j)) => r matches Ok(x) && def_views(x@) == e && final(self).pos == j && old(self).pos < j && final(self).ok(),
                Err(err) => r matches Err(x) && x@ == err,
            },
    {
        let ghost ts = self.toks();
        let ghost toks0 = self.tokens@;
        let ghost start = self.pos as int;
        let first = match self.parse_column_def() {
            Ok(c) => c,
            Err(e) => return Err(e),
        };
        let mut columns = Vec::new();
        columns.push(first);
        proof {
            assert(def_views(columns@) =~= seq![first@]);
        }
        while is_token(self.peek(), &Token::Comma)
            invariant
                self.ok(),
                self.tokens@ == toks0,
                toks0 == old(self).tokens@,
                start == old(self).pos,
                ts == views(toks0),
                start < self.pos,
                s_column_list_def(ts, start) == s_defs_tail(ts, self.pos as int, def_views(columns@)),
            decreases self.tokens@.len() - self.pos,
        {
            self.advance();
            let c = match self.parse_column_def() {
                Ok(c) => c,
                Err(e) => return Err(e),
            };
            let ghost before = columns@;
            columns.push(c);
            proof {
                assert(def_views(columns@) =~= def_views(before).push(c@));
            }
        }
        Ok(columns)
    }

    pub fn parse_assignment(&mut self) -> (r: Result<Assignment, QueryErr>)
        requires
            old(self).ok(),
        ensures
            final(self).tokens@ == old(self).tokens@,
            match s_assignment(old(self).toks(), old(self).pos as int) {
                Ok((e, j)) => r matches Ok(x) && x@ == e && final(self).pos == j && old(self).pos < j && final(self).ok(),
                Err(err) => r matches Err(x) && x@ == err,
            },
    {
        let column = match self.parse_column_ref() {
            Ok(c) => c,
            Err(e) => return Err(e),
        };
        match self.expect(&Token::Eq) {
            Ok(()) => {},
            Err(e) => return Err(e),
        }
        let val = match self.parse_expr() {
            Ok(e) => e,
            Err(e) => return Err(e),
        };
        Ok(Assignment { column, val: Box::new(val) })
    }

    pub fn parse_assignments(&mut self) -> (r: Result<Vec<Assignment>, QueryErr>)
        requires
            old(self).ok(),
        ensures
            final(self).tokens@ == old(self).tokens@,
            match s_assignments(old(self).toks(), old(self).pos as int) {
                Ok((e, j)) => r matches Ok(x) && assign_views(x@) == e && final(self).pos == j && old(self).pos < j && final(self).ok(),
                Err(err) => r matches Err(x) && x@ == err,
            },
    {
        let ghost ts = self.toks();
        let ghost toks0 = self.tokens@;
        let ghost start = self.pos as int;
        let first = match self.parse_assignment() {
            Ok(a) => a,
            Err(e) => return Err(e),
        };
        let mut assignments = Vec::new();
        assignments.push(first);
        proof {
            assert(assign_views(assignments@) =~= seq![first@]);
        }
        while is_token(self.peek(), &Token::Comma)
            invariant
                self.ok(),
                self.tokens@ == toks0,
                toks0 == old(self).tokens@,
                start == old(self).pos,
                ts == views(toks0),
                start < self.pos,
                s_assignments(ts, start) == s_assign_tail(ts, self.pos as int, assign_views(assignments@)),
            decreases self.tokens@.len() - self.pos,
        {
            self.advance();
            let a = match self.parse_assignment() {
                Ok(a) => a,
                Err(e) => return Err(e),
            };
            let ghost before = assignments@;
            assignments.push(a);
            proof {
                assert(assign_views(assignments@) =~= assign_views(before).push(a@));
            }
        }
        Ok(assignments)
    }
}


impl<'a> Parser<'a> {
    /// `WHERE` and an expression, if the next token is `WHERE`.
    fn parse_where(&mut self) -> (r: Result<Option<Expr>, QueryErr>)
        requires
            old(self).ok(),
        ensures
            final(self).tokens@ == old(self).tokens@,
            match s_where(old(self).toks(), old(self).pos as int) {
                Ok((e, j)) => r matches Ok(x) && option_expr_view(x) == e && final(self).pos == j && old(self).pos <= j && final(self).ok(),
                Err(err) => r matches Err(x) && x@ == err,
            },
    {
        if is_token(self.peek(), &Token::Where) {
            self.advance();
            match self.parse_expr() {
                Ok(e) => Ok(Some(e)),
                Err(e) => Err(e),
            }
        } else {
            Ok(None)
        }
    }

    pub fn parse_with(&mut self) -> (r: Result<(Format, bool), QueryErr>)
        requires
            old(self).ok(),
        ensures
            final(self).tokens@ == old(self).tokens@,
            match s_with(old(self).toks(), old(self).pos as int) {
                Ok((e, j)) => r matches Ok(x) && x == e && final(self).pos == j && old(self).pos < j && final(self).ok(),
                Err(err) => r matches Err(x) && x@ == err,
            },
    {
        match self.expect(&Token::LParen) {
            Ok(()) => {},
            Err(e) => return Err(e),
        }
        match self.expect(&Token::Format) {
            Ok(()) => {},
            Err(e) => return Err(e),
        }
        let format = match self.advance() {
            Token::Ident(i) => {
                if is_csv_name(&i) {
                    Format::Csv
                } else {
                    return Err(QueryErr::UnknownFormat(i));
                }
            },
            other => return Err(QueryErr::UnexpectedToken { found: other, expected: "format identifier".to_owned() }),
        };
        let header = if is_token(self.peek(), &Token::Comma) {
            self.advance();
            match self.expect(&Token::Header) {
                Ok(()) => {},
                Err(e) => return Err(e),
            }
            match self.advance() {
                Token::BoolLiteral(b) => b,
                other => return Err(QueryErr::UnexpectedToken { found: other, expected: "bool".to_owned() }),
            }
        } else {
            false
        };
        match self.expect(&Token::RParen) {
            Ok(()) => Ok((format, header)),
            Err(e) => Err(e),
        }
    }

    pub fn parse_select(&mut self) -> (r: Result<SelectStmt, QueryErr>)
        requires
            old(self).ok(),
        ensures
            final(self).tokens@ == old(self).tokens@,
            match s_select(old(self).toks(), old(self).pos as int) {
                Ok((e, j)) => r matches Ok(x) && x@ == e && final(self).pos == j && old(self).pos < j && final(self).ok(),
                Err(err) => r matches Err(x) && x@ == err,
            },
    {
        match self.expect(&Token::Select) {
            Ok(()) => {},
            Err(e) => return Err(e),
        }
        let columns = match self.parse_column_list() {
            Ok(c) => c,
            Err(e) => return Err(e),
        };
        match self.expect(&Token::From) {
            Ok(()) => {},
            Err(e) => return Err(e),
        }
        let table = match self.parse_table_ref() {
            Ok(t) => t,
            Err(e) => return Err(e),
        };
        let where_clause = match self.parse_where() {
            Ok(w) => w,
            Err(e) => return Err(e),
        };
        Ok(SelectStmt { columns, table, where_clause })
    }

    pub fn parse_insert(&mut self) -> (r: Result<InsertStmt, QueryErr>)
        requires
            old(self).ok(),
        ensures
            final(self).tokens@ == old(self).tokens@,
            match s_insert(old(self).toks(), old(self).pos as int) {
                Ok((e, j)) => r matches Ok(x) && x@ == e && final(self).pos == j && old(self).pos < j && final(self).ok(),
                Err(err) => r matches Err(x) && x@ == err,
            },
    {
        match self.expect(&Token::Insert) {
            Ok(()) => {},
            Err(e) => return Err(e),
        }
        match self.expect(&Token::Into) {
            Ok(()) => {},
            Err(e) => return Err(e),
        }
        let table = match self.parse_table_ref() {
            Ok(t) => t,
            Err(e) => return Err(e),
        };
        let columns = match self.parse_column_list() {
            Ok(c) => c,
            Err(e) => return Err(e),
        };
        match self.expect(&Token::Values) {
            Ok(()) => {},
            Err(e) => return Err(e),
        }
        let values = match self.parse_values() {
            Ok(v) => v,
            Err(e) => return Err(e),
        };
        Ok(InsertStmt { table, columns, values })
    }

    pub fn parse_create(&mut self) -> (r: Result<CreateStmt, QueryErr>)
        requires
            old(self).ok(),
        ensures
            final(self).tokens@ == old(self).tokens@,
            match s_create(old(self).toks(), old(self).pos as int) {
                Ok((e, j)) => r matches Ok(x) && x@ == e && final(self).pos == j && old(self).pos < j && final(self).ok(),
                Err(err) => r matches Err(x) && x@ == err,
            },
    {
        match self.expect(&Token::Create) {
            Ok(()) => {},
            Err(e) => return Err(e),
        }
        match self.expect(&Token::Table) {
            Ok(()) => {},
            Err(e) => return Err(e),
        }
        let table = match self.parse_table_ref() {
            Ok(t) => t,
            Err(e) => return Err(e),
        };
        let columns = match self.parse_column_list_def() {
            Ok(c) => c,
            Err(e) => return Err(e),
        };
        Ok(CreateStmt { table, columns })
    }

    pub fn parse_update(&mut self) -> (r: Result<UpdateStmt, QueryErr>)
        requires
            old(self).ok(),
        ensures
            final(self).tokens@ == old(self).tokens@,
            match s_update(old(self).toks(), old(self).pos as int) {
                Ok((e, j)) => r matches Ok(x) && x@ == e && final(self).pos == j && old(self).pos < j && final(self).ok(),
                Err(err) => r matches Err(x) && x@ == err,
            },
    {
        match self.expect(&Token::Update) {
            Ok(()) => {},
            Err(e) => return Err(e),
        }
        let table = match self.parse_table_ref() {
            Ok(t) => t,
            Err(e) => return Err(e),
        };
        match self.expect(&Token::SetKw) {
            Ok(()) => {},
            Err(e) => return Err(e),
        }
        let assignments = match self.parse_assignments() {
            Ok(a) => a,
            Err(e) => return Err(e),
        };
        let where_clause = match self.parse_where() {
            Ok(w) => w,
            Err(e) => return Err(e),
        };
        Ok(UpdateStmt { table, assignments, where_clause })
    }

    pub fn parse_copy(&mut self) -> (r: Result<CopyStmt, QueryErr>)
        requires
            old(self).ok(),
        ensures
            final(self).tokens@ == old(self).tokens@,
            match s_copy(old(self).toks(), old(self).pos as int) {
                Ok((e, j)) => r matches Ok(x) && x@ == e && final(self).pos == j && old(self).pos < j && final(self).ok(),
                Err(err) => r matches Err(x) && x@ == err,
            },
    {
        match self.expect(&Token::Copy) {
            Ok(()) => {},
            Err(e) => return Err(e),
        }
        let table = match self.parse_table_ref() {
            Ok(t) => t,
            Err(e) => return Err(e),
        };
        let target = if is_token(self.peek(), &Token::To) {
            self.advance();
            match self.advance() {
                Token::Stdout => Target::Stdout,
                Token::StringLiteral(path) => Target::To(path),
                other => return Err(QueryErr::UnexpectedToken { found: other, expected: "STDOUT or string<path>".to_owned() }),
            }
        } else if is_token(self.peek(), &Token::From) {
            self.advance();
            match self.advance() {
                Token::Stdin => Target::Stdin,
                Token::StringLiteral(path) => Target::From(path),
                other => return Err(QueryErr::UnexpectedToken { found: other, expected: "STDIN or string<path>".to_owned() }),
            }
        } else {
            return Err(QueryErr::UnexpectedToken { found: copy_token(self.peek()), expected: "TO or FROM".to_owned() });
        };
        match self.expect(&Token::With) {
            Ok(()) => {},
            Err(e) => return Err(e),
        }
        let (format, header) = match self.parse_with() {
            Ok(w) => w,
            Err(e) => return Err(e),
        };
        Ok(CopyStmt { table, target, format, header })
    }

    pub fn parse_statement(&mut self) -> (r: Result<Statement, QueryErr>)
        requires
            old(self).ok(),
        ensures
            final(self).tokens@ == old(self).tokens@,
            match s_statement(old(self).toks(), old(self).pos as int) {
                Ok((e, j)) => r matches Ok(x) && x@ == e && final(self).pos == j && old(self).pos < j && final(self).ok(),
                Err(err) => r matches Err(x) && x@ == err,
            },
    {
        match self.peek() {
            Token::Select => match self.parse_select() {
                Ok(s) => Ok(Statement::Select(s)),
                Err(e) => Err(e),
            },
            Token::Insert => match self.parse_insert() {
                Ok(s) => Ok(Statement::Insert(s)),
                Err(e) => Err(e),
            },
            Token::Create => match self.parse_create() {
                Ok(s) => Ok(Statement::Create(s)),
                Err(e) => Err(e),
            },
            Token::Update => match self.parse_update() {
                Ok(s) => Ok(Statement::Update(s)),
                Err(e) => Err(e),
            },
            Token::Copy => match self.parse_copy() {
                Ok(s) => Ok(Statement::Copy(s)),
                Err(e) => Err(e),
            },
            other => Err(QueryErr::UnexpectedToken { found: copy_token(other), expected: "command token".to_owned() }),
        }
    }
}

/// Parses one statement followed by `;` from tokens that end with `Eof`.
pub fn make_ast(tokens: Vec<Token>) -> (r: Result<Statement, QueryErr>)
    requires
        tokens@.len() > 0,
        tokens@.last()@ == TokenV::Eof,
    ensures
        match s_make_ast(views(tokens@)) {
            Ok(st) => r matches Ok(x) && x@ == st,
            Err(e) => r matches Err(x) && x@ == e,
        },
{
    let mut parser = Parser::new(tokens.as_slice());
    assert(parser.toks().last() == TokenV::Eof);
    let stmt = match parser.parse_statement() {
        Ok(s) => s,
        Err(e) => return Err(e),
    };
    match parser.expect(&Token::Semicolon) {
        Ok(()) => Ok(stmt),
        Err(e) => Err(e),
    }
}

/// A column compared with an integer parses to a comparison whose
/// operator is the token's: `Eq`, `NotEq`, `Lt`, `Gt`, `LtEq`, `GtEq` give
/// the operators of the same names, with the column on the left and the
/// literal on the right, and the expression ends after the literal when no
/// `AND` or `OR` follows.
pub proof fn lemma_comparison_operator_table(ts: Seq<TokenV>, i: int, col: Seq<char>, n: i64)
    requires
        0 <= i,
        i + 3 < ts.len(),
        ts[i] == TokenV::Ident(col),
        ts[i + 2] == TokenV::IntLiteral(n),
        ts[i + 3] != TokenV::And,
        ts[i + 3] != TokenV::Or,
    ensures
        ({
            let l = ExprV::ColumnRef(ColumnRefV::Column { table: None, column: col });
            let r = ExprV::Literal(LiteralV::Int(n));
            let with_op = |op: BOp| Ok::<(ExprV, int), QueryErrV>((ExprV::BinaryExpr { left: Box::new(l), operator: op, right: Box::new(r) }, i + 3));
            &&& ts[i + 1] == TokenV::Eq ==> s_expr(ts, i) == with_op(BOp::Eq)
            &&& ts[i + 1] == TokenV::NotEq ==> s_expr(ts, i) == with_op(BOp::NotEq)
            &&& ts[i + 1] == TokenV::Lt ==> s_expr(ts, i) == with_op(BOp::Lt)
            &&& ts[i + 1] == TokenV::Gt ==> s_expr(ts, i) == with_op(BOp::Gt)
            &&& ts[i + 1] == TokenV::LtEq ==> s_expr(ts, i) == with_op(BOp::LtEq)
            &&& ts[i + 1] == TokenV::GtEq ==> s_expr(ts, i) == with_op(BOp::GtEq)
        }),
{
    let l = ExprV::ColumnRef(ColumnRefV::Column { table: None, column: col });
    let r = ExprV::Literal(LiteralV::Int(n));
    assert(s_primary(ts, i) == Ok::<(ExprV, int), QueryErrV>((l, i + 1)));
    assert(s_primary(ts, i + 2) == Ok::<(ExprV, int), QueryErrV>((r, i + 3)));
    let c = s_comparison(ts, i);
    assert(s_not(ts, i) == c);
    assert(s_conj_tail(ts, i + 3, bin(l, BOp::Eq, r)) == Ok::<(ExprV, int), QueryErrV>((bin(l, BOp::Eq, r), i + 3)));
    if binop(ts[i + 1]) is Some {
        let op = binop(ts[i + 1])->0;
        assert(c == Ok::<(ExprV, int), QueryErrV>((bin(l, op, r), i + 3)));
        assert(s_conj_tail(ts, i + 3, bin(l, op, r)) == c);
        assert(s_conj(ts, i) == c);
        assert(s_expr_tail(ts, i + 3, bin(l, op, r)) == c);
        assert(s_expr(ts, i) == c);
    }
}

/// Two equalities joined by `AND` parse to their conjunction, by `OR` to
/// their disjunction, each comparison whole on its side; a `NOT` before an
/// equality negates it.
pub proof fn lemma_connective_table(ts: Seq<TokenV>, a: Seq<char>, n: i64, b: Seq<char>, m: i64, conn: TokenV)
    requires
        ts.len() == 8,
        ts[0] == TokenV::Ident(a),
        ts[1] == TokenV::Eq,
        ts[2] == TokenV::IntLiteral(n),
        ts[3] == conn,
        ts[4] == TokenV::Ident(b),
        ts[5] == TokenV::Eq,
        ts[6] == TokenV::IntLiteral(m),
        ts[7] == TokenV::Eof,
    ensures
        ({
            let l = ExprV::BinaryExpr { left: Box::new(ExprV::ColumnRef(ColumnRefV::Column { table: None, column: a })),
                operator: BOp::Eq, right: Box::new(ExprV::Literal(LiteralV::Int(n))) };
            let r = ExprV::BinaryExpr { left: Box::new(ExprV::ColumnRef(ColumnRefV::Column { table: None, column: b })),
                operator: BOp::Eq, right: Box::new(ExprV::Literal(LiteralV::Int(m))) };
            &&& conn == TokenV::And ==> s_expr(ts, 0) == Ok::<(ExprV, int), QueryErrV>((ExprV::BinaryExpr { left: Box::new(l), operator: BOp::And, right: Box::new(r) }, 7))
            &&& conn == TokenV::Or ==> s_expr(ts, 0) == Ok::<(ExprV, int), QueryErrV>((ExprV::BinaryExpr { left: Box::new(l), operator: BOp::Or, right: Box::new(r) }, 7))
        }),
{
    let l = bin(ExprV::ColumnRef(ColumnRefV::Column { table: None, column: a }), BOp::Eq, ExprV::Literal(LiteralV::Int(n)));
    let r = bin(ExprV::ColumnRef(ColumnRefV::Column { table: None, column: b }), BOp::Eq, ExprV::Literal(LiteralV::Int(m)));
    assert(s_primary(ts, 0) == Ok::<(ExprV, int), QueryErrV>((ExprV::ColumnRef(ColumnRefV::Column { table: None, column: a }), 1)));
    assert(s_primary(ts, 2) == Ok::<(ExprV, int), QueryErrV>((ExprV::Literal(LiteralV::Int(n)), 3)));
    assert(s_primary(ts, 4) == Ok::<(ExprV, int), QueryErrV>((ExprV::ColumnRef(ColumnRefV::Column { table: None, column: b }), 5)));
    assert(s_primary(ts, 6) == Ok::<(ExprV, int), QueryErrV>((ExprV::Literal(LiteralV::Int(m)), 7)));
    assert(s_comparison(ts, 0) == Ok::<(ExprV, int), QueryErrV>((l, 3)));
    assert(s_not(ts, 0) == s_comparison(ts, 0));
    assert(s_comparison(ts, 4) == Ok::<(ExprV, int), QueryErrV>((r, 7)));
    assert(s_not(ts, 4) == s_comparison(ts, 4));
    if conn == TokenV::And {
        assert(s_conj_tail(ts, 7, bin(l, BOp::And, r)) == Ok::<(ExprV, int), QueryErrV>((bin(l, BOp::And, r), 7)));
        assert(s_conj_tail(ts, 3, l) == Ok::<(ExprV, int), QueryErrV>((bin(l, BOp::And, r), 7)));
        assert(s_conj(ts, 0) == Ok::<(ExprV, int), QueryErrV>((bin(l, BOp::And, r), 7)));
        assert(s_expr_tail(ts, 7, bin(l, BOp::And, r)) == Ok::<(ExprV, int), QueryErrV>((bin(l, BOp::And, r), 7)));
    }
    if conn == TokenV::Or {
        assert(s_conj_tail(ts, 3, l) == Ok::<(ExprV, int), QueryErrV>((l, 3)));
        assert(s_conj(ts, 0) == Ok::<(ExprV, int), QueryErrV>((l, 3)));
        assert(s_conj_tail(ts, 7, r) == Ok::<(ExprV, int), QueryErrV>((r, 7)));
        assert(s_conj(ts, 4) == Ok::<(ExprV, int), QueryErrV>((r, 7)));
        assert(s_expr_tail(ts, 7, bin(l, BOp::Or, r)) == Ok::<(ExprV, int), QueryErrV>((bin(l, BOp::Or, r), 7)));
        assert(s_expr_tail(ts, 3, l) == Ok::<(ExprV, int), QueryErrV>((bin(l, BOp::Or, r), 7)));
    }
}

} // verus!
