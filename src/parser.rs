//! Recursive-descent parser for the small SQL dialect.
use vstd::prelude::*;
use crate::error::ParseError;
use crate::lexer::{ascii_upper, same_text, to_upper, tokens_view, Token, TokenView};

verus! {

/// A node of the syntax tree.
#[derive(Debug, PartialEq, Eq)]
pub enum Ast {
    All,
    StmtList(Vec<Ast>),
    Stmt(Box<Ast>),
    Select { result_columns: Vec<Ast>, from: Box<Ast>, where_clause: Option<Box<Ast>> },
    TableOrSubQuery(Box<Ast>),
    Table(String),
    Expr(Box<Ast>),
    Function { name: String, args: Vec<Ast> },
    CreateTable { name: String, column_defs: Vec<Ast> },
    ColumnDef { name: String, data_type: String, constraints: Vec<Constraint> },
    Identifier(String),
    StringLiteral(String),
    BinaryOp { op: Op, lhs: Box<Ast>, rhs: Box<Ast> },
    CreateIndex { name: String, table_name: String, columns: Vec<Ast> },
}

#[derive(Debug, PartialEq, Eq, Clone, Copy, Structural)]
pub enum Op {
    Equal,
}

#[derive(Debug, PartialEq, Eq, Clone, Copy, Structural)]
pub enum Constraint {
    PrimaryKey,
    AutoIncrement,
    NotNull,
}

/// The mathematical value of an [`Ast`].
pub enum AstView {
    All,
    StmtList(Seq<AstView>),
    Stmt(Box<AstView>),
    Select {
        result_columns: Seq<AstView>,
        from: Box<AstView>,
        where_clause: Option<Box<AstView>>,
    },
    TableOrSubQuery(Box<AstView>),
    Table(Seq<char>),
    Expr(Box<AstView>),
    Function { name: Seq<char>, args: Seq<AstView> },
    CreateTable { name: Seq<char>, column_defs: Seq<AstView> },
    ColumnDef { name: Seq<char>, data_type: Seq<char>, constraints: Seq<Constraint> },
    Identifier(Seq<char>),
    StringLiteral(Seq<char>),
    BinaryOp { op: Op, lhs: Box<AstView>, rhs: Box<AstView> },
    CreateIndex { name: Seq<char>, table_name: Seq<char>, columns: Seq<AstView> },
}

/// The views of a list of nodes.
pub open spec fn asts_view(v: Seq<Ast>) -> Seq<AstView>
    decreases v,
{
    Seq::new(
        v.len(),
        |i: int|
            if 0 <= i < v.len() {
                ast_view(v[i])
            } else {
                AstView::All
            },
    )
}

pub open spec fn ast_view(a: Ast) -> AstView
    decreases a,
{
    match a {
        Ast::All => AstView::All,
        Ast::StmtList(v) => AstView::StmtList(asts_view(v@)),
        Ast::Stmt(b) => AstView::Stmt(Box::new(ast_view(*b))),
        Ast::Select { result_columns, from, where_clause } => AstView::Select {
            result_columns: asts_view(result_columns@),
            from: Box::new(ast_view(*from)),
            where_clause: match where_clause {
                Some(w) => Some(Box::new(ast_view(*w))),
                None => None,
            },
        },
        Ast::TableOrSubQuery(b) => AstView::TableOrSubQuery(Box::new(ast_view(*b))),
        Ast::Table(s) => AstView::Table(s@),
        Ast::Expr(b) => AstView::Expr(Box::new(ast_view(*b))),
        Ast::Function { name, args } => AstView::Function { name: name@, args: asts_view(args@) },
        Ast::CreateTable { name, column_defs } => AstView::CreateTable {
            name: name@,
            column_defs: asts_view(column_defs@),
        },
        Ast::ColumnDef { name, data_type, constraints } => AstView::ColumnDef {
            name: name@,
            data_type: data_type@,
            constraints: constraints@,
        },
        Ast::Identifier(s) => AstView::Identifier(s@),
        Ast::StringLiteral(s) => AstView::StringLiteral(s@),
        Ast::BinaryOp { op, lhs, rhs } => AstView::BinaryOp {
            op,
            lhs: Box::new(ast_view(*lhs)),
            rhs: Box::new(ast_view(*rhs)),
        },
        Ast::CreateIndex { name, table_name, columns } => AstView::CreateIndex {
            name: name@,
            table_name: table_name@,
            columns: asts_view(columns@),
        },
    }
}

impl View for Ast {
    type V = AstView;

    open spec fn view(&self) -> AstView {
        ast_view(*self)
    }
}

/// The outcome of parsing a piece of the token stream: what was parsed and
/// the position after it.
pub type Parsed<T> = Result<(T, int), ParseError>;

/// The token at position `i`; `Eof` past the end.
pub open spec fn peek(ts: Seq<TokenView>, i: int) -> TokenView {
    if 0 <= i < ts.len() {
        ts[i]
    } else {
        TokenView::Eof
    }
}

/// The error that points at the token at `i`.
pub open spec fn err_at<T>(i: int) -> Parsed<T> {
    Err(ParseError::UnexpectedToken(i as usize))
}

/// `r` with `x` put in front of the list it parsed.
pub open spec fn cons<T>(x: T, r: Parsed<Seq<T>>) -> Parsed<Seq<T>> {
    match r {
        Ok((rest, j)) => Ok((seq![x] + rest, j)),
        Err(e) => Err(e),
    }
}

/// A name: an identifier or a quoted string.
pub open spec fn name_at(ts: Seq<TokenView>, i: int) -> Option<Seq<char>> {
    match peek(ts, i) {
        TokenView::Identifier(n) => Some(n),
        TokenView::StringLiteral(n) => Some(n),
        _ => None,
    }
}

/// expr := ident '=' literal | ident '(' args | ident | literal
pub open spec fn p_expr(ts: Seq<TokenView>, i: int) -> Parsed<AstView>
    decreases ts.len() - i, 0nat,
{
    match peek(ts, i) {
        TokenView::Identifier(name) => if peek(ts, i + 1) is LParen {
            match p_args(ts, i + 2) {
                Ok((args, j)) => Ok(
                    (AstView::Expr(Box::new(AstView::Function { name, args })), j),
                ),
                Err(e) => Err(e),
            }
        } else if peek(ts, i + 1) is Equals {
            match peek(ts, i + 2) {
                TokenView::StringLiteral(v) => Ok(
                    (
                        AstView::Expr(
                            Box::new(
                                AstView::BinaryOp {
                                    op: Op::Equal,
                                    lhs: Box::new(
                                        AstView::Expr(Box::new(AstView::Identifier(name))),
                                    ),
                                    rhs: Box::new(
                                        AstView::Expr(Box::new(AstView::StringLiteral(v))),
                                    ),
                                },
                            ),
                        ),
                        i + 3,
                    ),
                ),
                _ => err_at(i + 2),
            }
        } else {
            Ok((AstView::Expr(Box::new(AstView::Identifier(name))), i + 1))
        },
        TokenView::StringLiteral(v) => Ok(
            (AstView::Expr(Box::new(AstView::StringLiteral(v))), i + 1),
        ),
        _ => err_at(i),
    }
}

/// args := (expr | '*') (',' (expr | '*'))* ')'
pub open spec fn p_args(ts: Seq<TokenView>, i: int) -> Parsed<Seq<AstView>>
    decreases ts.len() - i, 1nat,
{
    if i < 0 || i >= ts.len() {
        err_at(i)
    } else {
        let arg: Parsed<AstView> = if peek(ts, i) is Star {
            Ok((AstView::All, i + 1))
        } else {
            p_expr(ts, i)
        };
        match arg {
            Err(e) => Err(e),
            Ok((a, j)) => if peek(ts, j) is Comma && i < j < ts.len() {
                cons(a, p_args(ts, j + 1))
            } else if peek(ts, j) is RParen {
                Ok((seq![a], j + 1))
            } else {
                err_at(j)
            },
        }
    }
}

/// cols := expr (',' expr)*
pub open spec fn p_cols(ts: Seq<TokenView>, i: int) -> Parsed<Seq<AstView>>
    decreases ts.len() - i,
{
    if i < 0 || i >= ts.len() {
        err_at(i)
    } else {
        match p_expr(ts, i) {
            Err(e) => Err(e),
            Ok((a, j)) => if peek(ts, j) is Comma && i < j < ts.len() {
                cons(a, p_cols(ts, j + 1))
            } else {
                Ok((seq![a], j))
            },
        }
    }
}

/// select := 'SELECT' ('*' | cols) 'FROM' ident ('WHERE' expr)?
pub open spec fn p_select(ts: Seq<TokenView>, i: int) -> Parsed<AstView> {
    if !(peek(ts, i) is Select) {
        err_at(i)
    } else {
        let cols: Parsed<Seq<AstView>> = if peek(ts, i + 1) is Star {
            Ok((seq![AstView::All], i + 2))
        } else {
            p_cols(ts, i + 1)
        };
        match cols {
            Err(e) => Err(e),
            Ok((cs, k)) => if !(peek(ts, k) is From) {
                err_at(k)
            } else {
                match peek(ts, k + 1) {
                    TokenView::Identifier(t) => {
                        let from = Box::new(AstView::TableOrSubQuery(Box::new(AstView::Table(t))));
                        if peek(ts, k + 2) is Where {
                            match p_expr(ts, k + 3) {
                                Err(e) => Err(e),
                                Ok((w, q)) => Ok(
                                    (
                                        AstView::Select {
                                            result_columns: cs,
                                            from,
                                            where_clause: Some(Box::new(w)),
                                        },
                                        q,
                                    ),
                                ),
                            }
                        } else {
                            Ok(
                                (
                                    AstView::Select {
                                        result_columns: cs,
                                        from,
                                        where_clause: None,
                                    },
                                    k + 2,
                                ),
                            )
                        }
                    },
                    _ => err_at(k + 1),
                }
            },
        }
    }
}

/// constraint* up to the ',' or ')' that ends a column definition.
pub open spec fn p_constraints(ts: Seq<TokenView>, i: int) -> Parsed<Seq<Constraint>>
    decreases ts.len() - i,
{
    if i < 0 || i >= ts.len() {
        err_at(i)
    } else {
        match peek(ts, i) {
            TokenView::Primary => if peek(ts, i + 1) is Key {
                cons(Constraint::PrimaryKey, p_constraints(ts, i + 2))
            } else {
                err_at(i + 1)
            },
            TokenView::Not => if peek(ts, i + 1) is Null {
                cons(Constraint::NotNull, p_constraints(ts, i + 2))
            } else {
                err_at(i + 1)
            },
            TokenView::AutoIncrement => cons(Constraint::AutoIncrement, p_constraints(ts, i + 1)),
            TokenView::Comma => Ok((seq![], i)),
            TokenView::RParen => Ok((seq![], i)),
            _ => err_at(i),
        }
    }
}

/// col_defs := name type constraint* (',' name type constraint*)*. A quoted
/// column name is folded to upper case.
pub open spec fn p_column_defs(ts: Seq<TokenView>, i: int) -> Parsed<Seq<AstView>>
    decreases ts.len() - i,
{
    if i < 0 || i >= ts.len() {
        err_at(i)
    } else {
        let name: Option<Seq<char>> = match peek(ts, i) {
            TokenView::Identifier(n) => Some(n),
            TokenView::StringLiteral(n) => Some(ascii_upper(n)),
            _ => None,
        };
        match name {
            None => err_at(i),
            Some(n) => match peek(ts, i + 1) {
                TokenView::Identifier(t) => match p_constraints(ts, i + 2) {
                    Err(e) => Err(e),
                    Ok((cs, k)) => {
                        let def = AstView::ColumnDef { name: n, data_type: t, constraints: cs };
                        if peek(ts, k) is Comma && i < k < ts.len() {
                            cons(def, p_column_defs(ts, k + 1))
                        } else {
                            Ok((seq![def], k))
                        }
                    },
                },
                _ => err_at(i + 1),
            },
        }
    }
}

/// The fixed table that `sqlite_sequence(name, seq)` stands for.
pub open spec fn sqlite_sequence_table() -> AstView {
    AstView::CreateTable {
        name: "SQLITE_SEQUENCE"@,
        column_defs: seq![
            AstView::ColumnDef { name: "NAME"@, data_type: "TEXT"@, constraints: seq![] },
            AstView::ColumnDef { name: "SEQ"@, data_type: "INTEGER"@, constraints: seq![] },
        ],
    }
}

/// '(' ident ',' ident ')' after the name of the sequence table.
pub open spec fn p_sequence_hack(ts: Seq<TokenView>, i: int) -> Parsed<AstView> {
    if !(peek(ts, i) is LParen) {
        err_at(i)
    } else if !(peek(ts, i + 1) is Identifier) {
        err_at(i + 1)
    } else if !(peek(ts, i + 2) is Comma) {
        err_at(i + 2)
    } else if !(peek(ts, i + 3) is Identifier) {
        err_at(i + 3)
    } else if !(peek(ts, i + 4) is RParen) {
        err_at(i + 4)
    } else {
        Ok((sqlite_sequence_table(), i + 5))
    }
}

/// create_table := 'TABLE' name '(' col_defs ')'
pub open spec fn p_create_table(ts: Seq<TokenView>, i: int) -> Parsed<AstView> {
    if !(peek(ts, i) is Table) {
        err_at(i)
    } else {
        match name_at(ts, i + 1) {
            None => err_at(i + 1),
            Some(name) => if ascii_upper(name) == "SQLITE_SEQUENCE"@ {
                p_sequence_hack(ts, i + 2)
            } else if !(peek(ts, i + 2) is LParen) {
                err_at(i + 2)
            } else {
                match p_column_defs(ts, i + 3) {
                    Err(e) => Err(e),
                    Ok((defs, k)) => if peek(ts, k) is RParen {
                        Ok((AstView::CreateTable { name, column_defs: defs }, k + 1))
                    } else {
                        err_at(k)
                    },
                }
            },
        }
    }
}

/// names := name (',' name)*
pub open spec fn p_index_columns(ts: Seq<TokenView>, i: int) -> Parsed<Seq<AstView>>
    decreases ts.len() - i,
{
    if i < 0 || i >= ts.len() {
        err_at(i)
    } else {
        match name_at(ts, i) {
            None => err_at(i),
            Some(c) => if peek(ts, i + 1) is Comma {
                cons(AstView::Identifier(c), p_index_columns(ts, i + 2))
            } else {
                Ok((seq![AstView::Identifier(c)], i + 1))
            },
        }
    }
}

/// create_index := 'INDEX' name 'ON' name '(' names ')'
pub open spec fn p_create_index(ts: Seq<TokenView>, i: int) -> Parsed<AstView> {
    if !(peek(ts, i) is Index) {
        err_at(i)
    } else {
        match name_at(ts, i + 1) {
            None => err_at(i + 1),
            Some(name) => if !(peek(ts, i + 2) is On) {
                err_at(i + 2)
            } else {
                match name_at(ts, i + 3) {
                    None => err_at(i + 3),
                    Some(table_name) => if !(peek(ts, i + 4) is LParen) {
                        err_at(i + 4)
                    } else {
                        match p_index_columns(ts, i + 5) {
                            Err(e) => Err(e),
                            Ok((columns, k)) => if peek(ts, k) is RParen {
                                Ok((AstView::CreateIndex { name, table_name, columns }, k + 1))
                            } else {
                                err_at(k)
                            },
                        }
                    },
                }
            },
        }
    }
}

/// create := 'CREATE' (create_table | create_index)
pub open spec fn p_create(ts: Seq<TokenView>, i: int) -> Parsed<AstView> {
    if !(peek(ts, i) is Create) {
        err_at(i)
    } else if peek(ts, i + 1) is Table {
        p_create_table(ts, i + 1)
    } else if peek(ts, i + 1) is Index {
        p_create_index(ts, i + 1)
    } else {
        err_at(i + 1)
    }
}

/// stmt := select | create
pub open spec fn p_statement(ts: Seq<TokenView>, i: int) -> Parsed<AstView> {
    match peek(ts, i) {
        TokenView::Select => match p_select(ts, i) {
            Ok((s, j)) => Ok((AstView::Stmt(Box::new(s)), j)),
            Err(e) => Err(e),
        },
        TokenView::Create => match p_create(ts, i) {
            Ok((s, j)) => Ok((AstView::Stmt(Box::new(s)), j)),
            Err(e) => Err(e),
        },
        _ => err_at(i),
    }
}

/// stmt_list := stmt (';' stmt)* ';'? up to the end of the tokens.
pub open spec fn p_statements(ts: Seq<TokenView>, i: int) -> Parsed<Seq<AstView>>
    decreases ts.len() - i,
{
    match p_statement(ts, i) {
        Err(e) => Err(e),
        Ok((s, j)) => if peek(ts, j) is Semicolon {
            if peek(ts, j + 1) is Eof {
                Ok((seq![s], j + 1))
            } else if i < j < ts.len() {
                cons(s, p_statements(ts, j + 1))
            } else {
                err_at(j + 1)
            }
        } else if peek(ts, j) is Eof {
            Ok((seq![s], j))
        } else {
            err_at(j)
        },
    }
}

/// The statement list that the tokens from `i` on spell.
pub open spec fn p_program(ts: Seq<TokenView>, i: int) -> Parsed<AstView> {
    match p_statements(ts, i) {
        Ok((ss, j)) => Ok((AstView::StmtList(ss), j)),
        Err(e) => Err(e),
    }
}


/// What a parse of a node by the executable parser matches.
pub open spec fn ast_res(r: Result<(Ast, usize), ParseError>, s: Parsed<AstView>) -> bool {
    match s {
        Ok((a, j)) => r matches Ok((x, k)) && x@ == a && k == j,
        Err(e) => r == Err::<(Ast, usize), ParseError>(e),
    }
}

/// What a parse of a list of nodes by the executable parser matches.
pub open spec fn asts_res(r: Result<(Vec<Ast>, usize), ParseError>, s: Parsed<Seq<AstView>>) -> bool {
    match s {
        Ok((a, j)) => r matches Ok((x, k)) && asts_view(x@) == a && k == j,
        Err(e) => r == Err::<(Vec<Ast>, usize), ParseError>(e),
    }
}

proof fn lemma_expr_advances(ts: Seq<TokenView>, i: int)
    ensures
        p_expr(ts, i) matches Ok((_, j)) ==> j > i,
    decreases ts.len() - i, 0nat,
{
    if peek(ts, i) is Identifier && peek(ts, i + 1) is LParen {
        lemma_args_advance(ts, i + 2);
    }
}

proof fn lemma_args_advance(ts: Seq<TokenView>, i: int)
    ensures
        p_args(ts, i) matches Ok((_, j)) ==> j > i,
    decreases ts.len() - i, 1nat,
{
    if 0 <= i < ts.len() {
        if !(peek(ts, i) is Star) {
            lemma_expr_advances(ts, i);
        }
        let arg: Parsed<AstView> = if peek(ts, i) is Star {
            Ok((AstView::All, i + 1))
        } else {
            p_expr(ts, i)
        };
        if let Ok((a, j)) = arg {
            if peek(ts, j) is Comma && i < j < ts.len() {
                lemma_args_advance(ts, j + 1);
            }
        }
    }
}

proof fn lemma_cons_view(a: Ast, rest: Seq<Ast>, all: Seq<Ast>)
    requires
        all == seq![a] + rest,
    ensures
        asts_view(all) == seq![a@] + asts_view(rest),
{
    assert(asts_view(all) =~= seq![a@] + asts_view(rest)) by {
        assert forall|k: int| 0 <= k < all.len() implies #[trigger] asts_view(all)[k] == (seq![a@]
            + asts_view(rest))[k] by {
            if k > 0 {
                assert(all[k] == rest[k - 1]);
            }
        }
    }
}

proof fn lemma_single_view(a: Ast, all: Seq<Ast>)
    requires
        all == seq![a],
    ensures
        asts_view(all) == seq![a@],
{
    assert(asts_view(all) =~= seq![a@]);
}

/// The token at `i`, if there is one.
fn tok_at(toks: &Vec<Token>, i: usize) -> (r: Option<&Token>)
    ensures
        r matches Some(t) ==> i < toks.len() && t@ == peek(tokens_view(toks@), i as int),
        r is None ==> i >= toks@.len() && peek(tokens_view(toks@), i as int) == TokenView::Eof,
{
    if i < toks.len() {
        Some(&toks[i])
    } else {
        None
    }
}

/// The name at `i`: an identifier or a quoted string.
fn name_at_exec(toks: &Vec<Token>, i: usize) -> (r: Option<String>)
    ensures
        match name_at(tokens_view(toks@), i as int) {
            Some(n) => r matches Some(x) && x@ == n && i < toks@.len(),
            None => r is None,
        },
{
    match tok_at(toks, i) {
        Some(Token::Identifier(n)) => Some(n.clone()),
        Some(Token::StringLiteral(n)) => Some(n.clone()),
        _ => None,
    }
}

fn parse_expr_at(toks: &Vec<Token>, i: usize) -> (r: Result<(Ast, usize), ParseError>)
    ensures
        ast_res(r, p_expr(tokens_view(toks@), i as int)),
    decreases toks@.len() - i, 0nat,
{
    let ghost ts = tokens_view(toks@);
    proof {
        reveal_with_fuel(ast_view, 5);
    }
    match tok_at(toks, i) {
        Some(Token::Identifier(name)) => {
            let name = name.clone();
            if matches!(tok_at(toks, i + 1), Some(Token::LParen)) {
                match parse_args_at(toks, i + 2) {
                    Ok((args, j)) => Ok((Ast::Expr(Box::new(Ast::Function { name, args })), j)),
                    Err(e) => Err(e),
                }
            } else if matches!(tok_at(toks, i + 1), Some(Token::Equals)) {
                match tok_at(toks, i + 2) {
                    Some(Token::StringLiteral(v)) => {
                        let v = v.clone();
                        Ok(
                            (
                                Ast::Expr(
                                    Box::new(
                                        Ast::BinaryOp {
                                            op: Op::Equal,
                                            lhs: Box::new(Ast::Expr(Box::new(Ast::Identifier(name)))),
                                            rhs: Box::new(Ast::Expr(Box::new(Ast::StringLiteral(v)))),
                                        },
                                    ),
                                ),
                                i + 3,
                            ),
                        )
                    },
                    _ => Err(ParseError::UnexpectedToken(i + 2)),
                }
            } else {
                Ok((Ast::Expr(Box::new(Ast::Identifier(name))), i + 1))
            }
        },
        Some(Token::StringLiteral(v)) => Ok(
            (Ast::Expr(Box::new(Ast::StringLiteral(v.clone()))), i + 1),
        ),
        _ => Err(ParseError::UnexpectedToken(i)),
    }
}

fn parse_args_at(toks: &Vec<Token>, i: usize) -> (r: Result<(Vec<Ast>, usize), ParseError>)
    ensures
        asts_res(r, p_args(tokens_view(toks@), i as int)),
    decreases toks@.len() - i, 1nat,
{
    let ghost ts = tokens_view(toks@);
    if i >= toks.len() {
        return Err(ParseError::UnexpectedToken(i));
    }
    proof {
        lemma_expr_advances(ts, i as int);
    }
    let (a, j) = if matches!(tok_at(toks, i), Some(Token::Star)) {
        (Ast::All, i + 1)
    } else {
        match parse_expr_at(toks, i) {
            Ok(x) => x,
            Err(e) => {
                return Err(e);
            },
        }
    };
    if matches!(tok_at(toks, j), Some(Token::Comma)) {
        match parse_args_at(toks, j + 1) {
            Ok((rest, k)) => {
                let ghost old_rest = rest@;
                let mut rest = rest;
                let ghost av = a@;
                rest.insert(0, a);
                proof {
                    assert(rest@ =~= seq![rest@[0]] + old_rest);
                    lemma_cons_view(rest@[0], old_rest, rest@);
                }
                Ok((rest, k))
            },
            Err(e) => Err(e),
        }
    } else if matches!(tok_at(toks, j), Some(Token::RParen)) {
        let v = vec![a];
        proof {
            assert(v@ =~= seq![v@[0]]);
            lemma_single_view(v@[0], v@);
        }
        Ok((v, j + 1))
    } else {
        Err(ParseError::UnexpectedToken(j))
    }
}


fn parse_cols_at(toks: &Vec<Token>, i: usize) -> (r: Result<(Vec<Ast>, usize), ParseError>)
    ensures
        asts_res(r, p_cols(tokens_view(toks@), i as int)),
    decreases toks@.len() - i,
{
    if i >= toks.len() {
        return Err(ParseError::UnexpectedToken(i));
    }
    let (a, j) = match parse_expr_at(toks, i) {
        Ok(x) => x,
        Err(e) => {
            return Err(e);
        },
    };
    if matches!(tok_at(toks, j), Some(Token::Comma)) && i < j {
        match parse_cols_at(toks, j + 1) {
            Ok((rest, k)) => {
                let ghost old_rest = rest@;
                let mut rest = rest;
                rest.insert(0, a);
                proof {
                    assert(rest@ =~= seq![rest@[0]] + old_rest);
                    lemma_cons_view(rest@[0], old_rest, rest@);
                }
                Ok((rest, k))
            },
            Err(e) => Err(e),
        }
    } else {
        let v = vec![a];
        proof {
            assert(v@ =~= seq![v@[0]]);
            lemma_single_view(v@[0], v@);
        }
        Ok((v, j))
    }
}

fn parse_select_at(toks: &Vec<Token>, i: usize) -> (r: Result<(Ast, usize), ParseError>)
    ensures
        ast_res(r, p_select(tokens_view(toks@), i as int)),
{
    proof {
        reveal_with_fuel(ast_view, 4);
    }
    if !matches!(tok_at(toks, i), Some(Token::Select)) {
        return Err(ParseError::UnexpectedToken(i));
    }
    let (cs, k) = if matches!(tok_at(toks, i + 1), Some(Token::Star)) {
        let v = vec![Ast::All];
        proof {
            assert(v@ =~= seq![v@[0]]);
            lemma_single_view(v@[0], v@);
        }
        (v, i + 2)
    } else {
        match parse_cols_at(toks, i + 1) {
            Ok(x) => x,
            Err(e) => {
                return Err(e);
            },
        }
    };
    if !matches!(tok_at(toks, k), Some(Token::From)) {
        return Err(ParseError::UnexpectedToken(k));
    }
    match tok_at(toks, k + 1) {
        Some(Token::Identifier(t)) => {
            let from = Box::new(Ast::TableOrSubQuery(Box::new(Ast::Table(t.clone()))));
            if matches!(tok_at(toks, k + 2), Some(Token::Where)) {
                match parse_expr_at(toks, k + 3) {
                    Ok((w, q)) => Ok(
                        (
                            Ast::Select {
                                result_columns: cs,
                                from,
                                where_clause: Some(Box::new(w)),
                            },
                            q,
                        ),
                    ),
                    Err(e) => Err(e),
                }
            } else {
                Ok((Ast::Select { result_columns: cs, from, where_clause: None }, k + 2))
            }
        },
        _ => Err(ParseError::UnexpectedToken(k + 1)),
    }
}

fn parse_constraints_at(toks: &Vec<Token>, i: usize) -> (r: Result<
    (Vec<Constraint>, usize),
    ParseError,
>)
    ensures
        match p_constraints(tokens_view(toks@), i as int) {
            Ok((cs, j)) => r matches Ok((x, k)) && x@ == cs && k == j,
            Err(e) => r == Err::<(Vec<Constraint>, usize), ParseError>(e),
        },
    decreases toks@.len() - i,
{
    if i >= toks.len() {
        return Err(ParseError::UnexpectedToken(i));
    }
    let (c, next) = match tok_at(toks, i) {
        Some(Token::Primary) => {
            if matches!(tok_at(toks, i + 1), Some(Token::Key)) {
                (Constraint::PrimaryKey, i + 2)
            } else {
                return Err(ParseError::UnexpectedToken(i + 1));
            }
        },
        Some(Token::Not) => {
            if matches!(tok_at(toks, i + 1), Some(Token::Null)) {
                (Constraint::NotNull, i + 2)
            } else {
                return Err(ParseError::UnexpectedToken(i + 1));
            }
        },
        Some(Token::AutoIncrement) => (Constraint::AutoIncrement, i + 1),
        Some(Token::Comma) => {
            return Ok((Vec::new(), i));
        },
        Some(Token::RParen) => {
            return Ok((Vec::new(), i));
        },
        _ => {
            return Err(ParseError::UnexpectedToken(i));
        },
    };
    match parse_constraints_at(toks, next) {
        Ok((rest, k)) => {
            let mut rest = rest;
            let ghost old_rest = rest@;
            rest.insert(0, c);
            proof {
                assert(rest@ =~= seq![c] + old_rest);
            }
            Ok((rest, k))
        },
        Err(e) => Err(e),
    }
}

fn parse_column_defs_at(toks: &Vec<Token>, i: usize) -> (r: Result<(Vec<Ast>, usize), ParseError>)
    ensures
        asts_res(r, p_column_defs(tokens_view(toks@), i as int)),
    decreases toks@.len() - i,
{
    proof {
        reveal_with_fuel(ast_view, 2);
    }
    if i >= toks.len() {
        return Err(ParseError::UnexpectedToken(i));
    }
    let name = match tok_at(toks, i) {
        Some(Token::Identifier(n)) => n.clone(),
        Some(Token::StringLiteral(n)) => to_upper(n.as_str()),
        _ => {
            return Err(ParseError::UnexpectedToken(i));
        },
    };
    let data_type = match tok_at(toks, i + 1) {
        Some(Token::Identifier(t)) => t.clone(),
        _ => {
            return Err(ParseError::UnexpectedToken(i + 1));
        },
    };
    let (constraints, k) = match parse_constraints_at(toks, i + 2) {
        Ok(x) => x,
        Err(e) => {
            return Err(e);
        },
    };
    let def = Ast::ColumnDef { name, data_type, constraints };
    if matches!(tok_at(toks, k), Some(Token::Comma)) && i < k {
        match parse_column_defs_at(toks, k + 1) {
            Ok((rest, m)) => {
                let ghost old_rest = rest@;
                let mut rest = rest;
                rest.insert(0, def);
                proof {
                    assert(rest@ =~= seq![rest@[0]] + old_rest);
                    lemma_cons_view(rest@[0], old_rest, rest@);
                }
                Ok((rest, m))
            },
            Err(e) => Err(e),
        }
    } else {
        let v = vec![def];
        proof {
            assert(v@ =~= seq![v@[0]]);
            lemma_single_view(v@[0], v@);
        }
        Ok((v, k))
    }
}

/// The table that `sqlite_sequence(name, seq)` stands for.
fn sqlite_sequence_ast() -> (r: Ast)
    ensures
        r@ == sqlite_sequence_table(),
{
    proof {
        reveal_with_fuel(ast_view, 2);
    }
    let v = vec![
        Ast::ColumnDef {
            name: "NAME".to_owned(),
            data_type: "TEXT".to_owned(),
            constraints: Vec::new(),
        },
        Ast::ColumnDef {
            name: "SEQ".to_owned(),
            data_type: "INTEGER".to_owned(),
            constraints: Vec::new(),
        },
    ];
    let r = Ast::CreateTable { name: "SQLITE_SEQUENCE".to_owned(), column_defs: v };
    proof {
        assert(asts_view(v@) =~= sqlite_sequence_table()->CreateTable_column_defs);
    }
    r
}

fn parse_sequence_hack_at(toks: &Vec<Token>, i: usize) -> (r: Result<(Ast, usize), ParseError>)
    ensures
        ast_res(r, p_sequence_hack(tokens_view(toks@), i as int)),
{
    if !matches!(tok_at(toks, i), Some(Token::LParen)) {
        Err(ParseError::UnexpectedToken(i))
    } else if !matches!(tok_at(toks, i + 1), Some(Token::Identifier(_))) {
        Err(ParseError::UnexpectedToken(i + 1))
    } else if !matches!(tok_at(toks, i + 2), Some(Token::Comma)) {
        Err(ParseError::UnexpectedToken(i + 2))
    } else if !matches!(tok_at(toks, i + 3), Some(Token::Identifier(_))) {
        Err(ParseError::UnexpectedToken(i + 3))
    } else if !matches!(tok_at(toks, i + 4), Some(Token::RParen)) {
        Err(ParseError::UnexpectedToken(i + 4))
    } else {
        Ok((sqlite_sequence_ast(), i + 5))
    }
}

fn parse_create_table_at(toks: &Vec<Token>, i: usize) -> (r: Result<(Ast, usize), ParseError>)
    ensures
        ast_res(r, p_create_table(tokens_view(toks@), i as int)),
{
    if !matches!(tok_at(toks, i), Some(Token::Table)) {
        return Err(ParseError::UnexpectedToken(i));
    }
    let name = match name_at_exec(toks, i + 1) {
        Some(n) => n,
        None => {
            return Err(ParseError::UnexpectedToken(i + 1));
        },
    };
    let upper = to_upper(name.as_str());
    if same_text(&upper, "SQLITE_SEQUENCE") {
        return parse_sequence_hack_at(toks, i + 2);
    }
    if !matches!(tok_at(toks, i + 2), Some(Token::LParen)) {
        return Err(ParseError::UnexpectedToken(i + 2));
    }
    let (column_defs, k) = match parse_column_defs_at(toks, i + 3) {
        Ok(x) => x,
        Err(e) => {
            return Err(e);
        },
    };
    if matches!(tok_at(toks, k), Some(Token::RParen)) {
        Ok((Ast::CreateTable { name, column_defs }, k + 1))
    } else {
        Err(ParseError::UnexpectedToken(k))
    }
}

fn parse_index_columns_at(toks: &Vec<Token>, i: usize) -> (r: Result<(Vec<Ast>, usize), ParseError>)
    ensures
        asts_res(r, p_index_columns(tokens_view(toks@), i as int)),
    decreases toks@.len() - i,
{
    if i >= toks.len() {
        return Err(ParseError::UnexpectedToken(i));
    }
    let c = match name_at_exec(toks, i) {
        Some(n) => n,
        None => {
            return Err(ParseError::UnexpectedToken(i));
        },
    };
    let col = Ast::Identifier(c);
    if matches!(tok_at(toks, i + 1), Some(Token::Comma)) {
        match parse_index_columns_at(toks, i + 2) {
            Ok((rest, k)) => {
                let ghost old_rest = rest@;
                let mut rest = rest;
                rest.insert(0, col);
                proof {
                    assert(rest@ =~= seq![rest@[0]] + old_rest);
                    lemma_cons_view(rest@[0], old_rest, rest@);
                }
                Ok((rest, k))
            },
            Err(e) => Err(e),
        }
    } else {
        let v = vec![col];
        proof {
            assert(v@ =~= seq![v@[0]]);
            lemma_single_view(v@[0], v@);
        }
        Ok((v, i + 1))
    }
}

fn parse_create_index_at(toks: &Vec<Token>, i: usize) -> (r: Result<(Ast, usize), ParseError>)
    ensures
        ast_res(r, p_create_index(tokens_view(toks@), i as int)),
{
    if !matches!(tok_at(toks, i), Some(Token::Index)) {
        return Err(ParseError::UnexpectedToken(i));
    }
    let name = match name_at_exec(toks, i + 1) {
        Some(n) => n,
        None => {
            return Err(ParseError::UnexpectedToken(i + 1));
        },
    };
    if !matches!(tok_at(toks, i + 2), Some(Token::On)) {
        return Err(ParseError::UnexpectedToken(i + 2));
    }
    let table_name = match name_at_exec(toks, i + 3) {
        Some(n) => n,
        None => {
            return Err(ParseError::UnexpectedToken(i + 3));
        },
    };
    if !matches!(tok_at(toks, i + 4), Some(Token::LParen)) {
        return Err(ParseError::UnexpectedToken(i + 4));
    }
    let (columns, k) = match parse_index_columns_at(toks, i + 5) {
        Ok(x) => x,
        Err(e) => {
            return Err(e);
        },
    };
    if matches!(tok_at(toks, k), Some(Token::RParen)) {
        Ok((Ast::CreateIndex { name, table_name, columns }, k + 1))
    } else {
        Err(ParseError::UnexpectedToken(k))
    }
}

fn parse_create_at(toks: &Vec<Token>, i: usize) -> (r: Result<(Ast, usize), ParseError>)
    ensures
        ast_res(r, p_create(tokens_view(toks@), i as int)),
{
    if !matches!(tok_at(toks, i), Some(Token::Create)) {
        Err(ParseError::UnexpectedToken(i))
    } else if matches!(tok_at(toks, i + 1), Some(Token::Table)) {
        parse_create_table_at(toks, i + 1)
    } else if matches!(tok_at(toks, i + 1), Some(Token::Index)) {
        parse_create_index_at(toks, i + 1)
    } else {
        Err(ParseError::UnexpectedToken(i + 1))
    }
}

fn parse_statement_at(toks: &Vec<Token>, i: usize) -> (r: Result<(Ast, usize), ParseError>)
    ensures
        ast_res(r, p_statement(tokens_view(toks@), i as int)),
{
    proof {
        reveal_with_fuel(ast_view, 2);
    }
    let s = match tok_at(toks, i) {
        Some(Token::Select) => parse_select_at(toks, i),
        Some(Token::Create) => parse_create_at(toks, i),
        _ => {
            return Err(ParseError::UnexpectedToken(i));
        },
    };
    match s {
        Ok((s, j)) => Ok((Ast::Stmt(Box::new(s)), j)),
        Err(e) => Err(e),
    }
}

fn parse_statements_at(toks: &Vec<Token>, i: usize) -> (r: Result<(Vec<Ast>, usize), ParseError>)
    ensures
        asts_res(r, p_statements(tokens_view(toks@), i as int)),
    decreases toks@.len() - i,
{
    let (s, j) = match parse_statement_at(toks, i) {
        Ok(x) => x,
        Err(e) => {
            return Err(e);
        },
    };
    if matches!(tok_at(toks, j), Some(Token::Semicolon)) {
        if matches!(tok_at(toks, j + 1), Some(Token::Eof) | None) {
            let v = vec![s];
            proof {
                assert(v@ =~= seq![v@[0]]);
                lemma_single_view(v@[0], v@);
            }
            Ok((v, j + 1))
        } else if i < j {
            match parse_statements_at(toks, j + 1) {
                Ok((rest, k)) => {
                    let ghost old_rest = rest@;
                    let mut rest = rest;
                    rest.insert(0, s);
                    proof {
                        assert(rest@ =~= seq![rest@[0]] + old_rest);
                        lemma_cons_view(rest@[0], old_rest, rest@);
                    }
                    Ok((rest, k))
                },
                Err(e) => Err(e),
            }
        } else {
            Err(ParseError::UnexpectedToken(j + 1))
        }
    } else if matches!(tok_at(toks, j), Some(Token::Eof) | None) {
        let v = vec![s];
        proof {
            assert(v@ =~= seq![v@[0]]);
            lemma_single_view(v@[0], v@);
        }
        Ok((v, j))
    } else {
        Err(ParseError::UnexpectedToken(j))
    }
}

/// A parser over a list of tokens.
#[derive(Debug)]
pub struct Parser {
    tokens: Vec<Token>,
    position: usize,
}

impl Parser {
    /// The tokens being parsed.
    pub closed spec fn toks(&self) -> Seq<TokenView> {
        tokens_view(self.tokens@)
    }

    /// The position of the next token to parse.
    pub closed spec fn pos(&self) -> int {
        self.position as int
    }

    pub fn new(tokens: Vec<Token>) -> (p: Parser)
        ensures
            p.toks() == tokens_view(tokens@),
            p.pos() == 0,
    {
        Parser { tokens, position: 0 }
    }

    /// Parses a list of statements up to the end of the tokens.
    pub fn parse(&mut self) -> (r: Result<Ast, ParseError>)
        ensures
            final(self).toks() == old(self).toks(),
            match p_program(old(self).toks(), old(self).pos()) {
                Ok((a, j)) => r matches Ok(x) && x@ == a && final(self).pos() == j,
                Err(e) => r == Err::<Ast, ParseError>(e),
            },
    {
        proof {
            reveal_with_fuel(ast_view, 2);
        }
        match parse_statements_at(&self.tokens, self.position) {
            Ok((stmts, j)) => {
                self.position = j;
                Ok(Ast::StmtList(stmts))
            },
            Err(e) => Err(e),
        }
    }

    /// Parses a `CREATE TABLE` or `CREATE INDEX` statement.
    pub fn parse_create(&mut self) -> (r: Result<Ast, ParseError>)
        ensures
            final(self).toks() == old(self).toks(),
            match p_create(old(self).toks(), old(self).pos()) {
                Ok((a, j)) => r matches Ok(x) && x@ == a && final(self).pos() == j,
                Err(e) => r == Err::<Ast, ParseError>(e),
            },
    {
        match parse_create_at(&self.tokens, self.position) {
            Ok((a, j)) => {
                self.position = j;
                Ok(a)
            },
            Err(e) => Err(e),
        }
    }
}

} // verus!
