//! The abstract syntax tree of VelaRi programs.
use vstd::prelude::*;
use crate::lexer::Span;
use crate::text::copy_string;

verus! {

/// A type annotation as written in source (`Int`, `Array<Int>`, ...).
#[derive(Debug, PartialEq)]
pub enum Type {
    Int,
    Float,
    Bool,
    String,
    Null,
    Array(Box<Type>),
    Mapping(Box<Type>, Box<Type>),
    Unknown,
}

/// Operators. `Neg` is the only unary one.
#[derive(Debug, Clone, Copy, PartialEq, Eq, Structural)]
pub enum Op {
    Add,
    Sub,
    Mul,
    Div,
    Eq,
    And,
    Or,
    Neg,
}

/// A literal value. A number keeps its decimal literal text
/// (`digits` or `digits.digits`).
#[derive(Debug, PartialEq)]
pub enum Value {
    Number(String),
    Boolean(bool),
    String(String),
    Null,
    Array(Vec<Value>),
    Mapping(Vec<(String, Value)>),
}

#[derive(Debug, PartialEq)]
pub enum Expr {
    Literal(Value, Span),
    Variable(String, Span),
    Array(Vec<Expr>, Span),
    Mapping(Vec<(String, Expr)>, Span),
    Index { target: Box<Expr>, index: Box<Expr>, span: Span },
    Call { name: String, arguments: Vec<Expr>, span: Span },
    Unary { op: Op, expr: Box<Expr>, span: Span },
    Binary { left: Box<Expr>, op: Op, right: Box<Expr>, span: Span },
}

#[derive(Debug, PartialEq)]
pub enum Stmt {
    Block(Vec<Stmt>),
    Let { name: String, annotation: Option<Type>, value: Expr, span: Span },
    Assign { name: String, value: Expr, span: Span },
    Print(Expr),
    Assert(Expr),
    Return { value: Option<Expr>, span: Span },
    Function {
        name: String,
        parameters: Vec<(String, Option<Type>)>,
        return_type: Option<Type>,
        body: Vec<Stmt>,
        span: Span,
    },
    Conditional {
        condition: Expr,
        then_branch: Vec<Stmt>,
        otherwise_branch: Option<Vec<Stmt>>,
        span: Span,
    },
    RepeatLoop { iterations: Expr, body: Vec<Stmt>, span: Span },
    CreateWindow { title: String, width: Expr, height: Expr, span: Span },
}

/// The span of an expression.
pub open spec fn expr_span(e: Expr) -> Span {
    match e {
        Expr::Literal(_, s) => s,
        Expr::Variable(_, s) => s,
        Expr::Array(_, s) => s,
        Expr::Mapping(_, s) => s,
        Expr::Index { span, .. } => span,
        Expr::Call { span, .. } => span,
        Expr::Unary { span, .. } => span,
        Expr::Binary { span, .. } => span,
    }
}

/// The spelling of a type annotation.
pub open spec fn type_text(t: Type) -> Seq<char>
    decreases t,
{
    match t {
        Type::Int => "Int"@,
        Type::Float => "Float"@,
        Type::Bool => "Bool"@,
        Type::String => "String"@,
        Type::Null => "Null"@,
        Type::Array(e) => "Array<"@ + type_text(*e) + ">"@,
        Type::Mapping(k, v) => "Map<"@ + type_text(*k) + ", "@ + type_text(*v) + ">"@,
        Type::Unknown => "Unknown"@,
    }
}

impl Expr {
    pub fn span(&self) -> (s: Span)
        ensures
            s == expr_span(*self),
    {
        match self {
            Expr::Literal(_, s) => *s,
            Expr::Variable(_, s) => *s,
            Expr::Array(_, s) => *s,
            Expr::Mapping(_, s) => *s,
            Expr::Index { span, .. } => *span,
            Expr::Call { span, .. } => *span,
            Expr::Unary { span, .. } => *span,
            Expr::Binary { span, .. } => *span,
        }
    }
}

impl Type {
    /// The annotation as it is written in source.
    pub fn display(&self) -> (s: String)
        ensures
            s@ == type_text(*self),
        decreases self,
    {
        match self {
            Type::Int => crate::text::string_of("Int"),
            Type::Float => crate::text::string_of("Float"),
            Type::Bool => crate::text::string_of("Bool"),
            Type::String => crate::text::string_of("String"),
            Type::Null => crate::text::string_of("Null"),
            Type::Array(e) => {
                let mut s = crate::text::string_of("Array<");
                let inner = e.display();
                crate::text::push_str(&mut s, inner.as_str());
                crate::text::push_str(&mut s, ">");
                s
            },
            Type::Mapping(k, v) => {
                let mut s = crate::text::string_of("Map<");
                let a = k.display();
                crate::text::push_str(&mut s, a.as_str());
                crate::text::push_str(&mut s, ", ");
                let b = v.display();
                crate::text::push_str(&mut s, b.as_str());
                crate::text::push_str(&mut s, ">");
                s
            },
            Type::Unknown => crate::text::string_of("Unknown"),
        }
    }

    /// A copy equal to `self`.
    pub fn duplicate(&self) -> (r: Type)
        ensures
            r == *self,
        decreases self,
    {
        match self {
            Type::Int => Type::Int,
            Type::Float => Type::Float,
            Type::Bool => Type::Bool,
            Type::String => Type::String,
            Type::Null => Type::Null,
            Type::Array(e) => Type::Array(Box::new(e.duplicate())),
            Type::Mapping(k, v) => Type::Mapping(Box::new(k.duplicate()), Box::new(v.duplicate())),
            Type::Unknown => Type::Unknown,
        }
    }

    /// Whether two annotations are the same type.
    pub fn same(&self, other: &Type) -> (r: bool)
        ensures
            r == (*self == *other),
        decreases self,
    {
        match (self, other) {
            (Type::Int, Type::Int) => true,
            (Type::Float, Type::Float) => true,
            (Type::Bool, Type::Bool) => true,
            (Type::String, Type::String) => true,
            (Type::Null, Type::Null) => true,
            (Type::Unknown, Type::Unknown) => true,
            (Type::Array(a), Type::Array(b)) => a.same(b),
            (Type::Mapping(k1, v1), Type::Mapping(k2, v2)) => k1.same(k2) && v1.same(v2),
            _ => false,
        }
    }
}

/// The mathematical content of a literal value.
pub enum ValueModel {
    Number(Seq<char>),
    Boolean(bool),
    Text(Seq<char>),
    Null,
    Array(Seq<ValueModel>),
    Mapping(Seq<(Seq<char>, ValueModel)>),
}

pub open spec fn value_model(v: Value) -> ValueModel
    decreases v, 1nat,
{
    match v {
        Value::Number(t) => ValueModel::Number(t@),
        Value::Boolean(b) => ValueModel::Boolean(b),
        Value::String(s) => ValueModel::Text(s@),
        Value::Null => ValueModel::Null,
        Value::Array(xs) => ValueModel::Array(values_model(xs@)),
        Value::Mapping(xs) => ValueModel::Mapping(entries_model(xs@)),
    }
}

pub open spec fn values_model(xs: Seq<Value>) -> Seq<ValueModel>
    decreases xs, 0nat,
{
    if xs.len() == 0 {
        Seq::empty()
    } else {
        values_model(xs.drop_last()).push(value_model(xs.last()))
    }
}

pub open spec fn entries_model(xs: Seq<(String, Value)>) -> Seq<(Seq<char>, ValueModel)>
    decreases xs, 0nat,
{
    if xs.len() == 0 {
        Seq::empty()
    } else {
        entries_model(xs.drop_last()).push((xs.last().0@, value_model(xs.last().1)))
    }
}

/// The content of an expression: names and texts as characters, lists as
/// sequences.
pub enum ExprModel {
    Literal(ValueModel, Span),
    Variable(Seq<char>, Span),
    Array(Seq<ExprModel>, Span),
    Mapping(Seq<(Seq<char>, ExprModel)>, Span),
    Index(Box<ExprModel>, Box<ExprModel>, Span),
    Call(Seq<char>, Seq<ExprModel>, Span),
    Unary(Op, Box<ExprModel>, Span),
    Binary(Box<ExprModel>, Op, Box<ExprModel>, Span),
}

/// The span of an expression's content.
pub open spec fn model_span(e: ExprModel) -> Span {
    match e {
        ExprModel::Literal(_, s) => s,
        ExprModel::Variable(_, s) => s,
        ExprModel::Array(_, s) => s,
        ExprModel::Mapping(_, s) => s,
        ExprModel::Index(_, _, s) => s,
        ExprModel::Call(_, _, s) => s,
        ExprModel::Unary(_, _, s) => s,
        ExprModel::Binary(_, _, _, s) => s,
    }
}

pub open spec fn expr_model(e: Expr) -> ExprModel
    decreases e, 1nat,
{
    match e {
        Expr::Literal(v, s) => ExprModel::Literal(value_model(v), s),
        Expr::Variable(n, s) => ExprModel::Variable(n@, s),
        Expr::Array(xs, s) => ExprModel::Array(exprs_model(xs@), s),
        Expr::Mapping(xs, s) => ExprModel::Mapping(expr_entries_model(xs@), s),
        Expr::Index { target, index, span } => ExprModel::Index(
            Box::new(expr_model(*target)),
            Box::new(expr_model(*index)),
            span,
        ),
        Expr::Call { name, arguments, span } => ExprModel::Call(name@, exprs_model(arguments@), span),
        Expr::Unary { op, expr, span } => ExprModel::Unary(op, Box::new(expr_model(*expr)), span),
        Expr::Binary { left, op, right, span } => ExprModel::Binary(
            Box::new(expr_model(*left)),
            op,
            Box::new(expr_model(*right)),
            span,
        ),
    }
}

pub open spec fn exprs_model(xs: Seq<Expr>) -> Seq<ExprModel>
    decreases xs, 0nat,
{
    if xs.len() == 0 {
        Seq::empty()
    } else {
        exprs_model(xs.drop_last()).push(expr_model(xs.last()))
    }
}

pub open spec fn expr_entries_model(xs: Seq<(String, Expr)>) -> Seq<(Seq<char>, ExprModel)>
    decreases xs, 0nat,
{
    if xs.len() == 0 {
        Seq::empty()
    } else {
        expr_entries_model(xs.drop_last()).push((xs.last().0@, expr_model(xs.last().1)))
    }
}

/// The content of a statement.
pub enum StmtModel {
    Block(Seq<StmtModel>),
    Let(Seq<char>, Option<Type>, ExprModel, Span),
    Assign(Seq<char>, ExprModel, Span),
    Print(ExprModel),
    Assert(ExprModel),
    Return(Option<ExprModel>, Span),
    Function(Seq<char>, Seq<(Seq<char>, Option<Type>)>, Option<Type>, Seq<StmtModel>, Span),
    Conditional(ExprModel, Seq<StmtModel>, Option<Seq<StmtModel>>, Span),
    RepeatLoop(ExprModel, Seq<StmtModel>, Span),
    CreateWindow(Seq<char>, ExprModel, ExprModel, Span),
}

pub open spec fn parameters_model(ps: Seq<(String, Option<Type>)>) -> Seq<(Seq<char>, Option<Type>)> {
    ps.map_values(|p: (String, Option<Type>)| (p.0@, p.1))
}

pub open spec fn stmt_model(s: Stmt) -> StmtModel
    decreases s, 1nat,
{
    match s {
        Stmt::Block(xs) => StmtModel::Block(stmts_model(xs@)),
        Stmt::Let { name, annotation, value, span } => StmtModel::Let(name@, annotation, expr_model(value), span),
        Stmt::Assign { name, value, span } => StmtModel::Assign(name@, expr_model(value), span),
        Stmt::Print(e) => StmtModel::Print(expr_model(e)),
        Stmt::Assert(e) => StmtModel::Assert(expr_model(e)),
        Stmt::Return { value, span } => StmtModel::Return(
            match value {
                Some(e) => Some(expr_model(e)),
                None => None,
            },
            span,
        ),
        Stmt::Function { name, parameters, return_type, body, span } => StmtModel::Function(
            name@,
            parameters_model(parameters@),
            return_type,
            stmts_model(body@),
            span,
        ),
        Stmt::Conditional { condition, then_branch, otherwise_branch, span } => StmtModel::Conditional(
            expr_model(condition),
            stmts_model(then_branch@),
            match otherwise_branch {
                Some(o) => Some(stmts_model(o@)),
                None => None,
            },
            span,
        ),
        Stmt::RepeatLoop { iterations, body, span } => StmtModel::RepeatLoop(
            expr_model(iterations),
            stmts_model(body@),
            span,
        ),
        Stmt::CreateWindow { title, width, height, span } => StmtModel::CreateWindow(
            title@,
            expr_model(width),
            expr_model(height),
            span,
        ),
    }
}

pub open spec fn stmts_model(xs: Seq<Stmt>) -> Seq<StmtModel>
    decreases xs, 0nat,
{
    if xs.len() == 0 {
        Seq::empty()
    } else {
        stmts_model(xs.drop_last()).push(stmt_model(xs.last()))
    }
}

/// An expression's content has the expression's span.
pub proof fn lemma_model_span(e: Expr)
    ensures
        model_span(expr_model(e)) == expr_span(e),
{
}

impl Value {
    /// A copy with the same content.
    #[verifier::loop_isolation(false)]
    pub fn duplicate(&self) -> (r: Value)
        ensures
            value_model(r) == value_model(*self),
        decreases self,
    {
        match self {
            Value::Number(t) => Value::Number(copy_string(t)),
            Value::Boolean(b) => Value::Boolean(*b),
            Value::String(s) => Value::String(copy_string(s)),
            Value::Null => Value::Null,
            Value::Array(xs) => {
                let mut out: Vec<Value> = Vec::new();
                let mut i: usize = 0;
                while i < xs.len()
                    invariant
                        i <= xs.len(),
                        values_model(out@) == values_model(xs@.take(i as int)),
                        out@.len() == i,
                    decreases xs.len() - i,
                {
                    proof {
                        assert(decreases_to!(xs => xs@));
                        assert(decreases_to!(xs@ => xs@[i as int]));
                    }
                    let v = xs[i].duplicate();
                    let ghost before = out@;
                    out.push(v);
                    proof {
                        assert(out@.drop_last() =~= before);
                        assert(xs@.take(i + 1).drop_last() =~= xs@.take(i as int));
                    }
                    i += 1;
                }
                proof {
                    assert(xs@.take(xs@.len() as int) =~= xs@);
                }
                Value::Array(out)
            },
            Value::Mapping(xs) => {
                let mut out: Vec<(String, Value)> = Vec::new();
                let mut i: usize = 0;
                while i < xs.len()
                    invariant
                        i <= xs.len(),
                        entries_model(out@) == entries_model(xs@.take(i as int)),
                        out@.len() == i,
                    decreases xs.len() - i,
                {
                    proof {
                        assert(decreases_to!(xs => xs@));
                        assert(decreases_to!(xs@ => xs@[i as int]));
                        assert(decreases_to!(xs@[i as int] => xs@[i as int].1));
                    }
                    let k = copy_string(&xs[i].0);
                    let v = xs[i].1.duplicate();
                    let ghost before = out@;
                    out.push((k, v));
                    proof {
                        assert(out@.drop_last() =~= before);
                        assert(xs@.take(i + 1).drop_last() =~= xs@.take(i as int));
                    }
                    i += 1;
                }
                proof {
                    assert(xs@.take(xs@.len() as int) =~= xs@);
                }
                Value::Mapping(out)
            },
        }
    }
}

impl Clone for Type {
    fn clone(&self) -> (r: Self)
        ensures
            r == *self,
    {
        self.duplicate()
    }
}

} // verus!
