use vstd::prelude::*;

use crate::cairo_type::{render, StructType, Type, TypeView};
use crate::decimal::{dec, decimal};

verus! {

/// A literal of a primitive type.
pub enum Literal {
    UInt8(u8),
    UInt16(u16),
    UInt32(u32),
    UInt64(u64),
    UInt128(u128),
    UInt256(u128),
    Felt252(u128),
    USize(u32),
    Str(String),
    Boolean(bool),
    Void,
}

/// A reference to a bound identifier, with the type it was bound at.
pub struct Variable {
    pub value: String,
    pub variable_type: Type,
}

/// A struct value built field by field.
pub struct StructLiteral {
    pub struct_name: String,
    pub fields: Vec<(String, Expression)>,
}

/// An expression.
pub enum Expression {
    Literal(Literal),
    TupleLiteral(Vec<Expression>),
    StructLiteral(StructLiteral),
    Variable(Variable),
}

/// The static type of a literal.
pub open spec fn literal_type(l: Literal) -> TypeView {
    match l {
        Literal::UInt8(_) => TypeView::U8,
        Literal::UInt16(_) => TypeView::U16,
        Literal::UInt32(_) => TypeView::U32,
        Literal::UInt64(_) => TypeView::U64,
        Literal::UInt128(_) => TypeView::U128,
        Literal::UInt256(_) => TypeView::U256,
        Literal::Felt252(_) => TypeView::Felt252,
        Literal::USize(_) => TypeView::USize,
        Literal::Str(_) => TypeView::Str,
        Literal::Boolean(_) => TypeView::Bool,
        Literal::Void => TypeView::Void,
    }
}

/// The static type of an expression.
pub open spec fn type_of(e: Expression) -> TypeView
    decreases e, 0int,
{
    match e {
        Expression::Literal(l) => literal_type(l),
        Expression::TupleLiteral(es) => TypeView::Tuple(types_of(es@, es@.len() as int)),
        Expression::StructLiteral(s) => TypeView::Struct(
            s.struct_name@,
            field_types_of(s.fields@, s.fields@.len() as int),
        ),
        Expression::Variable(v) => v.variable_type@,
    }
}

/// The types of the first `n` expressions of `es`.
pub open spec fn types_of(es: Seq<Expression>, n: int) -> Seq<TypeView>
    decreases es, n,
{
    if 0 < n <= es.len() {
        types_of(es, n - 1).push(type_of(es[n - 1]))
    } else {
        Seq::empty()
    }
}

/// The names and types of the first `n` field initialisers of `fs`.
pub open spec fn field_types_of(fs: Seq<(String, Expression)>, n: int) -> Seq<(Seq<char>, TypeView)>
    decreases fs, n,
{
    if 0 < n <= fs.len() {
        field_types_of(fs, n - 1).push((fs[n - 1].0@, type_of(fs[n - 1].1)))
    } else {
        Seq::empty()
    }
}

/// The text of a literal.
pub open spec fn render_literal(l: Literal) -> Seq<char> {
    match l {
        Literal::UInt8(v) => dec(v as nat) + "u8"@,
        Literal::UInt16(v) => dec(v as nat) + "u16"@,
        Literal::UInt32(v) => dec(v as nat) + "u32"@,
        Literal::UInt64(v) => dec(v as nat) + "u64"@,
        Literal::UInt128(v) => dec(v as nat) + "u128"@,
        Literal::UInt256(v) => dec(v as nat) + "u256"@,
        Literal::Felt252(v) => dec(v as nat) + "felt252"@,
        Literal::USize(v) => dec(v as nat) + "usize"@,
        Literal::Str(s) => "\""@ + s@ + "\""@,
        Literal::Boolean(b) => if b {
            "true"@
        } else {
            "false"@
        },
        Literal::Void => "()"@,
    }
}

/// The text of an expression.
pub open spec fn render_expr(e: Expression) -> Seq<char>
    decreases e, 0int,
{
    match e {
        Expression::Literal(l) => render_literal(l),
        Expression::TupleLiteral(es) => "("@ + render_exprs(es@, es@.len() as int) + ")"@,
        Expression::StructLiteral(s) => s.struct_name@ + " { "@ + render_inits(
            s.fields@,
            s.fields@.len() as int,
        ) + " }"@,
        Expression::Variable(v) => v.value@,
    }
}

/// The first `n` expressions of `es`, separated by `" , "`.
pub open spec fn render_exprs(es: Seq<Expression>, n: int) -> Seq<char>
    decreases es, n,
{
    if 0 < n <= es.len() {
        if n == 1 {
            render_expr(es[0])
        } else {
            render_exprs(es, n - 1) + " , "@ + render_expr(es[n - 1])
        }
    } else {
        Seq::empty()
    }
}

/// The first `n` field initialisers of `fs` as `name: value`, separated by `", "`.
pub open spec fn render_inits(fs: Seq<(String, Expression)>, n: int) -> Seq<char>
    decreases fs, n,
{
    if 0 < n <= fs.len() {
        if n == 1 {
            fs[0].0@ + ": "@ + render_expr(fs[0].1)
        } else {
            render_inits(fs, n - 1) + ", "@ + fs[n - 1].0@ + ": "@ + render_expr(fs[n - 1].1)
        }
    } else {
        Seq::empty()
    }
}

/// The variables an expression refers to, in order of appearance.
pub open spec fn refs(e: Expression) -> Seq<Seq<char>>
    decreases e, 0int,
{
    match e {
        Expression::Literal(_) => Seq::empty(),
        Expression::TupleLiteral(es) => refs_list(es@, es@.len() as int),
        Expression::StructLiteral(s) => refs_fields(s.fields@, s.fields@.len() as int),
        Expression::Variable(v) => seq![v.value@],
    }
}

/// The variables the first `n` expressions of `es` refer to, in order.
pub open spec fn refs_list(es: Seq<Expression>, n: int) -> Seq<Seq<char>>
    decreases es, n,
{
    if 0 < n <= es.len() {
        refs_list(es, n - 1) + refs(es[n - 1])
    } else {
        Seq::empty()
    }
}

/// The variables the first `n` field initialisers of `fs` refer to, in order.
pub open spec fn refs_fields(fs: Seq<(String, Expression)>, n: int) -> Seq<Seq<char>>
    decreases fs, n,
{
    if 0 < n <= fs.len() {
        refs_fields(fs, n - 1) + refs(fs[n - 1].1)
    } else {
        Seq::empty()
    }
}

/// The variables a statement refers to, in order.
pub open spec fn statement_refs(s: Statement) -> Seq<Seq<char>> {
    match s {
        Statement::Declaration(d) => refs(d.value),
        Statement::ExpressionStatement(e) => refs(e.expression),
    }
}

/// The variables the first `n` statements refer to, in order.
pub open spec fn block_refs(ss: Seq<Statement>, n: int) -> Seq<Seq<char>>
    decreases n,
{
    if 0 < n <= ss.len() {
        block_refs(ss, n - 1) + statement_refs(ss[n - 1])
    } else {
        Seq::empty()
    }
}

pub proof fn lemma_refs_list_push(es: Seq<Expression>, e: Expression, k: int)
    requires
        0 <= k <= es.len(),
    ensures
        refs_list(es.push(e), k) == refs_list(es, k),
    decreases k,
{
    if k > 0 {
        lemma_refs_list_push(es, e, k - 1);
        assert(es.push(e)[k - 1] == es[k - 1]);
        assert(refs_list(es.push(e), k) == refs_list(es.push(e), k - 1) + refs(es.push(e)[k - 1]));
        assert(refs_list(es, k) == refs_list(es, k - 1) + refs(es[k - 1]));
    } else {
        assert(refs_list(es.push(e), k) == Seq::<Seq<char>>::empty());
        assert(refs_list(es, k) == Seq::<Seq<char>>::empty());
    }
}

pub proof fn lemma_refs_fields_push(fs: Seq<(String, Expression)>, f: (String, Expression), k: int)
    requires
        0 <= k <= fs.len(),
    ensures
        refs_fields(fs.push(f), k) == refs_fields(fs, k),
    decreases k,
{
    if k > 0 {
        lemma_refs_fields_push(fs, f, k - 1);
        assert(fs.push(f)[k - 1] == fs[k - 1]);
        assert(refs_fields(fs.push(f), k) == refs_fields(fs.push(f), k - 1) + refs(
            fs.push(f)[k - 1].1,
        ));
        assert(refs_fields(fs, k) == refs_fields(fs, k - 1) + refs(fs[k - 1].1));
    } else {
        assert(refs_fields(fs.push(f), k) == Seq::<Seq<char>>::empty());
        assert(refs_fields(fs, k) == Seq::<Seq<char>>::empty());
    }
}

pub proof fn lemma_block_refs_push(ss: Seq<Statement>, st: Statement, k: int)
    requires
        0 <= k <= ss.len(),
    ensures
        block_refs(ss.push(st), k) == block_refs(ss, k),
    decreases k,
{
    if k > 0 {
        lemma_block_refs_push(ss, st, k - 1);
        assert(ss.push(st)[k - 1] == ss[k - 1]);
        assert(block_refs(ss.push(st), k) == block_refs(ss.push(st), k - 1) + statement_refs(
            ss.push(st)[k - 1],
        ));
        assert(block_refs(ss, k) == block_refs(ss, k - 1) + statement_refs(ss[k - 1]));
    } else {
        assert(block_refs(ss.push(st), k) == Seq::<Seq<char>>::empty());
        assert(block_refs(ss, k) == Seq::<Seq<char>>::empty());
    }
}

impl Literal {
    /// The text of this literal.
    pub fn to_cairo(&self) -> (r: String)
        ensures
            r@ == render_literal(*self),
    {
        match self {
            Literal::UInt8(v) => {
                let mut r = decimal(*v as u128);
                r.append("u8");
                r
            },
            Literal::UInt16(v) => {
                let mut r = decimal(*v as u128);
                r.append("u16");
                r
            },
            Literal::UInt32(v) => {
                let mut r = decimal(*v as u128);
                r.append("u32");
                r
            },
            Literal::UInt64(v) => {
                let mut r = decimal(*v as u128);
                r.append("u64");
                r
            },
            Literal::UInt128(v) => {
                let mut r = decimal(*v);
                r.append("u128");
                r
            },
            Literal::UInt256(v) => {
                let mut r = decimal(*v);
                r.append("u256");
                r
            },
            Literal::Felt252(v) => {
                let mut r = decimal(*v);
                r.append("felt252");
                r
            },
            Literal::USize(v) => {
                let mut r = decimal(*v as u128);
                r.append("usize");
                r
            },
            Literal::Str(s) => {
                let mut r = String::from_str("\"");
                r.append(s.as_str());
                r.append("\"");
                r
            },
            Literal::Boolean(b) => if *b {
                String::from_str("true")
            } else {
                String::from_str("false")
            },
            Literal::Void => String::from_str("()"),
        }
    }
}

impl Expression {
    /// The text of this expression.
    pub fn to_cairo(&self) -> (r: String)
        ensures
            r@ == render_expr(*self),
        decreases self, 1int,
    {
        match self {
            Expression::Literal(l) => l.to_cairo(),
            Expression::TupleLiteral(es) => {
                let mut r = String::from_str("(");
                let inner = join_exprs(es);
                r.append(inner.as_str());
                r.append(")");
                r
            },
            Expression::StructLiteral(s) => {
                let mut r = s.struct_name.clone();
                r.append(" { ");
                let inner = join_inits(&s.fields);
                r.append(inner.as_str());
                r.append(" }");
                r
            },
            Expression::Variable(v) => v.value.clone(),
        }
    }
}

fn join_exprs(es: &Vec<Expression>) -> (r: String)
    ensures
        r@ == render_exprs(es@, es@.len() as int),
    decreases es,
{
    let mut out = String::new();
    let mut i: usize = 0;
    while i < es.len()
        invariant
            0 <= i <= es@.len(),
            out@ == render_exprs(es@, i as int),
        decreases es@.len() - i,
    {
        if i > 0 {
            out.append(" , ");
        }
        let s = es[i].to_cairo();
        out.append(s.as_str());
        i = i + 1;
    }
    out
}

fn join_inits(fs: &Vec<(String, Expression)>) -> (r: String)
    ensures
        r@ == render_inits(fs@, fs@.len() as int),
    decreases fs,
{
    let mut out = String::new();
    let mut i: usize = 0;
    while i < fs.len()
        invariant
            0 <= i <= fs@.len(),
            out@ == render_inits(fs@, i as int),
        decreases fs@.len() - i,
    {
        if i > 0 {
            out.append(", ");
        }
        let field = &fs[i];
        assert(decreases_to!(fs => fs@[i as int]));
        out.append(field.0.as_str());
        out.append(": ");
        let s = field.1.to_cairo();
        out.append(s.as_str());
        i = i + 1;
    }
    out
}

/// `let [mut] name: type = value;`
pub struct Declaration {
    pub mutable: bool,
    pub variable_name: String,
    pub variable_type: Type,
    pub value: Expression,
}

/// An expression evaluated for its effect.
pub struct ExpressionStatement {
    pub expression: Expression,
    pub add_semicolon: bool,
}

/// A statement.
pub enum Statement {
    Declaration(Declaration),
    ExpressionStatement(ExpressionStatement),
}

/// `const name: type = value;` at module level.
pub struct ConstDeclaration {
    pub variable_name: String,
    pub variable_type: Type,
    pub value: Expression,
}

/// A sequence of statements.
pub struct StatementBlock {
    pub statements: Vec<Statement>,
}

/// A function with its signature and body.
pub struct FunctionDefinition {
    pub return_type: Type,
    pub function_name: String,
    pub arguments: Vec<(String, Type)>,
    pub body: StatementBlock,
}

/// A struct declaration emitted from the global registry.
pub struct StructDefinition {
    pub struct_type: StructType,
}

/// A whole generated program: constants, struct declarations, then the
/// entry-point function.
pub struct Program {
    pub constants: Vec<ConstDeclaration>,
    pub structs: Vec<StructDefinition>,
    pub main_function: FunctionDefinition,
}

pub open spec fn render_statement(s: Statement) -> Seq<char> {
    match s {
        Statement::Declaration(d) => "let "@ + (if d.mutable {
            "mut"@
        } else {
            Seq::empty()
        }) + " "@ + d.variable_name@ + ": "@ + render(d.variable_type@) + " = "@ + render_expr(
            d.value,
        ) + " ; "@,
        Statement::ExpressionStatement(e) => render_expr(e.expression) + (if e.add_semicolon {
            " ; "@
        } else {
            Seq::empty()
        }),
    }
}

pub open spec fn render_const(c: ConstDeclaration) -> Seq<char> {
    "const "@ + c.variable_name@ + ": "@ + render(c.variable_type@) + " = "@ + render_expr(c.value)
        + ";"@
}

/// The first `n` statements, one per line.
pub open spec fn render_statements(s: Seq<Statement>, n: int) -> Seq<char>
    decreases n,
{
    if 0 < n <= s.len() {
        if n == 1 {
            render_statement(s[0])
        } else {
            render_statements(s, n - 1) + "\n"@ + render_statement(s[n - 1])
        }
    } else {
        Seq::empty()
    }
}

/// The first `n` arguments as `name: type`, separated by `" ,"`.
pub open spec fn render_arguments(a: Seq<(String, Type)>, n: int) -> Seq<char>
    decreases n,
{
    if 0 < n <= a.len() {
        if n == 1 {
            a[0].0@ + ": "@ + render(a[0].1@)
        } else {
            render_arguments(a, n - 1) + " ,"@ + a[n - 1].0@ + ": "@ + render(a[n - 1].1@)
        }
    } else {
        Seq::empty()
    }
}

pub open spec fn render_function(f: FunctionDefinition) -> Seq<char> {
    "fn "@ + f.function_name@ + "("@ + render_arguments(f.arguments@, f.arguments@.len() as int)
        + ") -> "@ + render(f.return_type@) + " {\n"@ + render_statements(
        f.body.statements@,
        f.body.statements@.len() as int,
    ) + "\n}\n"@
}

/// The first `n` fields, each as a `name: type,` line, one per line.
pub open spec fn render_field_lines(a: Seq<(String, Type)>, n: int) -> Seq<char>
    decreases n,
{
    if 0 < n <= a.len() {
        if n == 1 {
            a[0].0@ + ": "@ + render(a[0].1@) + ","@
        } else {
            render_field_lines(a, n - 1) + "\n"@ + a[n - 1].0@ + ": "@ + render(a[n - 1].1@) + ","@
        }
    } else {
        Seq::empty()
    }
}

pub open spec fn render_struct(s: StructDefinition) -> Seq<char> {
    "#[derive(Drop)]\nstruct "@ + s.struct_type.struct_name@ + " {\n"@ + render_field_lines(
        s.struct_type.types@,
        s.struct_type.types@.len() as int,
    ) + "\n}\n"@
}

/// The first `n` constant declarations, each on its own line.
pub open spec fn render_consts(c: Seq<ConstDeclaration>, n: int) -> Seq<char>
    decreases n,
{
    if 0 < n <= c.len() {
        render_consts(c, n - 1) + render_const(c[n - 1]) + "\n"@
    } else {
        Seq::empty()
    }
}

/// The first `n` struct declarations.
pub open spec fn render_structs(s: Seq<StructDefinition>, n: int) -> Seq<char>
    decreases n,
{
    if 0 < n <= s.len() {
        render_structs(s, n - 1) + render_struct(s[n - 1])
    } else {
        Seq::empty()
    }
}

pub open spec fn render_program(p: Program) -> Seq<char> {
    render_consts(p.constants@, p.constants@.len() as int) + render_structs(
        p.structs@,
        p.structs@.len() as int,
    ) + render_function(p.main_function)
}

impl Statement {
    pub fn to_cairo(&self) -> (r: String)
        ensures
            r@ == render_statement(*self),
    {
        match self {
            Statement::Declaration(d) => {
                let mut r = String::from_str("let ");
                if d.mutable {
                    r.append("mut");
                }
                r.append(" ");
                r.append(d.variable_name.as_str());
                r.append(": ");
                let t = d.variable_type.to_cairo();
                r.append(t.as_str());
                r.append(" = ");
                let v = d.value.to_cairo();
                r.append(v.as_str());
                r.append(" ; ");
                proof {
                    if !d.mutable {
                        assert("let "@ + Seq::<char>::empty() =~= "let "@);
                    }
                }
                r
            },
            Statement::ExpressionStatement(e) => {
                let mut r = e.expression.to_cairo();
                if e.add_semicolon {
                    r.append(" ; ");
                } else {
                    assert(r@ + Seq::<char>::empty() =~= r@);
                }
                r
            },
        }
    }
}

impl ConstDeclaration {
    pub fn to_cairo(&self) -> (r: String)
        ensures
            r@ == render_const(*self),
    {
        let mut r = String::from_str("const ");
        r.append(self.variable_name.as_str());
        r.append(": ");
        let t = self.variable_type.to_cairo();
        r.append(t.as_str());
        r.append(" = ");
        let v = self.value.to_cairo();
        r.append(v.as_str());
        r.append(";");
        r
    }
}

impl StatementBlock {
    pub fn to_cairo(&self) -> (r: String)
        ensures
            r@ == render_statements(self.statements@, self.statements@.len() as int),
    {
        let mut out = String::new();
        let mut i: usize = 0;
        while i < self.statements.len()
            invariant
                0 <= i <= self.statements@.len(),
                out@ == render_statements(self.statements@, i as int),
            decreases self.statements@.len() - i,
        {
            if i > 0 {
                out.append("\n");
            }
            let s = self.statements[i].to_cairo();
            out.append(s.as_str());
            i = i + 1;
        }
        out
    }
}

impl FunctionDefinition {
    pub fn to_cairo(&self) -> (r: String)
        ensures
            r@ == render_function(*self),
    {
        let mut args = String::new();
        let mut i: usize = 0;
        while i < self.arguments.len()
            invariant
                0 <= i <= self.arguments@.len(),
                args@ == render_arguments(self.arguments@, i as int),
            decreases self.arguments@.len() - i,
        {
            if i > 0 {
                args.append(" ,");
            }
            args.append(self.arguments[i].0.as_str());
            args.append(": ");
            let t = self.arguments[i].1.to_cairo();
            args.append(t.as_str());
            i = i + 1;
        }
        let mut r = String::from_str("fn ");
        r.append(self.function_name.as_str());
        r.append("(");
        r.append(args.as_str());
        r.append(") -> ");
        let ret = self.return_type.to_cairo();
        r.append(ret.as_str());
        r.append(" {\n");
        let body = self.body.to_cairo();
        r.append(body.as_str());
        r.append("\n}\n");
        r
    }
}

impl StructDefinition {
    pub fn to_cairo(&self) -> (r: String)
        ensures
            r@ == render_struct(*self),
    {
        let fields = &self.struct_type.types;
        let mut lines = String::new();
        let mut i: usize = 0;
        while i < fields.len()
            invariant
                0 <= i <= fields@.len(),
                lines@ == render_field_lines(fields@, i as int),
            decreases fields@.len() - i,
        {
            if i > 0 {
                lines.append("\n");
            }
            lines.append(fields[i].0.as_str());
            lines.append(": ");
            let t = fields[i].1.to_cairo();
            lines.append(t.as_str());
            lines.append(",");
            i = i + 1;
        }
        let mut r = String::from_str("#[derive(Drop)]\nstruct ");
        r.append(self.struct_type.struct_name.as_str());
        r.append(" {\n");
        r.append(lines.as_str());
        r.append("\n}\n");
        r
    }
}

impl Program {
    /// The complete source text: constants, struct declarations, then the
    /// entry-point function.
    pub fn render(&self) -> (r: String)
        ensures
            r@ == render_program(*self),
    {
        let mut out = String::new();
        let mut i: usize = 0;
        while i < self.constants.len()
            invariant
                0 <= i <= self.constants@.len(),
                out@ == render_consts(self.constants@, i as int),
            decreases self.constants@.len() - i,
        {
            let c = self.constants[i].to_cairo();
            out.append(c.as_str());
            out.append("\n");
            i = i + 1;
        }
        let mut j: usize = 0;
        while j < self.structs.len()
            invariant
                0 <= j <= self.structs@.len(),
                out@ == render_consts(self.constants@, self.constants@.len() as int) + render_structs(
                    self.structs@,
                    j as int,
                ),
            decreases self.structs@.len() - j,
        {
            let s = self.structs[j].to_cairo();
            out.append(s.as_str());
            assert(out@ =~= render_consts(self.constants@, self.constants@.len() as int)
                + render_structs(self.structs@, j + 1));
            j = j + 1;
        }
        let f = self.main_function.to_cairo();
        out.append(f.as_str());
        out
    }
}

} // verus!
