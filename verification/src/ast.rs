use vstd::prelude::*;

verus! {

/// Width and signedness suffix of an integer literal, such as `42u8`.
#[derive(Debug, Clone, Copy, PartialEq, Eq)]
pub enum IntSuffix {
    I8,
    I16,
    I32,
    I64,
    U8,
    U16,
    U32,
    U64,
}

impl IntSuffix {
    /// Number of bits of the integer type the suffix names.
    pub open spec fn spec_bit_width(self) -> u32 {
        match self {
            IntSuffix::I8 | IntSuffix::U8 => 8,
            IntSuffix::I16 | IntSuffix::U16 => 16,
            IntSuffix::I32 | IntSuffix::U32 => 32,
            IntSuffix::I64 | IntSuffix::U64 => 64,
        }
    }

    /// Whether the suffix names a signed type.
    pub open spec fn spec_is_signed(self) -> bool {
        match self {
            IntSuffix::I8 | IntSuffix::I16 | IntSuffix::I32 | IntSuffix::I64 => true,
            _ => false,
        }
    }

    /// The name of the type: `i8`, `u16`, ...
    pub open spec fn spec_type_name(self) -> Seq<char> {
        match self {
            IntSuffix::I8 => "i8"@,
            IntSuffix::I16 => "i16"@,
            IntSuffix::I32 => "i32"@,
            IntSuffix::I64 => "i64"@,
            IntSuffix::U8 => "u8"@,
            IntSuffix::U16 => "u16"@,
            IntSuffix::U32 => "u32"@,
            IntSuffix::U64 => "u64"@,
        }
    }

    pub fn type_str(&self) -> (r: &'static str)
        ensures
            r@ == self.spec_type_name(),
    {
        match self {
            IntSuffix::I8 => "i8",
            IntSuffix::I16 => "i16",
            IntSuffix::I32 => "i32",
            IntSuffix::I64 => "i64",
            IntSuffix::U8 => "u8",
            IntSuffix::U16 => "u16",
            IntSuffix::U32 => "u32",
            IntSuffix::U64 => "u64",
        }
    }

    pub fn bit_width(&self) -> (r: u32)
        ensures
            r == self.spec_bit_width(),
    {
        match self {
            IntSuffix::I8 | IntSuffix::U8 => 8,
            IntSuffix::I16 | IntSuffix::U16 => 16,
            IntSuffix::I32 | IntSuffix::U32 => 32,
            IntSuffix::I64 | IntSuffix::U64 => 64,
        }
    }

    pub fn is_signed(&self) -> (r: bool)
        ensures
            r == self.spec_is_signed(),
    {
        match self {
            IntSuffix::I8 | IntSuffix::I16 | IntSuffix::I32 | IntSuffix::I64 => true,
            _ => false,
        }
    }
}

/// An integer literal: its source text, its value and its optional suffix.
#[derive(Debug, Clone)]
pub struct IntegerLiteral {
    pub raw: String,
    pub value: u128,
    pub suffix: Option<IntSuffix>,
}

impl IntegerLiteral {
    /// The type of the literal: the suffix's type, `i64` when there is none.
    pub fn type_str(&self) -> (r: &'static str)
        ensures
            r@ == match self.suffix {
                Some(s) => s.spec_type_name(),
                None => "i64"@,
            },
    {
        match &self.suffix {
            Some(s) => s.type_str(),
            None => "i64",
        }
    }

    /// The width of the literal's type: 64 when there is no suffix.
    pub fn bit_width(&self) -> (r: u32)
        ensures
            r == match self.suffix {
                Some(s) => s.spec_bit_width(),
                None => 64,
            },
    {
        match &self.suffix {
            Some(s) => s.bit_width(),
            None => 64,
        }
    }

    /// Whether the literal's type is signed: true when there is no suffix.
    pub fn is_signed(&self) -> (r: bool)
        ensures
            r == match self.suffix {
                Some(s) => s.spec_is_signed(),
                None => true,
            },
    {
        match &self.suffix {
            Some(s) => s.is_signed(),
            None => true,
        }
    }
}

/// A literal value. A float literal is held as the bit pattern of its `f64` value.
#[derive(Debug, Clone)]
pub enum Literal {
    Integer(IntegerLiteral),
    Float(u64),
    String(String),
    Boolean(bool),
    Char(char),
}

impl Literal {
    /// An integer literal from its parts.
    pub fn integer_from_parts(raw: String, value: u128, suffix: Option<IntSuffix>) -> (r: Literal)
        ensures
            r matches Literal::Integer(i) && i.raw == raw && i.value == value && i.suffix == suffix,
    {
        Literal::Integer(IntegerLiteral { raw, value, suffix })
    }

    /// The literal `0` without suffix.
    pub fn integer_zero() -> (r: Literal)
        ensures
            r matches Literal::Integer(i) && i.raw@ == "0"@ && i.value == 0 && i.suffix is None,
    {
        Literal::integer_from_parts("0".to_owned(), 0, None)
    }
}

/// A whole program.
#[derive(Debug)]
pub struct Program {
    pub statements: Vec<Statement>,
}

/// An attribute such as `@no_std` or `@memoize(10)`.
#[derive(Debug)]
pub struct Attribute {
    pub name: String,
    pub arguments: Vec<Expression>,
}

#[derive(Debug)]
pub enum Statement {
    VariableDecl {
        name: String,
        type_annotation: Option<Type>,
        value: Expression,
    },
    ConstDecl {
        attributes: Vec<Attribute>,
        name: String,
        type_params: Vec<TypeParam>,
        type_annotation: Option<Type>,
        value: ConstValue,
        extern_linkage: Option<String>,
    },
    Assignment {
        target: Expression,
        operator: AssignmentOp,
        value: Expression,
    },
    Expression(Expression),
    Return(Option<Expression>),
    Break(Option<Expression>),
    Use {
        is_public: bool,
        path: Vec<String>,
        alias: Option<String>,
    },
    ImplBlock {
        type_params: Vec<TypeParam>,
        trait_name: Option<String>,
        target_type: String,
        methods: Vec<Statement>,
    },
    ImplMethod {
        name: String,
        type_params: Vec<TypeParam>,
        parameters: Vec<Parameter>,
        return_type: Option<Type>,
        body: FunctionBody,
    },
    ForLoop {
        variable: String,
        type_annotation: Option<Type>,
        iterable: Expression,
        body: Vec<Statement>,
    },
    /// `mod name;` (no items: the module is in a file of its own) or `mod name { .. }`.
    ModuleDecl {
        is_public: bool,
        name: String,
        items: Option<Vec<Statement>>,
    },
    IfDef {
        condition: String,
        then_branch: Vec<Statement>,
        else_branch: Option<Vec<Statement>>,
    },
}

#[derive(Debug)]
pub enum ConstValue {
    Type(Type),
    Expression(Expression),
    TableDef(TableDef),
    SystemDef(SystemDef),
    ComposeDef(ComposeDef),
    DatabaseDef(DatabaseDef),
}

#[derive(Debug, Clone, Copy, PartialEq, Eq, Structural)]
pub enum AssignmentOp {
    Assign,
    AddAssign,
    SubAssign,
    MulAssign,
    DivAssign,
    ElementMulAssign,
    ElementDivAssign,
    ModAssign,
}

#[derive(Debug)]
pub enum Expression {
    Literal(Literal),
    Identifier(String),
    BinaryOp {
        left: Box<Expression>,
        operator: BinaryOperator,
        right: Box<Expression>,
    },
    UnaryOp {
        operator: UnaryOperator,
        operand: Box<Expression>,
    },
    Cast {
        value: Box<Expression>,
        to_type: Type,
    },
    Call {
        function: Box<Expression>,
        type_args: Vec<Type>,
        arguments: Vec<Argument>,
    },
    FieldAccess {
        object: Box<Expression>,
        field: String,
    },
    Index {
        object: Box<Expression>,
        indices: Vec<Expression>,
    },
    If {
        condition: Box<Expression>,
        then_branch: Vec<Statement>,
        else_branch: Option<Vec<Statement>>,
    },
    IfExpr {
        condition: Box<Expression>,
        then_expr: Box<Expression>,
        else_expr: Option<Box<Expression>>,
    },
    Loop {
        body: Vec<Statement>,
    },
    Block {
        statements: Vec<Statement>,
    },
    UnsafeBlock {
        statements: Vec<Statement>,
    },
    Function {
        is_async: bool,
        type_params: Vec<TypeParam>,
        parameters: Vec<Parameter>,
        return_type: Option<Type>,
        body: FunctionBody,
    },
    Tuple(Vec<Expression>),
    Match {
        value: Box<Expression>,
        arms: Vec<MatchArm>,
    },
    /// A struct literal; its fields in source order.
    StructLiteral {
        struct_name: Option<String>,
        fields: Vec<(String, Expression)>,
    },
    ArrayNew {
        element_type: Type,
        dimensions: Vec<Expression>,
    },
    Matrix {
        rows: Vec<Vec<Expression>>,
    },
    Range {
        start: Box<Expression>,
        end: Box<Expression>,
        step: Option<Box<Expression>>,
    },
    Question(Box<Expression>),
    Unwrap(Box<Expression>),
    Query(QuerySpec),
    Shader {
        shader_type: ShaderType,
        fields: Vec<ShaderField>,
        constants: Vec<Statement>,
    },
    StaticPath {
        segments: Vec<String>,
        type_args: Vec<Type>,
    },
}

#[derive(Debug, Clone, Copy, PartialEq, Eq, Structural)]
pub enum ShaderType {
    Vertex,
    Fragment,
    Compute,
}

#[derive(Debug)]
pub struct ShaderField {
    pub name: String,
    pub field_type: Type,
}

#[derive(Debug)]
pub struct MatchArm {
    pub pattern: Expression,
    pub body: Expression,
}

#[derive(Debug)]
pub enum FunctionBody {
    Expression(Box<Expression>),
    Block(Vec<Statement>),
}

#[derive(Debug)]
pub struct Parameter {
    pub name: String,
    pub param_type: Option<Type>,
    pub default_value: Option<Expression>,
}

#[derive(Debug)]
pub struct TypeParam {
    pub name: String,
    pub bounds: Vec<Type>,
}

#[derive(Debug)]
pub struct Argument {
    pub name: Option<String>,
    pub value: Expression,
}

#[derive(Debug, Clone, Copy, PartialEq, Eq, Structural)]
pub enum BinaryOperator {
    Add,
    Sub,
    Mul,
    Div,
    Mod,
    ElementMul,
    ElementDiv,
    ElementMod,
    ShiftLeft,
    ShiftRight,
    And,
    Or,
    LogicalAnd,
    LogicalOr,
    Xor,
    Equal,
    NotEqual,
    Less,
    Greater,
    LessEqual,
    GreaterEqual,
}

#[derive(Debug, Clone, Copy, PartialEq, Eq, Structural)]
pub enum UnaryOperator {
    Negate,
    Not,
    BitwiseNot,
    Deref,
    AddressOf,
    MutAddressOf,
}

/// A type. Struct fields, enum variants and trait methods are kept in source order.
#[derive(Debug)]
pub enum Type {
    /// The unit type `()`.
    Unit,
    Identifier {
        name: String,
        type_args: Vec<Type>,
    },
    Pointer {
        is_mutable: bool,
        pointee: Box<Type>,
    },
    RawPointer {
        pointee: Box<Type>,
    },
    Optional {
        inner: Box<Type>,
    },
    Result {
        inner: Box<Type>,
    },
    Tuple(Vec<Type>),
    Matrix {
        element_type: Box<Type>,
        dimensions: Vec<usize>,
    },
    Function {
        parameters: Vec<Type>,
        return_type: Box<Type>,
    },
    Struct {
        fields: Vec<(String, Type)>,
    },
    Enum {
        variants: Vec<(String, Option<Type>)>,
        order: Vec<String>,
    },
    Trait {
        associated_types: Vec<String>,
        methods: Vec<(String, Type)>,
    },
    Reference {
        is_mutable: bool,
        inner: Box<Type>,
    },
}

#[derive(Debug)]
pub struct TableDef {
    pub name: String,
    pub columns: Vec<TableColumn>,
}

#[derive(Debug)]
pub struct TableColumn {
    pub name: String,
    pub column_type: Type,
    pub annotations: Vec<TableAnnotation>,
    pub default_value: Option<Expression>,
    pub is_computed: bool,
    pub computed_expression: Option<Expression>,
}

#[derive(Debug)]
pub struct TableAnnotation {
    pub name: String,
    pub args: Vec<Expression>,
}

/// A system: a function over resources and queries that the scheduler runs.
#[derive(Debug)]
pub struct SystemDef {
    pub name: String,
    pub parameters: Vec<SystemParameter>,
    pub return_type: Option<Type>,
    pub body: Vec<Statement>,
    pub is_async: bool,
}

#[derive(Debug)]
pub enum SystemParameter {
    Query {
        name: String,
        query_spec: QuerySpec,
    },
    Resource {
        param_type: String,
        name: String,
        resource_type: Type,
        access: ResourceAccess,
    },
    Regular {
        param_type: String,
        name: String,
        value_type: Type,
        default_value: Option<Expression>,
    },
}

#[derive(Debug)]
pub struct QuerySpec {
    pub projections: Vec<FieldProjection>,
    pub from_table: String,
    pub where_clause: Option<Box<Expression>>,
    pub joins: Vec<JoinClause>,
}

#[derive(Debug)]
pub struct FieldProjection {
    pub name: String,
    pub field_type: Option<Type>,
    pub access: Option<ResourceAccess>,
}

#[derive(Debug)]
pub struct JoinClause {
    pub join_type: JoinType,
    pub table: String,
    pub condition: Box<Expression>,
}

#[derive(Debug, Clone, Copy, PartialEq, Eq, Structural)]
pub enum JoinType {
    Inner,
    Left,
    Right,
    Full,
}

#[derive(Debug, Clone)]
pub struct ComposeDef {
    pub entries: Vec<ComposeEntry>,
}

#[derive(Debug, Clone)]
pub struct ComposeEntry {
    pub source: ComposeNode,
    pub targets: Vec<ComposeNode>,
}

#[derive(Debug, Clone)]
pub enum ComposeNode {
    Single(String),
    Tuple(Vec<String>),
}

#[derive(Debug, Clone)]
pub struct DatabaseDef {
    pub entries: Vec<DatabaseEntry>,
}

#[derive(Debug, Clone)]
pub struct DatabaseEntry {
    pub name: String,
    pub table_type: Option<String>,
}

/// How a system accesses a resource: `&T`, `&mut T` or `T`.
#[derive(Debug, Clone, Copy, PartialEq, Eq, Structural)]
pub enum ResourceAccess {
    Immutable,
    Mutable,
    Owned,
}

} // verus!
