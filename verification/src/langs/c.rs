//! C queries.
use vstd::prelude::*;

verus! {

/// A prepared query for C, naming the parts of a file to scope to.
#[derive(Debug, Clone, Copy, PartialEq, Eq)]
pub enum PreparedQuery {
    /// Comments.
    Comments,
    /// Strings.
    Strings,
    /// Includes.
    Includes,
    /// Type definitions.
    TypeDef,
    /// Enums.
    Enum,
    /// Structs.
    Struct,
    /// Variable declarations.
    Variable,
    /// Functions, declared or called.
    Function,
    /// Function definitions.
    FunctionDef,
    /// Function declarations.
    FunctionDecl,
    /// `switch` statements.
    Switch,
    /// `if` statements.
    If,
    /// `for` statements.
    For,
    /// `while` statements.
    While,
    /// `do` statements.
    Do,
    /// Unions.
    Union,
    /// Identifiers.
    Identifier,
    /// Declarations.
    Declaration,
    /// Call expressions.
    CallExpression,
}

/// The query text of a prepared query.
pub open spec fn query_text(q: PreparedQuery) -> Seq<char> {
    match q {
        PreparedQuery::Comments => "(comment) @comment"@,
        PreparedQuery::Strings => "[(string_literal) (system_lib_string)] @string"@,
        PreparedQuery::Includes => "(preproc_include) @include"@,
        PreparedQuery::TypeDef => "(type_definition) @typedef"@,
        PreparedQuery::Enum => "(enum_specifier) @enum"@,
        PreparedQuery::Struct => "(struct_specifier) @struct"@,
        PreparedQuery::Variable => "(declaration) @var"@,
        PreparedQuery::Function => "[(function_declarator (identifier)) (call_expression (identifier))] @function"@,
        PreparedQuery::FunctionDef => "(function_definition) @function_definition"@,
        PreparedQuery::FunctionDecl => "(function_declarator) @function_decl"@,
        PreparedQuery::Switch => "(switch_statement) @switch"@,
        PreparedQuery::If => "(if_statement) @if"@,
        PreparedQuery::For => "(for_statement) @for"@,
        PreparedQuery::While => "(while_statement) @while"@,
        PreparedQuery::Do => "(do_statement) @do"@,
        PreparedQuery::Union => "(union_specifier) @union"@,
        PreparedQuery::Identifier => "(identifier) @ident"@,
        PreparedQuery::Declaration => "(declaration) @decl"@,
        PreparedQuery::CallExpression => "(call_expression) @call"@,
    }
}

impl PreparedQuery {
    /// The query text (see [`query_text`]).
    pub fn as_str(self) -> (r: &'static str)
        ensures
            r@ == query_text(self),
    {
        match self {
            PreparedQuery::Comments => "(comment) @comment",
            PreparedQuery::Strings => "[(string_literal) (system_lib_string)] @string",
            PreparedQuery::Includes => "(preproc_include) @include",
            PreparedQuery::TypeDef => "(type_definition) @typedef",
            PreparedQuery::Enum => "(enum_specifier) @enum",
            PreparedQuery::Struct => "(struct_specifier) @struct",
            PreparedQuery::Variable => "(declaration) @var",
            PreparedQuery::Function => "[(function_declarator (identifier)) (call_expression (identifier))] @function",
            PreparedQuery::FunctionDef => "(function_definition) @function_definition",
            PreparedQuery::FunctionDecl => "(function_declarator) @function_decl",
            PreparedQuery::Switch => "(switch_statement) @switch",
            PreparedQuery::If => "(if_statement) @if",
            PreparedQuery::For => "(for_statement) @for",
            PreparedQuery::While => "(while_statement) @while",
            PreparedQuery::Do => "(do_statement) @do",
            PreparedQuery::Union => "(union_specifier) @union",
            PreparedQuery::Identifier => "(identifier) @ident",
            PreparedQuery::Declaration => "(declaration) @decl",
            PreparedQuery::CallExpression => "(call_expression) @call",
        }
    }
}

} // verus!
