use vstd::prelude::*;

use swc_common::BytePos;
use swc_ecmascript::ast::Decl as D;
use swc_ecmascript::ast::Stmt as S;
use swc_ecmascript::parser::{Parser, StringInput, Syntax};

use crate::compiler::StmtKind::{
    Block, Break, Continue, Debugger, DoWhile, Empty, Expr, For, ForIn, ForOf, If, Labeled, Return,
    Switch, Throw, Try, While, With,
};

verus! {

/// A compile error: the parser's message.
#[derive(Debug)]
pub struct Error(String);

impl Error {
    pub closed spec fn message_spec(&self) -> Seq<char> {
        self.0@
    }

    pub fn message(&self) -> (m: &String)
        ensures
            m@ == self.message_spec(),
    {
        &self.0
    }
}

/// The kind of a declaration, and for a function its identifier as the
/// parser's `Debug` output shows it.
#[derive(Debug)]
pub enum DeclKind {
    Class,
    Fn(String),
    Var,
    Using,
    TsInterface,
    TsTypeAlias,
    TsEnum,
    TsModule,
}

/// The kind of a top-level statement of a script.
#[derive(Debug)]
pub enum StmtKind {
    Block,
    Empty,
    Debugger,
    With,
    Return,
    Labeled,
    Break,
    Continue,
    If,
    Switch,
    Throw,
    Try,
    While,
    DoWhile,
    For,
    ForIn,
    ForOf,
    Decl(DeclKind),
    Expr,
}

/// What compiling a script's statements came to: the identifiers of the
/// functions declared, in order, up to the first statement that the
/// compiler does not handle yet, and that statement's index, if there is
/// one.
///
/// Compilation does not panic at a statement it does not handle yet: it
/// stops there and reports the statement's index in `unsupported_at`, and
/// the program that drives the compiler aborts with "not yet implemented"
/// after printing the identifiers before it.
pub struct CompiledScript {
    pub declared_functions: Vec<String>,
    pub unsupported_at: Option<usize>,
}

/// The identifier that a statement declares a function under, if it is a
/// function declaration, the one kind of statement compiled so far.
pub open spec fn declared_name(s: StmtKind) -> Option<Seq<char>> {
    match s {
        StmtKind::Decl(DeclKind::Fn(name)) => Some(name@),
        _ => None,
    }
}

/// Whether the first `k` statements are all function declarations and the
/// statement at `k`, if there is one, is not.
pub open spec fn supported_prefix(stmts: Seq<StmtKind>, k: int) -> bool {
    &&& 0 <= k <= stmts.len()
    &&& forall|i: int| 0 <= i < k ==> (#[trigger] declared_name(stmts[i])) is Some
    &&& k < stmts.len() ==> declared_name(stmts[k]) is None
}

/// Whether `c` is the outcome of compiling `stmts`.
pub open spec fn compiled_from(c: CompiledScript, stmts: Seq<StmtKind>) -> bool {
    let k = c.declared_functions@.len() as int;
    &&& supported_prefix(stmts, k)
    &&& forall|i: int|
        0 <= i < k ==> (#[trigger] c.declared_functions@[i])@ == declared_name(stmts[i])->0
    &&& c.unsupported_at == if k < stmts.len() {
        Some(k as usize)
    } else {
        None
    }
}

/// Only a function declaration declares a name: every other kind of
/// statement (an empty statement, a block, an expression, any other
/// declaration, ...) declares none.
pub proof fn lemma_declared_name(s: StmtKind)
    ensures
        (declared_name(s) is Some) == (s matches StmtKind::Decl(DeclKind::Fn(_))),
        s matches StmtKind::Decl(DeclKind::Fn(ident)) ==> declared_name(s) == Some(ident@),
{
}

/// Compiling a script's statements declares, in order, the identifiers of
/// the function declarations that open it, and nothing else: each declared
/// name comes from a function declaration at the same index. Compiling
/// stops at the first statement that is not a function declaration and
/// reports its index; it reports none only where every statement declared
/// a function. (The statements are as many as a `Vec` can hold.)
pub proof fn lemma_compiled_declares_functions(c: CompiledScript, stmts: Seq<StmtKind>)
    requires
        stmts.len() <= usize::MAX,
        compiled_from(c, stmts),
    ensures
        c.declared_functions@.len() <= stmts.len(),
        forall|i: int|
            0 <= i < c.declared_functions@.len() ==> (stmts[i] matches StmtKind::Decl(DeclKind::Fn(ident))
                && (#[trigger] c.declared_functions@[i])@ == ident@),
        match c.unsupported_at {
            Some(k) => {
                &&& k == c.declared_functions@.len()
                &&& k < stmts.len()
                &&& !(stmts[k as int] matches StmtKind::Decl(DeclKind::Fn(_)))
            },
            None => c.declared_functions@.len() == stmts.len(),
        },
{
    let k = c.declared_functions@.len() as int;
    assert forall|i: int| 0 <= i < k implies (stmts[i] matches StmtKind::Decl(DeclKind::Fn(ident))
        && (#[trigger] c.declared_functions@[i])@ == ident@) by {
        assert(declared_name(stmts[i]) is Some);
    }
    if k < stmts.len() {
        assert(declared_name(stmts[k]) is None);
    }
}

/// Bytes that a character takes in UTF-8.
pub open spec fn char_utf8_len(c: char) -> nat {
    if (c as u32) < 0x80 {
        1
    } else if (c as u32) < 0x800 {
        2
    } else if (c as u32) < 0x10000 {
        3
    } else {
        4
    }
}

/// Bytes that a string takes in UTF-8.
pub open spec fn utf8_len(s: Seq<char>) -> nat
    decreases s.len(),
{
    if s.len() == 0 {
        0
    } else {
        utf8_len(s.drop_last()) + char_utf8_len(s.last())
    }
}

/// What the swc parser makes of a script: its top-level statements, or
/// the message of the error it stopped at.
pub uninterp spec fn parsed_script(code: Seq<char>) -> Result<Seq<StmtKind>, Seq<char>>;

/// Parses `code` as a script with swc's ECMAScript parser
/// (`Parser::new` over a `StringInput` of the whole text, then
/// `Parser::parse_script`), and gives the kinds of its top-level
/// statements, or the message of the parse error
/// (`Error::into_kind().msg()`).
///
/// The result depends on the text alone; `parsed_script` names it.
#[verifier::external_body]
fn parse_script(code: &str) -> (r: Result<Vec<StmtKind>, String>)
    requires
        utf8_len(code@) <= u32::MAX,
    ensures
        match r {
            Ok(stmts) => parsed_script(code@) == Ok::<Seq<StmtKind>, Seq<char>>(stmts@),
            Err(msg) => parsed_script(code@) == Err::<Seq<StmtKind>, Seq<char>>(msg@),
        },
{
    let end = BytePos(code.len() as u32);
    let mut parser = Parser::new(Syntax::Es(Default::default()), StringInput::new(code, BytePos(0), end), None);
    match parser.parse_script() {
        Ok(script) => Ok(script.body.iter().map(stmt_kind).collect()),
        Err(e) => Err(e.into_kind().msg().into_owned()),
    }
}

#[verifier::external_type_specification]
#[verifier::external_body]
pub struct ExStmt(swc_ecmascript::ast::Stmt);

#[verifier::external_type_specification]
#[verifier::external_body]
pub struct ExDecl(swc_ecmascript::ast::Decl);

/// The kind of an swc statement, one variant for each of `Stmt`'s.
#[verifier::external_body]
fn stmt_kind(s: &S) -> StmtKind {
    match s {
        S::Block(_) => Block, S::Empty(_) => Empty, S::Debugger(_) => Debugger,
        S::With(_) => With, S::Return(_) => Return, S::Labeled(_) => Labeled,
        S::Break(_) => Break, S::Continue(_) => Continue, S::If(_) => If,
        S::Switch(_) => Switch, S::Throw(_) => Throw, S::Try(_) => Try,
        S::While(_) => While, S::DoWhile(_) => DoWhile, S::For(_) => For,
        S::ForIn(_) => ForIn, S::ForOf(_) => ForOf, S::Expr(_) => Expr,
        S::Decl(d) => StmtKind::Decl(decl_kind(d)),
    }
}

/// The kind of an swc declaration, one variant for each of `Decl`'s; a
/// function's identifier as its `Debug` output shows it.
#[verifier::external_body]
fn decl_kind(d: &D) -> DeclKind {
    match d {
        D::Class(_) => DeclKind::Class,
        D::Fn(f) => DeclKind::Fn(format!("{:?}", f.ident)),
        D::Var(_) => DeclKind::Var,
        D::Using(_) => DeclKind::Using,
        D::TsInterface(_) => DeclKind::TsInterface,
        D::TsTypeAlias(_) => DeclKind::TsTypeAlias,
        D::TsEnum(_) => DeclKind::TsEnum,
        D::TsModule(_) => DeclKind::TsModule,
    }
}

/// The compiler.
pub struct Compiler {}

impl Compiler {
    pub fn new() -> (c: Compiler) {
        Compiler {}
    }

    /// Compiles one statement: a function declaration gives its identifier,
    /// to be printed. Every other statement is not handled yet: in place of
    /// aborting, the compiler answers `None` and leaves the abort to its
    /// caller.
    pub fn stmt(&mut self, stmt: &StmtKind) -> (r: Option<String>)
        ensures
            match declared_name(*stmt) {
                Some(name) => r matches Some(s) && s@ == name,
                None => r is None,
            },
            (r is Some) == (*stmt matches StmtKind::Decl(DeclKind::Fn(_))),
            *stmt matches StmtKind::Decl(DeclKind::Fn(ident)) ==> r matches Some(s) && s@ == ident@,
    {
        match stmt {
            StmtKind::Decl(decl) => match decl {
                DeclKind::Fn(ident) => Some(ident.clone()),
                _ => None,
            },
            _ => None,
        }
    }

    /// Compiles statements in order, stopping at the first one that is not
    /// handled yet.
    pub fn compile_stmts(&mut self, stmts: &Vec<StmtKind>) -> (r: CompiledScript)
        ensures
            compiled_from(r, stmts@),
            forall|i: int|
                0 <= i < r.declared_functions@.len() ==> (stmts@[i] matches StmtKind::Decl(DeclKind::Fn(ident))
                    && (#[trigger] r.declared_functions@[i])@ == ident@),
            match r.unsupported_at {
                Some(k) => {
                    &&& k == r.declared_functions@.len()
                    &&& k < stmts@.len()
                    &&& !(stmts@[k as int] matches StmtKind::Decl(DeclKind::Fn(_)))
                },
                None => r.declared_functions@.len() == stmts@.len(),
            },
    {
        let mut declared: Vec<String> = Vec::new();
        let mut i: usize = 0;
        while i < stmts.len()
            invariant
                i <= stmts.len(),
                declared@.len() == i,
                forall|j: int| 0 <= j < i ==> (#[trigger] declared_name(stmts@[j])) is Some,
                forall|j: int| 0 <= j < i ==> (#[trigger] declared@[j])@ == declared_name(stmts@[j])->0,
            decreases stmts.len() - i,
        {
            match self.stmt(&stmts[i]) {
                Some(name) => {
                    declared.push(name);
                },
                None => {
                    let r = CompiledScript { declared_functions: declared, unsupported_at: Some(i) };
                    proof {
                        lemma_compiled_declares_functions(r, stmts@);
                    }
                    return r;
                },
            }
            i += 1;
        }
        let r = CompiledScript { declared_functions: declared, unsupported_at: None };
        proof {
            lemma_compiled_declares_functions(r, stmts@);
        }
        r
    }

    /// Compiles what the parser made of a script: its statements, or its
    /// error as a compile error.
    pub fn compile_parsed(&mut self, parsed: Result<Vec<StmtKind>, String>) -> (r: Result<
        CompiledScript,
        Error,
    >)
        ensures
            match parsed {
                Ok(stmts) => r matches Ok(c) && compiled_from(c, stmts@),
                Err(msg) => r matches Err(e) && e.message_spec() == msg@,
            },
    {
        match parsed {
            Ok(stmts) => Ok(self.compile_stmts(&stmts)),
            Err(msg) => Err(Error(msg)),
        }
    }

    /// Parses `code` as a script and compiles its statements, stopping at
    /// the first statement not handled yet (see `CompiledScript`).
    pub fn compile_script(&mut self, code: &str) -> (r: Result<CompiledScript, Error>)
        requires
            utf8_len(code@) <= u32::MAX,
        ensures
            match parsed_script(code@) {
                Ok(stmts) => r matches Ok(c) && compiled_from(c, stmts),
                Err(msg) => r matches Err(e) && e.message_spec() == msg,
            },
    {
        let parsed = parse_script(code);
        self.compile_parsed(parsed)
    }
}

} // verus!
