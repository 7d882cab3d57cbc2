use wjs::{Compiler, DeclKind, StmtKind};

const SCRIPT: &str = r#"
        function foo() {
            return bar();
        }

        function bar() {
            return 0.0;
        }

        console.log(foo());
    "#;

#[test]
fn compiles_function_declarations_until_an_unsupported_statement() {
    let mut compiler = Compiler::new();
    let compiled = compiler.compile_script(SCRIPT).unwrap();
    assert_eq!(compiled.declared_functions.len(), 2);
    assert!(compiled.declared_functions[0].contains("foo"));
    assert!(compiled.declared_functions[1].contains("bar"));
    assert_eq!(compiled.unsupported_at, Some(2));
}

#[test]
fn only_functions_compile_fully() {
    let mut compiler = Compiler::new();
    let compiled = compiler.compile_script("function a() {} function b() {}").unwrap();
    assert_eq!(compiled.declared_functions.len(), 2);
    assert_eq!(compiled.unsupported_at, None);
}

#[test]
fn empty_script_compiles_to_nothing() {
    let mut compiler = Compiler::new();
    let compiled = compiler.compile_script("").unwrap();
    assert!(compiled.declared_functions.is_empty());
    assert_eq!(compiled.unsupported_at, None);
}

#[test]
fn parse_error_is_a_compile_error() {
    let mut compiler = Compiler::new();
    let err = compiler.compile_script("function (").err().unwrap();
    assert!(!err.message().is_empty());
}

#[test]
fn statements_compile_one_by_one() {
    let mut compiler = Compiler::new();
    let stmts = vec![
        StmtKind::Decl(DeclKind::Fn("f".to_string())),
        StmtKind::Decl(DeclKind::Var),
        StmtKind::Decl(DeclKind::Fn("g".to_string())),
    ];
    let compiled = compiler.compile_stmts(&stmts);
    assert_eq!(compiled.declared_functions, vec!["f".to_string()]);
    assert_eq!(compiled.unsupported_at, Some(1));
    assert_eq!(compiler.stmt(&StmtKind::Expr), None);
    assert_eq!(compiler.stmt(&stmts[2]), Some("g".to_string()));
}

#[test]
fn parse_result_is_compiled() {
    let mut compiler = Compiler::new();
    let err = compiler.compile_parsed(Err("bad".to_string())).err().unwrap();
    assert_eq!(err.message(), "bad");
    let ok = compiler.compile_parsed(Ok(vec![StmtKind::Block])).unwrap();
    assert!(ok.declared_functions.is_empty());
    assert_eq!(ok.unsupported_at, Some(0));
}
