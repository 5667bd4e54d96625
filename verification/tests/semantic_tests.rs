use rcc::ast::{AstTree, AstType, Structure, Type};
use rcc::semantic::Semantic;

#[test]
fn test_func_type() {
    // 正常系
    {
        let ast = vec![AstType::FuncDef(
            Type::Int,
            "main".to_string(),
            Box::new(AstType::Argment(vec![])),
            Box::new(AstType::Statement(vec![AstType::Return(Box::new(
                AstType::Variable(Type::Int, Structure::Identifier, "a".to_string()),
            ))])),
        )];
        let tree = AstTree { tree: ast };
        let r = Semantic::new(&tree).exec();
        assert!(r.is_ok());
    }
    // 型がおかしい
    {
        let ast = vec![AstType::FuncDef(
            Type::Unknown("aaaa".to_string()),
            "main".to_string(),
            Box::new(AstType::Argment(vec![])),
            Box::new(AstType::Statement(vec![AstType::Return(Box::new(
                AstType::Variable(Type::Int, Structure::Identifier, "a".to_string()),
            ))])),
        )];
        let tree = AstTree { tree: ast };
        let r = Semantic::new(&tree).exec();
        assert!(r.is_err());
        assert!(r.err().unwrap().len() == 1);
    }
}

#[test]
fn semantic_test_variable() {
    // Typeがおかしい
    {
        let ast = vec![AstType::FuncDef(
            Type::Int,
            "main".to_string(),
            Box::new(AstType::Argment(vec![])),
            Box::new(AstType::Statement(vec![AstType::Return(Box::new(
                AstType::Variable(
                    Type::Unknown("aaaa".to_string()),
                    Structure::Identifier,
                    "a".to_string(),
                ),
            ))])),
        )];
        let tree = AstTree { tree: ast };
        let r = Semantic::new(&tree).exec();
        assert!(r.is_err());
        assert!(r.err().unwrap().len() == 1);
    }
}

#[test]
fn test_arithmetic() {
    // 両辺の型がおかしい
    {
        let ast = vec![AstType::FuncDef(
            Type::Int,
            "main".to_string(),
            Box::new(AstType::Argment(vec![])),
            Box::new(AstType::Statement(vec![
                AstType::Plus(
                    Box::new(AstType::Variable(
                        Type::Int,
                        Structure::Identifier,
                        "a1".to_string(),
                    )),
                    Box::new(AstType::Variable(
                        Type::Unknown("aaaa".to_string()),
                        Structure::Identifier,
                        "a2".to_string(),
                    )),
                ),
                AstType::Return(Box::new(AstType::Variable(
                    Type::Int,
                    Structure::Identifier,
                    "r".to_string(),
                ))),
            ])),
        )];
        let tree = AstTree { tree: ast };
        let r = Semantic::new(&tree).exec();
        assert!(r.is_err());
        assert!(r.err().unwrap().len() == 2);
    }
    {
        let ast = vec![AstType::FuncDef(
            Type::Int,
            "main".to_string(),
            Box::new(AstType::Argment(vec![])),
            Box::new(AstType::Statement(vec![
                AstType::Multiple(
                    Box::new(AstType::Variable(
                        Type::Int,
                        Structure::Identifier,
                        "a1".to_string(),
                    )),
                    Box::new(AstType::Variable(
                        Type::Unknown("aaaa".to_string()),
                        Structure::Identifier,
                        "a2".to_string(),
                    )),
                ),
                AstType::Return(Box::new(AstType::Variable(
                    Type::Int,
                    Structure::Identifier,
                    "r".to_string(),
                ))),
            ])),
        )];
        let tree = AstTree { tree: ast };
        let r = Semantic::new(&tree).exec();
        assert!(r.is_err());
        assert!(r.err().unwrap().len() == 2);
    }
    {
        let ast = vec![AstType::FuncDef(
            Type::Int,
            "main".to_string(),
            Box::new(AstType::Argment(vec![])),
            Box::new(AstType::Statement(vec![
                AstType::Minus(
                    Box::new(AstType::Variable(
                        Type::Int,
                        Structure::Identifier,
                        "a1".to_string(),
                    )),
                    Box::new(AstType::Variable(
                        Type::Unknown("aaaa".to_string()),
                        Structure::Identifier,
                        "a2".to_string(),
                    )),
                ),
                AstType::Return(Box::new(AstType::Variable(
                    Type::Int,
                    Structure::Identifier,
                    "r".to_string(),
                ))),
            ])),
        )];
        let tree = AstTree { tree: ast };
        let r = Semantic::new(&tree).exec();
        assert!(r.is_err());
        assert!(r.err().unwrap().len() == 2);
    }
    {
        let ast = vec![AstType::FuncDef(
            Type::Int,
            "main".to_string(),
            Box::new(AstType::Argment(vec![])),
            Box::new(AstType::Statement(vec![
                AstType::Division(
                    Box::new(AstType::Variable(
                        Type::Int,
                        Structure::Identifier,
                        "a1".to_string(),
                    )),
                    Box::new(AstType::Variable(
                        Type::Unknown("aaaa".to_string()),
                        Structure::Identifier,
                        "a2".to_string(),
                    )),
                ),
                AstType::Return(Box::new(AstType::Variable(
                    Type::Int,
                    Structure::Identifier,
                    "r".to_string(),
                ))),
            ])),
        )];
        let tree = AstTree { tree: ast };
        let r = Semantic::new(&tree).exec();
        assert!(r.is_err());
        assert!(r.err().unwrap().len() == 2);
    }
}

#[test]
fn test_func_argment() {
    // 正常系
    {
        let ast = vec![AstType::FuncDef(
            Type::Int,
            "main".to_string(),
            Box::new(AstType::Argment(vec![AstType::Variable(
                Type::Int,
                Structure::Identifier,
                "a".to_string(),
            )])),
            Box::new(AstType::Statement(vec![AstType::Return(Box::new(
                AstType::Variable(Type::Int, Structure::Identifier, "a".to_string()),
            ))])),
        )];
        let tree = AstTree { tree: ast };
        let r = Semantic::new(&tree).exec();
        assert!(r.is_ok());
    }
    // 引数の型がおかしい
    {
        let ast = vec![AstType::FuncDef(
            Type::Int,
            "main".to_string(),
            Box::new(AstType::Argment(vec![AstType::Variable(
                Type::Unknown("a".to_string()),
                Structure::Identifier,
                "a".to_string(),
            )])),
            Box::new(AstType::Statement(vec![AstType::Return(Box::new(
                AstType::Variable(Type::Int, Structure::Identifier, "a".to_string()),
            ))])),
        )];
        let tree = AstTree { tree: ast };
        let r = Semantic::new(&tree).exec();
        assert!(r.is_err());
        assert!(r.err().unwrap().len() == 1);
    }
    {
        let ast = vec![AstType::FuncDef(
            Type::Int,
            "main".to_string(),
            Box::new(AstType::Argment(vec![
                AstType::Variable(
                    Type::Unknown("a".to_string()),
                    Structure::Identifier,
                    "a".to_string(),
                ),
                AstType::Variable(
                    Type::Unknown("b".to_string()),
                    Structure::Identifier,
                    "b".to_string(),
                ),
            ])),
            Box::new(AstType::Statement(vec![AstType::Return(Box::new(
                AstType::Variable(Type::Int, Structure::Identifier, "a".to_string()),
            ))])),
        )];
        let tree = AstTree { tree: ast };
        let r = Semantic::new(&tree).exec();
        assert!(r.is_err());
        assert!(r.err().unwrap().len() == 2);
    }
}

#[test]
fn test_func_call() {
    // 関数コールのAstがおかしい
    {
        let ast = vec![AstType::CallFunc(
            Box::new(AstType::Factor(2)),
            Box::new(AstType::Argment(vec![])),
        )];
        let tree = AstTree { tree: ast };
        let r = Semantic::new(&tree).exec();
        assert!(r.is_err());
        assert!(r.err().unwrap().len() == 1);
    }
    {
        let ast = vec![AstType::CallFunc(
            Box::new(AstType::Variable(
                Type::Int,
                Structure::Identifier,
                "a".to_string(),
            )),
            Box::new(AstType::Argment(vec![])),
        )];
        let tree = AstTree { tree: ast };
        let r = Semantic::new(&tree).exec();
        assert!(r.is_err());
        assert!(r.err().unwrap().len() == 1);
    }
}
