use rcc::lexer::LexicalAnalysis;
use rcc::token::{Token, TokenInfo};

#[test]
fn test_lexer() {
    {
        let input = "2 + 1 / 3 * 7".to_string();
        let mut lexer = LexicalAnalysis::new("test.c".to_string(), &input);

        lexer.read_token();

        assert_eq!(
            TokenInfo::new(Token::Number, "2".to_string(), ("test.c".to_string(), 1, 1)),
            lexer.get_tokens()[0]
        );
        assert_eq!(
            TokenInfo::new(Token::Plus, "+".to_string(), ("test.c".to_string(), 1, 3)),
            lexer.get_tokens()[1]
        );
        assert_eq!(
            TokenInfo::new(Token::Number, "1".to_string(), ("test.c".to_string(), 1, 5)),
            lexer.get_tokens()[2]
        );
        assert_eq!(
            TokenInfo::new(
                Token::Division,
                "/".to_string(),
                ("test.c".to_string(), 1, 7)
            ),
            lexer.get_tokens()[3]
        );
        assert_eq!(
            TokenInfo::new(Token::Number, "3".to_string(), ("test.c".to_string(), 1, 9)),
            lexer.get_tokens()[4]
        );
        assert_eq!(
            TokenInfo::new(Token::Multi, "*".to_string(), ("test.c".to_string(), 1, 11)),
            lexer.get_tokens()[5]
        );
        assert_eq!(
            TokenInfo::new(
                Token::Number,
                "7".to_string(),
                ("test.c".to_string(), 1, 13)
            ),
            lexer.get_tokens()[6]
        );
        assert_eq!(
            TokenInfo::new(Token::End, "End".to_string(), ("test.c".to_string(), 1, 13)),
            lexer.get_tokens()[7]
        );
    }
    {
        let input = "2 >= 1".to_string();
        let mut lexer = LexicalAnalysis::new("test.c".to_string(), &input);

        lexer.read_token();

        assert_eq!(
            TokenInfo::new(Token::Number, "2".to_string(), ("test.c".to_string(), 1, 1)),
            lexer.get_tokens()[0]
        );
        assert_eq!(
            TokenInfo::new(
                Token::GreaterThanEqual,
                ">=".to_string(),
                ("test.c".to_string(), 1, 3)
            ),
            lexer.get_tokens()[1]
        );
        assert_eq!(
            TokenInfo::new(Token::Number, "1".to_string(), ("test.c".to_string(), 1, 6)),
            lexer.get_tokens()[2]
        );
        assert_eq!(
            TokenInfo::new(Token::End, "End".to_string(), ("test.c".to_string(), 1, 6)),
            lexer.get_tokens()[3]
        );
    }
    {
        let input = "2 <= 1".to_string();
        let mut lexer = LexicalAnalysis::new("test.c".to_string(), &input);

        lexer.read_token();

        assert_eq!(
            TokenInfo::new(Token::Number, "2".to_string(), ("test.c".to_string(), 1, 1)),
            lexer.get_tokens()[0]
        );
        assert_eq!(
            TokenInfo::new(
                Token::LessThanEqual,
                "<=".to_string(),
                ("test.c".to_string(), 1, 3)
            ),
            lexer.get_tokens()[1]
        );
        assert_eq!(
            TokenInfo::new(Token::Number, "1".to_string(), ("test.c".to_string(), 1, 6)),
            lexer.get_tokens()[2]
        );
        assert_eq!(
            TokenInfo::new(Token::End, "End".to_string(), ("test.c".to_string(), 1, 6)),
            lexer.get_tokens()[3]
        );
    }
    {
        let input = "2 == 1".to_string();
        let mut lexer = LexicalAnalysis::new("test.c".to_string(), &input);

        lexer.read_token();

        assert_eq!(
            TokenInfo::new(Token::Number, "2".to_string(), ("test.c".to_string(), 1, 1)),
            lexer.get_tokens()[0]
        );
        assert_eq!(
            TokenInfo::new(Token::Equal, "==".to_string(), ("test.c".to_string(), 1, 3)),
            lexer.get_tokens()[1]
        );
        assert_eq!(
            TokenInfo::new(Token::Number, "1".to_string(), ("test.c".to_string(), 1, 6)),
            lexer.get_tokens()[2]
        );
        assert_eq!(
            TokenInfo::new(Token::End, "End".to_string(), ("test.c".to_string(), 1, 6)),
            lexer.get_tokens()[3]
        );
    }
    {
        let input = "2 != 1".to_string();
        let mut lexer = LexicalAnalysis::new("test.c".to_string(), &input);

        lexer.read_token();

        assert_eq!(
            TokenInfo::new(Token::Number, "2".to_string(), ("test.c".to_string(), 1, 1)),
            lexer.get_tokens()[0]
        );
        assert_eq!(
            TokenInfo::new(
                Token::NotEqual,
                "!=".to_string(),
                ("test.c".to_string(), 1, 3)
            ),
            lexer.get_tokens()[1]
        );
        assert_eq!(
            TokenInfo::new(Token::Number, "1".to_string(), ("test.c".to_string(), 1, 6)),
            lexer.get_tokens()[2]
        );
        assert_eq!(
            TokenInfo::new(Token::End, "End".to_string(), ("test.c".to_string(), 1, 6)),
            lexer.get_tokens()[3]
        );
    }
    {
        let input = "2 << 1".to_string();
        let mut lexer = LexicalAnalysis::new("test.c".to_string(), &input);

        lexer.read_token();

        assert_eq!(
            TokenInfo::new(Token::Number, "2".to_string(), ("test.c".to_string(), 1, 1)),
            lexer.get_tokens()[0]
        );
        assert_eq!(
            TokenInfo::new(
                Token::LeftShift,
                "<<".to_string(),
                ("test.c".to_string(), 1, 3)
            ),
            lexer.get_tokens()[1]
        );
        assert_eq!(
            TokenInfo::new(Token::Number, "1".to_string(), ("test.c".to_string(), 1, 6)),
            lexer.get_tokens()[2]
        );
        assert_eq!(
            TokenInfo::new(Token::End, "End".to_string(), ("test.c".to_string(), 1, 6)),
            lexer.get_tokens()[3]
        );
    }
    {
        let input = "2 >> 1".to_string();
        let mut lexer = LexicalAnalysis::new("test.c".to_string(), &input);

        lexer.read_token();

        assert_eq!(
            TokenInfo::new(Token::Number, "2".to_string(), ("test.c".to_string(), 1, 1)),
            lexer.get_tokens()[0]
        );
        assert_eq!(
            TokenInfo::new(
                Token::RightShift,
                ">>".to_string(),
                ("test.c".to_string(), 1, 3)
            ),
            lexer.get_tokens()[1]
        );
        assert_eq!(
            TokenInfo::new(Token::Number, "1".to_string(), ("test.c".to_string(), 1, 6)),
            lexer.get_tokens()[2]
        );
        assert_eq!(
            TokenInfo::new(Token::End, "End".to_string(), ("test.c".to_string(), 1, 6)),
            lexer.get_tokens()[3]
        );
    }
    {
        let input = "~1".to_string();
        let mut lexer = LexicalAnalysis::new("test.c".to_string(), &input);

        lexer.read_token();

        assert_eq!(
            TokenInfo::new(
                Token::BitReverse,
                "~".to_string(),
                ("test.c".to_string(), 1, 1)
            ),
            lexer.get_tokens()[0]
        );
        assert_eq!(
            TokenInfo::new(Token::Number, "1".to_string(), ("test.c".to_string(), 1, 2)),
            lexer.get_tokens()[1]
        );
        assert_eq!(
            TokenInfo::new(Token::End, "End".to_string(), ("test.c".to_string(), 1, 2)),
            lexer.get_tokens()[2]
        );
    }
    {
        let input = "1 + 2;".to_string();
        let mut lexer = LexicalAnalysis::new("test.c".to_string(), &input);

        lexer.read_token();

        assert_eq!(
            TokenInfo::new(Token::Number, "1".to_string(), ("test.c".to_string(), 1, 1)),
            lexer.get_tokens()[0]
        );
        assert_eq!(
            TokenInfo::new(Token::Plus, "+".to_string(), ("test.c".to_string(), 1, 3)),
            lexer.get_tokens()[1]
        );
        assert_eq!(
            TokenInfo::new(Token::Number, "2".to_string(), ("test.c".to_string(), 1, 5)),
            lexer.get_tokens()[2]
        );
        assert_eq!(
            TokenInfo::new(
                Token::SemiColon,
                ";".to_string(),
                ("test.c".to_string(), 1, 6)
            ),
            lexer.get_tokens()[3]
        );
        assert_eq!(
            TokenInfo::new(Token::End, "End".to_string(), ("test.c".to_string(), 1, 6)),
            lexer.get_tokens()[4]
        );
    }
    {
        let input = "1 + 2; 3 >= 2".to_string();
        let mut lexer = LexicalAnalysis::new("test.c".to_string(), &input);

        lexer.read_token();

        assert_eq!(
            TokenInfo::new(Token::Number, "1".to_string(), ("test.c".to_string(), 1, 1)),
            lexer.get_tokens()[0]
        );
        assert_eq!(
            TokenInfo::new(Token::Plus, "+".to_string(), ("test.c".to_string(), 1, 3)),
            lexer.get_tokens()[1]
        );
        assert_eq!(
            TokenInfo::new(Token::Number, "2".to_string(), ("test.c".to_string(), 1, 5)),
            lexer.get_tokens()[2]
        );
        assert_eq!(
            TokenInfo::new(
                Token::SemiColon,
                ";".to_string(),
                ("test.c".to_string(), 1, 6)
            ),
            lexer.get_tokens()[3]
        );
        assert_eq!(
            TokenInfo::new(Token::Number, "3".to_string(), ("test.c".to_string(), 1, 8)),
            lexer.get_tokens()[4]
        );
        assert_eq!(
            TokenInfo::new(
                Token::GreaterThanEqual,
                ">=".to_string(),
                ("test.c".to_string(), 1, 10)
            ),
            lexer.get_tokens()[5]
        );
        assert_eq!(
            TokenInfo::new(
                Token::Number,
                "2".to_string(),
                ("test.c".to_string(), 1, 13)
            ),
            lexer.get_tokens()[6]
        );
        assert_eq!(
            TokenInfo::new(Token::End, "End".to_string(), ("test.c".to_string(), 1, 13)),
            lexer.get_tokens()[7]
        );
    }
    {
        let input = "a = 1 + 2;".to_string();
        let mut lexer = LexicalAnalysis::new("test.c".to_string(), &input);

        lexer.read_token();

        assert_eq!(
            TokenInfo::new(
                Token::Variable,
                "a".to_string(),
                ("test.c".to_string(), 1, 1)
            ),
            lexer.get_tokens()[0]
        );
        assert_eq!(
            TokenInfo::new(Token::Assign, "=".to_string(), ("test.c".to_string(), 1, 3)),
            lexer.get_tokens()[1]
        );
        assert_eq!(
            TokenInfo::new(Token::Number, "1".to_string(), ("test.c".to_string(), 1, 5)),
            lexer.get_tokens()[2]
        );
        assert_eq!(
            TokenInfo::new(Token::Plus, "+".to_string(), ("test.c".to_string(), 1, 7)),
            lexer.get_tokens()[3]
        );
        assert_eq!(
            TokenInfo::new(Token::Number, "2".to_string(), ("test.c".to_string(), 1, 9)),
            lexer.get_tokens()[4]
        );
        assert_eq!(
            TokenInfo::new(
                Token::SemiColon,
                ";".to_string(),
                ("test.c".to_string(), 1, 10)
            ),
            lexer.get_tokens()[5]
        );
        assert_eq!(
            TokenInfo::new(Token::End, "End".to_string(), ("test.c".to_string(), 1, 10)),
            lexer.get_tokens()[6]
        );
    }
    {
        let input = "_a_aa = 1 + 2;".to_string();
        let mut lexer = LexicalAnalysis::new("test.c".to_string(), &input);

        lexer.read_token();

        assert_eq!(
            TokenInfo::new(
                Token::Variable,
                "_a_aa".to_string(),
                ("test.c".to_string(), 1, 1)
            ),
            lexer.get_tokens()[0]
        );
        assert_eq!(
            TokenInfo::new(Token::Assign, "=".to_string(), ("test.c".to_string(), 1, 7)),
            lexer.get_tokens()[1]
        );
        assert_eq!(
            TokenInfo::new(Token::Number, "1".to_string(), ("test.c".to_string(), 1, 9)),
            lexer.get_tokens()[2]
        );
        assert_eq!(
            TokenInfo::new(Token::Plus, "+".to_string(), ("test.c".to_string(), 1, 11)),
            lexer.get_tokens()[3]
        );
        assert_eq!(
            TokenInfo::new(
                Token::Number,
                "2".to_string(),
                ("test.c".to_string(), 1, 13)
            ),
            lexer.get_tokens()[4]
        );
        assert_eq!(
            TokenInfo::new(
                Token::SemiColon,
                ";".to_string(),
                ("test.c".to_string(), 1, 14)
            ),
            lexer.get_tokens()[5]
        );
        assert_eq!(
            TokenInfo::new(Token::End, "End".to_string(), ("test.c".to_string(), 1, 14)),
            lexer.get_tokens()[6]
        );
    }
    {
        let input = "a, b;".to_string();
        let mut lexer = LexicalAnalysis::new("test.c".to_string(), &input);

        lexer.read_token();

        assert_eq!(
            TokenInfo::new(
                Token::Variable,
                "a".to_string(),
                ("test.c".to_string(), 1, 1)
            ),
            lexer.get_tokens()[0]
        );
        assert_eq!(
            TokenInfo::new(Token::Comma, ",".to_string(), ("test.c".to_string(), 1, 2)),
            lexer.get_tokens()[1]
        );
        assert_eq!(
            TokenInfo::new(
                Token::Variable,
                "b".to_string(),
                ("test.c".to_string(), 1, 4)
            ),
            lexer.get_tokens()[2]
        );
        assert_eq!(
            TokenInfo::new(
                Token::SemiColon,
                ";".to_string(),
                ("test.c".to_string(), 1, 5)
            ),
            lexer.get_tokens()[3]
        );
        assert_eq!(
            TokenInfo::new(Token::End, "End".to_string(), ("test.c".to_string(), 1, 5)),
            lexer.get_tokens()[4]
        );
    }
    {
        let input = "{ a = b; }".to_string();
        let mut lexer = LexicalAnalysis::new("test.c".to_string(), &input);

        lexer.read_token();

        assert_eq!(
            TokenInfo::new(
                Token::LeftBrace,
                "{".to_string(),
                ("test.c".to_string(), 1, 1)
            ),
            lexer.get_tokens()[0]
        );
        assert_eq!(
            TokenInfo::new(
                Token::Variable,
                "a".to_string(),
                ("test.c".to_string(), 1, 3)
            ),
            lexer.get_tokens()[1]
        );
        assert_eq!(
            TokenInfo::new(Token::Assign, "=".to_string(), ("test.c".to_string(), 1, 5)),
            lexer.get_tokens()[2]
        );
        assert_eq!(
            TokenInfo::new(
                Token::Variable,
                "b".to_string(),
                ("test.c".to_string(), 1, 7)
            ),
            lexer.get_tokens()[3]
        );
        assert_eq!(
            TokenInfo::new(
                Token::SemiColon,
                ";".to_string(),
                ("test.c".to_string(), 1, 8)
            ),
            lexer.get_tokens()[4]
        );
        assert_eq!(
            TokenInfo::new(
                Token::RightBrace,
                "}".to_string(),
                ("test.c".to_string(), 1, 10)
            ),
            lexer.get_tokens()[5]
        );
        assert_eq!(
            TokenInfo::new(Token::End, "End".to_string(), ("test.c".to_string(), 1, 10)),
            lexer.get_tokens()[6]
        );
    }
    {
        let input = "if { i = 2; }".to_string();
        let mut lexer = LexicalAnalysis::new("test.c".to_string(), &input);

        lexer.read_token();

        assert_eq!(
            TokenInfo::new(Token::If, "if".to_string(), ("test.c".to_string(), 1, 1)),
            lexer.get_tokens()[0]
        );
        assert_eq!(
            TokenInfo::new(
                Token::LeftBrace,
                "{".to_string(),
                ("test.c".to_string(), 1, 4)
            ),
            lexer.get_tokens()[1]
        );
        assert_eq!(
            TokenInfo::new(
                Token::Variable,
                "i".to_string(),
                ("test.c".to_string(), 1, 6)
            ),
            lexer.get_tokens()[2]
        );
        assert_eq!(
            TokenInfo::new(Token::Assign, "=".to_string(), ("test.c".to_string(), 1, 8)),
            lexer.get_tokens()[3]
        );
        assert_eq!(
            TokenInfo::new(
                Token::Number,
                "2".to_string(),
                ("test.c".to_string(), 1, 10)
            ),
            lexer.get_tokens()[4]
        );
        assert_eq!(
            TokenInfo::new(
                Token::SemiColon,
                ";".to_string(),
                ("test.c".to_string(), 1, 11)
            ),
            lexer.get_tokens()[5]
        );
        assert_eq!(
            TokenInfo::new(
                Token::RightBrace,
                "}".to_string(),
                ("test.c".to_string(), 1, 13)
            ),
            lexer.get_tokens()[6]
        );
        assert_eq!(
            TokenInfo::new(Token::End, "End".to_string(), ("test.c".to_string(), 1, 13)),
            lexer.get_tokens()[7]
        );
    }
    {
        let input = "if { i = 2; } else { e = 3; }".to_string();
        let mut lexer = LexicalAnalysis::new("test.c".to_string(), &input);

        lexer.read_token();

        assert_eq!(
            TokenInfo::new(Token::If, "if".to_string(), ("test.c".to_string(), 1, 1)),
            lexer.get_tokens()[0]
        );
        assert_eq!(
            TokenInfo::new(
                Token::LeftBrace,
                "{".to_string(),
                ("test.c".to_string(), 1, 4)
            ),
            lexer.get_tokens()[1]
        );
        assert_eq!(
            TokenInfo::new(
                Token::Variable,
                "i".to_string(),
                ("test.c".to_string(), 1, 6)
            ),
            lexer.get_tokens()[2]
        );
        assert_eq!(
            TokenInfo::new(Token::Assign, "=".to_string(), ("test.c".to_string(), 1, 8)),
            lexer.get_tokens()[3]
        );
        assert_eq!(
            TokenInfo::new(
                Token::Number,
                "2".to_string(),
                ("test.c".to_string(), 1, 10)
            ),
            lexer.get_tokens()[4]
        );
        assert_eq!(
            TokenInfo::new(
                Token::SemiColon,
                ";".to_string(),
                ("test.c".to_string(), 1, 11)
            ),
            lexer.get_tokens()[5]
        );
        assert_eq!(
            TokenInfo::new(
                Token::RightBrace,
                "}".to_string(),
                ("test.c".to_string(), 1, 13)
            ),
            lexer.get_tokens()[6]
        );
        assert_eq!(
            TokenInfo::new(
                Token::Else,
                "else".to_string(),
                ("test.c".to_string(), 1, 15)
            ),
            lexer.get_tokens()[7]
        );
        assert_eq!(
            TokenInfo::new(
                Token::LeftBrace,
                "{".to_string(),
                ("test.c".to_string(), 1, 20)
            ),
            lexer.get_tokens()[8]
        );
        assert_eq!(
            TokenInfo::new(
                Token::Variable,
                "e".to_string(),
                ("test.c".to_string(), 1, 22)
            ),
            lexer.get_tokens()[9]
        );
        assert_eq!(
            TokenInfo::new(
                Token::Assign,
                "=".to_string(),
                ("test.c".to_string(), 1, 24)
            ),
            lexer.get_tokens()[10]
        );
        assert_eq!(
            TokenInfo::new(
                Token::Number,
                "3".to_string(),
                ("test.c".to_string(), 1, 26)
            ),
            lexer.get_tokens()[11]
        );
        assert_eq!(
            TokenInfo::new(
                Token::SemiColon,
                ";".to_string(),
                ("test.c".to_string(), 1, 27)
            ),
            lexer.get_tokens()[12]
        );
        assert_eq!(
            TokenInfo::new(
                Token::RightBrace,
                "}".to_string(),
                ("test.c".to_string(), 1, 29)
            ),
            lexer.get_tokens()[13]
        );
        assert_eq!(
            TokenInfo::new(Token::End, "End".to_string(), ("test.c".to_string(), 1, 29)),
            lexer.get_tokens()[14]
        );
    }
    {
        let input = "while(a == b) { c = 3; }".to_string();
        let mut lexer = LexicalAnalysis::new("test.c".to_string(), &input);

        lexer.read_token();

        assert_eq!(
            TokenInfo::new(
                Token::While,
                "while".to_string(),
                ("test.c".to_string(), 1, 1)
            ),
            lexer.get_tokens()[0]
        );
        assert_eq!(
            TokenInfo::new(
                Token::LeftParen,
                "(".to_string(),
                ("test.c".to_string(), 1, 6)
            ),
            lexer.get_tokens()[1]
        );
        assert_eq!(
            TokenInfo::new(
                Token::Variable,
                "a".to_string(),
                ("test.c".to_string(), 1, 7)
            ),
            lexer.get_tokens()[2]
        );
        assert_eq!(
            TokenInfo::new(Token::Equal, "==".to_string(), ("test.c".to_string(), 1, 9)),
            lexer.get_tokens()[3]
        );
        assert_eq!(
            TokenInfo::new(
                Token::Variable,
                "b".to_string(),
                ("test.c".to_string(), 1, 12)
            ),
            lexer.get_tokens()[4]
        );
        assert_eq!(
            TokenInfo::new(
                Token::RightParen,
                ")".to_string(),
                ("test.c".to_string(), 1, 13)
            ),
            lexer.get_tokens()[5]
        );
        assert_eq!(
            TokenInfo::new(
                Token::LeftBrace,
                "{".to_string(),
                ("test.c".to_string(), 1, 15)
            ),
            lexer.get_tokens()[6]
        );
        assert_eq!(
            TokenInfo::new(
                Token::Variable,
                "c".to_string(),
                ("test.c".to_string(), 1, 17)
            ),
            lexer.get_tokens()[7]
        );
        assert_eq!(
            TokenInfo::new(
                Token::Assign,
                "=".to_string(),
                ("test.c".to_string(), 1, 19)
            ),
            lexer.get_tokens()[8]
        );
        assert_eq!(
            TokenInfo::new(
                Token::Number,
                "3".to_string(),
                ("test.c".to_string(), 1, 21)
            ),
            lexer.get_tokens()[9]
        );
        assert_eq!(
            TokenInfo::new(
                Token::SemiColon,
                ";".to_string(),
                ("test.c".to_string(), 1, 22)
            ),
            lexer.get_tokens()[10]
        );
        assert_eq!(
            TokenInfo::new(
                Token::RightBrace,
                "}".to_string(),
                ("test.c".to_string(), 1, 24)
            ),
            lexer.get_tokens()[11]
        );
        assert_eq!(
            TokenInfo::new(Token::End, "End".to_string(), ("test.c".to_string(), 1, 24)),
            lexer.get_tokens()[12]
        );
    }
    {
        let input = "return 0;".to_string();
        let mut lexer = LexicalAnalysis::new("test.c".to_string(), &input);

        lexer.read_token();
        assert_eq!(
            TokenInfo::new(
                Token::Return,
                "return".to_string(),
                ("test.c".to_string(), 1, 1)
            ),
            lexer.get_tokens()[0]
        );
        assert_eq!(
            TokenInfo::new(Token::Number, "0".to_string(), ("test.c".to_string(), 1, 8)),
            lexer.get_tokens()[1]
        );
        assert_eq!(
            TokenInfo::new(
                Token::SemiColon,
                ";".to_string(),
                ("test.c".to_string(), 1, 9)
            ),
            lexer.get_tokens()[2]
        );
        assert_eq!(
            TokenInfo::new(Token::End, "End".to_string(), ("test.c".to_string(), 1, 9)),
            lexer.get_tokens()[3]
        );
    }
    {
        let input = "2++".to_string();
        let mut lexer = LexicalAnalysis::new("test.c".to_string(), &input);

        lexer.read_token();

        assert_eq!(
            TokenInfo::new(Token::Number, "2".to_string(), ("test.c".to_string(), 1, 1)),
            lexer.get_tokens()[0]
        );
        assert_eq!(
            TokenInfo::new(Token::Inc, "++".to_string(), ("test.c".to_string(), 1, 2)),
            lexer.get_tokens()[1]
        );
        assert_eq!(
            TokenInfo::new(Token::End, "End".to_string(), ("test.c".to_string(), 1, 3)),
            lexer.get_tokens()[2]
        );
    }
    {
        let input = "++2".to_string();
        let mut lexer = LexicalAnalysis::new("test.c".to_string(), &input);

        lexer.read_token();

        assert_eq!(
            TokenInfo::new(Token::Inc, "++".to_string(), ("test.c".to_string(), 1, 1)),
            lexer.get_tokens()[0]
        );
        assert_eq!(
            TokenInfo::new(Token::Number, "2".to_string(), ("test.c".to_string(), 1, 3)),
            lexer.get_tokens()[1]
        );
        assert_eq!(
            TokenInfo::new(Token::End, "End".to_string(), ("test.c".to_string(), 1, 3)),
            lexer.get_tokens()[2]
        );
    }
    {
        let input = "2--".to_string();
        let mut lexer = LexicalAnalysis::new("test.c".to_string(), &input);

        lexer.read_token();

        assert_eq!(
            TokenInfo::new(Token::Number, "2".to_string(), ("test.c".to_string(), 1, 1)),
            lexer.get_tokens()[0]
        );
        assert_eq!(
            TokenInfo::new(Token::Dec, "--".to_string(), ("test.c".to_string(), 1, 2)),
            lexer.get_tokens()[1]
        );
        assert_eq!(
            TokenInfo::new(Token::End, "End".to_string(), ("test.c".to_string(), 1, 3)),
            lexer.get_tokens()[2]
        );
    }
    {
        let input = "--2".to_string();
        let mut lexer = LexicalAnalysis::new("test.c".to_string(), &input);

        lexer.read_token();

        assert_eq!(
            TokenInfo::new(Token::Dec, "--".to_string(), ("test.c".to_string(), 1, 1)),
            lexer.get_tokens()[0]
        );
        assert_eq!(
            TokenInfo::new(Token::Number, "2".to_string(), ("test.c".to_string(), 1, 3)),
            lexer.get_tokens()[1]
        );
        assert_eq!(
            TokenInfo::new(Token::End, "End".to_string(), ("test.c".to_string(), 1, 3)),
            lexer.get_tokens()[2]
        );
    }
}

#[test]
fn test_type() {
    {
        let input = "int a = 2;".to_string();
        let mut lexer = LexicalAnalysis::new("test.c".to_string(), &input);

        lexer.read_token();
        assert_eq!(
            TokenInfo::new(Token::Int, "int".to_string(), ("test.c".to_string(), 1, 1)),
            lexer.get_tokens()[0]
        );
        assert_eq!(
            TokenInfo::new(
                Token::Variable,
                "a".to_string(),
                ("test.c".to_string(), 1, 5)
            ),
            lexer.get_tokens()[1]
        );
        assert_eq!(
            TokenInfo::new(Token::Assign, "=".to_string(), ("test.c".to_string(), 1, 7)),
            lexer.get_tokens()[2]
        );
        assert_eq!(
            TokenInfo::new(Token::Number, "2".to_string(), ("test.c".to_string(), 1, 9)),
            lexer.get_tokens()[3]
        );
        assert_eq!(
            TokenInfo::new(
                Token::SemiColon,
                ";".to_string(),
                ("test.c".to_string(), 1, 10)
            ),
            lexer.get_tokens()[4]
        );
        assert_eq!(
            TokenInfo::new(Token::End, "End".to_string(), ("test.c".to_string(), 1, 10)),
            lexer.get_tokens()[5]
        );
    }
}

#[test]
fn lexer_test_variable() {
    {
        let input = "int ifi = 0;".to_string();
        let mut lexer = LexicalAnalysis::new("test.c".to_string(), &input);

        lexer.read_token();
        assert_eq!(
            TokenInfo::new(Token::Int, "int".to_string(), ("test.c".to_string(), 1, 1)),
            lexer.get_tokens()[0]
        );
        assert_eq!(
            TokenInfo::new(
                Token::Variable,
                "ifi".to_string(),
                ("test.c".to_string(), 1, 5)
            ),
            lexer.get_tokens()[1]
        );
        assert_eq!(
            TokenInfo::new(Token::Assign, "=".to_string(), ("test.c".to_string(), 1, 9)),
            lexer.get_tokens()[2]
        );
        assert_eq!(
            TokenInfo::new(
                Token::Number,
                "0".to_string(),
                ("test.c".to_string(), 1, 11)
            ),
            lexer.get_tokens()[3]
        );
        assert_eq!(
            TokenInfo::new(
                Token::SemiColon,
                ";".to_string(),
                ("test.c".to_string(), 1, 12)
            ),
            lexer.get_tokens()[4]
        );
        assert_eq!(
            TokenInfo::new(Token::End, "End".to_string(), ("test.c".to_string(), 1, 12)),
            lexer.get_tokens()[5]
        );
    }
    {
        let input = "int elsee = 0;".to_string();
        let mut lexer = LexicalAnalysis::new("test.c".to_string(), &input);

        lexer.read_token();
        assert_eq!(
            TokenInfo::new(Token::Int, "int".to_string(), ("test.c".to_string(), 1, 1)),
            lexer.get_tokens()[0]
        );
        assert_eq!(
            TokenInfo::new(
                Token::Variable,
                "elsee".to_string(),
                ("test.c".to_string(), 1, 5)
            ),
            lexer.get_tokens()[1]
        );
        assert_eq!(
            TokenInfo::new(
                Token::Assign,
                "=".to_string(),
                ("test.c".to_string(), 1, 11)
            ),
            lexer.get_tokens()[2]
        );
        assert_eq!(
            TokenInfo::new(
                Token::Number,
                "0".to_string(),
                ("test.c".to_string(), 1, 13)
            ),
            lexer.get_tokens()[3]
        );
        assert_eq!(
            TokenInfo::new(
                Token::SemiColon,
                ";".to_string(),
                ("test.c".to_string(), 1, 14)
            ),
            lexer.get_tokens()[4]
        );
        assert_eq!(
            TokenInfo::new(Token::End, "End".to_string(), ("test.c".to_string(), 1, 14)),
            lexer.get_tokens()[5]
        );
    }
    {
        let input = "int do_ = 0;".to_string();
        let mut lexer = LexicalAnalysis::new("test.c".to_string(), &input);

        lexer.read_token();
        assert_eq!(
            TokenInfo::new(Token::Int, "int".to_string(), ("test.c".to_string(), 1, 1)),
            lexer.get_tokens()[0]
        );
        assert_eq!(
            TokenInfo::new(
                Token::Variable,
                "do_".to_string(),
                ("test.c".to_string(), 1, 5)
            ),
            lexer.get_tokens()[1]
        );
        assert_eq!(
            TokenInfo::new(Token::Assign, "=".to_string(), ("test.c".to_string(), 1, 9)),
            lexer.get_tokens()[2]
        );
        assert_eq!(
            TokenInfo::new(
                Token::Number,
                "0".to_string(),
                ("test.c".to_string(), 1, 11)
            ),
            lexer.get_tokens()[3]
        );
        assert_eq!(
            TokenInfo::new(
                Token::SemiColon,
                ";".to_string(),
                ("test.c".to_string(), 1, 12)
            ),
            lexer.get_tokens()[4]
        );
        assert_eq!(
            TokenInfo::new(Token::End, "End".to_string(), ("test.c".to_string(), 1, 12)),
            lexer.get_tokens()[5]
        );
    }
    {
        let input = "int while0 = 0;".to_string();
        let mut lexer = LexicalAnalysis::new("test.c".to_string(), &input);

        lexer.read_token();
        assert_eq!(
            TokenInfo::new(Token::Int, "int".to_string(), ("test.c".to_string(), 1, 1)),
            lexer.get_tokens()[0]
        );
        assert_eq!(
            TokenInfo::new(
                Token::Variable,
                "while0".to_string(),
                ("test.c".to_string(), 1, 5)
            ),
            lexer.get_tokens()[1]
        );
        assert_eq!(
            TokenInfo::new(
                Token::Assign,
                "=".to_string(),
                ("test.c".to_string(), 1, 12)
            ),
            lexer.get_tokens()[2]
        );
        assert_eq!(
            TokenInfo::new(
                Token::Number,
                "0".to_string(),
                ("test.c".to_string(), 1, 14)
            ),
            lexer.get_tokens()[3]
        );
        assert_eq!(
            TokenInfo::new(
                Token::SemiColon,
                ";".to_string(),
                ("test.c".to_string(), 1, 15)
            ),
            lexer.get_tokens()[4]
        );
        assert_eq!(
            TokenInfo::new(Token::End, "End".to_string(), ("test.c".to_string(), 1, 15)),
            lexer.get_tokens()[5]
        );
    }
    {
        let input = "int forf = 0;".to_string();
        let mut lexer = LexicalAnalysis::new("test.c".to_string(), &input);

        lexer.read_token();
        assert_eq!(
            TokenInfo::new(Token::Int, "int".to_string(), ("test.c".to_string(), 1, 1)),
            lexer.get_tokens()[0]
        );
        assert_eq!(
            TokenInfo::new(
                Token::Variable,
                "forf".to_string(),
                ("test.c".to_string(), 1, 5)
            ),
            lexer.get_tokens()[1]
        );
        assert_eq!(
            TokenInfo::new(
                Token::Assign,
                "=".to_string(),
                ("test.c".to_string(), 1, 10)
            ),
            lexer.get_tokens()[2]
        );
        assert_eq!(
            TokenInfo::new(
                Token::Number,
                "0".to_string(),
                ("test.c".to_string(), 1, 12)
            ),
            lexer.get_tokens()[3]
        );
        assert_eq!(
            TokenInfo::new(
                Token::SemiColon,
                ";".to_string(),
                ("test.c".to_string(), 1, 13)
            ),
            lexer.get_tokens()[4]
        );
        assert_eq!(
            TokenInfo::new(Token::End, "End".to_string(), ("test.c".to_string(), 1, 13)),
            lexer.get_tokens()[5]
        );
    }
    {
        let input = "int break_ = 0;".to_string();
        let mut lexer = LexicalAnalysis::new("test.c".to_string(), &input);

        lexer.read_token();
        assert_eq!(
            TokenInfo::new(Token::Int, "int".to_string(), ("test.c".to_string(), 1, 1)),
            lexer.get_tokens()[0]
        );
        assert_eq!(
            TokenInfo::new(
                Token::Variable,
                "break_".to_string(),
                ("test.c".to_string(), 1, 5)
            ),
            lexer.get_tokens()[1]
        );
        assert_eq!(
            TokenInfo::new(
                Token::Assign,
                "=".to_string(),
                ("test.c".to_string(), 1, 12)
            ),
            lexer.get_tokens()[2]
        );
        assert_eq!(
            TokenInfo::new(
                Token::Number,
                "0".to_string(),
                ("test.c".to_string(), 1, 14)
            ),
            lexer.get_tokens()[3]
        );
        assert_eq!(
            TokenInfo::new(
                Token::SemiColon,
                ";".to_string(),
                ("test.c".to_string(), 1, 15)
            ),
            lexer.get_tokens()[4]
        );
        assert_eq!(
            TokenInfo::new(Token::End, "End".to_string(), ("test.c".to_string(), 1, 15)),
            lexer.get_tokens()[5]
        );
    }
    {
        let input = "int continue1 = 0;".to_string();
        let mut lexer = LexicalAnalysis::new("test.c".to_string(), &input);

        lexer.read_token();
        assert_eq!(
            TokenInfo::new(Token::Int, "int".to_string(), ("test.c".to_string(), 1, 1)),
            lexer.get_tokens()[0]
        );
        assert_eq!(
            TokenInfo::new(
                Token::Variable,
                "continue1".to_string(),
                ("test.c".to_string(), 1, 5)
            ),
            lexer.get_tokens()[1]
        );
        assert_eq!(
            TokenInfo::new(
                Token::Assign,
                "=".to_string(),
                ("test.c".to_string(), 1, 15)
            ),
            lexer.get_tokens()[2]
        );
        assert_eq!(
            TokenInfo::new(
                Token::Number,
                "0".to_string(),
                ("test.c".to_string(), 1, 17)
            ),
            lexer.get_tokens()[3]
        );
        assert_eq!(
            TokenInfo::new(
                Token::SemiColon,
                ";".to_string(),
                ("test.c".to_string(), 1, 18)
            ),
            lexer.get_tokens()[4]
        );
        assert_eq!(
            TokenInfo::new(Token::End, "End".to_string(), ("test.c".to_string(), 1, 18)),
            lexer.get_tokens()[5]
        );
    }
    {
        let input = "int return_val = 0;".to_string();
        let mut lexer = LexicalAnalysis::new("test.c".to_string(), &input);

        lexer.read_token();
        assert_eq!(
            TokenInfo::new(Token::Int, "int".to_string(), ("test.c".to_string(), 1, 1)),
            lexer.get_tokens()[0]
        );
        assert_eq!(
            TokenInfo::new(
                Token::Variable,
                "return_val".to_string(),
                ("test.c".to_string(), 1, 5)
            ),
            lexer.get_tokens()[1]
        );
        assert_eq!(
            TokenInfo::new(
                Token::Assign,
                "=".to_string(),
                ("test.c".to_string(), 1, 16)
            ),
            lexer.get_tokens()[2]
        );
        assert_eq!(
            TokenInfo::new(
                Token::Number,
                "0".to_string(),
                ("test.c".to_string(), 1, 18)
            ),
            lexer.get_tokens()[3]
        );
        assert_eq!(
            TokenInfo::new(
                Token::SemiColon,
                ";".to_string(),
                ("test.c".to_string(), 1, 19)
            ),
            lexer.get_tokens()[4]
        );
        assert_eq!(
            TokenInfo::new(Token::End, "End".to_string(), ("test.c".to_string(), 1, 19)),
            lexer.get_tokens()[5]
        );
    }
    {
        let input = "int* a = 2;".to_string();
        let mut lexer = LexicalAnalysis::new("test.c".to_string(), &input);

        lexer.read_token();
        assert_eq!(
            TokenInfo::new(
                Token::IntPointer,
                "int*".to_string(),
                ("test.c".to_string(), 1, 1)
            ),
            lexer.get_tokens()[0]
        );
        assert_eq!(
            TokenInfo::new(
                Token::Variable,
                "a".to_string(),
                ("test.c".to_string(), 1, 6)
            ),
            lexer.get_tokens()[1]
        );
        assert_eq!(
            TokenInfo::new(Token::Assign, "=".to_string(), ("test.c".to_string(), 1, 8)),
            lexer.get_tokens()[2]
        );
        assert_eq!(
            TokenInfo::new(
                Token::Number,
                "2".to_string(),
                ("test.c".to_string(), 1, 10)
            ),
            lexer.get_tokens()[3]
        );
        assert_eq!(
            TokenInfo::new(
                Token::SemiColon,
                ";".to_string(),
                ("test.c".to_string(), 1, 11)
            ),
            lexer.get_tokens()[4]
        );
        assert_eq!(
            TokenInfo::new(Token::End, "End".to_string(), ("test.c".to_string(), 1, 11)),
            lexer.get_tokens()[5]
        );
    }
    {
        let input = "int *a = 2;".to_string();
        let mut lexer = LexicalAnalysis::new("test.c".to_string(), &input);

        lexer.read_token();
        assert_eq!(
            TokenInfo::new(
                Token::IntPointer,
                "int*".to_string(),
                ("test.c".to_string(), 1, 1)
            ),
            lexer.get_tokens()[0]
        );
        assert_eq!(
            TokenInfo::new(
                Token::Variable,
                "a".to_string(),
                ("test.c".to_string(), 1, 6)
            ),
            lexer.get_tokens()[1]
        );
        assert_eq!(
            TokenInfo::new(Token::Assign, "=".to_string(), ("test.c".to_string(), 1, 8)),
            lexer.get_tokens()[2]
        );
        assert_eq!(
            TokenInfo::new(
                Token::Number,
                "2".to_string(),
                ("test.c".to_string(), 1, 10)
            ),
            lexer.get_tokens()[3]
        );
        assert_eq!(
            TokenInfo::new(
                Token::SemiColon,
                ";".to_string(),
                ("test.c".to_string(), 1, 11)
            ),
            lexer.get_tokens()[4]
        );
        assert_eq!(
            TokenInfo::new(Token::End, "End".to_string(), ("test.c".to_string(), 1, 11)),
            lexer.get_tokens()[5]
        );
    }
    {
        let input = "char ifi = 0;".to_string();
        let mut lexer = LexicalAnalysis::new("test.c".to_string(), &input);

        lexer.read_token();
        assert_eq!(
            TokenInfo::new(
                Token::Char,
                "char".to_string(),
                ("test.c".to_string(), 1, 1)
            ),
            lexer.get_tokens()[0]
        );
        assert_eq!(
            TokenInfo::new(
                Token::Variable,
                "ifi".to_string(),
                ("test.c".to_string(), 1, 6)
            ),
            lexer.get_tokens()[1]
        );
        assert_eq!(
            TokenInfo::new(
                Token::Assign,
                "=".to_string(),
                ("test.c".to_string(), 1, 10)
            ),
            lexer.get_tokens()[2]
        );
        assert_eq!(
            TokenInfo::new(
                Token::Number,
                "0".to_string(),
                ("test.c".to_string(), 1, 12)
            ),
            lexer.get_tokens()[3]
        );
        assert_eq!(
            TokenInfo::new(
                Token::SemiColon,
                ";".to_string(),
                ("test.c".to_string(), 1, 13)
            ),
            lexer.get_tokens()[4]
        );
        assert_eq!(
            TokenInfo::new(Token::End, "End".to_string(), ("test.c".to_string(), 1, 13)),
            lexer.get_tokens()[5]
        );
    }
}

#[test]
fn lexer_test_array() {
    {
        let input = "int a[3];".to_string();
        let mut lexer = LexicalAnalysis::new("test.c".to_string(), &input);

        lexer.read_token();
        assert_eq!(
            TokenInfo::new(Token::Int, "int".to_string(), ("test.c".to_string(), 1, 1)),
            lexer.get_tokens()[0]
        );
        assert_eq!(
            TokenInfo::new(
                Token::Variable,
                "a".to_string(),
                ("test.c".to_string(), 1, 5)
            ),
            lexer.get_tokens()[1]
        );
        assert_eq!(
            TokenInfo::new(
                Token::LeftBracket,
                "[".to_string(),
                ("test.c".to_string(), 1, 6)
            ),
            lexer.get_tokens()[2]
        );
        assert_eq!(
            TokenInfo::new(Token::Number, "3".to_string(), ("test.c".to_string(), 1, 7)),
            lexer.get_tokens()[3]
        );
        assert_eq!(
            TokenInfo::new(
                Token::RightBracket,
                "]".to_string(),
                ("test.c".to_string(), 1, 8)
            ),
            lexer.get_tokens()[4]
        );
        assert_eq!(
            TokenInfo::new(
                Token::SemiColon,
                ";".to_string(),
                ("test.c".to_string(), 1, 9)
            ),
            lexer.get_tokens()[5]
        );
        assert_eq!(
            TokenInfo::new(Token::End, "End".to_string(), ("test.c".to_string(), 1, 9)),
            lexer.get_tokens()[6]
        );
    }
}

#[test]
fn test_comment() {
    {
        let input = "2 + 1 / 3 * 7\n // comment".to_string();
        let mut lexer = LexicalAnalysis::new("test.c".to_string(), &input);

        lexer.read_token();

        assert_eq!(
            TokenInfo::new(Token::Number, "2".to_string(), ("test.c".to_string(), 1, 1)),
            lexer.get_tokens()[0]
        );
        assert_eq!(
            TokenInfo::new(Token::Plus, "+".to_string(), ("test.c".to_string(), 1, 3)),
            lexer.get_tokens()[1]
        );
        assert_eq!(
            TokenInfo::new(Token::Number, "1".to_string(), ("test.c".to_string(), 1, 5)),
            lexer.get_tokens()[2]
        );
        assert_eq!(
            TokenInfo::new(
                Token::Division,
                "/".to_string(),
                ("test.c".to_string(), 1, 7)
            ),
            lexer.get_tokens()[3]
        );
        assert_eq!(
            TokenInfo::new(Token::Number, "3".to_string(), ("test.c".to_string(), 1, 9)),
            lexer.get_tokens()[4]
        );
        assert_eq!(
            TokenInfo::new(Token::Multi, "*".to_string(), ("test.c".to_string(), 1, 11)),
            lexer.get_tokens()[5]
        );
        assert_eq!(
            TokenInfo::new(
                Token::Number,
                "7".to_string(),
                ("test.c".to_string(), 1, 13)
            ),
            lexer.get_tokens()[6]
        );
        assert_eq!(
            TokenInfo::new(Token::End, "End".to_string(), ("test.c".to_string(), 2, 13)),
            lexer.get_tokens()[7]
        );
    }
    {
        let input = "// comment\n2 + 1 / 3 * 7".to_string();
        let mut lexer = LexicalAnalysis::new("test.c".to_string(), &input);

        lexer.read_token();

        assert_eq!(
            TokenInfo::new(Token::Number, "2".to_string(), ("test.c".to_string(), 2, 1)),
            lexer.get_tokens()[0]
        );
        assert_eq!(
            TokenInfo::new(Token::Plus, "+".to_string(), ("test.c".to_string(), 2, 3)),
            lexer.get_tokens()[1]
        );
        assert_eq!(
            TokenInfo::new(Token::Number, "1".to_string(), ("test.c".to_string(), 2, 5)),
            lexer.get_tokens()[2]
        );
        assert_eq!(
            TokenInfo::new(
                Token::Division,
                "/".to_string(),
                ("test.c".to_string(), 2, 7)
            ),
            lexer.get_tokens()[3]
        );
        assert_eq!(
            TokenInfo::new(Token::Number, "3".to_string(), ("test.c".to_string(), 2, 9)),
            lexer.get_tokens()[4]
        );
        assert_eq!(
            TokenInfo::new(Token::Multi, "*".to_string(), ("test.c".to_string(), 2, 11)),
            lexer.get_tokens()[5]
        );
        assert_eq!(
            TokenInfo::new(
                Token::Number,
                "7".to_string(),
                ("test.c".to_string(), 2, 13)
            ),
            lexer.get_tokens()[6]
        );
        assert_eq!(
            TokenInfo::new(Token::End, "End".to_string(), ("test.c".to_string(), 2, 13)),
            lexer.get_tokens()[7]
        );
    }
}

#[test]
fn test_string() {
    {
        let input = r#""test""#.to_string();
        let mut lexer = LexicalAnalysis::new("test.c".to_string(), &input);

        lexer.read_token();
        assert_eq!(
            TokenInfo::new(
                Token::StringLiteral,
                "test".to_string(),
                ("test.c".to_string(), 1, 1)
            ),
            lexer.get_tokens()[0]
        );
        assert_eq!(
            TokenInfo::new(Token::End, "End".to_string(), ("test.c".to_string(), 1, 6)),
            lexer.get_tokens()[1]
        );
    }
    {
        let input = r#""test, test world""#.to_string();
        let mut lexer = LexicalAnalysis::new("test.c".to_string(), &input);

        lexer.read_token();
        assert_eq!(
            TokenInfo::new(
                Token::StringLiteral,
                "test, test world".to_string(),
                ("test.c".to_string(), 1, 1)
            ),
            lexer.get_tokens()[0]
        );
        assert_eq!(
            TokenInfo::new(Token::End, "End".to_string(), ("test.c".to_string(), 1, 18)),
            lexer.get_tokens()[1]
        );
    }
}

#[test]
fn test_sizeof() {
    {
        let input = "sizeof(a);".to_string();
        let mut lexer = LexicalAnalysis::new("test.c".to_string(), &input);

        lexer.read_token();
        assert_eq!(
            TokenInfo::new(
                Token::SizeOf,
                "sizeof".to_string(),
                ("test.c".to_string(), 1, 1)
            ),
            lexer.get_tokens()[0]
        );
        assert_eq!(
            TokenInfo::new(
                Token::LeftParen,
                "(".to_string(),
                ("test.c".to_string(), 1, 7)
            ),
            lexer.get_tokens()[1]
        );
        assert_eq!(
            TokenInfo::new(
                Token::Variable,
                "a".to_string(),
                ("test.c".to_string(), 1, 8)
            ),
            lexer.get_tokens()[2]
        );
        assert_eq!(
            TokenInfo::new(
                Token::RightParen,
                ")".to_string(),
                ("test.c".to_string(), 1, 9)
            ),
            lexer.get_tokens()[3]
        );
        assert_eq!(
            TokenInfo::new(
                Token::SemiColon,
                ";".to_string(),
                ("test.c".to_string(), 1, 10)
            ),
            lexer.get_tokens()[4]
        );
        assert_eq!(
            TokenInfo::new(Token::End, "End".to_string(), ("test.c".to_string(), 1, 10)),
            lexer.get_tokens()[5]
        );
    }
}

#[test]
fn test_plus_assign() {
    {
        let input = "a += 1;".to_string();
        let mut lexer = LexicalAnalysis::new("test.c".to_string(), &input);

        lexer.read_token();
        assert_eq!(
            TokenInfo::new(
                Token::Variable,
                "a".to_string(),
                ("test.c".to_string(), 1, 1)
            ),
            lexer.get_tokens()[0]
        );
        assert_eq!(
            TokenInfo::new(
                Token::PlusAssign,
                "+=".to_string(),
                ("test.c".to_string(), 1, 3)
            ),
            lexer.get_tokens()[1]
        );
        assert_eq!(
            TokenInfo::new(
                Token::Number,
                "1".to_string(),
                ("test.c".to_string(), 1, 6)
            ),
            lexer.get_tokens()[2]
        );
        assert_eq!(
            TokenInfo::new(
                Token::SemiColon,
                ";".to_string(),
                ("test.c".to_string(), 1, 7)
            ),
            lexer.get_tokens()[3]
        );
        assert_eq!(
            TokenInfo::new(Token::End, "End".to_string(), ("test.c".to_string(), 1, 7)),
            lexer.get_tokens()[4]
        );
    }
}

#[test]
fn test_minus_assign() {
    {
        let input = "a -= 1;".to_string();
        let mut lexer = LexicalAnalysis::new("test.c".to_string(), &input);

        lexer.read_token();
        assert_eq!(
            TokenInfo::new(
                Token::Variable,
                "a".to_string(),
                ("test.c".to_string(), 1, 1)
            ),
            lexer.get_tokens()[0]
        );
        assert_eq!(
            TokenInfo::new(
                Token::MinusAssign,
                "-=".to_string(),
                ("test.c".to_string(), 1, 3)
            ),
            lexer.get_tokens()[1]
        );
        assert_eq!(
            TokenInfo::new(
                Token::Number,
                "1".to_string(),
                ("test.c".to_string(), 1, 6)
            ),
            lexer.get_tokens()[2]
        );
        assert_eq!(
            TokenInfo::new(
                Token::SemiColon,
                ";".to_string(),
                ("test.c".to_string(), 1, 7)
            ),
            lexer.get_tokens()[3]
        );
        assert_eq!(
            TokenInfo::new(Token::End, "End".to_string(), ("test.c".to_string(), 1, 7)),
            lexer.get_tokens()[4]
        );
    }
}

#[test]
fn test_multiple_assign() {
    {
        let input = "a *= 1;".to_string();
        let mut lexer = LexicalAnalysis::new("test.c".to_string(), &input);

        lexer.read_token();
        assert_eq!(
            TokenInfo::new(
                Token::Variable,
                "a".to_string(),
                ("test.c".to_string(), 1, 1)
            ),
            lexer.get_tokens()[0]
        );
        assert_eq!(
            TokenInfo::new(
                Token::MultipleAssign,
                "*=".to_string(),
                ("test.c".to_string(), 1, 3)
            ),
            lexer.get_tokens()[1]
        );
        assert_eq!(
            TokenInfo::new(
                Token::Number,
                "1".to_string(),
                ("test.c".to_string(), 1, 6)
            ),
            lexer.get_tokens()[2]
        );
        assert_eq!(
            TokenInfo::new(
                Token::SemiColon,
                ";".to_string(),
                ("test.c".to_string(), 1, 7)
            ),
            lexer.get_tokens()[3]
        );
        assert_eq!(
            TokenInfo::new(Token::End, "End".to_string(), ("test.c".to_string(), 1, 7)),
            lexer.get_tokens()[4]
        );
    }
}

#[test]
fn test_division_assign() {
    {
        let input = "a /= 1;".to_string();
        let mut lexer = LexicalAnalysis::new("test.c".to_string(), &input);

        lexer.read_token();
        assert_eq!(
            TokenInfo::new(
                Token::Variable,
                "a".to_string(),
                ("test.c".to_string(), 1, 1)
            ),
            lexer.get_tokens()[0]
        );
        assert_eq!(
            TokenInfo::new(
                Token::DivisionAssign,
                "/=".to_string(),
                ("test.c".to_string(), 1, 3)
            ),
            lexer.get_tokens()[1]
        );
        assert_eq!(
            TokenInfo::new(
                Token::Number,
                "1".to_string(),
                ("test.c".to_string(), 1, 6)
            ),
            lexer.get_tokens()[2]
        );
        assert_eq!(
            TokenInfo::new(
                Token::SemiColon,
                ";".to_string(),
                ("test.c".to_string(), 1, 7)
            ),
            lexer.get_tokens()[3]
        );
        assert_eq!(
            TokenInfo::new(Token::End, "End".to_string(), ("test.c".to_string(), 1, 7)),
            lexer.get_tokens()[4]
        );
    }
}

#[test]
fn test_remainder_assign() {
    {
        let input = "a %= 1;".to_string();
        let mut lexer = LexicalAnalysis::new("test.c".to_string(), &input);

        lexer.read_token();
        assert_eq!(
            TokenInfo::new(
                Token::Variable,
                "a".to_string(),
                ("test.c".to_string(), 1, 1)
            ),
            lexer.get_tokens()[0]
        );
        assert_eq!(
            TokenInfo::new(
                Token::RemainderAssign,
                "%=".to_string(),
                ("test.c".to_string(), 1, 3)
            ),
            lexer.get_tokens()[1]
        );
        assert_eq!(
            TokenInfo::new(
                Token::Number,
                "1".to_string(),
                ("test.c".to_string(), 1, 6)
            ),
            lexer.get_tokens()[2]
        );
        assert_eq!(
            TokenInfo::new(
                Token::SemiColon,
                ";".to_string(),
                ("test.c".to_string(), 1, 7)
            ),
            lexer.get_tokens()[3]
        );
        assert_eq!(
            TokenInfo::new(Token::End, "End".to_string(), ("test.c".to_string(), 1, 7)),
            lexer.get_tokens()[4]
        );
    }
}
