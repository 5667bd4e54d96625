use rcc::config::Config;
use rcc::{compile, try_compile};

fn outcome(src: &str) -> Option<Result<String, Vec<String>>> {
    try_compile(src, Config { mac: false })
}

#[test]
fn compile_accepts_sample_programs() {
    let programs = [
        "int main() { return 1+2; }",
        "int main() { return 10+20; }",
        "int main() { return 100+101; }",
        "int main() { return 20-1; }",
        "int main() { return 20-10; }",
        "int main() { return 20-19; }",
        "int main() { return 1+2+3; }",
        "int main() { return 1+2-3; }",
        "int main() { return 100-2-3; }",
        "int main() { return 2*4; }",
        "int main() { return 3*4; }",
        "int main() { return 5*2*3; }",
        "int main() { return 5*2*3-10; }",
        "int main() { return 5+2*3; }",
        "int main() { return 2*3+3*4; }",
        "int main() { return (12+16); }",
        "int main() { return (29-16); }",
        "int main() { return (12+16)+3; }",
        "int main() { return 3+(12+16); }",
        "int main() { return (10+4)*10; }",
        "int main() { return 10*(10+4); }",
        "int main() { return 10/5; }",
        "int main() { return 20/5/2; }",
        "int main() { return 20/3; }",
        "int main() { return 2+20/3; }",
        "int main() { return 20/3+3; }",
        "int main() { return 20%3; }",
        "int main() { return 10+20%3; }",
        "int main() { return 2==2; }",
        "int main() { return 2+2==2*2; }",
        "int main() { return 20/10==2; }",
        "int main() { return 1==2; }",
        "int main() { return 2!=2; }",
        "int main() { return 2+2!=2*2; }",
        "int main() { return 20/10!=2; }",
        "int main() { return 1!=2; }",
        "int main() { return 1>2; }",
        "int main() { return 1<2; }",
        "int main() { return 1+3-1>2*4; }",
        "int main() { return 1*3+20>4*2/2; }",
        "int main() { return 1>=2; }",
        "int main() { return 1>=1; }",
        "int main() { return 2>=1; }",
        "int main() { return 1<=2; }",
        "int main() { return 2<=2; }",
        "int main() { return 2<=3; }",
        "int main() { return 1+3-1>=2*4; }",
        "int main() { return 1+3-1+5>=2*4; }",
        "int main() { return 1*3+20>=4*2/2; }",
        "int main() { return 1*3+20>=23; }",
        "int main() { return 1+3-1<=2*4; }",
        "int main() { return 1+3-1+5<=2*4; }",
        "int main() { return 1*3+20<=4*2/2; }",
        "int main() { return 1*3+20<=23; }",
        "int main() { return 3*(2+2) >= 4+(3*1); }",
        "int main() { return 1&&1; }",
        "int main() { return 0&&1; }",
        "int main() { return (1 + 1) && (2 * 1); }",
        "int main() { return 1 == 1 && 2 < 1; }",
        "int main() { return 4 / 2 == 0 + 2 && 2 > 1; }",
        "int main() { return 1||1; }",
        "int main() { return 0||0; }",
        "int main() { return (1 + 1) || (2 * 1); }",
        "int main() { return 1 != 1 || 2 < 1; }",
        "int main() { return 4 / 2 == 0 + 2 || 2 < 1; }",
        "int main() { return (1 == 0 && 1) && (2 < 1 || 0); }",
        "int main() { return 2 ? 1 : 3; }",
        "int main() { return 2 > 1 ? 1 : 3; }",
        "int main() { return 2 < 1 ? 1 : 3; }",
        "int main() { return 2 > 1 ? (2 ? 10 : 100) : 3; }",
        "int main() { return 2 == 1 ? (2 == 2 ? 9 : 99) : (0 ? 10 : 100); }",
        "int main() { return +2; }",
        "int main() { return 5 + (-5); }",
        "int main() { return 3 - + - + - + - 2; }",
        "int main() { return !2; }",
        "int main() { return !(2 + 2 == 3 * 4); }",
        "int main() { return !(2 != 3); }",
        "int main() { return 2<<1; }",
        "int main() { return 2>>1; }",
        "int main() { return 2<<1<<1; }",
        "int main() { return 8>>1>>1; }",
        "int main() { return 2<<3; }",
        "int main() { return 16>>2; }",
        "int main() { return 5>>1; }",
        "int main() { return 1&1; }",
        "int main() { return 1&0; }",
        "int main() { return 1|0; }",
        "int main() { return 1|1; }",
        "int main() { return 1^1; }",
        "int main() { return 0^1; }",
        "int main() { return 0^0; }",
        "int main() { return 1&0|1; }",
        "int main() { return 183&109; }",
        "int main() { return 183|109; }",
        "int main() { return 183^109; }",
        "int main() { return ~183 & 255; }",
        "int main() { 2+2; return 1+2; }",
        "int main() { 5>>1; return 1 != 2; }",
        "int main() { int x; x = 4; x = x * x + 1; x = x + 3; return x; }",
        "int main() { int x; x = 2 * 3 * 4; return x; }",
        "int main() { int x; x = x = x = 3; return x; }",
        "int test() { return 1; } int main() { return test(); }",
        "int test() { int a; a = 1; return a + 19;} int main() { return test(); }",
        "int test() { return 1; } int main() { test(); return 10; }",
        "int test(int x) { return x + 1; } int main() { return test(1); }",
        "int test(int x) { x = x * 2; return x + 10; } int main() { int b; b = 10; return test(b); }",
        "int main() { int a; a = 0; if (10 == 10) { a = 2; a = a * 9; } return a; }",
        "int main() { if (10 != 10) { int a; a = 2; a * 9; } return 2; }",
        "int main() { if (2 == 10) { int a; a = 2; a * 9; } return 11; }",
        "int main() { int a; a = 0; if (1 != 10) { a = 3; a = a + 9; } return a; }",
        "int main() { if (1 == 10) { return 9; } else { return 4; } }",
        "int main() { int a; a = 0; while (a < 1) { a = a + 1; } return a; }",
        "int main() { int a; a = 0; while (a < 2) { a = a + 1; } return a; }",
        "int main() { int a; a = 0; while (a <= 2) { a = a + 1; } return a; }",
        "int main() { int a; a = 8; int b; b = 1; a = a + b; return a; }",
        "int main() { int i; i = 0; for (i = 0 ; i < 2 ; i = i + 1) {;} return 11; }",
        "int main() { int a; a = 0; int i; i = 0; for (i = 0 ; i < 10 ; i = i + 1) { a = a + 1;} return a; }",
        "int test(int x, int y) { return x + y; } int main() { return test(1, 4); }",
        "int main() { int a; a = 0; do { a = a + 1; } while (a <= 2); return a; }",
        "int main() { int i; i = 0; while (1) { i = i + 1; if (i < 100) { continue; } else { break; } } return i; }",
        "int main() { int i; i = 0; do { i = i + 1; if (i < 100) { continue; } else { break; } } while(1); return i; }",
        "int main() { int i; i = 0; for (;; i = i + 1) { if (i < 100) { continue; } else { break; } } return i; }",
        "int main() { return 1; }",
        "int main() { return 1 + 2; }",
        "int main() { int a; a = 100; return a; }",
        "int main() { return 1 == 4; }",
        "int main() { int a; a = 0; if (1 == 10) a = 9; else a = 4; return a; }",
        "int main() { if (1 != 10) return 1; else return 10; }",
        "int main() { int a = 2; a = a * 29; return a; }",
        "int main() { int x; x = 7; return *&x; }",
        "int main() { int x; int y; x = 7; y = 5; return *&x * *&y; }",
        "int main() {\n\tint a = 10;\n    return a;\n }",
        "int main() {\n\tint a = 12901;\n    return a == 12901;\n }",
        "int main() {\n\tint a = 9;\n\tint *b; b = &a; return *b;\n }",
        "int main() {\n\tint a = 9;\n\tint *b = &a; return 10 * *b;\n }",
        "int main() {\n\tint* a; int b = 123; a = &b; *a = 20;\nreturn b;\n }",
        "int main() {\n\tint* a; int b = 123; a = &b; int c = 99; *a = c;\nreturn b;\n }",
        "int main() {int* a; int b = 123; a = &b; int* c; int d = 89; c = &d; *a = *c; return b;\n }",
        "int main() {\n\tint* a; int b = 123; a = &b; a = a + 2; int* c = &b; c = c + 2; \nreturn c == a;\n }",
        "int main() {\n\tint* a; int b = 123; a = &b; a = a - 4; int* c = &b; c = c - 4; \nreturn c == a;\n }",
        "int main() {\n\tint* a; int b = 123; a = &b; a = a + 2; int* c = &b; \nreturn c != a;\n }",
        "int main() {\n\tint* a; int b = 123; a = &b; a = a - 4; int* c = &b; \nreturn c != a;\n }",
        "int test(int x) { return x; } int main() { int a = 3; return test(a - 1); }",
        "int test(int x) { if (x == 0) return 0; else return 1 + test(x - 1); } int main() { return test(10); }",
        "int fib(int x) { if (x == 0 || x == 1) return 1; else return fib(x - 2) + fib(x - 1); } int main() { return fib(2); }",
        "int fib(int x) { if (x == 0 || x == 1) return 1; else return fib(x - 2) + fib(x - 1); } int main() { return fib(6); }",
        "int test(int x) { if(x == 0) return 1; return 2; } int main() { return test(1); }",
        "int test(int x) { if(x == 0) return 1; return 2; } int main() { return test(0); }",
        "int main() { int a[2]; return 1; }",
        "int main() { int x[5]; int i; int* y; for (i = 0; i < 5; i = i + 1) { y = x + i; *y = i; } return *y; }",
        "int main() { int* i; int y = 10; i = &y; return *i + 20; }",
        "int main() { int* i; int y = 10; i = &y; int x = *i + 2; return x; }",
        "int main() { int* i; int y = 10; i = &y; *i = *i + 20; return *i; }",
        "int main() { int* i; int y = 10; i = &y; *i = *i - 2; return *i; }",
        "int main() { int* i; int y = 10; i = &y; *i = *i + 100 -10; return *i; }",
        "int main() { int a[10]; int *x = a; *(x + 2) = 100; return *(x + 2); }",
        "int test(int* x) { *x = 100; return 0; } int main() { int a = 3; int *b; b = &a; test(b); return *b; }",
        "int main() { int a; int *b; b = &a; *b = 131; return *b - 100; }",
    ];
    for p in programs.iter() {
        match outcome(p) {
            Some(Ok(text)) => assert!(text.contains(".global main\nmain:\n"), "no main label for {}", p),
            other => panic!("{} gave {:?}", p, other),
        }
    }
}

/// Declarations separated by commas, indexing, global variables, `++` and
/// `--`, `char` variables, string literals and statements without their
/// `;` are not read by the parser: the translation stops with a syntax
/// error.
#[test]
fn compile_stops_on_constructs_the_parser_does_not_read() {
    let programs = [
        "int main() { int a, b; a = 10; b = 7; return a * b; }",
        "int main() { int a[10]; a[1] = 121; return a[1] * 2; }",
        "int main() { int a[10]; a[9] = 200; return a[9] - 100; }",
        "int main() { int a[10]; a[0] = 11; return a[0] + 100; }",
        "int main() { int a[10]; a[2] = 10; return a[2]; }",
        "int main() { int a[10]; int i; for(i = 0 ; i < 10 ; i++) { a[i] = i; } return a[0] + a[1] + a[2]; }",
        "int main() { int a[10]; int i; for(i = 0 ; i < 10 ; i++) { a[i] = i; } return a[8] + a[9]; }",
        "int main() { int a[10]; int i; for(i = 0 ; i < 10 ; i++) { a[i] = i * 2; } return a[7]; }",
        "int main() { int a[10][10]; a[2][9] = 10; return a[2][9]; }",
        "int main() { int a[10][10]; a[2][9] = 10; a[1][7] = 7 return a[2][9] + a[1][7]; }",
        "int main() { int a[10][10]; int i; for(i = 0 ; i < 10 ; i++) { a[7][i] = i; } return a[7][9] * a[7][2]; }",
        "int main() { int a[10][8][2]; a[9][1][1] = 99; return a[9][1][1]; }",
        "int main() { int a[10][8][2]; a[0][0][0] = 100; a[9][0][1] = 99; return a[0][0][0] + a[9][0][1]; }",
        "int main() { int a[10][8][2]; a[0][0][0] = 100; a[9][0][1] = 99; int x = 2; return a[0][0][0] + a[9][0][1] + x; }",
        "int main() { int a[10][10]; int i; int j; for(i = 0 ; i < 10 ; i++) { for (j = 0 ; j < 10 ; j++) { a[i][j] = j; } } return a[0][0] + a[1][7] + a[4][5] + a[9][3]; }",
        "int b; int main() { b = 10; return b; }",
        "int b; int main() { b = 10; return b + 2; }",
        "int b; int main() { b = 10; return b * 2; }",
        "int a; int main() { a = 10; int b = a; return b + 3; }",
        "int a[10]; int main() { a[0] = 10; return a[0]; }",
        "int a[10]; int main() { a[0] = 10; a[9] = 9; return a[0] + a[9]; }",
        "int* a; int main() { int b; b = 99; a = &b; return *a; }",
        "int a[10]; int main() { int i; for (i = 0 ; i < 10 ; i++) { a[i] = i * 2; } return a[1] + a[4] + a[8]; }",
        "int main() { int i = 2; i++; return i; }",
        "int main() { int i = 2; i-- return i; }",
        "int main() { int i = 2; return i++; }",
        "int main() { int i = 2; return i-- }",
        "int i; int main() { i = 2; i++; return i; }",
        "int i; int main() { i = 2; i-- return i; }",
        "int i; int main() { i = 2; return i++; }",
        "int i; int main() { i = 2; return i-- }",
        "int main() { int a[10]; int *b = a; b++; *b = 100; return a[1]; }",
        "int main() { int a[10]; int *b = a; b++; *b = 99; return *b; }",
        "int main() { int a[10]; int *b = a; b++; b++; b--; *b = 99; return a[1]; }",
        "int main() { int a[10]; int *b = a; b++; b++; b--; *b = 99; return *b; }",
        "int i; int main() { i = 2; ++i; return i; }",
        "int i; int main() { i = 2; --i return i; }",
        "int i; int main() { i = 2; return ++i; }",
        "int i; int main() { i = 2; return --i }",
        "int main() { int a[10]; int *b = a; ++b; *b = 100; return a[1]; }",
        "int main() { int a[10]; int *b = a; ++b; *b = 99; return *b; }",
        "int main() { int a[10]; int *b = a; ++b; ++b; --b; *b = 99; return a[1]; }",
        "int main() { int a[10]; int *b = a; ++b; ++b; --b; *b = 99; return *b; }",
        "int main() { char i; i = 2; return i }",
        "int main() { char i[2]; i[0] = 0; i[1] = 19; return i[0] + i[1]; }",
        "char i; int main() { i = 20; return i }",
        "int main() { char* i; char y = 10; i = &y; return *i + 20; }",
        "int main() { char* i; char y = 10; i = &y; char x = *i + 2; return x; }",
        "int main() { char* i; char y = 10; i = &y; *i = *i + 20; return *i; }",
        "int main() { char* i; char y = 10; i = &y; *i = *i - 2; return *i; }",
        "int main() { char* i; char y = 10; i = &y; *i = *i + 100 -10; return *i; }",
        "int main() { char a[10]; char *x = a; *(x + 2) = 100; return *(x + 2); }",
        "char a[10]; char main() { char i; for (i = 0 ; i < 10 ; i++) { a[i] = i * 2; } return a[1] + a[4] + a[8]; }",
        "char main() { char i[10]; char *x = i; *(i + 1) = 77; return i[1]; }",
        "int main() { char* i; i = \"test\"; return 1; }",
        "int main() { char* a; a = \"test\"; char* b; b = \"bbbb\"; return 9; }",
    ];
    for p in programs.iter() {
        assert_eq!(outcome(p), None, "{}", p);
        assert_eq!(compile(p, Config { mac: false }), Err(vec!["Syntax error".to_string()]), "{}", p);
    }
}

#[test]
fn compile_reports_unknown_types() {
    let programs = [
        "ttt main() {\n\treturn 1;\n }",
        "in main() {\n\treturn 1;\n }",
    ];
    for p in programs.iter() {
        match outcome(p) {
            Some(Err(errs)) => assert!(!errs.is_empty()),
            other => panic!("{} gave {:?}", p, other),
        }
    }
}

#[test]
fn compile_error_names_the_unknown_type() {
    let r = outcome("ttt main() {\n\treturn 1;\n }");
    assert_eq!(r, Some(Err(vec!["Cannot found Type: \"ttt\"".to_string()])));
}

#[test]
fn compile_gives_an_error_list_on_failure() {
    let c = Config { mac: false };
    assert_eq!(compile("int main() { return (1; }", c), Err(vec!["Syntax error".to_string()]));
    assert_eq!(compile("", c), Err(vec!["Empty source".to_string()]));
    assert_eq!(compile("int main() { return 1 @ 2; }", c), Err(vec!["Invalid token".to_string()]));
    assert_eq!(
        compile("ttt main() {\n\treturn 1;\n }", c),
        Err(vec!["Cannot found Type: \"ttt\"".to_string()])
    );
    let ok = compile("int main() { return 1+2; }", c);
    assert_eq!(ok, try_compile("int main() { return 1+2; }", c).unwrap());
    assert!(ok.is_ok());
}
