use rcc::codegen::Label;
use rcc::config::Config;
use rcc::try_compile;

#[test]
fn label_numbers_count_up() {
    let mut l = Label::new();
    assert_eq!(l.get_return_label(), 0);
    assert_eq!(l.next_label(), 1);
    assert_eq!(l.next_label(), 2);
    assert_eq!(l.next_return_label(), 3);
    assert_eq!(l.get_return_label(), 3);
    assert_eq!(l.next_label(), 4);
    assert_eq!(l.get_return_label(), 3);
}

#[test]
fn label_pop_after_push() {
    let mut l = Label::new();
    assert_eq!(l.pop_continue(), None);
    assert_eq!(l.pop_break(), None);
    l.push_continue(7);
    l.push_continue(9);
    l.push_break(8);
    assert_eq!(l.pop_continue(), Some(9));
    assert_eq!(l.pop_continue(), Some(7));
    assert_eq!(l.pop_continue(), None);
    assert_eq!(l.pop_break(), Some(8));
    assert_eq!(l.pop_break(), None);
}

#[test]
fn label_remove_takes_every_occurrence() {
    let mut l = Label::new();
    l.push_continue(1);
    l.push_continue(2);
    l.push_continue(1);
    l.push_continue(3);
    l.remove_continue(1);
    assert_eq!(l.pop_continue(), Some(3));
    assert_eq!(l.pop_continue(), Some(2));
    assert_eq!(l.pop_continue(), None);

    l.push_break(5);
    l.push_break(6);
    l.remove_break(6);
    assert_eq!(l.pop_break(), Some(5));
    assert_eq!(l.pop_break(), None);
}

#[test]
fn label_remove_after_push_restores() {
    let mut l = Label::new();
    l.push_break(4);
    l.push_break(10);
    l.remove_break(10);
    assert_eq!(l.pop_break(), Some(4));
    assert_eq!(l.pop_break(), None);
}

#[test]
fn compile_exact_text_of_a_sum() {
    let r = try_compile("int main() { return 1+2; }", Config { mac: false });
    let expected = [
        "  .text\n.global main\nmain:\n",
        "  push %rbp\n  mov %rsp, %rbp\n  sub $8, %rsp\n",
        "  sub $8, %rsp\n  movq $1, (%rsp)\n  movq $1, 0(%rsp)\n",
        "  sub $8, %rsp\n  movq $2, (%rsp)\n  movq $2, 0(%rsp)\n",
        "  pop %rcx\n  pop %rax\n  add %rcx, %rax\n  push %rax\n",
        "  pop %rax\n  jmp .L1\n",
        ".L1:\n",
        "  add $8, %rsp\n  pop %rbp\n  ret\n",
    ]
    .join("");
    assert_eq!(r, Some(Ok(expected)));
}

#[test]
fn compile_prefixes_symbols_on_mac() {
    let src = "int test() { return 1; } int main() { return test(); }";
    let mac = try_compile(src, Config { mac: true }).unwrap().unwrap();
    let linux = try_compile(src, Config { mac: false }).unwrap().unwrap();
    assert!(mac.contains(".global _main\n_main:\n"));
    assert!(mac.contains("_test:\n"));
    assert!(mac.contains("  call _test\n"));
    assert!(linux.contains(".global main\nmain:\n"));
    assert!(linux.contains("  call test\n"));
    assert!(!linux.contains("_test"));
}

#[test]
fn compile_errors_do_not_depend_on_target() {
    let src = "ttt main() {\n\treturn 1;\n }";
    let a = try_compile(src, Config { mac: true });
    let b = try_compile(src, Config { mac: false });
    assert_eq!(a, b);
    match a {
        Some(Err(errs)) => assert!(!errs.is_empty()),
        other => panic!("unexpected {:?}", other),
    }
}

#[test]
fn compile_loop_labels_are_fresh() {
    let src = "int main() { int a; a = 0; while (a < 2) { a = a + 1; } while (a < 4) { a = a + 1; } return a; }";
    let text = try_compile(src, Config { mac: false }).unwrap().unwrap();
    for n in 1..6 {
        let def = format!(".L{}:\n", n);
        assert_eq!(text.matches(def.as_str()).count(), 1, "label {} in {}", n, text);
    }
}

#[test]
fn compile_refuses_what_cannot_be_read() {
    // An empty source, a character that starts no token, and tokens that
    // form no program stop the translation.
    assert_eq!(try_compile("", Config { mac: false }), None);
    assert_eq!(try_compile("int main() { return 1 @ 2; }", Config { mac: false }), None);
    assert_eq!(try_compile("return 1;", Config { mac: false }), None);
}

#[test]
fn compile_refuses_call_of_unknown_name() {
    // A name that is neither a variable nor a function defined before it
    // forms no expression.
    assert_eq!(try_compile("int main() { return nothing(); }", Config { mac: false }), None);
}

#[test]
fn compile_refuses_a_second_definition() {
    let src = "int f() { return 1; } int f() { return 2; } int main() { return f(); }";
    assert_eq!(try_compile(src, Config { mac: false }), None);
    let once = "int f() { return 1; } int g() { return 2; } int main() { return f() + g(); }";
    assert!(matches!(try_compile(once, Config { mac: false }), Some(Ok(_))));
}

#[test]
fn compile_inner_loop_gives_back_the_break_label() {
    // Labels: 1 return, 2 and 3 the outer loop, 4 and 5 the inner loop. The
    // `break` after the inner loop leaves the outer loop.
    let src = "int main() { int a; a = 0; while (a < 3) { while (a < 1) { a = a + 1; } break; } return a; }";
    let text = try_compile(src, Config { mac: false }).unwrap().unwrap();
    let inner_end = text.find(".L5:\n").unwrap();
    let after = &text[inner_end..];
    assert!(after.starts_with(".L5:\n  jmp .L3\n"), "{}", text);
}

#[test]
fn compile_locals_share_one_table() {
    // The locals of all functions are in one table: x, a and b give each
    // function a frame of 3 * 8 + 8 bytes.
    let src = "int f(int x) { int a; a = x; return a; } int main() { int b; b = 2; return f(b); }";
    let text = try_compile(src, Config { mac: false }).unwrap().unwrap();
    assert_eq!(text.matches("  sub $32, %rsp\n").count(), 2, "{}", text);
    assert_eq!(text.matches("  add $32, %rsp\n").count(), 2, "{}", text);
    // A name used in two functions is one local: a frame of 1 * 8 + 8 bytes.
    let src = "int f() { int a; a = 1; return a; } int main() { int a; a = 2; return f() + a; }";
    let text = try_compile(src, Config { mac: false }).unwrap().unwrap();
    assert_eq!(text.matches("  sub $16, %rsp\n").count(), 2, "{}", text);
}
