use vstd::prelude::*;
use crate::arch::Generator;
use crate::text::{append, i64_text, i64_to_string, lit, usize_text, usize_to_string};

verus! {

/// The text of `push`.
pub open spec fn push_text(reg: Seq<char>) -> Seq<char> {
    "  push %"@ + reg + "\n"@
}

/// The text of `pop`.
pub open spec fn pop_text(reg: Seq<char>) -> Seq<char> {
    "  pop %"@ + reg + "\n"@
}

/// The text of `label`.
pub open spec fn label_text(no: usize) -> Seq<char> {
    ".L"@ + usize_text(no) + ":\n"@
}

/// The text of `jmp`.
pub open spec fn jmp_text(no: usize) -> Seq<char> {
    "  jmp .L"@ + usize_text(no) + "\n"@
}

/// The text of `je`.
pub open spec fn je_text(no: usize) -> Seq<char> {
    "  je .L"@ + usize_text(no) + "\n"@
}

/// The text of `jne`.
pub open spec fn jne_text(no: usize) -> Seq<char> {
    "  jne .L"@ + usize_text(no) + "\n"@
}

/// The text of `cmpl`.
pub open spec fn cmpl_text(f: usize, r: Seq<char>) -> Seq<char> {
    "  cmp $"@ + usize_text(f) + ", %"@ + r + "\n"@
}

/// The text of `mul`.
pub open spec fn mul_text(reg: Seq<char>) -> Seq<char> {
    "  mul %"@ + reg + "\n"@
}

/// The text of `multiple`.
pub open spec fn multiple_text() -> Seq<char> {
    "  imul %rcx\n"@
}

/// The text of `plus`.
pub open spec fn plus_text() -> Seq<char> {
    "  add %rcx, %rax\n"@
}

/// The text of `minus`.
pub open spec fn minus_text() -> Seq<char> {
    "  sub %rcx, %rax\n"@
}

/// The text of `equal`.
pub open spec fn equal_text() -> Seq<char> {
    "  cmp %rcx, %rax\n  sete %al\n  movzb %al, %rax\n"@
}

/// The text of `not_equal`.
pub open spec fn not_equal_text() -> Seq<char> {
    "  cmp %rcx, %rax\n  setne %al\n  movzb %al, %rax\n"@
}

/// The text of `less_than`.
pub open spec fn less_than_text() -> Seq<char> {
    "  cmp %rcx, %rax\n  setl %al\n  movzb %al, %rax\n"@
}

/// The text of `less_than_equal`.
pub open spec fn less_than_equal_text() -> Seq<char> {
    "  cmp %rcx, %rax\n  setle %al\n  movzb %al, %rax\n"@
}

/// The text of `greater_than`.
pub open spec fn greater_than_text() -> Seq<char> {
    "  cmp %rcx, %rax\n  setg %al\n  movzb %al, %rax\n"@
}

/// The text of `greater_than_equal`.
pub open spec fn greater_than_equal_text() -> Seq<char> {
    "  cmp %rcx, %rax\n  setge %al\n  movzb %al, %rax\n"@
}

/// The text of `left_shift`.
pub open spec fn left_shift_text() -> Seq<char> {
    "  sal %cl, %rax\n"@
}

/// The text of `right_shift`.
pub open spec fn right_shift_text() -> Seq<char> {
    "  sar %cl, %rax\n"@
}

/// The text of `bit_and`.
pub open spec fn bit_and_text() -> Seq<char> {
    "  and %rcx, %rax\n"@
}

/// The text of `bit_or`.
pub open spec fn bit_or_text() -> Seq<char> {
    "  or %rcx, %rax\n"@
}

/// The text of `bit_xor`.
pub open spec fn bit_xor_text() -> Seq<char> {
    "  xor %rcx, %rax\n"@
}

/// The text of `bit_division`.
pub open spec fn bit_division_text() -> Seq<char> {
    "  mov $0, %rdx\n  idiv %rcx\n"@
}

/// The text of `lea`.
pub open spec fn lea_text(p: i64) -> Seq<char> {
    "  leaq -"@ + i64_text(p) + "(%rbp), %rax\n"@
}

/// The text of `lea_glb`.
pub open spec fn lea_glb_text(n: Seq<char>) -> Seq<char> {
    "  leaq "@ + n + "(%rip), %rax\n"@
}

/// The text of `not`.
pub open spec fn not_text(reg: Seq<char>) -> Seq<char> {
    "  not %"@ + reg + "\n"@
}

/// The text of `set`.
pub open spec fn set_text(reg: Seq<char>) -> Seq<char> {
    "  sete %"@ + reg + "\n"@
}

/// The text of `neg`.
pub open spec fn neg_text(reg: Seq<char>) -> Seq<char> {
    "  neg %"@ + reg + "\n"@
}

/// The text of `sub`.
pub open spec fn sub_text(src: Seq<char>, dst: Seq<char>) -> Seq<char> {
    "  sub %"@ + src + ", %"@ + dst + "\n"@
}

/// The text of `sub_imm`.
pub open spec fn sub_imm_text(i: usize, reg: Seq<char>) -> Seq<char> {
    "  sub $"@ + usize_text(i) + ", %"@ + reg + "\n"@
}

/// The text of `add`.
pub open spec fn add_text(src: Seq<char>, dst: Seq<char>) -> Seq<char> {
    "  add %"@ + src + ", %"@ + dst + "\n"@
}

/// The text of `add_src`.
pub open spec fn add_src_text(src: Seq<char>, dst: Seq<char>, n: i64) -> Seq<char> {
    "  add "@ + i64_text(n) + "(%"@ + src + "), %"@ + dst + "\n"@
}

/// The text of `add_imm`.
pub open spec fn add_imm_text(i: usize, reg: Seq<char>) -> Seq<char> {
    "  add $"@ + usize_text(i) + ", %"@ + reg + "\n"@
}

/// The text of `ret`.
pub open spec fn ret_text() -> Seq<char> {
    "  ret\n"@
}

/// The text of `mov`.
pub open spec fn mov_text(src: Seq<char>, dst: Seq<char>) -> Seq<char> {
    "  mov %"@ + src + ", %"@ + dst + "\n"@
}

/// The text of `mov_src`.
pub open spec fn mov_src_text(src: Seq<char>, dst: Seq<char>, n: i64) -> Seq<char> {
    "  mov "@ + i64_text(n) + "(%"@ + src + "), %"@ + dst + "\n"@
}

/// The text of `mov_dst`.
pub open spec fn mov_dst_text(src: Seq<char>, dst: Seq<char>, n: i64) -> Seq<char> {
    "  mov %"@ + src + ", "@ + i64_text(n) + "(%"@ + dst + ")\n"@
}

/// The text of `mov_imm`.
pub open spec fn mov_imm_text(dst: Seq<char>, n: i64) -> Seq<char> {
    "  mov $"@ + i64_text(n) + ", %"@ + dst + "\n"@
}

/// The text of `mov_imm_dst`.
pub open spec fn mov_imm_dst_text(dst: Seq<char>, n: i64, offset: i64) -> Seq<char> {
    "  movq $"@ + i64_text(n) + ", "@ + i64_text(offset) + "(%"@ + dst + ")\n"@
}

/// The text of `movz`.
pub open spec fn movz_text(src: Seq<char>, dst: Seq<char>) -> Seq<char> {
    "  movzb %"@ + src + ", %"@ + dst + "\n"@
}

/// The text of `movb_dst`.
pub open spec fn movb_dst_text(src: Seq<char>, dst: Seq<char>, n: i64) -> Seq<char> {
    "  movb %"@ + src + ", "@ + i64_text(n) + "(%"@ + dst + ")\n"@
}

/// The text of `movb_src`.
pub open spec fn movb_src_text(src: Seq<char>, dst: Seq<char>, n: i64) -> Seq<char> {
    "  movb "@ + i64_text(n) + "(%"@ + src + "), %"@ + dst + "\n"@
}

/// The text of `movsbl_src`.
pub open spec fn movsbl_src_text(src: Seq<char>, dst: Seq<char>, n: i64) -> Seq<char> {
    "  mov "@ + i64_text(n) + "(%"@ + src + "), %"@ + dst + "\n"@
}

/// The text of `mov_from_glb`.
pub open spec fn mov_from_glb_text(dst: Seq<char>, name: Seq<char>) -> Seq<char> {
    "  mov "@ + name + "(%rip), %"@ + dst + "\n"@
}

/// The text of `movb_from_glb`.
pub open spec fn movb_from_glb_text(dst: Seq<char>, name: Seq<char>) -> Seq<char> {
    "  mov "@ + name + "(%rip), %"@ + dst + "\n"@
}

/// The text of `mov_to_glb`.
pub open spec fn mov_to_glb_text(src: Seq<char>, name: Seq<char>) -> Seq<char> {
    "  mov %"@ + src + ", "@ + name + "(%rip)\n"@
}

/// The text of `movb_to_glb`.
pub open spec fn movb_to_glb_text(src: Seq<char>, name: Seq<char>) -> Seq<char> {
    "  movb %"@ + src + ", "@ + name + "(%rip)\n"@
}

/// The text of `call`.
pub open spec fn call_text(a: Seq<char>) -> Seq<char> {
    "  call "@ + a + "\n"@
}

/// The text of `leave`.
pub open spec fn leave_text() -> Seq<char> {
    "leave\n"@
}

/// The x86-64 instructions, in AT&T syntax.
pub struct X64;

impl Generator for X64 {
    /// Pushes a register.
    fn push(&self, reg: &str) -> (out: String)
        ensures
            out@ == push_text(reg@),
    {
        let mut out = lit("  push %");
        append(&mut out, reg);
        append(&mut out, "\n");
        out
    }

    /// Pops into a register.
    fn pop(&self, reg: &str) -> (out: String)
        ensures
            out@ == pop_text(reg@),
    {
        let mut out = lit("  pop %");
        append(&mut out, reg);
        append(&mut out, "\n");
        out
    }

    /// Defines label `no`.
    fn label(&self, no: usize) -> (out: String)
        ensures
            out@ == label_text(no),
    {
        let mut out = lit(".L");
        let no_s = usize_to_string(no);
        append(&mut out, no_s.as_str());
        append(&mut out, ":\n");
        out
    }

    /// Jumps to label `no`.
    fn jmp(&self, no: usize) -> (out: String)
        ensures
            out@ == jmp_text(no),
    {
        let mut out = lit("  jmp .L");
        let no_s = usize_to_string(no);
        append(&mut out, no_s.as_str());
        append(&mut out, "\n");
        out
    }

    /// Jumps to label `no` when equal.
    fn je(&self, no: usize) -> (out: String)
        ensures
            out@ == je_text(no),
    {
        let mut out = lit("  je .L");
        let no_s = usize_to_string(no);
        append(&mut out, no_s.as_str());
        append(&mut out, "\n");
        out
    }

    /// Jumps to label `no` when not equal.
    fn jne(&self, no: usize) -> (out: String)
        ensures
            out@ == jne_text(no),
    {
        let mut out = lit("  jne .L");
        let no_s = usize_to_string(no);
        append(&mut out, no_s.as_str());
        append(&mut out, "\n");
        out
    }

    /// Compares a register with an immediate.
    fn cmpl(&self, f: usize, r: &str) -> (out: String)
        ensures
            out@ == cmpl_text(f, r@),
    {
        let mut out = lit("  cmp $");
        let f_s = usize_to_string(f);
        append(&mut out, f_s.as_str());
        append(&mut out, ", %");
        append(&mut out, r);
        append(&mut out, "\n");
        out
    }

    /// Unsigned multiply of `%rax` by a register.
    fn mul(&self, reg: &str) -> (out: String)
        ensures
            out@ == mul_text(reg@),
    {
        let mut out = lit("  mul %");
        append(&mut out, reg);
        append(&mut out, "\n");
        out
    }

    /// Signed multiply of `%rax` by `%rcx`.
    fn multiple(&self) -> (out: String)
        ensures
            out@ == multiple_text(),
    {
        let mut out = lit("  imul %rcx\n");
        out
    }

    /// `%rax += %rcx`.
    fn plus(&self) -> (out: String)
        ensures
            out@ == plus_text(),
    {
        let mut out = lit("  add %rcx, %rax\n");
        out
    }

    /// `%rax -= %rcx`.
    fn minus(&self) -> (out: String)
        ensures
            out@ == minus_text(),
    {
        let mut out = lit("  sub %rcx, %rax\n");
        out
    }

    /// `%rax = (%rax == %rcx)`.
    fn equal(&self) -> (out: String)
        ensures
            out@ == equal_text(),
    {
        let mut out = lit("  cmp %rcx, %rax\n  sete %al\n  movzb %al, %rax\n");
        out
    }

    /// `%rax = (%rax != %rcx)`.
    fn not_equal(&self) -> (out: String)
        ensures
            out@ == not_equal_text(),
    {
        let mut out = lit("  cmp %rcx, %rax\n  setne %al\n  movzb %al, %rax\n");
        out
    }

    /// `%rax = (%rax < %rcx)`.
    fn less_than(&self) -> (out: String)
        ensures
            out@ == less_than_text(),
    {
        let mut out = lit("  cmp %rcx, %rax\n  setl %al\n  movzb %al, %rax\n");
        out
    }

    /// `%rax = (%rax <= %rcx)`.
    fn less_than_equal(&self) -> (out: String)
        ensures
            out@ == less_than_equal_text(),
    {
        let mut out = lit("  cmp %rcx, %rax\n  setle %al\n  movzb %al, %rax\n");
        out
    }

    /// `%rax = (%rax > %rcx)`.
    fn greater_than(&self) -> (out: String)
        ensures
            out@ == greater_than_text(),
    {
        let mut out = lit("  cmp %rcx, %rax\n  setg %al\n  movzb %al, %rax\n");
        out
    }

    /// `%rax = (%rax >= %rcx)`.
    fn greater_than_equal(&self) -> (out: String)
        ensures
            out@ == greater_than_equal_text(),
    {
        let mut out = lit("  cmp %rcx, %rax\n  setge %al\n  movzb %al, %rax\n");
        out
    }

    /// Shifts `%rax` left by `%cl`.
    fn left_shift(&self) -> (out: String)
        ensures
            out@ == left_shift_text(),
    {
        let mut out = lit("  sal %cl, %rax\n");
        out
    }

    /// Shifts `%rax` right (arithmetic) by `%cl`.
    fn right_shift(&self) -> (out: String)
        ensures
            out@ == right_shift_text(),
    {
        let mut out = lit("  sar %cl, %rax\n");
        out
    }

    /// `%rax &= %rcx`.
    fn bit_and(&self) -> (out: String)
        ensures
            out@ == bit_and_text(),
    {
        let mut out = lit("  and %rcx, %rax\n");
        out
    }

    /// `%rax |= %rcx`.
    fn bit_or(&self) -> (out: String)
        ensures
            out@ == bit_or_text(),
    {
        let mut out = lit("  or %rcx, %rax\n");
        out
    }

    /// `%rax ^= %rcx`.
    fn bit_xor(&self) -> (out: String)
        ensures
            out@ == bit_xor_text(),
    {
        let mut out = lit("  xor %rcx, %rax\n");
        out
    }

    /// Divides `%rax` by `%rcx`: quotient in `%rax`, remainder in `%rdx`.
    fn bit_division(&self) -> (out: String)
        ensures
            out@ == bit_division_text(),
    {
        let mut out = lit("  mov $0, %rdx\n  idiv %rcx\n");
        out
    }

    /// Address `p` bytes below the frame base into `%rax`.
    fn lea(&self, p: i64) -> (out: String)
        ensures
            out@ == lea_text(p),
    {
        let mut out = lit("  leaq -");
        let p_s = i64_to_string(p);
        append(&mut out, p_s.as_str());
        append(&mut out, "(%rbp), %rax\n");
        out
    }

    /// Address of a global into `%rax`.
    fn lea_glb(&self, n: &str) -> (out: String)
        ensures
            out@ == lea_glb_text(n@),
    {
        let mut out = lit("  leaq ");
        append(&mut out, n);
        append(&mut out, "(%rip), %rax\n");
        out
    }

    /// Bitwise not of a register.
    fn not(&self, reg: &str) -> (out: String)
        ensures
            out@ == not_text(reg@),
    {
        let mut out = lit("  not %");
        append(&mut out, reg);
        append(&mut out, "\n");
        out
    }

    /// Sets a byte register when equal.
    fn set(&self, reg: &str) -> (out: String)
        ensures
            out@ == set_text(reg@),
    {
        let mut out = lit("  sete %");
        append(&mut out, reg);
        append(&mut out, "\n");
        out
    }

    /// Negates a register.
    fn neg(&self, reg: &str) -> (out: String)
        ensures
            out@ == neg_text(reg@),
    {
        let mut out = lit("  neg %");
        append(&mut out, reg);
        append(&mut out, "\n");
        out
    }

    /// Subtracts `src` from `dst`.
    fn sub(&self, src: &str, dst: &str) -> (out: String)
        ensures
            out@ == sub_text(src@, dst@),
    {
        let mut out = lit("  sub %");
        append(&mut out, src);
        append(&mut out, ", %");
        append(&mut out, dst);
        append(&mut out, "\n");
        out
    }

    /// Subtracts an immediate from a register.
    fn sub_imm(&self, i: usize, reg: &str) -> (out: String)
        ensures
            out@ == sub_imm_text(i, reg@),
    {
        let mut out = lit("  sub $");
        let i_s = usize_to_string(i);
        append(&mut out, i_s.as_str());
        append(&mut out, ", %");
        append(&mut out, reg);
        append(&mut out, "\n");
        out
    }

    /// Adds `src` to `dst`.
    fn add(&self, src: &str, dst: &str) -> (out: String)
        ensures
            out@ == add_text(src@, dst@),
    {
        let mut out = lit("  add %");
        append(&mut out, src);
        append(&mut out, ", %");
        append(&mut out, dst);
        append(&mut out, "\n");
        out
    }

    /// Adds memory at `n(src)` to `dst`.
    fn add_src(&self, src: &str, dst: &str, n: i64) -> (out: String)
        ensures
            out@ == add_src_text(src@, dst@, n),
    {
        let mut out = lit("  add ");
        let n_s = i64_to_string(n);
        append(&mut out, n_s.as_str());
        append(&mut out, "(%");
        append(&mut out, src);
        append(&mut out, "), %");
        append(&mut out, dst);
        append(&mut out, "\n");
        out
    }

    /// Adds an immediate to a register.
    fn add_imm(&self, i: usize, reg: &str) -> (out: String)
        ensures
            out@ == add_imm_text(i, reg@),
    {
        let mut out = lit("  add $");
        let i_s = usize_to_string(i);
        append(&mut out, i_s.as_str());
        append(&mut out, ", %");
        append(&mut out, reg);
        append(&mut out, "\n");
        out
    }

    /// Returns.
    fn ret(&self) -> (out: String)
        ensures
            out@ == ret_text(),
    {
        let mut out = lit("  ret\n");
        out
    }

    /// Copies `src` to `dst`.
    fn mov(&self, src: &str, dst: &str) -> (out: String)
        ensures
            out@ == mov_text(src@, dst@),
    {
        let mut out = lit("  mov %");
        append(&mut out, src);
        append(&mut out, ", %");
        append(&mut out, dst);
        append(&mut out, "\n");
        out
    }

    /// Loads `n(src)` into `dst`.
    fn mov_src(&self, src: &str, dst: &str, n: i64) -> (out: String)
        ensures
            out@ == mov_src_text(src@, dst@, n),
    {
        let mut out = lit("  mov ");
        let n_s = i64_to_string(n);
        append(&mut out, n_s.as_str());
        append(&mut out, "(%");
        append(&mut out, src);
        append(&mut out, "), %");
        append(&mut out, dst);
        append(&mut out, "\n");
        out
    }

    /// Stores `src` at `n(dst)`.
    fn mov_dst(&self, src: &str, dst: &str, n: i64) -> (out: String)
        ensures
            out@ == mov_dst_text(src@, dst@, n),
    {
        let mut out = lit("  mov %");
        append(&mut out, src);
        append(&mut out, ", ");
        let n_s = i64_to_string(n);
        append(&mut out, n_s.as_str());
        append(&mut out, "(%");
        append(&mut out, dst);
        append(&mut out, ")\n");
        out
    }

    /// Loads an immediate into a register.
    fn mov_imm(&self, dst: &str, n: i64) -> (out: String)
        ensures
            out@ == mov_imm_text(dst@, n),
    {
        let mut out = lit("  mov $");
        let n_s = i64_to_string(n);
        append(&mut out, n_s.as_str());
        append(&mut out, ", %");
        append(&mut out, dst);
        append(&mut out, "\n");
        out
    }

    /// Stores an immediate at `offset(dst)`.
    fn mov_imm_dst(&self, dst: &str, n: i64, offset: i64) -> (out: String)
        ensures
            out@ == mov_imm_dst_text(dst@, n, offset),
    {
        let mut out = lit("  movq $");
        let n_s = i64_to_string(n);
        append(&mut out, n_s.as_str());
        append(&mut out, ", ");
        let offset_s = i64_to_string(offset);
        append(&mut out, offset_s.as_str());
        append(&mut out, "(%");
        append(&mut out, dst);
        append(&mut out, ")\n");
        out
    }

    /// Zero-extends a byte register.
    fn movz(&self, src: &str, dst: &str) -> (out: String)
        ensures
            out@ == movz_text(src@, dst@),
    {
        let mut out = lit("  movzb %");
        append(&mut out, src);
        append(&mut out, ", %");
        append(&mut out, dst);
        append(&mut out, "\n");
        out
    }

    /// Stores a byte at `n(dst)`.
    fn movb_dst(&self, src: &str, dst: &str, n: i64) -> (out: String)
        ensures
            out@ == movb_dst_text(src@, dst@, n),
    {
        let mut out = lit("  movb %");
        append(&mut out, src);
        append(&mut out, ", ");
        let n_s = i64_to_string(n);
        append(&mut out, n_s.as_str());
        append(&mut out, "(%");
        append(&mut out, dst);
        append(&mut out, ")\n");
        out
    }

    /// Loads a byte from `n(src)`.
    fn movb_src(&self, src: &str, dst: &str, n: i64) -> (out: String)
        ensures
            out@ == movb_src_text(src@, dst@, n),
    {
        let mut out = lit("  movb ");
        let n_s = i64_to_string(n);
        append(&mut out, n_s.as_str());
        append(&mut out, "(%");
        append(&mut out, src);
        append(&mut out, "), %");
        append(&mut out, dst);
        append(&mut out, "\n");
        out
    }

    /// Loads `n(src)` into `dst`.
    fn movsbl_src(&self, src: &str, dst: &str, n: i64) -> (out: String)
        ensures
            out@ == movsbl_src_text(src@, dst@, n),
    {
        let mut out = lit("  mov ");
        let n_s = i64_to_string(n);
        append(&mut out, n_s.as_str());
        append(&mut out, "(%");
        append(&mut out, src);
        append(&mut out, "), %");
        append(&mut out, dst);
        append(&mut out, "\n");
        out
    }

    /// Loads a global.
    fn mov_from_glb(&self, dst: &str, name: &str) -> (out: String)
        ensures
            out@ == mov_from_glb_text(dst@, name@),
    {
        let mut out = lit("  mov ");
        append(&mut out, name);
        append(&mut out, "(%rip), %");
        append(&mut out, dst);
        append(&mut out, "\n");
        out
    }

    /// Loads a global.
    fn movb_from_glb(&self, dst: &str, name: &str) -> (out: String)
        ensures
            out@ == movb_from_glb_text(dst@, name@),
    {
        let mut out = lit("  mov ");
        append(&mut out, name);
        append(&mut out, "(%rip), %");
        append(&mut out, dst);
        append(&mut out, "\n");
        out
    }

    /// Stores into a global.
    fn mov_to_glb(&self, src: &str, name: &str) -> (out: String)
        ensures
            out@ == mov_to_glb_text(src@, name@),
    {
        let mut out = lit("  mov %");
        append(&mut out, src);
        append(&mut out, ", ");
        append(&mut out, name);
        append(&mut out, "(%rip)\n");
        out
    }

    /// Stores a byte into a global.
    fn movb_to_glb(&self, src: &str, name: &str) -> (out: String)
        ensures
            out@ == movb_to_glb_text(src@, name@),
    {
        let mut out = lit("  movb %");
        append(&mut out, src);
        append(&mut out, ", ");
        append(&mut out, name);
        append(&mut out, "(%rip)\n");
        out
    }

    /// Calls a function.
    fn call(&self, a: &str) -> (out: String)
        ensures
            out@ == call_text(a@),
    {
        let mut out = lit("  call ");
        append(&mut out, a);
        append(&mut out, "\n");
        out
    }

    /// Leaves the frame.
    fn leave(&self) -> (out: String)
        ensures
            out@ == leave_text(),
    {
        let mut out = lit("leave\n");
        out
    }
}

} // verus!
