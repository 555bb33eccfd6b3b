use desdec_app::decompile::pseudo_c;

#[test]
fn the_local_dictionary_keeps_only_explicit_instruction_meaning() {
    assert_eq!(pseudo_c("imulq $8, %rax"), "rax *= 8;");
    assert_eq!(pseudo_c("not %eax"), "eax = ~eax;");
    assert_eq!(pseudo_c("nop"), "/* no operation */");
    assert_eq!(
        pseudo_c("syscall"),
        "/* system request: inspect the Machine trace */"
    );
    // A one-operand multiply has implicit registers, so claiming a C
    // expression for it would invent information the decoded text lacks.
    assert!(pseudo_c("imul %rcx").starts_with("/* unsupported:"));
}

#[test]
fn a_return_a_call_and_the_jumps_read_as_c() {
    assert_eq!(pseudo_c("retq"), "return;");
    assert_eq!(pseudo_c("callq *%rax"), "%rax();");
    assert_eq!(pseudo_c("callq %rax"), "rax();");
    assert_eq!(pseudo_c("jmp 0x401000"), "goto label_0x401000 ;");
    assert_eq!(
        pseudo_c("jne 0x40_10"),
        "if (/* jne condition from flags */) goto label_0x40_10;"
    );
    assert_eq!(pseudo_c("jmpq *0x2f8e(%rip)"), "goto label_0x2f8e__rip_ ;");
}

#[test]
fn moves_and_addresses_are_assignments() {
    assert_eq!(pseudo_c("movq %rsp, %rbp"), "rbp = rsp;");
    assert_eq!(pseudo_c("leaq  0x10(%rip) , %rdi"), "rdi = &(0x10(%rip));");
    assert_eq!(pseudo_c("mov %eax"), "/* unsupported: mov %eax */");
    assert_eq!(pseudo_c("xorl %eax, %eax"), "eax ^= eax;");
    assert_eq!(pseudo_c("sar $3, %rdx"), "rdx >>= 3;");
}

#[test]
fn the_stack_and_the_counters_read_as_calls_and_steps() {
    assert_eq!(pseudo_c("pushq %rbp"), "stack_push(rbp);");
    assert_eq!(pseudo_c("popq %rbp"), "rbp = stack_pop();");
    assert_eq!(pseudo_c("incl %ecx"), "ecx++;");
    assert_eq!(pseudo_c("decl %ecx"), "ecx--;");
    assert_eq!(pseudo_c("negq %rax"), "rax = -rax;");
    assert_eq!(
        pseudo_c("cmpq $0, %rax"),
        "/* $0, %rax: condition flags set for the next branch */"
    );
    assert_eq!(pseudo_c("hlt"), "/* unsupported: hlt */");
    assert_eq!(pseudo_c(""), "/* unsupported:  */");
}
