//! The conservative C reading of one decoded instruction.
//!
//! The decoder remains authoritative; this reading deliberately keeps what it
//! does not know as a comment instead of inventing types, variable names or
//! source-level control structures.

use vstd::prelude::*;
use crate::characters::{
    find, find_white, first_of, first_white, has_prefix, is, remove_all, slice, starts_with,
    strip_leading, trim, trimmed, without_any, without_leading,
};
use crate::text::{chars_of, extend, extend_str, string_of};

verus! {

/// The mnemonic: what comes before the first white space.
pub open spec fn opcode_of(instruction: Seq<char>) -> Seq<char> {
    instruction.take(first_white(instruction) as int)
}

/// The operands: what follows the first white space, trimmed.
pub open spec fn operands_of(instruction: Seq<char>) -> Seq<char> {
    let split = first_white(instruction);
    if split < instruction.len() {
        trimmed(instruction.skip((split + 1) as int))
    } else {
        Seq::empty()
    }
}

/// Source and destination, split at the first comma and trimmed, when there
/// is a comma.
pub open spec fn operand_pair(operands: Seq<char>) -> Option<(Seq<char>, Seq<char>)> {
    let comma = first_of(operands, ',');
    if comma < operands.len() {
        Some((trimmed(operands.take(comma as int)), trimmed(operands.skip((comma + 1) as int))))
    } else {
        None
    }
}

/// An operand as C writes it: no register sigil and no immediate marker.
pub open spec fn c_value_text(value: Seq<char>) -> Seq<char> {
    without_any(without_leading(value, '%'), '$')
}

/// A call target as C writes it: the operand without the indirection star.
pub open spec fn c_target_text(value: Seq<char>) -> Seq<char> {
    without_leading(c_value_text(value), '*')
}

/// Whether a character is an ASCII letter or digit.
pub open spec fn is_ascii_alphanumeric(character: char) -> bool {
    ('0' <= character <= '9') || ('a' <= character <= 'z') || ('A' <= character <= 'Z')
}

/// A jump target as a C label: every character that cannot stand in a name
/// made an underscore.
pub open spec fn label_text(value: Seq<char>) -> Seq<char> {
    "label_"@ + c_target_text(value).map_values(
        |character: char|
            if is_ascii_alphanumeric(character) {
                character
            } else {
                '_'
            },
    )
}

/// What is said of an instruction the reading does not know.
pub open spec fn unknown_text(instruction: Seq<char>) -> Seq<char> {
    "/* unsupported: "@ + instruction + " */"@
}

/// The compound assignment an arithmetic mnemonic with an explicit source and
/// destination stands for.
pub open spec fn operator_of(opcode: Seq<char>) -> Option<Seq<char>> {
    if opcode == "add"@ || opcode == "addq"@ || opcode == "addl"@ {
        Some("+="@)
    } else if opcode == "sub"@ || opcode == "subq"@ || opcode == "subl"@ {
        Some("-="@)
    } else if opcode == "and"@ || opcode == "andq"@ || opcode == "andl"@ {
        Some("&="@)
    } else if opcode == "or"@ || opcode == "orq"@ || opcode == "orl"@ {
        Some("|="@)
    } else if opcode == "xor"@ || opcode == "xorq"@ || opcode == "xorl"@ {
        Some("^="@)
    } else if opcode == "imul"@ || opcode == "imulq"@ || opcode == "imull"@ {
        Some("*="@)
    } else if opcode == "shl"@ || opcode == "sal"@ || opcode == "shlq"@ || opcode == "shll"@ {
        Some("<<="@)
    } else if opcode == "shr"@ || opcode == "sar"@ || opcode == "shrq"@ || opcode == "sarl"@ {
        Some(">>="@)
    } else {
        None
    }
}

/// A mnemonic starting with none of `r`, `c`, `j`, `m` and `l` is no return,
/// call, jump, move or address load.
proof fn lemma_not_a_transfer(opcode: Seq<char>)
    requires
        opcode.len() > 0,
        opcode[0] != 'r' && opcode[0] != 'c' && opcode[0] != 'j' && opcode[0] != 'm' && opcode[0]
            != 'l',
    ensures
        !starts_with(opcode, "ret"@),
        opcode != "call"@ && opcode != "callq"@,
        opcode != "jmp"@ && opcode != "jmpq"@,
        !starts_with(opcode, "j"@),
        !starts_with(opcode, "mov"@),
        !starts_with(opcode, "lea"@),
{
    reveal_strlit("ret");
    reveal_strlit("call");
    reveal_strlit("callq");
    reveal_strlit("jmp");
    reveal_strlit("jmpq");
    reveal_strlit("j");
    reveal_strlit("mov");
    reveal_strlit("lea");
    if starts_with(opcode, "ret"@) {
        assert(opcode.take(3)[0] == "ret"@[0]);
    }
    if starts_with(opcode, "j"@) {
        assert(opcode.take(1)[0] == "j"@[0]);
    }
    if starts_with(opcode, "mov"@) {
        assert(opcode.take(3)[0] == "mov"@[0]);
    }
    if starts_with(opcode, "lea"@) {
        assert(opcode.take(3)[0] == "lea"@[0]);
    }
    if opcode == "call"@ || opcode == "callq"@ {
        assert(opcode[0] == 'c');
    }
    if opcode == "jmp"@ || opcode == "jmpq"@ {
        assert(opcode[0] == 'j');
    }
}

/// An arithmetic instruction with a source and a destination reads as the
/// destination, the C compound assignment of its own operation, then the
/// source: a sum is `+=`, a difference `-=`, a product `*=`, the bitwise
/// operations `&=`, `|=` and `^=`, and the shifts `<<=` and `>>=`.
pub proof fn lemma_arithmetic_reads_as_its_own_operator(instruction: Seq<char>)
    ensures
        operand_pair(operands_of(instruction)) matches Some((source, destination)) ==> {
            let opcode = opcode_of(instruction);
            let read = c_reading(instruction);
            let reads_as = |operator: Seq<char>|
                read == c_value_text(destination) + " "@ + operator + " "@ + c_value_text(source)
                    + ";"@;
            &&& (opcode == "add"@ || opcode == "addq"@ || opcode == "addl"@) ==> reads_as("+="@)
            &&& (opcode == "sub"@ || opcode == "subq"@ || opcode == "subl"@) ==> reads_as("-="@)
            &&& (opcode == "and"@ || opcode == "andq"@ || opcode == "andl"@) ==> reads_as("&="@)
            &&& (opcode == "or"@ || opcode == "orq"@ || opcode == "orl"@) ==> reads_as("|="@)
            &&& (opcode == "xor"@ || opcode == "xorq"@ || opcode == "xorl"@) ==> reads_as("^="@)
            &&& (opcode == "imul"@ || opcode == "imulq"@ || opcode == "imull"@) ==> reads_as("*="@)
            &&& (opcode == "shl"@ || opcode == "sal"@ || opcode == "shlq"@ || opcode == "shll"@)
                ==> reads_as("<<="@)
            &&& (opcode == "shr"@ || opcode == "sar"@ || opcode == "shrq"@ || opcode == "sarl"@)
                ==> reads_as(">>="@)
        },
{
    reveal_strlit("ret");
    reveal_strlit("call");
    reveal_strlit("callq");
    reveal_strlit("jmp");
    reveal_strlit("jmpq");
    reveal_strlit("j");
    reveal_strlit("mov");
    reveal_strlit("lea");
    reveal_strlit("add");
    reveal_strlit("addq");
    reveal_strlit("addl");
    reveal_strlit("sub");
    reveal_strlit("subq");
    reveal_strlit("subl");
    reveal_strlit("and");
    reveal_strlit("andq");
    reveal_strlit("andl");
    reveal_strlit("or");
    reveal_strlit("orq");
    reveal_strlit("orl");
    reveal_strlit("xor");
    reveal_strlit("xorq");
    reveal_strlit("xorl");
    reveal_strlit("imul");
    reveal_strlit("imulq");
    reveal_strlit("imull");
    reveal_strlit("shl");
    reveal_strlit("sal");
    reveal_strlit("shlq");
    reveal_strlit("shll");
    reveal_strlit("shr");
    reveal_strlit("sar");
    reveal_strlit("shrq");
    reveal_strlit("sarl");
    reveal_strlit("+=");
    reveal_strlit("-=");
    reveal_strlit("&=");
    reveal_strlit("|=");
    reveal_strlit("^=");
    reveal_strlit("*=");
    reveal_strlit("<<=");
    reveal_strlit(">>=");
    reveal_strlit(" ");
    reveal_strlit(";");
    let opcode = opcode_of(instruction);
    if let Some((source, destination)) = operand_pair(operands_of(instruction)) {
        if opcode == "add"@ {
            assert(opcode.len() == 3 && opcode[0] == 'a' && opcode[1] == 'd' && opcode[2] == 'd');
            lemma_not_a_transfer(opcode);
            assert(operator_of(opcode) == Some("+="@));
            assert(c_reading(instruction) =~= c_value_text(destination) + " "@ + "+="@ + " "@
                + c_value_text(source) + ";"@);
        }
        if opcode == "addq"@ {
            assert(opcode.len() == 4 && opcode[0] == 'a' && opcode[1] == 'd' && opcode[2] == 'd' && opcode[3] == 'q');
            lemma_not_a_transfer(opcode);
            assert(operator_of(opcode) == Some("+="@));
            assert(c_reading(instruction) =~= c_value_text(destination) + " "@ + "+="@ + " "@
                + c_value_text(source) + ";"@);
        }
        if opcode == "addl"@ {
            assert(opcode.len() == 4 && opcode[0] == 'a' && opcode[1] == 'd' && opcode[2] == 'd' && opcode[3] == 'l');
            lemma_not_a_transfer(opcode);
            assert(operator_of(opcode) == Some("+="@));
            assert(c_reading(instruction) =~= c_value_text(destination) + " "@ + "+="@ + " "@
                + c_value_text(source) + ";"@);
        }
        if opcode == "sub"@ {
            assert(opcode.len() == 3 && opcode[0] == 's' && opcode[1] == 'u' && opcode[2] == 'b');
            lemma_not_a_transfer(opcode);
            assert(operator_of(opcode) == Some("-="@));
            assert(c_reading(instruction) =~= c_value_text(destination) + " "@ + "-="@ + " "@
                + c_value_text(source) + ";"@);
        }
        if opcode == "subq"@ {
            assert(opcode.len() == 4 && opcode[0] == 's' && opcode[1] == 'u' && opcode[2] == 'b' && opcode[3] == 'q');
            lemma_not_a_transfer(opcode);
            assert(operator_of(opcode) == Some("-="@));
            assert(c_reading(instruction) =~= c_value_text(destination) + " "@ + "-="@ + " "@
                + c_value_text(source) + ";"@);
        }
        if opcode == "subl"@ {
            assert(opcode.len() == 4 && opcode[0] == 's' && opcode[1] == 'u' && opcode[2] == 'b' && opcode[3] == 'l');
            lemma_not_a_transfer(opcode);
            assert(operator_of(opcode) == Some("-="@));
            assert(c_reading(instruction) =~= c_value_text(destination) + " "@ + "-="@ + " "@
                + c_value_text(source) + ";"@);
        }
        if opcode == "and"@ {
            assert(opcode.len() == 3 && opcode[0] == 'a' && opcode[1] == 'n' && opcode[2] == 'd');
            lemma_not_a_transfer(opcode);
            assert(operator_of(opcode) == Some("&="@));
            assert(c_reading(instruction) =~= c_value_text(destination) + " "@ + "&="@ + " "@
                + c_value_text(source) + ";"@);
        }
        if opcode == "andq"@ {
            assert(opcode.len() == 4 && opcode[0] == 'a' && opcode[1] == 'n' && opcode[2] == 'd' && opcode[3] == 'q');
            lemma_not_a_transfer(opcode);
            assert(operator_of(opcode) == Some("&="@));
            assert(c_reading(instruction) =~= c_value_text(destination) + " "@ + "&="@ + " "@
                + c_value_text(source) + ";"@);
        }
        if opcode == "andl"@ {
            assert(opcode.len() == 4 && opcode[0] == 'a' && opcode[1] == 'n' && opcode[2] == 'd' && opcode[3] == 'l');
            lemma_not_a_transfer(opcode);
            assert(operator_of(opcode) == Some("&="@));
            assert(c_reading(instruction) =~= c_value_text(destination) + " "@ + "&="@ + " "@
                + c_value_text(source) + ";"@);
        }
        if opcode == "or"@ {
            assert(opcode.len() == 2 && opcode[0] == 'o' && opcode[1] == 'r');
            lemma_not_a_transfer(opcode);
            assert(operator_of(opcode) == Some("|="@));
            assert(c_reading(instruction) =~= c_value_text(destination) + " "@ + "|="@ + " "@
                + c_value_text(source) + ";"@);
        }
        if opcode == "orq"@ {
            assert(opcode.len() == 3 && opcode[0] == 'o' && opcode[1] == 'r' && opcode[2] == 'q');
            lemma_not_a_transfer(opcode);
            assert(operator_of(opcode) == Some("|="@));
            assert(c_reading(instruction) =~= c_value_text(destination) + " "@ + "|="@ + " "@
                + c_value_text(source) + ";"@);
        }
        if opcode == "orl"@ {
            assert(opcode.len() == 3 && opcode[0] == 'o' && opcode[1] == 'r' && opcode[2] == 'l');
            lemma_not_a_transfer(opcode);
            assert(operator_of(opcode) == Some("|="@));
            assert(c_reading(instruction) =~= c_value_text(destination) + " "@ + "|="@ + " "@
                + c_value_text(source) + ";"@);
        }
        if opcode == "xor"@ {
            assert(opcode.len() == 3 && opcode[0] == 'x' && opcode[1] == 'o' && opcode[2] == 'r');
            lemma_not_a_transfer(opcode);
            assert(operator_of(opcode) == Some("^="@));
            assert(c_reading(instruction) =~= c_value_text(destination) + " "@ + "^="@ + " "@
                + c_value_text(source) + ";"@);
        }
        if opcode == "xorq"@ {
            assert(opcode.len() == 4 && opcode[0] == 'x' && opcode[1] == 'o' && opcode[2] == 'r' && opcode[3] == 'q');
            lemma_not_a_transfer(opcode);
            assert(operator_of(opcode) == Some("^="@));
            assert(c_reading(instruction) =~= c_value_text(destination) + " "@ + "^="@ + " "@
                + c_value_text(source) + ";"@);
        }
        if opcode == "xorl"@ {
            assert(opcode.len() == 4 && opcode[0] == 'x' && opcode[1] == 'o' && opcode[2] == 'r' && opcode[3] == 'l');
            lemma_not_a_transfer(opcode);
            assert(operator_of(opcode) == Some("^="@));
            assert(c_reading(instruction) =~= c_value_text(destination) + " "@ + "^="@ + " "@
                + c_value_text(source) + ";"@);
        }
        if opcode == "imul"@ {
            assert(opcode.len() == 4 && opcode[0] == 'i' && opcode[1] == 'm' && opcode[2] == 'u' && opcode[3] == 'l');
            lemma_not_a_transfer(opcode);
            assert(operator_of(opcode) == Some("*="@));
            assert(c_reading(instruction) =~= c_value_text(destination) + " "@ + "*="@ + " "@
                + c_value_text(source) + ";"@);
        }
        if opcode == "imulq"@ {
            assert(opcode.len() == 5 && opcode[0] == 'i' && opcode[1] == 'm' && opcode[2] == 'u' && opcode[3] == 'l' && opcode[4] == 'q');
            lemma_not_a_transfer(opcode);
            assert(operator_of(opcode) == Some("*="@));
            assert(c_reading(instruction) =~= c_value_text(destination) + " "@ + "*="@ + " "@
                + c_value_text(source) + ";"@);
        }
        if opcode == "imull"@ {
            assert(opcode.len() == 5 && opcode[0] == 'i' && opcode[1] == 'm' && opcode[2] == 'u' && opcode[3] == 'l' && opcode[4] == 'l');
            lemma_not_a_transfer(opcode);
            assert(operator_of(opcode) == Some("*="@));
            assert(c_reading(instruction) =~= c_value_text(destination) + " "@ + "*="@ + " "@
                + c_value_text(source) + ";"@);
        }
        if opcode == "shl"@ {
            assert(opcode.len() == 3 && opcode[0] == 's' && opcode[1] == 'h' && opcode[2] == 'l');
            lemma_not_a_transfer(opcode);
            assert(operator_of(opcode) == Some("<<="@));
            assert(c_reading(instruction) =~= c_value_text(destination) + " "@ + "<<="@ + " "@
                + c_value_text(source) + ";"@);
        }
        if opcode == "sal"@ {
            assert(opcode.len() == 3 && opcode[0] == 's' && opcode[1] == 'a' && opcode[2] == 'l');
            lemma_not_a_transfer(opcode);
            assert(operator_of(opcode) == Some("<<="@));
            assert(c_reading(instruction) =~= c_value_text(destination) + " "@ + "<<="@ + " "@
                + c_value_text(source) + ";"@);
        }
        if opcode == "shlq"@ {
            assert(opcode.len() == 4 && opcode[0] == 's' && opcode[1] == 'h' && opcode[2] == 'l' && opcode[3] == 'q');
            lemma_not_a_transfer(opcode);
            assert(operator_of(opcode) == Some("<<="@));
            assert(c_reading(instruction) =~= c_value_text(destination) + " "@ + "<<="@ + " "@
                + c_value_text(source) + ";"@);
        }
        if opcode == "shll"@ {
            assert(opcode.len() == 4 && opcode[0] == 's' && opcode[1] == 'h' && opcode[2] == 'l' && opcode[3] == 'l');
            lemma_not_a_transfer(opcode);
            assert(operator_of(opcode) == Some("<<="@));
            assert(c_reading(instruction) =~= c_value_text(destination) + " "@ + "<<="@ + " "@
                + c_value_text(source) + ";"@);
        }
        if opcode == "shr"@ {
            assert(opcode.len() == 3 && opcode[0] == 's' && opcode[1] == 'h' && opcode[2] == 'r');
            lemma_not_a_transfer(opcode);
            assert(operator_of(opcode) == Some(">>="@));
            assert(c_reading(instruction) =~= c_value_text(destination) + " "@ + ">>="@ + " "@
                + c_value_text(source) + ";"@);
        }
        if opcode == "sar"@ {
            assert(opcode.len() == 3 && opcode[0] == 's' && opcode[1] == 'a' && opcode[2] == 'r');
            lemma_not_a_transfer(opcode);
            assert(operator_of(opcode) == Some(">>="@));
            assert(c_reading(instruction) =~= c_value_text(destination) + " "@ + ">>="@ + " "@
                + c_value_text(source) + ";"@);
        }
        if opcode == "shrq"@ {
            assert(opcode.len() == 4 && opcode[0] == 's' && opcode[1] == 'h' && opcode[2] == 'r' && opcode[3] == 'q');
            lemma_not_a_transfer(opcode);
            assert(operator_of(opcode) == Some(">>="@));
            assert(c_reading(instruction) =~= c_value_text(destination) + " "@ + ">>="@ + " "@
                + c_value_text(source) + ";"@);
        }
        if opcode == "sarl"@ {
            assert(opcode.len() == 4 && opcode[0] == 's' && opcode[1] == 'a' && opcode[2] == 'r' && opcode[3] == 'l');
            lemma_not_a_transfer(opcode);
            assert(operator_of(opcode) == Some(">>="@));
            assert(c_reading(instruction) =~= c_value_text(destination) + " "@ + ">>="@ + " "@
                + c_value_text(source) + ";"@);
        }
    }
}

/// A two-operand instruction written as `destination <joint> source<end>`,
/// or as unknown when it has no comma.
pub open spec fn assignment(instruction: Seq<char>, joint: Seq<char>, end: Seq<char>) -> Seq<char> {
    match operand_pair(operands_of(instruction)) {
        Some((source, destination)) => c_value_text(destination) + joint + c_value_text(source)
            + end,
        None => unknown_text(instruction),
    }
}

/// The C reading of one instruction in AT&T syntax.
pub open spec fn c_reading(instruction: Seq<char>) -> Seq<char> {
    let opcode = opcode_of(instruction);
    let operands = operands_of(instruction);
    let value = c_value_text(operands);
    if starts_with(opcode, "ret"@) {
        "return;"@
    } else if opcode == "call"@ || opcode == "callq"@ {
        c_target_text(operands) + "();"@
    } else if opcode == "jmp"@ || opcode == "jmpq"@ {
        "goto "@ + label_text(operands) + " ;"@
    } else if starts_with(opcode, "j"@) {
        "if (/* "@ + opcode + " condition from flags */) goto "@ + label_text(operands) + ";"@
    } else if starts_with(opcode, "mov"@) {
        assignment(instruction, " = "@, ";"@)
    } else if starts_with(opcode, "lea"@) {
        assignment(instruction, " = &("@, ");"@)
    } else if operator_of(opcode) is Some {
        assignment(instruction, " "@ + operator_of(opcode)->0 + " "@, ";"@)
    } else if starts_with(opcode, "cmp"@) || starts_with(opcode, "test"@) {
        "/* "@ + operands + ": condition flags set for the next branch */"@
    } else if starts_with(opcode, "push"@) {
        "stack_push("@ + value + ");"@
    } else if starts_with(opcode, "pop"@) {
        value + " = stack_pop();"@
    } else if starts_with(opcode, "inc"@) {
        value + "++;"@
    } else if starts_with(opcode, "dec"@) {
        value + "--;"@
    } else if starts_with(opcode, "neg"@) {
        value + " = -"@ + value + ";"@
    } else if starts_with(opcode, "not"@) {
        value + " = ~"@ + value + ";"@
    } else if opcode == "nop"@ || opcode == "nopw"@ || opcode == "nopl"@ {
        "/* no operation */"@
    } else if opcode == "syscall"@ || opcode == "sysenter"@ || opcode == "int"@ {
        "/* system request: inspect the Machine trace */"@
    } else {
        unknown_text(instruction)
    }
}

/// An operand as C writes it.
fn c_value(value: &Vec<char>) -> (written: Vec<char>)
    ensures
        written@ == c_value_text(value@),
{
    remove_all(&strip_leading(value, '%'), '$')
}

/// A call target as C writes it.
fn c_target(value: &Vec<char>) -> (written: Vec<char>)
    ensures
        written@ == c_target_text(value@),
{
    strip_leading(&c_value(value), '*')
}

/// A jump target as a C label.
fn label(value: &Vec<char>) -> (written: Vec<char>)
    ensures
        written@ == label_text(value@),
{
    let target = c_target(value);
    let mut written = chars_of("label_");
    let ghost start = written@;
    let mut index: usize = 0;
    while index < target.len()
        invariant
            index <= target.len(),
            start == "label_"@,
            written@ == start + target@.take(index as int).map_values(
                |character: char|
                    if is_ascii_alphanumeric(character) {
                        character
                    } else {
                        '_'
                    },
            ),
        decreases target.len() - index,
    {
        let character = target[index];
        let alphanumeric = ('0' <= character && character <= '9') || ('a' <= character
            && character <= 'z') || ('A' <= character && character <= 'Z');
        written.push(
            if alphanumeric {
                character
            } else {
                '_'
            },
        );
        index = index + 1;
        assert(written@ =~= start + target@.take(index as int).map_values(
            |character: char|
                if is_ascii_alphanumeric(character) {
                    character
                } else {
                    '_'
                },
        ));
    }
    assert(target@.take(target.len() as int) =~= target@);
    written
}

/// What is said of an instruction the reading does not know.
fn unknown(instruction: &Vec<char>) -> (written: Vec<char>)
    ensures
        written@ == unknown_text(instruction@),
{
    let mut written = chars_of("/* unsupported: ");
    extend(&mut written, instruction);
    extend_str(&mut written, " */");
    written
}

/// The compound assignment for an arithmetic mnemonic, when it is one.
fn operator(opcode: &Vec<char>) -> (operator: Option<&'static str>)
    ensures
        match operator {
            Some(text) => operator_of(opcode@) == Some(text@),
            None => operator_of(opcode@) is None,
        },
{
    if is(opcode, "add") || is(opcode, "addq") || is(opcode, "addl") {
        Some("+=")
    } else if is(opcode, "sub") || is(opcode, "subq") || is(opcode, "subl") {
        Some("-=")
    } else if is(opcode, "and") || is(opcode, "andq") || is(opcode, "andl") {
        Some("&=")
    } else if is(opcode, "or") || is(opcode, "orq") || is(opcode, "orl") {
        Some("|=")
    } else if is(opcode, "xor") || is(opcode, "xorq") || is(opcode, "xorl") {
        Some("^=")
    } else if is(opcode, "imul") || is(opcode, "imulq") || is(opcode, "imull") {
        Some("*=")
    } else if is(opcode, "shl") || is(opcode, "sal") || is(opcode, "shlq") || is(opcode, "shll") {
        Some("<<=")
    } else if is(opcode, "shr") || is(opcode, "sar") || is(opcode, "shrq") || is(opcode, "sarl") {
        Some(">>=")
    } else {
        None
    }
}

/// Source and destination of the operands, when there is a comma.
fn pair(operands: &Vec<char>) -> (pair: Option<(Vec<char>, Vec<char>)>)
    ensures
        match pair {
            Some((source, destination)) => operand_pair(operands@) == Some((source@, destination@)),
            None => operand_pair(operands@) is None,
        },
{
    let comma = find(operands, ',');
    if comma < operands.len() {
        let source = trim(&slice(operands, 0, comma));
        let destination = trim(&slice(operands, comma + 1, operands.len()));
        assert(operands@.subrange(0, comma as int) =~= operands@.take(comma as int));
        assert(operands@.subrange(comma + 1, operands@.len() as int) =~= operands@.skip(comma + 1));
        Some((source, destination))
    } else {
        None
    }
}

/// A two-operand instruction written as an assignment.
fn assign(instruction: &Vec<char>, operands: &Vec<char>, joint: &Vec<char>, end: &str) -> (written: Vec<char>)
    requires
        operands@ == operands_of(instruction@),
    ensures
        written@ == assignment(instruction@, joint@, end@),
{
    match pair(operands) {
        Some((source, destination)) => {
            let mut written = c_value(&destination);
            extend(&mut written, joint);
            extend(&mut written, &c_value(&source));
            extend_str(&mut written, end);
            written
        },
        None => unknown(instruction),
    }
}

/// The C reading of one instruction in AT&T syntax: conservative, keeping as a
/// comment whatever the decoded text does not say.
pub fn pseudo_c(instruction: &str) -> (reading: String)
    ensures
        reading@ == c_reading(instruction@),
{
    let instruction = chars_of(instruction);
    let split = find_white(&instruction);
    let opcode = slice(&instruction, 0, split);
    assert(opcode@ =~= opcode_of(instruction@));
    let operands = if split < instruction.len() {
        let rest = slice(&instruction, split + 1, instruction.len());
        assert(rest@ =~= instruction@.skip(split + 1));
        trim(&rest)
    } else {
        Vec::new()
    };
    assert(operands@ =~= operands_of(instruction@));
    let written: Vec<char> = if has_prefix(&opcode, "ret") {
        chars_of("return;")
    } else if is(&opcode, "call") || is(&opcode, "callq") {
        let mut written = c_target(&operands);
        extend_str(&mut written, "();");
        written
    } else if is(&opcode, "jmp") || is(&opcode, "jmpq") {
        let mut written = chars_of("goto ");
        extend(&mut written, &label(&operands));
        extend_str(&mut written, " ;");
        written
    } else if has_prefix(&opcode, "j") {
        let mut written = chars_of("if (/* ");
        extend(&mut written, &opcode);
        extend_str(&mut written, " condition from flags */) goto ");
        extend(&mut written, &label(&operands));
        extend_str(&mut written, ";");
        written
    } else if has_prefix(&opcode, "mov") {
        assign(&instruction, &operands, &chars_of(" = "), ";")
    } else if has_prefix(&opcode, "lea") {
        assign(&instruction, &operands, &chars_of(" = &("), ");")
    } else if let Some(operator) = operator(&opcode) {
        let mut joint = chars_of(" ");
        extend_str(&mut joint, operator);
        extend_str(&mut joint, " ");
        assign(&instruction, &operands, &joint, ";")
    } else if has_prefix(&opcode, "cmp") || has_prefix(&opcode, "test") {
        let mut written = chars_of("/* ");
        extend(&mut written, &operands);
        extend_str(&mut written, ": condition flags set for the next branch */");
        written
    } else if has_prefix(&opcode, "push") {
        let mut written = chars_of("stack_push(");
        extend(&mut written, &c_value(&operands));
        extend_str(&mut written, ");");
        written
    } else if has_prefix(&opcode, "pop") {
        let mut written = c_value(&operands);
        extend_str(&mut written, " = stack_pop();");
        written
    } else if has_prefix(&opcode, "inc") {
        let mut written = c_value(&operands);
        extend_str(&mut written, "++;");
        written
    } else if has_prefix(&opcode, "dec") {
        let mut written = c_value(&operands);
        extend_str(&mut written, "--;");
        written
    } else if has_prefix(&opcode, "neg") {
        let value = c_value(&operands);
        let mut written = c_value(&operands);
        extend_str(&mut written, " = -");
        extend(&mut written, &value);
        extend_str(&mut written, ";");
        written
    } else if has_prefix(&opcode, "not") {
        let value = c_value(&operands);
        let mut written = c_value(&operands);
        extend_str(&mut written, " = ~");
        extend(&mut written, &value);
        extend_str(&mut written, ";");
        written
    } else if is(&opcode, "nop") || is(&opcode, "nopw") || is(&opcode, "nopl") {
        chars_of("/* no operation */")
    } else if is(&opcode, "syscall") || is(&opcode, "sysenter") || is(&opcode, "int") {
        chars_of("/* system request: inspect the Machine trace */")
    } else {
        unknown(&instruction)
    };
    string_of(&written)
}

/// A column title, and the sentence that explains it.
pub struct PanelTitle<'a> {
    pub label: &'a str,
    pub help: &'a str,
}

/// The first function named `name`, among functions given as an address and
/// a name.
pub open spec fn first_named(functions: Seq<(u64, Seq<char>)>, name: Seq<char>) -> Option<u64>
    decreases functions.len(),
{
    if functions.len() == 0 {
        None
    } else if functions[0].1 == name {
        Some(functions[0].0)
    } else {
        first_named(functions.skip(1), name)
    }
}

/// Whether one of `functions` starts at `address`.
pub open spec fn offers(functions: Seq<(u64, Seq<char>)>, address: u64) -> bool {
    exists|index: int| 0 <= index < functions.len() && #[trigger] functions[index].0 == address
}

/// Where a reader starts: `main` when the binary has one, otherwise the
/// entry point when it is one of the functions offered, and failing both the
/// first function offered.
pub open spec fn starting_function(functions: Seq<(u64, Seq<char>)>, entry: Option<u64>) -> Option<u64> {
    match first_named(functions, "main"@) {
        Some(address) => Some(address),
        None => if entry is Some && offers(functions, entry->0) {
            entry
        } else if functions.len() > 0 {
            Some(functions[0].0)
        } else {
            None
        },
    }
}

/// The functions as addresses and names.
pub open spec fn named(functions: Seq<(u64, String)>) -> Seq<(u64, Seq<char>)> {
    functions.map_values(|function: (u64, String)| (function.0, function.1@))
}

/// Where a reader starts: `main` when the binary has one, otherwise the
/// entry point, and failing both the first function offered. `entry` is the
/// binary's entry point, where it has one.
pub fn default_function(functions: &[(u64, String)], entry: Option<u64>) -> (start: Option<u64>)
    ensures
        start == starting_function(named(functions@), entry),
{
    let ghost all = named(functions@);
    let mut index: usize = 0;
    assert(all.skip(0) =~= all);
    while index < functions.len()
        invariant
            index <= functions@.len(),
            all == named(functions@),
            first_named(all, "main"@) == first_named(all.skip(index as int), "main"@),
        decreases functions@.len() - index,
    {
        let ghost rest = all.skip(index as int);
        assert(rest[0] == (functions@[index as int].0, functions@[index as int].1@));
        assert(rest.skip(1) =~= all.skip(index + 1));
        let name = chars_of(functions[index].1.as_str());
        if is(&name, "main") {
            return Some(functions[index].0);
        }
        index = index + 1;
    }
    assert(first_named(all.skip(index as int), "main"@) is None);
    if let Some(entry_point) = entry {
        let mut index: usize = 0;
        while index < functions.len()
            invariant
                index <= functions@.len(),
                all == named(functions@),
                first_named(all, "main"@) is None,
                entry == Some(entry_point),
                forall|earlier: int| 0 <= earlier < index ==> #[trigger] all[earlier].0 != entry_point,
            decreases functions@.len() - index,
        {
            assert(all[index as int].0 == functions@[index as int].0);
            if functions[index].0 == entry_point {
                return Some(entry_point);
            }
            index = index + 1;
        }
    }
    if functions.len() > 0 {
        assert(all[0].0 == functions@[0].0);
        Some(functions[0].0)
    } else {
        None
    }
}

/// The functions the decompiler can be pointed at, from the function table's
/// starts, names and the number of instructions decoded for each: those with
/// a decoded body, in the table's order. One with no body lies in a section
/// the decoder does not read, and picking it would empty the view.
pub open spec fn decompilable(functions: Seq<(u64, String, usize)>) -> Seq<(u64, String)>
    decreases functions.len(),
{
    if functions.len() == 0 {
        Seq::empty()
    } else {
        let before = decompilable(functions.drop_last());
        let last = functions.last();
        if last.2 > 0 {
            before.push((last.0, last.1))
        } else {
            before
        }
    }
}

/// The functions the decompiler can be pointed at, in the order they are
/// given: sorted by address when the table is, so the list reads like the
/// image itself.
pub fn decompilable_functions(functions: &[(u64, String, usize)]) -> (offered: Vec<(u64, String)>)
    ensures
        offered@ == decompilable(functions@),
        (forall|earlier: int, later: int|
            0 <= earlier < later < functions@.len() ==> (#[trigger] functions@[earlier]).0 <= (
            #[trigger] functions@[later]).0) ==> forall|earlier: int, later: int|
            0 <= earlier < later < offered@.len() ==> (#[trigger] offered@[earlier]).0 <= (
            #[trigger] offered@[later]).0,
{
    let mut offered: Vec<(u64, String)> = Vec::new();
    let mut index: usize = 0;
    while index < functions.len()
        invariant
            index <= functions@.len(),
            offered@ == decompilable(functions@.take(index as int)),
            (forall|earlier: int, later: int|
                0 <= earlier < later < functions@.len() ==> (#[trigger] functions@[earlier]).0 <= (
                #[trigger] functions@[later]).0) ==> {
                &&& forall|earlier: int, later: int|
                    0 <= earlier < later < offered@.len() ==> (#[trigger] offered@[earlier]).0 <= (
                    #[trigger] offered@[later]).0
                &&& forall|kept: int, ahead: int|
                    0 <= kept < offered@.len() && index <= ahead < functions@.len() ==> (
                    #[trigger] offered@[kept]).0 <= (#[trigger] functions@[ahead]).0
            },
        decreases functions@.len() - index,
    {
        assert(functions@.take(index + 1).drop_last() =~= functions@.take(index as int));
        let function = &functions[index];
        if function.2 > 0 {
            offered.push((function.0, function.1.clone()));
        }
        index = index + 1;
    }
    assert(functions@.take(functions@.len() as int) =~= functions@);
    offered
}

/// The most instructions the assembly preview shows of a function: the
/// window is a glance, and what it leaves out is counted.
pub const PREVIEW_LIMIT: usize = 48;

/// What the assembly preview beside the pseudo-code is of.
#[derive(Clone, Copy, Debug, PartialEq, Eq, Structural)]
pub enum Preview {
    /// One instruction: its index in the listing, where the listing has one
    /// at the address asked about.
    Instruction(Option<usize>),
    /// The function starting at this address.
    Function(u64),
}

/// The first of `functions` starting at `start`: where its body begins and
/// ends in the listing.
pub open spec fn body_of(functions: Seq<(u64, usize, usize)>, start: u64) -> Option<(usize, usize)>
    decreases functions.len(),
{
    if functions.len() == 0 {
        None
    } else if functions[0].0 == start {
        Some((functions[0].1, functions[0].2))
    } else {
        body_of(functions.skip(1), start)
    }
}

/// Which stretch of a listing of `count` instructions the preview shows, and
/// how many instructions of the function it leaves out. A body that is no
/// stretch of the listing shows nothing.
pub open spec fn preview_of(
    preview: Preview,
    functions: Seq<(u64, usize, usize)>,
    count: nat,
) -> (usize, usize, usize) {
    match preview {
        Preview::Instruction(Some(index)) => (index, (index + 1) as usize, 0),
        Preview::Instruction(None) => (0, 0, 0),
        Preview::Function(start) => match body_of(functions, start) {
            Some((from, to)) => if from <= to && to <= count {
                let length = to - from;
                let shown = if length < PREVIEW_LIMIT {
                    length
                } else {
                    PREVIEW_LIMIT as int
                };
                (from, (from + shown) as usize, (length - shown) as usize)
            } else {
                (0, 0, 0)
            },
            None => (0, 0, 0),
        },
    }
}

/// Which instructions the assembly preview shows, as the start and end of a
/// stretch of the listing, and how many more of the function it leaves out.
/// `functions` are the function table's starts and the stretch of the
/// listing each body is.
pub fn preview_span(
    preview: Preview,
    functions: &[(u64, usize, usize)],
    count: usize,
) -> (span: (usize, usize, usize))
    requires
        preview matches Preview::Instruction(Some(index)) ==> index < count,
    ensures
        span == preview_of(preview, functions@, count as nat),
{
    match preview {
        Preview::Instruction(Some(index)) => (index, index + 1, 0),
        Preview::Instruction(None) => (0, 0, 0),
        Preview::Function(start) => {
            let mut position: usize = 0;
            assert(functions@.skip(0) =~= functions@);
            while position < functions.len()
                invariant
                    preview == Preview::Function(start),
                    position <= functions@.len(),
                    body_of(functions@, start) == body_of(functions@.skip(position as int), start),
                decreases functions@.len() - position,
            {
                let ghost rest = functions@.skip(position as int);
                assert(rest[0] == functions@[position as int]);
                assert(rest.skip(1) =~= functions@.skip(position + 1));
                let (first, from, to) = functions[position];
                if first == start {
                    if from <= to && to <= count {
                        let length = to - from;
                        let shown = if length < PREVIEW_LIMIT {
                            length
                        } else {
                            PREVIEW_LIMIT
                        };
                        return (from, from + shown, length - shown);
                    }
                    return (0, 0, 0);
                }
                position = position + 1;
            }
            assert(functions@.skip(position as int).len() == 0);
            (0, 0, 0)
        },
    }
}

} // verus!
