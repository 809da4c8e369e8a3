use rlox::chunk::{Chunk, OpCode};
use rlox::compiler::{compile, Diagnostic, ErrorSite};
use rlox::debug::{disassemble_chunk, opcode_name};
use rlox::object::Obj;
use rlox::value::{is_falsey, Value};
use rlox::vm::{Arith, Fault, InterpretResult, Outcome, VM};

struct Run {
    result: InterpretResult,
    stdout: String,
    stderr: String,
    stack_left: bool,
}

fn show(value: &Value) -> String {
    match value {
        Value::Nil => "nil".to_string(),
        Value::Bool(b) => format!("{}", b),
        Value::Number(bits) => format!("{}", f64::from_bits(*bits)),
        Value::Obj(Obj::String(s)) => String::from_utf8_lossy(&s.chars).into_owned(),
    }
}

fn show_error(d: &Diagnostic) -> String {
    let site = match d.site {
        ErrorSite::AtEnd => " at end".to_string(),
        ErrorSite::Unplaced => String::new(),
        ErrorSite::At(lexeme) => format!(" at {}", lexeme),
    };
    format!("[line {}] Error{}: {}\n", d.line, site, d.message)
}

fn compile_with_numbers(source: &str, chunk: &mut Chunk) -> Result<(), String> {
    let outcome = compile(source, chunk).map_err(|d| show_error(&d));
    let values: Vec<(usize, f64)> = chunk
        .numerals()
        .iter()
        .map(|n| (n.constant, n.text.parse::<f64>().unwrap()))
        .collect();
    for (index, value) in values {
        chunk.set_number(index, value.to_bits());
    }
    outcome
}

fn interpret(source: &str) -> Run {
    let mut chunk = Chunk::new();
    if let Err(message) = compile_with_numbers(source, &mut chunk) {
        return Run {
            result: InterpretResult::CompileError,
            stdout: String::new(),
            stderr: message,
            stack_left: false,
        };
    }
    let mut vm = VM::new();
    vm.start();
    loop {
        match vm.run(&chunk) {
            Outcome::Returned(value) => {
                let stack_left = vm.stack_len() != 0;
                return Run {
                    result: InterpretResult::Success,
                    stdout: format!("{}\n", show(&value)),
                    stderr: String::new(),
                    stack_left,
                };
            }
            Outcome::Failed(error) => {
                return Run {
                    result: InterpretResult::RuntimeError,
                    stdout: String::new(),
                    stderr: format!("{}\n[line {}] in script\n", error.fault.message(), error.line),
                    stack_left: false,
                };
            }
            Outcome::Compute { op, left, right } => {
                let (a, b) = (f64::from_bits(left), f64::from_bits(right));
                let result = match op {
                    Arith::Add => a + b,
                    Arith::Subtract => a - b,
                    Arith::Multiply => a * b,
                    Arith::Divide => a / b,
                };
                vm.push_number(result.to_bits());
            }
        }
    }
}

fn exit_code(result: &InterpretResult) -> i32 {
    match result {
        InterpretResult::Success => 0,
        InterpretResult::CompileError => 65,
        InterpretResult::RuntimeError => 70,
    }
}

#[test]
fn test_stack() {
    let mut vm = VM::new();

    vm.push(Value::Nil);
    assert_eq!(vm.peek(0), &Value::Nil);
    assert_eq!(vm.pop(), Value::Nil);

    vm.push(Value::Bool(true));
    vm.push(Value::Number(25.0f64.to_bits()));
    assert_eq!(vm.peek(1), &Value::Bool(true));
    assert_eq!(vm.pop(), Value::Number(25.0f64.to_bits()));
    assert_eq!(vm.pop(), Value::Bool(true));
}

#[test]
fn adds_two_numbers() {
    let run = interpret("1 + 2");
    assert_eq!(run.stdout, "3\n");
    assert_eq!(exit_code(&run.result), 0);
}

#[test]
fn not_of_a_comparison_chain() {
    let run = interpret("!(5 - 4 > 3 * 2 == !nil)");
    assert_eq!(run.stdout, "true\n");
    assert_eq!(exit_code(&run.result), 0);
}

#[test]
fn concatenates_strings() {
    let run = interpret("\"st\" + \"ri\" + \"ng\"");
    assert_eq!(run.stdout, "string\n");
    assert_eq!(exit_code(&run.result), 0);
}

#[test]
fn negating_a_bool_is_a_runtime_error() {
    let run = interpret("-true");
    assert!(run.stderr.contains("Operand must be a number"));
    assert!(run.stderr.contains("[line 1] in script"));
    assert_eq!(exit_code(&run.result), 70);
}

#[test]
fn adding_number_and_string_is_a_runtime_error() {
    let run = interpret("1 + \"a\"");
    assert!(run.stderr.contains("Operands must both be numbers or strings."));
    assert_eq!(exit_code(&run.result), 70);
}

#[test]
fn grouping_and_double_negation() {
    let run = interpret("(1 + 2) * (3 - -4)");
    assert_eq!(run.stdout, "21\n");
    assert_eq!(exit_code(&run.result), 0);
}

#[test]
fn subtraction_is_left_associative() {
    assert_eq!(interpret("10 - 4 - 3").stdout, "3\n");
    assert_eq!(interpret("100 / 10 / 5").stdout, "2\n");
}

#[test]
fn comparison_needs_numbers() {
    let run = interpret("1 < \"a\"");
    assert!(run.stderr.contains("Operands must be numbers."));
    assert_eq!(exit_code(&run.result), 70);
    let run = interpret("nil * 2");
    assert!(run.stderr.contains("Operands must be numbers."));
}

#[test]
fn runtime_error_reports_the_line() {
    let run = interpret("1 +\n\n-nil");
    assert!(run.stderr.contains("[line 3] in script"));
}

#[test]
fn comparisons_and_their_negations() {
    assert_eq!(interpret("1 <= 2").stdout, "true\n");
    assert_eq!(interpret("2 >= 3").stdout, "false\n");
    assert_eq!(interpret("2 != 2").stdout, "false\n");
    assert_eq!(interpret("3 > 2").stdout, "true\n");
}

#[test]
fn nan_comparisons_follow_the_lowering() {
    assert_eq!(interpret("0/0 == 0/0").stdout, "false\n");
    assert_eq!(interpret("0/0 < 1").stdout, "false\n");
    assert_eq!(interpret("0/0 >= 1").stdout, "true\n");
}

#[test]
fn division_by_zero_gives_infinity() {
    assert_eq!(interpret("1 / 0").stdout, "inf\n");
    assert_eq!(interpret("-1 / 0").stdout, "-inf\n");
}

#[test]
fn equality_across_kinds_is_false() {
    assert_eq!(interpret("nil == false").stdout, "false\n");
    assert_eq!(interpret("\"1\" == 1").stdout, "false\n");
    assert_eq!(interpret("\"ab\" == \"a\" + \"b\"").stdout, "true\n");
    assert_eq!(interpret("nil == nil").stdout, "true\n");
    assert_eq!(interpret("true == true").stdout, "true\n");
}

#[test]
fn truthiness() {
    assert!(is_falsey(&Value::Nil));
    assert!(is_falsey(&Value::Bool(false)));
    assert!(!is_falsey(&Value::Bool(true)));
    assert!(!is_falsey(&Value::Number(0.0f64.to_bits())));
    assert!(!is_falsey(&Value::Obj(Obj::take_string(Vec::new()))));
    assert_eq!(interpret("!0").stdout, "false\n");
    assert_eq!(interpret("!\"\"").stdout, "false\n");
}

#[test]
fn value_equality() {
    let nan = Value::Number(f64::NAN.to_bits());
    assert!(!nan.equals(&nan));
    let one = Value::Number(1.0f64.to_bits());
    assert!(one.equals(&one));
    let zero = Value::Number(0.0f64.to_bits());
    let negative_zero = Value::Number((-0.0f64).to_bits());
    assert!(zero.equals(&negative_zero));
    let s = Value::Obj(Obj::take_string(b"ab".to_vec()));
    assert!(s.equals(&s.clone()));
    assert!(Value::Nil.equals(&Value::Nil));
    assert!(!Value::Nil.equals(&Value::Bool(false)));
}

#[test]
fn successful_run_leaves_the_stack_empty() {
    let run = interpret("(1 + 2) * 3 - -4 / 2");
    assert_eq!(run.stdout, "11\n");
    assert!(!run.stack_left);
}

#[test]
fn compiled_code_matches_its_lines_and_pool() {
    for source in ["1 + 2 * 3", "\"a\" + \"b\"", "(1", "1 +", "!nil == false"] {
        let mut chunk = Chunk::new();
        let _ = compile(source, &mut chunk);
        let code = chunk.code();
        assert_eq!(code.len(), chunk.lines().len());
        let mut i = 0;
        while i < code.len() {
            let op = OpCode::from_byte(code[i]).unwrap();
            if op == OpCode::Constant {
                assert!((code[i + 1] as usize) < chunk.constants().len());
                i += 2;
            } else {
                i += 1;
            }
        }
        assert_eq!(*code.last().unwrap(), OpCode::Return.to_byte());
    }
}

#[test]
fn left_associative_code_shape() {
    let mut chunk = Chunk::new();
    assert!(compile("1 - 2 - 3", &mut chunk).is_ok());
    let c = OpCode::Constant.to_byte();
    let sub = OpCode::Subtract.to_byte();
    let ret = OpCode::Return.to_byte();
    assert_eq!(chunk.code(), &vec![c, 0, c, 1, sub, c, 2, sub, ret]);
}

#[test]
fn compile_errors() {
    let run = interpret("");
    assert_eq!(run.stderr, "[line 1] Error at end: Expect expression.\n");
    assert_eq!(exit_code(&run.result), 65);
    let run = interpret("(1");
    assert_eq!(run.stderr, "[line 1] Error at end: Expect ')' after expression.\n");
    let run = interpret("1 2");
    assert_eq!(run.stderr, "[line 1] Error at 2: Expect end of expression\n");
    let run = interpret("+1");
    assert_eq!(run.stderr, "[line 1] Error at +: Expect expression.\n");
    let run = interpret("\"abc");
    assert_eq!(run.stderr, "[line 1] Error: Unterminated string.\n");
}

#[test]
fn too_many_constants() {
    let source = vec!["1"; 257].join(" + ");
    let mut chunk = Chunk::new();
    let result = compile(&source, &mut chunk);
    let diagnostic = result.unwrap_err();
    assert_eq!(diagnostic.message, "Too many constants in one chunk.");
    assert_eq!(chunk.constants().len(), 256);
    let code = chunk.code();
    let c = OpCode::Constant.to_byte();
    let add = OpCode::Add.to_byte();
    let ret = OpCode::Return.to_byte();
    assert_eq!(&code[code.len() - 4..], &[c, 0, add, ret]);

    let fits = vec!["1"; 256].join(" + ");
    let mut chunk = Chunk::new();
    assert!(compile(&fits, &mut chunk).is_ok());
}

#[test]
fn constant_instruction_reads_the_pool() {
    let mut chunk = Chunk::new();
    let index = chunk.add_constant(Value::Bool(true));
    chunk.write(OpCode::Constant.to_byte(), 7);
    chunk.write(index as u8, 7);
    chunk.write(OpCode::Return.to_byte(), 7);
    assert_eq!(chunk.line(1), 7);
    let mut vm = VM::new();
    vm.start();
    match vm.run(&chunk) {
        Outcome::Returned(value) => assert_eq!(value, Value::Bool(true)),
        _ => panic!("expected a return"),
    }
}

#[test]
fn fault_messages() {
    assert_eq!(Fault::NotNumbers.message(), "Operands must be numbers.");
    assert_eq!(Fault::NotNumbersOrStrings.message(), "Operands must both be numbers or strings.");
    assert_eq!(Fault::NotANumber.message(), "Operand must be a number");
}

#[test]
fn constants_follow_the_literals_in_order() {
    let mut chunk = Chunk::new();
    assert!(compile("\"a\" + 12.5 + \"b\" == nil", &mut chunk).is_ok());
    let constants = chunk.constants();
    assert_eq!(constants.len(), 3);
    assert_eq!(constants.get(0), &Value::Obj(Obj::take_string(b"a".to_vec())));
    assert_eq!(constants.get(1), &Value::Number(0));
    assert_eq!(constants.get(2), &Value::Obj(Obj::take_string(b"b".to_vec())));
    let numerals = chunk.numerals();
    assert_eq!(numerals.len(), 1);
    assert_eq!(numerals[0].constant, 1);
    assert_eq!(numerals[0].text, "12.5");
    let c = OpCode::Constant.to_byte();
    assert_eq!(
        chunk.code(),
        &vec![
            c,
            0,
            c,
            1,
            OpCode::Add.to_byte(),
            c,
            2,
            OpCode::Add.to_byte(),
            OpCode::Nil.to_byte(),
            OpCode::Equal.to_byte(),
            OpCode::Return.to_byte()
        ]
    );
}

#[test]
fn set_number_fills_a_numeral() {
    let mut chunk = Chunk::new();
    assert!(compile("7", &mut chunk).is_ok());
    chunk.set_number(0, 7.0f64.to_bits());
    assert_eq!(chunk.constants().get(0), &Value::Number(7.0f64.to_bits()));
}

#[test]
fn a_bad_character_fails_the_compile() {
    let mut chunk = Chunk::new();
    let error = compile("1 + #", &mut chunk).unwrap_err();
    assert_eq!(error.site, ErrorSite::Unplaced);
    assert_eq!(error.message, "Unexpected character");
    assert_eq!(error.line, 1);
}

#[test]
fn compiled_lines_follow_the_tokens() {
    let mut chunk = Chunk::new();
    assert!(compile("1 +\n2", &mut chunk).is_ok());
    assert_eq!(chunk.lines(), &vec![1, 1, 2, 2, 2, 2]);
}

#[test]
fn precedence_of_factor_over_term() {
    let mut chunk = Chunk::new();
    assert!(compile("1 + 2 * 3", &mut chunk).is_ok());
    let c = OpCode::Constant.to_byte();
    assert_eq!(
        chunk.code(),
        &vec![c, 0, c, 1, c, 2, OpCode::Multiply.to_byte(), OpCode::Add.to_byte(), OpCode::Return.to_byte()]
    );
    assert_eq!(interpret("1 + 2 * 3").stdout, "7\n");
}

#[test]
fn opcode_names() {
    assert_eq!(opcode_name(OpCode::Less), "OP_LESS");
    assert_eq!(opcode_name(OpCode::False), "OP_FALSE");
    assert_eq!(opcode_name(OpCode::Constant), "OP_CONSTANT");
    assert_eq!(opcode_name(OpCode::Return), "OP_RETURN");
}

#[test]
fn disassembly_lists_each_instruction() {
    let mut chunk = Chunk::new();
    assert!(compile("1 <\n2", &mut chunk).is_ok());
    let listing = disassemble_chunk(&chunk);
    let offsets: Vec<usize> = listing.iter().map(|i| i.offset).collect();
    assert_eq!(offsets, vec![0, 2, 4, 5]);
    assert_eq!(listing[0].line, Some(1));
    assert_eq!(listing[1].line, Some(2));
    assert_eq!(listing[2].line, None);
    assert_eq!(listing[0].operand, Some(0));
    assert_eq!(listing[2].op, Ok(OpCode::Less));
    assert_eq!(listing[3].op, Ok(OpCode::Return));
}

#[test]
fn stepping_runs_one_instruction_at_a_time() {
    let mut chunk = Chunk::new();
    assert!(compile_with_numbers("-(1 < 2 == true)", &mut chunk).is_ok());
    let mut vm = VM::new();
    vm.start();
    assert_eq!(vm.offset(), 0);
    assert!(vm.step(&chunk).is_none());
    assert_eq!(vm.offset(), 2);
    assert_eq!(vm.stack_len(), 1);
    let mut outcome = None;
    while outcome.is_none() {
        outcome = vm.step(&chunk);
    }
    match outcome {
        Some(Outcome::Failed(error)) => {
            assert_eq!(error.fault, Fault::NotANumber);
            assert_eq!(error.line, 1);
        }
        _ => panic!("expected a runtime error"),
    }
    assert_eq!(vm.stack_len(), 0);
}

#[test]
fn expect_expression_at_the_first_token() {
    let mut chunk = Chunk::new();
    let error = compile(")", &mut chunk).unwrap_err();
    assert_eq!(error.message, "Expect expression.");
    assert_eq!(error.site, ErrorSite::At(")"));
    assert_eq!(error.line, 1);
    let run = interpret(")");
    assert_eq!(run.stderr, "[line 1] Error at ): Expect expression.\n");
    let error = compile("\n\n*", &mut Chunk::new()).unwrap_err();
    assert_eq!(error.line, 3);
    assert_eq!(error.site, ErrorSite::At("*"));
}

#[test]
fn unclosed_group_is_reported_at_the_end() {
    let mut chunk = Chunk::new();
    let error = compile("(1 + 2", &mut chunk).unwrap_err();
    assert_eq!(error.message, "Expect ')' after expression.");
    assert_eq!(error.site, ErrorSite::AtEnd);
}

#[test]
fn runtime_error_messages_reach_stderr() {
    let run = interpret("1 > nil");
    assert_eq!(run.stderr, "Operands must be numbers.\n[line 1] in script\n");
    let run = interpret("-true");
    assert_eq!(run.stderr, "Operand must be a number\n[line 1] in script\n");
}
