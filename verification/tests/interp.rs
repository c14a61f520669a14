use tacit::default_env::default_env;
use tacit::errors::{DefReason, Error, ParseReason, WhichStack};
use tacit::interpreter::{Binding, EnvEntry, FloatHost, Interpreter, Op, Prim};
use tacit::parser::parse;
use tacit::symbol::Symbol;
use tacit::value::Value;

struct Host;

fn num(t: &[u8]) -> f64 {
    String::from_utf8_lossy(t).parse().unwrap_or(f64::NAN)
}

fn text(x: f64) -> Vec<u8> {
    format!("{}", x).into_bytes()
}

impl FloatHost for Host {
    fn float_cmp(&mut self, p: Prim, a: &Vec<u8>, b: &Vec<u8>) -> bool {
        let (x, y) = (num(a), num(b));
        match p {
            Prim::FltEq => x == y,
            _ => x < y,
        }
    }
    fn float_arith(&mut self, p: Prim, a: &Vec<u8>, b: &Vec<u8>) -> Vec<u8> {
        let (x, y) = (num(a), num(b));
        text(match p {
            Prim::FltAdd => x + y,
            Prim::FltSub => x - y,
            Prim::FltMul => x * y,
            _ => x / y,
        })
    }
    fn float_unary(&mut self, p: Prim, a: &Vec<u8>) -> Vec<u8> {
        let x = num(a);
        text(match p {
            Prim::FltSqrt => x.sqrt(),
            Prim::FltLog => x.ln(),
            Prim::FltSin => x.sin(),
            _ => x.cos(),
        })
    }
    fn int_to_float(&mut self, x: i64) -> Vec<u8> {
        text(x as f64)
    }
}

fn fresh() -> Interpreter {
    let mut i = Interpreter::new();
    i.env = default_env();
    i
}

fn eval(i: &mut Interpreter, src: &str) -> Result<(), Error> {
    let ops = parse(&src.as_bytes().to_vec())?;
    i.exec(&mut Host, &ops, 64)
}

fn run(src: &str) -> (Interpreter, Result<(), Error>) {
    let mut i = fresh();
    let r = eval(&mut i, src);
    (i, r)
}

fn out_lines(i: &Interpreter) -> Vec<String> {
    i.out.iter().map(|l| String::from_utf8_lossy(l).into_owned()).collect()
}

#[test]
fn arithmetic_order_add() {
    let (i, r) = run(": ii+ ( Int Int -- Int ) %ii+ ; 3 4 ii+");
    assert!(r.is_ok());
    assert!(matches!(i.main_stack.as_slice(), [Value::Int(7)]));
}

#[test]
fn arithmetic_order_sub() {
    let (i, r) = run(": ii- ( Int Int -- Int ) %ii- ; 3 4 ii-");
    assert!(r.is_ok());
    assert!(matches!(i.main_stack.as_slice(), [Value::Int(-1)]));
}

#[test]
fn dispatch_recency_wins() {
    let (i, r) = run(
        ": w ( Int -- Int ) %drop 1 ; : w ( x -- Int ) %drop 2 ; 9 w",
    );
    assert!(r.is_ok());
    assert!(matches!(i.main_stack.as_slice(), [Value::Int(2)]));
}

#[test]
fn dispatch_arity_falls_back() {
    // the recent overload wants two values; with one on the stack the
    // older one still answers
    let (i, r) = run(
        ": w ( x -- Int ) %drop 1 ; : w ( x y -- Int ) %drop %drop 2 ; 9 w",
    );
    assert!(r.is_ok());
    assert!(matches!(i.main_stack.as_slice(), [Value::Int(1)]));
}

#[test]
fn dispatch_type_guard() {
    let (i, r) = run(
        ": w ( Int -- Int ) %drop 1 ; : w ( Str -- Int ) %drop 2 ; 9 w",
    );
    assert!(r.is_ok());
    assert!(matches!(i.main_stack.as_slice(), [Value::Int(1)]));
}

#[test]
fn no_matching_method() {
    let (_, r) = run(": w ( Int -- ) %drop ; \"x\" w");
    assert!(matches!(r, Err(Error::UnknownMethod(_))));
}

#[test]
fn primitive_name_is_reserved() {
    let (mut i, r) = run(": %dup ( x -- x x ) ;");
    assert!(matches!(
        r,
        Err(Error::MalformedDefinition(DefReason::ReservedPrefix))
    ));
    // the primitive still answers
    let r2 = eval(&mut i, "5 %dup %ii+");
    assert!(r2.is_ok());
    assert!(matches!(i.main_stack.as_slice(), [Value::Int(10)]));
}

#[test]
fn primitive_binding_immutable() {
    let mut i = fresh();
    i.env.push(EnvEntry {
        name: Symbol(b"zig".to_vec()),
        binding: Binding::Primitive(Prim::Drop),
    });
    let r = eval(&mut i, ": zig ( -- ) ;");
    assert!(matches!(
        r,
        Err(Error::MalformedDefinition(DefReason::RedefinePrimitive))
    ));
    // and it still acts as the primitive it was
    let r2 = eval(&mut i, "1 2 zig");
    assert!(r2.is_ok());
    assert!(matches!(i.main_stack.as_slice(), [Value::Int(1)]));
}

#[test]
fn type_constructor_round_trip() {
    let (i, r) = run(":t Point \"\" Int Int ; 3 4 Point");
    assert!(r.is_ok());
    match i.main_stack.as_slice() {
        [Value::Tuple(fields)] => {
            assert_eq!(fields.len(), 3);
            match &fields[0] {
                Value::Symbol(s) => assert_eq!(s.0, b"Point".to_vec()),
                other => panic!("tag was {:?}", other),
            }
            assert!(matches!(fields[1], Value::Int(3)));
            assert!(matches!(fields[2], Value::Int(4)));
        }
        other => panic!("stack was {:?}", other),
    }
}

#[test]
fn selector_prints_first_component() {
    let (i, r) = run(":t Point \"\" Int Int ; 3 4 Point #1 %i.");
    assert!(r.is_ok());
    assert_eq!(out_lines(&i), vec!["3".to_string()]);
}

#[test]
fn selector_prints_second_component() {
    let (i, r) = run(":t Point \"\" Int Int ; 3 4 Point #2 %i.");
    assert!(r.is_ok());
    assert_eq!(out_lines(&i), vec!["4".to_string()]);
}

#[test]
fn selector_out_of_range_is_defined() {
    let (_, r) = run(":t Point \"\" Int Int ; 3 4 Point #7 %i.");
    assert!(matches!(r, Err(Error::IndexOutOfRange)));
}

#[test]
fn underflow_does_not_crash() {
    let (i, r) = run("%drop");
    assert!(matches!(r, Err(Error::StackUnderflow(WhichStack::Main))));
    assert!(i.main_stack.is_empty());
}

#[test]
fn unknown_word_names_the_symbol() {
    let (_, r) = run("frobnicate");
    match r {
        Err(Error::UnknownWord(s)) => assert_eq!(s.0, b"frobnicate".to_vec()),
        other => panic!("got {:?}", other.is_ok()),
    }
}

#[test]
fn persistence_round_trip() {
    let mut first = fresh();
    assert!(eval(&mut first, ": twice ( Int -- Int ) %dup %ii+ ; 21 twice %i.").is_ok());
    let log: Vec<u8> = first
        .log_lines
        .iter()
        .flat_map(|l| l.iter().cloned().chain(std::iter::once(b'\n')))
        .collect();
    let mut second = fresh();
    assert!(second.restore(&mut Host, &log, 64).is_ok());
    assert!(second.log_lines.is_empty());
    assert!(eval(&mut second, "21 twice %i.").is_ok());
    assert_eq!(out_lines(&first), out_lines(&second));
}

#[test]
fn persistence_round_trip_type() {
    let mut first = fresh();
    assert!(eval(&mut first, ":t Pair \"two of them\" Int Int ;").is_ok());
    let log: Vec<u8> = first
        .log_lines
        .iter()
        .flat_map(|l| l.iter().cloned().chain(std::iter::once(b'\n')))
        .collect();
    let mut second = fresh();
    assert!(second.restore(&mut Host, &log, 64).is_ok());
    assert!(eval(&mut second, "1 2 Pair #2 %i.").is_ok());
    assert_eq!(out_lines(&second), vec!["2".to_string()]);
}

#[test]
fn conditional_true_branch() {
    let (i, r) = run("true if [ 1 ] [ 2 ]");
    assert!(r.is_ok());
    assert!(matches!(i.main_stack.as_slice(), [Value::Int(1)]));
}

#[test]
fn conditional_false_branch() {
    let (i, r) = run("false if [ 1 ] [ 2 ]");
    assert!(r.is_ok());
    assert!(matches!(i.main_stack.as_slice(), [Value::Int(2)]));
}

#[test]
fn conditional_demands_blocks() {
    let (_, r) = run("true if 5 [ 2 ]");
    assert!(matches!(
        r,
        Err(Error::MalformedDefinition(DefReason::ExpectedBlock))
    ));
}

#[test]
fn division_by_zero_is_defined() {
    let (_, r) = run("1 0 %ii/");
    assert!(matches!(r, Err(Error::DivisionByZero)));
}

#[test]
fn division_truncates_toward_zero() {
    let (i, r) = run("-7 2 %ii/");
    assert!(r.is_ok());
    assert!(matches!(i.main_stack.as_slice(), [Value::Int(-3)]));
}

#[test]
fn overflowing_quotient_wraps() {
    let (i, r) = run("-9223372036854775808 -1 %ii/");
    assert!(r.is_ok());
    assert!(matches!(i.main_stack.as_slice(), [Value::Int(i64::MIN)]));
}

#[test]
fn addition_wraps() {
    let (i, r) = run("9223372036854775807 1 %ii+");
    assert!(r.is_ok());
    assert!(matches!(i.main_stack.as_slice(), [Value::Int(i64::MIN)]));
}

#[test]
fn stack_shuffles() {
    let (i, r) = run("1 2 %swap");
    assert!(r.is_ok());
    assert!(matches!(
        i.main_stack.as_slice(),
        [Value::Int(2), Value::Int(1)]
    ));
    let (j, r2) = run("1 2 3 %rot");
    assert!(r2.is_ok());
    assert!(matches!(
        j.main_stack.as_slice(),
        [Value::Int(2), Value::Int(3), Value::Int(1)]
    ));
}

#[test]
fn secondary_stack_moves() {
    let (i, r) = run("1 2 %>> %>> %<<");
    assert!(r.is_ok());
    assert!(matches!(i.main_stack.as_slice(), [Value::Int(1)]));
    assert!(matches!(i.secondary_stack.as_slice(), [Value::Int(2)]));
    let (_, r2) = run("%<<");
    assert!(matches!(
        r2,
        Err(Error::StackUnderflow(WhichStack::Secondary))
    ));
}

#[test]
fn format_splices_values() {
    let (i, r) = run("7 \"x is %i!\" %fmt %println");
    assert!(r.is_ok());
    assert_eq!(out_lines(&i), vec!["x is 7!".to_string()]);
}

#[test]
fn user_error_raises_message() {
    let (_, r) = run("\"boom\" %error");
    match r {
        Err(Error::UserError(m)) => assert_eq!(m, b"boom".to_vec()),
        _ => panic!("expected the raised message"),
    }
}

#[test]
fn apply_runs_a_block() {
    let (i, r) = run("[ 1 2 %ii+ ] %apply");
    assert!(r.is_ok());
    assert!(matches!(i.main_stack.as_slice(), [Value::Int(3)]));
}

#[test]
fn float_literals_and_arithmetic() {
    let (i, r) = run("1.5 2.25 %ff+ %f.");
    assert!(r.is_ok());
    assert_eq!(out_lines(&i), vec!["3.75".to_string()]);
}

#[test]
fn float_literal_shapes() {
    // scientific and signless shapes read as floats, not words
    let (i, r) = run("1e3 %f. .5 %f. 3. %f. inf %f.");
    assert!(r.is_ok());
    assert_eq!(
        out_lines(&i),
        vec![
            "1e3".to_string(),
            ".5".to_string(),
            "3.".to_string(),
            "inf".to_string()
        ]
    );
}

#[test]
fn oversized_integer_reads_as_float() {
    let (_, r) = run("99999999999999999999 %i.");
    assert!(matches!(r, Err(Error::TypeMismatch { .. })));
}

#[test]
fn malformed_selector_is_a_parse_error() {
    let ops = parse(&b"#x".to_vec());
    match ops {
        Err(Error::Parse(ParseReason::MalformedSelector)) => {}
        _ => panic!("expected a selector parse error"),
    }
}

#[test]
fn unterminated_block_is_a_parse_error() {
    let ops = parse(&b"[ 1 2".to_vec());
    assert!(matches!(
        ops,
        Err(Error::Parse(ParseReason::UnexpectedEndOfInput))
    ));
}

#[test]
fn stray_end_marker_errors() {
    let (_, r) = run("1 ;");
    assert!(matches!(
        r,
        Err(Error::MalformedDefinition(DefReason::UnexpectedEnd))
    ));
}

#[test]
fn definition_without_effect_errors() {
    let (_, r) = run(": w 1 ;");
    assert!(matches!(
        r,
        Err(Error::MalformedDefinition(DefReason::ExpectedEffect))
    ));
}

#[test]
fn type_name_must_be_upper() {
    let (_, r) = run(":t point \"\" Int ;");
    assert!(matches!(
        r,
        Err(Error::MalformedDefinition(DefReason::TypeNameNotUpper))
    ));
}

#[test]
fn doc_string_is_lifted_from_the_body() {
    let (mut i, r) = run(": greet ( -- Int ) \"says one\" 1 ;");
    assert!(r.is_ok());
    let r2 = eval(&mut i, "greet");
    assert!(r2.is_ok());
    assert!(matches!(i.main_stack.as_slice(), [Value::Int(1)]));
    // the log line renders without the lifted documentation
    let line = String::from_utf8_lossy(&i.log_lines[0]).into_owned();
    assert_eq!(line, ": greet ( -- Int ) 1 ;");
}

#[test]
fn equality_primitives() {
    let (i, r) = run("1 1 %.= \"a\" \"b\" %ss= true true %bb=");
    assert!(r.is_ok());
    assert!(matches!(
        i.main_stack.as_slice(),
        [Value::True, Value::False, Value::True]
    ));
}

#[test]
fn deep_recursion_is_a_defined_error() {
    let (_, r) = run(": loopy ( -- ) loopy ; loopy");
    assert!(matches!(r, Err(Error::RecursionLimit)));
}

#[test]
fn tuple_instruction_demands_a_tag() {
    let mut i = fresh();
    let ops = vec![Op::Literal(Value::Int(1)), Op::Tuple(1)];
    let r = i.exec(&mut Host, &ops, 8);
    assert!(matches!(r, Err(Error::TypeMismatch { .. })));
}

#[test]
fn negative_pick_is_defined() {
    let (_, r) = run("1 %>> -1 %@");
    assert!(matches!(r, Err(Error::IndexOutOfRange)));
}

#[test]
fn pick_copies_from_the_secondary_stack() {
    let (i, r) = run("1 2 %>> %>> 1 %@");
    assert!(r.is_ok());
    assert!(matches!(i.main_stack.as_slice(), [Value::Int(2)]));
}

#[test]
fn default_table_shape() {
    let e = default_env();
    assert_eq!(e.len(), 43);
    for entry in &e {
        assert!(matches!(entry.binding, Binding::Primitive(_)));
        assert!(entry.name.0[0] == b'%' || entry.name.0[0] == b':');
    }
    assert!(e.iter().any(|entry| entry.name.0 == b"%ii+".to_vec()));
    assert!(e.iter().any(|entry| entry.name.0 == b":words".to_vec()));
}
