use lisp0::eval::{Eval, IoReply, IoRequest, Step};
use lisp0::globals::populate;
use lisp0::memory::Memory;
use lisp0::reader::read_text;

/// Runs a program to its end, collecting what it prints; file requests are
/// answered with a failure. Returns the output and the error, if any.
fn run_with(text: &str, lisp: bool, args: &[&str], memory: Memory) -> (String, Option<String>) {
    let out = match read_text(text, "test".to_string(), lisp) {
        Ok(o) => o,
        Err(e) => panic!("reader error: {}", e.message),
    };
    let mut memory = memory;
    let args: Vec<String> = args.iter().map(|s| s.to_string()).collect();
    populate(&mut memory, &args).expect("populate");
    let root = memory.construct(out.source.content).expect("construct");
    assert!(root.idx != memory.globals().idx);
    let mut ev = Eval::new(memory, root, out.source_tag, false);
    let mut printed = String::new();
    let mut step = ev.step();
    let mut steps: u64 = 0;
    loop {
        steps += 1;
        assert!(steps < 10_000_000, "program did not end");
        step = match step {
            Step::Running => ev.step(),
            Step::Finished => return (printed, None),
            Step::Failed(e) => return (printed, Some(e.message)),
            Step::Io(IoRequest::Print(texts)) => {
                for t in texts {
                    printed.push_str(&t);
                }
                ev.resume(IoReply::Done)
            }
            Step::Io(IoRequest::Flush) => ev.resume(IoReply::Done),
            Step::Io(_) => ev.resume(IoReply::Failed("no files here".to_string())),
        };
    }
}

fn run(text: &str) -> String {
    let (out, err) = run_with(text, false, &[], Memory::new());
    if let Some(e) = err {
        panic!("program failed: {} (printed {:?})", e, out);
    }
    out
}

fn run_err(text: &str) -> (String, String) {
    let (out, err) = run_with(text, false, &[], Memory::new());
    match err {
        Some(e) => (out, e),
        None => panic!("program should fail, printed {:?}", out),
    }
}

#[test]
fn prints_text_and_numbers() {
    assert_eq!(run("print \"hello\" sp 42 ln"), "hello 42\n");
}

#[test]
fn empty_program_does_nothing() {
    assert_eq!(run(""), "");
}

#[test]
fn arithmetic_folds_left() {
    assert_eq!(run("print (+ 1 2 3) sp (- 10 3 2) sp (* 2 3 4) sp (/ 20 3) sp (% 20 3) ln"), "6 5 24 6 2\n");
}

#[test]
fn string_concatenation() {
    assert_eq!(run("print (+ \"a\" 1 \"b\") ln"), "a1b\n");
}

#[test]
fn set_and_read_variable() {
    assert_eq!(run("set 'x 3\nprint x"), "3");
}

#[test]
fn set_through_a_variable_holding_a_name() {
    assert_eq!(run("set 'x 'y\nset x 'z\nprint y"), "z");
}

#[test]
fn if_chooses_a_block() {
    assert_eq!(run("set 'x 5\nif (> x 3) {\n print \"x is high\" ln\n} else {\n print \"x is low\" ln\n}"), "x is high\n");
    assert_eq!(run("set 'x 1\nif (> x 3) {\n print \"x is high\" ln\n} {\n print \"x is low\" ln\n}"), "x is low\n");
}

#[test]
fn printing_other_values() {
    assert_eq!(run("print nil sp true sp [1] sp (make-dict) sp (make-quote 1) sp (fn {1})"), "[nil] [true] [array] [dict] [quote] [fn]");
}

#[test]
fn arrays_get_set_push_truncate() {
    let prog = "set 'a [4]\nprint (get a 0) ln\nset a 0 5\nprint (get a 0) ln";
    assert_eq!(run(prog), "4\n5\n");
    let prog2 = "set 'show {\n print (get a 0) \", \" (get a 1) \"; \" (len a) \", \" (has a 1) ln\n}\nset 'a [4]\npush a 5\ndo show\ntruncate a 1\ndo show";
    assert_eq!(run(prog2), "4, 5; 2, [true]\n4, [nil]; 1, [nil]\n");
}

#[test]
fn dicts_get_set_has_del() {
    let prog = "set 'show {\n print (get d 'x) \", \" (get d 'y) \", \" (get d 'z) \"; \" (len d) \", \" (has d 'y) ln\n}\nset 'd (make-dict 'x 5 'y 6)\ndo show\nset d 'z 7\ndel d 'y\ndo show";
    assert_eq!(run(prog), "5, 6, [nil]; 2, [true]\n5, [nil], 7; 2, [nil]\n");
}

#[test]
fn functions_with_args_and_locals() {
    let prog = "set-fn 'multiply-10-add {arg1 0, arg2 5} {local1 10} {\n set 'local1 (* local1 arg1)\n set 'local1 (+ local1 arg2)\n local1\n}\nprint (multiply-10-add 5 10) sp (multiply-10-add 2)";
    assert_eq!(run(prog), "60 25");
}

#[test]
fn dynamic_scope_leaks_into_blocks() {
    let prog = "set-fn 'fun1 {f} {x 2} {\n do f\n}\nset-fn 'fun2 {v} {x 3} {\n print \"x: \" x ln\n fun1 {\n  print \"x: \" x ln\n }\n print \"x: \" x ln\n}\nfun2 \"idk\"";
    assert_eq!(run(prog), "x: 3\nx: 2\nx: 3\n");
}

#[test]
fn locals_capture_by_value() {
    let prog = "set-fn 'fun1 {f} {x 2} {\n do f\n}\nset-fn 'fun2 {v} {x 3} {\n print \"x: \" x ln\n fun1 (fn {x x} {\n  print \"x: \" x ln\n })\n print \"x: \" x ln\n}\nfun2 \"idk\"";
    assert_eq!(run(prog), "x: 3\nx: 3\nx: 3\n");
}

#[test]
fn scope_is_restored_after_a_call() {
    let prog = "set 'x 1\nset-fn 'f {x} {} {\n print x ln\n}\nf 7\nprint x ln";
    assert_eq!(run(prog), "7\n1\n");
}

#[test]
fn three_arguments_to_set_fn_are_locals() {
    assert_eq!(run("set-fn 'f {x} {\n print x ln\n}\nf 7"), "x\n");
}

#[test]
fn recursion_by_name() {
    let prog = "set 'x 0\ndo 'count {\n if (< x 3) {\n  print x sp\n  set 'x (+ x 1)\n  count 0\n } {\n  print \"done\" ln\n }\n}";
    assert_eq!(run(prog), "0 1 2 done\n");
}

#[test]
fn long_tail_recursion_runs() {
    let prog = "set 'x 0\ndo 'count {\n if (< x 20000) {\n  set 'x (+ x 1)\n  count 0\n } {\n  print x\n }\n}";
    assert_eq!(run(prog), "20000");
}

#[test]
fn fizzbuzz() {
    let prog = "set 'i 1\ndo 'loop {\n if (<= i 15) {\n  if (= 0 (% i 15)) { print \"FizzBuzz\" } {\n   if (= 0 (% i 3)) { print \"Fizz\" } {\n    if (= 0 (% i 5)) { print \"Buzz\" } { print i }\n   }\n  }\n  print sp\n  set 'i (+ i 1)\n  loop 0\n } {\n  print ln\n }\n}";
    assert_eq!(run(prog), "1 2 Fizz 4 Buzz Fizz 7 8 Fizz Buzz 11 Fizz 13 14 FizzBuzz \n");
}

#[test]
fn conversions() {
    assert_eq!(run("print (+ (to-int \"12\") 1) sp (to-int \"x\") sp (to-int true) sp (to-string 5) sp (to-bool 0)"), "13 [nil] 1 5 [true]");
}

#[test]
fn comparisons_and_logic() {
    assert_eq!(run("print (< 1 2) (> 1 2) (= \"a\" \"a\") (!= 1 1) (! nil) (&& true nil) (|| nil true)"), "[true][nil][true][nil][true][nil][true]");
}

#[test]
fn program_arguments() {
    let (out, err) = run_with("print (len args) sp (get args 1)", false, &["a", "bc"], Memory::new());
    assert!(err.is_none());
    assert_eq!(out, "2 bc");
}

#[test]
fn lisp_syntax_program() {
    let (out, err) = run_with("(set 'x (+ 1 2))\n(print x)", true, &[], Memory::new());
    assert!(err.is_none());
    assert_eq!(out, "3");
}

#[test]
fn file_access_is_refused_when_disabled() {
    assert_eq!(run("print (file-allowed)"), "[nil]");
    let (_, e) = run_err("file-in \"x\"");
    assert!(e.ends_with("Called `file-in` but fs is disabled"), "{}", e);
}

#[test]
fn unknown_variable_is_an_error() {
    let (out, e) = run_err("print 1\nprint foo");
    assert_eq!(out, "1");
    assert_eq!(e, "[position unknown]: Unrecognized variable: foo");
}

#[test]
fn division_by_zero_is_an_error() {
    let (_, e) = run_err("print (/ 1 0)");
    assert!(e.ends_with("Division by zero in `/`"), "{}", e);
    let (_, e2) = run_err("print (% 1 0)");
    assert!(e2.ends_with("Division by zero in `%`"), "{}", e2);
}

#[test]
fn builtin_errors_carry_position() {
    let (_, e) = run_err("print 1\nprint (set)");
    assert_eq!(e, "test line 2 column 7: Too few args to `set`");
}

#[test]
fn executing_a_non_function_is_an_error() {
    let (_, e) = run_err("3 4");
    assert!(e.contains("Tried to execute non-function"), "{}", e);
}

#[test]
fn fail_stops_the_program() {
    let (out, e) = run_err("print 1\nfail \"boom\"\nprint 2");
    assert_eq!(out, "1");
    assert!(e.ends_with("boom"), "{}", e);
}

#[test]
fn collection_keeps_values() {
    // A small heap forces many collections; the program's data must survive them.
    let prog = "set 'a [0]\nset 'i 1\ndo 'fill {\n if (< i 300) {\n  push a (* i 2)\n  set 'i (+ i 1)\n  fill 0\n } {\n  print (len a) sp (get a 150) sp (get a 299)\n }\n}";
    let (out, err) = run_with(prog, false, &[], Memory::new_sized(200));
    assert!(err.is_none(), "{:?}", err);
    assert_eq!(out, "300 300 598");
}

#[test]
fn inset_binds_names_to_elements() {
    assert_eq!(run("set 'names (make-array \"p\" \"q\" \"r\")\ninset (make-array 1 2) names\nprint p sp q sp r"), "1 2 [nil]");
}

#[test]
fn inset_later_names_win() {
    assert_eq!(run("inset (make-array 1 2) (make-array \"p\" \"p\")\nprint p"), "2");
}

#[test]
fn inset_rejects_a_name_that_is_no_string() {
    let (_, e) = run_err("inset (make-array 1) (make-array 3)");
    assert!(e.ends_with("Argument 1 element 0 to `inset` not recognized (wanted string)"), "{}", e);
    let (_, e2) = run_err("inset 1 (make-array \"p\")");
    assert!(e2.ends_with("Unrecognized arguments to `inset`"), "{}", e2);
}

#[test]
fn outset_reads_globals_into_an_array() {
    let prog = "set 'p 5\nset 'out (make-array 9 8 7)\noutset out (make-array \"p\" \"zz\")\nprint (get out 0) sp (get out 1) sp (get out 2) sp (len out)";
    assert_eq!(run(prog), "5 [nil] 7 3");
}

#[test]
fn outset_grows_the_array() {
    let prog = "set 'p 5\nset 'q 6\nset 'out (make-array)\noutset out (make-array \"p\" \"q\")\nprint (len out) sp (get out 0) sp (get out 1)";
    assert_eq!(run(prog), "2 5 6");
}

#[test]
fn outset_onto_its_own_names() {
    let prog = "set 'a (make-array \"p\" \"q\")\nset 'p 1\nset 'q 2\noutset a a\nprint (get a 0) sp (get a 1) sp (len a)";
    assert_eq!(run(prog), "1 2 2");
}

#[test]
fn rest_argument_collects_the_others() {
    let prog = "set-fn 'f {a, &more} {} {\n print a sp (len more) sp (get more 1)\n}\nf 1 2 3";
    assert_eq!(run(prog), "1 2 3");
}

#[test]
fn fn_unpack_gives_name_and_parts() {
    let prog = "set-fn 'f {a} {} {\n a\n}\nset 'parts (fn-unpack f)\nprint (get parts 0) sp (len parts) sp (is-array (get parts 3))";
    assert_eq!(run(prog), "f 4 [true]");
    assert_eq!(run("print (get (fn-unpack (fn {1})) 0)"), "[nil]");
}

#[test]
fn apply_calls_with_array_elements() {
    assert_eq!(run("print (apply + (make-array 1 2 3))"), "6");
}

#[test]
fn keys_of_a_dict_in_order() {
    assert_eq!(run("set 'd (make-dict 'b 1 'a 2)\nset 'k (keys d)\nprint (get k 0) (get k 1) sp (len k)"), "ba 2");
}

#[test]
fn make_array_at_takes_a_position() {
    assert_eq!(run("set 'p (get-position (make-array-at (make-array 0 7 3) 1 2))\nprint (get p 0) sp (get p 1) sp (get p 2)"), "0 7 3");
    assert_eq!(run("set 'p (get-position (make-array-at (make-array 0 7) 1))\nprint (get p 1) sp (get p 2)"), "7 0");
}

#[test]
fn position_source_names_the_source() {
    assert_eq!(run("print (get-position-source 0) sp (get-position-source 2) sp (get-position-source 5)"), "<user-defined> test [nil]");
}

#[test]
fn excess_arguments_are_ignored() {
    let prog = "set-fn 'multiply-10-add {arg1 0, arg2 5} {local1 10} {\n set 'local1 (* local1 arg1)\n set 'local1 (+ local1 arg2)\n local1\n}\nprint (multiply-10-add 5 10 99)";
    assert_eq!(run(prog), "60");
}

#[test]
fn quoted_list_is_an_array_of_strings() {
    assert_eq!(run("set 'q '(x y z w)\nprint (len q) sp (get q 0) (get q 3) sp (is-string (get q 1))"), "4 xw [true]");
}

#[test]
fn quote_is_a_box() {
    assert_eq!(run("set 'b (make-quote 0)\nset b 5\nprint (unquote b)"), "5");
}

#[test]
fn arguments_are_evaluated_left_to_right() {
    assert_eq!(run("set 'x 0\nset 'next { set 'x (+ x 1)\n x }\nprint (do next) sp (do next) sp (do next)"), "1 2 3");
}

#[test]
fn constants_are_bound() {
    assert_eq!(run("print INT_MAX sp INT_MIN sp true sp nil sp else (+ \"a\" sp \"b\" ln)"), "9223372036854775807 -9223372036854775808 [true] [nil] [nil]a b\n");
}

#[test]
fn globals_bind_else_right_after_if() {
    let prog = "set 'k (keys)\nset 'i 0\ndo 'find {\n if (= (get k i) \"if\") {\n  print (get k (+ i 1)) sp (get k 0) sp (get k (- (len k) 1))\n } {\n  set 'i (+ i 1)\n  find 0\n }\n}";
    assert_eq!(run(prog), "else set args");
}

#[test]
fn get_with_an_invalid_index_is_nil() {
    assert_eq!(run("set 'a [4]\nprint (get a 1) sp (get a -1) sp (get \"ab\" -1) sp (len a)"), "[nil] [nil] [nil] 1");
}

#[test]
fn has_agrees_with_get_on_strings() {
    assert_eq!(run("set 's \"é\"\nprint (get s 1) sp (has s 1) sp (has s 0) sp (has s -1) sp (get s 0)"), "[nil] [nil] [true] [nil] é");
}

#[test]
fn trunc_is_bound_as_in_the_docs() {
    assert_eq!(run("set 'a [4, 5, 6]\ntrunc a 1\nprint (len a)"), "1");
}

#[test]
fn push_accepts_the_name_of_an_array() {
    assert_eq!(run("set 'a [4]\npush 'a 5\nprint (len a) sp (get a 1)"), "2 5");
}

#[test]
fn unquoting_a_new_quote_gives_the_value_back() {
    assert_eq!(run("set 'q (make-quote \"word\")\nprint (unquote q) sp (unquote (make-quote 7))"), "word 7");
}

#[test]
fn an_unbound_name_stops_the_program() {
    let (out, e) = run_err("print 1\nprint missing");
    assert_eq!(out, "1");
    assert!(e.ends_with("Unrecognized variable: missing"), "{}", e);
}

#[test]
fn deleting_a_key_twice_is_deleting_it_once() {
    assert_eq!(run("set 'd (make-dict 'x 5 'y 6)\ndel d 'y\ndel d 'y\nprint (len d) sp (get d 'x) sp (has d 'y)"), "1 5 [nil]");
}

#[test]
fn calls_in_arguments_run_before_the_line() {
    assert_eq!(run("print (+ 3 2) (- 1 2) ln"), "5-1\n");
}

#[test]
fn a_set_variable_prints() {
    assert_eq!(run("set 'x 3\nprint x"), "3");
}

#[test]
fn function_defaults_and_extra_arguments() {
    let prog = "set-fn 'm {arg1 0, arg2 5} {local1 10} {\nset 'local1 (* local1 arg1)\nset 'local1 (+ local1 arg2)\nlocal1\n}\nprint (m 5 10) sp (m 5) sp (m 5 10 99)";
    assert_eq!(run(prog), "60 55 60");
}

#[test]
fn a_callers_local_is_restored_after_a_call() {
    let prog = "set-fn 'fun1 {f} {x 2} {\ndo f\n}\nset-fn 'fun2 {v} {x 3} {\nprint \"x: \" x ln\nfun1 {\nprint \"x: \" x ln\n}\nprint \"x: \" x ln\n}\nfun2 \"idk\"";
    assert_eq!(run(prog), "x: 3\nx: 2\nx: 3\n");
}
