//! End-to-end REPL scenarios: each feeds source text through a fresh
//! interpreter and checks the printed line.
use mal::interp::Interp;

const FUEL: u64 = 10_000_000;

fn chars(s: &str) -> Vec<char> {
    s.chars().collect()
}

fn text(v: &[char]) -> String {
    v.iter().collect()
}

/// Runs each form as one REPL turn and returns the whole printed output.
fn run(forms: &[&str]) -> String {
    let mut interp = Interp::new(vec![], vec![]);
    for f in forms {
        interp.rep(&chars(f), FUEL);
    }
    text(&interp.take_out())
}

#[test]
fn arithmetic_nests() {
    assert_eq!(run(&["(+ 1 (* 2 3))"]), "7\n");
}

#[test]
fn arithmetic_negative_and_division() {
    assert_eq!(run(&["(- 2 5)"]), "-3\n");
    assert_eq!(run(&["(/ 7 -2)"]), "-3\n");
    assert_eq!(run(&["(/ -7 2)"]), "-3\n");
    assert_eq!(run(&["(/ 10 3)"]), "3\n");
}

#[test]
fn factorial_recurses() {
    assert_eq!(
        run(&["(def! fact (fn* (n) (if (<= n 1) 1 (* n (fact (- n 1))))))", "(fact 5)"]),
        "#<function>\n120\n"
    );
}

#[test]
fn let_star_sees_earlier_bindings() {
    assert_eq!(run(&["(let* (a 1 b (+ a 2)) (list a b))"]), "(1 3)\n");
}

#[test]
fn atoms_swap_and_deref() {
    assert_eq!(
        run(&["(def! a (atom 0))", "(swap! a (fn* (x) (+ x 10)))", "(deref a)"]),
        "(atom 0)\n10\n10\n"
    );
}

#[test]
fn atoms_reset() {
    assert_eq!(run(&["(def! a (atom 1))", "(reset! a 9)", "(deref a)"]), "(atom 1)\n9\n9\n");
    assert_eq!(run(&["(atom? (atom 1))", "(atom? 1)"]), "true\nfalse\n");
}

#[test]
fn read_string_parses_and_counts() {
    assert_eq!(run(&["(read-string \"(1 2 3)\")"]), "(1 2 3)\n");
    assert_eq!(run(&["(count (read-string \"(1 2 3)\"))"]), "3\n");
}

#[test]
fn list_and_vector_compare_equal() {
    assert_eq!(run(&["(= [1 2 (list 3)] (list 1 2 [3]))"]), "true\n");
    assert_eq!(run(&["(= (list 1 2 3) [1 2 3])"]), "true\n");
    assert_eq!(run(&["(= (list 1 2) (list 1 2 3))"]), "false\n");
}

#[test]
fn equality_is_reflexive_on_readable_values() {
    assert_eq!(run(&["(= 5 5)"]), "true\n");
    assert_eq!(run(&["(= \"ab\" \"ab\")"]), "true\n");
    assert_eq!(run(&["(= :kw :kw)"]), "true\n");
    assert_eq!(run(&["(= nil nil)"]), "true\n");
    assert_eq!(run(&["(= (list 1 [2 \"x\"]) (list 1 [2 \"x\"]))"]), "true\n");
}

#[test]
fn if_with_empty_list_is_true() {
    assert_eq!(run(&["(if (empty? (list)) :yes :no)"]), ":yes\n");
}

#[test]
fn truthiness_of_zero_and_nil() {
    assert_eq!(run(&["(if 0 :t :f)"]), ":t\n");
    assert_eq!(run(&["(if nil :t :f)"]), ":f\n");
    assert_eq!(run(&["(if false :t :f)"]), ":f\n");
    assert_eq!(run(&["(if true :t)"]), ":t\n");
    assert_eq!(run(&["(if false :t)"]), "nil\n");
}

#[test]
fn quote_reads_and_eval_applies() {
    // the quote prefix is a reader rewrite; the core defines no quote form
    let v = mal::reader::read_str(&chars("'(1 2)")).expect("expected the source to parse");
    let printed = mal::printer::print_str(&v, false, true, &vec![]);
    assert_eq!(text(&printed), "(quote (1 2))");
    assert_eq!(run(&["(eval (cons + (list 1 2)))"]), "3\n");
}

#[test]
fn tail_recursion_runs_deep() {
    // one hundred thousand self tail-calls run in bounded host stack
    assert_eq!(
        run(&["(def! cd (fn* (n) (if (<= n 1) 1 (cd (- n 1)))))", "(cd 100000)"]),
        "#<function>\n1\n"
    );
}

#[test]
fn lexical_scope_survives_the_call_site() {
    assert_eq!(
        run(&[
            "(def! add5 (let* (n 5) (fn* (x) (+ x n))))",
            "(def! n 100)",
            "(add5 3)",
        ]),
        "#<function>\n100\n8\n"
    );
}

#[test]
fn argv_is_bound_at_startup() {
    let mut interp = Interp::new(vec![chars("a"), chars("b")], vec![]);
    interp.rep(&chars("*ARGV*"), FUEL);
    assert_eq!(text(&interp.take_out()), "(\"a\" \"b\")\n");
    let mut empty = Interp::new(vec![], vec![]);
    empty.rep(&chars("*ARGV*"), FUEL);
    assert_eq!(text(&empty.take_out()), "()\n");
}

#[test]
fn load_file_installs_defs_at_the_root() {
    let files = vec![(chars("f.mal"), chars("(def! z 42)"))];
    let mut interp = Interp::new(vec![], files);
    interp.rep(&chars("(load-file \"f.mal\")"), FUEL);
    interp.rep(&chars("z"), FUEL);
    assert_eq!(text(&interp.take_out()), "nil\n42\n");
}

#[test]
fn slurp_reads_the_snapshot_and_fails_to_nil() {
    let files = vec![(chars("a.txt"), chars("hello"))];
    let mut interp = Interp::new(vec![], files);
    interp.rep(&chars("(slurp \"a.txt\")"), FUEL);
    interp.rep(&chars("(slurp \"missing.txt\")"), FUEL);
    assert_eq!(text(&interp.take_out()), "\"hello\"\nnil\n");
}

#[test]
fn not_is_defined_at_startup() {
    assert_eq!(run(&["(not true)", "(not nil)", "(not 0)"]), "false\ntrue\nfalse\n");
}

#[test]
fn vectors_and_hashmaps_evaluate_members() {
    assert_eq!(run(&["[1 (+ 1 1)]"]), "[1 2]\n");
    assert_eq!(run(&["{:a (+ 1 2)}"]), "{:a 3}\n");
}

#[test]
fn do_returns_the_last_form() {
    assert_eq!(run(&["(do 1 2 3)"]), "3\n");
}

#[test]
fn sequence_builtins() {
    assert_eq!(run(&["(cons 1 [2 3])"]), "(1 2 3)\n");
    assert_eq!(run(&["(concat (list 1) [2 3] (list))"]), "(1 2 3)\n");
    assert_eq!(run(&["(vec (list 1 2))"]), "[1 2]\n");
    assert_eq!(run(&["(list? (list 1))", "(list? [1])"]), "true\nfalse\n");
    assert_eq!(run(&["(count nil)", "(count [4 5])"]), "0\n2\n");
    assert_eq!(run(&["(empty? [])", "(empty? [1])"]), "true\nfalse\n");
}

#[test]
fn variadic_parameters_collect_the_rest() {
    assert_eq!(
        run(&["(def! f (fn* (a & r) (list a r)))", "(f 1 2 3)", "(f 1)"]),
        "#<function>\n(1 (2 3))\n(1 ())\n"
    );
}

#[test]
fn printing_builtins() {
    assert_eq!(run(&["(prn \"hi\")"]), "\"hi\"\nnil\n");
    assert_eq!(run(&["(println \"a\\nb\")"]), "a\nb\nnil\n");
    assert_eq!(run(&["(str \"a\" 1 :k)"]), "\"a1:k\"\n");
    assert_eq!(run(&["(pr-str \"a\")"]), "\"\\\"a\\\"\"\n");
}

#[test]
fn comparisons() {
    assert_eq!(run(&["(< 1 2)", "(<= 2 2)", "(> 1 2)", "(>= 3 2)"]), "true\ntrue\nfalse\ntrue\n");
}

#[test]
fn parse_failure_prints_eof() {
    assert_eq!(run(&["(abc"]), "EOF\n");
    assert_eq!(run(&["(+ 1 2) extra"]), "EOF\n");
}

#[test]
fn unbound_symbol_reports_not_found() {
    assert_eq!(run(&["missing"]), "missing not found\nError\n");
}

#[test]
fn wrong_arity_reports_and_fails() {
    assert_eq!(run(&["(+ 1)"]), "Wrong amount of arguments for +\nError\n");
    assert_eq!(run(&["(= 1)"]), "Wrong amount of arguments for =\nError\n");
    assert_eq!(run(&["(def! x)"]), "Wrong amount of arguments for def!\nError\n");
}

#[test]
fn division_by_zero_fails() {
    assert_eq!(run(&["(/ 1 0)"]), "Division by zero\nError\n");
}

#[test]
fn overflow_fails() {
    assert_eq!(run(&["(+ 2147483647 1)"]), "Integer overflow for +\nError\n");
    assert_eq!(run(&["(* 65536 65536)"]), "Integer overflow for *\nError\n");
    assert_eq!(run(&["(- -2147483648 1)"]), "Integer overflow for -\nError\n");
}

#[test]
fn mistyped_arithmetic_reports_and_fails() {
    assert_eq!(run(&["(+ 1 \"a\")"]), "Wrong type of arguments for +\nError\n");
    assert_eq!(run(&["(< 1 nil)"]), "Wrong type of arguments for <\nError\n");
}

#[test]
fn do_propagates_a_failing_leading_form() {
    assert_eq!(run(&["(do missing 42)"]), "missing not found\nError\n");
    assert_eq!(run(&["(do (+ 1 2) 42)"]), "42\n");
}

#[test]
fn let_star_with_odd_bindings_fails() {
    assert_eq!(
        run(&["(let* (a) 5)"]),
        "Wrong amount of arguments for bind of let*\nError\n"
    );
    assert_eq!(
        run(&["(let* (a 1 b) 5)"]),
        "Wrong amount of arguments for bind of let*\nError\n"
    );
}

#[test]
fn cons_on_a_non_sequence_yields_nil() {
    assert_eq!(run(&["(cons 1 2)"]), "nil\n");
}

#[test]
fn comments_are_whitespace() {
    assert_eq!(run(&["(+ 1 2) ; trailing words"]), "3\n");
    assert_eq!(run(&["(+ 1 ; inner\n 2)"]), "3\n");
}

#[test]
fn nested_functions_and_args() {
    assert_eq!(run(&["((fn* (a b) (+ a b)) 2 3)"]), "5\n");
    assert_eq!(run(&["(((fn* (a) (fn* (b) (+ a b))) 5) 7)"]), "12\n");
}
