//! The reader: source text to value tree.
//!
//! The grammar is the one the interpreter defines: whitespace is any run of
//! space, tab, newline or comma, `;` starts a comment that runs to the next
//! newline, and a form is a hash-map, string, vector, integer, boolean, nil,
//! keyword, list, reader macro or symbol — tried in that order.  A branch
//! that fails falls through to the later ones, so an out-of-range integer
//! token or a lone quote character is read as a symbol.
//!
//! The parser is specified by `spec_parse_form` over a character sequence and
//! a position; the executable parser returns exactly what the specification
//! says.  Recursion is bounded by a fuel that `read_fuel` sets high enough
//! for every input the machine can hold (the parser consumes a character at
//! least every second step).
use crate::types::{
    lemma_view_kvs_index, lemma_view_seq_index, str_to_chars, val_wf, view_kvs, view_seq, MalType,
    SpecVal,
};
use vstd::prelude::*;

verus! {

/// Whitespace: space, tab, newline, comma.
pub open spec fn is_ws(c: char) -> bool {
    c == ' ' || c == '\t' || c == '\n' || c == ','
}

/// A character that ends a token.
pub open spec fn is_term(c: char) -> bool {
    ||| c == '{'
    ||| c == '['
    ||| c == '('
    ||| c == ')'
    ||| c == ']'
    ||| c == '}'
    ||| c == ' '
    ||| c == '\t'
    ||| c == ','
    ||| c == ';'
    ||| c == ':'
    ||| c == '"'
    ||| c == '\n'
}

pub open spec fn is_digit(c: char) -> bool {
    '0' <= c && c <= '9'
}

/// The position just past a comment: the next newline or the end.
pub open spec fn skip_line(s: Seq<char>, i: int) -> int
    decreases s.len() - i,
        when 0 <= i <= s.len()
{
    if i < s.len() && s[i] != '\n' {
        skip_line(s, i + 1)
    } else {
        i
    }
}

pub proof fn lemma_skip_line_bounds(s: Seq<char>, i: int)
    requires
        0 <= i <= s.len(),
    ensures
        i <= skip_line(s, i) <= s.len(),
    decreases s.len() - i,
{
    if i < s.len() && s[i] != '\n' {
        lemma_skip_line_bounds(s, i + 1);
    }
}

/// The position after any run of whitespace and comments.  A comment needs at
/// least one character after the `;` before the newline.
pub open spec fn spec_spc(s: Seq<char>, i: int) -> int
    decreases s.len() - i,
        when 0 <= i <= s.len()
{
    if i < s.len() && is_ws(s[i]) {
        spec_spc(s, i + 1)
    } else if i + 1 < s.len() && s[i] == ';' && s[i + 1] != '\n' {
        proof {
            lemma_skip_line_bounds(s, i + 1);
        }
        spec_spc(s, skip_line(s, i + 1))
    } else {
        i
    }
}

pub proof fn lemma_spc_bounds(s: Seq<char>, i: int)
    requires
        0 <= i <= s.len(),
    ensures
        i <= spec_spc(s, i) <= s.len(),
    decreases s.len() - i,
{
    if i < s.len() && is_ws(s[i]) {
        lemma_spc_bounds(s, i + 1);
    } else if i + 1 < s.len() && s[i] == ';' && s[i + 1] != '\n' {
        lemma_skip_line_bounds(s, i + 1);
        lemma_spc_bounds(s, skip_line(s, i + 1));
    }
}

/// The end of the run of digits starting at `i`.
pub open spec fn digit_end(s: Seq<char>, i: int) -> int
    decreases s.len() - i,
        when 0 <= i <= s.len()
{
    if i < s.len() && is_digit(s[i]) {
        digit_end(s, i + 1)
    } else {
        i
    }
}

pub proof fn lemma_digit_end_bounds(s: Seq<char>, i: int)
    requires
        0 <= i <= s.len(),
    ensures
        i <= digit_end(s, i) <= s.len(),
        forall|k: int| i <= k < digit_end(s, i) ==> is_digit(s[k]),
        digit_end(s, i) < s.len() ==> !is_digit(s[digit_end(s, i)]),
    decreases s.len() - i,
{
    if i < s.len() && is_digit(s[i]) {
        lemma_digit_end_bounds(s, i + 1);
    }
}

/// The end of the run of non-terminating characters starting at `i`.
pub open spec fn nonterm_end(s: Seq<char>, i: int) -> int
    decreases s.len() - i,
        when 0 <= i <= s.len()
{
    if i < s.len() && !is_term(s[i]) {
        nonterm_end(s, i + 1)
    } else {
        i
    }
}

pub proof fn lemma_nonterm_end_bounds(s: Seq<char>, i: int)
    requires
        0 <= i <= s.len(),
    ensures
        i <= nonterm_end(s, i) <= s.len(),
        forall|k: int| i <= k < nonterm_end(s, i) ==> !is_term(s[k]),
        nonterm_end(s, i) < s.len() ==> is_term(s[nonterm_end(s, i)]),
    decreases s.len() - i,
{
    if i < s.len() && !is_term(s[i]) {
        lemma_nonterm_end_bounds(s, i + 1);
    }
}

/// The numeric value of the digit run `s[i..j]`, most significant first.
pub open spec fn digits_val(s: Seq<char>, i: int, j: int) -> int
    decreases j - i,
        when i <= j
{
    if i >= j {
        0
    } else {
        digits_val(s, i, j - 1) * 10 + (s[j - 1] as int - '0' as int)
    }
}

/// Does `lit` occur in `s` at position `i`?
pub open spec fn starts_with(s: Seq<char>, i: int, lit: Seq<char>) -> bool {
    0 <= i && i + lit.len() <= s.len() && s.subrange(i, i + lit.len()) == lit
}

/// The escape a backslash introduces inside a string literal.
pub open spec fn unescape(c: char) -> char {
    if c == 'n' {
        '\n'
    } else {
        c
    }
}

/// The body of a string literal, read from just after the opening quote up
/// to and including the closing quote.  `\\`, `\"` and `\n` are rewritten;
/// a backslash before any other character is a parse failure, as is a
/// missing closing quote.
pub open spec fn spec_parse_str(s: Seq<char>, i: int) -> Option<(Seq<char>, int)>
    decreases s.len() - i,
        when 0 <= i <= s.len()
{
    if i >= s.len() {
        None
    } else if s[i] == '"' {
        Some((Seq::empty(), i + 1))
    } else if s[i] == '\\' {
        if i + 1 < s.len() && (s[i + 1] == '\\' || s[i + 1] == '"' || s[i + 1] == 'n') {
            match spec_parse_str(s, i + 2) {
                Some((body, j)) => Some((seq![unescape(s[i + 1])].add(body), j)),
                None => None,
            }
        } else {
            None
        }
    } else {
        match spec_parse_str(s, i + 1) {
            Some((body, j)) => Some((seq![s[i]].add(body), j)),
            None => None,
        }
    }
}

pub proof fn lemma_parse_str_bounds(s: Seq<char>, i: int)
    requires
        0 <= i <= s.len(),
    ensures
        spec_parse_str(s, i) matches Some(r) ==> i < r.1 <= s.len(),
    decreases s.len() - i,
{
    if i < s.len() {
        if s[i] == '\\' {
            if i + 1 < s.len() && (s[i + 1] == '\\' || s[i + 1] == '"' || s[i + 1] == 'n') {
                lemma_parse_str_bounds(s, i + 2);
            }
        } else if s[i] != '"' {
            lemma_parse_str_bounds(s, i + 1);
        }
    }
}

/// One form, by the branch order of the grammar.  Returns the value and the
/// position just past it, or `None` on a parse failure.
pub open spec fn spec_parse_form(s: Seq<char>, i: int, fuel: nat) -> Option<(SpecVal, int)>
    decreases fuel,
        when 0 <= i <= s.len()
{
    if fuel == 0 || i >= s.len() {
        None
    } else {
        let c = s[i];
        if c == '{' {
            match spec_parse_kvs(s, i + 1, (fuel - 1) as nat) {
                Some((kvs, j)) => Some((SpecVal::HashMap(kvs), j)),
                None => None,
            }
        } else if c == '"' {
            match spec_parse_str(s, i + 1) {
                Some((body, j)) => Some((SpecVal::Str(body), j)),
                None => None,
            }
        } else if c == '[' {
            match spec_parse_items(s, i + 1, ']', (fuel - 1) as nat) {
                Some((items, j)) => Some((SpecVal::Vector(items), j)),
                None => None,
            }
        } else if is_digit(c) || (c == '-' && i + 1 < s.len() && is_digit(s[i + 1])) {
            let d0 = if c == '-' {
                i + 1
            } else {
                i
            };
            let dend = digit_end(s, d0);
            let mag = digits_val(s, d0, dend);
            let v = if c == '-' {
                -mag
            } else {
                mag
            };
            if -0x8000_0000 <= v <= 0x7fff_ffff {
                Some((SpecVal::Int(v), dend))
            } else {
                // the integer token overflows; the symbol branch takes over
                Some((SpecVal::Symbol(s.subrange(i, nonterm_end(s, i))), nonterm_end(s, i)))
            }
        } else if starts_with(s, i, "true"@) {
            Some((SpecVal::Bool(true), i + 4))
        } else if starts_with(s, i, "false"@) {
            Some((SpecVal::Bool(false), i + 5))
        } else if starts_with(s, i, "nil"@) {
            Some((SpecVal::Nil, i + 3))
        } else if c == ':' {
            let e = nonterm_end(s, i + 1);
            if i + 1 <= s.len() && e > i + 1 {
                Some((SpecVal::Keyword(s.subrange(i + 1, e)), e))
            } else {
                None
            }
        } else if c == '(' {
            match spec_parse_items(s, i + 1, ')', (fuel - 1) as nat) {
                Some((items, j)) => Some((SpecVal::List(items), j)),
                None => None,
            }
        } else if c == '~' && i + 1 < s.len() && s[i + 1] == '@' {
            quote_result(s, i, "splice-unquote"@, spec_parse_form(s, i + 2, (fuel - 1) as nat))
        } else if c == '\'' {
            quote_result(s, i, "quote"@, spec_parse_form(s, i + 1, (fuel - 1) as nat))
        } else if c == '`' {
            quote_result(s, i, "quasiquote"@, spec_parse_form(s, i + 1, (fuel - 1) as nat))
        } else if c == '@' {
            quote_result(s, i, "deref"@, spec_parse_form(s, i + 1, (fuel - 1) as nat))
        } else if c == '~' {
            quote_result(s, i, "unquote"@, spec_parse_form(s, i + 1, (fuel - 1) as nat))
        } else if c == '^' {
            match spec_parse_form(s, i + 1, (fuel - 1) as nat) {
                Some((m, j)) => if 0 <= j <= s.len() {
                    match spec_parse_form(s, spec_spc(s, j), (fuel - 1) as nat) {
                        Some((x, k)) => Some(
                            (SpecVal::List(seq![SpecVal::Symbol("with-meta"@), x, m]), k),
                        ),
                        None => fallback_symbol(s, i),
                    }
                } else {
                    fallback_symbol(s, i)
                },
                None => fallback_symbol(s, i),
            }
        } else if !is_term(c) {
            Some((SpecVal::Symbol(s.subrange(i, nonterm_end(s, i))), nonterm_end(s, i)))
        } else {
            None
        }
    }
}

/// The rewrite of a reader-macro prefix at `i`: `(name form)` if a form
/// follows, else the prefix characters read as a symbol.
pub open spec fn quote_result(
    s: Seq<char>,
    i: int,
    name: Seq<char>,
    inner: Option<(SpecVal, int)>,
) -> Option<(SpecVal, int)> {
    match inner {
        Some((x, k)) => Some((SpecVal::List(seq![SpecVal::Symbol(name), x]), k)),
        None => fallback_symbol(s, i),
    }
}

/// The symbol branch, reached when an earlier branch consumed nothing.
pub open spec fn fallback_symbol(s: Seq<char>, i: int) -> Option<(SpecVal, int)> {
    Some((SpecVal::Symbol(s.subrange(i, nonterm_end(s, i))), nonterm_end(s, i)))
}

/// The forms inside a list or vector, up to the closing character.
pub open spec fn spec_parse_items(s: Seq<char>, i: int, closer: char, fuel: nat) -> Option<
    (Seq<SpecVal>, int),
>
    decreases fuel,
        when 0 <= i <= s.len()
{
    if fuel == 0 {
        None
    } else {
        let j = spec_spc(s, i);
        match spec_parse_form(s, j, (fuel - 1) as nat) {
            Some((v, k)) => if 0 <= k <= s.len() {
                match spec_parse_items(s, k, closer, (fuel - 1) as nat) {
                    Some((rest, e)) => Some((seq![v].add(rest), e)),
                    None => None,
                }
            } else {
                None
            },
            None => if j < s.len() && s[j] == closer {
                Some((Seq::empty(), j + 1))
            } else {
                None
            },
        }
    }
}

/// The key/value forms inside a hash-map literal; an odd count fails.
pub open spec fn spec_parse_kvs(s: Seq<char>, i: int, fuel: nat) -> Option<
    (Seq<(SpecVal, SpecVal)>, int),
>
    decreases fuel,
        when 0 <= i <= s.len()
{
    if fuel == 0 {
        None
    } else {
        let j = spec_spc(s, i);
        match spec_parse_form(s, j, (fuel - 1) as nat) {
            Some((k1, p)) => if 0 <= p <= s.len() {
                let p2 = spec_spc(s, p);
                match spec_parse_form(s, p2, (fuel - 1) as nat) {
                    Some((v1, q)) => if 0 <= q <= s.len() {
                        match spec_parse_kvs(s, q, (fuel - 1) as nat) {
                            Some((rest, e)) => Some((seq![(k1, v1)].add(rest), e)),
                            None => None,
                        }
                    } else {
                        None
                    },
                    None => None,
                }
            } else {
                None
            },
            None => if j < s.len() && s[j] == '}' {
                Some((Seq::empty(), j + 1))
            } else {
                None
            },
        }
    }
}

/// Fuel that the parser can never exhaust: it consumes a character at least
/// every second recursive step.
pub open spec fn read_fuel(s: Seq<char>) -> nat {
    (2 * s.len() + 2) as nat
}

/// The whole-input read: leading whitespace, one form, trailing whitespace,
/// then the end of the input.
pub open spec fn spec_read(s: Seq<char>) -> Option<SpecVal> {
    let j = spec_spc(s, 0);
    match spec_parse_form(s, j, read_fuel(s)) {
        Some((v, k)) => if 0 <= k <= s.len() && spec_spc(s, k) == s.len() {
            Some(v)
        } else {
            None
        },
        None => None,
    }
}

/// Parse results lie between the start position and the end of the input.
pub proof fn lemma_parse_bounds(s: Seq<char>, i: int, closer: char, fuel: nat)
    requires
        0 <= i <= s.len(),
    ensures
        spec_parse_form(s, i, fuel) matches Some(r) ==> i < r.1 <= s.len(),
        spec_parse_items(s, i, closer, fuel) matches Some(r) ==> i <= r.1 <= s.len(),
        spec_parse_kvs(s, i, fuel) matches Some(r) ==> i <= r.1 <= s.len(),
    decreases fuel, 1nat,
{
    lemma_spc_bounds(s, i);
    lemma_nonterm_end_bounds(s, i);
    reveal_strlit("true");
    reveal_strlit("false");
    reveal_strlit("nil");
    if fuel > 0 && i < s.len() {
        let c = s[i];
        let f1 = (fuel - 1) as nat;
        lemma_parse_bounds(s, i + 1, ']', f1);
        lemma_parse_bounds(s, i + 1, ')', f1);
        if c == '{' {
            assert(spec_parse_form(s, i, fuel) matches Some(r) ==> i < r.1 <= s.len());
        } else if c == '"' {
            lemma_parse_str_bounds(s, i + 1);
            assert(spec_parse_form(s, i, fuel) matches Some(r) ==> i < r.1 <= s.len());
        } else if c == '[' {
            assert(spec_parse_form(s, i, fuel) matches Some(r) ==> i < r.1 <= s.len());
        } else if is_digit(c) || (c == '-' && i + 1 < s.len() && is_digit(s[i + 1])) {
            let d0 = if c == '-' {
                i + 1
            } else {
                i
            };
            lemma_digit_end_bounds(s, d0);
            assert(spec_parse_form(s, i, fuel) matches Some(r) ==> i < r.1 <= s.len());
        } else if starts_with(s, i, "true"@) || starts_with(s, i, "false"@) || starts_with(
            s,
            i,
            "nil"@,
        ) {
            assert(spec_parse_form(s, i, fuel) matches Some(r) ==> i < r.1 <= s.len());
        } else if c == ':' {
            lemma_nonterm_end_bounds(s, i + 1);
            assert(spec_parse_form(s, i, fuel) matches Some(r) ==> i < r.1 <= s.len());
        } else if c == '(' {
            assert(spec_parse_form(s, i, fuel) matches Some(r) ==> i < r.1 <= s.len());
        } else if c == '~' && i + 1 < s.len() && s[i + 1] == '@' {
            lemma_parse_bounds(s, i + 2, ')', f1);
            assert(spec_parse_form(s, i, fuel) matches Some(r) ==> i < r.1 <= s.len());
        } else if c == '\'' || c == '`' || c == '@' || c == '~' {
            assert(spec_parse_form(s, i, fuel) matches Some(r) ==> i < r.1 <= s.len());
        } else if c == '^' {
            match spec_parse_form(s, i + 1, f1) {
                Some((m, j)) => {
                    if 0 <= j <= s.len() {
                        lemma_spc_bounds(s, j);
                        lemma_parse_bounds(s, spec_spc(s, j), ')', f1);
                    }
                },
                None => {},
            }
            assert(spec_parse_form(s, i, fuel) matches Some(r) ==> i < r.1 <= s.len());
        } else {
            assert(spec_parse_form(s, i, fuel) matches Some(r) ==> i < r.1 <= s.len());
        }
    }
    if fuel > 0 {
        lemma_parse_bounds_items_step(s, i, closer, fuel);
    }
}

proof fn lemma_parse_bounds_items_step(s: Seq<char>, i: int, closer: char, fuel: nat)
    requires
        0 <= i <= s.len(),
        fuel > 0,
    ensures
        spec_parse_items(s, i, closer, fuel) matches Some(r) ==> i <= r.1 <= s.len(),
        spec_parse_kvs(s, i, fuel) matches Some(r) ==> i <= r.1 <= s.len(),
    decreases fuel, 0nat,
{
    let j = spec_spc(s, i);
    lemma_spc_bounds(s, i);
    lemma_parse_bounds(s, j, closer, (fuel - 1) as nat);
    match spec_parse_form(s, j, (fuel - 1) as nat) {
        Some((v, k)) => {
            if 0 <= k <= s.len() {
                lemma_parse_bounds(s, k, closer, (fuel - 1) as nat);
                let p2 = spec_spc(s, k);
                lemma_spc_bounds(s, k);
                lemma_parse_bounds(s, p2, closer, (fuel - 1) as nat);
                match spec_parse_form(s, p2, (fuel - 1) as nat) {
                    Some((v2, q)) => {
                        if 0 <= q <= s.len() {
                            lemma_parse_bounds(s, q, closer, (fuel - 1) as nat);
                        }
                    },
                    None => {},
                }
            }
        },
        None => {},
    }
}


/// Ten to the `n`.
pub open spec fn pow10(n: nat) -> int
    decreases n,
{
    if n == 0 {
        1
    } else {
        10 * pow10((n - 1) as nat)
    }
}

proof fn lemma_digits_upper(s: Seq<char>, i: int, j: int)
    requires
        0 <= i <= j <= s.len(),
        forall|k: int| i <= k < j ==> is_digit(s[k]),
    ensures
        0 <= digits_val(s, i, j) < pow10((j - i) as nat),
    decreases j - i,
{
    if i < j {
        lemma_digits_upper(s, i, j - 1);
        let d = s[j - 1] as int - '0' as int;
        assert(0 <= d <= 9);
        assert(digits_val(s, i, j - 1) * 10 + d < pow10((j - i - 1) as nat) * 10)
            by (nonlinear_arith)
            requires
                0 <= digits_val(s, i, j - 1) < pow10((j - i - 1) as nat),
                0 <= d <= 9,
        ;
    }
}

proof fn lemma_digits_lower(s: Seq<char>, i: int, j: int)
    requires
        0 <= i < j <= s.len(),
        forall|k: int| i <= k < j ==> is_digit(s[k]),
        s[i] != '0',
    ensures
        digits_val(s, i, j) >= pow10((j - i - 1) as nat),
    decreases j - i,
{
    if j == i + 1 {
        assert(s[i] as int - '0' as int >= 1);
    } else {
        lemma_digits_lower(s, i, j - 1);
        assert(s[j - 1] as int - '0' as int >= 0);
        assert(digits_val(s, i, j) == digits_val(s, i, j - 1) * 10 + (s[j - 1] as int
            - '0' as int));
        assert(digits_val(s, i, j - 1) * 10 >= pow10((j - i - 2) as nat) * 10) by (nonlinear_arith)
            requires
                digits_val(s, i, j - 1) >= pow10((j - i - 2) as nat),
        ;
        assert(pow10((j - i - 1) as nat) == 10 * pow10((j - i - 2) as nat));
    }
}

proof fn lemma_digits_strip_zero(s: Seq<char>, i: int, j: int)
    requires
        0 <= i < j <= s.len(),
        s[i] == '0',
    ensures
        digits_val(s, i, j) == digits_val(s, i + 1, j),
    decreases j - i,
{
    if j == i + 1 {
        assert(digits_val(s, i, j) == digits_val(s, i, i) * 10 + (s[i] as int - '0' as int));
        assert(s[i] as int - '0' as int == 0);
    } else {
        lemma_digits_strip_zero(s, i, j - 1);
        assert(digits_val(s, i, j) == digits_val(s, i, j - 1) * 10 + (s[j - 1] as int
            - '0' as int));
        assert(digits_val(s, i + 1, j) == digits_val(s, i + 1, j - 1) * 10 + (s[j - 1] as int
            - '0' as int));
    }
}

proof fn lemma_digits_strip_zeros(s: Seq<char>, i: int, z: int, j: int)
    requires
        0 <= i <= z <= j <= s.len(),
        forall|k: int| i <= k < z ==> s[k] == '0',
    ensures
        digits_val(s, i, j) == digits_val(s, z, j),
    decreases z - i,
{
    if i < z {
        if i < j {
            lemma_digits_strip_zero(s, i, j);
        }
        lemma_digits_strip_zeros(s, i + 1, z, j);
    }
}

/// The position after whitespace and comments, as `spec_spc` gives it.
fn spc(s: &Vec<char>, i: usize) -> (j: usize)
    requires
        i <= s@.len(),
    ensures
        j as int == spec_spc(s@, i as int),
        i <= j <= s@.len(),
{
    let n: usize = s.len();
    let mut j: usize = i;
    loop
        invariant
            i <= j <= n,
            n == s@.len(),
            spec_spc(s@, i as int) == spec_spc(s@, j as int),
        decreases n - j,
    {
        if j < n && (s[j] == ' ' || s[j] == '\t' || s[j] == '\n' || s[j] == ',') {
            j = j + 1;
        } else if j < n && j + 1 < n && s[j] == ';' && s[j + 1] != '\n' {
            let mut k: usize = j + 1;
            while k < n && s[k] != '\n'
                invariant
                    j + 1 <= k <= n,
                    n == s@.len(),
                    skip_line(s@, j + 1) == skip_line(s@, k as int),
                decreases n - k,
            {
                k = k + 1;
            }
            proof {
                lemma_spc_bounds(s@, k as int);
            }
            j = k;
        } else {
            proof {
                lemma_spc_bounds(s@, i as int);
            }
            return j;
        }
    }
}

/// The end of the run of non-terminating characters, as `nonterm_end`.
fn scan_nonterm(s: &Vec<char>, i: usize) -> (e: usize)
    requires
        i <= s@.len(),
    ensures
        e as int == nonterm_end(s@, i as int),
        i <= e <= s@.len(),
{
    let n: usize = s.len();
    let mut e: usize = i;
    while e < n && !is_term_exec(s[e])
        invariant
            i <= e <= n,
            n == s@.len(),
            nonterm_end(s@, i as int) == nonterm_end(s@, e as int),
        decreases n - e,
    {
        e = e + 1;
    }
    e
}

/// The end of the run of digits, as `digit_end`.
fn scan_digits(s: &Vec<char>, i: usize) -> (e: usize)
    requires
        i <= s@.len(),
    ensures
        e as int == digit_end(s@, i as int),
        i <= e <= s@.len(),
{
    let n: usize = s.len();
    let mut e: usize = i;
    while e < n && '0' <= s[e] && s[e] <= '9'
        invariant
            i <= e <= n,
            n == s@.len(),
            digit_end(s@, i as int) == digit_end(s@, e as int),
        decreases n - e,
    {
        e = e + 1;
    }
    e
}

fn is_term_exec(c: char) -> (r: bool)
    ensures
        r == is_term(c),
{
    c == '{' || c == '[' || c == '(' || c == ')' || c == ']' || c == '}' || c == ' ' || c == '\t'
        || c == ',' || c == ';' || c == ':' || c == '"' || c == '\n'
}

/// The characters `s[i..j]`.
fn sub_chars(s: &Vec<char>, i: usize, j: usize) -> (r: Vec<char>)
    requires
        i <= j <= s@.len(),
    ensures
        r@ == s@.subrange(i as int, j as int),
{
    let mut r: Vec<char> = Vec::new();
    let mut k: usize = i;
    while k < j
        invariant
            i <= k <= j <= s@.len(),
            r@ == s@.subrange(i as int, k as int),
        decreases j - k,
    {
        r.push(s[k]);
        assert(r@ =~= s@.subrange(i as int, k + 1 as int));
        k = k + 1;
    }
    r
}

/// Does the literal `lit` occur at position `i`?
fn check_lit(s: &Vec<char>, i: usize, lit: &str) -> (r: bool)
    requires
        i <= s@.len(),
    ensures
        r == starts_with(s@, i as int, lit@),
{
    let lc = str_to_chars(lit);
    let m: usize = lc.len();
    let n: usize = s.len();
    if n - i < m {
        return false;
    }
    let mut k: usize = 0;
    while k < m
        invariant
            k <= m,
            m == lit@.len(),
            lc@ == lit@,
            n == s@.len(),
            i + m <= n,
            forall|t: int| 0 <= t < k ==> s@[i + t] == lit@[t],
        decreases m - k,
    {
        if s[i + k] != lc[k] {
            assert(s@.subrange(i as int, i + m) != lit@) by {
                assert(s@.subrange(i as int, i + m)[k as int] != lit@[k as int]);
            }
            return false;
        }
        k = k + 1;
    }
    assert(s@.subrange(i as int, i + m) =~= lit@);
    true
}

/// The body of a string literal, from just after the opening quote.
fn parse_str(s: &Vec<char>, i: usize) -> (r: Option<(Vec<char>, usize)>)
    requires
        i <= s@.len(),
    ensures
        match spec_parse_str(s@, i as int) {
            Some((body, j)) => r matches Some(p) && p.0@ == body && p.1 as int == j && i < p.1
                <= s@.len(),
            None => r is None,
        },
{
    proof {
        lemma_parse_str_bounds(s@, i as int);
    }
    let n: usize = s.len();
    let mut acc: Vec<char> = Vec::new();
    let mut cur: usize = i;
    loop
        invariant
            i <= cur <= n,
            n == s@.len(),
            match spec_parse_str(s@, cur as int) {
                Some((body, j)) => spec_parse_str(s@, i as int) == Some(
                    (acc@ + body, j),
                ) && cur < j <= s@.len(),
                None => spec_parse_str(s@, i as int) is None,
            },
        decreases n - cur,
    {
        proof {
            lemma_parse_str_bounds(s@, cur as int);
        }
        if cur >= n {
            return None;
        }
        let c = s[cur];
        if c == '"' {
            proof {
                assert(acc@ + Seq::<char>::empty() =~= acc@);
            }
            return Some((acc, cur + 1));
        }
        if c == '\\' {
            if cur + 1 < n && (s[cur + 1] == '\\' || s[cur + 1] == '"' || s[cur + 1] == 'n') {
                let e = s[cur + 1];
                let t = if e == 'n' {
                    '\n'
                } else {
                    e
                };
                proof {
                    lemma_parse_str_bounds(s@, cur + 2);
                    let o = spec_parse_str(s@, cur + 2);
                    if o is Some {
                        let b2 = (o->0).0;
                        assert(acc@ + (seq![unescape(s@[cur + 1])].add(b2)) =~= acc@.push(
                            unescape(s@[cur + 1]),
                        ) + b2);
                    }
                }
                acc.push(t);
                cur = cur + 2;
            } else {
                return None;
            }
        } else {
            proof {
                lemma_parse_str_bounds(s@, cur + 1);
                let o = spec_parse_str(s@, cur + 1);
                if o is Some {
                    let b2 = (o->0).0;
                    assert(acc@ + (seq![s@[cur as int]].add(b2)) =~= acc@.push(s@[cur as int])
                        + b2);
                }
            }
            acc.push(c);
            cur = cur + 1;
        }
    }
}


proof fn lemma_pow10_pos(n: nat)
    ensures
        pow10(n) >= 1,
    decreases n,
{
    if n > 0 {
        lemma_pow10_pos((n - 1) as nat);
    }
}

proof fn lemma_pow10_mono(a: nat, b: nat)
    requires
        a <= b,
    ensures
        pow10(a) <= pow10(b),
        pow10(a) >= 1,
    decreases b,
{
    lemma_pow10_pos(a);
    if a < b {
        lemma_pow10_mono(a, (b - 1) as nat);
        lemma_pow10_pos((b - 1) as nat);
    }
}

/// The integer branch of the grammar: a digit run (with optional sign) in
/// the 32-bit range is an `Int`; a run that overflows falls through to the
/// symbol branch.
fn parse_int_or_symbol(s: &Vec<char>, i: usize) -> (r: (MalType, usize))
    requires
        i < s@.len(),
        is_digit(s@[i as int]) || (s@[i as int] == '-' && i + 1 < s@.len() && is_digit(
            s@[i + 1],
        )),
    ensures
        ({
            let c = s@[i as int];
            let d0: int = if c == '-' {
                i + 1
            } else {
                i as int
            };
            let dend = digit_end(s@, d0);
            let mag = digits_val(s@, d0, dend);
            let v: int = if c == '-' {
                -mag
            } else {
                mag
            };
            if -0x8000_0000 <= v <= 0x7fff_ffff {
                r.0@ == SpecVal::Int(v) && r.1 as int == dend
            } else {
                r.0@ == SpecVal::Symbol(s@.subrange(i as int, nonterm_end(s@, i as int)))
                    && r.1 as int == nonterm_end(s@, i as int)
            }
        }),
        i < r.1 <= s@.len(),
{
    let n: usize = s.len();
    let neg = s[i] == '-';
    let d0: usize = if neg {
        i + 1
    } else {
        i
    };
    let dend = scan_digits(s, d0);
    proof {
        lemma_digit_end_bounds(s@, d0 as int);
        lemma_nonterm_end_bounds(s@, i as int);
        assert(!is_term(s@[i as int]));
    }
    let ghost mag = digits_val(s@, d0 as int, dend as int);
    // skip leading zeros; they do not change the value
    let mut z: usize = d0;
    while z < dend && s[z] == '0'
        invariant
            d0 <= z <= dend <= s@.len(),
            forall|k: int| d0 <= k < z ==> s@[k] == '0',
        decreases dend - z,
    {
        z = z + 1;
    }
    proof {
        lemma_digits_strip_zeros(s@, d0 as int, z as int, dend as int);
        lemma_digit_end_bounds(s@, d0 as int);
        reveal_with_fuel(pow10, 12);
    }
    if dend - z > 10 {
        // at least eleven significant digits: out of the 32-bit range
        proof {
            lemma_digits_lower(s@, z as int, dend as int);
            lemma_pow10_mono(10nat, (dend - z - 1) as nat);
            assert(mag >= 10000000000);
        }
        let e = scan_nonterm(s, i);
        let t = sub_chars(s, i, e);
        proof {
            lemma_nonterm_end_bounds(s@, i as int);
        }
        return (MalType::Symbol(t), e);
    }
    let mut acc: u64 = 0;
    let mut p: usize = z;
    while p < dend
        invariant
            z <= p <= dend <= s@.len(),
            dend - z <= 10,
            forall|k: int| z <= k < dend ==> is_digit(s@[k]),
            acc as int == digits_val(s@, z as int, p as int),
            acc < 10000000000,
        decreases dend - p,
    {
        proof {
            lemma_digits_upper(s@, z as int, p + 1);
            lemma_pow10_mono((p + 1 - z) as nat, 10nat);
            reveal_with_fuel(pow10, 12);
        }
        let d: u32 = s[p] as u32 - '0' as u32;
        acc = acc * 10 + (d as u64);
        p = p + 1;
    }
    proof {
        assert(acc as int == mag);
    }
    if !neg && acc <= 2147483647 {
        (MalType::Int(acc as i32), dend)
    } else if neg && acc <= 2147483648 {
        let v: i32 = if acc == 2147483648 {
            -2147483647 - 1
        } else {
            let a: i32 = acc as i32;
            -a
        };
        (MalType::Int(v), dend)
    } else {
        proof {
            lemma_nonterm_end_bounds(s@, i as int);
        }
        let e = scan_nonterm(s, i);
        let t = sub_chars(s, i, e);
        (MalType::Symbol(t), e)
    }
}

/// A list value of exactly the given elements.
fn list2(a: MalType, b: MalType) -> (r: MalType)
    ensures
        r@ == SpecVal::List(seq![a@, b@]),
{
    let mut items: Vec<MalType> = Vec::new();
    let ghost av = a@;
    let ghost bv = b@;
    items.push(a);
    items.push(b);
    proof {
        lemma_view_seq_index(items@);
        assert(view_seq(items@) =~= seq![av, bv]);
    }
    MalType::List(items)
}

fn list3(a: MalType, b: MalType, c: MalType) -> (r: MalType)
    ensures
        r@ == SpecVal::List(seq![a@, b@, c@]),
{
    let mut items: Vec<MalType> = Vec::new();
    let ghost av = a@;
    let ghost bv = b@;
    let ghost cv = c@;
    items.push(a);
    items.push(b);
    items.push(c);
    proof {
        lemma_view_seq_index(items@);
        assert(view_seq(items@) =~= seq![av, bv, cv]);
    }
    MalType::List(items)
}

/// The symbol branch, from `i` to the end of the token run.
fn parse_fallback_symbol(s: &Vec<char>, i: usize) -> (r: (MalType, usize))
    requires
        i < s@.len(),
        !is_term(s@[i as int]),
    ensures
        Some((r.0@, r.1 as int)) == fallback_symbol(s@, i as int),
        i < r.1 <= s@.len(),
{
    proof {
        lemma_nonterm_end_bounds(s@, i as int);
    }
    let e = scan_nonterm(s, i);
    let t = sub_chars(s, i, e);
    (MalType::Symbol(t), e)
}

/// One form, as `spec_parse_form` gives it.
fn parse_mal(s: &Vec<char>, i: usize, fuel: u64) -> (r: Option<(MalType, usize)>)
    requires
        i <= s@.len(),
    ensures
        match spec_parse_form(s@, i as int, fuel as nat) {
            Some((sv, j)) => r matches Some(p) && p.0@ == sv && p.1 as int == j && i < p.1
                <= s@.len(),
            None => r is None,
        },
    decreases fuel, 1int,
{
    proof {
        lemma_parse_bounds(s@, i as int, ')', fuel as nat);
        lemma_parse_bounds(s@, i as int, ']', fuel as nat);
    }
    if fuel == 0 || i >= s.len() {
        return None;
    }
    let c = s[i];
    if c == '{' {
        match parse_kvs(s, i + 1, fuel - 1) {
            Some((kvs, j)) => Some((MalType::HashMap(kvs), j)),
            None => None,
        }
    } else if c == '"' {
        match parse_str(s, i + 1) {
            Some((body, j)) => Some((MalType::Str(body), j)),
            None => None,
        }
    } else if c == '[' {
        match parse_items(s, i + 1, ']', fuel - 1) {
            Some((items, j)) => Some((MalType::Vector(items), j)),
            None => None,
        }
    } else if ('0' <= c && c <= '9') || (c == '-' && i + 1 < s.len() && '0' <= s[i + 1] && s[i
        + 1] <= '9') {
        Some(parse_int_or_symbol(s, i))
    } else if check_lit(s, i, "true") {
        proof {
            reveal_strlit("true");
        }
        Some((MalType::Bool(true), i + 4))
    } else if check_lit(s, i, "false") {
        proof {
            reveal_strlit("false");
        }
        Some((MalType::Bool(false), i + 5))
    } else if check_lit(s, i, "nil") {
        proof {
            reveal_strlit("nil");
        }
        Some((MalType::Nil, i + 3))
    } else if c == ':' {
        let e = scan_nonterm(s, i + 1);
        if e > i + 1 {
            Some((MalType::Keyword(sub_chars(s, i + 1, e)), e))
        } else {
            None
        }
    } else if c == '(' {
        match parse_items(s, i + 1, ')', fuel - 1) {
            Some((items, j)) => Some((MalType::List(items), j)),
            None => None,
        }
    } else if c == '~' && i + 1 < s.len() && s[i + 1] == '@' {
        match parse_mal(s, i + 2, fuel - 1) {
            Some((x, k)) => Some((list2(MalType::Symbol(str_to_chars("splice-unquote")), x), k)),
            None => Some(parse_fallback_symbol(s, i)),
        }
    } else if c == '\'' {
        match parse_mal(s, i + 1, fuel - 1) {
            Some((x, k)) => Some((list2(MalType::Symbol(str_to_chars("quote")), x), k)),
            None => Some(parse_fallback_symbol(s, i)),
        }
    } else if c == '`' {
        match parse_mal(s, i + 1, fuel - 1) {
            Some((x, k)) => Some((list2(MalType::Symbol(str_to_chars("quasiquote")), x), k)),
            None => Some(parse_fallback_symbol(s, i)),
        }
    } else if c == '@' {
        match parse_mal(s, i + 1, fuel - 1) {
            Some((x, k)) => Some((list2(MalType::Symbol(str_to_chars("deref")), x), k)),
            None => Some(parse_fallback_symbol(s, i)),
        }
    } else if c == '~' {
        match parse_mal(s, i + 1, fuel - 1) {
            Some((x, k)) => Some((list2(MalType::Symbol(str_to_chars("unquote")), x), k)),
            None => Some(parse_fallback_symbol(s, i)),
        }
    } else if c == '^' {
        match parse_mal(s, i + 1, fuel - 1) {
            Some((m, j)) => {
                let j2 = spc(s, j);
                match parse_mal(s, j2, fuel - 1) {
                    Some((x, k)) => Some(
                        (list3(MalType::Symbol(str_to_chars("with-meta")), x, m), k),
                    ),
                    None => Some(parse_fallback_symbol(s, i)),
                }
            },
            None => Some(parse_fallback_symbol(s, i)),
        }
    } else if !is_term_exec(c) {
        Some(parse_fallback_symbol(s, i))
    } else {
        None
    }
}

/// The forms inside a list or vector, as `spec_parse_items` gives them.
fn parse_items(s: &Vec<char>, i: usize, closer: char, fuel: u64) -> (r: Option<
    (Vec<MalType>, usize),
>)
    requires
        i <= s@.len(),
    ensures
        match spec_parse_items(s@, i as int, closer, fuel as nat) {
            Some((items, e)) => r matches Some(p) && view_seq(p.0@) == items && p.1 as int == e
                && i <= p.1 <= s@.len(),
            None => r is None,
        },
    decreases fuel, 0int,
{
    let mut acc: Vec<MalType> = Vec::new();
    let mut cur: usize = i;
    let mut f: u64 = fuel;
    proof {
        let o = spec_parse_items(s@, i as int, closer, fuel as nat);
        if o is Some {
            assert(view_seq(acc@) + (o->0).0 =~= (o->0).0);
        }
    }
    loop
        invariant
            i <= cur <= s@.len(),
            f <= fuel,
            match spec_parse_items(s@, cur as int, closer, f as nat) {
                Some((rest, e)) => spec_parse_items(s@, i as int, closer, fuel as nat) matches
                    Some(w) && w.0 == view_seq(acc@) + rest && w.1 == e,
                None => spec_parse_items(s@, i as int, closer, fuel as nat) is None,
            },
        decreases f,
    {
        proof {
            lemma_parse_bounds(s@, cur as int, closer, f as nat);
        }
        if f == 0 {
            return None;
        }
        let j = spc(s, cur);
        proof {
            lemma_parse_bounds(s@, j as int, closer, (f - 1) as nat);
        }
        match parse_mal(s, j, f - 1) {
            Some((v, k)) => {
                proof {
                    let ghost vv = v@;
                    assert(view_seq(acc@.push(v)) =~= view_seq(acc@).push(vv)) by {
                        lemma_view_seq_index(acc@.push(v));
                        lemma_view_seq_index(acc@);
                    }
                    let o = spec_parse_items(s@, k as int, closer, (f - 1) as nat);
                    if o is Some {
                        assert(view_seq(acc@) + (seq![vv] + (o->0).0) =~= (view_seq(acc@).push(
                            vv,
                        )) + (o->0).0);
                    }
                }
                acc.push(v);
                cur = k;
                f = f - 1;
            },
            None => {
                if j < s.len() && s[j] == closer {
                    proof {
                        assert(view_seq(acc@) + Seq::<SpecVal>::empty() =~= view_seq(acc@));
                    }
                    return Some((acc, j + 1));
                } else {
                    return None;
                }
            },
        }
    }
}

/// The key/value pairs of a hash-map literal, as `spec_parse_kvs` gives them.
fn parse_kvs(s: &Vec<char>, i: usize, fuel: u64) -> (r: Option<(Vec<(MalType, MalType)>, usize)>)
    requires
        i <= s@.len(),
    ensures
        match spec_parse_kvs(s@, i as int, fuel as nat) {
            Some((kvs, e)) => r matches Some(p) && view_kvs(p.0@) == kvs && p.1 as int == e && i
                <= p.1 <= s@.len(),
            None => r is None,
        },
    decreases fuel, 0int,
{
    let mut acc: Vec<(MalType, MalType)> = Vec::new();
    let mut cur: usize = i;
    let mut f: u64 = fuel;
    proof {
        let o = spec_parse_kvs(s@, i as int, fuel as nat);
        if o is Some {
            assert(view_kvs(acc@) + (o->0).0 =~= (o->0).0);
        }
    }
    loop
        invariant
            i <= cur <= s@.len(),
            f <= fuel,
            match spec_parse_kvs(s@, cur as int, f as nat) {
                Some((rest, e)) => spec_parse_kvs(s@, i as int, fuel as nat) matches Some(w)
                    && w.0 == view_kvs(acc@) + rest && w.1 == e,
                None => spec_parse_kvs(s@, i as int, fuel as nat) is None,
            },
        decreases f,
    {
        proof {
            lemma_parse_bounds(s@, cur as int, '}', f as nat);
        }
        if f == 0 {
            return None;
        }
        let j = spc(s, cur);
        proof {
            lemma_parse_bounds(s@, j as int, '}', (f - 1) as nat);
        }
        match parse_mal(s, j, f - 1) {
            Some((k1, p)) => {
                let p2 = spc(s, p);
                proof {
                    lemma_parse_bounds(s@, p2 as int, '}', (f - 1) as nat);
                }
                match parse_mal(s, p2, f - 1) {
                    Some((v1, q)) => {
                        proof {
                            let ghost kv = (k1@, v1@);
                            assert(view_kvs(acc@.push((k1, v1))) =~= view_kvs(acc@).push(kv)) by {
                                lemma_view_kvs_index(acc@.push((k1, v1)));
                                lemma_view_kvs_index(acc@);
                            }
                            let o = spec_parse_kvs(s@, q as int, (f - 1) as nat);
                            if o is Some {
                                assert(view_kvs(acc@) + (seq![kv] + (o->0).0) =~= (view_kvs(
                                    acc@,
                                ).push(kv)) + (o->0).0);
                            }
                        }
                        acc.push((k1, v1));
                        cur = q;
                        f = f - 1;
                    },
                    None => {
                        return None;
                    },
                }
            },
            None => {
                if j < s.len() && s[j] == '}' {
                    proof {
                        assert(view_kvs(acc@) + Seq::<(SpecVal, SpecVal)>::empty() =~= view_kvs(
                            acc@,
                        ));
                    }
                    return Some((acc, j + 1));
                } else {
                    return None;
                }
            },
        }
    }
}

/// Reads one form from the whole input: leading and trailing whitespace are
/// skipped and anything further is a parse failure.
pub fn read_str(input: &Vec<char>) -> (r: Option<MalType>)
    requires
        input@.len() < 0x1000_0000_0000_0000,
    ensures
        match spec_read(input@) {
            Some(sv) => r matches Some(v) && v@ == sv,
            None => r is None,
        },
{
    let n: usize = input.len();
    let fuel: u64 = 2 * (n as u64) + 2;
    let j = spc(input, 0);
    proof {
        lemma_parse_bounds(input@, j as int, ')', fuel as nat);
    }
    match parse_mal(input, j, fuel) {
        Some((v, k)) => {
            let k2 = spc(input, k);
            if k2 == n {
                Some(v)
            } else {
                None
            }
        },
        None => None,
    }
}


/// Each value in the sequence is well formed.
pub open spec fn vals_pure(vs: Seq<SpecVal>, nf: int, na: int) -> bool {
    forall|j: int| 0 <= j < vs.len() ==> val_wf(#[trigger] vs[j], nf, na)
}

/// Both members of each pair are well formed.
pub open spec fn kvs_pure(ps: Seq<(SpecVal, SpecVal)>, nf: int, na: int) -> bool {
    forall|j: int|
        0 <= j < ps.len() ==> val_wf(#[trigger] ps[j].0, nf, na) && val_wf(ps[j].1, nf, na)
}

proof fn lemma_vals_pure_cons(v: SpecVal, rest: Seq<SpecVal>, nf: int, na: int)
    requires
        val_wf(v, nf, na),
        vals_pure(rest, nf, na),
    ensures
        vals_pure(seq![v] + rest, nf, na),
{
    let whole = seq![v] + rest;
    assert forall|t: int| 0 <= t < whole.len() implies val_wf(#[trigger] whole[t], nf, na) by {
        if t > 0 {
            assert(val_wf(rest[t - 1], nf, na));
            assert(whole[t] == rest[t - 1]);
        } else {
            assert(whole[0] == v);
        }
    }
}

proof fn lemma_kvs_pure_cons(a: SpecVal, b: SpecVal, rest: Seq<(SpecVal, SpecVal)>, nf: int, na: int)
    requires
        val_wf(a, nf, na),
        val_wf(b, nf, na),
        kvs_pure(rest, nf, na),
    ensures
        kvs_pure(seq![(a, b)] + rest, nf, na),
{
    let whole = seq![(a, b)] + rest;
    assert forall|t: int| 0 <= t < whole.len() implies val_wf(#[trigger] whole[t].0, nf, na)
        && val_wf(whole[t].1, nf, na) by {
        if t > 0 {
            assert(val_wf(rest[t - 1].0, nf, na) && val_wf(rest[t - 1].1, nf, na));
            assert(whole[t] == rest[t - 1]);
        } else {
            assert(whole[0] == (a, b));
        }
    }
}

/// What the reader returns never holds a function or an atom, so it is well
/// formed against any arenas.
pub proof fn lemma_parse_pure(s: Seq<char>, i: int, closer: char, fuel: nat, nf: int, na: int)
    requires
        0 <= i <= s.len(),
    ensures
        spec_parse_form(s, i, fuel) matches Some(r) ==> val_wf(r.0, nf, na),
        spec_parse_items(s, i, closer, fuel) matches Some(r) ==> vals_pure(r.0, nf, na),
        spec_parse_kvs(s, i, fuel) matches Some(r) ==> kvs_pure(r.0, nf, na),
    decreases fuel, 1nat,
{
    if fuel > 0 && i < s.len() {
        let c = s[i];
        let f1 = (fuel - 1) as nat;
        lemma_parse_pure(s, i + 1, ']', f1, nf, na);
        lemma_parse_pure(s, i + 1, ')', f1, nf, na);
        if c == '~' && i + 1 < s.len() && s[i + 1] == '@' {
            lemma_parse_pure(s, i + 2, ')', f1, nf, na);
        }
        if c == '^' {
            match spec_parse_form(s, i + 1, f1) {
                Some((m, j)) => {
                    if 0 <= j <= s.len() {
                        lemma_spc_bounds(s, j);
                        lemma_parse_pure(s, spec_spc(s, j), ')', f1, nf, na);
                        match spec_parse_form(s, spec_spc(s, j), f1) {
                            Some((x, k)) => {
                                let q = seq![SpecVal::Symbol("with-meta"@), x, m];
                                assert forall|t: int| 0 <= t < q.len() implies val_wf(
                                    #[trigger] q[t],
                                    nf,
                                    na,
                                ) by {}
                                assert(vals_pure(q, nf, na));
                            },
                            None => {},
                        }
                    }
                },
                None => {},
            }
        }
        match spec_parse_form(s, i, fuel) {
            Some((v, j)) => {
                match v {
                    SpecVal::List(q) => {
                        if q.len() == 2 {
                            assert forall|t: int| 0 <= t < q.len() implies val_wf(
                                #[trigger] q[t],
                                nf,
                                na,
                            ) by {
                                if t == 1 {
                                }
                            }
                            assert(vals_pure(q, nf, na));
                        }
                    },
                    _ => {},
                }
            },
            None => {},
        }
    }
    if fuel > 0 {
        lemma_parse_pure_items_step(s, i, closer, fuel, nf, na);
    }
}

#[verifier::spinoff_prover]
#[verifier::rlimit(60)]
proof fn lemma_parse_pure_items_step(
    s: Seq<char>,
    i: int,
    closer: char,
    fuel: nat,
    nf: int,
    na: int,
)
    requires
        0 <= i <= s.len(),
        fuel > 0,
    ensures
        spec_parse_items(s, i, closer, fuel) matches Some(r) ==> vals_pure(r.0, nf, na),
        spec_parse_kvs(s, i, fuel) matches Some(r) ==> kvs_pure(r.0, nf, na),
    decreases fuel, 0nat,
{
    let j = spec_spc(s, i);
    lemma_spc_bounds(s, i);
    lemma_parse_pure(s, j, closer, (fuel - 1) as nat, nf, na);
    match spec_parse_form(s, j, (fuel - 1) as nat) {
        Some((v, k)) => {
            if 0 <= k <= s.len() {
                lemma_parse_pure(s, k, closer, (fuel - 1) as nat, nf, na);
                let p2 = spec_spc(s, k);
                lemma_spc_bounds(s, k);
                lemma_parse_pure(s, p2, closer, (fuel - 1) as nat, nf, na);
                match spec_parse_form(s, p2, (fuel - 1) as nat) {
                    Some((v2, q)) => {
                        if 0 <= q <= s.len() {
                            lemma_parse_pure(s, q, closer, (fuel - 1) as nat, nf, na);
                            match spec_parse_kvs(s, q, (fuel - 1) as nat) {
                                Some((rest, e)) => {
                                    lemma_kvs_pure_cons(v, v2, rest, nf, na);
                                },
                                None => {},
                            }
                        }
                    },
                    None => {},
                }
                match spec_parse_items(s, k, closer, (fuel - 1) as nat) {
                    Some((rest, e)) => {
                        lemma_vals_pure_cons(v, rest, nf, na);
                    },
                    None => {},
                }
            }
        },
        None => {},
    }
}

/// Whatever `spec_read` returns is well formed against any arenas.
pub proof fn lemma_read_pure(s: Seq<char>, nf: int, na: int)
    ensures
        spec_read(s) matches Some(v) ==> val_wf(v, nf, na),
{
    lemma_spc_bounds(s, 0);
    lemma_parse_pure(s, spec_spc(s, 0), ')', read_fuel(s), nf, na);
}

} // verus!



