//! The read/print round trip: reading back a readably printed value yields
//! the value itself.
//!
//! The guarantee holds for `readable` values: everything the reader can
//! produce — no functions and no atom cells, integers in the 32-bit range,
//! and symbol or keyword text made of token characters that the grammar
//! would tokenize the same way again.
use crate::printer::{
    digit_char, esc_char, escape_seq, int_chars, nat_chars, spec_print, spec_print_items,
    spec_print_kvs,
};
use crate::reader::{
    digit_end, digits_val, is_digit, is_term, is_ws, nonterm_end, spec_parse_form,
    spec_parse_items, spec_parse_kvs, spec_parse_str, spec_read, spec_spc, starts_with,
};
use crate::types::SpecVal;
use vstd::prelude::*;

verus! {

/// Token text: non-empty and free of token-terminating characters.
pub open spec fn token_text(s: Seq<char>) -> bool {
    s.len() >= 1 && forall|i: int| 0 <= i < s.len() ==> !is_term(#[trigger] s[i])
}

/// Does `lit` occur at the start of `s`?
pub open spec fn has_prefix(s: Seq<char>, lit: Seq<char>) -> bool {
    lit.len() <= s.len() && s.subrange(0, lit.len() as int) == lit
}

/// A value the printed text of which reads back as the value itself.
/// Functions and atom cells are out; symbols must not begin like an integer,
/// a boolean, `nil` or a reader macro, since those branches read first.
pub open spec fn readable(v: SpecVal) -> bool
    decreases v,
{
    match v {
        SpecVal::Int(n) => crate::interp::in_i32(n),
        SpecVal::Bool(_) => true,
        SpecVal::Nil => true,
        SpecVal::Str(_) => true,
        SpecVal::Keyword(t) => token_text(t),
        SpecVal::Symbol(t) => {
            &&& token_text(t)
            &&& !is_digit(t[0])
            &&& !(t[0] == '-' && t.len() >= 2 && is_digit(t[1]))
            &&& !has_prefix(t, "true"@)
            &&& !has_prefix(t, "false"@)
            &&& !has_prefix(t, "nil"@)
            &&& t[0] != '\''
            &&& t[0] != '`'
            &&& t[0] != '~'
            &&& t[0] != '@'
            &&& t[0] != '^'
        },
        SpecVal::List(items) => forall|i: int|
            0 <= i < items.len() ==> readable(#[trigger] items[i]),
        SpecVal::Vector(items) => forall|i: int|
            0 <= i < items.len() ==> readable(#[trigger] items[i]),
        SpecVal::HashMap(kvs) => forall|i: int|
            0 <= i < kvs.len() ==> readable(#[trigger] kvs[i].0) && readable(kvs[i].1),
        _ => false,
    }
}

/// The run of digits from `i` ends exactly where the digits end.
proof fn lemma_digit_end_at(s: Seq<char>, i: int, e: int)
    requires
        0 <= i <= e <= s.len(),
        forall|k: int| i <= k < e ==> is_digit(#[trigger] s[k]),
        e == s.len() || !is_digit(s[e]),
    ensures
        digit_end(s, i) == e,
    decreases e - i,
{
    if i < e {
        lemma_digit_end_at(s, i + 1, e);
    }
}

/// The run of non-terminators from `i` ends exactly where they end.
proof fn lemma_nonterm_end_at(s: Seq<char>, i: int, e: int)
    requires
        0 <= i <= e <= s.len(),
        forall|k: int| i <= k < e ==> !is_term(#[trigger] s[k]),
        e == s.len() || is_term(s[e]),
    ensures
        nonterm_end(s, i) == e,
    decreases e - i,
{
    if i < e {
        lemma_nonterm_end_at(s, i + 1, e);
    }
}

/// Whitespace skipping stops at once on a non-whitespace, non-comment
/// character and at the end of the input.
proof fn lemma_spc_at(s: Seq<char>, i: int)
    requires
        0 <= i <= s.len(),
        i < s.len() ==> !is_ws(s[i]) && s[i] != ';',
    ensures
        spec_spc(s, i) == i,
{
}

/// A decimal digit character and its numeric value.
proof fn lemma_digit_char_val(d: int)
    requires
        0 <= d <= 9,
    ensures
        is_digit(digit_char(d)),
        digit_char(d) as int - '0' as int == d,
        digit_char(d) != '-',
{
}

/// The decimal digits of a non-negative integer: at least one character,
/// every one a digit.
proof fn lemma_nat_chars_digits(n: int)
    requires
        n >= 0,
    ensures
        nat_chars(n).len() >= 1,
        forall|k: int| 0 <= k < nat_chars(n).len() ==> is_digit(#[trigger] nat_chars(n)[k]),
    decreases n,
{
    if n < 10 {
        lemma_digit_char_val(n);
        assert(nat_chars(n) =~= seq![digit_char(n)]);
    } else {
        lemma_nat_chars_digits(n / 10);
        lemma_digit_char_val(n % 10);
        assert forall|k: int| 0 <= k < nat_chars(n).len() implies is_digit(
            #[trigger] nat_chars(n)[k],
        ) by {
            if k < nat_chars(n / 10).len() {
                assert(nat_chars(n)[k] == nat_chars(n / 10)[k]);
            } else {
                assert(nat_chars(n)[k] == digit_char(n % 10));
            }
        }
    }
}

/// Where the printed digits of `n` stand in a larger text, their value reads
/// back as `n`.
proof fn lemma_nat_chars_val(s: Seq<char>, i: int, n: int)
    requires
        n >= 0,
        0 <= i,
        i + nat_chars(n).len() <= s.len(),
        s.subrange(i, i + nat_chars(n).len()) == nat_chars(n),
    ensures
        digits_val(s, i, i + nat_chars(n).len()) == n,
    decreases n,
{
    let l = nat_chars(n).len() as int;
    if n < 10 {
        lemma_digit_char_val(n);
        assert(nat_chars(n) =~= seq![digit_char(n)]);
        assert(s.subrange(i, i + 1)[0] == s[i]);
        assert(s[i] == digit_char(n));
        assert(digits_val(s, i, i + 1) == digits_val(s, i, i) * 10 + (s[i] as int - '0' as int));
    } else {
        lemma_digit_char_val(n % 10);
        let head = nat_chars(n / 10);
        assert(nat_chars(n) == head.push(digit_char(n % 10)));
        assert(s.subrange(i, i + head.len()) =~= head) by {
            assert(forall|k: int|
                0 <= k < head.len() ==> s.subrange(i, i + nat_chars(n).len())[k]
                    == #[trigger] head[k]);
        }
        lemma_nat_chars_val(s, i, n / 10);
        assert(s.subrange(i, i + l)[l - 1] == s[i + l - 1]);
        assert(s[i + l - 1] == nat_chars(n)[l - 1]);
        assert(s[i + l - 1] == digit_char(n % 10));
        assert(digits_val(s, i, i + l) == digits_val(s, i, i + l - 1) * 10 + (s[i + l - 1] as int
            - '0' as int));
        assert(digits_val(s, i, i + l) == (n / 10) * 10 + (n % 10));
    }
}


/// Joined elements, taken from the front: the first element's text, then a
/// space and the rest.
proof fn lemma_print_items_front(items: Seq<SpecVal>, a: Seq<SpecVal>, d: nat)
    requires
        items.len() >= 1,
    ensures
        items.len() == 1 ==> spec_print_items(items, true, a, d) == spec_print(
            items[0],
            true,
            a,
            d,
        ),
        items.len() >= 2 ==> spec_print_items(items, true, a, d) == spec_print(
            items[0],
            true,
            a,
            d,
        ) + seq![' '] + spec_print_items(items.skip(1), true, a, d),
    decreases items.len(),
{
    if items.len() == 2 {
        assert(items.drop_last() =~= seq![items[0]]);
        assert(items.skip(1) =~= seq![items[1]]);
        assert(spec_print_items(items, true, a, d) == spec_print_items(
            items.drop_last(),
            true,
            a,
            d,
        ).push(' ').add(spec_print(items.last(), true, a, d)));
        assert(spec_print_items(items.drop_last(), true, a, d) == spec_print(
            items[0],
            true,
            a,
            d,
        ));
        assert(spec_print_items(items, true, a, d) =~= spec_print(items[0], true, a, d) + seq![
            ' ',
        ] + spec_print_items(items.skip(1), true, a, d));
    } else if items.len() > 2 {
        lemma_print_items_front(items.drop_last(), a, d);
        let first = items[0];
        let tail = items.skip(1);
        assert(items.drop_last()[0] == first);
        assert(items.drop_last().skip(1) =~= tail.drop_last());
        assert(tail.last() == items.last());
        assert(spec_print_items(tail, true, a, d) == spec_print_items(
            tail.drop_last(),
            true,
            a,
            d,
        ).push(' ').add(spec_print(tail.last(), true, a, d)));
        assert(spec_print_items(items, true, a, d) =~= spec_print(first, true, a, d) + seq![' ']
            + spec_print_items(tail, true, a, d));
    }
}

/// Joined key/value pairs, taken from the front.
proof fn lemma_print_kvs_front(kvs: Seq<(SpecVal, SpecVal)>, a: Seq<SpecVal>, d: nat)
    requires
        kvs.len() >= 1,
    ensures
        kvs.len() == 1 ==> spec_print_kvs(kvs, true, a, d) == spec_print(kvs[0].0, true, a, d)
            + seq![' '] + spec_print(kvs[0].1, true, a, d),
        kvs.len() >= 2 ==> spec_print_kvs(kvs, true, a, d) == spec_print(kvs[0].0, true, a, d)
            + seq![' '] + spec_print(kvs[0].1, true, a, d) + seq![' '] + spec_print_kvs(
            kvs.skip(1),
            true,
            a,
            d,
        ),
    decreases kvs.len(),
{
    if kvs.len() == 1 {
        assert(spec_print_kvs(kvs, true, a, d) =~= spec_print(kvs[0].0, true, a, d) + seq![' ']
            + spec_print(kvs[0].1, true, a, d));
    } else if kvs.len() == 2 {
        assert(kvs.drop_last() =~= seq![kvs[0]]);
        assert(kvs.skip(1) =~= seq![kvs[1]]);
        assert(spec_print_kvs(kvs, true, a, d) == spec_print_kvs(
            kvs.drop_last(),
            true,
            a,
            d,
        ).push(' ').add(spec_print(kvs.last().0, true, a, d)).push(' ').add(
            spec_print(kvs.last().1, true, a, d),
        ));
        assert(spec_print_kvs(kvs, true, a, d) =~= spec_print(kvs[0].0, true, a, d) + seq![' ']
            + spec_print(kvs[0].1, true, a, d) + seq![' '] + spec_print_kvs(
            kvs.skip(1),
            true,
            a,
            d,
        ));
    } else {
        lemma_print_kvs_front(kvs.drop_last(), a, d);
        let tail = kvs.skip(1);
        assert(kvs.drop_last()[0] == kvs[0]);
        assert(kvs.drop_last().skip(1) =~= tail.drop_last());
        assert(tail.last() == kvs.last());
        assert(spec_print_kvs(tail, true, a, d) == spec_print_kvs(
            tail.drop_last(),
            true,
            a,
            d,
        ).push(' ').add(spec_print(tail.last().0, true, a, d)).push(' ').add(
            spec_print(tail.last().1, true, a, d),
        ));
        assert(spec_print_kvs(kvs, true, a, d) =~= spec_print(kvs[0].0, true, a, d) + seq![' ']
            + spec_print(kvs[0].1, true, a, d) + seq![' '] + spec_print_kvs(tail, true, a, d));
    }
}

/// A string body's escaped text, read from just after the opening quote,
/// gives back the body and stops after the closing quote.
proof fn lemma_parse_escaped(body: Seq<char>, s: Seq<char>, j: int)
    requires
        0 <= j,
        j + escape_seq(body).len() + 1 <= s.len(),
        s.subrange(j, j + escape_seq(body).len()) == escape_seq(body),
        s[j + escape_seq(body).len()] == '"',
    ensures
        spec_parse_str(s, j) == Some((body, j + escape_seq(body).len() + 1)),
    decreases body.len(),
{
    let el = escape_seq(body).len() as int;
    if body.len() == 0 {
        assert(escape_seq(body) =~= Seq::<char>::empty());
        assert(s[j] == '"');
    } else {
        let c = body[0];
        let e = esc_char(c);
        let rest = body.skip(1);
        assert(escape_seq(body) == e + escape_seq(rest));
        let rl = escape_seq(rest).len() as int;
        assert(el == e.len() + rl);
        assert(forall|k: int| 0 <= k < el ==> s[j + k] == #[trigger] escape_seq(body)[k]) by {
            assert(forall|k: int|
                0 <= k < el ==> s.subrange(j, j + el)[k] == #[trigger] escape_seq(body)[k]);
        }
        let j2 = j + e.len();
        assert(s.subrange(j2, j2 + rl) =~= escape_seq(rest)) by {
            assert(forall|k: int|
                0 <= k < rl ==> s.subrange(j2, j2 + rl)[k] == s[j2 + k]
                    && #[trigger] escape_seq(rest)[k] == escape_seq(body)[e.len() + k]);
        }
        assert(s[j2 + rl] == '"');
        lemma_parse_escaped(rest, s, j2);
        assert(seq![c] + rest =~= body);
        assert(forall|k: int| 0 <= k < e.len() ==> #[trigger] escape_seq(body)[k] == e[k]);
        assert(s[j] == escape_seq(body)[0]);
        assert(escape_seq(body)[0] == e[0]);
        if e.len() >= 2 {
            assert(s[j + 1] == escape_seq(body)[1]);
            assert(escape_seq(body)[1] == e[1]);
        }
        if c == '\\' {
            assert(e =~= seq!['\\', '\\']);
            assert(s[j] == e[0] && s[j + 1] == e[1]);
            assert(s[j] == '\\' && s[j + 1] == '\\');
            assert(crate::reader::unescape(s[j + 1]) == c);
        } else if c == '"' {
            assert(e =~= seq!['\\', '"']);
            assert(s[j] == e[0] && s[j + 1] == e[1]);
            assert(s[j] == '\\' && s[j + 1] == '"');
            assert(crate::reader::unescape(s[j + 1]) == c);
        } else if c == '\n' {
            assert(e =~= seq!['\\', 'n']);
            assert(s[j] == e[0] && s[j + 1] == e[1]);
            assert(s[j] == '\\' && s[j + 1] == 'n');
            assert(crate::reader::unescape(s[j + 1]) == c);
        } else {
            assert(e =~= seq![c]);
            assert(s[j] == e[0]);
            assert(s[j] == c);
            assert(s[j] != '"' && s[j] != '\\');
        }
    }
}

/// The first character of readable printed text: it exists and neither
/// whitespace nor a comment can swallow it.
proof fn lemma_print_first(v: SpecVal, a: Seq<SpecVal>, d: nat)
    requires
        readable(v),
    ensures
        spec_print(v, true, a, d).len() >= 1,
        !is_ws(spec_print(v, true, a, d)[0]),
        spec_print(v, true, a, d)[0] != ';',
{
    reveal_strlit("true");
    reveal_strlit("false");
    reveal_strlit("nil");
    match v {
        SpecVal::Int(n) => {
            if n >= 0 {
                lemma_nat_chars_digits(n);
                assert(is_digit(int_chars(n)[0]));
            } else {
                lemma_nat_chars_digits(-n);
                assert(int_chars(n)[0] == '-');
            }
        },
        SpecVal::Symbol(t) => {
            assert(!is_term(t[0]));
        },
        SpecVal::Keyword(t) => {
            assert(spec_print(v, true, a, d)[0] == ':');
        },
        _ => {},
    }
}


/// Short forms of readable printing used throughout this module.
pub open spec fn pr(v: SpecVal, a: Seq<SpecVal>, d: nat) -> Seq<char> {
    spec_print(v, true, a, d)
}

pub open spec fn pri(items: Seq<SpecVal>, a: Seq<SpecVal>, d: nat) -> Seq<char> {
    spec_print_items(items, true, a, d)
}

pub open spec fn prk(kvs: Seq<(SpecVal, SpecVal)>, a: Seq<SpecVal>, d: nat) -> Seq<char> {
    spec_print_kvs(kvs, true, a, d)
}

/// Where a piece of text stands in `s`, each of its characters stands there.
proof fn lemma_chars_at(s: Seq<char>, i: int, t: Seq<char>)
    requires
        0 <= i,
        i + t.len() <= s.len(),
        s.subrange(i, i + t.len()) == t,
    ensures
        forall|k: int| 0 <= k < t.len() ==> s[i + k] == #[trigger] t[k],
{
    assert forall|k: int| 0 <= k < t.len() implies s[i + k] == #[trigger] t[k] by {
        assert(s.subrange(i, i + t.len())[k] == s[i + k]);
    }
}

/// A literal whose first character differs cannot stand here.
proof fn lemma_not_starts_with(s: Seq<char>, i: int, lit: Seq<char>)
    requires
        0 <= i < s.len(),
        lit.len() >= 1,
        s[i] != lit[0],
    ensures
        !starts_with(s, i, lit),
{
    if starts_with(s, i, lit) {
        assert(s.subrange(i, i + lit.len())[0] == s[i]);
    }
}

/// No form begins with a closing bracket.
proof fn lemma_parse_none_at_closer(s: Seq<char>, i: int, fuel: nat)
    requires
        0 <= i < s.len(),
        s[i] == ')' || s[i] == ']' || s[i] == '}',
    ensures
        spec_parse_form(s, i, fuel) is None,
{
    if fuel > 0 {
        reveal_strlit("true");
        reveal_strlit("false");
        reveal_strlit("nil");
        lemma_not_starts_with(s, i, "true"@);
        lemma_not_starts_with(s, i, "false"@);
        lemma_not_starts_with(s, i, "nil"@);
        assert(is_term(s[i]));
    }
}

/// A literal that stands as a prefix of token text cannot stand at a token
/// that the text does not begin with, because the character after the token
/// terminates it.
proof fn lemma_sym_not_lit(s: Seq<char>, i: int, t: Seq<char>, lit: Seq<char>)
    requires
        0 <= i,
        i + t.len() <= s.len(),
        s.subrange(i, i + t.len()) == t,
        i + t.len() == s.len() || is_term(s[i + t.len()]),
        token_text(t),
        !has_prefix(t, lit),
        lit.len() >= 1,
        forall|k: int| 0 <= k < lit.len() ==> !is_term(#[trigger] lit[k]),
    ensures
        !starts_with(s, i, lit),
{
    lemma_chars_at(s, i, t);
    if starts_with(s, i, lit) {
        lemma_chars_at(s, i, lit);
        if t.len() >= lit.len() {
            assert(t.subrange(0, lit.len() as int) =~= lit);
        } else {
            let k = t.len() as int;
            assert(s[i + k] == lit[k]);
            assert(!is_term(lit[k]));
            assert(i + k < i + lit.len());
            assert(i + lit.len() <= s.len());
        }
    }
}

/// Reading printed text gives the printed value back and stops right after
/// it.  `fuel` pays one unit per step; a character is consumed at least
/// every second step, so the stated bound is enough.
proof fn lemma_parse_print(v: SpecVal, s: Seq<char>, i: int, fuel: nat, a: Seq<SpecVal>, d: nat)
    requires
        readable(v),
        0 <= i,
        i + pr(v, a, d).len() <= s.len(),
        s.subrange(i, i + pr(v, a, d).len()) == pr(v, a, d),
        i + pr(v, a, d).len() == s.len() || is_term(s[i + pr(v, a, d).len()]),
        fuel >= 2 * (s.len() - i) + 1,
    ensures
        spec_parse_form(s, i, fuel) == Some((v, i + pr(v, a, d).len())),
    decreases v, 0nat,
{
    reveal_strlit("true");
    reveal_strlit("false");
    reveal_strlit("nil");
    let p = pr(v, a, d);
    let l = p.len() as int;
    let e = i + l;
    lemma_print_first(v, a, d);
    lemma_chars_at(s, i, p);
    assert(s[i] == p[0]);
    match v {
        SpecVal::Int(n) => {
            if n >= 0 {
                lemma_nat_chars_digits(n);
                assert forall|k: int| i <= k < e implies is_digit(#[trigger] s[k]) by {
                    assert(s[i + (k - i)] == p[k - i]);
                    assert(is_digit(p[k - i]));
                }
                lemma_digit_end_at(s, i, e);
                lemma_nat_chars_val(s, i, n);
            } else {
                lemma_nat_chars_digits(-n);
                let m = nat_chars(-n);
                assert(p == seq!['-'] + m);
                assert(s[i] == '-');
                assert(s.subrange(i + 1, i + 1 + m.len()) =~= m) by {
                    assert(forall|k: int|
                        0 <= k < m.len() ==> s.subrange(i + 1, i + 1 + m.len())[k] == s[i + 1 + k]
                            && p[1 + k] == #[trigger] m[k]);
                }
                lemma_chars_at(s, i + 1, m);
                assert(s[i + 1 + 0] == m[0]);
                assert(is_digit(m[0]));
                assert(is_digit(s[i + 1]));
                assert forall|k: int| i + 1 <= k < e implies is_digit(#[trigger] s[k]) by {
                    assert(s[i + 1 + (k - i - 1)] == m[k - i - 1]);
                    assert(is_digit(m[k - i - 1]));
                }
                lemma_digit_end_at(s, i + 1, e);
                lemma_nat_chars_val(s, i + 1, -n);
            }
        },
        SpecVal::Bool(b) => {
            if b {
                assert(starts_with(s, i, "true"@)) by {
                    assert(s.subrange(i, i + 4) =~= "true"@);
                }
                assert(s[i] == 't');
            } else {
                assert(starts_with(s, i, "false"@)) by {
                    assert(s.subrange(i, i + 5) =~= "false"@);
                }
                assert(s[i] == 'f');
                lemma_not_starts_with(s, i, "true"@);
            }
        },
        SpecVal::Nil => {
            assert(starts_with(s, i, "nil"@)) by {
                assert(s.subrange(i, i + 3) =~= "nil"@);
            }
            assert(s[i] == 'n');
            lemma_not_starts_with(s, i, "true"@);
            lemma_not_starts_with(s, i, "false"@);
        },
        SpecVal::Str(body) => {
            let esc = escape_seq(body);
            assert(p == seq!['"'].add(esc).push('"'));
            assert(s[i] == '"');
            assert(s.subrange(i + 1, i + 1 + esc.len()) =~= esc) by {
                assert(forall|k: int|
                    0 <= k < esc.len() ==> s.subrange(i + 1, i + 1 + esc.len())[k] == s[i + 1 + k]
                        && p[1 + k] == #[trigger] esc[k]);
            }
            assert(s[i + 1 + esc.len()] == p[l - 1]);
            assert(p[l - 1] == '"');
            lemma_parse_escaped(body, s, i + 1);
        },
        SpecVal::Keyword(t) => {
            assert(p == seq![':'] + t);
            assert(s[i] == ':');
            lemma_not_starts_with(s, i, "true"@);
            lemma_not_starts_with(s, i, "false"@);
            lemma_not_starts_with(s, i, "nil"@);
            assert(s.subrange(i + 1, e) =~= t) by {
                assert(forall|k: int|
                    0 <= k < t.len() ==> s.subrange(i + 1, i + 1 + t.len())[k] == s[i + 1 + k]
                        && p[1 + k] == #[trigger] t[k]);
            }
            lemma_chars_at(s, i + 1, t);
            assert forall|k: int| i + 1 <= k < e implies !is_term(#[trigger] s[k]) by {
                assert(s[i + 1 + (k - i - 1)] == t[k - i - 1]);
                assert(!is_term(t[k - i - 1]));
            }
            lemma_nonterm_end_at(s, i + 1, e);
        },
        SpecVal::Symbol(t) => {
            assert(p == t);
            assert(!is_term(s[i]));
            if t[0] == '-' {
                if t.len() >= 2 {
                    assert(s[i + 1] == t[1]);
                    assert(!is_digit(s[i + 1]));
                } else {
                    assert(e == i + 1);
                    if i + 1 < s.len() {
                        assert(is_term(s[i + 1]));
                        assert(!is_digit(s[i + 1]));
                    }
                }
            }
            lemma_sym_not_lit(s, i, t, "true"@);
            lemma_sym_not_lit(s, i, t, "false"@);
            lemma_sym_not_lit(s, i, t, "nil"@);
            assert forall|k: int| i <= k < e implies !is_term(#[trigger] s[k]) by {
                assert(s[i + (k - i)] == t[k - i]);
                assert(!is_term(t[k - i]));
            }
            lemma_nonterm_end_at(s, i, e);
            assert(s.subrange(i, e) =~= t);
        },
        SpecVal::List(items) => {
            let jtext = pri(items, a, d);
            assert(p == seq!['('].add(jtext).push(')'));
            assert(s[i] == '(');
            lemma_not_starts_with(s, i, "true"@);
            lemma_not_starts_with(s, i, "false"@);
            lemma_not_starts_with(s, i, "nil"@);
            assert(s.subrange(i + 1, i + 1 + jtext.len()) =~= jtext) by {
                assert(forall|k: int|
                    0 <= k < jtext.len() ==> s.subrange(i + 1, i + 1 + jtext.len())[k] == s[i + 1
                        + k] && p[1 + k] == #[trigger] jtext[k]);
            }
            assert(s[i + 1 + jtext.len()] == p[l - 1]);
            assert(p[l - 1] == ')');
            let j0 = i + 1;
            if jtext.len() == 0 {
                lemma_spc_at(s, j0);
            } else {
                lemma_print_items_front(items, a, d);
                lemma_print_first(items[0], a, d);
                lemma_chars_at(s, j0, jtext);
                assert(s[j0] == jtext[0]);
                assert(jtext[0] == pr(items[0], a, d)[0]);
                lemma_spc_at(s, j0);
            }
            lemma_parse_print_items(items, s, j0, j0, (fuel - 1) as nat, a, d, ')');
        },
        SpecVal::Vector(items) => {
            let jtext = pri(items, a, d);
            assert(p == seq!['['].add(jtext).push(']'));
            assert(s[i] == '[');
            assert(s.subrange(i + 1, i + 1 + jtext.len()) =~= jtext) by {
                assert(forall|k: int|
                    0 <= k < jtext.len() ==> s.subrange(i + 1, i + 1 + jtext.len())[k] == s[i + 1
                        + k] && p[1 + k] == #[trigger] jtext[k]);
            }
            assert(s[i + 1 + jtext.len()] == p[l - 1]);
            assert(p[l - 1] == ']');
            let j0 = i + 1;
            if jtext.len() == 0 {
                lemma_spc_at(s, j0);
            } else {
                lemma_print_items_front(items, a, d);
                lemma_print_first(items[0], a, d);
                lemma_chars_at(s, j0, jtext);
                assert(s[j0] == jtext[0]);
                assert(jtext[0] == pr(items[0], a, d)[0]);
                lemma_spc_at(s, j0);
            }
            lemma_parse_print_items(items, s, j0, j0, (fuel - 1) as nat, a, d, ']');
        },
        SpecVal::HashMap(kvs) => {
            let jtext = prk(kvs, a, d);
            assert(p == seq!['{'].add(jtext).push('}'));
            assert(s[i] == '{');
            assert(s.subrange(i + 1, i + 1 + jtext.len()) =~= jtext) by {
                assert(forall|k: int|
                    0 <= k < jtext.len() ==> s.subrange(i + 1, i + 1 + jtext.len())[k] == s[i + 1
                        + k] && p[1 + k] == #[trigger] jtext[k]);
            }
            assert(s[i + 1 + jtext.len()] == p[l - 1]);
            assert(p[l - 1] == '}');
            let j0 = i + 1;
            if jtext.len() == 0 {
                lemma_spc_at(s, j0);
            } else {
                lemma_print_kvs_front(kvs, a, d);
                lemma_print_first(kvs[0].0, a, d);
                lemma_chars_at(s, j0, jtext);
                assert(s[j0] == jtext[0]);
                assert(jtext[0] == pr(kvs[0].0, a, d)[0]);
                lemma_spc_at(s, j0);
            }
            lemma_parse_print_kvs(kvs, s, j0, j0, (fuel - 1) as nat, a, d);
        },
        _ => {},
    }
}

/// The elements of a list or vector read back one by one up to the closer.
/// `j0` is where whitespace skipping from `j` stops, the start of the text.
proof fn lemma_parse_print_items(
    items: Seq<SpecVal>,
    s: Seq<char>,
    j: int,
    j0: int,
    fuel: nat,
    a: Seq<SpecVal>,
    d: nat,
    closer: char,
)
    requires
        forall|k: int| 0 <= k < items.len() ==> readable(#[trigger] items[k]),
        closer == ')' || closer == ']',
        0 <= j <= j0,
        spec_spc(s, j) == j0,
        j0 + pri(items, a, d).len() + 1 <= s.len(),
        s.subrange(j0, j0 + pri(items, a, d).len()) == pri(items, a, d),
        s[j0 + pri(items, a, d).len()] == closer,
        fuel >= 2 * (s.len() - j) + 2,
    ensures
        spec_parse_items(s, j, closer, fuel) == Some(
            (items, j0 + pri(items, a, d).len() + 1),
        ),
    decreases items, 1nat,
{
    let jtext = pri(items, a, d);
    let jl = jtext.len() as int;
    lemma_chars_at(s, j0, jtext);
    if items.len() == 0 {
        assert(jtext =~= Seq::<char>::empty());
        assert(s[j0] == closer);
        lemma_parse_none_at_closer(s, j0, (fuel - 1) as nat);
    } else {
        lemma_print_items_front(items, a, d);
        let first = items[0];
        let p0 = pr(first, a, d);
        lemma_print_first(first, a, d);
        assert(s.subrange(j0, j0 + p0.len()) =~= p0) by {
            assert(forall|k: int|
                0 <= k < p0.len() ==> s.subrange(j0, j0 + p0.len())[k] == s[j0 + k] && jtext[k]
                    == #[trigger] p0[k]);
        }
        let k1 = j0 + p0.len();
        if items.len() == 1 {
            assert(jtext == p0);
            assert(s[k1] == closer);
            assert(is_term(s[k1]));
            lemma_parse_print(first, s, j0, (fuel - 1) as nat, a, d);
            lemma_spc_at(s, k1);
            let tail = items.skip(1);
            assert(tail =~= Seq::<SpecVal>::empty());
            assert(pri(tail, a, d) =~= Seq::<char>::empty());
            assert(s.subrange(k1, k1 + pri(tail, a, d).len()) =~= pri(tail, a, d));
            lemma_parse_print_items(tail, s, k1, k1, (fuel - 1) as nat, a, d, closer);
            assert(seq![first] + tail =~= items);
        } else {
            let tail = items.skip(1);
            let jt = pri(tail, a, d);
            assert(jtext == p0 + seq![' '] + jt);
            assert(s[k1] == jtext[p0.len() as int]);
            assert(jtext[p0.len() as int] == ' ');
            assert(is_term(s[k1]));
            lemma_parse_print(first, s, j0, (fuel - 1) as nat, a, d);
            // one space, then the rest of the elements
            assert(spec_spc(s, k1) == spec_spc(s, k1 + 1));
            assert(forall|k: int| 0 <= k < tail.len() ==> readable(#[trigger] tail[k])) by {
                assert(forall|k: int|
                    0 <= k < tail.len() ==> #[trigger] tail[k] == items[k + 1]);
            }
            assert(s.subrange(k1 + 1, k1 + 1 + jt.len()) =~= jt) by {
                assert(forall|k: int|
                    0 <= k < jt.len() ==> s.subrange(k1 + 1, k1 + 1 + jt.len())[k] == s[k1 + 1 + k]
                        && jtext[p0.len() as int + 1 + k] == #[trigger] jt[k]);
            }
            assert(s[k1 + 1 + jt.len()] == closer);
            lemma_print_items_front(tail, a, d);
            lemma_print_first(tail[0], a, d);
            lemma_chars_at(s, k1 + 1, jt);
            assert(s[k1 + 1] == jt[0]);
            assert(jt[0] == pr(tail[0], a, d)[0]);
            lemma_spc_at(s, k1 + 1);
            lemma_parse_print_items(tail, s, k1, k1 + 1, (fuel - 1) as nat, a, d, closer);
            assert(seq![first] + tail =~= items);
        }
    }
}

/// The key/value pairs of a hash-map read back pair by pair up to the
/// closing brace.
proof fn lemma_parse_print_kvs(
    kvs: Seq<(SpecVal, SpecVal)>,
    s: Seq<char>,
    j: int,
    j0: int,
    fuel: nat,
    a: Seq<SpecVal>,
    d: nat,
)
    requires
        forall|k: int|
            0 <= k < kvs.len() ==> readable(#[trigger] kvs[k].0) && readable(kvs[k].1),
        0 <= j <= j0,
        spec_spc(s, j) == j0,
        j0 + prk(kvs, a, d).len() + 1 <= s.len(),
        s.subrange(j0, j0 + prk(kvs, a, d).len()) == prk(kvs, a, d),
        s[j0 + prk(kvs, a, d).len()] == '}',
        fuel >= 2 * (s.len() - j) + 2,
    ensures
        spec_parse_kvs(s, j, fuel) == Some((kvs, j0 + prk(kvs, a, d).len() + 1)),
    decreases kvs, 1nat,
{
    let jtext = prk(kvs, a, d);
    lemma_chars_at(s, j0, jtext);
    if kvs.len() == 0 {
        assert(jtext =~= Seq::<char>::empty());
        assert(s[j0] == '}');
        lemma_parse_none_at_closer(s, j0, (fuel - 1) as nat);
    } else {
        lemma_print_kvs_front(kvs, a, d);
        let key = kvs[0].0;
        let val = kvs[0].1;
        let pk = pr(key, a, d);
        let pv = pr(val, a, d);
        lemma_print_first(key, a, d);
        lemma_print_first(val, a, d);
        assert(s.subrange(j0, j0 + pk.len()) =~= pk) by {
            assert(forall|k: int|
                0 <= k < pk.len() ==> s.subrange(j0, j0 + pk.len())[k] == s[j0 + k] && jtext[k]
                    == #[trigger] pk[k]);
        }
        let k1 = j0 + pk.len();
        assert(s[k1] == jtext[pk.len() as int]);
        assert(jtext[pk.len() as int] == ' ');
        assert(is_term(s[k1]));
        lemma_parse_print(key, s, j0, (fuel - 1) as nat, a, d);
        assert(spec_spc(s, k1) == spec_spc(s, k1 + 1));
        assert(s.subrange(k1 + 1, k1 + 1 + pv.len()) =~= pv) by {
            assert(forall|k: int|
                0 <= k < pv.len() ==> s.subrange(k1 + 1, k1 + 1 + pv.len())[k] == s[k1 + 1 + k]
                    && jtext[pk.len() as int + 1 + k] == #[trigger] pv[k]);
        }
        lemma_chars_at(s, k1 + 1, pv);
        assert(s[k1 + 1] == pv[0]);
        lemma_spc_at(s, k1 + 1);
        let k2 = k1 + 1 + pv.len();
        if kvs.len() == 1 {
            assert(jtext == pk + seq![' '] + pv);
            assert(s[k2] == '}');
            assert(is_term(s[k2]));
            lemma_parse_print(val, s, k1 + 1, (fuel - 1) as nat, a, d);
            lemma_spc_at(s, k2);
            let tail = kvs.skip(1);
            assert(tail =~= Seq::<(SpecVal, SpecVal)>::empty());
            assert(prk(tail, a, d) =~= Seq::<char>::empty());
            assert(s.subrange(k2, k2 + prk(tail, a, d).len()) =~= prk(tail, a, d));
            lemma_parse_print_kvs(tail, s, k2, k2, (fuel - 1) as nat, a, d);
            assert(seq![(key, val)] + tail =~= kvs);
        } else {
            let tail = kvs.skip(1);
            let jt = prk(tail, a, d);
            assert(jtext == pk + seq![' '] + pv + seq![' '] + jt);
            assert(s[k2] == jtext[pk.len() as int + 1 + pv.len() as int]);
            assert(jtext[pk.len() as int + 1 + pv.len() as int] == ' ');
            assert(is_term(s[k2]));
            lemma_parse_print(val, s, k1 + 1, (fuel - 1) as nat, a, d);
            assert(forall|k: int|
                0 <= k < tail.len() ==> readable(#[trigger] tail[k].0) && readable(
                    tail[k].1,
                )) by {
                assert(forall|k: int| 0 <= k < tail.len() ==> #[trigger] tail[k] == kvs[k + 1]);
            }
            assert(s.subrange(k2 + 1, k2 + 1 + jt.len()) =~= jt) by {
                assert(forall|k: int|
                    0 <= k < jt.len() ==> s.subrange(k2 + 1, k2 + 1 + jt.len())[k] == s[k2 + 1 + k]
                        && jtext[pk.len() as int + 1 + pv.len() as int + 1 + k] == #[trigger] jt[k]);
            }
            assert(s[k2 + 1 + jt.len()] == '}');
            lemma_print_kvs_front(tail, a, d);
            lemma_print_first(tail[0].0, a, d);
            lemma_chars_at(s, k2 + 1, jt);
            assert(s[k2 + 1] == jt[0]);
            assert(jt[0] == pr(tail[0].0, a, d)[0]);
            assert(spec_spc(s, k2) == spec_spc(s, k2 + 1));
            lemma_spc_at(s, k2 + 1);
            lemma_parse_print_kvs(tail, s, k2, k2 + 1, (fuel - 1) as nat, a, d);
            assert(seq![(key, val)] + tail =~= kvs);
        }
    }
}

/// The read/print round trip: for every readable value — anything the
/// reader can produce, so everything but functions and atom cells — reading
/// the readably printed text gives the value itself back.
pub proof fn lemma_read_print_round_trip(v: SpecVal, a: Seq<SpecVal>, d: nat)
    requires
        readable(v),
    ensures
        spec_read(spec_print(v, true, a, d)) == Some(v),
{
    let s = pr(v, a, d);
    let l = s.len() as int;
    lemma_print_first(v, a, d);
    assert(s.subrange(0, l) =~= s);
    lemma_spc_at(s, 0);
    lemma_parse_print(v, s, 0, crate::reader::read_fuel(s), a, d);
    lemma_spc_at(s, l);
}

} // verus!


