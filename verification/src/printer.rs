//! The printer: value tree to text.
//!
//! With `print_readably` set, strings are wrapped in quotes with backslash,
//! quote and newline escaped, so the reader can reparse the text; otherwise
//! strings are rendered raw.  Atom cells print their contents, which live in
//! the interpreter's cell arena, so the printing functions take that arena;
//! a depth budget of one step per cell guards against a cell chain made
//! cyclic through `reset!`, where `...` stands in for the remainder.
use crate::types::{
    lemma_view_seq_index, val_view, view_kvs, view_seq, MalType, SpecVal,
};
use vstd::prelude::*;

verus! {

/// The character of one decimal digit.
pub open spec fn digit_char(d: int) -> char {
    if d == 0 {
        '0'
    } else if d == 1 {
        '1'
    } else if d == 2 {
        '2'
    } else if d == 3 {
        '3'
    } else if d == 4 {
        '4'
    } else if d == 5 {
        '5'
    } else if d == 6 {
        '6'
    } else if d == 7 {
        '7'
    } else if d == 8 {
        '8'
    } else {
        '9'
    }
}

/// The decimal digits of a non-negative integer, most significant first.
pub open spec fn nat_chars(n: int) -> Seq<char>
    decreases n,
        when n >= 0
{
    if n < 10 {
        seq![digit_char(n)]
    } else {
        nat_chars(n / 10).push(digit_char(n % 10))
    }
}

/// The decimal rendering of an integer.
pub open spec fn int_chars(v: int) -> Seq<char> {
    if v < 0 {
        seq!['-'].add(nat_chars(-v))
    } else {
        nat_chars(v)
    }
}

/// The readable escape of one string character.
pub open spec fn esc_char(c: char) -> Seq<char> {
    if c == '\\' {
        seq!['\\', '\\']
    } else if c == '"' {
        seq!['\\', '"']
    } else if c == '\n' {
        seq!['\\', 'n']
    } else {
        seq![c]
    }
}

/// The readable escape of a whole string body.
pub open spec fn escape_seq(sq: Seq<char>) -> Seq<char>
    decreases sq.len(),
{
    if sq.len() == 0 {
        Seq::empty()
    } else {
        esc_char(sq[0]).add(escape_seq(sq.skip(1)))
    }
}

/// The text of one value.  `depth` bounds how many atom cells may be
/// dereferenced along one path.
pub open spec fn spec_print(v: SpecVal, readable: bool, atoms: Seq<SpecVal>, depth: nat) -> Seq<
    char,
>
    decreases depth, v,
{
    match v {
        SpecVal::Int(n) => int_chars(n),
        SpecVal::Bool(b) => if b {
            "true"@
        } else {
            "false"@
        },
        SpecVal::Nil => "nil"@,
        SpecVal::Str(sq) => if readable {
            seq!['"'].add(escape_seq(sq)).push('"')
        } else {
            sq
        },
        SpecVal::Keyword(sq) => seq![':'].add(sq),
        SpecVal::Symbol(sq) => sq,
        SpecVal::List(items) => seq!['('].add(spec_print_items(items, readable, atoms, depth)).push(
            ')',
        ),
        SpecVal::Vector(items) => seq!['['].add(
            spec_print_items(items, readable, atoms, depth),
        ).push(']'),
        SpecVal::HashMap(kvs) => seq!['{'].add(spec_print_kvs(kvs, readable, atoms, depth)).push(
            '}',
        ),
        SpecVal::Atom(i) => if depth > 0 && 0 <= i < atoms.len() {
            "(atom "@.add(
                spec_print(atoms[i], readable, atoms, (depth - 1) as nat),
            ).push(')')
        } else {
            "(atom ...)"@
        },
        SpecVal::BuiltinFunc(_) => "#<function>"@,
        SpecVal::Func(_) => "#<function>"@,
    }
}

/// Elements joined by single spaces.
pub open spec fn spec_print_items(
    items: Seq<SpecVal>,
    readable: bool,
    atoms: Seq<SpecVal>,
    depth: nat,
) -> Seq<char>
    decreases depth, items,
{
    if items.len() == 0 {
        Seq::empty()
    } else if items.len() == 1 {
        spec_print(items[0], readable, atoms, depth)
    } else {
        spec_print_items(items.drop_last(), readable, atoms, depth).push(' ').add(
            spec_print(items.last(), readable, atoms, depth),
        )
    }
}

/// Key/value pairs, each pair `k v`, all joined by single spaces.
pub open spec fn spec_print_kvs(
    kvs: Seq<(SpecVal, SpecVal)>,
    readable: bool,
    atoms: Seq<SpecVal>,
    depth: nat,
) -> Seq<char>
    decreases depth, kvs,
{
    if kvs.len() == 0 {
        Seq::empty()
    } else if kvs.len() == 1 {
        spec_print(kvs[0].0, readable, atoms, depth).push(' ').add(
            spec_print(kvs[0].1, readable, atoms, depth),
        )
    } else {
        spec_print_kvs(kvs.drop_last(), readable, atoms, depth).push(' ').add(
            spec_print(kvs.last().0, readable, atoms, depth),
        ).push(' ').add(spec_print(kvs.last().1, readable, atoms, depth))
    }
}

/// The text of one value with its tag, for the debugging form of `print_str`.
pub open spec fn spec_print_debug(
    v: SpecVal,
    readable: bool,
    atoms: Seq<SpecVal>,
    depth: nat,
) -> Seq<char> {
    match v {
        SpecVal::Int(_) => "Int:"@.add(spec_print(v, readable, atoms, depth)),
        SpecVal::Bool(_) => "Bool:"@.add(spec_print(v, readable, atoms, depth)),
        SpecVal::Nil => "nil"@,
        SpecVal::Str(_) => "Str:"@.add(spec_print(v, readable, atoms, depth)),
        SpecVal::Keyword(_) => "Key:"@.add(spec_print(v, readable, atoms, depth)),
        SpecVal::Symbol(_) => "Sym:"@.add(spec_print(v, readable, atoms, depth)),
        SpecVal::List(_) => "List:"@.add(spec_print(v, readable, atoms, depth)),
        SpecVal::Vector(_) => "Vec:"@.add(spec_print(v, readable, atoms, depth)),
        SpecVal::HashMap(_) => "Hash:"@.add(spec_print(v, readable, atoms, depth)),
        _ => spec_print(v, readable, atoms, depth),
    }
}


/// Appends all characters of `src` to `dst`.
fn push_chars(dst: &mut Vec<char>, src: &Vec<char>)
    ensures
        final(dst)@ == old(dst)@ + src@,
{
    let n: usize = src.len();
    let mut k: usize = 0;
    while k < n
        invariant
            k <= n,
            n == src@.len(),
            dst@ == old(dst)@ + src@.subrange(0, k as int),
        decreases n - k,
    {
        dst.push(src[k]);
        assert(dst@ =~= old(dst)@ + src@.subrange(0, k + 1 as int));
        k = k + 1;
    }
    assert(old(dst)@ + src@.subrange(0, n as int) =~= old(dst)@ + src@);
}

fn digit_char_exec(d: u32) -> (c: char)
    requires
        d < 10,
    ensures
        c == digit_char(d as int),
{
    match d {
        0 => '0',
        1 => '1',
        2 => '2',
        3 => '3',
        4 => '4',
        5 => '5',
        6 => '6',
        7 => '7',
        8 => '8',
        _ => '9',
    }
}

fn nat_chars_exec(n: u32) -> (r: Vec<char>)
    ensures
        r@ == nat_chars(n as int),
    decreases n,
{
    if n < 10 {
        let mut r: Vec<char> = Vec::new();
        r.push(digit_char_exec(n));
        proof {
            assert(r@ =~= seq![digit_char(n as int)]);
        }
        r
    } else {
        let mut r = nat_chars_exec(n / 10);
        r.push(digit_char_exec(n % 10));
        r
    }
}

/// The decimal text of an integer.
pub fn dump_i32(value: &i32) -> (r: Vec<char>)
    ensures
        r@ == int_chars(*value as int),
{
    if *value >= 0 {
        nat_chars_exec(*value as u32)
    } else {
        let mag: u32 = if *value == -2147483647 - 1 {
            2147483648
        } else {
            (-*value) as u32
        };
        let mut r: Vec<char> = Vec::new();
        r.push('-');
        let digits = nat_chars_exec(mag);
        push_chars(&mut r, &digits);
        proof {
            assert(r@ =~= seq!['-'] + nat_chars(mag as int));
        }
        r
    }
}

/// The text of a boolean.
pub fn dump_boolean(value: &bool) -> (r: Vec<char>)
    ensures
        r@ == spec_print(SpecVal::Bool(*value), true, Seq::empty(), 0),
{
    if *value {
        crate::types::str_to_chars("true")
    } else {
        crate::types::str_to_chars("false")
    }
}

/// The text of a string payload: escaped and quoted when readable, raw
/// otherwise.
pub fn dump_str(string: &Vec<char>, print_readably: bool) -> (r: Vec<char>)
    ensures
        print_readably ==> r@ == seq!['"'].add(escape_seq(string@)).push('"'),
        !print_readably ==> r@ == string@,
{
    if !print_readably {
        return crate::types::chars_clone(string);
    }
    let n: usize = string.len();
    let mut r: Vec<char> = Vec::new();
    r.push('"');
    let mut k: usize = 0;
    while k < n
        invariant
            k <= n,
            n == string@.len(),
            r@ == seq!['"'] + escape_seq(string@.subrange(0, k as int)),
        decreases n - k,
    {
        let ghost pre = string@.subrange(0, k as int);
        let ghost pre2 = string@.subrange(0, k + 1 as int);
        proof {
            lemma_escape_snoc(string@, k as int);
        }
        let c = string[k];
        if c == '\\' {
            r.push('\\');
            r.push('\\');
        } else if c == '"' {
            r.push('\\');
            r.push('"');
        } else if c == '\n' {
            r.push('\\');
            r.push('n');
        } else {
            r.push(c);
        }
        proof {
            assert(r@ =~= seq!['"'] + (escape_seq(pre) + esc_char(string@[k as int])));
        }
        k = k + 1;
    }
    r.push('"');
    proof {
        assert(string@.subrange(0, n as int) =~= string@);
        assert(r@ =~= seq!['"'].add(escape_seq(string@)).push('"'));
    }
    r
}

/// Escaping one more character appends that character's escape.
proof fn lemma_escape_snoc(sq: Seq<char>, k: int)
    requires
        0 <= k < sq.len(),
    ensures
        escape_seq(sq.subrange(0, k + 1)) == escape_seq(sq.subrange(0, k)) + esc_char(sq[k]),
    decreases k,
{
    let a = sq.subrange(0, k + 1);
    let b = sq.subrange(0, k);
    if k == 0 {
        assert(a =~= seq![sq[0]]);
        assert(a.skip(1) =~= Seq::<char>::empty());
        assert(escape_seq(Seq::<char>::empty()) == Seq::<char>::empty());
        assert(a.len() == 1 && a[0] == sq[0]);
        assert(escape_seq(a) == esc_char(sq[0]).add(escape_seq(a.skip(1))));
        assert(escape_seq(a) =~= esc_char(sq[0]));
        assert(escape_seq(b) =~= Seq::<char>::empty());
        assert(escape_seq(b) + esc_char(sq[0]) =~= esc_char(sq[0]));
    } else {
        lemma_escape_snoc(sq.skip(1), k - 1);
        assert(a.skip(1) =~= sq.skip(1).subrange(0, k));
        assert(b.skip(1) =~= sq.skip(1).subrange(0, k - 1));
        assert(a[0] == sq[0] && b[0] == sq[0]);
        assert(escape_seq(a) == esc_char(sq[0]) + escape_seq(sq.skip(1).subrange(0, k)));
        assert(escape_seq(b) == esc_char(sq[0]) + escape_seq(sq.skip(1).subrange(0, k - 1)));
        assert(sq.skip(1)[k - 1] == sq[k]);
        assert(escape_seq(b) + esc_char(sq[k]) =~= esc_char(sq[0]) + (escape_seq(
            sq.skip(1).subrange(0, k - 1),
        ) + esc_char(sq[k])));
    }
}

/// The text of a keyword: a leading colon and the keyword's characters.
pub fn dump_keyword(keyword: &Vec<char>) -> (r: Vec<char>)
    ensures
        r@ == seq![':'].add(keyword@),
{
    let mut r: Vec<char> = Vec::new();
    r.push(':');
    push_chars(&mut r, keyword);
    proof {
        assert(r@ =~= seq![':'] + keyword@);
    }
    r
}

/// The text of a symbol: its characters.
pub fn dump_symbol(symbol: &Vec<char>) -> (r: Vec<char>)
    ensures
        r@ == symbol@,
{
    crate::types::chars_clone(symbol)
}

/// The text of one value (not the debugging form).
pub fn dump_mal(mal: &MalType, print_readably: bool, atoms: &Vec<MalType>, depth: usize) -> (r:
    Vec<char>)
    ensures
        r@ == spec_print(mal@, print_readably, view_seq(atoms@), depth as nat),
    decreases depth, mal,
{
    let ghost goal = spec_print(mal@, print_readably, view_seq(atoms@), depth as nat);
    match mal {
        MalType::Int(v) => {
            let r = dump_i32(v);
            proof {
                assert(r@ == goal);
            }
            r
        },
        MalType::Bool(b) => {
            let r = dump_boolean(b);
            proof {
                assert(r@ == goal);
            }
            r
        },
        MalType::Nil => {
            let r = crate::types::str_to_chars("nil");
            proof {
                assert(r@ == goal);
            }
            r
        },
        MalType::Str(sq) => {
            let r = dump_str(sq, print_readably);
            proof {
                assert(r@ == goal);
            }
            r
        },
        MalType::Keyword(sq) => {
            let r = dump_keyword(sq);
            proof {
                assert(r@ == goal);
            }
            r
        },
        MalType::Symbol(sq) => {
            let r = dump_symbol(sq);
            proof {
                assert(r@ == goal);
            }
            r
        },
        MalType::List(items) => {
            let r = dump_seq(items, '(', ')', print_readably, atoms, depth);
            proof {
                assert(r@ == goal);
            }
            r
        },
        MalType::Vector(items) => {
            let r = dump_seq(items, '[', ']', print_readably, atoms, depth);
            proof {
                assert(r@ == goal);
            }
            r
        },
        MalType::HashMap(kvs) => {
            let r = dump_hash_map(kvs, print_readably, atoms, depth);
            proof {
                assert(r@ == goal);
            }
            r
        },
        MalType::BuiltinFunc(_) => {
            let r = crate::types::str_to_chars("#<function>");
            proof {
                assert(r@ == goal);
            }
            r
        },
        MalType::Func(_) => {
            let r = crate::types::str_to_chars("#<function>");
            proof {
                assert(r@ == goal);
            }
            r
        },
        MalType::Atom(i) => {
            proof {
                lemma_view_seq_index(atoms@);
            }
            if depth > 0 && *i < atoms.len() {
                proof {
                    lemma_view_seq_index(atoms@);
                    assert(decreases_to!(depth => depth - 1));
                }
                let mut r = crate::types::str_to_chars("(atom ");
                let inner = dump_mal(&atoms[*i], print_readably, atoms, depth - 1);
                push_chars(&mut r, &inner);
                r.push(')');
                proof {
                    assert(r@ =~= "(atom "@.add(
                        spec_print(
                            view_seq(atoms@)[*i as int],
                            print_readably,
                            view_seq(atoms@),
                            (depth - 1) as nat,
                        ),
                    ).push(')'));
                }
                r
            } else {
                crate::types::str_to_chars("(atom ...)")
            }
        },
    }
}

/// The elements of a list or vector between their brackets.
fn dump_seq(
    items: &Vec<MalType>,
    open: char,
    close: char,
    print_readably: bool,
    atoms: &Vec<MalType>,
    depth: usize,
) -> (r: Vec<char>)
    ensures
        r@ == seq![open].add(
            spec_print_items(view_seq(items@), print_readably, view_seq(atoms@), depth as nat),
        ).push(close),
    decreases depth, items,
{
    let n: usize = items.len();
    let mut r: Vec<char> = Vec::new();
    r.push(open);
    let mut k: usize = 0;
    proof {
        lemma_view_seq_index(items@);
    }
    while k < n
        invariant
            k <= n,
            n == items@.len(),
            view_seq(items@).len() == n,
            forall|j: int| 0 <= j < n ==> #[trigger] view_seq(items@)[j] == val_view(items@[j]),
            r@ == seq![open] + spec_print_items(
                view_seq(items@).subrange(0, k as int),
                print_readably,
                view_seq(atoms@),
                depth as nat,
            ),
        decreases n - k,
    {
        let ghost vs = view_seq(items@);
        proof {
            assert(decreases_to!(items => items@[k as int]));
            assert(vs.subrange(0, k + 1 as int).drop_last() =~= vs.subrange(0, k as int));
            assert(vs.subrange(0, k + 1 as int).last() == vs[k as int]);
            if k == 0 {
                assert(vs.subrange(0, 1) =~= seq![vs[0]]);
            }
        }
        if k > 0 {
            r.push(' ');
        }
        let piece = dump_mal(&items[k], print_readably, atoms, depth);
        push_chars(&mut r, &piece);
        proof {
            if k == 0 {
                assert(r@ =~= seq![open] + spec_print_items(
                    vs.subrange(0, 1),
                    print_readably,
                    view_seq(atoms@),
                    depth as nat,
                ));
            } else {
                assert(r@ =~= seq![open] + spec_print_items(
                    vs.subrange(0, k + 1 as int),
                    print_readably,
                    view_seq(atoms@),
                    depth as nat,
                ));
            }
        }
        k = k + 1;
    }
    r.push(close);
    proof {
        assert(view_seq(items@).subrange(0, n as int) =~= view_seq(items@));
        assert(r@ =~= seq![open].add(
            spec_print_items(view_seq(items@), print_readably, view_seq(atoms@), depth as nat),
        ).push(close));
    }
    r
}

/// The elements of a list between parentheses.
pub fn dump_list(
    items: &Vec<MalType>,
    print_readably: bool,
    atoms: &Vec<MalType>,
    depth: usize,
) -> (r: Vec<char>)
    ensures
        r@ == spec_print(
            SpecVal::List(view_seq(items@)),
            print_readably,
            view_seq(atoms@),
            depth as nat,
        ),
{
    dump_seq(items, '(', ')', print_readably, atoms, depth)
}

/// The elements of a vector between square brackets.
pub fn dump_vec(
    items: &Vec<MalType>,
    print_readably: bool,
    atoms: &Vec<MalType>,
    depth: usize,
) -> (r: Vec<char>)
    ensures
        r@ == spec_print(
            SpecVal::Vector(view_seq(items@)),
            print_readably,
            view_seq(atoms@),
            depth as nat,
        ),
{
    dump_seq(items, '[', ']', print_readably, atoms, depth)
}

/// The key/value pairs of a hash-map between braces.
pub fn dump_hash_map(
    kvs: &Vec<(MalType, MalType)>,
    print_readably: bool,
    atoms: &Vec<MalType>,
    depth: usize,
) -> (r: Vec<char>)
    ensures
        r@ == seq!['{'].add(
            spec_print_kvs(view_kvs(kvs@), print_readably, view_seq(atoms@), depth as nat),
        ).push('}'),
    decreases depth, kvs,
{
    let n: usize = kvs.len();
    let mut r: Vec<char> = Vec::new();
    r.push('{');
    let mut k: usize = 0;
    proof {
        crate::types::lemma_view_kvs_index(kvs@);
    }
    while k < n
        invariant
            k <= n,
            n == kvs@.len(),
            view_kvs(kvs@).len() == n,
            forall|j: int|
                0 <= j < n ==> #[trigger] view_kvs(kvs@)[j] == (
                    val_view(kvs@[j].0),
                    val_view(kvs@[j].1),
                ),
            r@ == seq!['{'] + spec_print_kvs(
                view_kvs(kvs@).subrange(0, k as int),
                print_readably,
                view_seq(atoms@),
                depth as nat,
            ),
        decreases n - k,
    {
        let ghost vs = view_kvs(kvs@);
        proof {
            assert(decreases_to!(kvs => kvs@[k as int].0));
            assert(decreases_to!(kvs => kvs@[k as int].1));
            assert(vs.subrange(0, k + 1 as int).drop_last() =~= vs.subrange(0, k as int));
            assert(vs.subrange(0, k + 1 as int).last() == vs[k as int]);
            if k == 0 {
                assert(vs.subrange(0, 1) =~= seq![vs[0]]);
            }
        }
        if k > 0 {
            r.push(' ');
        }
        let kv = &kvs[k];
        let piece_k = dump_mal(&kv.0, print_readably, atoms, depth);
        push_chars(&mut r, &piece_k);
        r.push(' ');
        let piece_v = dump_mal(&kv.1, print_readably, atoms, depth);
        push_chars(&mut r, &piece_v);
        proof {
            if k == 0 {
                assert(r@ =~= seq!['{'] + spec_print_kvs(
                    vs.subrange(0, 1),
                    print_readably,
                    view_seq(atoms@),
                    depth as nat,
                ));
            } else {
                assert(r@ =~= seq!['{'] + spec_print_kvs(
                    vs.subrange(0, k + 1 as int),
                    print_readably,
                    view_seq(atoms@),
                    depth as nat,
                ));
            }
        }
        k = k + 1;
    }
    r.push('}');
    proof {
        assert(view_kvs(kvs@).subrange(0, n as int) =~= view_kvs(kvs@));
        assert(r@ =~= seq!['{'].add(
            spec_print_kvs(view_kvs(kvs@), print_readably, view_seq(atoms@), depth as nat),
        ).push('}'));
    }
    r
}

/// The text of an atom cell: `(atom <contents>)`.
pub fn dump_atom(idx: usize, print_readably: bool, atoms: &Vec<MalType>, depth: usize) -> (r: Vec<
    char,
>)
    ensures
        r@ == spec_print(
            SpecVal::Atom(idx as int),
            print_readably,
            view_seq(atoms@),
            depth as nat,
        ),
{
    proof {
        lemma_view_seq_index(atoms@);
    }
    let cell = MalType::Atom(idx);
    dump_mal(&cell, print_readably, atoms, depth)
}

/// The text of one value with its tag, for debugging.
pub fn dump_mal_debug(mal: &MalType, print_readably: bool, atoms: &Vec<MalType>, depth: usize) -> (r:
    Vec<char>)
    ensures
        r@ == spec_print_debug(mal@, print_readably, view_seq(atoms@), depth as nat),
{
    let tag: &str = match mal {
        MalType::Int(_) => "Int:",
        MalType::Bool(_) => "Bool:",
        MalType::Nil => "",
        MalType::Str(_) => "Str:",
        MalType::Keyword(_) => "Key:",
        MalType::Symbol(_) => "Sym:",
        MalType::List(_) => "List:",
        MalType::Vector(_) => "Vec:",
        MalType::HashMap(_) => "Hash:",
        MalType::BuiltinFunc(_) => "",
        MalType::Atom(_) => "",
        MalType::Func(_) => "",
    };
    let mut r = crate::types::str_to_chars(tag);
    if matches!(mal, MalType::Nil) {
        proof {
            reveal_strlit("");
        }
        return crate::types::str_to_chars("nil");
    }
    let body = dump_mal(mal, print_readably, atoms, depth);
    push_chars(&mut r, &body);
    proof {
        reveal_strlit("");
        match mal@ {
            SpecVal::Int(_) => {},
            SpecVal::Bool(_) => {},
            SpecVal::Str(_) => {},
            SpecVal::Keyword(_) => {},
            SpecVal::Symbol(_) => {},
            SpecVal::List(_) => {},
            SpecVal::Vector(_) => {},
            SpecVal::HashMap(_) => {},
            _ => {
                assert(r@ =~= spec_print_debug(
                    mal@,
                    print_readably,
                    view_seq(atoms@),
                    depth as nat,
                ));
            },
        }
    }
    r
}

/// The text of one value: the debugging form when `debug` is set, else the
/// plain form.  `atoms` is the interpreter's cell arena, which atom values
/// name by index.
pub fn print_str(mal: &MalType, debug: bool, print_readably: bool, atoms: &Vec<MalType>) -> (r:
    Vec<char>)
    ensures
        ({
            let depth = atoms@.len() as nat;
            if debug {
                r@ == spec_print_debug(mal@, print_readably, view_seq(atoms@), depth)
            } else {
                r@ == spec_print(mal@, print_readably, view_seq(atoms@), depth)
            }
        }),
{
    proof {
        crate::types::lemma_view_seq_index(atoms@);
    }
    let depth = atoms.len();
    if debug {
        dump_mal_debug(mal, print_readably, atoms, depth)
    } else {
        dump_mal(mal, print_readably, atoms, depth)
    }
}

} // verus!

