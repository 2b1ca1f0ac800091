//! The evaluator: a tree walker with special-form dispatch, lexical
//! environments, an explicit trampoline for tail calls, mutable atom cells
//! and the built-in function table.
//!
//! The whole interpreter state is one value: the environment frames, the atom
//! cells, a snapshot of readable files for `slurp`, and the text printed so
//! far.  `spec_eval` is the mathematical interpreter over that state; the
//! executable `Interp::eval` returns exactly what `spec_eval` says.  Both are
//! bounded by a fuel that pays one unit per step, which makes the evaluator
//! total; a run that exhausts its fuel ends like any failed evaluation, with
//! no value.  Tail positions of `let*`, `do`, `if` and function calls are
//! continued in the trampoline loop rather than by recursion, so
//! self-tail-recursion runs in bounded host stack.
use crate::env::{
    entries_view, env_lookup, frame_lookup, frames_wf, root_entries, spec_bind, Env, SpecFrame,
};
use crate::printer::{spec_print, spec_print_debug};
use crate::reader::spec_read;
use crate::types::{spec_eq, val_wf, Builtin, SpecVal};
use vstd::prelude::*;

verus! {

/// The whole interpreter state.
#[verifier::ext_equal]
pub struct SpecState {
    pub frames: Seq<SpecFrame>,
    pub atoms: Seq<SpecVal>,
    pub files: Seq<(Seq<char>, Seq<char>)>,
    pub out: Seq<char>,
}

/// Frame references point backward, frame 0 exists, and every value stored in
/// a frame or a cell names only existing frames and cells.
pub open spec fn state_wf(st: SpecState) -> bool {
    &&& st.frames.len() >= 1
    &&& frames_wf(st.frames)
    &&& forall|i: int, j: int|
        0 <= i < st.frames.len() && 0 <= j < st.frames[i].entries.len() ==> val_wf(
            #[trigger] st.frames[i].entries[j].1,
            st.frames.len() as int,
            st.atoms.len() as int,
        )
    &&& forall|i: int|
        0 <= i < st.atoms.len() ==> val_wf(
            #[trigger] st.atoms[i],
            st.frames.len() as int,
            st.atoms.len() as int,
        )
}

pub open spec fn with_out(st: SpecState, msg: Seq<char>) -> SpecState {
    SpecState { out: st.out + msg + seq!['\n'], ..st }
}

pub open spec fn set_entry(st: SpecState, env: int, name: Seq<char>, v: SpecVal) -> SpecState {
    if 0 <= env < st.frames.len() {
        SpecState {
            frames: st.frames.update(
                env,
                SpecFrame { entries: st.frames[env].entries.push((name, v)), ..st.frames[env] },
            ),
            ..st
        }
    } else {
        st
    }
}

pub open spec fn push_frame(st: SpecState, outer: int) -> SpecState {
    SpecState {
        frames: st.frames.push(SpecFrame { entries: Seq::empty(), outer: Some(outer) }),
        ..st
    }
}

/// Truncating division, the semantics of the `/` built-in.
pub open spec fn div_trunc(a: int, b: int) -> int {
    let m = abs_int(a) / abs_int(b);
    if (a < 0) == (b < 0) {
        m
    } else {
        -m
    }
}

pub open spec fn abs_int(a: int) -> int {
    if a < 0 {
        -a
    } else {
        a
    }
}

pub open spec fn in_i32(v: int) -> bool {
    -0x8000_0000 <= v <= 0x7fff_ffff
}

/// The first file in the snapshot with the given name.
pub open spec fn file_lookup(files: Seq<(Seq<char>, Seq<char>)>, name: Seq<char>) -> Option<
    Seq<char>,
>
    decreases files.len(),
{
    if files.len() == 0 {
        None
    } else if files[0].0 == name {
        Some(files[0].1)
    } else {
        file_lookup(files.skip(1), name)
    }
}

/// The texts of the values joined by a separator, as `prn`, `pr-str`,
/// `println` and `str` build them.
pub open spec fn spec_join(
    args: Seq<SpecVal>,
    readable: bool,
    atoms: Seq<SpecVal>,
    sep: Seq<char>,
) -> Seq<char>
    decreases args.len(),
{
    if args.len() == 0 {
        Seq::empty()
    } else if args.len() == 1 {
        spec_print(args[0], readable, atoms, atoms.len())
    } else {
        spec_join(args.drop_last(), readable, atoms, sep) + sep + spec_print(
            args.last(),
            readable,
            atoms,
            atoms.len(),
        )
    }
}

/// The elements that `concat` gathers: lists and vectors contribute their
/// elements, anything else contributes nothing.
pub open spec fn concat_args(args: Seq<SpecVal>) -> Seq<SpecVal>
    decreases args.len(),
{
    if args.len() == 0 {
        Seq::empty()
    } else {
        let rest = concat_args(args.skip(1));
        match args[0] {
            SpecVal::List(items) => items + rest,
            SpecVal::Vector(items) => items + rest,
            _ => rest,
        }
    }
}

/// The index of the first element that is not a symbol, or the length.
pub open spec fn first_non_symbol(items: Seq<SpecVal>, i: int) -> int
    decreases items.len() - i,
        when 0 <= i <= items.len()
{
    if i >= items.len() {
        i
    } else if items[i] is Symbol {
        first_non_symbol(items, i + 1)
    } else {
        i
    }
}

/// The names of a parameter list known to hold only symbols.
pub open spec fn symbol_names(items: Seq<SpecVal>) -> Seq<Seq<char>> {
    items.map(|i: int, v: SpecVal| v->Symbol_0)
}

/// One evaluation step's fuel limit reached, an unbound symbol, or a wrong
/// special form all end with no value; the state carries whatever was
/// printed.  `spec_eval` is the definitional interpreter that `Interp::eval`
/// implements.
pub open spec fn spec_eval(st: SpecState, ast: SpecVal, env: int, fuel: nat) -> (SpecState, Option<
    SpecVal,
>)
    decreases fuel, 4int, 0int,
{
    if fuel == 0 {
        (st, None)
    } else {
        match ast {
            SpecVal::List(items) => {
                if items.len() == 0 {
                    (st, Some(ast))
                } else if items[0] == SpecVal::Symbol("def!"@) {
                    spec_eval_def(st, items, env, fuel)
                } else if items[0] == SpecVal::Symbol("let*"@) {
                    let (st1, r) = spec_eval_let(st, items, env, fuel);
                    match r {
                        Some((body, env2)) => spec_eval(st1, body, env2, (fuel - 1) as nat),
                        None => (st1, None),
                    }
                } else if items[0] == SpecVal::Symbol("fn*"@) {
                    spec_eval_fn(st, items, env)
                } else if items[0] == SpecVal::Symbol("if"@) {
                    let (st1, r) = spec_eval_if(st, items, env, fuel);
                    match r {
                        Some(branch) => spec_eval(st1, branch, env, (fuel - 1) as nat),
                        None => (st1, None),
                    }
                } else if items[0] == SpecVal::Symbol("do"@) {
                    if items.len() <= 1 {
                        (with_out(st, "Wrong amount of arguments for do"@), None)
                    } else {
                        let (st1, r) = spec_eval_seq(
                            st,
                            items.subrange(1, items.len() - 1),
                            env,
                            fuel,
                        );
                        match r {
                            Some(ignored) => spec_eval(st1, items.last(), env, (fuel - 1) as nat),
                            None => (st1, None),
                        }
                    }
                } else {
                    let (st1, ev) = spec_eval_ast(st, ast, env, fuel);
                    match ev {
                        Some(SpecVal::List(evitems)) => {
                            if evitems.len() == 0 {
                                (st1, Some(SpecVal::List(evitems)))
                            } else {
                                match evitems[0] {
                                    SpecVal::BuiltinFunc(b) => spec_builtin(
                                        st1,
                                        b,
                                        evitems.skip(1),
                                        (fuel - 1) as nat,
                                    ),
                                    SpecVal::Func(c) => {
                                        let st2 = SpecState {
                                            frames: st1.frames.push(
                                                SpecFrame {
                                                    entries: spec_bind(c.params, evitems.skip(1), 0),
                                                    outer: Some(c.env),
                                                },
                                            ),
                                            ..st1
                                        };
                                        spec_eval(
                                            st2,
                                            *c.ast,
                                            st1.frames.len() as int,
                                            (fuel - 1) as nat,
                                        )
                                    },
                                    _ => (st1, Some(SpecVal::List(evitems))),
                                }
                            }
                        },
                        Some(other) => (st1, None),
                        None => (st1, None),
                    }
                }
            },
            _ => spec_eval_ast(st, ast, env, fuel),
        }
    }
}

/// `(def! sym expr)`: evaluate, bind at the current frame, return the value.
pub open spec fn spec_eval_def(st: SpecState, items: Seq<SpecVal>, env: int, fuel: nat) -> (
    SpecState,
    Option<SpecVal>,
)
    decreases fuel, 3int, 0int,
        when fuel >= 1
{
    if items.len() != 3 {
        (with_out(st, "Wrong amount of arguments for def!"@), None)
    } else {
        match items[1] {
            SpecVal::Symbol(name) => {
                let (st1, v) = spec_eval(st, items[2], env, (fuel - 1) as nat);
                match v {
                    Some(val) => (set_entry(st1, env, name, val), Some(val)),
                    None => (st1, None),
                }
            },
            _ => (
                with_out(
                    st,
                    spec_print_debug(items[1], true, st.atoms, st.atoms.len()) + " is not a symbol"@,
                ),
                None,
            ),
        }
    }
}

/// `(let* bindings body)`: bind pairs in a child frame, then hand back the
/// body and the child for the trampoline.  A binding list of odd length is a
/// failure, as is one that is not a list or vector.
pub open spec fn spec_eval_let(st: SpecState, items: Seq<SpecVal>, env: int, fuel: nat) -> (
    SpecState,
    Option<(SpecVal, int)>,
)
    decreases fuel, 3int, 0int,
        when fuel >= 1
{
    if items.len() != 3 {
        (with_out(st, "Wrong amount of arguments for let*"@), None)
    } else {
        let bl = match items[1] {
            SpecVal::List(bl) => Some(bl),
            SpecVal::Vector(bl) => Some(bl),
            _ => None,
        };
        match bl {
            Some(binds) => {
                if binds.len() % 2 != 0 {
                    (with_out(st, "Wrong amount of arguments for bind of let*"@), None)
                } else {
                    let env2 = st.frames.len() as int;
                    let st1 = push_frame(st, env);
                    let (st2, ok) = spec_eval_binds(st1, binds, 0, env2, fuel);
                    if ok {
                        (st2, Some((items[2], env2)))
                    } else {
                        (st2, None)
                    }
                }
            },
            None => (with_out(st, "Wrong bind format"@), None),
        }
    }
}

/// The successive `(symbol expr)` pairs of a `let*` binding list; each
/// expression already sees the earlier bindings.
pub open spec fn spec_eval_binds(
    st: SpecState,
    binds: Seq<SpecVal>,
    i: int,
    env2: int,
    fuel: nat,
) -> (SpecState, bool)
    decreases fuel, 2int, binds.len() - i,
        when fuel >= 1 && i >= 0
{
    if i + 1 >= binds.len() {
        (st, true)
    } else {
        match binds[i] {
            SpecVal::Symbol(name) => {
                let (st1, v) = spec_eval(st, binds[i + 1], env2, (fuel - 1) as nat);
                match v {
                    Some(val) => spec_eval_binds(
                        set_entry(st1, env2, name, val),
                        binds,
                        i + 2,
                        env2,
                        fuel,
                    ),
                    None => (st1, false),
                }
            },
            _ => (
                with_out(
                    st,
                    spec_print_debug(binds[i], true, st.atoms, st.atoms.len()) + " is not a symbol"@,
                ),
                false,
            ),
        }
    }
}

/// `(fn* params body)`: a closure capturing the current frame.
pub open spec fn spec_eval_fn(st: SpecState, items: Seq<SpecVal>, env: int) -> (
    SpecState,
    Option<SpecVal>,
) {
    if items.len() != 3 {
        (with_out(st, "Wrong amount of arguments for fn*"@), None)
    } else {
        let bl = match items[1] {
            SpecVal::List(bl) => Some(bl),
            SpecVal::Vector(bl) => Some(bl),
            _ => None,
        };
        match bl {
            Some(binds) => {
                let bad = first_non_symbol(binds, 0);
                if bad < binds.len() {
                    (
                        with_out(
                            st,
                            spec_print_debug(binds[bad], true, st.atoms, st.atoms.len())
                                + " is not a symbol"@,
                        ),
                        None,
                    )
                } else {
                    (
                        st,
                        Some(
                            SpecVal::Func(
                                crate::types::SpecClosure {
                                    ast: Box::new(items[2]),
                                    params: symbol_names(binds),
                                    env: env,
                                },
                            ),
                        ),
                    )
                }
            },
            None => (st, None),
        }
    }
}

/// `(if cond then else?)`: evaluate the condition and hand back the branch
/// for the trampoline; `false` and `nil` take the else branch or `nil`.
pub open spec fn spec_eval_if(st: SpecState, items: Seq<SpecVal>, env: int, fuel: nat) -> (
    SpecState,
    Option<SpecVal>,
)
    decreases fuel, 3int, 0int,
        when fuel >= 1
{
    if items.len() <= 2 {
        (with_out(st, "Wrong amount of arguments for if"@), None)
    } else {
        let (st1, c) = spec_eval(st, items[1], env, (fuel - 1) as nat);
        match c {
            Some(v) => {
                if v == SpecVal::Bool(false) || v == SpecVal::Nil {
                    if items.len() >= 4 {
                        (st1, Some(items[3]))
                    } else {
                        (st1, Some(SpecVal::Nil))
                    }
                } else {
                    (st1, Some(items[2]))
                }
            },
            None => (st1, None),
        }
    }
}

/// Evaluation of anything but a non-empty list form: a symbol looks itself
/// up, composites evaluate their members, everything else is itself.
pub open spec fn spec_eval_ast(st: SpecState, ast: SpecVal, env: int, fuel: nat) -> (
    SpecState,
    Option<SpecVal>,
)
    decreases fuel, 3int, 0int,
        when fuel >= 1
{
    match ast {
        SpecVal::Symbol(name) => {
            match env_lookup(st.frames, env, name) {
                Some(v) => (st, Some(v)),
                None => (with_out(st, name + " not found"@), None),
            }
        },
        SpecVal::List(items) => {
            let (st1, r) = spec_eval_seq(st, items, env, fuel);
            match r {
                Some(vals) => (st1, Some(SpecVal::List(vals))),
                None => (st1, None),
            }
        },
        SpecVal::Vector(items) => {
            let (st1, r) = spec_eval_seq(st, items, env, fuel);
            match r {
                Some(vals) => (st1, Some(SpecVal::Vector(vals))),
                None => (st1, None),
            }
        },
        SpecVal::HashMap(kvs) => {
            let (st1, r) = spec_eval_kvs(st, kvs, env, fuel);
            match r {
                Some(pairs) => (st1, Some(SpecVal::HashMap(pairs))),
                None => (st1, None),
            }
        },
        _ => (st, Some(ast)),
    }
}

/// Elements evaluated left to right; the first failure aborts.
pub open spec fn spec_eval_seq(st: SpecState, items: Seq<SpecVal>, env: int, fuel: nat) -> (
    SpecState,
    Option<Seq<SpecVal>>,
)
    decreases fuel, 2int, items.len(),
        when fuel >= 1
{
    if items.len() == 0 {
        (st, Some(Seq::empty()))
    } else {
        let (st1, r) = spec_eval(st, items[0], env, (fuel - 1) as nat);
        match r {
            Some(v) => {
                let (st2, rest) = spec_eval_seq(st1, items.skip(1), env, fuel);
                match rest {
                    Some(vs) => (st2, Some(seq![v] + vs)),
                    None => (st2, None),
                }
            },
            None => (st1, None),
        }
    }
}

/// Hash-map evaluation: keys stay as written, values are evaluated.
pub open spec fn spec_eval_kvs(
    st: SpecState,
    kvs: Seq<(SpecVal, SpecVal)>,
    env: int,
    fuel: nat,
) -> (SpecState, Option<Seq<(SpecVal, SpecVal)>>)
    decreases fuel, 2int, kvs.len(),
        when fuel >= 1
{
    if kvs.len() == 0 {
        (st, Some(Seq::empty()))
    } else {
        let (st1, r) = spec_eval(st, kvs[0].1, env, (fuel - 1) as nat);
        match r {
            Some(v) => {
                let (st2, rest) = spec_eval_kvs(st1, kvs.skip(1), env, fuel);
                match rest {
                    Some(ps) => (st2, Some(seq![(kvs[0].0, v)] + ps)),
                    None => (st2, None),
                }
            },
            None => (st1, None),
        }
    }
}

/// A function value applied to arguments outside tail position, as `swap!`
/// does it: a built-in runs directly, a closure binds its parameters in a
/// child of its captured frame and evaluates its body.
pub open spec fn spec_apply(st: SpecState, f: SpecVal, args: Seq<SpecVal>, fuel: nat) -> (
    SpecState,
    Option<SpecVal>,
)
    decreases fuel, 0int, 0int,
        when fuel >= 1
{
    match f {
        SpecVal::BuiltinFunc(b) => spec_builtin(st, b, args, (fuel - 1) as nat),
        SpecVal::Func(c) => {
            let st2 = SpecState {
                frames: st.frames.push(
                    SpecFrame { entries: spec_bind(c.params, args, 0), outer: Some(c.env) },
                ),
                ..st
            };
            spec_eval(st2, *c.ast, st.frames.len() as int, (fuel - 1) as nat)
        },
        _ => (st, None),
    }
}

/// Two-argument integer arithmetic; a missing or mistyped argument, division
/// by zero and a result outside the 32-bit range each print a diagnostic and
/// end with no value.
pub open spec fn spec_arith(st: SpecState, b: Builtin, args: Seq<SpecVal>) -> (
    SpecState,
    Option<SpecVal>,
) {
    let name = match b {
        Builtin::Add => "+"@,
        Builtin::Sub => "-"@,
        Builtin::Mul => "*"@,
        _ => "/"@,
    };
    if args.len() != 2 {
        (with_out(st, "Wrong amount of arguments for "@ + name), None)
    } else {
        match (args[0], args[1]) {
            (SpecVal::Int(x), SpecVal::Int(y)) => {
                match b {
                    Builtin::Add => if in_i32(x + y) {
                        (st, Some(SpecVal::Int(x + y)))
                    } else {
                        (with_out(st, "Integer overflow for "@ + name), None)
                    },
                    Builtin::Sub => if in_i32(x - y) {
                        (st, Some(SpecVal::Int(x - y)))
                    } else {
                        (with_out(st, "Integer overflow for "@ + name), None)
                    },
                    Builtin::Mul => if in_i32(x * y) {
                        (st, Some(SpecVal::Int(x * y)))
                    } else {
                        (with_out(st, "Integer overflow for "@ + name), None)
                    },
                    _ => if y == 0 {
                        (with_out(st, "Division by zero"@), None)
                    } else if in_i32(div_trunc(x, y)) {
                        (st, Some(SpecVal::Int(div_trunc(x, y))))
                    } else {
                        (with_out(st, "Integer overflow for "@ + name), None)
                    },
                }
            },
            _ => (with_out(st, "Wrong type of arguments for "@ + name), None),
        }
    }
}

/// Two-argument integer comparison.
pub open spec fn spec_cmp(st: SpecState, b: Builtin, args: Seq<SpecVal>) -> (
    SpecState,
    Option<SpecVal>,
) {
    let name = match b {
        Builtin::Lt => "<"@,
        Builtin::Le => "<="@,
        Builtin::Gt => ">"@,
        _ => ">="@,
    };
    if args.len() != 2 {
        (with_out(st, "Wrong amount of arguments for "@ + name), None)
    } else {
        match (args[0], args[1]) {
            (SpecVal::Int(x), SpecVal::Int(y)) => {
                let r = match b {
                    Builtin::Lt => x < y,
                    Builtin::Le => x <= y,
                    Builtin::Gt => x > y,
                    _ => x >= y,
                };
                (st, Some(SpecVal::Bool(r)))
            },
            _ => (with_out(st, "Wrong type of arguments for "@ + name), None),
        }
    }
}

/// The built-in function table's behaviour, one arm per table entry.
pub open spec fn spec_builtin(st: SpecState, b: Builtin, args: Seq<SpecVal>, fuel: nat) -> (
    SpecState,
    Option<SpecVal>,
)
    decreases fuel, 1int, 0int,
{
    if fuel == 0 {
        (st, None)
    } else {
        spec_builtin_body(st, b, args, fuel)
    }
}

/// The table itself, reached with fuel in hand.
pub open spec fn spec_builtin_body(st: SpecState, b: Builtin, args: Seq<SpecVal>, fuel: nat) -> (
    SpecState,
    Option<SpecVal>,
)
    decreases fuel, 0int, 1int,
        when fuel >= 1
{
    match b {
        Builtin::Add => spec_arith(st, b, args),
        Builtin::Sub => spec_arith(st, b, args),
        Builtin::Mul => spec_arith(st, b, args),
        Builtin::Div => spec_arith(st, b, args),
        Builtin::Lt => spec_cmp(st, b, args),
        Builtin::Le => spec_cmp(st, b, args),
        Builtin::Gt => spec_cmp(st, b, args),
        Builtin::Ge => spec_cmp(st, b, args),
        Builtin::Prn => (
            with_out(st, spec_join(args, true, st.atoms, seq![' '])),
            Some(SpecVal::Nil),
        ),
        Builtin::PrStr => (st, Some(SpecVal::Str(spec_join(args, true, st.atoms, seq![' '])))),
        Builtin::Str => (st, Some(SpecVal::Str(spec_join(args, false, st.atoms, Seq::empty())))),
        Builtin::PrintLn => (
            with_out(st, spec_join(args, false, st.atoms, seq![' '])),
            Some(SpecVal::Nil),
        ),
        Builtin::List => (st, Some(SpecVal::List(args))),
        Builtin::IsList => if args.len() == 0 {
            (st, Some(SpecVal::Nil))
        } else {
            (st, Some(SpecVal::Bool(args[0] is List)))
        },
        Builtin::IsEmpty => if args.len() == 0 {
            (st, Some(SpecVal::Nil))
        } else {
            match args[0] {
                SpecVal::List(items) => (st, Some(SpecVal::Bool(items.len() == 0))),
                SpecVal::Vector(items) => (st, Some(SpecVal::Bool(items.len() == 0))),
                _ => (st, Some(SpecVal::Nil)),
            }
        },
        Builtin::Count => if args.len() == 0 {
            (st, Some(SpecVal::Nil))
        } else {
            match args[0] {
                SpecVal::List(items) => if items.len() <= 0x7fff_ffff {
                    (st, Some(SpecVal::Int(items.len() as int)))
                } else {
                    (st, None)
                },
                SpecVal::Vector(items) => if items.len() <= 0x7fff_ffff {
                    (st, Some(SpecVal::Int(items.len() as int)))
                } else {
                    (st, None)
                },
                _ => (st, Some(SpecVal::Int(0))),
            }
        },
        Builtin::Eq => if args.len() != 2 {
            (with_out(st, "Wrong amount of arguments for ="@), None)
        } else {
            (st, Some(SpecVal::Bool(spec_eq(args[0], args[1]))))
        },
        Builtin::ReadString => if args.len() >= 1 && args[0] is Str && args[0]->Str_0.len()
            < 0x1000_0000_0000_0000 {
            match spec_read(args[0]->Str_0) {
                Some(v) => (st, Some(v)),
                None => (st, Some(SpecVal::Nil)),
            }
        } else {
            (st, Some(SpecVal::Nil))
        },
        Builtin::Slurp => if args.len() >= 1 && args[0] is Str {
            match file_lookup(st.files, args[0]->Str_0) {
                Some(content) => (st, Some(SpecVal::Str(content))),
                None => (st, Some(SpecVal::Nil)),
            }
        } else {
            (st, Some(SpecVal::Nil))
        },
        Builtin::Atom => if args.len() == 0 {
            (st, Some(SpecVal::Nil))
        } else {
            (
                SpecState { atoms: st.atoms.push(args[0]), ..st },
                Some(SpecVal::Atom(st.atoms.len() as int)),
            )
        },
        Builtin::IsAtom => if args.len() == 0 {
            (st, Some(SpecVal::Nil))
        } else {
            (st, Some(SpecVal::Bool(args[0] is Atom)))
        },
        Builtin::Deref => if args.len() == 0 {
            (st, Some(SpecVal::Nil))
        } else {
            match args[0] {
                SpecVal::Atom(i) => if 0 <= i < st.atoms.len() {
                    (st, Some(st.atoms[i]))
                } else {
                    (st, Some(SpecVal::Nil))
                },
                _ => (st, Some(SpecVal::Nil)),
            }
        },
        Builtin::Reset => if args.len() < 2 {
            (st, Some(SpecVal::Nil))
        } else {
            match args[0] {
                SpecVal::Atom(i) => if 0 <= i < st.atoms.len() {
                    (SpecState { atoms: st.atoms.update(i, args[1]), ..st }, Some(args[1]))
                } else {
                    (st, Some(SpecVal::Nil))
                },
                _ => (st, Some(SpecVal::Nil)),
            }
        },
        Builtin::Swap => if args.len() < 2 {
            (st, Some(SpecVal::Nil))
        } else {
            match args[0] {
                SpecVal::Atom(i) => if 0 <= i < st.atoms.len() {
                    if args[1] is BuiltinFunc || args[1] is Func {
                        let call_args = seq![st.atoms[i]] + args.skip(2);
                        let (st1, r) = spec_apply(st, args[1], call_args, fuel);
                        match r {
                            Some(res) => if 0 <= i < st1.atoms.len() {
                                (
                                    SpecState { atoms: st1.atoms.update(i, res), ..st1 },
                                    Some(res),
                                )
                            } else {
                                (st1, None)
                            },
                            None => (st1, None),
                        }
                    } else {
                        (st, Some(SpecVal::Nil))
                    }
                } else {
                    (st, Some(SpecVal::Nil))
                },
                _ => (st, Some(SpecVal::Nil)),
            }
        },
        Builtin::Cons => if args.len() < 2 {
            (st, Some(SpecVal::Nil))
        } else {
            match args[1] {
                SpecVal::List(items) => (st, Some(SpecVal::List(seq![args[0]] + items))),
                SpecVal::Vector(items) => (st, Some(SpecVal::List(seq![args[0]] + items))),
                _ => (st, Some(SpecVal::Nil)),
            }
        },
        Builtin::Concat => (st, Some(SpecVal::List(concat_args(args)))),
        Builtin::Vec => if args.len() == 0 {
            (st, Some(SpecVal::Nil))
        } else {
            match args[0] {
                SpecVal::List(items) => (st, Some(SpecVal::Vector(items))),
                SpecVal::Vector(items) => (st, Some(SpecVal::Vector(items))),
                _ => (st, Some(SpecVal::Nil)),
            }
        },
        Builtin::Eval => if args.len() == 0 {
            (st, Some(SpecVal::Nil))
        } else {
            spec_eval(st, args[0], 0, (fuel - 1) as nat)
        },
    }
}


/// The interpreter: the frame arena, the atom-cell arena, the file snapshot
/// that `slurp` reads, and the text printed so far.
pub struct Interp {
    pub env: Env,
    pub atoms: Vec<crate::types::MalType>,
    pub files: Vec<(Vec<char>, Vec<char>)>,
    pub out: Vec<char>,
}

pub open spec fn files_view(files: Seq<(Vec<char>, Vec<char>)>) -> Seq<(Seq<char>, Seq<char>)> {
    files.map(|i: int, f: (Vec<char>, Vec<char>)| (f.0@, f.1@))
}

impl View for Interp {
    type V = SpecState;

    open spec fn view(&self) -> SpecState {
        SpecState {
            frames: self.env@,
            atoms: crate::types::view_seq(self.atoms@),
            files: files_view(self.files@),
            out: self.out@,
        }
    }
}

pub open spec fn opt_view(r: Option<crate::types::MalType>) -> Option<SpecVal> {
    match r {
        Some(v) => Some(v@),
        None => None,
    }
}

/// A looked-up value is as well formed as the state it came from.
proof fn lemma_frame_lookup_wf(
    entries: Seq<(Seq<char>, SpecVal)>,
    name: Seq<char>,
    nf: int,
    na: int,
)
    requires
        forall|j: int| 0 <= j < entries.len() ==> val_wf(#[trigger] entries[j].1, nf, na),
    ensures
        frame_lookup(entries, name) matches Some(v) ==> val_wf(v, nf, na),
    decreases entries.len(),
{
    if entries.len() > 0 && entries.last().0 != name {
        lemma_frame_lookup_wf(entries.drop_last(), name, nf, na);
    }
}

pub proof fn lemma_env_lookup_wf(st: SpecState, env: int, name: Seq<char>)
    requires
        state_wf(st),
        0 <= env < st.frames.len(),
    ensures
        env_lookup(st.frames, env, name) matches Some(v) ==> val_wf(
            v,
            st.frames.len() as int,
            st.atoms.len() as int,
        ),
    decreases env,
{
    lemma_frame_lookup_wf(
        st.frames[env].entries,
        name,
        st.frames.len() as int,
        st.atoms.len() as int,
    );
    if frame_lookup(st.frames[env].entries, name) is None {
        match st.frames[env].outer {
            Some(o) => {
                lemma_env_lookup_wf(st, o, name);
            },
            None => {},
        }
    }
}

/// Appending a well-formed binding keeps the state well formed.
pub proof fn lemma_wf_set_entry(st: SpecState, env: int, name: Seq<char>, v: SpecVal)
    requires
        state_wf(st),
        0 <= env < st.frames.len(),
        val_wf(v, st.frames.len() as int, st.atoms.len() as int),
    ensures
        state_wf(set_entry(st, env, name, v)),
{
    let st2 = set_entry(st, env, name, v);
    assert forall|i: int|
        0 <= i < st2.frames.len() implies (#[trigger] st2.frames[i].outer matches Some(o) ==> 0
        <= o < i) by {
        assert(st.frames[i].outer == st2.frames[i].outer);
    }
    assert forall|i: int, j: int|
        0 <= i < st2.frames.len() && 0 <= j < st2.frames[i].entries.len() implies val_wf(
        #[trigger] st2.frames[i].entries[j].1,
        st2.frames.len() as int,
        st2.atoms.len() as int,
    ) by {
        if i == env && j == st.frames[env].entries.len() {
        } else {
            assert(st2.frames[i].entries[j] == st.frames[i].entries[j]);
        }
    }
}

/// Pushing a frame with well-formed entries and a valid outer reference
/// keeps the state well formed.
pub proof fn lemma_wf_push_frame(st: SpecState, outer: int, entries: Seq<(Seq<char>, SpecVal)>)
    requires
        state_wf(st),
        0 <= outer < st.frames.len(),
        forall|j: int|
            0 <= j < entries.len() ==> val_wf(
                #[trigger] entries[j].1,
                st.frames.len() as int,
                st.atoms.len() as int,
            ),
    ensures
        state_wf(
            SpecState {
                frames: st.frames.push(SpecFrame { entries: entries, outer: Some(outer) }),
                ..st
            },
        ),
{
    let st2 = SpecState {
        frames: st.frames.push(SpecFrame { entries: entries, outer: Some(outer) }),
        ..st
    };
    let nf = st.frames.len() as int;
    let nf2 = st2.frames.len() as int;
    let na = st.atoms.len() as int;
    assert forall|i: int|
        0 <= i < st2.frames.len() implies (#[trigger] st2.frames[i].outer matches Some(o) ==> 0
        <= o < i) by {
        if i < st.frames.len() {
            assert(st2.frames[i] == st.frames[i]);
        }
    }
    assert forall|i: int, j: int|
        0 <= i < st2.frames.len() && 0 <= j < st2.frames[i].entries.len() implies val_wf(
        #[trigger] st2.frames[i].entries[j].1,
        nf2,
        st2.atoms.len() as int,
    ) by {
        if i < st.frames.len() {
            assert(st2.frames[i] == st.frames[i]);
            crate::types::lemma_val_wf_mono(st.frames[i].entries[j].1, nf, na, nf2, na);
        } else {
            crate::types::lemma_val_wf_mono(entries[j].1, nf, na, nf2, na);
        }
    }
    assert forall|i: int| 0 <= i < st2.atoms.len() implies val_wf(
        #[trigger] st2.atoms[i],
        nf2,
        st2.atoms.len() as int,
    ) by {
        crate::types::lemma_val_wf_mono(st.atoms[i], nf, na, nf2, na);
    }
}

/// Pushing a well-formed value as a new atom cell keeps the state well
/// formed.
pub proof fn lemma_wf_push_atom(st: SpecState, v: SpecVal)
    requires
        state_wf(st),
        val_wf(v, st.frames.len() as int, st.atoms.len() as int),
    ensures
        state_wf(SpecState { atoms: st.atoms.push(v), ..st }),
{
    let st2 = SpecState { atoms: st.atoms.push(v), ..st };
    let nf = st.frames.len() as int;
    let na = st.atoms.len() as int;
    let na2 = st2.atoms.len() as int;
    assert forall|i: int, j: int|
        0 <= i < st2.frames.len() && 0 <= j < st2.frames[i].entries.len() implies val_wf(
        #[trigger] st2.frames[i].entries[j].1,
        st2.frames.len() as int,
        na2,
    ) by {
        crate::types::lemma_val_wf_mono(st.frames[i].entries[j].1, nf, na, nf, na2);
    }
    assert forall|i: int| 0 <= i < st2.atoms.len() implies val_wf(
        #[trigger] st2.atoms[i],
        st2.frames.len() as int,
        na2,
    ) by {
        if i < st.atoms.len() {
            crate::types::lemma_val_wf_mono(st.atoms[i], nf, na, nf, na2);
        } else {
            crate::types::lemma_val_wf_mono(v, nf, na, nf, na2);
        }
    }
}

/// Overwriting an atom cell with a well-formed value keeps the state well
/// formed.
pub proof fn lemma_wf_set_atom(st: SpecState, i: int, v: SpecVal)
    requires
        state_wf(st),
        0 <= i < st.atoms.len(),
        val_wf(v, st.frames.len() as int, st.atoms.len() as int),
    ensures
        state_wf(SpecState { atoms: st.atoms.update(i, v), ..st }),
{
    let st2 = SpecState { atoms: st.atoms.update(i, v), ..st };
    assert forall|k: int| 0 <= k < st2.atoms.len() implies val_wf(
        #[trigger] st2.atoms[k],
        st2.frames.len() as int,
        st2.atoms.len() as int,
    ) by {
        if k != i {
            assert(st2.atoms[k] == st.atoms[k]);
        }
    }
}

/// Every binding that `spec_bind` forms holds a well-formed value.
pub proof fn lemma_bind_wf(params: Seq<Seq<char>>, args: Seq<SpecVal>, i: int, nf: int, na: int)
    requires
        0 <= i,
        forall|j: int| 0 <= j < args.len() ==> val_wf(#[trigger] args[j], nf, na),
    ensures
        forall|j: int|
            0 <= j < spec_bind(params, args, i).len() ==> val_wf(
                #[trigger] spec_bind(params, args, i)[j].1,
                nf,
                na,
            ),
    decreases params.len() - i,
{
    if i >= params.len() {
    } else if params[i] == "&"@ {
        if i + 1 < params.len() {
            let rest = if i <= args.len() {
                args.skip(i)
            } else {
                Seq::<SpecVal>::empty()
            };
            assert forall|k: int| 0 <= k < rest.len() implies val_wf(#[trigger] rest[k], nf, na) by {
                assert(rest[k] == args[i + k]);
            }
            assert(val_wf(SpecVal::List(rest), nf, na));
            assert(spec_bind(params, args, i) =~= seq![(params[i + 1], SpecVal::List(rest))]);
        }
    } else if i >= args.len() {
    } else {
        lemma_bind_wf(params, args, i + 1, nf, na);
        let b = spec_bind(params, args, i);
        let tail = spec_bind(params, args, i + 1);
        assert forall|j: int| 0 <= j < b.len() implies val_wf(#[trigger] b[j].1, nf, na) by {
            if j == 0 {
                assert(b[0].1 == args[i]);
            } else {
                assert(b[j] == tail[j - 1]);
            }
        }
    }
}

/// Positions before `k` hold symbols, so the first non-symbol search can
/// start at `k`.
proof fn lemma_first_non_symbol_skip(items: Seq<SpecVal>, k: int)
    requires
        0 <= k <= items.len(),
        forall|j: int| 0 <= j < k ==> items[j] is Symbol,
    ensures
        first_non_symbol(items, 0) == first_non_symbol(items, k),
    decreases k,
{
    if k > 0 {
        lemma_first_non_symbol_skip(items, k - 1);
        lemma_first_non_symbol_step(items, k - 1);
    }
}

proof fn lemma_first_non_symbol_step(items: Seq<SpecVal>, k: int)
    requires
        0 <= k < items.len(),
        items[k] is Symbol,
    ensures
        first_non_symbol(items, k) == first_non_symbol(items, k + 1),
{
}

/// The bindings of a parameter list against an argument list, as
/// `spec_bind` forms them.
#[verifier::loop_isolation(false)]
fn bind_entries(
    params: &Vec<Vec<char>>,
    args: &Vec<crate::types::MalType>,
    start: usize,
) -> (r: Vec<(Vec<char>, crate::types::MalType)>)
    requires
        start <= args@.len(),
    ensures
        entries_view(r@) == spec_bind(
            crate::types::params_view(params@),
            crate::types::view_seq(args@).skip(start as int),
            0,
        ),
{
    proof {
        crate::types::lemma_view_seq_index(args@);
    }
    let ghost pv = crate::types::params_view(params@);
    let ghost av = crate::types::view_seq(args@).skip(start as int);
    let np: usize = params.len();
    let rem: usize = args.len() - start;
    let mut acc: Vec<(Vec<char>, crate::types::MalType)> = Vec::new();
    let mut i: usize = 0;
    proof {
        assert(av.len() == rem);
        assert(forall|j: int|
            0 <= j < av.len() ==> #[trigger] av[j] == crate::types::view_seq(args@)[start + j]);
        assert(entries_view(acc@) + spec_bind(pv, av, 0) =~= spec_bind(pv, av, 0));
    }
    loop
        invariant
            i <= np,
            np == params@.len() == pv.len(),
            rem == args@.len() - start,
            start <= args@.len(),
            av == crate::types::view_seq(args@).skip(start as int),
            av.len() == rem,
            forall|j: int| 0 <= j < pv.len() ==> #[trigger] pv[j] == params@[j]@,
            forall|j: int|
                0 <= j < av.len() ==> #[trigger] av[j] == crate::types::view_seq(args@)[start + j],
            forall|j: int|
                0 <= j < args@.len() ==> #[trigger] crate::types::view_seq(args@)[j]
                    == args@[j]@,
            spec_bind(pv, av, 0) == entries_view(acc@) + spec_bind(pv, av, i as int),
        decreases np - i,
    {
        if i >= np {
            proof {
                assert(spec_bind(pv, av, i as int) =~= Seq::<(Seq<char>, SpecVal)>::empty());
                assert(entries_view(acc@) + spec_bind(pv, av, i as int) =~= entries_view(acc@));
            }
            return acc;
        }
        let ghost before = entries_view(acc@);
        if crate::types::chars_eq_str(&params[i], "&") {
            if i + 1 < np {
                let from: usize = if i <= rem {
                    start + i
                } else {
                    args.len()
                };
                let rest = crate::types::clone_range(args, from, args.len());
                let ghost restv = if i as int <= av.len() {
                    av.skip(i as int)
                } else {
                    Seq::<SpecVal>::empty()
                };
                proof {
                    assert(crate::types::view_seq(args@).subrange(
                        from as int,
                        args@.len() as int,
                    ) =~= restv);
                }
                acc.push((crate::types::chars_clone(&params[i + 1]), crate::types::MalType::List(rest)));
                proof {
                    assert(entries_view(acc@) =~= before.push(
                        (pv[i + 1], SpecVal::List(restv)),
                    ));
                    assert(spec_bind(pv, av, i as int) =~= seq![
                        (pv[i + 1], SpecVal::List(restv)),
                    ]);
                    assert(before + spec_bind(pv, av, i as int) =~= entries_view(acc@));
                }
                return acc;
            } else {
                proof {
                    assert(spec_bind(pv, av, i as int) =~= Seq::<(Seq<char>, SpecVal)>::empty());
                    assert(entries_view(acc@) + spec_bind(pv, av, i as int) =~= entries_view(
                        acc@,
                    ));
                }
                return acc;
            }
        } else if i >= rem {
            proof {
                assert(spec_bind(pv, av, i as int) =~= Seq::<(Seq<char>, SpecVal)>::empty());
                assert(entries_view(acc@) + spec_bind(pv, av, i as int) =~= entries_view(acc@));
            }
            return acc;
        } else {
            acc.push((crate::types::chars_clone(&params[i]), args[start + i].mal_clone()));
            proof {
                assert(entries_view(acc@) =~= before.push((pv[i as int], av[i as int])));
                assert(spec_bind(pv, av, i as int) == seq![(pv[i as int], av[i as int])].add(
                    spec_bind(pv, av, i + 1),
                ));
                assert(before + spec_bind(pv, av, i as int) =~= entries_view(acc@) + spec_bind(
                    pv,
                    av,
                    i + 1,
                ));
            }
            i = i + 1;
        }
    }
}

/// The first file in the snapshot with the given name, as `file_lookup`.
#[verifier::loop_isolation(false)]
fn lookup_file(files: &Vec<(Vec<char>, Vec<char>)>, name: &Vec<char>) -> (r: Option<Vec<char>>)
    ensures
        match file_lookup(files_view(files@), name@) {
            Some(content) => r matches Some(c) && c@ == content,
            None => r is None,
        },
{
    let ghost fv = files_view(files@);
    let n: usize = files.len();
    let mut i: usize = 0;
    proof {
        assert(fv.skip(0) =~= fv);
    }
    while i < n
        invariant
            i <= n,
            n == files@.len(),
            fv == files_view(files@),
            fv.len() == n,
            forall|j: int| 0 <= j < n ==> #[trigger] fv[j] == (files@[j].0@, files@[j].1@),
            file_lookup(fv, name@) == file_lookup(fv.skip(i as int), name@),
        decreases n - i,
    {
        proof {
            assert(fv.skip(i as int)[0] == fv[i as int]);
            assert(fv.skip(i as int).skip(1) =~= fv.skip(i + 1));
        }
        if crate::types::chars_eq(&files[i].0, name) {
            return Some(crate::types::chars_clone(&files[i].1));
        }
        i = i + 1;
    }
    proof {
        assert(fv.skip(n as int) =~= Seq::<(Seq<char>, Seq<char>)>::empty());
    }
    None
}

/// The texts of `args[start..]` joined by a separator, as the printing
/// built-ins build them.
#[verifier::loop_isolation(false)]
fn join_args(
    args: &Vec<crate::types::MalType>,
    start: usize,
    readable: bool,
    atoms: &Vec<crate::types::MalType>,
    sep: &str,
) -> (r: Vec<char>)
    requires
        start <= args@.len(),
    ensures
        r@ == spec_join(
            crate::types::view_seq(args@).skip(start as int),
            readable,
            crate::types::view_seq(atoms@),
            sep@,
        ),
{
    proof {
        crate::types::lemma_view_seq_index(args@);
    }
    let ghost av = crate::types::view_seq(args@).skip(start as int);
    let ghost atomsv = crate::types::view_seq(atoms@);
    let sepc = crate::types::str_to_chars(sep);
    let n: usize = args.len();
    let depth: usize = atoms.len();
    let mut r: Vec<char> = Vec::new();
    let mut i: usize = start;
    proof {
        assert(av.subrange(0, 0) =~= Seq::<SpecVal>::empty());
        crate::types::lemma_view_seq_index(atoms@);
    }
    while i < n
        invariant
            start <= i <= n,
            n == args@.len(),
            depth == atoms@.len(),
            sepc@ == sep@,
            atomsv == crate::types::view_seq(atoms@),
            atomsv.len() == atoms@.len(),
            av == crate::types::view_seq(args@).skip(start as int),
            av.len() == n - start,
            forall|j: int|
                0 <= j < args@.len() ==> #[trigger] crate::types::view_seq(args@)[j] == args@[j]@,
            forall|j: int|
                0 <= j < av.len() ==> #[trigger] av[j] == crate::types::view_seq(args@)[start + j],
            r@ == spec_join(av.subrange(0, i - start), readable, atomsv, sep@),
        decreases n - i,
    {
        let ghost k = i - start;
        proof {
            assert(av.subrange(0, k + 1).drop_last() =~= av.subrange(0, k));
            assert(av.subrange(0, k + 1).last() == av[k]);
            if k == 0 {
                assert(av.subrange(0, 1) =~= seq![av[0]]);
            }
        }
        if i > start {
            crate::types::let_append(&mut r, &sepc);
        }
        let piece = crate::printer::dump_mal(&args[i], readable, atoms, depth);
        crate::types::let_append(&mut r, &piece);
        proof {
            assert(r@ =~= spec_join(av.subrange(0, k + 1), readable, atomsv, sep@));
        }
        i = i + 1;
    }
    proof {
        assert(av.subrange(0, n - start) =~= av);
    }
    r
}

impl Interp {
    /// Appends one line of diagnostic or printed text.
    fn emit(&mut self, msg: &Vec<char>)
        ensures
            final(self)@ == with_out(old(self)@, msg@),
            final(self)@.frames == old(self)@.frames,
            final(self)@.atoms == old(self)@.atoms,
    {
        let n: usize = msg.len();
        let mut k: usize = 0;
        while k < n
            invariant
                k <= n,
                n == msg@.len(),
                self.out@ == old(self).out@ + msg@.subrange(0, k as int),
                self.env == old(self).env,
                self.atoms == old(self).atoms,
                self.files == old(self).files,
            decreases n - k,
        {
            self.out.push(msg[k]);
            assert(self.out@ =~= old(self).out@ + msg@.subrange(0, k + 1 as int));
            k = k + 1;
        }
        self.out.push('\n');
        proof {
            assert(self.out@ =~= old(self).out@ + msg@ + seq!['\n']);
            assert(self@ =~= with_out(old(self)@, msg@));
        }
    }

    /// Appends one line made of two pieces of text.
    fn emit2(&mut self, a: &Vec<char>, b: &Vec<char>)
        ensures
            final(self)@ == with_out(old(self)@, a@ + b@),
            final(self)@.frames == old(self)@.frames,
            final(self)@.atoms == old(self)@.atoms,
    {
        let mut m = crate::types::chars_clone(a);
        crate::types::let_append(&mut m, b);
        self.emit(&m);
    }

    /// Evaluates `items[start..end]` left to right; the first failure aborts.
    #[verifier::loop_isolation(false)]
    fn eval_seq(
        &mut self,
        items: &Vec<crate::types::MalType>,
        start: usize,
        end: usize,
        env: usize,
        fuel: u64,
    ) -> (r: Option<Vec<crate::types::MalType>>)
        requires
            state_wf(old(self)@),
            env < old(self)@.frames.len(),
            start <= end <= items@.len(),
            fuel >= 1,
            forall|j: int|
                0 <= j < items@.len() ==> val_wf(
                    #[trigger] crate::types::view_seq(items@)[j],
                    old(self)@.frames.len() as int,
                    old(self)@.atoms.len() as int,
                ),
        ensures
            ({
                let vs = crate::types::view_seq(items@).subrange(start as int, end as int);
                let (st2, r2) = spec_eval_seq(old(self)@, vs, env as int, fuel as nat);
                &&& final(self)@ == st2
                &&& state_wf(final(self)@)
                &&& old(self)@.frames.len() <= final(self)@.frames.len()
                &&& old(self)@.atoms.len() <= final(self)@.atoms.len()
                &&& match r2 {
                    Some(outs) => r matches Some(rv) && crate::types::view_seq(rv@) == outs
                        && forall|j: int|
                        0 <= j < outs.len() ==> val_wf(
                            #[trigger] outs[j],
                            final(self)@.frames.len() as int,
                            final(self)@.atoms.len() as int,
                        ),
                    None => r is None,
                }
            }),
        decreases fuel, 2int, 0int,
    {
        proof {
            crate::types::lemma_view_seq_index(items@);
        }
        let ghost st0 = self@;
        let ghost vs_all = crate::types::view_seq(items@);
        let mut acc: Vec<crate::types::MalType> = Vec::new();
        let mut i: usize = start;
        proof {
            let o = spec_eval_seq(st0, vs_all.subrange(start as int, end as int), env as int, fuel as nat);
            if o.1 is Some {
                assert(crate::types::view_seq(acc@) + (o.1)->0 =~= (o.1)->0);
            }
        }
        loop
            invariant
                start <= i <= end <= items@.len(),
                fuel >= 1,
                env < self@.frames.len(),
                state_wf(self@),
                st0.frames.len() <= self@.frames.len(),
                st0.atoms.len() <= self@.atoms.len(),
                vs_all == crate::types::view_seq(items@),
                vs_all.len() == items@.len(),
                forall|j: int| 0 <= j < items@.len() ==> #[trigger] vs_all[j] == items@[j]@,
                forall|j: int|
                    0 <= j < items@.len() ==> val_wf(
                        #[trigger] vs_all[j],
                        self@.frames.len() as int,
                        self@.atoms.len() as int,
                    ),
                crate::types::view_seq(acc@).len() == acc@.len(),
                forall|j: int|
                    0 <= j < acc@.len() ==> val_wf(
                        #[trigger] crate::types::view_seq(acc@)[j],
                        self@.frames.len() as int,
                        self@.atoms.len() as int,
                    ),
                ({
                    let (st2, r2) = spec_eval_seq(
                        self@,
                        vs_all.subrange(i as int, end as int),
                        env as int,
                        fuel as nat,
                    );
                    let (sto, ro) = spec_eval_seq(
                        st0,
                        vs_all.subrange(start as int, end as int),
                        env as int,
                        fuel as nat,
                    );
                    &&& sto == st2
                    &&& ro == match r2 {
                        Some(rest) => Some(crate::types::view_seq(acc@) + rest),
                        None => None,
                    }
                }),
            decreases end - i,
        {
            if i >= end {
                proof {
                    assert(vs_all.subrange(i as int, end as int) =~= Seq::<SpecVal>::empty());
                    assert(crate::types::view_seq(acc@) + Seq::<SpecVal>::empty()
                        =~= crate::types::view_seq(acc@));
                }
                return Some(acc);
            }
            let ghost pre = self@;
            let ghost sub = vs_all.subrange(i as int, end as int);
            proof {
                assert(sub[0] == vs_all[i as int]);
                assert(sub.skip(1) =~= vs_all.subrange(i + 1, end as int));
            }
            let rv = self.eval(&items[i], env, fuel - 1);
            match rv {
                Some(v) => {
                    let ghost vv = v@;
                    proof {
                        assert(crate::types::view_seq(acc@.push(v)) =~= crate::types::view_seq(
                            acc@,
                        ).push(vv)) by {
                            crate::types::lemma_view_seq_index(acc@.push(v));
                            crate::types::lemma_view_seq_index(acc@);
                        }
                        let o = spec_eval_seq(
                            self@,
                            vs_all.subrange(i + 1, end as int),
                            env as int,
                            fuel as nat,
                        );
                        if o.1 is Some {
                            assert(crate::types::view_seq(acc@) + (seq![vv] + (o.1)->0)
                                =~= (crate::types::view_seq(acc@).push(vv)) + (o.1)->0);
                        }
                        // the untouched element views stay well formed
                        assert forall|j: int| 0 <= j < items@.len() implies val_wf(
                            #[trigger] vs_all[j],
                            self@.frames.len() as int,
                            self@.atoms.len() as int,
                        ) by {
                            crate::types::lemma_val_wf_mono(
                                vs_all[j],
                                pre.frames.len() as int,
                                pre.atoms.len() as int,
                                self@.frames.len() as int,
                                self@.atoms.len() as int,
                            );
                        }
                        assert forall|j: int| 0 <= j < acc@.len() implies val_wf(
                            #[trigger] crate::types::view_seq(acc@)[j],
                            self@.frames.len() as int,
                            self@.atoms.len() as int,
                        ) by {
                            crate::types::lemma_val_wf_mono(
                                crate::types::view_seq(acc@)[j],
                                pre.frames.len() as int,
                                pre.atoms.len() as int,
                                self@.frames.len() as int,
                                self@.atoms.len() as int,
                            );
                        }
                    }
                    acc.push(v);
                    i = i + 1;
                },
                None => {
                    return None;
                },
            }
        }
    }

    /// Evaluates the values of a hash-map literal; keys stay as written.
    #[verifier::loop_isolation(false)]
    fn eval_kvs(
        &mut self,
        kvs: &Vec<(crate::types::MalType, crate::types::MalType)>,
        env: usize,
        fuel: u64,
    ) -> (r: Option<Vec<(crate::types::MalType, crate::types::MalType)>>)
        requires
            state_wf(old(self)@),
            env < old(self)@.frames.len(),
            fuel >= 1,
            forall|j: int|
                0 <= j < kvs@.len() ==> val_wf(
                    #[trigger] crate::types::view_kvs(kvs@)[j].0,
                    old(self)@.frames.len() as int,
                    old(self)@.atoms.len() as int,
                ) && val_wf(
                    crate::types::view_kvs(kvs@)[j].1,
                    old(self)@.frames.len() as int,
                    old(self)@.atoms.len() as int,
                ),
        ensures
            ({
                let (st2, r2) = spec_eval_kvs(
                    old(self)@,
                    crate::types::view_kvs(kvs@),
                    env as int,
                    fuel as nat,
                );
                &&& final(self)@ == st2
                &&& state_wf(final(self)@)
                &&& old(self)@.frames.len() <= final(self)@.frames.len()
                &&& old(self)@.atoms.len() <= final(self)@.atoms.len()
                &&& match r2 {
                    Some(outs) => r matches Some(rv) && crate::types::view_kvs(rv@) == outs
                        && forall|j: int|
                        0 <= j < outs.len() ==> val_wf(
                            #[trigger] outs[j].0,
                            final(self)@.frames.len() as int,
                            final(self)@.atoms.len() as int,
                        ) && val_wf(
                            outs[j].1,
                            final(self)@.frames.len() as int,
                            final(self)@.atoms.len() as int,
                        ),
                    None => r is None,
                }
            }),
        decreases fuel, 2int, 0int,
    {
        proof {
            crate::types::lemma_view_kvs_index(kvs@);
        }
        let ghost st0 = self@;
        let ghost vs_all = crate::types::view_kvs(kvs@);
        let n: usize = kvs.len();
        let mut acc: Vec<(crate::types::MalType, crate::types::MalType)> = Vec::new();
        let mut i: usize = 0;
        proof {
            assert(vs_all.skip(0) =~= vs_all);
            let o = spec_eval_kvs(st0, vs_all, env as int, fuel as nat);
            if o.1 is Some {
                assert(crate::types::view_kvs(acc@) + (o.1)->0 =~= (o.1)->0);
            }
        }
        loop
            invariant
                i <= n,
                n == kvs@.len(),
                fuel >= 1,
                env < self@.frames.len(),
                state_wf(self@),
                st0.frames.len() <= self@.frames.len(),
                st0.atoms.len() <= self@.atoms.len(),
                vs_all == crate::types::view_kvs(kvs@),
                vs_all.len() == n,
                forall|j: int|
                    0 <= j < n ==> #[trigger] vs_all[j] == (kvs@[j].0@, kvs@[j].1@),
                forall|j: int|
                    0 <= j < n ==> val_wf(
                        #[trigger] vs_all[j].0,
                        self@.frames.len() as int,
                        self@.atoms.len() as int,
                    ) && val_wf(
                        vs_all[j].1,
                        self@.frames.len() as int,
                        self@.atoms.len() as int,
                    ),
                crate::types::view_kvs(acc@).len() == acc@.len(),
                forall|j: int|
                    0 <= j < acc@.len() ==> val_wf(
                        #[trigger] crate::types::view_kvs(acc@)[j].0,
                        self@.frames.len() as int,
                        self@.atoms.len() as int,
                    ) && val_wf(
                        crate::types::view_kvs(acc@)[j].1,
                        self@.frames.len() as int,
                        self@.atoms.len() as int,
                    ),
                ({
                    let (st2, r2) = spec_eval_kvs(
                        self@,
                        vs_all.skip(i as int),
                        env as int,
                        fuel as nat,
                    );
                    let (sto, ro) = spec_eval_kvs(st0, vs_all, env as int, fuel as nat);
                    &&& sto == st2
                    &&& ro == match r2 {
                        Some(rest) => Some(crate::types::view_kvs(acc@) + rest),
                        None => None,
                    }
                }),
            decreases n - i,
        {
            if i >= n {
                proof {
                    assert(vs_all.skip(i as int) =~= Seq::<(SpecVal, SpecVal)>::empty());
                    assert(crate::types::view_kvs(acc@) + Seq::<(SpecVal, SpecVal)>::empty()
                        =~= crate::types::view_kvs(acc@));
                }
                return Some(acc);
            }
            let ghost pre = self@;
            proof {
                assert(vs_all.skip(i as int)[0] == vs_all[i as int]);
                assert(vs_all.skip(i as int).skip(1) =~= vs_all.skip(i + 1));
            }
            let rv = self.eval(&kvs[i].1, env, fuel - 1);
            match rv {
                Some(v) => {
                    let kc = kvs[i].0.mal_clone();
                    let ghost kvv = (kc@, v@);
                    proof {
                        assert(crate::types::view_kvs(acc@.push((kc, v)))
                            =~= crate::types::view_kvs(acc@).push(kvv)) by {
                            crate::types::lemma_view_kvs_index(acc@.push((kc, v)));
                            crate::types::lemma_view_kvs_index(acc@);
                        }
                        let o = spec_eval_kvs(self@, vs_all.skip(i + 1), env as int, fuel as nat);
                        if o.1 is Some {
                            assert(crate::types::view_kvs(acc@) + (seq![kvv] + (o.1)->0)
                                =~= (crate::types::view_kvs(acc@).push(kvv)) + (o.1)->0);
                        }
                        assert forall|j: int| 0 <= j < n implies val_wf(
                            #[trigger] vs_all[j].0,
                            self@.frames.len() as int,
                            self@.atoms.len() as int,
                        ) && val_wf(
                            vs_all[j].1,
                            self@.frames.len() as int,
                            self@.atoms.len() as int,
                        ) by {
                            crate::types::lemma_val_wf_mono(
                                vs_all[j].0,
                                pre.frames.len() as int,
                                pre.atoms.len() as int,
                                self@.frames.len() as int,
                                self@.atoms.len() as int,
                            );
                            crate::types::lemma_val_wf_mono(
                                vs_all[j].1,
                                pre.frames.len() as int,
                                pre.atoms.len() as int,
                                self@.frames.len() as int,
                                self@.atoms.len() as int,
                            );
                        }
                        assert forall|j: int| 0 <= j < acc@.len() implies val_wf(
                            #[trigger] crate::types::view_kvs(acc@)[j].0,
                            self@.frames.len() as int,
                            self@.atoms.len() as int,
                        ) && val_wf(
                            crate::types::view_kvs(acc@)[j].1,
                            self@.frames.len() as int,
                            self@.atoms.len() as int,
                        ) by {
                            crate::types::lemma_val_wf_mono(
                                crate::types::view_kvs(acc@)[j].0,
                                pre.frames.len() as int,
                                pre.atoms.len() as int,
                                self@.frames.len() as int,
                                self@.atoms.len() as int,
                            );
                            crate::types::lemma_val_wf_mono(
                                crate::types::view_kvs(acc@)[j].1,
                                pre.frames.len() as int,
                                pre.atoms.len() as int,
                                self@.frames.len() as int,
                                self@.atoms.len() as int,
                            );
                        }
                    }
                    acc.push((kc, v));
                    i = i + 1;
                },
                None => {
                    return None;
                },
            }
        }
    }

    /// Evaluation of anything but a non-empty list form.
    fn eval_ast(&mut self, ast: &crate::types::MalType, env: usize, fuel: u64) -> (r: Option<
        crate::types::MalType,
    >)
        requires
            state_wf(old(self)@),
            env < old(self)@.frames.len(),
            fuel >= 1,
            val_wf(ast@, old(self)@.frames.len() as int, old(self)@.atoms.len() as int),
        ensures
            ({
                let (st2, r2) = spec_eval_ast(old(self)@, ast@, env as int, fuel as nat);
                &&& final(self)@ == st2
                &&& state_wf(final(self)@)
                &&& old(self)@.frames.len() <= final(self)@.frames.len()
                &&& old(self)@.atoms.len() <= final(self)@.atoms.len()
                &&& opt_view(r) == r2
                &&& (r matches Some(v) ==> val_wf(
                    v@,
                    final(self)@.frames.len() as int,
                    final(self)@.atoms.len() as int,
                ))
            }),
        decreases fuel, 3int, 0int,
    {
        match ast {
            crate::types::MalType::Symbol(name) => {
                proof {
                    lemma_env_lookup_wf(self@, env as int, name@);
                }
                match self.env.get(env, name) {
                    Some(v) => Some(v),
                    None => {
                        let suffix = crate::types::str_to_chars(" not found");
                        self.emit2(name, &suffix);
                        None
                    },
                }
            },
            crate::types::MalType::List(items) => {
                proof {
                    crate::types::lemma_view_seq_index(items@);
                    assert(crate::types::view_seq(items@).subrange(
                        0,
                        items@.len() as int,
                    ) =~= crate::types::view_seq(items@));
                }
                match self.eval_seq(items, 0, items.len(), env, fuel) {
                    Some(vals) => {
                        let out = crate::types::MalType::List(vals);
                        proof {
                            assert(val_wf(
                                out@,
                                self@.frames.len() as int,
                                self@.atoms.len() as int,
                            ));
                        }
                        Some(out)
                    },
                    None => None,
                }
            },
            crate::types::MalType::Vector(items) => {
                proof {
                    crate::types::lemma_view_seq_index(items@);
                    assert(crate::types::view_seq(items@).subrange(
                        0,
                        items@.len() as int,
                    ) =~= crate::types::view_seq(items@));
                }
                match self.eval_seq(items, 0, items.len(), env, fuel) {
                    Some(vals) => {
                        let out = crate::types::MalType::Vector(vals);
                        proof {
                            assert(val_wf(
                                out@,
                                self@.frames.len() as int,
                                self@.atoms.len() as int,
                            ));
                        }
                        Some(out)
                    },
                    None => None,
                }
            },
            crate::types::MalType::HashMap(kvs) => {
                proof {
                    crate::types::lemma_view_kvs_index(kvs@);
                    assert(ast@ == SpecVal::HashMap(crate::types::view_kvs(kvs@)));
                    assert(val_wf(
                        SpecVal::HashMap(crate::types::view_kvs(kvs@)),
                        self@.frames.len() as int,
                        self@.atoms.len() as int,
                    ));
                    assert forall|j: int| 0 <= j < kvs@.len() implies val_wf(
                        #[trigger] crate::types::view_kvs(kvs@)[j].0,
                        self@.frames.len() as int,
                        self@.atoms.len() as int,
                    ) && val_wf(
                        crate::types::view_kvs(kvs@)[j].1,
                        self@.frames.len() as int,
                        self@.atoms.len() as int,
                    ) by {}
                }
                match self.eval_kvs(kvs, env, fuel) {
                    Some(pairs) => {
                        let out = crate::types::MalType::HashMap(pairs);
                        proof {
                            assert(val_wf(
                                out@,
                                self@.frames.len() as int,
                                self@.atoms.len() as int,
                            ));
                        }
                        Some(out)
                    },
                    None => None,
                }
            },
            _ => Some(ast.mal_clone()),
        }
    }

    /// `(def! sym expr)`.
    fn eval_def(&mut self, items: &Vec<crate::types::MalType>, env: usize, fuel: u64) -> (r:
        Option<crate::types::MalType>)
        requires
            state_wf(old(self)@),
            env < old(self)@.frames.len(),
            fuel >= 1,
            forall|j: int|
                0 <= j < items@.len() ==> val_wf(
                    #[trigger] crate::types::view_seq(items@)[j],
                    old(self)@.frames.len() as int,
                    old(self)@.atoms.len() as int,
                ),
        ensures
            ({
                let (st2, r2) = spec_eval_def(
                    old(self)@,
                    crate::types::view_seq(items@),
                    env as int,
                    fuel as nat,
                );
                &&& final(self)@ == st2
                &&& state_wf(final(self)@)
                &&& old(self)@.frames.len() <= final(self)@.frames.len()
                &&& old(self)@.atoms.len() <= final(self)@.atoms.len()
                &&& opt_view(r) == r2
                &&& (r matches Some(v) ==> val_wf(
                    v@,
                    final(self)@.frames.len() as int,
                    final(self)@.atoms.len() as int,
                ))
            }),
        decreases fuel, 3int, 0int,
    {
        proof {
            crate::types::lemma_view_seq_index(items@);
        }
        if items.len() != 3 {
            self.emit_lit("Wrong amount of arguments for def!");
            return None;
        }
        match &items[1] {
            crate::types::MalType::Symbol(name) => {
                proof {
                    crate::types::lemma_view_symbol(items@[1]);
                    assert(crate::types::view_seq(items@)[1] == SpecVal::Symbol(name@));
                }
                let rv = self.eval(&items[2], env, fuel - 1);
                match rv {
                    Some(val) => {
                        let stored = val.mal_clone();
                        proof {
                            lemma_wf_set_entry(self@, env as int, name@, val@);
                        }
                        self.env.set(env, name, stored);
                        proof {
                            assert(self@ =~~= set_entry(
                                spec_eval(
                                    old(self)@,
                                    crate::types::view_seq(items@)[2],
                                    env as int,
                                    (fuel - 1) as nat,
                                ).0,
                                env as int,
                                name@,
                                val@,
                            ));
                        }
                        Some(val)
                    },
                    None => None,
                }
            },
            _ => {
                proof {
                    crate::types::lemma_view_symbol(items@[1]);
                    crate::types::lemma_view_seq_index(self.atoms@);
                }
                let p = crate::printer::print_str(&items[1], true, true, &self.atoms);
                let suffix = crate::types::str_to_chars(" is not a symbol");
                proof {
                    assert(p@ == crate::printer::spec_print_debug(
                        crate::types::view_seq(items@)[1],
                        true,
                        self@.atoms,
                        self@.atoms.len(),
                    ));
                }
                self.emit2(&p, &suffix);
                proof {
                    assert(self@ == with_out(
                        old(self)@,
                        crate::printer::spec_print_debug(
                            crate::types::view_seq(items@)[1],
                            true,
                            old(self)@.atoms,
                            old(self)@.atoms.len(),
                        ) + " is not a symbol"@,
                    ));
                }
                None
            },
        }
    }

    /// `(let* bindings body)`: returns the body and the child frame for the
    /// trampoline; a malformed binding list is a failure.
    #[verifier::loop_isolation(false)]
    fn eval_let(&mut self, items: &Vec<crate::types::MalType>, env: usize, fuel: u64) -> (r:
        Option<(crate::types::MalType, usize)>)
        requires
            state_wf(old(self)@),
            env < old(self)@.frames.len(),
            fuel >= 1,
            forall|j: int|
                0 <= j < items@.len() ==> val_wf(
                    #[trigger] crate::types::view_seq(items@)[j],
                    old(self)@.frames.len() as int,
                    old(self)@.atoms.len() as int,
                ),
        ensures
            ({
                let (st2, r2) = spec_eval_let(
                    old(self)@,
                    crate::types::view_seq(items@),
                    env as int,
                    fuel as nat,
                );
                &&& final(self)@ == st2
                &&& state_wf(final(self)@)
                &&& old(self)@.frames.len() <= final(self)@.frames.len()
                &&& old(self)@.atoms.len() <= final(self)@.atoms.len()
                &&& match r {
                    Some(p) => r2 == Some((p.0@, p.1 as int)) && p.1 < final(self)@.frames.len()
                        && val_wf(
                        p.0@,
                        final(self)@.frames.len() as int,
                        final(self)@.atoms.len() as int,
                    ),
                    None => r2 is None,
                }
            }),
        decreases fuel, 3int, 0int,
    {
        proof {
            crate::types::lemma_view_seq_index(items@);
        }
        let ghost itemsv = crate::types::view_seq(items@);
        if items.len() != 3 {
            self.emit_lit("Wrong amount of arguments for let*");
            return None;
        }
        let bl: &Vec<crate::types::MalType> = match &items[1] {
            crate::types::MalType::List(b) => {
                proof {
                    assert(itemsv[1] == SpecVal::List(crate::types::view_seq(b@)));
                }
                b
            },
            crate::types::MalType::Vector(b) => {
                proof {
                    assert(itemsv[1] == SpecVal::Vector(crate::types::view_seq(b@)));
                }
                b
            },
            _ => {
                self.emit_lit("Wrong bind format");
                return None;
            },
        };
        proof {
            crate::types::lemma_view_seq_index(bl@);
        }
        let ghost blv = crate::types::view_seq(bl@);
        let n: usize = bl.len();
        if n % 2 != 0 {
            self.emit_lit("Wrong amount of arguments for bind of let*");
            return None;
        }
        let ghost st_before_frame = self@;
        let new_env = self.env.new(env);
        proof {
            lemma_wf_push_frame(st_before_frame, env as int, Seq::empty());
            assert(self@ =~~= push_frame(st_before_frame, env as int));
        }
        let m: usize = n / 2;
        let mut k: usize = 0;
        proof {
            assert forall|j: int| 0 <= j < n implies val_wf(
                #[trigger] blv[j],
                self@.frames.len() as int,
                self@.atoms.len() as int,
            ) by {
                assert(val_wf(
                    itemsv[1],
                    old(self)@.frames.len() as int,
                    old(self)@.atoms.len() as int,
                ));
                crate::types::lemma_val_wf_mono(
                    blv[j],
                    old(self)@.frames.len() as int,
                    old(self)@.atoms.len() as int,
                    self@.frames.len() as int,
                    self@.atoms.len() as int,
                );
            }
        }
        let ghost st_binds = self@;
        loop
            invariant
                k <= m,
                m == n / 2,
                n == bl@.len(),
                fuel >= 1,
                state_wf(self@),
                new_env < self@.frames.len(),
                st_binds.frames.len() <= self@.frames.len(),
                st_binds.atoms.len() <= self@.atoms.len(),
                blv == crate::types::view_seq(bl@),
                blv.len() == n,
                forall|j: int| 0 <= j < n ==> #[trigger] blv[j] == bl@[j]@,
                forall|j: int|
                    0 <= j < n ==> val_wf(
                        #[trigger] blv[j],
                        self@.frames.len() as int,
                        self@.atoms.len() as int,
                    ),
                spec_eval_binds(st_binds, blv, 0, new_env as int, fuel as nat) == spec_eval_binds(
                    self@,
                    blv,
                    2 * k,
                    new_env as int,
                    fuel as nat,
                ),
            decreases m - k,
        {
            if k >= m {
                break ;
            }
            let i: usize = 2 * k;
            let ghost pre = self@;
            proof {
                crate::types::lemma_view_symbol(bl@[i as int]);
            }
            match &bl[i] {
                crate::types::MalType::Symbol(name) => {
                    proof {
                        assert(blv[i as int] == SpecVal::Symbol(name@));
                    }
                    let rv = self.eval(&bl[i + 1], new_env, fuel - 1);
                    match rv {
                        Some(val) => {
                            let stored = val.mal_clone();
                            proof {
                                lemma_wf_set_entry(self@, new_env as int, name@, val@);
                            }
                            let ghost st_mid = self@;
                            self.env.set(new_env, name, stored);
                            proof {
                                assert(self@ =~~= set_entry(st_mid, new_env as int, name@, val@));
                                assert forall|j: int| 0 <= j < n implies val_wf(
                                    #[trigger] blv[j],
                                    self@.frames.len() as int,
                                    self@.atoms.len() as int,
                                ) by {
                                    crate::types::lemma_val_wf_mono(
                                        blv[j],
                                        pre.frames.len() as int,
                                        pre.atoms.len() as int,
                                        self@.frames.len() as int,
                                        self@.atoms.len() as int,
                                    );
                                }
                            }
                            k = k + 1;
                        },
                        None => {
                            return None;
                        },
                    }
                },
                _ => {
                    proof {
                        crate::types::lemma_view_seq_index(self.atoms@);
                    }
                    let p = crate::printer::print_str(&bl[i], true, true, &self.atoms);
                    let suffix = crate::types::str_to_chars(" is not a symbol");
                    self.emit2(&p, &suffix);
                    return None;
                },
            }
        }
        proof {
            assert(spec_eval_binds(self@, blv, 2 * k as int, new_env as int, fuel as nat) == (
                self@,
                true,
            ));
            crate::types::lemma_val_wf_mono(
                itemsv[2],
                old(self)@.frames.len() as int,
                old(self)@.atoms.len() as int,
                self@.frames.len() as int,
                self@.atoms.len() as int,
            );
        }
        Some((items[2].mal_clone(), new_env))
    }

    /// `(fn* params body)`.
    #[verifier::loop_isolation(false)]
    fn eval_fn(&mut self, items: &Vec<crate::types::MalType>, env: usize) -> (r: Option<
        crate::types::MalType,
    >)
        requires
            state_wf(old(self)@),
            env < old(self)@.frames.len(),
            forall|j: int|
                0 <= j < items@.len() ==> val_wf(
                    #[trigger] crate::types::view_seq(items@)[j],
                    old(self)@.frames.len() as int,
                    old(self)@.atoms.len() as int,
                ),
        ensures
            ({
                let (st2, r2) = spec_eval_fn(old(self)@, crate::types::view_seq(items@), env as int);
                &&& final(self)@ == st2
                &&& state_wf(final(self)@)
                &&& old(self)@.frames.len() <= final(self)@.frames.len()
                &&& old(self)@.atoms.len() <= final(self)@.atoms.len()
                &&& opt_view(r) == r2
                &&& (r matches Some(v) ==> val_wf(
                    v@,
                    final(self)@.frames.len() as int,
                    final(self)@.atoms.len() as int,
                ))
            }),
    {
        proof {
            crate::types::lemma_view_seq_index(items@);
        }
        if items.len() != 3 {
            self.emit_lit("Wrong amount of arguments for fn*");
            return None;
        }
        let bl: &Vec<crate::types::MalType> = match &items[1] {
            crate::types::MalType::List(b) => {
                proof {
                    assert(crate::types::view_seq(items@)[1] == SpecVal::List(
                        crate::types::view_seq(b@),
                    ));
                }
                b
            },
            crate::types::MalType::Vector(b) => {
                proof {
                    assert(crate::types::view_seq(items@)[1] == SpecVal::Vector(
                        crate::types::view_seq(b@),
                    ));
                }
                b
            },
            _ => {
                return None;
            },
        };
        proof {
            crate::types::lemma_view_seq_index(bl@);
        }
        let ghost blv = crate::types::view_seq(bl@);
        let ghost st_in = self@;
        let n: usize = bl.len();
        let mut params: Vec<Vec<char>> = Vec::new();
        let mut i: usize = 0;
        while i < n
            invariant
                self@ == st_in,
                i <= n,
                n == bl@.len(),
                blv == crate::types::view_seq(bl@),
                blv.len() == n,
                forall|j: int| 0 <= j < n ==> #[trigger] blv[j] == bl@[j]@,
                forall|j: int| 0 <= j < i ==> blv[j] is Symbol,
                params@.len() == i,
                forall|j: int| 0 <= j < i ==> #[trigger] params@[j]@ == blv[j]->Symbol_0,
            decreases n - i,
        {
            proof {
                crate::types::lemma_view_symbol(bl@[i as int]);
            }
            match &bl[i] {
                crate::types::MalType::Symbol(name) => {
                    params.push(crate::types::chars_clone(name));
                    i = i + 1;
                },
                _ => {
                    proof {
                        lemma_first_non_symbol_skip(blv, i as int);
                        assert(first_non_symbol(blv, 0) == i as int);
                        crate::types::lemma_view_seq_index(self.atoms@);
                    }
                    let p = crate::printer::print_str(&bl[i], true, true, &self.atoms);
                    let suffix = crate::types::str_to_chars(" is not a symbol");
                    self.emit2(&p, &suffix);
                    return None;
                },
            }
        }
        proof {
            lemma_first_non_symbol_skip(blv, n as int);
            assert(crate::types::params_view(params@) =~= symbol_names(blv));
        }
        let body = items[2].mal_clone();
        let out = crate::types::MalType::Func(
            crate::types::ClosureType { ast: Box::new(body), params: params, env: env },
        );
        proof {
            assert(out@ == spec_eval_fn(self@, crate::types::view_seq(items@), env as int).1->0);
            assert(val_wf(
                crate::types::view_seq(items@)[2],
                self@.frames.len() as int,
                self@.atoms.len() as int,
            ));
            assert(val_wf(out@, self@.frames.len() as int, self@.atoms.len() as int));
        }
        Some(out)
    }

    /// `(if cond then else?)`: returns the branch for the trampoline.
    fn eval_if(&mut self, items: &Vec<crate::types::MalType>, env: usize, fuel: u64) -> (r: Option<
        crate::types::MalType,
    >)
        requires
            state_wf(old(self)@),
            env < old(self)@.frames.len(),
            fuel >= 1,
            forall|j: int|
                0 <= j < items@.len() ==> val_wf(
                    #[trigger] crate::types::view_seq(items@)[j],
                    old(self)@.frames.len() as int,
                    old(self)@.atoms.len() as int,
                ),
        ensures
            ({
                let (st2, r2) = spec_eval_if(
                    old(self)@,
                    crate::types::view_seq(items@),
                    env as int,
                    fuel as nat,
                );
                &&& final(self)@ == st2
                &&& state_wf(final(self)@)
                &&& old(self)@.frames.len() <= final(self)@.frames.len()
                &&& old(self)@.atoms.len() <= final(self)@.atoms.len()
                &&& opt_view(r) == r2
                &&& (r matches Some(v) ==> val_wf(
                    v@,
                    final(self)@.frames.len() as int,
                    final(self)@.atoms.len() as int,
                ))
            }),
        decreases fuel, 3int, 0int,
    {
        proof {
            crate::types::lemma_view_seq_index(items@);
        }
        if items.len() <= 2 {
            self.emit_lit("Wrong amount of arguments for if");
            return None;
        }
        let ghost pre = self@;
        let rv = self.eval(&items[1], env, fuel - 1);
        match rv {
            Some(v) => {
                let falsy = match &v {
                    crate::types::MalType::Bool(b) => !*b,
                    crate::types::MalType::Nil => true,
                    _ => false,
                };
                proof {
                    assert(falsy == (v@ == SpecVal::Bool(false) || v@ == SpecVal::Nil));
                    assert forall|j: int| 0 <= j < items@.len() implies val_wf(
                        #[trigger] crate::types::view_seq(items@)[j],
                        self@.frames.len() as int,
                        self@.atoms.len() as int,
                    ) by {
                        crate::types::lemma_val_wf_mono(
                            crate::types::view_seq(items@)[j],
                            pre.frames.len() as int,
                            pre.atoms.len() as int,
                            self@.frames.len() as int,
                            self@.atoms.len() as int,
                        );
                    }
                }
                if falsy {
                    if items.len() >= 4 {
                        Some(items[3].mal_clone())
                    } else {
                        Some(crate::types::MalType::Nil)
                    }
                } else {
                    Some(items[2].mal_clone())
                }
            },
            None => None,
        }
    }

    /// A function value applied to arguments outside tail position.
    fn apply(
        &mut self,
        f: &crate::types::MalType,
        args: &Vec<crate::types::MalType>,
        fuel: u64,
    ) -> (r: Option<crate::types::MalType>)
        requires
            state_wf(old(self)@),
            fuel >= 1,
            val_wf(f@, old(self)@.frames.len() as int, old(self)@.atoms.len() as int),
            forall|j: int|
                0 <= j < args@.len() ==> val_wf(
                    #[trigger] crate::types::view_seq(args@)[j],
                    old(self)@.frames.len() as int,
                    old(self)@.atoms.len() as int,
                ),
        ensures
            ({
                let (st2, r2) = spec_apply(
                    old(self)@,
                    f@,
                    crate::types::view_seq(args@),
                    fuel as nat,
                );
                &&& final(self)@ == st2
                &&& state_wf(final(self)@)
                &&& old(self)@.frames.len() <= final(self)@.frames.len()
                &&& old(self)@.atoms.len() <= final(self)@.atoms.len()
                &&& opt_view(r) == r2
                &&& (r matches Some(v) ==> val_wf(
                    v@,
                    final(self)@.frames.len() as int,
                    final(self)@.atoms.len() as int,
                ))
            }),
        decreases fuel, 0int, 0int,
    {
        proof {
            crate::types::lemma_view_seq_index(args@);
        }
        match f {
            crate::types::MalType::BuiltinFunc(b) => {
                proof {
                    assert(crate::types::view_seq(args@).skip(0) =~= crate::types::view_seq(
                        args@,
                    ));
                }
                self.apply_builtin(*b, args, 0, fuel - 1)
            },
            crate::types::MalType::Func(c) => {
                proof {
                    let sc = f@->Func_0;
                    assert(val_wf(*sc.ast, self@.frames.len() as int, self@.atoms.len() as int));
                }
                let entries = bind_entries(&c.params, args, 0);
                let ghost st1 = self@;
                proof {
                    assert(crate::types::view_seq(args@).skip(0) =~= crate::types::view_seq(
                        args@,
                    ));
                    lemma_bind_wf(
                        crate::types::params_view(c.params@),
                        crate::types::view_seq(args@),
                        0,
                        self@.frames.len() as int,
                        self@.atoms.len() as int,
                    );
                    lemma_wf_push_frame(self@, c.env as int, entries_view(entries@));
                }
                let new_env = self.env.new_with(c.env, entries);
                proof {
                    assert(self@ =~~= SpecState {
                        frames: st1.frames.push(
                            SpecFrame {
                                entries: spec_bind(
                                    crate::types::params_view(c.params@),
                                    crate::types::view_seq(args@),
                                    0,
                                ),
                                outer: Some(c.env as int),
                            },
                        ),
                        ..st1
                    });
                }
                let body = c.ast.mal_clone();
                proof {
                    let sc = f@->Func_0;
                    assert(body@ == *sc.ast);
                    crate::types::lemma_val_wf_mono(
                        *sc.ast,
                        st1.frames.len() as int,
                        st1.atoms.len() as int,
                        self@.frames.len() as int,
                        self@.atoms.len() as int,
                    );
                }
                self.eval(&body, new_env, fuel - 1)
            },
            _ => None,
        }
    }

    /// `eval`: the heart of the interpreter, a trampoline whose tail steps
    /// rewrite the current form, environment and fuel and continue the loop.
    #[verifier::loop_isolation(false)]
    #[verifier::rlimit(100)]
    #[verifier::spinoff_prover]
    pub fn eval(&mut self, ast: &crate::types::MalType, env: usize, fuel: u64) -> (r: Option<
        crate::types::MalType,
    >)
        requires
            state_wf(old(self)@),
            env < old(self)@.frames.len(),
            val_wf(ast@, old(self)@.frames.len() as int, old(self)@.atoms.len() as int),
        ensures
            ({
                let (st2, r2) = spec_eval(old(self)@, ast@, env as int, fuel as nat);
                &&& final(self)@ == st2
                &&& state_wf(final(self)@)
                &&& old(self)@.frames.len() <= final(self)@.frames.len()
                &&& old(self)@.atoms.len() <= final(self)@.atoms.len()
                &&& opt_view(r) == r2
                &&& (r matches Some(v) ==> val_wf(
                    v@,
                    final(self)@.frames.len() as int,
                    final(self)@.atoms.len() as int,
                ))
            }),
        decreases fuel, 4int, 0int,
    {
        let ghost st0 = self@;
        let ghost ast0 = ast@;
        let mut cur_ast: crate::types::MalType = ast.mal_clone();
        let mut cur_env: usize = env;
        let mut cur_fuel: u64 = fuel;
        loop
            invariant
                state_wf(self@),
                cur_env < self@.frames.len(),
                cur_fuel <= fuel,
                st0.frames.len() <= self@.frames.len(),
                st0.atoms.len() <= self@.atoms.len(),
                val_wf(cur_ast@, self@.frames.len() as int, self@.atoms.len() as int),
                spec_eval(st0, ast0, env as int, fuel as nat) == spec_eval(
                    self@,
                    cur_ast@,
                    cur_env as int,
                    cur_fuel as nat,
                ),
            decreases cur_fuel,
        {
            if cur_fuel == 0 {
                return None;
            }
            let ghost pre = self@;
            match &cur_ast {
                crate::types::MalType::List(items) => {
                    proof {
                        crate::types::lemma_view_seq_index(items@);
                    }
                    let ghost itemsv = crate::types::view_seq(items@);
                    let n: usize = items.len();
                    if n == 0 {
                        return Some(cur_ast.mal_clone());
                    }
                    let mut special: usize = 0;
                    match &items[0] {
                        crate::types::MalType::Symbol(hname) => {
                            if crate::types::chars_eq_str(hname, "def!") {
                                special = 1;
                            } else if crate::types::chars_eq_str(hname, "let*") {
                                special = 2;
                            } else if crate::types::chars_eq_str(hname, "fn*") {
                                special = 3;
                            } else if crate::types::chars_eq_str(hname, "if") {
                                special = 4;
                            } else if crate::types::chars_eq_str(hname, "do") {
                                special = 5;
                            }
                            proof {
                                crate::types::lemma_view_symbol(items@[0]);
                                reveal_strlit("def!");
                                reveal_strlit("let*");
                                reveal_strlit("fn*");
                                reveal_strlit("if");
                                reveal_strlit("do");
                                assert(itemsv[0] == SpecVal::Symbol(hname@));
                                assert(("def!"@).len() == 4 && ("let*"@).len() == 4 && (
                                "fn*"@).len() == 3 && ("if"@).len() == 2 && ("do"@).len() == 2);
                                assert("def!"@[0] == 'd' && "let*"@[0] == 'l' && "if"@[0] == 'i'
                                    && "do"@[0] == 'd');
                                assert("def!"@ != "let*"@);
                                assert("if"@ != "do"@);
                                assert((special == 1) == (itemsv[0] == SpecVal::Symbol("def!"@)));
                                assert((special == 2) == (itemsv[0] == SpecVal::Symbol("let*"@)));
                                assert((special == 3) == (itemsv[0] == SpecVal::Symbol("fn*"@)));
                                assert((special == 4) == (itemsv[0] == SpecVal::Symbol("if"@)));
                                assert((special == 5) == (itemsv[0] == SpecVal::Symbol("do"@)));
                            }
                        },
                        _ => {
                            proof {
                                crate::types::lemma_view_symbol(items@[0]);
                                assert(!(itemsv[0] is Symbol));
                                assert((special == 1) == (itemsv[0] == SpecVal::Symbol("def!"@)));
                                assert((special == 2) == (itemsv[0] == SpecVal::Symbol("let*"@)));
                                assert((special == 3) == (itemsv[0] == SpecVal::Symbol("fn*"@)));
                                assert((special == 4) == (itemsv[0] == SpecVal::Symbol("if"@)));
                                assert((special == 5) == (itemsv[0] == SpecVal::Symbol("do"@)));
                            }
                        },
                    }
                    if special == 1 {
                        return self.eval_def(items, cur_env, cur_fuel);
                    } else if special == 2 {
                        let lr = self.eval_let(items, cur_env, cur_fuel);
                        match lr {
                            Some(p) => {
                                cur_ast = p.0;
                                cur_env = p.1;
                                cur_fuel = cur_fuel - 1;
                            },
                            None => {
                                return None;
                            },
                        }
                    } else if special == 3 {
                        return self.eval_fn(items, cur_env);
                    } else if special == 4 {
                        let br = self.eval_if(items, cur_env, cur_fuel);
                        match br {
                            Some(b) => {
                                cur_ast = b;
                                cur_fuel = cur_fuel - 1;
                            },
                            None => {
                                return None;
                            },
                        }
                    } else if special == 5 {
                        if n <= 1 {
                            self.emit_lit("Wrong amount of arguments for do");
                            return None;
                        }
                        let leading = self.eval_seq(items, 1, n - 1, cur_env, cur_fuel);
                        match leading {
                            Some(ignored) => {},
                            None => {
                                return None;
                            },
                        }
                        let lastc = items[n - 1].mal_clone();
                        proof {
                            assert(itemsv.last() == itemsv[n - 1]);
                            assert forall|j: int| 0 <= j < itemsv.len() implies val_wf(
                                #[trigger] itemsv[j],
                                self@.frames.len() as int,
                                self@.atoms.len() as int,
                            ) by {
                                crate::types::lemma_val_wf_mono(
                                    itemsv[j],
                                    pre.frames.len() as int,
                                    pre.atoms.len() as int,
                                    self@.frames.len() as int,
                                    self@.atoms.len() as int,
                                );
                            }
                        }
                        cur_ast = lastc;
                        cur_fuel = cur_fuel - 1;
                    } else {
                        let ev = self.eval_ast(&cur_ast, cur_env, cur_fuel);
                        match ev {
                            Some(crate::types::MalType::List(evitems)) => {
                                proof {
                                    crate::types::lemma_view_seq_index(evitems@);
                                }
                                let ghost evv = crate::types::view_seq(evitems@);
                                if evitems.len() == 0 {
                                    return Some(crate::types::MalType::List(evitems));
                                }
                                match &evitems[0] {
                                    crate::types::MalType::BuiltinFunc(b) => {
                                        proof {
                                            assert(evv.skip(1) =~= crate::types::view_seq(
                                                evitems@,
                                            ).skip(1));
                                        }
                                        return self.apply_builtin(*b, &evitems, 1, cur_fuel - 1);
                                    },
                                    crate::types::MalType::Func(c) => {
                                        let entries = bind_entries(&c.params, &evitems, 1);
                                        let ghost st1 = self@;
                                        proof {
                                            assert(val_wf(
                                                SpecVal::List(evv),
                                                self@.frames.len() as int,
                                                self@.atoms.len() as int,
                                            ));
                                            assert forall|t: int|
                                                0 <= t < evv.skip(1).len() implies val_wf(
                                                #[trigger] evv.skip(1)[t],
                                                self@.frames.len() as int,
                                                self@.atoms.len() as int,
                                            ) by {
                                                assert(evv.skip(1)[t] == evv[t + 1]);
                                            }
                                            lemma_bind_wf(
                                                crate::types::params_view(c.params@),
                                                evv.skip(1),
                                                0,
                                                self@.frames.len() as int,
                                                self@.atoms.len() as int,
                                            );
                                            assert(val_wf(
                                                evv[0],
                                                self@.frames.len() as int,
                                                self@.atoms.len() as int,
                                            ));
                                            assert(evv[0] == crate::types::val_view(
                                                evitems@[0],
                                            ));
                                            assert(evv[0] is Func);
                                            let sc0 = evv[0]->Func_0;
                                            assert(0 <= sc0.env < self@.frames.len());
                                            assert(sc0.env == c.env as int);
                                            lemma_wf_push_frame(
                                                self@,
                                                c.env as int,
                                                entries_view(entries@),
                                            );
                                        }
                                        let body = c.ast.mal_clone();
                                        proof {
                                            let sc = evv[0]->Func_0;
                                            assert(val_wf(
                                                *sc.ast,
                                                self@.frames.len() as int,
                                                self@.atoms.len() as int,
                                            ));
                                            assert(body@ == *sc.ast);
                                        }
                                        let new_env = self.env.new_with(c.env, entries);
                                        proof {
                                            assert(self@ =~~= SpecState {
                                                frames: st1.frames.push(
                                                    SpecFrame {
                                                        entries: spec_bind(
                                                            crate::types::params_view(c.params@),
                                                            evv.skip(1),
                                                            0,
                                                        ),
                                                        outer: Some(c.env as int),
                                                    },
                                                ),
                                                ..st1
                                            });
                                            let sc = evv[0]->Func_0;
                                            crate::types::lemma_val_wf_mono(
                                                *sc.ast,
                                                st1.frames.len() as int,
                                                st1.atoms.len() as int,
                                                self@.frames.len() as int,
                                                self@.atoms.len() as int,
                                            );
                                        }
                                        cur_ast = body;
                                        cur_env = new_env;
                                        cur_fuel = cur_fuel - 1;
                                    },
                                    _ => {
                                        return Some(crate::types::MalType::List(evitems));
                                    },
                                }
                            },
                            Some(other) => {
                                return None;
                            },
                            None => {
                                return None;
                            },
                        }
                    }
                },
                _ => {
                    return self.eval_ast(&cur_ast, cur_env, cur_fuel);
                },
            }
        }
    }

    /// Two-argument integer arithmetic.
    fn do_arith(&mut self, b: Builtin, args: &Vec<crate::types::MalType>, start: usize) -> (r:
        Option<crate::types::MalType>)
        requires
            start <= args@.len(),
            matches!(b, Builtin::Add | Builtin::Sub | Builtin::Mul | Builtin::Div),
        ensures
            ({
                let (st2, r2) = spec_arith(
                    old(self)@,
                    b,
                    crate::types::view_seq(args@).skip(start as int),
                );
                &&& final(self)@ == st2
                &&& opt_view(r) == r2
                &&& final(self)@.frames == old(self)@.frames
                &&& final(self)@.atoms == old(self)@.atoms
            }),
    {
        proof {
            crate::types::lemma_view_seq_index(args@);
        }
        let ghost av = crate::types::view_seq(args@).skip(start as int);
        proof {
            assert(av.len() == args@.len() - start);
            assert(forall|j: int|
                0 <= j < av.len() ==> #[trigger] av[j] == crate::types::view_seq(args@)[start
                    + j]);
        }
        let name: &str = match b {
            Builtin::Add => "+",
            Builtin::Sub => "-",
            Builtin::Mul => "*",
            _ => "/",
        };
        if args.len() - start != 2 {
            let prefix = crate::types::str_to_chars("Wrong amount of arguments for ");
            let nm = crate::types::str_to_chars(name);
            self.emit2(&prefix, &nm);
            return None;
        }
        proof {
            crate::types::lemma_view_variants(args@[start as int]);
            crate::types::lemma_view_variants(args@[start + 1]);
        }
        let xy: Option<(i32, i32)> = match (&args[start], &args[start + 1]) {
            (crate::types::MalType::Int(x), crate::types::MalType::Int(y)) => Some((*x, *y)),
            _ => None,
        };
        let (x, y): (i32, i32) = match xy {
            Some(p) => p,
            None => {
                let prefix = crate::types::str_to_chars("Wrong type of arguments for ");
                let nm = crate::types::str_to_chars(name);
                self.emit2(&prefix, &nm);
                return None;
            },
        };
        proof {
            assert(av[0] == SpecVal::Int(x as int));
            assert(av[1] == SpecVal::Int(y as int));
        }
        let x64: i64 = x as i64;
        let y64: i64 = y as i64;
        match b {
            Builtin::Add => {
                let v = x64 + y64;
                if -0x8000_0000i64 <= v && v <= 0x7fff_ffffi64 {
                    Some(crate::types::MalType::Int(v as i32))
                } else {
                    let prefix = crate::types::str_to_chars("Integer overflow for ");
                    let nm = crate::types::str_to_chars(name);
                    self.emit2(&prefix, &nm);
                    None
                }
            },
            Builtin::Sub => {
                let v = x64 - y64;
                if -0x8000_0000i64 <= v && v <= 0x7fff_ffffi64 {
                    Some(crate::types::MalType::Int(v as i32))
                } else {
                    let prefix = crate::types::str_to_chars("Integer overflow for ");
                    let nm = crate::types::str_to_chars(name);
                    self.emit2(&prefix, &nm);
                    None
                }
            },
            Builtin::Mul => {
                proof {
                    assert(-0x4000_0000_0000_0000 <= x64 as int * y64 as int
                        <= 0x4000_0000_0000_0000) by (nonlinear_arith)
                        requires
                            -0x8000_0000 <= x64 as int <= 0x7fff_ffff,
                            -0x8000_0000 <= y64 as int <= 0x7fff_ffff,
                    ;
                }
                let v = x64 * y64;
                if -0x8000_0000i64 <= v && v <= 0x7fff_ffffi64 {
                    Some(crate::types::MalType::Int(v as i32))
                } else {
                    let prefix = crate::types::str_to_chars("Integer overflow for ");
                    let nm = crate::types::str_to_chars(name);
                    self.emit2(&prefix, &nm);
                    None
                }
            },
            _ => {
                if y == 0 {
                    self.emit_lit("Division by zero");
                    return None;
                }
                let xa: u64 = if x64 < 0 {
                    (-x64) as u64
                } else {
                    x64 as u64
                };
                let ya: u64 = if y64 < 0 {
                    (-y64) as u64
                } else {
                    y64 as u64
                };
                let m: u64 = xa / ya;
                proof {
                    assert(xa as int == abs_int(x as int));
                    assert(ya as int == abs_int(y as int));
                    assert(m as int == abs_int(x as int) / abs_int(y as int));
                }
                let v: i64 = if (x < 0) == (y < 0) {
                    m as i64
                } else {
                    -(m as i64)
                };
                proof {
                    assert(v as int == div_trunc(x as int, y as int));
                }
                if -0x8000_0000i64 <= v && v <= 0x7fff_ffffi64 {
                    Some(crate::types::MalType::Int(v as i32))
                } else {
                    let prefix = crate::types::str_to_chars("Integer overflow for ");
                    let nm = crate::types::str_to_chars(name);
                    self.emit2(&prefix, &nm);
                    None
                }
            },
        }
    }

    /// Two-argument integer comparison.
    fn do_cmp(&mut self, b: Builtin, args: &Vec<crate::types::MalType>, start: usize) -> (r:
        Option<crate::types::MalType>)
        requires
            start <= args@.len(),
            matches!(b, Builtin::Lt | Builtin::Le | Builtin::Gt | Builtin::Ge),
        ensures
            ({
                let (st2, r2) = spec_cmp(
                    old(self)@,
                    b,
                    crate::types::view_seq(args@).skip(start as int),
                );
                &&& final(self)@ == st2
                &&& opt_view(r) == r2
                &&& final(self)@.frames == old(self)@.frames
                &&& final(self)@.atoms == old(self)@.atoms
            }),
    {
        proof {
            crate::types::lemma_view_seq_index(args@);
        }
        let ghost av = crate::types::view_seq(args@).skip(start as int);
        proof {
            assert(av.len() == args@.len() - start);
            assert(forall|j: int|
                0 <= j < av.len() ==> #[trigger] av[j] == crate::types::view_seq(args@)[start
                    + j]);
        }
        let name: &str = match b {
            Builtin::Lt => "<",
            Builtin::Le => "<=",
            Builtin::Gt => ">",
            _ => ">=",
        };
        if args.len() - start != 2 {
            let prefix = crate::types::str_to_chars("Wrong amount of arguments for ");
            let nm = crate::types::str_to_chars(name);
            self.emit2(&prefix, &nm);
            return None;
        }
        proof {
            crate::types::lemma_view_variants(args@[start as int]);
            crate::types::lemma_view_variants(args@[start + 1]);
        }
        let xy: Option<(i32, i32)> = match (&args[start], &args[start + 1]) {
            (crate::types::MalType::Int(x), crate::types::MalType::Int(y)) => Some((*x, *y)),
            _ => None,
        };
        let (x, y): (i32, i32) = match xy {
            Some(p) => p,
            None => {
                let prefix = crate::types::str_to_chars("Wrong type of arguments for ");
                let nm = crate::types::str_to_chars(name);
                self.emit2(&prefix, &nm);
                return None;
            },
        };
        proof {
            assert(av[0] == SpecVal::Int(x as int));
            assert(av[1] == SpecVal::Int(y as int));
        }
        let v = match b {
            Builtin::Lt => x < y,
            Builtin::Le => x <= y,
            Builtin::Gt => x > y,
            _ => x >= y,
        };
        Some(crate::types::MalType::Bool(v))
    }

    /// The atom-cell built-ins.
    #[verifier::loop_isolation(false)]
    #[verifier::rlimit(100)]
    #[verifier::spinoff_prover]
    fn apply_atoms(
        &mut self,
        b: Builtin,
        args: &Vec<crate::types::MalType>,
        start: usize,
        fuel: u64,
    ) -> (r: Option<crate::types::MalType>)
        requires
            state_wf(old(self)@),
            fuel >= 1,
            start <= args@.len(),
            matches!(b, Builtin::Atom | Builtin::IsAtom | Builtin::Deref | Builtin::Reset | Builtin::Swap),
            forall|j: int|
                0 <= j < args@.len() ==> val_wf(
                    #[trigger] crate::types::view_seq(args@)[j],
                    old(self)@.frames.len() as int,
                    old(self)@.atoms.len() as int,
                ),
        ensures
            ({
                let (st2, r2) = spec_builtin_body(
                    old(self)@,
                    b,
                    crate::types::view_seq(args@).skip(start as int),
                    fuel as nat,
                );
                &&& final(self)@ == st2
                &&& state_wf(final(self)@)
                &&& old(self)@.frames.len() <= final(self)@.frames.len()
                &&& old(self)@.atoms.len() <= final(self)@.atoms.len()
                &&& opt_view(r) == r2
                &&& (r matches Some(v) ==> val_wf(
                    v@,
                    final(self)@.frames.len() as int,
                    final(self)@.atoms.len() as int,
                ))
            }),
        decreases fuel, 0int, 2int,
    {
        proof {
            crate::types::lemma_view_seq_index(args@);
            crate::types::lemma_view_seq_index(self.atoms@);
            reveal_with_fuel(spec_builtin_body, 2);
            reveal_strlit(" ");
            reveal_strlit("");
            assert(" "@ =~= seq![' ']);
            assert(""@ =~= Seq::<char>::empty());
            if start < args@.len() {
                crate::types::lemma_view_variants(args@[start as int]);
            }
            if start + 1 < args@.len() {
                crate::types::lemma_view_variants(args@[start + 1]);
            }
        }
        let ghost av = crate::types::view_seq(args@).skip(start as int);
        proof {
            assert(av.len() == args@.len() - start);
            assert(forall|j: int|
                0 <= j < av.len() ==> #[trigger] av[j] == crate::types::view_seq(args@)[start
                    + j]);
            assert(forall|j: int|
                0 <= j < av.len() ==> val_wf(
                    #[trigger] av[j],
                    self@.frames.len() as int,
                    self@.atoms.len() as int,
                ));
        }
        let nargs: usize = args.len() - start;
        match b {
            Builtin::Atom => {
                if nargs == 0 {
                    Some(crate::types::MalType::Nil)
                } else {
                    let idx = self.atoms.len();
                    let v = args[start].mal_clone();
                    proof {
                        lemma_wf_push_atom(self@, av[0]);
                    }
                    self.atoms.push(v);
                    proof {
                        assert(crate::types::view_seq(self.atoms@)
                            =~= crate::types::view_seq(old(self).atoms@).push(av[0])) by {
                            crate::types::lemma_view_seq_index(self.atoms@);
                            crate::types::lemma_view_seq_index(old(self).atoms@);
                        }
                        assert(self@ =~~= SpecState {
                            atoms: old(self)@.atoms.push(av[0]),
                            ..old(self)@
                        });
                    }
                    Some(crate::types::MalType::Atom(idx))
                }
            },
            Builtin::IsAtom => {
                if nargs == 0 {
                    Some(crate::types::MalType::Nil)
                } else {
                    let v = matches!(&args[start], crate::types::MalType::Atom(_));
                    proof {
                        assert(v == (av[0] is Atom));
                    }
                    Some(crate::types::MalType::Bool(v))
                }
            },
            Builtin::Deref => {
                if nargs == 0 {
                    Some(crate::types::MalType::Nil)
                } else {
                    match &args[start] {
                        crate::types::MalType::Atom(i) => {
                            if *i < self.atoms.len() {
                                proof {
                                    crate::types::lemma_view_seq_index(self.atoms@);
                                }
                                Some(self.atoms[*i].mal_clone())
                            } else {
                                Some(crate::types::MalType::Nil)
                            }
                        },
                        _ => Some(crate::types::MalType::Nil),
                    }
                }
            },
            Builtin::Reset => {
                if nargs < 2 {
                    Some(crate::types::MalType::Nil)
                } else {
                    match &args[start] {
                        crate::types::MalType::Atom(i) => {
                            if *i < self.atoms.len() {
                                let v = args[start + 1].mal_clone();
                                proof {
                                    lemma_wf_set_atom(self@, *i as int, av[1]);
                                }
                                self.atoms[*i] = v;
                                proof {
                                    assert(crate::types::view_seq(self.atoms@)
                                        =~= crate::types::view_seq(old(self).atoms@).update(
                                        *i as int,
                                        av[1],
                                    )) by {
                                        crate::types::lemma_view_seq_index(self.atoms@);
                                        crate::types::lemma_view_seq_index(old(self).atoms@);
                                    }
                                    assert(self@ =~~= SpecState {
                                        atoms: old(self)@.atoms.update(*i as int, av[1]),
                                        ..old(self)@
                                    });
                                }
                                Some(args[start + 1].mal_clone())
                            } else {
                                Some(crate::types::MalType::Nil)
                            }
                        },
                        _ => Some(crate::types::MalType::Nil),
                    }
                }
            },
            Builtin::Swap => {
                if nargs < 2 {
                    Some(crate::types::MalType::Nil)
                } else {
                    match &args[start] {
                        crate::types::MalType::Atom(i) => {
                            let idx = *i;
                            if idx < self.atoms.len() {
                                let is_fn = matches!(
                                    &args[start + 1],
                                    crate::types::MalType::BuiltinFunc(_)
                                        | crate::types::MalType::Func(_),
                                );
                                proof {
                                    assert(is_fn == (av[1] is BuiltinFunc || av[1] is Func));
                                }
                                if is_fn {
                                    proof {
                                        crate::types::lemma_view_seq_index(self.atoms@);
                                    }
                                    let mut call_args: Vec<crate::types::MalType> = Vec::new();
                                    call_args.push(self.atoms[idx].mal_clone());
                                    let mut rest = crate::types::clone_range(
                                        args,
                                        start + 2,
                                        args.len(),
                                    );
                                    let ghost restv = rest@;
                                    call_args.append(&mut rest);
                                    let ghost spec_ca = seq![old(self)@.atoms[idx as int]]
                                        + av.skip(2);
                                    proof {
                                        assert(av.skip(2) =~= crate::types::view_seq(
                                            args@,
                                        ).subrange(start + 2, args@.len() as int));
                                        assert(crate::types::view_seq(call_args@) =~= spec_ca) by {
                                            crate::types::lemma_view_seq_index(call_args@);
                                            crate::types::lemma_view_seq_index(restv);
                                            assert(forall|j: int|
                                                0 <= j < restv.len()
                                                    ==> #[trigger] call_args@[j + 1] == restv[j]);
                                        }
                                        assert forall|j: int|
                                            0 <= j < crate::types::view_seq(
                                                call_args@,
                                            ).len() implies val_wf(
                                            #[trigger] crate::types::view_seq(call_args@)[j],
                                            self@.frames.len() as int,
                                            self@.atoms.len() as int,
                                        ) by {
                                            if j > 0 {
                                                assert(crate::types::view_seq(call_args@)[j]
                                                    == av[2 + (j - 1)]);
                                            }
                                        }
                                    }
                                    let fc = args[start + 1].mal_clone();
                                    let rv = self.apply(&fc, &call_args, fuel);
                                    proof {
                                        crate::types::lemma_view_seq_index(self.atoms@);
                                    }
                                    match rv {
                                        Some(res) => {
                                            if idx < self.atoms.len() {
                                                let stored = res.mal_clone();
                                                proof {
                                                    lemma_wf_set_atom(self@, idx as int, res@);
                                                }
                                                let ghost st_mid = self@;
                                                let ghost av_pre = self.atoms@;
                                                self.atoms[idx] = stored;
                                                proof {
                                                    assert(crate::types::view_seq(self.atoms@)
                                                        =~= st_mid.atoms.update(
                                                        idx as int,
                                                        res@,
                                                    )) by {
                                                        crate::types::lemma_view_seq_index(
                                                            self.atoms@,
                                                        );
                                                        crate::types::lemma_view_seq_index(av_pre);
                                                    }
                                                    assert(self@ =~~= SpecState {
                                                        atoms: st_mid.atoms.update(
                                                            idx as int,
                                                            res@,
                                                        ),
                                                        ..st_mid
                                                    });
                                                }
                                                Some(res)
                                            } else {
                                                None
                                            }
                                        },
                                        None => None,
                                    }
                                } else {
                                    Some(crate::types::MalType::Nil)
                                }
                            } else {
                                Some(crate::types::MalType::Nil)
                            }
                        },
                        _ => Some(crate::types::MalType::Nil),
                    }
                }
            },
            _ => None,
        }
    }

    /// The printing built-ins.
    #[verifier::loop_isolation(false)]
    #[verifier::rlimit(100)]
    #[verifier::spinoff_prover]
    fn apply_printing(
        &mut self,
        b: Builtin,
        args: &Vec<crate::types::MalType>,
        start: usize,
        fuel: u64,
    ) -> (r: Option<crate::types::MalType>)
        requires
            state_wf(old(self)@),
            fuel >= 1,
            start <= args@.len(),
            matches!(b, Builtin::Prn | Builtin::PrStr | Builtin::Str | Builtin::PrintLn),
            forall|j: int|
                0 <= j < args@.len() ==> val_wf(
                    #[trigger] crate::types::view_seq(args@)[j],
                    old(self)@.frames.len() as int,
                    old(self)@.atoms.len() as int,
                ),
        ensures
            ({
                let (st2, r2) = spec_builtin_body(
                    old(self)@,
                    b,
                    crate::types::view_seq(args@).skip(start as int),
                    fuel as nat,
                );
                &&& final(self)@ == st2
                &&& state_wf(final(self)@)
                &&& old(self)@.frames.len() <= final(self)@.frames.len()
                &&& old(self)@.atoms.len() <= final(self)@.atoms.len()
                &&& opt_view(r) == r2
                &&& (r matches Some(v) ==> val_wf(
                    v@,
                    final(self)@.frames.len() as int,
                    final(self)@.atoms.len() as int,
                ))
            }),
        decreases fuel, 0int, 2int,
    {
        proof {
            crate::types::lemma_view_seq_index(args@);
            crate::types::lemma_view_seq_index(self.atoms@);
            reveal_with_fuel(spec_builtin_body, 2);
            reveal_strlit(" ");
            reveal_strlit("");
            assert(" "@ =~= seq![' ']);
            assert(""@ =~= Seq::<char>::empty());
            if start < args@.len() {
                crate::types::lemma_view_variants(args@[start as int]);
            }
            if start + 1 < args@.len() {
                crate::types::lemma_view_variants(args@[start + 1]);
            }
        }
        let ghost av = crate::types::view_seq(args@).skip(start as int);
        proof {
            assert(av.len() == args@.len() - start);
            assert(forall|j: int|
                0 <= j < av.len() ==> #[trigger] av[j] == crate::types::view_seq(args@)[start
                    + j]);
            assert(forall|j: int|
                0 <= j < av.len() ==> val_wf(
                    #[trigger] av[j],
                    self@.frames.len() as int,
                    self@.atoms.len() as int,
                ));
        }
        let nargs: usize = args.len() - start;
        match b {
            Builtin::Prn => {
                let msg = join_args(args, start, true, &self.atoms, " ");
                self.emit(&msg);
                Some(crate::types::MalType::Nil)
            },
            Builtin::PrStr => {
                let msg = join_args(args, start, true, &self.atoms, " ");
                Some(crate::types::MalType::Str(msg))
            },
            Builtin::Str => {
                let msg = join_args(args, start, false, &self.atoms, "");
                proof {
                    reveal_strlit("");
                    assert(""@ =~= Seq::<char>::empty());
                }
                Some(crate::types::MalType::Str(msg))
            },
            Builtin::PrintLn => {
                let msg = join_args(args, start, false, &self.atoms, " ");
                self.emit(&msg);
                Some(crate::types::MalType::Nil)
            },
            _ => None,
        }
    }

    /// The list and vector built-ins.
    #[verifier::loop_isolation(false)]
    #[verifier::rlimit(100)]
    #[verifier::spinoff_prover]
    fn apply_seqs(
        &mut self,
        b: Builtin,
        args: &Vec<crate::types::MalType>,
        start: usize,
        fuel: u64,
    ) -> (r: Option<crate::types::MalType>)
        requires
            state_wf(old(self)@),
            fuel >= 1,
            start <= args@.len(),
            matches!(b, Builtin::List | Builtin::IsList | Builtin::IsEmpty | Builtin::Count | Builtin::Cons | Builtin::Concat | Builtin::Vec),
            forall|j: int|
                0 <= j < args@.len() ==> val_wf(
                    #[trigger] crate::types::view_seq(args@)[j],
                    old(self)@.frames.len() as int,
                    old(self)@.atoms.len() as int,
                ),
        ensures
            ({
                let (st2, r2) = spec_builtin_body(
                    old(self)@,
                    b,
                    crate::types::view_seq(args@).skip(start as int),
                    fuel as nat,
                );
                &&& final(self)@ == st2
                &&& state_wf(final(self)@)
                &&& old(self)@.frames.len() <= final(self)@.frames.len()
                &&& old(self)@.atoms.len() <= final(self)@.atoms.len()
                &&& opt_view(r) == r2
                &&& (r matches Some(v) ==> val_wf(
                    v@,
                    final(self)@.frames.len() as int,
                    final(self)@.atoms.len() as int,
                ))
            }),
        decreases fuel, 0int, 2int,
    {
        proof {
            crate::types::lemma_view_seq_index(args@);
            crate::types::lemma_view_seq_index(self.atoms@);
            reveal_with_fuel(spec_builtin_body, 2);
            reveal_strlit(" ");
            reveal_strlit("");
            assert(" "@ =~= seq![' ']);
            assert(""@ =~= Seq::<char>::empty());
            if start < args@.len() {
                crate::types::lemma_view_variants(args@[start as int]);
            }
            if start + 1 < args@.len() {
                crate::types::lemma_view_variants(args@[start + 1]);
            }
        }
        let ghost av = crate::types::view_seq(args@).skip(start as int);
        proof {
            assert(av.len() == args@.len() - start);
            assert(forall|j: int|
                0 <= j < av.len() ==> #[trigger] av[j] == crate::types::view_seq(args@)[start
                    + j]);
            assert(forall|j: int|
                0 <= j < av.len() ==> val_wf(
                    #[trigger] av[j],
                    self@.frames.len() as int,
                    self@.atoms.len() as int,
                ));
        }
        let nargs: usize = args.len() - start;
        match b {
            Builtin::List => {
                let vals = crate::types::clone_range(args, start, args.len());
                proof {
                    assert(crate::types::view_seq(vals@) =~= av);
                }
                Some(crate::types::MalType::List(vals))
            },
            Builtin::IsList => {
                if nargs == 0 {
                    Some(crate::types::MalType::Nil)
                } else {
                    let v = matches!(&args[start], crate::types::MalType::List(_));
                    proof {
                        assert(v == (av[0] is List));
                    }
                    Some(crate::types::MalType::Bool(v))
                }
            },
            Builtin::IsEmpty => {
                if nargs == 0 {
                    Some(crate::types::MalType::Nil)
                } else {
                    match &args[start] {
                        crate::types::MalType::List(items) => {
                            proof {
                                crate::types::lemma_view_seq_index(items@);
                            }
                            Some(crate::types::MalType::Bool(items.len() == 0))
                        },
                        crate::types::MalType::Vector(items) => {
                            proof {
                                crate::types::lemma_view_seq_index(items@);
                            }
                            Some(crate::types::MalType::Bool(items.len() == 0))
                        },
                        _ => Some(crate::types::MalType::Nil),
                    }
                }
            },
            Builtin::Count => {
                if nargs == 0 {
                    Some(crate::types::MalType::Nil)
                } else {
                    match &args[start] {
                        crate::types::MalType::List(items) => {
                            proof {
                                crate::types::lemma_view_seq_index(items@);
                            }
                            if items.len() <= 0x7fff_ffff {
                                Some(crate::types::MalType::Int(items.len() as i32))
                            } else {
                                None
                            }
                        },
                        crate::types::MalType::Vector(items) => {
                            proof {
                                crate::types::lemma_view_seq_index(items@);
                            }
                            if items.len() <= 0x7fff_ffff {
                                Some(crate::types::MalType::Int(items.len() as i32))
                            } else {
                                None
                            }
                        },
                        _ => Some(crate::types::MalType::Int(0)),
                    }
                }
            },
            Builtin::Cons => {
                if nargs < 2 {
                    Some(crate::types::MalType::Nil)
                } else {
                    let items: &Vec<crate::types::MalType> = match &args[start + 1] {
                        crate::types::MalType::List(items) => items,
                        crate::types::MalType::Vector(items) => items,
                        _ => {
                            return Some(crate::types::MalType::Nil);
                        },
                    };
                    proof {
                        crate::types::lemma_view_seq_index(items@);
                    }
                    let mut out: Vec<crate::types::MalType> = Vec::new();
                    out.push(args[start].mal_clone());
                    let mut rest = crate::types::clone_range(items, 0, items.len());
                    let ghost restv = rest@;
                    out.append(&mut rest);
                    proof {
                        assert(crate::types::view_seq(items@).subrange(
                            0,
                            items@.len() as int,
                        ) =~= crate::types::view_seq(items@));
                        assert(crate::types::view_seq(out@) =~= seq![av[0]]
                            + crate::types::view_seq(items@)) by {
                            crate::types::lemma_view_seq_index(out@);
                            crate::types::lemma_view_seq_index(restv);
                            assert(forall|j: int|
                                0 <= j < restv.len() ==> #[trigger] out@[j + 1] == restv[j]);
                        }
                        assert(val_wf(
                            SpecVal::List(crate::types::view_seq(out@)),
                            self@.frames.len() as int,
                            self@.atoms.len() as int,
                        )) by {
                            assert forall|j: int|
                                0 <= j < crate::types::view_seq(out@).len() implies val_wf(
                                #[trigger] crate::types::view_seq(out@)[j],
                                self@.frames.len() as int,
                                self@.atoms.len() as int,
                            ) by {
                                if j > 0 {
                                    assert(crate::types::view_seq(out@)[j]
                                        == crate::types::view_seq(items@)[j - 1]);
                                }
                            }
                        }
                    }
                    Some(crate::types::MalType::List(out))
                }
            },
            Builtin::Concat => {
                let mut out: Vec<crate::types::MalType> = Vec::new();
                let n: usize = args.len();
                let mut i: usize = start;
                proof {
                    assert(av.skip(0) =~= av);
                    assert(concat_args(av) =~= crate::types::view_seq(out@) + concat_args(
                        av.skip(0),
                    ));
                }
                while i < n
                    invariant
                        start <= i <= n,
                        n == args@.len(),
                        av == crate::types::view_seq(args@).skip(start as int),
                        av.len() == n - start,
                        forall|j: int|
                            0 <= j < av.len() ==> #[trigger] av[j] == crate::types::view_seq(
                                args@,
                            )[start + j],
                        forall|j: int|
                            0 <= j < args@.len() ==> #[trigger] crate::types::view_seq(args@)[j]
                                == args@[j]@,
                        forall|j: int|
                            0 <= j < args@.len() ==> val_wf(
                                #[trigger] crate::types::view_seq(args@)[j],
                                self@.frames.len() as int,
                                self@.atoms.len() as int,
                            ),
                        crate::types::view_seq(out@).len() == out@.len(),
                        forall|j: int|
                            0 <= j < crate::types::view_seq(out@).len() ==> val_wf(
                                #[trigger] crate::types::view_seq(out@)[j],
                                self@.frames.len() as int,
                                self@.atoms.len() as int,
                            ),
                        concat_args(av) == crate::types::view_seq(out@) + concat_args(
                            av.skip(i - start),
                        ),
                    decreases n - i,
                {
                    let ghost k = i - start;
                    proof {
                        assert(av.skip(k)[0] == av[k]);
                        assert(av.skip(k).skip(1) =~= av.skip(k + 1));
                    }
                    let ghost out_before = crate::types::view_seq(out@);
                    match &args[i] {
                        crate::types::MalType::List(items) => {
                            proof {
                                crate::types::lemma_view_seq_index(items@);
                            }
                            let mut piece = crate::types::clone_range(items, 0, items.len());
                            let ghost piecev = piece@;
                            let ghost out_old = out@;
                            out.append(&mut piece);
                            proof {
                                assert(crate::types::view_seq(items@).subrange(
                                    0,
                                    items@.len() as int,
                                ) =~= crate::types::view_seq(items@));
                                assert(crate::types::view_seq(out@) =~= out_before
                                    + crate::types::view_seq(items@)) by {
                                    crate::types::lemma_view_seq_index(out@);
                                    crate::types::lemma_view_seq_index(piecev);
                                    crate::types::lemma_view_seq_index(out_old);
                                    assert(forall|j: int|
                                        0 <= j < piecev.len()
                                            ==> #[trigger] out@[out_old.len() + j] == piecev[j]);
                                    assert(forall|j: int|
                                        0 <= j < out_old.len()
                                            ==> #[trigger] out@[j] == out_old[j]);
                                }
                                assert(out_before + (crate::types::view_seq(items@) + concat_args(
                                    av.skip(k + 1),
                                )) =~= (out_before + crate::types::view_seq(items@)) + concat_args(
                                    av.skip(k + 1),
                                ));
                            }
                        },
                        crate::types::MalType::Vector(items) => {
                            proof {
                                crate::types::lemma_view_seq_index(items@);
                            }
                            let mut piece = crate::types::clone_range(items, 0, items.len());
                            let ghost piecev = piece@;
                            let ghost out_old = out@;
                            out.append(&mut piece);
                            proof {
                                assert(crate::types::view_seq(items@).subrange(
                                    0,
                                    items@.len() as int,
                                ) =~= crate::types::view_seq(items@));
                                assert(crate::types::view_seq(out@) =~= out_before
                                    + crate::types::view_seq(items@)) by {
                                    crate::types::lemma_view_seq_index(out@);
                                    crate::types::lemma_view_seq_index(piecev);
                                    crate::types::lemma_view_seq_index(out_old);
                                    assert(forall|j: int|
                                        0 <= j < piecev.len()
                                            ==> #[trigger] out@[out_old.len() + j] == piecev[j]);
                                    assert(forall|j: int|
                                        0 <= j < out_old.len()
                                            ==> #[trigger] out@[j] == out_old[j]);
                                }
                                assert(out_before + (crate::types::view_seq(items@) + concat_args(
                                    av.skip(k + 1),
                                )) =~= (out_before + crate::types::view_seq(items@)) + concat_args(
                                    av.skip(k + 1),
                                ));
                            }
                        },
                        _ => {},
                    }
                    i = i + 1;
                }
                proof {
                    assert(av.skip(n - start) =~= Seq::<SpecVal>::empty());
                    assert(crate::types::view_seq(out@) + concat_args(av.skip(n - start))
                        =~= crate::types::view_seq(out@));
                }
                Some(crate::types::MalType::List(out))
            },
            Builtin::Vec => {
                if nargs == 0 {
                    Some(crate::types::MalType::Nil)
                } else {
                    let items: &Vec<crate::types::MalType> = match &args[start] {
                        crate::types::MalType::List(items) => items,
                        crate::types::MalType::Vector(items) => items,
                        _ => {
                            return Some(crate::types::MalType::Nil);
                        },
                    };
                    proof {
                        crate::types::lemma_view_seq_index(items@);
                    }
                    let out = crate::types::clone_range(items, 0, items.len());
                    proof {
                        assert(crate::types::view_seq(items@).subrange(
                            0,
                            items@.len() as int,
                        ) =~= crate::types::view_seq(items@));
                    }
                    Some(crate::types::MalType::Vector(out))
                }
            },
            _ => None,
        }
    }

    /// One entry of the built-in function table applied to `args[start..]`.
    #[verifier::loop_isolation(false)]
    #[verifier::rlimit(100)]
    #[verifier::spinoff_prover]
    fn apply_builtin(
        &mut self,
        b: Builtin,
        args: &Vec<crate::types::MalType>,
        start: usize,
        fuel: u64,
    ) -> (r: Option<crate::types::MalType>)
        requires
            state_wf(old(self)@),
            start <= args@.len(),
            forall|j: int|
                0 <= j < args@.len() ==> val_wf(
                    #[trigger] crate::types::view_seq(args@)[j],
                    old(self)@.frames.len() as int,
                    old(self)@.atoms.len() as int,
                ),
        ensures
            ({
                let (st2, r2) = spec_builtin(
                    old(self)@,
                    b,
                    crate::types::view_seq(args@).skip(start as int),
                    fuel as nat,
                );
                &&& final(self)@ == st2
                &&& state_wf(final(self)@)
                &&& old(self)@.frames.len() <= final(self)@.frames.len()
                &&& old(self)@.atoms.len() <= final(self)@.atoms.len()
                &&& opt_view(r) == r2
                &&& (r matches Some(v) ==> val_wf(
                    v@,
                    final(self)@.frames.len() as int,
                    final(self)@.atoms.len() as int,
                ))
            }),
        decreases fuel, 1int, 0int,
    {
        if fuel == 0 {
            return None;
        }
        proof {
            crate::types::lemma_view_seq_index(args@);
            crate::types::lemma_view_seq_index(self.atoms@);
            reveal_with_fuel(spec_builtin_body, 2);
            reveal_strlit(" ");
            reveal_strlit("");
            assert(" "@ =~= seq![' ']);
            assert(""@ =~= Seq::<char>::empty());
            if start < args@.len() {
                crate::types::lemma_view_variants(args@[start as int]);
            }
            if start + 1 < args@.len() {
                crate::types::lemma_view_variants(args@[start + 1]);
            }
        }
        let ghost av = crate::types::view_seq(args@).skip(start as int);
        proof {
            assert(av.len() == args@.len() - start);
            assert(forall|j: int|
                0 <= j < av.len() ==> #[trigger] av[j] == crate::types::view_seq(args@)[start
                    + j]);
            assert(forall|j: int|
                0 <= j < av.len() ==> val_wf(
                    #[trigger] av[j],
                    self@.frames.len() as int,
                    self@.atoms.len() as int,
                ));
        }
        let nargs: usize = args.len() - start;
        match b {
            Builtin::Add => self.do_arith(b, args, start),
            Builtin::Sub => self.do_arith(b, args, start),
            Builtin::Mul => self.do_arith(b, args, start),
            Builtin::Div => self.do_arith(b, args, start),
            Builtin::Lt => self.do_cmp(b, args, start),
            Builtin::Le => self.do_cmp(b, args, start),
            Builtin::Gt => self.do_cmp(b, args, start),
            Builtin::Ge => self.do_cmp(b, args, start),
            Builtin::Atom => self.apply_atoms(b, args, start, fuel),
            Builtin::IsAtom => self.apply_atoms(b, args, start, fuel),
            Builtin::Deref => self.apply_atoms(b, args, start, fuel),
            Builtin::Reset => self.apply_atoms(b, args, start, fuel),
            Builtin::Swap => self.apply_atoms(b, args, start, fuel),
            Builtin::Prn => self.apply_printing(b, args, start, fuel),
            Builtin::PrStr => self.apply_printing(b, args, start, fuel),
            Builtin::Str => self.apply_printing(b, args, start, fuel),
            Builtin::PrintLn => self.apply_printing(b, args, start, fuel),
            Builtin::List => self.apply_seqs(b, args, start, fuel),
            Builtin::IsList => self.apply_seqs(b, args, start, fuel),
            Builtin::IsEmpty => self.apply_seqs(b, args, start, fuel),
            Builtin::Count => self.apply_seqs(b, args, start, fuel),
            Builtin::Cons => self.apply_seqs(b, args, start, fuel),
            Builtin::Concat => self.apply_seqs(b, args, start, fuel),
            Builtin::Vec => self.apply_seqs(b, args, start, fuel),
            Builtin::Eq => {
                if nargs != 2 {
                    self.emit_lit("Wrong amount of arguments for =");
                    None
                } else {
                    let v = args[start].mal_eq(&args[start + 1]);
                    Some(crate::types::MalType::Bool(v))
                }
            },
            Builtin::ReadString => {
                if nargs >= 1 {
                    match &args[start] {
                        crate::types::MalType::Str(sq) => {
                            if (sq.len() as u64) < 0x1000_0000_0000_0000u64 {
                                match crate::reader::read_str(sq) {
                                    Some(v) => {
                                        proof {
                                            crate::reader::lemma_read_pure(
                                                sq@,
                                                self@.frames.len() as int,
                                                self@.atoms.len() as int,
                                            );
                                        }
                                        Some(v)
                                    },
                                    None => Some(crate::types::MalType::Nil),
                                }
                            } else {
                                Some(crate::types::MalType::Nil)
                            }
                        },
                        _ => Some(crate::types::MalType::Nil),
                    }
                } else {
                    Some(crate::types::MalType::Nil)
                }
            },
            Builtin::Slurp => {
                if nargs >= 1 {
                    match &args[start] {
                        crate::types::MalType::Str(sq) => {
                            match lookup_file(&self.files, sq) {
                                Some(content) => Some(crate::types::MalType::Str(content)),
                                None => Some(crate::types::MalType::Nil),
                            }
                        },
                        _ => Some(crate::types::MalType::Nil),
                    }
                } else {
                    Some(crate::types::MalType::Nil)
                }
            },
            Builtin::Eval => {
                if nargs == 0 {
                    Some(crate::types::MalType::Nil)
                } else {
                    self.eval(&args[start], 0, fuel - 1)
                }
            },
        }
    }

    /// Appends one line of literal text.
    fn emit_lit(&mut self, msg: &str)
        ensures
            final(self)@ == with_out(old(self)@, msg@),
            final(self)@.frames == old(self)@.frames,
            final(self)@.atoms == old(self)@.atoms,
    {
        let m = crate::types::str_to_chars(msg);
        self.emit(&m);
    }
}


/// The source of the `not` definition evaluated at startup.
pub open spec fn not_src() -> Seq<char> {
    "(def! not (fn* (a) (if a false true)))"@
}

/// The source of the `load-file` definition evaluated at startup.
pub open spec fn load_file_src() -> Seq<char> {
    "(def! load-file (fn* (f) (eval (read-string (str \"(do \" (slurp f) \"\\nnil)\")))))"@
}

/// The fuel the fixed startup definitions are evaluated with.
pub open spec fn startup_fuel() -> nat {
    1000
}

/// The state after one startup definition is read and evaluated.
pub open spec fn spec_startup_def(st: SpecState, src: Seq<char>) -> SpecState {
    match spec_read(src) {
        Some(ast) => spec_eval(st, ast, 0, startup_fuel()).0,
        None => st,
    }
}

/// The state `load_builtin` leaves: the table installed at the root, `not`
/// and `load-file` defined, and the root-closing `eval` bound last.
pub open spec fn spec_load_builtin(st: SpecState) -> SpecState {
    let st1 = SpecState {
        frames: st.frames.update(
            0,
            SpecFrame {
                entries: st.frames[0].entries + crate::builtins::namespace_entries(),
                ..st.frames[0]
            },
        ),
        ..st
    };
    let st2 = spec_startup_def(st1, not_src());
    let st3 = spec_startup_def(st2, load_file_src());
    set_entry(st3, 0, "eval"@, SpecVal::BuiltinFunc(Builtin::Eval))
}

/// The interpreter state at startup: the root frame holds the arithmetic
/// built-ins, the table, `not`, `load-file`, `eval`, and finally `*ARGV*`.
pub open spec fn spec_startup(
    files: Seq<(Seq<char>, Seq<char>)>,
    argv: Seq<Seq<char>>,
) -> SpecState {
    let st0 = SpecState {
        frames: seq![SpecFrame { entries: root_entries(), outer: None }],
        atoms: Seq::empty(),
        files: files,
        out: Seq::empty(),
    };
    set_entry(spec_load_builtin(st0), 0, "*ARGV*"@, SpecVal::List(argv_vals(argv)))
}

/// Command-line arguments as string values.
pub open spec fn argv_vals(argv: Seq<Seq<char>>) -> Seq<SpecVal> {
    argv.map(|i: int, a: Seq<char>| SpecVal::Str(a))
}

/// The result line a REPL turn prints: the value readably, or `Error`.
pub open spec fn spec_print_result(r: Option<SpecVal>, atoms: Seq<SpecVal>) -> Seq<char> {
    match r {
        Some(v) => spec_print(v, true, atoms, atoms.len()),
        None => "Error"@,
    }
}

/// One whole REPL turn over the state: read, evaluate, print.
pub open spec fn spec_rep(st: SpecState, input: Seq<char>, fuel: nat) -> SpecState {
    match spec_read(input) {
        Some(ast) => {
            let (st1, r) = spec_eval(st, ast, 0, fuel);
            with_out(st1, spec_print_result(r, st1.atoms))
        },
        None => with_out(st, "EOF"@),
    }
}

/// Reads one form from the input text, or nothing on a parse failure.
pub fn read(input: &Vec<char>) -> (r: Option<crate::types::MalType>)
    requires
        input@.len() < 0x1000_0000_0000_0000,
    ensures
        match spec_read(input@) {
            Some(sv) => r matches Some(v) && v@ == sv,
            None => r is None,
        },
{
    crate::reader::read_str(input)
}

impl Interp {
    /// A fresh interpreter: the root environment with every built-in, the
    /// startup definitions, `*ARGV*` bound to the given arguments, and the
    /// given file snapshot for `slurp`.
    pub fn new(argv: Vec<Vec<char>>, files: Vec<(Vec<char>, Vec<char>)>) -> (interp: Interp)
        ensures
            interp@ == spec_startup(files_view(files@), crate::types::params_view(argv@)),
            state_wf(interp@),
    {
        let env = Env::new_root();
        let mut interp = Interp { env: env, atoms: Vec::new(), files: files, out: Vec::new() };
        proof {
            assert(interp@ =~~= SpecState {
                frames: seq![SpecFrame { entries: root_entries(), outer: None }],
                atoms: Seq::empty(),
                files: files_view(interp.files@),
                out: Seq::empty(),
            }) by {
                crate::types::lemma_view_seq_index(interp.atoms@);
            }
            assert(state_wf(interp@)) by {
                assert(forall|j: int|
                    0 <= j < root_entries().len() ==> val_wf(
                        #[trigger] root_entries()[j].1,
                        1,
                        0,
                    ));
            }
        }
        interp.load_builtin();
        let mut arg_vals: Vec<crate::types::MalType> = Vec::new();
        let n: usize = argv.len();
        let mut i: usize = 0;
        let ghost st_args = interp@;
        while i < n
            invariant
                i <= n,
                n == argv@.len(),
                interp@ == st_args,
                state_wf(interp@),
                interp@.frames.len() >= 1,
                crate::types::view_seq(arg_vals@) =~= argv_vals(
                    crate::types::params_view(argv@),
                ).subrange(0, i as int),
            decreases n - i,
        {
            let ghost before = crate::types::view_seq(arg_vals@);
            let ghost prev = arg_vals@;
            arg_vals.push(crate::types::MalType::Str(crate::types::chars_clone(&argv[i])));
            proof {
                assert(arg_vals@.drop_last() =~= prev);
                assert(crate::types::view_seq(arg_vals@) =~= before.push(
                    SpecVal::Str(argv@[i as int]@),
                )) by {
                    crate::types::lemma_view_seq_index(arg_vals@);
                    crate::types::lemma_view_seq_index(prev);
                }
                assert(argv_vals(crate::types::params_view(argv@))[i as int] == SpecVal::Str(
                    argv@[i as int]@,
                ));
                assert(crate::types::view_seq(arg_vals@) =~= argv_vals(
                    crate::types::params_view(argv@),
                ).subrange(0, i + 1 as int));
            }
            i = i + 1;
        }
        proof {
            assert(argv_vals(crate::types::params_view(argv@)).subrange(0, n as int) =~= argv_vals(
                crate::types::params_view(argv@),
            ));
        }
        let arg_list = crate::types::MalType::List(arg_vals);
        let name = crate::types::str_to_chars("*ARGV*");
        proof {
            assert(val_wf(
                arg_list@,
                interp@.frames.len() as int,
                interp@.atoms.len() as int,
            )) by {
                assert(forall|j: int|
                    0 <= j < crate::types::view_seq(arg_vals@).len() ==> val_wf(
                        #[trigger] crate::types::view_seq(arg_vals@)[j],
                        interp@.frames.len() as int,
                        interp@.atoms.len() as int,
                    ));
            }
            lemma_wf_set_entry(interp@, 0, name@, arg_list@);
        }
        let ghost st_pre = interp@;
        interp.env.set(0, &name, arg_list);
        proof {
            assert(interp@ =~~= set_entry(
                st_pre,
                0,
                "*ARGV*"@,
                SpecVal::List(argv_vals(crate::types::params_view(argv@))),
            ));
            assert(interp@ =~~= spec_startup(
                files_view(files@),
                crate::types::params_view(argv@),
            ));
        }
        interp
    }

    /// Installs the built-in table at the root, evaluates the `not` and
    /// `load-file` definitions, and binds the root-closing `eval`.
    pub fn load_builtin(&mut self)
        requires
            state_wf(old(self)@),
        ensures
            final(self)@ == spec_load_builtin(old(self)@),
            state_wf(final(self)@),
            final(self)@.frames.len() >= 1,
    {
        let ns = crate::builtins::NameSpace::new();
        let m: usize = ns.builtin.len();
        let mut i: usize = 0;
        proof {
            assert(old(self)@.frames[0].entries + crate::builtins::namespace_entries().subrange(
                0,
                0,
            ) =~= old(self)@.frames[0].entries);
            assert(self@ =~~= SpecState {
                frames: old(self)@.frames.update(
                    0,
                    SpecFrame {
                        entries: old(self)@.frames[0].entries
                            + crate::builtins::namespace_entries().subrange(0, 0),
                        ..old(self)@.frames[0]
                    },
                ),
                ..old(self)@
            });
        }
        while i < m
            invariant
                i <= m,
                m == ns.builtin@.len(),
                entries_view(ns.builtin@) == crate::builtins::namespace_entries(),
                forall|k: int|
                    0 <= k < ns.builtin@.len() ==> (#[trigger] entries_view(ns.builtin@)[k]).1
                        is BuiltinFunc,
                state_wf(self@),
                self@.frames.len() == old(self)@.frames.len() >= 1,
                self@.atoms.len() == old(self)@.atoms.len(),
                self@ =~~= (SpecState {
                    frames: old(self)@.frames.update(
                        0,
                        SpecFrame {
                            entries: old(self)@.frames[0].entries
                                + crate::builtins::namespace_entries().subrange(0, i as int),
                            ..old(self)@.frames[0]
                        },
                    ),
                    ..old(self)@
                }),
            decreases m - i,
        {
            let ghost pre = self@;
            let nm = crate::types::chars_clone(&ns.builtin[i].0);
            let v = ns.builtin[i].1.mal_clone();
            proof {
                assert(entries_view(ns.builtin@)[i as int] == (
                    ns.builtin@[i as int].0@,
                    crate::types::val_view(ns.builtin@[i as int].1),
                ));
                assert(entries_view(ns.builtin@)[i as int]
                    == crate::builtins::namespace_entries()[i as int]);
                assert(nm@ == crate::builtins::namespace_entries()[i as int].0);
                assert(v@ == crate::builtins::namespace_entries()[i as int].1);
                assert(val_wf(v@, pre.frames.len() as int, pre.atoms.len() as int)) by {
                    assert((entries_view(ns.builtin@)[i as int]).1 is BuiltinFunc);
                    assert(v@ is BuiltinFunc);
                }
                lemma_wf_set_entry(pre, 0, nm@, v@);
            }
            self.env.set(0, &nm, v);
            proof {
                assert(self@ =~~= set_entry(pre, 0, nm@, v@));
                assert(crate::builtins::namespace_entries().subrange(0, i + 1 as int).drop_last()
                    =~= crate::builtins::namespace_entries().subrange(0, i as int));
                assert(old(self)@.frames[0].entries + crate::builtins::namespace_entries(
                ).subrange(0, i + 1 as int) =~= (old(self)@.frames[0].entries
                    + crate::builtins::namespace_entries().subrange(0, i as int)).push(
                    crate::builtins::namespace_entries()[i as int],
                ));
                assert(self@ =~~= SpecState {
                    frames: old(self)@.frames.update(
                        0,
                        SpecFrame {
                            entries: old(self)@.frames[0].entries
                                + crate::builtins::namespace_entries().subrange(0, i + 1 as int),
                            ..old(self)@.frames[0]
                        },
                    ),
                    ..old(self)@
                });
            }
            i = i + 1;
        }
        proof {
            assert(crate::builtins::namespace_entries().subrange(
                0,
                crate::builtins::namespace_entries().len() as int,
            ) =~= crate::builtins::namespace_entries());
            assert(self@ =~~= SpecState {
                frames: old(self)@.frames.update(
                    0,
                    SpecFrame {
                        entries: old(self)@.frames[0].entries
                            + crate::builtins::namespace_entries(),
                        ..old(self)@.frames[0]
                    },
                ),
                ..old(self)@
            });
        }
        proof {
            reveal_strlit("(def! not (fn* (a) (if a false true)))");
            reveal_strlit(
                "(def! load-file (fn* (f) (eval (read-string (str \"(do \" (slurp f) \"\\nnil)\")))))",
            );
        }
        self.startup_def("(def! not (fn* (a) (if a false true)))");
        self.startup_def(
            "(def! load-file (fn* (f) (eval (read-string (str \"(do \" (slurp f) \"\\nnil)\")))))",
        );
        let ename = crate::types::str_to_chars("eval");
        proof {
            lemma_wf_set_entry(self@, 0, ename@, SpecVal::BuiltinFunc(Builtin::Eval));
        }
        let ghost st3 = self@;
        self.env.set(0, &ename, crate::types::MalType::BuiltinFunc(Builtin::Eval));
        proof {
            assert(self@ =~~= set_entry(st3, 0, "eval"@, SpecVal::BuiltinFunc(Builtin::Eval)));
        }
    }

    /// Reads and evaluates one fixed startup definition at the root.
    fn startup_def(&mut self, src: &str)
        requires
            state_wf(old(self)@),
            old(self)@.frames.len() >= 1,
            src@.len() < 0x1000_0000_0000_0000,
        ensures
            final(self)@ == spec_startup_def(old(self)@, src@),
            state_wf(final(self)@),
            old(self)@.frames.len() <= final(self)@.frames.len(),
    {
        let sc = crate::types::str_to_chars(src);
        match crate::reader::read_str(&sc) {
            Some(ast) => {
                proof {
                    crate::reader::lemma_read_pure(
                        src@,
                        self@.frames.len() as int,
                        self@.atoms.len() as int,
                    );
                }
                let ignored = self.eval(&ast, 0, 1000);
            },
            None => {},
        }
    }

    /// Prints the result of a REPL turn: the value readably, or `Error`.
    pub fn print(&self, r: &Option<crate::types::MalType>) -> (line: Vec<char>)
        ensures
            line@ == spec_print_result(opt_view(*r), self@.atoms),
    {
        proof {
            crate::types::lemma_view_seq_index(self.atoms@);
        }
        match r {
            Some(v) => crate::printer::print_str(v, false, true, &self.atoms),
            None => crate::types::str_to_chars("Error"),
        }
    }

    /// One REPL turn: read the input, evaluate it at the root, and append
    /// the printed result (or a diagnostic) to the output.
    pub fn rep(&mut self, input: &Vec<char>, fuel: u64)
        requires
            state_wf(old(self)@),
            old(self)@.frames.len() >= 1,
            input@.len() < 0x1000_0000_0000_0000,
        ensures
            final(self)@ == spec_rep(old(self)@, input@, fuel as nat),
            state_wf(final(self)@),
            final(self)@.frames.len() >= 1,
    {
        match read(input) {
            Some(ast) => {
                proof {
                    crate::reader::lemma_read_pure(
                        input@,
                        self@.frames.len() as int,
                        self@.atoms.len() as int,
                    );
                }
                let r = self.eval(&ast, 0, fuel);
                let line = self.print(&r);
                self.emit(&line);
            },
            None => {
                self.emit_lit("EOF");
            },
        }
    }

    /// Hands out the text printed so far and clears the buffer.
    pub fn take_out(&mut self) -> (r: Vec<char>)
        ensures
            r@ == old(self)@.out,
            final(self)@ == (SpecState { out: Seq::empty(), ..old(self)@ }),
            state_wf(old(self)@) ==> state_wf(final(self)@),
    {
        let r = crate::types::chars_clone(&self.out);
        self.out = Vec::new();
        proof {
            assert(self@ =~~= SpecState { out: Seq::empty(), ..old(self)@ });
        }
        r
    }
}

} // verus!


