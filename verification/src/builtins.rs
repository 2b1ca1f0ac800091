//! The built-in function table: the names the root environment binds and the
//! built-in each name stands for.
use crate::env::entries_view;
use crate::types::{str_to_chars, Builtin, MalType, SpecVal};
use vstd::prelude::*;

verus! {

/// The name-to-function table installed at startup.
pub struct NameSpace {
    pub builtin: Vec<(Vec<char>, MalType)>,
}

/// The bindings of the table, in installation order.
pub open spec fn namespace_entries() -> Seq<(Seq<char>, SpecVal)> {
    seq![
        ("+"@, SpecVal::BuiltinFunc(Builtin::Add)),
        ("-"@, SpecVal::BuiltinFunc(Builtin::Sub)),
        ("*"@, SpecVal::BuiltinFunc(Builtin::Mul)),
        ("/"@, SpecVal::BuiltinFunc(Builtin::Div)),
        ("prn"@, SpecVal::BuiltinFunc(Builtin::Prn)),
        ("pr-str"@, SpecVal::BuiltinFunc(Builtin::PrStr)),
        ("str"@, SpecVal::BuiltinFunc(Builtin::Str)),
        ("println"@, SpecVal::BuiltinFunc(Builtin::PrintLn)),
        ("list"@, SpecVal::BuiltinFunc(Builtin::List)),
        ("list?"@, SpecVal::BuiltinFunc(Builtin::IsList)),
        ("empty?"@, SpecVal::BuiltinFunc(Builtin::IsEmpty)),
        ("count"@, SpecVal::BuiltinFunc(Builtin::Count)),
        ("="@, SpecVal::BuiltinFunc(Builtin::Eq)),
        ("<"@, SpecVal::BuiltinFunc(Builtin::Lt)),
        ("<="@, SpecVal::BuiltinFunc(Builtin::Le)),
        (">"@, SpecVal::BuiltinFunc(Builtin::Gt)),
        (">="@, SpecVal::BuiltinFunc(Builtin::Ge)),
        ("read-string"@, SpecVal::BuiltinFunc(Builtin::ReadString)),
        ("slurp"@, SpecVal::BuiltinFunc(Builtin::Slurp)),
        ("atom"@, SpecVal::BuiltinFunc(Builtin::Atom)),
        ("atom?"@, SpecVal::BuiltinFunc(Builtin::IsAtom)),
        ("deref"@, SpecVal::BuiltinFunc(Builtin::Deref)),
        ("reset!"@, SpecVal::BuiltinFunc(Builtin::Reset)),
        ("swap!"@, SpecVal::BuiltinFunc(Builtin::Swap)),
        ("cons"@, SpecVal::BuiltinFunc(Builtin::Cons)),
        ("concat"@, SpecVal::BuiltinFunc(Builtin::Concat)),
        ("vec"@, SpecVal::BuiltinFunc(Builtin::Vec)),
    ]
}

impl NameSpace {
    /// The full table, in the order `namespace_entries` gives.
    pub fn new() -> (ns: NameSpace)
        ensures
            entries_view(ns.builtin@) == namespace_entries(),
            forall|k: int|
                0 <= k < ns.builtin@.len() ==> (#[trigger] entries_view(ns.builtin@)[k]).1
                    is BuiltinFunc,
    {
        let mut b: Vec<(Vec<char>, MalType)> = Vec::new();
        b.push((str_to_chars("+"), MalType::BuiltinFunc(Builtin::Add)));
        b.push((str_to_chars("-"), MalType::BuiltinFunc(Builtin::Sub)));
        b.push((str_to_chars("*"), MalType::BuiltinFunc(Builtin::Mul)));
        b.push((str_to_chars("/"), MalType::BuiltinFunc(Builtin::Div)));
        b.push((str_to_chars("prn"), MalType::BuiltinFunc(Builtin::Prn)));
        b.push((str_to_chars("pr-str"), MalType::BuiltinFunc(Builtin::PrStr)));
        b.push((str_to_chars("str"), MalType::BuiltinFunc(Builtin::Str)));
        b.push((str_to_chars("println"), MalType::BuiltinFunc(Builtin::PrintLn)));
        b.push((str_to_chars("list"), MalType::BuiltinFunc(Builtin::List)));
        b.push((str_to_chars("list?"), MalType::BuiltinFunc(Builtin::IsList)));
        b.push((str_to_chars("empty?"), MalType::BuiltinFunc(Builtin::IsEmpty)));
        b.push((str_to_chars("count"), MalType::BuiltinFunc(Builtin::Count)));
        b.push((str_to_chars("="), MalType::BuiltinFunc(Builtin::Eq)));
        b.push((str_to_chars("<"), MalType::BuiltinFunc(Builtin::Lt)));
        b.push((str_to_chars("<="), MalType::BuiltinFunc(Builtin::Le)));
        b.push((str_to_chars(">"), MalType::BuiltinFunc(Builtin::Gt)));
        b.push((str_to_chars(">="), MalType::BuiltinFunc(Builtin::Ge)));
        b.push((str_to_chars("read-string"), MalType::BuiltinFunc(Builtin::ReadString)));
        b.push((str_to_chars("slurp"), MalType::BuiltinFunc(Builtin::Slurp)));
        b.push((str_to_chars("atom"), MalType::BuiltinFunc(Builtin::Atom)));
        b.push((str_to_chars("atom?"), MalType::BuiltinFunc(Builtin::IsAtom)));
        b.push((str_to_chars("deref"), MalType::BuiltinFunc(Builtin::Deref)));
        b.push((str_to_chars("reset!"), MalType::BuiltinFunc(Builtin::Reset)));
        b.push((str_to_chars("swap!"), MalType::BuiltinFunc(Builtin::Swap)));
        b.push((str_to_chars("cons"), MalType::BuiltinFunc(Builtin::Cons)));
        b.push((str_to_chars("concat"), MalType::BuiltinFunc(Builtin::Concat)));
        b.push((str_to_chars("vec"), MalType::BuiltinFunc(Builtin::Vec)));
        proof {
            assert(entries_view(b@) =~= namespace_entries());
            assert(forall|k: int|
                0 <= k < b@.len() ==> (#[trigger] entries_view(b@)[k]).1 is BuiltinFunc);
        }
        NameSpace { builtin: b }
    }
}

} // verus!
