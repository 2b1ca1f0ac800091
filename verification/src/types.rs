//! The value model: the tagged runtime value, its mathematical view, and
//! structural equality.
//!
//! Mutable state (atom cells, environment frames) lives in arenas owned by the
//! interpreter; a value refers to a cell or a frame by index.  A value is
//! therefore a plain tree and its view is the ghost tree `SpecVal`.
use vstd::prelude::*;

verus! {

/// Identifies one of the host-provided built-in functions.  The table that
/// binds names to these tags is `NameSpace::new`.
#[derive(Clone, Copy, PartialEq, Eq, Structural)]
pub enum Builtin {
    Add,
    Sub,
    Mul,
    Div,
    Prn,
    PrStr,
    Str,
    PrintLn,
    List,
    IsList,
    IsEmpty,
    Count,
    Eq,
    Lt,
    Le,
    Gt,
    Ge,
    ReadString,
    Slurp,
    Atom,
    IsAtom,
    Deref,
    Reset,
    Swap,
    Cons,
    Concat,
    Vec,
    Eval,
}

/// A function value: the unevaluated body, the parameter names, and the index
/// of the captured environment frame.
pub struct ClosureType {
    pub ast: Box<MalType>,
    pub params: Vec<Vec<char>>,
    pub env: usize,
}

/// The runtime value.  `Atom` holds an index into the interpreter's cell
/// arena; `Func` captures an environment frame by index.
pub enum MalType {
    Int(i32),
    Symbol(Vec<char>),
    List(Vec<MalType>),
    HashMap(Vec<(MalType, MalType)>),
    Keyword(Vec<char>),
    Str(Vec<char>),
    Vector(Vec<MalType>),
    Bool(bool),
    BuiltinFunc(Builtin),
    Atom(usize),
    Func(ClosureType),
    Nil,
}

/// The ghost mirror of `MalType`: text becomes `Seq<char>`, vectors become
/// `Seq`, and the numeric payload is unbounded.
#[verifier::ext_equal]
pub enum SpecVal {
    Int(int),
    Symbol(Seq<char>),
    List(Seq<SpecVal>),
    HashMap(Seq<(SpecVal, SpecVal)>),
    Keyword(Seq<char>),
    Str(Seq<char>),
    Vector(Seq<SpecVal>),
    Bool(bool),
    BuiltinFunc(Builtin),
    Atom(int),
    Func(SpecClosure),
    Nil,
}

#[verifier::ext_equal]
pub struct SpecClosure {
    pub ast: Box<SpecVal>,
    pub params: Seq<Seq<char>>,
    pub env: int,
}

pub open spec fn view_seq(s: Seq<MalType>) -> Seq<SpecVal>
    decreases s,
{
    if s.len() == 0 {
        Seq::empty()
    } else {
        view_seq(s.drop_last()).push(val_view(s.last()))
    }
}

pub open spec fn view_kvs(s: Seq<(MalType, MalType)>) -> Seq<(SpecVal, SpecVal)>
    decreases s,
{
    if s.len() == 0 {
        Seq::empty()
    } else {
        view_kvs(s.drop_last()).push((val_view(s.last().0), val_view(s.last().1)))
    }
}

pub open spec fn val_view(v: MalType) -> SpecVal
    decreases v,
{
    match v {
        MalType::Int(i) => SpecVal::Int(i as int),
        MalType::Symbol(s) => SpecVal::Symbol(s@),
        MalType::List(items) => SpecVal::List(view_seq(items@)),
        MalType::HashMap(kvs) => SpecVal::HashMap(view_kvs(kvs@)),
        MalType::Keyword(s) => SpecVal::Keyword(s@),
        MalType::Str(s) => SpecVal::Str(s@),
        MalType::Vector(items) => SpecVal::Vector(view_seq(items@)),
        MalType::Bool(b) => SpecVal::Bool(b),
        MalType::BuiltinFunc(b) => SpecVal::BuiltinFunc(b),
        MalType::Atom(i) => SpecVal::Atom(i as int),
        MalType::Func(c) => SpecVal::Func(
            SpecClosure { ast: Box::new(val_view(*c.ast)), params: params_view(c.params@), env: c.env as int },
        ),
        MalType::Nil => SpecVal::Nil,
    }
}

pub open spec fn params_view(p: Seq<Vec<char>>) -> Seq<Seq<char>> {
    p.map(|i: int, v: Vec<char>| v@)
}

impl View for MalType {
    type V = SpecVal;

    open spec fn view(&self) -> SpecVal {
        val_view(*self)
    }
}

/// Copies a string slice into a vector of characters, the text type that the
/// reader, the printer and the environment work on.
pub fn str_to_chars(s: &str) -> (r: Vec<char>)
    ensures
        r@ == s@,
{
    let n: usize = s.unicode_len();
    let mut r: Vec<char> = Vec::new();
    let mut i: usize = 0;
    while i < n
        invariant
            i <= n,
            n == s@.len(),
            r@ == s@.subrange(0, i as int),
        decreases n - i,
    {
        r.push(s.get_char(i));
        assert(r@ =~= s@.subrange(0, i + 1 as int));
        i = i + 1;
    }
    assert(r@ =~= s@);
    r
}

/// Character-for-character equality of two text values.
pub fn chars_eq(a: &Vec<char>, b: &Vec<char>) -> (r: bool)
    ensures
        r == (a@ == b@),
{
    if a.len() != b.len() {
        assert(a@ != b@);
        return false;
    }
    let n: usize = a.len();
    let mut i: usize = 0;
    while i < n
        invariant
            i <= n,
            n == a@.len() == b@.len(),
            forall|j: int| 0 <= j < i ==> a@[j] == b@[j],
        decreases n - i,
    {
        if a[i] != b[i] {
            return false;
        }
        i = i + 1;
    }
    assert(a@ =~= b@);
    true
}

/// Equality of a text value against a literal.
pub fn chars_eq_str(a: &Vec<char>, b: &str) -> (r: bool)
    ensures
        r == (a@ == b@),
{
    let bc = str_to_chars(b);
    chars_eq(a, &bc)
}

/// Appends all characters of `b` to `a`.
pub fn let_append(a: &mut Vec<char>, b: &Vec<char>)
    ensures
        final(a)@ == old(a)@ + b@,
{
    let n: usize = b.len();
    let mut k: usize = 0;
    while k < n
        invariant
            k <= n,
            n == b@.len(),
            a@ == old(a)@ + b@.subrange(0, k as int),
        decreases n - k,
    {
        a.push(b[k]);
        assert(a@ =~= old(a)@ + b@.subrange(0, k + 1 as int));
        k = k + 1;
    }
    assert(old(a)@ + b@.subrange(0, n as int) =~= old(a)@ + b@);
}

pub fn chars_clone(a: &Vec<char>) -> (r: Vec<char>)
    ensures
        r@ == a@,
{
    let n: usize = a.len();
    let mut r: Vec<char> = Vec::new();
    let mut i: usize = 0;
    while i < n
        invariant
            i <= n,
            n == a@.len(),
            r@ == a@.subrange(0, i as int),
        decreases n - i,
    {
        r.push(a[i]);
        assert(r@ =~= a@.subrange(0, i + 1 as int));
        i = i + 1;
    }
    assert(r@ =~= a@);
    r
}

impl MalType {
    /// A deep copy: values are immutable trees, so sharing is replaced by
    /// copying, and the copy has the same view.
    pub fn mal_clone(&self) -> (r: MalType)
        ensures
            r@ == self@,
        decreases self,
    {
        match self {
            MalType::Int(i) => MalType::Int(*i),
            MalType::Symbol(s) => MalType::Symbol(chars_clone(s)),
            MalType::Keyword(s) => MalType::Keyword(chars_clone(s)),
            MalType::Str(s) => MalType::Str(chars_clone(s)),
            MalType::Bool(b) => MalType::Bool(*b),
            MalType::BuiltinFunc(b) => MalType::BuiltinFunc(*b),
            MalType::Atom(i) => MalType::Atom(*i),
            MalType::Nil => MalType::Nil,
            MalType::List(items) => MalType::List(clone_seq(items)),
            MalType::Vector(items) => MalType::Vector(clone_seq(items)),
            MalType::HashMap(kvs) => MalType::HashMap(clone_kvs(kvs)),
            MalType::Func(c) => MalType::Func(ClosureType {
                ast: Box::new(c.ast.mal_clone()),
                params: clone_params(&c.params),
                env: c.env,
            }),
        }
    }
}

/// Deep copies of the values `items[start..end]`.
pub fn clone_range(items: &Vec<MalType>, start: usize, end: usize) -> (r: Vec<MalType>)
    requires
        start <= end <= items@.len(),
    ensures
        view_seq(r@) == view_seq(items@).subrange(start as int, end as int),
        r@.len() == end - start,
{
    proof {
        lemma_view_seq_index(items@);
    }
    let mut r: Vec<MalType> = Vec::new();
    let mut i: usize = start;
    while i < end
        invariant
            start <= i <= end <= items@.len(),
            r@.len() == i - start,
            view_seq(items@).len() == items@.len(),
            forall|j: int| 0 <= j < items@.len() ==> #[trigger] view_seq(items@)[j] == items@[j]@,
            view_seq(r@) == view_seq(items@).subrange(start as int, i as int),
        decreases end - i,
    {
        proof {
            assert(decreases_to!(items => items@[i as int]));
        }
        let ghost old_r = r@;
        r.push(items[i].mal_clone());
        proof {
            assert(r@.drop_last() =~= old_r);
            assert(view_seq(r@) =~= view_seq(old_r).push(items@[i as int]@));
            assert(view_seq(items@).subrange(start as int, i + 1 as int).drop_last()
                =~= view_seq(items@).subrange(start as int, i as int));
            assert(view_seq(items@).subrange(start as int, i + 1 as int).last() == view_seq(
                items@,
            )[i as int]);
            assert(view_seq(r@) =~= view_seq(items@).subrange(start as int, i + 1 as int));
        }
        i = i + 1;
    }
    r
}

fn clone_seq(items: &Vec<MalType>) -> (r: Vec<MalType>)
    ensures
        view_seq(r@) == view_seq(items@),
        r@.len() == items@.len(),
    decreases items,
{
    let n: usize = items.len();
    let mut r: Vec<MalType> = Vec::new();
    let mut i: usize = 0;
    while i < n
        invariant
            i <= n,
            n == items@.len(),
            r@.len() == i,
            view_seq(r@) == view_seq(items@.subrange(0, i as int)),
        decreases n - i,
    {
        proof {
            assert(decreases_to!(items => items@[i as int]));
        }
        let ghost old_r = r@;
        r.push(items[i].mal_clone());
        proof {
            assert(r@.drop_last() =~= old_r);
            assert(items@.subrange(0, i + 1 as int).drop_last() =~= items@.subrange(0, i as int));
            assert(items@.subrange(0, i + 1 as int).last() == items@[i as int]);
        }
        i = i + 1;
    }
    proof {
        assert(items@.subrange(0, n as int) =~= items@);
    }
    r
}

fn clone_kvs(kvs: &Vec<(MalType, MalType)>) -> (r: Vec<(MalType, MalType)>)
    ensures
        view_kvs(r@) == view_kvs(kvs@),
        r@.len() == kvs@.len(),
    decreases kvs,
{
    let n: usize = kvs.len();
    let mut r: Vec<(MalType, MalType)> = Vec::new();
    let mut i: usize = 0;
    while i < n
        invariant
            i <= n,
            n == kvs@.len(),
            r@.len() == i,
            view_kvs(r@) == view_kvs(kvs@.subrange(0, i as int)),
        decreases n - i,
    {
        proof {
            assert(decreases_to!(kvs => kvs@[i as int].0));
            assert(decreases_to!(kvs => kvs@[i as int].1));
        }
        let ghost old_r = r@;
        let kv = &kvs[i];
        r.push((kv.0.mal_clone(), kv.1.mal_clone()));
        proof {
            assert(r@.drop_last() =~= old_r);
            assert(kvs@.subrange(0, i + 1 as int).drop_last() =~= kvs@.subrange(0, i as int));
            assert(kvs@.subrange(0, i + 1 as int).last() == kvs@[i as int]);
        }
        i = i + 1;
    }
    proof {
        assert(kvs@.subrange(0, n as int) =~= kvs@);
    }
    r
}

fn clone_params(params: &Vec<Vec<char>>) -> (r: Vec<Vec<char>>)
    ensures
        params_view(r@) == params_view(params@),
        r@.len() == params@.len(),
{
    let n: usize = params.len();
    let mut r: Vec<Vec<char>> = Vec::new();
    let mut i: usize = 0;
    while i < n
        invariant
            i <= n,
            n == params@.len(),
            r@.len() == i,
            forall|j: int| 0 <= j < i ==> r@[j]@ == params@[j]@,
        decreases n - i,
    {
        r.push(chars_clone(&params[i]));
        i = i + 1;
    }
    proof {
        assert(params_view(r@) =~= params_view(params@));
    }
    r
}

/// Structural equality of the `=` built-in: scalars compare by payload, lists
/// and vectors compare elementwise and also across the two shapes, and
/// functions, atoms and hash-maps never compare equal.
pub open spec fn spec_eq(a: SpecVal, b: SpecVal) -> bool
    decreases a,
{
    match (a, b) {
        (SpecVal::Int(x), SpecVal::Int(y)) => x == y,
        (SpecVal::Symbol(x), SpecVal::Symbol(y)) => x == y,
        (SpecVal::Str(x), SpecVal::Str(y)) => x == y,
        (SpecVal::Keyword(x), SpecVal::Keyword(y)) => x == y,
        (SpecVal::Bool(x), SpecVal::Bool(y)) => x == y,
        (SpecVal::Nil, SpecVal::Nil) => true,
        (SpecVal::List(x), SpecVal::List(y)) => spec_eq_items(x, y),
        (SpecVal::List(x), SpecVal::Vector(y)) => spec_eq_items(x, y),
        (SpecVal::Vector(x), SpecVal::List(y)) => spec_eq_items(x, y),
        (SpecVal::Vector(x), SpecVal::Vector(y)) => spec_eq_items(x, y),
        _ => false,
    }
}

pub open spec fn spec_eq_items(x: Seq<SpecVal>, y: Seq<SpecVal>) -> bool
    decreases x,
{
    if x.len() != y.len() {
        false
    } else if x.len() == 0 {
        true
    } else {
        spec_eq_items(x.drop_last(), y.drop_last()) && spec_eq(x.last(), y.last())
    }
}

/// Equality over two sequences is equality at every index.
pub proof fn lemma_eq_items_index(x: Seq<SpecVal>, y: Seq<SpecVal>)
    ensures
        spec_eq_items(x, y) <==> (x.len() == y.len() && forall|i: int|
            0 <= i < x.len() ==> spec_eq(x[i], y[i])),
    decreases x,
{
    if x.len() == y.len() && x.len() > 0 {
        lemma_eq_items_index(x.drop_last(), y.drop_last());
        if spec_eq_items(x, y) {
            assert forall|i: int| 0 <= i < x.len() implies spec_eq(x[i], y[i]) by {
                if i < x.len() - 1 {
                    assert(x.drop_last()[i] == x[i]);
                    assert(y.drop_last()[i] == y[i]);
                }
            }
        }
        if x.len() == y.len() && forall|i: int| 0 <= i < x.len() ==> spec_eq(x[i], y[i]) {
            assert forall|i: int| 0 <= i < x.drop_last().len() implies spec_eq(
                x.drop_last()[i],
                y.drop_last()[i],
            ) by {
                assert(x.drop_last()[i] == x[i]);
                assert(y.drop_last()[i] == y[i]);
            }
            assert(spec_eq(x.last(), y.last()));
        }
    }
}

impl MalType {
    /// The `=` built-in's comparison.
    pub fn mal_eq(&self, other: &MalType) -> (r: bool)
        ensures
            r == spec_eq(self@, other@),
        decreases self,
    {
        match (self, other) {
            (MalType::Int(x), MalType::Int(y)) => *x == *y,
            (MalType::Symbol(x), MalType::Symbol(y)) => chars_eq(x, y),
            (MalType::Str(x), MalType::Str(y)) => chars_eq(x, y),
            (MalType::Keyword(x), MalType::Keyword(y)) => chars_eq(x, y),
            (MalType::Bool(x), MalType::Bool(y)) => *x == *y,
            (MalType::Nil, MalType::Nil) => true,
            (MalType::List(x), MalType::List(y)) => items_eq(x, y),
            (MalType::List(x), MalType::Vector(y)) => items_eq(x, y),
            (MalType::Vector(x), MalType::List(y)) => items_eq(x, y),
            (MalType::Vector(x), MalType::Vector(y)) => items_eq(x, y),
            _ => false,
        }
    }
}

impl PartialEq for MalType {
    /// `==` is the `=` built-in's structural comparison.
    fn eq(&self, other: &MalType) -> (r: bool) {
        self.mal_eq(other)
    }
}

impl vstd::std_specs::cmp::PartialEqSpecImpl for MalType {
    open spec fn obeys_eq_spec() -> bool {
        true
    }

    open spec fn eq_spec(&self, other: &MalType) -> bool {
        spec_eq(self@, other@)
    }
}

fn items_eq(x: &Vec<MalType>, y: &Vec<MalType>) -> (r: bool)
    ensures
        r == spec_eq_items(view_seq(x@), view_seq(y@)),
    decreases x,
{
    proof {
        lemma_view_seq_index(x@);
        lemma_view_seq_index(y@);
        lemma_eq_items_index(view_seq(x@), view_seq(y@));
    }
    if x.len() != y.len() {
        return false;
    }
    let n: usize = x.len();
    let mut i: usize = 0;
    while i < n
        invariant
            i <= n,
            n == x@.len() == y@.len(),
            view_seq(x@).len() == n && view_seq(y@).len() == n,
            forall|j: int| 0 <= j < n ==> #[trigger] view_seq(x@)[j] == val_view(x@[j]),
            forall|j: int| 0 <= j < n ==> #[trigger] view_seq(y@)[j] == val_view(y@[j]),
            forall|j: int| 0 <= j < i ==> spec_eq(view_seq(x@)[j], view_seq(y@)[j]),
        decreases n - i,
    {
        proof {
            assert(decreases_to!(x => x@[i as int]));
            assert(view_seq(x@)[i as int] == val_view(x@[i as int]));
            assert(view_seq(y@)[i as int] == val_view(y@[i as int]));
        }
        if !x[i].mal_eq(&y[i]) {
            proof {
                lemma_eq_items_index(view_seq(x@), view_seq(y@));
            }
            return false;
        }
        i = i + 1;
    }
    proof {
        lemma_eq_items_index(view_seq(x@), view_seq(y@));
    }
    true
}

/// The view of a sequence of values has the same length and views each
/// element.
pub proof fn lemma_view_seq_index(s: Seq<MalType>)
    ensures
        view_seq(s).len() == s.len(),
        forall|i: int| 0 <= i < s.len() ==> #[trigger] view_seq(s)[i] == val_view(s[i]),
    decreases s,
{
    if s.len() > 0 {
        lemma_view_seq_index(s.drop_last());
        assert forall|i: int| 0 <= i < s.len() implies view_seq(s)[i] == val_view(s[i]) by {
            if i < s.len() - 1 {
                assert(s.drop_last()[i] == s[i]);
            }
        }
    }
}

/// The view of a sequence of key/value pairs.
pub proof fn lemma_view_kvs_index(s: Seq<(MalType, MalType)>)
    ensures
        view_kvs(s).len() == s.len(),
        forall|i: int|
            0 <= i < s.len() ==> #[trigger] view_kvs(s)[i] == (
                val_view(s[i].0),
                val_view(s[i].1),
            ),
    decreases s,
{
    if s.len() > 0 {
        lemma_view_kvs_index(s.drop_last());
        assert forall|i: int|
            0 <= i < s.len() implies view_kvs(s)[i] == (val_view(s[i].0), val_view(s[i].1)) by {
            if i < s.len() - 1 {
                assert(s.drop_last()[i] == s[i]);
            }
        }
    }
}

/// A value and its view always carry the same tag.
pub proof fn lemma_view_variants(v: MalType)
    ensures
        (val_view(v) is Int) == (v is Int),
        (val_view(v) is Symbol) == (v is Symbol),
        (val_view(v) is List) == (v is List),
        (val_view(v) is HashMap) == (v is HashMap),
        (val_view(v) is Keyword) == (v is Keyword),
        (val_view(v) is Str) == (v is Str),
        (val_view(v) is Vector) == (v is Vector),
        (val_view(v) is Bool) == (v is Bool),
        (val_view(v) is BuiltinFunc) == (v is BuiltinFunc),
        (val_view(v) is Atom) == (v is Atom),
        (val_view(v) is Func) == (v is Func),
        (val_view(v) is Nil) == (v is Nil),
{
    match v {
        MalType::Int(_) => {},
        MalType::Symbol(_) => {},
        MalType::List(_) => {},
        MalType::HashMap(_) => {},
        MalType::Keyword(_) => {},
        MalType::Str(_) => {},
        MalType::Vector(_) => {},
        MalType::Bool(_) => {},
        MalType::BuiltinFunc(_) => {},
        MalType::Atom(_) => {},
        MalType::Func(_) => {},
        MalType::Nil => {},
    }
}

/// A value's view is a symbol exactly when the value is, and with the same
/// characters.
pub proof fn lemma_view_symbol(v: MalType)
    ensures
        (val_view(v) is Symbol) == (v is Symbol),
        v matches MalType::Symbol(s) ==> val_view(v) == SpecVal::Symbol(s@),
{
    match v {
        MalType::Int(_) => {},
        MalType::Symbol(_) => {},
        MalType::List(_) => {},
        MalType::HashMap(_) => {},
        MalType::Keyword(_) => {},
        MalType::Str(_) => {},
        MalType::Vector(_) => {},
        MalType::Bool(_) => {},
        MalType::BuiltinFunc(_) => {},
        MalType::Atom(_) => {},
        MalType::Func(_) => {},
        MalType::Nil => {},
    }
}

/// Well-formedness of a value against the interpreter's arenas: a closure
/// captures an existing environment frame and an atom names an existing cell.
pub open spec fn val_wf(v: SpecVal, nframes: int, natoms: int) -> bool
    decreases v,
{
    match v {
        SpecVal::List(items) => forall|i: int|
            0 <= i < items.len() ==> val_wf(#[trigger] items[i], nframes, natoms),
        SpecVal::Vector(items) => forall|i: int|
            0 <= i < items.len() ==> val_wf(#[trigger] items[i], nframes, natoms),
        SpecVal::HashMap(kvs) => forall|i: int|
            0 <= i < kvs.len() ==> val_wf(#[trigger] kvs[i].0, nframes, natoms) && val_wf(
                kvs[i].1,
                nframes,
                natoms,
            ),
        SpecVal::Func(c) => 0 <= c.env < nframes && val_wf(*c.ast, nframes, natoms),
        SpecVal::Atom(i) => 0 <= i < natoms,
        _ => true,
    }
}

/// Growing the arenas keeps every value well formed.
pub proof fn lemma_val_wf_mono(v: SpecVal, nf: int, na: int, nf2: int, na2: int)
    requires
        val_wf(v, nf, na),
        nf <= nf2,
        na <= na2,
    ensures
        val_wf(v, nf2, na2),
    decreases v,
{
    match v {
        SpecVal::List(items) => {
            assert forall|i: int| 0 <= i < items.len() implies val_wf(
                #[trigger] items[i],
                nf2,
                na2,
            ) by {
                lemma_val_wf_mono(items[i], nf, na, nf2, na2);
            }
        },
        SpecVal::Vector(items) => {
            assert forall|i: int| 0 <= i < items.len() implies val_wf(
                #[trigger] items[i],
                nf2,
                na2,
            ) by {
                lemma_val_wf_mono(items[i], nf, na, nf2, na2);
            }
        },
        SpecVal::HashMap(kvs) => {
            assert forall|i: int| 0 <= i < kvs.len() implies val_wf(#[trigger] kvs[i].0, nf2, na2)
                && val_wf(kvs[i].1, nf2, na2) by {
                lemma_val_wf_mono(kvs[i].0, nf, na, nf2, na2);
                lemma_val_wf_mono(kvs[i].1, nf, na, nf2, na2);
            }
        },
        SpecVal::Func(c) => {
            lemma_val_wf_mono(*c.ast, nf, na, nf2, na2);
        },
        _ => {},
    }
}

} // verus!
