//! Environments: name-to-value mappings chained through an outer reference.
//!
//! All frames live in one arena (`Env`); a frame names its outer frame by a
//! smaller index, so lookup terminates.  `def!` appends an entry to a frame
//! and lookup scans entries from the most recent, so a later binding of the
//! same name wins.
use crate::types::{chars_clone, chars_eq, str_to_chars, val_view, Builtin, MalType, SpecVal};
use vstd::prelude::*;

verus! {

/// One scope: its local bindings and the index of the enclosing frame.
pub struct Frame {
    pub entries: Vec<(Vec<char>, MalType)>,
    pub outer: Option<usize>,
}

/// The arena of every environment frame ever created; index 0 is the root.
pub struct Env {
    pub frames: Vec<Frame>,
}

#[verifier::ext_equal]
pub struct SpecFrame {
    pub entries: Seq<(Seq<char>, SpecVal)>,
    pub outer: Option<int>,
}

pub open spec fn entries_view(entries: Seq<(Vec<char>, MalType)>) -> Seq<(Seq<char>, SpecVal)> {
    entries.map(|i: int, e: (Vec<char>, MalType)| (e.0@, val_view(e.1)))
}

impl View for Frame {
    type V = SpecFrame;

    open spec fn view(&self) -> SpecFrame {
        SpecFrame {
            entries: entries_view(self.entries@),
            outer: match self.outer {
                Some(o) => Some(o as int),
                None => None,
            },
        }
    }
}

impl View for Env {
    type V = Seq<SpecFrame>;

    open spec fn view(&self) -> Seq<SpecFrame> {
        self.frames@.map(|i: int, f: Frame| f@)
    }
}

/// Every frame's outer reference points to an earlier frame.
pub open spec fn frames_wf(frames: Seq<SpecFrame>) -> bool {
    forall|i: int|
        0 <= i < frames.len() ==> (#[trigger] frames[i].outer matches Some(o) ==> 0 <= o < i)
}

/// Searches one frame's entries, most recent binding first.
pub open spec fn frame_lookup(entries: Seq<(Seq<char>, SpecVal)>, name: Seq<char>) -> Option<
    SpecVal,
>
    decreases entries,
{
    if entries.len() == 0 {
        None
    } else if entries.last().0 == name {
        Some(entries.last().1)
    } else {
        frame_lookup(entries.drop_last(), name)
    }
}

/// Searches the frame chain starting at `fid`, following outer references.
pub open spec fn env_lookup(frames: Seq<SpecFrame>, fid: int, name: Seq<char>) -> Option<SpecVal>
    decreases fid,
        when 0 <= fid < frames.len() && frames_wf(frames)
{
    match frame_lookup(frames[fid].entries, name) {
        Some(v) => Some(v),
        None => match frames[fid].outer {
            Some(o) => env_lookup(frames, o, name),
            None => None,
        },
    }
}

/// The bindings formed by pairing a parameter list against an argument list.
/// The parameter `&` binds the following parameter to a list of the remaining
/// arguments; parameters beyond the supplied arguments are left unbound.
pub open spec fn spec_bind(
    params: Seq<Seq<char>>,
    args: Seq<SpecVal>,
    i: int,
) -> Seq<(Seq<char>, SpecVal)>
    decreases params.len() - i,
        when 0 <= i
{
    if i >= params.len() {
        Seq::empty()
    } else if params[i] == "&"@ {
        if i + 1 < params.len() {
            let rest = if i <= args.len() {
                args.skip(i)
            } else {
                Seq::empty()
            };
            seq![(params[i + 1], SpecVal::List(rest))]
        } else {
            Seq::empty()
        }
    } else if i >= args.len() {
        Seq::empty()
    } else {
        seq![(params[i], args[i])].add(spec_bind(params, args, i + 1))
    }
}

impl Env {
    /// A fresh arena holding only the root frame, with the four arithmetic
    /// built-ins installed.
    pub fn new_root() -> (env: Env)
        ensures
            env@.len() == 1,
            env@[0].outer is None,
            env@[0].entries == root_entries(),
            frames_wf(env@),
    {
        let mut env = Env { frames: Vec::new() };
        let frame = Frame { entries: Vec::new(), outer: None };
        env.frames.push(frame);
        proof {
            assert(env@ =~= seq![
                SpecFrame { entries: entries_view(Seq::empty()), outer: None },
            ]);
            assert(entries_view(Seq::empty()) =~= Seq::<(Seq<char>, SpecVal)>::empty());
        }
        env.load_builtin();
        proof {
            assert(env@[0].entries =~= root_entries());
        }
        env
    }

    /// A fresh empty frame whose outer reference is `outer`; returns its
    /// index.
    pub fn new(&mut self, outer: usize) -> (id: usize)
        requires
            outer < old(self)@.len(),
        ensures
            id == old(self)@.len(),
            final(self)@ == old(self)@.push(
                SpecFrame { entries: Seq::empty(), outer: Some(outer as int) },
            ),
            frames_wf(old(self)@) ==> frames_wf(final(self)@),
    {
        let id = self.frames.len();
        self.frames.push(Frame { entries: Vec::new(), outer: Some(outer) });
        proof {
            assert(entries_view(Seq::empty()) =~= Seq::<(Seq<char>, SpecVal)>::empty());
            assert(self@ =~= old(self)@.push(
                SpecFrame { entries: Seq::empty(), outer: Some(outer as int) },
            ));
        }
        id
    }

    /// A fresh frame holding the given bindings, as a function call creates
    /// it; returns its index.
    pub fn new_with(&mut self, outer: usize, entries: Vec<(Vec<char>, MalType)>) -> (id: usize)
        requires
            outer < old(self)@.len(),
        ensures
            id == old(self)@.len(),
            final(self)@ == old(self)@.push(
                SpecFrame { entries: entries_view(entries@), outer: Some(outer as int) },
            ),
    {
        let id = self.frames.len();
        self.frames.push(Frame { entries: entries, outer: Some(outer) });
        proof {
            assert(self@ =~= old(self)@.push(
                SpecFrame { entries: entries_view(entries@), outer: Some(outer as int) },
            ));
        }
        id
    }

    /// Looks a symbol up in the chain that starts at `frame`.
    #[verifier::loop_isolation(false)]
    pub fn get(&self, frame: usize, name: &Vec<char>) -> (r: Option<MalType>)
        requires
            frame < self@.len(),
            frames_wf(self@),
        ensures
            r is Some <==> env_lookup(self@, frame as int, name@) is Some,
            r matches Some(v) ==> env_lookup(self@, frame as int, name@) == Some(v@),
    {
        let mut cur: usize = frame;
        loop
            invariant
                cur < self@.len(),
                frames_wf(self@),
                env_lookup(self@, frame as int, name@) == env_lookup(self@, cur as int, name@),
            decreases cur,
        {
            let f = &self.frames[cur];
            let n: usize = f.entries.len();
            let mut j: usize = n;
            proof {
                assert(self@[cur as int].entries =~= entries_view(f.entries@));
                let ghost cure = self@[cur as int].entries;
                assert(cure.subrange(0, n as int) =~= cure);
            }
            while j > 0
                invariant
                    j <= n,
                    n == f.entries@.len(),
                    self@[cur as int].entries == entries_view(f.entries@),
                    n == self@[cur as int].entries.len(),
                    cur < self@.len(),
                    frame_lookup(self@[cur as int].entries, name@) == frame_lookup(
                        self@[cur as int].entries.subrange(0, j as int),
                        name@,
                    ),
                decreases j,
            {
                let ghost entries = self@[cur as int].entries;
                proof {
                    assert(entries[j - 1] == (f.entries@[j - 1].0@, val_view(f.entries@[j - 1].1)));
                    assert(entries.subrange(0, j as int).drop_last() =~= entries.subrange(
                        0,
                        j - 1,
                    ));
                    assert(entries.subrange(0, j as int).last() == entries[j - 1]);
                }
                if chars_eq(&f.entries[j - 1].0, name) {
                    return Some(f.entries[j - 1].1.mal_clone());
                }
                j = j - 1;
            }
            proof {
                assert(self@[cur as int].entries.subrange(0, 0) =~= Seq::<
                    (Seq<char>, SpecVal),
                >::empty());
            }
            match f.outer {
                Some(o) => {
                    cur = o;
                },
                None => {
                    return None;
                },
            }
        }
    }

    /// Inserts or overwrites a binding in the local mapping of `frame` only.
    pub fn set(&mut self, frame: usize, name: &Vec<char>, value: MalType)
        requires
            frame < old(self)@.len(),
        ensures
            final(self)@ =~= old(self)@.update(
                frame as int,
                SpecFrame {
                    entries: old(self)@[frame as int].entries.push((name@, value@)),
                    outer: old(self)@[frame as int].outer,
                },
            ),
    {
        let ghost oldf = self.frames@[frame as int];
        let f = &mut self.frames[frame];
        f.entries.push((chars_clone(name), value));
        proof {
            assert(entries_view(f.entries@) =~= entries_view(oldf.entries@).push(
                (name@, val_view(value)),
            ));
            assert(self@ =~= old(self)@.update(
                frame as int,
                SpecFrame {
                    entries: old(self)@[frame as int].entries.push((name@, value@)),
                    outer: old(self)@[frame as int].outer,
                },
            ));
        }
    }

    /// Installs the four arithmetic built-ins into the root frame.
    pub fn load_builtin(&mut self)
        requires
            old(self)@.len() >= 1,
        ensures
            final(self)@ =~= old(self)@.update(
                0,
                SpecFrame {
                    entries: old(self)@[0].entries + root_entries(),
                    outer: old(self)@[0].outer,
                },
            ),
    {
        self.load_add();
        self.load_sub();
        self.load_mul();
        self.load_div();
        proof {
            assert(self@ =~~= old(self)@.update(
                0,
                SpecFrame {
                    entries: old(self)@[0].entries + root_entries(),
                    outer: old(self)@[0].outer,
                },
            ));
        }
    }

    fn load_add(&mut self)
        requires
            old(self)@.len() >= 1,
        ensures
            final(self)@ =~= old(self)@.update(
                0,
                SpecFrame {
                    entries: old(self)@[0].entries.push(
                        ("+"@, SpecVal::BuiltinFunc(Builtin::Add)),
                    ),
                    outer: old(self)@[0].outer,
                },
            ),
    {
        let name = str_to_chars("+");
        self.set(0, &name, MalType::BuiltinFunc(Builtin::Add));
    }

    fn load_sub(&mut self)
        requires
            old(self)@.len() >= 1,
        ensures
            final(self)@ =~= old(self)@.update(
                0,
                SpecFrame {
                    entries: old(self)@[0].entries.push(
                        ("-"@, SpecVal::BuiltinFunc(Builtin::Sub)),
                    ),
                    outer: old(self)@[0].outer,
                },
            ),
    {
        let name = str_to_chars("-");
        self.set(0, &name, MalType::BuiltinFunc(Builtin::Sub));
    }

    fn load_mul(&mut self)
        requires
            old(self)@.len() >= 1,
        ensures
            final(self)@ =~= old(self)@.update(
                0,
                SpecFrame {
                    entries: old(self)@[0].entries.push(
                        ("*"@, SpecVal::BuiltinFunc(Builtin::Mul)),
                    ),
                    outer: old(self)@[0].outer,
                },
            ),
    {
        let name = str_to_chars("*");
        self.set(0, &name, MalType::BuiltinFunc(Builtin::Mul));
    }

    fn load_div(&mut self)
        requires
            old(self)@.len() >= 1,
        ensures
            final(self)@ =~= old(self)@.update(
                0,
                SpecFrame {
                    entries: old(self)@[0].entries.push(
                        ("/"@, SpecVal::BuiltinFunc(Builtin::Div)),
                    ),
                    outer: old(self)@[0].outer,
                },
            ),
    {
        let name = str_to_chars("/");
        self.set(0, &name, MalType::BuiltinFunc(Builtin::Div));
    }
}

/// The bindings that `Env::load_builtin` installs.
pub open spec fn root_entries() -> Seq<(Seq<char>, SpecVal)> {
    seq![
        ("+"@, SpecVal::BuiltinFunc(Builtin::Add)),
        ("-"@, SpecVal::BuiltinFunc(Builtin::Sub)),
        ("*"@, SpecVal::BuiltinFunc(Builtin::Mul)),
        ("/"@, SpecVal::BuiltinFunc(Builtin::Div)),
    ]
}

} // verus!
