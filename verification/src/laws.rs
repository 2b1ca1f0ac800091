//! Properties the interpreter obeys, stated and proved over the
//! specification model.
use crate::env::{env_lookup, frame_lookup, frames_wf, spec_bind, SpecFrame};
use crate::interp::{argv_vals, spec_startup, state_wf, SpecState};
use crate::types::{spec_eq, spec_eq_items, SpecClosure, SpecVal};
use vstd::prelude::*;

verus! {

/// The values whose equality is reflexive: everything except functions,
/// atom cells, and hash-maps, whose equality the `=` built-in leaves
/// unspecified and answers with false.
pub open spec fn eq_reflexive_val(v: SpecVal) -> bool
    decreases v,
{
    match v {
        SpecVal::Int(_) => true,
        SpecVal::Bool(_) => true,
        SpecVal::Nil => true,
        SpecVal::Str(_) => true,
        SpecVal::Symbol(_) => true,
        SpecVal::Keyword(_) => true,
        SpecVal::List(items) => forall|i: int|
            0 <= i < items.len() ==> eq_reflexive_val(#[trigger] items[i]),
        SpecVal::Vector(items) => forall|i: int|
            0 <= i < items.len() ==> eq_reflexive_val(#[trigger] items[i]),
        _ => false,
    }
}

/// `(= x x)` is true for any readable value: structural equality is
/// reflexive on everything the reader can produce except hash-maps.
pub proof fn lemma_eq_refl(v: SpecVal)
    requires
        eq_reflexive_val(v),
    ensures
        spec_eq(v, v),
    decreases v,
{
    match v {
        SpecVal::List(items) => {
            lemma_eq_refl_items(items);
        },
        SpecVal::Vector(items) => {
            lemma_eq_refl_items(items);
        },
        _ => {},
    }
}

proof fn lemma_eq_refl_items(items: Seq<SpecVal>)
    requires
        forall|i: int| 0 <= i < items.len() ==> eq_reflexive_val(#[trigger] items[i]),
    ensures
        spec_eq_items(items, items),
    decreases items,
{
    if items.len() > 0 {
        lemma_eq_refl_items(items.drop_last());
        lemma_eq_refl(items.last());
    }
}

/// A list and a vector of the same readable elements compare equal under
/// the `=` built-in, in both orders.
pub proof fn lemma_list_vector_eq(items: Seq<SpecVal>)
    requires
        forall|i: int| 0 <= i < items.len() ==> eq_reflexive_val(#[trigger] items[i]),
    ensures
        spec_eq(SpecVal::List(items), SpecVal::Vector(items)),
        spec_eq(SpecVal::Vector(items), SpecVal::List(items)),
{
    lemma_eq_refl_items(items);
}

/// Pushing a frame on the arena changes no lookup through the frames that
/// already existed.
pub proof fn lemma_env_lookup_push(
    frames: Seq<SpecFrame>,
    f: SpecFrame,
    fid: int,
    name: Seq<char>,
)
    requires
        frames_wf(frames),
        0 <= fid < frames.len(),
        f.outer matches Some(o) ==> 0 <= o < frames.len(),
    ensures
        frames_wf(frames.push(f)),
        env_lookup(frames.push(f), fid, name) == env_lookup(frames, fid, name),
    decreases fid,
{
    let frames2 = frames.push(f);
    assert forall|i: int|
        0 <= i < frames2.len() implies (#[trigger] frames2[i].outer matches Some(o) ==> 0 <= o
        < i) by {
        if i < frames.len() {
            assert(frames2[i] == frames[i]);
        }
    }
    assert(frames2[fid] == frames[fid]);
    match frame_lookup(frames[fid].entries, name) {
        Some(_) => {},
        None => {
            match frames[fid].outer {
                Some(o) => {
                    lemma_env_lookup_push(frames, f, o, name);
                },
                None => {},
            }
        },
    }
}

/// Lexical scope: a closure body runs in a fresh frame whose outer reference
/// is the frame the closure captured, so a name the call did not bind
/// resolves exactly as it did where the closure was formed — whatever the
/// calling environment holds.
pub proof fn lemma_lexical_scope(
    st: SpecState,
    c: SpecClosure,
    args: Seq<SpecVal>,
    name: Seq<char>,
)
    requires
        frames_wf(st.frames),
        0 <= c.env < st.frames.len(),
        frame_lookup(spec_bind(c.params, args, 0), name) is None,
    ensures
        ({
            let call_frame = SpecFrame {
                entries: spec_bind(c.params, args, 0),
                outer: Some(c.env),
            };
            env_lookup(st.frames.push(call_frame), st.frames.len() as int, name) == env_lookup(
                st.frames,
                c.env,
                name,
            )
        }),
{
    let call_frame = SpecFrame { entries: spec_bind(c.params, args, 0), outer: Some(c.env) };
    let frames2 = st.frames.push(call_frame);
    assert forall|i: int|
        0 <= i < frames2.len() implies (#[trigger] frames2[i].outer matches Some(o) ==> 0 <= o
        < i) by {
        if i < st.frames.len() {
            assert(frames2[i] == st.frames[i]);
        }
    }
    assert(frames2[st.frames.len() as int] == call_frame);
    lemma_env_lookup_push(st.frames, call_frame, c.env, name);
}

/// `*ARGV*` is always bound at startup: looking it up at the root of the
/// startup state yields the list of the command-line arguments as strings.
pub proof fn lemma_argv_bound(
    st: SpecState,
    files: Seq<(Seq<char>, Seq<char>)>,
    argv: Seq<Seq<char>>,
)
    requires
        st == spec_startup(files, argv),
        state_wf(st),
    ensures
        env_lookup(st.frames, 0, "*ARGV*"@) == Some(SpecVal::List(argv_vals(argv))),
{
    let st0 = SpecState {
        frames: seq![SpecFrame { entries: crate::env::root_entries(), outer: None }],
        atoms: Seq::empty(),
        files: files,
        out: Seq::empty(),
    };
    let st3 = crate::interp::spec_load_builtin(st0);
    let pair = ("*ARGV*"@, SpecVal::List(argv_vals(argv)));
    assert(st.frames == st3.frames.update(
        0,
        SpecFrame { entries: st3.frames[0].entries.push(pair), ..st3.frames[0] },
    ));
    assert(st.frames.len() == st3.frames.len());
    assert(st.frames.len() >= 1);
    assert(st.frames[0].entries == st3.frames[0].entries.push(pair));
    assert(st.frames[0].entries.last() == pair);
    assert(frame_lookup(st.frames[0].entries, "*ARGV*"@) == Some(
        SpecVal::List(argv_vals(argv)),
    ));
}

} // verus!
