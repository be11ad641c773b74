//! Chains of lexically scoped frames that bind names to values.

use vstd::hash_map::StringHashMap;
use vstd::prelude::*;

use crate::syntax::{Expr, Term};

verus! {

/// One frame: the names it binds and their values.
pub type Frame = Map<Seq<char>, Term>;

/// The model of an environment: its frames, outermost first, innermost last.
pub type Frames = Seq<Frame>;

/// The value bound to `name`, looked up from the innermost frame outward.
pub open spec fn lookup_in(frames: Frames, name: Seq<char>) -> Option<Term>
    decreases frames.len(),
{
    if frames.len() == 0 {
        None
    } else if frames.last().contains_key(name) {
        Some(frames.last()[name])
    } else {
        lookup_in(frames.drop_last(), name)
    }
}

/// The frames after binding `name` to `value` in the innermost frame.
pub open spec fn define_in(frames: Frames, name: Seq<char>, value: Term) -> Frames {
    if frames.len() == 0 {
        frames
    } else {
        frames.update(frames.len() - 1, frames.last().insert(name, value))
    }
}

/// Whether `bs` lists the bindings of `f`, each name once.
pub open spec fn lists_frame(bs: Seq<(String, Expr)>, f: Frame) -> bool {
    &&& forall|j: int|
        0 <= j < bs.len() ==> f.contains_key(#[trigger] bs[j].0@) && f[bs[j].0@] == bs[j].1@
    &&& forall|k: Seq<char>| #[trigger]
        f.contains_key(k) ==> exists|j: int| 0 <= j < bs.len() && #[trigger] bs[j].0@ == k
    &&& forall|j1: int, j2: int|
        0 <= j1 < j2 < bs.len() ==> #[trigger] bs[j1].0@ != #[trigger] bs[j2].0@
}

/// One executable frame: its bindings, and its names in the order in which
/// they were first bound.
struct Scope {
    map: StringHashMap<Expr>,
    names: Vec<String>,
}

/// The model of one executable frame.
spec fn frame_of(m: Scope) -> Frame {
    m.map@.map_values(|e: Expr| e@)
}

impl Scope {
    /// The names are those the map binds, each once.
    spec fn inv(&self) -> bool {
        &&& forall|j: int|
            0 <= j < self.names@.len() ==> self.map@.contains_key(#[trigger] self.names@[j]@)
        &&& forall|k: Seq<char>| #[trigger]
            self.map@.contains_key(k) ==> exists|j: int|
                0 <= j < self.names@.len() && #[trigger] self.names@[j]@ == k
        &&& forall|j1: int, j2: int|
            0 <= j1 < j2 < self.names@.len() ==> #[trigger] self.names@[j1]@
                != #[trigger] self.names@[j2]@
    }

    /// A frame with no bindings.
    fn empty() -> (r: Scope)
        ensures
            r.inv(),
            frame_of(r) == Frame::empty(),
    {
        let r = Scope { map: StringHashMap::new(), names: Vec::new() };
        assert(frame_of(r) =~= Frame::empty());
        r
    }

    /// Binds `name` to `e`, recording the name if it is new to the frame.
    fn insert(&mut self, name: String, e: Expr)
        requires
            old(self).inv(),
        ensures
            final(self).inv(),
            frame_of(*final(self)) == frame_of(*old(self)).insert(name@, e@),
    {
        let ghost key = name@;
        let ghost value = e@;
        let ghost before = old(self).names@;
        let fresh = !self.map.contains_key(name.as_str());
        if fresh {
            self.names.push(name.clone());
        }
        self.map.insert(name, e);
        proof {
            let names = self.names@;
            assert forall|j: int| 0 <= j < names.len() implies self.map@.contains_key(
                #[trigger] names[j]@,
            ) by {
                if j < before.len() {
                    assert(names[j] == before[j]);
                }
            }
            assert forall|k: Seq<char>| #[trigger] self.map@.contains_key(k) implies exists|j: int|
                0 <= j < names.len() && #[trigger] names[j]@ == k by {
                if k == key {
                    if fresh {
                        assert(names[before.len() as int]@ == key);
                    } else {
                        let j = choose|j: int| 0 <= j < before.len() && #[trigger] before[j]@ == k;
                        assert(names[j] == before[j]);
                    }
                } else {
                    assert(old(self).map@.contains_key(k));
                    let j = choose|j: int| 0 <= j < before.len() && #[trigger] before[j]@ == k;
                    assert(names[j] == before[j]);
                }
            }
            assert forall|j1: int, j2: int| 0 <= j1 < j2 < names.len() implies #[trigger] names[j1]@
                != #[trigger] names[j2]@ by {
                assert(names[j1] == before[j1]);
                if j2 < before.len() {
                    assert(names[j2] == before[j2]);
                } else {
                    assert(old(self).map@.contains_key(before[j1]@));
                }
            }
        }
        assert(frame_of(*self) =~= frame_of(*old(self)).insert(key, value));
    }
}

/// A stack of frames. The outermost frame lives for the whole session; each
/// procedure application pushes a frame and drops it when its body is done.
pub struct Environment {
    frames: Vec<Scope>,
}

impl View for Environment {
    type V = Frames;

    closed spec fn view(&self) -> Frames {
        self.frames@.map_values(|m: Scope| frame_of(m))
    }
}

impl Environment {
    /// Every frame keeps its names in step with its bindings.
    pub closed spec fn scopes_ok(&self) -> bool {
        forall|i: int| 0 <= i < self.frames@.len() ==> (#[trigger] self.frames@[i]).inv()
    }

    /// An environment always has at least one frame.
    pub open spec fn wf(&self) -> bool {
        &&& self@.len() >= 1
        &&& self.scopes_ok()
    }

    /// An environment of one empty frame.
    pub fn new() -> (r: Self)
        ensures
            r.wf(),
            r@ == seq![Frame::empty()],
    {
        let mut frames: Vec<Scope> = Vec::new();
        frames.push(Scope::empty());
        let r = Environment { frames };
        assert(r@ =~= seq![Frame::empty()]);
        r
    }

    /// Binds `name` to `expr` in the innermost frame, replacing any binding
    /// of that name there.
    pub fn add(&mut self, name: String, expr: Expr)
        requires
            old(self).wf(),
        ensures
            final(self).wf(),
            final(self)@ == define_in(old(self)@, name@, expr@),
    {
        let ghost key = name@;
        let ghost value = expr@;
        let mut frame = self.frames.pop().unwrap();
        assert(frame == old(self).frames@.last());
        frame.insert(name, expr);
        self.frames.push(frame);
        proof {
            let old_frames = old(self)@;
            assert(frame_of(self.frames@.last()) == old_frames.last().insert(key, value));
            assert(self@ =~= define_in(old_frames, key, value));
            assert forall|i: int| 0 <= i < self.frames@.len() implies (
            #[trigger] self.frames@[i]).inv() by {
                if i < self.frames@.len() - 1 {
                    assert(self.frames@[i] == old(self).frames@[i]);
                }
            }
        }
    }

    /// The value bound to `name` in the innermost frame that binds it.
    pub fn lookup(&self, name: &str) -> (r: Option<Expr>)
        ensures
            match r {
                Some(e) => lookup_in(self@, name@) == Some(e@),
                None => lookup_in(self@, name@) is None,
            },
    {
        let mut i = self.frames.len();
        assert(self@.subrange(0, i as int) =~= self@);
        while i > 0
            invariant
                i <= self.frames@.len(),
                lookup_in(self@, name@) == lookup_in(self@.subrange(0, i as int), name@),
            decreases i,
        {
            let ghost upto = self@.subrange(0, i as int);
            assert(upto.drop_last() =~= self@.subrange(0, i - 1));
            i = i - 1;
            match self.frames[i].map.get(name) {
                Some(e) => {
                    return Some(e.clone());
                },
                None => {},
            }
        }
        None
    }

    /// The bindings of every frame, outermost frame first; within a frame,
    /// in the order in which their names were first bound.
    pub fn bindings(&self) -> (r: Vec<Vec<(String, Expr)>>)
        requires
            self.wf(),
        ensures
            r@.len() == self@.len(),
            forall|i: int| 0 <= i < r@.len() ==> lists_frame((#[trigger] r@[i])@, self@[i]),
    {
        let mut r: Vec<Vec<(String, Expr)>> = Vec::with_capacity(self.frames.len());
        let mut i: usize = 0;
        while i < self.frames.len()
            invariant
                self.wf(),
                i <= self.frames@.len(),
                r@.len() == i,
                forall|q: int| 0 <= q < i ==> lists_frame((#[trigger] r@[q])@, self@[q]),
            decreases self.frames.len() - i,
        {
            let scope = &self.frames[i];
            assert(scope.inv());
            let ghost f = self@[i as int];
            assert(f == frame_of(*scope));
            let mut bs: Vec<(String, Expr)> = Vec::with_capacity(scope.names.len());
            let mut j: usize = 0;
            while j < scope.names.len()
                invariant
                    scope.inv(),
                    f == frame_of(*scope),
                    j <= scope.names@.len(),
                    bs@.len() == j,
                    forall|q: int| 0 <= q < j ==> (#[trigger] bs@[q]).0@ == scope.names@[q]@,
                    forall|q: int|
                        0 <= q < j ==> f.contains_key((#[trigger] bs@[q]).0@) && f[bs@[q].0@]
                            == bs@[q].1@,
                decreases scope.names.len() - j,
            {
                let name = &scope.names[j];
                assert(scope.map@.contains_key(scope.names@[j as int]@));
                let value = scope.map.get(name.as_str()).unwrap();
                bs.push((name.clone(), value.clone()));
                j = j + 1;
            }
            proof {
                assert forall|k: Seq<char>| #[trigger] f.contains_key(k) implies exists|q: int|
                    0 <= q < bs@.len() && #[trigger] bs@[q].0@ == k by {
                    assert(scope.map@.contains_key(k));
                    let q = choose|q: int|
                        0 <= q < scope.names@.len() && #[trigger] scope.names@[q]@ == k;
                    assert(bs@[q].0@ == k);
                }
                assert forall|j1: int, j2: int| 0 <= j1 < j2 < bs@.len() implies #[trigger] bs@[j1].0@
                    != #[trigger] bs@[j2].0@ by {
                    assert(scope.names@[j1]@ != scope.names@[j2]@);
                }
            }
            r.push(bs);
            i = i + 1;
        }
        r
    }

    /// A new, empty frame whose parent is `up`.
    pub fn push_env(up: Environment) -> (r: Self)
        requires
            up.wf(),
        ensures
            r.wf(),
            r@ == up@.push(Frame::empty()),
    {
        let mut r = up;
        r.push_scope();
        r
    }

    /// Pushes a new, empty innermost frame.
    pub(crate) fn push_scope(&mut self)
        requires
            old(self).wf(),
        ensures
            final(self).wf(),
            final(self)@ == old(self)@.push(Frame::empty()),
    {
        self.frames.push(Scope::empty());
        assert(self@ =~= old(self)@.push(Frame::empty()));
        assert forall|i: int| 0 <= i < self.frames@.len() implies (
        #[trigger] self.frames@[i]).inv() by {
            if i < self.frames@.len() - 1 {
                assert(self.frames@[i] == old(self).frames@[i]);
            }
        }
    }

    /// Drops the innermost frame.
    pub(crate) fn pop_scope(&mut self)
        requires
            old(self).wf(),
            old(self)@.len() >= 2,
        ensures
            final(self).wf(),
            final(self)@ == old(self)@.drop_last(),
    {
        self.frames.pop();
        assert(self@ =~= old(self)@.drop_last());
        assert forall|i: int| 0 <= i < self.frames@.len() implies (
        #[trigger] self.frames@[i]).inv() by {
            assert(self.frames@[i] == old(self).frames@[i]);
        }
    }
}

impl Default for Environment {
    fn default() -> (r: Self)
        ensures
            r.wf(),
            r@ == seq![Frame::empty()],
    {
        Environment::new()
    }
}

} // verus!
