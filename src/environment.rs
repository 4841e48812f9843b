use vstd::prelude::*;
use crate::value::{Value, ValueModel};

verus! {

/// One frame: its bindings in order of declaration.
pub type FrameModel = Seq<(Seq<char>, ValueModel)>;

/// The scope stack: the global frame first, the innermost frame last.
pub type EnvModel = Seq<FrameModel>;

/// The value bound to `name` in one frame.
pub open spec fn frame_get(f: FrameModel, name: Seq<char>) -> Option<ValueModel>
    decreases f.len(),
{
    if f.len() == 0 {
        None
    } else if f.last().0 == name {
        Some(f.last().1)
    } else {
        frame_get(f.drop_last(), name)
    }
}

/// The frame with the binding of `name` (which it holds) set to `v`.
pub open spec fn frame_set(f: FrameModel, name: Seq<char>, v: ValueModel) -> FrameModel
    decreases f.len(),
{
    if f.len() == 0 {
        f
    } else if f.last().0 == name {
        f.drop_last().push((name, v))
    } else {
        frame_set(f.drop_last(), name, v).push(f.last())
    }
}

/// The value of `name` in the innermost frame that binds it.
pub open spec fn lookup(env: EnvModel, name: Seq<char>) -> Option<ValueModel>
    decreases env.len(),
{
    if env.len() == 0 {
        None
    } else {
        match frame_get(env.last(), name) {
            Some(v) => Some(v),
            None => lookup(env.drop_last(), name),
        }
    }
}

/// `env` with `name` bound to `v` in its innermost frame.
pub open spec fn declare(env: EnvModel, name: Seq<char>, v: ValueModel) -> EnvModel {
    env.drop_last().push(env.last().push((name, v)))
}

/// `env` with `v` stored in the innermost frame that binds `name`; unchanged if none does.
pub open spec fn assign(env: EnvModel, name: Seq<char>, v: ValueModel) -> EnvModel
    decreases env.len(),
{
    if env.len() == 0 {
        env
    } else if frame_get(env.last(), name) is Some {
        env.drop_last().push(frame_set(env.last(), name, v))
    } else {
        assign(env.drop_last(), name, v).push(env.last())
    }
}

/// A name and the value bound to it.
pub struct Binding {
    pub name: String,
    pub value: Value,
}

/// The scope stack of the evaluator. It always holds the global frame.
pub struct Environment {
    frames: Vec<Vec<Binding>>,
}

pub open spec fn binding_view(b: Binding) -> (Seq<char>, ValueModel) {
    (b.name@, b.value@)
}

pub open spec fn frame_view(f: Vec<Binding>) -> FrameModel {
    f@.map_values(|b: Binding| binding_view(b))
}

impl View for Environment {
    type V = EnvModel;

    closed spec fn view(&self) -> EnvModel {
        self.frames@.map_values(|f: Vec<Binding>| frame_view(f))
    }
}

proof fn lemma_frame_get_absent(f: FrameModel, name: Seq<char>)
    requires
        forall|i: int| 0 <= i < f.len() ==> (#[trigger] f[i]).0 != name,
    ensures
        frame_get(f, name) is None,
    decreases f.len(),
{
    if f.len() > 0 {
        assert(f.last() == f[f.len() - 1]);
        lemma_frame_get_absent(f.drop_last(), name);
    }
}

proof fn lemma_frame_get_found(f: FrameModel, name: Seq<char>, j: int)
    requires
        0 <= j < f.len(),
        f[j].0 == name,
        forall|i: int| j < i < f.len() ==> (#[trigger] f[i]).0 != name,
    ensures
        frame_get(f, name) == Some(f[j].1),
    decreases f.len(),
{
    if j < f.len() - 1 {
        assert(f.last() == f[f.len() - 1]);
        lemma_frame_get_found(f.drop_last(), name, j);
    }
}

proof fn lemma_frame_set_found(f: FrameModel, name: Seq<char>, v: ValueModel, j: int)
    requires
        0 <= j < f.len(),
        f[j].0 == name,
        forall|i: int| j < i < f.len() ==> (#[trigger] f[i]).0 != name,
    ensures
        frame_set(f, name, v) == f.update(j, (name, v)),
    decreases f.len(),
{
    if j < f.len() - 1 {
        assert(f.last() == f[f.len() - 1]);
        lemma_frame_set_found(f.drop_last(), name, v, j);
        assert(frame_set(f, name, v) =~= f.update(j, (name, v)));
    } else {
        assert(frame_set(f, name, v) =~= f.update(j, (name, v)));
    }
}

fn find_in_frame(f: &Vec<Binding>, name: &String) -> (r: Option<usize>)
    ensures
        match r {
            Some(j) => j < f@.len() && frame_get(frame_view(*f), name@) == Some(f@[j as int].value@)
                && f@[j as int].name@ == name@ && (forall|i: int|
                j < i < f@.len() ==> (#[trigger] f@[i]).name@ != name@),
            None => frame_get(frame_view(*f), name@) is None,
        },
{
    let mut k = f.len();
    while k > 0
        invariant
            k <= f@.len(),
            forall|i: int| k <= i < f@.len() ==> (#[trigger] f@[i]).name@ != name@,
        decreases k,
    {
        if f[k - 1].name.eq(name) {
            proof {
                let fv = frame_view(*f);
                assert forall|i: int| (k - 1) < i < fv.len() implies (#[trigger] fv[i]).0 != name@ by {
                    assert(fv[i] == binding_view(f@[i]));
                }
                lemma_frame_get_found(fv, name@, k - 1);
            }
            return Some(k - 1);
        }
        k = k - 1;
    }
    proof {
        let fv = frame_view(*f);
        assert forall|i: int| 0 <= i < fv.len() implies (#[trigger] fv[i]).0 != name@ by {
            assert(fv[i] == binding_view(f@[i]));
        }
        lemma_frame_get_absent(fv, name@);
    }
    None
}

impl Environment {
    /// A fresh environment: one global frame, in which `OS` names the host system.
    pub fn new(os_name: String) -> (r: Environment)
        ensures
            r@ == seq![seq![(seq!['O', 'S'], ValueModel::Str(os_name@))]],
    {
        proof {
            reveal_strlit("OS");
        }
        let ghost osv = os_name@;
        let key = String::from_str("OS");
        assert(key@ == seq!['O', 'S']);
        let mut global: Vec<Binding> = Vec::new();
        global.push(Binding { name: key, value: Value::String(os_name) });
        assert(frame_view(global) =~= seq![(seq!['O', 'S'], ValueModel::Str(osv))]) by {
            assert(global@.len() == 1);
            assert(binding_view(global@[0]) == (seq!['O', 'S'], ValueModel::Str(osv)));
        }
        let mut frames: Vec<Vec<Binding>> = Vec::new();
        frames.push(global);
        let r = Environment { frames };
        assert(r@ =~= seq![seq![(seq!['O', 'S'], ValueModel::Str(osv))]]);
        r
    }

    /// The number of frames on the stack.
    pub fn frame_count(&self) -> (r: usize)
        ensures
            r == self@.len(),
    {
        self.frames.len()
    }

    /// Enters a block: a new, empty innermost frame.
    pub fn push_frame(&mut self)
        ensures
            final(self)@ == old(self)@.push(Seq::empty()),
    {
        self.frames.push(Vec::new());
        proof {
            assert(final(self)@ =~= old(self)@.push(Seq::empty())) by {
                assert(frame_view(self.frames@.last()) =~= Seq::<(Seq<char>, ValueModel)>::empty());
            }
        }
    }

    /// Leaves a block: drops the innermost frame.
    pub fn pop_frame(&mut self)
        requires
            old(self)@.len() >= 2,
        ensures
            final(self)@ == old(self)@.drop_last(),
    {
        self.frames.pop();
        assert(final(self)@ =~= old(self)@.drop_last());
    }

    /// The value of `name` in the innermost frame that binds it.
    pub fn get(&self, name: &String) -> (r: Option<Value>)
        ensures
            match r {
                Some(v) => lookup(self@, name@) == Some(v@),
                None => lookup(self@, name@) is None,
            },
    {
        let mut k = self.frames.len();
        assert(self@.subrange(0, k as int) =~= self@);
        while k > 0
            invariant
                k <= self.frames@.len(),
                self@.len() == self.frames@.len(),
                lookup(self@, name@) == lookup(self@.subrange(0, k as int), name@),
            decreases k,
        {
            let ghost prefix = self@.subrange(0, k as int);
            assert(prefix.last() == frame_view(self.frames@[k - 1]));
            match find_in_frame(&self.frames[k - 1], name) {
                Some(j) => {
                    return Some(self.frames[k - 1][j].value.duplicate());
                },
                None => {
                    assert(prefix.drop_last() =~= self@.subrange(0, k - 1));
                },
            }
            k = k - 1;
        }
        None
    }

    /// Whether the innermost frame binds `name`.
    pub fn declared_here(&self, name: &String) -> (r: bool)
        requires
            self@.len() >= 1,
        ensures
            r == (frame_get(self@.last(), name@) is Some),
    {
        let k = self.frames.len() - 1;
        find_in_frame(&self.frames[k], name).is_some()
    }

    /// Binds `name` to `v` in the innermost frame.
    pub fn define(&mut self, name: String, v: Value)
        requires
            old(self)@.len() >= 1,
        ensures
            final(self)@ == declare(old(self)@, name@, v@),
    {
        let k = self.frames.len() - 1;
        let ghost nv = name@;
        let ghost vv = v@;
        self.frames[k].push(Binding { name, value: v });
        assert(final(self)@ =~= declare(old(self)@, nv, vv)) by {
            assert(frame_view(self.frames@[k as int]) =~= frame_view(old(self).frames@[k as int]).push((nv, vv)));
        }
    }

    /// Stores `v` in the innermost frame that binds `name`; false, with nothing changed, when
    /// no frame binds it.
    pub fn assign(&mut self, name: &String, v: Value) -> (r: bool)
        ensures
            r == (lookup(old(self)@, name@) is Some),
            final(self)@ == assign(old(self)@, name@, v@),
    {
        let mut k = self.frames.len();
        let ghost env0 = self@;
        assert(env0.subrange(0, k as int) =~= env0);
        assert(env0.subrange(k as int, env0.len() as int) =~= Seq::<FrameModel>::empty());
        assert(assign(env0, name@, v@) + Seq::<FrameModel>::empty() =~= assign(env0, name@, v@));
        while k > 0
            invariant
                self@ == env0,
                env0 == old(self)@,
                env0.len() == self.frames@.len(),
                k <= self.frames@.len(),
                lookup(env0, name@) == lookup(env0.subrange(0, k as int), name@),
                assign(env0, name@, v@) == assign(env0.subrange(0, k as int), name@, v@) + env0.subrange(k as int, env0.len() as int),
            decreases k,
        {
            let ghost prefix = env0.subrange(0, k as int);
            assert(prefix.last() == frame_view(self.frames@[k - 1]));
            match find_in_frame(&self.frames[k - 1], name) {
                Some(j) => {
                    let ghost f = frame_view(self.frames@[k - 1]);
                    proof {
                        assert forall|i: int| j < i < f.len() implies (#[trigger] f[i]).0 != name@ by {
                            assert(f[i] == binding_view(self.frames@[k - 1]@[i]));
                        }
                        assert(f[j as int] == binding_view(self.frames@[k - 1]@[j as int]));
                        lemma_frame_set_found(f, name@, v@, j as int);
                    }
                    let ghost vv = v@;
                    let mut frame = self.frames.remove(k - 1);
                    frame.set(j, Binding { name: name.clone(), value: v });
                    self.frames.insert(k - 1, frame);
                    proof {
                        assert(frame_view(self.frames@[k - 1]) =~= f.update(j as int, (name@, vv)));
                        assert(prefix.drop_last() =~= env0.subrange(0, k - 1));
                        assert(self@ =~= assign(env0, name@, vv)) by {
                            assert(assign(prefix, name@, vv) == prefix.drop_last().push(f.update(j as int, (name@, vv))));
                        }
                        assert(lookup(prefix, name@) is Some);
                    }
                    return true;
                },
                None => {
                    proof {
                        assert(prefix.drop_last() =~= env0.subrange(0, k - 1));
                        assert(env0.subrange(k - 1, env0.len() as int) =~= seq![prefix.last()] + env0.subrange(k as int, env0.len() as int));
                        assert(assign(env0.subrange(0, k - 1), name@, v@).push(prefix.last()) + env0.subrange(k as int, env0.len() as int) =~= assign(env0.subrange(0, k - 1), name@, v@) + env0.subrange(k - 1, env0.len() as int));
                    }
                },
            }
            k = k - 1;
        }
        assert(env0.subrange(0, 0) =~= Seq::<FrameModel>::empty());
        assert(env0.subrange(0, env0.len() as int) =~= env0);
        assert(assign(env0, name@, v@) =~= env0);
        false
    }
}

} // verus!
