//! The environment of an evaluation: the data and a stack of alias frames.
use vstd::prelude::*;
use vstd::std_specs::convert::FromSpecImpl;
use crate::sql::selector::{Path, Segment, Selector, SelectorNode};
use crate::text::same_text;
use crate::value::model::{put, Value};
use crate::value::navigate::navigate;
use crate::value::object::{object_insert, object_new};
use crate::value::pql::PqlValue;

verus! {

/// A frame, as a mathematical value: aliases with the paths they stand
/// for, in the order they were bound.
pub type FrameModel = Seq<(Seq<char>, Path)>;

/// An environment, as a mathematical value.
pub struct EnvModel {
    /// The data that every full path starts from.
    pub root: Value,
    /// The frames, outermost first.
    pub frames: Seq<FrameModel>,
}

/// The path of the binding of `name` that was made last in `frame`.
pub open spec fn find_in_frame(frame: FrameModel, name: Seq<char>) -> Option<Path>
    decreases frame.len(),
{
    if frame.len() == 0 {
        None
    } else if frame.last().0 == name {
        Some(frame.last().1)
    } else {
        find_in_frame(frame.drop_last(), name)
    }
}

/// The path that `name` stands for: the binding of the innermost frame
/// that has one.
pub open spec fn find_alias(frames: Seq<FrameModel>, name: Seq<char>) -> Option<Path>
    decreases frames.len(),
{
    if frames.len() == 0 {
        None
    } else {
        match find_in_frame(frames.last(), name) {
            Some(p) => Some(p),
            None => find_alias(frames.drop_last(), name),
        }
    }
}

/// The innermost alias with its path: the binding made last in the
/// innermost frame that is not empty.
pub open spec fn innermost_binding(frames: Seq<FrameModel>) -> Option<(Seq<char>, Path)>
    decreases frames.len(),
{
    if frames.len() == 0 {
        None
    } else if frames.last().len() > 0 {
        Some(frames.last().last())
    } else {
        innermost_binding(frames.drop_last())
    }
}

/// The path of the innermost alias.
pub open spec fn innermost_alias(frames: Seq<FrameModel>) -> Option<Path> {
    match innermost_binding(frames) {
        Some(b) => Some(b.1),
        None => None,
    }
}

/// The path that the first segment of `path` stands for, if it is the
/// name of an alias.
pub open spec fn head_alias(frames: Seq<FrameModel>, path: Path) -> Option<Path> {
    if path.len() > 0 {
        match path[0] {
            Segment::Field(name) => find_alias(frames, name),
            Segment::Index(_) => None,
        }
    } else {
        None
    }
}

/// A path of a FROM item in full: a leading alias is replaced by the path
/// it stands for; any other path starts at the data as it is.
pub open spec fn resolve(frames: Seq<FrameModel>, path: Path) -> Path {
    match head_alias(frames, path) {
        Some(p) => p + path.skip(1),
        None => path,
    }
}

/// A path in full: a leading alias is replaced by the path it stands for;
/// any other path is taken from the innermost alias, or from the data if
/// no alias is bound.
pub open spec fn expand(frames: Seq<FrameModel>, path: Path) -> Path {
    match head_alias(frames, path) {
        Some(p) => p + path.skip(1),
        None => match innermost_alias(frames) {
            Some(p) => p + path,
            None => path,
        },
    }
}

/// The data with `value` bound to the key `alias`: an object takes the
/// entry; data that is no object is replaced by an object of that entry.
pub open spec fn root_with(root: Value, alias: Seq<char>, value: Value) -> Value {
    match root {
        Value::Object(entries) => Value::Object(put(entries, alias, value)),
        _ => Value::Object(seq![(alias, value)]),
    }
}

/// `frames` with one more binding in the innermost frame; with no frame
/// yet, the binding makes the first.
pub open spec fn frames_with(frames: Seq<FrameModel>, alias: Seq<char>, path: Path) -> Seq<
    FrameModel,
> {
    if frames.len() == 0 {
        seq![seq![(alias, path)]]
    } else {
        frames.drop_last().push(frames.last().push((alias, path)))
    }
}

/// An alias with the full path it stands for.
#[derive(Debug)]
pub struct Binding {
    pub alias: String,
    pub path: Selector,
}

/// The data of a query and the aliases in scope.
#[derive(Debug)]
pub struct Env {
    root: PqlValue,
    frames: Vec<Vec<Binding>>,
}

/// The view of a frame.
pub open spec fn frame_view(frame: Seq<Binding>) -> FrameModel {
    Seq::new(frame.len(), |i: int| (frame[i].alias@, frame[i].path@))
}

impl View for Env {
    type V = EnvModel;

    closed spec fn view(&self) -> EnvModel {
        EnvModel {
            root: self.root@,
            frames: Seq::new(self.frames@.len(), |i: int| frame_view(self.frames@[i]@)),
        }
    }
}

/// The binding of `name` that was made last in `frame`.
fn search_frame<'a>(frame: &'a Vec<Binding>, name: &str) -> (r: Option<&'a Selector>)
    ensures
        match r {
            Some(p) => find_in_frame(frame_view(frame@), name@) == Some(p@),
            None => find_in_frame(frame_view(frame@), name@) is None,
        },
{
    let mut i: usize = frame.len();
    let ghost whole = frame_view(frame@);
    assert(whole.take(frame.len() as int) =~= whole);
    while i > 0
        invariant
            i <= frame.len(),
            whole == frame_view(frame@),
            find_in_frame(whole, name@) == find_in_frame(whole.take(i as int), name@),
        decreases i,
    {
        i -= 1;
        proof {
            let part = whole.take(i + 1);
            assert(part.last() == (frame@[i as int].alias@, frame@[i as int].path@));
            assert(part.drop_last() =~= whole.take(i as int));
        }
        if same_text(frame[i].alias.as_str(), name) {
            return Some(&frame[i].path);
        }
    }
    None
}

impl Env {
    /// An environment over `root` with one empty frame.
    pub fn new(root: PqlValue) -> (env: Env)
        ensures
            env@ == (EnvModel { root: root@, frames: seq![Seq::<(Seq<char>, Path)>::empty()] }),
    {
        let mut frames: Vec<Vec<Binding>> = Vec::new();
        frames.push(Vec::new());
        let env = Env { root, frames };
        assert(env@.frames =~= seq![Seq::<(Seq<char>, Path)>::empty()]) by {
            assert(frame_view(env.frames@[0]@) =~= Seq::<(Seq<char>, Path)>::empty());
        }
        env
    }

    /// The data.
    pub fn root(&self) -> (r: &PqlValue)
        ensures
            r@ == self@.root,
    {
        &self.root
    }

    /// An environment with the same aliases over other data.
    pub fn with_root(&self, root: PqlValue) -> (env: Env)
        ensures
            env@ == (EnvModel { root: root@, frames: self@.frames }),
    {
        let mut frames: Vec<Vec<Binding>> = Vec::new();
        let mut i: usize = 0;
        while i < self.frames.len()
            invariant
                i <= self.frames.len(),
                frames.len() == i,
                forall|j: int|
                    0 <= j < i ==> frame_view((#[trigger] frames@[j])@) == frame_view(
                        self.frames@[j]@,
                    ),
            decreases self.frames.len() - i,
        {
            let source = &self.frames[i];
            let mut frame: Vec<Binding> = Vec::new();
            let mut k: usize = 0;
            while k < source.len()
                invariant
                    k <= source.len(),
                    frame.len() == k,
                    forall|j: int|
                        0 <= j < k ==> (#[trigger] frame@[j]).alias@ == source@[j].alias@
                            && frame@[j].path@ == source@[j].path@,
                decreases source.len() - k,
            {
                frame.push(Binding { alias: source[k].alias.clone(), path: source[k].path.clone() });
                k += 1;
            }
            assert(frame_view(frame@) =~= frame_view(source@));
            frames.push(frame);
            i += 1;
        }
        let env = Env { root, frames };
        assert(env@.frames =~= self@.frames);
        env
    }

    /// Replaces the data.
    pub fn set_root(&mut self, root: PqlValue)
        ensures
            final(self)@ == (EnvModel { root: root@, frames: old(self)@.frames }),
    {
        self.root = root;
        assert(self@.frames =~= old(self)@.frames);
    }

    /// Enters a scope: pushes an empty frame.
    pub fn push_frame(&mut self)
        ensures
            final(self)@ == (EnvModel {
                root: old(self)@.root,
                frames: old(self)@.frames.push(Seq::empty()),
            }),
    {
        self.frames.push(Vec::new());
        assert(self@.frames =~= old(self)@.frames.push(Seq::empty())) by {
            let n = old(self).frames@.len() as int;
            assert(frame_view(self.frames@[n]@) =~= Seq::<(Seq<char>, Path)>::empty());
        }
    }

    /// Leaves a scope: pops the innermost frame, if there is one.
    pub fn pop_frame(&mut self)
        ensures
            final(self)@ == (EnvModel {
                root: old(self)@.root,
                frames: if old(self)@.frames.len() > 0 {
                    old(self)@.frames.drop_last()
                } else {
                    old(self)@.frames
                },
            }),
    {
        if self.frames.len() > 0 {
            self.frames.pop();
            assert(self@.frames =~= old(self)@.frames.drop_last());
        }
    }

    /// Binds `alias` to the full path `path` in the innermost frame.
    pub fn bind(&mut self, alias: String, path: Selector)
        ensures
            final(self)@ == (EnvModel {
                root: old(self)@.root,
                frames: frames_with(old(self)@.frames, alias@, path@),
            }),
    {
        let ghost before = self@.frames;
        let mut frame = match self.frames.pop() {
            Some(f) => f,
            None => Vec::new(),
        };
        let ghost inner = frame_view(frame@);
        frame.push(Binding { alias, path });
        assert(frame_view(frame@) =~= inner.push((alias@, path@)));
        self.frames.push(frame);
        assert(self@.frames =~= frames_with(before, alias@, path@)) by {
            if before.len() == 0 {
                assert(inner =~= Seq::<(Seq<char>, Path)>::empty());
            }
        }
    }

    /// Binds `alias` to a value of its own: the value becomes the field
    /// `alias` of the data and the alias stands for the path to it.
    pub fn bind_value(&mut self, alias: String, value: PqlValue)
        ensures
            final(self)@ == (EnvModel {
                root: root_with(old(self)@.root, alias@, value@),
                frames: frames_with(old(self)@.frames, alias@, seq![Segment::Field(alias@)]),
            }),
    {
        let mut fields = match &self.root {
            PqlValue::Object(m) => m.clone(),
            _ => object_new(),
        };
        let ghost was_object = self.root@ is Object;
        object_insert(&mut fields, alias.clone(), value);
        proof {
            if !was_object {
                crate::value::model::lemma_put_fresh(Seq::empty(), alias@, value@);
                assert(Seq::<(Seq<char>, Value)>::empty().push((alias@, value@)) =~= seq![
                    (alias@, value@),
                ]);
            }
        }
        let ghost frames = self@.frames;
        self.root = PqlValue::Object(fields);
        assert(self@.frames =~= frames);
        let mut path = Selector::new();
        path.push(SelectorNode::Field(alias.clone()));
        assert(path@ =~= seq![Segment::Field(alias@)]);
        self.bind(alias, path);
    }

    /// The full path that the alias `name` stands for.
    pub fn lookup_path(&self, name: &str) -> (r: Option<&Selector>)
        ensures
            match r {
                Some(p) => find_alias(self@.frames, name@) == Some(p@),
                None => find_alias(self@.frames, name@) is None,
            },
    {
        let mut i: usize = self.frames.len();
        let ghost whole = self@.frames;
        assert(whole.take(self.frames.len() as int) =~= whole);
        while i > 0
            invariant
                i <= self.frames.len(),
                whole == self@.frames,
                find_alias(whole, name@) == find_alias(whole.take(i as int), name@),
            decreases i,
        {
            i -= 1;
            proof {
                let part = whole.take(i + 1);
                assert(part.last() == frame_view(self.frames@[i as int]@));
                assert(part.drop_last() =~= whole.take(i as int));
            }
            match search_frame(&self.frames[i], name) {
                Some(p) => {
                    return Some(p);
                },
                None => {},
            }
        }
        None
    }

    /// The innermost alias with its full path.
    pub fn innermost(&self) -> (r: Option<&Binding>)
        ensures
            match r {
                Some(b) => innermost_binding(self@.frames) == Some((b.alias@, b.path@)),
                None => innermost_binding(self@.frames) is None,
            },
    {
        let mut i: usize = self.frames.len();
        let ghost whole = self@.frames;
        assert(whole.take(self.frames.len() as int) =~= whole);
        while i > 0
            invariant
                i <= self.frames.len(),
                whole == self@.frames,
                innermost_binding(whole) == innermost_binding(whole.take(i as int)),
            decreases i,
        {
            i -= 1;
            proof {
                let part = whole.take(i + 1);
                assert(part.last() == frame_view(self.frames@[i as int]@));
                assert(part.drop_last() =~= whole.take(i as int));
            }
            let frame = &self.frames[i];
            let n = frame.len();
            if n > 0 {
                return Some(&frame[n - 1]);
            }
        }
        None
    }

    /// The full path of the innermost alias.
    pub fn innermost_path(&self) -> (r: Option<&Selector>)
        ensures
            match r {
                Some(p) => innermost_alias(self@.frames) == Some(p@),
                None => innermost_alias(self@.frames) is None,
            },
    {
        match self.innermost() {
            Some(b) => Some(&b.path),
            None => None,
        }
    }

    /// The path that the first segment of `selector` stands for, if it
    /// names an alias.
    fn head_path(&self, selector: &Selector) -> (r: Option<&Selector>)
        ensures
            match r {
                Some(p) => head_alias(self@.frames, selector@) == Some(p@),
                None => head_alias(self@.frames, selector@) is None,
            },
    {
        match selector.get(0) {
            Some(SelectorNode::Field(name)) => self.lookup_path(name.as_str()),
            _ => None,
        }
    }

    /// The full form of the path of a FROM item; see [`resolve`].
    pub fn resolve(&self, selector: &Selector) -> (r: Selector)
        ensures
            r@ == resolve(self@.frames, selector@),
    {
        match self.head_path(selector) {
            Some(p) => p.concat(&selector.tail_from(1)),
            None => selector.clone(),
        }
    }

    /// The full form of a path; see [`expand`].
    pub fn expand_fullpath(&self, selector: &Selector) -> (r: Selector)
        ensures
            r@ == expand(self@.frames, selector@),
    {
        match self.head_path(selector) {
            Some(p) => p.concat(&selector.tail_from(1)),
            None => match self.innermost_path() {
                Some(p) => p.concat(selector),
                None => selector.clone(),
            },
        }
    }

    /// The value bound to the alias `name`: what its path leads to in the
    /// data; Missing for a name that is no alias.
    pub fn lookup(&self, name: &str) -> (r: PqlValue)
        ensures
            r@ == match find_alias(self@.frames, name@) {
                Some(p) => navigate(self@.root, p),
                None => Value::Missing,
            },
    {
        match self.lookup_path(name) {
            Some(p) => self.root.select_by_selector(p),
            None => PqlValue::Missing,
        }
    }
}

impl Default for Env {
    /// An environment over an empty object.
    fn default() -> (env: Env)
        ensures
            env@ == (EnvModel {
                root: Value::Object(Seq::empty()),
                frames: seq![Seq::<(Seq<char>, Path)>::empty()],
            }),
    {
        Env::new(PqlValue::Object(object_new()))
    }
}

impl From<PqlValue> for Env {
    /// An environment over `root` with one empty frame.
    fn from(root: PqlValue) -> (env: Env)
        ensures
            env@ == (EnvModel { root: root@, frames: seq![Seq::<(Seq<char>, Path)>::empty()] }),
    {
        Env::new(root)
    }
}

impl FromSpecImpl<PqlValue> for Env {
    open spec fn obeys_from_spec() -> bool {
        false
    }

    open spec fn from_spec(root: PqlValue) -> Self {
        arbitrary()
    }
}

} // verus!
