//! Paths: lists of names, written with `/` between them.

use vstd::prelude::*;
use vstd::string::*;

verus! {

/// The separator of path components.
pub const SEPARATOR: char = '/';

/// The length of the run of characters other than `/` that `s` starts with.
pub open spec fn run_len(s: Seq<char>) -> nat
    decreases s.len(),
{
    if s.len() == 0 || s[0] == SEPARATOR {
        0
    } else {
        1 + run_len(s.skip(1))
    }
}

/// The components of a path: the runs of characters other than `/`, each as
/// long as it can be, from left to right. Empty runs are no components, so
/// `//`, and a `/` at the start or the end, add nothing.
pub open spec fn split(s: Seq<char>) -> Seq<Seq<char>>
    decreases s.len(),
{
    if s.len() == 0 {
        Seq::empty()
    } else if s[0] == SEPARATOR {
        split(s.skip(1))
    } else {
        let n = run_len(s);
        if 0 < n <= s.len() {
            seq![s.take(n as int)] + split(s.skip(n as int))
        } else {
            Seq::empty()
        }
    }
}

/// Whether a path starts at the root.
pub open spec fn absolute(s: Seq<char>) -> bool {
    s.len() > 0 && s[0] == SEPARATOR
}

/// A run that is known from its ends: `n` characters other than `/`,
/// followed by a `/` or by the end.
proof fn lemma_run(s: Seq<char>, n: nat)
    requires
        n <= s.len(),
        forall|j: int| 0 <= j < n ==> s[j] != SEPARATOR,
        n == s.len() || s[n as int] == SEPARATOR,
    ensures
        run_len(s) == n,
    decreases n,
{
    if n > 0 {
        let t = s.skip(1);
        assert forall|j: int| 0 <= j < n - 1 implies t[j] != SEPARATOR by {
            assert(t[j] == s[j + 1]);
        }
        lemma_run(t, (n - 1) as nat);
    }
}

/// The components of a path that begins with a run of `n` characters.
proof fn lemma_split_run(s: Seq<char>, n: nat)
    requires
        0 < n <= s.len(),
        forall|j: int| 0 <= j < n ==> s[j] != SEPARATOR,
        n == s.len() || s[n as int] == SEPARATOR,
    ensures
        split(s) == seq![s.take(n as int)] + split(s.skip(n as int)),
{
    lemma_run(s, n);
}

/// A path as plain values.
pub struct PathView {
    /// Whether the path starts at the root.
    pub absolute: bool,
    /// The names on the path, outermost first.
    pub components: Seq<Seq<char>>,
}

/// A path, taken apart into its components.
pub struct Path {
    absolute: bool,
    components: Vec<String>,
}

/// A path that can grow.
pub type PathBuf = Path;

impl Path {
    /// The path as plain values.
    pub closed spec fn view(&self) -> PathView {
        PathView {
            absolute: self.absolute,
            components: Seq::new(self.components@.len(), |i: int| self.components@[i]@),
        }
    }

    /// Takes a path apart.
    pub fn new(path: &str) -> (parsed: Path)
        ensures
            parsed@.absolute == absolute(path@),
            parsed@.components == split(path@),
    {
        let len = path.unicode_len();
        let is_absolute = len > 0 && path.get_char(0) == SEPARATOR;
        let mut components: Vec<String> = Vec::new();
        let mut start: usize = 0;
        let mut i: usize = 0;
        proof {
            assert(path@.skip(0) =~= path@);
            assert(Seq::new(components@.len(), |k: int| components@[k]@) + split(path@)
                =~= split(path@));
        }
        while i < len
            invariant
                len == path@.len(),
                start <= i <= len,
                forall|j: int| start <= j < i ==> path@[j] != SEPARATOR,
                split(path@) == Seq::new(components@.len(), |k: int| components@[k]@) + split(
                    path@.skip(start as int),
                ),
            decreases len - i,
        {
            let ghost before = Seq::new(components@.len(), |k: int| components@[k]@);
            if path.get_char(i) == SEPARATOR {
                if i > start {
                    let component = path.substring_char(start, i);
                    components.push(String::from_str(component));
                    proof {
                        let rest = path@.skip(start as int);
                        assert forall|j: int| 0 <= j < i - start implies rest[j] != SEPARATOR by {
                            assert(rest[j] == path@[start + j]);
                        }
                        lemma_split_run(rest, (i - start) as nat);
                        assert(rest.take(i - start) =~= path@.subrange(start as int, i as int));
                        assert(rest.skip(i - start) =~= path@.skip(i as int));
                        assert(Seq::new(components@.len(), |k: int| components@[k]@) =~= before
                            + seq![path@.subrange(start as int, i as int)]);
                    }
                }
                proof {
                    let here = path@.skip(i as int);
                    assert(here[0] == SEPARATOR);
                    assert(here.skip(1) =~= path@.skip(i + 1));
                    if i == start {
                        assert(Seq::new(components@.len(), |k: int| components@[k]@) =~= before);
                    }
                }
                start = i + 1;
            } else {
                assert(Seq::new(components@.len(), |k: int| components@[k]@) =~= before);
            }
            i += 1;
        }
        if len > start {
            let ghost before = Seq::new(components@.len(), |k: int| components@[k]@);
            let component = path.substring_char(start, len);
            components.push(String::from_str(component));
            proof {
                let rest = path@.skip(start as int);
                assert forall|j: int| 0 <= j < len - start implies rest[j] != SEPARATOR by {
                    assert(rest[j] == path@[start + j]);
                }
                lemma_split_run(rest, (len - start) as nat);
                assert(rest.take(len - start) =~= path@.subrange(start as int, len as int));
                assert(rest.skip(len - start).len() == 0);
                assert(Seq::new(components@.len(), |k: int| components@[k]@) =~= before
                    + seq![path@.subrange(start as int, len as int)]);
            }
        } else {
            assert(path@.skip(start as int).len() == 0);
        }
        let parsed = Path { absolute: is_absolute, components };
        assert(parsed@.components =~= split(path@));
        parsed
    }

    /// The root, to which names can be added.
    pub fn root() -> (path: PathBuf)
        ensures
            path@.absolute,
            path@.components == Seq::<Seq<char>>::empty(),
    {
        let path = Path { absolute: true, components: Vec::new() };
        assert(path@.components =~= Seq::<Seq<char>>::empty());
        path
    }

    pub fn is_absolute(&self) -> (b: bool)
        ensures
            b == self@.absolute,
    {
        self.absolute
    }

    /// The number of components.
    pub fn len(&self) -> (n: usize)
        ensures
            n == self@.components.len(),
    {
        self.components.len()
    }

    /// The `i`-th component.
    pub fn component(&self, i: usize) -> (name: &String)
        requires
            i < self@.components.len(),
        ensures
            name@ == self@.components[i as int],
    {
        &self.components[i]
    }

    /// The last component, if there is one.
    pub fn file_name(&self) -> (name: Option<&String>)
        ensures
            match name {
                Some(name) => self@.components.len() > 0 && name@ == self@.components.last(),
                None => self@.components.len() == 0,
            },
    {
        if self.components.len() > 0 {
            Some(&self.components[self.components.len() - 1])
        } else {
            None
        }
    }

    /// The path without its last component, if it has one.
    pub fn parent(&self) -> (parent: Option<Path>)
        ensures
            match parent {
                Some(parent) => self@.components.len() > 0 && parent@ == (PathView {
                    absolute: self@.absolute,
                    components: self@.components.drop_last(),
                }),
                None => self@.components.len() == 0,
            },
    {
        if self.components.len() == 0 {
            return None;
        }
        let mut components: Vec<String> = Vec::new();
        let mut i: usize = 0;
        while i < self.components.len() - 1
            invariant
                self.components@.len() > 0,
                i <= self.components@.len() - 1,
                components@.len() == i,
                forall|k: int| 0 <= k < i ==> components@[k]@ == self.components@[k]@,
            decreases self.components@.len() - i,
        {
            components.push(self.components[i].clone());
            i += 1;
        }
        let parent = Path { absolute: self.absolute, components };
        assert(parent@.components =~= self@.components.drop_last());
        Some(parent)
    }

    /// Adds a name at the end.
    pub fn push(&mut self, name: &str)
        ensures
            final(self)@ == (PathView {
                components: old(self)@.components.push(name@),
                ..old(self)@
            }),
    {
        self.components.push(String::from_str(name));
        assert(self@.components =~= old(self)@.components.push(name@));
    }

    /// A copy of the path that can grow.
    pub fn to_path_buf(&self) -> (copy: PathBuf)
        ensures
            copy@ == self@,
    {
        let mut components: Vec<String> = Vec::new();
        let mut i: usize = 0;
        while i < self.components.len()
            invariant
                i <= self.components@.len(),
                components@.len() == i,
                forall|k: int| 0 <= k < i ==> components@[k]@ == self.components@[k]@,
            decreases self.components@.len() - i,
        {
            components.push(self.components[i].clone());
            i += 1;
        }
        let copy = Path { absolute: self.absolute, components };
        assert(copy@.components =~= self@.components);
        copy
    }
}

} // verus!
