//! The channels and patterns a session wants to be subscribed to.
use vstd::prelude::*;

verus! {

/// Two sets of names, one of channels and one of patterns, each name held
/// at most once. They are kept in the order of their first addition.
#[derive(Debug)]
pub struct Registry {
    channels: Vec<String>,
    patterns: Vec<String>,
}

/// The names of a `Registry`, in order.
pub struct RegistryView {
    pub channels: Seq<Seq<char>>,
    pub patterns: Seq<Seq<char>>,
}

impl RegistryView {
    /// No name is held twice in one set.
    pub open spec fn wf(self) -> bool {
        self.channels.no_duplicates() && self.patterns.no_duplicates()
    }
}

/// The texts of a sequence of strings.
pub open spec fn texts(v: Seq<String>) -> Seq<Seq<char>> {
    Seq::new(v.len(), |i: int| v[i]@)
}

/// `names` with `name` added at the end, unless it is there already.
pub open spec fn with_name(names: Seq<Seq<char>>, name: Seq<char>) -> Seq<Seq<char>> {
    if names.contains(name) {
        names
    } else {
        names.push(name)
    }
}

/// Adds `name` to a set of names, unless it is there already.
fn insert_name(names: &mut Vec<String>, name: String)
    requires
        texts(old(names)@).no_duplicates(),
    ensures
        texts(final(names)@).no_duplicates(),
        texts(final(names)@) == with_name(texts(old(names)@), name@),
        texts(final(names)@).to_set() == texts(old(names)@).to_set().insert(name@),
{
    let ghost before = texts(names@);
    let mut i: usize = 0;
    while i < names.len()
        invariant
            0 <= i <= names@.len(),
            texts(names@) == before,
            before == texts(old(names)@),
            before.no_duplicates(),
            forall|k: int| 0 <= k < i ==> before[k] != name@,
        decreases names@.len() - i,
    {
        if names[i] == name {
            assert(before[i as int] == name@);
            assert(before.contains(name@));
            assert(before.to_set().insert(name@) =~= before.to_set());
            return;
        }
        i += 1;
    }
    names.push(name);
    assert(texts(names@) =~= before.push(name@));
    assert(before.push(name@).to_set() =~= before.to_set().insert(name@)) by {
        assert forall|x: Seq<char>| before.push(name@).contains(x) implies before.contains(x)
            || x == name@ by {
            let k = choose|k: int| 0 <= k < before.len() + 1 && before.push(name@)[k] == x;
            if k < before.len() {
                assert(before[k] == x);
            }
        }
        assert forall|x: Seq<char>| before.contains(x) implies before.push(name@).contains(x) by {
            let k = choose|k: int| 0 <= k < before.len() && before[k] == x;
            assert(before.push(name@)[k] == x);
        }
        assert(before.push(name@)[before.len() as int] == name@);
    }
}

/// Takes `name` out of a set of names; tells whether it was there.
fn remove_name(names: &mut Vec<String>, name: &String) -> (present: bool)
    requires
        texts(old(names)@).no_duplicates(),
    ensures
        present == texts(old(names)@).contains(name@),
        !present ==> final(names)@ == old(names)@,
        texts(final(names)@).no_duplicates(),
        texts(final(names)@).to_set() == texts(old(names)@).to_set().remove(name@),
{
    let ghost before = texts(names@);
    let mut i: usize = 0;
    while i < names.len()
        invariant
            0 <= i <= names@.len(),
            texts(names@) == before,
            names@ == old(names)@,
            before == texts(old(names)@),
            before.no_duplicates(),
            forall|k: int| 0 <= k < i ==> before[k] != name@,
        decreases names@.len() - i,
    {
        if names[i] == *name {
            assert(before[i as int] == name@);
            assert(before.contains(name@));
            names.remove(i);
            let ghost after = texts(names@);
            assert(after =~= before.remove(i as int));
            assert(after.to_set() =~= before.to_set().remove(name@)) by {
                assert forall|x: Seq<char>| after.contains(x) implies before.contains(x) && x
                    != name@ by {
                    let k = choose|k: int| 0 <= k < after.len() && after[k] == x;
                    if k < i {
                        assert(before[k] == x);
                    } else {
                        assert(before[k + 1] == x);
                    }
                }
                assert forall|x: Seq<char>| before.contains(x) && x != name@ implies after.contains(
                    x,
                ) by {
                    let k = choose|k: int| 0 <= k < before.len() && before[k] == x;
                    if k < i {
                        assert(after[k] == x);
                    } else {
                        assert(k != i);
                        assert(after[k - 1] == x);
                    }
                }
            }
            return true;
        }
        i += 1;
    }
    assert(before.to_set().remove(name@) =~= before.to_set());
    false
}

/// Copies of a sequence of strings.
fn copy_names(names: &Vec<String>) -> (r: Vec<String>)
    ensures
        texts(r@) == texts(names@),
{
    let mut out: Vec<String> = Vec::new();
    let mut i: usize = 0;
    while i < names.len()
        invariant
            0 <= i <= names@.len(),
            texts(out@) =~= texts(names@).subrange(0, i as int),
        decreases names@.len() - i,
    {
        let ghost before = out@;
        let c = names[i].clone();
        out.push(c);
        assert(texts(out@) =~= texts(before).push(names@[i as int]@));
        i += 1;
    }
    assert(texts(names@).subrange(0, i as int) =~= texts(names@));
    out
}

impl View for Registry {
    type V = RegistryView;

    closed spec fn view(&self) -> RegistryView {
        RegistryView { channels: texts(self.channels@), patterns: texts(self.patterns@) }
    }
}

impl Registry {
    /// An empty registry.
    pub fn new() -> (r: Registry)
        ensures
            r@.channels.len() == 0,
            r@.patterns.len() == 0,
            r@.wf(),
    {
        let r = Registry { channels: Vec::new(), patterns: Vec::new() };
        assert(r@.channels =~= Seq::<Seq<char>>::empty());
        assert(r@.patterns =~= Seq::<Seq<char>>::empty());
        r
    }

    /// Adds a channel.
    pub fn add_channel(&mut self, channel: String)
        requires
            old(self)@.wf(),
        ensures
            final(self)@.wf(),
            final(self)@.channels == with_name(old(self)@.channels, channel@),
            final(self)@.channels.to_set() == old(self)@.channels.to_set().insert(channel@),
            final(self)@.patterns == old(self)@.patterns,
    {
        insert_name(&mut self.channels, channel);
    }

    /// Removes a channel; tells whether it was there.
    pub fn remove_channel(&mut self, channel: &String) -> (present: bool)
        requires
            old(self)@.wf(),
        ensures
            present == old(self)@.channels.contains(channel@),
            !present ==> final(self)@ == old(self)@,
            final(self)@.wf(),
            final(self)@.channels.to_set() == old(self)@.channels.to_set().remove(channel@),
            final(self)@.patterns == old(self)@.patterns,
    {
        remove_name(&mut self.channels, channel)
    }

    /// Adds a pattern.
    pub fn add_pattern(&mut self, pattern: String)
        requires
            old(self)@.wf(),
        ensures
            final(self)@.wf(),
            final(self)@.patterns == with_name(old(self)@.patterns, pattern@),
            final(self)@.patterns.to_set() == old(self)@.patterns.to_set().insert(pattern@),
            final(self)@.channels == old(self)@.channels,
    {
        insert_name(&mut self.patterns, pattern);
    }

    /// Removes a pattern; tells whether it was there.
    pub fn remove_pattern(&mut self, pattern: &String) -> (present: bool)
        requires
            old(self)@.wf(),
        ensures
            present == old(self)@.patterns.contains(pattern@),
            !present ==> final(self)@ == old(self)@,
            final(self)@.wf(),
            final(self)@.patterns.to_set() == old(self)@.patterns.to_set().remove(pattern@),
            final(self)@.channels == old(self)@.channels,
    {
        remove_name(&mut self.patterns, pattern)
    }

    /// The channels, in order.
    pub fn channels(&self) -> (r: Vec<String>)
        ensures
            texts(r@) == self@.channels,
    {
        copy_names(&self.channels)
    }

    /// The patterns, in order.
    pub fn patterns(&self) -> (r: Vec<String>)
        ensures
            texts(r@) == self@.patterns,
    {
        copy_names(&self.patterns)
    }
}

} // verus!
