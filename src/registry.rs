use vstd::prelude::*;

verus! {

/// The aggregation strategies the library knows how to run.
#[derive(Debug, Clone, Copy, PartialEq, Eq, Structural)]
pub enum ReducerKind {
    /// Arithmetic sum divided by count.
    Mean,
    /// Middle element after an ascending sort; the average of the two middle
    /// elements for an even count.
    Median,
}

/// The reducer registered under `name` in `entries`, the first such entry.
pub open spec fn lookup_in(entries: Seq<(Seq<char>, ReducerKind)>, name: Seq<char>) -> Option<
    ReducerKind,
>
    decreases entries.len(),
{
    if entries.len() == 0 {
        None
    } else if entries[0].0 == name {
        Some(entries[0].1)
    } else {
        lookup_in(entries.drop_first(), name)
    }
}

/// Reducers by name. A name is registered at most once.
pub struct Registry {
    entries: Vec<(String, ReducerKind)>,
}

impl View for Registry {
    type V = Seq<(Seq<char>, ReducerKind)>;

    closed spec fn view(&self) -> Seq<(Seq<char>, ReducerKind)> {
        self.entries@.map_values(|e: (String, ReducerKind)| (e.0@, e.1))
    }
}

proof fn lemma_lookup_push(s: Seq<(Seq<char>, ReducerKind)>, e: (Seq<char>, ReducerKind), name: Seq<
    char,
>)
    ensures
        lookup_in(s.push(e), name) == match lookup_in(s, name) {
            Some(k) => Some(k),
            None => if e.0 == name {
                Some(e.1)
            } else {
                None
            },
        },
    decreases s.len(),
{
    assert(s.push(e)[0] == if s.len() > 0 { s[0] } else { e });
    if s.len() == 0 {
        assert(lookup_in(s.push(e).drop_first(), name) == None::<ReducerKind>);
    } else {
        assert(s.push(e).drop_first() =~= s.drop_first().push(e));
        lemma_lookup_push(s.drop_first(), e, name);
    }
}

impl Registry {
    /// The reducer registered under `name`, if any.
    pub open spec fn spec_lookup(&self, name: Seq<char>) -> Option<ReducerKind> {
        lookup_in(self@, name)
    }

    /// A registry with no reducer.
    pub fn new() -> (r: Registry)
        ensures
            forall|n: Seq<char>| r.spec_lookup(n) == None::<ReducerKind>,
    {
        Registry { entries: Vec::new() }
    }

    /// Registers `kind` under `name`. A name that is taken is left as it is,
    /// and `false` is returned.
    pub fn register(&mut self, name: String, kind: ReducerKind) -> (added: bool)
        ensures
            added == (old(self).spec_lookup(name@) == None::<ReducerKind>),
            forall|n: Seq<char>|
                #[trigger] final(self).spec_lookup(n) == if added && n == name@ {
                    Some(kind)
                } else {
                    old(self).spec_lookup(n)
                },
    {
        if self.lookup(&name).is_some() {
            return false;
        }
        let ghost before = self@;
        self.entries.push((name, kind));
        proof {
            assert(self@ =~= before.push((name@, kind)));
            assert forall|n: Seq<char>|
                #[trigger] self.spec_lookup(n) == if n == name@ {
                    Some(kind)
                } else {
                    lookup_in(before, n)
                } by {
                lemma_lookup_push(before, (name@, kind), n);
            }
        }
        true
    }

    /// The registry with the built-in reducers: `mean` and `median`.
    pub fn with_builtins() -> (r: Registry)
        ensures
            r.spec_lookup("mean"@) == Some(ReducerKind::Mean),
            r.spec_lookup("median"@) == Some(ReducerKind::Median),
            forall|n: Seq<char>|
                n != "mean"@ && n != "median"@ ==> #[trigger] r.spec_lookup(n) == None::<
                    ReducerKind,
                >,
    {
        let mut r = Registry::new();
        proof {
            reveal_strlit("mean");
            reveal_strlit("median");
        }
        assert("mean"@.len() != "median"@.len());
        r.register(String::from_str("mean"), ReducerKind::Mean);
        r.register(String::from_str("median"), ReducerKind::Median);
        r
    }

    /// The reducer registered under `name`, if any.
    pub fn lookup(&self, name: &String) -> (r: Option<ReducerKind>)
        ensures
            r == self.spec_lookup(name@),
    {
        let mut i: usize = 0;
        assert(self@.subrange(0, self@.len() as int) =~= self@);
        while i < self.entries.len()
            invariant
                i <= self.entries@.len(),
                self@.len() == self.entries@.len(),
                lookup_in(self@, name@) == lookup_in(self@.subrange(i as int, self@.len() as int), name@),
            decreases self.entries@.len() - i,
        {
            let ghost rest = self@.subrange(i as int, self@.len() as int);
            assert(rest[0] == (self.entries@[i as int].0@, self.entries@[i as int].1));
            if self.entries[i].0 == *name {
                return Some(self.entries[i].1);
            }
            assert(rest.drop_first() =~= self@.subrange(i + 1, self@.len() as int));
            i = i + 1;
        }
        None
    }
}

} // verus!
