use vstd::prelude::*;

verus! {

/// A problem of the contest: its name, its number of rooms, the most doors a plan
/// may go through, how many copies of the map of `size / ploidy` rooms it is made
/// of, and whether plans may rewrite labels.
#[derive(Clone, Debug)]
pub struct ProblemDefinition {
    pub name: String,
    pub size: usize,
    pub max_plan_length: usize,
    pub ploidy: usize,
    pub label_rewritable: bool,
}

/// The known problems, looked up by name.
pub struct ProblemDefinitions {
    definitions: Vec<ProblemDefinition>,
}

/// The last index below `k` whose definition is named `name`.
pub open spec fn last_named(defs: Seq<ProblemDefinition>, name: Seq<char>, k: int) -> Option<int>
    decreases k,
{
    if k <= 0 {
        None
    } else if defs[k - 1].name@ == name {
        Some(k - 1)
    } else {
        last_named(defs, name, k - 1)
    }
}

impl ProblemDefinitions {
    /// The definitions, in the order they were given.
    pub closed spec fn entries(&self) -> Seq<ProblemDefinition> {
        self.definitions@
    }

    /// Keeps `definitions`; where two share a name, the later one is the one found.
    pub fn new(definitions: Vec<ProblemDefinition>) -> (res: Self)
        ensures
            res.entries() == definitions@,
    {
        Self { definitions }
    }

    /// The definition named `name` (the last one given under that name), if any.
    pub fn get(&self, name: &str) -> (res: Option<&ProblemDefinition>)
        ensures
            match last_named(self.entries(), name@, self.entries().len() as int) {
                Some(i) => res == Some(&self.entries()[i]),
                None => res is None,
            },
    {
        let key = name.to_owned();
        let mut k: usize = self.definitions.len();
        while k > 0
            invariant
                key@ == name@,
                k <= self.definitions@.len(),
                last_named(self.entries(), name@, self.entries().len() as int) == last_named(
                    self.entries(),
                    name@,
                    k as int,
                ),
            decreases k,
        {
            if self.definitions[k - 1].name == key {
                return Some(&self.definitions[k - 1]);
            }
            k = k - 1;
        }
        None
    }
}

} // verus!
