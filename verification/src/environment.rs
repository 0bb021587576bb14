//! Environment variables.
//!
//! An environment is modelled by the sequence of its variables, in the order
//! in which they are listed. A name stands for its first entry.

use vstd::prelude::*;

verus! {

/// The variables of an environment, in order: name and value.
pub type Vars = Seq<(Seq<char>, Seq<char>)>;

/// The value of `name`, if it is set.
pub open spec fn value_of(vars: Vars, name: Seq<char>) -> Option<Seq<char>>
    decreases vars.len(),
{
    if vars.len() == 0 {
        None
    } else if vars[0].0 == name {
        Some(vars[0].1)
    } else {
        value_of(vars.skip(1), name)
    }
}

/// `vars` with `name` set to `value`: in its old place if it was set, else at
/// the end.
pub open spec fn assigned(vars: Vars, name: Seq<char>, value: Seq<char>) -> Vars
    decreases vars.len(),
{
    if vars.len() == 0 {
        seq![(name, value)]
    } else if vars[0].0 == name {
        vars.update(0, (name, value))
    } else {
        seq![vars[0]] + assigned(vars.skip(1), name, value)
    }
}

/// `vars` without `name`.
pub open spec fn without(vars: Vars, name: Seq<char>) -> Vars
    decreases vars.len(),
{
    if vars.len() == 0 {
        vars
    } else if vars[0].0 == name {
        without(vars.skip(1), name)
    } else {
        seq![vars[0]] + without(vars.skip(1), name)
    }
}

/// Setting a variable gives it that value and leaves every other one as it was.
pub proof fn assignment_is_read_back(vars: Vars, name: Seq<char>, value: Seq<char>, other: Seq<char>)
    ensures
        value_of(assigned(vars, name, value), name) == Some(value),
        other != name ==> value_of(assigned(vars, name, value), other) == value_of(vars, other),
    decreases vars.len(),
{
    let after = assigned(vars, name, value);
    reveal_with_fuel(value_of, 2);
    if vars.len() == 0 {
        assert(after.skip(1) =~= vars);
    } else if vars[0].0 == name {
        assert(after.skip(1) =~= vars.skip(1));
    } else {
        assignment_is_read_back(vars.skip(1), name, value, other);
        assert(after.skip(1) =~= assigned(vars.skip(1), name, value));
    }
}

/// Removing a variable unsets it and leaves every other one as it was.
pub proof fn removal_unsets(vars: Vars, name: Seq<char>, other: Seq<char>)
    ensures
        value_of(without(vars, name), name) is None,
        other != name ==> value_of(without(vars, name), other) == value_of(vars, other),
    decreases vars.len(),
{
    let after = without(vars, name);
    if vars.len() > 0 {
        removal_unsets(vars.skip(1), name, other);
        if vars[0].0 != name {
            assert(after.skip(1) =~= without(vars.skip(1), name));
        }
    }
}

/// A snapshot of environment variables, or the variables that a builtin leaves.
pub struct Environment {
    entries: Vec<(String, String)>,
}

impl View for Environment {
    type V = Vars;

    closed spec fn view(&self) -> Vars {
        Seq::new(self.entries@.len(), |i: int| (self.entries@[i].0@, self.entries@[i].1@))
    }
}

impl Environment {
    /// An environment without variables.
    pub fn new() -> (r: Environment)
        ensures
            r@ == Seq::<(Seq<char>, Seq<char>)>::empty(),
    {
        let r = Environment { entries: Vec::new() };
        assert(r@ =~= Seq::<(Seq<char>, Seq<char>)>::empty());
        r
    }

    /// The number of entries.
    pub fn count(&self) -> (r: usize)
        ensures
            r == self@.len(),
    {
        self.entries.len()
    }

    /// The name of the `i`-th entry.
    pub fn name_at(&self, i: usize) -> (r: &str)
        requires
            i < self@.len(),
        ensures
            r@ == self@[i as int].0,
    {
        self.entries[i].0.as_str()
    }

    /// The value of the `i`-th entry.
    pub fn value_at(&self, i: usize) -> (r: &str)
        requires
            i < self@.len(),
        ensures
            r@ == self@[i as int].1,
    {
        self.entries[i].1.as_str()
    }

    /// The position of the first entry for `name`, or the number of entries.
    fn position(&self, name: &str) -> (r: usize)
        ensures
            r <= self@.len(),
            r < self@.len() ==> self@[r as int].0 == name@,
            forall|j: int| 0 <= j < r ==> self@[j].0 != name@,
    {
        let key: String = name.to_string();
        let mut i: usize = 0;
        while i < self.entries.len()
            invariant
                i <= self.entries@.len() == self@.len(),
                key@ == name@,
                forall|j: int| 0 <= j < i ==> self@[j].0 != name@,
            decreases self.entries@.len() - i,
        {
            if self.entries[i].0 == key {
                return i;
            }
            i += 1;
        }
        i
    }

    /// The value of `name`, if it is set.
    pub fn get(&self, name: &str) -> (r: Option<&str>)
        ensures
            match r {
                Some(v) => value_of(self@, name@) == Some(v@),
                None => value_of(self@, name@) is None,
            },
    {
        let k: usize = self.position(name);
        proof {
            lemma_value_of(self@, name@, k as int);
        }
        if k < self.entries.len() {
            Some(self.entries[k].1.as_str())
        } else {
            None
        }
    }

    /// Sets `name` to `value`.
    pub fn set(&mut self, name: &str, value: &str)
        ensures
            final(self)@ == assigned(old(self)@, name@, value@),
    {
        let k: usize = self.position(name);
        let entry: (String, String) = (name.to_string(), value.to_string());
        proof {
            lemma_assigned(self@, name@, value@, k as int);
        }
        if k < self.entries.len() {
            self.entries.set(k, entry);
            assert(self@ =~= old(self)@.update(k as int, (name@, value@)));
        } else {
            self.entries.push(entry);
            assert(self@ =~= old(self)@.push((name@, value@)));
        }
    }

    /// Removes `name`.
    pub fn remove(&mut self, name: &str)
        ensures
            final(self)@ == without(old(self)@, name@),
        decreases old(self)@.len(),
    {
        let k: usize = self.position(name);
        proof {
            lemma_without(self@, name@, k as int);
        }
        if k < self.entries.len() {
            let _ = self.entries.remove(k);
            assert(self@ =~= old(self)@.remove(k as int));
            self.remove(name);
        }
    }
}

proof fn lemma_value_of(vars: Vars, name: Seq<char>, k: int)
    requires
        0 <= k <= vars.len(),
        forall|j: int| 0 <= j < k ==> vars[j].0 != name,
        k < vars.len() ==> vars[k].0 == name,
    ensures
        value_of(vars, name) == (if k < vars.len() {
            Some(vars[k].1)
        } else {
            None
        }),
    decreases k,
{
    if k > 0 {
        let rest = vars.skip(1);
        assert forall|j: int| 0 <= j < k - 1 implies rest[j].0 != name by {
            assert(rest[j] == vars[j + 1]);
        }
        assert(k - 1 < rest.len() ==> rest[k - 1] == vars[k]);
        lemma_value_of(rest, name, k - 1);
    }
}

proof fn lemma_assigned(vars: Vars, name: Seq<char>, value: Seq<char>, k: int)
    requires
        0 <= k <= vars.len(),
        forall|j: int| 0 <= j < k ==> vars[j].0 != name,
        k < vars.len() ==> vars[k].0 == name,
    ensures
        assigned(vars, name, value) == (if k < vars.len() {
            vars.update(k, (name, value))
        } else {
            vars.push((name, value))
        }),
    decreases k,
{
    if k > 0 {
        let rest = vars.skip(1);
        assert forall|j: int| 0 <= j < k - 1 implies rest[j].0 != name by {
            assert(rest[j] == vars[j + 1]);
        }
        assert(k - 1 < rest.len() ==> rest[k - 1] == vars[k]);
        lemma_assigned(rest, name, value, k - 1);
        if k < vars.len() {
            assert(seq![vars[0]] + rest.update(k - 1, (name, value)) =~= vars.update(k, (name, value)));
        } else {
            assert(seq![vars[0]] + rest.push((name, value)) =~= vars.push((name, value)));
        }
    } else if vars.len() == 0 {
        assert(seq![(name, value)] =~= vars.push((name, value)));
    }
}

proof fn lemma_without(vars: Vars, name: Seq<char>, k: int)
    requires
        0 <= k <= vars.len(),
        forall|j: int| 0 <= j < k ==> vars[j].0 != name,
        k < vars.len() ==> vars[k].0 == name,
    ensures
        without(vars, name) == (if k < vars.len() {
            without(vars.remove(k), name)
        } else {
            vars
        }),
    decreases k,
{
    if k > 0 {
        let rest = vars.skip(1);
        assert forall|j: int| 0 <= j < k - 1 implies rest[j].0 != name by {
            assert(rest[j] == vars[j + 1]);
        }
        assert(k - 1 < rest.len() ==> rest[k - 1] == vars[k]);
        lemma_without(rest, name, k - 1);
        if k < vars.len() {
            assert(vars.remove(k).skip(1) =~= rest.remove(k - 1));
        } else {
            assert(seq![vars[0]] + rest =~= vars);
        }
    } else if vars.len() > 0 {
        assert(vars.remove(0) =~= vars.skip(1));
    }
}

// ---------------------------------------------------------------------------
// Laws
// ---------------------------------------------------------------------------

/// A name stands for its first entry, wherever it is; without an entry it is not
/// set.
pub proof fn the_first_entry_counts(before: Vars, name: Seq<char>, value: Seq<char>, after: Vars)
    requires
        forall|j: int| 0 <= j < before.len() ==> (#[trigger] before[j]).0 != name,
    ensures
        value_of(before, name) is None,
        value_of(before.push((name, value)) + after, name) == Some(value),
{
    lemma_value_of(before, name, before.len() as int);
    lemma_value_of(before.push((name, value)) + after, name, before.len() as int);
}

/// A variable that is set anew keeps its place, one that was not set comes last,
/// and all others stay where they are.
pub proof fn assignment_keeps_the_order(
    before: Vars,
    name: Seq<char>,
    old_value: Seq<char>,
    value: Seq<char>,
    after: Vars,
)
    requires
        forall|j: int| 0 <= j < before.len() ==> (#[trigger] before[j]).0 != name,
    ensures
        assigned(before, name, value) == before.push((name, value)),
        assigned(before.push((name, old_value)) + after, name, value) == before.push(
            (name, value),
        ) + after,
{
    lemma_assigned(before, name, value, before.len() as int);
    let vars = before.push((name, old_value)) + after;
    lemma_assigned(vars, name, value, before.len() as int);
    assert(vars.update(before.len() as int, (name, value)) =~= before.push((name, value)) + after);
}

/// Removing a variable takes every entry for it, and keeps all others in order.
pub proof fn removal_takes_every_entry(vars: Vars, name: Seq<char>)
    ensures
        without(vars, name) == vars.filter(|v: (Seq<char>, Seq<char>)| v.0 != name),
    decreases vars.len(),
{
    let keep = |v: (Seq<char>, Seq<char>)| v.0 != name;
    reveal_with_fuel(Seq::filter, 2);
    if vars.len() > 0 {
        let one = seq![vars[0]];
        let rest = vars.skip(1);
        removal_takes_every_entry(rest, name);
        assert(one + rest =~= vars);
        Seq::filter_distributes_over_add(one, rest, keep);
        assert(one.drop_last() =~= Seq::<(Seq<char>, Seq<char>)>::empty());
        assert(one.filter(keep) =~= if vars[0].0 != name {
            one
        } else {
            seq![]
        });
    }
}

} // verus!
