use vstd::prelude::*;

use crate::text::{lemma_replace_self, replace_all, replace_spec};

verus! {

/// The most passes that a substitution makes.
pub const MAX_PASSES: usize = 1000;

/// The reference to a variable in a text: `$` then its name.
pub open spec fn reference(name: Seq<char>) -> Seq<char> {
    seq!['$'] + name
}

/// One pass: each variable in turn replaces its references in the text.
pub open spec fn pass_result(s: Seq<char>, vars: Seq<(Seq<char>, Seq<char>)>) -> Seq<char>
    decreases vars.len(),
{
    if vars.len() == 0 {
        s
    } else {
        let prev = pass_result(s, vars.drop_last());
        replace_spec(prev, reference(vars.last().0), vars.last().1)
    }
}

/// Whether some replacement of the pass changed the text it was given.
pub open spec fn pass_changed(s: Seq<char>, vars: Seq<(Seq<char>, Seq<char>)>) -> bool
    decreases vars.len(),
{
    if vars.len() == 0 {
        false
    } else {
        let prev = pass_result(s, vars.drop_last());
        pass_changed(s, vars.drop_last()) || replace_spec(prev, reference(vars.last().0), vars.last().1)
            != prev
    }
}

/// Passes repeated until one changes nothing, `fuel` passes at most.
pub open spec fn substitute(s: Seq<char>, vars: Seq<(Seq<char>, Seq<char>)>, fuel: nat) -> Seq<char>
    decreases fuel,
{
    if fuel == 0 {
        s
    } else if !pass_changed(s, vars) {
        pass_result(s, vars)
    } else {
        substitute(pass_result(s, vars), vars, (fuel - 1) as nat)
    }
}

/// `vars` with `key` set to `value`: in place where `key` is present, else at the end.
pub open spec fn set_var(
    vars: Seq<(Seq<char>, Seq<char>)>,
    key: Seq<char>,
    value: Seq<char>,
) -> Seq<(Seq<char>, Seq<char>)> {
    if exists|i: int| 0 <= i < vars.len() && (#[trigger] vars[i]).0 == key {
        vars.update(choose|i: int| 0 <= i < vars.len() && (#[trigger] vars[i]).0 == key, (key, value))
    } else {
        vars.push((key, value))
    }
}

pub open spec fn pairs_view(v: Seq<(String, String)>) -> Seq<(Seq<char>, Seq<char>)> {
    v.map_values(|p: (String, String)| (p.0@, p.1@))
}

fn one_pass(text: String, vars: &Vec<(String, String)>) -> (r: (String, bool))
    ensures
        r.0@ == pass_result(text@, pairs_view(vars@)),
        r.1 == pass_changed(text@, pairs_view(vars@)),
{
    let ghost vs = pairs_view(vars@);
    let mut result = text;
    let ghost s0 = result@;
    let mut changed = false;
    let mut i: usize = 0;
    assert(vs.take(0) =~= Seq::<(Seq<char>, Seq<char>)>::empty());
    while i < vars.len()
        invariant
            i <= vars@.len(),
            vs == pairs_view(vars@),
            result@ == pass_result(s0, vs.take(i as int)),
            changed == pass_changed(s0, vs.take(i as int)),
        decreases vars@.len() - i,
    {
        let (name, value) = &vars[i];
        let mut pattern = String::new();
        proof {
            reveal_strlit("$");
        }
        pattern.append("$");
        pattern.append(name.as_str());
        assert(pattern@ =~= reference(name@));
        let next = replace_all(result.as_str(), pattern.as_str(), value.as_str());
        assert(vs.take(i + 1).drop_last() =~= vs.take(i as int));
        assert(vs.take(i + 1).last() == (name@, value@));
        changed = changed || next != result;
        result = next;
        i = i + 1;
    }
    assert(vs.take(i as int) =~= vs);
    (result, changed)
}

/// Substitutes `$name` by each variable's value, pass after pass in the order
/// of `vars`, until a pass changes nothing or the pass limit is reached.
pub fn replace_variables(text: &str, vars: &Vec<(String, String)>) -> (r: String)
    ensures
        r@ == substitute(text@, pairs_view(vars@), MAX_PASSES as nat),
{
    let mut result = text.to_owned();
    let mut k: usize = 0;
    while k < MAX_PASSES
        invariant
            k <= MAX_PASSES,
            substitute(text@, pairs_view(vars@), MAX_PASSES as nat) == substitute(
                result@,
                pairs_view(vars@),
                (MAX_PASSES - k) as nat,
            ),
        decreases MAX_PASSES - k,
    {
        let (next, changed) = one_pass(result, vars);
        if !changed {
            return next;
        }
        result = next;
        k = k + 1;
    }
    result
}

/// A set of named variables, each name once, kept in the order they were first added.
pub struct VariableReplace {
    pub variables: Vec<(String, String)>,
}

impl VariableReplace {
    pub open spec fn view(&self) -> Seq<(Seq<char>, Seq<char>)> {
        pairs_view(self.variables@)
    }

    /// No name occurs twice.
    pub open spec fn wf(&self) -> bool {
        forall|i: int, j: int|
            0 <= i < j < self@.len() ==> (#[trigger] self@[i]).0 != (#[trigger] self@[j]).0
    }

    pub fn new() -> (r: VariableReplace)
        ensures
            r@ == Seq::<(Seq<char>, Seq<char>)>::empty(),
            r.wf(),
    {
        let r = VariableReplace { variables: Vec::new() };
        assert(r@ =~= Seq::<(Seq<char>, Seq<char>)>::empty());
        r
    }

    /// Sets `key` to `value`: in place if `key` is present, else at the end.
    pub fn add(&mut self, key: &str, value: &str)
        requires
            old(self).wf(),
        ensures
            final(self).wf(),
            final(self)@ == set_var(old(self)@, key@, value@),
    {
        let k = key.to_owned();
        let mut i: usize = 0;
        while i < self.variables.len()
            invariant
                i <= self@.len(),
                self@.len() == self.variables@.len(),
                *self == *old(self),
                k@ == key@,
                old(self).wf(),
                forall|j: int| 0 <= j < i ==> self@[j].0 != key@,
            decreases self.variables@.len() - i,
        {
            assert(self@[i as int].0 == self.variables@[i as int].0@);
            if self.variables[i].0 == k {
                let ghost before = self@;
                let v = value.to_owned();
                let ghost pair = (k, v);
                self.variables.set(i, (k, v));
                assert(self.variables@ == old(self).variables@.update(i as int, pair));
                assert forall|j: int| 0 <= j < self@.len() implies #[trigger] self@[j] == before.update(
                    i as int,
                    (key@, value@),
                )[j] by {
                    if j != i {
                        assert(self.variables@[j] == old(self).variables@[j]);
                    } else {
                        assert(self.variables@[j] == pair);
                        assert(pair.0@ == key@);
                        assert(pair.1@ == value@);
                    }
                }
                assert(self@ =~= before.update(i as int, (key@, value@)));
                let ghost c = choose|j: int| 0 <= j < before.len() && (#[trigger] before[j]).0 == key@;
                assert(before[i as int].0 == key@);
                assert(c == i);
                return;
            }
            i = i + 1;
        }
        let ghost before = self@;
        self.variables.push((k, value.to_owned()));
        assert(self@ =~= before.push((key@, value@)));
        assert(!exists|j: int| 0 <= j < before.len() && (#[trigger] before[j]).0 == key@);
    }

    /// The text with every variable substituted; see `replace_variables`.
    pub fn apply(&self, text: &str) -> (r: String)
        ensures
            r@ == substitute(text@, self@, MAX_PASSES as nat),
    {
        replace_variables(text, &self.variables)
    }
}

/// A variable whose value is its own reference leaves every text as it is,
/// however many passes are allowed.
pub proof fn lemma_self_reference_is_stable(s: Seq<char>, name: Seq<char>, fuel: nat)
    ensures
        substitute(s, seq![(name, reference(name))], fuel) == s,
{
    let vars = seq![(name, reference(name))];
    assert(vars.drop_last() =~= Seq::<(Seq<char>, Seq<char>)>::empty());
    lemma_replace_self(s, reference(name));
    assert(pass_result(s, vars.drop_last()) == s);
    assert(vars.last() == (name, reference(name)));
    assert(pass_result(s, vars) == s);
    assert(!pass_changed(s, vars.drop_last()));
    assert(!pass_changed(s, vars));
}

} // verus!
