use super::label::Label;
use super::model_var::{type_size, MappingError, MappingResult, ModelVar, VarType};
use crate::computation::virtual_memory::{VariableDefiner, VirtualMemory};
use vstd::prelude::*;

verus! {

/// The domains joined by `.`, in order; no domain gives the empty text.
pub open spec fn path_text(domains: Seq<Seq<char>>) -> Seq<char>
    decreases domains.len(),
{
    if domains.len() == 0 {
        Seq::empty()
    } else if domains.len() == 1 {
        domains[0]
    } else {
        path_text(domains.drop_last()) + seq!['.'] + domains.last()
    }
}

/// The full name of `name` under the domains: the path, a `.` and the name, or the name
/// alone when there is no domain.
pub open spec fn local_name(domains: Seq<Seq<char>>, name: Seq<char>) -> Seq<char> {
    if domains.len() == 0 {
        name
    } else {
        path_text(domains) + seq!['.'] + name
    }
}

/// Whether some variable of `vars` is called `name`.
pub open spec fn named(vars: Seq<ModelVar>, name: Seq<char>) -> bool {
    exists|i: int| 0 <= i < vars.len() && #[trigger] vars[i].var_name() == name
}

/// The variable of `vars` called `name`, if there is one.
pub open spec fn lookup(vars: Seq<ModelVar>, name: Seq<char>) -> Option<ModelVar> {
    if named(vars, name) {
        Some(vars[choose|i: int| 0 <= i < vars.len() && #[trigger] vars[i].var_name() == name])
    } else {
        None
    }
}

/// `vars` with `v` recorded under its name: in place of the variable of that name, or
/// after the others.
pub open spec fn with_var(vars: Seq<ModelVar>, v: ModelVar) -> Seq<ModelVar> {
    if named(vars, v.var_name()) {
        vars.update(
            choose|i: int| 0 <= i < vars.len() && #[trigger] vars[i].var_name() == v.var_name(),
            v,
        )
    } else {
        vars.push(v)
    }
}

/// No two variables of `vars` have the same name.
pub open spec fn names_distinct(vars: Seq<ModelVar>) -> bool {
    forall|i: int, j: int|
        0 <= i < vars.len() && 0 <= j < vars.len() && i != j ==> #[trigger] vars[i].var_name()
            != #[trigger] vars[j].var_name()
}

/// The variables of a model under construction, keyed by their full names, the memory they
/// take, and the path of domains that names are currently placed in.
#[derive(Debug, Clone, PartialEq, Eq)]
pub struct ModelContext {
    vars: Vec<ModelVar>,
    definer: VariableDefiner,
    path: Vec<Label>,
}

impl ModelContext {
    /// The variables, in the order they were first added.
    pub closed spec fn variables(&self) -> Seq<ModelVar> {
        self.vars@
    }

    /// The current domains, outermost first.
    pub closed spec fn domains(&self) -> Seq<Seq<char>> {
        self.path@.map_values(|l: Label| l@)
    }

    /// Bytes of memory the variables take.
    pub closed spec fn defined_size(&self) -> nat {
        self.definer.spec_size()
    }

    /// No two variables share a name.
    pub closed spec fn wf(&self) -> bool {
        names_distinct(self.vars@)
    }

    pub fn new() -> (c: Self)
        ensures
            c.wf(),
            c.variables() == Seq::<ModelVar>::empty(),
            c.domains() == Seq::<Seq<char>>::empty(),
            c.defined_size() == 0,
    {
        let c = ModelContext { vars: Vec::new(), definer: VariableDefiner::new(), path: Vec::new() };
        assert(c.domains() =~= Seq::<Seq<char>>::empty());
        c
    }

    pub fn n_vars(&self) -> (r: usize)
        ensures
            r == self.variables().len(),
    {
        self.vars.len()
    }

    /// Number of actions declared in the context; no operation of a context declares one.
    pub fn n_actions(&self) -> (r: usize)
        ensures
            r == 0,
    {
        0
    }

    /// A zeroed memory large enough for the variables of the context.
    pub fn make_memory(&self) -> (m: VirtualMemory)
        ensures
            m@ == Seq::new(self.defined_size(), |i: int| 0u8),
    {
        VirtualMemory::from_size(self.definer.size())
    }

    /// Copies of the variables of the context.
    pub fn get_vars(&self) -> (r: Vec<ModelVar>)
        ensures
            r@ == self.variables(),
    {
        let mut r: Vec<ModelVar> = Vec::new();
        let mut i: usize = 0;
        while i < self.vars.len()
            invariant
                i <= self.vars.len(),
                r@ == self.vars@.take(i as int),
            decreases self.vars.len() - i,
        {
            r.push(self.vars[i].clone());
            i += 1;
            assert(r@ =~= self.vars@.take(i as int));
        }
        assert(self.vars@.take(self.vars.len() as int) =~= self.vars@);
        r
    }

    /// Position of the variable called `name`, if there is one.
    fn find(&self, name: &Label) -> (r: Option<usize>)
        requires
            self.wf(),
        ensures
            r is None ==> !named(self.variables(), name@),
            r matches Some(i) ==> i < self.variables().len() && self.variables()[i as int].var_name()
                == name@ && lookup(self.variables(), name@) == Some(self.variables()[i as int]),
    {
        let mut i: usize = 0;
        while i < self.vars.len()
            invariant
                i <= self.vars.len(),
                self.wf(),
                forall|j: int| 0 <= j < i ==> #[trigger] self.vars@[j].var_name() != name@,
            decreases self.vars.len() - i,
        {
            if self.vars[i].get_name() == *name {
                proof {
                    let vs = self.vars@;
                    assert(vs[i as int].var_name() == name@);
                    assert(named(vs, name@));
                    let k = choose|k: int| 0 <= k < vs.len() && #[trigger] vs[k].var_name() == name@;
                    assert(k == i);
                }
                return Some(i);
            }
            i += 1;
        }
        None
    }

    /// Declares a variable called `name` under the current domains, mapped after the
    /// variables declared so far; it takes the place of a variable of the same full name.
    pub fn add_var(&mut self, name: Label, var_type: VarType) -> (r: ModelVar)
        requires
            old(self).wf(),
            var_type != VarType::UnknownType,
            old(self).defined_size() + type_size(var_type) <= usize::MAX,
        ensures
            final(self).wf(),
            r.var_name() == local_name(old(self).domains(), name@),
            r.typ() == var_type,
            r.addr() == Some(old(self).defined_size() as usize),
            final(self).variables() == with_var(old(self).variables(), r),
            final(self).domains() == old(self).domains(),
            final(self).defined_size() == old(self).defined_size() + type_size(var_type),
    {
        let var_name = self.get_local_var_name(name);
        let mut var = ModelVar::name(var_name);
        self.definer.define(&mut var, var_type);
        match self.find(&var.get_name()) {
            Some(i) => {
                self.vars.set(i, var.clone());
            },
            None => {
                self.vars.push(var.clone());
                proof {
                    let vs = self.vars@;
                    assert forall|i: int, j: int|
                        0 <= i < vs.len() && 0 <= j < vs.len() && i != j implies #[trigger] vs[i].var_name()
                        != #[trigger] vs[j].var_name() by {
                        if i == vs.len() - 1 {
                            assert(vs[j] == old(self).vars@[j]);
                        } else if j == vs.len() - 1 {
                            assert(vs[i] == old(self).vars@[i]);
                        }
                    }
                }
            },
        }
        var
    }

    /// The variable called `name` under the current domains, if there is one.
    pub fn get_var(&self, name: &Label) -> (r: Option<ModelVar>)
        requires
            self.wf(),
        ensures
            r == lookup(self.variables(), local_name(self.domains(), name@)),
    {
        let var_name = self.get_local_var_name(name.clone());
        match self.find(&var_name) {
            Some(i) => Some(self.vars[i].clone()),
            None => None,
        }
    }

    /// Whether a variable called `name` exists under the current domains.
    pub fn has_var(&self, name: &Label) -> (r: bool)
        requires
            self.wf(),
        ensures
            r == named(self.variables(), local_name(self.domains(), name@)),
    {
        let var_name = self.get_local_var_name(name.clone());
        self.find(&var_name).is_some()
    }

    /// Leaves every domain: names are placed at the top again.
    pub fn origin(&mut self)
        ensures
            final(self).domains() == Seq::<Seq<char>>::empty(),
            final(self).variables() == old(self).variables(),
            final(self).defined_size() == old(self).defined_size(),
            old(self).wf() ==> final(self).wf(),
    {
        self.path = Vec::new();
        assert(self.domains() =~= Seq::<Seq<char>>::empty());
    }

    /// Leaves the innermost domain, if there is one.
    pub fn parent(&mut self)
        ensures
            final(self).domains() == (if old(self).domains().len() == 0 {
                old(self).domains()
            } else {
                old(self).domains().drop_last()
            }),
            final(self).variables() == old(self).variables(),
            final(self).defined_size() == old(self).defined_size(),
            old(self).wf() ==> final(self).wf(),
    {
        let _ = self.path.pop();
        assert(self.domains() =~= (if old(self).domains().len() == 0 {
            old(self).domains()
        } else {
            old(self).domains().drop_last()
        }));
    }

    /// Enters `domain`, inside the current ones.
    pub fn add_domain(&mut self, domain: Label)
        ensures
            final(self).domains() == old(self).domains().push(domain@),
            final(self).variables() == old(self).variables(),
            final(self).defined_size() == old(self).defined_size(),
            old(self).wf() ==> final(self).wf(),
    {
        self.path.push(domain);
        assert(self.domains() =~= old(self).domains().push(domain@));
    }

    /// Whether names are placed in some domain.
    pub fn has_custom_path(&self) -> (r: bool)
        ensures
            r == (self.domains().len() > 0),
    {
        self.path.len() > 0
    }

    /// The current domains joined by `.`.
    pub fn get_path(&self) -> (r: Label)
        ensures
            r@ == path_text(self.domains()),
    {
        let ghost d = self.domains();
        if self.path.len() == 0 {
            return Label::new();
        }
        let mut cwd = self.path[0].clone();
        let mut i: usize = 1;
        assert(d.take(1) =~= seq![d[0]]);
        while i < self.path.len()
            invariant
                1 <= i <= self.path.len(),
                d == self.path@.map_values(|l: Label| l@),
                cwd@ == path_text(d.take(i as int)),
            decreases self.path.len() - i,
        {
            cwd = self.path[i].set_domain(cwd);
            proof {
                let t = d.take(i + 1);
                assert(t.drop_last() =~= d.take(i as int));
                assert(t.last() == d[i as int]);
            }
            i += 1;
        }
        assert(d.take(self.path.len() as int) =~= d);
        cwd
    }

    /// The full name of `name` under the current domains.
    pub fn get_local_var_name(&self, name: Label) -> (r: Label)
        ensures
            r@ == local_name(self.domains(), name@),
    {
        if self.has_custom_path() {
            name.set_domain(self.get_path())
        } else {
            name
        }
    }

    /// Forgets every variable, the memory they took and the domains.
    pub fn clear(&mut self)
        ensures
            final(self).wf(),
            final(self).variables() == Seq::<ModelVar>::empty(),
            final(self).domains() == Seq::<Seq<char>>::empty(),
            final(self).defined_size() == 0,
    {
        self.vars = Vec::new();
        self.path = Vec::new();
        self.definer.clear();
        assert(self.domains() =~= Seq::<Seq<char>>::empty());
    }
}

/// A variable recorded in a context is found again under its name, and every other name
/// finds what it found before; no two variables come to share a name.
pub proof fn lemma_added_var_is_found(vars: Seq<ModelVar>, v: ModelVar, other: Seq<char>)
    requires
        names_distinct(vars),
        other != v.var_name(),
    ensures
        names_distinct(with_var(vars, v)),
        lookup(with_var(vars, v), v.var_name()) == Some(v),
        lookup(with_var(vars, v), other) == lookup(vars, other),
{
    let w = with_var(vars, v);
    if named(vars, v.var_name()) {
        let k = choose|i: int| 0 <= i < vars.len() && #[trigger] vars[i].var_name() == v.var_name();
        assert(w == vars.update(k, v));
        assert forall|i: int, j: int|
            0 <= i < w.len() && 0 <= j < w.len() && i != j implies #[trigger] w[i].var_name()
            != #[trigger] w[j].var_name() by {
            if i != k && j != k {
                assert(w[i] == vars[i] && w[j] == vars[j]);
            } else if i == k {
                assert(w[j] == vars[j]);
                assert(vars[k].var_name() != vars[j].var_name());
            } else {
                assert(w[i] == vars[i]);
                assert(vars[k].var_name() != vars[i].var_name());
            }
        }
        assert(w[k].var_name() == v.var_name());
        let m = choose|i: int| 0 <= i < w.len() && #[trigger] w[i].var_name() == v.var_name();
        assert(m == k);
        if named(vars, other) {
            let a = choose|i: int| 0 <= i < vars.len() && #[trigger] vars[i].var_name() == other;
            assert(a != k);
            assert(w[a] == vars[a]);
            assert(named(w, other));
            let b = choose|i: int| 0 <= i < w.len() && #[trigger] w[i].var_name() == other;
            assert(b != k);
            assert(w[b] == vars[b]);
        } else {
            assert forall|i: int| 0 <= i < w.len() implies #[trigger] w[i].var_name() != other by {
                if i != k {
                    assert(w[i] == vars[i]);
                }
            }
        }
    } else {
        assert(w == vars.push(v));
        assert forall|i: int, j: int|
            0 <= i < w.len() && 0 <= j < w.len() && i != j implies #[trigger] w[i].var_name()
            != #[trigger] w[j].var_name() by {
            if i == vars.len() {
                assert(w[j] == vars[j]);
            } else if j == vars.len() {
                assert(w[i] == vars[i]);
            } else {
                assert(w[i] == vars[i] && w[j] == vars[j]);
            }
        }
        let n = vars.len() as int;
        assert(w[n].var_name() == v.var_name());
        let m = choose|i: int| 0 <= i < w.len() && #[trigger] w[i].var_name() == v.var_name();
        assert(m == n);
        if named(vars, other) {
            let a = choose|i: int| 0 <= i < vars.len() && #[trigger] vars[i].var_name() == other;
            assert(w[a] == vars[a]);
            assert(named(w, other));
            let b = choose|i: int| 0 <= i < w.len() && #[trigger] w[i].var_name() == other;
            assert(b != n);
            assert(w[b] == vars[b]);
        } else {
            assert forall|i: int| 0 <= i < w.len() implies #[trigger] w[i].var_name() != other by {
                if i != n {
                    assert(w[i] == vars[i]);
                }
            }
        }
    }
}

/// Entering a domain and leaving it gives back the domains of before.
pub proof fn lemma_domain_round_trip(domains: Seq<Seq<char>>, domain: Seq<char>)
    ensures
        domains.push(domain).drop_last() == domains,
        domains.push(domain).len() > 0,
{
    assert(domains.push(domain).drop_last() =~= domains);
}

impl ModelVar {
    /// The variable of `ctx` that has this variable's name under the current domains.
    pub fn apply_to(self, ctx: &ModelContext) -> (r: MappingResult<ModelVar>)
        requires
            ctx.wf(),
        ensures
            match lookup(ctx.variables(), local_name(ctx.domains(), self.var_name())) {
                Some(v) => r == Ok::<ModelVar, MappingError>(v),
                None => r matches Err(e) && e.0@ == "Unable to map var to index !"@,
            },
    {
        let name = self.get_name();
        let res = ctx.get_var(&name);
        match res {
            None => {
                let text = "Unable to map var to index !";
                Err(MappingError(Label::from_str(text)))
            },
            Some(v) => Ok(v),
        }
    }
}

} // verus!
