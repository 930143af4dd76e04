use vstd::prelude::*;

verus! {

/// The model of an environment: name to (value, exported).
pub type EnvMap = Map<Seq<char>, (Seq<char>, bool)>;

/// Value of `k`, if bound.
pub open spec fn get_spec(m: EnvMap, k: Seq<char>) -> Option<Seq<char>> {
    if m.contains_key(k) {
        Some(m[k].0)
    } else {
        None
    }
}

/// Binding `k` to `v`; an existing binding keeps its export flag, a new one is not exported.
pub open spec fn set_spec(m: EnvMap, k: Seq<char>, v: Seq<char>) -> EnvMap {
    m.insert(k, (v, m.contains_key(k) && m[k].1))
}

pub open spec fn unset_spec(m: EnvMap, k: Seq<char>) -> EnvMap {
    m.remove(k)
}

/// Marks `k` exported, if bound.
pub open spec fn export_spec(m: EnvMap, k: Seq<char>) -> EnvMap {
    if m.contains_key(k) {
        m.insert(k, (m[k].0, true))
    } else {
        m
    }
}

/// Binding `k` to `v`, exported.
pub open spec fn import_spec(m: EnvMap, k: Seq<char>, v: Seq<char>) -> EnvMap {
    m.insert(k, (v, true))
}

/// `r` lists, once each, exactly the bindings of `m` (only the exported ones when `exported_only`).
pub open spec fn lists_bindings(r: Seq<(String, String)>, m: EnvMap, exported_only: bool) -> bool {
    &&& forall|i: int, j: int| 0 <= i < j < r.len() ==> r[i].0@ != r[j].0@
    &&& forall|i: int|
        0 <= i < r.len() ==> m.contains_key(#[trigger] r[i].0@) && m[r[i].0@].0 == r[i].1@ && (
        exported_only ==> m[r[i].0@].1)
    &&& forall|k: Seq<char>|
        m.contains_key(k) && (exported_only ==> m[k].1) ==> exists|i: int|
            0 <= i < r.len() && #[trigger] r[i].0@ == k
}

#[derive(Clone)]
struct Variable {
    name: String,
    value: String,
    exported: bool,
}

spec fn model_of(s: Seq<Variable>) -> EnvMap
    decreases s.len(),
{
    if s.len() == 0 {
        Map::empty()
    } else {
        model_of(s.drop_last()).insert(s.last().name@, (s.last().value@, s.last().exported))
    }
}

spec fn names_unique(s: Seq<Variable>) -> bool {
    forall|i: int, j: int| 0 <= i < j < s.len() ==> s[i].name@ != s[j].name@
}

proof fn lemma_model_of(s: Seq<Variable>)
    requires
        names_unique(s),
    ensures
        forall|i: int|
            0 <= i < s.len() ==> model_of(s).contains_key(#[trigger] s[i].name@) && model_of(s)[s[i].name@]
                == (s[i].value@, s[i].exported),
        forall|k: Seq<char>|
            model_of(s).contains_key(k) ==> exists|i: int| 0 <= i < s.len() && #[trigger] s[i].name@ == k,
    decreases s.len(),
{
    if s.len() > 0 {
        let t = s.drop_last();
        assert(names_unique(t));
        lemma_model_of(t);
        assert forall|i: int| 0 <= i < s.len() implies model_of(s).contains_key(#[trigger] s[i].name@)
            && model_of(s)[s[i].name@] == (s[i].value@, s[i].exported) by {
            if i < s.len() - 1 {
                assert(t[i] == s[i]);
            }
        }
        assert forall|k: Seq<char>| model_of(s).contains_key(k) implies exists|i: int|
            0 <= i < s.len() && #[trigger] s[i].name@ == k by {
            if k != s.last().name@ {
                assert(model_of(t).contains_key(k));
                let i = choose|i: int| 0 <= i < t.len() && #[trigger] t[i].name@ == k;
                assert(s[i] == t[i]);
            } else {
                assert(s[s.len() - 1].name@ == k);
            }
        }
    }
}

proof fn lemma_model_update(s: Seq<Variable>, i: int, v: Variable)
    requires
        names_unique(s),
        0 <= i < s.len(),
        v.name@ == s[i].name@,
    ensures
        model_of(s.update(i, v)) == model_of(s).insert(v.name@, (v.value@, v.exported)),
    decreases s.len(),
{
    let t = s.drop_last();
    let u = s.update(i, v);
    if i == s.len() - 1 {
        assert(u.drop_last() =~= t);
        assert(model_of(u) =~= model_of(s).insert(v.name@, (v.value@, v.exported)));
    } else {
        assert(u.drop_last() =~= t.update(i, v));
        assert(names_unique(t));
        lemma_model_update(t, i, v);
        assert(s[i].name@ != s.last().name@);
        assert(model_of(u) =~= model_of(s).insert(v.name@, (v.value@, v.exported)));
    }
}

proof fn lemma_model_remove(s: Seq<Variable>, i: int)
    requires
        names_unique(s),
        0 <= i < s.len(),
    ensures
        model_of(s.remove(i)) == model_of(s).remove(s[i].name@),
        names_unique(s.remove(i)),
    decreases s.len(),
{
    let t = s.drop_last();
    let u = s.remove(i);
    if i == s.len() - 1 {
        assert(u =~= t);
        lemma_model_absent(t, s[i].name@);
        assert(model_of(u) =~= model_of(s).remove(s[i].name@));
    } else {
        assert(u.drop_last() =~= t.remove(i));
        assert(names_unique(t));
        lemma_model_remove(t, i);
        assert(u.last() == s.last());
        assert(s[i].name@ != s.last().name@);
        assert(model_of(u) =~= model_of(s).remove(s[i].name@));
    }
    assert forall|a: int, b: int| 0 <= a < b < u.len() implies u[a].name@ != u[b].name@ by {
        let a2 = if a < i { a } else { a + 1 };
        let b2 = if b < i { b } else { b + 1 };
        assert(u[a] == s[a2]);
        assert(u[b] == s[b2]);
    }
}

proof fn lemma_model_absent(s: Seq<Variable>, k: Seq<char>)
    requires
        forall|i: int| 0 <= i < s.len() ==> s[i].name@ != k,
    ensures
        !model_of(s).contains_key(k),
    decreases s.len(),
{
    if s.len() > 0 {
        lemma_model_absent(s.drop_last(), k);
    }
}

/// Shell variables: each name bound at most once, to a value and an export flag.
#[derive(Clone)]
pub struct Environment {
    vars: Vec<Variable>,
}

impl Environment {
    pub closed spec fn wf(&self) -> bool {
        names_unique(self.vars@)
    }

    /// The bindings, as a map.
    pub closed spec fn view(&self) -> EnvMap {
        model_of(self.vars@)
    }

    /// An environment with no variables.
    pub fn empty() -> (r: Environment)
        ensures
            r.wf(),
            r.view() == Map::<Seq<char>, (Seq<char>, bool)>::empty(),
    {
        Environment { vars: Vec::new() }
    }

    /// An environment holding `vars`, all exported; a later pair overrides an earlier one.
    pub fn from_vars(vars: Vec<(String, String)>) -> (r: Environment)
        ensures
            r.wf(),
            forall|k: Seq<char>|
                r.view().contains_key(k) <==> exists|i: int| 0 <= i < vars.len() && #[trigger] vars[i].0@ == k,
            forall|i: int|
                0 <= i < vars.len() ==> (forall|j: int| i < j < vars.len() ==> vars[j].0@ != vars[i].0@)
                    ==> #[trigger] r.view()[vars[i].0@] == (vars[i].1@, true),
    {
        let mut env = Environment::empty();
        let mut i: usize = 0;
        while i < vars.len()
            invariant
                i <= vars.len(),
                env.wf(),
                forall|k: Seq<char>|
                    env.view().contains_key(k) <==> exists|x: int| 0 <= x < i && #[trigger] vars[x].0@ == k,
                forall|x: int|
                    0 <= x < i ==> (forall|j: int| x < j < i ==> vars[j].0@ != vars[x].0@) ==> #[trigger] env.view()[vars[x].0@]
                        == (vars[x].1@, true),
            decreases vars.len() - i,
        {
            env.import(vars[i].0.as_str(), vars[i].1.as_str());
            proof {
                assert forall|k: Seq<char>| env.view().contains_key(k) <==> exists|x: int|
                    0 <= x < i + 1 && #[trigger] vars[x].0@ == k by {
                    if k == vars[i as int].0@ {
                        assert(vars[i as int].0@ == k);
                    }
                }
            }
            i = i + 1;
        }
        env
    }

    fn find(&self, key: &str) -> (r: Option<usize>)
        requires
            self.wf(),
        ensures
            match r {
                Some(i) => i < self.vars.len() && self.vars@[i as int].name@ == key@,
                None => forall|i: int| 0 <= i < self.vars.len() ==> self.vars@[i].name@ != key@,
            },
    {
        let mut i: usize = 0;
        while i < self.vars.len()
            invariant
                i <= self.vars.len(),
                forall|j: int| 0 <= j < i ==> self.vars@[j].name@ != key@,
            decreases self.vars.len() - i,
        {
            if crate::text::str_eq(self.vars[i].name.as_str(), key) {
                return Some(i);
            }
            i = i + 1;
        }
        None
    }

    /// The value of `key`, if it is bound.
    pub fn get(&self, key: &str) -> (r: Option<&str>)
        requires
            self.wf(),
        ensures
            match r {
                Some(v) => get_spec(self.view(), key@) == Some(v@),
                None => get_spec(self.view(), key@) == None::<Seq<char>>,
            },
    {
        proof {
            lemma_model_of(self.vars@);
        }
        match self.find(key) {
            Some(i) => Some(self.vars[i].value.as_str()),
            None => {
                proof {
                    lemma_model_absent(self.vars@, key@);
                }
                None
            },
        }
    }

    /// Binds `key` to `value`; an existing variable keeps its export flag.
    pub fn set(&mut self, key: &str, value: &str)
        requires
            old(self).wf(),
        ensures
            final(self).wf(),
            final(self).view() == set_spec(old(self).view(), key@, value@),
    {
        self.put(key, value, false);
    }

    /// Binds `key` to `value` and marks it exported.
    pub fn import(&mut self, key: &str, value: &str)
        requires
            old(self).wf(),
        ensures
            final(self).wf(),
            final(self).view() == import_spec(old(self).view(), key@, value@),
    {
        self.put(key, value, true);
    }

    fn put(&mut self, key: &str, value: &str, export: bool)
        requires
            old(self).wf(),
        ensures
            final(self).wf(),
            final(self).view() == old(self).view().insert(
                key@,
                (value@, export || (old(self).view().contains_key(key@) && old(self).view()[key@].1)),
            ),
    {
        proof {
            lemma_model_of(self.vars@);
        }
        let ghost old_vars = self.vars@;
        match self.find(key) {
            Some(i) => {
                let flag = self.vars[i].exported || export;
                let var = Variable { name: key.to_owned(), value: value.to_owned(), exported: flag };
                let ghost v = var;
                self.vars.set(i, var);
                proof {
                    assert(self.vars@ == old_vars.update(i as int, v));
                    assert forall|a: int, b: int| 0 <= a < b < self.vars@.len() implies self.vars@[a].name@
                        != self.vars@[b].name@ by {
                        assert(old_vars[a].name@ != old_vars[b].name@);
                    }
                    lemma_model_update(old_vars, i as int, v);
                }
            },
            None => {
                proof {
                    lemma_model_absent(old_vars, key@);
                }
                let var = Variable { name: key.to_owned(), value: value.to_owned(), exported: export };
                self.vars.push(var);
                proof {
                    assert(self.vars@.drop_last() =~= old_vars);
                    assert(names_unique(self.vars@));
                }
            },
        }
    }

    /// Removes `key`, if bound.
    pub fn unset(&mut self, key: &str)
        requires
            old(self).wf(),
        ensures
            final(self).wf(),
            final(self).view() == unset_spec(old(self).view(), key@),
    {
        proof {
            lemma_model_of(self.vars@);
        }
        let ghost old_vars = self.vars@;
        match self.find(key) {
            Some(i) => {
                self.vars.remove(i);
                proof {
                    lemma_model_remove(old_vars, i as int);
                }
            },
            None => {
                proof {
                    lemma_model_absent(old_vars, key@);
                    assert(self.view() =~= unset_spec(model_of(old_vars), key@));
                }
            },
        }
    }

    /// Marks `key` exported, if bound.
    pub fn export(&mut self, key: &str)
        requires
            old(self).wf(),
        ensures
            final(self).wf(),
            final(self).view() == export_spec(old(self).view(), key@),
    {
        proof {
            lemma_model_of(self.vars@);
        }
        match self.find(key) {
            Some(i) => {
                let value = self.vars[i].value.clone();
                self.put(key, value.as_str(), true);
            },
            None => {
                proof {
                    lemma_model_absent(self.vars@, key@);
                }
            },
        }
    }

    /// Every binding as a (name, value) pair.
    pub fn all(&self) -> (r: Vec<(String, String)>)
        requires
            self.wf(),
        ensures
            lists_bindings(r@, self.view(), false),
    {
        self.collect(false)
    }

    /// The exported bindings as (name, value) pairs.
    pub fn exported_vars(&self) -> (r: Vec<(String, String)>)
        requires
            self.wf(),
        ensures
            lists_bindings(r@, self.view(), true),
    {
        self.collect(true)
    }

    fn collect(&self, exported_only: bool) -> (r: Vec<(String, String)>)
        requires
            self.wf(),
        ensures
            lists_bindings(r@, self.view(), exported_only),
    {
        let ghost vs = self.vars@;
        let mut out: Vec<(String, String)> = Vec::new();
        let mut i: usize = 0;
        assert(pairs_view(out@) =~= pairs(vs.subrange(0, 0), exported_only));
        while i < self.vars.len()
            invariant
                i <= self.vars.len(),
                vs == self.vars@,
                pairs_view(out@) == pairs(vs.subrange(0, i as int), exported_only),
            decreases self.vars.len() - i,
        {
            let ghost before = pairs_view(out@);
            if !exported_only || self.vars[i].exported {
                let pair = (self.vars[i].name.clone(), self.vars[i].value.clone());
                out.push(pair);
                assert(pairs_view(out@) =~= before.push((vs[i as int].name@, vs[i as int].value@)));
            }
            assert(vs.subrange(0, i + 1).drop_last() =~= vs.subrange(0, i as int));
            i = i + 1;
        }
        proof {
            assert(vs.subrange(0, i as int) =~= vs);
            lemma_pairs(vs, exported_only);
            let p = pairs(vs, exported_only);
            assert forall|x: int| 0 <= x < out.len() implies #[trigger] out@[x].0@ == p[x].0 && out@[x].1@ == p[x].1 by {
            }
            assert forall|k: Seq<char>| self.view().contains_key(k) && (exported_only ==> self.view()[k].1) implies exists|x: int|
                0 <= x < out.len() && #[trigger] out@[x].0@ == k by {
                let x = choose|x: int| 0 <= x < p.len() && #[trigger] p[x].0 == k;
                assert(out@[x].0@ == p[x].0);
            }
        }
        out
    }
}

pub open spec fn pairs_view(v: Seq<(String, String)>) -> Seq<(Seq<char>, Seq<char>)> {
    v.map_values(|p: (String, String)| (p.0@, p.1@))
}

/// The (name, value) pairs of `s`, in order, keeping only exported ones when `e`.
spec fn pairs(s: Seq<Variable>, e: bool) -> Seq<(Seq<char>, Seq<char>)>
    decreases s.len(),
{
    if s.len() == 0 {
        Seq::empty()
    } else {
        let p = pairs(s.drop_last(), e);
        if !e || s.last().exported {
            p.push((s.last().name@, s.last().value@))
        } else {
            p
        }
    }
}

proof fn lemma_pairs(s: Seq<Variable>, e: bool)
    requires
        names_unique(s),
    ensures
        forall|x: int|
            0 <= x < pairs(s, e).len() ==> model_of(s).contains_key(#[trigger] pairs(s, e)[x].0) && model_of(s)[pairs(
                s,
                e,
            )[x].0].0 == pairs(s, e)[x].1 && (e ==> model_of(s)[pairs(s, e)[x].0].1),
        forall|k: Seq<char>|
            model_of(s).contains_key(k) && (e ==> model_of(s)[k].1) ==> exists|x: int|
                0 <= x < pairs(s, e).len() && #[trigger] pairs(s, e)[x].0 == k,
        forall|x: int, y: int| 0 <= x < y < pairs(s, e).len() ==> pairs(s, e)[x].0 != pairs(s, e)[y].0,
    decreases s.len(),
{
    if s.len() > 0 {
        let t = s.drop_last();
        let l = s.last();
        assert(names_unique(t));
        lemma_pairs(t, e);
        assert forall|i: int| 0 <= i < t.len() implies t[i].name@ != l.name@ by {
            assert(t[i] == s[i]);
        }
        lemma_model_absent(t, l.name@);
        let pt = pairs(t, e);
        let p = pairs(s, e);
        let mt = model_of(t);
        let m = model_of(s);
        assert forall|x: int| 0 <= x < p.len() implies m.contains_key(#[trigger] p[x].0) && m[p[x].0].0 == p[x].1 && (e
            ==> m[p[x].0].1) by {
            if x < pt.len() {
                assert(p[x] == pt[x]);
                assert(mt.contains_key(pt[x].0));
            }
        }
        assert forall|k: Seq<char>| m.contains_key(k) && (e ==> m[k].1) implies exists|x: int|
            0 <= x < p.len() && #[trigger] p[x].0 == k by {
            if k == l.name@ {
                assert(p[p.len() - 1].0 == k);
            } else {
                assert(mt.contains_key(k));
                let x = choose|x: int| 0 <= x < pt.len() && #[trigger] pt[x].0 == k;
                assert(p[x] == pt[x]);
            }
        }
        assert forall|x: int, y: int| 0 <= x < y < p.len() implies p[x].0 != p[y].0 by {
            assert(p[x] == pt[x]);
            assert(mt.contains_key(pt[x].0));
            if y < pt.len() {
                assert(p[y] == pt[y]);
            }
        }
    }
}

/// Setting a variable and reading it back yields the value set.
pub proof fn lemma_set_then_get(m: EnvMap, k: Seq<char>, v: Seq<char>)
    ensures
        get_spec(set_spec(m, k, v), k) == Some(v),
{
}

/// Unsetting a variable and reading it back yields nothing.
pub proof fn lemma_unset_then_get(m: EnvMap, k: Seq<char>)
    ensures
        get_spec(unset_spec(m, k), k) == None::<Seq<char>>,
{
}

} // verus!
