//! The interpreter's environment: a stack of variable scopes, innermost
//! last, and the table of the functions a program declares. Values are of
//! any type `V`; evaluating statements is left to the caller.
use vstd::prelude::*;
use crate::ast::Stmt;
use crate::text::{chars_equal, chars_of, copy_string};

verus! {

/// A run-time error and its message.
#[derive(Debug)]
pub struct RuntimeError(pub String);

/// An association list read as a map; a later entry for a key replaces an
/// earlier one.
pub open spec fn entries_map<W>(es: Seq<(String, W)>) -> Map<Seq<char>, W>
    decreases es.len(),
{
    if es.len() == 0 {
        Map::empty()
    } else {
        entries_map(es.drop_last()).insert(es.last().0@, es.last().1)
    }
}

/// No key occurs twice.
pub open spec fn distinct_keys<W>(es: Seq<(String, W)>) -> bool {
    forall|i: int, j: int| 0 <= i < j < es.len() ==> es[i].0@ != es[j].0@
}

/// The value a name has: the one in the innermost scope that holds the name.
pub open spec fn lookup_spec<V>(ss: Seq<Map<Seq<char>, V>>, n: Seq<char>) -> Option<V>
    decreases ss.len(),
{
    if ss.len() == 0 {
        None
    } else if ss.last().contains_key(n) {
        Some(ss.last()[n])
    } else {
        lookup_spec(ss.drop_last(), n)
    }
}

/// The scopes after `n` is defined as `v` in the innermost one.
pub open spec fn define_spec<V>(ss: Seq<Map<Seq<char>, V>>, n: Seq<char>, v: V) -> Seq<
    Map<Seq<char>, V>,
> {
    ss.update(ss.len() - 1, ss.last().insert(n, v))
}

/// The scopes after `v` is assigned to `n` in the innermost scope that holds
/// it; unchanged when none does.
pub open spec fn assign_spec<V>(ss: Seq<Map<Seq<char>, V>>, n: Seq<char>, v: V) -> Seq<
    Map<Seq<char>, V>,
>
    decreases ss.len(),
{
    if ss.len() == 0 {
        ss
    } else if ss.last().contains_key(n) {
        ss.update(ss.len() - 1, ss.last().insert(n, v))
    } else {
        assign_spec(ss.drop_last(), n, v).push(ss.last())
    }
}

/// The parameter names of a declared function.
pub open spec fn parameter_names<T>(ps: Seq<(String, T)>) -> Seq<Seq<char>> {
    ps.map_values(|p: (String, T)| p.0@)
}

/// The function table after the declarations in `s` are collected: every
/// `function` statement at the top of `s` or in nested blocks, in order, a
/// later one replacing an earlier one of the same name.
pub open spec fn collect_spec(
    fs: Map<Seq<char>, (Seq<Seq<char>>, Vec<Stmt>)>,
    s: Stmt,
) -> Map<Seq<char>, (Seq<Seq<char>>, Vec<Stmt>)>
    decreases s, 1nat,
{
    match s {
        Stmt::Block(xs) => collect_list(fs, xs@),
        Stmt::Function { name, parameters, body, .. } => fs.insert(
            name@,
            (parameter_names(parameters@), body),
        ),
        _ => fs,
    }
}

pub open spec fn collect_list(
    fs: Map<Seq<char>, (Seq<Seq<char>>, Vec<Stmt>)>,
    xs: Seq<Stmt>,
) -> Map<Seq<char>, (Seq<Seq<char>>, Vec<Stmt>)>
    decreases xs, 0nat,
{
    if xs.len() == 0 {
        fs
    } else {
        collect_spec(collect_list(fs, xs.drop_last()), xs.last())
    }
}

/// Variable scopes and declared functions, the bodies borrowed from the
/// program.
pub struct Interpreter<'a, V> {
    scopes: Vec<Vec<(String, V)>>,
    functions: Vec<(String, (Vec<String>, &'a Vec<Stmt>))>,
}

impl<'a, V> Interpreter<'a, V> {
    /// The scopes, outermost first, each as a map from names to values.
    pub closed spec fn scopes(&self) -> Seq<Map<Seq<char>, V>> {
        self.scopes@.map_values(|s: Vec<(String, V)>| entries_map(s@))
    }

    /// The declared functions: parameter names and body.
    pub closed spec fn functions(&self) -> Map<Seq<char>, (Seq<Seq<char>>, Vec<Stmt>)> {
        entries_map(self.functions@).map_values(
            |e: (Vec<String>, &Vec<Stmt>)| (e.0@.map_values(|s: String| s@), *e.1),
        )
    }

    pub closed spec fn wf(&self) -> bool {
        &&& forall|k: int| 0 <= k < self.scopes@.len() ==> distinct_keys(#[trigger] self.scopes@[k]@)
        &&& distinct_keys(self.functions@)
    }
}

proof fn lemma_distinct_prefix<W>(es: Seq<(String, W)>)
    requires
        es.len() > 0,
        distinct_keys(es),
    ensures
        distinct_keys(es.drop_last()),
{
    assert forall|i: int, j: int| 0 <= i < j < es.drop_last().len() implies es.drop_last()[i].0@
        != es.drop_last()[j].0@ by {
        assert(es.drop_last()[i] == es[i]);
        assert(es.drop_last()[j] == es[j]);
    }
}

/// An entry of a list without repeated keys is what the map gives for its key.
proof fn lemma_entries_find<W>(es: Seq<(String, W)>, k: Seq<char>)
    requires
        distinct_keys(es),
    ensures
        entries_map(es).contains_key(k) <==> exists|j: int| 0 <= j < es.len() && es[j].0@ == k,
        forall|j: int| 0 <= j < es.len() && es[j].0@ == k ==> entries_map(es)[k] == es[j].1,
    decreases es.len(),
{
    if es.len() > 0 {
        let init = es.drop_last();
        let n = es.len() - 1;
        lemma_distinct_prefix(es);
        lemma_entries_find(init, k);
        if es.last().0@ == k {
            assert(es[n].0@ == k);
            assert forall|j: int| 0 <= j < es.len() && es[j].0@ == k implies entries_map(es)[k] == es[j].1 by {
                if j < n {
                    assert(es[j].0@ != es[n].0@);
                }
            }
        } else {
            assert forall|j: int| 0 <= j < es.len() && es[j].0@ == k implies entries_map(es)[k] == es[j].1 by {
                assert(j < n);
                assert(init[j] == es[j]);
            }
            if entries_map(es).contains_key(k) {
                let j = choose|j: int| 0 <= j < init.len() && init[j].0@ == k;
                assert(es[j] == init[j]);
            }
            if exists|j: int| 0 <= j < es.len() && es[j].0@ == k {
                let j = choose|j: int| 0 <= j < es.len() && es[j].0@ == k;
                assert(j < n);
                assert(init[j] == es[j]);
            }
        }
    }
}

/// Replacing the value of an existing key.
proof fn lemma_entries_set<W>(es: Seq<(String, W)>, j: int, e: (String, W))
    requires
        distinct_keys(es),
        0 <= j < es.len(),
        es[j].0@ == e.0@,
    ensures
        distinct_keys(es.update(j, e)),
        entries_map(es.update(j, e)) == entries_map(es).insert(e.0@, e.1),
{
    let u = es.update(j, e);
    assert forall|a: int, b: int| 0 <= a < b < u.len() implies u[a].0@ != u[b].0@ by {
        assert(u[a].0@ == es[a].0@);
        assert(u[b].0@ == es[b].0@);
    }
    assert forall|k: Seq<char>| #[trigger] entries_map(u).contains_key(k) == entries_map(es).insert(e.0@, e.1).contains_key(k) by {
        lemma_entries_find(u, k);
        lemma_entries_find(es, k);
        if exists|i: int| 0 <= i < u.len() && u[i].0@ == k {
            let i = choose|i: int| 0 <= i < u.len() && u[i].0@ == k;
            assert(es[i].0@ == k);
        }
        if exists|i: int| 0 <= i < es.len() && es[i].0@ == k {
            let i = choose|i: int| 0 <= i < es.len() && es[i].0@ == k;
            assert(u[i].0@ == k);
        }
        if k == e.0@ {
            assert(u[j].0@ == k);
        }
    }
    assert forall|k: Seq<char>| #[trigger] entries_map(u).contains_key(k) implies entries_map(u)[k] == entries_map(es).insert(e.0@, e.1)[k] by {
        lemma_entries_find(u, k);
        lemma_entries_find(es, k);
        if k == e.0@ {
            assert(u[j].0@ == k);
        } else {
            let i = choose|i: int| 0 <= i < u.len() && u[i].0@ == k;
            assert(i != j);
            assert(u[i] == es[i]);
        }
    }
    assert(entries_map(u) =~= entries_map(es).insert(e.0@, e.1));
}

/// Adding an entry for a new key.
proof fn lemma_entries_push<W>(es: Seq<(String, W)>, e: (String, W))
    requires
        distinct_keys(es),
        forall|j: int| 0 <= j < es.len() ==> es[j].0@ != e.0@,
    ensures
        distinct_keys(es.push(e)),
        entries_map(es.push(e)) == entries_map(es).insert(e.0@, e.1),
{
    assert(es.push(e).drop_last() =~= es);
    assert forall|a: int, b: int| 0 <= a < b < es.push(e).len() implies es.push(e)[a].0@ != es.push(e)[b].0@ by {
        assert(es.push(e)[a] == es[a]);
        if b < es.len() {
            assert(es.push(e)[b] == es[b]);
        }
    }
}

/// The lookup and the assignment in scopes whose innermost holder of `n` is
/// scope `k`.
proof fn lemma_assign_at<V>(ss: Seq<Map<Seq<char>, V>>, n: Seq<char>, v: V, k: int)
    requires
        0 <= k < ss.len(),
        ss[k].contains_key(n),
        forall|i: int| k < i < ss.len() ==> !(#[trigger] ss[i]).contains_key(n),
    ensures
        lookup_spec(ss, n) == Some(ss[k][n]),
        assign_spec(ss, n, v) == ss.update(k, ss[k].insert(n, v)),
    decreases ss.len(),
{
    if k < ss.len() - 1 {
        let init = ss.drop_last();
        assert(!ss[ss.len() - 1].contains_key(n));
        assert forall|i: int| k < i < init.len() implies !(#[trigger] init[i]).contains_key(n) by {
            assert(init[i] == ss[i]);
        }
        assert(init[k] == ss[k]);
        lemma_assign_at(init, n, v, k);
        assert(init.update(k, ss[k].insert(n, v)).push(ss.last()) =~= ss.update(k, ss[k].insert(n, v)));
    }
}

/// With no scope holding `n`, there is nothing to find or assign.
proof fn lemma_assign_none<V>(ss: Seq<Map<Seq<char>, V>>, n: Seq<char>, v: V)
    requires
        forall|i: int| 0 <= i < ss.len() ==> !(#[trigger] ss[i]).contains_key(n),
    ensures
        lookup_spec(ss, n) is None,
        assign_spec(ss, n, v) == ss,
    decreases ss.len(),
{
    if ss.len() > 0 {
        let init = ss.drop_last();
        assert(!ss[ss.len() - 1].contains_key(n));
        assert forall|i: int| 0 <= i < init.len() implies !(#[trigger] init[i]).contains_key(n) by {
            assert(init[i] == ss[i]);
        }
        lemma_assign_none(init, n, v);
        assert(init.push(ss.last()) =~= ss);
    }
}

/// A name defined in the innermost scope reads back as the value given, and
/// every other name reads as before.
pub proof fn lemma_lookup_after_define<V>(ss: Seq<Map<Seq<char>, V>>, n: Seq<char>, v: V, m: Seq<char>)
    requires
        ss.len() > 0,
    ensures
        lookup_spec(define_spec(ss, n, v), n) == Some(v),
        m != n ==> lookup_spec(define_spec(ss, n, v), m) == lookup_spec(ss, m),
        define_spec(ss, n, v).len() == ss.len(),
{
    let d = define_spec(ss, n, v);
    assert(d.drop_last() =~= ss.drop_last());
    assert(d.last() == ss.last().insert(n, v));
}

/// After an assignment to a name some scope holds, the name reads back as
/// the value assigned, and every other name reads as before.
pub proof fn lemma_lookup_after_assign<V>(ss: Seq<Map<Seq<char>, V>>, n: Seq<char>, v: V, m: Seq<char>)
    requires
        lookup_spec(ss, n) is Some,
    ensures
        lookup_spec(assign_spec(ss, n, v), n) == Some(v),
        m != n ==> lookup_spec(assign_spec(ss, n, v), m) == lookup_spec(ss, m),
        assign_spec(ss, n, v).len() == ss.len(),
    decreases ss.len(),
{
    if ss.last().contains_key(n) {
        let a = assign_spec(ss, n, v);
        assert(a.drop_last() =~= ss.drop_last());
        assert(a.last() == ss.last().insert(n, v));
    } else {
        let init = ss.drop_last();
        lemma_lookup_after_assign(init, n, v, m);
        let a = assign_spec(ss, n, v);
        assert(a.drop_last() =~= assign_spec(init, n, v));
        assert(a.last() == ss.last());
    }
}

/// Opening a scope hides nothing, and closing it again restores the scopes,
/// whatever was defined in it meanwhile.
pub proof fn lemma_scope_round_trip<V>(ss: Seq<Map<Seq<char>, V>>, n: Seq<char>, v: V, m: Seq<char>)
    ensures
        lookup_spec(ss.push(Map::empty()), m) == lookup_spec(ss, m),
        ss.push(Map::empty()).drop_last() == ss,
        define_spec(ss.push(Map::empty()), n, v).drop_last() == ss,
{
    assert(ss.push(Map::empty()).drop_last() =~= ss);
    assert(define_spec(ss.push(Map::empty()), n, v).drop_last() =~= ss);
}

fn find_key<W>(es: &Vec<(String, W)>, key: &Vec<char>) -> (r: Option<usize>)
    ensures
        match r {
            Some(j) => j < es@.len() && es@[j as int].0@ == key@,
            None => forall|j: int| 0 <= j < es@.len() ==> es@[j].0@ != key@,
        },
{
    let mut j: usize = 0;
    while j < es.len()
        invariant
            j <= es@.len(),
            forall|i: int| 0 <= i < j ==> es@[i].0@ != key@,
        decreases es@.len() - j,
    {
        let cs = chars_of(es[j].0.as_str());
        if chars_equal(cs.as_slice(), key.as_slice()) {
            return Some(j);
        }
        j += 1;
    }
    None
}

impl<'a, V> Interpreter<'a, V> {
    /// One empty scope and no functions.
    pub fn new() -> (r: Self)
        ensures
            r.wf(),
            r.scopes() == seq![Map::<Seq<char>, V>::empty()],
            r.functions() == Map::<Seq<char>, (Seq<Seq<char>>, Vec<Stmt>)>::empty(),
    {
        let r = Interpreter { scopes: vec![Vec::new()], functions: Vec::new() };
        proof {
            assert(r.scopes() =~= seq![Map::<Seq<char>, V>::empty()]);
            assert(r.functions() =~= Map::<Seq<char>, (Seq<Seq<char>>, Vec<Stmt>)>::empty());
        }
        r
    }

    /// Opens a new innermost scope.
    pub fn push(&mut self)
        requires
            old(self).wf(),
        ensures
            final(self).wf(),
            final(self).scopes() == old(self).scopes().push(Map::empty()),
            final(self).functions() == old(self).functions(),
    {
        self.scopes.push(Vec::new());
        proof {
            assert(self.scopes() =~= old(self).scopes().push(Map::empty()));
        }
    }

    /// Closes the innermost scope, if there is one.
    pub fn pop(&mut self)
        requires
            old(self).wf(),
        ensures
            final(self).wf(),
            final(self).scopes() == if old(self).scopes().len() > 0 {
                old(self).scopes().drop_last()
            } else {
                old(self).scopes()
            },
            final(self).functions() == old(self).functions(),
    {
        let _ = self.scopes.pop();
        proof {
            if old(self).scopes@.len() > 0 {
                assert(self.scopes() =~= old(self).scopes().drop_last());
            } else {
                assert(self.scopes() =~= old(self).scopes());
            }
        }
    }

    /// The value of `n` in the innermost scope that holds it.
    pub fn lookup(&self, n: &str) -> (r: Option<&V>)
        requires
            self.wf(),
        ensures
            match r {
                Some(v) => lookup_spec(self.scopes(), n@) == Some(*v),
                None => lookup_spec(self.scopes(), n@) is None,
            },
    {
        let key = chars_of(n);
        let ghost ss = self.scopes();
        let mut k = self.scopes.len();
        proof {
            assert(ss.take(k as int) =~= ss);
        }
        while k > 0
            invariant
                k <= self.scopes@.len(),
                ss == self.scopes(),
                ss.len() == self.scopes@.len(),
                key@ == n@,
                self.wf(),
                lookup_spec(ss, n@) == lookup_spec(ss.take(k as int), n@),
            decreases k,
        {
            k -= 1;
            let ghost scope = self.scopes@[k as int];
            proof {
                assert(ss[k as int] == entries_map(scope@));
                assert(ss.take(k + 1).last() == ss[k as int]);
                assert(ss.take(k + 1).drop_last() =~= ss.take(k as int));
                lemma_entries_find(scope@, n@);
            }
            match find_key(&self.scopes[k], &key) {
                Some(j) => {
                    return Some(&self.scopes[k][j].1);
                },
                None => {},
            }
        }
        None
    }

    /// Defines `n` as `v` in the innermost scope, replacing a value it has
    /// there.
    pub fn define(&mut self, n: String, v: V)
        requires
            old(self).wf(),
            old(self).scopes().len() > 0,
        ensures
            final(self).wf(),
            final(self).scopes() == define_spec(old(self).scopes(), n@, v),
            final(self).functions() == old(self).functions(),
    {
        let key = chars_of(n.as_str());
        let ghost nv = n@;
        let mut inner = self.scopes.pop().unwrap();
        let ghost before = inner@;
        proof {
            assert(distinct_keys(old(self).scopes@[old(self).scopes@.len() - 1]@));
        }
        match find_key(&inner, &key) {
            Some(j) => {
                proof {
                    lemma_entries_set(before, j as int, (n, v));
                }
                inner.set(j, (n, v));
            },
            None => {
                proof {
                    lemma_entries_push(before, (n, v));
                }
                inner.push((n, v));
            },
        }
        self.scopes.push(inner);
        proof {
            assert(self.scopes@ =~= old(self).scopes@.drop_last().push(inner));
            assert(self.scopes() =~= define_spec(old(self).scopes(), nv, v));
            assert forall|k: int| 0 <= k < self.scopes@.len() implies distinct_keys(#[trigger] self.scopes@[k]@) by {
                if k < self.scopes@.len() - 1 {
                    assert(self.scopes@[k] == old(self).scopes@[k]);
                }
            }
        }
    }

    /// Assigns `v` to `n` in the innermost scope that holds it. Returns
    /// whether one does; when none does nothing changes.
    pub fn assign(&mut self, n: &str, v: V) -> (r: bool)
        requires
            old(self).wf(),
        ensures
            final(self).wf(),
            r == lookup_spec(old(self).scopes(), n@) is Some,
            final(self).scopes() == assign_spec(old(self).scopes(), n@, v),
            final(self).functions() == old(self).functions(),
    {
        let key = chars_of(n);
        let ghost ss = self.scopes();
        let mut k = self.scopes.len();
        while k > 0
            invariant
                k <= self.scopes@.len(),
                ss == self.scopes(),
                ss == old(self).scopes(),
                *self == *old(self),
                ss.len() == self.scopes@.len(),
                key@ == n@,
                self.wf(),
                forall|i: int| k <= i < ss.len() ==> !(#[trigger] ss[i]).contains_key(n@),
            decreases k,
        {
            k -= 1;
            let ghost scope = self.scopes@[k as int];
            proof {
                assert(ss[k as int] == entries_map(scope@));
                lemma_entries_find(scope@, n@);
            }
            match find_key(&self.scopes[k], &key) {
                Some(j) => {
                    let mut inner = self.scopes.remove(k);
                    let name = copy_string(&inner[j].0);
                    proof {
                        lemma_entries_set(scope@, j as int, (name, v));
                        lemma_assign_at(ss, n@, v, k as int);
                    }
                    inner.set(j, (name, v));
                    self.scopes.insert(k, inner);
                    proof {
                        assert(self.scopes@ =~= old(self).scopes@.update(k as int, inner));
                        assert(self.scopes() =~= ss.update(k as int, ss[k as int].insert(n@, v)));
                        assert forall|q: int| 0 <= q < self.scopes@.len() implies distinct_keys(#[trigger] self.scopes@[q]@) by {
                            if q != k {
                                assert(self.scopes@[q] == old(self).scopes@[q]);
                            }
                        }
                    }
                    return true;
                },
                None => {},
            }
        }
        proof {
            lemma_assign_none(ss, n@, v);
        }
        false
    }
}

impl<'a, V> Interpreter<'a, V> {
    /// Records function `name`, replacing an earlier one of that name.
    fn declare(&mut self, name: String, parameters: Vec<String>, body: &'a Vec<Stmt>)
        requires
            old(self).wf(),
        ensures
            final(self).wf(),
            final(self).scopes() == old(self).scopes(),
            final(self).functions() == old(self).functions().insert(
                name@,
                (parameters@.map_values(|s: String| s@), *body),
            ),
    {
        let key = chars_of(name.as_str());
        let ghost before = self.functions@;
        let ghost e = (name, (parameters, body));
        match find_key(&self.functions, &key) {
            Some(j) => {
                proof {
                    lemma_entries_set(before, j as int, e);
                }
                self.functions.set(j, (name, (parameters, body)));
            },
            None => {
                proof {
                    lemma_entries_push(before, e);
                }
                self.functions.push((name, (parameters, body)));
            },
        }
        proof {
            assert(self.functions() =~= old(self).functions().insert(
                e.0@,
                (e.1.0@.map_values(|s: String| s@), *e.1.1),
            ));
        }
    }

    /// Records the functions that `s` declares: a `function` statement, or
    /// those in a block and the blocks within it, in order.
    #[verifier::loop_isolation(false)]
    pub fn collect(&mut self, s: &'a Stmt)
        requires
            old(self).wf(),
        ensures
            final(self).wf(),
            final(self).scopes() == old(self).scopes(),
            final(self).functions() == collect_spec(old(self).functions(), *s),
        decreases s,
    {
        match s {
            Stmt::Block(xs) => {
                let mut i: usize = 0;
                while i < xs.len()
                    invariant
                        i <= xs@.len(),
                        self.wf(),
                        self.scopes() == old(self).scopes(),
                        self.functions() == collect_list(old(self).functions(), xs@.take(i as int)),
                    decreases xs@.len() - i,
                {
                    proof {
                        assert(decreases_to!(xs => xs@));
                        assert(decreases_to!(xs@ => xs@[i as int]));
                        assert(xs@.take(i + 1).drop_last() =~= xs@.take(i as int));
                        assert(xs@.take(i + 1).last() == xs@[i as int]);
                    }
                    self.collect(&xs[i]);
                    i += 1;
                }
                proof {
                    assert(xs@.take(xs@.len() as int) =~= xs@);
                }
            },
            Stmt::Function { name, parameters, body, .. } => {
                let mut names: Vec<String> = Vec::new();
                let mut i: usize = 0;
                while i < parameters.len()
                    invariant
                        i <= parameters@.len(),
                        names@.map_values(|s: String| s@) =~= parameter_names(parameters@.take(i as int)),
                    decreases parameters@.len() - i,
                {
                    let ghost prev = names@;
                    names.push(copy_string(&parameters[i].0));
                    proof {
                        assert(parameters@.take(i + 1) =~= parameters@.take(i as int).push(parameters@[i as int]));
                        assert(names@.map_values(|s: String| s@) =~= prev.map_values(|s: String| s@).push(parameters@[i as int].0@));
                    }
                    i += 1;
                }
                proof {
                    assert(parameters@.take(parameters@.len() as int) =~= parameters@);
                }
                self.declare(copy_string(name), names, body);
            },
            _ => {},
        }
    }

    /// The parameters and body of function `n`, if the program declares it.
    pub fn function(&self, n: &str) -> (r: Option<(&Vec<String>, &'a Vec<Stmt>)>)
        requires
            self.wf(),
        ensures
            match r {
                Some(f) => self.functions().contains_key(n@) && self.functions()[n@] == (
                    f.0@.map_values(|s: String| s@),
                    *f.1,
                ),
                None => !self.functions().contains_key(n@),
            },
    {
        let key = chars_of(n);
        proof {
            lemma_entries_find(self.functions@, n@);
        }
        match find_key(&self.functions, &key) {
            Some(j) => Some((&self.functions[j].1.0, self.functions[j].1.1)),
            None => None,
        }
    }
}

impl<'a, V> Interpreter<'a, V> {
    /// How many scopes are open.
    pub fn scope_count(&self) -> (r: usize)
        ensures
            r == self.scopes().len(),
    {
        self.scopes.len()
    }
}

} // verus!
