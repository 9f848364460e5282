//! Names in scope while lowering a function: values by `{}` scope, and the
//! lifetimes that are open.
use vstd::prelude::*;

use crate::value::{LoweredValue, SLV, StoredValue, lv_view};

verus! {

/// Model of an [`Env`]: the scopes, innermost last, each a list of
/// definitions in the order made; and the open lifetimes with their tokens.
pub struct SEnv {
    pub scopes: Seq<Seq<(Seq<char>, SLV)>>,
    pub lifetimes: Seq<(Seq<char>, usize)>,
}

/// A fresh environment: one empty scope, no open lifetime.
pub open spec fn env_new() -> SEnv {
    SEnv { scopes: seq![Seq::empty()], lifetimes: Seq::empty() }
}

pub open spec fn env_push_scope(e: SEnv) -> SEnv {
    SEnv { scopes: e.scopes.push(Seq::empty()), ..e }
}

pub open spec fn env_pop_scope(e: SEnv) -> SEnv {
    if e.scopes.len() > 0 {
        SEnv { scopes: e.scopes.drop_last(), ..e }
    } else {
        e
    }
}

/// `name` defined as `v` in the innermost scope.
pub open spec fn env_define(e: SEnv, name: Seq<char>, v: SLV) -> SEnv {
    if e.scopes.len() > 0 {
        SEnv { scopes: e.scopes.update(e.scopes.len() - 1, e.scopes.last().push((name, v))), ..e }
    } else {
        e
    }
}

/// The latest definition of `name` in one scope.
pub open spec fn scope_lookup(sc: Seq<(Seq<char>, SLV)>, name: Seq<char>) -> Option<SLV>
    decreases sc.len(),
{
    if sc.len() == 0 {
        None
    } else if sc.last().0 == name {
        Some(sc.last().1)
    } else {
        scope_lookup(sc.drop_last(), name)
    }
}

/// The definition of `name` that is visible: the latest one in the innermost
/// scope that defines it.
pub open spec fn scopes_lookup(scopes: Seq<Seq<(Seq<char>, SLV)>>, name: Seq<char>) -> Option<SLV>
    decreases scopes.len(),
{
    if scopes.len() == 0 {
        None
    } else {
        match scope_lookup(scopes.last(), name) {
            Some(v) => Some(v),
            None => scopes_lookup(scopes.drop_last(), name),
        }
    }
}

pub open spec fn env_lookup(e: SEnv, name: Seq<char>) -> Option<SLV> {
    scopes_lookup(e.scopes, name)
}

/// The position of the open lifetime `name`, or -1.
pub open spec fn lifetime_index(lts: Seq<(Seq<char>, usize)>, name: Seq<char>) -> int
    decreases lts.len(),
{
    if lts.len() == 0 {
        -1
    } else if lts.last().0 == name {
        lts.len() - 1
    } else {
        lifetime_index(lts.drop_last(), name)
    }
}

/// The token of the open lifetime `name`.
pub open spec fn env_lifetime(e: SEnv, name: Seq<char>) -> Option<usize> {
    let i = lifetime_index(e.lifetimes, name);
    if i >= 0 {
        Some(e.lifetimes[i].1)
    } else {
        None
    }
}

/// Opening `name` with `token`: refused (`false`, nothing changed) when it is
/// already open.
pub open spec fn env_open_lifetime(e: SEnv, name: Seq<char>, token: usize) -> (bool, SEnv) {
    if lifetime_index(e.lifetimes, name) >= 0 {
        (false, e)
    } else {
        (true, SEnv { lifetimes: e.lifetimes.push((name, token)), ..e })
    }
}

/// Closing `name`: its token, and the environment without it.
pub open spec fn env_close_lifetime(e: SEnv, name: Seq<char>) -> (Option<usize>, SEnv) {
    let i = lifetime_index(e.lifetimes, name);
    if i >= 0 {
        (Some(e.lifetimes[i].1), SEnv { lifetimes: e.lifetimes.remove(i), ..e })
    } else {
        (None, e)
    }
}

pub proof fn lemma_lifetime_index_bounds(lts: Seq<(Seq<char>, usize)>, name: Seq<char>)
    ensures
        -1 <= lifetime_index(lts, name) < lts.len(),
        lifetime_index(lts, name) >= 0 ==> lts[lifetime_index(lts, name)].0 == name,
    decreases lts.len(),
{
    if lts.len() > 0 && lts.last().0 != name {
        lemma_lifetime_index_bounds(lts.drop_last(), name);
    }
}

/// No two open lifetimes have the same name.
pub open spec fn names_distinct(lts: Seq<(Seq<char>, usize)>) -> bool {
    forall|k1: int, k2: int|
        0 <= k1 < lts.len() && 0 <= k2 < lts.len() && k1 != k2 ==> (#[trigger] lts[k1]).0 != (
        #[trigger] lts[k2]).0
}

/// A name is found exactly where it stands; one that stands nowhere is not found.
pub proof fn lemma_lifetime_index_exact(lts: Seq<(Seq<char>, usize)>, name: Seq<char>)
    ensures
        lifetime_index(lts, name) < 0 <==> forall|k: int| 0 <= k < lts.len() ==> (#[trigger] lts[k]).0 != name,
        names_distinct(lts) ==> forall|k: int|
            0 <= k < lts.len() && (#[trigger] lts[k]).0 == name ==> lifetime_index(lts, name) == k,
    decreases lts.len(),
{
    lemma_lifetime_index_bounds(lts, name);
    if lts.len() > 0 {
        let d = lts.drop_last();
        lemma_lifetime_index_exact(d, name);
        assert forall|k: int| 0 <= k < d.len() implies #[trigger] d[k] == lts[k] by {}
        if lts.last().0 != name {
            if lifetime_index(lts, name) < 0 {
                assert forall|k: int| 0 <= k < lts.len() implies (#[trigger] lts[k]).0 != name by {
                    if k < d.len() {
                        assert(d[k] == lts[k]);
                    }
                }
            }
        } else {
            assert(lts[lts.len() - 1].0 == name);
        }
        if names_distinct(lts) {
            assert forall|k1: int, k2: int|
                0 <= k1 < d.len() && 0 <= k2 < d.len() && k1 != k2 implies (#[trigger] d[k1]).0 != (
                #[trigger] d[k2]).0 by {
                assert(d[k1] == lts[k1] && d[k2] == lts[k2]);
            }
            assert forall|k: int|
                0 <= k < lts.len() && (#[trigger] lts[k]).0 == name implies lifetime_index(lts, name) == k by {
                if k < d.len() {
                    assert(d[k] == lts[k]);
                    if lts.last().0 == name {
                        assert(lts[lts.len() - 1].0 == name);
                    }
                }
            }
        }
    }
}

/// The names in scope and the open lifetimes while lowering a function.
#[derive(Debug)]
pub struct Env {
    scopes: Vec<Vec<(String, LoweredValue)>>,
    /// Lifetime name -> its `qduc.newlft` token. Not `{}`-scoped, unlike `scopes`.
    lifetimes: Vec<(String, StoredValue)>,
}

pub open spec fn scope_view(sc: Seq<(String, LoweredValue)>) -> Seq<(Seq<char>, SLV)> {
    Seq::new(sc.len(), |j: int| (sc[j].0@, lv_view(sc[j].1)))
}

impl View for Env {
    type V = SEnv;

    closed spec fn view(&self) -> SEnv {
        SEnv {
            scopes: Seq::new(self.scopes@.len(), |i: int| scope_view(self.scopes@[i]@)),
            lifetimes: Seq::new(
                self.lifetimes@.len(),
                |i: int| (self.lifetimes@[i].0@, self.lifetimes@[i].1.raw),
            ),
        }
    }
}

impl Env {
    pub fn new() -> (e: Env)
        ensures
            e@ == env_new(),
    {
        let mut scopes: Vec<Vec<(String, LoweredValue)>> = Vec::new();
        scopes.push(Vec::new());
        let e = Env { scopes, lifetimes: Vec::new() };
        proof {
            assert(scope_view(Seq::<(String, LoweredValue)>::empty()) =~= Seq::empty());
            assert(e@.scopes =~= seq![Seq::<(Seq<char>, SLV)>::empty()]);
            assert(e@.lifetimes =~= Seq::<(Seq<char>, usize)>::empty());
        }
        e
    }

    pub fn push_scope(&mut self)
        ensures
            final(self)@ == env_push_scope(old(self)@),
    {
        self.scopes.push(Vec::new());
        proof {
            assert(scope_view(Seq::<(String, LoweredValue)>::empty()) =~= Seq::empty());
            assert(self@.scopes =~= old(self)@.scopes.push(Seq::empty()));
            assert(self@.lifetimes =~= old(self)@.lifetimes);
        }
    }

    pub fn pop_scope(&mut self)
        ensures
            final(self)@ == env_pop_scope(old(self)@),
    {
        self.scopes.pop();
        proof {
            if old(self)@.scopes.len() > 0 {
                assert(self@.scopes =~= old(self)@.scopes.drop_last());
            } else {
                assert(self@.scopes =~= old(self)@.scopes);
            }
            assert(self@.lifetimes =~= old(self)@.lifetimes);
        }
    }

    /// Defines `name` as `value` in the innermost scope.
    pub fn define(&mut self, name: String, value: LoweredValue)
        requires
            old(self)@.scopes.len() > 0,
        ensures
            final(self)@ == env_define(old(self)@, name@, lv_view(value)),
    {
        let ghost gname = name@;
        let ghost gv = lv_view(value);
        let mut last = self.scopes.pop().unwrap();
        let ghost before = last@;
        last.push((name, value));
        proof {
            assert(scope_view(last@) =~= scope_view(before).push((gname, gv)));
        }
        self.scopes.push(last);
        proof {
            assert(self@.scopes =~= old(self)@.scopes.update(
                old(self)@.scopes.len() - 1,
                old(self)@.scopes.last().push((gname, gv)),
            ));
            assert(self@.lifetimes =~= old(self)@.lifetimes);
        }
    }

    /// A copy of the value that `name` stands for, where it is defined.
    pub fn lookup(&self, name: &String) -> (r: Option<LoweredValue>)
        ensures
            match r {
                Some(v) => env_lookup(self@, name@) == Some(lv_view(v)),
                None => env_lookup(self@, name@) is None,
            },
    {
        let mut i = self.scopes.len();
        proof {
            assert(self@.scopes.len() == self.scopes@.len());
            assert(self@.scopes.take(i as int) =~= self@.scopes);
        }
        while i > 0
            invariant
                i <= self.scopes@.len(),
                self@.scopes.len() == self.scopes@.len(),
                env_lookup(self@, name@) == scopes_lookup(self@.scopes.take(i as int), name@),
            decreases i,
        {
            let scope = &self.scopes[i - 1];
            let ghost sv = self@.scopes[i - 1];
            assert(sv == scope_view(scope@));
            let mut j = scope.len();
            proof {
                assert(sv.take(j as int) =~= sv);
            }
            while j > 0
                invariant
                    j <= scope@.len(),
                    0 < i <= self.scopes@.len(),
                    self@.scopes.len() == self.scopes@.len(),
                    sv == self@.scopes[i - 1],
                    env_lookup(self@, name@) == scopes_lookup(self@.scopes.take(i as int), name@),
                    sv == scope_view(scope@),
                    scope_lookup(sv, name@) == scope_lookup(sv.take(j as int), name@),
                decreases j,
            {
                proof {
                    assert(sv.take(j as int).drop_last() =~= sv.take(j - 1));
                }
                if scope[j - 1].0 == *name {
                    proof {
                        assert(sv[j - 1] == (scope@[j - 1].0@, lv_view(scope@[j - 1].1)));
                        assert(sv.take(j as int).last() == sv[j - 1]);
                        assert(self@.scopes.take(i as int).last() == sv);
                    }
                    return Some(scope[j - 1].1.duplicate());
                }
                proof {
                    assert(sv[j - 1] == (scope@[j - 1].0@, lv_view(scope@[j - 1].1)));
                    assert(sv.take(j as int).last() == sv[j - 1]);
                }
                j = j - 1;
            }
            proof {
                assert(self@.scopes.take(i as int).drop_last() =~= self@.scopes.take(i - 1));
                assert(self@.scopes.take(i as int).last() == sv);
                assert(sv.take(0) =~= Seq::<(Seq<char>, SLV)>::empty());
            }
            i = i - 1;
        }
        None
    }

    fn lifetime_position(&self, name: &String) -> (r: Option<usize>)
        ensures
            match r {
                Some(i) => lifetime_index(self@.lifetimes, name@) == i as int && i
                    < self@.lifetimes.len(),
                None => lifetime_index(self@.lifetimes, name@) == -1,
            },
    {
        let ghost lts = self@.lifetimes;
        let mut i = self.lifetimes.len();
        proof {
            assert(lts.take(i as int) =~= lts);
        }
        while i > 0
            invariant
                i <= self.lifetimes@.len(),
                lts == self@.lifetimes,
                lifetime_index(lts, name@) == lifetime_index(lts.take(i as int), name@),
            decreases i,
        {
            proof {
                assert(lts.take(i as int).drop_last() =~= lts.take(i - 1));
            }
            assert(lts[i - 1] == (self.lifetimes@[i - 1].0@, self.lifetimes@[i - 1].1.raw));
            assert(lts.take(i as int).last() == lts[i - 1]);
            if self.lifetimes[i - 1].0 == *name {
                return Some(i - 1);
            }
            i = i - 1;
        }
        None
    }

    /// Opens the lifetime `name` with its token; `false` when it is already open.
    pub fn open_lifetime(&mut self, name: String, token: usize) -> (r: bool)
        ensures
            (r, final(self)@) == env_open_lifetime(old(self)@, name@, token),
    {
        if self.lifetime_position(&name).is_some() {
            return false;
        }
        let ghost gname = name@;
        self.lifetimes.push((name, StoredValue::new(token)));
        proof {
            assert(self@.lifetimes =~= old(self)@.lifetimes.push((gname, token)));
            assert(self@.scopes =~= old(self)@.scopes);
        }
        true
    }

    /// Closes the lifetime `name`, giving back its token.
    pub fn close_lifetime(&mut self, name: &String) -> (r: Option<StoredValue>)
        ensures
            (match r {
                Some(t) => Some(t.raw),
                None => None::<usize>,
            }, final(self)@) == env_close_lifetime(old(self)@, name@),
    {
        match self.lifetime_position(name) {
            None => None,
            Some(i) => {
                let (_, token) = self.lifetimes.remove(i);
                proof {
                    assert(self@.lifetimes =~= old(self)@.lifetimes.remove(i as int));
                    assert(self@.scopes =~= old(self)@.scopes);
                }
                Some(token)
            },
        }
    }

    /// The token of the open lifetime `name`.
    pub fn lifetime(&self, name: &String) -> (r: Option<StoredValue>)
        ensures
            match r {
                Some(t) => env_lifetime(self@, name@) == Some(t.raw),
                None => env_lifetime(self@, name@) is None,
            },
    {
        match self.lifetime_position(name) {
            None => None,
            Some(i) => Some(self.lifetimes[i].1),
        }
    }
}

} // verus!
