//! The thunk cache: suspended computations addressed by index, some of which remember their
//! original expression so that they can be re-bound in a new recursive record.
use std::rc::Rc;
use vstd::prelude::*;
use crate::ordmap::{has_entry, inserted, lemma_contains_push, FieldKey, IndexMap};
use crate::term::{share, Ident, IdentView, RichTerm, Term, TermPos};

verus! {

pub type CacheIndex = usize;

/// Maps identifiers to the cache elements they are bound to.
pub type Environment = IndexMap<Ident, CacheIndex>;

/// A term together with the environment its free variables live in.
pub struct Closure {
    pub body: RichTerm,
    pub env: Environment,
}

#[derive(Clone, Copy, PartialEq, Eq, Structural)]
pub enum IdentKind {
    Let,
    Lambda,
    Record,
}

/// The fields of the enclosing recursive record that an expression may refer to.
pub enum FieldDeps {
    Unknown,
    Known(Rc<Vec<Ident>>),
}

/// May the expression with these dependencies refer to the field `f`?
pub open spec fn dep_admits(d: FieldDeps, f: IdentView) -> bool {
    match d {
        FieldDeps::Unknown => true,
        FieldDeps::Known(v) => idents_view(v@).contains(f),
    }
}

pub open spec fn idents_view(s: Seq<Ident>) -> Seq<IdentView> {
    s.map_values(|i: Ident| i@)
}

pub open spec fn deps_is_empty(d: FieldDeps) -> bool {
    d matches FieldDeps::Known(v) && v@.len() == 0
}

fn contains_ident(v: &Vec<Ident>, f: &Ident) -> (r: bool)
    ensures
        r == idents_view(v@).contains(f@),
{
    let mut j: usize = 0;
    while j < v.len()
        invariant
            j <= v@.len(),
            forall|i: int| 0 <= i < j ==> v@[i]@ != f@,
        decreases v.len() - j,
    {
        if v[j].same_key(f) {
            proof {
                assert(idents_view(v@)[j as int] == f@);
            }
            return true;
        }
        j = j + 1;
    }
    proof {
        if idents_view(v@).contains(f@) {
            let q = choose|q: int| 0 <= q < idents_view(v@).len() && idents_view(v@)[q] == f@;
            assert(v@[q]@ == f@);
        }
    }
    false
}

impl FieldDeps {
    pub fn empty() -> (r: FieldDeps)
        ensures
            deps_is_empty(r),
            forall|f: IdentView| !dep_admits(r, f),
    {
        FieldDeps::Known(Rc::new(Vec::new()))
    }

    pub fn is_empty(&self) -> (r: bool)
        ensures
            r == deps_is_empty(*self),
    {
        match self {
            FieldDeps::Unknown => false,
            FieldDeps::Known(v) => v.len() == 0,
        }
    }

    /// Another handle on the same dependencies.
    pub fn share(&self) -> (r: FieldDeps)
        ensures
            r == *self,
    {
        match self {
            FieldDeps::Unknown => FieldDeps::Unknown,
            FieldDeps::Known(v) => FieldDeps::Known(share(v)),
        }
    }

    pub fn admits(&self, f: &Ident) -> (r: bool)
        ensures
            r == dep_admits(*self, f@),
    {
        match self {
            FieldDeps::Unknown => true,
            FieldDeps::Known(v) => contains_ident(v, f),
        }
    }

    /// The dependencies of an expression built from two others.
    pub fn union(self, other: FieldDeps) -> (r: FieldDeps)
        ensures
            forall|f: IdentView| dep_admits(r, f) == (dep_admits(self, f) || dep_admits(other, f)),
            r is Unknown <==> (self is Unknown || other is Unknown),
            deps_is_empty(r) <==> (deps_is_empty(self) && deps_is_empty(other)),
    {
        match (self, other) {
            (FieldDeps::Known(a), FieldDeps::Known(b)) => {
                let mut out: Vec<Ident> = Vec::new();
                let mut j: usize = 0;
                while j < a.len()
                    invariant
                        j <= a@.len(),
                        out@.len() == j,
                        forall|i: int| 0 <= i < j ==> (#[trigger] out@[i])@ == a@[i]@,
                    decreases a.len() - j,
                {
                    out.push(a[j].copy_key());
                    j = j + 1;
                }
                proof {
                    assert(idents_view(out@) =~= idents_view(a@));
                    assert(idents_view(b@).take(0) =~= Seq::<IdentView>::empty());
                }
                let mut j: usize = 0;
                while j < b.len()
                    invariant
                        j <= b@.len(),
                        forall|f: IdentView|
                            #![trigger idents_view(out@).contains(f)]
                            idents_view(out@).contains(f) <==> (idents_view(a@).contains(f)
                                || idents_view(b@).take(j as int).contains(f)),
                        a@.len() == 0 && j > 0 ==> out@.len() > 0,
                        a@.len() > 0 ==> out@.len() > 0,
                        a@.len() == 0 && j == 0 ==> out@.len() == 0,
                    decreases b.len() - j,
                {
                    let x = b[j].copy_key();
                    let ghost before = out@;
                    out.push(x);
                    proof {
                        let bv = idents_view(b@);
                        assert(idents_view(out@) =~= idents_view(before).push(x@));
                        assert(bv.take(j as int + 1) =~= bv.take(j as int).push(bv[j as int]));
                        assert forall|f: IdentView|
                            idents_view(out@).contains(f) <==> (idents_view(a@).contains(f)
                                || bv.take(j as int + 1).contains(f)) by {
                            lemma_contains_push(idents_view(before), x@, f);
                            lemma_contains_push(bv.take(j as int), bv[j as int], f);
                        }
                    }
                    j = j + 1;
                }
                proof {
                    assert(idents_view(b@).take(b@.len() as int) =~= idents_view(b@));
                }
                FieldDeps::Known(Rc::new(out))
            },
            _ => FieldDeps::Unknown,
        }
    }
}

/// How an expression is bound in the cache.
pub enum BindingType {
    Normal,
    Revertible(FieldDeps),
}

/// What a revertible element remembers: its expression before any evaluation, and its
/// dependencies.
pub struct Revertible {
    pub orig: Rc<Closure>,
    pub deps: FieldDeps,
}

/// An element of the cache.
pub struct Thunk {
    pub closure: Rc<Closure>,
    pub kind: IdentKind,
    pub revertible: Option<Revertible>,
}

/// The element that reverting `t` makes: its original expression, still revertible. An element
/// that is not revertible reverts to itself.
pub open spec fn reverted(t: Thunk) -> Thunk {
    match t.revertible {
        Some(rv) => Thunk { closure: rv.orig, kind: t.kind, revertible: Some(rv) },
        None => t,
    }
}

/// The dependencies of an element: none where it is not revertible.
pub open spec fn thunk_deps(t: Thunk) -> Option<FieldDeps> {
    match t.revertible {
        Some(rv) => Some(rv.deps),
        None => None,
    }
}

/// Holds of the fields that an expression with dependencies `d` may refer to.
pub open spec fn admitted_by(d: FieldDeps) -> spec_fn(IdentView) -> bool {
    |f: IdentView| dep_admits(d, f)
}

/// The fields, among `fields`, that an element may depend on, in the order of `fields`.
pub open spec fn selected_fields(t: Thunk, fields: Seq<IdentView>) -> Seq<IdentView> {
    match t.revertible {
        Some(rv) => fields.filter(admitted_by(rv.deps)),
        None => Seq::empty(),
    }
}

/// `r` is the variable `x` applied in turn to the variables `args`.
pub open spec fn is_application(r: RichTerm, x: IdentView, args: Seq<IdentView>) -> bool
    decreases args.len(),
{
    if args.len() == 0 {
        *r.term matches Term::Var(y) && y@ == x
    } else {
        match *r.term {
            Term::App(f, a) => is_application(f, x, args.drop_last()) && (*a.term matches Term::Var(
                y,
            ) && y@ == args.last()),
            _ => false,
        }
    }
}

/// `r` is `body` abstracted over `args`, the first one outermost.
pub open spec fn is_abstraction(r: RichTerm, body: RichTerm, args: Seq<IdentView>) -> bool
    decreases args.len(),
{
    if args.len() == 0 {
        r == body
    } else {
        match *r.term {
            Term::Fun(x, b) => x@ == args[0] && is_abstraction(b, body, args.drop_first()),
            _ => false,
        }
    }
}

/// Two environments bind the same identifiers, in the same order, to the same elements.
pub open spec fn same_bindings(a: Environment, b: Environment) -> bool {
    a.keys() == b.keys() && a@.len() == b@.len() && forall|j: int|
        0 <= j < a@.len() ==> (#[trigger] a@[j]).1 == b@[j].1
}

/// The element that saturation adds for `t`: its original expression abstracted over the
/// selected fields, in its original environment; or `t` itself where it is not revertible.
pub open spec fn is_function_form(n: Thunk, t: Thunk, fields: Seq<IdentView>) -> bool {
    match t.revertible {
        Some(rv) => {
            &&& n.kind == t.kind
            &&& n.revertible is None
            &&& is_abstraction(n.closure.body, rv.orig.body, selected_fields(t, fields))
            &&& same_bindings(n.closure.env, rv.orig.env)
        },
        None => n == t,
    }
}

/// The elements, in the order they were added.
pub struct Cache {
    pub elems: Vec<Thunk>,
}

/// Every identifier of `env` is bound to an element of `cache`.
pub open spec fn env_in(env: Environment, cache: Cache) -> bool {
    env.wf() && forall|j: int| 0 <= j < env@.len() ==> (#[trigger] env@[j]).1 < cache.elems@.len()
}

/// The cache only grew from `a` to `b`.
pub open spec fn extends(a: Cache, b: Cache) -> bool {
    a.elems@.len() <= b.elems@.len() && forall|j: int|
        0 <= j < a.elems@.len() ==> (#[trigger] b.elems@[j]) == a.elems@[j]
}

impl Cache {
    pub fn new() -> (r: Cache)
        ensures
            r.elems@.len() == 0,
    {
        Cache { elems: Vec::new() }
    }

    pub fn len(&self) -> (r: usize)
        ensures
            r == self.elems@.len(),
    {
        self.elems.len()
    }

    /// Adds a closure; it is revertible when bound as such with some dependencies.
    pub fn add(&mut self, closure: Closure, kind: IdentKind, bty: BindingType) -> (r: CacheIndex)
        ensures
            r == old(self).elems@.len(),
            final(self).elems@.len() == r + 1,
            extends(*old(self), *final(self)),
            *final(self).elems@[r as int].closure == closure,
            final(self).elems@[r as int].kind == kind,
            match bty {
                BindingType::Revertible(d) if !deps_is_empty(d) => final(self).elems@[r as int].revertible
                    matches Some(rv) && *rv.orig == closure && rv.deps == d,
                _ => final(self).elems@[r as int].revertible is None,
            },
    {
        let closure = Rc::new(closure);
        let revertible = match bty {
            BindingType::Revertible(d) => {
                if d.is_empty() {
                    None
                } else {
                    Some(Revertible { orig: share(&closure), deps: d })
                }
            },
            BindingType::Normal => None,
        };
        let r = self.elems.len();
        self.elems.push(Thunk { closure, kind, revertible });
        r
    }

    /// Adds a fresh copy of the original expression of element `idx`.
    pub fn revert(&mut self, idx: CacheIndex) -> (r: CacheIndex)
        requires
            idx < old(self).elems@.len(),
        ensures
            r == old(self).elems@.len(),
            final(self).elems@ == old(self).elems@.push(reverted(old(self).elems@[idx as int])),
    {
        let t = &self.elems[idx];
        let n = match &t.revertible {
            Some(rv) => Thunk {
                closure: share(&rv.orig),
                kind: t.kind,
                revertible: Some(Revertible { orig: share(&rv.orig), deps: rv.deps.share() }),
            },
            None => Thunk { closure: share(&t.closure), kind: t.kind, revertible: None },
        };
        let r = self.elems.len();
        self.elems.push(n);
        r
    }

    /// The dependencies of element `idx`, if it is revertible.
    pub fn deps(&self, idx: CacheIndex) -> (r: Option<FieldDeps>)
        requires
            idx < self.elems@.len(),
        ensures
            r == thunk_deps(self.elems@[idx as int]),
    {
        match &self.elems[idx].revertible {
            Some(rv) => Some(rv.deps.share()),
            None => None,
        }
    }

    /// The expression that element `idx` holds now.
    pub fn body(&self, idx: CacheIndex) -> (r: RichTerm)
        requires
            idx < self.elems@.len(),
        ensures
            r == self.elems@[idx as int].closure.body,
    {
        self.elems[idx].closure.body.share()
    }

    /// Makes element `idx` depend on the current values of the fields among `fields` that it may
    /// refer to: adds its function form, binds a fresh identifier to it in `env`, and returns that
    /// identifier applied to the selected fields.
    pub fn saturate(&mut self, idx: CacheIndex, env: &mut Environment, fields: &Vec<Ident>) -> (r:
        RichTerm)
        requires
            idx < old(self).elems@.len(),
            old(env).wf(),
        ensures
            extends(*old(self), *final(self)),
            final(self).elems@.len() == old(self).elems@.len() + 1,
            is_function_form(
                final(self).elems@[old(self).elems@.len() as int],
                old(self).elems@[idx as int],
                idents_view(fields@),
            ),
            final(env).wf(),
            inserted(
                old(env)@,
                final(env)@,
                IdentView::Generated(old(self).elems@.len() as usize),
                old(self).elems@.len() as usize,
            ),
            is_application(
                r,
                IdentView::Generated(old(self).elems@.len() as usize),
                selected_fields(old(self).elems@[idx as int], idents_view(fields@)),
            ),
    {
        let ghost t = self.elems@[idx as int];
        let n = self.elems.len();
        let mut selected: Vec<Ident> = Vec::new();
        let thunk = match &self.elems[idx].revertible {
            Some(rv) => {
                let ghost fv = idents_view(fields@);
                let mut j: usize = 0;
                while j < fields.len()
                    invariant
                        j <= fields@.len(),
                        fv == idents_view(fields@),
                        t.revertible == Some(*rv),
                        idents_view(selected@) == fv.take(j as int).filter(admitted_by(rv.deps)),
                    decreases fields.len() - j,
                {
                    proof {
                        assert(fv.take(j as int + 1) =~= fv.take(j as int).push(fv[j as int]));
                        fv.take(j as int).lemma_filter_push(fv[j as int], admitted_by(rv.deps));
                    }
                    if rv.deps.admits(&fields[j]) {
                        let x = fields[j].copy_key();
                        proof {
                            assert(idents_view(selected@.push(x)) =~= idents_view(selected@).push(x@));
                        }
                        selected.push(x);
                    }
                    j = j + 1;
                }
                proof {
                    assert(fv.take(fields@.len() as int) =~= fv);
                }
                let orig: &Closure = &rv.orig;
                let mut body = orig.body.share();
                let mut k: usize = selected.len();
                while k > 0
                    invariant
                        k <= selected@.len(),
                        is_abstraction(
                            body,
                            orig.body,
                            idents_view(selected@).subrange(k as int, selected@.len() as int),
                        ),
                    decreases k,
                {
                    k = k - 1;
                    let x = selected[k].copy_key();
                    let ghost prev = body;
                    body = RichTerm::from_term(Term::Fun(x, body));
                    proof {
                        let sv = idents_view(selected@);
                        let s = sv.subrange(k as int, sv.len() as int);
                        assert(s.drop_first() =~= sv.subrange(k as int + 1, sv.len() as int));
                        assert(s[0] == selected@[k as int]@);
                    }
                }
                Thunk {
                    closure: Rc::new(Closure { body, env: orig.env.duplicate() }),
                    kind: self.elems[idx].kind,
                    revertible: None,
                }
            },
            None => Thunk {
                closure: share(&self.elems[idx].closure),
                kind: self.elems[idx].kind,
                revertible: None,
            },
        };
        self.elems.push(thunk);
        env.insert(Ident::Generated(n), n);
        let mut r = RichTerm::from_term(Term::Var(Ident::Generated(n)));
        let ghost sv = idents_view(selected@);
        let mut j: usize = 0;
        while j < selected.len()
            invariant
                j <= selected@.len(),
                sv == idents_view(selected@),
                is_application(r, IdentView::Generated(n), sv.take(j as int)),
            decreases selected.len() - j,
        {
            let x = selected[j].copy_key();
            r = RichTerm::from_term(Term::App(r, RichTerm::from_term(Term::Var(x))));
            proof {
                assert(sv.take(j as int + 1).drop_last() =~= sv.take(j as int));
            }
            j = j + 1;
        }
        proof {
            assert(sv.take(sv.len() as int) =~= sv);
        }
        r
    }
}

/// `b` keeps every binding of `a` of a generated variable to the element of the same number.
pub open spec fn keeps_fresh(a: Environment, b: Environment) -> bool {
    forall|k: IdentView, v: usize|
        has_entry(a@, k, v) && k == IdentView::Generated(v) ==> #[trigger] has_entry(b@, k, v)
}

/// `k` is a user's identifier, or a generated one numbered below `n`.
pub open spec fn generated_below(k: IdentView, n: int) -> bool {
    match k {
        IdentView::Generated(m) => m < n,
        _ => true,
    }
}

/// `env` binds its identifiers to elements of `cache`, and its generated identifiers are numbered
/// below the size of `cache`.
pub open spec fn env_fits(env: Environment, cache: Cache) -> bool {
    &&& env.wf()
    &&& forall|j: int|
        0 <= j < env@.len() ==> (#[trigger] env@[j]).1 < cache.elems@.len() && generated_below(
            env@[j].0@,
            cache.elems@.len() as int,
        )
}

/// From position `from` on, `env` binds generated identifiers, each to the element of its own
/// number, numbered from `lo` up to `hi`.
pub open spec fn fresh_bindings(env: Environment, from: int, lo: int, hi: int) -> bool {
    forall|j: int|
        from <= j < env@.len() ==> (#[trigger] env@[j]).0@ == IdentView::Generated(env@[j].1) && lo
            <= env@[j].1 < hi
}

/// `b` keeps every binding of `a`, in place, and adds only bindings of generated identifiers to
/// the elements of their own numbers, numbered from `lo` up to `hi`.
pub open spec fn env_grows(a: Environment, b: Environment, lo: int, hi: int) -> bool {
    &&& a@.len() <= b@.len()
    &&& forall|j: int| 0 <= j < a@.len() ==> #[trigger] b@[j] == a@[j]
    &&& fresh_bindings(b, a@.len() as int, lo, hi)
}

/// `b` is `a` with one more binding, of the generated identifier numbered `n` to element `n`.
pub open spec fn env_adds_one(a: Environment, b: Environment, n: usize) -> bool {
    &&& b@.len() == a@.len() + 1
    &&& forall|j: int| 0 <= j < a@.len() ==> #[trigger] b@[j] == a@[j]
    &&& b@[a@.len() as int].0@ == IdentView::Generated(n)
    &&& b@[a@.len() as int].1 == n
}

/// A growing environment keeps the bindings of generated identifiers to their own elements.
pub broadcast proof fn lemma_grows_keeps(a: Environment, b: Environment, lo: int, hi: int)
    requires
        #[trigger] env_grows(a, b, lo, hi),
    ensures
        keeps_fresh(a, b),
{
    assert forall|k: IdentView, v: usize|
        has_entry(a@, k, v) && k == IdentView::Generated(v) implies #[trigger] has_entry(b@, k, v) by {
        let j = choose|j: int| 0 <= j < a@.len() && (#[trigger] a@[j]).0@ == k && a@[j].1 == v;
        assert(b@[j] == a@[j]);
    }
}

} // verus!
