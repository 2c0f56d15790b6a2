//! The merge operator: combining two values, records field by field.
use vstd::prelude::*;
use crate::cache::{
    dep_admits, deps_is_empty, env_adds_one, env_fits, env_grows, env_in, extends, fresh_bindings,
    generated_below, idents_view, is_application, is_function_form, keeps_fresh, reverted,
    selected_fields, thunk_deps, BindingType, Cache, CacheIndex, Closure, Environment, FieldDeps,
    IdentKind,
};
use crate::ordmap::{
    has_entry, inserted, keys_filtered, keys_of, lemma_filter_no_duplicates, membership, split,
    FieldKey, IndexMap, SplitResult,
};
use crate::term::{
    ident_text, same_label, strings_view, unshare, BinaryOp, Field, FieldMetadata, Ident,
    IdentView, Label, LabeledType, MergeLabel, MergePriority, RecordAttrs, RecordData, RichTerm, RuntimeContract, Span, Term,
    TermPos, TypeAnnotation, priority_eq, priority_lt, same_number,
};

verus! {

broadcast use crate::cache::lemma_grows_keeps;

/// Merging combines plain data, or applies a record contract (the second operand) to a value
/// (the first).
pub enum MergeMode {
    Standard(MergeLabel),
    Contract(Label),
}

impl MergeMode {
    pub open spec fn label_span(&self) -> Span {
        match self {
            MergeMode::Standard(l) => l.span,
            MergeMode::Contract(l) => l.span,
        }
    }

    /// The merge label of a mode: the standard one, or the projection of the contract label.
    pub fn merge_label(&self) -> (r: MergeLabel)
        ensures
            r.span == self.label_span(),
    {
        match self {
            MergeMode::Standard(l) => *l,
            MergeMode::Contract(l) => l.to_merge_label(),
        }
    }
}

impl From<MergeMode> for MergeLabel {
    fn from(mode: MergeMode) -> (r: MergeLabel) {
        mode.merge_label()
    }
}

impl vstd::std_specs::convert::FromSpecImpl<MergeMode> for MergeLabel {
    open spec fn obeys_from_spec() -> bool {
        true
    }

    open spec fn from_spec(mode: MergeMode) -> MergeLabel {
        MergeLabel { span: mode.label_span() }
    }
}

/// The frames of the evaluator's call stack, for error reports.
pub struct CallStack {
    pub frames: Vec<Span>,
}

impl CallStack {
    /// A copy of the frames.
    pub fn snapshot(&self) -> (r: CallStack)
        ensures
            r.frames@ == self.frames@,
    {
        let mut frames: Vec<Span> = Vec::new();
        let mut j: usize = 0;
        while j < self.frames.len()
            invariant
                j <= self.frames@.len(),
                frames@ == self.frames@.take(j as int),
            decreases self.frames.len() - j,
        {
            frames.push(self.frames[j]);
            proof {
                let f = self.frames@;
                assert(f.take(j as int + 1) =~= f.take(j as int).push(f[j as int]));
            }
            j = j + 1;
        }
        proof {
            assert(self.frames@.take(self.frames@.len() as int) =~= self.frames@);
        }
        CallStack { frames }
    }

    pub fn new() -> (r: CallStack)
        ensures
            r.frames@.len() == 0,
    {
        CallStack { frames: Vec::new() }
    }

    /// Moves the frames out, leaving the stack empty.
    pub fn take(&mut self) -> (r: CallStack)
        ensures
            r == *old(self),
            final(self).frames@.len() == 0,
    {
        let mut out = CallStack::new();
        std::mem::swap(self, &mut out);
        out
    }
}

pub enum IllegalPolymorphicTailAction {
    Merge,
}

/// The ways merging fails.
pub enum EvalError {
    /// Two values that cannot be merged.
    MergeIncompatibleArgs { left_arg: RichTerm, right_arg: RichTerm, merge_label: MergeLabel },
    /// A record contract rejects the value.
    BlameError { evaluated_arg: Option<RichTerm>, label: Label, call_stack: CallStack },
    /// An operand hides fields behind a sealed tail.
    IllegalPolymorphicTailAccess {
        action: IllegalPolymorphicTailAction,
        evaluated_arg: Option<RichTerm>,
        label: Label,
        call_stack: CallStack,
    },
    /// A variable that the environment does not bind.
    UnboundIdentifier(Ident, TermPos),
}

/// The element that the environment binds `k` to (meaningful where it binds `k`).
pub open spec fn env_lookup(env: Environment, k: IdentView) -> CacheIndex {
    env@[env_index(env, k)].1
}

/// The position of the binding of `k` in `env` (meaningful where it binds `k`).
pub open spec fn env_index(env: Environment, k: IdentView) -> int {
    choose|j: int| 0 <= j < env@.len() && (#[trigger] env@[j]).0@ == k
}

proof fn lemma_lookup_at(env: Environment, j: int)
    requires
        env.wf(),
        0 <= j < env@.len(),
    ensures
        env_lookup(env, env@[j].0@) == env@[j].1,
        env.contains(env@[j].0@),
{
    let k = env@[j].0@;
    assert(0 <= j < env@.len() && (#[trigger] env@[j]).0@ == k);
    let i = env_index(env, k);
    assert(0 <= i < env@.len() && env@[i].0@ == k);
    assert(env.keys()[j] == k);
    assert(env.keys()[i] == k);
    assert(i == j);
}

/// The term that the label guards, as the cache holds it now, if the label has one.
pub open spec fn guarded_arg(label: Label, cache: Cache) -> Option<RichTerm> {
    match label.arg_idx {
        Some(i) if i < cache.elems@.len() => Some(cache.elems@[i as int].closure.body),
        _ => None,
    }
}

pub fn get_evaluated_arg(label: &Label, cache: &Cache) -> (r: Option<RichTerm>)
    ensures
        r == guarded_arg(*label, *cache),
{
    match label.arg_idx {
        Some(i) => {
            if i < cache.len() {
                Some(cache.body(i))
            } else {
                None
            }
        },
        None => None,
    }
}

/// `r` is what reverting `o` into an environment gives: a generated variable bound to a reverted
/// copy of the element that `with_env` binds `o` to, where `o` is a variable, else `o` itself. The
/// copy is element `n` of `cache`, and `env` binds the variable numbered `n` to it.
pub open spec fn reverts_to(
    o: RichTerm,
    r: RichTerm,
    with_env: Environment,
    cache: Cache,
    env: Environment,
) -> bool {
    match *o.term {
        Term::Var(x) => {
            &&& with_env.contains(x@)
            &&& r.pos == o.pos
            &&& *r.term matches Term::Var(Ident::Generated(n)) && n < cache.elems@.len()
                && cache.elems@[n as int] == reverted(cache.elems@[env_lookup(with_env, x@) as int])
                && has_entry(env@, IdentView::Generated(n), n)
        },
        _ => r == o,
    }
}

proof fn lemma_lookup_in(env: Environment, cache: Cache, k: IdentView)
    requires
        env_in(env, cache),
        env.contains(k),
    ensures
        env_lookup(env, k) < cache.elems@.len(),
        0 <= env_index(env, k) < env@.len(),
        env@[env_index(env, k)].0@ == k,
{
    let q = choose|q: int| 0 <= q < env.keys().len() && env.keys()[q] == k;
    assert(0 <= q < env@.len() && (#[trigger] env@[q]).0@ == k);
}

proof fn lemma_reverts_mono(
    o: RichTerm,
    r: RichTerm,
    with_env: Environment,
    c1: Cache,
    e1: Environment,
    c2: Cache,
    e2: Environment,
)
    requires
        reverts_to(o, r, with_env, c1, e1),
        env_in(with_env, c1),
        extends(c1, c2),
        keeps_fresh(e1, e2),
    ensures
        reverts_to(o, r, with_env, c2, e2),
{
    if let Term::Var(x) = *o.term {
        lemma_lookup_in(with_env, c1, x@);
        if let Term::Var(Ident::Generated(n)) = *r.term {
            assert(has_entry(e2@, IdentView::Generated(n), n));
            assert(c2.elems@[n as int] == c1.elems@[n as int]);
            assert(c2.elems@[env_lookup(with_env, x@) as int] == c1.elems@[env_lookup(
                with_env,
                x@,
            ) as int]);
        }
    }
}

/// `e` reports that `t` is a variable that `env` does not bind, with its name and position.
pub open spec fn unbound_error(e: EvalError, t: RichTerm, env: Environment) -> bool {
    match (*t.term, e) {
        (Term::Var(x), EvalError::UnboundIdentifier(y, p)) => !env.contains(x@) && y@ == x@ && p
            == t.pos,
        _ => false,
    }
}

/// No pending contract is a variable.
pub open spec fn contracts_constant(o: Seq<RuntimeContract>) -> bool {
    forall|i: int| 0 <= i < o.len() ==> !is_var(#[trigger] o[i].contract)
}

/// `e` reports one of the pending contracts `o` as a variable that `env` does not bind.
pub open spec fn contracts_unbound_error(e: EvalError, o: Seq<RuntimeContract>, env: Environment) -> bool {
    exists|i: int| 0 <= i < o.len() && unbound_error(e, (#[trigger] o[i]).contract, env)
}

/// `t` is a variable.
pub open spec fn is_var(t: RichTerm) -> bool {
    *t.term is Var
}

proof fn lemma_insert_fresh(env0: Environment, env: Environment, cache: Cache, n: usize)
    requires
        env_fits(env0, cache),
        cache.elems@.len() <= n,
        inserted(env0@, env@, IdentView::Generated(n), n),
    ensures
        env_adds_one(env0, env, n),
{
    if env0.keys().contains(IdentView::Generated(n)) {
        let q = choose|q: int| 0 <= q < env0.keys().len() && env0.keys()[q] == IdentView::Generated(n);
        assert(env0@[q].0@ == IdentView::Generated(n));
        assert(generated_below(env0@[q].0@, cache.elems@.len() as int));
    }
    assert(env@.last() == env@[env0@.len() as int]);
}

proof fn lemma_adds_one_fits(env0: Environment, env: Environment, c0: Cache, c1: Cache, n: usize)
    requires
        env_fits(env0, c0),
        env.wf(),
        env_adds_one(env0, env, n),
        extends(c0, c1),
        c0.elems@.len() <= n < c1.elems@.len(),
    ensures
        env_fits(env, c1),
        env_grows(env0, env, c0.elems@.len() as int, c1.elems@.len() as int),
{
    assert forall|j: int| 0 <= j < env@.len() implies (#[trigger] env@[j]).1 < c1.elems@.len()
        && generated_below(env@[j].0@, c1.elems@.len() as int) by {
        if j < env0@.len() {
            assert(env@[j] == env0@[j]);
        }
    }
}

proof fn lemma_grows_trans(a: Environment, b: Environment, c: Environment, lo: int, mid: int, mid2: int, hi: int)
    requires
        env_grows(a, b, lo, mid),
        env_grows(b, c, mid2, hi),
        lo <= mid2,
        mid <= hi,
    ensures
        env_grows(a, c, lo, hi),
{
    assert forall|j: int| 0 <= j < a@.len() implies #[trigger] c@[j] == a@[j] by {
        assert(c@[j] == b@[j]);
    }
    assert forall|j: int| a@.len() <= j < c@.len() implies (#[trigger] c@[j]).0@
        == IdentView::Generated(c@[j].1) && lo <= c@[j].1 < hi by {
        if j < b@.len() {
            assert(c@[j] == b@[j]);
        }
    }
}

/// `o` is a constant, or a variable that `env` binds.
pub open spec fn bound_in(o: RichTerm, env: Environment) -> bool {
    match *o.term {
        Term::Var(x) => env.contains(x@),
        _ => true,
    }
}

/// Inserting a fresh variable bound to its own element keeps the bindings of the same shape.
proof fn lemma_insert_keeps(old: Environment, new: Environment, n: usize, k: IdentView, v: usize)
    requires
        old.wf(),
        inserted(old@, new@, IdentView::Generated(n), n),
        has_entry(old@, k, v),
        k == IdentView::Generated(v),
    ensures
        has_entry(new@, k, v),
{
    let j = choose|j: int| 0 <= j < old@.len() && (#[trigger] old@[j]).0@ == k && old@[j].1 == v;
    if old.keys().contains(IdentView::Generated(n)) {
        let p = choose|p: int|
            0 <= p < old@.len() && (#[trigger] old@[p]).0@ == IdentView::Generated(n) && new@.len()
                == old@.len() && new@[p].0@ == IdentView::Generated(n) && new@[p].1 == n
                && forall|i: int| 0 <= i < old@.len() && i != p ==> new@[i] == old@[i];
        if p == j {
            assert(new@[p].0@ == k && new@[p].1 == v);
        } else {
            assert(new@[j] == old@[j]);
        }
    } else {
        assert(new@[j] == old@[j]);
    }
}

/// Reverts the element behind `t`, if `t` is a variable, and binds a fresh variable to the copy in
/// `env`. A constant is returned as it is.
pub fn revert_closurize_term(
    t: RichTerm,
    cache: &mut Cache,
    env: &mut Environment,
    with_env: &Environment,
) -> (r: Result<RichTerm, EvalError>)
    requires
        env_in(*with_env, *old(cache)),
        env_fits(*old(env), *old(cache)),
    ensures
        extends(*old(cache), *final(cache)),
        final(env).wf(),
        env_fits(*final(env), *final(cache)),
        env_grows(
            *old(env),
            *final(env),
            old(cache).elems@.len() as int,
            final(cache).elems@.len() as int,
        ),
        !is_var(t) || r is Err ==> *final(cache) == *old(cache) && *final(env) == *old(env),
        is_var(t) && r is Ok ==> final(cache).elems@.len() == old(cache).elems@.len() + 1
            && env_adds_one(*old(env), *final(env), old(cache).elems@.len() as usize) && (r matches Ok(
            rt,
        ) && *rt.term == Term::Var(Ident::Generated(old(cache).elems@.len() as usize))),
        bound_in(t, *with_env) <==> r is Ok,
        r matches Ok(rt) ==> reverts_to(
            t,
            rt,
            *with_env,
            *final(cache),
            *final(env),
        ),
        r matches Err(e) ==> unbound_error(e, t, *with_env),
{
    match &*t.term {
        Term::Var(x) => {
            match with_env.position(x) {
                Some(j) => {
                    let idx = with_env.entry_at(j).1;
                    proof {
                        lemma_lookup_at(*with_env, j as int);
                    }
                    let ghost c0 = *cache;
                    let n = cache.revert(idx);
                    let ghost env0 = *env;
                    env.insert(Ident::Generated(n), n);
                    proof {
                        lemma_insert_fresh(env0, *env, c0, n);
                        lemma_adds_one_fits(env0, *env, c0, *cache, n);
                        assert forall|k: IdentView, v: usize|
                            has_entry(env0@, k, v) && k == IdentView::Generated(
                                v,
                            ) implies #[trigger] has_entry(env@, k, v) by {
                            lemma_insert_keeps(env0, *env, n, k, v);
                        }
                        lemma_fresh_bound(env0, *env, n);
                    }
                    Ok(RichTerm::new(Term::Var(Ident::Generated(n)), t.pos))
                },
                None => Err(EvalError::UnboundIdentifier(x.copy_key(), t.pos)),
            }
        },
        _ => Ok(t),
    }
}

/// Each of `r` is what reverting the contract at the same place in `o` gives, label unchanged.
pub open spec fn contracts_revert_to(
    o: Seq<RuntimeContract>,
    r: Seq<RuntimeContract>,
    with_env: Environment,
    cache: Cache,
    env: Environment,
) -> bool {
    &&& r.len() == o.len()
    &&& forall|i: int|
        #![trigger r[i]]
        0 <= i < o.len() ==> reverts_to(o[i].contract, r[i].contract, with_env, cache, env)
            && r[i].label == o[i].label
}

pub open spec fn contracts_bound_in(o: Seq<RuntimeContract>, env: Environment) -> bool {
    forall|i: int| 0 <= i < o.len() ==> #[trigger] bound_in(o[i].contract, env)
}

proof fn lemma_contracts_mono(
    o: Seq<RuntimeContract>,
    r: Seq<RuntimeContract>,
    with_env: Environment,
    c1: Cache,
    e1: Environment,
    c2: Cache,
    e2: Environment,
)
    requires
        contracts_revert_to(o, r, with_env, c1, e1),
        env_in(with_env, c1),
        extends(c1, c2),
        keeps_fresh(e1, e2),
    ensures
        contracts_revert_to(o, r, with_env, c2, e2),
{
    assert forall|i: int| #![trigger r[i]] 0 <= i < o.len() implies reverts_to(
        o[i].contract,
        r[i].contract,
        with_env,
        c2,
        e2,
    ) && r[i].label == o[i].label by {
        let ri = r[i];
        lemma_reverts_mono(o[i].contract, r[i].contract, with_env, c1, e1, c2, e2);
    }
}

/// Reverts each pending contract into `env`.
pub fn revert_closurize_contracts(
    v: Vec<RuntimeContract>,
    cache: &mut Cache,
    env: &mut Environment,
    with_env: &Environment,
) -> (r: Result<Vec<RuntimeContract>, EvalError>)
    requires
        env_in(*with_env, *old(cache)),
        env_fits(*old(env), *old(cache)),
    ensures
        extends(*old(cache), *final(cache)),
        final(env).wf(),
        env_fits(*final(env), *final(cache)),
        env_grows(
            *old(env),
            *final(env),
            old(cache).elems@.len() as int,
            final(cache).elems@.len() as int,
        ),
        contracts_constant(v@) ==> *final(cache) == *old(cache) && *final(env) == *old(env),
        contracts_bound_in(v@, *with_env) <==> r is Ok,
        r matches Err(e) ==> contracts_unbound_error(e, v@, *with_env),
        r matches Ok(rv) ==> contracts_revert_to(
            v@,
            rv@,
            *with_env,
            *final(cache),
            *final(env),
        ),
{
    let ghost c0 = *cache;
    let ghost e0 = *env;
    let ghost v0 = v@;
    let mut src = v;
    let mut out: Vec<RuntimeContract> = Vec::new();
    let n = src.len();
    let mut i: usize = 0;
    while i < n
        invariant
            n == v0.len(),
            i <= n,
            src@ == v0.subrange(i as int, n as int),
            env_in(*with_env, c0),
            c0 == *old(cache),
            e0 == *old(env),
            v0 == v@,
            extends(c0, *cache),
            env.wf(),
            keeps_fresh(e0, *env),
            env_fits(*env, *cache),
            env_grows(e0, *env, c0.elems@.len() as int, cache.elems@.len() as int),
            contracts_constant(v0) ==> *cache == c0 && *env == e0,
            contracts_bound_in(v0.take(i as int), *with_env),
            contracts_revert_to(v0.take(i as int), out@, *with_env, *cache, *env),
        decreases n - i,
    {
        let c = src.remove(0);
        proof {
            assert(c == v0[i as int]);
        }
        let ghost c1 = *cache;
        let ghost e1 = *env;
        let RuntimeContract { contract, label } = c;
        match revert_closurize_term(contract, cache, env, with_env) {
            Ok(t) => {
                proof {
                    lemma_contracts_mono(v0.take(i as int), out@, *with_env, c1, e1, *cache, *env);
                    assert(v0.take(i as int + 1) =~= v0.take(i as int).push(v0[i as int]));
                }
                out.push(RuntimeContract { contract: t, label });
                proof {
                    lemma_grows_trans(e0, e1, *env, c0.elems@.len() as int, c1.elems@.len() as int, c1.elems@.len() as int, cache.elems@.len() as int);
                    if contracts_constant(v0) {
                        assert(!is_var(v0[i as int].contract));
                    }
                }
            },
            Err(e) => {
                proof {
                    assert(!bound_in(v0[i as int].contract, *with_env));
                    assert(!contracts_bound_in(v0, *with_env));
                    assert(unbound_error(e, v0[i as int].contract, *with_env));
                    assert(contracts_unbound_error(e, v0, *with_env));
                }
                return Err(e);
            },
        }
        i = i + 1;
    }
    proof {
        assert(v0.take(n as int) =~= v0);
    }
    Ok(out)
}

/// `r` is the field `o` reverted into `env`: same metadata, value and pending contracts reverted.
pub open spec fn field_reverts_to(
    o: Field,
    r: Field,
    with_env: Environment,
    cache: Cache,
    env: Environment,
) -> bool {
    &&& r.metadata == o.metadata
    &&& match (o.value, r.value) {
        (Some(ov), Some(rv)) => reverts_to(ov, rv, with_env, cache, env),
        (None, None) => true,
        _ => false,
    }
    &&& contracts_revert_to(o.pending_contracts@, r.pending_contracts@, with_env, cache, env)
}

/// The value and the pending contracts of `o` are constants or variables that `env` binds.
pub open spec fn field_bound_in(o: Field, env: Environment) -> bool {
    &&& o.value matches Some(v) ==> bound_in(v, env)
    &&& contracts_bound_in(o.pending_contracts@, env)
}

proof fn lemma_field_mono(
    o: Field,
    r: Field,
    with_env: Environment,
    c1: Cache,
    e1: Environment,
    c2: Cache,
    e2: Environment,
)
    requires
        field_reverts_to(o, r, with_env, c1, e1),
        env_in(with_env, c1),
        extends(c1, c2),
        keeps_fresh(e1, e2),
    ensures
        field_reverts_to(o, r, with_env, c2, e2),
{
    if let (Some(ov), Some(rv)) = (o.value, r.value) {
        lemma_reverts_mono(ov, rv, with_env, c1, e1, c2, e2);
    }
    lemma_contracts_mono(o.pending_contracts@, r.pending_contracts@, with_env, c1, e1, c2, e2);
}

/// Neither the value nor a pending contract of `f` is a variable.
pub open spec fn field_constant(f: Field) -> bool {
    &&& f.value matches Some(v) ==> !is_var(v)
    &&& contracts_constant(f.pending_contracts@)
}

/// `e` reports the value or a pending contract of `f` as a variable that `env` does not bind.
pub open spec fn field_unbound_error(e: EvalError, f: Field, env: Environment) -> bool {
    ||| f.value matches Some(v) && unbound_error(e, v, env)
    ||| contracts_unbound_error(e, f.pending_contracts@, env)
}

/// Reverts the value and the pending contracts of a field into `env`.
pub fn revert_closurize_field(
    f: Field,
    cache: &mut Cache,
    env: &mut Environment,
    with_env: &Environment,
) -> (r: Result<Field, EvalError>)
    requires
        env_in(*with_env, *old(cache)),
        env_fits(*old(env), *old(cache)),
    ensures
        extends(*old(cache), *final(cache)),
        final(env).wf(),
        env_fits(*final(env), *final(cache)),
        env_grows(
            *old(env),
            *final(env),
            old(cache).elems@.len() as int,
            final(cache).elems@.len() as int,
        ),
        field_constant(f) ==> *final(cache) == *old(cache) && *final(env) == *old(env),
        field_bound_in(f, *with_env) <==> r is Ok,
        r matches Err(e) ==> field_unbound_error(e, f, *with_env),
        r matches Ok(rf) ==> field_reverts_to(
            f,
            rf,
            *with_env,
            *final(cache),
            *final(env),
        ),
{
    let ghost f0 = f;
    let ghost c0 = *cache;
    let ghost e0 = *env;
    let Field { metadata, value, pending_contracts } = f;
    let value = match value {
        Some(t) => {
            match revert_closurize_term(t, cache, env, with_env) {
                Ok(rt) => Some(rt),
                Err(e) => return Err(e),
            }
        },
        None => None,
    };
    let ghost c1 = *cache;
    let ghost e1 = *env;
    let ghost value0 = value;
    let pending_contracts = match revert_closurize_contracts(pending_contracts, cache, env, with_env) {
        Ok(p) => p,
        Err(e) => return Err(e),
    };
    proof {
        if let (Some(ov), Some(rv)) = (f0.value, value0) {
            lemma_reverts_mono(ov, rv, *with_env, c1, e1, *cache, *env);
        }
        lemma_grows_trans(
            e0,
            e1,
            *env,
            c0.elems@.len() as int,
            c1.elems@.len() as int,
            c1.elems@.len() as int,
            cache.elems@.len() as int,
        );
    }
    Ok(Field { metadata, value, pending_contracts })
}

/// The dependencies of `t`: those of the element it names, where it is a variable bound to a
/// revertible element; none otherwise.
pub open spec fn term_admits(t: RichTerm, env: Environment, cache: Cache, f: IdentView) -> bool {
    match *t.term {
        Term::Var(x) => match thunk_deps(cache.elems@[env_lookup(env, x@) as int]) {
            Some(d) => dep_admits(d, f),
            None => false,
        },
        _ => false,
    }
}

pub open spec fn term_deps_empty(t: RichTerm, env: Environment, cache: Cache) -> bool {
    match *t.term {
        Term::Var(x) => match thunk_deps(cache.elems@[env_lookup(env, x@) as int]) {
            Some(d) => deps_is_empty(d),
            None => true,
        },
        _ => true,
    }
}

/// The dependencies of a field's value.
pub fn field_deps(cache: &Cache, rt: &RichTerm, local_env: &Environment) -> (r: Result<
    FieldDeps,
    EvalError,
>)
    requires
        env_in(*local_env, *cache),
    ensures
        bound_in(*rt, *local_env) <==> r is Ok,
        r matches Ok(d) ==> (forall|f: IdentView| dep_admits(d, f) == term_admits(*rt, *local_env, *cache, f))
            && (deps_is_empty(d) <==> term_deps_empty(*rt, *local_env, *cache)),
        r matches Err(e) ==> unbound_error(e, *rt, *local_env),
{
    match &*rt.term {
        Term::Var(x) => match local_env.position(x) {
            Some(j) => {
                let idx = local_env.entry_at(j).1;
                proof {
                    lemma_lookup_at(*local_env, j as int);
                }
                match cache.deps(idx) {
                    Some(d) => Ok(d),
                    None => Ok(FieldDeps::empty()),
                }
            },
            None => Err(EvalError::UnboundIdentifier(x.copy_key(), rt.pos)),
        },
        _ => Ok(FieldDeps::empty()),
    }
}

/// `r` is `o` saturated over `fields`: where `o` is a variable, the function form of its element,
/// bound in `env` to a generated variable, applied to the fields that the element may depend on;
/// else `o` itself.
pub open spec fn saturates_to(
    o: RichTerm,
    r: RichTerm,
    with_env: Environment,
    cache: Cache,
    env: Environment,
    fields: Seq<IdentView>,
) -> bool {
    match *o.term {
        Term::Var(x) => {
            &&& with_env.contains(x@)
            &&& r.pos == o.pos
            &&& exists|m: usize|
                #[trigger] has_entry(env@, IdentView::Generated(m), m) && m < cache.elems@.len()
                    && is_application(
                    r,
                    IdentView::Generated(m),
                    selected_fields(cache.elems@[env_lookup(with_env, x@) as int], fields),
                ) && is_function_form(
                    cache.elems@[m as int],
                    cache.elems@[env_lookup(with_env, x@) as int],
                    fields,
                )
        },
        _ => r == o,
    }
}

proof fn lemma_saturates_mono(
    o: RichTerm,
    r: RichTerm,
    with_env: Environment,
    c1: Cache,
    e1: Environment,
    c2: Cache,
    e2: Environment,
    fields: Seq<IdentView>,
)
    requires
        saturates_to(o, r, with_env, c1, e1, fields),
        env_in(with_env, c1),
        extends(c1, c2),
        keeps_fresh(e1, e2),
    ensures
        saturates_to(o, r, with_env, c2, e2, fields),
{
    if let Term::Var(x) = *o.term {
        lemma_lookup_in(with_env, c1, x@);
        let l = env_lookup(with_env, x@);
        let m = choose|m: usize|
            #[trigger] has_entry(e1@, IdentView::Generated(m), m) && m < c1.elems@.len()
                && is_application(
                r,
                IdentView::Generated(m),
                selected_fields(c1.elems@[l as int], fields),
            ) && is_function_form(c1.elems@[m as int], c1.elems@[l as int], fields);
        assert(c2.elems@[m as int] == c1.elems@[m as int]);
        assert(c2.elems@[l as int] == c1.elems@[l as int]);
        assert(has_entry(e2@, IdentView::Generated(m), m));
    }
}

/// Saturates `t`, whose variables live in `local_env`, over `fields`, binding what it needs in
/// `env`.
pub fn saturate_term(
    t: RichTerm,
    cache: &mut Cache,
    env: &mut Environment,
    local_env: &Environment,
    fields: &Vec<Ident>,
) -> (r: Result<RichTerm, EvalError>)
    requires
        env_in(*local_env, *old(cache)),
        env_fits(*old(env), *old(cache)),
    ensures
        extends(*old(cache), *final(cache)),
        final(env).wf(),
        env_fits(*final(env), *final(cache)),
        env_grows(
            *old(env),
            *final(env),
            old(cache).elems@.len() as int,
            final(cache).elems@.len() as int,
        ),
        !is_var(t) || r is Err ==> *final(cache) == *old(cache) && *final(env) == *old(env),
        is_var(t) && r is Ok ==> final(cache).elems@.len() == old(cache).elems@.len() + 1
            && env_adds_one(*old(env), *final(env), old(cache).elems@.len() as usize),
        bound_in(t, *local_env) <==> r is Ok,
        r matches Ok(rt) ==> saturates_to(
            t,
            rt,
            *local_env,
            *final(cache),
            *final(env),
            idents_view(fields@),
        ),
        r matches Err(e) ==> unbound_error(e, t, *local_env),
{
    match &*t.term {
        Term::Var(x) => match local_env.position(x) {
            Some(j) => {
                let idx = local_env.entry_at(j).1;
                proof {
                    lemma_lookup_at(*local_env, j as int);
                }
                let ghost env0 = *env;
                let ghost c0 = *cache;
                let n = cache.len();
                let s = cache.saturate(idx, env, fields);
                proof {
                    lemma_insert_fresh(env0, *env, c0, n);
                    lemma_adds_one_fits(env0, *env, c0, *cache, n);
                    assert forall|k: IdentView, v: usize|
                        has_entry(env0@, k, v) && k == IdentView::Generated(
                            v,
                        ) implies #[trigger] has_entry(env@, k, v) by {
                        lemma_insert_keeps(env0, *env, n, k, v);
                    }
                    lemma_fresh_bound(env0, *env, n);
                }
                Ok(RichTerm { term: s.term, pos: t.pos })
            },
            None => Err(EvalError::UnboundIdentifier(x.copy_key(), t.pos)),
        },
        _ => Ok(t),
    }
}

/// `r` is a generated variable, bound in `env` to element `n` of `cache`: the deferred merge of
/// `t1` and `t2` saturated over `fields`, revertible with the union of their dependencies where
/// that union is not empty.
pub open spec fn merged_into(
    t1: RichTerm,
    t2: RichTerm,
    r: RichTerm,
    env1: Environment,
    env2: Environment,
    label: MergeLabel,
    cache: Cache,
    env: Environment,
    fields: Seq<IdentView>,
) -> bool {
    &&& r.pos == TermPos::Absent
    &&& *r.term matches Term::Var(Ident::Generated(n)) && n < cache.elems@.len() && has_entry(
        env@,
        IdentView::Generated(n),
        n,
    ) && merge_element(t1, t2, cache.elems@[n as int], env1, env2, label, cache, fields)
}

pub open spec fn closure_env(e: crate::cache::Thunk) -> Environment {
    e.closure.env
}

/// `e` is the cache element of the deferred merge of `t1` and `t2`.
pub open spec fn merge_element(
    t1: RichTerm,
    t2: RichTerm,
    e: crate::cache::Thunk,
    env1: Environment,
    env2: Environment,
    label: MergeLabel,
    cache: Cache,
    fields: Seq<IdentView>,
) -> bool {
    &&& e.kind == IdentKind::Record
    &&& e.closure.body.pos == TermPos::Absent
    &&& *e.closure.body.term matches Term::Op2(BinaryOp::Merge(l), s1, s2) && l == label
        && saturates_to(t1, s1, env1, cache, e.closure.env, fields) && saturates_to(
        t2,
        s2,
        env2,
        cache,
        e.closure.env,
        fields,
    )
    &&& e.revertible is None <==> (term_deps_empty(t1, env1, cache) && term_deps_empty(
        t2,
        env2,
        cache,
    ))
    &&& e.revertible matches Some(rv) ==> rv.orig == e.closure && forall|f: IdentView|
        dep_admits(rv.deps, f) == (term_admits(t1, env1, cache, f) || term_admits(t2, env2, cache, f))
}

proof fn lemma_merged_mono(
    t1: RichTerm,
    t2: RichTerm,
    r: RichTerm,
    env1: Environment,
    env2: Environment,
    label: MergeLabel,
    c1: Cache,
    e1: Environment,
    c2: Cache,
    e2: Environment,
    fields: Seq<IdentView>,
)
    requires
        merged_into(t1, t2, r, env1, env2, label, c1, e1, fields),
        env_in(env1, c1),
        env_in(env2, c1),
        extends(c1, c2),
        keeps_fresh(e1, e2),
    ensures
        merged_into(t1, t2, r, env1, env2, label, c2, e2, fields),
{
    if let Term::Var(Ident::Generated(n)) = *r.term {
        let e = c1.elems@[n as int];
        assert(c2.elems@[n as int] == e);
        assert(has_entry(e2@, IdentView::Generated(n), n));
        if let Term::Op2(BinaryOp::Merge(l), s1, s2) = *e.closure.body.term {
            lemma_saturates_mono(t1, s1, env1, c1, closure_env(e), c2, closure_env(e), fields);
            lemma_saturates_mono(t2, s2, env2, c1, closure_env(e), c2, closure_env(e), fields);
        }
        if let Term::Var(x) = *t1.term {
            if env1.contains(x@) {
                lemma_lookup_in(env1, c1, x@);
            }
        }
        if let Term::Var(x) = *t2.term {
            if env2.contains(x@) {
                lemma_lookup_in(env2, c1, x@);
            }
        }
        assert forall|f: IdentView|
            term_admits(t1, env1, c2, f) == term_admits(t1, env1, c1, f) && term_admits(
                t2,
                env2,
                c2,
                f,
            ) == term_admits(t2, env2, c1, f) by {}
    }
}

/// Binds, in `env`, a generated variable to a new cache element holding the deferred merge of
/// `t1` and `t2`, both saturated over `fields`, and returns that variable. The element is
/// revertible when either value has dependencies.
pub fn fields_merge_closurize(
    cache: &mut Cache,
    merge_label: MergeLabel,
    env: &mut Environment,
    t1: RichTerm,
    env1: &Environment,
    t2: RichTerm,
    env2: &Environment,
    fields: &Vec<Ident>,
) -> (r: Result<RichTerm, EvalError>)
    requires
        env_in(*env1, *old(cache)),
        env_in(*env2, *old(cache)),
        env_fits(*old(env), *old(cache)),
    ensures
        extends(*old(cache), *final(cache)),
        final(env).wf(),
        env_fits(*final(env), *final(cache)),
        env_grows(
            *old(env),
            *final(env),
            old(cache).elems@.len() as int,
            final(cache).elems@.len() as int,
        ),
        (bound_in(t1, *env1) && bound_in(t2, *env2)) <==> r is Ok,
        r matches Err(e) ==> (unbound_error(e, t1, *env1) || (bound_in(t1, *env1) && unbound_error(
            e,
            t2,
            *env2,
        ))) && *final(cache) == *old(cache) && *final(env) == *old(env),
        r matches Ok(rt) ==> final(cache).elems@.len() > old(cache).elems@.len() && *rt.term
            == Term::Var(Ident::Generated((final(cache).elems@.len() - 1) as usize)) && env_adds_one(
            *old(env),
            *final(env),
            (final(cache).elems@.len() - 1) as usize,
        ),
        r matches Ok(rt) ==> merged_into(
            t1,
            t2,
            rt,
            *env1,
            *env2,
            merge_label,
            *final(cache),
            *final(env),
            idents_view(fields@),
        ),
{
    let ghost c0 = *cache;
    let ghost fv = idents_view(fields@);
    let ghost g1 = t1;
    let ghost g2 = t2;
    let mut local_env: Environment = IndexMap::new();
    let d1 = match field_deps(cache, &t1, env1) {
        Ok(d) => d,
        Err(e) => return Err(e),
    };
    let d2 = match field_deps(cache, &t2, env2) {
        Ok(d) => d,
        Err(e) => return Err(e),
    };
    let combined = d1.union(d2);
    let ghost l0 = local_env;
    let s1 = match saturate_term(t1, cache, &mut local_env, env1, fields) {
        Ok(s) => s,
        Err(e) => return Err(e),
    };
    let ghost c1 = *cache;
    let ghost l1 = local_env;
    let s2 = match saturate_term(t2, cache, &mut local_env, env2, fields) {
        Ok(s) => s,
        Err(e) => return Err(e),
    };
    let ghost c2 = *cache;
    proof {
        lemma_saturates_mono(t1, s1, *env1, c1, l1, c2, local_env, fv);
    }
    let body = RichTerm::from_term(Term::Op2(BinaryOp::Merge(merge_label), s1, s2));
    let n = cache.add(
        Closure { body, env: local_env },
        IdentKind::Record,
        BindingType::Revertible(combined),
    );
    let ghost c3 = *cache;
    let ghost env0 = *env;
    env.insert(Ident::Generated(n), n);
    proof {
        let e = c3.elems@[n as int];
        lemma_saturates_mono(t1, s1, *env1, c2, closure_env(e), c3, closure_env(e), fv);
        lemma_saturates_mono(t2, s2, *env2, c2, closure_env(e), c3, closure_env(e), fv);
        lemma_var_lookup(g1, *env1, c0);
        lemma_var_lookup(g2, *env2, c0);
        assert forall|k: IdentView, v: usize|
            has_entry(env0@, k, v) && k == IdentView::Generated(v) implies #[trigger] has_entry(env@, k, v) by {
            lemma_insert_keeps(env0, *env, n, k, v);
        }
        lemma_fresh_bound(env0, *env, n);
        lemma_insert_fresh(env0, *env, c0, n);
        lemma_adds_one_fits(env0, *env, c0, *cache, n);
        assert forall|f: IdentView|
            term_admits(g1, *env1, c3, f) == term_admits(g1, *env1, c0, f) && term_admits(
                g2,
                *env2,
                c3,
                f,
            ) == term_admits(g2, *env2, c0, f) by {}
    }
    Ok(RichTerm::from_term(Term::Var(Ident::Generated(n))))
}

proof fn lemma_var_lookup(t: RichTerm, env: Environment, cache: Cache)
    requires
        env_in(env, cache),
    ensures
        match *t.term {
            Term::Var(x) => env.contains(x@) ==> env_lookup(env, x@) < cache.elems@.len(),
            _ => true,
        },
{
    if let Term::Var(x) = *t.term {
        if env.contains(x@) {
            lemma_lookup_in(env, cache, x@);
        }
    }
}

proof fn lemma_fresh_bound(env0: Environment, env: Environment, n: usize)
    requires
        env0.wf(),
        inserted(env0@, env@, IdentView::Generated(n), n),
    ensures
        has_entry(env@, IdentView::Generated(n), n),
{
    if env0.keys().contains(IdentView::Generated(n)) {
        let p = choose|p: int|
            0 <= p < env0@.len() && (#[trigger] env0@[p]).0@ == IdentView::Generated(n) && env@.len()
                == env0@.len() && env@[p].0@ == IdentView::Generated(n) && env@[p].1 == n
                && forall|i: int| 0 <= i < env0@.len() && i != p ==> env@[i] == env0@[i];
        assert(has_entry(env@, IdentView::Generated(n), n));
    } else {
        assert(env@[env@.len() - 1].0@ == IdentView::Generated(n));
        assert(has_entry(env@, IdentView::Generated(n), n));
    }
}

/// The documentation of a merged field: the first one present.
pub open spec fn merged_doc(doc1: Option<String>, doc2: Option<String>) -> Option<String> {
    match doc1 {
        Some(_) => doc1,
        None => doc2,
    }
}

pub fn merge_doc(doc1: Option<String>, doc2: Option<String>) -> (r: Option<String>)
    ensures
        r == merged_doc(doc1, doc2),
{
    match doc1 {
        Some(d) => Some(d),
        None => doc2,
    }
}

/// Which value a merged field takes.
pub enum ValueChoice {
    Neither,
    Left,
    Right,
    Both,
}

/// Values and priorities decide: a lone value is kept, a strictly higher priority wins without
/// merging, and two values of equal priority are merged.
pub open spec fn value_choice(f1: Field, f2: Field) -> ValueChoice {
    let p1 = f1.metadata.priority;
    let p2 = f2.metadata.priority;
    match (f1.value, f2.value) {
        (Some(_), Some(_)) => if priority_eq(p1, p2) {
            ValueChoice::Both
        } else if priority_lt(p2, p1) {
            ValueChoice::Left
        } else {
            ValueChoice::Right
        },
        (Some(_), None) => ValueChoice::Left,
        (None, Some(_)) => ValueChoice::Right,
        (None, None) => ValueChoice::Neither,
    }
}

/// The priority of a merged field: that of the side whose value is kept.
pub open spec fn merged_priority(f1: Field, f2: Field) -> MergePriority {
    match value_choice(f1, f2) {
        ValueChoice::Neither => MergePriority::Neutral,
        ValueChoice::Right => f2.metadata.priority,
        _ => f1.metadata.priority,
    }
}

/// The type annotation of a merged field: the first one present.
pub open spec fn merged_types(f1: Field, f2: Field) -> Option<LabeledType> {
    match f1.metadata.annotation.types {
        Some(_) => f1.metadata.annotation.types,
        None => f2.metadata.annotation.types,
    }
}

/// The contract annotations of a merged field: the left ones, the right type annotation where
/// both sides have one, then the right ones.
pub open spec fn merged_contracts(f1: Field, f2: Field) -> Seq<LabeledType> {
    let a1 = f1.metadata.annotation;
    let a2 = f2.metadata.annotation;
    let demoted = match (a1.types, a2.types) {
        (Some(_), Some(t2)) => seq![t2],
        _ => Seq::empty(),
    };
    a1.contracts@ + demoted + a2.contracts@
}

/// What must be bound for the fields to merge: the values that are kept, and the pending
/// contracts.
pub open spec fn fields_bound_in(f1: Field, f2: Field, env1: Environment, env2: Environment) -> bool {
    &&& match value_choice(f1, f2) {
        ValueChoice::Both => bound_in(f1.value.unwrap(), env1) && bound_in(f2.value.unwrap(), env2),
        ValueChoice::Left => bound_in(f1.value.unwrap(), env1),
        ValueChoice::Right => bound_in(f2.value.unwrap(), env2),
        ValueChoice::Neither => true,
    }
    &&& contracts_bound_in(f1.pending_contracts@, env1)
    &&& contracts_bound_in(f2.pending_contracts@, env2)
}

/// `r` is the merge of the fields `f1` and `f2`, with values and pending contracts bound in `env`.
pub open spec fn fields_merged(
    f1: Field,
    f2: Field,
    r: Field,
    env1: Environment,
    env2: Environment,
    label: MergeLabel,
    cache: Cache,
    env: Environment,
    fields: Seq<IdentView>,
) -> bool {
    let m1 = f1.metadata;
    let m2 = f2.metadata;
    let n1 = f1.pending_contracts@.len();
    &&& r.metadata.doc == merged_doc(m1.doc, m2.doc)
    &&& r.metadata.opt == (m1.opt && m2.opt)
    &&& r.metadata.not_exported == (m1.not_exported || m2.not_exported)
    &&& r.metadata.priority == merged_priority(f1, f2)
    &&& r.metadata.annotation.types == merged_types(f1, f2)
    &&& r.metadata.annotation.contracts@ == merged_contracts(f1, f2)
    &&& match value_choice(f1, f2) {
        ValueChoice::Both => r.value matches Some(v) && merged_into(
            f1.value.unwrap(),
            f2.value.unwrap(),
            v,
            env1,
            env2,
            label,
            cache,
            env,
            fields,
        ),
        ValueChoice::Left => r.value matches Some(v) && reverts_to(f1.value.unwrap(), v, env1, cache, env),
        ValueChoice::Right => r.value matches Some(v) && reverts_to(f2.value.unwrap(), v, env2, cache, env),
        ValueChoice::Neither => r.value is None,
    }
    &&& r.pending_contracts@.len() == n1 + f2.pending_contracts@.len()
    &&& contracts_revert_to(f1.pending_contracts@, r.pending_contracts@.take(n1 as int), env1, cache, env)
    &&& contracts_revert_to(f2.pending_contracts@, r.pending_contracts@.skip(n1 as int), env2, cache, env)
}

/// `e` reports, as a variable that its environment does not bind, a value that the merge of `f1`
/// and `f2` keeps or one of their pending contracts.
pub open spec fn fields_unbound_error(
    e: EvalError,
    f1: Field,
    f2: Field,
    env1: Environment,
    env2: Environment,
) -> bool {
    ||| match value_choice(f1, f2) {
        ValueChoice::Both => unbound_error(e, f1.value.unwrap(), env1) || unbound_error(
            e,
            f2.value.unwrap(),
            env2,
        ),
        ValueChoice::Left => unbound_error(e, f1.value.unwrap(), env1),
        ValueChoice::Right => unbound_error(e, f2.value.unwrap(), env2),
        ValueChoice::Neither => false,
    }
    ||| contracts_unbound_error(e, f1.pending_contracts@, env1)
    ||| contracts_unbound_error(e, f2.pending_contracts@, env2)
}

/// Merging `f1` and `f2` binds nothing: no two values are merged, the value kept (if any) and the
/// pending contracts are constants.
pub open spec fn fields_merge_binds_nothing(f1: Field, f2: Field) -> bool {
    &&& match value_choice(f1, f2) {
        ValueChoice::Both => false,
        ValueChoice::Left => !is_var(f1.value.unwrap()),
        ValueChoice::Right => !is_var(f2.value.unwrap()),
        ValueChoice::Neither => true,
    }
    &&& contracts_constant(f1.pending_contracts@)
    &&& contracts_constant(f2.pending_contracts@)
}

/// `t` is a generated variable numbered `lo` or above.
pub open spec fn fresh_var(t: RichTerm, lo: int) -> bool {
    match *t.term {
        Term::Var(Ident::Generated(n)) => lo <= n,
        _ => false,
    }
}

/// Merges two fields, whose values and pending contracts live in `env1` and `env2`, into a field
/// whose value and pending contracts live in `env_final`. `fields` are the keys of the merged
/// record, over which values that are merged are saturated.
pub fn merge_fields(
    cache: &mut Cache,
    merge_label: MergeLabel,
    field1: Field,
    env1: &Environment,
    field2: Field,
    env2: &Environment,
    env_final: &mut Environment,
    fields: &Vec<Ident>,
) -> (r: Result<Field, EvalError>)
    requires
        env_in(*env1, *old(cache)),
        env_in(*env2, *old(cache)),
        env_fits(*old(env_final), *old(cache)),
    ensures
        extends(*old(cache), *final(cache)),
        final(env_final).wf(),
        env_fits(*final(env_final), *final(cache)),
        env_grows(
            *old(env_final),
            *final(env_final),
            old(cache).elems@.len() as int,
            final(cache).elems@.len() as int,
        ),
        fields_merge_binds_nothing(field1, field2) ==> *final(cache) == *old(cache)
            && *final(env_final) == *old(env_final),
        fields_bound_in(field1, field2, *env1, *env2) <==> r is Ok,
        r matches Err(e) ==> fields_unbound_error(e, field1, field2, *env1, *env2),
        value_choice(field1, field2) is Both && r is Ok ==> (r matches Ok(f) && f.value is Some
            && fresh_var(f.value.unwrap(), old(cache).elems@.len() as int)),
        r matches Ok(f) ==> fields_merged(
            field1,
            field2,
            f,
            *env1,
            *env2,
            merge_label,
            *final(cache),
            *final(env_final),
            idents_view(fields@),
        ),
{
    let ghost f1 = field1;
    let ghost f2 = field2;
    let ghost c0 = *cache;
    let ghost e0 = *env_final;
    let ghost fv = idents_view(fields@);
    let Field { metadata: metadata1, value: value1, pending_contracts: pending_contracts1 } = field1;
    let Field { metadata: metadata2, value: value2, pending_contracts: pending_contracts2 } = field2;
    let p1 = metadata1.priority;
    let p2 = metadata2.priority;
    let (value, priority) = match (value1, value2) {
        (Some(t1), Some(t2)) => {
            if p1.equals(&p2) {
                match fields_merge_closurize(cache, merge_label, env_final, t1, env1, t2, env2, fields) {
                    Ok(v) => (Some(v), p1),
                    Err(e) => return Err(e),
                }
            } else if p2.less_than(&p1) {
                match revert_closurize_term(t1, cache, env_final, env1) {
                    Ok(v) => (Some(v), p1),
                    Err(e) => return Err(e),
                }
            } else {
                match revert_closurize_term(t2, cache, env_final, env2) {
                    Ok(v) => (Some(v), p2),
                    Err(e) => return Err(e),
                }
            }
        },
        (Some(t1), None) => match revert_closurize_term(t1, cache, env_final, env1) {
            Ok(v) => (Some(v), p1),
            Err(e) => return Err(e),
        },
        (None, Some(t2)) => match revert_closurize_term(t2, cache, env_final, env2) {
            Ok(v) => (Some(v), p2),
            Err(e) => return Err(e),
        },
        (None, None) => (None, MergePriority::Neutral),
    };
    let ghost c1 = *cache;
    let ghost e1 = *env_final;
    let mut pending_contracts = match revert_closurize_contracts(pending_contracts1, cache, env_final, env1) {
        Ok(p) => p,
        Err(e) => return Err(e),
    };
    let ghost c2 = *cache;
    let ghost e2 = *env_final;
    let mut pending2 = match revert_closurize_contracts(pending_contracts2, cache, env_final, env2) {
        Ok(p) => p,
        Err(e) => return Err(e),
    };
    let ghost pc1 = pending_contracts@;
    let ghost pc2 = pending2@;
    pending_contracts.append(&mut pending2);

    let TypeAnnotation { types: types1, contracts: mut contracts1 } = metadata1.annotation;
    let TypeAnnotation { types: types2, contracts: mut contracts2 } = metadata2.annotation;
    let types = match (types1, types2) {
        (Some(ty1), Some(ty2)) => {
            contracts1.push(ty2);
            Some(ty1)
        },
        (Some(ty1), None) => Some(ty1),
        (None, ty2) => ty2,
    };
    contracts1.append(&mut contracts2);
    let metadata = FieldMetadata {
        doc: merge_doc(metadata1.doc, metadata2.doc),
        annotation: TypeAnnotation { types, contracts: contracts1 },
        opt: metadata1.opt && metadata2.opt,
        not_exported: metadata1.not_exported || metadata2.not_exported,
        priority,
    };
    proof {
        let c3 = *cache;
        let e3 = *env_final;
        lemma_grows_trans(
            e0,
            e1,
            e2,
            c0.elems@.len() as int,
            c1.elems@.len() as int,
            c1.elems@.len() as int,
            c2.elems@.len() as int,
        );
        lemma_grows_trans(
            e0,
            e2,
            e3,
            c0.elems@.len() as int,
            c2.elems@.len() as int,
            c2.elems@.len() as int,
            c3.elems@.len() as int,
        );
        match value_choice(f1, f2) {
            ValueChoice::Both => {
                lemma_merged_mono(
                    f1.value.unwrap(),
                    f2.value.unwrap(),
                    value.unwrap(),
                    *env1,
                    *env2,
                    merge_label,
                    c1,
                    e1,
                    c3,
                    e3,
                    fv,
                );
            },
            ValueChoice::Left => {
                lemma_reverts_mono(f1.value.unwrap(), value.unwrap(), *env1, c1, e1, c3, e3);
            },
            ValueChoice::Right => {
                lemma_reverts_mono(f2.value.unwrap(), value.unwrap(), *env2, c1, e1, c3, e3);
            },
            ValueChoice::Neither => {},
        }
        lemma_contracts_mono(f1.pending_contracts@, pc1, *env1, c2, e2, c3, e3);
        assert(pending_contracts@.take(pc1.len() as int) =~= pc1);
        assert(pending_contracts@.skip(pc1.len() as int) =~= pc2);
        assert(metadata.annotation.contracts@ =~= merged_contracts(f1, f2));
    }
    Ok(Field { metadata, value, pending_contracts })
}

/// `r` is a generated variable bound in `env` to an element of `cache` that holds `t` in the
/// environment `with_env`.
pub open spec fn closurized(
    t: Term,
    pos: TermPos,
    r: RichTerm,
    with_env: Environment,
    cache: Cache,
    env: Environment,
) -> bool {
    &&& r.pos == pos.inherited()
    &&& *r.term matches Term::Var(Ident::Generated(n)) && n < cache.elems@.len() && has_entry(
        env@,
        IdentView::Generated(n),
        n,
    ) && *cache.elems@[n as int].closure.body.term == t && cache.elems@[n as int].closure.body.pos
        == pos && cache.elems@[n as int].closure.env == with_env
}

/// Binds, in `env`, a generated variable to a new cache element holding `t` in `with_env`.
fn closurize(t: RichTerm, cache: &mut Cache, env: &mut Environment, with_env: Environment) -> (r:
    RichTerm)
    requires
        old(env).wf(),
    ensures
        extends(*old(cache), *final(cache)),
        final(env).wf(),
        keeps_fresh(*old(env), *final(env)),
        closurized(*t.term, t.pos, r, with_env, *final(cache), *final(env)),
{
    let pos = t.pos;
    let n = cache.add(Closure { body: t, env: with_env }, IdentKind::Record, BindingType::Normal);
    let ghost env0 = *env;
    env.insert(Ident::Generated(n), n);
    proof {
        assert forall|k: IdentView, v: usize|
            has_entry(env0@, k, v) && k == IdentView::Generated(v) implies #[trigger] has_entry(env@, k, v) by {
            lemma_insert_keeps(env0, *env, n, k, v);
        }
        lemma_fresh_bound(env0, *env, n);
    }
    RichTerm::new(Term::Var(Ident::Generated(n)), pos.into_inherited())
}

/// The name of the equality contract of the standard library, which user code cannot shadow.
pub open spec fn is_contract_equal(t: RichTerm) -> bool {
    *t.term matches Term::Var(x) && x@ == IdentView::Named("$stdlib_contract_equal"@)
}

/// `c` is the assertion that the arrays `a1` and `a2` are equal: the standard library's equality
/// contract built from the first, applied to the second, blamed through a label at `span` that
/// says that unequal arrays cannot be merged.
pub open spec fn array_lowered(
    a1: Term,
    pos1: TermPos,
    env1: Environment,
    a2: Term,
    pos2: TermPos,
    env2: Environment,
    pos_op: TermPos,
    span: Span,
    c: Closure,
    cache: Cache,
) -> bool {
    &&& c.body.pos == pos_op
    &&& match *c.body.term {
        Term::App(f, x2) => closurized(a2, pos2, x2, env2, cache, c.env) && match *f.term {
            Term::Op2(BinaryOp::Assume, eq, lbl) => match (*eq.term, *lbl.term) {
                (Term::App(g, x1), Term::Lbl(l)) => {
                    &&& is_contract_equal(g)
                    &&& closurized(a1, pos1, x1, env1, cache, c.env)
                    &&& l.span == span
                    &&& l.diagnostic_message is Some
                    &&& l.diagnostic_message.unwrap()@ == "cannot merge unequal arrays"@
                    &&& strings_view(l.diagnostic_notes@) == seq![UNEQUAL_ARRAYS_NOTE@]
                    &&& l.types@ == "contract.Equal some_array"@
                    &&& l.arg_idx is None
                    &&& l.polarity
                },
                _ => false,
            },
            _ => false,
        },
        _ => false,
    }
}

/// The explanation that the label of a lowered array merge carries.
pub const UNEQUAL_ARRAYS_NOTE: &'static str = "This equality contract was auto-generated from a merge operation on two arrays. Arrays can only be merged if they are equal.";

/// The notes of the label that blames a record contract for extra fields.
pub const MISSPELLED_NOTE: &'static str = "Have you misspelled a field?";

pub const TOO_STRICT_NOTE: &'static str = "The record contract might also be too strict. By default, record contracts exclude any field which is not listed.\nAppend `, ..` at the end of the record contract, as in `{some_field | SomeContract, ..}`, to make it accept extra fields.";

/// Merges two arrays by asserting that they are equal: the one merge of arrays that keeps merging
/// idempotent.
pub fn lower_array_merge(
    cache: &mut Cache,
    a1: RichTerm,
    env1: Environment,
    a2: RichTerm,
    env2: Environment,
    pos_op: TermPos,
    span: Span,
) -> (r: Closure)
    ensures
        extends(*old(cache), *final(cache)),
        array_lowered(*a1.term, a1.pos, env1, *a2.term, a2.pos, env2, pos_op, span, r, *final(cache)),
{
    let ghost g1 = a1;
    let ghost g2 = a2;
    let ghost e1 = env1;
    let ghost e2 = env2;
    let mut env: Environment = IndexMap::new();
    let t1 = closurize(a1, cache, &mut env, env1);
    let ghost c1 = *cache;
    let ghost v1 = env;
    let t2 = closurize(a2, cache, &mut env, env2);
    proof {
        if let Term::Var(Ident::Generated(n)) = *t1.term {
            assert(has_entry(env@, IdentView::Generated(n), n));
            assert(cache.elems@[n as int] == c1.elems@[n as int]);
        }
    }
    // Shown in reports only: the contract that the assertion stands for.
    let label = Label {
        types: "contract.Equal some_array".to_string(),
        span,
        diagnostic_message: None,
        diagnostic_notes: Vec::new(),
        arg_idx: None,
        polarity: true,
    }.with_diagnostic_message("cannot merge unequal arrays".to_string()).append_diagnostic_note(
        UNEQUAL_ARRAYS_NOTE.to_string(),
    );
    proof {
        assert(strings_view(label.diagnostic_notes@) =~= seq![UNEQUAL_ARRAYS_NOTE@]);
    }
    let eq_contract = RichTerm::from_term(
        Term::App(RichTerm::from_term(Term::Var(Ident::named("$stdlib_contract_equal"))), t1),
    );
    let result = RichTerm::new(
        Term::App(
            RichTerm::from_term(
                Term::Op2(BinaryOp::Assume, eq_contract, RichTerm::from_term(Term::Lbl(label))),
            ),
            t2,
        ),
        pos_op,
    );
    Closure { body: result, env }
}

proof fn lemma_fields_merged_mono(
    f1: Field,
    f2: Field,
    r: Field,
    env1: Environment,
    env2: Environment,
    label: MergeLabel,
    c1: Cache,
    e1: Environment,
    c2: Cache,
    e2: Environment,
    fields: Seq<IdentView>,
)
    requires
        fields_merged(f1, f2, r, env1, env2, label, c1, e1, fields),
        env_in(env1, c1),
        env_in(env2, c1),
        extends(c1, c2),
        keeps_fresh(e1, e2),
    ensures
        fields_merged(f1, f2, r, env1, env2, label, c2, e2, fields),
{
    match value_choice(f1, f2) {
        ValueChoice::Both => {
            lemma_merged_mono(
                f1.value.unwrap(),
                f2.value.unwrap(),
                r.value.unwrap(),
                env1,
                env2,
                label,
                c1,
                e1,
                c2,
                e2,
                fields,
            );
        },
        ValueChoice::Left => {
            lemma_reverts_mono(f1.value.unwrap(), r.value.unwrap(), env1, c1, e1, c2, e2);
        },
        ValueChoice::Right => {
            lemma_reverts_mono(f2.value.unwrap(), r.value.unwrap(), env2, c1, e1, c2, e2);
        },
        ValueChoice::Neither => {},
    }
    let n1 = f1.pending_contracts@.len() as int;
    lemma_contracts_mono(
        f1.pending_contracts@,
        r.pending_contracts@.take(n1),
        env1,
        c1,
        e1,
        c2,
        e2,
    );
    lemma_contracts_mono(
        f2.pending_contracts@,
        r.pending_contracts@.skip(n1),
        env2,
        c1,
        e1,
        c2,
        e2,
    );
}

/// `f` is the field of the merged record at key `k`: the merge of the fields of both records
/// where both have the key, else the field of the one that has it, reverted.
pub open spec fn record_entry(
    k: IdentView,
    f: Field,
    m1: Seq<(Ident, Field)>,
    m2: Seq<(Ident, Field)>,
    env1: Environment,
    env2: Environment,
    label: MergeLabel,
    cache: Cache,
    env: Environment,
    fields: Seq<IdentView>,
) -> bool {
    if keys_of(m1).contains(k) && keys_of(m2).contains(k) {
        exists|f1: Field, f2: Field|
            #![trigger has_entry(m1, k, f1), has_entry(m2, k, f2)]
            has_entry(m1, k, f1) && has_entry(m2, k, f2) && fields_merged(
                f1,
                f2,
                f,
                env1,
                env2,
                label,
                cache,
                env,
                fields,
            )
    } else if keys_of(m1).contains(k) {
        exists|f1: Field| #[trigger] has_entry(m1, k, f1) && field_reverts_to(f1, f, env1, cache, env)
    } else {
        exists|f2: Field| #[trigger] has_entry(m2, k, f2) && field_reverts_to(f2, f, env2, cache, env)
    }
}

proof fn lemma_record_entry_mono(
    k: IdentView,
    f: Field,
    m1: Seq<(Ident, Field)>,
    m2: Seq<(Ident, Field)>,
    env1: Environment,
    env2: Environment,
    label: MergeLabel,
    c1: Cache,
    e1: Environment,
    c2: Cache,
    e2: Environment,
    fields: Seq<IdentView>,
)
    requires
        record_entry(k, f, m1, m2, env1, env2, label, c1, e1, fields),
        env_in(env1, c1),
        env_in(env2, c1),
        extends(c1, c2),
        keeps_fresh(e1, e2),
    ensures
        record_entry(k, f, m1, m2, env1, env2, label, c2, e2, fields),
{
    if keys_of(m1).contains(k) && keys_of(m2).contains(k) {
        let (f1, f2) = choose|f1: Field, f2: Field|
            #![trigger has_entry(m1, k, f1), has_entry(m2, k, f2)]
            has_entry(m1, k, f1) && has_entry(m2, k, f2) && fields_merged(
                f1,
                f2,
                f,
                env1,
                env2,
                label,
                c1,
                e1,
                fields,
            );
        lemma_fields_merged_mono(f1, f2, f, env1, env2, label, c1, e1, c2, e2, fields);
    } else if keys_of(m1).contains(k) {
        let f1 = choose|f1: Field| #[trigger] has_entry(m1, k, f1) && field_reverts_to(f1, f, env1, c1, e1);
        lemma_field_mono(f1, f, env1, c1, e1, c2, e2);
    } else {
        let f2 = choose|f2: Field| #[trigger] has_entry(m2, k, f2) && field_reverts_to(f2, f, env2, c1, e1);
        lemma_field_mono(f2, f, env2, c1, e1, c2, e2);
    }
}

/// Every field that merging two records reads is bound: the fields of one record only, and the
/// pairs of fields under a common key.
pub open spec fn record_fields_bound(
    m1: Seq<(Ident, Field)>,
    m2: Seq<(Ident, Field)>,
    env1: Environment,
    env2: Environment,
) -> bool {
    &&& forall|j: int|
        0 <= j < m1.len() && !keys_of(m2).contains((#[trigger] m1[j]).0@) ==> field_bound_in(
            m1[j].1,
            env1,
        )
    &&& forall|j: int|
        0 <= j < m2.len() && !keys_of(m1).contains((#[trigger] m2[j]).0@) ==> field_bound_in(
            m2[j].1,
            env2,
        )
    &&& forall|j: int, i: int|
        0 <= j < m1.len() && 0 <= i < m2.len() && (#[trigger] m1[j]).0@ == (#[trigger] m2[i]).0@
            ==> fields_bound_in(m1[j].1, m2[i].1, env1, env2)
}

/// Merging two records binds nothing: the fields of one record only are constant, and so are
/// the pairs of fields under a common key, none of which merges two values.
pub open spec fn record_binds_nothing(m1: Seq<(Ident, Field)>, m2: Seq<(Ident, Field)>) -> bool {
    &&& forall|j: int|
        0 <= j < m1.len() && !keys_of(m2).contains((#[trigger] m1[j]).0@) ==> field_constant(m1[j].1)
    &&& forall|j: int|
        0 <= j < m2.len() && !keys_of(m1).contains((#[trigger] m2[j]).0@) ==> field_constant(m2[j].1)
    &&& forall|j: int, i: int|
        0 <= j < m1.len() && 0 <= i < m2.len() && (#[trigger] m1[j]).0@ == (#[trigger] m2[i]).0@
            ==> fields_merge_binds_nothing(m1[j].1, m2[i].1)
}

/// The keys of the merge of two records: those of the first only, the common ones, those of the
/// second only.
pub open spec fn merged_keys(k1: Seq<IdentView>, k2: Seq<IdentView>) -> Seq<IdentView> {
    keys_filtered(k1, k2, false) + keys_filtered(k1, k2, true) + keys_filtered(k2, k1, false)
}

/// `c` is the recursive record that merging the records `r1` and `r2` gives, at `pos`.
pub open spec fn record_merged(
    r1: RecordData,
    r2: RecordData,
    env1: Environment,
    env2: Environment,
    label: MergeLabel,
    pos: TermPos,
    c: Closure,
    cache: Cache,
) -> bool {
    let m1 = r1.fields@;
    let m2 = r2.fields@;
    let all = merged_keys(keys_of(m1), keys_of(m2));
    &&& c.body.pos == pos
    &&& match *c.body.term {
        Term::RecRecord(rd) => {
            &&& rd.attrs.open == (r1.attrs.open && r2.attrs.open)
            &&& rd.sealed_tail is None
            &&& rd.fields.wf()
            &&& rd.fields.keys() == all
            &&& forall|j: int|
                0 <= j < rd.fields@.len() ==> record_entry(
                    (#[trigger] rd.fields@[j]).0@,
                    rd.fields@[j].1,
                    m1,
                    m2,
                    env1,
                    env2,
                    label,
                    cache,
                    c.env,
                    all,
                )
        },
        _ => false,
    }
}

/// A name between backquotes.
pub open spec fn quoted(k: IdentView) -> Seq<char> {
    seq!['`'] + ident_text(k) + seq!['`']
}

/// The names `keys` between backquotes, separated by commas.
pub open spec fn quoted_list(keys: Seq<IdentView>) -> Seq<char>
    decreases keys.len(),
{
    if keys.len() == 0 {
        Seq::empty()
    } else if keys.len() == 1 {
        quoted(keys[0])
    } else {
        quoted_list(keys.drop_last()) + seq![','] + quoted(keys.last())
    }
}

/// The diagnostic of a record contract that meets fields it does not list.
pub open spec fn extra_fields_message(keys: Seq<IdentView>) -> Seq<char> {
    "extra field"@ + (if keys.len() == 1 {
        Seq::empty()
    } else {
        seq!['s']
    }) + seq![' '] + quoted_list(keys)
}

fn extra_fields_text(names: &Vec<Ident>) -> (r: String)
    ensures
        r@ == extra_fields_message(idents_view(names@)),
{
    let ghost kv = idents_view(names@);
    let mut list = String::new();
    let mut i: usize = 0;
    while i < names.len()
        invariant
            i <= names@.len(),
            kv == idents_view(names@),
            list@ == quoted_list(kv.take(i as int)),
        decreases names.len() - i,
    {
        if i > 0 {
            list.append(",");
        }
        list.append("`");
        list = list.concat(names[i].text().as_str());
        list.append("`");
        proof {
            reveal_strlit(",");
            reveal_strlit("`");
            let t = kv.take(i as int + 1);
            assert(t.drop_last() =~= kv.take(i as int));
            assert(t.last() == names@[i as int]@);
            if i == 0 {
                assert(kv.take(0) =~= Seq::<IdentView>::empty());
                assert(list@ =~= quoted_list(t));
            } else {
                assert(list@ =~= quoted_list(t));
            }
        }
        i = i + 1;
    }
    proof {
        assert(kv.take(names@.len() as int) =~= kv);
    }
    let mut msg = String::new();
    msg.append("extra field");
    if names.len() != 1 {
        msg.append("s");
    }
    msg.append(" ");
    let r = msg.concat(list.as_str());
    proof {
        reveal_strlit("extra field");
        reveal_strlit("s");
        reveal_strlit(" ");
        assert(r@ =~= extra_fields_message(kv));
    }
    r
}

/// `e` reports an attempt to merge a record sealed by `label`, with the evaluator's call stack.
pub open spec fn sealed_error(label: Label, e: EvalError, cache: Cache, stack: CallStack) -> bool {
    match e {
        EvalError::IllegalPolymorphicTailAccess { action, evaluated_arg, label: l, call_stack } => {
            &&& l == label
            &&& evaluated_arg == guarded_arg(label, cache)
            &&& call_stack == stack
        },
        _ => false,
    }
}

/// A closed record contract meets fields of the value that it does not list.
pub open spec fn rejects_extra_fields(mode: MergeMode, r1: RecordData, r2: RecordData) -> bool {
    &&& mode is Contract
    &&& !r2.attrs.open
    &&& keys_filtered(r1.fields.keys(), r2.fields.keys(), false).len() > 0
}

/// `e` blames the contract of `mode` for the fields `extra`, naming them.
pub open spec fn extra_fields_error(
    mode: MergeMode,
    extra: Seq<IdentView>,
    e: EvalError,
    cache: Cache,
) -> bool {
    match (mode, e) {
        (MergeMode::Contract(l), EvalError::BlameError { evaluated_arg, label, call_stack }) => {
            &&& label == (Label {
                diagnostic_message: label.diagnostic_message,
                diagnostic_notes: label.diagnostic_notes,
                ..l
            })
            &&& evaluated_arg == guarded_arg(label, cache)
            &&& label.diagnostic_message is Some
            &&& label.diagnostic_message.unwrap()@ == extra_fields_message(extra)
            &&& strings_view(label.diagnostic_notes@) == seq![MISSPELLED_NOTE@, TOO_STRICT_NOTE@]
            &&& call_stack.frames@.len() == 0
        },
        _ => false,
    }
}

/// The sealed tail that forbids merging `r1` and `r2`: the first one's, else the second one's.
pub open spec fn first_sealed_tail(r1: RecordData, r2: RecordData) -> Option<crate::term::SealedTail> {
    match r1.sealed_tail {
        Some(_) => r1.sealed_tail,
        None => r2.sealed_tail,
    }
}

proof fn lemma_unique_key<V>(s: Seq<(Ident, V)>, a: int, b: int)
    requires
        keys_of(s).no_duplicates(),
        0 <= a < s.len(),
        0 <= b < s.len(),
        s[a].0@ == s[b].0@,
    ensures
        a == b,
{
    assert(keys_of(s)[a] == s[a].0@);
    assert(keys_of(s)[b] == s[b].0@);
}

proof fn lemma_key_of_entry(s: Seq<(Ident, Field)>, e: (Ident, Field))
    requires
        s.contains(e),
    ensures
        keys_of(s).contains(e.0@),
        exists|j: int| 0 <= j < s.len() && #[trigger] s[j] == e,
{
    let j = choose|j: int| 0 <= j < s.len() && s[j] == e;
    assert(keys_of(s)[j] == e.0@);
}

/// What merging the records `r1` and `r2` gives, with the cache and the call stack before and
/// after.
pub open spec fn record_outcome(
    r1: RecordData,
    r2: RecordData,
    env1: Environment,
    env2: Environment,
    pos1: TermPos,
    pos_op: TermPos,
    mode: MergeMode,
    r: Result<Closure, EvalError>,
    cache0: Cache,
    cache: Cache,
    stack0: CallStack,
    stack: CallStack,
) -> bool {
    &&& first_sealed_tail(r1, r2) matches Some(t) ==> stack.frames@.len() == 0 && (r matches Err(e)
        && sealed_error(t.label, e, cache0, stack0))
    &&& first_sealed_tail(r1, r2) is None ==> stack == stack0
    &&& first_sealed_tail(r1, r2) is None && rejects_extra_fields(mode, r1, r2) ==> (r matches Err(e)
        && extra_fields_error(
        mode,
        keys_filtered(r1.fields.keys(), r2.fields.keys(), false),
        e,
        cache0,
    ))
    &&& first_sealed_tail(r1, r2) is None && !rejects_extra_fields(mode, r1, r2) && record_fields_bound(
        r1.fields@,
        r2.fields@,
        env1,
        env2,
    ) ==> r is Ok
    &&& r is Ok ==> record_fields_bound(r1.fields@, r2.fields@, env1, env2)
    &&& r matches Ok(c) ==> c.env.wf() && fresh_bindings(
        c.env,
        0,
        cache0.elems@.len() as int,
        cache.elems@.len() as int,
    )
    &&& r is Ok && record_binds_nothing(r1.fields@, r2.fields@) ==> cache == cache0 && (r matches Ok(
        c,
    ) && c.env@.len() == 0)
    &&& r matches Ok(c) ==> record_merged(
        r1,
        r2,
        env1,
        env2,
        MergeLabel { span: mode.label_span() },
        if mode is Standard {
            pos_op.inherited()
        } else {
            pos1.inherited()
        },
        c,
        cache,
    )
}

/// Merges two records: fails on a sealed tail, and on fields that a closed record contract does
/// not list; otherwise builds the recursive record of all the keys, each field reverted into, or
/// merged into, a new environment.
pub fn merge_records(
    cache: &mut Cache,
    r1: RecordData,
    env1: Environment,
    r2: RecordData,
    env2: Environment,
    pos1: TermPos,
    pos_op: TermPos,
    mode: MergeMode,
    call_stack: &mut CallStack,
) -> (r: Result<Closure, EvalError>)
    requires
        env_in(env1, *old(cache)),
        env_in(env2, *old(cache)),
        r1.fields.wf(),
        r2.fields.wf(),
    ensures
        extends(*old(cache), *final(cache)),
        record_outcome(
            r1,
            r2,
            env1,
            env2,
            pos1,
            pos_op,
            mode,
            r,
            *old(cache),
            *final(cache),
            *old(call_stack),
            *final(call_stack),
        ),
{
    let ghost rd1 = r1;
    let ghost rd2 = r2;
    let ghost m1 = r1.fields@;
    let ghost m2 = r2.fields@;
    let ghost k1 = keys_of(m1);
    let ghost k2 = keys_of(m2);
    let ghost c0 = *cache;
    let ghost cs0 = *call_stack;
    let RecordData { fields: fields1, attrs: attrs1, sealed_tail: tail1 } = r1;
    let RecordData { fields: fields2, attrs: attrs2, sealed_tail: tail2 } = r2;
    let tail = match tail1 {
        Some(t) => Some(t),
        None => tail2,
    };
    if let Some(t) = tail {
        let evaluated_arg = get_evaluated_arg(&t.label, cache);
        return Err(
            EvalError::IllegalPolymorphicTailAccess {
                action: IllegalPolymorphicTailAction::Merge,
                evaluated_arg,
                label: t.label,
                call_stack: call_stack.take(),
            },
        );
    }
    let SplitResult { left, center, right } = split(fields1, fields2);
    let ghost lk = keys_filtered(k1, k2, false);
    let ghost ck = keys_filtered(k1, k2, true);
    let ghost rk = keys_filtered(k2, k1, false);
    proof {
        lemma_filter_no_duplicates(k1, membership(k2, false));
        lemma_filter_no_duplicates(k1, membership(k2, true));
        lemma_filter_no_duplicates(k2, membership(k1, false));
    }
    let merge_label = mode.merge_label();
    let standard = match &mode {
        MergeMode::Standard(_) => true,
        MergeMode::Contract(_) => false,
    };
    if let MergeMode::Contract(label) = mode {
        if !attrs2.open && !left.is_empty() {
            let names = left.keys_vec();
            proof {
                assert(idents_view(names@) =~= lk);
            }
            let message = extra_fields_text(&names);
            let label = label.with_diagnostic_message(message).with_diagnostic_notes(
                vec![MISSPELLED_NOTE.to_string(), TOO_STRICT_NOTE.to_string()],
            );
            proof {
                assert(strings_view(label.diagnostic_notes@) =~= seq![
                    MISSPELLED_NOTE@,
                    TOO_STRICT_NOTE@,
                ]);
            }
            let evaluated_arg = get_evaluated_arg(&label, cache);
            return Err(EvalError::BlameError { evaluated_arg, label, call_stack: CallStack::new() });
        }
    }
    proof {
        assert(left.keys().len() == left@.len());
        assert(!rejects_extra_fields(mode, rd1, rd2));
    }
    let final_pos = if standard {
        pos_op.into_inherited()
    } else {
        pos1.into_inherited()
    };

    let left_names = left.keys_vec();
    let center_names = center.keys_vec();
    let right_names = right.keys_vec();
    let mut field_names: Vec<Ident> = left_names;
    let mut more = center_names;
    field_names.append(&mut more);
    let mut more = right_names;
    field_names.append(&mut more);
    let ghost all = merged_keys(k1, k2);
    proof {
        assert(idents_view(field_names@) =~= all);
    }

    let mut m: IndexMap<Ident, Field> = IndexMap::new();
    let mut env: Environment = IndexMap::new();
    let ghost e_init = env;

    let ghost ls = left@;
    let mut src = left.into_entries();
    let n = src.len();
    let mut i: usize = 0;
    while i < n
        invariant
            n == ls.len(),
            i <= n,
            k1 == keys_of(m1),
            k2 == keys_of(m2),
            m1 == rd1.fields@,
            m2 == rd2.fields@,
            lk == keys_filtered(k1, k2, false),
            ck == keys_filtered(k1, k2, true),
            rk == keys_filtered(k2, k1, false),
            all == merged_keys(k1, k2),
            c0 == *old(cache),
            *call_stack == *old(call_stack),
            merge_label.span == mode.label_span(),
            first_sealed_tail(rd1, rd2) is None,
            !rejects_extra_fields(mode, rd1, rd2),
            rd1 == r1,
            rd2 == r2,
            src@ == ls.subrange(i as int, n as int),
            keys_of(ls) == lk,
            lk.no_duplicates(),
            forall|x: IdentView| #[trigger] lk.contains(x) <==> k1.contains(x) && !k2.contains(x),
            forall|j: int| 0 <= j < ls.len() ==> m1.contains(#[trigger] ls[j]),
            env_in(env1, c0),
            env_in(env2, c0),
            extends(c0, *cache),
            env.wf(),
            m.wf(),
            env_fits(env, *cache),
            env_grows(e_init, env, c0.elems@.len() as int, cache.elems@.len() as int),
            e_init@.len() == 0,
            record_binds_nothing(m1, m2) ==> env@.len() == 0 && *cache == c0,
            m.keys() == lk.take(i as int),
            forall|t: int| 0 <= t < i ==> field_bound_in((#[trigger] ls[t]).1, env1),
            idents_view(field_names@) == all,
            forall|j: int|
                0 <= j < m@.len() ==> record_entry(
                    (#[trigger] m@[j]).0@,
                    m@[j].1,
                    m1,
                    m2,
                    env1,
                    env2,
                    merge_label,
                    *cache,
                    env,
                    all,
                ),
        decreases n - i,
    {
        let (k, f) = src.remove(0);
        proof {
            assert(ls[i as int] == (k, f));
            assert(lk[i as int] == k@);
            assert(lk.contains(k@));
            lemma_key_of_entry(m1, (k, f));
        }
        let ghost c1 = *cache;
        let ghost e1 = env;
        let ghost f0 = f;
        match revert_closurize_field(f, cache, &mut env, &env1) {
            Ok(rf) => {
                proof {
                    lemma_grows_trans(e_init, e1, env, c0.elems@.len() as int, c1.elems@.len() as int, c1.elems@.len() as int, cache.elems@.len() as int);
                    if record_binds_nothing(m1, m2) {
                        let j0 = choose|j: int| 0 <= j < m1.len() && #[trigger] m1[j] == (k, f0);
                        assert(field_constant(f0));
                    }
                    assert forall|j: int| 0 <= j < m@.len() implies record_entry(
                        (#[trigger] m@[j]).0@,
                        m@[j].1,
                        m1,
                        m2,
                        env1,
                        env2,
                        merge_label,
                        *cache,
                        env,
                        all,
                    ) by {
                        lemma_record_entry_mono(
                            m@[j].0@,
                            m@[j].1,
                            m1,
                            m2,
                            env1,
                            env2,
                            merge_label,
                            c1,
                            e1,
                            *cache,
                            env,
                            all,
                        );
                    }
                    let j0 = choose|j: int| 0 <= j < m1.len() && #[trigger] m1[j] == (k, f0);
                    assert(has_entry(m1, k@, f0));
                    assert(record_entry(k@, rf, m1, m2, env1, env2, merge_label, *cache, env, all));
                    assert(!m.keys().contains(k@)) by {
                        if m.keys().contains(k@) {
                            let prefix = lk.take(i as int);
                            let q = choose|q: int| 0 <= q < prefix.len() && prefix[q] == k@;
                            assert(lk[q] == lk[i as int]);
                        }
                    }
                    assert(lk.take(i as int + 1) =~= lk.take(i as int).push(k@));
                }
                let ghost mb = m;
                m.insert(k, rf);
                proof {
                    assert(m.keys() =~= mb.keys().push(k@));
                }
            },
            Err(e) => {
                proof {
                    let j0 = choose|j: int| 0 <= j < m1.len() && #[trigger] m1[j] == (k, f0);
                    assert(!record_fields_bound(m1, m2, env1, env2));
                }
                return Err(e);
            },
        }
        i = i + 1;
    }
    proof {
        assert(lk.take(n as int) =~= lk);
        assert(lk + ck.take(0) =~= lk);
    }

    let ghost cs = center@;
    let mut src = center.into_entries();
    let n = src.len();
    let mut i: usize = 0;
    while i < n
        invariant
            n == cs.len(),
            i <= n,
            k1 == keys_of(m1),
            k2 == keys_of(m2),
            m1 == rd1.fields@,
            m2 == rd2.fields@,
            lk == keys_filtered(k1, k2, false),
            ck == keys_filtered(k1, k2, true),
            rk == keys_filtered(k2, k1, false),
            all == merged_keys(k1, k2),
            c0 == *old(cache),
            *call_stack == *old(call_stack),
            merge_label.span == mode.label_span(),
            first_sealed_tail(rd1, rd2) is None,
            !rejects_extra_fields(mode, rd1, rd2),
            rd1 == r1,
            rd2 == r2,
            src@ == cs.subrange(i as int, n as int),
            keys_of(cs) == ck,
            ck.no_duplicates(),
            forall|x: IdentView| #[trigger] lk.contains(x) <==> k1.contains(x) && !k2.contains(x),
            forall|x: IdentView| #[trigger] ck.contains(x) <==> k1.contains(x) && k2.contains(x),
            forall|j: int|
                0 <= j < cs.len() ==> m1.contains((#[trigger] cs[j].0, cs[j].1.0)) && has_entry(
                    m2,
                    cs[j].0@,
                    cs[j].1.1,
                ),
            env_in(env1, c0),
            env_in(env2, c0),
            extends(c0, *cache),
            env.wf(),
            m.wf(),
            env_fits(env, *cache),
            env_grows(e_init, env, c0.elems@.len() as int, cache.elems@.len() as int),
            e_init@.len() == 0,
            record_binds_nothing(m1, m2) ==> env@.len() == 0 && *cache == c0,
            m.keys() == lk + ck.take(i as int),
            keys_of(ls) == lk,
            forall|t: int| 0 <= t < ls.len() ==> m1.contains(#[trigger] ls[t]),
            forall|t: int| 0 <= t < ls.len() ==> field_bound_in((#[trigger] ls[t]).1, env1),
            forall|t: int|
                0 <= t < i ==> fields_bound_in((#[trigger] cs[t]).1.0, cs[t].1.1, env1, env2),
            idents_view(field_names@) == all,
            forall|j: int|
                0 <= j < m@.len() ==> record_entry(
                    (#[trigger] m@[j]).0@,
                    m@[j].1,
                    m1,
                    m2,
                    env1,
                    env2,
                    merge_label,
                    *cache,
                    env,
                    all,
                ),
        decreases n - i,
    {
        let (k, (f1, f2)) = src.remove(0);
        let ghost g1 = f1;
        let ghost g2 = f2;
        proof {
            assert(cs[i as int] == (k, (f1, f2)));
            assert(ck[i as int] == k@);
            assert(ck.contains(k@));
            lemma_key_of_entry(m1, (k, f1));
        }
        let ghost c1 = *cache;
        let ghost e1 = env;
        match merge_fields(cache, merge_label, f1, &env1, f2, &env2, &mut env, &field_names) {
            Ok(rf) => {
                proof {
                    lemma_grows_trans(e_init, e1, env, c0.elems@.len() as int, c1.elems@.len() as int, c1.elems@.len() as int, cache.elems@.len() as int);
                    if record_binds_nothing(m1, m2) {
                        let j0 = choose|j: int| 0 <= j < m1.len() && #[trigger] m1[j] == (k, g1);
                        let i0 = choose|j: int|
                            0 <= j < m2.len() && (#[trigger] m2[j]).0@ == k@ && m2[j].1 == g2;
                        assert(m1[j0].0@ == m2[i0].0@);
                        assert(fields_merge_binds_nothing(g1, g2));
                    }
                    assert forall|j: int| 0 <= j < m@.len() implies record_entry(
                        (#[trigger] m@[j]).0@,
                        m@[j].1,
                        m1,
                        m2,
                        env1,
                        env2,
                        merge_label,
                        *cache,
                        env,
                        all,
                    ) by {
                        lemma_record_entry_mono(
                            m@[j].0@,
                            m@[j].1,
                            m1,
                            m2,
                            env1,
                            env2,
                            merge_label,
                            c1,
                            e1,
                            *cache,
                            env,
                            all,
                        );
                    }
                    assert(has_entry(m1, k@, g1));
                    assert(has_entry(m2, k@, g2));
                    assert(record_entry(k@, rf, m1, m2, env1, env2, merge_label, *cache, env, all));
                    assert(!m.keys().contains(k@)) by {
                        if m.keys().contains(k@) {
                            let q = choose|q: int| 0 <= q < m.keys().len() && m.keys()[q] == k@;
                            if q < lk.len() {
                                assert(lk[q] == k@);
                                assert(lk.contains(k@));
                            } else {
                                assert(ck.take(i as int)[q - lk.len()] == k@);
                                assert(ck[q - lk.len()] == ck[i as int]);
                            }
                        }
                    }
                    assert(lk + ck.take(i as int + 1) =~= (lk + ck.take(i as int)).push(k@));
                }
                let ghost mb = m;
                m.insert(k, rf);
                proof {
                    assert(m.keys() =~= mb.keys().push(k@));
                }
            },
            Err(e) => {
                proof {
                    let j0 = choose|j: int| 0 <= j < m1.len() && #[trigger] m1[j] == (k, g1);
                    let i0 = choose|j: int| 0 <= j < m2.len() && (#[trigger] m2[j]).0@ == k@ && m2[j].1 == g2;
                    assert(m1[j0].0@ == m2[i0].0@);
                    assert(!record_fields_bound(m1, m2, env1, env2));
                }
                return Err(e);
            },
        }
        i = i + 1;
    }
    proof {
        assert(ck.take(n as int) =~= ck);
        assert(lk + ck + rk.take(0) =~= lk + ck);
    }

    let ghost rs = right@;
    let mut src = right.into_entries();
    let n = src.len();
    let mut i: usize = 0;
    while i < n
        invariant
            n == rs.len(),
            i <= n,
            k1 == keys_of(m1),
            k2 == keys_of(m2),
            m1 == rd1.fields@,
            m2 == rd2.fields@,
            lk == keys_filtered(k1, k2, false),
            ck == keys_filtered(k1, k2, true),
            rk == keys_filtered(k2, k1, false),
            all == merged_keys(k1, k2),
            c0 == *old(cache),
            *call_stack == *old(call_stack),
            merge_label.span == mode.label_span(),
            first_sealed_tail(rd1, rd2) is None,
            !rejects_extra_fields(mode, rd1, rd2),
            rd1 == r1,
            rd2 == r2,
            src@ == rs.subrange(i as int, n as int),
            keys_of(rs) == rk,
            rk.no_duplicates(),
            forall|x: IdentView| #[trigger] lk.contains(x) <==> k1.contains(x) && !k2.contains(x),
            forall|x: IdentView| #[trigger] ck.contains(x) <==> k1.contains(x) && k2.contains(x),
            forall|x: IdentView| #[trigger] rk.contains(x) <==> k2.contains(x) && !k1.contains(x),
            forall|j: int| 0 <= j < rs.len() ==> m2.contains(#[trigger] rs[j]),
            env_in(env1, c0),
            env_in(env2, c0),
            extends(c0, *cache),
            env.wf(),
            m.wf(),
            env_fits(env, *cache),
            env_grows(e_init, env, c0.elems@.len() as int, cache.elems@.len() as int),
            e_init@.len() == 0,
            record_binds_nothing(m1, m2) ==> env@.len() == 0 && *cache == c0,
            m.keys() == lk + ck + rk.take(i as int),
            keys_of(ls) == lk,
            forall|t: int| 0 <= t < ls.len() ==> m1.contains(#[trigger] ls[t]),
            forall|t: int| 0 <= t < ls.len() ==> field_bound_in((#[trigger] ls[t]).1, env1),
            keys_of(cs) == ck,
            forall|t: int|
                0 <= t < cs.len() ==> m1.contains((#[trigger] cs[t].0, cs[t].1.0)) && has_entry(
                    m2,
                    cs[t].0@,
                    cs[t].1.1,
                ),
            forall|t: int|
                0 <= t < cs.len() ==> fields_bound_in((#[trigger] cs[t]).1.0, cs[t].1.1, env1, env2),
            forall|t: int| 0 <= t < i ==> field_bound_in((#[trigger] rs[t]).1, env2),
            idents_view(field_names@) == all,
            forall|j: int|
                0 <= j < m@.len() ==> record_entry(
                    (#[trigger] m@[j]).0@,
                    m@[j].1,
                    m1,
                    m2,
                    env1,
                    env2,
                    merge_label,
                    *cache,
                    env,
                    all,
                ),
        decreases n - i,
    {
        let (k, f) = src.remove(0);
        proof {
            assert(rs[i as int] == (k, f));
            assert(rk[i as int] == k@);
            assert(rk.contains(k@));
            lemma_key_of_entry(m2, (k, f));
        }
        let ghost c1 = *cache;
        let ghost e1 = env;
        let ghost f0 = f;
        match revert_closurize_field(f, cache, &mut env, &env2) {
            Ok(rf) => {
                proof {
                    lemma_grows_trans(e_init, e1, env, c0.elems@.len() as int, c1.elems@.len() as int, c1.elems@.len() as int, cache.elems@.len() as int);
                    if record_binds_nothing(m1, m2) {
                        let j0 = choose|j: int| 0 <= j < m2.len() && #[trigger] m2[j] == (k, f0);
                        assert(field_constant(f0));
                    }
                    assert forall|j: int| 0 <= j < m@.len() implies record_entry(
                        (#[trigger] m@[j]).0@,
                        m@[j].1,
                        m1,
                        m2,
                        env1,
                        env2,
                        merge_label,
                        *cache,
                        env,
                        all,
                    ) by {
                        lemma_record_entry_mono(
                            m@[j].0@,
                            m@[j].1,
                            m1,
                            m2,
                            env1,
                            env2,
                            merge_label,
                            c1,
                            e1,
                            *cache,
                            env,
                            all,
                        );
                    }
                    assert(has_entry(m2, k@, f0));
                    assert(record_entry(k@, rf, m1, m2, env1, env2, merge_label, *cache, env, all));
                    assert(!m.keys().contains(k@)) by {
                        if m.keys().contains(k@) {
                            let q = choose|q: int| 0 <= q < m.keys().len() && m.keys()[q] == k@;
                            if q < lk.len() {
                                assert(lk[q] == k@);
                                assert(lk.contains(k@));
                            } else if q < lk.len() + ck.len() {
                                assert(ck[q - lk.len()] == k@);
                                assert(ck.contains(k@));
                            } else {
                                assert(rk.take(i as int)[q - lk.len() - ck.len()] == k@);
                                assert(rk[q - lk.len() - ck.len()] == rk[i as int]);
                            }
                        }
                    }
                    assert(lk + ck + rk.take(i as int + 1) =~= (lk + ck + rk.take(i as int)).push(k@));
                }
                let ghost mb = m;
                m.insert(k, rf);
                proof {
                    assert(m.keys() =~= mb.keys().push(k@));
                }
            },
            Err(e) => {
                proof {
                    let j0 = choose|j: int| 0 <= j < m2.len() && #[trigger] m2[j] == (k, f0);
                    assert(!record_fields_bound(m1, m2, env1, env2));
                }
                return Err(e);
            },
        }
        i = i + 1;
    }
    proof {
        assert(rk.take(n as int) =~= rk);
        assert(lk + ck + rk == all);
        assert forall|j: int|
            0 <= j < m1.len() && !k2.contains((#[trigger] m1[j]).0@) implies field_bound_in(
            m1[j].1,
            env1,
        ) by {
            let key = m1[j].0@;
            assert(k1[j] == key);
            assert(lk.contains(key));
            let t = choose|t: int| 0 <= t < lk.len() && lk[t] == key;
            assert(keys_of(ls)[t] == ls[t].0@);
            assert(m1.contains(ls[t]));
            let j2 = choose|j2: int| 0 <= j2 < m1.len() && m1[j2] == ls[t];
            lemma_unique_key(m1, j, j2);
        }
        assert forall|j: int|
            0 <= j < m2.len() && !k1.contains((#[trigger] m2[j]).0@) implies field_bound_in(
            m2[j].1,
            env2,
        ) by {
            let key = m2[j].0@;
            assert(k2[j] == key);
            assert(rk.contains(key));
            let t = choose|t: int| 0 <= t < rk.len() && rk[t] == key;
            assert(keys_of(rs)[t] == rs[t].0@);
            assert(m2.contains(rs[t]));
            let j2 = choose|j2: int| 0 <= j2 < m2.len() && m2[j2] == rs[t];
            lemma_unique_key(m2, j, j2);
        }
        assert forall|j: int, i: int|
            0 <= j < m1.len() && 0 <= i < m2.len() && (#[trigger] m1[j]).0@ == (#[trigger] m2[i]).0@
                implies fields_bound_in(m1[j].1, m2[i].1, env1, env2) by {
            let key = m1[j].0@;
            assert(k1[j] == key);
            assert(k2[i] == key);
            assert(ck.contains(key));
            let t = choose|t: int| 0 <= t < ck.len() && ck[t] == key;
            assert(keys_of(cs)[t] == cs[t].0@);
            assert(m1.contains((cs[t].0, cs[t].1.0)));
            let j2 = choose|j2: int| 0 <= j2 < m1.len() && m1[j2] == (cs[t].0, cs[t].1.0);
            lemma_unique_key(m1, j, j2);
            let i2 = choose|i2: int|
                0 <= i2 < m2.len() && (#[trigger] m2[i2]).0@ == cs[t].0@ && m2[i2].1 == cs[t].1.1;
            lemma_unique_key(m2, i, i2);
        }
    }
    Ok(Closure {
        body: RichTerm::new(
            Term::RecRecord(
                RecordData {
                    fields: m,
                    attrs: RecordAttrs::merge(attrs1, attrs2),
                    sealed_tail: None,
                },
            ),
            final_pos,
        ),
        env,
    })
}

/// How merge treats a pair of operands.
pub enum MergeKind {
    /// Equal scalars of the same shape: the value itself.
    Equal,
    /// Distinct scalars of the same shape.
    Unequal,
    Arrays,
    Records,
    /// A record contract applied to something else than a record.
    NotARecord,
    /// Shapes that do not merge.
    Incompatible,
}

pub open spec fn scalar_kind(equal: bool) -> MergeKind {
    if equal {
        MergeKind::Equal
    } else {
        MergeKind::Unequal
    }
}

pub open spec fn merge_kind(a: Term, b: Term, mode: MergeMode) -> MergeKind {
    match (a, b) {
        (Term::Null, Term::Null) => MergeKind::Equal,
        (Term::Bool(x), Term::Bool(y)) => scalar_kind(x == y),
        (Term::Num(x), Term::Num(y)) => scalar_kind(same_number(x, y)),
        (Term::Str(x), Term::Str(y)) => scalar_kind(x@ == y@),
        (Term::Lbl(x), Term::Lbl(y)) => scalar_kind(same_label(x, y)),
        (Term::Enum(x), Term::Enum(y)) => scalar_kind(x@ == y@),
        (Term::Array(_), Term::Array(_)) => MergeKind::Arrays,
        (Term::Record(_), Term::Record(_)) => MergeKind::Records,
        (_, Term::Record(_)) => if mode is Contract {
            MergeKind::NotARecord
        } else {
            MergeKind::Incompatible
        },
        _ => MergeKind::Incompatible,
    }
}

/// `e` reports that `t1` and `t2`, as they were written, do not merge.
pub open spec fn incompatible_error(e: EvalError, t1: RichTerm, t2: RichTerm, span: Span) -> bool {
    match e {
        EvalError::MergeIncompatibleArgs { left_arg, right_arg, merge_label } => {
            &&& *left_arg.term == *t1.term
            &&& left_arg.pos == t1.pos
            &&& *right_arg.term == *t2.term
            &&& right_arg.pos == t2.pos
            &&& merge_label.span == span
        },
        _ => false,
    }
}

/// `e` blames the record contract of `mode`, with a copy of the call stack.
pub open spec fn not_a_record_error(e: EvalError, mode: MergeMode, cache: Cache, stack: CallStack) -> bool {
    match (mode, e) {
        (MergeMode::Contract(l), EvalError::BlameError { evaluated_arg, label, call_stack }) => {
            &&& label == l
            &&& evaluated_arg == guarded_arg(l, cache)
            &&& call_stack.frames@ == stack.frames@
        },
        _ => false,
    }
}

/// Records among the operands have well-formed field maps.
pub open spec fn operand_wf(t: RichTerm) -> bool {
    match *t.term {
        Term::Record(r) => r.fields.wf(),
        _ => true,
    }
}

fn atomic_closure(t: Term, pos: TermPos) -> (r: Closure)
    ensures
        *r.body.term == t,
        r.body.pos == pos,
        r.env@.len() == 0,
{
    Closure { body: RichTerm::new(t, pos), env: IndexMap::new() }
}

fn incompatible(a: Term, pos1: TermPos, b: Term, pos2: TermPos, mode: &MergeMode) -> (r: EvalError)
    ensures
        match r {
            EvalError::MergeIncompatibleArgs { left_arg, right_arg, merge_label } => {
                &&& *left_arg.term == a
                &&& left_arg.pos == pos1
                &&& *right_arg.term == b
                &&& right_arg.pos == pos2
                &&& merge_label.span == mode.label_span()
            },
            _ => false,
        },
{
    EvalError::MergeIncompatibleArgs {
        left_arg: RichTerm::new(a, pos1),
        right_arg: RichTerm::new(b, pos2),
        merge_label: mode.merge_label(),
    }
}

/// Merges two evaluated operands, each in its environment, at the merge operator's position
/// `pos_op`. In contract mode `t1` is the value and `t2` the record contract.
pub fn merge(
    cache: &mut Cache,
    t1: RichTerm,
    env1: Environment,
    t2: RichTerm,
    env2: Environment,
    pos_op: TermPos,
    mode: MergeMode,
    call_stack: &mut CallStack,
) -> (r: Result<Closure, EvalError>)
    requires
        env_in(env1, *old(cache)),
        env_in(env2, *old(cache)),
        operand_wf(t1),
        operand_wf(t2),
    ensures
        extends(*old(cache), *final(cache)),
        !(merge_kind(*t1.term, *t2.term, mode) is Records) ==> *final(call_stack) == *old(call_stack),
        merge_kind(*t1.term, *t2.term, mode) is Equal ==> (r matches Ok(c) && *c.body.term == *t1.term
            && c.body.pos == (if mode is Standard {
            pos_op.inherited()
        } else {
            t1.pos.inherited()
        }) && c.env@.len() == 0),
        merge_kind(*t1.term, *t2.term, mode) is Unequal || merge_kind(*t1.term, *t2.term, mode) is Incompatible
            ==> (r matches Err(e) && incompatible_error(e, t1, t2, mode.label_span())),
        merge_kind(*t1.term, *t2.term, mode) is NotARecord ==> (r matches Err(e) && not_a_record_error(
            e,
            mode,
            *old(cache),
            *old(call_stack),
        )),
        merge_kind(*t1.term, *t2.term, mode) is Arrays ==> (r matches Ok(c) && array_lowered(
            *t1.term,
            t1.pos,
            env1,
            *t2.term,
            t2.pos,
            env2,
            pos_op,
            mode.label_span(),
            c,
            *final(cache),
        )),
        match (*t1.term, *t2.term) {
            (Term::Record(r1), Term::Record(r2)) => record_outcome(
                r1,
                r2,
                env1,
                env2,
                t1.pos,
                pos_op,
                mode,
                r,
                *old(cache),
                *final(cache),
                *old(call_stack),
                *final(call_stack),
            ),
            _ => true,
        },
{
    let RichTerm { term: rc1, pos: pos1 } = t1;
    let RichTerm { term: rc2, pos: pos2 } = t2;
    let term1 = unshare(rc1);
    let term2 = unshare(rc2);
    // The result stands where the merge is, or where the value is when a contract applies.
    let inherited = match &mode {
        MergeMode::Standard(_) => pos_op.into_inherited(),
        MergeMode::Contract(_) => pos1.into_inherited(),
    };
    match (term1, term2) {
        (Term::Null, Term::Null) => Ok(atomic_closure(Term::Null, inherited)),
        (Term::Bool(b1), Term::Bool(b2)) => {
            if b1 == b2 {
                Ok(atomic_closure(Term::Bool(b1), inherited))
            } else {
                Err(incompatible(Term::Bool(b1), pos1, Term::Bool(b2), pos2, &mode))
            }
        },
        (Term::Num(n1), Term::Num(n2)) => {
            if n1.same(&n2) {
                Ok(atomic_closure(Term::Num(n1), inherited))
            } else {
                Err(incompatible(Term::Num(n1), pos1, Term::Num(n2), pos2, &mode))
            }
        },
        (Term::Str(s1), Term::Str(s2)) => {
            if s1 == s2 {
                Ok(atomic_closure(Term::Str(s1), inherited))
            } else {
                Err(incompatible(Term::Str(s1), pos1, Term::Str(s2), pos2, &mode))
            }
        },
        (Term::Lbl(l1), Term::Lbl(l2)) => {
            if l1.same(&l2) {
                Ok(atomic_closure(Term::Lbl(l1), inherited))
            } else {
                Err(incompatible(Term::Lbl(l1), pos1, Term::Lbl(l2), pos2, &mode))
            }
        },
        (Term::Enum(i1), Term::Enum(i2)) => {
            if i1.same_key(&i2) {
                Ok(atomic_closure(Term::Enum(i1), inherited))
            } else {
                Err(incompatible(Term::Enum(i1), pos1, Term::Enum(i2), pos2, &mode))
            }
        },
        // Arrays have no merge of their own yet: asserting that they are equal keeps merge
        // idempotent.
        (Term::Array(xs1), Term::Array(xs2)) => {
            let span = mode.merge_label().span;
            Ok(
                lower_array_merge(
                    cache,
                    RichTerm::new(Term::Array(xs1), pos1),
                    env1,
                    RichTerm::new(Term::Array(xs2), pos2),
                    env2,
                    pos_op,
                    span,
                ),
            )
        },
        (Term::Record(r1), Term::Record(r2)) => merge_records(
            cache,
            r1,
            env1,
            r2,
            env2,
            pos1,
            pos_op,
            mode,
            call_stack,
        ),
        (a, b) => {
            let contract_on_record = matches!(b, Term::Record(_));
            match mode {
                MergeMode::Contract(label) if contract_on_record => {
                    let evaluated_arg = get_evaluated_arg(&label, cache);
                    Err(EvalError::BlameError { evaluated_arg, label, call_stack: call_stack.snapshot() })
                },
                mode => Err(incompatible(a, pos1, b, pos2, &mode)),
            }
        },
    }
}

/// Null, booleans, numbers, strings, labels and enum tags.
pub open spec fn is_scalar(t: Term) -> bool {
    match t {
        Term::Null | Term::Bool(_) | Term::Num(_) | Term::Str(_) | Term::Lbl(_) | Term::Enum(_) => true,
        _ => false,
    }
}

/// Two scalars that merge treats as the same value.
pub open spec fn same_scalar(a: Term, b: Term) -> bool {
    match (a, b) {
        (Term::Null, Term::Null) => true,
        (Term::Bool(x), Term::Bool(y)) => x == y,
        (Term::Num(x), Term::Num(y)) => same_number(x, y),
        (Term::Str(x), Term::Str(y)) => x@ == y@,
        (Term::Lbl(x), Term::Lbl(y)) => same_label(x, y),
        (Term::Enum(x), Term::Enum(y)) => x@ == y@,
        _ => false,
    }
}

/// Merging a scalar with itself succeeds with that very scalar (`merge` then returns it).
pub proof fn law_merge_idempotent_scalar(v: Term, mode: MergeMode)
    requires
        is_scalar(v),
    ensures
        merge_kind(v, v, mode) is Equal,
{
}

/// Merging a record with itself keeps its keys, in their order: every key is common to both
/// operands.
pub proof fn law_merge_idempotent_keys(k: Seq<IdentView>)
    requires
        k.no_duplicates(),
    ensures
        merged_keys(k, k) == k,
{
    lemma_filter_no_duplicates(k, membership(k, false));
    lemma_filter_no_duplicates(k, membership(k, true));
    assert(keys_filtered(k, k, false) =~= Seq::<IdentView>::empty()) by {
        if keys_filtered(k, k, false).len() > 0 {
            assert(keys_filtered(k, k, false).contains(keys_filtered(k, k, false)[0]));
        }
    }
    k.lemma_filter_len(membership(k, true));
    assert forall|i: int| 0 <= i < k.len() implies membership(k, true)(#[trigger] k[i]) by {
        assert(k.contains(k[i]));
    }
    lemma_filter_all(k, membership(k, true));
}

proof fn lemma_filter_all<A>(s: Seq<A>, p: spec_fn(A) -> bool)
    requires
        forall|i: int| 0 <= i < s.len() ==> p(#[trigger] s[i]),
    ensures
        s.filter(p) == s,
    decreases s.len(),
{
    reveal(Seq::filter);
    if s.len() > 0 {
        let init = s.drop_last();
        assert forall|i: int| 0 <= i < init.len() implies p(#[trigger] init[i]) by {
            assert(init[i] == s[i]);
        }
        lemma_filter_all(init, p);
        assert(p(s.last()));
        assert(init.push(s.last()) =~= s);
    }
}

/// In standard mode the order of the operands does not change how merge treats them.
pub proof fn law_merge_kind_commutes(a: Term, b: Term, label: MergeLabel)
    ensures
        merge_kind(a, b, MergeMode::Standard(label)) == merge_kind(b, a, MergeMode::Standard(label)),
{
}

/// Merging records in either order gives the same set of keys.
pub proof fn law_merged_keys_commute(k1: Seq<IdentView>, k2: Seq<IdentView>)
    requires
        k1.no_duplicates(),
        k2.no_duplicates(),
    ensures
        merged_keys(k1, k2).to_set() == merged_keys(k2, k1).to_set(),
        merged_keys(k1, k2).to_set() == k1.to_set() + k2.to_set(),
{
    lemma_filter_no_duplicates(k1, membership(k2, false));
    lemma_filter_no_duplicates(k1, membership(k2, true));
    lemma_filter_no_duplicates(k2, membership(k1, false));
    lemma_filter_no_duplicates(k2, membership(k1, true));
    assert forall|x: IdentView| merged_keys(k1, k2).contains(x) <==> k1.contains(x) || k2.contains(x) by {
        lemma_concat_contains(
            keys_filtered(k1, k2, false),
            keys_filtered(k1, k2, true),
            keys_filtered(k2, k1, false),
            x,
        );
    }
    assert forall|x: IdentView| merged_keys(k2, k1).contains(x) <==> k1.contains(x) || k2.contains(x) by {
        lemma_concat_contains(
            keys_filtered(k2, k1, false),
            keys_filtered(k2, k1, true),
            keys_filtered(k1, k2, false),
            x,
        );
    }
    assert(merged_keys(k1, k2).to_set() =~= k1.to_set() + k2.to_set());
    assert(merged_keys(k2, k1).to_set() =~= k1.to_set() + k2.to_set());
}

proof fn lemma_concat_contains<A>(a: Seq<A>, b: Seq<A>, c: Seq<A>, x: A)
    ensures
        (a + b + c).contains(x) <==> a.contains(x) || b.contains(x) || c.contains(x),
{
    let s = a + b + c;
    if s.contains(x) {
        let i = choose|i: int| 0 <= i < s.len() && s[i] == x;
        if i < a.len() {
            assert(a[i] == x);
        } else if i < a.len() + b.len() {
            assert(b[i - a.len()] == x);
        } else {
            assert(c[i - a.len() - b.len()] == x);
        }
    }
    if a.contains(x) {
        let i = choose|i: int| 0 <= i < a.len() && a[i] == x;
        assert(s[i] == x);
    }
    if b.contains(x) {
        let i = choose|i: int| 0 <= i < b.len() && b[i] == x;
        assert(s[a.len() + i] == x);
    }
    if c.contains(x) {
        let i = choose|i: int| 0 <= i < c.len() && c[i] == x;
        assert(s[a.len() + b.len() + i] == x);
    }
}

/// The parts of a merged field that do not depend on the order of the operands: which side's
/// value wins, its priority, optionality and exportation.
pub proof fn law_merge_fields_commute(f1: Field, f2: Field)
    ensures
        priority_eq(merged_priority(f1, f2), merged_priority(f2, f1)),
        (value_choice(f1, f2) is Both) == (value_choice(f2, f1) is Both),
        (value_choice(f1, f2) is Left) == (value_choice(f2, f1) is Right),
        (value_choice(f1, f2) is Neither) == (value_choice(f2, f1) is Neither),
{
    lemma_priority_order(f1.metadata.priority, f2.metadata.priority);
}

proof fn lemma_priority_order(a: MergePriority, b: MergePriority)
    ensures
        priority_eq(a, b) || priority_lt(a, b) || priority_lt(b, a),
        priority_eq(a, b) == priority_eq(b, a),
        priority_eq(a, a),
        priority_lt(a, b) ==> !priority_eq(a, b),
        !(priority_lt(a, b) && priority_lt(b, a)),
        !priority_lt(a, a),
{
}

/// Two scalars that are not the same value do not merge, whether of one shape or of two.
pub proof fn law_scalar_discrimination(a: Term, b: Term, mode: MergeMode)
    requires
        is_scalar(a),
        is_scalar(b),
        !same_scalar(a, b),
    ensures
        merge_kind(a, b, mode) is Unequal || merge_kind(a, b, mode) is Incompatible,
{
}

/// A value of strictly higher priority wins, with its priority, whatever it is and whatever the
/// other side holds.
pub proof fn law_priority_wins(f1: Field, f2: Field)
    requires
        f1.value is Some,
        priority_lt(f2.metadata.priority, f1.metadata.priority),
    ensures
        value_choice(f1, f2) is Left,
        merged_priority(f1, f2) == f1.metadata.priority,
{
    lemma_priority_order(f1.metadata.priority, f2.metadata.priority);
}

} // verus!
