use nickel_merge::cache::{BindingType, Cache, Closure, Environment, FieldDeps, IdentKind};
use nickel_merge::merge::{
    merge, merge_doc, CallStack, EvalError, MergeMode, MISSPELLED_NOTE, TOO_STRICT_NOTE,
    UNEQUAL_ARRAYS_NOTE,
};
use nickel_merge::ordmap::IndexMap;
use nickel_merge::term::{
    Field, FieldMetadata, Ident, Number, Label, LabeledType, MergeLabel, MergePriority, RecordAttrs,
    RecordData, RichTerm, SealedTail, Span, Term, TermPos, TypeAnnotation,
};
use std::rc::Rc;

fn span(start: u32) -> Span {
    Span { src_id: 0, start, end: start + 1 }
}

fn at(start: u32) -> TermPos {
    TermPos::Original(span(start))
}

fn num(n: i64) -> RichTerm {
    RichTerm::new(Term::Num(Number::integer(n)), TermPos::Absent)
}

fn ratio(num: i64, den: u64) -> Number {
    Number { num, den }
}

fn var(name: &str) -> RichTerm {
    RichTerm::new(Term::Var(Ident::named(name)), TermPos::Absent)
}

fn label(start: u32) -> Label {
    Label {
        types: "Dyn".to_string(),
        span: span(start),
        diagnostic_message: None,
        diagnostic_notes: Vec::new(),
        arg_idx: None,
        polarity: true,
    }
}

fn metadata(priority: MergePriority) -> FieldMetadata {
    FieldMetadata {
        doc: None,
        annotation: TypeAnnotation { types: None, contracts: Vec::new() },
        opt: false,
        not_exported: false,
        priority,
    }
}

fn field(value: Option<RichTerm>, priority: MergePriority) -> Field {
    Field { metadata: metadata(priority), value, pending_contracts: Vec::new() }
}

fn record(fields: Vec<(&str, Field)>, open: bool) -> RecordData {
    let mut m = IndexMap::new();
    for (k, f) in fields {
        m.insert(Ident::named(k), f);
    }
    RecordData { fields: m, attrs: RecordAttrs { open }, sealed_tail: None }
}

fn rec_term(r: RecordData) -> RichTerm {
    RichTerm::new(Term::Record(r), at(1))
}

fn standard() -> MergeMode {
    MergeMode::Standard(MergeLabel { span: span(50) })
}

fn merge_terms(cache: &mut Cache, t1: RichTerm, t2: RichTerm, mode: MergeMode) -> Result<Closure, EvalError> {
    let mut stack = CallStack::new();
    merge(cache, t1, IndexMap::new(), t2, IndexMap::new(), at(40), mode, &mut stack)
}

fn merged_fields(c: &Closure) -> &IndexMap<Ident, Field> {
    match &*c.body.term {
        Term::RecRecord(rd) => &rd.fields,
        _ => panic!("expected a recursive record"),
    }
}

fn names(m: &IndexMap<Ident, Field>) -> Vec<String> {
    m.keys_vec().iter().map(|k| k.text()).collect()
}

fn value_of<'a>(m: &'a IndexMap<Ident, Field>, k: &str) -> &'a RichTerm {
    m.get(&Ident::named(k)).unwrap().value.as_ref().unwrap()
}

fn as_num(t: &RichTerm) -> Option<i64> {
    match &*t.term {
        Term::Num(n) if n.den == 1 => Some(n.num),
        _ => None,
    }
}

fn generated(t: &RichTerm) -> usize {
    match &*t.term {
        Term::Var(Ident::Generated(n)) => *n,
        _ => panic!("expected a generated variable"),
    }
}

/// The deferred merge that a merged field's element holds, merged now.
fn force_merge(cache: &mut Cache, env: &Environment, v: &RichTerm) -> Result<Closure, EvalError> {
    let n = generated(v);
    assert_eq!(env.get(&Ident::Generated(n)), Some(&n));
    let body = cache.elems[n].closure.body.share();
    match &*body.term {
        Term::Op2(nickel_merge::term::BinaryOp::Merge(_), a, b) => {
            merge_terms(cache, a.share(), b.share(), standard())
        }
        _ => panic!("expected a deferred merge"),
    }
}

#[test]
fn disjoint_records_are_joined() {
    let mut cache = Cache::new();
    let r1 = record(vec![("a", field(Some(num(1)), MergePriority::Neutral))], false);
    let r2 = record(vec![("b", field(Some(num(2)), MergePriority::Neutral))], false);
    let c = merge_terms(&mut cache, rec_term(r1), rec_term(r2), standard()).ok().unwrap();
    let m = merged_fields(&c);
    assert_eq!(names(m), vec!["a".to_string(), "b".to_string()]);
    assert_eq!(as_num(value_of(m, "a")), Some(1));
    assert_eq!(as_num(value_of(m, "b")), Some(2));
    assert!(matches!(c.body.pos, TermPos::Inherited(_)));
}

#[test]
fn equal_fields_merge_to_the_same_value() {
    let mut cache = Cache::new();
    let r1 = record(vec![("a", field(Some(num(1)), MergePriority::Neutral))], false);
    let r2 = record(vec![("a", field(Some(num(1)), MergePriority::Neutral))], false);
    let c = merge_terms(&mut cache, rec_term(r1), rec_term(r2), standard()).ok().unwrap();
    let m = merged_fields(&c);
    assert_eq!(names(m), vec!["a".to_string()]);
    let forced = force_merge(&mut cache, &c.env, value_of(m, "a")).ok().unwrap();
    assert_eq!(as_num(&forced.body), Some(1));
}

#[test]
fn unequal_fields_fail_when_forced() {
    let mut cache = Cache::new();
    let r1 = record(vec![("a", field(Some(num(1)), MergePriority::Neutral))], false);
    let r2 = record(vec![("a", field(Some(num(2)), MergePriority::Neutral))], false);
    let c = merge_terms(&mut cache, rec_term(r1), rec_term(r2), standard()).ok().unwrap();
    let m = merged_fields(&c);
    match force_merge(&mut cache, &c.env, value_of(m, "a")) {
        Err(EvalError::MergeIncompatibleArgs { left_arg, right_arg, .. }) => {
            assert_eq!(as_num(&left_arg), Some(1));
            assert_eq!(as_num(&right_arg), Some(2));
        }
        _ => panic!("expected incompatible arguments"),
    }
}

#[test]
fn higher_priority_wins_without_merging() {
    let mut cache = Cache::new();
    let r1 = record(vec![("a", field(Some(num(1)), MergePriority::Numeric(Number::integer(10))))], false);
    let r2 = record(vec![("a", field(Some(num(2)), MergePriority::Neutral))], false);
    let c = merge_terms(&mut cache, rec_term(r1), rec_term(r2), standard()).ok().unwrap();
    let m = merged_fields(&c);
    let f = m.get(&Ident::named("a")).unwrap();
    assert_eq!(as_num(f.value.as_ref().unwrap()), Some(1));
    assert!(f.metadata.priority == MergePriority::Numeric(Number::integer(10)));
    assert_eq!(cache.len(), 0);
}

#[test]
fn closed_contract_rejects_extra_field() {
    let mut cache = Cache::new();
    let value = record(
        vec![
            ("a", field(Some(num(1)), MergePriority::Neutral)),
            ("extra", field(Some(num(3)), MergePriority::Neutral)),
        ],
        false,
    );
    let mut declared = field(None, MergePriority::Neutral);
    declared.metadata.annotation.contracts.push(LabeledType { types: var("Number"), label: label(7) });
    let contract = record(vec![("a", declared)], false);
    let mode = MergeMode::Contract(label(9));
    match merge_terms(&mut cache, rec_term(value), rec_term(contract), mode) {
        Err(EvalError::BlameError { label, call_stack, .. }) => {
            assert_eq!(label.diagnostic_message, Some("extra field `extra`".to_string()));
            assert_eq!(label.diagnostic_notes, vec![MISSPELLED_NOTE.to_string(), TOO_STRICT_NOTE.to_string()]);
            assert_eq!(label.types, "Dyn");
            assert!(label.span == span(9));
            assert_eq!(call_stack.frames.len(), 0);
        }
        _ => panic!("expected a blame error"),
    }
}

#[test]
fn closed_contract_names_all_extra_fields() {
    let mut cache = Cache::new();
    let value = record(
        vec![
            ("x", field(Some(num(1)), MergePriority::Neutral)),
            ("a", field(Some(num(1)), MergePriority::Neutral)),
            ("y", field(Some(num(1)), MergePriority::Neutral)),
        ],
        false,
    );
    let contract = record(vec![("a", field(None, MergePriority::Neutral))], false);
    match merge_terms(&mut cache, rec_term(value), rec_term(contract), MergeMode::Contract(label(9))) {
        Err(EvalError::BlameError { label, .. }) => {
            assert_eq!(label.diagnostic_message, Some("extra fields `x`,`y`".to_string()));
        }
        _ => panic!("expected a blame error"),
    }
}

#[test]
fn open_contract_accepts_extra_field() {
    let mut cache = Cache::new();
    let value = record(
        vec![
            ("a", field(Some(num(1)), MergePriority::Neutral)),
            ("extra", field(Some(num(3)), MergePriority::Neutral)),
        ],
        false,
    );
    let contract = record(vec![("a", field(None, MergePriority::Neutral))], true);
    let c = merge_terms(&mut cache, rec_term(value), rec_term(contract), MergeMode::Contract(label(9)))
        .ok()
        .unwrap();
    let m = merged_fields(&c);
    assert_eq!(names(m), vec!["extra".to_string(), "a".to_string()]);
    assert_eq!(as_num(value_of(m, "a")), Some(1));
    // Contract mode keeps the value's position.
    assert!(c.body.pos == TermPos::Inherited(span(1)));
    match &*c.body.term {
        Term::RecRecord(rd) => assert!(!rd.attrs.open),
        _ => panic!("expected a recursive record"),
    }
}

fn array(xs: &[i64]) -> RichTerm {
    RichTerm::new(Term::Array(xs.iter().map(|x| num(*x)).collect()), at(3))
}

fn check_array_lowering(c: &Closure, cache: &Cache) {
    assert!(c.body.pos == at(40));
    match &*c.body.term {
        Term::App(f, x2) => {
            let n2 = generated(x2);
            assert!(matches!(&*cache.elems[n2].closure.body.term, Term::Array(_)));
            match &*f.term {
                Term::Op2(nickel_merge::term::BinaryOp::Assume, eq, lbl) => {
                    match (&*eq.term, &*lbl.term) {
                        (Term::App(g, x1), Term::Lbl(l)) => {
                            assert!(matches!(&*g.term, Term::Var(Ident::Named(s)) if s == "$stdlib_contract_equal"));
                            generated(x1);
                            assert_eq!(l.diagnostic_message, Some("cannot merge unequal arrays".to_string()));
                            assert_eq!(l.diagnostic_notes, vec![UNEQUAL_ARRAYS_NOTE.to_string()]);
                            assert_eq!(l.types, "contract.Equal some_array");
                            assert!(l.span == span(50));
                        }
                        _ => panic!("expected the equality contract"),
                    }
                }
                _ => panic!("expected an assertion"),
            }
        }
        _ => panic!("expected an application"),
    }
}

#[test]
fn arrays_lower_to_equality_assertion() {
    let mut cache = Cache::new();
    let c = merge_terms(&mut cache, array(&[1, 2]), array(&[1, 2]), standard()).ok().unwrap();
    check_array_lowering(&c, &cache);
    let mut cache = Cache::new();
    let c = merge_terms(&mut cache, array(&[1, 2]), array(&[1, 3]), standard()).ok().unwrap();
    check_array_lowering(&c, &cache);
    assert_eq!(cache.len(), 2);
}

#[test]
fn sealed_record_cannot_merge() {
    let mut cache = Cache::new();
    let mut r1 = record(vec![("a", field(Some(num(1)), MergePriority::Neutral))], false);
    r1.sealed_tail = Some(SealedTail { label: label(11) });
    let r2 = record(vec![("b", field(Some(num(2)), MergePriority::Neutral))], false);
    let mut stack = CallStack { frames: vec![span(20), span(21)] };
    let r = merge(&mut cache, rec_term(r2), IndexMap::new(), rec_term(r1), IndexMap::new(), at(40), standard(), &mut stack);
    match r {
        Err(EvalError::IllegalPolymorphicTailAccess { label, call_stack, .. }) => {
            assert!(label.span == span(11));
            assert_eq!(call_stack.frames.len(), 2);
        }
        _ => panic!("expected a sealed tail error"),
    }
    assert_eq!(stack.frames.len(), 0);
}

#[test]
fn recursive_fields_are_reverted_and_rebound() {
    // rec { x = y + 1, y | default = 1 } & rec { y = 10 }
    let mut cache = Cache::new();
    let plus_one = RichTerm::new(
        Term::App(RichTerm::new(Term::App(var("add"), var("y")), TermPos::Absent), num(1)),
        at(5),
    );
    let deps = FieldDeps::Known(Rc::new(vec![Ident::named("y")]));
    let x_idx = cache.add(
        Closure { body: plus_one, env: IndexMap::new() },
        IdentKind::Record,
        BindingType::Revertible(deps),
    );
    let mut env1: Environment = IndexMap::new();
    env1.insert(Ident::named("%x"), x_idx);
    let r1 = record(
        vec![
            ("x", field(Some(var("%x")), MergePriority::Neutral)),
            ("y", field(Some(num(1)), MergePriority::Default)),
        ],
        false,
    );
    let r2 = record(vec![("y", field(Some(num(10)), MergePriority::Neutral))], false);
    let mut stack = CallStack::new();
    let c = merge(&mut cache, rec_term(r1), env1, rec_term(r2), IndexMap::new(), at(40), standard(), &mut stack)
        .ok()
        .unwrap();
    let m = merged_fields(&c);
    assert_eq!(names(m), vec!["x".to_string(), "y".to_string()]);
    assert_eq!(as_num(value_of(m, "y")), Some(10));
    let n = generated(value_of(m, "x"));
    assert_ne!(n, x_idx);
    assert_eq!(c.env.get(&Ident::Generated(n)), Some(&n));
    let copy = &cache.elems[n];
    assert!(copy.revertible.is_some());
    assert!(matches!(&*copy.closure.body.term, Term::App(_, _)));
}

#[test]
fn merged_recursive_fields_are_saturated() {
    let mut cache = Cache::new();
    let deps = FieldDeps::Known(Rc::new(vec![Ident::named("b")]));
    let idx = cache.add(Closure { body: var("b"), env: IndexMap::new() }, IdentKind::Record, BindingType::Revertible(deps));
    let mut env1: Environment = IndexMap::new();
    env1.insert(Ident::named("%a"), idx);
    let r1 = record(
        vec![("a", field(Some(var("%a")), MergePriority::Neutral)), ("b", field(Some(num(1)), MergePriority::Neutral))],
        false,
    );
    let r2 = record(vec![("a", field(Some(num(1)), MergePriority::Neutral))], false);
    let mut stack = CallStack::new();
    let c = merge(&mut cache, rec_term(r1), env1, rec_term(r2), IndexMap::new(), at(40), standard(), &mut stack)
        .ok()
        .unwrap();
    let m = merged_fields(&c);
    let n = generated(value_of(m, "a"));
    let merged = &cache.elems[n];
    // The union of the dependencies keeps the element revertible.
    assert!(merged.revertible.is_some());
    match &*merged.closure.body.term {
        Term::Op2(_, s1, s2) => {
            // The left value is its function form applied to the field `b`.
            match &*s1.term {
                Term::App(f, arg) => {
                    let fun = generated(f);
                    assert!(matches!(&*arg.term, Term::Var(Ident::Named(s)) if s == "b"));
                    assert!(matches!(&*cache.elems[fun].closure.body.term, Term::Fun(Ident::Named(s), _) if s == "b"));
                }
                _ => panic!("expected an application"),
            }
            assert_eq!(as_num(s2), Some(1));
        }
        _ => panic!("expected a deferred merge"),
    }
}

#[test]
fn unbound_variable_is_reported() {
    let mut cache = Cache::new();
    let r1 = record(vec![("a", field(Some(var("nowhere")), MergePriority::Neutral))], false);
    let r2 = record(vec![("b", field(Some(num(2)), MergePriority::Neutral))], false);
    match merge_terms(&mut cache, rec_term(r1), rec_term(r2), standard()) {
        Err(EvalError::UnboundIdentifier(id, _)) => assert_eq!(id.text(), "nowhere"),
        _ => panic!("expected an unbound identifier"),
    }
}

#[test]
fn scalars_merge_with_themselves() {
    let mut cache = Cache::new();
    let s = || RichTerm::new(Term::Str("hello".to_string()), at(2));
    let c = merge_terms(&mut cache, s(), s(), standard()).ok().unwrap();
    assert!(matches!(&*c.body.term, Term::Str(x) if x == "hello"));
    assert!(c.body.pos == TermPos::Inherited(span(40)));
    let b = || RichTerm::new(Term::Bool(true), at(2));
    assert!(matches!(&*merge_terms(&mut cache, b(), b(), standard()).ok().unwrap().body.term, Term::Bool(true)));
    let null = || RichTerm::new(Term::Null, at(2));
    assert!(matches!(&*merge_terms(&mut cache, null(), null(), standard()).ok().unwrap().body.term, Term::Null));
    let tag = || RichTerm::new(Term::Enum(Ident::named("Foo")), at(2));
    assert!(matches!(&*merge_terms(&mut cache, tag(), tag(), standard()).ok().unwrap().body.term, Term::Enum(_)));
    let lbl = || RichTerm::new(Term::Lbl(label(3)), at(2));
    assert!(matches!(&*merge_terms(&mut cache, lbl(), lbl(), standard()).ok().unwrap().body.term, Term::Lbl(_)));
}

#[test]
fn distinct_scalars_do_not_merge() {
    let mut cache = Cache::new();
    let cases = vec![
        (Term::Bool(true), Term::Bool(false)),
        (Term::Num(Number::integer(1)), Term::Num(Number::integer(2))),
        (Term::Str("a".to_string()), Term::Str("b".to_string())),
        (Term::Enum(Ident::named("A")), Term::Enum(Ident::named("B"))),
        (Term::Num(Number::integer(1)), Term::Bool(true)),
        (Term::Null, Term::Num(Number::integer(0))),
    ];
    for (a, b) in cases {
        let r = merge_terms(&mut cache, RichTerm::new(a, at(1)), RichTerm::new(b, at(2)), standard());
        match r {
            Err(EvalError::MergeIncompatibleArgs { left_arg, right_arg, merge_label }) => {
                assert!(left_arg.pos == at(1));
                assert!(right_arg.pos == at(2));
                assert!(merge_label.span == span(50));
            }
            _ => panic!("expected incompatible arguments"),
        }
    }
}

#[test]
fn scalar_merge_commutes() {
    let mut cache = Cache::new();
    let a = merge_terms(&mut cache, num(1), num(2), standard());
    let b = merge_terms(&mut cache, num(2), num(1), standard());
    assert!(matches!(a, Err(EvalError::MergeIncompatibleArgs { .. })));
    assert!(matches!(b, Err(EvalError::MergeIncompatibleArgs { .. })));
    let a = merge_terms(&mut cache, num(4), num(4), standard()).ok().unwrap();
    let b = merge_terms(&mut cache, num(4), num(4), standard()).ok().unwrap();
    assert_eq!(as_num(&a.body), as_num(&b.body));
}

#[test]
fn record_merge_commutes_on_keys() {
    let mk1 = || record(vec![("a", field(Some(num(1)), MergePriority::Neutral)), ("c", field(Some(num(3)), MergePriority::Neutral))], false);
    let mk2 = || record(vec![("b", field(Some(num(2)), MergePriority::Neutral)), ("c", field(Some(num(3)), MergePriority::Neutral))], false);
    let mut cache = Cache::new();
    let x = merge_terms(&mut cache, rec_term(mk1()), rec_term(mk2()), standard()).ok().unwrap();
    let y = merge_terms(&mut cache, rec_term(mk2()), rec_term(mk1()), standard()).ok().unwrap();
    let mut kx = names(merged_fields(&x));
    let mut ky = names(merged_fields(&y));
    assert_eq!(kx, vec!["a".to_string(), "c".to_string(), "b".to_string()]);
    kx.sort();
    ky.sort();
    assert_eq!(kx, ky);
}

#[test]
fn record_merge_with_itself_keeps_keys() {
    let mk = || record(vec![("b", field(Some(num(2)), MergePriority::Neutral)), ("a", field(Some(num(1)), MergePriority::Neutral))], false);
    let mut cache = Cache::new();
    let c = merge_terms(&mut cache, rec_term(mk()), rec_term(mk()), standard()).ok().unwrap();
    assert_eq!(names(merged_fields(&c)), vec!["b".to_string(), "a".to_string()]);
}

#[test]
fn force_priority_beats_numeric() {
    let mut cache = Cache::new();
    let r1 = record(vec![("a", field(Some(num(1)), MergePriority::Numeric(Number::integer(100))))], false);
    let r2 = record(vec![("a", field(Some(num(2)), MergePriority::Force))], false);
    let c = merge_terms(&mut cache, rec_term(r1), rec_term(r2), standard()).ok().unwrap();
    let f = merged_fields(&c).get(&Ident::named("a")).unwrap();
    assert_eq!(as_num(f.value.as_ref().unwrap()), Some(2));
    assert!(f.metadata.priority == MergePriority::Force);
}

#[test]
fn metadata_is_combined() {
    let mut cache = Cache::new();
    let mut f1 = field(None, MergePriority::Neutral);
    f1.metadata.doc = Some("left".to_string());
    f1.metadata.opt = true;
    f1.metadata.annotation.types = Some(LabeledType { types: var("Number"), label: label(1) });
    f1.metadata.annotation.contracts.push(LabeledType { types: var("C1"), label: label(2) });
    let mut f2 = field(Some(num(5)), MergePriority::Neutral);
    f2.metadata.doc = Some("right".to_string());
    f2.metadata.not_exported = true;
    f2.metadata.annotation.types = Some(LabeledType { types: var("String"), label: label(3) });
    f2.metadata.annotation.contracts.push(LabeledType { types: var("C2"), label: label(4) });
    let c = merge_terms(&mut cache, rec_term(record(vec![("a", f1)], false)), rec_term(record(vec![("a", f2)], false)), standard())
        .ok()
        .unwrap();
    let f = merged_fields(&c).get(&Ident::named("a")).unwrap();
    assert_eq!(f.metadata.doc, Some("left".to_string()));
    assert!(!f.metadata.opt);
    assert!(f.metadata.not_exported);
    assert!(f.metadata.annotation.types.as_ref().unwrap().label.span == span(1));
    let spans: Vec<u32> = f.metadata.annotation.contracts.iter().map(|c| c.label.span.start).collect();
    assert_eq!(spans, vec![2, 3, 4]);
    assert_eq!(as_num(f.value.as_ref().unwrap()), Some(5));
}

#[test]
fn doc_merge_takes_first_present() {
    assert_eq!(merge_doc(Some("a".to_string()), Some("b".to_string())), Some("a".to_string()));
    assert_eq!(merge_doc(None, Some("b".to_string())), Some("b".to_string()));
    assert_eq!(merge_doc(None, None), None);
}

#[test]
fn contract_on_non_record_blames() {
    let mut cache = Cache::new();
    let contract = record(vec![("a", field(None, MergePriority::Neutral))], false);
    let mut stack = CallStack { frames: vec![span(30)] };
    let r = merge(&mut cache, num(1), IndexMap::new(), rec_term(contract), IndexMap::new(), at(40), MergeMode::Contract(label(9)), &mut stack);
    match r {
        Err(EvalError::BlameError { label, call_stack, .. }) => {
            assert!(label.span == span(9));
            assert_eq!(call_stack.frames.len(), 1);
        }
        _ => panic!("expected a blame error"),
    }
    assert_eq!(stack.frames.len(), 1);
}

#[test]
fn generated_identifiers_are_written_with_their_number() {
    assert_eq!(Ident::Generated(0).text(), "%0");
    assert_eq!(Ident::Generated(407).text(), "%407");
    assert_eq!(Ident::named("foo").text(), "foo");
}

#[test]
fn deps_union_is_unknown_when_either_is() {
    let a = FieldDeps::Known(Rc::new(vec![Ident::named("x")]));
    let b = FieldDeps::Known(Rc::new(vec![Ident::named("y"), Ident::named("x")]));
    let u = a.union(b);
    assert!(u.admits(&Ident::named("x")) && u.admits(&Ident::named("y")) && !u.admits(&Ident::named("z")));
    let u = u.union(FieldDeps::Unknown);
    assert!(matches!(u, FieldDeps::Unknown));
    assert!(FieldDeps::empty().union(FieldDeps::empty()).is_empty());
}

#[test]
fn labels_differing_in_notes_or_contract_do_not_merge() {
    let mut cache = Cache::new();
    let mut noted = label(3);
    noted.diagnostic_notes.push("a note".to_string());
    let r = merge_terms(
        &mut cache,
        RichTerm::new(Term::Lbl(label(3)), at(1)),
        RichTerm::new(Term::Lbl(noted), at(2)),
        standard(),
    );
    assert!(matches!(r, Err(EvalError::MergeIncompatibleArgs { .. })));
    let mut typed = label(3);
    typed.types = "Number".to_string();
    let r = merge_terms(
        &mut cache,
        RichTerm::new(Term::Lbl(label(3)), at(1)),
        RichTerm::new(Term::Lbl(typed), at(2)),
        standard(),
    );
    assert!(matches!(r, Err(EvalError::MergeIncompatibleArgs { .. })));
}

#[test]
fn contract_mode_scalar_keeps_value_position() {
    let mut cache = Cache::new();
    let c = merge_terms(&mut cache, RichTerm::new(Term::Bool(true), at(7)), RichTerm::new(Term::Bool(true), at(8)), MergeMode::Contract(label(9)))
        .ok()
        .unwrap();
    assert!(c.body.pos == TermPos::Inherited(span(7)));
}

#[test]
fn constant_records_bind_nothing() {
    let mut cache = Cache::new();
    let r1 = record(vec![("a", field(Some(num(1)), MergePriority::Numeric(Number::integer(10))))], false);
    let r2 = record(vec![("a", field(Some(num(2)), MergePriority::Neutral)), ("b", field(Some(num(2)), MergePriority::Neutral))], false);
    let c = merge_terms(&mut cache, rec_term(r1), rec_term(r2), standard()).ok().unwrap();
    assert_eq!(c.env.len(), 0);
    assert_eq!(cache.len(), 0);
}

#[test]
fn equal_rationals_merge() {
    let mut cache = Cache::new();
    let half = RichTerm::new(Term::Num(ratio(1, 2)), at(1));
    let two_quarters = RichTerm::new(Term::Num(ratio(2, 4)), at(2));
    let c = merge_terms(&mut cache, half, two_quarters, standard()).ok().unwrap();
    assert!(matches!(&*c.body.term, Term::Num(n) if n.num == 1 && n.den == 2));
    let third = RichTerm::new(Term::Num(ratio(1, 3)), at(2));
    let half = RichTerm::new(Term::Num(ratio(1, 2)), at(1));
    assert!(matches!(merge_terms(&mut cache, half, third, standard()), Err(EvalError::MergeIncompatibleArgs { .. })));
}

#[test]
fn equal_valued_priorities_merge_values() {
    let mut cache = Cache::new();
    let r1 = record(vec![("a", field(Some(num(1)), MergePriority::Numeric(ratio(1, 2))))], false);
    let r2 = record(vec![("a", field(Some(num(2)), MergePriority::Numeric(ratio(3, 6))))], false);
    let c = merge_terms(&mut cache, rec_term(r1), rec_term(r2), standard()).ok().unwrap();
    let m = merged_fields(&c);
    assert!(matches!(force_merge(&mut cache, &c.env, value_of(m, "a")), Err(EvalError::MergeIncompatibleArgs { .. })));
    let r1 = record(vec![("a", field(Some(num(1)), MergePriority::Numeric(ratio(2, 3))))], false);
    let r2 = record(vec![("a", field(Some(num(2)), MergePriority::Numeric(ratio(1, 2))))], false);
    let c = merge_terms(&mut cache, rec_term(r1), rec_term(r2), standard()).ok().unwrap();
    assert_eq!(as_num(value_of(merged_fields(&c), "a")), Some(1));
}
