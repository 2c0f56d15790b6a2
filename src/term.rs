//! Terms, records, fields and their metadata, as the merge operator sees them.
use std::rc::Rc;
use vstd::prelude::*;
use crate::ordmap::{FieldKey, IndexMap};

verus! {

/// A stretch of source text.
#[derive(Clone, Copy, PartialEq, Eq, Structural)]
pub struct Span {
    pub src_id: u32,
    pub start: u32,
    pub end: u32,
}

/// Where a term comes from: written in the source, derived from a term written there, or made up.
#[derive(Clone, Copy, PartialEq, Eq, Structural)]
pub enum TermPos {
    Original(Span),
    Inherited(Span),
    Absent,
}

impl TermPos {
    pub open spec fn inherited(self) -> TermPos {
        match self {
            TermPos::Original(s) => TermPos::Inherited(s),
            p => p,
        }
    }

    /// The same position, marked as derived.
    pub fn into_inherited(self) -> (r: TermPos)
        ensures
            r == self.inherited(),
    {
        match self {
            TermPos::Original(s) => TermPos::Inherited(s),
            p => p,
        }
    }
}

/// An identifier: one written by the user, or one that the evaluator made up.
#[derive(Clone)]
pub enum Ident {
    Named(String),
    Generated(usize),
}

/// What identifies an identifier.
pub enum IdentView {
    Named(Seq<char>),
    Generated(usize),
}

impl View for Ident {
    type V = IdentView;

    open spec fn view(&self) -> IdentView {
        match self {
            Ident::Named(s) => IdentView::Named(s@),
            Ident::Generated(n) => IdentView::Generated(*n),
        }
    }
}

impl FieldKey for Ident {
    fn same_key(&self, other: &Self) -> (r: bool) {
        match (self, other) {
            (Ident::Named(a), Ident::Named(b)) => *a == *b,
            (Ident::Generated(a), Ident::Generated(b)) => *a == *b,
            _ => false,
        }
    }

    fn copy_key(&self) -> (r: Self) {
        match self {
            Ident::Named(s) => Ident::Named(s.clone()),
            Ident::Generated(n) => Ident::Generated(*n),
        }
    }
}

/// The decimal digit `d`.
pub open spec fn digit_char(d: nat) -> char {
    if d == 0 { '0' } else if d == 1 { '1' } else if d == 2 { '2' } else if d == 3 { '3' }
    else if d == 4 { '4' } else if d == 5 { '5' } else if d == 6 { '6' } else if d == 7 { '7' }
    else if d == 8 { '8' } else { '9' }
}

/// The decimal notation of `n`.
pub open spec fn decimal(n: nat) -> Seq<char>
    decreases n,
{
    if n < 10 {
        seq![digit_char(n)]
    } else {
        decimal(n / 10).push(digit_char(n % 10))
    }
}

/// How an identifier is written: its name, or `%` and its number for a generated one.
pub open spec fn ident_text(i: IdentView) -> Seq<char> {
    match i {
        IdentView::Named(s) => s,
        IdentView::Generated(n) => seq!['%'] + decimal(n as nat),
    }
}

fn digit_str(d: usize) -> (r: &'static str)
    requires
        d < 10,
    ensures
        r@ == seq![digit_char(d as nat)],
{
    proof {
        reveal_strlit("0");
        reveal_strlit("1");
        reveal_strlit("2");
        reveal_strlit("3");
        reveal_strlit("4");
        reveal_strlit("5");
        reveal_strlit("6");
        reveal_strlit("7");
        reveal_strlit("8");
        reveal_strlit("9");
    }
    let r = if d == 0 { "0" } else if d == 1 { "1" } else if d == 2 { "2" } else if d == 3 { "3" }
    else if d == 4 { "4" } else if d == 5 { "5" } else if d == 6 { "6" } else if d == 7 { "7" }
    else if d == 8 { "8" } else { "9" };
    proof {
        assert(r@ =~= seq![digit_char(d as nat)]);
    }
    r
}

fn decimal_string(n: usize) -> (r: String)
    ensures
        r@ == decimal(n as nat),
    decreases n,
{
    if n < 10 {
        let mut s = String::new();
        s.append(digit_str(n));
        proof {
            assert(s@ =~= decimal(n as nat));
        }
        s
    } else {
        let s = decimal_string(n / 10).concat(digit_str(n % 10));
        proof {
            assert(s@ =~= decimal(n as nat));
        }
        s
    }
}

impl Ident {
    pub fn named(s: &str) -> (r: Ident)
        ensures
            r@ == IdentView::Named(s@),
    {
        Ident::Named(s.to_string())
    }

    /// How the identifier is written.
    pub fn text(&self) -> (r: String)
        ensures
            r@ == ident_text(self@),
    {
        match self {
            Ident::Named(s) => s.clone(),
            Ident::Generated(n) => {
                let mut t = String::new();
                t.append("%");
                let r = t.concat(decimal_string(*n).as_str());
                proof {
                    reveal_strlit("%");
                    assert(r@ =~= ident_text(self@));
                }
                r
            },
        }
    }
}

/// Relies on `Rc::clone`: the new pointer refers to the same value.
#[verifier::external_body]
pub(crate) fn share<T>(x: &Rc<T>) -> (r: Rc<T>)
    ensures
        r == *x,
{
    Rc::clone(x)
}

/// Relies on `Rc::unwrap_or_clone`: the value itself, moved out when the pointer is the only one and
/// cloned otherwise. The clone of a term is the derived one, which clones every field: strings and
/// vectors element by element, shared subterms by sharing them, so it equals the value.
#[verifier::external_body]
pub(crate) fn unshare(x: Rc<Term>) -> (r: Term)
    ensures
        r == *x,
{
    Rc::unwrap_or_clone(x)
}

/// The diagnostic data of a merge: where the merge is.
#[derive(Clone, Copy, PartialEq, Eq, Structural)]
pub struct MergeLabel {
    pub span: Span,
}

/// A blame label: the contract it stands for (as it is displayed), where it was applied, the
/// diagnostic to report, and the argument it guards.
#[derive(Clone)]
pub struct Label {
    pub types: String,
    pub span: Span,
    pub diagnostic_message: Option<String>,
    pub diagnostic_notes: Vec<String>,
    pub arg_idx: Option<usize>,
    pub polarity: bool,
}

pub open spec fn strings_view(s: Seq<String>) -> Seq<Seq<char>> {
    s.map_values(|x: String| x@)
}

/// Two labels are equal: every field agrees.
pub open spec fn same_label(a: Label, b: Label) -> bool {
    &&& a.types@ == b.types@
    &&& a.span == b.span
    &&& a.arg_idx == b.arg_idx
    &&& a.polarity == b.polarity
    &&& match (a.diagnostic_message, b.diagnostic_message) {
        (Some(x), Some(y)) => x@ == y@,
        (None, None) => true,
        _ => false,
    }
    &&& strings_view(a.diagnostic_notes@) == strings_view(b.diagnostic_notes@)
}

fn same_strings(a: &Vec<String>, b: &Vec<String>) -> (r: bool)
    ensures
        r == (strings_view(a@) == strings_view(b@)),
{
    if a.len() != b.len() {
        proof {
            assert(strings_view(a@).len() != strings_view(b@).len());
        }
        return false;
    }
    let mut j: usize = 0;
    while j < a.len()
        invariant
            a@.len() == b@.len(),
            j <= a@.len(),
            forall|i: int| 0 <= i < j ==> a@[i]@ == b@[i]@,
        decreases a.len() - j,
    {
        if a[j] != b[j] {
            proof {
                assert(strings_view(a@)[j as int] != strings_view(b@)[j as int]);
            }
            return false;
        }
        j = j + 1;
    }
    proof {
        assert(strings_view(a@) =~= strings_view(b@));
    }
    true
}

impl Label {
    pub fn same(&self, other: &Label) -> (r: bool)
        ensures
            r == same_label(*self, *other),
    {
        let msg = match (&self.diagnostic_message, &other.diagnostic_message) {
            (Some(x), Some(y)) => *x == *y,
            (None, None) => true,
            _ => false,
        };
        self.types == other.types && self.span == other.span && self.arg_idx == other.arg_idx
            && self.polarity == other.polarity && msg && same_strings(
            &self.diagnostic_notes,
            &other.diagnostic_notes,
        )
    }

    /// The label with its diagnostic message replaced.
    pub fn with_diagnostic_message(self, message: String) -> (r: Label)
        ensures
            r == (Label { diagnostic_message: Some(message), ..self }),
    {
        Label { diagnostic_message: Some(message), ..self }
    }

    /// The label with its diagnostic notes replaced.
    pub fn with_diagnostic_notes(self, notes: Vec<String>) -> (r: Label)
        ensures
            r == (Label { diagnostic_notes: notes, ..self }),
    {
        Label { diagnostic_notes: notes, ..self }
    }

    /// The label with one more diagnostic note.
    pub fn append_diagnostic_note(self, note: String) -> (r: Label)
        ensures
            r.diagnostic_notes@ == self.diagnostic_notes@.push(note),
            r == (Label { diagnostic_notes: r.diagnostic_notes, ..self }),
    {
        let mut l = self;
        l.diagnostic_notes.push(note);
        l
    }

    /// The projection of a contract label on a merge label.
    pub fn to_merge_label(&self) -> (r: MergeLabel)
        ensures
            r.span == self.span,
    {
        MergeLabel { span: self.span }
    }
}

/// A term with its position. Terms are shared, not copied.
#[derive(Clone)]
pub struct RichTerm {
    pub term: Rc<Term>,
    pub pos: TermPos,
}

impl RichTerm {
    pub fn new(term: Term, pos: TermPos) -> (r: RichTerm)
        ensures
            *r.term == term,
            r.pos == pos,
    {
        RichTerm { term: Rc::new(term), pos }
    }

    /// A term without a position.
    pub fn from_term(term: Term) -> (r: RichTerm)
        ensures
            *r.term == term,
            r.pos == TermPos::Absent,
    {
        RichTerm::new(term, TermPos::Absent)
    }

    /// Another handle on the same term.
    pub fn share(&self) -> (r: RichTerm)
        ensures
            r == *self,
    {
        RichTerm { term: share(&self.term), pos: self.pos }
    }
}

#[derive(Clone)]
pub enum UnaryOp {
    StaticAccess(Ident),
}

#[derive(Clone)]
pub enum BinaryOp {
    Merge(MergeLabel),
    Assume,
}

/// The terms of the language that merge builds or inspects.
#[derive(Clone)]
pub enum Term {
    Null,
    Bool(bool),
    Num(Number),
    Str(String),
    Enum(Ident),
    Lbl(Label),
    Array(Vec<RichTerm>),
    Record(RecordData),
    /// A record whose fields may refer to each other.
    RecRecord(RecordData),
    Var(Ident),
    Fun(Ident, RichTerm),
    App(RichTerm, RichTerm),
    Op1(UnaryOp, RichTerm),
    Op2(BinaryOp, RichTerm, RichTerm),
}

/// The rational number `num / den`. The denominator is positive.
#[derive(Clone, Copy, PartialEq, Eq, Structural)]
pub struct Number {
    pub num: i64,
    pub den: u64,
}

/// `a` and `b` are the same rational number.
pub open spec fn same_number(a: Number, b: Number) -> bool {
    a.num * b.den == b.num * a.den
}

/// `a` is below `b`.
pub open spec fn number_lt(a: Number, b: Number) -> bool {
    a.num * b.den < b.num * a.den
}

/// `a * d`, which fits in 128 bits.
fn cross(a: i64, d: u64) -> (r: i128)
    ensures
        r == a * d,
{
    proof {
        let x = a as int;
        let y = d as int;
        assert(-0x8000_0000_0000_0000 <= x <= 0x7fff_ffff_ffff_ffff);
        assert(0 <= y <= 0xffff_ffff_ffff_ffff);
        assert(-0x8000_0000_0000_0000 * 0xffff_ffff_ffff_ffff <= x * y <= 0x7fff_ffff_ffff_ffff
            * 0xffff_ffff_ffff_ffff) by (nonlinear_arith)
            requires
                -0x8000_0000_0000_0000 <= x <= 0x7fff_ffff_ffff_ffff,
                0 <= y <= 0xffff_ffff_ffff_ffff,
        ;
    }
    (a as i128) * (d as i128)
}

impl Number {
    /// The integer `n`.
    pub fn integer(n: i64) -> (r: Number)
        ensures
            r.num == n,
            r.den == 1,
    {
        Number { num: n, den: 1 }
    }

    pub fn same(&self, other: &Number) -> (r: bool)
        ensures
            r == same_number(*self, *other),
    {
        cross(self.num, other.den) == cross(other.num, self.den)
    }

    pub fn less_than(&self, other: &Number) -> (r: bool)
        ensures
            r == number_lt(*self, *other),
    {
        cross(self.num, other.den) < cross(other.num, self.den)
    }
}

/// Field priorities, from lowest to highest.
#[derive(Clone, Copy, PartialEq, Eq, Structural)]
pub enum MergePriority {
    Default,
    Neutral,
    Numeric(Number),
    Force,
}

/// The total order of priorities: `Default < Neutral < Numeric(q) < Force`, numerics by value.
pub open spec fn priority_lt(a: MergePriority, b: MergePriority) -> bool {
    match (a, b) {
        (MergePriority::Numeric(x), MergePriority::Numeric(y)) => number_lt(x, y),
        _ => priority_rank(a) < priority_rank(b),
    }
}

/// Two priorities are the same: the same level, and for numerics the same number.
pub open spec fn priority_eq(a: MergePriority, b: MergePriority) -> bool {
    match (a, b) {
        (MergePriority::Numeric(x), MergePriority::Numeric(y)) => same_number(x, y),
        _ => priority_rank(a) == priority_rank(b),
    }
}

pub open spec fn priority_rank(p: MergePriority) -> int {
    match p {
        MergePriority::Default => 0,
        MergePriority::Neutral => 1,
        MergePriority::Numeric(_) => 2,
        MergePriority::Force => 3,
    }
}

impl MergePriority {
    pub fn less_than(&self, other: &MergePriority) -> (r: bool)
        ensures
            r == priority_lt(*self, *other),
    {
        match (self, other) {
            (MergePriority::Numeric(x), MergePriority::Numeric(y)) => x.less_than(y),
            _ => self.rank() < other.rank(),
        }
    }

    pub fn equals(&self, other: &MergePriority) -> (r: bool)
        ensures
            r == priority_eq(*self, *other),
    {
        match (self, other) {
            (MergePriority::Numeric(x), MergePriority::Numeric(y)) => x.same(y),
            _ => self.rank() == other.rank(),
        }
    }

    fn rank(&self) -> (r: u8)
        ensures
            r == priority_rank(*self),
    {
        match self {
            MergePriority::Default => 0,
            MergePriority::Neutral => 1,
            MergePriority::Numeric(_) => 2,
            MergePriority::Force => 3,
        }
    }
}

/// A type or contract annotation with its blame label.
#[derive(Clone)]
pub struct LabeledType {
    pub types: RichTerm,
    pub label: Label,
}

#[derive(Clone)]
pub struct TypeAnnotation {
    pub types: Option<LabeledType>,
    pub contracts: Vec<LabeledType>,
}

#[derive(Clone)]
pub struct FieldMetadata {
    pub doc: Option<String>,
    pub annotation: TypeAnnotation,
    pub opt: bool,
    pub not_exported: bool,
    pub priority: MergePriority,
}

/// A contract to apply to a field's value when the field is read.
#[derive(Clone)]
pub struct RuntimeContract {
    pub contract: RichTerm,
    pub label: Label,
}

#[derive(Clone)]
pub struct Field {
    pub metadata: FieldMetadata,
    pub value: Option<RichTerm>,
    pub pending_contracts: Vec<RuntimeContract>,
}

#[derive(Clone, Copy, PartialEq, Eq, Structural)]
pub struct RecordAttrs {
    /// Whether a record contract accepts fields it does not list.
    pub open: bool,
}

impl RecordAttrs {
    /// The attributes of the merge of two records: open when both are.
    pub fn merge(a: RecordAttrs, b: RecordAttrs) -> (r: RecordAttrs)
        ensures
            r.open == (a.open && b.open),
    {
        RecordAttrs { open: a.open && b.open }
    }
}

/// The hidden fields of a record that was made from a polymorphic type.
#[derive(Clone)]
pub struct SealedTail {
    pub label: Label,
}

#[derive(Clone)]
pub struct RecordData {
    pub fields: IndexMap<Ident, Field>,
    pub attrs: RecordAttrs,
    pub sealed_tail: Option<SealedTail>,
}

} // verus!
