//! The mid-level intermediate representation: constants, intrinsics,
//! patterns with bindings, and expressions.
use vstd::prelude::*;

verus! {

/// The name of a local variable.
pub type Ident = String;

/// The names of a sequence of identifiers, by their text.
pub open spec fn idents_view(v: Seq<Ident>) -> Seq<Seq<char>> {
    v.map_values(|s: Ident| s@)
}

/// A global procedure of the program.
#[derive(Copy, Clone, Debug, PartialEq, Eq, Structural)]
pub struct ProcId(pub usize);

/// How values of a type are represented at run time, by its index in the
/// program's table of representations.
#[derive(Copy, Clone, Debug, PartialEq, Eq, Structural)]
pub struct Repr(pub usize);

/// A node of a tree, with meta-data attached.
#[derive(Clone, Debug)]
pub struct Node<T, M> {
    pub inner: Box<T>,
    pub meta: M,
}

pub type MirMeta = Repr;

pub type MirNode<T> = Node<T, MirMeta>;

#[derive(Copy, Clone, Debug)]
pub struct LocalId(usize);

/// A constant value. A `Num` holds the IEEE 754 bit pattern of its `f64`.
#[derive(Debug)]
pub enum Const {
    Nat(u64),
    Int(i64),
    Num(u64),
    Char(char),
    Bool(bool),
    Str(String),
    Tuple(Vec<Const>),
    List(Vec<Const>),
    Sum(usize, Box<Const>),
}

/// The mathematical model of a constant: strings and elements as sequences.
pub enum ConstView {
    Nat(u64),
    Int(i64),
    Num(u64),
    Char(char),
    Bool(bool),
    Str(Seq<char>),
    Tuple(Seq<ConstView>),
    List(Seq<ConstView>),
    Sum(usize, Box<ConstView>),
}

/// The model of a constant.
pub open spec fn const_view(c: &Const) -> ConstView
    decreases c, 1nat,
{
    match c {
        Const::Nat(x) => ConstView::Nat(*x),
        Const::Int(x) => ConstView::Int(*x),
        Const::Num(x) => ConstView::Num(*x),
        Const::Char(x) => ConstView::Char(*x),
        Const::Bool(x) => ConstView::Bool(*x),
        Const::Str(s) => ConstView::Str(s@),
        Const::Tuple(v) => ConstView::Tuple(consts_view(v@)),
        Const::List(v) => ConstView::List(consts_view(v@)),
        Const::Sum(i, inner) => ConstView::Sum(*i, Box::new(const_view(&**inner))),
    }
}

/// The models of a sequence of constants.
pub open spec fn consts_view(s: Seq<Const>) -> Seq<ConstView>
    decreases s, 0nat,
{
    if s.len() == 0 {
        seq![]
    } else {
        consts_view(s.drop_last()).push(const_view(&s.last()))
    }
}

impl View for Const {
    type V = ConstView;

    open spec fn view(&self) -> ConstView {
        const_view(self)
    }
}

proof fn lemma_consts_view_index(s: Seq<Const>, i: int)
    requires
        0 <= i < s.len(),
    ensures
        consts_view(s).len() == s.len(),
        consts_view(s)[i] == const_view(&s[i]),
    decreases s.len(),
{
    lemma_consts_view_len(s);
    if i < s.len() - 1 {
        lemma_consts_view_index(s.drop_last(), i);
        assert(s.drop_last()[i] == s[i]);
    }
}

proof fn lemma_consts_view_len(s: Seq<Const>)
    ensures
        consts_view(s).len() == s.len(),
    decreases s.len(),
{
    if s.len() > 0 {
        lemma_consts_view_len(s.drop_last());
    }
}

proof fn lemma_consts_view_ext(s: Seq<Const>, t: Seq<Const>)
    requires
        s.len() == t.len(),
        forall|i: int| 0 <= i < s.len() ==> const_view(&#[trigger] s[i]) == const_view(&t[i]),
    ensures
        consts_view(s) == consts_view(t),
{
    lemma_consts_view_len(s);
    lemma_consts_view_len(t);
    assert forall|i: int| 0 <= i < s.len() implies consts_view(s)[i] == consts_view(t)[i] by {
        lemma_consts_view_index(s, i);
        lemma_consts_view_index(t, i);
    }
    assert(consts_view(s) =~= consts_view(t));
}

fn copy_consts(v: &Vec<Const>) -> (r: Vec<Const>)
    ensures
        consts_view(r@) == consts_view(v@),
    decreases v, 0nat,
{
    let mut r: Vec<Const> = Vec::new();
    let mut i: usize = 0;
    while i < v.len()
        invariant
            i <= v.len(),
            r.len() == i,
            forall|k: int| 0 <= k < i ==> const_view(&#[trigger] r@[k]) == const_view(&v@[k]),
        decreases v.len() - i,
    {
        proof {
            assert(decreases_to!(v => v@[i as int]));
        }
        r.push(v[i].copy());
        i += 1;
    }
    proof {
        lemma_consts_view_ext(r@, v@);
    }
    r
}

impl Const {
    /// A copy of this constant, equal to it.
    pub fn copy(&self) -> (r: Const)
        ensures
            r@ == self@,
        decreases self, 1nat,
    {
        match self {
            Const::Nat(x) => Const::Nat(*x),
            Const::Int(x) => Const::Int(*x),
            Const::Num(x) => Const::Num(*x),
            Const::Char(x) => Const::Char(*x),
            Const::Bool(x) => Const::Bool(*x),
            Const::Str(s) => Const::Str(s.clone()),
            Const::Tuple(v) => Const::Tuple(copy_consts(v)),
            Const::List(v) => Const::List(copy_consts(v)),
            Const::Sum(i, inner) => Const::Sum(*i, Box::new((&**inner).copy())),
        }
    }

    /// The boolean of a `Bool` constant.
    pub fn bool(&self) -> (r: bool)
        requires
            self is Bool,
        ensures
            r == self->Bool_0,
    {
        match self {
            Const::Bool(x) => *x,
            _ => false,
        }
    }

    /// The number of a `Nat` constant.
    pub fn as_nat(&self) -> (r: u64)
        requires
            self is Nat,
        ensures
            r == self->Nat_0,
    {
        match self {
            Const::Nat(x) => *x,
            _ => 0,
        }
    }

    /// The number of an `Int` constant.
    pub fn as_int(&self) -> (r: i64)
        requires
            self is Int,
        ensures
            r == self->Int_0,
    {
        match self {
            Const::Int(x) => *x,
            _ => 0,
        }
    }

    /// The bit pattern of the `f64` of a `Num` constant.
    pub fn num(&self) -> (r: u64)
        requires
            self is Num,
        ensures
            r == self->Num_0,
    {
        match self {
            Const::Num(x) => *x,
            _ => 0,
        }
    }

    /// The character of a `Char` constant.
    pub fn char(&self) -> (r: char)
        requires
            self is Char,
        ensures
            r == self->Char_0,
    {
        match self {
            Const::Char(c) => *c,
            _ => ' ',
        }
    }

    /// The elements of a `List` constant.
    pub fn list(&self) -> (r: Vec<Const>)
        requires
            self is List,
        ensures
            consts_view(r@) == consts_view(self->List_0@),
    {
        match self {
            Const::List(x) => copy_consts(x),
            _ => Vec::new(),
        }
    }
}

impl Clone for Const {
    fn clone(&self) -> (r: Self)
        ensures
            r@ == self@,
    {
        self.copy()
    }
}

/// An operation built into the language.
#[derive(Copy, Clone, Debug)]
pub enum Intrinsic {
    MakeList(Repr),

    NotBool,

    NegNat,
    AddNat,
    SubNat,
    MulNat,
    DivNat,
    RemNat,
    EqNat,
    NotEqNat,
    LessNat,
    MoreNat,
    LessEqNat,
    MoreEqNat,

    NegInt,
    AddInt,
    SubInt,
    MulInt,
    DivInt,
    EqInt,
    NotEqInt,
    LessInt,
    MoreInt,
    LessEqInt,
    MoreEqInt,

    NegNum,
    AddNum,
    SubNum,
    MulNum,
    DivNum,
    EqNum,
    NotEqNum,
    LessNum,
    MoreNum,
    LessEqNum,
    MoreEqNum,

    EqChar,
    NotEqChar,

    Join(Repr),
}

/// A pattern that a value is matched against.
#[derive(Debug)]
pub enum Pat {
    Wildcard,
    /// Expression is evaluated and then compared
    Const(Const),
    Single(MirNode<Binding>),
    Add(MirNode<Binding>, u64),
    Tuple(Vec<MirNode<Binding>>),
    ListExact(Vec<MirNode<Binding>>),
    ListFront(Vec<MirNode<Binding>>, Option<MirNode<Binding>>),
    Variant(usize, MirNode<Binding>),
}

/// A pattern, optionally naming the value it matches.
#[derive(Debug)]
pub struct Binding {
    pub pat: Pat,
    pub name: Option<Ident>,
}

/// The names a binding introduces, in order: its own name first, then those
/// of its sub-patterns from left to right.
pub open spec fn binding_names_of(b: &Binding) -> Seq<Seq<char>>
    decreases b, 1nat,
{
    let own: Seq<Seq<char>> = match &b.name {
        Some(n) => seq![n@],
        None => seq![],
    };
    own + match &b.pat {
        Pat::Wildcard => seq![],
        Pat::Const(_) => seq![],
        Pat::Single(inner) => binding_names_of(&*inner.inner),
        Pat::Add(lhs, _) => binding_names_of(&*lhs.inner),
        Pat::Tuple(fields) => bindings_names_of(fields@),
        Pat::ListExact(items) => bindings_names_of(items@),
        Pat::ListFront(items, tail) => bindings_names_of(items@) + match tail {
            Some(t) => binding_names_of(&*t.inner),
            None => seq![],
        },
        Pat::Variant(_, inner) => binding_names_of(&*inner.inner),
    }
}

/// The names a sequence of bindings introduces, from left to right.
pub open spec fn bindings_names_of(s: Seq<MirNode<Binding>>) -> Seq<Seq<char>>
    decreases s, 0nat,
{
    if s.len() == 0 {
        seq![]
    } else {
        bindings_names_of(s.drop_last()) + binding_names_of(&*s.last().inner)
    }
}

/// Whether a binding can fail to match a value of its type.
pub open spec fn refutable(b: &Binding) -> bool
    decreases b, 1nat,
{
    match &b.pat {
        Pat::Wildcard => false,
        Pat::Const(c) => !(c is Tuple && c->Tuple_0@.len() == 0),
        Pat::Single(inner) => refutable(&*inner.inner),
        Pat::Add(lhs, rhs) => *rhs > 0 || refutable(&*lhs.inner),
        Pat::Tuple(fields) => any_refutable(fields@),
        Pat::ListExact(_) => true,
        Pat::ListFront(items, tail) => items@.len() > 0 || match tail {
            Some(t) => refutable(&*t.inner),
            None => false,
        },
        Pat::Variant(_, _) => true,
    }
}

/// Whether any binding of a sequence is refutable.
pub open spec fn any_refutable(s: Seq<MirNode<Binding>>) -> bool
    decreases s, 0nat,
{
    if s.len() == 0 {
        false
    } else {
        any_refutable(s.drop_last()) || refutable(&*s.last().inner)
    }
}

/// Whether a binding names anything, here or in any sub-pattern.
pub open spec fn names_something(b: &Binding) -> bool
    decreases b, 1nat,
{
    ||| b.name is Some
    ||| match &b.pat {
        Pat::Wildcard => false,
        Pat::Const(_) => false,
        Pat::Single(inner) => names_something(&*inner.inner),
        Pat::Add(lhs, _) => names_something(&*lhs.inner),
        Pat::Tuple(fields) => any_names_something(fields@),
        Pat::ListExact(items) => any_names_something(items@),
        Pat::ListFront(items, tail) => any_names_something(items@) || match tail {
            Some(t) => names_something(&*t.inner),
            None => false,
        },
        Pat::Variant(_, inner) => names_something(&*inner.inner),
    }
}

/// Whether any binding of a sequence names anything.
pub open spec fn any_names_something(s: Seq<MirNode<Binding>>) -> bool
    decreases s, 0nat,
{
    if s.len() == 0 {
        false
    } else {
        any_names_something(s.drop_last()) || names_something(&*s.last().inner)
    }
}

proof fn lemma_idents_view_push(v: Seq<Ident>, x: Ident)
    ensures
        idents_view(v.push(x)) == idents_view(v).push(x@),
{
    assert(idents_view(v.push(x)) =~= idents_view(v).push(x@));
}

fn any_field_refutable(fields: &Vec<MirNode<Binding>>) -> (r: bool)
    ensures
        r == any_refutable(fields@),
    decreases fields, 0nat,
{
    let mut i: usize = 0;
    while i < fields.len()
        invariant
            i <= fields.len(),
            !any_refutable(fields@.subrange(0, i as int)),
        decreases fields.len() - i,
    {
        proof {
            assert(decreases_to!(fields => fields@[i as int]));
            assert(fields@.subrange(0, i + 1).drop_last() =~= fields@.subrange(0, i as int));
        }
        if fields[i].inner.is_refutable() {
            proof {
                lemma_any_refutable_prefix(fields@, i + 1);
            }
            return true;
        }
        i += 1;
    }
    assert(fields@.subrange(0, i as int) =~= fields@);
    false
}

proof fn lemma_any_refutable_prefix(s: Seq<MirNode<Binding>>, k: int)
    requires
        0 <= k <= s.len(),
        any_refutable(s.subrange(0, k)),
    ensures
        any_refutable(s),
    decreases s.len() - k,
{
    if k < s.len() {
        assert(s.subrange(0, k + 1).drop_last() =~= s.subrange(0, k));
        lemma_any_refutable_prefix(s, k + 1);
    } else {
        assert(s.subrange(0, k) =~= s);
    }
}

fn collect_all_names(items: &Vec<MirNode<Binding>>, out: &mut Vec<Ident>)
    ensures
        idents_view(final(out)@) == idents_view(old(out)@) + bindings_names_of(items@),
    decreases items, 0nat,
{
    let mut i: usize = 0;
    while i < items.len()
        invariant
            i <= items.len(),
            idents_view(out@) == idents_view(old(out)@) + bindings_names_of(
                items@.subrange(0, i as int),
            ),
        decreases items.len() - i,
    {
        proof {
            assert(decreases_to!(items => items@[i as int]));
            assert(items@.subrange(0, i + 1).drop_last() =~= items@.subrange(0, i as int));
        }
        items[i].inner.collect_names(out);
        i += 1;
        assert(idents_view(out@) =~= idents_view(old(out)@) + bindings_names_of(
            items@.subrange(0, i as int),
        ));
    }
    assert(items@.subrange(0, i as int) =~= items@);
}

impl Binding {
    /// Whether this binding can fail to match a value of its type.
    pub fn is_refutable(&self) -> (r: bool)
        ensures
            r == refutable(self),
        decreases self, 1nat,
    {
        match &self.pat {
            Pat::Wildcard => false,
            Pat::Const(c) => match c {
                Const::Tuple(fields) => fields.len() != 0,
                _ => true,
            },
            Pat::Single(inner) => inner.inner.is_refutable(),
            Pat::Add(lhs, rhs) => *rhs > 0 || lhs.inner.is_refutable(),
            Pat::Tuple(fields) => any_field_refutable(fields),
            Pat::ListExact(_) => true,
            Pat::ListFront(items, tail) => items.len() > 0 || match tail {
                Some(tail) => tail.inner.is_refutable(),
                None => false,
            },
            Pat::Variant(_, _) => true,
        }
    }

    /// Appends the names this binding introduces, in order.
    #[verifier::spinoff_prover]
    #[verifier::rlimit(30)]
    fn collect_names(&self, out: &mut Vec<Ident>)
        ensures
            idents_view(final(out)@) == idents_view(old(out)@) + binding_names_of(self),
        decreases self, 1nat,
    {
        match &self.name {
            Some(name) => {
                out.push(name.clone());
                proof {
                    lemma_idents_view_push(old(out)@, *name);
                }
            },
            None => {},
        }
        match &self.pat {
            Pat::Wildcard => {},
            Pat::Const(_) => {},
            Pat::Single(inner) => inner.inner.collect_names(out),
            Pat::Add(lhs, _) => lhs.inner.collect_names(out),
            Pat::Tuple(fields) => collect_all_names(fields, out),
            Pat::ListExact(items) => collect_all_names(items, out),
            Pat::ListFront(items, tail) => {
                collect_all_names(items, out);
                match tail {
                    Some(tail) => tail.inner.collect_names(out),
                    None => {},
                }
            },
            Pat::Variant(_, inner) => inner.inner.collect_names(out),
        }
        assert(idents_view(out@) =~= idents_view(old(out)@) + binding_names_of(self));
    }

    /// The names this binding introduces, in order.
    pub fn binding_names(&self) -> (r: Vec<Ident>)
        ensures
            idents_view(r@) == binding_names_of(self),
    {
        let mut names = Vec::new();
        self.collect_names(&mut names);
        assert(idents_view(names@) =~= binding_names_of(self)) by {
            assert(idents_view(Seq::<Ident>::empty()) =~= Seq::<Seq<char>>::empty());
        }
        names
    }

    /// Whether this binding introduces any name.
    pub fn binds(&self) -> (r: bool)
        ensures
            r == (binding_names_of(self).len() > 0),
    {
        let names = self.binding_names();
        names.len() > 0
    }
}

/// Whether two bindings have the same shape, constants and meta-data, and,
/// when `names` holds, the same names too.
pub open spec fn binding_alike(a: &Binding, b: &Binding, names: bool) -> bool
    decreases a, 2nat,
{
    &&& !names || match (&a.name, &b.name) {
        (Some(x), Some(y)) => x@ == y@,
        (None, None) => true,
        _ => false,
    }
    &&& pat_alike(&a.pat, &b.pat, names)
}

/// Whether two nodes hold alike bindings with the same meta-data.
pub open spec fn binding_node_alike(a: MirNode<Binding>, b: MirNode<Binding>, names: bool) -> bool {
    a.meta == b.meta && binding_alike(&*a.inner, &*b.inner, names)
}

/// Whether two patterns are alike (see `binding_alike`).
pub open spec fn pat_alike(p: &Pat, q: &Pat, names: bool) -> bool
    decreases p, 1nat,
{
    match p {
        Pat::Wildcard => q is Wildcard,
        Pat::Const(c) => match q {
            Pat::Const(d) => const_view(c) == const_view(d),
            _ => false,
        },
        Pat::Single(x) => match q {
            Pat::Single(y) => x.meta == y.meta && binding_alike(&*x.inner, &*y.inner, names),
            _ => false,
        },
        Pat::Add(x, n) => match q {
            Pat::Add(y, m) => *n == *m && x.meta == y.meta && binding_alike(
                &*x.inner,
                &*y.inner,
                names,
            ),
            _ => false,
        },
        Pat::Tuple(xs) => match q {
            Pat::Tuple(ys) => bindings_alike(xs@, ys@, names),
            _ => false,
        },
        Pat::ListExact(xs) => match q {
            Pat::ListExact(ys) => bindings_alike(xs@, ys@, names),
            _ => false,
        },
        Pat::ListFront(xs, xt) => match q {
            Pat::ListFront(ys, yt) => bindings_alike(xs@, ys@, names) && match xt {
                Some(x) => match yt {
                    Some(y) => x.meta == y.meta && binding_alike(&*x.inner, &*y.inner, names),
                    None => false,
                },
                None => yt is None,
            },
            _ => false,
        },
        Pat::Variant(i, x) => match q {
            Pat::Variant(j, y) => *i == *j && x.meta == y.meta && binding_alike(
                &*x.inner,
                &*y.inner,
                names,
            ),
            _ => false,
        },
    }
}

/// Whether two sequences of bindings are alike element by element.
pub open spec fn bindings_alike(xs: Seq<MirNode<Binding>>, ys: Seq<MirNode<Binding>>, names: bool) -> bool
    decreases xs, 0nat,
{
    &&& xs.len() == ys.len()
    &&& xs.len() == 0 || (bindings_alike(xs.drop_last(), ys.drop_last(), names)
        && xs.last().meta == ys.last().meta && binding_alike(
        &*xs.last().inner,
        &*ys.last().inner,
        names,
    ))
}

/// Names never decide refutability: bindings alike but for their names are
/// refutable alike.
pub proof fn lemma_refutable_ignores_names(a: &Binding, b: &Binding)
    requires
        binding_alike(a, b, false),
    ensures
        refutable(a) == refutable(b),
    decreases a, 2nat,
{
    lemma_pat_refutable_ignores_names(&a.pat, &b.pat);
}

proof fn lemma_pat_refutable_ignores_names(p: &Pat, q: &Pat)
    requires
        pat_alike(p, q, false),
    ensures
        refutable(&Binding { pat: *p, name: None }) == refutable(&Binding { pat: *q, name: None }),
    decreases p, 1nat,
{
    match p {
        Pat::Wildcard => {},
        Pat::Const(c) => {
            if let Pat::Const(d) = q {
                match c {
                    Const::Tuple(v) => {
                        if let Const::Tuple(w) = d {
                            lemma_consts_view_len(v@);
                            lemma_consts_view_len(w@);
                        }
                    },
                    _ => {},
                }
                match d {
                    Const::Tuple(w) => {
                        if let Const::Tuple(v) = c {
                            lemma_consts_view_len(v@);
                            lemma_consts_view_len(w@);
                        }
                    },
                    _ => {},
                }
            }
        },
        Pat::Single(x) => {
            if let Pat::Single(y) = q {
                lemma_refutable_ignores_names(&*x.inner, &*y.inner);
            }
        },
        Pat::Add(x, _) => {
            if let Pat::Add(y, _) = q {
                lemma_refutable_ignores_names(&*x.inner, &*y.inner);
            }
        },
        Pat::Tuple(xs) => {
            if let Pat::Tuple(ys) = q {
                lemma_any_refutable_ignores_names(xs@, ys@);
            }
        },
        Pat::ListExact(_) => {},
        Pat::ListFront(_, xt) => {
            if let Pat::ListFront(_, yt) = q {
                match xt {
                    Some(x) => {
                        if let Some(y) = yt {
                            lemma_refutable_ignores_names(&*x.inner, &*y.inner);
                        }
                    },
                    None => {},
                }
            }
        },
        Pat::Variant(_, _) => {},
    }
}

proof fn lemma_any_refutable_ignores_names(xs: Seq<MirNode<Binding>>, ys: Seq<MirNode<Binding>>)
    requires
        bindings_alike(xs, ys, false),
    ensures
        any_refutable(xs) == any_refutable(ys),
    decreases xs, 0nat,
{
    if xs.len() > 0 {
        lemma_any_refutable_ignores_names(xs.drop_last(), ys.drop_last());
        lemma_refutable_ignores_names(&*xs.last().inner, &*ys.last().inner);
    }
}

fn copy_binding_node(x: &MirNode<Binding>) -> (r: MirNode<Binding>)
    ensures
        binding_node_alike(r, *x, true),
    decreases x, 3nat,
{
    MirNode { inner: Box::new(x.inner.copy()), meta: x.meta }
}

fn copy_bindings(v: &Vec<MirNode<Binding>>) -> (r: Vec<MirNode<Binding>>)
    ensures
        bindings_alike(r@, v@, true),
    decreases v, 0nat,
{
    let mut r: Vec<MirNode<Binding>> = Vec::new();
    let mut i: usize = 0;
    while i < v.len()
        invariant
            i <= v.len(),
            bindings_alike(r@, v@.subrange(0, i as int), true),
        decreases v.len() - i,
    {
        proof {
            assert(decreases_to!(v => v@[i as int]));
        }
        let ghost before = r@;
        r.push(copy_binding_node(&v[i]));
        proof {
            assert(r@.drop_last() =~= before);
            assert(v@.subrange(0, i + 1).drop_last() =~= v@.subrange(0, i as int));
        }
        i += 1;
    }
    assert(v@.subrange(0, i as int) =~= v@);
    r
}

fn copy_pat(p: &Pat) -> (r: Pat)
    ensures
        pat_alike(&r, p, true),
    decreases p, 1nat,
{
    match p {
        Pat::Wildcard => Pat::Wildcard,
        Pat::Const(c) => Pat::Const(c.copy()),
        Pat::Single(x) => Pat::Single(copy_binding_node(x)),
        Pat::Add(x, n) => Pat::Add(copy_binding_node(x), *n),
        Pat::Tuple(xs) => Pat::Tuple(copy_bindings(xs)),
        Pat::ListExact(xs) => Pat::ListExact(copy_bindings(xs)),
        Pat::ListFront(xs, t) => {
            let tail = match t {
                Some(x) => Some(copy_binding_node(x)),
                None => None,
            };
            Pat::ListFront(copy_bindings(xs), tail)
        },
        Pat::Variant(i, x) => Pat::Variant(*i, copy_binding_node(x)),
    }
}

impl Binding {
    fn copy(&self) -> (r: Binding)
        ensures
            binding_alike(&r, self, true),
        decreases self, 2nat,
    {
        let name = match &self.name {
            Some(n) => Some(n.clone()),
            None => None,
        };
        Binding { pat: copy_pat(&self.pat), name }
    }
}

impl Clone for Binding {
    fn clone(&self) -> (r: Self)
        ensures
            binding_alike(&r, self, true),
    {
        self.copy()
    }
}

impl Clone for Pat {
    fn clone(&self) -> (r: Self)
        ensures
            pat_alike(&r, self, true),
    {
        copy_pat(self)
    }
}

/// Flags of a reference to a global.
#[derive(Copy, Clone, Debug)]
pub struct GlobalFlags {
    /// Determines whether a global reference may be inlined. By default this is `true`, but inlining is not permitted
    /// for recursive definitions.
    pub can_inline: bool,
}

impl Default for GlobalFlags {
    fn default() -> (r: Self)
        ensures
            r.can_inline,
    {
        Self { can_inline: true }
    }
}

/// An expression of the intermediate representation.
#[derive(Debug)]
pub enum Expr {
    Const(Const),
    Local(Ident),
    Global(ProcId, GlobalFlags),

    Intrinsic(Intrinsic, Vec<MirNode<Expr>>),
    Match(MirNode<Expr>, Vec<(MirNode<Binding>, MirNode<Expr>)>),

    /// (captures, arg, body)
    Func(Vec<Ident>, Ident, MirNode<Expr>),
    Apply(MirNode<Expr>, MirNode<Expr>),

    Tuple(Vec<MirNode<Expr>>),
    Access(MirNode<Expr>, usize),
    List(Vec<MirNode<Expr>>),

    Variant(usize, MirNode<Expr>),
    /// Unsafely assume the value is a specific variant
    AccessVariant(MirNode<Expr>, usize),

    Debug(MirNode<Expr>),
}

/// Whether two expressions are the same: same shape, names, constants,
/// intrinsics, flags and meta-data.
pub open spec fn expr_same(a: &Expr, b: &Expr) -> bool
    decreases a, 1nat,
{
    match a {
        Expr::Const(c) => match b {
            Expr::Const(d) => const_view(c) == const_view(d),
            _ => false,
        },
        Expr::Local(x) => match b {
            Expr::Local(y) => x@ == y@,
            _ => false,
        },
        Expr::Global(g, f) => match b {
            Expr::Global(h, k) => *g == *h && *f == *k,
            _ => false,
        },
        Expr::Intrinsic(op, xs) => match b {
            Expr::Intrinsic(op2, ys) => *op == *op2 && exprs_same(xs@, ys@),
            _ => false,
        },
        Expr::Match(x, arms) => match b {
            Expr::Match(y, arms2) => expr_node_same(*x, *y) && arms_same(arms@, arms2@),
            _ => false,
        },
        Expr::Func(caps, arg, body) => match b {
            Expr::Func(caps2, arg2, body2) => idents_view(caps@) == idents_view(caps2@) && arg@
                == arg2@ && expr_node_same(*body, *body2),
            _ => false,
        },
        Expr::Apply(f, x) => match b {
            Expr::Apply(g, y) => expr_node_same(*f, *g) && expr_node_same(*x, *y),
            _ => false,
        },
        Expr::Tuple(xs) => match b {
            Expr::Tuple(ys) => exprs_same(xs@, ys@),
            _ => false,
        },
        Expr::Access(x, i) => match b {
            Expr::Access(y, j) => *i == *j && expr_node_same(*x, *y),
            _ => false,
        },
        Expr::List(xs) => match b {
            Expr::List(ys) => exprs_same(xs@, ys@),
            _ => false,
        },
        Expr::Variant(i, x) => match b {
            Expr::Variant(j, y) => *i == *j && expr_node_same(*x, *y),
            _ => false,
        },
        Expr::AccessVariant(x, i) => match b {
            Expr::AccessVariant(y, j) => *i == *j && expr_node_same(*x, *y),
            _ => false,
        },
        Expr::Debug(x) => match b {
            Expr::Debug(y) => expr_node_same(*x, *y),
            _ => false,
        },
    }
}

/// Whether two nodes hold the same expression with the same meta-data.
pub open spec fn expr_node_same(a: MirNode<Expr>, b: MirNode<Expr>) -> bool
    decreases a, 2nat,
{
    a.meta == b.meta && expr_same(&*a.inner, &*b.inner)
}

/// Whether two sequences of expressions are the same element by element.
pub open spec fn exprs_same(xs: Seq<MirNode<Expr>>, ys: Seq<MirNode<Expr>>) -> bool
    decreases xs, 0nat,
{
    &&& xs.len() == ys.len()
    &&& xs.len() == 0 || (exprs_same(xs.drop_last(), ys.drop_last()) && expr_node_same(
        xs.last(),
        ys.last(),
    ))
}

/// Whether two sequences of match arms are the same arm by arm.
pub open spec fn arms_same(
    xs: Seq<(MirNode<Binding>, MirNode<Expr>)>,
    ys: Seq<(MirNode<Binding>, MirNode<Expr>)>,
) -> bool
    decreases xs, 0nat,
{
    &&& xs.len() == ys.len()
    &&& xs.len() == 0 || (arms_same(xs.drop_last(), ys.drop_last()) && binding_node_alike(
        xs.last().0,
        ys.last().0,
        true,
    ) && expr_node_same(xs.last().1, ys.last().1))
}

fn copy_idents(v: &Vec<Ident>) -> (r: Vec<Ident>)
    ensures
        idents_view(r@) == idents_view(v@),
{
    let mut r: Vec<Ident> = Vec::new();
    let mut i: usize = 0;
    while i < v.len()
        invariant
            i <= v.len(),
            r@ == v@.subrange(0, i as int),
        decreases v.len() - i,
    {
        r.push(v[i].clone());
        i += 1;
        assert(r@ =~= v@.subrange(0, i as int));
    }
    assert(v@.subrange(0, i as int) =~= v@);
    r
}

fn copy_expr_node(x: &MirNode<Expr>) -> (r: MirNode<Expr>)
    ensures
        expr_node_same(r, *x),
    decreases x, 2nat,
{
    MirNode { inner: Box::new(x.inner.copy()), meta: x.meta }
}

fn copy_exprs(v: &Vec<MirNode<Expr>>) -> (r: Vec<MirNode<Expr>>)
    ensures
        exprs_same(r@, v@),
    decreases v, 0nat,
{
    let mut r: Vec<MirNode<Expr>> = Vec::new();
    let mut i: usize = 0;
    while i < v.len()
        invariant
            i <= v.len(),
            exprs_same(r@, v@.subrange(0, i as int)),
        decreases v.len() - i,
    {
        proof {
            assert(decreases_to!(v => v@[i as int]));
        }
        let ghost before = r@;
        r.push(copy_expr_node(&v[i]));
        proof {
            assert(r@.drop_last() =~= before);
            assert(v@.subrange(0, i + 1).drop_last() =~= v@.subrange(0, i as int));
        }
        i += 1;
    }
    assert(v@.subrange(0, i as int) =~= v@);
    r
}

fn copy_arms(v: &Vec<(MirNode<Binding>, MirNode<Expr>)>) -> (r: Vec<(MirNode<Binding>, MirNode<Expr>)>)
    ensures
        arms_same(r@, v@),
    decreases v, 0nat,
{
    let mut r: Vec<(MirNode<Binding>, MirNode<Expr>)> = Vec::new();
    let mut i: usize = 0;
    while i < v.len()
        invariant
            i <= v.len(),
            arms_same(r@, v@.subrange(0, i as int)),
        decreases v.len() - i,
    {
        proof {
            assert(decreases_to!(v => v@[i as int]));
        }
        let ghost before = r@;
        let (arm, body) = &v[i];
        r.push((copy_binding_node(arm), copy_expr_node(body)));
        proof {
            assert(r@.drop_last() =~= before);
            assert(v@.subrange(0, i + 1).drop_last() =~= v@.subrange(0, i as int));
        }
        i += 1;
    }
    assert(v@.subrange(0, i as int) =~= v@);
    r
}

impl Expr {
    fn copy(&self) -> (r: Expr)
        ensures
            expr_same(&r, self),
        decreases self, 1nat,
    {
        match self {
            Expr::Const(c) => Expr::Const(c.copy()),
            Expr::Local(x) => Expr::Local(x.clone()),
            Expr::Global(g, f) => Expr::Global(*g, *f),
            Expr::Intrinsic(op, xs) => Expr::Intrinsic(*op, copy_exprs(xs)),
            Expr::Match(x, arms) => Expr::Match(copy_expr_node(x), copy_arms(arms)),
            Expr::Func(caps, arg, body) => Expr::Func(
                copy_idents(caps),
                arg.clone(),
                copy_expr_node(body),
            ),
            Expr::Apply(f, x) => Expr::Apply(copy_expr_node(f), copy_expr_node(x)),
            Expr::Tuple(xs) => Expr::Tuple(copy_exprs(xs)),
            Expr::Access(x, i) => Expr::Access(copy_expr_node(x), *i),
            Expr::List(xs) => Expr::List(copy_exprs(xs)),
            Expr::Variant(i, x) => Expr::Variant(*i, copy_expr_node(x)),
            Expr::AccessVariant(x, i) => Expr::AccessVariant(copy_expr_node(x), *i),
            Expr::Debug(x) => Expr::Debug(copy_expr_node(x)),
        }
    }
}

impl Clone for Expr {
    fn clone(&self) -> (r: Self)
        ensures
            expr_same(&r, self),
    {
        self.copy()
    }
}

/// The elements of `caps` that `stack` does not hold, in order.
pub open spec fn unbound(caps: Seq<Seq<char>>, stack: Seq<Seq<char>>) -> Seq<Seq<char>>
    decreases caps.len(),
{
    if caps.len() == 0 {
        seq![]
    } else {
        unbound(caps.drop_last(), stack) + if stack.contains(caps.last()) {
            seq![]
        } else {
            seq![caps.last()]
        }
    }
}

/// The locals an expression uses that are bound neither in it nor in `stack`,
/// in order of use (a local used twice is listed twice).
pub open spec fn required_of(e: &Expr, stack: Seq<Seq<char>>) -> Seq<Seq<char>>
    decreases e, 1nat,
{
    match e {
        Expr::Const(_) => seq![],
        Expr::Local(l) => if stack.contains(l@) {
            seq![]
        } else {
            seq![l@]
        },
        Expr::Global(_, _) => seq![],
        Expr::Intrinsic(_, args) => required_of_all(args@, stack),
        Expr::Match(pred, arms) => required_of(&*pred.inner, stack) + required_of_arms(arms@, stack),
        Expr::Func(captures, arg, body) => unbound(idents_view(captures@), stack) + required_of(
            &*body.inner,
            stack + idents_view(captures@) + seq![arg@],
        ),
        Expr::Apply(f, arg) => required_of(&*f.inner, stack) + required_of(&*arg.inner, stack),
        Expr::Tuple(fields) => required_of_all(fields@, stack),
        Expr::List(items) => required_of_all(items@, stack),
        Expr::Access(tuple, _) => required_of(&*tuple.inner, stack),
        Expr::Variant(_, inner) => required_of(&*inner.inner, stack),
        Expr::AccessVariant(inner, _) => required_of(&*inner.inner, stack),
        Expr::Debug(inner) => required_of(&*inner.inner, stack),
    }
}

/// The required locals of a sequence of expressions, from left to right.
pub open spec fn required_of_all(s: Seq<MirNode<Expr>>, stack: Seq<Seq<char>>) -> Seq<Seq<char>>
    decreases s, 0nat,
{
    if s.len() == 0 {
        seq![]
    } else {
        required_of_all(s.drop_last(), stack) + required_of(&*s.last().inner, stack)
    }
}

/// The required locals of match arms: each body sees the names its binding introduces.
pub open spec fn required_of_arms(
    s: Seq<(MirNode<Binding>, MirNode<Expr>)>,
    stack: Seq<Seq<char>>,
) -> Seq<Seq<char>>
    decreases s, 0nat,
{
    if s.len() == 0 {
        seq![]
    } else {
        required_of_arms(s.drop_last(), stack) + required_of(
            &*s.last().1.inner,
            stack + binding_names_of(&*s.last().0.inner),
        )
    }
}

fn contains_ident(v: &Vec<Ident>, x: &Ident) -> (r: bool)
    ensures
        r == idents_view(v@).contains(x@),
{
    let mut i: usize = 0;
    while i < v.len()
        invariant
            i <= v.len(),
            forall|k: int| 0 <= k < i ==> v@[k]@ != x@,
        decreases v.len() - i,
    {
        if v[i] == *x {
            assert(idents_view(v@)[i as int] == x@);
            return true;
        }
        i += 1;
    }
    assert forall|k: int| 0 <= k < idents_view(v@).len() implies idents_view(v@)[k] != x@ by {
        assert(idents_view(v@)[k] == v@[k]@);
    }
    false
}

impl Expr {
    fn required_all_inner(
        items: &Vec<MirNode<Expr>>,
        stack: &mut Vec<Ident>,
        required: &mut Vec<Ident>,
    )
        ensures
            idents_view(final(stack)@) == idents_view(old(stack)@),
            idents_view(final(required)@) == idents_view(old(required)@) + required_of_all(
                items@,
                idents_view(old(stack)@),
            ),
        decreases items, 0nat,
    {
        let ghost st = idents_view(stack@);
        let mut i: usize = 0;
        while i < items.len()
            invariant
                i <= items.len(),
                idents_view(stack@) == st,
                idents_view(required@) == idents_view(old(required)@) + required_of_all(
                    items@.subrange(0, i as int),
                    st,
                ),
            decreases items.len() - i,
        {
            proof {
                assert(decreases_to!(items => items@[i as int]));
                assert(items@.subrange(0, i + 1).drop_last() =~= items@.subrange(0, i as int));
            }
            items[i].inner.required_locals_inner(stack, required);
            i += 1;
            assert(idents_view(required@) =~= idents_view(old(required)@) + required_of_all(
                items@.subrange(0, i as int),
                st,
            ));
        }
        assert(items@.subrange(0, i as int) =~= items@);
    }

    fn required_arms_inner(
        arms: &Vec<(MirNode<Binding>, MirNode<Expr>)>,
        stack: &mut Vec<Ident>,
        required: &mut Vec<Ident>,
    )
        ensures
            idents_view(final(stack)@) == idents_view(old(stack)@),
            idents_view(final(required)@) == idents_view(old(required)@) + required_of_arms(
                arms@,
                idents_view(old(stack)@),
            ),
        decreases arms, 0nat,
    {
        let ghost st = idents_view(stack@);
        let mut i: usize = 0;
        while i < arms.len()
            invariant
                i <= arms.len(),
                idents_view(stack@) == st,
                idents_view(required@) == idents_view(old(required)@) + required_of_arms(
                    arms@.subrange(0, i as int),
                    st,
                ),
            decreases arms.len() - i,
        {
            proof {
                assert(decreases_to!(arms => arms@[i as int]));
                assert(arms@.subrange(0, i + 1).drop_last() =~= arms@.subrange(0, i as int));
            }
            let (arm, body) = &arms[i];
            let old_stack = stack.len();
            let mut names = arm.inner.binding_names();
            let ghost names_v = idents_view(names@);
            stack.append(&mut names);
            assert(idents_view(stack@) =~= st + names_v);
            body.inner.required_locals_inner(stack, required);
            let ghost full = stack@;
            stack.truncate(old_stack);
            assert(idents_view(stack@) =~= st) by {
                assert(stack@ =~= full.subrange(0, old_stack as int));
                assert forall|k: int| 0 <= k < old_stack implies #[trigger] idents_view(stack@)[k] == st[k] by {
                    assert(idents_view(full)[k] == (st + names_v)[k]);
                }
            }
            i += 1;
            assert(idents_view(required@) =~= idents_view(old(required)@) + required_of_arms(
                arms@.subrange(0, i as int),
                st,
            ));
        }
        assert(arms@.subrange(0, i as int) =~= arms@);
    }

    #[verifier::spinoff_prover]
    #[verifier::rlimit(30)]
    fn required_locals_inner(&self, stack: &mut Vec<Ident>, required: &mut Vec<Ident>)
        ensures
            idents_view(final(stack)@) == idents_view(old(stack)@),
            idents_view(final(required)@) == idents_view(old(required)@) + required_of(
                self,
                idents_view(old(stack)@),
            ),
        decreases self, 1nat,
    {
        let ghost st = idents_view(stack@);
        let ghost req0 = idents_view(required@);
        match self {
            Expr::Const(_) => {},
            Expr::Local(local) => {
                if !contains_ident(stack, local) {
                    required.push(local.clone());
                    proof {
                        lemma_idents_view_push(old(required)@, *local);
                    }
                }
            },
            Expr::Global(_, _) => {},
            Expr::Intrinsic(_, args) => Self::required_all_inner(args, stack, required),
            Expr::Match(pred, arms) => {
                pred.inner.required_locals_inner(stack, required);
                Self::required_arms_inner(arms, stack, required);
            },
            Expr::Func(captures, arg, body) => {
                let mut k: usize = 0;
                while k < captures.len()
                    invariant
                        k <= captures.len(),
                        idents_view(stack@) == st,
                        idents_view(required@) == req0 + unbound(
                            idents_view(captures@.subrange(0, k as int)),
                            st,
                        ),
                    decreases captures.len() - k,
                {
                    proof {
                        assert(idents_view(captures@.subrange(0, k + 1)).drop_last()
                            =~= idents_view(captures@.subrange(0, k as int)));
                        assert(idents_view(captures@.subrange(0, k + 1)).last() == captures@[k as int]@);
                    }
                    if !contains_ident(stack, &captures[k]) {
                        let ghost before = required@;
                        required.push(captures[k].clone());
                        proof {
                            lemma_idents_view_push(before, captures@[k as int]);
                        }
                    }
                    k += 1;
                    assert(idents_view(required@) =~= req0 + unbound(
                        idents_view(captures@.subrange(0, k as int)),
                        st,
                    ));
                }
                assert(captures@.subrange(0, k as int) =~= captures@);
                let old_stack = stack.len();
                let mut i: usize = 0;
                while i < captures.len()
                    invariant
                        old_stack == st.len(),
                        i <= captures.len(),
                        idents_view(stack@) == st + idents_view(captures@.subrange(0, i as int)),
                    decreases captures.len() - i,
                {
                    let ghost before = stack@;
                    stack.push(captures[i].clone());
                    proof {
                        lemma_idents_view_push(before, captures@[i as int]);
                        assert(captures@.subrange(0, i + 1) =~= captures@.subrange(0, i as int).push(captures@[i as int]));
                        lemma_idents_view_push(captures@.subrange(0, i as int), captures@[i as int]);
                    }
                    i += 1;
                    assert(idents_view(stack@) =~= st + idents_view(captures@.subrange(0, i as int)));
                }
                stack.push(arg.clone());
                assert(idents_view(stack@) =~= st + idents_view(captures@) + seq![arg@]);
                let ghost full = stack@;
                body.inner.required_locals_inner(stack, required);
                let ghost full2 = stack@;
                stack.truncate(old_stack);
                assert(idents_view(stack@) =~= st) by {
                    assert forall|j: int| 0 <= j < old_stack implies #[trigger] idents_view(stack@)[j] == st[j] by {
                        assert(idents_view(full2)[j] == idents_view(full)[j]);
                    }
                }
            },
            Expr::Apply(f, arg) => {
                f.inner.required_locals_inner(stack, required);
                arg.inner.required_locals_inner(stack, required);
            },
            Expr::Tuple(fields) => Self::required_all_inner(fields, stack, required),
            Expr::List(items) => Self::required_all_inner(items, stack, required),
            Expr::Access(tuple, _) => tuple.inner.required_locals_inner(stack, required),
            Expr::Variant(_, inner) => inner.inner.required_locals_inner(stack, required),
            Expr::AccessVariant(inner, _) => inner.inner.required_locals_inner(stack, required),
            Expr::Debug(inner) => inner.inner.required_locals_inner(stack, required),
        }
        assert(idents_view(required@) =~= req0 + required_of(self, st));
    }

    /// The locals this expression uses that it does not bind itself and that
    /// `already_has` does not hold, in order of use.
    pub fn required_locals(&self, already_has: Vec<Ident>) -> (r: Vec<Ident>)
        ensures
            idents_view(r@) == required_of(self, idents_view(already_has@)),
    {
        let mut required = Vec::new();
        let mut stack = already_has;
        self.required_locals_inner(&mut stack, &mut required);
        assert(idents_view(required@) =~= required_of(self, idents_view(already_has@))) by {
            assert(idents_view(Seq::<Ident>::empty()) =~= Seq::<Seq<char>>::empty());
        }
        required
    }
}

/// Whether local `x` occurs free in `e`: used somewhere in it, and not bound
/// by a function parameter, a capture or a match binding around that use.
pub open spec fn occurs_free(e: &Expr, x: Seq<char>) -> bool
    decreases e, 1nat,
{
    match e {
        Expr::Const(_) => false,
        Expr::Local(l) => l@ == x,
        Expr::Global(_, _) => false,
        Expr::Intrinsic(_, args) => occurs_free_all(args@, x),
        Expr::Match(pred, arms) => occurs_free(&*pred.inner, x) || occurs_free_arms(arms@, x),
        Expr::Func(captures, arg, body) => idents_view(captures@).contains(x) || (x != arg@
            && occurs_free(&*body.inner, x)),
        Expr::Apply(f, arg) => occurs_free(&*f.inner, x) || occurs_free(&*arg.inner, x),
        Expr::Tuple(fields) => occurs_free_all(fields@, x),
        Expr::List(items) => occurs_free_all(items@, x),
        Expr::Access(tuple, _) => occurs_free(&*tuple.inner, x),
        Expr::Variant(_, inner) => occurs_free(&*inner.inner, x),
        Expr::AccessVariant(inner, _) => occurs_free(&*inner.inner, x),
        Expr::Debug(inner) => occurs_free(&*inner.inner, x),
    }
}

/// Whether `x` occurs free in any expression of a sequence.
pub open spec fn occurs_free_all(s: Seq<MirNode<Expr>>, x: Seq<char>) -> bool
    decreases s, 0nat,
{
    if s.len() == 0 {
        false
    } else {
        occurs_free_all(s.drop_last(), x) || occurs_free(&*s.last().inner, x)
    }
}

/// Whether `x` occurs free in the body of an arm whose binding does not name it.
pub open spec fn occurs_free_arms(s: Seq<(MirNode<Binding>, MirNode<Expr>)>, x: Seq<char>) -> bool
    decreases s, 0nat,
{
    if s.len() == 0 {
        false
    } else {
        occurs_free_arms(s.drop_last(), x) || (occurs_free(&*s.last().1.inner, x)
            && !binding_names_of(&*s.last().0.inner).contains(x))
    }
}

proof fn lemma_contains_concat<A>(a: Seq<A>, b: Seq<A>, x: A)
    ensures
        (a + b).contains(x) <==> a.contains(x) || b.contains(x),
{
    if (a + b).contains(x) {
        let i = choose|i: int| 0 <= i < (a + b).len() && (a + b)[i] == x;
        if i < a.len() {
            assert(a[i] == x);
        } else {
            assert(b[i - a.len()] == x);
        }
    }
    if a.contains(x) {
        let i = choose|i: int| 0 <= i < a.len() && a[i] == x;
        assert((a + b)[i] == x);
    }
    if b.contains(x) {
        let i = choose|i: int| 0 <= i < b.len() && b[i] == x;
        assert((a + b)[a.len() + i] == x);
    }
}

proof fn lemma_unbound(caps: Seq<Seq<char>>, stack: Seq<Seq<char>>, x: Seq<char>)
    ensures
        unbound(caps, stack).contains(x) <==> caps.contains(x) && !stack.contains(x),
    decreases caps.len(),
{
    if caps.len() > 0 {
        lemma_unbound(caps.drop_last(), stack, x);
        let last: Seq<Seq<char>> = if stack.contains(caps.last()) {
            seq![]
        } else {
            seq![caps.last()]
        };
        lemma_contains_concat(unbound(caps.drop_last(), stack), last, x);
        assert(caps =~= caps.drop_last() + seq![caps.last()]);
        lemma_contains_concat(caps.drop_last(), seq![caps.last()], x);
        assert(seq![caps.last()].contains(x) <==> x == caps.last()) by {
            if x == caps.last() {
                assert(seq![caps.last()][0] == x);
            }
        }
        if !stack.contains(caps.last()) {
            assert(last.contains(x) <==> x == caps.last()) by {
                if x == caps.last() {
                    assert(last[0] == x);
                }
            }
        }
    }
}

proof fn lemma_singleton_contains<A>(a: A, x: A)
    ensures
        seq![a].contains(x) <==> a == x,
{
    if a == x {
        assert(seq![a][0] == x);
    }
}

/// The required locals of an expression, given the locals `stack` already
/// holds, are exactly the locals that occur free in it and that `stack` does
/// not hold.
pub proof fn lemma_required_is_free(e: &Expr, stack: Seq<Seq<char>>, x: Seq<char>)
    ensures
        required_of(e, stack).contains(x) <==> occurs_free(e, x) && !stack.contains(x),
    decreases e, 1nat,
{
    match e {
        Expr::Const(_) => {},
        Expr::Local(l) => {
            if !stack.contains(l@) {
                lemma_singleton_contains(l@, x);
            }
        },
        Expr::Global(_, _) => {},
        Expr::Intrinsic(_, args) => lemma_required_all_is_free(args@, stack, x),
        Expr::Match(pred, arms) => {
            lemma_required_is_free(&*pred.inner, stack, x);
            lemma_required_arms_is_free(arms@, stack, x);
            lemma_contains_concat(required_of(&*pred.inner, stack), required_of_arms(arms@, stack), x);
        },
        Expr::Func(captures, arg, body) => {
            let caps = idents_view(captures@);
            let inner = stack + caps + seq![arg@];
            lemma_unbound(caps, stack, x);
            lemma_required_is_free(&*body.inner, inner, x);
            lemma_contains_concat(unbound(caps, stack), required_of(&*body.inner, inner), x);
            lemma_contains_concat(stack + caps, seq![arg@], x);
            lemma_contains_concat(stack, caps, x);
            lemma_singleton_contains(arg@, x);
        },
        Expr::Apply(f, arg) => {
            lemma_required_is_free(&*f.inner, stack, x);
            lemma_required_is_free(&*arg.inner, stack, x);
            lemma_contains_concat(required_of(&*f.inner, stack), required_of(&*arg.inner, stack), x);
        },
        Expr::Tuple(fields) => lemma_required_all_is_free(fields@, stack, x),
        Expr::List(items) => lemma_required_all_is_free(items@, stack, x),
        Expr::Access(tuple, _) => lemma_required_is_free(&*tuple.inner, stack, x),
        Expr::Variant(_, inner) => lemma_required_is_free(&*inner.inner, stack, x),
        Expr::AccessVariant(inner, _) => lemma_required_is_free(&*inner.inner, stack, x),
        Expr::Debug(inner) => lemma_required_is_free(&*inner.inner, stack, x),
    }
}

proof fn lemma_required_all_is_free(s: Seq<MirNode<Expr>>, stack: Seq<Seq<char>>, x: Seq<char>)
    ensures
        required_of_all(s, stack).contains(x) <==> occurs_free_all(s, x) && !stack.contains(x),
    decreases s, 0nat,
{
    if s.len() > 0 {
        lemma_required_all_is_free(s.drop_last(), stack, x);
        lemma_required_is_free(&*s.last().inner, stack, x);
        lemma_contains_concat(
            required_of_all(s.drop_last(), stack),
            required_of(&*s.last().inner, stack),
            x,
        );
    }
}

proof fn lemma_required_arms_is_free(
    s: Seq<(MirNode<Binding>, MirNode<Expr>)>,
    stack: Seq<Seq<char>>,
    x: Seq<char>,
)
    ensures
        required_of_arms(s, stack).contains(x) <==> occurs_free_arms(s, x) && !stack.contains(x),
    decreases s, 0nat,
{
    if s.len() > 0 {
        let names = binding_names_of(&*s.last().0.inner);
        lemma_required_arms_is_free(s.drop_last(), stack, x);
        lemma_required_is_free(&*s.last().1.inner, stack + names, x);
        lemma_contains_concat(stack, names, x);
        lemma_contains_concat(
            required_of_arms(s.drop_last(), stack),
            required_of(&*s.last().1.inner, stack + names),
            x,
        );
    }
}

proof fn lemma_unbound_concat(a: Seq<Seq<char>>, b: Seq<Seq<char>>, t: Seq<Seq<char>>)
    ensures
        unbound(a + b, t) == unbound(a, t) + unbound(b, t),
    decreases b.len(),
{
    if b.len() == 0 {
        assert(a + b =~= a);
        assert(unbound(a, t) + unbound(b, t) =~= unbound(a, t));
    } else {
        assert((a + b).drop_last() =~= a + b.drop_last());
        lemma_unbound_concat(a, b.drop_last(), t);
        assert(unbound(a + b, t) =~= unbound(a, t) + unbound(b, t));
    }
}

proof fn lemma_unbound_twice(
    caps: Seq<Seq<char>>,
    s: Seq<Seq<char>>,
    s2: Seq<Seq<char>>,
    t: Seq<Seq<char>>,
)
    requires
        forall|x: Seq<char>| s2.contains(x) <==> s.contains(x) || t.contains(x),
    ensures
        unbound(caps, s2) == unbound(unbound(caps, s), t),
    decreases caps.len(),
{
    if caps.len() > 0 {
        let c = caps.last();
        lemma_unbound_twice(caps.drop_last(), s, s2, t);
        let kept: Seq<Seq<char>> = if s.contains(c) {
            seq![]
        } else {
            seq![c]
        };
        lemma_unbound_concat(unbound(caps.drop_last(), s), kept, t);
        if !s.contains(c) {
            assert(kept.drop_last() =~= Seq::<Seq<char>>::empty());
            assert(kept.last() == c);
            assert(unbound(kept.drop_last(), t) =~= Seq::<Seq<char>>::empty());
            assert(unbound(kept, t) =~= if t.contains(c) {
                Seq::<Seq<char>>::empty()
            } else {
                seq![c]
            });
        } else {
            assert(unbound(kept, t) =~= Seq::<Seq<char>>::empty());
        }
        assert(s2.contains(c) == (s.contains(c) || t.contains(c)));
        assert(unbound(caps, s2) =~= unbound(unbound(caps, s), t));
    }
}

proof fn lemma_required_held(e: &Expr, s: Seq<Seq<char>>, s2: Seq<Seq<char>>, t: Seq<Seq<char>>)
    requires
        forall|x: Seq<char>| s2.contains(x) <==> s.contains(x) || t.contains(x),
    ensures
        required_of(e, s2) == unbound(required_of(e, s), t),
    decreases e, 1nat,
{
    match e {
        Expr::Const(_) => {},
        Expr::Global(_, _) => {},
        Expr::Local(l) => {
            assert(s2.contains(l@) == (s.contains(l@) || t.contains(l@)));
            let one: Seq<Seq<char>> = seq![l@];
            assert(one.drop_last() =~= Seq::<Seq<char>>::empty());
            assert(unbound(Seq::<Seq<char>>::empty(), t) =~= Seq::<Seq<char>>::empty());
            if !s.contains(l@) {
                assert(unbound(one, t) =~= if t.contains(l@) {
                    Seq::<Seq<char>>::empty()
                } else {
                    one
                });
            }
        },
        Expr::Intrinsic(_, args) => lemma_required_all_held(args@, s, s2, t),
        Expr::Match(pred, arms) => {
            lemma_required_held(&*pred.inner, s, s2, t);
            lemma_required_arms_held(arms@, s, s2, t);
            lemma_unbound_concat(required_of(&*pred.inner, s), required_of_arms(arms@, s), t);
        },
        Expr::Func(captures, arg, body) => {
            let caps = idents_view(captures@);
            let b = s + caps + seq![arg@];
            let b2 = s2 + caps + seq![arg@];
            assert forall|x: Seq<char>| b2.contains(x) <==> b.contains(x) || t.contains(x) by {
                lemma_contains_concat(s2 + caps, seq![arg@], x);
                lemma_contains_concat(s + caps, seq![arg@], x);
                lemma_contains_concat(s2, caps, x);
                lemma_contains_concat(s, caps, x);
            }
            lemma_required_held(&*body.inner, b, b2, t);
            lemma_unbound_twice(caps, s, s2, t);
            lemma_unbound_concat(unbound(caps, s), required_of(&*body.inner, b), t);
        },
        Expr::Apply(f, arg) => {
            lemma_required_held(&*f.inner, s, s2, t);
            lemma_required_held(&*arg.inner, s, s2, t);
            lemma_unbound_concat(required_of(&*f.inner, s), required_of(&*arg.inner, s), t);
        },
        Expr::Tuple(fields) => lemma_required_all_held(fields@, s, s2, t),
        Expr::List(items) => lemma_required_all_held(items@, s, s2, t),
        Expr::Access(tuple, _) => lemma_required_held(&*tuple.inner, s, s2, t),
        Expr::Variant(_, inner) => lemma_required_held(&*inner.inner, s, s2, t),
        Expr::AccessVariant(inner, _) => lemma_required_held(&*inner.inner, s, s2, t),
        Expr::Debug(inner) => lemma_required_held(&*inner.inner, s, s2, t),
    }
}

proof fn lemma_required_all_held(
    es: Seq<MirNode<Expr>>,
    s: Seq<Seq<char>>,
    s2: Seq<Seq<char>>,
    t: Seq<Seq<char>>,
)
    requires
        forall|x: Seq<char>| s2.contains(x) <==> s.contains(x) || t.contains(x),
    ensures
        required_of_all(es, s2) == unbound(required_of_all(es, s), t),
    decreases es, 0nat,
{
    if es.len() > 0 {
        lemma_required_all_held(es.drop_last(), s, s2, t);
        lemma_required_held(&*es.last().inner, s, s2, t);
        lemma_unbound_concat(required_of_all(es.drop_last(), s), required_of(&*es.last().inner, s), t);
    }
}

proof fn lemma_required_arms_held(
    arms: Seq<(MirNode<Binding>, MirNode<Expr>)>,
    s: Seq<Seq<char>>,
    s2: Seq<Seq<char>>,
    t: Seq<Seq<char>>,
)
    requires
        forall|x: Seq<char>| s2.contains(x) <==> s.contains(x) || t.contains(x),
    ensures
        required_of_arms(arms, s2) == unbound(required_of_arms(arms, s), t),
    decreases arms, 0nat,
{
    if arms.len() > 0 {
        let names = binding_names_of(&*arms.last().0.inner);
        let ss = s + names;
        let ss2 = s2 + names;
        assert forall|x: Seq<char>| ss2.contains(x) <==> ss.contains(x) || t.contains(x) by {
            lemma_contains_concat(s2, names, x);
            lemma_contains_concat(s, names, x);
            assert(s2.contains(x) <==> s.contains(x) || t.contains(x));
        }
        lemma_required_arms_held(arms.drop_last(), s, s2, t);
        lemma_required_held(&*arms.last().1.inner, ss, ss2, t);
        lemma_unbound_concat(
            required_of_arms(arms.drop_last(), s),
            required_of(&*arms.last().1.inner, s + names),
            t,
        );
    }
}

/// Holding more names removes exactly their uses from the required locals:
/// what an expression requires given `held + more` is what it requires given
/// `held`, without the names in `more`, the rest kept in order.
pub proof fn lemma_required_with_more_held(e: &Expr, held: Seq<Seq<char>>, more: Seq<Seq<char>>)
    ensures
        required_of(e, held + more) == unbound(required_of(e, held), more),
{
    assert forall|x: Seq<char>| (held + more).contains(x) <==> held.contains(x) || more.contains(x) by {
        lemma_contains_concat(held, more, x);
    }
    lemma_required_held(e, held, held + more, more);
}

proof fn lemma_flatten_snoc<A>(ss: Seq<Seq<A>>)
    requires
        ss.len() > 0,
    ensures
        ss.flatten() == ss.drop_last().flatten() + ss.last(),
{
    ss.lemma_flatten_and_flatten_alt_are_equivalent();
    ss.drop_last().lemma_flatten_and_flatten_alt_are_equivalent();
}

proof fn lemma_required_all_flatten(es: Seq<MirNode<Expr>>, held: Seq<Seq<char>>)
    ensures
        required_of_all(es, held) == Seq::new(es.len(), |i: int| required_of(&*es[i].inner, held)).flatten(),
    decreases es.len(),
{
    let m = Seq::new(es.len(), |i: int| required_of(&*es[i].inner, held));
    if es.len() == 0 {
        assert(m =~= Seq::<Seq<Seq<char>>>::empty());
    } else {
        lemma_required_all_flatten(es.drop_last(), held);
        let m0 = Seq::new(es.drop_last().len(), |i: int| required_of(&*es.drop_last()[i].inner, held));
        assert(m.drop_last() =~= m0);
        lemma_flatten_snoc(m);
    }
}

proof fn lemma_required_arms_flatten(
    arms: Seq<(MirNode<Binding>, MirNode<Expr>)>,
    held: Seq<Seq<char>>,
)
    ensures
        required_of_arms(arms, held) == Seq::new(
            arms.len(),
            |i: int| required_of(&*arms[i].1.inner, held + binding_names_of(&*arms[i].0.inner)),
        ).flatten(),
    decreases arms.len(),
{
    let m = Seq::new(
        arms.len(),
        |i: int| required_of(&*arms[i].1.inner, held + binding_names_of(&*arms[i].0.inner)),
    );
    if arms.len() == 0 {
        assert(m =~= Seq::<Seq<Seq<char>>>::empty());
    } else {
        lemma_required_arms_flatten(arms.drop_last(), held);
        let a0 = arms.drop_last();
        let m0 = Seq::new(
            a0.len(),
            |i: int| required_of(&*a0[i].1.inner, held + binding_names_of(&*a0[i].0.inner)),
        );
        assert(m.drop_last() =~= m0);
        lemma_flatten_snoc(m);
    }
}

proof fn lemma_unbound_is_filter(caps: Seq<Seq<char>>, held: Seq<Seq<char>>)
    ensures
        unbound(caps, held) == caps.filter(|c: Seq<char>| !held.contains(c)),
    decreases caps.len(),
{
    reveal(Seq::filter);
    if caps.len() > 0 {
        lemma_unbound_is_filter(caps.drop_last(), held);
        assert(unbound(caps, held) =~= caps.filter(|c: Seq<char>| !held.contains(c)));
    } else {
        assert(unbound(caps, held) =~= caps.filter(|c: Seq<char>| !held.contains(c)));
    }
}

/// How the required locals of an expression are made of those of its parts,
/// given the names `held`: a local is required unless held; a compound
/// expression requires what its parts require, from left to right (each
/// argument, field or item in turn, the scrutinee before the arms, each arm's
/// body seeing its binding's names, the callee before the argument); a
/// function requires its captures that are not held, then what its body
/// requires with the captures and its parameter held too.
pub proof fn lemma_required_of_parts(e: &Expr, held: Seq<Seq<char>>)
    ensures
        match e {
            Expr::Const(_) => required_of(e, held) == Seq::<Seq<char>>::empty(),
            Expr::Global(_, _) => required_of(e, held) == Seq::<Seq<char>>::empty(),
            Expr::Local(l) => required_of(e, held) == if held.contains(l@) {
                Seq::<Seq<char>>::empty()
            } else {
                seq![l@]
            },
            Expr::Intrinsic(_, args) => required_of(e, held) == Seq::new(
                args@.len(),
                |i: int| required_of(&*args@[i].inner, held),
            ).flatten(),
            Expr::Tuple(fields) => required_of(e, held) == Seq::new(
                fields@.len(),
                |i: int| required_of(&*fields@[i].inner, held),
            ).flatten(),
            Expr::List(items) => required_of(e, held) == Seq::new(
                items@.len(),
                |i: int| required_of(&*items@[i].inner, held),
            ).flatten(),
            Expr::Match(pred, arms) => required_of(e, held) == required_of(&*pred.inner, held)
                + Seq::new(
                arms@.len(),
                |i: int|
                    required_of(
                        &*arms@[i].1.inner,
                        held + binding_names_of(&*arms@[i].0.inner),
                    ),
            ).flatten(),
            Expr::Func(captures, arg, body) => required_of(e, held) == idents_view(
                captures@,
            ).filter(|c: Seq<char>| !held.contains(c)) + required_of(
                &*body.inner,
                held + idents_view(captures@) + seq![arg@],
            ),
            Expr::Apply(f, arg) => required_of(e, held) == required_of(&*f.inner, held)
                + required_of(&*arg.inner, held),
            Expr::Access(inner, _) => required_of(e, held) == required_of(&*inner.inner, held),
            Expr::Variant(_, inner) => required_of(e, held) == required_of(&*inner.inner, held),
            Expr::AccessVariant(inner, _) => required_of(e, held) == required_of(&*inner.inner, held),
            Expr::Debug(inner) => required_of(e, held) == required_of(&*inner.inner, held),
        },
{
    match e {
        Expr::Intrinsic(_, args) => lemma_required_all_flatten(args@, held),
        Expr::Tuple(fields) => lemma_required_all_flatten(fields@, held),
        Expr::List(items) => lemma_required_all_flatten(items@, held),
        Expr::Match(_, arms) => lemma_required_arms_flatten(arms@, held),
        Expr::Func(captures, _, _) => lemma_unbound_is_filter(idents_view(captures@), held),
        _ => {},
    }
}

proof fn lemma_names_all_flatten(s: Seq<MirNode<Binding>>)
    ensures
        bindings_names_of(s) == Seq::new(s.len(), |i: int| binding_names_of(&*s[i].inner)).flatten(),
    decreases s.len(),
{
    let m = Seq::new(s.len(), |i: int| binding_names_of(&*s[i].inner));
    if s.len() == 0 {
        assert(m =~= Seq::<Seq<Seq<char>>>::empty());
    } else {
        lemma_names_all_flatten(s.drop_last());
        let m0 = Seq::new(s.drop_last().len(), |i: int| binding_names_of(&*s.drop_last()[i].inner));
        assert(m.drop_last() =~= m0);
        lemma_flatten_snoc(m);
    }
}

/// The names a binding introduces: its own name, if any, then the names of
/// its sub-bindings from left to right (every field or item in turn, then a
/// list's tail); constants and wildcards introduce none.
pub proof fn lemma_binding_names_parts(b: &Binding)
    ensures
        ({
            let own: Seq<Seq<char>> = match &b.name {
                Some(n) => seq![n@],
                None => Seq::empty(),
            };
            match &b.pat {
                Pat::Wildcard => binding_names_of(b) == own,
                Pat::Const(_) => binding_names_of(b) == own,
                Pat::Single(x) => binding_names_of(b) == own + binding_names_of(&*x.inner),
                Pat::Add(x, _) => binding_names_of(b) == own + binding_names_of(&*x.inner),
                Pat::Variant(_, x) => binding_names_of(b) == own + binding_names_of(&*x.inner),
                Pat::Tuple(xs) => binding_names_of(b) == own + Seq::new(
                    xs@.len(),
                    |i: int| binding_names_of(&*xs@[i].inner),
                ).flatten(),
                Pat::ListExact(xs) => binding_names_of(b) == own + Seq::new(
                    xs@.len(),
                    |i: int| binding_names_of(&*xs@[i].inner),
                ).flatten(),
                Pat::ListFront(xs, tail) => binding_names_of(b) == own + Seq::new(
                    xs@.len(),
                    |i: int| binding_names_of(&*xs@[i].inner),
                ).flatten() + match tail {
                    Some(t) => binding_names_of(&*t.inner),
                    None => Seq::empty(),
                },
            }
        }),
{
    match &b.pat {
        Pat::Tuple(xs) => lemma_names_all_flatten(xs@),
        Pat::ListExact(xs) => lemma_names_all_flatten(xs@),
        Pat::ListFront(xs, _) => lemma_names_all_flatten(xs@),
        Pat::Wildcard => {
            assert(binding_names_of(b) =~= (match &b.name {
                Some(n) => seq![n@],
                None => Seq::<Seq<char>>::empty(),
            }));
        },
        Pat::Const(_) => {
            assert(binding_names_of(b) =~= (match &b.name {
                Some(n) => seq![n@],
                None => Seq::<Seq<char>>::empty(),
            }));
        },
        _ => {},
    }
}

/// How refutability is made of the parts of a pattern: a wildcard never
/// fails; a constant fails unless it is the empty tuple; a single or variant
/// sub-binding decides for its wrapper as the variant always may fail; an
/// added pattern fails when something is added or its inner binding fails;
/// an exact list always may fail; a list with a front fails when the front
/// is not empty or its tail fails; a tuple fails when one of its fields does.
pub proof fn lemma_refutable_parts(b: &Binding)
    ensures
        match &b.pat {
            Pat::Wildcard => !refutable(b),
            Pat::Const(c) => refutable(b) == !(c is Tuple && c->Tuple_0@.len() == 0),
            Pat::Single(x) => refutable(b) == refutable(&*x.inner),
            Pat::Add(x, n) => refutable(b) == (*n > 0 || refutable(&*x.inner)),
            Pat::Tuple(xs) => refutable(b) == exists|i: int|
                0 <= i < xs@.len() && refutable(&*#[trigger] xs@[i].inner),
            Pat::ListExact(_) => refutable(b),
            Pat::ListFront(xs, tail) => refutable(b) == (xs@.len() > 0 || match tail {
                Some(t) => refutable(&*t.inner),
                None => false,
            }),
            Pat::Variant(_, _) => refutable(b),
        },
{
    if let Pat::Tuple(xs) = &b.pat {
        lemma_any_refutable_exists(xs@);
    }
}

proof fn lemma_any_refutable_exists(s: Seq<MirNode<Binding>>)
    ensures
        any_refutable(s) <==> exists|i: int| 0 <= i < s.len() && refutable(&*#[trigger] s[i].inner),
    decreases s.len(),
{
    if s.len() > 0 {
        lemma_any_refutable_exists(s.drop_last());
        if exists|i: int| 0 <= i < s.len() && refutable(&*#[trigger] s[i].inner) {
            let i = choose|i: int| 0 <= i < s.len() && refutable(&*#[trigger] s[i].inner);
            if i < s.len() - 1 {
                assert(s.drop_last()[i] == s[i]);
            }
        }
        if any_refutable(s.drop_last()) {
            let i = choose|i: int|
                0 <= i < s.drop_last().len() && refutable(&*#[trigger] s.drop_last()[i].inner);
            assert(s[i] == s.drop_last()[i]);
        }
    }
}

/// A tuple pattern is refutable exactly when one of its fields is, whichever
/// field that is; its name plays no part.
pub proof fn lemma_tuple_refutable(b: &Binding)
    requires
        b.pat is Tuple,
    ensures
        refutable(b) <==> exists|i: int|
            0 <= i < b.pat->Tuple_0@.len() && refutable(&*#[trigger] b.pat->Tuple_0@[i].inner),
{
    lemma_any_refutable_exists(b.pat->Tuple_0@);
}

/// A binding introduces some name exactly when it names something, itself
/// or in a sub-pattern.
pub proof fn lemma_binds_iff_names_something(b: &Binding)
    ensures
        (binding_names_of(b).len() > 0) == names_something(b),
    decreases b, 1nat,
{
    match &b.pat {
        Pat::Wildcard => {},
        Pat::Const(_) => {},
        Pat::Single(inner) => lemma_binds_iff_names_something(&*inner.inner),
        Pat::Add(lhs, _) => lemma_binds_iff_names_something(&*lhs.inner),
        Pat::Tuple(fields) => lemma_all_names_iff(fields@),
        Pat::ListExact(items) => lemma_all_names_iff(items@),
        Pat::ListFront(items, tail) => {
            lemma_all_names_iff(items@);
            match tail {
                Some(t) => lemma_binds_iff_names_something(&*t.inner),
                None => {},
            }
        },
        Pat::Variant(_, inner) => lemma_binds_iff_names_something(&*inner.inner),
    }
}

proof fn lemma_all_names_iff(s: Seq<MirNode<Binding>>)
    ensures
        (bindings_names_of(s).len() > 0) == any_names_something(s),
    decreases s, 0nat,
{
    if s.len() > 0 {
        lemma_all_names_iff(s.drop_last());
        lemma_binds_iff_names_something(&*s.last().inner);
    }
}

} // verus!
