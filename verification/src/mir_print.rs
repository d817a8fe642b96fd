//! The textual form of expressions and bindings. Constants and globals are
//! handed out as pieces of their own, for the caller to show with their
//! `Debug` form; everything else is text.
use vstd::prelude::*;
use vstd::string::*;
use crate::mir::{Binding, Const, ConstView, Expr, Ident, Intrinsic, MirNode, Pat, ProcId, const_view};
use crate::text::{dec_digits, push_char, push_dec, push_str};

verus! {

/// A piece of printed output: text, a constant, or a global.
pub enum Piece<'a> {
    Text(String),
    Const(&'a Const),
    Global(ProcId),
}

/// One unit of printed output: a character, a constant, or a global.
pub enum Atom {
    Char(char),
    Const(ConstView),
    Global(ProcId),
}

/// Text as a sequence of atoms.
pub open spec fn txt(s: Seq<char>) -> Seq<Atom> {
    s.map_values(|c: char| Atom::Char(c))
}

/// The atoms of a piece.
pub open spec fn piece_atoms(p: Piece) -> Seq<Atom> {
    match p {
        Piece::Text(s) => txt(s@),
        Piece::Const(c) => seq![Atom::Const(const_view(c))],
        Piece::Global(g) => seq![Atom::Global(g)],
    }
}

/// The atoms of a sequence of pieces, in order.
pub open spec fn pieces_atoms(s: Seq<Piece>) -> Seq<Atom>
    decreases s.len(),
{
    if s.len() == 0 {
        seq![]
    } else {
        pieces_atoms(s.drop_last()) + piece_atoms(s.last())
    }
}

/// Whether a character has the Unicode `Alphabetic` property.
pub uninterp spec fn alphabetic(c: char) -> bool;

/// `char::is_alphabetic`: whether `c` has the Unicode `Alphabetic` property.
/// Stated here beyond the name: ASCII letters have it and ASCII digits do not.
#[verifier::external_body]
fn is_alphabetic(c: char) -> (r: bool)
    ensures
        r == alphabetic(c),
        ('a' <= c <= 'z' || 'A' <= c <= 'Z') ==> r,
        '0' <= c <= '9' ==> !r,
{
    c.is_alphabetic()
}

/// A name as printed: marked with `$` unless it starts with an alphabetic character.
pub open spec fn name_text(n: Seq<char>) -> Seq<char> {
    if n.len() > 0 && alphabetic(n[0]) {
        n
    } else {
        seq!['$'] + n
    }
}

/// Appends `name`, marked with `$` unless `starts_alphabetic`.
pub fn push_name_marked(out: &mut String, name: &str, starts_alphabetic: bool)
    ensures
        final(out)@ == old(out)@ + if starts_alphabetic {
            name@
        } else {
            seq!['$'] + name@
        },
{
    if !starts_alphabetic {
        push_str(out, "$");
        assert("$"@ == seq!['$']) by {
            reveal_strlit("$");
        }
    }
    push_str(out, name);
    assert(final(out)@ =~= old(out)@ + if starts_alphabetic {
        name@
    } else {
        seq!['$'] + name@
    });
}

/// Whether a name starts with an alphabetic character, and so is printed
/// without a `$` mark.
pub fn starts_alphabetic(name: &str) -> (r: bool)
    ensures
        r == (name@.len() > 0 && alphabetic(name@[0])),
        name@.len() > 0 && ('a' <= name@[0] <= 'z' || 'A' <= name@[0] <= 'Z') ==> r,
        name@.len() > 0 && '0' <= name@[0] <= '9' ==> !r,
        name@.len() == 0 ==> !r,
        name_text(name@) == if r {
            name@
        } else {
            seq!['$'] + name@
        },
{
    if name.is_empty() {
        false
    } else {
        is_alphabetic(name.get_char(0))
    }
}

/// Appends a name as printed.
fn push_name(out: &mut String, name: &Ident)
    ensures
        final(out)@ == old(out)@ + name_text(name@),
{
    let s = name.as_str();
    let alpha = starts_alphabetic(s);
    push_name_marked(out, s, alpha);
}

/// The text of a unary intrinsic's operator.
pub open spec fn unary_op(op: Intrinsic) -> Option<Seq<char>> {
    match op {
        Intrinsic::NotBool => Some("!"@),
        Intrinsic::NegNat | Intrinsic::NegInt | Intrinsic::NegNum => Some("-"@),
        _ => None,
    }
}

/// The text of a binary intrinsic's operator, with the spaces around it.
pub open spec fn binary_op(op: Intrinsic) -> Option<Seq<char>> {
    match op {
        Intrinsic::AddNat | Intrinsic::AddInt | Intrinsic::AddNum => Some(" + "@),
        Intrinsic::SubNat | Intrinsic::SubInt | Intrinsic::SubNum => Some(" - "@),
        Intrinsic::MulNat | Intrinsic::MulInt | Intrinsic::MulNum => Some(" * "@),
        Intrinsic::DivNat | Intrinsic::DivInt | Intrinsic::DivNum => Some(" / "@),
        Intrinsic::RemNat => Some(" % "@),
        Intrinsic::EqNat | Intrinsic::EqInt | Intrinsic::EqNum | Intrinsic::EqChar => Some(" = "@),
        Intrinsic::LessNat | Intrinsic::LessInt | Intrinsic::LessNum => Some(" < "@),
        Intrinsic::MoreNat | Intrinsic::MoreInt | Intrinsic::MoreNum => Some(" > "@),
        Intrinsic::MoreEqNat | Intrinsic::MoreEqInt | Intrinsic::MoreEqNum => Some(" >= "@),
        Intrinsic::LessEqNat | Intrinsic::LessEqInt | Intrinsic::LessEqNum => Some(" <= "@),
        Intrinsic::Join(_) => Some(" ++ "@),
        _ => None,
    }
}

/// `n` spaces.
pub open spec fn spaces(n: nat) -> Seq<char> {
    Seq::new(n, |_i: int| ' ')
}

/// Whether a binding can be printed at nesting depth `d`: it holds no `Add`
/// pattern, and the depth never passes the machine word.
pub open spec fn binding_printable(b: &Binding, d: nat) -> bool
    decreases b, 2nat,
{
    pat_printable(&b.pat, d)
}

/// Whether a pattern can be printed at nesting depth `d`.
pub open spec fn pat_printable(p: &Pat, d: nat) -> bool
    decreases p, 1nat,
{
    match p {
        Pat::Wildcard => true,
        Pat::Const(_) => true,
        Pat::Single(inner) => binding_printable(&*inner.inner, d),
        Pat::Add(_, _) => false,
        Pat::Tuple(fields) => d < usize::MAX && bindings_printable(fields@, d + 1),
        Pat::ListExact(items) => d < usize::MAX && bindings_printable(items@, d + 1),
        Pat::ListFront(items, tail) => d < usize::MAX && bindings_printable(items@, d + 1)
            && match tail {
            Some(t) => binding_printable(&*t.inner, d),
            None => true,
        },
        Pat::Variant(_, inner) => binding_printable(&*inner.inner, d),
    }
}

/// Whether every binding of a sequence can be printed at depth `d`.
pub open spec fn bindings_printable(s: Seq<MirNode<Binding>>, d: nat) -> bool
    decreases s, 0nat,
{
    s.len() == 0 || (bindings_printable(s.drop_last(), d) && binding_printable(&*s.last().inner, d))
}

/// The printed form of a binding at nesting depth `d`.
pub open spec fn binding_doc(b: &Binding, d: nat) -> Seq<Atom>
    decreases b, 2nat,
{
    match &b.name {
        Some(n) => if b.pat is Wildcard {
            txt(name_text(n@))
        } else {
            txt(name_text(n@) + " ~ "@) + pat_doc(&b.pat, d)
        },
        None => pat_doc(&b.pat, d),
    }
}

/// The printed form of a pattern at nesting depth `d`.
pub open spec fn pat_doc(p: &Pat, d: nat) -> Seq<Atom>
    decreases p, 1nat,
{
    match p {
        Pat::Wildcard => txt("_"@),
        Pat::Const(c) => txt("const "@) + seq![Atom::Const(const_view(c))],
        Pat::Single(inner) => binding_doc(&*inner.inner, d),
        Pat::Variant(v, inner) => txt(seq!['$'] + dec_digits(*v as nat) + " "@) + binding_doc(
            &*inner.inner,
            d,
        ),
        Pat::ListExact(items) => txt("["@) + bindings_doc(items@, d + 1) + txt("]"@),
        Pat::ListFront(items, tail) => txt("["@) + bindings_doc(items@, d + 1) + txt(" .. "@)
            + match tail {
            Some(t) => binding_doc(&*t.inner, d),
            None => seq![],
        } + txt("]"@),
        Pat::Tuple(fields) => txt("("@) + bindings_doc(fields@, d + 1) + txt(")"@),
        Pat::Add(_, _) => seq![],
    }
}

/// Bindings printed each followed by a comma, separated by spaces.
pub open spec fn bindings_doc(s: Seq<MirNode<Binding>>, d: nat) -> Seq<Atom>
    decreases s, 0nat,
{
    if s.len() == 0 {
        seq![]
    } else if s.len() == 1 {
        binding_doc(&*s[0].inner, d) + txt(","@)
    } else {
        bindings_doc(s.drop_last(), d) + txt(" "@) + binding_doc(&*s.last().inner, d) + txt(","@)
    }
}

/// Whether an expression can be printed at nesting depth `d`: it uses no
/// access, no intrinsic without a printed form, no intrinsic with fewer
/// arguments than its operator takes, no unprintable binding, and the depth
/// never passes the machine word.
pub open spec fn expr_printable(e: &Expr, d: nat) -> bool
    decreases e, 1nat,
{
    match e {
        Expr::Const(_) => true,
        Expr::Local(_) => true,
        Expr::Global(_, _) => true,
        Expr::Func(_, _, body) => expr_printable(&*body.inner, d),
        Expr::Apply(f, arg) => expr_printable(&*f.inner, d) && expr_printable(&*arg.inner, d),
        Expr::Variant(_, inner) => expr_printable(&*inner.inner, d),
        Expr::Tuple(fields) => d < usize::MAX && exprs_printable(fields@, d + 1),
        Expr::List(items) => d < usize::MAX && exprs_printable(items@, d + 1),
        Expr::Intrinsic(op, args) => if unary_op(*op) is Some {
            args@.len() >= 1 && expr_printable(&*args@[0].inner, d)
        } else if binary_op(*op) is Some {
            args@.len() >= 2 && expr_printable(&*args@[0].inner, d) && expr_printable(
                &*args@[1].inner,
                d,
            )
        } else {
            false
        },
        Expr::Match(pred, arms) => d < usize::MAX && expr_printable(&*pred.inner, d)
            && arms_printable(arms@, d + 1),
        Expr::Debug(inner) => expr_printable(&*inner.inner, d),
        Expr::Access(_, _) => false,
        Expr::AccessVariant(_, _) => false,
    }
}

/// Whether every expression of a sequence can be printed at depth `d`.
pub open spec fn exprs_printable(s: Seq<MirNode<Expr>>, d: nat) -> bool
    decreases s, 0nat,
{
    s.len() == 0 || (exprs_printable(s.drop_last(), d) && expr_printable(&*s.last().inner, d))
}

/// Whether every arm can be printed at depth `d`.
pub open spec fn arms_printable(s: Seq<(MirNode<Binding>, MirNode<Expr>)>, d: nat) -> bool
    decreases s, 0nat,
{
    s.len() == 0 || (arms_printable(s.drop_last(), d) && binding_printable(&*s.last().0.inner, d)
        && expr_printable(&*s.last().1.inner, d))
}

/// The printed form of an expression at nesting depth `d`.
pub open spec fn expr_doc(e: &Expr, d: nat) -> Seq<Atom>
    decreases e, 1nat,
{
    match e {
        Expr::Local(l) => txt(name_text(l@)),
        Expr::Global(g, _) => txt("global "@) + seq![Atom::Global(*g)],
        Expr::Const(c) => txt("const "@) + seq![Atom::Const(const_view(c))],
        Expr::Func(_, arg, body) => txt("fn "@ + name_text(arg@) + " => "@) + expr_doc(
            &*body.inner,
            d,
        ),
        Expr::Apply(f, arg) => txt("("@) + expr_doc(&*f.inner, d) + txt(")("@) + expr_doc(
            &*arg.inner,
            d,
        ) + txt(")"@),
        Expr::Variant(v, inner) => txt(seq!['$'] + dec_digits(*v as nat) + " "@) + expr_doc(
            &*inner.inner,
            d,
        ),
        Expr::Tuple(fields) => txt("("@) + exprs_doc(fields@, d + 1) + txt(")"@),
        Expr::List(items) => txt("["@) + exprs_doc(items@, d + 1) + txt("]"@),
        Expr::Intrinsic(op, args) => if unary_op(*op) is Some && args@.len() >= 1 {
            txt(unary_op(*op)->0) + expr_doc(&*args@[0].inner, d)
        } else if binary_op(*op) is Some && args@.len() >= 2 {
            expr_doc(&*args@[0].inner, d) + txt(binary_op(*op)->0) + expr_doc(&*args@[1].inner, d)
        } else {
            seq![]
        },
        Expr::Match(pred, arms) => txt("match "@) + expr_doc(&*pred.inner, d) + txt(" in"@)
            + arms_doc(arms@, d + 1),
        Expr::Debug(inner) => txt("?"@) + expr_doc(&*inner.inner, d),
        Expr::Access(_, _) => seq![],
        Expr::AccessVariant(_, _) => seq![],
    }
}

/// Expressions printed each followed by a comma, separated by spaces.
pub open spec fn exprs_doc(s: Seq<MirNode<Expr>>, d: nat) -> Seq<Atom>
    decreases s, 0nat,
{
    if s.len() == 0 {
        seq![]
    } else if s.len() == 1 {
        expr_doc(&*s[0].inner, d) + txt(","@)
    } else {
        exprs_doc(s.drop_last(), d) + txt(" "@) + expr_doc(&*s.last().inner, d) + txt(","@)
    }
}

/// Match arms, each on a line of its own indented by four spaces per level of depth `d`.
pub open spec fn arms_doc(s: Seq<(MirNode<Binding>, MirNode<Expr>)>, d: nat) -> Seq<Atom>
    decreases s, 0nat,
{
    if s.len() == 0 {
        seq![]
    } else {
        arms_doc(s.drop_last(), d) + txt(seq!['\n'] + spaces(4 * d) + "| "@) + binding_doc(
            &*s.last().0.inner,
            d,
        ) + txt(" => "@) + expr_doc(&*s.last().1.inner, d)
    }
}

fn push_piece<'a>(out: &mut Vec<Piece<'a>>, p: Piece<'a>)
    ensures
        pieces_atoms(final(out)@) == pieces_atoms(old(out)@) + piece_atoms(p),
{
    out.push(p);
    assert(out@.drop_last() =~= old(out)@);
}

fn push_text<'a>(out: &mut Vec<Piece<'a>>, t: String)
    ensures
        pieces_atoms(final(out)@) == pieces_atoms(old(out)@) + txt(t@),
{
    push_piece(out, Piece::Text(t));
}

fn push_lit<'a>(out: &mut Vec<Piece<'a>>, s: &str)
    ensures
        pieces_atoms(final(out)@) == pieces_atoms(old(out)@) + txt(s@),
{
    let mut t = String::new();
    push_str(&mut t, s);
    assert(t@ =~= s@);
    push_text(out, t);
}

fn variant_text(v: usize) -> (t: String)
    ensures
        t@ == seq!['$'] + dec_digits(v as nat) + " "@,
{
    let mut t = String::new();
    push_char(&mut t, '$');
    push_dec(&mut t, v as u64);
    push_str(&mut t, " ");
    assert(t@ =~= seq!['$'] + dec_digits(v as nat) + " "@);
    t
}

proof fn lemma_bindings_printable_index(s: Seq<MirNode<Binding>>, d: nat, i: int)
    requires
        bindings_printable(s, d),
        0 <= i < s.len(),
    ensures
        binding_printable(&*s[i].inner, d),
    decreases s.len(),
{
    if i < s.len() - 1 {
        lemma_bindings_printable_index(s.drop_last(), d, i);
    }
}

proof fn lemma_exprs_printable_index(s: Seq<MirNode<Expr>>, d: nat, i: int)
    requires
        exprs_printable(s, d),
        0 <= i < s.len(),
    ensures
        expr_printable(&*s[i].inner, d),
    decreases s.len(),
{
    if i < s.len() - 1 {
        lemma_exprs_printable_index(s.drop_last(), d, i);
    }
}

proof fn lemma_arms_printable_index(s: Seq<(MirNode<Binding>, MirNode<Expr>)>, d: nat, i: int)
    requires
        arms_printable(s, d),
        0 <= i < s.len(),
    ensures
        binding_printable(&*s[i].0.inner, d),
        expr_printable(&*s[i].1.inner, d),
    decreases s.len(),
{
    if i < s.len() - 1 {
        lemma_arms_printable_index(s.drop_last(), d, i);
    }
}

fn print_bindings<'a>(items: &'a Vec<MirNode<Binding>>, d: usize, out: &mut Vec<Piece<'a>>)
    requires
        bindings_printable(items@, d as nat),
    ensures
        pieces_atoms(final(out)@) == pieces_atoms(old(out)@) + bindings_doc(items@, d as nat),
    decreases items, 0nat,
{
    let ghost start = pieces_atoms(out@);
    let mut i: usize = 0;
    while i < items.len()
        invariant
            i <= items.len(),
            bindings_printable(items@, d as nat),
            pieces_atoms(out@) == start + bindings_doc(items@.subrange(0, i as int), d as nat),
        decreases items.len() - i,
    {
        proof {
            assert(decreases_to!(items => items@[i as int]));
            lemma_bindings_printable_index(items@, d as nat, i as int);
            assert(items@.subrange(0, i + 1).drop_last() =~= items@.subrange(0, i as int));
        }
        if i > 0 {
            push_lit(out, " ");
        }
        items[i].inner.print_into(d, out);
        push_lit(out, ",");
        i += 1;
        assert(pieces_atoms(out@) =~= start + bindings_doc(items@.subrange(0, i as int), d as nat));
    }
    assert(items@.subrange(0, i as int) =~= items@);
}

#[verifier::spinoff_prover]
#[verifier::rlimit(30)]
fn print_pat<'a>(p: &'a Pat, d: usize, out: &mut Vec<Piece<'a>>)
    requires
        pat_printable(p, d as nat),
    ensures
        pieces_atoms(final(out)@) == pieces_atoms(old(out)@) + pat_doc(p, d as nat),
    decreases p, 1nat,
{
    let ghost start = pieces_atoms(out@);
    match p {
        Pat::Wildcard => push_lit(out, "_"),
        Pat::Const(c) => {
            push_lit(out, "const ");
            push_piece(out, Piece::Const(c));
        },
        Pat::Single(inner) => inner.inner.print_into(d, out),
        Pat::Variant(v, inner) => {
            push_text(out, variant_text(*v));
            inner.inner.print_into(d, out);
        },
        Pat::ListExact(items) => {
            push_lit(out, "[");
            print_bindings(items, d + 1, out);
            push_lit(out, "]");
            assert(pieces_atoms(out@) =~= start + pat_doc(p, d as nat));
        },
        Pat::ListFront(items, tail) => {
            push_lit(out, "[");
            print_bindings(items, d + 1, out);
            push_lit(out, " .. ");
            match tail {
                Some(tail) => tail.inner.print_into(d, out),
                None => {},
            }
            push_lit(out, "]");
            assert(pieces_atoms(out@) =~= start + pat_doc(p, d as nat));
        },
        Pat::Tuple(fields) => {
            push_lit(out, "(");
            print_bindings(fields, d + 1, out);
            push_lit(out, ")");
            assert(pieces_atoms(out@) =~= start + pat_doc(p, d as nat));
        },
        Pat::Add(_, _) => {},
    }
    assert(pieces_atoms(out@) =~= start + pat_doc(p, d as nat));
}

impl Binding {
    #[verifier::spinoff_prover]
    #[verifier::rlimit(30)]
    fn print_into<'a>(&'a self, d: usize, out: &mut Vec<Piece<'a>>)
        requires
            binding_printable(self, d as nat),
        ensures
            pieces_atoms(final(out)@) == pieces_atoms(old(out)@) + binding_doc(self, d as nat),
        decreases self, 2nat,
    {
        let ghost start = pieces_atoms(out@);
        match &self.name {
            Some(name) => {
                let mut t = String::new();
                push_name(&mut t, name);
                if let Pat::Wildcard = &self.pat {
                    assert(t@ =~= name_text(name@));
                    push_text(out, t);
                    return ;
                }
                push_str(&mut t, " ~ ");
                assert(t@ =~= name_text(name@) + " ~ "@);
                push_text(out, t);
            },
            None => {},
        }
        print_pat(&self.pat, d, out);
        assert(pieces_atoms(out@) =~= start + binding_doc(self, d as nat));
    }
}

fn unary_op_text(op: &Intrinsic) -> (r: Option<&'static str>)
    ensures
        match r {
            Some(t) => unary_op(*op) == Some(t@),
            None => unary_op(*op) is None,
        },
{
    match op {
        Intrinsic::NotBool => Some("!"),
        Intrinsic::NegNat | Intrinsic::NegInt | Intrinsic::NegNum => Some("-"),
        _ => None,
    }
}

fn binary_op_text(op: &Intrinsic) -> (r: Option<&'static str>)
    ensures
        match r {
            Some(t) => binary_op(*op) == Some(t@),
            None => binary_op(*op) is None,
        },
{
    match op {
        Intrinsic::AddNat | Intrinsic::AddInt | Intrinsic::AddNum => Some(" + "),
        Intrinsic::SubNat | Intrinsic::SubInt | Intrinsic::SubNum => Some(" - "),
        Intrinsic::MulNat | Intrinsic::MulInt | Intrinsic::MulNum => Some(" * "),
        Intrinsic::DivNat | Intrinsic::DivInt | Intrinsic::DivNum => Some(" / "),
        Intrinsic::RemNat => Some(" % "),
        Intrinsic::EqNat | Intrinsic::EqInt | Intrinsic::EqNum | Intrinsic::EqChar => Some(" = "),
        Intrinsic::LessNat | Intrinsic::LessInt | Intrinsic::LessNum => Some(" < "),
        Intrinsic::MoreNat | Intrinsic::MoreInt | Intrinsic::MoreNum => Some(" > "),
        Intrinsic::MoreEqNat | Intrinsic::MoreEqInt | Intrinsic::MoreEqNum => Some(" >= "),
        Intrinsic::LessEqNat | Intrinsic::LessEqInt | Intrinsic::LessEqNum => Some(" <= "),
        Intrinsic::Join(_) => Some(" ++ "),
        _ => None,
    }
}

fn print_exprs<'a>(items: &'a Vec<MirNode<Expr>>, d: usize, out: &mut Vec<Piece<'a>>)
    requires
        exprs_printable(items@, d as nat),
    ensures
        pieces_atoms(final(out)@) == pieces_atoms(old(out)@) + exprs_doc(items@, d as nat),
    decreases items, 0nat,
{
    let ghost start = pieces_atoms(out@);
    let mut i: usize = 0;
    while i < items.len()
        invariant
            i <= items.len(),
            exprs_printable(items@, d as nat),
            pieces_atoms(out@) == start + exprs_doc(items@.subrange(0, i as int), d as nat),
        decreases items.len() - i,
    {
        proof {
            assert(decreases_to!(items => items@[i as int]));
            lemma_exprs_printable_index(items@, d as nat, i as int);
            assert(items@.subrange(0, i + 1).drop_last() =~= items@.subrange(0, i as int));
        }
        if i > 0 {
            push_lit(out, " ");
        }
        items[i].inner.print_into(d, out);
        push_lit(out, ",");
        i += 1;
        assert(pieces_atoms(out@) =~= start + exprs_doc(items@.subrange(0, i as int), d as nat));
    }
    assert(items@.subrange(0, i as int) =~= items@);
}

fn print_arms<'a>(arms: &'a Vec<(MirNode<Binding>, MirNode<Expr>)>, d: usize, out: &mut Vec<Piece<'a>>)
    requires
        arms_printable(arms@, d as nat),
    ensures
        pieces_atoms(final(out)@) == pieces_atoms(old(out)@) + arms_doc(arms@, d as nat),
    decreases arms, 0nat,
{
    let ghost start = pieces_atoms(out@);
    let mut i: usize = 0;
    while i < arms.len()
        invariant
            i <= arms.len(),
            arms_printable(arms@, d as nat),
            pieces_atoms(out@) == start + arms_doc(arms@.subrange(0, i as int), d as nat),
        decreases arms.len() - i,
    {
        proof {
            assert(decreases_to!(arms => arms@[i as int]));
            lemma_arms_printable_index(arms@, d as nat, i as int);
            assert(arms@.subrange(0, i + 1).drop_last() =~= arms@.subrange(0, i as int));
        }
        let mut t = String::new();
        push_char(&mut t, '\n');
        let mut k: usize = 0;
        while k < d
            invariant
                k <= d,
                t@ == seq!['\n'] + spaces(4 * k as nat),
            decreases d - k,
        {
            push_char(&mut t, ' ');
            push_char(&mut t, ' ');
            push_char(&mut t, ' ');
            push_char(&mut t, ' ');
            k += 1;
            assert(t@ =~= seq!['\n'] + spaces(4 * k as nat));
        }
        push_str(&mut t, "| ");
        push_text(out, t);
        let (arm, body) = &arms[i];
        arm.inner.print_into(d, out);
        push_lit(out, " => ");
        body.inner.print_into(d, out);
        i += 1;
        assert(pieces_atoms(out@) =~= start + arms_doc(arms@.subrange(0, i as int), d as nat));
    }
    assert(arms@.subrange(0, i as int) =~= arms@);
}

impl Expr {
    #[verifier::spinoff_prover]
    #[verifier::rlimit(30)]
    fn print_into<'a>(&'a self, d: usize, out: &mut Vec<Piece<'a>>)
        requires
            expr_printable(self, d as nat),
        ensures
            pieces_atoms(final(out)@) == pieces_atoms(old(out)@) + expr_doc(self, d as nat),
        decreases self, 1nat,
    {
        let ghost start = pieces_atoms(out@);
        match self {
            Expr::Local(local) => {
                let mut t = String::new();
                push_name(&mut t, local);
                assert(t@ =~= name_text(local@));
                push_text(out, t);
            },
            Expr::Global(global, _) => {
                push_lit(out, "global ");
                push_piece(out, Piece::Global(*global));
            },
            Expr::Const(c) => {
                push_lit(out, "const ");
                push_piece(out, Piece::Const(c));
            },
            Expr::Func(_, arg, body) => {
                let mut t = String::new();
                push_str(&mut t, "fn ");
                push_name(&mut t, arg);
                push_str(&mut t, " => ");
                assert(t@ =~= "fn "@ + name_text(arg@) + " => "@);
                push_text(out, t);
                body.inner.print_into(d, out);
            },
            Expr::Apply(func, arg) => {
                push_lit(out, "(");
                func.inner.print_into(d, out);
                push_lit(out, ")(");
                arg.inner.print_into(d, out);
                push_lit(out, ")");
            },
            Expr::Variant(variant, inner) => {
                push_text(out, variant_text(*variant));
                inner.inner.print_into(d, out);
            },
            Expr::Tuple(fields) => {
                push_lit(out, "(");
                print_exprs(fields, d + 1, out);
                push_lit(out, ")");
            },
            Expr::List(items) => {
                push_lit(out, "[");
                print_exprs(items, d + 1, out);
                push_lit(out, "]");
            },
            Expr::Intrinsic(op, args) => {
                proof {
                    assert(decreases_to!(args => args@[0]));
                }
                match unary_op_text(op) {
                    Some(sym) => {
                        push_lit(out, sym);
                        args[0].inner.print_into(d, out);
                    },
                    None => {
                        proof {
                            assert(decreases_to!(args => args@[1]));
                        }
                        match binary_op_text(op) {
                            Some(sym) => {
                                args[0].inner.print_into(d, out);
                                push_lit(out, sym);
                                args[1].inner.print_into(d, out);
                            },
                            None => {},
                        }
                    },
                }
            },
            Expr::Match(pred, arms) => {
                push_lit(out, "match ");
                pred.inner.print_into(d, out);
                push_lit(out, " in");
                print_arms(arms, d + 1, out);
            },
            Expr::Debug(inner) => {
                push_lit(out, "?");
                inner.inner.print_into(d, out);
            },
            Expr::Access(_, _) => {},
            Expr::AccessVariant(_, _) => {},
        }
        assert(pieces_atoms(out@) =~= start + expr_doc(self, d as nat));
    }

    /// The printed form of this expression, as pieces: text, and the
    /// constants and globals it shows, for the caller to show with `Debug`.
    pub fn print(&self) -> (r: Vec<Piece<'_>>)
        requires
            expr_printable(self, 0),
        ensures
            pieces_atoms(r@) == expr_doc(self, 0),
    {
        let mut out: Vec<Piece<'_>> = Vec::new();
        self.print_into(0, &mut out);
        assert(pieces_atoms(out@) =~= expr_doc(self, 0)) by {
            assert(pieces_atoms(Seq::<Piece>::empty()) =~= Seq::<Atom>::empty());
        }
        out
    }
}

fn bindings_printable_at(items: &Vec<MirNode<Binding>>, d: usize) -> (r: bool)
    ensures
        r == bindings_printable(items@, d as nat),
    decreases items, 0nat,
{
    let mut i: usize = 0;
    while i < items.len()
        invariant
            i <= items.len(),
            bindings_printable(items@.subrange(0, i as int), d as nat),
        decreases items.len() - i,
    {
        proof {
            assert(decreases_to!(items => items@[i as int]));
            assert(items@.subrange(0, i + 1).drop_last() =~= items@.subrange(0, i as int));
        }
        if !items[i].inner.printable_at(d) {
            proof {
                assert(!bindings_printable(items@, d as nat)) by {
                    if bindings_printable(items@, d as nat) {
                        lemma_bindings_printable_index(items@, d as nat, i as int);
                    }
                }
            }
            return false;
        }
        i += 1;
    }
    assert(items@.subrange(0, i as int) =~= items@);
    true
}

fn pat_printable_at(p: &Pat, d: usize) -> (r: bool)
    ensures
        r == pat_printable(p, d as nat),
    decreases p, 1nat,
{
    match p {
        Pat::Wildcard => true,
        Pat::Const(_) => true,
        Pat::Single(inner) => inner.inner.printable_at(d),
        Pat::Add(_, _) => false,
        Pat::Tuple(fields) => d < usize::MAX && bindings_printable_at(fields, d + 1),
        Pat::ListExact(items) => d < usize::MAX && bindings_printable_at(items, d + 1),
        Pat::ListFront(items, tail) => d < usize::MAX && bindings_printable_at(items, d + 1)
            && match tail {
            Some(t) => t.inner.printable_at(d),
            None => true,
        },
        Pat::Variant(_, inner) => inner.inner.printable_at(d),
    }
}

impl Binding {
    fn printable_at(&self, d: usize) -> (r: bool)
        ensures
            r == binding_printable(self, d as nat),
        decreases self, 2nat,
    {
        pat_printable_at(&self.pat, d)
    }
}

fn exprs_printable_at(items: &Vec<MirNode<Expr>>, d: usize) -> (r: bool)
    ensures
        r == exprs_printable(items@, d as nat),
    decreases items, 0nat,
{
    let mut i: usize = 0;
    while i < items.len()
        invariant
            i <= items.len(),
            exprs_printable(items@.subrange(0, i as int), d as nat),
        decreases items.len() - i,
    {
        proof {
            assert(decreases_to!(items => items@[i as int]));
            assert(items@.subrange(0, i + 1).drop_last() =~= items@.subrange(0, i as int));
        }
        if !items[i].inner.printable_at(d) {
            proof {
                assert(!exprs_printable(items@, d as nat)) by {
                    if exprs_printable(items@, d as nat) {
                        lemma_exprs_printable_index(items@, d as nat, i as int);
                    }
                }
            }
            return false;
        }
        i += 1;
    }
    assert(items@.subrange(0, i as int) =~= items@);
    true
}

fn arms_printable_at(arms: &Vec<(MirNode<Binding>, MirNode<Expr>)>, d: usize) -> (r: bool)
    ensures
        r == arms_printable(arms@, d as nat),
    decreases arms, 0nat,
{
    let mut i: usize = 0;
    while i < arms.len()
        invariant
            i <= arms.len(),
            arms_printable(arms@.subrange(0, i as int), d as nat),
        decreases arms.len() - i,
    {
        proof {
            assert(decreases_to!(arms => arms@[i as int]));
            assert(arms@.subrange(0, i + 1).drop_last() =~= arms@.subrange(0, i as int));
        }
        let (arm, body) = &arms[i];
        if !(arm.inner.printable_at(d) && body.inner.printable_at(d)) {
            proof {
                assert(!arms_printable(arms@, d as nat)) by {
                    if arms_printable(arms@, d as nat) {
                        lemma_arms_printable_index(arms@, d as nat, i as int);
                    }
                }
            }
            return false;
        }
        i += 1;
    }
    assert(arms@.subrange(0, i as int) =~= arms@);
    true
}

impl Expr {
    fn printable_at(&self, d: usize) -> (r: bool)
        ensures
            r == expr_printable(self, d as nat),
        decreases self, 1nat,
    {
        match self {
            Expr::Const(_) => true,
            Expr::Local(_) => true,
            Expr::Global(_, _) => true,
            Expr::Func(_, _, body) => body.inner.printable_at(d),
            Expr::Apply(f, arg) => f.inner.printable_at(d) && arg.inner.printable_at(d),
            Expr::Variant(_, inner) => inner.inner.printable_at(d),
            Expr::Tuple(fields) => d < usize::MAX && exprs_printable_at(fields, d + 1),
            Expr::List(items) => d < usize::MAX && exprs_printable_at(items, d + 1),
            Expr::Intrinsic(op, args) => {
                if unary_op_text(op).is_some() {
                    if args.len() >= 1 {
                        proof {
                            assert(decreases_to!(args => args@[0]));
                        }
                        args[0].inner.printable_at(d)
                    } else {
                        false
                    }
                } else if binary_op_text(op).is_some() {
                    if args.len() >= 2 {
                        proof {
                            assert(decreases_to!(args => args@[0]));
                            assert(decreases_to!(args => args@[1]));
                        }
                        args[0].inner.printable_at(d) && args[1].inner.printable_at(d)
                    } else {
                        false
                    }
                } else {
                    false
                }
            },
            Expr::Match(pred, arms) => d < usize::MAX && pred.inner.printable_at(d)
                && arms_printable_at(arms, d + 1),
            Expr::Debug(inner) => inner.inner.printable_at(d),
            Expr::Access(_, _) => false,
            Expr::AccessVariant(_, _) => false,
        }
    }

    /// Whether this expression can be printed (see `print`).
    pub fn is_printable(&self) -> (r: bool)
        ensures
            r == expr_printable(self, 0),
    {
        self.printable_at(0)
    }
}

/// The printed form of an intrinsic application with operands `x` and `y`
/// around the operator text `sym`.
pub open spec fn infix_doc(e: &Expr, sym: Seq<char>, d: nat) -> bool {
    &&& e is Intrinsic
    &&& e->Intrinsic_1@.len() >= 2
    &&& expr_doc(e, d) == expr_doc(&*e->Intrinsic_1@[0].inner, d) + txt(sym) + expr_doc(
        &*e->Intrinsic_1@[1].inner,
        d,
    )
}

/// The printed form of an intrinsic application with its operand after `sym`.
pub open spec fn prefix_doc(e: &Expr, sym: Seq<char>, d: nat) -> bool {
    &&& e is Intrinsic
    &&& e->Intrinsic_1@.len() >= 1
    &&& expr_doc(e, d) == txt(sym) + expr_doc(&*e->Intrinsic_1@[0].inner, d)
}

/// Each printable intrinsic shows its operator between (or before) the
/// printed operands, whatever the kind of number it works on: `+`, `-`, `*`,
/// `/`, `%`, `=`, `<`, `>`, `>=`, `<=` and `++` between the first two
/// arguments, `!` and `-` before the first.
pub proof fn lemma_intrinsic_operators(e: &Expr, d: nat)
    requires
        e is Intrinsic,
    ensures
        ({
            let op = e->Intrinsic_0;
            let n = e->Intrinsic_1@.len();
            &&& n >= 2 && (op is AddNat || op is AddInt || op is AddNum) ==> infix_doc(e, " + "@, d)
            &&& n >= 2 && (op is SubNat || op is SubInt || op is SubNum) ==> infix_doc(e, " - "@, d)
            &&& n >= 2 && (op is MulNat || op is MulInt || op is MulNum) ==> infix_doc(e, " * "@, d)
            &&& n >= 2 && (op is DivNat || op is DivInt || op is DivNum) ==> infix_doc(e, " / "@, d)
            &&& n >= 2 && op is RemNat ==> infix_doc(e, " % "@, d)
            &&& n >= 2 && (op is EqNat || op is EqInt || op is EqNum || op is EqChar) ==> infix_doc(
                e,
                " = "@,
                d,
            )
            &&& n >= 2 && (op is LessNat || op is LessInt || op is LessNum) ==> infix_doc(
                e,
                " < "@,
                d,
            )
            &&& n >= 2 && (op is MoreNat || op is MoreInt || op is MoreNum) ==> infix_doc(
                e,
                " > "@,
                d,
            )
            &&& n >= 2 && (op is MoreEqNat || op is MoreEqInt || op is MoreEqNum) ==> infix_doc(
                e,
                " >= "@,
                d,
            )
            &&& n >= 2 && (op is LessEqNat || op is LessEqInt || op is LessEqNum) ==> infix_doc(
                e,
                " <= "@,
                d,
            )
            &&& n >= 2 && op is Join ==> infix_doc(e, " ++ "@, d)
            &&& n >= 1 && op is NotBool ==> prefix_doc(e, "!"@, d)
            &&& n >= 1 && (op is NegNat || op is NegInt || op is NegNum) ==> prefix_doc(e, "-"@, d)
        }),
{
}

} // verus!
