use mir_vm::mir::{Binding, Const, Expr, GlobalFlags, Intrinsic, MirNode, Node, Pat, ProcId, Repr};
use mir_vm::mir_print::{starts_alphabetic, Piece};

fn node<T>(t: T) -> MirNode<T> {
    Node { inner: Box::new(t), meta: Repr(0) }
}

fn name(s: &str) -> String {
    s.to_string()
}

fn bind(n: Option<&str>, pat: Pat) -> MirNode<Binding> {
    node(Binding { pat, name: n.map(name) })
}

fn wild(n: &str) -> MirNode<Binding> {
    bind(Some(n), Pat::Wildcard)
}

fn local(n: &str) -> MirNode<Expr> {
    node(Expr::Local(name(n)))
}

fn render(e: &Expr) -> String {
    let mut s = String::new();
    for piece in e.print() {
        match piece {
            Piece::Text(t) => s.push_str(&t),
            Piece::Const(c) => s.push_str(&format!("{:?}", c)),
            Piece::Global(g) => s.push_str(&format!("{:?}", g)),
        }
    }
    s
}

#[test]
fn const_accessors_read_their_variant() {
    assert!(Const::Bool(true).bool());
    assert_eq!(Const::Nat(5).as_nat(), 5);
    assert_eq!(Const::Int(-5).as_int(), -5);
    assert_eq!(Const::Num(1.5f64.to_bits()).num(), 1.5f64.to_bits());
    assert_eq!(Const::Char('q').char(), 'q');
    let l = Const::List(vec![Const::Nat(1), Const::Str(name("a"))]).list();
    assert_eq!(l.len(), 2);
    assert!(matches!(l[0], Const::Nat(1)));
    assert!(matches!(&l[1], Const::Str(s) if s == "a"));
}

#[test]
fn const_clone_keeps_value() {
    let c = Const::Sum(2, Box::new(Const::Tuple(vec![Const::Int(3), Const::Bool(false)])));
    let d = c.clone();
    assert_eq!(format!("{:?}", c), format!("{:?}", d));
}

#[test]
fn global_flags_default_allows_inlining() {
    assert!(GlobalFlags::default().can_inline);
}

#[test]
fn refutability_of_patterns() {
    assert!(!wild("x").inner.is_refutable());
    assert!(!bind(None, Pat::Const(Const::Tuple(vec![]))).inner.is_refutable());
    assert!(bind(None, Pat::Const(Const::Nat(1))).inner.is_refutable());
    assert!(bind(None, Pat::Add(wild("n"), 1)).inner.is_refutable());
    assert!(!bind(None, Pat::Add(wild("n"), 0)).inner.is_refutable());
    assert!(!bind(None, Pat::Tuple(vec![wild("a"), wild("b")])).inner.is_refutable());
    assert!(bind(None, Pat::Tuple(vec![wild("a"), bind(None, Pat::Variant(0, wild("b")))])).inner.is_refutable());
    assert!(bind(None, Pat::ListExact(vec![])).inner.is_refutable());
    assert!(!bind(None, Pat::ListFront(vec![], Some(wild("t")))).inner.is_refutable());
    assert!(!bind(None, Pat::ListFront(vec![], None)).inner.is_refutable());
    assert!(bind(None, Pat::ListFront(vec![wild("h")], None)).inner.is_refutable());
    assert!(bind(None, Pat::Single(bind(None, Pat::Variant(1, wild("v"))))).inner.is_refutable());
}

#[test]
fn binding_names_in_order() {
    let b = bind(
        Some("whole"),
        Pat::ListFront(
            vec![wild("a"), bind(None, Pat::Tuple(vec![wild("b"), wild("c")]))],
            Some(bind(Some("rest"), Pat::Add(wild("d"), 2))),
        ),
    );
    let names = b.inner.binding_names();
    assert_eq!(names, vec!["whole", "a", "b", "c", "rest", "d"]);
    assert!(b.inner.binds());
}

#[test]
fn binds_false_without_names() {
    let b = bind(None, Pat::Tuple(vec![bind(None, Pat::Wildcard), bind(None, Pat::Const(Const::Bool(true)))]));
    assert!(b.inner.binding_names().is_empty());
    assert!(!b.inner.binds());
}

#[test]
fn required_locals_of_local_and_already_held() {
    let e = Expr::Apply(local("f"), local("x"));
    assert_eq!(e.required_locals(vec![]), vec!["f", "x"]);
    assert_eq!(e.required_locals(vec![name("f")]), vec!["x"]);
}

#[test]
fn required_locals_keep_repeats_in_order() {
    let e = Expr::Tuple(vec![local("a"), local("b"), local("a")]);
    assert_eq!(e.required_locals(vec![]), vec!["a", "b", "a"]);
}

#[test]
fn required_locals_of_function_captures_and_argument() {
    let body = node(Expr::Intrinsic(
        Intrinsic::AddInt,
        vec![local("arg"), node(Expr::List(vec![local("c"), local("free")]))],
    ));
    let e = Expr::Func(vec![name("c"), name("held")], name("arg"), body);
    assert_eq!(e.required_locals(vec![name("held")]), vec!["c", "free"]);
}

#[test]
fn required_locals_of_match_arms_see_their_bindings() {
    let arms = vec![
        (wild("y"), node(Expr::Apply(local("y"), local("z")))),
        (bind(None, Pat::Tuple(vec![wild("p")])), local("y")),
    ];
    let e = Expr::Match(local("x"), arms);
    assert_eq!(e.required_locals(vec![]), vec!["x", "z", "y"]);
}

#[test]
fn required_locals_through_wrappers() {
    let e = Expr::Debug(node(Expr::Variant(
        1,
        node(Expr::AccessVariant(node(Expr::Access(local("t"), 0)), 2)),
    )));
    assert_eq!(e.required_locals(vec![]), vec!["t"]);
    let g = Expr::Global(ProcId(3), GlobalFlags::default());
    assert!(g.required_locals(vec![]).is_empty());
    let c = Expr::Const(Const::Nat(1));
    assert!(c.required_locals(vec![]).is_empty());
}

#[test]
fn print_locals_and_marked_names() {
    assert_eq!(render(&Expr::Local(name("x"))), "x");
    assert_eq!(render(&Expr::Local(name("_t"))), "$_t");
    assert_eq!(render(&Expr::Local(name("0"))), "$0");
    assert_eq!(render(&Expr::Local(name(""))), "$");
}

#[test]
fn print_constants_globals_and_functions() {
    assert_eq!(render(&Expr::Const(Const::Nat(4))), "const Nat(4)");
    assert_eq!(render(&Expr::Global(ProcId(2), GlobalFlags::default())), "global ProcId(2)");
    let f = Expr::Func(vec![], name("x"), node(Expr::Debug(local("x"))));
    assert_eq!(render(&f), "fn x => ?x");
    let a = Expr::Apply(local("f"), node(Expr::Variant(3, local("v"))));
    assert_eq!(render(&a), "(f)($3 v)");
}

#[test]
fn print_tuples_and_lists() {
    assert_eq!(render(&Expr::Tuple(vec![])), "()");
    assert_eq!(render(&Expr::Tuple(vec![local("a")])), "(a,)");
    assert_eq!(render(&Expr::List(vec![local("a"), local("b")])), "[a, b,]");
}

#[test]
fn print_intrinsics() {
    let bin = |op: Intrinsic| Expr::Intrinsic(op, vec![local("a"), local("b")]);
    assert_eq!(render(&Expr::Intrinsic(Intrinsic::NotBool, vec![local("a")])), "!a");
    assert_eq!(render(&Expr::Intrinsic(Intrinsic::NegNum, vec![local("a")])), "-a");
    assert_eq!(render(&bin(Intrinsic::AddNat)), "a + b");
    assert_eq!(render(&bin(Intrinsic::SubInt)), "a - b");
    assert_eq!(render(&bin(Intrinsic::MulNum)), "a * b");
    assert_eq!(render(&bin(Intrinsic::DivInt)), "a / b");
    assert_eq!(render(&bin(Intrinsic::RemNat)), "a % b");
    assert_eq!(render(&bin(Intrinsic::EqChar)), "a = b");
    assert_eq!(render(&bin(Intrinsic::LessNat)), "a < b");
    assert_eq!(render(&bin(Intrinsic::MoreInt)), "a > b");
    assert_eq!(render(&bin(Intrinsic::MoreEqNum)), "a >= b");
    assert_eq!(render(&bin(Intrinsic::LessEqInt)), "a <= b");
    assert_eq!(render(&bin(Intrinsic::Join(Repr(1)))), "a ++ b");
}

#[test]
fn print_match_with_indented_arms() {
    let arms = vec![
        (wild("y"), node(Expr::Intrinsic(Intrinsic::AddInt, vec![local("y"), node(Expr::Const(Const::Int(1)))]))),
        (
            bind(Some("p"), Pat::Tuple(vec![wild("a"), bind(None, Pat::Wildcard)])),
            local("a"),
        ),
        (
            bind(None, Pat::ListFront(vec![wild("h")], Some(wild("t")))),
            node(Expr::Match(local("t"), vec![(bind(None, Pat::ListExact(vec![])), local("h"))])),
        ),
        (bind(None, Pat::Variant(2, bind(None, Pat::Const(Const::Bool(true))))), local("z")),
        (bind(None, Pat::ListFront(vec![], None)), local("w")),
        (bind(None, Pat::Single(wild("s"))), local("s")),
    ];
    let e = Expr::Match(local("x"), arms);
    let expected = [
        "match x in",
        "\n    | y => y + const Int(1)",
        "\n    | p ~ (a, _,) => a",
        "\n    | [h, .. t] => match t in",
        "\n        | [] => h",
        "\n    | $2 const Bool(true) => z",
        "\n    | [ .. ] => w",
        "\n    | s => s",
    ]
.concat();
    assert_eq!(render(&e), expected);
}

#[test]
fn printable_excludes_what_has_no_printed_form() {
    assert!(!Expr::Access(local("t"), 0).is_printable());
    assert!(!Expr::AccessVariant(local("t"), 0).is_printable());
    assert!(!Expr::Intrinsic(Intrinsic::NotEqInt, vec![local("a"), local("b")]).is_printable());
    assert!(!Expr::Intrinsic(Intrinsic::MakeList(Repr(0)), vec![]).is_printable());
    assert!(!Expr::Intrinsic(Intrinsic::AddInt, vec![local("a")]).is_printable());
    assert!(!Expr::Intrinsic(Intrinsic::NegInt, vec![]).is_printable());
    let add_pat = vec![(bind(None, Pat::Add(wild("n"), 1)), local("n"))];
    assert!(!Expr::Match(local("x"), add_pat).is_printable());
    assert!(Expr::Tuple(vec![local("a"), node(Expr::Debug(local("b")))]).is_printable());
    assert!(Expr::Intrinsic(Intrinsic::AddInt, vec![local("a"), local("b"), local("c")]).is_printable());
}

#[test]
fn print_ignores_extra_intrinsic_arguments() {
    let e = Expr::Intrinsic(Intrinsic::AddInt, vec![local("a"), local("b"), local("c")]);
    assert_eq!(render(&e), "a + b");
}

#[test]
fn names_starting_alphabetically() {
    assert!(starts_alphabetic("x"));
    assert!(starts_alphabetic("Zed"));
    assert!(starts_alphabetic("été"));
    assert!(!starts_alphabetic("_t"));
    assert!(!starts_alphabetic("9"));
    assert!(!starts_alphabetic(""));
}

#[test]
fn clone_keeps_expressions_and_bindings() {
    let arms = vec![(bind(Some("p"), Pat::ListFront(vec![wild("h")], Some(wild("t")))), local("h"))];
    let e = Expr::Func(vec![name("c")], name("a"), node(Expr::Match(local("x"), arms)));
    let f = e.clone();
    assert_eq!(format!("{:?}", e), format!("{:?}", f));
    assert_eq!(render(&e), render(&f));
    let b = bind(Some("q"), Pat::Add(wild("n"), 3));
    let c = b.inner.clone();
    assert_eq!(format!("{:?}", b.inner), format!("{:?}", c));
    let p = Pat::Variant(1, wild("v")).clone();
    assert!(matches!(p, Pat::Variant(1, _)));
    let n = b.clone();
    assert_eq!(n.meta, Repr(0));
}

#[test]
fn holding_more_names_filters_required_locals() {
    let e = Expr::Tuple(vec![local("a"), local("b"), local("a"), local("c")]);
    assert_eq!(e.required_locals(vec![name("b")]), vec!["a", "a", "c"]);
    assert_eq!(e.required_locals(vec![name("b"), name("a")]), vec!["c"]);
}

#[test]
fn names_do_not_change_refutability() {
    let named = bind(Some("x"), Pat::Tuple(vec![wild("a"), bind(Some("b"), Pat::Add(wild("n"), 0))]));
    let unnamed = bind(None, Pat::Tuple(vec![bind(None, Pat::Wildcard), bind(None, Pat::Add(bind(None, Pat::Wildcard), 0))]));
    assert_eq!(named.inner.is_refutable(), unnamed.inner.is_refutable());
    assert!(!named.inner.is_refutable());
}
