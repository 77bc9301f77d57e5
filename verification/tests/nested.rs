use aitia::stef::{ActionRecorder, MemoryCassette, Nested, RecordActions, Share, State, Transformer};
use std::ops::Deref;

//           Root
//            |
//            G
//           / \
//          /   \
//         C     F
//        / \   / \
//       A  B  D   E

// L1
#[derive(Debug, Clone, PartialEq, Eq)]
struct A(bool);

#[derive(Debug, Clone, PartialEq, Eq)]
struct B(u8);

#[allow(dead_code)]
#[derive(Debug, Clone, PartialEq)]
struct D(f64);

#[allow(dead_code)]
#[derive(Debug, Clone, PartialEq, Eq)]
struct E(String);

// L2
#[derive(Clone)]
struct C {
    a: Share<A>,
    b: Share<B>,
}

#[allow(dead_code)]
#[derive(Clone)]
struct F {
    d: Share<D>,
    e: Share<E>,
}

#[allow(dead_code)]
#[derive(Clone)]
struct G {
    c: Share<C>,
    f: Share<F>,
}

type RootInner = RecordActions<C, MemoryCassette<C>>;

#[derive(Clone)]
struct Root(Share<RootInner>);

impl Deref for Root {
    type Target = Share<RootInner>;

    fn deref(&self) -> &Share<RootInner> {
        &self.0
    }
}

impl State for Root {
    type Action = <RootInner as State>::Action;
    type Effect = <RootInner as State>::Effect;

    fn transition(&mut self, action: Self::Action) -> Self::Effect {
        self.0.transition(action)
    }
}

impl Root {
    pub fn new(inner: RootInner) -> Self {
        Self(Share::new(inner))
    }

    pub fn a(&self) -> Nested<RootInner, A, impl Fn(Ax) -> Cx, impl Fn(Cf) -> Af> {
        Nested::new(self.0.read(|c| c.a.clone()), self.0.clone(), Cx::transformer_a())
    }

    pub fn b(&self) -> Nested<RootInner, B, impl Fn(Bx) -> Cx, impl Fn(Cf) -> Bf> {
        Nested::new(self.0.read(|c| c.b.clone()), self.0.clone(), Cx::transformer_b())
    }
}

#[derive(Debug, Clone, PartialEq, Eq)]
enum Cx {
    A(Ax),
    B(Bx),
}

impl Cx {
    fn transformer_a() -> Transformer<RootInner, A, impl Fn(Ax) -> Cx, impl Fn(Cf) -> Af> {
        Transformer::new(
            |a| Cx::A(a),
            |c| match c {
                Cf::A(a) => a,
                _ => unreachable!(),
            },
        )
    }

    fn transformer_b() -> Transformer<RootInner, B, impl Fn(Bx) -> Cx, impl Fn(Cf) -> Bf> {
        Transformer::new(
            |b| Cx::B(b),
            |c| match c {
                Cf::B(b) => b,
                _ => unreachable!(),
            },
        )
    }
}

type Ax = ();
type Bx = u8;

#[derive(Debug, PartialEq, Eq)]
enum Cf {
    A(Af),
    B(Bf),
}
type Af = bool;
type Bf = u8;

impl State for C {
    type Action = Cx;
    type Effect = Cf;

    fn transition(&mut self, ax: Self::Action) -> Self::Effect {
        match ax {
            Cx::A(a) => Cf::A(self.a.transition(a)),
            Cx::B(b) => Cf::B(self.b.transition(b)),
        }
    }
}

impl State for A {
    type Action = Ax;
    type Effect = Af;

    fn transition(&mut self, (): Self::Action) -> Self::Effect {
        self.0 = !self.0;
        self.0
    }
}

impl State for B {
    type Action = Bx;
    type Effect = Bf;

    fn transition(&mut self, amt: Self::Action) -> Self::Effect {
        self.0 += amt;
        self.0
    }
}

#[test]
fn test_nested() {
    let a = A(false);
    let b = B(0);
    let c: C = C {
        a: Share::new(a),
        b: Share::new(b),
    };
    let cassette = MemoryCassette::new();
    let root = Root::new(RecordActions::new(Some(cassette.clone()), c));

    let mut a1 = root.a();
    let mut a2 = root.a();
    let mut b1 = root.b();
    let mut b2 = root.b();

    a1.transition(());
    b1.transition(1);
    a1.transition(());
    a2.transition(());
    b2.transition(2);

    assert_eq!(
        cassette.retrieve_actions().unwrap(),
        vec![Cx::A(()), Cx::B(1), Cx::A(()), Cx::A(()), Cx::B(2),]
    );

    root.read(|s| {
        assert_eq!(s.a.get(), A(true));
        assert_eq!(s.b.get(), B(3));
    });
}
