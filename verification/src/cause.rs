//! Causes, the facts they are built from, and the result of checking one.

use vstd::laws_eq::obeys_concrete_eq;
use vstd::prelude::*;
use vstd::std_specs::cmp::PartialEqSpecImpl;

verus! {

/// A claim about a system which is either true or false of a context, and
/// which may name one cause that would explain why it is false.
///
/// `holds` and `reason` say what `check` and `cause` answer. A fact type
/// written in verified code defines them next to its methods; one written
/// elsewhere inherits the defaults, which say no more than that each answer
/// is a function of the fact and the context.
pub trait Fact: Sized + Clone + PartialEq {
    /// The read-only state that facts are checked against.
    type Context;

    /// Whether this fact is true of `ctx`.
    open spec fn holds(&self, ctx: &Self::Context) -> bool {
        arbitrary::<spec_fn(Self, Self::Context) -> bool>()(*self, *ctx)
    }

    /// The cause that explains this fact when it is false, if it has one.
    open spec fn reason(&self, ctx: &Self::Context) -> Option<CauseView<Self>> {
        arbitrary::<spec_fn(Self, Self::Context) -> Option<CauseView<Self>>>()(*self, *ctx)
    }

    /// Checks this fact against `ctx`.
    fn check(&self, ctx: &Self::Context) -> (r: bool)
        ensures
            r == self.holds(ctx),
    ;

    /// The cause that would explain this fact being false; `None` marks a
    /// fact with no further explanation.
    fn cause(&self, ctx: &Self::Context) -> (r: Option<Cause<Self>>)
        ensures
            view_of(r) == self.reason(ctx),
    ;
}

/// A fact, or a logical combination of causes.
#[derive(Debug, Hash)]
pub enum Cause<T> {
    /// A single fact.
    Fact(T),
    /// Holds if at least one of the listed causes holds.
    Any(Vec<Cause<T>>),
    /// Holds only if all of the listed causes hold.
    Every(Vec<Cause<T>>),
}

/// The mathematical value of a [`Cause`]: the same tree over sequences.
pub enum CauseView<T> {
    /// A single fact.
    Fact(T),
    /// At least one of the causes.
    Any(Seq<CauseView<T>>),
    /// All of the causes.
    Every(Seq<CauseView<T>>),
}

/// The view of a cause, by recursion over the tree.
pub open spec fn cause_view<T>(c: Cause<T>) -> CauseView<T>
    decreases c,
{
    match c {
        Cause::Fact(f) => CauseView::Fact(f),
        Cause::Any(cs) => CauseView::Any(
            Seq::new(
                cs.len() as nat,
                |i: int|
                    if 0 <= i < cs.len() {
                        cause_view(cs[i])
                    } else {
                        arbitrary()
                    },
            ),
        ),
        Cause::Every(cs) => CauseView::Every(
            Seq::new(
                cs.len() as nat,
                |i: int|
                    if 0 <= i < cs.len() {
                        cause_view(cs[i])
                    } else {
                        arbitrary()
                    },
            ),
        ),
    }
}

impl<T> View for Cause<T> {
    type V = CauseView<T>;

    open spec fn view(&self) -> CauseView<T> {
        cause_view(*self)
    }
}

/// The views of a list of causes, one for one.
pub open spec fn views<T>(cs: Seq<Cause<T>>) -> Seq<CauseView<T>> {
    Seq::new(cs.len(), |i: int| cs[i]@)
}

/// The view of `Any` is `Any` of the views.
pub proof fn lemma_view_any<T>(cs: Vec<Cause<T>>)
    ensures
        Cause::Any(cs)@ == CauseView::Any(views(cs@)),
{
    assert(Cause::Any(cs)@->Any_0 =~= views(cs@));
}

/// The view of `Every` is `Every` of the views.
pub proof fn lemma_view_every<T>(cs: Vec<Cause<T>>)
    ensures
        Cause::Every(cs)@ == CauseView::Every(views(cs@)),
{
    assert(Cause::Every(cs)@->Every_0 =~= views(cs@));
}

/// The view of an optional cause.
pub open spec fn view_of<T>(c: Option<Cause<T>>) -> Option<CauseView<T>> {
    match c {
        Some(c) => Some(c@),
        None => None,
    }
}

/// The result of checking one cause.
#[derive(Debug, Hash)]
pub enum Check<T> {
    /// The cause holds.
    Pass,
    /// The cause does not hold; the listed causes explain why.
    Fail(Vec<Cause<T>>),
}

/// The mathematical value of a [`Check`].
pub enum CheckView<T> {
    /// The cause holds.
    Pass,
    /// The cause does not hold; the listed causes explain why.
    Fail(Seq<CauseView<T>>),
}

impl<T> View for Check<T> {
    type V = CheckView<T>;

    open spec fn view(&self) -> CheckView<T> {
        match self {
            Check::Pass => CheckView::Pass,
            Check::Fail(cs) => CheckView::Fail(views(cs@)),
        }
    }
}

impl<T> Check<T> {
    /// Whether the checked cause holds.
    pub fn is_pass(&self) -> (r: bool)
        ensures
            r == (self@ is Pass),
    {
        match self {
            Check::Pass => true,
            Check::Fail(_) => false,
        }
    }
}

/// Every clone of a `T` equals the value it was made from.
pub open spec fn clone_is_exact<T: Clone>() -> bool {
    forall|a: T, b: T| #[trigger] call_ensures(T::clone, (&a,), b) ==> a == b
}

/// A fact type whose `==` and `clone` mean what they say: `==` decides
/// equality of values, and a clone equals the value it was made from.
pub open spec fn well_behaved<T: Fact>() -> bool {
    obeys_concrete_eq::<T>() && clone_is_exact::<T>()
}

/// Clones a list of causes, one for one.
pub fn clone_causes<T: Clone>(cs: &Vec<Cause<T>>) -> (r: Vec<Cause<T>>)
    ensures
        clone_is_exact::<T>() ==> views(r@) == views(cs@),
    decreases cs,
{
    let mut out: Vec<Cause<T>> = Vec::new();
    let mut i: usize = 0;
    while i < cs.len()
        invariant
            i <= cs.len(),
            out.len() == i,
            clone_is_exact::<T>() ==> forall|j: int| 0 <= j < i ==> out[j]@ == cs[j]@,
        decreases cs.len() - i,
    {
        let c = cs[i].clone();
        out.push(c);
        i = i + 1;
    }
    proof {
        if clone_is_exact::<T>() {
            assert(views(out@) =~= views(cs@));
        }
    }
    out
}

impl<T: Clone> Clone for Cause<T> {
    fn clone(&self) -> (r: Self)
        ensures
            clone_is_exact::<T>() ==> r@ == self@,
        decreases self,
    {
        match self {
            Cause::Fact(f) => Cause::Fact(f.clone()),
            Cause::Any(cs) => {
                let out = clone_causes(cs);
                proof {
                    lemma_view_any(*cs);
                    lemma_view_any(out);
                }
                Cause::Any(out)
            },
            Cause::Every(cs) => {
                let out = clone_causes(cs);
                proof {
                    lemma_view_every(*cs);
                    lemma_view_every(out);
                }
                Cause::Every(out)
            },
        }
    }
}

/// Whether two lists of causes are equal, cause by cause.
pub fn same_causes<T: PartialEq>(a: &Vec<Cause<T>>, b: &Vec<Cause<T>>) -> (r: bool)
    ensures
        obeys_concrete_eq::<T>() ==> r == (views(a@) == views(b@)),
    decreases a,
{
    if a.len() != b.len() {
        assert(views(a@).len() != views(b@).len());
        return false;
    }
    let mut i: usize = 0;
    while i < a.len()
        invariant
            i <= a.len(),
            a.len() == b.len(),
            obeys_concrete_eq::<T>() ==> forall|j: int| 0 <= j < i ==> a[j]@ == b[j]@,
        decreases a.len() - i,
    {
        if !a[i].eq(&b[i]) {
            proof {
                if obeys_concrete_eq::<T>() {
                    assert(views(a@)[i as int] != views(b@)[i as int]);
                }
            }
            return false;
        }
        i = i + 1;
    }
    proof {
        if obeys_concrete_eq::<T>() {
            assert(views(a@) =~= views(b@));
        }
    }
    true
}

impl<T: Clone> Clone for Check<T> {
    fn clone(&self) -> (r: Self)
        ensures
            clone_is_exact::<T>() ==> r@ == self@,
    {
        match self {
            Check::Pass => Check::Pass,
            Check::Fail(cs) => Check::Fail(clone_causes(cs)),
        }
    }
}

impl<T: PartialEq> PartialEq for Cause<T> {
    fn eq(&self, other: &Self) -> (r: bool)
        decreases self,
    {
        proof {
            reveal(obeys_concrete_eq);
        }
        match (self, other) {
            (Cause::Fact(a), Cause::Fact(b)) => a.eq(b),
            (Cause::Any(a), Cause::Any(b)) => {
                proof {
                    lemma_view_any(*a);
                    lemma_view_any(*b);
                }
                same_causes(a, b)
            },
            (Cause::Every(a), Cause::Every(b)) => {
                proof {
                    lemma_view_every(*a);
                    lemma_view_every(*b);
                }
                same_causes(a, b)
            },
            _ => false,
        }
    }
}

impl<T: PartialEq> PartialEqSpecImpl for Cause<T> {
    open spec fn obeys_eq_spec() -> bool {
        obeys_concrete_eq::<T>()
    }

    open spec fn eq_spec(&self, other: &Self) -> bool {
        self@ == other@
    }
}

impl<T: Eq> Eq for Cause<T> {

}

impl<T: PartialEq> PartialEq for Check<T> {
    fn eq(&self, other: &Self) -> (r: bool) {
        match (self, other) {
            (Check::Pass, Check::Pass) => true,
            (Check::Fail(a), Check::Fail(b)) => same_causes(a, b),
            _ => false,
        }
    }
}

impl<T: PartialEq> PartialEqSpecImpl for Check<T> {
    open spec fn obeys_eq_spec() -> bool {
        obeys_concrete_eq::<T>()
    }

    open spec fn eq_spec(&self, other: &Self) -> bool {
        self@ == other@
    }
}

impl<T: Eq> Eq for Check<T> {

}

} // verus!
