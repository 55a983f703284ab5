use vstd::prelude::*;
use crate::bvh::BvhVisitor;

verus! {

/// One call a hierarchy walk made on its visitor.
pub enum VisitorCall<P, B> {
    /// `enters` was asked about these bounds and gave this answer.
    Enters(B, bool),
    /// `visit_primitive` was handed this primitive.
    Visit(P),
}

/// A visitor together with the record, oldest first, of every call made on it. The record
/// grows only when a call is passed on to the visitor, so what a walk reports of it is
/// what the visitor was actually asked and answered.
pub struct LoggedVisitor<P, B, V> {
    visitor: V,
    calls: Ghost<Seq<VisitorCall<P, B>>>,
}

impl<P, B, V: BvhVisitor<P, B>> LoggedVisitor<P, B, V> {
    /// The calls made so far, oldest first.
    pub closed spec fn calls(&self) -> Seq<VisitorCall<P, B>> {
        self.calls@
    }

    /// The visitor inside.
    pub closed spec fn spec_visitor(&self) -> V {
        self.visitor
    }

    /// Starts recording the calls made on `visitor`.
    pub fn new(visitor: V) -> (l: Self)
        ensures
            l.calls() == Seq::<VisitorCall<P, B>>::empty(),
            l.spec_visitor() == visitor,
    {
        LoggedVisitor { visitor, calls: Ghost(Seq::empty()) }
    }

    /// Asks the visitor whether the walk should look inside a node with these bounds.
    pub fn enters(&mut self, bounds: &B) -> (entered: bool)
        ensures
            final(self).calls() == old(self).calls().push(VisitorCall::Enters(*bounds, entered)),
    {
        let entered = self.visitor.enters(bounds);
        proof {
            self.calls@ = self.calls@.push(VisitorCall::Enters(*bounds, entered));
        }
        entered
    }

    /// Hands one primitive to the visitor.
    pub fn visit_primitive(&mut self, primitive: &P)
        ensures
            final(self).calls() == old(self).calls().push(VisitorCall::Visit(*primitive)),
    {
        self.visitor.visit_primitive(primitive);
        proof {
            self.calls@ = self.calls@.push(VisitorCall::Visit(*primitive));
        }
    }

    /// The visitor inside.
    pub fn visitor(&self) -> (v: &V)
        ensures
            *v == self.spec_visitor(),
    {
        &self.visitor
    }

    /// Stops recording and gives the visitor back.
    pub fn into_visitor(self) -> (v: V)
        ensures
            v == self.spec_visitor(),
    {
        self.visitor
    }
}

} // verus!
