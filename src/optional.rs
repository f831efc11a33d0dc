//! A view whose child is present or absent from one cycle to the next.
use vstd::prelude::*;
use crate::view::AnyView;

verus! {

/// A child shown only while `show` holds. When `show` turns off, the child's
/// widget and diff state are dropped; when it turns on, they are built anew.
pub struct Optional<H> {
    pub child: Box<AnyView<H>>,
    pub show: bool,
}

/// A shown optional child.
pub fn optional<H>(child: AnyView<H>) -> (o: Optional<H>)
    ensures
        *o.child == child,
        o.show,
{
    Optional::new(child)
}

impl<H> Optional<H> {
    /// A shown optional child.
    pub fn new(child: AnyView<H>) -> (o: Optional<H>)
        ensures
            *o.child == child,
            o.show,
    {
        Optional { child: Box::new(child), show: true }
    }

    /// The same child, shown or not as `show` says.
    pub fn show(self, show: bool) -> (o: Optional<H>)
        ensures
            o.child == self.child,
            o.show == show,
    {
        Optional { child: self.child, show }
    }
}

} // verus!
