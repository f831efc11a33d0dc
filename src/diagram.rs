//! The plain data of diagram views: texts, shape outlines, connectors and
//! the editing controls.
use vstd::prelude::*;

verus! {

/// A text shown inside a diagram shape.
#[derive(Clone, Debug, PartialEq)]
pub struct DiagramText {
    pub child: String,
}

impl DiagramText {
    pub fn new(child: &str) -> (t: DiagramText)
        ensures
            t.child@ == child@,
    {
        DiagramText { child: child.to_owned() }
    }
}

/// The outline a diagram shape is drawn with.
#[derive(Clone, Copy, Debug, PartialEq, Eq, Structural)]
pub enum EnhancedGeometry {
    Ellipse,
    Rectangle,
}

/// How a connector runs between two shapes.
#[derive(Clone, Copy, Debug, PartialEq, Eq, Structural)]
pub enum ConnectorType {
    Straight,
    Curved,
}

/// The tool selected in a diagram editor.
#[derive(Clone, Copy, Debug, PartialEq, Eq, Structural)]
pub enum DiagramControl {
    Selection,
    Square,
    Ellipse,
    Circle,
}

} // verus!
