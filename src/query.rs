use vstd::prelude::*;
use crate::data::{Point, Rect};

verus! {

/// A query shape: a single point or a rectangle.
#[derive(Clone, Copy, Debug)]
pub enum Query {
    Point(Point),
    Rect(Rect),
}

impl Query {
    pub fn point(x: i32, y: i32) -> (r: Query)
        ensures
            r == Query::Point(Point { x, y }),
    {
        Query::Point(Point { x, y })
    }

    pub fn rect(rect: Rect) -> (r: Query)
        ensures
            r == Query::Rect(rect),
    {
        Query::Rect(rect)
    }
}

} // verus!
