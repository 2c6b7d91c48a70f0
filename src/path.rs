//! A route of waypoints, consumed front to back.
use vstd::prelude::*;
use crate::geometry::Point3;

verus! {

/// The route an agent is walking: the waypoint it heads for now, then the
/// ones after it, in the order they are visited.
#[derive(Debug)]
pub struct Path {
    pub current: Point3,
    pub remaining: Vec<Point3>,
}

/// Every point of `s` lies within the coordinate limits.
pub open spec fn all_in_bounds(s: Seq<Point3>) -> bool {
    forall|i: int| 0 <= i < s.len() ==> (#[trigger] s[i]).in_bounds()
}

/// Tests whether every point of a route lies within the coordinate limits.
pub fn route_in_bounds(route: &Vec<Point3>) -> (r: bool)
    ensures
        r == all_in_bounds(route@),
{
    let mut i: usize = 0;
    while i < route.len()
        invariant
            i <= route@.len(),
            forall|j: int| 0 <= j < i ==> (#[trigger] route@[j]).in_bounds(),
        decreases route@.len() - i,
    {
        if !route[i].in_bounds_exec() {
            return false;
        }
        i = i + 1;
    }
    true
}

impl Path {
    /// The waypoints still ahead, the current one first.
    pub open spec fn waypoints(&self) -> Seq<Point3> {
        seq![self.current] + self.remaining@
    }

    /// Every waypoint ahead lies within the coordinate limits.
    pub open spec fn in_bounds(&self) -> bool {
        all_in_bounds(self.waypoints())
    }

    /// Builds a path from the waypoints of a route, in visiting order.
    /// An empty route gives no path.
    pub fn from_waypoints(route: Vec<Point3>) -> (r: Option<Path>)
        ensures
            r.is_none() <==> route@.len() == 0,
            r.is_some() ==> r.unwrap().waypoints() == route@,
    {
        if route.len() == 0 {
            return None;
        }
        let mut remaining = route;
        let current = remaining.remove(0);
        let p = Path { current, remaining };
        assert(p.waypoints() =~= route@);
        Some(p)
    }

    /// Number of waypoints after the current one.
    pub fn remaining_len(&self) -> (r: usize)
        ensures
            r == self.remaining@.len(),
    {
        self.remaining.len()
    }

    /// Moves on to the next waypoint. Returns false, and changes nothing, when
    /// the current waypoint is the last one.
    pub fn advance(&mut self) -> (r: bool)
        ensures
            r == (old(self).remaining@.len() > 0),
            r ==> final(self).waypoints() == old(self).waypoints().drop_first(),
            !r ==> *final(self) == *old(self),
    {
        if self.remaining.len() == 0 {
            return false;
        }
        self.current = self.remaining.remove(0);
        assert(self.waypoints() =~= old(self).waypoints().drop_first());
        true
    }
}

} // verus!
