//! The registry of agents and targets, and the rules that move agents along
//! their paths.
use vstd::prelude::*;
use crate::geometry::{
    Point3, dist_sq, step_toward, step_toward_spec, distance_squared, in_box, lemma_step_in_box,
    lemma_in_box_closer,
};
use crate::path::{Path, all_in_bounds, route_in_bounds};

verus! {

/// Walking speed of an agent, in millimetres per millisecond (ten metres a second).
pub const SPEED_MM_PER_MS: u64 = 10;

/// An agent closer to its waypoint than this many millimetres has reached it.
pub const ARRIVAL_TOLERANCE: u64 = 100;

/// The square of `ARRIVAL_TOLERANCE`.
pub const ARRIVAL_TOLERANCE_SQ: u128 = 10_000;

/// Asks the dispatcher to start the agent toward the next selected target.
/// Any number of these sent within one tick count as one.
#[derive(Clone, Copy, Debug, Default)]
pub struct SimulateEvent;

/// The operator's choice for one target.
#[derive(Clone, Copy, Debug, PartialEq, Eq, Structural)]
pub struct TargetState {
    pub selected: bool,
}

/// Which flow spawned a visit marker.
#[derive(Clone, Copy, Debug, PartialEq, Eq, Structural)]
pub enum MarkerKind {
    /// Spawned by the dispatcher at a selected target.
    Dispatch,
    /// Spawned by a click on the ground.
    Manual,
}

/// The visible sign that an agent is on its way somewhere.
#[derive(Clone, Copy, Debug, PartialEq, Eq, Structural)]
pub struct Marker {
    pub kind: MarkerKind,
    /// Where the marker stands.
    pub position: Point3,
    /// The target the marker belongs to, for a dispatch marker.
    pub target: Option<usize>,
}

/// A location that the operator may select for a visit.
#[derive(Clone, Copy, Debug, PartialEq, Eq, Structural)]
pub struct Target {
    pub position: Point3,
    pub state: TargetState,
    /// An agent has reached this target at the end of a dispatched journey.
    /// A visited target is not dispatched to again; selecting it anew does not
    /// clear the mark.
    pub visited: bool,
    /// The dispatch marker standing at this target while a journey to it is
    /// under way. Only the dispatcher adds or removes it.
    pub marker: Option<Marker>,
}

/// A movable agent.
#[derive(Debug)]
pub struct Agent {
    pub position: Point3,
    /// The route being walked, while the agent is moving.
    pub path: Option<Path>,
    /// The target the agent walks toward, on a dispatched journey.
    pub assigned_target: Option<usize>,
    /// The marker of a walk that a click started. The marker of a dispatched
    /// journey stands at its target instead.
    pub marker: Option<Marker>,
}

impl Agent {
    /// Positions stay within the coordinate limits; a marker or a target
    /// exists only while there is a path; the agent's own marker is a click
    /// marker, and it never walks a click route toward an assigned target.
    pub open spec fn wf(&self) -> bool {
        &&& self.position.in_bounds()
        &&& self.path.is_some() ==> self.path.unwrap().in_bounds()
        &&& self.marker.is_some() ==> self.path.is_some()
        &&& self.marker.is_some() ==> self.marker.unwrap().kind == MarkerKind::Manual
            && self.marker.unwrap().target.is_none() && self.assigned_target.is_none()
        &&& self.assigned_target.is_some() ==> self.path.is_some()
    }

    /// The agent is on a dispatched journey to target `j`.
    pub open spec fn heads_for(&self, j: int) -> bool {
        self.assigned_target.is_some() && self.assigned_target.unwrap() as int == j
    }

    /// What one tick of `step` millimetres does to agent `a`, giving `b`;
    /// `finished` tells that `a` reached the last waypoint of its path.
    pub open spec fn tick_relation(a: Agent, b: Agent, finished: bool, step: int) -> bool {
        match a.path {
            None => b == a && !finished,
            Some(p) => {
                let np = step_toward_spec(a.position, p.current, step);
                &&& b.position == np
                &&& if dist_sq(np, p.current) < ARRIVAL_TOLERANCE_SQ {
                    if p.remaining@.len() > 0 {
                        &&& !finished
                        &&& b.path.is_some()
                        &&& b.path.unwrap().waypoints() == p.waypoints().drop_first()
                        &&& b.marker == a.marker
                        &&& b.assigned_target == a.assigned_target
                    } else {
                        &&& finished
                        &&& b.path.is_none()
                        &&& b.marker.is_none()
                        &&& b.assigned_target.is_none()
                    }
                } else {
                    &&& !finished
                    &&& b.path == a.path
                    &&& b.marker == a.marker
                    &&& b.assigned_target == a.assigned_target
                }
            },
        }
    }

    /// The tick of `step` millimetres brings the agent to the last waypoint of its path.
    pub open spec fn finishes(a: Agent, step: int) -> bool {
        match a.path {
            None => false,
            Some(p) => dist_sq(step_toward_spec(a.position, p.current, step), p.current)
                < ARRIVAL_TOLERANCE_SQ && p.remaining@.len() == 0,
        }
    }

    /// Moves the agent `step` millimetres toward its current waypoint, never
    /// past it. Once within `ARRIVAL_TOLERANCE` of the waypoint the agent
    /// turns to the next one; after the last one its path, marker and assigned
    /// target are cleared and `true` is returned.
    pub fn tick(&mut self, step: u64) -> (finished: bool)
        requires
            old(self).wf(),
        ensures
            final(self).wf(),
            Agent::tick_relation(*old(self), *final(self), finished, step as int),
            finished == Agent::finishes(*old(self), step as int),
            old(self).path.is_some() ==> in_box(
                final(self).position,
                old(self).position,
                old(self).path.unwrap().current,
            ),
    {
        let taken = self.path.take();
        match taken {
            None => false,
            Some(mut p) => {
                proof {
                    assert(p.waypoints()[0] == p.current);
                }
                let np = step_toward(self.position, p.current, step);
                self.position = np;
                if distance_squared(np, p.current) < ARRIVAL_TOLERANCE_SQ {
                    let ghost before = p;
                    if p.advance() {
                        proof {
                            assert forall|i: int| 0 <= i < p.waypoints().len() implies
                                (#[trigger] p.waypoints()[i]).in_bounds() by {
                                assert(p.waypoints()[i] == before.waypoints()[i + 1]);
                            }
                        }
                        self.path = Some(p);
                        false
                    } else {
                        self.marker = None;
                        self.assigned_target = None;
                        true
                    }
                } else {
                    self.path = Some(p);
                    false
                }
            },
        }
    }
}

/// A target that is selected and not yet visited.
pub open spec fn pending(t: Target) -> bool {
    t.state.selected && !t.visited
}

/// `i` is the first pending target of `ts`.
pub open spec fn first_pending(ts: Seq<Target>, i: int) -> bool {
    &&& 0 <= i < ts.len()
    &&& pending(ts[i])
    &&& forall|j: int| 0 <= j < i ==> !pending(#[trigger] ts[j])
}

/// Some agent among the first `n` of `agents` finishes a path toward target
/// `j` in a tick of `step` millimetres.
pub open spec fn reached_by(agents: Seq<Agent>, n: int, j: int, step: int) -> bool {
    exists|i: int|
        0 <= i < n && #[trigger] Agent::finishes(agents[i], step) && agents[i].heads_for(j)
}

/// Some agent among the first `n` of `agents` finishes its path in a tick of
/// `step` millimetres.
pub open spec fn any_finishes(agents: Seq<Agent>, n: int, step: int) -> bool {
    exists|i: int| 0 <= i < n && #[trigger] Agent::finishes(agents[i], step)
}

/// A journey the dispatcher asks for: the route from `from` to `to` is to be
/// looked up on the navigation mesh, for target `target`.
#[derive(Clone, Copy, Debug, PartialEq, Eq, Structural)]
pub struct DispatchRequest {
    pub target: usize,
    pub from: Point3,
    pub to: Point3,
}

/// The agents and targets of one scene.
#[derive(Debug)]
pub struct Simulation {
    pub agents: Vec<Agent>,
    pub targets: Vec<Target>,
    /// A dispatch trigger waits to be handled.
    pub trigger_pending: bool,
}

/// The dispatcher has work: a trigger waits, there is exactly one agent, and
/// that agent is not already on its way.
pub open spec fn dispatch_ready(s: Simulation) -> bool {
    &&& s.trigger_pending
    &&& s.agents@.len() == 1
    &&& s.agents@[0].path.is_none()
}

/// A found route that a path can be built from: not empty, and inside the
/// coordinate limits.
pub open spec fn usable_route(found: Option<Vec<Point3>>) -> bool {
    &&& found.is_some()
    &&& found.unwrap()@.len() > 0
    &&& all_in_bounds(found.unwrap()@)
}

/// What a click on the ground at `hit` does to agent `a`, giving `b`, when the
/// navigation mesh found `route` from the agent to `hit`. Every agent with a
/// usable route sets out along it with a fresh click marker at `hit`, leaving
/// whatever journey it was on: a dispatched journey ends without a visit, its
/// target is no longer assigned, and its dispatch marker is left for the
/// dispatcher to remove. An agent without a usable route keeps its path and
/// target, and loses the marker of an earlier click.
pub open spec fn click_relation(a: Agent, b: Agent, hit: Point3, route: Option<Vec<Point3>>) -> bool {
    if usable_route(route) {
        &&& b.position == a.position
        &&& b.path.is_some()
        &&& b.path.unwrap().waypoints() == route.unwrap()@
        &&& b.assigned_target.is_none()
        &&& b.marker == Some(Marker { kind: MarkerKind::Manual, position: hit, target: None })
    } else {
        b == Agent { marker: None, ..a }
    }
}

/// The dispatch marker that stands at target `j` at `position`.
pub open spec fn dispatch_marker(position: Point3, j: int) -> Marker {
    Marker { kind: MarkerKind::Dispatch, position, target: Some(j as usize) }
}

/// Some agent of `agents` is on a dispatched journey to target `j`.
pub open spec fn headed_for(agents: Seq<Agent>, j: int) -> bool {
    exists|i: int| 0 <= i < agents.len() && #[trigger] agents[i].heads_for(j)
}

/// The dispatch marker of target `t` after the dispatcher's sweep: a marker
/// whose journey was given up goes.
pub open spec fn swept_marker(agents: Seq<Agent>, t: Target, j: int) -> Option<Marker> {
    if headed_for(agents, j) {
        t.marker
    } else {
        None
    }
}

impl Simulation {
    /// An empty scene.
    pub fn new() -> (r: Simulation)
        ensures
            r.wf(),
            r.agents@.len() == 0,
            r.targets@.len() == 0,
            !r.trigger_pending,
    {
        Simulation { agents: Vec::new(), targets: Vec::new(), trigger_pending: false }
    }

    /// Adds an idle agent at `position` and returns its index.
    pub fn add_agent(&mut self, position: Point3) -> (r: usize)
        requires
            old(self).wf(),
            position.in_bounds(),
            old(self).agents@.len() < usize::MAX,
        ensures
            final(self).wf(),
            r == old(self).agents@.len(),
            final(self).agents@.len() == old(self).agents@.len() + 1,
            forall|i: int| 0 <= i < r ==> #[trigger] final(self).agents@[i] == old(self).agents@[i],
            final(self).agents@[r as int] == (Agent {
                position,
                path: None,
                assigned_target: None,
                marker: None,
            }),
            final(self).targets == old(self).targets,
            final(self).trigger_pending == old(self).trigger_pending,
    {
        let r = self.agents.len();
        self.agents.push(Agent { position, path: None, assigned_target: None, marker: None });
        r
    }

    /// Adds an unselected, unvisited target at `position` and returns its index.
    pub fn add_target(&mut self, position: Point3) -> (r: usize)
        requires
            old(self).wf(),
            position.in_bounds(),
            old(self).targets@.len() < usize::MAX,
        ensures
            final(self).wf(),
            r == old(self).targets@.len(),
            final(self).targets@ == old(self).targets@.push(
                Target { position, state: TargetState { selected: false }, visited: false, marker: None },
            ),
            final(self).agents == old(self).agents,
            final(self).trigger_pending == old(self).trigger_pending,
    {
        let r = self.targets.len();
        self.targets.push(
            Target { position, state: TargetState { selected: false }, visited: false, marker: None },
        );
        r
    }

    /// Selects or deselects target `target`. A journey under way is not affected.
    pub fn set_selected(&mut self, target: usize, selected: bool)
        requires
            old(self).wf(),
            target < old(self).targets@.len(),
        ensures
            final(self).wf(),
            final(self).targets@ == old(self).targets@.update(
                target as int,
                Target { state: TargetState { selected }, ..old(self).targets@[target as int] },
            ),
            final(self).agents == old(self).agents,
            final(self).trigger_pending == old(self).trigger_pending,
    {
        let t = self.targets[target];
        self.targets.set(target, Target { state: TargetState { selected }, ..t });
    }

    /// Raises the dispatch trigger; triggers raised before it is handled
    /// collapse into one.
    pub fn send(&mut self, _event: SimulateEvent)
        requires
            old(self).wf(),
        ensures
            final(self).wf(),
            final(self).agents == old(self).agents,
            final(self).targets == old(self).targets,
            final(self).trigger_pending,
    {
        self.trigger_pending = true;
    }

    /// Tests whether some agent is on a dispatched journey to target `j`.
    pub fn headed_for_exec(&self, j: usize) -> (r: bool)
        ensures
            r == headed_for(self.agents@, j as int),
    {
        let mut i: usize = 0;
        while i < self.agents.len()
            invariant
                0 <= i <= self.agents@.len(),
                forall|k: int| 0 <= k < i ==> !(#[trigger] self.agents@[k]).heads_for(j as int),
            decreases self.agents@.len() - i,
        {
            match self.agents[i].assigned_target {
                Some(t) => {
                    if t == j {
                        assert(self.agents@[i as int].heads_for(j as int));
                        return true;
                    }
                },
                None => {},
            }
            i = i + 1;
        }
        false
    }

    /// Removes the dispatch markers whose journey was given up: a marker stays
    /// only at a target that some agent is still on its way to.
    pub fn sweep_markers(&mut self)
        requires
            old(self).wf(),
        ensures
            final(self).wf(),
            final(self).agents == old(self).agents,
            final(self).trigger_pending == old(self).trigger_pending,
            final(self).targets@.len() == old(self).targets@.len(),
            forall|j: int|
                0 <= j < old(self).targets@.len() ==> #[trigger] final(self).targets@[j] == (Target {
                    marker: swept_marker(old(self).agents@, old(self).targets@[j], j),
                    ..old(self).targets@[j]
                }),
    {
        let mut j: usize = 0;
        while j < self.targets.len()
            invariant
                self.wf(),
                self.agents == old(self).agents,
                self.trigger_pending == old(self).trigger_pending,
                self.targets@.len() == old(self).targets@.len(),
                0 <= j <= self.targets@.len(),
                forall|k: int|
                    0 <= k < j ==> #[trigger] self.targets@[k] == (Target {
                        marker: swept_marker(old(self).agents@, old(self).targets@[k], k),
                        ..old(self).targets@[k]
                    }),
                forall|k: int| j <= k < self.targets@.len() ==> #[trigger] self.targets@[k] == old(self).targets@[k],
            decreases self.targets@.len() - j,
        {
            let t = self.targets[j];
            if t.marker.is_some() && !self.headed_for_exec(j) {
                self.targets.set(j, Target { marker: None, ..t });
                assert forall|i: int|
                    0 <= i < self.agents@.len() && (#[trigger] self.agents@[i]).assigned_target.is_some()
                    implies self.targets@[self.agents@[i].assigned_target.unwrap() as int].marker.is_some() by {
                    if self.agents@[i].assigned_target.unwrap() == j {
                        assert(self.agents@[i].heads_for(j as int));
                    }
                }
            }
            j = j + 1;
        }
    }

    /// Handles the dispatch trigger. First the dispatch markers of journeys
    /// given up are removed, on every call. The trigger is consumed whatever
    /// happens. When there is exactly one agent, that agent is idle and some target is
    /// selected and not yet visited, the first such target is returned with the
    /// route to look up: from the agent to the target's foot on the ground.
    pub fn dispatch_request(&mut self) -> (r: Option<DispatchRequest>)
        requires
            old(self).wf(),
        ensures
            final(self).wf(),
            final(self).agents == old(self).agents,
            final(self).targets@.len() == old(self).targets@.len(),
            forall|j: int|
                0 <= j < old(self).targets@.len() ==> #[trigger] final(self).targets@[j] == (Target {
                    marker: swept_marker(old(self).agents@, old(self).targets@[j], j),
                    ..old(self).targets@[j]
                }),
            !final(self).trigger_pending,
            r.is_some() <==> dispatch_ready(*old(self)) && exists|i: int|
                0 <= i < old(self).targets@.len() && pending(#[trigger] old(self).targets@[i]),
            r.is_some() ==> {
                let q = r.unwrap();
                &&& first_pending(old(self).targets@, q.target as int)
                &&& q.from == old(self).agents@[0].position
                &&& q.to == (Point3 {
                    x: old(self).targets@[q.target as int].position.x,
                    y: 0,
                    z: old(self).targets@[q.target as int].position.z,
                })
            },
    {
        self.sweep_markers();
        let ghost swept = self.targets@;
        let fired = self.trigger_pending;
        self.trigger_pending = false;
        if !fired || self.agents.len() != 1 || self.agents[0].path.is_some() {
            return None;
        }
        let from = self.agents[0].position;
        let mut i: usize = 0;
        while i < self.targets.len()
            invariant
                self.wf(),
                !self.trigger_pending,
                self.agents == old(self).agents,
                self.targets@ == swept,
                swept.len() == old(self).targets@.len(),
                forall|k: int|
                    0 <= k < swept.len() ==> #[trigger] swept[k] == (Target {
                        marker: swept_marker(old(self).agents@, old(self).targets@[k], k),
                        ..old(self).targets@[k]
                    }),
                from == old(self).agents@[0].position,
                dispatch_ready(*old(self)),
                0 <= i <= self.targets@.len(),
                forall|j: int| 0 <= j < i ==> !pending(#[trigger] old(self).targets@[j]),
            decreases self.targets@.len() - i,
        {
            let t = self.targets[i];
            assert(t.state == old(self).targets@[i as int].state);
            assert(t.visited == old(self).targets@[i as int].visited);
            if t.state.selected && !t.visited {
                assert(pending(old(self).targets@[i as int]));
                return Some(
                    DispatchRequest {
                        target: i,
                        from,
                        to: t.position.flattened(),
                    },
                );
            }
            i = i + 1;
        }
        None
    }

    /// Starts the journey that `request` asked for, given the route the
    /// navigation mesh found for it. Nothing changes when no route was found,
    /// when it is empty or leaves the coordinate limits, or when the agent is no
    /// longer the only one or is already on its way. Otherwise the agent gets
    /// the route as its path, the target as its destination, and a dispatch
    /// marker at the target.
    pub fn complete_dispatch(&mut self, request: DispatchRequest, found: Option<Vec<Point3>>)
        requires
            old(self).wf(),
            request.target < old(self).targets@.len(),
        ensures
            final(self).wf(),
            final(self).trigger_pending == old(self).trigger_pending,
            !(old(self).agents@.len() == 1 && old(self).agents@[0].path.is_none() && usable_route(
                found,
            )) ==> final(self).agents == old(self).agents && final(self).targets == old(self).targets,
            old(self).agents@.len() == 1 && old(self).agents@[0].path.is_none() && usable_route(
                found,
            ) ==> {
                let a = final(self).agents@[0];
                &&& final(self).agents@.len() == 1
                &&& a.position == old(self).agents@[0].position
                &&& a.path.is_some()
                &&& a.path.unwrap().waypoints() == found.unwrap()@
                &&& a.assigned_target == Some(request.target)
                &&& a.marker.is_none()
                &&& final(self).targets@ == old(self).targets@.update(
                    request.target as int,
                    Target {
                        marker: Some(
                            dispatch_marker(
                                old(self).targets@[request.target as int].position,
                                request.target as int,
                            ),
                        ),
                        ..old(self).targets@[request.target as int]
                    },
                )
            },
    {
        if self.agents.len() != 1 || self.agents[0].path.is_some() {
            return;
        }
        let route = match found {
            None => {
                return;
            },
            Some(route) => route,
        };
        if !route_in_bounds(&route) {
            return;
        }
        let path = match Path::from_waypoints(route) {
            None => {
                return;
            },
            Some(p) => p,
        };
        let position = self.agents[0].position;
        let t = self.targets[request.target];
        let marker = Marker { kind: MarkerKind::Dispatch, position: t.position, target: Some(request.target) };
        self.targets.set(request.target, Target { marker: Some(marker), ..t });
        self.agents.set(
            0,
            Agent { position, path: Some(path), assigned_target: Some(request.target), marker: None },
        );
    }

    /// Handles a click on the ground at `hit`; `walkable` tells whether the
    /// navigation mesh holds that point, and `routes[i]` is the route it found
    /// from agent `i` to `hit`. A point off the mesh changes nothing. Otherwise
    /// every agent loses the marker of an earlier click, and every agent whose
    /// route is usable sets out along it with a fresh click marker at `hit`. A
    /// dispatched journey replaced this way ends without a visit and its target
    /// is no longer assigned; the targets, with their dispatch markers, are
    /// left as they are, for the dispatcher's sweep to clear.
    pub fn apply_click(&mut self, hit: Point3, walkable: bool, routes: Vec<Option<Vec<Point3>>>)
        requires
            old(self).wf(),
            hit.in_bounds(),
            routes@.len() == old(self).agents@.len(),
        ensures
            final(self).wf(),
            !walkable ==> *final(self) == *old(self),
            walkable ==> {
                &&& final(self).targets == old(self).targets
                &&& final(self).trigger_pending == old(self).trigger_pending
                &&& final(self).agents@.len() == old(self).agents@.len()
                &&& forall|i: int|
                    0 <= i < old(self).agents@.len() ==> click_relation(
                        #[trigger] old(self).agents@[i],
                        final(self).agents@[i],
                        hit,
                        routes@[i],
                    )
            },
    {
        if !walkable {
            return;
        }
        let ghost old_agents = self.agents@;
        let ghost all_routes = routes@;
        let mut routes = routes;
        let mut k: usize = routes.len();
        while k > 0
            invariant
                self.wf(),
                self.targets == old(self).targets,
                self.trigger_pending == old(self).trigger_pending,
                self.agents@.len() == old_agents.len(),
                all_routes.len() == old_agents.len(),
                old_agents == old(self).agents@,
                hit.in_bounds(),
                0 <= k <= old_agents.len(),
                routes@ == all_routes.subrange(0, k as int),
                forall|i: int| 0 <= i < k ==> #[trigger] self.agents@[i] == old_agents[i],
                forall|i: int|
                    k <= i < old_agents.len() ==> click_relation(
                        #[trigger] old_agents[i],
                        self.agents@[i],
                        hit,
                        all_routes[i],
                    ),
            decreases k,
        {
            k = k - 1;
            let route = routes.pop().unwrap();
            assert(route == all_routes[k as int]);
            let usable = match &route {
                Some(w) => w.len() > 0 && route_in_bounds(w),
                None => false,
            };
            if usable {
                let path = match route {
                    Some(w) => Path::from_waypoints(w),
                    None => None,
                };
                let position = self.agents[k].position;
                let marker = Marker { kind: MarkerKind::Manual, position: hit, target: None };
                self.agents.set(
                    k,
                    Agent { position, path, assigned_target: None, marker: Some(marker) },
                );
            } else {
                if self.agents[k].marker.is_some() {
                    self.agents[k].marker = None;
                }
            }
            assert(routes@ =~= all_routes.subrange(0, k as int));
        }
    }

    /// Every agent is well formed and refers only to existing targets, and
    /// every target lies within the coordinate limits.
    pub open spec fn wf(&self) -> bool {
        &&& forall|i: int| 0 <= i < self.agents@.len() ==> (#[trigger] self.agents@[i]).wf()
        &&& forall|i: int|
            0 <= i < self.agents@.len() ==> ((#[trigger] self.agents@[i]).assigned_target.is_some()
                ==> self.agents@[i].assigned_target.unwrap() < self.targets@.len())
        &&& forall|i: int| 0 <= i < self.targets@.len() ==> (#[trigger] self.targets@[i]).position.in_bounds()
        &&& forall|j: int|
            0 <= j < self.targets@.len() && (#[trigger] self.targets@[j]).marker.is_some() ==> self.targets@[j].marker
                == Some(dispatch_marker(self.targets@[j].position, j))
        &&& forall|i: int|
            0 <= i < self.agents@.len() && (#[trigger] self.agents@[i]).assigned_target.is_some()
                ==> self.targets@[self.agents@[i].assigned_target.unwrap() as int].marker.is_some()
        &&& forall|i: int, k: int|
            0 <= i < self.agents@.len() && 0 <= k < self.agents@.len() && (#[trigger] self.agents@[i]).assigned_target.is_some()
                && self.agents@[i].assigned_target == (#[trigger] self.agents@[k]).assigned_target ==> i == k
    }

    /// Advances every agent by one tick of `delta_ms` milliseconds. A target
    /// reached at the end of a dispatched journey becomes visited and loses its
    /// dispatch marker, and each finished journey raises the dispatch trigger.
    pub fn follow_tick(&mut self, delta_ms: u32)
        requires
            old(self).wf(),
        ensures
            final(self).wf(),
            final(self).agents@.len() == old(self).agents@.len(),
            forall|i: int|
                0 <= i < old(self).agents@.len() ==> Agent::tick_relation(
                    #[trigger] old(self).agents@[i],
                    final(self).agents@[i],
                    Agent::finishes(old(self).agents@[i], SPEED_MM_PER_MS * delta_ms),
                    SPEED_MM_PER_MS * delta_ms,
                ),
            final(self).targets@.len() == old(self).targets@.len(),
            forall|j: int|
                0 <= j < old(self).targets@.len() ==> #[trigger] final(self).targets@[j] == (Target {
                    visited: old(self).targets@[j].visited || reached_by(
                        old(self).agents@,
                        old(self).agents@.len() as int,
                        j,
                        SPEED_MM_PER_MS * delta_ms,
                    ),
                    marker: if reached_by(
                        old(self).agents@,
                        old(self).agents@.len() as int,
                        j,
                        SPEED_MM_PER_MS * delta_ms,
                    ) {
                        None
                    } else {
                        old(self).targets@[j].marker
                    },
                    ..old(self).targets@[j]
                }),
            final(self).trigger_pending == (old(self).trigger_pending || any_finishes(
                old(self).agents@,
                old(self).agents@.len() as int,
                SPEED_MM_PER_MS * delta_ms,
            )),
    {
        let step: u64 = SPEED_MM_PER_MS * delta_ms as u64;
        let ghost old_agents = self.agents@;
        let ghost old_targets = self.targets@;
        let ghost old_trigger = self.trigger_pending;
        let mut i: usize = 0;
        while i < self.agents.len()
            invariant
                self.wf(),
                step == SPEED_MM_PER_MS * delta_ms,
                self.agents@.len() == old_agents.len(),
                self.targets@.len() == old_targets.len(),
                0 <= i <= old_agents.len(),
                forall|k: int|
                    0 <= k < i ==> Agent::tick_relation(
                        #[trigger] old_agents[k],
                        self.agents@[k],
                        Agent::finishes(old_agents[k], step as int),
                        step as int,
                    ),
                forall|k: int| i <= k < old_agents.len() ==> #[trigger] self.agents@[k] == old_agents[k],
                forall|j: int|
                    0 <= j < old_targets.len() ==> #[trigger] self.targets@[j] == (Target {
                        visited: old_targets[j].visited || reached_by(old_agents, i as int, j, step as int),
                        marker: if reached_by(old_agents, i as int, j, step as int) { None } else { old_targets[j].marker },
                        ..old_targets[j]
                    }),
                self.trigger_pending == (old_trigger || any_finishes(old_agents, i as int, step as int)),
            decreases old_agents.len() - i,
        {
            let ghost pre_targets = self.targets@;
            let ghost pre_agents = self.agents@;
            assert(self.agents@[i as int] == old_agents[i as int]);
            let assigned = self.agents[i].assigned_target;
            let finished = self.agents[i].tick(step);
            if finished {
                match assigned {
                    Some(t) => {
                        let old_t = self.targets[t];
                        self.targets.set(t, Target { visited: true, marker: None, ..old_t });
                    },
                    None => {},
                }
                self.trigger_pending = true;
            }
            proof {
                assert forall|j: int| 0 <= j < old_targets.len() implies #[trigger] self.targets@[j] == (Target {
                        visited: old_targets[j].visited || reached_by(old_agents, i + 1, j, step as int),
                        marker: if reached_by(old_agents, i + 1, j, step as int) { None } else { old_targets[j].marker },
                        ..old_targets[j]
                    }) by {
                    assert(pre_targets[j] == (Target {
                        visited: old_targets[j].visited || reached_by(old_agents, i as int, j, step as int),
                        marker: if reached_by(old_agents, i as int, j, step as int) { None } else { old_targets[j].marker },
                        ..old_targets[j]
                    }));
                    if finished && assigned.is_some() && assigned.unwrap() as int == j {
                        assert(Agent::finishes(old_agents[i as int], step as int));
                        assert(reached_by(old_agents, i + 1, j, step as int));
                    } else {
                        assert(self.targets@[j] == pre_targets[j]);
                        if reached_by(old_agents, i + 1, j, step as int) {
                            let w = choose|w: int| 0 <= w < i + 1 && #[trigger] Agent::finishes(old_agents[w], step as int) && old_agents[w].heads_for(j);
                            if w < i {
                                assert(reached_by(old_agents, i as int, j, step as int));
                            }
                        }
                    }
                }
                if finished {
                    assert(Agent::finishes(old_agents[i as int], step as int));
                }
                assert forall|k: int|
                    0 <= k < self.agents@.len() && (#[trigger] self.agents@[k]).assigned_target.is_some()
                    implies self.targets@[self.agents@[k].assigned_target.unwrap() as int].marker.is_some() by {
                    if k != i {
                        assert(self.agents@[k] == pre_agents[k]);
                        if finished && assigned.is_some() {
                            assert(pre_agents[i as int].assigned_target == assigned);
                            if self.agents@[k].assigned_target == assigned {
                                assert(false);
                            }
                        }
                    }
                }
                assert forall|a: int, b: int|
                    0 <= a < self.agents@.len() && 0 <= b < self.agents@.len() && (#[trigger] self.agents@[a]).assigned_target.is_some()
                        && self.agents@[a].assigned_target == (#[trigger] self.agents@[b]).assigned_target implies a == b by {
                    assert(self.agents@[a].assigned_target == pre_agents[a].assigned_target);
                    assert(self.agents@[b].assigned_target == pre_agents[b].assigned_target);
                }
                if any_finishes(old_agents, i + 1, step as int) && !any_finishes(old_agents, i as int, step as int) {
                    let w = choose|w: int| 0 <= w < i + 1 && #[trigger] Agent::finishes(old_agents[w], step as int);
                    assert(w == i);
                }
            }
            i = i + 1;
        }
    }
}

/// Along a path the number of waypoints left never grows from one tick to the
/// next, and the path is removed in exactly the tick that reaches its last
/// waypoint, when none are left after it.
pub proof fn lemma_path_monotone(a: Agent, b: Agent, finished: bool, step: int)
    requires
        Agent::tick_relation(a, b, finished, step),
    ensures
        b.path.is_some() ==> a.path.is_some() && b.path.unwrap().waypoints().len()
            <= a.path.unwrap().waypoints().len(),
        finished <==> (a.path.is_some() && b.path.is_none()),
        finished ==> a.path.unwrap().remaining@.len() == 0,
{
}

/// An agent already within the arrival tolerance of its waypoint turns to the
/// next waypoint in that tick, or finishes its path when there is none, and
/// stays within the tolerance of the waypoint it reached.
pub proof fn lemma_arrival_tolerance(a: Agent, b: Agent, finished: bool, step: int)
    requires
        a.wf(),
        0 <= step,
        a.path.is_some(),
        dist_sq(a.position, a.path.unwrap().current) < ARRIVAL_TOLERANCE_SQ,
        Agent::tick_relation(a, b, finished, step),
    ensures
        dist_sq(b.position, a.path.unwrap().current) < ARRIVAL_TOLERANCE_SQ,
        finished ==> b.path.is_none(),
        !finished ==> b.path.is_some() && b.path.unwrap().waypoints()
            == a.path.unwrap().waypoints().drop_first(),
{
    let p = a.path.unwrap();
    assert(p.waypoints()[0] == p.current);
    lemma_step_in_box(a.position, p.current, step);
    lemma_in_box_closer(b.position, a.position, p.current);
}

/// While the agent is on its way, a trigger finds the dispatcher with nothing to
/// do: `dispatch_request` asks for no route and `complete_dispatch` leaves the
/// agents as they are, so the journey is neither replaced nor doubled.
pub proof fn lemma_single_journey(s: Simulation, found: Option<Vec<Point3>>)
    requires
        s.agents@.len() == 1,
        s.agents@[0].path.is_some(),
    ensures
        !dispatch_ready(s),
        !(s.agents@.len() == 1 && s.agents@[0].path.is_none() && usable_route(found)),
{
}

/// Visits go forward through the targets: once the first pending target `i`
/// is marked visited, the next dispatch can only ask for a target after it,
/// and a target that is not selected is never asked for.
pub proof fn lemma_dispatch_order(ts: Seq<Target>, i: int, j: int)
    requires
        first_pending(ts, i),
        first_pending(ts.update(i, Target { visited: true, ..ts[i] }), j),
    ensures
        i < j,
        ts[j].state.selected,
        !ts[j].visited,
{
    let us = ts.update(i, Target { visited: true, ..ts[i] });
    if j <= i {
        assert(!pending(us[i]));
        if j < i {
            assert(!pending(ts[j]));
        }
    }
}

/// An agent standing exactly on its waypoint is not moved by a tick.
pub proof fn lemma_at_waypoint_stays(a: Agent, b: Agent, finished: bool, step: int)
    requires
        a.path.is_some(),
        a.position == a.path.unwrap().current,
        Agent::tick_relation(a, b, finished, step),
    ensures
        b.position == a.position,
{
}

} // verus!
