//! The camera's controls: which changes of the view one frame asks for, and
//! in which order they are made.
//!
//! Six controls are sampled once per frame, and any of them may be held at
//! the same time. The view is panned first and zoomed afterwards, so every
//! pan of a frame is measured in the scale that the frame began with.

use vstd::prelude::*;

verus! {

/// The controls as sampled for one frame: `true` where one is held.
#[derive(Clone, Copy, Debug, PartialEq, Eq, Structural)]
pub struct Controls {
    pub up: bool,
    pub down: bool,
    pub left: bool,
    pub right: bool,
    pub zoom_out: bool,
    pub zoom_in: bool,
}

/// One change of the view.
#[derive(Clone, Copy, Debug, PartialEq, Eq, Structural)]
pub enum ViewAction {
    /// Move the centre up by one pan step.
    PanUp,
    /// Move the centre down by one pan step.
    PanDown,
    /// Move the centre right by one pan step.
    PanRight,
    /// Move the centre left by one pan step.
    PanLeft,
    /// Multiply the scale by the zoom-out factor.
    ZoomOut,
    /// Multiply the scale by the zoom-in factor.
    ZoomIn,
}

impl ViewAction {
    /// Whether the action moves the centre.
    pub open spec fn is_pan(self) -> bool {
        self == ViewAction::PanUp || self == ViewAction::PanDown || self == ViewAction::PanRight
            || self == ViewAction::PanLeft
    }

    /// The direction of a pan in pan steps, first along the real axis, then
    /// along the imaginary one, which grows downwards; a zoom moves nothing.
    pub open spec fn spec_direction(self) -> (int, int) {
        match self {
            ViewAction::PanUp => (0, -1),
            ViewAction::PanDown => (0, 1),
            ViewAction::PanRight => (1, 0),
            ViewAction::PanLeft => (-1, 0),
            ViewAction::ZoomOut => (0, 0),
            ViewAction::ZoomIn => (0, 0),
        }
    }

    /// Whether the action moves the centre.
    pub fn pans(&self) -> (b: bool)
        ensures
            b == self.is_pan(),
    {
        match self {
            ViewAction::PanUp => true,
            ViewAction::PanDown => true,
            ViewAction::PanRight => true,
            ViewAction::PanLeft => true,
            ViewAction::ZoomOut => false,
            ViewAction::ZoomIn => false,
        }
    }

    /// The direction of a pan in pan steps.
    pub fn direction(&self) -> (d: (i8, i8))
        ensures
            (d.0 as int, d.1 as int) == self.spec_direction(),
    {
        match self {
            ViewAction::PanUp => (0, -1),
            ViewAction::PanDown => (0, 1),
            ViewAction::PanRight => (1, 0),
            ViewAction::PanLeft => (-1, 0),
            ViewAction::ZoomOut => (0, 0),
            ViewAction::ZoomIn => (0, 0),
        }
    }
}

/// `action` if `held`, nothing otherwise.
pub open spec fn when(held: bool, action: ViewAction) -> Seq<ViewAction> {
    if held {
        seq![action]
    } else {
        Seq::empty()
    }
}

/// The changes that the controls ask for, in the order in which they are
/// made: up, down, right, left, then zoom out, zoom in.
pub open spec fn actions_of(c: Controls) -> Seq<ViewAction> {
    when(c.up, ViewAction::PanUp) + when(c.down, ViewAction::PanDown) + when(
        c.right,
        ViewAction::PanRight,
    ) + when(c.left, ViewAction::PanLeft) + when(c.zoom_out, ViewAction::ZoomOut) + when(
        c.zoom_in,
        ViewAction::ZoomIn,
    )
}

/// Whether the control of `action` is held.
pub open spec fn held(c: Controls, action: ViewAction) -> bool {
    match action {
        ViewAction::PanUp => c.up,
        ViewAction::PanDown => c.down,
        ViewAction::PanRight => c.right,
        ViewAction::PanLeft => c.left,
        ViewAction::ZoomOut => c.zoom_out,
        ViewAction::ZoomIn => c.zoom_in,
    }
}

impl Controls {
    /// No control is held.
    pub fn idle() -> (c: Controls)
        ensures
            c == (Controls {
                up: false,
                down: false,
                left: false,
                right: false,
                zoom_out: false,
                zoom_in: false,
            }),
    {
        Controls {
            up: false,
            down: false,
            left: false,
            right: false,
            zoom_out: false,
            zoom_in: false,
        }
    }

    /// The changes of this frame, in the order in which they are made.
    pub fn actions(&self) -> (acts: Vec<ViewAction>)
        ensures
            acts@ == actions_of(*self),
    {
        let mut acts: Vec<ViewAction> = Vec::new();
        if self.up {
            acts.push(ViewAction::PanUp);
        }
        if self.down {
            acts.push(ViewAction::PanDown);
        }
        if self.right {
            acts.push(ViewAction::PanRight);
        }
        if self.left {
            acts.push(ViewAction::PanLeft);
        }
        if self.zoom_out {
            acts.push(ViewAction::ZoomOut);
        }
        if self.zoom_in {
            acts.push(ViewAction::ZoomIn);
        }
        assert(acts@ =~= actions_of(*self));
        acts
    }
}

/// The rank of an action in the order in which a frame makes its changes.
pub open spec fn rank(action: ViewAction) -> int {
    match action {
        ViewAction::PanUp => 0,
        ViewAction::PanDown => 1,
        ViewAction::PanRight => 2,
        ViewAction::PanLeft => 3,
        ViewAction::ZoomOut => 4,
        ViewAction::ZoomIn => 5,
    }
}

/// `acts` holds, in rising rank, the changes of rank below `upto` whose
/// controls are held, and nothing else.
#[verifier::opaque]
spec fn listed(acts: Seq<ViewAction>, c: Controls, upto: int) -> bool {
    &&& forall|i: int, j: int|
        0 <= i < j < acts.len() ==> rank(#[trigger] acts[i]) < rank(#[trigger] acts[j])
    &&& forall|i: int| 0 <= i < acts.len() ==> held(c, #[trigger] acts[i]) && rank(acts[i]) < upto
    &&& forall|a: ViewAction|
        held(c, a) && rank(a) < upto ==> exists|i: int|
            0 <= i < acts.len() && #[trigger] acts[i] == a
}

proof fn lemma_append_ranked(acts: Seq<ViewAction>, c: Controls, next: ViewAction)
    requires
        listed(acts, c, rank(next)),
    ensures
        listed(acts + when(held(c, next), next), c, rank(next) + 1),
{
    reveal(listed);
    let longer = acts + when(held(c, next), next);
    assert forall|a: ViewAction| held(c, a) && rank(a) < rank(next) + 1 implies exists|i: int|
        0 <= i < longer.len() && #[trigger] longer[i] == a by {
        if rank(a) < rank(next) {
            let i = choose|i: int| 0 <= i < acts.len() && #[trigger] acts[i] == a;
            assert(longer[i] == a);
        } else {
            assert(a == next);
            assert(longer[acts.len() as int] == a);
        }
    }
    assert forall|i: int| 0 <= i < longer.len() implies held(c, #[trigger] longer[i]) && rank(
        longer[i],
    ) < rank(next) + 1 by {
        if i < acts.len() {
            assert(longer[i] == acts[i]);
        }
    }
    assert forall|i: int, j: int| 0 <= i < j < longer.len() implies rank(#[trigger] longer[i])
        < rank(#[trigger] longer[j]) by {
        assert(longer[i] == acts[i]);
        if j < acts.len() {
            assert(longer[j] == acts[j]);
        }
    }
}

proof fn lemma_actions_listed(c: Controls)
    ensures
        listed(actions_of(c), c, 6),
{
    let s0 = Seq::<ViewAction>::empty();
    let s1 = s0 + when(c.up, ViewAction::PanUp);
    let s2 = s1 + when(c.down, ViewAction::PanDown);
    let s3 = s2 + when(c.right, ViewAction::PanRight);
    let s4 = s3 + when(c.left, ViewAction::PanLeft);
    let s5 = s4 + when(c.zoom_out, ViewAction::ZoomOut);
    let s6 = s5 + when(c.zoom_in, ViewAction::ZoomIn);
    assert(listed(s0, c, 0)) by {
        reveal(listed);
    }
    lemma_append_ranked(s0, c, ViewAction::PanUp);
    lemma_append_ranked(s1, c, ViewAction::PanDown);
    lemma_append_ranked(s2, c, ViewAction::PanRight);
    lemma_append_ranked(s3, c, ViewAction::PanLeft);
    lemma_append_ranked(s4, c, ViewAction::ZoomOut);
    lemma_append_ranked(s5, c, ViewAction::ZoomIn);
    assert(s1 =~= when(c.up, ViewAction::PanUp));
    assert(s6 == actions_of(c));
}

/// A frame makes a change exactly if its control is held, and makes it once.
pub proof fn lemma_actions_follow_controls(c: Controls, action: ViewAction)
    ensures
        actions_of(c).contains(action) == held(c, action),
        forall|i: int, j: int|
            0 <= i < j < actions_of(c).len() ==> #[trigger] actions_of(c)[i]
                != #[trigger] actions_of(c)[j],
{
    let acts = actions_of(c);
    lemma_actions_listed(c);
    reveal(listed);
    if held(c, action) {
        assert(rank(action) < 6);
        let i = choose|i: int| 0 <= i < acts.len() && #[trigger] acts[i] == action;
        assert(acts[i] == action);
    }
    assert forall|i: int, j: int| 0 <= i < j < acts.len() implies #[trigger] acts[i]
        != #[trigger] acts[j] by {
        assert(rank(acts[i]) < rank(acts[j]));
    }
}

/// The changes of a frame come in rising rank; so every pan of a frame comes
/// before every zoom of it.
pub proof fn lemma_actions_in_order(c: Controls)
    ensures
        forall|i: int, j: int|
            0 <= i < j < actions_of(c).len() ==> rank(#[trigger] actions_of(c)[i]) < rank(
                #[trigger] actions_of(c)[j],
            ),
        forall|i: int, j: int|
            0 <= i < actions_of(c).len() && 0 <= j < actions_of(c).len() && !(
            #[trigger] actions_of(c)[i]).is_pan() && (#[trigger] actions_of(c)[j]).is_pan() ==> j
                < i,
{
    let acts = actions_of(c);
    lemma_actions_listed(c);
    reveal(listed);
    assert forall|i: int, j: int|
        0 <= i < acts.len() && 0 <= j < acts.len() && !(#[trigger] acts[i]).is_pan() && (
        #[trigger] acts[j]).is_pan() implies j < i by {
        if i < j {
            assert(rank(acts[i]) < rank(acts[j]));
        }
    }
}

} // verus!
