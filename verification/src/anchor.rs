//! The handles of a selection box.
use vstd::prelude::*;

verus! {

/// Resize anchors of the bounding box.
#[derive(Clone, Copy, PartialEq, Eq, Structural, Debug)]
pub enum Anchor {
    Nw,
    N,
    Ne,
    E,
    Se,
    S,
    Sw,
    W,
}

impl Anchor {
    /// Side signs in frame space, each in `{-1, 0, 1}`: west or east, north or south.
    pub open spec fn side_signs(self) -> (int, int) {
        (
            match self {
                Anchor::Nw | Anchor::W | Anchor::Sw => -1,
                Anchor::N | Anchor::S => 0,
                Anchor::Ne | Anchor::E | Anchor::Se => 1,
            },
            match self {
                Anchor::Nw | Anchor::N | Anchor::Ne => -1,
                Anchor::W | Anchor::E => 0,
                Anchor::Sw | Anchor::S | Anchor::Se => 1,
            },
        )
    }

    /// Side signs in frame space, each in `{-1, 0, 1}`.
    pub fn sides(self) -> (sides: (i32, i32))
        ensures
            (sides.0 as int, sides.1 as int) == self.side_signs(),
            sides.0 == -1 <==> self is Nw || self is W || self is Sw,
            sides.0 == 1 <==> self is Ne || self is E || self is Se,
            sides.0 == 0 <==> self is N || self is S,
            sides.1 == -1 <==> self is Nw || self is N || self is Ne,
            sides.1 == 1 <==> self is Sw || self is S || self is Se,
            sides.1 == 0 <==> self is W || self is E,
    {
        match self {
            Anchor::Nw => (-1, -1),
            Anchor::N => (0, -1),
            Anchor::Ne => (1, -1),
            Anchor::E => (1, 0),
            Anchor::Se => (1, 1),
            Anchor::S => (0, 1),
            Anchor::Sw => (-1, 1),
            Anchor::W => (-1, 0),
        }
    }

    /// Which axes this anchor scales: those on which it is off the middle.
    pub fn axes(self) -> (axes: (bool, bool))
        ensures
            axes == (self.side_signs().0 != 0, self.side_signs().1 != 0),
            axes.0 <==> !(self is N || self is S),
            axes.1 <==> !(self is W || self is E),
    {
        match self {
            Anchor::Nw | Anchor::Ne | Anchor::Se | Anchor::Sw => (true, true),
            Anchor::E | Anchor::W => (true, false),
            Anchor::N | Anchor::S => (false, true),
        }
    }

    /// All anchors, clockwise from the north west.
    pub fn all() -> (anchors: [Anchor; 8])
        ensures
            anchors@ == seq![
                Anchor::Nw,
                Anchor::N,
                Anchor::Ne,
                Anchor::E,
                Anchor::Se,
                Anchor::S,
                Anchor::Sw,
                Anchor::W,
            ],
    {
        let anchors = [
            Anchor::Nw,
            Anchor::N,
            Anchor::Ne,
            Anchor::E,
            Anchor::Se,
            Anchor::S,
            Anchor::Sw,
            Anchor::W,
        ];
        assert(anchors@ =~= seq![
            Anchor::Nw,
            Anchor::N,
            Anchor::Ne,
            Anchor::E,
            Anchor::Se,
            Anchor::S,
            Anchor::Sw,
            Anchor::W,
        ]);
        anchors
    }
}

/// Which part of the selection overlay the pointer is over.
#[derive(Clone, Copy, PartialEq, Eq, Structural, Debug)]
pub enum HoverPart {
    Outside,
    Inside,
    Anchor(Anchor),
    Rotate,
}

/// No two anchors are on the same sides, none is in the middle of both axes, and the anchor on the
/// opposite sides is always there.
pub proof fn anchors_are_on_their_own_sides(a: Anchor, b: Anchor)
    ensures
        a.side_signs() == b.side_signs() ==> a == b,
        a.side_signs() != (0int, 0int),
        -1 <= a.side_signs().0 <= 1 && -1 <= a.side_signs().1 <= 1,
        exists|c: Anchor|
            (#[trigger] c.side_signs()).0 == -a.side_signs().0 && c.side_signs().1
                == -a.side_signs().1,
{
    let c = match a {
        Anchor::Nw => Anchor::Se,
        Anchor::N => Anchor::S,
        Anchor::Ne => Anchor::Sw,
        Anchor::E => Anchor::W,
        Anchor::Se => Anchor::Nw,
        Anchor::S => Anchor::N,
        Anchor::Sw => Anchor::Ne,
        Anchor::W => Anchor::E,
    };
    assert(c.side_signs().0 == -a.side_signs().0 && c.side_signs().1 == -a.side_signs().1);
}

} // verus!
