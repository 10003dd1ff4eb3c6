//! Axis-aligned box collision detection on integer coordinates, and what
//! a collision means for each kind of entity in play mode.

use vstd::prelude::*;

verus! {

/// Coordinates handed to the collision test must stay within this bound,
/// so that differences of box edges fit in an `i64`.
pub const COORD_LIMIT: i64 = 0x2000_0000_0000_0000;

/// The kind of collider an entity carries.
#[derive(Debug, Clone, Copy, PartialEq, Eq, Structural)]
pub enum Collider {
    Solid,
    Player,
    Enemy,
    Bullet,
}

/// The side of the second box that the first box touches, or `Inside`
/// when no axis shows a crossing.
#[derive(Debug, Clone, Copy, PartialEq, Eq, Structural)]
pub enum Collision {
    Left,
    Right,
    Top,
    Bottom,
    Inside,
}

/// An axis-aligned box, by its corners.
#[derive(Debug, Clone, Copy, PartialEq, Eq, Structural)]
pub struct Aabb {
    pub min_x: i64,
    pub min_y: i64,
    pub max_x: i64,
    pub max_y: i64,
}

impl Aabb {
    /// All corner coordinates stay within the collision bound.
    pub open spec fn bounded(self) -> bool {
        &&& -COORD_LIMIT <= self.min_x <= COORD_LIMIT
        &&& -COORD_LIMIT <= self.min_y <= COORD_LIMIT
        &&& -COORD_LIMIT <= self.max_x <= COORD_LIMIT
        &&& -COORD_LIMIT <= self.max_y <= COORD_LIMIT
    }

    pub fn new(min_x: i64, min_y: i64, max_x: i64, max_y: i64) -> (r: Self)
        ensures
            r == (Aabb { min_x, min_y, max_x, max_y }),
    {
        Aabb { min_x, min_y, max_x, max_y }
    }

    /// The box around a centre point with the given extents, halving the
    /// extents as the screen-space collision test does; odd extents lose
    /// their fractional half toward zero.
    pub fn from_center_size(cx: i64, cy: i64, w: i64, h: i64) -> (r: Self)
        requires
            -COORD_LIMIT / 2 <= cx <= COORD_LIMIT / 2,
            -COORD_LIMIT / 2 <= cy <= COORD_LIMIT / 2,
            0 <= w <= COORD_LIMIT / 2,
            0 <= h <= COORD_LIMIT / 2,
        ensures
            r.min_x == cx - w / 2,
            r.min_y == cy - h / 2,
            r.max_x == cx + w / 2,
            r.max_y == cy + h / 2,
            r.bounded(),
    {
        Aabb {
            min_x: cx - w / 2,
            min_y: cy - h / 2,
            max_x: cx + w / 2,
            max_y: cy + h / 2,
        }
    }
}

/// Whether two boxes overlap with positive area.
pub open spec fn overlaps(a: Aabb, b: Aabb) -> bool {
    &&& a.min_x < b.max_x
    &&& a.max_x > b.min_x
    &&& a.min_y < b.max_y
    &&& a.max_y > b.min_y
}

/// The horizontal crossing, if `a` straddles exactly one vertical edge
/// of `b`: which side, and how deep `a` reaches past that edge.
pub open spec fn x_crossing(a: Aabb, b: Aabb) -> Option<(Collision, int)> {
    if a.min_x < b.min_x && a.max_x > b.min_x && a.max_x < b.max_x {
        Some((Collision::Left, a.max_x - b.min_x))
    } else if a.min_x > b.min_x && a.min_x < b.max_x && a.max_x > b.max_x {
        Some((Collision::Right, b.max_x - a.min_x))
    } else {
        None
    }
}

/// The vertical crossing, if `a` straddles exactly one horizontal edge
/// of `b`: which side, and how deep `a` reaches past that edge.
pub open spec fn y_crossing(a: Aabb, b: Aabb) -> Option<(Collision, int)> {
    if a.min_y < b.min_y && a.max_y > b.min_y && a.max_y < b.max_y {
        Some((Collision::Bottom, a.max_y - b.min_y))
    } else if a.min_y > b.min_y && a.min_y < b.max_y && a.max_y > b.max_y {
        Some((Collision::Top, b.max_y - a.min_y))
    } else {
        None
    }
}

/// The outcome of the collision test: `None` without overlap; with
/// overlap, the crossed side of the shallower axis, the horizontal one
/// on ties, and `Inside` when neither axis is crossed.
pub open spec fn collide_spec(a: Aabb, b: Aabb) -> Option<Collision> {
    if !overlaps(a, b) {
        None
    } else {
        match (x_crossing(a, b), y_crossing(a, b)) {
            (Option::None, Option::None) => Some(Collision::Inside),
            (Option::Some(xc), Option::None) => Some(xc.0),
            (Option::None, Option::Some(yc)) => Some(yc.0),
            (Option::Some(xc), Option::Some(yc)) => if yc.1 < xc.1 {
                Some(yc.0)
            } else {
                Some(xc.0)
            },
        }
    }
}

/// The collision test: which side of `b` the box `a` touches, if they
/// overlap.
pub fn collide(a: Aabb, b: Aabb) -> (r: Option<Collision>)
    requires
        a.bounded(),
        b.bounded(),
    ensures
        r == collide_spec(a, b),
        r is Some <==> overlaps(a, b),
{
    if !(a.min_x < b.max_x && a.max_x > b.min_x && a.min_y < b.max_y && a.max_y > b.min_y) {
        return None;
    }
    let x_hit: bool;
    let x_side: Collision;
    let x_depth: i64;
    if a.min_x < b.min_x && a.max_x > b.min_x && a.max_x < b.max_x {
        x_hit = true;
        x_side = Collision::Left;
        x_depth = a.max_x - b.min_x;
    } else if a.min_x > b.min_x && a.min_x < b.max_x && a.max_x > b.max_x {
        x_hit = true;
        x_side = Collision::Right;
        x_depth = b.max_x - a.min_x;
    } else {
        x_hit = false;
        x_side = Collision::Inside;
        x_depth = 0;
    }
    let y_hit: bool;
    let y_side: Collision;
    let y_depth: i64;
    if a.min_y < b.min_y && a.max_y > b.min_y && a.max_y < b.max_y {
        y_hit = true;
        y_side = Collision::Bottom;
        y_depth = a.max_y - b.min_y;
    } else if a.min_y > b.min_y && a.min_y < b.max_y && a.max_y > b.max_y {
        y_hit = true;
        y_side = Collision::Top;
        y_depth = b.max_y - a.min_y;
    } else {
        y_hit = false;
        y_side = Collision::Inside;
        y_depth = 0;
    }
    if y_hit && (!x_hit || y_depth < x_depth) {
        Some(y_side)
    } else if x_hit {
        Some(x_side)
    } else {
        Some(Collision::Inside)
    }
}

/// What a collision of the player with another entity leads to.
#[derive(Debug, Clone, Copy, PartialEq, Eq, Structural)]
pub enum PlayerHit {
    RemoveEnemy,
    GameOver,
    Nothing,
}

/// The play-mode rule for the player: touching an enemy removes the
/// enemy, touching a wall ends the game, and anything else changes
/// nothing.
pub fn player_collision_outcome(hit: bool, other: Collider) -> (r: PlayerHit)
    ensures
        r == if hit {
            match other {
                Collider::Enemy => PlayerHit::RemoveEnemy,
                Collider::Solid => PlayerHit::GameOver,
                _ => PlayerHit::Nothing,
            }
        } else {
            PlayerHit::Nothing
        },
{
    if hit {
        match other {
            Collider::Enemy => PlayerHit::RemoveEnemy,
            Collider::Solid => PlayerHit::GameOver,
            _ => PlayerHit::Nothing,
        }
    } else {
        PlayerHit::Nothing
    }
}

/// What a collision of a bullet with another entity leads to.
#[derive(Debug, Clone, Copy, PartialEq, Eq, Structural)]
pub enum BulletHit {
    RemoveEnemyAndBullet,
    RemoveBullet,
    Nothing,
}

/// The play-mode rule for a bullet: any hit removes the bullet, and a
/// hit enemy goes with it.
pub fn bullet_collision_outcome(hit: bool, other: Collider) -> (r: BulletHit)
    ensures
        r == if hit {
            match other {
                Collider::Enemy => BulletHit::RemoveEnemyAndBullet,
                _ => BulletHit::RemoveBullet,
            }
        } else {
            BulletHit::Nothing
        },
{
    if hit {
        match other {
            Collider::Enemy => BulletHit::RemoveEnemyAndBullet,
            _ => BulletHit::RemoveBullet,
        }
    } else {
        BulletHit::Nothing
    }
}

} // verus!
