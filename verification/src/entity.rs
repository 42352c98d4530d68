//! Dynamic-entity helpers: facing directions and the enemy record the
//! simulation moves around and collides against terrain.

use vstd::prelude::*;

use crate::geom::{Rect, Vec2, COORD_BOUND};
use crate::level::Level;
use crate::{EntityType, EntityTypeView};

verus! {

/// A cardinal facing direction.
#[derive(Clone, Copy, Debug, PartialEq, Eq, Structural)]
pub enum Dir {
    N,
    E,
    S,
    W,
}

/// Unit vector of a direction, in world pixels.
pub open spec fn dir_vec(d: Dir) -> Vec2 {
    match d {
        Dir::N => Vec2 { x: 0, y: 1 },
        Dir::E => Vec2 { x: 1, y: 0 },
        Dir::S => Vec2 { x: 0, y: -1i64 },
        Dir::W => Vec2 { x: -1i64, y: 0 },
    }
}

impl Dir {
    pub fn to_vec2(self) -> (r: Vec2)
        ensures
            r == dir_vec(self),
    {
        match self {
            Dir::N => Vec2 { x: 0, y: 1 },
            Dir::E => Vec2 { x: 1, y: 0 },
            Dir::S => Vec2 { x: 0, y: -1 },
            Dir::W => Vec2 { x: -1, y: 0 },
        }
    }
}

/// An enemy: position, facing and whether it has been defeated. A dead
/// enemy takes no part in collision.
pub struct Enemy {
    pub pos: Vec2,
    pub dir: Dir,
    pub dead: bool,
}

/// Collision rectangle of a live enemy at `pos`: a 24 x 8 box offset 12
/// left and 8 down from the position.
pub open spec fn enemy_rect(pos: Vec2) -> Rect {
    Rect { x: (pos.x - 12) as i64, y: (pos.y - 8) as i64, w: 24, h: 8 }
}

impl Enemy {
    pub open spec fn in_range(self) -> bool {
        &&& -COORD_BOUND < self.pos.x <= COORD_BOUND
        &&& -COORD_BOUND < self.pos.y <= COORD_BOUND
    }

    pub fn die(&mut self)
        ensures
            *final(self) == (Enemy { dead: true, ..*old(self) }),
    {
        self.dead = true;
    }

    /// The enemy's collision rectangle: empty once dead, otherwise its
    /// box around `pos`.
    pub fn rect(&self) -> (r: Rect)
        requires
            self.in_range(),
        ensures
            self.dead ==> r == (Rect { x: 0, y: 0, w: 0, h: 0 }),
            !self.dead ==> r == enemy_rect(self.pos),
    {
        if self.dead {
            return Rect { x: 0, y: 0, w: 0, h: 0 };
        }
        Rect { x: self.pos.x - 12, y: self.pos.y - 8, w: 24, h: 8 }
    }
}

/// A door placed in a level: destination level name, destination grid
/// cell, and the door's own world position.
pub type Door = (Vec<u8>, (u16, u16), Vec2);

/// Mathematical image of a [`Door`].
pub type DoorView = (Seq<u8>, (u16, u16), Vec2);

pub open spec fn abs_doors(doors: Seq<Door>) -> Seq<DoorView> {
    doors.map_values(|d: Door| (d.0@, d.1, d.2))
}

/// Position of the first `player` spawn record, if any.
pub open spec fn first_player(starts: Seq<(EntityTypeView, Vec2)>) -> Option<Vec2>
    decreases starts.len(),
{
    if starts.len() == 0 {
        None
    } else if starts[0].0 is Player {
        Some(starts[0].1)
    } else {
        first_player(starts.skip(1))
    }
}

/// The doors a level's spawn records declare, in order.
pub open spec fn doors_of(starts: Seq<(EntityTypeView, Vec2)>) -> Seq<DoorView>
    decreases starts.len(),
{
    if starts.len() == 0 {
        Seq::empty()
    } else {
        (match starts[0].0 {
            EntityTypeView::Door(nm, dx, dy) => seq![(nm, (dx, dy), starts[0].1)],
            _ => Seq::empty(),
        }) + doors_of(starts.skip(1))
    }
}

/// The altitude enemies drop in from when a level is entered.
pub const ENEMY_DROP_Y: i64 = 200;

/// One fresh enemy per `enemy` spawn record, in order: alive, facing
/// west, at the record's x but dropping in from above.
pub open spec fn enemies_of(starts: Seq<(EntityTypeView, Vec2)>) -> Seq<Enemy>
    decreases starts.len(),
{
    if starts.len() == 0 {
        Seq::empty()
    } else {
        (match starts[0].0 {
            EntityTypeView::Enemy => seq![
                Enemy { pos: Vec2 { x: starts[0].1.x, y: ENEMY_DROP_Y }, dir: Dir::W, dead: false },
            ],
            _ => Seq::empty(),
        }) + enemies_of(starts.skip(1))
    }
}

impl Level {
    /// Where the level puts the player, if its starts section places one:
    /// the first `player` record's position.
    #[verifier::loop_isolation(false)]
    pub fn player_start(&self) -> (r: Option<Vec2>)
        ensures
            r == first_player(self@.starts),
    {
        let ghost sv = self@.starts;
        let mut i: usize = 0;
        proof {
            assert(sv.skip(0) =~= sv);
        }
        while i < self.starts.len()
            invariant
                i <= self.starts@.len(),
                first_player(sv) == first_player(sv.skip(i as int)),
            decreases self.starts@.len() - i,
        {
            proof {
                assert(sv[i as int] == (self.starts@[i as int].0@, self.starts@[i as int].1));
                assert(sv.skip(i as int)[0] == sv[i as int]);
                assert(sv.skip(i as int).skip(1) =~= sv.skip(i as int + 1));
            }
            match &self.starts[i].0 {
                EntityType::Player => {
                    return Some(self.starts[i].1);
                },
                _ => {},
            }
            i = i + 1;
        }
        proof {
            assert(sv.skip(i as int) =~= Seq::<(EntityTypeView, Vec2)>::empty());
        }
        None
    }

    /// What entering this level spawns: its doors, and one fresh enemy
    /// per enemy record — exactly [`doors_of`] and [`enemies_of`] over
    /// the spawn records, in declaration order.
    #[verifier::loop_isolation(false)]
    pub fn spawn_lists(&self) -> (r: (Vec<Door>, Vec<Enemy>))
        ensures
            abs_doors(r.0@) == doors_of(self@.starts),
            r.1@ == enemies_of(self@.starts),
    {
        let ghost sv = self@.starts;
        let mut doors: Vec<Door> = Vec::new();
        let mut enemies: Vec<Enemy> = Vec::new();
        let mut i: usize = 0;
        proof {
            assert(sv.skip(0) =~= sv);
            assert(abs_doors(doors@) =~= Seq::<DoorView>::empty());
            assert(abs_doors(doors@) + doors_of(sv) =~= doors_of(sv));
            assert(enemies@ + enemies_of(sv) =~= enemies_of(sv));
        }
        while i < self.starts.len()
            invariant
                i <= self.starts@.len(),
                doors_of(sv) == abs_doors(doors@) + doors_of(sv.skip(i as int)),
                enemies_of(sv) == enemies@ + enemies_of(sv.skip(i as int)),
            decreases self.starts@.len() - i,
        {
            proof {
                assert(sv[i as int] == (self.starts@[i as int].0@, self.starts@[i as int].1));
                assert(sv.skip(i as int)[0] == sv[i as int]);
                assert(sv.skip(i as int).skip(1) =~= sv.skip(i as int + 1));
            }
            let pos: Vec2 = self.starts[i].1;
            match &self.starts[i].0 {
                EntityType::Player => {},
                EntityType::Gold => {},
                EntityType::Door(nm, dx, dy) => {
                    let door: Door = (crate::lex::copy_range(nm.as_slice(), 0, nm.len()), (
                        *dx,
                        *dy,
                    ), pos);
                    doors.push(door);
                    proof {
                        assert(nm@.subrange(0, nm@.len() as int) =~= nm@);
                        assert(abs_doors(doors@) =~= abs_doors(doors@.drop_last()).push(
                            (nm@, (*dx, *dy), pos),
                        ));
                        assert(abs_doors(doors@.drop_last()) + (seq![(nm@, (*dx, *dy), pos)]
                            + doors_of(sv.skip(i as int + 1))) =~= abs_doors(doors@) + doors_of(
                            sv.skip(i as int + 1),
                        ));
                    }
                },
                EntityType::Enemy => {
                    let e = Enemy { pos: Vec2 { x: pos.x, y: ENEMY_DROP_Y }, dir: Dir::W, dead: false };
                    enemies.push(e);
                    proof {
                        assert(enemies@.drop_last() + (seq![e] + enemies_of(sv.skip(i as int + 1)))
                            =~= enemies@ + enemies_of(sv.skip(i as int + 1)));
                    }
                },
            }
            i = i + 1;
        }
        proof {
            assert(sv.skip(i as int) =~= Seq::<(EntityTypeView, Vec2)>::empty());
            assert(abs_doors(doors@) + doors_of(sv.skip(i as int)) =~= abs_doors(doors@));
            assert(enemies@ + enemies_of(sv.skip(i as int)) =~= enemies@);
        }
        (doors, enemies)
    }
}

} // verus!
