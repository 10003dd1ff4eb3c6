use maze_game::collision::Aabb;
use maze_game::collision::BulletHit;
use maze_game::collision::Collider;
use maze_game::collision::Collision;
use maze_game::collision::PlayerHit;
use maze_game::collision::bullet_collision_outcome;
use maze_game::collision::collide;
use maze_game::collision::player_collision_outcome;

fn square(cx: i64, cy: i64, side: i64) -> Aabb {
    Aabb::from_center_size(cx, cy, side, side)
}

#[test]
fn test_no_overlap() {
    assert_eq!(collide(square(0, 0, 10), square(100, 0, 10)), None);
    // touching edges do not count as overlap
    assert_eq!(collide(square(0, 0, 10), square(10, 0, 10)), None);
}

#[test]
fn test_sides() {
    let b = square(0, 0, 10);
    // a reaches over b's left edge from outside
    assert_eq!(collide(square(-8, 0, 10), b), Some(Collision::Left));
    assert_eq!(collide(square(8, 0, 10), b), Some(Collision::Right));
    assert_eq!(collide(square(0, 8, 10), b), Some(Collision::Top));
    assert_eq!(collide(square(0, -8, 10), b), Some(Collision::Bottom));
}

#[test]
fn test_inside() {
    let b = square(0, 0, 100);
    assert_eq!(collide(square(0, 0, 10), b), Some(Collision::Inside));
}

#[test]
fn test_shallower_axis_wins() {
    let b = square(0, 0, 10);
    // deep from the left, barely over the bottom: the vertical side wins
    let a = Aabb::new(-9, -6, 3, -4);
    assert_eq!(collide(a, b), Some(Collision::Bottom));
    // the tie goes to the horizontal side
    let t = Aabb::new(-7, -7, -3, -3);
    assert_eq!(collide(t, b), Some(Collision::Left));
}

#[test]
fn test_player_outcomes() {
    assert_eq!(player_collision_outcome(true, Collider::Enemy), PlayerHit::RemoveEnemy);
    assert_eq!(player_collision_outcome(true, Collider::Solid), PlayerHit::GameOver);
    assert_eq!(player_collision_outcome(true, Collider::Bullet), PlayerHit::Nothing);
    assert_eq!(player_collision_outcome(false, Collider::Enemy), PlayerHit::Nothing);
}

#[test]
fn test_bullet_outcomes() {
    assert_eq!(
        bullet_collision_outcome(true, Collider::Enemy),
        BulletHit::RemoveEnemyAndBullet
    );
    assert_eq!(bullet_collision_outcome(true, Collider::Solid), BulletHit::RemoveBullet);
    assert_eq!(bullet_collision_outcome(false, Collider::Solid), BulletHit::Nothing);
}
