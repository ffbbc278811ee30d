use neonate::env::{
    board_glyphs, Snake, Step, BODY_CODE, CRASH_REWARD, FOOD_CODE, FOOD_REWARD, HEAD_CODE,
    MOVE_REWARD, TIMEOUT_REWARD,
};
use neonate::rand::Rng;

fn reward(st: &Step) -> f32 {
    st.reward as f32 / 100.0
}

#[test]
fn snake_reset_valid() {
    let mut rng = Rng::new(1);
    let mut s = Snake::new(8, 8, 200);
    let o = s.reset(&mut rng);
    assert_eq!(o.len(), 68);
    assert_eq!(s.body.len(), 2);
    assert!(!s.body.contains(&s.food));
}

#[test]
fn wall_kills() {
    let mut rng = Rng::new(1);
    let mut s = Snake::new(4, 4, 200);
    s.reset(&mut rng);
    s.body = vec![(3, 1), (2, 1)];
    s.dir = 1;
    let st = s.step(0, &mut rng);
    assert!(st.done);
    assert_eq!(reward(&st), -10.0);
}

#[test]
fn eating_grows() {
    let mut rng = Rng::new(1);
    let mut s = Snake::new(6, 6, 200);
    s.reset(&mut rng);
    s.body = vec![(2, 2), (1, 2)];
    s.dir = 1;
    s.food = (3, 2);
    let st = s.step(0, &mut rng);
    assert!(!st.done);
    assert_eq!(reward(&st), 10.0);
    assert_eq!(s.body.len(), 3);
}

#[test]
fn self_collision_kills() {
    let mut rng = Rng::new(1);
    let mut s = Snake::new(6, 6, 200);
    s.reset(&mut rng);
    s.body = vec![(2, 2), (2, 3), (3, 3), (3, 2)];
    s.dir = 2;
    let st = s.step(0, &mut rng);
    assert!(st.done);
}

#[test]
fn reset_places_snake_in_the_middle() {
    let mut rng = Rng::new(4);
    let mut s = Snake::new(7, 5, 10);
    s.reset(&mut rng);
    assert_eq!(s.body, vec![(3, 2), (2, 2)]);
    assert_eq!(s.dir, 1);
    assert_eq!(s.steps, 0);
    assert!(s.food.0 >= 0 && s.food.0 < 7 && s.food.1 >= 0 && s.food.1 < 5);
}

#[test]
fn observation_codes() {
    let mut rng = Rng::new(2);
    let mut s = Snake::new(4, 3, 50);
    s.reset(&mut rng);
    s.body = vec![(1, 1), (0, 1)];
    s.food = (3, 2);
    s.dir = 1;
    let st = s.step(0, &mut rng);
    // The head moved to (2, 1), the tail followed to (1, 1).
    assert_eq!(st.reward, MOVE_REWARD);
    assert!(!st.done);
    let o = st.obs;
    assert_eq!(o.len(), 16);
    assert_eq!(o[1 * 4 + 2], 2);
    assert_eq!(o[1 * 4 + 1], 1);
    assert_eq!(o[1 * 4 + 0], 0);
    assert_eq!(o[2 * 4 + 3], -2);
    assert_eq!(&o[12..16], &[0, 2, 0, 0]);
    let total: i32 = o[..12].iter().map(|&v| v as i32).sum();
    assert_eq!(total, 2 + 1 - 2);
}

#[test]
fn turns_change_heading() {
    let mut rng = Rng::new(2);
    let mut s = Snake::new(8, 8, 50);
    s.reset(&mut rng);
    s.food = (7, 7);
    s.step(1, &mut rng);
    assert_eq!(s.dir, 0);
    assert_eq!(s.body[0], (4, 3));
    s.step(2, &mut rng);
    assert_eq!(s.dir, 1);
    assert_eq!(s.body[0], (5, 3));
    s.step(2, &mut rng);
    assert_eq!(s.dir, 2);
    assert_eq!(s.body[0], (5, 4));
    assert_eq!(s.body.len(), 2);
}

#[test]
fn step_budget_ends_episode() {
    let mut rng = Rng::new(9);
    let mut s = Snake::new(10, 3, 2);
    s.reset(&mut rng);
    s.food = (0, 0);
    let first = s.step(0, &mut rng);
    assert_eq!(first.reward, MOVE_REWARD);
    assert!(!first.done);
    let second = s.step(0, &mut rng);
    assert_eq!(second.reward, TIMEOUT_REWARD);
    assert_eq!(reward(&second), -1.0);
    assert!(second.done);
}

#[test]
fn filling_the_board_wins() {
    let mut rng = Rng::new(3);
    let mut s = Snake::new(2, 2, 50);
    s.body = vec![(0, 0), (0, 1), (1, 1)];
    s.dir = 1;
    s.food = (1, 0);
    let st = s.step(0, &mut rng);
    assert!(st.done);
    assert_eq!(st.reward, FOOD_REWARD);
    assert_eq!(s.body.len(), 4);
}

#[test]
fn crash_leaves_body_in_place() {
    let mut rng = Rng::new(3);
    let mut s = Snake::new(5, 5, 50);
    s.reset(&mut rng);
    let before = s.body.clone();
    s.body = vec![(0, 2), (1, 2)];
    s.dir = 3;
    let st = s.step(0, &mut rng);
    assert_eq!(st.reward, CRASH_REWARD);
    assert!(st.done);
    assert_eq!(s.body, vec![(0, 2), (1, 2)]);
    assert_ne!(before, s.body);
}

#[test]
fn food_respawns_off_the_body() {
    let mut rng = Rng::new(21);
    let mut s = Snake::new(3, 3, 100);
    s.reset(&mut rng);
    s.body = vec![(1, 1), (0, 1)];
    s.dir = 1;
    s.food = (2, 1);
    let st = s.step(0, &mut rng);
    assert_eq!(st.reward, FOOD_REWARD);
    assert!(!s.body.contains(&s.food));
    assert_eq!(s.n_actions(), 3);
    assert_eq!(s.obs_dim(), 13);
}

#[test]
fn new_snake_waits_for_reset() {
    let s = Snake::new(5, 4, 30);
    assert_eq!((s.w, s.h, s.max_steps), (5, 4, 30));
    assert!(s.body.is_empty());
    assert_eq!(s.dir, 1);
    assert_eq!(s.food, (0, 0));
    assert_eq!(s.steps, 0);
}

#[test]
fn board_glyphs_draws_each_code() {
    let obs = vec![HEAD_CODE, BODY_CODE, 0, FOOD_CODE, 0, 0, 1, 0, 0, 0];
    let rows = board_glyphs(&obs, 3, 2);
    assert_eq!(rows, vec![vec!['#', 'o', '.'], vec!['*', '.', '.']]);
}

#[test]
fn board_glyphs_of_a_fresh_game() {
    let mut s = Snake::new(8, 8, 150);
    let mut rng = Rng::new(5);
    let obs = s.reset(&mut rng);
    let rows = board_glyphs(&obs, 8, 8);
    assert_eq!(rows.len(), 8);
    let text: String = rows.iter().map(|r| r.iter().collect::<String>()).collect();
    assert_eq!(text.matches('#').count(), 1);
    assert_eq!(text.matches('o').count(), 1);
    assert_eq!(text.matches('*').count(), 1);
    assert_eq!(text.matches('.').count(), 61);
}
