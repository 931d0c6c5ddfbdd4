use time_game_lib::error::GameError;
use time_game_lib::game_state::{after_apply, after_wish, key_down_event, KeyCode, KeyRequest};
use time_game_lib::plan::{rotate_plan, CachablePlan, MoveMap, Plan, PointSet};
use time_game_lib::tree::{RoseTree, Zipper};
use time_game_lib::types::{Direction, Entity, FrameWishResult, Move, Point, Selection};

fn entity(idx: u32) -> Entity {
    Entity { idx, version: 1 }
}

fn plan_with(e: Entity, mv: Move) -> Plan {
    let mut p = Plan::new();
    p.moves.insert(e, mv);
    p
}

#[test]
fn move_map_insert_get_remove() {
    let mut m = MoveMap::new();
    assert_eq!(m.get(&entity(1)), None);
    m.insert(entity(1), Move::Jump);
    m.insert(entity(2), Move::PickUp);
    m.insert(entity(1), Move::Drop(3));
    assert_eq!(m.len(), 2);
    assert_eq!(m.get(&entity(1)), Some(Move::Drop(3)));
    assert_eq!(m.remove(&entity(1)), Some(Move::Drop(3)));
    assert_eq!(m.remove(&entity(1)), None);
    assert_eq!(m.len(), 1);
    let c = m.clone();
    assert_eq!(c.get(&entity(2)), Some(Move::PickUp));
}

#[test]
fn point_set_insert_contains_remove() {
    let mut s = PointSet::new();
    assert!(s.insert(Point::new(1, 1)));
    assert!(!s.insert(Point::new(1, 1)));
    assert!(s.insert(Point::new(0, 2)));
    assert_eq!(s.len(), 2);
    assert!(s.contains(&Point::new(0, 2)));
    assert!(s.remove(&Point::new(1, 1)));
    assert!(!s.remove(&Point::new(1, 1)));
    assert!(!s.contains(&Point::new(1, 1)));
    assert_eq!(s.iter(), &[Point::new(0, 2)]);
    assert_eq!(s.clone().len(), 1);
}

#[test]
fn cachable_plan_get_and_copy_on_write() {
    let children = vec![(plan_with(entity(1), Move::Jump), ()), (plan_with(entity(2), Move::PickUp), ())];
    let mut c = CachablePlan::Old(1);
    assert_eq!(c.get(&children).moves.get(&entity(2)), Some(Move::PickUp));
    c.cow(&children).moves.insert(entity(3), Move::Jump);
    assert!(matches!(c, CachablePlan::Novel(_)));
    assert_eq!(c.get(&children).moves.len(), 2);
    assert_eq!(children[1].0.moves.len(), 1);
    let fresh = CachablePlan::new();
    assert_eq!(fresh.get(&children).moves.len(), 0);
}

#[test]
fn rotate_plan_cycles_backwards() {
    let mut c = CachablePlan::new();
    assert_eq!(rotate_plan(&mut c, 3), Ok(()));
    assert!(matches!(c, CachablePlan::Old(2)));
    rotate_plan(&mut c, 3).expect("rotate");
    assert!(matches!(c, CachablePlan::Old(1)));
    rotate_plan(&mut c, 3).expect("rotate");
    rotate_plan(&mut c, 3).expect("rotate");
    assert!(matches!(c, CachablePlan::Old(2)));
}

#[test]
fn rotate_plan_without_futures_is_refused() {
    let mut c = CachablePlan::new();
    assert_eq!(
        rotate_plan(&mut c, 0),
        Err(GameError::Message("No future recorded: can't cycle plans"))
    );
    assert!(matches!(c, CachablePlan::Novel(_)));
}

#[test]
fn keys_plan_moves_for_a_selected_player() {
    let children: Vec<(Plan, ())> = vec![];
    let p = entity(4);
    let mut selected = Selection::Player(p);
    let mut plan = CachablePlan::new();
    assert_eq!(key_down_event(&mut selected, &mut plan, &children, KeyCode::W), KeyRequest::Nothing);
    assert_eq!(plan.get(&children).moves.get(&p), Some(Move::Direction(Direction::Up)));
    key_down_event(&mut selected, &mut plan, &children, KeyCode::D);
    assert_eq!(plan.get(&children).moves.get(&p), Some(Move::Direction(Direction::Right)));
    key_down_event(&mut selected, &mut plan, &children, KeyCode::Space);
    assert_eq!(plan.get(&children).moves.get(&p), None);
    key_down_event(&mut selected, &mut plan, &children, KeyCode::I);
    assert_eq!(selected, Selection::Inventory(p, None));
    key_down_event(&mut selected, &mut plan, &children, KeyCode::Escape);
    assert_eq!(selected, Selection::Player(p));
}

#[test]
fn q_on_a_tile_toggles_a_portal() {
    let children: Vec<(Plan, ())> = vec![];
    let mut selected = Selection::GridCell(Point::new(2, 3));
    let mut plan = CachablePlan::new();
    key_down_event(&mut selected, &mut plan, &children, KeyCode::Q);
    assert!(plan.get(&children).portals.contains(&Point::new(2, 3)));
    key_down_event(&mut selected, &mut plan, &children, KeyCode::Q);
    assert!(!plan.get(&children).portals.contains(&Point::new(2, 3)));
}

#[test]
fn inventory_slot_keys() {
    let children: Vec<(Plan, ())> = vec![];
    let p = entity(1);
    let mut selected = Selection::Inventory(p, Some(5));
    let mut plan = CachablePlan::new();
    assert_eq!(key_down_event(&mut selected, &mut plan, &children, KeyCode::T), KeyRequest::Nothing);
    assert_eq!(plan.get(&children).moves.get(&p), Some(Move::Drop(5)));
    assert_eq!(key_down_event(&mut selected, &mut plan, &children, KeyCode::Equals), KeyRequest::Wish(p, 5));
    assert_eq!(key_down_event(&mut selected, &mut plan, &children, KeyCode::Minus), KeyRequest::Unwish(p, 5));
    after_wish(&mut selected, p, 5, FrameWishResult::Success);
    assert_eq!(selected, Selection::Inventory(p, Some(5)));
    after_wish(&mut selected, p, 5, FrameWishResult::NoItem);
    assert_eq!(selected, Selection::WishPicker(p, 5));
}

#[test]
fn global_keys() {
    let children = vec![(Plan::new(), ()), (Plan::new(), ())];
    let mut selected = Selection::Top;
    let mut plan = CachablePlan::new();
    assert_eq!(key_down_event(&mut selected, &mut plan, &children, KeyCode::Tab), KeyRequest::Nothing);
    assert!(matches!(plan, CachablePlan::Old(1)));
    assert_eq!(key_down_event(&mut selected, &mut plan, &children, KeyCode::Back), KeyRequest::Up);
    assert_eq!(key_down_event(&mut selected, &mut plan, &children, KeyCode::Return), KeyRequest::ApplyPlan);
    assert_eq!(key_down_event(&mut selected, &mut plan, &children, KeyCode::W), KeyRequest::Nothing);
    assert!(matches!(plan, CachablePlan::Old(1)));
    let none: Vec<(Plan, ())> = vec![];
    let mut fresh = CachablePlan::new();
    assert_eq!(
        key_down_event(&mut selected, &mut fresh, &none, KeyCode::Tab),
        KeyRequest::Report(GameError::Message("No future recorded: can't cycle plans"))
    );
}

#[test]
fn applying_a_new_plan_records_it() {
    let mut history = Zipper::new(RoseTree::singleton(0u32));
    let mut plan = CachablePlan::Novel(plan_with(entity(1), Move::Jump));
    after_apply(&mut plan, &mut history, 1u32);
    assert_eq!(*history.get_focus_val(), 1);
    assert!(matches!(plan, CachablePlan::Novel(ref p) if p.moves.len() == 0));
    history.up().expect("up");
    assert_eq!(history.focus().children.len(), 1);
    assert_eq!(history.focus().children[0].0.moves.get(&entity(1)), Some(Move::Jump));
}

#[test]
fn applying_a_recorded_plan_moves_down() {
    let mut history = Zipper::new(RoseTree::singleton(0u32));
    history.push(1, plan_with(entity(1), Move::Jump));
    history.push(2, Plan::new());
    history.up().expect("up");
    history.up().expect("up");
    let mut plan = CachablePlan::Old(0);
    after_apply(&mut plan, &mut history, 99u32);
    assert_eq!(*history.get_focus_val(), 1);
    assert!(matches!(plan, CachablePlan::Old(0)));
    after_apply(&mut plan, &mut history, 99u32);
    assert_eq!(*history.get_focus_val(), 2);
    assert!(matches!(plan, CachablePlan::Novel(_)));
}
