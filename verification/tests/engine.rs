use puyosim::core_field::ColumnPuyoList;
use puyosim::core_field::CoreField;
use puyosim::core_field::Decision;
use puyosim::core_field::Kumipuyo;
use puyosim::core_field::PuyoColor;
use puyosim::core_field::PuyoError;
use puyosim::core_field::SimulationContext;
use puyosim::field::Field;
use puyosim::field::Puyo;
use puyosim::simulation::simulate_chains;
use puyosim::score::chain_power;
use puyosim::score::color_bonus;
use puyosim::score::group_bonus;

#[test]
fn empty_field_has_no_chains() {
    let mut field = Field::default();
    let result = simulate_chains(&mut field);
    assert_eq!(result.chains, 0);
    assert_eq!(result.score, 0);
}

fn place(cf: &mut CoreField, x: i32, c: PuyoColor) {
    assert!(cf.drop_puyo_on(x, c));
}

#[test]
fn vertical_four_scores_forty() {
    // A vertical line of four red cells in column 0: one chain, score
    // 4 x 10 x 1 with the multiplier floored at 1.
    let mut cf = CoreField::new();
    for _ in 0..4 {
        place(&mut cf, 0, PuyoColor::Red);
    }
    let result = cf.simulate(1);
    assert_eq!(result.chains, 1);
    assert_eq!(result.score, 40);
    assert!(cf.is_zenkeshi());
}

#[test]
fn two_colors_then_cascade() {
    // Round 1 erases a red and a blue group at once (color bonus for two
    // distinct colors); the greens dropped by gravity form the round-2 group
    // (chain power 8).
    let mut cf = CoreField::new();
    place(&mut cf, 0, PuyoColor::Red);
    place(&mut cf, 0, PuyoColor::Red);
    place(&mut cf, 0, PuyoColor::Green);
    place(&mut cf, 1, PuyoColor::Red);
    place(&mut cf, 1, PuyoColor::Red);
    place(&mut cf, 1, PuyoColor::Green);
    place(&mut cf, 2, PuyoColor::Green);
    place(&mut cf, 2, PuyoColor::Green);
    place(&mut cf, 3, PuyoColor::Blue);
    place(&mut cf, 3, PuyoColor::Blue);
    place(&mut cf, 4, PuyoColor::Blue);
    place(&mut cf, 4, PuyoColor::Blue);
    let result = cf.simulate(1);
    assert_eq!(result.chains, 2);
    // Round 1: 8 cells x 10 x (0 + 3 + 0) = 240; round 2: 4 x 10 x 8 = 320.
    assert_eq!(result.score, 240 + 320);
    assert!(cf.is_zenkeshi());
}

#[test]
fn column_full_rejects_move_unchanged() {
    let mut cf = CoreField::new();
    for i in 0..13 {
        let c = if i % 2 == 0 { PuyoColor::Red } else { PuyoColor::Blue };
        place(&mut cf, 2, c);
    }
    assert_eq!(cf.height(2), 13);
    let before = cf.clone();
    let d = Decision { x: 2, r: 0 };
    let kp = Kumipuyo { axis: PuyoColor::Green, child: PuyoColor::Yellow };
    let r = cf.apply_move(&d, &kp);
    assert_eq!(r, Err(PuyoError::ColumnFull));
    assert_eq!(cf, before);
}

#[test]
fn chigiri_reports_and_costs_more() {
    let mut cf = CoreField::new();
    place(&mut cf, 0, PuyoColor::Red);
    let chigiri = Decision { x: 0, r: 1 };
    let flat = Decision { x: 2, r: 1 };
    assert!(cf.is_chigiri_decision(&chigiri));
    assert!(!cf.is_chigiri_decision(&flat));
    let f_chigiri = cf.frames_to_drop_next(&chigiri);
    let f_flat = cf.frames_to_drop_next(&flat);
    assert!(f_chigiri > f_flat);
}

#[test]
fn garbage_clears_beside_group_scores_nothing() {
    // Four reds erase; the garbage beside them is removed in the same round
    // but contributes nothing to the erased count that is scored.
    let mut cf = CoreField::new();
    for _ in 0..4 {
        place(&mut cf, 0, PuyoColor::Red);
    }
    place(&mut cf, 1, PuyoColor::Ojama);
    assert_eq!(cf.count_puyos(), 5);
    let step = cf.vanish_drop();
    assert!(step.vanished);
    assert_eq!(step.num_erased, 4);
    assert_eq!(step.score, 40);
    assert_eq!(cf.count_puyos(), 0);
    assert!(cf.is_zenkeshi());
}

#[test]
fn stable_field_simulates_to_nothing() {
    // Idempotence: a field with no erasable group yields zero chains and
    // zero score, and stays exactly as it was.
    let mut cf = CoreField::new();
    place(&mut cf, 0, PuyoColor::Red);
    place(&mut cf, 0, PuyoColor::Red);
    place(&mut cf, 0, PuyoColor::Red);
    place(&mut cf, 3, PuyoColor::Blue);
    let before = cf.clone();
    let result = cf.simulate(1);
    assert_eq!(result.chains, 0);
    assert_eq!(result.score, 0);
    assert_eq!(cf, before);
    // Running it again changes nothing either.
    let again = cf.simulate(1);
    assert_eq!(again.chains, 0);
    assert_eq!(cf, before);
}

#[test]
fn settle_conserves_surviving_cells() {
    // Conservation: after one vanish-and-settle round, the occupied count
    // drops by exactly the erased cells, and survivors keep their order.
    let mut cf = CoreField::new();
    for _ in 0..4 {
        place(&mut cf, 0, PuyoColor::Red);
    }
    place(&mut cf, 0, PuyoColor::Green);
    place(&mut cf, 0, PuyoColor::Blue);
    assert_eq!(cf.count_puyos(), 6);
    let step = cf.vanish_drop();
    assert!(step.vanished);
    assert_eq!(step.num_erased, 4);
    assert_eq!(cf.count_puyos(), 2);
    assert_eq!(cf.height(0), 2);
    assert_eq!(cf.color(0, 0), PuyoColor::Green);
    assert_eq!(cf.color(0, 1), PuyoColor::Blue);
}

#[test]
fn single_blob_erases_whole() {
    // Connectivity: all four reds form one blob across three columns, and
    // the whole blob erases as one group.
    let mut cf = CoreField::new();
    place(&mut cf, 0, PuyoColor::Red);
    place(&mut cf, 1, PuyoColor::Red);
    place(&mut cf, 1, PuyoColor::Red);
    place(&mut cf, 2, PuyoColor::Blue);
    place(&mut cf, 2, PuyoColor::Red);
    assert_eq!(cf.count_connected_puyos(0, 0), 4);
    assert_eq!(cf.count_connected_puyos(2, 0), 1);
    let erasing = cf.erasing_puyo_positions();
    assert_eq!(erasing.len(), 4);
    for p in &erasing {
        assert_eq!(cf.color(p.x, p.y), PuyoColor::Red);
    }
    let result = cf.simulate(1);
    assert_eq!(result.chains, 1);
    assert_eq!(result.score, 40);
    assert_eq!(cf.count_puyos(), 1);
    assert_eq!(cf.color(2, 0), PuyoColor::Blue);
}

#[test]
fn erasing_positions_depend_on_field_alone() {
    // Order independence: building the same field in two different orders
    // yields the same erased set, and repeated queries agree.
    let mut a = CoreField::new();
    place(&mut a, 0, PuyoColor::Red);
    place(&mut a, 0, PuyoColor::Red);
    place(&mut a, 1, PuyoColor::Red);
    place(&mut a, 1, PuyoColor::Red);
    place(&mut a, 5, PuyoColor::Ojama);
    let mut b = CoreField::new();
    place(&mut b, 5, PuyoColor::Ojama);
    place(&mut b, 1, PuyoColor::Red);
    place(&mut b, 0, PuyoColor::Red);
    place(&mut b, 1, PuyoColor::Red);
    place(&mut b, 0, PuyoColor::Red);
    let ea = a.erasing_puyo_positions();
    let eb = b.erasing_puyo_positions();
    assert_eq!(ea, eb);
    assert_eq!(ea, a.erasing_puyo_positions());
    assert_eq!(ea.len(), 4);
}

#[test]
fn score_tables_match_reference() {
    assert_eq!(chain_power(1), 0);
    assert_eq!(chain_power(2), 8);
    assert_eq!(chain_power(3), 16);
    assert_eq!(chain_power(4), 32);
    assert_eq!(chain_power(5), 64);
    assert_eq!(chain_power(19), 512);
    assert_eq!(chain_power(20), 544);
    assert_eq!(color_bonus(1), 0);
    assert_eq!(color_bonus(2), 3);
    assert_eq!(color_bonus(3), 6);
    assert_eq!(color_bonus(4), 12);
    assert_eq!(color_bonus(5), 24);
    assert_eq!(group_bonus(4), 0);
    assert_eq!(group_bonus(5), 2);
    assert_eq!(group_bonus(6), 3);
    assert_eq!(group_bonus(10), 7);
    assert_eq!(group_bonus(11), 10);
    assert_eq!(group_bonus(70), 10);
}

#[test]
fn group_of_five_gets_group_bonus() {
    let mut cf = CoreField::new();
    for _ in 0..5 {
        place(&mut cf, 0, PuyoColor::Yellow);
    }
    let result = cf.simulate(1);
    assert_eq!(result.chains, 1);
    // 5 cells x 10 x max(1, 0 + 0 + 2) = 100.
    assert_eq!(result.score, 100);
}

#[test]
fn context_resumes_additively() {
    let mut cf = CoreField::new();
    for _ in 0..4 {
        place(&mut cf, 0, PuyoColor::Red);
    }
    let mut ctx = SimulationContext { chain: 2, score: 1000 };
    let result = cf.simulate_with_context(&mut ctx);
    assert_eq!(result.chains, 1);
    // Chain index 2 brings chain power 8: 4 x 10 x 8 = 320, on top of 1000.
    assert_eq!(result.score, 1320);
    assert_eq!(ctx.chain, 3);
    assert_eq!(ctx.score, 1320);
}

#[test]
fn drop_and_heights_and_queries() {
    let mut cf = CoreField::new();
    assert_eq!(cf.height(0), 0);
    place(&mut cf, 0, PuyoColor::Red);
    place(&mut cf, 0, PuyoColor::Green);
    assert_eq!(cf.height(0), 2);
    assert!(cf.is_color(0, 0, PuyoColor::Red));
    assert!(cf.is_normal_color(0, 1));
    assert!(cf.is_empty(0, 2));
    assert!(!cf.is_zenkeshi());
    assert_eq!(cf.count_color(PuyoColor::Red), 1);
    assert_eq!(cf.count_color_puyos(), 2);
    cf.remove_puyo_from(0);
    assert_eq!(cf.height(0), 1);
    assert!(cf.is_empty(0, 1));
}

#[test]
fn full_column_rejects_single_drop() {
    let mut cf = CoreField::new();
    for _ in 0..13 {
        place(&mut cf, 4, PuyoColor::Purple);
    }
    assert!(!cf.drop_puyo_on(4, PuyoColor::Red));
    assert_eq!(cf.height(4), 13);
}

#[test]
fn rensa_will_occur_flags_ready_fields() {
    let mut cf = CoreField::new();
    place(&mut cf, 0, PuyoColor::Red);
    place(&mut cf, 0, PuyoColor::Red);
    place(&mut cf, 0, PuyoColor::Red);
    assert!(!cf.rensa_will_occur());
    place(&mut cf, 0, PuyoColor::Red);
    assert!(cf.rensa_will_occur());
}

#[test]
fn horizontal_pair_lands_both_columns() {
    let mut cf = CoreField::new();
    let d = Decision { x: 1, r: 1 };
    let kp = Kumipuyo { axis: PuyoColor::Red, child: PuyoColor::Blue };
    let frames = cf.apply_move(&d, &kp).unwrap();
    assert!(frames > 0);
    assert_eq!(cf.color(1, 0), PuyoColor::Red);
    assert_eq!(cf.color(2, 0), PuyoColor::Blue);
    assert_eq!(cf.height(1), 1);
    assert_eq!(cf.height(2), 1);
}

#[test]
fn vertical_pair_child_below_when_reversed() {
    let mut cf = CoreField::new();
    let d = Decision { x: 3, r: 2 };
    let kp = Kumipuyo { axis: PuyoColor::Red, child: PuyoColor::Blue };
    assert!(cf.drop_kumipuyo(&d, &kp));
    assert_eq!(cf.color(3, 0), PuyoColor::Blue);
    assert_eq!(cf.color(3, 1), PuyoColor::Red);
}

#[test]
fn plain_field_round_trip() {
    let mut cf = CoreField::new();
    place(&mut cf, 0, PuyoColor::Red);
    place(&mut cf, 3, PuyoColor::Ojama);
    let pf = cf.to_plain_field();
    let back = CoreField::from_plain_field(&pf);
    assert_eq!(back, cf);
    let dropped = CoreField::from_plain_field_with_drop(&pf);
    assert_eq!(dropped, cf);
    assert_eq!(cf.hash(), back.hash());
}

#[test]
fn field_get_set_round_trip() {
    let mut f = Field::new(6, 13);
    assert_eq!(f.get(2, 3), None);
    f.set(2, 3, Some(Puyo::Red));
    assert_eq!(f.get(2, 3), Some(Puyo::Red));
    assert_eq!(f.get(2, 4), None);
    assert_eq!(f.index(2, 3), 3 * 6 + 2);
}

#[test]
fn ridge_and_valley() {
    let mut cf = CoreField::new();
    for _ in 0..4 {
        place(&mut cf, 2, PuyoColor::Red);
    }
    place(&mut cf, 1, PuyoColor::Blue);
    assert_eq!(cf.ridge_height(2), 3);
    assert_eq!(cf.valley_depth(3), 0);
    assert_eq!(cf.valley_depth(0), 1);
}

#[test]
fn ojama_rows_fall_clipped() {
    let mut cf = CoreField::new();
    for _ in 0..12 {
        cf.drop_puyo_on(5, PuyoColor::Red);
    }
    let frames = cf.fall_ojama(2);
    assert_eq!(frames, 4);
    assert_eq!(cf.height(0), 2);
    assert_eq!(cf.height(5), 13);
    assert_eq!(cf.color(0, 0), PuyoColor::Ojama);
    assert_eq!(cf.color(5, 12), PuyoColor::Ojama);
    assert_eq!(cf.color(5, 11), PuyoColor::Red);
}

#[test]
fn puyo_list_drops_in_order() {
    let mut cf = CoreField::new();
    let cpl = ColumnPuyoList {
        entries: vec![(0, PuyoColor::Red), (0, PuyoColor::Blue), (1, PuyoColor::Green)],
    };
    assert!(cf.drop_puyo_list(&cpl));
    assert_eq!(cf.color(0, 0), PuyoColor::Red);
    assert_eq!(cf.color(0, 1), PuyoColor::Blue);
    assert_eq!(cf.color(1, 0), PuyoColor::Green);
    let mut limited = CoreField::new();
    let tall = ColumnPuyoList {
        entries: vec![(2, PuyoColor::Red), (2, PuyoColor::Red), (2, PuyoColor::Red)],
    };
    assert!(!limited.drop_puyo_list_with_max_height(&tall, 2));
    assert_eq!(limited.height(2), 2);
}

#[test]
fn debug_string_draws_rows_top_down() {
    let mut cf = CoreField::new();
    place(&mut cf, 0, PuyoColor::Red);
    place(&mut cf, 1, PuyoColor::Ojama);
    let text = cf.to_debug_string();
    let lines: Vec<&str> = text.lines().collect();
    assert_eq!(lines.len(), 13);
    assert_eq!(lines[12], "RO....");
    assert_eq!(lines[0], "......");
}

#[test]
fn simulate_chains_runs_the_engine() {
    let mut field = Field::default();
    for y in 0..4 {
        field.set(0, y, Some(Puyo::Red));
    }
    field.set(1, 0, Some(Puyo::Ojama));
    let result = simulate_chains(&mut field);
    assert_eq!(result.chains, 1);
    assert_eq!(result.score, 40);
    for y in 0..13 {
        assert_eq!(field.get(0, y), None);
        assert_eq!(field.get(1, y), None);
    }
}

#[test]
fn simulate_chains_leaves_other_shapes_alone() {
    let mut odd = Field::new(3, 3);
    odd.set(1, 1, Some(Puyo::Blue));
    let result = simulate_chains(&mut odd);
    assert_eq!(result.chains, 0);
    assert_eq!(result.score, 0);
    assert_eq!(odd.get(1, 1), Some(Puyo::Blue));
}
