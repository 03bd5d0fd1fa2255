use npuzzle::evaluator::Evaluator;
use npuzzle::map::gen_solved_map;
use npuzzle::state::State;

#[test]
fn evaluator_build() {
    let solved = gen_solved_map(5);
    let e = Evaluator::build_evaluator(&solved);
    println!("{:?}", solved);
    println!("len:{} {:?}", e.solved_table.len(), e.solved_table);
}

#[test]
fn evaluate_solved() {
    for i in 3..16 {
        let solved = gen_solved_map(i);
        let e = Evaluator::build_evaluator(&solved);
        let s = State::build_state(solved.board, solved.size);
        assert_eq!(e.evaluate(&s), 0);
    }
}
