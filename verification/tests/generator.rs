use npuzzle::generator::Generator;

#[test]
fn random_board() {
    let g = Generator::new(3);

    let map = g.generate();

    println!("{:?}", map);
}

#[test]
fn random_board_is_permutation() {
    let g = Generator::new(4);
    let map = g.generate();
    assert_eq!(map.size, 4);
    let mut tiles = map.board.clone();
    tiles.sort();
    let expected: Vec<u16> = (0..16).collect();
    assert_eq!(tiles, expected);
}
