use gaps_rs::{PBlock, SpacedWord};

fn block(names: [&str; 4], pos: [i64; 4]) -> PBlock {
    PBlock((0..4).map(|i| SpacedWord::new(names[i], pos[i], &None, &None, false).unwrap()).collect())
}

#[test]
fn blocks_render_one_line_each() {
    let blocks = vec![block(["A", "B", "C", "D"], [1, -20, 300, 0]), block(["w", "x", "y", "z"], [i64::MIN, i64::MAX, 7, -7])];
    let text = PBlock::blocks_to_string(&blocks);
    assert_eq!(
        text,
        "A:1; B:-20; C:300; D:0\nw:-9223372036854775808; x:9223372036854775807; y:7; z:-7\n"
    );
    assert_eq!(PBlock::blocks_to_string(&[]), "");
}
