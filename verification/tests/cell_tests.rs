use nonogram_solver::cell::Cell::{Blank, Block, Crash, Unknown};

#[test]
fn test_bitor_1() {
    assert_eq!(Block.merge(Blank), Crash);
}

#[test]
fn test_bitor_2() {
    assert_eq!(Blank.merge(Unknown), Blank);
}

#[test]
fn test_bitor_3() {
    assert_eq!(Unknown.merge(Unknown), Unknown);
}

#[test]
fn test_bitor_4() {
    assert_eq!(Block.merge(Block), Block);
}

#[test]
fn test_bitor_5() {
    assert_eq!(Blank.merge(Crash), Crash);
}

#[test]
fn test_bitor_6() {
    assert_eq!(Crash.merge(Unknown), Crash);
}

#[test]
fn merge_commutes_on_all_pairs() {
    let all = [Block, Blank, Crash, Unknown];
    for a in all {
        for b in all {
            assert_eq!(a.merge(b), b.merge(a));
        }
    }
}
