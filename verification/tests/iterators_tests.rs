use picross::game_board::GameBoardRow;
use picross::game_board::TileState::Empty;
use picross::game_board::TileState::Filled;
use picross::game_board::TileState::Undetermined;
use picross::iterators::PicrossLineIter;

#[test]
fn test_row_iterator() {
    let mut row_iter = PicrossLineIter::new(vec![1], 3);
    assert_eq!(
        row_iter.next().unwrap(),
        GameBoardRow(vec![Filled, Empty, Empty])
    );
    assert_eq!(
        row_iter.next().unwrap(),
        GameBoardRow(vec![Empty, Filled, Empty])
    );
    assert_eq!(
        row_iter.next().unwrap(),
        GameBoardRow(vec![Empty, Empty, Filled])
    );
    assert!(row_iter.next().is_none());
}

#[test]
fn test_row_iterator_0() {
    let mut row_iter = PicrossLineIter::new(vec![0], 3);
    assert_eq!(row_iter.next(), Some(GameBoardRow(vec![Empty, Empty, Empty])));
    assert_eq!(row_iter.next(), None);
}

#[test]
fn test_row_iterator_two_chunk() {
    let mut row_iter = PicrossLineIter::new(vec![2], 3);
    assert_eq!(
        row_iter.next().unwrap(),
        GameBoardRow(vec![Filled, Filled, Empty])
    );
    assert_eq!(
        row_iter.next().unwrap(),
        GameBoardRow(vec![Empty, Filled, Filled])
    );
    assert!(row_iter.next().is_none());
}

#[test]
fn test_row_iterator_complex() {
    let mut row_iter = PicrossLineIter::new(vec![2, 1], 5);

    assert_eq!(
        row_iter.next().unwrap(),
        GameBoardRow(vec![Filled, Filled, Empty, Filled, Empty])
    );
    assert_eq!(
        row_iter.next().unwrap(),
        GameBoardRow(vec![Filled, Filled, Empty, Empty, Filled])
    );
    assert_eq!(
        row_iter.next().unwrap(),
        GameBoardRow(vec![Empty, Filled, Filled, Empty, Filled])
    );
    assert!(row_iter.next().is_none());
}

#[test]
fn test_get_partially_solved_row() {
    let width = 10;
    let mut row_iter = PicrossLineIter::new(vec![6], width);
    assert_eq!(
        row_iter.get_partially_solved_line(None),
        Ok(GameBoardRow(vec![
            Undetermined,
            Undetermined,
            Undetermined,
            Undetermined,
            Filled,
            Filled,
            Undetermined,
            Undetermined,
            Undetermined,
            Undetermined,
        ]))
    );

    let mut row_iter = PicrossLineIter::new(vec![0], width);
    assert_eq!(
        row_iter.get_partially_solved_line(None),
        Ok(GameBoardRow(vec![
            Empty, Empty, Empty, Empty, Empty, Empty, Empty, Empty, Empty, Empty,
        ]))
    )
}
