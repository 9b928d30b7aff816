use regex_anre::charwithposition::{CharWithPosition, CharsWithPositionIter};
use regex_anre::location::Location;

#[test]
fn test_chars_with_position_iter() {
    {
        // Test with a string containing multiple lines and characters.
        let mut char_position_iter = CharsWithPositionIter::new("a\nmn\nxyz");

        assert_eq!(
            char_position_iter.next(),
            Some(CharWithPosition::new('a', Location::new_position(0, 0, 0)))
        );
        assert_eq!(
            char_position_iter.next(),
            Some(CharWithPosition::new('\n', Location::new_position(1, 0, 1)))
        );
        assert_eq!(
            char_position_iter.next(),
            Some(CharWithPosition::new('m', Location::new_position(2, 1, 0)))
        );
        assert_eq!(
            char_position_iter.next(),
            Some(CharWithPosition::new('n', Location::new_position(3, 1, 1)))
        );
        assert_eq!(
            char_position_iter.next(),
            Some(CharWithPosition::new('\n', Location::new_position(4, 1, 2)))
        );
        assert_eq!(
            char_position_iter.next(),
            Some(CharWithPosition::new('x', Location::new_position(5, 2, 0)))
        );
        assert_eq!(
            char_position_iter.next(),
            Some(CharWithPosition::new('y', Location::new_position(6, 2, 1)))
        );
        assert_eq!(
            char_position_iter.next(),
            Some(CharWithPosition::new('z', Location::new_position(7, 2, 2)))
        );
        assert!(char_position_iter.next().is_none());
    }

    {
        // Test with a string containing various newline sequences.
        let mut char_position_iter = CharsWithPositionIter::new("\n\r\n\n");

        assert_eq!(
            char_position_iter.next(),
            Some(CharWithPosition::new('\n', Location::new_position(0, 0, 0)))
        );
        assert_eq!(
            char_position_iter.next(),
            Some(CharWithPosition::new('\r', Location::new_position(1, 1, 0)))
        );
        assert_eq!(
            char_position_iter.next(),
            Some(CharWithPosition::new('\n', Location::new_position(2, 1, 1)))
        );
        assert_eq!(
            char_position_iter.next(),
            Some(CharWithPosition::new('\n', Location::new_position(3, 2, 0)))
        );
        assert!(char_position_iter.next().is_none());
    }
}

#[test]
fn chars_with_position_iter_empty_text() {
    let mut iter = CharsWithPositionIter::new("");
    assert!(iter.next().is_none());
    assert!(iter.next().is_none());
}

#[test]
fn location_constructors() {
    let p = Location::new_position(4, 1, 2);
    assert_eq!(p, Location { index: 4, line: 1, column: 2, length: 0 });
    let r = Location::new_range(4, 1, 2, 7);
    assert_eq!(r.length, 7);
    assert_eq!(Location::from_position_and_length(&p, 3), Location::new_range(4, 1, 2, 3));
    let q = Location::new_position(9, 1, 7);
    assert_eq!(Location::from_position_pair(&p, &q), Location::new_range(4, 1, 2, 5));
    assert_eq!(
        Location::from_position_pair_with_end_included(&p, &q),
        Location::new_range(4, 1, 2, 6)
    );
    assert_eq!(
        Location::from_range_pair(&Location::new_range(4, 1, 2, 2), &Location::new_range(10, 1, 8, 3)),
        Location::new_range(4, 1, 2, 9)
    );
    assert_eq!(r.get_position_by_range_start(), p);
    assert_eq!(p.move_position_forward(), Location::new_position(5, 1, 3));
    assert_eq!(p.move_position_forward().move_position_backward(), p);
}
