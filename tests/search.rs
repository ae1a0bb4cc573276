use mesh_analysis::geometry::Point;
use mesh_analysis::search::{binary_min_search, x_less};

#[test]
fn test_binary_min_search() {
    let list = vec![
        Point::new(0, 0, 0),
        Point::new(1, 1, 1),
        Point::new(1, 1, 1),
        Point::new(3, 3, 3),
        Point::new(4, 4, 4),
    ];
    assert_eq!(binary_min_search(list.as_slice(), &Point::new(-1, 0, 0)), 0);
    assert_eq!(binary_min_search(list.as_slice(), &Point::new(0, 0, 0)), 0);
    assert_eq!(binary_min_search(list.as_slice(), &Point::new(1, 0, 0)), 1);
    assert_eq!(binary_min_search(list.as_slice(), &Point::new(2, 0, 0)), 3);
    assert_eq!(binary_min_search(list.as_slice(), &Point::new(3, 0, 0)), 3);
    assert_eq!(binary_min_search(list.as_slice(), &Point::new(4, 0, 0)), 4);
    assert_eq!(binary_min_search(list.as_slice(), &Point::new(5, 0, 0)), 5);
    assert_eq!(binary_min_search(list.as_slice(), &Point::new(6, 0, 0)), 5);
}

#[test]
fn search_in_empty_list() {
    assert_eq!(binary_min_search(&[], &Point::new(1, 2, 3)), 0);
}

#[test]
fn x_less_compares_x_only() {
    assert!(x_less(&Point::new(1, 9, 9), &Point::new(2, 0, 0)));
    assert!(!x_less(&Point::new(2, 0, 0), &Point::new(2, 9, 9)));
}
