use mapgen::geometry::{Point, Rectangle};

#[test]
fn point() {
    {
        let point = Point::zero();
        assert!(point.x == 0);
        assert!(point.y == 0);
    }
    {
        let point = Point::new(5, 7);
        assert!(point.x == 5);
        assert!(point.y == 7);
    }
}

#[test]
fn rectangle() {
    {
        let rectangle = Rectangle::from_corner(Point::new(5, 7), Point::new(15, 20));
        assert!(rectangle.bottom_left == Point::new(5, 7));
        assert!(rectangle.bottom_right() == Point::new(15, 7));
        assert!(rectangle.top_left() == Point::new(5, 20));
        assert!(rectangle.top_right == Point::new(15, 20));
        assert!(rectangle.width() == 11);
        assert!(rectangle.height() == 14);
    }
    {
        let rectangle = Rectangle::from_dimension(Point::new(5, 7), 11, 14);
        assert!(rectangle.bottom_left == Point::new(5, 7));
        assert!(rectangle.bottom_right() == Point::new(15, 7));
        assert!(rectangle.top_left() == Point::new(5, 20));
        assert!(rectangle.top_right == Point::new(15, 20));
        assert!(rectangle.width() == 11);
        assert!(rectangle.height() == 14);
    }
}
