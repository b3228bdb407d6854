use matto::point::PointU32;
use matto::sierpinski::SierpinskiIter;

#[test]
fn test_sierpinski_iter() {
    let mut it = SierpinskiIter::new(101, 101);
    let got = vec![it.next().unwrap(), it.next().unwrap()];
    assert_eq!(
        got,
        vec![
            vec![
                (
                    PointU32::new(50, 0),
                    PointU32::new(0, 100),
                    PointU32::new(100, 100),
                ),
            ],
            vec![
                (
                    PointU32::new(50, 0),
                    PointU32::new(25, 50),
                    PointU32::new(75, 50),
                ),
                (
                    PointU32::new(25, 50),
                    PointU32::new(0, 100),
                    PointU32::new(50, 100),
                ),
                (
                    PointU32::new(75, 50),
                    PointU32::new(50, 100),
                    PointU32::new(100, 100),
                ),
            ],
        ],
    );
}

#[test]
fn sierpinski_grows_threefold() {
    let mut it = SierpinskiIter::new(64, 64);
    assert_eq!(it.next().unwrap().len(), 1);
    assert_eq!(it.next().unwrap().len(), 3);
    assert_eq!(it.next().unwrap().len(), 9);
    assert_eq!(it.next().unwrap().len(), 27);
}
