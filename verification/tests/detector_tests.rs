use rxing::common::bit_matrix::BitMatrix;
use rxing::common::detector::monochrome_rectangle_detector::MonochromeRectangleDetector;
use rxing::common::detector_result::DetectorRXingResult;
use rxing::exceptions::Exceptions;
use rxing::result_point::RXingResultPoint;

fn image(width: u32, height: u32, regions: &[(u32, u32, u32, u32)]) -> BitMatrix {
    let mut m = BitMatrix::new(width, height).expect("the dimensions are positive");
    for (left, top, w, h) in regions {
        m.setRegion(*left, *top, *w, *h).expect("the region lies in the image");
    }
    m
}

fn corners(m: &BitMatrix) -> Result<Vec<(i64, i64)>, Exceptions> {
    let detector = MonochromeRectangleDetector::new(m);
    detector.detect().map(|points| points.iter().map(|p| (p.getX(), p.getY())).collect())
}

#[test]
fn corners_of_a_rectangle() {
    let m = image(40, 40, &[(10, 12, 20, 16)]);
    assert_eq!(corners(&m), Ok(vec![(29, 12), (10, 12), (29, 27), (10, 27)]));
}

#[test]
fn corners_of_a_cross() {
    let m = image(60, 50, &[(25, 5, 10, 40), (10, 20, 40, 10)]);
    assert_eq!(corners(&m), Ok(vec![(34, 5), (10, 20), (49, 29), (25, 44)]));
}

#[test]
fn no_corners_without_a_region() {
    assert_eq!(corners(&image(40, 40, &[])), Err(Exceptions::NotFoundException));
    assert_eq!(corners(&image(40, 40, &[(0, 0, 40, 40)])), Err(Exceptions::NotFoundException));
    assert_eq!(corners(&image(3, 3, &[(1, 1, 1, 1)])), Err(Exceptions::NotFoundException));
    assert_eq!(corners(&image(1, 1, &[])), Err(Exceptions::NotFoundException));
    // a region that does not hold the centre of the image is not found
    assert_eq!(corners(&image(40, 40, &[(2, 2, 10, 10)])), Err(Exceptions::NotFoundException));
}

#[test]
fn the_detector_keeps_its_own_image() {
    let mut m = image(40, 40, &[(10, 12, 20, 16)]);
    let detector = MonochromeRectangleDetector::new(&m);
    m.clear();
    assert!(detector.detect().is_ok());
    assert!(MonochromeRectangleDetector::new(&m).detect().is_err());
}

#[test]
fn detector_result_holds_bits_and_points() {
    let m = image(5, 4, &[(1, 1, 2, 2)]);
    let points = vec![RXingResultPoint::new(1, 1), RXingResultPoint::new(2, 2)];
    let result = DetectorRXingResult::new(m.clone(), points.clone());
    assert_eq!(result.getBits(), &m);
    assert_eq!(result.getPoints(), &points);
    assert_eq!(result.getPoints()[1].getX(), 2);
    assert_eq!(result.getPoints()[1].getY(), 2);
}
