use autograder::bitmap::Bitmap;
use autograder::point::Point;
use autograder::scan::{find_inner_boundary_points, Scan};
use autograder::template::{Box, Question, Template};
use autograder::template_scan::TemplateScan;

fn blank_template() -> Template {
    Template {
        id_questions: vec![],
        version: Question { boxes: vec![] },
        questions: vec![],
        circle_centers: vec![
            Point { x: 10, y: 10 },
            Point { x: 90, y: 10 },
            Point { x: 90, y: 90 },
        ],
        circle_radius: 5,
        height: 100,
        width: 100,
    }
}

fn fill_rect(b: &mut Bitmap, x0: u32, y0: u32, x1: u32, y1: u32) {
    for x in x0..x1 {
        for y in y0..y1 {
            b.set(x, y, true);
        }
    }
}

fn scan_with(width: usize, height: usize, fill: &[(u32, u32, u32, u32)]) -> TemplateScan {
    let mut bm = Bitmap::new(width, height);
    for &(x0, y0, x1, y1) in fill {
        fill_rect(&mut bm, x0, y0, x1, y1);
    }
    TemplateScan {
        template: blank_template(),
        scan: Scan { image: bm },
        transformation: None,
    }
}

fn bx(x0: u32, y0: u32, side: u32, value: u32) -> Box {
    Box {
        a: Point { x: x0, y: y0 },
        b: Point { x: x0 + side, y: y0 + side },
        value,
    }
}

#[test]
fn blackness_of_white_region_is_zero() {
    let ts = scan_with(100, 100, &[]);
    let b = bx(10, 10, 20, 0);
    let f = b.blackness(&ts);
    assert_eq!(f.num, 0);
    assert!(f.den > 0);
}

#[test]
fn blackness_of_filled_region_is_close_to_one() {
    // a fully inked box: the inscribed ellipse is fully dark, the measured
    // fraction is exactly 1 on the sampled cells
    let ts = scan_with(100, 100, &[(10, 10, 30, 30)]);
    let b = bx(10, 10, 20, 0);
    let f = b.blackness(&ts);
    assert!(f.num > 0);
    // every sampled (in-ellipse) pixel is ink
    assert_eq!(f.num, f.den);
    // and in [0, 1] by construction
    assert!(f.num <= f.den);
}

#[test]
fn choices_picks_single_dark_box() {
    // three bubbles, only the middle filled
    let ts = scan_with(200, 100, &[(40, 10, 60, 30)]);
    let q = Question {
        boxes: vec![bx(10, 10, 20, 0), bx(40, 10, 20, 1), bx(70, 10, 20, 2)],
    };
    assert_eq!(q.choices(&ts), vec![1]);
    assert_eq!(q.choice(&ts), Some(1));
}

#[test]
fn choices_empty_when_nothing_filled() {
    let ts = scan_with(200, 100, &[]);
    let q = Question {
        boxes: vec![bx(10, 10, 20, 0), bx(40, 10, 20, 1), bx(70, 10, 20, 2)],
    };
    assert!(q.choices(&ts).is_empty());
    assert_eq!(q.choice(&ts), None);
}

#[test]
fn choices_returns_both_equal_dark_boxes() {
    let ts = scan_with(200, 100, &[(10, 10, 30, 30), (70, 10, 90, 30)]);
    let q = Question {
        boxes: vec![bx(10, 10, 20, 0), bx(40, 10, 20, 1), bx(70, 10, 20, 2)],
    };
    assert_eq!(q.choices(&ts), vec![0, 2]);
    assert_eq!(q.choice(&ts), None);
}

#[test]
fn checked_sees_filled_box() {
    let ts = scan_with(100, 100, &[(10, 10, 30, 30)]);
    assert!(bx(10, 10, 20, 0).checked(&ts));
    assert!(!bx(50, 50, 20, 0).checked(&ts));
}

#[test]
fn blacknesses_rounded_gives_percentages() {
    let ts = scan_with(100, 100, &[(10, 10, 30, 30)]);
    let q = Question {
        boxes: vec![bx(10, 10, 20, 0), bx(50, 50, 20, 1)],
    };
    let pct = q.blacknesses_rounded(&ts);
    assert_eq!(pct, vec![100, 0]);
}

#[test]
fn boundary_walk_fails_without_a_full_run() {
    // on a tiny all-ink bitmap no ray can see a run of five pixels, so the
    // walk must fail rather than hand back a partial run
    let mut bm = Bitmap::new(3, 3);
    for x in 0..3 {
        for y in 0..3 {
            bm.set(x, y, true);
        }
    }
    let r = find_inner_boundary_points(&bm, Point { x: 1, y: 1 }, 2, 5);
    assert!(r.is_none());
}
