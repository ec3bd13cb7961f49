use autograder::bitmap::Bitmap;
use autograder::form::{CircleSettings, LayoutSettings, PositionSettings, QuestionSettings};
use autograder::form::template_from_settings;
use autograder::point::Point;
use autograder::scan::Scan;
use autograder::template::{are_compatible, CorrectAnswer, ExamKey, Template};
use autograder::template_scan::TemplateScan;

const RING_INNER: i64 = 12;
const RING_OUTER: i64 = 26;

fn settings() -> (QuestionSettings, LayoutSettings, PositionSettings, CircleSettings) {
    let qss = QuestionSettings {
        num_qs: 5,
        num_id_qs: 10,
        num_versions: 4,
        num_answers: 5,
    };
    let ls = LayoutSettings {
        box_height: 20,
        box_width: 20,
        padding_horizontal: 10,
        padding_vertical: 10,
        height: 800,
        width: 600,
    };
    let ps = PositionSettings {
        first_q: Point { x: 50, y: 300 },
        first_vq: Point { x: 50, y: 200 },
        first_id_q: Point { x: 50, y: 450 },
    };
    let cs = CircleSettings {
        centers: vec![
            Point { x: 60, y: 60 },
            Point { x: 540, y: 60 },
            Point { x: 540, y: 740 },
        ],
        radius: RING_INNER as u32,
    };
    (qss, ls, ps, cs)
}

fn test_template() -> Template {
    let (qss, ls, ps, cs) = settings();
    template_from_settings(&qss, &ls, &ps, &cs)
}

fn draw_ring(b: &mut Bitmap, cx: i64, cy: i64) {
    for x in (cx - RING_OUTER - 1)..=(cx + RING_OUTER + 1) {
        for y in (cy - RING_OUTER - 1)..=(cy + RING_OUTER + 1) {
            if x < 0 || y < 0 {
                continue;
            }
            let d2 = (x - cx) * (x - cx) + (y - cy) * (y - cy);
            if d2 >= RING_INNER * RING_INNER && d2 <= RING_OUTER * RING_OUTER {
                b.set(x as u32, y as u32, true);
            }
        }
    }
}

fn fill_box(b: &mut Bitmap, a: Point, bb: Point) {
    for x in a.x..bb.x {
        for y in a.y..bb.y {
            b.set(x, y, true);
        }
    }
}

fn blank_page(t: &Template) -> Bitmap {
    let mut bm = Bitmap::new(t.width as usize, t.height as usize);
    for c in t.circle_centers.iter() {
        draw_ring(&mut bm, c.x as i64, c.y as i64);
    }
    bm
}

fn fill_out(bm: &mut Bitmap, t: &Template, id: u64, version: u32, answers: &[u32]) {
    let digits: Vec<u32> = id
        .to_string()
        .chars()
        .map(|c| c.to_digit(10).unwrap())
        .collect();
    for (row, d) in digits.iter().enumerate() {
        let q = &t.id_questions[row];
        let tb = q.boxes.iter().find(|b| b.value == *d).unwrap();
        fill_box(bm, tb.a, tb.b);
    }
    let vb = t.version.boxes.iter().find(|b| b.value == version).unwrap();
    fill_box(bm, vb.a, vb.b);
    for (i, a) in answers.iter().enumerate() {
        let q = &t.questions[i];
        let tb = q.boxes.iter().find(|b| b.value == *a).unwrap();
        fill_box(bm, tb.a, tb.b);
    }
}

fn test_key() -> ExamKey {
    let mut key: ExamKey = Vec::new();
    key.push(vec![
        CorrectAnswer::Exactly(0),
        CorrectAnswer::Exactly(1),
        CorrectAnswer::Exactly(2),
        CorrectAnswer::Exactly(3),
        CorrectAnswer::Exactly(4),
    ]);
    key.push(vec![CorrectAnswer::Exactly(1); 5]);
    key.push(vec![CorrectAnswer::Exactly(2); 5]);
    key.push(vec![
        CorrectAnswer::OneOf(vec![1, 2]),
        CorrectAnswer::Exactly(3),
        CorrectAnswer::Exactly(3),
        CorrectAnswer::Exactly(3),
        CorrectAnswer::Exactly(3),
    ]);
    key
}

#[test]
fn key_and_template_compatibility() {
    let t = test_template();
    let key = test_key();
    assert!(are_compatible(&t, &key));

    let mut wrong_count = test_key();
    wrong_count.push(vec![CorrectAnswer::Exactly(0); 5]);
    assert!(!are_compatible(&t, &wrong_count));

    let mut wrong_len = test_key();
    wrong_len[1].pop();
    assert!(!are_compatible(&t, &wrong_len));
}

#[test]
fn well_filled_page_scores_fully() {
    let t = test_template();
    let key = test_key();
    let mut bm = blank_page(&t);
    fill_out(&mut bm, &t, 1234567890, 0, &[0, 1, 2, 3, 4]);
    let ts = TemplateScan::new(t, Scan { image: bm });
    assert!(ts.transformation.is_some());
    let rep = ts.generate_image_report(&key, &"page0".to_string());
    assert_eq!(rep.sid, Some(1234567890));
    assert_eq!(rep.version, Some(0));
    assert!(!rep.issue);
    assert_eq!(rep.score(), 5);
    assert_eq!(rep.scores, vec![Some(1); 5]);
}

#[test]
fn one_of_accepts_any_listed_answer() {
    let t = test_template();
    let key = test_key();
    let mut bm = blank_page(&t);
    fill_out(&mut bm, &t, 999999999, 3, &[2, 3, 3, 3, 3]);
    let ts = TemplateScan::new(t, Scan { image: bm });
    let rep = ts.generate_image_report(&key, &"page1".to_string());
    assert_eq!(rep.version, Some(3));
    assert_eq!(rep.score(), 5);
    // nine digits on a ten-row form leave the last row empty: fail closed
    assert_eq!(rep.sid, None);
}

#[test]
fn overlaid_ids_withhold_the_number_and_flag_the_page() {
    let t = test_template();
    let key = test_key();
    let mut bm = blank_page(&t);
    fill_out(&mut bm, &t, 1234567890, 0, &[0, 1, 2, 3, 4]);
    fill_out(&mut bm, &t, 1234567891, 0, &[0, 1, 2, 3, 4]);
    let ts = TemplateScan::new(t, Scan { image: bm });
    let rep = ts.generate_image_report(&key, &"page2".to_string());
    // the last digit position carries two marks: fail closed
    assert_eq!(rep.sid, None);
    assert!(rep.issue);
    // everything else is still readable
    assert_eq!(rep.version, Some(0));
    assert_eq!(rep.score(), 5);
}

#[test]
fn unfilled_version_scores_nothing() {
    let t = test_template();
    let key = test_key();
    let mut bm = blank_page(&t);
    // answers but no version mark
    for (i, a) in [0u32, 1, 2, 3, 4].iter().enumerate() {
        let q = &t.questions[i];
        let tb = q.boxes.iter().find(|b| b.value == *a).unwrap().clone();
        fill_box(&mut bm, tb.a, tb.b);
    }
    let ts = TemplateScan::new(t, Scan { image: bm });
    let rep = ts.generate_image_report(&key, &"page3".to_string());
    assert_eq!(rep.version, None);
    assert_eq!(rep.scores, vec![None; 5]);
    assert_eq!(rep.score(), 0);
}

#[test]
fn registration_is_repeatable() {
    let t = test_template();
    let mut bm = blank_page(&t);
    fill_out(&mut bm, &t, 1234567890, 0, &[0, 1, 2, 3, 4]);
    let ts1 = TemplateScan::new(t.clone(), Scan { image: bm.clone() });
    let ts2 = TemplateScan::new(t, Scan { image: bm });
    let tr1 = ts1.transformation.expect("registered");
    let tr2 = ts2.transformation.expect("registered");
    assert_eq!(tr1.m00, tr2.m00);
    assert_eq!(tr1.m01, tr2.m01);
    assert_eq!(tr1.m10, tr2.m10);
    assert_eq!(tr1.m11, tr2.m11);
    assert_eq!(tr1.t0, tr2.t0);
    assert_eq!(tr1.t1, tr2.t1);
    assert_eq!(tr1.den, tr2.den);
}

#[test]
fn located_centers_match_the_drawn_rings() {
    let t = test_template();
    let bm = blank_page(&t);
    let scan = Scan { image: bm };
    let real_center = scan
        .real_center(Point { x: 55, y: 63 }, 13)
        .expect("could not find a center");
    assert!(Point { x: 60, y: 60 }.distance(real_center) < 2);
}

#[test]
fn fuzzy_search_recovers_from_vertical_offset() {
    let t = test_template();
    let bm = blank_page(&t);
    let scan = Scan { image: bm };
    let c = scan
        .real_center_fuzzy(Point { x: 60, y: 85 }, 13)
        .expect("could not find a center");
    assert!(Point { x: 60, y: 60 }.distance(c) < 4);
}

#[test]
fn failed_registration_stays_failed() {
    let t = test_template();
    // an empty page has no rings at all
    let bm = Bitmap::new(t.width as usize, t.height as usize);
    let key = test_key();
    let ts = TemplateScan::new(t, Scan { image: bm });
    assert!(ts.transformation.is_none());
    let rep = ts.generate_image_report(&key, &"page4".to_string());
    assert_eq!(rep.sid, None);
    assert_eq!(rep.version, None);
    assert_eq!(rep.scores, vec![None; 5]);
    assert!(rep.issue);
}

#[test]
fn id_gap_flags_the_page() {
    let t = test_template();
    let key = test_key();
    let mut bm = blank_page(&t);
    // version and answers are fine; the student number skips row 1
    let vb = t.version.boxes.iter().find(|b| b.value == 0).unwrap().clone();
    fill_box(&mut bm, vb.a, vb.b);
    for (i, a) in [0u32, 1, 2, 3, 4].iter().enumerate() {
        let tb = t.questions[i].boxes.iter().find(|b| b.value == *a).unwrap().clone();
        fill_box(&mut bm, tb.a, tb.b);
    }
    let q0 = &t.id_questions[0];
    let q2 = &t.id_questions[2];
    let b0 = q0.boxes.iter().find(|b| b.value == 5).unwrap().clone();
    let b2 = q2.boxes.iter().find(|b| b.value == 7).unwrap().clone();
    fill_box(&mut bm, b0.a, b0.b);
    fill_box(&mut bm, b2.a, b2.b);
    let ts = TemplateScan::new(t, Scan { image: bm });
    let rep = ts.generate_image_report(&key, &"page5".to_string());
    // an unreadable digit position withholds the whole number
    assert_eq!(rep.sid, None);
    // and the gap marks the page for a human
    assert!(rep.issue);
    assert_eq!(rep.score(), 5);
}
