use autograder::appstate::{convert_to_string, convert_to_vector, CreateKey, SharedState};
use autograder::bitmap::{binarize, erode, histogram, Bitmap};
use autograder::form::{number_to_letter, typst_template};
use autograder::point::Point;
use autograder::report::{u32_to_string, ImageReport};
use autograder::rgb::RgbBitmap;

fn white_image(w: usize, h: usize) -> RgbBitmap {
    RgbBitmap {
        width: w,
        height: h,
        px: vec![(255, 255, 255); w * h],
    }
}

fn report(
    sid: Option<u32>,
    version: Option<u32>,
    issue: bool,
    scores: Vec<Option<u32>>,
) -> ImageReport {
    ImageReport {
        image: white_image(4, 4),
        sid,
        version,
        issue,
        scores,
        identifier: "page7".to_string(),
    }
}

#[test]
fn score_sums_only_scored_questions() {
    let r = report(None, None, false, vec![Some(1), None, Some(0), Some(1)]);
    assert_eq!(r.score(), 2);
}

#[test]
fn save_filename_lists_the_decisions() {
    let r = report(Some(42), Some(1), false, vec![Some(1), Some(1)]);
    assert_eq!(r.save_filename(&"out/".to_string()), "out/42-v1-score2-page7.png");
    let flagged = report(None, None, true, vec![]);
    assert_eq!(
        flagged.save_filename(&"".to_string()),
        "GRADE_BY_HAND-NOID-NOVERSION-score0-page7.png"
    );
}

#[test]
fn serializable_vector_row() {
    let r = report(Some(7), None, false, vec![Some(1), None]);
    let row = r.to_serializable_vector();
    assert_eq!(row.len(), 6);
    assert_eq!(row[0], "7-NOVERSION-score1-page7.png");
    assert_eq!(row[1], "7");
    assert_eq!(row[2], "1");
    assert_eq!(row[3], "");
    assert_eq!(row[4], "1");
    assert_eq!(row[5], "");
}

#[test]
fn decimal_rendering() {
    assert_eq!(u32_to_string(0), "0");
    assert_eq!(u32_to_string(10), "10");
    assert_eq!(u32_to_string(4294967295), "4294967295");
}

#[test]
fn binarize_thresholds_pixels() {
    let gray: Vec<u8> = vec![0, 100, 128, 200];
    let bm = binarize(&gray, 2, 2, 128);
    assert!(bm.get(0, 0));
    assert!(bm.get(1, 0));
    assert!(bm.get(0, 1));
    assert!(!bm.get(1, 1));
}

#[test]
fn erode_shrinks_ink_regions() {
    let mut bm = Bitmap::new(7, 7);
    for x in 1..6 {
        for y in 1..6 {
            bm.set(x, y, true);
        }
    }
    // a lone noise speck
    bm.set(0, 0, true);
    let e = erode(&bm);
    assert!(e.get(2, 2));
    assert!(e.get(4, 4));
    assert!(!e.get(1, 1)); // the block's corner is worn away
    assert!(!e.get(0, 0)); // the speck is gone
}

#[test]
fn histogram_counts_levels() {
    let gray: Vec<u8> = vec![0, 0, 255, 17, 17, 17];
    let h = histogram(&gray);
    assert_eq!(h.len(), 256);
    assert_eq!(h[0], 2);
    assert_eq!(h[17], 3);
    assert_eq!(h[255], 1);
    assert_eq!(h[100], 0);
}

#[test]
fn letters_convert_both_ways() {
    assert_eq!(convert_to_vector("AbCde"), vec![0, 1, 2, 3, 4]);
    assert_eq!(convert_to_vector("A-B C1"), vec![0, 1, 2]);
    assert_eq!(convert_to_vector(""), Vec::<u32>::new());
    assert_eq!(convert_to_string(&vec![0, 1, 25]), b"ABZ".to_vec());
    assert_eq!(number_to_letter(0), b'A');
    assert_eq!(number_to_letter(3), b'D');
}

#[test]
fn key_state_round_trips() {
    let mut ck = CreateKey::default();
    assert!(ck.get_key().is_none());
    ck.set_key(Some(vec![vec![0, 1], vec![2, 3]]));
    assert_eq!(ck.number_of_versions, 2);
    assert_eq!(ck.inputs, vec![b"AB".to_vec(), b"CD".to_vec()]);
    assert_eq!(ck.get_key(), Some(&vec![vec![0, 1], vec![2, 3]]));
}

#[test]
fn shared_state_keeps_latest_values() {
    let mut s = SharedState::new();
    s.take_key(None);
    assert!(s.key.is_none());
    s.take_key(Some(vec![vec![]]));
    assert!(s.key.is_some());
    s.take_key(None);
    assert!(s.key.is_some());
    assert!(s.template.is_none());
}

#[test]
fn typst_preamble_binds_the_counts() {
    let s = typst_template(5, 10, 4, 5);
    assert_eq!(
        s,
        "\n#let num_qs = 5\n#let num_idqs = 10\n#let num_answers = 5\n#let num_versions = 4\n"
    );
}

#[test]
fn cross_marks_are_painted() {
    let mut img = white_image(9, 9);
    img.draw_cross(Point { x: 4, y: 4 }, (255, 0, 0));
    assert_eq!(img.get(4, 4), (255, 0, 0));
    assert_eq!(img.get(1, 4), (255, 0, 0));
    assert_eq!(img.get(4, 7), (255, 0, 0));
    assert_eq!(img.get(0, 4), (255, 255, 255));
    assert_eq!(img.get(3, 3), (255, 255, 255));
}

#[test]
fn replace_colour_recolors_only_matches() {
    let mut img = white_image(4, 4);
    img.set(1, 1, (0, 0, 0));
    img.replace_colour(0, 0, 3, 3, (255, 255, 255), (9, 9, 9));
    assert_eq!(img.get(1, 1), (0, 0, 0));
    assert_eq!(img.get(2, 2), (9, 9, 9));
}
