use autograder::json::{decode_key, decode_template, encode_key, encode_template};
use autograder::point::Point;
use autograder::template::{Box, CorrectAnswer, ExamKey, Question, Template};

fn sample_template() -> Template {
    Template {
        id_questions: vec![Question {
            boxes: vec![
                Box { a: Point { x: 1, y: 2 }, b: Point { x: 3, y: 4 }, value: 0 },
                Box { a: Point { x: 5, y: 2 }, b: Point { x: 7, y: 4 }, value: 1 },
            ],
        }],
        version: Question {
            boxes: vec![Box { a: Point { x: 9, y: 2 }, b: Point { x: 11, y: 4 }, value: 0 }],
        },
        questions: vec![
            Question {
                boxes: vec![Box {
                    a: Point { x: 1, y: 10 },
                    b: Point { x: 3, y: 12 },
                    value: 0,
                }],
            },
            Question { boxes: vec![] },
        ],
        circle_centers: vec![
            Point { x: 60, y: 60 },
            Point { x: 540, y: 60 },
            Point { x: 540, y: 740 },
        ],
        circle_radius: 45,
        height: 800,
        width: 600,
    }
}

fn sample_key() -> ExamKey {
    vec![
        vec![CorrectAnswer::Exactly(0), CorrectAnswer::OneOf(vec![1, 2, 3])],
        vec![CorrectAnswer::OneOf(vec![]), CorrectAnswer::Exactly(4)],
    ]
}

#[test]
fn template_encoding_is_plain_json() {
    let t = sample_template();
    let bytes = encode_template(&t);
    let text = String::from_utf8(bytes).unwrap();
    assert!(text.starts_with("{\"id_questions\":[{\"boxes\":[{\"a\":{\"x\":1,\"y\":2},"));
    assert!(text.ends_with("\"circle_radius\":45,\"height\":800,\"width\":600}"));
}

#[test]
fn key_encoding_keeps_the_untagged_shape() {
    let k = sample_key();
    let text = String::from_utf8(encode_key(&k)).unwrap();
    assert_eq!(text, "[[0,[1,2,3]],[[],4]]");
}

#[test]
fn template_round_trips_without_loss() {
    let t = sample_template();
    let bytes = encode_template(&t);
    let t2 = decode_template(&bytes).expect("canonical bytes decode");
    // every field survives
    assert_eq!(t2.id_questions.len(), 1);
    assert_eq!(t2.id_questions[0].boxes.len(), 2);
    assert_eq!(t2.id_questions[0].boxes[1].a.x, 5);
    assert_eq!(t2.id_questions[0].boxes[1].value, 1);
    assert_eq!(t2.version.boxes.len(), 1);
    assert_eq!(t2.questions.len(), 2);
    assert!(t2.questions[1].boxes.is_empty());
    assert_eq!(t2.circle_centers.len(), 3);
    assert_eq!(t2.circle_centers[2].y, 740);
    assert_eq!(t2.circle_radius, 45);
    assert_eq!(t2.height, 800);
    assert_eq!(t2.width, 600);
    // and the decoded value re-encodes byte-identically
    assert_eq!(encode_template(&t2), bytes);
}

#[test]
fn key_round_trips_without_loss() {
    let k = sample_key();
    let bytes = encode_key(&k);
    let k2 = decode_key(&bytes).expect("canonical bytes decode");
    assert_eq!(k2.len(), 2);
    match &k2[0][0] {
        CorrectAnswer::Exactly(n) => assert_eq!(*n, 0),
        _ => panic!("lost the Exactly shape"),
    }
    match &k2[0][1] {
        CorrectAnswer::OneOf(v) => assert_eq!(v, &vec![1, 2, 3]),
        _ => panic!("lost the OneOf shape"),
    }
    match &k2[1][0] {
        CorrectAnswer::OneOf(v) => assert!(v.is_empty()),
        _ => panic!("lost the empty OneOf"),
    }
    assert_eq!(encode_key(&k2), bytes);
}

#[test]
fn decode_rejects_garbage() {
    assert!(decode_template(&b"not json".to_vec()).is_none());
    assert!(decode_key(&b"{\"a\":1}".to_vec()).is_none());
    assert!(decode_key(&b"[[0,1]".to_vec()).is_none());
}
