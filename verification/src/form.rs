//! Building form layouts from grid settings.
//!
//! A template can be assembled from a few numbers: bubble size, paddings,
//! the positions of the first question, the version selector and the first
//! student-number digit, and the ring positions.  The builders place every
//! bubble on an exact grid.

use vstd::prelude::*;
use crate::point::Point;
use crate::point::COORD_LIMIT;
use crate::report::dec_str;
use crate::report::u32_to_string;
use crate::template::Box;
use crate::template::Question;
use crate::template::Template;

verus! {

/// How many questions, digits, versions and answers the form carries.
pub struct QuestionSettings {
    pub num_qs: u32,
    pub num_id_qs: u32,
    pub num_versions: u32,
    pub num_answers: u32,
}

impl Default for QuestionSettings {
    /// Twenty questions with five answers, nine digits, four versions.
    fn default() -> (r: Self)
        ensures
            r.num_qs == 20 && r.num_id_qs == 9 && r.num_versions == 4 && r.num_answers == 5,
    {
        QuestionSettings { num_qs: 20, num_id_qs: 9, num_versions: 4, num_answers: 5 }
    }
}

/// Bubble box size, paddings, and the page size of the rendered form.
pub struct LayoutSettings {
    pub box_height: u32,
    pub box_width: u32,
    pub padding_horizontal: u32,
    pub padding_vertical: u32,
    pub height: u32,
    pub width: u32,
}

impl Default for LayoutSettings {
    /// The measurements of the stock form.
    fn default() -> (r: Self)
        ensures
            r.box_height == 41 && r.box_width == 46,
            r.padding_horizontal == 15 && r.padding_vertical == 7,
            r.height == 3487 && r.width == 2468,
    {
        LayoutSettings {
            box_height: 41,
            box_width: 46,
            padding_horizontal: 15,
            padding_vertical: 7,
            height: 3487,
            width: 2468,
        }
    }
}

/// Where the first bubble of each group sits.
pub struct PositionSettings {
    pub first_q: Point,
    pub first_vq: Point,
    pub first_id_q: Point,
}

impl Default for PositionSettings {
    /// The positions of the stock form.
    fn default() -> (r: Self)
        ensures
            r.first_q == (Point { x: 481, y: 400 }),
            r.first_vq == (Point { x: 1402, y: 784 }),
            r.first_id_q == (Point { x: 1402, y: 928 }),
    {
        PositionSettings {
            first_q: Point { x: 481, y: 400 },
            first_vq: Point { x: 1402, y: 784 },
            first_id_q: Point { x: 1402, y: 928 },
        }
    }
}

/// Where the three registration rings sit and their nominal radius.
pub struct CircleSettings {
    pub centers: Vec<Point>,
    pub radius: u32,
}

impl Default for CircleSettings {
    /// The ring positions of the stock form.
    fn default() -> (r: Self)
        ensures
            r.centers@.len() == 3,
            r.centers@[0] == (Point { x: 294, y: 268 }),
            r.centers@[1] == (Point { x: 2242, y: 268 }),
            r.centers@[2] == (Point { x: 2242, y: 3114 }),
            r.radius == 45,
    {
        let mut centers: Vec<Point> = Vec::new();
        centers.push(Point { x: 294, y: 268 });
        centers.push(Point { x: 2242, y: 268 });
        centers.push(Point { x: 2242, y: 3114 });
        CircleSettings { centers, radius: 45 }
    }
}

/// The bubble at grid position `i` of a horizontal row starting at `a`.
pub open spec fn built_box(a: Point, w: int, h: int, pad_h: int, i: int) -> Box {
    Box {
        a: Point { x: (a.x + i * (w + pad_h)) as u32, y: a.y },
        b: Point { x: (a.x + i * (w + pad_h) + w) as u32, y: (a.y + h) as u32 },
        value: i as u32,
    }
}

/// Lay one horizontal row of `count` bubbles, each encoding its position.
pub fn box_builder(a: Point, w: u32, h: u32, pad_h: u32, count: u32) -> (r: Vec<Box>)
    requires
        a.x + count * (w + pad_h) + w < COORD_LIMIT,
        a.y + h < COORD_LIMIT,
        count < 0x10000,
        w + pad_h < 0x10000,
    ensures
        r@.len() == count,
        forall|i: int| 0 <= i < count
            ==> #[trigger] r@[i] == built_box(a, w as int, h as int, pad_h as int, i),
        forall|i: int| 0 <= i < count ==> (#[trigger] r@[i]).wf(),
{
    let mut r: Vec<Box> = Vec::new();
    let mut i: u32 = 0;
    while i < count
        invariant
            a.x + count * (w + pad_h) + w < COORD_LIMIT,
            a.y + h < COORD_LIMIT,
            count < 0x10000,
            w + pad_h < 0x10000,
            0 <= i <= count,
            r@.len() == i,
            forall|j: int| 0 <= j < i
                ==> #[trigger] r@[j] == built_box(a, w as int, h as int, pad_h as int, j),
            forall|j: int| 0 <= j < i ==> (#[trigger] r@[j]).wf(),
        decreases count - i,
    {
        assert(0 <= i * (w + pad_h) <= count * (w + pad_h)) by (nonlinear_arith)
            requires 0 <= i < count && 0 <= w + pad_h;
        let x0: u32 = a.x + i * (w + pad_h);
        r.push(Box {
            a: Point { x: x0, y: a.y },
            b: Point { x: x0 + w, y: a.y + h },
            value: i,
        });
        i = i + 1;
    }
    r
}

/// The question at grid row `i` of a vertical stack starting at `a`.
pub open spec fn built_question_start(a: Point, h: int, pad_v: int, i: int) -> Point {
    Point { x: a.x, y: (a.y + i * (h + pad_v)) as u32 }
}

/// Lay `count` bubble rows below each other, `answers` bubbles each.
pub fn question_builder(a: Point, answers: u32, w: u32, h: u32, pad_h: u32, pad_v: u32, count: u32)
    -> (r: Vec<Question>)
    requires
        a.x + answers * (w + pad_h) + w < COORD_LIMIT,
        a.y + count * (h + pad_v) + h < COORD_LIMIT,
        answers < 0x10000,
        count < 0x10000,
        w + pad_h < 0x10000,
        h + pad_v < 0x10000,
    ensures
        r@.len() == count,
        forall|i: int| 0 <= i < count ==> (#[trigger] r@[i]).boxes@.len() == answers,
        forall|i: int, j: int| 0 <= i < count && 0 <= j < answers
            ==> #[trigger] r@[i].boxes@[j] == built_box(
                built_question_start(a, h as int, pad_v as int, i),
                w as int, h as int, pad_h as int, j),
        forall|i: int| 0 <= i < count ==> (#[trigger] r@[i]).wf(),
{
    let mut r: Vec<Question> = Vec::new();
    let mut i: u32 = 0;
    while i < count
        invariant
            a.x + answers * (w + pad_h) + w < COORD_LIMIT,
            a.y + count * (h + pad_v) + h < COORD_LIMIT,
            answers < 0x10000,
            count < 0x10000,
            w + pad_h < 0x10000,
            h + pad_v < 0x10000,
            0 <= i <= count,
            r@.len() == i,
            forall|j: int| 0 <= j < i ==> (#[trigger] r@[j]).boxes@.len() == answers,
            forall|j: int, m: int| 0 <= j < i && 0 <= m < answers
                ==> #[trigger] r@[j].boxes@[m] == built_box(
                    built_question_start(a, h as int, pad_v as int, j),
                    w as int, h as int, pad_h as int, m),
            forall|j: int| 0 <= j < i ==> (#[trigger] r@[j]).wf(),
        decreases count - i,
    {
        assert(0 <= i * (h + pad_v) <= count * (h + pad_v)) by (nonlinear_arith)
            requires 0 <= i < count && 0 <= h + pad_v;
        let start = Point { x: a.x, y: a.y + i * (h + pad_v) };
        let boxes = box_builder(start, w, h, pad_h, answers);
        r.push(Question { boxes });
        i = i + 1;
    }
    r
}

/// Assemble a full template from the grid settings: ten-digit student
/// number rows, one version selector row, and the question rows.
pub fn template_from_settings(
    qss: &QuestionSettings,
    ls: &LayoutSettings,
    ps: &PositionSettings,
    cs: &CircleSettings,
) -> (r: Template)
    requires
        qss.num_qs < 0x10000,
        qss.num_id_qs < 0x10000,
        qss.num_versions < 0x10000,
        qss.num_answers < 0x10000,
        ls.box_width + ls.padding_horizontal < 0x10000,
        ls.box_height + ls.padding_vertical < 0x10000,
        ps.first_q.x + qss.num_answers * (ls.box_width + ls.padding_horizontal)
            + ls.box_width < COORD_LIMIT,
        ps.first_q.y + qss.num_qs * (ls.box_height + ls.padding_vertical)
            + ls.box_height < COORD_LIMIT,
        ps.first_vq.x + qss.num_versions * (ls.box_width + ls.padding_horizontal)
            + ls.box_width < COORD_LIMIT,
        ps.first_vq.y + ls.box_height < COORD_LIMIT,
        ps.first_id_q.x + 10 * (ls.box_width + ls.padding_horizontal)
            + ls.box_width < COORD_LIMIT,
        ps.first_id_q.y + qss.num_id_qs * (ls.box_height + ls.padding_vertical)
            + ls.box_height < COORD_LIMIT,
        cs.centers@.len() == 3,
        forall|i: int| 0 <= i < 3 ==> (#[trigger] cs.centers@[i]).in_range(),
        0 < cs.radius <= 0xF0000,
        0 < ls.height < 0x8000,
        0 < ls.width < 0x8000,
    ensures
        r.wf(),
        r.id_questions@.len() == qss.num_id_qs,
        r.version.boxes@.len() == qss.num_versions,
        r.questions@.len() == qss.num_qs,
        forall|i: int| 0 <= i < qss.num_id_qs
            ==> (#[trigger] r.id_questions@[i]).boxes@.len() == 10,
        forall|i: int, j: int| 0 <= i < qss.num_id_qs && 0 <= j < 10
            ==> #[trigger] r.id_questions@[i].boxes@[j] == built_box(
                built_question_start(ps.first_id_q, ls.box_height as int,
                    ls.padding_vertical as int, i),
                ls.box_width as int, ls.box_height as int, ls.padding_horizontal as int, j),
        forall|j: int| 0 <= j < qss.num_versions
            ==> #[trigger] r.version.boxes@[j] == built_box(ps.first_vq,
                ls.box_width as int, ls.box_height as int, ls.padding_horizontal as int, j),
        forall|i: int| 0 <= i < qss.num_qs
            ==> (#[trigger] r.questions@[i]).boxes@.len() == qss.num_answers,
        forall|i: int, j: int| 0 <= i < qss.num_qs && 0 <= j < qss.num_answers
            ==> #[trigger] r.questions@[i].boxes@[j] == built_box(
                built_question_start(ps.first_q, ls.box_height as int,
                    ls.padding_vertical as int, i),
                ls.box_width as int, ls.box_height as int, ls.padding_horizontal as int, j),
        r.circle_centers@ == cs.centers@,
        r.circle_radius == cs.radius,
        r.height == ls.height,
        r.width == ls.width,
{
    let id_questions = question_builder(
        ps.first_id_q, 10, ls.box_width, ls.box_height,
        ls.padding_horizontal, ls.padding_vertical, qss.num_id_qs);
    let version = Question {
        boxes: box_builder(ps.first_vq, ls.box_width, ls.box_height,
            ls.padding_horizontal, qss.num_versions),
    };
    let questions = question_builder(
        ps.first_q, qss.num_answers, ls.box_width, ls.box_height,
        ls.padding_horizontal, ls.padding_vertical, qss.num_qs);
    Template {
        id_questions,
        version,
        questions,
        circle_centers: cs.centers.clone(),
        circle_radius: cs.radius,
        height: ls.height,
        width: ls.width,
    }
}

/// The answer letter for an answer index: `0` is `A`, `1` is `B`, and so
/// on.
pub fn number_to_letter(n: u32) -> (r: u8)
    requires
        n < 26,
    ensures
        r == 65 + n,
{
    65 + (n as u8)
}

/// The parameter preamble of the form's page description: the four counts
/// bound as definitions, exactly as the page source expects them, ready
/// for the caller to append the form body behind.  The body itself is a
/// typesetting asset and lives outside the library.
pub fn typst_template(num_qs: u32, num_id_qs: u32, num_versions: u32, num_answers: u32)
    -> (r: String)
    ensures
        r@ == "\n#let num_qs = "@ + dec_str(num_qs as int)
            + "\n#let num_idqs = "@ + dec_str(num_id_qs as int)
            + "\n#let num_answers = "@ + dec_str(num_answers as int)
            + "\n#let num_versions = "@ + dec_str(num_versions as int)
            + "\n"@,
{
    let mut r = String::new();
    r.append("\n#let num_qs = ");
    let s1 = u32_to_string(num_qs);
    r.append(s1.as_str());
    r.append("\n#let num_idqs = ");
    let s2 = u32_to_string(num_id_qs);
    r.append(s2.as_str());
    r.append("\n#let num_answers = ");
    let s3 = u32_to_string(num_answers);
    r.append(s3.as_str());
    r.append("\n#let num_versions = ");
    let s4 = u32_to_string(num_versions);
    r.append(s4.as_str());
    r.append("\n");
    proof {
        assert(r@ =~= "\n#let num_qs = "@ + dec_str(num_qs as int)
            + "\n#let num_idqs = "@ + dec_str(num_id_qs as int)
            + "\n#let num_answers = "@ + dec_str(num_answers as int)
            + "\n#let num_versions = "@ + dec_str(num_versions as int)
            + "\n"@);
    }
    r
}

} // verus!
