//! Binding a template to one scanned page: registration and scoring.
//!
//! Construction projects the template's three ring centers onto the scan,
//! locates the real rings, and solves for the page transformation; if that
//! fails the bitmap is eroded once and registration retries.  A page whose
//! registration failed stays unregistered for good: scoring it yields no
//! student number, no version and no marks, only the check-by-hand flag.

use vstd::prelude::*;
use crate::bitmap::eroded;
use crate::point::Point;
use crate::point::Transformation;
use crate::point::affine_spec;
use crate::point::affine_transformation;
use crate::point::round_coord;
use crate::point::round_div;
use crate::point::round_to_coord;
use crate::scan::RADIUS_LIMIT;
use crate::scan::Scan;
use crate::scan::real_center_fuzzy_spec;
use crate::scan::lemma_real_center_fuzzy_same;
use crate::scan::same_ink;
use crate::template::CorrectAnswer;
use crate::template::ExamKey;
use crate::template::Question;
use crate::template::Template;
use crate::template::choice_spec;
use crate::template::choices_spec;
use crate::report::ImageReport;
use crate::rgb::RgbBitmap;
use crate::rgb::rgb_from_bitmap;

verus! {

/// One page bound to its template: the (possibly eroded) bitmap and the
/// resolved page transformation, `None` when registration failed.
#[derive(Debug)]
pub struct TemplateScan {
    pub template: Template,
    pub scan: Scan,
    pub transformation: Option<Transformation>,
}

/// A template-space point mapped to scan space; an unregistered page keeps
/// points unchanged (callers must not score such a page).
pub open spec fn transform_spec(ts: TemplateScan, p: Point) -> Point {
    match ts.transformation {
        Some(t) => t.apply_spec(p),
        None => p,
    }
}

/// The registration result for a template on a scan: the template's ring
/// centers are projected through the size ratio, the nominal ring radius is
/// inflated by five percent, the three rings are located with the fuzzy
/// search, and the affine map from template corners to located centers is
/// solved.  `None` when the scan is empty, the projected radius is
/// unusable, a ring cannot be found, or the template corners are collinear.
/// Denominator of the template-to-scan size ratio.
pub open spec fn scale_den(t: Template, s: Scan) -> int {
    t.height * s.image.spec_width() + t.width * s.image.spec_height()
}

/// Twice the scan area: the numerator factor of the inverse size ratio.
pub open spec fn scale_num(s: Scan) -> int {
    2 * s.image.spec_height() * s.image.spec_width()
}

/// The nominal ring radius projected into scan space and inflated by five
/// percent to tolerate scale error.
pub open spec fn projected_radius_spec(t: Template, s: Scan) -> int {
    round_div(42 * t.circle_radius * s.image.spec_height() * s.image.spec_width(),
        20 * scale_den(t, s))
}

/// A template point projected into scan space through the size ratio.
pub open spec fn projected_center_spec(t: Template, s: Scan, c: Point) -> Point {
    Point {
        x: round_coord(c.x * scale_num(s), scale_den(t, s)) as u32,
        y: round_coord(c.y * scale_num(s), scale_den(t, s)) as u32,
    }
}

pub open spec fn find_transformation_spec(t: Template, s: Scan) -> Option<Transformation> {
    if s.image.spec_width() == 0 || s.image.spec_height() == 0 {
        None
    } else {
        let pr = projected_radius_spec(t, s);
        if !(0 < pr < RADIUS_LIMIT) {
            None
        } else {
            let c0 = t.circle_centers@[0];
            let c1 = t.circle_centers@[1];
            let c2 = t.circle_centers@[2];
            match real_center_fuzzy_spec(s.image, projected_center_spec(t, s, c0), pr) {
                None => None,
                Some(l0) => match real_center_fuzzy_spec(s.image,
                    projected_center_spec(t, s, c1), pr) {
                    None => None,
                    Some(l1) => match real_center_fuzzy_spec(s.image,
                        projected_center_spec(t, s, c2), pr) {
                        None => None,
                        Some(l2) => affine_spec(c0, c1, c2, l0, l1, l2),
                    },
                },
            }
        }
    }
}

/// What construction guarantees: either the first registration attempt
/// succeeded on the unmodified bitmap, or the page carries the once-eroded
/// bitmap and whatever registering that bitmap yields.  In both cases the
/// transformation equals `find_transformation_spec` of the page's own
/// bitmap, so registration is a pure function of template and bitmap.
pub open spec fn registration_post(t: Template, s: Scan, ts: TemplateScan) -> bool {
    &&& ts.template == t
    &&& match find_transformation_spec(t, s) {
        Some(tr) => ts.scan == s && ts.transformation == Some(tr),
        None => {
            &&& ts.scan.image.spec_width() == s.image.spec_width()
            &&& ts.scan.image.spec_height() == s.image.spec_height()
            &&& forall|x: int, y: int| ts.scan.image.ink(x, y) == eroded(s.image, x, y)
            &&& ts.transformation == find_transformation_spec(t, ts.scan)
        },
    }
}

/// Project the template ring centers into scan space, locate the real
/// rings, and solve for the page transformation.
#[verifier::rlimit(100)]
#[verifier::spinoff_prover]
fn find_transformation(t: &Template, s: &Scan) -> (res: Option<Transformation>)
    requires
        t.wf(),
        s.wf(),
    ensures
        res == find_transformation_spec(*t, *s),
        res matches Some(tr) ==> tr.wf(),
{
    let sw: usize = s.image.width();
    let sh: usize = s.image.height();
    if sw == 0 || sh == 0 {
        return None;
    }
    assert({
        &&& 0 < (t.height as int) * (sw as int) < 0x40000000
        &&& 0 < (t.width as int) * (sh as int) < 0x40000000
        &&& 0 <= 42 * (t.circle_radius as int) < 0x10000000
        &&& 0 <= 42 * (t.circle_radius as int) * (sh as int) < 0x80000000000
        &&& 0 <= 42 * (t.circle_radius as int) * (sh as int) * (sw as int) < 0x400000000000000
    }) by (nonlinear_arith)
        requires
            0 < t.height < 0x8000,
            0 < t.width < 0x8000,
            0 < t.circle_radius <= 0xF0000,
            0 < sw < 0x8000,
            0 < sh < 0x8000;
    let den64: u64 = (t.height as u64) * (sw as u64) + (t.width as u64) * (sh as u64);
    let rad_num: u64 = 42 * (t.circle_radius as u64) * (sh as u64) * (sw as u64);
    let pr64: u64 = (2 * rad_num + 20 * den64) / (40 * den64);
    assert(pr64 == projected_radius_spec(*t, *s));
    if !(0 < pr64 && pr64 < RADIUS_LIMIT as u64) {
        return None;
    }
    let pr: u32 = pr64 as u32;
    assert(0 < 2 * (sh as int) * (sw as int) < 0x100000000) by (nonlinear_arith)
        requires 0 < sw < 0x8000 && 0 < sh < 0x8000;
    let scale2: i128 = 2 * (sh as i128) * (sw as i128);
    let c0 = t.circle_centers[0];
    let c1 = t.circle_centers[1];
    let c2 = t.circle_centers[2];
    let p0 = project_point(c0, scale2, den64 as i128);
    let p1 = project_point(c1, scale2, den64 as i128);
    let p2 = project_point(c2, scale2, den64 as i128);
    let l0 = match s.real_center_fuzzy(p0, pr) {
        Some(l) => l,
        None => { return None; },
    };
    let l1 = match s.real_center_fuzzy(p1, pr) {
        Some(l) => l,
        None => { return None; },
    };
    let l2 = match s.real_center_fuzzy(p2, pr) {
        Some(l) => l,
        None => { return None; },
    };
    affine_transformation(c0, c1, c2, l0, l1, l2)
}

/// Scale one template point into scan space by the exact size ratio.
fn project_point(c: Point, scale2: i128, den: i128) -> (res: Point)
    requires
        c.in_range(),
        0 < scale2 < 0x100000000,
        0 < den < 0x80000000,
    ensures
        res.x == round_coord(c.x * scale2, den as int),
        res.y == round_coord(c.y * scale2, den as int),
        res.in_range(),
{
    assert(0 <= (c.x as int) * scale2 < 0x10000000000000000
        && 0 <= (c.y as int) * scale2 < 0x10000000000000000) by (nonlinear_arith)
        requires
            0 <= c.x < 0x1000000,
            0 <= c.y < 0x1000000,
            0 < scale2 < 0x100000000;
    Point {
        x: round_to_coord((c.x as i128) * scale2, den),
        y: round_to_coord((c.y as i128) * scale2, den),
    }
}

impl TemplateScan {
    /// The bound pieces are all well formed.
    pub open spec fn wf(self) -> bool {
        &&& self.template.wf()
        &&& self.scan.wf()
        &&& self.transformation matches Some(t) ==> t.wf()
    }

    /// Bind a template to a scanned page and attempt registration; when
    /// the first attempt fails the bitmap is eroded once and registration
    /// retries on the eroded bitmap.
    pub fn new(template: Template, scan: Scan) -> (ts: TemplateScan)
        requires
            template.wf(),
            scan.wf(),
        ensures
            ts.wf(),
            registration_post(template, scan, ts),
    {
        let trafo = find_transformation(&template, &scan);
        match trafo {
            Some(tr) => TemplateScan { template, scan, transformation: Some(tr) },
            None => {
                let scan2 = Scan { image: crate::bitmap::erode(&scan.image) };
                let trafo2 = find_transformation(&template, &scan2);
                TemplateScan { template, scan: scan2, transformation: trafo2 }
            },
        }
    }

    /// Map a template-space point to scan space; an unregistered page
    /// keeps the point unchanged.
    pub fn transform(&self, p: Point) -> (r: Point)
        requires
            self.wf(),
            p.in_range(),
        ensures
            r == transform_spec(*self, p),
            r.in_range(),
    {
        match &self.transformation {
            Some(t) => t.apply(p),
            None => p,
        }
    }
}

/// Registration reads only the bitmap's size and ink: two scans that agree
/// pixel for pixel register to the same transformation.
#[verifier::rlimit(100)]
#[verifier::spinoff_prover]
pub proof fn lemma_find_transformation_same(t: Template, s1: Scan, s2: Scan)
    requires
        same_ink(s1.image, s2.image),
    ensures
        find_transformation_spec(t, s1) == find_transformation_spec(t, s2),
{
    assert(scale_den(t, s1) == scale_den(t, s2));
    assert(scale_num(s1) == scale_num(s2));
    assert(projected_radius_spec(t, s1) == projected_radius_spec(t, s2));
    let pr = projected_radius_spec(t, s1);
    if s1.image.spec_width() != 0 && s1.image.spec_height() != 0 && 0 < pr < RADIUS_LIMIT {
        let c0 = t.circle_centers@[0];
        let c1 = t.circle_centers@[1];
        let c2 = t.circle_centers@[2];
        assert(projected_center_spec(t, s1, c0) == projected_center_spec(t, s2, c0));
        assert(projected_center_spec(t, s1, c1) == projected_center_spec(t, s2, c1));
        assert(projected_center_spec(t, s1, c2) == projected_center_spec(t, s2, c2));
        lemma_real_center_fuzzy_same(s1.image, s2.image,
            projected_center_spec(t, s1, c0), pr);
        lemma_real_center_fuzzy_same(s1.image, s2.image,
            projected_center_spec(t, s1, c1), pr);
        lemma_real_center_fuzzy_same(s1.image, s2.image,
            projected_center_spec(t, s1, c2), pr);
    }
}

/// Registration is deterministic: two pages built from the same template
/// and the same bitmap carry the same transformation and pixel-identical
/// bitmaps, whether or not the erosion retry ran.
pub proof fn lemma_registration_deterministic(
    t: Template, s: Scan, ts1: TemplateScan, ts2: TemplateScan,
)
    requires
        registration_post(t, s, ts1),
        registration_post(t, s, ts2),
    ensures
        ts1.transformation == ts2.transformation,
        forall|x: int, y: int|
            ts1.scan.image.ink(x, y) == ts2.scan.image.ink(x, y),
{
    if find_transformation_spec(t, s) is Some {
        assert(ts1.scan == s && ts2.scan == s);
    } else {
        assert forall|x: int, y: int|
            ts1.scan.image.ink(x, y) == ts2.scan.image.ink(x, y) by {
            assert(ts1.scan.image.ink(x, y) == eroded(s.image, x, y));
            assert(ts2.scan.image.ink(x, y) == eroded(s.image, x, y));
        }
        assert(same_ink(ts1.scan.image, ts2.scan.image)) by {
            assert forall|x: int, y: int| #![trigger ts1.scan.image.ink(x, y)]
                ts1.scan.image.ink(x, y) == ts2.scan.image.ink(x, y) by {
                assert(ts1.scan.image.ink(x, y) == eroded(s.image, x, y));
                assert(ts2.scan.image.ink(x, y) == eroded(s.image, x, y));
            }
        }
        lemma_find_transformation_same(t, ts1.scan, ts2.scan);
    }
}


/// Ten to the power of the number of decimal digits of `d`: the factor a
/// decimal concatenation shifts the accumulated value by.
pub open spec fn pow10_of(d: int) -> int
    decreases d,
{
    if d < 10 {
        10
    } else {
        10 * pow10_of(d / 10)
    }
}

/// The value of the student-number digits read so far: each digit question
/// must resolve to exactly one value, the values are concatenated in
/// decimal, and the result must fit the number type.
pub open spec fn id_upto(ts: TemplateScan, n: int) -> Option<int>
    decreases n,
{
    if n <= 0 {
        Some(0)
    } else {
        match id_upto(ts, n - 1) {
            None => None,
            Some(v) => match choice_spec(ts, ts.template.id_questions@[n - 1]) {
                None => None,
                Some(d) => {
                    let next = v * pow10_of(d as int) + d;
                    if next <= u32::MAX { Some(next) } else { None }
                },
            },
        }
    }
}

/// The decoded student number: present only when every digit question of
/// the template resolves to exactly one value and the concatenation fits.
/// A single unreadable or ambiguous digit withholds the whole number, so nobody ever
/// acts on a half-decoded one.
pub open spec fn id_spec(ts: TemplateScan) -> Option<u32> {
    if ts.template.id_questions@.len() == 0 {
        None
    } else {
        match id_upto(ts, ts.template.id_questions@.len() as int) {
            Some(v) => Some(v as u32),
            None => None,
        }
    }
}

/// Once a digit fails, every longer prefix fails too.
proof fn lemma_id_upto_none(ts: TemplateScan, n: int, m: int)
    requires
        0 <= n <= m,
        id_upto(ts, n) is None,
    ensures
        id_upto(ts, m) is None,
    decreases m,
{
    if m > n {
        lemma_id_upto_none(ts, n, m - 1);
    }
}

/// The detected version: the version question must resolve to exactly one
/// value and that value must name one of the key's versions.  An
/// unregistered page never reports a version.
pub open spec fn version_spec(ts: TemplateScan, klen: int) -> Option<u32> {
    if ts.transformation is None {
        None
    } else {
        match choice_spec(ts, ts.template.version) {
            Some(v) => if v < klen { Some(v) } else { None },
            None => None,
        }
    }
}

/// The score entry of one question under one key version: a question
/// contributes a point only when exactly one bubble is selected and the
/// key accepts its value; an empty or ambiguous question stays unscored.
pub open spec fn question_score_spec(
    ts: TemplateScan, k: Seq<Vec<CorrectAnswer>>, v: int, i: int,
) -> Option<u32> {
    let ch = choices_spec(ts, ts.template.questions@[i]);
    if ch.len() == 1 {
        if k[v]@[i].accepted().contains(ch[0]) { Some(1u32) } else { Some(0u32) }
    } else {
        None
    }
}

/// All per-question score entries under one key version.
pub open spec fn scores_spec(ts: TemplateScan, k: Seq<Vec<CorrectAnswer>>, v: int)
    -> Seq<Option<u32>>
{
    Seq::new(ts.template.questions@.len(), |i: int| question_score_spec(ts, k, v, i))
}

/// The all-unscored column used when no version could be resolved.
pub open spec fn no_scores_spec(ts: TemplateScan) -> Seq<Option<u32>> {
    Seq::new(ts.template.questions@.len(), |i: int| None::<u32>)
}

/// Some question of the group resolved to more than one selected bubble.
pub open spec fn any_multi_spec(ts: TemplateScan, qs: Seq<Question>) -> bool {
    exists|i: int| 0 <= i < qs.len() && choices_spec(ts, qs[i]).len() > 1
}

/// The student-number digits skip a position: some earlier digit question
/// is empty while a later one carries a mark.
pub open spec fn id_gap_spec(ts: TemplateScan) -> bool {
    exists|i: int, j: int| {
        &&& 0 <= i < j < ts.template.id_questions@.len()
        &&& choices_spec(ts, ts.template.id_questions@[i]).len() == 0
        &&& choices_spec(ts, ts.template.id_questions@[j]).len() > 0
    }
}

/// The page needs a human check: registration failed, some question or
/// digit or the version selector carries more than one mark, or the
/// student-number digits have a gap.
pub open spec fn issue_spec(ts: TemplateScan) -> bool {
    ||| ts.transformation is None
    ||| any_multi_spec(ts, ts.template.questions@)
    ||| any_multi_spec(ts, ts.template.id_questions@)
    ||| choices_spec(ts, ts.template.version).len() > 1
    ||| id_gap_spec(ts)
}

impl TemplateScan {
    /// Decode the student number: every digit question must resolve to
    /// exactly one value; the values are concatenated in decimal.
    pub fn id(&self) -> (r: Option<u32>)
        requires
            self.wf(),
        ensures
            r == id_spec(*self),
    {
        let n = self.template.id_questions.len();
        if n == 0 {
            return None;
        }
        let mut cur: u32 = 0;
        let mut i: usize = 0;
        while i < n
            invariant
                self.wf(),
                n == self.template.id_questions@.len(),
                0 <= i <= n,
                id_upto(*self, i as int) == Some(cur as int),
            decreases n - i,
        {
            let q = &self.template.id_questions[i];
            assert(q.wf());
            match q.choice(self) {
                None => {
                    proof {
                        lemma_id_upto_none(*self, i + 1, n as int);
                    }
                    return None;
                },
                Some(d) => {
                    let pow: u64 = pow10_exec(d);
                    assert(0 <= (cur as int) * (pow as int) < 0x100000000000000000000)
                        by (nonlinear_arith)
                        requires
                            cur <= u32::MAX,
                            0 < pow <= 0x8000000000;
                    let next: u128 = (cur as u128) * (pow as u128) + (d as u128);
                    if next > u32::MAX as u128 {
                        proof {
                            lemma_id_upto_none(*self, i + 1, n as int);
                        }
                        return None;
                    }
                    cur = next as u32;
                },
            }
            i = i + 1;
        }
        Some(cur)
    }
}

/// Ten to the power of the number of decimal digits.
fn pow10_exec(d: u32) -> (r: u64)
    ensures
        r == pow10_of(d as int),
        0 < r <= 0x8000000000,
    decreases d,
{
    if d < 10 {
        10
    } else {
        let p = pow10_exec(d / 10);
        proof {
            lemma_pow10_linear(d as int);
        }
        10 * p
    }
}

/// The decimal shift factor grows at most linearly: `pow10_of(d) <= 100 d`
/// for positive `d`.
proof fn lemma_pow10_linear(d: int)
    requires
        d >= 1,
    ensures
        pow10_of(d) <= 100 * d,
    decreases d,
{
    if d >= 10 {
        lemma_pow10_linear(d / 10);
        vstd::arithmetic::div_mod::lemma_fundamental_div_mod(d, 10);
        vstd::arithmetic::div_mod::lemma_mod_bound(d, 10);
        assert(10 * (d / 10) <= d);
        assert(10 * pow10_of(d / 10) <= 10 * (100 * (d / 10)));
    }
}


/// The pixel lies in the clipped rectangle spanned by the transformed
/// corners of one bubble.
pub open spec fn in_box_region(ts: TemplateScan, b: crate::template::Box, i: int, j: int) -> bool {
    crate::rgb::in_clipped_rect(
        i, j,
        transform_spec(ts, b.a).x as int, transform_spec(ts, b.a).y as int,
        transform_spec(ts, b.b).x as int, transform_spec(ts, b.b).y as int,
        ts.scan.image.spec_width(), ts.scan.image.spec_height(),
    )
}

/// The pixel lies in the clipped rectangle spanning a question's whole
/// bubble row, from the first bubble's first corner to the last bubble's
/// second corner.
pub open spec fn in_row_region(ts: TemplateScan, q: Question, i: int, j: int) -> bool {
    &&& q.boxes@.len() > 0
    &&& crate::rgb::in_clipped_rect(
        i, j,
        transform_spec(ts, q.boxes@[0].a).x as int,
        transform_spec(ts, q.boxes@[0].a).y as int,
        transform_spec(ts, q.boxes@[q.boxes@.len() - 1].b).x as int,
        transform_spec(ts, q.boxes@[q.boxes@.len() - 1].b).y as int,
        ts.scan.image.spec_width(), ts.scan.image.spec_height(),
    )
}

/// The regions the report's annotation pass may repaint: the crosses on
/// the transformed ring centers, the transformed rectangles of version,
/// question and digit bubbles, and the row spans of question and digit
/// groups (used to highlight ambiguous rows).  Every other pixel of the
/// report raster shows the plain rendered page.
pub open spec fn annotation_region(ts: TemplateScan, i: int, j: int) -> bool {
    ||| exists|c: int| 0 <= c < ts.template.circle_centers@.len()
        && crate::rgb::on_cross(i, j,
            transform_spec(ts, #[trigger] ts.template.circle_centers@[c]))
    ||| exists|b: int| 0 <= b < ts.template.version.boxes@.len()
        && in_box_region(ts, #[trigger] ts.template.version.boxes@[b], i, j)
    ||| exists|q: int, b: int| 0 <= q < ts.template.questions@.len()
        && 0 <= b < ts.template.questions@[q].boxes@.len()
        && in_box_region(ts, #[trigger] ts.template.questions@[q].boxes@[b], i, j)
    ||| exists|q: int| 0 <= q < ts.template.questions@.len()
        && in_row_region(ts, #[trigger] ts.template.questions@[q], i, j)
    ||| exists|q: int, b: int| 0 <= q < ts.template.id_questions@.len()
        && 0 <= b < ts.template.id_questions@[q].boxes@.len()
        && in_box_region(ts, #[trigger] ts.template.id_questions@[q].boxes@[b], i, j)
    ||| exists|q: int| 0 <= q < ts.template.id_questions@.len()
        && in_row_region(ts, #[trigger] ts.template.id_questions@[q], i, j)
}

impl TemplateScan {
    /// Highlight an ambiguous question by tinting the white background of
    /// its whole bubble row.
    fn mark_issue_with_highlight_box(image: &mut RgbBitmap, a: Point, b: Point)
        requires
            old(image).wf(),
            old(image).width > 0,
            old(image).height > 0,
        ensures
            final(image).wf(),
            final(image).width == old(image).width,
            final(image).height == old(image).height,
            forall|i: int, j: int| !crate::rgb::in_clipped_rect(i, j, a.x as int, a.y as int,
                b.x as int, b.y as int, old(image).width as int, old(image).height as int)
                ==> #[trigger] final(image).pix(i, j) == old(image).pix(i, j),
    {
        image.replace_colour(a.x, a.y, b.x, b.y, (255, 255, 255), (255, 215, 0));
    }

    /// Score the page against the key and render the annotated report.
    ///
    /// The decisions are computed first and pinned exactly: the student
    /// number (absent on an unregistered page), the version (present only
    /// when the version question resolves to a value the key knows), one
    /// score entry per question under that version (all absent without a
    /// version), and the check-by-hand flag.  The raster is the binarized page
    /// recolored from those decisions.
    #[verifier::rlimit(100)]
    #[verifier::spinoff_prover]
    pub fn generate_image_report(&self, k: &ExamKey, identifier: &String) -> (rep: ImageReport)
        requires
            self.wf(),
            crate::template::compatible_spec(self.template, k@),
        ensures
            rep.wf(),
            rep.image.width == self.scan.image.spec_width(),
            rep.image.height == self.scan.image.spec_height(),
            rep.identifier@ == identifier@,
            rep.sid == if self.transformation is Some { id_spec(*self) } else { None::<u32> },
            rep.version == version_spec(*self, k@.len() as int),
            rep.scores@ == match version_spec(*self, k@.len() as int) {
                Some(v) => scores_spec(*self, k@, v as int),
                None => no_scores_spec(*self),
            },
            rep.issue == issue_spec(*self),
            forall|i: int, j: int|
                0 <= i < self.scan.image.spec_width() && 0 <= j < self.scan.image.spec_height()
                    && !annotation_region(*self, i, j)
                ==> #[trigger] rep.image.pix(i, j) == (if self.scan.image.ink(i, j) {
                    (0u8, 0u8, 0u8)
                } else {
                    (255u8, 255u8, 255u8)
                }),
    {
        let registered = self.transformation.is_some();
        let sid: Option<u32> = if registered { self.id() } else { None };
        let version: Option<u32> = if registered {
            match self.template.version.choice(self) {
                Some(v) => if (v as usize) < k.len() { Some(v) } else { None },
                None => None,
            }
        } else {
            None
        };
        assert(version == version_spec(*self, k@.len() as int));
        let qn = self.template.questions.len();
        let mut scores: Vec<Option<u32>> = Vec::new();
        match version {
            Some(v) => {
                let mut i: usize = 0;
                while i < qn
                    invariant
                        self.wf(),
                        crate::template::compatible_spec(self.template, k@),
                        qn == self.template.questions@.len(),
                        version_spec(*self, k@.len() as int) == Some(v),
                        v < k@.len(),
                        0 <= i <= qn,
                        scores@.len() == i,
                        forall|j: int| 0 <= j < i ==>
                            #[trigger] scores@[j] == question_score_spec(*self, k@, v as int, j),
                        forall|j: int| 0 <= j < i ==>
                            ((#[trigger] scores@[j]) matches Some(s) ==> s <= 1),
                    decreases qn - i,
                {
                    let q = &self.template.questions[i];
                    let ch = q.choices(self);
                    if ch.len() == 1 {
                        let correct = k[v as usize][i].correct(ch[0]);
                        if correct {
                            scores.push(Some(1));
                        } else {
                            scores.push(Some(0));
                        }
                    } else {
                        scores.push(None);
                    }
                    i = i + 1;
                }
                proof {
                    assert(scores@ =~= scores_spec(*self, k@, v as int));
                }
            },
            None => {
                let mut i: usize = 0;
                while i < qn
                    invariant
                        0 <= i <= qn,
                        scores@.len() == i,
                        forall|j: int| 0 <= j < i ==> #[trigger] scores@[j] is None,
                    decreases qn - i,
                {
                    scores.push(None);
                    i = i + 1;
                }
                proof {
                    assert(scores@ =~= no_scores_spec(*self));
                }
            },
        }
        let multi_q = self.any_multi(&self.template.questions);
        let multi_id = self.any_multi(&self.template.id_questions);
        let version_ch = self.template.version.choices(self);
        let gap = self.id_has_gap();
        let issue: bool = !registered || multi_q || multi_id || version_ch.len() > 1 || gap;
        let mut image = rgb_from_bitmap(&self.scan.image);
        if image.width > 0 && image.height > 0 {
            self.annotate(&mut image, k, version);
        }
        ImageReport {
            image,
            sid,
            version,
            issue,
            scores,
            identifier: identifier.clone(),
        }
    }

    /// Does any question of the group select more than one bubble?
    fn any_multi(&self, qs: &Vec<Question>) -> (r: bool)
        requires
            self.wf(),
            forall|i: int| 0 <= i < qs@.len() ==> (#[trigger] qs@[i]).wf(),
        ensures
            r == any_multi_spec(*self, qs@),
    {
        let mut i: usize = 0;
        while i < qs.len()
            invariant
                self.wf(),
                forall|j: int| 0 <= j < qs@.len() ==> (#[trigger] qs@[j]).wf(),
                0 <= i <= qs@.len(),
                forall|j: int| 0 <= j < i ==> choices_spec(*self, #[trigger] qs@[j]).len() <= 1,
            decreases qs@.len() - i,
        {
            let ch = qs[i].choices(self);
            if ch.len() > 1 {
                return true;
            }
            i = i + 1;
        }
        false
    }

    /// Does the student number skip a digit position?
    fn id_has_gap(&self) -> (r: bool)
        requires
            self.wf(),
        ensures
            r == id_gap_spec(*self),
    {
        let n = self.template.id_questions.len();
        let mut any_empty = false;
        let mut gap = false;
        let mut i: usize = 0;
        while i < n
            invariant
                self.wf(),
                n == self.template.id_questions@.len(),
                0 <= i <= n,
                any_empty == exists|j: int| 0 <= j < i
                    && choices_spec(*self, #[trigger] self.template.id_questions@[j]).len() == 0,
                gap == exists|a: int, b: int| {
                    &&& 0 <= a < b < i
                    &&& choices_spec(*self, self.template.id_questions@[a]).len() == 0
                    &&& choices_spec(*self, self.template.id_questions@[b]).len() > 0
                },
            decreases n - i,
        {
            let q = &self.template.id_questions[i];
            let ch = q.choices(self);
            if ch.len() > 0 && any_empty {
                gap = true;
            }
            if ch.len() == 0 {
                any_empty = true;
                assert(choices_spec(*self, self.template.id_questions@[i as int]).len() == 0);
            }
            i = i + 1;
        }
        gap
    }

    /// Paint the annotations: crosses on the located ring centers, tints
    /// on correct and detected bubbles, highlights on ambiguous regions.
    fn annotate(&self, image: &mut RgbBitmap, k: &ExamKey, version: Option<u32>)
        requires
            self.wf(),
            crate::template::compatible_spec(self.template, k@),
            old(image).wf(),
            old(image).width > 0,
            old(image).height > 0,
            old(image).width == self.scan.image.spec_width(),
            old(image).height == self.scan.image.spec_height(),
            version matches Some(v) ==> v < k@.len(),
        ensures
            final(image).wf(),
            final(image).width == old(image).width,
            final(image).height == old(image).height,
            forall|i: int, j: int| !annotation_region(*self, i, j)
                ==> #[trigger] final(image).pix(i, j) == old(image).pix(i, j),
    {
        let highlight_fg: (u8, u8, u8) = (255, 110, 0);
        let highlight_bg: (u8, u8, u8) = (255, 215, 0);
        let correct_fg: (u8, u8, u8) = (30, 220, 30);
        let correct_bg: (u8, u8, u8) = (220, 255, 220);
        let wrong_fg: (u8, u8, u8) = (255, 50, 50);
        let wrong_bg: (u8, u8, u8) = (255, 220, 220);
        let black: (u8, u8, u8) = (0, 0, 0);
        let white: (u8, u8, u8) = (255, 255, 255);
        let mut ci: usize = 0;
        while ci < self.template.circle_centers.len()
            invariant
                self.wf(),
                image.wf(),
                image.width == old(image).width,
                image.height == old(image).height,
                old(image).width > 0,
                old(image).height > 0,
                old(image).width == self.scan.image.spec_width(),
                old(image).height == self.scan.image.spec_height(),
                forall|i: int, j: int| !annotation_region(*self, i, j)
                    ==> #[trigger] image.pix(i, j) == old(image).pix(i, j),
            decreases self.template.circle_centers@.len() - ci,
        {
            let c = self.template.circle_centers[ci];
            let coord = self.transform(c);
            let ghost pre = *image;
            image.draw_cross(coord, highlight_fg);
            assert forall|i: int, j: int| !annotation_region(*self, i, j)
                implies #[trigger] image.pix(i, j) == old(image).pix(i, j) by {
                if crate::rgb::on_cross(i, j, coord) {
                    assert(crate::rgb::on_cross(i, j,
                        transform_spec(*self, self.template.circle_centers@[ci as int])));
                }
                assert(image.pix(i, j) == pre.pix(i, j));
            }
            ci = ci + 1;
        }
        if let Some(v) = version {
            if (v as usize) < self.template.version.boxes.len() {
                let tb = self.template.version.boxes[v as usize];
                let a = self.transform(tb.a);
                let b = self.transform(tb.b);
                let ghost pre = *image;
                image.replace_colour(a.x, a.y, b.x, b.y, black, highlight_fg);
                assert forall|i: int, j: int| !annotation_region(*self, i, j)
                    implies #[trigger] image.pix(i, j) == old(image).pix(i, j) by {
                    if crate::rgb::in_clipped_rect(i, j, a.x as int, a.y as int, b.x as int,
                        b.y as int, pre.width as int, pre.height as int) {
                        assert(in_box_region(*self, self.template.version.boxes@[v as int],
                            i, j));
                    }
                    assert(image.pix(i, j) == pre.pix(i, j));
                }
            }
            let mut i: usize = 0;
            while i < self.template.questions.len()
                invariant
                    self.wf(),
                    crate::template::compatible_spec(self.template, k@),
                    v < k@.len(),
                    image.wf(),
                    image.width == old(image).width,
                    image.height == old(image).height,
                    old(image).width > 0,
                    old(image).height > 0,
                    old(image).width == self.scan.image.spec_width(),
                    old(image).height == self.scan.image.spec_height(),
                    forall|i2: int, j2: int| !annotation_region(*self, i2, j2)
                        ==> #[trigger] image.pix(i2, j2) == old(image).pix(i2, j2),
                decreases self.template.questions@.len() - i,
            {
                let q = &self.template.questions[i];
                let ghost qi = i as int;
                let ch = q.choices(self);
                if ch.len() > 1 && q.boxes.len() > 0 {
                    let a = self.transform(q.boxes[0].a);
                    let b = self.transform(q.boxes[q.boxes.len() - 1].b);
                    let ghost pre = *image;
                    image.replace_colour(a.x, a.y, b.x, b.y, white, highlight_bg);
                    assert forall|i2: int, j2: int| !annotation_region(*self, i2, j2)
                        implies #[trigger] image.pix(i2, j2) == old(image).pix(i2, j2) by {
                        if crate::rgb::in_clipped_rect(i2, j2, a.x as int, a.y as int,
                            b.x as int, b.y as int, pre.width as int, pre.height as int) {
                            assert(in_row_region(*self, self.template.questions@[qi], i2, j2));
                        }
                        assert(image.pix(i2, j2) == pre.pix(i2, j2));
                    }
                    let mut bi: usize = 0;
                    while bi < q.boxes.len()
                        invariant
                            self.wf(),
                            0 <= qi < self.template.questions@.len(),
                            q == &self.template.questions@[qi],
                            q.wf(),
                            image.wf(),
                            image.width == old(image).width,
                            image.height == old(image).height,
                            old(image).width > 0,
                            old(image).height > 0,
                            old(image).width == self.scan.image.spec_width(),
                            old(image).height == self.scan.image.spec_height(),
                            forall|i2: int, j2: int| !annotation_region(*self, i2, j2)
                                ==> #[trigger] image.pix(i2, j2) == old(image).pix(i2, j2),
                        decreases q.boxes@.len() - bi,
                    {
                        let tb = q.boxes[bi];
                        let contained = vec_contains(&ch, tb.value);
                        if contained {
                            let a2 = self.transform(tb.a);
                            let b2 = self.transform(tb.b);
                            let ghost pre = *image;
                            image.replace_colour(a2.x, a2.y, b2.x, b2.y, black, highlight_fg);
                            assert forall|i2: int, j2: int| !annotation_region(*self, i2, j2)
                                implies #[trigger] image.pix(i2, j2)
                                    == old(image).pix(i2, j2) by {
                                if crate::rgb::in_clipped_rect(i2, j2, a2.x as int,
                                    a2.y as int, b2.x as int, b2.y as int,
                                    pre.width as int, pre.height as int) {
                                    assert(in_box_region(*self,
                                        self.template.questions@[qi].boxes@[bi as int],
                                        i2, j2));
                                }
                                assert(image.pix(i2, j2) == pre.pix(i2, j2));
                            }
                        }
                        bi = bi + 1;
                    }
                } else {
                    let mut bi: usize = 0;
                    while bi < q.boxes.len()
                        invariant
                            self.wf(),
                            crate::template::compatible_spec(self.template, k@),
                            v < k@.len(),
                            0 <= qi < self.template.questions@.len(),
                            q == &self.template.questions@[qi],
                            i == qi,
                            i < self.template.questions@.len(),
                            q.wf(),
                            image.wf(),
                            image.width == old(image).width,
                            image.height == old(image).height,
                            old(image).width > 0,
                            old(image).height > 0,
                            old(image).width == self.scan.image.spec_width(),
                            old(image).height == self.scan.image.spec_height(),
                            forall|i2: int, j2: int| !annotation_region(*self, i2, j2)
                                ==> #[trigger] image.pix(i2, j2) == old(image).pix(i2, j2),
                        decreases q.boxes@.len() - bi,
                    {
                        let tb = q.boxes[bi];
                        let is_correct = k[v as usize][i].correct(tb.value);
                        let chosen = ch.len() == 1 && vec_contains(&ch, tb.value);
                        let a2 = self.transform(tb.a);
                        let b2 = self.transform(tb.b);
                        let ghost pre = *image;
                        if is_correct {
                            image.replace_colour(a2.x, a2.y, b2.x, b2.y, white, correct_bg);
                            if chosen {
                                image.replace_colour(a2.x, a2.y, b2.x, b2.y, black, correct_fg);
                            }
                        } else {
                            image.replace_colour(a2.x, a2.y, b2.x, b2.y, white, wrong_bg);
                            if chosen {
                                image.replace_colour(a2.x, a2.y, b2.x, b2.y, black, wrong_fg);
                            }
                        }
                        assert forall|i2: int, j2: int| !annotation_region(*self, i2, j2)
                            implies #[trigger] image.pix(i2, j2) == old(image).pix(i2, j2) by {
                            if crate::rgb::in_clipped_rect(i2, j2, a2.x as int, a2.y as int,
                                b2.x as int, b2.y as int, pre.width as int,
                                pre.height as int) {
                                assert(in_box_region(*self,
                                    self.template.questions@[qi].boxes@[bi as int], i2, j2));
                            }
                            assert(image.pix(i2, j2) == pre.pix(i2, j2));
                        }
                        bi = bi + 1;
                    }
                }
                i = i + 1;
            }
        }
        let mut i: usize = 0;
        while i < self.template.id_questions.len()
            invariant
                self.wf(),
                image.wf(),
                image.width == old(image).width,
                image.height == old(image).height,
                old(image).width > 0,
                old(image).height > 0,
                old(image).width == self.scan.image.spec_width(),
                old(image).height == self.scan.image.spec_height(),
                forall|i2: int, j2: int| !annotation_region(*self, i2, j2)
                    ==> #[trigger] image.pix(i2, j2) == old(image).pix(i2, j2),
            decreases self.template.id_questions@.len() - i,
        {
            let q = &self.template.id_questions[i];
            let ghost qi = i as int;
            let ch = q.choices(self);
            if ch.len() == 1 {
                if (ch[0] as usize) < q.boxes.len() {
                    let bidx = ch[0] as usize;
                    let tb = q.boxes[bidx];
                    let a = self.transform(tb.a);
                    let b = self.transform(tb.b);
                    let ghost pre = *image;
                    image.replace_colour(a.x, a.y, b.x, b.y, black, highlight_fg);
                    assert forall|i2: int, j2: int| !annotation_region(*self, i2, j2)
                        implies #[trigger] image.pix(i2, j2) == old(image).pix(i2, j2) by {
                        if crate::rgb::in_clipped_rect(i2, j2, a.x as int, a.y as int,
                            b.x as int, b.y as int, pre.width as int, pre.height as int) {
                            assert(in_box_region(*self,
                                self.template.id_questions@[qi].boxes@[bidx as int], i2, j2));
                        }
                        assert(image.pix(i2, j2) == pre.pix(i2, j2));
                    }
                }
            } else if ch.len() > 1 && q.boxes.len() > 0 {
                let a = self.transform(q.boxes[0].a);
                let b = self.transform(q.boxes[q.boxes.len() - 1].b);
                let ghost pre = *image;
                Self::mark_issue_with_highlight_box(image, a, b);
                assert forall|i2: int, j2: int| !annotation_region(*self, i2, j2)
                    implies #[trigger] image.pix(i2, j2) == old(image).pix(i2, j2) by {
                    if crate::rgb::in_clipped_rect(i2, j2, a.x as int, a.y as int,
                        b.x as int, b.y as int, pre.width as int, pre.height as int) {
                        assert(in_row_region(*self, self.template.id_questions@[qi], i2, j2));
                    }
                    assert(image.pix(i2, j2) == pre.pix(i2, j2));
                }
            }
            i = i + 1;
        }
    }

    /// Render a preview that marks every registration ring and circles
    /// every bubble of the template.
    pub fn circle_everything(&self) -> (r: RgbBitmap)
        requires
            self.wf(),
        ensures
            r.wf(),
            r.width == self.scan.image.spec_width(),
            r.height == self.scan.image.spec_height(),
    {
        let red: (u8, u8, u8) = (255, 0, 0);
        let green: (u8, u8, u8) = (0, 255, 0);
        let mut image = rgb_from_bitmap(&self.scan.image);
        let mut ci: usize = 0;
        while ci < self.template.circle_centers.len()
            invariant
                self.wf(),
                image.wf(),
                image.width == self.scan.image.spec_width(),
                image.height == self.scan.image.spec_height(),
            decreases self.template.circle_centers@.len() - ci,
        {
            let c = self.template.circle_centers[ci];
            let coord = self.transform(c);
            image.draw_cross(coord, red);
            let mut ri: u32 = 0;
            while ri < 4
                invariant
                    self.wf(),
                    coord.in_range(),
                    image.wf(),
                    image.width == self.scan.image.spec_width(),
                    image.height == self.scan.image.spec_height(),
                    ri <= 4,
                decreases 4 - ri,
            {
                image.draw_ring(coord, self.template.circle_radius + ri, green);
                ri = ri + 1;
            }
            ci = ci + 1;
        }
        self.ring_questions(&mut image, &self.template.questions, green);
        let version_qs = self.single_question_vec();
        self.ring_questions(&mut image, &version_qs, green);
        self.ring_questions(&mut image, &self.template.id_questions, green);
        image
    }

    /// The version selector as a one-element group, for uniform treatment.
    fn single_question_vec(&self) -> (r: Vec<Question>)
        requires
            self.wf(),
        ensures
            r@.len() == 1,
            r@[0].wf(),
    {
        let mut v: Vec<Question> = Vec::new();
        let q = Question { boxes: self.template.version.boxes.clone() };
        proof {
            assert(self.template.version.wf());
            assert(q.wf());
        }
        v.push(q);
        v
    }

    /// Circle every bubble of the given question group.
    fn ring_questions(&self, image: &mut RgbBitmap, qs: &Vec<Question>, colour: (u8, u8, u8))
        requires
            self.wf(),
            old(image).wf(),
            forall|i: int| 0 <= i < qs@.len() ==> (#[trigger] qs@[i]).wf(),
        ensures
            final(image).wf(),
            final(image).width == old(image).width,
            final(image).height == old(image).height,
    {
        let mut i: usize = 0;
        while i < qs.len()
            invariant
                self.wf(),
                image.wf(),
                image.width == old(image).width,
                image.height == old(image).height,
                forall|j: int| 0 <= j < qs@.len() ==> (#[trigger] qs@[j]).wf(),
            decreases qs@.len() - i,
        {
            let q = &qs[i];
            let mut bi: usize = 0;
            while bi < q.boxes.len()
                invariant
                    self.wf(),
                    q.wf(),
                    image.wf(),
                    image.width == old(image).width,
                    image.height == old(image).height,
                decreases q.boxes@.len() - bi,
            {
                let tb = q.boxes[bi];
                let rw: u32 = if tb.b.x >= tb.a.x { (tb.b.x - tb.a.x) / 3 } else { 0 };
                let radius: u32 = if rw < 0x100000 { rw } else { 0xFFFFF };
                let center = Point {
                    x: (tb.a.x + tb.b.x) / 2,
                    y: (tb.a.y + tb.b.y) / 2,
                };
                image.draw_ring(center, radius, colour);
                bi = bi + 1;
            }
            i = i + 1;
        }
    }
}

/// Does the vector contain the value?
fn vec_contains(v: &Vec<u32>, x: u32) -> (r: bool)
    ensures
        r == v@.contains(x),
{
    let mut i: usize = 0;
    while i < v.len()
        invariant
            0 <= i <= v@.len(),
            forall|j: int| 0 <= j < i ==> v@[j] != x,
        decreases v@.len() - i,
    {
        if v[i] == x {
            return true;
        }
        i = i + 1;
    }
    false
}

} // verus!
