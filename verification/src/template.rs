//! The form layout, the exam key, and the bubble-decision policy.
//!
//! A template describes where the answer bubbles and the registration marks
//! sit in the idealized page coordinate system.  The decision policy turns
//! the exact per-bubble ink fractions into selected answer values with an
//! adaptive threshold, and an exam key says which values count as correct.

use vstd::prelude::*;
use crate::frac::Frac;
use crate::frac::above_adaptive_threshold;
use crate::frac::frac_gt;
use crate::frac::is_above_adaptive_threshold;
use crate::frac::is_frac_gt;
use crate::point::Point;
use crate::scan::blackness_spec;
use crate::template_scan::TemplateScan;
use crate::template_scan::transform_spec;

verus! {

/// The answers accepted for one question in one exam version: either one
/// exact value or any member of a set of values.
#[derive(Debug, Clone)]
pub enum CorrectAnswer {
    Exactly(u32),
    OneOf(Vec<u32>),
}

impl CorrectAnswer {
    /// The values this entry accepts.
    pub open spec fn accepted(self) -> Seq<u32> {
        match self {
            CorrectAnswer::Exactly(n) => seq![n],
            CorrectAnswer::OneOf(v) => v@,
        }
    }

    /// Does this entry accept the given answer value?
    pub fn correct(&self, answer: u32) -> (r: bool)
        ensures
            r == self.accepted().contains(answer),
    {
        match self {
            CorrectAnswer::Exactly(this) => {
                let hit = *this == answer;
                proof {
                    if hit {
                        assert(self.accepted()[0] == answer);
                    }
                }
                hit
            },
            CorrectAnswer::OneOf(these) => {
                let mut i: usize = 0;
                while i < these.len()
                    invariant
                        0 <= i <= these@.len(),
                        self.accepted() == these@,
                        forall|k: int| 0 <= k < i ==> these@[k] != answer,
                    decreases these@.len() - i,
                {
                    if these[i] == answer {
                        assert(self.accepted()[i as int] == answer);
                        return true;
                    }
                    i = i + 1;
                }
                false
            },
        }
    }

    /// The accepted values as a vector (one value for `Exactly`, all of
    /// them for `OneOf`).
    pub fn iter(&self) -> (r: Vec<u32>)
        ensures
            r@ == self.accepted(),
    {
        match self {
            CorrectAnswer::Exactly(one) => {
                let mut v: Vec<u32> = Vec::new();
                v.push(*one);
                proof {
                    assert(v@ =~= self.accepted());
                }
                v
            },
            CorrectAnswer::OneOf(many) => many.clone(),
        }
    }
}

/// Per-version lists of correct answers, indexed by version then question.
pub type ExamKey = Vec<Vec<CorrectAnswer>>;

/// One answer bubble: the two template-space corners of its rectangle and
/// the answer value that filling it encodes.
#[derive(Debug, Clone, Copy)]
pub struct Box {
    pub a: Point,
    pub b: Point,
    pub value: u32,
}

impl Box {
    /// Both corners lie in the coordinate range of the geometry.
    pub open spec fn wf(self) -> bool {
        self.a.in_range() && self.b.in_range()
    }

    /// The exact ink fraction of this bubble on the page, measured through
    /// the page transformation.
    pub open spec fn blackness_of(self, ts: TemplateScan) -> Frac {
        blackness_spec(ts.scan.image, transform_spec(ts, self.a), transform_spec(ts, self.b))
    }

    /// Measure the bubble's ink fraction on the scanned page.
    pub fn blackness(&self, template_scan: &TemplateScan) -> (r: Frac)
        requires
            template_scan.wf(),
            self.wf(),
        ensures
            r.wf(),
            r == self.blackness_of(*template_scan),
    {
        let a = template_scan.transform(self.a);
        let b = template_scan.transform(self.b);
        template_scan.scan.blackness(a, b)
    }

    /// The bubble counts as checked when its ink fraction exceeds `0.30`.
    pub fn checked(self, template_scan: &TemplateScan) -> (r: bool)
        requires
            template_scan.wf(),
            self.wf(),
        ensures
            r == frac_gt(self.blackness_of(*template_scan), 3, 10),
    {
        let f = self.blackness(template_scan);
        is_frac_gt(f, 3, 10)
    }
}

/// An ordered group of bubbles sharing one semantic slot: one exam
/// question, one student-number digit position, or the version selector.
#[derive(Debug, Clone)]
pub struct Question {
    pub boxes: Vec<Box>,
}

/// The per-bubble ink fractions of a question.
pub open spec fn blacknesses_spec(ts: TemplateScan, q: Question) -> Seq<Frac> {
    Seq::new(q.boxes@.len(), |i: int| q.boxes@[i].blackness_of(ts))
}

/// The smallest of the first `n` fractions.
pub open spec fn min_upto(s: Seq<Frac>, n: int) -> Frac
    decreases n,
{
    if n <= 1 {
        s[0]
    } else {
        let p = min_upto(s, n - 1);
        if s[n - 1].spec_lt(p) { s[n - 1] } else { p }
    }
}

/// The largest of the first `n` fractions.
pub open spec fn max_upto(s: Seq<Frac>, n: int) -> Frac
    decreases n,
{
    if n <= 1 {
        s[0]
    } else {
        let p = max_upto(s, n - 1);
        if p.spec_lt(s[n - 1]) { s[n - 1] } else { p }
    }
}

/// Bubble `i` of the question is selected: its ink fraction exceeds the
/// adaptive threshold `min + 0.6 * (max - min)` and the darkest bubble of
/// the question exceeds the absolute guard `0.45` (without the guard, pure
/// scanner noise on an empty question could trip the relative threshold).
pub open spec fn selected(bl: Seq<Frac>, mn: Frac, mx: Frac, i: int) -> bool {
    above_adaptive_threshold(bl[i], mn, mx) && frac_gt(mx, 9, 20)
}

/// The values of the selected bubbles among the first `n`, in box order.
pub open spec fn selected_upto(q: Question, bl: Seq<Frac>, mn: Frac, mx: Frac, n: int) -> Seq<u32>
    decreases n,
{
    if n <= 0 {
        Seq::empty()
    } else {
        selected_upto(q, bl, mn, mx, n - 1)
            + if selected(bl, mn, mx, n - 1) { seq![q.boxes@[n - 1].value] } else { Seq::empty() }
    }
}

/// The selected answer values of a question: empty for a question with no
/// boxes, otherwise every box value whose ink fraction clears both the
/// adaptive threshold and the absolute guard.
pub open spec fn choices_spec(ts: TemplateScan, q: Question) -> Seq<u32> {
    if q.boxes@.len() == 0 {
        Seq::empty()
    } else {
        let bl = blacknesses_spec(ts, q);
        let mn = min_upto(bl, bl.len() as int);
        let mx = max_upto(bl, bl.len() as int);
        selected_upto(q, bl, mn, mx, bl.len() as int)
    }
}

/// The single selected value of a question, or `None` when none or more
/// than one bubble is selected.
pub open spec fn choice_spec(ts: TemplateScan, q: Question) -> Option<u32> {
    if choices_spec(ts, q).len() == 1 {
        Some(choices_spec(ts, q)[0])
    } else {
        None
    }
}

impl Question {
    /// Every box is within the coordinate range.
    pub open spec fn wf(self) -> bool {
        forall|i: int| 0 <= i < self.boxes@.len() ==> (#[trigger] self.boxes@[i]).wf()
    }

    /// The per-bubble ink fractions, in box order.
    fn blacknesses(&self, template_scan: &TemplateScan) -> (r: Vec<Frac>)
        requires
            template_scan.wf(),
            self.wf(),
        ensures
            r@ == blacknesses_spec(*template_scan, *self),
            forall|i: int| 0 <= i < r@.len() ==> (#[trigger] r@[i]).wf(),
    {
        let mut out: Vec<Frac> = Vec::new();
        let mut i: usize = 0;
        while i < self.boxes.len()
            invariant
                template_scan.wf(),
                self.wf(),
                0 <= i <= self.boxes@.len(),
                out@.len() == i,
                forall|k: int| 0 <= k < i ==>
                    (#[trigger] out@[k]) == self.boxes@[k].blackness_of(*template_scan),
                forall|k: int| 0 <= k < i ==> (#[trigger] out@[k]).wf(),
            decreases self.boxes@.len() - i,
        {
            let b = self.boxes[i];
            out.push(b.blackness(template_scan));
            i = i + 1;
        }
        proof {
            assert(out@ =~= blacknesses_spec(*template_scan, *self));
        }
        out
    }

    /// The per-bubble ink fractions as rounded percentages, for diagnostic
    /// displays.
    pub fn blacknesses_rounded(&self, template_scan: &TemplateScan) -> (r: Vec<u32>)
        requires
            template_scan.wf(),
            self.wf(),
        ensures
            r@.len() == self.boxes@.len(),
            forall|i: int| 0 <= i < r@.len() ==>
                #[trigger] r@[i] == percent_of(blacknesses_spec(*template_scan, *self)[i]),
    {
        let bl = self.blacknesses(template_scan);
        let mut out: Vec<u32> = Vec::new();
        let mut i: usize = 0;
        while i < bl.len()
            invariant
                0 <= i <= bl@.len(),
                bl@ == blacknesses_spec(*template_scan, *self),
                bl@.len() == self.boxes@.len(),
                forall|k: int| 0 <= k < bl@.len() ==> (#[trigger] bl@[k]).wf(),
                out@.len() == i,
                forall|k: int| 0 <= k < i ==>
                    #[trigger] out@[k] == percent_of(bl@[k]),
            decreases bl@.len() - i,
        {
            let f = bl[i];
            let pct: u64 = (200 * f.num + f.den) / (2 * f.den);
            proof {
                crate::frac::lemma_percent_range(f);
            }
            out.push(pct as u32);
            i = i + 1;
        }
        out
    }

    /// The selected answer values of this question on the page.
    pub fn choices(&self, template_scan: &TemplateScan) -> (r: Vec<u32>)
        requires
            template_scan.wf(),
            self.wf(),
        ensures
            r@ == choices_spec(*template_scan, *self),
    {
        let mut out: Vec<u32> = Vec::new();
        if self.boxes.len() == 0 {
            return out;
        }
        let bl = self.blacknesses(template_scan);
        let mut mn: Frac = bl[0];
        let mut mx: Frac = bl[0];
        let mut i: usize = 1;
        while i < bl.len()
            invariant
                1 <= i <= bl@.len(),
                bl@.len() >= 1,
                forall|k: int| 0 <= k < bl@.len() ==> (#[trigger] bl@[k]).wf(),
                mn == min_upto(bl@, i as int),
                mx == max_upto(bl@, i as int),
                mn.wf(),
                mx.wf(),
            decreases bl@.len() - i,
        {
            let f = bl[i];
            if f.lt(mn) {
                mn = f;
            }
            if mx.lt(f) {
                mx = f;
            }
            i = i + 1;
        }
        let mut k: usize = 0;
        while k < bl.len()
            invariant
                template_scan.wf(),
                self.wf(),
                0 <= k <= bl@.len(),
                bl@ == blacknesses_spec(*template_scan, *self),
                bl@.len() == self.boxes@.len(),
                forall|j: int| 0 <= j < bl@.len() ==> (#[trigger] bl@[j]).wf(),
                mn == min_upto(bl@, bl@.len() as int),
                mx == max_upto(bl@, bl@.len() as int),
                mn.wf(),
                mx.wf(),
                out@ == selected_upto(*self, bl@, mn, mx, k as int),
            decreases bl@.len() - k,
        {
            let f = bl[k];
            if is_above_adaptive_threshold(f, mn, mx) && is_frac_gt(mx, 9, 20) {
                out.push(self.boxes[k].value);
            }
            proof {
                assert(out@ =~= selected_upto(*self, bl@, mn, mx, k + 1));
            }
            k = k + 1;
        }
        out
    }

    /// The single selected value, or `None` when the question is empty or
    /// ambiguous.
    pub fn choice(&self, template_scan: &TemplateScan) -> (r: Option<u32>)
        requires
            template_scan.wf(),
            self.wf(),
        ensures
            r == choice_spec(*template_scan, *self),
    {
        let choices = self.choices(template_scan);
        if choices.len() == 1 {
            Some(choices[0])
        } else {
            None
        }
    }
}

/// The ink fraction as a percentage rounded to the nearest point.
pub open spec fn percent_of(f: Frac) -> int {
    (200 * f.num + f.den) / (2 * f.den)
}

/// The full form layout: bubble groups for the student number, the version
/// selector and the exam questions, the template-space positions of the
/// three registration rings, their nominal radius, and the page size the
/// template was designed for.
#[derive(Debug, Clone)]
pub struct Template {
    pub id_questions: Vec<Question>,
    pub version: Question,
    pub questions: Vec<Question>,
    pub circle_centers: Vec<Point>,
    pub circle_radius: u32,
    pub height: u32,
    pub width: u32,
}

impl Template {
    /// Exactly three registration marks, all coordinates in range, a
    /// usable nominal radius, and a non-degenerate page size.
    pub open spec fn wf(self) -> bool {
        &&& self.circle_centers@.len() == 3
        &&& forall|i: int| 0 <= i < 3 ==> (#[trigger] self.circle_centers@[i]).in_range()
        &&& forall|i: int| 0 <= i < self.id_questions@.len()
            ==> (#[trigger] self.id_questions@[i]).wf()
        &&& self.version.wf()
        &&& forall|i: int| 0 <= i < self.questions@.len()
            ==> (#[trigger] self.questions@[i]).wf()
        &&& self.questions@.len() < 0x10000
        &&& self.id_questions@.len() < 0x10000
        &&& 0 < self.circle_radius <= 0xF0000
        &&& 0 < self.height < 0x8000
        &&& 0 < self.width < 0x8000
    }
}

/// The template and the key fit together: one key version per version
/// selector bubble, at least one version, and one answer entry per exam
/// question in every version.
pub open spec fn compatible_spec(t: Template, k: Seq<Vec<CorrectAnswer>>) -> bool {
    &&& k.len() == t.version.boxes@.len()
    &&& k.len() > 0
    &&& forall|i: int| 0 <= i < k.len() ==> (#[trigger] k[i])@.len() == t.questions@.len()
}

/// Check that a template and an exam key are compatible: the number of key
/// versions must match the version selector, and every version must answer
/// every question.  Run this before any batch scoring.
pub fn are_compatible(t: &Template, k: &ExamKey) -> (r: bool)
    ensures
        r == compatible_spec(*t, k@),
{
    if k.len() != t.version.boxes.len() {
        return false;
    }
    if k.len() == 0 {
        return false;
    }
    let mut i: usize = 0;
    while i < k.len()
        invariant
            0 <= i <= k@.len(),
            forall|j: int| 0 <= j < i ==> (#[trigger] k@[j])@.len() == t.questions@.len(),
        decreases k@.len() - i,
    {
        if k[i].len() != t.questions.len() {
            return false;
        }
        i = i + 1;
    }
    true
}

} // verus!
