//! The per-page scoring report.
//!
//! A report carries the annotated raster together with the decisions made
//! for the page: the decoded student number, the detected version, one
//! score entry per question, and the check-by-hand flag.  The file name and the
//! serializable row are assembled from those decisions alone.

use vstd::prelude::*;
use crate::rgb::RgbBitmap;

verus! {

/// The decimal digit character for one digit value.
pub open spec fn digit_char(d: int) -> char {
    if d == 0 { '0' } else if d == 1 { '1' } else if d == 2 { '2' } else if d == 3 { '3' }
    else if d == 4 { '4' } else if d == 5 { '5' } else if d == 6 { '6' } else if d == 7 { '7' }
    else if d == 8 { '8' } else { '9' }
}

/// The decimal representation of a non-negative number.
pub open spec fn dec_str(n: int) -> Seq<char>
    decreases n,
{
    if n < 10 {
        seq![digit_char(n)]
    } else {
        dec_str(n / 10) + seq![digit_char(n % 10)]
    }
}

/// One decimal digit as a string.
fn digit_string(d: u32) -> (r: String)
    requires
        d < 10,
    ensures
        r@ == seq![digit_char(d as int)],
{
    proof {
        reveal_strlit("0");
        reveal_strlit("1");
        reveal_strlit("2");
        reveal_strlit("3");
        reveal_strlit("4");
        reveal_strlit("5");
        reveal_strlit("6");
        reveal_strlit("7");
        reveal_strlit("8");
        reveal_strlit("9");
    }
    let s: &str = if d == 0 { "0" } else if d == 1 { "1" } else if d == 2 { "2" }
        else if d == 3 { "3" } else if d == 4 { "4" } else if d == 5 { "5" }
        else if d == 6 { "6" } else if d == 7 { "7" } else if d == 8 { "8" } else { "9" };
    let r = String::from_str(s);
    proof {
        assert(r@ =~= seq![digit_char(d as int)]);
    }
    r
}

/// A number rendered in decimal.
pub fn u32_to_string(n: u32) -> (r: String)
    ensures
        r@ == dec_str(n as int),
    decreases n,
{
    if n < 10 {
        digit_string(n)
    } else {
        let mut r = u32_to_string(n / 10);
        let last = digit_string(n % 10);
        r.append(last.as_str());
        proof {
            assert(r@ =~= dec_str(n as int));
        }
        r
    }
}

/// The annotated raster and the decisions for one scanned page.
#[derive(Debug)]
pub struct ImageReport {
    pub image: RgbBitmap,
    pub sid: Option<u32>,
    pub version: Option<u32>,
    pub issue: bool,
    pub scores: Vec<Option<u32>>,
    pub identifier: String,
}

/// Total of the scored entries among the first `n` (unscored questions
/// contribute nothing).
pub open spec fn score_upto(s: Seq<Option<u32>>, n: int) -> int
    decreases n,
{
    if n <= 0 {
        0
    } else {
        score_upto(s, n - 1) + match s[n - 1] {
            Some(v) => v as int,
            None => 0,
        }
    }
}

/// With one point per question at most, the total is bounded by the number
/// of questions.
proof fn lemma_score_upto_bound(s: Seq<Option<u32>>, n: int)
    requires
        n >= 0,
        forall|i: int| 0 <= i < s.len() ==> ((#[trigger] s[i]) matches Some(v) ==> v <= 1),
        n <= s.len(),
    ensures
        0 <= score_upto(s, n) <= n,
    decreases n,
{
    if n > 0 {
        lemma_score_upto_bound(s, n - 1);
    }
}

impl ImageReport {
    /// Scores carry at most one point per question, and not absurdly many
    /// questions.
    pub open spec fn wf(self) -> bool {
        &&& self.image.wf()
        &&& self.scores@.len() < 0x40000000
        &&& forall|i: int| 0 <= i < self.scores@.len()
            ==> ((#[trigger] self.scores@[i]) matches Some(v) ==> v <= 1)
    }

    /// The page's total score: the sum of the scored entries.
    pub fn score(&self) -> (r: u32)
        requires
            self.wf(),
        ensures
            r == score_upto(self.scores@, self.scores@.len() as int),
    {
        let mut total: u32 = 0;
        let mut i: usize = 0;
        while i < self.scores.len()
            invariant
                self.wf(),
                0 <= i <= self.scores@.len(),
                total == score_upto(self.scores@, i as int),
                total <= i,
            decreases self.scores@.len() - i,
        {
            proof {
                lemma_score_upto_bound(self.scores@, i + 1);
            }
            match self.scores[i] {
                Some(v) => {
                    if v <= 1 {
                        total = total + v;
                    }
                },
                None => {},
            }
            i = i + 1;
        }
        total
    }

    /// The name the report is saved under: the check-by-hand flag, the student
    /// number or `NOID`, the version or `NOVERSION`, the score and the page
    /// identifier.
    pub fn save_filename(&self, prefix: &String) -> (r: String)
        requires
            self.wf(),
        ensures
            r@ == save_filename_spec(*self, prefix@),
    {
        let mut r = String::new();
        r.append(prefix.as_str());
        if self.issue {
            r.append("GRADE_BY_HAND-");
        }
        match self.sid {
            Some(id) => {
                let ids = u32_to_string(id);
                r.append(ids.as_str());
                r.append("-");
            },
            None => {
                r.append("NOID-");
            },
        }
        match self.version {
            Some(v) => {
                r.append("v");
                let vs = u32_to_string(v);
                r.append(vs.as_str());
                r.append("-");
            },
            None => {
                r.append("NOVERSION-");
            },
        }
        r.append("score");
        let sc = self.score();
        proof {
            lemma_score_upto_bound(self.scores@, self.scores@.len() as int);
        }
        let scs = u32_to_string(sc);
        r.append(scs.as_str());
        r.append("-");
        r.append(self.identifier.as_str());
        r.append(".png");
        proof {
            assert(r@ =~= save_filename_spec(*self, prefix@));
        }
        r
    }

    /// The report as one row of strings: file name, student number, score,
    /// version, then one entry per question (absent decisions are empty
    /// strings).
    pub fn to_serializable_vector(&self) -> (r: Vec<String>)
        requires
            self.wf(),
        ensures
            r@.len() == 4 + self.scores@.len(),
            r@[0]@ == save_filename_spec(*self, Seq::<char>::empty()),
            r@[1]@ == opt_dec_str(self.sid),
            r@[2]@ == dec_str(score_upto(self.scores@, self.scores@.len() as int)),
            r@[3]@ == opt_dec_str(self.version),
            forall|i: int| 0 <= i < self.scores@.len()
                ==> (#[trigger] r@[4 + i])@ == opt_dec_str(self.scores@[i]),
    {
        let mut r: Vec<String> = Vec::new();
        let empty = String::new();
        r.push(self.save_filename(&empty));
        r.push(opt_to_string(self.sid));
        proof {
            lemma_score_upto_bound(self.scores@, self.scores@.len() as int);
        }
        r.push(u32_to_string(self.score()));
        r.push(opt_to_string(self.version));
        let mut i: usize = 0;
        while i < self.scores.len()
            invariant
                self.wf(),
                0 <= i <= self.scores@.len(),
                r@.len() == 4 + i,
                r@[0]@ == save_filename_spec(*self, Seq::<char>::empty()),
                r@[1]@ == opt_dec_str(self.sid),
                r@[2]@ == dec_str(score_upto(self.scores@, self.scores@.len() as int)),
                r@[3]@ == opt_dec_str(self.version),
                forall|k: int| 0 <= k < i
                    ==> (#[trigger] r@[4 + k])@ == opt_dec_str(self.scores@[k]),
            decreases self.scores@.len() - i,
        {
            r.push(opt_to_string(self.scores[i]));
            i = i + 1;
        }
        r
    }
}

/// The decimal rendering of an optional number; absent values show as the
/// empty string.
pub open spec fn opt_dec_str(v: Option<u32>) -> Seq<char> {
    match v {
        Some(n) => dec_str(n as int),
        None => Seq::empty(),
    }
}

/// Render an optional number in decimal.
fn opt_to_string(v: Option<u32>) -> (r: String)
    ensures
        r@ == opt_dec_str(v),
{
    match v {
        Some(n) => u32_to_string(n),
        None => {
            let r = String::new();
            proof {
                assert(r@ =~= opt_dec_str(v));
            }
            r
        },
    }
}

/// The report's file name as a character sequence.
pub open spec fn save_filename_spec(rep: ImageReport, prefix: Seq<char>) -> Seq<char> {
    prefix
        + (if rep.issue { "GRADE_BY_HAND-"@ } else { Seq::<char>::empty() })
        + (match rep.sid {
            Some(id) => dec_str(id as int) + "-"@,
            None => "NOID-"@,
        })
        + (match rep.version {
            Some(v) => "v"@ + dec_str(v as int) + "-"@,
            None => "NOVERSION-"@,
        })
        + "score"@ + dec_str(score_upto(rep.scores@, rep.scores@.len() as int))
        + "-"@ + rep.identifier@ + ".png"@
}

} // verus!
