//! The JSON wire format of templates and exam keys.
//!
//! Templates and keys travel as compact JSON: objects with fixed field
//! order for the structured types, plain numbers, and the answer entries
//! untagged (a bare number for an exact answer, an array for a set of
//! acceptable ones).  The serializer produces the canonical byte form.
//! The parser mirrors the grammar as spec-level acceptance functions, so
//! each decoder succeeds exactly on the inputs its grammar accepts, every
//! serialized value is accepted, and a decoded value re-serializes to the
//! input byte for byte.

use vstd::prelude::*;
use crate::point::Point;
use crate::template::Box;
use crate::template::CorrectAnswer;
use crate::template::ExamKey;
use crate::template::Question;
use crate::template::Template;
use crate::template_scan::pow10_of;

verus! {

/// The byte is a decimal digit.
pub open spec fn is_digit(b: u8) -> bool {
    48 <= b <= 57
}

/// The decimal digits of a non-negative number.
pub open spec fn dec_bytes(n: int) -> Seq<u8>
    decreases n,
{
    if n < 10 {
        seq![(48 + n) as u8]
    } else {
        dec_bytes(n / 10) + seq![(48 + n % 10) as u8]
    }
}

/// Serialize a number as decimal digits.
pub fn write_u32(out: &mut Vec<u8>, n: u32)
    ensures
        final(out)@ == old(out)@ + dec_bytes(n as int),
    decreases n,
{
    if n < 10 {
        out.push(48 + (n as u8));
        assert(final(out)@ =~= old(out)@ + dec_bytes(n as int));
    } else {
        write_u32(out, n / 10);
        out.push(48 + ((n % 10) as u8));
        assert(final(out)@ =~= old(out)@ + dec_bytes(n as int));
    }
}

/// `{"x":N,"y":N}`.
pub open spec fn ser_point(p: Point) -> Seq<u8> {
    seq![123u8, 34u8, 120u8, 34u8, 58u8] + dec_bytes(p.x as int)
        + seq![44u8, 34u8, 121u8, 34u8, 58u8] + dec_bytes(p.y as int)
        + seq![125u8]
}

/// Serialize a point.
pub fn write_point(out: &mut Vec<u8>, p: Point)
    ensures
        final(out)@ == old(out)@ + ser_point(p),
{
    out.push(123);
    out.push(34);
    out.push(120);
    out.push(34);
    out.push(58);
    write_u32(out, p.x);
    out.push(44);
    out.push(34);
    out.push(121);
    out.push(34);
    out.push(58);
    write_u32(out, p.y);
    out.push(125);
    assert(final(out)@ =~= old(out)@ + ser_point(p));
}

/// `{"a":P,"b":P,"value":N}`.
pub open spec fn ser_box(b: Box) -> Seq<u8> {
    seq![123u8, 34u8, 97u8, 34u8, 58u8] + ser_point(b.a)
        + seq![44u8, 34u8, 98u8, 34u8, 58u8] + ser_point(b.b)
        + seq![44u8, 34u8, 118u8, 97u8, 108u8, 117u8, 101u8, 34u8, 58u8]
        + dec_bytes(b.value as int) + seq![125u8]
}

/// Serialize a bubble.
pub fn write_box(out: &mut Vec<u8>, b: &Box)
    ensures
        final(out)@ == old(out)@ + ser_box(*b),
{
    out.push(123);
    out.push(34);
    out.push(97);
    out.push(34);
    out.push(58);
    write_point(out, b.a);
    out.push(44);
    out.push(34);
    out.push(98);
    out.push(34);
    out.push(58);
    write_point(out, b.b);
    out.push(44);
    out.push(34);
    out.push(118);
    out.push(97);
    out.push(108);
    out.push(117);
    out.push(101);
    out.push(34);
    out.push(58);
    write_u32(out, b.value);
    out.push(125);
    assert(final(out)@ =~= old(out)@ + ser_box(*b));
}

/// The comma-separated serializations of the first `n` bubbles.
pub open spec fn ser_box_items(bs: Seq<Box>, n: int) -> Seq<u8>
    decreases n,
{
    if n <= 0 {
        Seq::empty()
    } else if n == 1 {
        ser_box(bs[0])
    } else {
        ser_box_items(bs, n - 1) + seq![44u8] + ser_box(bs[n - 1])
    }
}

/// `{"boxes":[B,...]}`.
pub open spec fn ser_question(q: Question) -> Seq<u8> {
    seq![123u8, 34u8, 98u8, 111u8, 120u8, 101u8, 115u8, 34u8, 58u8, 91u8]
        + ser_box_items(q.boxes@, q.boxes@.len() as int) + seq![93u8, 125u8]
}

/// Serialize a question.
pub fn write_question(out: &mut Vec<u8>, q: &Question)
    ensures
        final(out)@ == old(out)@ + ser_question(*q),
{
    out.push(123);
    out.push(34);
    out.push(98);
    out.push(111);
    out.push(120);
    out.push(101);
    out.push(115);
    out.push(34);
    out.push(58);
    out.push(91);
    let mut i: usize = 0;
    while i < q.boxes.len()
        invariant
            0 <= i <= q.boxes@.len(),
            out@ == old(out)@
                + seq![123u8, 34u8, 98u8, 111u8, 120u8, 101u8, 115u8, 34u8, 58u8, 91u8]
                + ser_box_items(q.boxes@, i as int),
        decreases q.boxes@.len() - i,
    {
        if i > 0 {
            out.push(44);
        }
        write_box(out, &q.boxes[i]);
        proof {
            if i == 0 {
                assert(out@ =~= old(out)@
                    + seq![123u8, 34u8, 98u8, 111u8, 120u8, 101u8, 115u8, 34u8, 58u8, 91u8]
                    + ser_box_items(q.boxes@, i + 1));
            } else {
                assert(out@ =~= old(out)@
                    + seq![123u8, 34u8, 98u8, 111u8, 120u8, 101u8, 115u8, 34u8, 58u8, 91u8]
                    + ser_box_items(q.boxes@, i + 1));
            }
        }
        i = i + 1;
    }
    out.push(93);
    out.push(125);
    assert(final(out)@ =~= old(out)@ + ser_question(*q));
}

/// The comma-separated serializations of the first `n` questions.
pub open spec fn ser_question_items(qs: Seq<Question>, n: int) -> Seq<u8>
    decreases n,
{
    if n <= 0 {
        Seq::empty()
    } else if n == 1 {
        ser_question(qs[0])
    } else {
        ser_question_items(qs, n - 1) + seq![44u8] + ser_question(qs[n - 1])
    }
}

/// Serialize a question list (without brackets).
fn write_question_items(out: &mut Vec<u8>, qs: &Vec<Question>)
    ensures
        final(out)@ == old(out)@ + ser_question_items(qs@, qs@.len() as int),
{
    let mut i: usize = 0;
    while i < qs.len()
        invariant
            0 <= i <= qs@.len(),
            out@ == old(out)@ + ser_question_items(qs@, i as int),
        decreases qs@.len() - i,
    {
        if i > 0 {
            out.push(44);
        }
        write_question(out, &qs[i]);
        proof {
            assert(out@ =~= old(out)@ + ser_question_items(qs@, i + 1));
        }
        i = i + 1;
    }
}

/// The comma-separated serializations of the first `n` points.
pub open spec fn ser_point_items(ps: Seq<Point>, n: int) -> Seq<u8>
    decreases n,
{
    if n <= 0 {
        Seq::empty()
    } else if n == 1 {
        ser_point(ps[0])
    } else {
        ser_point_items(ps, n - 1) + seq![44u8] + ser_point(ps[n - 1])
    }
}

/// The canonical serialization of a template: an object with the fields in
/// declaration order.
pub open spec fn ser_template(t: Template) -> Seq<u8> {
    seq![123u8] + lit_id_questions() + seq![91u8]
        + ser_question_items(t.id_questions@, t.id_questions@.len() as int)
        + seq![93u8] + lit_version() + ser_question(t.version)
        + lit_questions() + seq![91u8]
        + ser_question_items(t.questions@, t.questions@.len() as int)
        + seq![93u8] + lit_circle_centers() + seq![91u8]
        + ser_point_items(t.circle_centers@, t.circle_centers@.len() as int)
        + seq![93u8] + lit_circle_radius() + dec_bytes(t.circle_radius as int)
        + lit_height() + dec_bytes(t.height as int)
        + lit_width() + dec_bytes(t.width as int)
        + seq![125u8]
}

/// `"id_questions":`.
pub open spec fn lit_id_questions() -> Seq<u8> {
    seq![34u8, 105u8, 100u8, 95u8, 113u8, 117u8, 101u8, 115u8, 116u8, 105u8, 111u8,
        110u8, 115u8, 34u8, 58u8]
}

/// `,"version":`.
pub open spec fn lit_version() -> Seq<u8> {
    seq![44u8, 34u8, 118u8, 101u8, 114u8, 115u8, 105u8, 111u8, 110u8, 34u8, 58u8]
}

/// `,"questions":`.
pub open spec fn lit_questions() -> Seq<u8> {
    seq![44u8, 34u8, 113u8, 117u8, 101u8, 115u8, 116u8, 105u8, 111u8, 110u8, 115u8,
        34u8, 58u8]
}

/// `,"circle_centers":`.
pub open spec fn lit_circle_centers() -> Seq<u8> {
    seq![44u8, 34u8, 99u8, 105u8, 114u8, 99u8, 108u8, 101u8, 95u8, 99u8, 101u8,
        110u8, 116u8, 101u8, 114u8, 115u8, 34u8, 58u8]
}

/// `,"circle_radius":`.
pub open spec fn lit_circle_radius() -> Seq<u8> {
    seq![44u8, 34u8, 99u8, 105u8, 114u8, 99u8, 108u8, 101u8, 95u8, 114u8, 97u8,
        100u8, 105u8, 117u8, 115u8, 34u8, 58u8]
}

/// `,"height":`.
pub open spec fn lit_height() -> Seq<u8> {
    seq![44u8, 34u8, 104u8, 101u8, 105u8, 103u8, 104u8, 116u8, 34u8, 58u8]
}

/// `,"width":`.
pub open spec fn lit_width() -> Seq<u8> {
    seq![44u8, 34u8, 119u8, 105u8, 100u8, 116u8, 104u8, 34u8, 58u8]
}

/// Push a literal byte run.
fn push_bytes(out: &mut Vec<u8>, bytes: &[u8])
    ensures
        final(out)@ == old(out)@ + bytes@,
{
    let mut i: usize = 0;
    while i < bytes.len()
        invariant
            0 <= i <= bytes@.len(),
            out@ == old(out)@ + bytes@.subrange(0, i as int),
        decreases bytes@.len() - i,
    {
        out.push(bytes[i]);
        proof {
            assert(out@ =~= old(out)@ + bytes@.subrange(0, i + 1));
        }
        i = i + 1;
    }
    proof {
        assert(bytes@.subrange(0, bytes@.len() as int) =~= bytes@);
    }
}

/// Serialize a template to its canonical JSON bytes.
pub fn encode_template(t: &Template) -> (r: Vec<u8>)
    ensures
        r@ == ser_template(*t),
{
    let mut out: Vec<u8> = Vec::new();
    out.push(123);
    let lit1: [u8; 15] = [34, 105, 100, 95, 113, 117, 101, 115, 116, 105, 111, 110, 115, 34, 58];
    push_bytes(&mut out, lit1.as_slice());
    proof {
        assert(lit1@ =~= lit_id_questions());
    }
    out.push(91);
    write_question_items(&mut out, &t.id_questions);
    out.push(93);
    let lit2: [u8; 11] = [44, 34, 118, 101, 114, 115, 105, 111, 110, 34, 58];
    push_bytes(&mut out, lit2.as_slice());
    proof {
        assert(lit2@ =~= lit_version());
    }
    write_question(&mut out, &t.version);
    let lit3: [u8; 13] = [44, 34, 113, 117, 101, 115, 116, 105, 111, 110, 115, 34, 58];
    push_bytes(&mut out, lit3.as_slice());
    proof {
        assert(lit3@ =~= lit_questions());
    }
    out.push(91);
    write_question_items(&mut out, &t.questions);
    out.push(93);
    let lit4: [u8; 18] = [44, 34, 99, 105, 114, 99, 108, 101, 95, 99, 101, 110, 116, 101, 114,
        115, 34, 58];
    push_bytes(&mut out, lit4.as_slice());
    proof {
        assert(lit4@ =~= lit_circle_centers());
    }
    out.push(91);
    let ghost head = out@;
    let mut i: usize = 0;
    while i < t.circle_centers.len()
        invariant
            0 <= i <= t.circle_centers@.len(),
            out@ == head + ser_point_items(t.circle_centers@, i as int),
        decreases t.circle_centers@.len() - i,
    {
        if i > 0 {
            out.push(44);
        }
        write_point(&mut out, t.circle_centers[i]);
        proof {
            assert(out@ =~= head + ser_point_items(t.circle_centers@, i + 1));
        }
        i = i + 1;
    }
    out.push(93);
    let lit5: [u8; 17] = [44, 34, 99, 105, 114, 99, 108, 101, 95, 114, 97, 100, 105, 117, 115,
        34, 58];
    push_bytes(&mut out, lit5.as_slice());
    proof {
        assert(lit5@ =~= lit_circle_radius());
    }
    write_u32(&mut out, t.circle_radius);
    let lit6: [u8; 10] = [44, 34, 104, 101, 105, 103, 104, 116, 34, 58];
    push_bytes(&mut out, lit6.as_slice());
    proof {
        assert(lit6@ =~= lit_height());
    }
    write_u32(&mut out, t.height);
    let lit7: [u8; 9] = [44, 34, 119, 105, 100, 116, 104, 34, 58];
    push_bytes(&mut out, lit7.as_slice());
    proof {
        assert(lit7@ =~= lit_width());
    }
    write_u32(&mut out, t.width);
    out.push(125);
    proof {
        assert(out@ =~= ser_template(*t));
    }
    out
}

/// One answer entry: a bare number for an exact answer, an array for a set
/// of acceptable ones.
pub open spec fn ser_answer(a: CorrectAnswer) -> Seq<u8> {
    match a {
        CorrectAnswer::Exactly(n) => dec_bytes(n as int),
        CorrectAnswer::OneOf(v) => seq![91u8] + ser_num_items(v@, v@.len() as int) + seq![93u8],
    }
}

/// The comma-separated decimal items of the first `n` numbers.
pub open spec fn ser_num_items(vs: Seq<u32>, n: int) -> Seq<u8>
    decreases n,
{
    if n <= 0 {
        Seq::empty()
    } else if n == 1 {
        dec_bytes(vs[0] as int)
    } else {
        ser_num_items(vs, n - 1) + seq![44u8] + dec_bytes(vs[n - 1] as int)
    }
}

/// The comma-separated serializations of the first `n` answer entries.
pub open spec fn ser_answer_items(vs: Seq<CorrectAnswer>, n: int) -> Seq<u8>
    decreases n,
{
    if n <= 0 {
        Seq::empty()
    } else if n == 1 {
        ser_answer(vs[0])
    } else {
        ser_answer_items(vs, n - 1) + seq![44u8] + ser_answer(vs[n - 1])
    }
}

/// The comma-separated serializations of the first `n` versions.
pub open spec fn ser_version_items(vs: Seq<Vec<CorrectAnswer>>, n: int) -> Seq<u8>
    decreases n,
{
    if n <= 0 {
        Seq::empty()
    } else if n == 1 {
        seq![91u8] + ser_answer_items(vs[0]@, vs[0]@.len() as int) + seq![93u8]
    } else {
        ser_version_items(vs, n - 1) + seq![44u8, 91u8]
            + ser_answer_items(vs[n - 1]@, vs[n - 1]@.len() as int) + seq![93u8]
    }
}

/// The canonical serialization of an exam key: an array of per-version
/// arrays of answer entries.
pub open spec fn ser_key(k: Seq<Vec<CorrectAnswer>>) -> Seq<u8> {
    seq![91u8] + ser_version_items(k, k.len() as int) + seq![93u8]
}

/// Serialize one answer entry.
fn write_answer(out: &mut Vec<u8>, a: &CorrectAnswer)
    ensures
        final(out)@ == old(out)@ + ser_answer(*a),
{
    match a {
        CorrectAnswer::Exactly(n) => {
            write_u32(out, *n);
        },
        CorrectAnswer::OneOf(v) => {
            out.push(91);
            let mut i: usize = 0;
            while i < v.len()
                invariant
                    0 <= i <= v@.len(),
                    out@ == old(out)@ + seq![91u8] + ser_num_items(v@, i as int),
                decreases v@.len() - i,
            {
                if i > 0 {
                    out.push(44);
                }
                write_u32(out, v[i]);
                proof {
                    assert(out@ =~= old(out)@ + seq![91u8] + ser_num_items(v@, i + 1));
                }
                i = i + 1;
            }
            out.push(93);
            assert(final(out)@ =~= old(out)@ + ser_answer(*a));
        },
    }
}

/// Serialize an exam key to its canonical JSON bytes.
pub fn encode_key(k: &ExamKey) -> (r: Vec<u8>)
    ensures
        r@ == ser_key(k@),
{
    let mut out: Vec<u8> = Vec::new();
    out.push(91);
    let mut i: usize = 0;
    while i < k.len()
        invariant
            0 <= i <= k@.len(),
            out@ == seq![91u8] + ser_version_items(k@, i as int),
        decreases k@.len() - i,
    {
        if i > 0 {
            out.push(44);
        }
        out.push(91);
        let version = &k[i];
        let mut j: usize = 0;
        while j < version.len()
            invariant
                0 <= i < k@.len(),
                0 <= j <= version@.len(),
                version == &k@[i as int],
                out@ == seq![91u8] + ser_version_items(k@, i as int)
                    + (if i > 0 { seq![44u8, 91u8] } else { seq![91u8] })
                    + ser_answer_items(version@, j as int),
            decreases version@.len() - j,
        {
            if j > 0 {
                out.push(44);
            }
            write_answer(&mut out, &version[j]);
            proof {
                assert(out@ =~= seq![91u8] + ser_version_items(k@, i as int)
                    + (if i > 0 { seq![44u8, 91u8] } else { seq![91u8] })
                    + ser_answer_items(version@, j + 1));
            }
            j = j + 1;
        }
        out.push(93);
        proof {
            assert(out@ =~= seq![91u8] + ser_version_items(k@, i + 1));
        }
        i = i + 1;
    }
    out.push(93);
    proof {
        assert(out@ =~= ser_key(k@));
    }
    out
}


/// The literal `lit` sits at position `i` of `s`.
pub open spec fn match_lit(s: Seq<u8>, i: int, lit: Seq<u8>) -> bool {
    &&& 0 <= i
    &&& i + lit.len() <= s.len()
    &&& s.subrange(i, i + lit.len() as int) == lit
}

/// Skip an expected literal byte run; `None` exactly when the input
/// differs from the literal at this position.
fn expect(bytes: &Vec<u8>, pos: usize, lit: &[u8]) -> (r: Option<usize>)
    ensures
        r is Some <==> match_lit(bytes@, pos as int, lit@),
        r matches Some(j) ==> j == pos + lit@.len() && j <= bytes@.len(),
{
    if pos > bytes.len() || bytes.len() - pos < lit.len() {
        return None;
    }
    let blen: usize = bytes.len();
    let mut i: usize = 0;
    let mut idx: usize = pos;
    while i < lit.len()
        invariant
            blen == bytes@.len(),
            pos + lit@.len() <= blen,
            0 <= i <= lit@.len(),
            idx == pos + i,
            forall|k: int| 0 <= k < i ==> bytes@[pos + k] == lit@[k],
        decreases lit@.len() - i,
    {
        assert(idx < blen);
        if bytes[idx] != lit[i] {
            proof {
                if match_lit(bytes@, pos as int, lit@) {
                    assert(bytes@.subrange(pos as int, pos + lit@.len())[i as int]
                        == lit@[i as int]);
                }
            }
            return None;
        }
        i = i + 1;
        idx = idx + 1;
    }
    proof {
        assert(bytes@.subrange(pos as int, pos + lit@.len()) =~= lit@);
    }
    Some(idx)
}

/// State of the digit walk: from position `i` with the value `acc` already
/// accumulated, the position and value after consuming the remaining run
/// of digits, or `None` when the value leaves the number range.
pub open spec fn num_run(s: Seq<u8>, i: int, acc: int) -> Option<(int, int)>
    decreases s.len() - i,
{
    if 0 <= i < s.len() && is_digit(s[i]) {
        let acc2 = acc * 10 + (s[i] - 48);
        if acc2 > u32::MAX {
            None
        } else {
            num_run(s, i + 1, acc2)
        }
    } else {
        Some((acc, i))
    }
}

/// The value and end position of the decimal number at position `i`, or
/// `None` when no number starts there: a digit must be present, a leading
/// zero is only the number zero itself, and the value must fit `u32`.
pub open spec fn num_end(s: Seq<u8>, i: int) -> Option<(int, int)> {
    if 0 <= i < s.len() && is_digit(s[i])
        && !(s[i] == 48 && i + 1 < s.len() && is_digit(s[i + 1])) {
        num_run(s, i, 0)
    } else {
        None
    }
}

/// Every byte of a decimal rendering is a digit.
proof fn lemma_dec_bytes_digits(n: int)
    requires
        n >= 0,
    ensures
        dec_bytes(n).len() >= 1,
        forall|k: int| 0 <= k < dec_bytes(n).len() ==> is_digit(#[trigger] dec_bytes(n)[k]),
    decreases n,
{
    if n >= 10 {
        vstd::arithmetic::div_mod::lemma_div_pos_is_pos(n, 10);
        vstd::arithmetic::div_mod::lemma_mod_bound(n, 10);
        lemma_dec_bytes_digits(n / 10);
    }
}

/// Only zero's decimal rendering starts with the zero digit.
proof fn lemma_dec_bytes_no_leading_zero(n: int)
    requires
        n >= 1,
    ensures
        dec_bytes(n)[0] != 48,
    decreases n,
{
    if n >= 10 {
        vstd::arithmetic::div_mod::lemma_div_pos_is_pos(n, 10);
        lemma_dec_bytes_no_leading_zero(n / 10);
    }
}

/// A finished digit walk has consumed exactly the decimal rendering of its
/// value.
proof fn lemma_num_run_sound(s: Seq<u8>, i0: int, i: int, acc: int)
    requires
        num_run(s, i, acc) is Some,
        1 <= acc <= u32::MAX,
        0 <= i0 <= i <= s.len(),
        s.subrange(i0, i) == dec_bytes(acc),
    ensures
        num_run(s, i, acc) matches Some((v, j)) ==> {
            &&& acc <= v <= u32::MAX
            &&& i <= j <= s.len()
            &&& s.subrange(i0, j) == dec_bytes(v)
        },
    decreases s.len() - i,
{
    if 0 <= i < s.len() && is_digit(s[i]) {
        let d = s[i] - 48;
        let acc2 = acc * 10 + d;
        if acc2 <= u32::MAX {
            assert(acc2 >= 10) by (nonlinear_arith)
                requires acc >= 1 && d >= 0 && acc2 == acc * 10 + d;
            vstd::arithmetic::div_mod::lemma_div_multiples_vanish_fancy(acc, d, 10);
            vstd::arithmetic::div_mod::lemma_fundamental_div_mod(acc2, 10);
            assert(acc2 / 10 == acc && acc2 % 10 == d);
            assert(dec_bytes(acc2) == dec_bytes(acc) + seq![(48 + d) as u8]);
            assert(s.subrange(i0, i + 1) =~= s.subrange(i0, i) + seq![s[i]]);
            lemma_num_run_sound(s, i0, i + 1, acc2);
        }
    }
}

/// A parsed number sits in the input as exactly its decimal rendering.
proof fn lemma_num_end_sound(s: Seq<u8>, i: int)
    requires
        num_end(s, i) is Some,
    ensures
        num_end(s, i) matches Some((v, j)) ==> {
            &&& 0 <= v <= u32::MAX
            &&& 0 <= i < j <= s.len()
            &&& s.subrange(i, j) == dec_bytes(v)
        },
{
    let d0 = s[i] - 48;
    assert(s.subrange(i, i + 1) =~= seq![s[i]]);
    if d0 == 0 {
        // the zero digit stands alone
        assert(num_run(s, i, 0) == num_run(s, i + 1, 0));
        assert(!(i + 1 < s.len() && is_digit(s[i + 1])));
        assert(num_run(s, i + 1, 0) == Some((0int, i + 1)));
        assert(s.subrange(i, i + 1) == dec_bytes(0));
    } else {
        assert(num_run(s, i, 0) == num_run(s, i + 1, d0));
        assert(s.subrange(i, i + 1) == dec_bytes(d0));
        lemma_num_run_sound(s, i, i + 1, d0);
    }
}

/// The digit walk shifts over a rendered number: consuming the digits of
/// `m` multiplies the accumulator by the decimal shift of `m` and adds `m`.
proof fn lemma_num_run_complete(s: Seq<u8>, i: int, acc: int, m: int)
    requires
        0 <= m,
        0 <= acc,
        0 <= i,
        i + dec_bytes(m).len() <= s.len(),
        s.subrange(i, i + dec_bytes(m).len() as int) == dec_bytes(m),
        acc * pow10_of(m) + m <= u32::MAX,
    ensures
        num_run(s, i, acc)
            == num_run(s, i + dec_bytes(m).len() as int, acc * pow10_of(m) + m),
    decreases m,
{
    if m < 10 {
        assert(s.subrange(i, i + 1)[0] == s[i]);
        assert(s[i] == (48 + m) as u8);
        assert(is_digit(s[i]));
        assert(acc * pow10_of(m) + m == acc * 10 + m);
        assert(num_run(s, i, acc) == num_run(s, i + 1, acc * 10 + m));
    } else {
        let head = dec_bytes(m / 10);
        let lh = head.len() as int;
        let lw = dec_bytes(m).len() as int;
        vstd::arithmetic::div_mod::lemma_div_pos_is_pos(m, 10);
        vstd::arithmetic::div_mod::lemma_mod_bound(m, 10);
        assert(s.subrange(i, i + lh) =~= head) by {
            assert forall|k: int| 0 <= k < lh implies
                s.subrange(i, i + lh)[k] == head[k] by {
                assert(s.subrange(i, i + lw)[k] == dec_bytes(m)[k]);
            }
        }
        let x = acc * pow10_of(m / 10) + m / 10;
        assert(x * 10 + m % 10 == acc * pow10_of(m) + m) by (nonlinear_arith)
            requires
                x == acc * pow10_of(m / 10) + m / 10,
                pow10_of(m) == 10 * pow10_of(m / 10),
                m == 10 * (m / 10) + m % 10;
        assert(m == 10 * (m / 10) + m % 10) by {
            vstd::arithmetic::div_mod::lemma_fundamental_div_mod(m, 10);
        }
        assert(pow10_of(m / 10) > 0) by {
            lemma_pow10_pos(m / 10);
        }
        assert(x >= 0) by (nonlinear_arith)
            requires
                x == acc * pow10_of(m / 10) + m / 10,
                acc >= 0 && m / 10 >= 0 && pow10_of(m / 10) > 0;
        assert(x <= u32::MAX);
        lemma_num_run_complete(s, i, acc, m / 10);
        // one more digit: the last digit of m
        assert(s[i + lh] == dec_bytes(m)[lh]);
        assert(dec_bytes(m)[lh] == (48 + m % 10) as u8);
        assert(is_digit(s[i + lh]));
        assert(num_run(s, i + lh, x) == num_run(s, i + lw, x * 10 + m % 10));
    }
}

/// The decimal shift factor is positive.
proof fn lemma_pow10_pos(d: int)
    ensures
        pow10_of(d) > 0,
    decreases d,
{
    if d >= 10 {
        vstd::arithmetic::div_mod::lemma_div_pos_is_pos(d, 10);
        vstd::arithmetic::div_mod::lemma_div_is_strictly_smaller(d, 10);
        lemma_pow10_pos(d / 10);
    }
}

/// The number grammar accepts every rendered number followed by a
/// non-digit (or the end of input), and reads back its value.
proof fn lemma_num_complete(s: Seq<u8>, i: int, n: int)
    requires
        0 <= n <= u32::MAX,
        0 <= i,
        i + dec_bytes(n).len() <= s.len(),
        s.subrange(i, i + dec_bytes(n).len() as int) == dec_bytes(n),
        i + dec_bytes(n).len() == s.len()
            || !is_digit(s[i + dec_bytes(n).len() as int]),
    ensures
        num_end(s, i) == Some((n, i + dec_bytes(n).len() as int)),
{
    let lw = dec_bytes(n).len() as int;
    lemma_dec_bytes_digits(n);
    assert(s.subrange(i, i + lw)[0] == s[i]);
    assert(s[i] == dec_bytes(n)[0]);
    assert(is_digit(s[i]));
    if s[i] == 48 {
        // only zero renders with a leading zero digit
        if n >= 1 {
            lemma_dec_bytes_no_leading_zero(n);
        }
        assert(n == 0 && lw == 1);
        assert(!(i + 1 < s.len() && is_digit(s[i + 1])));
        assert(num_run(s, i, 0) == num_run(s, i + 1, 0));
        assert(num_run(s, i + 1, 0) == Some((0int, i + 1)));
    } else {
        assert(0 * pow10_of(n) + n == n) by (nonlinear_arith);
        lemma_num_run_complete(s, i, 0, n);
        assert(num_run(s, i + lw, n) == Some((n, i + lw)));
    }
}

/// Read a decimal number; `None` exactly when no number starts here.
fn parse_u32_raw(bytes: &Vec<u8>, pos: usize) -> (r: Option<(u32, usize)>)
    ensures
        r is Some <==> num_end(bytes@, pos as int) is Some,
        r matches Some((v, j)) ==> {
            &&& num_end(bytes@, pos as int) == Some((v as int, j as int))
            &&& pos < j <= bytes@.len()
            &&& bytes@.subrange(pos as int, j as int) == dec_bytes(v as int)
        },
{
    if pos >= bytes.len() || !(48 <= bytes[pos] && bytes[pos] <= 57) {
        return None;
    }
    if bytes[pos] == 48 && pos + 1 < bytes.len()
        && 48 <= bytes[pos + 1] && bytes[pos + 1] <= 57 {
        return None;
    }
    let mut acc: u64 = 0;
    let mut i: usize = pos;
    while i < bytes.len() && 48 <= bytes[i] && bytes[i] <= 57
        invariant
            pos <= i <= bytes@.len(),
            acc <= 0xFFFFFFFF,
            num_run(bytes@, pos as int, 0) == num_run(bytes@, i as int, acc as int),
        decreases bytes@.len() - i,
    {
        let d: u64 = (bytes[i] - 48) as u64;
        let next: u64 = acc * 10 + d;
        if next > 0xFFFFFFFF {
            return None;
        }
        acc = next;
        i = i + 1;
    }
    assert(num_run(bytes@, pos as int, 0) == Some((acc as int, i as int)));
    assert(i > pos);
    proof {
        lemma_num_end_sound(bytes@, pos as int);
    }
    Some((acc as u32, i))
}

/// Splitting a byte range at an interior position splits its contents.
proof fn lemma_subrange_split(s: Seq<u8>, a: int, b: int, c: int)
    requires
        0 <= a <= b <= c <= s.len(),
    ensures
        s.subrange(a, c) == s.subrange(a, b) + s.subrange(b, c),
{
    assert(s.subrange(a, c) =~= s.subrange(a, b) + s.subrange(b, c));
}

/// The end position of the point object at position `i`, or `None` when no
/// point object starts there.
pub open spec fn point_end(s: Seq<u8>, i: int) -> Option<int> {
    if !match_lit(s, i, seq![123u8, 34u8, 120u8, 34u8, 58u8]) {
        None
    } else {
        match num_end(s, i + 5) {
            None => None,
            Some((x, j)) => if !match_lit(s, j, seq![44u8, 34u8, 121u8, 34u8, 58u8]) {
                None
            } else {
                match num_end(s, j + 5) {
                    None => None,
                    Some((y, k)) => if match_lit(s, k, seq![125u8]) {
                        Some(k + 1)
                    } else {
                        None
                    },
                }
            },
        }
    }
}

/// Read a point object; `None` exactly when none starts here, and a parsed
/// point occupies exactly its serialization.
fn parse_point_raw(bytes: &Vec<u8>, pos: usize) -> (r: Option<(Point, usize)>)
    ensures
        r is Some <==> point_end(bytes@, pos as int) is Some,
        r matches Some((v, j)) ==> {
            &&& point_end(bytes@, pos as int) == Some(j as int)
            &&& pos < j <= bytes@.len()
            &&& bytes@.subrange(pos as int, j as int) == ser_point(v)
        },
{
    let lit1: [u8; 5] = [123, 34, 120, 34, 58];
    proof {
        assert(lit1@ =~= seq![123u8, 34u8, 120u8, 34u8, 58u8]);
    }
    let p1 = expect(bytes, pos, lit1.as_slice())?;
    let (x, p2) = parse_u32_raw(bytes, p1)?;
    let lit2: [u8; 5] = [44, 34, 121, 34, 58];
    proof {
        assert(lit2@ =~= seq![44u8, 34u8, 121u8, 34u8, 58u8]);
    }
    let p3 = expect(bytes, p2, lit2.as_slice())?;
    let (y, p4) = parse_u32_raw(bytes, p3)?;
    let lit3: [u8; 1] = [125];
    proof {
        assert(lit3@ =~= seq![125u8]);
    }
    let p5 = expect(bytes, p4, lit3.as_slice())?;
    proof {
        let s = bytes@;
        lemma_subrange_split(s, pos as int, p1 as int, p2 as int);
        lemma_subrange_split(s, pos as int, p2 as int, p3 as int);
        lemma_subrange_split(s, pos as int, p3 as int, p4 as int);
        lemma_subrange_split(s, pos as int, p4 as int, p5 as int);
        assert(s.subrange(pos as int, p5 as int) =~= ser_point(Point { x, y }));
    }
    Some((Point { x, y }, p5))
}

/// A sub-piece of a matched byte range matches the corresponding piece of
/// the expected bytes.
proof fn lemma_piece(s: Seq<u8>, i: int, w: Seq<u8>, a: int, b: int)
    requires
        0 <= i,
        i + w.len() <= s.len(),
        s.subrange(i, i + w.len() as int) == w,
        0 <= a <= b <= w.len(),
    ensures
        s.subrange(i + a, i + b) == w.subrange(a, b),
{
    assert forall|k: int| 0 <= k < b - a implies
        s.subrange(i + a, i + b)[k] == w.subrange(a, b)[k] by {
        assert(s.subrange(i, i + w.len() as int)[a + k] == w[a + k]);
    }
    assert(s.subrange(i + a, i + b) =~= w.subrange(a, b));
}

/// The point grammar accepts every serialized point.
proof fn lemma_point_complete(s: Seq<u8>, i: int, p: Point)
    requires
        0 <= i,
        i + ser_point(p).len() <= s.len(),
        s.subrange(i, i + ser_point(p).len() as int) == ser_point(p),
    ensures
        point_end(s, i) == Some(i + ser_point(p).len() as int),
{
    let w = ser_point(p);
    let dx = dec_bytes(p.x as int);
    let dy = dec_bytes(p.y as int);
    let q2 = 5 + dx.len() as int;
    let q3 = q2 + 5;
    let q4 = q3 + dy.len() as int;
    lemma_piece(s, i, w, 0, 5);
    assert(w.subrange(0, 5) =~= seq![123u8, 34u8, 120u8, 34u8, 58u8]);
    lemma_piece(s, i, w, 5, q2);
    assert(w.subrange(5, q2) =~= dx);
    lemma_piece(s, i, w, q2, q3);
    assert(w.subrange(q2, q3) =~= seq![44u8, 34u8, 121u8, 34u8, 58u8]);
    lemma_piece(s, i, w, q3, q4);
    assert(w.subrange(q3, q4) =~= dy);
    lemma_piece(s, i, w, q4, q4 + 1);
    assert(w.subrange(q4, q4 + 1) =~= seq![125u8]);
    assert(s[i + q2] == 44) by {
        assert(s.subrange(i + q2, i + q3)[0] == s[i + q2]);
    }
    lemma_num_complete(s, i + 5, p.x as int);
    assert(s[i + q4] == 125) by {
        assert(s.subrange(i + q4, i + q4 + 1)[0] == s[i + q4]);
    }
    lemma_num_complete(s, i + q3, p.y as int);
    assert(match_lit(s, i, seq![123u8, 34u8, 120u8, 34u8, 58u8]));
    assert(match_lit(s, i + q2, seq![44u8, 34u8, 121u8, 34u8, 58u8]));
    assert(match_lit(s, i + q4, seq![125u8]));
}

/// The bubble grammar accepts every serialized bubble.
#[verifier::rlimit(100)]
#[verifier::spinoff_prover]
proof fn lemma_box_complete(s: Seq<u8>, i: int, b: Box)
    requires
        0 <= i,
        i + ser_box(b).len() <= s.len(),
        s.subrange(i, i + ser_box(b).len() as int) == ser_box(b),
    ensures
        box_end(s, i) == Some(i + ser_box(b).len() as int),
{
    let w = ser_box(b);
    let pa = ser_point(b.a);
    let pb = ser_point(b.b);
    let dv = dec_bytes(b.value as int);
    let q2 = 5 + pa.len() as int;
    let q3 = q2 + 5;
    let q4 = q3 + pb.len() as int;
    let q5 = q4 + 9;
    let q6 = q5 + dv.len() as int;
    lemma_piece(s, i, w, 0, 5);
    assert(w.subrange(0, 5) =~= seq![123u8, 34u8, 97u8, 34u8, 58u8]);
    lemma_piece(s, i, w, 5, q2);
    assert(w.subrange(5, q2) =~= pa);
    lemma_piece(s, i, w, q2, q3);
    assert(w.subrange(q2, q3) =~= seq![44u8, 34u8, 98u8, 34u8, 58u8]);
    lemma_piece(s, i, w, q3, q4);
    assert(w.subrange(q3, q4) =~= pb);
    lemma_piece(s, i, w, q4, q5);
    assert(w.subrange(q4, q5)
        =~= seq![44u8, 34u8, 118u8, 97u8, 108u8, 117u8, 101u8, 34u8, 58u8]);
    lemma_piece(s, i, w, q5, q6);
    assert(w.subrange(q5, q6) =~= dv);
    lemma_piece(s, i, w, q6, q6 + 1);
    assert(w.subrange(q6, q6 + 1) =~= seq![125u8]);
    lemma_point_complete(s, i + 5, b.a);
    lemma_point_complete(s, i + q3, b.b);
    assert(s[i + q6] == 125) by {
        assert(s.subrange(i + q6, i + q6 + 1)[0] == s[i + q6]);
    }
    lemma_num_complete(s, i + q5, b.value as int);
    assert(match_lit(s, i, seq![123u8, 34u8, 97u8, 34u8, 58u8]));
    assert(match_lit(s, i + q2, seq![44u8, 34u8, 98u8, 34u8, 58u8]));
    assert(match_lit(s, i + q4,
        seq![44u8, 34u8, 118u8, 97u8, 108u8, 117u8, 101u8, 34u8, 58u8]));
    assert(match_lit(s, i + q6, seq![125u8]));
}

/// The end position of the bubble object at position `i`.
pub open spec fn box_end(s: Seq<u8>, i: int) -> Option<int> {
    if !match_lit(s, i, seq![123u8, 34u8, 97u8, 34u8, 58u8]) {
        None
    } else {
        match point_end(s, i + 5) {
            None => None,
            Some(j) => if !match_lit(s, j, seq![44u8, 34u8, 98u8, 34u8, 58u8]) {
                None
            } else {
                match point_end(s, j + 5) {
                    None => None,
                    Some(k) => if !match_lit(s, k,
                        seq![44u8, 34u8, 118u8, 97u8, 108u8, 117u8, 101u8, 34u8, 58u8]) {
                        None
                    } else {
                        match num_end(s, k + 9) {
                            None => None,
                            Some((value, m)) => if match_lit(s, m, seq![125u8]) {
                                Some(m + 1)
                            } else {
                                None
                            },
                        }
                    },
                }
            },
        }
    }
}

/// Read a bubble object; `None` exactly when none starts here, and a
/// parsed bubble occupies exactly its serialization.
#[verifier::rlimit(100)]
#[verifier::spinoff_prover]
fn parse_box_raw(bytes: &Vec<u8>, pos: usize) -> (r: Option<(Box, usize)>)
    ensures
        r is Some <==> box_end(bytes@, pos as int) is Some,
        r matches Some((v, j)) ==> {
            &&& box_end(bytes@, pos as int) == Some(j as int)
            &&& pos < j <= bytes@.len()
            &&& bytes@.subrange(pos as int, j as int) == ser_box(v)
        },
{
    let lit1: [u8; 5] = [123, 34, 97, 34, 58];
    proof {
        assert(lit1@ =~= seq![123u8, 34u8, 97u8, 34u8, 58u8]);
    }
    let p1 = expect(bytes, pos, lit1.as_slice())?;
    let (a, p2) = parse_point_raw(bytes, p1)?;
    let lit2: [u8; 5] = [44, 34, 98, 34, 58];
    proof {
        assert(lit2@ =~= seq![44u8, 34u8, 98u8, 34u8, 58u8]);
    }
    let p3 = expect(bytes, p2, lit2.as_slice())?;
    let (b, p4) = parse_point_raw(bytes, p3)?;
    let lit3: [u8; 9] = [44, 34, 118, 97, 108, 117, 101, 34, 58];
    proof {
        assert(lit3@ =~= seq![44u8, 34u8, 118u8, 97u8, 108u8, 117u8, 101u8, 34u8, 58u8]);
    }
    let p5 = expect(bytes, p4, lit3.as_slice())?;
    let (value, p6) = parse_u32_raw(bytes, p5)?;
    let lit4: [u8; 1] = [125];
    proof {
        assert(lit4@ =~= seq![125u8]);
    }
    let p7 = expect(bytes, p6, lit4.as_slice())?;
    proof {
        let s = bytes@;
        lemma_subrange_split(s, pos as int, p1 as int, p2 as int);
        lemma_subrange_split(s, pos as int, p2 as int, p3 as int);
        lemma_subrange_split(s, pos as int, p3 as int, p4 as int);
        lemma_subrange_split(s, pos as int, p4 as int, p5 as int);
        lemma_subrange_split(s, pos as int, p5 as int, p6 as int);
        lemma_subrange_split(s, pos as int, p6 as int, p7 as int);
        assert(s.subrange(pos as int, p7 as int) =~= ser_box(Box { a, b, value }));
    }
    Some((Box { a, b, value }, p7))
}

/// The end position of the bubble list from its first item at `p` to the
/// closing `]}` of the enclosing question object.
pub open spec fn box_items_end(s: Seq<u8>, p: int) -> Option<int>
    decreases s.len() - p,
{
    match box_end(s, p) {
        None => None,
        Some(j) => if !(p < j <= s.len()) {
            None
        } else if j < s.len() && s[j] == 44 {
            if j + 1 < s.len() {
                box_items_end(s, j + 1)
            } else {
                None
            }
        } else if match_lit(s, j, seq![93u8, 125u8]) {
            Some(j + 2)
        } else {
            None
        },
    }
}

/// Serializing a list prefix reads only the entries below `n`.
proof fn lemma_ser_box_items_prefix(bs1: Seq<Box>, bs2: Seq<Box>, n: int)
    requires
        forall|k: int| 0 <= k < n ==> bs1[k] == bs2[k],
    ensures
        ser_box_items(bs1, n) == ser_box_items(bs2, n),
    decreases n,
{
    if n > 0 {
        lemma_ser_box_items_prefix(bs1, bs2, n - 1);
    }
}

/// The end position of the question object at position `i`.
pub open spec fn question_end(s: Seq<u8>, i: int) -> Option<int> {
    if !match_lit(s, i, seq![123u8, 34u8, 98u8, 111u8, 120u8, 101u8, 115u8, 34u8, 58u8, 91u8]) {
        None
    } else {
        let p = i + 10;
        if p < s.len() && s[p] == 93 {
            if match_lit(s, p, seq![93u8, 125u8]) {
                Some(p + 2)
            } else {
                None
            }
        } else {
            box_items_end(s, p)
        }
    }
}

/// The serialized bubble-list suffix from item `k` on, through the closing
/// `]}` of the question object.
pub open spec fn ser_box_tail(bs: Seq<Box>, k: int) -> Seq<u8>
    decreases bs.len() - k,
{
    if k + 1 < bs.len() {
        ser_box(bs[k]) + seq![44u8] + ser_box_tail(bs, k + 1)
    } else if k < bs.len() {
        ser_box(bs[k]) + seq![93u8, 125u8]
    } else {
        seq![93u8, 125u8]
    }
}

/// The left-fold serialization of a bubble list splits as any parsed
/// prefix followed by the suffix form.
proof fn lemma_box_tail_bridge(bs: Seq<Box>, k: int)
    requires
        0 <= k < bs.len(),
    ensures
        ser_box_items(bs, bs.len() as int) + seq![93u8, 125u8]
            == ser_box_items(bs, k)
                + (if k > 0 { seq![44u8] } else { Seq::<u8>::empty() })
                + ser_box_tail(bs, k),
    decreases bs.len() - k,
{
    let n = bs.len() as int;
    if k + 1 < n {
        lemma_box_tail_bridge(bs, k + 1);
        assert(ser_box_items(bs, n) + seq![93u8, 125u8]
            =~= ser_box_items(bs, k)
                + (if k > 0 { seq![44u8] } else { Seq::<u8>::empty() })
                + ser_box_tail(bs, k));
    } else {
        assert(ser_box_items(bs, n) + seq![93u8, 125u8]
            =~= ser_box_items(bs, k)
                + (if k > 0 { seq![44u8] } else { Seq::<u8>::empty() })
                + ser_box_tail(bs, k));
    }
}

/// The bubble-list walk accepts every serialized suffix.
proof fn lemma_box_items_complete(s: Seq<u8>, p: int, bs: Seq<Box>, k: int)
    requires
        0 <= k < bs.len(),
        0 <= p,
        p + ser_box_tail(bs, k).len() <= s.len(),
        s.subrange(p, p + ser_box_tail(bs, k).len() as int) == ser_box_tail(bs, k),
    ensures
        box_items_end(s, p) == Some(p + ser_box_tail(bs, k).len() as int),
    decreases bs.len() - k,
{
    let w = ser_box_tail(bs, k);
    let item = ser_box(bs[k]);
    let li = item.len() as int;
    lemma_piece(s, p, w, 0, li);
    assert(w.subrange(0, li) =~= item);
    lemma_box_complete(s, p, bs[k]);
    let j = p + li;
    if k + 1 < bs.len() {
        lemma_piece(s, p, w, li, li + 1);
        assert(w.subrange(li, li + 1) =~= seq![44u8]);
        assert(s[j] == 44) by {
            assert(s.subrange(j, j + 1)[0] == s[j]);
        }
        lemma_piece(s, p, w, li + 1, w.len() as int);
        assert(w.subrange(li + 1, w.len() as int) =~= ser_box_tail(bs, k + 1));
        lemma_box_items_complete(s, j + 1, bs, k + 1);
    } else {
        lemma_piece(s, p, w, li, li + 2);
        assert(w.subrange(li, li + 2) =~= seq![93u8, 125u8]);
        assert(s[j] == 93) by {
            assert(s.subrange(j, j + 2)[0] == s[j]);
        }
        assert(match_lit(s, j, seq![93u8, 125u8]));
    }
}

/// The question grammar accepts every serialized question.
#[verifier::rlimit(100)]
#[verifier::spinoff_prover]
proof fn lemma_question_complete(s: Seq<u8>, i: int, q: Question)
    requires
        0 <= i,
        i + ser_question(q).len() <= s.len(),
        s.subrange(i, i + ser_question(q).len() as int) == ser_question(q),
    ensures
        question_end(s, i) == Some(i + ser_question(q).len() as int),
{
    let w = ser_question(q);
    let header = seq![123u8, 34u8, 98u8, 111u8, 120u8, 101u8, 115u8, 34u8, 58u8, 91u8];
    lemma_piece(s, i, w, 0, 10);
    assert(w.subrange(0, 10) =~= header);
    assert(match_lit(s, i, header));
    let n = q.boxes@.len() as int;
    if n == 0 {
        lemma_piece(s, i, w, 10, 12);
        assert(w.subrange(10, 12) =~= seq![93u8, 125u8]);
        assert(s[i + 10] == 93) by {
            assert(s.subrange(i + 10, i + 12)[0] == s[i + 10]);
        }
        assert(match_lit(s, i + 10, seq![93u8, 125u8]));
    } else {
        lemma_box_tail_bridge(q.boxes@, 0);
        assert(ser_box_items(q.boxes@, n) + seq![93u8, 125u8] == ser_box_tail(q.boxes@, 0));
        lemma_piece(s, i, w, 10, w.len() as int);
        assert(w.subrange(10, w.len() as int) =~= ser_box_tail(q.boxes@, 0));
        lemma_box_items_complete(s, i + 10, q.boxes@, 0);
        // a bubble object opens with a brace, so the list is seen as non-empty
        assert(s[i + 10] == 123) by {
            let t0 = ser_box_tail(q.boxes@, 0);
            assert(s.subrange(i + 10, i + w.len() as int)[0] == s[i + 10]);
            assert(t0[0] == ser_box(q.boxes@[0])[0]);
        }
    }
}

/// Read a question object; `None` exactly when none starts here, and a
/// parsed question occupies exactly its serialization.
#[verifier::rlimit(100)]
#[verifier::spinoff_prover]
fn parse_question_raw(bytes: &Vec<u8>, pos: usize) -> (r: Option<(Question, usize)>)
    ensures
        r is Some <==> question_end(bytes@, pos as int) is Some,
        r matches Some((v, j)) ==> {
            &&& question_end(bytes@, pos as int) == Some(j as int)
            &&& pos < j <= bytes@.len()
            &&& bytes@.subrange(pos as int, j as int) == ser_question(v)
        },
{
    let lit1: [u8; 10] = [123, 34, 98, 111, 120, 101, 115, 34, 58, 91];
    proof {
        assert(lit1@ =~= seq![123u8, 34u8, 98u8, 111u8, 120u8, 101u8, 115u8, 34u8, 58u8, 91u8]);
    }
    let mut p = expect(bytes, pos, lit1.as_slice())?;
    let mut boxes: Vec<Box> = Vec::new();
    if p < bytes.len() && bytes[p] == 93 {
        let lit2: [u8; 2] = [93, 125];
        proof {
            assert(lit2@ =~= seq![93u8, 125u8]);
        }
        let p2 = expect(bytes, p, lit2.as_slice())?;
        proof {
            lemma_subrange_split(bytes@, pos as int, p as int, p2 as int);
            assert(bytes@.subrange(pos as int, p2 as int)
                =~= seq![123u8, 34u8, 98u8, 111u8, 120u8, 101u8, 115u8, 34u8, 58u8, 91u8]
                    + ser_box_items(boxes@, boxes@.len() as int) + seq![93u8, 125u8]);
        }
        return Some((Question { boxes }, p2));
    }
    loop
        invariant
            pos + 10 == p || pos + 10 < p,
            pos < p <= bytes@.len(),
            bytes@.subrange(pos as int, pos + 10)
                == seq![123u8, 34u8, 98u8, 111u8, 120u8, 101u8, 115u8, 34u8, 58u8, 91u8],
            question_end(bytes@, pos as int) == box_items_end(bytes@, p as int),
            (boxes@.len() == 0 && p == pos + 10)
                || (boxes@.len() > 0 && bytes@.subrange(pos + 10, p as int)
                    == ser_box_items(boxes@, boxes@.len() as int) + seq![44u8]),
        decreases bytes@.len() - p,
    {
        let ghost n0 = boxes@.len() as int;
        let ghost p_head = p as int;
        let item = parse_box_raw(bytes, p);
        match item {
            None => {
                return None;
            },
            Some((b, p2)) => {
                let ghost old_boxes = boxes@;
                boxes.push(b);
                proof {
                    lemma_ser_box_items_prefix(old_boxes, boxes@, n0);
                    if n0 > 0 {
                        lemma_subrange_split(bytes@, pos + 10, p_head, p2 as int);
                    }
                    assert(bytes@.subrange(pos + 10, p2 as int)
                        =~= ser_box_items(boxes@, boxes@.len() as int));
                }
                p = p2;
            },
        }
        if p < bytes.len() && bytes[p] == 44 {
            proof {
                lemma_subrange_split(bytes@, pos + 10, p as int, p + 1);
                assert(bytes@.subrange(p as int, p + 1) =~= seq![44u8]);
            }
            p = p + 1;
            if p >= bytes.len() {
                return None;
            }
        } else {
            let lit2: [u8; 2] = [93, 125];
            proof {
                assert(lit2@ =~= seq![93u8, 125u8]);
            }
            let p3 = expect(bytes, p, lit2.as_slice())?;
            proof {
                lemma_subrange_split(bytes@, pos as int, pos + 10, p3 as int);
                lemma_subrange_split(bytes@, pos + 10, p as int, p3 as int);
                assert(bytes@.subrange(pos as int, p3 as int)
                    =~= seq![123u8, 34u8, 98u8, 111u8, 120u8, 101u8, 115u8, 34u8, 58u8, 91u8]
                        + ser_box_items(boxes@, boxes@.len() as int) + seq![93u8, 125u8]);
            }
            return Some((Question { boxes }, p3));
        }
    }
}

/// Serializing a question-list prefix reads only the entries below `n`.
proof fn lemma_ser_question_items_prefix(qs1: Seq<Question>, qs2: Seq<Question>, n: int)
    requires
        forall|k: int| 0 <= k < n ==> qs1[k] == qs2[k],
    ensures
        ser_question_items(qs1, n) == ser_question_items(qs2, n),
    decreases n,
{
    if n > 0 {
        lemma_ser_question_items_prefix(qs1, qs2, n - 1);
    }
}

/// The end position of the question list from its first item at `p` to the
/// closing bracket.
pub open spec fn question_items_end(s: Seq<u8>, p: int) -> Option<int>
    decreases s.len() - p,
{
    match question_end(s, p) {
        None => None,
        Some(j) => if !(p < j <= s.len()) {
            None
        } else if j < s.len() && s[j] == 44 {
            if j + 1 < s.len() {
                question_items_end(s, j + 1)
            } else {
                None
            }
        } else if j < s.len() && s[j] == 93 {
            Some(j + 1)
        } else {
            None
        },
    }
}

/// The end position of the bracketed question list at position `i`.
pub open spec fn qlist_end(s: Seq<u8>, i: int) -> Option<int> {
    if !match_lit(s, i, seq![91u8]) {
        None
    } else {
        let p = i + 1;
        if p < s.len() && s[p] == 93 {
            Some(p + 1)
        } else {
            question_items_end(s, p)
        }
    }
}

/// The serialized question-list suffix from item `k` on, through the
/// closing bracket.
pub open spec fn ser_question_tail(qs: Seq<Question>, k: int) -> Seq<u8>
    decreases qs.len() - k,
{
    if k + 1 < qs.len() {
        ser_question(qs[k]) + seq![44u8] + ser_question_tail(qs, k + 1)
    } else if k < qs.len() {
        ser_question(qs[k]) + seq![93u8]
    } else {
        seq![93u8]
    }
}

/// The left-fold serialization of a question list splits as any parsed
/// prefix followed by the suffix form.
proof fn lemma_question_tail_bridge(qs: Seq<Question>, k: int)
    requires
        0 <= k < qs.len(),
    ensures
        ser_question_items(qs, qs.len() as int) + seq![93u8]
            == ser_question_items(qs, k)
                + (if k > 0 { seq![44u8] } else { Seq::<u8>::empty() })
                + ser_question_tail(qs, k),
    decreases qs.len() - k,
{
    let n = qs.len() as int;
    if k + 1 < n {
        lemma_question_tail_bridge(qs, k + 1);
        assert(ser_question_items(qs, n) + seq![93u8]
            =~= ser_question_items(qs, k)
                + (if k > 0 { seq![44u8] } else { Seq::<u8>::empty() })
                + ser_question_tail(qs, k));
    } else {
        assert(ser_question_items(qs, n) + seq![93u8]
            =~= ser_question_items(qs, k)
                + (if k > 0 { seq![44u8] } else { Seq::<u8>::empty() })
                + ser_question_tail(qs, k));
    }
}

/// The question-list walk accepts every serialized suffix.
proof fn lemma_question_items_complete(s: Seq<u8>, p: int, qs: Seq<Question>, k: int)
    requires
        0 <= k < qs.len(),
        0 <= p,
        p + ser_question_tail(qs, k).len() <= s.len(),
        s.subrange(p, p + ser_question_tail(qs, k).len() as int) == ser_question_tail(qs, k),
    ensures
        question_items_end(s, p) == Some(p + ser_question_tail(qs, k).len() as int),
    decreases qs.len() - k,
{
    let w = ser_question_tail(qs, k);
    let item = ser_question(qs[k]);
    let li = item.len() as int;
    lemma_piece(s, p, w, 0, li);
    assert(w.subrange(0, li) =~= item);
    lemma_question_complete(s, p, qs[k]);
    let j = p + li;
    if k + 1 < qs.len() {
        lemma_piece(s, p, w, li, li + 1);
        assert(w.subrange(li, li + 1) =~= seq![44u8]);
        assert(s[j] == 44) by {
            assert(s.subrange(j, j + 1)[0] == s[j]);
        }
        lemma_piece(s, p, w, li + 1, w.len() as int);
        assert(w.subrange(li + 1, w.len() as int) =~= ser_question_tail(qs, k + 1));
        lemma_question_items_complete(s, j + 1, qs, k + 1);
    } else {
        lemma_piece(s, p, w, li, li + 1);
        assert(w.subrange(li, li + 1) =~= seq![93u8]);
        assert(s[j] == 93) by {
            assert(s.subrange(j, j + 1)[0] == s[j]);
        }
    }
}

/// The question-list grammar accepts every serialized list.
proof fn lemma_qlist_complete(s: Seq<u8>, i: int, qs: Seq<Question>)
    requires
        0 <= i,
        i + 2 + ser_question_items(qs, qs.len() as int).len() <= s.len(),
        s.subrange(i, i + 2 + ser_question_items(qs, qs.len() as int).len() as int)
            == seq![91u8] + ser_question_items(qs, qs.len() as int) + seq![93u8],
    ensures
        qlist_end(s, i)
            == Some(i + 2 + ser_question_items(qs, qs.len() as int).len() as int),
{
    let items = ser_question_items(qs, qs.len() as int);
    let w = seq![91u8] + items + seq![93u8];
    lemma_piece(s, i, w, 0, 1);
    assert(w.subrange(0, 1) =~= seq![91u8]);
    assert(match_lit(s, i, seq![91u8]));
    let n = qs.len() as int;
    if n == 0 {
        lemma_piece(s, i, w, 1, 2);
        assert(w.subrange(1, 2) =~= seq![93u8]);
        assert(s[i + 1] == 93) by {
            assert(s.subrange(i + 1, i + 2)[0] == s[i + 1]);
        }
    } else {
        lemma_question_tail_bridge(qs, 0);
        assert(items + seq![93u8] == ser_question_tail(qs, 0));
        lemma_piece(s, i, w, 1, w.len() as int);
        assert(w.subrange(1, w.len() as int) =~= ser_question_tail(qs, 0));
        lemma_question_items_complete(s, i + 1, qs, 0);
        // a question object opens with a brace, so the list is seen as
        // non-empty
        assert(s[i + 1] == 123) by {
            let t0 = ser_question_tail(qs, 0);
            assert(s.subrange(i + 1, i + w.len() as int)[0] == s[i + 1]);
            assert(t0[0] == ser_question(qs[0])[0]);
        }
    }
}

/// Read a bracketed list of questions; a parsed list occupies exactly its
/// serialization.
#[verifier::rlimit(100)]
#[verifier::spinoff_prover]
fn parse_question_list_raw(bytes: &Vec<u8>, pos: usize) -> (r: Option<(Vec<Question>, usize)>)
    ensures
        r is Some <==> qlist_end(bytes@, pos as int) is Some,
        r matches Some((v, j)) ==> {
            &&& qlist_end(bytes@, pos as int) == Some(j as int)
            &&& pos < j <= bytes@.len()
            &&& bytes@.subrange(pos as int, j as int)
                == seq![91u8] + ser_question_items(v@, v@.len() as int) + seq![93u8]
        },
{
    let lit1: [u8; 1] = [91];
    proof {
        assert(lit1@ =~= seq![91u8]);
    }
    let mut p = expect(bytes, pos, lit1.as_slice())?;
    let mut qs: Vec<Question> = Vec::new();
    if p < bytes.len() && bytes[p] == 93 {
        proof {
            lemma_subrange_split(bytes@, pos as int, p as int, p + 1);
            assert(bytes@.subrange(p as int, p + 1) =~= seq![93u8]);
            assert(bytes@.subrange(pos as int, p + 1)
                =~= seq![91u8] + ser_question_items(qs@, qs@.len() as int) + seq![93u8]);
        }
        return Some((qs, p + 1));
    }
    loop
        invariant
            pos < p <= bytes@.len(),
            bytes@.subrange(pos as int, pos + 1) == seq![91u8],
            qlist_end(bytes@, pos as int) == question_items_end(bytes@, p as int),
            (qs@.len() == 0 && p == pos + 1)
                || (qs@.len() > 0 && bytes@.subrange(pos + 1, p as int)
                    == ser_question_items(qs@, qs@.len() as int) + seq![44u8]),
        decreases bytes@.len() - p,
    {
        let ghost n0 = qs@.len() as int;
        let ghost p_head = p as int;
        let item = parse_question_raw(bytes, p);
        match item {
            None => {
                return None;
            },
            Some((q, p2)) => {
                let ghost old_qs = qs@;
                qs.push(q);
                proof {
                    lemma_ser_question_items_prefix(old_qs, qs@, n0);
                    if n0 > 0 {
                        lemma_subrange_split(bytes@, pos + 1, p_head, p2 as int);
                    }
                    assert(bytes@.subrange(pos + 1, p2 as int)
                        =~= ser_question_items(qs@, qs@.len() as int));
                }
                p = p2;
            },
        }
        if p < bytes.len() && bytes[p] == 44 {
            proof {
                lemma_subrange_split(bytes@, pos + 1, p as int, p + 1);
                assert(bytes@.subrange(p as int, p + 1) =~= seq![44u8]);
            }
            p = p + 1;
            if p >= bytes.len() {
                return None;
            }
        } else if p < bytes.len() && bytes[p] == 93 {
            proof {
                lemma_subrange_split(bytes@, pos as int, pos + 1, p + 1);
                lemma_subrange_split(bytes@, pos + 1, p as int, p + 1);
                assert(bytes@.subrange(p as int, p + 1) =~= seq![93u8]);
                assert(bytes@.subrange(pos as int, p + 1)
                    =~= seq![91u8] + ser_question_items(qs@, qs@.len() as int) + seq![93u8]);
            }
            return Some((qs, p + 1));
        } else {
            return None;
        }
    }
}

/// Serializing a point-list prefix reads only the entries below `n`.
proof fn lemma_ser_point_items_prefix(ps1: Seq<Point>, ps2: Seq<Point>, n: int)
    requires
        forall|k: int| 0 <= k < n ==> ps1[k] == ps2[k],
    ensures
        ser_point_items(ps1, n) == ser_point_items(ps2, n),
    decreases n,
{
    if n > 0 {
        lemma_ser_point_items_prefix(ps1, ps2, n - 1);
    }
}

/// The end position of the point list from its first item at `p` to the
/// closing bracket.
pub open spec fn point_items_end(s: Seq<u8>, p: int) -> Option<int>
    decreases s.len() - p,
{
    match point_end(s, p) {
        None => None,
        Some(j) => if !(p < j <= s.len()) {
            None
        } else if j < s.len() && s[j] == 44 {
            if j + 1 < s.len() {
                point_items_end(s, j + 1)
            } else {
                None
            }
        } else if j < s.len() && s[j] == 93 {
            Some(j + 1)
        } else {
            None
        },
    }
}

/// The end position of the bracketed point list at position `i`.
pub open spec fn plist_end(s: Seq<u8>, i: int) -> Option<int> {
    if !match_lit(s, i, seq![91u8]) {
        None
    } else {
        let p = i + 1;
        if p < s.len() && s[p] == 93 {
            Some(p + 1)
        } else {
            point_items_end(s, p)
        }
    }
}

/// The serialized point-list suffix from item `k` on, through the closing
/// bracket.
pub open spec fn ser_point_tail(ps: Seq<Point>, k: int) -> Seq<u8>
    decreases ps.len() - k,
{
    if k + 1 < ps.len() {
        ser_point(ps[k]) + seq![44u8] + ser_point_tail(ps, k + 1)
    } else if k < ps.len() {
        ser_point(ps[k]) + seq![93u8]
    } else {
        seq![93u8]
    }
}

/// The left-fold serialization of a point list splits as any parsed prefix
/// followed by the suffix form.
proof fn lemma_point_tail_bridge(ps: Seq<Point>, k: int)
    requires
        0 <= k < ps.len(),
    ensures
        ser_point_items(ps, ps.len() as int) + seq![93u8]
            == ser_point_items(ps, k)
                + (if k > 0 { seq![44u8] } else { Seq::<u8>::empty() })
                + ser_point_tail(ps, k),
    decreases ps.len() - k,
{
    let n = ps.len() as int;
    if k + 1 < n {
        lemma_point_tail_bridge(ps, k + 1);
        assert(ser_point_items(ps, n) + seq![93u8]
            =~= ser_point_items(ps, k)
                + (if k > 0 { seq![44u8] } else { Seq::<u8>::empty() })
                + ser_point_tail(ps, k));
    } else {
        assert(ser_point_items(ps, n) + seq![93u8]
            =~= ser_point_items(ps, k)
                + (if k > 0 { seq![44u8] } else { Seq::<u8>::empty() })
                + ser_point_tail(ps, k));
    }
}

/// The point-list walk accepts every serialized suffix.
proof fn lemma_point_items_complete(s: Seq<u8>, p: int, ps: Seq<Point>, k: int)
    requires
        0 <= k < ps.len(),
        0 <= p,
        p + ser_point_tail(ps, k).len() <= s.len(),
        s.subrange(p, p + ser_point_tail(ps, k).len() as int) == ser_point_tail(ps, k),
    ensures
        point_items_end(s, p) == Some(p + ser_point_tail(ps, k).len() as int),
    decreases ps.len() - k,
{
    let w = ser_point_tail(ps, k);
    let item = ser_point(ps[k]);
    let li = item.len() as int;
    lemma_piece(s, p, w, 0, li);
    assert(w.subrange(0, li) =~= item);
    lemma_point_complete(s, p, ps[k]);
    let j = p + li;
    if k + 1 < ps.len() {
        lemma_piece(s, p, w, li, li + 1);
        assert(w.subrange(li, li + 1) =~= seq![44u8]);
        assert(s[j] == 44) by {
            assert(s.subrange(j, j + 1)[0] == s[j]);
        }
        lemma_piece(s, p, w, li + 1, w.len() as int);
        assert(w.subrange(li + 1, w.len() as int) =~= ser_point_tail(ps, k + 1));
        lemma_point_items_complete(s, j + 1, ps, k + 1);
    } else {
        lemma_piece(s, p, w, li, li + 1);
        assert(w.subrange(li, li + 1) =~= seq![93u8]);
        assert(s[j] == 93) by {
            assert(s.subrange(j, j + 1)[0] == s[j]);
        }
    }
}

/// The point-list grammar accepts every serialized list.
proof fn lemma_plist_complete(s: Seq<u8>, i: int, ps: Seq<Point>)
    requires
        0 <= i,
        i + 2 + ser_point_items(ps, ps.len() as int).len() <= s.len(),
        s.subrange(i, i + 2 + ser_point_items(ps, ps.len() as int).len() as int)
            == seq![91u8] + ser_point_items(ps, ps.len() as int) + seq![93u8],
    ensures
        plist_end(s, i) == Some(i + 2 + ser_point_items(ps, ps.len() as int).len() as int),
{
    let items = ser_point_items(ps, ps.len() as int);
    let w = seq![91u8] + items + seq![93u8];
    lemma_piece(s, i, w, 0, 1);
    assert(w.subrange(0, 1) =~= seq![91u8]);
    assert(match_lit(s, i, seq![91u8]));
    let n = ps.len() as int;
    if n == 0 {
        lemma_piece(s, i, w, 1, 2);
        assert(w.subrange(1, 2) =~= seq![93u8]);
        assert(s[i + 1] == 93) by {
            assert(s.subrange(i + 1, i + 2)[0] == s[i + 1]);
        }
    } else {
        lemma_point_tail_bridge(ps, 0);
        assert(items + seq![93u8] == ser_point_tail(ps, 0));
        lemma_piece(s, i, w, 1, w.len() as int);
        assert(w.subrange(1, w.len() as int) =~= ser_point_tail(ps, 0));
        lemma_point_items_complete(s, i + 1, ps, 0);
        // a point object opens with a brace, so the list is seen as
        // non-empty
        assert(s[i + 1] == 123) by {
            let t0 = ser_point_tail(ps, 0);
            assert(s.subrange(i + 1, i + w.len() as int)[0] == s[i + 1]);
            assert(t0[0] == ser_point(ps[0])[0]);
        }
    }
}

/// Read a bracketed list of points; a parsed list occupies exactly its
/// serialization.
#[verifier::rlimit(100)]
#[verifier::spinoff_prover]
fn parse_point_list_raw(bytes: &Vec<u8>, pos: usize) -> (r: Option<(Vec<Point>, usize)>)
    ensures
        r is Some <==> plist_end(bytes@, pos as int) is Some,
        r matches Some((v, j)) ==> {
            &&& plist_end(bytes@, pos as int) == Some(j as int)
            &&& pos < j <= bytes@.len()
            &&& bytes@.subrange(pos as int, j as int)
                == seq![91u8] + ser_point_items(v@, v@.len() as int) + seq![93u8]
        },
{
    let lit1: [u8; 1] = [91];
    proof {
        assert(lit1@ =~= seq![91u8]);
    }
    let mut p = expect(bytes, pos, lit1.as_slice())?;
    let mut ps: Vec<Point> = Vec::new();
    if p < bytes.len() && bytes[p] == 93 {
        proof {
            lemma_subrange_split(bytes@, pos as int, p as int, p + 1);
            assert(bytes@.subrange(p as int, p + 1) =~= seq![93u8]);
            assert(bytes@.subrange(pos as int, p + 1)
                =~= seq![91u8] + ser_point_items(ps@, ps@.len() as int) + seq![93u8]);
        }
        return Some((ps, p + 1));
    }
    loop
        invariant
            pos < p <= bytes@.len(),
            bytes@.subrange(pos as int, pos + 1) == seq![91u8],
            plist_end(bytes@, pos as int) == point_items_end(bytes@, p as int),
            (ps@.len() == 0 && p == pos + 1)
                || (ps@.len() > 0 && bytes@.subrange(pos + 1, p as int)
                    == ser_point_items(ps@, ps@.len() as int) + seq![44u8]),
        decreases bytes@.len() - p,
    {
        let ghost n0 = ps@.len() as int;
        let ghost p_head = p as int;
        let item = parse_point_raw(bytes, p);
        match item {
            None => {
                return None;
            },
            Some((q, p2)) => {
                let ghost old_ps = ps@;
                ps.push(q);
                proof {
                    lemma_ser_point_items_prefix(old_ps, ps@, n0);
                    if n0 > 0 {
                        lemma_subrange_split(bytes@, pos + 1, p_head, p2 as int);
                    }
                    assert(bytes@.subrange(pos + 1, p2 as int)
                        =~= ser_point_items(ps@, ps@.len() as int));
                }
                p = p2;
            },
        }
        if p < bytes.len() && bytes[p] == 44 {
            proof {
                lemma_subrange_split(bytes@, pos + 1, p as int, p + 1);
                assert(bytes@.subrange(p as int, p + 1) =~= seq![44u8]);
            }
            p = p + 1;
            if p >= bytes.len() {
                return None;
            }
        } else if p < bytes.len() && bytes[p] == 93 {
            proof {
                lemma_subrange_split(bytes@, pos as int, pos + 1, p + 1);
                lemma_subrange_split(bytes@, pos + 1, p as int, p + 1);
                assert(bytes@.subrange(p as int, p + 1) =~= seq![93u8]);
                assert(bytes@.subrange(pos as int, p + 1)
                    =~= seq![91u8] + ser_point_items(ps@, ps@.len() as int) + seq![93u8]);
            }
            return Some((ps, p + 1));
        } else {
            return None;
        }
    }
}

/// The serialized leading half of a template: everything up to and
/// including the question list.
pub open spec fn ser_template_head(idq: Seq<Question>, version: Question, qs: Seq<Question>)
    -> Seq<u8>
{
    seq![123u8] + lit_id_questions() + seq![91u8]
        + ser_question_items(idq, idq.len() as int) + seq![93u8]
        + lit_version() + ser_question(version)
        + lit_questions() + seq![91u8] + ser_question_items(qs, qs.len() as int) + seq![93u8]
}

/// End position of the leading half of a template object.
pub open spec fn template_head_end(s: Seq<u8>) -> Option<int> {
    if !match_lit(s, 0, seq![123u8]) {
        None
    } else if !match_lit(s, 1, lit_id_questions()) {
        None
    } else {
        match qlist_end(s, 16) {
            None => None,
            Some(p2) => if !match_lit(s, p2, lit_version()) {
                None
            } else {
                match question_end(s, p2 + 11) {
                    None => None,
                    Some(p4) => if !match_lit(s, p4, lit_questions()) {
                        None
                    } else {
                        qlist_end(s, p4 + 13)
                    },
                }
            },
        }
    }
}

/// The whole input is one template object.
pub open spec fn template_accepts(s: Seq<u8>) -> bool {
    match template_head_end(s) {
        None => false,
        Some(p6) => if !match_lit(s, p6, lit_circle_centers()) {
            false
        } else {
            match plist_end(s, p6 + 18) {
                None => false,
                Some(p8) => if !match_lit(s, p8, lit_circle_radius()) {
                    false
                } else {
                    match num_end(s, p8 + 17) {
                        None => false,
                        Some((r_, p10)) => if !match_lit(s, p10, lit_height()) {
                            false
                        } else {
                            match num_end(s, p10 + 10) {
                                None => false,
                                Some((h_, p12)) => if !match_lit(s, p12, lit_width()) {
                                    false
                                } else {
                                    match num_end(s, p12 + 9) {
                                        None => false,
                                        Some((w_, p14)) => match_lit(s, p14, seq![125u8])
                                            && p14 + 1 == s.len(),
                                    }
                                },
                            }
                        },
                    }
                },
            }
        },
    }
}

/// Read the leading half of a template object: the digit-question list,
/// the version question and the question list.
#[verifier::rlimit(100)]
#[verifier::spinoff_prover]
fn parse_template_head(bytes: &Vec<u8>)
    -> (r: Option<(Vec<Question>, Question, Vec<Question>, usize)>)
    ensures
        r is Some <==> template_head_end(bytes@) is Some,
        r matches Some((idq, v, qs, j)) ==> {
            &&& template_head_end(bytes@) == Some(j as int)
            &&& 0 < j <= bytes@.len()
            &&& bytes@.subrange(0, j as int) == ser_template_head(idq@, v, qs@)
        },
{
    let lit_open: [u8; 1] = [123];
    proof {
        assert(lit_open@ =~= seq![123u8]);
    }
    let p0 = expect(bytes, 0, lit_open.as_slice())?;
    let lit1: [u8; 15] = [34, 105, 100, 95, 113, 117, 101, 115, 116, 105, 111, 110, 115, 34, 58];
    proof {
        assert(lit1@ =~= lit_id_questions());
    }
    let p1 = expect(bytes, p0, lit1.as_slice())?;
    let (id_questions, p2) = parse_question_list_raw(bytes, p1)?;
    let lit2: [u8; 11] = [44, 34, 118, 101, 114, 115, 105, 111, 110, 34, 58];
    proof {
        assert(lit2@ =~= lit_version());
    }
    let p3 = expect(bytes, p2, lit2.as_slice())?;
    let (version, p4) = parse_question_raw(bytes, p3)?;
    let lit3: [u8; 13] = [44, 34, 113, 117, 101, 115, 116, 105, 111, 110, 115, 34, 58];
    proof {
        assert(lit3@ =~= lit_questions());
    }
    let p5 = expect(bytes, p4, lit3.as_slice())?;
    let (questions, p6) = parse_question_list_raw(bytes, p5)?;
    proof {
        let s = bytes@;
        lemma_subrange_split(s, 0, p0 as int, p1 as int);
        lemma_subrange_split(s, 0, p1 as int, p2 as int);
        lemma_subrange_split(s, 0, p2 as int, p3 as int);
        lemma_subrange_split(s, 0, p3 as int, p4 as int);
        lemma_subrange_split(s, 0, p4 as int, p5 as int);
        lemma_subrange_split(s, 0, p5 as int, p6 as int);
        assert(s.subrange(0, p6 as int)
            =~= ser_template_head(id_questions@, version, questions@));
    }
    Some((id_questions, version, questions, p6))
}

/// Read a whole template object; acceptance is exactly
/// [`template_accepts`] and a parsed template serializes back to the whole
/// input.
#[verifier::rlimit(100)]
#[verifier::spinoff_prover]
fn parse_template_raw(bytes: &Vec<u8>) -> (r: Option<Template>)
    ensures
        r is Some <==> template_accepts(bytes@),
        r matches Some(t) ==> ser_template(t) == bytes@,
{
    let (id_questions, version, questions, p6) = parse_template_head(bytes)?;
    let lit4: [u8; 18] = [44, 34, 99, 105, 114, 99, 108, 101, 95, 99, 101, 110, 116, 101, 114,
        115, 34, 58];
    proof {
        assert(lit4@ =~= lit_circle_centers());
    }
    let p7 = expect(bytes, p6, lit4.as_slice())?;
    let (circle_centers, p8) = parse_point_list_raw(bytes, p7)?;
    let lit5: [u8; 17] = [44, 34, 99, 105, 114, 99, 108, 101, 95, 114, 97, 100, 105, 117, 115,
        34, 58];
    proof {
        assert(lit5@ =~= lit_circle_radius());
    }
    let p9 = expect(bytes, p8, lit5.as_slice())?;
    let (circle_radius, p10) = parse_u32_raw(bytes, p9)?;
    let lit6: [u8; 10] = [44, 34, 104, 101, 105, 103, 104, 116, 34, 58];
    proof {
        assert(lit6@ =~= lit_height());
    }
    let p11 = expect(bytes, p10, lit6.as_slice())?;
    let (height, p12) = parse_u32_raw(bytes, p11)?;
    let lit7: [u8; 9] = [44, 34, 119, 105, 100, 116, 104, 34, 58];
    proof {
        assert(lit7@ =~= lit_width());
    }
    let p13 = expect(bytes, p12, lit7.as_slice())?;
    let (width, p14) = parse_u32_raw(bytes, p13)?;
    let lit_close: [u8; 1] = [125];
    proof {
        assert(lit_close@ =~= seq![125u8]);
    }
    let p15 = expect(bytes, p14, lit_close.as_slice())?;
    if p15 != bytes.len() {
        return None;
    }
    let t = Template {
        id_questions,
        version,
        questions,
        circle_centers,
        circle_radius,
        height,
        width,
    };
    proof {
        lemma_template_assembly(bytes@, t, p6 as int, p7 as int, p8 as int, p9 as int,
            p10 as int, p11 as int, p12 as int, p13 as int, p14 as int, p15 as int);
    }
    Some(t)
}

/// Assembling the field pieces behind a parsed template head yields
/// exactly the template's serialization.
#[verifier::rlimit(100)]
#[verifier::spinoff_prover]
proof fn lemma_template_assembly(
    s: Seq<u8>, t: Template,
    p6: int, p7: int, p8: int, p9: int, p10: int, p11: int, p12: int, p13: int,
    p14: int, p15: int,
)
    requires
        0 <= p6 <= p7 <= p8 <= p9 <= p10 <= p11 <= p12 <= p13 <= p14 <= p15,
        p15 == s.len(),
        s.subrange(0, p6) == ser_template_head(t.id_questions@, t.version, t.questions@),
        s.subrange(p6, p7) == lit_circle_centers(),
        s.subrange(p7, p8) == seq![91u8]
            + ser_point_items(t.circle_centers@, t.circle_centers@.len() as int) + seq![93u8],
        s.subrange(p8, p9) == lit_circle_radius(),
        s.subrange(p9, p10) == dec_bytes(t.circle_radius as int),
        s.subrange(p10, p11) == lit_height(),
        s.subrange(p11, p12) == dec_bytes(t.height as int),
        s.subrange(p12, p13) == lit_width(),
        s.subrange(p13, p14) == dec_bytes(t.width as int),
        s.subrange(p14, p15) == seq![125u8],
    ensures
        s == ser_template(t),
{
    lemma_subrange_split(s, 0, p6, p7);
    lemma_subrange_split(s, 0, p7, p8);
    lemma_subrange_split(s, 0, p8, p9);
    lemma_subrange_split(s, 0, p9, p10);
    lemma_subrange_split(s, 0, p10, p11);
    lemma_subrange_split(s, 0, p11, p12);
    lemma_subrange_split(s, 0, p12, p13);
    lemma_subrange_split(s, 0, p13, p14);
    lemma_subrange_split(s, 0, p14, p15);
    assert(s.subrange(0, s.len() as int) =~= s);
    assert(s =~= ser_template(t));
}

/// The head grammar accepts every serialized template head.
#[verifier::rlimit(100)]
#[verifier::spinoff_prover]
proof fn lemma_template_head_complete(s: Seq<u8>, t: Template)
    requires
        ser_template_head(t.id_questions@, t.version, t.questions@).len() <= s.len(),
        s.subrange(0, ser_template_head(t.id_questions@, t.version, t.questions@).len() as int)
            == ser_template_head(t.id_questions@, t.version, t.questions@),
    ensures
        template_head_end(s)
            == Some(ser_template_head(t.id_questions@, t.version, t.questions@).len() as int),
{
    let w = ser_template_head(t.id_questions@, t.version, t.questions@);
    let idq = t.id_questions@;
    let qs = t.questions@;
    let items_id = ser_question_items(idq, idq.len() as int);
    let items_q = ser_question_items(qs, qs.len() as int);
    let sv = ser_question(t.version);
    let q2 = 16 + 2 + items_id.len() as int;
    let q3 = q2 + 11;
    let q4 = q3 + sv.len() as int;
    let q5 = q4 + 13;
    let q6 = q5 + 2 + items_q.len() as int;
    lemma_piece(s, 0, w, 0, 1);
    assert(w.subrange(0, 1) =~= seq![123u8]);
    assert(match_lit(s, 0, seq![123u8]));
    lemma_piece(s, 0, w, 1, 16);
    assert(w.subrange(1, 16) =~= lit_id_questions());
    assert(match_lit(s, 1, lit_id_questions()));
    lemma_piece(s, 0, w, 16, q2);
    assert(w.subrange(16, q2) =~= seq![91u8] + items_id + seq![93u8]);
    lemma_qlist_complete(s, 16, idq);
    lemma_piece(s, 0, w, q2, q3);
    assert(w.subrange(q2, q3) =~= lit_version());
    assert(match_lit(s, q2, lit_version()));
    lemma_piece(s, 0, w, q3, q4);
    assert(w.subrange(q3, q4) =~= sv);
    lemma_question_complete(s, q3, t.version);
    lemma_piece(s, 0, w, q4, q5);
    assert(w.subrange(q4, q5) =~= lit_questions());
    assert(match_lit(s, q4, lit_questions()));
    lemma_piece(s, 0, w, q5, q6);
    assert(w.subrange(q5, q6) =~= seq![91u8] + items_q + seq![93u8]);
    lemma_qlist_complete(s, q5, qs);
}

/// The tail grammar accepts the serialized fields that follow a template
/// head.
#[verifier::rlimit(100)]
#[verifier::spinoff_prover]
proof fn lemma_template_tail_complete(
    s: Seq<u8>, cps: Seq<Point>, radius: u32, height: u32, width: u32, p6: int,
)
    requires
        template_head_end(s) == Some(p6),
        0 <= p6 <= s.len(),
        s.subrange(p6, s.len() as int)
            == lit_circle_centers()
                + (seq![91u8] + ser_point_items(cps, cps.len() as int) + seq![93u8])
                + lit_circle_radius() + dec_bytes(radius as int)
                + lit_height() + dec_bytes(height as int)
                + lit_width() + dec_bytes(width as int) + seq![125u8],
    ensures
        template_accepts(s),
{
    let items_c = ser_point_items(cps, cps.len() as int);
    let dr = dec_bytes(radius as int);
    let dh = dec_bytes(height as int);
    let dw = dec_bytes(width as int);
    let w = lit_circle_centers() + (seq![91u8] + items_c + seq![93u8])
        + lit_circle_radius() + dr + lit_height() + dh + lit_width() + dw + seq![125u8];
    let q7 = 18int;
    let q8 = q7 + 2 + items_c.len() as int;
    let q9 = q8 + 17;
    let q10 = q9 + dr.len() as int;
    let q11 = q10 + 10;
    let q12 = q11 + dh.len() as int;
    let q13 = q12 + 9;
    let q14 = q13 + dw.len() as int;
    lemma_piece(s, p6, w, 0, q7);
    assert(w.subrange(0, q7) =~= lit_circle_centers());
    assert(match_lit(s, p6, lit_circle_centers()));
    lemma_piece(s, p6, w, q7, q8);
    assert(w.subrange(q7, q8) =~= seq![91u8] + items_c + seq![93u8]);
    lemma_plist_complete(s, p6 + q7, cps);
    lemma_piece(s, p6, w, q8, q9);
    assert(w.subrange(q8, q9) =~= lit_circle_radius());
    assert(match_lit(s, p6 + q8, lit_circle_radius()));
    lemma_piece(s, p6, w, q9, q10);
    assert(w.subrange(q9, q10) =~= dr);
    lemma_piece(s, p6, w, q10, q11);
    assert(w.subrange(q10, q11) =~= lit_height());
    assert(s[p6 + q10] == 44) by {
        assert(s.subrange(p6 + q10, p6 + q11)[0] == s[p6 + q10]);
    }
    lemma_num_complete(s, p6 + q9, radius as int);
    assert(match_lit(s, p6 + q10, lit_height()));
    lemma_piece(s, p6, w, q11, q12);
    assert(w.subrange(q11, q12) =~= dh);
    lemma_piece(s, p6, w, q12, q13);
    assert(w.subrange(q12, q13) =~= lit_width());
    assert(s[p6 + q12] == 44) by {
        assert(s.subrange(p6 + q12, p6 + q13)[0] == s[p6 + q12]);
    }
    lemma_num_complete(s, p6 + q11, height as int);
    assert(match_lit(s, p6 + q12, lit_width()));
    lemma_piece(s, p6, w, q13, q14);
    assert(w.subrange(q13, q14) =~= dw);
    lemma_piece(s, p6, w, q14, q14 + 1);
    assert(w.subrange(q14, q14 + 1) =~= seq![125u8]);
    assert(s[p6 + q14] == 125) by {
        assert(s.subrange(p6 + q14, p6 + q14 + 1)[0] == s[p6 + q14]);
    }
    lemma_num_complete(s, p6 + q13, width as int);
    assert(match_lit(s, p6 + q14, seq![125u8]));
    assert(p6 + q14 + 1 == s.len());
}

/// The template grammar accepts every serialized template: the
/// completeness half of the decoder's round trip.
#[verifier::rlimit(100)]
#[verifier::spinoff_prover]
pub proof fn lemma_template_complete(s: Seq<u8>, t: Template)
    requires
        s == ser_template(t),
    ensures
        template_accepts(s),
{
    let head = ser_template_head(t.id_questions@, t.version, t.questions@);
    let cps = t.circle_centers@;
    let items_c = ser_point_items(cps, cps.len() as int);
    let tail = lit_circle_centers() + (seq![91u8] + items_c + seq![93u8])
        + lit_circle_radius() + dec_bytes(t.circle_radius as int)
        + lit_height() + dec_bytes(t.height as int)
        + lit_width() + dec_bytes(t.width as int) + seq![125u8];
    let p6 = head.len() as int;
    assert(s =~= head + tail);
    assert(s.subrange(0, p6) =~= head);
    assert(s.subrange(p6, s.len() as int) =~= tail);
    lemma_template_head_complete(s, t);
    lemma_template_tail_complete(s, cps, t.circle_radius, t.height, t.width, p6);
}

/// Two questions carry the same content (their bubble sequences agree).
pub open spec fn questions_alike(q1: Question, q2: Question) -> bool {
    q1.boxes@ == q2.boxes@
}

/// Two question lists carry the same content, question for question.
pub open spec fn question_seqs_alike(s1: Seq<Question>, s2: Seq<Question>) -> bool {
    &&& s1.len() == s2.len()
    &&& forall|i: int| 0 <= i < s1.len() ==> questions_alike(#[trigger] s1[i], s2[i])
}

/// Two templates carry the same content in every field.
pub open spec fn templates_alike(t1: Template, t2: Template) -> bool {
    &&& question_seqs_alike(t1.id_questions@, t2.id_questions@)
    &&& questions_alike(t1.version, t2.version)
    &&& question_seqs_alike(t1.questions@, t2.questions@)
    &&& t1.circle_centers@ == t2.circle_centers@
    &&& t1.circle_radius == t2.circle_radius
    &&& t1.height == t2.height
    &&& t1.width == t2.width
}

/// Decimal rendering is injective.
proof fn lemma_dec_bytes_injective(a: int, b: int)
    requires
        0 <= a <= u32::MAX,
        0 <= b <= u32::MAX,
        dec_bytes(a) == dec_bytes(b),
    ensures
        a == b,
{
    let s = dec_bytes(a);
    assert(s.subrange(0, s.len() as int) =~= s);
    lemma_num_complete(s, 0, a);
    lemma_num_complete(s, 0, b);
}

/// Point serialization is injective.
proof fn lemma_ser_point_injective(p1: Point, p2: Point)
    requires
        ser_point(p1) == ser_point(p2),
    ensures
        p1 == p2,
{
    let s = ser_point(p1);
    assert(s.subrange(0, s.len() as int) =~= s);
    lemma_point_values(s, p1);
    lemma_point_values(s, p2);
    let dx1 = dec_bytes(p1.x as int);
    let dx2 = dec_bytes(p2.x as int);
    assert(p1.x == p2.x);
    assert(p1.y == p2.y);
}

/// The numbers inside a serialized point are read back by the model at
/// their fixed positions.
proof fn lemma_point_values(s: Seq<u8>, p: Point)
    requires
        s.subrange(0, ser_point(p).len() as int) == ser_point(p),
        ser_point(p).len() <= s.len(),
    ensures
        num_end(s, 5) matches Some((x, jx)) && x == p.x
            && jx == 5 + dec_bytes(p.x as int).len(),
        num_end(s, 10 + dec_bytes(p.x as int).len() as int) matches Some((y, jy))
            && y == p.y
            && jy == 10 + dec_bytes(p.x as int).len() + dec_bytes(p.y as int).len(),
{
    let w = ser_point(p);
    let dx = dec_bytes(p.x as int);
    let dy = dec_bytes(p.y as int);
    let q2 = 5 + dx.len() as int;
    let q3 = q2 + 5;
    let q4 = q3 + dy.len() as int;
    lemma_piece(s, 0, w, 5, q2);
    assert(w.subrange(5, q2) =~= dx);
    lemma_piece(s, 0, w, q2, q2 + 1);
    assert(w.subrange(q2, q2 + 1) =~= seq![44u8]);
    assert(s[q2] == 44) by {
        assert(s.subrange(q2, q2 + 1)[0] == s[q2]);
    }
    lemma_num_complete(s, 5, p.x as int);
    lemma_piece(s, 0, w, q3, q4);
    assert(w.subrange(q3, q4) =~= dy);
    lemma_piece(s, 0, w, q4, q4 + 1);
    assert(w.subrange(q4, q4 + 1) =~= seq![125u8]);
    assert(s[q4] == 125) by {
        assert(s.subrange(q4, q4 + 1)[0] == s[q4]);
    }
    lemma_num_complete(s, q3, p.y as int);
}

/// Bubble serialization is injective.
#[verifier::rlimit(100)]
#[verifier::spinoff_prover]
proof fn lemma_ser_box_injective(b1: Box, b2: Box)
    requires
        ser_box(b1) == ser_box(b2),
    ensures
        b1 == b2,
{
    let s = ser_box(b1);
    assert(s.subrange(0, s.len() as int) =~= s);
    // the first point: the model pins one end position for both readings
    lemma_piece(s, 0, s, 5, 5 + ser_point(b1.a).len() as int);
    assert(s.subrange(5, 5 + ser_point(b1.a).len() as int) =~= ser_point(b1.a));
    lemma_piece(s, 0, s, 5, 5 + ser_point(b2.a).len() as int);
    assert(s.subrange(5, 5 + ser_point(b2.a).len() as int) =~= ser_point(b2.a));
    lemma_point_complete(s, 5, b1.a);
    lemma_point_complete(s, 5, b2.a);
    assert(ser_point(b1.a).len() == ser_point(b2.a).len());
    assert(ser_point(b1.a) =~= ser_point(b2.a));
    lemma_ser_point_injective(b1.a, b2.a);
    let q3 = 5 + ser_point(b1.a).len() as int + 5;
    // the second point
    lemma_piece(s, 0, s, q3, q3 + ser_point(b1.b).len() as int);
    assert(s.subrange(q3, q3 + ser_point(b1.b).len() as int) =~= ser_point(b1.b));
    lemma_piece(s, 0, s, q3, q3 + ser_point(b2.b).len() as int);
    assert(s.subrange(q3, q3 + ser_point(b2.b).len() as int) =~= ser_point(b2.b));
    lemma_point_complete(s, q3, b1.b);
    lemma_point_complete(s, q3, b2.b);
    assert(ser_point(b1.b) =~= ser_point(b2.b));
    lemma_ser_point_injective(b1.b, b2.b);
    let q5 = q3 + ser_point(b1.b).len() as int + 9;
    // the value
    let dv1 = dec_bytes(b1.value as int);
    let dv2 = dec_bytes(b2.value as int);
    lemma_piece(s, 0, s, q5, q5 + dv1.len() as int);
    assert(s.subrange(q5, q5 + dv1.len() as int) =~= dv1);
    lemma_piece(s, 0, s, q5, q5 + dv2.len() as int);
    assert(s.subrange(q5, q5 + dv2.len() as int) =~= dv2);
    assert(s[q5 + dv1.len()] == 125) by {
        lemma_piece(s, 0, s, q5 + dv1.len() as int, q5 + dv1.len() + 1);
        assert(s.subrange(q5 + dv1.len(), q5 + dv1.len() + 1)[0] == s[q5 + dv1.len() as int]);
    }
    assert(s[q5 + dv2.len()] == 125) by {
        lemma_piece(s, 0, s, q5 + dv2.len() as int, q5 + dv2.len() + 1);
        assert(s.subrange(q5 + dv2.len(), q5 + dv2.len() + 1)[0] == s[q5 + dv2.len() as int]);
    }
    lemma_num_complete(s, q5, b1.value as int);
    lemma_num_complete(s, q5, b2.value as int);
}

/// Two bubbles whose serializations head the same byte string are the
/// same bubble.
proof fn lemma_box_head_equal(s: Seq<u8>, b1: Box, b2: Box)
    requires
        ser_box(b1).len() <= s.len(),
        s.subrange(0, ser_box(b1).len() as int) == ser_box(b1),
        ser_box(b2).len() <= s.len(),
        s.subrange(0, ser_box(b2).len() as int) == ser_box(b2),
    ensures
        b1 == b2,
{
    lemma_box_complete(s, 0, b1);
    lemma_box_complete(s, 0, b2);
    assert(ser_box(b1).len() == ser_box(b2).len());
    assert(ser_box(b1) =~= ser_box(b2));
    lemma_ser_box_injective(b1, b2);
}

/// Bubble-list suffix serialization is injective: equal suffix bytes mean
/// the same remaining bubbles.
#[verifier::rlimit(100)]
#[verifier::spinoff_prover]
proof fn lemma_box_tail_injective(bs1: Seq<Box>, k1: int, bs2: Seq<Box>, k2: int)
    requires
        0 <= k1 < bs1.len(),
        0 <= k2 < bs2.len(),
        ser_box_tail(bs1, k1) == ser_box_tail(bs2, k2),
    ensures
        bs1.len() - k1 == bs2.len() - k2,
        forall|m: int| 0 <= m < bs1.len() - k1 ==> #[trigger] bs1[k1 + m] == bs2[k2 + m],
    decreases bs1.len() - k1,
{
    let s = ser_box_tail(bs1, k1);
    assert(s.subrange(0, s.len() as int) =~= s);
    let w1 = ser_box(bs1[k1]);
    let w2 = ser_box(bs2[k2]);
    lemma_piece(s, 0, s, 0, w1.len() as int);
    assert(s.subrange(0, w1.len() as int) =~= w1);
    lemma_piece(s, 0, s, 0, w2.len() as int);
    assert(s.subrange(0, w2.len() as int) =~= w2);
    lemma_box_head_equal(s, bs1[k1], bs2[k2]);
    let li = w1.len() as int;
    assert(s[li] == (if k1 + 1 < bs1.len() { 44u8 } else { 93u8 })) by {
        lemma_piece(s, 0, s, li, li + 1);
        assert(s.subrange(li, li + 1)[0] == s[li]);
    }
    assert(s[li] == (if k2 + 1 < bs2.len() { 44u8 } else { 93u8 })) by {
        lemma_piece(s, 0, s, li, li + 1);
        assert(s.subrange(li, li + 1)[0] == s[li]);
    }
    if k1 + 1 < bs1.len() {
        assert(k2 + 1 < bs2.len());
        assert(s.subrange(li + 1, s.len() as int) =~= ser_box_tail(bs1, k1 + 1));
        assert(s.subrange(li + 1, s.len() as int) =~= ser_box_tail(bs2, k2 + 1));
        lemma_box_tail_injective(bs1, k1 + 1, bs2, k2 + 1);
        assert forall|m: int| 0 <= m < bs1.len() - k1 implies
            #[trigger] bs1[k1 + m] == bs2[k2 + m] by {
            if m > 0 {
                assert(bs1[(k1 + 1) + (m - 1)] == bs2[(k2 + 1) + (m - 1)]);
            }
        }
    } else {
        assert(!(k2 + 1 < bs2.len()));
    }
}

/// Question serialization is injective in the question's content.
#[verifier::rlimit(100)]
#[verifier::spinoff_prover]
proof fn lemma_ser_question_injective(q1: Question, q2: Question)
    requires
        ser_question(q1) == ser_question(q2),
    ensures
        questions_alike(q1, q2),
{
    let s = ser_question(q1);
    assert(s.subrange(0, s.len() as int) =~= s);
    let bs1 = q1.boxes@;
    let bs2 = q2.boxes@;
    // both views agree on whether the list is empty: a bubble object opens
    // with a brace, the empty list closes at once
    assert(s[10] == (if bs1.len() == 0 { 93u8 } else { 123u8 })) by {
        if bs1.len() == 0 {
            assert(s =~= seq![123u8, 34u8, 98u8, 111u8, 120u8, 101u8, 115u8, 34u8, 58u8, 91u8]
                + ser_box_items(bs1, 0) + seq![93u8, 125u8]);
        } else {
            lemma_box_tail_bridge(bs1, 0);
            assert(s.subrange(10, s.len() as int) =~= ser_box_tail(bs1, 0));
            assert(s.subrange(10, s.len() as int)[0] == s[10]);
            assert(ser_box_tail(bs1, 0)[0] == ser_box(bs1[0])[0]);
        }
    }
    assert(s[10] == (if bs2.len() == 0 { 93u8 } else { 123u8 })) by {
        if bs2.len() == 0 {
            assert(s =~= seq![123u8, 34u8, 98u8, 111u8, 120u8, 101u8, 115u8, 34u8, 58u8, 91u8]
                + ser_box_items(bs2, 0) + seq![93u8, 125u8]);
        } else {
            lemma_box_tail_bridge(bs2, 0);
            assert(s.subrange(10, s.len() as int) =~= ser_box_tail(bs2, 0));
            assert(s.subrange(10, s.len() as int)[0] == s[10]);
            assert(ser_box_tail(bs2, 0)[0] == ser_box(bs2[0])[0]);
        }
    }
    if bs1.len() == 0 {
        assert(bs2.len() == 0);
        assert(bs1 =~= bs2);
    } else {
        assert(bs2.len() > 0);
        lemma_box_tail_bridge(bs1, 0);
        lemma_box_tail_bridge(bs2, 0);
        assert(s.subrange(10, s.len() as int) =~= ser_box_tail(bs1, 0));
        assert(s.subrange(10, s.len() as int) =~= ser_box_tail(bs2, 0));
        lemma_box_tail_injective(bs1, 0, bs2, 0);
        assert forall|m: int| 0 <= m < bs1.len() implies bs1[m] == bs2[m] by {
            assert(bs1[0 + m] == bs2[0 + m]);
        }
        assert(bs1 =~= bs2);
    }
}

/// Two questions whose serializations head the same byte string are alike.
proof fn lemma_question_head_equal(s: Seq<u8>, q1: Question, q2: Question)
    requires
        ser_question(q1).len() <= s.len(),
        s.subrange(0, ser_question(q1).len() as int) == ser_question(q1),
        ser_question(q2).len() <= s.len(),
        s.subrange(0, ser_question(q2).len() as int) == ser_question(q2),
    ensures
        questions_alike(q1, q2),
        ser_question(q1) == ser_question(q2),
{
    lemma_question_complete(s, 0, q1);
    lemma_question_complete(s, 0, q2);
    assert(ser_question(q1).len() == ser_question(q2).len());
    assert(ser_question(q1) =~= ser_question(q2));
    lemma_ser_question_injective(q1, q2);
}

/// Question-list suffix serialization is injective.
#[verifier::rlimit(100)]
#[verifier::spinoff_prover]
proof fn lemma_question_tail_injective(qs1: Seq<Question>, k1: int, qs2: Seq<Question>, k2: int)
    requires
        0 <= k1 < qs1.len(),
        0 <= k2 < qs2.len(),
        ser_question_tail(qs1, k1) == ser_question_tail(qs2, k2),
    ensures
        qs1.len() - k1 == qs2.len() - k2,
        forall|m: int| 0 <= m < qs1.len() - k1
            ==> questions_alike(#[trigger] qs1[k1 + m], qs2[k2 + m]),
    decreases qs1.len() - k1,
{
    let s = ser_question_tail(qs1, k1);
    assert(s.subrange(0, s.len() as int) =~= s);
    let w1 = ser_question(qs1[k1]);
    let w2 = ser_question(qs2[k2]);
    lemma_piece(s, 0, s, 0, w1.len() as int);
    assert(s.subrange(0, w1.len() as int) =~= w1);
    lemma_piece(s, 0, s, 0, w2.len() as int);
    assert(s.subrange(0, w2.len() as int) =~= w2);
    lemma_question_head_equal(s, qs1[k1], qs2[k2]);
    let li = w1.len() as int;
    assert(s[li] == (if k1 + 1 < qs1.len() { 44u8 } else { 93u8 })) by {
        lemma_piece(s, 0, s, li, li + 1);
        assert(s.subrange(li, li + 1)[0] == s[li]);
    }
    assert(s[li] == (if k2 + 1 < qs2.len() { 44u8 } else { 93u8 })) by {
        lemma_piece(s, 0, s, li, li + 1);
        assert(s.subrange(li, li + 1)[0] == s[li]);
    }
    if k1 + 1 < qs1.len() {
        assert(k2 + 1 < qs2.len());
        assert(s.subrange(li + 1, s.len() as int) =~= ser_question_tail(qs1, k1 + 1));
        assert(s.subrange(li + 1, s.len() as int) =~= ser_question_tail(qs2, k2 + 1));
        lemma_question_tail_injective(qs1, k1 + 1, qs2, k2 + 1);
        assert forall|m: int| 0 <= m < qs1.len() - k1 implies
            questions_alike(#[trigger] qs1[k1 + m], qs2[k2 + m]) by {
            if m > 0 {
                assert(questions_alike(qs1[(k1 + 1) + (m - 1)], qs2[(k2 + 1) + (m - 1)]));
            }
        }
    } else {
        assert(!(k2 + 1 < qs2.len()));
    }
}

/// The bracketed question-list serialization is injective in the
/// questions' content.
#[verifier::rlimit(100)]
#[verifier::spinoff_prover]
proof fn lemma_qlist_injective(qs1: Seq<Question>, qs2: Seq<Question>)
    requires
        seq![91u8] + ser_question_items(qs1, qs1.len() as int) + seq![93u8]
            == seq![91u8] + ser_question_items(qs2, qs2.len() as int) + seq![93u8],
    ensures
        question_seqs_alike(qs1, qs2),
{
    let s = seq![91u8] + ser_question_items(qs1, qs1.len() as int) + seq![93u8];
    assert(s.subrange(0, s.len() as int) =~= s);
    assert(s[1] == (if qs1.len() == 0 { 93u8 } else { 123u8 })) by {
        if qs1.len() > 0 {
            lemma_question_tail_bridge(qs1, 0);
            assert(s.subrange(1, s.len() as int) =~= ser_question_tail(qs1, 0));
            assert(s.subrange(1, s.len() as int)[0] == s[1]);
            assert(ser_question_tail(qs1, 0)[0] == ser_question(qs1[0])[0]);
        }
    }
    assert(s[1] == (if qs2.len() == 0 { 93u8 } else { 123u8 })) by {
        if qs2.len() > 0 {
            lemma_question_tail_bridge(qs2, 0);
            assert(s =~= seq![91u8] + ser_question_items(qs2, qs2.len() as int) + seq![93u8]);
            assert(s.subrange(1, s.len() as int) =~= ser_question_tail(qs2, 0));
            assert(s.subrange(1, s.len() as int)[0] == s[1]);
            assert(ser_question_tail(qs2, 0)[0] == ser_question(qs2[0])[0]);
        }
    }
    if qs1.len() == 0 {
        assert(qs2.len() == 0);
    } else {
        assert(qs2.len() > 0);
        lemma_question_tail_bridge(qs1, 0);
        lemma_question_tail_bridge(qs2, 0);
        assert(s.subrange(1, s.len() as int) =~= ser_question_tail(qs1, 0));
        assert(s.subrange(1, s.len() as int) =~= ser_question_tail(qs2, 0));
        lemma_question_tail_injective(qs1, 0, qs2, 0);
        assert forall|m: int| 0 <= m < qs1.len() implies
            questions_alike(#[trigger] qs1[m], qs2[m]) by {
            assert(questions_alike(qs1[0 + m], qs2[0 + m]));
        }
    }
}

/// Point-list suffix serialization is injective.
#[verifier::rlimit(100)]
#[verifier::spinoff_prover]
proof fn lemma_point_tail_injective(ps1: Seq<Point>, k1: int, ps2: Seq<Point>, k2: int)
    requires
        0 <= k1 < ps1.len(),
        0 <= k2 < ps2.len(),
        ser_point_tail(ps1, k1) == ser_point_tail(ps2, k2),
    ensures
        ps1.len() - k1 == ps2.len() - k2,
        forall|m: int| 0 <= m < ps1.len() - k1 ==> #[trigger] ps1[k1 + m] == ps2[k2 + m],
    decreases ps1.len() - k1,
{
    let s = ser_point_tail(ps1, k1);
    assert(s.subrange(0, s.len() as int) =~= s);
    let w1 = ser_point(ps1[k1]);
    let w2 = ser_point(ps2[k2]);
    lemma_piece(s, 0, s, 0, w1.len() as int);
    assert(s.subrange(0, w1.len() as int) =~= w1);
    lemma_piece(s, 0, s, 0, w2.len() as int);
    assert(s.subrange(0, w2.len() as int) =~= w2);
    lemma_point_complete(s, 0, ps1[k1]);
    lemma_point_complete(s, 0, ps2[k2]);
    assert(w1.len() == w2.len());
    assert(w1 =~= w2);
    lemma_ser_point_injective(ps1[k1], ps2[k2]);
    let li = w1.len() as int;
    assert(s[li] == (if k1 + 1 < ps1.len() { 44u8 } else { 93u8 })) by {
        lemma_piece(s, 0, s, li, li + 1);
        assert(s.subrange(li, li + 1)[0] == s[li]);
    }
    assert(s[li] == (if k2 + 1 < ps2.len() { 44u8 } else { 93u8 })) by {
        lemma_piece(s, 0, s, li, li + 1);
        assert(s.subrange(li, li + 1)[0] == s[li]);
    }
    if k1 + 1 < ps1.len() {
        assert(k2 + 1 < ps2.len());
        assert(s.subrange(li + 1, s.len() as int) =~= ser_point_tail(ps1, k1 + 1));
        assert(s.subrange(li + 1, s.len() as int) =~= ser_point_tail(ps2, k2 + 1));
        lemma_point_tail_injective(ps1, k1 + 1, ps2, k2 + 1);
        assert forall|m: int| 0 <= m < ps1.len() - k1 implies
            #[trigger] ps1[k1 + m] == ps2[k2 + m] by {
            if m > 0 {
                assert(ps1[(k1 + 1) + (m - 1)] == ps2[(k2 + 1) + (m - 1)]);
            }
        }
    } else {
        assert(!(k2 + 1 < ps2.len()));
    }
}

/// The bracketed point-list serialization is injective.
#[verifier::rlimit(100)]
#[verifier::spinoff_prover]
proof fn lemma_plist_injective(ps1: Seq<Point>, ps2: Seq<Point>)
    requires
        seq![91u8] + ser_point_items(ps1, ps1.len() as int) + seq![93u8]
            == seq![91u8] + ser_point_items(ps2, ps2.len() as int) + seq![93u8],
    ensures
        ps1 == ps2,
{
    let s = seq![91u8] + ser_point_items(ps1, ps1.len() as int) + seq![93u8];
    assert(s.subrange(0, s.len() as int) =~= s);
    assert(s[1] == (if ps1.len() == 0 { 93u8 } else { 123u8 })) by {
        if ps1.len() > 0 {
            lemma_point_tail_bridge(ps1, 0);
            assert(s.subrange(1, s.len() as int) =~= ser_point_tail(ps1, 0));
            assert(s.subrange(1, s.len() as int)[0] == s[1]);
            assert(ser_point_tail(ps1, 0)[0] == ser_point(ps1[0])[0]);
        }
    }
    assert(s[1] == (if ps2.len() == 0 { 93u8 } else { 123u8 })) by {
        if ps2.len() > 0 {
            lemma_point_tail_bridge(ps2, 0);
            assert(s =~= seq![91u8] + ser_point_items(ps2, ps2.len() as int) + seq![93u8]);
            assert(s.subrange(1, s.len() as int) =~= ser_point_tail(ps2, 0));
            assert(s.subrange(1, s.len() as int)[0] == s[1]);
            assert(ser_point_tail(ps2, 0)[0] == ser_point(ps2[0])[0]);
        }
    }
    if ps1.len() == 0 {
        assert(ps2.len() == 0);
        assert(ps1 =~= ps2);
    } else {
        assert(ps2.len() > 0);
        lemma_point_tail_bridge(ps1, 0);
        lemma_point_tail_bridge(ps2, 0);
        assert(s.subrange(1, s.len() as int) =~= ser_point_tail(ps1, 0));
        assert(s.subrange(1, s.len() as int) =~= ser_point_tail(ps2, 0));
        lemma_point_tail_injective(ps1, 0, ps2, 0);
        assert forall|m: int| 0 <= m < ps1.len() implies ps1[m] == ps2[m] by {
            assert(ps1[0 + m] == ps2[0 + m]);
        }
        assert(ps1 =~= ps2);
    }
}

/// Two template heads over the same bytes carry the same content.
#[verifier::rlimit(100)]
#[verifier::spinoff_prover]
proof fn lemma_template_head_injective(s: Seq<u8>, t1: Template, t2: Template)
    requires
        ser_template_head(t1.id_questions@, t1.version, t1.questions@).len() <= s.len(),
        s.subrange(0, ser_template_head(t1.id_questions@, t1.version, t1.questions@).len() as int)
            == ser_template_head(t1.id_questions@, t1.version, t1.questions@),
        ser_template_head(t2.id_questions@, t2.version, t2.questions@).len() <= s.len(),
        s.subrange(0, ser_template_head(t2.id_questions@, t2.version, t2.questions@).len() as int)
            == ser_template_head(t2.id_questions@, t2.version, t2.questions@),
    ensures
        question_seqs_alike(t1.id_questions@, t2.id_questions@),
        questions_alike(t1.version, t2.version),
        question_seqs_alike(t1.questions@, t2.questions@),
        ser_template_head(t1.id_questions@, t1.version, t1.questions@).len()
            == ser_template_head(t2.id_questions@, t2.version, t2.questions@).len(),
{
    lemma_template_head_pieces(s, t1);
    lemma_template_head_pieces(s, t2);
    let idq1 = t1.id_questions@;
    let idq2 = t2.id_questions@;
    let lid1 = ser_question_items(idq1, idq1.len() as int).len() as int;
    let lid2 = ser_question_items(idq2, idq2.len() as int).len() as int;
    assert(16 + 2 + lid1 == 16 + 2 + lid2);
    let q2 = 16 + 2 + lid1;
    assert(seq![91u8] + ser_question_items(idq1, idq1.len() as int) + seq![93u8]
        =~= seq![91u8] + ser_question_items(idq2, idq2.len() as int) + seq![93u8]);
    lemma_qlist_injective(idq1, idq2);
    let lv1 = ser_question(t1.version).len() as int;
    let lv2 = ser_question(t2.version).len() as int;
    assert(lv1 == lv2);
    assert(ser_question(t1.version) =~= ser_question(t2.version));
    lemma_ser_question_injective(t1.version, t2.version);
    let qs1 = t1.questions@;
    let qs2 = t2.questions@;
    assert(seq![91u8] + ser_question_items(qs1, qs1.len() as int) + seq![93u8]
        =~= seq![91u8] + ser_question_items(qs2, qs2.len() as int) + seq![93u8]);
    lemma_qlist_injective(qs1, qs2);
}

/// The pieces of a template head, pinned against the common bytes by the
/// grammar models: the list and question ends, and the piece subranges.
#[verifier::rlimit(100)]
#[verifier::spinoff_prover]
proof fn lemma_template_head_pieces(s: Seq<u8>, t: Template)
    requires
        ser_template_head(t.id_questions@, t.version, t.questions@).len() <= s.len(),
        s.subrange(0, ser_template_head(t.id_questions@, t.version, t.questions@).len() as int)
            == ser_template_head(t.id_questions@, t.version, t.questions@),
    ensures
        ({
            let idq = t.id_questions@;
            let qs = t.questions@;
            let lid = ser_question_items(idq, idq.len() as int).len() as int;
            let q2 = 16 + 2 + lid;
            let q4 = q2 + 11 + ser_question(t.version).len() as int;
            &&& qlist_end(s, 16) == Some(q2)
            &&& s.subrange(16, q2)
                == seq![91u8] + ser_question_items(idq, idq.len() as int) + seq![93u8]
            &&& question_end(s, q2 + 11) == Some(q4)
            &&& s.subrange(q2 + 11, q4) == ser_question(t.version)
            &&& qlist_end(s, q4 + 13)
                == Some(q4 + 13 + 2 + ser_question_items(qs, qs.len() as int).len() as int)
            &&& s.subrange(q4 + 13,
                q4 + 13 + 2 + ser_question_items(qs, qs.len() as int).len() as int)
                == seq![91u8] + ser_question_items(qs, qs.len() as int) + seq![93u8]
        }),
{
    let w = ser_template_head(t.id_questions@, t.version, t.questions@);
    let idq = t.id_questions@;
    let qs = t.questions@;
    let items_id = ser_question_items(idq, idq.len() as int);
    let items_q = ser_question_items(qs, qs.len() as int);
    let sv = ser_question(t.version);
    let q2 = 16 + 2 + items_id.len() as int;
    let q3 = q2 + 11;
    let q4 = q3 + sv.len() as int;
    let q5 = q4 + 13;
    let q6 = q5 + 2 + items_q.len() as int;
    lemma_piece(s, 0, w, 16, q2);
    assert(w.subrange(16, q2) =~= seq![91u8] + items_id + seq![93u8]);
    lemma_qlist_complete(s, 16, idq);
    lemma_piece(s, 0, w, q3, q4);
    assert(w.subrange(q3, q4) =~= sv);
    lemma_question_complete(s, q3, t.version);
    lemma_piece(s, 0, w, q5, q6);
    assert(w.subrange(q5, q6) =~= seq![91u8] + items_q + seq![93u8]);
    lemma_qlist_complete(s, q5, qs);
}

/// Canonical template serialization is injective: byte-identical
/// encodings carry identical content in every field.
#[verifier::rlimit(100)]
#[verifier::spinoff_prover]
pub proof fn lemma_ser_template_injective(t1: Template, t2: Template)
    requires
        ser_template(t1) == ser_template(t2),
    ensures
        templates_alike(t1, t2),
{
    let s = ser_template(t1);
    assert(s.subrange(0, s.len() as int) =~= s);
    lemma_template_split(s, t1);
    lemma_template_split(s, t2);
    lemma_template_head_injective(s, t1, t2);
    let p6 = ser_template_head(t1.id_questions@, t1.version, t1.questions@).len() as int;
    lemma_template_tail_pieces(s, t1, p6);
    lemma_template_tail_pieces(s, t2, p6);
    let cps1 = t1.circle_centers@;
    let cps2 = t2.circle_centers@;
    let lc1 = ser_point_items(cps1, cps1.len() as int).len() as int;
    let lc2 = ser_point_items(cps2, cps2.len() as int).len() as int;
    assert(lc1 == lc2);
    assert(seq![91u8] + ser_point_items(cps1, cps1.len() as int) + seq![93u8]
        =~= seq![91u8] + ser_point_items(cps2, cps2.len() as int) + seq![93u8]);
    lemma_plist_injective(cps1, cps2);
}

/// A whole serialized template splits into its head and tail pieces.
#[verifier::rlimit(100)]
#[verifier::spinoff_prover]
proof fn lemma_template_split(s: Seq<u8>, t: Template)
    requires
        s == ser_template(t),
    ensures
        ser_template_head(t.id_questions@, t.version, t.questions@).len() <= s.len(),
        s.subrange(0, ser_template_head(t.id_questions@, t.version, t.questions@).len() as int)
            == ser_template_head(t.id_questions@, t.version, t.questions@),
        s.subrange(ser_template_head(t.id_questions@, t.version, t.questions@).len() as int,
            s.len() as int)
            == lit_circle_centers()
                + (seq![91u8]
                    + ser_point_items(t.circle_centers@, t.circle_centers@.len() as int)
                    + seq![93u8])
                + lit_circle_radius() + dec_bytes(t.circle_radius as int)
                + lit_height() + dec_bytes(t.height as int)
                + lit_width() + dec_bytes(t.width as int) + seq![125u8],
{
    let head = ser_template_head(t.id_questions@, t.version, t.questions@);
    let tail = lit_circle_centers()
        + (seq![91u8] + ser_point_items(t.circle_centers@, t.circle_centers@.len() as int)
            + seq![93u8])
        + lit_circle_radius() + dec_bytes(t.circle_radius as int)
        + lit_height() + dec_bytes(t.height as int)
        + lit_width() + dec_bytes(t.width as int) + seq![125u8];
    assert(s =~= head + tail);
    assert(s.subrange(0, head.len() as int) =~= head);
    assert(s.subrange(head.len() as int, s.len() as int) =~= tail);
}

/// The pieces of a template tail, pinned against the common bytes by the
/// grammar models: the point-list end and the three field values.
#[verifier::rlimit(100)]
#[verifier::spinoff_prover]
proof fn lemma_template_tail_pieces(s: Seq<u8>, t: Template, p6: int)
    requires
        0 <= p6 <= s.len(),
        s.subrange(p6, s.len() as int)
            == lit_circle_centers()
                + (seq![91u8]
                    + ser_point_items(t.circle_centers@, t.circle_centers@.len() as int)
                    + seq![93u8])
                + lit_circle_radius() + dec_bytes(t.circle_radius as int)
                + lit_height() + dec_bytes(t.height as int)
                + lit_width() + dec_bytes(t.width as int) + seq![125u8],
    ensures
        ({
            let cps = t.circle_centers@;
            let lc = ser_point_items(cps, cps.len() as int).len() as int;
            let p8 = p6 + 18 + 2 + lc;
            let p10 = p8 + 17 + dec_bytes(t.circle_radius as int).len() as int;
            let p12 = p10 + 10 + dec_bytes(t.height as int).len() as int;
            &&& plist_end(s, p6 + 18) == Some(p8)
            &&& s.subrange(p6 + 18, p8)
                == seq![91u8] + ser_point_items(cps, cps.len() as int) + seq![93u8]
            &&& num_end(s, p8 + 17) == Some((t.circle_radius as int, p10))
            &&& num_end(s, p10 + 10) == Some((t.height as int, p12))
            &&& num_end(s, p12 + 9) == Some((t.width as int,
                p12 + 9 + dec_bytes(t.width as int).len() as int))
        }),
{
    let cps = t.circle_centers@;
    let items_c = ser_point_items(cps, cps.len() as int);
    let dr = dec_bytes(t.circle_radius as int);
    let dh = dec_bytes(t.height as int);
    let dw = dec_bytes(t.width as int);
    let w = lit_circle_centers() + (seq![91u8] + items_c + seq![93u8])
        + lit_circle_radius() + dr + lit_height() + dh + lit_width() + dw + seq![125u8];
    let q7 = 18int;
    let q8 = q7 + 2 + items_c.len() as int;
    let q9 = q8 + 17;
    let q10 = q9 + dr.len() as int;
    let q11 = q10 + 10;
    let q12 = q11 + dh.len() as int;
    let q13 = q12 + 9;
    let q14 = q13 + dw.len() as int;
    assert(s.len() - p6 == w.len()) by {
        assert(s.subrange(p6, s.len() as int).len() == s.len() - p6);
    }
    lemma_piece(s, p6, w, q7, q8);
    assert(w.subrange(q7, q8) =~= seq![91u8] + items_c + seq![93u8]);
    assert(p6 + q7 + 2 + items_c.len() <= s.len());
    lemma_plist_complete(s, p6 + q7, cps);
    lemma_piece(s, p6, w, q9, q10);
    assert(w.subrange(q9, q10) =~= dr);
    lemma_piece(s, p6, w, q10, q10 + 1);
    assert(w.subrange(q10, q10 + 1) =~= seq![44u8]);
    assert(s[p6 + q10] == 44) by {
        assert(s.subrange(p6 + q10, p6 + q10 + 1)[0] == s[p6 + q10]);
    }
    lemma_num_complete(s, p6 + q9, t.circle_radius as int);
    lemma_piece(s, p6, w, q11, q12);
    assert(w.subrange(q11, q12) =~= dh);
    lemma_piece(s, p6, w, q12, q12 + 1);
    assert(w.subrange(q12, q12 + 1) =~= seq![44u8]);
    assert(s[p6 + q12] == 44) by {
        assert(s.subrange(p6 + q12, p6 + q12 + 1)[0] == s[p6 + q12]);
    }
    lemma_num_complete(s, p6 + q11, t.height as int);
    lemma_piece(s, p6, w, q13, q14);
    assert(w.subrange(q13, q14) =~= dw);
    lemma_piece(s, p6, w, q14, q14 + 1);
    assert(w.subrange(q14, q14 + 1) =~= seq![125u8]);
    assert(s[p6 + q14] == 125) by {
        assert(s.subrange(p6 + q14, p6 + q14 + 1)[0] == s[p6 + q14]);
    }
    lemma_num_complete(s, p6 + q13, t.width as int);
}

/// Decode a template from JSON bytes.
///
/// The contract is two-sided: decoding succeeds exactly on the inputs the
/// template grammar accepts (in particular on every encoder output, by
/// [`lemma_template_complete`]), and a decoded template's canonical
/// serialization is byte-identical to the input.  Together with
/// [`lemma_ser_template_injective`] this closes the round trip: decoding
/// an encoded template returns one with identical content in every field.
/// Callers that need the template invariant run [`template_is_wf`] on the
/// result.
pub fn decode_template(bytes: &Vec<u8>) -> (r: Option<Template>)
    ensures
        r is Some <==> template_accepts(bytes@),
        (exists|t: Template| ser_template(t) == bytes@) ==> r is Some,
        r matches Some(t) ==> ser_template(t) == bytes@,
{
    proof {
        if exists|t: Template| ser_template(t) == bytes@ {
            let t = choose|t: Template| ser_template(t) == bytes@;
            lemma_template_complete(bytes@, t);
        }
    }
    parse_template_raw(bytes)
}

/// Check the template invariant at run time: exactly three in-range ring
/// centers, in-range bubble corners, and usable radius, page size and
/// question counts.
pub fn template_is_wf(t: &Template) -> (r: bool)
    ensures
        r == t.wf(),
{
    if t.circle_centers.len() != 3 {
        return false;
    }
    let mut i: usize = 0;
    while i < 3
        invariant
            t.circle_centers@.len() == 3,
            0 <= i <= 3,
            forall|j: int| 0 <= j < i ==> (#[trigger] t.circle_centers@[j]).in_range(),
        decreases 3 - i,
    {
        let c = t.circle_centers[i];
        if !(c.x < crate::point::COORD_LIMIT && c.y < crate::point::COORD_LIMIT) {
            return false;
        }
        i = i + 1;
    }
    if !(t.questions.len() < 0x10000 && t.id_questions.len() < 0x10000) {
        return false;
    }
    if !(0 < t.circle_radius && t.circle_radius <= 0xF0000) {
        return false;
    }
    if !(0 < t.height && t.height < 0x8000 && 0 < t.width && t.width < 0x8000) {
        return false;
    }
    let mut i: usize = 0;
    while i < t.id_questions.len()
        invariant
            0 <= i <= t.id_questions@.len(),
            forall|j: int| 0 <= j < i ==> (#[trigger] t.id_questions@[j]).wf(),
        decreases t.id_questions@.len() - i,
    {
        if !question_is_wf(&t.id_questions[i]) {
            return false;
        }
        i = i + 1;
    }
    if !question_is_wf(&t.version) {
        return false;
    }
    let mut i: usize = 0;
    while i < t.questions.len()
        invariant
            0 <= i <= t.questions@.len(),
            forall|j: int| 0 <= j < i ==> (#[trigger] t.questions@[j]).wf(),
        decreases t.questions@.len() - i,
    {
        if !question_is_wf(&t.questions[i]) {
            return false;
        }
        i = i + 1;
    }
    true
}

/// Check a question's coordinate range at run time.
fn question_is_wf(q: &Question) -> (r: bool)
    ensures
        r == q.wf(),
{
    let mut i: usize = 0;
    while i < q.boxes.len()
        invariant
            0 <= i <= q.boxes@.len(),
            forall|j: int| 0 <= j < i ==> (#[trigger] q.boxes@[j]).wf(),
        decreases q.boxes@.len() - i,
    {
        let b = q.boxes[i];
        if !(b.a.x < crate::point::COORD_LIMIT && b.a.y < crate::point::COORD_LIMIT
            && b.b.x < crate::point::COORD_LIMIT && b.b.y < crate::point::COORD_LIMIT) {
            return false;
        }
        i = i + 1;
    }
    true
}

/// Serializing a number-list prefix reads only the entries below `n`.
proof fn lemma_ser_num_items_prefix(vs1: Seq<u32>, vs2: Seq<u32>, n: int)
    requires
        forall|k: int| 0 <= k < n ==> vs1[k] == vs2[k],
    ensures
        ser_num_items(vs1, n) == ser_num_items(vs2, n),
    decreases n,
{
    if n > 0 {
        lemma_ser_num_items_prefix(vs1, vs2, n - 1);
    }
}

/// The end position of the number list from its first item at `p` to the
/// closing bracket.
pub open spec fn num_items_end(s: Seq<u8>, p: int) -> Option<int>
    decreases s.len() - p,
{
    match num_end(s, p) {
        None => None,
        Some((v, j)) => if !(p < j <= s.len()) {
            None
        } else if j < s.len() && s[j] == 44 {
            if j + 1 < s.len() {
                num_items_end(s, j + 1)
            } else {
                None
            }
        } else if j < s.len() && s[j] == 93 {
            Some(j + 1)
        } else {
            None
        },
    }
}

/// The end position of the answer entry at position `p`: a bare number or
/// a bracketed list of numbers.
pub open spec fn answer_end(s: Seq<u8>, p: int) -> Option<int> {
    if 0 <= p < s.len() && s[p] == 91 {
        let q = p + 1;
        if q < s.len() && s[q] == 93 {
            Some(q + 1)
        } else {
            num_items_end(s, q)
        }
    } else {
        match num_end(s, p) {
            None => None,
            Some((v, j)) => Some(j),
        }
    }
}

/// Read one answer entry; a parsed entry occupies exactly its
/// serialization, keeping the bare-number / array distinction.
#[verifier::rlimit(100)]
#[verifier::spinoff_prover]
fn parse_answer_raw(bytes: &Vec<u8>, pos: usize) -> (r: Option<(CorrectAnswer, usize)>)
    ensures
        r is Some <==> answer_end(bytes@, pos as int) is Some,
        r matches Some((v, j)) ==> {
            &&& answer_end(bytes@, pos as int) == Some(j as int)
            &&& pos < j <= bytes@.len()
            &&& bytes@.subrange(pos as int, j as int) == ser_answer(v)
        },
{
    if pos < bytes.len() && bytes[pos] == 91 {
        let mut p = pos + 1;
        let mut vs: Vec<u32> = Vec::new();
        if p < bytes.len() && bytes[p] == 93 {
            proof {
                assert(bytes@.subrange(pos as int, p + 1)
                    =~= seq![91u8] + ser_num_items(vs@, vs@.len() as int) + seq![93u8]);
            }
            return Some((CorrectAnswer::OneOf(vs), p + 1));
        }
        loop
            invariant
                pos < p <= bytes@.len(),
                0 <= pos < bytes@.len(),
                bytes@[pos as int] == 91,
                answer_end(bytes@, pos as int) == num_items_end(bytes@, p as int),
                (vs@.len() == 0 && p == pos + 1)
                    || (vs@.len() > 0 && bytes@.subrange(pos + 1, p as int)
                        == ser_num_items(vs@, vs@.len() as int) + seq![44u8]),
            decreases bytes@.len() - p,
        {
            let ghost n0 = vs@.len() as int;
            let ghost p_head = p as int;
            let item = parse_u32_raw(bytes, p);
            match item {
                None => {
                    return None;
                },
                Some((v, p2)) => {
                    let ghost old_vs = vs@;
                    vs.push(v);
                    proof {
                        lemma_ser_num_items_prefix(old_vs, vs@, n0);
                        if n0 > 0 {
                            lemma_subrange_split(bytes@, pos + 1, p_head, p2 as int);
                        }
                        assert(bytes@.subrange(pos + 1, p2 as int)
                            =~= ser_num_items(vs@, vs@.len() as int));
                    }
                    p = p2;
                },
            }
            if p < bytes.len() && bytes[p] == 44 {
                proof {
                    lemma_subrange_split(bytes@, pos + 1, p as int, p + 1);
                    assert(bytes@.subrange(p as int, p + 1) =~= seq![44u8]);
                }
                p = p + 1;
                if p >= bytes.len() {
                    return None;
                }
            } else if p < bytes.len() && bytes[p] == 93 {
                proof {
                    lemma_subrange_split(bytes@, pos as int, pos + 1, p + 1);
                    lemma_subrange_split(bytes@, pos + 1, p as int, p + 1);
                    assert(bytes@.subrange(pos as int, pos + 1) =~= seq![91u8]);
                    assert(bytes@.subrange(p as int, p + 1) =~= seq![93u8]);
                    assert(bytes@.subrange(pos as int, p + 1)
                        =~= seq![91u8] + ser_num_items(vs@, vs@.len() as int) + seq![93u8]);
                }
                return Some((CorrectAnswer::OneOf(vs), p + 1));
            } else {
                return None;
            }
        }
    } else {
        let (v, p) = parse_u32_raw(bytes, pos)?;
        Some((CorrectAnswer::Exactly(v), p))
    }
}

/// The serialized number-list suffix from item `k` on, through the
/// closing bracket.
pub open spec fn ser_num_tail(vs: Seq<u32>, k: int) -> Seq<u8>
    decreases vs.len() - k,
{
    if k + 1 < vs.len() {
        dec_bytes(vs[k] as int) + seq![44u8] + ser_num_tail(vs, k + 1)
    } else if k < vs.len() {
        dec_bytes(vs[k] as int) + seq![93u8]
    } else {
        seq![93u8]
    }
}

/// The left-fold serialization of a number list splits as any parsed
/// prefix followed by the suffix form.
proof fn lemma_num_tail_bridge(vs: Seq<u32>, k: int)
    requires
        0 <= k < vs.len(),
    ensures
        ser_num_items(vs, vs.len() as int) + seq![93u8]
            == ser_num_items(vs, k)
                + (if k > 0 { seq![44u8] } else { Seq::<u8>::empty() })
                + ser_num_tail(vs, k),
    decreases vs.len() - k,
{
    let n = vs.len() as int;
    if k + 1 < n {
        lemma_num_tail_bridge(vs, k + 1);
        assert(ser_num_items(vs, n) + seq![93u8]
            =~= ser_num_items(vs, k)
                + (if k > 0 { seq![44u8] } else { Seq::<u8>::empty() })
                + ser_num_tail(vs, k));
    } else {
        assert(ser_num_items(vs, n) + seq![93u8]
            =~= ser_num_items(vs, k)
                + (if k > 0 { seq![44u8] } else { Seq::<u8>::empty() })
                + ser_num_tail(vs, k));
    }
}

/// The number-list walk accepts every serialized suffix.
proof fn lemma_num_items_complete(s: Seq<u8>, p: int, vs: Seq<u32>, k: int)
    requires
        0 <= k < vs.len(),
        0 <= p,
        p + ser_num_tail(vs, k).len() <= s.len(),
        s.subrange(p, p + ser_num_tail(vs, k).len() as int) == ser_num_tail(vs, k),
    ensures
        num_items_end(s, p) == Some(p + ser_num_tail(vs, k).len() as int),
    decreases vs.len() - k,
{
    let w = ser_num_tail(vs, k);
    let item = dec_bytes(vs[k] as int);
    let li = item.len() as int;
    lemma_piece(s, p, w, 0, li);
    assert(w.subrange(0, li) =~= item);
    let j = p + li;
    if k + 1 < vs.len() {
        lemma_piece(s, p, w, li, li + 1);
        assert(w.subrange(li, li + 1) =~= seq![44u8]);
        assert(s[j] == 44) by {
            assert(s.subrange(j, j + 1)[0] == s[j]);
        }
        lemma_num_complete(s, p, vs[k] as int);
        lemma_piece(s, p, w, li + 1, w.len() as int);
        assert(w.subrange(li + 1, w.len() as int) =~= ser_num_tail(vs, k + 1));
        lemma_num_items_complete(s, j + 1, vs, k + 1);
    } else {
        lemma_piece(s, p, w, li, li + 1);
        assert(w.subrange(li, li + 1) =~= seq![93u8]);
        assert(s[j] == 93) by {
            assert(s.subrange(j, j + 1)[0] == s[j]);
        }
        lemma_num_complete(s, p, vs[k] as int);
    }
}

/// The answer grammar accepts every serialized answer entry followed by a
/// non-digit (the separator or closer of the enclosing list).
proof fn lemma_answer_complete(s: Seq<u8>, i: int, a: CorrectAnswer)
    requires
        0 <= i,
        i + ser_answer(a).len() <= s.len(),
        s.subrange(i, i + ser_answer(a).len() as int) == ser_answer(a),
        i + ser_answer(a).len() == s.len()
            || !is_digit(s[i + ser_answer(a).len() as int]),
    ensures
        answer_end(s, i) == Some(i + ser_answer(a).len() as int),
{
    let w = ser_answer(a);
    match a {
        CorrectAnswer::Exactly(n) => {
            assert(s[i] == w[0]) by {
                assert(s.subrange(i, i + w.len() as int)[0] == s[i]);
            }
            lemma_dec_bytes_digits(n as int);
            assert(s[i] != 91);
            lemma_num_complete(s, i, n as int);
        },
        CorrectAnswer::OneOf(vsv) => {
            let vs = vsv@;
            let items = ser_num_items(vs, vs.len() as int);
            lemma_piece(s, i, w, 0, 1);
            assert(w.subrange(0, 1) =~= seq![91u8]);
            assert(s[i] == 91) by {
                assert(s.subrange(i, i + 1)[0] == s[i]);
            }
            if vs.len() == 0 {
                lemma_piece(s, i, w, 1, 2);
                assert(w.subrange(1, 2) =~= seq![93u8]);
                assert(s[i + 1] == 93) by {
                    assert(s.subrange(i + 1, i + 2)[0] == s[i + 1]);
                }
            } else {
                lemma_num_tail_bridge(vs, 0);
                assert(items + seq![93u8] == ser_num_tail(vs, 0));
                lemma_piece(s, i, w, 1, w.len() as int);
                assert(w.subrange(1, w.len() as int) =~= ser_num_tail(vs, 0));
                lemma_num_items_complete(s, i + 1, vs, 0);
                // a number opens with a digit, so the list is seen as
                // non-empty
                assert(s[i + 1] != 93) by {
                    let t0 = ser_num_tail(vs, 0);
                    assert(s.subrange(i + 1, i + w.len() as int)[0] == s[i + 1]);
                    assert(t0[0] == dec_bytes(vs[0] as int)[0]);
                    lemma_dec_bytes_digits(vs[0] as int);
                }
            }
        },
    }
}

/// Serializing an answer-list prefix reads only the entries below `n`.
proof fn lemma_ser_answer_items_prefix(vs1: Seq<CorrectAnswer>, vs2: Seq<CorrectAnswer>, n: int)
    requires
        forall|k: int| 0 <= k < n ==> vs1[k] == vs2[k],
    ensures
        ser_answer_items(vs1, n) == ser_answer_items(vs2, n),
    decreases n,
{
    if n > 0 {
        lemma_ser_answer_items_prefix(vs1, vs2, n - 1);
    }
}

/// The end position of the answer list from its first item at `p` to the
/// closing bracket.
pub open spec fn answer_items_end(s: Seq<u8>, p: int) -> Option<int>
    decreases s.len() - p,
{
    match answer_end(s, p) {
        None => None,
        Some(j) => if !(p < j <= s.len()) {
            None
        } else if j < s.len() && s[j] == 44 {
            if j + 1 < s.len() {
                answer_items_end(s, j + 1)
            } else {
                None
            }
        } else if j < s.len() && s[j] == 93 {
            Some(j + 1)
        } else {
            None
        },
    }
}

/// The end position of the bracketed answer list (one key version) at
/// position `i`.
pub open spec fn version_end(s: Seq<u8>, i: int) -> Option<int> {
    if !match_lit(s, i, seq![91u8]) {
        None
    } else {
        let p = i + 1;
        if p < s.len() && s[p] == 93 {
            Some(p + 1)
        } else {
            answer_items_end(s, p)
        }
    }
}

/// Read one key version: a bracketed list of answer entries; a parsed
/// version occupies exactly its serialization.
#[verifier::rlimit(100)]
#[verifier::spinoff_prover]
fn parse_version_raw(bytes: &Vec<u8>, pos: usize) -> (r: Option<(Vec<CorrectAnswer>, usize)>)
    ensures
        r is Some <==> version_end(bytes@, pos as int) is Some,
        r matches Some((v, j)) ==> {
            &&& version_end(bytes@, pos as int) == Some(j as int)
            &&& pos < j <= bytes@.len()
            &&& bytes@.subrange(pos as int, j as int)
                == seq![91u8] + ser_answer_items(v@, v@.len() as int) + seq![93u8]
        },
{
    let lit1: [u8; 1] = [91];
    proof {
        assert(lit1@ =~= seq![91u8]);
    }
    let mut p = expect(bytes, pos, lit1.as_slice())?;
    let mut vs: Vec<CorrectAnswer> = Vec::new();
    if p < bytes.len() && bytes[p] == 93 {
        proof {
            lemma_subrange_split(bytes@, pos as int, p as int, p + 1);
            assert(bytes@.subrange(p as int, p + 1) =~= seq![93u8]);
            assert(bytes@.subrange(pos as int, p + 1)
                =~= seq![91u8] + ser_answer_items(vs@, vs@.len() as int) + seq![93u8]);
        }
        return Some((vs, p + 1));
    }
    loop
        invariant
            pos < p <= bytes@.len(),
            bytes@.subrange(pos as int, pos + 1) == seq![91u8],
            version_end(bytes@, pos as int) == answer_items_end(bytes@, p as int),
            (vs@.len() == 0 && p == pos + 1)
                || (vs@.len() > 0 && bytes@.subrange(pos + 1, p as int)
                    == ser_answer_items(vs@, vs@.len() as int) + seq![44u8]),
        decreases bytes@.len() - p,
    {
        let ghost n0 = vs@.len() as int;
        let ghost p_head = p as int;
        let item = parse_answer_raw(bytes, p);
        match item {
            None => {
                return None;
            },
            Some((a, p2)) => {
                let ghost old_vs = vs@;
                vs.push(a);
                proof {
                    lemma_ser_answer_items_prefix(old_vs, vs@, n0);
                    if n0 > 0 {
                        lemma_subrange_split(bytes@, pos + 1, p_head, p2 as int);
                    }
                    assert(bytes@.subrange(pos + 1, p2 as int)
                        =~= ser_answer_items(vs@, vs@.len() as int));
                }
                p = p2;
            },
        }
        if p < bytes.len() && bytes[p] == 44 {
            proof {
                lemma_subrange_split(bytes@, pos + 1, p as int, p + 1);
                assert(bytes@.subrange(p as int, p + 1) =~= seq![44u8]);
            }
            p = p + 1;
            if p >= bytes.len() {
                return None;
            }
        } else if p < bytes.len() && bytes[p] == 93 {
            proof {
                lemma_subrange_split(bytes@, pos as int, pos + 1, p + 1);
                lemma_subrange_split(bytes@, pos + 1, p as int, p + 1);
                assert(bytes@.subrange(p as int, p + 1) =~= seq![93u8]);
                assert(bytes@.subrange(pos as int, p + 1)
                    =~= seq![91u8] + ser_answer_items(vs@, vs@.len() as int) + seq![93u8]);
            }
            return Some((vs, p + 1));
        } else {
            return None;
        }
    }
}

/// The serialized answer-list suffix from item `k` on, through the
/// closing bracket.
pub open spec fn ser_answer_tail(vs: Seq<CorrectAnswer>, k: int) -> Seq<u8>
    decreases vs.len() - k,
{
    if k + 1 < vs.len() {
        ser_answer(vs[k]) + seq![44u8] + ser_answer_tail(vs, k + 1)
    } else if k < vs.len() {
        ser_answer(vs[k]) + seq![93u8]
    } else {
        seq![93u8]
    }
}

/// The left-fold serialization of an answer list splits as any parsed
/// prefix followed by the suffix form.
proof fn lemma_answer_tail_bridge(vs: Seq<CorrectAnswer>, k: int)
    requires
        0 <= k < vs.len(),
    ensures
        ser_answer_items(vs, vs.len() as int) + seq![93u8]
            == ser_answer_items(vs, k)
                + (if k > 0 { seq![44u8] } else { Seq::<u8>::empty() })
                + ser_answer_tail(vs, k),
    decreases vs.len() - k,
{
    let n = vs.len() as int;
    if k + 1 < n {
        lemma_answer_tail_bridge(vs, k + 1);
        assert(ser_answer_items(vs, n) + seq![93u8]
            =~= ser_answer_items(vs, k)
                + (if k > 0 { seq![44u8] } else { Seq::<u8>::empty() })
                + ser_answer_tail(vs, k));
    } else {
        assert(ser_answer_items(vs, n) + seq![93u8]
            =~= ser_answer_items(vs, k)
                + (if k > 0 { seq![44u8] } else { Seq::<u8>::empty() })
                + ser_answer_tail(vs, k));
    }
}

/// The answer-list walk accepts every serialized suffix.
proof fn lemma_answer_items_complete(s: Seq<u8>, p: int, vs: Seq<CorrectAnswer>, k: int)
    requires
        0 <= k < vs.len(),
        0 <= p,
        p + ser_answer_tail(vs, k).len() <= s.len(),
        s.subrange(p, p + ser_answer_tail(vs, k).len() as int) == ser_answer_tail(vs, k),
    ensures
        answer_items_end(s, p) == Some(p + ser_answer_tail(vs, k).len() as int),
    decreases vs.len() - k,
{
    let w = ser_answer_tail(vs, k);
    let item = ser_answer(vs[k]);
    let li = item.len() as int;
    lemma_piece(s, p, w, 0, li);
    assert(w.subrange(0, li) =~= item);
    let j = p + li;
    if k + 1 < vs.len() {
        lemma_piece(s, p, w, li, li + 1);
        assert(w.subrange(li, li + 1) =~= seq![44u8]);
        assert(s[j] == 44) by {
            assert(s.subrange(j, j + 1)[0] == s[j]);
        }
        lemma_answer_complete(s, p, vs[k]);
        lemma_piece(s, p, w, li + 1, w.len() as int);
        assert(w.subrange(li + 1, w.len() as int) =~= ser_answer_tail(vs, k + 1));
        lemma_answer_items_complete(s, j + 1, vs, k + 1);
    } else {
        lemma_piece(s, p, w, li, li + 1);
        assert(w.subrange(li, li + 1) =~= seq![93u8]);
        assert(s[j] == 93) by {
            assert(s.subrange(j, j + 1)[0] == s[j]);
        }
        lemma_answer_complete(s, p, vs[k]);
    }
}

/// The version grammar accepts every serialized key version.
proof fn lemma_version_complete(s: Seq<u8>, i: int, vs: Seq<CorrectAnswer>)
    requires
        0 <= i,
        i + 2 + ser_answer_items(vs, vs.len() as int).len() <= s.len(),
        s.subrange(i, i + 2 + ser_answer_items(vs, vs.len() as int).len() as int)
            == seq![91u8] + ser_answer_items(vs, vs.len() as int) + seq![93u8],
    ensures
        version_end(s, i)
            == Some(i + 2 + ser_answer_items(vs, vs.len() as int).len() as int),
{
    let items = ser_answer_items(vs, vs.len() as int);
    let w = seq![91u8] + items + seq![93u8];
    lemma_piece(s, i, w, 0, 1);
    assert(w.subrange(0, 1) =~= seq![91u8]);
    assert(match_lit(s, i, seq![91u8]));
    if vs.len() == 0 {
        lemma_piece(s, i, w, 1, 2);
        assert(w.subrange(1, 2) =~= seq![93u8]);
        assert(s[i + 1] == 93) by {
            assert(s.subrange(i + 1, i + 2)[0] == s[i + 1]);
        }
    } else {
        lemma_answer_tail_bridge(vs, 0);
        assert(items + seq![93u8] == ser_answer_tail(vs, 0));
        lemma_piece(s, i, w, 1, w.len() as int);
        assert(w.subrange(1, w.len() as int) =~= ser_answer_tail(vs, 0));
        lemma_answer_items_complete(s, i + 1, vs, 0);
        // an answer entry opens with a digit or a bracket, never with the
        // closer
        assert(s[i + 1] != 93) by {
            let t0 = ser_answer_tail(vs, 0);
            assert(s.subrange(i + 1, i + w.len() as int)[0] == s[i + 1]);
            assert(t0[0] == ser_answer(vs[0])[0]);
            match vs[0] {
                CorrectAnswer::Exactly(n) => {
                    lemma_dec_bytes_digits(n as int);
                },
                CorrectAnswer::OneOf(inner) => {
                },
            }
        }
    }
}

/// Serializing a version-list prefix reads only the entries below `n`.
proof fn lemma_ser_version_items_prefix(
    ks1: Seq<Vec<CorrectAnswer>>, ks2: Seq<Vec<CorrectAnswer>>, n: int,
)
    requires
        forall|k: int| 0 <= k < n ==> ks1[k] == ks2[k],
    ensures
        ser_version_items(ks1, n) == ser_version_items(ks2, n),
    decreases n,
{
    if n > 0 {
        lemma_ser_version_items_prefix(ks1, ks2, n - 1);
    }
}

/// The end position of the version list from its first item at `p` to the
/// key's closing bracket.
pub open spec fn version_items_end(s: Seq<u8>, p: int) -> Option<int>
    decreases s.len() - p,
{
    match version_end(s, p) {
        None => None,
        Some(j) => if !(p < j <= s.len()) {
            None
        } else if j < s.len() && s[j] == 44 {
            if j + 1 < s.len() {
                version_items_end(s, j + 1)
            } else {
                None
            }
        } else if j < s.len() && s[j] == 93 {
            Some(j + 1)
        } else {
            None
        },
    }
}

/// The serialized version-list suffix from version `k` on, through the
/// key's closing bracket.
pub open spec fn ser_version_tail(ks: Seq<Vec<CorrectAnswer>>, k: int) -> Seq<u8>
    decreases ks.len() - k,
{
    if k + 1 < ks.len() {
        seq![91u8] + ser_answer_items(ks[k]@, ks[k]@.len() as int) + seq![93u8]
            + seq![44u8] + ser_version_tail(ks, k + 1)
    } else if k < ks.len() {
        seq![91u8] + ser_answer_items(ks[k]@, ks[k]@.len() as int) + seq![93u8] + seq![93u8]
    } else {
        seq![93u8]
    }
}

/// The left-fold serialization of a version list splits as any parsed
/// prefix followed by the suffix form.
proof fn lemma_version_tail_bridge(ks: Seq<Vec<CorrectAnswer>>, k: int)
    requires
        0 <= k < ks.len(),
    ensures
        ser_version_items(ks, ks.len() as int) + seq![93u8]
            == ser_version_items(ks, k)
                + (if k > 0 { seq![44u8] } else { Seq::<u8>::empty() })
                + ser_version_tail(ks, k),
    decreases ks.len() - k,
{
    let n = ks.len() as int;
    if k + 1 < n {
        lemma_version_tail_bridge(ks, k + 1);
        assert(ser_version_items(ks, n) + seq![93u8]
            =~= ser_version_items(ks, k)
                + (if k > 0 { seq![44u8] } else { Seq::<u8>::empty() })
                + ser_version_tail(ks, k));
    } else {
        assert(ser_version_items(ks, n) + seq![93u8]
            =~= ser_version_items(ks, k)
                + (if k > 0 { seq![44u8] } else { Seq::<u8>::empty() })
                + ser_version_tail(ks, k));
    }
}

/// The version-list walk accepts every serialized suffix.
proof fn lemma_version_items_complete(s: Seq<u8>, p: int, ks: Seq<Vec<CorrectAnswer>>, k: int)
    requires
        0 <= k < ks.len(),
        0 <= p,
        p + ser_version_tail(ks, k).len() <= s.len(),
        s.subrange(p, p + ser_version_tail(ks, k).len() as int) == ser_version_tail(ks, k),
    ensures
        version_items_end(s, p) == Some(p + ser_version_tail(ks, k).len() as int),
    decreases ks.len() - k,
{
    let w = ser_version_tail(ks, k);
    let item = seq![91u8] + ser_answer_items(ks[k]@, ks[k]@.len() as int) + seq![93u8];
    let li = item.len() as int;
    lemma_piece(s, p, w, 0, li);
    assert(w.subrange(0, li) =~= item);
    lemma_version_complete(s, p, ks[k]@);
    let j = p + li;
    if k + 1 < ks.len() {
        lemma_piece(s, p, w, li, li + 1);
        assert(w.subrange(li, li + 1) =~= seq![44u8]);
        assert(s[j] == 44) by {
            assert(s.subrange(j, j + 1)[0] == s[j]);
        }
        lemma_piece(s, p, w, li + 1, w.len() as int);
        assert(w.subrange(li + 1, w.len() as int) =~= ser_version_tail(ks, k + 1));
        lemma_version_items_complete(s, j + 1, ks, k + 1);
    } else {
        lemma_piece(s, p, w, li, li + 1);
        assert(w.subrange(li, li + 1) =~= seq![93u8]);
        assert(s[j] == 93) by {
            assert(s.subrange(j, j + 1)[0] == s[j]);
        }
    }
}

/// The key grammar accepts every serialized exam key: the completeness
/// half of the decoder's round trip.
#[verifier::rlimit(100)]
#[verifier::spinoff_prover]
pub proof fn lemma_key_complete(s: Seq<u8>, ks: Seq<Vec<CorrectAnswer>>)
    requires
        s == ser_key(ks),
    ensures
        key_accepts(s),
{
    let items = ser_version_items(ks, ks.len() as int);
    let w = seq![91u8] + items + seq![93u8];
    assert(s.subrange(0, s.len() as int) =~= s);
    lemma_piece(s, 0, w, 0, 1);
    assert(w.subrange(0, 1) =~= seq![91u8]);
    assert(match_lit(s, 0, seq![91u8]));
    if ks.len() == 0 {
        lemma_piece(s, 0, w, 1, 2);
        assert(w.subrange(1, 2) =~= seq![93u8]);
        assert(s[1] == 93) by {
            assert(s.subrange(1, 2)[0] == s[1]);
        }
    } else {
        lemma_version_tail_bridge(ks, 0);
        assert(items + seq![93u8] == ser_version_tail(ks, 0));
        lemma_piece(s, 0, w, 1, w.len() as int);
        assert(w.subrange(1, w.len() as int) =~= ser_version_tail(ks, 0));
        lemma_version_items_complete(s, 1, ks, 0);
        // a version opens with a bracket, so the key is seen as non-empty
        assert(s[1] == 91) by {
            let t0 = ser_version_tail(ks, 0);
            assert(s.subrange(1, w.len() as int)[0] == s[1]);
        }
    }
}

/// The whole input is one exam key.
pub open spec fn key_accepts(s: Seq<u8>) -> bool {
    if !match_lit(s, 0, seq![91u8]) {
        false
    } else if 1 < s.len() && s[1] == 93 {
        s.len() == 2
    } else {
        match version_items_end(s, 1) {
            None => false,
            Some(j) => j == s.len(),
        }
    }
}

/// Read a whole exam key; acceptance is exactly [`key_accepts`] and a
/// parsed key serializes back to the whole input.
#[verifier::rlimit(100)]
#[verifier::spinoff_prover]
fn parse_key_raw(bytes: &Vec<u8>) -> (r: Option<ExamKey>)
    ensures
        r is Some <==> key_accepts(bytes@),
        r matches Some(k) ==> ser_key(k@) == bytes@,
{
    let lit_open: [u8; 1] = [91];
    proof {
        assert(lit_open@ =~= seq![91u8]);
    }
    let mut p = expect(bytes, 0, lit_open.as_slice())?;
    let mut key: ExamKey = Vec::new();
    if p < bytes.len() && bytes[p] == 93 {
        if p + 1 != bytes.len() {
            return None;
        }
        proof {
            assert(bytes@ =~= bytes@.subrange(0, bytes@.len() as int));
            lemma_subrange_split(bytes@, 0, 1, 2);
            assert(bytes@.subrange(1, 2) =~= seq![93u8]);
            assert(bytes@ =~= ser_key(key@));
        }
        return Some(key);
    }
    loop
        invariant
            0 < p <= bytes@.len(),
            bytes@.subrange(0, 1) == seq![91u8],
            key_accepts(bytes@) == (version_items_end(bytes@, p as int) == Some(
                bytes@.len() as int)),
            (key@.len() == 0 && p == 1)
                || (key@.len() > 0 && bytes@.subrange(1, p as int)
                    == ser_version_items(key@, key@.len() as int) + seq![44u8]),
        decreases bytes@.len() - p,
    {
        let ghost n0 = key@.len() as int;
        let ghost p_head = p as int;
        let item = parse_version_raw(bytes, p);
        match item {
            None => {
                return None;
            },
            Some((version, p2)) => {
                let ghost old_key = key@;
                key.push(version);
                proof {
                    lemma_ser_version_items_prefix(old_key, key@, n0);
                    if n0 > 0 {
                        lemma_subrange_split(bytes@, 1, p_head, p2 as int);
                    }
                    assert(bytes@.subrange(1, p2 as int)
                        =~= ser_version_items(key@, key@.len() as int));
                }
                p = p2;
            },
        }
        if p < bytes.len() && bytes[p] == 44 {
            proof {
                lemma_subrange_split(bytes@, 1, p as int, p + 1);
                assert(bytes@.subrange(p as int, p + 1) =~= seq![44u8]);
            }
            p = p + 1;
            if p >= bytes.len() {
                return None;
            }
        } else if p < bytes.len() && bytes[p] == 93 {
            if p + 1 != bytes.len() {
                return None;
            }
            proof {
                assert(bytes@ =~= bytes@.subrange(0, bytes@.len() as int));
                lemma_subrange_split(bytes@, 0, 1, p + 1);
                lemma_subrange_split(bytes@, 1, p as int, p + 1);
                assert(bytes@.subrange(p as int, p + 1) =~= seq![93u8]);
                assert(bytes@ =~= ser_key(key@));
            }
            return Some(key);
        } else {
            return None;
        }
    }
}

/// Two answer entries carry the same content: the same variant and the
/// same values.
pub open spec fn answers_alike(a1: CorrectAnswer, a2: CorrectAnswer) -> bool {
    match (a1, a2) {
        (CorrectAnswer::Exactly(n1), CorrectAnswer::Exactly(n2)) => n1 == n2,
        (CorrectAnswer::OneOf(v1), CorrectAnswer::OneOf(v2)) => v1@ == v2@,
        _ => false,
    }
}

/// Two answer lists carry the same content, entry for entry.
pub open spec fn answer_seqs_alike(s1: Seq<CorrectAnswer>, s2: Seq<CorrectAnswer>) -> bool {
    &&& s1.len() == s2.len()
    &&& forall|i: int| 0 <= i < s1.len() ==> answers_alike(#[trigger] s1[i], s2[i])
}

/// Two exam keys carry the same content, version for version.
pub open spec fn keys_alike(k1: Seq<Vec<CorrectAnswer>>, k2: Seq<Vec<CorrectAnswer>>) -> bool {
    &&& k1.len() == k2.len()
    &&& forall|i: int| 0 <= i < k1.len() ==> answer_seqs_alike((#[trigger] k1[i])@, k2[i]@)
}

/// Number-list suffix serialization is injective.
#[verifier::rlimit(100)]
#[verifier::spinoff_prover]
proof fn lemma_num_tail_injective(vs1: Seq<u32>, k1: int, vs2: Seq<u32>, k2: int)
    requires
        0 <= k1 < vs1.len(),
        0 <= k2 < vs2.len(),
        ser_num_tail(vs1, k1) == ser_num_tail(vs2, k2),
    ensures
        vs1.len() - k1 == vs2.len() - k2,
        forall|m: int| 0 <= m < vs1.len() - k1 ==> #[trigger] vs1[k1 + m] == vs2[k2 + m],
    decreases vs1.len() - k1,
{
    let s = ser_num_tail(vs1, k1);
    assert(s.subrange(0, s.len() as int) =~= s);
    let w1 = dec_bytes(vs1[k1] as int);
    let w2 = dec_bytes(vs2[k2] as int);
    lemma_piece(s, 0, s, 0, w1.len() as int);
    assert(s.subrange(0, w1.len() as int) =~= w1);
    lemma_piece(s, 0, s, 0, w2.len() as int);
    assert(s.subrange(0, w2.len() as int) =~= w2);
    assert(s[w1.len() as int] == (if k1 + 1 < vs1.len() { 44u8 } else { 93u8 })) by {
        lemma_piece(s, 0, s, w1.len() as int, w1.len() as int + 1);
        assert(s.subrange(w1.len() as int, w1.len() as int + 1)[0] == s[w1.len() as int]);
    }
    assert(s[w2.len() as int] == (if k2 + 1 < vs2.len() { 44u8 } else { 93u8 })) by {
        lemma_piece(s, 0, s, w2.len() as int, w2.len() as int + 1);
        assert(s.subrange(w2.len() as int, w2.len() as int + 1)[0] == s[w2.len() as int]);
    }
    lemma_num_complete(s, 0, vs1[k1] as int);
    lemma_num_complete(s, 0, vs2[k2] as int);
    assert(vs1[k1] == vs2[k2]);
    let li = w1.len() as int;
    if k1 + 1 < vs1.len() {
        assert(k2 + 1 < vs2.len());
        assert(s.subrange(li + 1, s.len() as int) =~= ser_num_tail(vs1, k1 + 1));
        assert(s.subrange(li + 1, s.len() as int) =~= ser_num_tail(vs2, k2 + 1));
        lemma_num_tail_injective(vs1, k1 + 1, vs2, k2 + 1);
        assert forall|m: int| 0 <= m < vs1.len() - k1 implies
            #[trigger] vs1[k1 + m] == vs2[k2 + m] by {
            if m > 0 {
                assert(vs1[(k1 + 1) + (m - 1)] == vs2[(k2 + 1) + (m - 1)]);
            }
        }
    } else {
        assert(!(k2 + 1 < vs2.len()));
    }
}

/// Answer-entry serialization is injective, keeping the bare-number /
/// array distinction.
#[verifier::rlimit(100)]
#[verifier::spinoff_prover]
proof fn lemma_ser_answer_injective(a1: CorrectAnswer, a2: CorrectAnswer)
    requires
        ser_answer(a1) == ser_answer(a2),
    ensures
        answers_alike(a1, a2),
{
    let s = ser_answer(a1);
    assert(s.subrange(0, s.len() as int) =~= s);
    // the first byte separates the two variants: a digit or a bracket
    match a1 {
        CorrectAnswer::Exactly(n1) => {
            lemma_dec_bytes_digits(n1 as int);
            assert(s[0] != 91);
            match a2 {
                CorrectAnswer::Exactly(n2) => {
                    lemma_dec_bytes_injective(n1 as int, n2 as int);
                },
                CorrectAnswer::OneOf(v2) => {
                    assert(s[0] == 91) by {
                        assert(s =~= seq![91u8]
                            + ser_num_items(v2@, v2@.len() as int) + seq![93u8]);
                    }
                },
            }
        },
        CorrectAnswer::OneOf(v1) => {
            assert(s[0] == 91) by {
                assert(s =~= seq![91u8] + ser_num_items(v1@, v1@.len() as int) + seq![93u8]);
            }
            match a2 {
                CorrectAnswer::Exactly(n2) => {
                    lemma_dec_bytes_digits(n2 as int);
                    assert(s[0] != 91);
                },
                CorrectAnswer::OneOf(v2) => {
                    lemma_num_lists_equal(s, v1@, v2@);
                },
            }
        },
    }
}

/// Equal bracketed number lists hold equal numbers.
proof fn lemma_num_lists_equal(s: Seq<u8>, vs1: Seq<u32>, vs2: Seq<u32>)
    requires
        s == seq![91u8] + ser_num_items(vs1, vs1.len() as int) + seq![93u8],
        s == seq![91u8] + ser_num_items(vs2, vs2.len() as int) + seq![93u8],
    ensures
        vs1 == vs2,
{
    assert(s.subrange(0, s.len() as int) =~= s);
    assert(s[1] == (if vs1.len() == 0 { 93u8 } else { dec_bytes(vs1[0] as int)[0] })) by {
        if vs1.len() > 0 {
            lemma_num_tail_bridge(vs1, 0);
            assert(s.subrange(1, s.len() as int) =~= ser_num_tail(vs1, 0));
            assert(s.subrange(1, s.len() as int)[0] == s[1]);
            assert(ser_num_tail(vs1, 0)[0] == dec_bytes(vs1[0] as int)[0]);
        }
    }
    assert(s[1] == (if vs2.len() == 0 { 93u8 } else { dec_bytes(vs2[0] as int)[0] })) by {
        if vs2.len() > 0 {
            lemma_num_tail_bridge(vs2, 0);
            assert(s.subrange(1, s.len() as int) =~= ser_num_tail(vs2, 0));
            assert(s.subrange(1, s.len() as int)[0] == s[1]);
            assert(ser_num_tail(vs2, 0)[0] == dec_bytes(vs2[0] as int)[0]);
        }
    }
    if vs1.len() == 0 {
        if vs2.len() > 0 {
            lemma_dec_bytes_digits(vs2[0] as int);
        }
        assert(vs2.len() == 0);
        assert(vs1 =~= vs2);
    } else {
        lemma_dec_bytes_digits(vs1[0] as int);
        if vs2.len() == 0 {
        }
        assert(vs2.len() > 0);
        lemma_num_tail_bridge(vs1, 0);
        lemma_num_tail_bridge(vs2, 0);
        assert(s.subrange(1, s.len() as int) =~= ser_num_tail(vs1, 0));
        assert(s.subrange(1, s.len() as int) =~= ser_num_tail(vs2, 0));
        lemma_num_tail_injective(vs1, 0, vs2, 0);
        assert forall|m: int| 0 <= m < vs1.len() implies vs1[m] == vs2[m] by {
            assert(vs1[0 + m] == vs2[0 + m]);
        }
        assert(vs1 =~= vs2);
    }
}

/// Two answer entries whose serializations head the same byte string,
/// each followed there by a separator, are alike.
proof fn lemma_answer_head_equal(s: Seq<u8>, a1: CorrectAnswer, a2: CorrectAnswer)
    requires
        ser_answer(a1).len() < s.len(),
        s.subrange(0, ser_answer(a1).len() as int) == ser_answer(a1),
        !is_digit(s[ser_answer(a1).len() as int]),
        ser_answer(a2).len() < s.len(),
        s.subrange(0, ser_answer(a2).len() as int) == ser_answer(a2),
        !is_digit(s[ser_answer(a2).len() as int]),
    ensures
        answers_alike(a1, a2),
        ser_answer(a1) == ser_answer(a2),
{
    lemma_answer_complete(s, 0, a1);
    lemma_answer_complete(s, 0, a2);
    assert(ser_answer(a1).len() == ser_answer(a2).len());
    assert(ser_answer(a1) =~= ser_answer(a2));
    lemma_ser_answer_injective(a1, a2);
}

/// Answer-list suffix serialization is injective.
#[verifier::rlimit(100)]
#[verifier::spinoff_prover]
proof fn lemma_answer_tail_injective(
    vs1: Seq<CorrectAnswer>, k1: int, vs2: Seq<CorrectAnswer>, k2: int,
)
    requires
        0 <= k1 < vs1.len(),
        0 <= k2 < vs2.len(),
        ser_answer_tail(vs1, k1) == ser_answer_tail(vs2, k2),
    ensures
        vs1.len() - k1 == vs2.len() - k2,
        forall|m: int| 0 <= m < vs1.len() - k1
            ==> answers_alike(#[trigger] vs1[k1 + m], vs2[k2 + m]),
    decreases vs1.len() - k1,
{
    let s = ser_answer_tail(vs1, k1);
    assert(s.subrange(0, s.len() as int) =~= s);
    let w1 = ser_answer(vs1[k1]);
    let w2 = ser_answer(vs2[k2]);
    lemma_piece(s, 0, s, 0, w1.len() as int);
    assert(s.subrange(0, w1.len() as int) =~= w1);
    lemma_piece(s, 0, s, 0, w2.len() as int);
    assert(s.subrange(0, w2.len() as int) =~= w2);
    assert(s[w1.len() as int] == (if k1 + 1 < vs1.len() { 44u8 } else { 93u8 })) by {
        lemma_piece(s, 0, s, w1.len() as int, w1.len() as int + 1);
        assert(s.subrange(w1.len() as int, w1.len() as int + 1)[0] == s[w1.len() as int]);
    }
    assert(s[w2.len() as int] == (if k2 + 1 < vs2.len() { 44u8 } else { 93u8 })) by {
        lemma_piece(s, 0, s, w2.len() as int, w2.len() as int + 1);
        assert(s.subrange(w2.len() as int, w2.len() as int + 1)[0] == s[w2.len() as int]);
    }
    lemma_answer_head_equal(s, vs1[k1], vs2[k2]);
    let li = w1.len() as int;
    if k1 + 1 < vs1.len() {
        assert(k2 + 1 < vs2.len());
        assert(s.subrange(li + 1, s.len() as int) =~= ser_answer_tail(vs1, k1 + 1));
        assert(s.subrange(li + 1, s.len() as int) =~= ser_answer_tail(vs2, k2 + 1));
        lemma_answer_tail_injective(vs1, k1 + 1, vs2, k2 + 1);
        assert forall|m: int| 0 <= m < vs1.len() - k1 implies
            answers_alike(#[trigger] vs1[k1 + m], vs2[k2 + m]) by {
            if m > 0 {
                assert(answers_alike(vs1[(k1 + 1) + (m - 1)], vs2[(k2 + 1) + (m - 1)]));
            }
        }
    } else {
        assert(!(k2 + 1 < vs2.len()));
    }
}

/// One key version's serialization is injective in its answers.
#[verifier::rlimit(100)]
#[verifier::spinoff_prover]
proof fn lemma_version_injective(vs1: Seq<CorrectAnswer>, vs2: Seq<CorrectAnswer>)
    requires
        seq![91u8] + ser_answer_items(vs1, vs1.len() as int) + seq![93u8]
            == seq![91u8] + ser_answer_items(vs2, vs2.len() as int) + seq![93u8],
    ensures
        answer_seqs_alike(vs1, vs2),
{
    let s = seq![91u8] + ser_answer_items(vs1, vs1.len() as int) + seq![93u8];
    assert(s.subrange(0, s.len() as int) =~= s);
    assert(vs1.len() == 0 ==> s[1] == 93);
    assert(vs1.len() > 0 ==> s[1] != 93) by {
        if vs1.len() > 0 {
            lemma_answer_tail_bridge(vs1, 0);
            assert(s.subrange(1, s.len() as int) =~= ser_answer_tail(vs1, 0));
            assert(s.subrange(1, s.len() as int)[0] == s[1]);
            assert(ser_answer_tail(vs1, 0)[0] == ser_answer(vs1[0])[0]);
            match vs1[0] {
                CorrectAnswer::Exactly(n) => {
                    lemma_dec_bytes_digits(n as int);
                },
                CorrectAnswer::OneOf(inner) => {
                },
            }
        }
    }
    assert(vs2.len() == 0 ==> s[1] == 93) by {
        if vs2.len() == 0 {
            assert(s =~= seq![91u8] + ser_answer_items(vs2, 0) + seq![93u8]);
        }
    }
    assert(vs2.len() > 0 ==> s[1] != 93) by {
        if vs2.len() > 0 {
            lemma_answer_tail_bridge(vs2, 0);
            assert(s =~= seq![91u8] + ser_answer_items(vs2, vs2.len() as int) + seq![93u8]);
            assert(s.subrange(1, s.len() as int) =~= ser_answer_tail(vs2, 0));
            assert(s.subrange(1, s.len() as int)[0] == s[1]);
            assert(ser_answer_tail(vs2, 0)[0] == ser_answer(vs2[0])[0]);
            match vs2[0] {
                CorrectAnswer::Exactly(n) => {
                    lemma_dec_bytes_digits(n as int);
                },
                CorrectAnswer::OneOf(inner) => {
                },
            }
        }
    }
    if vs1.len() == 0 {
        assert(vs2.len() == 0);
    } else {
        assert(vs2.len() > 0);
        lemma_answer_tail_bridge(vs1, 0);
        lemma_answer_tail_bridge(vs2, 0);
        assert(s.subrange(1, s.len() as int) =~= ser_answer_tail(vs1, 0));
        assert(s.subrange(1, s.len() as int) =~= ser_answer_tail(vs2, 0));
        lemma_answer_tail_injective(vs1, 0, vs2, 0);
        assert forall|m: int| 0 <= m < vs1.len() implies
            answers_alike(#[trigger] vs1[m], vs2[m]) by {
            assert(answers_alike(vs1[0 + m], vs2[0 + m]));
        }
    }
}

/// Version-list suffix serialization is injective.
#[verifier::rlimit(100)]
#[verifier::spinoff_prover]
proof fn lemma_version_tail_injective(
    ks1: Seq<Vec<CorrectAnswer>>, k1: int, ks2: Seq<Vec<CorrectAnswer>>, k2: int,
)
    requires
        0 <= k1 < ks1.len(),
        0 <= k2 < ks2.len(),
        ser_version_tail(ks1, k1) == ser_version_tail(ks2, k2),
    ensures
        ks1.len() - k1 == ks2.len() - k2,
        forall|m: int| 0 <= m < ks1.len() - k1
            ==> answer_seqs_alike((#[trigger] ks1[k1 + m])@, ks2[k2 + m]@),
    decreases ks1.len() - k1,
{
    let s = ser_version_tail(ks1, k1);
    assert(s.subrange(0, s.len() as int) =~= s);
    let w1 = seq![91u8] + ser_answer_items(ks1[k1]@, ks1[k1]@.len() as int) + seq![93u8];
    let w2 = seq![91u8] + ser_answer_items(ks2[k2]@, ks2[k2]@.len() as int) + seq![93u8];
    lemma_piece(s, 0, s, 0, w1.len() as int);
    assert(s.subrange(0, w1.len() as int) =~= w1);
    lemma_piece(s, 0, s, 0, w2.len() as int);
    assert(s.subrange(0, w2.len() as int) =~= w2);
    lemma_version_complete(s, 0, ks1[k1]@);
    lemma_version_complete(s, 0, ks2[k2]@);
    assert(w1.len() == w2.len());
    assert(w1 =~= w2);
    lemma_version_injective(ks1[k1]@, ks2[k2]@);
    let li = w1.len() as int;
    assert(s[li] == (if k1 + 1 < ks1.len() { 44u8 } else { 93u8 })) by {
        lemma_piece(s, 0, s, li, li + 1);
        assert(s.subrange(li, li + 1)[0] == s[li]);
    }
    assert(s[li] == (if k2 + 1 < ks2.len() { 44u8 } else { 93u8 })) by {
        lemma_piece(s, 0, s, li, li + 1);
        assert(s.subrange(li, li + 1)[0] == s[li]);
    }
    if k1 + 1 < ks1.len() {
        assert(k2 + 1 < ks2.len());
        assert(s.subrange(li + 1, s.len() as int) =~= ser_version_tail(ks1, k1 + 1));
        assert(s.subrange(li + 1, s.len() as int) =~= ser_version_tail(ks2, k2 + 1));
        lemma_version_tail_injective(ks1, k1 + 1, ks2, k2 + 1);
        assert forall|m: int| 0 <= m < ks1.len() - k1 implies
            answer_seqs_alike((#[trigger] ks1[k1 + m])@, ks2[k2 + m]@) by {
            if m > 0 {
                assert(answer_seqs_alike(ks1[(k1 + 1) + (m - 1)]@, ks2[(k2 + 1) + (m - 1)]@));
            }
        }
    } else {
        assert(!(k2 + 1 < ks2.len()));
    }
}

/// Canonical key serialization is injective: byte-identical encodings
/// carry identical content, version for version and answer for answer,
/// with the bare-number / array distinction intact.
#[verifier::rlimit(100)]
#[verifier::spinoff_prover]
pub proof fn lemma_ser_key_injective(ks1: Seq<Vec<CorrectAnswer>>, ks2: Seq<Vec<CorrectAnswer>>)
    requires
        ser_key(ks1) == ser_key(ks2),
    ensures
        keys_alike(ks1, ks2),
{
    let s = ser_key(ks1);
    assert(s.subrange(0, s.len() as int) =~= s);
    assert(ks1.len() == 0 ==> s[1] == 93) by {
        if ks1.len() == 0 {
            assert(s =~= seq![91u8] + ser_version_items(ks1, 0) + seq![93u8]);
        }
    }
    assert(ks1.len() > 0 ==> s[1] == 91) by {
        if ks1.len() > 0 {
            lemma_version_tail_bridge(ks1, 0);
            assert(s.subrange(1, s.len() as int) =~= ser_version_tail(ks1, 0));
            assert(s.subrange(1, s.len() as int)[0] == s[1]);
        }
    }
    assert(ks2.len() == 0 ==> s[1] == 93) by {
        if ks2.len() == 0 {
            assert(s =~= seq![91u8] + ser_version_items(ks2, 0) + seq![93u8]);
        }
    }
    assert(ks2.len() > 0 ==> s[1] == 91) by {
        if ks2.len() > 0 {
            lemma_version_tail_bridge(ks2, 0);
            assert(s =~= seq![91u8] + ser_version_items(ks2, ks2.len() as int) + seq![93u8]);
            assert(s.subrange(1, s.len() as int) =~= ser_version_tail(ks2, 0));
            assert(s.subrange(1, s.len() as int)[0] == s[1]);
        }
    }
    if ks1.len() == 0 {
        assert(ks2.len() == 0);
    } else {
        assert(ks2.len() > 0);
        lemma_version_tail_bridge(ks1, 0);
        lemma_version_tail_bridge(ks2, 0);
        assert(s.subrange(1, s.len() as int) =~= ser_version_tail(ks1, 0));
        assert(s.subrange(1, s.len() as int) =~= ser_version_tail(ks2, 0));
        lemma_version_tail_injective(ks1, 0, ks2, 0);
        assert forall|m: int| 0 <= m < ks1.len() implies
            answer_seqs_alike((#[trigger] ks1[m])@, ks2[m]@) by {
            assert(answer_seqs_alike(ks1[0 + m]@, ks2[0 + m]@));
        }
    }
}

/// Decode an exam key from JSON bytes.
///
/// The contract is two-sided: decoding succeeds exactly on the inputs the
/// key grammar accepts (in particular on every encoder output, by
/// [`lemma_key_complete`]), and a decoded key's canonical serialization is
/// byte-identical to the input.  Together with [`lemma_ser_key_injective`]
/// this closes the round trip: decoding an encoded key returns one with
/// identical versions and answers, the bare-number / array distinction
/// intact.
pub fn decode_key(bytes: &Vec<u8>) -> (r: Option<ExamKey>)
    ensures
        r is Some <==> key_accepts(bytes@),
        (exists|ks: Seq<Vec<CorrectAnswer>>| ser_key(ks) == bytes@) ==> r is Some,
        r matches Some(k) ==> ser_key(k@) == bytes@,
{
    proof {
        if exists|ks: Seq<Vec<CorrectAnswer>>| ser_key(ks) == bytes@ {
            let ks = choose|ks: Seq<Vec<CorrectAnswer>>| ser_key(ks) == bytes@;
            lemma_key_complete(bytes@, ks);
        }
    }
    parse_key_raw(bytes)
}

} // verus!
