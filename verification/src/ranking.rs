//! The order of the "chatty" rankings: by words per question, highest first,
//! and by name, ascending, between equal ratios.
use vstd::prelude::*;
use crate::stats::TagStats;
use crate::text::seq_less;

verus! {

/// The ratio words/questions as a fraction `(numerator, denominator)`.
/// No questions and no words count as a ratio of zero; words without
/// questions count as an infinite ratio `(1, 0)`.
pub open spec fn ratio_fraction(s: TagStats) -> (int, int) {
    if s.questions == 0 {
        if s.words == 0 {
            (0, 1)
        } else {
            (1, 0)
        }
    } else {
        (s.words as int, s.questions as int)
    }
}

/// Whether `a` has a strictly higher words/questions ratio than `b`.
pub open spec fn ratio_greater(a: TagStats, b: TagStats) -> bool {
    let (aw, aq) = ratio_fraction(a);
    let (bw, bq) = ratio_fraction(b);
    aw * bq > bw * aq
}

/// Whether `a` and `b` have the same words/questions ratio.
pub open spec fn ratio_equal(a: TagStats, b: TagStats) -> bool {
    let (aw, aq) = ratio_fraction(a);
    let (bw, bq) = ratio_fraction(b);
    aw * bq == bw * aq
}

/// Whether entry `a` comes strictly before entry `b` in a ranking.
pub open spec fn ranks_before(a: (Seq<char>, TagStats), b: (Seq<char>, TagStats)) -> bool {
    ||| ratio_greater(a.1, b.1)
    ||| ratio_equal(a.1, b.1) && seq_less(a.0, b.0)
}

/// No string comes before itself in code-point order.
pub proof fn lemma_seq_less_irreflexive(a: Seq<char>)
    ensures
        !seq_less(a, a),
    decreases a.len(),
{
    if a.len() > 0 {
        lemma_seq_less_irreflexive(a.drop_first());
    }
}

/// Code-point order is transitive.
pub proof fn lemma_seq_less_transitive(a: Seq<char>, b: Seq<char>, c: Seq<char>)
    requires
        seq_less(a, b),
        seq_less(b, c),
    ensures
        seq_less(a, c),
    decreases a.len(),
{
    if a.len() > 0 && b.len() > 0 && c.len() > 0 {
        if a[0] == b[0] && b[0] == c[0] {
            lemma_seq_less_transitive(a.drop_first(), b.drop_first(), c.drop_first());
        }
    }
}

/// Of two different strings, one comes before the other.
pub proof fn lemma_seq_less_total(a: Seq<char>, b: Seq<char>)
    ensures
        a == b || seq_less(a, b) || seq_less(b, a),
    decreases a.len(),
{
    if a.len() > 0 && b.len() > 0 {
        if a[0] == b[0] {
            lemma_seq_less_total(a.drop_first(), b.drop_first());
            if a.drop_first() == b.drop_first() {
                assert(a =~= seq![a[0]] + a.drop_first());
                assert(b =~= seq![b[0]] + b.drop_first());
            }
        }
    } else if a.len() == 0 && b.len() == 0 {
        assert(a =~= b);
    }
}

/// A proper prefix comes first: for every string `a` and every non-empty
/// `x`, `a` comes strictly before `a + x`, and `a + x` not before `a`; in
/// particular the empty string comes before every other one.
pub proof fn lemma_seq_less_prefix(a: Seq<char>, x: Seq<char>)
    requires
        x.len() > 0,
    ensures
        seq_less(a, a + x),
        !seq_less(a + x, a),
    decreases a.len(),
{
    if a.len() > 0 {
        lemma_seq_less_prefix(a.drop_first(), x);
        assert((a + x).drop_first() =~= a.drop_first() + x);
        assert((a + x)[0] == a[0]);
    }
}

/// The first character where two strings differ decides their order, by
/// code point.
pub proof fn lemma_seq_less_first_difference(
    p: Seq<char>,
    c1: char,
    c2: char,
    r1: Seq<char>,
    r2: Seq<char>,
)
    requires
        (c1 as u32) < (c2 as u32),
    ensures
        seq_less(p + seq![c1] + r1, p + seq![c2] + r2),
        !seq_less(p + seq![c2] + r2, p + seq![c1] + r1),
    decreases p.len(),
{
    let u = p + seq![c1] + r1;
    let v = p + seq![c2] + r2;
    if p.len() == 0 {
        assert(u[0] == c1);
        assert(v[0] == c2);
    } else {
        lemma_seq_less_first_difference(p.drop_first(), c1, c2, r1, r2);
        assert(u.drop_first() =~= p.drop_first() + seq![c1] + r1);
        assert(v.drop_first() =~= p.drop_first() + seq![c2] + r2);
        assert(u[0] == p[0]);
        assert(v[0] == p[0]);
    }
}

/// Two strings do not each come before the other.
pub proof fn lemma_seq_less_asymmetric(a: Seq<char>, b: Seq<char>)
    requires
        seq_less(a, b),
    ensures
        !seq_less(b, a),
{
    if seq_less(b, a) {
        lemma_seq_less_transitive(a, b, a);
        lemma_seq_less_irreflexive(a);
    }
}

proof fn lemma_fraction_shape(s: TagStats)
    ensures
        ratio_fraction(s).0 >= 0,
        ratio_fraction(s).1 >= 0,
        ratio_fraction(s).1 == 0 ==> ratio_fraction(s).0 == 1,
{
}

proof fn lemma_mul_order(aw: int, aq: int, bw: int, bq: int, cw: int, cq: int)
    by (nonlinear_arith)
    requires
        aw >= 0,
        bw >= 0,
        cw >= 0,
        aq > 0,
        bq > 0,
        cq > 0,
        aw * bq >= bw * aq,
        bw * cq >= cw * bq,
    ensures
        aw * cq >= cw * aq,
        (aw * bq > bw * aq || bw * cq > cw * bq) ==> aw * cq > cw * aq,
{
    assert(aw * bq * cq >= bw * aq * cq);
    assert(bw * cq * aq >= cw * bq * aq);
    if aw * bq > bw * aq {
        assert(aw * bq * cq > bw * aq * cq);
    }
    if bw * cq > cw * bq {
        assert(bw * cq * aq > cw * bq * aq);
    }
}

/// "At least as high a ratio" is transitive, and strictly so when one step is
/// strict.
pub proof fn lemma_ratio_ge_transitive(a: TagStats, b: TagStats, c: TagStats)
    requires
        ratio_greater(a, b) || ratio_equal(a, b),
        ratio_greater(b, c) || ratio_equal(b, c),
    ensures
        ratio_greater(a, c) || ratio_equal(a, c),
        (ratio_greater(a, b) || ratio_greater(b, c)) ==> ratio_greater(a, c),
{
    let (aw, aq) = ratio_fraction(a);
    let (bw, bq) = ratio_fraction(b);
    let (cw, cq) = ratio_fraction(c);
    lemma_fraction_shape(a);
    lemma_fraction_shape(b);
    lemma_fraction_shape(c);
    if aq > 0 && bq > 0 && cq > 0 {
        lemma_mul_order(aw, aq, bw, bq, cw, cq);
    } else if aq == 0 {
        assert(aw == 1);
        if bq == 0 {
            assert(bw == 1);
            assert(bw * cq >= cw * bq);
            assert(cq >= 0);
        }
        assert(aw * cq == cq) by (nonlinear_arith)
            requires
                aw == 1,
        ;
        assert(cw * aq == 0) by (nonlinear_arith)
            requires
                aq == 0,
        ;
    } else if bq == 0 {
        assert(bw == 1);
        assert(aw * bq == 0) by (nonlinear_arith)
            requires
                bq == 0,
        ;
        assert(bw * aq == aq) by (nonlinear_arith)
            requires
                bw == 1,
        ;
        assert(false);
    } else {
        assert(cq == 0 && cw == 1);
        assert(bw * cq == 0) by (nonlinear_arith)
            requires
                cq == 0,
        ;
        assert(cw * bq == bq) by (nonlinear_arith)
            requires
                cw == 1,
        ;
        assert(false);
    }
}

/// Ratios are totally ordered.
pub proof fn lemma_ratio_total(a: TagStats, b: TagStats)
    ensures
        ratio_greater(a, b) || ratio_equal(a, b) || ratio_greater(b, a),
{
}

/// No entry ranks before itself.
pub proof fn lemma_ranks_before_irreflexive(a: (Seq<char>, TagStats))
    ensures
        !ranks_before(a, a),
{
    lemma_seq_less_irreflexive(a.0);
}

/// The ranking order is transitive.
pub proof fn lemma_ranks_before_transitive(
    a: (Seq<char>, TagStats),
    b: (Seq<char>, TagStats),
    c: (Seq<char>, TagStats),
)
    requires
        ranks_before(a, b),
        ranks_before(b, c),
    ensures
        ranks_before(a, c),
{
    lemma_ratio_ge_transitive(a.1, b.1, c.1);
    if ratio_equal(a.1, b.1) && ratio_equal(b.1, c.1) {
        lemma_seq_less_transitive(a.0, b.0, c.0);
    }
}

/// The ranking order is a strict weak order: when `a` ranks before `b` and
/// `c` does not, `a` ranks before `c`.
pub proof fn lemma_ranks_before_negative_transitive(
    a: (Seq<char>, TagStats),
    b: (Seq<char>, TagStats),
    c: (Seq<char>, TagStats),
)
    requires
        ranks_before(a, b),
        !ranks_before(c, b),
    ensures
        ranks_before(a, c),
{
    lemma_ratio_total(b.1, c.1);
    if ratio_greater(b.1, c.1) {
        lemma_ranks_before_transitive(a, b, c);
    } else {
        assert(ratio_equal(b.1, c.1));
        assert(!seq_less(c.0, b.0));
        lemma_ratio_ge_transitive(a.1, b.1, c.1);
        if !ratio_greater(a.1, c.1) {
            assert(ratio_equal(a.1, b.1) && seq_less(a.0, b.0));
            if c.0 != b.0 {
                lemma_seq_less_total(b.0, c.0);
                lemma_seq_less_transitive(a.0, b.0, c.0);
            }
        }
    }
}

/// Input position `p` comes before position `q` in a stable ranking of `all`:
/// its entry ranks before, or neither ranks before the other and `p` comes
/// first.
pub open spec fn stable_before(all: Seq<(Seq<char>, TagStats)>, p: int, q: int) -> bool {
    ||| ranks_before(all[p], all[q])
    ||| !ranks_before(all[q], all[p]) && p < q
}

/// Two entries with different names are ordered one way or the other.
pub proof fn lemma_ranks_before_total(a: (Seq<char>, TagStats), b: (Seq<char>, TagStats))
    requires
        a.0 != b.0,
    ensures
        ranks_before(a, b) || ranks_before(b, a),
{
    lemma_ratio_total(a.1, b.1);
    lemma_seq_less_total(a.0, b.0);
}

/// Whether `a` comes before `b` in the ranking.
pub fn entry_ranks_before(a: &(String, TagStats), b: &(String, TagStats)) -> (r: bool)
    ensures
        r == ranks_before((a.0@, a.1), (b.0@, b.1)),
{
    let (aw, aq): (u64, u64) = if a.1.questions == 0 {
        if a.1.words == 0 {
            (0, 1)
        } else {
            (1, 0)
        }
    } else {
        (a.1.words as u64, a.1.questions as u64)
    };
    let (bw, bq): (u64, u64) = if b.1.questions == 0 {
        if b.1.words == 0 {
            (0, 1)
        } else {
            (1, 0)
        }
    } else {
        (b.1.words as u64, b.1.questions as u64)
    };
    assert(aw * bq <= u64::MAX) by (nonlinear_arith)
        requires
            aw <= u32::MAX,
            bq <= u32::MAX,
    ;
    assert(bw * aq <= u64::MAX) by (nonlinear_arith)
        requires
            bw <= u32::MAX,
            aq <= u32::MAX,
    ;
    let left = aw * bq;
    let right = bw * aq;
    if left > right {
        true
    } else if left == right {
        crate::text::string_less(&a.0, &b.0)
    } else {
        false
    }
}

} // verus!
