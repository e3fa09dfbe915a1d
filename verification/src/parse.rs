//! A parser for the exposition text that the renderer produces, and the
//! proof that parsing a rendered snapshot recovers the family name, the two
//! label sets and the two counter values that were rendered.
//!
//! The parser accepts the grammar the renderer emits: a HELP line, a TYPE
//! line declaring a counter family, and sample lines of the form
//! `name{key="value",key="value"} value`, with the escapes the format
//! defines inside quoted label values.

use vstd::prelude::*;
use crate::render::{
    ascii_seq, escape_seq, escape_byte, dec_seq, digit_byte, render_spec, sample_line_spec,
    NEWLINE, QUOTE, BACKSLASH, LETTER_N, DIGIT_ZERO,
};

verus! {

pub const SPACE: u8 = 32;
pub const EQUALS: u8 = 61;
pub const COMMA: u8 = 44;
pub const LBRACE: u8 = 123;
pub const RBRACE: u8 = 125;
pub const DIGIT_NINE: u8 = 57;

/// One parsed sample: its label pairs in order of appearance, and its value.
#[verifier::ext_equal]
pub struct SampleModel {
    pub labels: Seq<(Seq<u8>, Seq<u8>)>,
    pub value: nat,
}

/// One parsed counter family: its name, its help text, and its samples in
/// order of appearance.
#[verifier::ext_equal]
pub struct MetricsModel {
    pub family: Seq<u8>,
    pub help: Seq<u8>,
    pub samples: Seq<SampleModel>,
}

/// The first position at or after `i` holding byte `b`, or the length of
/// the input if there is none.
pub open spec fn find_byte(s: Seq<u8>, i: int, b: u8) -> int
    decreases s.len() - i when 0 <= i <= s.len()
{
    if i >= s.len() {
        s.len() as int
    } else if s[i] == b {
        i
    } else {
        find_byte(s, i + 1, b)
    }
}

/// The input holds the given bytes starting at position `i`.
pub open spec fn starts_with(s: Seq<u8>, i: int, pat: Seq<u8>) -> bool {
    0 <= i && i + pat.len() <= s.len() && s.subrange(i, i + pat.len()) == pat
}

pub open spec fn is_digit(b: u8) -> bool {
    DIGIT_ZERO <= b <= DIGIT_NINE
}

pub open spec fn all_digits(s: Seq<u8>) -> bool {
    forall|x: int| 0 <= x < s.len() ==> is_digit(s[x])
}

pub open spec fn digit_val(b: u8) -> nat {
    (b - DIGIT_ZERO) as nat
}

/// The number a run of decimal digits denotes, most significant first.
pub open spec fn dec_val(s: Seq<u8>) -> nat
    decreases s.len(),
{
    if s.len() == 0 {
        0
    } else {
        dec_val(s.drop_last()) * 10 + digit_val(s.last())
    }
}

/// What a backslash escape inside a quoted label value stands for.
pub open spec fn unescape_byte(b: u8) -> Option<u8> {
    if b == BACKSLASH {
        Some(BACKSLASH)
    } else if b == QUOTE {
        Some(QUOTE)
    } else if b == LETTER_N {
        Some(NEWLINE)
    } else {
        None
    }
}

/// Scans a quoted label value from position `i` (just after the opening
/// quote): unescapes its content and stops after the closing quote. Fails on
/// a raw line feed, an unterminated value or an unknown escape.
pub open spec fn p_quoted(s: Seq<u8>, i: int) -> Option<(Seq<u8>, int)>
    decreases s.len() - i when 0 <= i <= s.len()
{
    if i >= s.len() {
        None
    } else if s[i] == QUOTE {
        Some((Seq::empty(), i + 1))
    } else if s[i] == NEWLINE {
        None
    } else if s[i] == BACKSLASH {
        if i + 1 < s.len() {
            match unescape_byte(s[i + 1]) {
                Some(c) => match p_quoted(s, i + 2) {
                    Some((t, j)) => Some((seq![c] + t, j)),
                    None => None,
                },
                None => None,
            }
        } else {
            None
        }
    } else {
        match p_quoted(s, i + 1) {
            Some((t, j)) => Some((seq![s[i]] + t, j)),
            None => None,
        }
    }
}

/// Parses one `key="value"` label pair starting at `i`; on success yields
/// the key, the unescaped value, and the position after the closing quote.
pub open spec fn p_pair(s: Seq<u8>, i: int) -> Option<(Seq<u8>, Seq<u8>, int)> {
    let ke = find_byte(s, i, EQUALS);
    if 0 <= i && i < ke && ke + 1 < s.len() && s[ke + 1] == QUOTE {
        match p_quoted(s, ke + 2) {
            Some((v, j)) => Some((s.subrange(i, ke), v, j)),
            None => None,
        }
    } else {
        None
    }
}

/// Parses one sample line `name{key="value",key="value"} value` followed by
/// a line feed, starting at `i`; on success yields the sample name, the
/// sample, and the position after the line feed.
pub open spec fn p_sample(s: Seq<u8>, i: int) -> Option<(Seq<u8>, SampleModel, int)> {
    let ne = find_byte(s, i, LBRACE);
    if 0 <= i && i < ne && ne < s.len() {
        match p_pair(s, ne + 1) {
            Some((k1, v1, j1)) => if j1 < s.len() && s[j1] == COMMA {
                match p_pair(s, j1 + 1) {
                    Some((k2, v2, j2)) => if starts_with(s, j2, seq![RBRACE, SPACE]) {
                        let d = j2 + 2;
                        let de = find_byte(s, d, NEWLINE);
                        let digits = s.subrange(d, de);
                        if d < de && de < s.len() && all_digits(digits) && dec_val(digits)
                            <= u64::MAX {
                            Some(
                                (
                                    s.subrange(i, ne),
                                    SampleModel {
                                        labels: seq![(k1, v1), (k2, v2)],
                                        value: dec_val(digits),
                                    },
                                    de + 1,
                                ),
                            )
                        } else {
                            None
                        }
                    } else {
                        None
                    },
                    None => None,
                }
            } else {
                None
            },
            None => None,
        }
    } else {
        None
    }
}

/// Parses a whole exposition text holding one counter family with exactly
/// two samples: a HELP line, a TYPE line naming the same family as a
/// counter, the two sample lines carrying the family name, and nothing
/// after them.
pub open spec fn parse_spec(s: Seq<u8>) -> Option<MetricsModel> {
    if !starts_with(s, 0, ascii_seq("# HELP "@)) {
        None
    } else {
        let fe = find_byte(s, 7, SPACE);
        let family = s.subrange(7, fe);
        if !(7 < fe && fe < s.len()) {
            None
        } else {
            let he = find_byte(s, fe + 1, NEWLINE);
            let help = s.subrange(fe + 1, he);
            if !(he < s.len()) {
                None
            } else {
                let t = he + 1;
                if !(starts_with(s, t, ascii_seq("# TYPE "@)) && starts_with(s, t + 7, family)
                    && starts_with(s, t + 7 + family.len(), ascii_seq(" counter\n"@))) {
                    None
                } else {
                    let b1 = t + 7 + family.len() + 9;
                    match p_sample(s, b1) {
                        Some((n1, s1, b2)) => if n1 == family {
                            match p_sample(s, b2) {
                                Some((n2, s2, e)) => if n2 == family && e == s.len() {
                                    Some(
                                        MetricsModel {
                                            family,
                                            help,
                                            samples: seq![s1, s2],
                                        },
                                    )
                                } else {
                                    None
                                },
                                None => None,
                            }
                        } else {
                            None
                        },
                        None => None,
                    }
                }
            }
        }
    }
}

proof fn lemma_find_byte_bounds(s: Seq<u8>, i: int, b: u8)
    requires
        0 <= i <= s.len(),
    ensures
        i <= find_byte(s, i, b) <= s.len(),
        find_byte(s, i, b) < s.len() ==> s[find_byte(s, i, b)] == b,
    decreases s.len() - i,
{
    if i < s.len() && s[i] != b {
        lemma_find_byte_bounds(s, i + 1, b);
    }
}

proof fn lemma_find_byte_at(s: Seq<u8>, i: int, b: u8, k: int)
    requires
        0 <= i <= k < s.len(),
        forall|j: int| i <= j < k ==> s[j] != b,
        s[k] == b,
    ensures
        find_byte(s, i, b) == k,
    decreases k - i,
{
    if i < k {
        lemma_find_byte_at(s, i + 1, b, k);
    }
}

proof fn lemma_dec_seq_digits(n: nat)
    ensures
        dec_seq(n).len() >= 1,
        all_digits(dec_seq(n)),
    decreases n,
{
    if n < 10 {
        assert(dec_seq(n) == seq![digit_byte(n)]);
        assert(is_digit(digit_byte(n)));
    } else {
        lemma_dec_seq_digits(n / 10);
        assert(is_digit(digit_byte(n)));
        assert forall|x: int| 0 <= x < dec_seq(n).len() implies is_digit(dec_seq(n)[x]) by {
            if x < dec_seq(n / 10).len() {
                assert(dec_seq(n)[x] == dec_seq(n / 10)[x]);
            } else {
                assert(dec_seq(n)[x] == digit_byte(n));
            }
        }
    }
}

proof fn lemma_dec_val_dec_seq(n: nat)
    ensures
        dec_val(dec_seq(n)) == n,
    decreases n,
{
    if n < 10 {
        reveal_with_fuel(dec_val, 2);
        assert(dec_seq(n).drop_last() =~= Seq::<u8>::empty());
        assert(dec_seq(n).last() == digit_byte(n));
        assert(dec_val(dec_seq(n)) == digit_val(digit_byte(n)));
    } else {
        lemma_dec_val_dec_seq(n / 10);
        assert(dec_seq(n).drop_last() =~= dec_seq(n / 10));
        assert(dec_seq(n).last() == digit_byte(n));
        assert(dec_val(dec_seq(n)) == (n / 10) * 10 + n % 10);
        assert(n == (n / 10) * 10 + n % 10) by (nonlinear_arith);
    }
}

/// A byte sequence that needs no escaping.
pub open spec fn escape_free(r: Seq<u8>) -> bool {
    forall|x: int|
        0 <= x < r.len() ==> r[x] != BACKSLASH && r[x] != QUOTE && r[x] != NEWLINE
}

proof fn lemma_escape_free_id(r: Seq<u8>)
    requires
        escape_free(r),
    ensures
        escape_seq(r) == r,
    decreases r.len(),
{
    if r.len() == 0 {
        assert(escape_seq(r) =~= r);
    } else {
        assert(escape_free(r.drop_first()));
        lemma_escape_free_id(r.drop_first());
        assert(escape_byte(r[0]) == seq![r[0]]);
        assert(escape_seq(r) =~= r);
    }
}

proof fn lemma_p_quoted_escape(s: Seq<u8>, i: int, content: Seq<u8>)
    requires
        0 <= i,
        i + escape_seq(content).len() + 1 <= s.len(),
        s.subrange(i, i + escape_seq(content).len()) == escape_seq(content),
        s[i + escape_seq(content).len()] == QUOTE,
    ensures
        p_quoted(s, i) == Some((content, i + escape_seq(content).len() + 1)),
    decreases content.len(),
{
    let e = escape_seq(content);
    if content.len() == 0 {
        assert(e =~= Seq::<u8>::empty());
        assert(s[i] == QUOTE);
    } else {
        let b = content[0];
        let tail = content.drop_first();
        let e2 = escape_seq(tail);
        assert(e == escape_byte(b) + e2);
        if b == BACKSLASH || b == QUOTE || b == NEWLINE {
            assert(e.len() == 2 + e2.len());
            assert(s[i] == e[0]);
            assert(s[i + 1] == e[1]);
            assert(e[0] == BACKSLASH);
            assert(unescape_byte(e[1]) == Some(b));
            assert(s.subrange(i + 2, i + 2 + e2.len()) =~= e2) by {
                assert forall|x: int| 0 <= x < e2.len() implies s.subrange(
                    i + 2,
                    i + 2 + e2.len(),
                )[x] == e2[x] by {
                    assert(s.subrange(i + 2, i + 2 + e2.len())[x] == s[i + 2 + x]);
                    assert(s[i + 2 + x] == s.subrange(i, i + e.len())[2 + x]);
                    assert(e[2 + x] == e2[x]);
                }
            }
            lemma_p_quoted_escape(s, i + 2, tail);
            assert(seq![b] + tail =~= content);
        } else {
            assert(e.len() == 1 + e2.len());
            assert(s[i] == e[0]);
            assert(e[0] == b);
            assert(s.subrange(i + 1, i + 1 + e2.len()) =~= e2) by {
                assert forall|x: int| 0 <= x < e2.len() implies s.subrange(
                    i + 1,
                    i + 1 + e2.len(),
                )[x] == e2[x] by {
                    assert(s.subrange(i + 1, i + 1 + e2.len())[x] == s[i + 1 + x]);
                    assert(s[i + 1 + x] == s.subrange(i, i + e.len())[1 + x]);
                    assert(e[1 + x] == e2[x]);
                }
            }
            lemma_p_quoted_escape(s, i + 1, tail);
            assert(seq![b] + tail =~= content);
        }
    }
}

proof fn lemma_p_sample_line(s: Seq<u8>, i: int, label: Seq<u8>, result: Seq<u8>, value: u64)
    requires
        0 <= i,
        escape_free(result),
        result.len() > 0,
        i + sample_line_spec(label, result, value as nat).len() <= s.len(),
        s.subrange(i, i + sample_line_spec(label, result, value as nat).len())
            == sample_line_spec(label, result, value as nat),
    ensures
        p_sample(s, i) == Some(
            (
                ascii_seq("check_count"@),
                SampleModel {
                    labels: seq![(ascii_seq("endpoint"@), label), (ascii_seq("result"@), result)],
                    value: value as nat,
                },
                i + sample_line_spec(label, result, value as nat).len(),
            ),
        ),
{
    reveal_strlit("check_count{endpoint=\"");
    reveal_strlit("\",result=\"");
    reveal_strlit("\"} ");
    reveal_strlit("check_count");
    reveal_strlit("endpoint");
    reveal_strlit("result");
    let p1 = ascii_seq("check_count{endpoint=\""@);
    let p2 = ascii_seq("\",result=\""@);
    let p3 = ascii_seq("\"} "@);
    let e = escape_seq(label);
    let d = dec_seq(value as nat);
    let line = sample_line_spec(label, result, value as nat);
    let el = e.len() as int;
    let rl = result.len() as int;
    let dl = d.len() as int;
    assert(p1.len() == 22);
    assert(p2.len() == 10);
    assert(p3.len() == 3);
    lemma_dec_seq_digits(value as nat);
    let a1 = p1 + e;
    let a2 = a1 + p2;
    let a3 = a2 + result;
    let a4 = a3 + p3;
    let a5 = a4 + d;
    assert(line == a5 + seq![NEWLINE]);
    assert(line.len() == 36 + el + rl + dl);
    assert forall|x: int| 0 <= x < line.len() implies s[i + x] == line[x] by {
        assert(s.subrange(i, i + line.len())[x] == s[i + x]);
    }
    assert forall|x: int| 0 <= x < 22 implies line[x] == p1[x] by {
        assert(line[x] == a5[x]);
        assert(a5[x] == a4[x]);
        assert(a4[x] == a3[x]);
        assert(a3[x] == a2[x]);
        assert(a2[x] == a1[x]);
        assert(a1[x] == p1[x]);
    }
    assert forall|x: int| 0 <= x < el implies line[22 + x] == e[x] by {
        assert(line[22 + x] == a5[22 + x]);
        assert(a5[22 + x] == a4[22 + x]);
        assert(a4[22 + x] == a3[22 + x]);
        assert(a3[22 + x] == a2[22 + x]);
        assert(a2[22 + x] == a1[22 + x]);
        assert(a1[22 + x] == e[x]);
    }
    assert forall|x: int| 0 <= x < 10 implies line[22 + el + x] == p2[x] by {
        assert(line[22 + el + x] == a5[22 + el + x]);
        assert(a5[22 + el + x] == a4[22 + el + x]);
        assert(a4[22 + el + x] == a3[22 + el + x]);
        assert(a3[22 + el + x] == a2[22 + el + x]);
        assert(a2[22 + el + x] == p2[x]);
    }
    assert forall|x: int| 0 <= x < rl implies line[32 + el + x] == result[x] by {
        assert(line[32 + el + x] == a5[32 + el + x]);
        assert(a5[32 + el + x] == a4[32 + el + x]);
        assert(a4[32 + el + x] == a3[32 + el + x]);
        assert(a3[32 + el + x] == result[x]);
    }
    assert forall|x: int| 0 <= x < 3 implies line[32 + el + rl + x] == p3[x] by {
        assert(line[32 + el + rl + x] == a5[32 + el + rl + x]);
        assert(a5[32 + el + rl + x] == a4[32 + el + rl + x]);
        assert(a4[32 + el + rl + x] == p3[x]);
    }
    assert forall|x: int| 0 <= x < dl implies line[35 + el + rl + x] == d[x] by {
        assert(line[35 + el + rl + x] == a5[35 + el + rl + x]);
        assert(a5[35 + el + rl + x] == d[x]);
    }
    assert(line[35 + el + rl + dl] == NEWLINE);
    // the sample name and the opening brace
    assert forall|j: int| i <= j < i + 11 implies s[j] != LBRACE by {
        assert(s[j] == line[j - i]);
        assert(line[j - i] == p1[j - i]);
    }
    assert(s[i + 11] == p1[11]);
    assert(p1[11] == LBRACE);
    lemma_find_byte_at(s, i, LBRACE, i + 11);
    let ne = find_byte(s, i, LBRACE);
    assert(ne == i + 11);
    assert(s.subrange(i, ne) =~= ascii_seq("check_count"@)) by {
        assert forall|x: int| 0 <= x < 11 implies s.subrange(i, i + 11)[x] == ascii_seq(
            "check_count"@,
        )[x] by {
            assert(s.subrange(i, i + 11)[x] == s[i + x]);
            assert(s[i + x] == p1[x]);
        }
    }
    // first label pair: endpoint="..."
    assert forall|j: int| i + 12 <= j < i + 20 implies s[j] != EQUALS by {
        assert(s[j] == p1[j - i]);
    }
    assert(s[i + 20] == p1[20]);
    assert(p1[20] == EQUALS);
    lemma_find_byte_at(s, i + 12, EQUALS, i + 20);
    assert(s[i + 21] == p1[21]);
    assert(p1[21] == QUOTE);
    assert(s.subrange(i + 12, i + 20) =~= ascii_seq("endpoint"@)) by {
        assert forall|x: int| 0 <= x < 8 implies s.subrange(i + 12, i + 20)[x] == ascii_seq(
            "endpoint"@,
        )[x] by {
            assert(s.subrange(i + 12, i + 20)[x] == s[i + 12 + x]);
            assert(s[i + 12 + x] == p1[12 + x]);
        }
    }
    assert(s.subrange(i + 22, i + 22 + el) =~= e) by {
        assert forall|x: int| 0 <= x < el implies s.subrange(i + 22, i + 22 + el)[x] == e[x] by {
            assert(s.subrange(i + 22, i + 22 + el)[x] == s[i + 22 + x]);
            assert(s[i + 22 + x] == line[22 + x]);
        }
    }
    assert(s[i + 22 + el] == p2[0]);
    assert(p2[0] == QUOTE);
    lemma_p_quoted_escape(s, i + 22, label);
    assert(p_quoted(s, i + 22) == Some((label, i + 23 + el)));
    assert(p_pair(s, i + 12) == Some((ascii_seq("endpoint"@), label, i + 23 + el)));
    // the comma between the pairs
    assert(s[i + 23 + el] == p2[1]);
    assert(p2[1] == COMMA);
    // second label pair: result="..."
    assert forall|j: int| i + 24 + el <= j < i + 30 + el implies s[j] != EQUALS by {
        assert(s[j] == line[j - i]);
        assert(line[j - i] == p2[j - i - 22 - el]);
    }
    assert(s[i + 30 + el] == p2[8]);
    assert(p2[8] == EQUALS);
    lemma_find_byte_at(s, i + 24 + el, EQUALS, i + 30 + el);
    assert(s[i + 31 + el] == p2[9]);
    assert(p2[9] == QUOTE);
    assert(s.subrange(i + 24 + el, i + 30 + el) =~= ascii_seq("result"@)) by {
        assert forall|x: int| 0 <= x < 6 implies s.subrange(i + 24 + el, i + 30 + el)[x]
            == ascii_seq("result"@)[x] by {
            assert(s.subrange(i + 24 + el, i + 30 + el)[x] == s[i + 24 + el + x]);
            assert(s[i + 24 + el + x] == p2[2 + x]);
        }
    }
    lemma_escape_free_id(result);
    assert(s.subrange(i + 32 + el, i + 32 + el + rl) =~= result) by {
        assert forall|x: int| 0 <= x < rl implies s.subrange(i + 32 + el, i + 32 + el + rl)[x]
            == result[x] by {
            assert(s.subrange(i + 32 + el, i + 32 + el + rl)[x] == s[i + 32 + el + x]);
            assert(s[i + 32 + el + x] == line[32 + el + x]);
        }
    }
    assert(s[i + 32 + el + rl] == p3[0]);
    assert(p3[0] == QUOTE);
    lemma_p_quoted_escape(s, i + 32 + el, result);
    assert(p_quoted(s, i + 32 + el) == Some((result, i + 33 + el + rl)));
    assert(p_pair(s, i + 24 + el) == Some((ascii_seq("result"@), result, i + 33 + el + rl)));
    // the closing brace, the space, the value and the line feed
    let j2 = i + 33 + el + rl;
    assert(s[j2] == p3[1]);
    assert(p3[1] == RBRACE);
    assert(s[j2 + 1] == p3[2]);
    assert(p3[2] == SPACE);
    assert(starts_with(s, j2, seq![RBRACE, SPACE])) by {
        assert(s.subrange(j2, j2 + 2) =~= seq![RBRACE, SPACE]);
    }
    let d0 = j2 + 2;
    assert forall|j: int| d0 <= j < d0 + dl implies s[j] != NEWLINE by {
        assert(s[j] == line[j - i]);
        assert(line[j - i] == d[j - i - 35 - el - rl]);
        assert(is_digit(d[j - i - 35 - el - rl]));
    }
    assert(s[d0 + dl] == line[35 + el + rl + dl]);
    lemma_find_byte_at(s, d0, NEWLINE, d0 + dl);
    assert(s.subrange(d0, d0 + dl) =~= d) by {
        assert forall|x: int| 0 <= x < dl implies s.subrange(d0, d0 + dl)[x] == d[x] by {
            assert(s.subrange(d0, d0 + dl)[x] == s[d0 + x]);
            assert(s[d0 + x] == line[35 + el + rl + x]);
        }
    }
    lemma_dec_val_dec_seq(value as nat);
    assert(dec_val(s.subrange(d0, d0 + dl)) == value as nat);
    assert(p_sample(s, i) == Some(
        (
            ascii_seq("check_count"@),
            SampleModel {
                labels: seq![(ascii_seq("endpoint"@), label), (ascii_seq("result"@), result)],
                value: value as nat,
            },
            i + line.len(),
        ),
    ));
}

/// Round trip: feeding a rendered snapshot through the parser recovers the
/// family name, the help text, both label sets and both counter values that
/// were rendered — for every endpoint label and every pair of counter
/// values.
pub proof fn lemma_render_parse_round_trip(label: Seq<u8>, success: u64, failure: u64)
    requires
        label.len() > 0,
    ensures
        parse_spec(render_spec(label, success, failure)) == Some(
            MetricsModel {
                family: ascii_seq("check_count"@),
                help: ascii_seq("Number of connection check results"@),
                samples: seq![
                    SampleModel {
                        labels: seq![
                            (ascii_seq("endpoint"@), label),
                            (ascii_seq("result"@), ascii_seq("SUCCESS"@)),
                        ],
                        value: success as nat,
                    },
                    SampleModel {
                        labels: seq![
                            (ascii_seq("endpoint"@), label),
                            (ascii_seq("result"@), ascii_seq("TIMEOUT"@)),
                        ],
                        value: failure as nat,
                    },
                ],
            },
        ),
{
    reveal_strlit("# HELP check_count Number of connection check results\n");
    reveal_strlit("# TYPE check_count counter\n");
    reveal_strlit("# HELP ");
    reveal_strlit("# TYPE ");
    reveal_strlit(" counter\n");
    reveal_strlit("check_count");
    reveal_strlit("Number of connection check results");
    reveal_strlit("SUCCESS");
    reveal_strlit("TIMEOUT");
    let s = render_spec(label, success, failure);
    let h = ascii_seq("# HELP check_count Number of connection check results\n"@);
    let t = ascii_seq("# TYPE check_count counter\n"@);
    let res1 = ascii_seq("SUCCESS"@);
    let res2 = ascii_seq("TIMEOUT"@);
    let s1 = sample_line_spec(label, res1, success as nat);
    let s2 = sample_line_spec(label, res2, failure as nat);
    let l1 = s1.len() as int;
    let l2 = s2.len() as int;
    assert(h.len() == 54);
    assert(t.len() == 27);
    let a1 = h + t;
    let a2 = a1 + s1;
    assert(s == a2 + s2);
    assert(s.len() == 81 + l1 + l2);
    assert forall|x: int| 0 <= x < 54 implies s[x] == h[x] by {
        assert(s[x] == a2[x]);
        assert(a2[x] == a1[x]);
        assert(a1[x] == h[x]);
    }
    assert forall|x: int| 0 <= x < 27 implies s[54 + x] == t[x] by {
        assert(s[54 + x] == a2[54 + x]);
        assert(a2[54 + x] == a1[54 + x]);
        assert(a1[54 + x] == t[x]);
    }
    assert forall|x: int| 0 <= x < l1 implies s[81 + x] == s1[x] by {
        assert(s[81 + x] == a2[81 + x]);
        assert(a2[81 + x] == s1[x]);
    }
    assert forall|x: int| 0 <= x < l2 implies s[81 + l1 + x] == s2[x] by {
        assert(s[81 + l1 + x] == s2[x]);
    }
    // the HELP line
    assert(starts_with(s, 0, ascii_seq("# HELP "@))) by {
        assert(s.subrange(0, 7) =~= ascii_seq("# HELP "@)) by {
            assert forall|x: int| 0 <= x < 7 implies s.subrange(0, 7)[x] == ascii_seq(
                "# HELP "@,
            )[x] by {
                assert(s.subrange(0, 7)[x] == s[x]);
                assert(s[x] == h[x]);
            }
        }
    }
    assert forall|j: int| 7 <= j < 18 implies s[j] != SPACE by {
        assert(s[j] == h[j]);
    }
    assert(s[18] == h[18]);
    assert(h[18] == SPACE);
    lemma_find_byte_at(s, 7, SPACE, 18);
    let family = s.subrange(7, 18);
    assert(family =~= ascii_seq("check_count"@)) by {
        assert forall|x: int| 0 <= x < 11 implies family[x] == ascii_seq("check_count"@)[x] by {
            assert(family[x] == s[7 + x]);
            assert(s[7 + x] == h[7 + x]);
        }
    }
    assert forall|j: int| 19 <= j < 53 implies s[j] != NEWLINE by {
        assert(s[j] == h[j]);
    }
    assert(s[53] == h[53]);
    assert(h[53] == NEWLINE);
    lemma_find_byte_at(s, 19, NEWLINE, 53);
    let help = s.subrange(19, 53);
    assert(help =~= ascii_seq("Number of connection check results"@)) by {
        assert forall|x: int| 0 <= x < 34 implies help[x] == ascii_seq(
            "Number of connection check results"@,
        )[x] by {
            assert(help[x] == s[19 + x]);
            assert(s[19 + x] == h[19 + x]);
        }
    }
    // the TYPE line
    assert(starts_with(s, 54, ascii_seq("# TYPE "@))) by {
        assert(s.subrange(54, 61) =~= ascii_seq("# TYPE "@)) by {
            assert forall|x: int| 0 <= x < 7 implies s.subrange(54, 61)[x] == ascii_seq(
                "# TYPE "@,
            )[x] by {
                assert(s.subrange(54, 61)[x] == s[54 + x]);
                assert(s[54 + x] == t[x]);
            }
        }
    }
    assert(starts_with(s, 61, family)) by {
        assert(s.subrange(61, 72) =~= family) by {
            assert forall|x: int| 0 <= x < 11 implies s.subrange(61, 72)[x] == family[x] by {
                assert(s.subrange(61, 72)[x] == s[61 + x]);
                assert(s[61 + x] == t[7 + x]);
            }
        }
    }
    assert(starts_with(s, 72, ascii_seq(" counter\n"@))) by {
        assert(s.subrange(72, 81) =~= ascii_seq(" counter\n"@)) by {
            assert forall|x: int| 0 <= x < 9 implies s.subrange(72, 81)[x] == ascii_seq(
                " counter\n"@,
            )[x] by {
                assert(s.subrange(72, 81)[x] == s[72 + x]);
                assert(s[72 + x] == t[18 + x]);
            }
        }
    }
    // the two sample lines
    assert(escape_free(res1));
    assert(escape_free(res2));
    assert(s.subrange(81, 81 + l1) =~= s1) by {
        assert forall|x: int| 0 <= x < l1 implies s.subrange(81, 81 + l1)[x] == s1[x] by {
            assert(s.subrange(81, 81 + l1)[x] == s[81 + x]);
        }
    }
    lemma_p_sample_line(s, 81, label, res1, success);
    assert(s.subrange(81 + l1, 81 + l1 + l2) =~= s2) by {
        assert forall|x: int| 0 <= x < l2 implies s.subrange(81 + l1, 81 + l1 + l2)[x]
            == s2[x] by {
            assert(s.subrange(81 + l1, 81 + l1 + l2)[x] == s[81 + l1 + x]);
        }
    }
    lemma_p_sample_line(s, 81 + l1, label, res2, failure);
    assert(family == ascii_seq("check_count"@));
}

/// One parsed `key="value"` label pair.
pub struct LabelPair {
    pub name: Vec<u8>,
    pub value: Vec<u8>,
}

/// One parsed sample: its label pairs in order of appearance and its value.
pub struct Sample {
    pub labels: Vec<LabelPair>,
    pub value: u64,
}

/// One parsed counter family.
pub struct Metrics {
    pub family: Vec<u8>,
    pub help: Vec<u8>,
    pub samples: Vec<Sample>,
}

pub open spec fn pair_model(p: LabelPair) -> (Seq<u8>, Seq<u8>) {
    (p.name@, p.value@)
}

pub open spec fn sample_model(x: Sample) -> SampleModel {
    SampleModel {
        labels: x.labels@.map_values(|p: LabelPair| pair_model(p)),
        value: x.value as nat,
    }
}

pub open spec fn metrics_model(m: Metrics) -> MetricsModel {
    MetricsModel {
        family: m.family@,
        help: m.help@,
        samples: m.samples@.map_values(|x: Sample| sample_model(x)),
    }
}

fn find_byte_exec(s: &[u8], i: usize, b: u8) -> (r: usize)
    requires
        i <= s@.len(),
    ensures
        r as int == find_byte(s@, i as int, b),
        i <= r <= s@.len(),
{
    let n = s.len();
    let mut j = i;
    while j < n && s[j] != b
        invariant
            i <= j <= n,
            n == s@.len(),
            find_byte(s@, i as int, b) == find_byte(s@, j as int, b),
        decreases n - j,
    {
        j = j + 1;
    }
    j
}

fn copy_range(s: &[u8], i: usize, j: usize) -> (r: Vec<u8>)
    requires
        i <= j <= s@.len(),
    ensures
        r@ == s@.subrange(i as int, j as int),
{
    let mut r: Vec<u8> = Vec::new();
    let mut k = i;
    while k < j
        invariant
            i <= k <= j <= s@.len(),
            r@ == s@.subrange(i as int, k as int),
        decreases j - k,
    {
        r.push(s[k]);
        proof {
            assert(s@.subrange(i as int, k + 1) =~= s@.subrange(i as int, k as int).push(
                s@[k as int],
            ));
        }
        k = k + 1;
    }
    r
}

fn bytes_eq(a: &Vec<u8>, b: &Vec<u8>) -> (r: bool)
    ensures
        r == (a@ == b@),
{
    if a.len() != b.len() {
        return false;
    }
    let n = a.len();
    let mut x: usize = 0;
    while x < n
        invariant
            x <= n,
            n == a@.len() == b@.len(),
            forall|y: int| 0 <= y < x ==> a@[y] == b@[y],
        decreases n - x,
    {
        if a[x] != b[x] {
            return false;
        }
        x = x + 1;
    }
    proof {
        assert(a@ =~= b@);
    }
    true
}

fn starts_at(s: &[u8], i: usize, pat: &Vec<u8>) -> (r: bool)
    requires
        i <= s@.len(),
    ensures
        r == starts_with(s@, i as int, pat@),
{
    let m = pat.len();
    let n = s.len();
    if m > n - i {
        return false;
    }
    let mut x: usize = 0;
    while x < m
        invariant
            x <= m,
            m == pat@.len(),
            n == s@.len(),
            i + m <= n,
            forall|y: int| 0 <= y < x ==> s@[i + y] == pat@[y],
        decreases m - x,
    {
        if s[i + x] != pat[x] {
            proof {
                assert(!starts_with(s@, i as int, pat@)) by {
                    if starts_with(s@, i as int, pat@) {
                        assert(s@.subrange(i as int, i + pat@.len())[x as int] == s@[i + x]);
                    }
                }
            }
            return false;
        }
        x = x + 1;
    }
    proof {
        assert(s@.subrange(i as int, i + pat@.len()) =~= pat@);
    }
    true
}

fn match_lit(s: &[u8], i: usize, lit: &str) -> (r: bool)
    requires
        i <= s@.len(),
    ensures
        r == starts_with(s@, i as int, ascii_seq(lit@)),
{
    let m = lit.unicode_len();
    let n = s.len();
    if m > n - i {
        return false;
    }
    let mut x: usize = 0;
    while x < m
        invariant
            x <= m,
            m == lit@.len(),
            n == s@.len(),
            i + m <= n,
            forall|y: int| 0 <= y < x ==> s@[i + y] == ascii_seq(lit@)[y],
        decreases m - x,
    {
        let c = lit.get_char(x);
        if s[i + x] != c as u8 {
            proof {
                assert(!starts_with(s@, i as int, ascii_seq(lit@))) by {
                    if starts_with(s@, i as int, ascii_seq(lit@)) {
                        assert(s@.subrange(i as int, i + ascii_seq(lit@).len())[x as int] == s@[i
                            + x]);
                    }
                }
            }
            return false;
        }
        x = x + 1;
    }
    proof {
        assert(s@.subrange(i as int, i + ascii_seq(lit@).len()) =~= ascii_seq(lit@));
    }
    true
}

fn parse_quoted(s: &[u8], i: usize) -> (r: Option<(Vec<u8>, usize)>)
    requires
        i <= s@.len(),
    ensures
        (match r {
            Some(t) => p_quoted(s@, i as int) == Some((t.0@, t.1 as int)) && i < t.1 <= s@.len(),
            None => p_quoted(s@, i as int) is None,
        }),
{
    let n = s.len();
    let mut j = i;
    let mut out: Vec<u8> = Vec::new();
    proof {
        if p_quoted(s@, i as int) is Some {
            let tk = p_quoted(s@, i as int).unwrap();
            assert(Seq::<u8>::empty() + tk.0 =~= tk.0);
        }
    }
    loop
        invariant
            i <= j <= n,
            n == s@.len(),
            (match p_quoted(s@, j as int) {
                Some(tk) => p_quoted(s@, i as int) == Some((out@ + tk.0, tk.1)),
                None => p_quoted(s@, i as int) is None,
            }),
        decreases n - j,
    {
        if j >= n {
            return None;
        }
        let b = s[j];
        if b == QUOTE {
            proof {
                assert(out@ + Seq::<u8>::empty() =~= out@);
            }
            return Some((out, j + 1));
        }
        if b == NEWLINE {
            return None;
        }
        if b == BACKSLASH {
            if j + 1 >= n {
                return None;
            }
            let c = s[j + 1];
            if c == BACKSLASH || c == QUOTE || c == LETTER_N {
                let cc = if c == BACKSLASH {
                    BACKSLASH
                } else if c == QUOTE {
                    QUOTE
                } else {
                    NEWLINE
                };
                let ghost prev = out@;
                out.push(cc);
                proof {
                    assert(unescape_byte(s@[j as int + 1]) == Some(cc));
                    if p_quoted(s@, j as int + 2) is Some {
                        let tk = p_quoted(s@, j as int + 2).unwrap();
                        assert(out@ + tk.0 =~= prev + (seq![cc] + tk.0));
                    }
                }
                j = j + 2;
            } else {
                return None;
            }
        } else {
            let ghost prev = out@;
            out.push(b);
            proof {
                if p_quoted(s@, j as int + 1) is Some {
                    let tk = p_quoted(s@, j as int + 1).unwrap();
                    assert(out@ + tk.0 =~= prev + (seq![s@[j as int]] + tk.0));
                }
            }
            j = j + 1;
        }
    }
}

proof fn lemma_dec_val_prefix(g: Seq<u8>, m: int)
    requires
        0 <= m <= g.len(),
    ensures
        dec_val(g.subrange(0, m)) <= dec_val(g),
    decreases g.len() - m,
{
    if m == g.len() {
        assert(g.subrange(0, m) =~= g);
    } else {
        assert(g.subrange(0, m + 1).drop_last() =~= g.subrange(0, m));
        lemma_dec_val_prefix(g, m + 1);
    }
}

fn parse_value(s: &[u8], d0: usize, de: usize) -> (r: Option<u64>)
    requires
        d0 <= de <= s@.len(),
    ensures
        (match r {
            Some(v) => d0 < de && all_digits(s@.subrange(d0 as int, de as int)) && v as nat
                == dec_val(s@.subrange(d0 as int, de as int)),
            None => !(d0 < de && all_digits(s@.subrange(d0 as int, de as int)) && dec_val(
                s@.subrange(d0 as int, de as int),
            ) <= u64::MAX),
        }),
{
    if d0 == de {
        return None;
    }
    let ghost g = s@.subrange(d0 as int, de as int);
    let mut acc: u64 = 0;
    let mut k = d0;
    while k < de
        invariant
            d0 <= k <= de <= s@.len(),
            d0 < de,
            g == s@.subrange(d0 as int, de as int),
            forall|y: int| 0 <= y < k - d0 ==> is_digit(g[y]),
            acc as nat == dec_val(g.subrange(0, k - d0)),
        decreases de - k,
    {
        let b = s[k];
        proof {
            assert(g[k - d0] == s@[k as int]);
        }
        if b < DIGIT_ZERO || b > DIGIT_NINE {
            proof {
                assert(!is_digit(g[k - d0]));
            }
            return None;
        }
        let dv = b - DIGIT_ZERO;
        proof {
            assert(g.subrange(0, k - d0 + 1).drop_last() =~= g.subrange(0, k - d0));
            assert(g.subrange(0, k - d0 + 1).last() == g[k - d0]);
        }
        let step = match acc.checked_mul(10) {
            Some(m) => m.checked_add(dv as u64),
            None => None,
        };
        match step {
            Some(nx) => {
                acc = nx;
            },
            None => {
                proof {
                    assert(dec_val(g.subrange(0, k - d0 + 1)) > u64::MAX);
                    lemma_dec_val_prefix(g, k - d0 + 1);
                }
                return None;
            },
        }
        k = k + 1;
    }
    proof {
        assert(g.subrange(0, de - d0) =~= g);
    }
    Some(acc)
}

fn parse_sample(s: &[u8], i: usize) -> (r: Option<(Vec<u8>, Sample, usize)>)
    requires
        i <= s@.len(),
    ensures
        (match r {
            Some(t) => p_sample(s@, i as int) == Some((t.0@, sample_model(t.1), t.2 as int)) && i
                < t.2 <= s@.len(),
            None => p_sample(s@, i as int) is None,
        }),
{
    let ne = find_byte_exec(s, i, LBRACE);
    if !(i < ne && ne < s.len()) {
        return None;
    }
    let name = copy_range(s, i, ne);
    let ke = find_byte_exec(s, ne + 1, EQUALS);
    if ke >= s.len() || ne + 1 >= ke || ke + 1 >= s.len() {
        return None;
    }
    if s[ke + 1] != QUOTE {
        return None;
    }
    let k1 = copy_range(s, ne + 1, ke);
    let q1 = match parse_quoted(s, ke + 2) {
        Some(t) => t,
        None => {
            return None;
        },
    };
    let (v1, j1) = q1;
    if j1 >= s.len() || s[j1] != COMMA {
        return None;
    }
    let ke2 = find_byte_exec(s, j1 + 1, EQUALS);
    if ke2 >= s.len() || j1 + 1 >= ke2 || ke2 + 1 >= s.len() {
        return None;
    }
    if s[ke2 + 1] != QUOTE {
        return None;
    }
    let k2 = copy_range(s, j1 + 1, ke2);
    let q2 = match parse_quoted(s, ke2 + 2) {
        Some(t) => t,
        None => {
            return None;
        },
    };
    let (v2, j2) = q2;
    if j2 >= s.len() || j2 + 1 >= s.len() {
        proof {
            assert(!starts_with(s@, j2 as int, seq![RBRACE, SPACE]));
        }
        return None;
    }
    if s[j2] != RBRACE || s[j2 + 1] != SPACE {
        proof {
            assert(!starts_with(s@, j2 as int, seq![RBRACE, SPACE])) by {
                if starts_with(s@, j2 as int, seq![RBRACE, SPACE]) {
                    assert(s@.subrange(j2 as int, j2 + 2)[0] == s@[j2 as int]);
                    assert(s@.subrange(j2 as int, j2 + 2)[1] == s@[j2 + 1]);
                }
            }
        }
        return None;
    }
    proof {
        assert(starts_with(s@, j2 as int, seq![RBRACE, SPACE])) by {
            assert(s@.subrange(j2 as int, j2 + 2) =~= seq![RBRACE, SPACE]);
        }
    }
    let d0 = j2 + 2;
    let de = find_byte_exec(s, d0, NEWLINE);
    if de >= s.len() {
        return None;
    }
    let v = match parse_value(s, d0, de) {
        Some(v) => v,
        None => {
            return None;
        },
    };
    let mut labels: Vec<LabelPair> = Vec::new();
    labels.push(LabelPair { name: k1, value: v1 });
    labels.push(LabelPair { name: k2, value: v2 });
    let sample = Sample { labels, value: v };
    proof {
        assert(sample_model(sample).labels =~= seq![
            (sample.labels@[0].name@, sample.labels@[0].value@),
            (sample.labels@[1].name@, sample.labels@[1].value@),
        ]);
    }
    Some((name, sample, de + 1))
}

/// Parses an exposition text holding one counter family with two samples;
/// yields the family with its samples exactly when the text is well formed,
/// and nothing otherwise.
pub fn parse(input: &[u8]) -> (r: Option<Metrics>)
    ensures
        (match r {
            Some(m) => parse_spec(input@) == Some(metrics_model(m)),
            None => parse_spec(input@) is None,
        }),
{
    proof {
        reveal_strlit("# HELP ");
        reveal_strlit("# TYPE ");
        reveal_strlit(" counter\n");
    }
    if !match_lit(input, 0, "# HELP ") {
        return None;
    }
    let fe = find_byte_exec(input, 7, SPACE);
    if !(7 < fe && fe < input.len()) {
        return None;
    }
    let family = copy_range(input, 7, fe);
    let he = find_byte_exec(input, fe + 1, NEWLINE);
    if he >= input.len() {
        return None;
    }
    let help = copy_range(input, fe + 1, he);
    let t = he + 1;
    if !match_lit(input, t, "# TYPE ") {
        return None;
    }
    if !starts_at(input, t + 7, &family) {
        return None;
    }
    let after_fam = t + 7 + family.len();
    if !match_lit(input, after_fam, " counter\n") {
        return None;
    }
    let b1 = after_fam + 9;
    let s1 = match parse_sample(input, b1) {
        Some(t1) => t1,
        None => {
            return None;
        },
    };
    let (n1, smp1, b2) = s1;
    if !bytes_eq(&n1, &family) {
        return None;
    }
    let s2 = match parse_sample(input, b2) {
        Some(t2) => t2,
        None => {
            return None;
        },
    };
    let (n2, smp2, e) = s2;
    if !bytes_eq(&n2, &family) {
        return None;
    }
    if e != input.len() {
        return None;
    }
    let mut samples: Vec<Sample> = Vec::new();
    samples.push(smp1);
    samples.push(smp2);
    let m = Metrics { family, help, samples };
    proof {
        assert(metrics_model(m).samples =~= seq![
            sample_model(m.samples@[0]),
            sample_model(m.samples@[1]),
        ]);
    }
    Some(m)
}

} // verus!
