//! Rendering of a counter snapshot into the Prometheus text exposition
//! format.
//!
//! The output is one counter family, `check_count`, with two samples: one
//! labelled `result="SUCCESS"` carrying the success counter and one labelled
//! `result="TIMEOUT"` carrying the failure counter (the label text `TIMEOUT`
//! is kept for scrape compatibility although it covers every failure class).
//! Both samples carry the monitored endpoint verbatim in an `endpoint`
//! label, escaped as the format requires.

use vstd::prelude::*;

verus! {

pub const NEWLINE: u8 = 10;
pub const QUOTE: u8 = 34;
pub const BACKSLASH: u8 = 92;
pub const LETTER_N: u8 = 110;
pub const DIGIT_ZERO: u8 = 48;

pub const HELP_LINE: &'static str = "# HELP check_count Number of connection check results\n";
pub const TYPE_LINE: &'static str = "# TYPE check_count counter\n";
pub const SUCCESS_LABEL: &'static str = "SUCCESS";
pub const FAILURE_LABEL: &'static str = "TIMEOUT";
pub const CONTENT_TYPE: &'static str = "text/plain; version=0.0.4";

/// The bytes of an ASCII string, one byte per character.
pub open spec fn ascii_seq(s: Seq<char>) -> Seq<u8> {
    Seq::new(s.len(), |i: int| s[i] as u8)
}

/// How one byte of a label value is written inside the double quotes:
/// backslash, double quote and line feed get a backslash escape, every other
/// byte stands for itself.
pub open spec fn escape_byte(b: u8) -> Seq<u8> {
    if b == BACKSLASH {
        seq![BACKSLASH, BACKSLASH]
    } else if b == QUOTE {
        seq![BACKSLASH, QUOTE]
    } else if b == NEWLINE {
        seq![BACKSLASH, LETTER_N]
    } else {
        seq![b]
    }
}

/// A label value with every byte escaped as the exposition format requires.
pub open spec fn escape_seq(s: Seq<u8>) -> Seq<u8>
    decreases s.len(),
{
    if s.len() == 0 {
        Seq::empty()
    } else {
        escape_byte(s[0]) + escape_seq(s.drop_first())
    }
}

/// The ASCII byte of one decimal digit.
pub open spec fn digit_byte(d: nat) -> u8 {
    (DIGIT_ZERO + d % 10) as u8
}

/// The decimal digits of a number, most significant first, no sign, no
/// leading zero except for the number zero itself.
pub open spec fn dec_seq(n: nat) -> Seq<u8>
    decreases n,
{
    if n < 10 {
        seq![digit_byte(n)]
    } else {
        dec_seq(n / 10) + seq![digit_byte(n)]
    }
}

/// One sample line: the family name, the endpoint and result labels, the
/// counter value, and a line feed.
pub open spec fn sample_line_spec(label: Seq<u8>, result: Seq<u8>, value: nat) -> Seq<u8> {
    ascii_seq("check_count{endpoint=\""@) + escape_seq(label) + ascii_seq("\",result=\""@)
        + result + ascii_seq("\"} "@) + dec_seq(value) + seq![NEWLINE]
}

/// The whole exposition text for one snapshot: the mandated HELP and TYPE
/// lines for a counter family, then the success sample, then the failure
/// sample. Both samples are always present, also when their value is zero.
pub open spec fn render_spec(label: Seq<u8>, success: u64, failure: u64) -> Seq<u8> {
    ascii_seq(HELP_LINE@) + ascii_seq(TYPE_LINE@) + sample_line_spec(
        label,
        ascii_seq(SUCCESS_LABEL@),
        success as nat,
    ) + sample_line_spec(label, ascii_seq(FAILURE_LABEL@), failure as nat)
}

/// Appends the bytes of an ASCII string literal.
fn append_lit(out: &mut Vec<u8>, s: &str)
    ensures
        final(out)@ == old(out)@ + ascii_seq(s@),
{
    let n = s.unicode_len();
    let mut i: usize = 0;
    while i < n
        invariant
            n == s@.len(),
            i <= n,
            out@ == old(out)@ + ascii_seq(s@).subrange(0, i as int),
        decreases n - i,
    {
        let c = s.get_char(i);
        out.push(c as u8);
        proof {
            assert(ascii_seq(s@).subrange(0, i + 1) =~= ascii_seq(s@).subrange(0, i as int).push(
                s@[i as int] as u8,
            ));
        }
        i = i + 1;
    }
    proof {
        assert(ascii_seq(s@).subrange(0, n as int) =~= ascii_seq(s@));
    }
}

proof fn lemma_escape_seq_snoc(s: Seq<u8>, b: u8)
    ensures
        escape_seq(s.push(b)) == escape_seq(s) + escape_byte(b),
    decreases s.len(),
{
    if s.len() == 0 {
        reveal_with_fuel(escape_seq, 2);
        assert(s.push(b)[0] == b);
        assert(s.push(b).drop_first() =~= Seq::<u8>::empty());
        assert(escape_seq(s.push(b)) =~= escape_seq(s) + escape_byte(b));
    } else {
        lemma_escape_seq_snoc(s.drop_first(), b);
        assert(s.push(b)[0] == s[0]);
        assert(s.push(b).drop_first() =~= s.drop_first().push(b));
        assert(escape_seq(s.push(b)) =~= escape_seq(s) + escape_byte(b));
    }
}

/// Appends a label value, escaping each byte as the format requires.
fn append_escaped(out: &mut Vec<u8>, label: &[u8])
    ensures
        final(out)@ == old(out)@ + escape_seq(label@),
{
    let n = label.len();
    let mut i: usize = 0;
    while i < n
        invariant
            n == label@.len(),
            i <= n,
            out@ == old(out)@ + escape_seq(label@.subrange(0, i as int)),
        decreases n - i,
    {
        let b = label[i];
        if b == BACKSLASH {
            out.push(BACKSLASH);
            out.push(BACKSLASH);
        } else if b == QUOTE {
            out.push(BACKSLASH);
            out.push(QUOTE);
        } else if b == NEWLINE {
            out.push(BACKSLASH);
            out.push(LETTER_N);
        } else {
            out.push(b);
        }
        proof {
            lemma_escape_seq_snoc(label@.subrange(0, i as int), label@[i as int]);
            assert(label@.subrange(0, i + 1) =~= label@.subrange(0, i as int).push(
                label@[i as int],
            ));
            assert(out@ =~= old(out)@ + escape_seq(label@.subrange(0, i + 1)));
        }
        i = i + 1;
    }
    proof {
        assert(label@.subrange(0, n as int) =~= label@);
    }
}

/// Appends the decimal digits of a counter value.
fn append_dec(out: &mut Vec<u8>, n: u64)
    ensures
        final(out)@ == old(out)@ + dec_seq(n as nat),
    decreases n,
{
    if n < 10 {
        out.push(DIGIT_ZERO + n as u8);
        proof {
            assert(out@ =~= old(out)@ + dec_seq(n as nat));
        }
    } else {
        append_dec(out, n / 10);
        out.push(DIGIT_ZERO + (n % 10) as u8);
        proof {
            assert(out@ =~= old(out)@ + dec_seq(n as nat));
        }
    }
}

/// Appends one sample line for the given result class and counter value.
fn append_sample(out: &mut Vec<u8>, label: &[u8], result: &str, value: u64)
    ensures
        final(out)@ == old(out)@ + sample_line_spec(label@, ascii_seq(result@), value as nat),
{
    append_lit(out, "check_count{endpoint=\"");
    append_escaped(out, label);
    append_lit(out, "\",result=\"");
    append_lit(out, result);
    append_lit(out, "\"} ");
    append_dec(out, value);
    out.push(NEWLINE);
    proof {
        assert(out@ =~= old(out)@ + sample_line_spec(label@, ascii_seq(result@), value as nat));
    }
}

/// Renders one point-in-time counter snapshot into the exposition text,
/// returning the body bytes and the content type the format mandates.
///
/// This is a pure function of its arguments: it mutates nothing, so a scrape
/// never disturbs the counters, and two calls on the same snapshot yield
/// byte-identical output.
pub fn render(endpoint: &[u8], success: u64, failure: u64) -> (out: (Vec<u8>, &'static str))
    requires
        endpoint@.len() > 0,
    ensures
        out.0@ == render_spec(endpoint@, success, failure),
        out.1@ == CONTENT_TYPE@,
{
    let mut body: Vec<u8> = Vec::new();
    append_lit(&mut body, HELP_LINE);
    append_lit(&mut body, TYPE_LINE);
    append_sample(&mut body, endpoint, SUCCESS_LABEL, success);
    append_sample(&mut body, endpoint, FAILURE_LABEL, failure);
    proof {
        assert(body@ =~= render_spec(endpoint@, success, failure));
    }
    (body, CONTENT_TYPE)
}

/// Rendering is deterministic: two renderings of the same snapshot are
/// byte-identical.
pub proof fn lemma_render_deterministic(
    label: Seq<u8>,
    success: u64,
    failure: u64,
    first: Seq<u8>,
    second: Seq<u8>,
)
    requires
        first == render_spec(label, success, failure),
        second == render_spec(label, success, failure),
    ensures
        first == second,
{
}

} // verus!
