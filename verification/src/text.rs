//! The text of the input lines: fields between white space, and unsigned
//! decimal numbers.
use vstd::prelude::*;
use vstd::slice::slice_subrange;

verus! {

/// A blank, or one of the five control characters from tab to carriage
/// return.
pub open spec fn is_space(b: u8) -> bool {
    b == 32 || (9 <= b && b <= 13)
}

/// `[a, b)` is a field of `line`: a longest run of bytes that are not white
/// space.
pub open spec fn is_field(line: Seq<u8>, a: int, b: int) -> bool {
    &&& 0 <= a < b <= line.len()
    &&& forall|k: int| a <= k < b ==> !is_space(#[trigger] line[k])
    &&& a == 0 || is_space(line[a - 1])
    &&& b == line.len() || is_space(line[b])
}

/// A run of bytes in a line: its first byte, and the byte after its last.
#[derive(Clone, Copy, Debug, PartialEq, Eq, Structural)]
pub struct Span {
    pub start: usize,
    pub end: usize,
}

/// `spans` are the fields of `line`, all of them, from left to right.
pub open spec fn fields_of(line: Seq<u8>, spans: Seq<Span>) -> bool {
    &&& forall|i: int|
        0 <= i < spans.len() ==> is_field(line, (#[trigger] spans[i]).start as int, spans[i].end as int)
    &&& forall|i: int, j: int|
        0 <= i < j < spans.len() ==> (#[trigger] spans[i]).end < (#[trigger] spans[j]).start
    &&& forall|k: int|
        0 <= k < line.len() && !is_space(#[trigger] line[k]) ==> exists|i: int|
            0 <= i < spans.len() && (#[trigger] spans[i]).start <= k < spans[i].end
}

/// The bytes of the field `span` of `line`.
pub open spec fn field(line: Seq<u8>, span: Span) -> Seq<u8> {
    line.subrange(span.start as int, span.end as int)
}

/// Whether a byte is white space.
pub fn byte_is_space(b: u8) -> (r: bool)
    ensures
        r == is_space(b),
{
    b == 32 || (9 <= b && b <= 13)
}

/// Finds the fields of a line.
pub fn split_fields(line: &[u8]) -> (spans: Vec<Span>)
    ensures
        fields_of(line@, spans@),
{
    let n: usize = line.len();
    let mut spans: Vec<Span> = Vec::new();
    let mut i: usize = 0;
    loop
        invariant
            i <= n,
            n == line@.len(),
            i == 0 || i == n || is_space(line@[i as int]),
            forall|x: int|
                0 <= x < spans.len() ==> is_field(
                    line@,
                    (#[trigger] spans[x]).start as int,
                    spans[x].end as int,
                ) && spans[x].end <= i,
            forall|x: int, y: int|
                0 <= x < y < spans.len() ==> (#[trigger] spans[x]).end < (#[trigger] spans[y]).start,
            forall|k: int|
                0 <= k < i && !is_space(#[trigger] line@[k]) ==> exists|x: int|
                    0 <= x < spans.len() && (#[trigger] spans[x]).start <= k < spans[x].end,
        ensures
            fields_of(line@, spans@),
        decreases n - i,
    {
        let from: usize = i;
        while i < n && byte_is_space(line[i])
            invariant
                from <= i <= n,
                n == line@.len(),
                forall|k: int| from <= k < i ==> is_space(#[trigger] line@[k]),
            decreases n - i,
        {
            i += 1;
        }
        if i == n {
            break ;
        }
        let start: usize = i;
        while i < n && !byte_is_space(line[i])
            invariant
                start <= i <= n,
                n == line@.len(),
                forall|k: int| start <= k < i ==> !is_space(#[trigger] line@[k]),
            decreases n - i,
        {
            i += 1;
        }
        let ghost before = spans@;
        spans.push(Span { start, end: i });
        proof {
            assert(is_field(line@, start as int, i as int));
            assert forall|k: int| 0 <= k < i && !is_space(#[trigger] line@[k]) implies exists|
                x: int,
            |
                0 <= x < spans.len() && (#[trigger] spans[x]).start <= k < spans[x].end by {
                if k < from {
                    let x = choose|x: int|
                        0 <= x < before.len() && (#[trigger] before[x]).start <= k < before[x].end;
                    assert(spans[x] == before[x]);
                } else {
                    assert(spans[before.len() as int] == (Span { start, end: i }));
                }
            }
        }
    }
    spans
}

/// One of the ten decimal digits.
pub open spec fn is_digit(b: u8) -> bool {
    48 <= b && b <= 57
}

/// Every byte of `s` is a decimal digit.
pub open spec fn all_digits(s: Seq<u8>) -> bool {
    forall|i: int| 0 <= i < s.len() ==> is_digit(#[trigger] s[i])
}

/// The number that the decimal digits `s` write.
pub open spec fn decimal(s: Seq<u8>) -> nat
    decreases s.len(),
{
    if s.len() == 0 {
        0
    } else {
        (10 * decimal(s.drop_last()) + (s.last() - 48)) as nat
    }
}

/// `s` without one leading plus sign.
pub open spec fn unsigned_text(s: Seq<u8>) -> Seq<u8> {
    if s.len() > 0 && s[0] == 43 {
        s.drop_first()
    } else {
        s
    }
}

/// The unsigned number that `s` writes, where it writes one that is at most
/// `max`: one or more decimal digits, after at most one plus sign.
pub open spec fn number(s: Seq<u8>, max: nat) -> Option<nat> {
    let d = unsigned_text(s);
    if d.len() > 0 && all_digits(d) && decimal(d) <= max {
        Some(decimal(d))
    } else {
        None
    }
}

proof fn lemma_decimal_grows(s: Seq<u8>, k: int)
    requires
        all_digits(s),
        0 <= k <= s.len(),
    ensures
        decimal(s.take(k)) <= decimal(s),
    decreases s.len() - k,
{
    if k == s.len() {
        assert(s.take(k) =~= s);
    } else {
        lemma_decimal_grows(s, k + 1);
        assert(s.take(k + 1).drop_last() =~= s.take(k));
        assert(is_digit(s[k]));
    }
}

/// Reads an unsigned decimal number that is at most `max`.
pub fn parse_number(text: &[u8], max: u64) -> (r: Option<u64>)
    ensures
        match number(text@, max as nat) {
            Some(v) => r == Some(v as u64),
            None => r is None,
        },
{
    let n: usize = text.len();
    let mut i: usize = 0;
    if n > 0 && text[0] == 43 {
        i = 1;
    }
    let first: usize = i;
    if first == n {
        return None;
    }
    let ghost d = unsigned_text(text@);
    proof {
        assert(d =~= text@.subrange(first as int, n as int));
    }
    let mut acc: u64 = 0;
    while i < n
        invariant
            first <= i <= n,
            n == text@.len(),
            d == text@.subrange(first as int, n as int),
            d == unsigned_text(text@),
            all_digits(d.take(i - first)),
            acc == decimal(d.take(i - first)),
            acc <= max,
        decreases n - i,
    {
        let b: u8 = text[i];
        if b < 48 || b > 57 {
            assert(d[i - first] == b);
            assert(!all_digits(d));
            return None;
        }
        let v: u64 = (b - 48) as u64;
        proof {
            assert(d.take(i - first + 1).drop_last() =~= d.take(i - first));
            assert(d.take(i - first + 1).last() == b);
            assert(all_digits(d.take(i - first + 1))) by {
                assert forall|x: int| 0 <= x < i - first + 1 implies is_digit(
                    #[trigger] d.take(i - first + 1)[x],
                ) by {
                    if x < i - first {
                        assert(d.take(i - first)[x] == d[x]);
                    }
                }
            }
        }
        if v > max || acc > (max - v) / 10 {
            proof {
                assert(decimal(d.take(i - first + 1)) > max);
                if all_digits(d) {
                    lemma_decimal_grows(d, i - first + 1);
                }
            }
            return None;
        }
        acc = acc * 10 + v;
        i += 1;
    }
    proof {
        assert(d.take(n - first) =~= d);
    }
    Some(acc)
}

/// Reads the field `span` of `line` as a number that is at most `max`.
pub fn parse_field(line: &[u8], span: Span, max: u64) -> (r: Option<u64>)
    requires
        span.start <= span.end <= line@.len(),
    ensures
        match number(field(line@, span), max as nat) {
            Some(v) => r == Some(v as u64),
            None => r is None,
        },
{
    parse_number(slice_subrange(line, span.start, span.end), max)
}

proof fn lemma_fields_meet(line: Seq<u8>, a: int, b: int, c: int, d: int, k: int)
    requires
        is_field(line, a, b),
        is_field(line, c, d),
        a <= k < b,
        c <= k < d,
    ensures
        a == c,
        b == d,
{
    if a < c {
        assert(!is_space(line[c - 1]));
    }
    if c < a {
        assert(!is_space(line[a - 1]));
    }
    if b < d {
        assert(!is_space(line[b]));
    }
    if d < b {
        assert(!is_space(line[d]));
    }
}

proof fn lemma_same_field(
    line: Seq<u8>,
    f: Seq<Span>,
    g: Seq<Span>,
    i: int,
)
    requires
        fields_of(line, f),
        fields_of(line, g),
        0 <= i < f.len(),
    ensures
        i < g.len(),
        g[i] == f[i],
    decreases i,
{
    let k = f[i].start as int;
    assert(is_field(line, f[i].start as int, f[i].end as int));
    assert(!is_space(line[k]));
    let j = choose|j: int| 0 <= j < g.len() && (#[trigger] g[j]).start <= k < g[j].end;
    assert(is_field(line, g[j].start as int, g[j].end as int));
    lemma_fields_meet(line, f[i].start as int, f[i].end as int, g[j].start as int, g[j].end as int, k);
    if j < i {
        lemma_same_field(line, f, g, j);
        assert(is_field(line, f[j].start as int, f[j].end as int));
    } else if j > i {
        let k2 = g[i].start as int;
        assert(is_field(line, g[i].start as int, g[i].end as int));
        assert(!is_space(line[k2]));
        let i2 = choose|x: int| 0 <= x < f.len() && (#[trigger] f[x]).start <= k2 < f[x].end;
        assert(is_field(line, f[i2].start as int, f[i2].end as int));
        lemma_fields_meet(
            line,
            g[i].start as int,
            g[i].end as int,
            f[i2].start as int,
            f[i2].end as int,
            k2,
        );
        if i2 < i {
            lemma_same_field(line, f, g, i2);
            assert(is_field(line, g[i2].start as int, g[i2].end as int));
        }
    }
}

/// A line has its fields in one way only.
pub proof fn lemma_fields_unique(line: Seq<u8>, f: Seq<Span>, g: Seq<Span>)
    requires
        fields_of(line, f),
        fields_of(line, g),
    ensures
        f == g,
{
    if f.len() > 0 {
        lemma_same_field(line, f, g, f.len() - 1);
    }
    if g.len() > 0 {
        lemma_same_field(line, g, f, g.len() - 1);
    }
    assert forall|i: int| 0 <= i < f.len() implies f[i] == g[i] by {
        lemma_same_field(line, f, g, i);
    }
    assert(f =~= g);
}

/// Whether two runs of bytes are the same.
pub fn same_bytes(a: &[u8], b: &[u8]) -> (r: bool)
    ensures
        r == (a@ == b@),
{
    if a.len() != b.len() {
        return false;
    }
    let mut i: usize = 0;
    while i < a.len()
        invariant
            i <= a.len(),
            a@.len() == b@.len(),
            forall|k: int| 0 <= k < i ==> a@[k] == b@[k],
        decreases a.len() - i,
    {
        if a[i] != b[i] {
            return false;
        }
        i += 1;
    }
    assert(a@ =~= b@);
    true
}

/// The number of bytes of `s` before its first dash; its length if it has
/// none.
pub open spec fn until_dash(s: Seq<u8>) -> nat
    decreases s.len(),
{
    if s.len() == 0 || s[0] == 45 {
        0
    } else {
        1 + until_dash(s.drop_first())
    }
}

/// The two parts of a barcode field such as `ACGT-1`: what stands before
/// the first dash, and what stands between that dash and the next one, or
/// the end of the field. Nothing where the field has no dash.
pub open spec fn tag_spans(line: Seq<u8>, span: Span) -> Option<(Span, Span)> {
    let text = field(line, span);
    let k = until_dash(text);
    if k == text.len() {
        None
    } else {
        let rest = text.skip(k as int + 1);
        let m = until_dash(rest);
        Some(
            (
                Span { start: span.start, end: (span.start + k) as usize },
                Span {
                    start: (span.start + k + 1) as usize,
                    end: (span.start + k + 1 + m) as usize,
                },
            ),
        )
    }
}

/// The first dash at or after `from` and before `to`; `to` if there is none.
fn find_dash(line: &[u8], from: usize, to: usize) -> (r: usize)
    requires
        from <= to <= line@.len(),
    ensures
        from <= r <= to,
        r - from == until_dash(line@.subrange(from as int, to as int)),
{
    let mut i: usize = from;
    while i < to && line[i] != 45
        invariant
            from <= i <= to,
            to <= line@.len(),
            until_dash(line@.subrange(from as int, to as int)) == (i - from) + until_dash(
                line@.subrange(i as int, to as int),
            ),
        decreases to - i,
    {
        assert(line@.subrange(i as int, to as int).drop_first() =~= line@.subrange(
            i + 1,
            to as int,
        ));
        i += 1;
    }
    i
}

/// Splits a barcode field at its dashes.
pub fn split_tag(line: &[u8], span: Span) -> (r: Option<(Span, Span)>)
    requires
        span.start <= span.end <= line@.len(),
    ensures
        r == tag_spans(line@, span),
        r is Some ==> r->Some_0.1.start <= r->Some_0.1.end <= line@.len(),
{
    let dash = find_dash(line, span.start, span.end);
    if dash == span.end {
        return None;
    }
    let stop = find_dash(line, dash + 1, span.end);
    proof {
        let text = field(line@, span);
        let k = until_dash(text);
        let rest = text.skip(k as int + 1);
        assert(rest =~= line@.subrange(dash + 1, span.end as int));
    }
    Some((Span { start: span.start, end: dash }, Span { start: dash + 1, end: stop }))
}

} // verus!
