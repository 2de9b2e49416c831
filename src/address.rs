//! Hierarchical ("Luhmann") addresses: alternating numeric and letter segments
//! that encode a position in an outline, e.g. `1`, `1a`, `1a1`, `1b`.
use vstd::prelude::*;
use crate::text::{decimal, digit_char, push_char, push_decimal, push_str};

verus! {

/// One segment of an address.
#[derive(Debug, Clone, Copy, PartialEq, Eq, Structural, Hash, PartialOrd, Ord)]
pub enum LuhmannPart {
    Number(u32),
    Letter(char),
}

/// A hierarchical address. Ordering (derived) is lexicographic over the
/// segments, with every number before every letter.
#[derive(Debug, Clone, PartialEq, Eq, Hash, PartialOrd, Ord)]
pub struct LuhmannId {
    pub parts: Vec<LuhmannPart>,
}

impl View for LuhmannId {
    type V = Seq<LuhmannPart>;

    open spec fn view(&self) -> Seq<LuhmannPart> {
        self.parts@
    }
}

pub open spec fn is_ascii_digit(c: char) -> bool {
    '0' <= c && c <= '9'
}

pub open spec fn is_ascii_letter(c: char) -> bool {
    ('a' <= c && c <= 'z') || ('A' <= c && c <= 'Z')
}

/// ASCII lower case of `c`; other characters are kept.
pub open spec fn lower(c: char) -> char {
    if 'A' <= c && c <= 'Z' {
        ((c as u32) + 32) as char
    } else {
        c
    }
}

pub open spec fn digit_value(c: char) -> nat {
    ((c as u32) - 48) as nat
}

/// The segment a pending run of digits with value `acc` yields: none when the
/// value does not fit in a `u32`.
pub open spec fn flush(acc: Option<nat>) -> Seq<LuhmannPart> {
    match acc {
        Some(v) => if v <= u32::MAX as nat {
            seq![LuhmannPart::Number(v as u32)]
        } else {
            seq![]
        },
        None => seq![],
    }
}

/// Segments read from `s` starting at index `i`, where `acc` holds the value of
/// the run of digits read just before `i`, if any. A maximal run of digits forms
/// one number, each ASCII letter forms one letter segment (lower-cased), any
/// other character is skipped.
pub open spec fn scan(s: Seq<char>, i: nat, acc: Option<nat>) -> Seq<LuhmannPart>
    decreases s.len() - i,
{
    if i >= s.len() {
        flush(acc)
    } else {
        let c = s[i as int];
        if is_ascii_digit(c) {
            let base: nat = match acc {
                Some(v) => v,
                None => 0,
            };
            scan(s, i + 1, Some(base * 10 + digit_value(c)))
        } else if is_ascii_letter(c) {
            flush(acc) + seq![LuhmannPart::Letter(lower(c))] + scan(s, i + 1, None)
        } else {
            flush(acc) + scan(s, i + 1, None)
        }
    }
}

/// All segments of the text `s`.
pub open spec fn segments_of(s: Seq<char>) -> Seq<LuhmannPart> {
    scan(s, 0, None)
}

/// The text form of one segment.
pub open spec fn part_text(p: LuhmannPart) -> Seq<char> {
    match p {
        LuhmannPart::Number(n) => decimal(n as nat),
        LuhmannPart::Letter(c) => seq![c],
    }
}

/// The text form of an address: its segments' texts, without separators.
pub open spec fn render(ps: Seq<LuhmannPart>) -> Seq<char>
    decreases ps.len(),
{
    if ps.len() == 0 {
        seq![]
    } else {
        render(ps.drop_last()) + part_text(ps.last())
    }
}

/// Every letter segment is a lower-case ASCII letter.
pub open spec fn parts_wf(ps: Seq<LuhmannPart>) -> bool {
    forall|k: int|
        0 <= k < ps.len() ==> match #[trigger] ps[k] {
            LuhmannPart::Letter(c) => 'a' <= c && c <= 'z',
            LuhmannPart::Number(_) => true,
        }
}

/// The parent: the last segment dropped; none for a single segment.
pub open spec fn parent_of(ps: Seq<LuhmannPart>) -> Option<Seq<LuhmannPart>> {
    if ps.len() <= 1 {
        None
    } else {
        Some(ps.drop_last())
    }
}

/// The segment appended by `first_child`: a letter after a number, else a number.
pub open spec fn child_part(ps: Seq<LuhmannPart>) -> LuhmannPart {
    if ps.len() > 0 && ps.last() is Number {
        LuhmannPart::Letter('a')
    } else {
        LuhmannPart::Number(1)
    }
}

pub open spec fn first_child_of(ps: Seq<LuhmannPart>) -> Seq<LuhmannPart> {
    ps.push(child_part(ps))
}

/// The next sibling: the last segment incremented; none past `z` or for no
/// segment at all.
pub open spec fn next_sibling_of(ps: Seq<LuhmannPart>) -> Option<Seq<LuhmannPart>> {
    if ps.len() == 0 {
        None
    } else {
        match ps.last() {
            LuhmannPart::Number(n) => Some(
                ps.drop_last().push(LuhmannPart::Number((n + 1) as u32)),
            ),
            LuhmannPart::Letter(c) => if c == 'z' {
                None
            } else {
                Some(ps.drop_last().push(LuhmannPart::Letter(((c as u32) + 1) as char)))
            },
        }
    }
}

/// `other` is a strict prefix of `ps`.
pub open spec fn descends_from(ps: Seq<LuhmannPart>, other: Seq<LuhmannPart>) -> bool {
    other.len() < ps.len() && ps.subrange(0, other.len() as int) == other
}

/// What one character of an address text contributes to its canonical form.
pub open spec fn canonical_char(c: char) -> Seq<char> {
    if is_ascii_letter(c) {
        seq![lower(c)]
    } else if is_ascii_digit(c) {
        seq![c]
    } else {
        seq![]
    }
}

pub open spec fn canonical_from(s: Seq<char>, i: nat) -> Seq<char>
    decreases s.len() - i,
{
    if i >= s.len() {
        seq![]
    } else {
        canonical_char(s[i as int]) + canonical_from(s, i + 1)
    }
}

/// The canonical form of an address text: ASCII letters in lower case, ASCII
/// digits as they are, every other character dropped.
pub open spec fn canonical_form(s: Seq<char>) -> Seq<char> {
    canonical_from(s, 0)
}

/// The end of the run of digits that starts at `i`.
pub open spec fn run_end(s: Seq<char>, i: nat) -> nat
    decreases s.len() - i,
{
    if i < s.len() && is_ascii_digit(s[i as int]) {
        run_end(s, i + 1)
    } else {
        i
    }
}

/// The value of a string of decimal digits.
pub open spec fn digits_value(d: Seq<char>) -> nat
    decreases d.len(),
{
    if d.len() == 0 {
        0
    } else {
        digits_value(d.drop_last()) * 10 + digit_value(d.last())
    }
}

/// A numeral as `decimal` writes it: digits, no leading zero but in `0` itself.
pub open spec fn canonical_numeral(d: Seq<char>) -> bool {
    &&& d.len() > 0
    &&& forall|k: int| 0 <= k < d.len() ==> is_ascii_digit(#[trigger] d[k])
    &&& (d[0] != '0' || d.len() == 1)
}

/// Every maximal run of digits in `s` is a canonical numeral that fits in `u32`.
pub open spec fn digit_runs_canonical(s: Seq<char>) -> bool {
    forall|i: int|
        0 <= i < s.len() && is_ascii_digit(#[trigger] s[i]) && (i == 0 || !is_ascii_digit(s[i - 1])) ==> {
            let d = s.subrange(i, run_end(s, i as nat) as int);
            canonical_numeral(d) && digits_value(d) <= u32::MAX
        }
}

/// A text that reads as an address and whose numbers are written canonically.
pub open spec fn valid_address_text(s: Seq<char>) -> bool {
    segments_of(s).len() > 0 && digit_runs_canonical(s)
}

proof fn lemma_render_concat(a: Seq<LuhmannPart>, b: Seq<LuhmannPart>)
    ensures
        render(a + b) == render(a) + render(b),
    decreases b.len(),
{
    if b.len() == 0 {
        assert(a + b =~= a);
    } else {
        lemma_render_concat(a, b.drop_last());
        assert((a + b).drop_last() =~= a + b.drop_last());
        assert((a + b).last() == b.last());
    }
}

proof fn lemma_leading_digit_positive(d: Seq<char>)
    requires
        d.len() > 0,
        forall|k: int| 0 <= k < d.len() ==> is_ascii_digit(#[trigger] d[k]),
        d[0] != '0',
    ensures
        digits_value(d) >= 1,
    decreases d.len(),
{
    if d.len() > 1 {
        lemma_leading_digit_positive(d.drop_last());
    }
}

/// A canonical numeral is the decimal text of its value.
proof fn lemma_numeral_round_trip(d: Seq<char>)
    requires
        canonical_numeral(d),
    ensures
        decimal(digits_value(d)) == d,
    decreases d.len(),
{
    let c = d.last();
    assert(is_ascii_digit(d[d.len() - 1]));
    let k = digit_value(c);
    assert(digit_char(k) == c && k < 10);
    if d.len() == 1 {
        assert(digits_value(d.drop_last()) == 0);
        assert(digits_value(d) == k);
        assert(decimal(k) == seq![digit_char(k)]);
        assert(d[0] == c);
        assert(decimal(digits_value(d)) =~= d);
    } else {
        let e = d.drop_last();
        assert(e[0] == d[0]);
        assert forall|m: int| 0 <= m < e.len() implies is_ascii_digit(#[trigger] e[m]) by {
            assert(e[m] == d[m]);
        }
        lemma_numeral_round_trip(e);
        lemma_leading_digit_positive(e);
        let a = digits_value(e);
        let v = digits_value(d);
        assert(v == a * 10 + k);
        assert((a * 10 + k) / 10 == a && (a * 10 + k) % 10 == k) by (nonlinear_arith)
            requires
                k < 10,
        ;
        assert(v >= 10);
        assert(d =~= e + seq![c]);
    }
}

proof fn lemma_run_end(s: Seq<char>, k: nat, i: nat)
    requires
        k <= i <= s.len(),
        forall|m: int| k <= m < i ==> is_ascii_digit(#[trigger] s[m]),
        i == s.len() || !is_ascii_digit(s[i as int]),
    ensures
        run_end(s, k) == i,
    decreases i - k,
{
    if k < i {
        lemma_run_end(s, k + 1, i);
    }
}

/// A run of digits that ends at `i` renders as itself.
proof fn lemma_pending_renders(s: Seq<char>, start: nat, i: nat)
    requires
        start <= i <= s.len(),
        forall|m: int| start <= m < i ==> is_ascii_digit(#[trigger] s[m]),
        start == 0 || !is_ascii_digit(s[start - 1]),
        i == s.len() || !is_ascii_digit(s[i as int]),
        digit_runs_canonical(s),
    ensures
        render(
            flush(
                if start == i {
                    None
                } else {
                    Some(digits_value(s.subrange(start as int, i as int)))
                },
            ),
        ) == s.subrange(start as int, i as int),
{
    let pending = s.subrange(start as int, i as int);
    if start < i {
        lemma_run_end(s, start, i);
        assert(is_ascii_digit(s[start as int]));
        assert(canonical_numeral(pending) && digits_value(pending) <= u32::MAX);
        lemma_numeral_round_trip(pending);
        let v = digits_value(pending);
        let one = seq![LuhmannPart::Number(v as u32)];
        assert(one.drop_last() =~= Seq::<LuhmannPart>::empty());
        assert(render(one.drop_last()) == Seq::<char>::empty());
        assert(part_text(one.last()) == decimal(v));
        assert(render(one) =~= decimal(v));
    } else {
        assert(pending =~= Seq::<char>::empty());
        assert(render(Seq::<LuhmannPart>::empty()) == Seq::<char>::empty());
    }
}

/// What `scan` yields from `i` on, with the digits of `s[start..i]` pending,
/// renders as those digits followed by the canonical form of the rest.
#[verifier::rlimit(40)]
proof fn lemma_scan_render(s: Seq<char>, start: nat, i: nat)
    requires
        start <= i <= s.len(),
        forall|m: int| start <= m < i ==> is_ascii_digit(#[trigger] s[m]),
        start == 0 || !is_ascii_digit(s[start - 1]),
        digit_runs_canonical(s),
    ensures
        render(
            scan(
                s,
                i,
                if start == i {
                    None
                } else {
                    Some(digits_value(s.subrange(start as int, i as int)))
                },
            ),
        ) == s.subrange(start as int, i as int) + canonical_from(s, i),
    decreases s.len() - i,
{
    let pending = s.subrange(start as int, i as int);
    let acc: Option<nat> = if start == i {
        None
    } else {
        Some(digits_value(pending))
    };
    if i >= s.len() || !is_ascii_digit(s[i as int]) {
        lemma_pending_renders(s, start, i);
    }
    if i >= s.len() {
        assert(canonical_from(s, i) =~= Seq::<char>::empty());
        assert(pending + canonical_from(s, i) =~= pending);
    } else {
        let c = s[i as int];
        if is_ascii_digit(c) {
            let base: nat = match acc {
                Some(v) => v,
                None => 0,
            };
            let next = s.subrange(start as int, (i + 1) as int);
            assert(next.drop_last() =~= pending);
            assert(next.last() == c);
            assert(digits_value(next) == digits_value(next.drop_last()) * 10 + digit_value(next.last()));
            assert(digits_value(next) == base * 10 + digit_value(c)) by {
                if start == i {
                    assert(pending.len() == 0);
                    assert(digits_value(pending) == 0);
                }
            }
            lemma_scan_render(s, start, i + 1);
            assert(next + canonical_from(s, i + 1) =~= pending + canonical_from(s, i));
        } else {
            lemma_scan_render(s, i + 1, i + 1);
            assert(s.subrange((i + 1) as int, (i + 1) as int) =~= Seq::<char>::empty());
            let rest = scan(s, i + 1, None);
            if is_ascii_letter(c) {
                let mid = seq![LuhmannPart::Letter(lower(c))];
                lemma_render_concat(flush(acc), mid);
                lemma_render_concat(flush(acc) + mid, rest);
                assert(mid.drop_last() =~= Seq::<LuhmannPart>::empty());
                assert(render(mid.drop_last()) == Seq::<char>::empty());
                assert(part_text(mid.last()) == seq![lower(c)]);
                assert(render(mid) =~= seq![lower(c)]);
            } else {
                lemma_render_concat(flush(acc), rest);
            }
            assert(s.subrange((i + 1) as int, (i + 1) as int) + canonical_from(s, i + 1) =~= canonical_from(s, i + 1));
        }
    }
}

/// Address round trip: rendering the address read from a valid text gives
/// the text's canonical form (other characters dropped, letters in lower case).
pub proof fn render_parse_round_trip(s: Seq<char>)
    requires
        valid_address_text(s),
    ensures
        render(segments_of(s)) == canonical_form(s),
{
    lemma_scan_render(s, 0, 0);
    assert(s.subrange(0, 0) + canonical_from(s, 0) =~= canonical_from(s, 0));
}

/// The order of two segments: every number before every letter, then by value.
pub open spec fn part_cmp(a: LuhmannPart, b: LuhmannPart) -> core::cmp::Ordering {
    match (a, b) {
        (LuhmannPart::Number(x), LuhmannPart::Number(y)) => if x < y {
            core::cmp::Ordering::Less
        } else if x == y {
            core::cmp::Ordering::Equal
        } else {
            core::cmp::Ordering::Greater
        },
        (LuhmannPart::Letter(x), LuhmannPart::Letter(y)) => if x < y {
            core::cmp::Ordering::Less
        } else if x == y {
            core::cmp::Ordering::Equal
        } else {
            core::cmp::Ordering::Greater
        },
        (LuhmannPart::Number(_), LuhmannPart::Letter(_)) => core::cmp::Ordering::Less,
        (LuhmannPart::Letter(_), LuhmannPart::Number(_)) => core::cmp::Ordering::Greater,
    }
}

/// Lexicographic order of addresses: the first differing segment decides, and
/// a proper prefix comes first.
pub open spec fn address_cmp(a: Seq<LuhmannPart>, b: Seq<LuhmannPart>) -> core::cmp::Ordering
    decreases a.len(),
{
    if a.len() == 0 {
        if b.len() == 0 {
            core::cmp::Ordering::Equal
        } else {
            core::cmp::Ordering::Less
        }
    } else if b.len() == 0 {
        core::cmp::Ordering::Greater
    } else if part_cmp(a[0], b[0]) != core::cmp::Ordering::Equal {
        part_cmp(a[0], b[0])
    } else {
        address_cmp(a.drop_first(), b.drop_first())
    }
}

fn compare_parts(a: LuhmannPart, b: LuhmannPart) -> (r: core::cmp::Ordering)
    ensures
        r == part_cmp(a, b),
{
    match (a, b) {
        (LuhmannPart::Number(x), LuhmannPart::Number(y)) => if x < y {
            core::cmp::Ordering::Less
        } else if x == y {
            core::cmp::Ordering::Equal
        } else {
            core::cmp::Ordering::Greater
        },
        (LuhmannPart::Letter(x), LuhmannPart::Letter(y)) => if x < y {
            core::cmp::Ordering::Less
        } else if x == y {
            core::cmp::Ordering::Equal
        } else {
            core::cmp::Ordering::Greater
        },
        (LuhmannPart::Number(_), LuhmannPart::Letter(_)) => core::cmp::Ordering::Less,
        (LuhmannPart::Letter(_), LuhmannPart::Number(_)) => core::cmp::Ordering::Greater,
    }
}

proof fn lemma_cmp_equal_prefix(a: Seq<LuhmannPart>, b: Seq<LuhmannPart>, i: int)
    requires
        0 <= i <= a.len(),
        i <= b.len(),
        a.subrange(0, i) == b.subrange(0, i),
    ensures
        address_cmp(a, b) == address_cmp(a.subrange(i, a.len() as int), b.subrange(i, b.len() as int)),
    decreases i,
{
    if i > 0 {
        assert(a[0] == a.subrange(0, i)[0]);
        assert(b[0] == b.subrange(0, i)[0]);
        assert(a.drop_first().subrange(0, i - 1) =~= a.subrange(1, i));
        assert(b.drop_first().subrange(0, i - 1) =~= b.subrange(1, i));
        assert(a.subrange(1, i) =~= a.subrange(0, i).drop_first());
        assert(b.subrange(1, i) =~= b.subrange(0, i).drop_first());
        lemma_cmp_equal_prefix(a.drop_first(), b.drop_first(), i - 1);
        assert(a.drop_first().subrange(i - 1, a.len() - 1) =~= a.subrange(i, a.len() as int));
        assert(b.drop_first().subrange(i - 1, b.len() - 1) =~= b.subrange(i, b.len() as int));
    } else {
        assert(a.subrange(0, a.len() as int) =~= a);
        assert(b.subrange(0, b.len() as int) =~= b);
    }
}

fn lower_char(c: char) -> (r: char)
    ensures
        r == lower(c),
{
    if 'A' <= c && c <= 'Z' {
        let b: u8 = c as u8;
        (b + 32) as char
    } else {
        c
    }
}

proof fn lemma_render_push(ps: Seq<LuhmannPart>, p: LuhmannPart)
    ensures
        render(ps.push(p)) == render(ps) + part_text(p),
{
    assert(ps.push(p).drop_last() == ps);
}

fn copy_parts(v: &Vec<LuhmannPart>, n: usize) -> (r: Vec<LuhmannPart>)
    requires
        n <= v.len(),
    ensures
        r@ == v@.subrange(0, n as int),
{
    let mut r: Vec<LuhmannPart> = Vec::new();
    let mut i: usize = 0;
    while i < n
        invariant
            n <= v.len(),
            i <= n,
            r@ == v@.subrange(0, i as int),
        decreases n - i,
    {
        r.push(v[i]);
        i = i + 1;
        assert(r@ == v@.subrange(0, i as int));
    }
    r
}

fn same_parts(a: &Vec<LuhmannPart>, b: &Vec<LuhmannPart>, n: usize) -> (r: bool)
    requires
        n <= a.len(),
        n <= b.len(),
    ensures
        r == (a@.subrange(0, n as int) == b@.subrange(0, n as int)),
{
    let mut i: usize = 0;
    while i < n
        invariant
            n <= a.len(),
            n <= b.len(),
            i <= n,
            a@.subrange(0, i as int) == b@.subrange(0, i as int),
        decreases n - i,
    {
        if a[i] != b[i] {
            assert(a@.subrange(0, n as int)[i as int] != b@.subrange(0, n as int)[i as int]);
            return false;
        }
        i = i + 1;
        assert(a@.subrange(0, i as int) == a@.subrange(0, i - 1).push(a@[i - 1]));
        assert(b@.subrange(0, i as int) == b@.subrange(0, i - 1).push(b@[i - 1]));
    }
    true
}

impl LuhmannId {
    /// Every letter segment is a lower-case ASCII letter, as `parse` makes them.
    pub open spec fn wf(&self) -> bool {
        parts_wf(self@)
    }

    /// Reads an address from text: a maximal run of ASCII digits forms one
    /// number segment (dropped if it exceeds `u32`), each ASCII letter forms one
    /// letter segment in lower case, anything else is skipped. `None` when no
    /// segment results.
    pub fn parse(s: &str) -> (r: Option<LuhmannId>)
        ensures
            r is Some <==> segments_of(s@).len() > 0,
            r matches Some(id) ==> id@ == segments_of(s@) && id.wf(),
    {
        let mut parts: Vec<LuhmannPart> = Vec::new();
        let n = s.unicode_len();
        let mut i: usize = 0;
        let mut in_run = false;
        let mut over = false;
        let mut acc: u64 = 0;
        let ghost mut run: Option<nat> = None;
        while i < n
            invariant
                n == s@.len(),
                i <= n,
                parts@ + scan(s@, i as nat, run) == segments_of(s@),
                parts_wf(parts@),
                in_run <==> run is Some,
                run matches Some(v) ==> (if over {
                    v > u32::MAX as nat
                } else {
                    v == acc as nat && acc <= u32::MAX
                }),
            decreases n - i,
        {
            let c = s.get_char(i);
            if '0' <= c && c <= '9' {
                let d: u64 = ((c as u32) - 48) as u64;
                let ghost base: nat = match run {
                    Some(v) => v,
                    None => 0,
                };
                if !in_run {
                    acc = 0;
                    over = false;
                }
                if !over {
                    let next = acc * 10 + d;
                    if next > 0xFFFF_FFFF {
                        over = true;
                    } else {
                        acc = next;
                    }
                }
                in_run = true;
                proof {
                    run = Some(base * 10 + digit_value(c));
                }
            } else {
                let ghost before = parts@;
                if in_run && !over {
                    parts.push(LuhmannPart::Number(acc as u32));
                }
                assert(parts@ == before + flush(run));
                if ('a' <= c && c <= 'z') || ('A' <= c && c <= 'Z') {
                    let l = lower_char(c);
                    parts.push(LuhmannPart::Letter(l));
                    assert(parts@ == before + flush(run) + seq![LuhmannPart::Letter(lower(c))]);
                }
                in_run = false;
                proof {
                    run = None;
                }
            }
            i = i + 1;
        }
        let ghost before = parts@;
        if in_run && !over {
            parts.push(LuhmannPart::Number(acc as u32));
        }
        assert(parts@ == before + flush(run));
        assert(parts@ == segments_of(s@));
        if parts.len() == 0 {
            None
        } else {
            Some(LuhmannId { parts })
        }
    }

    /// The text form: each segment's text, without separators.
    pub fn to_string(&self) -> (r: String)
        ensures
            r@ == render(self@),
    {
        let mut out = String::new();
        let mut i: usize = 0;
        while i < self.parts.len()
            invariant
                i <= self.parts.len(),
                out@ == render(self@.subrange(0, i as int)),
            decreases self.parts.len() - i,
        {
            let ghost prefix = self@.subrange(0, i as int);
            match self.parts[i] {
                LuhmannPart::Number(k) => push_decimal(&mut out, k as u64),
                LuhmannPart::Letter(c) => push_char(&mut out, c),
            }
            proof {
                lemma_render_push(prefix, self@[i as int]);
                assert(self@.subrange(0, i + 1) == prefix.push(self@[i as int]));
            }
            i = i + 1;
        }
        assert(self@.subrange(0, i as int) == self@);
        out
    }

    /// The parent address; `None` for a single segment.
    pub fn parent(&self) -> (r: Option<LuhmannId>)
        ensures
            r matches Some(p) ==> parent_of(self@) == Some(p@),
            r is None ==> parent_of(self@) is None,
            self.wf() && r is Some ==> r.unwrap().wf(),
    {
        if self.parts.len() <= 1 {
            None
        } else {
            let parts = copy_parts(&self.parts, self.parts.len() - 1);
            assert(parts@ == self@.drop_last());
            Some(LuhmannId { parts })
        }
    }

    /// The next sibling: the last number plus one, or the next letter; `None`
    /// after `z` (the letter range ends there) and for an address without segments.
    pub fn next_sibling(&self) -> (r: Option<LuhmannId>)
        requires
            self.wf(),
            self@.len() > 0 ==> self@.last() != LuhmannPart::Number(u32::MAX),
        ensures
            r matches Some(p) ==> next_sibling_of(self@) == Some(p@) && p.wf(),
            r is None ==> next_sibling_of(self@) is None,
    {
        let len = self.parts.len();
        if len == 0 {
            return None;
        }
        let mut parts = copy_parts(&self.parts, len - 1);
        assert(parts@ == self@.drop_last());
        match self.parts[len - 1] {
            LuhmannPart::Number(k) => {
                parts.push(LuhmannPart::Number(k + 1));
            },
            LuhmannPart::Letter(c) => {
                if c == 'z' {
                    return None;
                }
                assert('a' <= c && c <= 'z');
                let b: u8 = c as u8;
                parts.push(LuhmannPart::Letter((b + 1) as char));
            },
        }
        Some(LuhmannId { parts })
    }

    /// The first child: `a` appended after a number, `1` after a letter (or to
    /// an address without segments).
    pub fn first_child(&self) -> (r: LuhmannId)
        ensures
            r@ == first_child_of(self@),
            self.wf() ==> r.wf(),
    {
        let mut parts = self.parts.clone();
        assert(parts@ == self@);
        let len = self.parts.len();
        if len > 0 && matches!(self.parts[len - 1], LuhmannPart::Number(_)) {
            parts.push(LuhmannPart::Letter('a'));
        } else {
            parts.push(LuhmannPart::Number(1));
        }
        LuhmannId { parts }
    }

    /// An address between this one and its sibling `next`: this address with a
    /// child segment appended (as `first_child` picks it); `None` when the two
    /// do not share a parent.
    pub fn insert_between(&self, next: &LuhmannId) -> (r: Option<LuhmannId>)
        ensures
            r is Some <==> parent_of(self@) == parent_of(next@),
            r matches Some(p) ==> p@ == (if self@.len() == 0 {
                self@
            } else {
                first_child_of(self@)
            }),
    {
        let a = self.parts.len();
        let b = next.parts.len();
        let same = if a <= 1 || b <= 1 {
            a <= 1 && b <= 1
        } else {
            a == b && same_parts(&self.parts, &next.parts, a - 1)
        };
        proof {
            if a > 1 && b > 1 && a != b {
                assert(self@.drop_last().len() != next@.drop_last().len());
            }
            if a > 1 && a == b {
                assert(self@.drop_last() == self@.subrange(0, a - 1));
                assert(next@.drop_last() == next@.subrange(0, a - 1));
            }
        }
        if !same {
            return None;
        }
        if a == 0 {
            let parts = self.parts.clone();
            assert(parts@ == self@);
            Some(LuhmannId { parts })
        } else {
            Some(self.first_child())
        }
    }

    /// The order of two addresses: segment by segment (numbers before letters,
    /// then by value), a proper prefix first.
    pub fn compare(&self, other: &LuhmannId) -> (r: core::cmp::Ordering)
        ensures
            r == address_cmp(self@, other@),
    {
        let a = &self.parts;
        let b = &other.parts;
        let mut i: usize = 0;
        while i < a.len() && i < b.len()
            invariant
                a@ == self@,
                b@ == other@,
                i <= a.len(),
                i <= b.len(),
                a@.subrange(0, i as int) == b@.subrange(0, i as int),
            decreases a.len() - i,
        {
            let c = compare_parts(a[i], b[i]);
            let same = match c {
                core::cmp::Ordering::Equal => true,
                _ => false,
            };
            if !same {
                proof {
                    lemma_cmp_equal_prefix(a@, b@, i as int);
                    let x = a@.subrange(i as int, a.len() as int);
                    let y = b@.subrange(i as int, b.len() as int);
                    assert(x[0] == a@[i as int]);
                    assert(y[0] == b@[i as int]);
                    assert(c != core::cmp::Ordering::Equal);
                    assert(part_cmp(x[0], y[0]) != core::cmp::Ordering::Equal);
                    assert(address_cmp(x, y) == part_cmp(x[0], y[0]));
                }
                return c;
            }
            proof {
                assert(part_cmp(a@[i as int], b@[i as int]) == core::cmp::Ordering::Equal);
                assert(a@[i as int] == b@[i as int]);
            }
            i = i + 1;
            assert(a@.subrange(0, i as int) =~= a@.subrange(0, i - 1).push(a@[i - 1]));
            assert(b@.subrange(0, i as int) =~= b@.subrange(0, i - 1).push(b@[i - 1]));
        }
        proof {
            lemma_cmp_equal_prefix(a@, b@, i as int);
        }
        if a.len() == b.len() {
            core::cmp::Ordering::Equal
        } else if i == a.len() {
            core::cmp::Ordering::Less
        } else {
            core::cmp::Ordering::Greater
        }
    }

    /// The number of segments.
    pub fn level(&self) -> (r: usize)
        ensures
            r == self@.len(),
    {
        self.parts.len()
    }

    /// Whether `other` is a strict prefix of this address.
    pub fn is_descendant_of(&self, other: &LuhmannId) -> (r: bool)
        ensures
            r == descends_from(self@, other@),
    {
        let n = other.parts.len();
        if n >= self.parts.len() {
            return false;
        }
        let r = same_parts(&self.parts, &other.parts, n);
        assert(other@.subrange(0, n as int) == other@);
        r
    }

    /// Reads an address as `parse` does; the error names the rejected text.
    pub fn from_str(s: &str) -> (r: Result<LuhmannId, String>)
        ensures
            r is Ok <==> segments_of(s@).len() > 0,
            r matches Ok(id) ==> id@ == segments_of(s@) && id.wf(),
            r matches Err(e) ==> e@ == "Invalid Luhmann ID: "@ + s@,
    {
        match LuhmannId::parse(s) {
            Some(id) => Ok(id),
            None => {
                let mut e = String::new();
                push_str(&mut e, "Invalid Luhmann ID: ");
                push_str(&mut e, s);
                Err(e)
            },
        }
    }
}

} // verus!
