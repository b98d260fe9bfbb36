//! Dotted numeric version strings: parsing, printing and total ordering.
//!
//! A version is a non-empty sequence of non-negative integer parts. Ordering
//! is lexicographic by part, and a shorter sequence precedes any longer
//! sequence that extends it (`1 < 1.0`): missing trailing parts compare as
//! absent, not as zero.

use vstd::prelude::*;
use vstd::string::StrSliceExecFns;
use vstd::string::StringExecFns;

verus! {

use core::cmp::Ordering;

/// A parsed version: at least one numeric part.
#[derive(Debug)]
pub struct Version {
    parts: Vec<u64>,
}

impl View for Version {
    type V = Seq<u64>;

    closed spec fn view(&self) -> Seq<u64> {
        self.parts@
    }
}

/// The string that failed to parse as a version.
#[derive(Debug)]
pub struct VersionParseError(pub String);

pub open spec fn is_digit_char(c: char) -> bool {
    '0' <= c && c <= '9'
}

/// Numeric value of a digit character.
pub open spec fn digit_val(c: char) -> nat
    recommends
        is_digit_char(c),
{
    ((c as u32) - ('0' as u32)) as nat
}

/// The digit character for a value below ten.
pub open spec fn digit_char_of(d: nat) -> char
    recommends
        d < 10,
{
    if d == 0 {
        '0'
    } else if d == 1 {
        '1'
    } else if d == 2 {
        '2'
    } else if d == 3 {
        '3'
    } else if d == 4 {
        '4'
    } else if d == 5 {
        '5'
    } else if d == 6 {
        '6'
    } else if d == 7 {
        '7'
    } else if d == 8 {
        '8'
    } else {
        '9'
    }
}

pub open spec fn all_digits(s: Seq<char>) -> bool {
    forall|i: int| 0 <= i < s.len() ==> is_digit_char(#[trigger] s[i])
}

/// Value of a run of digit characters, most significant first.
pub open spec fn seg_val(s: Seq<char>) -> nat
    decreases s.len(),
{
    if s.len() == 0 {
        0
    } else {
        seg_val(s.drop_last()) * 10 + digit_val(s.last())
    }
}

/// The segments of a string between its dots. Always non-empty; an empty
/// string yields one empty segment, so that a string is a well-formed
/// version exactly when every segment is a non-empty run of digits.
pub open spec fn split_dots(s: Seq<char>) -> Seq<Seq<char>>
    decreases s.len(),
{
    if s.len() == 0 {
        seq![Seq::<char>::empty()]
    } else if s[0] == '.' {
        seq![Seq::<char>::empty()] + split_dots(s.drop_first())
    } else {
        let rest = split_dots(s.drop_first());
        seq![seq![s[0]] + rest[0]] + rest.drop_first()
    }
}

pub open spec fn valid_segments(segs: Seq<Seq<char>>) -> bool {
    forall|i: int|
        0 <= i < segs.len() ==> (#[trigger] segs[i]).len() > 0 && all_digits(segs[i])
}

pub open spec fn segments_fit(segs: Seq<Seq<char>>) -> bool {
    forall|i: int| 0 <= i < segs.len() ==> seg_val(#[trigger] segs[i]) <= u64::MAX
}

/// A string parses as a version when it is one or more dot-separated,
/// non-empty runs of digits, each of whose values fits in a part.
pub open spec fn parses(s: Seq<char>) -> bool {
    valid_segments(split_dots(s)) && segments_fit(split_dots(s))
}

/// The parts denoted by a string that parses.
pub open spec fn version_of(s: Seq<char>) -> Seq<u64>
    recommends
        parses(s),
{
    split_dots(s).map_values(|seg: Seq<char>| seg_val(seg) as u64)
}

/// Decimal digits of a number, most significant first, no leading zeros.
pub open spec fn digits_of(n: nat) -> Seq<char>
    decreases n,
{
    if n < 10 {
        seq![digit_char_of(n)]
    } else {
        digits_of(n / 10).push(digit_char_of(n % 10))
    }
}

/// The canonical string of a sequence of parts: decimal digits joined by dots.
pub open spec fn version_string_of(parts: Seq<u64>) -> Seq<char>
    decreases parts.len(),
{
    if parts.len() == 0 {
        Seq::empty()
    } else if parts.len() == 1 {
        digits_of(parts[0] as nat)
    } else {
        version_string_of(parts.drop_last()) + seq!['.'] + digits_of(parts.last() as nat)
    }
}

/// Lexicographic comparison of part sequences; exhausting first means less.
pub open spec fn version_cmp(a: Seq<u64>, b: Seq<u64>) -> Ordering
    decreases a.len(),
{
    if a.len() == 0 && b.len() == 0 {
        Ordering::Equal
    } else if a.len() == 0 {
        Ordering::Less
    } else if b.len() == 0 {
        Ordering::Greater
    } else if a[0] < b[0] {
        Ordering::Less
    } else if a[0] > b[0] {
        Ordering::Greater
    } else {
        version_cmp(a.drop_first(), b.drop_first())
    }
}

/// The part sequences of a list of versions.
pub open spec fn views_of(vs: Seq<Version>) -> Seq<Seq<u64>> {
    vs.map_values(|v: Version| v@)
}

/// Whether some version in the list has the given parts.
pub open spec fn has_version(vs: Seq<Version>, v: Seq<u64>) -> bool {
    exists|i: int| 0 <= i < vs.len() && (#[trigger] vs[i])@ == v
}

pub open spec fn version_lt(a: Seq<u64>, b: Seq<u64>) -> bool {
    version_cmp(a, b) == Ordering::Less
}

pub open spec fn version_le(a: Seq<u64>, b: Seq<u64>) -> bool {
    version_cmp(a, b) != Ordering::Greater
}

impl Version {
    /// A version always has at least one part.
    pub open spec fn wf(&self) -> bool {
        self@.len() > 0
    }

    /// Builds a version directly from its parts.
    pub fn from_parts(parts: Vec<u64>) -> (r: Version)
        requires
            parts@.len() > 0,
        ensures
            r@ == parts@,
            r.wf(),
    {
        Version { parts }
    }

    /// The numeric parts, most significant first.
    pub fn parts(&self) -> (r: &Vec<u64>)
        ensures
            r@ == self@,
    {
        &self.parts
    }

    /// Parses a dot-separated run of digit segments. Fails on an empty
    /// string, an empty segment (leading, trailing or doubled dot), any
    /// non-digit character, and on a segment whose value does not fit in
    /// a part; the error carries the offending input.
    pub fn parse(text: &str) -> (r: Result<Version, VersionParseError>)
        ensures
            r is Ok <==> parses(text@),
            r is Ok ==> r->Ok_0@ == version_of(text@) && r->Ok_0.wf(),
            r is Err ==> r->Err_0.0@ == text@,
    {
        let n = text.unicode_len();
        let mut parts: Vec<u64> = Vec::new();
        let ghost mut done: Seq<Seq<char>> = Seq::empty();
        let mut pos: usize = 0;
        proof {
            assert(text@.skip(0) =~= text@);
        }
        loop
            invariant_except_break
                split_dots(text@) =~= done + split_dots(text@.skip(pos as int)),
            invariant
                n == text@.len(),
                pos <= n,
                done.len() == parts@.len(),
                forall|k: int|
                    0 <= k < done.len() ==> (#[trigger] done[k]).len() > 0 && all_digits(done[k])
                        && seg_val(done[k]) <= u64::MAX && parts@[k] == seg_val(done[k]),
            ensures
                done.len() == parts@.len(),
                parts@.len() > 0,
                split_dots(text@) =~= done,
                forall|k: int|
                    0 <= k < done.len() ==> (#[trigger] done[k]).len() > 0 && all_digits(done[k])
                        && seg_val(done[k]) <= u64::MAX && parts@[k] == seg_val(done[k]),
            decreases n - pos,
        {
            let mut end: usize = pos;
            while end < n && text.get_char(end) != '.'
                invariant
                    n == text@.len(),
                    pos <= end <= n,
                    forall|k: int| pos <= k < end ==> text@[k] != '.',
                decreases n - end,
            {
                end = end + 1;
            }
            let ghost seg: Seq<char> = text@.subrange(pos as int, end as int);
            let mut j: usize = pos;
            let mut val: u64 = 0;
            let mut ok: bool = true;
            let mut overflow: bool = false;
            while j < end
                invariant
                    n == text@.len(),
                    pos <= j <= end <= n,
                    ok <==> all_digits(text@.subrange(pos as int, j as int)),
                    ok && !overflow ==> val as nat == seg_val(
                        text@.subrange(pos as int, j as int),
                    ),
                    overflow ==> seg_val(text@.subrange(pos as int, j as int)) > u64::MAX,
                decreases end - j,
            {
                let ghost pre: Seq<char> = text@.subrange(pos as int, j as int);
                let c = text.get_char(j);
                proof {
                    assert(text@.subrange(pos as int, j as int + 1) =~= pre.push(c));
                    lemma_seg_val_push(pre, c);
                }
                if c < '0' || c > '9' {
                    ok = false;
                } else if ok && !overflow {
                    let d: u64 = (c as u32 - '0' as u32) as u64;
                    if val > (u64::MAX - d) / 10 {
                        overflow = true;
                        proof {
                            lemma_mul_div_bound(val as nat, d as nat);
                        }
                    } else {
                        proof {
                            lemma_mul_div_fits(val as nat, d as nat);
                        }
                        val = val * 10 + d;
                    }
                }
                j = j + 1;
            }
            proof {
                if end == n {
                    assert(text@.skip(pos as int) =~= seg);
                } else {
                    assert(text@.skip(pos as int) =~= seg + seq!['.'] + text@.skip(
                        end as int + 1,
                    ));
                    lemma_split_dots_join(seg, text@.skip(end as int + 1));
                }
                lemma_split_dots_no_dots(seg);
                lemma_split_dots_len(text@.skip(end as int + 1));
                assert(split_dots(text@)[done.len() as int] == seg);
            }
            if pos == end || !ok || overflow {
                return Err(VersionParseError(text.to_owned()));
            }
            parts.push(val);
            proof {
                done = done.push(seg);
            }
            if end == n {
                proof {
                    assert(split_dots(text@) =~= done);
                }
                break ;
            }
            pos = end + 1;
        }
        proof {
            lemma_split_dots_len(text@);
            assert(parts@ =~= version_of(text@));
        }
        Ok(Version { parts })
    }

    /// The canonical string form: parts in decimal, joined by dots.
    pub fn to_string(&self) -> (r: String)
        ensures
            r@ == version_string_of(self@),
    {
        let mut out = String::new();
        let mut i: usize = 0;
        while i < self.parts.len()
            invariant
                i <= self.parts@.len(),
                out@ == version_string_of(self@.take(i as int)),
            decreases self.parts@.len() - i,
        {
            if i > 0 {
                out.append(".");
            }
            push_digits(&mut out, self.parts[i]);
            proof {
                reveal_strlit(".");
                assert("."@ =~= seq!['.']);
                lemma_version_string_push(self@.take(i as int), self@[i as int]);
                assert(self@.take(i as int).push(self@[i as int]) =~= self@.take(i as int + 1));
                assert(out@ =~= version_string_of(self@.take(i as int + 1)));
            }
            i = i + 1;
        }
        proof {
            assert(self@.take(self@.len() as int) =~= self@);
        }
        out
    }
}

impl Clone for Version {
    fn clone(&self) -> (r: Self)
        ensures
            r@ == self@,
    {
        let mut parts: Vec<u64> = Vec::new();
        let mut i: usize = 0;
        while i < self.parts.len()
            invariant
                i <= self.parts@.len(),
                parts@ == self.parts@.take(i as int),
            decreases self.parts@.len() - i,
        {
            parts.push(self.parts[i]);
            proof {
                assert(self.parts@.take(i as int).push(self.parts@[i as int]) =~= self.parts@.take(
                    i as int + 1,
                ));
            }
            i = i + 1;
        }
        proof {
            assert(self.parts@.take(self.parts@.len() as int) =~= self.parts@);
        }
        Version { parts }
    }
}

impl PartialEq for Version {
    fn eq(&self, other: &Self) -> (r: bool) {
        let mut i: usize = 0;
        if self.parts.len() != other.parts.len() {
            return false;
        }
        while i < self.parts.len()
            invariant
                i <= self.parts@.len(),
                self.parts@.len() == other.parts@.len(),
                forall|k: int| 0 <= k < i ==> self.parts@[k] == other.parts@[k],
            decreases self.parts@.len() - i,
        {
            if self.parts[i] != other.parts[i] {
                return false;
            }
            i = i + 1;
        }
        proof {
            assert(self@ =~= other@);
        }
        true
    }
}

impl vstd::std_specs::cmp::PartialEqSpecImpl for Version {
    open spec fn obeys_eq_spec() -> bool {
        true
    }

    open spec fn eq_spec(&self, other: &Self) -> bool {
        self@ == other@
    }
}

impl PartialOrd for Version {
    fn partial_cmp(&self, other: &Self) -> (r: Option<Ordering>) {
        let mut i: usize = 0;
        proof {
            assert(self.parts@.skip(0) =~= self.parts@);
            assert(other.parts@.skip(0) =~= other.parts@);
        }
        loop
            invariant
                i <= self.parts@.len(),
                i <= other.parts@.len(),
                version_cmp(self@, other@) == version_cmp(
                    self.parts@.skip(i as int),
                    other.parts@.skip(i as int),
                ),
            decreases self.parts@.len() - i,
        {
            let ghost a = self.parts@.skip(i as int);
            let ghost b = other.parts@.skip(i as int);
            if i == self.parts.len() {
                proof {
                    assert(a =~= Seq::<u64>::empty());
                }
                if i == other.parts.len() {
                    proof {
                        assert(b =~= Seq::<u64>::empty());
                    }
                    return Some(Ordering::Equal);
                }
                return Some(Ordering::Less);
            }
            if i == other.parts.len() {
                proof {
                    assert(b =~= Seq::<u64>::empty());
                }
                return Some(Ordering::Greater);
            }
            if self.parts[i] < other.parts[i] {
                return Some(Ordering::Less);
            }
            if self.parts[i] > other.parts[i] {
                return Some(Ordering::Greater);
            }
            proof {
                assert(a.drop_first() =~= self.parts@.skip(i as int + 1));
                assert(b.drop_first() =~= other.parts@.skip(i as int + 1));
            }
            i = i + 1;
        }
    }
}

impl vstd::std_specs::cmp::PartialOrdSpecImpl for Version {
    open spec fn obeys_partial_cmp_spec() -> bool {
        true
    }

    open spec fn partial_cmp_spec(&self, other: &Self) -> Option<Ordering> {
        Some(version_cmp(self@, other@))
    }
}

/// A one-character string for a digit value.
fn digit_str(d: u64) -> (r: &'static str)
    requires
        d < 10,
    ensures
        r@ == seq![digit_char_of(d as nat)],
{
    if d == 0 {
        let s = "0";
        proof {
            reveal_strlit("0");
            assert(s@ =~= seq![digit_char_of(0)]);
        }
        s
    } else if d == 1 {
        let s = "1";
        proof {
            reveal_strlit("1");
            assert(s@ =~= seq![digit_char_of(1)]);
        }
        s
    } else if d == 2 {
        let s = "2";
        proof {
            reveal_strlit("2");
            assert(s@ =~= seq![digit_char_of(2)]);
        }
        s
    } else if d == 3 {
        let s = "3";
        proof {
            reveal_strlit("3");
            assert(s@ =~= seq![digit_char_of(3)]);
        }
        s
    } else if d == 4 {
        let s = "4";
        proof {
            reveal_strlit("4");
            assert(s@ =~= seq![digit_char_of(4)]);
        }
        s
    } else if d == 5 {
        let s = "5";
        proof {
            reveal_strlit("5");
            assert(s@ =~= seq![digit_char_of(5)]);
        }
        s
    } else if d == 6 {
        let s = "6";
        proof {
            reveal_strlit("6");
            assert(s@ =~= seq![digit_char_of(6)]);
        }
        s
    } else if d == 7 {
        let s = "7";
        proof {
            reveal_strlit("7");
            assert(s@ =~= seq![digit_char_of(7)]);
        }
        s
    } else if d == 8 {
        let s = "8";
        proof {
            reveal_strlit("8");
            assert(s@ =~= seq![digit_char_of(8)]);
        }
        s
    } else {
        let s = "9";
        proof {
            reveal_strlit("9");
            assert(s@ =~= seq![digit_char_of(9)]);
        }
        s
    }
}

/// Appends the decimal digits of a number, most significant first.
fn push_digits(out: &mut String, x: u64)
    ensures
        final(out)@ == old(out)@ + digits_of(x as nat),
    decreases x,
{
    if x < 10 {
        out.append(digit_str(x));
    } else {
        push_digits(out, x / 10);
        out.append(digit_str(x % 10));
        proof {
            assert(old(out)@ + digits_of(x as nat) =~= (old(out)@ + digits_of((x / 10) as nat))
                + seq![digit_char_of((x % 10) as nat)]);
        }
    }
}

proof fn lemma_mul_div_fits(val: nat, d: nat)
    requires
        d < 10,
        d <= u64::MAX,
        val <= (u64::MAX - d) / 10,
    ensures
        val * 10 + d <= u64::MAX,
{
    let m = (u64::MAX - d) as nat;
    assert(m == 10 * (m / 10) + m % 10);
    assert(val * 10 <= (m / 10) * 10);
}

proof fn lemma_mul_div_bound(val: nat, d: nat)
    requires
        d < 10,
        d <= u64::MAX,
        val > (u64::MAX - d) / 10,
    ensures
        val * 10 + d > u64::MAX,
{
    let m = (u64::MAX - d) as nat;
    assert(m == 10 * (m / 10) + m % 10);
    assert(val >= m / 10 + 1);
    assert(val * 10 >= (m / 10 + 1) * 10);
    assert((m / 10 + 1) * 10 == (m / 10) * 10 + 10);
}

proof fn lemma_seg_val_push(s: Seq<char>, c: char)
    ensures
        seg_val(s.push(c)) == seg_val(s) * 10 + digit_val(c),
        seg_val(s.push(c)) >= seg_val(s),
{
    assert(s.push(c).drop_last() =~= s);
    assert(s.push(c).last() == c);
}

proof fn lemma_split_dots_len(s: Seq<char>)
    ensures
        split_dots(s).len() >= 1,
    decreases s.len(),
{
    if s.len() > 0 {
        lemma_split_dots_len(s.drop_first());
    }
}

/// A string without dots is a single segment.
proof fn lemma_split_dots_no_dots(s: Seq<char>)
    requires
        forall|i: int| 0 <= i < s.len() ==> s[i] != '.',
    ensures
        split_dots(s) =~= seq![s],
    decreases s.len(),
{
    if s.len() == 0 {
        assert(s =~= Seq::<char>::empty());
        assert(split_dots(s) == seq![Seq::<char>::empty()]);
    } else {
        lemma_split_dots_no_dots(s.drop_first());
        let rest = split_dots(s.drop_first());
        assert(rest == seq![s.drop_first()]);
        assert(rest.drop_first() =~= Seq::<Seq<char>>::empty());
        assert(seq![s[0]] + s.drop_first() =~= s);
        assert(split_dots(s) == seq![seq![s[0]] + rest[0]] + rest.drop_first());
    }
}

/// Splitting distributes over joining with a dot.
proof fn lemma_split_dots_join(x: Seq<char>, y: Seq<char>)
    ensures
        split_dots(x + seq!['.'] + y) =~= split_dots(x) + split_dots(y),
    decreases x.len(),
{
    let s = x + seq!['.'] + y;
    if x.len() == 0 {
        assert(s[0] == '.');
        assert(s.drop_first() =~= y);
        assert(split_dots(x) =~= seq![Seq::<char>::empty()]);
        assert(split_dots(s) =~= split_dots(x) + split_dots(y));
    } else if x[0] == '.' {
        lemma_split_dots_join(x.drop_first(), y);
        assert(s[0] == '.');
        assert(s.drop_first() =~= x.drop_first() + seq!['.'] + y);
        assert(split_dots(s) =~= split_dots(x) + split_dots(y));
    } else {
        lemma_split_dots_join(x.drop_first(), y);
        lemma_split_dots_len(x.drop_first());
        assert(s[0] == x[0]);
        assert(s.drop_first() =~= x.drop_first() + seq!['.'] + y);
        let rest_x = split_dots(x.drop_first());
        assert((rest_x + split_dots(y))[0] == rest_x[0]);
        assert(split_dots(s) =~= split_dots(x) + split_dots(y));
    }
}

proof fn lemma_digit_roundtrip(d: nat)
    requires
        d < 10,
    ensures
        is_digit_char(digit_char_of(d)),
        digit_val(digit_char_of(d)) == d,
        digit_char_of(d) != '.',
{
}

proof fn lemma_digits_of_wf(n: nat)
    ensures
        digits_of(n).len() >= 1,
        all_digits(digits_of(n)),
        forall|i: int| 0 <= i < digits_of(n).len() ==> digits_of(n)[i] != '.',
    decreases n,
{
    if n < 10 {
        lemma_digit_roundtrip(n);
    } else {
        lemma_digits_of_wf(n / 10);
        lemma_digit_roundtrip(n % 10);
        assert forall|i: int| 0 <= i < digits_of(n).len() implies is_digit_char(
            digits_of(n)[i],
        ) && digits_of(n)[i] != '.' by {
            if i < digits_of(n / 10).len() {
                assert(digits_of(n)[i] == digits_of(n / 10)[i]);
            } else {
                assert(digits_of(n)[i] == digit_char_of(n % 10));
            }
        }
    }
}

proof fn lemma_seg_val_digits_of(n: nat)
    ensures
        seg_val(digits_of(n)) == n,
    decreases n,
{
    if n < 10 {
        lemma_digit_roundtrip(n);
        let s = seq![digit_char_of(n)];
        assert(s.drop_last() =~= Seq::<char>::empty());
        assert(seg_val(s) == seg_val(s.drop_last()) * 10 + digit_val(s.last()));
        assert(seg_val(Seq::<char>::empty()) == 0);
    } else {
        lemma_seg_val_digits_of(n / 10);
        lemma_seg_val_push(digits_of(n / 10), digit_char_of(n % 10));
        lemma_digit_roundtrip(n % 10);
        assert(seg_val(digits_of(n)) == (n / 10) * 10 + n % 10);
        assert((n / 10) * 10 + n % 10 == n) by {
            vstd::arithmetic::div_mod::lemma_fundamental_div_mod(n as int, 10);
        }
    }
}

/// Appending a part appends a dot and its digits (when parts were non-empty).
proof fn lemma_version_string_push(parts: Seq<u64>, x: u64)
    ensures
        parts.len() == 0 ==> version_string_of(parts.push(x)) == digits_of(x as nat),
        parts.len() > 0 ==> version_string_of(parts.push(x)) == version_string_of(parts)
            + seq!['.'] + digits_of(x as nat),
{
    let p = parts.push(x);
    assert(p.drop_last() =~= parts);
    assert(p.last() == x);
    if parts.len() == 0 {
        assert(version_string_of(p) == digits_of(p[0] as nat));
    }
}

/// Printing a version and parsing the string back recovers the parts:
/// the canonical string of any non-empty part sequence parses, and it
/// denotes exactly those parts.
pub proof fn lemma_parse_round_trip(parts: Seq<u64>)
    requires
        parts.len() > 0,
    ensures
        parses(version_string_of(parts)),
        version_of(version_string_of(parts)) == parts,
    decreases parts.len(),
{
    if parts.len() == 1 {
        let d = digits_of(parts[0] as nat);
        lemma_digits_of_wf(parts[0] as nat);
        lemma_split_dots_no_dots(d);
        lemma_seg_val_digits_of(parts[0] as nat);
        assert(version_of(version_string_of(parts)) =~= parts);
    } else {
        let front = parts.drop_last();
        lemma_parse_round_trip(front);
        let x = version_string_of(front);
        let d = digits_of(parts.last() as nat);
        lemma_digits_of_wf(parts.last() as nat);
        lemma_split_dots_no_dots(d);
        lemma_seg_val_digits_of(parts.last() as nat);
        lemma_split_dots_join(x, d);
        assert(split_dots(version_string_of(parts)) =~= split_dots(x) + seq![d]);
        assert forall|i: int|
            0 <= i < split_dots(version_string_of(parts)).len() implies (#[trigger] split_dots(
            version_string_of(parts),
        )[i]).len() > 0 && all_digits(split_dots(version_string_of(parts))[i]) && seg_val(
            split_dots(version_string_of(parts))[i],
        ) <= u64::MAX by {
            if i < split_dots(x).len() {
                assert(split_dots(version_string_of(parts))[i] == split_dots(x)[i]);
            } else {
                assert(split_dots(version_string_of(parts))[i] == d);
            }
        }
        assert forall|i: int| 0 <= i < parts.len() implies version_of(version_string_of(parts))[i]
            == parts[i] by {
            if i < parts.len() - 1 {
                assert(split_dots(version_string_of(parts))[i] == split_dots(x)[i]);
                assert(version_of(x)[i] == front[i]);
            } else {
                assert(split_dots(version_string_of(parts))[i] == d);
            }
        }
        assert(version_of(version_string_of(parts)) =~= parts);
    }
}

/// Comparison finds equality exactly on equal part sequences.
pub proof fn lemma_cmp_equal_iff(a: Seq<u64>, b: Seq<u64>)
    ensures
        (version_cmp(a, b) == Ordering::Equal) <==> (a == b),
    decreases a.len(),
{
    if a.len() > 0 && b.len() > 0 && a[0] == b[0] {
        lemma_cmp_equal_iff(a.drop_first(), b.drop_first());
        if version_cmp(a, b) == Ordering::Equal {
            assert(a.len() == b.len());
            assert forall|i: int| 0 <= i < a.len() implies a[i] == b[i] by {
                if i > 0 {
                    assert(a.drop_first()[i - 1] == b.drop_first()[i - 1]);
                }
            }
            assert(a =~= b);
        } else {
            if a == b {
                assert(a.drop_first() =~= b.drop_first());
            }
        }
    } else {
        if a.len() == 0 && b.len() == 0 {
            assert(a =~= b);
        } else if version_cmp(a, b) == Ordering::Equal {
        } else if a == b {
        }
    }
}

/// Swapping the arguments flips the comparison.
pub proof fn lemma_cmp_flip(a: Seq<u64>, b: Seq<u64>)
    ensures
        (version_cmp(a, b) == Ordering::Less) <==> (version_cmp(b, a) == Ordering::Greater),
        (version_cmp(a, b) == Ordering::Equal) <==> (version_cmp(b, a) == Ordering::Equal),
    decreases a.len(),
{
    if a.len() > 0 && b.len() > 0 && a[0] == b[0] {
        lemma_cmp_flip(a.drop_first(), b.drop_first());
    }
}

/// The version order is transitive.
pub proof fn lemma_order_transitive(a: Seq<u64>, b: Seq<u64>, c: Seq<u64>)
    requires
        version_le(a, b),
        version_le(b, c),
    ensures
        version_le(a, c),
    decreases a.len(),
{
    if a.len() > 0 && b.len() > 0 && c.len() > 0 {
        if a[0] == b[0] && b[0] == c[0] {
            lemma_order_transitive(a.drop_first(), b.drop_first(), c.drop_first());
        }
    }
}

/// The version order is antisymmetric: mutual ordering means equality.
pub proof fn lemma_order_antisymmetric(a: Seq<u64>, b: Seq<u64>)
    requires
        version_le(a, b),
        version_le(b, a),
    ensures
        a == b,
{
    lemma_cmp_flip(a, b);
    lemma_cmp_equal_iff(a, b);
}

/// The version order is total.
pub proof fn lemma_order_total(a: Seq<u64>, b: Seq<u64>)
    ensures
        version_le(a, b) || version_le(b, a),
{
    lemma_cmp_flip(a, b);
}

/// Strict precedence composes with the order.
pub proof fn lemma_le_lt_transitive(a: Seq<u64>, b: Seq<u64>, c: Seq<u64>)
    requires
        version_le(a, b),
        version_lt(b, c),
    ensures
        version_lt(a, c),
{
    lemma_order_transitive(a, b, c);
    lemma_cmp_flip(a, c);
    lemma_cmp_equal_iff(a, c);
    if version_cmp(a, c) == Ordering::Equal {
        lemma_cmp_flip(b, c);
        lemma_order_antisymmetric(a, b);
    }
}

} // verus!
