use vstd::prelude::*;

use crate::ratio::Ratio;
use crate::structure::{Circuit, Element};

verus! {

/// The groups of the leftmost match of regular expression `pattern` in
/// `line`, as the regex crate finds them (`None` when nothing matches or the
/// pattern is invalid); group 0 is the whole match.
pub uninterp spec fn pattern_captures(pattern: Seq<char>, line: Seq<char>) -> Option<
    Seq<Option<Seq<char>>>,
>;

/// The contents of capture groups.
pub open spec fn groups_view(g: Seq<Option<String>>) -> Seq<Option<Seq<char>>> {
    g.map_values(
        |o: Option<String>|
            match o {
                Some(t) => Some(t@),
                None => None,
            },
    )
}

/// Relies on regex::Regex::new and regex::Regex::captures: the capture groups
/// of the leftmost match, which depend on the pattern and the line alone.
#[verifier::external_body]
fn capture_groups(pattern: &str, line: &str) -> (r: Option<Vec<Option<String>>>)
    ensures
        match r {
            Some(g) => pattern_captures(pattern@, line@) == Some(groups_view(g@)),
            None => pattern_captures(pattern@, line@) is None,
        },
{
    let re = regex::Regex::new(pattern).ok()?;
    re.captures(line).map(|caps| caps.iter().map(|m| m.map(|m| m.as_str().to_string())).collect())
}

/// How many characters of `s` lie between `lo` and `hi`.
pub open spec fn count_in(s: Seq<char>, lo: char, hi: char) -> nat
    decreases s.len(),
{
    if s.len() == 0 {
        0
    } else {
        count_in(s.drop_last(), lo, hi) + if lo <= s.last() && s.last() <= hi {
            1nat
        } else {
            0nat
        }
    }
}

proof fn lemma_count_mono(s: Seq<char>, lo: char, hi: char, i: int, j: int)
    requires
        0 <= i <= j <= s.len(),
    ensures
        count_in(s.take(i), lo, hi) <= count_in(s.take(j), lo, hi),
    decreases j - i,
{
    if i < j {
        assert(s.take(j).drop_last() =~= s.take(j - 1));
        lemma_count_mono(s, lo, hi, i, j - 1);
    }
}

pub open spec fn pow10(n: nat) -> int
    decreases n,
{
    if n == 0 {
        1
    } else {
        10 * pow10((n - 1) as nat)
    }
}

proof fn lemma_pow10_mono(a: nat, b: nat)
    requires
        a <= b,
    ensures
        1 <= pow10(a) <= pow10(b),
    decreases b,
{
    if b > 0 {
        if a < b {
            lemma_pow10_mono(a, (b - 1) as nat);
        } else {
            lemma_pow10_mono((a - 1) as nat, (b - 1) as nat);
        }
    }
}

/// The digits of `s` read as one decimal integer, ignoring a decimal point.
pub open spec fn dec_num(s: Seq<char>) -> int
    decreases s.len(),
{
    if s.len() == 0 {
        0
    } else if s.last() == '.' {
        dec_num(s.drop_last())
    } else {
        dec_num(s.drop_last()) * 10 + (s.last() as int - '0' as int)
    }
}

/// The number of characters after the decimal point (0 without one).
pub open spec fn frac_len(s: Seq<char>) -> nat
    decreases s.len(),
{
    if s.len() == 0 {
        0
    } else if s.last() == '.' {
        0
    } else if count_in(s.drop_last(), '.', '.') > 0 {
        frac_len(s.drop_last()) + 1
    } else {
        0
    }
}

/// Digits with at most one decimal point and at least one digit.
pub open spec fn is_decimal(s: Seq<char>) -> bool {
    &&& forall|i: int| 0 <= i < s.len() ==> ('0' <= #[trigger] s[i] && s[i] <= '9') || s[i] == '.'
    &&& count_in(s, '.', '.') <= 1
    &&& count_in(s, '0', '9') >= 1
}

/// The value of a decimal of at most 18 digits, as `digits / 10^fraction`.
pub open spec fn spec_parse_decimal(s: Seq<char>) -> Option<Ratio> {
    if is_decimal(s) && count_in(s, '0', '9') <= 18 {
        Some(Ratio { num: dec_num(s) as i64, den: pow10(frac_len(s)) as i64 })
    } else {
        None
    }
}

/// A nonempty run of decimal digits.
pub open spec fn is_number(s: Seq<char>) -> bool {
    &&& 1 <= s.len()
    &&& forall|i: int| 0 <= i < s.len() ==> '0' <= #[trigger] s[i] && s[i] <= '9'
}

/// The value of a run of digits that fits an `i32`.
pub open spec fn spec_parse_int(s: Seq<char>) -> Option<i32> {
    if is_number(s) && dec_num(s) <= i32::MAX {
        Some(dec_num(s) as i32)
    } else {
        None
    }
}

proof fn lemma_dec_mono(s: Seq<char>, i: int, j: int)
    requires
        0 <= i <= j <= s.len(),
        forall|k: int| 0 <= k < s.len() ==> '0' <= #[trigger] s[k] && s[k] <= '9',
    ensures
        0 <= dec_num(s.take(i)) <= dec_num(s.take(j)),
    decreases j,
{
    if j > 0 {
        assert(s.take(j).drop_last() =~= s.take(j - 1));
        assert(s.take(j).last() == s[j - 1]);
        if i < j {
            lemma_dec_mono(s, i, j - 1);
        } else {
            lemma_dec_mono(s, j - 1, j - 1);
        }
    }
}

/// Reads a decimal such as `4.7`, `.5` or `10` exactly.
pub fn parse_decimal(s: &str) -> (r: Option<Ratio>)
    ensures
        r == spec_parse_decimal(s@),
        r matches Some(v) ==> v.wf(),
{
    let n = s.unicode_len();
    let mut num: i64 = 0;
    let mut den: i64 = 1;
    let mut dots: usize = 0;
    let mut digits: usize = 0;
    let mut i: usize = 0;
    proof {
        reveal_with_fuel(pow10, 19);
        assert(pow10(18) == 1000000000000000000);
    }
    while i < n
        invariant
            n == s@.len(),
            0 <= i <= n,
            pow10(18) == 1000000000000000000,
            forall|k: int|
                0 <= k < i ==> ('0' <= #[trigger] s@[k] && s@[k] <= '9') || s@[k] == '.',
            dots == count_in(s@.take(i as int), '.', '.'),
            digits == count_in(s@.take(i as int), '0', '9'),
            dots <= 1,
            digits <= 18,
            num == dec_num(s@.take(i as int)),
            0 <= num < pow10(digits as nat),
            den == pow10(frac_len(s@.take(i as int))),
            frac_len(s@.take(i as int)) <= digits,
            dots == 0 ==> frac_len(s@.take(i as int)) == 0,
        decreases n - i,
    {
        let c = s.get_char(i);
        let ghost pre = s@.take(i as int);
        let ghost cur = s@.take(i + 1);
        proof {
            assert(cur.drop_last() =~= pre);
            assert(cur.last() == c);
            lemma_pow10_mono(digits as nat, 18);
            lemma_pow10_mono(frac_len(pre), digits as nat);
        }
        if '0' <= c && c <= '9' {
            if digits == 18 {
                proof {
                    lemma_count_mono(s@, '0', '9', i + 1, n as int);
                    assert(s@.take(n as int) =~= s@);
                }
                return None;
            }
            proof {
                lemma_pow10_mono(digits as nat + 1, 18);
                assert(pow10(digits as nat + 1) == 10 * pow10(digits as nat));
            }
            num = num * 10 + (c as i64 - '0' as i64);
            if dots == 1 {
                den = den * 10;
            }
            digits = digits + 1;
        } else if c == '.' {
            if dots == 1 {
                proof {
                    lemma_count_mono(s@, '.', '.', i + 1, n as int);
                    assert(s@.take(n as int) =~= s@);
                }
                return None;
            }
            dots = 1;
        } else {
            proof {
                assert(s@.take(n as int) =~= s@);
                assert(s@[i as int] == c);
            }
            return None;
        }
        i += 1;
    }
    proof {
        assert(s@.take(n as int) =~= s@);
    }
    if digits == 0 {
        return None;
    }
    Some(Ratio { num, den })
}

/// Reads a run of decimal digits whose value fits an `i32`.
pub fn parse_int(s: &str) -> (r: Option<i32>)
    ensures
        r == spec_parse_int(s@),
{
    let n = s.unicode_len();
    if n == 0 {
        return None;
    }
    let mut v: i64 = 0;
    let mut i: usize = 0;
    while i < n
        invariant
            n == s@.len(),
            1 <= n,
            0 <= i <= n,
            forall|k: int| 0 <= k < i ==> '0' <= #[trigger] s@[k] && s@[k] <= '9',
            v == dec_num(s@.take(i as int)),
            0 <= v <= i32::MAX,
        decreases n - i,
    {
        let c = s.get_char(i);
        proof {
            assert(s@.take(i + 1).drop_last() =~= s@.take(i as int));
            assert(s@.take(i + 1).last() == c);
        }
        if '0' <= c && c <= '9' {
            v = v * 10 + (c as i64 - '0' as i64);
            if v > i32::MAX as i64 {
                proof {
                    if is_number(s@) {
                        lemma_dec_mono(s@, i + 1, n as int);
                        assert(s@.take(n as int) =~= s@);
                    }
                }
                return None;
            }
        } else {
            proof {
                assert(s@[i as int] == c);
            }
            return None;
        }
        i += 1;
    }
    proof {
        assert(s@.take(n as int) =~= s@);
    }
    Some(v as i32)
}

/// The element of kind letter `t` (`R`, `C` or `V`) and value `v`; a
/// capacitor of zero capacitance is refused.
pub open spec fn spec_element_of(t: Seq<char>, v: Ratio) -> Option<Element> {
    if t == seq!['R'] {
        Some(Element::R(v))
    } else if t == seq!['C'] && v.num != 0 {
        Some(Element::C(v))
    } else if t == seq!['V'] {
        Some(Element::V(v))
    } else {
        None
    }
}

/// The record that the capture groups of one line describe: group 1 is the
/// kind letter, 2 the label, 3 the value, 4 and 5 the two nodes (from 1 up).
pub open spec fn spec_record(g: Seq<Option<Seq<char>>>) -> Option<(Element, (i32, i32), i32)> {
    if g.len() < 6 {
        None
    } else {
        match (g[1], g[2], g[3], g[4], g[5]) {
            (Some(t), Some(i), Some(v), Some(a), Some(b)) => {
                match (
                    spec_parse_int(i),
                    spec_parse_decimal(v),
                    spec_parse_int(a),
                    spec_parse_int(b),
                ) {
                    (Some(idx), Some(val), Some(x), Some(y)) => {
                        if x >= 1 && y >= 1 {
                            match spec_element_of(t, val) {
                                Some(e) => Some((e, (x, y), idx)),
                                None => None,
                            }
                        } else {
                            None
                        }
                    },
                    _ => None,
                }
            },
            _ => None,
        }
    }
}

fn is_single(t: &str, c: char) -> (r: bool)
    ensures
        r == (t@ == seq![c]),
{
    if t.unicode_len() == 1 {
        let d = t.get_char(0);
        proof {
            if d == c {
                assert(t@ =~= seq![c]);
            }
        }
        d == c
    } else {
        false
    }
}

/// Decodes the capture groups of one line into an element, its two nodes and its label.
pub fn element_from_fields(groups: &Vec<Option<String>>) -> (r: Option<(Element, (i32, i32), i32)>)
    ensures
        r == spec_record(groups_view(groups@)),
        r matches Some(x) ==> x.0.wf(),
{
    let ghost gv = groups_view(groups@);
    if groups.len() < 6 {
        return None;
    }
    proof {
        assert(gv[1] == match groups@[1] { Some(t) => Some(t@), None => None });
        assert(gv[2] == match groups@[2] { Some(t) => Some(t@), None => None });
        assert(gv[3] == match groups@[3] { Some(t) => Some(t@), None => None });
        assert(gv[4] == match groups@[4] { Some(t) => Some(t@), None => None });
        assert(gv[5] == match groups@[5] { Some(t) => Some(t@), None => None });
    }
    let (t, i, v, a, b) = match (&groups[1], &groups[2], &groups[3], &groups[4], &groups[5]) {
        (Some(t), Some(i), Some(v), Some(a), Some(b)) => (t, i, v, a, b),
        _ => {
            return None;
        },
    };
    let idx = match parse_int(i.as_str()) {
        Some(x) => x,
        None => {
            return None;
        },
    };
    let val = match parse_decimal(v.as_str()) {
        Some(x) => x,
        None => {
            return None;
        },
    };
    let x = match parse_int(a.as_str()) {
        Some(x) => x,
        None => {
            return None;
        },
    };
    let y = match parse_int(b.as_str()) {
        Some(x) => x,
        None => {
            return None;
        },
    };
    if x < 1 || y < 1 {
        return None;
    }
    let t = t.as_str();
    let e = if is_single(t, 'R') {
        Element::R(val)
    } else if is_single(t, 'C') && val.num != 0 {
        Element::C(val)
    } else if is_single(t, 'V') {
        Element::V(val)
    } else {
        return None;
    };
    Some((e, (x, y), idx))
}

/// The lines of `s`: its pieces between newline characters.
pub open spec fn lines(s: Seq<char>) -> Seq<Seq<char>>
    decreases s.len(),
{
    if s.len() == 0 {
        seq![Seq::empty()]
    } else if s.last() == '\n' {
        lines(s.drop_last()).push(Seq::empty())
    } else {
        let l = lines(s.drop_last());
        l.update(l.len() - 1, l.last().push(s.last()))
    }
}

proof fn lemma_lines_nonempty(s: Seq<char>)
    ensures
        lines(s).len() >= 1,
    decreases s.len(),
{
    if s.len() > 0 {
        lemma_lines_nonempty(s.drop_last());
    }
}

/// The pattern of one line: kind letter, label, value in parentheses, then
/// the two nodes.
pub open spec fn element_pattern() -> Seq<char> {
    "(?P<type>[A-Z]*)(?P<index>[0-9.]*)\\((?P<value>[0-9.]*)\\) : (?P<connection_index_1>[0-9]*),(?P<connection_index_2>[0-9]*)"@
}

fn element_pattern_str() -> (r: &'static str)
    ensures
        r@ == element_pattern(),
{
    "(?P<type>[A-Z]*)(?P<index>[0-9.]*)\\((?P<value>[0-9.]*)\\) : (?P<connection_index_1>[0-9]*),(?P<connection_index_2>[0-9]*)"
}

/// The record that one line describes, if it matches and decodes.
pub open spec fn line_record(line: Seq<char>) -> Option<(Element, (i32, i32), i32)> {
    match pattern_captures(element_pattern(), line) {
        Some(g) => spec_record(g),
        None => None,
    }
}

/// Splits `s` at its newline characters.
fn split_lines(s: &str) -> (r: Vec<&str>)
    ensures
        r@.map_values(|l: &str| l@) == lines(s@),
{
    let n = s.unicode_len();
    let mut r: Vec<&str> = Vec::new();
    let mut start: usize = 0;
    let mut i: usize = 0;
    proof {
        assert(s@.take(0) =~= Seq::<char>::empty());
        assert(r@.map_values(|l: &str| l@).push(s@.subrange(0, 0)) =~= seq![Seq::<char>::empty()]);
    }
    while i < n
        invariant
            n == s@.len(),
            0 <= start <= i <= n,
            lines(s@.take(i as int)) == r@.map_values(|l: &str| l@).push(s@.subrange(start as int, i as int)),
        decreases n - i,
    {
        let c = s.get_char(i);
        proof {
            assert(s@.take(i + 1).drop_last() =~= s@.take(i as int));
            assert(s@.take(i + 1).last() == c);
        }
        if c == '\n' {
            let ghost before = r@.map_values(|l: &str| l@);
            let line = s.substring_char(start, i);
            r.push(line);
            proof {
                assert(r@.map_values(|l: &str| l@) =~= before.push(line@));
                assert(s@.subrange(i + 1, i + 1) =~= Seq::<char>::empty());
            }
            start = i + 1;
        } else {
            proof {
                let l = lines(s@.take(i as int));
                let rv = r@.map_values(|l: &str| l@);
                assert(l.len() == rv.len() + 1);
                assert(l.last() == s@.subrange(start as int, i as int));
                assert(s@.subrange(start as int, i as int).push(c) =~= s@.subrange(start as int, i + 1));
                assert(l.update(l.len() - 1, l.last().push(c)) =~= r@.map_values(|l: &str| l@).push(
                    s@.subrange(start as int, i + 1),
                ));
            }
        }
        i += 1;
    }
    let ghost before = r@.map_values(|l: &str| l@);
    let line = s.substring_char(start, n);
    r.push(line);
    proof {
        assert(s@.take(n as int) =~= s@);
        assert(r@.map_values(|l: &str| l@) =~= before.push(line@));
    }
    r
}

/// Reads a circuit, one element per line, each line as
/// `<kind><label>(<value>) : <from>,<to>`. It succeeds exactly when every
/// line matches and decodes; element `k` is then the record of line `k`.
pub fn get_circuit(input_string: String) -> (r: Option<Circuit>)
    requires
        2 * (input_string@.len() + 1) <= usize::MAX,
    ensures
        r is Some <==> forall|k: int|
            0 <= k < lines(input_string@).len() ==> (#[trigger] line_record(
                lines(input_string@)[k],
            )) is Some,
        r matches Some(c) ==> {
            &&& c.wf()
            &&& c.elements@.len() == lines(input_string@).len()
            &&& forall|k: int|
                0 <= k < c.elements@.len() ==> #[trigger] line_record(lines(input_string@)[k])
                    == Some((c.elements@[k], c.connections@[k], c.labels@[k]))
        },
{
    let pattern = element_pattern_str();
    let s = input_string.as_str();
    let parts = split_lines(s);
    let ghost ls = lines(s@);
    proof {
        assert(parts@.len() == ls.len());
        lemma_lines_count(s@);
    }
    let n = parts.len();
    let mut elements: Vec<Element> = Vec::new();
    let mut connections: Vec<(i32, i32)> = Vec::new();
    let mut labels: Vec<i32> = Vec::new();
    let mut k: usize = 0;
    while k < n
        invariant
            n == ls.len(),
            ls == lines(input_string@),
            parts@.map_values(|l: &str| l@) == ls,
            pattern@ == element_pattern(),
            n <= s@.len() + 1,
            s@ == input_string@,
            2 * (s@.len() + 1) <= usize::MAX,
            0 <= k <= n,
            elements@.len() == k,
            connections@.len() == k,
            labels@.len() == k,
            forall|j: int| 0 <= j < k ==> #[trigger] elements@[j].wf(),
            forall|j: int|
                0 <= j < k ==> 1 <= (#[trigger] connections@[j]).0 && 1 <= connections@[j].1,
            forall|j: int|
                0 <= j < k ==> #[trigger] line_record(ls[j]) == Some(
                    (elements@[j], connections@[j], labels@[j]),
                ),
        decreases n - k,
    {
        let line = parts[k];
        proof {
            assert(line@ == ls[k as int]);
        }
        let groups = match capture_groups(pattern, line) {
            Some(g) => g,
            None => {
                proof {
                    assert(line_record(ls[k as int]) is None);
                }
                return None;
            },
        };
        let (e, c, l) = match element_from_fields(&groups) {
            Some(x) => x,
            None => {
                proof {
                    assert(line_record(ls[k as int]) is None);
                }
                return None;
            },
        };
        elements.push(e);
        connections.push(c);
        labels.push(l);
        proof {
            assert(line_record(ls[k as int]) == Some((e, c, l)));
        }
        k += 1;
    }
    Some(Circuit { elements, connections, labels })
}

proof fn lemma_lines_count(s: Seq<char>)
    ensures
        lines(s).len() <= s.len() + 1,
    decreases s.len(),
{
    if s.len() > 0 {
        lemma_lines_count(s.drop_last());
        lemma_lines_nonempty(s.drop_last());
        let l = lines(s.drop_last());
        if s.last() != '\n' {
            assert(l.update(l.len() - 1, l.last().push(s.last())).len() == l.len());
        }
    }
}

} // verus!
