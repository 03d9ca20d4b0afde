//! The line stitcher: recovers a numeric code such as `12/345` that a layout
//! extractor split across two physical text lines, the break falling right
//! after the slash. The first line whose stripped text is two or three ASCII
//! digits plus one trailing slash is paired with the first later line whose
//! stripped text is two or three ASCII digits.

use vstd::prelude::*;

verus! {

/// Unicode whitespace (the `White_Space` property), the characters that
/// `char::is_whitespace` recognises.
pub open spec fn is_space(c: char) -> bool {
    let u = c as u32;
    (0x09 <= u <= 0x0d) || u == 0x20 || u == 0x85 || u == 0xa0 || u == 0x1680 || (0x2000 <= u
        <= 0x200a) || u == 0x2028 || u == 0x2029 || u == 0x202f || u == 0x205f || u == 0x3000
}

/// ASCII digit.
pub open spec fn is_digit(c: char) -> bool {
    0x30 <= c as u32 <= 0x39
}

/// `s` with every whitespace character removed.
pub open spec fn strip_s(s: Seq<char>) -> Seq<char>
    decreases s.len(),
{
    if s.len() == 0 {
        Seq::empty()
    } else {
        let rest = strip_s(s.drop_last());
        if is_space(s.last()) {
            rest
        } else {
            rest.push(s.last())
        }
    }
}

pub open spec fn all_digits(s: Seq<char>) -> bool {
    forall|i: int| 0 <= i < s.len() ==> is_digit(#[trigger] s[i])
}

/// A prefix line: stripped, it is two or three ASCII digits followed by one
/// trailing slash.
pub open spec fn prefix_ok(line: Seq<char>) -> bool {
    let t = strip_s(line);
    3 <= t.len() <= 4 && t.last() == '/' && all_digits(t.drop_last())
}

/// A suffix line: stripped, it is two or three ASCII digits.
pub open spec fn suffix_ok(line: Seq<char>) -> bool {
    let t = strip_s(line);
    2 <= t.len() <= 3 && all_digits(t)
}

/// Index of the first suffix line at or after `j`, or the length if none.
pub open spec fn first_suffix_from(lines: Seq<Seq<char>>, j: int) -> int
    recommends
        0 <= j,
    decreases lines.len() - j,
{
    if j >= lines.len() {
        lines.len() as int
    } else if suffix_ok(lines[j]) {
        j
    } else {
        first_suffix_from(lines, j + 1)
    }
}

/// The scan from line `i` on: the first prefix line followed (anywhere
/// later) by a suffix line wins, joined as `digits '/' digits`.
pub open spec fn stitch_from(lines: Seq<Seq<char>>, i: int) -> Option<Seq<char>>
    recommends
        0 <= i,
    decreases lines.len() - i,
{
    if i >= lines.len() {
        None
    } else if prefix_ok(lines[i]) && first_suffix_from(lines, i + 1) < lines.len() {
        let j = first_suffix_from(lines, i + 1);
        Some(strip_s(lines[i]).drop_last() + seq!['/'] + strip_s(lines[j]))
    } else {
        stitch_from(lines, i + 1)
    }
}

/// What the stitcher returns; fewer than two lines never match.
pub open spec fn spec_stitch(lines: Seq<Seq<char>>) -> Option<Seq<char>> {
    if lines.len() < 2 {
        None
    } else {
        stitch_from(lines, 0)
    }
}

/// The lines as character sequences.
pub open spec fn line_views(lines: Seq<String>) -> Seq<Seq<char>> {
    lines.map(|i: int, s: String| s@)
}

/// Relies on `String::push`: appends the given character to the end of the
/// string.
#[verifier::external_body]
fn push_char(s: &mut String, c: char)
    ensures
        final(s)@ == old(s)@.push(c),
{
    s.push(c);
}

fn is_space_e(c: char) -> (r: bool)
    ensures
        r == is_space(c),
{
    let u = c as u32;
    (0x09 <= u && u <= 0x0d) || u == 0x20 || u == 0x85 || u == 0xa0 || u == 0x1680 || (0x2000 <= u
        && u <= 0x200a) || u == 0x2028 || u == 0x2029 || u == 0x202f || u == 0x205f || u == 0x3000
}

fn is_digit_e(c: char) -> (r: bool)
    ensures
        r == is_digit(c),
{
    let u = c as u32;
    0x30 <= u && u <= 0x39
}

/// Removes every whitespace character of `line`.
fn strip_line(line: &String) -> (r: String)
    ensures
        r@ == strip_s(line@),
{
    let mut out = String::new();
    let n = line.as_str().unicode_len();
    let mut i: usize = 0;
    while i < n
        invariant
            n == line@.len(),
            i <= n,
            out@ == strip_s(line@.take(i as int)),
        decreases n - i,
    {
        proof {
            assert(line@.take(i as int + 1).drop_last() =~= line@.take(i as int));
            assert(line@.take(i as int + 1).last() == line@[i as int]);
        }
        let c = line.as_str().get_char(i);
        if !is_space_e(c) {
            push_char(&mut out, c);
        }
        i += 1;
    }
    proof {
        assert(line@.take(line@.len() as int) =~= line@);
    }
    out
}

/// Checks that `t` consists of ASCII digits only.
fn all_digits_e(t: &String) -> (r: bool)
    ensures
        r == all_digits(t@),
{
    let n = t.as_str().unicode_len();
    let mut i: usize = 0;
    let mut ok = true;
    while i < n
        invariant
            n == t@.len(),
            i <= n,
            ok <==> (forall|k: int| 0 <= k < i ==> is_digit(#[trigger] t@[k])),
        decreases n - i,
    {
        if !is_digit_e(t.as_str().get_char(i)) {
            ok = false;
        }
        i += 1;
    }
    ok
}

/// Checks that all of `t` but its last character consists of ASCII digits.
fn digits_front(t: &String) -> (r: bool)
    requires
        t@.len() >= 1,
    ensures
        r == all_digits(t@.drop_last()),
{
    let n = t.as_str().unicode_len();
    let mut i: usize = 0;
    let mut ok = true;
    while i < n - 1
        invariant
            n == t@.len(),
            1 <= n,
            i <= n - 1,
            ok <==> (forall|k: int| 0 <= k < i ==> is_digit(#[trigger] t@[k])),
        decreases n - 1 - i,
    {
        if !is_digit_e(t.as_str().get_char(i)) {
            ok = false;
        }
        i += 1;
    }
    proof {
        assert(t@.drop_last().len() == n - 1);
        assert(forall|k: int| 0 <= k < n - 1 ==> t@.drop_last()[k] == t@[k]);
    }
    ok
}

proof fn lemma_first_suffix(lines: Seq<Seq<char>>, start: int, j: int)
    requires
        0 <= start <= j < lines.len(),
        suffix_ok(lines[j]),
        forall|k: int| start <= k < j ==> !suffix_ok(#[trigger] lines[k]),
    ensures
        first_suffix_from(lines, start) == j,
    decreases j - start,
{
    if start < j {
        lemma_first_suffix(lines, start + 1, j);
    }
}

proof fn lemma_no_suffix(lines: Seq<Seq<char>>, start: int)
    requires
        0 <= start <= lines.len(),
        forall|k: int| start <= k < lines.len() ==> !suffix_ok(#[trigger] lines[k]),
    ensures
        first_suffix_from(lines, start) == lines.len(),
    decreases lines.len() - start,
{
    if start < lines.len() {
        lemma_no_suffix(lines, start + 1);
    }
}

/// Scans `lines` top to bottom for a split numeric code: the first line
/// whose stripped text is two or three ASCII digits plus one trailing slash,
/// paired with the first later line whose stripped text is two or three
/// ASCII digits, reassembled as `digits '/' digits`. Fewer than two lines,
/// or no such pair, yield `None`.
pub fn stitch_bp(lines: &Vec<String>) -> (r: Option<String>)
    ensures
        match r {
            Some(s) => spec_stitch(line_views(lines@)) == Some(s@),
            None => spec_stitch(line_views(lines@)) is None,
        },
        lines@.len() < 2 ==> r is None,
{
    let ghost lv = line_views(lines@);
    if lines.len() < 2 {
        return None;
    }
    let mut i: usize = 0;
    while i < lines.len()
        invariant
            i <= lines@.len(),
            lv == line_views(lines@),
            lines@.len() >= 2,
            stitch_from(lv, 0) == stitch_from(lv, i as int),
        decreases lines@.len() - i,
    {
        let t = strip_line(&lines[i]);
        proof {
            assert(lv[i as int] == lines@[i as int]@);
        }
        let tn = t.as_str().unicode_len();
        let mut is_pref = false;
        if 3 <= tn && tn <= 4 {
            let lastc = t.as_str().get_char(tn - 1);
            if lastc == '/' {
                proof {
                    assert(t@.last() == lastc);
                }
                if digits_front(&t) {
                    is_pref = true;
                }
            } else {
                proof {
                    assert(t@.last() == lastc);
                }
            }
        }
        proof {
            assert(is_pref == prefix_ok(lv[i as int]));
        }
        if is_pref {
            let mut j: usize = i + 1;
            while j < lines.len()
                invariant
                    i as int + 1 <= j as int <= lines@.len(),
                    i < lines@.len(),
                    lv == line_views(lines@),
                    t@ == strip_s(lv[i as int]),
                    tn == t@.len(),
                    3 <= tn <= 4,
                    prefix_ok(lv[i as int]),
                    lines@.len() >= 2,
                    stitch_from(lv, 0) == stitch_from(lv, i as int),
                    forall|k: int| i + 1 <= k < j ==> !suffix_ok(#[trigger] lv[k]),
                decreases lines@.len() - j,
            {
                let u = strip_line(&lines[j]);
                proof {
                    assert(lv[j as int] == lines@[j as int]@);
                }
                let un = u.as_str().unicode_len();
                if 2 <= un && un <= 3 && all_digits_e(&u) {
                    proof {
                        lemma_first_suffix(lv, i as int + 1, j as int);
                    }
                    // reassemble: prefix digits, slash, suffix digits
                    let mut out = String::new();
                    let mut p: usize = 0;
                    while p < tn - 1
                        invariant
                            tn == t@.len(),
                            3 <= tn,
                            p <= tn - 1,
                            out@ == t@.take(p as int),
                        decreases tn - 1 - p,
                    {
                        let c = t.as_str().get_char(p);
                        push_char(&mut out, c);
                        proof {
                            assert(out@ =~= t@.take(p as int + 1));
                        }
                        p += 1;
                    }
                    push_char(&mut out, '/');
                    out.append(u.as_str());
                    proof {
                        assert(t@.take(tn as int - 1) =~= t@.drop_last());
                        assert(out@ =~= strip_s(lv[i as int]).drop_last() + seq!['/'] + strip_s(
                            lv[j as int],
                        ));
                        assert(stitch_from(lv, i as int) == Some(out@));
                    }
                    return Some(out);
                }
                j += 1;
            }
            // a prefix line with no later suffix line: keep scanning
            proof {
                lemma_no_suffix(lv, i as int + 1);
                assert(stitch_from(lv, i as int) == stitch_from(lv, i as int + 1));
            }
        } else {
            proof {
                assert(stitch_from(lv, i as int) == stitch_from(lv, i as int + 1));
            }
        }
        i += 1;
    }
    proof {
        assert(stitch_from(lv, lines@.len() as int) is None);
    }
    None
}

/// The stitcher is a pure function: equal inputs give equal outputs.
pub proof fn lemma_stitcher_deterministic(
    lines: Seq<Seq<char>>,
    r1: Option<Seq<char>>,
    r2: Option<Seq<char>>,
)
    requires
        r1 == spec_stitch(lines),
        r2 == spec_stitch(lines),
    ensures
        r1 == r2,
{
}

} // verus!
