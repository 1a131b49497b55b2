//! The fixation-list record format: comma-separated integer pairs.
//!
//! A fixation file is line based: the first line is a header and is
//! unconditionally discarded; every other line should hold two integer
//! fields separated by one comma, surrounding whitespace ignored. A
//! line that does not parse into exactly two integer fields is silently
//! skipped — bad records are dropped, processing goes on.
//!
//! The records are treated as bytes, so only ASCII whitespace counts as
//! trimmable padding: a record padded with other Unicode spacing (say a
//! no-break space) is malformed here and skipped like any other bad
//! line.

use vstd::prelude::*;

use crate::raster::FixationPoint;

verus! {

/// ASCII whitespace, as trimmed from a record's ends; non-ASCII
/// spacing is never trimmed and makes its field malformed.
pub open spec fn is_ws(c: u8) -> bool {
    c == 32 || 9 <= c <= 13
}

/// An ASCII decimal digit.
pub open spec fn is_digit(c: u8) -> bool {
    48 <= c <= 57
}

/// The record with its leading whitespace removed.
pub open spec fn trim_front(s: Seq<u8>) -> Seq<u8>
    decreases s.len(),
{
    if s.len() > 0 && is_ws(s[0]) {
        trim_front(s.skip(1))
    } else {
        s
    }
}

/// The record with its trailing whitespace removed.
pub open spec fn trim_back(s: Seq<u8>) -> Seq<u8>
    decreases s.len(),
{
    if s.len() > 0 && is_ws(s.last()) {
        trim_back(s.drop_last())
    } else {
        s
    }
}

/// How many commas the record holds.
pub open spec fn comma_count(s: Seq<u8>) -> nat
    decreases s.len(),
{
    if s.len() == 0 {
        0
    } else {
        comma_count(s.drop_last()) + if s.last() == 44 {
            1nat
        } else {
            0nat
        }
    }
}

/// Index of the record's first comma (the record's length if none).
pub open spec fn first_comma(s: Seq<u8>) -> int
    decreases s.len(),
{
    if s.len() == 0 {
        0
    } else if s[0] == 44 {
        0
    } else {
        1 + first_comma(s.skip(1))
    }
}

/// Value of an all-digit run, most significant digit first.
pub open spec fn digits_val(s: Seq<u8>) -> int
    decreases s.len(),
{
    if s.len() == 0 {
        0
    } else {
        digits_val(s.drop_last()) * 10 + (s.last() - 48)
    }
}

/// Every byte of the run is a digit.
pub open spec fn all_digits(s: Seq<u8>) -> bool {
    forall|i: int| 0 <= i < s.len() ==> is_digit(#[trigger] s[i])
}

/// The field holds one integer in 32-bit signed range: an optional
/// sign, then at least one digit, nothing else.
pub open spec fn int_field_valid(s: Seq<u8>) -> bool {
    if s.len() == 0 {
        false
    } else if s[0] == 43 || s[0] == 45 {
        s.len() > 1 && all_digits(s.skip(1)) && (if s[0] == 45 {
            digits_val(s.skip(1)) <= 2147483648
        } else {
            digits_val(s.skip(1)) <= 2147483647
        })
    } else {
        all_digits(s) && digits_val(s) <= 2147483647
    }
}

/// The integer the field holds.
pub open spec fn int_field_val(s: Seq<u8>) -> int {
    if s.len() > 0 && s[0] == 45 {
        -digits_val(s.skip(1))
    } else if s.len() > 0 && s[0] == 43 {
        digits_val(s.skip(1))
    } else {
        digits_val(s)
    }
}

/// What one data line yields: the two coordinates of its record, or
/// nothing for a line that is not exactly two integer fields around
/// one comma.
pub open spec fn parse_line_spec(s: Seq<u8>) -> Option<(int, int)> {
    let t = trim_back(trim_front(s));
    if comma_count(t) == 1 {
        let ci = first_comma(t);
        let f1 = t.subrange(0, ci);
        let f2 = t.subrange(ci + 1, t.len() as int);
        if int_field_valid(f1) && int_field_valid(f2) {
            Some((int_field_val(f1), int_field_val(f2)))
        } else {
            None
        }
    } else {
        None
    }
}

/// A digit run's value never shrinks as digits are appended.
proof fn lemma_digits_val_nonneg(s: Seq<u8>)
    requires
        all_digits(s),
    ensures
        digits_val(s) >= 0,
    decreases s.len(),
{
    if s.len() > 0 {
        assert(all_digits(s.drop_last()));
        lemma_digits_val_nonneg(s.drop_last());
    }
}

/// Skipping leading whitespace computes `trim_front`.
proof fn lemma_trim_front_skip(s: Seq<u8>, a: int)
    requires
        0 <= a <= s.len(),
        forall|j: int| 0 <= j < a ==> is_ws(#[trigger] s[j]),
        a < s.len() ==> !is_ws(s[a]),
    ensures
        trim_front(s) == s.skip(a),
    decreases a,
{
    if a == 0 {
        assert(s.skip(0) =~= s);
    } else {
        assert(is_ws(s[0]));
        lemma_trim_front_skip(s.skip(1), a - 1);
        assert(s.skip(1).skip(a - 1) =~= s.skip(a));
    }
}

/// Truncating trailing whitespace computes `trim_back`.
proof fn lemma_trim_back_take(s: Seq<u8>, b: int)
    requires
        0 <= b <= s.len(),
        forall|j: int| b <= j < s.len() ==> is_ws(#[trigger] s[j]),
        b > 0 ==> !is_ws(s[b - 1]),
    ensures
        trim_back(s) == s.take(b),
    decreases s.len(),
{
    if b == s.len() {
        if s.len() > 0 && is_ws(s.last()) {
            lemma_trim_back_take(s.drop_last(), b - 1);
            assert(s.drop_last() =~= s.take(b - 1));
            assert(trim_back(s) == trim_back(s.drop_last()));
            assert(s.take(b - 1) =~= s.drop_last().take(b - 1));
        } else {
            assert(s.take(b) =~= s);
        }
    } else {
        assert(is_ws(s.last()));
        lemma_trim_back_take(s.drop_last(), b);
        assert(s.drop_last().take(b) =~= s.take(b));
    }
}

/// A comma at `i` behind none other is the record's first comma.
proof fn lemma_first_comma_at(s: Seq<u8>, i: int)
    requires
        0 <= i <= s.len(),
        forall|j: int| 0 <= j < i ==> #[trigger] s[j] != 44,
        i < s.len() ==> s[i] == 44,
    ensures
        first_comma(s) == i,
    decreases i,
{
    if s.len() > 0 && s[0] != 44 {
        lemma_first_comma_at(s.skip(1), i - 1);
    }
}

/// Counting commas from the front agrees with the recursive count.
proof fn lemma_comma_count_take(s: Seq<u8>, i: int)
    requires
        0 <= i < s.len(),
    ensures
        comma_count(s.take(i + 1)) == comma_count(s.take(i)) + if s[i] == 44 {
            1int
        } else {
            0int
        },
{
    assert(s.take(i + 1).drop_last() =~= s.take(i));
}

/// Decide whether a byte is record-edge whitespace.
fn is_ws_byte(c: u8) -> (r: bool)
    ensures
        r == is_ws(c),
{
    c == 32 || (9 <= c && c <= 13)
}

/// Parse one field of the record as a 32-bit integer.
#[verifier::loop_isolation(false)]
fn parse_int_field(t: &Vec<u8>, from: usize, to: usize) -> (r: Option<i32>)
    requires
        from <= to <= t@.len(),
    ensures
        int_field_valid(t@.subrange(from as int, to as int)) <==> r is Some,
        r matches Some(v) ==> v == int_field_val(t@.subrange(from as int, to as int)),
{
    let ghost f = t@.subrange(from as int, to as int);
    if from == to {
        return None;
    }
    let first = t[from];
    let neg = first == 45;
    let ds: usize = if first == 43 || first == 45 {
        from + 1
    } else {
        from
    };
    let ghost dseq = t@.subrange(ds as int, to as int);
    proof {
        if first == 43 || first == 45 {
            assert(dseq =~= f.skip(1));
        } else {
            assert(dseq =~= f);
        }
    }
    if ds == to {
        // a bare sign has no digits
        assert(!int_field_valid(f));
        return None;
    }
    let mut acc: u64 = 0;
    let mut big = false;
    let mut i: usize = ds;
    while i < to
        invariant
            ds <= i <= to,
            forall|j: int| 0 <= j < i - ds ==> is_digit(#[trigger] dseq[j]),
            all_digits(dseq.take(i - ds)),
            !big ==> acc == digits_val(dseq.take(i - ds)) && acc < 4294967296,
            big ==> digits_val(dseq.take(i - ds)) >= 4294967296,
        decreases to - i,
    {
        let c = t[i];
        if c < 48 || c > 57 {
            proof {
                assert(dseq[i - ds] == c);
                assert(!is_digit(dseq[i - ds]));
            }
            return None;
        }
        proof {
            assert(dseq[i - ds] == c);
            assert(dseq.take(i - ds + 1).drop_last() =~= dseq.take(i - ds));
            assert(all_digits(dseq.take(i - ds)));
            lemma_digits_val_nonneg(dseq.take(i - ds));
        }
        if big {
            proof {
                assert(digits_val(dseq.take(i - ds + 1)) == digits_val(dseq.take(i - ds)) * 10 + (c
                    - 48));
            }
        } else {
            acc = acc * 10 + ((c - 48) as u64);
            if acc >= 4294967296 {
                big = true;
            }
        }
        i = i + 1;
    }
    proof {
        assert(dseq.take(to - ds) =~= dseq);
    }
    if big {
        assert(!int_field_valid(f));
        return None;
    }
    if neg {
        if acc > 2147483648 {
            assert(!int_field_valid(f));
            return None;
        }
        let v: i32 = (0 - (acc as i64)) as i32;
        assert(int_field_valid(f));
        Some(v)
    } else {
        if acc > 2147483647 {
            assert(!int_field_valid(f));
            return None;
        }
        assert(int_field_valid(f));
        Some(acc as i32)
    }
}

/// Parse one data line into a fixation point; a malformed line yields
/// nothing and is the caller's cue to skip it.
#[verifier::loop_isolation(false)]
pub fn parse_fixation_line(line: &Vec<u8>) -> (r: Option<FixationPoint>)
    ensures
        parse_line_spec(line@) is Some <==> r is Some,
        r matches Some(pt) ==> parse_line_spec(line@) matches Some(v) && pt.x == v.0 && pt.y
            == v.1,
{
    let n = line.len();
    let mut a: usize = 0;
    while a < n && is_ws_byte(line[a])
        invariant
            a <= n,
            forall|j: int| 0 <= j < a ==> is_ws(#[trigger] line@[j]),
        decreases n - a,
    {
        a = a + 1;
    }
    let mut b: usize = n;
    while b > a && is_ws_byte(line[b - 1])
        invariant
            a <= b <= n,
            forall|j: int| b <= j < n ==> is_ws(#[trigger] line@[j]),
            forall|j: int| 0 <= j < a ==> is_ws(#[trigger] line@[j]),
        decreases b,
    {
        b = b - 1;
    }
    let ghost t = trim_back(trim_front(line@));
    proof {
        lemma_trim_front_skip(line@, a as int);
        if b == a {
            assert(forall|j: int| a <= j < n ==> is_ws(#[trigger] line@[j]));
        }
        lemma_trim_back_take(line@.skip(a as int), b - a);
        assert(t =~= line@.subrange(a as int, b as int));
    }
    // find the single comma
    let mut ci: usize = b;
    let mut extra = false;
    let mut i: usize = a;
    while i < b
        invariant
            a <= i <= b <= n,
            ci <= b,
            t == line@.subrange(a as int, b as int),
            ci == b ==> comma_count(t.take(i - a)) == 0 && (forall|j: int|
                0 <= j < i - a ==> #[trigger] t[j] != 44),
            ci < b ==> a <= ci < i && line@[ci as int] == 44 && (forall|j: int|
                0 <= j < ci - a ==> #[trigger] t[j] != 44) && (!extra ==> comma_count(
                t.take(i - a),
            ) == 1),
            extra ==> comma_count(t.take(i - a)) >= 2,
        decreases b - i,
    {
        let c = line[i];
        proof {
            assert(t[i - a] == line@[i as int]);
            lemma_comma_count_take(t, i - a);
        }
        if c == 44 {
            if ci == b {
                ci = i;
            } else {
                extra = true;
            }
        }
        i = i + 1;
    }
    proof {
        assert(t.take(b - a) =~= t);
    }
    if ci == b || extra {
        proof {
            assert(comma_count(t) != 1);
        }
        return None;
    }
    proof {
        lemma_first_comma_at(t, ci - a);
    }
    let x = parse_int_field(line, a, ci);
    let y = parse_int_field(line, ci + 1, b);
    proof {
        assert(line@.subrange(a as int, ci as int) =~= t.subrange(0, ci - a));
        assert(line@.subrange(ci + 1, b as int) =~= t.subrange(ci - a + 1, t.len() as int));
    }
    match (x, y) {
        (Some(xv), Some(yv)) => Some(FixationPoint { x: xv, y: yv }),
        _ => None,
    }
}

/// The records among the file's first `k` lines, in order; line 0 is
/// the header and never a record, malformed lines contribute nothing.
pub open spec fn parsed_upto(ls: Seq<Seq<u8>>, k: nat) -> Seq<FixationPoint>
    decreases k,
{
    if k <= 1 {
        Seq::empty()
    } else {
        parsed_upto(ls, (k - 1) as nat) + match parse_line_spec(ls[k - 1]) {
            Some(v) => seq![FixationPoint { x: v.0 as i32, y: v.1 as i32 }],
            None => Seq::empty(),
        }
    }
}

/// Turn a fixation file's lines into the ordered fixation list: the
/// header line is discarded, malformed lines are skipped, every valid
/// record is kept in order.
#[verifier::loop_isolation(false)]
pub fn parse_fixation_list(lines: &Vec<Vec<u8>>) -> (pts: Vec<FixationPoint>)
    ensures
        pts@ == parsed_upto(lines@.map_values(|l: Vec<u8>| l@), lines@.len() as nat),
{
    let ghost ls = lines@.map_values(|l: Vec<u8>| l@);
    let mut pts: Vec<FixationPoint> = Vec::new();
    if lines.len() <= 1 {
        return pts;
    }
    let mut i: usize = 1;
    while i < lines.len()
        invariant
            1 <= i <= lines@.len(),
            ls == lines@.map_values(|l: Vec<u8>| l@),
            pts@ == parsed_upto(ls, i as nat),
        decreases lines@.len() - i,
    {
        match parse_fixation_line(&lines[i]) {
            Some(pt) => {
                pts.push(pt);
                proof {
                    let v = parse_line_spec(ls[i as int]).unwrap();
                    assert(pt.x == v.0 && pt.y == v.1);
                    assert(pts@ =~= parsed_upto(ls, (i + 1) as nat));
                }
            },
            None => {
                proof {
                    assert(pts@ =~= parsed_upto(ls, (i + 1) as nat));
                }
            },
        }
        i = i + 1;
    }
    pts
}

} // verus!
