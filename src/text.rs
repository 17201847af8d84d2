//! Text helpers of the file tools: name patterns, log timestamps, indexed
//! file names, and number formatting.
use vstd::prelude::*;
use crate::cache::key_views;

verus! {

/// The characters of `s`, in order.
pub fn chars_of(s: &str) -> (r: Vec<char>)
    ensures
        r@ == s@,
{
    let mut out: Vec<char> = Vec::new();
    for c in it: s.chars()
        invariant
            it.seq() == s@,
            out@ == it.seq().take(it.index() as int),
    {
        out.push(c);
    }
    out
}

/// Relies on `String::push`: appends one character at the end.
#[verifier::external_body]
pub(crate) fn push_char(s: &mut String, c: char)
    ensures
        final(s)@ == old(s)@.push(c),
{
    s.push(c)
}

// ---------------------------------------------------------------- patterns

/// `p` is a prefix of `v`.
pub open spec fn is_prefix(p: Seq<char>, v: Seq<char>) -> bool {
    p.len() <= v.len() && v.take(p.len() as int) == p
}

/// `p` is a suffix of `v`.
pub open spec fn is_suffix(p: Seq<char>, v: Seq<char>) -> bool {
    p.len() <= v.len() && v.skip(v.len() - p.len()) == p
}

/// The part of a pattern before its first `*` (all of it if it has none).
pub open spec fn before_star(p: Seq<char>) -> Seq<char>
    decreases p.len(),
{
    if p.len() == 0 || p[0] == '*' {
        Seq::empty()
    } else {
        seq![p[0]] + before_star(p.drop_first())
    }
}

/// What a simple name pattern accepts: the value starts with the part before
/// the first `*`; and when the pattern has exactly one `*` followed by a
/// non-empty part, the value also ends with that part.  Further `*`s are not
/// interpreted.
pub open spec fn glob_accepts(value: Seq<char>, pattern: Seq<char>) -> bool {
    let head = before_star(pattern);
    let tail = pattern.skip(head.len() + 1int);
    &&& is_prefix(head, value)
    &&& (head.len() < pattern.len() && tail.len() > 0 && !tail.contains('*')) ==> is_suffix(
        tail,
        value,
    )
}

/// Whether `v[off..off + (hi - lo)]` equals `p[lo..hi]`.
pub(crate) fn matches_at(v: &Vec<char>, off: usize, p: &Vec<char>, lo: usize, hi: usize) -> (r: bool)
    requires
        lo <= hi <= p@.len(),
        off + (hi - lo) <= v@.len(),
    ensures
        r == (v@.subrange(off as int, off + (hi - lo)) == p@.subrange(lo as int, hi as int)),
{
    let vlen = v.len();
    let mut k: usize = 0;
    while k < hi - lo
        invariant
            vlen == v@.len(),
            lo <= hi <= p@.len(),
            off + (hi - lo) <= v@.len(),
            k <= hi - lo,
            v@.subrange(off as int, off + k) == p@.subrange(lo as int, lo + k),
        decreases hi - lo - k,
    {
        if v[off + k] != p[lo + k] {
            assert(v@.subrange(off as int, off + (hi - lo))[k as int] != p@.subrange(lo as int, hi as int)[k as int]);
            return false;
        }
        assert(v@.subrange(off as int, off + k + 1) == v@.subrange(off as int, off + k).push(v@[off + k]));
        assert(p@.subrange(lo as int, lo + k + 1) == p@.subrange(lo as int, lo + k).push(p@[lo + k]));
        k = k + 1;
    }
    true
}

/// The position of the first `*` of `p`, or its length if it has none.
fn first_star(p: &Vec<char>) -> (r: usize)
    ensures
        r <= p@.len(),
        before_star(p@) == p@.take(r as int),
        r < p@.len() ==> p@[r as int] == '*',
        !p@.take(r as int).contains('*'),
{
    let mut i: usize = 0;
    while i < p.len() && p[i] != '*'
        invariant
            i <= p@.len(),
            forall|j: int| 0 <= j < i ==> p@[j] != '*',
        decreases p@.len() - i,
    {
        i = i + 1;
    }
    proof {
        lemma_before_star(p@, i as int);
    }
    i
}

proof fn lemma_before_star(p: Seq<char>, i: int)
    requires
        0 <= i <= p.len(),
        forall|j: int| 0 <= j < i ==> p[j] != '*',
        i < p.len() ==> p[i] == '*',
    ensures
        before_star(p) == p.take(i),
        !p.take(i).contains('*'),
    decreases p.len(),
{
    if i > 0 {
        lemma_before_star(p.drop_first(), i - 1);
        assert(seq![p[0]] + p.drop_first().take(i - 1) == p.take(i));
    } else {
        assert(p.take(0) == Seq::<char>::empty());
    }
}

/// Whether `value` fits the simple name pattern `pattern` (see
/// `glob_accepts`).
pub fn glob_matches(value: &str, pattern: &str) -> (r: bool)
    ensures
        r == glob_accepts(value@, pattern@),
{
    let v = chars_of(value);
    let p = chars_of(pattern);
    let i = first_star(&p);
    if i > v.len() {
        return false;
    }
    if !matches_at(&v, 0, &p, 0, i) {
        assert(p@.subrange(0, i as int) == p@.take(i as int));
        assert(v@.subrange(0, i as int) == v@.take(i as int));
        return false;
    }
    assert(p@.subrange(0, i as int) == p@.take(i as int));
    assert(v@.subrange(0, i as int) == v@.take(i as int));
    if i == p.len() {
        return true;
    }
    let t = first_star_from(&p, i + 1);
    if t < p.len() || i + 1 == p.len() {
        proof {
            let tail = p@.skip(i + 1);
            if t < p@.len() {
                assert(tail[t - i - 1] == '*');
                assert(tail.contains('*'));
            }
        }
        return true;
    }
    let tl = p.len() - i - 1;
    if tl > v.len() {
        return false;
    }
    let r = matches_at(&v, v.len() - tl, &p, i + 1, p.len());
    assert(p@.subrange(i + 1, p@.len() as int) == p@.skip(i + 1));
    assert(v@.subrange(v@.len() - tl, v@.len() as int) == v@.skip(v@.len() - tl));
    r
}

/// The position of the first `*` of `p` at or after `from`, or its length.
fn first_star_from(p: &Vec<char>, from: usize) -> (r: usize)
    requires
        from <= p@.len(),
    ensures
        from <= r <= p@.len(),
        r < p@.len() ==> p@[r as int] == '*',
        r == p@.len() ==> !p@.skip(from as int).contains('*'),
{
    let mut i: usize = from;
    while i < p.len() && p[i] != '*'
        invariant
            from <= i <= p@.len(),
            forall|j: int| from <= j < i ==> p@[j] != '*',
        decreases p@.len() - i,
    {
        i = i + 1;
    }
    proof {
        if i == p@.len() && p@.skip(from as int).contains('*') {
            let j = choose|j: int| 0 <= j < p@.skip(from as int).len() && p@.skip(from as int)[j] == '*';
            assert(p@[from + j] == '*');
        }
    }
    i
}

// ---------------------------------------------------------------- words

/// Unicode's `White_Space` characters.
pub open spec fn is_white_space(c: char) -> bool {
    let u = c as u32;
    ||| 0x9 <= u <= 0xd
    ||| u == 0x20
    ||| u == 0x85
    ||| u == 0xa0
    ||| u == 0x1680
    ||| 0x2000 <= u <= 0x200a
    ||| u == 0x2028
    ||| u == 0x2029
    ||| u == 0x202f
    ||| u == 0x205f
    ||| u == 0x3000
}

pub fn white_space(c: char) -> (r: bool)
    ensures
        r == is_white_space(c),
{
    let u = c as u32;
    (0x9 <= u && u <= 0xd) || u == 0x20 || u == 0x85 || u == 0xa0 || u == 0x1680 || (0x2000 <= u
        && u <= 0x200a) || u == 0x2028 || u == 0x2029 || u == 0x202f || u == 0x205f || u == 0x3000
}

/// The words of `text`: its maximal runs of characters that are not white
/// space, where `cur` holds the current word read so far.
pub open spec fn words_from(text: Seq<char>, cur: Seq<char>) -> Seq<Seq<char>>
    decreases text.len(),
{
    if text.len() == 0 {
        if cur.len() == 0 {
            Seq::empty()
        } else {
            seq![cur]
        }
    } else if is_white_space(text[0]) {
        (if cur.len() == 0 {
            Seq::empty()
        } else {
            seq![cur]
        }) + words_from(text.drop_first(), Seq::empty())
    } else {
        words_from(text.drop_first(), cur.push(text[0]))
    }
}

/// The words of `text`, in order.
pub open spec fn words(text: Seq<char>) -> Seq<Seq<char>> {
    words_from(text, Seq::empty())
}

/// The words of `text`, split at white space.
pub fn split_words(text: &str) -> (r: Vec<String>)
    ensures
        key_views(r@) == words(text@),
{
    let cs = chars_of(text);
    let mut out: Vec<String> = Vec::new();
    let mut cur = String::new();
    let mut i: usize = 0;
    assert(cs@.skip(0) == cs@);
    assert(key_views(out@) + words_from(cs@, cur@) == words_from(cs@, cur@));
    while i < cs.len()
        invariant
            i <= cs@.len(),
            cs@ == text@,
            key_views(out@) + words_from(cs@.skip(i as int), cur@) == words(text@),
        decreases cs@.len() - i,
    {
        let c = cs[i];
        let ghost rest = cs@.skip(i as int);
        assert(rest.drop_first() == cs@.skip(i + 1));
        if white_space(c) {
            if !cur.as_str().is_empty() {
                proof {
                    assert(key_views(out@.push(cur)) == key_views(out@).push(cur@));
                    assert(key_views(out@).push(cur@) + words_from(cs@.skip(i + 1), Seq::empty())
                        == key_views(out@) + words_from(rest, cur@));
                }
                out.push(cur);
            } else {
                assert(Seq::<Seq<char>>::empty() + words_from(cs@.skip(i + 1), Seq::empty())
                    == words_from(cs@.skip(i + 1), Seq::empty()));
            }
            cur = String::new();
        } else {
            push_char(&mut cur, c);
        }
        i = i + 1;
    }
    if !cur.as_str().is_empty() {
        proof {
            assert(key_views(out@.push(cur)) == key_views(out@).push(cur@));
        }
        out.push(cur);
    } else {
        assert(key_views(out@) + Seq::empty() == key_views(out@));
    }
    out
}

/// The timestamp of a log line: its first two words joined by one space,
/// or nothing when the line has fewer than two words.
pub fn extract_timestamp(line: &str) -> (r: Option<String>)
    ensures
        r is None <==> words(line@).len() < 2,
        r is Some ==> r->0@ == words(line@)[0] + seq![' '] + words(line@)[1],
{
    let parts = split_words(line);
    if parts.len() < 2 {
        assert(key_views(parts@).len() == parts@.len());
        None
    } else {
        assert(key_views(parts@)[0] == parts@[0]@);
        assert(key_views(parts@)[1] == parts@[1]@);
        let mut r = parts[0].clone();
        r.append(" ");
        r.append(parts[1].as_str());
        proof {
            reveal_strlit(" ");
        }
        Some(r)
    }
}

// ---------------------------------------------------------------- numbers

/// The decimal digit character of `d < 10`.
pub open spec fn digit_char(d: nat) -> char {
    if d == 0 {
        '0'
    } else if d == 1 {
        '1'
    } else if d == 2 {
        '2'
    } else if d == 3 {
        '3'
    } else if d == 4 {
        '4'
    } else if d == 5 {
        '5'
    } else if d == 6 {
        '6'
    } else if d == 7 {
        '7'
    } else if d == 8 {
        '8'
    } else {
        '9'
    }
}

/// The decimal digits of `n`, without leading zeros.
pub open spec fn decimal(n: nat) -> Seq<char>
    decreases n,
{
    if n < 10 {
        seq![digit_char(n)]
    } else {
        decimal(n / 10).push(digit_char(n % 10))
    }
}

/// The decimal form of `v`, with a leading `-` when it is negative.
pub open spec fn signed_decimal(v: int) -> Seq<char> {
    if v < 0 {
        seq!['-'] + decimal((-v) as nat)
    } else {
        decimal(v as nat)
    }
}

fn digit(d: u64) -> (c: char)
    requires
        d < 10,
    ensures
        c == digit_char(d as nat),
{
    if d == 0 {
        '0'
    } else if d == 1 {
        '1'
    } else if d == 2 {
        '2'
    } else if d == 3 {
        '3'
    } else if d == 4 {
        '4'
    } else if d == 5 {
        '5'
    } else if d == 6 {
        '6'
    } else if d == 7 {
        '7'
    } else if d == 8 {
        '8'
    } else {
        '9'
    }
}

/// Appends the decimal digits of `n` to `out`.
fn push_decimal(out: &mut String, n: u64)
    ensures
        final(out)@ == old(out)@ + decimal(n as nat),
{
    let mut m: u64 = n;
    let mut low: Vec<char> = Vec::new();
    while m >= 10
        invariant
            decimal(n as nat) == decimal(m as nat) + low@,
        decreases m,
    {
        let d = digit(m % 10);
        let ghost prev = low@;
        low.insert(0, d);
        proof {
            assert(low@ == seq![d] + prev);
            assert(decimal(m as nat) == decimal((m / 10) as nat).push(d));
            assert(decimal((m / 10) as nat).push(d) + prev == decimal((m / 10) as nat) + low@);
        }
        m = m / 10;
    }
    let ghost start = out@;
    push_char(out, digit(m));
    let mut i: usize = 0;
    while i < low.len()
        invariant
            i <= low@.len(),
            decimal(n as nat) == decimal(m as nat) + low@,
            m < 10,
            out@ == start + decimal(m as nat) + low@.take(i as int),
            start == old(out)@,
        decreases low@.len() - i,
    {
        assert(low@.take(i + 1) == low@.take(i as int).push(low@[i as int]));
        push_char(out, low[i]);
        i = i + 1;
    }
    assert(low@.take(low@.len() as int) == low@);
    assert(start + decimal(m as nat) + low@ == start + (decimal(m as nat) + low@));
}

/// The decimal form of a count, or `-` when it is absent.
pub fn fmt_int(val: Option<i32>) -> (r: String)
    ensures
        val is None ==> r@ == seq!['-'],
        val is Some ==> r@ == signed_decimal(val->0 as int),
{
    match val {
        Some(v) => {
            let mut r = String::new();
            if v < 0 {
                push_char(&mut r, '-');
                let m: u64 = (-(v as i64)) as u64;
                push_decimal(&mut r, m);
            } else {
                push_decimal(&mut r, v as u64);
            }
            r
        },
        None => {
            let mut r = String::new();
            push_char(&mut r, '-');
            r
        },
    }
}

// ---------------------------------------------------------------- indexed names

/// The position of the last `c` in `s`, or -1.
pub open spec fn last_index_of(s: Seq<char>, c: char) -> int
    decreases s.len(),
{
    if s.len() == 0 {
        -1
    } else if s.last() == c {
        s.len() - 1
    } else {
        last_index_of(s.drop_last(), c)
    }
}

/// The stem of a file name: the name without its extension, that is without
/// the part from the last `.` on, unless that `.` is the first character.
/// The names `""`, `.` and `..` have no stem.
pub open spec fn file_stem(name: Seq<char>) -> Option<Seq<char>> {
    if name.len() == 0 || name == seq!['.'] || name == seq!['.', '.'] {
        None
    } else {
        let d = last_index_of(name, '.');
        if d <= 0 {
            Some(name)
        } else {
            Some(name.take(d))
        }
    }
}

/// `p` occurs in `s` at position `i`.
pub open spec fn occurs_at(s: Seq<char>, p: Seq<char>, i: int) -> bool {
    0 <= i && i + p.len() <= s.len() && s.subrange(i, i + p.len()) == p
}

/// The last position at or below `i` where `p` occurs in `s`, or -1.
pub open spec fn last_occurrence_from(s: Seq<char>, p: Seq<char>, i: int) -> int
    decreases i + 1,
{
    if i < 0 {
        -1
    } else if occurs_at(s, p, i) {
        i
    } else {
        last_occurrence_from(s, p, i - 1)
    }
}

/// The last position where `p` occurs in `s`, or -1.
pub open spec fn last_occurrence(s: Seq<char>, p: Seq<char>) -> int {
    last_occurrence_from(s, p, s.len() - p.len())
}

pub open spec fn is_digit(c: char) -> bool {
    0x30 <= (c as u32) <= 0x39
}

/// The number written by the decimal digits `d`.
pub open spec fn digits_value(d: Seq<char>) -> nat
    decreases d.len(),
{
    if d.len() == 0 {
        0
    } else {
        digits_value(d.drop_last()) * 10 + ((d.last() as u32) - 0x30) as nat
    }
}

/// `s` without its leading `+`, if any.
pub open spec fn without_plus(s: Seq<char>) -> Seq<char> {
    if s.len() > 0 && s[0] == '+' {
        s.drop_first()
    } else {
        s
    }
}

pub open spec fn all_digits(d: Seq<char>) -> bool {
    forall|i: int| 0 <= i < d.len() ==> is_digit(#[trigger] d[i])
}

/// An unsigned size written in decimal: an optional `+`, then one or more
/// digits, for a value that fits in a `usize`.
pub open spec fn parse_usize(s: Seq<char>) -> Option<nat> {
    let d = without_plus(s);
    if d.len() > 0 && all_digits(d) && digits_value(d) <= usize::MAX {
        Some(digits_value(d))
    } else {
        None
    }
}

/// The base name and index of a file name made of a base name, the postfix
/// and an index: the stem is split at the last occurrence of the postfix,
/// and what follows it must be an index.
pub open spec fn base_and_index(name: Seq<char>, postfix: Seq<char>) -> Option<(Seq<char>, nat)> {
    match file_stem(name) {
        None => None,
        Some(stem) => {
            let pos = last_occurrence(stem, postfix);
            if pos < 0 {
                None
            } else {
                match parse_usize(stem.skip(pos + postfix.len())) {
                    None => None,
                    Some(i) => Some((stem.take(pos), i)),
                }
            }
        },
    }
}

/// The characters `cs[lo..hi]` as a string.
pub(crate) fn string_from(cs: &Vec<char>, lo: usize, hi: usize) -> (r: String)
    requires
        lo <= hi <= cs@.len(),
    ensures
        r@ == cs@.subrange(lo as int, hi as int),
{
    let mut r = String::new();
    let mut i: usize = lo;
    while i < hi
        invariant
            lo <= i <= hi <= cs@.len(),
            r@ == cs@.subrange(lo as int, i as int),
        decreases hi - i,
    {
        assert(cs@.subrange(lo as int, i + 1) == cs@.subrange(lo as int, i as int).push(cs@[i as int]));
        push_char(&mut r, cs[i]);
        i = i + 1;
    }
    r
}

proof fn lemma_last_index_bounds(s: Seq<char>, c: char)
    ensures
        -1 <= last_index_of(s, c) < s.len(),
    decreases s.len(),
{
    if s.len() > 0 {
        lemma_last_index_bounds(s.drop_last(), c);
    }
}

proof fn lemma_last_occurrence_bounds(s: Seq<char>, p: Seq<char>, i: int)
    ensures
        last_occurrence_from(s, p, i) == -1 || (0 <= last_occurrence_from(s, p, i) <= i
            && occurs_at(s, p, last_occurrence_from(s, p, i))),
    decreases i + 1,
{
    if i >= 0 && !occurs_at(s, p, i) {
        lemma_last_occurrence_bounds(s, p, i - 1);
    }
}

fn last_index(cs: &Vec<char>, c: char) -> (r: Option<usize>)
    ensures
        r is None ==> last_index_of(cs@, c) == -1,
        r is Some ==> last_index_of(cs@, c) == r->0 as int,
{
    let mut i: usize = cs.len();
    assert(cs@.take(cs@.len() as int) == cs@);
    while i > 0
        invariant
            i <= cs@.len(),
            last_index_of(cs@, c) == last_index_of(cs@.take(i as int), c),
        decreases i,
    {
        assert(cs@.take(i as int).drop_last() == cs@.take(i - 1));
        if cs[i - 1] == c {
            return Some(i - 1);
        }
        i = i - 1;
    }
    None
}

fn rfind(s: &Vec<char>, p: &Vec<char>) -> (r: Option<usize>)
    ensures
        r is None ==> last_occurrence(s@, p@) == -1,
        r is Some ==> last_occurrence(s@, p@) == r->0 as int,
{
    if p.len() > s.len() {
        assert(last_occurrence_from(s@, p@, s@.len() - p@.len()) == -1);
        return None;
    }
    let mut i: usize = s.len() - p.len();
    loop
        invariant
            p@.len() <= s@.len(),
            i <= s@.len() - p@.len(),
            last_occurrence(s@, p@) == last_occurrence_from(s@, p@, i as int),
        decreases i,
    {
        if matches_at(s, i, p, 0, p.len()) {
            assert(p@.subrange(0, p@.len() as int) == p@);
            return Some(i);
        }
        assert(p@.subrange(0, p@.len() as int) == p@);
        assert(!occurs_at(s@, p@, i as int));
        if i == 0 {
            assert(last_occurrence_from(s@, p@, -1) == -1);
            return None;
        }
        i = i - 1;
    }
}

/// Reads an unsigned size from `cs[lo..]`.
fn parse_usize_at(cs: &Vec<char>, lo: usize) -> (r: Option<usize>)
    requires
        lo <= cs@.len(),
    ensures
        r is None ==> parse_usize(cs@.skip(lo as int)) is None,
        r is Some ==> parse_usize(cs@.skip(lo as int)) == Some(r->0 as nat),
{
    let ghost s = cs@.skip(lo as int);
    let mut start = lo;
    if lo < cs.len() && cs[lo] == '+' {
        start = lo + 1;
    }
    let ghost d = cs@.skip(start as int);
    assert(d == without_plus(s));
    if start == cs.len() {
        assert(d.len() == 0);
        return None;
    }
    let mut value: usize = 0;
    let mut overflow = false;
    let mut i: usize = start;
    while i < cs.len()
        invariant
            lo <= start <= i <= cs@.len(),
            d == cs@.skip(start as int),
            s == cs@.skip(lo as int),
            d == without_plus(s),
            d.len() > 0,
            forall|j: int| start <= j < i ==> is_digit(#[trigger] cs@[j]),
            overflow ==> digits_value(cs@.subrange(start as int, i as int)) > usize::MAX,
            !overflow ==> value == digits_value(cs@.subrange(start as int, i as int)),
        decreases cs@.len() - i,
    {
        let c = cs[i];
        let u = c as u32;
        if !(0x30 <= u && u <= 0x39) {
            assert(d[i - start] == c);
            assert(!is_digit(d[i - start]));
            assert(!(forall|j: int| 0 <= j < d.len() ==> is_digit(#[trigger] d[j])));
            return None;
        }
        let dv = (u - 0x30) as usize;
        let ghost prev = cs@.subrange(start as int, i as int);
        assert(cs@.subrange(start as int, i + 1).drop_last() == prev);
        assert(digits_value(cs@.subrange(start as int, i + 1)) == digits_value(prev) * 10 + dv);
        if !overflow {
            if value > (usize::MAX - dv) / 10 {
                overflow = true;
                assert(value * 10 + dv > usize::MAX) by (nonlinear_arith)
                    requires
                        value > (usize::MAX - dv) / 10,
                        dv <= 9,
                ;
            } else {
                assert(value * 10 + dv <= usize::MAX) by (nonlinear_arith)
                    requires
                        value <= (usize::MAX - dv) / 10,
                        dv <= 9,
                ;
                value = value * 10 + dv;
            }
        }
        i = i + 1;
    }
    assert(cs@.subrange(start as int, cs@.len() as int) == d);
    if overflow {
        None
    } else {
        Some(value)
    }
}

/// Splits a file name made of a base name, `postfix` and an index (and an
/// optional extension), such as `photo_3.jpg` with postfix `_`, into its
/// base name and index.  `file_name` is a single name, not a path.
pub fn extract_base_name_and_index(file_name: &str, postfix: &str) -> (r: Option<(String, usize)>)
    requires
        !file_name@.contains('/'),
    ensures
        r is None <==> base_and_index(file_name@, postfix@) is None,
        r is Some ==> base_and_index(file_name@, postfix@) == Some(
            ((r->0).0@, (r->0).1 as nat),
        ),
{
    let name = chars_of(file_name);
    let pf = chars_of(postfix);
    let n = name.len();
    if n == 0 || (n == 1 && name[0] == '.') || (n == 2 && name[0] == '.' && name[1] == '.') {
        assert(n == 1 && name[0] == '.' ==> name@ == seq!['.']);
        assert(n == 2 && name[0] == '.' && name[1] == '.' ==> name@ == seq!['.', '.']);
        return None;
    }
    assert(name@ != seq!['.']) by {
        if name@ == seq!['.'] {
            assert(name@.len() == 1 && name@[0] == '.');
        }
    }
    assert(name@ != seq!['.', '.']) by {
        if name@ == seq!['.', '.'] {
            assert(name@.len() == 2 && name@[0] == '.' && name@[1] == '.');
        }
    }
    proof {
        lemma_last_index_bounds(name@, '.');
    }
    let stem_len = match last_index(&name, '.') {
        Some(d) => if d == 0 {
            n
        } else {
            d
        },
        None => n,
    };
    assert(name@.take(n as int) == name@);
    let stem = string_from(&name, 0, stem_len);
    let sc = chars_of(stem.as_str());
    assert(sc@ == name@.take(stem_len as int));
    proof {
        lemma_last_occurrence_bounds(sc@, pf@, sc@.len() - pf@.len());
    }
    match rfind(&sc, &pf) {
        None => None,
        Some(pos) => {
            match parse_usize_at(&sc, pos + pf.len()) {
                None => None,
                Some(index) => {
                    let base = string_from(&sc, 0, pos);
                    assert(sc@.subrange(0, pos as int) == sc@.take(pos as int));
                    Some((base, index))
                },
            }
        },
    }
}

} // verus!
