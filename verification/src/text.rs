//! Plain-text helpers for the log format: characters, lines, trimming,
//! comma lists and decimal numbers, each with the meaning std gives it.

use vstd::prelude::*;

verus! {

/// The characters of a string slice.
pub fn to_chars(s: &str) -> (r: Vec<char>)
    ensures
        r@ == s@,
{
    broadcast use vstd::string::group_string_axioms;
    let mut r: Vec<char> = Vec::new();
    for ch in it: s.chars()
        invariant
            r@ == it.seq().take(it.index() as int),
    {
        r.push(ch);
    }
    r
}

/// The string made of the given characters, in order (std's
/// `FromIterator<char>` for `String`).
#[verifier::external_body]
pub(crate) fn chars_to_string(v: &Vec<char>) -> (r: String)
    ensures
        r@ == v@,
{
    v.iter().collect()
}

/// Append the characters of a string slice.
pub fn push_str(out: &mut Vec<char>, s: &str)
    ensures
        final(out)@ == old(out)@ + s@,
{
    let mut cs = to_chars(s);
    out.append(&mut cs);
}

/// Whether `ch` has the Unicode White_Space property (what
/// `char::is_whitespace` tests, and what `str::trim` removes).
pub open spec fn is_ws(ch: char) -> bool {
    let u = ch as u32;
    (9 <= u <= 13) || u == 32 || u == 0x85 || u == 0xA0 || u == 0x1680 || (0x2000 <= u <= 0x200A)
        || u == 0x2028 || u == 0x2029 || u == 0x202F || u == 0x205F || u == 0x3000
}

/// Whether `ch` is white space.
pub fn is_whitespace(ch: char) -> (r: bool)
    ensures
        r == is_ws(ch),
{
    let u = ch as u32;
    (9 <= u && u <= 13) || u == 32 || u == 0x85 || u == 0xA0 || u == 0x1680 || (0x2000 <= u && u
        <= 0x200A) || u == 0x2028 || u == 0x2029 || u == 0x202F || u == 0x205F || u == 0x3000
}

/// `s` without its leading white space.
pub open spec fn trim_start(s: Seq<char>) -> Seq<char>
    decreases s.len(),
{
    if s.len() > 0 && is_ws(s[0]) {
        trim_start(s.drop_first())
    } else {
        s
    }
}

/// `s` without its trailing white space.
pub open spec fn trim_end(s: Seq<char>) -> Seq<char>
    decreases s.len(),
{
    if s.len() > 0 && is_ws(s.last()) {
        trim_end(s.drop_last())
    } else {
        s
    }
}

/// `s` without leading and trailing white space (`str::trim`).
pub open spec fn trim(s: Seq<char>) -> Seq<char> {
    trim_end(trim_start(s))
}

/// Drop leading and trailing white space.
pub fn trim_chars(v: &Vec<char>) -> (r: Vec<char>)
    ensures
        r@ == trim(v@),
{
    let n = v.len();
    let mut i: usize = 0;
    assert(v@.skip(0) =~= v@);
    while i < n && is_whitespace(v[i])
        invariant
            n == v@.len(),
            i <= n,
            trim_start(v@) == trim_start(v@.skip(i as int)),
        decreases n - i,
    {
        assert(v@.skip(i as int).drop_first() =~= v@.skip((i + 1) as int));
        i = i + 1;
    }
    let ghost t = v@.skip(i as int);
    assert(trim_start(v@) == t);
    let mut j: usize = n;
    assert(t.take(j - i) =~= t);
    while j > i && is_whitespace(v[j - 1])
        invariant
            n == v@.len(),
            i <= j <= n,
            t == v@.skip(i as int),
            trim_end(t) == trim_end(t.take(j - i)),
        decreases j,
    {
        assert(t.take(j - i).drop_last() =~= t.take(j - i - 1));
        assert(t.take(j - i).last() == v@[j - 1]);
        j = j - 1;
    }
    let mut r: Vec<char> = Vec::new();
    let mut k: usize = i;
    while k < j
        invariant
            n == v@.len(),
            i <= k <= j <= n,
            r@ == v@.subrange(i as int, k as int),
        decreases j - k,
    {
        r.push(v[k]);
        assert(v@.subrange(i as int, (k + 1) as int) =~= v@.subrange(i as int, k as int).push(v@[k as int]));
        k = k + 1;
    }
    assert(t.take(j - i) =~= v@.subrange(i as int, j as int));
    r
}

/// The pieces of `s` as `str::split_inclusive('\n')` cuts it: each piece
/// ends just after a line feed, except possibly the last; no piece is empty.
pub open spec fn line_pieces(s: Seq<char>) -> Seq<Seq<char>>
    decreases s.len(),
{
    if s.len() == 0 {
        Seq::empty()
    } else {
        let ps = line_pieces(s.drop_last());
        let ch = s.last();
        if ps.len() == 0 || ps.last().last() == '\n' {
            ps.push(seq![ch])
        } else {
            ps.update(ps.len() - 1, ps.last().push(ch))
        }
    }
}

/// A piece without its line ending: a final line feed, and then a carriage
/// return just before it.
pub open spec fn strip_line_end(p: Seq<char>) -> Seq<char> {
    if p.len() > 0 && p.last() == '\n' {
        let q = p.drop_last();
        if q.len() > 0 && q.last() == '\r' { q.drop_last() } else { q }
    } else {
        p
    }
}

/// The lines of `s` (`str::lines`): split at line feeds, each line without
/// its line ending, and no empty line after a final line feed.
pub open spec fn lines(s: Seq<char>) -> Seq<Seq<char>> {
    line_pieces(s).map_values(|p: Seq<char>| strip_line_end(p))
}

/// Every piece is non-empty.
proof fn lemma_line_pieces_nonempty(s: Seq<char>)
    ensures
        forall|i: int| 0 <= i < line_pieces(s).len() ==> (#[trigger] line_pieces(s)[i]).len() > 0,
    decreases s.len(),
{
    if s.len() > 0 {
        lemma_line_pieces_nonempty(s.drop_last());
        let ps = line_pieces(s.drop_last());
        let ch = s.last();
        if ps.len() == 0 || ps.last().last() == '\n' {
            assert(ps.push(seq![ch])[ps.len() as int].len() == 1);
        } else {
            assert forall|i: int| 0 <= i < ps.len() implies (#[trigger] ps.update(ps.len() - 1, ps.last().push(ch))[i]).len() > 0 by {
                if i < ps.len() - 1 {
                    assert(ps[i].len() > 0);
                }
            }
        }
    }
}

/// Split characters into lines.
pub fn split_lines(v: &Vec<char>) -> (r: Vec<Vec<char>>)
    ensures
        r@.len() == lines(v@).len(),
        forall|i: int| 0 <= i < r@.len() ==> (#[trigger] r@[i])@ == lines(v@)[i],
{
    // First cut the pieces, then strip their endings.
    let mut pieces: Vec<Vec<char>> = Vec::new();
    let mut k: usize = 0;
    while k < v.len()
        invariant
            k <= v@.len(),
            pieces@.len() == line_pieces(v@.take(k as int)).len(),
            forall|i: int| 0 <= i < pieces@.len() ==> (#[trigger] pieces@[i])@ == line_pieces(v@.take(k as int))[i],
        decreases v@.len() - k,
    {
        let ch = v[k];
        let ghost pre = v@.take(k as int);
        assert(v@.take((k + 1) as int).drop_last() =~= pre);
        assert(v@.take((k + 1) as int).last() == ch);
        proof {
            lemma_line_pieces_nonempty(pre);
        }
        let n = pieces.len();
        let start_new = if n == 0 {
            true
        } else {
            let last = &pieces[n - 1];
            last[last.len() - 1] == '\n'
        };
        if start_new {
            let mut p: Vec<char> = Vec::new();
            p.push(ch);
            pieces.push(p);
            proof {
                assert(pieces@[n as int]@ =~= seq![ch]);
            }
        } else {
            let mut last = pieces.pop().unwrap();
            last.push(ch);
            pieces.push(last);
        }
        proof {
            let ps = line_pieces(pre);
            let post = line_pieces(v@.take((k + 1) as int));
            assert forall|i: int| 0 <= i < pieces@.len() implies (#[trigger] pieces@[i])@ == post[i] by {
                if i < n - 1 || (start_new && i < n) {
                } else {
                }
            }
        }
        k = k + 1;
    }
    assert(v@.take(v@.len() as int) =~= v@);
    let ghost ps = line_pieces(v@);
    let mut r: Vec<Vec<char>> = Vec::new();
    let mut i: usize = 0;
    while i < pieces.len()
        invariant
            ps == line_pieces(v@),
            pieces@.len() == ps.len(),
            forall|j: int| 0 <= j < pieces@.len() ==> (#[trigger] pieces@[j])@ == ps[j],
            i <= pieces@.len(),
            r@.len() == i,
            forall|j: int| 0 <= j < i ==> (#[trigger] r@[j])@ == strip_line_end(ps[j]),
        decreases pieces@.len() - i,
    {
        let p = &pieces[i];
        let mut end = p.len();
        if end > 0 && p[end - 1] == '\n' {
            end = end - 1;
            if end > 0 && p[end - 1] == '\r' {
                end = end - 1;
            }
        }
        let mut line: Vec<char> = Vec::new();
        let mut m: usize = 0;
        while m < end
            invariant
                end <= p@.len(),
                m <= end,
                line@ == p@.take(m as int),
            decreases end - m,
        {
            line.push(p[m]);
            assert(p@.take((m + 1) as int) =~= p@.take(m as int).push(p@[m as int]));
            m = m + 1;
        }
        proof {
            let q = ps[i as int];
            assert(p@ == q);
            if q.len() > 0 && q.last() == '\n' {
                assert(q.drop_last() =~= q.take(q.len() - 1));
                if q.drop_last().len() > 0 && q.drop_last().last() == '\r' {
                    assert(q.drop_last().drop_last() =~= q.take(q.len() - 2));
                }
            } else {
                assert(q =~= q.take(q.len() as int));
            }
        }
        r.push(line);
        i = i + 1;
    }
    r
}

/// The pieces of `s` between commas (`str::split(',')`): one more piece than
/// there are commas, empty pieces included.
pub open spec fn comma_pieces(s: Seq<char>) -> Seq<Seq<char>>
    decreases s.len(),
{
    if s.len() == 0 {
        seq![Seq::empty()]
    } else {
        let ps = comma_pieces(s.drop_last());
        if s.last() == ',' {
            ps.push(Seq::empty())
        } else {
            ps.update(ps.len() - 1, ps.last().push(s.last()))
        }
    }
}

/// There is always at least one piece.
proof fn lemma_comma_pieces_len(s: Seq<char>)
    ensures
        comma_pieces(s).len() >= 1,
    decreases s.len(),
{
    if s.len() > 0 {
        lemma_comma_pieces_len(s.drop_last());
    }
}

/// Split at commas.
pub fn split_commas(v: &Vec<char>) -> (r: Vec<Vec<char>>)
    ensures
        r@.len() == comma_pieces(v@).len(),
        forall|i: int| 0 <= i < r@.len() ==> (#[trigger] r@[i])@ == comma_pieces(v@)[i],
{
    let mut r: Vec<Vec<char>> = Vec::new();
    r.push(Vec::new());
    assert(v@.take(0) =~= Seq::<char>::empty());
    assert(r@[0]@ =~= Seq::<char>::empty());
    let mut k: usize = 0;
    while k < v.len()
        invariant
            k <= v@.len(),
            r@.len() == comma_pieces(v@.take(k as int)).len(),
            r@.len() >= 1,
            forall|i: int| 0 <= i < r@.len() ==> (#[trigger] r@[i])@ == comma_pieces(v@.take(k as int))[i],
        decreases v@.len() - k,
    {
        let ch = v[k];
        let ghost pre = v@.take(k as int);
        assert(v@.take((k + 1) as int).drop_last() =~= pre);
        assert(v@.take((k + 1) as int).last() == ch);
        let n = r.len();
        if ch == ',' {
            r.push(Vec::new());
            assert(r@[n as int]@ =~= Seq::<char>::empty());
        } else {
            let mut last = r.pop().unwrap();
            last.push(ch);
            r.push(last);
        }
        proof {
            let post = comma_pieces(v@.take((k + 1) as int));
            assert forall|i: int| 0 <= i < r@.len() implies (#[trigger] r@[i])@ == post[i] by {
            }
        }
        k = k + 1;
    }
    assert(v@.take(v@.len() as int) =~= v@);
    r
}

/// Whether `s` begins with `p`.
pub open spec fn has_prefix(s: Seq<char>, p: Seq<char>) -> bool {
    p.len() <= s.len() && s.take(p.len() as int) == p
}

/// Whether `s` begins with `p`.
pub fn starts_with(s: &Vec<char>, p: &Vec<char>) -> (r: bool)
    ensures
        r == has_prefix(s@, p@),
{
    if p.len() > s.len() {
        return false;
    }
    let mut i: usize = 0;
    while i < p.len()
        invariant
            p@.len() <= s@.len(),
            i <= p@.len(),
            forall|j: int| 0 <= j < i ==> s@[j] == p@[j],
        decreases p@.len() - i,
    {
        if s[i] != p[i] {
            assert(s@.take(p@.len() as int)[i as int] != p@[i as int]);
            return false;
        }
        i = i + 1;
    }
    assert(s@.take(p@.len() as int) =~= p@);
    true
}

/// The characters of `v` from position `k` on.
pub fn skip_chars(v: &Vec<char>, k: usize) -> (r: Vec<char>)
    requires
        k <= v@.len(),
    ensures
        r@ == v@.skip(k as int),
{
    let mut r: Vec<char> = Vec::new();
    let mut i: usize = k;
    while i < v.len()
        invariant
            k <= i <= v@.len(),
            r@ == v@.subrange(k as int, i as int),
        decreases v@.len() - i,
    {
        r.push(v[i]);
        assert(v@.subrange(k as int, (i + 1) as int) =~= v@.subrange(k as int, i as int).push(v@[i as int]));
        i = i + 1;
    }
    assert(v@.subrange(k as int, v@.len() as int) =~= v@.skip(k as int));
    r
}

// ------------------------------------------------------------ decimals

/// The character of a decimal digit.
pub open spec fn digit_char(d: nat) -> char {
    if d == 0 {
        '0'
    } else if d == 1 {
        '1'
    } else if d == 2 {
        '2'
    } else if d == 3 {
        '3'
    } else if d == 4 {
        '4'
    } else if d == 5 {
        '5'
    } else if d == 6 {
        '6'
    } else if d == 7 {
        '7'
    } else if d == 8 {
        '8'
    } else {
        '9'
    }
}

/// The decimal digits of `n`, most significant first, without leading zeros.
pub open spec fn dec(n: nat) -> Seq<char>
    decreases n,
{
    if n < 10 {
        seq![digit_char(n)]
    } else {
        dec(n / 10).push(digit_char(n % 10))
    }
}

/// The character of a decimal digit.
fn digit_of(d: u64) -> (r: char)
    requires
        d < 10,
    ensures
        r == digit_char(d as nat),
{
    if d == 0 {
        '0'
    } else if d == 1 {
        '1'
    } else if d == 2 {
        '2'
    } else if d == 3 {
        '3'
    } else if d == 4 {
        '4'
    } else if d == 5 {
        '5'
    } else if d == 6 {
        '6'
    } else if d == 7 {
        '7'
    } else if d == 8 {
        '8'
    } else {
        '9'
    }
}

/// Append the decimal digits of `n`.
pub fn push_decimal(out: &mut Vec<char>, n: u64)
    ensures
        final(out)@ == old(out)@ + dec(n as nat),
    decreases n,
{
    if n >= 10 {
        push_decimal(out, n / 10);
    }
    out.push(digit_of(n % 10));
    proof {
        if n >= 10 {
            assert(dec(n as nat) == dec((n / 10) as nat).push(digit_char((n % 10) as nat)));
        }
    }
}

/// The decimal text of a signed number: a minus sign before negatives.
pub open spec fn sdec(v: int) -> Seq<char> {
    if v < 0 {
        seq!['-'] + dec((-v) as nat)
    } else {
        dec(v as nat)
    }
}

/// Append the decimal text of a signed number.
pub fn push_signed(out: &mut Vec<char>, v: i32)
    ensures
        final(out)@ == old(out)@ + sdec(v as int),
{
    if v < 0 {
        let ghost o = out@;
        out.push('-');
        let m: u64 = (0i64 - (v as i64)) as u64;
        push_decimal(out, m);
        assert(out@ =~= o + sdec(v as int));
    } else {
        push_decimal(out, v as u64);
    }
}

/// Whether `ch` is an ASCII digit.
pub open spec fn is_digit(ch: char) -> bool {
    48 <= (ch as u32) <= 57
}

/// The value of a string of ASCII digits.
pub open spec fn digits_value(s: Seq<char>) -> nat
    decreases s.len(),
{
    if s.len() == 0 {
        0
    } else {
        digits_value(s.drop_last()) * 10 + ((s.last() as u32) - 48) as nat
    }
}

/// Whether every character is an ASCII digit.
pub open spec fn all_digits(s: Seq<char>) -> bool {
    forall|i: int| 0 <= i < s.len() ==> is_digit(#[trigger] s[i])
}

/// An unsigned integer as `str::parse` reads one: an optional `+`, then
/// one or more ASCII digits, with a value of at most `max`.
pub open spec fn parse_uint(s: Seq<char>, max: nat) -> Option<nat> {
    let body = if s.len() > 0 && s[0] == '+' { s.drop_first() } else { s };
    if body.len() > 0 && all_digits(body) && digits_value(body) <= max {
        Some(digits_value(body))
    } else {
        None
    }
}

/// Digits only make a value grow.
proof fn lemma_digits_value_prefix(s: Seq<char>, k: int)
    requires
        0 <= k <= s.len(),
        forall|i: int| 0 <= i < s.len() ==> is_digit(#[trigger] s[i]),
    ensures
        digits_value(s.take(k)) <= digits_value(s),
    decreases s.len() - k,
{
    if k < s.len() {
        lemma_digits_value_prefix(s, k + 1);
        assert(s.take(k + 1).drop_last() =~= s.take(k));
    } else {
        assert(s.take(k) =~= s);
    }
}

/// Read an unsigned integer of at most `max`.
pub fn parse_decimal(v: &Vec<char>, max: u64) -> (r: Option<u64>)
    ensures
        match r {
            Some(n) => parse_uint(v@, max as nat) == Some(n as nat),
            None => parse_uint(v@, max as nat) is None,
        },
{
    let start: usize = if v.len() > 0 && v[0] == '+' { 1 } else { 0 };
    let ghost body = if v@.len() > 0 && v@[0] == '+' { v@.drop_first() } else { v@ };
    assert(body =~= v@.skip(start as int));
    if start >= v.len() {
        return None;
    }
    let mut value: u64 = 0;
    let mut i: usize = start;
    while i < v.len()
        invariant
            start <= i <= v@.len(),
            body == v@.skip(start as int),
            body == (if v@.len() > 0 && v@[0] == '+' { v@.drop_first() } else { v@ }),
            body.len() > 0,
            forall|j: int| 0 <= j < i - start ==> is_digit(#[trigger] body[j]),
            value as nat == digits_value(body.take(i - start)),
            value <= max,
        decreases v@.len() - i,
    {
        let u = v[i] as u32;
        assert(body[i - start] == v@[i as int]);
        if u < 48 || u > 57 {
            assert(!is_digit(body[i - start]));
            assert(!all_digits(body));
            return None;
        }
        let d = (u - 48) as u64;
        assert(body.take(i - start + 1).drop_last() =~= body.take(i - start));
        let next: u128 = (value as u128) * 10 + (d as u128);
        if next > max as u128 {
            proof {
                if all_digits(body) {
                    lemma_digits_value_prefix(body, i - start + 1);
                    assert(digits_value(body.take(i - start + 1)) == value * 10 + d);
                    assert(digits_value(body) > max);
                }
            }
            return None;
        }
        value = next as u64;
        i = i + 1;
    }
    assert(body.take(body.len() as int) =~= body);
    Some(value)
}

// ------------------------------------------------------------ laws of the helpers

/// Whether `s` holds the character `ch` nowhere.
pub open spec fn lacks(s: Seq<char>, ch: char) -> bool {
    forall|i: int| 0 <= i < s.len() ==> s[i] != ch
}

/// The last piece ends with the last character.
proof fn lemma_line_pieces_last(x: Seq<char>)
    ensures
        x.len() == 0 ==> line_pieces(x).len() == 0,
        x.len() > 0 ==> line_pieces(x).len() > 0 && line_pieces(x).last().len() > 0
            && line_pieces(x).last().last() == x.last(),
    decreases x.len(),
{
    if x.len() > 0 {
        lemma_line_pieces_last(x.drop_last());
    }
}

/// Cutting after a line feed: the pieces of `x + y`, when `x` is empty or
/// ends with a line feed, are the pieces of `x` followed by those of `y`.
pub proof fn lemma_line_pieces_concat(x: Seq<char>, y: Seq<char>)
    requires
        x.len() == 0 || x.last() == '\n',
    ensures
        line_pieces(x + y) == line_pieces(x) + line_pieces(y),
    decreases y.len(),
{
    if y.len() == 0 {
        assert(x + y =~= x);
        assert(line_pieces(x) + line_pieces(y) =~= line_pieces(x));
    } else {
        let y1 = y.drop_last();
        let ch = y.last();
        lemma_line_pieces_concat(x, y1);
        assert((x + y).drop_last() =~= x + y1);
        assert((x + y).last() == ch);
        lemma_line_pieces_last(x);
        let px = line_pieces(x);
        let py1 = line_pieces(y1);
        if py1.len() == 0 {
            assert(px + py1 =~= px);
            assert(line_pieces(y) =~= seq![seq![ch]]);
            assert(line_pieces(x + y) =~= px + line_pieces(y));
        } else {
            assert((px + py1).last() == py1.last());
            if py1.last().last() == '\n' {
                assert(line_pieces(x + y) =~= px + line_pieces(y));
            } else {
                assert(line_pieces(x + y) =~= px + line_pieces(y));
            }
        }
    }
}

/// A text without line feeds is one piece, or none when empty.
proof fn lemma_line_pieces_flat(x: Seq<char>)
    requires
        lacks(x, '\n'),
    ensures
        x.len() == 0 ==> line_pieces(x) == Seq::<Seq<char>>::empty(),
        x.len() > 0 ==> line_pieces(x) == seq![x],
    decreases x.len(),
{
    if x.len() > 0 {
        let x1 = x.drop_last();
        lemma_line_pieces_flat(x1);
        if x1.len() == 0 {
            assert(x =~= seq![x.last()]);
        } else {
            assert(x1.last() == x[x.len() - 2]);
            assert(x1.push(x.last()) =~= x);
            assert(line_pieces(x) =~= seq![x]);
        }
    }
}

/// One line: `x` followed by a line feed reads as the single line `x`.
pub proof fn lemma_lines_one(x: Seq<char>)
    requires
        lacks(x, '\n'),
        x.len() == 0 || x.last() != '\r',
    ensures
        lines(x + seq!['\n']) == seq![x],
{
    lemma_line_pieces_flat(x);
    let xn = x + seq!['\n'];
    assert(xn.drop_last() =~= x);
    assert(xn.last() == '\n');
    if x.len() == 0 {
        assert(line_pieces(xn) =~= seq![seq!['\n']]);
        assert(strip_line_end(seq!['\n']) =~= x);
    } else {
        assert(x.last() == x[x.len() - 1]);
        assert(x.push('\n') =~= xn);
        assert(line_pieces(x).last() == x);
        assert(line_pieces(xn) =~= seq![xn]);
        assert(strip_line_end(xn) =~= x);
    }
    assert(lines(xn) =~= seq![x]);
}

/// Lines of a text cut after a line feed.
pub proof fn lemma_lines_concat(x: Seq<char>, y: Seq<char>)
    requires
        x.len() == 0 || x.last() == '\n',
    ensures
        lines(x + y) == lines(x) + lines(y),
{
    lemma_line_pieces_concat(x, y);
    assert(lines(x + y) =~= lines(x) + lines(y));
}

/// Trimming leaves a text alone whose ends are not white space.
pub proof fn lemma_trim_id(s: Seq<char>)
    requires
        s.len() > 0,
        !is_ws(s[0]),
        !is_ws(s.last()),
    ensures
        trim(s) == s,
{
}

/// Leading white space goes.
pub proof fn lemma_trim_leading(w: char, s: Seq<char>)
    requires
        is_ws(w),
    ensures
        trim(seq![w] + s) == trim(s),
{
    assert((seq![w] + s).drop_first() =~= s);
}

/// Trailing white space goes.
pub proof fn lemma_trim_trailing(s: Seq<char>, w: char)
    requires
        is_ws(w),
        s.len() > 0,
        !is_ws(s[0]),
    ensures
        trim(s + seq![w]) == trim_end(s),
{
    assert((s + seq![w]).drop_last() =~= s);
    assert((s + seq![w])[0] == s[0]);
}

/// A text without commas is a single piece.
pub proof fn lemma_comma_pieces_flat(t: Seq<char>)
    requires
        lacks(t, ','),
    ensures
        comma_pieces(t) == seq![t],
    decreases t.len(),
{
    if t.len() > 0 {
        lemma_comma_pieces_flat(t.drop_last());
        assert(t.drop_last().push(t.last()) =~= t);
        assert(t.last() == t[t.len() - 1]);
        assert(seq![t.drop_last()].update(0, t.drop_last().push(t.last())) =~= seq![t]);
    } else {
        assert(t =~= Seq::<char>::empty());
    }
}

/// A comma followed by a text without commas adds that text as a piece.
pub proof fn lemma_comma_pieces_after(s: Seq<char>, t: Seq<char>)
    requires
        lacks(t, ','),
    ensures
        comma_pieces(s + seq![','] + t) == comma_pieces(s).push(t),
    decreases t.len(),
{
    let sc = s + seq![','];
    if t.len() == 0 {
        assert(sc + t =~= sc);
        assert(sc.drop_last() =~= s);
        assert(sc.last() == ',');
        assert(t =~= Seq::<char>::empty());
    } else {
        let t1 = t.drop_last();
        assert(t.last() == t[t.len() - 1]);
        assert(t1.push(t.last()) =~= t);
        assert(lacks(t1, ',')) by {
            assert forall|i: int| 0 <= i < t1.len() implies t1[i] != ',' by {
                assert(t1[i] == t[i]);
            }
        }
        lemma_comma_pieces_after(s, t1);
        assert((sc + t).drop_last() =~= sc + t1);
        assert((sc + t).last() == t.last());
        assert(t.last() != ',');
        lemma_comma_pieces_len(s);
        assert(comma_pieces(s).push(t1).update(comma_pieces(s).len() as int, t1.push(t.last())) =~= comma_pieces(s).push(t));
    }
}

/// Decimal digits are ASCII digits.
pub proof fn lemma_digit_char(d: nat)
    requires
        d < 10,
    ensures
        is_digit(digit_char(d)),
        (digit_char(d) as u32) - 48 == d,
        !is_ws(digit_char(d)),
{
}

/// The decimal form of `n` is a nonempty string of digits worth `n`.
pub proof fn lemma_dec(n: nat)
    ensures
        dec(n).len() > 0,
        all_digits(dec(n)),
        digits_value(dec(n)) == n,
        !is_ws(dec(n)[0]),
        !is_ws(dec(n).last()),
        dec(n)[0] != '+',
        lacks(dec(n), '\n'),
        lacks(dec(n), ','),
        dec(n).last() != '\r',
    decreases n,
{
    if n < 10 {
        lemma_digit_char(n);
        assert(dec(n).drop_last() =~= Seq::<char>::empty());
        assert(dec(n).last() == digit_char(n));
        assert(digits_value(Seq::<char>::empty()) == 0);
        assert(digits_value(dec(n)) == digits_value(dec(n).drop_last()) * 10 + ((dec(n).last() as u32) - 48) as nat);
    } else {
        lemma_dec(n / 10);
        lemma_digit_char(n % 10);
        let d = dec(n / 10);
        assert(dec(n).drop_last() =~= d);
        assert(dec(n).last() == digit_char(n % 10));
        assert(digits_value(dec(n)) == digits_value(d) * 10 + ((digit_char(n % 10) as u32) - 48) as nat);
        assert(n == (n / 10) * 10 + n % 10);
        assert(dec(n)[0] == d[0]);
        assert forall|i: int| 0 <= i < dec(n).len() implies is_digit(#[trigger] dec(n)[i]) by {
            if i < d.len() {
                assert(dec(n)[i] == d[i]);
            }
        }
        assert forall|i: int| 0 <= i < dec(n).len() implies dec(n)[i] != '\n' && dec(n)[i] != ',' by {
            if i < d.len() {
                assert(dec(n)[i] == d[i]);
            }
        }
    }
}

/// Reading a number back from its decimal form.
pub proof fn lemma_parse_dec(n: nat, max: nat)
    requires
        n <= max,
    ensures
        parse_uint(dec(n), max) == Some(n),
{
    lemma_dec(n);
}

} // verus!
