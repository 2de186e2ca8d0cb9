use vstd::prelude::*;

verus! {

/// A saved position: red's and blue's evaluation (as stored), the red and
/// blue stones, the player to move and the evaluation.
pub type Record = (u32, u32, u128, u128, u8, i32);

/// ASCII whitespace: space, tab, line feed, form feed, carriage return.
pub open spec fn is_space(b: u8) -> bool {
    b == 32 || b == 9 || b == 10 || b == 12 || b == 13
}

/// An ASCII decimal digit.
pub open spec fn is_digit(b: u8) -> bool {
    48 <= b <= 57
}

/// The first line feed at or after `i`, or the end of `s`.
pub open spec fn line_end(s: Seq<u8>, i: int) -> int
    decreases s.len() - i,
{
    if i >= s.len() {
        s.len() as int
    } else if s[i] == 10 {
        i
    } else {
        line_end(s, i + 1)
    }
}

pub proof fn lemma_line_end(s: Seq<u8>, i: int)
    requires
        0 <= i <= s.len(),
    ensures
        i <= line_end(s, i) <= s.len(),
        line_end(s, i) < s.len() ==> s[line_end(s, i)] == 10,
    decreases s.len() - i,
{
    if i < s.len() && s[i] != 10 {
        lemma_line_end(s, i + 1);
    }
}

/// The lines of `s` from `i` on, cut at each line feed; the text after the
/// last line feed is the last line, empty when `s` ends with one.
pub open spec fn lines_from(s: Seq<u8>, i: int) -> Seq<Seq<u8>>
    decreases s.len() - i,
{
    if i < 0 || i > s.len() {
        seq![]
    } else {
        let e = line_end(s, i);
        if e >= s.len() {
            seq![s.subrange(i, s.len() as int)]
        } else {
            proof {
                lemma_line_end(s, i);
            }
            seq![s.subrange(i, e)] + lines_from(s, e + 1)
        }
    }
}

/// The end of the run of non-space bytes that starts at `i`.
pub open spec fn token_end(s: Seq<u8>, i: int) -> int
    decreases s.len() - i,
{
    if i >= s.len() || is_space(s[i]) {
        i
    } else {
        token_end(s, i + 1)
    }
}

pub proof fn lemma_token_end(s: Seq<u8>, i: int)
    requires
        0 <= i <= s.len(),
    ensures
        i <= token_end(s, i) <= s.len(),
        i < s.len() && !is_space(s[i]) ==> i < token_end(s, i),
        token_end(s, i) < s.len() ==> is_space(s[token_end(s, i)]),
    decreases s.len() - i,
{
    if i < s.len() && !is_space(s[i]) {
        lemma_token_end(s, i + 1);
    }
}

/// The whitespace-separated words of `s` from `i` on.
pub open spec fn tokens_from(s: Seq<u8>, i: int) -> Seq<Seq<u8>>
    decreases s.len() - i,
{
    if i < 0 || i >= s.len() {
        seq![]
    } else if is_space(s[i]) {
        tokens_from(s, i + 1)
    } else {
        let e = token_end(s, i);
        proof {
            lemma_token_end(s, i);
        }
        seq![s.subrange(i, e)] + tokens_from(s, e)
    }
}

/// The value of a string of decimal digits.
pub open spec fn digits_value(s: Seq<u8>) -> int
    decreases s.len(),
{
    if s.len() == 0 {
        0
    } else {
        10 * digits_value(s.drop_last()) + (s.last() - 48)
    }
}

/// The value of a non-empty string of digits.
pub open spec fn magnitude(s: Seq<u8>) -> Option<int> {
    if s.len() > 0 && forall|i: int| 0 <= i < s.len() ==> is_digit(#[trigger] s[i]) {
        Some(digits_value(s))
    } else {
        None
    }
}

/// An unsigned number as `str::parse` reads it: an optional `+`, then
/// digits, with a value at most `max`.
pub open spec fn parse_unsigned(s: Seq<u8>, max: int) -> Option<int> {
    let body = if s.len() > 0 && s[0] == 43 {
        s.drop_first()
    } else {
        s
    };
    match magnitude(body) {
        Some(v) => if v <= max {
            Some(v)
        } else {
            None
        },
        None => None,
    }
}

/// An `i32` as `str::parse` reads it: an optional sign, then digits.
pub open spec fn parse_signed(s: Seq<u8>) -> Option<int> {
    if s.len() > 0 && s[0] == 45 {
        match magnitude(s.drop_first()) {
            Some(v) => if v <= 2147483648 {
                Some(-v)
            } else {
                None
            },
            None => None,
        }
    } else {
        parse_unsigned(s, 2147483647)
    }
}

/// A line as a record: its first six words read as the six fields; `None`
/// when there are fewer words or one of them does not read.
pub open spec fn parse_record(line: Seq<u8>) -> Option<Record> {
    let t = tokens_from(line, 0);
    if t.len() < 6 {
        None
    } else {
        let a = parse_unsigned(t[0], u32::MAX as int);
        let b = parse_unsigned(t[1], u32::MAX as int);
        let c = parse_unsigned(t[2], u128::MAX as int);
        let d = parse_unsigned(t[3], u128::MAX as int);
        let e = parse_unsigned(t[4], u8::MAX as int);
        let f = parse_signed(t[5]);
        if a is Some && b is Some && c is Some && d is Some && e is Some && f is Some {
            Some(
                (
                    a->0 as u32,
                    b->0 as u32,
                    c->0 as u128,
                    d->0 as u128,
                    e->0 as u8,
                    f->0 as i32,
                ),
            )
        } else {
            None
        }
    }
}

/// The records of all lines of a text, or `None` when a line does not read.
pub open spec fn parse_text(s: Seq<u8>) -> Option<Seq<Record>> {
    let ls = lines_from(s, 0);
    if forall|k: int| 0 <= k < ls.len() ==> (#[trigger] parse_record(ls[k])) is Some {
        Some(Seq::new(ls.len(), |k: int| parse_record(ls[k])->0))
    } else {
        None
    }
}

proof fn lemma_digits_nonneg(s: Seq<u8>)
    requires
        forall|i: int| 0 <= i < s.len() ==> is_digit(#[trigger] s[i]),
    ensures
        digits_value(s) >= 0,
    decreases s.len(),
{
    if s.len() > 0 {
        lemma_digits_nonneg(s.drop_last());
    }
}

/// A prefix of a string of digits is worth no more than the whole string.
proof fn lemma_digits_prefix(s: Seq<u8>, n: int)
    requires
        0 <= n <= s.len(),
        forall|i: int| 0 <= i < s.len() ==> is_digit(#[trigger] s[i]),
    ensures
        digits_value(s.take(n)) <= digits_value(s),
    decreases s.len(),
{
    if n < s.len() {
        let p = s.drop_last();
        lemma_digits_prefix(p, n);
        lemma_digits_nonneg(p);
        assert(p.take(n) =~= s.take(n));
    } else {
        assert(s.take(n) =~= s);
    }
}

fn is_space_byte(b: u8) -> (r: bool)
    ensures
        r == is_space(b),
{
    b == 32 || b == 9 || b == 10 || b == 12 || b == 13
}

/// Reads `line[a..b]` as a non-empty string of digits worth at most `max`.
fn parse_digits(line: &Vec<u8>, a: usize, b: usize, max: u128) -> (r: Option<u128>)
    requires
        a <= b <= line@.len(),
        max >= 9,
    ensures
        match r {
            Some(x) => magnitude(line@.subrange(a as int, b as int)) == Some(x as int) && x <= max,
            None => magnitude(line@.subrange(a as int, b as int)) is None || magnitude(
                line@.subrange(a as int, b as int),
            )->0 > max,
        },
{
    let ghost s = line@.subrange(a as int, b as int);
    if a == b {
        return None;
    }
    let mut v: u128 = 0;
    let mut k: usize = a;
    while k < b
        invariant
            a <= k <= b <= line@.len(),
            s == line@.subrange(a as int, b as int),
            max >= 9,
            forall|i: int| a <= i < k ==> is_digit(#[trigger] line@[i]),
            v == digits_value(line@.subrange(a as int, k as int)),
            v <= max,
        decreases b - k,
    {
        let c = line[k];
        if c < 48 || c > 57 {
            assert(!is_digit(s[k - a]));
            return None;
        }
        let d = (c - 48) as u128;
        let ghost next = line@.subrange(a as int, k + 1);
        assert(next.drop_last() =~= line@.subrange(a as int, k as int));
        if v > (max - d) / 10 {
            proof {
                assert(v * 10 + d > max) by (nonlinear_arith)
                    requires
                        v > (max - d) / 10,
                        d <= 9,
                        max >= 9,
                ;
                if forall|i: int| 0 <= i < s.len() ==> is_digit(#[trigger] s[i]) {
                    lemma_digits_prefix(s, k + 1 - a);
                    assert(s.take(k + 1 - a) =~= next);
                }
            }
            return None;
        }
        assert(v * 10 + d <= max) by (nonlinear_arith)
            requires
                v <= (max - d) / 10,
                d <= 9,
                max >= 9,
        ;
        v = v * 10 + d;
        k = k + 1;
    }
    assert(s =~= line@.subrange(a as int, k as int));
    proof {
        lemma_digits_nonneg(s);
    }
    Some(v)
}

/// Reads `line[a..b]` as an unsigned number at most `max`, with an optional
/// leading `+`.
fn parse_unsigned_at(line: &Vec<u8>, a: usize, b: usize, max: u128) -> (r: Option<u128>)
    requires
        a <= b <= line@.len(),
        max >= 9,
    ensures
        match r {
            Some(x) => parse_unsigned(line@.subrange(a as int, b as int), max as int) == Some(x as int),
            None => parse_unsigned(line@.subrange(a as int, b as int), max as int) is None,
        },
{
    let ghost s = line@.subrange(a as int, b as int);
    if a < b && line[a] == 43 {
        assert(s.drop_first() =~= line@.subrange(a + 1, b as int));
        parse_digits(line, a + 1, b, max)
    } else {
        parse_digits(line, a, b, max)
    }
}

/// Reads `line[a..b]` as an `i32`, with an optional sign.
fn parse_signed_at(line: &Vec<u8>, a: usize, b: usize) -> (r: Option<i32>)
    requires
        a <= b <= line@.len(),
    ensures
        match r {
            Some(x) => parse_signed(line@.subrange(a as int, b as int)) == Some(x as int),
            None => parse_signed(line@.subrange(a as int, b as int)) is None,
        },
{
    let ghost s = line@.subrange(a as int, b as int);
    if a < b && line[a] == 45 {
        assert(s.drop_first() =~= line@.subrange(a + 1, b as int));
        match parse_digits(line, a + 1, b, 2147483648) {
            Some(v) => {
                assert(v <= 2147483648);
                let w = v as i64;
                Some((-w) as i32)
            },
            None => None,
        }
    } else {
        match parse_unsigned_at(line, a, b, 2147483647) {
            Some(v) => Some(v as i32),
            None => None,
        }
    }
}

/// The next word of `line` from `pos` on, as its start and end; the start
/// is the length of the line when there is none.
fn next_token(line: &Vec<u8>, pos: usize) -> (r: (usize, usize))
    requires
        pos <= line@.len(),
    ensures
        pos <= r.0 <= r.1 <= line@.len(),
        r.0 == line@.len() ==> tokens_from(line@, pos as int) == Seq::<Seq<u8>>::empty(),
        r.0 < line@.len() ==> r.0 < r.1 && tokens_from(line@, pos as int) == seq![
            line@.subrange(r.0 as int, r.1 as int),
        ] + tokens_from(line@, r.1 as int),
{
    let ghost s = line@;
    let mut i = pos;
    while i < line.len() && is_space_byte(line[i])
        invariant
            pos <= i <= line@.len(),
            s == line@,
            tokens_from(s, pos as int) == tokens_from(s, i as int),
        decreases line@.len() - i,
    {
        i = i + 1;
    }
    if i == line.len() {
        return (i, i);
    }
    let mut j = i;
    while j < line.len() && !is_space_byte(line[j])
        invariant
            i <= j <= line@.len(),
            s == line@,
            token_end(s, i as int) == token_end(s, j as int),
        decreases line@.len() - j,
    {
        j = j + 1;
    }
    proof {
        lemma_token_end(s, i as int);
    }
    (i, j)
}

/// Reads one line as a record, as `parse_record` says.
fn parse_line(line: &Vec<u8>) -> (r: Option<Record>)
    ensures
        r == parse_record(line@),
{
    let ghost s = line@;
    let mut starts: Vec<usize> = Vec::new();
    let mut ends: Vec<usize> = Vec::new();
    let mut pos: usize = 0;
    let ghost mut prefix: Seq<Seq<u8>> = Seq::empty();
    assert(tokens_from(s, 0) =~= prefix + tokens_from(s, 0));
    while starts.len() < 6
        invariant
            s == line@,
            pos <= line@.len(),
            starts@.len() <= 6,
            starts@.len() == ends@.len(),
            prefix.len() == starts@.len(),
            tokens_from(s, 0) == prefix + tokens_from(s, pos as int),
            forall|k: int|
                0 <= k < starts@.len() ==> starts@[k] <= ends@[k] <= line@.len() && #[trigger] prefix[k]
                    == s.subrange(starts@[k] as int, ends@[k] as int),
        decreases 6 - starts@.len(),
    {
        let (a, b) = next_token(line, pos);
        if a == line.len() {
            assert(tokens_from(s, 0) =~= prefix);
            return None;
        }
        proof {
            assert(prefix.push(s.subrange(a as int, b as int)) + tokens_from(s, b as int) =~= prefix + (seq![
                s.subrange(a as int, b as int),
            ] + tokens_from(s, b as int)));
            prefix = prefix.push(s.subrange(a as int, b as int));
        }
        starts.push(a);
        ends.push(b);
        pos = b;
    }
    let ghost t = tokens_from(s, 0);
    assert(forall|k: int| 0 <= k < 6 ==> #[trigger] t[k] == prefix[k]);
    let f0 = parse_unsigned_at(line, starts[0], ends[0], 4294967295);
    let f1 = parse_unsigned_at(line, starts[1], ends[1], 4294967295);
    let f2 = parse_unsigned_at(line, starts[2], ends[2], 340282366920938463463374607431768211455);
    let f3 = parse_unsigned_at(line, starts[3], ends[3], 340282366920938463463374607431768211455);
    let f4 = parse_unsigned_at(line, starts[4], ends[4], 255);
    let f5 = parse_signed_at(line, starts[5], ends[5]);
    proof {
        assert(t[0] == s.subrange(starts@[0] as int, ends@[0] as int));
        assert(t[1] == s.subrange(starts@[1] as int, ends@[1] as int));
        assert(t[2] == s.subrange(starts@[2] as int, ends@[2] as int));
        assert(t[3] == s.subrange(starts@[3] as int, ends@[3] as int));
        assert(t[4] == s.subrange(starts@[4] as int, ends@[4] as int));
        assert(t[5] == s.subrange(starts@[5] as int, ends@[5] as int));
    }
    match (f0, f1, f2, f3, f4, f5) {
        (Some(a), Some(b), Some(c), Some(d), Some(e), Some(f)) => Some((a as u32, b as u32, c, d, e as u8, f)),
        _ => None,
    }
}

/// Reads saved positions: one record per line of the text (lines cut at
/// each line feed), each line holding at least six words: two `u32`, two
/// `u128`, a `u8` and an `i32`. `None` when a line does not read.
pub fn parse_positions(text: &[u8]) -> (r: Option<Vec<Record>>)
    ensures
        match r {
            Some(v) => parse_text(text@) == Some(v@),
            None => parse_text(text@) is None,
        },
{
    let ghost s = text@;
    let mut out: Vec<Record> = Vec::new();
    let mut i: usize = 0;
    let ghost mut done: Seq<Seq<u8>> = Seq::empty();
    assert(lines_from(s, 0) =~= done + lines_from(s, 0));
    loop
        invariant
            s == text@,
            i <= text@.len(),
            lines_from(s, 0) == done + lines_from(s, i as int),
            out@.len() == done.len(),
            forall|k: int| 0 <= k < done.len() ==> parse_record(#[trigger] done[k]) == Some(out@[k]),
        decreases text@.len() + 1 - i,
    {
        let mut e = i;
        while e < text.len() && text[e] != 10
            invariant
                i <= e <= text@.len(),
                s == text@,
                line_end(s, i as int) == line_end(s, e as int),
            decreases text@.len() - e,
        {
            e = e + 1;
        }
        proof {
            lemma_line_end(s, i as int);
        }
        let mut line: Vec<u8> = Vec::new();
        let mut k = i;
        while k < e
            invariant
                i <= k <= e <= text@.len(),
                s == text@,
                line@ == s.subrange(i as int, k as int),
            decreases e - k,
        {
            line.push(text[k]);
            k = k + 1;
        }
        let ghost ls = lines_from(s, i as int);
        assert(ls[0] == line@);
        match parse_line(&line) {
            None => {
                proof {
                    let all = lines_from(s, 0);
                    assert(all[done.len() as int] == ls[0]);
                }
                return None;
            },
            Some(rec) => {
                out.push(rec);
            },
        }
        proof {
            if e < s.len() {
                assert(done.push(line@) + lines_from(s, e + 1) =~= done + ls);
            } else {
                assert(done.push(line@) =~= done + ls);
            }
            done = done.push(line@);
        }
        if e == text.len() {
            proof {
                let all = lines_from(s, 0);
                assert(all =~= done);
                assert(Seq::new(all.len(), |k: int| parse_record(all[k])->0) =~= out@);
            }
            return Some(out);
        }
        i = e + 1;
    }
}

} // verus!
