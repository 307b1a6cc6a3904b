//! Values of SSB fields: timestamps, flags, alpha and color values, and optional texts.
use vstd::prelude::*;

verus! {

/// `y` reads as `true`, `n` as `false`.
pub open spec fn bool_value(text: Seq<char>) -> Option<bool> {
    if text == seq!['y'] {
        Some(true)
    } else if text == seq!['n'] {
        Some(false)
    } else {
        None
    }
}

/// Reads an SSB boolean flag.
pub fn bool_from_str(text: &str) -> (res: Result<bool, ()>)
    ensures
        res is Ok <==> bool_value(text@) is Some,
        res matches Ok(b) ==> bool_value(text@) == Some(b),
{
    if text.unicode_len() == 1 {
        let c = text.get_char(0);
        if c == 'y' {
            assert(text@ =~= seq!['y']);
            return Ok(true);
        } else if c == 'n' {
            assert(text@ =~= seq!['n']);
            return Ok(false);
        }
    }
    Err(())
}

/// Milliseconds in a second, a minute and an hour.
pub const MS_PER_SECOND: u32 = 1000;
pub const MS_PER_MINUTE: u32 = 60000;
pub const MS_PER_HOUR: u32 = 3600000;

pub open spec fn is_ascii_digit(c: char) -> bool {
    '0' <= c && c <= '9'
}

/// A character that ends a field of a timestamp: `:` after hours and minutes, `.` after
/// seconds.
pub open spec fn is_time_separator(c: char) -> bool {
    c == ':' || c == '.'
}

/// The number that the ASCII digits `s` write in decimal (0 for none).
pub open spec fn digits_value(s: Seq<char>) -> int
    decreases s.len(),
{
    if s.len() == 0 {
        0
    } else {
        digits_value(s.drop_last()) * 10 + (s.last() as int - '0' as int)
    }
}

/// The runs of characters of `s` between time separators, in order, empty runs included.
pub open spec fn time_fields(s: Seq<char>) -> Seq<Seq<char>>
    decreases s.len(),
{
    if s.len() == 0 {
        seq![Seq::<char>::empty()]
    } else {
        let f = time_fields(s.drop_last());
        if is_time_separator(s.last()) {
            f.push(Seq::<char>::empty())
        } else {
            f.update(f.len() - 1, f.last().push(s.last()))
        }
    }
}

/// The time separators of `s`, in order.
pub open spec fn time_separators(s: Seq<char>) -> Seq<char>
    decreases s.len(),
{
    if s.len() == 0 {
        Seq::<char>::empty()
    } else if is_time_separator(s.last()) {
        time_separators(s.drop_last()).push(s.last())
    } else {
        time_separators(s.drop_last())
    }
}

/// The milliseconds that an SSB timestamp `[H:M: | M:][S.]MS` stands for: hours, minutes
/// and seconds of at most two digits, milliseconds of at most three, any of them possibly
/// empty (then 0); `None` for any other text.
pub open spec fn timestamp_ms(s: Seq<char>) -> Option<int> {
    let f = time_fields(s);
    let p = time_separators(s);
    let v = |k: int| digits_value(f[k]);
    if !(forall|i: int| 0 <= i < s.len() ==> is_ascii_digit(s[i]) || is_time_separator(s[i])) {
        None
    } else if p == Seq::<char>::empty() && f[0].len() <= 3 {
        Some(v(0))
    } else if p == seq!['.'] && f[0].len() <= 2 && f[1].len() <= 3 {
        Some(v(0) * 1000 + v(1))
    } else if p == seq![':'] && f[0].len() <= 2 && f[1].len() <= 3 {
        Some(v(0) * 60000 + v(1))
    } else if p == seq![':', '.'] && f[0].len() <= 2 && f[1].len() <= 2 && f[2].len() <= 3 {
        Some(v(0) * 60000 + v(1) * 1000 + v(2))
    } else if p == seq![':', ':'] && f[0].len() <= 2 && f[1].len() <= 2 && f[2].len() <= 3 {
        Some(v(0) * 3600000 + v(1) * 60000 + v(2))
    } else if p == seq![':', ':', '.'] && f[0].len() <= 2 && f[1].len() <= 2 && f[2].len() <= 2
        && f[3].len() <= 3 {
        Some(v(0) * 3600000 + v(1) * 60000 + v(2) * 1000 + v(3))
    } else {
        None
    }
}

proof fn lemma_time_fields_len(s: Seq<char>)
    ensures
        time_fields(s).len() == time_separators(s).len() + 1,
    decreases s.len(),
{
    if s.len() > 0 {
        lemma_time_fields_len(s.drop_last());
    }
}

proof fn lemma_digits_bound(s: Seq<char>)
    requires
        forall|i: int| 0 <= i < s.len() ==> is_ascii_digit(s[i]),
    ensures
        0 <= digits_value(s),
        s.len() == 0 ==> digits_value(s) == 0,
        s.len() <= 1 ==> digits_value(s) < 10,
        s.len() <= 3 ==> digits_value(s) < 1000,
        s.len() <= 2 ==> digits_value(s) < 100,
    decreases s.len(),
{
    if s.len() > 0 {
        lemma_digits_bound(s.drop_last());
    }
}

/// The value of at most three decimal digits, written out digit by digit.
pub open spec fn up_to_three_digits(d: Seq<char>) -> int {
    let v = |i: int| d[i] as int - '0' as int;
    if d.len() == 0 {
        0
    } else if d.len() == 1 {
        v(0)
    } else if d.len() == 2 {
        10 * v(0) + v(1)
    } else {
        100 * v(0) + 10 * v(1) + v(2)
    }
}

/// `d` is at most `n` of the decimal digits `0` to `9`.
pub open spec fn decimal_digits(d: Seq<char>, n: nat) -> bool {
    d.len() <= n && forall|i: int| 0 <= i < d.len() ==> '0' <= #[trigger] d[i] <= '9'
}

proof fn lemma_up_to_three(d: Seq<char>)
    requires
        decimal_digits(d, 3),
    ensures
        digits_value(d) == up_to_three_digits(d),
{
    reveal_with_fuel(digits_value, 4);
    if d.len() >= 1 {
        let d1 = d.drop_last();
        if d.len() >= 2 {
            let d2 = d1.drop_last();
            if d.len() == 3 {
                assert(d2.drop_last() =~= Seq::<char>::empty());
                assert(d2.last() == d[0] && d1.last() == d[1] && d.last() == d[2]);
            } else {
                assert(d2 =~= Seq::<char>::empty());
                assert(d1.last() == d[0] && d.last() == d[1]);
            }
        } else {
            assert(d1 =~= Seq::<char>::empty());
        }
    }
}

proof fn lemma_fields_of_digits(x: Seq<char>)
    requires
        forall|i: int| 0 <= i < x.len() ==> !is_time_separator(#[trigger] x[i]),
    ensures
        time_fields(x) == seq![x],
        time_separators(x) == Seq::<char>::empty(),
    decreases x.len(),
{
    if x.len() > 0 {
        lemma_fields_of_digits(x.drop_last());
        assert(x.drop_last().push(x.last()) =~= x);
        assert(seq![x.drop_last()].update(0, x.drop_last().push(x.last())) =~= seq![x]);
    } else {
        assert(x =~= Seq::<char>::empty());
    }
}

proof fn lemma_fields_append_digits(x: Seq<char>, y: Seq<char>)
    requires
        forall|i: int| 0 <= i < y.len() ==> !is_time_separator(#[trigger] y[i]),
    ensures
        time_fields(x + y) == time_fields(x).update(time_fields(x).len() - 1, time_fields(x).last() + y),
        time_separators(x + y) == time_separators(x),
    decreases y.len(),
{
    lemma_time_fields_len(x);
    if y.len() == 0 {
        assert(x + y =~= x);
        assert(time_fields(x).last() + y =~= time_fields(x).last());
        assert(time_fields(x).update(time_fields(x).len() - 1, time_fields(x).last()) =~= time_fields(x));
    } else {
        let y1 = y.drop_last();
        lemma_fields_append_digits(x, y1);
        assert((x + y).drop_last() =~= x + y1);
        assert((x + y).last() == y.last());
        let f = time_fields(x);
        assert((f.last() + y1).push(y.last()) =~= f.last() + y);
        assert(f.update(f.len() - 1, f.last() + y1).update(f.len() - 1, f.last() + y)
            =~= f.update(f.len() - 1, f.last() + y));
    }
}

proof fn lemma_fields_append_separator(x: Seq<char>, c: char)
    requires
        is_time_separator(c),
    ensures
        time_fields(x + seq![c]) == time_fields(x).push(Seq::<char>::empty()),
        time_separators(x + seq![c]) == time_separators(x).push(c),
{
    assert((x + seq![c]).drop_last() =~= x);
}

proof fn lemma_digits_no_separator(d: Seq<char>, n: nat)
    requires
        decimal_digits(d, n),
    ensures
        forall|i: int| 0 <= i < d.len() ==> !is_time_separator(#[trigger] d[i]),
        forall|i: int| 0 <= i < d.len() ==> is_ascii_digit(#[trigger] d[i]),
{
    assert forall|i: int| 0 <= i < d.len() implies !is_time_separator(#[trigger] d[i]) && is_ascii_digit(d[i]) by {
        assert('0' <= d[i] <= '9');
    }
}

/// Law: a timestamp of decimal digits `0` to `9` in any of its forms reads as the sum of its
/// parts: `MS`, `S.MS`, `M:MS`, `M:S.MS`, `H:M:MS` and `H:M:S.MS` give
/// `3600000 * H + 60000 * M + 1000 * S + MS`, hours, minutes and seconds being at most two
/// digits and milliseconds at most three, any of them possibly empty (then 0).
pub proof fn law_timestamp_forms(h: Seq<char>, m: Seq<char>, sec: Seq<char>, ms: Seq<char>)
    requires
        decimal_digits(h, 2),
        decimal_digits(m, 2),
        decimal_digits(sec, 2),
        decimal_digits(ms, 3),
    ensures
        timestamp_ms(ms) == Some(up_to_three_digits(ms)),
        timestamp_ms(sec + seq!['.'] + ms) == Some(1000 * up_to_three_digits(sec) + up_to_three_digits(ms)),
        timestamp_ms(m + seq![':'] + ms) == Some(60000 * up_to_three_digits(m) + up_to_three_digits(ms)),
        timestamp_ms(m + seq![':'] + sec + seq!['.'] + ms) == Some(
            60000 * up_to_three_digits(m) + 1000 * up_to_three_digits(sec) + up_to_three_digits(ms),
        ),
        timestamp_ms(h + seq![':'] + m + seq![':'] + ms) == Some(
            3600000 * up_to_three_digits(h) + 60000 * up_to_three_digits(m) + up_to_three_digits(ms),
        ),
        timestamp_ms(h + seq![':'] + m + seq![':'] + sec + seq!['.'] + ms) == Some(
            3600000 * up_to_three_digits(h) + 60000 * up_to_three_digits(m) + 1000 * up_to_three_digits(sec)
                + up_to_three_digits(ms),
        ),
{
    lemma_digits_no_separator(h, 2);
    lemma_digits_no_separator(m, 2);
    lemma_digits_no_separator(sec, 2);
    lemma_digits_no_separator(ms, 3);
    lemma_up_to_three(h);
    lemma_up_to_three(m);
    lemma_up_to_three(sec);
    lemma_up_to_three(ms);
    let e = Seq::<char>::empty();
    // MS
    lemma_fields_of_digits(ms);
    // S.MS
    lemma_fields_of_digits(sec);
    lemma_fields_append_separator(sec, '.');
    lemma_fields_append_digits(sec + seq!['.'], ms);
    assert(time_fields(sec + seq!['.'] + ms) =~= seq![sec, e + ms]);
    assert(e + ms =~= ms);
    // M:MS and M:S.MS
    lemma_fields_of_digits(m);
    lemma_fields_append_separator(m, ':');
    lemma_fields_append_digits(m + seq![':'], ms);
    assert(time_fields(m + seq![':'] + ms) =~= seq![m, ms]);
    lemma_fields_append_digits(m + seq![':'], sec);
    let ms1 = m + seq![':'] + sec;
    assert(time_fields(ms1) =~= seq![m, sec]);
    lemma_fields_append_separator(ms1, '.');
    lemma_fields_append_digits(ms1 + seq!['.'], ms);
    assert(time_fields(ms1 + seq!['.'] + ms) =~= seq![m, sec, ms]);
    // H:M:MS and H:M:S.MS
    lemma_fields_of_digits(h);
    lemma_fields_append_separator(h, ':');
    lemma_fields_append_digits(h + seq![':'], m);
    let hm = h + seq![':'] + m;
    assert(time_fields(hm) =~= seq![h, m]);
    lemma_fields_append_separator(hm, ':');
    lemma_fields_append_digits(hm + seq![':'], ms);
    assert(time_fields(hm + seq![':'] + ms) =~= seq![h, m, ms]);
    lemma_fields_append_digits(hm + seq![':'], sec);
    let hms = hm + seq![':'] + sec;
    assert(time_fields(hms) =~= seq![h, m, sec]);
    lemma_fields_append_separator(hms, '.');
    lemma_fields_append_digits(hms + seq!['.'], ms);
    assert(time_fields(hms + seq!['.'] + ms) =~= seq![h, m, sec, ms]);
    assert(time_separators(sec + seq!['.'] + ms) =~= seq!['.']);
    assert(time_separators(m + seq![':'] + ms) =~= seq![':']);
    assert(time_separators(ms1 + seq!['.'] + ms) =~= seq![':', '.']);
    assert(time_separators(hm + seq![':'] + ms) =~= seq![':', ':']);
    assert(time_separators(hms + seq!['.'] + ms) =~= seq![':', ':', '.']);
    lemma_valid_concat(sec, seq!['.'], ms);
    lemma_valid_concat(m, seq![':'], ms);
    lemma_valid_concat(m, seq![':'], sec);
    lemma_valid_concat(ms1, seq!['.'], ms);
    lemma_valid_concat(h, seq![':'], m);
    lemma_valid_concat(hm, seq![':'], ms);
    lemma_valid_concat(hm, seq![':'], sec);
    lemma_valid_concat(hms, seq!['.'], ms);
}

pub open spec fn time_chars(s: Seq<char>) -> bool {
    forall|i: int| 0 <= i < s.len() ==> is_ascii_digit(#[trigger] s[i]) || is_time_separator(s[i])
}

proof fn lemma_valid_concat(a: Seq<char>, b: Seq<char>, c: Seq<char>)
    requires
        time_chars(a),
        time_chars(b),
        time_chars(c),
    ensures
        time_chars(a + b + c),
{
    let s = a + b + c;
    assert forall|i: int| 0 <= i < s.len() implies is_ascii_digit(#[trigger] s[i]) || is_time_separator(s[i]) by {
        if i < a.len() {
            assert(s[i] == a[i]);
        } else if i < a.len() + b.len() {
            assert(s[i] == b[i - a.len()]);
        } else {
            assert(s[i] == c[i - a.len() - b.len()]);
        }
    }
}

/// Parses an SSB timestamp `[H:M: | M:][S.]MS` into milliseconds.
pub fn parse_timestamp(timestamp: &str) -> (res: Result<u32, ()>)
    ensures
        match timestamp_ms(timestamp@) {
            Some(ms) => res == Ok::<u32, ()>(ms as u32) && ms <= u32::MAX,
            None => res is Err,
        },
{
    let chars = crate::text::chars_of(timestamp);
    let n = chars.len();
    // Completed fields as (value, length); the value is kept while the length is at most 3.
    let mut fields: Vec<(u32, usize)> = Vec::new();
    let mut seps: Vec<char> = Vec::new();
    let mut cur_value: u32 = 0;
    let mut cur_len: usize = 0;
    let mut i: usize = 0;
    while i < n
        invariant
            n == chars@.len(),
            chars@ == timestamp@,
            i <= n,
            forall|k: int| 0 <= k < i ==> is_ascii_digit(chars@[k]) || is_time_separator(chars@[k]),
            seps@ == time_separators(chars@.take(i as int)),
            fields@.len() + 1 == time_fields(chars@.take(i as int)).len(),
            forall|k: int| 0 <= k < fields@.len() ==> {
                let f = #[trigger] time_fields(chars@.take(i as int))[k];
                &&& fields@[k].1 == f.len()
                &&& f.len() <= 3 ==> fields@[k].0 == digits_value(f)
                &&& forall|j: int| 0 <= j < f.len() ==> is_ascii_digit(f[j])
            },
            ({
                let f = time_fields(chars@.take(i as int)).last();
                &&& cur_len == f.len()
                &&& cur_len <= i
                &&& f.len() <= 3 ==> cur_value == digits_value(f)
                &&& forall|j: int| 0 <= j < f.len() ==> is_ascii_digit(f[j])
            }),
        decreases n - i,
    {
        let c = chars[i];
        let ghost pre = chars@.take(i as int);
        let ghost next = chars@.take(i + 1);
        assert(next.drop_last() =~= pre);
        assert(next.last() == c);
        if c == ':' || c == '.' {
            fields.push((cur_value, cur_len));
            seps.push(c);
            cur_value = 0;
            cur_len = 0;
        } else if '0' <= c && c <= '9' {
            if cur_len < 3 {
                proof {
                    lemma_digits_bound(time_fields(pre).last());
                }
                cur_value = cur_value * 10 + (c as u32 - '0' as u32);
            }
            cur_len = cur_len + 1;
        } else {
            return Err(());
        }
        i = i + 1;
        proof {
            let fp = time_fields(pre);
            let fnx = time_fields(next);
            assert forall|k: int| 0 <= k < fields@.len() implies {
                let f = #[trigger] time_fields(chars@.take(i as int))[k];
                &&& fields@[k].1 == f.len()
                &&& f.len() <= 3 ==> fields@[k].0 == digits_value(f)
                &&& forall|j: int| 0 <= j < f.len() ==> is_ascii_digit(f[j])
            } by {
                assert(fp[k] == fnx[k] || k == fp.len() - 1);
            }
            let fl = fnx.last();
            if !(c == ':' || c == '.') {
                assert(fl.drop_last() =~= fp.last());
            }
        }
    }
    fields.push((cur_value, cur_len));
    assert(chars@.take(n as int) =~= chars@);
    let ghost f = time_fields(chars@);
    proof {
        lemma_time_fields_len(chars@);
        assert forall|k: int| 0 <= k < fields@.len() implies {
            &&& fields@[k].1 == f[k].len()
            &&& f[k].len() <= 3 ==> fields@[k].0 == digits_value(f[k])
        } by {
            assert(f[k] == time_fields(chars@.take(n as int))[k]);
        }
        assert forall|k: int| 0 <= k < fields@.len() implies
            (fields@[k].1 <= 2 ==> fields@[k].0 < 100) && (fields@[k].1 <= 3 ==> fields@[k].0 < 1000) by {
            assert(f[k] == time_fields(chars@.take(n as int))[k]);
            lemma_digits_bound(f[k]);
        }
    }
    let nsep = seps.len();
    assert(fields@.len() == f.len());
    assert(seps@ == time_separators(chars@));
    assert(forall|k: int| 0 <= k < chars@.len() ==> is_ascii_digit(chars@[k]) || is_time_separator(chars@[k]));
    if nsep == 0 {
        assert(seps@ =~= Seq::<char>::empty());
        if fields[0].1 <= 3 {
            return Ok(fields[0].0);
        }
    } else if nsep == 1 {
        if seps[0] == '.' && fields[0].1 <= 2 && fields[1].1 <= 3 {
            assert(seps@ =~= seq!['.']);
            return Ok(fields[0].0 * MS_PER_SECOND + fields[1].0);
        }
        if seps[0] == ':' && fields[0].1 <= 2 && fields[1].1 <= 3 {
            assert(seps@ =~= seq![':']);
            return Ok(fields[0].0 * MS_PER_MINUTE + fields[1].0);
        }
    } else if nsep == 2 {
        if seps[0] == ':' && seps[1] == '.' && fields[0].1 <= 2 && fields[1].1 <= 2 && fields[2].1 <= 3 {
            assert(seps@ =~= seq![':', '.']);
            return Ok(fields[0].0 * MS_PER_MINUTE + fields[1].0 * MS_PER_SECOND + fields[2].0);
        }
        if seps[0] == ':' && seps[1] == ':' && fields[0].1 <= 2 && fields[1].1 <= 2 && fields[2].1 <= 3 {
            assert(seps@ =~= seq![':', ':']);
            return Ok(fields[0].0 * MS_PER_HOUR + fields[1].0 * MS_PER_MINUTE + fields[2].0);
        }
    } else if nsep == 3 {
        if seps[0] == ':' && seps[1] == ':' && seps[2] == '.' && fields[0].1 <= 2 && fields[1].1 <= 2
            && fields[2].1 <= 2 && fields[3].1 <= 3 {
            assert(seps@ =~= seq![':', ':', '.']);
            return Ok(fields[0].0 * MS_PER_HOUR + fields[1].0 * MS_PER_MINUTE + fields[2].0 * MS_PER_SECOND
                + fields[3].0);
        }
    }
    Err(())
}

/// The value of a hexadecimal digit, either case.
pub open spec fn hex_digit_value(c: char) -> int {
    if '0' <= c && c <= '9' {
        c as int - '0' as int
    } else if 'a' <= c && c <= 'f' {
        c as int - 'a' as int + 10
    } else {
        c as int - 'A' as int + 10
    }
}

pub open spec fn is_hex_digit(c: char) -> bool {
    ('0' <= c && c <= '9') || ('a' <= c && c <= 'f') || ('A' <= c && c <= 'F')
}

/// The number that the hexadecimal digits `s` write (0 for none).
pub open spec fn hex_value(s: Seq<char>) -> int
    decreases s.len(),
{
    if s.len() == 0 {
        0
    } else {
        hex_value(s.drop_last()) * 16 + hex_digit_value(s.last())
    }
}

pub open spec fn all_hex_digits(s: Seq<char>) -> bool {
    forall|i: int| 0 <= i < s.len() ==> #[trigger] is_hex_digit(s[i])
}

/// What std's `from_str_radix(s, 16)` reads for an unsigned type wide enough: an optional
/// `+`, then one or more hexadecimal digits.
pub open spec fn radix16_value(s: Seq<char>) -> Option<int> {
    let digits = if s.len() > 0 && s[0] == '+' { s.drop_first() } else { s };
    if digits.len() > 0 && all_hex_digits(digits) {
        Some(hex_value(digits))
    } else {
        None
    }
}

/// An SSB alpha value: one or two hexadecimal digits (an optional `+` counted).
pub open spec fn alpha_value(text: Seq<char>) -> Option<int> {
    if 1 <= text.len() <= 2 { radix16_value(text) } else { None }
}

/// An SSB color: one to six hexadecimal digits (an optional `+` counted).
pub open spec fn rgb_value(text: Seq<char>) -> Option<int> {
    if 1 <= text.len() <= 6 { radix16_value(text) } else { None }
}

/// The red, green and blue bytes of a color value, most significant first.
pub open spec fn rgb_bytes(v: int) -> Seq<u8> {
    seq![(v / 65536 % 256) as u8, (v / 256 % 256) as u8, (v % 256) as u8]
}

pub open spec fn pow16(n: nat) -> int
    decreases n,
{
    if n == 0 { 1 } else { pow16((n - 1) as nat) * 16 }
}

proof fn lemma_hex_value_bound(s: Seq<char>)
    requires
        forall|i: int| 0 <= i < s.len() ==> is_hex_digit(s[i]),
    ensures
        0 <= hex_value(s) < pow16(s.len()),
    decreases s.len(),
{
    if s.len() > 0 {
        lemma_hex_value_bound(s.drop_last());
    }
}

fn hex_digit(c: char) -> (r: Option<u32>)
    ensures
        match r {
            Some(d) => is_hex_digit(c) && d == hex_digit_value(c),
            None => !is_hex_digit(c),
        },
{
    if '0' <= c && c <= '9' {
        Some(c as u32 - '0' as u32)
    } else if 'a' <= c && c <= 'f' {
        Some(c as u32 - 'a' as u32 + 10)
    } else if 'A' <= c && c <= 'F' {
        Some(c as u32 - 'A' as u32 + 10)
    } else {
        None
    }
}

/// Reads `text` as `from_str_radix(text, 16)` does, for texts of at most six characters.
fn radix16_from_str(text: &str) -> (r: Option<u32>)
    requires
        text@.len() <= 6,
    ensures
        match r {
            Some(v) => radix16_value(text@) == Some(v as int) && v < pow16(text@.len()),
            None => radix16_value(text@) is None,
        },
{
    let chars = crate::text::chars_of(text);
    let n = chars.len();
    let mut i: usize = 0;
    if n > 0 && chars[0] == '+' {
        i = 1;
    }
    let ghost digits = if chars@.len() > 0 && chars@[0] == '+' { chars@.drop_first() } else { chars@ };
    assert(digits =~= chars@.subrange(i as int, n as int));
    if i == n {
        return None;
    }
    let start = i;
    let mut v: u32 = 0;
    while i < n
        invariant
            n == chars@.len(),
            n <= 6,
            start <= i <= n,
            forall|k: int| start <= k < i ==> is_hex_digit(chars@[k]),
            v == hex_value(chars@.subrange(start as int, i as int)),
            v < pow16((i - start) as nat),
            digits == chars@.subrange(start as int, n as int),
            chars@ == text@,
            digits == (if text@.len() > 0 && text@[0] == '+' { text@.drop_first() } else { text@ }),
        decreases n - i,
    {
        let ghost prev = chars@.subrange(start as int, i as int);
        let ghost next = chars@.subrange(start as int, i + 1);
        assert(next.drop_last() =~= prev);
        match hex_digit(chars[i]) {
            Some(d) => {
                proof {
                    lemma_pow16_mono((i - start) as nat, 5);
                    reveal_with_fuel(pow16, 6);
                    assert(pow16(5) == 0x100000);
                }
                v = v * 16 + d;
            },
            None => {
                assert(digits[i - start] == chars@[i as int]);
                return None;
            },
        }
        i = i + 1;
    }
    assert(chars@.subrange(start as int, n as int) =~= digits);
    proof {
        lemma_pow16_mono((n - start) as nat, n as nat);
    }
    Some(v)
}

proof fn lemma_pow16_mono(a: nat, b: nat)
    requires
        a <= b,
    ensures
        1 <= pow16(a) <= pow16(b),
    decreases b,
{
    if b > a {
        lemma_pow16_mono(a, (b - 1) as nat);
    } else if a > 0 {
        lemma_pow16_mono((a - 1) as nat, (a - 1) as nat);
    }
}

/// Reads an SSB alpha value: one or two hexadecimal digits.
pub fn alpha_from_str(text: &str) -> (res: Result<u8, ()>)
    ensures
        match alpha_value(text@) {
            Some(v) => res == Ok::<u8, ()>(v as u8) && v < 256,
            None => res is Err,
        },
{
    let n = text.unicode_len();
    if n < 1 || n > 2 {
        return Err(());
    }
    match radix16_from_str(text) {
        Some(v) => {
            reveal_with_fuel(pow16, 3);
            assert(pow16(2) == 256);
            proof {
                lemma_pow16_mono(n as nat, 2);
            }
            Ok(v as u8)
        },
        None => Err(()),
    }
}

/// Reads an SSB color: one to six hexadecimal digits, as red, green and blue bytes.
pub fn rgb_from_str(text: &str) -> (res: Result<[u8; 3], ()>)
    ensures
        match rgb_value(text@) {
            Some(v) => res matches Ok(rgb) && rgb@ == rgb_bytes(v) && v < 0x1000000,
            None => res is Err,
        },
{
    let n = text.unicode_len();
    if n < 1 || n > 6 {
        return Err(());
    }
    match radix16_from_str(text) {
        Some(v) => {
            reveal_with_fuel(pow16, 7);
            assert(pow16(6) == 0x1000000);
            proof {
                lemma_pow16_mono(n as nat, 6);
            }
            let rgb = [(v / 65536 % 256) as u8, (v / 256 % 256) as u8, (v % 256) as u8];
            assert(rgb@ =~= rgb_bytes(v as int));
            Ok(rgb)
        },
        None => Err(()),
    }
}

proof fn lemma_hex_value_concat(a: Seq<char>, b: Seq<char>)
    ensures
        hex_value(a + b) == hex_value(a) * pow16(b.len()) + hex_value(b),
    decreases b.len(),
{
    if b.len() == 0 {
        assert(a + b =~= a);
    } else {
        let b1 = b.drop_last();
        assert((a + b).drop_last() =~= a + b1);
        assert((a + b).last() == b.last());
        lemma_hex_value_concat(a, b1);
        let x = hex_value(a);
        let p = pow16(b1.len());
        assert(x * p * 16 == x * (p * 16)) by (nonlinear_arith);
    }
}

/// Law: a color of six hexadecimal digits `RRGGBB` gives red `RR`, green `GG` and blue `BB`.
pub proof fn law_rgb_channels(text: Seq<char>)
    requires
        text.len() == 6,
        all_hex_digits(text),
    ensures
        rgb_value(text) matches Some(v) && rgb_bytes(v) == seq![
            hex_value(text.subrange(0, 2)) as u8,
            hex_value(text.subrange(2, 4)) as u8,
            hex_value(text.subrange(4, 6)) as u8,
        ],
{
    let r = text.subrange(0, 2);
    let g = text.subrange(2, 4);
    let b = text.subrange(4, 6);
    assert(text[0] != '+') by {
        assert(is_hex_digit(text[0]));
    }
    assert(text =~= (r + g) + b);
    lemma_hex_value_concat(r + g, b);
    lemma_hex_value_concat(r, g);
    reveal_with_fuel(pow16, 3);
    assert(all_hex_digits(r) && all_hex_digits(g) && all_hex_digits(b)) by {
        assert forall|i: int| 0 <= i < 2 implies is_hex_digit(r[i]) && is_hex_digit(g[i]) && is_hex_digit(b[i]) by {
            assert(is_hex_digit(text[i]) && is_hex_digit(text[i + 2]) && is_hex_digit(text[i + 4]));
        }
    }
    lemma_hex_value_bound(r);
    lemma_hex_value_bound(g);
    lemma_hex_value_bound(b);
    let x = hex_value(r);
    let y = hex_value(g);
    let z = hex_value(b);
    let v = hex_value(text);
    assert(v == (x * 256 + y) * 256 + z);
    assert(v / 65536 % 256 == x && v / 256 % 256 == y && v % 256 == z) by (nonlinear_arith)
        requires
            v == (x * 256 + y) * 256 + z,
            0 <= x < 256,
            0 <= y < 256,
            0 <= z < 256,
    ;
}

/// Law: an alpha value reads as a color of the same text does: where the text has one or
/// two characters, `alpha_from_str` gives `v` exactly where `rgb_from_str` gives `[0, 0, v]`.
pub proof fn law_alpha_as_rgb(text: Seq<char>)
    requires
        1 <= text.len() <= 2,
    ensures
        alpha_value(text) == rgb_value(text),
        rgb_value(text) matches Some(v) ==> v < 256 && rgb_bytes(v) == seq![0u8, 0u8, v as u8],
{
    if let Some(v) = radix16_value(text) {
        let digits = if text.len() > 0 && text[0] == '+' { text.drop_first() } else { text };
        lemma_hex_value_bound(digits);
        lemma_pow16_mono(digits.len(), 2);
        reveal_with_fuel(pow16, 3);
        assert(v / 65536 == 0 && v / 256 == 0) by (nonlinear_arith)
            requires 0 <= v < 256;
    }
}

/// Law: any one or two hexadecimal digits, either case, read as an alpha value: one digit
/// `h` as its value, two digits `h1 h2` as `16 * h1 + h2` (so `00` is 0 and `0F` is 15).
pub proof fn law_alpha_hex_digits(text: Seq<char>)
    requires
        1 <= text.len() <= 2,
        forall|i: int| 0 <= i < text.len() ==> ('0' <= #[trigger] text[i] <= '9') || ('a' <= text[i] <= 'f') || (
        'A' <= text[i] <= 'F'),
    ensures
        alpha_value(text) == Some(
            if text.len() == 1 {
                hex_digit_value(text[0])
            } else {
                16 * hex_digit_value(text[0]) + hex_digit_value(text[1])
            },
        ),
{
    assert(text[0] != '+');
    assert(all_hex_digits(text)) by {
        assert forall|i: int| 0 <= i < text.len() implies #[trigger] is_hex_digit(text[i]) by {
            assert(('0' <= text[i] <= '9') || ('a' <= text[i] <= 'f') || ('A' <= text[i] <= 'F'));
        }
    }
    if text.len() == 1 {
        assert(text.drop_last() =~= Seq::<char>::empty());
        assert(hex_value(text) == hex_value(Seq::<char>::empty()) * 16 + hex_digit_value(text[0]));
    } else {
        let first = text.drop_last();
        assert(first.drop_last() =~= Seq::<char>::empty());
        assert(hex_value(first) == hex_value(Seq::<char>::empty()) * 16 + hex_digit_value(text[0]));
    }
}

/// Applies `op` to the text in `option`; where `op` fails, the error is that text, and
/// where there is no text, the error is the empty text.
pub fn map_or_err_str<'a, F, U, E>(option: Option<&'a str>, op: F) -> (r: Result<U, &'a str>) where
    F: FnOnce(&'a str) -> Result<U, E>,

    requires
        option matches Some(text) ==> op.requires((text,)),
    ensures
        option is None ==> (r matches Err(e) && e@ == Seq::<char>::empty()),
        option matches Some(text) ==> exists|x: Result<U, E>|
            #[trigger] op.ensures((text,), x) && match x {
                Ok(u) => r == Ok::<U, &'a str>(u),
                Err(_) => r == Err::<U, &'a str>(text),
            },
{
    match option {
        None => {
            proof {
                reveal_strlit("");
            }
            Err("")
        },
        Some(text) => {
            let x = op(text);
            match x {
                Ok(u) => Ok(u),
                Err(_) => Err(text),
            }
        },
    }
}

/// Applies `op` to the text in `option`; where `op` gives nothing, the error is that text,
/// and where there is no text, the error is the empty text.
pub fn map_else_err_str<'a, F, U>(option: Option<&'a str>, op: F) -> (r: Result<U, &'a str>) where
    F: FnOnce(&'a str) -> Option<U>,

    requires
        option matches Some(text) ==> op.requires((text,)),
    ensures
        option is None ==> (r matches Err(e) && e@ == Seq::<char>::empty()),
        option matches Some(text) ==> exists|x: Option<U>|
            #[trigger] op.ensures((text,), x) && match x {
                Some(u) => r == Ok::<U, &'a str>(u),
                None => r == Err::<U, &'a str>(text),
            },
{
    match option {
        None => {
            proof {
                reveal_strlit("");
            }
            Err("")
        },
        Some(text) => {
            let x = op(text);
            match x {
                Some(u) => Ok(u),
                None => Err(text),
            }
        },
    }
}

} // verus!
