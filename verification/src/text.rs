//! Text building blocks: decimal numbers, durations, truncation, escaping,
//! whitespace trimming and integer parsing.

use vstd::prelude::*;

verus! {

// ---------- characters and strings ----------

/// Appends one character to a string.
///
/// Trusted: std's `String::push` appends `c` to the end of the string.
#[verifier::external_body]
pub(crate) fn push_char(s: &mut String, c: char)
    ensures
        final(s)@ == old(s)@.push(c),
{
    s.push(c);
}

/// Appends every character of `t` to `s`.
pub(crate) fn push_seq(s: &mut String, t: &str)
    ensures
        final(s)@ == old(s)@ + t@,
{
    let len = t.unicode_len();
    let ghost start = s@;
    let mut i: usize = 0;
    while i < len
        invariant
            len == t@.len(),
            i <= len,
            s@ == start + t@.take(i as int),
        decreases len - i,
    {
        let c = t.get_char(i);
        push_char(s, c);
        i = i + 1;
        assert(t@.take(i as int) =~= t@.take(i - 1).push(c));
    }
    assert(t@.take(len as int) =~= t@);
}

/// The character of the decimal digit `d` (0 to 9).
pub open spec fn digit(d: int) -> char {
    (48 + d) as char
}

/// Decimal notation of a natural number, without leading zeros.
pub open spec fn decimal(n: nat) -> Seq<char>
    decreases n,
{
    if n < 10 {
        seq![digit(n as int)]
    } else {
        decimal(n / 10).push(digit((n % 10) as int))
    }
}

/// Decimal notation of an integer, with a leading `-` when negative (`{}`).
pub open spec fn signed_decimal(x: int) -> Seq<char> {
    if x < 0 {
        seq!['-'] + decimal((-x) as nat)
    } else {
        decimal(x as nat)
    }
}

/// `{:02}`: at least two characters, zero-padded after the sign.
pub open spec fn pad2(x: int) -> Seq<char> {
    if 0 <= x < 10 {
        seq!['0', digit(x)]
    } else {
        signed_decimal(x)
    }
}

/// Quotient of integer division rounding toward zero, as Rust's `/` on `i64`.
pub open spec fn tdiv(a: int, b: int) -> int {
    if a >= 0 {
        a / b
    } else {
        -((-a) / b)
    }
}

/// Remainder that goes with `tdiv`, as Rust's `%` on `i64`.
pub open spec fn trem(a: int, b: int) -> int {
    a - b * tdiv(a, b)
}

fn push_decimal(s: &mut String, n: u64)
    ensures
        final(s)@ == old(s)@ + decimal(n as nat),
    decreases n,
{
    let ghost start = s@;
    if n >= 10 {
        push_decimal(s, n / 10);
    }
    let d: u8 = (n % 10) as u8;
    push_char(s, (48u8 + d) as char);
    if n >= 10 {
        assert(s@ =~= start + decimal(n as nat));
    } else {
        assert(s@ =~= start + decimal(n as nat));
    }
}

/// Appends `x` in decimal (`{}`).
pub(crate) fn push_int(s: &mut String, x: i64)
    ensures
        final(s)@ == old(s)@ + signed_decimal(x as int),
{
    let ghost start = s@;
    if x < 0 {
        push_char(s, '-');
        let m: u64 = (0i128 - x as i128) as u64;
        push_decimal(s, m);
        assert(s@ =~= start + signed_decimal(x as int));
    } else {
        push_decimal(s, x as u64);
    }
}

/// Appends `x` as `{:02}` does.
pub(crate) fn push_pad2(s: &mut String, x: i64)
    ensures
        final(s)@ == old(s)@ + pad2(x as int),
{
    let ghost start = s@;
    if 0 <= x && x < 10 {
        push_char(s, '0');
        push_char(s, (48u8 + x as u8) as char);
        assert(s@ =~= start + pad2(x as int));
    } else {
        push_int(s, x);
    }
}

/// Decimal notation of `x`, as `x.to_string()`.
pub fn int_text(x: i64) -> (r: String)
    ensures
        r@ == signed_decimal(x as int),
{
    let mut s = String::new();
    push_int(&mut s, x);
    assert(s@ =~= signed_decimal(x as int));
    s
}

// ---------- durations ----------

/// How `dur` writes a number of seconds: hours and minutes when there is at
/// least an hour, else minutes and seconds.
pub open spec fn dur_text(secs: int) -> Seq<char> {
    let h = tdiv(secs, 3600);
    let m = tdiv(trem(secs, 3600), 60);
    if h > 0 {
        signed_decimal(h) + "시간"@ + pad2(m) + "분"@
    } else {
        signed_decimal(m) + "분"@ + pad2(trem(secs, 60)) + "초"@
    }
}

/// Formats a duration in seconds, e.g. `1시간02분` or `1분35초`.
pub fn dur(secs: i64) -> (r: String)
    ensures
        r@ == dur_text(secs as int),
{
    let h = secs / 3600;
    let m = (secs % 3600) / 60;
    let mut s = String::new();
    if h > 0 {
        push_int(&mut s, h);
        push_seq(&mut s, "시간");
        push_pad2(&mut s, m);
        push_seq(&mut s, "분");
    } else {
        push_int(&mut s, m);
        push_seq(&mut s, "분");
        push_pad2(&mut s, secs % 60);
        push_seq(&mut s, "초");
    }
    assert(s@ =~= dur_text(secs as int));
    s
}

// ---------- truncation ----------

/// `s` cut to at most `n` characters; a cut string ends in `…`.
pub open spec fn trunc_text(s: Seq<char>, n: int) -> Seq<char> {
    if s.len() <= n {
        s
    } else {
        s.take(if n >= 1 { n - 1 } else { 0 }) + seq!['…']
    }
}

/// Cuts `s` to `n` characters (not bytes), marking a cut with `…`.
pub fn trunc(s: &str, n: usize) -> (r: String)
    ensures
        r@ == trunc_text(s@, n as int),
{
    let len = s.unicode_len();
    if len <= n {
        String::from_str(s)
    } else {
        let k: usize = if n >= 1 { n - 1 } else { 0 };
        let mut r = String::from_str(s.substring_char(0, k));
        push_char(&mut r, '…');
        assert(r@ =~= trunc_text(s@, n as int));
        r
    }
}

/// `n` cells of a bar chart, and at least one.
pub open spec fn bar_text(n: int) -> Seq<char> {
    Seq::new(if n >= 1 { n as nat } else { 1 }, |i: int| '█')
}

/// The cells of a bar of `n` cells; a bar is never empty.
pub fn bar_cells(n: usize) -> (r: String)
    ensures
        r@ == bar_text(n as int),
{
    let count: usize = if n >= 1 { n } else { 1 };
    let mut s = String::new();
    let mut i: usize = 0;
    while i < count
        invariant
            i <= count,
            count == (if n >= 1 { n } else { 1 }),
            s@ == Seq::new(i as nat, |k: int| '█'),
        decreases count - i,
    {
        push_char(&mut s, '█');
        i = i + 1;
        assert(s@ =~= Seq::new(i as nat, |k: int| '█'));
    }
    s
}

/// Cutting counts characters: a cut string keeps the first `n - 1` characters
/// and ends in `…`, so it is `n` characters long; an uncut one is unchanged.
pub proof fn lemma_trunc_fits(s: Seq<char>, n: int)
    requires
        n >= 1,
    ensures
        trunc_text(s, n).len() <= n,
        s.len() <= n ==> trunc_text(s, n) == s,
        s.len() > n ==> trunc_text(s, n).len() == n && trunc_text(s, n).take(n - 1) == s.take(n - 1)
            && trunc_text(s, n)[n - 1] == '…',
{
    if s.len() > n {
        assert(trunc_text(s, n).take(n - 1) =~= s.take(n - 1));
    }
}

// ---------- escaping ----------

/// Replaces each character of `s` by its image under `f`.
pub open spec fn map_chars(s: Seq<char>, f: spec_fn(char) -> Seq<char>) -> Seq<char>
    decreases s.len(),
{
    if s.len() == 0 {
        Seq::empty()
    } else {
        map_chars(s.drop_last(), f) + f(s.last())
    }
}

proof fn lemma_map_chars_step(s: Seq<char>, i: int, f: spec_fn(char) -> Seq<char>)
    requires
        0 <= i < s.len(),
    ensures
        map_chars(s.take(i + 1), f) == map_chars(s.take(i), f) + f(s[i]),
{
    assert(s.take(i + 1).drop_last() =~= s.take(i));
}

/// A character inside a CSV field: a double quote is doubled.
pub open spec fn csv_char(c: char) -> Seq<char> {
    if c == '"' {
        seq!['"', '"']
    } else {
        seq![c]
    }
}

/// A quoted CSV field.
pub open spec fn csv_text(s: Seq<char>) -> Seq<char> {
    seq!['"'] + map_chars(s, |c: char| csv_char(c)) + seq!['"']
}

/// Quotes `s` as one CSV field.
pub fn csv(s: &str) -> (r: String)
    ensures
        r@ == csv_text(s@),
{
    let len = s.unicode_len();
    let mut r = String::new();
    push_char(&mut r, '"');
    let ghost f = |c: char| csv_char(c);
    let mut i: usize = 0;
    assert(s@.take(0) =~= Seq::<char>::empty());
    while i < len
        invariant
            len == s@.len(),
            i <= len,
            f == (|c: char| csv_char(c)),
            r@ == seq!['"'] + map_chars(s@.take(i as int), f),
        decreases len - i,
    {
        let c = s.get_char(i);
        proof {
            lemma_map_chars_step(s@, i as int, f);
        }
        if c == '"' {
            push_char(&mut r, '"');
            push_char(&mut r, '"');
        } else {
            push_char(&mut r, c);
        }
        i = i + 1;
        assert(r@ =~= seq!['"'] + map_chars(s@.take(i as int), f));
    }
    assert(s@.take(len as int) =~= s@);
    push_char(&mut r, '"');
    assert(r@ =~= csv_text(s@));
    r
}

/// A lowercase hexadecimal digit (0 to 15).
pub open spec fn hex_digit(d: int) -> char {
    if d < 10 {
        digit(d)
    } else {
        (87 + d) as char
    }
}

/// A character inside a JSON string literal.
pub open spec fn json_char(c: char) -> Seq<char> {
    if c == '"' {
        seq!['\\', '"']
    } else if c == '\\' {
        seq!['\\', '\\']
    } else if c == '\n' {
        seq!['\\', 'n']
    } else if c == '\r' {
        seq!['\\', 'r']
    } else if c == '\t' {
        seq!['\\', 't']
    } else if (c as u32) < 0x20 {
        seq!['\\', 'u', '0', '0', hex_digit((c as u32) as int / 16), hex_digit((c as u32) as int % 16)]
    } else {
        seq![c]
    }
}

/// The characters of `s` escaped for a JSON string literal.
pub open spec fn json_body(s: Seq<char>) -> Seq<char> {
    map_chars(s, |c: char| json_char(c))
}

/// A JSON string literal holding `s`.
pub open spec fn json_text(s: Seq<char>) -> Seq<char> {
    seq!['"'] + json_body(s) + seq!['"']
}

fn hex_char(d: u32) -> (c: char)
    requires
        d < 16,
    ensures
        c == hex_digit(d as int),
{
    let b: u8 = d as u8;
    if b < 10 {
        (48u8 + b) as char
    } else {
        (87u8 + b) as char
    }
}

/// Appends `s` as a JSON string literal.
pub(crate) fn push_json(r: &mut String, s: &str)
    ensures
        final(r)@ == old(r)@ + json_text(s@),
{
    let ghost start = r@;
    let len = s.unicode_len();
    push_char(r, '"');
    let ghost f = |c: char| json_char(c);
    let mut i: usize = 0;
    assert(s@.take(0) =~= Seq::<char>::empty());
    while i < len
        invariant
            len == s@.len(),
            i <= len,
            f == (|c: char| json_char(c)),
            r@ == start + seq!['"'] + map_chars(s@.take(i as int), f),
        decreases len - i,
    {
        let c = s.get_char(i);
        proof {
            lemma_map_chars_step(s@, i as int, f);
        }
        let ghost before = r@;
        if c == '"' {
            push_char(r, '\\');
            push_char(r, '"');
        } else if c == '\\' {
            push_char(r, '\\');
            push_char(r, '\\');
        } else if c == '\n' {
            push_char(r, '\\');
            push_char(r, 'n');
        } else if c == '\r' {
            push_char(r, '\\');
            push_char(r, 'r');
        } else if c == '\t' {
            push_char(r, '\\');
            push_char(r, 't');
        } else if (c as u32) < 0x20 {
            let v = c as u32;
            push_char(r, '\\');
            push_char(r, 'u');
            push_char(r, '0');
            push_char(r, '0');
            push_char(r, hex_char(v / 16));
            push_char(r, hex_char(v % 16));
        } else {
            push_char(r, c);
        }
        assert(r@ =~= before + json_char(c));
        i = i + 1;
        assert(r@ =~= start + seq!['"'] + map_chars(s@.take(i as int), f));
    }
    assert(s@.take(len as int) =~= s@);
    push_char(r, '"');
    assert(r@ =~= start + json_text(s@));
}

proof fn lemma_json_char_printable(c: char)
    ensures
        forall|k: int| 0 <= k < json_char(c).len() ==> (#[trigger] json_char(c)[k] as u32) >= 0x20,
{
    if (c as u32) < 0x20 && c != '\n' && c != '\r' && c != '\t' {
        let v = (c as u32) as int;
        assert(0 <= v / 16 < 16 && 0 <= v % 16 < 16);
    }
}

proof fn lemma_json_body_printable(s: Seq<char>)
    ensures
        forall|k: int| 0 <= k < json_body(s).len() ==> (#[trigger] json_body(s)[k] as u32) >= 0x20,
    decreases s.len(),
{
    if s.len() > 0 {
        lemma_json_body_printable(s.drop_last());
        lemma_json_char_printable(s.last());
        let a = json_body(s.drop_last());
        let m = json_body(s);
        assert forall|k: int| 0 <= k < m.len() implies (#[trigger] m[k] as u32) >= 0x20 by {
            if k < a.len() {
                assert(m[k] == a[k]);
            } else {
                assert(m[k] == json_char(s.last())[k - a.len()]);
            }
        }
    }
}

/// A JSON string made by `jstr` is one line: it holds no line break nor any
/// other control character, whatever the text was.
pub proof fn lemma_json_text_one_line(s: Seq<char>)
    ensures
        forall|k: int| 0 <= k < json_text(s).len() ==> (#[trigger] json_text(s)[k] as u32) >= 0x20,
{
    lemma_json_body_printable(s);
    let body = json_body(s);
    let j = json_text(s);
    assert forall|k: int| 0 <= k < j.len() implies (#[trigger] j[k] as u32) >= 0x20 by {
        if 0 < k < j.len() - 1 {
            assert(j[k] == body[k - 1]);
        }
    }
}

// ---------- reading JSON strings back ----------

/// The value of a hexadecimal digit, or -1 for another character.
pub open spec fn hex_value(c: char) -> int {
    if '0' <= c && c <= '9' {
        c as int - 48
    } else if 'a' <= c && c <= 'f' {
        c as int - 87
    } else if 'A' <= c && c <= 'F' {
        c as int - 55
    } else {
        -1
    }
}

/// `c` in front of a decoded text, when there is one.
pub open spec fn cons_char(c: char, rest: Option<Seq<char>>) -> Option<Seq<char>> {
    match rest {
        Some(t) => Some(seq![c] + t),
        None => None,
    }
}

/// The character that a one-letter escape `\x` stands for.
pub open spec fn short_escape(x: char) -> Option<char> {
    if x == '"' {
        Some('"')
    } else if x == '\\' {
        Some('\\')
    } else if x == '/' {
        Some('/')
    } else if x == 'b' {
        Some('\u{8}')
    } else if x == 'f' {
        Some('\u{c}')
    } else if x == 'n' {
        Some('\n')
    } else if x == 'r' {
        Some('\r')
    } else if x == 't' {
        Some('\t')
    } else {
        None
    }
}

/// The text that the inside of a JSON string literal denotes, or `None` when
/// it is not a valid inside: an unescaped quote or control character, or an
/// unknown escape. A `\u` escape must name a character outside the surrogates.
pub open spec fn json_unescape(s: Seq<char>) -> Option<Seq<char>>
    decreases s.len(),
{
    if s.len() == 0 {
        Some(Seq::empty())
    } else if s[0] == '\\' {
        if s.len() >= 2 && short_escape(s[1]) is Some {
            cons_char(short_escape(s[1]).unwrap(), json_unescape(s.skip(2)))
        } else if s.len() >= 6 && s[1] == 'u' && hex_value(s[2]) >= 0 && hex_value(s[3]) >= 0
            && hex_value(s[4]) >= 0 && hex_value(s[5]) >= 0 {
            let v = 4096 * hex_value(s[2]) + 256 * hex_value(s[3]) + 16 * hex_value(s[4])
                + hex_value(s[5]);
            if 0xD800 <= v <= 0xDFFF {
                None
            } else {
                cons_char(v as char, json_unescape(s.skip(6)))
            }
        } else {
            None
        }
    } else if s[0] == '"' || (s[0] as u32) < 0x20 {
        None
    } else {
        cons_char(s[0], json_unescape(s.drop_first()))
    }
}

/// The text that a JSON string literal denotes, or `None` when it is not one.
pub open spec fn json_decode(lit: Seq<char>) -> Option<Seq<char>> {
    if lit.len() >= 2 && lit[0] == '"' && lit.last() == '"' {
        json_unescape(lit.subrange(1, lit.len() - 1))
    } else {
        None
    }
}

proof fn lemma_map_chars_front(s: Seq<char>, f: spec_fn(char) -> Seq<char>)
    requires
        s.len() > 0,
    ensures
        map_chars(s, f) == f(s[0]) + map_chars(s.drop_first(), f),
    decreases s.len(),
{
    if s.len() == 1 {
        assert(s.drop_last() =~= Seq::<char>::empty());
        assert(s.drop_first() =~= Seq::<char>::empty());
        assert(map_chars(s, f) =~= f(s[0]) + map_chars(s.drop_first(), f));
    } else {
        lemma_map_chars_front(s.drop_last(), f);
        assert(s.drop_last().drop_first() =~= s.drop_first().drop_last());
        assert(s.drop_first().last() == s.last());
        assert(map_chars(s, f) =~= f(s[0]) + map_chars(s.drop_first(), f));
    }
}

proof fn lemma_hex_digit_value(d: int)
    requires
        0 <= d < 16,
    ensures
        hex_value(hex_digit(d)) == d,
{
}

proof fn lemma_unescape_char(c: char, rest: Seq<char>)
    ensures
        json_unescape(json_char(c) + rest) == cons_char(c, json_unescape(rest)),
{
    let e = json_char(c);
    let s = e + rest;
    if c == '"' || c == '\\' || c == '\n' || c == '\r' || c == '\t' {
        assert(s.skip(2) =~= rest);
        assert(s[0] == '\\');
        assert(s[1] == e[1]);
    } else if (c as u32) < 0x20 {
        let v = (c as u32) as int;
        lemma_hex_digit_value(v / 16);
        lemma_hex_digit_value(v % 16);
        assert(s.skip(6) =~= rest);
        assert(s[0] == '\\' && s[1] == 'u' && s[2] == '0' && s[3] == '0');
        assert(s[4] == hex_digit(v / 16) && s[5] == hex_digit(v % 16));
        assert(4096 * hex_value(s[2]) + 256 * hex_value(s[3]) + 16 * hex_value(s[4]) + hex_value(
            s[5],
        ) == v);
        assert((v as char) == c);
    } else {
        assert(s.drop_first() =~= rest);
        assert(s[0] == c);
    }
}

proof fn lemma_unescape_body(s: Seq<char>)
    ensures
        json_unescape(json_body(s)) == Some(s),
    decreases s.len(),
{
    if s.len() == 0 {
        assert(json_body(s) =~= Seq::<char>::empty());
    } else {
        lemma_map_chars_front(s, |c: char| json_char(c));
        lemma_unescape_body(s.drop_first());
        lemma_unescape_char(s[0], json_body(s.drop_first()));
        assert(seq![s[0]] + s.drop_first() =~= s);
    }
}

/// Reading `jstr`'s output back as a JSON string literal gives exactly the
/// text that went in.
pub proof fn lemma_json_round_trip(s: Seq<char>)
    ensures
        json_decode(json_text(s)) == Some(s),
{
    let j = json_text(s);
    assert(j.subrange(1, j.len() - 1) =~= json_body(s));
    lemma_unescape_body(s);
}

// ---------- reading CSV fields back ----------

/// The text inside a quoted CSV field, read back: a doubled quote stands for
/// one quote; `None` where a quote stands alone.
pub open spec fn csv_unescape(s: Seq<char>) -> Option<Seq<char>>
    decreases s.len(),
{
    if s.len() == 0 {
        Some(Seq::empty())
    } else if s[0] == '"' {
        if s.len() >= 2 && s[1] == '"' {
            cons_char('"', csv_unescape(s.skip(2)))
        } else {
            None
        }
    } else {
        cons_char(s[0], csv_unescape(s.drop_first()))
    }
}

/// The value of a quoted CSV field, or `None` when it is not one.
pub open spec fn csv_decode(field: Seq<char>) -> Option<Seq<char>> {
    if field.len() >= 2 && field[0] == '"' && field.last() == '"' {
        csv_unescape(field.subrange(1, field.len() - 1))
    } else {
        None
    }
}

proof fn lemma_csv_unescape_body(s: Seq<char>)
    ensures
        csv_unescape(map_chars(s, |c: char| csv_char(c))) == Some(s),
    decreases s.len(),
{
    let f = |c: char| csv_char(c);
    if s.len() == 0 {
        assert(map_chars(s, f) =~= Seq::<char>::empty());
    } else {
        lemma_map_chars_front(s, f);
        lemma_csv_unescape_body(s.drop_first());
        let rest = map_chars(s.drop_first(), f);
        let e = csv_char(s[0]) + rest;
        if s[0] == '"' {
            assert(e.skip(2) =~= rest);
        } else {
            assert(e.drop_first() =~= rest);
        }
        assert(seq![s[0]] + s.drop_first() =~= s);
    }
}

/// Reading `csv`'s output back as a quoted CSV field gives exactly the text
/// that went in.
pub proof fn lemma_csv_round_trip(s: Seq<char>)
    ensures
        csv_decode(csv_text(s)) == Some(s),
{
    let c = csv_text(s);
    assert(c.subrange(1, c.len() - 1) =~= map_chars(s, |c: char| csv_char(c)));
    lemma_csv_unescape_body(s);
}

/// Text made of decimal digits and minus signs only, and not empty: it holds
/// no quote, comma or other separator.
pub open spec fn number_text(s: Seq<char>) -> bool {
    s.len() > 0 && forall|i: int| 0 <= i < s.len() ==> #[trigger] s[i] == '-' || ('0' <= s[i] && s[i] <= '9')
}

proof fn lemma_decimal_number(n: nat)
    ensures
        number_text(decimal(n)),
    decreases n,
{
    if n >= 10 {
        lemma_decimal_number(n / 10);
        let d = decimal(n / 10);
        let e = d.push(digit((n % 10) as int));
        assert forall|i: int| 0 <= i < e.len() implies #[trigger] e[i] == '-' || ('0' <= e[i] && e[i] <= '9') by {
            if i < d.len() {
                assert(e[i] == d[i]);
            }
        }
    }
}

/// `{}` of an integer is a number text.
pub proof fn lemma_signed_decimal_number(x: int)
    ensures
        number_text(signed_decimal(x)),
{
    if x < 0 {
        lemma_decimal_number((-x) as nat);
        let d = decimal((-x) as nat);
        let e = seq!['-'] + d;
        assert forall|i: int| 0 <= i < e.len() implies #[trigger] e[i] == '-' || ('0' <= e[i] && e[i] <= '9') by {
            if i > 0 {
                assert(e[i] == d[i - 1]);
            }
        }
    } else {
        lemma_decimal_number(x as nat);
    }
}

/// Quotes `s` as a JSON string, escaping quotes, backslashes and control characters.
pub fn jstr(s: &str) -> (r: String)
    ensures
        r@ == json_text(s@),
{
    let mut r = String::new();
    push_json(&mut r, s);
    assert(r@ =~= json_text(s@));
    r
}

// ---------- whitespace ----------

/// Unicode `White_Space`, the characters that `char::is_whitespace` accepts.
pub open spec fn is_space(c: char) -> bool {
    ||| c == ' '
    ||| ('\u{9}' <= c && c <= '\u{d}')
    ||| c == '\u{85}'
    ||| c == '\u{a0}'
    ||| c == '\u{1680}'
    ||| ('\u{2000}' <= c && c <= '\u{200a}')
    ||| c == '\u{2028}'
    ||| c == '\u{2029}'
    ||| c == '\u{202f}'
    ||| c == '\u{205f}'
    ||| c == '\u{3000}'
}

fn space(c: char) -> (r: bool)
    ensures
        r == is_space(c),
{
    c == ' ' || ('\u{9}' <= c && c <= '\u{d}') || c == '\u{85}' || c == '\u{a0}' || c
        == '\u{1680}' || ('\u{2000}' <= c && c <= '\u{200a}') || c == '\u{2028}' || c
        == '\u{2029}' || c == '\u{202f}' || c == '\u{205f}' || c == '\u{3000}'
}

/// `s` without its leading whitespace.
pub open spec fn trim_start(s: Seq<char>) -> Seq<char>
    decreases s.len(),
{
    if s.len() > 0 && is_space(s[0]) {
        trim_start(s.drop_first())
    } else {
        s
    }
}

/// `s` without its trailing whitespace.
pub open spec fn trim_end(s: Seq<char>) -> Seq<char>
    decreases s.len(),
{
    if s.len() > 0 && is_space(s.last()) {
        trim_end(s.drop_last())
    } else {
        s
    }
}

/// `s` without whitespace at either end, as `str::trim` leaves it.
pub open spec fn trim_text(s: Seq<char>) -> Seq<char> {
    trim_end(trim_start(s))
}

/// Removes leading and trailing whitespace.
pub fn trim(s: &str) -> (r: &str)
    ensures
        r@ == trim_text(s@),
{
    let len = s.unicode_len();
    let mut a: usize = 0;
    assert(s@.subrange(0, len as int) =~= s@);
    while a < len && space(s.get_char(a))
        invariant
            len == s@.len(),
            a <= len,
            trim_start(s@) == trim_start(s@.subrange(a as int, len as int)),
        decreases len - a,
    {
        assert(s@.subrange(a as int, len as int).drop_first() =~= s@.subrange(a + 1, len as int));
        a = a + 1;
    }
    let ghost mid = s@.subrange(a as int, len as int);
    assert(trim_start(s@) == mid);
    let mut b: usize = len;
    while b > a && space(s.get_char(b - 1))
        invariant
            len == s@.len(),
            a <= b <= len,
            mid == s@.subrange(a as int, len as int),
            trim_end(mid) == trim_end(s@.subrange(a as int, b as int)),
        decreases b - a,
    {
        assert(s@.subrange(a as int, b as int).drop_last() =~= s@.subrange(a as int, b - 1));
        b = b - 1;
    }
    s.substring_char(a, b)
}

/// `s` when it holds something besides whitespace.
pub fn non_empty(s: String) -> (r: Option<String>)
    ensures
        r is None <==> trim_text(s@).len() == 0,
        r matches Some(t) ==> t@ == s@,
{
    let n = trim(s.as_str()).unicode_len();
    if n == 0 {
        None
    } else {
        Some(s)
    }
}

// ---------- alignment ----------

/// `n` copies of `c`.
pub open spec fn repeat_char(c: char, n: int) -> Seq<char> {
    Seq::new(if n >= 0 { n as nat } else { 0 }, |i: int| c)
}

/// `{:>w}`: `s` right-aligned in `w` characters.
pub open spec fn align_right(s: Seq<char>, w: int) -> Seq<char> {
    repeat_char(' ', w - s.len()) + s
}

/// `{:<w}`: `s` left-aligned in `w` characters.
pub open spec fn align_left(s: Seq<char>, w: int) -> Seq<char> {
    s + repeat_char(' ', w - s.len())
}

/// `{:c^w}`: `s` centred in `w` characters, filled with `c`; an odd fill
/// leaves the extra character on the right.
pub open spec fn align_center(s: Seq<char>, w: int, c: char) -> Seq<char> {
    let pad = w - s.len();
    if pad <= 0 {
        s
    } else {
        repeat_char(c, pad / 2) + s + repeat_char(c, pad - pad / 2)
    }
}

fn push_repeat(s: &mut String, c: char, n: usize)
    ensures
        final(s)@ == old(s)@ + repeat_char(c, n as int),
{
    let ghost start = s@;
    let mut i: usize = 0;
    while i < n
        invariant
            i <= n,
            s@ == start + repeat_char(c, i as int),
        decreases n - i,
    {
        push_char(s, c);
        i = i + 1;
        assert(s@ =~= start + repeat_char(c, i as int));
    }
}

/// Appends `t` right-aligned in `w` characters.
pub(crate) fn push_right(s: &mut String, t: &str, w: usize)
    ensures
        final(s)@ == old(s)@ + align_right(t@, w as int),
{
    let ghost start = s@;
    let len = t.unicode_len();
    let pad: usize = if len < w { w - len } else { 0 };
    push_repeat(s, ' ', pad);
    push_seq(s, t);
    assert(repeat_char(' ', pad as int) =~= repeat_char(' ', w - len));
    assert(s@ =~= start + align_right(t@, w as int));
}

/// Appends `t` left-aligned in `w` characters.
pub(crate) fn push_left(s: &mut String, t: &str, w: usize)
    ensures
        final(s)@ == old(s)@ + align_left(t@, w as int),
{
    let ghost start = s@;
    let len = t.unicode_len();
    let pad: usize = if len < w { w - len } else { 0 };
    push_seq(s, t);
    push_repeat(s, ' ', pad);
    assert(repeat_char(' ', pad as int) =~= repeat_char(' ', w - len));
    assert(s@ =~= start + align_left(t@, w as int));
}

/// `t` centred in `w` characters, filled with `c`.
pub fn center(t: &str, w: usize, c: char) -> (r: String)
    ensures
        r@ == align_center(t@, w as int, c),
{
    let len = t.unicode_len();
    let mut s = String::new();
    if len >= w {
        push_seq(&mut s, t);
        assert(s@ =~= align_center(t@, w as int, c));
    } else {
        let pad = w - len;
        push_repeat(&mut s, c, pad / 2);
        push_seq(&mut s, t);
        push_repeat(&mut s, c, pad - pad / 2);
        assert(s@ =~= align_center(t@, w as int, c));
    }
    s
}

} // verus!
