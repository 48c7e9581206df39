//! Shelf presentation helpers: size and time labels, colour swatches, and
//! the choices the shelf makes on input.

use vstd::prelude::*;
use vstd::string::{StrSliceExecFns, StringExecFns};

use crate::text::{decimal, decimal_digits, decimal_text, digit_text};

verus! {

broadcast use vstd::string::group_string_axioms;

// ---------------------------------------------------------------------------
// Byte sizes
// ---------------------------------------------------------------------------

pub open spec fn p2(k: nat) -> nat
    decreases k,
{
    if k == 0 {
        1
    } else {
        2 * p2((k - 1) as nat)
    }
}

/// Number of binary digits of `n`.
pub open spec fn bit_len(n: nat) -> nat
    decreases n,
{
    if n == 0 {
        0
    } else {
        1 + bit_len(n / 2)
    }
}

/// `n / d` rounded to the nearest integer, ties to the even one.
pub open spec fn round_half_even(n: nat, d: nat) -> nat
    recommends
        d > 0,
{
    let q = n / d;
    let r = n % d;
    if 2 * r > d {
        q + 1
    } else if 2 * r < d {
        q
    } else if q % 2 == 0 {
        q
    } else {
        q + 1
    }
}

/// The value of `n` as an IEEE double: `n` itself below 2^53, otherwise `n`
/// rounded to the nearest multiple of the spacing of doubles at its
/// magnitude, ties to the even multiple.
pub open spec fn as_double(n: nat) -> nat {
    if n < p2(53) {
        n
    } else {
        let k = (bit_len(n) - 53) as nat;
        round_half_even(n, p2(k)) * p2(k)
    }
}

/// Tenths of a mebibyte in `bytes` as a double, rounded as one-decimal
/// formatting rounds it: half to even.
pub open spec fn mb_tenths(bytes: nat) -> nat {
    round_half_even(as_double(bytes) * 10, p2(20))
}

/// Human-readable byte size: `B` below a kibibyte, whole `KB` below a
/// mebibyte, `MB` with one decimal above.
pub open spec fn human_size_of(bytes: nat) -> Seq<char> {
    if bytes >= 1048576 {
        let t = mb_tenths(bytes);
        decimal(t / 10) + seq!['.'] + seq![decimal_digits()[(t % 10) as int]] + seq![' ', 'M', 'B']
    } else if bytes >= 1024 {
        decimal(bytes / 1024) + seq![' ', 'K', 'B']
    } else {
        decimal(bytes) + seq![' ', 'B']
    }
}

proof fn lemma_p2_values()
    ensures
        p2(11) == 2048,
        p2(20) == 1048576,
        p2(53) == 9007199254740992,
        p2(64) == 18446744073709551616,
{
    reveal_with_fuel(p2, 65);
    assert(p2(11) == 2048);
    assert(p2(20) == 1048576);
    assert(p2(53) == 9007199254740992);
    assert(p2(64) == 18446744073709551616);
}

proof fn lemma_p2_pos(k: nat)
    ensures
        p2(k) >= 1,
    decreases k,
{
    if k > 0 {
        lemma_p2_pos((k - 1) as nat);
    }
}

proof fn lemma_bit_len_bounds(n: nat, m: nat)
    ensures
        n < p2(m) ==> bit_len(n) <= m,
        n >= p2(m) ==> bit_len(n) >= m + 1,
    decreases m,
{
    lemma_p2_pos(m);
    if m > 0 {
        lemma_bit_len_bounds(n / 2, (m - 1) as nat);
    } else {
        if n >= 1 {
            assert(bit_len(n) == 1 + bit_len(n / 2));
        }
    }
}

fn round_half_even_exec(n: u128, d: u128) -> (r: u128)
    requires
        d > 0,
        n / d < 0xffff_ffff_ffff_ffff_ffff_ffff_ffff_fff0u128,
    ensures
        r == round_half_even(n as nat, d as nat),
{
    let q = n / d;
    let r = n % d;
    assert(r < d);
    if r > d - r {
        q + 1
    } else if r < d - r {
        q
    } else if q % 2 == 0 {
        q
    } else {
        q + 1
    }
}

fn double_value(n: u64) -> (r: u128)
    ensures
        r == as_double(n as nat),
        r <= 18446744073709553664u128,
{
    proof {
        lemma_p2_values();
    }
    if n < 9007199254740992u64 {
        return n as u128;
    }
    let mut m: u64 = n;
    let mut len: u64 = 0;
    proof {
        lemma_bit_len_bounds(n as nat, 64);
        lemma_bit_len_bounds(n as nat, 53);
    }
    while m > 0
        invariant
            bit_len(n as nat) == len + bit_len(m as nat),
            bit_len(n as nat) <= 64,
        decreases m,
    {
        m = m / 2;
        len = len + 1;
    }
    let k = len - 53;
    let mut p: u128 = 1;
    let mut j: u64 = 0;
    while j < k
        invariant
            j <= k,
            k <= 11,
            p == p2(j as nat),
            p <= 2048,
        decreases k - j,
    {
        proof {
            assert(p2((j + 1) as nat) == 2 * p2(j as nat));
            lemma_p2_values();
            if j + 1 <= 11 {
                lemma_p2_mono((j + 1) as nat, 11);
            }
        }
        p = p * 2;
        j = j + 1;
    }
    proof {
        lemma_p2_pos(k as nat);
    }
    let wide = n as u128;
    assert(wide / p <= wide) by (nonlinear_arith)
        requires
            p >= 1,
    ;
    let q = round_half_even_exec(wide, p);
    assert(q <= wide / p + 1);
    assert(q * p <= wide + p) by (nonlinear_arith)
        requires
            q <= wide / p + 1,
            p >= 1,
    ;
    q * p
}

proof fn lemma_p2_mono(a: nat, b: nat)
    requires
        a <= b,
    ensures
        p2(a) <= p2(b),
    decreases b,
{
    lemma_p2_pos(b);
    if a < b {
        lemma_p2_mono(a, (b - 1) as nat);
    }
}

/// Human-readable byte size (e.g. `364 KB`, `1.2 MB`).
pub fn human_size(bytes: u64) -> (r: String)
    ensures
        r@ == human_size_of(bytes as nat),
{
    proof {
        reveal_strlit(" MB");
        reveal_strlit(" KB");
        reveal_strlit(" B");
        reveal_strlit(".");
        lemma_p2_values();
    }
    if bytes >= 1048576 {
        let v = double_value(bytes);
        let scaled = v * 10;
        let t = round_half_even_exec(scaled, 1048576u128);
        assert(t <= scaled / 1048576 + 1);
        assert(t < 0x1_0000_0000_0000_0000u128);
        let whole = (t / 10) as u64;
        let frac = (t % 10) as u64;
        let mut s = decimal_text(whole);
        s.append(".");
        s.append(digit_text(frac));
        s.append(" MB");
        assert(s@ =~= human_size_of(bytes as nat));
        s
    } else if bytes >= 1024 {
        let mut s = decimal_text(bytes / 1024);
        s.append(" KB");
        assert(s@ =~= human_size_of(bytes as nat));
        s
    } else {
        let mut s = decimal_text(bytes);
        s.append(" B");
        assert(s@ =~= human_size_of(bytes as nat));
        s
    }
}

// ---------------------------------------------------------------------------
// Dates and times
// ---------------------------------------------------------------------------

/// English month abbreviation; months outside 1..=12 are clamped into it.
pub open spec fn month_abbr_of(m: u32) -> Seq<char> {
    let k = if m < 1 { 1 } else if m > 12 { 12 } else { m };
    if k == 1 {
        "Jan"@
    } else if k == 2 {
        "Feb"@
    } else if k == 3 {
        "Mar"@
    } else if k == 4 {
        "Apr"@
    } else if k == 5 {
        "May"@
    } else if k == 6 {
        "Jun"@
    } else if k == 7 {
        "Jul"@
    } else if k == 8 {
        "Aug"@
    } else if k == 9 {
        "Sep"@
    } else if k == 10 {
        "Oct"@
    } else if k == 11 {
        "Nov"@
    } else {
        "Dec"@
    }
}

pub fn month_abbr(m: u32) -> (r: &'static str)
    ensures
        r@ == month_abbr_of(m),
{
    let k = if m < 1 {
        1
    } else if m > 12 {
        12
    } else {
        m
    };
    if k == 1 {
        "Jan"
    } else if k == 2 {
        "Feb"
    } else if k == 3 {
        "Mar"
    } else if k == 4 {
        "Apr"
    } else if k == 5 {
        "May"
    } else if k == 6 {
        "Jun"
    } else if k == 7 {
        "Jul"
    } else if k == 8 {
        "Aug"
    } else if k == 9 {
        "Sep"
    } else if k == 10 {
        "Oct"
    } else if k == 11 {
        "Nov"
    } else {
        "Dec"
    }
}

/// Day bucket label: `Today` (today or later), `Yesterday`, else `Mon D`.
/// `days_ago` is the number of local calendar days between the entry's day
/// and today; `month` and `day` are the entry's local date.
pub open spec fn day_label_of(days_ago: i64, month: u32, day: u32) -> Seq<char> {
    if days_ago <= 0 {
        "Today"@
    } else if days_ago == 1 {
        "Yesterday"@
    } else {
        month_abbr_of(month) + " "@ + decimal(day as nat)
    }
}

pub fn day_label(days_ago: i64, month: u32, day: u32) -> (r: String)
    ensures
        r@ == day_label_of(days_ago, month, day),
{
    if days_ago <= 0 {
        "Today".to_owned()
    } else if days_ago == 1 {
        "Yesterday".to_owned()
    } else {
        let mut s = month_abbr(month).to_owned();
        s.append(" ");
        s.append(decimal_text(day as u64).as_str());
        s
    }
}

/// Compact "time ago" label for an age of `secs` seconds: `now` under a
/// minute (and for negative ages), else the whole minutes, hours or days
/// elapsed followed by `m`, `h` or `d` (e.g. `5m`, `3h`, `2d`).
pub open spec fn relative_time_of(secs: i64) -> Seq<char> {
    if secs < 60 {
        "now"@
    } else if secs < 3600 {
        decimal((secs / 60) as nat) + "m"@
    } else if secs < 86400 {
        decimal((secs / 3600) as nat) + "h"@
    } else {
        decimal((secs / 86400) as nat) + "d"@
    }
}

pub fn relative_time(secs: i64) -> (r: String)
    ensures
        r@ == relative_time_of(secs),
{
    if secs < 60 {
        "now".to_owned()
    } else if secs < 3600 {
        let mut t = decimal_text((secs / 60) as u64);
        t.append("m");
        t
    } else if secs < 86400 {
        let mut t = decimal_text((secs / 3600) as u64);
        t.append("h");
        t
    } else {
        let mut t = decimal_text((secs / 86400) as u64);
        t.append("d");
        t
    }
}

// ---------------------------------------------------------------------------
// Header buttons
// ---------------------------------------------------------------------------

/// Header icon-button kinds.
#[derive(Debug, Clone, Copy, PartialEq, Eq, Structural)]
pub enum HeaderIcon {
    Star,
    Ocr,
    Close,
}

impl HeaderIcon {
    pub fn tooltip(self) -> (r: &'static str)
        ensures
            r@ == match self {
                HeaderIcon::Star => "Favorites"@,
                HeaderIcon::Ocr => "Scan text from image (OCR)"@,
                HeaderIcon::Close => "Close"@,
            },
    {
        match self {
            HeaderIcon::Star => "Favorites",
            HeaderIcon::Ocr => "Scan text from image (OCR)",
            HeaderIcon::Close => "Close",
        }
    }
}

// ---------------------------------------------------------------------------
// Colour swatches
// ---------------------------------------------------------------------------

/// Unicode white space, as `str::trim` removes it.
pub open spec fn unicode_ws(c: char) -> bool {
    ||| c == '\t'
    ||| c == '\n'
    ||| c == '\u{0B}'
    ||| c == '\u{0C}'
    ||| c == '\r'
    ||| c == ' '
    ||| c == '\u{85}'
    ||| c == '\u{A0}'
    ||| c == '\u{1680}'
    ||| ('\u{2000}' <= c && c <= '\u{200A}')
    ||| c == '\u{2028}'
    ||| c == '\u{2029}'
    ||| c == '\u{202F}'
    ||| c == '\u{205F}'
    ||| c == '\u{3000}'
}

fn is_unicode_ws(c: char) -> (r: bool)
    ensures
        r == unicode_ws(c),
{
    c == '\t' || c == '\n' || c == '\u{0B}' || c == '\u{0C}' || c == '\r' || c == ' ' || c
        == '\u{85}' || c == '\u{A0}' || c == '\u{1680}' || ('\u{2000}' <= c && c <= '\u{200A}')
        || c == '\u{2028}' || c == '\u{2029}' || c == '\u{202F}' || c == '\u{205F}' || c
        == '\u{3000}'
}

/// Number of leading characters of `s` satisfying `unicode_ws`.
pub open spec fn lead_uws(s: Seq<char>) -> nat
    decreases s.len(),
{
    if s.len() == 0 {
        0
    } else if unicode_ws(s[0]) {
        1 + lead_uws(s.drop_first())
    } else {
        0
    }
}

pub open spec fn trail_uws(s: Seq<char>) -> nat
    decreases s.len(),
{
    if s.len() == 0 {
        0
    } else if unicode_ws(s.last()) {
        1 + trail_uws(s.drop_last())
    } else {
        0
    }
}

/// `s` without leading and trailing white space.
pub open spec fn trim_of(s: Seq<char>) -> Seq<char> {
    if lead_uws(s) >= s.len() {
        Seq::empty()
    } else {
        s.subrange(lead_uws(s) as int, s.len() - trail_uws(s))
    }
}

/// `s` without its leading `#` characters.
pub open spec fn strip_hashes(s: Seq<char>) -> Seq<char>
    decreases s.len(),
{
    if s.len() > 0 && s[0] == '#' {
        strip_hashes(s.drop_first())
    } else {
        s
    }
}

pub open spec fn is_hex(c: char) -> bool {
    ('0' <= c && c <= '9') || ('a' <= c && c <= 'f') || ('A' <= c && c <= 'F')
}

pub open spec fn hex_value(c: char) -> nat {
    if '0' <= c && c <= '9' {
        (c as u32 - '0' as u32) as nat
    } else if 'a' <= c && c <= 'f' {
        (c as u32 - 'a' as u32 + 10) as nat
    } else {
        (c as u32 - 'A' as u32 + 10) as nat
    }
}

/// A clipboard string read as a colour: `#RGB` or `#RRGGBB`, with or
/// without the `#`, surrounding white space ignored.
pub open spec fn hex_color_of(s: Seq<char>) -> Option<(u8, u8, u8)> {
    let h = strip_hashes(trim_of(s));
    if !(forall|i: int| 0 <= i < h.len() ==> is_hex(#[trigger] h[i])) {
        None
    } else if h.len() == 6 {
        Some(
            (
                (hex_value(h[0]) * 16 + hex_value(h[1])) as u8,
                (hex_value(h[2]) * 16 + hex_value(h[3])) as u8,
                (hex_value(h[4]) * 16 + hex_value(h[5])) as u8,
            ),
        )
    } else if h.len() == 3 {
        Some(
            (
                (hex_value(h[0]) * 17) as u8,
                (hex_value(h[1]) * 17) as u8,
                (hex_value(h[2]) * 17) as u8,
            ),
        )
    } else {
        None
    }
}

fn hex_digit_value(c: char) -> (r: u8)
    requires
        is_hex(c),
    ensures
        r as nat == hex_value(c),
        r < 16,
{
    let u = c as u32;
    if '0' <= c && c <= '9' {
        (u - ('0' as u32)) as u8
    } else if 'a' <= c && c <= 'f' {
        (u - ('a' as u32) + 10) as u8
    } else {
        (u - ('A' as u32) + 10) as u8
    }
}

proof fn lemma_lead_uws(s: Seq<char>, i: int)
    requires
        0 <= i <= s.len(),
        forall|k: int| 0 <= k < i ==> unicode_ws(s[k]),
        i < s.len() ==> !unicode_ws(s[i]),
    ensures
        lead_uws(s) == i,
    decreases s.len(),
{
    if i > 0 {
        assert forall|k: int| 0 <= k < i - 1 implies unicode_ws(s.drop_first()[k]) by {
            assert(s.drop_first()[k] == s[k + 1]);
        }
        lemma_lead_uws(s.drop_first(), i - 1);
    }
}

proof fn lemma_trail_uws(s: Seq<char>, e: int)
    requires
        0 <= e <= s.len(),
        forall|k: int| e <= k < s.len() ==> unicode_ws(s[k]),
        e > 0 ==> !unicode_ws(s[e - 1]),
    ensures
        trail_uws(s) == s.len() - e,
    decreases s.len(),
{
    if e < s.len() {
        assert forall|k: int| e <= k < s.drop_last().len() implies unicode_ws(s.drop_last()[k]) by {
            assert(s.drop_last()[k] == s[k]);
        }
        lemma_trail_uws(s.drop_last(), e);
    }
}

proof fn lemma_strip_hashes(s: Seq<char>, i: int)
    requires
        0 <= i <= s.len(),
        forall|k: int| 0 <= k < i ==> s[k] == '#',
        i < s.len() ==> s[i] != '#',
    ensures
        strip_hashes(s) == s.subrange(i, s.len() as int),
    decreases s.len(),
{
    if i > 0 {
        assert forall|k: int| 0 <= k < i - 1 implies s.drop_first()[k] == '#' by {
            assert(s.drop_first()[k] == s[k + 1]);
        }
        lemma_strip_hashes(s.drop_first(), i - 1);
        assert(s.drop_first().subrange(i - 1, s.drop_first().len() as int) =~= s.subrange(
            i,
            s.len() as int,
        ));
    } else {
        assert(s.subrange(0, s.len() as int) =~= s);
    }
}

/// Bounds of `s[lo..hi]` without its leading and trailing white space.
pub fn trim_range(s: &str, lo: usize, hi: usize) -> (r: (usize, usize))
    requires
        lo <= hi <= s@.len(),
    ensures
        lo <= r.0 <= r.1 <= hi,
        s@.subrange(r.0 as int, r.1 as int) == trim_of(s@.subrange(lo as int, hi as int)),
{
    let ghost t = s@.subrange(lo as int, hi as int);
    let mut a: usize = lo;
    while a < hi && is_unicode_ws(s.get_char(a))
        invariant
            lo <= a <= hi,
            hi <= s@.len(),
            forall|k: int| lo <= k < a ==> unicode_ws(s@[k]),
        decreases hi - a,
    {
        a = a + 1;
    }
    proof {
        assert forall|k: int| 0 <= k < a - lo implies unicode_ws(t[k]) by {
            assert(t[k] == s@[lo + k]);
        }
        if a < hi {
            assert(t[a - lo] == s@[a as int]);
        }
        lemma_lead_uws(t, a - lo);
    }
    let mut b: usize = hi;
    if a < hi {
        while b > a && is_unicode_ws(s.get_char(b - 1))
            invariant
                lo <= a < hi,
                hi <= s@.len(),
                !unicode_ws(s@[a as int]),
                a <= b <= hi,
                forall|k: int| b <= k < hi ==> unicode_ws(s@[k]),
            decreases b,
        {
            b = b - 1;
        }
        proof {
            assert forall|k: int| b - lo <= k < t.len() implies unicode_ws(t[k]) by {
                assert(t[k] == s@[lo + k]);
            }
            if b > lo {
                assert(t[b - lo - 1] == s@[b - 1]);
            }
            lemma_trail_uws(t, b - lo);
        }
    } else {
        b = a;
    }
    assert(s@.subrange(a as int, b as int) =~= trim_of(t));
    (a, b)
}

/// `s` without leading and trailing white space, as `str::trim` gives it.
pub fn trim_text(s: &str) -> (r: String)
    ensures
        r@ == trim_of(s@),
{
    let n = s.unicode_len();
    let (a, b) = trim_range(s, 0, n);
    assert(s@.subrange(0, n as int) =~= s@);
    s.substring_char(a, b).to_owned()
}

/// Reads a clipboard string as a hex colour (`#RGB`, `#RRGGBB`, with or
/// without the leading `#`), for colour-swatch cards.
pub fn parse_hex_color(s: &str) -> (r: Option<(u8, u8, u8)>)
    ensures
        r == hex_color_of(s@),
{
    let n = s.unicode_len();
    let (a, b) = trim_range(s, 0, n);
    assert(s@.subrange(0, n as int) =~= s@);
    let ghost t = trim_of(s@);
    assert(t =~= s@.subrange(a as int, b as int));
    let mut h0 = a;
    while h0 < b && s.get_char(h0) == '#'
        invariant
            a <= h0 <= b,
            b <= n,
            n == s@.len(),
            t == s@.subrange(a as int, b as int),
            forall|k: int| 0 <= k < h0 - a ==> t[k] == '#',
        decreases b - h0,
    {
        h0 = h0 + 1;
    }
    proof {
        lemma_strip_hashes(t, h0 - a);
    }
    let ghost h = strip_hashes(t);
    assert(h =~= s@.subrange(h0 as int, b as int));
    let mut i = h0;
    while i < b
        invariant
            h0 <= i <= b,
            b <= n,
            n == s@.len(),
            h == s@.subrange(h0 as int, b as int),
            h == strip_hashes(trim_of(s@)),
            forall|k: int| 0 <= k < i - h0 ==> is_hex(#[trigger] h[k]),
        decreases b - i,
    {
        let c = s.get_char(i);
        if !(('0' <= c && c <= '9') || ('a' <= c && c <= 'f') || ('A' <= c && c <= 'F')) {
            assert(h[i - h0] == s@[i as int]);
            assert(!is_hex(h[i - h0]));
            return None;
        }
        i = i + 1;
    }
    let len = b - h0;
    if len == 6 {
        assert(h[0] == s@[h0 as int] && h[1] == s@[h0 + 1] && h[2] == s@[h0 + 2]);
        assert(h[3] == s@[h0 + 3] && h[4] == s@[h0 + 4] && h[5] == s@[h0 + 5]);
        assert(is_hex(h[0]) && is_hex(h[1]) && is_hex(h[2]));
        assert(is_hex(h[3]) && is_hex(h[4]) && is_hex(h[5]));
        let d0 = hex_digit_value(s.get_char(h0));
        let d1 = hex_digit_value(s.get_char(h0 + 1));
        let d2 = hex_digit_value(s.get_char(h0 + 2));
        let d3 = hex_digit_value(s.get_char(h0 + 3));
        let d4 = hex_digit_value(s.get_char(h0 + 4));
        let d5 = hex_digit_value(s.get_char(h0 + 5));
        assert(h[0] == s@[h0 as int] && h[1] == s@[h0 + 1] && h[2] == s@[h0 + 2]);
        assert(h[3] == s@[h0 + 3] && h[4] == s@[h0 + 4] && h[5] == s@[h0 + 5]);
        Some((d0 * 16 + d1, d2 * 16 + d3, d4 * 16 + d5))
    } else if len == 3 {
        assert(h[0] == s@[h0 as int] && h[1] == s@[h0 + 1] && h[2] == s@[h0 + 2]);
        assert(is_hex(h[0]) && is_hex(h[1]) && is_hex(h[2]));
        let d0 = hex_digit_value(s.get_char(h0));
        let d1 = hex_digit_value(s.get_char(h0 + 1));
        let d2 = hex_digit_value(s.get_char(h0 + 2));
        assert(h[0] == s@[h0 as int] && h[1] == s@[h0 + 1] && h[2] == s@[h0 + 2]);
        Some((d0 * 17, d1 * 17, d2 * 17))
    } else {
        None
    }
}

} // verus!
