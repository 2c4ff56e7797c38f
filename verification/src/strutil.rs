//! String helpers the rest of the library leans on: substring search,
//! lexicographic comparison, digit parsing, decimal formatting, and small
//! cleanups of text read from files.

use vstd::prelude::*;

verus! {

/// `n` occurs in `h` starting at index `i`.
pub open spec fn spec_contains_at(h: Seq<char>, n: Seq<char>, i: int) -> bool {
    0 <= i && i + n.len() <= h.len() && h.subrange(i, i + n.len() as int) == n
}

/// `n` occurs somewhere in `h`; an empty `n` occurs in everything.
pub open spec fn spec_contains(h: Seq<char>, n: Seq<char>) -> bool {
    exists|i: int| spec_contains_at(h, n, i)
}

/// Substring search: whether `needle` occurs in `hay`, character-wise and
/// case-sensitive; an empty needle always matches.
pub fn str_contains(hay: &str, needle: &str) -> (r: bool)
    ensures
        r == spec_contains(hay@, needle@),
{
    let hl = hay.unicode_len();
    let nl = needle.unicode_len();
    if nl > hl {
        assert(forall|i: int| !spec_contains_at(hay@, needle@, i));
        return false;
    }
    if nl == 0 {
        assert(hay@.subrange(0, 0) =~= needle@);
        assert(spec_contains_at(hay@, needle@, 0));
        return true;
    }
    let mut i: usize = 0;
    while i <= hl - nl
        invariant
            0 < nl <= hl,
            hl == hay@.len(),
            nl == needle@.len(),
            i <= hl - nl + 1,
            forall|k: int| 0 <= k < i ==> !spec_contains_at(hay@, needle@, k),
        decreases hl - nl - i + 1,
    {
        let mut j: usize = 0;
        let mut matched = true;
        while j < nl
            invariant
                nl <= hl,
                hl == hay@.len(),
                nl == needle@.len(),
                i <= hl - nl,
                j <= nl,
                matched ==> forall|t: int| 0 <= t < j ==> hay@[i + t] == needle@[t],
                !matched ==> exists|t: int| 0 <= t < nl && hay@[i + t] != needle@[t],
            ensures
                matched ==> forall|t: int| 0 <= t < nl ==> hay@[i + t] == needle@[t],
                !matched ==> exists|t: int| 0 <= t < nl && hay@[i + t] != needle@[t],
            decreases nl - j,
        {
            if hay.get_char(i + j) != needle.get_char(j) {
                matched = false;
                break ;
            }
            j += 1;
        }
        if matched {
            assert(hay@.subrange(i as int, i + nl as int) =~= needle@);
            assert(spec_contains_at(hay@, needle@, i as int));
            return true;
        }
        proof {
            let t = choose|t: int| 0 <= t < nl && hay@[i + t] != needle@[t];
            assert(hay@.subrange(i as int, i + nl as int)[t] == hay@[i + t]);
            assert(!spec_contains_at(hay@, needle@, i as int));
        }
        i += 1;
    }
    assert forall|k: int| !spec_contains_at(hay@, needle@, k) by {
        if 0 <= k <= hl - nl {
            assert(!spec_contains_at(hay@, needle@, k));
        }
    }
    false
}

/// A decimal digit character.
pub open spec fn is_digit(c: char) -> bool {
    48 <= c as u32 <= 57
}

/// Numeric value of a digit character.
pub open spec fn digit_val(c: char) -> int
    recommends
        is_digit(c),
{
    c as u32 - 48
}

/// Value of a digit string, most significant digit first.
pub open spec fn digits_val(s: Seq<char>) -> int
    decreases s.len(),
{
    if s.len() == 0 {
        0
    } else {
        digits_val(s.drop_last()) * 10 + digit_val(s.last())
    }
}

proof fn lemma_digits_val_nonneg(s: Seq<char>)
    requires
        forall|j: int| 0 <= j < s.len() ==> is_digit(s[j]),
    ensures
        digits_val(s) >= 0,
    decreases s.len(),
{
    if s.len() > 0 {
        lemma_digits_val_nonneg(s.drop_last());
    }
}

proof fn lemma_digits_prefix_le(s: Seq<char>, i: int)
    requires
        0 <= i <= s.len(),
        forall|j: int| 0 <= j < s.len() ==> is_digit(s[j]),
    ensures
        digits_val(s.take(i)) <= digits_val(s),
    decreases s.len(),
{
    if i == s.len() {
        assert(s.take(i) =~= s);
    } else {
        let d = s.drop_last();
        assert(d.take(i) =~= s.take(i));
        lemma_digits_prefix_le(d, i);
        lemma_digits_val_nonneg(d);
    }
}

/// What `parse_u32` returns: the numeric value of an all-digit string that
/// fits in 32 bits, and nothing for anything else.
pub open spec fn parse_u32_spec(s: Seq<char>) -> Option<u32> {
    if s.len() > 0 && (forall|j: int| 0 <= j < s.len() ==> is_digit(s[j])) && digits_val(s)
        <= u32::MAX {
        Some(digits_val(s) as u32)
    } else {
        None
    }
}

/// Parse a string of decimal digits into a `u32`; fails on an empty string,
/// on any non-digit character, and on overflow.
pub fn parse_u32(s: &str) -> (r: Option<u32>)
    ensures
        r == parse_u32_spec(s@),
{
    let len = s.unicode_len();
    if len == 0 {
        return None;
    }
    let mut acc: u32 = 0;
    let mut i: usize = 0;
    while i < len
        invariant
            len == s@.len(),
            0 < len,
            i <= len,
            forall|j: int| 0 <= j < i ==> is_digit(s@[j]),
            acc == digits_val(s@.take(i as int)),
        decreases len - i,
    {
        let c = s.get_char(i);
        let cv = c as u32;
        if cv < 48 || cv > 57 {
            assert(!is_digit(s@[i as int]));
            return None;
        }
        let d = cv - 48;
        let wide: u64 = (acc as u64) * 10 + (d as u64);
        proof {
            assert(s@.take(i + 1).drop_last() =~= s@.take(i as int));
            assert(s@.take(i + 1).last() == s@[i as int]);
        }
        if wide > u32::MAX as u64 {
            proof {
                if forall|j: int| 0 <= j < s@.len() ==> is_digit(s@[j]) {
                    lemma_digits_prefix_le(s@, i + 1);
                }
            }
            return None;
        }
        acc = wide as u32;
        i += 1;
    }
    proof {
        assert(s@.take(len as int) =~= s@);
    }
    Some(acc)
}

/// The character for a decimal digit value.
pub open spec fn digit_char(d: int) -> char
    recommends
        0 <= d < 10,
{
    ((48 + d) as u8) as char
}

/// Decimal rendering of a non-negative integer, without leading zeroes
/// (a lone zero for 0).
pub open spec fn dec_str(n: int) -> Seq<char>
    decreases n,
{
    if n < 0 {
        Seq::empty()
    } else if n < 10 {
        seq![digit_char(n)]
    } else {
        dec_str(n / 10).push(digit_char(n % 10))
    }
}

fn digit_str(d: u64) -> (r: &'static str)
    requires
        d < 10,
    ensures
        r@ =~= seq![digit_char(d as int)],
{
    proof {
        reveal_strlit("0");
        reveal_strlit("1");
        reveal_strlit("2");
        reveal_strlit("3");
        reveal_strlit("4");
        reveal_strlit("5");
        reveal_strlit("6");
        reveal_strlit("7");
        reveal_strlit("8");
        reveal_strlit("9");
    }
    if d == 0 {
        "0"
    } else if d == 1 {
        "1"
    } else if d == 2 {
        "2"
    } else if d == 3 {
        "3"
    } else if d == 4 {
        "4"
    } else if d == 5 {
        "5"
    } else if d == 6 {
        "6"
    } else if d == 7 {
        "7"
    } else if d == 8 {
        "8"
    } else {
        "9"
    }
}

/// Decimal rendering of `n`.
pub fn u64_to_string(n: u64) -> (r: String)
    ensures
        r@ == dec_str(n as int),
    decreases n,
{
    if n < 10 {
        String::from_str(digit_str(n))
    } else {
        let mut s = u64_to_string(n / 10);
        s.append(digit_str(n % 10));
        proof {
            assert(s@ =~= dec_str((n / 10) as int).push(digit_char((n % 10) as int)));
        }
        s
    }
}

/// Lexicographic order on character sequences by unicode scalar value; the
/// order service listings are sorted in.
pub open spec fn lex_le(a: Seq<char>, b: Seq<char>) -> bool
    decreases a.len(),
{
    if a.len() == 0 {
        true
    } else if b.len() == 0 {
        false
    } else if (a[0] as u32) < (b[0] as u32) {
        true
    } else if (a[0] as u32) > (b[0] as u32) {
        false
    } else {
        lex_le(a.drop_first(), b.drop_first())
    }
}

pub proof fn lemma_lex_total(a: Seq<char>, b: Seq<char>)
    ensures
        lex_le(a, b) || lex_le(b, a),
    decreases a.len(),
{
    if a.len() > 0 && b.len() > 0 && a[0] as u32 == b[0] as u32 {
        lemma_lex_total(a.drop_first(), b.drop_first());
    }
}

pub proof fn lemma_lex_trans(a: Seq<char>, b: Seq<char>, c: Seq<char>)
    requires
        lex_le(a, b),
        lex_le(b, c),
    ensures
        lex_le(a, c),
    decreases a.len(),
{
    if a.len() > 0 && b.len() > 0 && c.len() > 0 && a[0] as u32 == b[0] as u32 && b[0] as u32 == c[0]
        as u32 {
        lemma_lex_trans(a.drop_first(), b.drop_first(), c.drop_first());
    }
}

proof fn lemma_lex_common_prefix(a: Seq<char>, b: Seq<char>, i: int)
    requires
        0 <= i <= a.len(),
        i <= b.len(),
        forall|j: int| 0 <= j < i ==> a[j] == b[j],
    ensures
        lex_le(a, b) == lex_le(a.skip(i), b.skip(i)),
    decreases i,
{
    if i > 0 {
        lemma_lex_common_prefix(a.drop_first(), b.drop_first(), i - 1);
        assert(a.drop_first().skip(i - 1) =~= a.skip(i));
        assert(b.drop_first().skip(i - 1) =~= b.skip(i));
        assert(a.skip(0) =~= a);
        assert(b.skip(0) =~= b);
    } else {
        assert(a.skip(0) =~= a);
        assert(b.skip(0) =~= b);
    }
}

/// Lexicographic comparison of two strings: whether `a` sorts at or before
/// `b`, comparing unicode scalar values character by character.
pub fn str_le(a: &str, b: &str) -> (r: bool)
    ensures
        r == lex_le(a@, b@),
{
    let al = a.unicode_len();
    let bl = b.unicode_len();
    let mut i: usize = 0;
    while i < al && i < bl
        invariant
            al == a@.len(),
            bl == b@.len(),
            i <= al,
            i <= bl,
            forall|j: int| 0 <= j < i ==> a@[j] == b@[j],
        decreases al - i,
    {
        let ca = a.get_char(i);
        let cb = b.get_char(i);
        if ca as u32 != cb as u32 {
            proof {
                lemma_lex_common_prefix(a@, b@, i as int);
                assert(a@.skip(i as int)[0] == a@[i as int]);
                assert(b@.skip(i as int)[0] == b@[i as int]);
            }
            return (ca as u32) < (cb as u32);
        }
        i += 1;
    }
    proof {
        lemma_lex_common_prefix(a@, b@, i as int);
        assert(a@.skip(i as int).len() == al - i);
        assert(b@.skip(i as int).len() == bl - i);
        if al <= bl {
            assert(a@.skip(i as int).len() == 0);
        } else {
            assert(b@.skip(i as int).len() == 0);
            assert(a@.skip(i as int).len() > 0);
        }
    }
    al <= bl
}

/// The whitespace characters the trimming helpers strip.
pub open spec fn is_ws(c: char) -> bool {
    c == ' ' || c == '\t' || c == '\n' || c == '\r'
}

/// Number of leading whitespace characters.
pub open spec fn trim_start_idx(s: Seq<char>) -> int
    decreases s.len(),
{
    if s.len() == 0 {
        0
    } else if is_ws(s[0]) {
        1 + trim_start_idx(s.drop_first())
    } else {
        0
    }
}

/// Index just past the last non-whitespace character.
pub open spec fn trim_end_idx(s: Seq<char>) -> int
    decreases s.len(),
{
    if s.len() == 0 {
        0
    } else if is_ws(s.last()) {
        trim_end_idx(s.drop_last())
    } else {
        s.len() as int
    }
}

/// `s` with trailing whitespace removed.
pub open spec fn trim_end_spec(s: Seq<char>) -> Seq<char> {
    s.subrange(0, trim_end_idx(s))
}

/// `s` with leading and trailing whitespace removed.
pub open spec fn trim_spec(s: Seq<char>) -> Seq<char> {
    if trim_start_idx(s) < trim_end_idx(s) {
        s.subrange(trim_start_idx(s), trim_end_idx(s))
    } else {
        Seq::empty()
    }
}

proof fn lemma_trim_start_val(s: Seq<char>, k: int)
    requires
        0 <= k <= s.len(),
        forall|j: int| 0 <= j < k ==> is_ws(s[j]),
        k == s.len() || !is_ws(s[k]),
    ensures
        trim_start_idx(s) == k,
    decreases s.len(),
{
    if s.len() > 0 && k > 0 {
        lemma_trim_start_val(s.drop_first(), k - 1);
    }
}

proof fn lemma_trim_start_lower(s: Seq<char>, k: int)
    requires
        0 <= k <= s.len(),
        forall|j: int| 0 <= j < k ==> is_ws(s[j]),
    ensures
        trim_start_idx(s) >= k,
    decreases s.len(),
{
    if s.len() > 0 {
        let k2 = if k > 0 {
            k - 1
        } else {
            0
        };
        assert(forall|j: int| 0 <= j < k2 ==> is_ws(s.drop_first()[j]));
        lemma_trim_start_lower(s.drop_first(), k2);
        if k > 0 {
            assert(is_ws(s[0]));
            assert(trim_start_idx(s) == 1 + trim_start_idx(s.drop_first()));
        }
    }
}

proof fn lemma_trim_end_val(s: Seq<char>, k: int)
    requires
        0 <= k <= s.len(),
        forall|j: int| k <= j < s.len() ==> is_ws(s[j]),
        k == 0 || !is_ws(s[k - 1]),
    ensures
        trim_end_idx(s) == k,
    decreases s.len(),
{
    if s.len() > 0 && k < s.len() {
        lemma_trim_end_val(s.drop_last(), k);
    }
}

/// Strip trailing whitespace from a string.
pub fn trim_end_str(s: &str) -> (r: String)
    ensures
        r@ == trim_end_spec(s@),
{
    let len = s.unicode_len();
    let mut b: usize = len;
    while b > 0
        invariant
            len == s@.len(),
            b <= len,
            forall|j: int| b <= j < len ==> is_ws(s@[j]),
        ensures
            b <= len,
            forall|j: int| b <= j < len ==> is_ws(s@[j]),
            b == 0 || !is_ws(s@[b - 1]),
        decreases b,
    {
        let c = s.get_char(b - 1);
        if !(c == ' ' || c == '\t' || c == '\n' || c == '\r') {
            break ;
        }
        b -= 1;
    }
    proof {
        lemma_trim_end_val(s@, b as int);
    }
    String::from_str(s.substring_char(0, b))
}

/// Strip leading and trailing whitespace from a string.
pub fn trim_str(s: &str) -> (r: String)
    ensures
        r@ == trim_spec(s@),
{
    let len = s.unicode_len();
    let mut b: usize = len;
    while b > 0
        invariant
            len == s@.len(),
            b <= len,
            forall|j: int| b <= j < len ==> is_ws(s@[j]),
        ensures
            b <= len,
            forall|j: int| b <= j < len ==> is_ws(s@[j]),
            b == 0 || !is_ws(s@[b - 1]),
        decreases b,
    {
        let c = s.get_char(b - 1);
        if !(c == ' ' || c == '\t' || c == '\n' || c == '\r') {
            break ;
        }
        b -= 1;
    }
    proof {
        lemma_trim_end_val(s@, b as int);
    }
    let mut a: usize = 0;
    while a < b
        invariant
            len == s@.len(),
            a <= b <= len,
            forall|j: int| 0 <= j < a ==> is_ws(s@[j]),
            trim_end_idx(s@) == b,
        ensures
            a <= b <= len,
            forall|j: int| 0 <= j < a ==> is_ws(s@[j]),
            a == b || !is_ws(s@[a as int]),
        decreases b - a,
    {
        let c = s.get_char(a);
        if !(c == ' ' || c == '\t' || c == '\n' || c == '\r') {
            break ;
        }
        a += 1;
    }
    if a >= b {
        proof {
            lemma_trim_start_lower(s@, b as int);
        }
        String::new()
    } else {
        proof {
            lemma_trim_start_val(s@, a as int);
        }
        String::from_str(s.substring_char(a, b))
    }
}

/// `s` with every NUL character replaced by a space; how a raw `cmdline`
/// file turns into a displayable command line.
pub fn replace_nul_with_space(s: &str) -> (r: String)
    ensures
        r@ == s@.map_values(|c: char| if c == '\0' { ' ' } else { c }),
{
    let len = s.unicode_len();
    let mut out = String::new();
    let mut i: usize = 0;
    while i < len
        invariant
            len == s@.len(),
            i <= len,
            out@ =~= s@.subrange(0, i as int).map_values(|c: char| if c == '\0' { ' ' } else { c }),
        decreases len - i,
    {
        let c = s.get_char(i);
        if c == '\0' {
            out.append(" ");
            proof {
                reveal_strlit(" ");
            }
        } else {
            let piece = s.substring_char(i, i + 1);
            out.append(piece);
        }
        proof {
            assert(s@.subrange(0, i + 1).map_values(|c: char| if c == '\0' { ' ' } else { c }) =~= s@
                .subrange(0, i as int).map_values(|c: char| if c == '\0' { ' ' } else { c }).push(
                if s@[i as int] == '\0' { ' ' } else { s@[i as int] },
            ));
        }
        i += 1;
    }
    proof {
        assert(s@.subrange(0, len as int) =~= s@);
    }
    out
}

/// The phrase for one count of one unit, pluralised when the count
/// exceeds one.
pub open spec fn duration_phrase(n: int, unit: Seq<char>) -> Seq<char> {
    if n > 1 {
        dec_str(n) + seq![' '] + unit + seq!['s']
    } else {
        dec_str(n) + seq![' '] + unit
    }
}

/// What `relative_duration` returns: the count of the largest whole unit of
/// time in `secs`, phrased like "5 minutes" or "1 hour", and "0 seconds"
/// when no unit fits.
pub open spec fn relative_duration_spec(secs: u64) -> Seq<char> {
    let years = secs as int / 60 / 60 / 24 / 365;
    let months = secs as int / 60 / 60 / 24 / 30;
    let days = secs as int / 60 / 60 / 24;
    let hours = secs as int / 60 / 60;
    let minutes = secs as int / 60;
    if years >= 1 {
        duration_phrase(years, "year"@)
    } else if months >= 1 {
        duration_phrase(months, "month"@)
    } else if days >= 1 {
        duration_phrase(days, "day"@)
    } else if hours >= 1 {
        duration_phrase(hours, "hour"@)
    } else if minutes >= 1 {
        duration_phrase(minutes, "minute"@)
    } else if secs >= 1 {
        duration_phrase(secs as int, "second"@)
    } else {
        "0 seconds"@
    }
}

fn duration_phrase_str(n: u64, unit: &str) -> (r: String)
    ensures
        r@ == duration_phrase(n as int, unit@),
{
    let mut s = u64_to_string(n);
    s.append(" ");
    s.append(unit);
    proof {
        reveal_strlit(" ");
        assert(" "@ =~= seq![' ']);
    }
    if n > 1 {
        s.append("s");
        proof {
            reveal_strlit("s");
            assert("s"@ =~= seq!['s']);
            assert(s@ =~= duration_phrase(n as int, unit@));
        }
        s
    } else {
        proof {
            assert(s@ =~= duration_phrase(n as int, unit@));
        }
        s
    }
}

/// Render a duration in seconds as a human-readable phrase naming its
/// largest whole unit, like "2 hours" or "1 minute"; "0 seconds" for zero.
pub fn relative_duration(secs: u64) -> (r: String)
    ensures
        r@ == relative_duration_spec(secs),
{
    let years = secs / 60 / 60 / 24 / 365;
    let months = secs / 60 / 60 / 24 / 30;
    let days = secs / 60 / 60 / 24;
    let hours = secs / 60 / 60;
    let minutes = secs / 60;
    if years >= 1 {
        duration_phrase_str(years, "year")
    } else if months >= 1 {
        duration_phrase_str(months, "month")
    } else if days >= 1 {
        duration_phrase_str(days, "day")
    } else if hours >= 1 {
        duration_phrase_str(hours, "hour")
    } else if minutes >= 1 {
        duration_phrase_str(minutes, "minute")
    } else if secs >= 1 {
        duration_phrase_str(secs, "second")
    } else {
        String::from_str("0 seconds")
    }
}

/// First index of `c` in `s`, or -1 when it does not occur.
pub open spec fn find_idx(s: Seq<char>, c: char) -> int
    decreases s.len(),
{
    if s.len() == 0 {
        -1
    } else if s[0] == c {
        0
    } else {
        let r = find_idx(s.drop_first(), c);
        if r == -1 {
            -1
        } else {
            1 + r
        }
    }
}

/// Last index of `c` in `s`, or -1 when it does not occur.
pub open spec fn rfind_idx(s: Seq<char>, c: char) -> int
    decreases s.len(),
{
    if s.len() == 0 {
        -1
    } else if s.last() == c {
        s.len() - 1
    } else {
        rfind_idx(s.drop_last(), c)
    }
}

pub proof fn lemma_find_idx_at(s: Seq<char>, c: char, k: int)
    requires
        0 <= k < s.len(),
        s[k] == c,
        forall|j: int| 0 <= j < k ==> s[j] != c,
    ensures
        find_idx(s, c) == k,
    decreases s.len(),
{
    if k > 0 {
        assert(forall|j: int| 0 <= j < k - 1 ==> s.drop_first()[j] != c);
        lemma_find_idx_at(s.drop_first(), c, k - 1);
    }
}

pub proof fn lemma_find_idx_none(s: Seq<char>, c: char)
    requires
        forall|j: int| 0 <= j < s.len() ==> s[j] != c,
    ensures
        find_idx(s, c) == -1,
    decreases s.len(),
{
    if s.len() > 0 {
        assert(forall|j: int| 0 <= j < s.drop_first().len() ==> s.drop_first()[j] != c);
        lemma_find_idx_none(s.drop_first(), c);
    }
}

pub proof fn lemma_rfind_idx_at(s: Seq<char>, c: char, k: int)
    requires
        0 <= k < s.len(),
        s[k] == c,
        forall|j: int| k < j < s.len() ==> s[j] != c,
    ensures
        rfind_idx(s, c) == k,
    decreases s.len(),
{
    if k < s.len() - 1 {
        assert(s.drop_last()[k] == c);
        assert(forall|j: int| k < j < s.drop_last().len() ==> s.drop_last()[j] != c);
        lemma_rfind_idx_at(s.drop_last(), c, k);
    }
}

pub proof fn lemma_rfind_idx_none(s: Seq<char>, c: char)
    requires
        forall|j: int| 0 <= j < s.len() ==> s[j] != c,
    ensures
        rfind_idx(s, c) == -1,
    decreases s.len(),
{
    if s.len() > 0 {
        assert(forall|j: int| 0 <= j < s.drop_last().len() ==> s.drop_last()[j] != c);
        lemma_rfind_idx_none(s.drop_last(), c);
    }
}

/// First index of `c`, executable form.
pub fn find_char(s: &str, c: char) -> (r: Option<usize>)
    ensures
        r is Some ==> find_idx(s@, c) == r.unwrap() as int && (r.unwrap() as int) < s@.len(),
        r is None ==> find_idx(s@, c) == -1,
{
    let len = s.unicode_len();
    let mut i: usize = 0;
    while i < len
        invariant
            len == s@.len(),
            i <= len,
            forall|j: int| 0 <= j < i ==> s@[j] != c,
        decreases len - i,
    {
        if s.get_char(i) == c {
            proof {
                lemma_find_idx_at(s@, c, i as int);
            }
            return Some(i);
        }
        i += 1;
    }
    proof {
        lemma_find_idx_none(s@, c);
    }
    None
}

/// Last index of `c`, executable form.
pub fn rfind_char(s: &str, c: char) -> (r: Option<usize>)
    ensures
        r is Some ==> rfind_idx(s@, c) == r.unwrap() as int && (r.unwrap() as int) < s@.len(),
        r is None ==> rfind_idx(s@, c) == -1,
{
    let len = s.unicode_len();
    let mut i: usize = len;
    while i > 0
        invariant
            len == s@.len(),
            i <= len,
            forall|j: int| i <= j < len ==> s@[j] != c,
        decreases i,
    {
        if s.get_char(i - 1) == c {
            proof {
                lemma_rfind_idx_at(s@, c, i - 1);
            }
            return Some(i - 1);
        }
        i -= 1;
    }
    proof {
        lemma_rfind_idx_none(s@, c);
    }
    None
}


/// `find_idx` stays within -1 and the length, and marks a real occurrence.
pub proof fn lemma_find_idx_bounds(s: Seq<char>, c: char)
    ensures
        -1 <= find_idx(s, c) < s.len(),
        find_idx(s, c) >= 0 ==> s[find_idx(s, c)] == c,
        find_idx(s, c) >= 0 ==> forall|j: int| 0 <= j < find_idx(s, c) ==> s[j] != c,
    decreases s.len(),
{
    if s.len() > 0 && s[0] != c {
        lemma_find_idx_bounds(s.drop_first(), c);
        let r = find_idx(s.drop_first(), c);
        if r >= 0 {
            assert forall|j: int| 0 <= j < 1 + r implies s[j] != c by {
                if j > 0 {
                    assert(s.drop_first()[j - 1] != c);
                }
            }
        }
    }
}

} // verus!
