//! Text helpers on `String` and `str`, with their models over `Seq<char>`.

use vstd::prelude::*;

verus! {

/// `String::push` appends one character to the string (std documentation).
pub assume_specification[ String::push ](s: &mut String, ch: char)
    ensures
        final(s)@ == old(s)@.push(ch),
;

/// The character of a decimal digit `d` (for `d < 10`).
pub open spec fn digit_char(d: nat) -> char {
    if d == 0 { '0' }
    else if d == 1 { '1' }
    else if d == 2 { '2' }
    else if d == 3 { '3' }
    else if d == 4 { '4' }
    else if d == 5 { '5' }
    else if d == 6 { '6' }
    else if d == 7 { '7' }
    else if d == 8 { '8' }
    else { '9' }
}

/// The decimal notation of `n`, as `Display` writes an unsigned integer.
pub open spec fn decimal(n: nat) -> Seq<char>
    decreases n,
{
    if n < 10 {
        seq![digit_char(n)]
    } else {
        decimal(n / 10).push(digit_char(n % 10))
    }
}

fn digit_to_char(d: usize) -> (c: char)
    requires
        d < 10,
    ensures
        c == digit_char(d as nat),
{
    if d == 0 { '0' }
    else if d == 1 { '1' }
    else if d == 2 { '2' }
    else if d == 3 { '3' }
    else if d == 4 { '4' }
    else if d == 5 { '5' }
    else if d == 6 { '6' }
    else if d == 7 { '7' }
    else if d == 8 { '8' }
    else { '9' }
}

/// Appends the decimal notation of `n` to `out`.
pub fn push_decimal(out: &mut String, n: usize)
    ensures
        final(out)@ == old(out)@ + decimal(n as nat),
    decreases n,
{
    if n >= 10 {
        push_decimal(out, n / 10);
    }
    let c = digit_to_char(n % 10);
    out.push(c);
    proof {
        assert(decimal(n as nat) == if n < 10 { seq![digit_char(n as nat)] } else {
            decimal((n / 10) as nat).push(digit_char((n % 10) as nat))
        });
        if n < 10 {
            assert(n % 10 == n);
        }
    }
}

/// Whether `c` ends a line: a carriage return or a line feed.
pub open spec fn is_line_end_char(c: char) -> bool {
    c == '\r' || c == '\n'
}

/// `s` without its trailing carriage returns and line feeds.
pub open spec fn trim_line_end(s: Seq<char>) -> Seq<char>
    decreases s.len(),
{
    if s.len() > 0 && is_line_end_char(s.last()) {
        trim_line_end(s.drop_last())
    } else {
        s
    }
}

/// `line` without the carriage returns and line feeds at its end.
pub fn trim_line_ending(line: &str) -> (res: &str)
    ensures
        res@ == trim_line_end(line@),
{
    let len = line.unicode_len();
    let mut end = len;
    assert(line@.subrange(0, end as int) =~= line@);
    while end > 0 && is_line_end(line.get_char(end - 1))
        invariant
            end <= len,
            len == line@.len(),
            trim_line_end(line@.subrange(0, end as int)) == trim_line_end(line@),
        decreases end,
    {
        assert(line@.subrange(0, end as int).drop_last() =~= line@.subrange(0, end - 1));
        end = end - 1;
    }
    line.substring_char(0, end)
}

/// Trimming the line ending twice is trimming it once.
pub proof fn lemma_trim_line_end_idempotent(s: Seq<char>)
    ensures
        trim_line_end(trim_line_end(s)) == trim_line_end(s),
    decreases s.len(),
{
    if s.len() > 0 && is_line_end_char(s.last()) {
        lemma_trim_line_end_idempotent(s.drop_last());
    }
}

fn is_line_end(c: char) -> (r: bool)
    ensures
        r == is_line_end_char(c),
{
    c == '\r' || c == '\n'
}


/// Whether `c` is an ASCII decimal digit.
pub open spec fn is_digit(c: char) -> bool {
    '0' <= c && c <= '9'
}

/// The value of the decimal digit `c`.
pub open spec fn digit_value(c: char) -> nat {
    (c as int - '0' as int) as nat
}

/// The value of a string of decimal digits (leading zeros allowed).
pub open spec fn digits_value(s: Seq<char>) -> nat
    decreases s.len(),
{
    if s.len() == 0 {
        0
    } else {
        digits_value(s.drop_last()) * 10 + digit_value(s.last())
    }
}

/// `s` without one leading `+`, where it has one.
pub open spec fn without_plus(s: Seq<char>) -> Seq<char> {
    if s.len() > 0 && s[0] == '+' {
        s.drop_first()
    } else {
        s
    }
}

/// What `usize::from_str` accepts, as its documentation states it: an
/// optional `+`, then one or more ASCII digits, whose value fits in `usize`.
pub open spec fn parse_usize_spec(s: Seq<char>) -> Option<usize> {
    let d = without_plus(s);
    if d.len() > 0 && (forall|i: int| 0 <= i < d.len() ==> is_digit(#[trigger] d[i]))
        && digits_value(d) <= usize::MAX {
        Some(digits_value(d) as usize)
    } else {
        None
    }
}

proof fn lemma_digits_value_prefix(s: Seq<char>, k: int)
    requires
        0 <= k <= s.len(),
    ensures
        digits_value(s.take(k)) <= digits_value(s),
    decreases s.len(),
{
    if k < s.len() {
        assert(s.drop_last().take(k) =~= s.take(k));
        lemma_digits_value_prefix(s.drop_last(), k);
        assert(digits_value(s) >= digits_value(s.drop_last())) by (nonlinear_arith)
            requires
                digits_value(s) == digits_value(s.drop_last()) * 10 + digit_value(s.last()),
        ;
    } else {
        assert(s.take(k) =~= s);
    }
}

/// Parses a decimal `usize` the way `usize::from_str` does.
pub fn parse_usize(text: &str) -> (res: Option<usize>)
    ensures
        res == parse_usize_spec(text@),
{
    let len = text.unicode_len();
    let mut i: usize = 0;
    if len > 0 && text.get_char(0) == '+' {
        i = 1;
    }
    let ghost d = without_plus(text@);
    let ghost skip: int = i as int;
    assert(d =~= text@.subrange(skip, len as int));
    if i == len {
        return None;
    }
    let mut acc: usize = 0;
    while i < len
        invariant
            0 <= skip <= i <= len,
            len == text@.len(),
            d == text@.subrange(skip, len as int),
            d == without_plus(text@),
            forall|j: int| 0 <= j < i - skip ==> is_digit(#[trigger] d[j]),
            acc == digits_value(d.take(i - skip)),
        decreases len - i,
    {
        let c = text.get_char(i);
        if !('0' <= c && c <= '9') {
            assert(d[i - skip] == c);
            assert(!is_digit(d[i - skip]));
            return None;
        }
        let dv = (c as u32 - '0' as u32) as usize;
        assert(d.take(i - skip + 1).drop_last() =~= d.take(i - skip));
        assert(d.take(i - skip + 1).last() == c);
        assert(digit_value(c) == dv);
        assert(digits_value(d.take(i - skip + 1)) == acc * 10 + dv);
        match acc.checked_mul(10) {
            Some(m) => match m.checked_add(dv) {
                Some(a) => {
                    acc = a;
                },
                None => {
                    proof {
                        lemma_digits_value_prefix(d, i - skip + 1);
                    }
                    return None;
                },
            },
            None => {
                proof {
                    lemma_digits_value_prefix(d, i - skip + 1);
                    assert(digits_value(d.take(i - skip + 1)) >= acc * 10);
                }
                return None;
            },
        }
        i = i + 1;
    }
    assert(d.take(len - skip) =~= d);
    Some(acc)
}

/// Whether two strings hold the same characters.
pub fn same_text(a: &str, b: &str) -> (r: bool)
    ensures
        r == (a@ == b@),
{
    let la = a.unicode_len();
    let lb = b.unicode_len();
    if la != lb {
        return false;
    }
    let mut i: usize = 0;
    while i < la
        invariant
            i <= la,
            la == a@.len(),
            lb == b@.len(),
            la == lb,
            forall|j: int| 0 <= j < i ==> a@[j] == b@[j],
        decreases la - i,
    {
        if a.get_char(i) != b.get_char(i) {
            return false;
        }
        i = i + 1;
    }
    assert(a@ =~= b@);
    true
}

/// Whether `s` begins with `prefix`.
pub open spec fn has_prefix(s: Seq<char>, prefix: Seq<char>) -> bool {
    prefix.len() <= s.len() && s.take(prefix.len() as int) == prefix
}

/// `text` without `prefix`, where it begins with it (`str::strip_prefix`).
pub fn strip_prefix<'a>(text: &'a str, prefix: &str) -> (res: Option<&'a str>)
    ensures
        has_prefix(text@, prefix@) ==> (res matches Some(r) && r@ == text@.skip(prefix@.len() as int)),
        !has_prefix(text@, prefix@) ==> res is None,
{
    let lt = text.unicode_len();
    let lp = prefix.unicode_len();
    if lp > lt {
        return None;
    }
    let head = text.substring_char(0, lp);
    if same_text(head, prefix) {
        Some(text.substring_char(lp, lt))
    } else {
        None
    }
}

/// What `String::from_utf8_lossy` makes of `bytes`.
pub uninterp spec fn utf8_lossy(bytes: Seq<u8>) -> Seq<char>;

/// Decodes `bytes` as UTF-8, with U+FFFD in place of each invalid sequence:
/// `String::from_utf8_lossy`. The result is named by `utf8_lossy`, a function
/// of the bytes alone; beyond that, only what the documentation gives is
/// stated: bytes that are UTF-8 come out as the text `std::str::from_utf8`
/// reads in them.
#[verifier::external_body]
pub(crate) fn decode_utf8_lossy(bytes: &[u8]) -> (res: String)
    ensures
        res@ == utf8_lossy(bytes@),
        utf8_strict(bytes@) matches Some(t) ==> res@ == t,
{
    String::from_utf8_lossy(bytes).into_owned()
}

/// What `std::str::from_utf8` makes of `bytes`: their text, or `None` where
/// they are not UTF-8.
pub uninterp spec fn utf8_strict(bytes: Seq<u8>) -> Option<Seq<char>>;

/// Decodes `bytes` as UTF-8 with `std::str::from_utf8`, or `None` where they
/// are not UTF-8. The text is named by `utf8_strict`, a function of the bytes
/// alone.
#[verifier::external_body]
pub(crate) fn decode_utf8(bytes: &[u8]) -> (res: Option<String>)
    ensures
        res is None <==> utf8_strict(bytes@) is None,
        res matches Some(s) ==> utf8_strict(bytes@) == Some(s@),
{
    match std::str::from_utf8(bytes) {
        Ok(text) => Some(text.to_owned()),
        Err(_) => None,
    }
}

} // verus!
