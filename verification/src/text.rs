use vstd::prelude::*;

verus! {

broadcast use vstd::string::group_string_axioms;

/// The characters of `s`, in order.
pub fn str_chars(s: &str) -> (v: Vec<char>)
    ensures
        v@ == s@,
{
    let mut v: Vec<char> = Vec::new();
    for c in it: s.chars()
        invariant
            it.seq() == s@,
            v@ == it.seq().take(it.index() as int),
    {
        v.push(c);
    }
    v
}

/// A string holding the characters of `v`, collected by std's `FromIterator<&char>` for `String`.
/// Trusted, not proved: the string's characters are those of `v`, in order.
#[verifier::external_body]
pub(crate) fn string_from_chars(v: &[char]) -> (s: String)
    ensures
        s@ == v@,
{
    v.iter().collect()
}


/// Unicode white space, as `char::is_whitespace` defines it.
pub open spec fn is_ws(c: char) -> bool {
    c == ' ' || c == '\t' || c == '\n' || c == '\u{0B}' || c == '\u{0C}' || c == '\r'
        || c == '\u{85}' || c == '\u{A0}' || c == '\u{1680}'
        || ('\u{2000}' <= c && c <= '\u{200A}')
        || c == '\u{2028}' || c == '\u{2029}' || c == '\u{202F}' || c == '\u{205F}' || c == '\u{3000}'
}

/// Whether `c` is white space.
pub fn char_is_ws(c: char) -> (r: bool)
    ensures
        r == is_ws(c),
{
    c == ' ' || c == '\t' || c == '\n' || c == '\u{0B}' || c == '\u{0C}' || c == '\r'
        || c == '\u{85}' || c == '\u{A0}' || c == '\u{1680}'
        || ('\u{2000}' <= c && c <= '\u{200A}')
        || c == '\u{2028}' || c == '\u{2029}' || c == '\u{202F}' || c == '\u{205F}' || c == '\u{3000}'
}

/// The number of leading white-space characters of `s`.
pub open spec fn lead_ws(s: Seq<char>) -> nat
    decreases s.len(),
{
    if s.len() > 0 && is_ws(s[0]) { 1 + lead_ws(s.drop_first()) } else { 0 }
}

/// The number of trailing white-space characters of `s`.
pub open spec fn trail_ws(s: Seq<char>) -> nat
    decreases s.len(),
{
    if s.len() > 0 && is_ws(s.last()) { 1 + trail_ws(s.drop_last()) } else { 0 }
}

/// `s` without leading and trailing white space.
pub open spec fn trim_spec(s: Seq<char>) -> Seq<char> {
    let a = lead_ws(s) as int;
    if a == s.len() { Seq::empty() } else { s.subrange(a, s.len() - trail_ws(s) as int) }
}

proof fn lemma_lead_ws(s: Seq<char>, k: int)
    requires
        0 <= k <= s.len(),
        forall|j: int| 0 <= j < k ==> is_ws(#[trigger] s[j]),
    ensures
        lead_ws(s) == k + lead_ws(s.subrange(k, s.len() as int)),
    decreases k,
{
    if k > 0 {
        assert(is_ws(s[0]));
        assert forall|j: int| 0 <= j < k - 1 implies is_ws(#[trigger] s.drop_first()[j]) by {
            assert(is_ws(s[j + 1]));
        }
        lemma_lead_ws(s.drop_first(), k - 1);
        assert(s.drop_first().subrange(k - 1, s.drop_first().len() as int) =~= s.subrange(k, s.len() as int));
    } else {
        assert(s.subrange(0, s.len() as int) =~= s);
    }
}

proof fn lemma_trail_ws(s: Seq<char>, k: int)
    requires
        0 <= k <= s.len(),
        forall|j: int| s.len() - k <= j < s.len() ==> is_ws(#[trigger] s[j]),
    ensures
        trail_ws(s) == k + trail_ws(s.subrange(0, s.len() - k)),
    decreases k,
{
    if k > 0 {
        assert(is_ws(s[s.len() - 1]));
        assert forall|j: int| s.drop_last().len() - (k - 1) <= j < s.drop_last().len() implies is_ws(#[trigger] s.drop_last()[j]) by {
            assert(is_ws(s[j]));
        }
        lemma_trail_ws(s.drop_last(), k - 1);
        assert(s.drop_last().subrange(0, s.drop_last().len() - (k - 1)) =~= s.subrange(0, s.len() - k));
    } else {
        assert(s.subrange(0, s.len() as int) =~= s);
    }
}

proof fn lemma_lead_ws_bound(s: Seq<char>)
    ensures
        lead_ws(s) <= s.len(),
    decreases s.len(),
{
    if s.len() > 0 && is_ws(s[0]) {
        lemma_lead_ws_bound(s.drop_first());
    }
}

/// `s` without leading and trailing white space.
pub fn trim_chars(s: &[char]) -> (r: Vec<char>)
    ensures
        r@ == trim_spec(s@),
{
    let mut a: usize = 0;
    while a < s.len() && char_is_ws(s[a])
        invariant
            a <= s@.len(),
            forall|j: int| 0 <= j < a ==> is_ws(#[trigger] s@[j]),
        decreases s@.len() - a,
    {
        a += 1;
    }
    proof {
        lemma_lead_ws(s@, a as int);
    }
    if a == s.len() {
        return Vec::new();
    }
    let mut b: usize = s.len();
    while b > a && char_is_ws(s[b - 1])
        invariant
            a < s@.len(),
            a <= b <= s@.len(),
            forall|j: int| b <= j < s@.len() ==> is_ws(#[trigger] s@[j]),
        decreases b,
    {
        b -= 1;
    }
    proof {
        lemma_trail_ws(s@, s@.len() - b);
        assert(s@.subrange(0, b as int).len() > 0);
        assert(!is_ws(s@[a as int]));
        if b == a {
            assert(false);
        }
        assert(!is_ws(s@.subrange(0, b as int).last()));
    }
    let mut r: Vec<char> = Vec::new();
    let mut i: usize = a;
    while i < b
        invariant
            a <= i <= b <= s@.len(),
            r@ == s@.subrange(a as int, i as int),
        decreases b - i,
    {
        r.push(s[i]);
        i += 1;
        assert(r@ =~= s@.subrange(a as int, i as int));
    }
    r
}

/// ASCII upper-case letters mapped to lower case, everything else unchanged.
pub open spec fn lower_char(c: char) -> char {
    if 'A' <= c && c <= 'Z' { ((c as u32) + 32) as char } else { c }
}

/// `s` with ASCII letters in lower case.
pub open spec fn lower_spec(s: Seq<char>) -> Seq<char> {
    s.map_values(|c: char| lower_char(c))
}

/// `s` with ASCII letters in lower case.
pub fn lower_chars(s: &[char]) -> (r: Vec<char>)
    ensures
        r@ == lower_spec(s@),
{
    let mut r: Vec<char> = Vec::new();
    let mut i: usize = 0;
    while i < s.len()
        invariant
            i <= s@.len(),
            r@ == lower_spec(s@.subrange(0, i as int)),
        decreases s@.len() - i,
    {
        let c = s[i];
        let l = if 'A' <= c && c <= 'Z' { ((c as u8) + 32) as char } else { c };
        r.push(l);
        i += 1;
        assert(r@ =~= lower_spec(s@.subrange(0, i as int)));
    }
    r
}

/// Whether two character sequences are equal.
pub fn chars_eq(a: &[char], b: &[char]) -> (r: bool)
    ensures
        r == (a@ == b@),
{
    if a.len() != b.len() {
        return false;
    }
    let mut i: usize = 0;
    while i < a.len()
        invariant
            a@.len() == b@.len(),
            i <= a@.len(),
            forall|j: int| 0 <= j < i ==> a@[j] == b@[j],
        decreases a@.len() - i,
    {
        if a[i] != b[i] {
            return false;
        }
        i += 1;
    }
    assert(a@ =~= b@);
    true
}

/// Whether `a` equals the string literal `lit`.
pub fn chars_eq_str(a: &[char], lit: &str) -> (r: bool)
    ensures
        r == (a@ == lit@),
{
    let b = str_chars(lit);
    chars_eq(a, b.as_slice())
}


/// The character of decimal digit `d`.
pub open spec fn digit_char(d: int) -> char {
    (('0' as int) + d) as char
}

/// Whether `c` is an ASCII decimal digit.
pub open spec fn is_digit(c: char) -> bool {
    '0' <= c && c <= '9'
}

/// The value of an ASCII decimal digit.
pub open spec fn digit_val(c: char) -> int {
    c as int - '0' as int
}

/// The decimal representation of `n`, without leading zeros.
pub open spec fn dec_string(n: nat) -> Seq<char>
    decreases n,
{
    if n < 10 {
        seq![digit_char(n as int)]
    } else {
        dec_string(n / 10).push(digit_char((n % 10) as int))
    }
}

/// The decimal representation of a signed integer.
pub open spec fn signed_string(n: int) -> Seq<char> {
    if n < 0 { seq!['-'] + dec_string((-n) as nat) } else { dec_string(n as nat) }
}

/// `s` padded on the left with zeros to at least `w` characters.
pub open spec fn zero_pad(s: Seq<char>, w: nat) -> Seq<char> {
    if s.len() < w { Seq::new((w - s.len()) as nat, |i: int| '0') + s } else { s }
}

/// Whether every character of `s` is a decimal digit.
pub open spec fn all_digits(s: Seq<char>) -> bool {
    forall|i: int| 0 <= i < s.len() ==> is_digit(#[trigger] s[i])
}

/// The value of a string of decimal digits.
pub open spec fn digits_value(s: Seq<char>) -> nat
    decreases s.len(),
{
    if s.len() == 0 {
        0
    } else {
        (digits_value(s.drop_last()) * 10 + digit_val(s.last())) as nat
    }
}

/// What `str::parse` gives for an unsigned integer type, before the range check: an optional `+`
/// followed by at least one decimal digit.
pub open spec fn parse_unsigned_spec(s: Seq<char>) -> Option<nat> {
    let t = if s.len() > 0 && s[0] == '+' { s.drop_first() } else { s };
    if t.len() > 0 && all_digits(t) { Some(digits_value(t)) } else { None }
}

/// What `str::parse` gives for a signed integer type, before the range check: an optional `+` or
/// `-` followed by at least one decimal digit.
pub open spec fn parse_signed_spec(s: Seq<char>) -> Option<int> {
    if s.len() > 0 && s[0] == '-' {
        let t = s.drop_first();
        if t.len() > 0 && all_digits(t) { Some(-(digits_value(t) as int)) } else { None }
    } else {
        match parse_unsigned_spec(s) {
            Some(v) => Some(v as int),
            None => None,
        }
    }
}

/// Writing `dec_string` and reading it back gives the number.
pub proof fn lemma_dec_string_digits(n: nat)
    ensures
        dec_string(n).len() > 0,
        all_digits(dec_string(n)),
        digits_value(dec_string(n)) == n,
        dec_string(n)[0] != '-' && dec_string(n)[0] != '+',
    decreases n,
{
    if n < 10 {
        assert(digit_val(digit_char(n as int)) == n as int);
        let s = dec_string(n);
        assert(s.drop_last() =~= Seq::<char>::empty());
        assert(digits_value(s) == digits_value(s.drop_last()) * 10 + digit_val(s.last()));
    }
    if n >= 10 {
        lemma_dec_string_digits(n / 10);
        let s = dec_string(n);
        assert(s.drop_last() =~= dec_string(n / 10));
        let d = (n % 10) as int;
        assert(digit_val(digit_char(d)) == d);
        assert(n == (n / 10) * 10 + n % 10);
        assert(s.last() == digit_char(d));
        assert(digits_value(s) == digits_value(s.drop_last()) * 10 + digit_val(s.last()));
        assert(digits_value(s) == n);
        assert forall|i: int| 0 <= i < s.len() implies is_digit(#[trigger] s[i]) by {
            if i < s.len() - 1 {
                assert(s[i] == dec_string(n / 10)[i]);
            }
        }
    }
}

/// A longer all-digit prefix has at least the value of a shorter one.
proof fn lemma_digits_prefix_mono(s: Seq<char>, k: int, j: int)
    requires
        all_digits(s),
        0 <= k <= j <= s.len(),
    ensures
        digits_value(s.take(k)) <= digits_value(s.take(j)),
    decreases j - k,
{
    if k < j {
        lemma_digits_prefix_mono(s, k, j - 1);
        assert(s.take(j).drop_last() =~= s.take(j - 1));
        assert(is_digit(s[j - 1]));
    }
}

/// The value of `s[start..]` as decimal digits when it is non-empty, all digits and at most `max`.
fn parse_digits(s: &[char], start: usize, max: u128) -> (r: Option<u128>)
    requires
        start <= s@.len(),
    ensures
        r == (if s@.len() > start && all_digits(s@.skip(start as int)) && digits_value(s@.skip(start as int)) <= max {
            Some(digits_value(s@.skip(start as int)) as u128)
        } else {
            None
        }),
{
    let ghost t = s@.skip(start as int);
    if start >= s.len() {
        return None;
    }
    let mut acc: u128 = 0;
    let mut i: usize = start;
    while i < s.len()
        invariant
            start <= i <= s@.len(),
            t == s@.skip(start as int),
            all_digits(t.take(i - start)),
            acc == digits_value(t.take(i - start)),
            acc <= max,
        decreases s@.len() - i,
    {
        let c = s[i];
        if c < '0' || c > '9' {
            proof {
                assert(t[i - start] == c);
            }
            return None;
        }
        let d = ((c as u32) - ('0' as u32)) as u128;
        proof {
            assert(t.take(i - start + 1).drop_last() =~= t.take(i - start));
            assert(t.take(i - start + 1).last() == c);
        }
        if d > max || acc > (max - d) / 10 {
            proof {
                assert(acc * 10 + d > max) by (nonlinear_arith) requires d > max || acc > (max - d) / 10, acc >= 0;
                if all_digits(t) {
                    lemma_digits_prefix_mono(t, i - start + 1, t.len() as int);
                    assert(t.take(t.len() as int) =~= t);
                }
            }
            return None;
        }
        proof {
            assert(acc * 10 + d <= max) by (nonlinear_arith) requires acc <= (max - d) / 10, d <= max;
        }
        acc = acc * 10 + d;
        i += 1;
    }
    proof {
        assert(t.take(i - start) =~= t);
    }
    Some(acc)
}

/// `str::parse::<usize>` on the characters of `s`.
pub fn parse_usize(s: &[char]) -> (r: Option<usize>)
    ensures
        r == (match parse_unsigned_spec(s@) {
            Some(v) => if v <= usize::MAX { Some(v as usize) } else { None },
            None => None,
        }),
{
    let start: usize = if s.len() > 0 && s[0] == '+' { 1 } else { 0 };
    proof {
        if start == 1 {
            assert(s@.skip(1) =~= s@.drop_first());
        } else {
            assert(s@.skip(0) =~= s@);
        }
    }
    match parse_digits(s, start, usize::MAX as u128) {
        Some(v) => Some(v as usize),
        None => None,
    }
}

/// `str::parse::<u32>` on the characters of `s`.
pub fn parse_u32(s: &[char]) -> (r: Option<u32>)
    ensures
        r == (match parse_unsigned_spec(s@) {
            Some(v) => if v <= u32::MAX { Some(v as u32) } else { None },
            None => None,
        }),
{
    let start: usize = if s.len() > 0 && s[0] == '+' { 1 } else { 0 };
    proof {
        if start == 1 {
            assert(s@.skip(1) =~= s@.drop_first());
        } else {
            assert(s@.skip(0) =~= s@);
        }
    }
    match parse_digits(s, start, u32::MAX as u128) {
        Some(v) => Some(v as u32),
        None => None,
    }
}

/// `str::parse::<i32>` on the characters of `s`.
pub fn parse_i32(s: &[char]) -> (r: Option<i32>)
    ensures
        r == (match parse_signed_spec(s@) {
            Some(v) => if i32::MIN <= v <= i32::MAX { Some(v as i32) } else { None },
            None => None,
        }),
{
    if s.len() > 0 && s[0] == '-' {
        proof {
            assert(s@.skip(1) =~= s@.drop_first());
        }
        match parse_digits(s, 1, 0x8000_0000u128) {
            Some(v) => {
                let n = 0i64 - (v as i64);
                Some(n as i32)
            },
            None => None,
        }
    } else {
        let start: usize = if s.len() > 0 && s[0] == '+' { 1 } else { 0 };
        proof {
            if start == 1 {
                assert(s@.skip(1) =~= s@.drop_first());
            } else {
                assert(s@.skip(0) =~= s@);
            }
        }
        match parse_digits(s, start, 0x7fff_ffffu128) {
            Some(v) => Some(v as i32),
            None => None,
        }
    }
}

/// Appends the decimal representation of `n`.
pub fn push_dec(out: &mut Vec<char>, n: u128)
    ensures
        final(out)@ == old(out)@ + dec_string(n as nat),
    decreases n,
{
    if n >= 10 {
        push_dec(out, n / 10);
    }
    let d = (n % 10) as u8;
    let c = (48u8 + d) as char;
    out.push(c);
    proof {
        assert(c == digit_char((n % 10) as int));
        if n >= 10 {
            assert(final(out)@ =~= old(out)@ + dec_string(n as nat));
        } else {
            assert(final(out)@ =~= old(out)@ + dec_string(n as nat));
        }
    }
}

/// Appends the decimal representation of a signed number.
pub fn push_signed(out: &mut Vec<char>, n: i64)
    ensures
        final(out)@ == old(out)@ + signed_string(n as int),
{
    if n < 0 {
        out.push('-');
        let m = (0i128 - (n as i128)) as u128;
        push_dec(out, m);
        assert(final(out)@ =~= old(out)@ + signed_string(n as int));
    } else {
        push_dec(out, n as u128);
    }
}

/// Appends `n` in decimal, padded on the left with zeros to at least `w` digits.
pub fn push_dec_padded(out: &mut Vec<char>, n: u128, w: usize)
    ensures
        final(out)@ == old(out)@ + zero_pad(dec_string(n as nat), w as nat),
{
    let mut digits: Vec<char> = Vec::new();
    push_dec(&mut digits, n);
    assert(digits@ =~= dec_string(n as nat));
    let mut k: usize = digits.len();
    while k < w
        invariant
            digits@.len() <= k <= w || (k == digits@.len() && k >= w),
            final_ok(old(out)@, out@, k - digits@.len()),
        decreases w - k,
    {
        let ghost prev = out@;
        out.push('0');
        proof {
            assert(out@ =~= old(out)@ + Seq::new((k + 1 - digits@.len()) as nat, |j: int| '0'));
        }
        k += 1;
    }
    let mut i: usize = 0;
    let ghost mid = out@;
    while i < digits.len()
        invariant
            i <= digits@.len(),
            out@ == mid + digits@.subrange(0, i as int),
        decreases digits@.len() - i,
    {
        out.push(digits[i]);
        i += 1;
        assert(out@ =~= mid + digits@.subrange(0, i as int));
    }
    proof {
        assert(digits@.subrange(0, digits@.len() as int) =~= digits@);
        if digits@.len() < w {
            assert(mid =~= old(out)@ + Seq::new((w - digits@.len()) as nat, |j: int| '0'));
        } else {
            assert(mid =~= old(out)@);
        }
        assert(out@ =~= old(out)@ + zero_pad(dec_string(n as nat), w as nat));
    }
}

/// `after` is `before` followed by `n` zeros.
pub open spec fn final_ok(before: Seq<char>, after: Seq<char>, n: int) -> bool {
    n >= 0 && after == before + Seq::new(n as nat, |j: int| '0')
}


/// `s` cut at every occurrence of `sep` (`str::split` with a character): always at least one piece.
pub open spec fn split_spec(s: Seq<char>, sep: char) -> Seq<Seq<char>>
    decreases s.len(),
{
    if s.len() == 0 {
        seq![Seq::<char>::empty()]
    } else {
        let p = split_spec(s.drop_last(), sep);
        if s.last() == sep {
            p.push(Seq::empty())
        } else {
            p.update(p.len() - 1, p.last().push(s.last()))
        }
    }
}

/// `split_spec` never yields an empty list.
pub proof fn lemma_split_nonempty(s: Seq<char>, sep: char)
    ensures
        split_spec(s, sep).len() >= 1,
    decreases s.len(),
{
    if s.len() > 0 {
        lemma_split_nonempty(s.drop_last(), sep);
    }
}

/// `s` cut at every white-space character (`str::split(char::is_whitespace)`).
pub open spec fn split_ws_raw(s: Seq<char>) -> Seq<Seq<char>>
    decreases s.len(),
{
    if s.len() == 0 {
        seq![Seq::<char>::empty()]
    } else {
        let p = split_ws_raw(s.drop_last());
        if is_ws(s.last()) {
            p.push(Seq::empty())
        } else {
            p.update(p.len() - 1, p.last().push(s.last()))
        }
    }
}

/// `split_ws_raw` never yields an empty list.
pub proof fn lemma_split_ws_nonempty(s: Seq<char>)
    ensures
        split_ws_raw(s).len() >= 1,
    decreases s.len(),
{
    if s.len() > 0 {
        lemma_split_ws_nonempty(s.drop_last());
    }
}

/// The non-empty pieces of `s` between white space (`str::split_whitespace`).
pub open spec fn words_spec(s: Seq<char>) -> Seq<Seq<char>> {
    split_ws_raw(s).filter(|w: Seq<char>| w.len() > 0)
}

/// The texts of a list of strings.
pub open spec fn texts(v: Seq<String>) -> Seq<Seq<char>> {
    v.map_values(|s: String| s@)
}

/// The views of a list of character vectors.
pub open spec fn views(v: Seq<Vec<char>>) -> Seq<Seq<char>> {
    v.map_values(|x: Vec<char>| x@)
}

/// `s` cut at every occurrence of `sep`.
pub fn split_chars(s: &[char], sep: char) -> (pieces: Vec<Vec<char>>)
    ensures
        views(pieces@) == split_spec(s@, sep),
{
    let mut pieces: Vec<Vec<char>> = Vec::new();
    let mut cur: Vec<char> = Vec::new();
    let mut i: usize = 0;
    while i < s.len()
        invariant
            i <= s@.len(),
            views(pieces@).push(cur@) == split_spec(s@.take(i as int), sep),
        decreases s@.len() - i,
    {
        let c = s[i];
        let ghost before = views(pieces@).push(cur@);
        proof {
            assert(s@.take(i + 1).drop_last() =~= s@.take(i as int));
            lemma_split_nonempty(s@.take(i as int), sep);
        }
        if c == sep {
            let done = cur;
            pieces.push(done);
            cur = Vec::new();
            proof {
                assert(views(pieces@).push(cur@) =~= before.push(Seq::<char>::empty()));
            }
        } else {
            cur.push(c);
            proof {
                assert(views(pieces@).push(cur@) =~= before.update(before.len() - 1, before.last().push(c)));
            }
        }
        i += 1;
    }
    pieces.push(cur);
    proof {
        assert(s@.take(s@.len() as int) =~= s@);
        assert(views(pieces@) =~= split_spec(s@, sep));
    }
    pieces
}

/// The non-empty pieces of `s` between white space.
pub fn split_whitespace_chars(s: &[char]) -> (words: Vec<Vec<char>>)
    ensures
        views(words@) == words_spec(s@),
{
    let mut pieces: Vec<Vec<char>> = Vec::new();
    let mut cur: Vec<char> = Vec::new();
    let mut i: usize = 0;
    while i < s.len()
        invariant
            i <= s@.len(),
            views(pieces@).push(cur@) == split_ws_raw(s@.take(i as int)),
        decreases s@.len() - i,
    {
        let c = s[i];
        let ghost before = views(pieces@).push(cur@);
        proof {
            assert(s@.take(i + 1).drop_last() =~= s@.take(i as int));
            lemma_split_ws_nonempty(s@.take(i as int));
        }
        if char_is_ws(c) {
            let done = cur;
            pieces.push(done);
            cur = Vec::new();
            proof {
                assert(views(pieces@).push(cur@) =~= before.push(Seq::<char>::empty()));
            }
        } else {
            cur.push(c);
            proof {
                assert(views(pieces@).push(cur@) =~= before.update(before.len() - 1, before.last().push(c)));
            }
        }
        i += 1;
    }
    pieces.push(cur);
    proof {
        assert(s@.take(s@.len() as int) =~= s@);
        assert(views(pieces@) =~= split_ws_raw(s@));
    }
    let ghost raw = views(pieces@);
    let ghost pred = |w: Seq<char>| w.len() > 0;
    let mut words: Vec<Vec<char>> = Vec::new();
    let mut k: usize = 0;
    while k < pieces.len()
        invariant
            k <= pieces@.len(),
            raw == views(pieces@),
            pred == |w: Seq<char>| w.len() > 0,
            views(words@) == raw.take(k as int).filter(pred),
        decreases pieces@.len() - k,
    {
        proof {
            assert(raw.take(k + 1) =~= raw.take(k as int).push(raw[k as int]));
            raw.take(k as int).lemma_filter_push(raw[k as int], pred);
            assert(raw[k as int] == pieces@[k as int]@);
        }
        if pieces[k].len() > 0 {
            let w = pieces[k].clone();
            let ghost before = words@;
            words.push(w);
            proof {
                assert(views(words@) =~= views(before).push(w@));
            }
        }
        k += 1;
    }
    proof {
        assert(raw.take(raw.len() as int) =~= raw);
    }
    words
}

/// The index of the first `c` in `s` at or after `k`, or `s.len()` when none.
pub open spec fn first_index_from(s: Seq<char>, c: char, k: int) -> int
    decreases s.len() - k,
{
    if k < 0 || k >= s.len() {
        s.len() as int
    } else if s[k] == c {
        k
    } else {
        first_index_from(s, c, k + 1)
    }
}

/// `str::split_once(c)`: the parts before and after the first `c`, if any.
pub open spec fn split_once_spec(s: Seq<char>, c: char) -> Option<(Seq<char>, Seq<char>)> {
    let k = first_index_from(s, c, 0);
    if k < s.len() { Some((s.take(k), s.skip(k + 1))) } else { None }
}

/// The index of the first `c` in `s`, or `s.len()`.
pub fn find_char(s: &[char], c: char) -> (k: usize)
    ensures
        k == first_index_from(s@, c, 0),
        k <= s@.len(),
{
    let mut k: usize = 0;
    while k < s.len()
        invariant_except_break
            k <= s@.len(),
            first_index_from(s@, c, 0) == first_index_from(s@, c, k as int),
        ensures
            k == first_index_from(s@, c, 0),
            k <= s@.len(),
        decreases s@.len() - k,
    {
        if s[k] == c {
            break;
        }
        k += 1;
    }
    k
}

/// The characters `s[from..to]`.
pub fn sub_chars(s: &[char], from: usize, to: usize) -> (r: Vec<char>)
    requires
        from <= to <= s@.len(),
    ensures
        r@ == s@.subrange(from as int, to as int),
{
    let mut r: Vec<char> = Vec::new();
    let mut i: usize = from;
    while i < to
        invariant
            from <= i <= to <= s@.len(),
            r@ == s@.subrange(from as int, i as int),
        decreases to - i,
    {
        r.push(s[i]);
        i += 1;
        assert(r@ =~= s@.subrange(from as int, i as int));
    }
    r
}

/// `str::split_once(c)` on characters.
pub fn split_once_chars(s: &[char], c: char) -> (r: Option<(Vec<char>, Vec<char>)>)
    ensures
        match (r, split_once_spec(s@, c)) {
            (Some((a, b)), Some((x, y))) => a@ == x && b@ == y,
            (None, None) => true,
            _ => false,
        },
{
    let k = find_char(s, c);
    if k < s.len() {
        let a = sub_chars(s, 0, k);
        let b = sub_chars(s, k + 1, s.len());
        proof {
            assert(a@ =~= s@.take(k as int));
            assert(b@ =~= s@.skip(k + 1));
        }
        Some((a, b))
    } else {
        None
    }
}

} // verus!
