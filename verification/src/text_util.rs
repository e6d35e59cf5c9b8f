use vstd::prelude::*;

verus! {

/// Appends one character to a string (std `String::push`).
#[verifier::external_body]
pub fn push_char(s: &mut String, c: char)
    ensures
        final(s)@ == old(s)@.push(c),
{
    s.push(c);
}

/// The characters of a string slice, in order.
pub fn chars_of(s: &str) -> (r: Vec<char>)
    ensures
        r@ == s@,
{
    let n = s.unicode_len();
    let mut r: Vec<char> = Vec::new();
    let mut i: usize = 0;
    while i < n
        invariant
            n == s@.len(),
            i <= n,
            r@ == s@.subrange(0, i as int),
        decreases n - i,
    {
        let c = s.get_char(i);
        r.push(c);
        i = i + 1;
    }
    r
}

/// The character of a decimal digit.
pub open spec fn digit_char(d: int) -> char {
    if d == 0 {
        '0'
    } else if d == 1 {
        '1'
    } else if d == 2 {
        '2'
    } else if d == 3 {
        '3'
    } else if d == 4 {
        '4'
    } else if d == 5 {
        '5'
    } else if d == 6 {
        '6'
    } else if d == 7 {
        '7'
    } else if d == 8 {
        '8'
    } else {
        '9'
    }
}

/// The decimal notation of a natural number, without leading zeros.
pub open spec fn decimal(n: nat) -> Seq<char>
    decreases n,
{
    if n < 10 {
        seq![digit_char(n as int)]
    } else {
        decimal(n / 10).push(digit_char((n % 10) as int))
    }
}

fn digit(d: u64) -> (c: char)
    requires
        d < 10,
    ensures
        c == digit_char(d as int),
{
    if d == 0 {
        '0'
    } else if d == 1 {
        '1'
    } else if d == 2 {
        '2'
    } else if d == 3 {
        '3'
    } else if d == 4 {
        '4'
    } else if d == 5 {
        '5'
    } else if d == 6 {
        '6'
    } else if d == 7 {
        '7'
    } else if d == 8 {
        '8'
    } else {
        '9'
    }
}

/// Appends the decimal notation of `n` to `s`.
pub fn push_decimal(s: &mut String, n: u64)
    ensures
        final(s)@ == old(s)@ + decimal(n as nat),
    decreases n,
{
    if n >= 10 {
        push_decimal(s, n / 10);
    }
    push_char(s, digit(n % 10));
    proof {
        if n >= 10 {
            assert(decimal(n as nat) == decimal((n / 10) as nat).push(digit_char((n % 10) as int)));
        }
        assert(s@ =~= old(s)@ + decimal(n as nat));
    }
}

/// The decimal notation of `x`, with a minus sign when it is negative.
pub open spec fn signed_decimal(x: int) -> Seq<char> {
    if x < 0 {
        seq!['-'] + decimal((-x) as nat)
    } else {
        decimal(x as nat)
    }
}

/// Appends the decimal notation of `n`, with its sign, to `s`.
pub fn push_signed_decimal(s: &mut String, n: i64)
    ensures
        final(s)@ == old(s)@ + signed_decimal(n as int),
{
    if n < 0 {
        push_char(s, '-');
        let below: i64 = 0 - (n + 1);
        let magnitude: u64 = below as u64 + 1;
        push_decimal(s, magnitude);
        assert(s@ =~= old(s)@ + signed_decimal(n as int));
    } else {
        push_decimal(s, n as u64);
    }
}

/// The decimal notation of `n` (what `n.to_string()` gives).
pub fn u64_to_string(n: u64) -> (r: String)
    ensures
        r@ == decimal(n as nat),
{
    let mut s = String::new();
    push_decimal(&mut s, n);
    assert(s@ =~= decimal(n as nat));
    s
}

/// A string holding the characters of a literal.
pub fn text(lit: &str) -> (r: String)
    ensures
        r@ == lit@,
{
    String::from_str(lit)
}

/// Whether two strings hold the same characters.
pub fn str_eq(a: &str, b: &str) -> (r: bool)
    ensures
        r == (a@ == b@),
{
    let x = chars_of(a);
    let y = chars_of(b);
    if x.len() != y.len() {
        return false;
    }
    let mut i: usize = 0;
    while i < x.len()
        invariant
            x@ == a@,
            y@ == b@,
            x.len() == y.len(),
            i <= x.len(),
            forall|j: int| 0 <= j < i ==> x@[j] == y@[j],
        decreases x.len() - i,
    {
        if x[i] != y[i] {
            return false;
        }
        i = i + 1;
    }
    assert(a@ =~= b@);
    true
}

/// A string of the given characters.
pub fn string_of_chars(cs: &Vec<char>, from: usize, to: usize) -> (r: String)
    requires
        from <= to <= cs.len(),
    ensures
        r@ == cs@.subrange(from as int, to as int),
{
    let mut s = String::new();
    let mut i = from;
    while i < to
        invariant
            from <= i <= to <= cs.len(),
            s@ == cs@.subrange(from as int, i as int),
        decreases to - i,
    {
        push_char(&mut s, cs[i]);
        assert(s@ =~= cs@.subrange(from as int, i + 1));
        i = i + 1;
    }
    s
}

/// The items separated by `sep`.
pub open spec fn join(items: Seq<Seq<char>>, sep: Seq<char>) -> Seq<char>
    decreases items.len(),
{
    if items.len() == 0 {
        Seq::empty()
    } else if items.len() == 1 {
        items[0]
    } else {
        join(items.drop_last(), sep) + sep + items.last()
    }
}

/// The characters that `char::is_whitespace` accepts: Unicode `White_Space`.
pub open spec fn is_ws(c: char) -> bool {
    let u = c as u32;
    (0x9 <= u <= 0xd) || u == 0x20 || u == 0x85 || u == 0xa0 || u == 0x1680 || (0x2000 <= u <= 0x200a)
        || u == 0x2028 || u == 0x2029 || u == 0x202f || u == 0x205f || u == 0x3000
}

pub fn is_whitespace(c: char) -> (r: bool)
    ensures
        r == is_ws(c),
{
    let u = c as u32;
    (0x9 <= u && u <= 0xd) || u == 0x20 || u == 0x85 || u == 0xa0 || u == 0x1680 || (0x2000 <= u && u
        <= 0x200a) || u == 0x2028 || u == 0x2029 || u == 0x202f || u == 0x205f || u == 0x3000
}

/// The length of the run of non-whitespace characters that `s` starts with.
pub open spec fn run_len(s: Seq<char>) -> nat
    decreases s.len(),
{
    if s.len() == 0 || is_ws(s[0]) {
        0
    } else {
        1 + run_len(s.drop_first())
    }
}

pub proof fn lemma_run_len_bound(s: Seq<char>)
    ensures
        run_len(s) <= s.len(),
        s.len() > 0 && !is_ws(s[0]) ==> run_len(s) >= 1,
    decreases s.len(),
{
    if s.len() > 0 && !is_ws(s[0]) {
        lemma_run_len_bound(s.drop_first());
    }
}

/// The words of `s`: its maximal runs of non-whitespace characters, in order.
pub open spec fn words(s: Seq<char>) -> Seq<Seq<char>>
    decreases s.len(),
{
    if s.len() == 0 {
        Seq::empty()
    } else if is_ws(s[0]) {
        words(s.drop_first())
    } else {
        proof {
            lemma_run_len_bound(s);
        }
        seq![s.take(run_len(s) as int)] + words(s.skip(run_len(s) as int))
    }
}

proof fn lemma_run_len_at(s: Seq<char>, i: int, j: int)
    requires
        0 <= i <= j <= s.len(),
        forall|k: int| i <= k < j ==> !is_ws(#[trigger] s[k]),
        j == s.len() || is_ws(s[j]),
    ensures
        run_len(s.skip(i)) == j - i,
    decreases j - i,
{
    if i < j {
        lemma_run_len_at(s, i + 1, j);
        assert(s.skip(i).drop_first() =~= s.skip(i + 1));
    } else {
        if j < s.len() {
            assert(s.skip(i)[0] == s[j]);
        }
    }
}

/// The words of a string (what `str::split_whitespace` yields).
pub fn split_whitespace(s: &str) -> (r: Vec<String>)
    ensures
        r@.map_values(|w: String| w@) == words(s@),
{
    let cs = chars_of(s);
    let n = cs.len();
    let mut out: Vec<String> = Vec::new();
    let mut i: usize = 0;
    assert(cs@.skip(0) =~= cs@);
    while i < n
        invariant
            cs@ == s@,
            n == cs.len(),
            i <= n,
            out@.map_values(|w: String| w@) + words(cs@.skip(i as int)) == words(s@),
        decreases n - i,
    {
        let ghost rest = cs@.skip(i as int);
        if is_whitespace(cs[i]) {
            assert(rest.drop_first() =~= cs@.skip(i + 1));
            i = i + 1;
        } else {
            let mut j = i;
            while j < n && !is_whitespace(cs[j])
                invariant
                    cs@ == s@,
                    n == cs.len(),
                    i <= j <= n,
                    forall|k: int| i <= k < j ==> !is_ws(#[trigger] cs@[k]),
                decreases n - j,
            {
                j = j + 1;
            }
            let word = string_of_chars(&cs, i, j);
            let ghost before = out@.map_values(|w: String| w@);
            out.push(word);
            proof {
                lemma_run_len_at(cs@, i as int, j as int);
                assert(rest.take(run_len(rest) as int) =~= cs@.subrange(i as int, j as int));
                assert(rest.skip(run_len(rest) as int) =~= cs@.skip(j as int));
                assert(words(rest) == seq![rest.take(run_len(rest) as int)] + words(rest.skip(run_len(rest) as int)));
                assert(out@.map_values(|w: String| w@) =~= before.push(word@));
                assert(out@.map_values(|w: String| w@) + words(cs@.skip(j as int)) =~= before + words(rest));
            }
            i = j;
        }
    }
    assert(cs@.skip(n as int) =~= Seq::<char>::empty());
    assert(out@.map_values(|w: String| w@) + words(cs@.skip(n as int)) =~= out@.map_values(|w: String| w@));
    out
}

/// `s` without its leading whitespace.
pub open spec fn trim_start(s: Seq<char>) -> Seq<char>
    decreases s.len(),
{
    if s.len() > 0 && is_ws(s[0]) {
        trim_start(s.drop_first())
    } else {
        s
    }
}

/// `s` without its trailing whitespace.
pub open spec fn trim_end(s: Seq<char>) -> Seq<char>
    decreases s.len(),
{
    if s.len() > 0 && is_ws(s.last()) {
        trim_end(s.drop_last())
    } else {
        s
    }
}

/// `s` without leading or trailing whitespace (what `str::trim` gives).
pub open spec fn trim(s: Seq<char>) -> Seq<char> {
    trim_end(trim_start(s))
}

pub fn trim_string(s: &str) -> (r: String)
    ensures
        r@ == trim(s@),
{
    let cs = chars_of(s);
    let n = cs.len();
    let mut a: usize = 0;
    assert(cs@.subrange(0, n as int) =~= cs@);
    while a < n && is_whitespace(cs[a])
        invariant
            cs@ == s@,
            n == cs.len(),
            a <= n,
            trim_start(cs@.subrange(a as int, n as int)) == trim_start(s@),
        decreases n - a,
    {
        assert(cs@.subrange(a as int, n as int).drop_first() =~= cs@.subrange(a + 1, n as int));
        a = a + 1;
    }
    let ghost front = cs@.subrange(a as int, n as int);
    assert(trim_start(front) == front);
    let mut b: usize = n;
    while b > a && is_whitespace(cs[b - 1])
        invariant
            cs@ == s@,
            n == cs.len(),
            a <= b <= n,
            front == cs@.subrange(a as int, n as int),
            trim_end(cs@.subrange(a as int, b as int)) == trim_end(front),
        decreases b,
    {
        assert(cs@.subrange(a as int, b as int).drop_last() =~= cs@.subrange(a as int, b - 1));
        b = b - 1;
    }
    let ghost kept = cs@.subrange(a as int, b as int);
    assert(trim_end(kept) == kept);
    string_of_chars(&cs, a, b)
}

/// The value of a decimal digit character.
pub open spec fn digit_value(c: char) -> int {
    (c as u32) - ('0' as u32)
}

pub open spec fn is_digit(c: char) -> bool {
    '0' <= c && c <= '9'
}

/// The number a string of decimal digits writes.
pub open spec fn digits_value(s: Seq<char>) -> nat
    decreases s.len(),
{
    if s.len() == 0 {
        0
    } else {
        (digits_value(s.drop_last()) * 10 + digit_value(s.last())) as nat
    }
}

/// A non-empty run of decimal digits.
pub open spec fn all_digits(s: Seq<char>) -> bool {
    s.len() > 0 && forall|i: int| 0 <= i < s.len() ==> is_digit(#[trigger] s[i])
}

/// The number that an optional `+` followed by decimal digits writes
/// (the syntax `str::parse` accepts for unsigned integers).
pub open spec fn parse_unsigned(s: Seq<char>) -> Option<nat> {
    let body = if s.len() > 0 && s[0] == '+' { s.drop_first() } else { s };
    if all_digits(body) {
        Some(digits_value(body))
    } else {
        None
    }
}

/// The number that an optional sign followed by decimal digits writes
/// (the syntax `str::parse` accepts for signed integers).
pub open spec fn parse_signed(s: Seq<char>) -> Option<int> {
    if s.len() > 0 && s[0] == '-' {
        if all_digits(s.drop_first()) {
            Some(-(digits_value(s.drop_first()) as int))
        } else {
            None
        }
    } else {
        match parse_unsigned(s) {
            Some(v) => Some(v as int),
            None => None,
        }
    }
}

proof fn lemma_digits_step(s: Seq<char>, i: int)
    requires
        0 <= i < s.len(),
        is_digit(s[i]),
    ensures
        digits_value(s.take(i + 1)) == digits_value(s.take(i)) * 10 + digit_value(s[i]),
{
    assert(s.take(i + 1).drop_last() =~= s.take(i));
}

/// Reads the digits of `cs` from `from` on, with `limit` as the largest value accepted.
fn digits_upto(cs: &Vec<char>, from: usize, limit: u64) -> (r: Option<u64>)
    requires
        from <= cs.len(),
        limit >= 9,
    ensures
        match r {
            Some(v) => all_digits(cs@.skip(from as int)) && v == digits_value(cs@.skip(from as int)) && v
                <= limit,
            None => !all_digits(cs@.skip(from as int)) || digits_value(cs@.skip(from as int)) > limit,
        },
{
    let ghost body = cs@.skip(from as int);
    let n = cs.len();
    if from == n {
        return None;
    }
    let mut v: u64 = 0;
    let mut i = from;
    let mut too_big = false;
    assert(body.take(0) =~= Seq::<char>::empty());
    while i < n
        invariant
            from < n,
            limit >= 9,
            n == cs.len(),
            body == cs@.skip(from as int),
            from <= i <= n,
            forall|k: int| 0 <= k < i - from ==> is_digit(#[trigger] body[k]),
            !too_big ==> v == digits_value(body.take(i - from)) && v <= limit,
            too_big ==> digits_value(body.take(i - from)) > limit,
        decreases n - i,
    {
        let c = cs[i];
        if !('0' <= c && c <= '9') {
            assert(!is_digit(body[i - from]));
            return None;
        }
        let d = (c as u32 - '0' as u32) as u64;
        assert(d <= 9 && d == digit_value(c));
        proof {
            assert(body[i - from] == c);
            lemma_digits_step(body, i - from);
            lemma_digits_monotone(body, i - from);
        }
        if !too_big {
            if v > (limit - d) / 10 {
                too_big = true;
                proof {
                    assert(v * 10 + d > limit) by (nonlinear_arith)
                        requires
                            v > (limit - d) / 10,
                            d <= limit,
                    ;
                }
            } else {
                proof {
                    assert(v * 10 + d <= limit) by (nonlinear_arith)
                        requires
                            v <= (limit - d) / 10,
                    ;
                }
                v = v * 10 + d;
            }
        }
        i = i + 1;
    }
    assert(body.take(n - from) =~= body);
    if too_big {
        None
    } else {
        Some(v)
    }
}

proof fn lemma_digits_monotone(s: Seq<char>, i: int)
    requires
        0 <= i < s.len(),
        is_digit(s[i]),
    ensures
        digits_value(s.take(i + 1)) >= digits_value(s.take(i)) * 10,
{
    lemma_digits_step(s, i);
}

/// What `s.parse::<usize>()` gives, as an option.
pub fn parse_usize(s: &str) -> (r: Option<usize>)
    ensures
        r == (match parse_unsigned(s@) {
            Some(v) => if v <= usize::MAX { Some(v as usize) } else { None },
            None => None,
        }),
{
    let cs = chars_of(s);
    let from: usize = if cs.len() > 0 && cs[0] == '+' { 1 } else { 0 };
    proof {
        if from == 1 {
            assert(cs@.skip(1) =~= s@.drop_first());
        } else {
            assert(cs@.skip(0) =~= s@);
        }
    }
    match digits_upto(&cs, from, usize::MAX as u64) {
        Some(v) => Some(v as usize),
        None => None,
    }
}

/// What `s.parse::<i64>()` gives, as an option.
pub fn parse_i64(s: &str) -> (r: Option<i64>)
    ensures
        r == (match parse_signed(s@) {
            Some(v) => if i64::MIN <= v <= i64::MAX { Some(v as i64) } else { None },
            None => None,
        }),
{
    let cs = chars_of(s);
    if cs.len() > 0 && cs[0] == '-' {
        proof {
            assert(cs@.skip(1) =~= s@.drop_first());
        }
        match digits_upto(&cs, 1, 0x8000_0000_0000_0000u64) {
            Some(v) => {
                if v == 0x8000_0000_0000_0000u64 {
                    Some(i64::MIN)
                } else {
                    Some(-(v as i64))
                }
            },
            None => None,
        }
    } else {
        let from: usize = if cs.len() > 0 && cs[0] == '+' { 1 } else { 0 };
        proof {
            if from == 1 {
                assert(cs@.skip(1) =~= s@.drop_first());
            } else {
                assert(cs@.skip(0) =~= s@);
            }
        }
        match digits_upto(&cs, from, i64::MAX as u64) {
            Some(v) => Some(v as i64),
            None => None,
        }
    }
}

/// Debug notation of a string (quoted, with escapes), as `format!("{:?}", s)` writes it.
pub uninterp spec fn debug_str(s: Seq<char>) -> Seq<char>;

/// `format!("{:?}", s)`: the string in double quotes with the characters
/// that need it escaped. Claimed: the result is `debug_str` of the
/// characters of `s` and nothing else.
#[verifier::external_body]
pub fn debug_quote(s: &str) -> (r: String)
    ensures
        r@ == debug_str(s@),
{
    format!("{:?}", s)
}

/// The upper-case mapping of a string, as `str::to_uppercase` gives it.
pub uninterp spec fn uppercase(s: Seq<char>) -> Seq<char>;

/// Whether every character of `s` is ASCII.
pub open spec fn all_ascii(s: Seq<char>) -> bool {
    forall|i: int| 0 <= i < s.len() ==> (#[trigger] s[i] as u32) < 128
}

/// `s` with its ASCII lower-case letters made upper case.
pub open spec fn ascii_upper(s: Seq<char>) -> Seq<char> {
    s.map_values(|c: char| if 'a' <= c && c <= 'z' { ((c as u32) - 32) as char } else { c })
}

/// `str::to_uppercase`. Claimed: the result is `uppercase` of the characters
/// of `s`, and for ASCII text it is the ASCII upper-casing, which std
/// documents `to_uppercase` to agree with (`str::to_ascii_uppercase`); the
/// Unicode case tables themselves are not stated.
#[verifier::external_body]
pub fn to_upper(s: &str) -> (r: String)
    ensures
        r@ == uppercase(s@),
        all_ascii(s@) ==> r@ == ascii_upper(s@),
{
    s.to_uppercase()
}

/// Adding one more item to a join.
pub proof fn lemma_join_push(items: Seq<Seq<char>>, sep: Seq<char>, x: Seq<char>)
    ensures
        join(items.push(x), sep) == (if items.len() == 0 { x } else { join(items, sep) + sep + x }),
{
    assert(items.push(x).drop_last() =~= items);
    if items.len() == 0 {
        assert(items.push(x) =~= seq![x]);
    }
}

/// A string in double quotes.
pub open spec fn quoted(s: Seq<char>) -> Seq<char> {
    seq!['"'] + s + seq!['"']
}

/// The characters a word starts with are not whitespace.
proof fn lemma_run_len_chars(s: Seq<char>)
    ensures
        forall|k: int| 0 <= k < run_len(s) ==> !is_ws(#[trigger] s[k]),
    decreases s.len(),
{
    if s.len() > 0 && !is_ws(s[0]) {
        lemma_run_len_chars(s.drop_first());
        lemma_run_len_bound(s.drop_first());
        assert forall|k: int| 0 <= k < run_len(s) implies !is_ws(#[trigger] s[k]) by {
            if k > 0 {
                assert(s[k] == s.drop_first()[k - 1]);
            }
        }
    }
}

/// Every word is a nonempty run of characters that are not whitespace.
pub proof fn lemma_words_shape(s: Seq<char>)
    ensures
        forall|i: int| 0 <= i < words(s).len() ==> #[trigger] words(s)[i].len() > 0,
        forall|i: int, k: int| 0 <= i < words(s).len() && 0 <= k < words(s)[i].len() ==> !is_ws(#[trigger] words(s)[i][k]),
    decreases s.len(),
{
    if s.len() == 0 {
    } else if is_ws(s[0]) {
        lemma_words_shape(s.drop_first());
        assert(words(s) == words(s.drop_first()));
    } else {
        lemma_run_len_bound(s);
        lemma_run_len_chars(s);
        let n = run_len(s) as int;
        lemma_words_shape(s.skip(n));
        let rest = words(s.skip(n));
        assert(words(s) == seq![s.take(n)] + rest);
        assert forall|i: int, k: int| 0 <= i < words(s).len() && 0 <= k < words(s)[i].len() implies !is_ws(#[trigger] words(s)[i][k]) by {
            if i == 0 {
                assert(words(s)[0] == s.take(n));
                assert(s.take(n)[k] == s[k]);
            } else {
                assert(words(s)[i] == rest[i - 1]);
            }
        }
        assert forall|i: int| 0 <= i < words(s).len() implies #[trigger] words(s)[i].len() > 0 by {
            if i > 0 {
                assert(words(s)[i] == rest[i - 1]);
            }
        }
    }
}

/// A join of nonempty items starts with the first item's first character
/// and ends with the last item's last character.
pub proof fn lemma_join_ends(items: Seq<Seq<char>>, sep: Seq<char>)
    requires
        items.len() > 0,
        forall|i: int| 0 <= i < items.len() ==> #[trigger] items[i].len() > 0,
    ensures
        join(items, sep).len() > 0,
        join(items, sep)[0] == items[0][0],
        join(items, sep).last() == items.last().last(),
    decreases items.len(),
{
    if items.len() > 1 {
        let init = items.drop_last();
        assert forall|i: int| 0 <= i < init.len() implies #[trigger] init[i].len() > 0 by {
            assert(init[i] == items[i]);
        }
        lemma_join_ends(init, sep);
        assert(init[0] == items[0]);
    }
}

/// Trimming a text that neither starts nor ends with whitespace, padded
/// with two spaces, gives the text back.
pub proof fn lemma_trim_padded(y: Seq<char>)
    requires
        y.len() > 0,
        !is_ws(y[0]),
        !is_ws(y.last()),
    ensures
        trim(y + seq![' ', ' ']) == y,
{
    let padded = y + seq![' ', ' '];
    assert(trim_start(padded) == padded);
    assert(padded.drop_last() =~= y + seq![' ']);
    assert((y + seq![' ']).drop_last() =~= y);
    assert(is_ws(' '));
    assert(trim_end(y) == y);
    assert(trim_end(y + seq![' ']) == trim_end(y));
}

/// Whether `w` is a word: nonempty, with no whitespace in it.
pub open spec fn is_word(w: Seq<char>) -> bool {
    w.len() > 0 && forall|k: int| 0 <= k < w.len() ==> !is_ws(#[trigger] w[k])
}

/// A word followed by a space and more text splits into that word and the
/// words of the rest.
proof fn lemma_words_word_space(w: Seq<char>, t: Seq<char>)
    requires
        is_word(w),
    ensures
        words(w + seq![' '] + t) == seq![w] + words(t),
{
    let s = w + seq![' '] + t;
    let n = w.len() as int;
    assert forall|k: int| 0 <= k < n implies !is_ws(#[trigger] s[k]) by {
        assert(s[k] == w[k]);
    }
    assert(s[n] == ' ');
    lemma_run_len_at(s, 0, n);
    assert(s.skip(0) =~= s);
    assert(s.take(n) =~= w);
    let rest = s.skip(n);
    assert(rest[0] == ' ');
    assert(rest.drop_first() =~= t);
    assert(words(rest) == words(t));
}

/// A word on its own is its only word.
proof fn lemma_words_single(w: Seq<char>)
    requires
        is_word(w),
    ensures
        words(w) == seq![w],
{
    let n = w.len() as int;
    lemma_run_len_at(w, 0, n);
    assert(w.skip(0) =~= w);
    assert(w.take(n) =~= w);
    assert(w.skip(n) =~= Seq::<char>::empty());
    assert(words(w.skip(n)) == Seq::<Seq<char>>::empty());
    assert(words(w) == seq![w.take(n)] + words(w.skip(n)));
    assert(seq![w] + Seq::<Seq<char>>::empty() =~= seq![w]);
}

/// Joining from the front: the first item, the separator, then the rest joined.
proof fn lemma_join_front(w: Seq<char>, rest: Seq<Seq<char>>, sep: Seq<char>)
    requires
        rest.len() > 0,
    ensures
        join(seq![w] + rest, sep) == w + sep + join(rest, sep),
    decreases rest.len(),
{
    let all = seq![w] + rest;
    if rest.len() == 1 {
        assert(all.drop_last() =~= seq![w]);
        assert(all.last() == rest[0]);
        assert(join(seq![w], sep) == w);
        assert(join(rest, sep) == rest[0]);
        assert(join(all, sep) == join(all.drop_last(), sep) + sep + all.last());
    } else {
        lemma_join_front(w, rest.drop_last(), sep);
        assert(all.drop_last() =~= seq![w] + rest.drop_last());
        assert(all.last() == rest.last());
        assert(join(all, sep) == join(all.drop_last(), sep) + sep + all.last());
        assert(join(rest, sep) == join(rest.drop_last(), sep) + sep + rest.last());
        assert(join(all, sep) =~= w + sep + join(rest, sep));
    }
}

/// Words joined by single spaces split back into the same words.
pub proof fn lemma_words_of_join(ws: Seq<Seq<char>>)
    requires
        forall|i: int| 0 <= i < ws.len() ==> is_word(#[trigger] ws[i]),
    ensures
        words(join(ws, seq![' '])) == ws,
    decreases ws.len(),
{
    if ws.len() == 0 {
    } else if ws.len() == 1 {
        lemma_words_single(ws[0]);
        assert(seq![ws[0]] =~= ws);
    } else {
        let rest = ws.drop_first();
        assert forall|i: int| 0 <= i < rest.len() implies is_word(#[trigger] rest[i]) by {
            assert(rest[i] == ws[i + 1]);
        }
        lemma_words_of_join(rest);
        assert(seq![ws[0]] + rest =~= ws);
        lemma_join_front(ws[0], rest, seq![' ']);
        assert(is_word(ws[0]));
        lemma_words_word_space(ws[0], join(rest, seq![' ']));
    }
}

/// Trimming a text that neither starts nor ends with whitespace leaves it as it is.
pub proof fn lemma_trim_bare(y: Seq<char>)
    requires
        y.len() > 0 ==> !is_ws(y[0]) && !is_ws(y.last()),
    ensures
        trim(y) == y,
{
}

} // verus!
