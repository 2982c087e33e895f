use vstd::prelude::*;
use vstd::std_specs::iter::IteratorSpec;

verus! {

/// The characters of `s`, in order.
pub(crate) fn str_chars(s: &str) -> (r: Vec<char>)
    ensures
        r@ == s@,
{
    let ghost total = vstd::string::spec_iter(s).remaining();
    proof {
        vstd::string::axiom_spec_iter(s);
    }
    let mut out: Vec<char> = Vec::new();
    for c in it: s.chars()
        invariant
            total == s@,
            total == it.seq(),
            out@ == total.take(it.index() as int),
        ensures
            out@ == total,
    {
        out.push(c);
        proof {
            assert(total.take(it.index() + 1) =~= out@);
        }
    }
    out
}

/// The string made of the characters `cs`, in order.
///
/// Trusted: collects `cs` into a `String` through `FromIterator<char>`; the contract claims
/// that the string holds exactly those characters, in order.
#[verifier::external_body]
pub(crate) fn chars_to_string(cs: &[char]) -> (r: String)
    ensures
        r@ == cs@,
{
    cs.iter().collect()
}

/// The digit character for `d` in base 16 (lower case letters above nine).
pub open spec fn digit_char(d: nat) -> char {
    if d < 10 {
        ((48 + d) as u8) as char
    } else {
        ((87 + d) as u8) as char
    }
}

/// The numeral for `n` in base `b`, without leading zeros.
pub open spec fn numeral(n: nat, b: nat) -> Seq<char>
    decreases n,
{
    if n < b || b < 2 {
        seq![digit_char(n)]
    } else {
        proof {
            vstd::arithmetic::div_mod::lemma_div_decreases(n as int, b as int);
        }
        numeral(n / b, b).push(digit_char(n % b))
    }
}

/// The decimal numeral for `n`.
pub open spec fn decimal(n: nat) -> Seq<char> {
    numeral(n, 10)
}

/// The lower case hexadecimal numeral for `n`.
pub open spec fn hex(n: nat) -> Seq<char> {
    numeral(n, 16)
}

fn digit(d: u64) -> (c: char)
    requires
        d < 16,
    ensures
        c == digit_char(d as nat),
{
    if d < 10 {
        ((48 + d) as u8) as char
    } else {
        ((87 + d) as u8) as char
    }
}

/// Appends the numeral for `n` in base `b` to `out`.
pub fn push_numeral(out: &mut Vec<char>, n: u64, b: u64)
    requires
        2 <= b <= 16,
    ensures
        final(out)@ == old(out)@ + numeral(n as nat, b as nat),
    decreases n,
{
    if n >= b {
        proof {
            vstd::arithmetic::div_mod::lemma_div_decreases(n as int, b as int);
        }
        push_numeral(out, n / b, b);
    }
    out.push(digit(n % b));
    proof {
        if n < b {
            vstd::arithmetic::div_mod::lemma_small_mod(n as nat, b as nat);
        }
        assert(final(out)@ =~= old(out)@ + numeral(n as nat, b as nat));
    }
}

/// Appends the characters of `s` to `out`.
pub fn push_str(out: &mut Vec<char>, s: &str)
    ensures
        final(out)@ == old(out)@ + s@,
{
    let mut cs = str_chars(s);
    out.append(&mut cs);
}

/// The address `http://{ip}:{port}`.
pub open spec fn url_spec(ip: Seq<char>, port: nat) -> Seq<char> {
    seq!['h', 't', 't', 'p', ':', '/', '/'] + ip + seq![':'] + decimal(port)
}

/// Builds the address `http://{ip}:{port}`.
pub fn http_url(ip: &str, port: u16) -> (url: String)
    ensures
        url@ == url_spec(ip@, port as nat),
{
    let mut out: Vec<char> = Vec::new();
    out.push('h');
    out.push('t');
    out.push('t');
    out.push('p');
    out.push(':');
    out.push('/');
    out.push('/');
    push_str(&mut out, ip);
    out.push(':');
    push_numeral(&mut out, port as u64, 10);
    let url = chars_to_string(out.as_slice());
    assert(url@ =~= url_spec(ip@, port as nat));
    url
}

/// Whether `c` has the Unicode `White_Space` property, as `char::is_whitespace` tests.
pub open spec fn is_whitespace(c: char) -> bool {
    ('\t' <= c && c <= '\r') || c == ' ' || c == '\u{85}' || c == '\u{a0}' || c == '\u{1680}'
        || ('\u{2000}' <= c && c <= '\u{200a}') || c == '\u{2028}' || c == '\u{2029}' || c == '\u{202f}'
        || c == '\u{205f}' || c == '\u{3000}'
}

pub fn char_is_whitespace(c: char) -> (r: bool)
    ensures
        r == is_whitespace(c),
{
    ('\t' <= c && c <= '\r') || c == ' ' || c == '\u{85}' || c == '\u{a0}' || c == '\u{1680}'
        || ('\u{2000}' <= c && c <= '\u{200a}') || c == '\u{2028}' || c == '\u{2029}' || c == '\u{202f}'
        || c == '\u{205f}' || c == '\u{3000}'
}

/// The first position at or after `i` that is not white space (`s.len()` if none).
pub open spec fn first_non_ws(s: Seq<char>, i: int) -> int
    decreases s.len() - i,
{
    if i >= s.len() {
        s.len() as int
    } else if !is_whitespace(s[i]) {
        i
    } else {
        first_non_ws(s, i + 1)
    }
}

/// One past the last position before `j` that is not white space (0 if none).
pub open spec fn end_non_ws(s: Seq<char>, j: int) -> int
    decreases j,
{
    if j <= 0 {
        0
    } else if !is_whitespace(s[j - 1]) {
        j
    } else {
        end_non_ws(s, j - 1)
    }
}

/// `s` without leading and trailing white space, as `str::trim` gives it.
pub open spec fn trim(s: Seq<char>) -> Seq<char> {
    let a = first_non_ws(s, 0);
    let b = end_non_ws(s, s.len() as int);
    s.subrange(a, if b < a { a } else { b })
}

/// The first position at or after `i` that holds `c`.
pub open spec fn find_from(s: Seq<char>, c: char, i: int) -> Option<int>
    decreases s.len() - i,
{
    if i >= s.len() {
        None
    } else if s[i] == c {
        Some(i)
    } else {
        find_from(s, c, i + 1)
    }
}

/// The first position of `c` in `s`, as `str::find` gives it.
pub open spec fn find(s: Seq<char>, c: char) -> Option<int> {
    find_from(s, c, 0)
}

/// Whether `s` begins with `p`.
pub open spec fn starts_with(s: Seq<char>, p: Seq<char>) -> bool {
    p.len() <= s.len() && s.subrange(0, p.len() as int) == p
}

/// Whether `s` ends with `p`.
pub open spec fn ends_with(s: Seq<char>, p: Seq<char>) -> bool {
    p.len() <= s.len() && s.subrange(s.len() - p.len(), s.len() as int) == p
}

/// The pieces of `s` between occurrences of `sep`, as `str::split` gives them.
pub open spec fn split(s: Seq<char>, sep: char) -> Seq<Seq<char>>
    decreases s.len(),
{
    match find(s, sep) {
        None => seq![s],
        Some(i) => {
            if 0 <= i < s.len() {
                seq![s.subrange(0, i)] + split(s.subrange(i + 1, s.len() as int), sep)
            } else {
                seq![s]
            }
        },
    }
}

/// The value of a character `'0'..='9'`.
pub open spec fn digit_value(c: char) -> nat {
    (c as nat - 48) as nat
}

pub open spec fn is_digit(c: char) -> bool {
    '0' <= c && c <= '9'
}

/// The value of a string of decimal digits.
pub open spec fn digits_value(s: Seq<char>) -> nat
    decreases s.len(),
{
    if s.len() == 0 {
        0
    } else {
        digits_value(s.drop_last()) * 10 + digit_value(s.last())
    }
}

/// The unsigned number that `s` spells, as `usize::from_str` reads it: an optional `+`,
/// then at least one decimal digit and nothing else.
pub open spec fn parse_uint(s: Seq<char>) -> Option<nat> {
    let body = uint_body(s);
    if body.len() > 0 && all_digits(body) {
        Some(digits_value(body))
    } else {
        None
    }
}

/// `s` without a leading `+`.
pub open spec fn uint_body(s: Seq<char>) -> Seq<char> {
    if s.len() > 0 && s[0] == '+' { s.drop_first() } else { s }
}

/// Whether every character of `s` is a decimal digit.
pub open spec fn all_digits(s: Seq<char>) -> bool {
    forall|i: int| 0 <= i < s.len() ==> is_digit(#[trigger] s[i])
}

/// `parse_uint` restricted to numbers of at most `max`.
pub open spec fn parse_bounded(s: Seq<char>, max: nat) -> Option<nat> {
    match parse_uint(s) {
        Some(v) => if v <= max { Some(v) } else { None },
        None => None,
    }
}

proof fn lemma_digits_value_grows(s: Seq<char>, i: int)
    requires
        0 <= i <= s.len(),
    ensures
        digits_value(s.take(i)) <= digits_value(s),
    decreases s.len() - i,
{
    if i < s.len() {
        lemma_digits_value_grows(s, i + 1);
        assert(s.take(i + 1).drop_last() =~= s.take(i));
    } else {
        assert(s.take(i) =~= s);
    }
}

/// Reads a `usize` as `usize::from_str` does: `None` where that gives an error.
pub fn parse_usize(s: &[char]) -> (r: Option<usize>)
    ensures
        r == (match parse_bounded(s@, usize::MAX as nat) {
            Some(v) => Some(v as usize),
            None => None::<usize>,
        }),
{
    let n = s.len();
    let start: usize = if n > 0 && s[0] == '+' { 1 } else { 0 };
    let ghost body = uint_body(s@);
    assert(body =~= s@.subrange(start as int, n as int));
    if start >= n {
        return None;
    }
    let mut acc: usize = 0;
    let mut i: usize = start;
    while i < n
        invariant
            start <= i <= n,
            n == s@.len(),
            body == s@.subrange(start as int, n as int),
            body == uint_body(s@),
            forall|j: int| 0 <= j < i - start ==> is_digit(#[trigger] body[j]),
            acc as nat == digits_value(body.take(i - start)),
        decreases n - i,
    {
        let c = s[i];
        if !('0' <= c && c <= '9') {
            assert(body[i - start] == c);
            assert(!is_digit(body[i - start]));
            assert(!all_digits(body));
            return None;
        }
        let d = (c as u32 - 48) as usize;
        assert(body.take(i + 1 - start).drop_last() =~= body.take(i - start));
        assert(body.take(i + 1 - start).last() == c);
        assert(digits_value(body.take(i + 1 - start)) == acc * 10 + d);
        match acc.checked_mul(10) {
            None => {
                proof {
                    lemma_digits_value_grows(body, i + 1 - start);
                    assert(digits_value(body) > usize::MAX);
                    assert(uint_body(s@) == body);
                    assert(parse_uint(s@) is None || parse_uint(s@) == Some(digits_value(body)));
                    assert(parse_bounded(s@, usize::MAX as nat) is None);
                }
                return None;
            },
            Some(m) => match m.checked_add(d) {
                None => {
                    proof {
                        lemma_digits_value_grows(body, i + 1 - start);
                        assert(digits_value(body) > usize::MAX);
                        assert(parse_bounded(s@, usize::MAX as nat) is None);
                    }
                    return None;
                },
                Some(v) => {
                    acc = v;
                },
            },
        }
        i = i + 1;
    }
    assert(body.take(n - start) =~= body);
    Some(acc)
}

/// The characters `s[a..b]`.
pub fn sub_chars(s: &[char], a: usize, b: usize) -> (r: Vec<char>)
    requires
        a <= b <= s@.len(),
    ensures
        r@ == s@.subrange(a as int, b as int),
{
    let mut out: Vec<char> = Vec::new();
    let mut i = a;
    while i < b
        invariant
            a <= i <= b,
            b <= s@.len(),
            out@ == s@.subrange(a as int, i as int),
        decreases b - i,
    {
        out.push(s[i]);
        i = i + 1;
        assert(out@ =~= s@.subrange(a as int, i as int));
    }
    out
}

/// `s` without leading and trailing white space.
pub fn trim_chars(s: &[char]) -> (r: Vec<char>)
    ensures
        r@ == trim(s@),
{
    let n = s.len();
    let mut a: usize = 0;
    while a < n && char_is_whitespace(s[a])
        invariant
            a <= n,
            n == s@.len(),
            first_non_ws(s@, 0) == first_non_ws(s@, a as int),
        decreases n - a,
    {
        a = a + 1;
    }
    let mut b: usize = n;
    while b > 0 && char_is_whitespace(s[b - 1])
        invariant
            b <= n,
            n == s@.len(),
            end_non_ws(s@, n as int) == end_non_ws(s@, b as int),
        decreases b,
    {
        b = b - 1;
    }
    if b < a {
        b = a;
    }
    sub_chars(s, a, b)
}

/// The first position of `c` in `s`.
pub fn find_char(s: &[char], c: char) -> (r: Option<usize>)
    ensures
        match find(s@, c) {
            Some(i) => r == Some(i as usize) && 0 <= i < s@.len() && s@[i] == c,
            None => r is None,
        },
        r matches Some(i) ==> i < s@.len() && find(s@, c) == Some(i as int),
{
    let n = s.len();
    let mut i: usize = 0;
    while i < n
        invariant
            i <= n,
            n == s@.len(),
            find(s@, c) == find_from(s@, c, i as int),
        decreases n - i,
    {
        if s[i] == c {
            return Some(i);
        }
        i = i + 1;
    }
    None
}

/// Whether `s` begins with `p`.
pub fn starts_with_chars(s: &[char], p: &[char]) -> (r: bool)
    ensures
        r == starts_with(s@, p@),
{
    if p.len() > s.len() {
        return false;
    }
    let mut i: usize = 0;
    while i < p.len()
        invariant
            i <= p@.len() <= s@.len(),
            forall|j: int| 0 <= j < i ==> #[trigger] s@[j] == p@[j],
        decreases p@.len() - i,
    {
        if s[i] != p[i] {
            assert(s@.subrange(0, p@.len() as int)[i as int] != p@[i as int]);
            return false;
        }
        i = i + 1;
    }
    assert(s@.subrange(0, p@.len() as int) =~= p@);
    true
}

/// Whether `s` ends with `p`.
pub fn ends_with_chars(s: &[char], p: &[char]) -> (r: bool)
    ensures
        r == ends_with(s@, p@),
{
    if p.len() > s.len() {
        return false;
    }
    let sl = s.len();
    let off = sl - p.len();
    let mut i: usize = 0;
    while i < p.len()
        invariant
            i <= p@.len() <= s@.len(),
            sl == s@.len(),
            off + p@.len() == s@.len(),
            forall|j: int| 0 <= j < i ==> s@[off + j] == #[trigger] p@[j],
        decreases p@.len() - i,
    {
        if s[off + i] != p[i] {
            assert(s@.subrange(off as int, s@.len() as int)[i as int] != p@[i as int]);
            return false;
        }
        i = i + 1;
    }
    assert(s@.subrange(off as int, s@.len() as int) =~= p@);
    true
}

proof fn lemma_find_from_shift(s: Seq<char>, c: char, a: int, i: int)
    requires
        0 <= a <= i <= s.len(),
        forall|j: int| a <= j < i ==> s[j] != c,
    ensures
        find(s.subrange(a, s.len() as int), c) == (match find_from(s, c, i) {
            Some(k) => Some(k - a),
            None => None::<int>,
        }),
{
    lemma_find_from_sub(s, c, a, i);
}

proof fn lemma_find_from_sub(s: Seq<char>, c: char, a: int, i: int)
    requires
        0 <= a <= i <= s.len(),
        forall|j: int| a <= j < i ==> s[j] != c,
    ensures
        find_from(s.subrange(a, s.len() as int), c, i - a) == (match find_from(s, c, i) {
            Some(k) => Some(k - a),
            None => None::<int>,
        }),
        find_from(s.subrange(a, s.len() as int), c, 0) == find_from(s.subrange(a, s.len() as int), c, i - a),
    decreases s.len() - i,
{
    let t = s.subrange(a, s.len() as int);
    if i < s.len() {
        if s[i] != c {
            lemma_find_from_sub(s, c, a, i + 1);
        }
    }
    lemma_find_from_skip(t, c, i - a);
}

pub proof fn lemma_find_from_skip(t: Seq<char>, c: char, k: int)
    requires
        0 <= k <= t.len(),
        forall|j: int| 0 <= j < k ==> t[j] != c,
    ensures
        find_from(t, c, 0) == find_from(t, c, k),
    decreases k,
{
    if k > 0 {
        lemma_find_from_skip_from(t, c, 0, k);
    }
}

proof fn lemma_find_from_skip_from(t: Seq<char>, c: char, i: int, k: int)
    requires
        0 <= i <= k <= t.len(),
        forall|j: int| i <= j < k ==> t[j] != c,
    ensures
        find_from(t, c, i) == find_from(t, c, k),
    decreases k - i,
{
    if i < k {
        lemma_find_from_skip_from(t, c, i + 1, k);
    }
}

/// The views of a sequence of character vectors.
pub open spec fn char_vec_views(v: Seq<Vec<char>>) -> Seq<Seq<char>> {
    v.map_values(|x: Vec<char>| x@)
}

/// The pieces of `s` between occurrences of `sep`.
pub fn split_chars(s: &[char], sep: char) -> (r: Vec<Vec<char>>)
    ensures
        char_vec_views(r@) == split(s@, sep),
{
    let n = s.len();
    let mut out: Vec<Vec<char>> = Vec::new();
    let mut start: usize = 0;
    let mut i: usize = 0;
    assert(s@.subrange(0, n as int) =~= s@);
    assert(char_vec_views(out@) + split(s@, sep) =~= split(s@, sep));
    while i < n
        invariant
            start <= i <= n,
            n == s@.len(),
            forall|j: int| start <= j < i ==> s@[j] != sep,
            char_vec_views(out@) + split(s@.subrange(start as int, n as int), sep) == split(s@, sep),
        decreases n - i,
    {
        if s[i] == sep {
            let piece = sub_chars(s, start, i);
            proof {
                let t = s@.subrange(start as int, n as int);
                lemma_find_from_shift(s@, sep, start as int, i as int);
                assert(find(t, sep) == Some(i - start));
                assert(t.subrange(0, i - start) =~= s@.subrange(start as int, i as int));
                assert(t.subrange(i - start + 1, t.len() as int) =~= s@.subrange(i + 1, n as int));
                assert(split(t, sep) == seq![t.subrange(0, i - start)] + split(t.subrange(i - start + 1, t.len() as int), sep));
                assert(char_vec_views(out@.push(piece)) =~= char_vec_views(out@).push(piece@));
                assert(char_vec_views(out@).push(piece@) + split(s@.subrange(i + 1, n as int), sep)
                    =~= char_vec_views(out@) + (seq![piece@] + split(s@.subrange(i + 1, n as int), sep)));
            }
            out.push(piece);
            start = i + 1;
        }
        i = i + 1;
    }
    let last = sub_chars(s, start, n);
    proof {
        let t = s@.subrange(start as int, n as int);
        lemma_find_from_shift(s@, sep, start as int, n as int);
        assert(find(t, sep) is None);
        assert(split(t, sep) == seq![t]);
        assert(char_vec_views(out@.push(last)) =~= char_vec_views(out@) + seq![t]);
    }
    out.push(last);
    out
}

/// Whether `a` and `b` hold the same characters.
pub fn chars_eq(a: &[char], b: &[char]) -> (r: bool)
    ensures
        r == (a@ == b@),
{
    if a.len() != b.len() {
        return false;
    }
    let mut i: usize = 0;
    while i < a.len()
        invariant
            i <= a@.len() == b@.len(),
            forall|j: int| 0 <= j < i ==> #[trigger] a@[j] == b@[j],
        decreases a@.len() - i,
    {
        if a[i] != b[i] {
            return false;
        }
        i = i + 1;
    }
    assert(a@ =~= b@);
    true
}

/// Whether the characters `a` spell the string `b`.
pub fn chars_are(a: &[char], b: &str) -> (r: bool)
    ensures
        r == (a@ == b@),
{
    let bc = str_chars(b);
    chars_eq(a, bc.as_slice())
}

/// Whether the characters `a` begin with the string `p`.
pub fn chars_start_with(a: &[char], p: &str) -> (r: bool)
    ensures
        r == starts_with(a@, p@),
{
    let pc = str_chars(p);
    starts_with_chars(a, pc.as_slice())
}

/// Whether the characters `a` end with the string `p`.
pub fn chars_end_with(a: &[char], p: &str) -> (r: bool)
    ensures
        r == ends_with(a@, p@),
{
    let pc = str_chars(p);
    ends_with_chars(a, pc.as_slice())
}

/// The numerals of `nums` in base `b`, separated by `sep`.
pub open spec fn numerals_joined(nums: Seq<nat>, b: nat, sep: char) -> Seq<char>
    decreases nums.len(),
{
    if nums.len() == 0 {
        Seq::empty()
    } else if nums.len() == 1 {
        numeral(nums[0], b)
    } else {
        numerals_joined(nums.drop_last(), b, sep).push(sep) + numeral(nums.last(), b)
    }
}

/// The dotted decimal form of an IPv4 address given by its octets.
pub open spec fn ipv4_text(octets: Seq<u8>) -> Seq<char> {
    numerals_joined(octets.map_values(|o: u8| o as nat), 10, '.')
}

/// The bracketed form `[x:x:...]` of an IPv6 address given by its segments, each in lower
/// case hexadecimal without leading zeros.
pub open spec fn ipv6_text(segments: Seq<u16>) -> Seq<char> {
    seq!['['] + numerals_joined(segments.map_values(|x: u16| x as nat), 16, ':') + seq![']']
}

/// Writes an IPv4 address as dotted decimals.
pub fn format_ipv4(octets: &[u8]) -> (r: String)
    ensures
        r@ == ipv4_text(octets@),
{
    let ghost nums = octets@.map_values(|o: u8| o as nat);
    let mut out: Vec<char> = Vec::new();
    let mut i: usize = 0;
    while i < octets.len()
        invariant
            i <= octets@.len(),
            nums == octets@.map_values(|o: u8| o as nat),
            out@ == numerals_joined(nums.take(i as int), 10, '.'),
        decreases octets@.len() - i,
    {
        if i > 0 {
            out.push('.');
        }
        push_numeral(&mut out, octets[i] as u64, 10);
        proof {
            assert(nums.take(i + 1).drop_last() =~= nums.take(i as int));
            assert(nums.take(i + 1).last() == octets@[i as int] as nat);
            if i == 0 {
                assert(nums.take(i + 1) =~= seq![octets@[0] as nat]);
            }
        }
        i = i + 1;
    }
    assert(nums.take(octets@.len() as int) =~= nums);
    chars_to_string(out.as_slice())
}

/// Writes an IPv6 address as bracketed lower case hexadecimal segments.
pub fn format_ipv6(segments: &[u16]) -> (r: String)
    ensures
        r@ == ipv6_text(segments@),
{
    let ghost nums = segments@.map_values(|x: u16| x as nat);
    let mut out: Vec<char> = Vec::new();
    out.push('[');
    let mut i: usize = 0;
    while i < segments.len()
        invariant
            i <= segments@.len(),
            nums == segments@.map_values(|x: u16| x as nat),
            out@ == seq!['['] + numerals_joined(nums.take(i as int), 16, ':'),
        decreases segments@.len() - i,
    {
        if i > 0 {
            out.push(':');
        }
        push_numeral(&mut out, segments[i] as u64, 16);
        proof {
            assert(nums.take(i + 1).drop_last() =~= nums.take(i as int));
            assert(nums.take(i + 1).last() == segments@[i as int] as nat);
            if i == 0 {
                assert(nums.take(i + 1) =~= seq![segments@[0] as nat]);
            }
        }
        i = i + 1;
    }
    out.push(']');
    assert(nums.take(segments@.len() as int) =~= nums);
    chars_to_string(out.as_slice())
}

proof fn lemma_decimal_digits(n: nat)
    ensures
        decimal(n).len() > 0,
        all_digits(decimal(n)),
        digits_value(decimal(n)) == n,
    decreases n,
{
    if n < 10 {
        let c = digit_char(n);
        assert(c as nat == 48 + n);
        assert(decimal(n) == seq![c]);
        assert(seq![c].drop_last() =~= Seq::<char>::empty());
        assert(digits_value(Seq::<char>::empty()) == 0);
        assert(digits_value(seq![c]) == digits_value(seq![c].drop_last()) * 10 + digit_value(c));
    } else {
        vstd::arithmetic::div_mod::lemma_div_decreases(n as int, 10);
        lemma_decimal_digits(n / 10);
        let d = n % 10;
        let c = digit_char(d);
        assert(c as nat == 48 + d);
        let prefix = decimal(n / 10);
        assert(decimal(n) == prefix.push(c));
        assert(prefix.push(c).drop_last() =~= prefix);
        assert(n == (n / 10) * 10 + n % 10);
        assert(digits_value(prefix.push(c)) == digits_value(prefix.push(c).drop_last()) * 10 + digit_value(c));
        assert forall|i: int| 0 <= i < decimal(n).len() implies is_digit(#[trigger] decimal(n)[i]) by {
            if i < prefix.len() {
                assert(decimal(n)[i] == prefix[i]);
            }
        }
    }
}

/// Reading back a decimal numeral gives the number written: what `push_numeral` writes in
/// base ten, `parse_usize` reads.
pub proof fn law_parse_reads_decimal(n: nat)
    ensures
        parse_uint(decimal(n)) == Some(n),
{
    lemma_decimal_digits(n);
    assert(is_digit(decimal(n)[0]));
    assert(uint_body(decimal(n)) == decimal(n));
}


/// `find_from` gives the first position at or after `i` holding `c`.
proof fn lemma_find_from_first(s: Seq<char>, c: char, i: int)
    requires
        0 <= i,
    ensures
        find_from(s, c, i) matches Some(k) ==> i <= k < s.len() && s[k] == c && forall|j: int|
            i <= j < k ==> s[j] != c,
        find_from(s, c, i) is None ==> forall|j: int| i <= j < s.len() ==> s[j] != c,
    decreases s.len() - i,
{
    if i < s.len() && s[i] != c {
        lemma_find_from_first(s, c, i + 1);
    }
}

/// Finding a character gives its first position, and nothing exactly when it does not occur.
pub proof fn law_find_first(s: Seq<char>, c: char)
    ensures
        find(s, c) matches Some(k) ==> 0 <= k < s.len() && s[k] == c && forall|j: int| 0 <= j < k ==> s[j] != c,
        find(s, c) is None <==> forall|j: int| 0 <= j < s.len() ==> s[j] != c,
{
    lemma_find_from_first(s, c, 0);
}

proof fn lemma_first_non_ws(s: Seq<char>, i: int)
    requires
        0 <= i <= s.len(),
    ensures
        i <= first_non_ws(s, i) <= s.len(),
        forall|j: int| i <= j < first_non_ws(s, i) ==> is_whitespace(#[trigger] s[j]),
        first_non_ws(s, i) < s.len() ==> !is_whitespace(s[first_non_ws(s, i)]),
    decreases s.len() - i,
{
    if i < s.len() && is_whitespace(s[i]) {
        lemma_first_non_ws(s, i + 1);
    }
}

proof fn lemma_end_non_ws(s: Seq<char>, j: int)
    requires
        0 <= j <= s.len(),
    ensures
        0 <= end_non_ws(s, j) <= j,
        forall|x: int| end_non_ws(s, j) <= x < j ==> is_whitespace(#[trigger] s[x]),
        end_non_ws(s, j) > 0 ==> !is_whitespace(s[end_non_ws(s, j) - 1]),
    decreases j,
{
    if j > 0 && is_whitespace(s[j - 1]) {
        lemma_end_non_ws(s, j - 1);
    }
}

/// Trimming keeps a middle part of the text: what it drops at either end is white space, and
/// what it keeps, unless empty, begins and ends with a character that is not.
pub proof fn law_trim_drops_only_white_space(s: Seq<char>)
    ensures
        exists|a: int, b: int|
            #![trigger s.subrange(a, b)]
            0 <= a <= b <= s.len() && trim(s) == s.subrange(a, b) && (forall|j: int| 0 <= j < a ==> is_whitespace(
                #[trigger] s[j],
            )) && (forall|j: int| b <= j < s.len() ==> is_whitespace(#[trigger] s[j])) && (a < b ==> !is_whitespace(s[a])
                && !is_whitespace(s[b - 1])),
{
    lemma_first_non_ws(s, 0);
    lemma_end_non_ws(s, s.len() as int);
    let a = first_non_ws(s, 0);
    let e = end_non_ws(s, s.len() as int);
    let b = if e < a { a } else { e };
    assert(trim(s) == s.subrange(a, b));
    assert forall|j: int| b <= j < s.len() implies is_whitespace(#[trigger] s[j]) by {}
}

/// The pieces joined back with the separator between them.
pub open spec fn join(p: Seq<Seq<char>>, sep: char) -> Seq<char>
    decreases p.len(),
{
    if p.len() == 0 {
        Seq::empty()
    } else if p.len() == 1 {
        p[0]
    } else {
        p[0] + seq![sep] + join(p.drop_first(), sep)
    }
}

/// Splitting cuts the text at every separator: there is at least one piece, no piece holds
/// the separator, and joining the pieces with it gives the text back.
pub proof fn law_split_rejoins(s: Seq<char>, sep: char)
    ensures
        split(s, sep).len() >= 1,
        forall|i: int| 0 <= i < split(s, sep).len() ==> !(#[trigger] split(s, sep)[i]).contains(sep),
        join(split(s, sep), sep) == s,
    decreases s.len(),
{
    lemma_find_from_first(s, sep, 0);
    match find(s, sep) {
        None => {
            assert(split(s, sep) == seq![s]);
            assert(!s.contains(sep));
        },
        Some(i) => {
            let rest = s.subrange(i + 1, s.len() as int);
            law_split_rejoins(rest, sep);
            let p = split(s, sep);
            let head = s.subrange(0, i);
            assert(p == seq![head] + split(rest, sep));
            assert(p.drop_first() =~= split(rest, sep));
            assert(p[0] == head);
            assert(!head.contains(sep)) by {
                if head.contains(sep) {
                    let j = choose|j: int| 0 <= j < head.len() && head[j] == sep;
                    assert(s[j] == sep);
                }
            }
            assert forall|k: int| 0 <= k < p.len() implies !(#[trigger] p[k]).contains(sep) by {
                if k > 0 {
                    assert(p[k] == split(rest, sep)[k - 1]);
                }
            }
            assert(join(p, sep) == head + seq![sep] + join(split(rest, sep), sep));
            assert(s =~= head + seq![sep] + rest);
        },
    }
}

} // verus!
