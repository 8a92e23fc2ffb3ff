//! Text as sequences of characters: numbers, searching, cutting and replacing.
use vstd::prelude::*;
use vstd::slice::slice_subrange;
use vstd::string::StringExecFns;

verus! {

/// `String::push`: the character is appended.
pub assume_specification[ String::push ](s: &mut String, ch: char)
    ensures
        final(s)@ == old(s)@.push(ch),
;

/// The characters of a text.
pub fn chars_of(s: &str) -> (r: Vec<char>)
    ensures
        r@ == s@,
{
    let mut out: Vec<char> = Vec::new();
    for c in it: s.chars()
        invariant
            out@.len() == it.index(),
            it.seq() == s@,
            forall|i: int| 0 <= i < out@.len() ==> out@[i] == it.seq()[i],
    {
        out.push(c);
    }
    assert(out@ =~= s@);
    out
}

/// The texts of some strings.
pub open spec fn texts(strings: Seq<String>) -> Seq<Seq<char>> {
    Seq::new(strings.len(), |i: int| strings[i]@)
}

/// The text between two positions.
pub fn text_between(chars: &[char], from: usize, to: usize) -> (r: String)
    requires
        from <= to <= chars@.len(),
    ensures
        r@ == chars@.subrange(from as int, to as int),
{
    let mut out: String = String::new();
    let mut i: usize = from;
    assert(out@ =~= chars@.subrange(from as int, i as int));
    while i < to
        invariant
            from <= i <= to <= chars@.len(),
            out@ == chars@.subrange(from as int, i as int),
        decreases to - i,
    {
        out.push(chars[i]);
        i += 1;
        assert(out@ =~= chars@.subrange(from as int, i as int));
    }
    out
}

/// The digit for a value below ten.
pub open spec fn digit(d: nat) -> char {
    ('0' as nat + d) as char
}

/// A number in decimal, without leading zeros.
pub open spec fn decimal(n: nat) -> Seq<char>
    decreases n,
{
    if n < 10 {
        seq![digit(n)]
    } else {
        decimal(n / 10).push(digit(n % 10))
    }
}

/// Appends one digit.
pub fn push_digit(out: &mut String, d: u8)
    requires
        d < 10,
    ensures
        final(out)@ == old(out)@.push(digit(d as nat)),
{
    out.push((48u8 + d) as char);
}

/// Appends a number in decimal.
pub fn push_decimal(out: &mut String, n: u64)
    ensures
        final(out)@ == old(out)@ + decimal(n as nat),
    decreases n,
{
    if n >= 10 {
        push_decimal(out, n / 10);
    }
    push_digit(out, (n % 10) as u8);
    assert(out@ =~= old(out)@ + decimal(n as nat));
}

/// A number in decimal.
pub fn to_decimal(n: u64) -> (r: String)
    ensures
        r@ == decimal(n as nat),
{
    let mut out: String = String::new();
    push_decimal(&mut out, n);
    assert(out@ =~= decimal(n as nat));
    out
}

/// Whether two texts are the same.
pub fn same_text(a: &str, b: &str) -> (r: bool)
    ensures
        r == (a@ == b@),
{
    same_chars(chars_of(a).as_slice(), chars_of(b).as_slice())
}

/// Whether two runs of characters are the same.
pub fn same_chars(a: &[char], b: &[char]) -> (r: bool)
    ensures
        r == (a@ == b@),
{
    if a.len() != b.len() {
        return false;
    }
    assert(a@.subrange(0, b@.len() as int) =~= a@);
    occurs(a, b, 0)
}

/// Whether `part` stands at `pos` in `s`.
pub open spec fn occurs_at(s: Seq<char>, part: Seq<char>, pos: int) -> bool {
    0 <= pos && pos + part.len() <= s.len() && s.subrange(pos, pos + part.len()) == part
}

/// Looks for `part` at one position.
pub fn occurs(s: &[char], part: &[char], pos: usize) -> (r: bool)
    ensures
        r == occurs_at(s@, part@, pos as int),
{
    let n: usize = s.len();
    if pos > n || part.len() > n - pos {
        return false;
    }
    let mut i: usize = 0;
    while i < part.len()
        invariant
            i <= part@.len(),
            pos + part@.len() <= n,
            n == s@.len(),
            forall|k: int| 0 <= k < i ==> s@[pos + k] == part@[k],
        decreases part@.len() - i,
    {
        if s[pos + i] != part[i] {
            assert(s@.subrange(pos as int, pos + part@.len())[i as int] == s@[pos + i]);
            return false;
        }
        i += 1;
    }
    assert(s@.subrange(pos as int, pos + part@.len()) =~= part@);
    true
}

/// Where `part` first stands at or after `from`.
pub open spec fn first_at(s: Seq<char>, part: Seq<char>, from: int) -> Option<int>
    decreases s.len() + 1 - from,
{
    if from + part.len() > s.len() {
        None
    } else if occurs_at(s, part, from) {
        Some(from)
    } else {
        first_at(s, part, from + 1)
    }
}

/// Searching finds the first place, and finds nothing only where there is none.
pub proof fn lemma_first_at(s: Seq<char>, part: Seq<char>, from: int)
    requires
        0 <= from,
    ensures
        match first_at(s, part, from) {
            Some(pos) => {
                &&& from <= pos
                &&& occurs_at(s, part, pos)
                &&& forall|k: int| from <= k < pos ==> !#[trigger] occurs_at(s, part, k)
            },
            None => forall|k: int| from <= k ==> !#[trigger] occurs_at(s, part, k),
        },
    decreases s.len() + 1 - from,
{
    if from + part.len() <= s.len() && !occurs_at(s, part, from) {
        lemma_first_at(s, part, from + 1);
    }
}

/// Searches for `part` at or after `from`.
pub fn find_from(s: &[char], part: &[char], from: usize) -> (r: Option<usize>)
    ensures
        match r {
            Some(pos) => first_at(s@, part@, from as int) == Some(pos as int),
            None => first_at(s@, part@, from as int) is None,
        },
        r matches Some(pos) ==> from <= pos && pos + part@.len() <= s@.len(),
{
    let mut pos: usize = from;
    loop
        invariant
            from <= pos,
            first_at(s@, part@, from as int) == first_at(s@, part@, pos as int),
        decreases s@.len() - pos,
    {
        if pos > s.len() || part.len() > s.len() - pos {
            return None;
        }
        if occurs(s, part, pos) {
            return Some(pos);
        }
        assert(part@.len() == 0 ==> s@.subrange(pos as int, pos as int) =~= part@);
        pos += 1;
    }
}

/// Whether a text holds `part` anywhere.
pub open spec fn has_part(s: Seq<char>, part: Seq<char>) -> bool {
    exists|k: int| #[trigger] occurs_at(s, part, k)
}

/// Whether a text holds `part` anywhere.
pub fn contains(s: &str, part: &str) -> (r: bool)
    ensures
        r == has_part(s@, part@),
{
    proof {
        lemma_first_at(s@, part@, 0);
    }
    find_from(chars_of(s).as_slice(), chars_of(part).as_slice(), 0).is_some()
}

/// Whether a text starts with `prefix`.
pub open spec fn begins_with(s: Seq<char>, prefix: Seq<char>) -> bool {
    occurs_at(s, prefix, 0)
}

/// Whether a text starts with `prefix`.
pub fn starts_with(s: &str, prefix: &str) -> (r: bool)
    ensures
        r == begins_with(s@, prefix@),
{
    occurs(chars_of(s).as_slice(), chars_of(prefix).as_slice(), 0)
}

/// A text from `from` on, with each `part` in it replaced, left to right and
/// without overlap.
pub open spec fn replaced_from(
    s: Seq<char>,
    part: Seq<char>,
    with: Seq<char>,
    from: int,
) -> Seq<char>
    decreases s.len() - from,
{
    if from >= s.len() {
        Seq::empty()
    } else if part.len() > 0 && occurs_at(s, part, from) {
        with + replaced_from(s, part, with, from + part.len())
    } else {
        seq![s[from]] + replaced_from(s, part, with, from + 1)
    }
}

/// Replaces every `part` of a text.
pub fn replace_all(s: &str, part: &str, with: &str) -> (r: String)
    requires
        part@.len() > 0,
    ensures
        r@ == replaced_from(s@, part@, with@, 0),
{
    let chars: Vec<char> = chars_of(s);
    let part_chars: Vec<char> = chars_of(part);
    let mut out: String = String::new();
    let mut i: usize = 0;
    assert(out@ + replaced_from(s@, part@, with@, 0) =~= replaced_from(s@, part@, with@, 0));
    while i < chars.len()
        invariant
            i <= chars@.len(),
            chars@ == s@,
            part_chars@ == part@,
            part@.len() > 0,
            out@ + replaced_from(s@, part@, with@, i as int) == replaced_from(s@, part@, with@, 0),
        decreases chars@.len() - i,
    {
        let ghost before = out@;
        if occurs(chars.as_slice(), part_chars.as_slice(), i) {
            out.append(with);
            assert(out@ + replaced_from(s@, part@, with@, i + part@.len()) =~= before
                + replaced_from(s@, part@, with@, i as int));
            i += part_chars.len();
        } else {
            out.push(chars[i]);
            assert(out@ + replaced_from(s@, part@, with@, i + 1) =~= before + replaced_from(
                s@,
                part@,
                with@,
                i as int,
            ));
            i += 1;
        }
    }
    assert(out@ =~= replaced_from(s@, part@, with@, 0));
    out
}

/// Where `c` last stands before `end`.
pub open spec fn last_before(s: Seq<char>, c: char, end: int) -> Option<int>
    decreases end,
{
    if end <= 0 {
        None
    } else if s[end - 1] == c {
        Some(end - 1)
    } else {
        last_before(s, c, end - 1)
    }
}

/// The text before the last `c`.
pub open spec fn text_before_last(s: Seq<char>, c: char) -> Option<Seq<char>> {
    match last_before(s, c, s.len() as int) {
        Some(pos) => Some(s.take(pos)),
        None => None,
    }
}

/// Cuts a text at the last `c`, and keeps what stands before it.
pub fn before_last(s: &[char], c: char) -> (r: Option<&[char]>)
    ensures
        match r {
            Some(head) => text_before_last(s@, c) == Some(head@),
            None => text_before_last(s@, c) is None,
        },
{
    let mut end: usize = s.len();
    while end > 0
        invariant
            end <= s@.len(),
            last_before(s@, c, s@.len() as int) == last_before(s@, c, end as int),
        decreases end,
    {
        if s[end - 1] == c {
            let head: &[char] = slice_subrange(s, 0, end - 1);
            assert(head@ =~= s@.take(end - 1));
            return Some(head);
        }
        end -= 1;
    }
    None
}

/// The characters with the Unicode property White_Space.
pub open spec fn is_space(c: char) -> bool {
    let n = c as u32;
    ||| 0x09 <= n <= 0x0D
    ||| n == 0x20
    ||| n == 0x85
    ||| n == 0xA0
    ||| n == 0x1680
    ||| 0x2000 <= n <= 0x200A
    ||| n == 0x2028
    ||| n == 0x2029
    ||| n == 0x202F
    ||| n == 0x205F
    ||| n == 0x3000
}

fn read_is_space(c: char) -> (r: bool)
    ensures
        r == is_space(c),
{
    let n: u32 = c as u32;
    (0x09 <= n && n <= 0x0D) || n == 0x20 || n == 0x85 || n == 0xA0 || n == 0x1680 || (0x2000 <= n
        && n <= 0x200A) || n == 0x2028 || n == 0x2029 || n == 0x202F || n == 0x205F || n == 0x3000
}

/// A text without the white space before it.
pub open spec fn trimmed_start(s: Seq<char>) -> Seq<char>
    decreases s.len(),
{
    if s.len() > 0 && is_space(s[0]) {
        trimmed_start(s.skip(1))
    } else {
        s
    }
}

/// A text without the white space behind it.
pub open spec fn trimmed_end(s: Seq<char>) -> Seq<char>
    decreases s.len(),
{
    if s.len() > 0 && is_space(s.last()) {
        trimmed_end(s.drop_last())
    } else {
        s
    }
}

/// Drops the white space around a text.
pub fn trim(s: &[char]) -> (r: &[char])
    ensures
        r@ == trimmed_end(trimmed_start(s@)),
{
    let mut from: usize = 0;
    assert(s@.skip(0) =~= s@);
    while from < s.len() && read_is_space(s[from])
        invariant
            from <= s@.len(),
            trimmed_start(s@) == trimmed_start(s@.skip(from as int)),
        decreases s@.len() - from,
    {
        assert(s@.skip(from as int).skip(1) =~= s@.skip(from + 1));
        from += 1;
    }
    let ghost tail = s@.skip(from as int);
    let mut to: usize = s.len();
    assert(s@.subrange(from as int, to as int) =~= tail);
    while to > from && read_is_space(s[to - 1])
        invariant
            from <= to <= s@.len(),
            trimmed_end(tail) == trimmed_end(s@.subrange(from as int, to as int)),
        decreases to,
    {
        let ghost part = s@.subrange(from as int, to as int);
        assert(part.drop_last() =~= s@.subrange(from as int, to - 1));
        assert(part.last() == s@[to - 1]);
        to -= 1;
    }
    slice_subrange(s, from, to)
}

/// A text without all the `prefix`es that it starts with.
pub open spec fn without_prefixes(s: Seq<char>, prefix: Seq<char>) -> Seq<char>
    decreases s.len(),
{
    if prefix.len() > 0 && begins_with(s, prefix) {
        without_prefixes(s.skip(prefix.len() as int), prefix)
    } else {
        s
    }
}

/// Drops every `prefix` that a text starts with.
pub fn trim_prefixes<'a>(s: &'a [char], prefix: &str) -> (r: &'a [char])
    ensures
        r@ == without_prefixes(s@, prefix@),
{
    let part: Vec<char> = chars_of(prefix);
    let n: usize = s.len();
    let mut from: usize = 0;
    assert(s@.skip(0) =~= s@);
    while part.len() > 0 && occurs(s, part.as_slice(), from)
        invariant
            from <= n == s@.len(),
            part@ == prefix@,
            without_prefixes(s@, prefix@) == without_prefixes(s@.skip(from as int), prefix@),
        decreases n - from,
    {
        let ghost rest = s@.skip(from as int);
        assert(rest.subrange(0, part@.len() as int) =~= s@.subrange(
            from as int,
            from + part@.len(),
        ));
        assert(rest.skip(part@.len() as int) =~= s@.skip(from + part@.len()));
        from += part.len();
    }
    let rest: &[char] = slice_subrange(s, from, n);
    assert(rest@ =~= s@.skip(from as int));
    assert(from + part@.len() <= s@.len() ==> rest@.subrange(0, part@.len() as int) =~= s@.subrange(
        from as int,
        from + part@.len(),
    ));
    rest
}

/// A text without all the `suffix`es that it ends with.
pub open spec fn without_suffixes(s: Seq<char>, suffix: Seq<char>) -> Seq<char>
    decreases s.len(),
{
    if suffix.len() > 0 && occurs_at(s, suffix, s.len() - suffix.len()) {
        without_suffixes(s.take(s.len() - suffix.len()), suffix)
    } else {
        s
    }
}

/// Drops every `suffix` that a text ends with.
pub fn trim_suffixes<'a>(s: &'a [char], suffix: &str) -> (r: &'a [char])
    ensures
        r@ == without_suffixes(s@, suffix@),
{
    let part: Vec<char> = chars_of(suffix);
    let mut to: usize = s.len();
    assert(s@.take(to as int) =~= s@);
    while part.len() > 0 && to >= part.len() && occurs(s, part.as_slice(), to - part.len())
        invariant
            to <= s@.len(),
            part@ == suffix@,
            without_suffixes(s@, suffix@) == without_suffixes(s@.take(to as int), suffix@),
        decreases to,
    {
        let ghost rest = s@.take(to as int);
        assert(rest.subrange(to - part@.len(), to as int) =~= s@.subrange(
            to - part@.len(),
            to as int,
        ));
        assert(rest.take(to - part@.len()) =~= s@.take(to - part@.len()));
        to -= part.len();
    }
    let rest: &[char] = slice_subrange(s, 0, to);
    assert(rest@ =~= s@.take(to as int));
    assert(to >= part@.len() ==> rest@.subrange(to - part@.len(), to as int) =~= s@.subrange(
        to - part@.len(),
        to as int,
    ));
    rest
}

/// Whether a character is a decimal digit.
pub open spec fn is_digit(c: char) -> bool {
    '0' <= c && c <= '9'
}

/// The value of a run of digits.
pub open spec fn value_of(digits: Seq<char>) -> nat
    decreases digits.len(),
{
    if digits.len() == 0 {
        0
    } else {
        value_of(digits.drop_last()) * 10 + (digits.last() as nat - '0' as nat) as nat
    }
}

/// Whether a text is made of digits, at least one.
pub open spec fn all_digits(s: Seq<char>) -> bool {
    s.len() > 0 && forall|i: int| 0 <= i < s.len() ==> is_digit(#[trigger] s[i])
}

/// A text without the plus sign before it.
pub open spec fn without_plus(s: Seq<char>) -> Seq<char> {
    if s.len() > 0 && s[0] == '+' {
        s.skip(1)
    } else {
        s
    }
}

/// The number that a text stands for: digits, at least one of them, behind an
/// optional plus sign.
pub open spec fn number_of(s: Seq<char>) -> Option<nat> {
    let digits = without_plus(s);
    if all_digits(digits) {
        Some(value_of(digits))
    } else {
        None
    }
}

/// The number that a text stands for, up to a largest value.
pub open spec fn number_up_to(s: Seq<char>, max: nat) -> Option<nat> {
    match number_of(s) {
        Some(n) => if n <= max {
            Some(n)
        } else {
            None
        },
        None => None,
    }
}

proof fn lemma_value_grows(digits: Seq<char>, k: int)
    requires
        0 <= k <= digits.len(),
    ensures
        value_of(digits.take(k)) <= value_of(digits),
    decreases digits.len(),
{
    if k == digits.len() {
        assert(digits.take(k) =~= digits);
    } else {
        lemma_value_grows(digits.drop_last(), k);
        assert(digits.drop_last().take(k) =~= digits.take(k));
    }
}

/// Reads a number of 64 bits.
pub fn parse_u64(s: &[char]) -> (r: Option<u64>)
    ensures
        match r {
            Some(n) => number_up_to(s@, u64::MAX as nat) == Some(n as nat),
            None => number_up_to(s@, u64::MAX as nat) is None,
        },
{
    let from: usize = if s.len() > 0 && s[0] == '+' {
        1
    } else {
        0
    };
    let ghost digits = s@.skip(from as int);
    assert(s@.skip(0) =~= s@);
    if from == s.len() {
        return None;
    }
    let mut n: u64 = 0;
    let mut i: usize = from;
    assert(digits.take(0).len() == 0);
    while i < s.len()
        invariant
            from <= i <= s@.len(),
            digits == s@.skip(from as int),
            digits == without_plus(s@),
            digits.len() > 0,
            forall|k: int| 0 <= k < i - from ==> is_digit(#[trigger] digits[k]),
            n == value_of(digits.take(i - from)),
        decreases s@.len() - i,
    {
        let c: char = s[i];
        let ghost done = digits.take(i - from);
        let ghost more = digits.take(i + 1 - from);
        assert(digits[i - from] == c);
        if c < '0' || c > '9' {
            return None;
        }
        let d: u64 = (c as u32 - 48) as u64;
        assert(more.drop_last() =~= done);
        assert(more.last() == c);
        assert(value_of(more) == value_of(done) * 10 + d);
        proof {
            lemma_value_grows(digits, i + 1 - from);
        }
        if n > (u64::MAX - d) / 10 {
            return None;
        }
        n = n * 10 + d;
        i += 1;
    }
    assert(digits.take(s@.len() - from) =~= digits);
    Some(n)
}

/// Reads a number of 32 bits.
pub fn parse_u32(s: &[char]) -> (r: Option<u32>)
    ensures
        match r {
            Some(n) => number_up_to(s@, u32::MAX as nat) == Some(n as nat),
            None => number_up_to(s@, u32::MAX as nat) is None,
        },
{
    match parse_u64(s) {
        Some(n) => if n <= u32::MAX as u64 {
            Some(n as u32)
        } else {
            None
        },
        None => None,
    }
}

/// A number reads back from its decimal text.
pub proof fn lemma_decimal_round_trip(n: nat)
    ensures
        number_of(decimal(n)) == Some(n),
        all_digits(decimal(n)),
    decreases n,
{
    lemma_decimal_value(n);
    assert(is_digit(decimal(n)[0]));
}

proof fn lemma_decimal_value(n: nat)
    ensures
        value_of(decimal(n)) == n,
        all_digits(decimal(n)),
    decreases n,
{
    let s = decimal(n);
    if n < 10 {
        assert(s.drop_last().len() == 0);
        assert(value_of(s.drop_last()) == 0);
    } else {
        lemma_decimal_value(n / 10);
        assert(s.drop_last() =~= decimal(n / 10));
        assert forall|i: int| 0 <= i < s.len() implies is_digit(#[trigger] s[i]) by {
            if i < s.len() - 1 {
                assert(s[i] == decimal(n / 10)[i]);
            }
        }
    }
}

/// The value of digits goes by their places: one more digit moves the others
/// up by ten.
pub proof fn lemma_digits_have_places(s: Seq<char>, c: char)
    requires
        all_digits(s),
        '0' <= c <= '9',
    ensures
        number_of(s.push(c)) == Some((value_of(s) * 10 + (c as int - 48)) as nat),
        number_of(s) == Some(value_of(s)),
        number_of(seq![c]) == Some((c as int - 48) as nat),
{
    let more = s.push(c);
    assert(more.drop_last() =~= s);
    assert(is_digit(s[0]));
    assert forall|i: int| 0 <= i < more.len() implies is_digit(#[trigger] more[i]) by {
        if i < s.len() {
            assert(more[i] == s[i]);
        }
    }
    assert(more[0] == s[0]);
    let one = seq![c];
    assert(one.drop_last() =~= Seq::<char>::empty());
    assert(value_of(one.drop_last()) == 0);
    assert(all_digits(one));
}

/// Cutting at the last `c` leaves what stands before it: behind it no `c` comes
/// any more. Where nothing is cut there is none.
pub proof fn lemma_cut_at_last(s: Seq<char>, c: char)
    ensures
        match text_before_last(s, c) {
            Some(head) => {
                &&& head.len() < s.len()
                &&& head == s.take(head.len() as int)
                &&& s[head.len() as int] == c
                &&& forall|i: int| head.len() < i < s.len() ==> #[trigger] s[i] != c
            },
            None => forall|i: int| 0 <= i < s.len() ==> #[trigger] s[i] != c,
        },
{
    lemma_last_before(s, c, s.len() as int);
}

proof fn lemma_last_before(s: Seq<char>, c: char, end: int)
    requires
        0 <= end <= s.len(),
    ensures
        match last_before(s, c, end) {
            Some(pos) => {
                &&& 0 <= pos < end
                &&& s[pos] == c
                &&& forall|i: int| pos < i < end ==> #[trigger] s[i] != c
            },
            None => forall|i: int| 0 <= i < end ==> #[trigger] s[i] != c,
        },
    decreases end,
{
    if end > 0 && s[end - 1] != c {
        lemma_last_before(s, c, end - 1);
    }
}

/// Trimming takes white space off both ends and nothing else.
pub proof fn lemma_trim_takes_space(s: Seq<char>)
    ensures
        ({
            let r = trimmed_end(trimmed_start(s));
            &&& r.len() > 0 ==> !is_space(r[0]) && !is_space(r.last())
            &&& exists|from: int|
                {
                    &&& 0 <= from
                    &&& from + r.len() <= s.len()
                    &&& r == #[trigger] s.subrange(from, from + r.len())
                    &&& forall|i: int|
                        0 <= i < s.len() && (i < from || i >= from + r.len()) ==> is_space(
                            #[trigger] s[i],
                        )
                }
        }),
{
    lemma_trimmed_start(s);
    let tail = trimmed_start(s);
    lemma_trimmed_end(tail);
    let r = trimmed_end(tail);
    let from = s.len() - tail.len();
    assert(r =~= s.subrange(from, from + r.len()));
    assert forall|i: int| 0 <= i < s.len() && (i < from || i >= from + r.len()) implies is_space(
        #[trigger] s[i],
    ) by {
        if i >= from {
            assert(s[i] == tail[i - from]);
        }
    }
    if r.len() > 0 {
        assert(r[0] == tail[0]);
    }
}

proof fn lemma_trimmed_start(s: Seq<char>)
    ensures
        ({
            let r = trimmed_start(s);
            &&& r.len() <= s.len()
            &&& r == s.skip(s.len() - r.len())
            &&& forall|i: int| 0 <= i < s.len() - r.len() ==> is_space(#[trigger] s[i])
            &&& r.len() > 0 ==> !is_space(r[0])
        }),
    decreases s.len(),
{
    if s.len() > 0 && is_space(s[0]) {
        lemma_trimmed_start(s.skip(1));
        let r = trimmed_start(s);
        assert(s.skip(1).skip(s.len() - 1 - r.len()) =~= s.skip(s.len() - r.len()));
        assert forall|i: int| 0 <= i < s.len() - r.len() implies is_space(#[trigger] s[i]) by {
            if i > 0 {
                assert(s[i] == s.skip(1)[i - 1]);
            }
        }
    } else {
        assert(s.skip(0) =~= s);
    }
}

proof fn lemma_trimmed_end(s: Seq<char>)
    ensures
        ({
            let r = trimmed_end(s);
            &&& r.len() <= s.len()
            &&& r == s.take(r.len() as int)
            &&& forall|i: int| r.len() <= i < s.len() ==> is_space(#[trigger] s[i])
            &&& r.len() > 0 ==> !is_space(r.last())
        }),
    decreases s.len(),
{
    if s.len() > 0 && is_space(s.last()) {
        lemma_trimmed_end(s.drop_last());
        let r = trimmed_end(s);
        assert(s.drop_last().take(r.len() as int) =~= s.take(r.len() as int));
        assert forall|i: int| r.len() <= i < s.len() implies is_space(#[trigger] s[i]) by {
            if i < s.len() - 1 {
                assert(s[i] == s.drop_last()[i]);
            }
        }
    } else {
        assert(s.take(s.len() as int) =~= s);
    }
}

/// Replacing starts with the first place of the part, leaves what stands before
/// it, and goes on behind it. Without such a place the text stays as it is.
pub proof fn lemma_replaces_first_and_on(s: Seq<char>, part: Seq<char>, with: Seq<char>)
    requires
        part.len() > 0,
    ensures
        match first_at(s, part, 0) {
            Some(k) => replaced_from(s, part, with, 0) == s.take(k) + with + replaced_from(
                s.skip(k + part.len()),
                part,
                with,
                0,
            ),
            None => replaced_from(s, part, with, 0) == s,
        },
{
    lemma_first_at(s, part, 0);
    match first_at(s, part, 0) {
        Some(k) => {
            lemma_replaced_up_to(s, part, with, 0, k);
            lemma_replaced_tail(s, part, with, k + part.len(), k + part.len());
            assert(s.subrange(0, k) =~= s.take(k));
            assert(s.subrange(0, k) + (with + replaced_from(s, part, with, k + part.len()))
                =~= s.take(k) + with + replaced_from(s, part, with, k + part.len()));
        },
        None => {
            lemma_replaced_up_to(s, part, with, 0, s.len() as int);
            assert(s.subrange(0, s.len() as int) =~= s);
            assert(s + Seq::<char>::empty() =~= s);
        },
    }
}

proof fn lemma_replaced_up_to(
    s: Seq<char>,
    part: Seq<char>,
    with: Seq<char>,
    from: int,
    to: int,
)
    requires
        part.len() > 0,
        0 <= from <= to <= s.len(),
        forall|k: int| from <= k < to ==> !#[trigger] occurs_at(s, part, k),
    ensures
        replaced_from(s, part, with, from) == s.subrange(from, to) + replaced_from(
            s,
            part,
            with,
            to,
        ),
    decreases to - from,
{
    if from < to {
        lemma_replaced_up_to(s, part, with, from + 1, to);
        assert(seq![s[from]] + (s.subrange(from + 1, to) + replaced_from(s, part, with, to))
            =~= s.subrange(from, to) + replaced_from(s, part, with, to));
    } else {
        assert(s.subrange(from, to) =~= Seq::<char>::empty());
        assert(Seq::<char>::empty() + replaced_from(s, part, with, to) =~= replaced_from(
            s,
            part,
            with,
            to,
        ));
    }
}

proof fn lemma_replaced_tail(s: Seq<char>, part: Seq<char>, with: Seq<char>, cut: int, from: int)
    requires
        part.len() > 0,
        0 <= cut <= from,
        cut <= s.len(),
    ensures
        replaced_from(s, part, with, from) == replaced_from(s.skip(cut), part, with, from - cut),
    decreases s.len() - from,
{
    if from < s.len() {
        let tail = s.skip(cut);
        assert(tail[from - cut] == s[from]);
        if from + part.len() <= s.len() {
            assert(tail.subrange(from - cut, from - cut + part.len()) =~= s.subrange(
                from,
                from + part.len(),
            ));
        }
        assert(occurs_at(s, part, from) == occurs_at(tail, part, from - cut));
        if occurs_at(s, part, from) {
            lemma_replaced_tail(s, part, with, cut, from + part.len());
        } else {
            lemma_replaced_tail(s, part, with, cut, from + 1);
        }
    }
}

/// A suffix comes off as often as a text ends with it.
pub proof fn lemma_suffixes_come_off(s: Seq<char>, suffix: Seq<char>)
    requires
        suffix.len() > 0,
    ensures
        without_suffixes(s + suffix, suffix) == without_suffixes(s, suffix),
        !suffix.is_suffix_of(s) ==> without_suffixes(s, suffix) == s,
{
    let all = s + suffix;
    assert(all.subrange(s.len() as int, all.len() as int) =~= suffix);
    assert(all.take(s.len() as int) =~= s);
    if suffix.len() <= s.len() {
        assert(s.subrange(s.len() - suffix.len(), s.len() as int) =~= s.skip(
            s.len() - suffix.len(),
        ));
    }
}

/// A prefix comes off as often as a text starts with it.
pub proof fn lemma_prefixes_come_off(s: Seq<char>, prefix: Seq<char>)
    requires
        prefix.len() > 0,
    ensures
        without_prefixes(prefix + s, prefix) == without_prefixes(s, prefix),
        !prefix.is_prefix_of(s) ==> without_prefixes(s, prefix) == s,
{
    let all = prefix + s;
    assert(all.subrange(0, prefix.len() as int) =~= prefix);
    assert(all.skip(prefix.len() as int) =~= s);
    if prefix.len() <= s.len() {
        assert(s.subrange(0, prefix.len() as int) =~= s.take(prefix.len() as int));
    }
}

/// A number has no zero before it, and each of its digits is one of ten.
pub proof fn lemma_no_leading_zero(n: nat)
    ensures
        decimal(n).len() > 0,
        n > 0 ==> decimal(n)[0] != '0',
        n == 0 ==> decimal(n) == seq!['0'],
        forall|i: int| 0 <= i < decimal(n).len() ==> '0' <= #[trigger] decimal(n)[i] <= '9',
    decreases n,
{
    lemma_decimal_round_trip(n);
    if n >= 10 {
        lemma_no_leading_zero(n / 10);
        assert(decimal(n)[0] == decimal(n / 10)[0]);
    }
    assert forall|i: int| 0 <= i < decimal(n).len() implies '0' <= #[trigger] decimal(n)[i]
        <= '9' by {
        assert(is_digit(decimal(n)[i]));
    }
}

/// What reads as a number: digits, at least one, and a plus sign before them or
/// not; nothing else does.
pub proof fn lemma_what_is_a_number(s: Seq<char>)
    ensures
        number_of(s) is Some ==> s.len() > 0 && ('0' <= s[0] <= '9' || s[0] == '+' && s.len() > 1),
        number_of(s) is Some ==> forall|i: int|
            0 < i < s.len() ==> '0' <= #[trigger] s[i] <= '9',
        s.len() > 0 && (forall|i: int| 0 <= i < s.len() ==> '0' <= #[trigger] s[i] <= '9')
            ==> number_of(s) is Some && number_of(seq!['+'] + s) == number_of(s),
        forall|max: nat|
            #![trigger number_up_to(s, max)]
            number_up_to(s, max) == (if number_of(s) matches Some(n) && n <= max {
                number_of(s)
            } else {
                None
            }),
{
    let digits = without_plus(s);
    if number_of(s) is Some {
        assert(is_digit(digits[0]));
        assert forall|i: int| 0 < i < s.len() implies '0' <= #[trigger] s[i] <= '9' by {
            if s[0] == '+' {
                assert(is_digit(digits[i - 1]));
            } else {
                assert(is_digit(digits[i]));
            }
        }
    }
    if s.len() > 0 && (forall|i: int| 0 <= i < s.len() ==> '0' <= #[trigger] s[i] <= '9') {
        assert('0' <= s[0] <= '9');
        assert(all_digits(s));
        let signed = seq!['+'] + s;
        assert(signed[0] == '+');
        assert(signed.skip(1) =~= s);
    }
}

/// The texts of some strings are theirs, in order.
pub proof fn lemma_texts_are_of_strings(strings: Seq<String>, i: int)
    ensures
        texts(strings).len() == strings.len(),
        0 <= i < strings.len() ==> texts(strings)[i] == strings[i]@,
{
}

} // verus!
