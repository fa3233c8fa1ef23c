//! Character-level text handling shared by the parsers: whitespace, trimming,
//! splitting into lines, words and fields, joining, searching and comparing.
//! Every operation is stated over the `Seq<char>` view of the strings.
use vstd::prelude::*;

verus! {

// ---------------------------------------------------------------------------
// Whitespace
// ---------------------------------------------------------------------------

/// The Unicode `White_Space` property, the set that `char::is_whitespace` tests.
pub open spec fn is_ws(c: char) -> bool {
    let u = c as u32;
    ||| 0x09 <= u <= 0x0d
    ||| u == 0x20
    ||| u == 0x85
    ||| u == 0xa0
    ||| u == 0x1680
    ||| 0x2000 <= u <= 0x200a
    ||| u == 0x2028
    ||| u == 0x2029
    ||| u == 0x202f
    ||| u == 0x205f
    ||| u == 0x3000
}

/// Whether `c` is Unicode whitespace.
pub fn is_whitespace(c: char) -> (r: bool)
    ensures
        r == is_ws(c),
{
    let u = c as u32;
    (0x09 <= u && u <= 0x0d) || u == 0x20 || u == 0x85 || u == 0xa0 || u == 0x1680 || (0x2000
        <= u && u <= 0x200a) || u == 0x2028 || u == 0x2029 || u == 0x202f || u == 0x205f || u
        == 0x3000
}

// ---------------------------------------------------------------------------
// Conversions between strings and character vectors
// ---------------------------------------------------------------------------

/// Appends one character to a string (`String::push`).
#[verifier::external_body]
pub(crate) fn push_char(s: &mut String, c: char)
    ensures
        final(s)@ == old(s)@.push(c),
{
    s.push(c);
}

/// The characters of `s`, in order.
pub fn chars_of(s: &str) -> (r: Vec<char>)
    ensures
        r@ == s@,
{
    let mut r: Vec<char> = Vec::new();
    for c in it: s.chars()
        invariant
            r@ == it.seq().take(it.index() as int),
            it.seq() == s@,
    {
        r.push(c);
    }
    r
}

/// The string made of the characters `cs[from..to]`.
pub fn string_of_range(cs: &Vec<char>, from: usize, to: usize) -> (r: String)
    requires
        from <= to <= cs.len(),
    ensures
        r@ == cs@.subrange(from as int, to as int),
{
    let mut r = String::new();
    let mut i: usize = from;
    while i < to
        invariant
            from <= i <= to <= cs.len(),
            r@ == cs@.subrange(from as int, i as int),
        decreases to - i,
    {
        push_char(&mut r, cs[i]);
        i = i + 1;
        assert(r@ =~= cs@.subrange(from as int, i as int));
    }
    r
}

/// The string made of all the characters of `cs`.
pub fn string_of(cs: &Vec<char>) -> (r: String)
    ensures
        r@ == cs@,
{
    let r = string_of_range(cs, 0, cs.len());
    assert(cs@.subrange(0, cs@.len() as int) =~= cs@);
    r
}

/// A copy of `s` as an owned string.
pub fn to_owned_string(s: &str) -> (r: String)
    ensures
        r@ == s@,
{
    let cs = chars_of(s);
    string_of(&cs)
}

/// Whether two strings hold the same characters.
pub fn str_eq(a: &str, b: &str) -> (r: bool)
    ensures
        r == (a@ == b@),
{
    let x = chars_of(a);
    let y = chars_of(b);
    if x.len() != y.len() {
        return false;
    }
    let mut i: usize = 0;
    while i < x.len()
        invariant
            x@ == a@,
            y@ == b@,
            x.len() == y.len(),
            i <= x.len(),
            forall|j: int| 0 <= j < i ==> x@[j] == y@[j],
        decreases x.len() - i,
    {
        if x[i] != y[i] {
            return false;
        }
        i = i + 1;
    }
    assert(x@ =~= y@);
    true
}

/// Whether `v` holds a string equal to `s`.
pub fn contains_string(v: &Vec<String>, s: &str) -> (r: bool)
    ensures
        r == v.deep_view().contains(s@),
{
    let mut i: usize = 0;
    while i < v.len()
        invariant
            i <= v.len(),
            forall|j: int| 0 <= j < i ==> v@[j]@ != s@,
        decreases v.len() - i,
    {
        if str_eq(v[i].as_str(), s) {
            assert(v.deep_view()[i as int] == s@);
            return true;
        }
        i = i + 1;
    }
    assert forall|j: int| 0 <= j < v.deep_view().len() implies v.deep_view()[j] != s@ by {
        assert(v.deep_view()[j] == v@[j]@);
    }
    false
}

// ---------------------------------------------------------------------------
// Trimming
// ---------------------------------------------------------------------------

/// `s` without its leading whitespace.
pub open spec fn trim_start(s: Seq<char>) -> Seq<char>
    decreases s.len(),
{
    if s.len() > 0 && is_ws(s[0]) {
        trim_start(s.skip(1))
    } else {
        s
    }
}

/// `s` without its trailing whitespace.
pub open spec fn trim_end(s: Seq<char>) -> Seq<char>
    decreases s.len(),
{
    if s.len() > 0 && is_ws(s.last()) {
        trim_end(s.drop_last())
    } else {
        s
    }
}

/// `s` without leading and trailing whitespace (`str::trim`).
pub open spec fn trim(s: Seq<char>) -> Seq<char> {
    trim_end(trim_start(s))
}

/// Bounds `(a, b)` such that `cs[a..b]` is `cs` trimmed.
pub fn trim_bounds(cs: &Vec<char>) -> (r: (usize, usize))
    ensures
        r.0 <= r.1 <= cs.len(),
        cs@.subrange(r.0 as int, r.1 as int) == trim(cs@),
{
    let n = cs.len();
    let mut i: usize = 0;
    assert(cs@.skip(0) =~= cs@);
    while i < n && is_whitespace(cs[i])
        invariant
            i <= n == cs.len(),
            trim_start(cs@.skip(i as int)) == trim_start(cs@),
        decreases n - i,
    {
        assert(cs@.skip(i as int).skip(1) =~= cs@.skip(i + 1));
        i = i + 1;
    }
    assert(trim_start(cs@) == cs@.skip(i as int));
    let mut j: usize = n;
    assert(cs@.skip(i as int) =~= cs@.subrange(i as int, n as int));
    while j > i && is_whitespace(cs[j - 1])
        invariant
            i <= j <= n == cs.len(),
            trim_end(cs@.subrange(i as int, j as int)) == trim(cs@),
        decreases j,
    {
        assert(cs@.subrange(i as int, j as int).drop_last() =~= cs@.subrange(
            i as int,
            j - 1,
        ));
        j = j - 1;
    }
    (i, j)
}

/// `s` without trailing whitespace.
pub fn trim_end_str(s: &str) -> (r: String)
    ensures
        r@ == trim_end(s@),
{
    let cs = chars_of(s);
    let mut j: usize = cs.len();
    assert(cs@.subrange(0, j as int) =~= cs@);
    while j > 0 && is_whitespace(cs[j - 1])
        invariant
            j <= cs.len(),
            cs@ == s@,
            trim_end(cs@.subrange(0, j as int)) == trim_end(s@),
        decreases j,
    {
        assert(cs@.subrange(0, j as int).drop_last() =~= cs@.subrange(0, j - 1));
        j = j - 1;
    }
    string_of_range(&cs, 0, j)
}

/// `s` trimmed of whitespace at both ends.
pub fn trim_str(s: &str) -> (r: String)
    ensures
        r@ == trim(s@),
{
    let cs = chars_of(s);
    let (a, b) = trim_bounds(&cs);
    string_of_range(&cs, a, b)
}

// ---------------------------------------------------------------------------
// Splitting
// ---------------------------------------------------------------------------

/// The pieces of `s` between occurrences of `sep`, empty pieces included; there is
/// always one piece more than there are separators (`str::split` with a `char`).
pub open spec fn split_on(s: Seq<char>, sep: char) -> Seq<Seq<char>>
    decreases s.len(),
{
    if s.len() == 0 {
        seq![Seq::<char>::empty()]
    } else {
        let prev = split_on(s.drop_last(), sep);
        if s.last() == sep {
            prev.push(Seq::<char>::empty())
        } else {
            prev.update(prev.len() - 1, prev.last().push(s.last()))
        }
    }
}

pub proof fn lemma_split_on_nonempty(s: Seq<char>, sep: char)
    ensures
        split_on(s, sep).len() >= 1,
    decreases s.len(),
{
    if s.len() > 0 {
        lemma_split_on_nonempty(s.drop_last(), sep);
    }
}

/// `s` cut at every `sep` character.
pub fn split_char(s: &str, sep: char) -> (r: Vec<String>)
    ensures
        r.deep_view() == split_on(s@, sep),
{
    let cs = chars_of(s);
    let mut done: Vec<String> = Vec::new();
    let mut cur = String::new();
    let mut i: usize = 0;
    assert(cs@.take(0) =~= Seq::<char>::empty());
    assert(done.deep_view().push(cur@) =~= split_on(cs@.take(0), sep));
    while i < cs.len()
        invariant
            cs@ == s@,
            i <= cs.len(),
            done.deep_view().push(cur@) == split_on(cs@.take(i as int), sep),
        decreases cs.len() - i,
    {
        let c = cs[i];
        let ghost prev = cs@.take(i as int);
        assert(cs@.take(i + 1).drop_last() =~= prev);
        if c == sep {
            let ghost old_done = done.deep_view();
            done.push(cur);
            cur = String::new();
            assert(done.deep_view() =~= old_done.push(split_on(prev, sep).last()));
            assert(done.deep_view().push(cur@) =~= split_on(cs@.take(i + 1), sep));
        } else {
            push_char(&mut cur, c);
            assert(done.deep_view().push(cur@) =~= split_on(cs@.take(i + 1), sep));
        }
        i = i + 1;
    }
    assert(cs@.take(cs.len() as int) =~= cs@);
    let ghost before = done.deep_view();
    done.push(cur);
    assert(done.deep_view() =~= before.push(cur@));
    done
}

/// A line without the carriage return that ended it (`"\r\n"` endings).
pub open spec fn strip_cr(line: Seq<char>) -> Seq<char> {
    if line.len() > 0 && line.last() == '\r' {
        line.drop_last()
    } else {
        line
    }
}

/// The lines of `s` (`str::lines`): pieces between `'\n'`, a `'\r'` directly before
/// a `'\n'` dropped, and no empty final piece after a last `'\n'`.
pub open spec fn lines_of(s: Seq<char>) -> Seq<Seq<char>> {
    let p = split_on(s, '\n');
    let body = p.drop_last().map_values(|l: Seq<char>| strip_cr(l));
    if p.last().len() == 0 {
        body
    } else {
        body.push(p.last())
    }
}

/// `line` without one trailing `'\r'`.
fn strip_cr_string(line: String) -> (r: String)
    ensures
        r@ == strip_cr(line@),
{
    let cs = chars_of(line.as_str());
    if cs.len() > 0 && cs[cs.len() - 1] == '\r' {
        string_of_range(&cs, 0, cs.len() - 1)
    } else {
        line
    }
}

/// The lines of `s`.
pub fn split_lines(s: &str) -> (r: Vec<String>)
    ensures
        r.deep_view() == lines_of(s@),
{
    let pieces = split_char(s, '\n');
    proof {
        lemma_split_on_nonempty(s@, '\n');
    }
    let n = pieces.len();
    let mut r: Vec<String> = Vec::new();
    let mut i: usize = 0;
    while i + 1 < n
        invariant
            pieces.deep_view() == split_on(s@, '\n'),
            n == pieces.len() >= 1,
            i < n,
            r.deep_view() == pieces.deep_view().take(i as int).map_values(
                |l: Seq<char>| strip_cr(l),
            ),
        decreases n - i,
    {
        let ghost before = r.deep_view();
        let line = strip_cr_string(pieces[i].clone());
        assert(line@ == strip_cr(pieces.deep_view()[i as int]));
        r.push(line);
        assert(r.deep_view() =~= before.push(strip_cr(pieces.deep_view()[i as int])));
        assert(pieces.deep_view().take(i + 1) =~= pieces.deep_view().take(i as int).push(
            pieces.deep_view()[i as int],
        ));
        assert(r.deep_view() =~= pieces.deep_view().take(i + 1).map_values(
            |l: Seq<char>| strip_cr(l),
        ));
        i = i + 1;
    }
    assert(pieces.deep_view().take(i as int) =~= pieces.deep_view().drop_last());
    let last_len = chars_of(pieces[n - 1].as_str()).len();
    if last_len > 0 {
        let ghost before = r.deep_view();
        r.push(pieces[n - 1].clone());
        assert(r.deep_view() =~= before.push(pieces.deep_view().last()));
    }
    r
}

/// The whitespace-separated words of `s` (`str::split_whitespace`).
pub open spec fn words(s: Seq<char>) -> Seq<Seq<char>>
    decreases s.len(),
{
    if s.len() == 0 {
        Seq::<Seq<char>>::empty()
    } else {
        let prev = words(s.drop_last());
        let c = s.last();
        if is_ws(c) {
            prev
        } else if s.len() >= 2 && !is_ws(s[s.len() - 2]) {
            prev.update(prev.len() - 1, prev.last().push(c))
        } else {
            prev.push(seq![c])
        }
    }
}

/// The words of `s`.
pub fn split_words(s: &str) -> (r: Vec<String>)
    ensures
        r.deep_view() == words(s@),
{
    let cs = chars_of(s);
    let mut done: Vec<String> = Vec::new();
    let mut cur = String::new();
    let mut in_word = false;
    let mut i: usize = 0;
    assert(cs@.take(0) =~= Seq::<char>::empty());
    while i < cs.len()
        invariant
            cs@ == s@,
            i <= cs.len(),
            in_word == (i > 0 && !is_ws(cs@[i - 1])),
            in_word ==> cur@.len() > 0 && done.deep_view().push(cur@) == words(
                cs@.take(i as int),
            ),
            !in_word ==> done.deep_view() == words(cs@.take(i as int)),
        decreases cs.len() - i,
    {
        let c = cs[i];
        let ghost prev = cs@.take(i as int);
        assert(cs@.take(i + 1).drop_last() =~= prev);
        assert(cs@.take(i + 1).last() == c);
        if is_whitespace(c) {
            if in_word {
                let ghost old_done = done.deep_view();
                done.push(cur);
                cur = String::new();
                assert(done.deep_view() =~= old_done.push(words(prev).last()));
                assert(done.deep_view() =~= words(prev));
            }
            in_word = false;
        } else {
            if in_word {
                assert(i >= 1 && !is_ws(cs@.take(i + 1)[i - 1]));
                push_char(&mut cur, c);
                assert(done.deep_view().push(cur@) =~= words(cs@.take(i + 1)));
            } else {
                cur = String::new();
                push_char(&mut cur, c);
                assert(cur@ =~= seq![c]);
                assert(done.deep_view().push(cur@) =~= words(cs@.take(i + 1)));
            }
            in_word = true;
        }
        i = i + 1;
    }
    assert(cs@.take(cs.len() as int) =~= cs@);
    if in_word {
        let ghost before = done.deep_view();
        done.push(cur);
        assert(done.deep_view() =~= before.push(cur@));
    }
    done
}

// ---------------------------------------------------------------------------
// Building strings
// ---------------------------------------------------------------------------

/// Appends all characters of `t` to `s`.
pub fn append_str(s: &mut String, t: &str)
    ensures
        final(s)@ == old(s)@ + t@,
{
    let cs = chars_of(t);
    let mut i: usize = 0;
    while i < cs.len()
        invariant
            cs@ == t@,
            i <= cs.len(),
            s@ == old(s)@ + cs@.take(i as int),
        decreases cs.len() - i,
    {
        push_char(s, cs[i]);
        i = i + 1;
        assert(s@ =~= old(s)@ + cs@.take(i as int));
    }
    assert(cs@.take(cs.len() as int) =~= cs@);
}

/// The parts joined with `sep` between consecutive parts (`[T]::join`).
pub open spec fn join(parts: Seq<Seq<char>>, sep: Seq<char>) -> Seq<char>
    decreases parts.len(),
{
    if parts.len() == 0 {
        Seq::<char>::empty()
    } else if parts.len() == 1 {
        parts[0]
    } else {
        join(parts.drop_last(), sep) + sep + parts.last()
    }
}

/// The parts joined with `sep` between consecutive parts.
pub fn join_strs(parts: &Vec<&str>, sep: &str) -> (r: String)
    ensures
        r@ == join(parts.deep_view(), sep@),
{
    let mut r = String::new();
    let mut i: usize = 0;
    while i < parts.len()
        invariant
            i <= parts.len(),
            r@ == join(parts.deep_view().take(i as int), sep@),
        decreases parts.len() - i,
    {
        assert(parts.deep_view().take(i + 1).drop_last() =~= parts.deep_view().take(i as int));
        if i > 0 {
            append_str(&mut r, sep);
        }
        append_str(&mut r, parts[i]);
        i = i + 1;
        assert(r@ =~= join(parts.deep_view().take(i as int), sep@));
    }
    assert(parts.deep_view().take(i as int) =~= parts.deep_view());
    r
}

/// The strings joined with `sep` between consecutive strings.
pub fn join_strings(parts: &Vec<String>, sep: &str) -> (r: String)
    ensures
        r@ == join(parts.deep_view(), sep@),
{
    let mut r = String::new();
    let mut i: usize = 0;
    while i < parts.len()
        invariant
            i <= parts.len(),
            r@ == join(parts.deep_view().take(i as int), sep@),
        decreases parts.len() - i,
    {
        assert(parts.deep_view().take(i + 1).drop_last() =~= parts.deep_view().take(i as int));
        if i > 0 {
            append_str(&mut r, sep);
        }
        append_str(&mut r, parts[i].as_str());
        i = i + 1;
        assert(r@ =~= join(parts.deep_view().take(i as int), sep@));
    }
    assert(parts.deep_view().take(i as int) =~= parts.deep_view());
    r
}

// ---------------------------------------------------------------------------
// Searching
// ---------------------------------------------------------------------------

/// `pat` occurs in `hay` starting at position `i`.
pub open spec fn occurs_at(hay: Seq<char>, pat: Seq<char>, i: int) -> bool {
    0 <= i && i + pat.len() <= hay.len() && hay.subrange(i, i + pat.len()) == pat
}

/// `pat` occurs somewhere in `hay` (`str::contains`).
pub open spec fn contains_seq(hay: Seq<char>, pat: Seq<char>) -> bool {
    exists|i: int| occurs_at(hay, pat, i)
}

/// Whether `pat` occurs in `hay`.
pub fn str_contains(hay: &str, pat: &str) -> (r: bool)
    ensures
        r == contains_seq(hay@, pat@),
{
    let h = chars_of(hay);
    let p = chars_of(pat);
    if p.len() > h.len() {
        return false;
    }
    let mut i: usize = 0;
    while i <= h.len() - p.len()
        invariant
            h@ == hay@,
            p@ == pat@,
            p.len() <= h.len(),
            i <= h.len() - p.len() + 1,
            forall|k: int| 0 <= k < i ==> !occurs_at(h@, p@, k),
        decreases h.len() - i,
    {
        let mut j: usize = 0;
        while j < p.len() && h[i + j] == p[j]
            invariant
                i + p.len() <= h.len(),
                j <= p.len(),
                forall|m: int| 0 <= m < j ==> h@[i + m] == p@[m],
            decreases p.len() - j,
        {
            j = j + 1;
        }
        if j == p.len() {
            assert(h@.subrange(i as int, i + p.len()) =~= p@);
            assert(occurs_at(h@, p@, i as int));
            return true;
        }
        assert(h@.subrange(i as int, i + p.len())[j as int] != p@[j as int]);
        i = i + 1;
    }
    false
}

/// Whether `s` begins with the character `c`.
pub fn starts_with_char(s: &str, c: char) -> (r: bool)
    ensures
        r == (s@.len() > 0 && s@[0] == c),
{
    let cs = chars_of(s);
    cs.len() > 0 && cs[0] == c
}

// ---------------------------------------------------------------------------
// Case
// ---------------------------------------------------------------------------

/// What `str::to_lowercase` makes of a string: the Unicode lowercase mapping,
/// a function of the characters alone.
pub uninterp spec fn lowercase(s: Seq<char>) -> Seq<char>;

/// Every character of `s` is ASCII.
pub open spec fn is_ascii_text(s: Seq<char>) -> bool {
    forall|i: int| 0 <= i < s.len() ==> (#[trigger] s[i] as u32) < 128
}

/// `c` with an ASCII capital letter turned into its small letter.
pub open spec fn ascii_lower_char(c: char) -> char {
    if 65 <= (c as u32) <= 90 {
        ((c as u32) + 32) as char
    } else {
        c
    }
}

/// `s` with each ASCII capital letter turned into its small letter.
pub open spec fn ascii_lowercase(s: Seq<char>) -> Seq<char> {
    s.map_values(|c: char| ascii_lower_char(c))
}

/// What `str::to_lowercase` gives, as far as this library states it: the ASCII
/// lowering for an all-ASCII text, `lowercase` otherwise.
pub open spec fn lowercased(s: Seq<char>) -> Seq<char> {
    if is_ascii_text(s) {
        ascii_lowercase(s)
    } else {
        lowercase(s)
    }
}

/// `str::to_lowercase`: the result is `lowercase` of the argument's characters. Of
/// an all-ASCII string its documentation says what that is: each capital letter
/// `A`..`Z` becomes `a`..`z` and every other character stays, one for one. Nothing
/// is claimed of the mapping of other characters.
#[verifier::external_body]
pub(crate) fn to_lowercase(s: &str) -> (r: String)
    ensures
        r@ == lowercase(s@),
        is_ascii_text(s@) ==> r@ == ascii_lowercase(s@),
{
    s.to_lowercase()
}

// ---------------------------------------------------------------------------
// Decimal numbers
// ---------------------------------------------------------------------------

/// The character of the decimal digit `d`.
pub open spec fn digit_char(d: nat) -> char {
    (d + 48) as char
}

/// Whether `c` is one of `'0'..='9'`.
pub open spec fn is_digit(c: char) -> bool {
    48 <= (c as u32) <= 57
}

/// The value of a digit character.
pub open spec fn digit_value(c: char) -> nat {
    ((c as u32) - 48) as nat
}

/// The decimal notation of `n`, without leading zeros (`u64::to_string`).
pub open spec fn decimal(n: nat) -> Seq<char>
    decreases n,
{
    if n < 10 {
        seq![digit_char(n)]
    } else {
        decimal(n / 10).push(digit_char(n % 10))
    }
}

/// The value of a string of digits.
pub open spec fn digits_value(s: Seq<char>) -> nat
    decreases s.len(),
{
    if s.len() == 0 {
        0
    } else {
        digits_value(s.drop_last()) * 10 + digit_value(s.last())
    }
}

/// What `str::parse::<u64>` accepts: an optional `'+'`, then at least one digit,
/// and a value that fits in a `u64`.
pub open spec fn parse_u64_spec(s: Seq<char>) -> Option<u64> {
    let d = unsigned_digits(s);
    if d.len() > 0 && all_digits(d) && digits_value(d) <= u64::MAX {
        Some(digits_value(d) as u64)
    } else {
        None
    }
}

/// `s` without one leading `'+'`.
pub open spec fn unsigned_digits(s: Seq<char>) -> Seq<char> {
    if s.len() > 0 && s[0] == '+' {
        s.skip(1)
    } else {
        s
    }
}

/// Every character of `s` is a digit.
pub open spec fn all_digits(s: Seq<char>) -> bool {
    forall|i: int| 0 <= i < s.len() ==> is_digit(#[trigger] s[i])
}

/// The character of a digit below ten.
fn digit_to_char(d: u64) -> (c: char)
    requires
        d < 10,
    ensures
        c == digit_char(d as nat),
{
    let b: u8 = d as u8 + 48;
    b as char
}

/// The decimal notation of `n`.
pub fn u64_to_decimal(n: u64) -> (r: String)
    ensures
        r@ == decimal(n as nat),
    decreases n,
{
    if n < 10 {
        let mut r = String::new();
        push_char(&mut r, digit_to_char(n));
        assert(r@ =~= decimal(n as nat));
        r
    } else {
        let mut r = u64_to_decimal(n / 10);
        push_char(&mut r, digit_to_char(n % 10));
        r
    }
}

proof fn lemma_digits_value_prefix(s: Seq<char>, k: int)
    requires
        0 <= k <= s.len(),
    ensures
        digits_value(s.take(k)) <= digits_value(s),
    decreases s.len() - k,
{
    if k < s.len() {
        lemma_digits_value_prefix(s, k + 1);
        assert(s.take(k + 1).drop_last() =~= s.take(k));
    } else {
        assert(s.take(k) =~= s);
    }
}

/// `s` read as a `u64`, or `None` where `str::parse::<u64>` fails.
pub fn parse_u64(s: &str) -> (r: Option<u64>)
    ensures
        r == parse_u64_spec(s@),
{
    let cs = chars_of(s);
    let start: usize = if cs.len() > 0 && cs[0] == '+' {
        1
    } else {
        0
    };
    let ghost d = unsigned_digits(s@);
    assert(d =~= cs@.skip(start as int));
    if start >= cs.len() {
        return None;
    }
    let mut i: usize = start;
    while i < cs.len()
        invariant
            cs@ == s@,
            d == cs@.skip(start as int),
            d == unsigned_digits(s@),
            start <= i <= cs.len(),
            forall|k: int| 0 <= k < i - start ==> is_digit(#[trigger] d[k]),
        decreases cs.len() - i,
    {
        let u = cs[i] as u32;
        if !(48 <= u && u <= 57) {
            assert(!is_digit(d[i - start]));
            assert(!all_digits(d));
            return None;
        }
        i = i + 1;
    }
    let mut acc: u64 = 0;
    let mut i: usize = start;
    assert(d.take(0) =~= Seq::<char>::empty());
    while i < cs.len()
        invariant
            cs@ == s@,
            d == cs@.skip(start as int),
            d == unsigned_digits(s@),
            start <= i <= cs.len(),
            forall|k: int| 0 <= k < d.len() ==> is_digit(#[trigger] d[k]),
            acc as nat == digits_value(d.take(i - start)),
        decreases cs.len() - i,
    {
        assert(is_digit(d[i - start]));
        assert(d[i - start] == cs@[i as int]);
        let dv: u64 = (cs[i] as u32 - 48) as u64;
        assert(d.take(i - start + 1).drop_last() =~= d.take(i - start));
        assert(d.take(i - start + 1).last() == cs@[i as int]);
        match acc.checked_mul(10) {
            Some(m) => match m.checked_add(dv) {
                Some(v) => {
                    acc = v;
                },
                None => {
                    proof {
                        lemma_digits_value_prefix(d, i - start + 1);
                        assert(digits_value(d) > u64::MAX);
                    }
                    return None;
                },
            },
            None => {
                proof {
                    lemma_digits_value_prefix(d, i - start + 1);
                    assert(digits_value(d) > u64::MAX);
                }
                return None;
            },
        }
        i = i + 1;
    }
    assert(d.take(i - start) =~= d);
    Some(acc)
}

// ---------------------------------------------------------------------------
// Ordering of strings
// ---------------------------------------------------------------------------

/// `a` comes strictly before `b` in lexicographic order of code points, the order of
/// `String`'s `<` (UTF-8 keeps the code point order).
pub open spec fn lex_lt(a: Seq<char>, b: Seq<char>) -> bool
    decreases a.len(),
{
    if a.len() == 0 {
        b.len() > 0
    } else if b.len() == 0 {
        false
    } else if a[0] != b[0] {
        (a[0] as u32) < (b[0] as u32)
    } else {
        lex_lt(a.skip(1), b.skip(1))
    }
}

pub proof fn lemma_lex_lt_irreflexive(a: Seq<char>)
    ensures
        !lex_lt(a, a),
    decreases a.len(),
{
    if a.len() > 0 {
        lemma_lex_lt_irreflexive(a.skip(1));
    }
}

pub proof fn lemma_lex_lt_transitive(a: Seq<char>, b: Seq<char>, c: Seq<char>)
    requires
        lex_lt(a, b),
        lex_lt(b, c),
    ensures
        lex_lt(a, c),
    decreases a.len(),
{
    if a.len() > 0 && b.len() > 0 && c.len() > 0 {
        if a[0] == b[0] && b[0] == c[0] {
            lemma_lex_lt_transitive(a.skip(1), b.skip(1), c.skip(1));
        }
    }
}

pub proof fn lemma_lex_lt_total(a: Seq<char>, b: Seq<char>)
    requires
        a != b,
    ensures
        lex_lt(a, b) || lex_lt(b, a),
    decreases a.len(),
{
    if a.len() > 0 && b.len() > 0 && a[0] == b[0] {
        if a.skip(1) == b.skip(1) {
            assert(a =~= seq![a[0]] + a.skip(1));
            assert(b =~= seq![b[0]] + b.skip(1));
        }
        lemma_lex_lt_total(a.skip(1), b.skip(1));
    } else if a.len() == 0 && b.len() == 0 {
        assert(a =~= b);
    } else if a.len() > 0 && b.len() > 0 {
        vstd::utf8::char_u32_cast(a[0], a[0] as u32);
        vstd::utf8::char_u32_cast(b[0], b[0] as u32);
    }
}

/// Whether `a` comes strictly before `b`.
pub fn lex_less(a: &Vec<char>, b: &Vec<char>) -> (r: bool)
    ensures
        r == lex_lt(a@, b@),
{
    let mut i: usize = 0;
    assert(a@.skip(0) =~= a@);
    assert(b@.skip(0) =~= b@);
    while i < a.len() && i < b.len() && a[i] == b[i]
        invariant
            i <= a.len(),
            i <= b.len(),
            lex_lt(a@.skip(i as int), b@.skip(i as int)) == lex_lt(a@, b@),
        decreases a.len() - i,
    {
        assert(a@.skip(i as int).skip(1) =~= a@.skip(i + 1));
        assert(b@.skip(i as int).skip(1) =~= b@.skip(i + 1));
        i = i + 1;
    }
    if i == a.len() {
        i < b.len()
    } else if i == b.len() {
        false
    } else {
        (a[i] as u32) < (b[i] as u32)
    }
}

/// `s` is in strictly increasing lexicographic order.
pub open spec fn strictly_sorted(s: Seq<Seq<char>>) -> bool {
    forall|i: int, j: int| 0 <= i < j < s.len() ==> lex_lt(#[trigger] s[i], #[trigger] s[j])
}

/// `a` and `b` hold the same strings, each once.
pub open spec fn same_elements(a: Seq<Seq<char>>, b: Seq<Seq<char>>) -> bool {
    &&& a.len() == b.len()
    &&& forall|x: Seq<char>| a.contains(x) <==> b.contains(x)
}

/// Two strictly sorted sequences that hold the same strings are equal.
pub proof fn lemma_strictly_sorted_unique(a: Seq<Seq<char>>, b: Seq<Seq<char>>)
    requires
        strictly_sorted(a),
        strictly_sorted(b),
        forall|x: Seq<char>| a.contains(x) <==> b.contains(x),
    ensures
        a == b,
{
    lemma_strictly_sorted_prefix(a, b, a.len() as int);
    if b.len() > a.len() {
        assert(b.contains(b[a.len() as int]));
        let k = choose|k: int| 0 <= k < a.len() && a[k] == b[a.len() as int];
        assert(b[k] == a[k]);
        lemma_lex_lt_irreflexive(b[k]);
    }
    assert(a =~= b);
}

proof fn lemma_strictly_sorted_prefix(a: Seq<Seq<char>>, b: Seq<Seq<char>>, n: int)
    requires
        strictly_sorted(a),
        strictly_sorted(b),
        forall|x: Seq<char>| a.contains(x) <==> b.contains(x),
        0 <= n <= a.len(),
    ensures
        n <= b.len(),
        forall|i: int| 0 <= i < n ==> a[i] == b[i],
    decreases n,
{
    if n > 0 {
        lemma_strictly_sorted_prefix(a, b, n - 1);
        let i = n - 1;
        assert(a.contains(a[i]));
        let j = choose|j: int| 0 <= j < b.len() && b[j] == a[i];
        if j < i {
            assert(a[j] == b[j]);
            lemma_lex_lt_irreflexive(a[j]);
        }
        assert(i < b.len());
        if a[i] != b[i] {
            assert(b.contains(b[i]));
            let k = choose|k: int| 0 <= k < a.len() && a[k] == b[i];
            if k < i {
                assert(a[k] == b[k]);
                lemma_lex_lt_irreflexive(b[k]);
            }
            assert(lex_lt(b[i], b[j]));
            assert(lex_lt(a[i], a[k]));
            lemma_lex_lt_transitive(a[i], b[i], a[i]);
            lemma_lex_lt_irreflexive(a[i]);
        }
    }
}

/// The strings of `v` in increasing order (what `Vec<String>::sort` gives when no
/// string occurs twice).
pub fn sort_strings(v: Vec<String>) -> (r: Vec<String>)
    requires
        v.deep_view().no_duplicates(),
    ensures
        same_elements(r.deep_view(), v.deep_view()),
        strictly_sorted(r.deep_view()),
{
    let mut out: Vec<String> = Vec::new();
    let mut keys: Vec<Vec<char>> = Vec::new();
    let mut i: usize = 0;
    while i < v.len()
        invariant
            i <= v.len(),
            v.deep_view().no_duplicates(),
            out.len() == keys.len() == i,
            forall|k: int| 0 <= k < i ==> #[trigger] keys@[k]@ == out.deep_view()[k],
            same_elements(out.deep_view(), v.deep_view().take(i as int)),
            strictly_sorted(out.deep_view()),
        decreases v.len() - i,
    {
        let x = chars_of(v[i].as_str());
        let ghost xs = v.deep_view()[i as int];
        assert(x@ == xs);
        let mut p: usize = 0;
        while p < keys.len() && !lex_less(&x, &keys[p])
            invariant
                p <= keys.len() == out.len(),
                forall|k: int| 0 <= k < keys.len() ==> #[trigger] keys@[k]@ == out.deep_view()[k],
                forall|k: int| 0 <= k < p ==> !lex_lt(x@, #[trigger] out.deep_view()[k]),
            decreases keys.len() - p,
        {
            p = p + 1;
        }
        let ghost before = out.deep_view();
        proof {
            assert(!before.contains(xs)) by {
                if before.contains(xs) {
                    let k = choose|k: int| 0 <= k < before.len() && before[k] == xs;
                    assert(v.deep_view().take(i as int).contains(xs));
                    let vt = v.deep_view().take(i as int);
                    let m = choose|m: int| 0 <= m < vt.len() && #[trigger] vt[m] == xs;
                    assert(v.deep_view()[m] == v.deep_view()[i as int]);
                }
            }
            assert forall|k: int| 0 <= k < p implies lex_lt(#[trigger] before[k], xs) by {
                assert(before[k] != xs);
                lemma_lex_lt_total(before[k], xs);
            }
            assert forall|k: int| p <= k < before.len() implies lex_lt(xs, #[trigger] before[k]) by {
                if k > p {
                    lemma_lex_lt_transitive(xs, before[p as int], before[k]);
                }
            }
        }
        out.insert(p, v[i].clone());
        keys.insert(p, x);
        proof {
            let after = out.deep_view();
            assert(after =~= before.insert(p as int, xs));
            before.insert_ensures(p as int, xs);
            assert forall|k: int| 0 <= k < keys.len() implies #[trigger] keys@[k]@ == out.deep_view()[k] by {
                if k < p {
                } else if k == p {
                } else {
                }
            }
            assert(v.deep_view().take(i + 1) =~= v.deep_view().take(i as int).push(xs));
            assert forall|y: Seq<char>| after.contains(y) <==> v.deep_view().take(i + 1).contains(y) by {
                let vt1 = v.deep_view().take(i + 1);
                if after.contains(y) {
                    let k = choose|k: int| 0 <= k < after.len() && after[k] == y;
                    if k == p {
                        assert(vt1[i as int] == y);
                    } else {
                        if k < p {
                            assert(before[k] == y);
                        } else {
                            assert(before[k - 1] == y);
                        }
                        assert(before.contains(y));
                        let vt = v.deep_view().take(i as int);
                        assert(vt.contains(y));
                        let m = choose|m: int| 0 <= m < vt.len() && #[trigger] vt[m] == y;
                        assert(vt1[m] == y);
                    }
                }
                if v.deep_view().take(i + 1).contains(y) {
                    if y == xs {
                        assert(after[p as int] == y);
                    } else {
                        assert(v.deep_view().take(i as int).contains(y)) by {
                            let vt = v.deep_view().take(i + 1);
                            let m = choose|m: int| 0 <= m < vt.len() && #[trigger] vt[m] == y;
                            assert(m < i);
                            assert(v.deep_view().take(i as int)[m] == y);
                        }
                        assert(before.contains(y));
                        let k = choose|k: int| 0 <= k < before.len() && before[k] == y;
                        if k < p {
                            assert(after[k] == y);
                        } else {
                            assert(after[k + 1] == y);
                        }
                    }
                }
            }
            assert forall|a: int, b: int| 0 <= a < b < after.len() implies lex_lt(#[trigger] after[a], #[trigger] after[b]) by {
                if b < p {
                } else if b == p {
                } else if a < p {
                    assert(after[b] == before[b - 1]);
                    assert(lex_lt(before[a], xs));
                    assert(lex_lt(xs, before[b - 1]));
                    lemma_lex_lt_transitive(before[a], xs, before[b - 1]);
                } else if a == p {
                    assert(after[b] == before[b - 1]);
                } else {
                    assert(after[a] == before[a - 1]);
                    assert(after[b] == before[b - 1]);
                }
            }
        }
        i = i + 1;
    }
    assert(v.deep_view().take(i as int) =~= v.deep_view());
    out
}

// ---------------------------------------------------------------------------
// Splitting what was joined
// ---------------------------------------------------------------------------

/// `c` does not occur in `s`.
pub open spec fn lacks(s: Seq<char>, c: char) -> bool {
    forall|i: int| 0 <= i < s.len() ==> #[trigger] s[i] != c
}

/// Appending text without separators extends the last piece.
pub proof fn lemma_split_on_append(x: Seq<char>, y: Seq<char>, sep: char)
    requires
        lacks(y, sep),
    ensures
        split_on(x + y, sep) == split_on(x, sep).update(
            split_on(x, sep).len() - 1,
            split_on(x, sep).last() + y,
        ),
    decreases y.len(),
{
    lemma_split_on_nonempty(x, sep);
    if y.len() == 0 {
        assert(x + y =~= x);
        assert(split_on(x, sep).last() + y =~= split_on(x, sep).last());
        assert(split_on(x, sep).update(split_on(x, sep).len() - 1, split_on(x, sep).last())
            =~= split_on(x, sep));
    } else {
        let y1 = y.drop_last();
        lemma_split_on_append(x, y1, sep);
        assert((x + y).drop_last() =~= x + y1);
        assert((x + y).last() == y.last());
        let p = split_on(x, sep);
        assert(split_on(x + y1, sep).last() == p.last() + y1);
        assert((p.last() + y1).push(y.last()) =~= p.last() + y);
        assert(split_on(x + y, sep) =~= p.update(p.len() - 1, p.last() + y));
    }
}

/// Cutting a concatenation: the pieces of `x`, the last of them joined with the
/// first piece of `y`, then the other pieces of `y`.
pub proof fn lemma_split_on_concat(x: Seq<char>, y: Seq<char>, sep: char)
    ensures
        split_on(x + y, sep) == split_on(x, sep).drop_last() + seq![
            split_on(x, sep).last() + split_on(y, sep)[0],
        ] + split_on(y, sep).skip(1),
    decreases y.len(),
{
    lemma_split_on_nonempty(x, sep);
    lemma_split_on_nonempty(y, sep);
    let p = split_on(x, sep);
    if y.len() == 0 {
        assert(x + y =~= x);
        assert(p.last() + split_on(y, sep)[0] =~= p.last());
        assert(p.drop_last() + seq![p.last()] + split_on(y, sep).skip(1) =~= p);
    } else {
        let y1 = y.drop_last();
        let c = y.last();
        lemma_split_on_concat(x, y1, sep);
        lemma_split_on_nonempty(y1, sep);
        assert((x + y).drop_last() =~= x + y1);
        assert((x + y).last() == c);
        let q1 = split_on(y1, sep);
        let s1 = split_on(x + y1, sep);
        if c == sep {
            assert(split_on(y, sep) == q1.push(Seq::<char>::empty()));
            assert(split_on(y, sep)[0] == q1[0]);
            assert(split_on(y, sep).skip(1) =~= q1.skip(1).push(Seq::<char>::empty()));
            assert(split_on(x + y, sep) =~= p.drop_last() + seq![p.last() + split_on(y, sep)[0]]
                + split_on(y, sep).skip(1));
        } else {
            let q = split_on(y, sep);
            assert(q == q1.update(q1.len() - 1, q1.last().push(c)));
            if q1.len() == 1 {
                assert(q[0] == q1[0].push(c));
                assert(q.skip(1) =~= Seq::<Seq<char>>::empty());
                assert(q1.skip(1) =~= Seq::<Seq<char>>::empty());
                assert((p.last() + q1[0]).push(c) =~= p.last() + q[0]);
            } else {
                assert(q[0] == q1[0]);
                assert(q.skip(1) =~= q1.skip(1).update(q1.len() - 2, q1.last().push(c)));
            }
            assert(split_on(x + y, sep) =~= p.drop_last() + seq![p.last() + q[0]] + q.skip(1));
        }
    }
}

/// An empty line put after a text that is empty or ends in a newline adds one empty
/// line to its lines and changes nothing else: with `front` the lines of `a`, the
/// lines of `a`, a newline, then `b` are `front`, an empty line and the lines of `b`;
/// those of `a` then `b` are `front` and the lines of `b`.
pub proof fn lemma_lines_of_blank_line(a: Seq<char>, b: Seq<char>)
    requires
        a.len() == 0 || a.last() == '\n',
    ensures
        ({
            let front = split_on(a, '\n').drop_last().map_values(|l: Seq<char>| strip_cr(l));
            &&& lines_of(a + seq!['\n'] + b) == front.push(Seq::<char>::empty()) + lines_of(b)
            &&& lines_of(a + b) == front + lines_of(b)
        }),
{
    let p = split_on(a, '\n');
    let q = split_on(b, '\n');
    lemma_split_on_nonempty(a, '\n');
    lemma_split_on_nonempty(b, '\n');
    assert(p.last().len() == 0);
    let a2 = a + seq!['\n'];
    assert(a2.drop_last() =~= a);
    assert(split_on(a2, '\n') == p.push(Seq::<char>::empty()));
    lemma_split_on_concat(a, b, '\n');
    lemma_split_on_concat(a2, b, '\n');
    assert(p.last() + q[0] =~= q[0]);
    assert(Seq::<char>::empty() + q[0] =~= q[0]);
    let s_ab = split_on(a + b, '\n');
    let s_a2b = split_on(a2 + b, '\n');
    assert(s_ab =~= p.drop_last() + q);
    assert(s_a2b =~= p + q);
    let front = p.drop_last().map_values(|l: Seq<char>| strip_cr(l));
    let back = q.drop_last().map_values(|l: Seq<char>| strip_cr(l));
    assert(s_ab.drop_last().map_values(|l: Seq<char>| strip_cr(l)) =~= front + back);
    assert(strip_cr(Seq::<char>::empty()) =~= Seq::<char>::empty());
    assert(s_a2b.drop_last().map_values(|l: Seq<char>| strip_cr(l)) =~= front.push(
        Seq::<char>::empty(),
    ) + back);
    assert(s_ab.last() == q.last());
    assert(s_a2b.last() == q.last());
    if q.last().len() == 0 {
        assert(lines_of(b) == back);
    } else {
        assert(lines_of(b) == back.push(q.last()));
        assert((front + back).push(q.last()) =~= front + back.push(q.last()));
        assert((front.push(Seq::<char>::empty()) + back).push(q.last()) =~= front.push(
            Seq::<char>::empty(),
        ) + back.push(q.last()));
    }
    assert(a + seq!['\n'] + b =~= a2 + b);
}

/// Cutting a joined sequence at the separator gives back the parts.
pub proof fn lemma_split_on_join(parts: Seq<Seq<char>>, sep: char)
    requires
        parts.len() >= 1,
        forall|i: int| 0 <= i < parts.len() ==> lacks(#[trigger] parts[i], sep),
    ensures
        split_on(join(parts, seq![sep]), sep) == parts,
    decreases parts.len(),
{
    if parts.len() == 1 {
        lemma_split_on_append(Seq::<char>::empty(), parts[0], sep);
        assert(Seq::<char>::empty() + parts[0] =~= parts[0]);
        assert(Seq::<char>::empty() + parts[0] =~= parts[0]);
        assert(split_on(join(parts, seq![sep]), sep) =~= parts);
    } else {
        let front = parts.drop_last();
        lemma_split_on_join(front, sep);
        let j = join(front, seq![sep]);
        assert(j + seq![sep] =~= j.push(sep));
        assert((j.push(sep)).drop_last() =~= j);
        assert(split_on(j.push(sep), sep) == split_on(j, sep).push(Seq::<char>::empty()));
        assert(lacks(parts.last(), sep));
        lemma_split_on_append(j.push(sep), parts.last(), sep);
        assert(join(parts, seq![sep]) =~= j.push(sep) + parts.last());
        assert(Seq::<char>::empty() + parts.last() =~= parts.last());
        assert(split_on(join(parts, seq![sep]), sep) =~= parts);
    }
}

/// The lines of text joined by newlines are the lines themselves, when none is empty,
/// holds a newline or ends with a carriage return.
pub proof fn lemma_lines_of_join(ls: Seq<Seq<char>>)
    requires
        forall|i: int|
            0 <= i < ls.len() ==> lacks(#[trigger] ls[i], '\n') && ls[i].len() > 0
                && ls[i].last() != '\r',
    ensures
        lines_of(join(ls, seq!['\n'])) == ls,
{
    if ls.len() == 0 {
        assert(join(ls, seq!['\n']) =~= Seq::<char>::empty());
        assert(lines_of(join(ls, seq!['\n'])) =~= ls);
    } else {
        lemma_split_on_join(ls, '\n');
        let body = ls.drop_last().map_values(|l: Seq<char>| strip_cr(l));
        assert(body =~= ls.drop_last());
        assert(lines_of(join(ls, seq!['\n'])) =~= ls);
    }
}

/// The digits of `n` read back as `n`.
pub proof fn lemma_parse_decimal(n: u64)
    ensures
        parse_u64_spec(decimal(n as nat)) == Some(n),
{
    lemma_decimal_value(n as nat);
    let d = decimal(n as nat);
    assert(unsigned_digits(d) == d);
}

proof fn lemma_decimal_value(n: nat)
    ensures
        decimal(n).len() > 0,
        all_digits(decimal(n)),
        is_digit(decimal(n)[0]),
        digits_value(decimal(n)) == n,
    decreases n,
{
    if n >= 10 {
        lemma_decimal_value(n / 10);
        let d = decimal(n);
        assert(d.drop_last() =~= decimal(n / 10));
        let m = (n % 10) as int;
        assert(((m + 48) as char) as u32 == m + 48);
        assert(d.last() == digit_char(n % 10));
        assert(digit_value(d.last()) == n % 10);
        assert(digits_value(d) == digits_value(decimal(n / 10)) * 10 + n % 10);
        assert((n / 10) * 10 + n % 10 == n);
        assert(digits_value(decimal(n)) == n);
        assert forall|i: int| 0 <= i < d.len() implies is_digit(#[trigger] d[i]) by {
            if i < d.len() - 1 {
                assert(d[i] == decimal(n / 10)[i]);
            }
        }
    } else {
        assert(seq![digit_char(n)].drop_last() =~= Seq::<char>::empty());
        assert(((n + 48) as char) as u32 == n + 48);
        assert(digit_value(digit_char(n)) == n);
        assert(digits_value(Seq::<char>::empty()) == 0);
        assert(digits_value(seq![digit_char(n)]) == n);
    }
}

/// Law: every word of a text is non-empty and holds no whitespace.
pub proof fn lemma_words_are_words(s: Seq<char>)
    ensures
        forall|i: int|
            0 <= i < words(s).len() ==> (#[trigger] words(s)[i]).len() > 0 && forall|j: int|
                0 <= j < words(s)[i].len() ==> !is_ws(#[trigger] words(s)[i][j]),
    decreases s.len(),
{
    if s.len() > 0 {
        lemma_words_are_words(s.drop_last());
        let prev = words(s.drop_last());
        let c = s.last();
        if !is_ws(c) && s.len() >= 2 && !is_ws(s[s.len() - 2]) {
            assert(prev.len() > 0) by {
                lemma_words_end_in_word(s.drop_last());
            }
            let w = words(s);
            assert forall|i: int| 0 <= i < w.len() implies (#[trigger] w[i]).len() > 0 && forall|j: int|
                0 <= j < w[i].len() ==> !is_ws(#[trigger] w[i][j]) by {
                if i == w.len() - 1 {
                    assert(w[i] == prev.last().push(c));
                    assert forall|j: int| 0 <= j < w[i].len() implies !is_ws(#[trigger] w[i][j]) by {
                        if j < prev.last().len() {
                            assert(w[i][j] == prev[prev.len() - 1][j]);
                        }
                    }
                }
            }
        } else if !is_ws(c) {
            let w = words(s);
            assert forall|i: int| 0 <= i < w.len() implies (#[trigger] w[i]).len() > 0 && forall|j: int|
                0 <= j < w[i].len() ==> !is_ws(#[trigger] w[i][j]) by {
                if i == w.len() - 1 {
                    assert(w[i] == seq![c]);
                }
            }
        }
    }
}

proof fn lemma_words_end_in_word(s: Seq<char>)
    requires
        s.len() > 0,
        !is_ws(s.last()),
    ensures
        words(s).len() > 0,
    decreases s.len(),
{
    if s.len() >= 2 && !is_ws(s[s.len() - 2]) {
        assert(s.drop_last().last() == s[s.len() - 2]);
        lemma_words_end_in_word(s.drop_last());
    }
}

/// No piece of a split holds the separator.
pub proof fn lemma_split_on_pieces_lack(s: Seq<char>, sep: char)
    ensures
        forall|i: int| 0 <= i < split_on(s, sep).len() ==> lacks(#[trigger] split_on(s, sep)[i], sep),
    decreases s.len(),
{
    lemma_split_on_nonempty(s, sep);
    if s.len() > 0 {
        lemma_split_on_pieces_lack(s.drop_last(), sep);
        lemma_split_on_nonempty(s.drop_last(), sep);
        let prev = split_on(s.drop_last(), sep);
        let cur = split_on(s, sep);
        assert forall|i: int| 0 <= i < cur.len() implies lacks(#[trigger] cur[i], sep) by {
            if s.last() != sep && i == cur.len() - 1 {
                assert(cur[i] == prev.last().push(s.last()));
                assert(lacks(prev[prev.len() - 1], sep));
                assert forall|j: int| 0 <= j < cur[i].len() implies #[trigger] cur[i][j] != sep by {
                    if j < prev.last().len() {
                        assert(cur[i][j] == prev[prev.len() - 1][j]);
                    }
                }
            } else if i < prev.len() {
                assert(cur[i] == prev[i]);
            }
        }
    }
}

} // verus!
