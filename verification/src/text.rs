//! Text, as sequences of characters.

use vstd::prelude::*;
use vstd::string::*;

verus! {

/// A character of the Unicode property `White_Space`.
pub open spec fn is_space(c: char) -> bool {
    ||| '\u{9}' <= c <= '\u{d}'
    ||| c == ' '
    ||| c == '\u{85}'
    ||| c == '\u{a0}'
    ||| c == '\u{1680}'
    ||| '\u{2000}' <= c <= '\u{200a}'
    ||| c == '\u{2028}'
    ||| c == '\u{2029}'
    ||| c == '\u{202f}'
    ||| c == '\u{205f}'
    ||| c == '\u{3000}'
}

/// A single or a double quotation mark.
pub open spec fn is_quote(c: char) -> bool {
    c == '"' || c == '\''
}

/// What is left of `s` without the characters of a kind at its start.
pub open spec fn without_leading(s: Seq<char>, kind: spec_fn(char) -> bool) -> Seq<char>
    decreases s.len(),
{
    if s.len() > 0 && kind(s[0]) {
        without_leading(s.drop_first(), kind)
    } else {
        s
    }
}

/// What is left of `s` without the characters of a kind at its end.
pub open spec fn without_trailing(s: Seq<char>, kind: spec_fn(char) -> bool) -> Seq<char>
    decreases s.len(),
{
    if s.len() > 0 && kind(s.last()) {
        without_trailing(s.drop_last(), kind)
    } else {
        s
    }
}

/// `s` without white space at its ends.
pub open spec fn trimmed(s: Seq<char>) -> Seq<char> {
    let kind = |c: char| is_space(c);
    without_trailing(without_leading(s, kind), kind)
}

/// `s` without quotation marks at its ends.
pub open spec fn unquoted(s: Seq<char>) -> Seq<char> {
    let kind = |c: char| is_quote(c);
    without_trailing(without_leading(s, kind), kind)
}

/// `part` occurs somewhere in `s`.
pub open spec fn occurs_in(part: Seq<char>, s: Seq<char>) -> bool {
    exists|i: int|
        0 <= i <= s.len() - part.len() && #[trigger] s.subrange(i, i + part.len()) == part
}

/// Order of a dictionary: by the first character in which the two differ; a beginning
/// comes before what it begins.
pub open spec fn text_le(a: Seq<char>, b: Seq<char>) -> bool
    decreases a.len(),
{
    if a.len() == 0 {
        true
    } else if b.len() == 0 {
        false
    } else if a[0] == b[0] {
        text_le(a.drop_first(), b.drop_first())
    } else {
        a[0] < b[0]
    }
}

/// The view of an optional text.
pub open spec fn opt_text(o: Option<String>) -> Option<Seq<char>> {
    match o {
        Some(s) => Some(s@),
        None => None,
    }
}

/// Whether a character is white space.
fn space(c: char) -> (r: bool)
    ensures
        r == is_space(c),
{
    ('\u{9}' <= c && c <= '\u{d}') || c == ' ' || c == '\u{85}' || c == '\u{a0}' || c == '\u{1680}'
        || ('\u{2000}' <= c && c <= '\u{200a}') || c == '\u{2028}' || c == '\u{2029}' || c
        == '\u{202f}' || c == '\u{205f}' || c == '\u{3000}'
}

/// The characters of a text.
pub fn chars_of(s: &str) -> (r: Vec<char>)
    ensures
        r@ == s@,
{
    let mut out: Vec<char> = Vec::new();
    for c in it: s.chars()
        invariant
            out@ == it.seq().take(it.index()),
            it.seq() == s@,
    {
        out.push(c);
    }
    out
}

/// `s` without the characters at its ends on which `test` holds.
fn strip_ends<K: Fn(char) -> bool>(s: &str, test: K, Ghost(kind): Ghost<
    spec_fn(char) -> bool,
>) -> (r: String)
    requires
        forall|c: char| call_requires(test, (c,)),
        forall|c: char, b: bool| call_ensures(test, (c,), b) ==> b == kind(c),
    ensures
        r@ == without_trailing(without_leading(s@, kind), kind),
{
    let chars = chars_of(s);
    let n: usize = chars.len();
    let mut from: usize = 0;
    assert(s@.skip(0) =~= s@);
    while from < n && test(chars[from])
        invariant
            from <= n,
            n == chars@.len(),
            chars@ == s@,
            forall|c: char| call_requires(test, (c,)),
            forall|c: char, b: bool| call_ensures(test, (c,), b) ==> b == kind(c),
            without_leading(s@, kind) == without_leading(s@.skip(from as int), kind),
        ensures
            from <= n,
            from < n ==> !kind(s@[from as int]),
            without_leading(s@, kind) == without_leading(s@.skip(from as int), kind),
        decreases n - from,
    {
        assert(s@.skip(from as int).drop_first() =~= s@.skip(from + 1));
        from = from + 1;
    }
    let ghost rest = s@.skip(from as int);
    assert(without_leading(s@, kind) == rest);
    let mut to: usize = n;
    assert(rest =~= s@.subrange(from as int, to as int));
    while to > from && test(chars[to - 1])
        invariant
            from <= to <= n,
            n == chars@.len(),
            chars@ == s@,
            forall|c: char| call_requires(test, (c,)),
            forall|c: char, b: bool| call_ensures(test, (c,), b) ==> b == kind(c),
            without_trailing(rest, kind) == without_trailing(
                s@.subrange(from as int, to as int),
                kind,
            ),
        ensures
            from <= to <= n,
            to > from ==> !kind(s@[to - 1]),
            without_trailing(rest, kind) == without_trailing(
                s@.subrange(from as int, to as int),
                kind,
            ),
        decreases to - from,
    {
        assert(s@.subrange(from as int, to as int).drop_last() =~= s@.subrange(
            from as int,
            to - 1,
        ));
        to = to - 1;
    }
    s.substring_char(from, to).to_owned()
}

/// `s` without white space at its ends.
pub fn trim(s: &str) -> (r: String)
    ensures
        r@ == trimmed(s@),
{
    let test = |c: char| -> (b: bool)
        ensures
            b == is_space(c),
        { space(c) };
    strip_ends(s, test, Ghost(|c: char| is_space(c)))
}

/// `s` without quotation marks at its ends.
pub fn unquote(s: &str) -> (r: String)
    ensures
        r@ == unquoted(s@),
{
    let test = |c: char| -> (b: bool)
        ensures
            b == is_quote(c),
        { c == '"' || c == '\'' };
    strip_ends(s, test, Ghost(|c: char| is_quote(c)))
}

/// `s` without slashes at its start.
pub open spec fn without_slashes(s: Seq<char>) -> Seq<char> {
    without_leading(s, |c: char| c == '/')
}

/// `s` without slashes at its start.
pub fn trim_slashes(s: &str) -> (r: String)
    ensures
        r@ == without_slashes(s@),
{
    let chars = chars_of(s);
    let n: usize = chars.len();
    let mut from: usize = 0;
    assert(s@.skip(0) =~= s@);
    while from < n && chars[from] == '/'
        invariant
            from <= n,
            n == chars@.len(),
            chars@ == s@,
            without_slashes(s@) == without_slashes(s@.skip(from as int)),
        decreases n - from,
    {
        assert(s@.skip(from as int).drop_first() =~= s@.skip(from + 1));
        from = from + 1;
    }
    assert(s@.skip(from as int) =~= s@.subrange(from as int, n as int));
    s.substring_char(from, n).to_owned()
}

/// Whether `part` stands in `chars` from position `at` on.
fn stands_at(chars: &Vec<char>, part: &Vec<char>, at: usize) -> (r: bool)
    requires
        at + part@.len() <= chars@.len(),
    ensures
        r == (chars@.subrange(at as int, at + part@.len()) == part@),
{
    let n: usize = part.len();
    let total: usize = chars.len();
    let mut i: usize = 0;
    while i < n
        invariant
            i <= n,
            n == part@.len(),
            at + n <= total,
            total == chars@.len(),
            forall|j: int| 0 <= j < i ==> chars@[at + j] == part@[j],
        decreases n - i,
    {
        if chars[at + i] != part[i] {
            assert(chars@.subrange(at as int, at + part@.len())[i as int] != part@[i as int]);
            return false;
        }
        i = i + 1;
    }
    assert(chars@.subrange(at as int, at + part@.len()) =~= part@);
    true
}

/// Whether `s` begins with `part`.
pub fn begins_with(s: &str, part: &str) -> (r: bool)
    ensures
        r == part@.is_prefix_of(s@),
{
    let chars = chars_of(s);
    let beginning = chars_of(part);
    if beginning.len() <= chars.len() {
        stands_at(&chars, &beginning, 0)
    } else {
        false
    }
}

/// What follows `part` where `s` begins with it.
pub fn after_prefix(s: &str, part: &str) -> (r: Option<String>)
    ensures
        part@.is_prefix_of(s@) ==> r is Some && r->0@ == s@.skip(part@.len() as int),
        !part@.is_prefix_of(s@) ==> r is None,
{
    if begins_with(s, part) {
        let n: usize = s.unicode_len();
        let k: usize = part.unicode_len();
        assert(s@.skip(part@.len() as int) =~= s@.subrange(k as int, n as int));
        Some(s.substring_char(k, n).to_owned())
    } else {
        None
    }
}

/// Whether `part` occurs in `s`.
pub fn contains(s: &str, part: &str) -> (r: bool)
    ensures
        r == occurs_in(part@, s@),
{
    let chars = chars_of(s);
    let wanted = chars_of(part);
    if wanted.len() > chars.len() {
        return false;
    }
    let last: usize = chars.len() - wanted.len();
    let mut at: usize = 0;
    while at <= last
        invariant
            at <= last + 1,
            last == chars@.len() - wanted@.len(),
            chars@ == s@,
            wanted@ == part@,
            forall|i: int|
                0 <= i < at ==> #[trigger] s@.subrange(i, i + part@.len()) != part@,
        decreases last + 1 - at,
    {
        if stands_at(&chars, &wanted, at) {
            return true;
        }
        if at == last {
            return false;
        }
        at = at + 1;
    }
    false
}

/// The first `n` characters of `s`, or all of them where there are fewer.
pub fn first_chars(s: &str, n: usize) -> (r: String)
    ensures
        r@ == (if s@.len() <= n {
            s@
        } else {
            s@.take(n as int)
        }),
{
    let len: usize = s.unicode_len();
    if len <= n {
        s.to_owned()
    } else {
        assert(s@.take(n as int) =~= s@.subrange(0, n as int));
        s.substring_char(0, n).to_owned()
    }
}

/// Whether `a` comes before `b` in a dictionary, or is `b`.
pub fn is_text_le(a: &str, b: &str) -> (r: bool)
    ensures
        r == text_le(a@, b@),
{
    let x = chars_of(a);
    let y = chars_of(b);
    let mut i: usize = 0;
    assert(a@.skip(0) =~= a@ && b@.skip(0) =~= b@);
    while i < x.len() && i < y.len() && x[i] == y[i]
        invariant
            i <= x@.len(),
            i <= y@.len(),
            x@ == a@,
            y@ == b@,
            text_le(a@, b@) == text_le(a@.skip(i as int), b@.skip(i as int)),
        decreases x.len() - i,
    {
        assert(a@.skip(i as int).drop_first() =~= a@.skip(i + 1));
        assert(b@.skip(i as int).drop_first() =~= b@.skip(i + 1));
        i = i + 1;
    }
    if i >= x.len() {
        true
    } else if i >= y.len() {
        false
    } else {
        x[i] < y[i]
    }
}

/// A dictionary's order leaves no two texts unordered.
pub proof fn lemma_text_le_total(a: Seq<char>, b: Seq<char>)
    ensures
        text_le(a, b) || text_le(b, a),
    decreases a.len(),
{
    if a.len() > 0 && b.len() > 0 && a[0] == b[0] {
        lemma_text_le_total(a.drop_first(), b.drop_first());
    }
}

/// What comes before what comes before comes before.
pub proof fn lemma_text_le_transitive(a: Seq<char>, b: Seq<char>, c: Seq<char>)
    requires
        text_le(a, b),
        text_le(b, c),
    ensures
        text_le(a, c),
    decreases a.len(),
{
    if a.len() > 0 && a[0] == b[0] && b[0] == c[0] {
        lemma_text_le_transitive(a.drop_first(), b.drop_first(), c.drop_first());
    }
}

/// Two texts that come before each other are one text.
pub proof fn lemma_text_le_antisymmetric(a: Seq<char>, b: Seq<char>)
    requires
        text_le(a, b),
        text_le(b, a),
    ensures
        a == b,
    decreases a.len(),
{
    if a.len() > 0 {
        assert(b.len() > 0);
        assert(a[0] == b[0]);
        lemma_text_le_antisymmetric(a.drop_first(), b.drop_first());
        assert(a =~= seq![a[0]] + a.drop_first());
        assert(b =~= seq![b[0]] + b.drop_first());
    } else {
        assert(b.len() == 0);
        assert(a =~= b);
    }
}

/// The lower-case form of a text.
pub uninterp spec fn lowercase(s: Seq<char>) -> Seq<char>;

/// The lower-case form of a letter without accents; any other character as it is.
pub open spec fn ascii_lowercase(c: char) -> char {
    if 'A' <= c <= 'Z' {
        (c as u8 + 32) as char
    } else {
        c
    }
}

/// A text whose letters without accents are in lower case.
pub open spec fn ascii_lowered(s: Seq<char>) -> Seq<char> {
    s.map_values(|c: char| ascii_lowercase(c))
}

/// A text in lower case: of ASCII characters letter by letter, of others by the rules of
/// Unicode.
pub open spec fn lowered(s: Seq<char>) -> Seq<char> {
    if vstd::utf8::is_ascii_chars(s) {
        ascii_lowered(s)
    } else {
        lowercase(s)
    }
}

/// `str::to_lowercase`: the lower-case form of a text by the rules of Unicode. Of a text
/// of ASCII characters the letters from A to Z are replaced, one for one.
#[verifier::external_body]
pub(crate) fn to_lowercase(s: &str) -> (r: String)
    ensures
        r@ == lowercase(s@),
        vstd::utf8::is_ascii_chars(s@) ==> r@ == ascii_lowered(s@),
{
    s.to_lowercase()
}

/// A decimal digit as a character.
pub open spec fn digit(d: nat) -> char {
    (48 + d) as char
}

/// A natural number in decimal digits, without leading zeros.
pub open spec fn decimal(n: nat) -> Seq<char>
    decreases n,
{
    if n < 10 {
        seq![digit(n)]
    } else {
        decimal(n / 10).push(digit(n % 10))
    }
}

/// An integer in decimal digits, with a sign where it is negative.
pub open spec fn signed_decimal(n: int) -> Seq<char> {
    if n < 0 {
        seq!['-'] + decimal((-n) as nat)
    } else {
        decimal(n as nat)
    }
}

/// A decimal digit as a text.
fn digit_text(d: u64) -> (r: &'static str)
    requires
        d < 10,
    ensures
        r@ == seq![digit(d as nat)],
{
    proof {
        reveal_strlit("0");
        reveal_strlit("1");
        reveal_strlit("2");
        reveal_strlit("3");
        reveal_strlit("4");
        reveal_strlit("5");
        reveal_strlit("6");
        reveal_strlit("7");
        reveal_strlit("8");
        reveal_strlit("9");
    }
    let r: &'static str = if d == 0 {
        "0"
    } else if d == 1 {
        "1"
    } else if d == 2 {
        "2"
    } else if d == 3 {
        "3"
    } else if d == 4 {
        "4"
    } else if d == 5 {
        "5"
    } else if d == 6 {
        "6"
    } else if d == 7 {
        "7"
    } else if d == 8 {
        "8"
    } else {
        "9"
    };
    assert(r@ =~= seq![digit(d as nat)]);
    r
}

/// A natural number in decimal digits.
pub fn decimal_text(n: u64) -> (r: String)
    ensures
        r@ == decimal(n as nat),
    decreases n,
{
    if n < 10 {
        digit_text(n).to_owned()
    } else {
        let mut s = decimal_text(n / 10);
        s.append(digit_text(n % 10));
        assert(decimal((n / 10) as nat) + seq![digit((n % 10) as nat)] =~= decimal(
            (n / 10) as nat,
        ).push(digit((n % 10) as nat)));
        s
    }
}

/// An integer in decimal digits.
pub fn signed_decimal_text(n: i64) -> (r: String)
    ensures
        r@ == signed_decimal(n as int),
{
    if n < 0 {
        let mut s = "-".to_owned();
        let m: u64 = (-(n as i128)) as u64;
        s.append(decimal_text(m).as_str());
        proof {
            reveal_strlit("-");
            assert("-"@ =~= seq!['-']);
        }
        s
    } else {
        decimal_text(n as u64)
    }
}

proof fn lemma_without_leading(s: Seq<char>, kind: spec_fn(char) -> bool)
    ensures
        without_leading(s, kind).len() > 0 ==> !kind(without_leading(s, kind)[0]),
    decreases s.len(),
{
    if s.len() > 0 && kind(s[0]) {
        lemma_without_leading(s.drop_first(), kind);
    }
}

proof fn lemma_without_trailing(s: Seq<char>, kind: spec_fn(char) -> bool)
    ensures
        without_trailing(s, kind).len() > 0 ==> !kind(without_trailing(s, kind).last()),
        without_trailing(s, kind).is_prefix_of(s),
    decreases s.len(),
{
    if s.len() > 0 && kind(s.last()) {
        lemma_without_trailing(s.drop_last(), kind);
        let t = without_trailing(s, kind);
        assert(t =~= s.subrange(0, t.len() as int));
    } else {
        assert(s =~= s.subrange(0, s.len() as int));
    }
}

/// A trimmed text neither begins nor ends with white space.
pub proof fn trimmed_has_no_space_at_its_ends(s: Seq<char>)
    ensures
        trimmed(s).len() > 0 ==> !is_space(trimmed(s)[0]) && !is_space(trimmed(s).last()),
{
    let kind = |c: char| is_space(c);
    lemma_without_leading(s, kind);
    lemma_without_trailing(without_leading(s, kind), kind);
}

/// An unquoted text neither begins nor ends with a quotation mark.
pub proof fn unquoted_has_no_mark_at_its_ends(s: Seq<char>)
    ensures
        unquoted(s).len() > 0 ==> !is_quote(unquoted(s)[0]) && !is_quote(unquoted(s).last()),
{
    let kind = |c: char| is_quote(c);
    lemma_without_leading(s, kind);
    lemma_without_trailing(without_leading(s, kind), kind);
}

/// White space is what Unicode calls by that name.
pub proof fn white_space_is_that_of_unicode(c: char)
    ensures
        is_space(c) <==> {
            ||| 9 <= c as int <= 13
            ||| c as int == 32
            ||| c as int == 0x85
            ||| c as int == 0xa0
            ||| c as int == 0x1680
            ||| 0x2000 <= c as int <= 0x200a
            ||| c as int == 0x2028
            ||| c as int == 0x2029
            ||| c as int == 0x202f
            ||| c as int == 0x205f
            ||| c as int == 0x3000
        },
{
}

proof fn lemma_leading_place(s: Seq<char>, kind: spec_fn(char) -> bool) -> (a: int)
    ensures
        0 <= a <= s.len(),
        without_leading(s, kind) == s.skip(a),
        forall|i: int| 0 <= i < a ==> kind(#[trigger] s[i]),
        a < s.len() ==> !kind(s[a]),
    decreases s.len(),
{
    if s.len() > 0 && kind(s[0]) {
        let rest = s.drop_first();
        let b = lemma_leading_place(rest, kind);
        assert(rest.skip(b) =~= s.skip(b + 1));
        assert forall|i: int| 0 <= i < b + 1 implies kind(#[trigger] s[i]) by {
            if i > 0 {
                assert(rest[i - 1] == s[i]);
            }
        }
        b + 1
    } else {
        assert(s.skip(0) =~= s);
        0
    }
}

proof fn lemma_trailing_place(s: Seq<char>, kind: spec_fn(char) -> bool) -> (b: int)
    ensures
        0 <= b <= s.len(),
        without_trailing(s, kind) == s.take(b),
        forall|i: int| b <= i < s.len() ==> kind(#[trigger] s[i]),
        b > 0 ==> !kind(s[b - 1]),
    decreases s.len(),
{
    if s.len() > 0 && kind(s.last()) {
        let rest = s.drop_last();
        let b = lemma_trailing_place(rest, kind);
        assert(rest.take(b) =~= s.take(b));
        assert forall|i: int| b <= i < s.len() implies kind(#[trigger] s[i]) by {
            if i < rest.len() {
                assert(rest[i] == s[i]);
            }
        }
        b
    } else {
        assert(s.take(s.len() as int) =~= s);
        s.len() as int
    }
}

proof fn lemma_stripped(s: Seq<char>, kind: spec_fn(char) -> bool) -> (r: (int, int))
    ensures
        0 <= r.0 <= r.1 <= s.len(),
        without_trailing(without_leading(s, kind), kind) == s.subrange(r.0, r.1),
        forall|i: int| 0 <= i < r.0 || r.1 <= i < s.len() ==> kind(#[trigger] s[i]),
        r.0 < r.1 ==> !kind(s[r.0]) && !kind(s[r.1 - 1]),
{
    let a = lemma_leading_place(s, kind);
    let rest = s.skip(a);
    let b = lemma_trailing_place(rest, kind);
    assert(rest.take(b) =~= s.subrange(a, a + b));
    assert forall|i: int| a + b <= i < s.len() implies kind(#[trigger] s[i]) by {
        assert(rest[i - a] == s[i]);
    }
    if b > 0 {
        assert(rest[b - 1] == s[a + b - 1]);
        assert(a < s.len());
    }
    (a, a + b)
}

/// A trimmed text is a part of the text: what is cut off at either end is white space, and
/// what is left neither begins nor ends with it.
pub proof fn trimming_takes_off_white_space(s: Seq<char>) -> (r: (int, int))
    ensures
        0 <= r.0 <= r.1 <= s.len(),
        trimmed(s) == s.subrange(r.0, r.1),
        forall|i: int| 0 <= i < r.0 || r.1 <= i < s.len() ==> is_space(#[trigger] s[i]),
        r.0 < r.1 ==> !is_space(s[r.0]) && !is_space(s[r.1 - 1]),
{
    lemma_stripped(s, |c: char| is_space(c))
}

/// An unquoted text is a part of the text: what is cut off at either end are single and
/// double quotation marks, and what is left neither begins nor ends with one.
pub proof fn unquoting_takes_off_marks(s: Seq<char>) -> (r: (int, int))
    ensures
        0 <= r.0 <= r.1 <= s.len(),
        unquoted(s) == s.subrange(r.0, r.1),
        forall|i: int|
            0 <= i < r.0 || r.1 <= i < s.len() ==> (#[trigger] s[i]) == '"' || s[i] == '\'',
        r.0 < r.1 ==> s[r.0] != '"' && s[r.0] != '\'' && s[r.1 - 1] != '"' && s[r.1 - 1] != '\'',
{
    lemma_stripped(s, |c: char| is_quote(c))
}

/// What is left without leading slashes is the end of the text from the first character on
/// that is no slash.
pub proof fn slashes_are_taken_off_the_start(s: Seq<char>) -> (k: int)
    ensures
        0 <= k <= s.len(),
        without_slashes(s) == s.skip(k),
        forall|i: int| 0 <= i < k ==> (#[trigger] s[i]) == '/',
        k < s.len() ==> s[k] != '/',
{
    lemma_leading_place(s, |c: char| c == '/')
}

/// Texts are ordered by the first character in which they differ, and where there is none
/// the shorter one comes first.
pub proof fn texts_are_ordered_by_their_first_difference(a: Seq<char>, b: Seq<char>, i: int)
    requires
        0 <= i <= a.len(),
        i <= b.len(),
        forall|j: int| 0 <= j < i ==> a[j] == b[j],
        i < a.len() && i < b.len() ==> a[i] != b[i],
    ensures
        i == a.len() ==> text_le(a, b),
        i < a.len() && i == b.len() ==> !text_le(a, b),
        i < a.len() && i < b.len() ==> (text_le(a, b) <==> a[i] < b[i]),
    decreases i,
{
    if i > 0 {
        assert(a[0] == b[0]);
        let x = a.drop_first();
        let y = b.drop_first();
        assert forall|j: int| 0 <= j < i - 1 implies x[j] == y[j] by {
            assert(a[j + 1] == b[j + 1]);
        }
        texts_are_ordered_by_their_first_difference(x, y, i - 1);
    }
}

/// The number that decimal digits stand for.
pub open spec fn number_of(digits: Seq<char>) -> int
    decreases digits.len(),
{
    if digits.len() == 0 {
        0
    } else {
        10 * number_of(digits.drop_last()) + (digits.last() as int - '0' as int)
    }
}

/// The decimal notation of a number consists of digits that stand for it, and begins with
/// zero only where it is zero.
pub proof fn decimal_digits_stand_for_the_number(n: nat)
    ensures
        number_of(decimal(n)) == n,
        decimal(n).len() > 0,
        forall|i: int| 0 <= i < decimal(n).len() ==> '0' <= #[trigger] decimal(n)[i] <= '9',
        decimal(n)[0] == '0' ==> n == 0 && decimal(n).len() == 1,
    decreases n,
{
    if n < 10 {
        let s = seq![digit(n)];
        assert(s.drop_last() =~= Seq::<char>::empty());
        assert(number_of(s.drop_last()) == 0);
        assert(digit(n) as int == 48 + n);
    } else {
        decimal_digits_stand_for_the_number(n / 10);
        let head = decimal(n / 10);
        let d = digit(n % 10);
        assert(head.push(d).drop_last() =~= head);
        assert(d as int == 48 + n % 10);
        assert(decimal(n)[0] == head[0]);
    }
}

/// A negative number has a sign and then the digits of its amount, any other the digits
/// alone.
pub proof fn signs_stand_before_the_digits(n: int)
    ensures
        n >= 0 ==> number_of(signed_decimal(n)) == n && signed_decimal(n)[0] != '-',
        n < 0 ==> signed_decimal(n).len() > 1 && signed_decimal(n)[0] == '-' && number_of(
            signed_decimal(n).skip(1),
        ) == -n,
{
    if n >= 0 {
        decimal_digits_stand_for_the_number(n as nat);
        assert('0' <= decimal(n as nat)[0] <= '9');
    } else {
        decimal_digits_stand_for_the_number((-n) as nat);
        assert(signed_decimal(n).skip(1) =~= decimal((-n) as nat));
    }
}

/// A text occurs in another exactly where the other is it with something before and behind.
pub proof fn occurrences_split_a_text(part: Seq<char>, s: Seq<char>)
    ensures
        occurs_in(part, s) <==> exists|a: Seq<char>, b: Seq<char>| s == #[trigger] (a + part + b),
{
    if occurs_in(part, s) {
        let i = choose|i: int|
            0 <= i <= s.len() - part.len() && #[trigger] s.subrange(i, i + part.len()) == part;
        let a = s.take(i);
        let b = s.skip(i + part.len());
        assert(s =~= a + s.subrange(i, i + part.len()) + b);
        assert(s == a + part + b);
    }
    if exists|a: Seq<char>, b: Seq<char>| s == #[trigger] (a + part + b) {
        let (a, b) = choose|a: Seq<char>, b: Seq<char>| s == #[trigger] (a + part + b);
        let i = a.len() as int;
        assert(s.subrange(i, i + part.len()) =~= part);
    }
}

/// In lower case an ASCII text keeps its length, and each of its characters but for the
/// capital letters, which become small ones.
pub proof fn lower_case_changes_capitals_only(s: Seq<char>, i: int)
    requires
        vstd::utf8::is_ascii_chars(s),
        0 <= i < s.len(),
    ensures
        lowered(s).len() == s.len(),
        65 <= s[i] as int <= 90 ==> lowered(s)[i] as int == s[i] as int + 32,
        !(65 <= s[i] as int <= 90) ==> lowered(s)[i] == s[i],
{
}

/// The view of an optional text is that of the text.
pub proof fn optional_texts_are_texts(o: Option<String>)
    ensures
        o is None ==> opt_text(o) is None,
        o matches Some(s) ==> opt_text(o) == Some(s@),
{
}

} // verus!
