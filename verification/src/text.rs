//! Text as sequences of characters: splitting, trimming, replacing, ordering and numerals.
use vstd::prelude::*;
use vstd::string::*;

verus! {

// ---------------------------------------------------------------------------
// What the operations mean
// ---------------------------------------------------------------------------

/// The characters with the Unicode `White_Space` property.
pub open spec fn is_white(c: char) -> bool {
    let n = c as u32;
    ||| 0x9 <= n <= 0xd
    ||| n == 0x20
    ||| n == 0x85
    ||| n == 0xa0
    ||| n == 0x1680
    ||| 0x2000 <= n <= 0x200a
    ||| n == 0x2028
    ||| n == 0x2029
    ||| n == 0x202f
    ||| n == 0x205f
    ||| n == 0x3000
}

/// `s` without its leading white space.
pub open spec fn trimmed_start(s: Seq<char>) -> Seq<char>
    decreases s.len(),
{
    if s.len() > 0 && is_white(s[0]) {
        trimmed_start(s.drop_first())
    } else {
        s
    }
}

/// `s` without its trailing white space.
pub open spec fn trimmed_end(s: Seq<char>) -> Seq<char>
    decreases s.len(),
{
    if s.len() > 0 && is_white(s.last()) {
        trimmed_end(s.drop_last())
    } else {
        s
    }
}

/// `s` without white space at either end.
pub open spec fn trimmed(s: Seq<char>) -> Seq<char> {
    trimmed_end(trimmed_start(s))
}

/// What stands before and after the first `separator` in `s`, if there is one.
pub open spec fn parted(s: Seq<char>, separator: char) -> Option<(Seq<char>, Seq<char>)>
    decreases s.len(),
{
    if s.len() == 0 {
        None
    } else if s[0] == separator {
        Some((Seq::empty(), s.drop_first()))
    } else {
        match parted(s.drop_first(), separator) {
            Some((before, after)) => Some((seq![s[0]] + before, after)),
            None => None,
        }
    }
}

/// The pieces of `s` between separators: one more than there are separators.
pub open spec fn pieces(s: Seq<char>, separator: char) -> Seq<Seq<char>>
    decreases s.len(),
{
    if s.len() == 0 {
        seq![Seq::empty()]
    } else {
        let rest = pieces(s.drop_first(), separator);
        if s[0] == separator {
            seq![Seq::empty()] + rest
        } else {
            seq![seq![s[0]] + rest[0]] + rest.drop_first()
        }
    }
}

/// `s` begins with `pattern`.
pub open spec fn begins_with(s: Seq<char>, pattern: Seq<char>) -> bool {
    pattern.len() <= s.len() && s.take(pattern.len() as int) == pattern
}

/// `pattern` occurs in `s`.
pub open spec fn occurs_in(s: Seq<char>, pattern: Seq<char>) -> bool {
    exists|i: int| 0 <= i <= s.len() && begins_with(#[trigger] s.skip(i), pattern)
}

/// `s` with every occurrence of `pattern`, from the left and without overlaps,
/// replaced by `with`.
pub open spec fn substituted(s: Seq<char>, pattern: Seq<char>, with: Seq<char>) -> Seq<char>
    decreases s.len(),
{
    if s.len() == 0 || pattern.len() == 0 {
        s
    } else if begins_with(s, pattern) {
        with + substituted(s.skip(pattern.len() as int), pattern, with)
    } else {
        seq![s[0]] + substituted(s.drop_first(), pattern, with)
    }
}

/// `a` stands before `b` in the order of code points.
pub open spec fn precedes(a: Seq<char>, b: Seq<char>) -> bool
    decreases a.len(),
{
    if b.len() == 0 {
        false
    } else if a.len() == 0 {
        true
    } else if a[0] == b[0] {
        precedes(a.drop_first(), b.drop_first())
    } else {
        (a[0] as int) < (b[0] as int)
    }
}

/// The decimal digit of `d`.
pub open spec fn digit(d: int) -> char {
    (48 + d) as char
}

/// The decimal numeral of `n`.
pub open spec fn numeral(n: nat) -> Seq<char>
    decreases n,
{
    if n < 10 {
        seq![digit(n as int)]
    } else {
        numeral(n / 10).push(digit((n % 10) as int))
    }
}

/// The decimal numeral of `n`, with a sign where it is negative.
pub open spec fn signed_numeral(n: int) -> Seq<char> {
    if n < 0 {
        seq!['-'] + numeral((-n) as nat)
    } else {
        numeral(n as nat)
    }
}

/// The items one after the other with `separator` between them.
pub open spec fn joined(items: Seq<Seq<char>>, separator: Seq<char>) -> Seq<char>
    decreases items.len(),
{
    if items.len() == 0 {
        Seq::empty()
    } else if items.len() == 1 {
        items[0]
    } else {
        joined(items.drop_last(), separator) + separator + items.last()
    }
}

/// The characters of each text.
pub open spec fn texts(items: Seq<String>) -> Seq<Seq<char>> {
    items.map_values(|item: String| item@)
}

// ---------------------------------------------------------------------------
// Trusted
// ---------------------------------------------------------------------------

/// Calls `String::push`: appends one character.
#[verifier::external_body]
pub(crate) fn push_char(text: &mut String, c: char)
    ensures
        final(text)@ == old(text)@.push(c),
{
    text.push(c);
}

/// What `Debug` writes for a text: quoted, with the characters escaped that need it.
pub uninterp spec fn quoted_text(text: Seq<char>) -> Seq<char>;

/// Calls `format!` with `{:?}` on a text. The result is named, not described:
/// which characters `Debug` escapes is the standard library's own choice.
#[verifier::external_body]
pub(crate) fn quoted(text: &str) -> (shown: String)
    ensures
        shown@ == quoted_text(text@),
{
    format!("{:?}", text)
}

// ---------------------------------------------------------------------------
// Lemmas
// ---------------------------------------------------------------------------

proof fn lemma_parted_at(s: Seq<char>, separator: char, i: int)
    requires
        0 <= i < s.len(),
        s[i] == separator,
        forall|j: int| 0 <= j < i ==> s[j] != separator,
    ensures
        parted(s, separator) == Some((s.take(i), s.skip(i + 1))),
    decreases s.len(),
{
    if i == 0 {
        assert(s.take(0) =~= Seq::<char>::empty());
        assert(s.skip(1) =~= s.drop_first());
    } else {
        let t = s.drop_first();
        assert forall|j: int| 0 <= j < i - 1 implies t[j] != separator by {
            assert(t[j] == s[j + 1]);
        }
        lemma_parted_at(t, separator, i - 1);
        assert(seq![s[0]] + t.take(i - 1) =~= s.take(i));
        assert(t.skip(i) =~= s.skip(i + 1));
    }
}

proof fn lemma_parted_nowhere(s: Seq<char>, separator: char)
    requires
        forall|j: int| 0 <= j < s.len() ==> s[j] != separator,
    ensures
        parted(s, separator) is None,
    decreases s.len(),
{
    if s.len() > 0 {
        assert forall|j: int| 0 <= j < s.drop_first().len() implies s.drop_first()[j]
            != separator by {
            assert(s.drop_first()[j] == s[j + 1]);
        }
        lemma_parted_nowhere(s.drop_first(), separator);
    }
}

/// There is always at least one piece.
pub proof fn lemma_pieces_nonempty(s: Seq<char>, separator: char)
    ensures
        pieces(s, separator).len() >= 1,
        pieces(s, separator).len() <= s.len() + 1,
    decreases s.len(),
{
    if s.len() > 0 {
        lemma_pieces_nonempty(s.drop_first(), separator);
    }
}

proof fn lemma_pieces_at(s: Seq<char>, separator: char, i: int)
    requires
        0 <= i < s.len(),
        s[i] == separator,
        forall|j: int| 0 <= j < i ==> s[j] != separator,
    ensures
        pieces(s, separator) == seq![s.take(i)] + pieces(s.skip(i + 1), separator),
    decreases s.len(),
{
    if i == 0 {
        assert(s.take(0) =~= Seq::<char>::empty());
        assert(s.skip(1) =~= s.drop_first());
    } else {
        let t = s.drop_first();
        assert forall|j: int| 0 <= j < i - 1 implies t[j] != separator by {
            assert(t[j] == s[j + 1]);
        }
        lemma_pieces_at(t, separator, i - 1);
        assert(seq![s[0]] + t.take(i - 1) =~= s.take(i));
        assert(t.skip(i) =~= s.skip(i + 1));
        assert(pieces(s, separator) =~= seq![s.take(i)] + pieces(s.skip(i + 1), separator));
    }
}

proof fn lemma_pieces_nowhere(s: Seq<char>, separator: char)
    requires
        forall|j: int| 0 <= j < s.len() ==> s[j] != separator,
    ensures
        pieces(s, separator) == seq![s],
    decreases s.len(),
{
    if s.len() > 0 {
        let t = s.drop_first();
        assert forall|j: int| 0 <= j < t.len() implies t[j] != separator by {
            assert(t[j] == s[j + 1]);
        }
        lemma_pieces_nowhere(t, separator);
        assert(seq![s[0]] + t =~= s);
        assert(pieces(s, separator) =~= seq![s]);
    } else {
        assert(s =~= Seq::<char>::empty());
    }
}

proof fn lemma_trimmed_start_at(s: Seq<char>, i: int)
    requires
        0 <= i <= s.len(),
        forall|j: int| 0 <= j < i ==> is_white(s[j]),
        i < s.len() ==> !is_white(s[i]),
    ensures
        trimmed_start(s) == s.skip(i),
    decreases s.len(),
{
    if i == 0 {
        assert(s.skip(0) =~= s);
    } else {
        let t = s.drop_first();
        assert forall|j: int| 0 <= j < i - 1 implies is_white(t[j]) by {
            assert(t[j] == s[j + 1]);
        }
        lemma_trimmed_start_at(t, i - 1);
        assert(t.skip(i - 1) =~= s.skip(i));
    }
}

proof fn lemma_trimmed_end_at(s: Seq<char>, i: int)
    requires
        0 <= i <= s.len(),
        forall|j: int| i <= j < s.len() ==> is_white(s[j]),
        i > 0 ==> !is_white(s[i - 1]),
    ensures
        trimmed_end(s) == s.take(i),
    decreases s.len(),
{
    if i == s.len() {
        assert(s.take(i) =~= s);
    } else {
        lemma_trimmed_end_at(s.drop_last(), i);
        assert(s.drop_last().take(i) =~= s.take(i));
    }
}

// ---------------------------------------------------------------------------
// Operations
// ---------------------------------------------------------------------------

/// The characters of a text.
pub fn characters(text: &str) -> (chars: Vec<char>)
    ensures
        chars@ == text@,
{
    let mut chars: Vec<char> = Vec::new();
    for c in it: text.chars()
        invariant
            it.seq() == text@,
            chars@ == text@.take(it.index() as int),
    {
        proof {
            assert(text@.take(it.index() as int + 1) =~= text@.take(it.index() as int).push(c));
        }
        chars.push(c);
    }
    proof {
        assert(text@.take(text@.len() as int) =~= text@);
    }
    chars
}

/// Whether two texts hold the same characters.
pub fn same(a: &str, b: &str) -> (equal: bool)
    ensures
        equal == (a@ == b@),
{
    a.to_owned() == b.to_owned()
}

/// Whether a character is white space.
pub fn white(c: char) -> (answer: bool)
    ensures
        answer == is_white(c),
{
    let n: u32 = c as u32;
    (0x9 <= n && n <= 0xd) || n == 0x20 || n == 0x85 || n == 0xa0 || n == 0x1680 || (0x2000 <= n
        && n <= 0x200a) || n == 0x2028 || n == 0x2029 || n == 0x202f || n == 0x205f || n == 0x3000
}

/// The text without white space at either end.
pub fn trim<'a>(text: &'a str) -> (inner: &'a str)
    ensures
        inner@ == trimmed(text@),
{
    let chars = characters(text);
    let mut start: usize = 0;
    while start < chars.len() && white(chars[start])
        invariant
            start <= chars.len(),
            forall|j: int| 0 <= j < start ==> is_white(chars@[j]),
        decreases chars.len() - start,
    {
        start = start + 1;
    }
    let mut end: usize = chars.len();
    while end > start && white(chars[end - 1])
        invariant
            start <= end <= chars.len(),
            forall|j: int| end <= j < chars.len() ==> is_white(chars@[j]),
        decreases end,
    {
        end = end - 1;
    }
    proof {
        let s = text@;
        lemma_trimmed_start_at(s, start as int);
        let t = s.skip(start as int);
        assert forall|j: int| end - start <= j < t.len() implies is_white(t[j]) by {
            assert(t[j] == s[j + start]);
        }
        lemma_trimmed_end_at(t, end - start);
        assert(t.take(end - start) =~= s.subrange(start as int, end as int));
    }
    text.substring_char(start, end)
}

/// What stands before and after the first separator, if there is one.
pub fn split_once<'a>(text: &'a str, separator: char) -> (parts: Option<(&'a str, &'a str)>)
    ensures
        parts matches Some((before, after)) ==> parted(text@, separator) == Some(
            (before@, after@),
        ),
        parts is None ==> parted(text@, separator) is None,
{
    let chars = characters(text);
    let mut i: usize = 0;
    while i < chars.len()
        invariant
            i <= chars.len(),
            chars@ == text@,
            forall|j: int| 0 <= j < i ==> chars@[j] != separator,
        decreases chars.len() - i,
    {
        if chars[i] == separator {
            proof {
                lemma_parted_at(text@, separator, i as int);
                assert(text@.take(i as int) =~= text@.subrange(0, i as int));
                assert(text@.skip(i + 1) =~= text@.subrange(i + 1, text@.len() as int));
            }
            return Some((text.substring_char(0, i), text.substring_char(i + 1, chars.len())));
        }
        i = i + 1;
    }
    proof {
        lemma_parted_nowhere(text@, separator);
    }
    None
}

/// The pieces between separators.
pub fn split(text: &str, separator: char) -> (parts: Vec<String>)
    ensures
        texts(parts@) == pieces(text@, separator),
        parts@.len() == pieces(text@, separator).len(),
        forall|i: int|
            0 <= i < parts@.len() ==> (#[trigger] parts@[i])@ == pieces(text@, separator)[i],
{
    let chars = characters(text);
    let mut parts: Vec<String> = Vec::new();
    let mut start: usize = 0;
    let mut i: usize = 0;
    proof {
        assert(text@.skip(0) =~= text@);
        assert(texts(parts@) + pieces(text@, separator) =~= pieces(text@, separator));
    }
    while i < chars.len()
        invariant
            start <= i <= chars.len(),
            chars@ == text@,
            forall|j: int| start <= j < i ==> chars@[j] != separator,
            pieces(text@, separator) == texts(parts@) + pieces(
                text@.skip(start as int),
                separator,
            ),
        decreases chars.len() - i,
    {
        if chars[i] == separator {
            let piece = text.substring_char(start, i).to_owned();
            proof {
                let rest = text@.skip(start as int);
                assert forall|j: int| 0 <= j < i - start implies rest[j] != separator by {
                    assert(rest[j] == text@[j + start]);
                }
                lemma_pieces_at(rest, separator, i - start);
                assert(rest.take(i - start) =~= piece@);
                assert(rest.skip(i - start + 1) =~= text@.skip(i + 1));
                assert(texts(parts@.push(piece)) =~= texts(parts@).push(piece@));
                assert(texts(parts@) + (seq![piece@] + pieces(text@.skip(i + 1), separator))
                    =~= texts(parts@).push(piece@) + pieces(text@.skip(i + 1), separator));
            }
            parts.push(piece);
            start = i + 1;
        }
        i = i + 1;
    }
    let piece = text.substring_char(start, chars.len()).to_owned();
    proof {
        let rest = text@.skip(start as int);
        assert forall|j: int| 0 <= j < rest.len() implies rest[j] != separator by {
            assert(rest[j] == text@[j + start]);
        }
        lemma_pieces_nowhere(rest, separator);
        assert(rest =~= piece@);
        assert(texts(parts@.push(piece)) =~= texts(parts@) + seq![piece@]);
    }
    parts.push(piece);
    proof {
        assert forall|k: int| 0 <= k < parts@.len() implies (#[trigger] parts@[k])@ == pieces(
            text@,
            separator,
        )[k] by {
            assert(texts(parts@)[k] == parts@[k]@);
        }
    }
    parts
}

/// Whether some characters hold a pattern at a position.
fn matches_at(chars: &Vec<char>, pattern: &Vec<char>, at: usize) -> (answer: bool)
    requires
        at <= chars@.len(),
    ensures
        answer == begins_with(chars@.skip(at as int), pattern@),
{
    if pattern.len() > chars.len() - at {
        return false;
    }
    let mut k: usize = 0;
    while k < pattern.len()
        invariant
            k <= pattern.len() <= chars.len() - at,
            forall|j: int| 0 <= j < k ==> chars@[at + j] == pattern@[j],
        decreases pattern.len() - k,
    {
        if chars[at + k] != pattern[k] {
            proof {
                assert(chars@.skip(at as int).take(pattern@.len() as int)[k as int]
                    == chars@[at + k]);
            }
            return false;
        }
        k = k + 1;
    }
    proof {
        assert(chars@.skip(at as int).take(pattern@.len() as int) =~= pattern@);
    }
    true
}

/// Whether a pattern occurs in a text.
pub fn contains(text: &str, pattern: &str) -> (answer: bool)
    ensures
        answer == occurs_in(text@, pattern@),
{
    let chars = characters(text);
    let sought = characters(pattern);
    let mut i: usize = 0;
    while i < chars.len()
        invariant
            i <= chars.len(),
            chars@ == text@,
            sought@ == pattern@,
            forall|j: int| 0 <= j < i ==> !begins_with(#[trigger] text@.skip(j), pattern@),
        decreases chars.len() - i,
    {
        if matches_at(&chars, &sought, i) {
            return true;
        }
        i = i + 1;
    }
    matches_at(&chars, &sought, i)
}

/// The text with every occurrence of the pattern replaced.
pub fn replace(text: &str, pattern: &str, with: &str) -> (result: String)
    requires
        pattern@.len() > 0,
    ensures
        result@ == substituted(text@, pattern@, with@),
{
    let chars = characters(text);
    let sought = characters(pattern);
    let mut result = String::new();
    let mut i: usize = 0;
    proof {
        assert(text@.skip(0) =~= text@);
        assert(result@ + substituted(text@, pattern@, with@) =~= substituted(
            text@,
            pattern@,
            with@,
        ));
    }
    while i < chars.len()
        invariant
            i <= chars.len(),
            chars@ == text@,
            sought@ == pattern@,
            pattern@.len() > 0,
            substituted(text@, pattern@, with@) == result@ + substituted(
                text@.skip(i as int),
                pattern@,
                with@,
            ),
        decreases chars.len() - i,
    {
        let ghost rest = text@.skip(i as int);
        let ghost before = result@;
        if matches_at(&chars, &sought, i) {
            result.append(with);
            i = i + sought.len();
            proof {
                assert(rest.skip(pattern@.len() as int) =~= text@.skip(i as int));
                assert(before + (with@ + substituted(text@.skip(i as int), pattern@, with@))
                    =~= result@ + substituted(text@.skip(i as int), pattern@, with@));
            }
        } else {
            push_char(&mut result, chars[i]);
            i = i + 1;
            proof {
                assert(rest.drop_first() =~= text@.skip(i as int));
                assert(before + (seq![rest[0]] + substituted(
                    text@.skip(i as int),
                    pattern@,
                    with@,
                )) =~= result@ + substituted(text@.skip(i as int), pattern@, with@));
            }
        }
    }
    proof {
        assert(text@.skip(i as int) =~= Seq::<char>::empty());
        assert(result@ + Seq::<char>::empty() =~= result@);
    }
    result
}

proof fn lemma_precedes_after(a: Seq<char>, b: Seq<char>, k: int)
    requires
        0 <= k <= a.len(),
        k <= b.len(),
        forall|j: int| 0 <= j < k ==> a[j] == b[j],
    ensures
        precedes(a, b) == precedes(a.skip(k), b.skip(k)),
    decreases k,
{
    if k == 0 {
        assert(a.skip(0) =~= a);
        assert(b.skip(0) =~= b);
    } else {
        let (s, t) = (a.drop_first(), b.drop_first());
        assert forall|j: int| 0 <= j < k - 1 implies s[j] == t[j] by {
            assert(s[j] == a[j + 1] && t[j] == b[j + 1]);
        }
        lemma_precedes_after(s, t, k - 1);
        assert(s.skip(k - 1) =~= a.skip(k));
        assert(t.skip(k - 1) =~= b.skip(k));
    }
}

/// The code point of a character.
fn code_point(c: char) -> (n: u32)
    ensures
        n as int == c as int,
{
    c as u32
}

/// Whether one text stands before another.
pub fn before(a: &str, b: &str) -> (answer: bool)
    ensures
        answer == precedes(a@, b@),
{
    let left = characters(a);
    let right = characters(b);
    let mut k: usize = 0;
    while k < left.len() && k < right.len() && left[k] == right[k]
        invariant
            k <= left.len(),
            k <= right.len(),
            left@ == a@,
            right@ == b@,
            forall|j: int| 0 <= j < k ==> a@[j] == b@[j],
        decreases left.len() - k,
    {
        k = k + 1;
    }
    proof {
        lemma_precedes_after(a@, b@, k as int);
    }
    if k >= right.len() {
        false
    } else if k >= left.len() {
        true
    } else {
        code_point(left[k]) < code_point(right[k])
    }
}

/// No text stands before itself.
pub proof fn lemma_precedes_irreflexive(a: Seq<char>)
    ensures
        !precedes(a, a),
    decreases a.len(),
{
    if a.len() > 0 {
        lemma_precedes_irreflexive(a.drop_first());
    }
}

/// Of two different texts one stands before the other.
pub proof fn lemma_precedes_total(a: Seq<char>, b: Seq<char>)
    ensures
        precedes(a, b) || precedes(b, a) || a == b,
    decreases a.len(),
{
    if a.len() == 0 || b.len() == 0 {
        if a.len() == b.len() {
            assert(a =~= b);
        }
    } else if a[0] == b[0] {
        lemma_precedes_total(a.drop_first(), b.drop_first());
        if a.drop_first() == b.drop_first() {
            assert(a =~= seq![a[0]] + a.drop_first());
            assert(b =~= seq![b[0]] + b.drop_first());
        }
    }
}

/// The order of texts is transitive.
pub proof fn lemma_precedes_transitive(a: Seq<char>, b: Seq<char>, c: Seq<char>)
    requires
        precedes(a, b),
        precedes(b, c),
    ensures
        precedes(a, c),
    decreases a.len(),
{
    if a.len() > 0 && a[0] == b[0] && b[0] == c[0] {
        lemma_precedes_transitive(a.drop_first(), b.drop_first(), c.drop_first());
    }
}

/// The decimal numeral of a number.
pub fn decimal(n: u64) -> (shown: String)
    ensures
        shown@ == numeral(n as nat),
    decreases n,
{
    let last: u8 = (n % 10) as u8;
    let c: char = (48 + last) as char;
    if n < 10 {
        let mut shown = String::new();
        push_char(&mut shown, c);
        proof {
            assert(shown@ =~= numeral(n as nat));
        }
        shown
    } else {
        let mut shown = decimal(n / 10);
        push_char(&mut shown, c);
        shown
    }
}

/// The decimal numeral of a number that may be negative.
pub fn signed_decimal(n: i64) -> (shown: String)
    ensures
        shown@ == signed_numeral(n as int),
{
    if n < 0 {
        let mut shown = String::new();
        push_char(&mut shown, '-');
        let magnitude: u64 = if n == i64::MIN {
            0x8000_0000_0000_0000
        } else {
            (-n) as u64
        };
        let digits = decimal(magnitude);
        shown.append(digits.as_str());
        proof {
            assert(shown@ =~= seq!['-'] + digits@);
        }
        shown
    } else {
        decimal(n as u64)
    }
}

/// The items one after the other with a separator between them.
pub fn join(items: &Vec<String>, separator: &str) -> (result: String)
    ensures
        result@ == joined(texts(items@), separator@),
{
    let mut result = String::new();
    for i in 0..items.len()
        invariant
            result@ == joined(texts(items@).take(i as int), separator@),
    {
        let ghost all = texts(items@);
        if i > 0 {
            result.append(separator);
        }
        result.append(items[i].as_str());
        proof {
            assert(all.take(i as int + 1).drop_last() =~= all.take(i as int));
            if i == 0 {
                assert(result@ =~= all[0]);
            }
        }
    }
    proof {
        assert(texts(items@).take(items@.len() as int) =~= texts(items@));
    }
    result
}

/// Each text stands before the next.
pub open spec fn in_text_order(items: Seq<Seq<char>>) -> bool {
    forall|i: int, j: int| 0 <= i < j < items.len() ==> precedes(items[i], items[j])
}

/// Puts a text into texts in order where it belongs, unless it is there.
fn put_text(items: &mut Vec<String>, item: &String)
    requires
        in_text_order(texts(old(items)@)),
    ensures
        in_text_order(texts(final(items)@)),
        forall|t: Seq<char>|
            #[trigger] texts(final(items)@).contains(t) <==> texts(old(items)@).contains(t) || t
                == item@,
{
    let ghost start = texts(items@);
    let mut i: usize = 0;
    while i < items.len() && before(items[i].as_str(), item.as_str())
        invariant
            i <= items@.len(),
            texts(items@) == start,
            forall|j: int| 0 <= j < i ==> precedes(start[j], item@),
        decreases items@.len() - i,
    {
        i = i + 1;
    }
    if i < items.len() && same(items[i].as_str(), item.as_str()) {
        proof {
            assert(start[i as int] == item@);
        }
        return ;
    }
    let ghost old_items = items@;
    items.insert(i, item.clone());
    proof {
        let after = texts(items@);
        assert(after =~= start.insert(i as int, item@));
        if i < start.len() {
            assert(start[i as int] == old_items[i as int]@);
            lemma_precedes_total(start[i as int], item@);
        }
        assert forall|a: int, b: int| 0 <= a < b < after.len() implies precedes(
            after[a],
            after[b],
        ) by {
            if a < i && b > i {
                assert(precedes(start[a], start[b - 1]));
            } else if a == i && b > i {
                assert(precedes(item@, start[i as int]));
                if b - 1 > i {
                    assert(precedes(start[i as int], start[b - 1]));
                    lemma_precedes_transitive(item@, start[i as int], start[b - 1]);
                }
            } else if a > i {
                assert(precedes(start[a - 1], start[b - 1]));
            }
        }
        assert forall|t: Seq<char>| #[trigger] after.contains(t) <==> start.contains(t) || t
            == item@ by {
            assert(after[i as int] == item@);
            if start.contains(t) {
                let k = choose|k: int| 0 <= k < start.len() && start[k] == t;
                assert(after[if k < i {
                    k
                } else {
                    k + 1
                }] == t);
            }
            if after.contains(t) && t != item@ {
                let k = choose|k: int| 0 <= k < after.len() && after[k] == t;
                assert(start[if k < i {
                    k
                } else {
                    k - 1
                }] == t);
            }
        }
    }
}

/// The texts in order, each once.
pub fn sorted_distinct(items: &Vec<String>) -> (sorted: Vec<String>)
    ensures
        in_text_order(texts(sorted@)),
        forall|t: Seq<char>|
            #[trigger] texts(sorted@).contains(t) <==> texts(items@).contains(t),
{
    let ghost all = texts(items@);
    let mut sorted: Vec<String> = Vec::new();
    for i in 0..items.len()
        invariant
            all == texts(items@),
            in_text_order(texts(sorted@)),
            forall|t: Seq<char>|
                #[trigger] texts(sorted@).contains(t) <==> all.take(i as int).contains(t),
    {
        let ghost before_put = texts(sorted@);
        put_text(&mut sorted, &items[i]);
        proof {
            let now = all.take(i as int + 1);
            let prior = all.take(i as int);
            assert(now =~= prior.push(all[i as int]));
            assert forall|t: Seq<char>| #[trigger] texts(sorted@).contains(t)
                <==> now.contains(t) by {
                assert(before_put.contains(t) <==> prior.contains(t));
                assert(now[i as int] == items@[i as int]@);
                if prior.contains(t) {
                    let k = choose|k: int| 0 <= k < prior.len() && prior[k] == t;
                    assert(now[k] == t);
                }
                if now.contains(t) && t != all[i as int] {
                    let k = choose|k: int| 0 <= k < now.len() && now[k] == t;
                    assert(prior[k] == t);
                }
            }
        }
    }
    proof {
        assert(all.take(all.len() as int) =~= all);
    }
    sorted
}

proof fn lemma_digits(d: int, e: int)
    requires
        0 <= d < 10,
        0 <= e < 10,
        digit(d) == digit(e),
    ensures
        d == e,
{
    assert(digit(d) as int == 48 + d);
    assert(digit(e) as int == 48 + e);
}

/// Different numbers have different numerals.
pub proof fn law_numerals_differ(a: nat, b: nat)
    requires
        numeral(a) == numeral(b),
    ensures
        a == b,
    decreases a,
{
    lemma_numeral_len(a);
    lemma_numeral_len(b);
    let (x, y) = (numeral(a), numeral(b));
    if a < 10 || b < 10 {
        assert(x.len() == 1 && y.len() == 1);
        assert(x[0] == y[0]);
        lemma_digits(a as int, b as int);
    } else {
        assert(x.drop_last() =~= numeral(a / 10));
        assert(y.drop_last() =~= numeral(b / 10));
        assert(x.last() == digit((a % 10) as int) && y.last() == digit((b % 10) as int));
        law_numerals_differ(a / 10, b / 10);
        lemma_digits((a % 10) as int, (b % 10) as int);
    }
}

proof fn lemma_numeral_len(n: nat)
    ensures
        numeral(n).len() >= 1,
        numeral(n).len() == 1 <==> n < 10,
    decreases n,
{
    if n >= 10 {
        lemma_numeral_len(n / 10);
    }
}

/// How often a pattern is replaced.
spec fn replacements(s: Seq<char>, pattern: Seq<char>) -> nat
    decreases s.len(),
{
    if s.len() == 0 || pattern.len() == 0 {
        0
    } else if begins_with(s, pattern) {
        1 + replacements(s.skip(pattern.len() as int), pattern)
    } else {
        replacements(s.drop_first(), pattern)
    }
}

proof fn lemma_substituted_len(s: Seq<char>, pattern: Seq<char>, with: Seq<char>)
    ensures
        substituted(s, pattern, with).len() == s.len() + replacements(s, pattern) * (with.len()
            - pattern.len()),
    decreases s.len(),
{
    if s.len() == 0 || pattern.len() == 0 {
        assert(0 * (with.len() - pattern.len()) == 0) by (nonlinear_arith);
    } else if begins_with(s, pattern) {
        let rest = s.skip(pattern.len() as int);
        lemma_substituted_len(rest, pattern, with);
        let n = replacements(rest, pattern) as int;
        let d = with.len() - pattern.len();
        assert((1 + n) * d == d + n * d) by (nonlinear_arith);
    } else {
        lemma_substituted_len(s.drop_first(), pattern, with);
    }
}

proof fn lemma_occurs_behind(s: Seq<char>, pattern: Seq<char>)
    requires
        s.len() > 0,
        occurs_in(s, pattern),
        !begins_with(s, pattern),
    ensures
        occurs_in(s.drop_first(), pattern),
{
    let i = choose|i: int| 0 <= i <= s.len() && begins_with(#[trigger] s.skip(i), pattern);
    if i == 0 {
        assert(s.skip(0) =~= s);
    }
    assert(s.drop_first().skip(i - 1) =~= s.skip(i));
}

proof fn lemma_replaced_once(s: Seq<char>, pattern: Seq<char>)
    requires
        pattern.len() > 0,
        occurs_in(s, pattern),
    ensures
        replacements(s, pattern) >= 1,
        s.len() > 0,
    decreases s.len(),
{
    let i = choose|i: int| 0 <= i <= s.len() && begins_with(#[trigger] s.skip(i), pattern);
    assert(s.len() > 0);
    if !begins_with(s, pattern) {
        lemma_occurs_behind(s, pattern);
        lemma_replaced_once(s.drop_first(), pattern);
    }
}

/// Where a pattern occurs, replacing it by different texts gives different results.
pub proof fn law_replacements_show(
    s: Seq<char>,
    pattern: Seq<char>,
    a: Seq<char>,
    b: Seq<char>,
)
    requires
        pattern.len() > 0,
        occurs_in(s, pattern),
        substituted(s, pattern, a) == substituted(s, pattern, b),
    ensures
        a == b,
    decreases s.len(),
{
    lemma_replaced_once(s, pattern);
    lemma_substituted_len(s, pattern, a);
    lemma_substituted_len(s, pattern, b);
    let n = replacements(s, pattern) as int;
    assert(a.len() == b.len()) by (nonlinear_arith)
        requires
            n >= 1,
            n * (a.len() - pattern.len()) == n * (b.len() - pattern.len()),
    ;
    let (x, y) = (substituted(s, pattern, a), substituted(s, pattern, b));
    if begins_with(s, pattern) {
        assert(x.take(a.len() as int) =~= a);
        assert(y.take(b.len() as int) =~= b);
    } else {
        lemma_occurs_behind(s, pattern);
        assert(x.drop_first() =~= substituted(s.drop_first(), pattern, a));
        assert(y.drop_first() =~= substituted(s.drop_first(), pattern, b));
        law_replacements_show(s.drop_first(), pattern, a, b);
    }
}

// ---------------------------------------------------------------------------
// Laws
// ---------------------------------------------------------------------------

/// Parting a text at a separator takes it apart at the first one and loses nothing else; a text is
/// whole exactly where it has no separator.
pub proof fn law_parts_make_up_the_text(s: Seq<char>, separator: char)
    ensures
        match parted(s, separator) {
            Some((before, after)) => {
                &&& s == before.push(separator) + after
                &&& !before.contains(separator)
            },
            None => !s.contains(separator),
        },
        s.contains(separator) ==> parted(s, separator) is Some,
    decreases s.len(),
{
    if s.len() > 0 {
        let rest = s.drop_first();
        law_parts_make_up_the_text(rest, separator);
        assert(s =~= seq![s[0]] + rest);
        if s[0] == separator {
            assert(s =~= Seq::<char>::empty().push(separator) + rest);
        } else {
            if s.contains(separator) {
                let i = choose|i: int| 0 <= i < s.len() && s[i] == separator;
                assert(rest[i - 1] == separator);
            }
            if let Some((before, after)) = parted(rest, separator) {
                let longer = seq![s[0]] + before;
                assert(s =~= longer.push(separator) + after);
                if longer.contains(separator) {
                    let i = choose|i: int| 0 <= i < longer.len() && longer[i] == separator;
                    assert(before[i - 1] == separator);
                }
                assert(s[longer.len() as int] == separator);
            }
        }
    }
}

/// The pieces of a text, with the separator between them, are the text, and none of them has a
/// separator in it.
pub proof fn law_pieces_make_up_the_text(s: Seq<char>, separator: char)
    ensures
        joined(pieces(s, separator), seq![separator]) == s,
        forall|i: int|
            0 <= i < pieces(s, separator).len() ==> !(#[trigger] pieces(s, separator)[i]).contains(
                separator,
            ),
    decreases s.len(),
{
    let all = pieces(s, separator);
    let mark = seq![separator];
    if s.len() == 0 {
        assert(all[0] =~= s);
    } else {
        let tail = s.drop_first();
        let rest = pieces(tail, separator);
        law_pieces_make_up_the_text(tail, separator);
        lemma_pieces_nonempty(tail, separator);
        assert(s =~= seq![s[0]] + tail);
        if s[0] == separator {
            lemma_joined_first(all, mark);
            assert(all.drop_first() =~= rest);
            assert(Seq::<char>::empty() + mark + tail =~= s);
            assert forall|i: int| 0 <= i < all.len() implies !(#[trigger] all[i]).contains(
                separator,
            ) by {
                if i > 0 {
                    assert(all[i] == rest[i - 1]);
                }
            }
        } else {
            let first = seq![s[0]] + rest[0];
            assert(all[0] == first);
            assert(all.drop_first() =~= rest.drop_first());
            assert forall|i: int| 0 <= i < all.len() implies !(#[trigger] all[i]).contains(
                separator,
            ) by {
                if i > 0 {
                    assert(all[i] == rest[i]);
                } else if first.contains(separator) {
                    let k = choose|k: int| 0 <= k < first.len() && first[k] == separator;
                    assert(rest[0][k - 1] == separator);
                }
            }
            if rest.len() == 1 {
                assert(joined(all, mark) == first);
            } else {
                lemma_joined_first(all, mark);
                lemma_joined_first(rest, mark);
                assert(first + mark + joined(rest.drop_first(), mark) =~= seq![s[0]] + (rest[0]
                    + mark + joined(rest.drop_first(), mark)));
            }
        }
    }
}

/// Joined items begin with the first of them.
proof fn lemma_joined_first(items: Seq<Seq<char>>, separator: Seq<char>)
    requires
        items.len() >= 2,
    ensures
        joined(items, separator) == items[0] + separator + joined(items.drop_first(), separator),
    decreases items.len(),
{
    let rest = items.drop_first();
    if items.len() == 2 {
        assert(items.drop_last() =~= seq![items[0]]);
        assert(joined(items.drop_last(), separator) == items[0]);
        assert(joined(rest, separator) == items[1]);
    } else {
        lemma_joined_first(items.drop_last(), separator);
        assert(items.drop_last().drop_first() =~= rest.drop_last());
        assert(joined(items, separator) =~= items[0] + separator + joined(rest, separator));
    }
}

/// All characters are white space.
pub open spec fn all_white(s: Seq<char>) -> bool {
    forall|i: int| 0 <= i < s.len() ==> is_white(#[trigger] s[i])
}

/// Trimming takes white space off both ends, as much as there is, and nothing else.
pub proof fn law_trimming_takes_white_space(s: Seq<char>)
    ensures
        exists|lead: Seq<char>, trail: Seq<char>|
            #![trigger lead + trimmed(s) + trail]
            all_white(lead) && all_white(trail) && s == lead + trimmed(s) + trail,
        trimmed(s).len() > 0 ==> !is_white(trimmed(s)[0]) && !is_white(trimmed(s).last()),
        trimmed(trimmed(s)) == trimmed(s),
{
    let middle = trimmed_start(s);
    lemma_start_trimmed(s);
    lemma_end_trimmed(middle);
    let inner = trimmed_end(middle);
    let lead = s.take(s.len() - middle.len());
    let trail = middle.skip(inner.len() as int);
    assert(inner == trimmed(s));
    assert(all_white(lead) && all_white(trail));
    assert(s =~= lead + trimmed(s) + trail);
    if inner.len() > 0 {
        assert(inner[0] == middle[0]);
    }
    lemma_trimmed_start_at(inner, 0);
    assert(inner.skip(0) =~= inner);
    lemma_trimmed_end_at(inner, inner.len() as int);
    assert(inner.take(inner.len() as int) =~= inner);
}

proof fn lemma_start_trimmed(s: Seq<char>)
    ensures
        trimmed_start(s).len() <= s.len(),
        trimmed_start(s) == s.skip(s.len() - trimmed_start(s).len()),
        all_white(s.take(s.len() - trimmed_start(s).len())),
        trimmed_start(s).len() > 0 ==> !is_white(trimmed_start(s)[0]),
    decreases s.len(),
{
    if s.len() > 0 && is_white(s[0]) {
        let rest = s.drop_first();
        lemma_start_trimmed(rest);
        let k = rest.len() - trimmed_start(rest).len();
        assert(rest.skip(k) =~= s.skip(k + 1));
        assert forall|i: int| 0 <= i < k + 1 implies is_white(#[trigger] s.take(k + 1)[i]) by {
            if i > 0 {
                assert(rest.take(k)[i - 1] == s[i]);
            }
        }
    } else {
        assert(s.skip(0) =~= s);
    }
}

proof fn lemma_end_trimmed(s: Seq<char>)
    ensures
        trimmed_end(s).len() <= s.len(),
        trimmed_end(s) == s.take(trimmed_end(s).len() as int),
        all_white(s.skip(trimmed_end(s).len() as int)),
        trimmed_end(s).len() > 0 ==> !is_white(trimmed_end(s).last()),
    decreases s.len(),
{
    if s.len() > 0 && is_white(s.last()) {
        let rest = s.drop_last();
        lemma_end_trimmed(rest);
        let k = trimmed_end(rest).len() as int;
        assert(rest.take(k) =~= s.take(k));
        assert forall|i: int| 0 <= i < s.len() - k implies is_white(#[trigger] s.skip(k)[i]) by {
            if i < rest.len() - k {
                assert(rest.skip(k)[i] == s[k + i]);
            }
        }
    } else {
        assert(s.take(s.len() as int) =~= s);
    }
}

/// A character that is no white space is in a text exactly where it is in the trimmed text.
pub proof fn law_trimming_keeps_the_rest(s: Seq<char>, c: char)
    requires
        !is_white(c),
    ensures
        trimmed(s).contains(c) <==> s.contains(c),
{
    law_trimming_takes_white_space(s);
    let (lead, trail) = choose|lead: Seq<char>, trail: Seq<char>|
        #![trigger lead + trimmed(s) + trail]
        all_white(lead) && all_white(trail) && s == lead + trimmed(s) + trail;
    let inner = trimmed(s);
    if inner.contains(c) {
        let i = choose|i: int| 0 <= i < inner.len() && inner[i] == c;
        assert((lead + inner + trail)[lead.len() + i] == c);
    }
    if s.contains(c) {
        let i = choose|i: int| 0 <= i < s.len() && s[i] == c;
        if i < lead.len() {
            assert(lead[i] == c);
        } else if i < lead.len() + inner.len() {
            assert(inner[i - lead.len()] == c);
        } else {
            assert(trail[i - lead.len() - inner.len()] == c);
        }
    }
}

/// The number that decimal digits stand for.
pub open spec fn digits_value(s: Seq<char>) -> int
    decreases s.len(),
{
    if s.len() == 0 {
        0
    } else {
        10 * digits_value(s.drop_last()) + (s.last() as int - '0' as int)
    }
}

/// A numeral consists of decimal digits, has no leading zero but in zero itself, and stands for its
/// number.
pub proof fn law_numerals_tell_the_number(n: nat)
    ensures
        digits_value(numeral(n)) == n,
        forall|i: int|
            0 <= i < numeral(n).len() ==> '0' <= (#[trigger] numeral(n)[i]) && numeral(n)[i] <= '9',
        n > 0 ==> numeral(n)[0] != '0',
        numeral(0) == seq!['0'],
    decreases n,
{
    let all = numeral(n);
    lemma_numeral_len(n);
    assert(digit(0) == '0');
    if n < 10 {
        assert(all.drop_last() =~= Seq::empty());
        assert(digits_value(all.drop_last()) == 0);
        assert(digit(n as int) as int == 48 + n);
    } else {
        law_numerals_tell_the_number(n / 10);
        lemma_numeral_len(n / 10);
        assert(all.drop_last() =~= numeral(n / 10));
        assert(digit((n % 10) as int) as int == 48 + n % 10);
        assert(all[0] == numeral(n / 10)[0]);
        assert forall|i: int| 0 <= i < all.len() implies '0' <= (#[trigger] all[i]) && all[i]
            <= '9' by {
            if i < all.len() - 1 {
                assert(all[i] == numeral(n / 10)[i]);
            }
        }
    }
}

/// Replacing a pattern leaves what stands before its first place as it is, puts the new text in
/// its place, and goes on behind it.
pub proof fn law_replacing_changes_the_pattern_alone(
    before: Seq<char>,
    pattern: Seq<char>,
    after: Seq<char>,
    with: Seq<char>,
)
    requires
        pattern.len() > 0,
        forall|k: int|
            0 <= k < before.len() ==> !begins_with(
                #[trigger] (before + pattern + after).skip(k),
                pattern,
            ),
    ensures
        substituted(before + pattern + after, pattern, with) == before + with + substituted(
            after,
            pattern,
            with,
        ),
    decreases before.len(),
{
    let s = before + pattern + after;
    if before.len() == 0 {
        assert(s.take(pattern.len() as int) =~= pattern);
        assert(s.skip(pattern.len() as int) =~= after);
        assert(before + with =~= with);
    } else {
        let rest = before.drop_first();
        let t = rest + pattern + after;
        assert(s.drop_first() =~= t);
        assert(s.skip(0) =~= s);
        assert(!begins_with(s.skip(0), pattern));
        assert forall|k: int| 0 <= k < rest.len() implies !begins_with(
            #[trigger] t.skip(k),
            pattern,
        ) by {
            assert(t.skip(k) =~= s.skip(k + 1));
        }
        law_replacing_changes_the_pattern_alone(rest, pattern, after, with);
        let end = substituted(after, pattern, with);
        assert(substituted(s, pattern, with) == seq![s[0]] + substituted(t, pattern, with));
        assert(seq![s[0]] + (rest + with + end) =~= before + with + end);
    }
}

/// A text without the pattern stays as it is.
pub proof fn law_without_the_pattern_nothing_changes(
    s: Seq<char>,
    pattern: Seq<char>,
    with: Seq<char>,
)
    requires
        !occurs_in(s, pattern),
    ensures
        substituted(s, pattern, with) == s,
    decreases s.len(),
{
    if s.len() > 0 && pattern.len() > 0 {
        let rest = s.drop_first();
        assert(s.skip(0) =~= s);
        assert(!begins_with(s.skip(0), pattern));
        if occurs_in(rest, pattern) {
            let k = choose|k: int|
                0 <= k <= rest.len() && begins_with(#[trigger] rest.skip(k), pattern);
            assert(rest.skip(k) =~= s.skip(k + 1));
        }
        law_without_the_pattern_nothing_changes(rest, pattern, with);
        assert(seq![s[0]] + rest =~= s);
    }
}

/// One text precedes another exactly where it is a beginning of it, or has the lesser code point at
/// the first place at which they differ.
pub proof fn law_texts_are_ordered_by_code_points(a: Seq<char>, b: Seq<char>)
    ensures
        precedes(a, b) <==> exists|k: int|
            #![trigger a.take(k)]
            {
                &&& 0 <= k <= a.len()
                &&& k < b.len()
                &&& a.take(k) == b.take(k)
                &&& k == a.len() || (a[k] as int) < (b[k] as int)
            },
    decreases a.len(),
{
    if b.len() > 0 && a.len() > 0 && a[0] == b[0] {
        let (x, y) = (a.drop_first(), b.drop_first());
        law_texts_are_ordered_by_code_points(x, y);
        if precedes(a, b) {
            let k = choose|k: int|
                #![trigger x.take(k)]
                {
                    &&& 0 <= k <= x.len()
                    &&& k < y.len()
                    &&& x.take(k) == y.take(k)
                    &&& k == x.len() || (x[k] as int) < (y[k] as int)
                };
            assert(a.take(k + 1) =~= seq![a[0]] + x.take(k));
            assert(b.take(k + 1) =~= seq![b[0]] + y.take(k));
        }
        if exists|k: int|
            #![trigger a.take(k)]
            {
                &&& 0 <= k <= a.len()
                &&& k < b.len()
                &&& a.take(k) == b.take(k)
                &&& k == a.len() || (a[k] as int) < (b[k] as int)
            } {
            let k = choose|k: int|
                #![trigger a.take(k)]
                {
                    &&& 0 <= k <= a.len()
                    &&& k < b.len()
                    &&& a.take(k) == b.take(k)
                    &&& k == a.len() || (a[k] as int) < (b[k] as int)
                };
            assert(k > 0);
            assert(x.take(k - 1) =~= a.take(k).drop_first());
            assert(y.take(k - 1) =~= b.take(k).drop_first());
        }
    } else if b.len() > 0 {
        assert(a.take(0) =~= b.take(0));
        if exists|k: int|
            #![trigger a.take(k)]
            {
                &&& 0 <= k <= a.len()
                &&& k < b.len()
                &&& a.take(k) == b.take(k)
                &&& k == a.len() || (a[k] as int) < (b[k] as int)
            } {
            let k = choose|k: int|
                #![trigger a.take(k)]
                {
                    &&& 0 <= k <= a.len()
                    &&& k < b.len()
                    &&& a.take(k) == b.take(k)
                    &&& k == a.len() || (a[k] as int) < (b[k] as int)
                };
            if k > 0 {
                assert(a.take(k)[0] == b.take(k)[0]);
            }
        }
    }
}

/// The text, but for white space round it.
pub open spec fn is_core_of(core: Seq<char>, s: Seq<char>) -> bool {
    &&& core.len() > 0 ==> !is_white(core[0]) && !is_white(core[core.len() - 1])
    &&& exists|lead: Seq<char>, trail: Seq<char>|
        #![trigger lead + core + trail]
        all_white(lead) && all_white(trail) && s == lead + core + trail
}

/// What is left of a text by trimming is the text but for white space round it, and it is empty
/// exactly where there is only white space.
pub proof fn law_trimming_leaves_the_core(s: Seq<char>)
    ensures
        is_core_of(trimmed(s), s),
        trimmed(s).len() == 0 <==> all_white(s),
{
    law_trimming_takes_white_space(s);
    let core = trimmed(s);
    let (lead, trail) = choose|lead: Seq<char>, trail: Seq<char>|
        #![trigger lead + core + trail]
        all_white(lead) && all_white(trail) && s == lead + core + trail;
    if core.len() == 0 {
        assert forall|i: int| 0 <= i < s.len() implies is_white(#[trigger] s[i]) by {
            if i < lead.len() {
                assert(s[i] == lead[i]);
            } else {
                assert(s[i] == trail[i - lead.len()]);
            }
        }
    } else {
        assert(s[lead.len() as int] == core[0]);
    }
}

/// A signed numeral is the numeral of a number's size, with a minus sign in front of a negative one.
pub proof fn law_signed_numerals_tell_the_number(n: int)
    ensures
        n >= 0 ==> digits_value(signed_numeral(n)) == n && !signed_numeral(n).contains('-'),
        n < 0 ==> signed_numeral(n).len() > 0 && signed_numeral(n)[0] == '-' && digits_value(
            signed_numeral(n).drop_first(),
        ) == -n,
{
    if n >= 0 {
        law_numerals_tell_the_number(n as nat);
        if signed_numeral(n).contains('-') {
            let i = choose|i: int| 0 <= i < signed_numeral(n).len() && signed_numeral(n)[i] == '-';
            assert('0' <= numeral(n as nat)[i]);
        }
    } else {
        law_numerals_tell_the_number((-n) as nat);
        assert(signed_numeral(n).drop_first() =~= numeral((-n) as nat));
    }
}

/// White space is the tab, the line and page breaks, the space, and the other spaces of Unicode, and
/// no other character.
pub proof fn law_white_space_is_that_of_unicode(c: char)
    ensures
        is_white(c) <==> {
            ||| c == '\t' || c == '\n' || c == '\u{b}' || c == '\u{c}' || c == '\r' || c == ' '
            ||| c == '\u{85}' || c == '\u{a0}' || c == '\u{1680}' || c == '\u{2000}'
            ||| c == '\u{2001}' || c == '\u{2002}' || c == '\u{2003}' || c == '\u{2004}'
            ||| c == '\u{2005}' || c == '\u{2006}' || c == '\u{2007}' || c == '\u{2008}'
            ||| c == '\u{2009}' || c == '\u{200a}' || c == '\u{2028}' || c == '\u{2029}'
            ||| c == '\u{202f}' || c == '\u{205f}' || c == '\u{3000}'
        },
{
}

} // verus!
