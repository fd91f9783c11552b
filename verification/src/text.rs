//! Character-level helpers: whitespace, trimming and word splitting over `Seq<char>`.

use vstd::prelude::*;
use vstd::string::StringExecFns;

verus! {

/// Appending one character, as `String::push` documents it: the text grows by
/// exactly that character at its end.
pub assume_specification[ String::push ](s: &mut String, c: char)
    ensures
        final(s)@ == old(s)@.push(c),
;

/// The characters with the Unicode `White_Space` property.
pub open spec fn is_whitespace(c: char) -> bool {
    let n = c as u32;
    ||| 0x09 <= n <= 0x0D
    ||| n == 0x20
    ||| n == 0x85
    ||| n == 0xA0
    ||| n == 0x1680
    ||| 0x2000 <= n <= 0x200A
    ||| n == 0x2028
    ||| n == 0x2029
    ||| n == 0x202F
    ||| n == 0x205F
    ||| n == 0x3000
}

/// Executable test for [`is_whitespace`].
pub fn is_whitespace_char(c: char) -> (r: bool)
    ensures
        r == is_whitespace(c),
{
    let n: u32 = c as u32;
    (0x09 <= n && n <= 0x0D) || n == 0x20 || n == 0x85 || n == 0xA0 || n == 0x1680 || (0x2000 <= n
        && n <= 0x200A) || n == 0x2028 || n == 0x2029 || n == 0x202F || n == 0x205F || n == 0x3000
}

/// Number of leading whitespace characters of `s`.
pub open spec fn leading_ws(s: Seq<char>) -> nat
    decreases s.len(),
{
    if s.len() > 0 && is_whitespace(s[0]) {
        1 + leading_ws(s.drop_first())
    } else {
        0
    }
}

/// Number of trailing whitespace characters of `s`.
pub open spec fn trailing_ws(s: Seq<char>) -> nat
    decreases s.len(),
{
    if s.len() > 0 && is_whitespace(s.last()) {
        1 + trailing_ws(s.drop_last())
    } else {
        0
    }
}

/// `s` without its leading and trailing whitespace.
pub open spec fn trim(s: Seq<char>) -> Seq<char> {
    let a = leading_ws(s);
    if a == s.len() {
        Seq::empty()
    } else {
        s.subrange(a as int, s.len() - trailing_ws(s))
    }
}

/// `leading_ws(s)` is the one count `a` whose first `a` characters are all
/// whitespace and which stops at the end or at a character that is not.
pub proof fn lemma_leading_ws(s: Seq<char>, a: int)
    requires
        0 <= a <= s.len(),
        forall|i: int| 0 <= i < a ==> is_whitespace(#[trigger] s[i]),
        a < s.len() ==> !is_whitespace(s[a]),
    ensures
        leading_ws(s) == a,
    decreases a,
{
    if a > 0 {
        let t = s.drop_first();
        assert forall|i: int| 0 <= i < a - 1 implies is_whitespace(#[trigger] t[i]) by {
            assert(t[i] == s[i + 1]);
        }
        lemma_leading_ws(t, a - 1);
    }
}

/// The mirror image of [`lemma_leading_ws`] for the end of the text.
pub proof fn lemma_trailing_ws(s: Seq<char>, b: int)
    requires
        0 <= b <= s.len(),
        forall|i: int| b <= i < s.len() ==> is_whitespace(#[trigger] s[i]),
        b > 0 ==> !is_whitespace(s[b - 1]),
    ensures
        trailing_ws(s) == s.len() - b,
    decreases s.len() - b,
{
    if b < s.len() {
        let t = s.drop_last();
        assert forall|i: int| b <= i < t.len() implies is_whitespace(#[trigger] t[i]) by {
            assert(t[i] == s[i]);
        }
        lemma_trailing_ws(t, b);
    }
}

/// What the two counts say about the characters of `s`.
pub proof fn lemma_ws_counts(s: Seq<char>)
    ensures
        leading_ws(s) <= s.len(),
        trailing_ws(s) <= s.len(),
        forall|i: int| 0 <= i < leading_ws(s) ==> is_whitespace(#[trigger] s[i]),
        forall|i: int| s.len() - trailing_ws(s) <= i < s.len() ==> is_whitespace(#[trigger] s[i]),
        leading_ws(s) < s.len() ==> !is_whitespace(s[leading_ws(s) as int]),
        trailing_ws(s) < s.len() ==> !is_whitespace(s[s.len() - trailing_ws(s) - 1]),
        leading_ws(s) < s.len() ==> leading_ws(s) + trailing_ws(s) < s.len(),
        leading_ws(s) == s.len() <==> trailing_ws(s) == s.len(),
    decreases s.len(),
{
    if s.len() > 0 {
        let t = s.drop_first();
        let u = s.drop_last();
        lemma_ws_counts(t);
        lemma_ws_counts(u);
        if is_whitespace(s[0]) {
            assert forall|i: int| 0 <= i < leading_ws(s) implies is_whitespace(#[trigger] s[i]) by {
                if i > 0 {
                    assert(s[i] == t[i - 1]);
                }
            }
            if leading_ws(s) < s.len() {
                assert(s[leading_ws(s) as int] == t[leading_ws(t) as int]);
            }
        }
        if is_whitespace(s.last()) {
            assert forall|i: int| s.len() - trailing_ws(s) <= i < s.len() implies is_whitespace(
                #[trigger] s[i],
            ) by {
                if i < s.len() - 1 {
                    assert(s[i] == u[i]);
                }
            }
            if trailing_ws(s) < s.len() {
                assert(s[s.len() - trailing_ws(s) - 1] == u[u.len() - trailing_ws(u) - 1]);
            }
        }
    }
}

/// Trimming leaves nothing exactly when every character is whitespace; what it
/// leaves starts and ends with a character that is not.
pub proof fn lemma_trim_shape(s: Seq<char>)
    ensures
        trim(s).len() == 0 <==> leading_ws(s) == s.len(),
        trim(s).len() > 0 ==> !is_whitespace(trim(s)[0]) && !is_whitespace(trim(s).last()),
        trim(s).len() <= s.len(),
{
    lemma_ws_counts(s);
}

/// Whether `s` holds whitespace only.
pub open spec fn is_blank(s: Seq<char>) -> bool {
    forall|i: int| 0 <= i < s.len() ==> is_whitespace(#[trigger] s[i])
}

/// A text trims to nothing exactly when it is blank.
pub proof fn lemma_trim_blank(s: Seq<char>)
    ensures
        is_blank(s) <==> trim(s).len() == 0,
{
    lemma_ws_counts(s);
    if is_blank(s) {
        lemma_leading_ws(s, s.len() as int);
    }
}

/// Whitespace in front of a text and behind it is trimmed away with the
/// text's own.
pub proof fn lemma_trim_padded(before: Seq<char>, s: Seq<char>, after: Seq<char>)
    requires
        is_blank(before),
        is_blank(after),
    ensures
        trim(before + s + after) == trim(s),
{
    let all = before + s + after;
    lemma_ws_counts(s);
    lemma_trim_blank(s);
    if is_blank(s) {
        assert(is_blank(all)) by {
            assert forall|i: int| 0 <= i < all.len() implies is_whitespace(#[trigger] all[i]) by {
                if i < before.len() {
                    assert(all[i] == before[i]);
                } else if i < before.len() + s.len() {
                    assert(all[i] == s[i - before.len()]);
                } else {
                    assert(all[i] == after[i - before.len() - s.len()]);
                }
            }
        }
        lemma_trim_blank(all);
        assert(trim(all) =~= trim(s));
    } else {
        let a = leading_ws(s) as int;
        let b = s.len() - trailing_ws(s);
        assert forall|i: int| 0 <= i < before.len() + a implies is_whitespace(#[trigger] all[i]) by {
            if i < before.len() {
                assert(all[i] == before[i]);
            } else {
                assert(all[i] == s[i - before.len()]);
            }
        }
        assert(all[before.len() + a] == s[a]);
        lemma_leading_ws(all, before.len() + a);
        assert forall|i: int| before.len() + b <= i < all.len() implies is_whitespace(
            #[trigger] all[i],
        ) by {
            if i < before.len() + s.len() {
                assert(all[i] == s[i - before.len()]);
            } else {
                assert(all[i] == after[i - before.len() - s.len()]);
            }
        }
        assert(all[before.len() + b - 1] == s[b - 1]);
        lemma_trailing_ws(all, before.len() + b);
        assert(trim(all) =~= trim(s));
    }
}

/// A text is its trimmed form with blanks around it.
pub proof fn lemma_trim_parts(s: Seq<char>)
    ensures
        ({
            let a = leading_ws(s) as int;
            let b = if a == s.len() { a } else { s.len() - trailing_ws(s) };
            &&& 0 <= a <= b <= s.len()
            &&& is_blank(s.take(a))
            &&& is_blank(s.skip(b))
            &&& s == s.take(a) + trim(s) + s.skip(b)
        }),
{
    lemma_ws_counts(s);
    let a = leading_ws(s) as int;
    let b = if a == s.len() { a } else { s.len() - trailing_ws(s) };
    assert(is_blank(s.take(a))) by {
        assert forall|i: int| 0 <= i < s.take(a).len() implies is_whitespace(
            #[trigger] s.take(a)[i],
        ) by {
            assert(s.take(a)[i] == s[i]);
        }
    }
    assert(is_blank(s.skip(b))) by {
        assert forall|i: int| 0 <= i < s.skip(b).len() implies is_whitespace(
            #[trigger] s.skip(b)[i],
        ) by {
            assert(s.skip(b)[i] == s[b + i]);
        }
    }
    assert(s =~= s.take(a) + trim(s) + s.skip(b));
}

/// The bounds of the trimmed part of `chars`: `chars[a..b]` is `trim(chars)`.
pub fn trim_bounds(chars: &Vec<char>) -> (r: (usize, usize))
    ensures
        r.0 <= r.1 <= chars.len(),
        chars@.subrange(r.0 as int, r.1 as int) == trim(chars@),
{
    let n = chars.len();
    let mut a: usize = 0;
    while a < n && is_whitespace_char(chars[a])
        invariant
            a <= n,
            n == chars.len(),
            forall|i: int| 0 <= i < a ==> is_whitespace(#[trigger] chars@[i]),
        decreases n - a,
    {
        a += 1;
    }
    proof {
        lemma_leading_ws(chars@, a as int);
    }
    if a == n {
        assert(chars@.subrange(a as int, a as int) =~= Seq::<char>::empty());
        return (a, a);
    }
    let mut b: usize = n;
    while b > a && is_whitespace_char(chars[b - 1])
        invariant
            a <= b <= n,
            a < n,
            n == chars.len(),
            !is_whitespace(chars@[a as int]),
            forall|i: int| b <= i < n ==> is_whitespace(#[trigger] chars@[i]),
        decreases b,
    {
        b -= 1;
    }
    proof {
        lemma_trailing_ws(chars@, b as int);
    }
    (a, b)
}

/// The characters `chars[from..to]` as a `String`.
pub fn string_from_chars(chars: &Vec<char>, from: usize, to: usize) -> (out: String)
    requires
        from <= to <= chars.len(),
    ensures
        out@ == chars@.subrange(from as int, to as int),
{
    let mut out = String::new();
    let mut i: usize = from;
    while i < to
        invariant
            from <= i <= to <= chars.len(),
            out@ == chars@.subrange(from as int, i as int),
        decreases to - i,
    {
        out.push(chars[i]);
        i += 1;
        assert(chars@.subrange(from as int, i as int) =~= chars@.subrange(from as int, i - 1).push(
            chars@[i - 1],
        ));
    }
    assert(chars@.subrange(from as int, from as int) =~= Seq::<char>::empty());
    out
}

/// The characters of `text`, in order.
pub fn collect_chars(text: &str) -> (out: Vec<char>)
    ensures
        out@ == text@,
{
    let mut out: Vec<char> = Vec::new();
    for c in it: text.chars()
        invariant
            out@ == it.seq().take(it.index@),
    {
        out.push(c);
    }
    out
}

/// The word that ends where whitespace or the end of the text is reached:
/// `cur` itself, or nothing when no character has been collected.
pub open spec fn end_word(cur: Seq<char>) -> Seq<Seq<char>> {
    if cur.len() == 0 {
        Seq::empty()
    } else {
        seq![cur]
    }
}

/// The words of `s` from position `i` on, where `cur` holds the characters of
/// the word that is being read.
pub open spec fn words_from(s: Seq<char>, i: int, cur: Seq<char>) -> Seq<Seq<char>>
    decreases s.len() - i,
{
    if i < 0 || i >= s.len() {
        end_word(cur)
    } else if is_whitespace(s[i]) {
        end_word(cur) + words_from(s, i + 1, Seq::empty())
    } else {
        words_from(s, i + 1, cur.push(s[i]))
    }
}

/// The maximal runs of characters of `s` that are not whitespace, in order.
pub open spec fn words(s: Seq<char>) -> Seq<Seq<char>> {
    words_from(s, 0, Seq::empty())
}

/// A word: at least one character, none of them whitespace.
pub open spec fn is_word(w: Seq<char>) -> bool {
    w.len() > 0 && forall|k: int| 0 <= k < w.len() ==> !is_whitespace(#[trigger] w[k])
}

/// Every item of `words_from` is a word, given that the word being read holds
/// no whitespace.
pub proof fn lemma_words_from_solid(s: Seq<char>, i: int, cur: Seq<char>)
    requires
        forall|k: int| 0 <= k < cur.len() ==> !is_whitespace(#[trigger] cur[k]),
    ensures
        forall|j: int| 0 <= j < words_from(s, i, cur).len() ==> is_word(#[trigger] words_from(s, i, cur)[j]),
    decreases s.len() - i,
{
    let all = words_from(s, i, cur);
    assert(is_word(cur) || cur.len() == 0);
    if i < 0 || i >= s.len() {
        assert(all == end_word(cur));
        assert forall|j: int| 0 <= j < all.len() implies is_word(#[trigger] all[j]) by {
            assert(all[j] == cur);
        }
    } else if is_whitespace(s[i]) {
        lemma_words_from_solid(s, i + 1, Seq::empty());
        let head = end_word(cur);
        let tail = words_from(s, i + 1, Seq::empty());
        assert(all == head + tail);
        assert forall|j: int| 0 <= j < all.len() implies is_word(#[trigger] all[j]) by {
            if j >= head.len() {
                assert(all[j] == tail[j - head.len()]);
            } else {
                assert(all[j] == cur);
            }
        }
    } else {
        let next = cur.push(s[i]);
        assert forall|k: int| 0 <= k < next.len() implies !is_whitespace(#[trigger] next[k]) by {
            if k < cur.len() {
                assert(next[k] == cur[k]);
            }
        }
        lemma_words_from_solid(s, i + 1, next);
        assert(all == words_from(s, i + 1, next));
    }
}

/// Every item of `words(s)` has at least one character and no whitespace.
pub proof fn lemma_words_solid(s: Seq<char>)
    ensures
        forall|j: int| 0 <= j < words(s).len() ==> is_word(#[trigger] words(s)[j]),
{
    lemma_words_from_solid(s, 0, Seq::empty());
}

/// A word that is being read is a word of the text.
pub proof fn lemma_words_from_some(s: Seq<char>, i: int, cur: Seq<char>)
    requires
        cur.len() > 0,
    ensures
        words_from(s, i, cur).len() > 0,
    decreases s.len() - i,
{
    if i < 0 || i >= s.len() {
    } else if is_whitespace(s[i]) {
    } else {
        lemma_words_from_some(s, i + 1, cur.push(s[i]));
    }
}

/// A text that starts with a character that is not whitespace has a word.
pub proof fn lemma_first_word(s: Seq<char>)
    requires
        s.len() > 0,
        !is_whitespace(s[0]),
    ensures
        words(s).len() > 0,
{
    lemma_words_from_some(s, 1, Seq::<char>::empty().push(s[0]));
}

/// Ends the word being read: appends it to `out` unless it is empty.
fn push_word(out: &mut Vec<String>, cur: &Vec<char>)
    ensures
        final(out).deep_view() == old(out).deep_view() + end_word(cur@),
{
    if cur.len() > 0 {
        let word = string_from_chars(cur, 0, cur.len());
        assert(cur@.subrange(0, cur.len() as int) =~= cur@);
        out.push(word);
    }
    assert(out.deep_view() =~= old(out).deep_view() + end_word(cur@));
}

/// Splits `text` at whitespace into its words.
pub fn split_whitespace(text: &str) -> (out: Vec<String>)
    ensures
        out.deep_view() == words(text@),
{
    let chars = collect_chars(text);
    let n = chars.len();
    let mut out: Vec<String> = Vec::new();
    let mut cur: Vec<char> = Vec::new();
    let mut i: usize = 0;
    assert(out.deep_view() =~= Seq::<Seq<char>>::empty());
    while i < n
        invariant
            i <= n,
            n == chars.len(),
            chars@ == text@,
            out.deep_view() + words_from(text@, i as int, cur@) == words(text@),
        decreases n - i,
    {
        let ghost before = out.deep_view();
        let ghost rest = words_from(text@, i as int, cur@);
        let c = chars[i];
        if is_whitespace_char(c) {
            push_word(&mut out, &cur);
            cur = Vec::new();
            i += 1;
            assert(out.deep_view() + words_from(text@, i as int, cur@) =~= before + rest);
        } else {
            cur.push(c);
            i += 1;
        }
    }
    push_word(&mut out, &cur);
    out
}

/// `parts` written one after another with `sep` between neighbours.
pub open spec fn join(parts: Seq<Seq<char>>, sep: Seq<char>) -> Seq<char>
    decreases parts.len(),
{
    if parts.len() == 0 {
        Seq::empty()
    } else if parts.len() == 1 {
        parts[0]
    } else {
        join(parts.drop_last(), sep) + sep + parts.last()
    }
}

/// Joins `parts` with `sep` between neighbours.
pub fn join_strings(parts: &Vec<String>, sep: &str) -> (out: String)
    ensures
        out@ == join(parts.deep_view(), sep@),
{
    let mut out = String::new();
    let mut i: usize = 0;
    while i < parts.len()
        invariant
            i <= parts.len(),
            out@ == join(parts.deep_view().take(i as int), sep@),
        decreases parts.len() - i,
    {
        let ghost prefix = parts.deep_view().take(i as int);
        let ghost next = parts.deep_view().take(i + 1);
        assert(next.drop_last() =~= prefix);
        assert(next.last() == parts[i as int]@);
        if i > 0 {
            out.append(sep);
        }
        out.append(parts[i].as_str());
        assert(out@ =~= join(next, sep@));
        i += 1;
    }
    assert(parts.deep_view().take(parts.len() as int) =~= parts.deep_view());
    out
}

} // verus!
