//! The replacement of one piece of text by another, and the minifier made
//! of three such replacements, with what holds of it where texts are joined.

use vstd::prelude::*;
use vstd::string::*;

verus! {

/// The text `s` begins with the text `pat`.
pub open spec fn starts_with(s: Seq<char>, pat: Seq<char>) -> bool {
    pat.len() <= s.len() && s.subrange(0, pat.len() as int) == pat
}

/// The text `to` before each character of `s` and behind the last.
pub open spec fn around_each(s: Seq<char>, to: Seq<char>) -> Seq<char>
    decreases s.len(),
{
    if s.len() == 0 {
        to
    } else {
        to + seq![s[0]] + around_each(s.skip(1), to)
    }
}

/// The text `s` with each occurrence of `pat` replaced by `to`. Occurrences
/// are taken from left to right, and the search goes on behind each. The
/// empty text occurs before each character and behind the last.
pub open spec fn replaced(s: Seq<char>, pat: Seq<char>, to: Seq<char>) -> Seq<char>
    decreases s.len(),
{
    if pat.len() == 0 {
        around_each(s, to)
    } else if s.len() == 0 {
        s
    } else if starts_with(s, pat) {
        to + replaced(s.skip(pat.len() as int), pat, to)
    } else {
        seq![s[0]] + replaced(s.skip(1), pat, to)
    }
}

/// A text without its line feeds, then without its runs of four spaces, then
/// without the space behind each colon.
pub open spec fn minified(s: Seq<char>) -> Seq<char> {
    replaced(replaced(replaced(s, "\n"@, ""@), "    "@, ""@), ": "@, ":"@)
}

/// The characters of a text.
fn to_chars(text: &str) -> (chars: Vec<char>)
    ensures
        chars@ == text@,
{
    let mut chars: Vec<char> = Vec::new();
    for c in it: text.chars()
        invariant
            it.seq() == text@,
            chars@ == it.seq().take(it.index()),
    {
        chars.push(c);
        assert(chars@ =~= it.seq().take(it.index() + 1));
    }
    assert(chars@ =~= text@);
    chars
}

/// Whether `pat` stands in `s` at place `at`.
fn matches_at(s: &Vec<char>, at: usize, pat: &Vec<char>) -> (found: bool)
    requires
        at <= s@.len(),
    ensures
        found == starts_with(s@.skip(at as int), pat@),
{
    if pat.len() > s.len() - at {
        return false;
    }
    let mut n: usize = 0;
    while n < pat.len()
        invariant
            at + pat.len() <= s.len(),
            n <= pat.len(),
            forall|t: int| 0 <= t < n ==> s@[at + t] == pat@[t],
        decreases pat.len() - n,
    {
        if s[at + n] != pat[n] {
            assert(s@.skip(at as int).subrange(0, pat@.len() as int)[n as int] != pat@[n as int]);
            return false;
        }
        n += 1;
    }
    assert(s@.skip(at as int).subrange(0, pat@.len() as int) =~= pat@);
    true
}

/// The text with `to` before each of its characters and behind the last.
fn interleave(s: &Vec<char>, to: &str) -> (result: String)
    ensures
        result@ == around_each(s@, to@),
{
    let mut result = String::new();
    let mut at: usize = 0;
    assert(s@.skip(0) =~= s@);
    assert(Seq::<char>::empty() + around_each(s@, to@) =~= around_each(s@, to@));
    while at < s.len()
        invariant
            at <= s@.len(),
            result@ + around_each(s@.skip(at as int), to@) == around_each(s@, to@),
        decreases s@.len() - at,
    {
        let ghost rest = s@.skip(at as int);
        let ghost before = result@;
        result.append(to);
        result.push(s[at]);
        at += 1;
        assert(rest.skip(1) =~= s@.skip(at as int));
        assert(result@ + around_each(s@.skip(at as int), to@) =~= before + around_each(rest, to@));
    }
    result.append(to);
    result
}

/// The text with each occurrence of `from` replaced by `to`, from left to
/// right.
pub fn replace(text: &str, from: &str, to: &str) -> (result: String)
    ensures
        result@ == replaced(text@, from@, to@),
{
    let s = to_chars(text);
    let pat = to_chars(from);
    if pat.len() == 0 {
        return interleave(&s, to);
    }
    let mut result = String::new();
    let mut at: usize = 0;
    assert(s@.skip(0) =~= s@);
    assert(Seq::<char>::empty() + replaced(s@, pat@, to@) =~= replaced(s@, pat@, to@));
    while at < s.len()
        invariant
            at <= s@.len(),
            pat@.len() > 0,
            result@ + replaced(s@.skip(at as int), pat@, to@) == replaced(s@, pat@, to@),
        decreases s@.len() - at,
    {
        let ghost rest = s@.skip(at as int);
        let ghost before = result@;
        if matches_at(&s, at, &pat) {
            result.append(to);
            at += pat.len();
            assert(rest.skip(pat@.len() as int) =~= s@.skip(at as int));
            assert(result@ + replaced(s@.skip(at as int), pat@, to@) =~= before + replaced(
                rest,
                pat@,
                to@,
            ));
        } else {
            result.push(s[at]);
            at += 1;
            assert(rest.skip(1) =~= s@.skip(at as int));
            assert(result@ + replaced(s@.skip(at as int), pat@, to@) =~= before + replaced(
                rest,
                pat@,
                to@,
            ));
        }
    }
    assert(result@ + replaced(s@.skip(at as int), pat@, to@) =~= result@);
    result
}

/// The text without its line feeds, then without its runs of four spaces,
/// then without the space behind each colon.
pub fn minify(text: &str) -> (result: String)
    ensures
        result@ == minified(text@),
{
    proof {
        reveal_strlit("\n");
        reveal_strlit("    ");
        reveal_strlit(": ");
    }
    let step1 = replace(text, "\n", "");
    let step2 = replace(step1.as_str(), "    ", "");
    replace(step2.as_str(), ": ", ":")
}

/// A character that no step of the minifier looks at: neither a line feed
/// nor a space nor a colon.
pub open spec fn is_plain(c: char) -> bool {
    c != '\n' && c != ' ' && c != ':'
}

/// A text that the minifier leaves as it is, wherever it stands: it holds no
/// line feed, no colon and no two spaces in a row, and it begins and ends
/// with a plain character.
pub open spec fn is_calm(s: Seq<char>) -> bool {
    &&& s.len() > 0
    &&& is_plain(s[0])
    &&& is_plain(s.last())
    &&& forall|i: int|
        0 <= i < s.len() ==> s[i] != '\n' && s[i] != ':' && !(#[trigger] s[i] == ' ' && i + 1
            < s.len() && s[i + 1] == ' ')
}

/// To begin with `pat` is to hold its characters in the first places.
pub proof fn lemma_starts_with(s: Seq<char>, pat: Seq<char>)
    ensures
        starts_with(s, pat) <==> pat.len() <= s.len() && forall|j: int|
            0 <= j < pat.len() ==> s[j] == pat[j],
{
    if pat.len() <= s.len() {
        let head = s.subrange(0, pat.len() as int);
        if forall|j: int| 0 <= j < pat.len() ==> s[j] == pat[j] {
            assert(head =~= pat);
        }
        if head == pat {
            assert forall|j: int| 0 <= j < pat.len() implies s[j] == pat[j] by {
                assert(head[j] == s[j]);
            }
        }
    }
}

/// A text in which `pat` stands nowhere is left as it is.
pub proof fn lemma_replaced_untouched(s: Seq<char>, pat: Seq<char>, to: Seq<char>)
    requires
        pat.len() > 0,
        forall|i: int| 0 <= i < s.len() ==> !starts_with(#[trigger] s.skip(i), pat),
    ensures
        replaced(s, pat, to) == s,
    decreases s.len(),
{
    if s.len() > 0 {
        assert(s.skip(0) =~= s);
        let rest = s.skip(1);
        assert forall|i: int| 0 <= i < rest.len() implies !starts_with(
            #[trigger] rest.skip(i),
            pat,
        ) by {
            assert(rest.skip(i) =~= s.skip(i + 1));
        }
        lemma_replaced_untouched(rest, pat, to);
        assert(seq![s[0]] + rest =~= s);
    }
}

/// Where every occurrence of `pat` that begins in `a` also ends in it, the
/// replacement in `a + b` is that in `a` followed by that in `b`.
pub proof fn lemma_replaced_apart(a: Seq<char>, b: Seq<char>, pat: Seq<char>, to: Seq<char>)
    requires
        pat.len() > 0,
        forall|i: int|
            0 <= i < a.len() && starts_with(#[trigger] (a + b).skip(i), pat) ==> i + pat.len()
                <= a.len(),
    ensures
        replaced(a + b, pat, to) == replaced(a, pat, to) + replaced(b, pat, to),
    decreases a.len(),
{
    let s = a + b;
    let n = pat.len() as int;
    if a.len() == 0 {
        assert(s =~= b);
        assert(Seq::<char>::empty() + replaced(b, pat, to) =~= replaced(b, pat, to));
    } else {
        assert(s.skip(0) =~= s);
        lemma_starts_with(s, pat);
        lemma_starts_with(a, pat);
        if starts_with(s, pat) {
            let rest = a.skip(n);
            assert(s.skip(n) =~= rest + b);
            assert forall|i: int|
                0 <= i < rest.len() && starts_with(#[trigger] (rest + b).skip(i), pat) implies i
                + pat.len() <= rest.len() by {
                assert((rest + b).skip(i) =~= s.skip(n + i));
            }
            lemma_replaced_apart(rest, b, pat, to);
            assert(to + (replaced(rest, pat, to) + replaced(b, pat, to)) =~= to + replaced(
                rest,
                pat,
                to,
            ) + replaced(b, pat, to));
        } else {
            let rest = a.skip(1);
            assert(s.skip(1) =~= rest + b);
            assert forall|i: int|
                0 <= i < rest.len() && starts_with(#[trigger] (rest + b).skip(i), pat) implies i
                + pat.len() <= rest.len() by {
                assert((rest + b).skip(i) =~= s.skip(1 + i));
            }
            lemma_replaced_apart(rest, b, pat, to);
            assert(seq![s[0]] + (replaced(rest, pat, to) + replaced(b, pat, to)) =~= seq![a[0]]
                + replaced(rest, pat, to) + replaced(b, pat, to));
        }
    }
}

/// Where `a` ends with a character that `pat` does not hold, or `b` begins
/// with one, the replacement in `a + b` is that in `a` followed by that in
/// `b`.
pub proof fn lemma_replaced_at_border(a: Seq<char>, b: Seq<char>, pat: Seq<char>, to: Seq<char>)
    requires
        pat.len() > 0,
        a.len() == 0 || b.len() == 0 || !pat.contains(a.last()) || !pat.contains(b[0]),
    ensures
        replaced(a + b, pat, to) == replaced(a, pat, to) + replaced(b, pat, to),
{
    let s = a + b;
    assert forall|i: int|
        0 <= i < a.len() && starts_with(#[trigger] s.skip(i), pat) implies i + pat.len()
        <= a.len() by {
        lemma_starts_with(s.skip(i), pat);
        if i + pat.len() > a.len() {
            let last = a.len() - 1 - i;
            assert(s.skip(i)[last] == a.last());
            assert(pat[last] == a.last());
            assert(s.skip(i)[last + 1] == b[0]);
            assert(pat[last + 1] == b[0]);
        }
    }
    lemma_replaced_apart(a, b, pat, to);
}

/// A first character that `pat` does not hold stays the first.
pub proof fn lemma_replaced_keeps_first(s: Seq<char>, pat: Seq<char>, to: Seq<char>)
    requires
        pat.len() > 0,
        s.len() > 0,
        !pat.contains(s[0]),
    ensures
        replaced(s, pat, to).len() > 0,
        replaced(s, pat, to)[0] == s[0],
{
    lemma_starts_with(s, pat);
    assert(pat.contains(pat[0]));
}

/// A last character that `pat` does not hold stays the last.
pub proof fn lemma_replaced_keeps_last(s: Seq<char>, pat: Seq<char>, to: Seq<char>)
    requires
        pat.len() > 0,
        s.len() > 0,
        !pat.contains(s.last()),
    ensures
        replaced(s, pat, to).len() > 0,
        replaced(s, pat, to).last() == s.last(),
    decreases s.len(),
{
    lemma_starts_with(s, pat);
    let n = pat.len() as int;
    if starts_with(s, pat) {
        if n == s.len() {
            assert(pat[n - 1] == s.last());
            assert(pat.contains(pat[n - 1]));
        }
        let rest = s.skip(n);
        assert(rest.last() == s.last());
        lemma_replaced_keeps_last(rest, pat, to);
        let tail = replaced(rest, pat, to);
        assert((to + tail).last() == tail.last());
    } else if s.len() > 1 {
        let rest = s.skip(1);
        assert(rest.last() == s.last());
        lemma_replaced_keeps_last(rest, pat, to);
        let tail = replaced(rest, pat, to);
        assert((seq![s[0]] + tail).last() == tail.last());
    } else {
        assert(s.skip(1) =~= Seq::<char>::empty());
        assert(replaced(s.skip(1), pat, to) =~= Seq::<char>::empty());
        assert(seq![s[0]] + Seq::<char>::empty() =~= seq![s[0]]);
    }
}

/// What the three patterns of the minifier hold.
proof fn lemma_patterns()
    ensures
        "\n"@ == seq!['\n'],
        "    "@ == seq![' ', ' ', ' ', ' '],
        ": "@ == seq![':', ' '],
        ":"@ == seq![':'],
        ""@ == Seq::<char>::empty(),
        forall|c: char|
            is_plain(c) ==> !"\n"@.contains(c) && !"    "@.contains(c) && !": "@.contains(c),
{
    reveal_strlit("\n");
    reveal_strlit("    ");
    reveal_strlit(": ");
    reveal_strlit(":");
    reveal_strlit("");
    assert("\n"@ =~= seq!['\n']);
    assert("    "@ =~= seq![' ', ' ', ' ', ' ']);
    assert(": "@ =~= seq![':', ' ']);
    assert(":"@ =~= seq![':']);
    assert(""@ =~= Seq::<char>::empty());
}

/// Where `a` ends with a plain character, or `b` begins with one, the
/// minified `a + b` is the minified `a` followed by the minified `b`.
pub proof fn lemma_minified_at_border(a: Seq<char>, b: Seq<char>)
    requires
        a.len() == 0 || b.len() == 0 || is_plain(a.last()) || is_plain(b[0]),
    ensures
        minified(a + b) == minified(a) + minified(b),
{
    lemma_patterns();
    let a1 = replaced(a, "\n"@, ""@);
    let b1 = replaced(b, "\n"@, ""@);
    let a2 = replaced(a1, "    "@, ""@);
    let b2 = replaced(b1, "    "@, ""@);
    lemma_replaced_at_border(a, b, "\n"@, ""@);
    if a.len() > 0 && b.len() > 0 {
        if is_plain(a.last()) {
            lemma_replaced_keeps_last(a, "\n"@, ""@);
            lemma_replaced_keeps_last(a1, "    "@, ""@);
        } else {
            lemma_replaced_keeps_first(b, "\n"@, ""@);
            lemma_replaced_keeps_first(b1, "    "@, ""@);
        }
    }
    lemma_replaced_at_border(a1, b1, "    "@, ""@);
    lemma_replaced_at_border(a2, b2, ": "@, ":"@);
}

/// A calm text is left as it is.
pub proof fn lemma_minified_calm(s: Seq<char>)
    requires
        is_calm(s),
    ensures
        minified(s) == s,
{
    lemma_patterns();
    assert forall|i: int| 0 <= i < s.len() implies !starts_with(#[trigger] s.skip(i), "\n"@)
        && !starts_with(s.skip(i), "    "@) && !starts_with(s.skip(i), ": "@) by {
        let t = s.skip(i);
        lemma_starts_with(t, "\n"@);
        lemma_starts_with(t, "    "@);
        lemma_starts_with(t, ": "@);
        assert(t[0] == s[i]);
        if t.len() >= 2 {
            assert(t[1] == s[i + 1]);
        }
    }
    lemma_replaced_untouched(s, "\n"@, ""@);
    lemma_replaced_untouched(s, "    "@, ""@);
    lemma_replaced_untouched(s, ": "@, ":"@);
}

/// A text made of `pat` alone, once or twice, is replaced by `to`, once or
/// twice.
proof fn lemma_replaced_whole(pat: Seq<char>, to: Seq<char>)
    requires
        pat.len() > 0,
    ensures
        replaced(Seq::<char>::empty(), pat, to) == Seq::<char>::empty(),
        replaced(pat, pat, to) == to,
        replaced(pat + pat, pat, to) == to + to,
{
    let none = Seq::<char>::empty();
    assert(replaced(none, pat, to) == none);
    lemma_starts_with(pat, pat);
    assert(pat.skip(pat.len() as int) =~= none);
    assert(replaced(pat, pat, to) =~= to);
    lemma_starts_with(pat + pat, pat);
    assert((pat + pat).skip(pat.len() as int) =~= pat);
    assert(replaced(pat + pat, pat, to) =~= to + to);
}

/// A text that holds the first character of `pat` nowhere is left as it is.
proof fn lemma_replaced_without_first(s: Seq<char>, pat: Seq<char>, to: Seq<char>)
    requires
        pat.len() > 0,
        forall|i: int| 0 <= i < s.len() ==> s[i] != pat[0],
    ensures
        replaced(s, pat, to) == s,
{
    assert forall|i: int| 0 <= i < s.len() implies !starts_with(#[trigger] s.skip(i), pat) by {
        lemma_starts_with(s.skip(i), pat);
        assert(s.skip(i)[0] == s[i]);
    }
    lemma_replaced_untouched(s, pat, to);
}

/// A text shorter than `pat` is left as it is.
proof fn lemma_replaced_short(s: Seq<char>, pat: Seq<char>, to: Seq<char>)
    requires
        s.len() < pat.len(),
    ensures
        replaced(s, pat, to) == s,
{
    lemma_replaced_untouched(s, pat, to);
}

/// A line feed with spaces behind it, four or eight, is minified to nothing:
/// that is how the lines of a reply are laid out.
pub proof fn lemma_minified_indent()
    ensures
        minified("\n    "@) == Seq::<char>::empty(),
        minified("\n        "@) == Seq::<char>::empty(),
{
    lemma_patterns();
    reveal_strlit("\n    ");
    reveal_strlit("\n        ");
    let none = Seq::<char>::empty();
    let feed = "\n"@;
    let four = "    "@;
    let eight = four + four;
    let short = "\n    "@;
    let long = "\n        "@;
    assert(short =~= feed + four);
    assert(long =~= feed + eight);
    // the line feed goes
    lemma_replaced_whole(feed, none);
    lemma_replaced_without_first(four, feed, none);
    lemma_replaced_without_first(eight, feed, none);
    assert(!feed.contains(' '));
    lemma_replaced_at_border(feed, four, feed, none);
    lemma_replaced_at_border(feed, eight, feed, none);
    assert(replaced(short, feed, none) =~= four);
    assert(replaced(long, feed, none) =~= eight);
    // the spaces go, four at a time
    lemma_replaced_whole(four, none);
    assert(none + none =~= none);
    // and nothing is left for the colons
    lemma_replaced_whole(": "@, ":"@);
}

/// A colon with a space behind it is minified to the colon.
pub proof fn lemma_minified_colon()
    ensures
        minified(": "@) == ":"@,
{
    lemma_patterns();
    let s = ": "@;
    lemma_replaced_without_first(s, "\n"@, ""@);
    lemma_replaced_short(s, "    "@, ""@);
    lemma_replaced_whole(s, ":"@);
}

/// A comma with a space behind it is left as it is.
pub proof fn lemma_minified_comma()
    ensures
        minified(", "@) == ", "@,
{
    lemma_patterns();
    reveal_strlit(", ");
    let s = ", "@;
    lemma_replaced_without_first(s, "\n"@, ""@);
    lemma_replaced_short(s, "    "@, ""@);
    lemma_replaced_without_first(s, ": "@, ":"@);
}

} // verus!
