//! Strings as sequences of characters: trimming, lower case, splitting and
//! the order in which tokens are kept.

use vstd::prelude::*;
use vstd::string::StringExecFns;

verus! {

/// Whether `c` has the Unicode property White_Space: the controls from tab
/// to carriage return, the space, next line, the no-break space and the
/// spaces and separators of the general punctuation block.
pub open spec fn is_whitespace(c: char) -> bool {
    let n = c as int;
    (0x9 <= n <= 0xD) || n == 0x20 || n == 0x85 || n == 0xA0 || n == 0x1680 || (0x2000 <= n
        <= 0x200A) || n == 0x2028 || n == 0x2029 || n == 0x202F || n == 0x205F || n == 0x3000
}

/// Every character is one of ASCII.
pub open spec fn is_ascii_text(s: Seq<char>) -> bool {
    forall|i: int| 0 <= i < s.len() ==> (#[trigger] s[i] as int) < 128
}

/// The character with `A` to `Z` replaced by `a` to `z`.
pub open spec fn ascii_lower_char(c: char) -> char {
    if 65 <= (c as int) <= 90 {
        ((c as int) + 32) as char
    } else {
        c
    }
}

/// The text with `A` to `Z` replaced by `a` to `z`.
pub open spec fn ascii_lowercase(s: Seq<char>) -> Seq<char> {
    Seq::new(s.len(), |i: int| ascii_lower_char(s[i]))
}

/// The lower-case form that `str::to_lowercase` gives to `s`.
pub uninterp spec fn lowercase_of(s: Seq<char>) -> Seq<char>;

/// `s` without its leading white space.
pub open spec fn trim_start(s: Seq<char>) -> Seq<char>
    decreases s.len(),
{
    if s.len() > 0 && is_whitespace(s.first()) {
        trim_start(s.drop_first())
    } else {
        s
    }
}

/// `s` without its trailing white space.
pub open spec fn trim_end(s: Seq<char>) -> Seq<char>
    decreases s.len(),
{
    if s.len() > 0 && is_whitespace(s.last()) {
        trim_end(s.drop_last())
    } else {
        s
    }
}

/// `s` without white space at either end.
pub open spec fn trimmed(s: Seq<char>) -> Seq<char> {
    trim_end(trim_start(s))
}

/// The form in which a token is compared and stored: trimmed, then lower case.
pub open spec fn normal_form(s: Seq<char>) -> Seq<char> {
    lowercase_of(trimmed(s))
}

/// The normal form of text in ASCII, written out: trimmed, then `A` to `Z`
/// replaced by `a` to `z`.
pub open spec fn ascii_normal_form(s: Seq<char>) -> Seq<char> {
    ascii_lowercase(trimmed(s))
}

/// Whether `t` is the normal form of some text.
pub open spec fn is_normal_form(t: Seq<char>) -> bool {
    exists|x: Seq<char>| #[trigger] normal_form(x) == t
}

/// A token that is written in its normal form for all to see: ASCII
/// without capital letters, not empty, with no white space at either end.
pub open spec fn is_plain_token(t: Seq<char>) -> bool {
    &&& t.len() > 0
    &&& is_ascii_text(t)
    &&& forall|i: int| 0 <= i < t.len() ==> !(65 <= (#[trigger] t[i] as int) <= 90)
    &&& !is_whitespace(t.first())
    &&& !is_whitespace(t.last())
}

/// The pieces of `s` between the occurrences of `sep`: one more piece than
/// there are separators, empty pieces included.
pub open spec fn split_on(s: Seq<char>, sep: char) -> Seq<Seq<char>>
    decreases s.len(),
{
    if s.len() == 0 {
        seq![Seq::<char>::empty()]
    } else {
        let rest = split_on(s.drop_last(), sep);
        if s.last() == sep {
            rest.push(Seq::<char>::empty())
        } else {
            rest.drop_last().push(rest.last().push(s.last()))
        }
    }
}

/// Lexicographic order by code point, the order of `str`.
pub open spec fn lex_less(a: Seq<char>, b: Seq<char>) -> bool
    decreases a.len(),
{
    if b.len() == 0 {
        false
    } else if a.len() == 0 {
        true
    } else if a.first() != b.first() {
        (a.first() as int) < (b.first() as int)
    } else {
        lex_less(a.drop_first(), b.drop_first())
    }
}

/// The texts one after the other, with `sep` between each two.
pub open spec fn joined_with(texts: Seq<Seq<char>>, sep: Seq<char>) -> Seq<char>
    decreases texts.len(),
{
    if texts.len() == 0 {
        Seq::<char>::empty()
    } else if texts.len() == 1 {
        texts[0]
    } else {
        joined_with(texts.drop_last(), sep) + sep + texts.last()
    }
}

/// The character sequences of a sequence of strings.
pub open spec fn views(v: Seq<String>) -> Seq<Seq<char>> {
    Seq::new(v.len(), |i: int| v[i]@)
}

/// `str::trim`: the slice of `s` that is left when the characters with the
/// property White_Space are taken away at both ends.
#[verifier::external_body]
pub(crate) fn trim<'a>(s: &'a str) -> (r: &'a str)
    ensures
        r@ == trimmed(s@),
{
    s.trim()
}

/// `str::to_lowercase`: the lower-case form of `s` as a new string. The form
/// is given its name. Of text in ASCII alone it is also stated: the Unicode
/// lower-case mapping takes `A` to `Z` to `a` to `z` and leaves every other
/// character of ASCII as it is.
#[verifier::external_body]
pub(crate) fn to_lowercase(s: &str) -> (r: String)
    ensures
        r@ == lowercase_of(s@),
        is_ascii_text(s@) ==> r@ == ascii_lowercase(s@),
{
    s.to_lowercase()
}

/// `str::split` with a character as the pattern: every piece between two
/// separators, in order, each copied into a string of its own.
#[verifier::external_body]
pub(crate) fn split_at_char(s: &str, sep: char) -> (parts: Vec<String>)
    ensures
        views(parts@) == split_on(s@, sep),
{
    s.split(sep).map(|piece| piece.to_string()).collect()
}

/// `==` on `str`: the two hold the same characters.
#[verifier::external_body]
pub(crate) fn str_eq(a: &str, b: &str) -> (r: bool)
    ensures
        r == (a@ == b@),
{
    a == b
}

/// `<` on `str`: std orders strings lexicographically by their bytes, which
/// for UTF-8 is the order of their code points.
#[verifier::external_body]
pub(crate) fn str_less(a: &str, b: &str) -> (r: bool)
    ensures
        r == lex_less(a@, b@),
{
    a < b
}

/// The normal form of a token: trimmed, then in lower case. For text in
/// ASCII the form is explicit.
pub fn normalize_token(raw: &str) -> (r: String)
    ensures
        r@ == normal_form(raw@),
        is_normal_form(r@),
        is_ascii_text(raw@) ==> r@ == ascii_normal_form(raw@),
        trimmed(raw@).len() == 0 ==> r@.len() == 0,
        is_plain_token(raw@) ==> r@ == raw@,
{
    let inner = trim(raw);
    proof {
        lemma_trimmed_keeps_ascii(raw@);
        if is_plain_token(raw@) {
            lemma_plain_token(raw@);
        }
    }
    let r = to_lowercase(inner);
    assert(normal_form(raw@) == r@);
    r
}

/// Writes the strings one after the other, with `sep` between each two.
pub fn join_strings(items: &Vec<String>, sep: &str) -> (r: String)
    ensures
        r@ == joined_with(views(items@), sep@),
{
    let n = items.len();
    if n == 0 {
        return String::new();
    }
    let ghost texts = views(items@);
    let mut out = items[0].clone();
    let mut i: usize = 1;
    assert(texts.take(1).len() == 1 && texts.take(1)[0] == texts[0]);
    while i < n
        invariant
            1 <= i <= n,
            n == items.len(),
            texts == views(items@),
            out@ == joined_with(texts.take(i as int), sep@),
        decreases n - i,
    {
        proof {
            assert(texts.take(i + 1).drop_last() =~= texts.take(i as int));
            assert(texts.take(i + 1).last() == texts[i as int]);
        }
        out.append(sep);
        out.append(items[i].as_str());
        i += 1;
    }
    assert(texts.take(n as int) =~= texts);
    out
}

/// What `trim_end` leaves is a prefix of its argument that does not end in
/// white space.
pub proof fn lemma_trim_end_shape(s: Seq<char>)
    ensures
        trim_end(s).len() <= s.len(),
        trim_end(s) == s.take(trim_end(s).len() as int),
        trim_end(s).len() > 0 ==> !is_whitespace(trim_end(s).last()),
    decreases s.len(),
{
    if s.len() > 0 && is_whitespace(s.last()) {
        lemma_trim_end_shape(s.drop_last());
        let t = trim_end(s.drop_last());
        assert(t == s.take(t.len() as int));
    } else {
        assert(s == s.take(s.len() as int));
    }
}

/// What `trim_start` leaves is a suffix of its argument that does not start
/// with white space.
pub proof fn lemma_trim_start_shape(s: Seq<char>)
    ensures
        trim_start(s).len() <= s.len(),
        trim_start(s) == s.skip(s.len() - trim_start(s).len()),
        trim_start(s).len() > 0 ==> !is_whitespace(trim_start(s).first()),
    decreases s.len(),
{
    if s.len() > 0 && is_whitespace(s.first()) {
        lemma_trim_start_shape(s.drop_first());
        let t = trim_start(s.drop_first());
        assert(t =~= s.skip(s.len() - t.len()));
    } else {
        assert(s =~= s.skip(0));
    }
}

/// Trimming text in ASCII leaves text in ASCII.
pub proof fn lemma_trimmed_keeps_ascii(s: Seq<char>)
    ensures
        is_ascii_text(s) ==> is_ascii_text(trimmed(s)),
{
    lemma_trim_start_shape(s);
    lemma_trim_end_shape(trim_start(s));
    let t = trimmed(s);
    let lead = s.len() - trim_start(s).len();
    if is_ascii_text(s) {
        assert forall|i: int| 0 <= i < t.len() implies (#[trigger] t[i] as int) < 128 by {
            assert(t[i] == trim_start(s)[i]);
            assert(trim_start(s)[i] == s[lead + i]);
        }
    }
}

/// A plain token is its own trimmed form and its own ASCII lower case.
pub proof fn lemma_plain_token(t: Seq<char>)
    requires
        is_plain_token(t),
    ensures
        trimmed(t) == t,
        ascii_lowercase(t) == t,
{
    assert(ascii_lowercase(t) =~= t);
}

/// Taking the written-out normal form twice is taking it once.
pub proof fn lemma_ascii_normal_form_idempotent(s: Seq<char>)
    ensures
        ascii_normal_form(ascii_normal_form(s)) == ascii_normal_form(s),
        is_ascii_text(s) ==> is_ascii_text(ascii_normal_form(s)),
{
    lemma_trimmed_ends(s);
    lemma_trimmed_keeps_ascii(s);
    let t = trimmed(s);
    let u = ascii_lowercase(t);
    if u.len() > 0 {
        assert(u.first() == ascii_lower_char(t.first()));
        assert(u.last() == ascii_lower_char(t.last()));
    }
    assert(trimmed(u) == u);
    assert(ascii_lowercase(u) =~= u);
    if is_ascii_text(s) {
        assert forall|i: int| 0 <= i < u.len() implies (#[trigger] u[i] as int) < 128 by {
            assert(u[i] == ascii_lower_char(t[i]));
        }
    }
}

/// Trimming brings in no character that was not there.
pub proof fn lemma_trimmed_within(s: Seq<char>, c: char)
    requires
        trimmed(s).contains(c),
    ensures
        s.contains(c),
{
    lemma_trim_start_shape(s);
    lemma_trim_end_shape(trim_start(s));
    let t = trimmed(s);
    let i = choose|i: int| 0 <= i < t.len() && t[i] == c;
    let lead = s.len() - trim_start(s).len();
    assert(t[i] == trim_start(s)[i]);
    assert(trim_start(s)[i] == s[lead + i]);
}

/// Splitting gives at least one piece, and no piece holds the separator.
pub proof fn lemma_split_pieces(s: Seq<char>, sep: char)
    ensures
        split_on(s, sep).len() >= 1,
        forall|i: int|
            0 <= i < split_on(s, sep).len() ==> !(#[trigger] split_on(s, sep)[i]).contains(sep),
    decreases s.len(),
{
    let pieces = split_on(s, sep);
    if s.len() > 0 {
        lemma_split_pieces(s.drop_last(), sep);
        let rest = split_on(s.drop_last(), sep);
        assert forall|i: int| 0 <= i < pieces.len() implies !(#[trigger] pieces[i]).contains(
            sep,
        ) by {
            if i < pieces.len() - 1 {
                assert(pieces[i] == rest[i]);
            } else if s.last() != sep {
                let grown = rest.last().push(s.last());
                assert(pieces[i] == grown);
                if grown.contains(sep) {
                    let k = choose|k: int| 0 <= k < grown.len() && grown[k] == sep;
                    assert(rest.last()[k] == sep);
                    assert(rest.last().contains(sep));
                }
            }
        }
    }
}

/// A trimmed string neither starts nor ends with white space.
pub proof fn lemma_trimmed_ends(s: Seq<char>)
    ensures
        trimmed(s).len() > 0 ==> !is_whitespace(trimmed(s).first()) && !is_whitespace(
            trimmed(s).last(),
        ),
{
    lemma_trim_start_shape(s);
    lemma_trim_end_shape(trim_start(s));
}

/// Trimming twice is trimming once.
pub proof fn lemma_trimmed_idempotent(s: Seq<char>)
    ensures
        trimmed(trimmed(s)) == trimmed(s),
{
    lemma_trimmed_ends(s);
}

/// A string without the separator is a single piece.
pub proof fn lemma_split_without_separator(s: Seq<char>, sep: char)
    requires
        !s.contains(sep),
    ensures
        split_on(s, sep) == seq![s],
    decreases s.len(),
{
    if s.len() > 0 {
        let init = s.drop_last();
        assert forall|c: char| init.contains(c) implies s.contains(c) by {
            let i = choose|i: int| 0 <= i < init.len() && init[i] == c;
            assert(s[i] == c);
        }
        lemma_split_without_separator(init, sep);
        assert(s[s.len() - 1] == s.last());
        assert(s.contains(s.last()));
        assert(seq![init].drop_last().push(init.push(s.last())) == seq![s]) by {
            assert(init.push(s.last()) == s);
            assert(seq![init].drop_last().push(s) =~= seq![s]);
        }
    } else {
        assert(s == Seq::<char>::empty());
    }
}

/// The order is transitive.
pub proof fn lemma_lex_transitive(a: Seq<char>, b: Seq<char>, c: Seq<char>)
    requires
        lex_less(a, b),
        lex_less(b, c),
    ensures
        lex_less(a, c),
    decreases a.len(),
{
    if a.len() > 0 && b.len() > 0 && c.len() > 0 {
        if a.first() == b.first() && b.first() == c.first() {
            lemma_lex_transitive(a.drop_first(), b.drop_first(), c.drop_first());
        }
    }
}

/// Of two different strings one is below the other.
pub proof fn lemma_lex_total(a: Seq<char>, b: Seq<char>)
    requires
        a != b,
    ensures
        lex_less(a, b) || lex_less(b, a),
    decreases a.len(),
{
    if a.len() > 0 && b.len() > 0 {
        if a.first() == b.first() {
            if a.drop_first() == b.drop_first() {
                assert(a =~= seq![a.first()] + a.drop_first());
                assert(b =~= seq![b.first()] + b.drop_first());
            }
            lemma_lex_total(a.drop_first(), b.drop_first());
        }
    } else if a.len() == 0 && b.len() == 0 {
        assert(a =~= b);
    }
}

} // verus!
