//! Text operations behind name search: normalisation of names and queries,
//! prefix tests and the order in which names are listed.
use vstd::prelude::*;

verus! {

/// What `str::to_lowercase` gives for a string (Unicode lower-case mapping,
/// including its context-dependent rules).
pub uninterp spec fn lowercase(s: Seq<char>) -> Seq<char>;

/// Lower-cases `s` with `str::to_lowercase`; the library calls it for text
/// that is not all ASCII.
/// Trusted: the result's characters are `lowercase` of the argument's characters.
#[verifier::external_body]
fn to_lowercase(s: &str) -> (lower: String)
    ensures
        lower@ == lowercase(s@),
{
    s.to_lowercase()
}

/// A string with every `-` taken out.
pub open spec fn without_dashes(s: Seq<char>) -> Seq<char> {
    s.filter(|c: char| c != '-')
}

/// Whether every character of `s` is ASCII.
pub open spec fn is_ascii_text(s: Seq<char>) -> bool {
    forall|i: int| 0 <= i < s.len() ==> (#[trigger] s[i] as int) < 128
}

/// The lower-case form of an ASCII character: `A`..`Z` become `a`..`z`,
/// every other character stays as it is.
pub open spec fn ascii_lower(c: char) -> char {
    if 'A' <= c && c <= 'Z' {
        ((c as int) + 32) as char
    } else {
        c
    }
}

/// What `str::to_lowercase` gives for `s`: on ASCII text, each character's
/// ASCII lower-case form; on other text, the Unicode mapping.
pub open spec fn lower_text(s: Seq<char>) -> Seq<char> {
    if is_ascii_text(s) {
        s.map_values(|c: char| ascii_lower(c))
    } else {
        lowercase(s)
    }
}

/// The form in which names and queries are compared: lower-cased, with the
/// dashes taken out.
pub open spec fn normalized(s: Seq<char>) -> Seq<char> {
    without_dashes(lower_text(s))
}

/// The lower-case form of an ASCII character.
fn lower_ascii_char(c: char) -> (lower: char)
    ensures
        lower == ascii_lower(c),
{
    if 'A' <= c && c <= 'Z' {
        ((c as u8) + 32) as char
    } else {
        c
    }
}

/// The characters of `s` other than `-`, in order.
pub fn strip_dashes(s: &str) -> (stripped: Vec<char>)
    ensures
        stripped@ == without_dashes(s@),
{
    let mut stripped: Vec<char> = Vec::new();
    for c in it: s.chars()
        invariant
            it.seq() == s@,
            stripped@ == without_dashes(s@.take(it.index() as int)),
    {
        proof {
            let k = it.index() as int;
            assert(s@.take(k + 1) == s@.take(k).push(c));
            s@.take(k).lemma_filter_push(c, |c: char| c != '-');
        }
        if c != '-' {
            stripped.push(c);
        }
    }
    assert(s@.take(s@.len() as int) == s@);
    stripped
}

/// The characters of `s`, lower-cased and without dashes.
pub fn normalize(s: &str) -> (norm: Vec<char>)
    ensures
        norm@ == normalized(s@),
{
    let ghost text = s@;
    let mut norm: Vec<char> = Vec::new();
    let mut ascii = true;
    for c in it: s.chars()
        invariant
            it.seq() == text,
            text == s@,
            ascii == is_ascii_text(text.take(it.index() as int)),
            ascii ==> norm@ == without_dashes(
                text.take(it.index() as int).map_values(|c: char| ascii_lower(c)),
            ),
    {
        let ghost k = it.index() as int;
        proof {
            assert(text.take(k + 1) == text.take(k).push(c));
            assert(text.take(k + 1).map_values(|c: char| ascii_lower(c)) =~= text.take(k).map_values(
                |c: char| ascii_lower(c),
            ).push(ascii_lower(c)));
            text.take(k).map_values(|c: char| ascii_lower(c)).lemma_filter_push(
                ascii_lower(c),
                |c: char| c != '-',
            );
            if is_ascii_text(text.take(k + 1)) {
                assert forall|i: int| 0 <= i < k implies (#[trigger] text.take(k)[i] as int) < 128 by {
                    assert(text.take(k)[i] == text.take(k + 1)[i]);
                }
                assert((text.take(k + 1)[k] as int) < 128);
            }
        }
        if c >= '\u{80}' {
            ascii = false;
        }
        if ascii {
            let lower = lower_ascii_char(c);
            if lower != '-' {
                norm.push(lower);
            }
        }
    }
    assert(text.take(text.len() as int) == text);
    if ascii {
        norm
    } else {
        let lower = to_lowercase(s);
        strip_dashes(lower.as_str())
    }
}

/// The characters of `s`, in order.
pub fn chars_of(s: &str) -> (chars: Vec<char>)
    ensures
        chars@ == s@,
{
    let mut chars: Vec<char> = Vec::new();
    for c in it: s.chars()
        invariant
            it.seq() == s@,
            chars@ == s@.take(it.index() as int),
    {
        proof {
            assert(s@.take(it.index() + 1) == s@.take(it.index() as int).push(c));
        }
        chars.push(c);
    }
    assert(s@.take(s@.len() as int) == s@);
    chars
}

/// Whether `prefix` is where `s` starts.
pub fn starts_with(s: &Vec<char>, prefix: &Vec<char>) -> (r: bool)
    ensures
        r == prefix@.is_prefix_of(s@),
{
    if prefix.len() > s.len() {
        return false;
    }
    let mut i: usize = 0;
    while i < prefix.len()
        invariant
            prefix.len() <= s.len(),
            i <= prefix.len(),
            forall|j: int| 0 <= j < i ==> prefix@[j] == s@[j],
        decreases prefix.len() - i,
    {
        if prefix[i] != s[i] {
            assert(prefix@[i as int] != s@.subrange(0, prefix@.len() as int)[i as int]);
            return false;
        }
        i = i + 1;
    }
    assert(prefix@ =~= s@.subrange(0, prefix@.len() as int));
    true
}

/// Whether `a` comes no later than `b` in the order of strings: character by
/// character by code point, a proper prefix first. For UTF-8 text this is the
/// order of `String`'s `Ord`, which compares the bytes.
pub open spec fn lex_le(a: Seq<char>, b: Seq<char>) -> bool
    decreases a.len(),
{
    if a.len() == 0 {
        true
    } else if b.len() == 0 {
        false
    } else if a[0] != b[0] {
        a[0] < b[0]
    } else {
        lex_le(a.drop_first(), b.drop_first())
    }
}

/// Every string comes no later than itself.
pub proof fn lemma_lex_le_reflexive(a: Seq<char>)
    ensures
        lex_le(a, a),
{
    lemma_lex_le_total(a, a);
}

/// Any two strings are ordered one way or the other.
pub proof fn lemma_lex_le_total(a: Seq<char>, b: Seq<char>)
    ensures
        lex_le(a, b) || lex_le(b, a),
    decreases a.len(),
{
    if a.len() > 0 && b.len() > 0 && a[0] == b[0] {
        lemma_lex_le_total(a.drop_first(), b.drop_first());
    }
}

/// The order of strings is transitive.
pub proof fn lemma_lex_le_transitive(a: Seq<char>, b: Seq<char>, c: Seq<char>)
    requires
        lex_le(a, b),
        lex_le(b, c),
    ensures
        lex_le(a, c),
    decreases a.len(),
{
    if a.len() > 0 && b.len() > 0 && c.len() > 0 && a[0] == b[0] && b[0] == c[0] {
        lemma_lex_le_transitive(a.drop_first(), b.drop_first(), c.drop_first());
    }
}

/// Strings that come no later than each other are equal.
#[verifier::spinoff_prover]
pub proof fn lemma_lex_le_antisymmetric(a: Seq<char>, b: Seq<char>)
    requires
        lex_le(a, b),
        lex_le(b, a),
    ensures
        a == b,
    decreases a.len(),
{
    if a.len() > 0 && b.len() > 0 {
        lemma_lex_le_antisymmetric(a.drop_first(), b.drop_first());
        assert(a =~= seq![a[0]] + a.drop_first());
        assert(b =~= seq![b[0]] + b.drop_first());
    }
}

/// Whether `a` comes no later than `b` in the order of strings.
pub fn le_by_chars(a: &Vec<char>, b: &Vec<char>) -> (r: bool)
    ensures
        r == lex_le(a@, b@),
{
    let mut i: usize = 0;
    assert(a@.skip(0) =~= a@ && b@.skip(0) =~= b@);
    while i < a.len() && i < b.len() && a[i] == b[i]
        invariant
            i <= a.len(),
            i <= b.len(),
            lex_le(a@, b@) == lex_le(a@.skip(i as int), b@.skip(i as int)),
        decreases a.len() - i,
    {
        proof {
            assert(a@.skip(i as int).drop_first() =~= a@.skip(i + 1));
            assert(b@.skip(i as int).drop_first() =~= b@.skip(i + 1));
        }
        i = i + 1;
    }
    if i == a.len() {
        true
    } else if i == b.len() {
        false
    } else {
        assert(a@.skip(i as int)[0] == a@[i as int] && b@.skip(i as int)[0] == b@[i as int]);
        a[i] < b[i]
    }
}

/// `a` and `b` agree before position `i`, where `a` has the smaller code point.
spec fn first_smaller_at(a: Seq<char>, b: Seq<char>, i: int) -> bool {
    0 <= i < a.len() && i < b.len() && a.subrange(0, i) == b.subrange(0, i) && (a[i] as int) < (
    b[i] as int)
}

/// `lex_le` holds where `a` is a prefix of `b` or first has the smaller
/// character.
proof fn lemma_lex_le_first_difference(a: Seq<char>, b: Seq<char>)
    ensures
        lex_le(a, b) <==> (a.is_prefix_of(b) || exists|i: int| first_smaller_at(a, b, i)),
    decreases a.len(),
{
    if a.len() == 0 {
        assert(a =~= b.subrange(0, 0));
    } else if b.len() == 0 {
    } else if a[0] != b[0] {
        assert(!a.is_prefix_of(b)) by {
            if a.is_prefix_of(b) {
                assert(a[0] == b.subrange(0, a.len() as int)[0]);
            }
        }
        assert(lex_le(a, b) == ((a[0] as int) < (b[0] as int)));
        if (a[0] as int) < (b[0] as int) {
            assert(a.subrange(0, 0) =~= b.subrange(0, 0));
            assert(first_smaller_at(a, b, 0));
        }
        assert forall|i: int| #[trigger] first_smaller_at(a, b, i) implies i == 0 && (a[0] as int) < (
        b[0] as int) by {
            if i > 0 {
                assert(a.subrange(0, i)[0] == b.subrange(0, i)[0]);
            }
        }
    } else {
        let ta = a.drop_first();
        let tb = b.drop_first();
        lemma_lex_le_first_difference(ta, tb);
        assert(a.is_prefix_of(b) == ta.is_prefix_of(tb)) by {
            if a.is_prefix_of(b) {
                assert(ta =~= tb.subrange(0, ta.len() as int)) by {
                    assert forall|j: int| 0 <= j < ta.len() implies ta[j] == tb[j] by {
                        assert(a[j + 1] == b.subrange(0, a.len() as int)[j + 1]);
                    }
                }
            }
            if ta.is_prefix_of(tb) {
                assert(a =~= b.subrange(0, a.len() as int)) by {
                    assert forall|j: int| 0 < j < a.len() implies a[j] == b[j] by {
                        assert(ta[j - 1] == tb.subrange(0, ta.len() as int)[j - 1]);
                    }
                }
            }
        }
        assert forall|i: int| #[trigger] first_smaller_at(a, b, i) implies first_smaller_at(ta, tb, i - 1) by {
            assert(i != 0);
            assert(ta.subrange(0, i - 1) =~= tb.subrange(0, i - 1)) by {
                assert forall|j: int| 0 <= j < i - 1 implies ta[j] == tb[j] by {
                    assert(a.subrange(0, i)[j + 1] == b.subrange(0, i)[j + 1]);
                }
            }
        }
        assert forall|i: int| #[trigger] first_smaller_at(ta, tb, i) implies first_smaller_at(a, b, i + 1) by {
            assert(a.subrange(0, i + 1) =~= b.subrange(0, i + 1)) by {
                assert forall|j: int| 0 < j < i + 1 implies a[j] == b[j] by {
                    assert(ta.subrange(0, i)[j - 1] == tb.subrange(0, i)[j - 1]);
                }
            }
        }
        if exists|i: int| first_smaller_at(ta, tb, i) {
            let i = choose|i: int| first_smaller_at(ta, tb, i);
            assert(first_smaller_at(a, b, i + 1));
        }
        if exists|i: int| first_smaller_at(a, b, i) {
            let i = choose|i: int| first_smaller_at(a, b, i);
            assert(first_smaller_at(ta, tb, i - 1));
        }
    }
}

/// Where `a` and `b` first differ: `a` comes no later than `b` exactly when it
/// is a prefix of `b`, or at the first position where they differ its
/// character has the smaller code point.
pub proof fn lemma_lex_le_is_code_point_order(a: Seq<char>, b: Seq<char>)
    ensures
        lex_le(a, b) <==> (a.is_prefix_of(b) || exists|i: int|
            0 <= i < a.len() && i < b.len() && a.subrange(0, i) == b.subrange(0, i) && (
            #[trigger] a[i] as int) < (b[i] as int)),
{
    lemma_lex_le_first_difference(a, b);
    if exists|i: int|
        0 <= i < a.len() && i < b.len() && a.subrange(0, i) == b.subrange(0, i) && (
        #[trigger] a[i] as int) < (b[i] as int) {
        let i = choose|i: int|
            0 <= i < a.len() && i < b.len() && a.subrange(0, i) == b.subrange(0, i) && (
            #[trigger] a[i] as int) < (b[i] as int);
        assert(first_smaller_at(a, b, i));
    }
    if exists|i: int| first_smaller_at(a, b, i) {
        let i = choose|i: int| first_smaller_at(a, b, i);
        assert(a[i] == a[i]);
    }
}

/// Single characters are ordered by code point.
pub proof fn lemma_lex_le_single_chars(x: char, y: char)
    ensures
        lex_le(seq![x], seq![y]) <==> (x as int) <= (y as int),
{
    lemma_lex_le_is_code_point_order(seq![x], seq![y]);
    if (x as int) < (y as int) {
        assert(seq![x].subrange(0, 0) =~= seq![y].subrange(0, 0));
    }
    if x == y {
        assert(seq![x] =~= seq![y].subrange(0, 1));
    }
    if seq![x].is_prefix_of(seq![y]) {
        assert(seq![x][0] == seq![y].subrange(0, 1)[0]);
    }
}

/// Lower-casing ASCII text and taking the dashes out keeps every other
/// character, in order, each with `A`..`Z` moved to `a`..`z` (code point plus
/// 32) and every other character as it was.
pub proof fn lemma_normalized_ascii(s: Seq<char>)
    requires
        forall|i: int| 0 <= i < s.len() ==> (#[trigger] s[i] as int) < 128,
    ensures
        ({
            let kept = s.filter(|c: char| c != '-');
            &&& normalized(s).len() == kept.len()
            &&& forall|i: int|
                0 <= i < kept.len() ==> (#[trigger] normalized(s)[i] as int) == if 65 <= (
                kept[i] as int) && (kept[i] as int) <= 90 {
                    (kept[i] as int) + 32
                } else {
                    kept[i] as int
                }
        }),
{
    lemma_lower_then_strip(s);
    let kept = s.filter(|c: char| c != '-');
    assert forall|i: int| 0 <= i < kept.len() implies (#[trigger] normalized(s)[i] as int) == if 65
        <= (kept[i] as int) && (kept[i] as int) <= 90 {
        (kept[i] as int) + 32
    } else {
        kept[i] as int
    } by {
        assert(normalized(s)[i] == ascii_lower(kept[i]));
    }
}

/// Taking the dashes out before or after lower-casing ASCII characters gives
/// the same.
proof fn lemma_lower_then_strip(s: Seq<char>)
    ensures
        without_dashes(s.map_values(|c: char| ascii_lower(c))) == s.filter(|c: char| c != '-').map_values(
            |c: char| ascii_lower(c),
        ),
    decreases s.len(),
{
    let lower = |c: char| ascii_lower(c);
    let not_dash = |c: char| c != '-';
    if s.len() == 0 {
        assert(s.map_values(lower) =~= Seq::<char>::empty());
        assert(s.filter(not_dash) =~= Seq::<char>::empty());
    } else {
        let init = s.drop_last();
        let c = s.last();
        lemma_lower_then_strip(init);
        assert(s =~= init.push(c));
        assert(s.map_values(lower) =~= init.map_values(lower).push(ascii_lower(c)));
        init.map_values(lower).lemma_filter_push(ascii_lower(c), not_dash);
        init.lemma_filter_push(c, not_dash);
        assert(init.filter(not_dash).push(c).map_values(lower) =~= init.filter(not_dash).map_values(
            lower,
        ).push(ascii_lower(c)));
    }
}

/// ASCII texts that differ only in the case of letters have the same
/// normalised form.
pub proof fn lemma_normalized_ignores_case(s: Seq<char>, t: Seq<char>)
    requires
        s.len() == t.len(),
        forall|i: int| 0 <= i < s.len() ==> (#[trigger] s[i] as int) < 128,
        forall|i: int| 0 <= i < t.len() ==> (#[trigger] t[i] as int) < 128,
        forall|i: int|
            0 <= i < s.len() ==> #[trigger] s[i] == t[i] || (65 <= (s[i] as int) <= 90 && (t[i] as int)
                == (s[i] as int) + 32) || (65 <= (t[i] as int) <= 90 && (s[i] as int) == (t[i] as int)
                + 32),
    ensures
        normalized(s) == normalized(t),
{
    assert(s.map_values(|c: char| ascii_lower(c)) =~= t.map_values(|c: char| ascii_lower(c))) by {
        assert forall|i: int| 0 <= i < s.len() implies ascii_lower(s[i]) == ascii_lower(t[i]) by {
            assert(s[i] == t[i] || (65 <= (s[i] as int) <= 90 && (t[i] as int) == (s[i] as int) + 32)
                || (65 <= (t[i] as int) <= 90 && (s[i] as int) == (t[i] as int) + 32));
        }
    }
}

/// ASCII text without dashes or capital letters is already in normalised form.
pub proof fn lemma_normal_text_is_fixed(s: Seq<char>)
    requires
        forall|i: int|
            0 <= i < s.len() ==> (#[trigger] s[i] as int) < 128 && s[i] != '-' && !(65 <= (
            s[i] as int) && (s[i] as int) <= 90),
    ensures
        normalized(s) == s,
{
    let not_dash = |c: char| c != '-';
    assert(s.filter(not_dash) == s) by {
        lemma_filter_keeps_all(s, not_dash);
    }
    lemma_normalized_ascii(s);
    assert(normalized(s) =~= s);
}

/// Filtering keeps a sequence whose every element passes.
proof fn lemma_filter_keeps_all(s: Seq<char>, keep: spec_fn(char) -> bool)
    requires
        forall|i: int| 0 <= i < s.len() ==> keep(#[trigger] s[i]),
    ensures
        s.filter(keep) == s,
    decreases s.len(),
{
    if s.len() > 0 {
        let init = s.drop_last();
        assert forall|i: int| 0 <= i < init.len() implies keep(#[trigger] init[i]) by {
            assert(init[i] == s[i]);
        }
        lemma_filter_keeps_all(init, keep);
        assert(s =~= init.push(s.last()));
        init.lemma_filter_push(s.last(), keep);
    } else {
        assert(s.filter(keep) =~= s);
    }
}

} // verus!
