//! Package-name canonicalization and validation.
//!
//! A package identity is a string of the form `apertium-<code>` or
//! `apertium-<code1>-<code2>`, where a code is two or three word characters
//! optionally followed by an underscore and at least one more word character
//! (a word character being an ASCII letter, an ASCII digit or `_`).
//! Raw names arriving at the service boundary are canonicalized once, by
//! prefixing `apertium-` when it is missing; the rest of the crate only ever
//! sees canonical names.

use vstd::prelude::*;

verus! {

/// The canonical prefix carried by every package identity.
pub open spec fn prefix_spec() -> Seq<char> {
    "apertium-"@
}

/// Whether `name` already starts with the canonical prefix.
pub open spec fn has_prefix_spec(name: Seq<char>) -> bool {
    name.len() >= 9 && name.subrange(0, 9) == prefix_spec()
}

/// The canonical form of a raw name: the name itself when it already starts
/// with `apertium-`, otherwise the name with that prefix put on.
pub open spec fn normalized_spec(name: Seq<char>) -> Seq<char> {
    if has_prefix_spec(name) {
        name
    } else {
        prefix_spec() + name
    }
}

fn has_prefix(name: &str) -> (b: bool)
    ensures
        b == has_prefix_spec(name@),
{
    proof {
        reveal_strlit("apertium-");
    }
    let p: &str = "apertium-";
    let n = name.unicode_len();
    if n < 9 {
        return false;
    }
    let mut i: usize = 0;
    while i < 9
        invariant
            name@.len() >= 9,
            i <= 9,
            p@ == prefix_spec(),
            prefix_spec().len() == 9,
            forall|j: int| 0 <= j < i ==> name@[j] == prefix_spec()[j],
        decreases 9 - i,
    {
        if name.get_char(i) != p.get_char(i) {
            proof {
                assert(name@.subrange(0, 9)[i as int] != prefix_spec()[i as int]);
            }
            return false;
        }
        i += 1;
    }
    proof {
        assert(name@.subrange(0, 9) =~= prefix_spec());
    }
    true
}

/// Canonicalizes a raw package name, applied once at the service boundary.
pub fn normalize_name(name: &str) -> (r: String)
    ensures
        r@ == normalized_spec(name@),
{
    if has_prefix(name) {
        name.to_owned()
    } else {
        let prefixed: String = "apertium-".to_owned();
        prefixed.concat(name)
    }
}

/// Character-by-character string comparison, so that equality of the views is
/// what the result reports.
pub fn str_eq(a: &str, b: &str) -> (r: bool)
    ensures
        r == (a@ == b@),
{
    let la = a.unicode_len();
    let lb = b.unicode_len();
    if la != lb {
        return false;
    }
    let mut i: usize = 0;
    while i < la
        invariant
            i <= la,
            la == a@.len(),
            la == b@.len(),
            forall|j: int| 0 <= j < i ==> a@[j] == b@[j],
        decreases la - i,
    {
        if a.get_char(i) != b.get_char(i) {
            return false;
        }
        i += 1;
    }
    proof {
        assert(a@ =~= b@);
    }
    true
}

/// A word character: an ASCII letter, an ASCII digit or an underscore.
pub open spec fn is_word_char(c: char) -> bool {
    ('a' <= c && c <= 'z') || ('A' <= c && c <= 'Z') || ('0' <= c && c <= '9') || c == '_'
}

/// Every character of `s` is a word character.
pub open spec fn all_word_chars(s: Seq<char>) -> bool {
    forall|i: int| 0 <= i < s.len() ==> is_word_char(#[trigger] s[i])
}

/// A language code split at position `i`: `i` word characters followed either
/// by nothing or by an underscore and at least one more word character.
pub open spec fn code_split_at(s: Seq<char>, i: int) -> bool {
    i <= s.len() && all_word_chars(s.subrange(0, i)) && (i == s.len() || (s.len() >= i + 2 && s[i]
        == '_' && all_word_chars(s.subrange(i + 1, s.len() as int))))
}

/// A language code: two or three word characters, optionally followed by an
/// underscore and at least one more word character.
pub open spec fn is_lang_code(s: Seq<char>) -> bool {
    exists|i: int| 2 <= i <= 3 && #[trigger] code_split_at(s, i)
}

/// A valid package identity: `apertium-` followed by one language code, or by
/// two language codes joined with `-`.
pub open spec fn is_valid_name(s: Seq<char>) -> bool {
    s.len() > 9 && s.subrange(0, 9) == prefix_spec() && (is_lang_code(
        s.subrange(9, s.len() as int),
    ) || (exists|j: int|
        9 <= j < s.len() && #[trigger] s[j] == '-' && is_lang_code(s.subrange(9, j))
            && is_lang_code(s.subrange(j + 1, s.len() as int))))
}

proof fn lemma_code_cases(s: Seq<char>)
    ensures
        is_lang_code(s) == (code_split_at(s, 2) || code_split_at(s, 3)),
{
    if is_lang_code(s) {
        let i = choose|i: int| 2 <= i <= 3 && #[trigger] code_split_at(s, i);
        assert(i == 2 || i == 3);
    }
}

/// No language code contains a dash: every position holds a word character or
/// an underscore.
proof fn lemma_code_no_dash(s: Seq<char>, k: int)
    requires
        is_lang_code(s),
        0 <= k < s.len(),
    ensures
        s[k] != '-',
{
    let i = choose|i: int| 2 <= i <= 3 && #[trigger] code_split_at(s, i);
    if k < i {
        assert(is_word_char(s.subrange(0, i)[k]));
    } else if k > i {
        assert(is_word_char(s.subrange(i + 1, s.len() as int)[k - i - 1]));
    }
}

fn word_char(c: char) -> (b: bool)
    ensures
        b == is_word_char(c),
{
    ('a' <= c && c <= 'z') || ('A' <= c && c <= 'Z') || ('0' <= c && c <= '9') || c == '_'
}

fn all_word(name: &str, from: usize, to: usize) -> (b: bool)
    requires
        from <= to <= name@.len(),
    ensures
        b == all_word_chars(name@.subrange(from as int, to as int)),
{
    let ghost s = name@.subrange(from as int, to as int);
    let mut i: usize = from;
    while i < to
        invariant
            from <= i <= to <= name@.len(),
            s == name@.subrange(from as int, to as int),
            forall|k: int| from <= k < i ==> is_word_char(#[trigger] name@[k]),
        decreases to - i,
    {
        if !word_char(name.get_char(i)) {
            proof {
                assert(s[i - from] == name@[i as int]);
            }
            return false;
        }
        i += 1;
    }
    proof {
        assert forall|k: int| 0 <= k < s.len() implies is_word_char(#[trigger] s[k]) by {
            assert(s[k] == name@[from + k]);
        }
    }
    true
}

fn check_split(name: &str, from: usize, to: usize, i: usize) -> (b: bool)
    requires
        from <= to <= name@.len(),
        i == 2 || i == 3,
    ensures
        b == code_split_at(name@.subrange(from as int, to as int), i as int),
{
    let ghost s = name@.subrange(from as int, to as int);
    let n = to - from;
    if n < i {
        return false;
    }
    let head_ok = all_word(name, from, from + i);
    proof {
        assert(name@.subrange(from as int, from as int + i) =~= s.subrange(0, i as int));
    }
    if !head_ok {
        return false;
    }
    if n == i {
        return true;
    }
    if n < i + 2 {
        return false;
    }
    if name.get_char(from + i) != '_' {
        proof {
            assert(s[i as int] == name@[from + i]);
        }
        return false;
    }
    let tail_ok = all_word(name, from + i + 1, to);
    proof {
        assert(s[i as int] == name@[from + i]);
        assert(name@.subrange(from + i + 1, to as int) =~= s.subrange(
            i as int + 1,
            s.len() as int,
        ));
    }
    tail_ok
}

fn check_code(name: &str, from: usize, to: usize) -> (b: bool)
    requires
        from <= to <= name@.len(),
    ensures
        b == is_lang_code(name@.subrange(from as int, to as int)),
{
    proof {
        lemma_code_cases(name@.subrange(from as int, to as int));
    }
    let two = check_split(name, from, to, 2);
    let three = check_split(name, from, to, 3);
    two || three
}

/// Whether a canonical name is a valid package identity: `apertium-` and one
/// language code, or two codes joined with `-`, with word characters drawn
/// from the ASCII range.
pub fn match_name(name: &str) -> (b: bool)
    ensures
        b == is_valid_name(name@),
{
    if !has_prefix(name) {
        return false;
    }
    let n = name.unicode_len();
    let mut first_dash: usize = 0;
    let mut second_dash: usize = 0;
    let mut dash_count: usize = 0;
    let mut i: usize = 9;
    while i < n
        invariant
            9 <= i <= n,
            n == name@.len(),
            dash_count <= i - 9,
            dash_count == 0 ==> forall|k: int| 9 <= k < i ==> name@[k] != '-',
            dash_count >= 1 ==> 9 <= first_dash < i && name@[first_dash as int] == '-',
            dash_count == 1 ==> forall|k: int|
                9 <= k < i && k != first_dash ==> name@[k] != '-',
            dash_count >= 2 ==> first_dash < second_dash < i && name@[second_dash as int] == '-',
        decreases n - i,
    {
        if name.get_char(i) == '-' {
            if dash_count == 0 {
                first_dash = i;
            } else if dash_count == 1 {
                second_dash = i;
            }
            dash_count += 1;
        }
        i += 1;
    }
    if dash_count == 0 {
        let r = check_code(name, 9, n);
        proof {
            if is_valid_name(name@) && !is_lang_code(name@.subrange(9, n as int)) {
                let j = choose|j: int|
                    9 <= j < name@.len() && #[trigger] name@[j] == '-' && is_lang_code(
                        name@.subrange(9, j),
                    ) && is_lang_code(name@.subrange(j + 1, name@.len() as int));
                assert(false);
            }
            if r {
                assert(n > 9) by {
                    assert(code_split_at(name@.subrange(9, n as int), 2) || code_split_at(
                        name@.subrange(9, n as int),
                        3,
                    ));
                }
            }
        }
        r
    } else if dash_count == 1 {
        let r1 = check_code(name, 9, first_dash);
        let r2 = check_code(name, first_dash + 1, n);
        proof {
            if is_lang_code(name@.subrange(9, n as int)) {
                lemma_code_no_dash(name@.subrange(9, n as int), first_dash - 9);
            }
            if is_valid_name(name@) {
                let j = choose|j: int|
                    9 <= j < name@.len() && #[trigger] name@[j] == '-' && is_lang_code(
                        name@.subrange(9, j),
                    ) && is_lang_code(name@.subrange(j + 1, name@.len() as int));
                assert(j == first_dash);
            }
        }
        r1 && r2
    } else {
        proof {
            if is_lang_code(name@.subrange(9, n as int)) {
                lemma_code_no_dash(name@.subrange(9, n as int), first_dash - 9);
            }
            if is_valid_name(name@) {
                let j = choose|j: int|
                    9 <= j < name@.len() && #[trigger] name@[j] == '-' && is_lang_code(
                        name@.subrange(9, j),
                    ) && is_lang_code(name@.subrange(j + 1, name@.len() as int));
                if j != first_dash {
                    if first_dash < j {
                        lemma_code_no_dash(name@.subrange(9, j), first_dash - 9);
                    } else {
                        lemma_code_no_dash(
                            name@.subrange(j + 1, name@.len() as int),
                            first_dash - j - 1,
                        );
                    }
                } else {
                    if second_dash < j {
                        lemma_code_no_dash(name@.subrange(9, j), second_dash - 9);
                    } else {
                        lemma_code_no_dash(
                            name@.subrange(j + 1, name@.len() as int),
                            second_dash - j - 1,
                        );
                    }
                }
                assert(false);
            }
        }
        false
    }
}

} // verus!
