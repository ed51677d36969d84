//! Converting identifiers between naming conventions.
//!
//! Words are separated by the delimiters ' ', '-' and '_', and before an uppercase letter that
//! follows a lowercase one.
use vstd::prelude::*;
use vstd::string::{StrSliceExecFns, StringExecFns};

verus! {

/// A naming convention for identifiers.
#[derive(Clone, Copy)]
pub enum IdentCase {
    UpperCamelCase,
    LowerCamelCase,
    UpperSnakeCase,
    LowerSnakeCase,
}

/// The characters of the uppercase mapping of `c`.
pub uninterp spec fn upper_of(c: char) -> Seq<char>;

/// The characters of the lowercase mapping of `c`.
pub uninterp spec fn lower_of(c: char) -> Seq<char>;

/// Whether `c` has the Unicode `Uppercase` property.
pub uninterp spec fn char_is_upper(c: char) -> bool;

/// Whether `c` has the Unicode `Lowercase` property.
pub uninterp spec fn char_is_lower(c: char) -> bool;

/// The uppercase of an ASCII character: a lowercase letter moves to its uppercase letter,
/// any other character stays.
pub open spec fn ascii_upper(c: char) -> char {
    if 'a' <= c && c <= 'z' {
        ((c as u32) - 32) as char
    } else {
        c
    }
}

/// The lowercase of an ASCII character: an uppercase letter moves to its lowercase letter,
/// any other character stays.
pub open spec fn ascii_lower(c: char) -> char {
    if 'A' <= c && c <= 'Z' {
        ((c as u32) + 32) as char
    } else {
        c
    }
}

/// Calls `char::to_uppercase` and collects the characters it yields, which depend on `c`
/// alone; std documents that an ASCII character maps to its ASCII uppercase alone.
#[verifier::external_body]
fn to_upper(c: char) -> (out: String)
    ensures
        out@ == upper_of(c),
        (c as u32) < 128 ==> out@ == seq![ascii_upper(c)],
{
    c.to_uppercase().to_string()
}

/// Calls `char::to_lowercase` and collects the characters it yields, which depend on `c`
/// alone; std documents that an ASCII character maps to its ASCII lowercase alone.
#[verifier::external_body]
fn to_lower(c: char) -> (out: String)
    ensures
        out@ == lower_of(c),
        (c as u32) < 128 ==> out@ == seq![ascii_lower(c)],
{
    c.to_lowercase().to_string()
}

/// Calls `char::is_uppercase`, whose result depends on `c` alone; of the ASCII characters,
/// exactly the letters 'A' to 'Z' are uppercase.
#[verifier::external_body]
fn is_upper(c: char) -> (out: bool)
    ensures
        out == char_is_upper(c),
        (c as u32) < 128 ==> out == ('A' <= c && c <= 'Z'),
{
    c.is_uppercase()
}

/// Calls `char::is_lowercase`, whose result depends on `c` alone; of the ASCII characters,
/// exactly the letters 'a' to 'z' are lowercase.
#[verifier::external_body]
fn is_lower(c: char) -> (out: bool)
    ensures
        out == char_is_lower(c),
        (c as u32) < 128 ==> out == ('a' <= c && c <= 'z'),
{
    c.is_lowercase()
}

/// Whether `c` separates words.
pub open spec fn is_delimiter(c: char) -> bool {
    c == ' ' || c == '-' || c == '_'
}

/// What the conversion remembers between characters: whether none was seen yet, whether the
/// last one was lowercase, and whether a delimiter asks the next one to start a word.
pub struct CaseState {
    pub first: bool,
    pub prev_lowercase: bool,
    pub split_queued: bool,
}

/// Whether `c` starts a new word.
pub open spec fn starts_word(st: CaseState, c: char) -> bool {
    is_delimiter(c) || st.split_queued || (!st.first && st.prev_lowercase && char_is_upper(c))
}

/// The characters written for `c`.
pub open spec fn case_piece(case: IdentCase, st: CaseState, c: char) -> Seq<char> {
    let split = starts_word(st, c);
    match case {
        IdentCase::UpperCamelCase => if is_delimiter(c) {
            seq![]
        } else if split || st.first {
            upper_of(c)
        } else {
            lower_of(c)
        },
        IdentCase::LowerCamelCase => if is_delimiter(c) {
            seq![]
        } else if split {
            upper_of(c)
        } else {
            lower_of(c)
        },
        IdentCase::UpperSnakeCase => if is_delimiter(c) {
            seq!['_']
        } else if split {
            seq!['_'] + upper_of(c)
        } else {
            upper_of(c)
        },
        IdentCase::LowerSnakeCase => if is_delimiter(c) {
            seq!['_']
        } else if split {
            seq!['_'] + lower_of(c)
        } else {
            lower_of(c)
        },
    }
}

/// The state after `c`.
pub open spec fn case_next(case: IdentCase, st: CaseState, c: char) -> CaseState {
    CaseState {
        first: false,
        prev_lowercase: char_is_lower(c),
        split_queued: is_delimiter(c) && (case is UpperCamelCase || case is LowerCamelCase),
    }
}

/// The state after the characters of `s`.
pub open spec fn case_state_after(case: IdentCase, s: Seq<char>) -> CaseState
    decreases s.len(),
{
    if s.len() == 0 {
        CaseState { first: true, prev_lowercase: true, split_queued: false }
    } else {
        case_next(case, case_state_after(case, s.drop_last()), s.last())
    }
}

/// The conversion of the characters of `s`.
pub open spec fn convert_case(case: IdentCase, s: Seq<char>) -> Seq<char>
    decreases s.len(),
{
    if s.len() == 0 {
        seq![]
    } else {
        convert_case(case, s.drop_last()) + case_piece(case, case_state_after(case, s.drop_last()), s.last())
    }
}

/// Whether all characters of `s` are ASCII.
pub open spec fn all_ascii(s: Seq<char>) -> bool {
    forall|i: int| 0 <= i < s.len() ==> (#[trigger] s[i] as u32) < 128
}

/// Whether the ASCII character `c` starts a new word.
pub open spec fn ascii_starts_word(st: CaseState, c: char) -> bool {
    is_delimiter(c) || st.split_queued || (!st.first && st.prev_lowercase && 'A' <= c && c <= 'Z')
}

/// The characters written for the ASCII character `c`.
pub open spec fn ascii_case_piece(case: IdentCase, st: CaseState, c: char) -> Seq<char> {
    let split = ascii_starts_word(st, c);
    let up = seq![ascii_upper(c)];
    let low = seq![ascii_lower(c)];
    match case {
        IdentCase::UpperCamelCase => if is_delimiter(c) {
            seq![]
        } else if split || st.first {
            up
        } else {
            low
        },
        IdentCase::LowerCamelCase => if is_delimiter(c) {
            seq![]
        } else if split {
            up
        } else {
            low
        },
        IdentCase::UpperSnakeCase => if is_delimiter(c) {
            seq!['_']
        } else if split {
            seq!['_'] + up
        } else {
            up
        },
        IdentCase::LowerSnakeCase => if is_delimiter(c) {
            seq!['_']
        } else if split {
            seq!['_'] + low
        } else {
            low
        },
    }
}

/// The state after the ASCII character `c`.
pub open spec fn ascii_case_next(case: IdentCase, st: CaseState, c: char) -> CaseState {
    CaseState {
        first: false,
        prev_lowercase: 'a' <= c && c <= 'z',
        split_queued: is_delimiter(c) && (case is UpperCamelCase || case is LowerCamelCase),
    }
}

/// The state after the ASCII characters of `s`.
pub open spec fn ascii_case_state_after(case: IdentCase, s: Seq<char>) -> CaseState
    decreases s.len(),
{
    if s.len() == 0 {
        CaseState { first: true, prev_lowercase: true, split_queued: false }
    } else {
        ascii_case_next(case, ascii_case_state_after(case, s.drop_last()), s.last())
    }
}

/// The conversion of the ASCII characters of `s`: letters change case by the ASCII rules.
pub open spec fn ascii_convert_case(case: IdentCase, s: Seq<char>) -> Seq<char>
    decreases s.len(),
{
    if s.len() == 0 {
        seq![]
    } else {
        ascii_convert_case(case, s.drop_last()) + ascii_case_piece(case, ascii_case_state_after(case, s.drop_last()), s.last())
    }
}

/// `s` without its underscores, lowercased: what is left of a converted identifier once its
/// word separators are dropped.
pub open spec fn strip_underscores(s: Seq<char>) -> Seq<char>
    decreases s.len(),
{
    if s.len() == 0 {
        seq![]
    } else {
        strip_underscores(s.drop_last()) + if s.last() == '_' {
            seq![]
        } else {
            seq![ascii_lower(s.last())]
        }
    }
}

/// `s` without its delimiters, lowercased.
pub open spec fn strip_delimiters(s: Seq<char>) -> Seq<char>
    decreases s.len(),
{
    if s.len() == 0 {
        seq![]
    } else {
        strip_delimiters(s.drop_last()) + if is_delimiter(s.last()) {
            seq![]
        } else {
            seq![ascii_lower(s.last())]
        }
    }
}

proof fn lemma_strip_concat(a: Seq<char>, b: Seq<char>)
    ensures
        strip_underscores(a + b) == strip_underscores(a) + strip_underscores(b),
    decreases b.len(),
{
    if b.len() == 0 {
        assert(a + b =~= a);
    } else {
        lemma_strip_concat(a, b.drop_last());
        assert((a + b).drop_last() =~= a + b.drop_last());
        assert((a + b).last() == b.last());
    }
}

/// The characters written for an ASCII character hold no space or hyphen, no underscore in the
/// camel cases, and lose nothing but delimiters once underscores are dropped and letters
/// lowercased.
proof fn lemma_piece_facts(case: IdentCase, st: CaseState, c: char)
    requires
        (c as u32) < 128,
    ensures
        strip_underscores(ascii_case_piece(case, st, c)) == (if is_delimiter(c) {
            seq![]
        } else {
            seq![ascii_lower(c)]
        }),
        !ascii_case_piece(case, st, c).contains(' '),
        !ascii_case_piece(case, st, c).contains('-'),
        (case is UpperCamelCase || case is LowerCamelCase) ==> !ascii_case_piece(case, st, c).contains('_'),
{
    let p = ascii_case_piece(case, st, c);
    reveal_with_fuel(strip_underscores, 3);
    assert(ascii_lower(ascii_upper(c)) == ascii_lower(c));
    assert(ascii_lower(ascii_lower(c)) == ascii_lower(c));
    if !is_delimiter(c) {
        assert(ascii_upper(c) != '_' && ascii_lower(c) != '_');
        assert(ascii_upper(c) != ' ' && ascii_lower(c) != ' ');
        assert(ascii_upper(c) != '-' && ascii_lower(c) != '-');
    }
    assert(seq!['_'] + seq![ascii_upper(c)] =~= seq!['_', ascii_upper(c)]);
    assert(seq!['_'] + seq![ascii_lower(c)] =~= seq!['_', ascii_lower(c)]);
    assert(seq!['_', ascii_upper(c)].drop_last() =~= seq!['_']);
    assert(seq!['_', ascii_lower(c)].drop_last() =~= seq!['_']);
    assert(seq!['_'].drop_last() =~= Seq::<char>::empty());
    assert(seq![ascii_upper(c)].drop_last() =~= Seq::<char>::empty());
    assert(seq![ascii_lower(c)].drop_last() =~= Seq::<char>::empty());
    assert(strip_underscores(Seq::<char>::empty()) =~= Seq::<char>::empty());
}

/// What the four naming conventions share: converting an ASCII identifier writes no space and
/// no hyphen (and no underscore in the camel cases), and dropping the underscores of the
/// result and lowercasing it gives the identifier without its delimiters, lowercased; so the
/// four conversions differ only in underscores and letter case.
pub proof fn lemma_conversions_agree(case: IdentCase, s: Seq<char>)
    requires
        all_ascii(s),
    ensures
        strip_underscores(ascii_convert_case(case, s)) == strip_delimiters(s),
        !ascii_convert_case(case, s).contains(' '),
        !ascii_convert_case(case, s).contains('-'),
        (case is UpperCamelCase || case is LowerCamelCase) ==> !ascii_convert_case(case, s).contains('_'),
    decreases s.len(),
{
    if s.len() > 0 {
        let p = s.drop_last();
        assert(all_ascii(p)) by {
            assert forall|i: int| 0 <= i < p.len() implies (#[trigger] p[i] as u32) < 128 by {
                assert(p[i] == s[i]);
            }
        }
        lemma_conversions_agree(case, p);
        assert((s[s.len() - 1] as u32) < 128);
        let piece = ascii_case_piece(case, ascii_case_state_after(case, p), s.last());
        lemma_piece_facts(case, ascii_case_state_after(case, p), s.last());
        let prev = ascii_convert_case(case, p);
        lemma_strip_concat(prev, piece);
        let out = prev + piece;
        assert forall|ch: char| (ch == ' ' || ch == '-' || ((case is UpperCamelCase || case is LowerCamelCase) && ch == '_'))
            implies !out.contains(ch) by {
            if out.contains(ch) {
                let k = choose|k: int| 0 <= k < out.len() && out[k] == ch;
                if k < prev.len() {
                    assert(prev[k] == ch);
                } else {
                    assert(piece[k - prev.len()] == ch);
                }
            }
        }
    } else {
        assert(ascii_convert_case(case, s) =~= Seq::<char>::empty());
    }
}

/// Converts the identifier `input` to the naming convention `case`.
pub fn change_case(input: &str, case: IdentCase) -> (out: String)
    ensures
        out@ == convert_case(case, input@),
        all_ascii(input@) ==> out@ == ascii_convert_case(case, input@),
{
    let n = input.unicode_len();
    let mut out = String::new();
    let mut first = true;
    let mut prev_lowercase = true;
    let mut split_queued = false;
    let mut i: usize = 0;
    while i < n
        invariant
            i <= n,
            n == input@.len(),
            case_state_after(case, input@.take(i as int)) == (CaseState { first, prev_lowercase, split_queued }),
            out@ == convert_case(case, input@.take(i as int)),
            all_ascii(input@) ==> ascii_case_state_after(case, input@.take(i as int)) == (CaseState {
                first,
                prev_lowercase,
                split_queued,
            }),
            all_ascii(input@) ==> out@ == ascii_convert_case(case, input@.take(i as int)),
        decreases n - i,
    {
        let c = input.get_char(i);
        let is_delim = c == ' ' || c == '-' || c == '_';
        let upper = is_upper(c);
        let do_split = is_delim || split_queued || (!first && prev_lowercase && upper);
        split_queued = false;
        let piece = match case {
            IdentCase::UpperCamelCase => if is_delim {
                split_queued = true;
                String::new()
            } else if do_split || first {
                to_upper(c)
            } else {
                to_lower(c)
            },
            IdentCase::LowerCamelCase => if is_delim {
                split_queued = true;
                String::new()
            } else if do_split {
                to_upper(c)
            } else {
                to_lower(c)
            },
            IdentCase::UpperSnakeCase => if is_delim {
                String::from_str("_")
            } else if do_split {
                String::from_str("_").concat(to_upper(c).as_str())
            } else {
                to_upper(c)
            },
            IdentCase::LowerSnakeCase => if is_delim {
                String::from_str("_")
            } else if do_split {
                String::from_str("_").concat(to_lower(c).as_str())
            } else {
                to_lower(c)
            },
        };
        first = false;
        prev_lowercase = is_lower(c);
        proof {
            reveal_strlit("_");
            assert(input@.take(i + 1).drop_last() =~= input@.take(i as int));
            assert(piece@ == case_piece(case, case_state_after(case, input@.take(i as int)), c));
            if all_ascii(input@) {
                assert((input@[i as int] as u32) < 128);
                assert(piece@ == ascii_case_piece(case, ascii_case_state_after(case, input@.take(i as int)), c));
            }
        }
        out.append(piece.as_str());
        i = i + 1;
    }
    proof {
        assert(input@.take(n as int) =~= input@);
    }
    out
}

} // verus!
