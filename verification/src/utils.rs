use vstd::prelude::*;
use vstd::utf8::encode_utf8;

use argon2::password_hash::rand_core::{OsRng, RngCore};
use argon2::password_hash::{PasswordHash, PasswordHasher, PasswordVerifier, Salt, SaltString};
use argon2::password_hash::Error as PasswordHashError;
use argon2::Argon2;

use crate::error::Error;

verus! {

// ---------------------------------------------------------------------------
// Characters
// ---------------------------------------------------------------------------

/// Whether a non-ASCII character has Unicode's Alphabetic or Numeric property.
pub uninterp spec fn is_unicode_alphanumeric(c: char) -> bool;

/// An ASCII letter or digit.
pub open spec fn is_ascii_alphanumeric(c: char) -> bool {
    ('a' <= c && c <= 'z') || ('A' <= c && c <= 'Z') || ('0' <= c && c <= '9')
}

/// Whether `char::is_alphanumeric` holds of a character: among ASCII
/// characters exactly the letters and digits, elsewhere Unicode's
/// Alphabetic or Numeric property.
pub open spec fn is_alphanumeric(c: char) -> bool {
    if (c as u32) < 0x80 {
        is_ascii_alphanumeric(c)
    } else {
        is_unicode_alphanumeric(c)
    }
}

/// `char::is_alphanumeric` of std: `is_alphabetic() || is_numeric()`, that
/// is the Alphabetic property or a numeric general category (Nd, Nl, No).
/// Among ASCII characters these hold of exactly the letters and the digits.
pub assume_specification[ char::is_alphanumeric ](c: char) -> (b: bool)
    ensures
        b == is_alphanumeric(c),
        (c as u32) >= 0x80 ==> b == is_unicode_alphanumeric(c),
;

/// `String::push` of std: appends one character at the end.
pub assume_specification[ String::push ](s: &mut String, ch: char)
    ensures
        final(s)@ == old(s)@.push(ch),
;

/// The quotation marks that a slug drops but that do not split words.
pub open spec fn is_quote(c: char) -> bool {
    c == '\'' || c == '"'
}

/// A character on which a title is split into words: anything that is
/// neither a quotation mark nor alphanumeric.
pub open spec fn is_separator(c: char) -> bool {
    !(is_quote(c) || is_alphanumeric(c))
}

/// ASCII lowercase of a character: `A`..=`Z` become `a`..=`z`, all other
/// characters stay as they are.
pub open spec fn ascii_lower(c: char) -> char {
    if 'A' <= c && c <= 'Z' {
        ((c as u32) + 32) as char
    } else {
        c
    }
}

fn is_quote_char(c: char) -> (b: bool)
    ensures
        b == is_quote(c),
{
    c == '\'' || c == '"'
}

fn ascii_lowercase(c: char) -> (r: char)
    ensures
        r == ascii_lower(c),
{
    if 'A' <= c && c <= 'Z' {
        ((c as u8) + 32) as char
    } else {
        c
    }
}

// ---------------------------------------------------------------------------
// Numerals
// ---------------------------------------------------------------------------

/// The character of a decimal digit.
pub open spec fn digit_char(d: nat) -> char {
    (48 + d) as char
}

/// The decimal numeral of a number, without leading zeros.
pub open spec fn decimal(n: nat) -> Seq<char>
    decreases n,
{
    if n < 10 {
        seq![digit_char(n)]
    } else {
        decimal(n / 10).push(digit_char(n % 10))
    }
}

pub(crate) fn push_decimal(s: &mut String, n: usize)
    ensures
        final(s)@ == old(s)@ + decimal(n as nat),
    decreases n,
{
    if n >= 10 {
        push_decimal(s, n / 10);
    }
    let d: u8 = (n % 10) as u8;
    s.push((48u8 + d) as char);
    proof {
        assert(((48 + d) as char) == digit_char((n % 10) as nat));
        if n >= 10 {
            assert(decimal(n as nat) == decimal((n / 10) as nat).push(digit_char((n % 10) as nat)));
        }
    }
}

/// The decimal numeral of an integer, with `-` before a negative one.
pub open spec fn int_text(n: int) -> Seq<char> {
    if n < 0 {
        seq!['-'] + decimal((-n) as nat)
    } else {
        decimal(n as nat)
    }
}

pub(crate) fn push_i16(s: &mut String, n: i16)
    ensures
        final(s)@ == old(s)@ + int_text(n as int),
{
    if n < 0 {
        s.push('-');
        let magnitude: usize = (0 - (n as i32)) as usize;
        push_decimal(s, magnitude);
        assert(s@ =~= old(s)@ + int_text(n as int));
    } else {
        push_decimal(s, n as usize);
    }
}

// ---------------------------------------------------------------------------
// Slugs
// ---------------------------------------------------------------------------

/// The pieces between separators, as `str::split` yields them: always at
/// least one piece, and two adjacent separators give an empty piece.
pub open spec fn split_pieces(s: Seq<char>) -> Seq<Seq<char>>
    decreases s.len(),
{
    if s.len() == 0 {
        seq![Seq::<char>::empty()]
    } else {
        let prev = split_pieces(s.drop_last());
        if is_separator(s.last()) {
            prev.push(Seq::<char>::empty())
        } else {
            prev.update(prev.len() - 1, prev.last().push(s.last()))
        }
    }
}

/// The words of a title: its non-empty pieces, in order.
pub open spec fn words(s: Seq<char>) -> Seq<Seq<char>> {
    split_pieces(s).filter(|w: Seq<char>| w.len() > 0)
}

/// A word as it stands in a slug: quotation marks removed, ASCII letters lowercased.
pub open spec fn clean_word(w: Seq<char>) -> Seq<char> {
    w.filter(|c: char| !is_quote(c)).map_values(|c: char| ascii_lower(c))
}

/// The parts, with `sep` between each two adjacent ones.
pub open spec fn join_with(parts: Seq<Seq<char>>, sep: Seq<char>) -> Seq<char>
    decreases parts.len(),
{
    if parts.len() == 0 {
        Seq::<char>::empty()
    } else if parts.len() == 1 {
        parts[0]
    } else {
        join_with(parts.drop_last(), sep) + sep + parts.last()
    }
}

/// The cleaned words of a title, in order.
pub open spec fn cleaned_words(s: Seq<char>) -> Seq<Seq<char>> {
    words(s).map_values(|w: Seq<char>| clean_word(w))
}

/// The slug of a title: its cleaned words joined by `-`.
pub open spec fn spec_slugify(s: Seq<char>) -> Seq<char> {
    join_with(cleaned_words(s), seq!['-'])
}

proof fn lemma_split_pieces_nonempty(s: Seq<char>)
    ensures
        split_pieces(s).len() >= 1,
    decreases s.len(),
{
    if s.len() > 0 {
        lemma_split_pieces_nonempty(s.drop_last());
    }
}

proof fn lemma_filter_push<A>(s: Seq<A>, x: A, p: spec_fn(A) -> bool)
    ensures
        s.push(x).filter(p) == (if p(x) {
            s.filter(p).push(x)
        } else {
            s.filter(p)
        }),
{
    reveal(Seq::filter);
    assert(s.push(x).drop_last() =~= s);
}

proof fn lemma_clean_word_push(w: Seq<char>, c: char)
    ensures
        clean_word(w.push(c)) == (if is_quote(c) {
            clean_word(w)
        } else {
            clean_word(w).push(ascii_lower(c))
        }),
{
    let p = |c: char| !is_quote(c);
    lemma_filter_push(w, c, p);
    if !is_quote(c) {
        assert(clean_word(w.push(c)) =~= clean_word(w).push(ascii_lower(c)));
    }
}

/// The joined text of the cleaned non-empty pieces among `pieces`.
spec fn joined_words(pieces: Seq<Seq<char>>) -> Seq<char> {
    join_with(
        pieces.filter(|w: Seq<char>| w.len() > 0).map_values(|w: Seq<char>| clean_word(w)),
        seq!['-'],
    )
}

spec fn word_count(pieces: Seq<Seq<char>>) -> nat {
    pieces.filter(|w: Seq<char>| w.len() > 0).len()
}

/// Adding a piece to the done ones: the joined text grows by `-` and the
/// piece's cleaned text where the piece is a word.
proof fn lemma_joined_words_push(done: Seq<Seq<char>>, piece: Seq<char>)
    ensures
        joined_words(done.push(piece)) == (if piece.len() == 0 {
            joined_words(done)
        } else if word_count(done) == 0 {
            clean_word(piece)
        } else {
            joined_words(done) + seq!['-'] + clean_word(piece)
        }),
        word_count(done.push(piece)) == word_count(done) + (if piece.len() == 0 {
            0int
        } else {
            1int
        }),
{
    let p = |w: Seq<char>| w.len() > 0;
    let f = |w: Seq<char>| clean_word(w);
    lemma_filter_push(done, piece, p);
    if piece.len() > 0 {
        let ws = done.filter(p);
        assert(ws.push(piece).map_values(f) =~= ws.map_values(f).push(clean_word(piece)));
        assert(ws.push(piece).map_values(f).drop_last() =~= ws.map_values(f));
    }
}

/// Converts a title to a slug that identifies an article: the title is split
/// on every character that is neither alphanumeric nor a quotation mark, the
/// empty pieces are dropped, quotation marks are removed from each word, ASCII
/// letters are lowercased, and the words are joined by `-`.
///
/// E.g. `slugify("Doctests are the Bee's Knees") == "doctests-are-the-bees-knees"`.
pub fn slugify(string: &str) -> (slug: String)
    ensures
        slug@ == spec_slugify(string@),
        forall|i: int| 0 <= i < slug@.len() ==> is_slug_char_of(string@, #[trigger] slug@[i]),
        slug@.filter(|c: char| c != '-') == string@.filter(
            |c: char| is_alphanumeric(c) && c != '\'' && c != '"',
        ).map_values(
            (|c: char|
                if 'A' <= c && c <= 'Z' {
                    ((c as u32) + 32) as char
                } else {
                    c
                }),
        ),
        (forall|i: int|
            0 <= i < string@.len() ==> {
                let c = #[trigger] string@[i];
                ('a' <= c && c <= 'z') || ('A' <= c && c <= 'Z') || ('0' <= c && c <= '9')
            }) ==> slug@ == string@.map_values(
            (|c: char|
                if 'A' <= c && c <= 'Z' {
                    ((c as u32) + 32) as char
                } else {
                    c
                }),
        ),
{
    let mut out = String::new();
    let mut cur = String::new();
    let mut cur_started = false;
    let mut any_word = false;
    let ghost mut done: Seq<Seq<char>> = Seq::empty();
    let ghost mut cur_raw: Seq<char> = Seq::empty();
    proof {
        broadcast use vstd::string::axiom_spec_iter;
        assert(split_pieces(string@.take(0)) =~= done.push(cur_raw));
        assert(done.filter(|w: Seq<char>| w.len() > 0) =~= Seq::<Seq<char>>::empty()) by {
            reveal_with_fuel(Seq::<Seq<char>>::filter, 1);
        }
        assert(out@ =~= joined_words(done));
        assert(cur@ =~= clean_word(cur_raw)) by {
            reveal_with_fuel(Seq::<char>::filter, 1);
        }
    }
    for c in it: string.chars()
        invariant
            it.seq() == string@,
            split_pieces(string@.take(it.index() as int)) == done.push(cur_raw),
            out@ == joined_words(done),
            any_word == (word_count(done) > 0),
            cur@ == clean_word(cur_raw),
            cur_started == (cur_raw.len() > 0),
    {
        let ghost prefix = string@.take(it.index() as int);
        proof {
            assert(string@.take(it.index() + 1).drop_last() =~= prefix);
        }
        if !(is_quote_char(c) || c.is_alphanumeric()) {
            proof {
                lemma_joined_words_push(done, cur_raw);
            }
            if cur_started {
                if any_word {
                    out.push('-');
                }
                out.append(cur.as_str());
                any_word = true;
            }
            cur = String::new();
            cur_started = false;
            proof {
                assert(split_pieces(string@.take(it.index() + 1)) =~= done.push(cur_raw).push(
                    Seq::<char>::empty(),
                ));
                done = done.push(cur_raw);
                cur_raw = Seq::empty();
                assert(cur@ =~= clean_word(cur_raw)) by {
                    reveal_with_fuel(Seq::<char>::filter, 1);
                }
            }
        } else {
            proof {
                lemma_clean_word_push(cur_raw, c);
            }
            if !is_quote_char(c) {
                cur.push(ascii_lowercase(c));
            }
            cur_started = true;
            proof {
                assert(split_pieces(string@.take(it.index() + 1)) =~= done.push(cur_raw.push(c)));
                cur_raw = cur_raw.push(c);
            }
        }
    }
    proof {
        assert(string@.take(string@.len() as int) =~= string@);
        lemma_joined_words_push(done, cur_raw);
    }
    if cur_started {
        if any_word {
            out.push('-');
        }
        out.append(cur.as_str());
    }
    proof {
        lemma_slug_characters(string@);
        lemma_slug_keeps_alphanumerics(string@);
        assert(out@ == spec_slugify(string@));
        if forall|i: int|
            0 <= i < string@.len() ==> {
                let c = #[trigger] string@[i];
                ('a' <= c && c <= 'z') || ('A' <= c && c <= 'Z') || ('0' <= c && c <= '9')
            } {
            lemma_slug_of_ascii_alphanumeric_title(string@);
        }
        assert forall|i: int| 0 <= i < out@.len() implies is_slug_char_of(
            string@,
            #[trigger] out@[i],
        ) by {
            assert(out@[i] == spec_slugify(string@)[i]);
        }
    }
    out
}

/// A character that may stand in the slug of `title`: `-`, or the ASCII
/// lowercase of a character of the title that is alphanumeric and no quotation mark.
pub open spec fn is_slug_char_of(title: Seq<char>, c: char) -> bool {
    c == '-' || exists|j: int|
        0 <= j < title.len() && is_alphanumeric(title[j]) && !is_quote(title[j]) && c
            == ascii_lower(#[trigger] title[j])
}

proof fn lemma_ascii_lower_is_not_capital(x: char)
    requires
        !is_quote(x),
    ensures
        !('A' <= ascii_lower(x) && ascii_lower(x) <= 'Z'),
        !is_quote(ascii_lower(x)),
{
    if 'A' <= x && x <= 'Z' {
        let n: int = (x as u32) + 32;
        assert(n as char as u32 == n);
    }
}

proof fn lemma_filter_all<A>(s: Seq<A>, q: spec_fn(A) -> bool, p: spec_fn(A) -> bool)
    requires
        forall|i: int| 0 <= i < s.len() ==> p(#[trigger] s[i]),
    ensures
        forall|i: int| 0 <= i < s.filter(q).len() ==> p(#[trigger] s.filter(q)[i]),
    decreases s.len(),
{
    if s.len() > 0 {
        let t = s.drop_last();
        assert forall|i: int| 0 <= i < t.len() implies p(#[trigger] t[i]) by {
            assert(t[i] == s[i]);
        }
        lemma_filter_all(t, q, p);
        assert(s =~= t.push(s.last()));
        lemma_filter_push(t, s.last(), q);
        assert(p(s[s.len() - 1]));
    } else {
        reveal(Seq::filter);
    }
}

proof fn lemma_join_all(parts: Seq<Seq<char>>, sep: Seq<char>, p: spec_fn(char) -> bool)
    requires
        forall|k: int, i: int|
            0 <= k < parts.len() && 0 <= i < parts[k].len() ==> p(#[trigger] parts[k][i]),
        forall|i: int| 0 <= i < sep.len() ==> p(#[trigger] sep[i]),
    ensures
        forall|i: int|
            0 <= i < join_with(parts, sep).len() ==> p(#[trigger] join_with(parts, sep)[i]),
    decreases parts.len(),
{
    if parts.len() > 1 {
        let init = parts.drop_last();
        assert forall|k: int, i: int|
            0 <= k < init.len() && 0 <= i < init[k].len() implies p(#[trigger] init[k][i]) by {
            assert(init[k] == parts[k]);
        }
        lemma_join_all(init, sep, p);
        let a = join_with(init, sep);
        let last = parts.last();
        assert forall|i: int| 0 <= i < join_with(parts, sep).len() implies p(
            #[trigger] join_with(parts, sep)[i],
        ) by {
            if i < a.len() {
                assert(join_with(parts, sep)[i] == a[i]);
            } else if i < a.len() + sep.len() {
                assert(join_with(parts, sep)[i] == sep[i - a.len()]);
            } else {
                assert(join_with(parts, sep)[i] == last[i - a.len() - sep.len()]);
                assert(p(parts[parts.len() - 1][i - a.len() - sep.len()]));
            }
        }
    } else if parts.len() == 1 {
        assert(forall|i: int| 0 <= i < parts[0].len() ==> p(#[trigger] parts[0][i]));
    }
}

/// Every character of every piece is a non-separator character of the text.
proof fn lemma_pieces_chars(s: Seq<char>)
    ensures
        forall|k: int, i: int|
            0 <= k < split_pieces(s).len() && 0 <= i < split_pieces(s)[k].len() ==> {
                let c = #[trigger] split_pieces(s)[k][i];
                !is_separator(c) && exists|j: int| 0 <= j < s.len() && s[j] == c
            },
    decreases s.len(),
{
    if s.len() > 0 {
        let t = s.drop_last();
        lemma_pieces_chars(t);
        lemma_split_pieces_nonempty(t);
        let prev = split_pieces(t);
        assert forall|k: int, i: int|
            0 <= k < split_pieces(s).len() && 0 <= i < split_pieces(s)[k].len() implies {
                let c = #[trigger] split_pieces(s)[k][i];
                !is_separator(c) && exists|j: int| 0 <= j < s.len() && s[j] == c
            } by {
            let c = split_pieces(s)[k][i];
            if k < prev.len() && !(k == prev.len() - 1 && !is_separator(s.last()) && i
                == prev.last().len()) {
                assert(c == prev[k][i]);
                let j = choose|j: int| 0 <= j < t.len() && t[j] == c;
                assert(s[j] == c);
            } else {
                assert(c == s.last());
                assert(s[s.len() - 1] == c);
            }
        }
    }
}

/// Law: every character of a slug is `-` or the ASCII lowercase of an
/// alphanumeric character of the title. So a slug holds no ASCII capital
/// letter, no quotation mark, and no space or punctuation other than `-`.
pub proof fn lemma_slug_characters(title: Seq<char>)
    ensures
        forall|i: int|
            0 <= i < spec_slugify(title).len() ==> is_slug_char_of(
                title,
                #[trigger] spec_slugify(title)[i],
            ),
        forall|i: int|
            0 <= i < spec_slugify(title).len() ==> {
                let c = #[trigger] spec_slugify(title)[i];
                !('A' <= c && c <= 'Z') && !is_quote(c)
            },
{
    let pieces = split_pieces(title);
    let wq = |w: Seq<char>| w.len() > 0;
    let ws = pieces.filter(wq);
    let p = |c: char| is_slug_char_of(title, c);
    lemma_pieces_chars(title);
    // every word consists of non-separator characters of the title
    let word_ok = |w: Seq<char>|
        forall|i: int|
            0 <= i < w.len() ==> {
                let c = #[trigger] w[i];
                !is_separator(c) && exists|j: int| 0 <= j < title.len() && title[j] == c
            };
    assert forall|k: int| 0 <= k < pieces.len() implies word_ok(#[trigger] pieces[k]) by {
        assert forall|i: int| 0 <= i < pieces[k].len() implies {
            let c = #[trigger] pieces[k][i];
            !is_separator(c) && exists|j: int| 0 <= j < title.len() && title[j] == c
        } by {
            let c = pieces[k][i];
            assert(!is_separator(c) && exists|j: int| 0 <= j < title.len() && title[j] == c);
        }
    }
    lemma_filter_all(pieces, wq, word_ok);
    let cleaned = ws.map_values(|w: Seq<char>| clean_word(w));
    assert forall|k: int, i: int|
        0 <= k < cleaned.len() && 0 <= i < cleaned[k].len() implies p(#[trigger] cleaned[k][i]) by {
        let w = ws[k];
        assert(word_ok(w));
        let nq = |c: char| !is_quote(c);
        let kept = w.filter(nq);
        let in_word = |c: char|
            !is_separator(c) && exists|j: int| 0 <= j < title.len() && title[j] == c;
        assert forall|m: int| 0 <= m < w.len() implies in_word(#[trigger] w[m]) by {
            assert(word_ok(w));
        }
        lemma_filter_all(w, nq, in_word);
        assert(cleaned[k] == kept.map_values(|c: char| ascii_lower(c)));
        let c0 = kept[i];
        assert(in_word(c0));
        assert(nq(c0)) by {
            w.lemma_filter_pred(nq, i);
        }
        let j = choose|j: int| 0 <= j < title.len() && title[j] == c0;
        assert(is_alphanumeric(title[j]) && !is_quote(title[j]));
        assert(cleaned[k][i] == ascii_lower(title[j]));
    }
    assert forall|i: int| 0 <= i < seq!['-'].len() implies p(#[trigger] seq!['-'][i]) by {}
    lemma_join_all(cleaned, seq!['-'], p);
    assert forall|i: int| 0 <= i < spec_slugify(title).len() implies {
        let c = #[trigger] spec_slugify(title)[i];
        !('A' <= c && c <= 'Z') && !is_quote(c)
    } by {
        let c = spec_slugify(title)[i];
        assert(p(c));
        if c != '-' {
            let j = choose|j: int|
                0 <= j < title.len() && is_alphanumeric(title[j]) && !is_quote(title[j]) && c
                    == ascii_lower(#[trigger] title[j]);
            lemma_ascii_lower_is_not_capital(title[j]);
        }
    }
}

// ---------------------------------------------------------------------------
// Laws of slugs
// ---------------------------------------------------------------------------

/// ASCII uppercase of a character: `a`..=`z` become `A`..=`Z`, all other
/// characters stay as they are.
pub open spec fn ascii_upper(c: char) -> char {
    if 'a' <= c && c <= 'z' {
        ((c as u32) - 32) as char
    } else {
        c
    }
}

/// A character that a cleaned word may hold: no separator, no quotation
/// mark, and already ASCII-lowercase.
pub open spec fn is_slug_word_char(c: char) -> bool {
    !is_separator(c) && !is_quote(c) && ascii_lower(c) == c
}

proof fn lemma_lower_of_word_char(x: char)
    requires
        !is_separator(x),
        !is_quote(x),
    ensures
        is_slug_word_char(ascii_lower(x)),
{
    if 'A' <= x && x <= 'Z' {
        let n: int = (x as u32) + 32;
        assert(n as char as u32 == n);
    }
}

/// Changing the ASCII case of a character keeps whether it separates words
/// and whether it is a quotation mark, and keeps its ASCII lowercase.
proof fn lemma_case_change_char(c: char)
    ensures
        is_separator(ascii_upper(c)) == is_separator(c),
        is_quote(ascii_upper(c)) == is_quote(c),
        ascii_lower(ascii_upper(c)) == ascii_lower(c),
        is_separator(ascii_lower(c)) == is_separator(c),
        is_quote(ascii_lower(c)) == is_quote(c),
        ascii_lower(ascii_lower(c)) == ascii_lower(c),
{
    if 'a' <= c && c <= 'z' {
        let n: int = (c as u32) - 32;
        assert(n as char as u32 == n);
        assert(((n as char as u32) + 32) as char == c);
    }
    if 'A' <= c && c <= 'Z' {
        let n: int = (c as u32) + 32;
        assert(n as char as u32 == n);
    }
}

proof fn lemma_filter_map_commute<A, B>(
    s: Seq<A>,
    f: spec_fn(A) -> B,
    p: spec_fn(A) -> bool,
    q: spec_fn(B) -> bool,
)
    requires
        forall|a: A| #[trigger] q(f(a)) == p(a),
    ensures
        s.map_values(f).filter(q) == s.filter(p).map_values(f),
    decreases s.len(),
{
    if s.len() == 0 {
        reveal(Seq::filter);
        assert(s.map_values(f).filter(q) =~= s.filter(p).map_values(f));
    } else {
        let t = s.drop_last();
        let x = s.last();
        lemma_filter_map_commute(t, f, p, q);
        assert(s =~= t.push(x));
        assert(s.map_values(f) =~= t.map_values(f).push(f(x)));
        lemma_filter_push(t, x, p);
        lemma_filter_push(t.map_values(f), f(x), q);
        assert(q(f(x)) == p(x));
        if p(x) {
            assert(t.filter(p).push(x).map_values(f) =~= t.filter(p).map_values(f).push(f(x)));
        }
    }
}

proof fn lemma_filter_keeps_all<A>(s: Seq<A>, p: spec_fn(A) -> bool)
    requires
        forall|i: int| 0 <= i < s.len() ==> p(#[trigger] s[i]),
    ensures
        s.filter(p) == s,
    decreases s.len(),
{
    if s.len() == 0 {
        reveal(Seq::filter);
    } else {
        let t = s.drop_last();
        assert forall|i: int| 0 <= i < t.len() implies p(#[trigger] t[i]) by {
            assert(t[i] == s[i]);
        }
        lemma_filter_keeps_all(t, p);
        assert(s =~= t.push(s.last()));
        lemma_filter_push(t, s.last(), p);
        assert(p(s[s.len() - 1]));
    }
}

/// The pieces of a title whose characters are all mapped by `f`, where `f`
/// keeps whether a character separates words, are the mapped pieces.
proof fn lemma_split_pieces_map(s: Seq<char>, f: spec_fn(char) -> char)
    requires
        forall|c: char| #[trigger] is_separator(f(c)) == is_separator(c),
    ensures
        split_pieces(s.map_values(f)) == split_pieces(s).map_values(
            |w: Seq<char>| w.map_values(f),
        ),
    decreases s.len(),
{
    let g = |w: Seq<char>| w.map_values(f);
    let m = s.map_values(f);
    if s.len() == 0 {
        assert(g(Seq::<char>::empty()) =~= Seq::<char>::empty());
        assert(split_pieces(m) =~= split_pieces(s).map_values(g));
    } else {
        let t = s.drop_last();
        assert(m.drop_last() =~= t.map_values(f));
        lemma_split_pieces_map(t, f);
        lemma_split_pieces_nonempty(t);
        let prev = split_pieces(t);
        assert(m.last() == f(s.last()));
        assert(is_separator(f(s.last())) == is_separator(s.last()));
        if is_separator(s.last()) {
            assert(g(Seq::<char>::empty()) =~= Seq::<char>::empty());
            assert(split_pieces(m) =~= split_pieces(s).map_values(g));
        } else {
            assert(g(prev.last().push(s.last())) =~= g(prev.last()).push(f(s.last())));
            assert(split_pieces(m) =~= split_pieces(s).map_values(g));
        }
    }
}

proof fn lemma_clean_word_map(w: Seq<char>, f: spec_fn(char) -> char)
    requires
        forall|c: char| #[trigger] is_quote(f(c)) == is_quote(c),
        forall|c: char| #[trigger] ascii_lower(f(c)) == ascii_lower(c),
    ensures
        clean_word(w.map_values(f)) == clean_word(w),
{
    let nq = |c: char| !is_quote(c);
    assert forall|c: char| #[trigger] nq(f(c)) == nq(c) by {
        assert(is_quote(f(c)) == is_quote(c));
    }
    lemma_filter_map_commute(w, f, nq, nq);
    let kept = w.filter(nq);
    assert(kept.map_values(f).map_values(|c: char| ascii_lower(c)) =~= kept.map_values(
        |c: char| ascii_lower(c),
    )) by {
        assert forall|i: int| 0 <= i < kept.len() implies ascii_lower(f(kept[i])) == ascii_lower(
            kept[i],
        ) by {
            assert(ascii_lower(f(kept[i])) == ascii_lower(kept[i]));
        }
    }
}

/// A title whose characters are all mapped by `f` has the same slug, where
/// `f` keeps separators, quotation marks and ASCII lowercase.
proof fn lemma_slug_of_mapped_title(s: Seq<char>, f: spec_fn(char) -> char)
    requires
        forall|c: char| #[trigger] is_separator(f(c)) == is_separator(c),
        forall|c: char| #[trigger] is_quote(f(c)) == is_quote(c),
        forall|c: char| #[trigger] ascii_lower(f(c)) == ascii_lower(c),
    ensures
        spec_slugify(s.map_values(f)) == spec_slugify(s),
{
    let g = |w: Seq<char>| w.map_values(f);
    let ne = |w: Seq<char>| w.len() > 0;
    let cl = |w: Seq<char>| clean_word(w);
    lemma_split_pieces_map(s, f);
    let pieces = split_pieces(s);
    assert forall|w: Seq<char>| #[trigger] ne(g(w)) == ne(w) by {}
    lemma_filter_map_commute(pieces, g, ne, ne);
    let ws = pieces.filter(ne);
    assert(ws.map_values(g).map_values(cl) =~= ws.map_values(cl)) by {
        assert forall|i: int| 0 <= i < ws.len() implies cl(g(ws[i])) == cl(ws[i]) by {
            lemma_clean_word_map(ws[i], f);
        }
    }
}

/// Law: changing the ASCII case of a title does not change its slug.
pub proof fn lemma_slug_ignores_ascii_case(title: Seq<char>)
    ensures
        spec_slugify(title.map_values(|c: char| ascii_upper(c))) == spec_slugify(title),
        spec_slugify(title.map_values(|c: char| ascii_lower(c))) == spec_slugify(title),
{
    let up = |c: char| ascii_upper(c);
    let low = |c: char| ascii_lower(c);
    assert forall|c: char|
        #![trigger up(c)]
        is_separator(up(c)) == is_separator(c) && is_quote(up(c)) == is_quote(c) && ascii_lower(
            up(c),
        ) == ascii_lower(c) by {
        lemma_case_change_char(c);
    }
    assert forall|c: char|
        #![trigger low(c)]
        is_separator(low(c)) == is_separator(c) && is_quote(low(c)) == is_quote(c) && ascii_lower(
            low(c),
        ) == ascii_lower(c) by {
        lemma_case_change_char(c);
    }
    lemma_slug_of_mapped_title(title, up);
    lemma_slug_of_mapped_title(title, low);
}

/// Splitting text joined at a separator gives the pieces of both sides.
proof fn lemma_split_pieces_concat(x: Seq<char>, c: char, y: Seq<char>)
    requires
        is_separator(c),
    ensures
        split_pieces(x + seq![c] + y) == split_pieces(x) + split_pieces(y),
    decreases y.len(),
{
    let z = x + seq![c] + y;
    if y.len() == 0 {
        assert(z =~= x.push(c));
        assert(z.drop_last() =~= x);
        assert(split_pieces(z) =~= split_pieces(x) + split_pieces(y));
    } else {
        let y0 = y.drop_last();
        lemma_split_pieces_concat(x, c, y0);
        assert(z.drop_last() =~= x + seq![c] + y0);
        assert(z.last() == y.last());
        lemma_split_pieces_nonempty(y0);
        assert(split_pieces(z) =~= split_pieces(x) + split_pieces(y));
    }
}

/// A text without separators is a single piece.
proof fn lemma_split_pieces_of_word(w: Seq<char>)
    requires
        forall|i: int| 0 <= i < w.len() ==> !is_separator(#[trigger] w[i]),
    ensures
        split_pieces(w) == seq![w],
    decreases w.len(),
{
    if w.len() == 0 {
        assert(w =~= Seq::<char>::empty());
        assert(split_pieces(w) =~= seq![w]);
    } else {
        let t = w.drop_last();
        assert forall|i: int| 0 <= i < t.len() implies !is_separator(#[trigger] t[i]) by {
            assert(t[i] == w[i]);
        }
        lemma_split_pieces_of_word(t);
        assert(!is_separator(w[w.len() - 1]));
        assert(t.push(w.last()) =~= w);
        assert(w.drop_last() == t);
        assert(split_pieces(w) == seq![t].update(0, t.push(w.last())));
        assert(seq![t].update(0, w) =~= seq![w]);
    }
}

/// Splitting parts joined by `-` gives the parts back, where no part holds a separator.
proof fn lemma_split_pieces_of_join(parts: Seq<Seq<char>>)
    requires
        parts.len() >= 1,
        forall|k: int, i: int|
            0 <= k < parts.len() && 0 <= i < parts[k].len() ==> !is_separator(#[trigger] parts[k][i]),
    ensures
        split_pieces(join_with(parts, seq!['-'])) == parts,
    decreases parts.len(),
{
    let last = parts.last();
    assert forall|i: int| 0 <= i < last.len() implies !is_separator(#[trigger] last[i]) by {
        assert(last[i] == parts[parts.len() - 1][i]);
    }
    lemma_split_pieces_of_word(last);
    if parts.len() == 1 {
        assert(seq![last] =~= parts);
    } else {
        let init = parts.drop_last();
        assert forall|k: int, i: int|
            0 <= k < init.len() && 0 <= i < init[k].len() implies !is_separator(
            #[trigger] init[k][i],
        ) by {
            assert(init[k] == parts[k]);
        }
        lemma_split_pieces_of_join(init);
        assert(is_separator('-'));
        lemma_split_pieces_concat(join_with(init, seq!['-']), '-', last);
        assert(init + seq![last] =~= parts);
    }
}

proof fn lemma_join_concat(xs: Seq<Seq<char>>, ys: Seq<Seq<char>>, sep: Seq<char>)
    requires
        xs.len() >= 1,
        ys.len() >= 1,
    ensures
        join_with(xs + ys, sep) == join_with(xs, sep) + sep + join_with(ys, sep),
    decreases ys.len(),
{
    let zs = xs + ys;
    if ys.len() == 1 {
        assert(zs.drop_last() =~= xs);
        assert(zs.last() == ys[0]);
    } else {
        let y0 = ys.drop_last();
        lemma_join_concat(xs, y0, sep);
        assert(zs.drop_last() =~= xs + y0);
        assert(zs.last() == ys.last());
        assert(join_with(zs, sep) =~= join_with(xs, sep) + sep + join_with(ys, sep));
    }
}

/// Every character of every cleaned word of a title may stand in a cleaned word.
proof fn lemma_cleaned_word_chars(title: Seq<char>)
    ensures
        forall|k: int, i: int|
            0 <= k < cleaned_words(title).len() && 0 <= i < cleaned_words(title)[k].len()
                ==> is_slug_word_char(#[trigger] cleaned_words(title)[k][i]),
{
    let pieces = split_pieces(title);
    let wq = |w: Seq<char>| w.len() > 0;
    let ws = pieces.filter(wq);
    lemma_pieces_chars(title);
    let word_ok = |w: Seq<char>| forall|i: int| 0 <= i < w.len() ==> !is_separator(#[trigger] w[i]);
    assert forall|k: int| 0 <= k < pieces.len() implies word_ok(#[trigger] pieces[k]) by {
        assert forall|i: int| 0 <= i < pieces[k].len() implies !is_separator(
            #[trigger] pieces[k][i],
        ) by {}
    }
    lemma_filter_all(pieces, wq, word_ok);
    let cleaned = ws.map_values(|w: Seq<char>| clean_word(w));
    assert forall|k: int, i: int|
        0 <= k < cleaned.len() && 0 <= i < cleaned[k].len() implies is_slug_word_char(
        #[trigger] cleaned[k][i],
    ) by {
        let w = ws[k];
        assert(word_ok(w));
        let nq = |c: char| !is_quote(c);
        let kept = w.filter(nq);
        let sepfree = |c: char| !is_separator(c);
        assert forall|m: int| 0 <= m < w.len() implies sepfree(#[trigger] w[m]) by {
            assert(word_ok(w));
        }
        lemma_filter_all(w, nq, sepfree);
        assert(cleaned[k] == kept.map_values(|c: char| ascii_lower(c)));
        let c0 = kept[i];
        assert(nq(c0)) by {
            w.lemma_filter_pred(nq, i);
        }
        lemma_lower_of_word_char(c0);
    }
}

/// Law: slugging a slug changes nothing, where every word of the title holds
/// a character other than a quotation mark (else that word leaves an empty
/// part between two `-`, which a second slugging drops).
pub proof fn lemma_slugify_idempotent(title: Seq<char>)
    requires
        forall|k: int|
            0 <= k < words(title).len() ==> clean_word(#[trigger] words(title)[k]).len() > 0,
    ensures
        spec_slugify(spec_slugify(title)) == spec_slugify(title),
{
    let cl = |w: Seq<char>| clean_word(w);
    let ne = |w: Seq<char>| w.len() > 0;
    let parts = cleaned_words(title);
    let slug = spec_slugify(title);
    lemma_cleaned_word_chars(title);
    if parts.len() == 0 {
        assert(slug =~= Seq::<char>::empty());
        assert(split_pieces(slug) =~= seq![Seq::<char>::empty()]);
        assert(split_pieces(slug).filter(ne) =~= Seq::<Seq<char>>::empty()) by {
            reveal_with_fuel(Seq::<Seq<char>>::filter, 2);
        }
        assert(words(slug).map_values(cl) =~= Seq::<Seq<char>>::empty());
    } else {
        lemma_split_pieces_of_join(parts);
        assert forall|k: int| 0 <= k < parts.len() implies ne(#[trigger] parts[k]) by {
            assert(parts[k] == clean_word(words(title)[k]));
        }
        lemma_filter_keeps_all(parts, ne);
        assert(words(slug) == parts);
        assert forall|k: int| 0 <= k < parts.len() implies cl(#[trigger] parts[k]) == parts[k] by {
            let w = parts[k];
            let nq = |c: char| !is_quote(c);
            assert forall|i: int| 0 <= i < w.len() implies nq(#[trigger] w[i]) by {
                assert(is_slug_word_char(parts[k][i]));
            }
            lemma_filter_keeps_all(w, nq);
            assert(w.map_values(|c: char| ascii_lower(c)) =~= w) by {
                assert forall|i: int| 0 <= i < w.len() implies ascii_lower(w[i]) == w[i] by {
                    assert(is_slug_word_char(parts[k][i]));
                }
            }
        }
        assert(parts.map_values(cl) =~= parts);
    }
}

/// Law: the slug of two titles joined by a space is their slugs joined by
/// `-`, where neither slug is empty.
pub proof fn lemma_slug_of_joined_titles(a: Seq<char>, b: Seq<char>)
    requires
        spec_slugify(a).len() > 0,
        spec_slugify(b).len() > 0,
    ensures
        spec_slugify(a + seq![' '] + b) == spec_slugify(a) + seq!['-'] + spec_slugify(b),
{
    let cl = |w: Seq<char>| clean_word(w);
    let ne = |w: Seq<char>| w.len() > 0;
    assert(is_separator(' '));
    lemma_split_pieces_concat(a, ' ', b);
    Seq::filter_distributes_over_add(split_pieces(a), split_pieces(b), ne);
    let wa = cleaned_words(a);
    let wb = cleaned_words(b);
    assert(cleaned_words(a + seq![' '] + b) =~= wa + wb);
    assert(wa.len() > 0);
    assert(wb.len() > 0);
    lemma_join_concat(wa, wb, seq!['-']);
}

/// Law: the characters that split a title into words are exactly those that
/// are neither alphanumeric nor `'` or `"`: at any such character, the slug of
/// two titles joined there is their slugs joined by `-`, where neither slug
/// is empty.
pub proof fn lemma_slug_of_titles_joined_at(a: Seq<char>, c: char, b: Seq<char>)
    requires
        !(c == '\'' || c == '"' || is_alphanumeric(c)),
        spec_slugify(a).len() > 0,
        spec_slugify(b).len() > 0,
    ensures
        spec_slugify(a + seq![c] + b) == spec_slugify(a) + seq!['-'] + spec_slugify(b),
{
    let ne = |w: Seq<char>| w.len() > 0;
    assert(is_separator(c));
    lemma_split_pieces_concat(a, c, b);
    Seq::filter_distributes_over_add(split_pieces(a), split_pieces(b), ne);
    let wa = cleaned_words(a);
    let wb = cleaned_words(b);
    assert(cleaned_words(a + seq![c] + b) =~= wa + wb);
    lemma_join_concat(wa, wb, seq!['-']);
}

/// The dashes of a text removed.
spec fn without_dashes(s: Seq<char>) -> Seq<char> {
    s.filter(|c: char| c != '-')
}

proof fn lemma_without_dashes_joined(init: Seq<Seq<char>>, x: Seq<char>)
    ensures
        without_dashes(joined_words(init.push(x))) == without_dashes(joined_words(init))
            + without_dashes(clean_word(x)),
{
    let nd = |c: char| c != '-';
    lemma_joined_words_push(init, x);
    if x.len() == 0 {
        assert(clean_word(x) =~= Seq::<char>::empty()) by {
            reveal(Seq::filter);
        }
        assert(without_dashes(clean_word(x)) =~= Seq::<char>::empty()) by {
            reveal(Seq::filter);
        }
        assert(without_dashes(joined_words(init)) + without_dashes(clean_word(x)) =~= without_dashes(
            joined_words(init),
        ));
    } else if word_count(init) == 0 {
        assert(init.filter(|w: Seq<char>| w.len() > 0).map_values(|w: Seq<char>| clean_word(w))
            =~= Seq::<Seq<char>>::empty());
        assert(joined_words(init) =~= Seq::<char>::empty());
        assert(without_dashes(joined_words(init)) =~= Seq::<char>::empty()) by {
            reveal(Seq::filter);
        }
        assert(without_dashes(joined_words(init)) + without_dashes(clean_word(x)) =~= without_dashes(
            clean_word(x),
        ));
    } else {
        let j = joined_words(init);
        Seq::filter_distributes_over_add(j + seq!['-'], clean_word(x), nd);
        Seq::filter_distributes_over_add(j, seq!['-'], nd);
        assert(seq!['-'] =~= Seq::<char>::empty().push('-'));
        lemma_filter_push(Seq::<char>::empty(), '-', nd);
        assert(Seq::<char>::empty().filter(nd) =~= Seq::<char>::empty()) by {
            reveal(Seq::filter);
        }
        assert(seq!['-'].filter(nd) =~= Seq::<char>::empty());
        assert(without_dashes(j) + Seq::<char>::empty() =~= without_dashes(j));
    }
}

/// The ASCII lowercase of a character of a word is no `-`.
proof fn lemma_lower_is_not_dash(c: char)
    requires
        !is_separator(c),
    ensures
        ascii_lower(c) != '-',
{
    if 'A' <= c && c <= 'Z' {
        let n: int = (c as u32) + 32;
        assert(n as char as u32 == n);
    }
    assert(is_separator('-'));
}

/// Law: no alphanumeric character of a title is lost, and nothing else is
/// kept: the slug's characters other than `-` are, in order, the title's
/// alphanumeric characters other than `'` and `"`, with `A`..=`Z` lowercased.
pub proof fn lemma_slug_keeps_alphanumerics(title: Seq<char>)
    ensures
        spec_slugify(title).filter(|c: char| c != '-') == title.filter(
            |c: char| is_alphanumeric(c) && c != '\'' && c != '"',
        ).map_values(
            (|c: char|
                if 'A' <= c && c <= 'Z' {
                    ((c as u32) + 32) as char
                } else {
                    c
                }),
        ),
    decreases title.len(),
{
    let nd = |c: char| c != '-';
    let keep = |c: char| is_alphanumeric(c) && c != '\'' && c != '"';
    let low = |c: char|
        if 'A' <= c && c <= 'Z' {
            ((c as u32) + 32) as char
        } else {
            c
        };
    lemma_split_pieces_nonempty(title);
    let pieces = split_pieces(title);
    assert(spec_slugify(title) == joined_words(pieces));
    if title.len() == 0 {
        reveal(Seq::filter);
        assert(pieces.drop_last() =~= Seq::<Seq<char>>::empty());
        lemma_without_dashes_joined(Seq::<Seq<char>>::empty(), Seq::<char>::empty());
        assert(Seq::<Seq<char>>::empty().push(Seq::<char>::empty()) =~= pieces);
        assert(Seq::<Seq<char>>::empty().filter(|w: Seq<char>| w.len() > 0) =~= Seq::<
            Seq<char>,
        >::empty());
        assert(joined_words(Seq::<Seq<char>>::empty()) =~= Seq::<char>::empty());
        assert(title.filter(keep).map_values(low) =~= Seq::<char>::empty());
        assert(spec_slugify(title).filter(nd) =~= Seq::<char>::empty());
    } else {
        let t = title.drop_last();
        let c = title.last();
        lemma_slug_keeps_alphanumerics(t);
        lemma_split_pieces_nonempty(t);
        let prev = split_pieces(t);
        let init = prev.drop_last();
        let last = prev.last();
        assert(prev =~= init.push(last));
        assert(spec_slugify(t) == joined_words(prev));
        assert(title =~= t.push(c));
        lemma_filter_push(t, c, keep);
        if is_separator(c) {
            assert(pieces =~= prev.push(Seq::<char>::empty()));
            lemma_joined_words_push(prev, Seq::<char>::empty());
            assert(!keep(c));
        } else {
            assert(pieces =~= init.push(last.push(c)));
            lemma_without_dashes_joined(init, last);
            lemma_without_dashes_joined(init, last.push(c));
            lemma_clean_word_push(last, c);
            lemma_lower_is_not_dash(c);
            assert(keep(c) == !is_quote(c));
            assert(low(c) == ascii_lower(c));
            if !is_quote(c) {
                lemma_filter_push(clean_word(last), ascii_lower(c), nd);
                assert(t.filter(keep).push(c).map_values(low) =~= t.filter(keep).map_values(
                    low,
                ).push(low(c)));
            }
        }
    }
}

/// Law: a title made only of ASCII letters and digits slugs to its ASCII
/// lowercase: no such character splits a word or is dropped.
pub proof fn lemma_slug_of_ascii_alphanumeric_title(title: Seq<char>)
    requires
        forall|i: int|
            0 <= i < title.len() ==> {
                let c = #[trigger] title[i];
                ('a' <= c && c <= 'z') || ('A' <= c && c <= 'Z') || ('0' <= c && c <= '9')
            },
    ensures
        spec_slugify(title) == title.map_values(
            (|c: char|
                if 'A' <= c && c <= 'Z' {
                    ((c as u32) + 32) as char
                } else {
                    c
                }),
        ),
{
    let ne = |w: Seq<char>| w.len() > 0;
    let nq = |c: char| !is_quote(c);
    assert forall|i: int| 0 <= i < title.len() implies !is_separator(#[trigger] title[i]) by {
        let c = title[i];
        assert((c as u32) < 0x80);
    }
    lemma_split_pieces_of_word(title);
    if title.len() == 0 {
        assert(seq![title] =~= Seq::<Seq<char>>::empty().push(title));
        lemma_filter_push(Seq::<Seq<char>>::empty(), title, ne);
        assert(Seq::<Seq<char>>::empty().filter(ne) =~= Seq::<Seq<char>>::empty()) by {
            reveal(Seq::filter);
        }
        assert(seq![title].filter(ne) =~= Seq::<Seq<char>>::empty());
        assert(cleaned_words(title) =~= Seq::<Seq<char>>::empty());
        assert(spec_slugify(title) =~= title.map_values(|c: char| ascii_lower(c)));
    } else {
        assert(seq![title][0] == title);
        lemma_filter_keeps_all(seq![title], ne);
        assert(cleaned_words(title) =~= seq![clean_word(title)]);
        assert forall|i: int| 0 <= i < title.len() implies nq(#[trigger] title[i]) by {}
        lemma_filter_keeps_all(title, nq);
        assert(spec_slugify(title) =~= title.map_values(|c: char| ascii_lower(c)));
    }
}

/// Splitting two texts written one after the other: the last piece of the
/// first and the first piece of the second become one piece.
proof fn lemma_split_pieces_append(x: Seq<char>, y: Seq<char>)
    ensures
        split_pieces(x + y) == split_pieces(x).drop_last() + seq![
            split_pieces(x).last() + split_pieces(y)[0],
        ] + split_pieces(y).drop_first(),
    decreases y.len(),
{
    lemma_split_pieces_nonempty(x);
    lemma_split_pieces_nonempty(y);
    let p = split_pieces(x);
    if y.len() == 0 {
        assert(x + y =~= x);
        assert(split_pieces(y) =~= seq![Seq::<char>::empty()]);
        assert(p.last() + Seq::<char>::empty() =~= p.last());
        assert(p.drop_last() + seq![p.last()] + split_pieces(y).drop_first() =~= p);
    } else {
        let y0 = y.drop_last();
        let c = y.last();
        lemma_split_pieces_append(x, y0);
        lemma_split_pieces_nonempty(y0);
        let q0 = split_pieces(y0);
        let q = split_pieces(y);
        assert((x + y).drop_last() =~= x + y0);
        assert((x + y).last() == c);
        let r0 = split_pieces(x + y0);
        if is_separator(c) {
            assert(q == q0.push(Seq::<char>::empty()));
            assert(split_pieces(x + y) == r0.push(Seq::<char>::empty()));
            assert(r0.push(Seq::<char>::empty()) =~= p.drop_last() + seq![p.last() + q[0]]
                + q.drop_first());
        } else {
            assert(q == q0.update(q0.len() - 1, q0.last().push(c)));
            assert(split_pieces(x + y) == r0.update(r0.len() - 1, r0.last().push(c)));
            if q0.len() == 1 {
                assert((p.last() + q0[0]).push(c) =~= p.last() + q[0]);
            }
            assert(r0.update(r0.len() - 1, r0.last().push(c)) =~= p.drop_last() + seq![
                p.last() + q[0],
            ] + q.drop_first());
        }
    }
}

/// Law: `'` and `"` inside a word are dropped without splitting it: where
/// the text before the quotation mark ends in an alphanumeric character, the
/// title slugs as it would without the mark.
pub proof fn lemma_slug_drops_quote_inside_word(a: Seq<char>, q: char, b: Seq<char>)
    requires
        q == '\'' || q == '"',
        a.len() > 0,
        is_alphanumeric(a.last()),
    ensures
        spec_slugify(a + seq![q] + b) == spec_slugify(a + b),
{
    let ne = |w: Seq<char>| w.len() > 0;
    let nq = |c: char| !is_quote(c);
    let f = |w: Seq<char>| clean_word(w);
    let aq = a + seq![q];
    lemma_split_pieces_nonempty(a);
    lemma_split_pieces_nonempty(b);
    let p = split_pieces(a);
    let qb = split_pieces(b);
    assert(aq.drop_last() =~= a);
    assert(aq.last() == q);
    assert(!is_separator(q));
    assert(!is_separator(a.last()));
    lemma_split_pieces_nonempty(a.drop_last());
    let pa = split_pieces(a.drop_last());
    assert(p == pa.update(pa.len() - 1, pa.last().push(a.last())));
    assert(p.last() == pa.last().push(a.last()));
    assert(p.last().len() > 0);
    assert(split_pieces(aq) == p.update(p.len() - 1, p.last().push(q)));
    lemma_split_pieces_append(aq, b);
    lemma_split_pieces_append(a, b);
    assert(aq + b =~= a + seq![q] + b);
    let d = p.drop_last();
    let e = qb.drop_first();
    let m1 = p.last().push(q) + qb[0];
    let m2 = p.last() + qb[0];
    assert(split_pieces(aq).drop_last() =~= d);
    assert(split_pieces(aq).last() =~= p.last().push(q));
    assert(split_pieces(a + seq![q] + b) == d + seq![m1] + e);
    assert(split_pieces(a + b) == d + seq![m2] + e);
    // the middle pieces give the same word
    assert(m1 =~= p.last() + seq![q] + qb[0]);
    Seq::filter_distributes_over_add(p.last() + seq![q], qb[0], nq);
    Seq::filter_distributes_over_add(p.last(), seq![q], nq);
    Seq::filter_distributes_over_add(p.last(), qb[0], nq);
    assert(seq![q] =~= Seq::<char>::empty().push(q));
    lemma_filter_push(Seq::<char>::empty(), q, nq);
    assert(Seq::<char>::empty().filter(nq) =~= Seq::<char>::empty()) by {
        reveal(Seq::filter);
    }
    assert(p.last().filter(nq) + Seq::<char>::empty() =~= p.last().filter(nq));
    assert(m1.filter(nq) == m2.filter(nq));
    assert(clean_word(m1) == clean_word(m2));
    // and the words around them are the same
    assert(m1.len() > 0 && m2.len() > 0);
    Seq::filter_distributes_over_add(d + seq![m1], e, ne);
    Seq::filter_distributes_over_add(d, seq![m1], ne);
    Seq::filter_distributes_over_add(d + seq![m2], e, ne);
    Seq::filter_distributes_over_add(d, seq![m2], ne);
    assert(seq![m1] =~= Seq::<Seq<char>>::empty().push(m1));
    assert(seq![m2] =~= Seq::<Seq<char>>::empty().push(m2));
    lemma_filter_push(Seq::<Seq<char>>::empty(), m1, ne);
    lemma_filter_push(Seq::<Seq<char>>::empty(), m2, ne);
    assert(Seq::<Seq<char>>::empty().filter(ne) =~= Seq::<Seq<char>>::empty()) by {
        reveal(Seq::filter);
    }
    let w1 = d.filter(ne) + seq![m1] + e.filter(ne);
    let w2 = d.filter(ne) + seq![m2] + e.filter(ne);
    assert(words(a + seq![q] + b) =~= w1);
    assert(words(a + b) =~= w2);
    assert(w1.map_values(f) =~= w2.map_values(f));
    assert(cleaned_words(a + seq![q] + b) == cleaned_words(a + b));
}

// ---------------------------------------------------------------------------
// Passwords
// ---------------------------------------------------------------------------

/// The error type of the password-hash crate (re-exported by argon2).
#[verifier::external_type_specification]
#[verifier::external_body]
pub struct ExPasswordHashError(PasswordHashError);

/// A parsed PHC string of the password-hash crate.
#[verifier::external_type_specification]
#[verifier::external_body]
pub struct ExPasswordHash<'a>(PasswordHash<'a>);

/// Whether `PasswordHash::new` accepts a string as a PHC string.
pub uninterp spec fn phc_is_well_formed(phc: Seq<char>) -> bool;

/// Whether Argon2, with its default configuration, verifies `password`
/// against the hash that the PHC string `phc` holds.
pub uninterp spec fn argon2_accepts(password: Seq<char>, phc: Seq<char>) -> bool;

/// Whether Argon2 cannot carry out the check of `password` against the PHC
/// string `phc`: the string records a salt and a hash, but recomputing the
/// hash fails for a reason other than the password (an algorithm, version,
/// parameter or salt that Argon2 does not support).
pub uninterp spec fn argon2_check_fails(password: Seq<char>, phc: Seq<char>) -> bool;

/// The longest passwords, in UTF-8 bytes, that Argon2 takes (`MAX_PWD_LEN`).
pub open spec fn max_password_bytes() -> nat {
    0xFFFF_FFFF
}

/// The B64 text (unpadded) that `SaltString::encode_b64` makes of salt bytes.
pub uninterp spec fn salt_b64_text(salt: Seq<u8>) -> Seq<char>;

/// The outcome of checking a password against a stored PHC string.
pub enum PasswordVerdict {
    /// The password is the one the hash was made from.
    Matches,
    /// The hash was checked and the password is not the one it was made from.
    WrongPassword,
    /// The hash cannot be checked (unsupported algorithm, version or parameters).
    Unverifiable,
    /// The stored string is no PHC string.
    MalformedHash,
}

/// How checking `password` against the stored string `phc` comes out.
pub open spec fn password_verdict(password: Seq<char>, phc: Seq<char>) -> PasswordVerdict {
    if !phc_is_well_formed(phc) {
        PasswordVerdict::MalformedHash
    } else if argon2_check_fails(password, phc) {
        PasswordVerdict::Unverifiable
    } else if argon2_accepts(password, phc) {
        PasswordVerdict::Matches
    } else {
        PasswordVerdict::WrongPassword
    }
}

/// The PHC prefix of a hash made by Argon2's default configuration.
pub open spec fn argon2id_v19_prefix() -> Seq<char> {
    "$argon2id$v=19$"@
}

/// What `hash_password` promises of a hash it made of `password`: an
/// argon2id version 19 PHC string that the password matches, and against
/// which every password can be checked.
pub open spec fn is_hash_of(password: Seq<char>, phc: Seq<char>) -> bool {
    &&& password_verdict(password, phc) == PasswordVerdict::Matches
    &&& argon2id_v19_prefix().is_prefix_of(phc)
    &&& forall|q: Seq<char>| !argon2_check_fails(q, phc)
}

/// Whether a PHC string made by Argon2's default configuration records the
/// given salt: it starts `$argon2id$v=19$m=19456,t=2,p=1$`, then the salt's
/// B64 text and `$` (the hash output follows).
pub open spec fn records_salt(phc: Seq<char>, salt: Seq<u8>) -> bool {
    (argon2id_v19_prefix() + "m=19456,t=2,p=1$"@ + salt_b64_text(salt) + "$"@).is_prefix_of(phc)
}

/// A stored password hash together with the PHC string it was parsed from.
/// Its fields are private: only `parse_password_hash` builds one.
pub struct PhcHash<'a> {
    text: &'a str,
    parsed: PasswordHash<'a>,
}

impl<'a> PhcHash<'a> {
    /// The PHC string this hash was parsed from.
    pub closed spec fn phc(&self) -> Seq<char> {
        self.text@
    }
}

/// Why a password was not verified.
#[derive(Debug)]
pub enum PasswordCheckFailure {
    /// The password is not the one the hash was made from.
    Mismatch,
    /// Verification could not be carried out (e.g. unsupported parameters).
    Other(PasswordHashError),
}

/// `PasswordHash::new` of password-hash: parses a PHC string. Claimed: it
/// succeeds exactly on the strings that `phc_is_well_formed` names, and the
/// result keeps the very text that was parsed beside its parsed form.
#[verifier::external_body]
fn parse_password_hash<'a>(phc: &'a str) -> (r: Result<PhcHash<'a>, PasswordHashError>)
    ensures
        r is Ok <==> phc_is_well_formed(phc@),
        r matches Ok(h) ==> h.phc() == phc@,
{
    match PasswordHash::new(phc) {
        Ok(parsed) => Ok(PhcHash { text: phc, parsed }),
        Err(e) => Err(e),
    }
}

/// `PasswordVerifier::verify_password` of password-hash, on `Argon2::default()`.
/// Claimed, of the password and the PHC string the hash was parsed from (a
/// `PhcHash` is only built by `parse_password_hash`, so its parsed form is
/// that of its text): it succeeds exactly when `argon2_accepts` holds; the
/// outside `Error::Password` (no salt or hash recorded, a computed hash that
/// differs, or a password too long for Argon2) becomes `Mismatch`; every other
/// error, which comes exactly when `argon2_check_fails` holds, becomes `Other`.
/// (Like every allocation, the memory that the hash's parameters ask for is
/// assumed to be available.)
#[verifier::external_body]
fn argon2_verify(password: &str, hash: &PhcHash) -> (r: Result<(), PasswordCheckFailure>)
    ensures
        r is Ok <==> argon2_accepts(password@, hash.phc()),
        r matches Err(PasswordCheckFailure::Other(_)) <==> argon2_check_fails(password@, hash.phc()),
        r matches Err(PasswordCheckFailure::Mismatch) <==> (!argon2_accepts(password@, hash.phc())
            && !argon2_check_fails(password@, hash.phc())),
{
    match Argon2::default().verify_password(password.as_bytes(), &hash.parsed) {
        Ok(()) => Ok(()),
        Err(PasswordHashError::Password) => Err(PasswordCheckFailure::Mismatch),
        Err(e) => Err(PasswordCheckFailure::Other(e)),
    }
}

/// Fills a salt of `Salt::RECOMMENDED_LENGTH` (16) bytes from the operating
/// system's random source (`RngCore::try_fill_bytes` of rand_core's `OsRng`),
/// as `SaltString::generate` does. `None` when the random source fails; only
/// the length of a salt is claimed.
#[verifier::external_body]
fn random_salt() -> (salt: Option<Vec<u8>>)
    ensures
        salt matches Some(s) ==> s@.len() == 16,
{
    let mut salt = vec![0u8; Salt::RECOMMENDED_LENGTH];
    match OsRng.try_fill_bytes(&mut salt) {
        Ok(()) => Some(salt),
        Err(_) => None,
    }
}

/// `PasswordHasher::hash_password` of password-hash, on `Argon2::default()`,
/// with the salt given as bytes (encoded by `SaltString::encode_b64`) and the
/// result written as its PHC string (`to_string`). A salt of fewer than 3
/// bytes encodes to fewer than the 4 characters a `Salt` needs and makes the
/// hasher panic, so the salt must be 8 to 48 bytes (Argon2's minimum; 64
/// encoded characters at most). Claimed:
/// - it succeeds for a password within Argon2's `MAX_PWD_LEN` bytes, the
///   only input left that `verify_inputs` checks;
/// - the string is `$argon2id$v=19$m=19456,t=2,p=1$`, the salt's B64 text,
///   `$` and the hash output (the default parameters, written by the PHC
///   `Display`); it parses again (password-hash documents its serialized
///   hashes as parsing), and Argon2 verifies the same password against it;
/// - its algorithm, version, parameters and salt are Argon2's own, so the
///   check of any password against it can be carried out (a password too
///   long for Argon2 is a mismatch there, not a failure of the check).
#[verifier::external_body]
fn argon2_hash(password: &str, salt: &[u8]) -> (r: Result<String, PasswordHashError>)
    requires
        8 <= salt@.len() <= 48,
    ensures
        encode_utf8(password@).len() <= max_password_bytes() ==> r is Ok,
        r matches Ok(phc) ==> is_hash_of(password@, phc@),
        r matches Ok(phc) ==> (argon2id_v19_prefix() + "m=19456,t=2,p=1$"@ + salt_b64_text(salt@)
            + "$"@).is_prefix_of(phc@),
{
    let salt = match SaltString::encode_b64(salt) {
        Ok(s) => s,
        Err(e) => return Err(e),
    };
    match Argon2::default().hash_password(password.as_bytes(), &salt) {
        Ok(h) => Ok(h.to_string()),
        Err(e) => Err(e),
    }
}

/// Hashes a password with Argon2 and the given salt, giving its PHC string:
/// an argon2id version 19 hash that the password matches and that records
/// the salt. It succeeds on every password Argon2 takes (up to 2^32 - 1
/// bytes); a failure of the hasher is reported as `PasswordHashing`.
pub fn hash_password_with_salt(password: &str, salt: &[u8]) -> (r: Result<String, Error>)
    requires
        8 <= salt@.len() <= 48,
    ensures
        encode_utf8(password@).len() <= max_password_bytes() ==> r is Ok,
        r matches Ok(phc) ==> is_hash_of(password@, phc@) && records_salt(phc@, salt@),
        r matches Err(e) ==> e is PasswordHashing,
{
    match argon2_hash(password, salt) {
        Ok(phc) => Ok(phc),
        Err(e) => Err(Error::PasswordHashing(e)),
    }
}

/// Hashes a password with the salt that the random source gave, if it gave
/// one: no salt is `SaltUnavailable`, and nothing else is; with a salt the
/// answer is that of `hash_password_with_salt`.
pub fn hash_password_with_salt_from(password: &str, salt: Option<Vec<u8>>) -> (r: Result<
    String,
    Error,
>)
    requires
        salt matches Some(s) ==> 8 <= s@.len() <= 48,
    ensures
        r matches Err(Error::SaltUnavailable) <==> salt is None,
        salt is Some && encode_utf8(password@).len() <= max_password_bytes() ==> r is Ok,
        salt matches Some(s) ==> (r matches Ok(phc) ==> is_hash_of(password@, phc@)
            && records_salt(phc@, s@)),
        salt is Some ==> (r matches Err(e) ==> e is PasswordHashing),
{
    match salt {
        None => Err(Error::SaltUnavailable),
        Some(salt) => hash_password_with_salt(password, salt.as_slice()),
    }
}

/// Hashes a password with Argon2 and a fresh random 16-byte salt, giving its
/// PHC string (see `hash_password_with_salt`). When the operating system's
/// random source fails there is no salt, and the answer is `SaltUnavailable`;
/// with a salt, hashing fails only for a password too long for Argon2.
pub fn hash_password(password: &str) -> (r: Result<String, Error>)
    ensures
        r matches Ok(phc) ==> is_hash_of(password@, phc@),
        r matches Ok(phc) ==> exists|s: Seq<u8>| s.len() == 16 && records_salt(phc@, s),
        r matches Err(e) ==> (e is PasswordHashing || e is SaltUnavailable),
        r matches Err(Error::PasswordHashing(_)) ==> encode_utf8(password@).len()
            > max_password_bytes(),
{
    let salt = random_salt();
    hash_password_with_salt_from(password, salt)
}

/// The answer to a password check: success stays success, a wrong password
/// is `Unauthorized`, and any other failure is `PasswordVerification`.
pub fn password_check_outcome(check: Result<(), PasswordCheckFailure>) -> (r: Result<(), Error>)
    ensures
        match check {
            Ok(()) => r is Ok,
            Err(PasswordCheckFailure::Mismatch) => r matches Err(Error::Unauthorized),
            Err(PasswordCheckFailure::Other(e)) => r == Err::<(), Error>(
                Error::PasswordVerification(e),
            ),
        },
{
    match check {
        Ok(()) => Ok(()),
        Err(PasswordCheckFailure::Mismatch) => Err(Error::Unauthorized),
        Err(PasswordCheckFailure::Other(e)) => Err(Error::PasswordVerification(e)),
    }
}

/// Whether the answer to a password check is the one its verdict calls for:
/// success for a match, `Unauthorized` for a wrong password,
/// `PasswordVerification` for a hash that cannot be checked, and
/// `MalformedPasswordHash` for a stored string that is no PHC string.
pub open spec fn answers_verdict(r: Result<(), Error>, verdict: PasswordVerdict) -> bool {
    match verdict {
        PasswordVerdict::Matches => r is Ok,
        PasswordVerdict::WrongPassword => r matches Err(Error::Unauthorized),
        PasswordVerdict::Unverifiable => r matches Err(Error::PasswordVerification(_)),
        PasswordVerdict::MalformedHash => r matches Err(Error::MalformedPasswordHash(_)),
    }
}

/// Checks a password against a stored PHC string, answering as its verdict
/// calls for: `Ok` for a match, `Unauthorized` for a wrong password.
pub fn verify_password(password: &str, password_hash: &str) -> (r: Result<(), Error>)
    ensures
        answers_verdict(r, password_verdict(password@, password_hash@)),
        r is Ok <==> (phc_is_well_formed(password_hash@) && argon2_accepts(
            password@,
            password_hash@,
        )),
{
    match parse_password_hash(password_hash) {
        Err(e) => Err(Error::MalformedPasswordHash(e)),
        Ok(hash) => password_check_outcome(argon2_verify(password, &hash)),
    }
}

/// Law: against a hash that `hash_password` made, any password is either
/// accepted or refused as a wrong password; the password it was made from
/// is accepted.
pub proof fn lemma_fresh_hash_verdicts(password: Seq<char>, phc: Seq<char>, other: Seq<char>)
    requires
        is_hash_of(password, phc),
    ensures
        password_verdict(password, phc) == PasswordVerdict::Matches,
        password_verdict(other, phc) == (if argon2_accepts(other, phc) {
            PasswordVerdict::Matches
        } else {
            PasswordVerdict::WrongPassword
        }),
{
}

} // verus!
