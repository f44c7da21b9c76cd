//! Parsing of typedpack schema files: the tokenizer, the recursive-descent
//! parser, and the error taxonomy.
//!
//! The tokenizer is specified exactly by [`spec_tokenize`]: a recursive
//! function over the input character sequence that either yields the token
//! list (text, line, column) or the first non-ASCII character outside a
//! comment.  The parser functions enforce the semantic rules of the language
//! and guarantee that every accepted IR is well-formed in the sense of
//! [`crate::ir::types_wf`].

use vstd::prelude::*;

use crate::ir::{Enum, Struct, StructField, StructFieldType, TaggedEnumVariant, Type,
    UntaggedEnumVariant};
use vstd::string::StrSliceExecFns;
use vstd::string::StringExecFns;

verus! {

/// The location a [`ParseError`] occurred at in the source file.
#[derive(Clone, Copy, Debug, PartialEq, Eq, Hash)]
pub struct Position {
    pub line: usize,
    pub column: usize,
}

/// The error type which is returned from [`parse`](crate::parse::parse).
#[derive(Clone, Debug)]
pub enum ParseError {
    DuplicateEnumVariantId { id: u8, pos: Position },
    DuplicateEnumVariantName { name: String, pos: Position },
    DuplicateStructFieldId { id: u8, pos: Position },
    DuplicateStructFieldName { name: String, pos: Position },
    DuplicateTypeName { name: String, pos: Position },
    InvalidEnumVariantId { id: String, pos: Position },
    InvalidStructFieldId { id: String, pos: Position },
    MixedTaggedAndUntaggedEnumVariants { pos: Position },
    NonAsciiCharacter { char: char, pos: Position },
    UnexpectedEnd { expected: &'static str },
    UnexpectedToken { unexpected: String, expected: &'static str, pos: Position },
    UnknownTaggedEnumVariantType { name: String, pos: Position },
}

/// A single token: a word or punctuation slice of the source, with the
/// position the tokenizer attached to it.
#[derive(Clone, Debug)]
pub(crate) struct Token {
    pub(crate) text: String,
    pub(crate) pos: Position,
}

/// A word-token character: ASCII alphanumeric or underscore.
pub open spec fn is_word_char(c: char) -> bool {
    let u = c as u32;
    (48 <= u < 58) || (65 <= u < 91) || (97 <= u < 123) || u == 95
}

/// An ASCII character.
pub open spec fn is_ascii_char(c: char) -> bool {
    (c as u32) < 128
}

/// ASCII whitespace other than the newline, which the tokenizer treats
/// specially.
pub open spec fn is_ws_char(c: char) -> bool {
    let u = c as u32;
    u == 9 || u == 11 || u == 12 || u == 13 || u == 32
}

/// A character that may start an identifier: an ASCII letter or underscore.
pub open spec fn is_ident_start_char(c: char) -> bool {
    let u = c as u32;
    (65 <= u < 91) || (97 <= u < 123) || u == 95
}

/// An ASCII digit.
pub open spec fn is_digit_char(c: char) -> bool {
    let u = c as u32;
    48 <= u < 58
}

fn word_char(c: char) -> (r: bool)
    ensures
        r == is_word_char(c),
{
    let u = c as u32;
    (48 <= u && u < 58) || (65 <= u && u < 91) || (97 <= u && u < 123) || u == 95
}

fn ascii_char(c: char) -> (r: bool)
    ensures
        r == is_ascii_char(c),
{
    (c as u32) < 128
}

fn ws_char(c: char) -> (r: bool)
    ensures
        r == is_ws_char(c),
{
    let u = c as u32;
    u == 9 || u == 11 || u == 12 || u == 13 || u == 32
}

fn ident_start_char(c: char) -> (r: bool)
    ensures
        r == is_ident_start_char(c),
{
    let u = c as u32;
    (65 <= u && u < 91) || (97 <= u && u < 123) || u == 95
}

fn digit_char(c: char) -> (r: bool)
    ensures
        r == is_digit_char(c),
{
    let u = c as u32;
    48 <= u && u < 58
}

/// Equality of two string slices, decided character by character.
pub(crate) fn str_eq(a: &str, b: &str) -> (r: bool)
    ensures
        r == (a@ == b@),
{
    let la = a.unicode_len();
    let lb = b.unicode_len();
    if la != lb {
        return false;
    }
    let mut i: usize = 0;
    while i < la
        invariant
            la as nat == a@.len(),
            la as nat == b@.len(),
            i <= la,
            forall|k: int| 0 <= k < i ==> a@[k] == b@[k],
        decreases la - i,
    {
        if a.get_char(i) != b.get_char(i) {
            return false;
        }
        i += 1;
    }
    proof {
        assert(a@ =~= b@);
    }
    true
}

/// What the tokenizer records about a token, as a mathematical value:
/// its text and its 1-based line and column.
pub(crate) open spec fn tok_view(t: Token) -> (Seq<char>, int, int) {
    (t.text@, t.pos.line as int, t.pos.column as int)
}

/// Every token has at least one character of text.
pub(crate) open spec fn toks_wf(ts: Seq<Token>) -> bool {
    forall|k: int| 0 <= k < ts.len() ==> (#[trigger] ts[k].text@).len() >= 1
}

/// One step of the tokenizer state machine, starting at character `i` with
/// the given line, column, comment flag, and pending word start (index and
/// column).  Returns the tokens from `i` to the end of the input, or the
/// first non-ASCII character outside a comment with its position.
pub open spec fn spec_tokenize_from(
    s: Seq<char>,
    i: int,
    line: int,
    col: int,
    comment: bool,
    pending: Option<(int, int)>,
) -> Result<Seq<(Seq<char>, int, int)>, (char, int, int)>
    decreases s.len() - i,
{
    if i < 0 || i >= s.len() {
        match pending {
            None => Ok(Seq::empty()),
            Some((st, pc)) => Ok(seq![(s.subrange(st, s.len() as int), line, pc)]),
        }
    } else {
        let c = s[i];
        if comment && c != '\n' {
            spec_tokenize_from(s, i + 1, line, col + 1, comment, pending)
        } else if is_word_char(c) {
            let pending2 = if pending is None {
                Some((i, col + 1))
            } else {
                pending
            };
            spec_tokenize_from(s, i + 1, line, col + 1, comment, pending2)
        } else {
            let col2 = col + 1;
            let flushed: Seq<(Seq<char>, int, int)> = match pending {
                None => Seq::empty(),
                Some((st, pc)) => seq![(s.subrange(st, i), line, pc)],
            };
            if !is_ascii_char(c) {
                Err((c, line, col2))
            } else if c == '#' {
                match spec_tokenize_from(s, i + 1, line, col2, true, None) {
                    Ok(rest) => Ok(flushed + rest),
                    Err(e) => Err(e),
                }
            } else if c == '\n' {
                match spec_tokenize_from(s, i + 1, line + 1, 0, false, None) {
                    Ok(rest) => Ok(flushed + rest),
                    Err(e) => Err(e),
                }
            } else if is_ws_char(c) {
                match spec_tokenize_from(s, i + 1, line, col2, comment, None) {
                    Ok(rest) => Ok(flushed + rest),
                    Err(e) => Err(e),
                }
            } else {
                match spec_tokenize_from(s, i + 1, line, col2, comment, None) {
                    Ok(rest) => Ok(flushed + seq![(s.subrange(i, i + 1), line, col2)] + rest),
                    Err(e) => Err(e),
                }
            }
        }
    }
}

/// The tokens of a whole source text, or its first lexical error.
pub open spec fn spec_tokenize(s: Seq<char>) -> Result<
    Seq<(Seq<char>, int, int)>,
    (char, int, int),
> {
    spec_tokenize_from(s, 0, 1, 0, false, None)
}

/// Prepends already-produced tokens to the outcome of the remaining input.
pub open spec fn tokenize_combine(
    prefix: Seq<(Seq<char>, int, int)>,
    r: Result<Seq<(Seq<char>, int, int)>, (char, int, int)>,
) -> Result<Seq<(Seq<char>, int, int)>, (char, int, int)> {
    match r {
        Ok(rest) => Ok(prefix + rest),
        Err(e) => Err(e),
    }
}

/// The view of an in-progress pending-word record.
pub open spec fn pending_view(p: Option<(usize, usize)>) -> Option<(int, int)> {
    match p {
        None => None,
        Some((a, b)) => Some((a as int, b as int)),
    }
}

/// Splits a source text into word and punctuation tokens, stripping `#` line
/// comments, and rejecting the first non-ASCII character outside a comment.
pub(crate) fn tokenize(s: &str) -> (r: Result<Vec<Token>, ParseError>)
    requires
        s@.len() < usize::MAX,
    ensures
        match r {
            Ok(toks) => spec_tokenize(s@) == Ok::<_, (char, int, int)>(
                toks@.map_values(|t: Token| tok_view(t)),
            ) && toks_wf(toks@),
            Err(e) => e matches ParseError::NonAsciiCharacter { char: c, pos } && spec_tokenize(
                s@,
            ) == Err::<Seq<(Seq<char>, int, int)>, _>((c, pos.line as int, pos.column as int)),
        },
{
    let n = s.unicode_len();
    let mut toks: Vec<Token> = Vec::new();
    let mut i: usize = 0;
    let mut line: usize = 1;
    let mut col: usize = 0;
    let mut comment = false;
    let mut pending: Option<(usize, usize)> = None;

    while i < n
        invariant
            n as nat == s@.len(),
            n < usize::MAX,
            i <= n,
            col <= i,
            1 <= line <= i + 1,
            pending matches Some((st, pc)) ==> st < i && 1 <= pc,
            toks_wf(toks@),
            spec_tokenize(s@) == tokenize_combine(
                toks@.map_values(|t: Token| tok_view(t)),
                spec_tokenize_from(
                    s@,
                    i as int,
                    line as int,
                    col as int,
                    comment,
                    pending_view(pending),
                ),
            ),
        decreases n - i,
    {
        let ghost prefix = toks@.map_values(|t: Token| tok_view(t));
        let ghost pre_state = spec_tokenize_from(
            s@,
            i as int,
            line as int,
            col as int,
            comment,
            pending_view(pending),
        );
        let c = s.get_char(i);
        if comment && c != '\n' {
            col = col + 1;
            i = i + 1;
        } else if word_char(c) {
            col = col + 1;
            if pending.is_none() {
                pending = Some((i, col));
            }
            i = i + 1;
        } else {
            col = col + 1;
            let ghost mut delta: Seq<(Seq<char>, int, int)> = Seq::empty();
            match pending {
                Some((st, pc)) => {
                    let text = String::from_str(s.substring_char(st, i));
                    toks.push(Token { text, pos: Position { line, column: pc } });
                    pending = None;
                    proof {
                        delta = seq![
                            (s@.subrange(st as int, i as int), line as int, pc as int),
                        ];
                    }
                }
                None => {}
            }
            proof {
                assert(toks@.map_values(|t: Token| tok_view(t)) =~= prefix + delta);
            }
            if !ascii_char(c) {
                return Err(ParseError::NonAsciiCharacter {
                    char: c,
                    pos: Position { line, column: col },
                });
            }
            if c == '#' {
                comment = true;
                i = i + 1;
            } else if c == '\n' {
                line = line + 1;
                col = 0;
                comment = false;
                i = i + 1;
            } else if ws_char(c) {
                i = i + 1;
            } else {
                let text = String::from_str(s.substring_char(i, i + 1));
                toks.push(Token { text, pos: Position { line, column: col } });
                proof {
                    delta = delta + seq![
                        (s@.subrange(i as int, i as int + 1), line as int, col as int),
                    ];
                    assert(toks@.map_values(|t: Token| tok_view(t)) =~= prefix + delta);
                }
                i = i + 1;
            }
            proof {
                let post = spec_tokenize_from(
                    s@,
                    i as int,
                    line as int,
                    col as int,
                    comment,
                    pending_view(pending),
                );
                match post {
                    Ok(rest) => {
                        assert(prefix + (delta + rest) =~= (prefix + delta) + rest);
                    }
                    Err(_) => {}
                }
            }
        }
    }
    let ghost prefix = toks@.map_values(|t: Token| tok_view(t));
    match pending {
        Some((st, pc)) => {
            let text = String::from_str(s.substring_char(st, n));
            toks.push(Token { text, pos: Position { line, column: pc } });
            proof {
                assert(toks@.map_values(|t: Token| tok_view(t)) =~= prefix + seq![
                    (s@.subrange(st as int, s@.len() as int), line as int, pc as int),
                ]);
            }
        }
        None => {
            proof {
                assert(toks@.map_values(|t: Token| tok_view(t)) =~= prefix + Seq::<
                    (Seq<char>, int, int),
                >::empty());
            }
        }
    }
    Ok(toks)
}


/// Digit characters only.
pub open spec fn all_digit_chars(s: Seq<char>) -> bool {
    forall|k: int| 0 <= k < s.len() ==> is_digit_char(#[trigger] s[k])
}

/// The numeric value of a run of decimal digits.
pub open spec fn digits_val(s: Seq<char>) -> int
    decreases s.len(),
{
    if s.len() == 0 {
        0
    } else {
        digits_val(s.drop_last()) * 10 + ((s.last() as u32) - 48)
    }
}

/// A valid id token: decimal digits, no leading zero unless the token is
/// exactly `0`, value at most 127.
pub open spec fn id_token_valid(s: Seq<char>) -> bool {
    &&& all_digit_chars(s)
    &&& s.len() > 0
    &&& (s[0] != '0' || s.len() == 1)
    &&& digits_val(s) <= 127
}

proof fn lemma_digits_val_nonneg(s: Seq<char>)
    requires
        all_digit_chars(s),
    ensures
        digits_val(s) >= 0,
    decreases s.len(),
{
    if s.len() > 0 {
        assert(all_digit_chars(s.drop_last()));
        lemma_digits_val_nonneg(s.drop_last());
    }
}

proof fn lemma_digits_val_mono(s: Seq<char>, k: int)
    requires
        all_digit_chars(s),
        0 <= k <= s.len(),
    ensures
        digits_val(s) >= digits_val(s.take(k)),
    decreases s.len() - k,
{
    if k < s.len() {
        lemma_digits_val_mono(s, k + 1);
        assert(s.take(k + 1).drop_last() =~= s.take(k));
        assert(s.take(k + 1).last() == s[k]);
        assert(all_digit_chars(s.take(k)));
        lemma_digits_val_nonneg(s.take(k));
        assert(digits_val(s.take(k + 1)) == digits_val(s.take(k)) * 10 + ((s[k] as u32) - 48));
        assert(digits_val(s.take(k + 1)) >= digits_val(s.take(k)));
    } else {
        assert(s.take(k) =~= s);
    }
}

/// The three outcomes of reading an id token.
enum IdParse {
    NotInt,
    Invalid,
    Id(u8),
}

/// Reads a field or variant id token: all-digits check, leading-zero rule,
/// and the range `[0, 127]`.
fn parse_id(t: &str) -> (r: IdParse)
    requires
        t@.len() >= 1,
    ensures
        match r {
            IdParse::NotInt => !all_digit_chars(t@),
            IdParse::Invalid => all_digit_chars(t@) && !id_token_valid(t@),
            IdParse::Id(v) => id_token_valid(t@) && v as int == digits_val(t@),
        },
{
    let n = t.unicode_len();
    let mut k: usize = 0;
    while k < n
        invariant
            n as nat == t@.len(),
            k <= n,
            forall|m: int| 0 <= m < k ==> is_digit_char(#[trigger] t@[m]),
        decreases n - k,
    {
        if !digit_char(t.get_char(k)) {
            return IdParse::NotInt;
        }
        k += 1;
    }
    if t.get_char(0) == '0' && n != 1 {
        return IdParse::Invalid;
    }
    let mut acc: u32 = 0;
    let mut k: usize = 0;
    while k < n
        invariant
            n as nat == t@.len(),
            k <= n,
            all_digit_chars(t@),
            acc <= 127,
            acc as int == digits_val(t@.take(k as int)),
        decreases n - k,
    {
        let d = (t.get_char(k) as u32) - 48;
        acc = acc * 10 + d;
        proof {
            assert(t@.take(k as int + 1).drop_last() =~= t@.take(k as int));
            assert(t@.take(k as int + 1).last() == t@[k as int]);
        }
        k += 1;
        if acc > 127 {
            proof {
                lemma_digits_val_mono(t@, k as int);
                assert(t@.take(t@.len() as int) =~= t@);
            }
            return IdParse::Invalid;
        }
    }
    proof {
        assert(t@.take(n as int) =~= t@);
    }
    IdParse::Id(acc as u8)
}

/// Whether some string in `ns` reads `n`.
pub open spec fn names_contain(ns: Seq<String>, n: Seq<char>) -> bool {
    exists|k: int| 0 <= k < ns.len() && #[trigger] ns[k]@ == n
}

fn names_contains(ns: &Vec<String>, n: &str) -> (r: bool)
    ensures
        r == names_contain(ns@, n@),
{
    let mut k: usize = 0;
    while k < ns.len()
        invariant
            k <= ns@.len(),
            forall|m: int| 0 <= m < k ==> #[trigger] ns@[m]@ != n@,
        decreases ns@.len() - k,
    {
        if str_eq(ns[k].as_str(), n) {
            return true;
        }
        k += 1;
    }
    false
}

fn ids_contains(ids: &Vec<u8>, id: u8) -> (r: bool)
    ensures
        r == ids@.contains(id),
{
    let mut k: usize = 0;
    while k < ids.len()
        invariant
            k <= ids@.len(),
            forall|m: int| 0 <= m < k ==> ids@[m] != id,
        decreases ids@.len() - k,
    {
        if ids[k] == id {
            return true;
        }
        k += 1;
    }
    false
}


proof fn lemma_names_view_contains(ns: Seq<String>, x: Seq<char>)
    ensures
        names_view(ns).contains(x) <==> names_contain(ns, x),
{
    if names_view(ns).contains(x) {
        let w = choose|w: int| 0 <= w < names_view(ns).len() && names_view(ns)[w] == x;
        assert(ns[w]@ == x);
    }
    if names_contain(ns, x) {
        let w = choose|w: int| 0 <= w < ns.len() && #[trigger] ns[w]@ == x;
        assert(names_view(ns)[w] == x);
    }
}


fn has_bytes_prefix(n: &str) -> (r: bool)
    ensures
        r == (n@.len() >= 5 && n@.subrange(0, 5) == "bytes"@),
{
    proof {
        reveal_strlit("bytes");
    }
    if n.unicode_len() < 5 {
        return false;
    }
    let r = n.get_char(0) == 'b' && n.get_char(1) == 'y' && n.get_char(2) == 't' && n.get_char(
        3,
    ) == 'e' && n.get_char(4) == 's';
    proof {
        if r {
            assert(n@.subrange(0, 5) =~= "bytes"@);
        } else {
            if n@.subrange(0, 5) == "bytes"@ {
                assert(n@[0] == n@.subrange(0, 5)[0]);
                assert(n@[1] == n@.subrange(0, 5)[1]);
                assert(n@[2] == n@.subrange(0, 5)[2]);
                assert(n@[3] == n@.subrange(0, 5)[3]);
                assert(n@[4] == n@.subrange(0, 5)[4]);
            }
        }
    }
    r
}

/// Reads the decimal suffix of a `bytesN` token, rejecting non-digits and
/// values that do not fit in a `u32`.
fn bytes_len_suffix(n: &str) -> (r: Option<u32>)
    requires
        n@.len() >= 6,
    ensures
        match r {
            Some(v) => all_digit_chars(n@.skip(5)) && digits_val(n@.skip(5)) <= u32::MAX && v
                as int == digits_val(n@.skip(5)),
            None => !(all_digit_chars(n@.skip(5)) && digits_val(n@.skip(5)) <= u32::MAX),
        },
{
    let len = n.unicode_len();
    let mut k: usize = 5;
    while k < len
        invariant
            len as nat == n@.len(),
            5 <= k <= len,
            forall|m: int| 5 <= m < k ==> is_digit_char(#[trigger] n@[m]),
        decreases len - k,
    {
        if !digit_char(n.get_char(k)) {
            proof {
                assert(n@.skip(5)[k - 5] == n@[k as int]);
            }
            return None;
        }
        k += 1;
    }
    proof {
        assert forall|m: int| 0 <= m < n@.skip(5).len() implies is_digit_char(
            #[trigger] n@.skip(5)[m],
        ) by {
            assert(n@.skip(5)[m] == n@[m + 5]);
        }
    }
    let mut acc: u64 = 0;
    let mut k: usize = 5;
    while k < len
        invariant
            len as nat == n@.len(),
            5 <= k <= len,
            all_digit_chars(n@.skip(5)),
            acc <= u32::MAX,
            acc as int == digits_val(n@.skip(5).take(k - 5)),
        decreases len - k,
    {
        let c = n.get_char(k);
        proof {
            assert(n@.skip(5)[k - 5] == n@[k as int]);
            assert(n@.skip(5).take(k - 5 + 1).drop_last() =~= n@.skip(5).take(k - 5));
            assert(n@.skip(5).take(k - 5 + 1).last() == n@.skip(5)[k - 5]);
        }
        let d = (c as u32) - 48;
        acc = acc * 10 + (d as u64);
        k += 1;
        if acc > u32::MAX as u64 {
            proof {
                lemma_digits_val_mono(n@.skip(5), k - 5);
                assert(n@.skip(5).take(n@.skip(5).len() as int) =~= n@.skip(5));
            }
            return None;
        }
    }
    proof {
        assert(n@.skip(5).take(n@.skip(5).len() as int) =~= n@.skip(5));
    }
    Some(acc as u32)
}

/// Resolves a type-name token to its base field type.
fn base_type_of(n: &str) -> (r: StructFieldType)
    requires
        n@.len() >= 1,
    ensures
        crate::ir::field_ty_view(r) == base_field_ty(n@),
{
    proof {
        reveal_strlit("bytes");
        reveal_strlit("bytes0");
        reveal_strlit("bool");
        reveal_strlit("uint8");
        reveal_strlit("int8");
        reveal_strlit("uint16");
        reveal_strlit("int16");
        reveal_strlit("uint32");
        reveal_strlit("int32");
        reveal_strlit("uint64");
        reveal_strlit("int64");
        reveal_strlit("float32");
        reveal_strlit("float64");
        reveal_strlit("string");
    }
    if str_eq(n, "bytes") {
        return StructFieldType::Bytes { len: None };
    }
    if str_eq(n, "bytes0") {
        return StructFieldType::Bytes { len: Some(0) };
    }
    if has_bytes_prefix(n) && n.unicode_len() >= 6 {
        let c5 = n.get_char(5);
        if digit_char(c5) && c5 != '0' {
            match bytes_len_suffix(n) {
                Some(v) => {
                    return StructFieldType::Bytes { len: Some(v) };
                }
                None => {
                    proof {
                        assert(n@.subrange(0, 5)[0] == n@[0]);
                        assert(n@[0] == 'b');
                    }
                    return StructFieldType::Reference { name: String::from_str(n) };
                }
            }
        }
    }
    if str_eq(n, "bool") {
        return StructFieldType::Bool;
    }
    if str_eq(n, "uint8") {
        return StructFieldType::U8;
    }
    if str_eq(n, "int8") {
        return StructFieldType::I8;
    }
    if str_eq(n, "uint16") {
        return StructFieldType::U16;
    }
    if str_eq(n, "int16") {
        return StructFieldType::I16;
    }
    if str_eq(n, "uint32") {
        return StructFieldType::U32;
    }
    if str_eq(n, "int32") {
        return StructFieldType::I32;
    }
    if str_eq(n, "uint64") {
        return StructFieldType::U64;
    }
    if str_eq(n, "int64") {
        return StructFieldType::I64;
    }
    if str_eq(n, "float32") {
        return StructFieldType::F32;
    }
    if str_eq(n, "float64") {
        return StructFieldType::F64;
    }
    if str_eq(n, "string") {
        return StructFieldType::String;
    }
    StructFieldType::Reference { name: String::from_str(n) }
}


/// Parses one struct field declaration:
/// `["optional"] ["nullable"] TYPENAME ("[" "]")* IDENT "=" UINT ";"`.
///
/// The result is exactly what [`sp_parse_struct_field`] yields on the token
/// views: the same field (id, name, type, modifiers), the same next index,
/// or the same error with its position.
#[verifier::rlimit(100)]
#[verifier::loop_isolation(false)]
pub(crate) fn parse_struct_field(
    toks: &Vec<Token>,
    i: usize,
    field_ids: &Vec<u8>,
    field_names: &Vec<String>,
) -> (r: Result<(StructField, usize), ParseError>)
    requires
        toks_wf(toks@),
        i <= toks@.len(),
    ensures
        ({
            let tts = toks@.map_values(|t: Token| tok_view(t));
            match r {
                Ok((f, j)) => sp_parse_struct_field(
                    tts,
                    i as int,
                    field_ids@,
                    names_view(field_names@),
                ) == Ok::<(crate::ir::FieldView, int), ParseErrorView>(
                    (crate::ir::field_view(f), j as int),
                ),
                Err(e) => sp_parse_struct_field(
                    tts,
                    i as int,
                    field_ids@,
                    names_view(field_names@),
                ) == Err::<(crate::ir::FieldView, int), ParseErrorView>(err_view(e)),
            }
        }),
        r matches Ok((f, j)) ==> {
            &&& i < j <= toks@.len()
            &&& !field_ids@.contains(f.id)
            &&& !names_contain(field_names@, f.name@)
        },
{
    let ghost tts = toks@.map_values(|t: Token| tok_view(t));
    let len = toks.len();
    let mut optional = false;
    let mut nullable = false;
    let mut j = i;

    if j >= len {
        return Err(ParseError::UnexpectedEnd {
            expected: "`optional`, `nullable` or a struct field type",
        });
    }
    if str_eq(toks[j].text.as_str(), "optional") {
        optional = true;
        j += 1;
        if j >= len {
            return Err(ParseError::UnexpectedEnd {
                expected: "`nullable` or a struct field type",
            });
        }
    }
    if str_eq(toks[j].text.as_str(), "nullable") {
        nullable = true;
        j += 1;
    }

    if j >= len {
        return Err(ParseError::UnexpectedEnd { expected: "a struct field type" });
    }
    let tyi = j;
    j += 1;
    if !ident_start_char(toks[tyi].text.as_str().get_char(0)) {
        return Err(ParseError::UnexpectedToken {
            unexpected: toks[tyi].text.clone(),
            expected: if nullable {
                "a struct field type"
            } else if optional {
                "`nullable` or a struct field type"
            } else {
                "`optional`, `nullable` or a struct field type"
            },
            pos: toks[tyi].pos,
        });
    }

    let mut array_depth: usize = 0;
    let mut open_bracket = false;
    let mut name_idx: Option<usize> = None;
    let ghost jstart = j as int;
    while name_idx.is_none()
        invariant
            toks_wf(toks@),
            tts == toks@.map_values(|t: Token| tok_view(t)),
            len == toks@.len(),
            i <= j <= len,
            array_depth <= j,
            name_idx is None ==> sp_field_arrays(tts, jstart, 0, false) == sp_field_arrays(
                tts,
                j as int,
                array_depth as int,
                open_bracket,
            ),
            name_idx matches Some(ni) ==> i <= ni < j && ni < len && sp_field_arrays(
                tts,
                jstart,
                0,
                false,
            ) == Ok::<(int, int, int), ParseErrorView>(
                (ni as int, j as int, array_depth as int),
            ),
        decreases len - j + 1,
    {
        if j >= len {
            return Err(ParseError::UnexpectedEnd { expected: "`[` or a struct field name" });
        }
        let t_idx = j;
        j += 1;
        if str_eq(toks[t_idx].text.as_str(), "[") {
            if open_bracket {
                return Err(ParseError::UnexpectedToken {
                    unexpected: String::from_str("["),
                    expected: "`]`",
                    pos: toks[t_idx].pos,
                });
            }
            array_depth += 1;
            open_bracket = true;
        } else if str_eq(toks[t_idx].text.as_str(), "]") {
            if !open_bracket {
                return Err(ParseError::UnexpectedToken {
                    unexpected: String::from_str("]"),
                    expected: "`[` or a struct field name",
                    pos: toks[t_idx].pos,
                });
            }
            open_bracket = false;
        } else {
            if open_bracket {
                return Err(ParseError::UnexpectedToken {
                    unexpected: toks[t_idx].text.clone(),
                    expected: "`]`",
                    pos: toks[t_idx].pos,
                });
            }
            name_idx = Some(t_idx);
        }
    }
    let ni = name_idx.unwrap();
    if !ident_start_char(toks[ni].text.as_str().get_char(0)) {
        return Err(ParseError::UnexpectedToken {
            unexpected: toks[ni].text.clone(),
            expected: "a struct field name",
            pos: toks[ni].pos,
        });
    }
    proof {
        lemma_names_view_contains(field_names@, toks@[ni as int].text@);
    }
    if names_contains(field_names, toks[ni].text.as_str()) {
        return Err(ParseError::DuplicateStructFieldName {
            name: toks[ni].text.clone(),
            pos: toks[ni].pos,
        });
    }

    if j >= len {
        return Err(ParseError::UnexpectedEnd { expected: "`=`" });
    }
    if !str_eq(toks[j].text.as_str(), "=") {
        return Err(ParseError::UnexpectedToken {
            unexpected: toks[j].text.clone(),
            expected: "`=`",
            pos: toks[j].pos,
        });
    }
    j += 1;

    if j >= len {
        return Err(ParseError::UnexpectedEnd {
            expected: "an integer between 0 and 127 inclusive",
        });
    }
    let ii = j;
    j += 1;
    let id = match parse_id(toks[ii].text.as_str()) {
        IdParse::NotInt => {
            return Err(ParseError::UnexpectedToken {
                unexpected: toks[ii].text.clone(),
                expected: "an integer between 0 and 127 inclusive",
                pos: toks[ii].pos,
            });
        }
        IdParse::Invalid => {
            return Err(ParseError::InvalidStructFieldId {
                id: toks[ii].text.clone(),
                pos: toks[ii].pos,
            });
        }
        IdParse::Id(v) => v,
    };
    if ids_contains(field_ids, id) {
        return Err(ParseError::DuplicateStructFieldId { id, pos: toks[ii].pos });
    }

    if j >= len {
        return Err(ParseError::UnexpectedEnd { expected: ";" });
    }
    if !str_eq(toks[j].text.as_str(), ";") {
        return Err(ParseError::UnexpectedToken {
            unexpected: toks[j].text.clone(),
            expected: "`;`",
            pos: toks[j].pos,
        });
    }
    j += 1;

    let mut ty = base_type_of(toks[tyi].text.as_str());
    let mut d: usize = 0;
    while d < array_depth
        invariant
            len == toks@.len(),
            tyi < len,
            d <= array_depth,
            crate::ir::field_ty_view(ty) == wrap_arrays(
                base_field_ty(toks@[tyi as int].text@),
                d as int,
            ),
        decreases array_depth - d,
    {
        ty = StructFieldType::Array { items: std::rc::Rc::new(ty) };
        d += 1;
    }

    let f = StructField { id, name: toks[ni].text.clone(), ty, optional, nullable };
    Ok((f, j))
}


fn copy_tagged_variant(t: &TaggedEnumVariant) -> (r: TaggedEnumVariant)
    ensures
        r == *t,
{
    TaggedEnumVariant { id: t.id, name: t.name.clone(), ty: t.ty.clone(), pos: t.pos }
}

fn copy_untagged_variant(t: &UntaggedEnumVariant) -> (r: UntaggedEnumVariant)
    ensures
        r == *t,
{
    UntaggedEnumVariant { id: t.id, name: t.name.clone() }
}

/// A just-parsed enum variant, before the enum's shape is known.
#[derive(Clone, Debug)]
pub(crate) enum EnumVariant {
    Tagged(TaggedEnumVariant),
    Untagged(UntaggedEnumVariant),
}

/// The id of a parsed variant.
pub(crate) open spec fn variant_id(v: EnumVariant) -> u8 {
    match v {
        EnumVariant::Tagged(t) => t.id,
        EnumVariant::Untagged(u) => u.id,
    }
}

/// The name of a parsed variant.
pub(crate) open spec fn variant_name(v: EnumVariant) -> Seq<char> {
    match v {
        EnumVariant::Tagged(t) => t.name@,
        EnumVariant::Untagged(u) => u.name@,
    }
}

/// The mathematical form of a parsed variant.
pub(crate) open spec fn ev_view(v: EnumVariant) -> EnumVariantView {
    match v {
        EnumVariant::Tagged(t) => EnumVariantView::Tagged(crate::ir::tagged_variant_view(t)),
        EnumVariant::Untagged(u) => EnumVariantView::Untagged(
            crate::ir::untagged_variant_view(u),
        ),
    }
}

/// Parses one enum variant declaration, in the untagged form
/// `IDENT "=" UINT ";"` or the tagged form `IDENT IDENT "=" UINT ";"`.
///
/// The result is exactly what [`sp_parse_enum_variant`] yields on the token
/// views: the same variant, the same next index, or the same error.
#[verifier::rlimit(100)]
pub(crate) fn parse_enum_variant(
    toks: &Vec<Token>,
    i: usize,
    variant_ids: &Vec<u8>,
    variant_names: &Vec<String>,
    is_tagged: Option<bool>,
) -> (r: Result<(EnumVariant, usize), ParseError>)
    requires
        toks_wf(toks@),
        i <= toks@.len(),
    ensures
        ({
            let tts = toks@.map_values(|t: Token| tok_view(t));
            match r {
                Ok((v, j)) => sp_parse_enum_variant(
                    tts,
                    i as int,
                    variant_ids@,
                    names_view(variant_names@),
                    is_tagged,
                ) == Ok::<(EnumVariantView, int), ParseErrorView>((ev_view(v), j as int)),
                Err(e) => sp_parse_enum_variant(
                    tts,
                    i as int,
                    variant_ids@,
                    names_view(variant_names@),
                    is_tagged,
                ) == Err::<(EnumVariantView, int), ParseErrorView>(err_view(e)),
            }
        }),
        r matches Ok((v, j)) ==> {
            &&& i < j <= toks@.len()
            &&& !variant_ids@.contains(variant_id(v))
            &&& !names_contain(variant_names@, variant_name(v))
        },
{
    let ghost tts = toks@.map_values(|t: Token| tok_view(t));
    let len = toks.len();
    let mut j = i;

    if j >= len {
        return Err(ParseError::UnexpectedEnd {
            expected: match is_tagged {
                Some(true) => "a struct name",
                Some(false) => "an enum variant name",
                None => "a struct name or an enum variant name",
            },
        });
    }
    let first = j;
    j += 1;
    if !ident_start_char(toks[first].text.as_str().get_char(0)) {
        return Err(ParseError::UnexpectedToken {
            unexpected: toks[first].text.clone(),
            expected: match is_tagged {
                Some(true) => "a struct name",
                Some(false) => "an enum variant name",
                None => "a struct name or an enum variant name",
            },
            pos: toks[first].pos,
        });
    }

    // Either `=` follows (untagged: `first` is the variant name), or a second
    // identifier follows (tagged: `first` is the payload type name).
    let tagged_ty: Option<usize>;
    let ni: usize;
    if j >= len {
        return Err(ParseError::UnexpectedEnd {
            expected: match is_tagged {
                Some(true) => "an enum variant name",
                Some(false) => "`=`",
                None => "an enum variant name or `=`",
            },
        });
    }
    let second = j;
    j += 1;
    if str_eq(toks[second].text.as_str(), "=") {
        tagged_ty = None;
        ni = first;
    } else {
        if !ident_start_char(toks[second].text.as_str().get_char(0)) {
            return Err(ParseError::UnexpectedToken {
                unexpected: toks[second].text.clone(),
                expected: match is_tagged {
                    Some(true) => "an enum variant name",
                    Some(false) => "`=`",
                    None => "an enum variant name or `=`",
                },
                pos: toks[second].pos,
            });
        }
        tagged_ty = Some(first);
        ni = second;
        if j >= len {
            return Err(ParseError::UnexpectedEnd { expected: "`=`" });
        }
        if !str_eq(toks[j].text.as_str(), "=") {
            return Err(ParseError::UnexpectedToken {
                unexpected: toks[j].text.clone(),
                expected: "`=`",
                pos: toks[j].pos,
            });
        }
        j += 1;
    }

    proof {
        lemma_names_view_contains(variant_names@, toks@[ni as int].text@);
    }
    if names_contains(variant_names, toks[ni].text.as_str()) {
        return Err(ParseError::DuplicateEnumVariantName {
            name: toks[ni].text.clone(),
            pos: toks[ni].pos,
        });
    }

    if j >= len {
        return Err(ParseError::UnexpectedEnd {
            expected: "an integer between 0 and 127 inclusive",
        });
    }
    let ii = j;
    j += 1;
    let id = match parse_id(toks[ii].text.as_str()) {
        IdParse::NotInt => {
            return Err(ParseError::UnexpectedToken {
                unexpected: toks[ii].text.clone(),
                expected: "an integer between 0 and 127 inclusive",
                pos: toks[ii].pos,
            });
        }
        IdParse::Invalid => {
            return Err(ParseError::InvalidEnumVariantId {
                id: toks[ii].text.clone(),
                pos: toks[ii].pos,
            });
        }
        IdParse::Id(v) => v,
    };
    if ids_contains(variant_ids, id) {
        return Err(ParseError::DuplicateEnumVariantId { id, pos: toks[ii].pos });
    }

    if j >= len {
        return Err(ParseError::UnexpectedEnd { expected: "`;`" });
    }
    if !str_eq(toks[j].text.as_str(), ";") {
        return Err(ParseError::UnexpectedToken {
            unexpected: toks[j].text.clone(),
            expected: "`;`",
            pos: toks[j].pos,
        });
    }
    j += 1;

    let v = match tagged_ty {
        Some(ti) => EnumVariant::Tagged(
            TaggedEnumVariant {
                id,
                name: toks[ni].text.clone(),
                ty: toks[ti].text.clone(),
                pos: toks[ti].pos,
            },
        ),
        None => EnumVariant::Untagged(UntaggedEnumVariant { id, name: toks[ni].text.clone() }),
    };
    Ok((v, j))
}


/// Parses an enum declaration: `"enum" IDENT "{" variant+ "}"`.  The enum's
/// shape (tagged or untagged) is fixed by its first variant; a variant of
/// the other shape fails with `MixedTaggedAndUntaggedEnumVariants` at the
/// first offending variant.
///
/// The result is exactly what [`sp_parse_enum`] yields on the token views:
/// the same enum (name and variants in declared order), the same next
/// index, or the same error.
#[verifier::rlimit(100)]
#[verifier::loop_isolation(false)]
pub(crate) fn parse_enum(toks: &Vec<Token>, i: usize, type_names: &Vec<String>) -> (r: Result<
    (Enum, usize),
    ParseError,
>)
    requires
        toks_wf(toks@),
        i <= toks@.len(),
    ensures
        ({
            let tts = toks@.map_values(|t: Token| tok_view(t));
            match r {
                Ok((e, j)) => sp_parse_enum(tts, i as int, names_view(type_names@)) == Ok::<
                    (crate::ir::EnumView, int),
                    ParseErrorView,
                >((crate::ir::enum_view(e), j as int)),
                Err(e2) => sp_parse_enum(tts, i as int, names_view(type_names@)) == Err::<
                    (crate::ir::EnumView, int),
                    ParseErrorView,
                >(err_view(e2)),
            }
        }),
        r matches Ok((e, j)) ==> {
            &&& i < j <= toks@.len()
            &&& crate::ir::enum_wf(e)
            &&& !names_contain(type_names@, crate::ir::enum_name(e))
        },
{
    let ghost tts = toks@.map_values(|t: Token| tok_view(t));
    let len = toks.len();
    let mut j = i;

    if j >= len {
        return Err(ParseError::UnexpectedEnd { expected: "`enum`" });
    }
    if !str_eq(toks[j].text.as_str(), "enum") {
        return Err(ParseError::UnexpectedToken {
            unexpected: toks[j].text.clone(),
            expected: "`enum`",
            pos: toks[j].pos,
        });
    }
    j += 1;

    if j >= len {
        return Err(ParseError::UnexpectedEnd { expected: "a type name" });
    }
    let ni = j;
    j += 1;
    if !ident_start_char(toks[ni].text.as_str().get_char(0)) {
        return Err(ParseError::UnexpectedToken {
            unexpected: toks[ni].text.clone(),
            expected: "a type name",
            pos: toks[ni].pos,
        });
    }
    proof {
        lemma_names_view_contains(type_names@, toks@[ni as int].text@);
    }
    if names_contains(type_names, toks[ni].text.as_str()) {
        return Err(ParseError::DuplicateTypeName {
            name: toks[ni].text.clone(),
            pos: toks[ni].pos,
        });
    }

    if j >= len {
        return Err(ParseError::UnexpectedEnd { expected: "`{`" });
    }
    if !str_eq(toks[j].text.as_str(), "{") {
        return Err(ParseError::UnexpectedToken {
            unexpected: toks[j].text.clone(),
            expected: "`{`",
            pos: toks[j].pos,
        });
    }
    j += 1;

    let mut variants: Vec<EnumVariant> = Vec::new();
    let mut variant_ids: Vec<u8> = Vec::new();
    let mut variant_names: Vec<String> = Vec::new();
    let mut is_tagged: Option<bool> = None;
    let ghost jstart = j as int;
    proof {
        assert(variant_ids@ =~= Seq::<u8>::empty());
        assert(names_view(variant_names@) =~= Seq::<Seq<char>>::empty());
        assert(variants@.map_values(|v: EnumVariant| ev_view(v)) =~= Seq::<
            EnumVariantView,
        >::empty());
    }

    while j < len && !str_eq(toks[j].text.as_str(), "}")
        invariant
            toks_wf(toks@),
            len == toks@.len(),
            i < j <= len,
            variant_ids@.len() == variants@.len(),
            variant_names@.len() == variants@.len(),
            forall|k: int|
                0 <= k < variants@.len() ==> variant_ids@[k] == variant_id(#[trigger] variants@[k])
                    && variant_names@[k]@ == variant_name(variants@[k]),
            forall|a: int, b: int|
                0 <= a < b < variants@.len() ==> variant_id(#[trigger] variants@[a]) != variant_id(
                    #[trigger] variants@[b],
                ) && variant_name(variants@[a]) != variant_name(variants@[b]),
            match is_tagged {
                None => variants@.len() == 0,
                Some(true) => forall|k: int| 0 <= k < variants@.len() ==> #[trigger] variants@[k] is Tagged,
                Some(false) => forall|k: int|
                    0 <= k < variants@.len() ==> #[trigger] variants@[k] is Untagged,
            },
            sp_enum_variants(tts, jstart, Seq::empty(), Seq::empty(), None, Seq::empty())
                == sp_enum_variants(
                tts,
                j as int,
                variant_ids@,
                names_view(variant_names@),
                is_tagged,
                variants@.map_values(|v: EnumVariant| ev_view(v)),
            ),
        decreases len - j,
    {
        let pos = toks[j].pos;
        let ghost old_names = names_view(variant_names@);
        let ghost old_vs = variants@.map_values(|v: EnumVariant| ev_view(v));
        let (v, j2) = match parse_enum_variant(toks, j, &variant_ids, &variant_names, is_tagged) {
            Ok(x) => x,
            Err(e) => {
                return Err(e);
            }
        };
        proof {
            match v {
                EnumVariant::Tagged(_) => {}
                EnumVariant::Untagged(_) => {}
            }
        }
        j = j2;
        let v_is_tagged = matches!(v, EnumVariant::Tagged(_));
        match is_tagged {
            None => {
                is_tagged = Some(v_is_tagged);
            }
            Some(t) => {
                if t != v_is_tagged {
                    return Err(ParseError::MixedTaggedAndUntaggedEnumVariants { pos });
                }
            }
        }
        let (vid, vname) = match &v {
            EnumVariant::Tagged(t) => (t.id, t.name.clone()),
            EnumVariant::Untagged(u) => (u.id, u.name.clone()),
        };
        variant_ids.push(vid);
        variant_names.push(vname);
        variants.push(v);
        proof {
            assert(names_view(variant_names@) =~= old_names.push(variant_name(v)));
            assert(variants@.map_values(|v2: EnumVariant| ev_view(v2)) =~= old_vs.push(
                ev_view(v),
            ));
        }
    }

    if j >= len {
        return Err(ParseError::UnexpectedEnd { expected: "an enum variant or `}`" });
    }
    if !str_eq(toks[j].text.as_str(), "}") {
        return Err(ParseError::UnexpectedToken {
            unexpected: toks[j].text.clone(),
            expected: if variants.len() == 0 {
                "an enum variant"
            } else {
                "an enum variant or `}`"
            },
            pos: toks[j].pos,
        });
    }
    let close_pos = toks[j].pos;
    j += 1;
    if variants.len() == 0 {
        return Err(ParseError::UnexpectedToken {
            unexpected: String::from_str("}"),
            expected: "an enum variant",
            pos: close_pos,
        });
    }

    let name = toks[ni].text.clone();
    let tagged_first = matches!(&variants[0], EnumVariant::Tagged(_));
    if tagged_first {
        proof {
            assert(variants@[0] is Tagged);
            assert(is_tagged == Some(true));
        }
        let mut tvs: Vec<TaggedEnumVariant> = Vec::new();
        let mut k: usize = 0;
        while k < variants.len()
            invariant
                k <= variants@.len(),
                tvs@.len() == k,
                forall|k2: int| 0 <= k2 < variants@.len() ==> #[trigger] variants@[k2] is Tagged,
                forall|m: int|
                    0 <= m < k ==> (#[trigger] variants@[m] matches EnumVariant::Tagged(tv)
                        && tvs@[m] == tv),
            decreases variants@.len() - k,
        {
            match &variants[k] {
                EnumVariant::Tagged(tv) => {
                    tvs.push(copy_tagged_variant(tv));
                }
                EnumVariant::Untagged(_) => {
                    proof {
                        assert(false);
                    }
                }
            }
            k += 1;
        }
        proof {
            assert forall|a: int, b: int|
                0 <= a < b < tvs@.len() implies (#[trigger] tvs@[a]).id != (#[trigger] tvs@[b]).id
                && tvs@[a].name@ != tvs@[b].name@ by {
                assert(variants@[a] is Tagged && variants@[b] is Tagged);
                assert(variant_id(variants@[a]) == tvs@[a].id);
                assert(variant_name(variants@[a]) == tvs@[a].name@);
                assert(variant_id(variants@[b]) == tvs@[b].id);
                assert(variant_name(variants@[b]) == tvs@[b].name@);
            }
        }
        proof {
            let accv = variants@.map_values(|v2: EnumVariant| ev_view(v2));
            assert forall|m: int| 0 <= m < accv.len() implies (#[trigger] accv[m]) is Tagged by {
                assert(accv[m] == ev_view(variants@[m]));
                assert(variants@[m] is Tagged);
            }
            lemma_tagged_views_index(accv);
            let mapped = tvs@.map_values(
                |tv: TaggedEnumVariant| crate::ir::tagged_variant_view(tv),
            );
            assert forall|m: int|
                0 <= m < tvs@.len() implies #[trigger] mapped[m] == tagged_views(accv)[m] by {
                assert(variants@[m] is Tagged);
                assert(accv[m] == ev_view(variants@[m]));
                assert(tagged_views(accv)[m] == accv[m]->Tagged_0);
            }
            assert(mapped =~= tagged_views(accv));
        }
        let e = Enum::Tagged { name, variants: tvs };
        Ok((e, j))
    } else {
        proof {
            assert(variants@[0] is Untagged);
            assert(is_tagged == Some(false));
        }
        let mut uvs: Vec<UntaggedEnumVariant> = Vec::new();
        let mut k: usize = 0;
        while k < variants.len()
            invariant
                k <= variants@.len(),
                uvs@.len() == k,
                forall|k2: int| 0 <= k2 < variants@.len() ==> #[trigger] variants@[k2] is Untagged,
                forall|m: int|
                    0 <= m < k ==> (#[trigger] variants@[m] matches EnumVariant::Untagged(uv)
                        && uvs@[m] == uv),
            decreases variants@.len() - k,
        {
            match &variants[k] {
                EnumVariant::Untagged(uv) => {
                    uvs.push(copy_untagged_variant(uv));
                }
                EnumVariant::Tagged(_) => {
                    proof {
                        assert(false);
                    }
                }
            }
            k += 1;
        }
        proof {
            assert forall|a: int, b: int|
                0 <= a < b < uvs@.len() implies (#[trigger] uvs@[a]).id != (#[trigger] uvs@[b]).id
                && uvs@[a].name@ != uvs@[b].name@ by {
                assert(variants@[a] is Untagged && variants@[b] is Untagged);
                assert(variant_id(variants@[a]) == uvs@[a].id);
                assert(variant_name(variants@[a]) == uvs@[a].name@);
                assert(variant_id(variants@[b]) == uvs@[b].id);
                assert(variant_name(variants@[b]) == uvs@[b].name@);
            }
        }
        proof {
            let accv = variants@.map_values(|v2: EnumVariant| ev_view(v2));
            assert forall|m: int|
                0 <= m < accv.len() implies (#[trigger] accv[m]) is Untagged by {
                assert(accv[m] == ev_view(variants@[m]));
                assert(variants@[m] is Untagged);
            }
            lemma_untagged_views_index(accv);
            let mapped = uvs@.map_values(
                |uv: UntaggedEnumVariant| crate::ir::untagged_variant_view(uv),
            );
            assert forall|m: int|
                0 <= m < uvs@.len() implies #[trigger] mapped[m] == untagged_views(accv)[m] by {
                assert(variants@[m] is Untagged);
                assert(accv[m] == ev_view(variants@[m]));
                assert(untagged_views(accv)[m] == accv[m]->Untagged_0);
            }
            assert(mapped =~= untagged_views(accv));
        }
        let e = Enum::Untagged { name, variants: uvs };
        Ok((e, j))
    }
}

/// Parses a struct declaration: `"struct" IDENT "{" field* "}"`.
///
/// The result is exactly what [`sp_parse_struct`] yields on the token
/// views: the same struct (name and fields in declared order), the same
/// next index, or the same error.
#[verifier::rlimit(100)]
#[verifier::loop_isolation(false)]
pub(crate) fn parse_struct(toks: &Vec<Token>, i: usize, type_names: &Vec<String>) -> (r: Result<
    (Struct, usize),
    ParseError,
>)
    requires
        toks_wf(toks@),
        i <= toks@.len(),
    ensures
        ({
            let tts = toks@.map_values(|t: Token| tok_view(t));
            match r {
                Ok((s, j)) => sp_parse_struct(tts, i as int, names_view(type_names@)) == Ok::<
                    (crate::ir::StructView, int),
                    ParseErrorView,
                >((crate::ir::struct_view(s), j as int)),
                Err(e) => sp_parse_struct(tts, i as int, names_view(type_names@)) == Err::<
                    (crate::ir::StructView, int),
                    ParseErrorView,
                >(err_view(e)),
            }
        }),
        r matches Ok((s, j)) ==> {
            &&& i < j <= toks@.len()
            &&& crate::ir::struct_wf(s)
            &&& !names_contain(type_names@, s.name@)
        },
{
    let ghost tts = toks@.map_values(|t: Token| tok_view(t));
    let len = toks.len();
    let mut j = i;

    if j >= len {
        return Err(ParseError::UnexpectedEnd { expected: "`struct`" });
    }
    if !str_eq(toks[j].text.as_str(), "struct") {
        return Err(ParseError::UnexpectedToken {
            unexpected: toks[j].text.clone(),
            expected: "`struct`",
            pos: toks[j].pos,
        });
    }
    j += 1;

    if j >= len {
        return Err(ParseError::UnexpectedEnd { expected: "a type name" });
    }
    let ni = j;
    j += 1;
    if !ident_start_char(toks[ni].text.as_str().get_char(0)) {
        return Err(ParseError::UnexpectedToken {
            unexpected: toks[ni].text.clone(),
            expected: "a type name",
            pos: toks[ni].pos,
        });
    }
    proof {
        lemma_names_view_contains(type_names@, toks@[ni as int].text@);
    }
    if names_contains(type_names, toks[ni].text.as_str()) {
        return Err(ParseError::DuplicateTypeName {
            name: toks[ni].text.clone(),
            pos: toks[ni].pos,
        });
    }

    if j >= len {
        return Err(ParseError::UnexpectedEnd { expected: "`{`" });
    }
    if !str_eq(toks[j].text.as_str(), "{") {
        return Err(ParseError::UnexpectedToken {
            unexpected: toks[j].text.clone(),
            expected: "`{`",
            pos: toks[j].pos,
        });
    }
    j += 1;

    let mut fields: Vec<StructField> = Vec::new();
    let mut field_ids: Vec<u8> = Vec::new();
    let mut field_names: Vec<String> = Vec::new();
    let ghost jstart = j as int;
    proof {
        assert(field_ids@ =~= Seq::<u8>::empty());
        assert(names_view(field_names@) =~= Seq::<Seq<char>>::empty());
        assert(fields@.map_values(|f: StructField| crate::ir::field_view(f)) =~= Seq::<
            crate::ir::FieldView,
        >::empty());
    }

    while j < len && !str_eq(toks[j].text.as_str(), "}")
        invariant
            toks_wf(toks@),
            len == toks@.len(),
            i < j <= len,
            field_ids@.len() == fields@.len(),
            field_names@.len() == fields@.len(),
            forall|k: int|
                0 <= k < fields@.len() ==> field_ids@[k] == (#[trigger] fields@[k]).id
                    && field_names@[k]@ == fields@[k].name@,
            forall|a: int, b: int|
                0 <= a < b < fields@.len() ==> (#[trigger] fields@[a]).id != (
                #[trigger] fields@[b]).id && fields@[a].name@ != fields@[b].name@,
            sp_struct_fields(tts, jstart, Seq::empty(), Seq::empty(), Seq::empty())
                == sp_struct_fields(
                tts,
                j as int,
                field_ids@,
                names_view(field_names@),
                fields@.map_values(|f: StructField| crate::ir::field_view(f)),
            ),
        decreases len - j,
    {
        let ghost old_names = names_view(field_names@);
        let ghost old_fields = fields@.map_values(|f: StructField| crate::ir::field_view(f));
        let (f, j2) = match parse_struct_field(toks, j, &field_ids, &field_names) {
            Ok(x) => x,
            Err(e) => {
                return Err(e);
            }
        };
        j = j2;
        field_ids.push(f.id);
        field_names.push(f.name.clone());
        fields.push(f);
        proof {
            assert(names_view(field_names@) =~= old_names.push(f.name@));
            assert(fields@.map_values(|f2: StructField| crate::ir::field_view(f2))
                =~= old_fields.push(crate::ir::field_view(f)));
        }
    }

    if j >= len {
        return Err(ParseError::UnexpectedEnd { expected: "a struct field or `}`" });
    }
    if !str_eq(toks[j].text.as_str(), "}") {
        return Err(ParseError::UnexpectedToken {
            unexpected: toks[j].text.clone(),
            expected: "a struct field or `}`",
            pos: toks[j].pos,
        });
    }
    j += 1;

    let s = Struct { name: toks[ni].text.clone(), fields };
    Ok((s, j))
}


proof fn lemma_view_decl_name(t: Type)
    ensures
        crate::ir::view_decl_name(crate::ir::type_view(t)) == crate::ir::decl_name(t),
{
    match t {
        Type::Enum(Enum::Tagged { .. }) => {}
        Type::Enum(Enum::Untagged { .. }) => {}
        Type::Struct(_) => {}
    }
}

proof fn lemma_view_has_struct(ts: Seq<Type>, n: Seq<char>)
    ensures
        crate::ir::view_has_struct(crate::ir::types_view(ts), n) <==> crate::ir::has_struct_named(
            ts,
            n,
        ),
{
    let tsv = crate::ir::types_view(ts);
    if crate::ir::view_has_struct(tsv, n) {
        let w = choose|w: int|
            0 <= w < tsv.len() && tsv[w] is Struct && #[trigger] crate::ir::view_decl_name(
                tsv[w],
            ) == n;
        assert(tsv[w] == crate::ir::type_view(ts[w]));
        lemma_view_decl_name(ts[w]);
        match ts[w] {
            Type::Struct(_) => {}
            Type::Enum(_) => {}
        }
        assert(crate::ir::decl_name(ts[w]) == n);
    }
    if crate::ir::has_struct_named(ts, n) {
        let w = choose|w: int|
            0 <= w < ts.len() && ts[w] is Struct && #[trigger] crate::ir::decl_name(ts[w]) == n;
        assert(tsv[w] == crate::ir::type_view(ts[w]));
        lemma_view_decl_name(ts[w]);
        match ts[w] {
            Type::Struct(_) => {}
            Type::Enum(_) => {}
        }
        assert(crate::ir::view_decl_name(tsv[w]) == n);
    }
}

/// Parses one type declaration, dispatching on the leading keyword.
///
/// The result is exactly what [`sp_parse_type`] yields on the token views.
pub(crate) fn parse_type(toks: &Vec<Token>, i: usize, type_names: &Vec<String>) -> (r: Result<
    (Type, usize),
    ParseError,
>)
    requires
        toks_wf(toks@),
        i <= toks@.len(),
    ensures
        ({
            let tts = toks@.map_values(|t: Token| tok_view(t));
            match r {
                Ok((t, j)) => sp_parse_type(tts, i as int, names_view(type_names@)) == Ok::<
                    (crate::ir::TypeView, int),
                    ParseErrorView,
                >((crate::ir::type_view(t), j as int)),
                Err(e) => sp_parse_type(tts, i as int, names_view(type_names@)) == Err::<
                    (crate::ir::TypeView, int),
                    ParseErrorView,
                >(err_view(e)),
            }
        }),
        r matches Ok((t, j)) ==> {
            &&& i < j <= toks@.len()
            &&& match t {
                Type::Struct(s) => crate::ir::struct_wf(s),
                Type::Enum(e) => crate::ir::enum_wf(e),
            }
            &&& !names_contain(type_names@, crate::ir::decl_name(t))
        },
{
    if i >= toks.len() {
        return Err(ParseError::UnexpectedEnd { expected: "`enum` or `struct`" });
    }
    if str_eq(toks[i].text.as_str(), "enum") {
        match parse_enum(toks, i, type_names) {
            Ok((e, j)) => Ok((Type::Enum(e), j)),
            Err(e) => Err(e),
        }
    } else if str_eq(toks[i].text.as_str(), "struct") {
        match parse_struct(toks, i, type_names) {
            Ok((s, j)) => Ok((Type::Struct(s), j)),
            Err(e) => Err(e),
        }
    } else {
        Err(ParseError::UnexpectedToken {
            unexpected: toks[i].text.clone(),
            expected: "`enum` or `struct`",
            pos: toks[i].pos,
        })
    }
}

/// Parses a typedpack `.tp` file.
///
/// Every accepted IR is well-formed: type names are unique; within each
/// struct, field ids and names are unique; within each enum, variant ids and
/// names are unique and the variant list is non-empty; and every tagged
/// variant's payload type names a struct declared in the same file.
///
/// The input's character count must stay below `usize::MAX` so that line
/// counters cannot overflow; any text that fits in memory satisfies this.
#[verifier::rlimit(100)]
#[verifier::loop_isolation(false)]
pub fn parse(s: &str) -> (r: Result<Vec<Type>, ParseError>)
    requires
        s@.len() < usize::MAX,
    ensures
        (match r {
            Ok(ts) => sp_parse(s@) == Ok::<Seq<crate::ir::TypeView>, ParseErrorView>(
                crate::ir::types_view(ts@),
            ),
            Err(e) => sp_parse(s@) == Err::<Seq<crate::ir::TypeView>, ParseErrorView>(
                err_view(e),
            ),
        }),
        r matches Ok(ts) ==> crate::ir::types_wf(ts@),
{
    let toks = match tokenize(s) {
        Ok(t) => t,
        Err(e) => {
            return Err(e);
        }
    };
    let ghost tts = toks@.map_values(|t: Token| tok_view(t));

    let mut types: Vec<Type> = Vec::new();
    let mut type_names: Vec<String> = Vec::new();
    let mut struct_names: Vec<String> = Vec::new();
    let mut i: usize = 0;
    proof {
        assert(crate::ir::types_view(types@) =~= Seq::<crate::ir::TypeView>::empty());
        assert(names_view(type_names@) =~= view_decl_names(crate::ir::types_view(types@)));
    }

    while i < toks.len()
        invariant
            toks_wf(toks@),
            i <= toks@.len(),
            type_names@.len() == types@.len(),
            names_view(type_names@) == view_decl_names(crate::ir::types_view(types@)),
            sp_parse_types(tts, 0, Seq::empty()) == sp_parse_types(
                tts,
                i as int,
                crate::ir::types_view(types@),
            ),
            forall|k: int|
                0 <= k < types@.len() ==> type_names@[k]@ == crate::ir::decl_name(
                    #[trigger] types@[k],
                ),
            forall|a: int, b: int|
                0 <= a < b < types@.len() ==> crate::ir::decl_name(#[trigger] types@[a])
                    != crate::ir::decl_name(#[trigger] types@[b]),
            forall|k: int|
                0 <= k < types@.len() ==> match #[trigger] types@[k] {
                    Type::Struct(st) => crate::ir::struct_wf(st),
                    Type::Enum(e) => crate::ir::enum_wf(e),
                },
            forall|k: int|
                0 <= k < struct_names@.len() ==> crate::ir::has_struct_named(
                    types@,
                    (#[trigger] struct_names@[k])@,
                ),
            forall|k: int|
                0 <= k < types@.len() ==> ((#[trigger] types@[k]) is Struct ==> names_contain(
                    struct_names@,
                    crate::ir::decl_name(types@[k]),
                )),
        decreases toks@.len() - i,
    {
        let ghost old_types = types@;
        let ghost old_struct_names = struct_names@;
        let ghost old_nv = names_view(type_names@);
        let ghost old_tsv = crate::ir::types_view(types@);
        let (t, j) = match parse_type(&toks, i, &type_names) {
            Ok(x) => x,
            Err(e) => {
                return Err(e);
            }
        };
        let ghost gt = t;
        i = j;
        match &t {
            Type::Struct(st) => {
                type_names.push(st.name.clone());
                struct_names.push(st.name.clone());
            }
            Type::Enum(Enum::Tagged { name, .. }) => {
                type_names.push(name.clone());
            }
            Type::Enum(Enum::Untagged { name, .. }) => {
                type_names.push(name.clone());
            }
        }
        types.push(t);
        proof {
            lemma_view_decl_name(gt);
            assert(crate::ir::types_view(types@) =~= old_tsv.push(crate::ir::type_view(gt)));
            assert(names_view(type_names@) =~= old_nv.push(crate::ir::decl_name(gt)));
            assert(view_decl_names(crate::ir::types_view(types@)) =~= view_decl_names(
                old_tsv,
            ).push(crate::ir::view_decl_name(crate::ir::type_view(gt))));
            assert forall|k: int|
                0 <= k < struct_names@.len() implies crate::ir::has_struct_named(
                types@,
                (#[trigger] struct_names@[k])@,
            ) by {
                if k < old_struct_names.len() {
                    assert(crate::ir::has_struct_named(old_types, old_struct_names[k]@));
                    let w = choose|w: int|
                        0 <= w < old_types.len() && old_types[w] is Struct
                            && #[trigger] crate::ir::decl_name(old_types[w])
                            == old_struct_names[k]@;
                    assert(types@[w] == old_types[w]);
                } else {
                    assert(types@[types@.len() - 1] is Struct);
                }
            }
            assert forall|k: int|
                0 <= k < types@.len() && (#[trigger] types@[k]) is Struct implies names_contain(
                struct_names@,
                crate::ir::decl_name(types@[k]),
            ) by {
                if k < old_types.len() {
                    assert(names_contain(old_struct_names, crate::ir::decl_name(old_types[k])));
                    let w = choose|w: int|
                        0 <= w < old_struct_names.len() && (#[trigger] old_struct_names[w])@
                            == crate::ir::decl_name(old_types[k]);
                    assert(struct_names@[w]@ == crate::ir::decl_name(types@[k]));
                } else {
                    assert(struct_names@[struct_names@.len() - 1]@ == crate::ir::decl_name(
                        types@[k],
                    ));
                }
            }
        }
    }
    let ghost tsv = crate::ir::types_view(types@);

    let mut a: usize = 0;
    while a < types.len()
        invariant
            tsv == crate::ir::types_view(types@),
            a <= types@.len(),
            sp_resolve(tsv, 0) == sp_resolve(tsv, a as int),
            forall|k: int|
                0 <= k < types@.len() ==> match #[trigger] types@[k] {
                    Type::Struct(st) => crate::ir::struct_wf(st),
                    Type::Enum(e) => crate::ir::enum_wf(e),
                },
            forall|x: int, y: int|
                0 <= x < y < types@.len() ==> crate::ir::decl_name(#[trigger] types@[x])
                    != crate::ir::decl_name(#[trigger] types@[y]),
            forall|k: int|
                0 <= k < struct_names@.len() ==> crate::ir::has_struct_named(
                    types@,
                    (#[trigger] struct_names@[k])@,
                ),
            forall|k: int|
                0 <= k < types@.len() ==> ((#[trigger] types@[k]) is Struct ==> names_contain(
                    struct_names@,
                    crate::ir::decl_name(types@[k]),
                )),
            forall|x: int|
                0 <= x < a ==> match #[trigger] types@[x] {
                    Type::Enum(Enum::Tagged { variants, .. }) => forall|k: int|
                        0 <= k < variants@.len() ==> crate::ir::has_struct_named(
                            types@,
                            #[trigger] variants@[k].ty@,
                        ),
                    _ => true,
                },
        decreases types@.len() - a,
    {
        match &types[a] {
            Type::Enum(Enum::Tagged { variants, .. }) => {
                let ghost vsv = variants@.map_values(
                    |v: TaggedEnumVariant| crate::ir::tagged_variant_view(v),
                );
                proof {
                    assert(tsv[a as int] == crate::ir::type_view(types@[a as int]));
                }
                let mut k: usize = 0;
                while k < variants.len()
                    invariant
                        k <= variants@.len(),
                        sp_resolve_variants(tsv, vsv, 0) == sp_resolve_variants(
                            tsv,
                            vsv,
                            k as int,
                        ),
                        forall|k2: int|
                            0 <= k2 < struct_names@.len() ==> crate::ir::has_struct_named(
                                types@,
                                (#[trigger] struct_names@[k2])@,
                            ),
                        forall|m: int|
                            0 <= m < k ==> crate::ir::has_struct_named(
                                types@,
                                #[trigger] variants@[m].ty@,
                            ),
                    decreases variants@.len() - k,
                {
                    proof {
                        lemma_view_has_struct(types@, variants@[k as int].ty@);
                    }
                    if !names_contains(&struct_names, variants[k].ty.as_str()) {
                        proof {
                            assert(!crate::ir::has_struct_named(
                                types@,
                                variants@[k as int].ty@,
                            ));
                            assert(!crate::ir::view_has_struct(tsv, vsv[k as int].ty));
                        }
                        return Err(ParseError::UnknownTaggedEnumVariantType {
                            name: variants[k].ty.clone(),
                            pos: variants[k].pos,
                        });
                    }
                    proof {
                        let w = choose|w: int|
                            0 <= w < struct_names@.len() && (#[trigger] struct_names@[w])@
                                == variants@[k as int].ty@;
                        assert(crate::ir::has_struct_named(types@, struct_names@[w]@));
                        assert(crate::ir::view_has_struct(tsv, vsv[k as int].ty));
                    }
                    k += 1;
                }
            }
            _ => {
                proof {
                    assert(tsv[a as int] == crate::ir::type_view(types@[a as int]));
                    match types@[a as int] {
                        Type::Struct(_) => {}
                        Type::Enum(Enum::Tagged { .. }) => {}
                        Type::Enum(Enum::Untagged { .. }) => {}
                    }
                }
            }
        }
        a += 1;
    }
    Ok(types)
}


/// The mathematical form of a [`ParseError`]: strings as character
/// sequences, positions as line and column numbers.
pub enum ParseErrorView {
    DuplicateEnumVariantId { id: u8, line: int, col: int },
    DuplicateEnumVariantName { name: Seq<char>, line: int, col: int },
    DuplicateStructFieldId { id: u8, line: int, col: int },
    DuplicateStructFieldName { name: Seq<char>, line: int, col: int },
    DuplicateTypeName { name: Seq<char>, line: int, col: int },
    InvalidEnumVariantId { id: Seq<char>, line: int, col: int },
    InvalidStructFieldId { id: Seq<char>, line: int, col: int },
    MixedTaggedAndUntaggedEnumVariants { line: int, col: int },
    NonAsciiCharacter { ch: char, line: int, col: int },
    UnexpectedEnd { expected: Seq<char> },
    UnexpectedToken { unexpected: Seq<char>, expected: Seq<char>, line: int, col: int },
    UnknownTaggedEnumVariantType { name: Seq<char>, line: int, col: int },
}

/// The mathematical form of a [`ParseError`].
pub open spec fn err_view(e: ParseError) -> ParseErrorView {
    match e {
        ParseError::DuplicateEnumVariantId { id, pos } => ParseErrorView::DuplicateEnumVariantId {
            id,
            line: pos.line as int,
            col: pos.column as int,
        },
        ParseError::DuplicateEnumVariantName { name, pos } => ParseErrorView::DuplicateEnumVariantName {
            name: name@,
            line: pos.line as int,
            col: pos.column as int,
        },
        ParseError::DuplicateStructFieldId { id, pos } => ParseErrorView::DuplicateStructFieldId {
            id,
            line: pos.line as int,
            col: pos.column as int,
        },
        ParseError::DuplicateStructFieldName { name, pos } => ParseErrorView::DuplicateStructFieldName {
            name: name@,
            line: pos.line as int,
            col: pos.column as int,
        },
        ParseError::DuplicateTypeName { name, pos } => ParseErrorView::DuplicateTypeName {
            name: name@,
            line: pos.line as int,
            col: pos.column as int,
        },
        ParseError::InvalidEnumVariantId { id, pos } => ParseErrorView::InvalidEnumVariantId {
            id: id@,
            line: pos.line as int,
            col: pos.column as int,
        },
        ParseError::InvalidStructFieldId { id, pos } => ParseErrorView::InvalidStructFieldId {
            id: id@,
            line: pos.line as int,
            col: pos.column as int,
        },
        ParseError::MixedTaggedAndUntaggedEnumVariants { pos } => ParseErrorView::MixedTaggedAndUntaggedEnumVariants {
            line: pos.line as int,
            col: pos.column as int,
        },
        ParseError::NonAsciiCharacter { char: c, pos } => ParseErrorView::NonAsciiCharacter {
            ch: c,
            line: pos.line as int,
            col: pos.column as int,
        },
        ParseError::UnexpectedEnd { expected } => ParseErrorView::UnexpectedEnd {
            expected: expected@,
        },
        ParseError::UnexpectedToken { unexpected, expected, pos } => ParseErrorView::UnexpectedToken {
            unexpected: unexpected@,
            expected: expected@,
            line: pos.line as int,
            col: pos.column as int,
        },
        ParseError::UnknownTaggedEnumVariantType { name, pos } => ParseErrorView::UnknownTaggedEnumVariantType {
            name: name@,
            line: pos.line as int,
            col: pos.column as int,
        },
    }
}

/// The mathematical form of a just-parsed enum variant.
pub enum EnumVariantView {
    Tagged(crate::ir::TaggedVariantView),
    Untagged(crate::ir::UntaggedVariantView),
}

/// The views of a sequence of strings.
pub open spec fn names_view(ns: Seq<String>) -> Seq<Seq<char>> {
    ns.map_values(|s: String| s@)
}

/// The base (non-array) field type a type-name token denotes: the `bytes`
/// family resolved lexically, the primitive keywords, otherwise a reference.
pub open spec fn base_field_ty(n: Seq<char>) -> crate::ir::FieldTypeView {
    if n == "bytes"@ {
        crate::ir::FieldTypeView::Bytes { len: None }
    } else if n == "bytes0"@ {
        crate::ir::FieldTypeView::Bytes { len: Some(0u32) }
    } else if n.len() >= 6 && n.subrange(0, 5) == "bytes"@ && is_digit_char(n[5]) && n[5] != '0'
        && all_digit_chars(n.skip(5)) && digits_val(n.skip(5)) <= u32::MAX {
        crate::ir::FieldTypeView::Bytes { len: Some(digits_val(n.skip(5)) as u32) }
    } else if n == "bool"@ {
        crate::ir::FieldTypeView::Bool
    } else if n == "uint8"@ {
        crate::ir::FieldTypeView::U8
    } else if n == "int8"@ {
        crate::ir::FieldTypeView::I8
    } else if n == "uint16"@ {
        crate::ir::FieldTypeView::U16
    } else if n == "int16"@ {
        crate::ir::FieldTypeView::I16
    } else if n == "uint32"@ {
        crate::ir::FieldTypeView::U32
    } else if n == "int32"@ {
        crate::ir::FieldTypeView::I32
    } else if n == "uint64"@ {
        crate::ir::FieldTypeView::U64
    } else if n == "int64"@ {
        crate::ir::FieldTypeView::I64
    } else if n == "float32"@ {
        crate::ir::FieldTypeView::F32
    } else if n == "float64"@ {
        crate::ir::FieldTypeView::F64
    } else if n == "string"@ {
        crate::ir::FieldTypeView::String
    } else {
        crate::ir::FieldTypeView::Reference { name: n }
    }
}

/// `t` under `depth` layers of array nesting.
pub open spec fn wrap_arrays(t: crate::ir::FieldTypeView, depth: int) -> crate::ir::FieldTypeView
    decreases depth,
{
    if depth <= 0 {
        t
    } else {
        crate::ir::FieldTypeView::Array { items: Box::new(wrap_arrays(t, depth - 1)) }
    }
}

/// Scans the `[` `]` suffix of a field type: returns the name token's index,
/// the index after it, and the number of matched bracket pairs.
pub open spec fn sp_field_arrays(
    tts: Seq<(Seq<char>, int, int)>,
    j: int,
    depth: int,
    open_bracket: bool,
) -> Result<(int, int, int), ParseErrorView>
    decreases tts.len() - j,
{
    if j < 0 || j >= tts.len() {
        Err(ParseErrorView::UnexpectedEnd { expected: "`[` or a struct field name"@ })
    } else {
        let t = tts[j];
        if t.0 == "["@ {
            if open_bracket {
                Err(ParseErrorView::UnexpectedToken {
                    unexpected: "["@,
                    expected: "`]`"@,
                    line: t.1,
                    col: t.2,
                })
            } else {
                sp_field_arrays(tts, j + 1, depth + 1, true)
            }
        } else if t.0 == "]"@ {
            if !open_bracket {
                Err(ParseErrorView::UnexpectedToken {
                    unexpected: "]"@,
                    expected: "`[` or a struct field name"@,
                    line: t.1,
                    col: t.2,
                })
            } else {
                sp_field_arrays(tts, j + 1, depth, false)
            }
        } else {
            if open_bracket {
                Err(ParseErrorView::UnexpectedToken {
                    unexpected: t.0,
                    expected: "`]`"@,
                    line: t.1,
                    col: t.2,
                })
            } else {
                Ok((j, j + 1, depth))
            }
        }
    }
}

/// One struct field declaration, starting at token `i`, against the ids and
/// names of the fields already seen in the enclosing struct.
pub open spec fn sp_parse_struct_field(
    tts: Seq<(Seq<char>, int, int)>,
    i: int,
    seen_ids: Seq<u8>,
    seen_names: Seq<Seq<char>>,
) -> Result<(crate::ir::FieldView, int), ParseErrorView> {
    if i < 0 || i >= tts.len() {
        Err(
            ParseErrorView::UnexpectedEnd {
                expected: "`optional`, `nullable` or a struct field type"@,
            },
        )
    } else {
        let optional = tts[i].0 == "optional"@;
        let j1 = if optional {
            i + 1
        } else {
            i
        };
        if optional && j1 >= tts.len() {
            Err(ParseErrorView::UnexpectedEnd { expected: "`nullable` or a struct field type"@ })
        } else {
            let nullable = j1 < tts.len() && tts[j1].0 == "nullable"@;
            let j2 = if nullable {
                j1 + 1
            } else {
                j1
            };
            if j2 >= tts.len() {
                Err(ParseErrorView::UnexpectedEnd { expected: "a struct field type"@ })
            } else {
                let tyt = tts[j2];
                if !is_ident_start_char(tyt.0[0]) {
                    Err(
                        ParseErrorView::UnexpectedToken {
                            unexpected: tyt.0,
                            expected: (if nullable {
                                "a struct field type"@
                            } else if optional {
                                "`nullable` or a struct field type"@
                            } else {
                                "`optional`, `nullable` or a struct field type"@
                            }),
                            line: tyt.1,
                            col: tyt.2,
                        },
                    )
                } else {
                    match sp_field_arrays(tts, j2 + 1, 0, false) {
                        Err(e) => Err(e),
                        Ok((ni, j4, depth)) => sp_field_tail(
                            tts,
                            seen_ids,
                            seen_names,
                            optional,
                            nullable,
                            tyt.0,
                            ni,
                            j4,
                            depth,
                        ),
                    }
                }
            }
        }
    }
}

/// The rest of a field declaration after the type and brackets: the name,
/// `=`, the id, and `;`.
pub open spec fn sp_field_tail(
    tts: Seq<(Seq<char>, int, int)>,
    seen_ids: Seq<u8>,
    seen_names: Seq<Seq<char>>,
    optional: bool,
    nullable: bool,
    tyname: Seq<char>,
    ni: int,
    j4: int,
    depth: int,
) -> Result<(crate::ir::FieldView, int), ParseErrorView> {
    let namet = tts[ni];
    if !is_ident_start_char(namet.0[0]) {
        Err(
            ParseErrorView::UnexpectedToken {
                unexpected: namet.0,
                expected: "a struct field name"@,
                line: namet.1,
                col: namet.2,
            },
        )
    } else if seen_names.contains(namet.0) {
        Err(
            ParseErrorView::DuplicateStructFieldName {
                name: namet.0,
                line: namet.1,
                col: namet.2,
            },
        )
    } else if j4 >= tts.len() {
        Err(ParseErrorView::UnexpectedEnd { expected: "`=`"@ })
    } else if tts[j4].0 != "="@ {
        Err(
            ParseErrorView::UnexpectedToken {
                unexpected: tts[j4].0,
                expected: "`=`"@,
                line: tts[j4].1,
                col: tts[j4].2,
            },
        )
    } else if j4 + 1 >= tts.len() {
        Err(ParseErrorView::UnexpectedEnd { expected: "an integer between 0 and 127 inclusive"@ })
    } else {
        let idt = tts[j4 + 1];
        if !all_digit_chars(idt.0) {
            Err(
                ParseErrorView::UnexpectedToken {
                    unexpected: idt.0,
                    expected: "an integer between 0 and 127 inclusive"@,
                    line: idt.1,
                    col: idt.2,
                },
            )
        } else if !id_token_valid(idt.0) {
            Err(ParseErrorView::InvalidStructFieldId { id: idt.0, line: idt.1, col: idt.2 })
        } else {
            let idv = digits_val(idt.0) as u8;
            if seen_ids.contains(idv) {
                Err(ParseErrorView::DuplicateStructFieldId { id: idv, line: idt.1, col: idt.2 })
            } else if j4 + 2 >= tts.len() {
                Err(ParseErrorView::UnexpectedEnd { expected: ";"@ })
            } else if tts[j4 + 2].0 != ";"@ {
                Err(
                    ParseErrorView::UnexpectedToken {
                        unexpected: tts[j4 + 2].0,
                        expected: "`;`"@,
                        line: tts[j4 + 2].1,
                        col: tts[j4 + 2].2,
                    },
                )
            } else {
                Ok(
                    (
                        crate::ir::FieldView {
                            id: idv,
                            name: namet.0,
                            ty: wrap_arrays(base_field_ty(tyname), depth),
                            optional,
                            nullable,
                        },
                        j4 + 3,
                    ),
                )
            }
        }
    }
}

/// One enum variant declaration, starting at token `i`, in the untagged or
/// tagged form, against the ids and names already seen and the shape fixed
/// by the enum's first variant.
pub open spec fn sp_parse_enum_variant(
    tts: Seq<(Seq<char>, int, int)>,
    i: int,
    seen_ids: Seq<u8>,
    seen_names: Seq<Seq<char>>,
    is_tagged: Option<bool>,
) -> Result<(EnumVariantView, int), ParseErrorView> {
    if i < 0 || i >= tts.len() {
        Err(
            ParseErrorView::UnexpectedEnd {
                expected: match is_tagged {
                    Some(true) => "a struct name"@,
                    Some(false) => "an enum variant name"@,
                    None => "a struct name or an enum variant name"@,
                },
            },
        )
    } else {
        let first = tts[i];
        if !is_ident_start_char(first.0[0]) {
            Err(
                ParseErrorView::UnexpectedToken {
                    unexpected: first.0,
                    expected: match is_tagged {
                        Some(true) => "a struct name"@,
                        Some(false) => "an enum variant name"@,
                        None => "a struct name or an enum variant name"@,
                    },
                    line: first.1,
                    col: first.2,
                },
            )
        } else if i + 1 >= tts.len() {
            Err(
                ParseErrorView::UnexpectedEnd {
                    expected: match is_tagged {
                        Some(true) => "an enum variant name"@,
                        Some(false) => "`=`"@,
                        None => "an enum variant name or `=`"@,
                    },
                },
            )
        } else {
            let second = tts[i + 1];
            if second.0 == "="@ {
                sp_variant_tail(tts, seen_ids, seen_names, None, i, i + 2)
            } else if !is_ident_start_char(second.0[0]) {
                Err(
                    ParseErrorView::UnexpectedToken {
                        unexpected: second.0,
                        expected: match is_tagged {
                            Some(true) => "an enum variant name"@,
                            Some(false) => "`=`"@,
                            None => "an enum variant name or `=`"@,
                        },
                        line: second.1,
                        col: second.2,
                    },
                )
            } else if i + 2 >= tts.len() {
                Err(ParseErrorView::UnexpectedEnd { expected: "`=`"@ })
            } else if tts[i + 2].0 != "="@ {
                Err(
                    ParseErrorView::UnexpectedToken {
                        unexpected: tts[i + 2].0,
                        expected: "`=`"@,
                        line: tts[i + 2].1,
                        col: tts[i + 2].2,
                    },
                )
            } else {
                sp_variant_tail(tts, seen_ids, seen_names, Some(i), i + 1, i + 3)
            }
        }
    }
}

/// The rest of a variant declaration after the identifiers and `=`: the
/// duplicate-name check, the id, and `;`.  `ti` is the payload type token's
/// index for the tagged form, `ni` the variant name token's index.
pub open spec fn sp_variant_tail(
    tts: Seq<(Seq<char>, int, int)>,
    seen_ids: Seq<u8>,
    seen_names: Seq<Seq<char>>,
    ti: Option<int>,
    ni: int,
    j: int,
) -> Result<(EnumVariantView, int), ParseErrorView> {
    let namet = tts[ni];
    if seen_names.contains(namet.0) {
        Err(
            ParseErrorView::DuplicateEnumVariantName {
                name: namet.0,
                line: namet.1,
                col: namet.2,
            },
        )
    } else if j >= tts.len() {
        Err(ParseErrorView::UnexpectedEnd { expected: "an integer between 0 and 127 inclusive"@ })
    } else {
        let idt = tts[j];
        if !all_digit_chars(idt.0) {
            Err(
                ParseErrorView::UnexpectedToken {
                    unexpected: idt.0,
                    expected: "an integer between 0 and 127 inclusive"@,
                    line: idt.1,
                    col: idt.2,
                },
            )
        } else if !id_token_valid(idt.0) {
            Err(ParseErrorView::InvalidEnumVariantId { id: idt.0, line: idt.1, col: idt.2 })
        } else {
            let idv = digits_val(idt.0) as u8;
            if seen_ids.contains(idv) {
                Err(ParseErrorView::DuplicateEnumVariantId { id: idv, line: idt.1, col: idt.2 })
            } else if j + 1 >= tts.len() {
                Err(ParseErrorView::UnexpectedEnd { expected: "`;`"@ })
            } else if tts[j + 1].0 != ";"@ {
                Err(
                    ParseErrorView::UnexpectedToken {
                        unexpected: tts[j + 1].0,
                        expected: "`;`"@,
                        line: tts[j + 1].1,
                        col: tts[j + 1].2,
                    },
                )
            } else {
                Ok(
                    (
                        match ti {
                            Some(t) => EnumVariantView::Tagged(
                                crate::ir::TaggedVariantView {
                                    id: idv,
                                    name: namet.0,
                                    ty: tts[t].0,
                                    line: tts[t].1,
                                    col: tts[t].2,
                                },
                            ),
                            None => EnumVariantView::Untagged(
                                crate::ir::UntaggedVariantView { id: idv, name: namet.0 },
                            ),
                        },
                        j + 2,
                    ),
                )
            }
        }
    }
}


/// The tagged variants of a homogeneous variant list, in order.
pub open spec fn tagged_views(vs: Seq<EnumVariantView>) -> Seq<crate::ir::TaggedVariantView>
    decreases vs.len(),
{
    if vs.len() == 0 {
        Seq::empty()
    } else {
        (match vs[0] {
            EnumVariantView::Tagged(t) => seq![t],
            EnumVariantView::Untagged(_) => Seq::empty(),
        }) + tagged_views(vs.drop_first())
    }
}

/// The untagged variants of a homogeneous variant list, in order.
pub open spec fn untagged_views(vs: Seq<EnumVariantView>) -> Seq<crate::ir::UntaggedVariantView>
    decreases vs.len(),
{
    if vs.len() == 0 {
        Seq::empty()
    } else {
        (match vs[0] {
            EnumVariantView::Untagged(u) => seq![u],
            EnumVariantView::Tagged(_) => Seq::empty(),
        }) + untagged_views(vs.drop_first())
    }
}

proof fn lemma_tagged_views_index(vs: Seq<EnumVariantView>)
    requires
        forall|m: int| 0 <= m < vs.len() ==> (#[trigger] vs[m]) is Tagged,
    ensures
        tagged_views(vs).len() == vs.len(),
        forall|m: int| 0 <= m < vs.len() ==> #[trigger] tagged_views(vs)[m] == vs[m]->Tagged_0,
    decreases vs.len(),
{
    if vs.len() > 0 {
        assert(vs[0] is Tagged);
        assert forall|m: int|
            0 <= m < vs.drop_first().len() implies (#[trigger] vs.drop_first()[m]) is Tagged by {
            assert(vs.drop_first()[m] == vs[m + 1]);
        }
        lemma_tagged_views_index(vs.drop_first());
        assert forall|m: int|
            0 <= m < vs.len() implies #[trigger] tagged_views(vs)[m] == vs[m]->Tagged_0 by {
            if m > 0 {
                assert(vs.drop_first()[m - 1] == vs[m]);
                assert(tagged_views(vs)[m] == tagged_views(vs.drop_first())[m - 1]);
            }
        }
    }
}

proof fn lemma_untagged_views_index(vs: Seq<EnumVariantView>)
    requires
        forall|m: int| 0 <= m < vs.len() ==> (#[trigger] vs[m]) is Untagged,
    ensures
        untagged_views(vs).len() == vs.len(),
        forall|m: int|
            0 <= m < vs.len() ==> #[trigger] untagged_views(vs)[m] == vs[m]->Untagged_0,
    decreases vs.len(),
{
    if vs.len() > 0 {
        assert(vs[0] is Untagged);
        assert forall|m: int|
            0 <= m < vs.drop_first().len() implies (#[trigger] vs.drop_first()[m]) is Untagged
            by {
            assert(vs.drop_first()[m] == vs[m + 1]);
        }
        lemma_untagged_views_index(vs.drop_first());
        assert forall|m: int|
            0 <= m < vs.len() implies #[trigger] untagged_views(vs)[m] == vs[m]->Untagged_0 by {
            if m > 0 {
                assert(vs.drop_first()[m - 1] == vs[m]);
                assert(untagged_views(vs)[m] == untagged_views(vs.drop_first())[m - 1]);
            }
        }
    }
}

/// The id of a parsed variant, in mathematical form.
pub open spec fn view_variant_id(v: EnumVariantView) -> u8 {
    match v {
        EnumVariantView::Tagged(t) => t.id,
        EnumVariantView::Untagged(u) => u.id,
    }
}

/// The name of a parsed variant, in mathematical form.
pub open spec fn view_variant_name(v: EnumVariantView) -> Seq<char> {
    match v {
        EnumVariantView::Tagged(t) => t.name,
        EnumVariantView::Untagged(u) => u.name,
    }
}

/// The body of an enum declaration: variants until `}` or the end of input,
/// each fresh in id and name and of the shape fixed by the first.
pub open spec fn sp_enum_variants(
    tts: Seq<(Seq<char>, int, int)>,
    j: int,
    seen_ids: Seq<u8>,
    seen_names: Seq<Seq<char>>,
    is_tagged: Option<bool>,
    acc: Seq<EnumVariantView>,
) -> Result<(Seq<EnumVariantView>, int), ParseErrorView>
    decreases tts.len() - j,
{
    if j < 0 || j >= tts.len() || tts[j].0 == "}"@ {
        Ok((acc, j))
    } else {
        match sp_parse_enum_variant(tts, j, seen_ids, seen_names, is_tagged) {
            Err(e) => Err(e),
            Ok((v, j2)) => {
                if j2 <= j {
                    Err(ParseErrorView::UnexpectedEnd { expected: Seq::empty() })
                } else {
                    let vt = v is Tagged;
                    match is_tagged {
                        Some(t) => {
                            if t != vt {
                                Err(
                                    ParseErrorView::MixedTaggedAndUntaggedEnumVariants {
                                        line: tts[j].1,
                                        col: tts[j].2,
                                    },
                                )
                            } else {
                                sp_enum_variants(
                                    tts,
                                    j2,
                                    seen_ids.push(view_variant_id(v)),
                                    seen_names.push(view_variant_name(v)),
                                    is_tagged,
                                    acc.push(v),
                                )
                            }
                        }
                        None => sp_enum_variants(
                            tts,
                            j2,
                            seen_ids.push(view_variant_id(v)),
                            seen_names.push(view_variant_name(v)),
                            Some(vt),
                            acc.push(v),
                        ),
                    }
                }
            }
        }
    }
}

/// One enum declaration, starting at token `i`, against the names of the
/// types already declared.
pub open spec fn sp_parse_enum(
    tts: Seq<(Seq<char>, int, int)>,
    i: int,
    type_names: Seq<Seq<char>>,
) -> Result<(crate::ir::EnumView, int), ParseErrorView> {
    if i < 0 || i >= tts.len() {
        Err(ParseErrorView::UnexpectedEnd { expected: "`enum`"@ })
    } else if tts[i].0 != "enum"@ {
        Err(
            ParseErrorView::UnexpectedToken {
                unexpected: tts[i].0,
                expected: "`enum`"@,
                line: tts[i].1,
                col: tts[i].2,
            },
        )
    } else if i + 1 >= tts.len() {
        Err(ParseErrorView::UnexpectedEnd { expected: "a type name"@ })
    } else {
        let namet = tts[i + 1];
        if !is_ident_start_char(namet.0[0]) {
            Err(
                ParseErrorView::UnexpectedToken {
                    unexpected: namet.0,
                    expected: "a type name"@,
                    line: namet.1,
                    col: namet.2,
                },
            )
        } else if type_names.contains(namet.0) {
            Err(ParseErrorView::DuplicateTypeName { name: namet.0, line: namet.1, col: namet.2 })
        } else if i + 2 >= tts.len() {
            Err(ParseErrorView::UnexpectedEnd { expected: "`{`"@ })
        } else if tts[i + 2].0 != "{"@ {
            Err(
                ParseErrorView::UnexpectedToken {
                    unexpected: tts[i + 2].0,
                    expected: "`{`"@,
                    line: tts[i + 2].1,
                    col: tts[i + 2].2,
                },
            )
        } else {
            match sp_enum_variants(tts, i + 3, Seq::empty(), Seq::empty(), None, Seq::empty()) {
                Err(e) => Err(e),
                Ok((vs, j)) => {
                    if j >= tts.len() {
                        Err(ParseErrorView::UnexpectedEnd { expected: "an enum variant or `}`"@ })
                    } else if vs.len() == 0 {
                        Err(
                            ParseErrorView::UnexpectedToken {
                                unexpected: "}"@,
                                expected: "an enum variant"@,
                                line: tts[j].1,
                                col: tts[j].2,
                            },
                        )
                    } else {
                        Ok(
                            (
                                (if vs[0] is Tagged {
                                    crate::ir::EnumView::Tagged {
                                        name: namet.0,
                                        variants: tagged_views(vs),
                                    }
                                } else {
                                    crate::ir::EnumView::Untagged {
                                        name: namet.0,
                                        variants: untagged_views(vs),
                                    }
                                }),
                                j + 1,
                            ),
                        )
                    }
                }
            }
        }
    }
}

/// The body of a struct declaration: fields until `}` or the end of input.
pub open spec fn sp_struct_fields(
    tts: Seq<(Seq<char>, int, int)>,
    j: int,
    seen_ids: Seq<u8>,
    seen_names: Seq<Seq<char>>,
    acc: Seq<crate::ir::FieldView>,
) -> Result<(Seq<crate::ir::FieldView>, int), ParseErrorView>
    decreases tts.len() - j,
{
    if j < 0 || j >= tts.len() || tts[j].0 == "}"@ {
        Ok((acc, j))
    } else {
        match sp_parse_struct_field(tts, j, seen_ids, seen_names) {
            Err(e) => Err(e),
            Ok((f, j2)) => {
                if j2 <= j {
                    Err(ParseErrorView::UnexpectedEnd { expected: Seq::empty() })
                } else {
                    sp_struct_fields(
                        tts,
                        j2,
                        seen_ids.push(f.id),
                        seen_names.push(f.name),
                        acc.push(f),
                    )
                }
            }
        }
    }
}

/// One struct declaration, starting at token `i`, against the names of the
/// types already declared.
pub open spec fn sp_parse_struct(
    tts: Seq<(Seq<char>, int, int)>,
    i: int,
    type_names: Seq<Seq<char>>,
) -> Result<(crate::ir::StructView, int), ParseErrorView> {
    if i < 0 || i >= tts.len() {
        Err(ParseErrorView::UnexpectedEnd { expected: "`struct`"@ })
    } else if tts[i].0 != "struct"@ {
        Err(
            ParseErrorView::UnexpectedToken {
                unexpected: tts[i].0,
                expected: "`struct`"@,
                line: tts[i].1,
                col: tts[i].2,
            },
        )
    } else if i + 1 >= tts.len() {
        Err(ParseErrorView::UnexpectedEnd { expected: "a type name"@ })
    } else {
        let namet = tts[i + 1];
        if !is_ident_start_char(namet.0[0]) {
            Err(
                ParseErrorView::UnexpectedToken {
                    unexpected: namet.0,
                    expected: "a type name"@,
                    line: namet.1,
                    col: namet.2,
                },
            )
        } else if type_names.contains(namet.0) {
            Err(ParseErrorView::DuplicateTypeName { name: namet.0, line: namet.1, col: namet.2 })
        } else if i + 2 >= tts.len() {
            Err(ParseErrorView::UnexpectedEnd { expected: "`{`"@ })
        } else if tts[i + 2].0 != "{"@ {
            Err(
                ParseErrorView::UnexpectedToken {
                    unexpected: tts[i + 2].0,
                    expected: "`{`"@,
                    line: tts[i + 2].1,
                    col: tts[i + 2].2,
                },
            )
        } else {
            match sp_struct_fields(tts, i + 3, Seq::empty(), Seq::empty(), Seq::empty()) {
                Err(e) => Err(e),
                Ok((fs, j)) => {
                    if j >= tts.len() {
                        Err(ParseErrorView::UnexpectedEnd { expected: "a struct field or `}`"@ })
                    } else {
                        Ok((crate::ir::StructView { name: namet.0, fields: fs }, j + 1))
                    }
                }
            }
        }
    }
}

/// One type declaration, dispatching on the leading keyword.
pub open spec fn sp_parse_type(
    tts: Seq<(Seq<char>, int, int)>,
    i: int,
    type_names: Seq<Seq<char>>,
) -> Result<(crate::ir::TypeView, int), ParseErrorView> {
    if i < 0 || i >= tts.len() {
        Err(ParseErrorView::UnexpectedEnd { expected: "`enum` or `struct`"@ })
    } else if tts[i].0 == "enum"@ {
        match sp_parse_enum(tts, i, type_names) {
            Ok((e, j)) => Ok((crate::ir::TypeView::Enum(e), j)),
            Err(e) => Err(e),
        }
    } else if tts[i].0 == "struct"@ {
        match sp_parse_struct(tts, i, type_names) {
            Ok((s, j)) => Ok((crate::ir::TypeView::Struct(s), j)),
            Err(e) => Err(e),
        }
    } else {
        Err(
            ParseErrorView::UnexpectedToken {
                unexpected: tts[i].0,
                expected: "`enum` or `struct`"@,
                line: tts[i].1,
                col: tts[i].2,
            },
        )
    }
}

/// The declared names of the types parsed so far.
pub open spec fn view_decl_names(acc: Seq<crate::ir::TypeView>) -> Seq<Seq<char>> {
    acc.map_values(|t: crate::ir::TypeView| crate::ir::view_decl_name(t))
}

/// The sequence of type declarations from token `i` to the end of input.
pub open spec fn sp_parse_types(
    tts: Seq<(Seq<char>, int, int)>,
    i: int,
    acc: Seq<crate::ir::TypeView>,
) -> Result<Seq<crate::ir::TypeView>, ParseErrorView>
    decreases tts.len() - i,
{
    if i < 0 || i >= tts.len() {
        Ok(acc)
    } else {
        match sp_parse_type(tts, i, view_decl_names(acc)) {
            Err(e) => Err(e),
            Ok((t, j)) => {
                if j <= i {
                    Err(ParseErrorView::UnexpectedEnd { expected: Seq::empty() })
                } else {
                    sp_parse_types(tts, j, acc.push(t))
                }
            }
        }
    }
}

/// The first unresolved tagged payload among the variants of one enum, if
/// any.
pub open spec fn sp_resolve_variants(
    ts: Seq<crate::ir::TypeView>,
    vs: Seq<crate::ir::TaggedVariantView>,
    k: int,
) -> Option<ParseErrorView>
    decreases vs.len() - k,
{
    if k < 0 || k >= vs.len() {
        None
    } else if !crate::ir::view_has_struct(ts, vs[k].ty) {
        Some(
            ParseErrorView::UnknownTaggedEnumVariantType {
                name: vs[k].ty,
                line: vs[k].line,
                col: vs[k].col,
            },
        )
    } else {
        sp_resolve_variants(ts, vs, k + 1)
    }
}

/// The first unresolved tagged payload in the whole IR, if any, scanning
/// declarations and variants in order.
pub open spec fn sp_resolve(ts: Seq<crate::ir::TypeView>, a: int) -> Option<ParseErrorView>
    decreases ts.len() - a,
{
    if a < 0 || a >= ts.len() {
        None
    } else {
        let head = match ts[a] {
            crate::ir::TypeView::Enum(crate::ir::EnumView::Tagged { variants, .. }) => sp_resolve_variants(
                ts,
                variants,
                0,
            ),
            _ => None,
        };
        match head {
            Some(e) => Some(e),
            None => sp_resolve(ts, a + 1),
        }
    }
}

/// What parsing a whole source text yields: the first lexical error, or the
/// first syntactic or semantic error, or the complete IR.
pub open spec fn sp_parse(s: Seq<char>) -> Result<Seq<crate::ir::TypeView>, ParseErrorView> {
    match spec_tokenize(s) {
        Err((c, l, col)) => Err(ParseErrorView::NonAsciiCharacter { ch: c, line: l, col }),
        Ok(tts) => match sp_parse_types(tts, 0, Seq::empty()) {
            Err(e) => Err(e),
            Ok(ts) => match sp_resolve(ts, 0) {
                Some(e) => Err(e),
                None => Ok(ts),
            },
        },
    }
}

} // verus!
