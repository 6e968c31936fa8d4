//! The text of a schema: how the id, the data type and the path of a tag are
//! written in a declaration, and how a declaration is read from its
//! attributes or from one line of the short notation.
use vstd::prelude::*;
use vstd::slice::slice_subrange;
use vstd::slice::slice_to_vec;
use crate::schema::segment_models;
use crate::schema::DeclModel;
use crate::schema::PathSegment;
use crate::schema::SegmentModel;
use crate::schema::VariantDecl;
use crate::specs::TagDataType;

verus! {

/// The words and signs of which the text of a declaration is made.
#[derive(Debug, PartialEq, Eq)]
pub enum Token {
    /// A name: a letter or an underscore, then letters, digits and
    /// underscores.
    Name(Vec<u8>),
    /// A number, as Rust writes integers: decimal, or with `0x`, `0o` or
    /// `0b` in front; underscores between the digits and a suffix behind
    /// them do not count.
    Number(u64),
    Slash,
    Open,
    Close,
    Dash,
    Colon,
    Equals,
}

/// A word or sign, with a name as a sequence.
pub enum TokenModel {
    Name(Seq<u8>),
    Number(u64),
    Slash,
    Open,
    Close,
    Dash,
    Colon,
    Equals,
}

impl View for Token {
    type V = TokenModel;

    open spec fn view(&self) -> TokenModel {
        match self {
            Token::Name(name) => TokenModel::Name(name@),
            Token::Number(value) => TokenModel::Number(*value),
            Token::Slash => TokenModel::Slash,
            Token::Open => TokenModel::Open,
            Token::Close => TokenModel::Close,
            Token::Dash => TokenModel::Dash,
            Token::Colon => TokenModel::Colon,
            Token::Equals => TokenModel::Equals,
        }
    }
}

/// What the tokens are.
pub open spec fn token_models(tokens: Seq<Token>) -> Seq<TokenModel> {
    Seq::new(tokens.len(), |i: int| tokens[i]@)
}

/// Whether the byte is a blank, a tab or the end of a line.
pub open spec fn is_space(b: u8) -> bool {
    b == 0x20 || b == 0x09 || b == 0x0a || b == 0x0d
}

/// Whether the byte is a decimal digit.
pub open spec fn is_digit(b: u8) -> bool {
    0x30 <= b <= 0x39
}

/// Whether a name can begin with the byte: a letter or an underscore.
pub open spec fn is_name_start(b: u8) -> bool {
    (0x41 <= b <= 0x5a) || (0x61 <= b <= 0x7a) || b == 0x5f
}

/// Whether the byte can stand within a name or a number.
pub open spec fn is_word_byte(b: u8) -> bool {
    is_name_start(b) || is_digit(b)
}

/// The end of the word that begins at `at`: the place of the first byte,
/// from `at` on, that cannot stand within a word.
pub open spec fn word_end(text: Seq<u8>, at: nat) -> nat
    decreases text.len() - at,
{
    if at >= text.len() || !is_word_byte(text[at as int]) {
        at
    } else {
        word_end(text, at + 1)
    }
}

/// The value of the byte as a digit of a number in the base `radix`.
pub open spec fn digit_of(b: u8, radix: nat) -> Option<nat> {
    let value: int = if is_digit(b) {
        b - 0x30
    } else if 0x61 <= b <= 0x66 {
        b - 0x61 + 10
    } else if 0x41 <= b <= 0x46 {
        b - 0x41 + 10
    } else {
        16
    };
    if value < radix {
        Some(value as nat)
    } else {
        None
    }
}

/// The value of the digits of `word` from `at` on, in the base `radix`,
/// where the digits before them have the value `acc` and `seen` says whether
/// there were any. Underscores do not count. The digits end at the first
/// byte that is no digit, where a suffix begins. Nothing where there is no
/// digit, or where the value is more than 64 bits hold.
pub open spec fn digits_value(word: Seq<u8>, at: nat, radix: nat, acc: nat, seen: bool) -> Option<
    u64,
>
    decreases word.len() - at,
{
    if at >= word.len() {
        if seen {
            Some(acc as u64)
        } else {
            None
        }
    } else if word[at as int] == 0x5f {
        digits_value(word, at + 1, radix, acc, seen)
    } else {
        match digit_of(word[at as int], radix) {
            Some(digit) => if acc * radix + digit > u64::MAX {
                None
            } else {
                digits_value(word, at + 1, radix, acc * radix + digit, true)
            },
            None => if seen {
                Some(acc as u64)
            } else {
                None
            },
        }
    }
}

/// The base that the beginning of the number `word` announces, with the
/// place where its digits begin.
pub open spec fn radix_of(word: Seq<u8>) -> (nat, nat) {
    if word.len() >= 2 && word[0] == 0x30 && word[1] == 0x78 {
        (16, 2)
    } else if word.len() >= 2 && word[0] == 0x30 && word[1] == 0x6f {
        (8, 2)
    } else if word.len() >= 2 && word[0] == 0x30 && word[1] == 0x62 {
        (2, 2)
    } else {
        (10, 0)
    }
}

/// The value of the number `word`.
pub open spec fn literal_value(word: Seq<u8>) -> Option<u64> {
    digits_value(word, radix_of(word).1, radix_of(word).0, 0, false)
}

/// The token that begins at `at`, where no space stands, with the place
/// behind it; nothing where no token begins there.
pub open spec fn token_at(text: Seq<u8>, at: nat) -> Option<(TokenModel, nat)> {
    let b = text[at as int];
    if b == 0x2f {
        Some((TokenModel::Slash, at + 1))
    } else if b == 0x28 {
        Some((TokenModel::Open, at + 1))
    } else if b == 0x29 {
        Some((TokenModel::Close, at + 1))
    } else if b == 0x2d {
        Some((TokenModel::Dash, at + 1))
    } else if b == 0x3a {
        Some((TokenModel::Colon, at + 1))
    } else if b == 0x3d {
        Some((TokenModel::Equals, at + 1))
    } else if is_name_start(b) {
        Some((TokenModel::Name(text.subrange(at as int, word_end(text, at) as int)), word_end(text, at)))
    } else if is_digit(b) {
        match literal_value(text.subrange(at as int, word_end(text, at) as int)) {
            Some(value) => Some((TokenModel::Number(value), word_end(text, at))),
            None => None,
        }
    } else {
        None
    }
}

/// The tokens of `text` from `at` on; nothing where the text holds what is
/// no token. Spaces stand between tokens and do not count.
pub open spec fn tokens_from(text: Seq<u8>, at: nat) -> Option<Seq<TokenModel>>
    decreases text.len() - at,
{
    if at >= text.len() {
        Some(Seq::empty())
    } else if is_space(text[at as int]) {
        tokens_from(text, at + 1)
    } else {
        match token_at(text, at) {
            None => None,
            Some((token, next)) => if at < next <= text.len() {
                match tokens_from(text, next) {
                    None => None,
                    Some(rest) => Some(seq![token] + rest),
                }
            } else {
                None
            },
        }
    }
}

/// The end of a word is behind its beginning and within the text.
pub proof fn lemma_word_end_bound(text: Seq<u8>, at: nat)
    requires
        at <= text.len(),
    ensures
        at <= word_end(text, at) <= text.len(),
        at < text.len() && is_word_byte(text[at as int]) ==> at < word_end(text, at),
    decreases text.len() - at,
{
    if at < text.len() && is_word_byte(text[at as int]) {
        lemma_word_end_bound(text, at + 1);
    }
}

fn byte_is_space(b: u8) -> (r: bool)
    ensures
        r == is_space(b),
{
    b == 0x20 || b == 0x09 || b == 0x0a || b == 0x0d
}

fn byte_is_digit(b: u8) -> (r: bool)
    ensures
        r == is_digit(b),
{
    0x30 <= b && b <= 0x39
}

fn byte_is_name_start(b: u8) -> (r: bool)
    ensures
        r == is_name_start(b),
{
    (0x41 <= b && b <= 0x5a) || (0x61 <= b && b <= 0x7a) || b == 0x5f
}

/// The end of the word that begins at `at`.
pub fn find_word_end(text: &[u8], at: usize) -> (r: usize)
    requires
        at <= text@.len(),
    ensures
        r == word_end(text@, at as nat),
        at <= r <= text@.len(),
{
    let mut end: usize = at;
    proof {
        lemma_word_end_bound(text@, at as nat);
    }
    while end < text.len() && (byte_is_name_start(text[end]) || byte_is_digit(text[end]))
        invariant
            at <= end <= text@.len(),
            word_end(text@, at as nat) == word_end(text@, end as nat),
        decreases text@.len() - end,
    {
        end += 1;
    }
    end
}

/// The value of the number `word`: see [`Token::Number`].
pub fn parse_int_literal(word: &[u8]) -> (r: Option<u64>)
    ensures
        r == literal_value(word@),
{
    let mut radix: u64 = 10;
    let mut at: usize = 0;
    if word.len() >= 2 && word[0] == 0x30 {
        if word[1] == 0x78 {
            radix = 16;
            at = 2;
        } else if word[1] == 0x6f {
            radix = 8;
            at = 2;
        } else if word[1] == 0x62 {
            radix = 2;
            at = 2;
        }
    }
    let mut acc: u64 = 0;
    let mut seen: bool = false;
    while at < word.len()
        invariant
            at <= word@.len(),
            radix == 2 || radix == 8 || radix == 10 || radix == 16,
            literal_value(word@) == digits_value(word@, at as nat, radix as nat, acc as nat, seen),
        decreases word@.len() - at,
    {
        let b: u8 = word[at];
        if b != 0x5f {
            let value: u64 = if 0x30 <= b && b <= 0x39 {
                (b - 0x30) as u64
            } else if 0x61 <= b && b <= 0x66 {
                (b - 0x61) as u64 + 10
            } else if 0x41 <= b && b <= 0x46 {
                (b - 0x41) as u64 + 10
            } else {
                16
            };
            if value >= radix {
                return if seen {
                    Some(acc)
                } else {
                    None
                };
            }
            if acc > (u64::MAX - value) / radix {
                proof {
                    assert(acc * radix + value > u64::MAX) by (nonlinear_arith)
                        requires
                            acc > (u64::MAX - value) / (radix as int),
                            radix > 0,
                            value <= u64::MAX,
                    ;
                }
                return None;
            }
            proof {
                assert(acc * radix + value <= u64::MAX) by (nonlinear_arith)
                    requires
                        acc <= (u64::MAX - value) / (radix as int),
                        radix > 0,
                        value <= u64::MAX,
                ;
            }
            acc = acc * radix + value;
            seen = true;
        }
        at += 1;
    }
    if seen {
        Some(acc)
    } else {
        None
    }
}

/// Adds the tokens of `text` from `at` on to `done`.
fn tokens_into(text: &[u8], at: usize, done: Vec<Token>) -> (r: Option<Vec<Token>>)
    requires
        at <= text@.len(),
    ensures
        match tokens_from(text@, at as nat) {
            None => r is None,
            Some(rest) => r matches Some(all) && token_models(all@) == token_models(done@) + rest,
        },
    decreases text@.len() - at,
{
    if at >= text.len() {
        proof {
            assert(token_models(done@) + Seq::<TokenModel>::empty() =~= token_models(done@));
        }
        return Some(done);
    }
    let b: u8 = text[at];
    if byte_is_space(b) {
        return tokens_into(text, at + 1, done);
    }
    proof {
        lemma_word_end_bound(text@, at as nat);
    }
    let (token, next): (Token, usize) = if b == 0x2f {
        (Token::Slash, at + 1)
    } else if b == 0x28 {
        (Token::Open, at + 1)
    } else if b == 0x29 {
        (Token::Close, at + 1)
    } else if b == 0x2d {
        (Token::Dash, at + 1)
    } else if b == 0x3a {
        (Token::Colon, at + 1)
    } else if b == 0x3d {
        (Token::Equals, at + 1)
    } else if byte_is_name_start(b) {
        let end: usize = find_word_end(text, at);
        (Token::Name(slice_to_vec(slice_subrange(text, at, end))), end)
    } else if byte_is_digit(b) {
        let end: usize = find_word_end(text, at);
        match parse_int_literal(slice_subrange(text, at, end)) {
            Some(value) => (Token::Number(value), end),
            None => {
                return None;
            },
        }
    } else {
        return None;
    };
    let ghost had = token_models(done@);
    let ghost model = token@;
    let mut done = done;
    done.push(token);
    proof {
        assert(token_models(done@) =~= had.push(model));
        match tokens_from(text@, next as nat) {
            Some(rest) => {
                assert(had + (seq![model] + rest) =~= token_models(done@) + rest);
            },
            None => {},
        }
    }
    tokens_into(text, next, done)
}

/// The tokens of `text`: see [`tokens_from`].
pub fn tokenize(text: &[u8]) -> (r: Option<Vec<Token>>)
    ensures
        match tokens_from(text@, 0) {
            None => r is None,
            Some(tokens) => r matches Some(all) && token_models(all@) == tokens,
        },
{
    let done: Vec<Token> = Vec::new();
    proof {
        match tokens_from(text@, 0) {
            Some(tokens) => {
                assert(token_models(done@) + tokens =~= tokens);
            },
            None => {},
        }
    }
    tokens_into(text, 0, done)
}

/// The step of a path that begins at the token `at`, with the place behind
/// it: a name, or two optional bounds with a dash between them, in round
/// brackets.
pub open spec fn segment_at(tokens: Seq<TokenModel>, at: nat) -> Option<(SegmentModel, nat)> {
    if at >= tokens.len() {
        None
    } else {
        match tokens[at as int] {
            TokenModel::Name(name) => Some((SegmentModel::Name(name), at + 1)),
            TokenModel::Open => {
                let (min, dash): (Option<u64>, nat) = if at + 1 < tokens.len() && (tokens[at as int + 1] matches TokenModel::Number(
                    _,
                )) {
                    (Some(tokens[at as int + 1]->Number_0), at + 2)
                } else {
                    (None, at + 1)
                };
                if dash < tokens.len() && tokens[dash as int] == TokenModel::Dash {
                    let (max, close): (Option<u64>, nat) = if dash + 1 < tokens.len() && (tokens[dash as int + 1] matches TokenModel::Number(_)) {
                        (Some(tokens[dash as int + 1]->Number_0), dash + 2)
                    } else {
                        (None, dash + 1)
                    };
                    if close < tokens.len() && tokens[close as int] == TokenModel::Close {
                        Some((SegmentModel::Global((min, max)), close + 1))
                    } else {
                        None
                    }
                } else {
                    None
                }
            },
            _ => None,
        }
    }
}

/// The steps of the path whose tokens stand from `at` up to `end`: steps
/// with a slash between each two.
pub open spec fn segments_from(tokens: Seq<TokenModel>, at: nat, end: nat) -> Option<Seq<SegmentModel>>
    decreases end - at,
{
    match segment_at(tokens.subrange(0, end as int), at) {
        None => None,
        Some((segment, next)) => if next == end {
            Some(seq![segment])
        } else if at < next < end && tokens[next as int] == TokenModel::Slash {
            match segments_from(tokens, next + 1, end) {
                None => None,
                Some(rest) => Some(seq![segment] + rest),
            }
        } else {
            None
        },
    }
}

/// The step of a path that begins at the token `at`, before `end`.
fn parse_segment(tokens: &Vec<Token>, at: usize, end: usize) -> (r: Option<(PathSegment, usize)>)
    requires
        at <= end <= tokens@.len(),
    ensures
        match segment_at(token_models(tokens@).subrange(0, end as int), at as nat) {
            None => r is None,
            Some((segment, next)) => r matches Some((found, behind)) && found@ == segment && behind
                == next && at < behind <= end,
        },
{
    let ghost all = token_models(tokens@).subrange(0, end as int);
    if at >= end {
        return None;
    }
    proof {
        assert(all[at as int] == tokens@[at as int]@);
    }
    match &tokens[at] {
        Token::Name(name) => Some((PathSegment::Name(name.clone()), at + 1)),
        Token::Open => {
            let mut min: Option<u64> = None;
            let mut dash: usize = at + 1;
            if at + 1 < end {
                proof {
                    assert(all[at + 1] == tokens@[at + 1]@);
                }
                match &tokens[at + 1] {
                    Token::Number(value) => {
                        min = Some(*value);
                        dash = at + 2;
                    },
                    _ => {},
                }
            }
            if dash >= end {
                return None;
            }
            proof {
                assert(all[dash as int] == tokens@[dash as int]@);
            }
            match &tokens[dash] {
                Token::Dash => {},
                _ => {
                    return None;
                },
            }
            let mut max: Option<u64> = None;
            let mut close: usize = dash + 1;
            if dash + 1 < end {
                proof {
                    assert(all[dash + 1] == tokens@[dash + 1]@);
                }
                match &tokens[dash + 1] {
                    Token::Number(value) => {
                        max = Some(*value);
                        close = dash + 2;
                    },
                    _ => {},
                }
            }
            if close >= end {
                return None;
            }
            proof {
                assert(all[close as int] == tokens@[close as int]@);
            }
            match &tokens[close] {
                Token::Close => Some((PathSegment::Global((min, max)), close + 1)),
                _ => None,
            }
        },
        _ => None,
    }
}

/// Adds the steps of the path whose tokens stand from `at` up to `end` to
/// `done`.
fn segments_into(tokens: &Vec<Token>, at: usize, end: usize, done: Vec<PathSegment>) -> (r: Option<
    Vec<PathSegment>,
>)
    requires
        at <= end <= tokens@.len(),
    ensures
        match segments_from(token_models(tokens@), at as nat, end as nat) {
            None => r is None,
            Some(rest) => r matches Some(all) && segment_models(all@) == segment_models(done@) + rest,
        },
    decreases end - at,
{
    let ghost had = segment_models(done@);
    match parse_segment(tokens, at, end) {
        None => None,
        Some((segment, next)) => {
            let ghost model = segment@;
            let mut done = done;
            done.push(segment);
            proof {
                assert(segment_models(done@) =~= had.push(model));
                assert(had + seq![model] =~= had.push(model));
            }
            if next == end {
                Some(done)
            } else {
                proof {
                    assert(token_models(tokens@)[next as int] == tokens@[next as int]@);
                }
                match &tokens[next] {
                    Token::Slash => {
                        proof {
                            match segments_from(token_models(tokens@), (next + 1) as nat, end as nat) {
                                Some(rest) => {
                                    assert(had + (seq![model] + rest) =~= segment_models(done@)
                                        + rest);
                                },
                                None => {},
                            }
                        }
                        segments_into(tokens, next + 1, end, done)
                    },
                    _ => None,
                }
            }
        },
    }
}

/// The path that `text` spells: names and global steps with a slash between
/// each two, as in `Segment/(1-)/Cluster`. A global step is a pair of round
/// brackets around a dash, with the least number of ancestors before the
/// dash and the greatest behind it, each of which may be missing.
pub open spec fn spec_parse_doc_path(text: Seq<u8>) -> Option<Seq<SegmentModel>> {
    match tokens_from(text, 0) {
        None => None,
        Some(tokens) => segments_from(tokens, 0, tokens.len()),
    }
}

/// Reads the path that `text` spells: see [`spec_parse_doc_path`].
pub fn parse_doc_path(text: &[u8]) -> (r: Option<Vec<PathSegment>>)
    ensures
        match spec_parse_doc_path(text@) {
            None => r is None,
            Some(path) => r matches Some(found) && segment_models(found@) == path,
        },
{
    match tokenize(text) {
        None => None,
        Some(tokens) => {
            let done: Vec<PathSegment> = Vec::new();
            proof {
                match segments_from(token_models(tokens@), 0, tokens@.len()) {
                    Some(path) => {
                        assert(segment_models(done@) + path =~= path);
                    },
                    None => {},
                }
            }
            segments_into(&tokens, 0, tokens.len(), done)
        },
    }
}

/// The names of the data types as a declaration spells them.
pub open spec fn spelling(data_type: TagDataType) -> Seq<u8> {
    match data_type {
        TagDataType::Master => seq![0x4du8, 0x61u8, 0x73u8, 0x74u8, 0x65u8, 0x72u8],
        TagDataType::UnsignedInt => seq![
            0x55u8,
            0x6eu8,
            0x73u8,
            0x69u8,
            0x67u8,
            0x6eu8,
            0x65u8,
            0x64u8,
            0x49u8,
            0x6eu8,
            0x74u8,
        ],
        TagDataType::Integer => seq![0x49u8, 0x6eu8, 0x74u8, 0x65u8, 0x67u8, 0x65u8, 0x72u8],
        TagDataType::Utf8 => seq![0x55u8, 0x74u8, 0x66u8, 0x38u8],
        TagDataType::Binary => seq![0x42u8, 0x69u8, 0x6eu8, 0x61u8, 0x72u8, 0x79u8],
        TagDataType::Float => seq![0x46u8, 0x6cu8, 0x6fu8, 0x61u8, 0x74u8],
    }
}

/// The data type that the name `name` spells.
pub open spec fn spelled(name: Seq<u8>) -> Option<TagDataType> {
    if name == spelling(TagDataType::Master) {
        Some(TagDataType::Master)
    } else if name == spelling(TagDataType::UnsignedInt) {
        Some(TagDataType::UnsignedInt)
    } else if name == spelling(TagDataType::Integer) {
        Some(TagDataType::Integer)
    } else if name == spelling(TagDataType::Utf8) {
        Some(TagDataType::Utf8)
    } else if name == spelling(TagDataType::Binary) {
        Some(TagDataType::Binary)
    } else if name == spelling(TagDataType::Float) {
        Some(TagDataType::Float)
    } else {
        None
    }
}

/// The name of a data type as a declaration spells it.
pub fn spelling_of(data_type: TagDataType) -> (r: Vec<u8>)
    ensures
        r@ == spelling(data_type),
{
    let r: Vec<u8> = match data_type {
        TagDataType::Master => vec![0x4du8, 0x61u8, 0x73u8, 0x74u8, 0x65u8, 0x72u8],
        TagDataType::UnsignedInt => vec![
            0x55u8,
            0x6eu8,
            0x73u8,
            0x69u8,
            0x67u8,
            0x6eu8,
            0x65u8,
            0x64u8,
            0x49u8,
            0x6eu8,
            0x74u8,
        ],
        TagDataType::Integer => vec![0x49u8, 0x6eu8, 0x74u8, 0x65u8, 0x67u8, 0x65u8, 0x72u8],
        TagDataType::Utf8 => vec![0x55u8, 0x74u8, 0x66u8, 0x38u8],
        TagDataType::Binary => vec![0x42u8, 0x69u8, 0x6eu8, 0x61u8, 0x72u8, 0x79u8],
        TagDataType::Float => vec![0x46u8, 0x6cu8, 0x6fu8, 0x61u8, 0x74u8],
    };
    proof {
        assert(r@ =~= spelling(data_type));
    }
    r
}

/// The data type that the name `name` spells.
pub fn data_type_of_name(name: &Vec<u8>) -> (r: Option<TagDataType>)
    ensures
        r == spelled(name@),
{
    if crate::schema::same_bytes(name, &spelling_of(TagDataType::Master)) {
        Some(TagDataType::Master)
    } else if crate::schema::same_bytes(name, &spelling_of(TagDataType::UnsignedInt)) {
        Some(TagDataType::UnsignedInt)
    } else if crate::schema::same_bytes(name, &spelling_of(TagDataType::Integer)) {
        Some(TagDataType::Integer)
    } else if crate::schema::same_bytes(name, &spelling_of(TagDataType::Utf8)) {
        Some(TagDataType::Utf8)
    } else if crate::schema::same_bytes(name, &spelling_of(TagDataType::Binary)) {
        Some(TagDataType::Binary)
    } else if crate::schema::same_bytes(name, &spelling_of(TagDataType::Float)) {
        Some(TagDataType::Float)
    } else {
        None
    }
}

/// The last name of a run of tokens that spells a path of names with `::`
/// between each two, as in `specs::TagDataType::Master`, from the token `at`
/// on.
pub open spec fn last_of_names(tokens: Seq<TokenModel>, at: nat) -> Option<Seq<u8>>
    decreases tokens.len() - at,
{
    if at < tokens.len() && (tokens[at as int] matches TokenModel::Name(name)) {
        if at + 1 == tokens.len() {
            Some(tokens[at as int]->Name_0)
        } else if at + 3 < tokens.len() + 1 && tokens[at as int + 1] == TokenModel::Colon && tokens[at as int + 2]
            == TokenModel::Colon {
            last_of_names(tokens, at + 3)
        } else {
            None
        }
    } else {
        None
    }
}

/// The data type that `text` names: the text is a name, or a path of names
/// with `::` between each two, and its last name spells the data type.
pub open spec fn spec_parse_data_type(text: Seq<u8>) -> Option<TagDataType> {
    match tokens_from(text, 0) {
        None => None,
        Some(tokens) => match last_of_names(tokens, 0) {
            None => None,
            Some(name) => spelled(name),
        },
    }
}

/// Reads the data type that `text` names: see [`spec_parse_data_type`].
pub fn parse_data_type(text: &[u8]) -> (r: Option<TagDataType>)
    ensures
        r == spec_parse_data_type(text@),
{
    match tokenize(text) {
        None => None,
        Some(tokens) => {
            let mut at: usize = 0;
            while at < tokens.len()
                invariant
                    at <= tokens@.len(),
                    tokens_from(text@, 0) == Some(token_models(tokens@)),
                    last_of_names(token_models(tokens@), 0) == last_of_names(
                        token_models(tokens@),
                        at as nat,
                    ),
                decreases tokens@.len() - at,
            {
                proof {
                    assert(token_models(tokens@)[at as int] == tokens@[at as int]@);
                }
                match &tokens[at] {
                    Token::Name(name) => {
                        if at + 1 == tokens.len() {
                            return data_type_of_name(name);
                        }
                        if tokens.len() - at < 3 {
                            return None;
                        }
                        proof {
                            assert(token_models(tokens@)[at + 1] == tokens@[at + 1]@);
                            assert(token_models(tokens@)[at + 2] == tokens@[at + 2]@);
                        }
                        let first_colon: bool = match &tokens[at + 1] {
                            Token::Colon => true,
                            _ => false,
                        };
                        let second_colon: bool = match &tokens[at + 2] {
                            Token::Colon => true,
                            _ => false,
                        };
                        if !(first_colon && second_colon) {
                            return None;
                        }
                        at += 3;
                    },
                    _ => {
                        return None;
                    },
                }
            }
            None
        },
    }
}

/// The number that `text` spells: one number, and nothing else.
pub open spec fn spec_parse_id(text: Seq<u8>) -> Option<u64> {
    match tokens_from(text, 0) {
        None => None,
        Some(tokens) => if tokens.len() == 1 && (tokens[0] matches TokenModel::Number(_)) {
            Some(tokens[0]->Number_0)
        } else {
            None
        },
    }
}

/// Reads the number that `text` spells: see [`spec_parse_id`].
pub fn parse_id(text: &[u8]) -> (r: Option<u64>)
    ensures
        r == spec_parse_id(text@),
{
    match tokenize(text) {
        None => None,
        Some(tokens) => {
            if tokens.len() != 1 {
                return None;
            }
            proof {
                assert(token_models(tokens@)[0] == tokens@[0]@);
            }
            match &tokens[0] {
                Token::Number(value) => Some(*value),
                _ => None,
            }
        },
    }
}

/// What is wrong with the text of one declaration.
#[derive(Copy, Clone, Debug, PartialEq, Eq, Structural)]
pub enum DeclError {
    /// The text cannot be read.
    Malformed,
    /// The id is given twice.
    DuplicateId,
    /// The data type is given twice.
    DuplicateDataType,
    /// The path is given twice.
    DuplicatePath,
    /// No id is given.
    MissingId,
    /// No data type is given.
    MissingDataType,
    /// What is given as the id is no number.
    InvalidId,
    /// What is given as the data type names no data type.
    UnrecognizedDataType,
    /// What is given as the path is no path.
    InvalidPath,
    /// The path ends in a global step, so the tag has no name.
    NamelessTag,
}

/// The place of the first token, from `at` on, that is `wanted`.
pub open spec fn index_of_token(tokens: Seq<TokenModel>, wanted: TokenModel, at: nat) -> Option<nat>
    decreases tokens.len() - at,
{
    if at >= tokens.len() {
        None
    } else if tokens[at as int] == wanted {
        Some(at)
    } else {
        index_of_token(tokens, wanted, at + 1)
    }
}

/// The declaration that one line of the short notation spells: a path whose
/// last step is the name of the tag, a colon, the data type, an equals sign,
/// and the id, as in `Segment/Cluster/Block: Binary = 0xa1`.
pub open spec fn spec_parse_easy_variant(text: Seq<u8>) -> Result<DeclModel, DeclError> {
    match tokens_from(text, 0) {
        None => Err(DeclError::Malformed),
        Some(tokens) => match index_of_token(tokens, TokenModel::Colon, 0) {
            None => Err(DeclError::Malformed),
            Some(colon) => match segments_from(tokens, 0, colon) {
                None => Err(DeclError::InvalidPath),
                Some(path) => match path.last() {
                    SegmentModel::Global(_) => Err(DeclError::NamelessTag),
                    SegmentModel::Name(name) => {
                        if tokens.len() != colon + 4 || tokens[colon as int + 2] != TokenModel::Equals {
                            Err(DeclError::Malformed)
                        } else {
                            match tokens[colon as int + 1] {
                                TokenModel::Name(kind_name) => match spelled(kind_name) {
                                    None => Err(DeclError::UnrecognizedDataType),
                                    Some(data_type) => match tokens[colon as int + 3] {
                                        TokenModel::Number(id) => Ok(
                                            DeclModel {
                                                name,
                                                id,
                                                data_type,
                                                path: path.drop_last(),
                                            },
                                        ),
                                        _ => Err(DeclError::InvalidId),
                                    },
                                },
                                _ => Err(DeclError::Malformed),
                            }
                        }
                    },
                },
            },
        },
    }
}

/// Whether `r` is the declaration or the fault that `expected` says.
pub open spec fn is_decl(r: Result<VariantDecl, DeclError>, expected: Result<DeclModel, DeclError>) -> bool {
    match expected {
        Ok(decl) => r matches Ok(found) && found@ == decl,
        Err(fault) => r == Err::<VariantDecl, DeclError>(fault),
    }
}

/// A path that is read has a step.
pub proof fn lemma_segments_nonempty(tokens: Seq<TokenModel>, at: nat, end: nat)
    ensures
        segments_from(tokens, at, end) matches Some(path) ==> path.len() > 0,
    decreases end - at,
{
    match segment_at(tokens.subrange(0, end as int), at) {
        Some((segment, next)) => {
            if next != end && at < next < end && tokens[next as int] == TokenModel::Slash {
                lemma_segments_nonempty(tokens, next + 1, end);
            }
        },
        None => {},
    }
}

/// Reads the declaration that one line of the short notation spells: see
/// [`spec_parse_easy_variant`].
pub fn parse_easy_variant(text: &[u8]) -> (r: Result<VariantDecl, DeclError>)
    ensures
        is_decl(r, spec_parse_easy_variant(text@)),
{
    let tokens: Vec<Token> = match tokenize(text) {
        None => {
            return Err(DeclError::Malformed);
        },
        Some(tokens) => tokens,
    };
    let ghost models = token_models(tokens@);
    let mut colon: usize = 0;
    let mut found: bool = false;
    while colon < tokens.len() && !found
        invariant
            colon <= tokens@.len(),
            models == token_models(tokens@),
            !found ==> index_of_token(models, TokenModel::Colon, 0) == index_of_token(
                models,
                TokenModel::Colon,
                colon as nat,
            ),
            found ==> index_of_token(models, TokenModel::Colon, 0) == Some(colon as nat) && colon
                < tokens@.len(),
        decreases tokens@.len() - colon + (if found { 0nat } else { 1nat }),
    {
        proof {
            assert(models[colon as int] == tokens@[colon as int]@);
        }
        match &tokens[colon] {
            Token::Colon => {
                found = true;
            },
            _ => {
                colon += 1;
            },
        }
    }
    if !found {
        return Err(DeclError::Malformed);
    }
    let done: Vec<PathSegment> = Vec::new();
    proof {
        match segments_from(models, 0, colon as nat) {
            Some(path) => {
                assert(segment_models(done@) + path =~= path);
            },
            None => {},
        }
        lemma_segments_nonempty(models, 0, colon as nat);
    }
    let mut path: Vec<PathSegment> = match segments_into(&tokens, 0, colon, done) {
        None => {
            return Err(DeclError::InvalidPath);
        },
        Some(path) => path,
    };
    let ghost whole = segment_models(path@);
    let name: Vec<u8> = match path.pop() {
        None => {
            return Err(DeclError::InvalidPath);
        },
        Some(PathSegment::Global(_)) => {
            return Err(DeclError::NamelessTag);
        },
        Some(PathSegment::Name(name)) => name,
    };
    proof {
        assert(segment_models(path@) =~= whole.drop_last());
    }
    if tokens.len() - colon != 4 {
        return Err(DeclError::Malformed);
    }
    proof {
        assert(models[colon + 1] == tokens@[colon + 1]@);
        assert(models[colon + 2] == tokens@[colon + 2]@);
        assert(models[colon + 3] == tokens@[colon + 3]@);
    }
    match &tokens[colon + 2] {
        Token::Equals => {},
        _ => {
            return Err(DeclError::Malformed);
        },
    }
    let data_type: TagDataType = match &tokens[colon + 1] {
        Token::Name(kind_name) => match data_type_of_name(kind_name) {
            None => {
                return Err(DeclError::UnrecognizedDataType);
            },
            Some(data_type) => data_type,
        },
        _ => {
            return Err(DeclError::Malformed);
        },
    };
    match &tokens[colon + 3] {
        Token::Number(id) => Ok(VariantDecl { name, id: *id, data_type, path }),
        _ => Err(DeclError::InvalidId),
    }
}

/// What the attributes of a declaration have said so far: its id, its data
/// type and its path, each once at most.
pub struct AttrsModel {
    pub id: Option<u64>,
    pub data_type: Option<TagDataType>,
    pub path: Option<Seq<SegmentModel>>,
}

/// The name of the attribute that gives the id.
pub open spec fn id_key() -> Seq<u8> {
    seq![0x69u8, 0x64u8]
}

/// The name of the attribute that gives the data type.
pub open spec fn data_type_key() -> Seq<u8> {
    seq![0x64u8, 0x61u8, 0x74u8, 0x61u8, 0x5fu8, 0x74u8, 0x79u8, 0x70u8, 0x65u8]
}

/// The name of the attribute that gives the path.
pub open spec fn doc_path_key() -> Seq<u8> {
    seq![0x64u8, 0x6fu8, 0x63u8, 0x5fu8, 0x70u8, 0x61u8, 0x74u8, 0x68u8]
}

/// The name of the attribute that gives the parent alone.
pub open spec fn parent_key() -> Seq<u8> {
    seq![0x70u8, 0x61u8, 0x72u8, 0x65u8, 0x6eu8, 0x74u8]
}

/// What the attributes say after one more attribute, with the name `key` and
/// the text `value`, was read.
///
/// The attribute `id` gives the id as a number, `data_type` gives the data
/// type by its name, `doc_path` gives the path, and `parent` gives a path of
/// one name. Each may be given once; the path may be given in one of its two
/// ways. Other attributes are passed over.
pub open spec fn with_attr(so_far: AttrsModel, key: Seq<u8>, value: Seq<u8>) -> Result<
    AttrsModel,
    DeclError,
> {
    if key == id_key() {
        if so_far.id is Some {
            Err(DeclError::DuplicateId)
        } else {
            match spec_parse_id(value) {
                None => Err(DeclError::InvalidId),
                Some(id) => Ok(AttrsModel { id: Some(id), ..so_far }),
            }
        }
    } else if key == data_type_key() {
        if so_far.data_type is Some {
            Err(DeclError::DuplicateDataType)
        } else {
            match spec_parse_data_type(value) {
                None => Err(DeclError::UnrecognizedDataType),
                Some(data_type) => Ok(AttrsModel { data_type: Some(data_type), ..so_far }),
            }
        }
    } else if key == doc_path_key() || key == parent_key() {
        if so_far.path is Some {
            Err(DeclError::DuplicatePath)
        } else {
            match spec_parse_doc_path(value) {
                None => Err(DeclError::InvalidPath),
                Some(path) => if key == parent_key() && !(path.len() == 1 && path[0] is Name) {
                    Err(DeclError::InvalidPath)
                } else {
                    Ok(AttrsModel { path: Some(path), ..so_far })
                },
            }
        }
    } else {
        Ok(so_far)
    }
}

/// What the attributes from the `at`-th on say, after `so_far`.
pub open spec fn with_attrs(so_far: AttrsModel, attrs: Seq<(Seq<u8>, Seq<u8>)>, at: nat) -> Result<
    AttrsModel,
    DeclError,
>
    decreases attrs.len() - at,
{
    if at >= attrs.len() {
        Ok(so_far)
    } else {
        match with_attr(so_far, attrs[at as int].0, attrs[at as int].1) {
            Err(fault) => Err(fault),
            Ok(next) => with_attrs(next, attrs, at + 1),
        }
    }
}

/// The declaration of the tag `name` that the attributes `attrs` spell, each
/// given by its name and its text. The id and the data type must be given;
/// a tag without a path is a root.
pub open spec fn spec_parse_variant(name: Seq<u8>, attrs: Seq<(Seq<u8>, Seq<u8>)>) -> Result<
    DeclModel,
    DeclError,
> {
    match with_attrs(AttrsModel { id: None, data_type: None, path: None }, attrs, 0) {
        Err(fault) => Err(fault),
        Ok(said) => match said.id {
            None => Err(DeclError::MissingId),
            Some(id) => match said.data_type {
                None => Err(DeclError::MissingDataType),
                Some(data_type) => Ok(
                    DeclModel {
                        name,
                        id,
                        data_type,
                        path: match said.path {
                            Some(path) => path,
                            None => Seq::empty(),
                        },
                    },
                ),
            },
        },
    }
}

/// What the attributes are, with their names and texts as sequences.
pub open spec fn attr_models(attrs: Seq<(Vec<u8>, Vec<u8>)>) -> Seq<(Seq<u8>, Seq<u8>)> {
    Seq::new(attrs.len(), |i: int| (attrs[i].0@, attrs[i].1@))
}

/// Whether `key` is the name that is spelled by `wanted`.
fn is_key(key: &Vec<u8>, wanted: Vec<u8>) -> (r: bool)
    ensures
        r == (key@ == wanted@),
{
    crate::schema::same_bytes(key, &wanted)
}

/// Reads the declaration of the tag `name` from its attributes: see
/// [`spec_parse_variant`].
pub fn parse_variant(name: &[u8], attrs: &Vec<(Vec<u8>, Vec<u8>)>) -> (r: Result<
    VariantDecl,
    DeclError,
>)
    ensures
        is_decl(r, spec_parse_variant(name@, attr_models(attrs@))),
{
    let ghost all = attr_models(attrs@);
    let ghost start = AttrsModel { id: None, data_type: None, path: None };
    let mut id: Option<u64> = None;
    let mut data_type: Option<TagDataType> = None;
    let mut path: Option<Vec<PathSegment>> = None;
    let mut i: usize = 0;
    while i < attrs.len()
        invariant
            i <= attrs@.len(),
            all == attr_models(attrs@),
            start == (AttrsModel { id: None, data_type: None, path: None }),
            with_attrs(start, all, 0) == with_attrs(
                AttrsModel {
                    id,
                    data_type,
                    path: match path {
                        Some(p) => Some(segment_models(p@)),
                        None => None,
                    },
                },
                all,
                i as nat,
            ),
        decreases attrs@.len() - i,
    {
        let key: &Vec<u8> = &attrs[i].0;
        let value: &Vec<u8> = &attrs[i].1;
        proof {
            assert(all[i as int] == (attrs@[i as int].0@, attrs@[i as int].1@));
        }
        let id_name: Vec<u8> = vec![0x69u8, 0x64u8];
        let data_kind_name: Vec<u8> = vec![
            0x64u8,
            0x61u8,
            0x74u8,
            0x61u8,
            0x5fu8,
            0x74u8,
            0x79u8,
            0x70u8,
            0x65u8,
        ];
        let doc_path_name: Vec<u8> = vec![0x64u8, 0x6fu8, 0x63u8, 0x5fu8, 0x70u8, 0x61u8, 0x74u8, 0x68u8];
        let parent_name: Vec<u8> = vec![0x70u8, 0x61u8, 0x72u8, 0x65u8, 0x6eu8, 0x74u8];
        proof {
            assert(id_name@ =~= id_key());
            assert(data_kind_name@ =~= data_type_key());
            assert(doc_path_name@ =~= doc_path_key());
            assert(parent_name@ =~= parent_key());
        }
        if is_key(key, id_name) {
            if id.is_some() {
                return Err(DeclError::DuplicateId);
            }
            match parse_id(value.as_slice()) {
                None => {
                    return Err(DeclError::InvalidId);
                },
                Some(found) => {
                    id = Some(found);
                },
            }
        } else if is_key(key, data_kind_name) {
            if data_type.is_some() {
                return Err(DeclError::DuplicateDataType);
            }
            match parse_data_type(value.as_slice()) {
                None => {
                    return Err(DeclError::UnrecognizedDataType);
                },
                Some(found) => {
                    data_type = Some(found);
                },
            }
        } else {
            let is_parent: bool = is_key(key, parent_name);
            if is_key(key, doc_path_name) || is_parent {
                if path.is_some() {
                    return Err(DeclError::DuplicatePath);
                }
                match parse_doc_path(value.as_slice()) {
                    None => {
                        return Err(DeclError::InvalidPath);
                    },
                    Some(found) => {
                        if is_parent {
                            if found.len() != 1 {
                                return Err(DeclError::InvalidPath);
                            }
                            proof {
                                assert(segment_models(found@)[0] == found@[0]@);
                            }
                            match &found[0] {
                                PathSegment::Name(_) => {},
                                PathSegment::Global(_) => {
                                    return Err(DeclError::InvalidPath);
                                },
                            }
                        }
                        path = Some(found);
                    },
                }
            }
        }
        i += 1;
    }
    match id {
        None => Err(DeclError::MissingId),
        Some(id) => match data_type {
            None => Err(DeclError::MissingDataType),
            Some(data_type) => {
                let path: Vec<PathSegment> = match path {
                    Some(path) => path,
                    None => Vec::new(),
                };
                proof {
                    assert(segment_models(Seq::<PathSegment>::empty()) =~= Seq::empty());
                }
                Ok(VariantDecl { name: slice_to_vec(name), id, data_type, path })
            },
        },
    }
}

} // verus!
