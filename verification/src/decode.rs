//! From scores to text: token labels, hotword lists and the greedy decoder.
//!
//! A label is the text of a token. Special tokens such as `<pad>` have one
//! character of the private use area instead, and the blank token has none.
//! `\u{2581}` marks where a word begins.

use vstd::prelude::*;

use crate::json::{as_array, as_str, as_u64, get, json_document, json_value, member, parse, Json};
use crate::score::{above, greater, nan, NEG_INFINITY};
use crate::text::{
    chars_of, first_word, joined, lines, newline_at, newline_is_first, newline_is_found, slices,
    split_lines, string_of, take_first_word, texts, trailing_whitespace_is_trimmed, trim,
    trim_start, trimmed, trimmed_start, trimming_is_done_once, without_return,
};

verus! {

/// The mark of a token that begins a word.
pub const BPE: char = '\u{2581}';

/// The first character that stands for a special token.
pub const SPECIAL: u32 = 0xE000;

/// The last token number that a special token's character can be made of.
pub const LAST_SPECIAL: usize = 0x10_1FFF;

// ---------------------------------------------------------------------------
// Hotwords
// ---------------------------------------------------------------------------

/// A line that holds a hotword: not empty and no comment.
pub open spec fn is_hotword(line: Seq<char>) -> bool {
    line.len() > 0 && line[0] != '#'
}

/// The trimmed lines of `text` that are neither empty nor comments.
pub open spec fn hotwords_in(text: Seq<char>) -> Seq<Seq<char>> {
    lines(text).map_values(|line: Seq<char>| trimmed(line)).filter(|line: Seq<char>| is_hotword(line))
}

/// The hotwords of `text`: one per line, without the whitespace around it.
/// Empty lines and lines that begin with `#` hold none.
pub fn parse_hotwords(text: &str) -> (words: Vec<String>)
    ensures
        texts(words@) == hotwords_in(text@),
{
    let chars = chars_of(text);
    let all = split_lines(&chars);
    let mut words: Vec<String> = Vec::new();
    let ghost rows = lines(text@).map_values(|line: Seq<char>| trimmed(line));
    let ghost pick = |line: Seq<char>| is_hotword(line);
    let mut i: usize = 0;
    assert(rows.take(0).filter(pick) == Seq::<Seq<char>>::empty()) by {
        reveal(Seq::filter);
    }
    while i < all.len()
        invariant
            i <= all.len(),
            slices(all@) == lines(text@),
            rows == lines(text@).map_values(|line: Seq<char>| trimmed(line)),
            pick == (|line: Seq<char>| is_hotword(line)),
            texts(words@) == rows.take(i as int).filter(pick),
        decreases all.len() - i,
    {
        let line = trim(all[i]);
        assert(line@ == rows[i as int]) by {
            assert(slices(all@)[i as int] == all@[i as int]@);
        }
        proof {
            assert(rows.take(i + 1).drop_last() == rows.take(i as int));
            assert(rows.take(i + 1).last() == line@);
            reveal(Seq::filter);
        }
        if line.len() > 0 && line[0] != '#' {
            let ghost before = texts(words@);
            words.push(string_of(line));
            assert(texts(words@) == before.push(line@));
        }
        i += 1;
    }
    assert(rows.take(rows.len() as int) == rows);
    words
}

// ---------------------------------------------------------------------------
// Labels
// ---------------------------------------------------------------------------

/// The labels of all tokens, and which of them are those of special tokens.
#[derive(Debug)]
pub struct Labels {
    pub names: Vec<String>,
    pub special: Vec<bool>,
}

impl Labels {
    /// The labels of tokens none of which is special.
    pub fn plain(names: Vec<String>) -> (labels: Self)
        ensures
            labels.names == names,
            labels.special@ == Seq::new(names@.len(), |i: int| false),
    {
        let mut special: Vec<bool> = Vec::new();
        while special.len() < names.len()
            invariant
                special@.len() <= names@.len(),
                forall|i: int| 0 <= i < special@.len() ==> !#[trigger] special@[i],
            decreases names.len() - special.len(),
        {
            special.push(false);
        }
        Labels { names, special }
    }
}

/// Token `i` is marked as special.
pub open spec fn marked(special: Seq<bool>, i: int) -> bool {
    0 <= i < special.len() && special[i]
}

/// Why a token file cannot be used.
#[derive(Debug)]
pub enum LabelError {
    /// It begins like a JSON document and is none.
    Json(serde_json::Error),
    /// The JSON document has no array `tokens`.
    NoTokenArray,
    /// The array `tokens` holds something that is no string.
    NonStringToken,
    /// There are no tokens.
    Empty,
    /// The declared blank token has this number, and there are not so many.
    BlankOutOfRange(u64),
    /// The special token of this number has no character to stand for it.
    NoCharacter(usize),
}

/// What a token file holds.
pub enum TokenFile {
    /// The tokens, and the number of the blank one where it is declared.
    Tokens(Seq<Seq<char>>, Option<u64>),
    NotJson,
    NoTokenArray,
    NonStringToken,
}

/// The text is meant as a JSON document.
pub open spec fn is_manifest(text: Seq<char>) -> bool {
    trimmed_start(text).len() > 0 && trimmed_start(text)[0] == '{'
}

/// The string of a JSON value.
pub open spec fn json_text(value: Json) -> Seq<char> {
    match value {
        Json::Text(text) => text,
        _ => Seq::empty(),
    }
}

/// The tokens of a JSON document: its member `tokens`, and `blank_id` where
/// that is a number.
pub open spec fn manifest(document: Json) -> TokenFile {
    match member(document, "tokens"@) {
        Some(Json::List(items)) => if forall|i: int|
            0 <= i < items.len() ==> (#[trigger] items[i]) is Text {
            TokenFile::Tokens(
                items.map_values(|item: Json| json_text(item)),
                match member(document, "blank_id"@) {
                    Some(Json::Number(n)) => n,
                    _ => None,
                },
            )
        } else {
            TokenFile::NonStringToken
        },
        _ => TokenFile::NoTokenArray,
    }
}

/// The tokens of a token file: a JSON document, or one token per line in front
/// of whatever follows it.
pub open spec fn tokens_in(text: Seq<char>) -> TokenFile {
    if is_manifest(text) {
        match json_document(text) {
            Some(document) => manifest(document),
            None => TokenFile::NotJson,
        }
    } else {
        TokenFile::Tokens(lines(text).map_values(|line: Seq<char>| first_word(line)), None)
    }
}

/// `r` is what `file` holds.
pub open spec fn reads(file: TokenFile, r: Result<(Vec<String>, Option<u64>), LabelError>) -> bool {
    match file {
        TokenFile::Tokens(tokens, blank) => r matches Ok((list, declared)) && texts(list@) == tokens
            && declared == blank,
        TokenFile::NotJson => r matches Err(LabelError::Json(_)),
        TokenFile::NoTokenArray => r matches Err(LabelError::NoTokenArray),
        TokenFile::NonStringToken => r matches Err(LabelError::NonStringToken),
    }
}

/// The tokens of a parsed JSON document.
pub fn manifest_tokens(value: &serde_json::Value) -> (r: Result<(Vec<String>, Option<u64>), LabelError>)
    ensures
        reads(manifest(json_value(*value)), r),
        match manifest(json_value(*value)) {
            TokenFile::Tokens(tokens, blank) => {
                &&& r matches Ok((list, declared))
                &&& list@.len() == tokens.len()
                &&& forall|i: int| 0 <= i < tokens.len() ==> (#[trigger] list@[i])@ == tokens[i]
                &&& declared == blank
            },
            TokenFile::NotJson => r matches Err(LabelError::Json(_)),
            TokenFile::NoTokenArray => r matches Err(LabelError::NoTokenArray),
            TokenFile::NonStringToken => r matches Err(LabelError::NonStringToken),
        },
{
    let ghost document = json_value(*value);
    let items = match get(value, "tokens") {
        Some(found) => match as_array(found) {
            Some(items) => items,
            None => return Err(LabelError::NoTokenArray),
        },
        None => return Err(LabelError::NoTokenArray),
    };
    let ghost list = Seq::new(items@.len(), |i: int| json_value(items@[i]));
    let mut tokens: Vec<String> = Vec::new();
    let mut i: usize = 0;
    while i < items.len()
        invariant
            i <= items.len(),
            document == json_value(*value),
            list == Seq::new(items@.len(), |i: int| json_value(items@[i])),
            member(document, "tokens"@) == Some(Json::List(list)),
            forall|j: int| 0 <= j < i ==> (#[trigger] list[j]) is Text,
            texts(tokens@) == list.take(i as int).map_values(|item: Json| json_text(item)),
        decreases items.len() - i,
    {
        match as_str(&items[i]) {
            Some(token) => {
                let ghost before = texts(tokens@);
                assert(list[i as int] == Json::Text(token@));
                tokens.push(token.to_owned());
                assert(texts(tokens@) == before.push(token@));
                assert(list.take(i + 1) == list.take(i as int).push(list[i as int]));
                assert(texts(tokens@) == list.take(i + 1).map_values(|item: Json| json_text(item)));
            },
            None => {
                assert(!(list[i as int] is Text));
                return Err(LabelError::NonStringToken);
            },
        }
        i += 1;
    }
    assert(list.take(list.len() as int) == list);
    assert(texts(tokens@).len() == tokens@.len());
    assert forall|i: int| 0 <= i < tokens@.len() implies (#[trigger] tokens@[i])@ == texts(
        tokens@,
    )[i] by {}
    let blank: Option<u64> = match get(value, "blank_id") {
        Some(found) => as_u64(found),
        None => None,
    };
    Ok((tokens, blank))
}

/// The tokens of a token file that is no JSON document.
fn listed_tokens(chars: &Vec<char>) -> (tokens: Vec<String>)
    ensures
        texts(tokens@) == lines(chars@).map_values(|line: Seq<char>| first_word(line)),
{
    let all = split_lines(chars);
    let mut tokens: Vec<String> = Vec::new();
    let mut i: usize = 0;
    while i < all.len()
        invariant
            i <= all.len(),
            slices(all@) == lines(chars@),
            texts(tokens@) == lines(chars@).take(i as int).map_values(
                |line: Seq<char>| first_word(line),
            ),
        decreases all.len() - i,
    {
        let ghost before = texts(tokens@);
        let word = take_first_word(all[i]);
        assert(slices(all@)[i as int] == all@[i as int]@);
        tokens.push(string_of(word));
        assert(texts(tokens@) == before.push(word@));
        assert(lines(chars@).take(i + 1) == lines(chars@).take(i as int).push(lines(chars@)[i as int]));
        assert(texts(tokens@) == lines(chars@).take(i + 1).map_values(
            |line: Seq<char>| first_word(line),
        ));
        i += 1;
    }
    assert(lines(chars@).take(lines(chars@).len() as int) == lines(chars@));
    tokens
}

/// The tokens of a token file.
pub fn read_tokens(text: &str) -> (r: Result<(Vec<String>, Option<u64>), LabelError>)
    ensures
        reads(tokens_in(text@), r),
        match tokens_in(text@) {
            TokenFile::Tokens(tokens, blank) => {
                &&& r matches Ok((list, declared))
                &&& list@.len() == tokens.len()
                &&& forall|i: int| 0 <= i < tokens.len() ==> (#[trigger] list@[i])@ == tokens[i]
                &&& declared == blank
            },
            TokenFile::NotJson => r matches Err(LabelError::Json(_)),
            TokenFile::NoTokenArray => r matches Err(LabelError::NoTokenArray),
            TokenFile::NonStringToken => r matches Err(LabelError::NonStringToken),
        },
{
    let chars = chars_of(text);
    let start = trim_start(&chars);
    if start.len() > 0 && start[0] == '{' {
        match parse(text) {
            Ok(value) => manifest_tokens(&value),
            Err(error) => Err(LabelError::Json(error)),
        }
    } else {
        let tokens = listed_tokens(&chars);
        assert(texts(tokens@).len() == tokens@.len());
        assert forall|i: int| 0 <= i < tokens@.len() implies (#[trigger] tokens@[i])@ == texts(
            tokens@,
        )[i] by {}
        Ok((tokens, None))
    }
}

/// A special token is enclosed in angle brackets.
pub open spec fn is_special(token: Seq<char>) -> bool {
    token.len() > 0 && token[0] == '<' && token.last() == '>'
}

/// The number of the blank token: the declared one, or else the last.
pub open spec fn blank_of(count: nat, declared: Option<u64>) -> int {
    match declared {
        Some(blank) => blank as int,
        None => count - 1,
    }
}

/// There is a character for the special token number `i`.
pub open spec fn has_character(tokens: Seq<Seq<char>>, blank: int, i: int) -> bool {
    i != blank && is_special(tokens[i]) ==> i <= LAST_SPECIAL
}

/// The blank token is there, and every special token has its character, or
/// the blank token is not there.
pub open spec fn labelable(tokens: Seq<Seq<char>>, declared: Option<u64>) -> bool {
    let blank = blank_of(tokens.len(), declared);
    blank < tokens.len() ==> forall|i: int|
        0 <= i < tokens.len() ==> #[trigger] has_character(tokens, blank, i)
}

/// The labels of `tokens`: none for the blank token, a character of the
/// private use area for each special token, and its text for each other.
pub open spec fn labels_of(tokens: Seq<Seq<char>>, blank: int) -> Seq<Seq<char>> {
    Seq::new(
        tokens.len(),
        |i: int|
            if i == blank {
                Seq::empty()
            } else if is_special(tokens[i]) {
                seq![(SPECIAL + i) as char]
            } else {
                tokens[i]
            },
    )
}

/// Which of `tokens` are special and not the blank one.
pub open spec fn specials_of(tokens: Seq<Seq<char>>, blank: int) -> Seq<bool> {
    Seq::new(tokens.len(), |i: int| i != blank && is_special(tokens[i]))
}

/// `r` is what the labels of `tokens` are, where each special token has its
/// character.
pub open spec fn labels_or_error(
    tokens: Seq<Seq<char>>,
    declared: Option<u64>,
    r: Result<(Labels, usize), LabelError>,
) -> bool {
    let blank = blank_of(tokens.len(), declared);
    if tokens.len() == 0 {
        r matches Err(LabelError::Empty)
    } else if blank >= tokens.len() {
        r matches Err(LabelError::BlankOutOfRange(b)) && b == blank
    } else {
        &&& r matches Ok((labels, b))
        &&& b == blank
        &&& texts(labels.names@) == labels_of(tokens, blank)
        &&& labels.special@ == specials_of(tokens, blank)
    }
}

/// Whether a token is special.
fn special(token: &str) -> (b: bool)
    ensures
        b == is_special(token@),
{
    let chars = chars_of(token);
    chars.len() > 0 && chars[0] == '<' && chars[chars.len() - 1] == '>'
}

/// The labels of a list of tokens, and the number of the blank one. It is the
/// declared one, or else the last.
pub fn labels_from_tokens(tokens: &Vec<String>, declared: Option<u64>) -> (r: Result<
    (Labels, usize),
    LabelError,
>)
    requires
        labelable(texts(tokens@), declared),
    ensures
        labels_or_error(texts(tokens@), declared, r),
        tokens@.len() == 0 ==> r matches Err(LabelError::Empty),
        tokens@.len() > 0 ==> match declared {
            Some(blank) => if blank >= tokens@.len() {
                r matches Err(LabelError::BlankOutOfRange(b)) && b == blank
            } else {
                &&& r matches Ok((labels, b))
                &&& b == blank
                &&& texts(labels.names@) == labels_of(texts(tokens@), blank as int)
                &&& labels.special@ == specials_of(texts(tokens@), blank as int)
            },
            None => {
                &&& r matches Ok((labels, b))
                &&& b == tokens@.len() - 1
                &&& texts(labels.names@) == labels_of(texts(tokens@), tokens@.len() - 1)
                &&& labels.special@ == specials_of(texts(tokens@), tokens@.len() - 1)
            },
        },
{
    if tokens.len() == 0 {
        return Err(LabelError::Empty);
    }
    let blank: u64 = match declared {
        Some(blank) => blank,
        None => (tokens.len() - 1) as u64,
    };
    if blank >= tokens.len() as u64 {
        return Err(LabelError::BlankOutOfRange(blank));
    }
    let blank_id: usize = blank as usize;
    let mut labels: Vec<String> = Vec::new();
    let mut marks: Vec<bool> = Vec::new();
    let mut i: usize = 0;
    while i < tokens.len()
        invariant
            i <= tokens.len(),
            marks@ == specials_of(texts(tokens@), blank_id as int).take(i as int),
            blank_id == blank_of(tokens@.len(), declared),
            forall|i: int|
                0 <= i < tokens@.len() ==> #[trigger] has_character(
                    texts(tokens@),
                    blank_of(tokens@.len(), declared),
                    i,
                ),
            texts(labels@) == labels_of(texts(tokens@), blank_id as int).take(i as int),
        decreases tokens.len() - i,
    {
        let ghost before = texts(labels@);
        assert(has_character(texts(tokens@), blank_id as int, i as int));
        let mut label = String::new();
        let mut mark: bool = false;
        if i != blank_id {
            if special(tokens[i].as_str()) {
                mark = true;
                if let Some(c) = char::from_u32(SPECIAL + i as u32) {
                    label.push(c);
                }
                assert(label@ == seq![(SPECIAL + i) as char]);
            } else {
                label = tokens[i].clone();
            }
        }
        labels.push(label);
        marks.push(mark);
        assert(marks@ == specials_of(texts(tokens@), blank_id as int).take(i + 1));
        assert(texts(labels@) == before.push(label@));
        assert(label@ == labels_of(texts(tokens@), blank_id as int)[i as int]);
        assert(texts(labels@) == labels_of(texts(tokens@), blank_id as int).take(i + 1));
        i += 1;
    }
    assert(texts(labels@) == labels_of(texts(tokens@), blank_id as int));
    assert(marks@ == specials_of(texts(tokens@), blank_id as int));
    Ok((Labels { names: labels, special: marks }, blank_id))
}

/// The labels and the number of the blank token that the text of a token file
/// gives. Where a special token has no character to stand for it, that is the
/// error.
pub fn load_labels(text: &str) -> (r: Result<(Labels, usize), LabelError>)
    ensures
        match tokens_in(text@) {
            TokenFile::NotJson => r matches Err(LabelError::Json(_)),
            TokenFile::NoTokenArray => r matches Err(LabelError::NoTokenArray),
            TokenFile::NonStringToken => r matches Err(LabelError::NonStringToken),
            TokenFile::Tokens(tokens, declared) => {
                let blank = blank_of(tokens.len(), declared);
                if labelable(tokens, declared) {
                    labels_or_error(tokens, declared, r)
                } else {
                    r matches Err(LabelError::NoCharacter(i)) && 0 <= i < tokens.len()
                        && !has_character(tokens, blank, i as int)
                }
            },
        },
        r matches Err(LabelError::NoCharacter(i)) ==> i > 0x10_1FFF,
        tokens_in(text@) matches TokenFile::Tokens(tokens, declared) ==> {
            &&& tokens.len() == 0 ==> (r matches Err(LabelError::Empty))
            &&& 0 < tokens.len() <= 0x10_2000 ==> match declared {
                Some(blank) => if blank >= tokens.len() {
                    r matches Err(LabelError::BlankOutOfRange(b)) && b == blank
                } else {
                    &&& r matches Ok((labels, b))
                    &&& b == blank
                    &&& texts(labels.names@) == labels_of(tokens, blank as int)
                    &&& labels.special@ == specials_of(tokens, blank as int)
                },
                None => {
                    &&& r matches Ok((labels, b))
                    &&& b == tokens.len() - 1
                    &&& texts(labels.names@) == labels_of(tokens, tokens.len() - 1)
                    &&& labels.special@ == specials_of(tokens, tokens.len() - 1)
                },
            }
        },
{
    let (tokens, declared) = match read_tokens(text) {
        Ok(found) => found,
        Err(error) => return Err(error),
    };
    let ghost blank = blank_of(tokens@.len(), declared);
    let blank_id: u64 = match declared {
        Some(b) => b,
        None => if tokens.len() > 0 {
            (tokens.len() - 1) as u64
        } else {
            0
        },
    };
    let mut i: usize = 0;
    while i < tokens.len() && blank_id < tokens.len() as u64
        invariant
            i <= tokens.len(),
            tokens@.len() > 0 ==> blank_id == blank,
            reads(tokens_in(text@), Ok((tokens, declared))),
            blank == blank_of(tokens@.len(), declared),
            forall|j: int| 0 <= j < i ==> #[trigger] has_character(texts(tokens@), blank, j),
        decreases tokens.len() - i,
    {
        if i > LAST_SPECIAL && i as u64 != blank_id && special(tokens[i].as_str()) {
            assert(!has_character(texts(tokens@), blank, i as int));
            return Err(LabelError::NoCharacter(i));
        }
        i += 1;
    }
    labels_from_tokens(&tokens, declared)
}

// ---------------------------------------------------------------------------
// Greedy decoding
// ---------------------------------------------------------------------------

/// Which of the first `n` scores is the best, and what it is. The first of the
/// greatest counts; with none above negative infinity it is the first class.
pub open spec fn best_of(row: Seq<u32>, n: int) -> (int, u32)
    decreases n,
{
    if n <= 0 {
        (0, NEG_INFINITY)
    } else {
        let (class, score) = best_of(row, n - 1);
        if above(row[n - 1], score) {
            (n - 1, row[n - 1])
        } else {
            (class, score)
        }
    }
}

/// The class with the best score.
pub open spec fn best_class(row: Seq<u32>) -> int {
    best_of(row, row.len() as int).0
}

/// The best class of every frame.
pub open spec fn best_path(rows: Seq<Vec<u32>>) -> Seq<int> {
    Seq::new(rows.len(), |t: int| best_class(rows[t]@))
}

/// The classes that a path of classes spells, and the class that a next frame
/// would repeat. A blank is not spelled and ends a repetition; a class that
/// repeats the one before is not spelled again; a class without text is
/// passed over.
pub open spec fn spelled(path: Seq<int>, labels: Seq<Seq<char>>, blank: int) -> (Seq<int>, Option<int>)
    decreases path.len(),
{
    if path.len() == 0 {
        (Seq::empty(), None)
    } else {
        let (before, previous) = spelled(path.drop_last(), labels, blank);
        let class = path.last();
        if class == blank {
            (before, None)
        } else if previous == Some(class) || labels[class].len() == 0 {
            (before, previous)
        } else {
            (before.push(class), Some(class))
        }
    }
}

/// `s` without the word marks at its start.
pub open spec fn unmarked_start(s: Seq<char>) -> Seq<char>
    decreases s.len(),
{
    if s.len() > 0 && s[0] == BPE {
        unmarked_start(s.drop_first())
    } else {
        s
    }
}

/// `s` without the word marks at its end.
pub open spec fn unmarked_end(s: Seq<char>) -> Seq<char>
    decreases s.len(),
{
    if s.len() > 0 && s.last() == BPE {
        unmarked_end(s.drop_last())
    } else {
        s
    }
}

/// `s` without the word marks at both ends.
pub open spec fn unmarked(s: Seq<char>) -> Seq<char> {
    unmarked_end(unmarked_start(s))
}

/// The label begins a word.
pub open spec fn begins_word(label: Seq<char>) -> bool {
    label.len() > 0 && label[0] == BPE
}

/// `out` followed by a label: without its word marks, and behind a space where
/// it begins a word that is not the first.
pub open spec fn extended(out: Seq<char>, label: Seq<char>) -> Seq<char> {
    if begins_word(label) && out.len() > 0 {
        out.push(' ') + unmarked(label)
    } else {
        out + unmarked(label)
    }
}

/// The text that classes spell.
pub open spec fn rendered(classes: Seq<int>, labels: Seq<Seq<char>>) -> Seq<char>
    decreases classes.len(),
{
    if classes.len() == 0 {
        Seq::empty()
    } else {
        extended(rendered(classes.drop_last(), labels), labels[classes.last()])
    }
}

/// The character is one of those that are set aside for special tokens.
pub open spec fn reserved(c: char) -> bool {
    '\u{E000}' <= c <= '\u{E0FF}'
}

/// The characters of a text that are shown.
pub open spec fn shown(text: Seq<char>) -> Seq<char> {
    text.filter(|c: char| !reserved(c))
}

/// The labels with those of special tokens replaced by a reserved character, so
/// that none of them shows, whatever its number.
pub open spec fn masked(names: Seq<Seq<char>>, special: Seq<bool>) -> Seq<Seq<char>> {
    Seq::new(
        names.len(),
        |i: int|
            if marked(special, i) {
                seq!['\u{E000}']
            } else {
                names[i]
            },
    )
}

/// The text that a path of classes spells: without the special tokens, and
/// without reserved characters.
pub open spec fn spelled_text(
    path: Seq<int>,
    names: Seq<Seq<char>>,
    special: Seq<bool>,
    blank: int,
) -> Seq<char> {
    let labels = masked(names, special);
    shown(rendered(spelled(path, labels, blank).0, labels))
}

/// The character is the label of special token `i`.
pub open spec fn stands_for(c: char, names: Seq<Seq<char>>, special: Seq<bool>, i: int) -> bool {
    &&& 0 <= i < names.len()
    &&& marked(special, i)
    &&& names[i] == seq![c]
}

/// The character of a decoded text is not shown: it stands for a special token,
/// or is reserved for such tokens.
pub open spec fn hidden(c: char, names: Seq<Seq<char>>, special: Seq<bool>) -> bool {
    ||| reserved(c)
    ||| exists|i: int| stands_for(c, names, special, i)
}

/// The characters of a decoded text that are shown.
pub open spec fn visible(text: Seq<char>, names: Seq<Seq<char>>, special: Seq<bool>) -> Seq<char> {
    text.filter(|c: char| !hidden(c, names, special))
}

/// The class with the best score.
pub fn find_best(row: &Vec<u32>) -> (class: usize)
    ensures
        class == best_class(row@),
        row@.len() > 0 ==> class < row@.len(),
        row@.len() == 0 ==> class == 0,
{
    let mut best: usize = 0;
    let mut score: u32 = NEG_INFINITY;
    let mut v: usize = 0;
    while v < row.len()
        invariant
            v <= row.len(),
            (best as int, score) == best_of(row@, v as int),
            best == 0 || best < v,
        decreases row.len() - v,
    {
        if greater(row[v], score) {
            best = v;
            score = row[v];
        }
        v += 1;
    }
    best
}

/// Whether a character of a decoded text is not shown.
fn is_hidden(c: char, labels: &Labels) -> (b: bool)
    ensures
        b == hidden(c, texts(labels.names@), labels.special@),
{
    let ghost names = texts(labels.names@);
    let ghost special = labels.special@;
    if '\u{E000}' <= c && c <= '\u{E0FF}' {
        return true;
    }
    let mut i: usize = 0;
    while i < labels.names.len() && i < labels.special.len()
        invariant
            i <= labels.names@.len(),
            names == texts(labels.names@),
            special == labels.special@,
            forall|k: int| 0 <= k < i ==> !#[trigger] stands_for(c, names, special, k),
        decreases labels.names.len() - i,
    {
        if labels.special[i] {
            let label = chars_of(labels.names[i].as_str());
            assert(names[i as int] == label@);
            if label.len() == 1 && label[0] == c {
                assert(label@ == seq![c]);
                assert(stands_for(c, names, special, i as int));
                return true;
            }
            assert(label@ == seq![c] ==> label@[0] == c);
        }
        assert(!stands_for(c, names, special, i as int));
        i += 1;
    }
    false
}

/// A decoded text without the characters that stand for special tokens.
pub fn strip_special(text: &str, labels: &Labels) -> (out: String)
    ensures
        out@ == visible(text@, texts(labels.names@), labels.special@),
{
    let chars = chars_of(text);
    let ghost names = texts(labels.names@);
    let ghost special = labels.special@;
    let ghost keep = |c: char| !hidden(c, names, special);
    let mut out = String::new();
    let mut i: usize = 0;
    assert(text@.take(0).filter(keep) == Seq::<char>::empty()) by {
        reveal(Seq::filter);
    }
    while i < chars.len()
        invariant
            i <= chars.len(),
            chars@ == text@,
            names == texts(labels.names@),
            special == labels.special@,
            keep == (|c: char| !hidden(c, names, special)),
            out@ == text@.take(i as int).filter(keep),
        decreases chars.len() - i,
    {
        proof {
            assert(text@.take(i + 1).drop_last() == text@.take(i as int));
            assert(text@.take(i + 1).last() == text@[i as int]);
            reveal(Seq::filter);
        }
        let c: char = chars[i];
        if !is_hidden(c, labels) {
            out.push(c);
        }
        i += 1;
    }
    assert(text@.take(text@.len() as int) == text@);
    out
}

/// The characters of `text` that are not reserved.
fn shown_chars(text: &Vec<char>) -> (out: String)
    ensures
        out@ == shown(text@),
{
    let ghost keep = |c: char| !reserved(c);
    let mut out = String::new();
    let mut i: usize = 0;
    assert(text@.take(0).filter(keep) == Seq::<char>::empty()) by {
        reveal(Seq::filter);
    }
    while i < text.len()
        invariant
            i <= text.len(),
            keep == (|c: char| !reserved(c)),
            out@ == text@.take(i as int).filter(keep),
        decreases text.len() - i,
    {
        proof {
            assert(text@.take(i + 1).drop_last() == text@.take(i as int));
            assert(text@.take(i + 1).last() == text@[i as int]);
            reveal(Seq::filter);
        }
        let c: char = text[i];
        if !('\u{E000}' <= c && c <= '\u{E0FF}') {
            out.push(c);
        }
        i += 1;
    }
    assert(text@.take(text@.len() as int) == text@);
    out
}

/// Where a label begins behind the word marks at its start.
fn skip_marks(label: &Vec<char>) -> (lo: usize)
    ensures
        lo <= label@.len(),
        unmarked_start(label@) == label@.skip(lo as int),
{
    let mut lo: usize = 0;
    assert(label@.skip(0) == label@);
    while lo < label.len() && label[lo] == BPE
        invariant
            lo <= label.len(),
            unmarked_start(label@) == unmarked_start(label@.skip(lo as int)),
        decreases label.len() - lo,
    {
        assert(label@.skip(lo as int).drop_first() == label@.skip(lo + 1));
        lo += 1;
    }
    lo
}

/// Where a label that begins at `lo` ends before the word marks at its end.
fn drop_marks(label: &Vec<char>, lo: usize) -> (hi: usize)
    requires
        lo <= label@.len(),
    ensures
        lo <= hi <= label@.len(),
        unmarked_end(label@.skip(lo as int)) == label@.subrange(lo as int, hi as int),
{
    let ghost rest = label@.skip(lo as int);
    let mut hi: usize = label.len();
    assert(label@.subrange(lo as int, hi as int) == rest);
    while hi > lo && label[hi - 1] == BPE
        invariant
            lo <= hi <= label.len(),
            unmarked_end(rest) == unmarked_end(label@.subrange(lo as int, hi as int)),
        decreases hi,
    {
        proof {
            let part = label@.subrange(lo as int, hi as int);
            assert(part.last() == label@[hi - 1]);
            assert(part.drop_last() == label@.subrange(lo as int, hi - 1));
        }
        hi -= 1;
    }
    proof {
        let part = label@.subrange(lo as int, hi as int);
        assert(part.len() > 0 ==> part.last() == label@[hi - 1]);
    }
    hi
}

/// Appends a label without its word marks.
fn push_unmarked(out: &mut Vec<char>, label: &Vec<char>)
    ensures
        final(out)@ == old(out)@ + unmarked(label@),
{
    let lo: usize = skip_marks(label);
    let hi: usize = drop_marks(label, lo);
    let mut i: usize = lo;
    assert(label@.subrange(lo as int, lo as int) == Seq::<char>::empty());
    while i < hi
        invariant
            lo <= i <= hi <= label.len(),
            out@ == old(out)@ + label@.subrange(lo as int, i as int),
        decreases hi - i,
    {
        out.push(label[i]);
        assert(label@.subrange(lo as int, i + 1) == label@.subrange(lo as int, i as int).push(
            label@[i as int],
        ));
        i += 1;
    }
}

/// The characters that token `i` is rendered as.
fn masked_label(labels: &Labels, i: usize) -> (label: Vec<char>)
    requires
        i < labels.names@.len(),
    ensures
        label@ == masked(texts(labels.names@), labels.special@)[i as int],
{
    if i < labels.special.len() && labels.special[i] {
        let mut label: Vec<char> = Vec::new();
        label.push('\u{E000}');
        assert(label@ == seq!['\u{E000}']);
        label
    } else {
        chars_of(labels.names[i].as_str())
    }
}

/// The text of the best path: the best class of every frame, repetitions
/// joined, blanks and special tokens left out, and a space before each word but
/// the first.
pub fn greedy(log_probs: &Vec<Vec<u32>>, labels: &Labels, blank_id: usize) -> (out: String)
    requires
        forall|t: int|
            0 <= t < log_probs@.len() ==> best_class(#[trigger] log_probs@[t]@) == blank_id
                || best_class(log_probs@[t]@) < labels.names@.len(),
    ensures
        out@ == spelled_text(
            best_path(log_probs@),
            texts(labels.names@),
            labels.special@,
            blank_id as int,
        ),
        ({
            let names = masked(texts(labels.names@), labels.special@);
            let classes = spelled(best_path(log_probs@), names, blank_id as int).0;
            out@ == shown(rendered(classes, names))
        }),
{
    let mut out: Vec<char> = Vec::new();
    let mut previous: Option<usize> = None;
    let mut t: usize = 0;
    let ghost path = best_path(log_probs@);
    let ghost names = masked(texts(labels.names@), labels.special@);
    while t < log_probs.len()
        invariant
            t <= log_probs.len(),
            path == best_path(log_probs@),
            names == masked(texts(labels.names@), labels.special@),
            forall|t: int|
                0 <= t < log_probs@.len() ==> best_class(#[trigger] log_probs@[t]@) == blank_id
                    || best_class(log_probs@[t]@) < labels.names@.len(),
            ({
                let (classes, last) = spelled(path.take(t as int), names, blank_id as int);
                &&& out@ == rendered(classes, names)
                &&& last == (match previous {
                    Some(p) => Some(p as int),
                    None => None,
                })
            }),
        decreases log_probs.len() - t,
    {
        let best: usize = find_best(&log_probs[t]);
        proof {
            assert(path.take(t + 1).drop_last() == path.take(t as int));
            assert(path.take(t + 1).last() == best);
            assert(best_class(log_probs@[t as int]@) == best);
        }
        t += 1;
        if best == blank_id {
            previous = None;
            continue;
        }
        let repeats: bool = match previous {
            Some(p) => p == best,
            None => false,
        };
        if repeats {
            continue;
        }
        let label = masked_label(labels, best);
        if label.len() == 0 {
            continue;
        }
        let ghost before = spelled(path.take(t - 1), names, blank_id as int).0;
        let ghost so_far = out@;
        if label[0] == BPE && out.len() > 0 {
            out.push(' ');
        }
        push_unmarked(&mut out, &label);
        assert(names[best as int] == label@);
        assert(out@ == extended(so_far, label@));
        assert(before.push(best as int).drop_last() == before);
        previous = Some(best);
    }
    assert(path.take(path.len() as int) == path);
    shown_chars(&out)
}

// ---------------------------------------------------------------------------
// Laws
// ---------------------------------------------------------------------------

/// The best class has the greatest score, and is the first that has it. Where
/// no score is above negative infinity, it is the first class.
pub proof fn best_class_is_first_maximum(row: Seq<u32>)
    ensures
        ({
            let best = best_class(row);
            ||| {
                &&& 0 <= best < row.len()
                &&& above(row[best], NEG_INFINITY)
                &&& forall|v: int| 0 <= v < row.len() ==> !above(#[trigger] row[v], row[best])
                &&& forall|v: int| 0 <= v < best ==> above(row[best], #[trigger] row[v]) || nan(row[v])
            }
            ||| {
                &&& best == 0
                &&& forall|v: int| 0 <= v < row.len() ==> !above(#[trigger] row[v], NEG_INFINITY)
            }
        }),
{
    best_so_far(row, row.len() as int);
}

proof fn best_so_far(row: Seq<u32>, n: int)
    requires
        0 <= n <= row.len(),
    ensures
        ({
            let (best, score) = best_of(row, n);
            &&& !nan(score)
            &&& {
                ||| {
                    &&& 0 <= best < n
                    &&& row[best] == score
                    &&& above(score, NEG_INFINITY)
                    &&& forall|v: int| 0 <= v < n ==> !above(#[trigger] row[v], score)
                    &&& forall|v: int| 0 <= v < best ==> above(score, #[trigger] row[v]) || nan(row[v])
                }
                ||| {
                    &&& best == 0
                    &&& score == NEG_INFINITY
                    &&& forall|v: int| 0 <= v < n ==> !above(#[trigger] row[v], NEG_INFINITY)
                }
            }
        }),
    decreases n,
{
    if n > 0 {
        best_so_far(row, n - 1);
    }
}

/// Repeating a frame changes nothing: a class that lasts for several frames is
/// spelled once.
pub proof fn repeated_frames_are_joined(
    before: Seq<int>,
    class: int,
    after: Seq<int>,
    labels: Seq<Seq<char>>,
    blank: int,
)
    ensures
        spelled(before.push(class).push(class) + after, labels, blank) == spelled(
            before.push(class) + after,
            labels,
            blank,
        ),
    decreases after.len(),
{
    let once = before.push(class);
    let twice = once.push(class);
    if after.len() == 0 {
        assert(twice + after == twice);
        assert(once + after == once);
        assert(twice.drop_last() == once);
        assert(once.drop_last() == before);
    } else {
        repeated_frames_are_joined(before, class, after.drop_last(), labels, blank);
        assert((twice + after).drop_last() == twice + after.drop_last());
        assert((once + after).drop_last() == once + after.drop_last());
    }
}

/// A blank is not spelled, and what follows it is spelled even where it
/// repeats what came before.
pub proof fn blank_separates_repetitions(
    path: Seq<int>,
    class: int,
    labels: Seq<Seq<char>>,
    blank: int,
)
    requires
        class != blank,
        labels[class].len() > 0,
    ensures
        spelled(path.push(blank), labels, blank).0 == spelled(path, labels, blank).0,
        spelled(path.push(blank).push(class), labels, blank).0 == spelled(path, labels, blank).0.push(
            class,
        ),
{
    let ended = path.push(blank);
    assert(ended.drop_last() == path);
    assert(spelled(ended, labels, blank) == (spelled(path, labels, blank).0, None::<int>));
    assert(ended.push(class).drop_last() == ended);
    assert(ended.push(class).last() == class);
}

/// A space comes only before a label that begins a word: any other label is
/// joined to what precedes it, without its word marks.
pub proof fn pieces_within_a_word_are_joined(classes: Seq<int>, class: int, labels: Seq<Seq<char>>)
    ensures
        !begins_word(labels[class]) ==> rendered(classes.push(class), labels) == rendered(classes, labels)
            + unmarked(labels[class]),
        begins_word(labels[class]) && rendered(classes, labels).len() > 0 ==> rendered(
            classes.push(class),
            labels,
        ) == rendered(classes, labels) + seq![' '] + unmarked(labels[class]),
{
    assert(classes.push(class).drop_last() == classes);
    assert(rendered(classes, labels).push(' ') == rendered(classes, labels) + seq![' ']);
}

/// No decoded text shows a character that stands for a special token or is
/// reserved, and every other character stays.
pub proof fn hidden_characters_are_gone(
    text: Seq<char>,
    names: Seq<Seq<char>>,
    special: Seq<bool>,
    c: char,
)
    ensures
        visible(text, names, special).contains(c) <==> text.contains(c) && !hidden(c, names, special),
{
    let keep = |c: char| !hidden(c, names, special);
    let rest = visible(text, names, special);
    broadcast use vstd::seq_lib::group_filter_ensures;

    if rest.contains(c) {
        let i = choose|i: int| 0 <= i < rest.len() && rest[i] == c;
        assert(keep(rest[i]));
        text.lemma_filter_contains_rev(keep, c);
    }
    if text.contains(c) && !hidden(c, names, special) {
        let i = choose|i: int| 0 <= i < text.len() && text[i] == c;
        assert(keep(text[i]));
    }
}

/// Whatever its number, the label of a special token is taken out of a decoded
/// text.
pub proof fn special_labels_are_stripped(tokens: Seq<Seq<char>>, blank: int, i: int)
    requires
        0 <= i < tokens.len(),
        i != blank,
        is_special(tokens[i]),
    ensures
        visible(
            labels_of(tokens, blank)[i],
            labels_of(tokens, blank),
            specials_of(tokens, blank),
        ) == Seq::<char>::empty(),
{
    let names = labels_of(tokens, blank);
    let special = specials_of(tokens, blank);
    let c = (SPECIAL + i) as char;
    assert(stands_for(c, names, special, i));
    let rest = visible(names[i], names, special);
    if rest.len() > 0 {
        assert(rest.contains(rest[0]));
        hidden_characters_are_gone(names[i], names, special, rest[0]);
    }
}

/// Whatever its number, a special token adds nothing to a greedy transcript,
/// and any other token adds its label, without its word marks and reserved
/// characters.
pub proof fn only_special_tokens_are_left_out(
    classes: Seq<int>,
    class: int,
    names: Seq<Seq<char>>,
    special: Seq<bool>,
)
    requires
        0 <= class < names.len(),
    ensures
        ({
            let labels = masked(names, special);
            let before = rendered(classes, labels);
            let after = rendered(classes.push(class), labels);
            if marked(special, class) {
                shown(after) == shown(before)
            } else if begins_word(names[class]) && before.len() > 0 {
                shown(after) == shown(before) + seq![' '] + shown(unmarked(names[class]))
            } else {
                shown(after) == shown(before) + shown(unmarked(names[class]))
            }
        }),
{
    let labels = masked(names, special);
    let before = rendered(classes, labels);
    let keep = |c: char| !reserved(c);
    let label = labels[class];
    assert(classes.push(class).drop_last() == classes);
    Seq::filter_distributes_over_add(before, unmarked(label), keep);
    if marked(special, class) {
        assert(unmarked_start(label) == label);
        assert(unmarked_end(label) == label);
        assert(label.filter(keep) == Seq::<char>::empty()) by {
            reveal(Seq::filter);
            let none = Seq::<char>::empty();
            assert(label.drop_last() == none);
            assert(none.filter(keep) == none);
            assert(!keep(label.last()));
        }
    } else {
        let spaced = before.push(' ');
        assert(spaced.filter(keep) == before.filter(keep) + seq![' ']) by {
            reveal(Seq::filter);
            assert(spaced.drop_last() == before);
            assert(keep(' '));
        }
        Seq::filter_distributes_over_add(spaced, unmarked(label), keep);
    }
}

/// A blank label is empty, and no other label is empty unless its token is.
pub proof fn blank_label_is_empty(tokens: Seq<Seq<char>>, blank: int, i: int)
    requires
        0 <= i < tokens.len(),
    ensures
        labels_of(tokens, blank).len() == tokens.len(),
        labels_of(tokens, blank)[i].len() == 0 <==> i == blank || tokens[i].len() == 0,
{
}

/// Every hotword is trimmed, is not empty and is no comment.
pub proof fn hotwords_are_words(text: Seq<char>, i: int)
    requires
        0 <= i < hotwords_in(text).len(),
    ensures
        is_hotword(hotwords_in(text)[i]),
        hotwords_in(text)[i].len() > 0,
        hotwords_in(text)[i][0] != '#',
        exists|k: int|
            0 <= k < lines(text).len() && hotwords_in(text)[i] == trimmed(#[trigger] lines(text)[k]),
{
    let rows = lines(text).map_values(|line: Seq<char>| trimmed(line));
    let pick = |line: Seq<char>| is_hotword(line);
    broadcast use vstd::seq_lib::group_filter_ensures;

    let word = hotwords_in(text)[i];
    assert(pick(rows.filter(pick)[i]));
    assert(rows.filter(pick).contains(word));
    rows.lemma_filter_contains_rev(pick, word);
    let k = choose|k: int| 0 <= k < rows.len() && rows[k] == word;
    assert(rows[k] == trimmed(lines(text)[k]));
}

/// What one line adds to the hotwords.
spec fn hotword_of(line: Seq<char>) -> Seq<Seq<char>> {
    if is_hotword(trimmed(line)) {
        seq![trimmed(line)]
    } else {
        Seq::empty()
    }
}

/// The hotwords of a text are that of its first line and those of the rest.
proof fn first_line_comes_first(text: Seq<char>)
    ensures
        newline_at(text) >= text.len() ==> hotwords_in(text) == hotword_of(text),
        newline_at(text) < text.len() ==> hotwords_in(text) == hotword_of(
            text.take(newline_at(text) as int),
        ) + hotwords_in(text.skip(newline_at(text) as int + 1)),
{
    let clean = |line: Seq<char>| trimmed(line);
    let pick = |line: Seq<char>| is_hotword(line);
    let at = newline_at(text) as int;
    newline_is_first(text);
    if at >= text.len() {
        if text.len() == 0 {
            assert(lines(text).map_values(clean) == Seq::<Seq<char>>::empty());
            assert(trimmed(text).len() == 0);
            assert(Seq::<Seq<char>>::empty().filter(pick) == Seq::<Seq<char>>::empty()) by {
                reveal(Seq::filter);
            }
        } else {
            assert(lines(text).map_values(clean) == seq![trimmed(text)]);
            one_line_filtered(trimmed(text));
        }
    } else {
        let head = text.take(at);
        let line = without_return(head);
        let tail = text.skip(at + 1);
        if line != head {
            assert(head == line.push('\r'));
            trailing_whitespace_is_trimmed(line, '\r');
        }
        assert(trimmed(line) == trimmed(head));
        assert(lines(text).map_values(clean) == seq![trimmed(head)] + lines(tail).map_values(clean));
        Seq::filter_distributes_over_add(seq![trimmed(head)], lines(tail).map_values(clean), pick);
        one_line_filtered(trimmed(head));
    }
}

proof fn one_line_filtered(line: Seq<char>)
    ensures
        seq![line].filter(|line: Seq<char>| is_hotword(line)) == if is_hotword(line) {
            seq![line]
        } else {
            Seq::<Seq<char>>::empty()
        },
{
    let pick = |line: Seq<char>| is_hotword(line);
    reveal(Seq::filter);
    assert(seq![line].drop_last() == Seq::<Seq<char>>::empty());
    assert(Seq::<Seq<char>>::empty().filter(pick) == Seq::<Seq<char>>::empty());
    assert(Seq::<Seq<char>>::empty().push(line) == seq![line]);
}

/// The hotwords of two texts with a line feed between them are those of the
/// first and then those of the second.
pub proof fn hotwords_of_two_texts(a: Seq<char>, b: Seq<char>)
    ensures
        hotwords_in(a + "\n"@ + b) == hotwords_in(a) + hotwords_in(b),
    decreases a.len(),
{
    reveal_strlit("\n");
    let both = a + "\n"@ + b;
    let at = newline_at(a) as int;
    newline_is_first(a);
    assert forall|i: int| 0 <= i < at implies #[trigger] both[i] != '\n' by {
        assert(both[i] == a[i]);
    }
    newline_is_found(both, at);
    first_line_comes_first(a);
    first_line_comes_first(both);
    assert(both.take(at) == a.take(at));
    if at < a.len() {
        let tail = a.skip(at + 1);
        assert(both.skip(at + 1) == tail + "\n"@ + b);
        hotwords_of_two_texts(tail, b);
        assert(hotword_of(a.take(at)) + (hotwords_in(tail) + hotwords_in(b)) == hotword_of(a.take(at))
            + hotwords_in(tail) + hotwords_in(b));
    } else {
        assert(a.take(at) == a);
        assert(both.skip(at + 1) == b);
    }
}

/// A text that is itself a hotword: on one line, trimmed, and no comment.
pub open spec fn is_word(word: Seq<char>) -> bool {
    &&& is_hotword(word)
    &&& trimmed(word) == word
    &&& forall|i: int| 0 <= i < word.len() ==> #[trigger] word[i] != '\n'
}

/// Reading back a list of hotwords that stand one per line gives the list.
pub proof fn listed_words_are_read_back(words: Seq<Seq<char>>)
    requires
        forall|i: int| 0 <= i < words.len() ==> is_word(#[trigger] words[i]),
    ensures
        hotwords_in(joined(words, "\n"@)) == words,
    decreases words.len(),
{
    if words.len() == 0 {
        first_line_comes_first(Seq::<char>::empty());
        assert(trimmed(Seq::<char>::empty()).len() == 0);
        assert(words == Seq::<Seq<char>>::empty());
    } else {
        let last = words.last();
        assert(is_word(words[words.len() - 1]));
        newline_is_found(last, last.len() as int);
        first_line_comes_first(last);
        if words.len() == 1 {
            assert(words == seq![last]);
        } else {
            assert forall|i: int| 0 <= i < words.drop_last().len() implies is_word(
                #[trigger] words.drop_last()[i],
            ) by {
                assert(is_word(words[i]));
            }
            listed_words_are_read_back(words.drop_last());
            hotwords_of_two_texts(joined(words.drop_last(), "\n"@), last);
            assert(words == words.drop_last() + seq![last]);
        }
    }
}

proof fn hotwords_are_listable(text: Seq<char>)
    ensures
        forall|i: int| 0 <= i < hotwords_in(text).len() ==> is_word(#[trigger] hotwords_in(text)[i]),
    decreases text.len(),
{
    let at = newline_at(text) as int;
    newline_is_first(text);
    first_line_comes_first(text);
    let head = text.take(at);
    let word = trimmed(head);
    trimming_is_done_once(head);
    assert forall|i: int| 0 <= i < word.len() implies #[trigger] word[i] != '\n' by {
        assert(head.contains(word[i]));
        let k = choose|k: int| 0 <= k < head.len() && head[k] == word[i];
        assert(text[k] == word[i]);
    }
    if at < text.len() {
        let tail = text.skip(at + 1);
        hotwords_are_listable(tail);
        assert forall|i: int| 0 <= i < hotwords_in(text).len() implies is_word(
            #[trigger] hotwords_in(text)[i],
        ) by {
            let front = hotword_of(head).len() as int;
            if i >= front {
                assert(is_word(hotwords_in(tail)[i - front]));
            }
        }
    } else {
        assert(head == text);
    }
}

/// Reading the hotwords of a text, listing them one per line and reading them
/// again gives the same hotwords.
pub proof fn hotwords_are_read_back(text: Seq<char>)
    ensures
        hotwords_in(joined(hotwords_in(text), "\n"@)) == hotwords_in(text),
{
    hotwords_are_listable(text);
    listed_words_are_read_back(hotwords_in(text));
}

/// No hotword is lost: every line that is not empty once it is trimmed, and does
/// then not begin with `#`, is among the hotwords, however long it is.
pub proof fn no_hotword_is_lost(text: Seq<char>, k: int)
    requires
        0 <= k < lines(text).len(),
        trimmed(lines(text)[k]).len() > 0,
        trimmed(lines(text)[k])[0] != '#',
    ensures
        hotwords_in(text).contains(trimmed(lines(text)[k])),
{
    let clean = |line: Seq<char>| trimmed(line);
    let pick = |line: Seq<char>| is_hotword(line);
    let rows = lines(text).map_values(clean);
    broadcast use vstd::seq_lib::group_filter_ensures;

    assert(rows[k] == trimmed(lines(text)[k]));
    assert(pick(rows[k]));
    rows.lemma_filter_contains(pick, k);
}

/// A text of one line has that line as its only hotword, without the whitespace
/// around it, unless there is nothing else or it begins with `#`.
pub proof fn one_line_is_one_hotword(text: Seq<char>)
    requires
        forall|i: int| 0 <= i < text.len() ==> #[trigger] text[i] != '\n',
    ensures
        trimmed(text).len() > 0 && trimmed(text)[0] != '#' ==> hotwords_in(text) == seq![trimmed(text)],
        trimmed(text).len() == 0 || trimmed(text)[0] == '#' ==> hotwords_in(text) == Seq::<
            Seq<char>,
        >::empty(),
{
    newline_is_found(text, text.len() as int);
    first_line_comes_first(text);
}

/// A token file whose first character that is no whitespace is an opening brace
/// is a JSON document. Any other has one token per line: its first word.
pub proof fn token_files_are_told_by_their_first_character(text: Seq<char>)
    ensures
        trimmed_start(text).len() > 0 && trimmed_start(text)[0] == '{' ==> match json_document(text) {
            Some(document) => tokens_in(text) == manifest(document),
            None => tokens_in(text) is NotJson,
        },
        trimmed_start(text).len() == 0 || trimmed_start(text)[0] != '{' ==> {
            &&& tokens_in(text) matches TokenFile::Tokens(tokens, declared)
            &&& declared is None
            &&& tokens.len() == lines(text).len()
            &&& forall|i: int|
                0 <= i < tokens.len() ==> #[trigger] tokens[i] == first_word(lines(text)[i])
        },
{
}

/// The tokens of a JSON document are the strings of its array `tokens`, all of
/// them and in order, and the blank one is its number `blank_id`.
pub proof fn manifests_list_their_tokens(document: Json, items: Seq<Json>)
    requires
        member(document, "tokens"@) == Some(Json::List(items)),
    ensures
        (forall|i: int| 0 <= i < items.len() ==> (#[trigger] items[i]) is Text) ==> {
            &&& manifest(document) matches TokenFile::Tokens(tokens, declared)
            &&& tokens.len() == items.len()
            &&& forall|i: int| 0 <= i < items.len() ==> items[i] == Json::Text(#[trigger] tokens[i])
            &&& declared == match member(document, "blank_id"@) {
                Some(Json::Number(number)) => number,
                _ => None,
            }
        },
        (exists|i: int| 0 <= i < items.len() && !((#[trigger] items[i]) is Text)) ==> manifest(document)
            is NonStringToken,
{
}

/// A JSON document without an array `tokens` is no token file.
pub proof fn manifests_have_an_array(document: Json)
    requires
        !(member(document, "tokens"@) matches Some(Json::List(_))),
    ensures
        manifest(document) is NoTokenArray,
{
}

/// The label of the blank token is empty. That of a token in angle brackets is
/// the one character that follows U+E000 by the token's number, and the token
/// is marked. That of any other token is the token itself.
pub proof fn labels_follow_the_tokens(tokens: Seq<Seq<char>>, blank: int, i: int)
    requires
        0 <= i < tokens.len(),
        i <= 0x10_1FFF,
    ensures
        labels_of(tokens, blank).len() == tokens.len(),
        specials_of(tokens, blank).len() == tokens.len(),
        i == blank ==> labels_of(tokens, blank)[i] == Seq::<char>::empty() && !specials_of(
            tokens,
            blank,
        )[i],
        ({
            let token = tokens[i];
            let bracketed = token.len() > 0 && token[0] == '<' && token[token.len() - 1] == '>';
            let label = labels_of(tokens, blank)[i];
            &&& i != blank && bracketed ==> {
                &&& label.len() == 1
                &&& label[0] as int == 0xE000 + i
                &&& specials_of(tokens, blank)[i]
            }
            &&& i != blank && !bracketed ==> label == token && !specials_of(tokens, blank)[i]
        }),
{
}

/// There is a character for every special token up to the last number that has
/// one.
pub proof fn few_tokens_have_their_characters(tokens: Seq<Seq<char>>, declared: Option<u64>)
    requires
        tokens.len() <= 0x10_2000,
    ensures
        labelable(tokens, declared),
{
}

/// Each frame has its best class.
pub proof fn every_frame_has_its_class(rows: Seq<Vec<u32>>, t: int)
    requires
        0 <= t < rows.len(),
    ensures
        best_path(rows).len() == rows.len(),
        best_path(rows)[t] == best_class(rows[t]@),
{
}

/// Where every class has a text, a frame is spelled exactly where its class is
/// not the blank one and differs from that of the frame before it.
pub proof fn every_change_is_spelled(path: Seq<int>, class: int, labels: Seq<Seq<char>>, blank: int)
    requires
        class == blank || labels[class].len() > 0,
        forall|t: int|
            0 <= t < path.len() ==> #[trigger] path[t] == blank || labels[path[t]].len() > 0,
    ensures
        spelled(Seq::<int>::empty(), labels, blank).0 == Seq::<int>::empty(),
        class == blank || (path.len() > 0 && path.last() == class) ==> spelled(
            path.push(class),
            labels,
            blank,
        ).0 == spelled(path, labels, blank).0,
        class != blank && !(path.len() > 0 && path.last() == class) ==> spelled(
            path.push(class),
            labels,
            blank,
        ).0 == spelled(path, labels, blank).0.push(class),
{
    assert(path.push(class).drop_last() == path);
    last_class_is_remembered(path, labels, blank);
}

proof fn last_class_is_remembered(path: Seq<int>, labels: Seq<Seq<char>>, blank: int)
    requires
        forall|t: int|
            0 <= t < path.len() ==> #[trigger] path[t] == blank || labels[path[t]].len() > 0,
    ensures
        spelled(path, labels, blank).1 == if path.len() > 0 && path.last() != blank {
            Some(path.last())
        } else {
            None::<int>
        },
    decreases path.len(),
{
    if path.len() > 0 {
        let before = path.drop_last();
        assert forall|t: int| 0 <= t < before.len() implies #[trigger] before[t] == blank
            || labels[before[t]].len() > 0 by {
            assert(path[t] == before[t]);
        }
        last_class_is_remembered(before, labels, blank);
        assert(path[path.len() - 1] == path.last());
    }
}

/// A class without a text changes nothing, wherever it stands.
pub proof fn classes_without_text_change_nothing(
    before: Seq<int>,
    class: int,
    after: Seq<int>,
    labels: Seq<Seq<char>>,
    blank: int,
)
    requires
        class != blank,
        labels[class].len() == 0,
    ensures
        spelled(before.push(class) + after, labels, blank) == spelled(before + after, labels, blank),
    decreases after.len(),
{
    let with = before.push(class);
    if after.len() == 0 {
        assert(with + after == with);
        assert(before + after == before);
        assert(with.drop_last() == before);
    } else {
        classes_without_text_change_nothing(before, class, after.drop_last(), labels, blank);
        assert((with + after).drop_last() == with + after.drop_last());
        assert((before + after).drop_last() == before + after.drop_last());
    }
}

/// A label loses the word marks at its ends, all of them, and nothing else: what
/// is left is the part from `lo` up to `hi`. So a label without a mark at either
/// end stays whole.
pub proof fn labels_lose_only_their_marks(label: Seq<char>) -> (bounds: (int, int))
    ensures
        ({
            let (lo, hi) = bounds;
            &&& 0 <= lo <= hi <= label.len()
            &&& unmarked(label) == label.subrange(lo, hi)
            &&& forall|i: int| 0 <= i < lo ==> #[trigger] label[i] == '\u{2581}'
            &&& forall|i: int| hi <= i < label.len() ==> #[trigger] label[i] == '\u{2581}'
            &&& lo < hi ==> label[lo] != '\u{2581}' && label[hi - 1] != '\u{2581}'
        }),
        label.len() > 0 && label[0] != '\u{2581}' && label.last() != '\u{2581}' ==> unmarked(label)
            == label,
{
    let lo = marks_at_the_start(label);
    let rest = label.skip(lo);
    let n = marks_at_the_end(rest);
    assert(rest.take(n) == label.subrange(lo, lo + n));
    assert forall|i: int| lo + n <= i < label.len() implies #[trigger] label[i] == '\u{2581}' by {
        assert(rest[i - lo] == '\u{2581}');
    }
    if n > 0 {
        assert(rest[n - 1] == label[lo + n - 1]);
    }
    if label.len() > 0 && label[0] != '\u{2581}' && label.last() != '\u{2581}' {
        assert(label[label.len() - 1] == label.last());
        assert(label.subrange(0, label.len() as int) == label);
    }
    (lo, lo + n)
}

proof fn marks_at_the_start(s: Seq<char>) -> (lo: int)
    ensures
        0 <= lo <= s.len(),
        unmarked_start(s) == s.skip(lo),
        forall|i: int| 0 <= i < lo ==> #[trigger] s[i] == '\u{2581}',
        lo < s.len() ==> s[lo] != '\u{2581}',
    decreases s.len(),
{
    if s.len() > 0 && s[0] == BPE {
        let rest = s.drop_first();
        let lo = marks_at_the_start(rest);
        assert(rest.skip(lo) == s.skip(lo + 1));
        assert forall|i: int| 0 <= i < lo + 1 implies #[trigger] s[i] == '\u{2581}' by {
            if i > 0 {
                assert(rest[i - 1] == '\u{2581}');
            }
        }
        lo + 1
    } else {
        assert(s.skip(0) == s);
        0
    }
}

proof fn marks_at_the_end(s: Seq<char>) -> (hi: int)
    ensures
        0 <= hi <= s.len(),
        unmarked_end(s) == s.take(hi),
        forall|i: int| hi <= i < s.len() ==> #[trigger] s[i] == '\u{2581}',
        hi > 0 ==> s[hi - 1] != '\u{2581}',
    decreases s.len(),
{
    if s.len() > 0 && s.last() == BPE {
        let rest = s.drop_last();
        let hi = marks_at_the_end(rest);
        assert(rest.take(hi) == s.take(hi));
        assert forall|i: int| hi <= i < s.len() implies #[trigger] s[i] == '\u{2581}' by {
            if i < s.len() - 1 {
                assert(rest[i] == '\u{2581}');
            }
        }
        hi
    } else {
        assert(s.take(s.len() as int) == s);
        s.len() as int
    }
}

/// A text grows piece by piece: it begins empty, each piece adds its label
/// without the marks, and a space comes before exactly those labels that begin
/// with a mark and are not the first of the text.
pub proof fn pieces_are_added_one_by_one(classes: Seq<int>, class: int, labels: Seq<Seq<char>>)
    ensures
        rendered(Seq::<int>::empty(), labels) == Seq::<char>::empty(),
        ({
            let label = labels[class];
            let so_far = rendered(classes, labels);
            let starts = label.len() > 0 && label[0] == '\u{2581}';
            &&& starts && so_far.len() > 0 ==> rendered(classes.push(class), labels) == so_far
                + seq![' '] + unmarked(label)
            &&& !(starts && so_far.len() > 0) ==> rendered(classes.push(class), labels) == so_far
                + unmarked(label)
        }),
{
    assert(classes.push(class).drop_last() == classes);
    assert(rendered(classes, labels).push(' ') == rendered(classes, labels) + seq![' ']);
}

/// What is shown of a text is told character by character: all but U+E000 to
/// U+E0FF.
pub proof fn only_reserved_characters_are_left_out(a: Seq<char>, b: Seq<char>, c: char)
    ensures
        shown(Seq::<char>::empty()) == Seq::<char>::empty(),
        shown(a + b) == shown(a) + shown(b),
        shown(seq![c]) == if 0xE000 <= c as int <= 0xE0FF {
            Seq::<char>::empty()
        } else {
            seq![c]
        },
{
    let keep = |c: char| !reserved(c);
    let none = Seq::<char>::empty();
    Seq::filter_distributes_over_add(a, b, keep);
    assert(none.filter(keep) == none && seq![c].filter(keep) == if keep(c) {
        seq![c]
    } else {
        none
    }) by {
        reveal(Seq::filter);
        assert(seq![c].drop_last() == none);
        assert(none.push(c) == seq![c]);
    }
}

/// What is left of a decoded text is told character by character: all but
/// U+E000 to U+E0FF and the labels of special tokens.
pub proof fn only_hidden_characters_are_stripped(
    a: Seq<char>,
    b: Seq<char>,
    c: char,
    names: Seq<Seq<char>>,
    special: Seq<bool>,
)
    ensures
        visible(Seq::<char>::empty(), names, special) == Seq::<char>::empty(),
        visible(a + b, names, special) == visible(a, names, special) + visible(b, names, special),
        ({
            let is_label = exists|i: int|
                0 <= i < names.len() && i < special.len() && special[i] && #[trigger] names[i]
                    == seq![c];
            visible(seq![c], names, special) == if 0xE000 <= c as int <= 0xE0FF || is_label {
                Seq::<char>::empty()
            } else {
                seq![c]
            }
        }),
{
    let keep = |c: char| !hidden(c, names, special);
    let none = Seq::<char>::empty();
    Seq::filter_distributes_over_add(a, b, keep);
    assert(none.filter(keep) == none && seq![c].filter(keep) == if keep(c) {
        seq![c]
    } else {
        none
    }) by {
        reveal(Seq::filter);
        assert(seq![c].drop_last() == none);
        assert(none.push(c) == seq![c]);
    }
    if exists|i: int|
        0 <= i < names.len() && i < special.len() && special[i] && #[trigger] names[i] == seq![c] {
        let i = choose|i: int|
            0 <= i < names.len() && i < special.len() && special[i] && #[trigger] names[i] == seq![c];
        assert(stands_for(c, names, special, i));
    }
    if exists|i: int| stands_for(c, names, special, i) {
        let i = choose|i: int| stands_for(c, names, special, i);
        assert(names[i] == seq![c] && special[i]);
    }
}

/// A special token is rendered as one reserved character, and any other token as
/// its label.
pub proof fn only_special_tokens_are_masked(names: Seq<Seq<char>>, special: Seq<bool>, i: int)
    requires
        0 <= i < names.len(),
    ensures
        masked(names, special).len() == names.len(),
        i < special.len() && special[i] ==> masked(names, special)[i].len() == 1 && 0xE000 <= masked(
            names,
            special,
        )[i][0] as int <= 0xE0FF,
        !(i < special.len() && special[i]) ==> masked(names, special)[i] == names[i],
{
}

} // verus!
