//! Reading FASTA text: the lines that count, the letters of the bases, the
//! queries of a query file and the references of a database.

use crate::text::{chars_of, lemma_views_push, split_chars, split_on, string_of, views};
use crate::tree::{is_built_from, Tree, TreeError};
use vstd::prelude::*;

verus! {

/// The pattern that finds the lineage in the header of a reference: the
/// text between `tax=` and the next semicolon.
pub const TAX_PATTERN: &'static str = "tax=([^;]+);";

/// Why FASTA text cannot be read.
#[derive(Debug, PartialEq, Eq, Clone, Copy, Structural)]
pub enum ParseError {
    /// The text is empty.
    Empty,
    /// The first line that counts is no header.
    NotFasta,
    /// A sequence holds a character that stands for no base.
    UnexpectedCharacter,
    /// The header of a reference has no lineage.
    MissingTaxonomy,
    /// There are not as many sequences as headers.
    CountMismatch,
    /// The pattern for the lineage was refused.
    Pattern,
    /// The references cannot be indexed.
    Index(TreeError),
}

impl ParseError {
    /// What the error says.
    pub open spec fn message_of(self) -> Seq<char> {
        match self {
            ParseError::Empty => "File is empty"@,
            ParseError::NotFasta => "Not a valid FASTA file"@,
            ParseError::UnexpectedCharacter => "Unexpected character in a sequence"@,
            ParseError::MissingTaxonomy => "Unexpected taxonomical annotation detected in a label"@,
            ParseError::CountMismatch => "Number of sequences does not match number of labels"@,
            ParseError::Pattern => "The pattern for the taxonomical annotation was refused"@,
            ParseError::Index(error) => error.message_of(),
        }
    }

    /// What the error says.
    pub fn message(&self) -> (text: String)
        ensures
            text@ == self.message_of(),
    {
        match self {
            ParseError::Empty => String::from_str("File is empty"),
            ParseError::NotFasta => String::from_str("Not a valid FASTA file"),
            ParseError::UnexpectedCharacter => String::from_str("Unexpected character in a sequence"),
            ParseError::MissingTaxonomy => String::from_str(
                "Unexpected taxonomical annotation detected in a label",
            ),
            ParseError::CountMismatch => String::from_str(
                "Number of sequences does not match number of labels",
            ),
            ParseError::Pattern => String::from_str(
                "The pattern for the taxonomical annotation was refused",
            ),
            ParseError::Index(error) => error.message(),
        }
    }
}

/// The 4-bit code of a base letter, in either case: one bit for each of the
/// bases A, C, G and T that the letter covers.
pub open spec fn dna_code(ch: char) -> Option<u8> {
    if ch == 'A' || ch == 'a' {
        Some(1u8)
    } else if ch == 'C' || ch == 'c' {
        Some(2u8)
    } else if ch == 'G' || ch == 'g' {
        Some(4u8)
    } else if ch == 'T' || ch == 't' {
        Some(8u8)
    } else if ch == 'W' || ch == 'w' {
        Some(9u8)
    } else if ch == 'S' || ch == 's' {
        Some(6u8)
    } else if ch == 'M' || ch == 'm' {
        Some(3u8)
    } else if ch == 'K' || ch == 'k' {
        Some(12u8)
    } else if ch == 'R' || ch == 'r' {
        Some(5u8)
    } else if ch == 'Y' || ch == 'y' {
        Some(10u8)
    } else if ch == 'B' || ch == 'b' {
        Some(14u8)
    } else if ch == 'D' || ch == 'd' {
        Some(13u8)
    } else if ch == 'H' || ch == 'h' {
        Some(11u8)
    } else if ch == 'V' || ch == 'v' {
        Some(7u8)
    } else if ch == 'N' || ch == 'n' {
        Some(15u8)
    } else {
        None
    }
}

/// The codes of a text of base letters, `None` where a character stands for
/// no base.
pub open spec fn encode(text: Seq<char>) -> Option<Seq<u8>>
    decreases text.len(),
{
    if text.len() == 0 {
        Some(Seq::<u8>::empty())
    } else {
        match (encode(text.drop_last()), dna_code(text.last())) {
            (Some(codes), Some(code)) => Some(codes.push(code)),
            _ => None,
        }
    }
}

/// Whether a character is one of the letters A, C, G and T.
pub open spec fn is_base_letter(ch: char) -> bool {
    ch == 'A' || ch == 'C' || ch == 'G' || ch == 'T'
}

/// Encoding a text of the letters A, C, G and T and decoding the codes again
/// gives the text back.
pub proof fn lemma_decode_encode(text: Seq<char>)
    requires
        forall|i: int| 0 <= i < text.len() ==> is_base_letter(#[trigger] text[i]),
    ensures
        encode(text) is Some,
        crate::utils::decode(encode(text)->0) == text,
        encode(text)->0.len() == text.len(),
    decreases text.len(),
{
    if text.len() > 0 {
        let front = text.drop_last();
        assert forall|i: int| 0 <= i < front.len() implies is_base_letter(#[trigger] front[i]) by {
            assert(front[i] == text[i]);
        }
        lemma_decode_encode(front);
        assert(is_base_letter(text[text.len() - 1]));
        let codes = encode(text)->0;
        assert(crate::utils::decode(codes) =~= text) by {
            assert forall|i: int| 0 <= i < text.len() implies crate::utils::decode(codes)[i]
                == text[i] by {
                if i < front.len() {
                    assert(codes[i] == encode(front)->0[i]);
                    assert(crate::utils::decode(encode(front)->0)[i] == front[i]);
                }
            }
        }
    } else {
        assert(crate::utils::decode(encode(text)->0) =~= text);
    }
}

/// Whether a character is white space: one of the twenty-five characters
/// that Unicode gives the property `White_Space`.
pub open spec fn is_whitespace(c: char) -> bool {
    let code = c as u32;
    ||| 0x9 <= code <= 0xd
    ||| code == 0x20
    ||| code == 0x85
    ||| code == 0xa0
    ||| code == 0x1680
    ||| 0x2000 <= code <= 0x200a
    ||| code == 0x2028
    ||| code == 0x2029
    ||| code == 0x202f
    ||| code == 0x205f
    ||| code == 0x3000
}

/// Whether a character is white space.
pub fn char_is_whitespace(c: char) -> (white: bool)
    ensures
        white == is_whitespace(c),
{
    let code: u32 = c as u32;
    (0x9 <= code && code <= 0xd) || code == 0x20 || code == 0x85 || code == 0xa0 || code == 0x1680 || (
    0x2000 <= code && code <= 0x200a) || code == 0x2028 || code == 0x2029 || code == 0x202f || code
        == 0x205f || code == 0x3000
}

/// A text without the white space at its start.
pub open spec fn trim_start(s: Seq<char>) -> Seq<char>
    decreases s.len(),
{
    if s.len() > 0 && is_whitespace(s.first()) {
        trim_start(s.drop_first())
    } else {
        s
    }
}

/// A text without the white space at its end.
pub open spec fn trim_end(s: Seq<char>) -> Seq<char>
    decreases s.len(),
{
    if s.len() > 0 && is_whitespace(s.last()) {
        trim_end(s.drop_last())
    } else {
        s
    }
}

/// A text without the white space at its start and at its end.
pub open spec fn trim(s: Seq<char>) -> Seq<char> {
    trim_end(trim_start(s))
}

/// Whether a trimmed line counts: it is not empty and no comment.
pub open spec fn counts(line: Seq<char>) -> bool {
    line.len() > 0 && line[0] != ';'
}

/// Of the given lines those that count, trimmed, in order.
pub open spec fn kept_lines(lines: Seq<Seq<char>>) -> Seq<Seq<char>>
    decreases lines.len(),
{
    if lines.len() == 0 {
        Seq::empty()
    } else {
        let before = kept_lines(lines.drop_last());
        let line = trim(lines.last());
        if counts(line) {
            before.push(line)
        } else {
            before
        }
    }
}

/// The lines of a FASTA text that count: the text is cut at every line feed,
/// the lines are trimmed, and empty lines and lines that start with a
/// semicolon are left out.
pub open spec fn fasta_lines(text: Seq<char>) -> Seq<Seq<char>> {
    kept_lines(split_on(text, '\n'))
}

/// Whether a line that counts is a header.
pub open spec fn is_header(line: Seq<char>) -> bool {
    line.len() > 0 && line[0] == '>'
}

/// What has been read of a query file: the queries that are complete, and
/// the label and the sequence of the query that is being read.
pub struct QueryState {
    pub done: Seq<(Seq<char>, Seq<u8>)>,
    pub label: Seq<char>,
    pub sequence: Seq<u8>,
}

/// Reads the lines of a query file in order. A header closes the query
/// before it, if that query has a sequence, and names the next one; any
/// other line adds its bases to the sequence of the query. `None` where a
/// sequence line holds a character that stands for no base.
pub open spec fn read_queries(lines: Seq<Seq<char>>) -> Option<QueryState>
    decreases lines.len(),
{
    if lines.len() == 0 {
        Some(QueryState { done: Seq::empty(), label: Seq::empty(), sequence: Seq::empty() })
    } else {
        match read_queries(lines.drop_last()) {
            None => None,
            Some(state) => {
                let line = lines.last();
                if is_header(line) {
                    Some(
                        QueryState {
                            done: if state.sequence.len() > 0 {
                                state.done.push((state.label, state.sequence))
                            } else {
                                state.done
                            },
                            label: line.drop_first(),
                            sequence: Seq::empty(),
                        },
                    )
                } else {
                    match encode(line) {
                        None => None,
                        Some(codes) => Some(
                            QueryState { sequence: state.sequence + codes, ..state },
                        ),
                    }
                }
            },
        }
    }
}

/// The queries of a query file, each with its label and its encoded
/// sequence, or the reason why the text cannot be read. The last query is
/// listed also where it has no sequence.
pub open spec fn parsed_queries(text: Seq<char>) -> Result<Seq<(Seq<char>, Seq<u8>)>, ParseError> {
    if text.len() == 0 {
        Err(ParseError::Empty)
    } else if fasta_lines(text).len() == 0 || !is_header(fasta_lines(text)[0]) {
        Err(ParseError::NotFasta)
    } else {
        match read_queries(fasta_lines(text)) {
            None => Err(ParseError::UnexpectedCharacter),
            Some(state) => Ok(state.done.push((state.label, state.sequence))),
        }
    }
}

/// Maps a base letter, in either case, to its 4-bit code. A character that
/// stands for no base has none.
pub fn map_dna_char(ch: char) -> (code: Option<u8>)
    ensures
        code == dna_code(ch),
{
    let a: u8 = 1;
    let c: u8 = 2;
    let g: u8 = 4;
    let t: u8 = 8;
    match ch {
        'A' | 'a' => Some(a),
        'C' | 'c' => Some(c),
        'G' | 'g' => Some(g),
        'T' | 't' => Some(t),
        'W' | 'w' => Some(9),
        'S' | 's' => Some(6),
        'M' | 'm' => Some(3),
        'K' | 'k' => Some(12),
        'R' | 'r' => Some(5),
        'Y' | 'y' => Some(10),
        'B' | 'b' => Some(14),
        'D' | 'd' => Some(13),
        'H' | 'h' => Some(11),
        'V' | 'v' => Some(7),
        'N' | 'n' => Some(15),
        _ => None,
    }
}

/// Adds the codes of a line of base letters to a sequence. Tells whether
/// every character stood for a base; the sequence is of use only then.
pub fn encode_onto(line: &Vec<char>, sequence: &mut Vec<u8>) -> (known: bool)
    ensures
        known <==> encode(line@) is Some,
        known ==> final(sequence)@ == old(sequence)@ + encode(line@)->0,
{
    let mut i: usize = 0;
    while i < line.len()
        invariant
            i <= line@.len(),
            encode(line@.take(i as int)) is Some,
            sequence@ == old(sequence)@ + encode(line@.take(i as int))->0,
        decreases line@.len() - i,
    {
        proof {
            assert(line@.take(i + 1).drop_last() =~= line@.take(i as int));
            assert(line@.take(i + 1).last() == line@[i as int]);
        }
        match map_dna_char(line[i]) {
            Some(code) => {
                sequence.push(code);
                proof {
                    let codes = encode(line@.take(i as int))->0;
                    assert(sequence@ =~= old(sequence)@ + codes.push(code));
                }
            },
            None => {
                proof {
                    lemma_encode_none(line@, i + 1);
                }
                return false;
            },
        }
        i += 1;
    }
    proof {
        assert(line@.take(line@.len() as int) =~= line@);
    }
    true
}

/// A text has no codes once a start of it has none.
pub proof fn lemma_encode_none(text: Seq<char>, n: int)
    requires
        0 <= n <= text.len(),
        encode(text.take(n)) is None,
    ensures
        encode(text) is None,
    decreases text.len() - n,
{
    if n < text.len() {
        assert(text.take(n + 1).drop_last() =~= text.take(n));
        lemma_encode_none(text, n + 1);
    } else {
        assert(text.take(n) =~= text);
    }
}

/// A line without the white space at its start and at its end.
pub fn trimmed(line: &Vec<char>) -> (out: Vec<char>)
    ensures
        out@ == trim(line@),
{
    let n: usize = line.len();
    let mut from: usize = 0;
    assert(line@.subrange(0, n as int) =~= line@);
    while from < n && char_is_whitespace(line[from])
        invariant
            from <= n,
            n == line@.len(),
            trim_start(line@) == trim_start(line@.subrange(from as int, n as int)),
        decreases n - from,
    {
        proof {
            let rest = line@.subrange(from as int, n as int);
            assert(rest.first() == line@[from as int]);
            assert(rest.drop_first() =~= line@.subrange(from + 1, n as int));
        }
        from += 1;
    }
    let ghost start = line@.subrange(from as int, n as int);
    proof {
        assert(line@.subrange(0, n as int) =~= line@);
        if from < n {
            assert(start.first() == line@[from as int]);
        }
        assert(trim_start(line@) == start);
    }
    let mut to: usize = n;
    while to > from && char_is_whitespace(line[to - 1])
        invariant
            from <= to <= n,
            n == line@.len(),
            trim_end(start) == trim_end(line@.subrange(from as int, to as int)),
        decreases to - from,
    {
        proof {
            let rest = line@.subrange(from as int, to as int);
            assert(rest.last() == line@[to - 1]);
            assert(rest.drop_last() =~= line@.subrange(from as int, to - 1));
        }
        to -= 1;
    }
    proof {
        let rest = line@.subrange(from as int, to as int);
        if to > from {
            assert(rest.last() == line@[to - 1]);
        }
        assert(trim_end(start) == rest);
    }
    let mut out: Vec<char> = Vec::new();
    let mut i: usize = from;
    while i < to
        invariant
            from <= i <= to <= line@.len(),
            out@ == line@.subrange(from as int, i as int),
        decreases to - i,
    {
        out.push(line[i]);
        assert(line@.subrange(from as int, i + 1) =~= line@.subrange(from as int, i as int).push(
            line@[i as int],
        ));
        i += 1;
    }
    out
}

/// The lines of a FASTA text that count, trimmed, in order.
pub fn lines_that_count(text: &str) -> (lines: Vec<Vec<char>>)
    ensures
        views(lines@) == fasta_lines(text@),
        forall|i: int| 0 <= i < lines@.len() ==> counts(#[trigger] lines@[i]@),
{
    let chars = chars_of(text);
    let raw = split_chars(&chars, '\n');
    let ghost all = split_on(text@, '\n');
    let mut lines: Vec<Vec<char>> = Vec::new();
    let mut i: usize = 0;
    while i < raw.len()
        invariant
            i <= raw@.len(),
            views(raw@) == all,
            views(lines@) == kept_lines(all.take(i as int)),
            forall|k: int| 0 <= k < lines@.len() ==> counts(#[trigger] lines@[k]@),
        decreases raw@.len() - i,
    {
        let line = trimmed(&raw[i]);
        proof {
            assert(all[i as int] == raw@[i as int]@);
            assert(all.take(i + 1).drop_last() =~= all.take(i as int));
            assert(all.take(i + 1).last() == all[i as int]);
        }
        if line.len() > 0 && line[0] != ';' {
            let ghost held = lines@;
            lines.push(line);
            proof {
                lemma_views_push(held, line);
            }
        }
        i += 1;
    }
    proof {
        assert(all.take(raw@.len() as int) =~= all);
    }
    lines
}

/// The queries of a query file, each with its label and its encoded
/// sequence.
pub fn parse_query_fasta_str(fasta_str: &str) -> (parsed: Result<Vec<(String, Vec<u8>)>, ParseError>)
    ensures
        parsed matches Ok(queries) ==> parsed_queries(fasta_str@) == Ok::<
            Seq<(Seq<char>, Seq<u8>)>,
            ParseError,
        >(views(queries@)),
        parsed matches Err(error) ==> parsed_queries(fasta_str@) == Err::<
            Seq<(Seq<char>, Seq<u8>)>,
            ParseError,
        >(error),
{
    if fasta_str.is_empty() {
        return Err(ParseError::Empty);
    }
    let lines = lines_that_count(fasta_str);
    let ghost all = fasta_lines(fasta_str@);
    if lines.len() == 0 || lines[0][0] != '>' {
        return Err(ParseError::NotFasta);
    }
    let mut queries: Vec<(String, Vec<u8>)> = Vec::new();
    let mut label: String = String::new();
    let mut sequence: Vec<u8> = Vec::new();
    let mut i: usize = 0;
    proof {
        assert(all.take(0) =~= Seq::<Seq<char>>::empty());
        assert(views(queries@) =~= Seq::<(Seq<char>, Seq<u8>)>::empty());
        assert(sequence@ =~= Seq::<u8>::empty());
        assert(label@ =~= Seq::<char>::empty());
    }
    assert(is_header(all[0])) by {
        assert(all[0] == lines@[0]@);
    }
    while i < lines.len()
        invariant
            i <= lines@.len(),
            views(lines@) == all,
            all == fasta_lines(fasta_str@),
            fasta_str@.len() > 0,
            all.len() > 0,
            is_header(all[0]),
            forall|k: int| 0 <= k < lines@.len() ==> counts(#[trigger] lines@[k]@),
            read_queries(all.take(i as int)) == Some(
                QueryState { done: views(queries@), label: label@, sequence: sequence@ },
            ),
        decreases lines@.len() - i,
    {
        let line = &lines[i];
        proof {
            assert(all[i as int] == line@);
            assert(all.take(i + 1).drop_last() =~= all.take(i as int));
            assert(all.take(i + 1).last() == all[i as int]);
            assert(counts(lines@[i as int]@));
        }
        if line[0] == '>' {
            if sequence.len() > 0 {
                let ghost held = queries@;
                let query = (label, sequence);
                queries.push(query);
                proof {
                    lemma_views_push(held, query);
                }
                sequence = Vec::new();
            }
            label = string_of(line, 1, line.len());
            proof {
                assert(line@.subrange(1, line@.len() as int) =~= line@.drop_first());
                assert(sequence@ =~= Seq::<u8>::empty());
            }
        } else {
            let known = encode_onto(line, &mut sequence);
            if !known {
                proof {
                    assert(!is_header(all.take(i + 1).last()));
                    assert(read_queries(all.take(i + 1)) is None);
                    lemma_read_queries_none(all, i + 1);
                }
                return Err(ParseError::UnexpectedCharacter);
            }
        }
        i += 1;
    }
    proof {
        assert(all.take(lines@.len() as int) =~= all);
    }
    let ghost held = queries@;
    let query = (label, sequence);
    queries.push(query);
    proof {
        lemma_views_push(held, query);
    }
    Ok(queries)
}

/// A query file cannot be read once a start of it cannot.
pub proof fn lemma_read_queries_none(lines: Seq<Seq<char>>, n: int)
    requires
        0 <= n <= lines.len(),
        read_queries(lines.take(n)) is None,
    ensures
        read_queries(lines) is None,
    decreases lines.len() - n,
{
    if n < lines.len() {
        assert(lines.take(n + 1).drop_last() =~= lines.take(n));
        lemma_read_queries_none(lines, n + 1);
    } else {
        assert(lines.take(n) =~= lines);
    }
}

/// The labels of the headers among the given lines, in order: each header
/// without the sign that marks it.
pub open spec fn headers_of(lines: Seq<Seq<char>>) -> Seq<Seq<char>>
    decreases lines.len(),
{
    if lines.len() == 0 {
        Seq::empty()
    } else if is_header(lines.last()) {
        headers_of(lines.drop_last()).push(lines.last().drop_first())
    } else {
        headers_of(lines.drop_last())
    }
}

/// The labels of the headers of a FASTA text, in order.
pub fn header_labels(fasta_str: &str) -> (labels: Vec<String>)
    ensures
        views(labels@) == headers_of(fasta_lines(fasta_str@)),
{
    let lines = lines_that_count(fasta_str);
    let ghost all = fasta_lines(fasta_str@);
    let mut labels: Vec<String> = Vec::new();
    let mut i: usize = 0;
    proof {
        assert(all.take(0) =~= Seq::<Seq<char>>::empty());
        assert(views(labels@) =~= Seq::<Seq<char>>::empty());
    }
    while i < lines.len()
        invariant
            i <= lines@.len(),
            views(lines@) == all,
            forall|k: int| 0 <= k < lines@.len() ==> counts(#[trigger] lines@[k]@),
            views(labels@) == headers_of(all.take(i as int)),
        decreases lines@.len() - i,
    {
        let line = &lines[i];
        proof {
            assert(all[i as int] == line@);
            assert(all.take(i + 1).drop_last() =~= all.take(i as int));
            assert(all.take(i + 1).last() == all[i as int]);
            assert(counts(lines@[i as int]@));
        }
        if line[0] == '>' {
            let label = string_of(line, 1, line.len());
            proof {
                assert(line@.subrange(1, line@.len() as int) =~= line@.drop_first());
            }
            let ghost held = labels@;
            labels.push(label);
            proof {
                lemma_views_push(held, label);
            }
        }
        i += 1;
    }
    proof {
        assert(all.take(lines@.len() as int) =~= all);
    }
    labels
}

#[verifier::external_type_specification]
#[verifier::external_body]
pub struct ExRegexError(regex::Error);

#[verifier::external_type_specification]
#[verifier::external_body]
pub struct ExRegex(regex::Regex);

/// What the first capture group of a pattern holds in the leftmost match of
/// the pattern in a text, `None` where the pattern does not match or the
/// group took no part in the match. This names what `Regex::captures` of the
/// `regex` crate finds with a pattern compiled by `Regex::new`.
pub uninterp spec fn regex_first_group(pattern: Seq<char>, haystack: Seq<char>) -> Option<Seq<char>>;

/// A pattern together with what `Regex::new` has made of it. A value of
/// this type is made by `compile_pattern` alone, so that `regex` is always
/// the compiled form of `source`.
struct Pattern {
    source: String,
    regex: regex::Regex,
}

impl View for Pattern {
    type V = Seq<char>;

    /// The text of the pattern.
    closed spec fn view(&self) -> Seq<char> {
        self.source@
    }
}

/// Whether `Regex::new` of the `regex` crate takes a pattern: it refuses a
/// pattern that it cannot parse or that compiles to more than it allows.
pub uninterp spec fn pattern_compiles(pattern: Seq<char>) -> bool;

/// Compiles a pattern with `Regex::new`. Whether there is a result depends
/// on the pattern alone; where there is one, it is the compiled form of the
/// text that was given.
#[verifier::external_body]
fn compile_pattern(pattern: &str) -> (compiled: Result<Pattern, regex::Error>)
    ensures
        compiled is Ok <==> pattern_compiles(pattern@),
        compiled matches Ok(made) ==> made@ == pattern@,
{
    Ok(Pattern { source: pattern.to_owned(), regex: regex::Regex::new(pattern)? })
}

/// Searches `haystack` with `Regex::captures`: the text of the first capture
/// group of the leftmost match of the pattern, `None` where there is no
/// match or no such group in it.
#[verifier::external_body]
fn first_capture(pattern: &Pattern, haystack: &str) -> (found: Option<String>)
    ensures
        found matches Some(group) ==> regex_first_group(pattern@, haystack@) == Some(group@),
        found is None ==> regex_first_group(pattern@, haystack@) is None,
{
    pattern.regex.captures(haystack).and_then(|found| found.get(1)).map(|group| group.as_str().to_owned())
}

/// The lineage that the header of a reference carries.
pub open spec fn tax_lineage(label: Seq<char>) -> Option<Seq<char>> {
    regex_first_group(TAX_PATTERN@, label)
}

/// What has been read of a database: the lineages of the headers, the
/// sequences that are complete, and the sequence that is being read.
pub struct ReferenceState {
    pub lineages: Seq<Seq<char>>,
    pub sequences: Seq<Seq<u8>>,
    pub current: Seq<u8>,
}

/// Reads the lines of a database in order. A header gives its lineage and
/// closes the sequence before it, if that sequence is not empty; any other
/// line adds its bases to the sequence. The first header without a lineage
/// and the first character that stands for no base end the reading.
pub open spec fn read_references(lines: Seq<Seq<char>>) -> Result<ReferenceState, ParseError>
    decreases lines.len(),
{
    if lines.len() == 0 {
        Ok(ReferenceState { lineages: Seq::empty(), sequences: Seq::empty(), current: Seq::empty() })
    } else {
        match read_references(lines.drop_last()) {
            Err(error) => Err(error),
            Ok(state) => {
                let line = lines.last();
                if is_header(line) {
                    match tax_lineage(line.drop_first()) {
                        None => Err(ParseError::MissingTaxonomy),
                        Some(lineage) => Ok(
                            ReferenceState {
                                lineages: state.lineages.push(lineage),
                                sequences: if state.current.len() > 0 {
                                    state.sequences.push(state.current)
                                } else {
                                    state.sequences
                                },
                                current: Seq::empty(),
                            },
                        ),
                    }
                } else {
                    match encode(line) {
                        None => Err(ParseError::UnexpectedCharacter),
                        Some(codes) => Ok(ReferenceState { current: state.current + codes, ..state }),
                    }
                }
            },
        }
    }
}

/// Whether reading a database ends because the pattern for the lineage is
/// refused: the text has a header to look at, and the pattern does not
/// compile.
pub open spec fn pattern_is_refused(text: Seq<char>) -> bool {
    text.len() > 0 && fasta_lines(text).len() > 0 && is_header(fasta_lines(text)[0])
        && !pattern_compiles(TAX_PATTERN@)
}

/// The references of a database, as their lineages and their encoded
/// sequences, or the reason why the text cannot be read. The last sequence
/// counts also where it is empty, and there must be as many sequences as
/// headers.
pub open spec fn parsed_references(text: Seq<char>) -> Result<(Seq<Seq<char>>, Seq<Seq<u8>>), ParseError> {
    if text.len() == 0 {
        Err(ParseError::Empty)
    } else if fasta_lines(text).len() == 0 || !is_header(fasta_lines(text)[0]) {
        Err(ParseError::NotFasta)
    } else if !pattern_compiles(TAX_PATTERN@) {
        Err(ParseError::Pattern)
    } else {
        match read_references(fasta_lines(text)) {
            Err(error) => Err(error),
            Ok(state) => if state.lineages.len() != state.sequences.len() + 1 {
                Err(ParseError::CountMismatch)
            } else {
                Ok((state.lineages, state.sequences.push(state.current)))
            },
        }
    }
}

/// A database cannot be read once a start of it cannot, and for the same
/// reason.
pub proof fn lemma_read_references_error(lines: Seq<Seq<char>>, n: int)
    requires
        0 <= n <= lines.len(),
        read_references(lines.take(n)) is Err,
    ensures
        read_references(lines) == read_references(lines.take(n)),
    decreases lines.len() - n,
{
    if n < lines.len() {
        assert(lines.take(n + 1).drop_last() =~= lines.take(n));
        lemma_read_references_error(lines, n + 1);
    } else {
        assert(lines.take(n) =~= lines);
    }
}

/// The references of a database, as their lineages and their encoded
/// sequences, or the reason why the text cannot be read. The pattern for
/// the lineage is compiled once the text is seen to begin with a header; a
/// pattern that is refused ends the reading there.
pub fn reference_records(fasta_str: &str) -> (parsed: Result<(Vec<String>, Vec<Vec<u8>>), ParseError>)
    ensures
        parsed matches Ok(records) ==> parsed_references(fasta_str@) == Ok::<
            (Seq<Seq<char>>, Seq<Seq<u8>>),
            ParseError,
        >((views(records.0@), views(records.1@))),
        parsed matches Err(error) ==> parsed_references(fasta_str@) == Err::<
            (Seq<Seq<char>>, Seq<Seq<u8>>),
            ParseError,
        >(error),
        (parsed matches Err(ParseError::Pattern)) <==> pattern_is_refused(fasta_str@),
{
    if fasta_str.is_empty() {
        return Err(ParseError::Empty);
    }
    let lines = lines_that_count(fasta_str);
    let ghost all = fasta_lines(fasta_str@);
    if lines.len() == 0 || lines[0][0] != '>' {
        return Err(ParseError::NotFasta);
    }
    proof {
        assert(all[0] == lines@[0]@);
    }
    let pattern = match compile_pattern(TAX_PATTERN) {
        Ok(pattern) => pattern,
        Err(_) => {
            return Err(ParseError::Pattern);
        },
    };
    let mut lineages: Vec<String> = Vec::new();
    let mut sequences: Vec<Vec<u8>> = Vec::new();
    let mut current: Vec<u8> = Vec::new();
    let mut i: usize = 0;
    proof {
        assert(all.take(0) =~= Seq::<Seq<char>>::empty());
        assert(views(lineages@) =~= Seq::<Seq<char>>::empty());
        assert(views(sequences@) =~= Seq::<Seq<u8>>::empty());
        assert(current@ =~= Seq::<u8>::empty());
        assert(all[0] == lines@[0]@);
    }
    while i < lines.len()
        invariant
            i <= lines@.len(),
            views(lines@) == all,
            all == fasta_lines(fasta_str@),
            fasta_str@.len() > 0,
            all.len() > 0,
            is_header(all[0]),
            pattern_compiles(TAX_PATTERN@),
            pattern@ == TAX_PATTERN@,
            forall|k: int| 0 <= k < lines@.len() ==> counts(#[trigger] lines@[k]@),
            read_references(all.take(i as int)) == Ok::<ReferenceState, ParseError>(
                ReferenceState {
                    lineages: views(lineages@),
                    sequences: views(sequences@),
                    current: current@,
                },
            ),
        decreases lines@.len() - i,
    {
        let line = &lines[i];
        proof {
            assert(all[i as int] == line@);
            assert(all.take(i + 1).drop_last() =~= all.take(i as int));
            assert(all.take(i + 1).last() == all[i as int]);
            assert(counts(lines@[i as int]@));
        }
        if line[0] == '>' {
            let label = string_of(line, 1, line.len());
            proof {
                assert(line@.subrange(1, line@.len() as int) =~= line@.drop_first());
            }
            let lineage = match first_capture(&pattern, label.as_str()) {
                None => {
                    proof {
                        assert(read_references(all.take(i + 1)) == Err::<ReferenceState, ParseError>(
                            ParseError::MissingTaxonomy,
                        ));
                        lemma_read_references_error(all, i + 1);
                    }
                    return Err(ParseError::MissingTaxonomy);
                },
                Some(lineage) => lineage,
            };
            let ghost held = lineages@;
            lineages.push(lineage);
            proof {
                lemma_views_push(held, lineage);
            }
            if current.len() > 0 {
                let ghost held = sequences@;
                sequences.push(current);
                proof {
                    lemma_views_push(held, sequences@[sequences@.len() - 1]);
                    assert(sequences@ =~= held.push(sequences@[sequences@.len() - 1]));
                }
                current = Vec::new();
            }
            proof {
                assert(current@ =~= Seq::<u8>::empty());
            }
        } else {
            let known = encode_onto(line, &mut current);
            if !known {
                proof {
                    assert(!is_header(all.take(i + 1).last()));
                    assert(read_references(all.take(i + 1)) == Err::<ReferenceState, ParseError>(
                        ParseError::UnexpectedCharacter,
                    ));
                    lemma_read_references_error(all, i + 1);
                }
                return Err(ParseError::UnexpectedCharacter);
            }
        }
        i += 1;
    }
    proof {
        assert(all.take(lines@.len() as int) =~= all);
    }
    if sequences.len() >= lineages.len() || lineages.len() - sequences.len() != 1 {
        return Err(ParseError::CountMismatch);
    }
    let ghost held = sequences@;
    sequences.push(current);
    proof {
        lemma_views_push(held, sequences@[sequences@.len() - 1]);
        assert(sequences@ =~= held.push(sequences@[sequences@.len() - 1]));
    }
    Ok((lineages, sequences))
}

/// What indexing the references `lineages` and `sequences` gives: the index
/// of exactly these references, or the reason why there is none.
pub open spec fn index_of_references(
    built: Result<Tree, ParseError>,
    lineages: Seq<Seq<char>>,
    sequences: Seq<Seq<u8>>,
) -> bool {
    match built {
        Ok(tree) => is_built_from(Ok(tree), lineages, sequences),
        Err(ParseError::Index(error)) => is_built_from(Err(error), lineages, sequences),
        Err(_) => false,
    }
}

/// Reads a database and builds its index: the index of the references that
/// the text holds, or the reason why the text cannot be read or the
/// references cannot be indexed.
pub fn parse_reference_fasta_str(fasta_str: &str) -> (built: Result<Tree, ParseError>)
    ensures
        match parsed_references(fasta_str@) {
            Err(error) => built == Err::<Tree, ParseError>(error),
            Ok(records) => index_of_references(built, records.0, records.1),
        },
        (built matches Err(ParseError::Pattern)) <==> pattern_is_refused(fasta_str@),
{
    let (lineages, sequences) = match reference_records(fasta_str) {
        Err(error) => {
            return Err(error);
        },
        Ok(records) => records,
    };
    match Tree::new(lineages, sequences) {
        Ok(tree) => Ok(tree),
        Err(error) => Err(ParseError::Index(error)),
    }
}

} // verus!
