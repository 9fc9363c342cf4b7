use raxtax::parser::{char_is_whitespace, map_dna_char, parse_query_fasta_str, trimmed, ParseError};
use raxtax::utils::{decode_sequence, decompress_sequences, kmer_at, map_four_to_two_bit_repr, sequence_to_kmers};

#[test]
fn test_map() {
    assert_eq!(map_four_to_two_bit_repr(1), Some(0));
    assert_eq!(map_four_to_two_bit_repr(2), Some(1));
    assert_eq!(map_four_to_two_bit_repr(4), Some(2));
    assert_eq!(map_four_to_two_bit_repr(8), Some(3));
    assert_eq!(map_four_to_two_bit_repr(10), None);
}

#[test]
fn test_sequence_to_kmers() {
    let sequence = vec![1, 2, 1, 4, 8, 2, 8, 4, 1, 4, 8, 2, 8, 4, 1, 4];
    let kmers = sequence_to_kmers(&sequence);
    assert!(kmers.windows(2).all(|w| w[0] <= w[1]));
    assert_eq!(
        kmers,
        vec![
            0b0001_0010_1101_1110,
            0b0010_1101_1110_0010,
            0b0100_1011_0111_1000,
            0b0111_1000_1011_0111,
            0b1000_1011_0111_1000,
            0b1011_0111_1000_1011,
            0b1101_1110_0010_1101,
            0b1110_0010_1101_1110,
        ],
    );
}

#[test]
fn test_decompress_sequence() {
    let sequence = vec![(
        String::from("label1"),
        vec![1_u8, 2, 1, 4, 8, 2, 8, 4, 1, 4, 8, 2, 8, 4, 1, 4],
    )];
    let decompressed = decompress_sequences(&sequence);
    assert_eq!(decompressed, vec![String::from("ACAGTCTGAGTCTGAG")]);
}

#[test]
fn test_query_parser() {
    let fasta_str = r">label1
AAACCCTTTGGGA";
    let (_, sequence) = &parse_query_fasta_str(fasta_str).unwrap()[0];
    assert_eq!(sequence, &[1, 1, 1, 2, 2, 2, 8, 8, 8, 4, 4, 4, 1]);

    let fasta_str2 = r">label1
ACGTWSMKRYBDHVN";
    let (_, sequence) = &parse_query_fasta_str(fasta_str2).unwrap()[0];
    assert_eq!(
        sequence,
        &[1, 2, 4, 8, 9, 6, 3, 12, 5, 10, 14, 13, 11, 7, 15]
    );
}

#[test]
fn codes_of_letters_in_either_case() {
    let upper = "ACGTWSMKRYBDHVN";
    let lower = "acgtwsmkrybdhvn";
    let codes = [1u8, 2, 4, 8, 9, 6, 3, 12, 5, 10, 14, 13, 11, 7, 15];
    for ((u, l), code) in upper.chars().zip(lower.chars()).zip(codes) {
        assert_eq!(map_dna_char(u), Some(code));
        assert_eq!(map_dna_char(l), Some(code));
    }
    assert_eq!(map_dna_char('X'), None);
    assert_eq!(map_dna_char('-'), None);
    assert_eq!(map_dna_char(' '), None);
}

#[test]
fn encode_then_decode_is_identity_on_bases() {
    let text = "ACGTTGCAACGT";
    let queries = parse_query_fasta_str(&format!(">q\n{text}")).unwrap();
    let letters: String = decode_sequence(&queries[0].1).into_iter().collect();
    assert_eq!(letters, text);
    assert_eq!(queries[0].1[..4], [1, 2, 4, 8]);
}

#[test]
fn decode_writes_a_dash_for_ambiguity() {
    let letters: String = decode_sequence(&vec![1, 9, 2, 15, 0, 8, 4, 16]).into_iter().collect();
    assert_eq!(letters, "A-C--TG-");
}

#[test]
fn key_of_a_window_puts_the_first_base_in_the_top_bits() {
    // T A A A A A A C: 11 00 00 00 00 00 00 01
    let sequence = vec![8u8, 1, 1, 1, 1, 1, 1, 2];
    assert_eq!(kmer_at(&sequence, 0), Some(0b1100_0000_0000_0001));
    assert_eq!(sequence_to_kmers(&sequence), vec![0b1100_0000_0000_0001]);
    let all_t = vec![8u8; 8];
    assert_eq!(kmer_at(&all_t, 0), Some(u16::MAX));
}

#[test]
fn short_and_ambiguous_sequences_have_no_kmers() {
    assert!(sequence_to_kmers(&[]).is_empty());
    assert!(sequence_to_kmers(&[1, 2, 4, 8, 1, 2, 4]).is_empty());
    assert!(sequence_to_kmers(&[15u8; 40]).is_empty());
    // one ambiguous base spoils the eight windows that hold it
    let mut sequence = vec![1u8; 16];
    sequence[8] = 3;
    assert_eq!(sequence_to_kmers(&sequence), vec![0]);
    sequence[8] = 1;
    sequence[7] = 3;
    assert!(sequence_to_kmers(&sequence[..15]).is_empty());
}

#[test]
fn kmers_are_listed_once() {
    let sequence = vec![1u8; 30];
    assert_eq!(sequence_to_kmers(&sequence), vec![0]);
}

#[test]
fn query_parser_reads_several_queries() {
    let text = "; a comment\n\n  >first one \nACGT\n acgt \n>second\n>third\nNN\n>last\n";
    let queries = parse_query_fasta_str(text).unwrap();
    assert_eq!(
        queries,
        vec![
            (String::from("first one"), vec![1, 2, 4, 8, 1, 2, 4, 8]),
            (String::from("third"), vec![15, 15]),
            (String::from("last"), vec![]),
        ]
    );
}

#[test]
fn query_parser_takes_windows_line_ends() {
    let queries = parse_query_fasta_str(">q1\r\nAC\r\nGT\r\n").unwrap();
    assert_eq!(queries, vec![(String::from("q1"), vec![1, 2, 4, 8])]);
}

#[test]
fn query_parser_errors() {
    assert_eq!(parse_query_fasta_str(""), Err(ParseError::Empty));
    assert_eq!(parse_query_fasta_str("ACGT\n>q"), Err(ParseError::NotFasta));
    assert_eq!(parse_query_fasta_str("\n ; only a comment\n"), Err(ParseError::NotFasta));
    assert_eq!(parse_query_fasta_str(">q\nACXT"), Err(ParseError::UnexpectedCharacter));
    assert_eq!(parse_query_fasta_str(">q\nAC GT"), Err(ParseError::UnexpectedCharacter));
}

#[test]
fn white_space_is_what_the_standard_library_takes_for_it() {
    let mut white = 0;
    for code in 0..=0x10ffffu32 {
        if let Some(c) = char::from_u32(code) {
            assert_eq!(char_is_whitespace(c), c.is_whitespace(), "U+{code:04X}");
            if char_is_whitespace(c) {
                white += 1;
            }
        }
    }
    assert_eq!(white, 25);
}

#[test]
fn lines_are_trimmed_as_the_standard_library_trims() {
    for text in ["", " ", "a", "  a b  ", "\t\r\nACGT\u{a0}\u{3000}", "\u{2003}x\u{85}", "x\u{200b}", "\u{feff}x "] {
        let out: String = trimmed(&text.chars().collect()).into_iter().collect();
        assert_eq!(out, text.trim());
    }
}
