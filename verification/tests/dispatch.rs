use raxtax::io::{decide_start, first_field_of, pending_queries, retain_done_lines, Checkpoint, FileFingerprint, LabelSet, OutputOptions, Start};
use raxtax::lineage::{Lineage, LineageRow};
use raxtax::parser::parse_reference_fasta_str;
use raxtax::prob::{class_index, class_of_each, has_full_intersection, intersection_size_counts};
use raxtax::raxtax::{chunk_size, clear_counts, exact_matches, exact_matches_agree, intersect, profile_query, report_lineages, text_before_last};
use raxtax::tree::Tree;
use raxtax::utils::sequence_to_kmers;

fn encode(text: &str) -> Vec<u8> {
    text.chars()
        .map(|c| match c {
            'A' => 1,
            'C' => 2,
            'G' => 4,
            'T' => 8,
            _ => 15,
        })
        .collect()
}

fn database() -> Tree {
    let fasta_str = ">r0;tax=k,a,x;\nAAACCCCGTACGT\n\
                     >r1;tax=k,a,y;\nTTTAAAACCGGTT\n\
                     >r2;tax=k,b,z;\nAAACCCCGTACGA\n\
                     >r3;tax=k,a,x;\nAAACCCCGTACGT\n\
                     >r4;tax=k,b,z;\nGGGGGGGG\n";
    parse_reference_fasta_str(fasta_str).unwrap()
}

#[test]
fn exact_matches_of_a_query() {
    let tree = database();
    assert_eq!(tree.lineages, vec!["k,a,x", "k,a,x", "k,a,y", "k,b,z", "k,b,z"]);
    assert_eq!(exact_matches(&tree, &encode("AAACCCCGTACGT")), vec![0, 1]);
    assert_eq!(exact_matches(&tree, &encode("GGGGGGGG")), vec![4]);
    assert_eq!(exact_matches(&tree, &encode("GGGGGGGGG")), Vec::<u32>::new());
    assert!(exact_matches_agree(&tree, &vec![0, 1]));
    assert!(exact_matches_agree(&tree, &vec![0, 1, 2]));
    assert!(!exact_matches_agree(&tree, &vec![0, 3]));
    assert!(exact_matches_agree(&tree, &vec![]));
    assert!(exact_matches_agree(&tree, &vec![4]));
}

#[test]
fn text_before_the_last_comma() {
    let head = |text: &str| -> String {
        text_before_last(&text.chars().collect(), ',').into_iter().collect()
    };
    assert_eq!(head("k,a,x"), "k,a");
    assert_eq!(head("k,a,"), "k,a");
    assert_eq!(head(",x"), "");
    assert_eq!(head("kax"), "");
    assert_eq!(head(""), "");
}

#[test]
fn intersections_count_shared_kmers() {
    let tree = database();
    let query = encode("AAACCCCGTACGT");
    let k_mers = sequence_to_kmers(&query);
    assert_eq!(k_mers.len(), 6);
    let mut buffer = vec![77u16; tree.num_tips];
    intersect(&tree, &k_mers, &mut buffer);
    // rows 0 and 1 are the query itself, row 3 differs in its last base
    assert_eq!(buffer, vec![6, 6, 0, 5, 0]);
    clear_counts(&mut buffer, &vec![1, 3]);
    assert_eq!(buffer, vec![6, 0, 0, 0, 0]);
}

#[test]
fn profile_of_a_query() {
    let tree = database();
    let query = encode("AAACCCCGTACGT");
    let mut buffer = vec![0u16; tree.num_tips];
    let profile = profile_query(&tree, &query, false, &mut buffer).unwrap();
    assert_eq!(profile.exact_matches, vec![0, 1]);
    assert!(profile.exact_matches_agree);
    assert_eq!(profile.k_mers, sequence_to_kmers(&query));
    assert_eq!(profile.num_trials, 3);
    assert_eq!(buffer, vec![6, 6, 0, 5, 0]);
    let profile = profile_query(&tree, &query, true, &mut buffer).unwrap();
    assert_eq!(profile.exact_matches, vec![0, 1]);
    assert_eq!(buffer, vec![0, 0, 0, 5, 0]);
}

#[test]
fn a_query_without_kmers_shares_nothing() {
    let tree = database();
    for query in [encode("ACGTACG"), encode("NNNNNNNNNNNN"), vec![]] {
        let mut buffer = vec![9u16; tree.num_tips];
        let profile = profile_query(&tree, &query, false, &mut buffer).unwrap();
        assert!(profile.k_mers.is_empty());
        assert_eq!(profile.num_trials, 0);
        assert_eq!(buffer, vec![0; 5]);
    }
}

#[test]
fn skipping_the_only_reference_leaves_no_count() {
    let tree = parse_reference_fasta_str(">r;tax=k,a,x;\nAAACCCCGTACGT\n").unwrap();
    let query = encode("AAACCCCGTACGT");
    let mut buffer = vec![0u16; 1];
    profile_query(&tree, &query, false, &mut buffer).unwrap();
    assert_eq!(buffer, vec![6]);
    let profile = profile_query(&tree, &query, true, &mut buffer).unwrap();
    assert_eq!(profile.exact_matches, vec![0]);
    assert_eq!(buffer, vec![0]);
    // without mass the one lineage is reported by collapsing the trie
    let label = String::from("q");
    let rows = Lineage::new(&label, &tree, vec![0], 1).evaluate();
    assert_eq!(rows.len(), 1);
    assert_eq!(rows[0].lineage_index, 0);
    assert_eq!(rows[0].confidence, vec![1, 1, 1]);
}

fn two_rows() -> Vec<LineageRow> {
    vec![
        LineageRow { lineage_index: 3, confidence: vec![90, 60, 60], expected: vec![5, 2, 2] },
        LineageRow { lineage_index: 0, confidence: vec![90, 30, 30], expected: vec![5, 3, 2] },
    ]
}

#[test]
fn one_exact_match_is_reported_as_certain() {
    let tree = database();
    let label = String::from("q");
    let local = vec![11, 22];
    let results = report_lineages(&label, &tree, two_rows(), &local, 33, &vec![2], false, false);
    assert_eq!(results.len(), 2);
    assert_eq!(results[0].query_label, "q");
    assert_eq!(results[0].lineage, "k,a,y");
    assert_eq!(results[0].confidence_values, vec![100, 100, 100]);
    assert_eq!(results[0].local_signal, 11);
    assert_eq!(results[0].global_signal, 33);
    assert_eq!(results[0].get_output_string(), "q\tk,a,y\t1.00,1.00,1.00\t0.00011\t0.00033");
    // the rows behind the best row stay as they were evaluated
    assert_eq!(results[1].lineage, "k,a,x");
    assert_eq!(results[1].confidence_values, vec![90, 30, 30]);
    assert_eq!(results[1].local_signal, 22);
    assert_eq!(results[1].global_signal, 33);
    // a lineage of two ranks is certain at two ranks
    let short = Tree::new(vec![String::from("k,a"), String::from("k,b,c")], vec![vec![1; 9], vec![2; 9]])
        .unwrap();
    let rows = vec![LineageRow { lineage_index: 1, confidence: vec![70, 70, 70], expected: vec![2, 1, 1] }];
    let results = report_lineages(&label, &short, rows, &vec![5], 6, &vec![0], false, false);
    assert_eq!(results.len(), 1);
    assert_eq!(results[0].lineage, "k,a");
    assert_eq!(results[0].confidence_values, vec![100, 100]);
    assert_eq!(results[0].local_signal, 5);
}

#[test]
fn rows_are_reported_as_they_are_otherwise() {
    let tree = database();
    let label = String::from("q");
    let local = vec![11, 22];
    for (exact, skip, raw) in [
        (vec![2], true, false),
        (vec![2], false, true),
        (vec![2], true, true),
        (vec![], false, false),
        (vec![0, 1], false, false),
    ] {
        let results = report_lineages(&label, &tree, two_rows(), &local, 33, &exact, skip, raw);
        assert_eq!(results.len(), 2);
        assert_eq!(results[0].lineage, "k,b,z");
        assert_eq!(results[0].confidence_values, vec![90, 60, 60]);
        assert_eq!(results[0].local_signal, 11);
        assert_eq!(results[1].lineage, "k,a,x");
        assert_eq!(results[1].confidence_values, vec![90, 30, 30]);
        assert_eq!(results[1].local_signal, 22);
        assert!(results.iter().all(|r| r.global_signal == 33 && r.query_label == "q"));
    }
}

#[test]
fn classes_of_intersection_sizes() {
    let sizes = [3u16, 0, 7, 3, 3, 0, 65535];
    let classes = intersection_size_counts(&sizes);
    assert_eq!(classes, vec![(0, 2), (3, 3), (7, 1), (65535, 1)]);
    assert_eq!(class_of_each(&sizes, &classes), vec![1, 0, 2, 1, 1, 0, 3]);
    assert_eq!(class_index(&classes, 7), Some(2));
    assert_eq!(class_index(&classes, 8), None);
    assert!(has_full_intersection(&classes, 7));
    assert!(!has_full_intersection(&classes, 6));
    assert!(intersection_size_counts(&[]).is_empty());
}

#[test]
fn chunk_sizes() {
    assert_eq!(chunk_size(0, 1), 0);
    assert_eq!(chunk_size(12345, 1), 12345);
    assert_eq!(chunk_size(12345, 4), 309);
    assert_eq!(chunk_size(12000, 4), 300);
    assert_eq!(chunk_size(12001, 4), 301);
    assert_eq!(chunk_size(4000, 4), 100);
    assert_eq!(chunk_size(4001, 4), 101);
    assert_eq!(chunk_size(10, 8), 100);
    assert_eq!(chunk_size(0, 8), 100);
    assert_eq!(chunk_size(usize::MAX, usize::MAX), 100);
    assert_eq!(chunk_size(usize::MAX, 2), usize::MAX / 20 + 1);
}

fn fingerprint(path: &str, size: u64, modified: u64) -> FileFingerprint {
    FileFingerprint { path: path.into(), size, modified }
}

#[test]
fn a_checkpoint_is_taken_up_by_the_same_run_only() {
    let checkpoint = Checkpoint {
        checkpoint_file: "out/raxtax.ckp".into(),
        progress_file: "out/raxtax.progress".into(),
        db_fingerprint: fingerprint("/db.fasta", 10, 20),
        raw_confidence: false,
        skip_exact_matches: true,
        tsv: false,
        processed_queries: LabelSet::default(),
    };
    let same = OutputOptions { skip_exact_matches: true, raw_confidence: false, tsv: false };
    assert!(same.checkpoint_valid(&checkpoint, &Some(fingerprint("/db.fasta", 10, 20))));
    assert!(!same.checkpoint_valid(&checkpoint, &None));
    assert!(!same.checkpoint_valid(&checkpoint, &Some(fingerprint("/db.fasta", 11, 20))));
    assert!(!same.checkpoint_valid(&checkpoint, &Some(fingerprint("/db.fasta", 10, 21))));
    assert!(!same.checkpoint_valid(&checkpoint, &Some(fingerprint("/other.fasta", 10, 20))));
    for other in [
        OutputOptions { skip_exact_matches: false, raw_confidence: false, tsv: false },
        OutputOptions { skip_exact_matches: true, raw_confidence: true, tsv: false },
        OutputOptions { skip_exact_matches: true, raw_confidence: false, tsv: true },
    ] {
        assert!(!other.checkpoint_valid(&checkpoint, &Some(fingerprint("/db.fasta", 10, 20))));
    }
    assert!(fingerprint("a", 1, 2).matches(&fingerprint("a", 1, 2)));
    assert!(!fingerprint("a", 1, 2).matches(&fingerprint("b", 1, 2)));
}

#[test]
fn how_a_run_begins() {
    assert_eq!(decide_start(true, true, true, true), Start::Overwrite);
    assert_eq!(decide_start(true, false, false, true), Start::Overwrite);
    assert_eq!(decide_start(false, true, true, true), Start::Resume);
    assert_eq!(decide_start(false, true, false, true), Start::Fresh);
    assert_eq!(decide_start(false, false, false, true), Start::Refuse);
    assert_eq!(decide_start(false, false, true, true), Start::Refuse);
    assert_eq!(decide_start(false, false, false, false), Start::Fresh);
}

#[test]
fn first_field_of_a_line() {
    let field = |line: &str| -> String { first_field_of(&line.chars().collect()).into_iter().collect() };
    assert_eq!(field("q1\tk,a\t1.00"), "q1");
    assert_eq!(field("q1"), "q1");
    assert_eq!(field("\tq1"), "");
    assert_eq!(field(""), "");
}

#[test]
fn a_later_run_takes_up_where_the_earlier_one_stopped() {
    let queries: Vec<(String, Vec<u8>)> =
        (0..6).map(|i| (format!("query {i}"), vec![1u8 << (i % 4); 9])).collect();
    let lines_of = |query: &(String, Vec<u8>)| -> Vec<String> {
        (0..=query.1[0] as usize % 3).map(|k| format!("{}\tlineage{}\t0.5", query.0, k)).collect()
    };
    let single_shot: Vec<String> = queries.iter().flat_map(|q| lines_of(q)).collect();
    for done_count in 0..queries.len() {
        // the earlier run wrote the lines of a prefix, in some order
        let mut written: Vec<String> = queries[..done_count].iter().flat_map(|q| lines_of(q)).collect();
        written.reverse();
        let mut done = LabelSet::default();
        for query in &queries[..done_count] {
            done.insert(query.0.clone());
        }
        let kept = retain_done_lines(written.clone(), &done);
        assert_eq!(kept, written);
        let pending = pending_queries(queries.clone(), &done);
        assert_eq!(pending, queries[done_count..].to_vec());
        let mut resumed: Vec<String> = kept;
        resumed.extend(pending.iter().flat_map(|q| lines_of(q)));
        resumed.sort();
        let mut expected = single_shot.clone();
        expected.sort();
        assert_eq!(resumed, expected);
    }
}

#[test]
fn lines_of_queries_that_are_not_done_are_dropped() {
    let mut done = LabelSet::default();
    done.insert(String::from("q1"));
    done.insert(String::from("q3"));
    let lines: Vec<String> = ["q1\ta", "q2\tb", "q3\tc", "q1 \td", "q3", "\tq1", "q1\t"]
        .iter()
        .map(|l| l.to_string())
        .collect();
    assert_eq!(retain_done_lines(lines, &done), vec!["q1\ta", "q3\tc", "q3", "q1\t"]);
    let queries = vec![
        (String::from("q3"), vec![1]),
        (String::from("q4"), vec![2]),
        (String::from("q1"), vec![4]),
        (String::from("Q1"), vec![8]),
    ];
    assert_eq!(
        pending_queries(queries, &done),
        vec![(String::from("q4"), vec![2]), (String::from("Q1"), vec![8])]
    );
}
