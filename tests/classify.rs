use run_pear::names::file_name;
use run_pear::{classify, extension_vocabulary, get_extension, match_pair, PearError, ReadDirection};

#[test]
fn test_get_extension() {
    assert_eq!(get_extension("foo.fna"), Some("fna".to_string()));

    assert_eq!(get_extension("foo.fasta.gz"), Some("fasta.gz".to_string()));

    assert_eq!(get_extension("foo.fa.gz"), Some("fa.gz".to_string()));

    assert_eq!(get_extension("foo.fasta"), Some("fasta".to_string()));

    assert_eq!(get_extension("foo.fq"), Some("fq".to_string()));

    assert_eq!(get_extension("foo"), None);
}

#[test]
fn test_classify() {
    assert!(classify(&["ERR1711926.fastq.gz".to_string()]).is_err());

    let res = classify(&[
        "/foo/bar/ERR1711926_1.fastq.gz".to_string(),
        "/foo/bar/ERR1711926_2.fastq.gz".to_string(),
        "/foo/bar/ERR1711927-R1.fastq.gz".to_string(),
        "/foo/bar/ERR1711927_R2.fastq.gz".to_string(),
        "/foo/bar/ERR1711928.fastq.gz".to_string(),
        "/foo/bar/ERR1711929_1.fastq.gz".to_string(),
    ]);
    assert!(res.is_ok());

    if let Ok(res) = res {
        assert!(res.len() == 2);
        assert!(res.contains_key("ERR1711926"));
        assert!(res.contains_key("ERR1711927"));
        assert!(!res.contains_key("ERR1711928"));
        assert!(!res.contains_key("ERR1711929"));

        if let Some(val) = res.get("ERR1711926") {
            assert!(val.contains_key(&ReadDirection::Forward));
            assert!(val.contains_key(&ReadDirection::Reverse));

            if let Some(fwd) = val.get(&ReadDirection::Forward) {
                assert_eq!(fwd, &"/foo/bar/ERR1711926_1.fastq.gz");
            }
            if let Some(rev) = val.get(&ReadDirection::Reverse) {
                assert_eq!(rev, &"/foo/bar/ERR1711926_2.fastq.gz");
            }
        }

        if let Some(val) = res.get("ERR1711927") {
            assert!(val.contains_key(&ReadDirection::Forward));
            assert!(val.contains_key(&ReadDirection::Reverse));

            if let Some(fwd) = val.get(&ReadDirection::Forward) {
                assert_eq!(fwd, &"/foo/bar/ERR1711927-R1.fastq.gz");
            }
            if let Some(rev) = val.get(&ReadDirection::Reverse) {
                assert_eq!(rev, &"/foo/bar/ERR1711927_R2.fastq.gz");
            }
        }
    }
}

fn strings(v: &[&str]) -> Vec<String> {
    v.iter().map(|s| s.to_string()).collect()
}

#[test]
fn extension_edge_cases() {
    assert_eq!(get_extension("reads.gz"), Some("gz".to_string()));
    assert_eq!(get_extension("a..gz"), Some("gz".to_string()));
    assert_eq!(get_extension("x.gz.gz"), Some("gz.gz".to_string()));
    assert_eq!(get_extension("foo."), None);
    assert_eq!(get_extension(""), None);
    assert_eq!(get_extension("dir.d/foo"), None);
    assert_eq!(get_extension("/a.b/c/reads.fq.gz"), Some("fq.gz".to_string()));
}

#[test]
fn single_unmatched_file_gives_no_pairs() {
    let r = classify(&strings(&["ERR1711926.fastq.gz"]));
    assert!(matches!(r, Err(PearError::NoPairs)));
}

#[test]
fn vocabulary_is_distinct_and_first_seen() {
    let v = extension_vocabulary(&strings(&["a_1.fq", "b_1.fa.gz", "a_2.fq", "c", "b_2.fa.gz", "d.fq"]));
    assert_eq!(v, strings(&["fq", "fa.gz"]));
    let w = extension_vocabulary(&strings(&["d.fq", "b_2.fa.gz", "c", "a_2.fq", "b_1.fa.gz", "a_1.fq"]));
    assert_eq!(w, strings(&["fq", "fa.gz"]));
    let u = extension_vocabulary(&strings(&["b_2.fa.gz", "d.fq", "a_1.fq"]));
    assert_eq!(u, strings(&["fa.gz", "fq"]));
}

#[test]
fn classification_ignores_input_order_of_extensions() {
    let a = classify(&strings(&["s_1.fq", "t_1.fa", "s_2.fq", "t_2.fa"])).unwrap();
    let b = classify(&strings(&["t_2.fa", "s_2.fq", "t_1.fa", "s_1.fq"])).unwrap();
    assert_eq!(a.len(), 2);
    assert_eq!(b.len(), 2);
    assert!(a.contains_key("s") && a.contains_key("t"));
    assert!(b.contains_key("s") && b.contains_key("t"));
}

#[test]
fn surviving_groups_have_both_reads() {
    let r = classify(&strings(&["x_1.fq", "x_2.fq", "y_1.fq", "z_R2.fq", "w-r1.fq", "w-r2.fq"])).unwrap();
    assert_eq!(r.len(), 2);
    for g in r.groups() {
        assert!(g.pair.forward.is_some());
        assert!(g.pair.reverse.is_some());
    }
    assert!(!r.contains_key("y"));
    assert!(!r.contains_key("z"));
    assert_eq!(r.get("w").unwrap().get(&ReadDirection::Forward).unwrap(), "w-r1.fq");
}

#[test]
fn later_file_wins_for_same_read() {
    let r = classify(&strings(&["a/s_1.fq", "a/s_2.fq", "b/s_1.fq"])).unwrap();
    let p = r.get("s").unwrap();
    assert_eq!(p.get(&ReadDirection::Forward).unwrap(), "b/s_1.fq");
    assert_eq!(p.get(&ReadDirection::Reverse).unwrap(), "a/s_2.fq");
}

#[test]
fn pattern_reads_markers() {
    let vocab = strings(&["fq", "fastq.gz"]);
    assert_eq!(match_pair("s_1.fq", &vocab), Some(("s".to_string(), ReadDirection::Forward)));
    assert_eq!(match_pair("s_2.fq", &vocab), Some(("s".to_string(), ReadDirection::Reverse)));
    assert_eq!(match_pair("s-R1.fastq.gz", &vocab), Some(("s".to_string(), ReadDirection::Forward)));
    assert_eq!(match_pair("s_r2.fq", &vocab), Some(("s".to_string(), ReadDirection::Reverse)));
    assert_eq!(match_pair("s_R.fq", &vocab), None);
    assert_eq!(match_pair("s_.fq", &vocab), None);
    assert_eq!(match_pair("a_1_2.fq", &vocab), Some(("a_1".to_string(), ReadDirection::Reverse)));
    assert_eq!(match_pair("a_1.fastq", &vocab), None);
    assert_eq!(match_pair("_1.fq", &vocab), None);
    assert_eq!(match_pair("s_3.fq", &vocab), None);
    assert_eq!(match_pair("s1.fq", &vocab), None);
    assert_eq!(match_pair("s_1.fq.gz", &vocab), None);
}

#[test]
fn error_messages() {
    assert_eq!(PearError::NoPairs.message(), "No pairs");
    assert_eq!(PearError::NoInputFiles.message(), "No input files");
    assert_eq!(PearError::JobsFailed.message(), "Failed to run jobs in parallel");
}

#[test]
fn unmarked_file_pairs_with_nothing() {
    let r = classify(&strings(&["S_1.fq", "S_.fq"]));
    assert!(matches!(r, Err(PearError::NoPairs)));
    let r = classify(&strings(&["S_1.fq", "S_2.fq", "S_.fq", "S_R.fq"])).unwrap();
    let p = r.get("S").unwrap();
    assert_eq!(p.get(&ReadDirection::Forward).unwrap(), "S_1.fq");
    assert_eq!(p.get(&ReadDirection::Reverse).unwrap(), "S_2.fq");
}

#[test]
fn file_names_follow_path_parts() {
    assert_eq!(file_name("a/b.fq"), Some("b.fq"));
    assert_eq!(file_name("a/b.fq/"), Some("b.fq"));
    assert_eq!(file_name("x/foo.txt/."), Some("foo.txt"));
    assert_eq!(file_name("a/./"), Some("a"));
    assert_eq!(file_name("..."), Some("..."));
    assert_eq!(file_name("a/.."), None);
    assert_eq!(file_name("."), None);
    assert_eq!(file_name("/"), None);
    assert_eq!(file_name(""), None);
    assert_eq!(get_extension("a/b.fq/"), Some("fq".to_string()));
    assert_eq!(get_extension("x/foo.txt/."), Some("txt".to_string()));
    assert_eq!(get_extension("x/y.gz/.."), None);
}

#[test]
fn pairs_found_through_trailing_separators() {
    let r = classify(&strings(&["d/s_1.fq/", "d/s_2.fq/."])).unwrap();
    let p = r.get("s").unwrap();
    assert_eq!(p.get(&ReadDirection::Forward).unwrap(), "d/s_1.fq/");
    assert_eq!(p.get(&ReadDirection::Reverse).unwrap(), "d/s_2.fq/.");
}

#[test]
fn list_given_twice_classifies_alike() {
    let once = strings(&["d/a_1.fq", "d/a_2.fq", "e/a_1.fq", "b_R1.fa.gz", "b_R2.fa.gz", "c_1.fq"]);
    let mut twice = once.clone();
    twice.extend(once.clone());
    let a = classify(&once).unwrap();
    let b = classify(&twice).unwrap();
    assert_eq!(a.len(), b.len());
    for (g, h) in a.groups().iter().zip(b.groups().iter()) {
        assert_eq!(g.sample, h.sample);
        assert_eq!(g.pair.forward, h.pair.forward);
        assert_eq!(g.pair.reverse, h.pair.reverse);
    }
    assert_eq!(a.get("a").unwrap().get(&ReadDirection::Forward).unwrap(), "e/a_1.fq");
}

#[test]
fn permuted_list_keeps_samples_and_reads() {
    let p = strings(&["d/s_1.fq", "d/t-R1.fa.gz", "d/s_2.fq", "d/t-R2.fa.gz", "d/u_1.fq"]);
    let q = strings(&["d/u_1.fq", "d/t-R2.fa.gz", "d/s_2.fq", "d/t-R1.fa.gz", "d/s_1.fq", "d/s_2.fq"]);
    let a = classify(&p).unwrap();
    let b = classify(&q).unwrap();
    assert_eq!(a.len(), b.len());
    for g in a.groups() {
        let h = b.get(&g.sample).unwrap();
        assert_eq!(&g.pair.forward, &h.forward);
        assert_eq!(&g.pair.reverse, &h.reverse);
    }
}
