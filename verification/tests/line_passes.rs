use tsreduce::dichotomy::DichotomyRun;
use tsreduce::job::JobStatus;
use tsreduce::lines::bytes_equal;
use tsreduce::lines::discard_whitespace;
use tsreduce::lines::logical_lines;
use tsreduce::remove_lines::RemoveLines;
use tsreduce::test::TestResult;

#[test]
fn logical_lines_split_and_chomp() {
    let s: Vec<u8> = b"ab\r\ncd\ne".to_vec();
    let spans = logical_lines(&s);
    assert_eq!(spans.len(), 3);
    assert_eq!(&s[spans[0].0..spans[0].1], b"ab");
    assert_eq!(&s[spans[1].0..spans[1].1], b"cd");
    assert_eq!(&s[spans[2].0..spans[2].1], b"e");
}

#[test]
fn remove_lines_rejects_binary() {
    let s: Vec<u8> = vec![0xff, 0xfe, 0x00];
    assert!(RemoveLines::plan(&s, 7).is_none());
}

#[test]
fn remove_lines_rejects_empty() {
    let s: Vec<u8> = Vec::new();
    assert!(RemoveLines::plan(&s, 7).is_none());
}

#[test]
fn remove_lines_attempts_differ_from_original() {
    let s: Vec<u8> = b"A\nB\nC\nD\n".to_vec();
    for seed in 0..20u64 {
        let plan = RemoveLines::plan(&s, seed).expect("text with lines must yield a plan");
        assert!(!plan.is_empty());
        // First attempt deletes every line.
        assert!(plan[0].contents.is_empty());
        for (i, a) in plan.iter().enumerate() {
            assert_ne!(a.contents, s, "attempt {i} returned the original");
            if i + 1 < plan.len() {
                assert!(a.removed > plan[i + 1].removed, "plan not strictly shrinking");
            }
        }
        // With more than one line, the final attempt deletes exactly one.
        assert_eq!(plan[plan.len() - 1].removed, 1);
    }
}

#[test]
fn discard_whitespace_trims_and_drops() {
    let s: Vec<u8> = b"a  \n\n b\t\n".to_vec();
    assert_eq!(discard_whitespace(&s), b"a\n b\n".to_vec());
}

#[test]
fn discard_whitespace_keeps_clean_files() {
    let s: Vec<u8> = b"a\nb\n".to_vec();
    assert_eq!(discard_whitespace(&s), s);
    assert!(tsreduce::discard_whitespace::DiscardWhitespace::plan(&s).is_none());
}

#[test]
fn discard_whitespace_pass_offers_one_attempt() {
    let s: Vec<u8> = b"a   \nb\n".to_vec();
    let plan = tsreduce::discard_whitespace::DiscardWhitespace::plan(&s).unwrap();
    assert_eq!(plan.len(), 1);
    assert_eq!(plan[0].contents, b"a\nb\n".to_vec());
}

#[test]
fn bytes_equal_compares_contents() {
    assert!(bytes_equal(&b"abc".to_vec(), &b"abc".to_vec()));
    assert!(!bytes_equal(&b"abc".to_vec(), &b"abd".to_vec()));
    assert!(!bytes_equal(&b"abc".to_vec(), &b"ab".to_vec()));
}

/// Runs the line-removal pass over `contents` once with the given seed and
/// an interestingness test that accepts contents containing `needle`.
/// Returns the reduced contents if the job reduced them.
fn run_remove_lines_once(contents: &Vec<u8>, seed: u64, needle: u8) -> Option<Vec<u8>> {
    let plan = match RemoveLines::plan(contents, seed) {
        None => return None,
        Some(p) => p,
    };
    let mut run = DichotomyRun::new(plan);
    let mut last_written: Option<Vec<u8>> = None;
    while run.outcome().is_none() {
        match run.next_attempt() {
            None => break,
            Some((attempt, _n)) => {
                let interesting = attempt.iter().any(|&b| b == needle);
                last_written = Some(attempt);
                run.record(if interesting {
                    TestResult::Interesting
                } else {
                    TestResult::NotInteresting
                });
            },
        }
    }
    match run.outcome() {
        Some(JobStatus::Reduced(_)) => last_written,
        Some(JobStatus::DidNotReduce) => None,
        other => panic!("unexpected outcome {:?}", other),
    }
}

#[test]
fn single_line_reduction_converges() {
    // File A\nB\nC\nD\n with a test that wants the letter B kept: the
    // reducer must end at exactly B\n.
    let mut contents: Vec<u8> = b"A\nB\nC\nD\n".to_vec();
    let mut no_reduce_rounds = 0;
    let mut seed: u64 = 0;
    while no_reduce_rounds < 3 && seed < 1000 {
        match run_remove_lines_once(&contents, seed, b'B') {
            Some(smaller) => {
                assert!(smaller != contents);
                contents = smaller;
                no_reduce_rounds = 0;
            },
            None => {
                no_reduce_rounds += 1;
            },
        }
        seed += 1;
    }
    assert_eq!(contents, b"B\n".to_vec());
}

#[test]
fn interrupted_test_interrupts_the_run() {
    let s: Vec<u8> = b"A\nB\nC\nD\n".to_vec();
    let plan = RemoveLines::plan(&s, 3).unwrap();
    let mut run = DichotomyRun::new(plan);
    let (_attempt, _n) = run.next_attempt().unwrap();
    run.record(TestResult::Interrupted);
    assert_eq!(*run.outcome(), Some(JobStatus::Interrupted));
}

#[test]
fn all_failures_mean_no_reduction() {
    let s: Vec<u8> = b"A\nB\n".to_vec();
    let plan = RemoveLines::plan(&s, 5).unwrap();
    let mut run = DichotomyRun::new(plan);
    while run.outcome().is_none() {
        match run.next_attempt() {
            Some(_) => run.record(TestResult::NotInteresting),
            None => break,
        }
    }
    assert_eq!(*run.outcome(), Some(JobStatus::DidNotReduce));
}
