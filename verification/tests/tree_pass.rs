use tsreduce::dichotomy::DichotomyRun;
use tsreduce::job::JobStatus as Status;
use tsreduce::tree_sitter_replace::AnsweredNode;
use tsreduce::tree_sitter_replace::plan_from_answers;
use tsreduce::job::JobStatus;
use tsreduce::test::TestResult;
use tsreduce::tree_sitter_replace::NodeDesc;
use tsreduce::tree_sitter_replace::NodeMatcher;
use tsreduce::tree_sitter_replace::TreeSitterReplace;

struct MatchNothing;

impl NodeMatcher for MatchNothing {
    fn replacement(&self, _contents: &Vec<u8>, _node: &NodeDesc) -> Option<Vec<u8>> {
        None
    }
}

struct RemoveFunctions;

impl NodeMatcher for RemoveFunctions {
    fn replacement(&self, _contents: &Vec<u8>, node: &NodeDesc) -> Option<Vec<u8>> {
        if node.kind == "function_item" {
            Some(Vec::new())
        } else {
            None
        }
    }
}

fn rust_pass<M: NodeMatcher>(matcher: M) -> TreeSitterReplace<M> {
    TreeSitterReplace {
        language: tree_sitter_rust::language(),
        name: String::from("structural"),
        node_matcher: matcher,
        try_match_all_nodes: false,
    }
}

#[test]
fn matcher_without_matches_does_not_apply() {
    let pass = rust_pass(MatchNothing);
    let contents: Vec<u8> = b"A\nB\nC\nD\n".to_vec();
    assert!(pass.plan(&contents, 1).is_none());
}

#[test]
fn structural_plan_is_largest_first() {
    let pass = rust_pass(RemoveFunctions);
    let contents: Vec<u8> = b"fn f() { return 1; } fn g() { return 2; }".to_vec();
    let plan = pass.plan(&contents, 11).expect("two functions should match");
    assert!(!plan.is_empty());
    // The first attempt removes every matched node: both functions go.
    let first = String::from_utf8(plan[0].contents.clone()).unwrap();
    assert!(!first.contains("return 1"));
    assert!(!first.contains("return 2"));
    for i in 0..plan.len() {
        if i + 1 < plan.len() {
            assert!(plan[i].removed > plan[i + 1].removed, "covered bytes must strictly shrink");
        }
    }
}

fn contains(haystack: &[u8], needle: &str) -> bool {
    String::from_utf8_lossy(haystack).contains(needle)
}

/// One structural job over `contents`: interesting means `return 1` is
/// still present.
fn run_tree_once(contents: &Vec<u8>, seed: u64) -> Option<Vec<u8>> {
    let pass = rust_pass(RemoveFunctions);
    let plan = match pass.plan(contents, seed) {
        None => return None,
        Some(p) => p,
    };
    let mut run = DichotomyRun::new(plan);
    let mut last_written: Option<Vec<u8>> = None;
    while run.outcome().is_none() {
        match run.next_attempt() {
            None => break,
            Some((attempt, _n)) => {
                let interesting = contains(&attempt, "return 1");
                last_written = Some(attempt);
                run.record(if interesting {
                    TestResult::Interesting
                } else {
                    TestResult::NotInteresting
                });
            },
        }
    }
    match run.outcome() {
        Some(JobStatus::Reduced(_)) => last_written,
        Some(JobStatus::DidNotReduce) => None,
        other => panic!("unexpected outcome {:?}", other),
    }
}

#[test]
fn structural_reduction_removes_the_other_function() {
    let mut contents: Vec<u8> = b"fn f() { return 1; } fn g() { return 2; }".to_vec();
    let mut no_reduce_rounds = 0;
    let mut seed: u64 = 0;
    while no_reduce_rounds < 3 && seed < 1000 {
        match run_tree_once(&contents, seed) {
            Some(smaller) => {
                contents = smaller;
                no_reduce_rounds = 0;
            },
            None => {
                no_reduce_rounds += 1;
            },
        }
        seed += 1;
    }
    assert!(contains(&contents, "return 1"), "f must survive");
    assert!(!contains(&contents, "return 2"), "g must be removed");
}

#[test]
fn growth_guard_skips_nodes_inside_their_replacement() {
    // A matcher that would rewrite every identifier into a longer string
    // containing it is blocked by the substring guard.
    struct Grower;
    impl NodeMatcher for Grower {
        fn replacement(&self, contents: &Vec<u8>, node: &NodeDesc) -> Option<Vec<u8>> {
            if node.kind == "identifier" {
                let mut v = contents[node.start..node.end].to_vec();
                v.extend_from_slice(b"_longer");
                Some(v)
            } else {
                None
            }
        }
    }
    let pass = rust_pass(Grower);
    let contents: Vec<u8> = b"fn f() { let abc = 1; }".to_vec();
    assert!(pass.plan(&contents, 1).is_none());
}

fn answered_leaf(start: usize, end: usize, answer: Option<Vec<u8>>) -> AnsweredNode {
    AnsweredNode { start, end, answer, children: Vec::new() }
}

#[test]
fn collection_splices_exactly_the_answered_nodes() {
    // Contents "abcdefghij"; the matcher offered to delete bytes 0..5 and
    // to rewrite 7..9 (inside an unanswered parent) to "xx".
    let contents: Vec<u8> = b"abcdefghij".to_vec();
    let answered = vec![
        answered_leaf(0, 5, Some(Vec::new())),
        AnsweredNode {
            start: 6,
            end: 10,
            answer: None,
            children: vec![answered_leaf(7, 9, Some(b"xx".to_vec()))],
        },
    ];
    let plan =
        plan_from_answers(&contents, answered, false, 5, &String::from("structural")).unwrap();
    // First attempt: every collected range replaced at once.
    assert_eq!(plan[0].contents, b"fgxxj".to_vec());
    assert_eq!(plan[0].removed, 5 + 2);
}

#[test]
fn no_answers_mean_no_plan() {
    let contents: Vec<u8> = b"abcdefghij".to_vec();
    let answered = vec![
        answered_leaf(0, 5, None),
        answered_leaf(6, 10, None),
    ];
    assert!(plan_from_answers(&contents, answered, false, 5, &String::from("structural"))
        .is_none());
}

#[test]
fn missing_or_empty_plans_fail_the_pass() {
    assert!(matches!(DichotomyRun::start(None), Err(Status::PassFailed(_))));
    assert!(matches!(DichotomyRun::start(Some(Vec::new())), Err(Status::PassFailed(_))));
    let plan = tsreduce::remove_lines::RemoveLines::plan(&b"A\nB\n".to_vec(), 1).unwrap();
    assert!(DichotomyRun::start(Some(plan)).is_ok());
}
