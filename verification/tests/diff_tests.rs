use divot::diff::hunks_to_changes;
use divot::engine::Hunk;
use divot::{char_diff, line_diff, unified_diff, word_diff, Algorithm, Change};

fn sides(changes: &[Change<'_>]) -> (String, String) {
    let before: String = changes.iter().filter(|c| !c.added).map(|c| c.value).collect();
    let after: String = changes.iter().filter(|c| !c.removed).map(|c| c.value).collect();
    (before, after)
}

fn well_formed(changes: &[Change<'_>]) {
    for c in changes {
        assert!(c.count > 0);
        assert!(!c.value.is_empty());
        assert!(!(c.added && c.removed));
    }
}

#[test]
fn line_diff_reconstructs_before_and_after() {
    let before = "abc\ndef\nghi\n";
    let after = "abc\nDEF\nghi\n";
    let changes = line_diff(before, after, Algorithm::Histogram);

    let reconstructed_before: String = changes.iter().filter(|c| !c.added).map(|c| c.value).collect();
    let reconstructed_after: String = changes.iter().filter(|c| !c.removed).map(|c| c.value).collect();

    assert_eq!(reconstructed_before, before);
    assert_eq!(reconstructed_after, after);
}

#[test]
fn line_diff_identical_input_is_all_unchanged() {
    let text = "same\nlines\n";
    let changes = line_diff(text, text, Algorithm::Histogram);
    assert_eq!(changes.len(), 1);
    assert!(!changes[0].added && !changes[0].removed);
    assert_eq!(changes[0].value, text);
}

#[test]
fn word_diff_reconstructs_before_and_after() {
    let before = "the quick brown fox";
    let after = "the slow brown fox";
    let changes = word_diff(before, after, Algorithm::Histogram);

    let reconstructed_before: String = changes.iter().filter(|c| !c.added).map(|c| c.value).collect();
    let reconstructed_after: String = changes.iter().filter(|c| !c.removed).map(|c| c.value).collect();

    assert_eq!(reconstructed_before, before);
    assert_eq!(reconstructed_after, after);
    assert!(changes.iter().any(|c| c.removed && c.value == "quick"));
    assert!(changes.iter().any(|c| c.added && c.value == "slow"));
}

#[test]
fn char_diff_reconstructs_before_and_after() {
    let before = "cat";
    let after = "cot";
    let changes = char_diff(before, after, Algorithm::Histogram);

    let reconstructed_before: String = changes.iter().filter(|c| !c.added).map(|c| c.value).collect();
    let reconstructed_after: String = changes.iter().filter(|c| !c.removed).map(|c| c.value).collect();

    assert_eq!(reconstructed_before, before);
    assert_eq!(reconstructed_after, after);
}

#[test]
fn char_diff_handles_multibyte_utf8() {
    let before = "héllo wörld";
    let after = "héllo wArld";
    let changes = char_diff(before, after, Algorithm::Histogram);

    let reconstructed_before: String = changes.iter().filter(|c| !c.added).map(|c| c.value).collect();
    let reconstructed_after: String = changes.iter().filter(|c| !c.removed).map(|c| c.value).collect();

    assert_eq!(reconstructed_before, before);
    assert_eq!(reconstructed_after, after);
}

#[test]
fn unified_diff_contains_hunk_header() {
    let before = "a\nb\nc\n";
    let after = "a\nB\nc\n";
    let patch = unified_diff(before, after, Algorithm::Histogram);
    assert!(patch.contains("@@"));
    assert!(patch.contains("-b\n") || patch.contains("-b"));
    assert!(patch.contains("+B\n") || patch.contains("+B"));
}

#[test]
fn myers_and_histogram_both_reconstruct_correctly() {
    let before = "one\ntwo\nthree\nfour\n";
    let after = "one\nTWO\nthree\nFOUR\n";
    for algorithm in [Algorithm::Histogram, Algorithm::Myers] {
        let changes = line_diff(before, after, algorithm);
        let reconstructed_before: String = changes.iter().filter(|c| !c.added).map(|c| c.value).collect();
        let reconstructed_after: String = changes.iter().filter(|c| !c.removed).map(|c| c.value).collect();
        assert_eq!(reconstructed_before, before);
        assert_eq!(reconstructed_after, after);
    }
}

#[test]
fn line_diff_exact_runs() {
    let changes = line_diff("abc\ndef\nghi\n", "abc\nDEF\nghi\n", Algorithm::Histogram);
    assert_eq!(
        changes,
        vec![
            Change { value: "abc\n", added: false, removed: false, count: 1 },
            Change { value: "def\n", added: false, removed: true, count: 1 },
            Change { value: "DEF\n", added: true, removed: false, count: 1 },
            Change { value: "ghi\n", added: false, removed: false, count: 1 },
        ]
    );
}

#[test]
fn word_diff_exact_runs() {
    let changes = word_diff("the quick brown fox", "the slow brown fox", Algorithm::Myers);
    assert_eq!(
        changes,
        vec![
            Change { value: "the ", added: false, removed: false, count: 2 },
            Change { value: "quick", added: false, removed: true, count: 1 },
            Change { value: "slow", added: true, removed: false, count: 1 },
            Change { value: " brown fox", added: false, removed: false, count: 4 },
        ]
    );
}

#[test]
fn char_diff_multibyte_exact_runs() {
    let changes = char_diff("héllo wörld", "héllo wArld", Algorithm::Myers);
    assert_eq!(
        changes,
        vec![
            Change { value: "héllo w", added: false, removed: false, count: 7 },
            Change { value: "ö", added: false, removed: true, count: 1 },
            Change { value: "A", added: true, removed: false, count: 1 },
            Change { value: "rld", added: false, removed: false, count: 3 },
        ]
    );
}

#[test]
fn identical_and_empty_inputs() {
    assert!(line_diff("", "", Algorithm::Histogram).is_empty());
    assert!(word_diff("", "", Algorithm::Histogram).is_empty());
    assert!(char_diff("", "", Algorithm::Myers).is_empty());
    let w = word_diff("a b", "a b", Algorithm::Histogram);
    assert_eq!(w, vec![Change { value: "a b", added: false, removed: false, count: 3 }]);
    let c = char_diff("héllo", "héllo", Algorithm::Histogram);
    assert_eq!(c, vec![Change { value: "héllo", added: false, removed: false, count: 5 }]);
    assert_eq!(unified_diff("x\ny\n", "x\ny\n", Algorithm::Histogram), "");
}

#[test]
fn one_side_empty() {
    let changes = line_diff("", "a\nb", Algorithm::Histogram);
    assert_eq!(changes, vec![Change { value: "a\nb", added: true, removed: false, count: 2 }]);
    let changes = line_diff("a\nb", "", Algorithm::Myers);
    assert_eq!(changes, vec![Change { value: "a\nb", added: false, removed: true, count: 2 }]);
}

#[test]
fn trailing_newline_change_is_detected() {
    let changes = line_diff("a\nb\n", "a\nb", Algorithm::Histogram);
    assert!(changes.iter().any(|c| c.removed && c.value == "b\n"));
    assert!(changes.iter().any(|c| c.added && c.value == "b"));
    assert_eq!(sides(&changes), ("a\nb\n".to_string(), "a\nb".to_string()));
}

#[test]
fn runs_are_well_formed_and_counts_add_up() {
    let before = "fn main() {\n    let x = 1;\n    println!(\"{x}\");\n}\n";
    let after = "// entry\nfn main() {\n    let x = 2;\n    println!(\"{x}\");\n}\n// end";
    for algorithm in [Algorithm::Histogram, Algorithm::Myers, Algorithm::MyersMinimal] {
        let lines = line_diff(before, after, algorithm);
        well_formed(&lines);
        assert_eq!(sides(&lines), (before.to_string(), after.to_string()));
        let kept_before: usize = lines.iter().filter(|c| !c.added).map(|c| c.count).sum();
        let kept_after: usize = lines.iter().filter(|c| !c.removed).map(|c| c.count).sum();
        assert_eq!(kept_before, 4);
        assert_eq!(kept_after, 6);

        let words = word_diff(before, after, algorithm);
        well_formed(&words);
        assert_eq!(sides(&words), (before.to_string(), after.to_string()));

        let chars = char_diff(before, after, algorithm);
        well_formed(&chars);
        assert_eq!(sides(&chars), (before.to_string(), after.to_string()));
        let kept_before: usize = chars.iter().filter(|c| !c.added).map(|c| c.count).sum();
        assert_eq!(kept_before, before.chars().count());
    }
}

#[test]
fn unified_diff_exact_text() {
    let patch = unified_diff("a\nb\nc\n", "a\nB\nc\n", Algorithm::Histogram);
    assert_eq!(patch, "@@ -1,3 +1,3 @@\n a\n-b\n+B\n c\n");
}

#[test]
fn hunks_to_changes_on_given_hunks() {
    let before_text = "ab€cd";
    let after_text = "aXcdé";
    let before_tokens = vec!["a", "b€", "cd"];
    let after_tokens = vec!["a", "X", "cd", "é"];
    let hunks = vec![Hunk { before: 1..2, after: 1..2 }, Hunk { before: 3..3, after: 3..4 }];
    let changes = hunks_to_changes(&hunks, &before_tokens, &after_tokens, before_text, after_text);
    assert_eq!(
        changes,
        vec![
            Change { value: "a", added: false, removed: false, count: 1 },
            Change { value: "b€", added: false, removed: true, count: 1 },
            Change { value: "X", added: true, removed: false, count: 1 },
            Change { value: "cd", added: false, removed: false, count: 1 },
            Change { value: "é", added: true, removed: false, count: 1 },
        ]
    );
}

#[test]
fn hunks_to_changes_over_characters() {
    let before_text = "aé";
    let after_text = "aü";
    let before_tokens = vec!['a', 'é'];
    let after_tokens = vec!['a', 'ü'];
    let hunks = vec![Hunk { before: 1..2, after: 1..2 }];
    let changes = hunks_to_changes(&hunks, &before_tokens, &after_tokens, before_text, after_text);
    assert_eq!(
        changes,
        vec![
            Change { value: "a", added: false, removed: false, count: 1 },
            Change { value: "é", added: false, removed: true, count: 1 },
            Change { value: "ü", added: true, removed: false, count: 1 },
        ]
    );
}

#[test]
fn hunks_to_changes_without_hunks() {
    let toks = vec!["x\n", "y"];
    let changes = hunks_to_changes(&Vec::new(), &toks, &toks, "x\ny", "x\ny");
    assert_eq!(changes, vec![Change { value: "x\ny", added: false, removed: false, count: 2 }]);
}

#[test]
fn added_space_is_its_own_change() {
    let changes = word_diff("a b", "a  b", Algorithm::Histogram);
    assert_eq!(
        changes,
        vec![
            Change { value: "a", added: false, removed: false, count: 1 },
            Change { value: " ", added: false, removed: true, count: 1 },
            Change { value: "  ", added: true, removed: false, count: 1 },
            Change { value: "b", added: false, removed: false, count: 1 },
        ]
    );
}

fn alternate(changes: &[Change<'_>]) {
    for pair in changes.windows(2) {
        let (x, y) = (&pair[0], &pair[1]);
        let unchanged = |c: &Change<'_>| !c.added && !c.removed;
        assert!(!(unchanged(x) && unchanged(y)));
        assert!(!(x.removed && y.removed));
        assert!(!(x.added && y.added));
        assert!(!(x.added && y.removed));
    }
}

#[test]
fn runs_alternate_between_unchanged_and_changed() {
    let before = "a\nb\nc\nd\ne\nf\n";
    let after = "a\nB\nc\nd\nE\nF\nf\ng\n";
    for algorithm in [Algorithm::Histogram, Algorithm::Myers] {
        alternate(&line_diff(before, after, algorithm));
        alternate(&word_diff("one two three four", "one 2 three 4 five", algorithm));
        alternate(&char_diff("kitten sitting", "sitting kitten", algorithm));
    }
}

#[test]
fn pure_insertion_and_deletion_are_single_runs() {
    assert_eq!(
        word_diff("", "hello world", Algorithm::Histogram),
        vec![Change { value: "hello world", added: true, removed: false, count: 3 }]
    );
    assert_eq!(
        char_diff("é𝄞", "", Algorithm::Myers),
        vec![Change { value: "é𝄞", added: false, removed: true, count: 2 }]
    );
}

#[test]
fn unified_diff_lines_are_the_changed_runs() {
    let before = "a\nb\nc\nd\ne\nf\ng\nh\ni\nj\nk\n";
    let after = "a\nB\nc\nd\ne\nf\ng\nh\ni\nJ\nj\nk\n";
    let patch = unified_diff(before, after, Algorithm::Histogram);
    assert!(patch.starts_with("@@ -"));
    let changes = line_diff(before, after, Algorithm::Histogram);
    let minus: Vec<String> = patch.split_inclusive('\n').filter(|l| l.starts_with('-')).map(String::from).collect();
    let plus: Vec<String> = patch.split_inclusive('\n').filter(|l| l.starts_with('+')).map(String::from).collect();
    let removed: Vec<String> = changes
        .iter()
        .filter(|c| c.removed)
        .flat_map(|c| c.value.split_inclusive('\n'))
        .map(|l| format!("-{l}"))
        .collect();
    let added: Vec<String> = changes
        .iter()
        .filter(|c| c.added)
        .flat_map(|c| c.value.split_inclusive('\n'))
        .map(|l| format!("+{l}"))
        .collect();
    assert_eq!(minus, removed);
    assert_eq!(plus, added);
    assert_eq!(minus, vec!["-b\n".to_string()]);
    assert_eq!(plus, vec!["+B\n".to_string(), "+J\n".to_string()]);
}

#[test]
fn different_texts_give_a_patch_with_a_header() {
    let patch = unified_diff("x", "y", Algorithm::Myers);
    assert!(patch.starts_with("@@ -"));
    assert!(unified_diff("", "new\n", Algorithm::Histogram).starts_with("@@ -"));
}

#[test]
fn run_counts_are_token_counts() {
    let before = "alpha beta\ngamma, delta\nepsilon\nzeta";
    let after = "alpha BETA\ngamma, delta!\nnew line\nepsilon\nzeta eta";
    for algorithm in [Algorithm::Histogram, Algorithm::Myers, Algorithm::MyersMinimal] {
        for c in line_diff(before, after, algorithm) {
            assert_eq!(c.count, c.value.split_inclusive('\n').count());
        }
        for c in word_diff(before, after, algorithm) {
            assert_eq!(c.count, divot::tokenize::WordTokenizer(c.value).tokens().len());
        }
        for c in char_diff("héllo wörld 𝄞", "hallo world 𝄞𝄞", algorithm) {
            assert_eq!(c.count, c.value.chars().count());
        }
    }
}
