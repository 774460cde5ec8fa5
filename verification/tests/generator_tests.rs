use domain_searcher::config::GeneratorConfig;
use domain_searcher::generator::collect_candidates;

fn gen_config(alphabet: &str, min: i32, max: i32, tlds: Vec<&str>) -> GeneratorConfig {
    GeneratorConfig {
        tlds: tlds.into_iter().map(|t| t.to_string()).collect(),
        tlds_file: String::new(),
        min_length: min,
        max_length: max,
        alphabet: alphabet.to_string(),
        allow_hyphen: false,
        forbid_leading_hyphen: false,
        forbid_trailing_hyphen: false,
        forbid_double_hyphen: false,
    }
}

#[test]
fn tiny_determinism_order() {
    let gc = gen_config("ab", 2, 2, vec![".io"]);
    let out = collect_candidates(&gc, "", 0);
    assert_eq!(out, vec!["aa.io", "ab.io", "ba.io", "bb.io"]);
}

#[test]
fn two_runs_agree() {
    let gc = gen_config("ab3", 1, 2, vec![".io", ".dev"]);
    let a = collect_candidates(&gc, "", 0);
    let b = collect_candidates(&gc, "", 0);
    assert_eq!(a, b);
    assert_eq!(a.len(), (3 + 9) * 2);
}

#[test]
fn hyphen_rules() {
    let mut gc = gen_config("a-", 3, 3, vec![".x"]);
    gc.allow_hyphen = true;
    gc.forbid_leading_hyphen = true;
    gc.forbid_trailing_hyphen = true;
    gc.forbid_double_hyphen = true;
    let out = collect_candidates(&gc, "", 0);
    // of the eight length-3 labels over {a, -}, only these two satisfy the
    // hyphen rules: a hyphen-free label breaks none of them
    assert_eq!(out, vec!["aaa.x", "a-a.x"]);
}

#[test]
fn hyphen_forbidden_entirely() {
    let gc = gen_config("a-", 2, 2, vec![".x"]);
    let out = collect_candidates(&gc, "", 0);
    assert_eq!(out, vec!["aa.x"]);
}

#[test]
fn resume_skips_up_to_cursor() {
    let gc = gen_config("ab", 2, 2, vec![".io"]);
    let out = collect_candidates(&gc, "ab.io", 0);
    assert_eq!(out, vec!["ba.io", "bb.io"]);
}

#[test]
fn resume_cursor_is_lowercased() {
    let gc = gen_config("ab", 2, 2, vec![".io"]);
    let out = collect_candidates(&gc, "AB.IO", 0);
    assert_eq!(out, vec!["ba.io", "bb.io"]);
}

#[test]
fn resume_matches_filtered_fresh_run() {
    let gc = gen_config("abc", 2, 2, vec![".io"]);
    let fresh = collect_candidates(&gc, "", 0);
    let resumed = collect_candidates(&gc, "ab.io", 0);
    let filtered: Vec<String> = fresh.into_iter().filter(|d| d.as_str() > "ab.io").collect();
    assert_eq!(resumed, filtered);
}

#[test]
fn cap_limits_emissions() {
    let gc = gen_config("ab", 2, 2, vec![".io"]);
    let out = collect_candidates(&gc, "", 3);
    assert_eq!(out, vec!["aa.io", "ab.io", "ba.io"]);
    assert!(out.len() <= 3);
}

#[test]
fn empty_alphabet_uses_default() {
    let mut gc = gen_config("", 1, 1, vec![".z"]);
    gc.allow_hyphen = true;
    let out = collect_candidates(&gc, "", 0);
    assert_eq!(out.len(), 37);
    assert_eq!(out[0], "a.z");
    assert_eq!(out[26], "0.z");
    assert_eq!(out[36], "-.z");
}

#[test]
fn tlds_are_normalized_and_filtered() {
    let gc = gen_config("a", 1, 1, vec![" .IO ", "bad", ".dev"]);
    let out = collect_candidates(&gc, "", 0);
    assert_eq!(out, vec!["a.io", "a.dev"]);
}

#[test]
fn lengths_ascend() {
    let gc = gen_config("ab", 1, 2, vec![".x"]);
    let out = collect_candidates(&gc, "", 0);
    assert_eq!(out, vec!["a.x", "b.x", "aa.x", "ab.x", "ba.x", "bb.x"]);
}

#[test]
fn alphabet_closure_holds() {
    let gc = gen_config("xy", 1, 2, vec![".io"]);
    let out = collect_candidates(&gc, "", 0);
    for d in &out {
        let label = d.strip_suffix(".io").unwrap();
        assert!(label.chars().all(|c| c == 'x' || c == 'y'));
        assert!(!label.is_empty());
    }
}
