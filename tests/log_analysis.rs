use nixpkgs_update_log_checker::log_analysis::{analyze_log, LogAnalysisResult};

#[test]
fn test_analyze_log_success_with_pr() {
    // Extracted from https://nixpkgs-update-logs.nix-community.org/dprint/2025-03-24.log
    let log = r#"- dprint-0.49.0: UPDATING ...
 - dprint-0.49.0: DONE.

Packages updated!

Diff after rewrites:

   pname = "dprint";
-  version = "0.49.0";
+  version = "0.49.1";

-    hash = "sha256-IhxtHOf4IY95B7UQPSOyLj4LqvcD2I9RxEu8B+OjtCE=";
+    hash = "sha256-6ye9FqOGW40TqoDREQm6pZAQaSuO2o9SY5RSfpmwKV4=";

-  cargoHash = "sha256-OdtUzlvbezeNk06AB6mzR3Rybh08asJJ3roNX0WOg54=";
+  cargoHash

[pull requests you find important]: https://github.com/NixOS/nixpkgs/pulls?q=is%3Aopen+sort%3Areactions-%2B1-desc
https://api.github.com/repos/NixOS/nixpkgs/pulls/392589"#;
    let result = analyze_log(log);
    match result {
        LogAnalysisResult::Success { pr_url } => {
            assert_eq!(
                pr_url,
                Some("https://github.com/NixOS/nixpkgs/pull/392589".to_string())
            );
        }
        _ => panic!("Expected success with PR URL"),
    }
}

#[test]
fn test_analyze_log_success_with_pr_for_font() {
    // Extracted from https://nixpkgs-update-logs.nix-community.org/plemoljp/2025-04-02.log
    // Which does not have "Packages updated!" in the log
    let log = r#"plemoljp 2.0.3 -> 2.0.4 https://github.com/yuru7/PlemolJP/releases

[pull requests you find important]: https://github.com/NixOS/nixpkgs/pulls?q=is%3Aopen+sort%3Areactions-%2B1-desc
https://api.github.com/repos/NixOS/nixpkgs/pulls/395562"#;
    let result = analyze_log(log);
    match result {
        LogAnalysisResult::Success { pr_url } => {
            assert_eq!(
                pr_url,
                Some("https://github.com/NixOS/nixpkgs/pull/395562".to_string())
            );
        }
        _ => panic!("Expected success with PR URL"),
    }
}

#[test]
fn test_analyze_log_success_but_no_pr() {
    // Extracted from https://nixpkgs-update-logs.nix-community.org/dprint/2025-04-13.log
    let log = "dprint 0 -> 1
attrpath: dprint
Checking auto update branch...

Press Enter key to continue...
Running update for:
Enqueuing group of 1 packages
 - dprint-0.49.1: UPDATING ...
 - dprint-0.49.1: DONE.

Packages updated!

The diff was empty after rewrites.";
    let result = analyze_log(log);
    match result {
        LogAnalysisResult::Success { pr_url } => {
            assert_eq!(pr_url, None);
        }
        _ => panic!("Expected success and no PR URL"),
    }
}

#[test]
fn test_analyze_log_failure_with_no_success() {
    // Extracted from https://nixpkgs-update-logs.nix-community.org/fishnet/2025-04-10.log
    let log = "fishnet 2.9.4 -> 2.9.5 https://github.com/lichess-org/fishnet/releases";
    let result = analyze_log(log);
    assert!(matches!(result, LogAnalysisResult::Failure));
}

#[test]
fn test_analyze_log_failure_with_clarified_build_failed() {
    // Extracted from https://nixpkgs-update-logs.nix-community.org/chawan/2025-05-04.log
    let log = &format!(
        "{}{}",
        r#"Enqueuing group of 1 packages
 - chawan-0-unstable-2025-04-18: UPDATING ...
 - chawan-0-unstable-2025-04-18: DONE.

Packages updated!
   patches = [ ./mancha-augment-path.diff ];

No auto update branch exists
Received ExitFailure 1 when running
Raw command: nix-build --option sandbox true --arg config "{ allowBroken = true; allowUnfree = true; allowAliases = false; }" --arg overlays "[ ]" -A chawan
nix build failed.
"#,
        "\x1b[01m\x1b[Kgcc:\x1b[m\x1b[K \x1b[01;31m\x1b[Kerror: \x1b[m\x1b[Kthe: linker input file not found: No such file or directory"
    );
    let result = analyze_log(log);
    assert!(matches!(result, LogAnalysisResult::Failure));
}

#[test]
fn test_analyze_log_ending_failed_prefers_no_updaer() {
    // Extracted from https://nixpkgs-update-logs.nix-community.org/dbeaver/2024-05-16.log
    let log = r#"dbeaver 22.2.2 -> 24.0.4 https://github.com/dbeaver/dbeaver/releases
attrpath: dbeaver
Checking auto update branch...
No auto update branch exists
[updateScript]
[updateScript] skipping because derivation has no updateScript
Diff after rewrites:

error: build log of 'dbeaver' is not available
"#;
    let result = analyze_log(log);
    assert!(matches!(result, LogAnalysisResult::Failure));
}

#[test]
fn test_analyze_log_no_updaer() {
    // https://nixpkgs-update-logs.nix-community.org/stockfish/2025-05-13.log
    let log = r#"stockfish 17 -> 17.1 https://repology.org/project/stockfish/versions
attrpath: stockfish
Checking auto update branch...
No auto update branch exists
[version]
[version] generic version rewriter does not support multiple hashes
[rustCrateVersion]
[rustCrateVersion] No cargoSha256 or cargoHash found
[golangModuleVersion]
[golangModuleVersion] Not a buildGoModule package with vendorSha256 or vendorHash
[npmDepsVersion]
[npmDepsVersion] No npmDepsHash
[updateScript]
[updateScript] skipping because derivation has no updateScript
The diff was empty after rewrites.
"#;
    let result = analyze_log(log);
    assert!(matches!(result, LogAnalysisResult::NoUpdater));
}

#[test]
fn empty_log_is_failure() {
    assert!(matches!(analyze_log(""), LogAnalysisResult::Failure));
}

#[test]
fn single_build_failed_line_is_failure() {
    assert!(matches!(analyze_log("nix build failed."), LogAnalysisResult::Failure));
}

#[test]
fn build_failed_line_beats_pull_request_line() {
    let log = "nix build failed.\nhttps://api.github.com/repos/NixOS/nixpkgs/pulls/1";
    assert!(matches!(analyze_log(log), LogAnalysisResult::Failure));
}

#[test]
fn build_failed_must_be_a_whole_line() {
    let log = "note: nix build failed.\nPackages updated!";
    match analyze_log(log) {
        LogAnalysisResult::Success { pr_url } => assert_eq!(pr_url, None),
        _ => panic!("expected success"),
    }
}

#[test]
fn pull_request_line_alone_gives_web_url() {
    let log = "https://api.github.com/repos/NixOS/nixpkgs/pulls/392589";
    match analyze_log(log) {
        LogAnalysisResult::Success { pr_url } => assert_eq!(
            pr_url,
            Some("https://github.com/NixOS/nixpkgs/pull/392589".to_string())
        ),
        _ => panic!("expected success with a pull request"),
    }
}

#[test]
fn pull_request_line_with_crlf_ending() {
    let log = "Packages updated!\r\nhttps://api.github.com/repos/NixOS/nixpkgs/pulls/42\r\n";
    match analyze_log(log) {
        LogAnalysisResult::Success { pr_url } => assert_eq!(
            pr_url,
            Some("https://github.com/NixOS/nixpkgs/pull/42".to_string())
        ),
        _ => panic!("expected success with a pull request"),
    }
}

#[test]
fn pull_request_prefix_without_number_is_no_pull_request() {
    let log = "https://api.github.com/repos/NixOS/nixpkgs/pulls/";
    assert!(matches!(analyze_log(log), LogAnalysisResult::Failure));
}

#[test]
fn pull_request_line_with_letters_is_no_pull_request() {
    let log = "Packages updated!\nhttps://api.github.com/repos/NixOS/nixpkgs/pulls/12a";
    match analyze_log(log) {
        LogAnalysisResult::Success { pr_url } => assert_eq!(pr_url, None),
        _ => panic!("expected success without a pull request"),
    }
}

#[test]
fn trailing_error_line_beats_benign_phrase() {
    let log = "Packages updated!\nerror: something broke";
    assert!(matches!(analyze_log(log), LogAnalysisResult::Failure));
}

#[test]
fn error_line_followed_by_blank_lines_is_failure() {
    let log = "[updateScript] skipping because derivation has no updateScript\nerror: x\n\n\n";
    assert!(matches!(analyze_log(log), LogAnalysisResult::Failure));
}

#[test]
fn no_updater_line_gives_no_updater() {
    let log = "[updateScript]\n[updateScript] skipping because derivation has no updateScript\nPackages updated!";
    assert!(matches!(analyze_log(log), LogAnalysisResult::NoUpdater));
}

#[test]
fn each_benign_phrase_gives_success() {
    let phrases = [
        "Packages updated!",
        "There might already be an open PR for this update: x",
        "An auto update branch exists with an equal or greater version",
        "No auto update branch exists",
        "Do not update GNOME during a release cycle",
    ];
    for p in phrases {
        let log = format!("some output\n  {p} and more\nthe end");
        match analyze_log(&log) {
            LogAnalysisResult::Success { pr_url } => assert_eq!(pr_url, None),
            _ => panic!("expected success for {p}"),
        }
    }
}

#[test]
fn unrecognised_log_is_failure() {
    let log = "building...\nsomething happened\n";
    assert!(matches!(analyze_log(log), LogAnalysisResult::Failure));
}

#[test]
fn classifying_twice_gives_the_same_outcome() {
    let log = "dbeaver 22.2.2 -> 24.0.4\nNo auto update branch exists\n";
    let a = analyze_log(log);
    let b = analyze_log(log);
    match (a, b) {
        (LogAnalysisResult::Success { pr_url: x }, LogAnalysisResult::Success { pr_url: y }) => {
            assert_eq!(x, y)
        }
        _ => panic!("expected two equal successes"),
    }
}
