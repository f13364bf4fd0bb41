use pdf_pipeline::names::{html_extension, merged_output_name, pdf_extension};
use pdf_pipeline::pipeline::{
    classify_conversion, cleanup_allowed, cleanup_targets, conversion_jobs, keeps_pdf, plan_merge,
    step, successful_pdfs, ConvertOutcome, Event, MergeOutcome, MergePlan, Stage,
};

fn b(s: &str) -> Vec<u8> {
    s.as_bytes().to_vec()
}

fn bs(names: &[&str]) -> Vec<Vec<u8>> {
    names.iter().map(|s| b(s)).collect()
}

#[test]
fn jobs_are_the_html_entries_in_order() {
    let entries = bs(&["b.html", "notes.txt", "a.html", "x.pdf"]);
    let jobs = conversion_jobs(entries);
    let htmls: Vec<Vec<u8>> = jobs.iter().map(|j| j.html.clone()).collect();
    let pdfs: Vec<Vec<u8>> = jobs.iter().map(|j| j.pdf.clone()).collect();
    assert_eq!(htmls, bs(&["b.html", "a.html"]));
    assert_eq!(pdfs, bs(&["b.pdf", "a.pdf"]));
}

#[test]
fn classify_conversion_covers_the_error_taxonomy() {
    assert_eq!(classify_conversion(false, false, false), ConvertOutcome::MissingInput);
    assert_eq!(classify_conversion(true, false, false), ConvertOutcome::SpawnFailed);
    assert_eq!(classify_conversion(true, true, false), ConvertOutcome::ToolFailed);
    assert_eq!(classify_conversion(true, true, true), ConvertOutcome::Converted);
}

#[test]
fn only_converted_keeps_the_pdf() {
    assert!(keeps_pdf(&ConvertOutcome::Converted));
    assert!(!keeps_pdf(&ConvertOutcome::MissingInput));
    assert!(!keeps_pdf(&ConvertOutcome::SpawnFailed));
    assert!(!keeps_pdf(&ConvertOutcome::ToolFailed));
}

#[test]
fn all_successes_keep_every_file() {
    let jobs = conversion_jobs(bs(&["a.html", "b.html", "c.html"]));
    let outcomes = vec![ConvertOutcome::Converted; 3];
    let pdfs = successful_pdfs(jobs, &outcomes);
    assert_eq!(pdfs, bs(&["a.pdf", "b.pdf", "c.pdf"]));
}

#[test]
fn failed_subset_is_excluded_from_the_merge_list() {
    let jobs = conversion_jobs(bs(&["a.html", "b.html", "c.html", "d.html"]));
    let outcomes = vec![
        ConvertOutcome::Converted,
        ConvertOutcome::ToolFailed,
        ConvertOutcome::Converted,
        ConvertOutcome::SpawnFailed,
    ];
    let pdfs = successful_pdfs(jobs, &outcomes);
    assert_eq!(pdfs, bs(&["a.pdf", "c.pdf"]));
    // the run still merges what succeeded
    assert_eq!(
        step(Stage::Converting, Event::ConversionsFinished { any_pdfs: true }),
        Some(Stage::Merging)
    );
}

#[test]
fn merge_args_are_sorted_then_directives() {
    let pdfs = bs(&["c.pdf", "a.pdf", "b.pdf"]);
    match plan_merge(pdfs, merged_output_name()) {
        MergePlan::Run { args } => {
            assert_eq!(
                args,
                bs(&["a.pdf", "b.pdf", "c.pdf", "cat", "output", "merged_output.pdf"])
            );
        }
        MergePlan::NothingToMerge => panic!("three PDFs must be merged"),
    }
}

#[test]
fn no_html_files_means_nothing_to_merge() {
    let entries = bs(&["notes.txt", "x.pdf"]);
    let jobs = conversion_jobs(entries);
    assert_eq!(jobs.len(), 0);
    let pdfs = successful_pdfs(jobs, &Vec::new());
    assert!(pdfs.is_empty());
    match plan_merge(pdfs, merged_output_name()) {
        MergePlan::NothingToMerge => {}
        MergePlan::Run { .. } => panic!("an empty list plans no merge"),
    }
    // no merge, no cleanup, no error: the run ends in Done straight away
    assert_eq!(
        step(Stage::Converting, Event::ConversionsFinished { any_pdfs: false }),
        Some(Stage::Done)
    );
}

#[test]
fn failed_merge_skips_cleanup_entirely() {
    assert!(!cleanup_allowed(&MergeOutcome::ToolFailed));
    assert!(!cleanup_allowed(&MergeOutcome::SpawnFailed));
    assert!(cleanup_allowed(&MergeOutcome::Merged));
    assert_eq!(
        step(Stage::Merging, Event::MergeFinished { merged: false }),
        Some(Stage::PartialFailure)
    );
    assert_eq!(
        step(Stage::Merging, Event::MergeFinished { merged: true }),
        Some(Stage::CleaningUp)
    );
}

#[test]
fn full_run_leaves_only_the_merged_output() {
    // a.html, b.html, c.html all convert; after the merge the directory holds
    // the sources, the intermediates, and the merged output
    let jobs = conversion_jobs(bs(&["a.html", "b.html", "c.html"]));
    let outcomes = vec![ConvertOutcome::Converted; 3];
    let pdfs = successful_pdfs(jobs, &outcomes);
    assert_eq!(pdfs.len(), 3);
    let after_merge = bs(&[
        "a.html",
        "b.html",
        "c.html",
        "a.pdf",
        "b.pdf",
        "c.pdf",
        "merged_output.pdf",
    ]);
    let html_pass = cleanup_targets(after_merge.clone(), &html_extension(), None);
    assert_eq!(html_pass, bs(&["a.html", "b.html", "c.html"]));
    let merged = merged_output_name();
    let pdf_pass = cleanup_targets(after_merge.clone(), &pdf_extension(), Some(&merged));
    assert_eq!(pdf_pass, bs(&["a.pdf", "b.pdf", "c.pdf"]));
    let survivors: Vec<Vec<u8>> = after_merge
        .into_iter()
        .filter(|e| !html_pass.contains(e) && !pdf_pass.contains(e))
        .collect();
    assert_eq!(survivors, bs(&["merged_output.pdf"]));
}

#[test]
fn rerun_on_cleaned_directory_is_a_safe_noop() {
    let entries = bs(&["merged_output.pdf"]);
    let jobs = conversion_jobs(entries.clone());
    assert_eq!(jobs.len(), 0);
    let pdfs = successful_pdfs(jobs, &Vec::new());
    match plan_merge(pdfs, merged_output_name()) {
        MergePlan::NothingToMerge => {}
        MergePlan::Run { .. } => panic!("a cleaned directory plans no merge"),
    }
    // even the cleanup passes, were they ever reached, would spare the output
    let merged = merged_output_name();
    assert!(cleanup_targets(entries.clone(), &html_extension(), None).is_empty());
    assert!(cleanup_targets(entries, &pdf_extension(), Some(&merged)).is_empty());
}

#[test]
fn stage_machine_walks_a_successful_run() {
    let s = Stage::Scanning;
    let s = step(s, Event::ScanSucceeded).unwrap();
    assert_eq!(s, Stage::Converting);
    let s = step(s, Event::ConversionsFinished { any_pdfs: true }).unwrap();
    assert_eq!(s, Stage::Merging);
    let s = step(s, Event::MergeFinished { merged: true }).unwrap();
    assert_eq!(s, Stage::CleaningUp);
    let s = step(s, Event::CleanupFinished).unwrap();
    assert_eq!(s, Stage::Done);
}

#[test]
fn stage_machine_refuses_misplaced_events() {
    assert_eq!(step(Stage::Scanning, Event::CleanupFinished), None);
    assert_eq!(step(Stage::Done, Event::ScanSucceeded), None);
    assert_eq!(
        step(Stage::PartialFailure, Event::MergeFinished { merged: true }),
        None
    );
}
