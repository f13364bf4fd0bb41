//! The pipeline's decisions: conversion jobs, per-file outcomes, the merge
//! plan, cleanup target selection, and the stage machine.
//!
//! The unverified shell around this library performs the file-system reads,
//! process spawns and deletions; every choice of *what* to do is made by the
//! functions of this module and proved against the specs below.

use vstd::prelude::*;
use crate::names::{
    extension_is, extension_of, html_ext, is_html_name, pdf_dot_ext, pdf_name_for, stem_of,
};
use crate::order::{sorted_lex, sorted_names, views_of};

verus! {

/// One conversion job: an HTML input name and the PDF name the renderer is
/// asked to produce for it.
pub struct Job {
    /// Name of the HTML file to convert.
    pub html: Vec<u8>,
    /// Name of the PDF the renderer shall write: the stem of `html` followed
    /// by `.pdf`.
    pub pdf: Vec<u8>,
}

impl Job {
    /// A job is well formed when its input really is an `.html` name and its
    /// output name is the input's stem with the `.pdf` suffix.
    pub open spec fn wf(self) -> bool {
        &&& is_html_name(self.html@)
        &&& self.pdf@ == stem_of(self.html@) + pdf_dot_ext()
    }
}

/// The `.html` names among `entries`, in directory order.
pub open spec fn html_names(entries: Seq<Seq<u8>>) -> Seq<Seq<u8>>
    decreases entries.len(),
{
    if entries.len() == 0 {
        Seq::empty()
    } else {
        html_names(entries.drop_last()) + if is_html_name(entries.last()) {
            seq![entries.last()]
        } else {
            Seq::empty()
        }
    }
}

/// The HTML names of `jobs`, in order.
pub open spec fn job_htmls(jobs: Seq<Job>) -> Seq<Seq<u8>> {
    Seq::new(jobs.len(), |i: int| jobs[i].html@)
}

/// The PDF names of `jobs`, in order.
pub open spec fn job_pdfs(jobs: Seq<Job>) -> Seq<Seq<u8>> {
    Seq::new(jobs.len(), |i: int| jobs[i].pdf@)
}

/// Builds the conversion jobs for a directory listing: one job per `.html`
/// entry, in directory order, each output name the entry's stem plus `.pdf`.
pub fn conversion_jobs(entries: Vec<Vec<u8>>) -> (jobs: Vec<Job>)
    ensures
        job_htmls(jobs@) == html_names(views_of(entries@)),
        forall|k: int| 0 <= k < jobs@.len() ==> (#[trigger] jobs@[k]).wf(),
{
    let ghost orig = views_of(entries@);
    let mut rest = entries;
    let mut jobs: Vec<Job> = Vec::new();
    let html = crate::names::html_extension();
    proof {
        assert(orig.take(0) =~= Seq::<Seq<u8>>::empty());
        assert(job_htmls(jobs@) =~= html_names(orig.take(0)));
    }
    while rest.len() > 0
        invariant
            rest@.len() <= orig.len(),
            views_of(rest@) == orig.skip(orig.len() - rest@.len()),
            job_htmls(jobs@) == html_names(orig.take(orig.len() - rest@.len())),
            forall|k: int| 0 <= k < jobs@.len() ==> (#[trigger] jobs@[k]).wf(),
            html@ == html_ext(),
        decreases rest@.len(),
    {
        let ghost done = orig.len() - rest@.len();
        let ghost pre_rest = rest@;
        let e = rest.remove(0);
        proof {
            assert(rest@ =~= pre_rest.drop_first());
            assert(views_of(rest@) =~= views_of(pre_rest).drop_first());
            assert(views_of(pre_rest).drop_first() =~= orig.skip(done + 1));
            assert(e@ == views_of(pre_rest)[0]);
            assert(e@ == orig[done]);
            assert(orig.take(done + 1).drop_last() =~= orig.take(done));
            assert(orig.take(done + 1).last() == orig[done]);
        }
        if extension_is(&e, &html) {
            let pdf = pdf_name_for(&e);
            let ghost pre_jobs = jobs@;
            jobs.push(Job { html: e, pdf });
            proof {
                assert(job_htmls(jobs@) =~= job_htmls(pre_jobs).push(orig[done]));
                assert(job_htmls(jobs@) =~= html_names(orig.take(done + 1)));
            }
        } else {
            proof {
                assert(job_htmls(jobs@) =~= html_names(orig.take(done + 1)));
            }
        }
    }
    proof {
        assert(orig.take(orig.len() as int) =~= orig);
    }
    jobs
}

/// How one file's conversion ended.
#[derive(Clone, Copy, PartialEq, Eq, Structural, Debug)]
pub enum ConvertOutcome {
    /// The HTML input was absent when the converter looked for it.
    MissingInput,
    /// The renderer process could not be launched.
    SpawnFailed,
    /// The renderer ran but exited with a non-zero status.
    ToolFailed,
    /// The renderer exited with status zero.
    Converted,
}

/// Only a zero-exit run of the renderer counts as success; every other
/// outcome excludes the file from the merge.
pub open spec fn conversion_succeeded(o: ConvertOutcome) -> bool {
    o is Converted
}

/// Classifies one conversion attempt.  The input is checked before the
/// renderer is invoked, a launch error or a non-zero exit each fail the file,
/// and only a zero exit makes it a success.
pub fn classify_conversion(input_exists: bool, launched: bool, exit_zero: bool) -> (o:
    ConvertOutcome)
    ensures
        o is MissingInput <==> !input_exists,
        o is SpawnFailed <==> input_exists && !launched,
        o is ToolFailed <==> input_exists && launched && !exit_zero,
        conversion_succeeded(o) <==> input_exists && launched && exit_zero,
{
    if !input_exists {
        ConvertOutcome::MissingInput
    } else if !launched {
        ConvertOutcome::SpawnFailed
    } else if !exit_zero {
        ConvertOutcome::ToolFailed
    } else {
        ConvertOutcome::Converted
    }
}

/// Whether `o` lets the file's PDF into the merge list.
pub fn keeps_pdf(o: &ConvertOutcome) -> (r: bool)
    ensures
        r == conversion_succeeded(*o),
{
    match o {
        ConvertOutcome::Converted => true,
        _ => false,
    }
}

/// The PDF names of the jobs whose conversion succeeded, in job order.
pub open spec fn kept_pdfs(jobs: Seq<Job>, outcomes: Seq<ConvertOutcome>) -> Seq<Seq<u8>>
    recommends
        jobs.len() == outcomes.len(),
    decreases jobs.len(),
{
    if jobs.len() == 0 {
        Seq::empty()
    } else {
        kept_pdfs(jobs.drop_last(), outcomes.drop_last()) + if conversion_succeeded(
            outcomes.last(),
        ) {
            seq![jobs.last().pdf@]
        } else {
            Seq::empty()
        }
    }
}

/// Collects the PDF names of the successfully converted jobs, in job order:
/// exactly the files whose outcome was `Converted`, no others.
pub fn successful_pdfs(jobs: Vec<Job>, outcomes: &Vec<ConvertOutcome>) -> (pdfs: Vec<Vec<u8>>)
    requires
        jobs@.len() == outcomes@.len(),
    ensures
        views_of(pdfs@) == kept_pdfs(jobs@, outcomes@),
{
    let ghost all_jobs = jobs@;
    let total: usize = outcomes.len();
    let mut rest = jobs;
    let mut pdfs: Vec<Vec<u8>> = Vec::new();
    let mut i: usize = 0;
    proof {
        assert(all_jobs.take(0) =~= Seq::<Job>::empty());
        assert(outcomes@.take(0) =~= Seq::<ConvertOutcome>::empty());
        assert(views_of(pdfs@) =~= kept_pdfs(all_jobs.take(0), outcomes@.take(0)));
    }
    while rest.len() > 0
        invariant
            all_jobs.len() == outcomes@.len(),
            all_jobs.len() == total,
            i + rest@.len() == all_jobs.len(),
            rest@ == all_jobs.skip(i as int),
            views_of(pdfs@) == kept_pdfs(all_jobs.take(i as int), outcomes@.take(i as int)),
        decreases rest@.len(),
    {
        let ghost pre_rest = rest@;
        let job = rest.remove(0);
        proof {
            assert(rest@ =~= pre_rest.drop_first());
            assert(rest@ =~= all_jobs.skip(i + 1));
            assert(job == all_jobs[i as int]);
            assert(all_jobs.take(i + 1).drop_last() =~= all_jobs.take(i as int));
            assert(outcomes@.take(i + 1).drop_last() =~= outcomes@.take(i as int));
            assert(all_jobs.take(i + 1).last() == all_jobs[i as int]);
            assert(outcomes@.take(i + 1).last() == outcomes@[i as int]);
        }
        let keep = keeps_pdf(&outcomes[i]);
        if keep {
            let ghost pre = pdfs@;
            pdfs.push(job.pdf);
            proof {
                assert(views_of(pdfs@) =~= views_of(pre).push(all_jobs[i as int].pdf@));
                assert(views_of(pdfs@) =~= kept_pdfs(all_jobs.take(i + 1), outcomes@.take(i + 1)));
            }
        } else {
            proof {
                assert(views_of(pdfs@) =~= kept_pdfs(all_jobs.take(i + 1), outcomes@.take(i + 1)));
            }
        }
        i = i + 1;
    }
    proof {
        assert(all_jobs.take(all_jobs.len() as int) =~= all_jobs);
        assert(outcomes@.take(all_jobs.len() as int) =~= outcomes@);
    }
    pdfs
}

/// The bytes of `cat`, the merge tool's concatenation directive.
pub open spec fn cat_word() -> Seq<u8> {
    seq![99u8, 97u8, 116u8]
}

/// The bytes of `output`, the merge tool's output directive.
pub open spec fn output_word() -> Seq<u8> {
    seq![111u8, 117u8, 116u8, 112u8, 117u8, 116u8]
}

/// What the merge stage shall do.
pub enum MergePlan {
    /// No PDF was produced: nothing is merged, nothing is cleaned up, and the
    /// run ends successfully.
    NothingToMerge,
    /// Invoke the merge tool with exactly these arguments, in this order.
    Run { args: Vec<Vec<u8>> },
}

/// Plans the merge: nothing to do when no PDF was produced, otherwise the
/// tool's full argument list — the produced PDFs sorted lexicographically,
/// then `cat`, `output`, and the output name.
pub fn plan_merge(pdfs: Vec<Vec<u8>>, output_name: Vec<u8>) -> (plan: MergePlan)
    ensures
        plan is NothingToMerge <==> pdfs@.len() == 0,
        plan matches MergePlan::Run { args } ==> {
            &&& args@.len() == pdfs@.len() + 3
            &&& sorted_lex(args@.take(pdfs@.len() as int))
            &&& views_of(args@.take(pdfs@.len() as int)).to_multiset() == views_of(
                pdfs@,
            ).to_multiset()
            &&& args@[pdfs@.len() as int]@ == cat_word()
            &&& args@[pdfs@.len() as int + 1]@ == output_word()
            &&& args@[pdfs@.len() as int + 2]@ == output_name@
        },
{
    if pdfs.len() == 0 {
        return MergePlan::NothingToMerge;
    }
    let ghost n = pdfs@.len() as int;
    let mut args = sorted_names(pdfs);
    let ghost sorted = args@;
    let mut cat: Vec<u8> = Vec::new();
    cat.push(99);
    cat.push(97);
    cat.push(116);
    assert(cat@ =~= cat_word());
    let mut out_word: Vec<u8> = Vec::new();
    out_word.push(111);
    out_word.push(117);
    out_word.push(116);
    out_word.push(112);
    out_word.push(117);
    out_word.push(116);
    assert(out_word@ =~= output_word());
    args.push(cat);
    args.push(out_word);
    args.push(output_name);
    proof {
        assert(args@.take(n) =~= sorted);
    }
    MergePlan::Run { args }
}

/// How the single merge invocation ended.
#[derive(Clone, Copy, PartialEq, Eq, Structural, Debug)]
pub enum MergeOutcome {
    /// The merge tool could not be launched.
    SpawnFailed,
    /// The merge tool ran but exited with a non-zero status.
    ToolFailed,
    /// The merge tool exited with status zero.
    Merged,
}

/// Only a zero-exit merge lets the cleanup stage run; any failure preserves
/// every intermediate file.
pub open spec fn merge_succeeded(o: MergeOutcome) -> bool {
    o is Merged
}

/// Whether cleanup may run after the merge ended with `o`.
pub fn cleanup_allowed(o: &MergeOutcome) -> (r: bool)
    ensures
        r == merge_succeeded(*o),
{
    match o {
        MergeOutcome::Merged => true,
        _ => false,
    }
}

/// The names of `entries` that a cleanup pass for `ext` deletes: those whose
/// extension is exactly `ext`, except an excluded name, in directory order.
pub open spec fn cleanup_victims(
    entries: Seq<Seq<u8>>,
    ext: Seq<u8>,
    exclude: Option<Seq<u8>>,
) -> Seq<Seq<u8>>
    decreases entries.len(),
{
    if entries.len() == 0 {
        Seq::empty()
    } else {
        cleanup_victims(entries.drop_last(), ext, exclude) + if extension_of(entries.last())
            == Some(ext) && Some(entries.last()) != exclude {
            seq![entries.last()]
        } else {
            Seq::empty()
        }
    }
}

/// The byte string of an optional name.
pub open spec fn opt_view(o: Option<&Vec<u8>>) -> Option<Seq<u8>> {
    match o {
        Some(x) => Some(x@),
        None => None,
    }
}

/// Selects the entries a cleanup pass deletes: every name whose extension is
/// exactly `ext`, skipping `exclude` when one is given.  Deleting them is the
/// shell's job; failures there are reported per file and do not abort the
/// pass.
pub fn cleanup_targets(entries: Vec<Vec<u8>>, ext: &Vec<u8>, exclude: Option<&Vec<u8>>) -> (r: Vec<
    Vec<u8>,
>)
    ensures
        views_of(r@) == cleanup_victims(views_of(entries@), ext@, opt_view(exclude)),
{
    let ghost orig = views_of(entries@);
    let ghost excl = opt_view(exclude);
    let mut rest = entries;
    let mut out: Vec<Vec<u8>> = Vec::new();
    proof {
        assert(orig.take(0) =~= Seq::<Seq<u8>>::empty());
        assert(views_of(out@) =~= cleanup_victims(orig.take(0), ext@, excl));
    }
    while rest.len() > 0
        invariant
            rest@.len() <= orig.len(),
            excl == opt_view(exclude),
            views_of(rest@) == orig.skip(orig.len() - rest@.len()),
            views_of(out@) == cleanup_victims(orig.take(orig.len() - rest@.len()), ext@, excl),
        decreases rest@.len(),
    {
        let ghost done = orig.len() - rest@.len();
        let ghost pre_rest = rest@;
        let e = rest.remove(0);
        proof {
            assert(rest@ =~= pre_rest.drop_first());
            assert(views_of(rest@) =~= views_of(pre_rest).drop_first());
            assert(views_of(pre_rest).drop_first() =~= orig.skip(done + 1));
            assert(e@ == views_of(pre_rest)[0]);
            assert(e@ == orig[done]);
            assert(orig.take(done + 1).drop_last() =~= orig.take(done));
            assert(orig.take(done + 1).last() == orig[done]);
        }
        let excluded = match exclude {
            Some(x) => crate::names::bytes_eq(&e, x),
            None => false,
        };
        if extension_is(&e, ext) && !excluded {
            let ghost pre_out = out@;
            out.push(e);
            proof {
                assert(views_of(out@) =~= views_of(pre_out).push(orig[done]));
                assert(views_of(out@) =~= cleanup_victims(orig.take(done + 1), ext@, excl));
            }
        } else {
            proof {
                assert(views_of(out@) =~= cleanup_victims(orig.take(done + 1), ext@, excl));
            }
        }
    }
    proof {
        assert(orig.take(orig.len() as int) =~= orig);
    }
    out
}

/// The orchestrator's stages.  A run scans the directory, converts each HTML
/// entry, merges the produced PDFs, and cleans up; it ends in `Done` on
/// success (including the empty run that had nothing to merge) and in
/// `PartialFailure` when the merge failed and the intermediates were kept.
#[derive(Clone, Copy, PartialEq, Eq, Structural, Debug)]
pub enum Stage {
    /// Reading the directory listing.
    Scanning,
    /// Running the per-file conversions.
    Converting,
    /// Running the single merge invocation.
    Merging,
    /// Deleting the intermediate files.
    CleaningUp,
    /// The run ended; nothing failed fatally.
    Done,
    /// The merge failed; every intermediate file was left in place.
    PartialFailure,
}

/// What the shell reports back to the orchestrator.
#[derive(Clone, Copy, PartialEq, Eq, Structural, Debug)]
pub enum Event {
    /// The directory listing was read.  A failed scan is fatal and has no
    /// event: the run stops before any work.
    ScanSucceeded,
    /// All conversion attempts finished; `any_pdfs` says whether at least one
    /// PDF was produced.
    ConversionsFinished { any_pdfs: bool },
    /// The merge invocation finished; `merged` says whether it exited zero.
    MergeFinished { merged: bool },
    /// Both cleanup passes ran to their end.
    CleanupFinished,
}

/// The orchestrator's transition function; `None` for an event that cannot
/// occur in the given stage.
pub open spec fn step_spec(s: Stage, e: Event) -> Option<Stage> {
    match (s, e) {
        (Stage::Scanning, Event::ScanSucceeded) => Some(Stage::Converting),
        (Stage::Converting, Event::ConversionsFinished { any_pdfs }) => Some(
            if any_pdfs {
                Stage::Merging
            } else {
                Stage::Done
            },
        ),
        (Stage::Merging, Event::MergeFinished { merged }) => Some(
            if merged {
                Stage::CleaningUp
            } else {
                Stage::PartialFailure
            },
        ),
        (Stage::CleaningUp, Event::CleanupFinished) => Some(Stage::Done),
        _ => None,
    }
}

/// Advances the orchestrator by one event.
pub fn step(s: Stage, e: Event) -> (r: Option<Stage>)
    ensures
        r == step_spec(s, e),
{
    match (s, e) {
        (Stage::Scanning, Event::ScanSucceeded) => Some(Stage::Converting),
        (Stage::Converting, Event::ConversionsFinished { any_pdfs }) => Some(
            if any_pdfs {
                Stage::Merging
            } else {
                Stage::Done
            },
        ),
        (Stage::Merging, Event::MergeFinished { merged }) => Some(
            if merged {
                Stage::CleaningUp
            } else {
                Stage::PartialFailure
            },
        ),
        (Stage::CleaningUp, Event::CleanupFinished) => Some(Stage::Done),
        _ => None,
    }
}

} // verus!
