use vstd::prelude::*;

verus! {

/// What became of an attempt to run the external validator.
pub enum ValidatorRun {
    /// No executable at the validator's path.
    Missing,
    /// The process could not be spawned.
    LaunchFailed,
    /// The validator ran; `code` is `None` when it was ended by a signal.
    Exited { code: Option<i32>, stdout: String, stderr: String },
}

pub enum ValidationReport {
    Clean,
    Flagged { diagnostics: String },
}

pub enum ValidatorError {
    ValidatorMissing,
    ValidatorLaunchFailed,
}

/// The validator's location under a core package directory.
pub open spec fn validator_location(core_pkg: Seq<char>) -> Seq<char> {
    if core_pkg.len() > 0 && core_pkg.last() == '/' {
        core_pkg + "Utilities/ocvalidate/ocvalidate"@
    } else {
        core_pkg + "/Utilities/ocvalidate/ocvalidate"@
    }
}

/// The path of the validator executable inside the core package directory.
pub fn validator_path(core_pkg: &str) -> (r: String)
    ensures
        r@ == validator_location(core_pkg@),
{
    let n = core_pkg.unicode_len();
    let owned = core_pkg.to_owned();
    if n > 0 && core_pkg.get_char(n - 1) == '/' {
        owned.concat("Utilities/ocvalidate/ocvalidate")
    } else {
        owned.concat("/Utilities/ocvalidate/ocvalidate")
    }
}

/// Classifies a run of the external validator over a configuration document.
pub fn validate_plist(run: ValidatorRun) -> (r: Result<ValidationReport, ValidatorError>)
    ensures
        run is Missing ==> r == Err::<ValidationReport, ValidatorError>(
            ValidatorError::ValidatorMissing,
        ),
        run is LaunchFailed ==> r == Err::<ValidationReport, ValidatorError>(
            ValidatorError::ValidatorLaunchFailed,
        ),
        run is Exited ==> r is Ok,
        run is Exited ==> (r->Ok_0 is Clean <==> run->code == Some(0i32)),
        run is Exited && r->Ok_0 is Flagged ==> r->Ok_0->diagnostics@ == run->stdout@
            + run->stderr@,
{
    match run {
        ValidatorRun::Missing => Err(ValidatorError::ValidatorMissing),
        ValidatorRun::LaunchFailed => Err(ValidatorError::ValidatorLaunchFailed),
        ValidatorRun::Exited { code, stdout, stderr } => {
            let clean = match code {
                Some(c) => c == 0,
                None => false,
            };
            if clean {
                Ok(ValidationReport::Clean)
            } else {
                Ok(ValidationReport::Flagged { diagnostics: stdout.concat(stderr.as_str()) })
            }
        },
    }
}

} // verus!
