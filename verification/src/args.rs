//! What a run is asked to do.
use crate::binary64::Binary64;
use vstd::prelude::*;

verus! {

/// The kind of European option to price.
#[derive(Clone, Copy, PartialEq, Eq, Structural, Debug)]
pub enum OptionType {
    Call,
    Put,
}

/// The arguments of a run.
#[derive(Debug)]
pub struct Args {
    /// Initial stock price.
    pub initial_price: Binary64,
    /// Annualized expected return.
    pub drift: Binary64,
    /// Annualized volatility.
    pub volatility: Binary64,
    /// Number of trading days to simulate forward.
    pub days: usize,
    /// Number of paths to simulate.
    pub simulations: usize,
    /// Seed for a reproducible run.
    pub seed: Option<u64>,
    /// Confidence level for VaR and CVaR.
    pub confidence: Binary64,
    /// Where the final prices are written to.
    pub output: Option<String>,
    /// Where a sample of full price paths is written to.
    pub paths_output: Option<String>,
    /// How many sample paths to record when they are written.
    pub sample_paths: usize,
    /// Strike price; where it is set, the run prices an option.
    pub strike: Option<Binary64>,
    /// Annualized continuously compounded risk-free rate.
    pub risk_free_rate: Binary64,
    /// The option to price.
    pub option_type: OptionType,
}

/// Why a run is refused.
#[derive(Clone, Copy, PartialEq, Eq, Structural, Debug)]
pub enum ArgsError {
    /// There is nothing to simulate.
    NoSimulations,
    /// More paths are to be recorded than simulated.
    TooManySamplePaths,
}

impl ArgsError {
    /// What is told to the user.
    pub open spec fn spec_message(self) -> Seq<char> {
        match self {
            ArgsError::NoSimulations => "error: --simulations must be > 0"@,
            ArgsError::TooManySamplePaths => "error: --sample-paths cannot exceed --simulations"@,
        }
    }

    /// What is told to the user.
    pub fn message(self) -> (text: &'static str)
        ensures
            text@ == self.spec_message(),
    {
        match self {
            ArgsError::NoSimulations => "error: --simulations must be > 0",
            ArgsError::TooManySamplePaths => "error: --sample-paths cannot exceed --simulations",
        }
    }
}

impl Args {
    /// Path `i` is among those recorded in full.
    pub open spec fn records(self, i: int) -> bool {
        self.paths_output is Some && i < self.sample_paths
    }

    /// The drift that prices are simulated with. Pricing an option takes the
    /// risk-neutral measure, whose drift is the risk-free rate: otherwise the
    /// discounted expected payoff is no valid no-arbitrage price.
    pub open spec fn spec_measure_drift(self) -> Binary64 {
        if self.strike is Some {
            self.risk_free_rate
        } else {
            self.drift
        }
    }

    /// Whether the run can be carried out, and if not, why.
    pub open spec fn verdict(self) -> Result<(), ArgsError> {
        if self.simulations == 0 {
            Err(ArgsError::NoSimulations)
        } else if self.sample_paths > self.simulations {
            Err(ArgsError::TooManySamplePaths)
        } else {
            Ok(())
        }
    }

    /// How many of the first `n` paths are recorded in full.
    pub open spec fn recorded_among(self, n: nat) -> nat
        decreases n,
    {
        if n == 0 {
            0
        } else {
            self.recorded_among((n - 1) as nat) + if self.records(n - 1) {
                1nat
            } else {
                0nat
            }
        }
    }

    /// Whether the run can be carried out.
    pub fn check(&self) -> (result: Result<(), ArgsError>)
        ensures
            result == self.verdict(),
            result == if self.simulations == 0 {
                Err::<(), ArgsError>(ArgsError::NoSimulations)
            } else if self.sample_paths > self.simulations {
                Err(ArgsError::TooManySamplePaths)
            } else {
                Ok(())
            },
    {
        if self.simulations == 0 {
            Err(ArgsError::NoSimulations)
        } else if self.sample_paths > self.simulations {
            Err(ArgsError::TooManySamplePaths)
        } else {
            Ok(())
        }
    }

    /// The drift that prices are simulated with.
    pub fn measure_drift(&self) -> (mu: Binary64)
        ensures
            mu == self.spec_measure_drift(),
            self.strike is Some ==> mu == self.risk_free_rate,
            self.strike is None ==> mu == self.drift,
    {
        if self.strike.is_some() {
            self.risk_free_rate
        } else {
            self.drift
        }
    }

    /// For each path, whether it is recorded in full.
    pub fn record_flags(&self) -> (flags: Vec<bool>)
        ensures
            flags@.len() == self.simulations,
            forall|i: int| 0 <= i < flags@.len() ==> #[trigger] flags@[i] == self.records(i),
            self.paths_output is None ==> forall|i: int|
                0 <= i < flags@.len() ==> !#[trigger] flags@[i],
            self.paths_output is Some ==> forall|i: int|
                0 <= i < flags@.len() ==> #[trigger] flags@[i] == (i < self.sample_paths),
    {
        let mut flags: Vec<bool> = Vec::new();
        let mut i: usize = 0;
        while i < self.simulations
            invariant
                i <= self.simulations,
                flags@.len() == i,
                forall|j: int| 0 <= j < flags@.len() ==> #[trigger] flags@[j] == self.records(j),
            decreases self.simulations - i,
        {
            flags.push(self.paths_output.is_some() && i < self.sample_paths);
            i = i + 1;
        }
        flags
    }
}

/// The risk-neutral measure: wherever a strike is given, prices are simulated with
/// the risk-free rate, whatever the kind of option and the real-world drift. Two
/// such runs with the same rate are simulated with the same drift.
pub proof fn lemma_risk_neutral(a: Args, b: Args)
    requires
        a.strike is Some,
        b.strike is Some,
        a.risk_free_rate == b.risk_free_rate,
    ensures
        a.spec_measure_drift() == a.risk_free_rate,
        a.spec_measure_drift() == b.spec_measure_drift(),
{
}

/// The real-world measure: where no strike is given, prices are simulated with the
/// expected return, whatever the risk-free rate and the kind of option. Two such
/// runs with the same expected return are simulated with the same drift.
pub proof fn lemma_real_world(a: Args, b: Args)
    requires
        a.strike is None,
        b.strike is None,
        a.drift == b.drift,
    ensures
        a.spec_measure_drift() == a.drift,
        a.spec_measure_drift() == b.spec_measure_drift(),
{
}

/// Recording: the paths that are recorded come first, in a row.
proof fn lemma_recorded_among(args: Args, n: nat)
    ensures
        args.recorded_among(n) == if args.paths_output is None {
            0
        } else if n < args.sample_paths {
            n
        } else {
            args.sample_paths as nat
        },
    decreases n,
{
    if n > 0 {
        lemma_recorded_among(args, (n - 1) as nat);
    }
}

/// A run that is accepted simulates something, and of its paths it records exactly
/// as many as were asked for, where they are to be written, and none otherwise.
pub proof fn lemma_accepted(args: Args)
    requires
        args.verdict() is Ok,
    ensures
        args.simulations > 0,
        args.paths_output is Some ==> args.recorded_among(args.simulations as nat)
            == args.sample_paths,
        args.paths_output is None ==> args.recorded_among(args.simulations as nat) == 0,
{
    lemma_recorded_among(args, args.simulations as nat);
}

/// A run is refused for having nothing to simulate exactly where it has, and
/// otherwise for asking for more paths than there are exactly where it does; it is
/// accepted in all other cases.
pub proof fn lemma_refused(args: Args)
    ensures
        args.verdict() == Err::<(), ArgsError>(ArgsError::NoSimulations) <==> args.simulations < 1,
        args.verdict() == Err::<(), ArgsError>(ArgsError::TooManySamplePaths) <==> 1
            <= args.simulations < args.sample_paths,
        args.verdict() is Ok <==> 1 <= args.simulations && args.sample_paths <= args.simulations,
{
}

/// More simulations of a run that is accepted are accepted as well.
pub proof fn lemma_more_simulations(args: Args, more: Args)
    requires
        args.verdict() is Ok,
        more.sample_paths == args.sample_paths,
        args.simulations <= more.simulations,
    ensures
        more.verdict() is Ok,
{
}

/// Each refusal names the arguments that it is about.
pub proof fn lemma_messages()
    ensures
        ArgsError::NoSimulations.spec_message() == "error: --simulations"@ + " must be > 0"@,
        ArgsError::TooManySamplePaths.spec_message() == "error: --sample-paths"@
            + " cannot exceed --simulations"@,
{
    reveal_strlit("error: --simulations must be > 0");
    reveal_strlit("error: --simulations");
    reveal_strlit(" must be > 0");
    reveal_strlit("error: --sample-paths cannot exceed --simulations");
    reveal_strlit("error: --sample-paths");
    reveal_strlit(" cannot exceed --simulations");
    assert("error: --simulations must be > 0"@ =~= "error: --simulations"@ + " must be > 0"@);
    assert("error: --sample-paths cannot exceed --simulations"@ =~= "error: --sample-paths"@
        + " cannot exceed --simulations"@);
}

/// A path is recorded only where those before it are.
pub proof fn lemma_first_paths_recorded(args: Args, i: int, j: int)
    requires
        0 <= i <= j,
        args.records(j),
    ensures
        args.records(i),
        args.paths_output is Some,
{
}

} // verus!
