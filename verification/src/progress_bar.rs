//! Counting the steps of a long task and deciding when to say so.

use vstd::prelude::*;

verus! {

/// How far `progress` steps have come towards `goal`, in whole percent
/// and never above 100. A goal that is reached or passed, and a goal of
/// no steps at all, count as 100.
pub open spec fn percent_of(progress: nat, goal: nat) -> nat {
    if progress >= goal {
        100
    } else {
        progress * 100 / goal
    }
}

/// The percentage stays below 100 until the goal is reached.
pub proof fn lemma_percent_bounds(progress: nat, goal: nat)
    ensures
        percent_of(progress, goal) <= 100,
        percent_of(progress, goal) == 100 <==> progress >= goal,
{
    if progress < goal {
        assert(progress * 100 / goal < 100) by (nonlinear_arith)
            requires
                progress < goal,
        ;
    }
}

/// More progress never shows as a smaller percentage.
pub proof fn lemma_percent_monotonic(earlier: nat, later: nat, goal: nat)
    requires
        earlier <= later,
    ensures
        percent_of(earlier, goal) <= percent_of(later, goal),
{
    lemma_percent_bounds(earlier, goal);
    if later < goal {
        assert(earlier * 100 / goal <= later * 100 / goal) by (nonlinear_arith)
            requires
                earlier <= later,
                goal > 0,
        ;
    }
}

/// What there is to show after a step.
#[derive(Clone, Copy, Debug, PartialEq, Eq, Structural)]
pub struct Report {
    /// The percentage to show, where this step has raised it.
    pub percent: Option<usize>,
    /// Whether the task stands at 100 percent.
    pub completed: bool,
}

/// What to show when `progress` steps of `goal` are done: the
/// percentage where the last step raised it, and whether the task is
/// complete.
pub open spec fn report_of(progress: nat, goal: nat) -> Report {
    Report {
        percent: if progress > 0 && percent_of(progress, goal) > percent_of(
            (progress - 1) as nat,
            goal,
        ) {
            Some(percent_of(progress, goal) as usize)
        } else {
            None
        },
        completed: percent_of(progress, goal) == 100,
    }
}

/// The progress of a named task towards a number of steps.
pub struct ProgressBar {
    name: String,
    goal: usize,
    progress: usize,
}

impl ProgressBar {
    /// The name of the task.
    pub closed spec fn spec_name(&self) -> Seq<char> {
        self.name@
    }

    /// The number of steps that complete the task.
    pub closed spec fn spec_goal(&self) -> usize {
        self.goal
    }

    /// The number of steps taken.
    pub closed spec fn spec_progress(&self) -> usize {
        self.progress
    }

    /// A task of `goal` steps, none of them taken.
    pub fn new(name: &str, goal: usize) -> (bar: Self)
        ensures
            bar.spec_name() == name@,
            bar.goal() == goal,
            bar.progress() == 0,
    {
        ProgressBar { name: name.to_owned(), goal, progress: 0 }
    }

    /// The name of the task.
    pub fn name(&self) -> (name: &str)
        ensures
            name@ == self.spec_name(),
    {
        self.name.as_str()
    }

    /// The number of steps that complete the task.
    #[verifier::when_used_as_spec(spec_goal)]
    pub fn goal(&self) -> (goal: usize)
        ensures
            goal == self.goal(),
    {
        self.goal
    }

    /// The number of steps taken.
    #[verifier::when_used_as_spec(spec_progress)]
    pub fn progress(&self) -> (progress: usize)
        ensures
            progress == self.progress(),
    {
        self.progress
    }

    /// How far `progress` steps have come towards the goal, in whole
    /// percent.
    pub fn percent(&self, progress: usize) -> (percent: usize)
        ensures
            percent == percent_of(progress as nat, self.goal() as nat),
            percent <= 100,
    {
        proof {
            lemma_percent_bounds(progress as nat, self.goal as nat);
        }
        if progress >= self.goal {
            return 100;
        }
        let scaled: u128 = (progress as u128) * 100;
        (scaled / (self.goal as u128)) as usize
    }

    /// Counts one more step, and hands the bar back.
    pub fn step(&mut self) -> (bar: &mut Self)
        requires
            old(self).progress() < usize::MAX,
        ensures
            bar.progress() == old(self).progress() + 1,
            bar.goal() == old(self).goal(),
            bar.spec_name() == old(self).spec_name(),
            *final(self) == *final(bar),
    {
        self.progress = self.progress + 1;
        self
    }

    /// What there is to show now: the percentage, where the last step
    /// has raised it, and whether the task is complete.
    pub fn report(&self) -> (report: Report)
        ensures
            report == report_of(self.progress() as nat, self.goal() as nat),
    {
        let now = self.percent(self.progress);
        let raised = self.progress > 0 && now > self.percent(self.progress - 1);
        Report {
            percent: if raised {
                Some(now)
            } else {
                None
            },
            completed: now == 100,
        }
    }
}

} // verus!
