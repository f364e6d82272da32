use raytracer::progress_bar::{ProgressBar, Report};

#[test]
fn new_bar_has_taken_no_step() {
    let bar = ProgressBar::new("Rendering", 640);
    assert_eq!(bar.name(), "Rendering");
    assert_eq!(bar.goal(), 640);
    assert_eq!(bar.progress(), 0);
}

#[test]
fn percent_rounds_down() {
    let bar = ProgressBar::new("x", 200);
    assert_eq!(bar.percent(0), 0);
    assert_eq!(bar.percent(1), 0);
    assert_eq!(bar.percent(2), 1);
    assert_eq!(bar.percent(50), 25);
    assert_eq!(bar.percent(199), 99);
    assert_eq!(bar.percent(200), 100);
    let odd = ProgressBar::new("x", 3);
    assert_eq!(odd.percent(1), 33);
    assert_eq!(odd.percent(2), 66);
}

#[test]
fn percent_stays_at_100_past_the_goal() {
    let bar = ProgressBar::new("x", 200);
    assert_eq!(bar.percent(201), 100);
    assert_eq!(bar.percent(usize::MAX), 100);
}

#[test]
fn percent_of_no_goal_is_100() {
    let bar = ProgressBar::new("x", 0);
    assert_eq!(bar.percent(0), 100);
    assert_eq!(bar.percent(5), 100);
}

#[test]
fn percent_of_a_huge_goal_does_not_wrap() {
    let bar = ProgressBar::new("x", usize::MAX);
    assert_eq!(bar.percent(usize::MAX - 1), 99);
    assert_eq!(bar.percent(usize::MAX / 2), 49);
    assert_eq!(bar.percent(usize::MAX / 100 + 1), 1);
}

#[test]
fn step_counts_one() {
    let mut bar = ProgressBar::new("x", 10);
    bar.step();
    assert_eq!(bar.progress(), 1);
    bar.step().step();
    assert_eq!(bar.progress(), 3);
    assert_eq!(bar.goal(), 10);
    assert_eq!(bar.name(), "x");
}

#[test]
fn report_before_the_first_step_shows_nothing() {
    let bar = ProgressBar::new("x", 10);
    assert_eq!(bar.report(), Report { percent: None, completed: false });
}

#[test]
fn report_shows_a_percentage_only_when_it_rises() {
    let mut bar = ProgressBar::new("x", 200);
    assert_eq!(bar.step().report(), Report { percent: None, completed: false });
    assert_eq!(bar.step().report(), Report { percent: Some(1), completed: false });
    assert_eq!(bar.step().report(), Report { percent: None, completed: false });
    assert_eq!(bar.step().report(), Report { percent: Some(2), completed: false });
}

#[test]
fn report_completes_at_the_goal_and_stays_complete() {
    let mut bar = ProgressBar::new("x", 2);
    assert_eq!(bar.step().report(), Report { percent: Some(50), completed: false });
    assert_eq!(bar.step().report(), Report { percent: Some(100), completed: true });
    assert_eq!(bar.step().report(), Report { percent: None, completed: true });
}

#[test]
fn report_of_no_goal_is_complete_at_once() {
    let mut bar = ProgressBar::new("x", 0);
    assert_eq!(bar.report(), Report { percent: None, completed: true });
    assert_eq!(bar.step().report(), Report { percent: None, completed: true });
}
