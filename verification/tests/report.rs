use std::cell::Cell;
use std::time::Duration;

use autocitefetch::report::Throttle;
use autocitefetch::{Clock, Event, NopReporter, Reporter, ThrottledReporter, Timestamp, Wait};

/// Counts what it is handed, split by kind.
#[derive(Default)]
struct Counting {
    samples: Cell<usize>,
    milestones: Cell<usize>,
}

impl Reporter for Counting {
    fn report(&mut self, ev: &Event<'_>) {
        if ev.is_sample() {
            self.samples.set(self.samples.get() + 1);
        } else {
            self.milestones.set(self.milestones.get() + 1);
        }
    }
}

/// A clock the test steps by hand.
struct StepClock(Cell<i64>);

impl Clock for StepClock {
    fn now(&self) -> Timestamp {
        Timestamp::from_millis(self.0.get())
    }
}

fn progress(prefix: &str) -> Event<'_> {
    Event::SourceProgress {
        prefix,
        done: 1,
        total: 2,
    }
}

#[test]
fn only_source_progress_is_a_sample() {
    assert!(progress("arxiv").is_sample());
    assert_eq!(progress("arxiv").sample_key(), Some("arxiv"));

    let milestones = [
        Event::RetrieveStarted { cites: 1 },
        Event::SourceStarted {
            prefix: "arxiv",
            keys: 1,
            chunks: 1,
        },
        Event::SourceFinished {
            prefix: "arxiv",
            done: 1,
        },
        Event::RetrieveFinished {
            considered: 1,
            failed: 0,
        },
        Event::WaitStarted {
            what: Wait::CacheFlush,
            expected: None,
        },
    ];
    for ev in &milestones {
        assert!(!ev.is_sample(), "{ev:?} must not be droppable");
    }
}

#[test]
fn samples_are_dropped_within_the_gap_milestones_never_are() {
    let clock = StepClock(Cell::new(0));
    let mut r = ThrottledReporter::new(Counting::default(), clock, Duration::from_millis(100));

    // First sample always passes; the next two are inside the gap.
    r.report(&progress("arxiv"));
    r.clock().0.set(40);
    r.report(&progress("arxiv"));
    r.clock().0.set(99);
    r.report(&progress("arxiv"));
    assert_eq!(r.inner().samples.get(), 1);

    // Exactly at the gap it is due again.
    r.clock().0.set(100);
    r.report(&progress("arxiv"));
    assert_eq!(r.inner().samples.get(), 2);

    // Milestones bypass the gap entirely, however dense.
    for _ in 0..5 {
        r.report(&Event::PassFinished {
            pass: 1,
            discovered: 0,
        });
    }
    assert_eq!(r.inner().milestones.get(), 5);
}

#[test]
fn throttling_is_per_subject_so_one_source_cannot_starve_another() {
    let clock = StepClock(Cell::new(0));
    let mut r = ThrottledReporter::new(Counting::default(), clock, Duration::from_millis(100));

    r.report(&progress("arxiv"));
    // Same instant, different prefix: not throttled by arxiv's delivery.
    r.report(&progress("doi"));
    assert_eq!(r.inner().samples.get(), 2);

    // …and each keeps its own clock thereafter.
    r.clock().0.set(50);
    r.report(&progress("arxiv"));
    r.report(&progress("doi"));
    assert_eq!(r.inner().samples.get(), 2);
}

#[test]
fn a_throttle_counts_from_what_it_let_through() {
    let mut t = Throttle::new(Duration::from_millis(10));
    assert!(t.passes(&progress("a"), Timestamp::from_millis(0)));
    assert!(!t.passes(&progress("a"), Timestamp::from_millis(9)));
    assert!(t.passes(&progress("a"), Timestamp::from_millis(18)));
    assert!(!t.passes(&progress("a"), Timestamp::from_millis(27)));
    assert!(t.passes(&progress("a"), Timestamp::from_millis(28)));
}

#[test]
fn a_reporter_of_nothing_takes_anything() {
    NopReporter.report(&progress("a"));
    NopReporter.report(&Event::RetrieveStarted { cites: 0 });
}

/// A throttled reporter is a reporter: throttles nest, and the wider gap decides.
#[test]
fn throttled_reporters_nest() {
    let inner = ThrottledReporter::new(
        Counting::default(),
        StepClock(Cell::new(0)),
        Duration::from_millis(100),
    );
    let clock = StepClock(Cell::new(0));
    let mut r = ThrottledReporter::new(inner, clock, Duration::from_millis(10));
    for at in [0, 5, 10, 99, 100] {
        r.clock().0.set(at);
        r.inner().clock().0.set(at);
        r.report(&progress("arxiv"));
    }
    // At 5 the outer one drops, at 10 and 99 the inner one does, and at 100 the outer
    // one does again: it let the one at 99 pass.
    assert_eq!(r.inner().inner().samples.get(), 1);
    r.clock().0.set(110);
    r.inner().clock().0.set(110);
    r.report(&progress("arxiv"));
    assert_eq!(r.inner().inner().samples.get(), 2);
}
