// Searches over fixed-point numbers, where every step can be followed by hand.
//
// The numbers count thousandths. The functions searched here answer a plain
// evaluation (derivative zero) with a value for the scan, and a seeded one
// (derivative one) with a value chosen so that the next Newton update lands
// where the test wants it.

use root_finder::{
    find_bisections, newton, root_search, try_root_search, BisectionOptions, Coerceable,
    Derivable, IntervalError, NewtonOptions, RootSearchOptions, Scalar,
};
use std::sync::Mutex;

const ONE: i64 = 1000;

#[derive(Clone, Copy, Debug, PartialEq, Eq)]
struct Milli(i64);

impl Scalar for Milli {
    fn zero() -> Self {
        Milli(0)
    }
    fn epsilon() -> Self {
        Milli(1)
    }
    fn from_i32(value: i32) -> Self {
        Milli(i64::from(value) * ONE)
    }
    fn add(self, rhs: Self) -> Self {
        Milli(self.0 + rhs.0)
    }
    fn sub(self, rhs: Self) -> Self {
        Milli(self.0 - rhs.0)
    }
    fn mul(self, rhs: Self) -> Self {
        Milli(self.0 * rhs.0 / ONE)
    }
    fn div(self, rhs: Self) -> Self {
        if rhs.0 == 0 {
            Milli(0)
        } else {
            Milli(self.0 * ONE / rhs.0)
        }
    }
    fn abs(self) -> Self {
        Milli(self.0.abs())
    }
    fn lt(self, rhs: Self) -> bool {
        self.0 < rhs.0
    }
}

#[derive(Clone, Copy, Debug, PartialEq, Eq)]
struct MilliDual {
    re: i64,
    eps: i64,
}

impl Derivable<Milli> for MilliDual {
    fn execute_derivative(&self) -> Self {
        MilliDual { re: self.re, eps: ONE }
    }
    fn zeroth_derivative(&self) -> Milli {
        Milli(self.re)
    }
    fn first_derivative(&self) -> Milli {
        Milli(self.eps)
    }
}

impl Coerceable<Milli> for MilliDual {
    fn coerce_to(&self) -> Milli {
        Milli(self.re)
    }
    fn coerce_from(value: Milli) -> Self {
        MilliDual { re: value.0, eps: 0 }
    }
}

// A seeded evaluation at `x` that sends the next Newton update to `target`.
fn towards(x: MilliDual, target: i64) -> MilliDual {
    MilliDual { re: x.re - target, eps: ONE }
}

fn is_seeded(x: MilliDual) -> bool {
    x.eps != 0
}

// Four sub-intervals of [0, 4]: the samples lie at 0, 1.001, 2.002, 3.003, 4.004.
fn search(patience: i32) -> RootSearchOptions<Milli> {
    RootSearchOptions {
        lower: Milli(0),
        upper: Milli(4000),
        patience,
        tolerance: Milli(1),
        resolution: 4,
    }
}

fn ends(res: &root_finder::RootSearchResult<Milli>) -> Vec<(i64, i64)> {
    res.bisections.iter().map(|b| (b.lower.0, b.upper.0)).collect()
}

fn values(res: &root_finder::RootSearchResult<Milli>) -> Vec<i64> {
    res.roots.iter().map(|r| r.0).collect()
}

#[test]
fn scan_visits_each_sample_pair_from_left_to_right() {
    let seen = Mutex::new(Vec::new());
    let f = |x: MilliDual| {
        seen.lock().unwrap().push((x.re, x.eps));
        MilliDual { re: x.re - 2500, eps: x.eps }
    };
    let found = find_bisections::<_, MilliDual, Milli>(
        &f,
        BisectionOptions { lower: Milli(0), upper: Milli(4000), resolution: 4 },
    );
    assert_eq!(found.len(), 1);
    assert_eq!((found[0].lower, found[0].upper), (Milli(2002), Milli(3003)));
    assert_eq!(
        *seen.lock().unwrap(),
        vec![
            (0, 0),
            (1001, 0),
            (1001, 0),
            (2002, 0),
            (2002, 0),
            (3003, 0),
            (3003, 0),
            (4004, 0)
        ]
    );
}

#[test]
fn scan_reports_falling_and_rising_sign_changes() {
    // (x - 1.5)(x - 2.5) falls through zero in the second sub-interval and
    // rises through it in the third.
    let f = |x: MilliDual| MilliDual { re: (x.re - 1500) * (x.re - 2500) / ONE, eps: x.eps };
    let found = find_bisections::<_, MilliDual, Milli>(
        &f,
        BisectionOptions { lower: Milli(0), upper: Milli(4000), resolution: 4 },
    );
    let found: Vec<(i64, i64)> = found.iter().map(|b| (b.lower.0, b.upper.0)).collect();
    assert_eq!(found, vec![(1001, 2002), (2002, 3003)]);
}

#[test]
fn scan_takes_a_zero_at_either_end_as_no_sign_change() {
    // Zero at the sample 2.002: neither the sub-interval that ends there nor
    // the one that starts there is a bracket.
    let f = |x: MilliDual| MilliDual { re: x.re - 2002, eps: x.eps };
    let found = find_bisections::<_, MilliDual, Milli>(
        &f,
        BisectionOptions { lower: Milli(0), upper: Milli(4000), resolution: 4 },
    );
    assert!(found.is_empty());
}

#[test]
fn newton_moves_by_the_value_over_the_slope() {
    // Value 3 and slope 2 at the guess 10: the update is 10 - 1.5 = 8.5.
    let f = |x: MilliDual| {
        if x.re == 10_000 {
            MilliDual { re: 3000, eps: 2000 }
        } else {
            towards(x, x.re)
        }
    };
    let res = newton::<_, MilliDual, Milli>(
        &f,
        NewtonOptions { guess: Milli(10_000), patience: 10, tolerance: Milli(1) },
    );
    assert_eq!(res.root, Some(Milli(8500)));
    assert_eq!(res.iterations, 2);
}

#[test]
fn newton_settles_when_the_step_is_below_the_tolerance_only() {
    // A step of exactly the tolerance does not settle; the next one, of
    // half of it, does.
    let f = |x: MilliDual| {
        if x.re == 0 {
            towards(x, 100)
        } else {
            towards(x, 150)
        }
    };
    let res = newton::<_, MilliDual, Milli>(
        &f,
        NewtonOptions { guess: Milli(0), patience: 10, tolerance: Milli(100) },
    );
    assert_eq!(res.root, Some(Milli(150)));
    assert_eq!(res.iterations, 2);
}

#[test]
fn newton_returns_a_root_found_by_its_last_permitted_update() {
    // Every update moves by 5 until the estimate reaches 20, where it stays.
    // With patience 4 the fifth update is the last one permitted.
    let f = |x: MilliDual| {
        if x.re < 20_000 {
            towards(x, x.re + 5000)
        } else {
            towards(x, x.re)
        }
    };
    let settled = newton::<_, MilliDual, Milli>(
        &f,
        NewtonOptions { guess: Milli(0), patience: 4, tolerance: Milli(1) },
    );
    assert_eq!(settled.root, Some(Milli(20_000)));
    assert_eq!(settled.iterations, 5);
    let gave_up = newton::<_, MilliDual, Milli>(
        &f,
        NewtonOptions { guess: Milli(0), patience: 3, tolerance: Milli(1) },
    );
    assert_eq!(gave_up.root, None);
    assert_eq!(gave_up.iterations, 4);
}

#[test]
fn newton_evaluates_once_per_update_on_a_seeded_number() {
    let seen = Mutex::new(Vec::new());
    let f = |x: MilliDual| {
        seen.lock().unwrap().push((x.re, x.eps));
        towards(x, 7000)
    };
    let res = newton::<_, MilliDual, Milli>(
        &f,
        NewtonOptions { guess: Milli(1000), patience: 10, tolerance: Milli(1) },
    );
    assert_eq!(res.root, Some(Milli(7000)));
    assert_eq!(res.iterations, 2);
    assert_eq!(*seen.lock().unwrap(), vec![(1000, ONE), (7000, ONE)]);
}

#[test]
fn search_probes_seeds_a_hundredth_of_the_bracket_apart_from_its_lower_end() {
    // The bracket is (2.002, 3.003), so the seeds are 2.002, 2.012, 2.022, ...
    // The first two runs settle outside the bracket and are passed over.
    let seen = Mutex::new(Vec::new());
    let f = |x: MilliDual| {
        if !is_seeded(x) {
            return MilliDual { re: x.re - 2500, eps: 0 };
        }
        seen.lock().unwrap().push(x.re);
        match x.re {
            2002 => towards(x, 100),
            2012 => towards(x, 9000),
            2022 => towards(x, 2500),
            other => towards(x, other),
        }
    };
    let res = root_search::<_, MilliDual, Milli>(&f, search(10));
    assert_eq!(ends(&res), vec![(2002, 3003)]);
    assert_eq!(values(&res), vec![2500]);
    assert_eq!(*seen.lock().unwrap(), vec![2002, 100, 2012, 9000, 2022, 2500]);
}

#[test]
fn search_abandons_a_bracket_at_the_first_run_that_fails() {
    // The second seed meets a flat slope. The third one would have found the
    // root, and is never tried.
    let seen = Mutex::new(Vec::new());
    let f = |x: MilliDual| {
        if !is_seeded(x) {
            return MilliDual { re: x.re - 2500, eps: 0 };
        }
        seen.lock().unwrap().push(x.re);
        match x.re {
            2002 => towards(x, 100),
            2012 => MilliDual { re: 5, eps: 0 },
            2022 => towards(x, 2500),
            other => towards(x, other),
        }
    };
    let res = root_search::<_, MilliDual, Milli>(&f, search(10));
    assert_eq!(ends(&res), vec![(2002, 3003)]);
    assert_eq!(values(&res), Vec::<i64>::new());
    assert_eq!(*seen.lock().unwrap(), vec![2002, 100, 2012]);
}

#[test]
fn search_abandons_a_bracket_when_a_run_exhausts_its_patience() {
    // Every update moves on by 5: with patience 3 the run from the first seed
    // gives up after four updates, and no other seed is tried.
    let seen = Mutex::new(Vec::new());
    let f = |x: MilliDual| {
        if !is_seeded(x) {
            return MilliDual { re: x.re - 2500, eps: 0 };
        }
        seen.lock().unwrap().push(x.re);
        towards(x, x.re + 5000)
    };
    let res = root_search::<_, MilliDual, Milli>(&f, search(3));
    assert_eq!(ends(&res), vec![(2002, 3003)]);
    assert_eq!(values(&res), Vec::<i64>::new());
    assert_eq!(*seen.lock().unwrap(), vec![2002, 7002, 12002, 17002]);
}

#[test]
fn search_gives_up_a_bracket_after_a_hundred_seeds() {
    let runs = Mutex::new(Vec::new());
    let f = |x: MilliDual| {
        if !is_seeded(x) {
            return MilliDual { re: x.re - 2500, eps: 0 };
        }
        if x.re != 100 {
            runs.lock().unwrap().push(x.re);
        }
        towards(x, 100)
    };
    let res = root_search::<_, MilliDual, Milli>(&f, search(10));
    assert_eq!(ends(&res), vec![(2002, 3003)]);
    assert_eq!(values(&res), Vec::<i64>::new());
    let expected: Vec<i64> = (0..100).map(|i| 2002 + 10 * i).collect();
    assert_eq!(*runs.lock().unwrap(), expected);
}

#[test]
fn search_does_not_accept_a_root_on_the_end_of_a_bracket() {
    let f = |x: MilliDual| {
        if !is_seeded(x) {
            return MilliDual { re: x.re - 2500, eps: 0 };
        }
        match x.re {
            2002 => towards(x, 2002),
            2012 => towards(x, 3003),
            2022 => towards(x, 2003),
            other => towards(x, other),
        }
    };
    let res = root_search::<_, MilliDual, Milli>(&f, search(10));
    assert_eq!(values(&res), vec![2003]);
}

#[test]
fn search_lists_roots_in_the_order_of_their_brackets() {
    // Three brackets; the runs in the middle one fail.
    let f = |x: MilliDual| {
        if !is_seeded(x) {
            let re = (x.re - 500) * (x.re - 1500) / ONE * (x.re - 2500) / ONE;
            return MilliDual { re, eps: 0 };
        }
        if x.re < 1001 {
            towards(x, 500)
        } else if x.re < 2002 {
            MilliDual { re: 1, eps: 0 }
        } else {
            towards(x, 2500)
        }
    };
    let res = root_search::<_, MilliDual, Milli>(&f, search(10));
    assert_eq!(ends(&res), vec![(0, 1001), (1001, 2002), (2002, 3003)]);
    assert_eq!(values(&res), vec![500, 2500]);
}

#[test]
fn search_finds_one_root_at_most_in_a_bracket_with_three() {
    // One sub-interval holds the roots 2.2, 2.5 and 2.8; the run from the
    // first seed settles on the first of them, and the probing stops.
    let f = |x: MilliDual| {
        if !is_seeded(x) {
            let re = (x.re - 2200) * (x.re - 2500) / ONE * (x.re - 2800) / ONE;
            return MilliDual { re, eps: 0 };
        }
        if x.re < 2350 {
            towards(x, 2200)
        } else if x.re < 2650 {
            towards(x, 2500)
        } else {
            towards(x, 2800)
        }
    };
    let res = root_search::<_, MilliDual, Milli>(&f, search(10));
    assert_eq!(ends(&res), vec![(2002, 3003)]);
    assert_eq!(values(&res), vec![2200]);
}

#[test]
fn checked_search_tells_inverted_from_degenerate_bounds() {
    let f = |x: MilliDual| MilliDual { re: x.re - 2500, eps: x.eps };
    let mut opts = search(10);
    opts.lower = Milli(4000);
    opts.upper = Milli(0);
    assert!(matches!(
        try_root_search::<_, MilliDual, Milli>(&f, opts),
        Err(IntervalError::Inverted)
    ));
    let mut opts = search(10);
    opts.lower = Milli(4000);
    assert!(matches!(
        try_root_search::<_, MilliDual, Milli>(&f, opts),
        Err(IntervalError::Degenerate)
    ));
    match try_root_search::<_, MilliDual, Milli>(&f, search(10)) {
        Ok(res) => {
            assert_eq!(ends(&res), vec![(2002, 3003)]);
            assert_eq!(values(&res), vec![2500]);
        }
        Err(_) => panic!("the interval is valid"),
    }
}
