use fractal_flame::schedule::{Phase, Schedule, Step, WARM_UP};

#[test]
fn run_warms_up_then_records_then_stops() {
    let mut s = Schedule::new(3);
    assert_eq!(WARM_UP, 20);
    for _ in 0..20 {
        assert_eq!(s.phase(), Phase::Warming);
        assert_eq!(s.next(), Step::Iterate);
    }
    for _ in 0..3 {
        assert_eq!(s.phase(), Phase::Sampling);
        assert_eq!(s.next(), Step::IterateAndRecord);
    }
    assert_eq!(s.phase(), Phase::Done);
    assert_eq!(s.next(), Step::Stop);
    assert_eq!(s.next(), Step::Stop);
    assert_eq!(s.phase(), Phase::Done);
}

#[test]
fn run_without_samples_only_warms_up() {
    let mut s = Schedule::new(0);
    let mut steps = Vec::new();
    loop {
        let step = s.next();
        if step == Step::Stop {
            break;
        }
        steps.push(step);
    }
    assert_eq!(steps, vec![Step::Iterate; 20]);
}

#[test]
fn single_sampled_iteration() {
    let mut s = Schedule::new(1);
    let mut recorded = 0;
    let mut total = 0;
    loop {
        match s.next() {
            Step::Iterate => total += 1,
            Step::IterateAndRecord => {
                total += 1;
                recorded += 1
            }
            Step::Stop => break,
        }
    }
    assert_eq!((total, recorded), (21, 1));
}
