use imagespin::surge::{advance, busy, start, Phase};

/// Step the clock once per entry of `ended`; how many times it exploded.
fn run(phase: &mut Phase, ended: &[bool], stay_broken: bool) -> usize {
    let mut booms = 0;
    for &e in ended {
        let (next, boom) = advance(*phase, e, stay_broken);
        *phase = next;
        booms += boom as usize;
    }
    booms
}

#[test]
fn it_explodes_once_breaks_and_comes_back() {
    let (mut p, started) = start(Phase::Idle);
    assert!(started);
    assert_eq!(p, Phase::Charge);
    let (again, restarted) = start(p);
    assert!(!restarted, "a second Enter must not restart it");
    assert_eq!(again, Phase::Charge);
    assert_eq!(run(&mut p, &[false, false, true], false), 1);
    assert_eq!(p, Phase::Scatter);
    assert_eq!(run(&mut p, &[true], false), 0);
    assert_eq!(p, Phase::Hold);
    assert!(busy(p));
    assert_eq!(run(&mut p, &[false, true, false, true, true, true], false), 0);
    assert_eq!(p, Phase::Idle);
    assert!(!busy(p));
}

#[test]
fn stay_broken_means_it_never_comes_back() {
    let (mut p, _) = start(Phase::Idle);
    assert_eq!(run(&mut p, &[true; 30], true), 1);
    assert_eq!(p, Phase::Hold);
    assert!(busy(p));
}

#[test]
fn an_idle_clock_does_nothing() {
    assert_eq!(advance(Phase::Idle, true, false), (Phase::Idle, false));
    assert_eq!(advance(Phase::Reform, false, false), (Phase::Reform, false));
    assert_eq!(advance(Phase::Reform, true, true), (Phase::Idle, false));
}
