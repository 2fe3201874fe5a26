use imagespin::pool::{Effect, Pool};

struct Timer(f32);

impl Effect<f32> for Timer {
    fn advance(&mut self, dt: f32) {
        self.0 -= dt;
    }
    fn done(&self) -> bool {
        self.0 <= 0.0
    }
    fn spent(&self) -> bool {
        self.0 <= 0.0
    }
    fn aged(&self, dt: f32) -> Self {
        Timer(self.0 - dt)
    }
}

#[test]
fn full_pool_evicts_the_oldest() {
    let mut p = Pool::new(2);
    for t in [1.0, 2.0, 3.0] {
        p.push(Timer(t));
    }
    assert_eq!(p.iter().map(|t| t.0).collect::<Vec<_>>(), [2.0, 3.0]);
}

#[test]
fn advance_returns_what_finished_and_keeps_order() {
    let mut p = Pool::new(8);
    for t in [0.5, 2.0, 0.2, 3.0] {
        p.push(Timer(t));
    }
    let spent = p.advance(1.0);
    assert_eq!(spent.len(), 2);
    assert_eq!(p.iter().map(|t| t.0).collect::<Vec<_>>(), [1.0, 2.0]);
}

#[test]
fn the_spent_come_back_oldest_first() {
    let mut p = Pool::new(8);
    for t in [0.5, 2.0, 0.2, 3.0] {
        p.push(Timer(t));
    }
    let spent = p.advance(1.0);
    assert_eq!(spent.iter().map(|t| t.0).collect::<Vec<_>>(), [-0.5, -0.8]);
}

#[test]
fn a_new_pool_is_empty_and_counts_what_it_holds() {
    let mut p: Pool<Timer> = Pool::new(3);
    assert!(p.is_empty());
    assert_eq!(p.len(), 0);
    p.push(Timer(1.0));
    p.push(Timer(1.0));
    assert!(!p.is_empty());
    assert_eq!(p.len(), 2);
    for _ in 0..5 {
        p.push(Timer(1.0));
    }
    assert_eq!(p.len(), 3);
}

#[test]
fn a_pool_of_one_keeps_the_newest() {
    let mut p = Pool::new(1);
    p.push(Timer(1.0));
    p.push(Timer(7.0));
    assert_eq!(p.iter().map(|t| t.0).collect::<Vec<_>>(), [7.0]);
}
