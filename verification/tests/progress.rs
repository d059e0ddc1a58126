use popcircles::progress::Progress;

#[derive(Debug, Default)]
struct Counting {
    calls: u32,
    last: Option<(u64, u64)>,
}

impl Progress for Counting {
    fn advance(&mut self, done: u64, total: u64) {
        self.calls += 1;
        self.last = Some((done, total));
    }
}

fn drive(sink: &mut impl Progress, total: u64) {
    for done in 1..=total {
        sink.advance(done, total);
    }
}

#[test]
fn the_last_advance_a_sink_sees_is_the_finished_pair() {
    let mut sink = Counting::default();
    drive(&mut sink, 4);

    assert_eq!(sink.calls, 4);
    assert_eq!(sink.last, Some((4, 4)));
}

#[test]
fn the_unit_sink_satisfies_the_same_bound() {
    drive(&mut (), 4);
}
