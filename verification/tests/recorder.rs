use rfx_voiced::recorder::{
    audio_place, day_dir, order_of_days, Active, Listing, Recorder, Work, DAY,
};

const NOW: u64 = 1_700_000_000;

#[test]
fn days_are_numbered() {
    assert_eq!(day_dir(NOW), "d19675");
    assert_eq!(day_dir(0), "d0");
}

#[test]
fn the_last_days_are_kept() {
    let rec = Recorder::new(30);
    assert!(rec.prune("d19644", NOW));
    assert!(!rec.prune("d19645", NOW));
    assert!(!rec.prune("d19675", NOW));
    assert!(!rec.prune("notes", NOW));
    assert!(!rec.prune("d", NOW));
    assert!(!Recorder::new(30).prune("d0", 10 * DAY));
}

#[test]
fn retention_is_thirty_days_unless_it_is_set() {
    assert_eq!(Recorder::retention(None), 30);
    assert_eq!(Recorder::retention(Some("7")), 7);
    assert_eq!(Recorder::retention(Some("week")), 30);
}

#[test]
fn nothing_is_recorded_while_recording_is_off() {
    let mut a = Active::new(None);
    a.begin(1001, 1, 7, "unit", 8000, NOW);
    assert!(a.push(1001, &[1]).is_none());
    a.end(1001);
    assert!(a.take_work().is_empty());
}

/// A key while a call is open is a reply inside it.
#[test]
fn a_reply_is_the_same_call() {
    let mut a = Active::new(Some(Recorder::new(30)));
    a.begin(1001, 1, 7, "unit", 8000, NOW);
    a.begin(1001, 1, 8, "other", 8000, NOW + 1);
    assert_eq!(a.take_work().len(), 1);
}

/// A brush of the button is not a call: less than two fifths of a second.
#[test]
fn a_kerchunk_is_discarded() {
    for (samples, kept) in [(3199usize, false), (3200, true)] {
        let mut a = Active::new(Some(Recorder::new(30)));
        a.begin(1001, 1, 7, "unit", 8000, NOW);
        a.take_work();
        a.pushed(1001, samples, true);
        a.end(1001);
        match &a.take_work()[..] {
            [Work::Keep { .. }] => assert!(kept),
            [Work::Discard { day, id }] => {
                assert!(!kept);
                assert_eq!((day.as_str(), id.as_str()), ("d19675", "1700000000-1001-1"));
            }
            _ => panic!("the call did not end"),
        }
    }
}

/// Once the file could not be written, the rest of the call is let go.
#[test]
fn a_call_whose_file_failed_is_not_kept() {
    let mut a = Active::new(Some(Recorder::new(30)));
    a.begin(1001, 1, 7, "unit", 8000, NOW);
    a.take_work();
    a.pushed(1001, 100, false);
    assert!(a.push(1001, &[1]).is_none());
    a.end(1001);
    assert!(a.take_work().is_empty());
}

#[test]
fn a_recording_is_found_by_its_id_and_by_nothing_else() {
    let (dir, file) = audio_place("1700000000-1001-1").unwrap();
    assert_eq!((dir.as_str(), file.as_str()), ("d19675", "1700000000-1001-1.pcm"));
    for id in ["../etc/passwd", "1700000000/1", "1700000000-1.1", "abc-1-1", ""] {
        assert!(audio_place(id).is_none(), "{id}");
    }
}

#[test]
fn the_index_is_newest_first_and_no_longer_than_asked() {
    let mut l = Listing::new(100, 2);
    l.found(50, 0);
    assert!(!l.enough());
    l.found(100, 1);
    l.found(300, 2);
    assert!(l.enough());
    l.found(200, 3);
    assert_eq!(l.index(), vec![2, 3]);
}

fn named(names: &[&str]) -> Vec<String> {
    names.iter().map(|n| n.to_string()).collect()
}

#[test]
fn days_are_walked_from_the_latest() {
    assert_eq!(order_of_days(&named(&["d19674", "d19676", "d19675"])), vec![1, 2, 0]);
    assert_eq!(order_of_days(&named(&["d9999", "d10000"])), vec![1, 0], "days are numbers");
    assert_eq!(order_of_days(&named(&["zebra", "d7", "", "d8"])), vec![3, 1, 0, 2]);
}

/// A search that stops when it has enough has the newest calls.
#[test]
fn nothing_newer_is_left_out() {
    let names = named(&["d9999", "d10000", "d10001"]);
    let calls = [vec![(9999 * DAY, 0)], vec![(10000 * DAY + 5, 1)], vec![(10001 * DAY, 2)]];
    let mut l = Listing::new(0, 2);
    for day in order_of_days(&names) {
        for (started, call) in &calls[day] {
            l.found(*started, *call);
        }
        if l.enough() {
            break;
        }
    }
    assert_eq!(l.index(), vec![2, 1]);
}
