use display_link::schedule::{
    availability, next_available, shown_screen, Screen, ScreenScheduler, DEFAULT_DWELL,
    SCREEN_COUNT,
};

fn run(s: &mut ScreenScheduler, avail: &Vec<bool>, ticks: usize) -> Vec<usize> {
    (0..ticks).map(|_| s.tick(avail)).collect()
}

#[test]
fn full_rotation_visits_each_screen_once() {
    for n in 1..5usize {
        for d in 1..4u32 {
            let mut s = ScreenScheduler::new(n, d);
            let avail = vec![true; n];
            let shown = run(&mut s, &avail, n * d as usize + 1);
            for t in 0..n * d as usize {
                assert_eq!(shown[t], t / d as usize);
            }
            assert_eq!(shown[n * d as usize], 0);
        }
    }
}

#[test]
fn unavailable_screen_is_skipped() {
    let mut s = ScreenScheduler::new(4, 2);
    let avail = vec![true, false, true, true];
    let shown = run(&mut s, &avail, 8);
    assert_eq!(shown, vec![0, 0, 2, 2, 3, 3, 0, 0]);
}

#[test]
fn screen_returns_when_available_again() {
    let mut s = ScreenScheduler::new(4, 1);
    let without_gpu = availability(false, true);
    let with_gpu = availability(true, true);
    assert_eq!(s.tick(&without_gpu), 0);
    assert_eq!(s.tick(&without_gpu), 2);
    assert_eq!(s.tick(&without_gpu), 3);
    assert_eq!(s.tick(&with_gpu), 0);
    assert_eq!(s.tick(&with_gpu), 1);
}

#[test]
fn nothing_available_falls_back_to_default() {
    assert_eq!(next_available(&vec![false, false, false], 1), 0);
    assert_eq!(next_available(&vec![false, true, false], 1), 1);
}

#[test]
fn default_dwell_keeps_screen_six_ticks() {
    let mut s = ScreenScheduler::new(SCREEN_COUNT, DEFAULT_DWELL);
    let avail = availability(true, true);
    let shown = run(&mut s, &avail, 7);
    assert_eq!(shown, vec![0, 0, 0, 0, 0, 0, 1]);
}

#[test]
fn missing_content_shows_default_for_one_tick() {
    let mut s = ScreenScheduler::new(4, 1);
    let avail = availability(true, true);
    let mut selected = 0;
    for _ in 0..4 {
        selected = s.tick(&avail);
    }
    assert_eq!(selected, 3);
    assert_eq!(shown_screen(selected, false), 0);
    assert_eq!(shown_screen(selected, true), 3);
    assert_eq!(s.active_screen_index, 3);
    assert_eq!(s.tick(&avail), 0);
}

#[test]
fn screens_by_index() {
    assert_eq!(Screen::from_index(0), Screen::SystemLoad);
    assert_eq!(Screen::from_index(1), Screen::GpuLoad);
    assert_eq!(Screen::from_index(2), Screen::PowerAndNetwork);
    assert_eq!(Screen::from_index(3), Screen::NowPlaying);
    assert_eq!(availability(false, true), vec![true, false, true, true]);
}

#[test]
fn cycle_shrinks_to_available_screens() {
    let avail = vec![true, false, true, false, true];
    let mut s = ScreenScheduler { active_screen_index: 2, ticks_on_current_screen: 0, dwell: 2, screen_count: 5 };
    let shown = run(&mut s, &avail, 7);
    assert_eq!(shown, vec![2, 2, 4, 4, 0, 0, 2]);
}

#[test]
fn single_available_screen_stays() {
    let avail = vec![false, false, true];
    let mut s = ScreenScheduler::new(3, 1);
    let shown = run(&mut s, &avail, 4);
    assert_eq!(shown, vec![0, 2, 2, 2]);
}
