use vivere::counters::{window, EventCounts};

fn counts(births: u64, deaths: u64, bites: u64) -> EventCounts {
    EventCounts {
        births,
        deaths_starve: deaths,
        deaths_age: 0,
        deaths_predation: 1,
        bites,
        neighbor_hue_samples: births + bites,
    }
}

#[test]
fn the_first_row_counts_everything_and_later_rows_count_since_the_last() {
    let first = counts(10, 4, 7);
    assert_eq!(window(first, None), first);
    let second = counts(25, 4, 9);
    assert_eq!(
        window(second, Some(first)),
        EventCounts {
            births: 15,
            deaths_starve: 0,
            deaths_age: 0,
            deaths_predation: 0,
            bites: 2,
            neighbor_hue_samples: 17,
        }
    );
}

#[test]
fn window_counts_add_up_to_the_running_totals() {
    let samples = vec![counts(3, 1, 0), counts(3, 2, 5), counts(9, 2, 6), counts(40, 11, 6)];
    let mut births = 0;
    let mut deaths = 0;
    let mut bites = 0;
    let mut prev = None;
    for &s in &samples {
        let w = window(s, prev);
        births += w.births;
        deaths += w.deaths_starve;
        bites += w.bites;
        prev = Some(s);
    }
    assert_eq!((births, deaths, bites), (40, 11, 6));
}
