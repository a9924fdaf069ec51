use bingers::errors::{classify_status, Error};
use bingers::retry::{backoff_delay_ms, drive_retry, retry_after_failure};
use bingers::sync::{discard_not_aired, discard_not_aired_at, discard_watched_by_pointer};
use bingers::tvmaze_api::{assign_show_id, Day, Episode, Network, Schedule, Show, Status};
use bingers::user_data::UserData;

fn rate_limited() -> Option<Error> {
    Some(Error::HttpStatus(429))
}

fn episode(episode_id: usize, show_id: usize, season: usize, number: usize) -> Episode {
    Episode {
        episode_id,
        show_id,
        name: format!("S{}E{}", season, number),
        season,
        number,
        airstamp: Some(1_500_000_000),
        runtime: 60,
        watched: false,
    }
}

fn show(id: usize) -> Show {
    Show {
        id,
        name: format!("Show {}", id),
        language: None,
        network: Some(Network {
            id: 1,
            name: "Net".to_string(),
        }),
        web_channel: None,
        status: Status::Running,
        runtime: Some(60),
        schedule: Schedule {
            days: vec![Day::Friday],
        },
        last_updated: 0,
        last_watched_episode: (0, 0),
    }
}

#[test]
fn rate_limits_then_success_succeeds() {
    for n in 0..6 {
        let mut outcomes: Vec<Option<Error>> = Vec::new();
        for _ in 0..n {
            outcomes.push(rate_limited());
        }
        outcomes.push(None);
        assert_eq!(None, drive_retry(&outcomes), "with {} rate limits", n);
    }
}

#[test]
fn rate_limited_on_all_six_attempts_fails() {
    let outcomes: Vec<Option<Error>> = (0..6).map(|_| rate_limited()).collect();
    assert_eq!(Some(Error::HttpStatus(429)), drive_retry(&outcomes));
}

#[test]
fn other_errors_are_never_retried() {
    // even with a success queued behind it, a non-rate-limit failure is final
    let outcomes = vec![Some(Error::HttpStatus(500)), None];
    assert_eq!(Some(Error::HttpStatus(500)), drive_retry(&outcomes));

    let outcomes = vec![Some(Error::Transport), None];
    assert_eq!(Some(Error::Transport), drive_retry(&outcomes));
}

#[test]
fn backoff_follows_the_fibonacci_run() {
    let delays: Vec<u64> = (0..6).map(backoff_delay_ms).collect();
    assert_eq!(vec![1000, 1000, 2000, 3000, 5000, 8000], delays);
}

#[test]
fn retry_consultation_is_exact() {
    assert_eq!(Some(1000), retry_after_failure(1, &Error::HttpStatus(429)));
    assert_eq!(Some(5000), retry_after_failure(5, &Error::HttpStatus(429)));
    assert_eq!(None, retry_after_failure(6, &Error::HttpStatus(429)));
    assert_eq!(None, retry_after_failure(1, &Error::HttpStatus(500)));
    assert_eq!(None, retry_after_failure(1, &Error::Transport));
    assert_eq!(None, retry_after_failure(1, &Error::Malformed));
}

#[test]
fn status_codes_classify() {
    assert_eq!(None, classify_status(200));
    assert_eq!(Some(Error::HttpStatus(404)), classify_status(404));
    assert_eq!(Some(Error::HttpStatus(429)), classify_status(429));
    assert_eq!("HTTP error", Error::HttpStatus(404).kind_message());
    assert_eq!(
        "user data version mismatch",
        Error::VersionMismatch {
            expected: 1,
            actual: 2
        }
        .kind_message()
    );
}

#[test]
fn fetched_episodes_get_their_show_id() {
    let eps = vec![episode(1, 0, 1, 1), episode(2, 0, 1, 2)];
    let tagged = assign_show_id(eps, 20263);
    assert_eq!(2, tagged.len());
    assert!(tagged.iter().all(|e| e.show_id == 20263));
    assert_eq!(1, tagged[0].episode_id);
    assert_eq!(2, tagged[1].episode_id);
}

#[test]
fn network_name_falls_back() {
    let mut s = show(1);
    assert_eq!("Net", s.network_name());
    s.network = None;
    s.web_channel = Some(Network {
        id: 2,
        name: "Web".to_string(),
    });
    assert_eq!("Web", s.network_name());
    s.web_channel = None;
    assert_eq!("Unknown", s.network_name());
}

#[test]
fn not_yet_aired_episodes_are_discarded() {
    let now = 1_600_000_000;
    let mut future = episode(1, 5, 1, 1);
    future.airstamp = Some(now + 1);
    let mut unscheduled = episode(2, 5, 1, 2);
    unscheduled.airstamp = None;
    let mut aired = episode(3, 5, 1, 3);
    aired.airstamp = Some(now);

    let kept = discard_not_aired_at(vec![future, unscheduled, aired], now);
    assert_eq!(1, kept.len());
    assert_eq!(3, kept[0].episode_id);
}

#[test]
fn unscheduled_episodes_never_surface() {
    let mut unscheduled = episode(2, 5, 1, 2);
    unscheduled.airstamp = None;
    let (kept, _now) = discard_not_aired(vec![unscheduled]);
    assert!(kept.is_empty());
}

#[test]
fn episodes_behind_the_pointer_are_discarded() {
    let mut data = UserData::new();
    let mut s = show(5);
    s.last_watched_episode = (1, 2);
    data.add_show(s);

    let behind = episode(1, 5, 1, 1);
    let at = episode(2, 5, 1, 2);
    let ahead = episode(3, 5, 1, 3);
    let unsubscribed = episode(4, 9, 1, 1);

    let kept = discard_watched_by_pointer(&data, vec![behind, at, ahead, unsubscribed]);
    assert_eq!(1, kept.len());
    assert_eq!(3, kept[0].episode_id);
}

#[test]
fn sync_updates_shows_and_ingests_new_episodes() {
    let mut data = UserData::new();
    data.add_show(show(5));
    data.add_show(show(6));
    data.add_episodes(vec![episode(1, 5, 1, 1)]);

    // only the show with a moved marker is reported, unless forced
    let mut moved = show(5);
    moved.last_updated = 7;
    let unchanged = show(6);
    let changed = data.update_subscribed_shows(vec![moved, unchanged], false);
    assert_eq!(vec![5], changed);

    let mut moved_again = show(5);
    moved_again.last_updated = 7;
    let forced = data.update_subscribed_shows(vec![moved_again, show(6)], true);
    assert_eq!(vec![5, 6], forced);

    // a fetched episode already stored is a refresh, not a new arrival
    let mut refreshed = episode(1, 5, 1, 1);
    refreshed.name = "Renamed".to_string();
    let fresh = data.refresh_known_episodes(vec![refreshed, episode(2, 5, 1, 2)]);
    assert_eq!(1, fresh.len());
    assert_eq!(2, fresh[0].episode_id);
    assert_eq!("Renamed", data.unwatched_episodes()[0].name);

    data.add_episodes(fresh);
    assert_eq!(2, data.unwatched_episodes().len());
}

#[test]
fn reconciler_ingests_only_aired_new_episodes() {
    let mut data = UserData::new();
    let mut s = show(5);
    s.last_watched_episode = (1, 1);
    data.add_show(s);
    data.add_episodes(vec![episode(2, 5, 1, 2)]);

    let now = 1_600_000_000;
    let behind = episode(1, 5, 1, 1); // at or behind the pointer
    let mut known = episode(2, 5, 1, 2);
    known.name = "Refreshed".to_string();
    let fresh = episode(3, 5, 1, 3);
    let mut future = episode(4, 5, 1, 4);
    future.airstamp = Some(now + 100);
    let mut unscheduled = episode(5, 5, 1, 5);
    unscheduled.airstamp = None;

    let arrivals =
        data.integrate_fetched_episodes_at(vec![behind, known, fresh, future, unscheduled], now);

    assert_eq!(1, arrivals.len());
    assert_eq!(3, arrivals[0].episode_id);
    assert_eq!(2, data.unwatched_episodes().len());
    assert_eq!("Refreshed", data.unwatched_episodes()[0].name);
    assert_eq!(3, data.unwatched_episodes()[1].episode_id);
}
