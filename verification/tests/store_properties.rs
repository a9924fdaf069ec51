use bingers::tvmaze_api::{Day, Episode, Network, Schedule, Show, Status};
use bingers::user_data::UserData;

fn show(id: usize, status: Status, last_updated: u64) -> Show {
    Show {
        id,
        name: format!("Show {}", id),
        language: Some("English".to_string()),
        network: Some(Network {
            id: 1,
            name: "Net".to_string(),
        }),
        web_channel: None,
        status,
        runtime: Some(60),
        schedule: Schedule {
            days: vec![Day::Monday],
        },
        last_updated,
        last_watched_episode: (0, 0),
    }
}

fn episode(episode_id: usize, show_id: usize, season: usize, number: usize) -> Episode {
    Episode {
        episode_id,
        show_id,
        name: format!("S{}E{}", season, number),
        season,
        number,
        airstamp: Some(1_500_000_000 + (season * 100 + number) as i64),
        runtime: 60,
        watched: false,
    }
}

fn store_with_four_episodes() -> UserData {
    let mut data = UserData::new();
    data.add_show(show(5, Status::Running, 0));
    data.add_episodes(vec![
        episode(11, 5, 1, 1),
        episode(12, 5, 1, 2),
        episode(13, 5, 1, 3),
        episode(14, 5, 1, 4),
    ]);
    data
}

/// Marking out of order must not advance the pointer or delete the earlier
/// episode while it is unwatched; marking the earlier one then collapses
/// both away.
#[test]
fn gap_mark_out_of_order_then_fill() {
    let mut data = UserData::new();
    data.add_show(show(5, Status::Running, 0));
    data.add_episodes(vec![episode(11, 5, 1, 1), episode(12, 5, 1, 2)]);

    assert_eq!(Some((1, 2)), data.mark_as_watched(5, Some(1), Some(2)));
    assert_eq!((0, 0), data.subscribed_shows()[0].last_watched_episode);
    assert_eq!(2, data.unwatched_episodes().len());
    assert!(!data.unwatched_episodes()[0].watched);
    assert!(data.unwatched_episodes()[1].watched);

    assert_eq!(Some((1, 1)), data.mark_as_watched(5, Some(1), Some(1)));
    assert_eq!((1, 2), data.subscribed_shows()[0].last_watched_episode);
    assert_eq!(0, data.unwatched_episodes().len());
}

/// After a gap is created by marking (1,4), the pointer stays put and all
/// four episodes remain; closing the run (1,1)-(1,3) in any order collapses
/// all four in one pass, advancing the pointer to (1,4).
#[test]
fn collapse_on_gap_closure() {
    let orders: Vec<[usize; 3]> = vec![
        [1, 2, 3],
        [1, 3, 2],
        [2, 1, 3],
        [2, 3, 1],
        [3, 1, 2],
        [3, 2, 1],
    ];
    for order in orders {
        let mut data = store_with_four_episodes();
        assert_eq!(Some((1, 4)), data.mark_as_watched(5, Some(1), Some(4)));
        assert_eq!((0, 0), data.subscribed_shows()[0].last_watched_episode);
        assert_eq!(4, data.unwatched_episodes().len());
        let watched_count = data
            .unwatched_episodes()
            .iter()
            .filter(|e| e.watched)
            .count();
        assert_eq!(1, watched_count);

        for number in order.iter() {
            data.mark_as_watched(5, Some(1), Some(*number));
        }
        assert_eq!((1, 4), data.subscribed_shows()[0].last_watched_episode);
        assert_eq!(0, data.unwatched_episodes().len());
    }
}

/// An episode number without a season is a caller error: nothing happens.
#[test]
fn episode_without_season_marks_nothing() {
    let mut data = store_with_four_episodes();
    assert_eq!(None, data.mark_as_watched(5, None, Some(2)));
    assert_eq!(4, data.unwatched_episodes().len());
    assert_eq!((0, 0), data.subscribed_shows()[0].last_watched_episode);
}

#[test]
fn update_show_reports_moved_marker() {
    let mut data = UserData::new();
    data.add_show(show(5, Status::Running, 10));

    // same marker: metadata refreshed, nothing reported
    let mut refreshed = show(5, Status::Ended, 10);
    refreshed.name = "Renamed".to_string();
    assert!(!data.update_show(refreshed));
    assert_eq!("Renamed", data.subscribed_shows()[0].name);
    assert_eq!(Status::Ended, data.subscribed_shows()[0].status);

    // moved marker is reported
    assert!(data.update_show(show(5, Status::Ended, 11)));
    assert_eq!(11, data.subscribed_shows()[0].last_updated);

    // an unknown show changes nothing
    assert!(!data.update_show(show(77, Status::Running, 0)));
    assert_eq!(1, data.subscribed_shows().len());
}

#[test]
fn update_show_keeps_watch_pointer() {
    let mut data = store_with_four_episodes();
    assert_eq!(Some((1, 1)), data.mark_as_watched(5, None, None));
    assert_eq!((1, 1), data.subscribed_shows()[0].last_watched_episode);

    assert!(data.update_show(show(5, Status::Running, 99)));
    assert_eq!((1, 1), data.subscribed_shows()[0].last_watched_episode);
}

#[test]
fn update_episode_refreshes_known() {
    let mut data = store_with_four_episodes();

    let mut refreshed = episode(12, 5, 1, 2);
    refreshed.name = "New Title".to_string();
    refreshed.runtime = 42;
    assert!(data.update_episode(&refreshed));
    let stored: Vec<&Episode> = data
        .unwatched_episodes()
        .iter()
        .filter(|e| e.episode_id == 12)
        .collect();
    assert_eq!(1, stored.len());
    assert_eq!("New Title", stored[0].name);
    assert_eq!(42, stored[0].runtime);
    assert!(!stored[0].watched);

    let unknown = episode(99, 5, 9, 9);
    assert!(!data.update_episode(&unknown));
    assert_eq!(4, data.unwatched_episodes().len());
}

#[test]
fn update_episode_repositions_on_renumbering() {
    let mut data = store_with_four_episodes();

    // episode 11 moves from (1,1) to (1,5): it must end up last
    let moved = episode(11, 5, 1, 5);
    assert!(data.update_episode(&moved));
    let eps = data.unwatched_episodes();
    assert_eq!(4, eps.len());
    assert_eq!(12, eps[0].episode_id);
    assert_eq!(11, eps[3].episode_id);
    assert_eq!((1, 5), (eps[3].season, eps[3].number));
}

#[test]
fn shows_listed_most_recent_first() {
    let mut data = UserData::new();
    data.add_show(show(1, Status::Ended, 50));
    data.add_show(show(2, Status::Running, 10));
    data.add_show(show(3, Status::Running, 20));
    data.add_show(show(4, Status::ToBeDetermined, 5));

    let listed = data.subscribed_shows_by_most_recent();
    let ids: Vec<usize> = listed.iter().map(|s| s.id).collect();
    assert_eq!(vec![3, 2, 4, 1], ids);
}

#[test]
fn episodes_listed_oldest_first_with_unscheduled_last() {
    let mut data = UserData::new();
    data.add_show(show(5, Status::Running, 0));
    let mut unscheduled = episode(15, 5, 2, 1);
    unscheduled.airstamp = None;
    let mut late = episode(13, 5, 1, 3);
    late.airstamp = Some(2_000_000_000);
    let mut early = episode(11, 5, 1, 1);
    early.airstamp = Some(1_000_000_000);
    data.add_episodes(vec![early, late, unscheduled]);

    let listed = data.unwatched_episodes_oldest_first();
    let ids: Vec<usize> = listed.iter().map(|e| e.episode_id).collect();
    assert_eq!(vec![11, 13, 15], ids);
}
